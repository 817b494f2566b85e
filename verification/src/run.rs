//! Run, Build and Stop as the workbench sees them: the status line, the
//! console, and the problems a build reports, folded from a session's events.

use vstd::prelude::*;
use crate::message::{location_of, severity_label, Diagnostic, DiagnosticView, Severity};
use crate::session::{Event, EventView, Intent, OutcomeView, Phase, Profile, Outcome};
use crate::text::{lines, lines_of, push_str, views};
use crate::workspace::{node_at, node_at_spec, LineMap, NodeId};

verus! {

/// A console that grows without bound is a memory leak with a scrollbar. Old
/// lines go first; the tail is the part anyone reads.
pub const MAX_LINES: usize = 5000;

/// Which half of the bottom pane is showing.
#[derive(Debug, Clone, Copy, PartialEq, Eq, Structural)]
pub enum Bottom {
    Problems,
    Console,
}

impl Default for Bottom {
    fn default() -> (r: Bottom)
        ensures
            r == Bottom::Problems,
    {
        Bottom::Problems
    }
}

/// Where a build has got to.
#[derive(Debug, Clone, PartialEq, Eq)]
pub enum Status {
    Idle,
    Building,
    /// Built, and the app is up.
    Running,
    /// Built, and that was all that was asked for.
    Built,
    Failed(String),
    Stopped,
}

/// A status as plain values.
pub enum StatusView {
    Idle,
    Building,
    Running,
    Built,
    Failed(Seq<char>),
    Stopped,
}

impl View for Status {
    type V = StatusView;

    open spec fn view(&self) -> StatusView {
        match self {
            Status::Idle => StatusView::Idle,
            Status::Building => StatusView::Building,
            Status::Running => StatusView::Running,
            Status::Built => StatusView::Built,
            Status::Failed(why) => StatusView::Failed(why@),
            Status::Stopped => StatusView::Stopped,
        }
    }
}

impl Default for Status {
    fn default() -> (r: Status)
        ensures
            r@ == StatusView::Idle,
    {
        Status::Idle
    }
}

/// What the status line says.
pub open spec fn status_label(s: StatusView) -> Seq<char> {
    match s {
        StatusView::Idle => "Ready"@,
        StatusView::Building => "Building…"@,
        StatusView::Running => "Running"@,
        StatusView::Built => "Build succeeded"@,
        StatusView::Failed(why) => "Build failed — "@ + why,
        StatusView::Stopped => "Stopped"@,
    }
}

/// The same, saying which build it was when a release build is under way.
pub open spec fn status_labelled(s: StatusView, profile: Profile) -> Seq<char> {
    if s == StatusView::Building && profile == Profile::Release {
        "Building release…"@
    } else {
        status_label(s)
    }
}

impl Status {
    /// Whether something is in flight: the button says Stop.
    pub fn busy(&self) -> (r: bool)
        ensures
            r == (self@ == StatusView::Building || self@ == StatusView::Running),
    {
        match self {
            Status::Building | Status::Running => true,
            _ => false,
        }
    }

    pub fn label(&self) -> (r: String)
        ensures
            r@ == status_label(self@),
    {
        match self {
            Status::Idle => String::from_str("Ready"),
            Status::Building => String::from_str("Building…"),
            Status::Running => String::from_str("Running"),
            Status::Built => String::from_str("Build succeeded"),
            Status::Failed(why) => {
                let mut out = String::from_str("Build failed — ");
                push_str(&mut out, why.as_str());
                out
            },
            Status::Stopped => String::from_str("Stopped"),
        }
    }

    /// The label, saying which build it was.
    pub fn labelled(&self, profile: Profile) -> (r: String)
        ensures
            r@ == status_labelled(self@, profile),
    {
        match self {
            Status::Building => {
                if profile == Profile::Release {
                    return String::from_str("Building release…");
                }
            },
            _ => {},
        }
        self.label()
    }
}

/// One line in the console, tagged with what produced it.
#[derive(Debug, Clone, PartialEq, Eq)]
pub struct ConsoleLine {
    pub phase: Phase,
    pub text: String,
}

/// The console's lines as plain values.
pub open spec fn console_view(c: Seq<ConsoleLine>) -> Seq<(Phase, Seq<char>)> {
    c.map_values(|l: ConsoleLine| (l.phase, l.text@))
}

/// The console after one more line: the line at the end, and only the last
/// `MAX_LINES` kept.
pub open spec fn console_push(c: Seq<(Phase, Seq<char>)>, line: (Phase, Seq<char>)) -> Seq<
    (Phase, Seq<char>),
> {
    let grown = c.push(line);
    if grown.len() > MAX_LINES {
        grown.skip(grown.len() - MAX_LINES)
    } else {
        grown
    }
}

/// Several lines pushed in turn.
pub open spec fn console_push_all(
    c: Seq<(Phase, Seq<char>)>,
    phase: Phase,
    texts: Seq<Seq<char>>,
) -> Seq<(Phase, Seq<char>)>
    decreases texts.len(),
{
    if texts.len() == 0 {
        c
    } else {
        console_push(console_push_all(c, phase, texts.drop_last()), (phase, texts.last()))
    }
}

/// How bad a problem is, as the Problems panel ranks it.
#[derive(Debug, Clone, Copy, PartialEq, Eq, Structural)]
pub enum LintSeverity {
    Error,
    Warning,
    Info,
}

/// A compiler complaint, as the Problems panel wants it: what to show, the
/// node that generated the code it is about, and where to go.
#[derive(Debug, Clone, PartialEq, Eq)]
pub struct BuildProblem {
    pub severity: LintSeverity,
    pub node: Option<NodeId>,
    pub message: String,
    /// Where it points: `file:line:col`.
    pub fix: String,
    pub file: String,
    pub line: usize,
}

/// A problem as plain values.
pub struct ProblemView {
    pub severity: LintSeverity,
    pub node: Option<NodeId>,
    pub message: Seq<char>,
    pub fix: Seq<char>,
    pub file: Seq<char>,
    pub line: usize,
}

impl View for BuildProblem {
    type V = ProblemView;

    open spec fn view(&self) -> ProblemView {
        ProblemView {
            severity: self.severity,
            node: self.node,
            message: self.message@,
            fix: self.fix@,
            file: self.file@,
            line: self.line,
        }
    }
}

/// Everything the workbench knows about building and running.
pub struct Build {
    pub status: Status,
    pub console: Vec<ConsoleLine>,
    /// Compiler diagnostics as problems, resolved back to the nodes that
    /// generated them.
    pub problems: Vec<BuildProblem>,
    /// The same messages unflattened.
    pub diagnostics: Vec<Diagnostic>,
    /// Where each node ended up, captured when the build started.
    pub lines: LineMap,
    pub profile: Profile,
}

impl Default for Build {
    fn default() -> (r: Build)
        ensures
            r@.status == StatusView::Idle,
            r@.console.len() == 0,
            r@.problems.len() == 0,
            r@.diagnostics.len() == 0,
            r.lines.files@.len() == 0,
            r.profile == Profile::Debug,
    {
        Build::new(Profile::Debug)
    }
}

/// The state a build's events fold into, as plain values.
pub struct BuildView {
    pub status: StatusView,
    pub console: Seq<(Phase, Seq<char>)>,
    pub problems: Seq<ProblemView>,
    pub diagnostics: Seq<DiagnosticView>,
}

impl View for Build {
    type V = BuildView;

    open spec fn view(&self) -> BuildView {
        BuildView {
            status: self.status@,
            console: console_view(self.console@),
            problems: self.problems@.map_values(|p: BuildProblem| p@),
            diagnostics: self.diagnostics@.map_values(|d: Diagnostic| d@),
        }
    }
}

/// The lint severity a compiler severity becomes.
pub open spec fn lint_of(s: Severity) -> LintSeverity {
    match s {
        Severity::Error => LintSeverity::Error,
        Severity::Warning => LintSeverity::Warning,
        _ => LintSeverity::Info,
    }
}

/// `[E0425] ` in front of a message that has a code.
pub open spec fn code_prefix(code: Option<Seq<char>>) -> Seq<char> {
    match code {
        Some(c) => seq!['['] + c + seq![']', ' '],
        None => Seq::empty(),
    }
}

/// A diagnostic recorded: notes and helps are dropped (they are already in
/// the rendered error above them); anything worse is kept, and becomes a
/// problem pointing at the node its line resolves to.
pub open spec fn recorded(b: BuildView, lines: LineMap, d: DiagnosticView) -> BuildView {
    let severity = lint_of(d.severity);
    if severity == LintSeverity::Info {
        b
    } else {
        BuildView {
            status: b.status,
            console: b.console,
            problems: b.problems.push(
                ProblemView {
                    severity,
                    node: node_at_spec(lines.files@, d.file, d.line),
                    message: code_prefix(d.code) + d.message,
                    fix: location_of(d),
                    file: d.file,
                    line: d.line,
                },
            ),
            diagnostics: b.diagnostics.push(d),
        }
    }
}

/// The word for a phase in the console.
pub open spec fn phase_noun(p: Phase) -> Seq<char> {
    match p {
        Phase::Build => "build"@,
        Phase::Run => "run"@,
    }
}

/// The status a finished phase leaves, and whether it ended the session.
pub open spec fn finish_status(intent: Intent, phase: Phase, outcome: OutcomeView) -> (
    StatusView,
    bool,
) {
    match outcome {
        OutcomeView::Succeeded => if phase == Phase::Build && intent == Intent::Run {
            (StatusView::Running, false)
        } else {
            (StatusView::Built, true)
        },
        OutcomeView::Cancelled => (StatusView::Stopped, true),
        OutcomeView::Failed(why) => (StatusView::Failed(why), true),
    }
}

/// The console line that closes a finished session: `— build finished —`.
pub open spec fn closing_line(phase: Phase, outcome: OutcomeView) -> Seq<char> {
    let ending = match outcome {
        OutcomeView::Succeeded => "finished"@,
        OutcomeView::Cancelled => "stopped"@,
        OutcomeView::Failed(why) => why,
    };
    "— "@ + phase_noun(phase) + seq![' '] + ending + " —"@
}

/// One event folded into the build state, and whether it ended the session.
pub open spec fn applied(b: BuildView, lines: LineMap, intent: Intent, e: EventView) -> (
    BuildView,
    bool,
) {
    match e {
        EventView::Line(phase, text) => {
            let console = if text.len() == 0 {
                console_push(b.console, (phase, Seq::empty()))
            } else {
                console_push_all(b.console, phase, lines_of(text))
            };
            (
                BuildView {
                    status: b.status,
                    console,
                    problems: b.problems,
                    diagnostics: b.diagnostics,
                },
                false,
            )
        },
        EventView::Diagnostic(d) => (recorded(b, lines, d), false),
        EventView::Finished(phase, outcome) => {
            let (status, finished) = finish_status(intent, phase, outcome);
            let console = if finished {
                console_push(b.console, (phase, closing_line(phase, outcome)))
            } else {
                b.console
            };
            (
                BuildView {
                    status,
                    console,
                    problems: b.problems,
                    diagnostics: b.diagnostics,
                },
                finished,
            )
        },
    }
}

impl Build {
    pub fn new(profile: Profile) -> (r: Build)
        ensures
            r@.status == StatusView::Idle,
            r@.console.len() == 0,
            r@.problems.len() == 0,
            r@.diagnostics.len() == 0,
            r.lines.files@.len() == 0,
            r.profile == profile,
    {
        Build {
            status: Status::Idle,
            console: Vec::new(),
            problems: Vec::new(),
            diagnostics: Vec::new(),
            lines: LineMap::new(),
            profile,
        }
    }

    /// Add a line to the console, dropping the oldest past `MAX_LINES`.
    pub fn push(&mut self, phase: Phase, text: String)
        ensures
            console_view(final(self).console@) == console_push(
                console_view(old(self).console@),
                (phase, text@),
            ),
            final(self).status == old(self).status,
            final(self).problems == old(self).problems,
            final(self).diagnostics == old(self).diagnostics,
            final(self).lines == old(self).lines,
            final(self).profile == old(self).profile,
    {
        let ghost before = console_view(self.console@);
        self.console.push(ConsoleLine { phase, text });
        proof {
            assert(console_view(self.console@) =~= before.push((phase, text@)));
        }
        let n = self.console.len();
        if n > MAX_LINES {
            let excess = n - MAX_LINES;
            let mut kept: Vec<ConsoleLine> = Vec::new();
            let mut i: usize = excess;
            while i < n
                invariant
                    excess <= i <= n,
                    n == self.console.len(),
                    console_view(kept@) == console_view(self.console@).subrange(
                        excess as int,
                        i as int,
                    ),
                decreases n - i,
            {
                let line = ConsoleLine {
                    phase: self.console[i].phase,
                    text: self.console[i].text.clone(),
                };
                let ghost k0 = console_view(kept@);
                kept.push(line);
                proof {
                    assert(console_view(kept@) =~= k0.push((line.phase, line.text@)));
                    assert(console_view(kept@) =~= console_view(self.console@).subrange(
                        excess as int,
                        i + 1,
                    ));
                }
                i = i + 1;
            }
            proof {
                assert(console_view(kept@) =~= console_view(self.console@).skip(excess as int));
            }
            self.console = kept;
        }
    }

    /// Turn a compiler diagnostic into a problem pointing at a component.
    fn record_diagnostic(&mut self, diagnostic: Diagnostic)
        requires
            old(self).lines.well_formed(),
        ensures
            final(self)@ == recorded(old(self)@, old(self).lines, diagnostic@),
            final(self).lines == old(self).lines,
            final(self).profile == old(self).profile,
    {
        let severity = match diagnostic.severity {
            Severity::Error => LintSeverity::Error,
            Severity::Warning => LintSeverity::Warning,
            _ => LintSeverity::Info,
        };
        if severity == LintSeverity::Info {
            return;
        }
        let node = node_at(&self.lines, diagnostic.file.as_str(), diagnostic.line);
        let mut message = String::new();
        match &diagnostic.code {
            Some(code) => {
                crate::text::push_char(&mut message, '[');
                push_str(&mut message, code.as_str());
                crate::text::push_char(&mut message, ']');
                crate::text::push_char(&mut message, ' ');
            },
            None => {},
        }
        push_str(&mut message, diagnostic.message.as_str());
        let fix = diagnostic.location();
        let file = diagnostic.file.clone();
        let line = diagnostic.line;
        let ghost dv = diagnostic@;
        let ghost old_problems = self.problems@.map_values(|p: BuildProblem| p@);
        let ghost old_diags = self.diagnostics@.map_values(|d: Diagnostic| d@);
        self.diagnostics.push(diagnostic);
        let problem = BuildProblem { severity, node, message, fix, file, line };
        self.problems.push(problem);
        proof {
            assert(message@ =~= code_prefix(dv.code) + dv.message);
            assert(self.problems@.map_values(|p: BuildProblem| p@) =~= old_problems.push(problem@));
            assert(self.diagnostics@.map_values(|d: Diagnostic| d@) =~= old_diags.push(dv));
        }
    }

    /// Fold one event into the console, the status and the problem list.
    /// Returns whether it ended the session.
    pub fn apply_build_event(&mut self, intent: Intent, event: Event) -> (finished: bool)
        requires
            old(self).lines.well_formed(),
        ensures
            (final(self)@, finished) == applied(old(self)@, old(self).lines, intent, event@),
            final(self).lines == old(self).lines,
            final(self).profile == old(self).profile,
    {
        match event {
            Event::Line(phase, text) => {
                if text.as_str().is_empty() {
                    self.push(phase, String::new());
                } else {
                    let parts = lines(text.as_str());
                    let ghost start = console_view(self.console@);
                    let mut i: usize = 0;
                    while i < parts.len()
                        invariant
                            i <= parts.len(),
                            console_view(self.console@) == console_push_all(
                                start,
                                phase,
                                views(parts@).take(i as int),
                            ),
                            self.status == old(self).status,
                            self.problems == old(self).problems,
                            self.diagnostics == old(self).diagnostics,
                            self.lines == old(self).lines,
                            self.profile == old(self).profile,
                        decreases parts.len() - i,
                    {
                        proof {
                            assert(views(parts@).take(i + 1).drop_last() =~= views(parts@).take(
                                i as int,
                            ));
                        }
                        let part = parts[i].clone();
                        self.push(phase, part);
                        i = i + 1;
                    }
                    proof {
                        assert(views(parts@).take(parts.len() as int) =~= views(parts@));
                    }
                }
                false
            },
            Event::Diagnostic(diagnostic) => {
                self.record_diagnostic(diagnostic);
                false
            },
            Event::Finished(phase, outcome) => {
                let ghost ov = outcome@;
                let (status, finished) = match &outcome {
                    Outcome::Succeeded => {
                        if phase == Phase::Build && intent == Intent::Run {
                            (Status::Running, false)
                        } else {
                            (Status::Built, true)
                        }
                    },
                    Outcome::Cancelled => (Status::Stopped, true),
                    Outcome::Failed(why) => (Status::Failed(why.clone()), true),
                };
                self.status = status;
                if finished {
                    let mut text = String::from_str("— ");
                    match phase {
                        Phase::Build => push_str(&mut text, "build"),
                        Phase::Run => push_str(&mut text, "run"),
                    }
                    crate::text::push_char(&mut text, ' ');
                    match &outcome {
                        Outcome::Succeeded => push_str(&mut text, "finished"),
                        Outcome::Cancelled => push_str(&mut text, "stopped"),
                        Outcome::Failed(why) => push_str(&mut text, why.as_str()),
                    }
                    push_str(&mut text, " —");
                    proof {
                        assert(text@ =~= closing_line(phase, ov));
                    }
                    self.push(phase, text);
                }
                finished
            },
        }
    }
}

/// Events folded in turn, stopping after the one that ends the session:
/// the build state, and whether the session ended.
pub open spec fn applied_all(b: BuildView, lines: LineMap, intent: Intent, es: Seq<EventView>) -> (
    BuildView,
    bool,
)
    decreases es.len(),
{
    if es.len() == 0 {
        (b, false)
    } else {
        let (prev, done) = applied_all(b, lines, intent, es.drop_last());
        if done {
            (prev, true)
        } else {
            applied(prev, lines, intent, es.last())
        }
    }
}

proof fn lemma_applied_all_done(b: BuildView, lines: LineMap, intent: Intent, es: Seq<EventView>, i: int)
    requires
        0 <= i <= es.len(),
        applied_all(b, lines, intent, es.take(i)).1,
    ensures
        applied_all(b, lines, intent, es) == applied_all(b, lines, intent, es.take(i)),
    decreases es.len(),
{
    if i < es.len() {
        assert(es.drop_last().take(i) =~= es.take(i));
        lemma_applied_all_done(b, lines, intent, es.drop_last(), i);
    } else {
        assert(es.take(i) =~= es);
    }
}

impl Build {
    /// Take everything the session has produced since the last poll, in
    /// order. Returns whether the session ended; nothing after the event
    /// that ended it is applied.
    pub fn drain(&mut self, intent: Intent, events: Vec<Event>) -> (finished: bool)
        requires
            old(self).lines.well_formed(),
        ensures
            (final(self)@, finished) == applied_all(
                old(self)@,
                old(self).lines,
                intent,
                crate::session::event_views(events@),
            ),
            final(self).lines == old(self).lines,
            final(self).profile == old(self).profile,
    {
        let ghost start = self@;
        let ghost evs = crate::session::event_views(events@);
        let ghost orig = events@;
        let n = events.len();
        let mut events = events;
        let mut rev: Vec<Event> = Vec::new();
        while events.len() > 0
            invariant
                events@.len() + rev@.len() == n,
                n == orig.len(),
                events@ == orig.take(events@.len() as int),
                forall|k: int| 0 <= k < rev@.len() ==> #[trigger] rev@[k] == orig[n - 1 - k],
            decreases events.len(),
        {
            let ghost before = events@;
            let e = events.pop().unwrap();
            proof {
                assert(e == orig[events@.len() as int]);
                assert(events@ =~= orig.take(events@.len() as int));
            }
            rev.push(e);
        }
        let mut finished = false;
        let mut i: usize = 0;
        while rev.len() > 0 && !finished
            invariant
                rev@.len() + i == n,
                n == orig.len(),
                evs == crate::session::event_views(orig),
                forall|k: int| 0 <= k < rev@.len() ==> #[trigger] rev@[k] == orig[n - 1 - k],
                (self@, finished) == applied_all(start, self.lines, intent, evs.take(i as int)),
                self.lines == old(self).lines,
                self.lines.well_formed(),
                self.profile == old(self).profile,
            decreases rev.len(),
        {
            let e = rev.pop().unwrap();
            proof {
                assert(e == orig[i as int]);
                assert(evs.take(i + 1).drop_last() =~= evs.take(i as int));
                assert(evs[i as int] == e@);
            }
            finished = self.apply_build_event(intent, e);
            i = i + 1;
        }
        proof {
            if finished {
                lemma_applied_all_done(start, self.lines, intent, evs, i as int);
            } else {
                assert(evs.take(i as int) =~= evs);
            }
        }
        finished
    }
}

/// The console's first line for a build: `My App · debug → /path`.
pub open spec fn started_text(name: Seq<char>, profile: Profile, root: Seq<char>) -> Seq<char> {
    let word = match profile {
        Profile::Debug => "debug"@,
        Profile::Release => "release"@,
    };
    name + " · "@ + word + " → "@ + root
}

/// The console's first line for a build of `name` into `root`.
pub fn started_line(name: &str, profile: Profile, root: &str) -> (r: String)
    ensures
        r@ == started_text(name@, profile, root@),
{
    let mut out = String::new();
    push_str(&mut out, name);
    push_str(&mut out, " · ");
    match profile {
        Profile::Debug => push_str(&mut out, "debug"),
        Profile::Release => push_str(&mut out, "release"),
    }
    push_str(&mut out, " → ");
    push_str(&mut out, root);
    proof {
        assert(out@ =~= started_text(name@, profile, root@));
    }
    out
}

impl Build {
    /// A new build begins: the console and problems of the last one go, the
    /// status says Building, and `lines` is where each node ended up in the
    /// code about to be compiled.
    pub fn begin(&mut self, lines: LineMap)
        requires
            lines.well_formed(),
        ensures
            final(self)@.status == StatusView::Building,
            final(self)@.console.len() == 0,
            final(self)@.problems.len() == 0,
            final(self)@.diagnostics.len() == 0,
            final(self).lines == lines,
            final(self).profile == old(self).profile,
    {
        self.console = Vec::new();
        self.problems = Vec::new();
        self.diagnostics = Vec::new();
        self.status = Status::Building;
        self.lines = lines;
    }

    /// Stop was pressed: the console says so at once, before the session
    /// reports how it ended.
    pub fn note_stopped(&mut self)
        ensures
            console_view(final(self).console@) == console_push(
                console_view(old(self).console@),
                (Phase::Build, "— stopped —"@),
            ),
            final(self).status == old(self).status,
            final(self).problems == old(self).problems,
            final(self).diagnostics == old(self).diagnostics,
            final(self).lines == old(self).lines,
            final(self).profile == old(self).profile,
    {
        self.push(Phase::Build, String::from_str("— stopped —"));
    }

    /// A build that could not start: the reason goes to the console and the
    /// status line.
    pub fn refuse(&mut self, why: String)
        ensures
            final(self)@.status == StatusView::Failed(why@),
            console_view(final(self).console@) == console_push(
                console_view(old(self).console@),
                (Phase::Build, why@),
            ),
            final(self).problems == old(self).problems,
            final(self).diagnostics == old(self).diagnostics,
            final(self).lines == old(self).lines,
            final(self).profile == old(self).profile,
    {
        let shown = why.clone();
        self.push(Phase::Build, shown);
        self.status = Status::Failed(why);
    }
}

/// Whether a status has something in flight.
pub open spec fn is_busy(s: StatusView) -> bool {
    s == StatusView::Building || s == StatusView::Running
}

/// The console never holds more than `MAX_LINES`: a new line always lands at
/// the end, and what is kept is the tail of everything written, so the oldest
/// lines are the ones that go.
pub proof fn the_console_keeps_the_tail(c: Seq<(Phase, Seq<char>)>, line: (Phase, Seq<char>))
    requires
        c.len() <= MAX_LINES,
    ensures
        console_push(c, line).len() <= MAX_LINES,
        console_push(c, line).last() == line,
        c.push(line).len() >= console_push(c, line).len(),
        console_push(c, line) == c.push(line).skip(
            c.push(line).len() - console_push(c, line).len(),
        ),
        c.len() < MAX_LINES ==> console_push(c, line) == c.push(line),
{
    let grown = c.push(line);
    if grown.len() > MAX_LINES {
        assert(grown.skip(grown.len() - MAX_LINES).last() == grown.last());
    } else {
        assert(grown.skip(0) =~= grown);
    }
}

/// Once a session has ended, nothing is in flight: the toolbar offers Run
/// again. While it goes on (a build that succeeded on the way to a launch)
/// the app is running, which Stop applies to.
pub proof fn a_finished_session_is_not_busy(intent: Intent, phase: Phase, outcome: OutcomeView)
    ensures
        finish_status(intent, phase, outcome).1 ==> !is_busy(finish_status(intent, phase, outcome).0),
        !finish_status(intent, phase, outcome).1 ==> finish_status(intent, phase, outcome).0
            == StatusView::Running,
{
}

/// A plain Build never launches anything, whatever phase reports success;
/// only a Run intent goes on from a successful build.
pub proof fn a_build_alone_never_runs(phase: Phase, outcome: OutcomeView)
    ensures
        finish_status(Intent::Build, phase, outcome).1,
        finish_status(Intent::Build, phase, outcome).0 != StatusView::Running,
{
}

/// Events never lose a problem: problems and diagnostics only ever grow,
/// and console lines and finishes leave them as they were.
pub proof fn problems_are_never_lost(b: BuildView, lines: LineMap, intent: Intent, e: EventView)
    ensures
        applied(b, lines, intent, e).0.problems.take(b.problems.len() as int) == b.problems,
        applied(b, lines, intent, e).0.diagnostics.take(b.diagnostics.len() as int) == b.diagnostics,
        !(e is Diagnostic) ==> applied(b, lines, intent, e).0.problems == b.problems,
{
    let r = applied(b, lines, intent, e).0;
    match e {
        EventView::Diagnostic(d) => {
            if lint_of(d.severity) != LintSeverity::Info {
                assert(r.problems.take(b.problems.len() as int) =~= b.problems);
                assert(r.diagnostics.take(b.diagnostics.len() as int) =~= b.diagnostics);
            } else {
                assert(r.problems.take(b.problems.len() as int) =~= b.problems);
                assert(r.diagnostics.take(b.diagnostics.len() as int) =~= b.diagnostics);
            }
        },
        _ => {
            assert(r.problems.take(b.problems.len() as int) =~= b.problems);
            assert(r.diagnostics.take(b.diagnostics.len() as int) =~= b.diagnostics);
        },
    }
}

/// A compiler diagnostic becomes a problem: notes and helps change nothing
/// (they are already part of the error above them); an error or a warning
/// is kept as it came and becomes a problem at the same level, on the same
/// file and line, pointing at the node its line maps to, saying
/// `[code] message` (or just the message), with the diagnostic's location to
/// go to.
pub proof fn a_diagnostic_becomes_a_problem(b: BuildView, lines: LineMap, d: DiagnosticView)
    ensures
        (d.severity == Severity::Note || d.severity == Severity::Help) ==> recorded(b, lines, d)
            == b,
        (d.severity == Severity::Error || d.severity == Severity::Warning) ==> {
            let r = recorded(b, lines, d);
            let p = r.problems.last();
            &&& r.status == b.status
            &&& r.console == b.console
            &&& r.diagnostics == b.diagnostics.push(d)
            &&& r.problems == b.problems.push(p)
            &&& p.severity == (if d.severity == Severity::Error {
                LintSeverity::Error
            } else {
                LintSeverity::Warning
            })
            &&& p.file == d.file
            &&& p.line == d.line
            &&& p.node == node_at_spec(lines.files@, d.file, d.line)
            &&& p.message == match d.code {
                Some(c) => seq!['['] + c + seq![']', ' '] + d.message,
                None => d.message,
            }
            &&& p.fix == location_of(d)
        },
{
    let r = recorded(b, lines, d);
    if d.severity == Severity::Error || d.severity == Severity::Warning {
        assert(r.problems.last() == r.problems[b.problems.len() as int]);
        match d.code {
            Some(c) => {},
            None => {
                assert(Seq::<char>::empty() + d.message =~= d.message);
            },
        }
    }
}

} // verus!
