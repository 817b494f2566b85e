//! Running a build, and then running what it built: the decisions.
//!
//! A session is two phases: `cargo build --message-format=json`, then the
//! linked binary. The processes, pipes and threads are the caller's; what is
//! here is what every line, every exit and every Stop means.

use vstd::prelude::*;
use crate::message::{Diagnostic, DiagnosticView, Message, MessageView, Severity};
use crate::text::{decimal, push_str, signed_decimal, write_decimal};

verus! {

/// Which half of the session a line came from.
#[derive(Debug, Clone, Copy, PartialEq, Eq, Structural)]
pub enum Phase {
    Build,
    Run,
}

pub open spec fn phase_label(p: Phase) -> Seq<char> {
    match p {
        Phase::Build => "Build"@,
        Phase::Run => "Run"@,
    }
}

impl Phase {
    pub fn label(self) -> (r: &'static str)
        ensures
            r@ == phase_label(self),
    {
        match self {
            Phase::Build => "Build",
            Phase::Run => "Run",
        }
    }
}

/// How a phase ended.
#[derive(Debug, Clone, PartialEq, Eq)]
pub enum Outcome {
    Succeeded,
    /// The compiler rejected it, or the program exited non-zero.
    Failed(String),
    /// Stop was pressed.
    Cancelled,
}

/// Everything the app hears from a session.
#[derive(Debug, Clone, PartialEq, Eq)]
pub enum Event {
    /// A line for the console, tagged with what produced it.
    Line(Phase, String),
    Diagnostic(Diagnostic),
    Finished(Phase, Outcome),
}

/// An outcome's contents as plain values.
pub enum OutcomeView {
    Succeeded,
    Failed(Seq<char>),
    Cancelled,
}

impl View for Outcome {
    type V = OutcomeView;

    open spec fn view(&self) -> OutcomeView {
        match self {
            Outcome::Succeeded => OutcomeView::Succeeded,
            Outcome::Failed(why) => OutcomeView::Failed(why@),
            Outcome::Cancelled => OutcomeView::Cancelled,
        }
    }
}

/// An event's contents as plain values.
pub enum EventView {
    Line(Phase, Seq<char>),
    Diagnostic(DiagnosticView),
    Finished(Phase, OutcomeView),
}

impl View for Event {
    type V = EventView;

    open spec fn view(&self) -> EventView {
        match self {
            Event::Line(p, t) => EventView::Line(*p, t@),
            Event::Diagnostic(d) => EventView::Diagnostic(d@),
            Event::Finished(p, o) => EventView::Finished(*p, o@),
        }
    }
}

/// The views of a sequence of events.
pub open spec fn event_views(events: Seq<Event>) -> Seq<EventView> {
    events.map_values(|e: Event| e@)
}

/// What a session was asked to do.
#[derive(Debug, Clone, Copy, PartialEq, Eq, Structural)]
pub enum Intent {
    /// Compile only.
    Build,
    /// Compile, then launch.
    Run,
}

/// Which build cargo makes.
#[derive(Debug, Clone, Copy, PartialEq, Eq, Structural)]
pub enum Profile {
    Debug,
    Release,
}

impl Default for Profile {
    fn default() -> (r: Profile)
        ensures
            r == Profile::Debug,
    {
        Profile::Debug
    }
}

pub open spec fn profile_label(p: Profile) -> Seq<char> {
    match p {
        Profile::Debug => "Debug"@,
        Profile::Release => "Release"@,
    }
}

pub open spec fn profile_flag(p: Profile) -> Option<Seq<char>> {
    match p {
        Profile::Debug => None,
        Profile::Release => Some("--release"@),
    }
}

impl Profile {
    pub fn label(self) -> (r: &'static str)
        ensures
            r@ == profile_label(self),
    {
        match self {
            Profile::Debug => "Debug",
            Profile::Release => "Release",
        }
    }

    /// The flag, if it needs one. Debug is cargo's default.
    pub fn flag(self) -> (r: Option<&'static str>)
        ensures
            match r {
                Some(f) => profile_flag(self) == Some(f@),
                None => profile_flag(self) is None,
            },
    {
        match self {
            Profile::Debug => None,
            Profile::Release => Some("--release"),
        }
    }
}


/// What a failed build says about itself, by how many errors it had.
pub open spec fn failure_text(errors: nat) -> Seq<char> {
    if errors == 0 {
        "the build failed"@
    } else if errors == 1 {
        "1 error"@
    } else {
        decimal(errors) + " errors"@
    }
}

/// Why a build failed: "the build failed", "1 error", or "n errors".
pub fn failure_reason(errors: usize) -> (r: String)
    ensures
        r@ == failure_text(errors as nat),
{
    if errors == 0 {
        String::from_str("the build failed")
    } else if errors == 1 {
        String::from_str("1 error")
    } else {
        let mut out = String::new();
        write_decimal(&mut out, errors as u64);
        push_str(&mut out, " errors");
        proof {
            assert(out@ =~= decimal(errors as nat) + " errors"@);
        }
        out
    }
}

/// What the build phase has learnt from cargo's output so far.
pub struct BuildState {
    errors: usize,
    executable: Option<String>,
}

/// A build state as plain values.
pub struct BuildStateView {
    pub errors: nat,
    pub executable: Option<Seq<char>>,
}

impl View for BuildState {
    type V = BuildStateView;

    closed spec fn view(&self) -> BuildStateView {
        BuildStateView {
            errors: self.errors as nat,
            executable: match self.executable {
                Some(p) => Some(p@),
                None => None,
            },
        }
    }
}

/// The console lines and diagnostics one message of cargo's output becomes.
pub open spec fn message_events(m: MessageView) -> Seq<EventView> {
    match m {
        MessageView::Diagnostic(d) => seq![
            EventView::Line(Phase::Build, d.rendered),
            EventView::Diagnostic(d),
        ],
        MessageView::Executable(_) => Seq::empty(),
        MessageView::Finished { .. } => Seq::empty(),
        MessageView::Other(t) => if t.len() > 0 {
            seq![EventView::Line(Phase::Build, t)]
        } else {
            Seq::empty()
        },
    }
}

/// A build state after one message: errors are counted and the last linked
/// binary is remembered.
pub open spec fn after_message(s: BuildStateView, m: MessageView) -> BuildStateView {
    match m {
        MessageView::Diagnostic(d) => BuildStateView {
            errors: if d.severity == Severity::Error {
                s.errors + 1
            } else {
                s.errors
            },
            executable: s.executable,
        },
        MessageView::Executable(p) => BuildStateView { errors: s.errors, executable: Some(p) },
        _ => s,
    }
}

/// How the build phase ends, given whether Stop was pressed and whether cargo
/// exited successfully (`None` when its exit status could not be read): the
/// event that says so, and the binary to run when it succeeded.
pub open spec fn build_end(s: BuildStateView, cancelled: bool, exited_ok: Option<bool>) -> (
    EventView,
    Option<Option<Seq<char>>>,
) {
    if cancelled {
        (EventView::Finished(Phase::Build, OutcomeView::Cancelled), None)
    } else if exited_ok == Some(true) {
        (EventView::Finished(Phase::Build, OutcomeView::Succeeded), Some(s.executable))
    } else {
        (EventView::Finished(Phase::Build, OutcomeView::Failed(failure_text(s.errors))), None)
    }
}

impl BuildState {
    pub fn new() -> (r: BuildState)
        ensures
            r@.errors == 0,
            r@.executable is None,
    {
        BuildState { errors: 0, executable: None }
    }

    /// How many errors have been seen.
    pub fn errors(&self) -> (r: usize)
        ensures
            r == self@.errors,
    {
        self.errors
    }

    /// Take one message from cargo's stdout; returns the events it becomes.
    pub fn on_message(&mut self, message: Message) -> (events: Vec<Event>)
        requires
            old(self)@.errors < usize::MAX,
        ensures
            final(self)@ == after_message(old(self)@, message@),
            event_views(events@) == message_events(message@),
    {
        let ghost m = message@;
        let mut events: Vec<Event> = Vec::new();
        match message {
            Message::Diagnostic(diagnostic) => {
                if diagnostic.severity == Severity::Error {
                    self.errors = self.errors + 1;
                }
                let rendered = diagnostic.rendered.clone();
                events.push(Event::Line(Phase::Build, rendered));
                events.push(Event::Diagnostic(diagnostic));
            },
            Message::Executable(path) => {
                self.executable = Some(path);
            },
            Message::Finished { .. } => {},
            Message::Other(text) => {
                if !text.as_str().is_empty() {
                    events.push(Event::Line(Phase::Build, text));
                }
            },
        }
        proof {
            assert(event_views(events@) =~= message_events(m));
        }
        events
    }

    /// The end of the build phase. `exited_ok` is whether cargo's exit status
    /// said success, `None` when it could not be read.
    pub fn finish(self, cancelled: bool, exited_ok: Option<bool>) -> (r: (
        Event,
        Option<Option<String>>,
    ))
        ensures
            r.0@ == build_end(self@, cancelled, exited_ok).0,
            match r.1 {
                Some(Some(p)) => build_end(self@, cancelled, exited_ok).1 == Some(Some(p@)),
                Some(None) => build_end(self@, cancelled, exited_ok).1 == Some(
                    None::<Seq<char>>,
                ),
                None => build_end(self@, cancelled, exited_ok).1 is None,
            },
    {
        if cancelled {
            return (Event::Finished(Phase::Build, Outcome::Cancelled), None);
        }
        if exited_ok == Some(true) {
            (Event::Finished(Phase::Build, Outcome::Succeeded), Some(self.executable))
        } else {
            let why = failure_reason(self.errors);
            (Event::Finished(Phase::Build, Outcome::Failed(why)), None)
        }
    }
}

/// What follows a build that succeeded.
#[derive(Debug, Clone, PartialEq, Eq)]
pub enum Next {
    /// Nothing: the build was all that was asked for, or Stop was pressed.
    Stop,
    /// The session ends with this event.
    Finish(Event),
    /// Launch this binary.
    Launch(String),
}

pub open spec fn no_binary_text() -> Seq<char> {
    "the build produced no binary to run"@
}

/// What follows a successful build: a Build intent or a Stop ends the
/// session quietly, a Run with nothing linked fails, and otherwise the binary
/// runs.
pub fn after_build(intent: Intent, cancelled: bool, executable: Option<String>) -> (r: Next)
    ensures
        (intent == Intent::Build || cancelled) ==> r == Next::Stop,
        (intent == Intent::Run && !cancelled && executable is None) ==> (r matches Next::Finish(
            e,
        ) && e@ == EventView::Finished(Phase::Run, OutcomeView::Failed(no_binary_text()))),
        (intent == Intent::Run && !cancelled && executable is Some) ==> (r matches Next::Launch(p)
            && p@ == executable->0@),
{
    if intent == Intent::Build || cancelled {
        return Next::Stop;
    }
    match executable {
        None => Next::Finish(
            Event::Finished(
                Phase::Run,
                Outcome::Failed(String::from_str("the build produced no binary to run")),
            ),
        ),
        Some(path) => Next::Launch(path),
    }
}

/// How a program that was run ended, as its exit status reports it.
#[derive(Debug, Clone, Copy, PartialEq, Eq, Structural)]
pub enum Exit {
    Success,
    /// Exited with this non-zero code.
    Code(i32),
    /// Ended by a signal.
    Signal,
}

/// The outcome of the run phase, given whether Stop was pressed and the
/// program's exit (`None` when it could not be waited for).
pub open spec fn run_end(cancelled: bool, exit: Option<Exit>) -> OutcomeView {
    if cancelled {
        OutcomeView::Cancelled
    } else {
        match exit {
            Some(Exit::Success) => OutcomeView::Succeeded,
            Some(Exit::Code(code)) => OutcomeView::Failed(
                "exited with code "@ + signed_decimal(code as int),
            ),
            Some(Exit::Signal) => OutcomeView::Failed("stopped"@),
            None => OutcomeView::Failed("the process went away"@),
        }
    }
}

pub fn run_outcome(cancelled: bool, exit: Option<Exit>) -> (r: Outcome)
    ensures
        r@ == run_end(cancelled, exit),
{
    if cancelled {
        return Outcome::Cancelled;
    }
    match exit {
        Some(Exit::Success) => Outcome::Succeeded,
        Some(Exit::Code(code)) => {
            let mut out = String::from_str("exited with code ");
            let digits = crate::text::signed_string(code as i64);
            push_str(&mut out, digits.as_str());
            Outcome::Failed(out)
        },
        Some(Exit::Signal) => Outcome::Failed(String::from_str("stopped")),
        None => Outcome::Failed(String::from_str("the process went away")),
    }
}


/// The event for a cargo that could not be started.
pub fn cargo_failed(err: &str) -> (r: Event)
    ensures
        r@ == EventView::Finished(Phase::Build, OutcomeView::Failed("could not run cargo: "@ + err@)),
{
    let mut why = String::from_str("could not run cargo: ");
    push_str(&mut why, err);
    Event::Finished(Phase::Build, Outcome::Failed(why))
}

/// The event for a built binary that could not be launched.
pub fn launch_failed(executable: &str, err: &str) -> (r: Event)
    ensures
        r@ == EventView::Finished(
            Phase::Run,
            OutcomeView::Failed("could not launch "@ + executable@ + ": "@ + err@),
        ),
{
    let mut why = String::from_str("could not launch ");
    push_str(&mut why, executable);
    push_str(&mut why, ": ");
    push_str(&mut why, err);
    proof {
        assert(why@ =~= "could not launch "@ + executable@ + ": "@ + err@);
    }
    Event::Finished(Phase::Run, Outcome::Failed(why))
}

/// The console line a launch starts with.
pub fn running(executable: &str) -> (r: Event)
    ensures
        r@ == EventView::Line(Phase::Run, "Running "@ + executable@),
{
    let mut text = String::from_str("Running ");
    push_str(&mut text, executable);
    Event::Line(Phase::Run, text)
}

/// Whether a session can start: it needs a cargo, and a manifest in the
/// workspace. On success, the cargo to run; otherwise what to tell the user.
pub open spec fn preflight_of(cargo: Option<Seq<char>>, manifest_exists: bool, root: Seq<char>) -> Result<
    Seq<char>,
    Seq<char>,
> {
    match cargo {
        None => Err(crate::session::missing_text()),
        Some(c) => if manifest_exists {
            Ok(c)
        } else {
            Err(root + " has no Cargo.toml — export the project first"@)
        },
    }
}

pub open spec fn missing_text() -> Seq<char> {
    "cargo was not found. Install Rust from https://rustup.rs and reopen Tailor."@
}

/// Check that a session can start, given the cargo that was found (if any),
/// whether the workspace's manifest exists, and the workspace's root.
pub fn preflight(cargo: Option<String>, manifest_exists: bool, root: &str) -> (r: Result<String, String>)
    ensures
        match r {
            Ok(c) => preflight_of(crate::toolchain::opt_seq(cargo), manifest_exists, root@) == Ok::<
                Seq<char>,
                Seq<char>,
            >(c@),
            Err(why) => preflight_of(crate::toolchain::opt_seq(cargo), manifest_exists, root@)
                == Err::<Seq<char>, Seq<char>>(why@),
        },
{
    match cargo {
        None => Err(String::from_str(crate::toolchain::MISSING)),
        Some(c) => {
            if manifest_exists {
                Ok(c)
            } else {
                let mut why = String::new();
                push_str(&mut why, root);
                push_str(&mut why, " has no Cargo.toml — export the project first");
                proof {
                    assert(why@ =~= root@ + " has no Cargo.toml — export the project first"@);
                }
                Err(why)
            }
        },
    }
}

/// What to say when the session's thread could not be started.
pub fn could_not_start(err: &str) -> (r: String)
    ensures
        r@ == "could not start the build: "@ + err@,
{
    let mut why = String::from_str("could not start the build: ");
    push_str(&mut why, err);
    why
}

/// The build state after each of `ms` in turn.
pub open spec fn after_messages(s: BuildStateView, ms: Seq<MessageView>) -> BuildStateView
    decreases ms.len(),
{
    if ms.len() == 0 {
        s
    } else {
        after_message(after_messages(s, ms.drop_last()), ms.last())
    }
}

/// Whether a message is a diagnostic at error level.
pub open spec fn is_error(m: MessageView) -> bool {
    m matches MessageView::Diagnostic(d) && d.severity == Severity::Error
}

/// Whether a message names a linked binary.
pub open spec fn is_executable(m: MessageView) -> bool {
    m is Executable
}

/// A build that starts from nothing counts exactly its error diagnostics:
/// warnings, notes, binaries and cargo's other lines never add to it.
pub proof fn errors_are_counted(ms: Seq<MessageView>)
    ensures
        after_messages(BuildStateView { errors: 0, executable: None }, ms).errors == ms.filter(
            |m: MessageView| is_error(m),
        ).len(),
    decreases ms.len(),
{
    if ms.len() > 0 {
        errors_are_counted(ms.drop_last());
        let f = |m: MessageView| is_error(m);
        assert(ms.drop_last().push(ms.last()) =~= ms);
        ms.drop_last().lemma_filter_push(ms.last(), f);
    }
}

/// The binary a build runs is the last one cargo reported linking, and there
/// is one exactly when cargo reported any.
pub proof fn last_binary_runs(ms: Seq<MessageView>)
    ensures
        ({
            let got = after_messages(BuildStateView { errors: 0, executable: None }, ms).executable;
            let bins = ms.filter(|m: MessageView| is_executable(m));
            &&& (got is None <==> bins.len() == 0)
            &&& (bins.len() > 0 ==> bins.last() == MessageView::Executable(got->0))
        }),
    decreases ms.len(),
{
    if ms.len() > 0 {
        last_binary_runs(ms.drop_last());
        let f = |m: MessageView| is_executable(m);
        assert(ms.drop_last().push(ms.last()) =~= ms);
        ms.drop_last().lemma_filter_push(ms.last(), f);
    }
}

/// Stop wins over everything: a cancelled build reports Cancelled, whatever
/// cargo's exit said, and hands nothing on to run.
pub proof fn a_stopped_build_never_launches(s: BuildStateView, exited_ok: Option<bool>)
    ensures
        build_end(s, true, exited_ok) == (
            EventView::Finished(Phase::Build, OutcomeView::Cancelled),
            None::<Option<Seq<char>>>,
        ),
        run_end(true, None) == OutcomeView::Cancelled,
        forall|e: Exit| run_end(true, Some(e)) == OutcomeView::Cancelled,
{
}

/// A failed build is never silent about why: the reason is never empty, and
/// it names the error count whenever there was at least one error.
pub proof fn a_failure_says_why(s: BuildStateView, exited_ok: Option<bool>)
    requires
        exited_ok != Some(true),
    ensures
        build_end(s, false, exited_ok).0 == EventView::Finished(
            Phase::Build,
            OutcomeView::Failed(failure_text(s.errors)),
        ),
        build_end(s, false, exited_ok).1 is None,
        failure_text(s.errors).len() > 0,
{
    reveal_strlit("the build failed");
    reveal_strlit("1 error");
    reveal_strlit(" errors");
}

/// A build state with nothing seen yet.
pub open spec fn fresh() -> BuildStateView {
    BuildStateView { errors: 0, executable: None }
}

/// The events every message of `ms` becomes, in order.
pub open spec fn messages_events(ms: Seq<MessageView>) -> Seq<EventView>
    decreases ms.len(),
{
    if ms.len() == 0 {
        Seq::empty()
    } else {
        messages_events(ms.drop_last()) + message_events(ms.last())
    }
}

/// The events of the build phase, when cargo's stdout is `ms` and its end
/// is as given: each message's events in order, then the one `Finished`.
/// (Cargo's progress lines from stderr come between, all as build lines.)
pub open spec fn build_phase(ms: Seq<MessageView>, cancelled: bool, exited_ok: Option<bool>) -> Seq<
    EventView,
> {
    messages_events(ms).push(build_end(after_messages(fresh(), ms), cancelled, exited_ok).0)
}

/// The events of the run phase for binary `exe` printing `out`: the line
/// that says what is running, its output, then how it ended.
pub open spec fn run_phase(exe: Seq<char>, out: Seq<Seq<char>>, cancelled: bool, exit: Option<Exit>) -> Seq<
    EventView,
> {
    seq![EventView::Line(Phase::Run, "Running "@ + exe)] + out.map_values(
        |l: Seq<char>| EventView::Line(Phase::Run, l),
    ) + seq![EventView::Finished(Phase::Run, run_end(cancelled, exit))]
}

/// A whole session: the build phase, then, when the build handed on a
/// result and neither the intent nor a Stop pressed since says otherwise,
/// a failure for a missing binary or the run phase.
pub open spec fn session_events(
    intent: Intent,
    ms: Seq<MessageView>,
    build_cancelled: bool,
    exited_ok: Option<bool>,
    stopped_after: bool,
    out: Seq<Seq<char>>,
    run_cancelled: bool,
    exit: Option<Exit>,
) -> Seq<EventView> {
    let built = build_phase(ms, build_cancelled, exited_ok);
    match build_end(after_messages(fresh(), ms), build_cancelled, exited_ok).1 {
        None => built,
        Some(exe) => if intent == Intent::Build || stopped_after {
            built
        } else {
            match exe {
                None => built.push(EventView::Finished(Phase::Run, OutcomeView::Failed(no_binary_text()))),
                Some(p) => built + run_phase(p, out, run_cancelled, exit),
            }
        },
    }
}

/// Whether an event belongs to the run phase.
pub open spec fn of_run(e: EventView) -> bool {
    e matches EventView::Line(Phase::Run, _) || e matches EventView::Finished(Phase::Run, _)
}

proof fn lemma_messages_events(ms: Seq<MessageView>)
    ensures
        forall|i: int|
            0 <= i < messages_events(ms).len() ==> !(#[trigger] messages_events(ms)[i] is Finished)
                && !of_run(messages_events(ms)[i]),
    decreases ms.len(),
{
    if ms.len() > 0 {
        lemma_messages_events(ms.drop_last());
        let a = messages_events(ms.drop_last());
        let b = message_events(ms.last());
        let e = messages_events(ms);
        assert forall|i: int| 0 <= i < e.len() implies !(#[trigger] e[i] is Finished) && !of_run(e[i]) by {
            if i < a.len() {
                assert(e[i] == a[i]);
            } else {
                assert(e[i] == b[i - a.len()]);
            }
        }
    }
}

/// The build phase ends as cargo said, whatever it printed: its one
/// `Finished` event comes last; Stop makes it Cancelled with nothing to run;
/// a successful exit hands on the last binary cargo reported linking (or
/// none); any other exit fails with the count of error diagnostics among the
/// messages, and nothing to run. No event of the phase belongs to the run.
pub proof fn the_build_phase_ends_as_cargo_said(ms: Seq<MessageView>, cancelled: bool, exited_ok: Option<bool>)
    ensures
        ({
            let events = build_phase(ms, cancelled, exited_ok);
            let errors = ms.filter(|m: MessageView| is_error(m)).len();
            let bins = ms.filter(|m: MessageView| is_executable(m));
            let last_bin = if bins.len() > 0 {
                Some(bins.last()->Executable_0)
            } else {
                None
            };
            let (end, next) = build_end(after_messages(fresh(), ms), cancelled, exited_ok);
            &&& events.last() == end
            &&& forall|i: int| 0 <= i < events.len() - 1 ==> !(#[trigger] events[i] is Finished)
            &&& forall|i: int| 0 <= i < events.len() ==> !of_run(#[trigger] events[i])
            &&& cancelled ==> end == EventView::Finished(Phase::Build, OutcomeView::Cancelled)
                && next is None
            &&& !cancelled && exited_ok == Some(true) ==> end == EventView::Finished(
                Phase::Build,
                OutcomeView::Succeeded,
            ) && next == Some(last_bin)
            &&& !cancelled && exited_ok != Some(true) ==> end == EventView::Finished(
                Phase::Build,
                OutcomeView::Failed(failure_text(errors)),
            ) && next is None
        }),
{
    errors_are_counted(ms);
    last_binary_runs(ms);
    lemma_messages_events(ms);
    let events = build_phase(ms, cancelled, exited_ok);
    let m = messages_events(ms);
    assert forall|i: int| 0 <= i < events.len() - 1 implies !(#[trigger] events[i] is Finished) by {
        assert(events[i] == m[i]);
    }
    assert forall|i: int| 0 <= i < events.len() implies !of_run(#[trigger] events[i]) by {
        if i < m.len() {
            assert(events[i] == m[i]);
        }
    }
}

/// The run phase opens with the line that says what is running and closes
/// with how it ended: Cancelled after Stop, else as its exit status says.
pub proof fn the_run_phase_opens_and_closes(exe: Seq<char>, out: Seq<Seq<char>>, cancelled: bool, exit: Option<Exit>)
    ensures
        run_phase(exe, out, cancelled, exit)[0] == EventView::Line(Phase::Run, "Running "@ + exe),
        run_phase(exe, out, cancelled, exit).last() == EventView::Finished(
            Phase::Run,
            run_end(cancelled, exit),
        ),
        run_phase(exe, out, cancelled, exit).len() == out.len() + 2,
{
}

/// A build-only session, one stopped while compiling, and one whose build
/// failed never launch anything: no event of the run phase is ever sent, and
/// the session ends with the build phase's `Finished`.
pub proof fn build_only_never_launches_the_binary(
    intent: Intent,
    ms: Seq<MessageView>,
    build_cancelled: bool,
    exited_ok: Option<bool>,
    stopped_after: bool,
    out: Seq<Seq<char>>,
    run_cancelled: bool,
    exit: Option<Exit>,
)
    requires
        intent == Intent::Build || build_cancelled || exited_ok != Some(true),
    ensures
        ({
            let events = session_events(
                intent,
                ms,
                build_cancelled,
                exited_ok,
                stopped_after,
                out,
                run_cancelled,
                exit,
            );
            &&& events == build_phase(ms, build_cancelled, exited_ok)
            &&& forall|i: int| 0 <= i < events.len() ==> !of_run(#[trigger] events[i])
            &&& events.last() matches EventView::Finished(Phase::Build, _)
        }),
{
    the_build_phase_ends_as_cargo_said(ms, build_cancelled, exited_ok);
    let events = build_phase(ms, build_cancelled, exited_ok);
    assert(events.len() > 0);
    assert(events[events.len() - 1] == events.last());
}

} // verus!
