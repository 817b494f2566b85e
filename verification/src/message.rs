//! Cargo's JSON output, as something the app can act on.
//!
//! `cargo build --message-format=json` prints one JSON object per line. Three
//! of them matter: a compiler message (a diagnostic to show), a compiler
//! artifact (which carries the path of the binary that was just linked), and
//! build finished (whether it worked). Everything else is kept as text rather
//! than treated as an error.

use vstd::prelude::*;
use crate::json::{array_of, bool_of, field, field_of, parsed_json, read_json, text_of, u64_of, Json};
use crate::text::{decimal, push_str, same, trim_end, trimmed_end, write_decimal};

verus! {

/// How bad a compiler message is. Ordered so `max` picks the worst.
#[derive(Debug, Clone, Copy, PartialEq, Eq, Structural, PartialOrd, Ord)]
pub enum Severity {
    Note,
    Help,
    Warning,
    Error,
}

/// The severity a rustc `level` names.
pub open spec fn severity_named(level: Seq<char>) -> Option<Severity> {
    if level == "error"@ || level == "error: internal compiler error"@ {
        Some(Severity::Error)
    } else if level == "warning"@ {
        Some(Severity::Warning)
    } else if level == "help"@ {
        Some(Severity::Help)
    } else if level == "note"@ || level == "failure-note"@ {
        Some(Severity::Note)
    } else {
        None
    }
}

/// The word for a severity.
pub open spec fn severity_label(s: Severity) -> Seq<char> {
    match s {
        Severity::Error => "error"@,
        Severity::Warning => "warning"@,
        Severity::Help => "help"@,
        Severity::Note => "note"@,
    }
}

impl Severity {
    /// The severity for a rustc `level`, or `None` for a level it does not
    /// know.
    pub fn parse(level: &str) -> (r: Option<Severity>)
        ensures
            r == severity_named(level@),
    {
        if same(level, "error") || same(level, "error: internal compiler error") {
            Some(Severity::Error)
        } else if same(level, "warning") {
            Some(Severity::Warning)
        } else if same(level, "help") {
            Some(Severity::Help)
        } else if same(level, "note") || same(level, "failure-note") {
            Some(Severity::Note)
        } else {
            None
        }
    }

    pub fn label(self) -> (r: &'static str)
        ensures
            r@ == severity_label(self),
    {
        match self {
            Severity::Error => "error",
            Severity::Warning => "warning",
            Severity::Help => "help",
            Severity::Note => "note",
        }
    }
}

/// One compiler message, anchored at its primary span.
#[derive(Debug, Clone, PartialEq, Eq)]
pub struct Diagnostic {
    /// Relative to the workspace root, as cargo reports it; empty when the
    /// message has no span.
    pub file: String,
    /// 1-based, as rustc counts.
    pub line: usize,
    pub col: usize,
    pub col_end: usize,
    pub severity: Severity,
    /// The one-line summary.
    pub message: String,
    /// rustc's full rendering, carets and all.
    pub rendered: String,
    /// `E0425`, when there is one.
    pub code: Option<String>,
}

/// A diagnostic's contents as plain values.
pub struct DiagnosticView {
    pub file: Seq<char>,
    pub line: usize,
    pub col: usize,
    pub col_end: usize,
    pub severity: Severity,
    pub message: Seq<char>,
    pub rendered: Seq<char>,
    pub code: Option<Seq<char>>,
}

pub open spec fn opt_view(s: Option<String>) -> Option<Seq<char>> {
    match s {
        Some(t) => Some(t@),
        None => None,
    }
}

impl View for Diagnostic {
    type V = DiagnosticView;

    open spec fn view(&self) -> DiagnosticView {
        DiagnosticView {
            file: self.file@,
            line: self.line,
            col: self.col,
            col_end: self.col_end,
            severity: self.severity,
            message: self.message@,
            rendered: self.rendered@,
            code: opt_view(self.code),
        }
    }
}

/// `file:line:col`, or the severity's word when there is no file.
pub open spec fn location_of(d: DiagnosticView) -> Seq<char> {
    if d.file.len() == 0 {
        severity_label(d.severity)
    } else {
        d.file + seq![':'] + decimal(d.line as nat) + seq![':'] + decimal(d.col as nat)
    }
}

impl Diagnostic {
    /// `src/ui/main.rs:12:5`, or just the severity when there is no span.
    pub fn location(&self) -> (r: String)
        ensures
            r@ == location_of(self@),
    {
        let mut out = String::new();
        if self.file.as_str().is_empty() {
            push_str(&mut out, self.severity.label());
        } else {
            push_str(&mut out, self.file.as_str());
            crate::text::push_char(&mut out, ':');
            write_decimal(&mut out, self.line as u64);
            crate::text::push_char(&mut out, ':');
            write_decimal(&mut out, self.col as u64);
        }
        proof {
            assert(out@ =~= location_of(self@));
        }
        out
    }
}

/// What one line of cargo's output turned out to be.
#[derive(Debug, Clone, PartialEq, Eq)]
pub enum Message {
    Diagnostic(Diagnostic),
    /// A binary cargo just linked.
    Executable(String),
    Finished { success: bool },
    /// Not JSON, or JSON of a kind that says nothing. Shown verbatim.
    Other(String),
}

/// A message's contents as plain values.
pub enum MessageView {
    Diagnostic(DiagnosticView),
    Executable(Seq<char>),
    Finished { success: bool },
    Other(Seq<char>),
}

impl View for Message {
    type V = MessageView;

    open spec fn view(&self) -> MessageView {
        match self {
            Message::Diagnostic(d) => MessageView::Diagnostic(d@),
            Message::Executable(p) => MessageView::Executable(p@),
            Message::Finished { success } => MessageView::Finished { success: *success },
            Message::Other(t) => MessageView::Other(t@),
        }
    }
}

pub open spec fn or_text(v: Option<Seq<char>>, default: Seq<char>) -> Seq<char> {
    match v {
        Some(t) => t,
        None => default,
    }
}

pub open spec fn or_u64(v: Option<u64>, default: u64) -> u64 {
    match v {
        Some(n) => n,
        None => default,
    }
}

/// The first span marked primary.
pub open spec fn first_primary(spans: Seq<Json>) -> Option<Json>
    decreases spans.len(),
{
    if spans.len() == 0 {
        None
    } else if bool_of(field(spans[0], "is_primary"@)) == Some(true) {
        Some(spans[0])
    } else {
        first_primary(spans.drop_first())
    }
}

/// The primary span, or the first one when none is marked.
pub open spec fn chosen_span(spans: Seq<Json>) -> Option<Json> {
    match first_primary(spans) {
        Some(s) => Some(s),
        None => if spans.len() > 0 {
            Some(spans[0])
        } else {
            None
        },
    }
}

/// The diagnostic a `message` object describes, when its level is one rustc
/// uses.
pub open spec fn diagnostic_of(message: Json) -> Option<DiagnosticView> {
    match text_of(field(message, "level"@)) {
        None => None,
        Some(level) => match severity_named(level) {
            None => None,
            Some(severity) => {
                let text = or_text(text_of(field(message, "message"@)), Seq::empty());
                let rendered = trim_end(or_text(text_of(field(message, "rendered"@)), text));
                let code = text_of(field_of(field(message, "code"@), "code"@));
                let spans = match array_of(field(message, "spans"@)) {
                    Some(s) => s,
                    None => Seq::empty(),
                };
                let (file, line, col, col_end) = match chosen_span(spans) {
                    Some(span) => (
                        or_text(text_of(field(span, "file_name"@)), Seq::empty()),
                        or_u64(u64_of(field(span, "line_start"@)), 1) as usize,
                        or_u64(u64_of(field(span, "column_start"@)), 1) as usize,
                        or_u64(u64_of(field(span, "column_end"@)), 1) as usize,
                    ),
                    None => (Seq::empty(), 1usize, 1usize, 1usize),
                };
                Some(
                    DiagnosticView {
                        file,
                        line,
                        col,
                        col_end,
                        severity,
                        message: text,
                        rendered,
                        code,
                    },
                )
            },
        },
    }
}

/// Whether one of `kinds` is the string `bin`.
pub open spec fn has_bin(kinds: Seq<Json>) -> bool {
    exists|i: int| 0 <= i < kinds.len() && text_of(Some(#[trigger] kinds[i])) == Some("bin"@)
}

/// The executable a `compiler-artifact` message linked, when its target is a
/// `bin`.
pub open spec fn executable_of(value: Json) -> Option<Seq<char>> {
    match array_of(field_of(field(value, "target"@), "kind"@)) {
        None => None,
        Some(kinds) => if has_bin(kinds) {
            text_of(field(value, "executable"@))
        } else {
            None
        },
    }
}

/// What a line of cargo's output means, given the line with its trailing
/// whitespace removed and what a JSON parser made of it (`None` when it is
/// not JSON).
pub open spec fn message_of(line: Seq<char>, json: Option<Json>) -> MessageView {
    match json {
        None => MessageView::Other(line),
        Some(value) => {
            let reason = text_of(field(value, "reason"@));
            if reason == Some("compiler-message"@) {
                match field(value, "message"@) {
                    Some(m) => match diagnostic_of(m) {
                        Some(d) => MessageView::Diagnostic(d),
                        None => MessageView::Other(
                            trim_end(or_text(text_of(field(m, "rendered"@)), line)),
                        ),
                    },
                    None => MessageView::Other(trim_end(line)),
                }
            } else if reason == Some("compiler-artifact"@) {
                match executable_of(value) {
                    Some(p) => MessageView::Executable(p),
                    None => MessageView::Other(Seq::empty()),
                }
            } else if reason == Some("build-finished"@) {
                MessageView::Finished {
                    success: match bool_of(field(value, "success"@)) {
                        Some(b) => b,
                        None => false,
                    },
                }
            } else {
                MessageView::Other(Seq::empty())
            }
        },
    }
}

fn text_or(v: Option<&Json>, default: &str) -> (r: String)
    ensures
        r@ == or_text(
            match v {
                Some(j) => text_of(Some(*j)),
                None => None,
            },
            default@,
        ),
{
    match v {
        Some(j) => match j.as_str() {
            Some(s) => String::from_str(s),
            None => String::from_str(default),
        },
        None => String::from_str(default),
    }
}

fn u64_or_one(v: Option<&Json>) -> (r: u64)
    ensures
        r == or_u64(
            match v {
                Some(j) => u64_of(Some(*j)),
                None => None,
            },
            1,
        ),
{
    match v {
        Some(j) => match j.as_u64() {
            Some(n) => n,
            None => 1,
        },
        None => 1,
    }
}

fn chosen(spans: &Vec<Json>) -> (r: Option<&Json>)
    ensures
        match r {
            Some(s) => chosen_span(spans@) == Some(*s),
            None => chosen_span(spans@) is None,
        },
{
    let mut i: usize = 0;
    proof {
        assert(spans@.skip(0) =~= spans@);
    }
    while i < spans.len()
        invariant
            i <= spans.len(),
            first_primary(spans@) == first_primary(spans@.skip(i as int)),
        decreases spans.len() - i,
    {
        proof {
            assert(spans@.skip(i as int).drop_first() =~= spans@.skip(i + 1));
            assert(spans@.skip(i as int)[0] == spans@[i as int]);
        }
        let primary = match spans[i].get("is_primary") {
            Some(p) => p.as_bool(),
            None => None,
        };
        if primary == Some(true) {
            return Some(&spans[i]);
        }
        i = i + 1;
    }
    if spans.len() > 0 {
        Some(&spans[0])
    } else {
        None
    }
}

/// The diagnostic a compiler message describes.
fn diagnostic(message: &Json) -> (r: Option<Diagnostic>)
    ensures
        match r {
            Some(d) => diagnostic_of(*message) == Some(d@),
            None => diagnostic_of(*message) is None,
        },
{
    let level = match message.get("level") {
        Some(l) => l,
        None => return None,
    };
    let level = match level.as_str() {
        Some(l) => l,
        None => return None,
    };
    let severity = match Severity::parse(level) {
        Some(s) => s,
        None => return None,
    };
    let text = text_or(message.get("message"), "");
    let rendered_full = text_or(message.get("rendered"), text.as_str());
    let rendered = trimmed_end(rendered_full.as_str());
    let code = match message.get("code") {
        Some(c) => match c.get("code") {
            Some(v) => match v.as_str() {
                Some(s) => Some(String::from_str(s)),
                None => None,
            },
            None => None,
        },
        None => None,
    };
    let empty: Vec<Json> = Vec::new();
    let spans = match message.get("spans") {
        Some(s) => match s.as_array() {
            Some(a) => a,
            None => &empty,
        },
        None => &empty,
    };
    let (file, line, col, col_end) = match chosen(spans) {
        Some(span) => (
            text_or(span.get("file_name"), ""),
            u64_or_one(span.get("line_start")) as usize,
            u64_or_one(span.get("column_start")) as usize,
            u64_or_one(span.get("column_end")) as usize,
        ),
        None => (String::new(), 1usize, 1usize, 1usize),
    };
    proof {
        reveal_strlit("");
    }
    let d = Diagnostic { file, line, col, col_end, severity, message: text, rendered, code };
    proof {
        let v = diagnostic_of(*message).unwrap();
        assert(d@.file =~= v.file);
        assert(d@.message =~= v.message);
        assert(d@.rendered =~= v.rendered);
        assert(d@.code == v.code);
        assert(d@ == v);
    }
    Some(d)
}

/// The executable a `compiler-artifact` message linked, if it linked one.
fn executable(value: &Json) -> (r: Option<String>)
    ensures
        opt_view(r) == executable_of(*value),
{
    let target = match value.get("target") {
        Some(t) => t,
        None => return None,
    };
    let kinds = match target.get("kind") {
        Some(k) => k,
        None => return None,
    };
    let kinds = match kinds.as_array() {
        Some(k) => k,
        None => return None,
    };
    let mut found = false;
    let mut i: usize = 0;
    while i < kinds.len()
        invariant
            i <= kinds.len(),
            found == exists|j: int| 0 <= j < i && text_of(Some(#[trigger] kinds@[j])) == Some("bin"@),
        decreases kinds.len() - i,
    {
        let is_bin = match kinds[i].as_str() {
            Some(s) => same(s, "bin"),
            None => false,
        };
        if is_bin {
            found = true;
        }
        i = i + 1;
    }
    if !found {
        return None;
    }
    match value.get("executable") {
        Some(e) => match e.as_str() {
            Some(s) => Some(String::from_str(s)),
            None => None,
        },
        None => None,
    }
}

/// Parse one line of `cargo --message-format=json`.
pub fn parse(line: &str) -> (r: Message)
    ensures
        r@ == message_of(trim_end(line@), parsed_json(trim_end(line@))),
{
    let text = trimmed_end(line);
    let json = read_json(text.as_str());
    parse_with(line, &json)
}

/// What one line of cargo's output is, given what the JSON parser made of
/// the line with its trailing whitespace trimmed (`None` when it is not
/// JSON).
pub fn parse_with(line: &str, json: &Option<Json>) -> (r: Message)
    ensures
        r@ == message_of(trim_end(line@), *json),
{
    let line = trimmed_end(line);
    let value = match json {
        Some(v) => v,
        None => return Message::Other(line),
    };
    let reason = match value.get("reason") {
        Some(r) => r.as_str(),
        None => None,
    };
    let reason = match reason {
        Some(r) => r,
        None => return Message::Other(String::new()),
    };
    if same(reason, "compiler-message") {
        match value.get("message") {
            Some(m) => match diagnostic(m) {
                Some(d) => Message::Diagnostic(d),
                None => {
                    let rendered = text_or(m.get("rendered"), line.as_str());
                    Message::Other(trimmed_end(rendered.as_str()))
                },
            },
            None => Message::Other(trimmed_end(line.as_str())),
        }
    } else if same(reason, "compiler-artifact") {
        match executable(value) {
            Some(p) => Message::Executable(p),
            None => Message::Other(String::new()),
        }
    } else if same(reason, "build-finished") {
        let success = match value.get("success") {
            Some(s) => match s.as_bool() {
                Some(b) => b,
                None => false,
            },
            None => false,
        };
        Message::Finished { success }
    } else {
        Message::Other(String::new())
    }
}

/// Nothing cargo prints is an error: a line that is not JSON comes through
/// verbatim, and JSON of a kind this reader does not know (cargo adds kinds
/// between releases) says nothing rather than failing the build.
pub proof fn anything_else_is_kept_rather_than_dropped(line: Seq<char>, value: Json)
    ensures
        message_of(line, None) == MessageView::Other(line),
        ({
            let reason = text_of(field(value, "reason"@));
            reason != Some("compiler-message"@) && reason != Some("compiler-artifact"@) && reason
                != Some("build-finished"@) ==> message_of(line, Some(value)) == MessageView::Other(
                Seq::empty(),
            )
        }),
{
}

/// Whether rustc marks a span as the primary one, the one it underlines.
pub open spec fn marked_primary(span: Json) -> bool {
    bool_of(field(span, "is_primary"@)) == Some(true)
}

/// Whether a diagnostic points where a span says: its file, line and columns.
pub open spec fn points_at(d: DiagnosticView, span: Json) -> bool {
    &&& d.file == or_text(text_of(field(span, "file_name"@)), Seq::empty())
    &&& d.line == or_u64(u64_of(field(span, "line_start"@)), 1) as usize
    &&& d.col == or_u64(u64_of(field(span, "column_start"@)), 1) as usize
    &&& d.col_end == or_u64(u64_of(field(span, "column_end"@)), 1) as usize
}

proof fn lemma_first_marked(spans: Seq<Json>, k: int)
    requires
        0 <= k < spans.len(),
        marked_primary(spans[k]),
        forall|j: int| 0 <= j < k ==> !marked_primary(#[trigger] spans[j]),
    ensures
        first_primary(spans) == Some(spans[k]),
    decreases k,
{
    if k > 0 {
        let t = spans.drop_first();
        assert(!marked_primary(spans[0]));
        assert forall|j: int| 0 <= j < k - 1 implies !marked_primary(#[trigger] t[j]) by {
            assert(t[j] == spans[j + 1]);
        }
        assert(t[k - 1] == spans[k]);
        lemma_first_marked(t, k - 1);
    }
}

proof fn lemma_none_marked(spans: Seq<Json>)
    requires
        forall|j: int| 0 <= j < spans.len() ==> !marked_primary(#[trigger] spans[j]),
    ensures
        first_primary(spans) is None,
    decreases spans.len(),
{
    if spans.len() > 0 {
        let t = spans.drop_first();
        assert(!marked_primary(spans[0]));
        assert forall|j: int| 0 <= j < t.len() implies !marked_primary(#[trigger] t[j]) by {
            assert(t[j] == spans[j + 1]);
        }
        lemma_none_marked(t);
    }
}

/// A compiler message is anchored at its primary span, the one rustc
/// underlines: the first span marked `is_primary`, wherever it stands in the
/// list. Only when no span is marked does the first span stand in, and a
/// message without spans points at line 1, column 1 of no file.
pub proof fn a_diagnostic_points_at_its_primary_span(
    line: Seq<char>,
    value: Json,
    message: Json,
    spans: Seq<Json>,
)
    requires
        text_of(field(value, "reason"@)) == Some("compiler-message"@),
        field(value, "message"@) == Some(message),
        text_of(field(message, "level"@)) matches Some(level) && severity_named(level) is Some,
        array_of(field(message, "spans"@)) == Some(spans),
    ensures
        message_of(line, Some(value)) is Diagnostic,
        forall|k: int|
            0 <= k < spans.len() && marked_primary(#[trigger] spans[k]) && (forall|j: int|
                0 <= j < k ==> !marked_primary(#[trigger] spans[j])) ==> points_at(
                message_of(line, Some(value))->Diagnostic_0,
                spans[k],
            ),
        spans.len() > 0 && (forall|j: int| 0 <= j < spans.len() ==> !marked_primary(#[trigger] spans[j]))
            ==> points_at(message_of(line, Some(value))->Diagnostic_0, spans[0]),
        spans.len() == 0 ==> ({
            let d = message_of(line, Some(value))->Diagnostic_0;
            d.file == Seq::<char>::empty() && d.line == 1 && d.col == 1 && d.col_end == 1
        }),
{
    assert forall|k: int|
        0 <= k < spans.len() && marked_primary(#[trigger] spans[k]) && (forall|j: int|
            0 <= j < k ==> !marked_primary(#[trigger] spans[j])) implies points_at(
        message_of(line, Some(value))->Diagnostic_0,
        spans[k],
    ) by {
        lemma_first_marked(spans, k);
    }
    if forall|j: int| 0 <= j < spans.len() ==> !marked_primary(#[trigger] spans[j]) {
        lemma_none_marked(spans);
    }
}

} // verus!
