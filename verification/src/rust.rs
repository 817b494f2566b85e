//! A very small Rust source writer. It emits already-formatted lines and only
//! tracks indentation.

use vstd::prelude::*;
use vstd::utf8::encode_utf8;
use crate::text::{digit, 
    chars_of, hex, is_whitespace, push_char, push_str, repeat, trim_end, trimmed_end, views, whitespace,
    write_hex,
};

verus! {

/// One level of indentation.
pub open spec fn unit() -> Seq<char> {
    seq![' ', ' ', ' ', ' ']
}

/// What `line` appends at indentation `level`: nothing is added to an empty
/// line, anything else is prefixed by `level` units.
pub open spec fn indented(level: nat, text: Seq<char>) -> Seq<char> {
    if text.len() == 0 {
        text
    } else {
        repeat(unit(), level) + text
    }
}

/// The abstract state of a [`Source`]: the lines written so far and the
/// current indentation level.
pub struct SourceView {
    pub lines: Seq<Seq<char>>,
    pub indent: nat,
}

/// A growing block of source, indentation-aware.
pub struct Source {
    lines: Vec<String>,
    indent: usize,
}

impl View for Source {
    type V = SourceView;

    closed spec fn view(&self) -> SourceView {
        SourceView { lines: views(self.lines@), indent: self.indent as nat }
    }
}

/// `line(text)` on a model.
pub open spec fn spec_line(s: SourceView, text: Seq<char>) -> SourceView {
    SourceView { lines: s.lines.push(indented(s.indent, text)), indent: s.indent }
}

fn indent_prefix(level: usize) -> (r: String)
    ensures
        r@ == repeat(unit(), level as nat),
{
    let mut out = String::new();
    let mut i: usize = 0;
    while i < level
        invariant
            i <= level,
            out@ == repeat(unit(), i as nat),
        decreases level - i,
    {
        push_str(&mut out, "    ");
        proof {
            reveal_strlit("    ");
        }
        i = i + 1;
    }
    out
}

impl Source {
    pub fn new() -> (s: Source)
        ensures
            s@.lines == Seq::<Seq<char>>::empty(),
            s@.indent == 0,
    {
        Source { lines: Vec::new(), indent: 0 }
    }

    pub fn line(&mut self, text: &str)
        ensures
            final(self)@ == spec_line(old(self)@, text@),
    {
        let mut out = String::new();
        if text.is_empty() {
        } else {
            out = indent_prefix(self.indent);
            push_str(&mut out, text);
        }
        self.lines.push(out);
        proof {
            assert(out@ =~= indented(old(self)@.indent, text@));
            assert(views(self.lines@) =~= views(old(self).lines@).push(out@));
        }
    }

    /// Append pre-built lines at the current indentation.
    pub fn block(&mut self, lines: Vec<String>)
        ensures
            final(self)@ == spec_block(old(self)@, views(lines@)),
    {
        let mut i: usize = 0;
        while i < lines.len()
            invariant
                i <= lines.len(),
                self@ == spec_block(old(self)@, views(lines@).take(i as int)),
            decreases lines.len() - i,
        {
            let ghost before = self@;
            self.line(lines[i].as_str());
            proof {
                let t = views(lines@).take(i + 1);
                assert(t.drop_last() =~= views(lines@).take(i as int));
                assert(t.last() == lines@[i as int]@);
            }
            i = i + 1;
        }
        proof {
            assert(views(lines@).take(lines.len() as int) =~= views(lines@));
        }
    }

    /// Never two blank lines in a row, and never one at the top.
    pub fn blank(&mut self)
        ensures
            final(self)@ == spec_blank(old(self)@),
    {
        let n = self.lines.len();
        if n > 0 && !self.lines[n - 1].as_str().is_empty() {
            self.lines.push(String::new());
            proof {
                assert(views(self.lines@) =~= views(old(self).lines@).push(Seq::empty()));
            }
        }
    }

    pub fn open(&mut self, text: &str)
        requires
            old(self)@.indent < usize::MAX,
        ensures
            final(self)@ == spec_open(old(self)@, text@),
    {
        self.line(text);
        self.indent = self.indent + 1;
    }

    pub fn close(&mut self, text: &str)
        ensures
            final(self)@ == spec_close(old(self)@, text@),
    {
        self.indent = if self.indent == 0 { 0 } else { self.indent - 1 };
        self.line(text);
    }

    pub fn is_empty(&self) -> (r: bool)
        ensures
            r == (self@.lines.len() == 0),
    {
        self.lines.len() == 0
    }

    pub fn finish(self) -> (r: String)
        ensures
            r@ == finished(self@.lines),
    {
        let mut out = String::new();
        let mut i: usize = 0;
        while i < self.lines.len()
            invariant
                i <= self.lines.len(),
                out@ == joined(views(self.lines@).take(i as int)),
            decreases self.lines.len() - i,
        {
            push_str(&mut out, self.lines[i].as_str());
            push_char(&mut out, '\n');
            proof {
                let t = views(self.lines@).take(i + 1);
                assert(t.drop_last() =~= views(self.lines@).take(i as int));
            }
            i = i + 1;
        }
        proof {
            assert(views(self.lines@).take(self.lines.len() as int) =~= views(self.lines@));
        }
        if self.lines.len() == 0 {
            push_char(&mut out, '\n');
            proof {
                assert(out@ =~= seq!['\n']);
            }
        }
        out
    }
}


/// `blank()` on a model: a blank line goes in unless the source is empty or
/// already ends in one.
pub open spec fn spec_blank(s: SourceView) -> SourceView {
    if s.lines.len() > 0 && s.lines.last().len() > 0 {
        SourceView { lines: s.lines.push(Seq::empty()), indent: s.indent }
    } else {
        s
    }
}

/// `open(text)` on a model: the line, then one level deeper.
pub open spec fn spec_open(s: SourceView, text: Seq<char>) -> SourceView {
    let t = spec_line(s, text);
    SourceView { lines: t.lines, indent: t.indent + 1 }
}

/// `close(text)` on a model: one level shallower (never below zero), then the
/// line.
pub open spec fn spec_close(s: SourceView, text: Seq<char>) -> SourceView {
    let level: nat = if s.indent == 0 { 0 } else { (s.indent - 1) as nat };
    spec_line(SourceView { lines: s.lines, indent: level }, text)
}

/// `block(lines)` on a model: each line in turn.
pub open spec fn spec_block(s: SourceView, texts: Seq<Seq<char>>) -> SourceView
    decreases texts.len(),
{
    if texts.len() == 0 {
        s
    } else {
        spec_line(spec_block(s, texts.drop_last()), texts.last())
    }
}

/// Indent one already-built line by one level, leaving an empty one alone.
pub open spec fn indent_one(line: Seq<char>) -> Seq<char> {
    if line.len() == 0 {
        line
    } else {
        unit() + line
    }
}

/// Whether `c` is in Unicode's `Cc` (control) category: U+0000..U+001F and
/// U+007F..U+009F.
pub open spec fn is_control(c: char) -> bool {
    (c as u32) <= 0x1f || (0x7f <= (c as u32) && (c as u32) <= 0x9f)
}

/// How one character is written inside a Rust string literal.
pub open spec fn escaped(c: char) -> Seq<char> {
    if c == '"' {
        seq!['\\', '"']
    } else if c == '\\' {
        seq!['\\', '\\']
    } else if c == '\n' {
        seq!['\\', 'n']
    } else if c == '\r' {
        seq!['\\', 'r']
    } else if c == '\t' {
        seq!['\\', 't']
    } else if is_control(c) {
        seq!['\\', 'u', '{'] + hex((c as u32) as nat) + seq!['}']
    } else {
        seq![c]
    }
}

/// Every character of `s`, escaped.
pub open spec fn escape_all(s: Seq<char>) -> Seq<char>
    decreases s.len(),
{
    if s.len() == 0 {
        Seq::empty()
    } else {
        escape_all(s.drop_last()) + escaped(s.last())
    }
}

/// The Rust string literal for `s`.
pub open spec fn literal(s: Seq<char>) -> Seq<char> {
    seq!['"'] + escape_all(s) + seq!['"']
}

/// The maximal runs of non-whitespace characters of `s`, in order.
pub open spec fn words(s: Seq<char>) -> Seq<Seq<char>>
    decreases s.len(),
{
    if s.len() == 0 {
        Seq::empty()
    } else {
        let w = words(s.drop_last());
        let c = s.last();
        if is_whitespace(c) {
            w
        } else if s.len() == 1 || is_whitespace(s[s.len() - 2]) {
            w.push(seq![c])
        } else {
            w.drop_last().push(w.last().push(c))
        }
    }
}

/// The UTF-8 length of `s`, which is what `str::len` counts.
pub open spec fn byte_len(s: Seq<char>) -> nat {
    encode_utf8(s).len()
}

/// One word added to a comment being wrapped: the finished lines and the line
/// being filled.
pub open spec fn wrap_step(
    done: Seq<Seq<char>>,
    current: Seq<char>,
    prefix: Seq<char>,
    width: nat,
    word: Seq<char>,
) -> (Seq<Seq<char>>, Seq<char>) {
    let full = current.len() > 0 && byte_len(current) + byte_len(word) + 1 > width;
    let done2 = if full { done.push(prefix + current) } else { done };
    let cur2 = if full { Seq::<char>::empty() } else { current };
    let cur3 = if cur2.len() > 0 { cur2.push(' ') } else { cur2 };
    (done2, cur3 + word)
}

/// Every word of `ws` added in turn.
pub open spec fn wrap_words(ws: Seq<Seq<char>>, prefix: Seq<char>, width: nat) -> (
    Seq<Seq<char>>,
    Seq<char>,
)
    decreases ws.len(),
{
    if ws.len() == 0 {
        (Seq::empty(), Seq::empty())
    } else {
        let (done, current) = wrap_words(ws.drop_last(), prefix, width);
        wrap_step(done, current, prefix, width, ws.last())
    }
}

/// The comment lines `comment(prefix, text, width)` returns: the words of
/// `text`, greedily packed so that a line's text stays within `width` bytes
/// unless a single word is longer, each line behind `prefix`; and the bare
/// prefix, trimmed, when there are no words at all.
pub open spec fn wrapped(prefix: Seq<char>, text: Seq<char>, width: nat) -> Seq<Seq<char>> {
    let (done, current) = wrap_words(words(text), prefix, width);
    let out = if current.len() > 0 { done.push(prefix + current) } else { done };
    if out.len() == 0 {
        seq![trim_end(prefix)]
    } else {
        out
    }
}

/// The lines joined by newlines, with a newline after the last.
pub open spec fn joined(lines: Seq<Seq<char>>) -> Seq<char>
    decreases lines.len(),
{
    if lines.len() == 0 {
        Seq::empty()
    } else {
        joined(lines.drop_last()) + lines.last() + seq!['\n']
    }
}

/// What `finish` returns: every line followed by a newline, and a lone
/// newline when nothing was written.
pub open spec fn finished(lines: Seq<Seq<char>>) -> Seq<char> {
    if lines.len() == 0 {
        seq!['\n']
    } else {
        joined(lines)
    }
}

/// Indent a block of already-built lines by one level.
pub fn indent(lines: &[String]) -> (r: Vec<String>)
    ensures
        views(r@) == views(lines@).map_values(|l: Seq<char>| indent_one(l)),
{
    let mut out: Vec<String> = Vec::new();
    let mut i: usize = 0;
    while i < lines.len()
        invariant
            i <= lines.len(),
            views(out@) == views(lines@).take(i as int).map_values(|l: Seq<char>| indent_one(l)),
        decreases lines.len() - i,
    {
        let line = lines[i].as_str();
        let mut next = String::new();
        if !line.is_empty() {
            push_str(&mut next, "    ");
            proof {
                reveal_strlit("    ");
            }
        }
        push_str(&mut next, line);
        proof {
            assert(next@ =~= indent_one(lines@[i as int]@));
        }
        let ghost old_out = out@;
        out.push(next);
        proof {
            assert(views(out@) =~= views(old_out).push(next@));
            assert(views(out@) =~= views(lines@).take(i + 1).map_values(|l: Seq<char>| indent_one(l)));
        }
        i = i + 1;
    }
    proof {
        assert(views(lines@).take(lines.len() as int) =~= views(lines@));
    }
    out
}

proof fn lemma_words_last(s: Seq<char>)
    requires
        s.len() > 0,
        !is_whitespace(s.last()),
    ensures
        words(s).len() > 0,
{
}

/// The whitespace-separated words of `text`.
fn split_words(text: &str) -> (r: Vec<String>)
    ensures
        views(r@) == words(text@),
{
    let chars = chars_of(text);
    let mut out: Vec<String> = Vec::new();
    let mut i: usize = 0;
    while i < chars.len()
        invariant
            i <= chars.len(),
            chars@ == text@,
            views(out@) == words(chars@.take(i as int)),
        decreases chars.len() - i,
    {
        let c = chars[i];
        let ghost prev = chars@.take(i as int);
        let ghost next = chars@.take(i + 1);
        proof {
            assert(next.drop_last() =~= prev);
            assert(next.last() == c);
        }
        if whitespace(c) {
        } else if i == 0 || whitespace(chars[i - 1]) {
            let mut w = String::new();
            push_char(&mut w, c);
            let ghost old_out = out@;
            out.push(w);
            proof {
                if i > 0 {
                    assert(next[next.len() - 2] == chars@[i - 1]);
                }
                assert(views(out@) =~= views(old_out).push(seq![c]));
            }
        } else {
            proof {
                assert(prev.last() == chars@[i - 1]);
                lemma_words_last(prev);
                assert(next[next.len() - 2] == chars@[i - 1]);
            }
            let ghost old_out = out@;
            let mut w = out.pop().unwrap();
            let ghost old_w = w@;
            push_char(&mut w, c);
            out.push(w);
            proof {
                assert(old_w == views(old_out).last());
                assert(views(out@) =~= views(old_out).drop_last().push(old_w.push(c)));
            }
        }
        i = i + 1;
    }
    proof {
        assert(chars@.take(chars.len() as int) =~= chars@);
    }
    out
}

fn joined_with(prefix: &str, rest: &str) -> (r: String)
    ensures
        r@ == prefix@ + rest@,
{
    let mut out = String::new();
    push_str(&mut out, prefix);
    push_str(&mut out, rest);
    proof {
        assert(out@ =~= prefix@ + rest@);
    }
    out
}

/// Wrap a comment so a blurb does not run off the side of the file.
pub fn comment(prefix: &str, text: &str, width: usize) -> (r: Vec<String>)
    ensures
        views(r@) == wrapped(prefix@, text@, width as nat),
{
    let ws = split_words(text);
    let mut out: Vec<String> = Vec::new();
    let mut current = String::new();
    let mut k: usize = 0;
    while k < ws.len()
        invariant
            k <= ws.len(),
            views(ws@) == words(text@),
            (views(out@), current@) == wrap_words(views(ws@).take(k as int), prefix@, width as nat),
        decreases ws.len() - k,
    {
        let word = ws[k].as_str();
        let cl = current.as_str().as_bytes().len();
        let wl = word.as_bytes().len();
        let ghost st = wrap_words(views(ws@).take(k as int), prefix@, width as nat);
        proof {
            assert(views(ws@).take(k + 1).drop_last() =~= views(ws@).take(k as int));
            assert(views(ws@).take(k + 1).last() == word@);
        }
        let full = !current.as_str().is_empty() && (cl >= width || wl >= width - cl);
        if full {
            let line = joined_with(prefix, current.as_str());
            let ghost old_out = out@;
            out.push(line);
            proof {
                assert(views(out@) =~= views(old_out).push(prefix@ + st.1));
            }
            current = String::new();
        }
        if !current.as_str().is_empty() {
            push_char(&mut current, ' ');
        }
        push_str(&mut current, word);
        proof {
            let (d2, c2) = wrap_step(st.0, st.1, prefix@, width as nat, word@);
            assert(views(out@) =~= d2);
            assert(current@ =~= c2);
        }
        k = k + 1;
    }
    proof {
        assert(views(ws@).take(ws.len() as int) =~= views(ws@));
    }
    if !current.as_str().is_empty() {
        let line = joined_with(prefix, current.as_str());
        let ghost old_out = out@;
        out.push(line);
        proof {
            assert(views(out@) =~= views(old_out).push(prefix@ + current@));
        }
    }
    if out.len() == 0 {
        let bare = trimmed_end(prefix);
        out.push(bare);
        proof {
            assert(views(out@) =~= seq![trim_end(prefix@)]);
        }
    }
    out
}

fn control(c: char) -> (r: bool)
    ensures
        r == is_control(c),
{
    let code = c as u32;
    code <= 0x1f || (0x7f <= code && code <= 0x9f)
}

/// A Rust string literal. Escapes what has to be escaped and nothing else.
pub fn string(value: &str) -> (r: String)
    ensures
        r@ == literal(value@),
{
    let chars = chars_of(value);
    let mut out = String::new();
    push_char(&mut out, '"');
    let mut i: usize = 0;
    while i < chars.len()
        invariant
            i <= chars.len(),
            out@ == seq!['"'] + escape_all(chars@.take(i as int)),
        decreases chars.len() - i,
    {
        let ch = chars[i];
        let ghost before = out@;
        if ch == '"' {
            push_char(&mut out, '\\');
            push_char(&mut out, '"');
        } else if ch == '\\' {
            push_char(&mut out, '\\');
            push_char(&mut out, '\\');
        } else if ch == '\n' {
            push_char(&mut out, '\\');
            push_char(&mut out, 'n');
        } else if ch == '\r' {
            push_char(&mut out, '\\');
            push_char(&mut out, 'r');
        } else if ch == '\t' {
            push_char(&mut out, '\\');
            push_char(&mut out, 't');
        } else if control(ch) {
            push_char(&mut out, '\\');
            push_char(&mut out, 'u');
            push_char(&mut out, '{');
            write_hex(&mut out, ch as u32 as u64);
            push_char(&mut out, '}');
        } else {
            push_char(&mut out, ch);
        }
        proof {
            assert(out@ =~= before + escaped(ch));
            assert(chars@.take(i + 1).drop_last() =~= chars@.take(i as int));
        }
        i = i + 1;
    }
    push_char(&mut out, '"');
    proof {
        assert(chars@.take(chars.len() as int) =~= chars@);
    }
    out
}

/// `n` spaces.
pub open spec fn spaces(n: nat) -> Seq<char> {
    Seq::new(n, |i: int| ' ')
}

proof fn lemma_levels_are_spaces(n: nat)
    ensures
        repeat(unit(), n) == spaces(4 * n),
    decreases n,
{
    if n == 0 {
        assert(repeat(unit(), 0) =~= spaces(0));
    } else {
        lemma_levels_are_spaces((n - 1) as nat);
        assert(repeat(unit(), n) =~= spaces(4 * n));
    }
}

/// A line written at indentation level `k` begins with exactly four spaces
/// per level and then the text as given, and nothing else is touched; an
/// empty line stays empty. So a line written inside two freshly opened
/// blocks sits eight spaces deeper than the line that opened the first.
pub proof fn a_line_is_indented_four_spaces_per_level(
    s: SourceView,
    text: Seq<char>,
    a: Seq<char>,
    b: Seq<char>,
)
    ensures
        spec_line(s, text).indent == s.indent,
        spec_line(s, text).lines.len() == s.lines.len() + 1,
        spec_line(s, text).lines.drop_last() == s.lines,
        text.len() > 0 ==> spec_line(s, text).lines.last() == spaces(4 * s.indent) + text,
        text.len() == 0 ==> spec_line(s, text).lines.last() == text,
        text.len() > 0 ==> spec_line(spec_open(spec_open(s, a), b), text).lines.last() == spaces(
            4 * s.indent + 8,
        ) + text,
{
    lemma_levels_are_spaces(s.indent);
    lemma_levels_are_spaces(s.indent + 2);
    assert(spec_line(s, text).lines.drop_last() =~= s.lines);
    assert(spec_open(spec_open(s, a), b).indent == s.indent + 2);
}

/// Opening a block and closing it again puts the indentation back where it
/// was, with the opening line at the old level and the closing line too.
pub proof fn open_close_restores_indent(s: SourceView, a: Seq<char>, b: Seq<char>)
    ensures
        spec_close(spec_open(s, a), b).indent == s.indent,
        spec_close(spec_open(s, a), b).lines == s.lines.push(indented(s.indent, a)).push(
            indented(s.indent, b),
        ),
{
}

/// Blank lines never double up, and never start a file: asking twice is
/// asking once, and an empty source stays empty.
pub proof fn blank_never_doubles(s: SourceView)
    ensures
        spec_blank(spec_blank(s)) == spec_blank(s),
        s.lines.len() == 0 ==> spec_blank(s) == s,
        spec_blank(s).lines.len() >= 2 && s.lines.len() < spec_blank(s).lines.len() ==> spec_blank(
            s,
        ).lines[spec_blank(s).lines.len() - 2].len() > 0,
{
}

/// UTF-8 length adds up over concatenation.
pub proof fn lemma_byte_len_concat(a: Seq<char>, b: Seq<char>)
    ensures
        byte_len(a + b) == byte_len(a) + byte_len(b),
    decreases a.len(),
{
    if a.len() == 0 {
        assert(a + b =~= b);
    } else {
        lemma_byte_len_concat(a.drop_first(), b);
        assert((a + b).drop_first() =~= a.drop_first() + b);
        assert((a + b)[0] == a[0]);
    }
}

proof fn lemma_space_len()
    ensures
        byte_len(seq![' ']) == 1,
{
    assert(seq![' '].drop_first() =~= Seq::<char>::empty());
    assert(encode_utf8(seq![' ']) =~= vstd::utf8::encode_scalar(' ' as u32) + encode_utf8(
        Seq::<char>::empty(),
    ));
}

/// What a wrapped line's text must be: within the width, or a single word
/// that is longer on its own.
pub open spec fn fits_or_word(c: Seq<char>, ws: Seq<Seq<char>>, width: nat) -> bool {
    byte_len(c) <= width || ws.contains(c)
}

/// A comment line: the prefix, then text that fits the width or is one
/// over-long word.
pub open spec fn line_fits(line: Seq<char>, prefix: Seq<char>, ws: Seq<Seq<char>>, width: nat) -> bool {
    &&& line.len() >= prefix.len()
    &&& line.take(prefix.len() as int) == prefix
    &&& fits_or_word(line.skip(prefix.len() as int), ws, width)
}

proof fn lemma_line_fits(prefix: Seq<char>, c: Seq<char>, ws: Seq<Seq<char>>, width: nat)
    requires
        fits_or_word(c, ws, width),
    ensures
        line_fits(prefix + c, prefix, ws, width),
{
    assert((prefix + c).take(prefix.len() as int) =~= prefix);
    assert((prefix + c).skip(prefix.len() as int) =~= c);
}

proof fn lemma_words_nonempty(s: Seq<char>)
    ensures
        forall|i: int| 0 <= i < words(s).len() ==> #[trigger] words(s)[i].len() > 0,
    decreases s.len(),
{
    if s.len() > 0 {
        lemma_words_nonempty(s.drop_last());
        let w = words(s.drop_last());
        let c = s.last();
        if !is_whitespace(c) && !(s.len() == 1 || is_whitespace(s[s.len() - 2])) {
            assert forall|i: int| 0 <= i < words(s).len() implies #[trigger] words(s)[i].len() > 0 by {
                if i < w.len() - 1 {
                    assert(words(s)[i] == w[i]);
                }
            }
        }
    }
}

proof fn lemma_wrap_fits(ws: Seq<Seq<char>>, all: Seq<Seq<char>>, prefix: Seq<char>, width: nat)
    requires
        all.take(ws.len() as int) == ws,
        ws.len() <= all.len(),
        forall|i: int| 0 <= i < all.len() ==> #[trigger] all[i].len() > 0,
    ensures
        ({
            let (done, current) = wrap_words(ws, prefix, width);
            &&& forall|i: int| 0 <= i < done.len() ==> #[trigger] line_fits(done[i], prefix, all, width)
            &&& (ws.len() > 0 ==> fits_or_word(current, all, width) && current.len() > 0)
        }),
    decreases ws.len(),
{
    if ws.len() > 0 {
        let prev = ws.drop_last();
        assert(all.take(prev.len() as int) =~= prev);
        lemma_wrap_fits(prev, all, prefix, width);
        let (done, current) = wrap_words(prev, prefix, width);
        let word = ws.last();
        assert(all[ws.len() - 1] == word);
        assert(all.contains(word));
        assert(word.len() > 0);
        let full = current.len() > 0 && byte_len(current) + byte_len(word) + 1 > width;
        if full {
            let d2 = done.push(prefix + current);
            lemma_line_fits(prefix, current, all, width);
            assert forall|i: int| 0 <= i < d2.len() implies #[trigger] line_fits(d2[i], prefix, all, width) by {
                if i < done.len() {
                    assert(d2[i] == done[i]);
                }
            }
        } else if current.len() > 0 {
            lemma_byte_len_concat(current, seq![' ']);
            lemma_byte_len_concat(current.push(' '), word);
            lemma_space_len();
            assert(current.push(' ') =~= current + seq![' ']);
        } else {
            assert(Seq::<char>::empty() + word =~= word);
        }
    }
}

/// Whether a character is written as itself inside a string literal.
pub open spec fn plain(c: char) -> bool {
    c != '"' && c != '\\' && !is_control(c)
}

/// Strings escape only what they must: text with no quote, no backslash
/// and no control character comes out between quotes exactly as it went in.
pub proof fn plain_text_is_written_as_is(s: Seq<char>)
    requires
        forall|i: int| 0 <= i < s.len() ==> plain(#[trigger] s[i]),
    ensures
        literal(s) == seq!['"'] + s + seq!['"'],
        escape_all(s) == s,
    decreases s.len(),
{
    if s.len() > 0 {
        let prev = s.drop_last();
        assert forall|i: int| 0 <= i < prev.len() implies plain(#[trigger] prev[i]) by {
            assert(prev[i] == s[i]);
        }
        plain_text_is_written_as_is(prev);
        assert(plain(s[s.len() - 1]));
        assert(escape_all(s) =~= prev + seq![s.last()]);
        assert(prev + seq![s.last()] =~= s);
    }
}

proof fn lemma_digit_not_control(d: nat)
    requires
        d < 16,
    ensures
        !is_control(digit(d)),
        digit(d) != '"',
        digit(d) != '\\',
{
    vstd::utf8::char_u32_cast(digit(d), digit(d) as u32);
}

proof fn lemma_hex_clean(n: nat)
    ensures
        forall|i: int| 0 <= i < hex(n).len() ==> !is_control(#[trigger] hex(n)[i]),
    decreases n,
{
    if n < 16 {
        lemma_digit_not_control(n);
    } else {
        lemma_hex_clean(n / 16);
        lemma_digit_not_control(n % 16);
        let h = hex(n);
        let a = hex(n / 16);
        assert forall|i: int| 0 <= i < h.len() implies !is_control(#[trigger] h[i]) by {
            if i < a.len() {
                assert(h[i] == a[i]);
            }
        }
    }
}

proof fn lemma_escaped_clean(c: char)
    ensures
        forall|i: int| 0 <= i < escaped(c).len() ==> !is_control(#[trigger] escaped(c)[i]),
{
    if c != '"' && c != '\\' && c != '\n' && c != '\r' && c != '\t' && is_control(c) {
        let h = hex((c as u32) as nat);
        lemma_hex_clean((c as u32) as nat);
        let e = seq!['\\', 'u', '{'] + h + seq!['}'];
        assert forall|i: int| 0 <= i < e.len() implies !is_control(#[trigger] e[i]) by {
            if 3 <= i < 3 + h.len() {
                assert(e[i] == h[i - 3]);
            }
        }
    }
}

/// A literal is always one line of printable text: whatever the string
/// holds, no newline or other control character reaches the source.
pub proof fn a_literal_holds_no_control_character(s: Seq<char>)
    ensures
        forall|i: int| 0 <= i < literal(s).len() ==> !is_control(#[trigger] literal(s)[i]),
{
    lemma_escape_all_clean(s);
    let e = escape_all(s);
    let l = literal(s);
    assert forall|i: int| 0 <= i < l.len() implies !is_control(#[trigger] l[i]) by {
        if 1 <= i < 1 + e.len() {
            assert(l[i] == e[i - 1]);
        }
    }
}

proof fn lemma_escape_all_clean(s: Seq<char>)
    ensures
        forall|i: int| 0 <= i < escape_all(s).len() ==> !is_control(#[trigger] escape_all(s)[i]),
    decreases s.len(),
{
    if s.len() > 0 {
        lemma_escape_all_clean(s.drop_last());
        lemma_escaped_clean(s.last());
        let a = escape_all(s.drop_last());
        let b = escaped(s.last());
        let e = escape_all(s);
        assert forall|i: int| 0 <= i < e.len() implies !is_control(#[trigger] e[i]) by {
            if i < a.len() {
                assert(e[i] == a[i]);
            } else {
                assert(e[i] == b[i - a.len()]);
            }
        }
    }
}

/// Words joined by single spaces.
pub open spec fn spaced(ws: Seq<Seq<char>>) -> Seq<char>
    decreases ws.len(),
{
    if ws.len() == 0 {
        Seq::empty()
    } else if ws.len() == 1 {
        ws[0]
    } else {
        spaced(ws.drop_last()) + seq![' '] + ws.last()
    }
}

/// `wrap_step` without a prefix: the texts of the lines.
pub open spec fn bare_step(done: Seq<Seq<char>>, current: Seq<char>, width: nat, word: Seq<char>) -> (
    Seq<Seq<char>>,
    Seq<char>,
) {
    let full = current.len() > 0 && byte_len(current) + byte_len(word) + 1 > width;
    let done2 = if full { done.push(current) } else { done };
    let cur2 = if full { Seq::<char>::empty() } else { current };
    let cur3 = if cur2.len() > 0 { cur2.push(' ') } else { cur2 };
    (done2, cur3 + word)
}

/// `wrap_words` without a prefix.
pub open spec fn wrap_bare(ws: Seq<Seq<char>>, width: nat) -> (Seq<Seq<char>>, Seq<char>)
    decreases ws.len(),
{
    if ws.len() == 0 {
        (Seq::empty(), Seq::empty())
    } else {
        let (done, current) = wrap_bare(ws.drop_last(), width);
        bare_step(done, current, width, ws.last())
    }
}

/// The text of each comment line, before the prefix.
pub open spec fn comment_texts(ws: Seq<Seq<char>>, width: nat) -> Seq<Seq<char>> {
    let (done, current) = wrap_bare(ws, width);
    if current.len() > 0 {
        done.push(current)
    } else {
        done
    }
}

/// The word each comment line starts with.
pub open spec fn comment_heads(ws: Seq<Seq<char>>, width: nat) -> Seq<Seq<char>>
    decreases ws.len(),
{
    if ws.len() == 0 {
        Seq::empty()
    } else {
        let (done, current) = wrap_bare(ws.drop_last(), width);
        let h = comment_heads(ws.drop_last(), width);
        let x = ws.last();
        if current.len() == 0 || byte_len(current) + byte_len(x) + 1 > width {
            h.push(x)
        } else {
            h
        }
    }
}

/// `line` starts with the whole word `w`.
pub open spec fn starts_with_word(line: Seq<char>, w: Seq<char>) -> bool {
    w.is_prefix_of(line) && (line.len() == w.len() || line[w.len() as int] == ' ')
}

proof fn lemma_wrap_prefix(ws: Seq<Seq<char>>, prefix: Seq<char>, width: nat)
    ensures
        wrap_words(ws, prefix, width).0 == wrap_bare(ws, width).0.map_values(
            |c: Seq<char>| prefix + c,
        ),
        wrap_words(ws, prefix, width).1 == wrap_bare(ws, width).1,
    decreases ws.len(),
{
    if ws.len() > 0 {
        lemma_wrap_prefix(ws.drop_last(), prefix, width);
        let (d, c) = wrap_bare(ws.drop_last(), width);
        assert(d.push(c).map_values(|c: Seq<char>| prefix + c) =~= d.map_values(
            |c: Seq<char>| prefix + c,
        ).push(prefix + c));
    }
}

proof fn lemma_wrap_shape(ws: Seq<Seq<char>>, width: nat)
    requires
        ws.len() > 0,
        forall|i: int| 0 <= i < ws.len() ==> #[trigger] ws[i].len() > 0,
    ensures
        ({
            let (d, c) = wrap_bare(ws, width);
            let lines = d.push(c);
            let h = comment_heads(ws, width);
            &&& c.len() > 0
            &&& h.len() == lines.len()
            &&& spaced(lines) == spaced(ws)
            &&& forall|i: int|
                0 <= i < lines.len() ==> starts_with_word(#[trigger] lines[i], h[i]) && ws.contains(
                    h[i],
                )
            &&& forall|i: int|
                0 <= i < d.len() ==> byte_len(#[trigger] d[i]) + 1 + byte_len(h[i + 1]) > width
        }),
    decreases ws.len(),
{
    let prev = ws.drop_last();
    let x = ws.last();
    assert(ws[ws.len() - 1] == x);
    assert(ws.contains(x));
    if prev.len() == 0 {
        assert(Seq::<char>::empty() + x =~= x);
        assert(wrap_bare(prev, width) == (Seq::<Seq<char>>::empty(), Seq::<char>::empty()));
        assert(wrap_bare(ws, width) == bare_step(Seq::empty(), Seq::empty(), width, x));
        assert(wrap_bare(ws, width).1 == x);
        assert(wrap_bare(ws, width).0.len() == 0);
        assert(comment_heads(prev, width).len() == 0);
        assert(comment_heads(ws, width) =~= seq![x]);
        let lines = seq![x];
        assert(wrap_bare(ws, width).0.push(wrap_bare(ws, width).1) =~= lines);
        assert(x.is_prefix_of(x));
        assert(spaced(lines) == x);
        assert(ws =~= seq![x]);
    } else {
        assert forall|i: int| 0 <= i < prev.len() implies #[trigger] prev[i].len() > 0 by {
            assert(prev[i] == ws[i]);
        }
        lemma_wrap_shape(prev, width);
        let (d, c) = wrap_bare(prev, width);
        let h = comment_heads(prev, width);
        let lines = d.push(c);
        assert forall|i: int| 0 <= i < h.len() implies prev.contains(#[trigger] h[i]) by {
            assert(starts_with_word(lines[i], h[i]) && prev.contains(h[i]));
        }
        assert forall|i: int| 0 <= i < h.len() implies ws.contains(#[trigger] h[i]) by {
            assert(prev.contains(h[i]));
            let k = choose|k: int| 0 <= k < prev.len() && prev[k] == h[i];
            assert(ws[k] == h[i]);
        }
        let full = byte_len(c) + byte_len(x) + 1 > width;
        assert(ws.drop_last() =~= prev);
        assert(spaced(ws) == spaced(prev) + seq![' '] + x);
        let (d2, c2) = wrap_bare(ws, width);
        let h2 = comment_heads(ws, width);
        let lines2 = d2.push(c2);
        if full {
            assert(Seq::<char>::empty() + x =~= x);
            assert(d2 == lines);
            assert(c2 == x);
            assert(h2 == h.push(x));
            assert(lines2 == lines.push(x));
            assert(lines2.drop_last() =~= lines);
            assert(spaced(lines2) == spaced(lines) + seq![' '] + x);
            assert(x.is_prefix_of(x));
            assert forall|i: int|
                0 <= i < lines2.len() implies starts_with_word(#[trigger] lines2[i], h2[i]) && ws.contains(
                h2[i],
            ) by {
                if i < lines.len() {
                    assert(lines2[i] == lines[i] && h2[i] == h[i]);
                }
            }
            assert forall|i: int| 0 <= i < d2.len() implies byte_len(#[trigger] d2[i]) + 1 + byte_len(
                h2[i + 1],
            ) > width by {
                if i < d.len() {
                    assert(d2[i] == d[i] && h2[i + 1] == h[i + 1]);
                } else {
                    assert(d2[i] == c && h2[i + 1] == x);
                }
            }
        } else {
            assert(d2 == d);
            assert(c2 == c.push(' ') + x);
            assert(h2 == h);
            assert(c2 =~= c + seq![' '] + x);
            if d.len() == 0 {
                assert(lines2 =~= seq![c2]);
                assert(lines =~= seq![c]);
            } else {
                assert(lines2.drop_last() =~= d);
                assert(lines.drop_last() =~= d);
                assert(spaced(lines2) =~= spaced(lines) + seq![' '] + x);
            }
            assert(spaced(lines2) =~= spaced(lines) + seq![' '] + x);
            assert(ws.drop_last() =~= prev);
            assert forall|i: int|
                0 <= i < lines2.len() implies starts_with_word(#[trigger] lines2[i], h2[i]) && ws.contains(
                h2[i],
            ) by {
                if i < d.len() {
                    assert(lines2[i] == lines[i]);
                } else {
                    assert(lines[i] == c && lines2[i] == c2);
                    assert(starts_with_word(c, h[i]));
                    assert forall|j: int| 0 <= j < h[i].len() implies c2[j] == h[i][j] by {
                        assert(c2[j] == c[j]);
                    }
                    if c.len() == h[i].len() {
                        assert(c2[h[i].len() as int] == ' ');
                    } else {
                        assert(c2[h[i].len() as int] == c[h[i].len() as int]);
                    }
                }
            }
            assert forall|i: int| 0 <= i < d2.len() implies byte_len(#[trigger] d2[i]) + 1 + byte_len(
                h2[i + 1],
            ) > width by {
                assert(d2[i] == d[i]);
            }
        }
    }
}

/// Comments wrap greedily at the width: the lines are the prefix before
/// texts that, joined by single spaces, give back every word of the comment
/// in order; each text fits the width unless it is one word too long for
/// any line; each line starts with a whole word; and a line breaks only
/// where the next line's first word would not have fitted after it. A
/// comment with no words is the bare prefix, trimmed.
pub proof fn comments_wrap_greedily(prefix: Seq<char>, text: Seq<char>, width: nat)
    ensures
        words(text).len() == 0 ==> wrapped(prefix, text, width) == seq![trim_end(prefix)],
        words(text).len() > 0 ==> {
            let ws = words(text);
            let lines = comment_texts(ws, width);
            let heads = comment_heads(ws, width);
            &&& wrapped(prefix, text, width) == lines.map_values(|c: Seq<char>| prefix + c)
            &&& spaced(lines) == spaced(ws)
            &&& heads.len() == lines.len()
            &&& forall|i: int| 0 <= i < lines.len() ==> fits_or_word(#[trigger] lines[i], ws, width)
            &&& forall|i: int|
                0 <= i < lines.len() ==> starts_with_word(#[trigger] lines[i], heads[i]) && ws.contains(
                    heads[i],
                )
            &&& forall|i: int|
                0 <= i < lines.len() - 1 ==> byte_len(#[trigger] lines[i]) + 1 + byte_len(heads[i + 1])
                    > width
        },
{
    let ws = words(text);
    if ws.len() > 0 {
        lemma_words_nonempty(text);
        lemma_wrap_shape(ws, width);
        lemma_wrap_prefix(ws, prefix, width);
        lemma_wrap_prefix(ws, Seq::empty(), width);
        let (d, c) = wrap_bare(ws, width);
        let lines = d.push(c);
        assert(comment_texts(ws, width) == lines);
        let (pd, pc) = wrap_words(ws, prefix, width);
        assert(wrapped(prefix, text, width) == pd.push(prefix + pc));
        assert(pd.push(prefix + pc) =~= lines.map_values(|c: Seq<char>| prefix + c));
        assert(ws.take(ws.len() as int) =~= ws);
        lemma_wrap_fits(ws, ws, Seq::empty(), width);
        let (ed, ec) = wrap_words(ws, Seq::empty(), width);
        assert forall|i: int| 0 <= i < lines.len() implies fits_or_word(#[trigger] lines[i], ws, width) by {
            if i < d.len() {
                assert(ed[i] == Seq::<char>::empty() + d[i]);
                assert(line_fits(ed[i], Seq::empty(), ws, width));
                assert(ed[i].skip(0) =~= d[i]);
                assert(lines[i] == d[i]);
            } else {
                assert(lines[i] == c);
            }
        }
        assert forall|i: int| 0 <= i < lines.len() - 1 implies byte_len(#[trigger] lines[i]) + 1 + byte_len(
            comment_heads(ws, width)[i + 1],
        ) > width by {
            assert(lines[i] == d[i]);
        }
    }
}

/// The value of a lowercase hexadecimal digit.
pub open spec fn hex_digit_value(c: char) -> int {
    if '0' <= c && c <= '9' {
        (c as u32) - 48
    } else {
        (c as u32) - 87
    }
}

/// Whether `c` is a lowercase hexadecimal digit.
pub open spec fn hex_char(c: char) -> bool {
    ('0' <= c && c <= '9') || ('a' <= c && c <= 'f')
}

/// The number a run of hexadecimal digits spells.
pub open spec fn hex_value(ds: Seq<char>) -> int
    decreases ds.len(),
{
    if ds.len() == 0 {
        0
    } else {
        hex_value(ds.drop_last()) * 16 + hex_digit_value(ds.last())
    }
}

/// How many hexadecimal digits `t` starts with.
pub open spec fn hex_run(t: Seq<char>) -> nat
    decreases t.len(),
{
    if t.len() > 0 && hex_char(t[0]) {
        1 + hex_run(t.drop_first())
    } else {
        0
    }
}

/// The text a Rust string literal's inside stands for: `\n`, `\r`, `\t`,
/// `\"`, `\\` and `\u{…}` read back as the characters they escape, anything
/// else as itself.
pub open spec fn unescape(s: Seq<char>) -> Seq<char>
    decreases s.len(),
{
    if s.len() == 0 {
        Seq::empty()
    } else if s[0] != '\\' || s.len() < 2 {
        seq![s[0]] + unescape(s.drop_first())
    } else if s[1] == 'n' {
        seq!['\n'] + unescape(s.skip(2))
    } else if s[1] == 'r' {
        seq!['\r'] + unescape(s.skip(2))
    } else if s[1] == 't' {
        seq!['\t'] + unescape(s.skip(2))
    } else if s[1] == 'u' && s.len() >= 3 && s[2] == '{' {
        let t = s.skip(3);
        let n = hex_run(t);
        let c = (hex_value(t.take(n as int)) as u32) as char;
        if n + 1 <= t.len() {
            seq![c] + unescape(t.skip(n as int + 1))
        } else {
            seq![c]
        }
    } else {
        seq![s[1]] + unescape(s.skip(2))
    }
}

proof fn lemma_digit_value(d: nat)
    requires
        d < 16,
    ensures
        hex_char(digit(d)),
        hex_digit_value(digit(d)) == d,
        digit(d) != '}',
{
    vstd::utf8::char_u32_cast(digit(d), digit(d) as u32);
}

/// A hexadecimal rendering reads back as its number, and holds only digits.
pub proof fn lemma_hex_round_trip(n: nat)
    ensures
        hex_value(hex(n)) == n,
        forall|i: int| 0 <= i < hex(n).len() ==> hex_char(#[trigger] hex(n)[i]) && hex(n)[i] != '}',
        hex(n).len() > 0,
    decreases n,
{
    if n < 16 {
        lemma_digit_value(n);
        let h = hex(n);
        assert(h == seq![digit(n)]);
        assert(h.drop_last() =~= Seq::<char>::empty());
        assert(hex_value(h.drop_last()) == 0);
        assert(h.last() == digit(n));
        assert(hex_value(h) == hex_value(h.drop_last()) * 16 + hex_digit_value(h.last()));
    } else {
        lemma_hex_round_trip(n / 16);
        lemma_digit_value(n % 16);
        let h = hex(n);
        let a = hex(n / 16);
        assert(h.drop_last() =~= a);
        vstd::arithmetic::div_mod::lemma_fundamental_div_mod(n as int, 16);
        assert(h.last() == digit(n % 16));
        assert(hex_value(h) == hex_value(a) * 16 + hex_digit_value(h.last()));
        assert(hex_value(h) == (n / 16) * 16 + (n % 16));
        assert((n / 16) * 16 + (n % 16) == n) by (nonlinear_arith)
            requires
                n == 16 * (n / 16) + n % 16,
        ;
        assert forall|i: int| 0 <= i < h.len() implies hex_char(#[trigger] h[i]) && h[i] != '}' by {
            if i < a.len() {
                assert(h[i] == a[i]);
            }
        }
    }
}

proof fn lemma_hex_run(ds: Seq<char>, rest: Seq<char>)
    requires
        forall|i: int| 0 <= i < ds.len() ==> hex_char(#[trigger] ds[i]),
        rest.len() > 0,
        !hex_char(rest[0]),
    ensures
        hex_run(ds + rest) == ds.len(),
    decreases ds.len(),
{
    if ds.len() == 0 {
        assert(ds + rest =~= rest);
    } else {
        assert((ds + rest).drop_first() =~= ds.drop_first() + rest);
        assert(hex_char(ds[0]));
        assert forall|i: int| 0 <= i < ds.drop_first().len() implies hex_char(#[trigger] ds.drop_first()[i]) by {
            assert(ds.drop_first()[i] == ds[i + 1]);
        }
        lemma_hex_run(ds.drop_first(), rest);
    }
}

proof fn lemma_escape_all_front(s: Seq<char>)
    requires
        s.len() > 0,
    ensures
        escape_all(s) == escaped(s[0]) + escape_all(s.drop_first()),
    decreases s.len(),
{
    if s.len() == 1 {
        assert(s.drop_last() =~= Seq::<char>::empty());
        assert(s.drop_first() =~= Seq::<char>::empty());
        assert(escaped(s[0]) + Seq::<char>::empty() =~= escaped(s[0]));
    } else {
        lemma_escape_all_front(s.drop_last());
        assert(s.drop_last().drop_first() =~= s.drop_first().drop_last());
        assert(s.drop_first().last() == s.last());
        assert(s.drop_last()[0] == s[0]);
        assert((escaped(s[0]) + escape_all(s.drop_last().drop_first())) + escaped(s.last()) =~= escaped(
            s[0],
        ) + (escape_all(s.drop_first().drop_last()) + escaped(s.last())));
    }
}

proof fn lemma_unescape_one(c: char, t: Seq<char>)
    ensures
        unescape(escaped(c) + t) == seq![c] + unescape(t),
{
    let e = escaped(c) + t;
    if c == '"' || c == '\\' || c == '\n' || c == '\r' || c == '\t' {
        assert(e.skip(2) =~= t);
    } else if is_control(c) {
        let n = (c as u32) as nat;
        lemma_hex_round_trip(n);
        let h = hex(n);
        assert(e =~= seq!['\\', 'u', '{'] + (h + (seq!['}'] + t)));
        let u = e.skip(3);
        assert(u =~= h + (seq!['}'] + t));
        lemma_hex_run(h, seq!['}'] + t);
        assert(u.take(h.len() as int) =~= h);
        assert(u.skip(h.len() as int + 1) =~= t);
        vstd::utf8::char_u32_cast(c, c as u32);
    } else {
        assert(e.drop_first() =~= t);
    }
}

/// A string literal reads back as its value: unescaping what stands
/// between the quotes of `literal(v)` gives `v` again, whatever `v` holds.
pub proof fn a_literal_reads_back_as_its_value(v: Seq<char>)
    ensures
        literal(v) == seq!['"'] + escape_all(v) + seq!['"'],
        unescape(escape_all(v)) == v,
    decreases v.len(),
{
    if v.len() > 0 {
        lemma_escape_all_front(v);
        a_literal_reads_back_as_its_value(v.drop_first());
        lemma_unescape_one(v[0], escape_all(v.drop_first()));
        assert(seq![v[0]] + v.drop_first() =~= v);
    }
}

} // verus!
