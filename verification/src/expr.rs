//! Prop values as Rust expressions, and the colours hoisted out of the
//! builder chain into `let`s at the top of `render`.

use vstd::prelude::*;
use crate::rust::{literal, string};
use crate::text::{
    ascii_alnum, chars_of, decimal, is_ascii_alnum, push_char, push_str,
    same, views, write_decimal,
};

verus! {

/// The palette shade a named colour resolves to.
pub const SHADE: usize = 6;

/// A palette colour, as what the generator reads of it: its short name
/// (`blue`) and its Rust path (`ColorName::Blue`).
#[derive(Debug, Clone, PartialEq, Eq)]
pub struct ColorToken {
    pub label: String,
    pub path: String,
}

/// A colour as a document stores it.
#[derive(Debug, Clone, PartialEq, Eq)]
pub enum ColorSpec {
    Named(ColorToken),
    Custom(String),
}

/// Colours pulled out of the builder chain into locals at the top of
/// `render`: `(name, expression)`, in the order first needed.
#[derive(Debug)]
pub struct Hoist {
    entries: Vec<(String, String)>,
}

impl View for Hoist {
    type V = Seq<(Seq<char>, Seq<char>)>;

    closed spec fn view(&self) -> Seq<(Seq<char>, Seq<char>)> {
        self.entries@.map_values(|e: (String, String)| (e.0@, e.1@))
    }
}

impl Default for Hoist {
    fn default() -> (r: Hoist)
        ensures
            r@.len() == 0,
    {
        Hoist::new()
    }
}

/// Whether a local called `name` is already hoisted.
pub open spec fn declares(entries: Seq<(Seq<char>, Seq<char>)>, name: Seq<char>) -> bool {
    exists|i: int| 0 <= i < entries.len() && #[trigger] entries[i].0 == name
}

/// The hoist after asking for `name = expr`: unchanged when the name is
/// already there, else the pair at the end.
pub open spec fn hoisted(entries: Seq<(Seq<char>, Seq<char>)>, name: Seq<char>, expr: Seq<char>) -> Seq<
    (Seq<char>, Seq<char>),
> {
    if declares(entries, name) {
        entries
    } else {
        entries.push((name, expr))
    }
}

/// `let name = expr;`
pub open spec fn let_line(e: (Seq<char>, Seq<char>)) -> Seq<char> {
    "let "@ + e.0 + " = "@ + e.1 + seq![';']
}

/// The characters of `s` that are ASCII letters or digits, in order.
pub open spec fn ascii_alnums(s: Seq<char>) -> Seq<char> {
    s.filter(|c: char| ascii_alnum(c))
}

/// An ASCII capital as its lowercase letter; any other character as is.
pub open spec fn ascii_lower(c: char) -> char {
    if 'A' <= c && c <= 'Z' {
        ((c as u32) + 32) as char
    } else {
        c
    }
}

/// The local a custom colour hoists under: `hex_` and its ASCII letters and
/// digits, lowercased (`hex_3b82f6` for `#3B82F6`).
pub open spec fn custom_name(hex: Seq<char>) -> Seq<char> {
    "hex_"@ + ascii_alnums(hex).map_values(|c: char| ascii_lower(c))
}

fn to_ascii_lower(c: char) -> (r: char)
    ensures
        r == ascii_lower(c),
{
    if 'A' <= c && c <= 'Z' {
        ((c as u8) + 32) as char
    } else {
        c
    }
}

/// The expression that parses a custom colour.
pub open spec fn custom_expr(hex: Seq<char>) -> Seq<char> {
    "css("@ + literal(hex) + ").unwrap()"@
}

/// The local a named colour hoists under: `blue_6`.
pub open spec fn named_name(token_label: Seq<char>) -> Seq<char> {
    token_label + seq!['_'] + decimal(SHADE as nat)
}

/// The expression that resolves a named colour out of the theme.
pub open spec fn named_expr(token_path: Seq<char>) -> Seq<char> {
    "theme(cx).color("@ + token_path + ", "@ + decimal(SHADE as nat) + ").hsla()"@
}

impl Hoist {
    pub fn new() -> (r: Hoist)
        ensures
            r@.len() == 0,
    {
        Hoist { entries: Vec::new() }
    }

    /// A local holding `theme(cx).color(ColorName::Blue, 6).hsla()`.
    pub fn named(&mut self, token: &ColorToken) -> (r: String)
        ensures
            r@ == named_name(token.label@),
            final(self)@ == hoisted(old(self)@, named_name(token.label@), named_expr(token.path@)),
    {
        let mut name = String::new();
        push_str(&mut name, token.label.as_str());
        push_char(&mut name, '_');
        write_decimal(&mut name, SHADE as u64);
        let mut expr = String::from_str("theme(cx).color(");
        push_str(&mut expr, token.path.as_str());
        push_str(&mut expr, ", ");
        write_decimal(&mut expr, SHADE as u64);
        push_str(&mut expr, ").hsla()");
        proof {
            assert(name@ =~= named_name(token.label@));
            assert(expr@ =~= named_expr(token.path@));
        }
        self.push(name, expr)
    }

    /// A local holding an explicit colour parsed from its hex.
    pub fn custom(&mut self, hex: &str) -> (r: String)
        ensures
            r@ == custom_name(hex@),
            final(self)@ == hoisted(old(self)@, custom_name(hex@), custom_expr(hex@)),
    {
        let chars = chars_of(hex);
        let mut kept: Vec<char> = Vec::new();
        let mut i: usize = 0;
        while i < chars.len()
            invariant
                i <= chars.len(),
                chars@ == hex@,
                kept@ == ascii_alnums(chars@.take(i as int)),
            decreases chars.len() - i,
        {
            proof {
                assert(chars@.take(i + 1).drop_last() =~= chars@.take(i as int));
                reveal_with_fuel(Seq::filter, 1);
            }
            if is_ascii_alnum(chars[i]) {
                kept.push(chars[i]);
            }
            i = i + 1;
        }
        proof {
            assert(chars@.take(chars.len() as int) =~= hex@);
        }
        let mut name = String::from_str("hex_");
        let mut k: usize = 0;
        proof {
            reveal_strlit("hex_");
        }
        while k < kept.len()
            invariant
                k <= kept.len(),
                name@ == "hex_"@ + kept@.take(k as int).map_values(|c: char| ascii_lower(c)),
            decreases kept.len() - k,
        {
            let ghost before = name@;
            push_char(&mut name, to_ascii_lower(kept[k]));
            proof {
                assert(kept@.take(k + 1).map_values(|c: char| ascii_lower(c)) =~= kept@.take(
                    k as int,
                ).map_values(|c: char| ascii_lower(c)).push(ascii_lower(kept@[k as int])));
                assert(name@ =~= "hex_"@ + kept@.take(k + 1).map_values(|c: char| ascii_lower(c)));
            }
            k = k + 1;
        }
        proof {
            assert(kept@.take(kept.len() as int) =~= kept@);
        }
        let mut expr = String::from_str("css(");
        let lit = string(hex);
        push_str(&mut expr, lit.as_str());
        push_str(&mut expr, ").unwrap()");
        self.push(name, expr)
    }

    /// Hoist `name = expr` unless `name` already is; hands back the name.
    pub fn push(&mut self, name: String, expr: String) -> (r: String)
        ensures
            r@ == name@,
            final(self)@ == hoisted(old(self)@, name@, expr@),
    {
        let mut i: usize = 0;
        let mut found = false;
        while i < self.entries.len()
            invariant
                i <= self.entries.len(),
                self@ == old(self)@,
                found == exists|j: int| 0 <= j < i && #[trigger] self@[j].0 == name@,
            decreases self.entries.len() - i,
        {
            if same(self.entries[i].0.as_str(), name.as_str()) {
                found = true;
            }
            proof {
                assert(self@[i as int].0 == self.entries@[i as int].0@);
            }
            i = i + 1;
        }
        if !found {
            let ghost before = self@;
            let copy = name.clone();
            let ghost ev = (copy@, expr@);
            self.entries.push((copy, expr));
            proof {
                assert(self@ =~= before.push(ev));
            }
        }
        name
    }

    pub fn is_empty(&self) -> (r: bool)
        ensures
            r == (self@.len() == 0),
    {
        self.entries.len() == 0
    }

    /// The `let` lines, in the order they were first needed.
    pub fn lines(&self) -> (r: Vec<String>)
        ensures
            views(r@) == self@.map_values(|e: (Seq<char>, Seq<char>)| let_line(e)),
    {
        let mut out: Vec<String> = Vec::new();
        let mut i: usize = 0;
        while i < self.entries.len()
            invariant
                i <= self.entries.len(),
                views(out@) == self@.take(i as int).map_values(
                    |e: (Seq<char>, Seq<char>)| let_line(e),
                ),
            decreases self.entries.len() - i,
        {
            let mut line = String::from_str("let ");
            push_str(&mut line, self.entries[i].0.as_str());
            push_str(&mut line, " = ");
            push_str(&mut line, self.entries[i].1.as_str());
            push_char(&mut line, ';');
            let ghost before = views(out@);
            proof {
                assert(line@ =~= let_line(self@[i as int]));
            }
            out.push(line);
            proof {
                assert(views(out@) =~= before.push(line@));
                assert(views(out@) =~= self@.take(i + 1).map_values(
                    |e: (Seq<char>, Seq<char>)| let_line(e),
                ));
            }
            i = i + 1;
        }
        proof {
            assert(self@.take(self.entries.len() as int) =~= self@);
        }
        out
    }
}

/// An `Hsla` expression: the local the colour was hoisted into.
pub open spec fn hsla_name(color: ColorSpec) -> Seq<char> {
    match color {
        ColorSpec::Named(token) => named_name(token.label@),
        ColorSpec::Custom(hex) => custom_name(hex@),
    }
}

/// The hoist after `hsla(color)`.
pub open spec fn hsla_hoisted(h: Seq<(Seq<char>, Seq<char>)>, color: ColorSpec) -> Seq<
    (Seq<char>, Seq<char>),
> {
    match color {
        ColorSpec::Named(token) => hoisted(h, named_name(token.label@), named_expr(token.path@)),
        ColorSpec::Custom(hex) => hoisted(h, custom_name(hex@), custom_expr(hex@)),
    }
}

/// An `Hsla` expression, which is what gpui's `bg`, `border_color` and
/// `text_color` take.
pub fn hsla(hoist: &mut Hoist, color: &ColorSpec) -> (r: String)
    ensures
        r@ == hsla_name(*color),
        final(hoist)@ == hsla_hoisted(old(hoist)@, *color),
{
    match color {
        ColorSpec::Named(token) => hoist.named(token),
        ColorSpec::Custom(hex) => hoist.custom(hex.as_str()),
    }
}

/// The path of the palette's blue, the fallback for a bare `ColorName`.
pub open spec fn blue_path() -> Seq<char> {
    "ColorName::Blue"@
}

/// A colour argument, in whichever type its setter takes: `ColorValue`
/// takes a palette family as itself and an explicit colour as its hoisted
/// local; a bare `ColorName` takes only a family (blue standing in for an
/// explicit colour); anything else is guise's `Color`.
pub open spec fn color_arg_of(h: Seq<(Seq<char>, Seq<char>)>, rust_enum: Seq<char>, color: ColorSpec) -> (
    Seq<char>,
    Seq<(Seq<char>, Seq<char>)>,
) {
    if rust_enum == "ColorValue"@ {
        match color {
            ColorSpec::Named(token) => (token.path@, h),
            ColorSpec::Custom(hex) => (custom_name(hex@), hsla_hoisted(h, color)),
        }
    } else if rust_enum == "ColorName"@ {
        match color {
            ColorSpec::Named(token) => (token.path@, h),
            ColorSpec::Custom(_) => (blue_path(), h),
        }
    } else {
        match color {
            ColorSpec::Named(token) => (
                "Color::from_hsla("@ + named_name(token.label@) + seq![')'],
                hsla_hoisted(h, color),
            ),
            ColorSpec::Custom(hex) => ("Color::hex("@ + literal(hex@) + seq![')'], h),
        }
    }
}

/// A colour for a component prop, in whichever type its setter takes.
pub fn color_arg(hoist: &mut Hoist, rust_enum: &str, color: &ColorSpec) -> (r: String)
    ensures
        (r@, final(hoist)@) == color_arg_of(old(hoist)@, rust_enum@, *color),
{
    if same(rust_enum, "ColorValue") {
        match color {
            ColorSpec::Named(token) => token.path.clone(),
            ColorSpec::Custom(hex) => hoist.custom(hex.as_str()),
        }
    } else if same(rust_enum, "ColorName") {
        match color {
            ColorSpec::Named(token) => token.path.clone(),
            ColorSpec::Custom(_) => String::from_str("ColorName::Blue"),
        }
    } else {
        match color {
            ColorSpec::Named(token) => {
                let local = hoist.named(token);
                let mut out = String::from_str("Color::from_hsla(");
                push_str(&mut out, local.as_str());
                push_char(&mut out, ')');
                out
            },
            ColorSpec::Custom(hex) => {
                let mut out = String::from_str("Color::hex(");
                let lit = string(hex.as_str());
                push_str(&mut out, lit.as_str());
                push_char(&mut out, ')');
                out
            },
        }
    }
}

/// The items of a list literal, joined by `, `.
pub open spec fn comma_joined(parts: Seq<Seq<char>>) -> Seq<char>
    decreases parts.len(),
{
    if parts.len() == 0 {
        Seq::empty()
    } else if parts.len() == 1 {
        parts[0]
    } else {
        comma_joined(parts.drop_last()) + ", "@ + parts.last()
    }
}

/// `["a", "b"]`: every list setter takes an iterator of strings, and an
/// array literal is the least noisy of those.
pub fn items(values: &[String]) -> (r: String)
    ensures
        r@ == seq!['['] + comma_joined(views(values@).map_values(|v: Seq<char>| literal(v))) + seq![
            ']',
        ],
{
    let ghost parts = views(values@).map_values(|v: Seq<char>| literal(v));
    let mut out = String::new();
    push_char(&mut out, '[');
    let mut i: usize = 0;
    while i < values.len()
        invariant
            i <= values.len(),
            parts == views(values@).map_values(|v: Seq<char>| literal(v)),
            out@ == seq!['['] + comma_joined(parts.take(i as int)),
        decreases values.len() - i,
    {
        if i > 0 {
            push_str(&mut out, ", ");
        }
        let lit = string(values[i].as_str());
        push_str(&mut out, lit.as_str());
        proof {
            let t = parts.take(i + 1);
            assert(t.drop_last() =~= parts.take(i as int));
            assert(t.last() == lit@);
            if i == 0 {
                assert(t.len() == 1);
                assert(comma_joined(parts.take(0)) =~= Seq::<char>::empty());
            }
            assert(out@ =~= seq!['['] + comma_joined(t));
        }
        i = i + 1;
    }
    push_char(&mut out, ']');
    proof {
        assert(parts.take(values.len() as int) =~= parts);
    }
    out
}

/// No two hoisted locals share a name.
pub open spec fn distinct_names(entries: Seq<(Seq<char>, Seq<char>)>) -> bool {
    forall|i: int, j: int|
        0 <= i < j < entries.len() ==> (#[trigger] entries[i]).0 != (#[trigger] entries[j]).0
}

/// A colour is declared once, however often it is used: hoisting keeps the
/// names distinct, the name asked for is declared afterwards, asking again
/// changes nothing (the first expression stays), and what was hoisted before
/// stays where it was.
pub proof fn a_colour_is_declared_once(
    entries: Seq<(Seq<char>, Seq<char>)>,
    name: Seq<char>,
    expr: Seq<char>,
    again: Seq<char>,
)
    requires
        distinct_names(entries),
    ensures
        distinct_names(hoisted(entries, name, expr)),
        declares(hoisted(entries, name, expr), name),
        hoisted(hoisted(entries, name, expr), name, again) == hoisted(entries, name, expr),
        hoisted(entries, name, expr).take(entries.len() as int) == entries,
{
    let h = hoisted(entries, name, expr);
    if !declares(entries, name) {
        assert(h[entries.len() as int].0 == name);
        assert forall|i: int, j: int| 0 <= i < j < h.len() implies (#[trigger] h[i]).0 != (
        #[trigger] h[j]).0 by {
            if j == entries.len() {
                assert(h[i] == entries[i]);
            } else {
                assert(h[i] == entries[i] && h[j] == entries[j]);
            }
        }
    }
    assert(h.take(entries.len() as int) =~= entries);
}

} // verus!
