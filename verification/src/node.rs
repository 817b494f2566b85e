//! Pieces of emitting one node as a Rust expression: the bindings guise
//! gives its components, and the `.child(..)` call a nested expression goes
//! in.

use vstd::prelude::*;
use crate::rust::{indent_one, unit};
use crate::text::{chars_of, is_whitespace, push_str, views};
use vstd::utf8::encode_utf8;

verus! {

/// Whether the generated file has a `self` to hang handlers off.
#[derive(Debug, Clone, Copy, PartialEq, Eq, Structural)]
pub enum Owner {
    /// A `Render` entity: events go through `cx.listener` into a method.
    Entity,
    /// A `RenderOnce` builder: no `self` at render time, so handlers are stubs.
    Plain,
}

/// Where the expression being built will sit: a field in `render`, a local
/// in `new`.
#[derive(Debug, Clone, Copy, PartialEq, Eq, Structural)]
pub enum Phase {
    Render,
    Init,
}

/// The line a node's expression is tagged with while the file is built.
pub const MARK: &'static str = "//__tailor:";

/// The entity components guise gives a two-way `X::bind(&entity, &signal,
/// cx)`, and the prop that binding drives.
pub open spec fn entity_binds() -> Seq<(Seq<char>, Seq<char>)> {
    seq![
        ("textinput"@, "value"@),
        ("textarea"@, "value"@),
        ("passwordinput"@, "value"@),
        ("numberinput"@, "value"@),
        ("pininput"@, "value"@),
        ("colorinput"@, "value"@),
        ("tagsinput"@, "tags"@),
        ("autocomplete"@, "value"@),
        ("markdowneditor"@, "value"@),
        ("select"@, "selected"@),
        ("segmented"@, "selected"@),
        ("slider"@, "value"@),
        ("rangeslider"@, "value"@),
    ]
}

/// The controlled builders, which take `.bind(signal.binding())` in the
/// chain, and the prop that binding drives.
pub open spec fn controlled_binds() -> Seq<(Seq<char>, Seq<char>)> {
    seq![
        ("checkbox"@, "checked"@),
        ("switch"@, "checked"@),
        ("chip"@, "checked"@),
        ("rating"@, "value"@),
    ]
}

/// The prop paired with `kind` in a table, first match.
pub open spec fn lookup(table: Seq<(Seq<char>, Seq<char>)>, kind: Seq<char>) -> Option<Seq<char>>
    decreases table.len(),
{
    if table.len() == 0 {
        None
    } else if table[0].0 == kind {
        Some(table[0].1)
    } else {
        lookup(table.drop_first(), kind)
    }
}

fn table_lookup(table: &Vec<(&'static str, &'static str)>, kind: &str) -> (r: Option<&'static str>)
    ensures
        match r {
            Some(p) => lookup(table@.map_values(|e: (&str, &str)| (e.0@, e.1@)), kind@) == Some(
                p@,
            ),
            None => lookup(table@.map_values(|e: (&str, &str)| (e.0@, e.1@)), kind@) is None,
        },
{
    let ghost t = table@.map_values(|e: (&str, &str)| (e.0@, e.1@));
    let mut i: usize = 0;
    proof {
        assert(t.skip(0) =~= t);
    }
    while i < table.len()
        invariant
            i <= table.len(),
            t == table@.map_values(|e: (&str, &str)| (e.0@, e.1@)),
            lookup(t, kind@) == lookup(t.skip(i as int), kind@),
        decreases table.len() - i,
    {
        proof {
            assert(t.skip(i as int).drop_first() =~= t.skip(i + 1));
            assert(t.skip(i as int)[0] == t[i as int]);
        }
        if crate::text::same(table[i].0, kind) {
            return Some(table[i].1);
        }
        i = i + 1;
    }
    None
}

/// The prop `X::bind` drives for this kind, if guise has one.
pub fn entity_bind_prop(kind: &str) -> (r: Option<&'static str>)
    ensures
        match r {
            Some(p) => lookup(entity_binds(), kind@) == Some(p@),
            None => lookup(entity_binds(), kind@) is None,
        },
{
    let table = vec![
        ("textinput", "value"),
        ("textarea", "value"),
        ("passwordinput", "value"),
        ("numberinput", "value"),
        ("pininput", "value"),
        ("colorinput", "value"),
        ("tagsinput", "tags"),
        ("autocomplete", "value"),
        ("markdowneditor", "value"),
        ("select", "selected"),
        ("segmented", "selected"),
        ("slider", "value"),
        ("rangeslider", "value"),
    ];
    proof {
        assert(table@.map_values(|e: (&str, &str)| (e.0@, e.1@)) =~= entity_binds());
    }
    table_lookup(&table, kind)
}

/// The prop a controlled builder's `.bind(signal.binding())` drives.
pub fn controlled_bind_prop(kind: &str) -> (r: Option<&'static str>)
    ensures
        match r {
            Some(p) => lookup(controlled_binds(), kind@) == Some(p@),
            None => lookup(controlled_binds(), kind@) is None,
        },
{
    let table = vec![
        ("checkbox", "checked"),
        ("switch", "checked"),
        ("chip", "checked"),
        ("rating", "value"),
    ];
    proof {
        assert(table@.map_values(|e: (&str, &str)| (e.0@, e.1@)) =~= controlled_binds());
    }
    table_lookup(&table, kind)
}

/// `s` without its leading whitespace.
pub open spec fn trim_start(s: Seq<char>) -> Seq<char>
    decreases s.len(),
{
    if s.len() > 0 && is_whitespace(s[0]) {
        trim_start(s.drop_first())
    } else {
        s
    }
}

/// Whether a line is a node tag.
pub open spec fn is_mark(line: Seq<char>) -> bool {
    "//__tailor:"@.is_prefix_of(trim_start(line))
}

fn marked(line: &str) -> (r: bool)
    ensures
        r == is_mark(line@),
{
    let chars = chars_of(line);
    let mut start: usize = 0;
    proof {
        assert(chars@.skip(0) =~= line@);
    }
    while start < chars.len() && crate::text::whitespace(chars[start])
        invariant
            start <= chars.len(),
            chars@ == line@,
            trim_start(chars@.skip(start as int)) == trim_start(line@),
        decreases chars.len() - start,
    {
        proof {
            assert(chars@.skip(start as int).drop_first() =~= chars@.skip(start + 1));
        }
        start = start + 1;
    }
    let mark = chars_of("//__tailor:");
    proof {
        reveal_strlit("//__tailor:");
        if start < chars.len() {
            assert(chars@.skip(start as int)[0] == chars@[start as int]);
        }
        assert(trim_start(chars@.skip(start as int)) == chars@.skip(start as int));
    }
    if chars.len() - start < mark.len() {
        return false;
    }
    let mut i: usize = 0;
    while i < mark.len()
        invariant
            i <= mark.len(),
            start + mark.len() <= chars.len(),
            mark@ == "//__tailor:"@,
            chars@ == line@,
            trim_start(line@) == chars@.skip(start as int),
            forall|j: int| 0 <= j < i ==> mark@[j] == chars@[start + j],
        decreases mark.len() - i,
    {
        if mark[i] != chars[start + i] {
            proof {
                assert(chars@.skip(start as int)[i as int] == chars@[start + i]);
                assert(mark@[i as int] != trim_start(line@)[i as int]);
            }
            return false;
        }
        i = i + 1;
    }
    proof {
        assert forall|j: int| 0 <= j < mark@.len() implies mark@[j] == chars@.skip(
            start as int,
        )[j] by {}
    }
    true
}

/// A fragment with its leading node tag split off, if it has one.
pub open spec fn split_of(lines: Seq<Seq<char>>) -> (Option<Seq<char>>, Seq<Seq<char>>) {
    if lines.len() > 0 && is_mark(lines[0]) {
        (Some(lines[0]), lines.drop_first())
    } else {
        (None, lines)
    }
}

/// Split a leading node tag off a fragment, if it has one.
pub fn split_mark(lines: Vec<String>) -> (r: (Option<String>, Vec<String>))
    ensures
        (match r.0 {
            Some(m) => Some(m@),
            None => None,
        }, views(r.1@)) == split_of(views(lines@)),
{
    let mut lines = lines;
    if lines.len() > 0 && marked(lines[0].as_str()) {
        let ghost before = views(lines@);
        let mark = lines.remove(0);
        proof {
            assert(views(lines@) =~= before.drop_first());
        }
        return (Some(mark), lines);
    }
    (None, lines)
}

/// The widest line an expression is collapsed onto its call.
pub open spec fn fits(method: Seq<char>, inner: Seq<Seq<char>>) -> bool {
    inner.len() == 1 && encode_utf8(inner[0]).len() + encode_utf8(method).len() + 8 <= 96
}

/// `.method(<expr>)` with the expression's tag in front, collapsed onto one
/// line when it fits; otherwise the call opens, the tag goes inside so it
/// names the constructor, and the expression follows indented.
pub open spec fn call_of(method: Seq<char>, lines: Seq<Seq<char>>) -> Seq<Seq<char>> {
    let (mark, inner) = split_of(lines);
    let tag = match mark {
        Some(m) => seq![m],
        None => Seq::empty(),
    };
    if fits(method, inner) {
        tag.push(seq!['.'] + method + seq!['('] + inner[0] + seq![')'])
    } else {
        seq![seq!['.'] + method + seq!['(']] + tag + inner.map_values(|l: Seq<char>| indent_one(l))
            + seq![seq![')']]
    }
}

fn call_head(method: &str) -> (r: String)
    ensures
        r@ == seq!['.'] + method@ + seq!['('],
{
    let mut out = String::new();
    crate::text::push_char(&mut out, '.');
    push_str(&mut out, method);
    crate::text::push_char(&mut out, '(');
    proof {
        assert(out@ =~= seq!['.'] + method@ + seq!['(']);
    }
    out
}

/// `.method(<expr>)`, inlined when the expression is short enough to read on
/// one line.
pub fn prefixed_call(method: &str, inner: Vec<String>) -> (r: Vec<String>)
    ensures
        views(r@) == call_of(method@, views(inner@)),
{
    let ghost given = views(inner@);
    let (mark, inner) = split_mark(inner);
    if inner.len() == 1 && inner[0].as_str().as_bytes().len() <= 88 && method.as_bytes().len()
        <= 88 - inner[0].as_str().as_bytes().len() {
        let mut line = call_head(method);
        push_str(&mut line, inner[0].as_str());
        crate::text::push_char(&mut line, ')');
        let mut out: Vec<String> = Vec::new();
        match mark {
            Some(m) => out.push(m),
            None => {},
        }
        let ghost before = views(out@);
        proof {
            let (gm, gi) = split_of(given);
            assert(views(inner@) == gi);
            assert(before =~= match gm {
                Some(m) => seq![m],
                None => Seq::<Seq<char>>::empty(),
            });
            assert(line@ =~= seq!['.'] + method@ + seq!['('] + gi[0] + seq![')']);
        }
        out.push(line);
        proof {
            assert(views(out@) =~= before.push(line@));
            assert(views(out@) =~= call_of(method@, given));
        }
        return out;
    }
    let mut out: Vec<String> = Vec::new();
    out.push(call_head(method));
    match mark {
        Some(m) => out.push(m),
        None => {},
    }
    let body = crate::rust::indent(inner.as_slice());
    let mut i: usize = 0;
    let ghost start = views(out@);
    while i < body.len()
        invariant
            i <= body.len(),
            views(out@) == start + views(body@).take(i as int),
        decreases body.len() - i,
    {
        let ghost before = views(out@);
        out.push(body[i].clone());
        proof {
            assert(views(out@) =~= before.push(body@[i as int]@));
            assert(views(out@) =~= start + views(body@).take(i + 1));
        }
        i = i + 1;
    }
    let ghost before = views(out@);
    let close = String::from_str(")");
    proof {
        reveal_strlit(")");
        assert(close@ =~= seq![')']);
    }
    out.push(close);
    proof {
        assert(views(body@).take(body.len() as int) =~= views(body@));
        assert(views(out@) =~= before.push(seq![')']));
        assert(views(out@) =~= call_of(method@, given));
    }
    out
}

/// `.child(<expr>)`, inlined when the expression is short enough to read on
/// one line.
pub fn child_call(inner: Vec<String>) -> (r: Vec<String>)
    ensures
        views(r@) == call_of("child"@, views(inner@)),
{
    prefixed_call("child", inner)
}

/// A node's tag names the line its expression lands on: in front of a
/// call collapsed onto one line, and just inside the call when it opens
/// across several, where it names the constructor rather than `.child(`.
/// The expression's own lines follow, indented one level, and the call
/// closes on a line of its own.
pub proof fn a_tag_names_the_line_its_expression_lands_on(method: Seq<char>, lines: Seq<Seq<char>>)
    requires
        lines.len() > 0,
        is_mark(lines[0]),
    ensures
        ({
            let out = call_of(method, lines);
            let inner = lines.drop_first();
            &&& fits(method, inner) ==> out == seq![
                lines[0],
                seq!['.'] + method + seq!['('] + inner[0] + seq![')'],
            ]
            &&& !fits(method, inner) ==> {
                &&& out.len() == inner.len() + 3
                &&& out[0] == seq!['.'] + method + seq!['(']
                &&& out[1] == lines[0]
                &&& out[out.len() - 1] == seq![')']
                &&& forall|i: int| 0 <= i < inner.len() ==> out[i + 2] == indent_one(#[trigger] inner[i])
            }
        }),
{
    let out = call_of(method, lines);
    let inner = lines.drop_first();
    if fits(method, inner) {
        assert(out =~= seq![lines[0], seq!['.'] + method + seq!['('] + inner[0] + seq![')']]);
    } else {
        let head = seq![seq!['.'] + method + seq!['(']] + seq![lines[0]];
        let body = inner.map_values(|l: Seq<char>| indent_one(l));
        assert(out == head + body + seq![seq![')']]);
        assert forall|i: int| 0 <= i < inner.len() implies out[i + 2] == indent_one(#[trigger] inner[i]) by {
            assert(out[i + 2] == body[i]);
        }
    }
}

/// Every controlled guise builder has its bound prop, and nothing else has
/// one: a checkbox, a switch and a chip bind `checked`, a rating binds
/// `value`, so each of them bound to a signal writes back to it.
pub proof fn controlled_builders_bind_their_prop(kind: Seq<char>)
    ensures
        lookup(controlled_binds(), kind) == if kind == "checkbox"@ || kind == "switch"@ || kind
            == "chip"@ {
            Some("checked"@)
        } else if kind == "rating"@ {
            Some("value"@)
        } else {
            None
        },
{
    reveal_strlit("checkbox");
    reveal_strlit("switch");
    reveal_strlit("chip");
    reveal_strlit("rating");
    reveal_strlit("checked");
    reveal_strlit("value");
    reveal_with_fuel(lookup, 5);
    let t = controlled_binds();
    assert(t.drop_first() =~= seq![("switch"@, "checked"@), ("chip"@, "checked"@), ("rating"@, "value"@)]);
    assert(t.drop_first().drop_first() =~= seq![("chip"@, "checked"@), ("rating"@, "value"@)]);
    assert(t.drop_first().drop_first().drop_first() =~= seq![("rating"@, "value"@)]);
    assert(t.drop_first().drop_first().drop_first().drop_first() =~= Seq::<(Seq<char>, Seq<char>)>::empty());
}

proof fn lemma_lookup_at(t: Seq<(Seq<char>, Seq<char>)>, kind: Seq<char>, i: int)
    requires
        0 <= i < t.len(),
        t[i].0 == kind,
        forall|j: int| 0 <= j < i ==> (#[trigger] t[j]).0 != kind,
    ensures
        lookup(t, kind) == Some(t[i].1),
    decreases i,
{
    if i > 0 {
        let r = t.drop_first();
        assert forall|j: int| 0 <= j < i - 1 implies (#[trigger] r[j]).0 != kind by {
            assert(r[j] == t[j + 1]);
        }
        assert(t[0].0 != kind);
        lemma_lookup_at(r, kind, i - 1);
    }
}

proof fn lemma_lookup_absent(t: Seq<(Seq<char>, Seq<char>)>, kind: Seq<char>)
    requires
        forall|j: int| 0 <= j < t.len() ==> (#[trigger] t[j]).0 != kind,
    ensures
        lookup(t, kind) is None,
    decreases t.len(),
{
    if t.len() > 0 {
        let r = t.drop_first();
        assert forall|j: int| 0 <= j < r.len() implies (#[trigger] r[j]).0 != kind by {
            assert(r[j] == t[j + 1]);
        }
        assert(t[0].0 != kind);
        lemma_lookup_absent(r, kind);
    }
}

/// Every entity component that guise binds two-way has its bound prop, and
/// nothing else has one: the text, password, number, pin and colour inputs,
/// the text area, autocomplete, markdown editor and both sliders drive
/// `value`; the tags input drives `tags`; select and segmented drive
/// `selected`.
pub proof fn entity_components_bind_their_prop(kind: Seq<char>)
    ensures
        lookup(entity_binds(), "textinput"@) == Some("value"@),
        lookup(entity_binds(), "textarea"@) == Some("value"@),
        lookup(entity_binds(), "passwordinput"@) == Some("value"@),
        lookup(entity_binds(), "numberinput"@) == Some("value"@),
        lookup(entity_binds(), "pininput"@) == Some("value"@),
        lookup(entity_binds(), "colorinput"@) == Some("value"@),
        lookup(entity_binds(), "tagsinput"@) == Some("tags"@),
        lookup(entity_binds(), "autocomplete"@) == Some("value"@),
        lookup(entity_binds(), "markdowneditor"@) == Some("value"@),
        lookup(entity_binds(), "select"@) == Some("selected"@),
        lookup(entity_binds(), "segmented"@) == Some("selected"@),
        lookup(entity_binds(), "slider"@) == Some("value"@),
        lookup(entity_binds(), "rangeslider"@) == Some("value"@),
        kind != "textinput"@ && kind != "textarea"@ && kind != "passwordinput"@ && kind != "numberinput"@ && kind != "pininput"@ && kind != "colorinput"@ && kind != "tagsinput"@ && kind != "autocomplete"@ && kind != "markdowneditor"@ && kind != "select"@ && kind != "segmented"@ && kind != "slider"@ && kind != "rangeslider"@ ==> lookup(entity_binds(), kind) is None,
{
    reveal_strlit("textinput");
    reveal_strlit("textarea");
    reveal_strlit("passwordinput");
    reveal_strlit("numberinput");
    reveal_strlit("pininput");
    reveal_strlit("colorinput");
    reveal_strlit("tagsinput");
    reveal_strlit("autocomplete");
    reveal_strlit("markdowneditor");
    reveal_strlit("select");
    reveal_strlit("segmented");
    reveal_strlit("slider");
    reveal_strlit("rangeslider");
    reveal_strlit("value");
    reveal_strlit("tags");
    reveal_strlit("selected");
    let t = entity_binds();
    assert(t[0] == ("textinput"@, "value"@));
    lemma_lookup_at(t, "textinput"@, 0);
    assert(t[1] == ("textarea"@, "value"@));
    assert(t[0].0.len() != "textarea"@.len());
    lemma_lookup_at(t, "textarea"@, 1);
    assert(t[2] == ("passwordinput"@, "value"@));
    assert(t[0].0.len() != "passwordinput"@.len());
    assert(t[1].0.len() != "passwordinput"@.len());
    lemma_lookup_at(t, "passwordinput"@, 2);
    assert(t[3] == ("numberinput"@, "value"@));
    assert(t[0].0.len() != "numberinput"@.len());
    assert(t[1].0.len() != "numberinput"@.len());
    assert(t[2].0.len() != "numberinput"@.len());
    lemma_lookup_at(t, "numberinput"@, 3);
    assert(t[4] == ("pininput"@, "value"@));
    assert(t[0].0.len() != "pininput"@.len());
    assert(t[1].0[0] != "pininput"@[0]);
    assert(t[2].0.len() != "pininput"@.len());
    assert(t[3].0.len() != "pininput"@.len());
    lemma_lookup_at(t, "pininput"@, 4);
    assert(t[5] == ("colorinput"@, "value"@));
    assert(t[0].0.len() != "colorinput"@.len());
    assert(t[1].0.len() != "colorinput"@.len());
    assert(t[2].0.len() != "colorinput"@.len());
    assert(t[3].0.len() != "colorinput"@.len());
    assert(t[4].0.len() != "colorinput"@.len());
    lemma_lookup_at(t, "colorinput"@, 5);
    assert(t[6] == ("tagsinput"@, "tags"@));
    assert(t[0].0[1] != "tagsinput"@[1]);
    assert(t[1].0.len() != "tagsinput"@.len());
    assert(t[2].0.len() != "tagsinput"@.len());
    assert(t[3].0.len() != "tagsinput"@.len());
    assert(t[4].0.len() != "tagsinput"@.len());
    assert(t[5].0.len() != "tagsinput"@.len());
    lemma_lookup_at(t, "tagsinput"@, 6);
    assert(t[7] == ("autocomplete"@, "value"@));
    assert(t[0].0.len() != "autocomplete"@.len());
    assert(t[1].0.len() != "autocomplete"@.len());
    assert(t[2].0.len() != "autocomplete"@.len());
    assert(t[3].0.len() != "autocomplete"@.len());
    assert(t[4].0.len() != "autocomplete"@.len());
    assert(t[5].0.len() != "autocomplete"@.len());
    assert(t[6].0.len() != "autocomplete"@.len());
    lemma_lookup_at(t, "autocomplete"@, 7);
    assert(t[8] == ("markdowneditor"@, "value"@));
    assert(t[0].0.len() != "markdowneditor"@.len());
    assert(t[1].0.len() != "markdowneditor"@.len());
    assert(t[2].0.len() != "markdowneditor"@.len());
    assert(t[3].0.len() != "markdowneditor"@.len());
    assert(t[4].0.len() != "markdowneditor"@.len());
    assert(t[5].0.len() != "markdowneditor"@.len());
    assert(t[6].0.len() != "markdowneditor"@.len());
    assert(t[7].0.len() != "markdowneditor"@.len());
    lemma_lookup_at(t, "markdowneditor"@, 8);
    assert(t[9] == ("select"@, "selected"@));
    assert(t[0].0.len() != "select"@.len());
    assert(t[1].0.len() != "select"@.len());
    assert(t[2].0.len() != "select"@.len());
    assert(t[3].0.len() != "select"@.len());
    assert(t[4].0.len() != "select"@.len());
    assert(t[5].0.len() != "select"@.len());
    assert(t[6].0.len() != "select"@.len());
    assert(t[7].0.len() != "select"@.len());
    assert(t[8].0.len() != "select"@.len());
    lemma_lookup_at(t, "select"@, 9);
    assert(t[10] == ("segmented"@, "selected"@));
    assert(t[0].0[0] != "segmented"@[0]);
    assert(t[1].0.len() != "segmented"@.len());
    assert(t[2].0.len() != "segmented"@.len());
    assert(t[3].0.len() != "segmented"@.len());
    assert(t[4].0.len() != "segmented"@.len());
    assert(t[5].0.len() != "segmented"@.len());
    assert(t[6].0[0] != "segmented"@[0]);
    assert(t[7].0.len() != "segmented"@.len());
    assert(t[8].0.len() != "segmented"@.len());
    assert(t[9].0.len() != "segmented"@.len());
    lemma_lookup_at(t, "segmented"@, 10);
    assert(t[11] == ("slider"@, "value"@));
    assert(t[0].0.len() != "slider"@.len());
    assert(t[1].0.len() != "slider"@.len());
    assert(t[2].0.len() != "slider"@.len());
    assert(t[3].0.len() != "slider"@.len());
    assert(t[4].0.len() != "slider"@.len());
    assert(t[5].0.len() != "slider"@.len());
    assert(t[6].0.len() != "slider"@.len());
    assert(t[7].0.len() != "slider"@.len());
    assert(t[8].0.len() != "slider"@.len());
    assert(t[9].0[1] != "slider"@[1]);
    assert(t[10].0.len() != "slider"@.len());
    lemma_lookup_at(t, "slider"@, 11);
    assert(t[12] == ("rangeslider"@, "value"@));
    assert(t[0].0.len() != "rangeslider"@.len());
    assert(t[1].0.len() != "rangeslider"@.len());
    assert(t[2].0.len() != "rangeslider"@.len());
    assert(t[3].0[0] != "rangeslider"@[0]);
    assert(t[4].0.len() != "rangeslider"@.len());
    assert(t[5].0.len() != "rangeslider"@.len());
    assert(t[6].0.len() != "rangeslider"@.len());
    assert(t[7].0.len() != "rangeslider"@.len());
    assert(t[8].0.len() != "rangeslider"@.len());
    assert(t[9].0.len() != "rangeslider"@.len());
    assert(t[10].0.len() != "rangeslider"@.len());
    assert(t[11].0.len() != "rangeslider"@.len());
    lemma_lookup_at(t, "rangeslider"@, 12);
    if kind != "textinput"@ && kind != "textarea"@ && kind != "passwordinput"@ && kind != "numberinput"@ && kind != "pininput"@ && kind != "colorinput"@ && kind != "tagsinput"@ && kind != "autocomplete"@ && kind != "markdowneditor"@ && kind != "select"@ && kind != "segmented"@ && kind != "slider"@ && kind != "rangeslider"@ {
        lemma_lookup_absent(t, kind);
    }
}

} // verus!
