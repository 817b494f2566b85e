//! Writing the code behind an action: the completions offered while typing
//! a handler's body, and the word they complete.

use vstd::prelude::*;
use crate::order::{entry_views, in_key_order, sort_entries, sorted_by_key, sorting_orders_and_keeps_every_entry};
use crate::text::{alnum, chars_of, is_alphanumeric, lower, lowercase, same, string_of};

verus! {

/// One thing the completer can offer.
#[derive(Debug, Clone, PartialEq, Eq)]
pub struct Completion {
    /// What gets inserted.
    pub text: String,
    /// What it is: "signal", "field", "keyword", "context".
    pub kind: &'static str,
}

/// A completion as plain values.
pub open spec fn completion_view(c: Completion) -> (Seq<char>, Seq<char>) {
    (c.text@, c.kind@)
}

/// Rust's keywords and the handful of gpui names that appear in almost
/// every handler.
pub open spec fn common_words() -> Seq<(Seq<char>, Seq<char>)> {
    seq![
        ("let"@, "keyword"@),
        ("if"@, "keyword"@),
        ("else"@, "keyword"@),
        ("match"@, "keyword"@),
        ("for"@, "keyword"@),
        ("while"@, "keyword"@),
        ("return"@, "keyword"@),
        ("true"@, "keyword"@),
        ("false"@, "keyword"@),
        ("Some"@, "keyword"@),
        ("None"@, "keyword"@),
        ("self"@, "keyword"@),
        ("cx"@, "context"@),
        ("cx.notify();"@, "context"@),
        ("cx.emit("@, "context"@),
        ("cx.spawn("@, "context"@),
    ]
}

fn common() -> (r: Vec<(&'static str, &'static str)>)
    ensures
        r@.map_values(|e: (&str, &str)| (e.0@, e.1@)) == common_words(),
{
    let r = vec![
        ("let", "keyword"),
        ("if", "keyword"),
        ("else", "keyword"),
        ("match", "keyword"),
        ("for", "keyword"),
        ("while", "keyword"),
        ("return", "keyword"),
        ("true", "keyword"),
        ("false", "keyword"),
        ("Some", "keyword"),
        ("None", "keyword"),
        ("self", "keyword"),
        ("cx", "context"),
        ("cx.notify();", "context"),
        ("cx.emit(", "context"),
        ("cx.spawn(", "context"),
    ];
    proof {
        assert(r@.map_values(|e: (&str, &str)| (e.0@, e.1@)) =~= common_words());
    }
    r
}

/// Whether `needle` occurs somewhere in `s`.
pub open spec fn occurs_in(needle: Seq<char>, s: Seq<char>) -> bool {
    exists|i: int| 0 <= i && i + needle.len() <= s.len() && #[trigger] s.subrange(i, i + needle.len()) == needle
}

/// Prefix beats contains; an exact match is no suggestion; `bias` sinks a
/// whole category below another.
pub open spec fn rank_of(candidate: Seq<char>, needle: Seq<char>, bias: int) -> Option<int> {
    if candidate == needle {
        None
    } else if needle.is_prefix_of(candidate) {
        Some(bias)
    } else if occurs_in(needle, candidate) {
        Some(bias + 1)
    } else {
        None
    }
}

fn starts_at(s: &Vec<char>, needle: &Vec<char>, at: usize) -> (r: bool)
    requires
        at + needle.len() <= s.len(),
    ensures
        r == (s@.subrange(at as int, at + needle.len()) == needle@),
{
    let mut i: usize = 0;
    while i < needle.len()
        invariant
            i <= needle.len(),
            at + needle.len() <= s.len(),
            forall|j: int| 0 <= j < i ==> s@[at + j] == needle@[j],
        decreases needle.len() - i,
    {
        if s[at + i] != needle[i] {
            proof {
                assert(s@.subrange(at as int, at + needle.len())[i as int] != needle@[i as int]);
            }
            return false;
        }
        i = i + 1;
    }
    proof {
        assert(s@.subrange(at as int, at + needle.len()) =~= needle@);
    }
    true
}

fn rank(candidate: &str, needle: &str, bias: u32) -> (r: Option<u32>)
    requires
        bias < 16,
    ensures
        match r {
            Some(v) => rank_of(candidate@, needle@, bias as int) == Some(v as int),
            None => rank_of(candidate@, needle@, bias as int) is None,
        },
{
    if same(candidate, needle) {
        return None;
    }
    let c = chars_of(candidate);
    let n = chars_of(needle);
    if n.len() > c.len() {
        proof {
            assert(!needle@.is_prefix_of(candidate@));
        }
        return None;
    }
    if starts_at(&c, &n, 0) {
        proof {
            assert(needle@.is_prefix_of(candidate@));
        }
        return Some(bias);
    }
    proof {
        assert(!needle@.is_prefix_of(candidate@)) by {
            if needle@.is_prefix_of(candidate@) {
                assert(c@.subrange(0, n.len() as int) =~= n@);
            }
        }
    }
    let mut i: usize = 0;
    while i <= c.len() - n.len()
        invariant
            n.len() <= c.len(),
            i <= c.len(),
            bias < 16,
            candidate@ != needle@,
            !needle@.is_prefix_of(candidate@),
            c@ == candidate@,
            n@ == needle@,
            forall|j: int| 0 <= j < i ==> #[trigger] c@.subrange(j, j + n.len()) != n@,
        decreases c.len() - i,
    {
        if starts_at(&c, &n, i) {
            proof {
                assert(occurs_in(needle@, candidate@));
            }
            return Some(bias + 1);
        }
        i = i + 1;
    }
    None
}


/// What a name in scope, or a common word, is.
#[derive(Debug, Clone, Copy, PartialEq, Eq, Structural)]
pub enum Kind {
    Signal,
    Field,
    Keyword,
    Context,
}

/// The label the popup shows beside a completion of this kind.
pub open spec fn kind_label(k: Kind) -> Seq<char> {
    match k {
        Kind::Signal => "signal"@,
        Kind::Field => "field"@,
        Kind::Keyword => "keyword"@,
        Kind::Context => "context"@,
    }
}

fn kind_str(k: Kind) -> (r: &'static str)
    ensures
        r@ == kind_label(k),
{
    match k {
        Kind::Signal => "signal",
        Kind::Field => "field",
        Kind::Keyword => "keyword",
        Kind::Context => "context",
    }
}

/// A name in scope is a signal when it says so, and a field otherwise.
pub open spec fn scope_kind(kind: Seq<char>) -> Kind {
    if kind == "signal"@ {
        Kind::Signal
    } else {
        Kind::Field
    }
}

/// A common word's kind.
pub open spec fn word_kind(kind: Seq<char>) -> Kind {
    if kind == "keyword"@ {
        Kind::Keyword
    } else {
        Kind::Context
    }
}

/// The document's own names that complete `needle`, ranked, in order.
pub open spec fn scope_entries(scope: Seq<(String, String)>, needle: Seq<char>) -> Seq<
    (int, Seq<char>, Kind),
>
    decreases scope.len(),
{
    if scope.len() == 0 {
        Seq::empty()
    } else {
        let e = scope.last();
        let rest = scope_entries(scope.drop_last(), needle);
        match rank_of(lower(e.0@), needle, 0) {
            Some(r) => rest.push((r, e.0@, scope_kind(e.1@))),
            None => rest,
        }
    }
}

/// The common words that complete `needle`, ranked two below the
/// document's own names, in order.
pub open spec fn word_entries(words: Seq<(Seq<char>, Seq<char>)>, needle: Seq<char>) -> Seq<
    (int, Seq<char>, Kind),
>
    decreases words.len(),
{
    if words.len() == 0 {
        Seq::empty()
    } else {
        let e = words.last();
        let rest = word_entries(words.drop_last(), needle);
        match rank_of(lower(e.0), needle, 2) {
            Some(r) => rest.push((r, e.0, word_kind(e.1))),
            None => rest,
        }
    }
}

/// The suggestions, deduplicated by text: an entry whose text repeats the
/// last one kept is dropped.
pub open spec fn dedup_text(s: Seq<(int, Seq<char>, Kind)>) -> Seq<(int, Seq<char>, Kind)>
    decreases s.len(),
{
    if s.len() == 0 {
        s
    } else {
        let d = dedup_text(s.drop_last());
        if d.len() > 0 && d.last().1 == s.last().1 {
            d
        } else {
            d.push(s.last())
        }
    }
}

/// At most this many suggestions, so the popup stays a popup.
pub const OFFERED: usize = 8;

/// What `needle` completes to, best first: nothing for a needle under two
/// bytes; otherwise the names in scope and the common words that it is a
/// prefix of (best) or occurs in (next), case-insensitively, the document's
/// own names ahead of the language's, then by text, repeats dropped, the
/// first `OFFERED` of them.
pub open spec fn suggestions_for(scope: Seq<(String, String)>, needle: Seq<char>) -> Seq<
    (Seq<char>, Seq<char>),
> {
    if vstd::utf8::encode_utf8(needle).len() < 2 {
        Seq::empty()
    } else {
        offered(scope, needle).map_values(|e: (int, Seq<char>, Kind)| (e.1, kind_label(e.2)))
    }
}

/// Every candidate that completes `needle`: the document's own names, then
/// the common words, each with its rank.
pub open spec fn candidates(scope: Seq<(String, String)>, needle: Seq<char>) -> Seq<
    (int, Seq<char>, Kind),
> {
    let n = lower(needle);
    scope_entries(scope, n) + word_entries(common_words(), n)
}

/// The ranked candidates that are offered: sorted by rank and then text,
/// repeats dropped, the first `OFFERED`.
pub open spec fn offered(scope: Seq<(String, String)>, needle: Seq<char>) -> Seq<
    (int, Seq<char>, Kind),
> {
    let d = dedup_text(sorted_by_key(candidates(scope, needle)));
    if d.len() > OFFERED {
        d.take(OFFERED as int)
    } else {
        d
    }
}

/// What `needle` could be completed to, best first.
pub fn suggest(scope: &[(String, String)], needle: &str) -> (r: Vec<Completion>)
    ensures
        r@.map_values(|c: Completion| completion_view(c)) == suggestions_for(scope@, needle@),
{
    if needle.as_bytes().len() < 2 {
        return Vec::new();
    }
    let low = lowercase(needle);
    let mut entries: Vec<(u64, String, Kind)> = Vec::new();
    let mut i: usize = 0;
    while i < scope.len()
        invariant
            i <= scope.len(),
            low@ == lower(needle@),
            entry_views(entries@) == scope_entries(scope@.take(i as int), low@),
        decreases scope.len() - i,
    {
        proof {
            assert(scope@.take(i + 1).drop_last() =~= scope@.take(i as int));
            assert(scope@.take(i + 1).last() == scope@[i as int]);
        }
        let name = lowercase(scope[i].0.as_str());
        match rank(name.as_str(), low.as_str(), 0) {
            Some(r) => {
                let kind = if same(scope[i].1.as_str(), "signal") {
                    Kind::Signal
                } else {
                    Kind::Field
                };
                let text = scope[i].0.clone();
                let ghost before = entries@;
                entries.push((r as u64, text, kind));
                proof {
                    assert(entry_views(entries@) =~= entry_views(before).push(
                        (r as int, scope@[i as int].0@, kind),
                    ));
                }
            },
            None => {},
        }
        i = i + 1;
    }
    proof {
        assert(scope@.take(scope.len() as int) =~= scope@);
    }
    let words = common();
    let ghost first = entry_views(entries@);
    let mut w: usize = 0;
    while w < words.len()
        invariant
            w <= words.len(),
            low@ == lower(needle@),
            words@.map_values(|e: (&str, &str)| (e.0@, e.1@)) == common_words(),
            entry_views(entries@) == first + word_entries(common_words().take(w as int), low@),
        decreases words.len() - w,
    {
        proof {
            assert(common_words().take(w + 1).drop_last() =~= common_words().take(w as int));
            assert(common_words().take(w + 1).last() == (words@[w as int].0@, words@[w as int].1@));
        }
        let name = lowercase(words[w].0);
        match rank(name.as_str(), low.as_str(), 2) {
            Some(r) => {
                let kind = if same(words[w].1, "keyword") {
                    Kind::Keyword
                } else {
                    Kind::Context
                };
                let text = String::from_str(words[w].0);
                let ghost before = entries@;
                entries.push((r as u64, text, kind));
                proof {
                    assert(entry_views(entries@) =~= entry_views(before).push(
                        (r as int, words@[w as int].0@, kind),
                    ));
                }
            },
            None => {},
        }
        w = w + 1;
    }
    proof {
        assert(common_words().take(words.len() as int) =~= common_words());
    }
    let sorted = sort_entries(entries);
    let ghost sv = entry_views(sorted@);
    // Drop a repeat of the last one kept.
    let mut kept: Vec<(u64, String, Kind)> = Vec::new();
    let mut j: usize = 0;
    while j < sorted.len()
        invariant
            j <= sorted.len(),
            sv == entry_views(sorted@),
            entry_views(kept@) == dedup_text(sv.take(j as int)),
        decreases sorted.len() - j,
    {
        proof {
            assert(sv.take(j + 1).drop_last() =~= sv.take(j as int));
            assert(sv.take(j + 1).last() == sv[j as int]);
        }
        let n = kept.len();
        let repeat = n > 0 && same(kept[n - 1].1.as_str(), sorted[j].1.as_str());
        if !repeat {
            let e = (sorted[j].0, sorted[j].1.clone(), sorted[j].2);
            let ghost before = kept@;
            kept.push(e);
            proof {
                assert(entry_views(kept@) =~= entry_views(before).push(sv[j as int]));
            }
        }
        j = j + 1;
    }
    proof {
        assert(sv.take(sorted.len() as int) =~= sv);
    }
    if kept.len() > OFFERED {
        kept.truncate(OFFERED);
    }
    let ghost final_entries = entry_views(kept@);
    proof {
        let d = dedup_text(sv);
        if d.len() > OFFERED {
            assert(final_entries =~= d.take(OFFERED as int));
        } else {
            assert(final_entries =~= d);
        }
    }
    let mut out: Vec<Completion> = Vec::new();
    let mut k: usize = 0;
    while k < kept.len()
        invariant
            k <= kept.len(),
            final_entries == entry_views(kept@),
            out@.map_values(|c: Completion| completion_view(c)) == final_entries.take(
                k as int,
            ).map_values(|e: (int, Seq<char>, Kind)| (e.1, kind_label(e.2))),
        decreases kept.len() - k,
    {
        let c = Completion { text: kept[k].1.clone(), kind: kind_str(kept[k].2) };
        let ghost before = out@;
        out.push(c);
        proof {
            assert(out@.map_values(|c: Completion| completion_view(c)) =~= before.map_values(
                |c: Completion| completion_view(c),
            ).push(completion_view(c)));
            assert(final_entries.take(k + 1).map_values(
                |e: (int, Seq<char>, Kind)| (e.1, kind_label(e.2)),
            ) =~= final_entries.take(k as int).map_values(
                |e: (int, Seq<char>, Kind)| (e.1, kind_label(e.2)),
            ).push((final_entries[k as int].1, kind_label(final_entries[k as int].2))));
        }
        k = k + 1;
    }
    proof {
        assert(final_entries.take(kept.len() as int) =~= final_entries);
    }
    out
}

/// Where the word ending at `end` starts: back over letters, digits and
/// underscores.
pub open spec fn word_start(chars: Seq<char>, end: int) -> int
    decreases end,
{
    if end > 0 && end <= chars.len() && (alnum(chars[end - 1]) || chars[end - 1] == '_') {
        word_start(chars, end - 1)
    } else {
        end
    }
}

/// The identifier being typed, ending at column `col` (or the end of the
/// line), or nothing right after a `.`.
pub open spec fn word_before_of(line: Seq<char>, col: int) -> Seq<char> {
    let end = if col < line.len() {
        col
    } else {
        line.len() as int
    };
    let start = word_start(line, end);
    if start > 0 && line[start - 1] == '.' {
        Seq::empty()
    } else {
        line.subrange(start, end)
    }
}

/// The word being typed, ending at `col` on `line`.
pub fn word_before(line: &str, col: usize) -> (r: String)
    ensures
        r@ == word_before_of(line@, col as int),
{
    let chars = chars_of(line);
    let end = if col < chars.len() { col } else { chars.len() };
    let mut start = end;
    while start > 0 && (is_alphanumeric(chars[start - 1]) || chars[start - 1] == '_')
        invariant
            start <= end,
            end <= chars.len(),
            chars@ == line@,
            word_start(line@, end as int) == word_start(line@, start as int),
        decreases start,
    {
        start = start - 1;
    }
    if start > 0 && chars[start - 1] == '.' {
        return String::new();
    }
    let word = string_of(&chars.as_slice()[start..end]);
    proof {
        assert(word@ =~= line@.subrange(start as int, end as int));
    }
    word
}

proof fn lemma_dedup(s: Seq<(int, Seq<char>, Kind)>)
    requires
        in_key_order(s),
    ensures
        in_key_order(dedup_text(s)),
        dedup_text(s).len() <= s.len(),
        forall|k: int| 0 <= k < dedup_text(s).len() ==> s.contains(#[trigger] dedup_text(s)[k]),
        forall|k: int|
            0 < k < dedup_text(s).len() ==> (#[trigger] dedup_text(s)[k]).1 != dedup_text(s)[k
                - 1].1,
    decreases s.len(),
{
    if s.len() > 0 {
        let prev = s.drop_last();
        assert forall|i: int, j: int| 0 <= i < j < prev.len() implies !crate::order::key_lt(
            crate::order::key_of(#[trigger] prev[j]),
            crate::order::key_of(#[trigger] prev[i]),
        ) by {
            assert(prev[i] == s[i] && prev[j] == s[j]);
        }
        lemma_dedup(prev);
        let d = dedup_text(prev);
        let r = dedup_text(s);
        assert forall|k: int| 0 <= k < d.len() implies s.contains(#[trigger] d[k]) by {
            assert(prev.contains(d[k]));
            let m = choose|m: int| 0 <= m < prev.len() && prev[m] == d[k];
            assert(s[m] == d[k]);
        }
        if !(d.len() > 0 && d.last().1 == s.last().1) {
            assert(r == d.push(s.last()));
            assert forall|k: int| 0 <= k < r.len() implies s.contains(#[trigger] r[k]) by {
                if k < d.len() {
                    assert(r[k] == d[k]);
                } else {
                    assert(s[s.len() - 1] == r[k]);
                }
            }
            assert forall|i: int, j: int| 0 <= i < j < r.len() implies !crate::order::key_lt(
                crate::order::key_of(#[trigger] r[j]),
                crate::order::key_of(#[trigger] r[i]),
            ) by {
                assert(r[i] == d[i]);
                if j < d.len() {
                    assert(r[j] == d[j]);
                } else {
                    assert(prev.contains(d[i]));
                    let m = choose|m: int| 0 <= m < prev.len() && prev[m] == d[i];
                    assert(s[m] == d[i]);
                    assert(s[s.len() - 1] == r[j]);
                }
            }
            assert forall|k: int| 0 < k < r.len() implies (#[trigger] r[k]).1 != r[k - 1].1 by {
                assert(r[k - 1] == d[k - 1]);
                if k < d.len() {
                    assert(r[k] == d[k]);
                }
            }
        }
    }
}

proof fn lemma_scope_ranks(scope: Seq<(String, String)>, needle: Seq<char>)
    ensures
        forall|k: int|
            0 <= k < scope_entries(scope, needle).len() ==> 0 <= (#[trigger] scope_entries(
                scope,
                needle,
            )[k]).0 < 2,
    decreases scope.len(),
{
    if scope.len() > 0 {
        lemma_scope_ranks(scope.drop_last(), needle);
        let q = scope_entries(scope.drop_last(), needle);
        let r = scope_entries(scope, needle);
        assert forall|k: int| 0 <= k < r.len() implies 0 <= (#[trigger] r[k]).0 < 2 by {
            if k < q.len() {
                assert(r[k] == q[k]);
            }
        }
    }
}

proof fn lemma_word_ranks(words: Seq<(Seq<char>, Seq<char>)>, needle: Seq<char>)
    ensures
        forall|k: int|
            0 <= k < word_entries(words, needle).len() ==> 2 <= (#[trigger] word_entries(
                words,
                needle,
            )[k]).0 < 4,
    decreases words.len(),
{
    if words.len() > 0 {
        lemma_word_ranks(words.drop_last(), needle);
        let q = word_entries(words.drop_last(), needle);
        let r = word_entries(words, needle);
        assert forall|k: int| 0 <= k < r.len() implies 2 <= (#[trigger] r[k]).0 < 4 by {
            if k < q.len() {
                assert(r[k] == q[k]);
            }
        }
    }
}

/// The completion popup holds at most `OFFERED` suggestions, best rank
/// first (a prefix before a mere occurrence, and the document's own names,
/// ranked below two, before the language's words, ranked two and up), then
/// by text; no text is offered twice in a row, and every suggestion is a
/// candidate that completes what was typed.
pub proof fn suggestions_come_best_first(scope: Seq<(String, String)>, needle: Seq<char>)
    ensures
        offered(scope, needle).len() <= OFFERED,
        in_key_order(offered(scope, needle)),
        forall|k: int|
            0 < k < offered(scope, needle).len() ==> (#[trigger] offered(scope, needle)[k]).1
                != offered(scope, needle)[k - 1].1,
        forall|k: int|
            0 <= k < offered(scope, needle).len() ==> candidates(scope, needle).contains(
                #[trigger] offered(scope, needle)[k],
            ),
        forall|k: int|
            0 <= k < scope_entries(scope, lower(needle)).len() ==> (#[trigger] scope_entries(
                scope,
                lower(needle),
            )[k]).0 < 2,
        forall|k: int|
            0 <= k < word_entries(common_words(), lower(needle)).len() ==> (
            #[trigger] word_entries(common_words(), lower(needle))[k]).0 >= 2,
{
    broadcast use vstd::seq_lib::group_to_multiset_ensures;

    let all = candidates(scope, needle);
    sorting_orders_and_keeps_every_entry(all);
    let s = sorted_by_key(all);
    lemma_dedup(s);
    lemma_scope_ranks(scope, lower(needle));
    lemma_word_ranks(common_words(), lower(needle));
    let d = dedup_text(s);
    let o = offered(scope, needle);
    assert forall|k: int| 0 <= k < o.len() implies all.contains(#[trigger] o[k]) by {
        assert(o[k] == d[k]);
        assert(s.contains(d[k]));
        assert(s.to_multiset().count(d[k]) > 0);
    }
    assert forall|i: int, j: int| 0 <= i < j < o.len() implies !crate::order::key_lt(
        crate::order::key_of(#[trigger] o[j]),
        crate::order::key_of(#[trigger] o[i]),
    ) by {
        assert(o[i] == d[i] && o[j] == d[j]);
    }
    assert forall|k: int| 0 < k < o.len() implies (#[trigger] o[k]).1 != o[k - 1].1 by {
        assert(o[k] == d[k] && o[k - 1] == d[k - 1]);
    }
}

/// Whether `e` offers `name` of kind `kind` for the (lowercased) needle `n`:
/// `n` is a proper prefix of the lowercased name, ranked `bias`, or else
/// occurs in it, ranked one below.
pub open spec fn offers(e: (int, Seq<char>, Kind), name: Seq<char>, kind: Kind, n: Seq<char>, bias: int) -> bool {
    &&& e.1 == name
    &&& e.2 == kind
    &&& lower(name) != n
    &&& if n.is_prefix_of(lower(name)) {
        e.0 == bias
    } else {
        occurs_in(n, lower(name)) && e.0 == bias + 1
    }
}

/// The entry a name earns when `n` occurs in it: a prefix ranks `bias`, any
/// other occurrence one below.
pub open spec fn earned(name: Seq<char>, kind: Kind, n: Seq<char>, bias: int) -> (int, Seq<char>, Kind) {
    (if n.is_prefix_of(lower(name)) { bias } else { bias + 1 }, name, kind)
}

proof fn lemma_prefix_occurs(n: Seq<char>, c: Seq<char>)
    requires
        n.is_prefix_of(c),
    ensures
        occurs_in(n, c),
{
    let i: int = 0;
    assert(c.subrange(i, i + n.len()) =~= n);
}

proof fn lemma_scope_offers(scope: Seq<(String, String)>, n: Seq<char>)
    ensures
        forall|i: int|
            0 <= i < scope.len() && lower((#[trigger] scope[i]).0@) != n && occurs_in(
                n,
                lower(scope[i].0@),
            ) ==> scope_entries(scope, n).contains(earned(scope[i].0@, scope_kind(scope[i].1@), n, 0)),
        forall|k: int|
            0 <= k < scope_entries(scope, n).len() ==> exists|i: int|
                0 <= i < scope.len() && offers(
                    #[trigger] scope_entries(scope, n)[k],
                    (#[trigger] scope[i]).0@,
                    scope_kind(scope[i].1@),
                    n,
                    0,
                ),
    decreases scope.len(),
{
    if scope.len() > 0 {
        let p = scope.drop_last();
        lemma_scope_offers(p, n);
        let q = scope_entries(p, n);
        let r = scope_entries(scope, n);
        let last = scope.len() - 1;
        assert(scope.last() == scope[last]);
        assert forall|i: int|
            0 <= i < scope.len() && lower((#[trigger] scope[i]).0@) != n && occurs_in(
                n,
                lower(scope[i].0@),
            ) implies r.contains(earned(scope[i].0@, scope_kind(scope[i].1@), n, 0)) by {
            if i < last {
                assert(p[i] == scope[i]);
                let m = choose|m: int| 0 <= m < q.len() && q[m] == earned(p[i].0@, scope_kind(p[i].1@), n, 0);
                assert(r[m] == q[m]);
            } else {
                assert(r[q.len() as int] == earned(scope[i].0@, scope_kind(scope[i].1@), n, 0));
            }
        }
        assert forall|k: int| 0 <= k < r.len() implies exists|i: int|
            0 <= i < scope.len() && offers(
                #[trigger] r[k],
                (#[trigger] scope[i]).0@,
                scope_kind(scope[i].1@),
                n,
                0,
            ) by {
            if k < q.len() {
                assert(r[k] == q[k]);
                let i = choose|i: int|
                    0 <= i < p.len() && offers(q[k], (#[trigger] p[i]).0@, scope_kind(p[i].1@), n, 0);
                assert(p[i] == scope[i]);
            } else {
                if n.is_prefix_of(lower(scope[last].0@)) {
                    lemma_prefix_occurs(n, lower(scope[last].0@));
                }
                assert(offers(r[k], scope[last].0@, scope_kind(scope[last].1@), n, 0));
            }
        }
    }
}

proof fn lemma_word_offers(words: Seq<(Seq<char>, Seq<char>)>, n: Seq<char>)
    ensures
        forall|i: int|
            0 <= i < words.len() && lower((#[trigger] words[i]).0) != n && occurs_in(n, lower(words[i].0))
                ==> word_entries(words, n).contains(earned(words[i].0, word_kind(words[i].1), n, 2)),
        forall|k: int|
            0 <= k < word_entries(words, n).len() ==> exists|i: int|
                0 <= i < words.len() && offers(
                    #[trigger] word_entries(words, n)[k],
                    (#[trigger] words[i]).0,
                    word_kind(words[i].1),
                    n,
                    2,
                ),
    decreases words.len(),
{
    if words.len() > 0 {
        let p = words.drop_last();
        lemma_word_offers(p, n);
        let q = word_entries(p, n);
        let r = word_entries(words, n);
        let last = words.len() - 1;
        assert(words.last() == words[last]);
        assert forall|i: int|
            0 <= i < words.len() && lower((#[trigger] words[i]).0) != n && occurs_in(n, lower(words[i].0))
                implies r.contains(earned(words[i].0, word_kind(words[i].1), n, 2)) by {
            if i < last {
                assert(p[i] == words[i]);
                let m = choose|m: int| 0 <= m < q.len() && q[m] == earned(p[i].0, word_kind(p[i].1), n, 2);
                assert(r[m] == q[m]);
            } else {
                assert(r[q.len() as int] == earned(words[i].0, word_kind(words[i].1), n, 2));
            }
        }
        assert forall|k: int| 0 <= k < r.len() implies exists|i: int|
            0 <= i < words.len() && offers(
                #[trigger] r[k],
                (#[trigger] words[i]).0,
                word_kind(words[i].1),
                n,
                2,
            ) by {
            if k < q.len() {
                assert(r[k] == q[k]);
                let i = choose|i: int|
                    0 <= i < p.len() && offers(q[k], (#[trigger] p[i]).0, word_kind(p[i].1), n, 2);
                assert(p[i] == words[i]);
            } else {
                if n.is_prefix_of(lower(words[last].0)) {
                    lemma_prefix_occurs(n, lower(words[last].0));
                }
                assert(offers(r[k], words[last].0, word_kind(words[last].1), n, 2));
            }
        }
    }
}

/// Completion is case-insensitive on both sides: a name in scope, or one of
/// the common words, is a candidate for what was typed exactly when the
/// lowercased input is a prefix of its lowercased form, or occurs in it,
/// without being all of it. A prefix ranks before a mere occurrence, and the
/// document's own names (ranked from zero) before the language's words
/// (ranked from two); each candidate keeps the name as written.
pub proof fn completion_ignores_case(scope: Seq<(String, String)>, needle: Seq<char>)
    ensures
        forall|i: int|
            0 <= i < scope.len() && lower((#[trigger] scope[i]).0@) != lower(needle) && occurs_in(
                lower(needle),
                lower(scope[i].0@),
            ) ==> candidates(scope, needle).contains(
                earned(scope[i].0@, scope_kind(scope[i].1@), lower(needle), 0),
            ),
        forall|i: int|
            0 <= i < common_words().len() && lower((#[trigger] common_words()[i]).0) != lower(needle)
                && occurs_in(lower(needle), lower(common_words()[i].0)) ==> candidates(
                scope,
                needle,
            ).contains(earned(common_words()[i].0, word_kind(common_words()[i].1), lower(needle), 2)),
        forall|k: int|
            0 <= k < candidates(scope, needle).len() ==> (exists|i: int|
                0 <= i < scope.len() && offers(
                    #[trigger] candidates(scope, needle)[k],
                    (#[trigger] scope[i]).0@,
                    scope_kind(scope[i].1@),
                    lower(needle),
                    0,
                )) || (exists|i: int|
                0 <= i < common_words().len() && offers(
                    #[trigger] candidates(scope, needle)[k],
                    (#[trigger] common_words()[i]).0,
                    word_kind(common_words()[i].1),
                    lower(needle),
                    2,
                )),
{
    let n = lower(needle);
    let a = scope_entries(scope, n);
    let b = word_entries(common_words(), n);
    let c = candidates(scope, needle);
    lemma_scope_offers(scope, n);
    lemma_word_offers(common_words(), n);
    assert(c == a + b);
    assert forall|i: int|
        0 <= i < scope.len() && lower((#[trigger] scope[i]).0@) != n && occurs_in(n, lower(scope[i].0@))
            implies c.contains(earned(scope[i].0@, scope_kind(scope[i].1@), n, 0)) by {
        let m = choose|m: int| 0 <= m < a.len() && a[m] == earned(scope[i].0@, scope_kind(scope[i].1@), n, 0);
        assert(c[m] == a[m]);
    }
    assert forall|i: int|
        0 <= i < common_words().len() && lower((#[trigger] common_words()[i]).0) != n && occurs_in(
            n,
            lower(common_words()[i].0),
        ) implies c.contains(earned(common_words()[i].0, word_kind(common_words()[i].1), n, 2)) by {
        let m = choose|m: int|
            0 <= m < b.len() && b[m] == earned(common_words()[i].0, word_kind(common_words()[i].1), n, 2);
        assert(c[a.len() + m] == b[m]);
    }
    assert forall|k: int| 0 <= k < c.len() implies (exists|i: int|
        0 <= i < scope.len() && offers(
            #[trigger] c[k],
            (#[trigger] scope[i]).0@,
            scope_kind(scope[i].1@),
            n,
            0,
        )) || (exists|i: int|
        0 <= i < common_words().len() && offers(
            #[trigger] c[k],
            (#[trigger] common_words()[i]).0,
            word_kind(common_words()[i].1),
            n,
            2,
        )) by {
        if k < a.len() {
            assert(c[k] == a[k]);
        } else {
            assert(c[k] == b[k - a.len()]);
        }
    }
}

} // verus!
