//! Open Quickly: scoring a name against what was typed, and ranking what
//! the palette can reach.

use vstd::prelude::*;
use crate::order::{entry_views, in_key_order, sort_entries, sorted_by_key, sorting_orders_and_keeps_every_entry};
use crate::text::{chars_of, lower, lowercase};
use crate::workspace::NodeId;

verus! {

/// Where picking a result takes you.
#[derive(Debug, Clone, PartialEq, Eq)]
pub enum Go {
    /// Open a document's tab.
    Document(String),
    /// Pin the code pane to a file.
    File(String),
    /// Open the action editor.
    Action(usize),
    /// Select a node on the canvas, opening its document first.
    Node(String, NodeId),
}

/// The icon a result shows for where it goes.
pub open spec fn go_icon(go: Go) -> Seq<char> {
    match go {
        Go::Document(_) => "file-text"@,
        Go::File(_) => "file-code-2"@,
        Go::Action(_) => "zap"@,
        Go::Node(..) => "box"@,
    }
}

/// The word a result shows for what it is.
pub open spec fn go_kind(go: Go) -> Seq<char> {
    match go {
        Go::Document(_) => "document"@,
        Go::File(_) => "file"@,
        Go::Action(_) => "action"@,
        Go::Node(..) => "component"@,
    }
}

impl Go {
    pub fn icon(&self) -> (r: &'static str)
        ensures
            r@ == go_icon(*self),
    {
        match self {
            Go::Document(_) => "file-text",
            Go::File(_) => "file-code-2",
            Go::Action(_) => "zap",
            Go::Node(..) => "box",
        }
    }

    pub fn kind(&self) -> (r: &'static str)
        ensures
            r@ == go_kind(*self),
    {
        match self {
            Go::Document(_) => "document",
            Go::File(_) => "file",
            Go::Action(_) => "action",
            Go::Node(..) => "component",
        }
    }
}

/// One thing you can open.
#[derive(Debug, Clone, PartialEq, Eq)]
pub struct Target {
    pub label: String,
    /// The greyed half: a path, a document name, a component's type.
    pub detail: String,
    pub go: Go,
}

/// The first position at or after `from` where `c` occurs in `hay`.
pub open spec fn first_from(hay: Seq<char>, c: char, from: int) -> Option<int>
    decreases hay.len() - from,
{
    if from < 0 || from >= hay.len() {
        None
    } else if hay[from] == c {
        Some(from)
    } else {
        first_from(hay, c, from + 1)
    }
}

/// Where each letter of `want` is found in `hay`, each the first occurrence
/// after the previous one, starting at `from`; `None` when one is missing.
pub open spec fn places(hay: Seq<char>, want: Seq<char>, from: int) -> Option<Seq<int>>
    decreases want.len(),
{
    if want.len() == 0 {
        Some(Seq::empty())
    } else {
        match first_from(hay, want[0], from) {
            None => None,
            Some(p) => match places(hay, want.drop_first(), p + 1) {
                None => None,
                Some(rest) => Some(seq![p] + rest),
            },
        }
    }
}

/// Whether position `p` starts a word: just after `_`, `/` or a space.
pub open spec fn at_boundary(hay: Seq<char>, p: int) -> bool {
    p > 0 && (hay[p - 1] == '_' || hay[p - 1] == '/' || hay[p - 1] == ' ')
}

/// A count kept in a `u32`, as `as u32` keeps it: its low 32 bits.
pub open spec fn t32(x: int) -> int {
    x % 0x1_0000_0000
}

/// The penalty for a set of places: three per character before the first
/// one, then for each gap two per skipped character, or at most two when the
/// next letter starts a word (positions and gaps counted in a `u32`).
pub open spec fn penalty(hay: Seq<char>, ps: Seq<int>) -> int
    decreases ps.len(),
{
    if ps.len() == 0 {
        0
    } else if ps.len() == 1 {
        3 * t32(ps[0])
    } else {
        let p = ps.last();
        let gap = t32(p - ps[ps.len() - 2] - 1);
        penalty(hay, ps.drop_last()) + if at_boundary(hay, p) {
            if gap < 2 {
                gap
            } else {
                2
            }
        } else {
            2 * gap
        }
    }
}

/// How well `needle` matches `haystack`, lower being better: a
/// case-insensitive subsequence match, penalised by where it starts and the
/// gaps in it, plus a quarter of the name's length (counted in a `u32`) so
/// shorter names win ties; `1000` for an empty needle; `None` when it does
/// not match. The value is exact: no `u32` bound applies here.
pub open spec fn score_of(haystack: Seq<char>, needle: Seq<char>) -> Option<int> {
    if needle.len() == 0 {
        Some(1000)
    } else {
        match places(lower(haystack), lower(needle), 0) {
            None => None,
            Some(ps) => Some(penalty(lower(haystack), ps) + t32(haystack.len() as int) / 4),
        }
    }
}

/// What `score` returns: the score when it fits the `u32` it is counted
/// in; `None` when there is no match, and also when the count would pass
/// `u32::MAX`, where the sum the score is built from overflows.
pub open spec fn checked_score(haystack: Seq<char>, needle: Seq<char>) -> Option<int> {
    match score_of(haystack, needle) {
        Some(v) => if v <= u32::MAX {
            Some(v)
        } else {
            None
        },
        None => None,
    }
}

proof fn lemma_places_step(hay: Seq<char>, want: Seq<char>, k: int, at: int, p: int)
    requires
        0 <= k < want.len(),
        first_from(hay, want[k], at) == Some(p),
    ensures
        places(hay, want.skip(k), at) == match places(hay, want.skip(k + 1), p + 1) {
            None => None,
            Some(rest) => Some(seq![p] + rest),
        },
{
    assert(want.skip(k)[0] == want[k]);
    assert(want.skip(k).drop_first() =~= want.skip(k + 1));
}

proof fn lemma_first_from(hay: Seq<char>, c: char, from: int)
    ensures
        first_from(hay, c, from) matches Some(p) ==> from <= p < hay.len() && hay[p] == c,
    decreases hay.len() - from,
{
    if 0 <= from < hay.len() && hay[from] != c {
        lemma_first_from(hay, c, from + 1);
    }
}

fn find_from(hay: &Vec<char>, c: char, from: usize) -> (r: Option<usize>)
    ensures
        match r {
            Some(p) => first_from(hay@, c, from as int) == Some(p as int),
            None => first_from(hay@, c, from as int) is None,
        },
{
    let mut i = from;
    while i < hay.len()
        invariant
            from <= i,
            first_from(hay@, c, from as int) == first_from(hay@, c, i as int),
        decreases hay.len() - i,
    {
        if hay[i] == c {
            return Some(i);
        }
        i = i + 1;
    }
    None
}

proof fn lemma_penalty_grows(hay: Seq<char>, a: Seq<int>, b: Seq<int>)
    requires
        a.len() >= 1,
    ensures
        penalty(hay, a + b) >= penalty(hay, a),
    decreases b.len(),
{
    if b.len() == 0 {
        assert(a + b =~= a);
    } else {
        lemma_penalty_grows(hay, a, b.drop_last());
        assert((a + b).drop_last() =~= a + b.drop_last());
    }
}

/// The penalty-and-length score of lowercased `hay` against lowercased
/// `want`, for a name of `width` characters, or `None` when it does not
/// match or the score would not fit in a `u32`.
fn score_folded(hay: &Vec<char>, want: &Vec<char>, width: usize) -> (r: Option<u32>)
    ensures
        match r {
            Some(v) => places(hay@, want@, 0) matches Some(ps) && v == penalty(hay@, ps) + t32(
                width as int,
            ) / 4,
            None => match places(hay@, want@, 0) {
                None => true,
                Some(ps) => penalty(hay@, ps) + t32(width as int) / 4 > u32::MAX,
            },
        },
{
    let mut at: usize = 0;
    let mut total: u64 = 0;
    let mut last: Option<usize> = None;
    let ghost mut done: Seq<int> = Seq::empty();
    let mut k: usize = 0;
    proof {
        assert(want@.skip(0) =~= want@);
    }
    while k < want.len()
        invariant
            k <= want.len(),
            at <= hay.len(),
            done.len() == k,
            last is None <==> k == 0,
            last matches Some(l) ==> l == done.last() && at == l + 1,
            k == 0 ==> at == 0,
            total == penalty(hay@, done),
            total <= u32::MAX,
            places(hay@, want@, 0) == match places(hay@, want@.skip(k as int), at as int) {
                None => None,
                Some(rest) => Some(done + rest),
            },
        decreases want.len() - k,
    {
        let found = match find_from(hay, want[k], at) {
            Some(p) => p,
            None => {
                proof {
                    assert(want@.skip(k as int)[0] == want@[k as int]);
                }
                return None;
            },
        };
        proof {
            lemma_first_from(hay@, want@[k as int], at as int);
            lemma_places_step(hay@, want@, k as int, at as int, found as int);
        }
        let ghost next = done.push(found as int);
        match last {
            Some(previous) => {
                let gap: u64 = ((found - previous - 1) as u64) % 0x1_0000_0000;
                let boundary = found > 0 && (hay[found - 1] == '_' || hay[found - 1] == '/'
                    || hay[found - 1] == ' ');
                let step: u64 = if boundary {
                    if gap < 2 {
                        gap
                    } else {
                        2
                    }
                } else {
                    gap * 2
                };
                proof {
                    assert(next.drop_last() =~= done);
                    assert(next[next.len() - 2] == previous);
                }
                total = total + step;
            },
            None => {
                proof {
                    assert(next =~= seq![found as int]);
                }
                total = ((found as u64) % 0x1_0000_0000) * 3;
            },
        }
        proof {
            assert(total == penalty(hay@, next));
            let rest = places(hay@, want@.skip(k + 1), found + 1);
            match rest {
                Some(r) => {
                    assert(done + (seq![found as int] + r) =~= next + r);
                    lemma_penalty_grows(hay@, next, r);
                },
                None => {},
            }
        }
        if total > 0xffff_ffff {
            return None;
        }
        proof {
            done = next;
        }
        last = Some(found);
        at = found + 1;
        k = k + 1;
    }
    proof {
        assert(want@.skip(want.len() as int) =~= Seq::<char>::empty());
        assert(done + Seq::<int>::empty() =~= done);
    }
    let tax: u64 = ((width as u64) % 0x1_0000_0000) / 4;
    if total + tax > 0xffff_ffff {
        return None;
    }
    Some((total + tax) as u32)
}

/// How well `needle` matches `haystack`, lower being better, or `None` when
/// it does not match at all (or the score would pass `u32::MAX`).
pub fn score(haystack: &str, needle: &str) -> (r: Option<u32>)
    ensures
        match r {
            Some(v) => checked_score(haystack@, needle@) == Some(v as int),
            None => checked_score(haystack@, needle@) is None,
        },
{
    if needle.is_empty() {
        return Some(1000);
    }
    let width = haystack.unicode_len();
    let hay_text = lowercase(haystack);
    let hay = chars_of(hay_text.as_str());
    let want_text = lowercase(needle);
    let want = chars_of(want_text.as_str());
    score_folded(&hay, &want, width)
}

/// A target's best score: its label's, or its detail's plus forty (the
/// detail is searchable, but ranks below the name), counted without a bound.
pub open spec fn best_of(t: Target, needle: Seq<char>) -> Option<int> {
    let a = checked_score(t.label@, needle);
    let b = match checked_score(t.detail@, needle) {
        Some(s) => Some(s + 40),
        None => None,
    };
    match (a, b) {
        (Some(x), Some(y)) => Some(if x <= y {
            x
        } else {
            y
        }),
        (Some(x), None) => Some(x),
        (None, Some(y)) => Some(y),
        (None, None) => None,
    }
}

/// The targets that match, each with its best score and label, in order.
pub open spec fn scored(targets: Seq<Target>, needle: Seq<char>) -> Seq<(int, Seq<char>, Target)>
    decreases targets.len(),
{
    if targets.len() == 0 {
        Seq::empty()
    } else {
        let t = targets.last();
        let rest = scored(targets.drop_last(), needle);
        match best_of(t, needle) {
            Some(s) => rest.push((s, t.label@, t)),
            None => rest,
        }
    }
}

/// At most this many results come back, so the list stays a list.
pub const SHOWN: usize = 20;

/// `targets` ranked against `needle`: the ones that match, best score first
/// and then by label, the first `SHOWN` of them.
pub open spec fn ranked(targets: Seq<Target>, needle: Seq<char>) -> Seq<Target> {
    let s = sorted_by_key(scored(targets, needle));
    let kept = if s.len() > SHOWN {
        s.take(SHOWN as int)
    } else {
        s
    };
    kept.map_values(|e: (int, Seq<char>, Target)| e.2)
}

/// Rank `targets` against `needle`, best first.
pub fn rank(targets: Vec<Target>, needle: &str) -> (r: Vec<Target>)
    ensures
        r@ == ranked(targets@, needle@),
{
    let ghost all = targets@;
    let mut targets = targets;
    let mut rev: Vec<Target> = Vec::new();
    while targets.len() > 0
        invariant
            all.len() >= targets@.len(),
            targets@ == all.take(targets@.len() as int),
            rev@.len() + targets@.len() == all.len(),
            forall|j: int| 0 <= j < rev@.len() ==> rev@[j] == all[all.len() - 1 - j],
        decreases targets.len(),
    {
        let t = targets.pop().unwrap();
        rev.push(t);
        proof {
            assert(targets@ =~= all.take(targets@.len() as int));
        }
    }
    let mut entries: Vec<(u64, String, Target)> = Vec::new();
    let mut k: usize = 0;
    let total = rev.len();
    while rev.len() > 0
        invariant
            k + rev@.len() == all.len(),
            all.len() == total,
            forall|j: int| 0 <= j < rev@.len() ==> rev@[j] == all[all.len() - 1 - j],
            entry_views(entries@) == scored(all.take(k as int), needle@),
        decreases rev.len(),
    {
        let t = rev.pop().unwrap();
        proof {
            assert(t == all[k as int]);
            assert(all.take(k + 1).drop_last() =~= all.take(k as int));
        }
        let a = match score(t.label.as_str(), needle) {
            Some(s) => Some(s as u64),
            None => None,
        };
        let b = match score(t.detail.as_str(), needle) {
            Some(s) => Some(s as u64 + 40),
            None => None,
        };
        let best = match (a, b) {
            (Some(x), Some(y)) => Some(if x <= y { x } else { y }),
            (Some(x), None) => Some(x),
            (None, Some(y)) => Some(y),
            (None, None) => None,
        };
        match best {
            Some(s) => {
                let label = t.label.clone();
                let ghost before = entries@;
                entries.push((s, label, t));
                proof {
                    assert(entry_views(entries@) =~= entry_views(before).push((s as int, t.label@, t)));
                }
            },
            None => {},
        }
        k = k + 1;
    }
    proof {
        assert(all.take(all.len() as int) =~= all);
    }
    let mut sorted = sort_entries(entries);
    if sorted.len() > SHOWN {
        sorted.truncate(SHOWN);
    }
    let mut out: Vec<Target> = Vec::new();
    let ghost kept = sorted@;
    proof {
        let s = sorted_by_key(scored(all, needle@));
        if s.len() > SHOWN {
            assert(entry_views(kept) =~= s.take(SHOWN as int));
        } else {
            assert(entry_views(kept) =~= s);
        }
    }
    while sorted.len() > 0
        invariant
            sorted@.len() <= kept.len(),
            sorted@ == kept.skip(out@.len() as int),
            out@ == kept.take(out@.len() as int).map_values(|e: (u64, String, Target)| e.2),
            out@.len() + sorted@.len() == kept.len(),
        decreases sorted.len(),
    {
        let e = sorted.remove(0);
        let ghost n = out@.len();
        out.push(e.2);
        proof {
            assert(kept[n as int] == e);
            assert(sorted@ =~= kept.skip(out@.len() as int));
            assert(out@ =~= kept.take(out@.len() as int).map_values(
                |e: (u64, String, Target)| e.2,
            ));
        }
    }
    proof {
        assert(kept.take(kept.len() as int) =~= kept);
        let s = sorted_by_key(scored(all, needle@));
        let k2 = if s.len() > SHOWN {
            s.take(SHOWN as int)
        } else {
            s
        };
        assert(k2 == entry_views(kept));
        assert(out@ =~= k2.map_values(|e: (int, Seq<char>, Target)| e.2));
    }
    out
}

proof fn lemma_scored(targets: Seq<Target>, needle: Seq<char>)
    ensures
        forall|k: int|
            0 <= k < scored(targets, needle).len() ==> {
                let e = #[trigger] scored(targets, needle)[k];
                &&& best_of(e.2, needle) == Some(e.0)
                &&& targets.contains(e.2)
            },
        scored(targets, needle).len() == targets.filter(|t: Target| best_of(t, needle) is Some).len(),
    decreases targets.len(),
{
    if targets.len() > 0 {
        let prev = targets.drop_last();
        lemma_scored(prev, needle);
        let f = |t: Target| best_of(t, needle) is Some;
        assert(prev.push(targets.last()) =~= targets);
        prev.lemma_filter_push(targets.last(), f);
        let r = scored(targets, needle);
        let q = scored(prev, needle);
        assert forall|k: int| 0 <= k < r.len() implies {
            let e = #[trigger] r[k];
            &&& best_of(e.2, needle) == Some(e.0)
            &&& targets.contains(e.2)
        } by {
            if k < q.len() {
                assert(r[k] == q[k]);
                let m = choose|m: int| 0 <= m < prev.len() && prev[m] == q[k].2;
                assert(targets[m] == prev[m]);
            } else {
                assert(targets[targets.len() - 1] == targets.last());
            }
        }
    }
}

/// Open Quickly shows only what matches, best score first, and never more
/// than `SHOWN` results: as many as match, up to that.
pub proof fn ranking_shows_the_best_matches_first(targets: Seq<Target>, needle: Seq<char>)
    ensures
        ranked(targets, needle).len() == if targets.filter(|t: Target| best_of(t, needle) is Some).len()
            > SHOWN {
            SHOWN as nat
        } else {
            targets.filter(|t: Target| best_of(t, needle) is Some).len()
        },
        forall|k: int|
            0 <= k < ranked(targets, needle).len() ==> targets.contains(
                #[trigger] ranked(targets, needle)[k],
            ) && best_of(ranked(targets, needle)[k], needle) is Some,
        forall|i: int, j: int|
            0 <= i < j < ranked(targets, needle).len() ==> best_of(
                #[trigger] ranked(targets, needle)[i],
                needle,
            )->0 <= best_of(#[trigger] ranked(targets, needle)[j], needle)->0,
{
    broadcast use vstd::seq_lib::group_to_multiset_ensures;

    let sc = scored(targets, needle);
    lemma_scored(targets, needle);
    sorting_orders_and_keeps_every_entry(sc);
    let s = sorted_by_key(sc);
    let kept = if s.len() > SHOWN {
        s.take(SHOWN as int)
    } else {
        s
    };
    let r = ranked(targets, needle);
    assert(r == kept.map_values(|e: (int, Seq<char>, Target)| e.2));
    assert forall|k: int| 0 <= k < s.len() implies best_of((#[trigger] s[k]).2, needle) == Some(
        s[k].0,
    ) && targets.contains(s[k].2) by {
        assert(s.contains(s[k]));
        assert(s.to_multiset().count(s[k]) > 0);
        assert(sc.contains(s[k]));
        let m = choose|m: int| 0 <= m < sc.len() && sc[m] == s[k];
        assert(sc[m] == s[k]);
    }
    assert forall|k: int| 0 <= k < r.len() implies targets.contains(#[trigger] r[k]) && best_of(
        r[k],
        needle,
    ) is Some by {
        assert(r[k] == kept[k].2);
        assert(kept[k] == s[k]);
    }
    assert forall|i: int, j: int| 0 <= i < j < r.len() implies best_of(#[trigger] r[i], needle)->0
        <= best_of(#[trigger] r[j], needle)->0 by {
        assert(r[i] == s[i].2 && r[j] == s[j].2);
        assert(best_of(s[i].2, needle) == Some(s[i].0));
        assert(best_of(s[j].2, needle) == Some(s[j].0));
        assert(in_key_order(s));
        assert(!crate::order::key_lt(crate::order::key_of(s[j]), crate::order::key_of(s[i])));
    }
}

proof fn lemma_places_run(h: Seq<char>, w: Seq<char>, k: int)
    requires
        0 <= k,
        k + w.len() <= h.len(),
        forall|i: int| 0 <= i < w.len() ==> h[k + i] == #[trigger] w[i],
    ensures
        places(h, w, k) == Some(Seq::new(w.len(), |i: int| k + i)),
    decreases w.len(),
{
    if w.len() > 0 {
        assert(h[k + 0] == w[0]);
        assert(first_from(h, w[0], k) == Some(k));
        let rest = w.drop_first();
        assert forall|i: int| 0 <= i < rest.len() implies h[(k + 1) + i] == #[trigger] rest[i] by {
            assert(rest[i] == w[i + 1]);
        }
        lemma_places_run(h, rest, k + 1);
        assert(seq![k] + Seq::new(rest.len(), |i: int| (k + 1) + i) =~= Seq::new(
            w.len(),
            |i: int| k + i,
        ));
    }
}

proof fn lemma_penalty_run(h: Seq<char>, n: nat)
    ensures
        penalty(h, Seq::new(n, |i: int| 0 + i)) == 0,
    decreases n,
{
    if n > 1 {
        let ps = Seq::new(n, |i: int| 0 + i);
        assert(ps.drop_last() =~= Seq::new((n - 1) as nat, |i: int| 0 + i));
        lemma_penalty_run(h, (n - 1) as nat);
    }
}

/// Positions at or after `from`, strictly increasing.
pub open spec fn rising(ps: Seq<int>, from: int) -> bool {
    &&& forall|i: int| 0 <= i < ps.len() ==> #[trigger] ps[i] >= from
    &&& forall|i: int| 0 < i < ps.len() ==> #[trigger] ps[i] > ps[i - 1]
}

proof fn lemma_places_rising(h: Seq<char>, w: Seq<char>, from: int)
    requires
        from >= 0,
    ensures
        places(h, w, from) matches Some(ps) ==> rising(ps, from) && ps.len() == w.len(),
    decreases w.len(),
{
    if w.len() > 0 {
        lemma_first_from(h, w[0], from);
        if let Some(p) = first_from(h, w[0], from) {
            lemma_places_rising(h, w.drop_first(), p + 1);
            if let Some(rest) = places(h, w.drop_first(), p + 1) {
                let ps = seq![p] + rest;
                assert forall|i: int| 0 <= i < ps.len() implies #[trigger] ps[i] >= from by {
                    if i > 0 {
                        assert(ps[i] == rest[i - 1]);
                    }
                }
                assert forall|i: int| 0 < i < ps.len() implies #[trigger] ps[i] > ps[i - 1] by {
                    assert(ps[i] == rest[i - 1]);
                    if i > 1 {
                        assert(ps[i - 1] == rest[i - 2]);
                    }
                }
            }
        }
    }
}

proof fn lemma_penalty_nonnegative(h: Seq<char>, ps: Seq<int>)
    requires
        rising(ps, 0),
    ensures
        penalty(h, ps) >= 0,
    decreases ps.len(),
{
    if ps.len() > 1 {
        let prev = ps.drop_last();
        assert forall|i: int| 0 <= i < prev.len() implies #[trigger] prev[i] >= 0 by {
            assert(prev[i] == ps[i]);
        }
        assert forall|i: int| 0 < i < prev.len() implies #[trigger] prev[i] > prev[i - 1] by {
            assert(prev[i] == ps[i] && prev[i - 1] == ps[i - 1]);
        }
        lemma_penalty_nonnegative(h, prev);
        assert(ps[ps.len() - 1] > ps[ps.len() - 2]);
    } else if ps.len() == 1 {
        assert(ps[0] >= 0);
    }
}

/// The obvious answer wins: a needle that starts the name (ignoring case)
/// scores nothing but the quarter-length tax, and no needle that matches at
/// all scores less.
pub proof fn a_prefix_scores_only_its_length(haystack: Seq<char>, needle: Seq<char>, other: Seq<char>)
    requires
        needle.len() > 0,
        lower(needle).is_prefix_of(lower(haystack)),
    ensures
        score_of(haystack, needle) == Some(t32(haystack.len() as int) / 4),
        checked_score(haystack, needle) == Some(t32(haystack.len() as int) / 4),
        other.len() > 0 && score_of(haystack, other) is Some ==> score_of(haystack, other)->0
            >= t32(haystack.len() as int) / 4,
{
    let h = lower(haystack);
    let w = lower(needle);
    assert forall|i: int| 0 <= i < w.len() implies h[0 + i] == #[trigger] w[i] by {}
    lemma_places_run(h, w, 0);
    lemma_penalty_run(h, w.len());
    lemma_places_rising(h, lower(other), 0);
    if let Some(ps) = places(h, lower(other), 0) {
        lemma_penalty_nonnegative(h, ps);
    }
}

/// `ps` places the letters of `w` in `h`, in order, at or after `from`.
pub open spec fn embeds(w: Seq<char>, h: Seq<char>, ps: Seq<int>, from: int) -> bool {
    &&& ps.len() == w.len()
    &&& rising(ps, from)
    &&& forall|i: int| 0 <= i < ps.len() ==> #[trigger] ps[i] < h.len() && h[ps[i]] == w[i]
}

/// `w` is a subsequence of `h`: its letters occur in `h` in order, not
/// necessarily side by side.
pub open spec fn subsequence(w: Seq<char>, h: Seq<char>) -> bool {
    exists|ps: Seq<int>| #[trigger] embeds(w, h, ps, 0)
}

proof fn lemma_first_from_finds(h: Seq<char>, c: char, from: int, q: int)
    requires
        0 <= from <= q < h.len(),
        h[q] == c,
    ensures
        first_from(h, c, from) matches Some(p) && p <= q,
    decreases q - from,
{
    if h[from] != c {
        lemma_first_from_finds(h, c, from + 1, q);
    }
}

proof fn lemma_places_embeds(h: Seq<char>, w: Seq<char>, from: int)
    requires
        from >= 0,
    ensures
        places(h, w, from) matches Some(ps) ==> embeds(w, h, ps, from),
    decreases w.len(),
{
    lemma_places_rising(h, w, from);
    if w.len() > 0 {
        lemma_first_from(h, w[0], from);
        if let Some(p) = first_from(h, w[0], from) {
            lemma_places_embeds(h, w.drop_first(), p + 1);
            if let Some(rest) = places(h, w.drop_first(), p + 1) {
                let ps = seq![p] + rest;
                assert forall|i: int| 0 <= i < ps.len() implies #[trigger] ps[i] < h.len() && h[ps[i]]
                    == w[i] by {
                    if i > 0 {
                        assert(ps[i] == rest[i - 1]);
                        assert(w.drop_first()[i - 1] == w[i]);
                    }
                }
            }
        }
    }
}

proof fn lemma_rising_climbs(ps: Seq<int>, from: int, k: int)
    requires
        rising(ps, from),
        0 <= k < ps.len(),
    ensures
        ps[k] >= ps[0] + k,
    decreases k,
{
    if k > 0 {
        lemma_rising_climbs(ps, from, k - 1);
        assert(ps[k] > ps[k - 1]);
    }
}

proof fn lemma_embeds_places(h: Seq<char>, w: Seq<char>, from: int, ps: Seq<int>)
    requires
        from >= 0,
        embeds(w, h, ps, from),
    ensures
        places(h, w, from) is Some,
    decreases w.len(),
{
    if w.len() > 0 {
        assert(ps[0] < h.len() && h[ps[0]] == w[0]);
        assert(ps[0] >= from);
        lemma_first_from_finds(h, w[0], from, ps[0]);
        lemma_first_from(h, w[0], from);
        let p = first_from(h, w[0], from)->0;
        let rest = ps.drop_first();
        let wr = w.drop_first();
        assert forall|i: int| 0 <= i < rest.len() implies #[trigger] rest[i] >= p + 1 by {
            assert(rest[i] == ps[i + 1]);
            lemma_rising_climbs(ps, from, i + 1);
        }
        assert forall|i: int| 0 < i < rest.len() implies #[trigger] rest[i] > rest[i - 1] by {
            assert(rest[i] == ps[i + 1] && rest[i - 1] == ps[i]);
        }
        assert forall|i: int| 0 <= i < rest.len() implies #[trigger] rest[i] < h.len() && h[rest[i]]
            == wr[i] by {
            assert(rest[i] == ps[i + 1] && wr[i] == w[i + 1]);
        }
        lemma_embeds_places(h, wr, p + 1, rest);
    }
}

/// A name scores exactly when what was typed is a subsequence of it,
/// ignoring case: its letters occur in the name in order, not as a bag
/// (`msc` finds `MainScreen`, `nm` does not). An empty needle always
/// scores 1000, and a score is given whenever it fits its `u32`.
pub proof fn a_score_exists_for_exactly_the_subsequences(haystack: Seq<char>, needle: Seq<char>)
    ensures
        needle.len() == 0 ==> checked_score(haystack, needle) == Some(1000int),
        needle.len() > 0 ==> (score_of(haystack, needle) is Some <==> subsequence(
            lower(needle),
            lower(haystack),
        )),
        needle.len() > 0 ==> (checked_score(haystack, needle) is Some <==> subsequence(
            lower(needle),
            lower(haystack),
        ) && score_of(haystack, needle)->0 <= u32::MAX),
{
    let h = lower(haystack);
    let w = lower(needle);
    lemma_places_embeds(h, w, 0);
    if let Some(ps) = places(h, w, 0) {
        assert(embeds(w, h, ps, 0));
    }
    if subsequence(w, h) {
        let ps = choose|ps: Seq<int>| #[trigger] embeds(w, h, ps, 0);
        lemma_embeds_places(h, w, 0, ps);
    }
}

/// The detail is searchable too, but a match there ranks below the same
/// match in the name: a target scores its label's score or its detail's plus
/// forty, whichever is lower, and it matches when either of them does.
pub proof fn a_detail_match_ranks_below_the_name(t: Target, needle: Seq<char>)
    ensures
        best_of(t, needle) is Some <==> (checked_score(t.label@, needle) is Some || checked_score(
            t.detail@,
            needle,
        ) is Some),
        checked_score(t.label@, needle) is Some ==> best_of(t, needle)->0 <= checked_score(
            t.label@,
            needle,
        )->0,
        checked_score(t.detail@, needle) is Some ==> best_of(t, needle)->0 <= checked_score(
            t.detail@,
            needle,
        )->0 + 40,
        best_of(t, needle) is Some ==> checked_score(t.label@, needle) == best_of(t, needle)
            || checked_score(t.detail@, needle) == Some(best_of(t, needle)->0 - 40),
        checked_score(t.label@, needle) is None ==> best_of(t, needle) == match checked_score(
            t.detail@,
            needle,
        ) {
            Some(d) => Some(d + 40),
            None => None,
        },
{
}

} // verus!
