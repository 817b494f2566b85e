//! Find in the code pane: every occurrence of a needle, line by line, with
//! smart case and columns counted in characters.

use vstd::prelude::*;
use crate::text::{chars_of, is_uppercase, lines, lines_of, lower, lowercase, upper, views};

verus! {

/// A position in the code pane, in characters.
#[derive(Debug, Clone, Copy, PartialEq, Eq, Structural)]
pub struct Pos {
    pub line: usize,
    pub col: usize,
}

impl Pos {
    pub fn new(line: usize, col: usize) -> (r: Pos)
        ensures
            r.line == line,
            r.col == col,
    {
        Pos { line, col }
    }
}

/// The columns where `needle` occurs in `hay` from `col` on, taken left to
/// right without overlapping: after a match the search resumes past it.
pub open spec fn scan(hay: Seq<char>, needle: Seq<char>, col: int) -> Seq<int>
    decreases hay.len() - col,
{
    if needle.len() == 0 || col < 0 || col + needle.len() > hay.len() {
        Seq::empty()
    } else if hay.subrange(col, col + needle.len()) == needle {
        seq![col] + scan(hay, needle, col + needle.len())
    } else {
        scan(hay, needle, col + 1)
    }
}

/// Smart case: fold case unless the needle holds an uppercase letter.
pub open spec fn folds(needle: Seq<char>) -> bool {
    forall|i: int| 0 <= i < needle.len() ==> !upper(#[trigger] needle[i])
}

/// A line or needle as it is compared.
pub open spec fn folded(s: Seq<char>, fold: bool) -> Seq<char> {
    if fold {
        lower(s)
    } else {
        s
    }
}

/// The hits in the first `ls.len()` lines, as `(line, column)`.
pub open spec fn hits_in(ls: Seq<Seq<char>>, want: Seq<char>, fold: bool) -> Seq<(int, int)>
    decreases ls.len(),
{
    if ls.len() == 0 {
        Seq::empty()
    } else {
        let k = ls.len() - 1;
        hits_in(ls.drop_last(), want, fold) + scan(folded(ls.last(), fold), want, 0).map_values(
            |c: int| (k, c),
        )
    }
}

/// Every occurrence of `needle` in `text`, as `(line, column)` pairs in
/// characters; nothing for an empty needle.
pub open spec fn hits_of(text: Seq<char>, needle: Seq<char>) -> Seq<(int, int)> {
    let fold = folds(needle);
    let want = folded(needle, fold);
    if needle.len() == 0 || want.len() == 0 {
        Seq::empty()
    } else {
        hits_in(lines_of(text), want, fold)
    }
}

fn matches_at(hay: &Vec<char>, needle: &Vec<char>, col: usize) -> (r: bool)
    requires
        col + needle.len() <= hay.len(),
    ensures
        r == (hay@.subrange(col as int, col + needle.len()) == needle@),
{
    let mut i: usize = 0;
    while i < needle.len()
        invariant
            i <= needle.len(),
            col + needle.len() <= hay.len(),
            forall|j: int| 0 <= j < i ==> hay@[col + j] == needle@[j],
        decreases needle.len() - i,
    {
        if hay[col + i] != needle[i] {
            proof {
                assert(hay@.subrange(col as int, col + needle.len())[i as int] != needle@[i as int]);
            }
            return false;
        }
        i = i + 1;
    }
    proof {
        assert(hay@.subrange(col as int, col + needle.len()) =~= needle@);
    }
    true
}

/// The columns of `needle` in `hay`, non-overlapping.
fn scan_line(hay: &Vec<char>, needle: &Vec<char>) -> (r: Vec<usize>)
    requires
        needle.len() > 0,
    ensures
        r@.map_values(|c: usize| c as int) == scan(hay@, needle@, 0),
{
    let mut out: Vec<usize> = Vec::new();
    let mut col: usize = 0;
    while col <= hay.len() && needle.len() <= hay.len() - col
        invariant
            needle.len() > 0,
            col <= hay.len() + 1,
            out@.map_values(|c: usize| c as int) + scan(hay@, needle@, col as int) == scan(
                hay@,
                needle@,
                0,
            ),
        decreases hay.len() + 1 - col,
    {
        let ghost before = out@.map_values(|c: usize| c as int);
        if matches_at(hay, needle, col) {
            out.push(col);
            proof {
                assert(out@.map_values(|c: usize| c as int) =~= before.push(col as int));
                assert(scan(hay@, needle@, col as int) == seq![col as int] + scan(
                    hay@,
                    needle@,
                    col + needle.len(),
                ));
                assert(before + scan(hay@, needle@, col as int) =~= before.push(col as int) + scan(
                    hay@,
                    needle@,
                    col + needle.len(),
                ));
            }
            col = col + needle.len();
        } else {
            col = col + 1;
        }
    }
    proof {
        assert(scan(hay@, needle@, col as int) =~= Seq::<int>::empty());
        assert(out@.map_values(|c: usize| c as int) + Seq::<int>::empty() =~= out@.map_values(
            |c: usize| c as int,
        ));
    }
    out
}

/// Every occurrence of `needle` in `text`, as positions counted in
/// characters. Case-insensitive while the needle has no uppercase letter.
pub fn hits(text: &str, needle: &str) -> (r: Vec<Pos>)
    ensures
        r@.map_values(|p: Pos| (p.line as int, p.col as int)) == hits_of(text@, needle@),
{
    if needle.is_empty() {
        return Vec::new();
    }
    let raw = chars_of(needle);
    let mut fold = true;
    let mut i: usize = 0;
    while i < raw.len()
        invariant
            i <= raw.len(),
            raw@ == needle@,
            fold == forall|j: int| 0 <= j < i ==> !upper(#[trigger] raw@[j]),
        decreases raw.len() - i,
    {
        if is_uppercase(raw[i]) {
            fold = false;
        }
        i = i + 1;
    }
    let want = if fold {
        let l = lowercase(needle);
        chars_of(l.as_str())
    } else {
        raw
    };
    if want.len() == 0 {
        return Vec::new();
    }
    let all = lines(text);
    let mut out: Vec<Pos> = Vec::new();
    let mut k: usize = 0;
    while k < all.len()
        invariant
            k <= all.len(),
            want@ == folded(needle@, fold),
            fold == folds(needle@),
            want.len() > 0,
            views(all@) == lines_of(text@),
            out@.map_values(|p: Pos| (p.line as int, p.col as int)) == hits_in(
                views(all@).take(k as int),
                want@,
                fold,
            ),
        decreases all.len() - k,
    {
        let hay = if fold {
            let l = lowercase(all[k].as_str());
            chars_of(l.as_str())
        } else {
            chars_of(all[k].as_str())
        };
        let cols = scan_line(&hay, &want);
        let ghost base = out@.map_values(|p: Pos| (p.line as int, p.col as int));
        let mut j: usize = 0;
        while j < cols.len()
            invariant
                j <= cols.len(),
                out@.map_values(|p: Pos| (p.line as int, p.col as int)) == base + cols@.take(
                    j as int,
                ).map_values(|c: usize| (k as int, c as int)),
            decreases cols.len() - j,
        {
            let ghost before = out@.map_values(|p: Pos| (p.line as int, p.col as int));
            out.push(Pos::new(k, cols[j]));
            proof {
                assert(out@.map_values(|p: Pos| (p.line as int, p.col as int)) =~= before.push(
                    (k as int, cols@[j as int] as int),
                ));
                assert(cols@.take(j + 1).map_values(|c: usize| (k as int, c as int)) =~= cols@.take(
                    j as int,
                ).map_values(|c: usize| (k as int, c as int)).push((k as int, cols@[j as int] as int)));
            }
            j = j + 1;
        }
        proof {
            let ls = views(all@).take(k + 1);
            assert(ls.drop_last() =~= views(all@).take(k as int));
            assert(ls.last() == all@[k as int]@);
            assert(hay@ == folded(ls.last(), fold));
            assert(cols@.take(cols.len() as int) =~= cols@);
            assert(cols@.map_values(|c: usize| (k as int, c as int)) =~= scan(
                folded(ls.last(), fold),
                want@,
                0,
            ).map_values(|c: int| (k as int, c)));
        }
        k = k + 1;
    }
    proof {
        assert(views(all@).take(all.len() as int) =~= views(all@));
    }
    out
}

/// Whether `needle` occurs in `hay` at column `p`.
pub open spec fn match_at(hay: Seq<char>, needle: Seq<char>, p: int) -> bool {
    0 <= p && p + needle.len() <= hay.len() && hay.subrange(p, p + needle.len()) == needle
}

/// Every column in `r` is at or after `col` and an occurrence.
pub open spec fn all_occurrences(r: Seq<int>, hay: Seq<char>, needle: Seq<char>, col: int) -> bool {
    forall|i: int| 0 <= i < r.len() ==> col <= #[trigger] r[i] && match_at(hay, needle, r[i])
}

/// The columns in `r` run left to right at least `n` apart.
pub open spec fn apart(r: Seq<int>, n: int) -> bool {
    forall|i: int, j: int| 0 <= i < j < r.len() ==> #[trigger] r[i] + n <= #[trigger] r[j]
}

/// Every occurrence at or after `col` starts inside one of the spans in `r`.
pub open spec fn covers(r: Seq<int>, hay: Seq<char>, needle: Seq<char>, col: int) -> bool {
    forall|p: int|
        col <= p && #[trigger] match_at(hay, needle, p) ==> exists|i: int|
            0 <= i < r.len() && #[trigger] r[i] <= p < r[i] + needle.len()
}

proof fn lemma_cover_hit(r: Seq<int>, rest: Seq<int>, hay: Seq<char>, needle: Seq<char>, col: int)
    requires
        r == seq![col] + rest,
        covers(rest, hay, needle, col + needle.len()),
    ensures
        covers(r, hay, needle, col),
{
    let n = needle.len() as int;
    assert forall|p: int| col <= p && #[trigger] match_at(hay, needle, p) implies exists|i: int|
        0 <= i < r.len() && #[trigger] r[i] <= p < r[i] + n by {
        if p < col + n {
            assert(r[0] == col);
        } else {
            let k = choose|k: int| 0 <= k < rest.len() && #[trigger] rest[k] <= p < rest[k] + n;
            assert(r[k + 1] == rest[k]);
        }
    }
}

proof fn lemma_scan_hit(hay: Seq<char>, needle: Seq<char>, col: int)
    requires
        needle.len() > 0,
        col >= 0,
        col + needle.len() <= hay.len(),
        hay.subrange(col, col + needle.len()) == needle,
        all_occurrences(scan(hay, needle, col + needle.len()), hay, needle, col + needle.len()),
        apart(scan(hay, needle, col + needle.len()), needle.len() as int),
        covers(scan(hay, needle, col + needle.len()), hay, needle, col + needle.len()),
    ensures
        all_occurrences(scan(hay, needle, col), hay, needle, col),
        apart(scan(hay, needle, col), needle.len() as int),
{
    let n = needle.len() as int;
    let rest = scan(hay, needle, col + n);
    let r = seq![col] + rest;
    assert(scan(hay, needle, col) == r);
    assert forall|i: int| 0 <= i < r.len() implies col <= #[trigger] r[i] && match_at(hay, needle, r[i]) by {
        if i > 0 {
            assert(r[i] == rest[i - 1]);
        }
    }
    assert forall|i: int, j: int| 0 <= i < j < r.len() implies #[trigger] r[i] + n <= #[trigger] r[j] by {
        assert(r[j] == rest[j - 1]);
        if i > 0 {
            assert(r[i] == rest[i - 1]);
        }
    }
}

proof fn lemma_scan_miss(hay: Seq<char>, needle: Seq<char>, col: int)
    requires
        needle.len() > 0,
        col >= 0,
        col + needle.len() <= hay.len(),
        hay.subrange(col, col + needle.len()) != needle,
        all_occurrences(scan(hay, needle, col + 1), hay, needle, col + 1),
        apart(scan(hay, needle, col + 1), needle.len() as int),
        covers(scan(hay, needle, col + 1), hay, needle, col + 1),
    ensures
        all_occurrences(scan(hay, needle, col), hay, needle, col),
        apart(scan(hay, needle, col), needle.len() as int),
        covers(scan(hay, needle, col), hay, needle, col),
{
    let r = scan(hay, needle, col + 1);
    assert(scan(hay, needle, col) == r);
    assert forall|p: int| col <= p && #[trigger] match_at(hay, needle, p) implies exists|i: int|
        0 <= i < r.len() && #[trigger] r[i] <= p < r[i] + needle.len() by {
        if p == col {
            assert(false);
        }
    }
}

/// What `scan` finds is exactly the occurrences a reader counts: every hit
/// is a real occurrence, hits come left to right without overlapping, and
/// every occurrence is either a hit or lies inside one.
pub proof fn scan_finds_every_occurrence(hay: Seq<char>, needle: Seq<char>, col: int)
    requires
        needle.len() > 0,
        col >= 0,
    ensures
        all_occurrences(scan(hay, needle, col), hay, needle, col),
        apart(scan(hay, needle, col), needle.len() as int),
        covers(scan(hay, needle, col), hay, needle, col),
    decreases hay.len() - col,
{
    let n = needle.len() as int;
    if col + n > hay.len() {
        assert(scan(hay, needle, col) == Seq::<int>::empty());
    } else if hay.subrange(col, col + n) == needle {
        scan_finds_every_occurrence(hay, needle, col + n);
        lemma_scan_hit(hay, needle, col);
        lemma_cover_hit(scan(hay, needle, col), scan(hay, needle, col + n), hay, needle, col);
    } else {
        scan_finds_every_occurrence(hay, needle, col + 1);
        lemma_scan_miss(hay, needle, col);
    }
}

/// Whether `(line, col)` is an occurrence of `want` in line `line` of `ls`,
/// compared as `fold` says.
pub open spec fn hit_in(ls: Seq<Seq<char>>, want: Seq<char>, fold: bool, h: (int, int)) -> bool {
    0 <= h.0 < ls.len() && match_at(folded(ls[h.0], fold), want, h.1)
}

/// Every hit find reports is an occurrence on the line it names, and the
/// hits come line by line, left to right.
pub proof fn every_hit_is_an_occurrence(ls: Seq<Seq<char>>, want: Seq<char>, fold: bool)
    requires
        want.len() > 0,
    ensures
        forall|i: int|
            0 <= i < hits_in(ls, want, fold).len() ==> #[trigger] hit_in(
                ls,
                want,
                fold,
                hits_in(ls, want, fold)[i],
            ),
        forall|i: int, j: int|
            0 <= i < j < hits_in(ls, want, fold).len() ==> (#[trigger] hits_in(ls, want, fold)[i]).0
                < (#[trigger] hits_in(ls, want, fold)[j]).0 || (hits_in(ls, want, fold)[i].0
                == hits_in(ls, want, fold)[j].0 && hits_in(ls, want, fold)[i].1 + want.len()
                <= hits_in(ls, want, fold)[j].1),
    decreases ls.len(),
{
    if ls.len() > 0 {
        let prev = ls.drop_last();
        every_hit_is_an_occurrence(prev, want, fold);
        let k = ls.len() - 1;
        let hp = hits_in(prev, want, fold);
        let sc = scan(folded(ls.last(), fold), want, 0);
        scan_finds_every_occurrence(folded(ls.last(), fold), want, 0);
        let tail = sc.map_values(|c: int| (k, c));
        let h = hits_in(ls, want, fold);
        assert(h == hp + tail);
        assert forall|i: int| 0 <= i < h.len() implies #[trigger] hit_in(ls, want, fold, h[i]) by {
            if i < hp.len() {
                assert(h[i] == hp[i]);
                assert(hit_in(prev, want, fold, hp[i]));
                assert(ls[hp[i].0] == prev[hp[i].0]);
            } else {
                assert(h[i] == tail[i - hp.len()]);
                assert(sc[i - hp.len()] == tail[i - hp.len()].1);
                assert(ls[k] == ls.last());
            }
        }
        assert forall|i: int, j: int| 0 <= i < j < h.len() implies (#[trigger] h[i]).0 < (
        #[trigger] h[j]).0 || (h[i].0 == h[j].0 && h[i].1 + want.len() <= h[j].1) by {
            if j < hp.len() {
                assert(h[i] == hp[i]);
                assert(h[j] == hp[j]);
            } else if i < hp.len() {
                assert(h[i] == hp[i]);
                assert(hit_in(prev, want, fold, hp[i]));
                assert(h[j] == tail[j - hp.len()]);
            } else {
                assert(h[i] == tail[i - hp.len()]);
                assert(h[j] == tail[j - hp.len()]);
                assert(sc[i - hp.len()] + want.len() <= sc[j - hp.len()]);
            }
        }
    }
}

/// Whether a hit on line `k` spans column `p`.
pub open spec fn spanned(h: Seq<(int, int)>, n: int, k: int, p: int) -> bool {
    exists|i: int| 0 <= i < h.len() && (#[trigger] h[i]).0 == k && h[i].1 <= p < h[i].1 + n
}

proof fn lemma_spanned_before(hp: Seq<(int, int)>, tail: Seq<(int, int)>, n: int, k: int, p: int)
    requires
        spanned(hp, n, k, p),
    ensures
        spanned(hp + tail, n, k, p),
{
    let i = choose|i: int| 0 <= i < hp.len() && (#[trigger] hp[i]).0 == k && hp[i].1 <= p < hp[i].1 + n;
    assert((hp + tail)[i] == hp[i]);
}

proof fn lemma_spanned_last(hp: Seq<(int, int)>, sc: Seq<int>, n: int, k: int, p: int)
    requires
        exists|j: int| 0 <= j < sc.len() && #[trigger] sc[j] <= p < sc[j] + n,
    ensures
        spanned(hp + sc.map_values(|c: int| (k, c)), n, k, p),
{
    let j = choose|j: int| 0 <= j < sc.len() && #[trigger] sc[j] <= p < sc[j] + n;
    let tail = sc.map_values(|c: int| (k, c));
    assert((hp + tail)[hp.len() + j] == tail[j]);
}

proof fn lemma_cover_at(sc: Seq<int>, hay: Seq<char>, want: Seq<char>, p: int)
    requires
        covers(sc, hay, want, 0),
        match_at(hay, want, p),
    ensures
        exists|j: int| 0 <= j < sc.len() && #[trigger] sc[j] <= p < sc[j] + want.len(),
{
}

/// Nothing is missed: every occurrence on every line is a hit, or lies
/// inside one (the hits do not overlap, so `aa` in `aaa` is one hit).
pub proof fn every_occurrence_is_highlighted(ls: Seq<Seq<char>>, want: Seq<char>, fold: bool)
    requires
        want.len() > 0,
    ensures
        forall|k: int, p: int|
            0 <= k < ls.len() && #[trigger] match_at(folded(ls[k], fold), want, p) ==> spanned(
                hits_in(ls, want, fold),
                want.len() as int,
                k,
                p,
            ),
    decreases ls.len(),
{
    if ls.len() > 0 {
        let prev = ls.drop_last();
        every_occurrence_is_highlighted(prev, want, fold);
        let last = ls.len() - 1;
        let hp = hits_in(prev, want, fold);
        let hay = folded(ls.last(), fold);
        let sc = scan(hay, want, 0);
        scan_finds_every_occurrence(hay, want, 0);
        let n = want.len() as int;
        assert(hits_in(ls, want, fold) == hp + sc.map_values(|c: int| (last, c)));
        assert forall|k: int, p: int|
            0 <= k < ls.len() && #[trigger] match_at(folded(ls[k], fold), want, p) implies spanned(
            hits_in(ls, want, fold),
            n,
            k,
            p,
        ) by {
            if k < last {
                assert(ls[k] == prev[k]);
                assert(match_at(folded(prev[k], fold), want, p));
                lemma_spanned_before(hp, sc.map_values(|c: int| (last, c)), n, k, p);
            } else {
                assert(ls[k] == ls.last());
                lemma_cover_at(sc, hay, want, p);
                lemma_spanned_last(hp, sc, n, last, p);
            }
        }
    }
}

} // verus!
