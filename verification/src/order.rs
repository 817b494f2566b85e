//! Ordering by a number and then a name, as `sort_by` does it: stable, so
//! equal keys keep the order they came in.

use vstd::prelude::*;
use crate::text::chars_of;

verus! {

/// `a` sorts before `b` as strings do: character by character, a proper
/// prefix first.
pub open spec fn text_lt(a: Seq<char>, b: Seq<char>) -> bool
    decreases a.len(),
{
    if a.len() == 0 {
        b.len() > 0
    } else if b.len() == 0 {
        false
    } else if (a[0] as u32) < (b[0] as u32) {
        true
    } else if (a[0] as u32) > (b[0] as u32) {
        false
    } else {
        text_lt(a.drop_first(), b.drop_first())
    }
}

/// Number first, then name.
pub open spec fn key_lt(a: (int, Seq<char>), b: (int, Seq<char>)) -> bool {
    a.0 < b.0 || (a.0 == b.0 && text_lt(a.1, b.1))
}

/// The key an entry is sorted by.
pub open spec fn key_of<T>(e: (int, Seq<char>, T)) -> (int, Seq<char>) {
    (e.0, e.1)
}

/// An entry as plain values.
pub open spec fn entry_view<T>(e: (u64, String, T)) -> (int, Seq<char>, T) {
    (e.0 as int, e.1@, e.2)
}

/// Entries as plain values.
pub open spec fn entry_views<T>(s: Seq<(u64, String, T)>) -> Seq<(int, Seq<char>, T)> {
    s.map_values(|e: (u64, String, T)| entry_view(e))
}

/// `x` placed into a sorted `s` after every entry it does not sort before.
pub open spec fn insert_sorted<T>(s: Seq<(int, Seq<char>, T)>, x: (int, Seq<char>, T)) -> Seq<
    (int, Seq<char>, T),
>
    decreases s.len(),
{
    if s.len() == 0 || !key_lt(key_of(x), key_of(s.last())) {
        s.push(x)
    } else {
        insert_sorted(s.drop_last(), x).push(s.last())
    }
}

/// `s` sorted by key, stably.
pub open spec fn sorted_by_key<T>(s: Seq<(int, Seq<char>, T)>) -> Seq<(int, Seq<char>, T)>
    decreases s.len(),
{
    if s.len() == 0 {
        s
    } else {
        insert_sorted(sorted_by_key(s.drop_last()), s.last())
    }
}

/// Whether `a` sorts before `b` as strings do.
pub fn str_lt(a: &str, b: &str) -> (r: bool)
    ensures
        r == text_lt(a@, b@),
{
    let x = chars_of(a);
    let y = chars_of(b);
    let mut i: usize = 0;
    proof {
        assert(x@.skip(0) =~= a@);
        assert(y@.skip(0) =~= b@);
    }
    while i < x.len() && i < y.len()
        invariant
            i <= x.len(),
            i <= y.len(),
            x@ == a@,
            y@ == b@,
            text_lt(a@, b@) == text_lt(x@.skip(i as int), y@.skip(i as int)),
        decreases x.len() - i,
    {
        proof {
            assert(x@.skip(i as int)[0] == x@[i as int]);
            assert(y@.skip(i as int)[0] == y@[i as int]);
            assert(x@.skip(i as int).drop_first() =~= x@.skip(i + 1));
            assert(y@.skip(i as int).drop_first() =~= y@.skip(i + 1));
        }
        if (x[i] as u32) < (y[i] as u32) {
            return true;
        }
        if (x[i] as u32) > (y[i] as u32) {
            return false;
        }
        i = i + 1;
    }
    i == x.len() && i < y.len()
}

fn entry_lt<T>(a: &(u64, String, T), b: &(u64, String, T)) -> (r: bool)
    ensures
        r == key_lt(key_of(entry_view(*a)), key_of(entry_view(*b))),
{
    a.0 < b.0 || (a.0 == b.0 && str_lt(a.1.as_str(), b.1.as_str()))
}

/// Sort entries by their number and then their name, keeping the arrival
/// order of equal keys.
pub fn sort_entries<T>(v: Vec<(u64, String, T)>) -> (r: Vec<(u64, String, T)>)
    ensures
        entry_views(r@) == sorted_by_key(entry_views(v@)),
{
    let mut v = v;
    let ghost all = v@;
    let total = v.len();
    let mut rev: Vec<(u64, String, T)> = Vec::new();
    // Take the entries out back to front, so each is inserted in arrival
    // order.
    while v.len() > 0
        invariant
            all.len() >= v@.len(),
            v@ == all.take(v@.len() as int),
            rev@.len() + v@.len() == all.len(),
            forall|j: int| 0 <= j < rev@.len() ==> rev@[j] == all[all.len() - 1 - j],
        decreases v.len(),
    {
        let ghost n = v@.len();
        let x = v.pop().unwrap();
        rev.push(x);
        proof {
            assert(v@ =~= all.take(v@.len() as int));
        }
    }
    let mut out: Vec<(u64, String, T)> = Vec::new();
    let mut k: usize = 0;
    while rev.len() > 0
        invariant
            k + rev@.len() == all.len(),
            all.len() == total,
            forall|j: int| 0 <= j < rev@.len() ==> rev@[j] == all[all.len() - 1 - j],
            entry_views(out@) == sorted_by_key(entry_views(all.take(k as int))),
        decreases rev.len(),
    {
        let x = rev.pop().unwrap();
        let ghost xv = entry_view(x);
        proof {
            assert(x == all[k as int]);
            assert(entry_views(all.take(k + 1)).drop_last() =~= entry_views(all.take(k as int)));
            assert(entry_views(all.take(k + 1)).last() == xv);
        }
        let ghost s = entry_views(out@);
        let mut p: usize = out.len();
        proof {
            assert(s.take(p as int) =~= s);
            assert(s.skip(p as int) =~= Seq::<(int, Seq<char>, T)>::empty());
            assert(insert_sorted(s, xv) + Seq::<(int, Seq<char>, T)>::empty() =~= insert_sorted(s, xv));
        }
        while p > 0 && entry_lt(&x, &out[p - 1])
            invariant
                p <= out@.len(),
                entry_views(out@) == s,
                xv == entry_view(x),
                insert_sorted(s, xv) == insert_sorted(s.take(p as int), xv) + s.skip(p as int),
            decreases p,
        {
            proof {
                let t = s.take(p as int);
                assert(t.last() == s[p - 1]);
                assert(s[p - 1] == entry_view(out@[p - 1]));
                assert(t.drop_last() =~= s.take(p - 1));
                assert(insert_sorted(t, xv) == insert_sorted(s.take(p - 1), xv).push(s[p - 1]));
                assert(insert_sorted(s.take(p - 1), xv).push(s[p - 1]) + s.skip(p as int)
                    =~= insert_sorted(s.take(p - 1), xv) + s.skip(p - 1));
            }
            p = p - 1;
        }
        proof {
            let t = s.take(p as int);
            if p > 0 {
                assert(t.last() == s[p - 1]);
                assert(s[p - 1] == entry_view(out@[p - 1]));
            }
            assert(insert_sorted(t, xv) == t.push(xv));
            assert(s.take(p as int).push(xv) + s.skip(p as int) =~= s.insert(p as int, xv));
        }
        let ghost before = out@;
        out.insert(p, x);
        proof {
            assert(entry_views(out@) =~= entry_views(before).insert(p as int, xv));
        }
        k = k + 1;
    }
    proof {
        assert(all.take(all.len() as int) =~= all);
    }
    out
}


/// String order is transitive.
pub proof fn lemma_text_lt_transitive(a: Seq<char>, b: Seq<char>, c: Seq<char>)
    requires
        text_lt(a, b),
        text_lt(b, c),
    ensures
        text_lt(a, c),
    decreases a.len(),
{
    if a.len() > 0 && b.len() > 0 && c.len() > 0 {
        if (a[0] as u32) == (b[0] as u32) && (b[0] as u32) == (c[0] as u32) {
            lemma_text_lt_transitive(a.drop_first(), b.drop_first(), c.drop_first());
        }
    }
}

/// String order is asymmetric.
pub proof fn lemma_text_lt_asymmetric(a: Seq<char>, b: Seq<char>)
    requires
        text_lt(a, b),
    ensures
        !text_lt(b, a),
    decreases a.len(),
{
    if a.len() > 0 && b.len() > 0 && (a[0] as u32) == (b[0] as u32) {
        lemma_text_lt_asymmetric(a.drop_first(), b.drop_first());
    }
}

/// String order is total: two strings neither before the other are equal.
pub proof fn lemma_text_lt_total(a: Seq<char>, b: Seq<char>)
    requires
        !text_lt(a, b),
        !text_lt(b, a),
    ensures
        a == b,
    decreases a.len(),
{
    if a.len() > 0 && b.len() > 0 {
        lemma_text_lt_total(a.drop_first(), b.drop_first());
        vstd::utf8::char_u32_cast(a[0], a[0] as u32);
        vstd::utf8::char_u32_cast(b[0], b[0] as u32);
        assert(a[0] == b[0]);
        assert(a =~= seq![a[0]] + a.drop_first());
        assert(b =~= seq![b[0]] + b.drop_first());
    } else {
        assert(a.len() == 0 && b.len() == 0);
        assert(a =~= b);
    }
}

/// `s` is in key order: no entry sorts before one that comes ahead of it.
pub open spec fn in_key_order<T>(s: Seq<(int, Seq<char>, T)>) -> bool {
    forall|i: int, j: int|
        0 <= i < j < s.len() ==> !key_lt(key_of(#[trigger] s[j]), key_of(#[trigger] s[i]))
}

proof fn lemma_key_not_lt_transitive(a: (int, Seq<char>), b: (int, Seq<char>), c: (int, Seq<char>))
    requires
        !key_lt(b, a),
        !key_lt(c, b),
    ensures
        !key_lt(c, a),
{
    if key_lt(c, a) {
        if a.0 == b.0 && b.0 == c.0 {
            if !text_lt(a.1, b.1) {
                lemma_text_lt_total(a.1, b.1);
            } else if !text_lt(b.1, c.1) {
                lemma_text_lt_total(b.1, c.1);
            } else {
                lemma_text_lt_transitive(a.1, b.1, c.1);
                lemma_text_lt_asymmetric(a.1, c.1);
            }
        }
    }
}

proof fn lemma_insert_sorted<T>(s: Seq<(int, Seq<char>, T)>, x: (int, Seq<char>, T))
    requires
        in_key_order(s),
    ensures
        in_key_order(insert_sorted(s, x)),
        insert_sorted(s, x).to_multiset() == s.to_multiset().insert(x),
        insert_sorted(s, x).len() == s.len() + 1,
        forall|k: int|
            0 <= k < insert_sorted(s, x).len() ==> #[trigger] insert_sorted(s, x)[k] == x
                || s.contains(insert_sorted(s, x)[k]),
    decreases s.len(),
{
    broadcast use vstd::seq_lib::group_to_multiset_ensures;

    let r = insert_sorted(s, x);
    if s.len() == 0 || !key_lt(key_of(x), key_of(s.last())) {
        assert forall|i: int, j: int| 0 <= i < j < r.len() implies !key_lt(
            key_of(#[trigger] r[j]),
            key_of(#[trigger] r[i]),
        ) by {
            if j == r.len() - 1 {
                assert(r[i] == s[i]);
                if i < s.len() - 1 {
                    assert(!key_lt(key_of(s[s.len() - 1]), key_of(s[i])));
                    lemma_key_not_lt_transitive(key_of(s[i]), key_of(s.last()), key_of(x));
                }
            } else {
                assert(r[i] == s[i] && r[j] == s[j]);
            }
        }
        assert forall|k: int| 0 <= k < r.len() implies #[trigger] r[k] == x || s.contains(r[k]) by {
            if k < s.len() {
                assert(r[k] == s[k]);
            }
        }
    } else {
        let prev = s.drop_last();
        let last = s.last();
        assert forall|i: int, j: int| 0 <= i < j < prev.len() implies !key_lt(
            key_of(#[trigger] prev[j]),
            key_of(#[trigger] prev[i]),
        ) by {
            assert(prev[i] == s[i] && prev[j] == s[j]);
        }
        lemma_insert_sorted(prev, x);
        let q = insert_sorted(prev, x);
        assert(r == q.push(last));
        assert(s == prev.push(last));
        assert forall|i: int, j: int| 0 <= i < j < r.len() implies !key_lt(
            key_of(#[trigger] r[j]),
            key_of(#[trigger] r[i]),
        ) by {
            if j == r.len() - 1 {
                assert(r[j] == last);
                assert(r[i] == q[i]);
                if q[i] == x {
                    lemma_key_lt_asymmetric(key_of(x), key_of(last));
                } else {
                    assert(prev.contains(q[i]));
                    let m = choose|m: int| 0 <= m < prev.len() && prev[m] == q[i];
                    assert(s[m] == q[i]);
                    assert(s[s.len() - 1] == last);
                }
            } else {
                assert(r[i] == q[i] && r[j] == q[j]);
            }
        }
        assert forall|k: int| 0 <= k < r.len() implies #[trigger] r[k] == x || s.contains(r[k]) by {
            if k < q.len() {
                assert(r[k] == q[k]);
                if q[k] != x {
                    assert(prev.contains(q[k]));
                    let m = choose|m: int| 0 <= m < prev.len() && prev[m] == q[k];
                    assert(s[m] == q[k]);
                }
            } else {
                assert(s[s.len() - 1] == r[k]);
            }
        }
    }
}

proof fn lemma_key_lt_asymmetric(a: (int, Seq<char>), b: (int, Seq<char>))
    requires
        key_lt(a, b),
    ensures
        !key_lt(b, a),
{
    if a.0 == b.0 {
        lemma_text_lt_asymmetric(a.1, b.1);
    }
}

/// Sorting puts entries in key order and neither loses nor invents one: the
/// result holds exactly the entries it was given.
pub proof fn sorting_orders_and_keeps_every_entry<T>(s: Seq<(int, Seq<char>, T)>)
    ensures
        in_key_order(sorted_by_key(s)),
        sorted_by_key(s).to_multiset() == s.to_multiset(),
        sorted_by_key(s).len() == s.len(),
    decreases s.len(),
{
    broadcast use vstd::seq_lib::group_to_multiset_ensures;

    if s.len() > 0 {
        sorting_orders_and_keeps_every_entry(s.drop_last());
        lemma_insert_sorted(sorted_by_key(s.drop_last()), s.last());
        assert(s == s.drop_last().push(s.last()));
    }
}

/// No string sorts before itself.
pub proof fn lemma_text_lt_irreflexive(a: Seq<char>)
    ensures
        !text_lt(a, a),
    decreases a.len(),
{
    if a.len() > 0 {
        lemma_text_lt_irreflexive(a.drop_first());
    }
}

proof fn lemma_insert_keeps_equal_keys<T>(
    t: Seq<(int, Seq<char>, T)>,
    x: (int, Seq<char>, T),
    k: (int, Seq<char>),
)
    ensures
        insert_sorted(t, x).filter(|e: (int, Seq<char>, T)| key_of(e) == k) == if key_of(x) == k {
            t.filter(|e: (int, Seq<char>, T)| key_of(e) == k).push(x)
        } else {
            t.filter(|e: (int, Seq<char>, T)| key_of(e) == k)
        },
    decreases t.len(),
{
    let f = |e: (int, Seq<char>, T)| key_of(e) == k;
    if t.len() == 0 || !key_lt(key_of(x), key_of(t.last())) {
        t.lemma_filter_push(x, f);
    } else {
        let prev = t.drop_last();
        let last = t.last();
        lemma_insert_keeps_equal_keys(prev, x, k);
        insert_sorted(prev, x).lemma_filter_push(last, f);
        assert(t == prev.push(last));
        prev.lemma_filter_push(last, f);
        if key_of(x) == k {
            lemma_text_lt_irreflexive(k.1);
            assert(key_of(last) != k);
        }
    }
}

/// Sorting is stable: the entries that share a key come out in the order
/// they went in.
pub proof fn sorting_is_stable<T>(s: Seq<(int, Seq<char>, T)>, k: (int, Seq<char>))
    ensures
        sorted_by_key(s).filter(|e: (int, Seq<char>, T)| key_of(e) == k) == s.filter(
            |e: (int, Seq<char>, T)| key_of(e) == k,
        ),
    decreases s.len(),
{
    if s.len() > 0 {
        let f = |e: (int, Seq<char>, T)| key_of(e) == k;
        sorting_is_stable(s.drop_last(), k);
        lemma_insert_keeps_equal_keys(sorted_by_key(s.drop_last()), s.last(), k);
        assert(s == s.drop_last().push(s.last()));
        s.drop_last().lemma_filter_push(s.last(), f);
    }
}

} // verus!
