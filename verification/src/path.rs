//! Paths compared the way `std::path::Path` compares them: by component, so
//! `/opt/rust/bin/`, `/opt/rust/bin` and `/opt//rust/./bin` are one path.

use vstd::prelude::*;
use crate::text::{chars_of, push_char, same, views};

verus! {

/// The parts of `s` between `/` separators, empty ones dropped.
pub open spec fn segments(s: Seq<char>) -> Seq<Seq<char>>
    decreases s.len(),
{
    if s.len() == 0 {
        Seq::empty()
    } else {
        let w = segments(s.drop_last());
        let c = s.last();
        if c == '/' {
            w
        } else if s.len() == 1 || s[s.len() - 2] == '/' {
            w.push(seq![c])
        } else {
            w.drop_last().push(w.last().push(c))
        }
    }
}

/// The segments with every `.` dropped.
pub open spec fn normal(segs: Seq<Seq<char>>) -> Seq<Seq<char>>
    decreases segs.len(),
{
    if segs.len() == 0 {
        segs
    } else if segs.last() == "."@ {
        normal(segs.drop_last())
    } else {
        normal(segs.drop_last()).push(segs.last())
    }
}

/// Whether a path starts at the root.
pub open spec fn absolute(s: Seq<char>) -> bool {
    s.len() > 0 && s[0] == '/'
}

/// Whether a relative path starts with a `.` of its own, the one `.` that
/// `Path` keeps as a component.
pub open spec fn leading_dot(s: Seq<char>) -> bool {
    !absolute(s) && s.len() > 0 && s[0] == '.' && (s.len() == 1 || s[1] == '/')
}

/// What a path is as `Path` equality sees it: rooted or not, a leading `.`
/// or not, and its normal components in order. Repeated and trailing
/// separators and inner `.` parts make no difference.
#[verifier::opaque]
pub open spec fn path_key(s: Seq<char>) -> (bool, bool, Seq<Seq<char>>) {
    (absolute(s), leading_dot(s), normal(segments(s)))
}

proof fn lemma_segments_last(s: Seq<char>)
    requires
        s.len() > 0,
        s.last() != '/',
    ensures
        segments(s).len() > 0,
{
}

/// The normal components of a path, in order.
fn components(path: &str) -> (r: Vec<String>)
    ensures
        views(r@) == normal(segments(path@)),
{
    let chars = chars_of(path);
    let mut segs: Vec<String> = Vec::new();
    let mut i: usize = 0;
    while i < chars.len()
        invariant
            i <= chars.len(),
            chars@ == path@,
            views(segs@) == segments(chars@.take(i as int)),
        decreases chars.len() - i,
    {
        let c = chars[i];
        let ghost prev = chars@.take(i as int);
        let ghost next = chars@.take(i + 1);
        proof {
            assert(next.drop_last() =~= prev);
            assert(next.last() == c);
        }
        if c == '/' {
        } else if i == 0 || chars[i - 1] == '/' {
            let mut w = String::new();
            push_char(&mut w, c);
            let ghost old_segs = segs@;
            segs.push(w);
            proof {
                if i > 0 {
                    assert(next[next.len() - 2] == chars@[i - 1]);
                }
                assert(views(segs@) =~= views(old_segs).push(seq![c]));
            }
        } else {
            proof {
                assert(prev.last() == chars@[i - 1]);
                lemma_segments_last(prev);
                assert(next[next.len() - 2] == chars@[i - 1]);
            }
            let ghost old_segs = segs@;
            let mut w = segs.pop().unwrap();
            let ghost old_w = w@;
            push_char(&mut w, c);
            segs.push(w);
            proof {
                assert(old_w == views(old_segs).last());
                assert(views(segs@) =~= views(old_segs).drop_last().push(old_w.push(c)));
            }
        }
        i = i + 1;
    }
    proof {
        assert(chars@.take(chars.len() as int) =~= chars@);
    }
    let ghost all = views(segs@);
    let mut out: Vec<String> = Vec::new();
    let mut k: usize = 0;
    while k < segs.len()
        invariant
            k <= segs.len(),
            all == views(segs@),
            views(out@) == normal(all.take(k as int)),
        decreases segs.len() - k,
    {
        proof {
            assert(all.take(k + 1).drop_last() =~= all.take(k as int));
            assert(all.take(k + 1).last() == segs@[k as int]@);
        }
        if !same(segs[k].as_str(), ".") {
            let ghost before = views(out@);
            out.push(segs[k].clone());
            proof {
                assert(views(out@) =~= before.push(segs@[k as int]@));
            }
        }
        k = k + 1;
    }
    proof {
        assert(all.take(segs.len() as int) =~= all);
    }
    out
}

/// Whether two paths are the same path, as `Path`'s `==` decides it.
pub fn same_path(a: &str, b: &str) -> (r: bool)
    ensures
        r == (path_key(a@) == path_key(b@)),
{
    proof {
        reveal(path_key);
    }
    let x = chars_of(a);
    let y = chars_of(b);
    let abs_x = x.len() > 0 && x[0] == '/';
    let abs_y = y.len() > 0 && y[0] == '/';
    let dot_x = !abs_x && x.len() > 0 && x[0] == '.' && (x.len() == 1 || x[1] == '/');
    let dot_y = !abs_y && y.len() > 0 && y[0] == '.' && (y.len() == 1 || y[1] == '/');
    if abs_x != abs_y || dot_x != dot_y {
        return false;
    }
    let cx = components(a);
    let cy = components(b);
    if cx.len() != cy.len() {
        proof {
            assert(views(cx@).len() != views(cy@).len());
        }
        return false;
    }
    let mut i: usize = 0;
    while i < cx.len()
        invariant
            i <= cx.len(),
            cx.len() == cy.len(),
            views(cx@) == normal(segments(a@)),
            views(cy@) == normal(segments(b@)),
            forall|j: int| 0 <= j < i ==> cx@[j]@ == cy@[j]@,
        decreases cx.len() - i,
    {
        if !same(cx[i].as_str(), cy[i].as_str()) {
            proof {
                reveal(path_key);
                assert(views(cx@)[i as int] != views(cy@)[i as int]);
            }
            return false;
        }
        i = i + 1;
    }
    proof {
        reveal(path_key);
        assert(views(cx@) =~= views(cy@));
    }
    true
}

} // verus!
