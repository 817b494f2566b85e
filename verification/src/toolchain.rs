//! Finding cargo from inside a bundled app: where a toolchain might be, in
//! the order worth trying, and the `PATH` a build runs with.
//!
//! Whether a path is an executable file is the caller's to find out; what is
//! here is which paths to ask about and what to make of the answers.

use vstd::prelude::*;
use crate::path::{path_key, same_path};
use crate::text::views;
use crate::workspace::{join, path_joined};

verus! {

/// What to tell the user when there is no toolchain. One sentence and the fix.
pub const MISSING: &'static str =
    "cargo was not found. Install Rust from https://rustup.rs and reopen Tailor.";

/// Where a toolchain might be, in order: `$CARGO`, `$CARGO_HOME/bin/cargo`,
/// `~/.cargo/bin/cargo`, then Homebrew's and the system's.
pub open spec fn candidates_of(
    cargo: Option<Seq<char>>,
    cargo_home: Option<Seq<char>>,
    home: Option<Seq<char>>,
) -> Seq<Seq<char>> {
    let a = match cargo {
        Some(c) => seq![c],
        None => Seq::empty(),
    };
    let b = match cargo_home {
        Some(h) => seq![path_joined(h, "bin/cargo"@)],
        None => Seq::empty(),
    };
    let c = match home {
        Some(h) => seq![path_joined(h, ".cargo/bin/cargo"@)],
        None => Seq::empty(),
    };
    a + b + c + seq!["/opt/homebrew/bin/cargo"@, "/usr/local/bin/cargo"@, "/usr/bin/cargo"@]
}

pub open spec fn opt_seq(s: Option<String>) -> Option<Seq<char>> {
    match s {
        Some(t) => Some(t@),
        None => None,
    }
}

/// Where a toolchain might be, given `$CARGO`, `$CARGO_HOME` and the home
/// directory, each when set.
pub fn candidates(cargo: Option<String>, cargo_home: Option<String>, home: Option<String>) -> (r:
    Vec<String>)
    ensures
        views(r@) == candidates_of(opt_seq(cargo), opt_seq(cargo_home), opt_seq(home)),
{
    let ghost want = candidates_of(opt_seq(cargo), opt_seq(cargo_home), opt_seq(home));
    let mut out: Vec<String> = Vec::new();
    match cargo {
        Some(c) => out.push(c),
        None => {},
    }
    match cargo_home {
        Some(h) => out.push(join(h.as_str(), "bin/cargo")),
        None => {},
    }
    match home {
        Some(h) => out.push(join(h.as_str(), ".cargo/bin/cargo")),
        None => {},
    }
    out.push(String::from_str("/opt/homebrew/bin/cargo"));
    out.push(String::from_str("/usr/local/bin/cargo"));
    out.push(String::from_str("/usr/bin/cargo"));
    proof {
        assert(views(out@) =~= want);
    }
    out
}

/// The places `PATH` offers: each directory with `cargo` joined on.
pub fn on_path(dirs: &[String]) -> (r: Vec<String>)
    ensures
        views(r@) == views(dirs@).map_values(|d: Seq<char>| path_joined(d, "cargo"@)),
{
    let mut out: Vec<String> = Vec::new();
    let mut i: usize = 0;
    while i < dirs.len()
        invariant
            i <= dirs.len(),
            views(out@) == views(dirs@).take(i as int).map_values(
                |d: Seq<char>| path_joined(d, "cargo"@),
            ),
        decreases dirs.len() - i,
    {
        let p = join(dirs[i].as_str(), "cargo");
        let ghost before = views(out@);
        out.push(p);
        proof {
            assert(views(out@) =~= before.push(p@));
            assert(views(out@) =~= views(dirs@).take(i + 1).map_values(
                |d: Seq<char>| path_joined(d, "cargo"@),
            ));
        }
        i = i + 1;
    }
    proof {
        assert(views(dirs@).take(dirs.len() as int) =~= views(dirs@));
    }
    out
}

/// The first path marked runnable.
pub open spec fn first_runnable(paths: Seq<(String, bool)>) -> Option<Seq<char>>
    decreases paths.len(),
{
    if paths.len() == 0 {
        None
    } else if paths[0].1 {
        Some(paths[0].0@)
    } else {
        first_runnable(paths.drop_first())
    }
}

fn first_program(paths: &[(String, bool)]) -> (r: Option<String>)
    ensures
        opt_seq(r) == first_runnable(paths@),
{
    let mut i: usize = 0;
    proof {
        assert(paths@.skip(0) =~= paths@);
    }
    while i < paths.len()
        invariant
            i <= paths.len(),
            first_runnable(paths@) == first_runnable(paths@.skip(i as int)),
        decreases paths.len() - i,
    {
        proof {
            assert(paths@.skip(i as int).drop_first() =~= paths@.skip(i + 1));
            assert(paths@.skip(i as int)[0] == paths@[i as int]);
        }
        if paths[i].1 {
            return Some(paths[i].0.clone());
        }
        i = i + 1;
    }
    None
}

/// The cargo to run, or `None` when there is no toolchain to find: the first
/// of the `candidates` that is an executable file, else the first on `PATH`
/// that is. Each path comes paired with whether it is one.
pub fn cargo(candidates: &[(String, bool)], path: &[(String, bool)]) -> (r: Option<String>)
    ensures
        opt_seq(r) == match first_runnable(candidates@) {
            Some(p) => Some(p),
            None => first_runnable(path@),
        },
{
    match first_program(candidates) {
        Some(p) => Some(p),
        None => first_program(path),
    }
}

/// `s` with each run of neighbours that are the same path (compared by
/// component, as `Path` compares: trailing and repeated separators and inner
/// `.` parts make no difference) reduced to its first, as written.
pub open spec fn dedup_seq(s: Seq<Seq<char>>) -> Seq<Seq<char>>
    decreases s.len(),
{
    if s.len() == 0 {
        s
    } else {
        let d = dedup_seq(s.drop_last());
        if d.len() > 0 && path_key(d.last()) == path_key(s.last()) {
            d
        } else {
            d.push(s.last())
        }
    }
}

/// The `PATH` entries a build runs with: the toolchain's own directory, when
/// the cargo path has one, then what this process already had, with
/// neighbouring repeats removed.
pub open spec fn toolchain_path_of(dir: Option<Seq<char>>, existing: Seq<Seq<char>>) -> Seq<
    Seq<char>,
> {
    let first = match dir {
        Some(d) => seq![d],
        None => Seq::empty(),
    };
    dedup_seq(first + existing)
}

/// The `PATH` entries a build should run with. Prepended rather than
/// appended, so a rustup shim wins over a stale system cargo.
pub fn path_with_toolchain(dir: Option<String>, existing: Vec<String>) -> (r: Vec<String>)
    ensures
        views(r@) == toolchain_path_of(opt_seq(dir), views(existing@)),
{
    let mut all: Vec<String> = Vec::new();
    match dir {
        Some(d) => all.push(d),
        None => {},
    }
    let ghost head = views(all@);
    let mut i: usize = 0;
    while i < existing.len()
        invariant
            i <= existing.len(),
            views(all@) == head + views(existing@).take(i as int),
        decreases existing.len() - i,
    {
        let ghost before = views(all@);
        all.push(existing[i].clone());
        proof {
            assert(views(all@) =~= before.push(existing@[i as int]@));
            assert(views(all@) =~= head + views(existing@).take(i + 1));
        }
        i = i + 1;
    }
    proof {
        assert(views(existing@).take(existing.len() as int) =~= views(existing@));
        let first = match opt_seq(dir) {
            Some(d) => seq![d],
            None => Seq::<Seq<char>>::empty(),
        };
        assert(head =~= first);
    }
    let ghost joined = views(all@);
    let mut out: Vec<String> = Vec::new();
    let mut j: usize = 0;
    while j < all.len()
        invariant
            j <= all.len(),
            joined == views(all@),
            views(out@) == dedup_seq(joined.take(j as int)),
        decreases all.len() - j,
    {
        proof {
            assert(joined.take(j + 1).drop_last() =~= joined.take(j as int));
            assert(joined.take(j + 1).last() == all@[j as int]@);
        }
        let n = out.len();
        let repeat = n > 0 && same_path(out[n - 1].as_str(), all[j].as_str());
        if !repeat {
            let ghost before = views(out@);
            out.push(all[j].clone());
            proof {
                assert(views(out@) =~= before.push(all@[j as int]@));
            }
        }
        j = j + 1;
    }
    proof {
        assert(joined.take(all.len() as int) =~= joined);
    }
    out
}

/// Some entry of `r` is the same path as `x`.
pub open spec fn has_same_path(r: Seq<Seq<char>>, x: Seq<char>) -> bool {
    exists|y: Seq<char>| r.contains(y) && #[trigger] path_key(y) == path_key(x)
}

proof fn lemma_dedup_from(s: Seq<Seq<char>>)
    ensures
        forall|x: Seq<char>| #[trigger] dedup_seq(s).contains(x) ==> s.contains(x),
        s.len() > 0 ==> dedup_seq(s).len() > 0 && dedup_seq(s)[0] == s[0],
    decreases s.len(),
{
    if s.len() > 0 {
        let prev = s.drop_last();
        lemma_dedup_from(prev);
        let d = dedup_seq(prev);
        let r = dedup_seq(s);
        assert forall|x: Seq<char>| #[trigger] r.contains(x) implies s.contains(x) by {
            let m = choose|m: int| 0 <= m < r.len() && r[m] == x;
            if m < d.len() {
                assert(d[m] == x);
                assert(d.contains(x));
                let k = choose|k: int| 0 <= k < prev.len() && prev[k] == x;
                assert(s[k] == x);
            } else {
                assert(s[s.len() - 1] == x);
            }
        }
        if prev.len() > 0 {
            assert(prev[0] == s[0]);
            assert(r[0] == d[0]);
        }
    }
}

proof fn lemma_dedup_covers(s: Seq<Seq<char>>)
    ensures
        forall|x: Seq<char>| #[trigger] s.contains(x) ==> has_same_path(dedup_seq(s), x),
    decreases s.len(),
{
    if s.len() > 0 {
        let prev = s.drop_last();
        lemma_dedup_covers(prev);
        let d = dedup_seq(prev);
        let r = dedup_seq(s);
        let dropped = d.len() > 0 && path_key(d.last()) == path_key(s.last());
        assert forall|x: Seq<char>| #[trigger] s.contains(x) implies has_same_path(r, x) by {
            let k = choose|k: int| 0 <= k < s.len() && s[k] == x;
            if k < prev.len() {
                assert(prev[k] == x);
                assert(prev.contains(x));
                assert(has_same_path(d, x));
                let y = choose|y: Seq<char>| d.contains(y) && #[trigger] path_key(y) == path_key(x);
                let m = choose|m: int| 0 <= m < d.len() && d[m] == y;
                assert(r[m] == y);
                assert(r.contains(y));
                assert(path_key(y) == path_key(x));
            } else if dropped {
                assert(x == s.last());
                assert(r[d.len() - 1] == d.last());
                assert(r.contains(d.last()));
                assert(path_key(d.last()) == path_key(x));
            } else {
                assert(r[r.len() - 1] == x);
                assert(r.contains(x));
                assert(path_key(x) == path_key(x));
            }
        }
    }
}

proof fn lemma_dedup_neighbours(s: Seq<Seq<char>>)
    ensures
        forall|i: int|
            0 < i < dedup_seq(s).len() ==> path_key(#[trigger] dedup_seq(s)[i]) != path_key(
                dedup_seq(s)[i - 1],
            ),
    decreases s.len(),
{
    if s.len() > 0 {
        let prev = s.drop_last();
        lemma_dedup_neighbours(prev);
        let d = dedup_seq(prev);
        let r = dedup_seq(s);
        assert forall|i: int| 0 < i < r.len() implies path_key(#[trigger] r[i]) != path_key(r[i - 1]) by {
            if i < d.len() {
                assert(r[i] == d[i] && r[i - 1] == d[i - 1]);
            } else {
                assert(r[i - 1] == d.last());
            }
        }
    }
}

/// The toolchain's directory leads the build's `PATH`, so a rustup shim wins
/// over a stale system cargo; every directory the process already had is
/// still there as the same path, since cargo needs `cc` and the compiler; no
/// entry is invented; and no two neighbouring entries name the same path.
pub proof fn the_toolchain_directory_leads_the_path(dir: Option<Seq<char>>, existing: Seq<Seq<char>>)
    ensures
        dir is Some ==> toolchain_path_of(dir, existing)[0] == dir->0,
        forall|p: Seq<char>|
            #[trigger] existing.contains(p) ==> has_same_path(toolchain_path_of(dir, existing), p),
        forall|q: Seq<char>| #[trigger] toolchain_path_of(dir, existing).contains(q) ==> existing.contains(q)
            || dir == Some(q),
        forall|i: int|
            0 < i < toolchain_path_of(dir, existing).len() ==> path_key(
                #[trigger] toolchain_path_of(dir, existing)[i],
            ) != path_key(toolchain_path_of(dir, existing)[i - 1]),
{
    let first = match dir {
        Some(d) => seq![d],
        None => Seq::<Seq<char>>::empty(),
    };
    let all = first + existing;
    lemma_dedup_from(all);
    lemma_dedup_covers(all);
    lemma_dedup_neighbours(all);
    let r = toolchain_path_of(dir, existing);
    assert forall|p: Seq<char>| #[trigger] existing.contains(p) implies has_same_path(r, p) by {
        let k = choose|k: int| 0 <= k < existing.len() && existing[k] == p;
        assert(all[first.len() + k] == p);
        assert(all.contains(p));
    }
    assert forall|q: Seq<char>| #[trigger] r.contains(q) implies existing.contains(q) || dir == Some(q) by {
        assert(all.contains(q));
        let k = choose|k: int| 0 <= k < all.len() && all[k] == q;
        if k >= first.len() {
            assert(existing[k - first.len()] == q);
        }
    }
}

/// The first of `ps` that `ok` accepts.
pub open spec fn first_where(ps: Seq<Seq<char>>, ok: spec_fn(Seq<char>) -> bool) -> Option<Seq<char>>
    decreases ps.len(),
{
    if ps.len() == 0 {
        None
    } else if ok(ps[0]) {
        Some(ps[0])
    } else {
        first_where(ps.drop_first(), ok)
    }
}

/// `ps` paired with what `ok` says of each.
pub open spec fn checked_by(xs: Seq<(String, bool)>, ps: Seq<Seq<char>>, ok: spec_fn(Seq<char>) -> bool) -> bool {
    &&& xs.len() == ps.len()
    &&& forall|i: int| 0 <= i < xs.len() ==> (#[trigger] xs[i]).0@ == ps[i] && xs[i].1 == ok(ps[i])
}

proof fn lemma_first_runnable(xs: Seq<(String, bool)>, ps: Seq<Seq<char>>, ok: spec_fn(Seq<char>) -> bool)
    requires
        checked_by(xs, ps, ok),
    ensures
        first_runnable(xs) == first_where(ps, ok),
    decreases xs.len(),
{
    if xs.len() > 0 {
        assert(xs[0].0@ == ps[0] && xs[0].1 == ok(ps[0]));
        assert forall|i: int| 0 <= i < xs.drop_first().len() implies (#[trigger] xs.drop_first()[i]).0@
            == ps.drop_first()[i] && xs.drop_first()[i].1 == ok(ps.drop_first()[i]) by {
            assert(xs.drop_first()[i] == xs[i + 1]);
        }
        lemma_first_runnable(xs.drop_first(), ps.drop_first(), ok);
    }
}

proof fn lemma_first_where_concat(a: Seq<Seq<char>>, b: Seq<Seq<char>>, ok: spec_fn(Seq<char>) -> bool)
    ensures
        first_where(a + b, ok) == match first_where(a, ok) {
            Some(p) => Some(p),
            None => first_where(b, ok),
        },
    decreases a.len(),
{
    if a.len() == 0 {
        assert(a + b =~= b);
    } else {
        assert((a + b).drop_first() =~= a.drop_first() + b);
        assert((a + b)[0] == a[0]);
        lemma_first_where_concat(a.drop_first(), b, ok);
    }
}

/// Cargo is looked for in one order: `$CARGO`, `$CARGO_HOME/bin/cargo`,
/// `~/.cargo/bin/cargo`, Homebrew's, `/usr/local`'s and the system's (the
/// unset ones skipped), then `cargo` in each `PATH` directory in turn; the
/// first that is an executable file is the one, and there is none when none
/// is. `ok` stands for the executable-file check the caller makes.
pub proof fn cargo_is_looked_for_in_order(
    candidates: Seq<(String, bool)>,
    path: Seq<(String, bool)>,
    env_cargo: Option<Seq<char>>,
    cargo_home: Option<Seq<char>>,
    home: Option<Seq<char>>,
    dirs: Seq<Seq<char>>,
    ok: spec_fn(Seq<char>) -> bool,
)
    requires
        checked_by(candidates, candidates_of(env_cargo, cargo_home, home), ok),
        checked_by(path, dirs.map_values(|d: Seq<char>| path_joined(d, "cargo"@)), ok),
    ensures
        (match first_runnable(candidates) {
            Some(p) => Some(p),
            None => first_runnable(path),
        }) == first_where(
            candidates_of(env_cargo, cargo_home, home) + dirs.map_values(
                |d: Seq<char>| path_joined(d, "cargo"@),
            ),
            ok,
        ),
{
    let a = candidates_of(env_cargo, cargo_home, home);
    let b = dirs.map_values(|d: Seq<char>| path_joined(d, "cargo"@));
    lemma_first_runnable(candidates, a, ok);
    lemma_first_runnable(path, b, ok);
    lemma_first_where_concat(a, b, ok);
}

} // verus!
