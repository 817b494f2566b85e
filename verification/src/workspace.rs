//! Where a project turns into a crate on disk, and how a line of generated
//! code maps back to the node that produced it.

use vstd::prelude::*;
use vstd::utf8::encode_utf8;
use crate::order::text_lt;
use crate::text::{hex, hex_padded, push_char, push_str, same, views, zero_padded};

verus! {

/// A node of a design document, by its number.
#[derive(Debug, Clone, Copy, PartialEq, Eq, Structural)]
pub struct NodeId(pub u64);

/// `part` joined onto `base` as a relative path: a separator between them
/// unless `base` is empty or already ends in one.
pub open spec fn path_joined(base: Seq<char>, part: Seq<char>) -> Seq<char> {
    if base.len() == 0 || base.last() == '/' {
        base + part
    } else {
        base + seq!['/'] + part
    }
}

/// Join a relative path onto a directory, as `Path::join` does on Unix.
pub fn join(base: &str, part: &str) -> (r: String)
    ensures
        r@ == path_joined(base@, part@),
{
    let mut out = String::new();
    push_str(&mut out, base);
    let chars = crate::text::chars_of(base);
    let n = chars.len();
    if n > 0 && chars[n - 1] != '/' {
        push_char(&mut out, '/');
    }
    push_str(&mut out, part);
    proof {
        assert(out@ =~= path_joined(base@, part@));
    }
    out
}

/// A directory a project's generated crate lives in.
#[derive(Debug, Clone, PartialEq, Eq)]
pub struct Workspace {
    pub root: String,
    /// True when Tailor chose the directory.
    pub managed: bool,
}

impl Workspace {
    /// The manifest cargo will be pointed at.
    pub fn manifest(&self) -> (r: String)
        ensures
            r@ == path_joined(self.root@, "Cargo.toml"@),
    {
        join(self.root.as_str(), "Cargo.toml")
    }

    /// Where `target/` goes.
    pub fn target_dir(&self) -> (r: String)
        ensures
            r@ == path_joined(self.root@, "target"@),
    {
        join(self.root.as_str(), "target")
    }
}

/// The FNV-1a offset basis and prime, 64-bit.
pub open spec fn fnv_basis() -> u64 {
    0xcbf2_9ce4_8422_2325
}

pub open spec fn fnv_prime() -> u64 {
    0x100_0000_01b3
}

/// FNV-1a over `bytes`.
pub open spec fn fnv(bytes: Seq<u8>) -> u64
    decreases bytes.len(),
{
    if bytes.len() == 0 {
        fnv_basis()
    } else {
        let h = fnv(bytes.drop_last()) ^ (bytes.last() as u64);
        ((h as nat * fnv_prime() as nat) % 0x1_0000_0000_0000_0000) as u64
    }
}

/// FNV-1a, 64-bit, over the UTF-8 bytes of `text`. Stable across toolchains,
/// which is what keeps a build directory attached to its project.
pub fn fnv1a(text: &str) -> (r: u64)
    ensures
        r == fnv(encode_utf8(text@)),
{
    let bytes = text.as_bytes();
    let mut hash: u64 = 0xcbf2_9ce4_8422_2325;
    let mut i: usize = 0;
    while i < bytes.len()
        invariant
            i <= bytes.len(),
            bytes@ == encode_utf8(text@),
            hash == fnv(bytes@.take(i as int)),
        decreases bytes.len() - i,
    {
        proof {
            assert(bytes@.take(i + 1).drop_last() =~= bytes@.take(i as int));
        }
        hash = hash ^ (bytes[i] as u64);
        hash = hash.wrapping_mul(0x100_0000_01b3);
        i = i + 1;
    }
    proof {
        assert(bytes@.take(bytes.len() as int) =~= bytes@);
    }
    hash
}

/// The directory name for a project: its snake-case name (or `project` when
/// that is empty), a dash, and the hash of its key in sixteen hex digits.
pub open spec fn slug_of(name: Seq<char>, key: Seq<char>) -> Seq<char> {
    let name = if name.len() == 0 {
        "project"@
    } else {
        name
    };
    name + seq!['-'] + zero_padded(hex(fnv(encode_utf8(key)) as nat), 16)
}

/// A stable, filesystem-safe directory name for a project, from its name in
/// snake case and the key it is hashed by (its path, when it has been saved).
pub fn slug(snake_name: &str, key: &str) -> (r: String)
    ensures
        r@ == slug_of(snake_name@, key@),
{
    let mut out = String::new();
    if snake_name.is_empty() {
        push_str(&mut out, "project");
    } else {
        push_str(&mut out, snake_name);
    }
    push_char(&mut out, '-');
    let digits = hex_padded(fnv1a(key), 16);
    push_str(&mut out, digits.as_str());
    proof {
        assert(out@ =~= slug_of(snake_name@, key@));
    }
    out
}

/// The key an unsaved project is hashed by: its name alone.
pub fn unsaved_key(name: &str) -> (r: String)
    ensures
        r@ == "unsaved/"@ + name@,
{
    let mut out = String::from_str("unsaved/");
    push_str(&mut out, name);
    out
}

/// Where a project builds: its export directory when it has a non-empty one,
/// else a managed directory under `managed_root` named by `slug_of`.
pub open spec fn resolved(
    export_dir: Option<Seq<char>>,
    managed_root: Seq<char>,
    snake_name: Seq<char>,
    key: Seq<char>,
) -> (Seq<char>, bool) {
    match export_dir {
        Some(dir) if dir.len() > 0 => (dir, false),
        _ => (path_joined(managed_root, slug_of(snake_name, key)), true),
    }
}

impl Workspace {
    /// The workspace for a project: its export directory, or a managed one.
    pub fn resolve(
        export_dir: Option<&str>,
        managed_root: &str,
        snake_name: &str,
        key: &str,
    ) -> (r: Workspace)
        ensures
            (r.root@, r.managed) == resolved(
                match export_dir {
                    Some(d) => Some(d@),
                    None => None,
                },
                managed_root@,
                snake_name@,
                key@,
            ),
    {
        if let Some(dir) = export_dir {
            if !dir.is_empty() {
                return Workspace { root: String::from_str(dir), managed: false };
            }
        }
        let name = slug(snake_name, key);
        Workspace { root: join(managed_root, name.as_str()), managed: true }
    }
}

/// The nodes whose expressions begin on each line of one generated file.
#[derive(Debug, Clone, PartialEq, Eq)]
pub struct FileLines {
    pub path: String,
    /// `(line, node)`: the node whose expression starts on that line.
    pub lines: Vec<(usize, NodeId)>,
}

/// Where every node ended up, by file, in path order: the map a compiler
/// error is turned back into a selection with.
#[derive(Debug, Clone, PartialEq, Eq)]
pub struct LineMap {
    pub files: Vec<FileLines>,
}

/// The first file whose path is exactly `file`.
pub open spec fn exact_file(files: Seq<FileLines>, file: Seq<char>) -> Option<FileLines>
    decreases files.len(),
{
    if files.len() == 0 {
        None
    } else if files[0].path@ == file {
        Some(files[0])
    } else {
        exact_file(files.drop_first(), file)
    }
}

/// The first file whose path `file` ends with.
pub open spec fn suffix_file(files: Seq<FileLines>, file: Seq<char>) -> Option<FileLines>
    decreases files.len(),
{
    if files.len() == 0 {
        None
    } else if files[0].path@.is_suffix_of(file) {
        Some(files[0])
    } else {
        suffix_file(files.drop_first(), file)
    }
}

/// The entry with the greatest line at or above `line` (the first such, when
/// a line is listed twice).
pub open spec fn nearest(entries: Seq<(usize, NodeId)>, line: usize) -> Option<(usize, NodeId)>
    decreases entries.len(),
{
    if entries.len() == 0 {
        None
    } else {
        let rest = nearest(entries.drop_last(), line);
        let e = entries.last();
        if e.0 <= line && (rest is None || rest.unwrap().0 < e.0) {
            Some(e)
        } else {
            rest
        }
    }
}

/// The node a line of generated code belongs to: the nearest tag at or above
/// the line, in the file named exactly, or else in the first file whose path
/// the name ends with.
pub open spec fn node_at_spec(map: Seq<FileLines>, file: Seq<char>, line: usize) -> Option<NodeId> {
    let chosen = match exact_file(map, file) {
        Some(f) => Some(f),
        None => suffix_file(map, file),
    };
    match chosen {
        None => None,
        Some(f) => match nearest(f.lines@, line) {
            Some(e) => Some(e.1),
            None => None,
        },
    }
}

fn ends_with(text: &str, suffix: &str) -> (r: bool)
    ensures
        r == suffix@.is_suffix_of(text@),
{
    let t = crate::text::chars_of(text);
    let s = crate::text::chars_of(suffix);
    if s.len() > t.len() {
        return false;
    }
    let offset = t.len() - s.len();
    let mut i: usize = 0;
    while i < s.len()
        invariant
            i <= s.len(),
            offset + s.len() == t.len(),
            t@ == text@,
            s@ == suffix@,
            forall|j: int| 0 <= j < i ==> s@[j] == t@[offset + j],
        decreases s.len() - i,
    {
        if s[i] != t[offset + i] {
            return false;
        }
        i = i + 1;
    }
    proof {
        assert(suffix@ =~= text@.subrange(offset as int, text@.len() as int));
    }
    true
}

/// Tags in a file listed by line, each line once, in increasing order.
pub open spec fn lines_rising(entries: Seq<(usize, NodeId)>) -> bool {
    forall|i: int, j: int| 0 <= i < j < entries.len() ==> (#[trigger] entries[i]).0 < (
    #[trigger] entries[j]).0
}

/// A line map as a sorted map of sorted maps: files in increasing path
/// order, each path once, and each file's tags rising by line.
pub open spec fn line_map_wf(files: Seq<FileLines>) -> bool {
    &&& forall|i: int, j: int|
        0 <= i < j < files.len() ==> text_lt((#[trigger] files[i]).path@, (#[trigger] files[j]).path@)
    &&& forall|i: int| 0 <= i < files.len() ==> lines_rising((#[trigger] files[i]).lines@)
}

impl LineMap {
    /// Whether the map is well formed: paths sorted and unique, lines
    /// sorted and unique within each file.
    pub open spec fn well_formed(&self) -> bool {
        line_map_wf(self.files@)
    }

    pub fn new() -> (r: LineMap)
        ensures
            r.files@.len() == 0,
            r.well_formed(),
    {
        LineMap { files: Vec::new() }
    }
}

fn find_exact(files: &Vec<FileLines>, file: &str) -> (r: Option<usize>)
    ensures
        match r {
            Some(i) => i < files@.len() && exact_file(files@, file@) == Some(files@[i as int]),
            None => exact_file(files@, file@) is None,
        },
{
    let mut i: usize = 0;
    proof {
        assert(files@.skip(0) =~= files@);
    }
    while i < files.len()
        invariant
            i <= files.len(),
            exact_file(files@, file@) == exact_file(files@.skip(i as int), file@),
        decreases files.len() - i,
    {
        proof {
            assert(files@.skip(i as int).drop_first() =~= files@.skip(i + 1));
            assert(files@.skip(i as int)[0] == files@[i as int]);
        }
        if same(files[i].path.as_str(), file) {
            return Some(i);
        }
        i = i + 1;
    }
    None
}

fn find_suffix(files: &Vec<FileLines>, file: &str) -> (r: Option<usize>)
    ensures
        match r {
            Some(i) => i < files@.len() && suffix_file(files@, file@) == Some(files@[i as int]),
            None => suffix_file(files@, file@) is None,
        },
{
    let mut k: usize = 0;
    proof {
        assert(files@.skip(0) =~= files@);
    }
    while k < files.len()
        invariant
            k <= files.len(),
            suffix_file(files@, file@) == suffix_file(files@.skip(k as int), file@),
        decreases files.len() - k,
    {
        proof {
            assert(files@.skip(k as int).drop_first() =~= files@.skip(k + 1));
            assert(files@.skip(k as int)[0] == files@[k as int]);
        }
        if ends_with(file, files[k].path.as_str()) {
            return Some(k);
        }
        k = k + 1;
    }
    None
}

/// The node a line of generated code belongs to.
///
/// Nearest tag at or above the line, because a node's expression spans
/// several lines and only its first is tagged. Cargo can report a path
/// absolutely, so a file that ends with a known path matches it too.
pub fn node_at(map: &LineMap, file: &str, line: usize) -> (r: Option<NodeId>)
    requires
        map.well_formed(),
    ensures
        r == node_at_spec(map.files@, file@, line),
{
    let files = &map.files;
    let chosen = match find_exact(files, file) {
        Some(i) => Some(i),
        None => find_suffix(files, file),
    };
    let index = match chosen {
        Some(index) => index,
        None => return None,
    };
    let entries = &files[index].lines;
    let mut best: Option<(usize, NodeId)> = None;
    let mut j: usize = 0;
    while j < entries.len()
        invariant
            j <= entries.len(),
            best == nearest(entries@.take(j as int), line),
        decreases entries.len() - j,
    {
        proof {
            assert(entries@.take(j + 1).drop_last() =~= entries@.take(j as int));
        }
        let e = entries[j];
        let better = match best {
            None => true,
            Some(b) => b.0 < e.0,
        };
        if e.0 <= line && better {
            best = Some(e);
        }
        j = j + 1;
    }
    proof {
        assert(entries@.take(entries.len() as int) =~= entries@);
    }
    match best {
        Some(b) => Some(b.1),
        None => None,
    }
}

/// The nearest tag at or above a line: what `nearest` picks is a listed
/// entry at or above the line, no listed entry lies strictly between it and
/// the line, and it finds nothing only when every tag is below the line.
pub proof fn the_nearest_tag_at_or_above_wins(entries: Seq<(usize, NodeId)>, line: usize)
    ensures
        nearest(entries, line) is None <==> forall|k: int|
            0 <= k < entries.len() ==> #[trigger] entries[k].0 > line,
        nearest(entries, line) matches Some(e) ==> {
            &&& entries.contains(e)
            &&& e.0 <= line
            &&& forall|k: int|
                0 <= k < entries.len() && #[trigger] entries[k].0 <= line ==> entries[k].0 <= e.0
        },
    decreases entries.len(),
{
    if entries.len() > 0 {
        let prev = entries.drop_last();
        the_nearest_tag_at_or_above_wins(prev, line);
        let rest = nearest(prev, line);
        let e = entries.last();
        assert forall|k: int| 0 <= k < entries.len() - 1 implies #[trigger] entries[k] == prev[k] by {}
        if e.0 <= line && (rest is None || rest.unwrap().0 < e.0) {
            assert(entries[entries.len() - 1] == e);
            assert forall|k: int| 0 <= k < entries.len() && #[trigger] entries[k].0 <= line implies entries[k].0 <= e.0 by {
                if k < entries.len() - 1 {
                    assert(entries[k] == prev[k]);
                }
            }
        } else {
            if rest is Some {
                let r = rest.unwrap();
                assert(prev.contains(r));
                let j = choose|j: int| 0 <= j < prev.len() && prev[j] == r;
                assert(entries[j] == r);
                assert forall|k: int| 0 <= k < entries.len() && #[trigger] entries[k].0 <= line implies entries[k].0 <= r.0 by {
                    if k < entries.len() - 1 {
                        assert(entries[k] == prev[k]);
                    }
                }
            } else {
                assert(entries[entries.len() - 1].0 > line);
                assert forall|k: int| 0 <= k < entries.len() implies #[trigger] entries[k].0 > line by {
                    if k < entries.len() - 1 {
                        assert(entries[k] == prev[k]);
                    }
                }
            }
        }
    }
}

/// A project's export directory, when it names one, is where it builds and
/// the workspace is the user's; an empty one counts as none, and then the
/// build goes to a managed directory under the managed root.
pub proof fn an_export_directory_is_used_as_it_stands(
    export_dir: Option<Seq<char>>,
    managed_root: Seq<char>,
    snake_name: Seq<char>,
    key: Seq<char>,
)
    ensures
        export_dir is Some && export_dir->0.len() > 0 ==> resolved(
            export_dir,
            managed_root,
            snake_name,
            key,
        ) == (export_dir->0, false),
        !(export_dir is Some && export_dir->0.len() > 0) ==> resolved(
            export_dir,
            managed_root,
            snake_name,
            key,
        ).1 && resolved(export_dir, managed_root, snake_name, key).0 == path_joined(
            managed_root,
            slug_of(snake_name, key),
        ),
{
}

proof fn lemma_suffix_file_least(files: Seq<FileLines>, file: Seq<char>)
    requires
        line_map_wf(files),
    ensures
        suffix_file(files, file) matches Some(f) ==> {
            &&& files.contains(f)
            &&& f.path@.is_suffix_of(file)
            &&& forall|j: int|
                0 <= j < files.len() && (#[trigger] files[j]).path@.is_suffix_of(file) ==> files[j]
                    == f || text_lt(f.path@, files[j].path@)
        },
    decreases files.len(),
{
    if files.len() > 0 {
        let rest = files.drop_first();
        assert forall|i: int, j: int| 0 <= i < j < rest.len() implies text_lt(
            (#[trigger] rest[i]).path@,
            (#[trigger] rest[j]).path@,
        ) by {
            assert(rest[i] == files[i + 1] && rest[j] == files[j + 1]);
        }
        assert forall|i: int| 0 <= i < rest.len() implies lines_rising((#[trigger] rest[i]).lines@) by {
            assert(rest[i] == files[i + 1]);
        }
        lemma_suffix_file_least(rest, file);
        if files[0].path@.is_suffix_of(file) {
            assert(files.contains(files[0]));
        } else if suffix_file(rest, file) is Some {
            let f = suffix_file(rest, file)->0;
            let m = choose|m: int| 0 <= m < rest.len() && rest[m] == f;
            assert(files[m + 1] == f);
            assert forall|j: int|
                0 <= j < files.len() && (#[trigger] files[j]).path@.is_suffix_of(file) implies files[j]
                    == f || text_lt(f.path@, files[j].path@) by {
                assert(j > 0);
                assert(files[j] == rest[j - 1]);
            }
        }
    }
}

proof fn lemma_exact_file(files: Seq<FileLines>, file: Seq<char>)
    ensures
        exact_file(files, file) matches Some(f) ==> files.contains(f) && f.path@ == file,
        exact_file(files, file) is None ==> forall|j: int|
            0 <= j < files.len() ==> (#[trigger] files[j]).path@ != file,
    decreases files.len(),
{
    if files.len() > 0 {
        let rest = files.drop_first();
        lemma_exact_file(rest, file);
        if files[0].path@ != file {
            if exact_file(rest, file) is Some {
                let f = exact_file(rest, file)->0;
                let m = choose|m: int| 0 <= m < rest.len() && rest[m] == f;
                assert(files[m + 1] == f);
            } else {
                assert forall|j: int| 0 <= j < files.len() implies (#[trigger] files[j]).path@ != file by {
                    if j > 0 {
                        assert(files[j] == rest[j - 1]);
                    }
                }
            }
        } else {
            assert(files.contains(files[0]));
        }
    }
}

/// In a well-formed line map, a diagnostic finds its file as the sorted map
/// would: the file named exactly when there is one; otherwise, of the files
/// whose path the reported path ends with, the one first in path order.
/// Within that file the node is the one tagged at the greatest line at or
/// above the reported line; nothing is found when no file matches or every
/// tag lies below.
pub proof fn a_line_maps_back_in_path_order(files: Seq<FileLines>, file: Seq<char>, line: usize)
    requires
        line_map_wf(files),
    ensures
        exact_file(files, file) matches Some(f) ==> files.contains(f) && f.path@ == file,
        exact_file(files, file) is None ==> (suffix_file(files, file) matches Some(f) ==> {
            &&& files.contains(f)
            &&& f.path@.is_suffix_of(file)
            &&& forall|j: int|
                0 <= j < files.len() && (#[trigger] files[j]).path@.is_suffix_of(file) ==> files[j]
                    == f || text_lt(f.path@, files[j].path@)
        }),
        exact_file(files, file) is None && suffix_file(files, file) is None ==> node_at_spec(
            files,
            file,
            line,
        ) is None,
{
    lemma_exact_file(files, file);
    lemma_suffix_file_least(files, file);
}

/// A lowercase hexadecimal digit.
pub open spec fn is_hex_digit(c: char) -> bool {
    ('0' <= c && c <= '9') || ('a' <= c && c <= 'f')
}

/// Sixteen to the `k`.
pub open spec fn pow16(k: nat) -> nat
    decreases k,
{
    if k == 0 {
        1
    } else {
        16 * pow16((k - 1) as nat)
    }
}

proof fn lemma_hex_fits(n: nat, k: nat)
    requires
        k >= 1,
        n < pow16(k),
    ensures
        hex(n).len() <= k,
        forall|i: int| 0 <= i < hex(n).len() ==> is_hex_digit(#[trigger] hex(n)[i]),
    decreases n,
{
    if n >= 16 {
        assert(k >= 2) by {
            if k == 1 {
                assert(pow16(1) == 16 * pow16(0));
            }
        }
        assert(n / 16 < pow16((k - 1) as nat)) by (nonlinear_arith)
            requires
                n < pow16(k),
                pow16(k) == 16 * pow16((k - 1) as nat),
        ;
        lemma_hex_fits(n / 16, (k - 1) as nat);
        let h = hex(n);
        let a = hex(n / 16);
        let d = crate::text::digit(n % 16);
        vstd::utf8::char_u32_cast(d, d as u32);
        assert forall|i: int| 0 <= i < h.len() implies is_hex_digit(#[trigger] h[i]) by {
            if i < a.len() {
                assert(h[i] == a[i]);
            } else {
                assert(h[i] == d);
            }
        }
    } else {
        let d = crate::text::digit(n);
        vstd::utf8::char_u32_cast(d, d as u32);
        assert(hex(n)[0] == d);
    }
}

/// A managed workspace's directory is named for a human and keyed for
/// uniqueness: under the managed root, the project's snake-case name (or
/// `project` when that is empty), a dash, and the 64-bit FNV-1a hash of its
/// key as exactly sixteen lowercase hexadecimal digits.
pub proof fn a_managed_directory_is_named_and_keyed(
    managed_root: Seq<char>,
    snake_name: Seq<char>,
    key: Seq<char>,
)
    ensures
        ({
            let (root, managed) = resolved(None, managed_root, snake_name, key);
            let name = if snake_name.len() == 0 {
                "project"@
            } else {
                snake_name
            };
            let digits = zero_padded(hex(fnv(encode_utf8(key)) as nat), 16);
            &&& managed
            &&& root == path_joined(managed_root, name + seq!['-'] + digits)
            &&& digits.len() == 16
            &&& forall|i: int| 0 <= i < 16 ==> is_hex_digit(#[trigger] digits[i])
        }),
{
    let n = fnv(encode_utf8(key)) as nat;
    assert(pow16(16) == 0x1_0000_0000_0000_0000) by {
        reveal_with_fuel(pow16, 17);
    }
    lemma_hex_fits(n, 16);
    let h = hex(n);
    let digits = zero_padded(h, 16);
    assert forall|i: int| 0 <= i < 16 implies is_hex_digit(#[trigger] digits[i]) by {
        if h.len() < 16 {
            let pad = (16 - h.len()) as int;
            if i < pad {
                assert(digits[i] == '0');
            } else {
                assert(digits[i] == h[i - pad]);
            }
        }
    }
}

/// FNV-1a over `bytes`, starting from the state `h` rather than the basis.
pub open spec fn fnv_from(h: u64, bytes: Seq<u8>) -> u64
    decreases bytes.len(),
{
    if bytes.len() == 0 {
        h
    } else {
        let g = fnv_from(h, bytes.drop_last()) ^ (bytes.last() as u64);
        ((g as nat * fnv_prime() as nat) % 0x1_0000_0000_0000_0000) as u64
    }
}

proof fn lemma_fnv_bytes(a: Seq<u8>, b: Seq<u8>)
    ensures
        fnv(a + b) == fnv_from(fnv(a), b),
    decreases b.len(),
{
    if b.len() == 0 {
        assert(a + b =~= a);
    } else {
        lemma_fnv_bytes(a, b.drop_last());
        assert((a + b).drop_last() =~= a + b.drop_last());
        assert((a + b).last() == b.last());
    }
}

proof fn lemma_encode_concat(s: Seq<char>, t: Seq<char>)
    ensures
        encode_utf8(s + t) == encode_utf8(s) + encode_utf8(t),
    decreases s.len(),
{
    if s.len() == 0 {
        assert(s + t =~= t);
        assert(encode_utf8(s) + encode_utf8(t) =~= encode_utf8(t));
    } else {
        lemma_encode_concat(s.drop_first(), t);
        assert((s + t).drop_first() =~= s.drop_first() + t);
        assert((s + t)[0] == s[0]);
        let e = vstd::utf8::encode_scalar(s[0] as u32);
        assert(e + (encode_utf8(s.drop_first()) + encode_utf8(t)) =~= (e + encode_utf8(
            s.drop_first(),
        )) + encode_utf8(t));
    }
}

/// The hash runs on over a concatenation: hashing `s` then `t` is hashing
/// `s`, then carrying on from that state through the bytes of `t`.
pub proof fn the_hash_runs_on_over_a_concatenation(s: Seq<char>, t: Seq<char>)
    ensures
        fnv(encode_utf8(s + t)) == fnv_from(fnv(encode_utf8(s)), encode_utf8(t)),
        fnv(encode_utf8(s)) == fnv_from(fnv_basis(), encode_utf8(s)),
{
    lemma_encode_concat(s, t);
    lemma_fnv_bytes(encode_utf8(s), encode_utf8(t));
    lemma_fnv_bytes(Seq::empty(), encode_utf8(s));
    assert(Seq::<u8>::empty() + encode_utf8(s) =~= encode_utf8(s));
}

/// Pairs as a map, a later pair for a key replacing an earlier one, as
/// collecting them into a `BTreeMap` does.
pub open spec fn map_of<K, V>(s: Seq<(K, V)>) -> Map<K, V>
    decreases s.len(),
{
    if s.len() == 0 {
        Map::empty()
    } else {
        map_of(s.drop_last()).insert(s.last().0, s.last().1)
    }
}

/// Some pair of `s` has key `k`.
pub open spec fn has_key<K, V>(s: Seq<(K, V)>, k: K) -> bool {
    exists|i: int| 0 <= i < s.len() && s[i].0 == k
}

/// No key occurs twice.
pub open spec fn distinct_keys<K, V>(s: Seq<(K, V)>) -> bool {
    forall|i: int, j: int| 0 <= i < j < s.len() ==> (#[trigger] s[i]).0 != (#[trigger] s[j]).0
}

proof fn lemma_map_of_distinct<K, V>(s: Seq<(K, V)>)
    requires
        distinct_keys(s),
    ensures
        forall|k: K| #[trigger] map_of(s).contains_key(k) <==> has_key(s, k),
        forall|i: int| 0 <= i < s.len() ==> map_of(s)[(#[trigger] s[i]).0] == s[i].1,
    decreases s.len(),
{
    if s.len() > 0 {
        let prev = s.drop_last();
        assert forall|i: int, j: int| 0 <= i < j < prev.len() implies (#[trigger] prev[i]).0 != (
        #[trigger] prev[j]).0 by {
            assert(prev[i] == s[i] && prev[j] == s[j]);
        }
        lemma_map_of_distinct(prev);
        let m = map_of(s);
        assert forall|k: K| #[trigger] m.contains_key(k) <==> has_key(s, k) by {
            if m.contains_key(k) && k != s.last().0 {
                assert(map_of(prev).contains_key(k));
                assert(has_key(prev, k));
                let i = choose|i: int| 0 <= i < prev.len() && prev[i].0 == k;
                assert(s[i] == prev[i]);
            }
            if m.contains_key(k) && k == s.last().0 {
                assert(s[s.len() - 1].0 == k);
            }
            if has_key(s, k) {
                let i = choose|i: int| 0 <= i < s.len() && s[i].0 == k;
                if i < prev.len() {
                    assert(prev[i] == s[i]);
                    assert(has_key(prev, k));
                    assert(map_of(prev).contains_key(k));
                }
            }
        }
        assert forall|i: int| 0 <= i < s.len() implies m[(#[trigger] s[i]).0] == s[i].1 by {
            if i < prev.len() {
                assert(prev[i] == s[i]);
                assert(s[i].0 != s[s.len() - 1].0);
            }
        }
    }
}

proof fn lemma_map_of_put<K, V>(s: Seq<(K, V)>, t: Seq<(K, V)>, x: (K, V))
    requires
        distinct_keys(s),
        distinct_keys(t),
        forall|k: K| #[trigger] has_key(t, k) <==> (k == x.0 || has_key(s, k)),
        exists|i: int| 0 <= i < t.len() && t[i] == x,
        forall|i: int| 0 <= i < t.len() && (#[trigger] t[i]).0 != x.0 ==> s.contains(t[i]),
    ensures
        map_of(t) == map_of(s).insert(x.0, x.1),
{
    lemma_map_of_distinct(s);
    lemma_map_of_distinct(t);
    let a = map_of(t);
    let b = map_of(s).insert(x.0, x.1);
    assert forall|k: K| #[trigger] a.contains_key(k) <==> b.contains_key(k) by {
        assert(has_key(t, k) <==> (k == x.0 || has_key(s, k)));
    }
    assert forall|k: K| #[trigger] a.contains_key(k) implies a[k] == b[k] by {
        assert(has_key(t, k));
        let i = choose|i: int| 0 <= i < t.len() && t[i].0 == k;
        assert(a[t[i].0] == t[i].1);
        if k == x.0 {
            let j = choose|j: int| 0 <= j < t.len() && t[j] == x;
            assert(a[t[j].0] == t[j].1);
            if i != j {
                assert(t[i].0 == t[j].0);
            }
        } else {
            assert(s.contains(t[i]));
            let m = choose|m: int| 0 <= m < s.len() && s[m] == t[i];
            assert(map_of(s)[s[m].0] == s[m].1);
        }
    }
    assert(a =~= b);
}

/// A file's tags as a map from line to node.
pub open spec fn tags(f: FileLines) -> Map<usize, NodeId> {
    map_of(f.lines@)
}

/// A line map as a map from path to its tags.
pub open spec fn line_map_view(files: Seq<FileLines>) -> Map<Seq<char>, Map<usize, NodeId>> {
    map_of(files.map_values(|f: FileLines| (f.path@, tags(f))))
}

proof fn lemma_rising_distinct(e: Seq<(usize, NodeId)>)
    requires
        lines_rising(e),
    ensures
        distinct_keys(e),
{
    assert forall|i: int, j: int| 0 <= i < j < e.len() implies (#[trigger] e[i]).0 != (#[trigger] e[j]).0 by {
        assert(e[i].0 < e[j].0);
    }
}

/// The tags of `pairs`, in rising line order, each line once, the last
/// tag given for a line winning.
fn sorted_tags(pairs: &Vec<(usize, NodeId)>) -> (r: Vec<(usize, NodeId)>)
    ensures
        lines_rising(r@),
        map_of(r@) == map_of(pairs@),
{
    let mut out: Vec<(usize, NodeId)> = Vec::new();
    let mut n: usize = 0;
    while n < pairs.len()
        invariant
            n <= pairs.len(),
            lines_rising(out@),
            map_of(out@) == map_of(pairs@.take(n as int)),
        decreases pairs.len() - n,
    {
        let x = pairs[n];
        let mut j: usize = 0;
        while j < out.len() && out[j].0 < x.0
            invariant
                j <= out.len(),
                forall|i: int| 0 <= i < j ==> (#[trigger] out@[i]).0 < x.0,
            decreases out.len() - j,
        {
            j = j + 1;
        }
        let ghost before = out@;
        proof {
            lemma_rising_distinct(before);
            assert(pairs@.take(n + 1).drop_last() =~= pairs@.take(n as int));
            assert(pairs@.take(n + 1).last() == x);
        }
        if j < out.len() && out[j].0 == x.0 {
            out.set(j, x);
            proof {
                assert forall|a: int, b: int| 0 <= a < b < out@.len() implies (#[trigger] out@[a]).0 < (
                #[trigger] out@[b]).0 by {
                    assert(before[a].0 < before[b].0);
                }
                lemma_rising_distinct(out@);
                assert(out@[j as int] == x);
                assert forall|k: usize| #[trigger] has_key(out@, k) <==> (k == x.0 || has_key(before, k)) by {
                    if has_key(before, k) {
                        let i = choose|i: int| 0 <= i < before.len() && before[i].0 == k;
                        assert(out@[i].0 == k);
                    }
                    if has_key(out@, k) {
                        let i = choose|i: int| 0 <= i < out@.len() && out@[i].0 == k;
                        assert(before[i].0 == k);
                    }
                }
                assert forall|i: int| 0 <= i < out@.len() && (#[trigger] out@[i]).0 != x.0 implies before.contains(
                    out@[i],
                ) by {
                    assert(out@[i] == before[i]);
                }
                lemma_map_of_put(before, out@, x);
            }
        } else {
            out.insert(j, x);
            proof {
                assert forall|a: int| 0 <= a < before.len() implies (#[trigger] before[a]).0 != x.0 by {
                    if a >= j {
                        assert(before[a].0 >= before[j as int].0);
                        if a > j {
                            assert(before[j as int].0 < before[a].0);
                        }
                    }
                }
                assert forall|a: int, b: int| 0 <= a < b < out@.len() implies (#[trigger] out@[a]).0 < (
                #[trigger] out@[b]).0 by {
                    if b < j {
                        assert(out@[a] == before[a] && out@[b] == before[b]);
                    } else if b == j {
                        assert(out@[a] == before[a]);
                    } else if a < j {
                        assert(out@[a] == before[a] && out@[b] == before[b - 1]);
                        assert(before[b - 1].0 >= before[j as int].0 || b - 1 == j);
                        if b - 1 > j {
                            assert(before[j as int].0 < before[b - 1].0);
                        }
                        assert(before[j as int].0 > x.0);
                    } else if a == j {
                        assert(out@[b] == before[b - 1]);
                        if b - 1 > j {
                            assert(before[j as int].0 < before[b - 1].0);
                        }
                    } else {
                        assert(out@[a] == before[a - 1] && out@[b] == before[b - 1]);
                    }
                }
                lemma_rising_distinct(out@);
                assert(out@[j as int] == x);
                assert forall|k: usize| #[trigger] has_key(out@, k) <==> (k == x.0 || has_key(before, k)) by {
                    if has_key(before, k) {
                        let i = choose|i: int| 0 <= i < before.len() && before[i].0 == k;
                        if i < j {
                            assert(out@[i] == before[i]);
                        } else {
                            assert(out@[i + 1] == before[i]);
                        }
                    }
                    if has_key(out@, k) {
                        let i = choose|i: int| 0 <= i < out@.len() && out@[i].0 == k;
                        if i < j {
                            assert(before[i] == out@[i]);
                        } else if i > j {
                            assert(before[i - 1] == out@[i]);
                        }
                    }
                }
                assert forall|i: int| 0 <= i < out@.len() && (#[trigger] out@[i]).0 != x.0 implies before.contains(
                    out@[i],
                ) by {
                    if i < j {
                        assert(out@[i] == before[i]);
                    } else {
                        assert(out@[i] == before[i - 1]);
                    }
                }
                lemma_map_of_put(before, out@, x);
            }
        }
        n = n + 1;
    }
    proof {
        assert(pairs@.take(pairs.len() as int) =~= pairs@);
    }
    out
}

/// Where `path` goes among sorted files: after every file whose path sorts
/// before it.
fn file_position(files: &Vec<FileLines>, path: &str) -> (j: usize)
    ensures
        j <= files.len(),
        forall|i: int| 0 <= i < j ==> text_lt((#[trigger] files@[i]).path@, path@),
        j < files.len() ==> !text_lt(files@[j as int].path@, path@),
{
    let mut j: usize = 0;
    while j < files.len()
        invariant
            j <= files.len(),
            forall|i: int| 0 <= i < j ==> text_lt((#[trigger] files@[i]).path@, path@),
        decreases files.len() - j,
    {
        if !crate::order::str_lt(files[j].path.as_str(), path) {
            return j;
        }
        j = j + 1;
    }
    j
}

proof fn lemma_sorted_distinct(files: Seq<FileLines>)
    requires
        line_map_wf(files),
    ensures
        distinct_keys(files.map_values(|f: FileLines| (f.path@, tags(f)))),
{
    let v = files.map_values(|f: FileLines| (f.path@, tags(f)));
    assert forall|a: int, b: int| 0 <= a < b < v.len() implies (#[trigger] v[a]).0 != (#[trigger] v[b]).0 by {
        assert(text_lt(files[a].path@, files[b].path@));
        if files[a].path@ == files[b].path@ {
            crate::order::lemma_text_lt_irreflexive(files[a].path@);
        }
    }
}

impl LineMap {
    /// Record where each node of one generated file landed: `lines` pairs
    /// a line with the node tagged on it, in any order, the last pair for a
    /// line winning. Replaces what was recorded for `path` before, as a
    /// `BTreeMap` of `BTreeMap`s takes an insert.
    pub fn insert(&mut self, path: String, lines: Vec<(usize, NodeId)>)
        requires
            old(self).well_formed(),
        ensures
            final(self).well_formed(),
            line_map_view(final(self).files@) == line_map_view(old(self).files@).insert(
                path@,
                map_of(lines@),
            ),
    {
        let tags_sorted = sorted_tags(&lines);
        let j = file_position(&self.files, path.as_str());
        let ghost before = self.files@;
        let ghost p = path@;
        let ghost x = (p, map_of(lines@));
        let entry = FileLines { path, lines: tags_sorted };
        proof {
            assert(tags(entry) == map_of(lines@));
            lemma_sorted_distinct(before);
        }
        let ghost vb = before.map_values(|f: FileLines| (f.path@, tags(f)));
        if j < self.files.len() && same(self.files[j].path.as_str(), entry.path.as_str()) {
            self.files.set(j, entry);
            proof {
                let after = self.files@;
                assert forall|a: int, b: int| 0 <= a < b < after.len() implies text_lt(
                    (#[trigger] after[a]).path@,
                    (#[trigger] after[b]).path@,
                ) by {
                    assert(text_lt(before[a].path@, before[b].path@));
                }
                assert forall|a: int| 0 <= a < after.len() implies lines_rising((#[trigger] after[a]).lines@) by {
                    if a != j {
                        assert(after[a] == before[a]);
                    }
                }
                lemma_sorted_distinct(after);
                let va = after.map_values(|f: FileLines| (f.path@, tags(f)));
                assert(va[j as int] == x);
                assert forall|k: Seq<char>| #[trigger] has_key(va, k) <==> (k == x.0 || has_key(vb, k)) by {
                    if has_key(vb, k) {
                        let i = choose|i: int| 0 <= i < vb.len() && vb[i].0 == k;
                        assert(va[i].0 == k);
                    }
                    if has_key(va, k) {
                        let i = choose|i: int| 0 <= i < va.len() && va[i].0 == k;
                        assert(vb[i].0 == k);
                    }
                }
                assert forall|i: int| 0 <= i < va.len() && (#[trigger] va[i]).0 != x.0 implies vb.contains(va[i]) by {
                    assert(va[i] == vb[i]);
                }
                lemma_map_of_put(vb, va, x);
            }
        } else {
            self.files.insert(j, entry);
            proof {
                let after = self.files@;
                if j < before.len() {
                    assert(before[j as int].path@ != p);
                    if !text_lt(p, before[j as int].path@) {
                        crate::order::lemma_text_lt_total(p, before[j as int].path@);
                    }
                }
                assert forall|a: int, b: int| 0 <= a < b < after.len() implies text_lt(
                    (#[trigger] after[a]).path@,
                    (#[trigger] after[b]).path@,
                ) by {
                    if b < j {
                        assert(after[a] == before[a] && after[b] == before[b]);
                    } else if b == j {
                        assert(after[a] == before[a]);
                    } else if a < j {
                        assert(after[a] == before[a] && after[b] == before[b - 1]);
                        if b - 1 > j {
                            assert(text_lt(before[j as int].path@, before[b - 1].path@));
                            crate::order::lemma_text_lt_transitive(p, before[j as int].path@, before[b - 1].path@);
                        }
                        crate::order::lemma_text_lt_transitive(before[a].path@, p, before[b - 1].path@);
                    } else if a == j {
                        assert(after[b] == before[b - 1]);
                        if b - 1 > j {
                            assert(text_lt(before[j as int].path@, before[b - 1].path@));
                            crate::order::lemma_text_lt_transitive(p, before[j as int].path@, before[b - 1].path@);
                        }
                    } else {
                        assert(after[a] == before[a - 1] && after[b] == before[b - 1]);
                    }
                }
                assert forall|a: int| 0 <= a < after.len() implies lines_rising((#[trigger] after[a]).lines@) by {
                    if a < j {
                        assert(after[a] == before[a]);
                    } else if a > j {
                        assert(after[a] == before[a - 1]);
                    }
                }
                lemma_sorted_distinct(after);
                let va = after.map_values(|f: FileLines| (f.path@, tags(f)));
                assert(va[j as int] == x);
                assert forall|k: Seq<char>| #[trigger] has_key(va, k) <==> (k == x.0 || has_key(vb, k)) by {
                    if has_key(vb, k) {
                        let i = choose|i: int| 0 <= i < vb.len() && vb[i].0 == k;
                        if i < j {
                            assert(va[i] == vb[i]);
                        } else {
                            assert(va[i + 1] == vb[i]);
                        }
                    }
                    if has_key(va, k) {
                        let i = choose|i: int| 0 <= i < va.len() && va[i].0 == k;
                        if i < j {
                            assert(vb[i] == va[i]);
                        } else if i > j {
                            assert(vb[i - 1] == va[i]);
                        }
                    }
                }
                assert forall|i: int| 0 <= i < va.len() && (#[trigger] va[i]).0 != x.0 implies vb.contains(va[i]) by {
                    if i < j {
                        assert(va[i] == vb[i]);
                    } else {
                        assert(va[i] == vb[i - 1]);
                    }
                }
                lemma_map_of_put(vb, va, x);
            }
        }
    }
}

/// One FNV-1a step: mix a byte into the state, then multiply by the prime.
pub open spec fn fnv_step(h: u64, b: u8) -> u64 {
    (((h ^ (b as u64)) as nat * fnv_prime() as nat) % 0x1_0000_0000_0000_0000) as u64
}

proof fn lemma_unmul(z: int)
    requires
        0 <= z < 0x1_0000_0000_0000_0000,
    ensures
        ((z * 0x100_0000_01b3) % 0x1_0000_0000_0000_0000) * 0xce96_5057_aff6_957b
            % 0x1_0000_0000_0000_0000 == z,
{
    let m: int = 0x1_0000_0000_0000_0000;
    let p: int = 0x100_0000_01b3;
    let inv: int = 0xce96_5057_aff6_957b;
    assert((0x100_0000_01b3int * 0xce96_5057_aff6_957bint) % 0x1_0000_0000_0000_0000int == 1);
    vstd::arithmetic::div_mod::lemma_mul_mod_noop_left(z * p, inv, m);
    vstd::arithmetic::mul::lemma_mul_is_associative(z, p, inv);
    vstd::arithmetic::div_mod::lemma_mul_mod_noop_right(z, p * inv, m);
    vstd::arithmetic::div_mod::lemma_small_mod(z as nat, m as nat);
}

proof fn lemma_prime_cancels(x: u64, y: u64)
    requires
        (x as nat * fnv_prime() as nat) % 0x1_0000_0000_0000_0000 == (y as nat * fnv_prime() as nat)
            % 0x1_0000_0000_0000_0000,
    ensures
        x == y,
{
    lemma_unmul(x as int);
    lemma_unmul(y as int);
}

proof fn lemma_step_apart(h1: u64, h2: u64, b1: u8, b2: u8)
    requires
        h1 != h2 && b1 == b2 || h1 == h2 && b1 != b2,
    ensures
        fnv_step(h1, b1) != fnv_step(h2, b2),
{
    let x = h1 ^ (b1 as u64);
    let y = h2 ^ (b2 as u64);
    assert(x != y) by (bit_vector)
        requires
            h1 != h2 && b1 == b2 || h1 == h2 && b1 != b2,
            x == h1 ^ (b1 as u64),
            y == h2 ^ (b2 as u64),
    ;
    if fnv_step(h1, b1) == fnv_step(h2, b2) {
        lemma_prime_cancels(x, y);
    }
}

proof fn lemma_fnv_from_step(h: u64, a: Seq<u8>)
    requires
        a.len() > 0,
    ensures
        fnv_from(h, a) == fnv_step(fnv_from(h, a.drop_last()), a.last()),
{
}

/// Byte strings of one length that differ in exactly one place hash apart,
/// from any starting state: each step of FNV-1a is one-to-one, in the state
/// for a fixed byte and in the byte for a fixed state.
pub proof fn one_byte_apart_hashes_apart(h: u64, a: Seq<u8>, b: Seq<u8>, k: int)
    requires
        a.len() == b.len(),
        0 <= k < a.len(),
        a[k] != b[k],
        forall|i: int| 0 <= i < a.len() && i != k ==> a[i] == b[i],
    ensures
        fnv_from(h, a) != fnv_from(h, b),
    decreases a.len(),
{
    let n = a.len() - 1;
    if k == n {
        assert(a.drop_last() =~= b.drop_last());
        lemma_step_apart(fnv_from(h, a.drop_last()), fnv_from(h, b.drop_last()), a.last(), b.last());
    } else {
        assert(a.last() == b.last());
        one_byte_apart_hashes_apart(h, a.drop_last(), b.drop_last(), k);
        lemma_step_apart(fnv_from(h, a.drop_last()), fnv_from(h, b.drop_last()), a.last(), b.last());
    }
}

proof fn lemma_ascii_encoding(c: char)
    requires
        (c as u32) < 0x80,
    ensures
        encode_utf8(seq![c]) == seq![((c as u32) & 0x7f) as u8],
{
    assert(seq![c].drop_first() =~= Seq::<char>::empty());
    assert(encode_utf8(Seq::<char>::empty()) =~= Seq::<u8>::empty());
    assert(vstd::utf8::encode_scalar(c as u32) == seq![((c as u32) & 0x7f) as u8]);
    assert(encode_utf8(seq![c]) == vstd::utf8::encode_scalar(seq![c][0] as u32) + encode_utf8(
        seq![c].drop_first(),
    ));
    assert(encode_utf8(seq![c]) =~= seq![((c as u32) & 0x7f) as u8]);
}

proof fn lemma_zero_padded_value(h: Seq<char>, k: nat)
    ensures
        crate::rust::hex_value(Seq::new(k, |i: int| '0') + h) == crate::rust::hex_value(h),
    decreases h.len(),
{
    let z = Seq::new(k, |i: int| '0');
    if h.len() == 0 {
        assert(z + h =~= z);
        lemma_zeros_value(k);
    } else {
        lemma_zero_padded_value(h.drop_last(), k);
        assert((z + h).drop_last() =~= z + h.drop_last());
        assert((z + h).last() == h.last());
    }
}

proof fn lemma_zeros_value(k: nat)
    ensures
        crate::rust::hex_value(Seq::new(k, |i: int| '0')) == 0,
    decreases k,
{
    if k > 0 {
        let z = Seq::new(k, |i: int| '0');
        assert(z.drop_last() =~= Seq::new((k - 1) as nat, |i: int| '0'));
        lemma_zeros_value((k - 1) as nat);
        vstd::utf8::char_u32_cast('0', '0' as u32);
    }
}

proof fn lemma_digits_apart(m: u64, n: u64)
    requires
        m != n,
    ensures
        zero_padded(hex(m as nat), 16) != zero_padded(hex(n as nat), 16),
{
    crate::rust::lemma_hex_round_trip(m as nat);
    crate::rust::lemma_hex_round_trip(n as nat);
    let hm = hex(m as nat);
    let hn = hex(n as nat);
    if hm.len() < 16 {
        lemma_zero_padded_value(hm, (16 - hm.len()) as nat);
    }
    if hn.len() < 16 {
        lemma_zero_padded_value(hn, (16 - hn.len()) as nat);
    }
}

/// Two projects saved at paths that differ in one ASCII character (two
/// `demo.tailor`s in `/a` and `/b`) build in different managed directories:
/// their keys hash apart, and the sixteen digits keep the whole hash.
pub proof fn two_demos_do_not_collide(
    managed_root: Seq<char>,
    snake_name: Seq<char>,
    u: Seq<char>,
    v: Seq<char>,
    c1: char,
    c2: char,
)
    requires
        c1 != c2,
        (c1 as u32) < 0x80,
        (c2 as u32) < 0x80,
    ensures
        fnv(encode_utf8(u + seq![c1] + v)) != fnv(encode_utf8(u + seq![c2] + v)),
        resolved(None, managed_root, snake_name, u + seq![c1] + v).0 != resolved(
            None,
            managed_root,
            snake_name,
            u + seq![c2] + v,
        ).0,
{
    lemma_encode_concat(u + seq![c1], v);
    lemma_encode_concat(u, seq![c1]);
    lemma_encode_concat(u + seq![c2], v);
    lemma_encode_concat(u, seq![c2]);
    lemma_ascii_encoding(c1);
    lemma_ascii_encoding(c2);
    let x1 = c1 as u32;
    let x2 = c2 as u32;
    vstd::utf8::char_u32_cast(c1, x1);
    vstd::utf8::char_u32_cast(c2, x2);
    assert(((x1 & 0x7f) as u8) != ((x2 & 0x7f) as u8)) by (bit_vector)
        requires
            x1 < 0x80,
            x2 < 0x80,
            x1 != x2,
    ;
    let eu = encode_utf8(u);
    let ev = encode_utf8(v);
    let a = eu + seq![((x1 & 0x7f) as u8)] + ev;
    let b = eu + seq![((x2 & 0x7f) as u8)] + ev;
    assert(encode_utf8(u + seq![c1] + v) == a);
    assert(encode_utf8(u + seq![c2] + v) == b);
    let k = eu.len() as int;
    assert forall|i: int| 0 <= i < a.len() && i != k implies a[i] == b[i] by {
        if i < k {
            assert(a[i] == eu[i] && b[i] == eu[i]);
        } else {
            assert(a[i] == ev[i - k - 1] && b[i] == ev[i - k - 1]);
        }
    }
    one_byte_apart_hashes_apart(fnv_basis(), a, b, k);
    lemma_fnv_bytes(Seq::empty(), a);
    lemma_fnv_bytes(Seq::empty(), b);
    assert(Seq::<u8>::empty() + a =~= a);
    assert(Seq::<u8>::empty() + b =~= b);
    let h1 = fnv(a);
    let h2 = fnv(b);
    lemma_digits_apart(h1, h2);
    let name = if snake_name.len() == 0 {
        "project"@
    } else {
        snake_name
    };
    let d1 = zero_padded(hex(h1 as nat), 16);
    let d2 = zero_padded(hex(h2 as nat), 16);
    let s1 = name + seq!['-'] + d1;
    let s2 = name + seq!['-'] + d2;
    let r1 = path_joined(managed_root, s1);
    let r2 = path_joined(managed_root, s2);
    if r1 == r2 {
        let off = r1.len() - s1.len();
        assert(r1.subrange(off, r1.len() as int) =~= s1);
        assert(r2.subrange(off, r2.len() as int) =~= s2);
        assert(s1.subrange(name.len() as int + 1, s1.len() as int) =~= d1);
        assert(s2.subrange(name.len() as int + 1, s2.len() as int) =~= d2);
    }
}

/// Looked up by exact path, `node_at` reads the map a line map stands for:
/// in the tags of that file, the node at the greatest line at or above the
/// one asked about, and nothing when every tag lies below it.
pub proof fn node_at_reads_the_map(files: Seq<FileLines>, file: Seq<char>, line: usize)
    requires
        line_map_wf(files),
        line_map_view(files).contains_key(file),
    ensures
        ({
            let m = line_map_view(files)[file];
            let r = node_at_spec(files, file, line);
            &&& r is None <==> forall|k: usize| #[trigger] m.contains_key(k) ==> k > line
            &&& r matches Some(n) ==> exists|k: usize|
                #[trigger] m.contains_key(k) && k <= line && m[k] == n && forall|j: usize|
                    #[trigger] m.contains_key(j) && j <= line ==> j <= k
        }),
{
    let v = files.map_values(|f: FileLines| (f.path@, tags(f)));
    lemma_sorted_distinct(files);
    lemma_map_of_distinct(v);
    assert(has_key(v, file));
    let i = choose|i: int| 0 <= i < v.len() && v[i].0 == file;
    let f = files[i];
    assert(v[i] == (f.path@, tags(f)));
    let m = line_map_view(files)[file];
    assert(m == tags(f));
    lemma_exact_file(files, file);
    let g = exact_file(files, file)->0;
    assert(files.contains(g));
    let gi = choose|gi: int| 0 <= gi < files.len() && files[gi] == g;
    if gi != i {
        if gi < i {
            assert(text_lt(files[gi].path@, files[i].path@));
        } else {
            assert(text_lt(files[i].path@, files[gi].path@));
        }
        crate::order::lemma_text_lt_irreflexive(file);
    }
    assert(g == f);
    let e = f.lines@;
    assert(lines_rising(e));
    lemma_rising_distinct(e);
    lemma_map_of_distinct(e);
    the_nearest_tag_at_or_above_wins(e, line);
    let r = node_at_spec(files, file, line);
    assert forall|k: usize| #[trigger] m.contains_key(k) implies (r is None ==> k > line) by {
        assert(has_key(e, k));
        let a = choose|a: int| 0 <= a < e.len() && e[a].0 == k;
        assert(e[a].0 > line || nearest(e, line) is Some);
    }
    if nearest(e, line) is None {
        assert(forall|k: usize| #[trigger] m.contains_key(k) ==> k > line);
    } else {
        let best = nearest(e, line)->0;
        let b = choose|b: int| 0 <= b < e.len() && e[b] == best;
        assert(m.contains_key(best.0)) by {
            assert(has_key(e, best.0));
        }
        assert(m[e[b].0] == e[b].1);
        assert forall|j: usize| #[trigger] m.contains_key(j) && j <= line implies j <= best.0 by {
            assert(has_key(e, j));
            let a = choose|a: int| 0 <= a < e.len() && e[a].0 == j;
            assert(e[a].0 <= line);
        }
        assert(!(forall|k: usize| #[trigger] m.contains_key(k) ==> k > line));
    }
}

} // verus!
