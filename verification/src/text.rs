//! Small string helpers that the rest of the crate builds on.

use vstd::prelude::*;

verus! {

/// Append one character to a string.
///
/// Trusted: `String::push`, documented to append the given `char` to the end
/// of the string. The contract claims exactly that and nothing else.
#[verifier::external_body]
pub(crate) fn push_char(s: &mut String, c: char)
    ensures
        final(s)@ == old(s)@.push(c),
{
    s.push(c);
}

/// Append a string slice.
pub fn push_str(s: &mut String, t: &str)
    ensures
        final(s)@ == old(s)@ + t@,
{
    s.append(t);
}

/// `n` copies of `unit`, joined.
pub open spec fn repeat(unit: Seq<char>, n: nat) -> Seq<char>
    decreases n,
{
    if n == 0 {
        Seq::empty()
    } else {
        repeat(unit, (n - 1) as nat) + unit
    }
}

/// The characters of a `String`-valued sequence, each taken by its view.
pub open spec fn views(v: Seq<String>) -> Seq<Seq<char>> {
    v.map_values(|s: String| s@)
}


/// The characters of a string slice, in order.
pub fn chars_of(s: &str) -> (r: Vec<char>)
    ensures
        r@ == s@,
{
    let mut out: Vec<char> = Vec::new();
    for c in iter: s.chars()
        invariant
            iter.seq() == s@,
            out@ == s@.take(iter.index() as int),
    {
        out.push(c);
        proof {
            assert(out@ =~= s@.take(iter.index() + 1));
        }
    }
    proof {
        assert(out@ =~= s@);
    }
    out
}

/// The digit for `d` in bases up to sixteen, lowercase.
pub open spec fn digit(d: nat) -> char {
    if d < 10 {
        (48 + d) as char
    } else {
        (87 + d) as char
    }
}

/// `n` in decimal, with no leading zeros (`0` is a single digit).
pub open spec fn decimal(n: nat) -> Seq<char>
    decreases n,
{
    if n < 10 {
        seq![digit(n)]
    } else {
        decimal(n / 10) + seq![digit(n % 10)]
    }
}

/// `n` in lowercase hexadecimal, with no leading zeros.
pub open spec fn hex(n: nat) -> Seq<char>
    decreases n,
{
    if n < 16 {
        seq![digit(n)]
    } else {
        hex(n / 16) + seq![digit(n % 16)]
    }
}

/// `s` left-padded with zeros to at least `width` characters.
pub open spec fn zero_padded(s: Seq<char>, width: nat) -> Seq<char> {
    if s.len() < width {
        Seq::new((width - s.len()) as nat, |i: int| '0') + s
    } else {
        s
    }
}

/// A signed integer in decimal, with a leading `-` when negative.
pub open spec fn signed_decimal(n: int) -> Seq<char> {
    if n < 0 {
        seq!['-'] + decimal((-n) as nat)
    } else {
        decimal(n as nat)
    }
}

fn digit_char(d: u64) -> (c: char)
    requires
        d < 16,
    ensures
        c == digit(d as nat),
{
    let b: u8 = if d < 10 { 48 + d as u8 } else { 87 + d as u8 };
    b as char
}

/// Append `n` in decimal.
pub fn write_decimal(out: &mut String, n: u64)
    ensures
        final(out)@ == old(out)@ + decimal(n as nat),
    decreases n,
{
    if n >= 10 {
        write_decimal(out, n / 10);
    }
    let c = digit_char(n % 10);
    push_char(out, c);
    proof {
        assert(final(out)@ =~= old(out)@ + decimal(n as nat));
    }
}

/// Append `n` in lowercase hexadecimal.
pub fn write_hex(out: &mut String, n: u64)
    ensures
        final(out)@ == old(out)@ + hex(n as nat),
    decreases n,
{
    if n >= 16 {
        write_hex(out, n / 16);
    }
    let c = digit_char(n % 16);
    push_char(out, c);
    proof {
        assert(final(out)@ =~= old(out)@ + hex(n as nat));
    }
}

/// `n` in decimal, as a new string.
pub fn decimal_string(n: u64) -> (r: String)
    ensures
        r@ == decimal(n as nat),
{
    let mut out = String::new();
    write_decimal(&mut out, n);
    proof {
        assert(out@ =~= decimal(n as nat));
    }
    out
}

/// A signed number in decimal, as a new string.
pub fn signed_string(n: i64) -> (r: String)
    ensures
        r@ == signed_decimal(n as int),
{
    let mut out = String::new();
    if n < 0 {
        push_char(&mut out, '-');
        let m: u64 = if n == i64::MIN { 9223372036854775808u64 } else { (-n) as u64 };
        write_decimal(&mut out, m);
    } else {
        write_decimal(&mut out, n as u64);
    }
    proof {
        assert(out@ =~= signed_decimal(n as int));
    }
    out
}

/// `n` in lowercase hexadecimal, zero-padded to `width`.
pub fn hex_padded(n: u64, width: usize) -> (r: String)
    ensures
        r@ == zero_padded(hex(n as nat), width as nat),
{
    let mut digits = String::new();
    write_hex(&mut digits, n);
    proof {
        assert(digits@ =~= hex(n as nat));
    }
    let count = digits.as_str().unicode_len();
    let mut out = String::new();
    let mut i: usize = count;
    while i < width
        invariant
            count <= i,
            count == digits@.len(),
            i <= width || count >= width,
            count >= width ==> i == count,
            out@ == Seq::new((i - count) as nat, |k: int| '0'),
        decreases width - i,
    {
        push_char(&mut out, '0');
        proof {
            assert(out@ =~= Seq::new((i + 1 - count) as nat, |k: int| '0'));
        }
        i = i + 1;
    }
    push_str(&mut out, digits.as_str());
    proof {
        if count < width {
            assert(i == width);
        } else {
            assert(out@ =~= digits@);
        }
        assert(out@ =~= zero_padded(hex(n as nat), width as nat));
    }
    out
}

/// Whether `c` has Unicode's `White_Space` property.
pub open spec fn is_whitespace(c: char) -> bool {
    let u = c as u32;
    ||| (0x9 <= u && u <= 0xd)
    ||| u == 0x20
    ||| u == 0x85
    ||| u == 0xa0
    ||| u == 0x1680
    ||| (0x2000 <= u && u <= 0x200a)
    ||| u == 0x2028
    ||| u == 0x2029
    ||| u == 0x202f
    ||| u == 0x205f
    ||| u == 0x3000
}

/// `s` without its trailing whitespace.
pub open spec fn trim_end(s: Seq<char>) -> Seq<char>
    decreases s.len(),
{
    if s.len() > 0 && is_whitespace(s.last()) {
        trim_end(s.drop_last())
    } else {
        s
    }
}

/// Whether `c` is whitespace, as `char::is_whitespace` decides.
pub fn whitespace(c: char) -> (r: bool)
    ensures
        r == is_whitespace(c),
{
    let u = c as u32;
    (0x9 <= u && u <= 0xd) || u == 0x20 || u == 0x85 || u == 0xa0 || u == 0x1680 || (0x2000 <= u
        && u <= 0x200a) || u == 0x2028 || u == 0x2029 || u == 0x202f || u == 0x205f || u == 0x3000
}

/// `s` without trailing whitespace, as `str::trim_end` gives it.
pub fn trimmed_end(s: &str) -> (r: String)
    ensures
        r@ == trim_end(s@),
{
    let chars = chars_of(s);
    let mut end: usize = chars.len();
    proof {
        assert(chars@.take(chars.len() as int) =~= s@);
    }
    while end > 0 && whitespace(chars[end - 1])
        invariant
            end <= chars.len(),
            chars@ == s@,
            trim_end(chars@.take(end as int)) == trim_end(s@),
        decreases end,
    {
        proof {
            assert(chars@.take(end as int).drop_last() =~= chars@.take(end - 1));
        }
        end = end - 1;
    }
    let mut out = String::new();
    let mut i: usize = 0;
    while i < end
        invariant
            i <= end,
            end <= chars.len(),
            out@ == chars@.take(i as int),
        decreases end - i,
    {
        push_char(&mut out, chars[i]);
        proof {
            assert(out@ =~= chars@.take(i + 1));
        }
        i = i + 1;
    }
    proof {
        assert(chars@ =~= s@);
        assert(chars@.take(chars.len() as int) =~= s@);
        if end > 0 {
            assert(chars@.take(end as int).last() == chars@[end - 1]);
        }
    }
    out
}


/// Whether two string slices hold the same characters.
pub fn same(a: &str, b: &str) -> (r: bool)
    ensures
        r == (a@ == b@),
{
    let x = chars_of(a);
    let y = chars_of(b);
    if x.len() != y.len() {
        return false;
    }
    let mut i: usize = 0;
    while i < x.len()
        invariant
            i <= x.len(),
            x.len() == y.len(),
            x@ == a@,
            y@ == b@,
            x@.take(i as int) == y@.take(i as int),
        decreases x.len() - i,
    {
        if x[i] != y[i] {
            proof {
                assert(a@[i as int] != b@[i as int]);
            }
            return false;
        }
        proof {
            assert(x@.take(i + 1) =~= x@.take(i as int).push(x@[i as int]));
            assert(y@.take(i + 1) =~= y@.take(i as int).push(y@[i as int]));
        }
        i = i + 1;
    }
    proof {
        assert(x@.take(x.len() as int) =~= a@);
        assert(y@.take(y.len() as int) =~= b@);
    }
    true
}

/// A string holding exactly the characters of `chars`.
pub fn string_of(chars: &[char]) -> (r: String)
    ensures
        r@ == chars@,
{
    let mut out = String::new();
    let mut i: usize = 0;
    while i < chars.len()
        invariant
            i <= chars.len(),
            out@ == chars@.take(i as int),
        decreases chars.len() - i,
    {
        push_char(&mut out, chars[i]);
        proof {
            assert(out@ =~= chars@.take(i + 1));
        }
        i = i + 1;
    }
    proof {
        assert(chars@.take(chars.len() as int) =~= chars@);
    }
    out
}

/// A line as `str::lines` yields it once its `\n` has been seen: without a
/// `\r` that preceded the newline.
pub open spec fn strip_cr(line: Seq<char>) -> Seq<char> {
    if line.len() > 0 && line.last() == '\r' {
        line.drop_last()
    } else {
        line
    }
}

/// The lines finished so far, and the one in progress, after reading `s`.
pub open spec fn line_scan(s: Seq<char>) -> (Seq<Seq<char>>, Seq<char>)
    decreases s.len(),
{
    if s.len() == 0 {
        (Seq::empty(), Seq::empty())
    } else {
        let (done, current) = line_scan(s.drop_last());
        if s.last() == '\n' {
            (done.push(strip_cr(current)), Seq::empty())
        } else {
            (done, current.push(s.last()))
        }
    }
}

/// The lines of `s` as `str::lines` yields them: split at `\n` or `\r\n`,
/// terminators removed, and a final line ending optional.
pub open spec fn lines_of(s: Seq<char>) -> Seq<Seq<char>> {
    let (done, current) = line_scan(s);
    if current.len() > 0 {
        done.push(current)
    } else {
        done
    }
}

/// The lines of `text`, as `str::lines` yields them.
pub fn lines(text: &str) -> (r: Vec<String>)
    ensures
        views(r@) == lines_of(text@),
{
    let chars = chars_of(text);
    let mut done: Vec<String> = Vec::new();
    let mut current: Vec<char> = Vec::new();
    let mut i: usize = 0;
    while i < chars.len()
        invariant
            i <= chars.len(),
            chars@ == text@,
            (views(done@), current@) == line_scan(chars@.take(i as int)),
        decreases chars.len() - i,
    {
        proof {
            assert(chars@.take(i + 1).drop_last() =~= chars@.take(i as int));
        }
        if chars[i] == '\n' {
            let n = current.len();
            if n > 0 && current[n - 1] == '\r' {
                current.pop();
            }
            let line = string_of(current.as_slice());
            let ghost old_done = done@;
            done.push(line);
            proof {
                assert(views(done@) =~= views(old_done).push(line@));
            }
            current = Vec::new();
        } else {
            current.push(chars[i]);
        }
        i = i + 1;
    }
    proof {
        assert(chars@.take(chars.len() as int) =~= text@);
    }
    if current.len() > 0 {
        let line = string_of(current.as_slice());
        let ghost old_done = done@;
        done.push(line);
        proof {
            assert(views(done@) =~= views(old_done).push(line@));
        }
    }
    done
}

/// What `str::to_lowercase` makes of a string: its Unicode lowercase
/// mapping, which may depend on a character's neighbours (a final sigma).
pub uninterp spec fn lower(s: Seq<char>) -> Seq<char>;

/// Lowercase a string.
///
/// Trusted: `str::to_lowercase`, which maps each character by Unicode's
/// lowercase rules (a character may become several). The contract names the
/// result `lower(s)` and claims only that it is a function of the input.
#[verifier::external_body]
pub(crate) fn lowercase(s: &str) -> (r: String)
    ensures
        r@ == lower(s@),
{
    s.to_lowercase()
}

/// Whether `char::is_uppercase` holds of `c` (Unicode's `Uppercase`
/// property).
pub uninterp spec fn upper(c: char) -> bool;

/// Trusted: `char::is_uppercase`. The contract names the result `upper(c)`.
#[verifier::external_body]
pub(crate) fn is_uppercase(c: char) -> (r: bool)
    ensures
        r == upper(c),
{
    c.is_uppercase()
}

/// Whether `char::is_alphanumeric` holds of `c` (Unicode's `Alphabetic` or
/// `Numeric`).
pub uninterp spec fn alnum(c: char) -> bool;

/// Trusted: `char::is_alphanumeric`. The contract names the result
/// `alnum(c)`.
#[verifier::external_body]
pub(crate) fn is_alphanumeric(c: char) -> (r: bool)
    ensures
        r == alnum(c),
{
    c.is_alphanumeric()
}

/// Whether `c` is an ASCII letter or digit.
pub open spec fn ascii_alnum(c: char) -> bool {
    ('0' <= c && c <= '9') || ('a' <= c && c <= 'z') || ('A' <= c && c <= 'Z')
}

pub fn is_ascii_alnum(c: char) -> (r: bool)
    ensures
        r == ascii_alnum(c),
{
    ('0' <= c && c <= '9') || ('a' <= c && c <= 'z') || ('A' <= c && c <= 'Z')
}
} // verus!
