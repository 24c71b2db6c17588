//! Character-level helpers shared by the SQL builders and the report
//! renderers: building strings, ASCII case folding, Unicode white space,
//! decimal digits and column padding.

use vstd::prelude::*;
use vstd::string::StringExecFns;

verus! {

broadcast use vstd::string::group_string_axioms;

/// The characters of `s`, in order.
pub fn chars_of(s: &str) -> (res: Vec<char>)
    ensures
        res@ == s@,
{
    let mut res: Vec<char> = Vec::new();
    for c in it: s.chars()
        invariant
            it.seq() == s@,
            res@ == it.seq().take(it.index()),
    {
        res.push(c);
    }
    res
}

/// `String::push`, trusted as its documentation states it: the string
/// afterwards is the string before followed by `c`.
#[verifier::external_body]
pub(crate) fn push_char(s: &mut String, c: char)
    ensures
        final(s)@ == old(s)@.push(c),
{
    s.push(c);
}

/// Appends the text of `t` to `s`.
pub fn push_text(s: &mut String, t: &str)
    ensures
        final(s)@ == old(s)@ + t@,
{
    s.append(t);
}

/// Appends the characters of `cs` to `s`.
pub fn push_chars(s: &mut String, cs: &[char])
    ensures
        final(s)@ == old(s)@ + cs@,
{
    let ghost start = s@;
    let n = cs.len();
    for i in 0..n
        invariant
            n == cs@.len(),
            s@ == start + cs@.take(i as int),
    {
        push_char(s, cs[i]);
        assert(cs@.take(i + 1) == cs@.take(i as int).push(cs@[i as int]));
    }
    assert(cs@.take(n as int) == cs@);
}

/// A string holding exactly the characters of `cs`.
pub fn string_of(cs: &[char]) -> (res: String)
    ensures
        res@ == cs@,
{
    let mut res = String::new();
    push_chars(&mut res, cs);
    res
}

/// ASCII upper-case letters become lower-case; every other character is
/// unchanged (`char::to_ascii_lowercase`).
pub open spec fn lower_char(c: char) -> char {
    if 'A' <= c && c <= 'Z' {
        ((c as u32) + 32) as char
    } else {
        c
    }
}

/// ASCII lower-casing of a whole sequence.
pub open spec fn lower_seq(s: Seq<char>) -> Seq<char> {
    s.map_values(|c: char| lower_char(c))
}

pub fn ascii_lower(c: char) -> (res: char)
    ensures
        res == lower_char(c),
{
    if 'A' <= c && c <= 'Z' {
        let code: u32 = (c as u32) + 32;
        assert(code <= 0x7f);
        char_from_ascii(code)
    } else {
        c
    }
}

/// The character with an ASCII code.
fn char_from_ascii(code: u32) -> (res: char)
    requires
        code <= 0x7f,
    ensures
        res == code as char,
{
    let b: u8 = code as u8;
    b as char
}

/// ASCII lower-casing of a character sequence.
pub fn lower_chars(cs: &[char]) -> (res: Vec<char>)
    ensures
        res@ == lower_seq(cs@),
{
    let mut res: Vec<char> = Vec::new();
    let n = cs.len();
    for i in 0..n
        invariant
            n == cs@.len(),
            res@ == lower_seq(cs@.take(i as int)),
    {
        res.push(ascii_lower(cs[i]));
        assert(lower_seq(cs@.take(i + 1)) == lower_seq(cs@.take(i as int)).push(
            lower_char(cs@[i as int]),
        ));
    }
    assert(cs@.take(n as int) == cs@);
    res
}

/// The Unicode `White_Space` property, which `char::is_whitespace` and
/// `str::trim` go by.
pub open spec fn is_space(c: char) -> bool {
    let v = c as u32;
    ||| (0x09 <= v && v <= 0x0d)
    ||| v == 0x20
    ||| v == 0x85
    ||| v == 0xa0
    ||| v == 0x1680
    ||| (0x2000 <= v && v <= 0x200a)
    ||| v == 0x2028
    ||| v == 0x2029
    ||| v == 0x202f
    ||| v == 0x205f
    ||| v == 0x3000
}

pub fn is_whitespace(c: char) -> (res: bool)
    ensures
        res == is_space(c),
{
    let v: u32 = c as u32;
    (0x09 <= v && v <= 0x0d) || v == 0x20 || v == 0x85 || v == 0xa0 || v == 0x1680 || (0x2000
        <= v && v <= 0x200a) || v == 0x2028 || v == 0x2029 || v == 0x202f || v == 0x205f || v
        == 0x3000
}

/// ASCII hexadecimal digits, either case (`char::is_ascii_hexdigit`).
pub open spec fn is_hex_digit(c: char) -> bool {
    ||| ('0' <= c && c <= '9')
    ||| ('a' <= c && c <= 'f')
    ||| ('A' <= c && c <= 'F')
}

pub fn is_ascii_hexdigit(c: char) -> (res: bool)
    ensures
        res == is_hex_digit(c),
{
    ('0' <= c && c <= '9') || ('a' <= c && c <= 'f') || ('A' <= c && c <= 'F')
}

/// Whether two character sequences are equal.
pub fn chars_equal(a: &[char], b: &[char]) -> (res: bool)
    ensures
        res == (a@ == b@),
{
    if a.len() != b.len() {
        return false;
    }
    let n = a.len();
    for i in 0..n
        invariant
            n == a@.len(),
            n == b@.len(),
            forall|j: int| 0 <= j < i ==> a@[j] == b@[j],
    {
        if a[i] != b[i] {
            return false;
        }
    }
    assert(a@ =~= b@);
    true
}

/// Whether two texts are equal once ASCII letters are lower-cased on both
/// sides (`str::eq_ignore_ascii_case`).
pub fn eq_ignore_ascii_case(a: &str, b: &str) -> (res: bool)
    ensures
        res == (lower_seq(a@) == lower_seq(b@)),
{
    let x = chars_of(a);
    let y = chars_of(b);
    let lx = lower_chars(&x);
    let ly = lower_chars(&y);
    chars_equal(&lx, &ly)
}

/// Whether `p` is a prefix of `s`.
pub fn has_prefix(s: &[char], p: &[char]) -> (res: bool)
    ensures
        res == (p@.len() <= s@.len() && s@.take(p@.len() as int) == p@),
{
    if p.len() > s.len() {
        return false;
    }
    let n = p.len();
    for i in 0..n
        invariant
            n == p@.len(),
            n <= s@.len(),
            forall|j: int| 0 <= j < i ==> s@[j] == p@[j],
    {
        if s[i] != p[i] {
            assert(s@.take(n as int)[i as int] != p@[i as int]);
            return false;
        }
    }
    assert(s@.take(n as int) =~= p@);
    true
}

/// The characters of `s` from index `start` on.
pub fn chars_from(s: &[char], start: usize) -> (res: Vec<char>)
    requires
        start <= s@.len(),
    ensures
        res@ == s@.skip(start as int),
{
    let mut res: Vec<char> = Vec::new();
    let n = s.len();
    let mut i: usize = start;
    while i < n
        invariant
            start <= i <= n,
            n == s@.len(),
            res@ == s@.subrange(start as int, i as int),
        decreases n - i,
    {
        res.push(s[i]);
        assert(s@.subrange(start as int, i + 1) == s@.subrange(start as int, i as int).push(
            s@[i as int],
        ));
        i = i + 1;
    }
    res
}

/// The decimal digits of a natural number, most significant first, with no
/// leading zeros (`0` is written `"0"`).
pub open spec fn decimal(n: nat) -> Seq<char>
    decreases n,
{
    if n < 10 {
        seq![digit_char(n)]
    } else {
        decimal(n / 10).push(digit_char(n % 10))
    }
}

pub open spec fn digit_char(d: nat) -> char {
    (('0' as u32) + d) as char
}

/// `n` written in decimal, as `usize::to_string` writes it.
pub fn usize_text(n: usize) -> (res: String)
    ensures
        res@ == decimal(n as nat),
{
    let v = usize_digits(n);
    string_of(&v)
}

fn digit(d: usize) -> (res: char)
    requires
        d < 10,
    ensures
        res == digit_char(d as nat),
{
    let code: u32 = 48 + (d as u32);
    char_from_ascii(code)
}

fn usize_digits(n: usize) -> (res: Vec<char>)
    ensures
        res@ == decimal(n as nat),
    decreases n,
{
    if n < 10 {
        let mut v: Vec<char> = Vec::new();
        v.push(digit(n));
        v
    } else {
        let mut v = usize_digits(n / 10);
        v.push(digit(n % 10));
        v
    }
}

/// An `i64` written in decimal, with a leading `-` when negative, as
/// `i64::to_string` writes it.
pub open spec fn signed_decimal(n: int) -> Seq<char> {
    if n < 0 {
        seq!['-'] + decimal((-n) as nat)
    } else {
        decimal(n as nat)
    }
}

pub fn i64_text(n: i64) -> (res: String)
    ensures
        res@ == signed_decimal(n as int),
{
    if n < 0 {
        let magnitude: u64 = if n == i64::MIN {
            9223372036854775808u64
        } else {
            (-n) as u64
        };
        let mut res = String::new();
        push_char(&mut res, '-');
        let v = u64_digits(magnitude);
        push_chars(&mut res, &v);
        res
    } else {
        let v = u64_digits(n as u64);
        string_of(&v)
    }
}

fn u64_digits(n: u64) -> (res: Vec<char>)
    ensures
        res@ == decimal(n as nat),
    decreases n,
{
    if n < 10 {
        let mut v: Vec<char> = Vec::new();
        v.push(digit(n as usize));
        v
    } else {
        let mut v = u64_digits(n / 10);
        v.push(digit((n % 10) as usize));
        v
    }
}

/// `count` copies of a character.
pub open spec fn repeat_char(c: char, count: nat) -> Seq<char> {
    Seq::new(count, |i: int| c)
}

/// `s` followed by spaces up to `width` characters, as `{:<width$}` lays it
/// out; a longer `s` is left as it is.
pub open spec fn pad_end(s: Seq<char>, width: nat) -> Seq<char> {
    if s.len() >= width {
        s
    } else {
        s + repeat_char(' ', (width - s.len()) as nat)
    }
}

/// Spaces up to `width` characters followed by `s`, as `{:>width$}` lays it
/// out; a longer `s` is left as it is.
pub open spec fn pad_start(s: Seq<char>, width: nat) -> Seq<char> {
    if s.len() >= width {
        s
    } else {
        repeat_char(' ', (width - s.len()) as nat) + s
    }
}

/// Appends `count` spaces.
pub fn push_spaces(s: &mut String, count: usize)
    ensures
        final(s)@ == old(s)@ + repeat_char(' ', count as nat),
{
    let ghost start = s@;
    for i in 0..count
        invariant
            s@ == start + repeat_char(' ', i as nat),
    {
        push_char(s, ' ');
        assert(repeat_char(' ', (i + 1) as nat) =~= repeat_char(' ', i as nat).push(' '));
    }
}

/// Appends `t` left-aligned in a field of `width` characters.
pub fn push_padded_end(s: &mut String, t: &str, width: usize)
    ensures
        final(s)@ == old(s)@ + pad_end(t@, width as nat),
{
    let count = t.unicode_len();
    push_text(s, t);
    if count < width {
        push_spaces(s, width - count);
    }
    assert(old(s)@ + t@ + repeat_char(' ', (width - count) as nat) =~= old(s)@ + (t@
        + repeat_char(' ', (width - count) as nat)));
}

/// Appends `t` right-aligned in a field of `width` characters.
pub fn push_padded_start(s: &mut String, t: &str, width: usize)
    ensures
        final(s)@ == old(s)@ + pad_start(t@, width as nat),
{
    let count = t.unicode_len();
    if count < width {
        push_spaces(s, width - count);
    }
    push_text(s, t);
    assert(old(s)@ + repeat_char(' ', (width - count) as nat) + t@ =~= old(s)@ + (
    repeat_char(' ', (width - count) as nat) + t@));
}

} // verus!
