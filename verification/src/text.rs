//! Character classes and conversions between `str`/`String` and character
//! vectors, shared by the tokenizer, the parser and the renderers.
use vstd::prelude::*;

verus! {

/// The characters of `s`, in order.
pub fn chars_of(s: &str) -> (v: Vec<char>)
    ensures
        v@ == s@,
{
    broadcast use vstd::string::axiom_spec_iter;
    let mut v: Vec<char> = Vec::new();
    for c in it: s.chars()
        invariant
            it.seq() == s@,
            v@ == it.seq().take(it.index()),
    {
        v.push(c);
    }
    v
}

/// A `String` holding exactly the characters of `chars`.
///
/// Trusted: calls `<String as FromIterator<char>>::from_iter`, which std
/// documents as appending each character in turn.
#[verifier::external_body]
pub(crate) fn string_from_chars(chars: &Vec<char>) -> (s: String)
    ensures
        s@ == chars@,
{
    chars.iter().collect()
}

/// The Unicode `White_Space` property, which `char::is_whitespace` tests.
pub open spec fn is_white_space(c: char) -> bool {
    let u = c as u32;
    ||| 0x09 <= u <= 0x0D
    ||| u == 0x20
    ||| u == 0x85
    ||| u == 0xA0
    ||| u == 0x1680
    ||| 0x2000 <= u <= 0x200A
    ||| u == 0x2028
    ||| u == 0x2029
    ||| u == 0x202F
    ||| u == 0x205F
    ||| u == 0x3000
}

pub open spec fn is_ascii_alpha(c: char) -> bool {
    ('a' <= c <= 'z') || ('A' <= c <= 'Z')
}

pub open spec fn is_ascii_dec_digit(c: char) -> bool {
    '0' <= c <= '9'
}

pub open spec fn is_ascii_hex_digit(c: char) -> bool {
    is_ascii_dec_digit(c) || ('a' <= c <= 'f') || ('A' <= c <= 'F')
}

/// `c` mapped to lower case when it is an ASCII upper-case letter.
pub open spec fn ascii_lower(c: char) -> char {
    if 'A' <= c <= 'Z' {
        ((c as u32) + 32) as char
    } else {
        c
    }
}

/// ASCII case-insensitive equality of two character sequences, as
/// `str::eq_ignore_ascii_case` defines it.
pub open spec fn eq_ignore_ascii_case(a: Seq<char>, b: Seq<char>) -> bool {
    &&& a.len() == b.len()
    &&& forall|i: int| 0 <= i < a.len() ==> #[trigger] ascii_lower(a[i]) == ascii_lower(b[i])
}

/// Whether `c` has the Unicode `White_Space` property.
pub fn white_space(c: char) -> (b: bool)
    ensures
        b == is_white_space(c),
{
    let u = c as u32;
    (0x09 <= u && u <= 0x0D) || u == 0x20 || u == 0x85 || u == 0xA0 || u == 0x1680
        || (0x2000 <= u && u <= 0x200A) || u == 0x2028 || u == 0x2029 || u == 0x202F
        || u == 0x205F || u == 0x3000
}

pub fn ascii_alpha(c: char) -> (b: bool)
    ensures
        b == is_ascii_alpha(c),
{
    ('a' <= c && c <= 'z') || ('A' <= c && c <= 'Z')
}

pub fn ascii_dec_digit(c: char) -> (b: bool)
    ensures
        b == is_ascii_dec_digit(c),
{
    '0' <= c && c <= '9'
}

pub fn ascii_hex_digit(c: char) -> (b: bool)
    ensures
        b == is_ascii_hex_digit(c),
{
    ('0' <= c && c <= '9') || ('a' <= c && c <= 'f') || ('A' <= c && c <= 'F')
}

pub fn to_ascii_lower(c: char) -> (l: char)
    ensures
        l == ascii_lower(c),
{
    if 'A' <= c && c <= 'Z' {
        let u = (c as u32) + 32;
        proof {
            assert(0x61 <= u <= 0x7A);
        }
        (u as u8) as char
    } else {
        c
    }
}

/// ASCII case-insensitive comparison of `a` with `b`.
pub fn chars_eq_ignore_ascii_case(a: &[char], b: &[char]) -> (r: bool)
    ensures
        r == eq_ignore_ascii_case(a@, b@),
{
    if a.len() != b.len() {
        return false;
    }
    let mut i: usize = 0;
    while i < a.len()
        invariant
            a@.len() == b@.len(),
            i <= a@.len(),
            forall|k: int| 0 <= k < i ==> #[trigger] ascii_lower(a@[k]) == ascii_lower(b@[k]),
        decreases a@.len() - i,
    {
        if to_ascii_lower(a[i]) != to_ascii_lower(b[i]) {
            return false;
        }
        i = i + 1;
    }
    true
}


// ---------------------------------------------------------------------------
// Number and padding formatting
// ---------------------------------------------------------------------------

/// The digit character of `d` (`0`-`9`, then lower-case `a`-`f`).
pub open spec fn digit_char(d: nat) -> char {
    if d < 10 {
        ((d + 0x30) as u32) as char
    } else {
        ((d - 10 + 0x61) as u32) as char
    }
}

/// `n` written in base `base` without leading zeros (`0` for zero), as the
/// `{}` and `{:x}` formats write a `u64`.
pub open spec fn digits(n: nat, base: nat) -> Seq<char>
    recommends
        base >= 2,
    decreases n,
    via digits_decreases
{
    if base < 2 || n < base {
        seq![digit_char(n)]
    } else {
        digits(n / base, base).push(digit_char(n % base))
    }
}

#[via_fn]
proof fn digits_decreases(n: nat, base: nat) {
    if !(base < 2 || n < base) {
        assert(n / base < n) by (nonlinear_arith)
            requires
                base >= 2,
                n >= base,
        ;
    }
}

/// `s` preceded by as many `fill` characters as it takes to reach `width`
/// characters (right alignment).
pub open spec fn pad_left(s: Seq<char>, width: nat, fill: char) -> Seq<char> {
    if s.len() >= width {
        s
    } else {
        Seq::new((width - s.len()) as nat, |i: int| fill) + s
    }
}

/// `s` followed by as many spaces as it takes to reach `width` characters
/// (left alignment).
pub open spec fn pad_right(s: Seq<char>, width: nat) -> Seq<char> {
    if s.len() >= width {
        s
    } else {
        s + Seq::new((width - s.len()) as nat, |i: int| ' ')
    }
}

/// `n` copies of `c`.
pub open spec fn repeat_char(c: char, n: nat) -> Seq<char> {
    Seq::new(n, |i: int| c)
}

fn digit_char_exec(d: u64) -> (c: char)
    requires
        d < 16,
    ensures
        c == digit_char(d as nat),
{
    if d < 10 {
        ((d + 0x30) as u8) as char
    } else {
        ((d - 10 + 0x61) as u8) as char
    }
}

/// Appends the digits of `n` in base `base` (10 or 16) to `out`.
pub fn push_digits(out: &mut Vec<char>, n: u64, base: u64)
    requires
        base == 10 || base == 16,
    ensures
        final(out)@ == old(out)@ + digits(n as nat, base as nat),
    decreases n,
{
    if n < base {
        out.push(digit_char_exec(n));
        proof {
            assert(digits(n as nat, base as nat) == seq![digit_char(n as nat)]);
        }
    } else {
        push_digits(out, n / base, base);
        out.push(digit_char_exec(n % base));
        proof {
            assert(digits(n as nat, base as nat) == digits((n / base) as nat, base as nat).push(
                digit_char((n % base) as nat),
            ));
        }
    }
}

/// Appends `n` copies of `c` to `out`.
pub fn push_repeated(out: &mut Vec<char>, c: char, n: usize)
    ensures
        final(out)@ == old(out)@ + repeat_char(c, n as nat),
{
    let mut i: usize = 0;
    while i < n
        invariant
            i <= n,
            out@ == old(out)@ + repeat_char(c, i as nat),
        decreases n - i,
    {
        out.push(c);
        i = i + 1;
        proof {
            assert(out@ =~= old(out)@ + repeat_char(c, i as nat));
        }
    }
}

/// Appends `s` to `out`, right-aligned in `width` characters with `fill`.
pub fn push_padded_left(out: &mut Vec<char>, s: &Vec<char>, width: usize, fill: char)
    ensures
        final(out)@ == old(out)@ + pad_left(s@, width as nat, fill),
{
    if s.len() < width {
        push_repeated(out, fill, width - s.len());
    }
    push_all(out, s);
    proof {
        assert(out@ =~= old(out)@ + pad_left(s@, width as nat, fill));
    }
}

/// Appends `s` to `out`, left-aligned in `width` characters.
pub fn push_padded_right(out: &mut Vec<char>, s: &Vec<char>, width: usize)
    ensures
        final(out)@ == old(out)@ + pad_right(s@, width as nat),
{
    push_all(out, s);
    if s.len() < width {
        push_repeated(out, ' ', width - s.len());
    }
    proof {
        assert(out@ =~= old(out)@ + pad_right(s@, width as nat));
    }
}

/// Appends all of `s` to `out`.
pub fn push_all(out: &mut Vec<char>, s: &Vec<char>)
    ensures
        final(out)@ == old(out)@ + s@,
{
    let mut i: usize = 0;
    while i < s.len()
        invariant
            i <= s@.len(),
            out@ == old(out)@ + s@.take(i as int),
        decreases s@.len() - i,
    {
        out.push(s[i]);
        i = i + 1;
        proof {
            assert(out@ =~= old(out)@ + s@.take(i as int));
        }
    }
    proof {
        assert(s@.take(s@.len() as int) =~= s@);
    }
}

/// The decimal digits of `n`, as the `{}` format writes them.
pub fn decimal(n: u64) -> (d: Vec<char>)
    ensures
        d@ == digits(n as nat, 10),
{
    let mut d: Vec<char> = Vec::new();
    push_digits(&mut d, n, 10);
    proof {
        assert(d@ =~= digits(n as nat, 10));
    }
    d
}

/// The lower-case hexadecimal digits of `n`, as the `{:x}` format writes them.
pub fn lower_hex(n: u64) -> (d: Vec<char>)
    ensures
        d@ == digits(n as nat, 16),
{
    let mut d: Vec<char> = Vec::new();
    push_digits(&mut d, n, 16);
    proof {
        assert(d@ =~= digits(n as nat, 16));
    }
    d
}

} // verus!
