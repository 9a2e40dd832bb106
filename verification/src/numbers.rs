//! Decimal and hexadecimal numbers written as text: parsing as `str::parse`
//! and `u8::from_str_radix` do it, and formatting as `{}` and `{:02X}` do it.
use vstd::prelude::*;
use crate::text::push_char;

verus! {

/// A decimal digit character.
pub open spec fn is_digit(c: char) -> bool {
    '0' <= c && c <= '9'
}

/// The value of a decimal digit character.
pub open spec fn digit_val(c: char) -> nat {
    (c as int - '0' as int) as nat
}

/// Every character of `s` is a decimal digit.
pub open spec fn all_digits(s: Seq<char>) -> bool {
    forall|i: int| 0 <= i < s.len() ==> is_digit(#[trigger] s[i])
}

/// The number that the digits `s` write in base ten.
pub open spec fn digits_value(s: Seq<char>) -> nat
    decreases s.len(),
{
    if s.len() == 0 {
        0
    } else {
        digits_value(s.drop_last()) * 10 + digit_val(s.last())
    }
}

/// `s` without one leading `'+'`: the part that must be digits when an
/// unsigned integer is parsed.
pub open spec fn unsigned_body(s: Seq<char>) -> Seq<char> {
    if s.len() > 0 && s[0] == '+' {
        s.drop_first()
    } else {
        s
    }
}

/// What `s.parse::<u32>()` gives: an optional `'+'`, then at least one
/// decimal digit and nothing else, with a value that fits in a `u32`.
pub open spec fn parse_u32_spec(s: Seq<char>) -> Option<u32> {
    let b = unsigned_body(s);
    if b.len() > 0 && all_digits(b) && digits_value(b) <= u32::MAX {
        Some(digits_value(b) as u32)
    } else {
        None
    }
}

proof fn lemma_digits_value_monotone(s: Seq<char>, i: int)
    requires
        0 <= i <= s.len(),
        all_digits(s),
    ensures
        digits_value(s.take(i)) <= digits_value(s),
    decreases s.len() - i,
{
    if i < s.len() {
        lemma_digits_value_monotone(s, i + 1);
        assert(s.take(i + 1).drop_last() == s.take(i));
    } else {
        assert(s.take(i) == s);
    }
}

/// The value of a decimal digit.
fn digit_value(c: char) -> (d: u32)
    requires
        is_digit(c),
    ensures
        d == digit_val(c),
        d < 10,
{
    (c as u32) - ('0' as u32)
}

/// `s.parse::<u32>().ok()`.
pub fn parse_u32(s: &[char]) -> (r: Option<u32>)
    ensures
        r == parse_u32_spec(s@),
{
    let start: usize = if s.len() > 0 && s[0] == '+' {
        1
    } else {
        0
    };
    let ghost b = unsigned_body(s@);
    assert(b == s@.skip(start as int));
    if start >= s.len() {
        return None;
    }
    let mut v: u64 = 0;
    let mut i: usize = start;
    while i < s.len()
        invariant
            start <= i <= s.len(),
            b == s@.skip(start as int),
            b == unsigned_body(s@),
            v == digits_value(b.take(i - start)),
            v <= u32::MAX,
            all_digits(b.take(i - start)),
        decreases s.len() - i,
    {
        let c = s[i];
        if !('0' <= c && c <= '9') {
            assert(b[i - start] == c);
            assert(!is_digit(b[i - start]));
            return None;
        }
        let d = digit_value(c);
        assert(b.take(i - start + 1).drop_last() == b.take(i - start));
        assert(b[i - start] == c);
        assert(b.take(i - start + 1).last() == c);
        v = v * 10 + d as u64;
        assert(all_digits(b.take(i - start + 1)));
        if v > 0xffff_ffff {
            proof {
                if all_digits(b) {
                    lemma_digits_value_monotone(b, i - start + 1);
                }
            }
            return None;
        }
        i = i + 1;
    }
    assert(b.take(i - start) == b);
    Some(v as u32)
}

/// The character of a decimal digit `d < 10`.
pub open spec fn digit_char(d: nat) -> char {
    (d + '0' as int) as char
}

/// The decimal numeral of `n`, as `{}` formats an unsigned integer.
pub open spec fn decimal(n: nat) -> Seq<char>
    decreases n,
{
    if n < 10 {
        seq![digit_char(n)]
    } else {
        decimal(n / 10).push(digit_char(n % 10))
    }
}

fn digit_to_char(d: u64) -> (c: char)
    requires
        d < 10,
    ensures
        c == digit_char(d as nat),
{
    match d {
        0 => '0',
        1 => '1',
        2 => '2',
        3 => '3',
        4 => '4',
        5 => '5',
        6 => '6',
        7 => '7',
        8 => '8',
        _ => '9',
    }
}

/// Appends the decimal numeral of `n`.
pub fn push_decimal(out: &mut String, n: u64)
    ensures
        final(out)@ == old(out)@ + decimal(n as nat),
    decreases n,
{
    if n >= 10 {
        push_decimal(out, n / 10);
    }
    let c = digit_to_char(n % 10);
    push_char(out, c);
    proof {
        if n >= 10 {
            assert(old(out)@ + decimal(n as nat) == old(out)@ + decimal((n / 10) as nat) + seq![c]);
        } else {
            assert(decimal(n as nat) == seq![c]);
        }
    }
}

/// The decimal numeral of `n` is digits only, starts with no `'+'`, and
/// reads back as `n`.
pub proof fn lemma_decimal_digits(n: nat)
    ensures
        decimal(n).len() > 0,
        all_digits(decimal(n)),
        digits_value(decimal(n)) == n,
        decimal(n)[0] != '+',
    decreases n,
{
    if n >= 10 {
        lemma_decimal_digits(n / 10);
        let d = decimal(n);
        assert(d.drop_last() == decimal(n / 10));
        assert forall|i: int| 0 <= i < d.len() implies is_digit(#[trigger] d[i]) by {
            if i < d.len() - 1 {
                assert(d[i] == decimal(n / 10)[i]);
            }
        }
        assert(d[0] == decimal(n / 10)[0]);
        lemma_digit_char((n % 10) as nat);
        assert(d.last() == digit_char(n % 10));
        assert(digits_value(d) == digits_value(d.drop_last()) * 10 + digit_val(d.last()));
        assert(digits_value(d) == (n / 10) * 10 + n % 10);
        assert(n == (n / 10) * 10 + n % 10);
    } else {
        lemma_digit_char(n);
        let d = decimal(n);
        assert(d =~= seq![digit_char(n)]);
        assert(d.drop_last() =~= Seq::<char>::empty());
        assert(digits_value(d.drop_last()) == 0);
        assert(d.last() == digit_char(n));
        assert(digits_value(d) == digits_value(d.drop_last()) * 10 + digit_val(d.last()));
    }
}

proof fn lemma_digit_char(d: nat)
    requires
        d < 10,
    ensures
        is_digit(digit_char(d)),
        digit_val(digit_char(d)) == d,
        digit_char(d) != '+',
{
    assert(digit_char(d) as int == d + 48);
}

/// Parsing a decimal numeral gives back the number.
pub proof fn lemma_parse_decimal(n: u32)
    ensures
        parse_u32_spec(decimal(n as nat)) == Some(n),
{
    lemma_decimal_digits(n as nat);
    assert(unsigned_body(decimal(n as nat)) == decimal(n as nat));
}

// ---------------------------------------------------------------------------
// Hexadecimal
// ---------------------------------------------------------------------------

/// A hexadecimal digit character, either case.
pub open spec fn is_hex_digit(c: char) -> bool {
    ('0' <= c && c <= '9') || ('a' <= c && c <= 'f') || ('A' <= c && c <= 'F')
}

/// The value of a hexadecimal digit character.
pub open spec fn hex_val(c: char) -> nat {
    if '0' <= c && c <= '9' {
        (c as int - '0' as int) as nat
    } else if 'a' <= c && c <= 'f' {
        (c as int - 'a' as int + 10) as nat
    } else {
        (c as int - 'A' as int + 10) as nat
    }
}

/// Every character of `s` is a hexadecimal digit.
pub open spec fn all_hex(s: Seq<char>) -> bool {
    forall|i: int| 0 <= i < s.len() ==> is_hex_digit(#[trigger] s[i])
}

/// The number that the hexadecimal digits `s` write.
pub open spec fn hex_value(s: Seq<char>) -> nat
    decreases s.len(),
{
    if s.len() == 0 {
        0
    } else {
        hex_value(s.drop_last()) * 16 + hex_val(s.last())
    }
}

/// What `u8::from_str_radix(s, 16)` gives: an optional `'+'`, then at least
/// one hexadecimal digit and nothing else, with a value below 256.
pub open spec fn parse_hex_u8_spec(s: Seq<char>) -> Option<u8> {
    let b = unsigned_body(s);
    if b.len() > 0 && all_hex(b) && hex_value(b) <= 255 {
        Some(hex_value(b) as u8)
    } else {
        None
    }
}

fn hex_digit_value(c: char) -> (r: Option<u32>)
    ensures
        r matches Some(v) ==> is_hex_digit(c) && v == hex_val(c) && v < 16,
        r is None ==> !is_hex_digit(c),
{
    if '0' <= c && c <= '9' {
        Some((c as u32) - ('0' as u32))
    } else if 'a' <= c && c <= 'f' {
        Some((c as u32) - ('a' as u32) + 10)
    } else if 'A' <= c && c <= 'F' {
        Some((c as u32) - ('A' as u32) + 10)
    } else {
        None
    }
}

/// `u8::from_str_radix(s, 16).ok()` for a string of at most two characters.
pub fn parse_hex_u8(s: &[char]) -> (r: Option<u8>)
    requires
        s.len() <= 2,
    ensures
        r == parse_hex_u8_spec(s@),
{
    let start: usize = if s.len() > 0 && s[0] == '+' {
        1
    } else {
        0
    };
    let ghost b = unsigned_body(s@);
    assert(b == s@.skip(start as int));
    if start >= s.len() {
        return None;
    }
    let c0 = s[start];
    assert(b[0] == c0);
    let d0 = match hex_digit_value(c0) {
        None => {
            assert(!is_hex_digit(b[0]));
            return None;
        },
        Some(d) => d,
    };
    if start + 1 == s.len() {
        assert(b =~= seq![c0]);
        assert(b.drop_last() =~= Seq::<char>::empty());
        assert(all_hex(b));
        assert(hex_value(b.drop_last()) == 0);
        assert(hex_value(b) == hex_value(b.drop_last()) * 16 + hex_val(b.last()));
        return Some(d0 as u8);
    }
    let c1 = s[start + 1];
    assert(b =~= seq![c0, c1]);
    assert(b.drop_last() =~= seq![c0]);
    assert(b.drop_last().drop_last() =~= Seq::<char>::empty());
    match hex_digit_value(c1) {
        None => {
            assert(!is_hex_digit(b[1]));
            None
        },
        Some(d1) => {
            assert(all_hex(b));
            assert(hex_value(b.drop_last().drop_last()) == 0);
            assert(hex_value(b.drop_last()) == hex_value(b.drop_last().drop_last()) * 16 + hex_val(c0));
            assert(hex_value(b) == hex_value(b.drop_last()) * 16 + hex_val(b.last()));
            Some((d0 * 16 + d1) as u8)
        },
    }
}

/// The upper-case hexadecimal digit character of `d < 16`.
pub open spec fn hex_upper_char(d: nat) -> char {
    if d < 10 {
        (d + '0' as int) as char
    } else {
        (d - 10 + 'A' as int) as char
    }
}

/// `b` written as two upper-case hexadecimal digits (`{:02X}`).
pub open spec fn hex2(b: u8) -> Seq<char> {
    seq![hex_upper_char(b as nat / 16), hex_upper_char(b as nat % 16)]
}

proof fn lemma_hex_upper_char(d: nat)
    requires
        d < 16,
    ensures
        is_hex_digit(hex_upper_char(d)),
        hex_val(hex_upper_char(d)) == d,
        hex_upper_char(d) != '+',
        hex_upper_char(d) != '#',
{
}

/// Two upper-case hexadecimal digits read back in base 16 give the byte.
pub proof fn lemma_hex2_parse(b: u8)
    ensures
        parse_hex_u8_spec(hex2(b)) == Some(b),
        hex2(b).len() == 2,
        hex2(b)[0] != '#',
{
    let h = hex2(b);
    lemma_hex_upper_char(b as nat / 16);
    lemma_hex_upper_char(b as nat % 16);
    assert(unsigned_body(h) == h);
    assert(all_hex(h));
    let one = seq![h[0]];
    assert(h.drop_last() =~= one);
    assert(one.drop_last() =~= Seq::<char>::empty());
    assert(hex_value(Seq::<char>::empty()) == 0);
    assert(one.last() == h[0]);
    assert(hex_value(one) == hex_val(h[0]));
    assert(hex_value(h) == (b as nat / 16) * 16 + b as nat % 16);
}

/// The lower-case hexadecimal digit for `d < 16`.
pub open spec fn hex_lower_char(d: nat) -> char {
    if d < 10 {
        (d + '0' as int) as char
    } else {
        (d - 10 + 'a' as int) as char
    }
}

/// `b` written as two lower-case hexadecimal digits (`{:02x}`).
pub open spec fn hex2_lower(b: u8) -> Seq<char> {
    seq![hex_lower_char(b as nat / 16), hex_lower_char(b as nat % 16)]
}

/// Two lower-case hexadecimal digits read back in base 16 give the byte.
pub proof fn lemma_hex2_lower_parse(b: u8)
    ensures
        parse_hex_u8_spec(hex2_lower(b)) == Some(b),
        hex2_lower(b).len() == 2,
        hex2_lower(b)[0] != '#',
{
    let h = hex2_lower(b);
    assert(is_hex_digit(h[0]) && hex_val(h[0]) == b as nat / 16 && h[0] != '+');
    assert(is_hex_digit(h[1]) && hex_val(h[1]) == b as nat % 16);
    assert(unsigned_body(h) == h);
    assert(all_hex(h));
    let one = seq![h[0]];
    assert(h.drop_last() =~= one);
    assert(one.drop_last() =~= Seq::<char>::empty());
    assert(hex_value(Seq::<char>::empty()) == 0);
    assert(one.last() == h[0]);
    assert(hex_value(one) == hex_val(h[0]));
    assert(hex_value(h) == (b as nat / 16) * 16 + b as nat % 16);
}

fn hex_digit_char(d: u8) -> (c: char)
    requires
        d < 16,
    ensures
        c == hex_upper_char(d as nat),
{
    match d {
        0 => '0',
        1 => '1',
        2 => '2',
        3 => '3',
        4 => '4',
        5 => '5',
        6 => '6',
        7 => '7',
        8 => '8',
        9 => '9',
        10 => 'A',
        11 => 'B',
        12 => 'C',
        13 => 'D',
        14 => 'E',
        _ => 'F',
    }
}

/// Appends `b` as two upper-case hexadecimal digits.
pub fn push_hex2(out: &mut String, b: u8)
    ensures
        final(out)@ == old(out)@ + hex2(b),
{
    push_char(out, hex_digit_char(b / 16));
    push_char(out, hex_digit_char(b % 16));
    assert(final(out)@ =~= old(out)@ + hex2(b)) by {
        assert(out@ == old(out)@ + hex2(b));
    }
}

} // verus!
