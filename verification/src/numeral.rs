//! Decimal numerals: rendering unsigned values into digit strings and
//! parsing byte values out of tokens.

use vstd::prelude::*;
use crate::text::is_space;

verus! {

/// An ASCII decimal digit.
pub open spec fn is_digit(c: char) -> bool {
    0x30 <= c as u32 && c as u32 <= 0x39
}

/// The numeric value of an ASCII decimal digit.
pub open spec fn digit_val(c: char) -> int {
    c as u32 - 0x30
}

/// The digit character with the given value below ten.
pub open spec fn digit_of(d: int) -> char {
    if d == 0 {
        '0'
    } else if d == 1 {
        '1'
    } else if d == 2 {
        '2'
    } else if d == 3 {
        '3'
    } else if d == 4 {
        '4'
    } else if d == 5 {
        '5'
    } else if d == 6 {
        '6'
    } else if d == 7 {
        '7'
    } else if d == 8 {
        '8'
    } else {
        '9'
    }
}

/// Digit characters carry their value back, and are neither
/// whitespace nor any character the grammar treats specially.
pub proof fn lemma_digit_facts(d: int)
    requires
        0 <= d < 10,
    ensures
        is_digit(digit_of(d)),
        digit_val(digit_of(d)) == d,
        !is_space(digit_of(d)),
        digit_of(d) != '\n',
        digit_of(d) != '\r',
        digit_of(d) != '#',
        digit_of(d) != '+',
{
}

/// Decides [`is_digit`] on a concrete character.
pub fn digit_char(c: char) -> (r: bool)
    ensures
        r == is_digit(c),
{
    let u = c as u32;
    0x30 <= u && u <= 0x39
}

/// The value of a concrete digit character, as a byte.
pub fn digit_char_val(c: char) -> (r: u8)
    requires
        is_digit(c),
    ensures
        r == digit_val(c),
{
    (c as u32 - 0x30) as u8
}

/// The digit character for a concrete value below ten.
pub fn char_of_digit(d: u8) -> (r: char)
    requires
        d < 10,
    ensures
        r == digit_of(d as int),
{
    if d == 0 {
        '0'
    } else if d == 1 {
        '1'
    } else if d == 2 {
        '2'
    } else if d == 3 {
        '3'
    } else if d == 4 {
        '4'
    } else if d == 5 {
        '5'
    } else if d == 6 {
        '6'
    } else if d == 7 {
        '7'
    } else if d == 8 {
        '8'
    } else {
        '9'
    }
}

/// The decimal rendering of a natural number: most significant digit
/// first, no sign, no leading zeros (a single `0` for zero).
pub open spec fn dec_of(n: nat) -> Seq<char>
    decreases n,
{
    if n < 10 {
        seq![digit_of(n as int)]
    } else {
        dec_of(n / 10).push(digit_of((n % 10) as int))
    }
}

/// Every character of a decimal rendering is a digit.
pub proof fn lemma_dec_of_digits(n: nat)
    ensures
        dec_of(n).len() >= 1,
        forall|i: int| 0 <= i < dec_of(n).len() ==> is_digit(#[trigger] dec_of(n)[i]),
    decreases n,
{
    if n < 10 {
        lemma_digit_facts(n as int);
    } else {
        lemma_dec_of_digits(n / 10);
        lemma_digit_facts((n % 10) as int);
    }
}

/// The value of a digit string, read most significant digit first.
pub open spec fn digits_val(s: Seq<char>) -> int
    decreases s.len(),
{
    if s.len() == 0 {
        0
    } else {
        digits_val(s.drop_last()) * 10 + digit_val(s.last())
    }
}

/// Reading a decimal rendering back gives the number it came from.
pub proof fn lemma_dec_of_val(n: nat)
    ensures
        digits_val(dec_of(n)) == n,
    decreases n,
{
    if n < 10 {
        lemma_digit_facts(n as int);
        assert(dec_of(n).drop_last() =~= Seq::<char>::empty());
        assert(dec_of(n).last() == digit_of(n as int));
        assert(digits_val(dec_of(n)) == digits_val(Seq::<char>::empty()) * 10 + digit_val(
            digit_of(n as int),
        ));
        assert(digits_val(dec_of(n)) == n);
    } else {
        lemma_dec_of_val(n / 10);
        lemma_digit_facts((n % 10) as int);
        assert(dec_of(n).drop_last() == dec_of(n / 10));
        assert(dec_of(n).last() == digit_of((n % 10) as int));
        assert(digits_val(dec_of(n)) == (n / 10) * 10 + (n % 10));
        vstd::arithmetic::div_mod::lemma_fundamental_div_mod(n as int, 10);
        assert(n == 10 * (n as int / 10) + (n as int % 10));
        assert(digits_val(dec_of(n)) == n);
    }
}

/// Every character of the sequence is a decimal digit.
pub open spec fn all_digits(s: Seq<char>) -> bool {
    forall|i: int| 0 <= i < s.len() ==> is_digit(#[trigger] s[i])
}

/// How a digit string (with no sign) reads as a byte: every
/// character must be a digit and the value must fit.
pub open spec fn parse_digits(d: Seq<char>) -> Option<u8> {
    if d.len() == 0 {
        None
    } else if !all_digits(d) {
        None
    } else if digits_val(d) <= 255 {
        Some(digits_val(d) as u8)
    } else {
        None
    }
}

/// What it means for a token to parse as a byte, the way the decoder
/// reads a channel value: an optional leading plus sign, then one or
/// more decimal digits whose value is at most 255.
pub open spec fn parse_u8(t: Seq<char>) -> Option<u8> {
    parse_digits(
        if t.len() > 0 && t[0] == '+' {
            t.skip(1)
        } else {
            t
        },
    )
}

/// A decimal rendering of a byte parses back to that byte.
pub proof fn lemma_parse_dec_of(n: nat)
    requires
        n <= 255,
    ensures
        parse_u8(dec_of(n)) == Some(n as u8),
{
    lemma_dec_of_digits(n);
    lemma_dec_of_val(n);
    assert(is_digit(dec_of(n)[0]));
    assert(dec_of(n)[0] != '+');
    assert(all_digits(dec_of(n)));
    assert(parse_u8(dec_of(n)) == parse_digits(dec_of(n)));
}

/// The value of a digit string is never negative.
proof fn lemma_digits_val_nonneg(s: Seq<char>)
    requires
        forall|i: int| 0 <= i < s.len() ==> is_digit(#[trigger] s[i]),
    ensures
        digits_val(s) >= 0,
    decreases s.len(),
{
    if s.len() > 0 {
        lemma_digits_val_nonneg(s.drop_last());
    }
}

/// Parses a token as a byte value, exactly as [`parse_u8`] reads it.
pub fn parse_byte(t: &Vec<char>) -> (r: Option<u8>)
    ensures
        r == parse_u8(t@),
{
    let mut start: usize = 0;
    if t.len() > 0 && t[0] == '+' {
        start = 1;
    }
    let ghost d = if t@.len() > 0 && t@[0] == '+' {
        t@.skip(1)
    } else {
        t@
    };
    if start >= t.len() {
        assert(d.len() == 0);
        assert(parse_u8(t@) == parse_digits(d));
        return None;
    }
    let mut acc: u32 = 0;
    let mut i = start;
    while i < t.len()
        invariant
            start <= i <= t@.len(),
            start <= 1,
            d == (if t@.len() > 0 && t@[0] == '+' {
                t@.skip(1)
            } else {
                t@
            }),
            d.len() == t@.len() - start,
            forall|j: int| 0 <= j < d.len() ==> d[j] == t@[j + start],
            forall|j: int| 0 <= j < i - start ==> is_digit(#[trigger] d[j]),
            acc <= 2559,
            digits_val(d.take(i - start)) <= 255 ==> acc == digits_val(d.take(i - start)),
            digits_val(d.take(i - start)) > 255 ==> acc > 255,
        decreases t@.len() - i,
    {
        let c = t[i];
        let ghost p = d.take(i - start);
        assert(c == d[i - start]);
        if !digit_char(c) {
            proof {
                let w = i - start;
                assert(0 <= w < d.len());
                assert(!is_digit(d[w]));
                assert(!all_digits(d));
                assert(parse_digits(d) is None);
                assert(parse_u8(t@) == parse_digits(d));
            }
            return None;
        }
        let v = digit_char_val(c);
        proof {
            assert(d.take(i + 1 - start) =~= p.push(c));
            assert(p.push(c).drop_last() =~= p);
            assert(digits_val(p.push(c)) == digits_val(p) * 10 + digit_val(c));
            lemma_digits_val_nonneg(p);
        }
        if acc > 255 {
            acc = 256;
            assert(digits_val(d.take(i + 1 - start)) > 255);
        } else {
            acc = acc * 10 + (v as u32);
        }
        i = i + 1;
    }
    proof {
        assert(d.take(i - start) =~= d);
        assert(all_digits(d));
        assert(parse_u8(t@) == parse_digits(d));
    }
    if acc <= 255 {
        Some(acc as u8)
    } else {
        None
    }
}

/// Appends the decimal rendering of a number to a character vector.
pub fn push_dec(v: &mut Vec<char>, n: usize)
    ensures
        final(v)@ == old(v)@ + dec_of(n as nat),
    decreases n,
{
    if n < 10 {
        let c = char_of_digit(n as u8);
        v.push(c);
        assert(v@ =~= old(v)@ + dec_of(n as nat));
    } else {
        push_dec(v, n / 10);
        let c = char_of_digit((n % 10) as u8);
        v.push(c);
        assert(v@ =~= old(v)@ + dec_of(n as nat));
    }
}

/// A channel value rendered right-aligned in a field of width three,
/// padded with spaces: the shape of one field of a record line.
pub open spec fn pad3(n: u8) -> Seq<char> {
    if n < 10 {
        seq![' ', ' '] + dec_of(n as nat)
    } else if n < 100 {
        seq![' '] + dec_of(n as nat)
    } else {
        dec_of(n as nat)
    }
}

/// A padded field is three characters long.
pub proof fn lemma_pad3_len(n: u8)
    ensures
        pad3(n).len() == 3,
{
    if n < 10 {
    } else if n < 100 {
        assert(10 <= n / 10 < 10 || true);
        assert(dec_of(n as nat) == dec_of(n as nat / 10).push(digit_of((n as nat % 10) as int)));
        assert(n as nat / 10 < 10);
    } else {
        assert(dec_of(n as nat) == dec_of(n as nat / 10).push(digit_of((n as nat % 10) as int)));
        assert(n as nat / 10 >= 10);
        assert(dec_of(n as nat / 10) == dec_of(n as nat / 10 / 10).push(
            digit_of((n as nat / 10 % 10) as int),
        ));
        assert(n as nat / 10 / 10 < 10);
    }
}

/// A digit character is not whitespace, nor any character the
/// grammar treats specially.
pub proof fn lemma_digit_not_special(c: char)
    requires
        is_digit(c),
    ensures
        !is_space(c),
        c != '\n',
        c != '\r',
        c != '#',
        c != '+',
{
}

/// A padded field splits into its leading spaces and the decimal
/// digits of the value; the returned index is where the digits start.
pub proof fn lemma_pad3_parts(n: u8) -> (k: int)
    ensures
        0 <= k <= 2,
        pad3(n).len() == 3,
        forall|j: int| 0 <= j < k ==> pad3(n)[j] == ' ',
        pad3(n).skip(k) == dec_of(n as nat),
{
    lemma_pad3_len(n);
    if n >= 100 {
        assert(pad3(n).skip(0) =~= dec_of(n as nat));
        0
    } else if n >= 10 {
        assert(pad3(n).skip(1) =~= dec_of(n as nat));
        1
    } else {
        assert(pad3(n).skip(2) =~= dec_of(n as nat));
        2
    }
}

/// Appends a width-three padded channel value to a character vector.
pub fn push_pad3(v: &mut Vec<char>, n: u8)
    ensures
        final(v)@ == old(v)@ + pad3(n),
{
    if n < 10 {
        v.push(' ');
        v.push(' ');
    } else if n < 100 {
        v.push(' ');
    }
    push_dec(v, n as usize);
    assert(v@ =~= old(v)@ + pad3(n));
}

} // verus!

