//! Numbers written in ASCII: the grammar of a decimal literal, and the
//! single-precision pattern it stands for.
//!
//! A literal is an optional sign followed by `inf`, `infinity` or `nan` in any
//! mix of cases, or by a number: digits with at most one point among them, at
//! least one digit in all, and optionally an exponent, which is `e` or `E`, an
//! optional sign and at least one digit. Nothing may stand before or after.

use crate::single::{
    lemma_magnitudes_ascend, lemma_rounded_is, lemma_zero_rounds_to_zero, magnitude, nearest,
    rounded, rounds_to, HIDDEN, INFINITY, SIGN,
};
use vstd::arithmetic::power2::{lemma2_to64, lemma_pow2_adds, lemma_pow2_pos, pow2};
use vstd::prelude::*;

verus! {

/// The pattern that stands for "not a number".
pub const NAN: u32 = 0x7fc0_0000;

/// What a literal says.
pub enum Literal {
    /// A number: `digits` times ten to the power of `exponent`, negated where
    /// `negative`.
    Number { negative: bool, digits: nat, exponent: int },
    /// Infinity, with its sign.
    Infinite { negative: bool },
    /// Not a number, with its sign.
    Undefined { negative: bool },
}

/// Ten to the power of `n`.
pub open spec fn ten_to(n: nat) -> nat
    decreases n,
{
    if n == 0 {
        1
    } else {
        10 * ten_to((n - 1) as nat)
    }
}

/// Whether a byte is an ASCII digit.
pub open spec fn is_digit(byte: u8) -> bool {
    0x30 <= byte <= 0x39
}

/// Whether a byte is an ASCII sign.
pub open spec fn is_sign(byte: u8) -> bool {
    byte == 0x2b || byte == 0x2d
}

/// Whether a byte is the given lower-case letter in either case.
pub open spec fn is_letter(byte: u8, lower: u8) -> bool {
    byte == lower || byte + 0x20 == lower
}

/// Where the run of digits that starts at `from` ends.
pub open spec fn digits_end(text: Seq<u8>, from: int) -> int
    decreases text.len() - from,
{
    if 0 <= from < text.len() && is_digit(text[from]) {
        digits_end(text, from + 1)
    } else {
        from
    }
}

/// The number that the digits from `from` up to `to` spell.
pub open spec fn number(text: Seq<u8>, from: int, to: int) -> nat
    decreases to - from,
{
    if from >= to {
        0
    } else {
        number(text, from, to - 1) * 10 + (text[to - 1] - 0x30) as nat
    }
}

/// Whether the text from `from` to its end is `word`, which is in lower
/// case, in any mix of cases.
pub open spec fn spells(text: Seq<u8>, from: int, word: Seq<u8>) -> bool {
    &&& text.len() - from == word.len()
    &&& forall|i: int| 0 <= i < word.len() ==> is_letter(#[trigger] text[from + i], word[i])
}

/// The letters of `inf`.
pub open spec fn inf_word() -> Seq<u8> {
    seq![0x69u8, 0x6e, 0x66]
}

/// The letters of `infinity`.
pub open spec fn infinity_word() -> Seq<u8> {
    seq![0x69u8, 0x6e, 0x66, 0x69, 0x6e, 0x69, 0x74, 0x79]
}

/// The letters of `nan`.
pub open spec fn nan_word() -> Seq<u8> {
    seq![0x6eu8, 0x61, 0x6e]
}

/// What the text from `start` on says as a number, if it is one.
pub open spec fn number_literal(text: Seq<u8>, start: int, negative: bool) -> Option<Literal> {
    let whole_end = digits_end(text, start);
    let pointed = whole_end < text.len() && text[whole_end] == 0x2e;
    let part_start = if pointed {
        whole_end + 1
    } else {
        whole_end
    };
    let part_end = digits_end(text, part_start);
    let places = part_end - part_start;
    let digits = number(text, start, whole_end) * ten_to(places as nat) + number(
        text,
        part_start,
        part_end,
    );
    if whole_end - start + places == 0 {
        None
    } else if part_end == text.len() {
        Some(Literal::Number { negative, digits, exponent: -places })
    } else if is_letter(text[part_end], 0x65) {
        let mark = part_end + 1;
        let down = mark < text.len() && text[mark] == 0x2d;
        let power_start = if mark < text.len() && is_sign(text[mark]) {
            mark + 1
        } else {
            mark
        };
        let power_end = digits_end(text, power_start);
        let power = number(text, power_start, power_end);
        if power_end == power_start || power_end != text.len() {
            None
        } else {
            Some(
                Literal::Number {
                    negative,
                    digits,
                    exponent: if down {
                        -power - places
                    } else {
                        power - places
                    },
                },
            )
        }
    } else {
        None
    }
}

/// What a text says, if it is a literal.
pub open spec fn literal(text: Seq<u8>) -> Option<Literal> {
    let signed = text.len() > 0 && is_sign(text[0]);
    let negative = signed && text[0] == 0x2d;
    let start: int = if signed {
        1
    } else {
        0
    };
    if spells(text, start, inf_word()) || spells(text, start, infinity_word()) {
        Some(Literal::Infinite { negative })
    } else if spells(text, start, nan_word()) {
        Some(Literal::Undefined { negative })
    } else {
        number_literal(text, start, negative)
    }
}

/// A pattern with its sign bit set where `negative`.
pub open spec fn with_sign(bits: u32, negative: bool) -> u32 {
    if negative {
        (bits + SIGN) as u32
    } else {
        bits
    }
}

/// The single-precision pattern of what a literal says: a number is rounded
/// to the nearest magnitude, the even one of two equally near, and to infinity
/// where it is too large.
pub open spec fn pattern(said: Literal) -> u32 {
    match said {
        Literal::Number { negative, digits, exponent } => with_sign(
            if exponent >= 0 {
                rounded(digits * ten_to(exponent as nat), 1)
            } else {
                rounded(digits, ten_to((-exponent) as nat))
            },
            negative,
        ),
        Literal::Infinite { negative } => with_sign(INFINITY, negative),
        Literal::Undefined { negative } => with_sign(NAN, negative),
    }
}

/// Whether `bits` is the single-precision pattern of what a literal says:
/// the sign is the literal's, and what is left is infinity, not a number, or
/// the pattern that the number's magnitude rounds to.
pub open spec fn renders(said: Literal, bits: u32) -> bool {
    match said {
        Literal::Number { negative, digits, exponent } => {
            let size = if negative {
                (bits - SIGN) as u32
            } else {
                bits
            };
            &&& negative ==> bits >= SIGN
            &&& if exponent >= 0 {
                rounds_to(digits * ten_to(exponent as nat), 1, size)
            } else {
                rounds_to(digits, ten_to((-exponent) as nat), size)
            }
        },
        Literal::Infinite { negative } => bits == with_sign(INFINITY, negative),
        Literal::Undefined { negative } => bits == with_sign(NAN, negative),
    }
}

/// The pattern of the number that four bytes of text spell, where they are
/// a literal.
pub open spec fn spelled(text: Seq<u8>) -> Option<u32> {
    match literal(text) {
        Some(said) => Some(pattern(said)),
        None => None,
    }
}

proof fn lemma_ten_to_grows(low: nat, high: nat)
    requires
        low <= high,
    ensures
        0 < ten_to(low) <= ten_to(high),
    decreases high,
{
    if low < high {
        lemma_ten_to_grows(low, (high - 1) as nat);
    } else if low > 0 {
        lemma_ten_to_grows((low - 1) as nat, (low - 1) as nat);
    }
}

proof fn lemma_ten_to_nine()
    ensures
        ten_to(0) == 1,
        ten_to(1) == 10,
        ten_to(2) == 100,
        ten_to(3) == 1000,
        ten_to(9) == 1_000_000_000,
{
    reveal_with_fuel(ten_to, 10);
}

/// A number of 2^128 or more is too large for any finite pattern.
proof fn lemma_huge_is_infinite(num: nat)
    requires
        num >= 0x1_0000_0000_0000_0000_0000_0000_0000_0000,
    ensures
        rounds_to(num, 1, INFINITY),
        rounded(num, 1) == INFINITY,
{
    lemma2_to64();
    lemma_pow2_adds(64, 64);
    lemma_pow2_adds(128, 149);
    lemma_pow2_adds(23, 254);
    lemma_pow2_adds(9, 14);
    lemma_pow2_adds(10, 13);
    assert(pow2(23) == HIDDEN);
    assert(INFINITY / HIDDEN == 255 && INFINITY % HIDDEN == 0);
    assert(magnitude(INFINITY) == pow2(277));
    lemma_magnitudes_ascend((INFINITY - 1) as u32, INFINITY);
    let doubled = 2 * num * pow2(149);
    lemma_pow2_pos(149);
    assert(doubled >= 2 * pow2(277)) by (nonlinear_arith)
        requires
            doubled == 2 * num * pow2(149),
            num >= pow2(128),
            pow2(277) == pow2(128) * pow2(149),
            pow2(149) > 0,
    ;
    let edge = (magnitude((INFINITY - 1) as u32) + magnitude(INFINITY)) * 1;
    assert(doubled > edge);
    assert(rounds_to(num, 1, INFINITY));
    lemma_rounded_is(num, 1, INFINITY);
}

/// Ten to the power of `n`, where that fits.
fn power_of_ten(n: u32) -> (power: Option<u128>)
    ensures
        match power {
            Some(p) => p == ten_to(n as nat),
            None => ten_to(n as nat) > u128::MAX,
        },
{
    let mut power: u128 = 1;
    let mut i: u32 = 0;
    while i < n
        invariant
            i <= n,
            power == ten_to(i as nat),
        decreases n - i,
    {
        match power.checked_mul(10) {
            Some(next) => {
                power = next;
            },
            None => {
                proof {
                    lemma_ten_to_grows((i + 1) as nat, n as nat);
                }
                return None;
            },
        }
        i += 1;
    }
    Some(power)
}

/// Reads the run of digits that starts at `from`: where it ends, and the
/// number it spells.
fn scan(text: &[u8; 4], from: usize) -> (found: (usize, u32))
    requires
        from <= 4,
    ensures
        found.0 == digits_end(text@, from as int),
        from <= found.0 <= 4,
        found.0 == 4 || !is_digit(text[found.0 as int]),
        found.1 == number(text@, from as int, found.0 as int),
        found.1 < ten_to((found.0 - from) as nat),
        found.1 <= 9999,
{
    let mut end = from;
    let mut value: u32 = 0;
    proof {
        lemma_ten_to_nine();
        reveal_with_fuel(ten_to, 5);
    }
    while end < 4 && 0x30 <= text[end] && text[end] <= 0x39
        invariant
            from <= end <= 4,
            digits_end(text@, end as int) == digits_end(text@, from as int),
            value == number(text@, from as int, end as int),
            value < ten_to((end - from) as nat),
            ten_to((end - from) as nat) <= 10000,
        decreases 4 - end,
    {
        proof {
            reveal_with_fuel(ten_to, 5);
        }
        value = value * 10 + (text[end] - 0x30) as u32;
        end += 1;
    }
    (end, value)
}

fn is_either_case(byte: u8, lower: u8) -> (yes: bool)
    requires
        lower >= 0x20,
    ensures
        yes == is_letter(byte, lower),
{
    byte == lower || byte == lower - 0x20
}

/// Whether the three bytes after a sign spell `inf`, and whether they spell
/// `nan`.
fn names(text: &[u8; 4]) -> (found: (bool, bool))
    ensures
        found.0 == spells(text@, 1, inf_word()),
        found.1 == spells(text@, 1, nan_word()),
        !spells(text@, 1, infinity_word()),
        !spells(text@, 0, inf_word()),
        !spells(text@, 0, nan_word()),
        !spells(text@, 0, infinity_word()),
{
    let inf = is_either_case(text[1], 0x69) && is_either_case(text[2], 0x6e) && is_either_case(
        text[3],
        0x66,
    );
    let nan = is_either_case(text[1], 0x6e) && is_either_case(text[2], 0x61) && is_either_case(
        text[3],
        0x6e,
    );
    proof {
        assert(inf_word()[0] == 0x69 && inf_word()[1] == 0x6e && inf_word()[2] == 0x66);
        assert(nan_word()[0] == 0x6e && nan_word()[1] == 0x61 && nan_word()[2] == 0x6e);
        if spells(text@, 1, inf_word()) {
            assert(is_letter(text@[1int + 0], inf_word()[0]));
            assert(is_letter(text@[1int + 1], inf_word()[1]));
            assert(is_letter(text@[1int + 2], inf_word()[2]));
        }
        if spells(text@, 1, nan_word()) {
            assert(is_letter(text@[1int + 0], nan_word()[0]));
            assert(is_letter(text@[1int + 1], nan_word()[1]));
            assert(is_letter(text@[1int + 2], nan_word()[2]));
        }
    }
    (inf, nan)
}

/// Reads the text from `start` on as a number: its digits and its power
/// of ten, or `None` where it is no number.
fn figure(text: &[u8; 4], start: usize, negative: bool) -> (found: Option<(u32, i32)>)
    requires
        start <= 1,
    ensures
        match found {
            Some((digits, exponent)) => number_literal(text@, start as int, negative) == Some(
                Literal::Number { negative, digits: digits as nat, exponent: exponent as int },
            ) && -9 <= exponent <= 99 && digits <= 9999,
            None => number_literal(text@, start as int, negative) is None,
        },
{
    let (whole_end, whole) = scan(text, start);
    let pointed = whole_end < 4 && text[whole_end] == 0x2e;
    let (part_end, part) = if pointed {
        scan(text, whole_end + 1)
    } else {
        (whole_end, 0)
    };
    let places: usize = if pointed {
        part_end - (whole_end + 1)
    } else {
        0
    };
    proof {
        lemma_ten_to_nine();
        reveal_with_fuel(ten_to, 5);
    }
    if whole_end - start + places == 0 {
        return None;
    }
    let shift: u32 = if places == 0 {
        1
    } else if places == 1 {
        10
    } else if places == 2 {
        100
    } else {
        1000
    };
    assert(shift == ten_to(places as nat));
    assert(whole < ten_to((whole_end - start) as nat));
    assert(whole * shift + part <= 9999) by (nonlinear_arith)
        requires
            (shift == 1 && part == 0) || (shift == 10 && part < 10 && whole < 100) || (shift
                == 100 && part < 100 && whole < 10) || (shift == 1000 && part < 1000 && whole
                < 1),
            whole <= 9999,
    ;
    let digits: u32 = whole * shift + part;
    if part_end == 4 {
        return Some((digits, -(places as i32)));
    }
    if !is_either_case(text[part_end], 0x65) {
        return None;
    }
    let mark = part_end + 1;
    let down = mark < 4 && text[mark] == 0x2d;
    let power_start = if mark < 4 && (text[mark] == 0x2b || text[mark] == 0x2d) {
        mark + 1
    } else {
        mark
    };
    let (power_end, power) = scan(text, power_start);
    if power_end == power_start || power_end != 4 {
        return None;
    }
    assert(power < 100);
    if down {
        assert(power < 10 && places == 0);
        Some((digits, -(power as i32) - places as i32))
    } else {
        Some((digits, power as i32 - places as i32))
    }
}

/// The pattern, without sign, of `digits` times ten to the power of
/// `exponent`.
fn weigh(digits: u32, exponent: i32) -> (bits: u32)
    requires
        -9 <= exponent <= 99,
    ensures
        bits <= INFINITY,
        exponent >= 0 ==> bits == rounded(digits as nat * ten_to(exponent as nat), 1)
            && rounds_to(digits as nat * ten_to(exponent as nat), 1, bits),
        exponent < 0 ==> bits == rounded(digits as nat, ten_to((-exponent) as nat))
            && rounds_to(digits as nat, ten_to((-exponent) as nat), bits),
{
    if digits == 0 {
        proof {
            if exponent >= 0 {
                lemma_zero_rounds_to_zero(1);
                assert(digits as nat * ten_to(exponent as nat) == 0) by (nonlinear_arith)
                    requires
                        digits == 0,
                ;
            } else {
                lemma_ten_to_grows((-exponent) as nat, (-exponent) as nat);
                lemma_zero_rounds_to_zero(ten_to((-exponent) as nat));
            }
        }
        0
    } else if exponent >= 0 {
        let scaled = match power_of_ten(exponent as u32) {
            Some(scale) => (digits as u128).checked_mul(scale),
            None => {
                proof {
                    assert(digits * ten_to(exponent as nat) >= ten_to(exponent as nat))
                        by (nonlinear_arith)
                        requires
                            digits >= 1,
                    ;
                }
                None
            },
        };
        match scaled {
            Some(num) => nearest(num, 1),
            None => {
                proof {
                    lemma_huge_is_infinite(digits as nat * ten_to(exponent as nat));
                }
                INFINITY
            },
        }
    } else {
        proof {
            lemma_ten_to_nine();
            lemma_ten_to_grows((-exponent) as nat, 9);
        }
        let den = power_of_ten((-exponent) as u32).unwrap();
        nearest(digits as u128, den)
    }
}

/// Reads four bytes of text as a decimal literal and gives the
/// single-precision pattern of what it says, or `None` where the bytes are no
/// literal.
pub fn parse(text: &[u8; 4]) -> (bits: Option<u32>)
    ensures
        bits == spelled(text@),
        bits is Some <==> literal(text@) is Some,
        bits matches Some(pattern) ==> renders(literal(text@)->0, pattern),
{
    let signed = text[0] == 0x2b || text[0] == 0x2d;
    let negative = text[0] == 0x2d;
    let start: usize = if signed {
        1
    } else {
        0
    };
    let sign: u32 = if negative {
        SIGN
    } else {
        0
    };
    let (inf, nan) = names(text);
    if signed && inf {
        return Some(INFINITY + sign);
    }
    if signed && nan {
        return Some(NAN + sign);
    }
    match figure(text, start, negative) {
        Some((digits, exponent)) => Some(weigh(digits, exponent) + sign),
        None => None,
    }
}

} // verus!
