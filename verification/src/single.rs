//! Single-precision numbers, held as their bit patterns.
//!
//! A pattern has a sign bit, an eight-bit exponent field and a 23-bit
//! fraction. Everything here is integer arithmetic: a magnitude is counted in
//! units of 2^-149, the smallest step, so that every finite pattern stands for
//! a natural number.

use vstd::arithmetic::div_mod::{lemma_fundamental_div_mod, lemma_mod_multiples_basic};
use vstd::arithmetic::power2::{
    lemma2_to64, lemma_pow2_adds, lemma_pow2_pos, lemma_pow2_strictly_increases,
    lemma_pow2_unfold, pow2,
};
use vstd::prelude::*;

verus! {

/// The number of fractions per exponent: 2^23.
pub const HIDDEN: u32 = 0x80_0000;

/// The pattern of positive infinity, the one above every finite pattern.
pub const INFINITY: u32 = 0x7f80_0000;

/// The sign bit.
pub const SIGN: u32 = 0x8000_0000;

/// The magnitude of a pattern without sign, in units of 2^-149. For infinity
/// this is 2^128 in those units: the magnitude at which rounding has long
/// given up on the finite patterns.
pub open spec fn magnitude(bits: u32) -> nat {
    let field = bits / HIDDEN;
    let fraction = bits % HIDDEN;
    if field == 0 {
        fraction as nat
    } else {
        ((HIDDEN + fraction) * pow2((field - 1) as nat)) as nat
    }
}

/// The distance from a pattern's magnitude to that of the pattern after it.
pub open spec fn step(bits: u32) -> nat {
    let field = bits / HIDDEN;
    if field == 0 {
        1
    } else {
        pow2((field - 1) as nat)
    }
}

/// Whether `bits` is what the ratio `num / den` rounds to: the pattern of the
/// nearest magnitude, of the two nearest the one with the even pattern where
/// the ratio lies halfway between them, and infinity from halfway between the
/// largest finite magnitude and 2^128 on.
pub open spec fn rounds_to(num: nat, den: nat, bits: u32) -> bool {
    let doubled = 2 * num * pow2(149);
    &&& bits <= INFINITY
    &&& bits > 0 ==> {
        let edge = (magnitude((bits - 1) as u32) + magnitude(bits)) * den;
        doubled > edge || (doubled == edge && bits % 2 == 0)
    }
    &&& bits < INFINITY ==> {
        let edge = (magnitude(bits) + magnitude((bits + 1) as u32)) * den;
        doubled < edge || (doubled == edge && bits % 2 == 0)
    }
}

/// Each pattern's magnitude lies one step above that of the pattern before.
pub proof fn lemma_magnitude_steps(bits: u32)
    requires
        bits < INFINITY,
    ensures
        magnitude((bits + 1) as u32) == magnitude(bits) + step(bits),
        step(bits) > 0,
{
    let field = (bits / HIDDEN) as nat;
    let fraction = (bits % HIDDEN) as nat;
    let after = (bits + 1) as u32;
    if field > 0 {
        lemma_pow2_pos((field - 1) as nat);
    }
    if fraction < HIDDEN - 1 {
        assert(after / HIDDEN == field);
        assert(after % HIDDEN == fraction + 1);
        if field > 0 {
            let unit = pow2((field - 1) as nat);
            assert((HIDDEN + fraction + 1) * unit == (HIDDEN + fraction) * unit + unit)
                by (nonlinear_arith);
        }
    } else {
        assert(after / HIDDEN == field + 1);
        assert(after % HIDDEN == 0);
        if field > 0 {
            let unit = pow2((field - 1) as nat);
            lemma_pow2_unfold(field);
            assert(HIDDEN * (2 * unit) == (HIDDEN + fraction) * unit + unit) by (nonlinear_arith)
                requires
                    fraction == HIDDEN - 1,
            ;
        } else {
            lemma2_to64();
        }
    }
}

/// Magnitudes grow with their patterns.
pub proof fn lemma_magnitudes_ascend(lower: u32, upper: u32)
    requires
        lower < upper <= INFINITY,
    ensures
        magnitude(lower) < magnitude(upper),
    decreases upper - lower,
{
    lemma_magnitude_steps((upper - 1) as u32);
    if lower < upper - 1 {
        lemma_magnitudes_ascend(lower, (upper - 1) as u32);
    }
}

/// A ratio rounds to one pattern only.
pub proof fn lemma_rounding_is_unique(num: nat, den: nat, a: u32, b: u32)
    requires
        den > 0,
        rounds_to(num, den, a),
        rounds_to(num, den, b),
    ensures
        a == b,
{
    if a != b {
        let (low, high) = if a < b {
            (a, b)
        } else {
            (b, a)
        };
        let doubled = 2 * num * pow2(149);
        let above = magnitude(low) + magnitude((low + 1) as u32);
        let below = magnitude((high - 1) as u32) + magnitude(high);
        assert(doubled <= above * den);
        assert(doubled >= below * den);
        if low + 1 == high {
            assert(above == below);
        } else {
            lemma_magnitudes_ascend(low, (high - 1) as u32);
            lemma_magnitudes_ascend((low + 1) as u32, high);
            assert(above * den < below * den) by (nonlinear_arith)
                requires
                    above < below,
                    den > 0,
            ;
        }
    }
}

/// The pattern, without sign, that the ratio `num / den` rounds to.
pub open spec fn rounded(num: nat, den: nat) -> u32 {
    choose|bits: u32| rounds_to(num, den, bits)
}

/// `rounded` is the one pattern that the ratio rounds to.
pub proof fn lemma_rounded_is(num: nat, den: nat, bits: u32)
    requires
        den > 0,
        rounds_to(num, den, bits),
    ensures
        rounded(num, den) == bits,
{
    lemma_rounding_is_unique(num, den, bits, rounded(num, den));
}

/// Whether the quotient of `n` by `d` is rounded up: the remainder is more
/// than half the divisor, or exactly half of it beside an odd quotient.
pub open spec fn rounds_up(n: nat, d: nat) -> bool {
    2 * (n % d) > d || (2 * (n % d) == d && (n / d) % 2 == 1)
}

proof fn lemma_pow2_values()
    ensures
        pow2(23) == 0x80_0000,
        pow2(55) == 0x80_0000_0000_0000,
        pow2(105) == 0x200_0000_0000_0000_0000_0000_0000,
{
    lemma2_to64();
    lemma_pow2_adds(32, 23);
    lemma_pow2_adds(32, 9);
    lemma_pow2_adds(64, 41);
}

proof fn lemma_exponent_below(k: nat, bound: nat, value: int)
    requires
        pow2(k) <= value < pow2(bound),
    ensures
        k < bound,
{
    if k > bound {
        lemma_pow2_strictly_increases(bound, k);
    }
}

/// The magnitude of the pattern with exponent field `e` whose leading 24
/// bits, hidden bit included, are `q`; `q` may have run over into 2^24.
proof fn lemma_magnitude_of(e: nat, q: nat, bits: u32)
    requires
        1 <= e <= 254,
        HIDDEN <= q <= 2 * HIDDEN,
        bits == (e - 1) * HIDDEN + q,
    ensures
        magnitude(bits) == q * pow2((e - 1) as nat),
        bits <= INFINITY,
        q < 2 * HIDDEN ==> step(bits) == pow2((e - 1) as nat),
        q == 2 * HIDDEN ==> step(bits) == 2 * pow2((e - 1) as nat),
{
    let unit = pow2((e - 1) as nat);
    if q < 2 * HIDDEN {
        assert(bits == e * HIDDEN + (q - HIDDEN));
        assert(bits / HIDDEN == e);
        assert(bits % HIDDEN == q - HIDDEN);
    } else {
        assert(bits == (e + 1) * HIDDEN);
        assert(bits / HIDDEN == e + 1);
        assert(bits % HIDDEN == 0);
        lemma_pow2_unfold(e);
        assert(HIDDEN * (2 * unit) == q * unit) by (nonlinear_arith)
            requires
                q == 2 * HIDDEN,
        ;
    }
}

/// Rounding the quotient of a scaled ratio gives the pattern the ratio
/// rounds to. The ratio is `num / den`; it has been scaled to `n / d`, with
/// 24 significant bits in the quotient, by a power of two that `e` records.
proof fn lemma_rounded(num: nat, den: nat, n: nat, d: nat, unit: nat, e: nat, bits: u32)
    requires
        den > 0,
        d > 0,
        unit > 0,
        2 <= e <= 254,
        num * pow2(149) == n * unit,
        d * unit == den * pow2((e - 1) as nat),
        HIDDEN <= n / d < 2 * HIDDEN,
        bits == (e - 1) * HIDDEN + n / d + if rounds_up(n, d) {
            1nat
        } else {
            0nat
        },
    ensures
        rounds_to(num, den, bits),
        n % d == 0 ==> magnitude(bits) * den == num * pow2(149),
{
    let q = n / d;
    let r = n % d;
    let up = rounds_up(n, d);
    let q2 = if up {
        q + 1
    } else {
        q
    };
    let p = pow2((e - 1) as nat);
    let doubled = 2 * num * pow2(149);
    lemma_fundamental_div_mod(n as int, d as int);
    assert(n == d * q + r);
    assert(0 <= r < d);
    lemma_magnitude_of(e, q2 as nat, bits);
    let here = magnitude(bits);
    assert(here == q2 * p);
    // Both sides of every comparison are multiples of `unit`.
    assert(doubled == 2 * (num * pow2(149))) by (nonlinear_arith)
        requires
            doubled == 2 * num * pow2(149),
    ;
    assert(doubled == (2 * q * d + 2 * r) * unit) by (nonlinear_arith)
        requires
            doubled == 2 * (num * pow2(149)),
            num * pow2(149) == n * unit,
            n == d * q + r,
    ;
    assert(here * den == (q2 * d) * unit) by (nonlinear_arith)
        requires
            here == q2 * p,
            d * unit == den * p,
    ;
    if r == 0 {
        assert(!up);
        assert(here * den == num * pow2(149)) by (nonlinear_arith)
            requires
                here * den == (q2 * d) * unit,
                q2 == q,
                n == d * q + r,
                r == 0,
                num * pow2(149) == n * unit,
        ;
    }
    assert(bits % 2 == q2 % 2) by {
        assert(bits == (e - 1) * HIDDEN + q2);
        assert(((e - 1) * HIDDEN) % 2 == 0) by (nonlinear_arith)
            requires
                HIDDEN == 0x80_0000,
                e >= 1,
        ;
    }
    if bits < INFINITY {
        lemma_magnitude_steps(bits);
        let after = magnitude((bits + 1) as u32);
        let edge = (here + after) * den;
        assert(step(bits) >= p);
        assert(edge >= (2 * q2 * d + d) * unit) by (nonlinear_arith)
            requires
                edge == (here + after) * den,
                after == here + step(bits),
                step(bits) >= p,
                here * den == (q2 * d) * unit,
                d * unit == den * p,
                den > 0,
        ;
        if up {
            assert((2 * q * d + 2 * r) * unit < (2 * q2 * d + d) * unit) by (nonlinear_arith)
                requires
                    q2 == q + 1,
                    r < d,
                    unit > 0,
            ;
        } else if 2 * r < d {
            assert((2 * q * d + 2 * r) * unit < (2 * q2 * d + d) * unit) by (nonlinear_arith)
                requires
                    q2 == q,
                    2 * r < d,
                    unit > 0,
            ;
        } else {
            assert(2 * r == d && q % 2 == 0);
            assert(q2 < 2 * HIDDEN);
            assert(edge == (2 * q2 * d + d) * unit) by (nonlinear_arith)
                requires
                    edge == (here + after) * den,
                    after == here + p,
                    here * den == (q2 * d) * unit,
                    d * unit == den * p,
            ;
            assert(doubled == edge);
        }
    }
    assert(bits > 0);
    let prior = (bits - 1) as u32;
    lemma_magnitude_steps(prior);
    let before = magnitude(prior);
    let edge = (before + here) * den;
    if q2 > HIDDEN {
        lemma_magnitude_of(e, (q2 - 1) as nat, prior);
        assert(step(prior) == p);
        assert(edge == (2 * q2 * d - d) * unit) by (nonlinear_arith)
            requires
                edge == (before + here) * den,
                here == before + p,
                here * den == (q2 * d) * unit,
                d * unit == den * p,
        ;
        if !up {
            assert((2 * q * d + 2 * r) * unit > (2 * q2 * d - d) * unit) by (nonlinear_arith)
                requires
                    q2 == q,
                    0 <= r,
                    d > 0,
                    unit > 0,
            ;
        } else if 2 * r > d {
            assert((2 * q * d + 2 * r) * unit > (2 * q2 * d - d) * unit) by (nonlinear_arith)
                requires
                    q2 == q + 1,
                    2 * r > d,
                    unit > 0,
            ;
        } else {
            assert(2 * r == d && q % 2 == 1);
            assert(doubled == edge) by (nonlinear_arith)
                requires
                    doubled == (2 * q * d + 2 * r) * unit,
                    edge == (2 * q2 * d - d) * unit,
                    q2 == q + 1,
                    2 * r == d,
            ;
        }
    } else {
        assert(!up && q == HIDDEN);
        assert(step(prior) > 0);
        assert(edge < 2 * (here * den)) by (nonlinear_arith)
            requires
                edge == (before + here) * den,
                here == before + step(prior),
                step(prior) > 0,
                den > 0,
        ;
        assert(doubled >= 2 * ((q2 * d) * unit)) by (nonlinear_arith)
            requires
                doubled == (2 * q * d + 2 * r) * unit,
                q2 == q,
                0 <= r,
                unit > 0,
        ;
    }
}

/// Zero rounds to the pattern of zero, whatever it is divided by.
pub proof fn lemma_zero_rounds_to_zero(den: nat)
    requires
        den > 0,
    ensures
        rounds_to(0, den, 0),
        rounded(0, den) == 0,
        magnitude(0) == 0,
{
    lemma_magnitude_steps(0);
    assert(magnitude(0) == 0);
    assert(magnitude(1) == 1);
    assert(2 * 0nat * pow2(149) == 0) by (nonlinear_arith);
    assert((0 + 1) * den > 0) by (nonlinear_arith)
        requires
            den > 0,
    ;
    lemma_rounded_is(0, den, 0);
}

proof fn lemma_scaled_whole(value: nat, n: nat, e: nat)
    requires
        0 < value,
        n == value * pow2((150 - e) as nat),
        n < 2 * HIDDEN,
        e <= 150,
    ensures
        magnitude(rounded(value, 1)) == value * pow2(149),
        0 < rounded(value, 1) < INFINITY,
    decreases e,
{
    lemma_pow2_values();
    lemma_pow2_pos((150 - e) as nat);
    assert(pow2((150 - e) as nat) <= n) by (nonlinear_arith)
        requires
            n == value * pow2((150 - e) as nat),
            value >= 1,
            pow2((150 - e) as nat) > 0,
    ;
    lemma_exponent_below((150 - e) as nat, 55, n as int);
    if n >= HIDDEN {
        let unit = pow2((e - 1) as nat);
        let bits = ((e - 1) * HIDDEN + n) as u32;
        lemma_pow2_pos((e - 1) as nat);
        lemma_pow2_adds((150 - e) as nat, (e - 1) as nat);
        assert(value * pow2(149) == n * unit) by (nonlinear_arith)
            requires
                n == value * pow2((150 - e) as nat),
                pow2(149) == pow2((150 - e) as nat) * unit,
        ;
        assert(1 * unit == 1 * pow2((e - 1) as nat));
        assert(n / 1 == n && n % 1 == 0);
        assert(!rounds_up(n, 1));
        lemma_rounded(value, 1, n, 1, unit, e, bits);
        lemma_rounded_is(value, 1, bits);
        assert(magnitude(bits) * 1 == magnitude(bits));
    } else {
        lemma_pow2_unfold((151 - e) as nat);
        assert(value * (2 * pow2((150 - e) as nat)) == 2 * (value * pow2((150 - e) as nat)))
            by (nonlinear_arith);
        lemma_scaled_whole(value, 2 * n, (e - 1) as nat);
    }
}

/// Whole numbers below 2^24 have a pattern of their own: rounding them
/// changes nothing.
pub proof fn lemma_whole_is_exact(value: nat)
    requires
        value < 2 * HIDDEN,
    ensures
        magnitude(rounded(value, 1)) == value * pow2(149),
        rounded(value, 1) < INFINITY,
        value > 0 ==> rounded(value, 1) > 0,
{
    if value == 0 {
        lemma_zero_rounds_to_zero(1);
        assert(0 * pow2(149) == 0) by (nonlinear_arith);
    } else {
        lemma2_to64();
        assert(value * pow2(0) == value) by (nonlinear_arith)
            requires
                pow2(0) == 1,
        ;
        lemma_scaled_whole(value, value, 150);
    }
}

/// The pattern, without sign, that the ratio `num / den` rounds to. Whole
/// numbers below 2^24 are met exactly.
pub(crate) fn nearest(num: u128, den: u128) -> (bits: u32)
    requires
        0 < den <= 0x1_0000_0000,
    ensures
        bits == rounded(num as nat, den as nat),
        rounds_to(num as nat, den as nat, bits),
        num % den == 0 && num / den < 0x100_0000 ==> magnitude(bits) * den == num * pow2(149),
{
    if num == 0 {
        proof {
            lemma_zero_rounds_to_zero(den as nat);
        }
        return 0;
    }
    let mut n = num;
    let mut d = den;
    let mut e: u32 = 150;
    proof {
        lemma2_to64();
        assert(den * pow2(0) == den && num * pow2(0) == num) by (nonlinear_arith)
            requires
                pow2(0) == 1,
        ;
    }
    if n / 0x100_0000 >= d {
        while n / 0x100_0000 >= d
            invariant
                n == num,
                0 < den <= 0x1_0000_0000,
                150 <= e,
                d == den * pow2((e - 150) as nat),
                0 < d,
                n / 0x80_0000 >= d,
            decreases n - d,
        {
            proof {
                lemma_pow2_unfold((e - 149) as nat);
                assert(den * (2 * pow2((e - 150) as nat)) == 2 * (den * pow2((e - 150) as nat)))
                    by (nonlinear_arith);
                lemma_pow2_values();
                lemma_pow2_pos((e - 150) as nat);
                assert(pow2((e - 150) as nat) <= d) by (nonlinear_arith)
                    requires
                        d == den * pow2((e - 150) as nat),
                        den >= 1,
                        pow2((e - 150) as nat) > 0,
                ;
                lemma_exponent_below((e - 150) as nat, 105, d as int);
            }
            d = d * 2;
            e = e + 1;
        }
    } else {
        while n < d * 0x80_0000
            invariant
                0 < num,
                d == den,
                0 < den <= 0x1_0000_0000,
                e <= 150,
                n == num * pow2((150 - e) as nat),
                n < d * 0x100_0000,
                0 < n,
            decreases e,
        {
            proof {
                lemma_pow2_values();
                lemma_pow2_pos((150 - e) as nat);
                assert(pow2((150 - e) as nat) <= n) by (nonlinear_arith)
                    requires
                        n == num * pow2((150 - e) as nat),
                        num >= 1,
                        pow2((150 - e) as nat) > 0,
                ;
                lemma_exponent_below((150 - e) as nat, 55, n as int);
                lemma_pow2_unfold((151 - e) as nat);
                assert(num * (2 * pow2((150 - e) as nat)) == 2 * (num * pow2((150 - e) as nat)))
                    by (nonlinear_arith);
            }
            n = n * 2;
            e = e - 1;
        }
    }
    let q = n / d;
    let r = n % d;
    proof {
        lemma_fundamental_div_mod(n as int, d as int);
        assert(HIDDEN <= q < 2 * HIDDEN) by (nonlinear_arith)
            requires
                n == d * q + r,
                0 <= r < d,
                0x80_0000 * d <= n < 0x100_0000 * d,
                HIDDEN == 0x80_0000,
        ;
    }
    let up = 2 * r > d || (2 * r == d && q % 2 == 1);
    let q2 = if up {
        q + 1
    } else {
        q
    };
    proof {
        lemma_pow2_values();
        if e >= 150 {
            lemma_pow2_pos((e - 150) as nat);
            assert(pow2((e - 150) as nat) <= d) by (nonlinear_arith)
                requires
                    d == den * pow2((e - 150) as nat),
                    den >= 1,
                    pow2((e - 150) as nat) > 0,
            ;
            lemma_exponent_below((e - 150) as nat, 105, d as int);
        } else {
            lemma_pow2_pos((150 - e) as nat);
            assert(pow2((150 - e) as nat) <= n) by (nonlinear_arith)
                requires
                    n == num * pow2((150 - e) as nat),
                    num >= 1,
                    pow2((150 - e) as nat) > 0,
            ;
            lemma_exponent_below((150 - e) as nat, 105, n as int);
        }
    }
    let bits = (e - 1) * HIDDEN + (q2 as u32);
    proof {
        let unit = if e >= 150 {
            pow2(149)
        } else {
            pow2((e - 1) as nat)
        };
        lemma_pow2_pos(149);
        lemma_pow2_pos((e - 1) as nat);
        if e >= 150 {
            lemma_pow2_adds((e - 150) as nat, 149);
            assert(d * unit == den * pow2((e - 1) as nat)) by (nonlinear_arith)
                requires
                    d == den * pow2((e - 150) as nat),
                    pow2((e - 1) as nat) == pow2((e - 150) as nat) * unit,
            ;
        } else {
            lemma_pow2_adds((150 - e) as nat, (e - 1) as nat);
            assert(num * pow2(149) == n * unit) by (nonlinear_arith)
                requires
                    n == num * pow2((150 - e) as nat),
                    pow2(149) == pow2((150 - e) as nat) * unit,
            ;
        }
        lemma_rounded(num as nat, den as nat, n as nat, d as nat, unit, e as nat, bits);
        lemma_rounded_is(num as nat, den as nat, bits);
        if num % den == 0 && num / den < 0x100_0000 {
            lemma_fundamental_div_mod(num as int, den as int);
            assert(num < 0x100_0000 * den) by (nonlinear_arith)
                requires
                    num == den * (num / den) + num % den,
                    num % den == 0,
                    num / den < 0x100_0000,
                    den > 0,
            ;
            assert(e <= 150);
            assert(d == den);
            let scale = pow2((150 - e) as nat);
            let whole = (num / den) as int;
            assert(n == den * (whole * scale)) by (nonlinear_arith)
                requires
                    n == num * scale,
                    num == den * whole,
            ;
            lemma_mod_multiples_basic(whole * scale, den as int);
            assert((whole * scale * den) == den * (whole * scale)) by (nonlinear_arith);
            assert(n % d == 0);
        }
    }
    bits
}

/// A whole number widened to single precision: the pattern of the nearest
/// magnitude, the even one of two equally near.
pub fn widen(value: u32) -> (bits: u32)
    ensures
        rounds_to(value as nat, 1, bits),
        bits == rounded(value as nat, 1),
{
    nearest(value as u128, 1)
}

/// The word that four bytes spell, most significant byte first.
pub open spec fn be_word(raw: [u8; 4]) -> u32 {
    (raw[0] * 0x100_0000 + raw[1] * 0x1_0000 + raw[2] * 0x100 + raw[3]) as u32
}

/// The word that four bytes spell, least significant byte first.
pub open spec fn le_word(raw: [u8; 4]) -> u32 {
    (raw[3] * 0x100_0000 + raw[2] * 0x1_0000 + raw[1] * 0x100 + raw[0]) as u32
}

/// Reads four bytes as a word, most significant byte first.
pub fn word_from_be(raw: [u8; 4]) -> (word: u32)
    ensures
        word == be_word(raw),
{
    (raw[0] as u32) * 0x100_0000 + (raw[1] as u32) * 0x1_0000 + (raw[2] as u32) * 0x100 + (
    raw[3] as u32)
}

/// Reads four bytes as a word, least significant byte first.
pub fn word_from_le(raw: [u8; 4]) -> (word: u32)
    ensures
        word == le_word(raw),
{
    (raw[3] as u32) * 0x100_0000 + (raw[2] as u32) * 0x1_0000 + (raw[1] as u32) * 0x100 + (
    raw[0] as u32)
}

} // verus!
