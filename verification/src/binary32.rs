//! IEEE 754 binary32 arithmetic carried out on bit patterns.
//!
//! A sample is held as the 32-bit word of its binary32 encoding: one sign
//! bit, eight exponent bits, twenty-three fraction bits. Every finite
//! magnitude is a whole multiple of 2^-149, so this module measures
//! magnitudes in that unit and states each operation as the exact result
//! rounded to the nearest representable value, ties going to the even
//! significand.
//!
//! An operation without a numeric result gives the one quiet
//! not-a-number word `NAN`, whatever the operands; a processor may give
//! another not-a-number word in its place.

use vstd::prelude::*;
use vstd::arithmetic::power2::*;
use vstd::arithmetic::div_mod::*;

verus! {

/// The sign bit.
pub const SIGN: u32 = 0x8000_0000;

/// The word of positive infinity; also the exponent mask.
pub const INFINITY: u32 = 0x7f80_0000;

/// The quiet not-a-number word that every invalid operation yields.
pub const NAN: u32 = 0x7fc0_0000;

/// The word of 1.0.
pub const ONE: u32 = 0x3f80_0000;

/// The word of 32767.0, the largest 16-bit sample magnitude.
pub const PCM_SCALE: u32 = 0x46ff_fe00;

/// Whether the sign bit of `w` is set.
pub open spec fn is_negative(w: u32) -> bool {
    w >= 0x8000_0000
}

/// The word with its sign bit cleared.
pub open spec fn abs_word(w: u32) -> nat {
    (w % 0x8000_0000) as nat
}

/// Whether `w` encodes not-a-number.
pub open spec fn is_nan(w: u32) -> bool {
    abs_word(w) > 0x7f80_0000
}

/// Whether `w` encodes an infinity.
pub open spec fn is_infinite(w: u32) -> bool {
    abs_word(w) == 0x7f80_0000
}

/// Whether `w` encodes a zero of either sign.
pub open spec fn is_zero(w: u32) -> bool {
    abs_word(w) == 0
}

/// The biased exponent field.
pub open spec fn exponent(w: u32) -> nat {
    abs_word(w) / 0x80_0000
}

/// The fraction field.
pub open spec fn fraction(w: u32) -> nat {
    (w % 0x80_0000) as nat
}

/// The integer significand: the fraction, with the hidden bit for a
/// normal number.
pub open spec fn significand(w: u32) -> nat {
    if exponent(w) == 0 {
        fraction(w)
    } else {
        0x80_0000 + fraction(w)
    }
}

/// The power of two, in units of 2^-149, that one step of the
/// significand is worth.
pub open spec fn grain_of(w: u32) -> nat {
    if exponent(w) == 0 {
        0
    } else {
        (exponent(w) - 1) as nat
    }
}

/// The magnitude of a finite word in units of 2^-149.
pub open spec fn magnitude(w: u32) -> nat {
    significand(w) * pow2(grain_of(w))
}

/// The value of a finite word in units of 2^-149.
pub open spec fn signed_magnitude(w: u32) -> int {
    if is_negative(w) {
        -(magnitude(w) as int)
    } else {
        magnitude(w) as int
    }
}

/// The word with magnitude bits `abs` and the given sign.
pub open spec fn with_sign(negative: bool, abs: nat) -> u32 {
    if negative {
        (abs + 0x8000_0000) as u32
    } else {
        abs as u32
    }
}

/// Number of binary digits of `n`.
pub open spec fn bit_length(n: nat) -> nat
    decreases n,
{
    if n == 0 {
        0
    } else {
        1 + bit_length(n / 2)
    }
}

/// The spacing exponent of the representable values around `n` units:
/// values below 2^24 units are spaced one unit apart, and the spacing
/// doubles with every further binary digit.
pub open spec fn grain(n: nat) -> nat {
    if bit_length(n) <= 24 {
        0
    } else {
        (bit_length(n) - 24) as nat
    }
}

/// `num / step` rounded to the nearest integer, a tie going to the even
/// one.
pub open spec fn nearest_even(num: nat, step: nat) -> nat {
    let q = num / step;
    let r = num % step;
    if 2 * r > step || (2 * r == step && q % 2 == 1) {
        q + 1
    } else {
        q
    }
}

/// The magnitude bits of the binary32 value nearest to `num / den` units
/// of 2^-149, ties to even, overflow to infinity.
///
/// With spacing exponent `e` and rounded significand `m` the magnitude
/// bits are `e * 2^23 + m`: for `e == 0` that is a subnormal or the first
/// binade, for larger `e` the hidden bit of `m` raises the exponent field
/// to `e + 1`, and `m == 2^24` carries into the next binade.
pub open spec fn rounded(num: nat, den: nat) -> nat {
    let e = grain(num / den);
    let w = e * 0x80_0000 + nearest_even(num, den * pow2(e));
    if w >= 0x7f80_0000 {
        0x7f80_0000
    } else {
        w
    }
}

/// Every positive number lies between two consecutive powers of two
/// determined by its bit length.
pub proof fn lemma_bit_length_bounds(n: nat)
    requires
        n > 0,
    ensures
        bit_length(n) >= 1,
        pow2((bit_length(n) - 1) as nat) <= n < pow2(bit_length(n)),
    decreases n,
{
    lemma2_to64();
    if n == 1 {
        assert(bit_length(1) == 1 + bit_length(0));
    } else {
        lemma_bit_length_bounds(n / 2);
        let k = bit_length(n / 2);
        lemma_pow2_unfold(k);
        lemma_pow2_unfold(k + 1);
    }
}

/// A number bracketed by two consecutive powers of two has the
/// corresponding bit length.
pub proof fn lemma_bit_length_unique(n: nat, k: nat)
    requires
        k >= 1,
        pow2((k - 1) as nat) <= n < pow2(k),
    ensures
        bit_length(n) == k,
{
    lemma_pow2_pos((k - 1) as nat);
    lemma_bit_length_bounds(n);
    let b = bit_length(n);
    if b < k {
        if b < k - 1 {
            lemma_pow2_strictly_increases(b, (k - 1) as nat);
        }
    } else if b > k {
        if b - 1 > k {
            lemma_pow2_strictly_increases(k, (b - 1) as nat);
        }
    }
}

/// Numbers below 2^k have at most k binary digits.
pub proof fn lemma_bit_length_below(n: nat, k: nat)
    requires
        n < pow2(k),
    ensures
        bit_length(n) <= k,
{
    if n > 0 {
        lemma_bit_length_bounds(n);
        let b = bit_length(n);
        if b > k {
            if b - 1 > k {
                lemma_pow2_strictly_increases(k, (b - 1) as nat);
            }
        }
    }
}

/// Whether `m` is a significand that goes with spacing exponent `e`:
/// below 2^24, and carrying the hidden bit unless `e` is zero.
pub open spec fn normalised(m: nat, e: nat) -> bool {
    m < 0x100_0000 && (e > 0 ==> m >= 0x80_0000)
}

/// Scaling both sides of a strict bracket by a positive factor.
proof fn lemma_scale_bracket(x: nat, lo: nat, hi: nat, a: nat)
    by (nonlinear_arith)
    requires
        lo <= x < hi,
        a > 0,
    ensures
        lo * a <= x * a < hi * a,
{
}

/// Dividing a bracket of multiples of `a` by `a`.
proof fn lemma_divide_bracket(s: nat, lo: nat, hi: nat, a: nat)
    by (nonlinear_arith)
    requires
        lo * a <= s < hi * a,
        a > 0,
    ensures
        lo <= s / a < hi,
{
}

/// A quotient and remainder with respect to `den * unit` bracket the
/// quotient with respect to `den` alone.
proof fn lemma_coarse_quotient(num: nat, den: nat, unit: nat, m: nat, rest: nat)
    by (nonlinear_arith)
    requires
        den > 0,
        unit > 0,
        rest < den * unit,
        num == m * (den * unit) + rest,
    ensures
        m * unit <= num / den < (m + 1) * unit,
{
}

/// If `num` splits into a normalised significand `m` times the spacing
/// `den * 2^e` and a remainder below that spacing, then `e` is the
/// spacing exponent of `num / den` and the split is the division that
/// `rounded` performs.
pub proof fn lemma_rounded_parts(num: nat, den: nat, e: nat, m: nat, rest: nat)
    requires
        den > 0,
        normalised(m, e),
        rest < den * pow2(e),
        num == m * (den * pow2(e)) + rest,
    ensures
        grain(num / den) == e,
        num / (den * pow2(e)) == m,
        num % (den * pow2(e)) == rest,
{
    lemma2_to64();
    lemma_pow2_pos(e);
    let unit = pow2(e);
    let step = den * unit;
    assert(step > 0) by (nonlinear_arith)
        requires
            step == den * unit,
            den > 0,
            unit > 0,
    ;
    lemma_fundamental_div_mod_converse(num as int, step as int, m as int, rest as int);
    lemma_coarse_quotient(num, den, unit, m, rest);
    let q = num / den;
    if e > 0 {
        lemma_scale_bracket(m, 0x80_0000, 0x100_0000, unit);
        lemma_pow2_adds(23, e);
        lemma_pow2_adds(24, e);
        assert(m * unit < (m + 1) * unit <= 0x100_0000 * unit) by (nonlinear_arith)
            requires
                m < 0x100_0000,
                unit > 0,
        ;
        lemma_bit_length_unique(q, 24 + e);
    } else {
        assert(unit == 1);
        assert(m * unit == m && (m + 1) * unit == m + 1) by (nonlinear_arith)
            requires
                unit == 1,
        ;
        lemma_bit_length_below(q, 24);
    }
}

/// An exact left shift: `sig * 2^shift` is `sig * 2^k` whole steps of
/// `2^149 * 2^e` when `shift == 149 + e + k`.
proof fn lemma_scaled_exact(sig: nat, shift: nat, e: nat, k: nat)
    requires
        shift == 149 + e + k,
    ensures
        sig * pow2(shift) == (sig * pow2(k)) * (pow2(149) * pow2(e)) + 0,
{
    lemma_pow2_adds(149, e);
    lemma_pow2_adds(k, 149 + e);
    let a = pow2(k);
    let b = pow2(149) * pow2(e);
    assert(sig * (a * b) == (sig * a) * b) by (nonlinear_arith);
}

/// A right shift by `g` with quotient `q` and remainder `r`, carried over
/// to the scaled numerator: the remainder keeps its position relative to
/// half a step.
proof fn lemma_scaled_split(sig: nat, shift: nat, e: nat, g: nat, q: nat, r: nat)
    requires
        shift + g == 149 + e,
        sig == q * pow2(g) + r,
        r < pow2(g),
    ensures
        sig * pow2(shift) == q * (pow2(149) * pow2(e)) + r * pow2(shift),
        r * pow2(shift) < pow2(149) * pow2(e),
        2 * (r * pow2(shift)) > pow2(149) * pow2(e) <==> 2 * r > pow2(g),
        2 * (r * pow2(shift)) == pow2(149) * pow2(e) <==> 2 * r == pow2(g),
{
    lemma_pow2_adds(149, e);
    lemma_pow2_adds(g, shift);
    lemma_pow2_pos(shift);
    let a = pow2(g);
    let b = pow2(shift);
    let step = pow2(149) * pow2(e);
    assert(step == a * b);
    assert((q * a + r) * b == q * (a * b) + r * b) by (nonlinear_arith);
    assert(r * b < a * b) by (nonlinear_arith)
        requires
            r < a,
            b > 0,
    ;
    assert((2 * (r * b) > a * b <==> 2 * r > a) && (2 * (r * b) == a * b <==> 2 * r == a))
        by (nonlinear_arith)
        requires
            b > 0,
    ;
}

/// The number of binary digits of `x`.
pub fn bit_len(x: u64) -> (n: u32)
    ensures
        n == bit_length(x as nat),
        n <= 64,
{
    let zeros: u32 = x.leading_zeros();
    proof {
        vstd::std_specs::bits::axiom_u64_leading_zeros(x);
        lemma2_to64();
        if x != 0 {
            let k: u64 = (64 - zeros) as u64;
            let top: u64 = x >> ((k - 1) as u64);
            assert(top & 1 != 0);
            assert(top != 0) by (bit_vector)
                requires
                    top & 1 != 0,
            ;
            vstd::bits::lemma_u64_shr_is_div(x, (k - 1) as u64);
            lemma_pow2_pos((k - 1) as nat);
            lemma_fundamental_div_mod(x as int, pow2((k - 1) as nat) as int);
            assert(x >= pow2((k - 1) as nat)) by (nonlinear_arith)
                requires
                    x == pow2((k - 1) as nat) * (x as nat / pow2((k - 1) as nat)) + x as nat % pow2(
                        (k - 1) as nat,
                    ),
                    x as nat / pow2((k - 1) as nat) >= 1,
                    x as nat % pow2((k - 1) as nat) >= 0,
                    pow2((k - 1) as nat) > 0,
            ;
            if k < 64 {
                assert(x >> k == 0);
                vstd::bits::lemma_u64_shr_is_div(x, k);
                lemma_pow2_pos(k as nat);
                lemma_fundamental_div_mod(x as int, pow2(k as nat) as int);
                let p = pow2(k as nat);
                let q = x as nat / p;
                assert(p * q == 0) by (nonlinear_arith)
                    requires
                        q == 0,
                ;
                lemma_mod_bound(x as int, p as int);
                assert(x < p);
            }
            lemma_bit_length_unique(x as nat, k as nat);
        }
    }
    64 - zeros
}

/// Two to the power `k`.
pub fn pow2_u64(k: u32) -> (r: u64)
    requires
        k < 64,
    ensures
        r == pow2(k as nat),
{
    proof {
        vstd::bits::lemma_u64_pow2_no_overflow(k as nat);
        vstd::bits::lemma_u64_shl_is_mul(1u64, k as u64);
    }
    1u64 << k
}

/// Assembles the magnitude bits from a spacing exponent and a rounded
/// significand, saturating at infinity.
fn assemble(e: u32, m: u64) -> (w: u32)
    requires
        e <= 1000,
        m <= 0x100_0000,
    ensures
        w == (if e * 0x80_0000 + m >= 0x7f80_0000 {
            0x7f80_0000
        } else {
            e * 0x80_0000 + m
        }),
{
    let bits: u64 = e as u64 * 0x80_0000 + m;
    if bits >= 0x7f80_0000 {
        INFINITY
    } else {
        bits as u32
    }
}

/// The magnitude bits of the binary32 value nearest to
/// `sig * 2^(shift - 149)` units of 2^-149.
fn round_scaled(sig: u64, shift: u32) -> (w: u32)
    requires
        shift <= 600,
    ensures
        w == rounded(sig as nat * pow2(shift as nat), pow2(149)),
{
    let ghost num = sig as nat * pow2(shift as nat);
    let ghost den = pow2(149);
    proof {
        lemma2_to64();
        lemma_pow2_pos(149);
    }
    if sig == 0 {
        proof {
            assert(num == 0) by (nonlinear_arith)
                requires
                    num == sig as nat * pow2(shift as nat),
                    sig == 0,
            ;
            assert(0 * (den * pow2(0)) + 0 == 0) by (nonlinear_arith);
            assert(den * pow2(0) > 0) by (nonlinear_arith)
                requires
                    den > 0,
                    pow2(0) == 1,
            ;
            lemma_rounded_parts(0, den, 0, 0, 0);
        }
        return 0;
    }
    let len = bit_len(sig);
    proof {
        lemma_bit_length_bounds(sig as nat);
    }
    let top: u32 = len + shift;
    let e: u32 = if top > 173 {
        top - 173
    } else {
        0
    };
    if shift >= 149 + e {
        let k: u32 = shift - 149 - e;
        proof {
            // len + k <= 24, so the shifted significand stays below 2^24
            lemma_pow2_adds(len as nat, k as nat);
            lemma_pow2_pos(k as nat);
            lemma_scale_bracket(
                sig as nat,
                pow2((len - 1) as nat),
                pow2(len as nat),
                pow2(k as nat),
            );
            if len + k < 24 {
                lemma_pow2_strictly_increases((len + k) as nat, 24);
            }
            if e > 0 {
                lemma_pow2_adds((len - 1) as nat, k as nat);
            }
        }
        let m: u64 = sig * pow2_u64(k);
        proof {
            lemma_scaled_exact(sig as nat, shift as nat, e as nat, k as nat);
            lemma_pow2_pos(e as nat);
            assert(0 < den * pow2(e as nat)) by (nonlinear_arith)
                requires
                    den > 0,
                    pow2(e as nat) > 0,
            ;
            lemma_rounded_parts(num, den, e as nat, m as nat, 0);
        }
        assemble(e, m)
    } else {
        let g: u32 = 149 + e - shift;
        if g > 64 {
            proof {
                if g > 65 {
                    lemma_pow2_strictly_increases(64, (g - 1) as nat);
                }
                lemma_pow2_unfold(g as nat);
                lemma_scaled_split(sig as nat, shift as nat, 0, g as nat, 0, sig as nat);
                lemma_rounded_parts(num, den, 0, 0, sig as nat * pow2(shift as nat));
            }
            return 0;
        }
        let m: u64;
        let up: bool;
        if g == 64 {
            m = 0;
            up = sig > 0x8000_0000_0000_0000;
            proof {
                lemma_scaled_split(sig as nat, shift as nat, e as nat, g as nat, 0, sig as nat);
                lemma_rounded_parts(num, den, e as nat, 0, sig as nat * pow2(shift as nat));
            }
        } else {
            let p = pow2_u64(g);
            proof {
                lemma_pow2_pos(g as nat);
            }
            let q = sig / p;
            let r = sig % p;
            let half = p / 2;
            proof {
                lemma_pow2_unfold(g as nat);
                lemma_pow2_pos(g as nat);
                lemma_fundamental_div_mod(sig as int, p as int);
                assert(p * q == q * p) by (nonlinear_arith);
                if e > 0 {
                    // g == len - 24
                    lemma_pow2_adds(23, g as nat);
                    lemma_pow2_adds(24, g as nat);
                    lemma_divide_bracket(sig as nat, 0x80_0000, 0x100_0000, p as nat);
                } else {
                    // g >= len - 24
                    if (len as int) < 24 + g {
                        lemma_pow2_strictly_increases(len as nat, (24 + g) as nat);
                    }
                    lemma_pow2_adds(24, g as nat);
                    lemma_divide_bracket(sig as nat, 0, 0x100_0000, p as nat);
                }
                lemma_scaled_split(sig as nat, shift as nat, e as nat, g as nat, q as nat, r as nat);
                lemma_rounded_parts(num, den, e as nat, q as nat, r as nat * pow2(shift as nat));
            }
            m = q;
            up = r > half || (r == half && q % 2 == 1);
        }
        if up {
            assemble(e, m + 1)
        } else {
            assemble(e, m)
        }
    }
}

/// The product of two words: not-a-number if either is, or if an infinity
/// meets a zero; otherwise the exact product of the magnitudes, rounded,
/// with the sign that the two signs give.
pub open spec fn product(a: u32, b: u32) -> u32 {
    let negative = is_negative(a) != is_negative(b);
    if is_nan(a) || is_nan(b) {
        NAN
    } else if is_infinite(a) || is_infinite(b) {
        if is_zero(a) || is_zero(b) {
            NAN
        } else {
            with_sign(negative, 0x7f80_0000)
        }
    } else {
        with_sign(negative, rounded(magnitude(a) * magnitude(b), pow2(149)))
    }
}

/// Splits a word into its integer significand and spacing exponent.
fn unpack(w: u32) -> (r: (u64, u32))
    ensures
        r.0 == significand(w),
        r.1 == grain_of(w),
        r.0 < 0x100_0000,
        r.1 <= 254,
        r.1 > 0 ==> r.0 >= 0x80_0000,
        abs_word(w) == r.1 * 0x80_0000 + r.0,
{
    let abs: u32 = w % SIGN;
    let exp: u32 = abs / 0x80_0000;
    let frac: u32 = w % 0x80_0000;
    if exp == 0 {
        (frac as u64, 0)
    } else {
        (frac as u64 + 0x80_0000, exp - 1)
    }
}

/// Sets the sign bit on magnitude bits.
fn apply_sign(negative: bool, abs: u32) -> (w: u32)
    requires
        abs < 0x8000_0000,
    ensures
        w == with_sign(negative, abs as nat),
{
    if negative {
        abs + SIGN
    } else {
        abs
    }
}

/// The product of two magnitudes in terms of their parts.
proof fn lemma_magnitude_product(ma: nat, ga: nat, mb: nat, gb: nat)
    ensures
        (ma * pow2(ga)) * (mb * pow2(gb)) == (ma * mb) * pow2(ga + gb),
{
    lemma_pow2_adds(ga, gb);
    let x = pow2(ga);
    let y = pow2(gb);
    assert((ma * x) * (mb * y) == (ma * mb) * (x * y)) by (nonlinear_arith);
}

/// Multiplies two binary32 words.
pub fn mul(a: u32, b: u32) -> (w: u32)
    ensures
        w == product(a, b),
{
    let abs_a: u32 = a % SIGN;
    let abs_b: u32 = b % SIGN;
    let negative = (a >= SIGN) != (b >= SIGN);
    if abs_a > INFINITY || abs_b > INFINITY {
        return NAN;
    }
    if abs_a == INFINITY || abs_b == INFINITY {
        if abs_a == 0 || abs_b == 0 {
            return NAN;
        }
        return apply_sign(negative, INFINITY);
    }
    let (ma, ga) = unpack(a);
    let (mb, gb) = unpack(b);
    assert(ma * mb < 0x1_0000_0000_0000) by (nonlinear_arith)
        requires
            ma < 0x100_0000,
            mb < 0x100_0000,
    ;
    proof {
        lemma_magnitude_product(ma as nat, ga as nat, mb as nat, gb as nat);
    }
    let bits = round_scaled(ma * mb, ga + gb);
    apply_sign(negative, bits)
}

/// The word for the exact value `x + y`, both in units of 2^-149: an
/// exact zero is positive unless both operands are negative zeros of the
/// sum, and anything else is rounded with its own sign.
pub open spec fn sum_word(x: int, y: int, both_negative: bool) -> u32 {
    let s = x + y;
    if s == 0 {
        if both_negative {
            SIGN
        } else {
            0
        }
    } else if s < 0 {
        with_sign(true, rounded((-s) as nat, 1))
    } else {
        with_sign(false, rounded(s as nat, 1))
    }
}

/// The sum of two words: not-a-number if either is, or if two opposite
/// infinities meet; an infinity if one operand is; otherwise the exact
/// sum, rounded.
pub open spec fn sum(a: u32, b: u32) -> u32 {
    if is_nan(a) || is_nan(b) {
        NAN
    } else if is_infinite(a) {
        if is_infinite(b) && is_negative(a) != is_negative(b) {
            NAN
        } else {
            a
        }
    } else if is_infinite(b) {
        b
    } else {
        sum_word(
            signed_magnitude(a),
            signed_magnitude(b),
            is_negative(a) && is_negative(b),
        )
    }
}

/// Rounding depends on the ratio alone: a common positive factor of
/// numerator and denominator changes nothing.
pub proof fn lemma_rounded_scaling(num: nat, den: nat, c: nat)
    requires
        den > 0,
        c > 0,
    ensures
        rounded(num * c, den * c) == rounded(num, den),
{
    lemma_div_multiples_vanish_quotient(c as int, num as int, den as int);
    assert(c * num == num * c && c * den == den * c) by (nonlinear_arith);
    let e = grain(num / den);
    lemma_pow2_pos(e);
    let step = den * pow2(e);
    assert(step > 0) by (nonlinear_arith)
        requires
            step == den * pow2(e),
            den > 0,
            pow2(e) > 0,
    ;
    assert((den * c) * pow2(e) == c * step) by (nonlinear_arith)
        requires
            step == den * pow2(e),
    ;
    lemma_div_multiples_vanish_quotient(c as int, num as int, step as int);
    lemma_truncate_middle(num as int, c as int, step as int);
    let r = num % step;
    assert((2 * (c * r) > c * step <==> 2 * r > step) && (2 * (c * r) == c * step <==> 2 * r
        == step)) by (nonlinear_arith)
        requires
            c > 0,
    ;
}

/// An operand at least 39 binades below a normal one is too small to
/// move it: adding or subtracting it rounds back to the larger operand.
proof fn lemma_far_operand(mx: nat, gx: nat, my: nat, gy: nat)
    requires
        gx >= gy + 39,
        0x80_0000 <= mx < 0x100_0000,
        my < 0x100_0000,
        gx * 0x80_0000 + mx < 0x7f80_0000,
    ensures
        my * pow2(gy) < mx * pow2(gx),
        rounded(mx * pow2(gx) + my * pow2(gy), 1) == gx * 0x80_0000 + mx,
        rounded((mx * pow2(gx) - my * pow2(gy)) as nat, 1) == gx * 0x80_0000 + mx,
{
    lemma2_to64();
    let unit = pow2(gx);
    let half = pow2((gx - 1) as nat);
    let quarter = pow2((gx - 2) as nat);
    let x = mx * unit;
    let y = my * pow2(gy);
    lemma_pow2_unfold(gx);
    lemma_pow2_unfold((gx - 1) as nat);
    lemma_pow2_pos((gx - 2) as nat);
    lemma_pow2_pos(gy);
    lemma_pow2_adds(24, gy);
    lemma_pow2_strictly_increases(24 + gy, (gx - 2) as nat);
    assert(y < 0x100_0000 * pow2(gy)) by (nonlinear_arith)
        requires
            y == my * pow2(gy),
            my < 0x100_0000,
            pow2(gy) > 0,
    ;
    assert(y < quarter);
    assert(x >= 0x80_0000 * unit) by (nonlinear_arith)
        requires
            x == mx * unit,
            mx >= 0x80_0000,
            unit > 0,
    ;
    assert(1 * unit == unit && 1 * half == half);
    // the sum
    assert(x + y == mx * (1 * unit) + y);
    lemma_rounded_parts(x + y, 1, gx, mx, y);
    // the difference
    let diff = (x - y) as nat;
    if y == 0 {
        assert(diff == mx * (1 * unit) + 0);
        lemma_rounded_parts(diff, 1, gx, mx, 0);
    } else if mx > 0x80_0000 {
        let low = (mx - 1) as nat;
        let rest = (unit - y) as nat;
        assert(diff == low * (1 * unit) + rest) by (nonlinear_arith)
            requires
                diff == x - y,
                x == mx * unit,
                low == mx - 1,
                rest == unit - y,
        ;
        lemma_rounded_parts(diff, 1, gx, low, rest);
    } else {
        let rest = (half - y) as nat;
        assert(diff == 0xff_ffff * (1 * half) + rest) by (nonlinear_arith)
            requires
                diff == x - y,
                x == mx * unit,
                mx == 0x80_0000,
                unit == 2 * half,
                rest == half - y,
        ;
        lemma_rounded_parts(diff, 1, (gx - 1) as nat, 0xff_ffff, rest);
    }
}

/// Adds two finite operands given by their parts, the first with the
/// larger spacing exponent.
fn add_ordered(mx: u64, gx: u32, nx: bool, my: u64, gy: u32, ny: bool) -> (w: u32)
    requires
        gy <= gx <= 254,
        normalised(mx as nat, gx as nat),
        normalised(my as nat, gy as nat),
        gx * 0x80_0000 + mx < 0x7f80_0000,
    ensures
        w == sum_word(
            if nx {
                -(mx * pow2(gx as nat))
            } else {
                mx * pow2(gx as nat)
            },
            if ny {
                -(my * pow2(gy as nat))
            } else {
                my * pow2(gy as nat)
            },
            nx && ny,
        ),
{
    let ghost x = mx as nat * pow2(gx as nat);
    let ghost y = my as nat * pow2(gy as nat);
    let d: u32 = gx - gy;
    if d > 38 {
        proof {
            lemma_far_operand(mx as nat, gx as nat, my as nat, gy as nat);
        }
        let abs: u64 = gx as u64 * 0x80_0000 + mx;
        return apply_sign(nx, abs as u32);
    }
    proof {
        lemma2_to64();
        lemma_pow2_adds(d as nat, gy as nat);
        lemma_pow2_strictly_increases(d as nat, 39);
        lemma_pow2_adds(32, 7);
        lemma_pow2_pos(d as nat);
        assert(mx * pow2(d as nat) < 0x100_0000 * pow2(39)) by (nonlinear_arith)
            requires
                mx < 0x100_0000,
                0 < pow2(d as nat) < pow2(39),
        ;
        assert(x == (mx * pow2(d as nat)) * pow2(gy as nat)) by (nonlinear_arith)
            requires
                x == mx as nat * pow2(gx as nat),
                pow2(gx as nat) == pow2(d as nat) * pow2(gy as nat),
        ;
        lemma_pow2_pos(149);
        lemma_pow2_pos(gy as nat);
    }
    let big: u64 = mx * pow2_u64(d);
    let total: u64;
    let negative: bool;
    if nx == ny {
        total = big + my;
        negative = nx;
        assert(total * pow2(gy as nat) == x + y) by (nonlinear_arith)
            requires
                total == big + my,
                x == big * pow2(gy as nat),
                y == my * pow2(gy as nat),
        ;
    } else if big >= my {
        total = big - my;
        negative = nx;
        assert(total * pow2(gy as nat) == x - y) by (nonlinear_arith)
            requires
                total == big - my,
                x == big * pow2(gy as nat),
                y == my * pow2(gy as nat),
        ;
    } else {
        total = my - big;
        negative = ny;
        assert(total * pow2(gy as nat) == y - x) by (nonlinear_arith)
            requires
                total == my - big,
                x == big * pow2(gy as nat),
                y == my * pow2(gy as nat),
        ;
    }
    if total == 0 {
        assert(total * pow2(gy as nat) == 0) by (nonlinear_arith)
            requires
                total == 0,
        ;
        return apply_sign(nx && ny, 0);
    }
    proof {
        let exact = total as nat * pow2(gy as nat);
        assert(exact > 0) by (nonlinear_arith)
            requires
                exact == total as nat * pow2(gy as nat),
                total > 0,
                pow2(gy as nat) > 0,
        ;
        lemma_pow2_adds(gy as nat, 149);
        assert(total as nat * pow2((gy + 149) as nat) == exact * pow2(149)) by (nonlinear_arith)
            requires
                exact == total as nat * pow2(gy as nat),
                pow2((gy + 149) as nat) == pow2(gy as nat) * pow2(149),
        ;
        assert(1 * pow2(149) == pow2(149));
        lemma_rounded_scaling(exact, 1, pow2(149));
    }
    let bits = round_scaled(total, gy + 149);
    apply_sign(negative, bits)
}

/// Adds two binary32 words.
pub fn add(a: u32, b: u32) -> (w: u32)
    ensures
        w == sum(a, b),
{
    let abs_a: u32 = a % SIGN;
    let abs_b: u32 = b % SIGN;
    let neg_a = a >= SIGN;
    let neg_b = b >= SIGN;
    if abs_a > INFINITY || abs_b > INFINITY {
        return NAN;
    }
    if abs_a == INFINITY {
        if abs_b == INFINITY && neg_a != neg_b {
            return NAN;
        }
        return a;
    }
    if abs_b == INFINITY {
        return b;
    }
    let (ma, ga) = unpack(a);
    let (mb, gb) = unpack(b);
    if ga >= gb {
        add_ordered(ma, ga, neg_a, mb, gb, neg_b)
    } else {
        add_ordered(mb, gb, neg_b, ma, ga, neg_a)
    }
}

/// The word of `percent / 100`: the quotient of the exactly
/// representable percentage by one hundred, rounded.
pub open spec fn percent_word(percent: u8) -> u32 {
    rounded(percent as nat * pow2(149), 100) as u32
}

/// Converts a volume percentage to its linear factor `percent / 100`.
pub fn from_percent(percent: u8) -> (w: u32)
    ensures
        w == percent_word(percent),
{
    proof {
        lemma2_to64();
    }
    if percent == 0 {
        proof {
            assert(0 * pow2(149) == 0);
            assert(0 == 0 * (100 * pow2(0)) + 0);
            lemma_rounded_parts(0, 100, 0, 0, 0);
        }
        return 0;
    }
    // scale the dividend until the quotient has exactly 24 binary digits
    let mut k: u32 = 22;
    let mut scaled: u64 = percent as u64 * 0x40_0000;
    while scaled < 838_860_800
        invariant
            22 <= k <= 30,
            percent >= 1,
            scaled == percent * pow2(k as nat),
            scaled < 1_677_721_600,
        decreases 30 - k,
    {
        proof {
            lemma2_to64();
            lemma_pow2_unfold((k + 1) as nat);
            assert(percent * (2 * pow2(k as nat)) == 2 * (percent * pow2(k as nat)))
                by (nonlinear_arith);
            if k == 30 {
                assert(percent * pow2(30) >= pow2(30)) by (nonlinear_arith)
                    requires
                        percent >= 1,
                ;
            }
        }
        scaled = scaled * 2;
        k = k + 1;
    }
    let m: u64 = scaled / 100;
    let r: u64 = scaled % 100;
    let e: u32 = 149 - k;
    proof {
        let unit = pow2(e as nat);
        lemma_pow2_adds(k as nat, e as nat);
        lemma_pow2_pos(e as nat);
        let num = percent as nat * pow2(149);
        assert(num == m as nat * (100 * unit) + r as nat * unit) by (nonlinear_arith)
            requires
                num == percent as nat * pow2(149),
                pow2(149) == pow2(k as nat) * unit,
                scaled == percent * pow2(k as nat),
                scaled == m * 100 + r,
        ;
        assert(r as nat * unit < 100 * unit && (2 * (r as nat * unit) > 100 * unit <==> r > 50)
            && (2 * (r as nat * unit) == 100 * unit <==> r == 50)) by (nonlinear_arith)
            requires
                r < 100,
                unit > 0,
        ;
        lemma_rounded_parts(num, 100, e as nat, m as nat, r as nat * unit);
    }
    if r > 50 || (r == 50 && m % 2 == 1) {
        assemble(e, m + 1)
    } else {
        assemble(e, m)
    }
}

/// The word restricted to the interval from -1.0 to 1.0; not-a-number
/// stays as it is.
pub open spec fn clamped(w: u32) -> u32 {
    if is_nan(w) {
        w
    } else if abs_word(w) > 0x3f80_0000 {
        with_sign(is_negative(w), 0x3f80_0000)
    } else {
        w
    }
}

/// Clamps a word to the interval from -1.0 to 1.0.
pub fn clamp_unit(w: u32) -> (r: u32)
    ensures
        r == clamped(w),
{
    let abs: u32 = w % SIGN;
    if abs > INFINITY {
        w
    } else if abs > ONE {
        apply_sign(w >= SIGN, ONE)
    } else {
        w
    }
}

/// The integer that a conversion to a signed 16-bit number gives: the
/// value with its fractional part dropped, held to the range of the
/// type, and zero for not-a-number.
pub open spec fn truncated(w: u32) -> int {
    if is_nan(w) {
        0
    } else {
        let whole = magnitude(w) / pow2(149);
        if is_negative(w) {
            if whole >= 32768 {
                -32768
            } else {
                -(whole as int)
            }
        } else {
            if whole >= 32767 {
                32767
            } else {
                whole as int
            }
        }
    }
}

/// A quotient is at least `lo` when the dividend is at least `lo`
/// divisors.
proof fn lemma_quotient_at_least(s: nat, lo: nat, a: nat)
    by (nonlinear_arith)
    requires
        lo * a <= s,
        a > 0,
    ensures
        lo <= s / a,
{
}

/// Converts a word to a signed 16-bit integer, toward zero and
/// saturating.
pub fn to_i16(w: u32) -> (r: i16)
    ensures
        r == truncated(w),
{
    let abs: u32 = w % SIGN;
    let negative = w >= SIGN;
    if abs > INFINITY {
        return 0;
    }
    let (m, g) = unpack(w);
    proof {
        lemma2_to64();
        lemma_pow2_pos(149);
        lemma_pow2_pos(g as nat);
    }
    if g >= 141 {
        proof {
            // at least 2^23 * 2^141 units, which is 2^15 whole ones
            lemma_pow2_adds(15, 149);
            lemma_pow2_adds(23, 141);
            if g > 141 {
                lemma_pow2_strictly_increases(141, g as nat);
            }
            assert(m * pow2(g as nat) >= 0x80_0000 * pow2(141)) by (nonlinear_arith)
                requires
                    m >= 0x80_0000,
                    pow2(g as nat) >= pow2(141),
            ;
            lemma_quotient_at_least(magnitude(w), 32768, pow2(149));
        }
        return if negative {
            -32768
        } else {
            32767
        };
    }
    let shift: u32 = 149 - g;
    proof {
        lemma_pow2_adds(g as nat, shift as nat);
        lemma_pow2_pos(shift as nat);
        lemma_div_multiples_vanish_quotient(
            pow2(g as nat) as int,
            m as int,
            pow2(shift as nat) as int,
        );
        assert(m * pow2(g as nat) == pow2(g as nat) * m) by (nonlinear_arith);
        assert(pow2(149) == pow2(g as nat) * pow2(shift as nat));
        assert(magnitude(w) / pow2(149) == m as nat / pow2(shift as nat));
        if shift > 9 {
            lemma_pow2_strictly_increases(9, shift as nat);
        }
        assert(m < 32768 * pow2(shift as nat)) by (nonlinear_arith)
            requires
                m < 0x100_0000,
                pow2(shift as nat) >= 512,
        ;
        lemma_divide_bracket(m as nat, 0, 32768, pow2(shift as nat));
        if shift >= 24 {
            if shift > 24 {
                lemma_pow2_strictly_increases(24, shift as nat);
            }
            lemma_pow2_pos(shift as nat);
            assert(0 * pow2(shift as nat) <= m < 1 * pow2(shift as nat));
            lemma_divide_bracket(m as nat, 0, 1, pow2(shift as nat));
        }
    }
    let whole: u64 = if shift >= 24 {
        0
    } else {
        m / pow2_u64(shift)
    };
    if negative {
        -(whole as i16)
    } else {
        whole as i16
    }
}

/// The magnitude bits of a finite word are its spacing exponent times
/// 2^23 plus its significand, and the two go together.
pub proof fn lemma_word_parts(w: u32)
    requires
        abs_word(w) < 0x7f80_0000,
    ensures
        abs_word(w) == grain_of(w) * 0x80_0000 + significand(w),
        normalised(significand(w), grain_of(w)),
        grain_of(w) <= 253,
{
}

/// The word one binade above a normal word: same sign and fraction, the
/// exponent raised by one. Its magnitude is twice as large.
pub proof fn lemma_next_binade(w: u32)
    requires
        0x80_0000 <= abs_word(w),
        abs_word(w) + 0x80_0000 < 0x7f80_0000,
    ensures
        magnitude((w + 0x80_0000) as u32) == 2 * magnitude(w),
        is_negative((w + 0x80_0000) as u32) == is_negative(w),
        abs_word((w + 0x80_0000) as u32) == abs_word(w) + 0x80_0000,
{
    let v = (w + 0x80_0000) as u32;
    assert(abs_word(v) == abs_word(w) + 0x80_0000);
    assert(exponent(v) == exponent(w) + 1);
    assert(fraction(v) == fraction(w));
    lemma_pow2_unfold(grain_of(v));
    assert(significand(w) * (2 * pow2(grain_of(w))) == 2 * (significand(w) * pow2(grain_of(w))))
        by (nonlinear_arith);
}

/// A representable magnitude rounds to itself.
pub proof fn lemma_rounded_exact(w: u32)
    requires
        abs_word(w) < 0x7f80_0000,
    ensures
        rounded(magnitude(w), 1) == abs_word(w),
{
    lemma_word_parts(w);
    let g = grain_of(w);
    let m = significand(w);
    lemma_pow2_pos(g);
    assert(magnitude(w) == m * (1 * pow2(g)) + 0);
    lemma_rounded_parts(magnitude(w), 1, g, m, 0);
}

/// Multiplying by 1.0 changes no word but not-a-number.
pub proof fn lemma_product_by_one(w: u32)
    requires
        !is_nan(w),
    ensures
        product(w, ONE) == w,
        product(ONE, w) == w,
{
    lemma2_to64();
    assert(abs_word(ONE) == 0x3f80_0000);
    assert(exponent(ONE) == 127 && fraction(ONE) == 0);
    assert(!is_negative(ONE));
    if !is_infinite(w) {
        lemma_pow2_adds(23, 126);
        assert(magnitude(ONE) == pow2(149));
        lemma_pow2_pos(149);
        assert(magnitude(w) * pow2(149) == pow2(149) * magnitude(w)) by (nonlinear_arith);
        assert(1 * pow2(149) == pow2(149));
        lemma_rounded_scaling(magnitude(w), 1, pow2(149));
        lemma_rounded_exact(w);
    }
}

/// Full volume is the factor 1.0, and zero volume the factor 0.0.
pub proof fn lemma_percent_word_ends()
    ensures
        percent_word(100) == ONE,
        percent_word(0) == 0,
{
    lemma2_to64();
    lemma_pow2_adds(23, 126);
    lemma_pow2_pos(126);
    assert(100 * pow2(149) == 0x80_0000 * (100 * pow2(126)) + 0) by (nonlinear_arith)
        requires
            pow2(149) == 0x80_0000 * pow2(126),
    ;
    lemma_rounded_parts(100 * pow2(149), 100, 126, 0x80_0000, 0);
    assert(0 * pow2(149) == 0 * (100 * pow2(0)) + 0);
    lemma_rounded_parts(0, 100, 0, 0, 0);
}

/// The division that `rounded` performs yields a significand that goes
/// with the spacing exponent.
pub proof fn lemma_rounded_split(num: nat, den: nat)
    requires
        den > 0,
    ensures
        normalised(num / (den * pow2(grain(num / den))), grain(num / den)),
{
    lemma2_to64();
    let q = num / den;
    let e = grain(q);
    let unit = pow2(e);
    lemma_pow2_pos(e);
    lemma_div_denominator(num as int, den as int, unit as int);
    if q > 0 {
        lemma_bit_length_bounds(q);
    }
    if e > 0 {
        lemma_pow2_adds(23, e);
        lemma_pow2_adds(24, e);
        lemma_divide_bracket(q, 0x80_0000, 0x100_0000, unit);
    } else {
        assert(unit == 1);
        if q > 0 && bit_length(q) < 24 {
            lemma_pow2_strictly_increases(bit_length(q), 24);
        }
    }
}

/// A number that is `q` or its successor is at most `hi` when `q` is
/// below `hi`.
proof fn lemma_successor_bound(q: nat, n: nat, hi: nat)
    requires
        q < hi,
        n == q || n == q + 1,
    ensures
        n <= hi,
{
}

/// The rounded word lies at most one binade above the start of the
/// binade of the exact value.
pub proof fn lemma_rounded_bound(num: nat, den: nat)
    requires
        den > 0,
    ensures
        rounded(num, den) <= grain(num / den) * 0x80_0000 + 0x100_0000,
{
    lemma_rounded_split(num, den);
    let e = grain(num / den);
    let step = den * pow2(e);
    lemma_successor_bound(num / step, nearest_even(num, step), 0x100_0000);
}

/// Doubling a value in the normal range raises the rounded word by one
/// binade, up to infinity.
pub proof fn lemma_rounded_double(num: nat, den: nat)
    requires
        den > 0,
        num / den >= 0x80_0000,
    ensures
        rounded(num, den) >= 0x80_0000,
        rounded(2 * num, den) == (if rounded(num, den) + 0x80_0000 >= 0x7f80_0000 {
            0x7f80_0000
        } else {
            rounded(num, den) + 0x80_0000
        }),
{
    lemma2_to64();
    let e = grain(num / den);
    let unit = pow2(e);
    lemma_pow2_pos(e);
    lemma_pow2_unfold(e + 1);
    let step = den * unit;
    assert(step > 0) by (nonlinear_arith)
        requires
            step == den * unit,
            den > 0,
            unit > 0,
    ;
    let m = num / step;
    let r = num % step;
    lemma_rounded_split(num, den);
    lemma_fundamental_div_mod(num as int, step as int);
    if e == 0 {
        assert(step == den) by (nonlinear_arith)
            requires
                step == den * unit,
                unit == 1,
        ;
    }
    assert(m >= 0x80_0000);
    let wide = den * pow2(e + 1);
    assert(wide == 2 * step && 2 * num == m * wide + 2 * r) by (nonlinear_arith)
        requires
            wide == den * pow2(e + 1),
            pow2(e + 1) == 2 * unit,
            step == den * unit,
            num == step * m + r,
    ;
    lemma_rounded_parts(2 * num, den, e + 1, m, 2 * r);
}

/// Doubling a percentage doubles its factor.
pub proof fn lemma_percent_word_doubles(percent: u8)
    requires
        1 <= percent <= 127,
    ensures
        percent_word(percent) >= 0x80_0000,
        percent_word(percent) + 0x80_0000 < 0x7f80_0000,
        percent_word((2 * percent) as u8) == percent_word(percent) + 0x80_0000,
{
    lemma2_to64();
    let unit = pow2(149);
    let num = percent as nat * unit;
    lemma_pow2_adds(23, 126);
    lemma_pow2_adds(1, 149);
    lemma_pow2_strictly_increases(7, 126);
    assert(0x80_0000 * 100 <= num < 100 * pow2(150)) by (nonlinear_arith)
        requires
            num == percent as nat * unit,
            unit == 0x80_0000 * pow2(126),
            pow2(126) > 128,
            pow2(150) == 2 * unit,
            1 <= percent <= 127,
    ;
    lemma_divide_bracket(num, 0x80_0000, pow2(150), 100);
    lemma_bit_length_below(num / 100, 150);
    lemma_rounded_bound(num, 100);
    assert(rounded(num, 100) < 0x7f00_0000) by (nonlinear_arith)
        requires
            rounded(num, 100) <= grain(num / 100) * 0x80_0000 + 0x100_0000,
            grain(num / 100) <= 126,
    ;
    lemma_rounded_double(num, 100);
    assert(2 * num == (2 * percent) as u8 as nat * unit) by (nonlinear_arith)
        requires
            num == percent as nat * unit,
            (2 * percent) as u8 == 2 * percent,
    ;
}

/// Rounding to whole numbers before and after doubling, for a remainder
/// `r` of the division by `den` that is at most a quarter or at least
/// three quarters of `den`.
proof fn lemma_double_whole(m: nat, r: nat, den: nat, m2: nat, r2: nat, n1: nat, n2: nat)
    requires
        r < den,
        4 * r <= den || 4 * r >= 3 * den,
        2 * r < den ==> m2 == 2 * m && r2 == 2 * r,
        2 * r >= den ==> m2 == 2 * m + 1 && r2 == 2 * r - den,
        n1 == (if 2 * r > den || (2 * r == den && m % 2 == 1) {
            m + 1
        } else {
            m
        }),
        n2 == (if 2 * r2 > den || (2 * r2 == den && m2 % 2 == 1) {
            m2 + 1
        } else {
            m2
        }),
    ensures
        n2 == 2 * n1,
        n1 <= m + 1,
{
}

/// Below the normal range values are rounded to whole units, and
/// doubling goes through the rounding where the part beyond the whole
/// units is at most a quarter or at least three quarters of a unit.
pub proof fn lemma_rounded_double_small(num: nat, den: nat)
    requires
        den > 0,
        num / den < 0x80_0000,
        4 * (num % den) <= den || 4 * (num % den) >= 3 * den,
    ensures
        rounded(num, den) <= 0x80_0000,
        rounded(2 * num, den) == 2 * rounded(num, den),
{
    lemma2_to64();
    let m = num / den;
    let r = num % den;
    lemma_fundamental_div_mod(num as int, den as int);
    lemma_mod_bound(num as int, den as int);
    let step = den * pow2(0);
    assert(step == den);
    assert(num == m * step + r) by (nonlinear_arith)
        requires
            num == den * m + r,
            step == den,
    ;
    lemma_rounded_parts(num, den, 0, m, r);
    let m2 = if 2 * r < den {
        2 * m
    } else {
        2 * m + 1
    };
    let r2 = if 2 * r < den {
        2 * r
    } else {
        (2 * r - den) as nat
    };
    assert(2 * num == m2 * step + r2) by (nonlinear_arith)
        requires
            num == m * step + r,
            step == den,
            2 * r < den ==> m2 == 2 * m && r2 == 2 * r,
            2 * r >= den ==> m2 == 2 * m + 1 && r2 == 2 * r - den,
    ;
    lemma_rounded_parts(2 * num, den, 0, m2, r2);
    let n1 = nearest_even(num, step);
    let n2 = nearest_even(2 * num, step);
    lemma_double_whole(m, r, den, m2, r2, n1, n2);
}

/// The product of a finite sample with a finite positive factor: the
/// sample's sign on the rounded exact product.
proof fn lemma_weighted(sample: u32, factor: u32, exact: nat)
    requires
        abs_word(sample) < 0x7f80_0000,
        factor < 0x7f80_0000,
        exact == magnitude(sample) * magnitude(factor),
    ensures
        abs_word(product(sample, factor)) == rounded(exact, pow2(149)),
        is_negative(product(sample, factor)) == is_negative(sample),
        magnitude(product(sample, factor)) == magnitude(rounded(exact, pow2(149)) as u32),
{
}

/// A contribution at volume zero is a zero.
proof fn lemma_muted(sample: u32)
    requires
        abs_word(sample) < 0x7f80_0000,
    ensures
        magnitude(product(sample, 0)) == 0,
{
    lemma2_to64();
    lemma_pow2_pos(149);
    let unit = pow2(149);
    assert(magnitude(0) == 0) by (nonlinear_arith)
        requires
            magnitude(0) == 0 * pow2(0),
    ;
    assert(magnitude(sample) * magnitude(0) == 0) by (nonlinear_arith)
        requires
            magnitude(0) == 0,
    ;
    assert(0 == 0 * (unit * pow2(0)) + 0);
    lemma_rounded_parts(0, unit, 0, 0, 0);
    lemma_weighted(sample, 0, 0);
}

/// A factor of twice the magnitude gives a contribution of twice the
/// magnitude, under the conditions of
/// `lemma_double_volume_doubles_contribution`.
proof fn lemma_weighted_doubles(sample: u32, once: u32, twice: u32)
    requires
        abs_word(sample) < 0x7f80_0000,
        once < 0x7f80_0000,
        twice < 0x7f80_0000,
        magnitude(twice) == 2 * magnitude(once),
        abs_word(product(sample, twice)) < 0x7f80_0000,
        ({
            let exact = magnitude(sample) * magnitude(once);
            ||| exact / pow2(149) >= 0x80_0000
            ||| 4 * (exact % pow2(149)) <= pow2(149)
            ||| 4 * (exact % pow2(149)) >= 3 * pow2(149)
        }),
    ensures
        magnitude(product(sample, twice)) == 2 * magnitude(product(sample, once)),
        is_negative(product(sample, twice)) == is_negative(product(sample, once)),
{
    let unit = pow2(149);
    let exact = magnitude(sample) * magnitude(once);
    assert(magnitude(sample) * magnitude(twice) == 2 * exact) by (nonlinear_arith)
        requires
            magnitude(twice) == 2 * magnitude(once),
            exact == magnitude(sample) * magnitude(once),
    ;
    lemma_weighted(sample, once, exact);
    lemma_weighted(sample, twice, 2 * exact);
    let bits = rounded(exact, unit);
    lemma_pow2_pos(149);
    if exact / unit >= 0x80_0000 {
        lemma_rounded_double(exact, unit);
        lemma_next_binade(bits as u32);
    } else {
        lemma_rounded_double_small(exact, unit);
        lemma_whole_units(bits);
        lemma_whole_units(2 * bits);
    }
}

/// Doubling a track's volume doubles what the track contributes to a
/// sample. This holds for every finite sample whose doubled contribution
/// is finite too, unless the exact contribution lies below the normal
/// range and more than a quarter but less than three quarters of the
/// way between two representable values.
pub proof fn lemma_double_volume_doubles_contribution(sample: u32, percent: u8)
    requires
        percent <= 127,
        abs_word(sample) < 0x7f80_0000,
        abs_word(product(sample, percent_word((2 * percent) as u8))) < 0x7f80_0000,
        ({
            let exact = magnitude(sample) * magnitude(percent_word(percent));
            ||| exact / pow2(149) >= 0x80_0000
            ||| 4 * (exact % pow2(149)) <= pow2(149)
            ||| 4 * (exact % pow2(149)) >= 3 * pow2(149)
        }),
    ensures
        signed_magnitude(product(sample, percent_word((2 * percent) as u8))) == 2
            * signed_magnitude(product(sample, percent_word(percent))),
{
    let once = percent_word(percent);
    let twice = percent_word((2 * percent) as u8);
    if percent == 0 {
        lemma_percent_word_ends();
        lemma_muted(sample);
    } else {
        lemma_percent_word_doubles(percent);
        lemma_next_binade(once);
        lemma_weighted_doubles(sample, once, twice);
    }
}

/// Magnitude bits up to 2^24 stand for as many units.
proof fn lemma_whole_units(bits: nat)
    requires
        bits <= 0x100_0000,
    ensures
        magnitude(bits as u32) == bits,
{
    lemma2_to64();
    lemma_bits_magnitude(bits, 0);
    assert(bits * pow2(0) == bits) by (nonlinear_arith)
        requires
            pow2(0) == 1,
    ;
}

/// The magnitude that magnitude bits stand for: with spacing exponent
/// `e` and significand `m`, `m * 2^e` units. A significand of 2^24 is the
/// first value of the next binade.
pub proof fn lemma_bits_magnitude(m: nat, e: nat)
    requires
        m <= 0x100_0000,
        e > 0 ==> m >= 0x80_0000,
        e * 0x80_0000 + m < 0x7f80_0000,
    ensures
        abs_word((e * 0x80_0000 + m) as u32) == e * 0x80_0000 + m,
        magnitude((e * 0x80_0000 + m) as u32) == m * pow2(e),
{
    lemma2_to64();
    let w = (e * 0x80_0000 + m) as u32;
    if m < 0x80_0000 {
        assert(exponent(w) == 0 && fraction(w) == m);
        assert(m * pow2(0) == m) by (nonlinear_arith)
            requires
                pow2(0) == 1,
        ;
    } else if m < 0x100_0000 {
        assert(exponent(w) == e + 1 && fraction(w) == m - 0x80_0000);
    } else {
        assert(exponent(w) == e + 2 && fraction(w) == 0);
        lemma_pow2_unfold(e + 1);
        assert(0x80_0000 * (2 * pow2(e)) == 0x100_0000 * pow2(e)) by (nonlinear_arith);
    }
}

/// Rounding is to the nearest: a finite result is no further from the
/// exact value than half the spacing of the representable values around
/// it, and exactly halfway it is the even word of the two.
pub proof fn lemma_rounded_is_nearest(num: nat, den: nat)
    requires
        den > 0,
        rounded(num, den) < 0x7f80_0000,
    ensures
        ({
            let w = rounded(num, den) as u32;
            let spacing = den * pow2(grain(num / den));
            let error = magnitude(w) * den - num;
            &&& -spacing <= 2 * error <= spacing
            &&& (2 * error == spacing || 2 * error == -spacing) ==> w % 2 == 0
        }),
{
    let e = grain(num / den);
    let unit = pow2(e);
    lemma_pow2_pos(e);
    let step = den * unit;
    assert(step > 0) by (nonlinear_arith)
        requires
            step == den * unit,
            den > 0,
            unit > 0,
    ;
    let m = num / step;
    let r = num % step;
    lemma_rounded_split(num, den);
    lemma_fundamental_div_mod(num as int, step as int);
    let rounded_m = nearest_even(num, step);
    lemma_bits_magnitude(rounded_m, e);
    let w = rounded(num, den) as u32;
    assert(magnitude(w) * den - num == (rounded_m - m) * step - r) by (nonlinear_arith)
        requires
            magnitude(w) == rounded_m * unit,
            step == den * unit,
            num == step * m + r,
    ;
    assert((rounded_m - m) * step == if rounded_m == m {
        0
    } else {
        step as int
    }) by (nonlinear_arith)
        requires
            rounded_m == m || rounded_m == m + 1,
    ;
}

/// Adding a word to silence gives the word back, but for negative zero,
/// which silence turns positive.
pub proof fn lemma_sum_with_silence(w: u32)
    requires
        !is_nan(w),
        w != SIGN,
    ensures
        sum(0, w) == w,
{
    assert(magnitude(0) == 0) by (nonlinear_arith)
        requires
            magnitude(0) == 0 * pow2(0),
    ;
    if !is_infinite(w) {
        lemma_rounded_exact(w);
        lemma_word_parts(w);
        lemma_pow2_pos(grain_of(w));
        if abs_word(w) > 0 {
            assert(magnitude(w) > 0) by (nonlinear_arith)
                requires
                    magnitude(w) == significand(w) * pow2(grain_of(w)),
                    significand(w) > 0,
                    pow2(grain_of(w)) > 0,
            ;
        } else {
            assert(magnitude(w) == 0) by (nonlinear_arith)
                requires
                    magnitude(w) == significand(w) * pow2(grain_of(w)),
                    significand(w) == 0,
            ;
        }
    }
}

/// A word between -1.0 and 1.0 has a magnitude of at most 2^149 units.
pub proof fn lemma_unit_magnitude(w: u32)
    requires
        abs_word(w) <= 0x3f80_0000,
    ensures
        magnitude(w) <= pow2(149),
{
    lemma2_to64();
    lemma_word_parts(w);
    let g = grain_of(w);
    let m = significand(w);
    lemma_pow2_pos(g);
    lemma_pow2_adds(23, 126);
    if g < 126 {
        lemma_pow2_adds(24, g);
        if 24 + g < 149 {
            lemma_pow2_strictly_increases(24 + g, 149);
        }
        assert(m * pow2(g) < 0x100_0000 * pow2(g)) by (nonlinear_arith)
            requires
                m < 0x100_0000,
                pow2(g) > 0,
        ;
    } else {
        assert(g == 126 && m == 0x80_0000);
    }
}

/// The order of the factors does not matter.
pub proof fn lemma_product_commutes(a: u32, b: u32)
    ensures
        product(a, b) == product(b, a),
{
    assert(magnitude(a) * magnitude(b) == magnitude(b) * magnitude(a)) by (nonlinear_arith);
}

/// The order of the terms does not matter.
pub proof fn lemma_sum_commutes(a: u32, b: u32)
    ensures
        sum(a, b) == sum(b, a),
{
}

} // verus!
