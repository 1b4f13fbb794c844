//! IEEE-754 binary64 values carried as their raw bit patterns, and the
//! comparisons the payload filters make between them and with integers.
//!
//! A value's bits are `sign (1) | exponent (11) | fraction (52)`. Values are
//! compared as numbers: `-0.0` equals `+0.0`, and a NaN is unordered with
//! everything (it compares as `None` and is equal to nothing).

use vstd::prelude::*;
use vstd::arithmetic::power2::{pow2, lemma_pow2_adds, lemma_pow2_unfold, lemma_pow2_strictly_increases, lemma2_to64, lemma2_to64_rest, lemma_pow2_pos};

verus! {

/// The biased exponent field.
pub open spec fn f64_exponent(b: u64) -> u64 {
    (b >> 52u64) & 0x7FFu64
}

/// The fraction field.
pub open spec fn f64_fraction(b: u64) -> u64 {
    b & 0xF_FFFF_FFFF_FFFFu64
}

/// Whether the sign bit is set.
pub open spec fn f64_negative(b: u64) -> bool {
    (b >> 63u64) == 1
}

/// A NaN: all-ones exponent and a non-zero fraction.
pub open spec fn f64_is_nan(b: u64) -> bool {
    f64_exponent(b) == 0x7FF && f64_fraction(b) != 0
}

/// A finite value: the exponent is not all ones.
pub open spec fn f64_is_finite(b: u64) -> bool {
    f64_exponent(b) != 0x7FF
}

/// The magnitude of a finite value, scaled by 2^1074 so that it is an
/// integer: `fraction` for subnormals, `(2^52 + fraction) * 2^(exponent - 1)`
/// for normal values.
pub open spec fn f64_scaled_magnitude(b: u64) -> nat {
    if f64_exponent(b) == 0 {
        f64_fraction(b) as nat
    } else {
        (f64_fraction(b) as nat + pow2(52)) * pow2((f64_exponent(b) - 1) as nat)
    }
}

/// A finite value, scaled by 2^1074.
pub open spec fn f64_scaled(b: u64) -> int {
    if f64_negative(b) {
        -(f64_scaled_magnitude(b) as int)
    } else {
        f64_scaled_magnitude(b) as int
    }
}

/// The sign-magnitude key of a non-NaN value. Ordering non-NaN values by
/// this key is ordering them as numbers (the IEEE-754 encoding is monotone
/// in each sign), with both zeros at key 0.
pub open spec fn f64_key(b: u64) -> int {
    if f64_negative(b) {
        -((b & 0x7FFF_FFFF_FFFF_FFFFu64) as int)
    } else {
        (b & 0x7FFF_FFFF_FFFF_FFFFu64) as int
    }
}

/// The sign of an integer as -1, 0 or 1.
pub open spec fn sign_of(x: int) -> i8 {
    if x < 0 { -1i8 } else if x == 0 { 0i8 } else { 1i8 }
}

/// How two binary64 values order: `None` when either is NaN, otherwise the
/// sign of `a - b`.
pub open spec fn float_order(a: u64, b: u64) -> Option<i8> {
    if f64_is_nan(a) || f64_is_nan(b) {
        None
    } else {
        Some(sign_of(f64_key(a) - f64_key(b)))
    }
}

/// `a == b` as binary64 numbers.
pub open spec fn float_equal(a: u64, b: u64) -> bool {
    float_order(a, b) == Some(0i8)
}

/// Number of binary digits of `u` (0 for 0).
pub open spec fn bit_length(u: nat) -> nat
    decreases u,
{
    if u == 0 { 0 } else { 1 + bit_length(u / 2) }
}

/// `u` rounded to 53 significant bits, ties to even: the magnitude of
/// `u as f64` for a 64-bit integer.
pub open spec fn round_magnitude(u: nat) -> nat {
    if u < pow2(53) {
        u
    } else {
        let step = pow2((bit_length(u) - 53) as nat);
        let q = u / step;
        let rem = u % step;
        if rem * 2 > step || (rem * 2 == step && q % 2 == 1) {
            (q + 1) * step
        } else {
            q * step
        }
    }
}

/// The integer value of `i as f64`.
pub open spec fn f64_round_int(i: int) -> int {
    if i < 0 {
        -(round_magnitude((-i) as nat) as int)
    } else {
        round_magnitude(i as nat) as int
    }
}

/// How `i as f64` orders against the binary64 value `b`: `None` when `b` is
/// NaN, otherwise the sign of `(i as f64) - b`.
pub open spec fn int_float_order(i: int, b: u64) -> Option<i8> {
    if f64_is_nan(b) {
        None
    } else if !f64_is_finite(b) {
        if f64_negative(b) { Some(1i8) } else { Some(-1i8) }
    } else {
        Some(sign_of(f64_round_int(i) * pow2(1074) - f64_scaled(b)))
    }
}

/// Returns whether the binary64 value `b` is finite (neither infinite nor NaN).
pub fn is_finite(b: u64) -> (r: bool)
    ensures
        r == f64_is_finite(b),
{
    ((b >> 52u64) & 0x7FFu64) != 0x7FFu64
}

/// Returns whether the binary64 value `b` is NaN.
pub fn is_nan(b: u64) -> (r: bool)
    ensures
        r == f64_is_nan(b),
{
    ((b >> 52u64) & 0x7FFu64) == 0x7FFu64 && (b & 0xF_FFFF_FFFF_FFFFu64) != 0
}

fn key_of(b: u64) -> (r: i128)
    ensures
        r == f64_key(b),
{
    let magnitude: i128 = (b & 0x7FFF_FFFF_FFFF_FFFFu64) as i128;
    if (b >> 63u64) == 1 {
        -magnitude
    } else {
        magnitude
    }
}

fn sign_i128(x: i128) -> (r: i8)
    ensures
        r == sign_of(x as int),
{
    if x < 0 { -1 } else if x == 0 { 0 } else { 1 }
}

/// Orders two binary64 values as numbers; `None` when either is NaN.
pub fn order_floats(a: u64, b: u64) -> (r: Option<i8>)
    ensures
        r == float_order(a, b),
{
    if is_nan(a) || is_nan(b) {
        return None;
    }
    let ka = key_of(a);
    let kb = key_of(b);
    Some(sign_i128(ka - kb))
}

/// `a == b` on binary64 values: false when either is NaN, and the two zeros
/// are equal.
pub fn floats_equal(a: u64, b: u64) -> (r: bool)
    ensures
        r == float_equal(a, b),
{
    match order_floats(a, b) {
        Some(s) => s == 0,
        None => false,
    }
}

proof fn lemma_bit_length_bounds(u: nat)
    requires
        u > 0,
    ensures
        bit_length(u) >= 1,
        pow2((bit_length(u) - 1) as nat) <= u < pow2(bit_length(u)),
    decreases u,
{
    if u == 1 {
        assert(bit_length(0) == 0);
        assert(bit_length(1) == 1);
        lemma2_to64();
    } else {
        lemma_bit_length_bounds(u / 2);
        let k = bit_length(u / 2);
        assert(bit_length(u) == k + 1);
        lemma_pow2_unfold(k);
        lemma_pow2_unfold(k + 1);
        assert(pow2(k) == 2 * pow2((k - 1) as nat));
    }
}

proof fn lemma_bit_length_at_least(u: nat, k: nat)
    requires
        pow2(k) <= u,
    ensures
        bit_length(u) >= k + 1,
{
    lemma_pow2_pos(k);
    lemma_bit_length_bounds(u);
    if bit_length(u) < k + 1 {
        lemma_pow2_strictly_increases(bit_length(u), k);
        if bit_length(u) == k {
        }
    }
}

proof fn lemma_bit_length_at_most(u: nat, k: nat)
    requires
        0 < u < pow2(k),
    ensures
        bit_length(u) <= k,
{
    lemma_bit_length_bounds(u);
    if bit_length(u) > k {
        if (bit_length(u) - 1) as nat > k {
            lemma_pow2_strictly_increases(k, (bit_length(u) - 1) as nat);
        }
    }
}

/// Rounds a 64-bit magnitude to 53 significant bits, ties to even.
fn round_magnitude_exec(u: u64) -> (r: u128)
    ensures
        r == round_magnitude(u as nat),
        r <= 0x1_0000_0000_0000_0000u128,
{
    proof {
        lemma2_to64();
        lemma2_to64_rest();
    }
    if u < 0x20_0000_0000_0000u64 {
        return u as u128;
    }
    proof {
        lemma_bit_length_at_most(u as nat, 64);
        lemma_bit_length_at_least(u as nat, 53);
    }
    let mut t: u64 = u;
    let mut bl: u64 = 0;
    while t > 0
        invariant
            bit_length(u as nat) == bl + bit_length(t as nat),
            bit_length(u as nat) <= 64,
        decreases t,
    {
        assert(bit_length(t as nat) == 1 + bit_length((t / 2) as nat));
        t = t / 2;
        bl = bl + 1;
    }
    assert(bit_length(0) == 0);
    let mut step: u64 = 1;
    let mut j: u64 = 0;
    while j < bl - 53
        invariant
            bl >= 54,
            bl <= 64,
            j <= bl - 53,
            step == pow2(j as nat),
        decreases bl - 53 - j,
    {
        proof {
            lemma2_to64();
            lemma_pow2_unfold((j + 1) as nat);
            lemma_pow2_strictly_increases(j as nat, 11);
        }
        step = step * 2;
        j = j + 1;
    }
    proof {
        lemma_pow2_pos(j as nat);
        if j < 11 {
            lemma_pow2_strictly_increases(j as nat, 11);
        }
    }
    let q: u64 = u / step;
    let rem: u64 = u % step;
    proof {
        assert(q as nat * step as nat <= u as nat) by (nonlinear_arith)
            requires q == u / step, step > 0;
        lemma_bit_length_bounds(u as nat);
        lemma_pow2_adds(53, j as nat);
        assert(u < pow2(53) * step);
        assert(q < pow2(53)) by (nonlinear_arith)
            requires q == u / step, step > 0, u < pow2(53) * step;
        if bl < 64 {
            lemma_pow2_strictly_increases(bl as nat, 64);
        }
    }
    if rem * 2 > step || (rem * 2 == step && q % 2 == 1) {
        proof {
            assert((q as nat + 1) * step as nat <= pow2(53) * step as nat) by (nonlinear_arith)
                requires q < pow2(53);
        }
        (q as u128 + 1) * (step as u128)
    } else {
        (q as u128) * (step as u128)
    }
}

/// Rounding keeps a non-zero magnitude non-zero.
proof fn lemma_round_magnitude_pos(u: nat)
    requires
        u > 0,
    ensures
        round_magnitude(u) > 0,
{
    if u >= pow2(53) {
        lemma_bit_length_at_least(u, 53);
        lemma_bit_length_bounds(u);
        let k: nat = (bit_length(u) - 53) as nat;
        let step = pow2(k);
        lemma_pow2_pos(k);
        if k < (bit_length(u) - 1) as nat {
            lemma_pow2_strictly_increases(k, (bit_length(u) - 1) as nat);
        }
        assert(step <= u);
        let q = u / step;
        assert(q >= 1) by (nonlinear_arith)
            requires q == u / step, step > 0, step <= u;
        assert(q * step > 0) by (nonlinear_arith)
            requires q >= 1, step > 0;
        assert((q + 1) * step > 0) by (nonlinear_arith)
            requires q >= 1, step > 0;
    }
}

/// An integer against a non-NaN binary64 value of the other sign orders by
/// sign: a negative integer is below every value without the sign bit
/// (both zeros included), and a positive integer is above every value
/// with it.
pub proof fn lemma_int_float_order_by_sign(i: int, b: u64)
    requires
        !f64_is_nan(b),
        (i < 0 && !f64_negative(b)) || (i > 0 && f64_negative(b)),
    ensures
        int_float_order(i, b) == Some(if i < 0 { -1i8 } else { 1i8 }),
{
    if f64_is_finite(b) {
        let m: nat = if i < 0 { (-i) as nat } else { i as nat };
        lemma_round_magnitude_pos(m);
        lemma_pow2_pos(1074);
        let r = f64_round_int(i);
        let c = pow2(1074) as int;
        if i < 0 {
            assert(r <= -1);
            assert(r * c <= -c) by (nonlinear_arith)
                requires r <= -1, c > 0;
            assert(f64_scaled(b) >= 0);
        } else {
            assert(r >= 1);
            assert(r * c >= c) by (nonlinear_arith)
                requires r >= 1, c > 0;
            assert(f64_scaled(b) <= 0);
        }
    }
}

proof fn lemma_sign_scale(c: int, x: int)
    requires
        c > 0,
    ensures
        sign_of(c * x) == sign_of(x),
{
    if x < 0 {
        assert(c * x < 0) by (nonlinear_arith) requires c > 0, x < 0;
    } else if x == 0 {
        assert(c * x == 0) by (nonlinear_arith) requires x == 0;
    } else {
        assert(c * x > 0) by (nonlinear_arith) requires c > 0, x > 0;
    }
}

/// `x * 2^k` by repeated doubling.
fn shift_up(x: u128, k: u64) -> (r: u128)
    requires
        x as nat * pow2(k as nat) <= u128::MAX,
    ensures
        r == x as nat * pow2(k as nat),
{
    let mut acc: u128 = x;
    let mut j: u64 = 0;
    proof {
        lemma2_to64();
    }
    while j < k
        invariant
            j <= k,
            acc == x as nat * pow2(j as nat),
            x as nat * pow2(k as nat) <= u128::MAX,
        decreases k - j,
    {
        proof {
            lemma_pow2_unfold((j + 1) as nat);
            lemma_pow2_strictly_increases(j as nat, k as nat);
            lemma_pow2_pos(j as nat);
            if j + 1 < k {
                lemma_pow2_strictly_increases((j + 1) as nat, k as nat);
            }
            assert(x as nat * pow2((j + 1) as nat) <= x as nat * pow2(k as nat)) by (nonlinear_arith)
                requires pow2((j + 1) as nat) <= pow2(k as nat);
            assert(x as nat * pow2((j + 1) as nat) == 2 * (x as nat * pow2(j as nat))) by (nonlinear_arith)
                requires pow2((j + 1) as nat) == 2 * pow2(j as nat);
        }
        acc = acc * 2;
        j = j + 1;
    }
    acc
}

fn sign_of_difference(x: u128, y: u128) -> (r: i8)
    ensures
        r == sign_of(x - y),
{
    if x < y { -1 } else if x == y { 0 } else { 1 }
}

/// The sign of `a * 2^1074` minus the scaled magnitude of a finite value
/// with exponent field `e` and fraction `f`.
fn order_magnitudes(a: u128, e: u64, f: u64) -> (r: i8)
    requires
        a <= 0x1_0000_0000_0000_0000u128,
        e < 0x7FF,
        f < 0x10_0000_0000_0000u64,
    ensures
        r == sign_of(a * pow2(1074) - (if e == 0 { f as nat } else { (f as nat + pow2(52)) * pow2((e - 1) as nat) })),
{
    proof {
        lemma2_to64();
        lemma2_to64_rest();
    }
    let mant: u128 = if e == 0 { f as u128 } else { f as u128 + 0x10_0000_0000_0000u128 };
    let s: u64 = if e == 0 { 0 } else { e - 1 };
    let ghost magnitude: nat = if e == 0 { f as nat } else { (f as nat + pow2(52)) * pow2((e - 1) as nat) };
    assert(magnitude == mant * pow2(s as nat));
    assert(mant < 0x20_0000_0000_0000u128);
    if s >= 1074 {
        let d: u64 = s - 1074;
        proof {
            lemma_pow2_adds(1074, d as nat);
            lemma_pow2_pos(1074);
            assert(a * pow2(1074) - magnitude == pow2(1074) * (a - mant * pow2(d as nat))) by (nonlinear_arith)
                requires magnitude == mant * pow2(s as nat), pow2(s as nat) == pow2(1074) * pow2(d as nat);
            lemma_sign_scale(pow2(1074) as int, a - mant * pow2(d as nat));
        }
        if d >= 13 {
            proof {
                assert(mant >= 0x10_0000_0000_0000u128);
                if d > 13 {
                    lemma_pow2_strictly_increases(13, d as nat);
                }
                assert(mant * pow2(d as nat) > a) by (nonlinear_arith)
                    requires mant >= 0x10_0000_0000_0000u128, pow2(d as nat) >= pow2(13), pow2(13) == 0x2000nat,
                        a <= 0x1_0000_0000_0000_0000u128;
            }
            -1
        } else {
            proof {
                if d < 13 {
                    lemma_pow2_strictly_increases(d as nat, 13);
                }
                assert(mant * pow2(d as nat) <= u128::MAX) by (nonlinear_arith)
                    requires mant < 0x20_0000_0000_0000u128, pow2(d as nat) < pow2(13), pow2(13) == 0x2000nat;
            }
            let scaled = shift_up(mant, d);
            sign_of_difference(a, scaled)
        }
    } else {
        let d: u64 = 1074 - s;
        proof {
            lemma_pow2_adds(s as nat, d as nat);
            lemma_pow2_pos(s as nat);
            assert(a * pow2(1074) - magnitude == pow2(s as nat) * (a * pow2(d as nat) - mant)) by (nonlinear_arith)
                requires magnitude == mant * pow2(s as nat), pow2(1074) == pow2(s as nat) * pow2(d as nat);
            lemma_sign_scale(pow2(s as nat) as int, a * pow2(d as nat) - mant);
        }
        if d >= 64 {
            if a == 0 {
                if mant == 0 { 0 } else { -1 }
            } else {
                proof {
                    if d > 64 {
                        lemma_pow2_strictly_increases(64, d as nat);
                    }
                    assert(a * pow2(d as nat) >= pow2(64)) by (nonlinear_arith)
                        requires a >= 1, pow2(d as nat) >= pow2(64);
                }
                1
            }
        } else {
            proof {
                if d < 64 {
                    lemma_pow2_strictly_increases(d as nat, 64);
                }
                assert(a * pow2(d as nat) <= u128::MAX) by (nonlinear_arith)
                    requires a <= 0x1_0000_0000_0000_0000u128, pow2(d as nat) < pow2(64),
                        pow2(64) == 0x1_0000_0000_0000_0000nat;
            }
            let scaled = shift_up(a, d);
            sign_of_difference(scaled, mant)
        }
    }
}

/// Orders `i as f64` against the binary64 value `b`; `None` when `b` is NaN.
/// The integer is first rounded to binary64, as the `as` conversion does.
pub fn order_int_float(i: i64, b: u64) -> (r: Option<i8>)
    ensures
        r == int_float_order(i as int, b),
{
    if is_nan(b) {
        return None;
    }
    let e: u64 = (b >> 52u64) & 0x7FFu64;
    let f: u64 = b & 0xF_FFFF_FFFF_FFFFu64;
    let negative: bool = (b >> 63u64) == 1;
    if e == 0x7FFu64 {
        return Some(if negative { 1 } else { -1 });
    }
    proof {
        assert(b & 0xF_FFFF_FFFF_FFFFu64 <= 0xF_FFFF_FFFF_FFFFu64) by (bit_vector);
        assert((b >> 52u64) & 0x7FFu64 <= 0x7FFu64) by (bit_vector);
    }
    let rounded: i128 = round_to_f64(i);
    let a: u128 = if rounded < 0 { (-rounded) as u128 } else { rounded as u128 };
    let m = order_magnitudes(a, e, f);
    let ghost magnitude = f64_scaled_magnitude(b);
    proof {
        lemma_pow2_pos(1074);
        assert(a * pow2(1074) >= 0) by (nonlinear_arith) requires a >= 0, pow2(1074) > 0;
        if a > 0 {
            assert(a * pow2(1074) > 0) by (nonlinear_arith) requires a > 0, pow2(1074) > 0;
        }
        assert(rounded * pow2(1074) == (if rounded < 0 { -(a * pow2(1074)) } else { a * pow2(1074) })) by (nonlinear_arith)
            requires a == (if rounded < 0 { -rounded } else { rounded as int });
        lemma_pow2_pos(52);
        if e > 0 {
            lemma_pow2_pos((e - 1) as nat);
            assert(magnitude > 0) by (nonlinear_arith)
                requires magnitude == (f as nat + pow2(52)) * pow2((e - 1) as nat), pow2(52) > 0, pow2((e - 1) as nat) > 0;
        }
    }
    assert(negative == f64_negative(b));
    assert(e == f64_exponent(b));
    assert(f == f64_fraction(b));
    assert(rounded == f64_round_int(i as int));
    assert(m == sign_of(a * pow2(1074) - magnitude));
    if rounded >= 0 && !negative {
        assert(f64_scaled(b) == magnitude);
        Some(m)
    } else if rounded < 0 && negative {
        assert(f64_scaled(b) == -magnitude);
        assert(rounded * pow2(1074) - f64_scaled(b) == -(a * pow2(1074) - magnitude));
        Some(-m)
    } else if rounded >= 0 && negative {
        assert(f64_scaled(b) == -magnitude);
        assert(rounded * pow2(1074) == a * pow2(1074));
        if a == 0 && e == 0 && f == 0 {
            assert(magnitude == 0);
            assert(a * pow2(1074) == 0) by (nonlinear_arith) requires a == 0;
            assert(rounded * pow2(1074) - f64_scaled(b) == 0);
            Some(0)
        } else {
            assert(a * pow2(1074) > 0 || magnitude > 0);
            assert(rounded * pow2(1074) - f64_scaled(b) > 0);
            Some(1)
        }
    } else {
        assert(f64_scaled(b) == magnitude);
        assert(a > 0);
        assert(rounded * pow2(1074) == -(a * pow2(1074)));
        assert(rounded * pow2(1074) - f64_scaled(b) < 0);
        Some(-1)
    }
}

/// The integer value of `i as f64`, exact.
pub fn round_to_f64(i: i64) -> (r: i128)
    ensures
        r == f64_round_int(i as int),
        -0x1_0000_0000_0000_0000int <= r <= 0x1_0000_0000_0000_0000int,
{
    if i < 0 {
        let u: u64 = if i == i64::MIN { 0x8000_0000_0000_0000u64 } else { (-i) as u64 };
        let m = round_magnitude_exec(u);
        -(m as i128)
    } else {
        let m = round_magnitude_exec(i as u64);
        m as i128
    }
}

} // verus!
