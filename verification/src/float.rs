//! IEEE 754 floats as bit patterns: order, equality, and conversion between the
//! two widths, all by integer arithmetic.
use vstd::arithmetic::power2::lemma_pow2_adds;
use vstd::arithmetic::power2::lemma_pow2_pos;
use vstd::arithmetic::power2::lemma_pow2_strictly_increases;
use vstd::arithmetic::power2::lemma_pow2_unfold;
use vstd::arithmetic::power2::pow2;
use vstd::prelude::*;

verus! {

/// A binary64 pattern without its sign bit.
pub open spec fn magnitude(b: u64) -> int {
    b as int % 0x8000_0000_0000_0000
}

/// Whether a binary64 pattern has its sign bit set.
pub open spec fn negative(b: u64) -> bool {
    b >= 0x8000_0000_0000_0000
}

/// The eleven exponent bits.
pub open spec fn exponent(b: u64) -> int {
    magnitude(b) / 0x10_0000_0000_0000
}

/// The fifty-two fraction bits.
pub open spec fn fraction(b: u64) -> int {
    magnitude(b) % 0x10_0000_0000_0000
}

/// Not a number: all exponent bits set and a fraction that is not zero.
pub open spec fn is_nan(b: u64) -> bool {
    magnitude(b) > 0x7ff0_0000_0000_0000
}

/// An integer that orders all patterns but the NaNs as the numbers they stand for;
/// both zeros have key zero.
pub open spec fn float_key(b: u64) -> int {
    if negative(b) {
        -magnitude(b)
    } else {
        magnitude(b)
    }
}

/// The number a pattern stands for, in units of `2^-1074`; an infinity is one step past the
/// largest finite number.
pub open spec fn units(b: u64) -> int {
    let m = if exponent(b) == 0 {
        fraction(b)
    } else {
        (0x10_0000_0000_0000 + fraction(b)) * pow2((exponent(b) - 1) as nat)
    };
    if negative(b) {
        -m
    } else {
        m
    }
}

/// `m / d` rounded to the nearest integer, a tie to the even one.
pub open spec fn round_half_even(m: int, d: int) -> int {
    if 2 * (m % d) > d || (2 * (m % d) == d && (m / d) % 2 == 1) {
        m / d + 1
    } else {
        m / d
    }
}

/// The binary32 pattern, without its sign bit, nearest to a binary64 one.
pub open spec fn narrow_magnitude(e: int, f: int) -> int {
    if e == 2047 && f != 0 {
        0x7fc0_0000 + (f / 0x2000_0000) % 0x40_0000
    } else if e >= 1151 {
        0x7f80_0000
    } else if e >= 897 {
        (e - 897) * 0x80_0000 + round_half_even(0x10_0000_0000_0000 + f, 0x2000_0000)
    } else if e >= 1 {
        round_half_even(0x10_0000_0000_0000 + f, pow2((926 - e) as nat) as int)
    } else {
        0
    }
}

/// A binary64 pattern converted to binary32: round to nearest, ties to even, overflow to
/// infinity, NaNs quiet.
pub open spec fn narrow(b: u64) -> int {
    narrow_magnitude(exponent(b), fraction(b)) + if negative(b) {
        0x8000_0000int
    } else {
        0
    }
}

/// A whole number rounded to the 53 significant bits of a binary64: to nearest, ties to even.
pub open spec fn round_53(m: int) -> int {
    if m < 0x20_0000_0000_0000 {
        m
    } else {
        let d = pow2((top_bit(m) - 52) as nat) as int;
        round_half_even(m, d) * d
    }
}

/// The index of the highest bit set in `m`.
pub open spec fn top_bit(m: int) -> nat
    decreases m,
{
    if m <= 1 {
        0
    } else {
        1 + top_bit(m / 2)
    }
}

/// The binary64 pattern, without its sign bit, of a binary32 number.
pub open spec fn widen_magnitude(e: int, f: int) -> int {
    if e == 255 {
        if f == 0 {
            0x7ff0_0000_0000_0000
        } else {
            0x7ff8_0000_0000_0000 + (f % 0x40_0000) * 0x2000_0000
        }
    } else if e > 0 {
        (e + 896) * 0x10_0000_0000_0000 + f * 0x2000_0000
    } else if f == 0 {
        0
    } else {
        (top_bit(f) + 874) * 0x10_0000_0000_0000 + (f * pow2((52 - top_bit(f)) as nat)
            - 0x10_0000_0000_0000)
    }
}

/// A binary32 pattern converted to binary64, which holds every binary32 number exactly.
pub open spec fn widen(b: u32) -> int {
    let m = b as int % 0x8000_0000;
    widen_magnitude(m / 0x80_0000, m % 0x80_0000) + if b >= 0x8000_0000 {
        0x8000_0000_0000_0000int
    } else {
        0
    }
}

/// A binary32 pattern that is not a number.
pub open spec fn is_nan32(b: u32) -> bool {
    b as int % 0x8000_0000 > 0x7f80_0000
}

pub proof fn lemma_pow2_literals()
    ensures
        pow2(0) == 1,
        pow2(23) == 0x80_0000,
        pow2(29) == 0x2000_0000,
        pow2(30) == 0x4000_0000,
        pow2(52) == 0x10_0000_0000_0000,
        pow2(53) == 0x20_0000_0000_0000,
        pow2(54) == 0x40_0000_0000_0000,
        pow2(55) == 0x80_0000_0000_0000,
{
    vstd::arithmetic::power2::lemma2_to64();
    vstd::arithmetic::power2::lemma2_to64_rest();
}

pub proof fn lemma_top_bit(m: int)
    requires
        m >= 1,
    ensures
        pow2(top_bit(m)) <= m < 2 * pow2(top_bit(m)),
    decreases m,
{
    lemma_pow2_literals();
    if m > 1 {
        lemma_top_bit(m / 2);
        lemma_pow2_unfold(top_bit(m));
    }
}

/// A binary32 fraction has its highest bit below position twenty-three.
pub proof fn lemma_top_bit_small(m: int)
    requires
        1 <= m < 0x80_0000,
    ensures
        top_bit(m) <= 22,
{
    lemma_top_bit(m);
    lemma_pow2_literals();
    if top_bit(m) > 23 {
        lemma_pow2_strictly_increases(23, top_bit(m));
    }
}

/// The pattern of a widened subnormal: its fraction, shifted up until the leading bit reaches
/// the implicit position.
pub proof fn lemma_widened_subnormal(f: int)
    requires
        1 <= f < 0x80_0000,
    ensures
        top_bit(f) <= 22,
        0x10_0000_0000_0000 <= f * pow2((52 - top_bit(f)) as nat) < 0x20_0000_0000_0000,
{
    lemma_top_bit(f);
    lemma_top_bit_small(f);
    lemma_pow2_literals();
    let k = top_bit(f);
    let p = pow2(k) as int;
    let q = pow2((52 - k) as nat) as int;
    lemma_pow2_adds(k, (52 - k) as nat);
    lemma_pow2_pos((52 - k) as nat);
    assert(p * q <= f * q < 2 * p * q) by (nonlinear_arith)
        requires
            p <= f < 2 * p,
            q > 0,
    ;
    assert(2 * p * q == 2 * (p * q)) by (nonlinear_arith);
}

/// Both conversions fit their width.
pub proof fn lemma_conversions_fit(e: int, f: int)
    ensures
        0 <= e < 2048 && 0 <= f < 0x10_0000_0000_0000 ==> 0 <= narrow_magnitude(e, f)
            < 0x8000_0000,
        0 <= e < 256 && 0 <= f < 0x80_0000 ==> 0 <= widen_magnitude(e, f) < 0x8000_0000_0000_0000,
{
    if 0 <= e < 2048 && 0 <= f < 0x10_0000_0000_0000 {
        if 1 <= e < 897 {
            lemma_subnormal_result(e, f);
        }
    }
    if e == 0 && 1 <= f < 0x80_0000 {
        lemma_widened_subnormal(f);
    }
}

/// A number below the normal range of binary32 rounds to at most the least normal one, and
/// to zero once it is less than half the least subnormal.
proof fn lemma_subnormal_result(e: int, f: int)
    requires
        1 <= e < 897,
        0 <= f < 0x10_0000_0000_0000,
    ensures
        0 <= narrow_magnitude(e, f) <= 0x80_0000,
        e <= 871 ==> narrow_magnitude(e, f) == 0,
{
    let d = pow2((926 - e) as nat) as int;
    let m = 0x10_0000_0000_0000 + f;
    lemma_pow2_literals();
    lemma_pow2_pos((926 - e) as nat);
    if 926 - e > 30 {
        lemma_pow2_strictly_increases(30, (926 - e) as nat);
    }
    if e <= 871 {
        if 926 - e > 55 {
            lemma_pow2_strictly_increases(55, (926 - e) as nat);
        }
        assert(m / d == 0 && m % d == m) by (nonlinear_arith)
            requires
                0 <= m < d,
        ;
    } else {
        assert(0 <= m / d <= 0x7f_ffff) by (nonlinear_arith)
            requires
                0x4000_0000 <= d,
                0 <= m < 0x20_0000_0000_0000,
        ;
    }
}

/// Converting a binary32 number to binary64 and back gives it again.
pub proof fn law_narrow_undoes_widen(b: u32)
    requires
        !is_nan32(b),
    ensures
        narrow(widen(b) as u64) == b,
{
    let m = b as int % 0x8000_0000;
    let e = m / 0x80_0000;
    let f = m % 0x80_0000;
    lemma_conversions_fit(e, f);
    let w = widen(b) as u64;
    assert(magnitude(w) == widen_magnitude(e, f));
    assert(negative(w) == (b >= 0x8000_0000));
    if e == 0 && f > 0 {
        lemma_widened_subnormal(f);
        let k = top_bit(f);
        let d = pow2((52 - k) as nat) as int;
        assert(exponent(w) == k + 874);
        assert(fraction(w) == f * d - 0x10_0000_0000_0000);
        lemma_pow2_pos((52 - k) as nat);
        assert((f * d) / d == f && (f * d) % d == 0) by (nonlinear_arith)
            requires
                d > 0,
        ;
    }
}

/// The key orders patterns as the numbers they stand for.
pub proof fn law_key_orders_numbers(a: u64, b: u64)
    requires
        !is_nan(a),
        !is_nan(b),
    ensures
        float_key(a) < float_key(b) <==> units(a) < units(b),
        float_key(a) == float_key(b) <==> units(a) == units(b),
{
    if magnitude(a) <= magnitude(b) {
        lemma_units_grow(magnitude(a), magnitude(b));
    } else {
        lemma_units_grow(magnitude(b), magnitude(a));
    }
    lemma_units_grow(0, magnitude(a));
    lemma_units_grow(0, magnitude(b));
}

/// The number a pattern without a sign stands for, in units of `2^-1074`.
spec fn magnitude_units(m: int) -> int {
    if m / 0x10_0000_0000_0000 == 0 {
        m % 0x10_0000_0000_0000
    } else {
        (0x10_0000_0000_0000 + m % 0x10_0000_0000_0000) * pow2((m / 0x10_0000_0000_0000 - 1) as nat)
    }
}

proof fn lemma_units_grow(a: int, b: int)
    requires
        0 <= a <= b,
    ensures
        a < b ==> magnitude_units(a) < magnitude_units(b),
        0 <= magnitude_units(a),
{
    let (ea, fa) = (a / 0x10_0000_0000_0000, a % 0x10_0000_0000_0000);
    let (eb, fb) = (b / 0x10_0000_0000_0000, b % 0x10_0000_0000_0000);
    lemma_pow2_literals();
    if ea > 0 {
        let pa = pow2((ea - 1) as nat) as int;
        let pb = pow2((eb - 1) as nat) as int;
        lemma_pow2_pos((ea - 1) as nat);
        lemma_pow2_unfold(ea as nat);
        assert(0 <= (0x10_0000_0000_0000 + fa) * pa < 0x10_0000_0000_0000 * (2 * pa)) by (
        nonlinear_arith)
            requires
                0 <= fa < 0x10_0000_0000_0000,
                pa > 0,
        ;
        if ea < eb {
            if ea < eb - 1 {
                lemma_pow2_strictly_increases(ea as nat, (eb - 1) as nat);
            }
            assert(0x10_0000_0000_0000 * (2 * pa) <= (0x10_0000_0000_0000 + fb) * pb) by (
            nonlinear_arith)
                requires
                    0 <= fb,
                    0 < 2 * pa <= pb,
            ;
        } else if fa < fb {
            assert((0x10_0000_0000_0000 + fa) * pa < (0x10_0000_0000_0000 + fb) * pa) by (
            nonlinear_arith)
                requires
                    fa < fb,
                    pa > 0,
            ;
        }
    } else if eb > 0 {
        let pb = pow2((eb - 1) as nat) as int;
        lemma_pow2_pos((eb - 1) as nat);
        assert(0x10_0000_0000_0000 <= (0x10_0000_0000_0000 + fb) * pb) by (nonlinear_arith)
            requires
                0 <= fb,
                pb >= 1,
        ;
    }
}

/// The key of a pattern that is a number; `None` for a NaN.
pub fn number_key(b: u64) -> (r: Option<i64>)
    ensures
        r == (if is_nan(b) {
            None
        } else {
            Some(float_key(b) as i64)
        }),
        r matches Some(k) ==> k == float_key(b),
{
    let negative: bool = b >= 0x8000_0000_0000_0000;
    let m: u64 = b % 0x8000_0000_0000_0000;
    if m > 0x7ff0_0000_0000_0000 {
        None
    } else if negative {
        Some(-(m as i64))
    } else {
        Some(m as i64)
    }
}

/// `2^n`.
fn two_to(n: u64) -> (r: u64)
    requires
        n <= 54,
    ensures
        r == pow2(n as nat),
{
    proof {
        lemma_pow2_literals();
    }
    let mut r: u64 = 1;
    let mut i: u64 = 0;
    while i < n
        invariant
            i <= n <= 54,
            r == pow2(i as nat),
        decreases n - i,
    {
        proof {
            lemma_pow2_unfold((i + 1) as nat);
            lemma_pow2_literals();
            if i + 1 < 54 {
                lemma_pow2_strictly_increases((i + 1) as nat, 54);
            }
        }
        r = r * 2;
        i = i + 1;
    }
    r
}

fn half_even(m: u64, d: u64) -> (r: u64)
    requires
        0 < d <= 0x40_0000_0000_0000,
        m < 0x20_0000_0000_0000,
    ensures
        r == round_half_even(m as int, d as int),
{
    let q: u64 = m / d;
    let rest: u64 = m % d;
    proof {
        assert(m / d <= m) by (nonlinear_arith)
            requires
                d > 0,
        ;
    }
    if 2 * rest > d || (2 * rest == d && q % 2 == 1) {
        q + 1
    } else {
        q
    }
}

/// Binary64 to binary32.
pub fn f64_to_f32(b: u64) -> (r: u32)
    ensures
        r == narrow(b),
{
    let m: u64 = b % 0x8000_0000_0000_0000;
    let e: u64 = m / 0x10_0000_0000_0000;
    let f: u64 = m % 0x10_0000_0000_0000;
    proof {
        lemma_conversions_fit(e as int, f as int);
        if 1 <= e < 897 {
            lemma_subnormal_result(e as int, f as int);
        }
        lemma_pow2_literals();
        if 872 <= e < 897 && e > 872 {
            lemma_pow2_strictly_increases((926 - e) as nat, 54);
        }
        if e <= 896 {
            lemma_pow2_pos((926 - e) as nat);
        }
    }
    let out: u64 = if e == 2047 && f != 0 {
        0x7fc0_0000 + (f / 0x2000_0000) % 0x40_0000
    } else if e >= 1151 {
        0x7f80_0000
    } else if e >= 897 {
        (e - 897) * 0x80_0000 + half_even(0x10_0000_0000_0000 + f, 0x2000_0000)
    } else if e >= 872 {
        half_even(0x10_0000_0000_0000 + f, two_to(926 - e))
    } else {
        0
    };
    if b >= 0x8000_0000_0000_0000 {
        (out + 0x8000_0000) as u32
    } else {
        out as u32
    }
}

/// Binary32 to binary64.
pub fn f32_to_f64(b: u32) -> (r: u64)
    ensures
        r == widen(b),
{
    let m: u64 = b as u64 % 0x8000_0000;
    let e: u64 = m / 0x80_0000;
    let f: u64 = m % 0x80_0000;
    proof {
        lemma_conversions_fit(e as int, f as int);
    }
    let out: u64 = if e == 255 {
        if f == 0 {
            0x7ff0_0000_0000_0000
        } else {
            0x7ff8_0000_0000_0000 + (f % 0x40_0000) * 0x2000_0000
        }
    } else if e > 0 {
        (e + 896) * 0x10_0000_0000_0000 + f * 0x2000_0000
    } else if f == 0 {
        0
    } else {
        proof {
            lemma_widened_subnormal(f as int);
            lemma_pow2_literals();
        }
        let mut k: u64 = 0;
        let mut rest: u64 = f;
        while rest > 1
            invariant
                1 <= rest,
                top_bit(f as int) == k + top_bit(rest as int),
                top_bit(f as int) <= 22,
            decreases rest,
        {
            rest = rest / 2;
            k = k + 1;
        }
        (k + 874) * 0x10_0000_0000_0000 + (f * two_to(52 - k) - 0x10_0000_0000_0000)
    };
    if b >= 0x8000_0000 {
        out + 0x8000_0000_0000_0000
    } else {
        out
    }
}

/// Rounding to 53 bits at most doubles a number.
pub proof fn lemma_round_53(m: int)
    requires
        m >= 0,
    ensures
        0 <= round_53(m) <= 2 * m,
{
    if m >= 0x20_0000_0000_0000 {
        lemma_top_bit(m);
        lemma_pow2_literals();
        let t = top_bit(m);
        if t < 52 {
            lemma_pow2_unfold((t + 1) as nat);
            if t + 1 < 52 {
                lemma_pow2_strictly_increases((t + 1) as nat, 52);
            }
        }
        let k = (t - 52) as nat;
        let d = pow2(k) as int;
        lemma_pow2_pos(k);
        lemma_pow2_adds(k, 52);
        assert(round_half_even(m, d) * d <= m + d) by (nonlinear_arith)
            requires
                d > 0,
                round_half_even(m, d) <= m / d + 1,
        ;
        assert(0 <= round_half_even(m, d) * d) by (nonlinear_arith)
            requires
                d > 0,
                m >= 0,
                round_half_even(m, d) >= m / d,
        ;
    }
}

/// Round a whole number to the 53 significant bits of a binary64.
pub fn round_to_double(m: u128) -> (r: u128)
    requires
        m < 0x8000_0000_0000_0000_0000_0000_0000_0000,
    ensures
        r == round_53(m as int),
{
    if m < 0x20_0000_0000_0000 {
        return m;
    }
    let mut d: u128 = 1;
    let mut rest: u128 = m;
    let ghost mut k: nat = 0;
    proof {
        lemma_pow2_literals();
        lemma_top_bit(m as int);
        assert(m / 1 == m);
    }
    while rest >= 0x20_0000_0000_0000
        invariant
            m < 0x8000_0000_0000_0000_0000_0000_0000_0000,
            d == pow2(k),
            rest == m / d,
            top_bit(m as int) == k + top_bit(rest as int),
            rest >= 0x10_0000_0000_0000,
            0 < d <= 0x8000_0000_0000_0000_0000,
            d * 0x10_0000_0000_0000 <= m,
        decreases rest,
    {
        proof {
            lemma_pow2_unfold(k + 1);
            assert(d * 2 * 0x10_0000_0000_0000 <= m) by (nonlinear_arith)
                requires
                    rest == m / d,
                    rest >= 0x20_0000_0000_0000,
                    d > 0,
            ;
            assert(m as int / (d * 2) == (m as int / d as int) / 2) by (nonlinear_arith)
                requires
                    d > 0,
            ;
            k = k + 1;
        }
        rest = rest / 2;
        d = d * 2;
    }
    proof {
        lemma_top_bit(rest as int);
        lemma_pow2_literals();
        if top_bit(rest as int) < 52 {
            lemma_pow2_unfold((top_bit(rest as int) + 1) as nat);
            if top_bit(rest as int) + 1 < 52 {
                lemma_pow2_strictly_increases((top_bit(rest as int) + 1) as nat, 52);
            }
        }
        if top_bit(rest as int) > 52 {
            if top_bit(rest as int) > 53 {
                lemma_pow2_strictly_increases(53, top_bit(rest as int));
            }
        }
        assert(top_bit(m as int) - 52 == k);
    }
    let q: u128 = m / d;
    let low: u128 = m % d;
    let rounded: u128 = if 2 * low > d || (2 * low == d && q % 2 == 1) {
        q + 1
    } else {
        q
    };
    proof {
        assert(rounded * d <= m + d) by (nonlinear_arith)
            requires
                d > 0,
                rounded <= m / d + 1,
        ;
    }
    rounded * d
}

/// The fields of a binary64 pattern: the sign is the top bit, the exponent the eleven bits below
/// it, the fraction the rest. A NaN has all exponent bits set and a fraction that is not zero.
pub proof fn law_patterns_have_three_fields(b: u64)
    ensures
        negative(b) <==> b >> 63 == 1,
        exponent(b) == (b >> 52) & 0x7ff,
        fraction(b) == b & 0xf_ffff_ffff_ffff,
        is_nan(b) <==> (b >> 52) & 0x7ff == 0x7ff && b & 0xf_ffff_ffff_ffff != 0,
{
    assert(b >= 0x8000_0000_0000_0000 <==> b >> 63 == 1) by (bit_vector);
    assert((b % 0x8000_0000_0000_0000u64) / 0x10_0000_0000_0000u64 == (b >> 52) & 0x7ff)
        by (bit_vector);
    assert((b % 0x8000_0000_0000_0000u64) % 0x10_0000_0000_0000u64 == b & 0xf_ffff_ffff_ffff)
        by (bit_vector);
    assert(b % 0x8000_0000_0000_0000u64 > 0x7ff0_0000_0000_0000u64 <==> (b >> 52) & 0x7ff == 0x7ff
        && b & 0xf_ffff_ffff_ffff != 0) by (bit_vector);
}

/// The number a binary32 pattern stands for, in units of `2^-1074`; an infinity is that of
/// binary64.
pub open spec fn units_32(b: u32) -> int {
    let m = b as int % 0x8000_0000;
    let e = m / 0x80_0000;
    let f = m % 0x80_0000;
    let size = if e == 255 {
        0x10_0000_0000_0000int * pow2(2046)
    } else if e == 0 {
        f * pow2(925)
    } else {
        (0x80_0000 + f) * pow2((e + 924) as nat)
    };
    if b >= 0x8000_0000 {
        -size
    } else {
        size
    }
}

/// Widening keeps the number: a binary32 pattern and the binary64 pattern made of it stand for
/// the same one, or are both no number.
#[verifier::rlimit(40)]
pub proof fn law_widening_keeps_the_number(b: u32)
    ensures
        0 <= widen(b) <= u64::MAX,
        !is_nan32(b) ==> !is_nan(widen(b) as u64) && units(widen(b) as u64) == units_32(b),
        is_nan32(b) ==> is_nan(widen(b) as u64),
{
    let m = b as int % 0x8000_0000;
    let e = m / 0x80_0000;
    let f = m % 0x80_0000;
    lemma_conversions_fit(e, f);
    let w = widen(b) as u64;
    assert(magnitude(w) == widen_magnitude(e, f));
    assert(negative(w) == (b >= 0x8000_0000));
    lemma_pow2_literals();
    let size = if negative(w) {
        -units(w)
    } else {
        units(w)
    };
    if e == 255 {
        if f == 0 {
            assert(exponent(w) == 2047);
            assert(fraction(w) == 0);
            assert(size == 0x10_0000_0000_0000 * pow2(2046));
        }
    } else if e > 0 {
        assert(exponent(w) == e + 896);
        assert(fraction(w) == f * 0x2000_0000);
        lemma_pow2_adds(29, (e + 895) as nat);
        let p = pow2((e + 895) as nat) as int;
        assert((0x10_0000_0000_0000 + f * 0x2000_0000) * p == (0x80_0000 + f) * (0x2000_0000 * p))
            by (nonlinear_arith);
        assert(size == (0x80_0000 + f) * pow2((e + 924) as nat));
    } else if f > 0 {
        lemma_widened_subnormal(f);
        let k = top_bit(f);
        let d = pow2((52 - k) as nat) as int;
        assert(exponent(w) == k + 874);
        assert(fraction(w) == f * d - 0x10_0000_0000_0000);
        lemma_pow2_adds((52 - k) as nat, (k + 873) as nat);
        let p = pow2((k + 873) as nat) as int;
        assert((f * d) * p == f * (d * p)) by (nonlinear_arith);
        assert(size == f * pow2(925));
        lemma_widened_exponent(w, k, f, d);
    } else {
        assert(f * pow2(925) == 0) by (nonlinear_arith)
            requires
                f == 0,
        ;
        assert(fraction(w) == 0);
    }
}

/// A widened subnormal is far below the infinities.
proof fn lemma_widened_exponent(w: u64, k: nat, f: int, d: int)
    requires
        k <= 22,
        exponent(w) == k + 874,
    ensures
        !is_nan(w),
{
}

/// Rounding errs by at most half a step, and goes to the even side where it errs by half.
pub proof fn law_rounding_goes_to_the_nearest(m: int, d: int)
    requires
        m >= 0,
        d > 0,
    ensures
        -d <= 2 * (round_half_even(m, d) * d - m) <= d,
        2 * (round_half_even(m, d) * d - m) == d || 2 * (round_half_even(m, d) * d - m) == -d
            ==> round_half_even(m, d) % 2 == 0,
{
    let q = m / d;
    let r = m % d;
    assert(m == q * d + r && 0 <= r < d) by (nonlinear_arith)
        requires
            q == m / d,
            r == m % d,
            d > 0,
    ;
    assert((q + 1) * d == q * d + d) by (nonlinear_arith);
}

/// Narrowing goes to the nearest binary32 number: the sign stays; from the least normal number
/// on, the error is at most half of the 24th significant bit, and below it at most half of the
/// least subnormal number; of two that are equally near, it takes the even pattern. A number too
/// large becomes an infinity.
#[verifier::rlimit(40)]
pub proof fn law_narrowing_goes_to_the_nearest(b: u64)
    requires
        !is_nan(b),
    ensures
        0 <= narrow(b) <= u32::MAX,
        (narrow(b) as u32 >= 0x8000_0000) == negative(b),
        exponent(b) >= 1151 ==> narrow(b) % 0x8000_0000 == 0x7f80_0000,
        897 <= exponent(b) < 1151 && narrow(b) % 0x8000_0000 < 0x7f80_0000 ==> {
            let err = 2 * (units_32(narrow(b) as u32) - units(b));
            let step = pow2((exponent(b) + 28) as nat);
            &&& -step <= err <= step
            &&& err == step || err == -step ==> narrow(b) % 2 == 0
        },
        exponent(b) < 897 ==> {
            let err = 2 * (units_32(narrow(b) as u32) - units(b));
            let step = pow2(925);
            &&& -step <= err <= step
            &&& err == step || err == -step ==> narrow(b) % 2 == 0
        },
{
    let e = exponent(b);
    let f = fraction(b);
    lemma_conversions_fit(e, f);
    let n = narrow_magnitude(e, f);
    let c = narrow(b) as u32;
    assert(c as int % 0x8000_0000 == n);
    let m = 0x10_0000_0000_0000 + f;
    lemma_pow2_literals();
    if 897 <= e < 1151 {
        let q = round_half_even(m, 0x2000_0000);
        law_rounding_goes_to_the_nearest(m, 0x2000_0000);
        let p = pow2((e - 1) as nat) as int;
        lemma_pow2_pos((e - 1) as nat);
        lemma_pow2_adds(29, (e - 1) as nat);
        assert(pow2((e + 28) as nat) == 0x2000_0000 * p);
        if n < 0x7f80_0000 {
            lemma_normal_units(e, q, n);
        }
        let size = q * (0x2000_0000 * p);
        assert(2 * (size - m * p) == (2 * (q * 0x2000_0000 - m)) * p) by (nonlinear_arith)
            requires
                size == q * (0x2000_0000 * p),
        ;
        let x = 2 * (q * 0x2000_0000 - m);
        assert(-(0x2000_0000 * p) <= x * p <= 0x2000_0000 * p) by (nonlinear_arith)
            requires
                -0x2000_0000 <= x <= 0x2000_0000,
                p > 0,
        ;
        assert(x * p == 0x2000_0000 * p ==> x == 0x2000_0000) by (nonlinear_arith)
            requires
                p > 0,
        ;
        assert(x * p == -(0x2000_0000 * p) ==> x == -0x2000_0000) by (nonlinear_arith)
            requires
                p > 0,
        ;
    } else if 1 <= e < 897 {
        let d = pow2((926 - e) as nat) as int;
        lemma_pow2_pos((926 - e) as nat);
        law_rounding_goes_to_the_nearest(m, d);
        lemma_subnormal_result(e, f);
        let q = round_half_even(m, d);
        let p = pow2((e - 1) as nat) as int;
        lemma_pow2_pos((e - 1) as nat);
        lemma_pow2_adds((926 - e) as nat, (e - 1) as nat);
        assert(pow2(925) == d * p);
        let size = q * (d * p);
        assert(2 * (size - m * p) == (2 * (q * d - m)) * p) by (nonlinear_arith)
            requires
                size == q * (d * p),
        ;
        let x = 2 * (q * d - m);
        assert(-(d * p) <= x * p <= d * p) by (nonlinear_arith)
            requires
                -d <= x <= d,
                p > 0,
        ;
        assert(x * p == d * p ==> x == d) by (nonlinear_arith)
            requires
                p > 0,
        ;
        assert(x * p == -(d * p) ==> x == -d) by (nonlinear_arith)
            requires
                p > 0,
        ;
        assert(units_32((q as u32)) == size);
    } else if e == 0 {
        lemma_pow2_adds(53, 872);
        lemma_pow2_pos(872);
        assert(2 * f < pow2(925)) by (nonlinear_arith)
            requires
                2 * f < 0x20_0000_0000_0000,
                pow2(925) == 0x20_0000_0000_0000 * pow2(872),
                pow2(872) >= 1,
        ;
    }
}

/// The size of a rounded number of the normal range, with or without a carry into the exponent.
proof fn lemma_normal_units(e: int, q: int, n: int)
    requires
        897 <= e < 1151,
        0x80_0000 <= q <= 0x100_0000,
        n == (e - 897) * 0x80_0000 + q,
        n < 0x7f80_0000,
    ensures
        units_32(n as u32) == q * pow2((e + 28) as nat),
{
    lemma_pow2_unfold((e + 29) as nat);
    if q < 0x100_0000 {
        assert(n / 0x80_0000 == e - 896);
        assert(n % 0x80_0000 == q - 0x80_0000);
    } else {
        assert(n / 0x80_0000 == e - 895);
        assert(n % 0x80_0000 == 0);
        let p = pow2((e + 28) as nat) as int;
        assert(0x80_0000 * (2 * p) == 0x100_0000 * p);
    }
}

/// The number nearest to a whole number that has 53 significant bits: a whole number that fits
/// stays, and a larger one errs by at most half of its 53rd bit.
pub proof fn law_doubles_are_the_nearest(m: int, t: nat)
    requires
        m >= 0,
        pow2(t) <= m < 2 * pow2(t),
    ensures
        m < 0x20_0000_0000_0000 ==> round_53(m) == m,
        t > 52 ==> {
            let err = 2 * (round_53(m) - m);
            let step = pow2((t - 52) as nat);
            &&& -step <= err <= step
            &&& round_53(m) % (step as int) == 0
            &&& err == step || err == -step ==> (round_53(m) / (step as int)) % 2 == 0
        },
{
    lemma_pow2_literals();
    if t > 52 {
        lemma_pow2_pos(t);
        if t > 53 {
            lemma_pow2_strictly_increases(53, t);
        }
        lemma_top_bit(m);
        let k = top_bit(m);
        if k < t {
            lemma_pow2_unfold((k + 1) as nat);
            if k + 1 < t {
                lemma_pow2_strictly_increases((k + 1) as nat, t);
            }
        }
        if t < k {
            lemma_pow2_unfold((t + 1) as nat);
            if t + 1 < k {
                lemma_pow2_strictly_increases((t + 1) as nat, k);
            }
        }
        let d = pow2((t - 52) as nat) as int;
        lemma_pow2_pos((t - 52) as nat);
        law_rounding_goes_to_the_nearest(m, d);
        let q = round_half_even(m, d);
        assert((q * d) % d == 0 && (q * d) / d == q) by (nonlinear_arith)
            requires
                d > 0,
        ;
    }
}

/// The number of a pattern is 0 for the two zeros alone.
pub proof fn law_key_orders_zero(b: u64)
    ensures
        units(b) == 0 <==> b == 0 || b == 0x8000_0000_0000_0000,
{
    lemma_units_grow(0, magnitude(b));
    assert(magnitude_units(0) == 0);
    assert(units(b) == magnitude_units(magnitude(b)) || units(b) == -magnitude_units(
        magnitude(b),
    ));
}

/// What is no number stays none in either width.
pub proof fn law_nan_stays_nan(b: u64, c: u32)
    ensures
        is_nan(b) ==> 0 <= narrow(b) <= u32::MAX && is_nan32(narrow(b) as u32),
        is_nan32(c) ==> is_nan(widen(c) as u64),
{
    lemma_conversions_fit(exponent(b), fraction(b));
    law_widening_keeps_the_number(c);
}

} // verus!
