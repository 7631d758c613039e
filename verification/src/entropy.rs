//! Binary logarithms and entropies in fixed point, with sixteen binary digits after the point.
use vstd::prelude::*;
use vstd::arithmetic::power2::{pow2, lemma2_to64, lemma_pow2_unfold};

verus! {

/// The value that stands for 1 in fixed point.
pub const ONE: u64 = 65536;

/// The largest power of two that is at most `x`, and 1 for `x` below 2.
pub open spec fn spec_leading_power(x: int) -> int
    decreases x,
{
    if x < 2 {
        1
    } else {
        2 * spec_leading_power(x / 2)
    }
}

/// The exponent of the largest power of two that is at most `x`: the whole part of the
/// binary logarithm of `x`.
pub open spec fn spec_log2_floor(x: int) -> int
    decreases x,
{
    if x < 2 {
        0
    } else {
        1 + spec_log2_floor(x / 2)
    }
}

/// The digits after the point of the binary logarithm of `m / 2^31`, for `m` from 2^31 up to
/// but not including 2^32, added to `sum`. `unit` is the value of the first digit to find
/// and a power of two. Squaring doubles a logarithm, so each digit is read off by squaring
/// the number and seeing whether the square reached 2.
pub open spec fn spec_fraction(m: int, unit: int, sum: int) -> int
    decreases unit,
{
    if unit <= 0 {
        sum
    } else {
        let square = m * m / 0x8000_0000;
        if square >= 0x1_0000_0000 {
            spec_fraction(square / 2, unit / 2, sum + unit)
        } else {
            spec_fraction(square, unit / 2, sum)
        }
    }
}

/// The binary logarithm of `x` in fixed point, for `x` of at least 1.
pub open spec fn spec_log2(x: int) -> int {
    spec_log2_floor(x) * 65536 + spec_fraction(
        x * 0x8000_0000 / spec_leading_power(x),
        32768,
        0,
    )
}

/// The largest power of two that is at most `x`, with its exponent.
fn leading_power(x: u64) -> (r: (u64, u64))
    requires
        x >= 1,
    ensures
        r.0 == spec_leading_power(x as int),
        r.1 == spec_log2_floor(x as int),
        r.0 <= x < 2 * r.0,
        r.1 < 64,
{
    let mut rest: u64 = x;
    let mut power: u64 = 1;
    let mut exponent: u64 = 0;
    proof {
        lemma2_to64();
    }
    while rest >= 2
        invariant
            rest >= 1,
            power >= 1,
            spec_leading_power(x as int) == power * spec_leading_power(rest as int),
            spec_log2_floor(x as int) == exponent + spec_log2_floor(rest as int),
            power * rest <= x < power * (rest + 1),
            exponent < 64,
            power * rest <= u64::MAX,
            power == pow2(exponent as nat),
        decreases rest,
    {
        let ghost half = (rest / 2) as int;
        assert(2 * power * half <= power * rest && power * (rest + 1) <= 2 * power * (half + 1)
            && power * (2 * spec_leading_power(half)) == (2 * power) * spec_leading_power(half))
            by (nonlinear_arith)
            requires
                half == rest / 2,
                rest >= 2,
                power >= 1,
        ;
        assert(2 * power <= power * rest) by (nonlinear_arith)
            requires
                rest >= 2,
                power >= 1,
        ;
        proof {
            lemma_pow2_unfold((exponent + 1) as nat);
            lemma2_to64();
        }
        rest = rest / 2;
        power = power * 2;
        exponent = exponent + 1;
    }
    assert(power * 1 == power) by (nonlinear_arith);
    assert(power * 2 == 2 * power) by (nonlinear_arith);
    (power, exponent)
}

/// The binary logarithm of `x` in fixed point.
pub fn log2(x: u64) -> (r: u64)
    requires
        x >= 1,
    ensures
        r == spec_log2(x as int),
        r < 64 * ONE,
{
    let (power, exponent) = leading_power(x);
    let wide: u128 = (x as u128 * 0x8000_0000u128) / (power as u128);
    assert(0x8000_0000 <= wide < 0x1_0000_0000) by (nonlinear_arith)
        requires
            wide == (x * 0x8000_0000) / (power as int),
            1 <= power <= x < 2 * power,
    ;
    let mut m: u64 = wide as u64;
    let mut unit: u64 = 32768;
    let mut sum: u64 = 0;
    while unit > 0
        invariant
            0x8000_0000 <= m < 0x1_0000_0000,
            unit <= 32768,
            sum + unit + (if unit > 0 {
                unit as int
            } else {
                1
            }) <= 65536,
            spec_fraction(wide as int, 32768, 0) == spec_fraction(m as int, unit as int, sum as int),
        decreases unit,
    {
        assert(0x4000_0000_0000_0000 <= m * m <= 0xffff_ffff_ffff_ffff) by (nonlinear_arith)
            requires
                0x8000_0000 <= m < 0x1_0000_0000,
        ;
        let square: u64 = m * m / 0x8000_0000;
        if square >= 0x1_0000_0000 {
            m = square / 2;
            sum = sum + unit;
        } else {
            m = square;
        }
        unit = unit / 2;
    }
    exponent * ONE + sum
}

/// The largest power of two that is at most `x` is that: a power of two, at most `x`, and
/// more than half of `x`.
pub proof fn lemma_leading_power(x: int)
    requires
        x >= 1,
    ensures
        spec_log2_floor(x) >= 0,
        spec_leading_power(x) == pow2(spec_log2_floor(x) as nat),
        spec_leading_power(x) <= x < 2 * spec_leading_power(x),
    decreases x,
{
    if x < 2 {
        lemma2_to64();
    } else {
        lemma_leading_power(x / 2);
        lemma_pow2_unfold(spec_log2_floor(x) as nat);
    }
}

/// The digits after the point add less than twice the value of the first digit.
pub proof fn lemma_fraction_bounds(m: int, unit: int, sum: int)
    requires
        unit >= 0,
    ensures
        sum <= spec_fraction(m, unit, sum),
        unit > 0 ==> spec_fraction(m, unit, sum) <= sum + 2 * unit - 1,
        unit == 0 ==> spec_fraction(m, unit, sum) == sum,
    decreases unit,
{
    if unit > 0 {
        let square = m * m / 0x8000_0000;
        if square >= 0x1_0000_0000 {
            lemma_fraction_bounds(square / 2, unit / 2, sum + unit);
        } else {
            lemma_fraction_bounds(square, unit / 2, sum);
        }
    }
}

/// The whole part of the logarithm of `x` is the exponent of the largest power of two that
/// is at most `x`, and the digits after the point make up less than 1.
pub proof fn lemma_log2_bounds(x: int)
    requires
        x >= 1,
    ensures
        pow2(spec_log2_floor(x) as nat) <= x < 2 * pow2(spec_log2_floor(x) as nat),
        spec_log2_floor(x) * 65536 <= spec_log2(x) < (spec_log2_floor(x) + 1) * 65536,
{
    lemma_leading_power(x);
    lemma_fraction_bounds(x * 0x8000_0000 / spec_leading_power(x), 32768, 0);
}

/// The logarithm of a power of two is its exponent.
pub proof fn lemma_log2_of_power(x: int)
    requires
        x >= 1,
        x == spec_leading_power(x),
    ensures
        spec_log2(x) == spec_log2_floor(x) * 65536,
{
    assert(x * 0x8000_0000 / x == 0x8000_0000) by (nonlinear_arith)
        requires
            x >= 1,
    ;
    lemma_fraction_of_one(32768, 0);
}

/// The logarithm of 1 has no digits after the point.
proof fn lemma_fraction_of_one(unit: int, sum: int)
    ensures
        spec_fraction(0x8000_0000, unit, sum) == sum,
    decreases unit,
{
    if unit > 0 {
        assert(0x8000_0000int * 0x8000_0000int / 0x8000_0000 == 0x8000_0000) by (nonlinear_arith);
        lemma_fraction_of_one(unit / 2, sum);
    }
}

/// The weight of a variant times the logarithm of the weight, in fixed point; 0 for weight 0.
pub open spec fn spec_weight_log_weight(weight: int) -> int {
    if weight <= 0 {
        0
    } else {
        weight * spec_log2(weight)
    }
}

pub fn weight_log_weight(weight: u32) -> (r: u64)
    ensures
        r == spec_weight_log_weight(weight as int),
        r <= weight * (64 * ONE),
{
    if weight == 0 {
        0
    } else {
        let log = log2(weight as u64);
        assert(0 <= weight * log <= weight * (64 * 65536) < u64::MAX) by (nonlinear_arith)
            requires
                0 <= weight <= u32::MAX,
                0 <= log < 64 * 65536,
        ;
        (weight as u64) * log
    }
}

/// The entropy, in bits and in fixed point, of a choice among variants whose weights add up
/// to `total` and whose weights times their logarithms add up to `weighted_logs`: the
/// logarithm of the total less the mean of the logarithms. 0 where the total is 0.
pub open spec fn spec_entropy(total: int, weighted_logs: int) -> int {
    if total <= 0 {
        0
    } else {
        spec_log2(total) - weighted_logs / total
    }
}

pub fn entropy(total: u64, weighted_logs: u128) -> (r: i64)
    requires
        weighted_logs <= total * (64 * ONE),
    ensures
        r == spec_entropy(total as int, weighted_logs as int),
        -64 * ONE <= r < 64 * ONE,
{
    if total == 0 {
        0
    } else {
        let log = log2(total);
        let mean: u128 = weighted_logs / (total as u128);
        assert(mean <= 64 * 65536) by (nonlinear_arith)
            requires
                mean == weighted_logs as int / total as int,
                total >= 1,
                weighted_logs <= total * (64 * 65536),
        ;
        (log as i64) - (mean as i64)
    }
}

} // verus!
