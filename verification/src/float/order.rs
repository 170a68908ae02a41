//! Order and exactness of double-precision arithmetic on numbers that are not
//! negative.
use crate::float::rounding;
use crate::float::value;
use crate::float::value::FloatValue;
use vstd::arithmetic::mul::*;
use vstd::arithmetic::power2::*;
use vstd::prelude::*;

verus! {

/// The double nearest to a ratio of naturals, in units.
pub open spec fn rounded(num: nat, den: nat) -> nat {
    rounding::nearest(53, 0, num, den)
}

/// A finite number that is not negative.
pub open spec fn plain(units: nat) -> FloatValue {
    FloatValue::Finite { negative: false, units }
}

/// The powers of two that the bounds are made of.
pub proof fn lemma_powers()
    ensures
        pow2(51) == 0x8_0000_0000_0000,
        pow2(52) == 0x10_0000_0000_0000,
        pow2(53) == 0x20_0000_0000_0000,
        pow2(64) == 0x1_0000_0000_0000_0000,
        value::one() == 2 * pow2(1073),
        value::one() == 4 * pow2(1072),
        pow2(1072) > 0,
        value::one() >= pow2(53) * pow2(64),
{
    lemma2_to64();
    lemma2_to64_rest();
    lemma_pow2_unfold(1074);
    lemma_pow2_unfold(1073);
    lemma_pow2_pos(1072);
    lemma_pow2_adds(53, 64);
    rounding::lemma_pow2_grows(117, 1074);
}

/// What lies at or below a double is not rounded above it.
pub proof fn lemma_stays_below(num: nat, den: nat, m: nat, q: nat)
    requires
        den > 0,
        m < pow2(53),
        num <= den * (m * pow2(q)),
    ensures
        rounded(num, den) <= m * pow2(q),
{
    let bound = m * pow2(q);
    assert(num * 1 <= bound * den) by (nonlinear_arith)
        requires
            num <= den * bound,
    ;
    rounding::lemma_nearest_monotone(53, 0, num, den, bound, 1);
    rounding::lemma_nearest_exact(53, 0, m, q, bound, 1);
}

/// What lies at or above a double is not rounded below it.
pub proof fn lemma_stays_above(num: nat, den: nat, m: nat, q: nat)
    requires
        den > 0,
        m < pow2(53),
        num >= den * (m * pow2(q)),
    ensures
        rounded(num, den) >= m * pow2(q),
{
    let bound = m * pow2(q);
    assert(bound * den <= num * 1) by (nonlinear_arith)
        requires
            num >= den * bound,
    ;
    rounding::lemma_nearest_monotone(53, 0, bound, 1, num, den);
    rounding::lemma_nearest_exact(53, 0, m, q, bound, 1);
}

/// Zero stays zero.
pub proof fn lemma_zero(den: nat)
    requires
        den > 0,
    ensures
        rounded(0, den) == 0,
{
    lemma_pow2_pos(53);
    assert(den * (0 * pow2(0)) == 0) by (nonlinear_arith);
    lemma_stays_below(0, den, 0, 0);
}

/// Rounding keeps order.
pub proof fn lemma_rounded_monotone(num1: nat, den1: nat, num2: nat, den2: nat)
    requires
        den1 > 0,
        den2 > 0,
        num1 * den2 <= num2 * den1,
    ensures
        rounded(num1, den1) <= rounded(num2, den2),
{
    rounding::lemma_nearest_monotone(53, 0, num1, den1, num2, den2);
}

/// Rounding changes a number by at most its 2^53rd part.
pub proof fn lemma_error(num: nat, den: nat)
    requires
        den > 0,
        num >= den * pow2(53),
    ensures
        pow2(53) * (rounded(num, den) * den) <= (pow2(53) + 1) * num,
        pow2(53) * (rounded(num, den) * den) >= (pow2(53) - 1) * num,
{
    let q = rounding::gap_exponent(53, 0, num, den);
    let g = pow2(q);
    let m = rounding::nearest_integer(num, den * g);
    rounding::lemma_gap_exponent_brackets(53, 0, num, den);
    rounding::lemma_multiplier_bounds(53, 0, num, den);
    lemma_powers();
    let d = den * g;
    let half = pow2(52);
    let a = m * d;
    assert(rounded(num, den) * den == a) by (nonlinear_arith)
        requires
            rounded(num, den) == m * g,
            d == den * g,
            a == m * d,
    ;
    assert(q > 0) by {
        if q == 0 {
            assert(pow2(53 + q) == pow2(53));
        }
    }
    lemma_pow2_adds(52, q);
    assert(52 + q == 53 + q - 1);
    assert(den * (half * g) == half * d) by (nonlinear_arith)
        requires
            d == den * g,
    ;
    assert(half * d <= num);
    assert(half * (2 * a) <= half * (2 * num + d)) by (nonlinear_arith)
        requires
            2 * a <= 2 * num + d,
    ;
    assert(half * (2 * num) <= half * (2 * a + d)) by (nonlinear_arith)
        requires
            2 * num <= 2 * a + d,
    ;
    assert(half * (2 * num + d) == half * (2 * num) + half * d) by (nonlinear_arith);
    assert(half * (2 * a + d) == half * (2 * a) + half * d) by (nonlinear_arith);
    assert(half * (2 * a) == pow2(53) * a) by (nonlinear_arith)
        requires
            pow2(53) == 2 * half,
    ;
    assert(half * (2 * num) == pow2(53) * num) by (nonlinear_arith)
        requires
            pow2(53) == 2 * half,
    ;
    assert((pow2(53) + 1) * num == pow2(53) * num + num) by (nonlinear_arith);
    assert((pow2(53) - 1) * num == pow2(53) * num - num) by (nonlinear_arith);
}

/// An integer below 2^53 is a double, and so is 2^53.
pub proof fn lemma_of_exact(n: nat)
    requires
        n <= pow2(53),
    ensures
        FloatValue::of(n as int) == plain(n * value::one()),
{
    lemma_powers();
    let units = n * value::one();
    lemma_pow2_adds(53, 1074);
    rounding::lemma_pow2_grows(1127, 2097);
    lemma_pow2_strictly_increases(2097, 2098);
    lemma_mul_inequality(n as int, pow2(53) as int, value::one() as int);
    if n < pow2(53) {
        rounding::lemma_nearest_exact(53, 0, n, 1074, units, 1);
    } else {
        lemma_pow2_unfold(1075);
        assert(pow2(53) * value::one() == pow2(52) * pow2(1075)) by (nonlinear_arith)
            requires
                pow2(53) == 2 * pow2(52),
                pow2(1075) == 2 * value::one(),
        ;
        rounding::lemma_nearest_exact(53, 0, pow2(52), 1075, units, 1);
    }
}

/// A machine integer is rounded to a finite double, and to one that is not below
/// one unless it is zero.
pub proof fn lemma_of(n: nat)
    requires
        n <= usize::MAX,
    ensures
        FloatValue::of(n as int) == plain(rounded(n * value::one(), 1)),
        rounded(n * value::one(), 1) <= pow2(64) * value::one(),
        n > 0 ==> rounded(n * value::one(), 1) >= value::one(),
        n == 0 ==> rounded(n * value::one(), 1) == 0,
{
    lemma_powers();
    let num = n * value::one();
    lemma_mul_inequality(n as int, pow2(64) as int, value::one() as int);
    lemma_pow2_adds(64, 1074);
    assert(1 * pow2(1138) == pow2(1138));
    lemma_stays_below(num, 1, 1, 1138);
    lemma_pow2_strictly_increases(1138, 2098);
    if n > 0 {
        lemma_mul_inequality(1, n as int, value::one() as int);
        assert(1 * (1 * pow2(1074)) == value::one());
        lemma_stays_above(num, 1, 1, 1074);
    } else {
        lemma_zero(1);
    }
}

/// Rounding integers keeps their order.
pub proof fn lemma_of_monotone(a: nat, b: nat)
    requires
        a <= b,
    ensures
        rounded(a * value::one(), 1) <= rounded(b * value::one(), 1),
{
    lemma_mul_inequality(a as int, b as int, value::one() as int);
    lemma_rounded_monotone(a * value::one(), 1, b * value::one(), 1);
}

} // verus!
