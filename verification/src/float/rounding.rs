//! Rounding of an exact ratio of naturals to a fixed number of binary digits.
//!
//! Everything here is arithmetic on naturals. A ratio `num / den` is rounded to
//! a multiple of a power of two, the power chosen so that the multiplier has at
//! most `precision` binary digits; ties go to the even multiplier.
use vstd::arithmetic::div_mod::*;
use vstd::arithmetic::mul::*;
use vstd::arithmetic::power2::*;
use vstd::prelude::*;

verus! {

/// The natural nearest to `num / den`; of two equally near ones, the even one.
pub open spec fn nearest_integer(num: nat, den: nat) -> nat {
    let floor = num / den;
    let twice = 2 * (num % den);
    if twice < den || (twice == den && floor % 2 == 0) {
        floor
    } else {
        floor + 1
    }
}

/// The least exponent from `low` on whose power of two, taken `2^precision`
/// times, exceeds `num / den`: the gap between neighbouring numbers of
/// `precision` binary digits around that ratio is two to this exponent.
pub open spec fn gap_exponent(precision: nat, low: nat, num: nat, den: nat) -> nat
    decreases num - low,
{
    if den == 0 || num < den * pow2(precision + low) {
        low
    } else {
        proof {
            lemma_pow2_exceeds(precision + low);
            assert(den * pow2(precision + low) >= pow2(precision + low)) by (nonlinear_arith)
                requires
                    den >= 1,
            ;
        }
        gap_exponent(precision, low + 1, num, den)
    }
}

/// The multiple of a power of two nearest to `num / den` among those that
/// `precision` binary digits and an exponent of at least `low` can write.
pub open spec fn nearest(precision: nat, low: nat, num: nat, den: nat) -> nat {
    let gap = pow2(gap_exponent(precision, low, num, den));
    nearest_integer(num, den * gap) * gap
}

/// `m` lies within half a unit of `num / den`, and is even where it lies
/// exactly half a unit away.
pub open spec fn is_nearest(num: int, den: int, m: int) -> bool {
    &&& 2 * (m * den) <= 2 * num + den
    &&& 2 * num <= 2 * (m * den) + den
    &&& (2 * (m * den) == 2 * num + den || 2 * num == 2 * (m * den) + den) ==> m % 2 == 0
}

pub proof fn lemma_pow2_exceeds(q: nat)
    ensures
        pow2(q) > q,
    decreases q,
{
    if q == 0 {
        lemma2_to64();
    } else {
        lemma_pow2_exceeds((q - 1) as nat);
        lemma_pow2_unfold(q);
    }
}

pub proof fn lemma_pow2_grows(a: nat, b: nat)
    requires
        a <= b,
    ensures
        0 < pow2(a) <= pow2(b),
{
    lemma_pow2_pos(a);
    if a < b {
        lemma_pow2_strictly_increases(a, b);
    }
}

/// What is nearest is unique.
pub proof fn lemma_nearest_integer_unique(num: nat, den: nat, m: nat)
    requires
        den > 0,
        is_nearest(num as int, den as int, m as int),
    ensures
        nearest_integer(num, den) == m,
{
    let floor = (num / den) as int;
    let rest = (num % den) as int;
    let d = den as int;
    lemma_fundamental_div_mod(num as int, d);
    lemma_mod_pos_bound(num as int, d);
    assert(floor * d == d * floor) by (nonlinear_arith);
    if m < floor {
        assert(m * d + d <= floor * d) by (nonlinear_arith)
            requires
                m + 1 <= floor,
                d > 0,
        ;
        assert(false);
    }
    if m > floor + 1 {
        assert(m * d >= floor * d + 2 * d) by (nonlinear_arith)
            requires
                m >= floor + 2,
                d > 0,
        ;
        assert(false);
    }
    assert((floor + 1) * d == floor * d + d) by (nonlinear_arith);
}

/// The nearest integer is nearest.
pub proof fn lemma_nearest_integer_is_nearest(num: nat, den: nat)
    requires
        den > 0,
    ensures
        is_nearest(num as int, den as int, nearest_integer(num, den) as int),
{
    let floor = (num / den) as int;
    let d = den as int;
    lemma_fundamental_div_mod(num as int, d);
    lemma_mod_pos_bound(num as int, d);
    assert(floor * d == d * floor) by (nonlinear_arith);
    assert((floor + 1) * d == floor * d + d) by (nonlinear_arith);
}

/// Being nearest does not depend on a common factor.
pub proof fn lemma_is_nearest_scales(num: int, den: int, m: int, k: int)
    requires
        k > 0,
    ensures
        is_nearest(num * k, den * k, m) == is_nearest(num, den, m),
{
    assert(m * (den * k) == (m * den) * k) by (nonlinear_arith);
    let a = m * den;
    assert((2 * (a * k) <= 2 * (num * k) + den * k) == (2 * a <= 2 * num + den)) by (nonlinear_arith)
        requires
            k > 0,
    ;
    assert((2 * (num * k) <= 2 * (a * k) + den * k) == (2 * num <= 2 * a + den)) by (nonlinear_arith)
        requires
            k > 0,
    ;
    assert((2 * (a * k) == 2 * (num * k) + den * k) == (2 * a == 2 * num + den)) by (nonlinear_arith)
        requires
            k > 0,
    ;
    assert((2 * (num * k) == 2 * (a * k) + den * k) == (2 * num == 2 * a + den)) by (nonlinear_arith)
        requires
            k > 0,
    ;
}

/// The gap exponent brackets the ratio.
pub proof fn lemma_gap_exponent_brackets(precision: nat, low: nat, num: nat, den: nat)
    requires
        den > 0,
    ensures
        ({
            let q = gap_exponent(precision, low, num, den);
            &&& q >= low
            &&& num < den * pow2(precision + q)
            &&& q > low ==> den * pow2((precision + q - 1) as nat) <= num
        }),
    decreases num - low,
{
    if num >= den * pow2(precision + low) {
        lemma_pow2_exceeds(precision + low);
        assert(den * pow2(precision + low) >= pow2(precision + low)) by (nonlinear_arith)
            requires
                den >= 1,
        ;
        lemma_gap_exponent_brackets(precision, low + 1, num, den);
    }
}

/// Only one exponent brackets the ratio.
pub proof fn lemma_gap_exponent_unique(precision: nat, low: nat, num: nat, den: nat, q: nat)
    requires
        den > 0,
        q >= low,
        num < den * pow2(precision + q),
        q > low ==> den * pow2((precision + q - 1) as nat) <= num,
    ensures
        gap_exponent(precision, low, num, den) == q,
{
    lemma_gap_exponent_brackets(precision, low, num, den);
    let g = gap_exponent(precision, low, num, den);
    if g < q {
        lemma_pow2_grows(precision + g, (precision + q - 1) as nat);
        lemma_mul_left_inequality(
            den as int,
            pow2(precision + g) as int,
            pow2((precision + q - 1) as nat) as int,
        );
    }
    if q < g {
        lemma_pow2_grows(precision + q, (precision + g - 1) as nat);
        lemma_mul_left_inequality(
            den as int,
            pow2(precision + q) as int,
            pow2((precision + g - 1) as nat) as int,
        );
    }
}

/// The rounded multiplier has at most `precision` digits, rounding up to the
/// next power of two included, and fills them where the exponent is not `low`.
pub proof fn lemma_multiplier_bounds(precision: nat, low: nat, num: nat, den: nat)
    requires
        den > 0,
        precision > 0,
    ensures
        ({
            let q = gap_exponent(precision, low, num, den);
            let m = nearest_integer(num, den * pow2(q));
            &&& den * pow2(q) > 0
            &&& is_nearest(num as int, (den * pow2(q)) as int, m as int)
            &&& m <= pow2(precision)
            &&& q > low ==> m >= pow2((precision - 1) as nat)
        }),
{
    let q = gap_exponent(precision, low, num, den);
    let d = (den * pow2(q)) as int;
    lemma_pow2_pos(q);
    lemma_mul_strictly_positive(den as int, pow2(q) as int);
    let m = nearest_integer(num, d as nat) as int;
    lemma_gap_exponent_brackets(precision, low, num, den);
    lemma_nearest_integer_is_nearest(num, d as nat);
    let full = pow2(precision) as int;
    lemma_pow2_adds(precision, q);
    assert(den * (pow2(precision) * pow2(q)) == full * d) by (nonlinear_arith)
        requires
            d == den * pow2(q),
            full == pow2(precision),
    ;
    if m > full {
        assert(m * d >= full * d + d) by (nonlinear_arith)
            requires
                m >= full + 1,
                d > 0,
        ;
    }
    if q > low {
        let half = pow2((precision - 1) as nat) as int;
        lemma_pow2_adds((precision - 1) as nat, q);
        assert(precision - 1 + q == precision + q - 1);
        assert(den * (pow2((precision - 1) as nat) * pow2(q)) == half * d) by (nonlinear_arith)
            requires
                d == den * pow2(q),
                half == pow2((precision - 1) as nat),
        ;
        if m < half {
            assert(m * d + d <= half * d) by (nonlinear_arith)
                requires
                    m + 1 <= half,
                    d > 0,
            ;
        }
    }
}

/// Rounding to an integer keeps the order of two ratios.
pub proof fn lemma_nearest_integer_monotone(num1: nat, den1: nat, num2: nat, den2: nat)
    requires
        den1 > 0,
        den2 > 0,
        num1 * den2 <= num2 * den1,
    ensures
        nearest_integer(num1, den1) <= nearest_integer(num2, den2),
{
    lemma_nearest_integer_is_nearest(num1, den1);
    lemma_nearest_integer_is_nearest(num2, den2);
    let m1 = nearest_integer(num1, den1) as int;
    let m2 = nearest_integer(num2, den2) as int;
    if m1 > m2 {
        let d1 = den1 as int;
        let d2 = den2 as int;
        let n1 = num1 as int;
        let n2 = num2 as int;
        assert((2 * (m1 * d1) - d1) * d2 <= (2 * n1) * d2) by (nonlinear_arith)
            requires
                2 * (m1 * d1) - d1 <= 2 * n1,
                d2 > 0,
        ;
        assert((2 * n2) * d1 <= (2 * (m2 * d2) + d2) * d1) by (nonlinear_arith)
            requires
                2 * n2 <= 2 * (m2 * d2) + d2,
                d1 > 0,
        ;
        let dd = d1 * d2;
        assert((2 * (m1 * d1) - d1) * d2 == (2 * m1 - 1) * dd) by (nonlinear_arith)
            requires
                dd == d1 * d2,
        ;
        assert((2 * (m2 * d2) + d2) * d1 == (2 * m2 + 1) * dd) by (nonlinear_arith)
            requires
                dd == d1 * d2,
        ;
        assert(dd > 0) by (nonlinear_arith)
            requires
                dd == d1 * d2,
                d1 > 0,
                d2 > 0,
        ;
        assert((2 * n1) * d2 == 2 * (n1 * d2)) by (nonlinear_arith);
        assert((2 * n2) * d1 == 2 * (n2 * d1)) by (nonlinear_arith);
        if m1 > m2 + 1 {
            assert((2 * m1 - 1) * dd > (2 * m2 + 1) * dd) by (nonlinear_arith)
                requires
                    2 * m1 - 1 > 2 * m2 + 1,
                    dd > 0,
            ;
        }
        assert(2 * m1 - 1 == 2 * m2 + 1);
        assert(2 * (m1 * d1) - d1 == 2 * n1) by (nonlinear_arith)
            requires
                2 * (m1 * d1) - d1 <= 2 * n1,
                (2 * (m1 * d1) - d1) * d2 >= (2 * n1) * d2,
                d2 > 0,
        ;
        assert(2 * n2 == 2 * (m2 * d2) + d2) by (nonlinear_arith)
            requires
                2 * n2 <= 2 * (m2 * d2) + d2,
                (2 * n2) * d1 >= (2 * (m2 * d2) + d2) * d1,
                d1 > 0,
        ;
    }
}

/// Rounding keeps the order of two ratios.
pub proof fn lemma_nearest_monotone(
    precision: nat,
    low: nat,
    num1: nat,
    den1: nat,
    num2: nat,
    den2: nat,
)
    requires
        precision > 0,
        den1 > 0,
        den2 > 0,
        num1 * den2 <= num2 * den1,
    ensures
        nearest(precision, low, num1, den1) <= nearest(precision, low, num2, den2),
{
    let q1 = gap_exponent(precision, low, num1, den1);
    let q2 = gap_exponent(precision, low, num2, den2);
    lemma_gap_exponent_brackets(precision, low, num1, den1);
    lemma_gap_exponent_brackets(precision, low, num2, den2);
    lemma_multiplier_bounds(precision, low, num1, den1);
    lemma_multiplier_bounds(precision, low, num2, den2);
    let g1 = pow2(q1);
    let g2 = pow2(q2);
    let m1 = nearest_integer(num1, den1 * g1);
    let m2 = nearest_integer(num2, den2 * g2);
    if q1 > q2 {
        let lower = pow2((precision + q1 - 1) as nat);
        lemma_pow2_grows(precision + q2, (precision + q1 - 1) as nat);
        assert(num2 * den1 < num1 * den2) by (nonlinear_arith)
            requires
                den1 * lower <= num1,
                num2 < den2 * pow2(precision + q2),
                pow2(precision + q2) <= lower,
                den1 > 0,
                den2 > 0,
        ;
    } else if q1 == q2 {
        assert(num1 * (den2 * g2) <= num2 * (den1 * g1)) by (nonlinear_arith)
            requires
                num1 * den2 <= num2 * den1,
                g1 == g2,
        ;
        lemma_nearest_integer_monotone(num1, den1 * g1, num2, den2 * g2);
        lemma_mul_inequality(m1 as int, m2 as int, g1 as int);
    } else {
        let half = pow2((precision - 1) as nat);
        lemma_mul_inequality(m1 as int, pow2(precision) as int, g1 as int);
        lemma_mul_inequality(half as int, m2 as int, g2 as int);
        lemma_pow2_adds(precision, q1);
        lemma_pow2_adds((precision - 1) as nat, q2);
        lemma_pow2_grows(precision + q1, (precision - 1 + q2) as nat);
    }
}

/// Equal ratios round alike.
pub proof fn lemma_nearest_of_equal_ratios(
    precision: nat,
    low: nat,
    num1: nat,
    den1: nat,
    num2: nat,
    den2: nat,
)
    requires
        precision > 0,
        den1 > 0,
        den2 > 0,
        num1 * den2 == num2 * den1,
    ensures
        nearest(precision, low, num1, den1) == nearest(precision, low, num2, den2),
{
    lemma_nearest_monotone(precision, low, num1, den1, num2, den2);
    lemma_nearest_monotone(precision, low, num2, den2, num1, den1);
}

/// A ratio that `precision` binary digits can write is not changed.
pub proof fn lemma_nearest_exact(precision: nat, low: nat, m: nat, q: nat, num: nat, den: nat)
    requires
        precision > 0,
        den > 0,
        q >= low,
        m < pow2(precision),
        num == den * (m * pow2(q)),
    ensures
        nearest(precision, low, num, den) == m * pow2(q),
{
    let g = gap_exponent(precision, low, num, den);
    lemma_gap_exponent_brackets(precision, low, num, den);
    lemma_pow2_pos(q);
    lemma_pow2_pos(g);
    if g > q {
        lemma_pow2_grows(precision + q, (precision + g - 1) as nat);
        lemma_pow2_adds(precision, q);
        let bound = pow2((precision + g - 1) as nat);
        assert(m * pow2(q) < pow2(precision) * pow2(q)) by (nonlinear_arith)
            requires
                m < pow2(precision),
                pow2(q) > 0,
        ;
        assert(den * (m * pow2(q)) < den * bound) by (nonlinear_arith)
            requires
                m * pow2(q) < bound,
                den > 0,
        ;
    }
    let shift = pow2((q - g) as nat);
    lemma_pow2_adds((q - g) as nat, g);
    let whole = m * shift;
    assert(m * pow2(q) == whole * pow2(g)) by (nonlinear_arith)
        requires
            whole == m * shift,
            pow2(q) == shift * pow2(g),
    ;
    let d = den * pow2(g);
    assert(d > 0) by (nonlinear_arith)
        requires
            d == den * pow2(g),
            den > 0,
            pow2(g) > 0,
    ;
    assert(num == whole * d) by (nonlinear_arith)
        requires
            num == den * (whole * pow2(g)),
            d == den * pow2(g),
    ;
    assert(is_nearest(num as int, d as int, whole as int));
    lemma_nearest_integer_unique(num, d, whole);
}

} // verus!
