//! Rounding to whole numbers with ties to the even one.
use crate::float::binary64;
use crate::float::binary64::Binary64;
use crate::float::order;
use crate::float::rounding;
use crate::float::value;
use crate::float::value::FloatValue;
use crate::registry::qwen3_vl;
use vstd::arithmetic::div_mod::*;
use vstd::arithmetic::mul::*;
use vstd::arithmetic::power2::*;
use vstd::prelude::*;

verus! {

/// Fifty-three binary digits can write the number.
pub open spec fn is_written(m: nat, q: nat, units: nat) -> bool {
    m < pow2(53) && units == m * pow2(q)
}

/// What rounding yields, fifty-three binary digits can write.
pub proof fn lemma_rounded_is_written(num: nat, den: nat) -> (written: (nat, nat))
    requires
        den > 0,
    ensures
        is_written(written.0, written.1, order::rounded(num, den)),
{
    let q = rounding::gap_exponent(53, 0, num, den);
    let m = rounding::nearest_integer(num, den * pow2(q));
    rounding::lemma_multiplier_bounds(53, 0, num, den);
    order::lemma_powers();
    if m < pow2(53) {
        (m, q)
    } else {
        lemma_pow2_unfold(q + 1);
        assert(m * pow2(q) == pow2(52) * pow2(q + 1)) by (nonlinear_arith)
            requires
                m == 2 * pow2(52),
                pow2(q + 1) == 2 * pow2(q),
        ;
        (pow2(52), q + 1)
    }
}

/// The fraction of a number takes no more digits than the number; a number with
/// a fraction lies below 2^52.
proof fn lemma_fraction(m: nat, q: nat, units: nat)
    requires
        is_written(m, q, units),
    ensures
        order::rounded(units % value::one(), 1) == units % value::one(),
        units % value::one() > 0 ==> units / value::one() < pow2(52),
{
    let one = value::one();
    order::lemma_powers();
    lemma_pow2_pos(q);
    if q >= 1074 {
        lemma_pow2_adds((q - 1074) as nat, 1074);
        let k = m * pow2((q - 1074) as nat);
        assert(units == k * one) by (nonlinear_arith)
            requires
                units == m * pow2(q),
                pow2(q) == pow2((q - 1074) as nat) * one,
                k == m * pow2((q - 1074) as nat),
        ;
        lemma_mod_multiples_basic(k as int, one as int);
        order::lemma_zero(1);
    } else {
        let w = pow2((1074 - q) as nat);
        let g = pow2(q);
        lemma_pow2_pos((1074 - q) as nat);
        lemma_pow2_adds((1074 - q) as nat, q);
        lemma_fundamental_div_mod(m as int, w as int);
        let k = (m / w) as int;
        let r = (m % w) as int;
        assert(units == k * one + r * g) by (nonlinear_arith)
            requires
                units == m * g,
                m == w * k + r,
                one == w * g,
        ;
        assert(0 <= r * g < one) by (nonlinear_arith)
            requires
                0 <= r < w,
                g > 0,
                one == w * g,
        ;
        lemma_fundamental_div_mod_converse(units as int, one as int, k, r * g);
        lemma_mod_decreases(m, w);
        rounding::lemma_nearest_exact(53, 0, r as nat, q, (r * g) as nat, 1);
        rounding::lemma_pow2_grows(1, (1074 - q) as nat);
        lemma2_to64();
        assert(k < pow2(52)) by (nonlinear_arith)
            requires
                m == w * k + r,
                r >= 0,
                w >= 2,
                m < 2 * pow2(52),
                k >= 0,
        ;
    }
}

/// One half is a double.
proof fn lemma_half()
    ensures
        qwen3_vl::half() == order::plain(pow2(1073)),
{
    order::lemma_powers();
    let one = value::one();
    order::lemma_of_exact(1);
    order::lemma_of_exact(2);
    assert(one * one == (2 * one) * (1 * pow2(1073))) by (nonlinear_arith)
        requires
            one == 2 * pow2(1073),
    ;
    rounding::lemma_nearest_exact(53, 0, 1, 1073, one * one, 2 * one);
    lemma_pow2_strictly_increases(1073, 2098);
}

/// A finite number that is not negative goes to the nearest whole number, and to
/// the even one of two that are equally near.
pub proof fn lemma_half_to_even(m: nat, q: nat, units: nat)
    requires
        is_written(m, q, units),
        units < pow2(2098),
    ensures
        qwen3_vl::half_to_even(order::plain(units)) == order::plain(
            rounding::nearest_integer(units, value::one()) * value::one(),
        ),
{
    let one = value::one();
    let v = order::plain(units);
    let k = units / one;
    let r = units % one;
    order::lemma_powers();
    lemma_half();
    lemma_fraction(m, q, units);
    lemma_fundamental_div_mod(units as int, one as int);
    assert(one * k == k * one) by (nonlinear_arith);
    let floor = v.floor();
    assert(floor == order::plain(k * one));
    let fraction = v.minus(floor);
    rounding::lemma_pow2_grows(1074, 2098);
    lemma_mod_decreases(units, one);
    assert(fraction == order::plain(r));
    lemma_div_multiples_vanish(k as int, one as int);
    lemma_mod_multiples_basic(k as int, one as int);
    assert(one * k == k * one);
    assert((k * one) / one == k && (k * one) % one == 0);
    if r > 0 {
        order::lemma_of_exact(1);
        order::lemma_of_exact(k + 1);
        assert((k + 1) * one == k * one + one) by (nonlinear_arith);
        assert(1 * one == one);
        let sum = floor.signed() + FloatValue::of(1).signed();
        assert(sum == (k + 1) * one);
        assert(floor.plus(FloatValue::of(1)) == value::double().round(false, sum as nat, 1));
        assert(FloatValue::of((k + 1) as int) == value::double().round(false, (k + 1) * one, 1));
    }
}

/// Law: of a double that is not negative, `round_half_to_even` yields the nearest
/// whole number, and the even one of two that are equally near.
pub proof fn law_ties_go_to_even(v: Binary64)
    requires
        v@ is Finite,
        !v@->Finite_negative,
    ensures
        qwen3_vl::half_to_even(v@) == order::plain(
            rounding::nearest_integer(v@->units, value::one()) * value::one(),
        ),
{
    let parts = binary64::decode(v.bits);
    let m = parts->significand as nat;
    let e = parts->exponent as nat;
    order::lemma_powers();
    lemma_pow2_adds(53, 2045);
    rounding::lemma_pow2_grows(e, 2045);
    assert(m * pow2(e) < pow2(53) * pow2(2045)) by (nonlinear_arith)
        requires
            m < pow2(53),
            0 < pow2(e) <= pow2(2045),
    ;
    lemma_half_to_even(m, e, v@->units);
}

/// What is missing to the next whole number takes no more digits than a number of
/// at least one half.
proof fn lemma_complement(m: nat, q: nat, units: nat)
    requires
        is_written(m, q, units),
        units % value::one() > 0,
        2 * units >= value::one(),
    ensures
        order::rounded((value::one() - units % value::one()) as nat, 1) == value::one() - units
            % value::one(),
{
    let one = value::one();
    order::lemma_powers();
    lemma_pow2_pos(q);
    if q >= 1074 {
        lemma_pow2_adds((q - 1074) as nat, 1074);
        let k = m * pow2((q - 1074) as nat);
        assert(units == k * one) by (nonlinear_arith)
            requires
                units == m * pow2(q),
                pow2(q) == pow2((q - 1074) as nat) * one,
                k == m * pow2((q - 1074) as nat),
        ;
        lemma_mod_multiples_basic(k as int, one as int);
    } else {
        let w = pow2((1074 - q) as nat);
        let g = pow2(q);
        lemma_pow2_pos((1074 - q) as nat);
        lemma_pow2_adds((1074 - q) as nat, q);
        lemma_fundamental_div_mod(m as int, w as int);
        let k = (m / w) as int;
        let r = (m % w) as int;
        assert(units == k * one + r * g) by (nonlinear_arith)
            requires
                units == m * g,
                m == w * k + r,
                one == w * g,
        ;
        assert(0 <= r * g < one) by (nonlinear_arith)
            requires
                0 <= r < w,
                g > 0,
                one == w * g,
        ;
        lemma_fundamental_div_mod_converse(units as int, one as int, k, r * g);
        if q < 1021 {
            lemma_pow2_adds(53, q);
            rounding::lemma_pow2_grows(53 + q, 1073);
            assert(m * g < pow2(53) * g) by (nonlinear_arith)
                requires
                    m < pow2(53),
                    g > 0,
            ;
        }
        rounding::lemma_pow2_grows((1074 - q) as nat, 53);
        assert(r > 0) by (nonlinear_arith)
            requires
                r * g > 0,
                g > 0,
        ;
        assert(one - r * g == (w - r) * g) by (nonlinear_arith)
            requires
                one == w * g,
        ;
        rounding::lemma_nearest_exact(53, 0, (w - r) as nat, q, ((w - r) * g) as nat, 1);
    }
}

/// A negative number goes to the nearest whole number, and to the even one of two
/// that are equally near.
proof fn lemma_half_to_even_below_zero(m: nat, q: nat, units: nat)
    requires
        is_written(m, q, units),
    ensures
        ({
            let v = FloatValue::Finite { negative: true, units };
            let r = qwen3_vl::half_to_even(v);
            let one = value::one() as int;
            let off = 2 * (r.signed() + units);
            &&& r is Finite
            &&& exists|n: int|
                #![trigger n * one]
                {
                    &&& r.signed() == n * one
                    &&& off == one || off == -one ==> n % 2 == 0
                }
            &&& -one <= off <= one
        }),
{
    let one = value::one();
    let half = pow2(1073);
    let v = FloatValue::Finite { negative: true, units };
    let k = units / one;
    let r = units % one;
    order::lemma_powers();
    lemma_half();
    lemma_fraction(m, q, units);
    lemma_fundamental_div_mod(units as int, one as int);
    assert(one * k == k * one) by (nonlinear_arith);
    assert((k + 1) * one == k * one + one) by (nonlinear_arith);
    assert((-(k as int)) * one == -(k * one)) by (nonlinear_arith);
    assert((-((k + 1) as int)) * one == -(k * one + one)) by (nonlinear_arith)
        requires
            (k + 1) * one == k * one + one,
    ;
    let floor = v.floor();
    let fraction = v.minus(floor);
    let answer = qwen3_vl::half_to_even(v);
    if r == 0 {
        assert(floor == v);
        assert(answer == v);
        assert(answer.signed() == (-(k as int)) * one);
    } else {
        let rest = (one - r) as nat;
        let f = order::rounded(rest, 1);
        assert(floor == (FloatValue::Finite { negative: true, units: (k + 1) * one }));
        lemma_div_multiples_vanish((k + 1) as int, one as int);
        lemma_mod_multiples_basic((k + 1) as int, one as int);
        assert(one * (k + 1) == (k + 1) * one) by (nonlinear_arith);
        assert(1 * (1 * half) == half);
        assert(1 * (1 * pow2(1074)) == one);
        order::lemma_stays_below(rest, 1, 1, 1074);
        rounding::lemma_pow2_grows(1075, 2098);
        lemma_pow2_strictly_increases(1074, 1075);
        assert(fraction == order::plain(f));
        if r < half {
            order::lemma_stays_above(rest, 1, 1, 1073);
            if k > 0 {
                assert(units >= one) by (nonlinear_arith)
                    requires
                        units == k * one + r,
                        k >= 1,
                        r >= 0,
                ;
                lemma_complement(m, q, units);
            }
        } else {
            assert(units >= r) by (nonlinear_arith)
                requires
                    units == k * one + r,
                    k >= 0,
                    one >= 0,
            ;
            lemma_complement(m, q, units);
        }
        order::lemma_of_exact(1);
        order::lemma_of_exact(k);
        assert(1 * one == one);
        let next = floor.plus(FloatValue::of(1));
        assert(floor.signed() + FloatValue::of(1).signed() == -(k * one));
        assert(next is Finite && next.signed() == -(k * one)) by {
            if k == 0 {
                assert(0 * one == 0);
            } else {
                assert(k * one > 0) by (nonlinear_arith)
                    requires
                        k >= 1,
                        one > 0,
                ;
                assert(next == value::double().round(true, k * one, 1));
                assert(FloatValue::of(k as int) == value::double().round(false, k * one, 1));
            }
        }
        if answer == floor {
            assert(answer.signed() == (-((k + 1) as int)) * one);
        } else {
            assert(answer == next);
            assert(answer.signed() == (-(k as int)) * one);
        }
    }
}

/// Law: of any double, `round_half_to_even` yields a whole number at most one half
/// away, and an even one where it is exactly one half; what is not finite stays.
pub proof fn law_rounding_stays_within_one_half(v: Binary64)
    ensures
        !(v@ is Finite) ==> qwen3_vl::half_to_even(v@) == v@,
        v@ is Finite ==> {
            let r = qwen3_vl::half_to_even(v@);
            let one = value::one() as int;
            let off = 2 * (r.signed() - v@.signed());
            &&& r is Finite
            &&& exists|n: int|
                #![trigger n * one]
                {
                    &&& r.signed() == n * one
                    &&& off == one || off == -one ==> n % 2 == 0
                }
            &&& -one <= off <= one
        },
{
    order::lemma_powers();
    lemma_half();
    if v@ is Finite {
        let parts = binary64::decode(v.bits);
        let m = parts->significand as nat;
        let e = parts->exponent as nat;
        if v@->Finite_negative {
            lemma_half_to_even_below_zero(m, e, v@->units);
        } else {
            law_ties_go_to_even(v);
            rounding::lemma_nearest_integer_is_nearest(v@->units, value::one());
            let n = rounding::nearest_integer(v@->units, value::one()) as int;
            assert(qwen3_vl::half_to_even(v@).signed() == n * value::one());
        }
    } else {
        order::lemma_of_exact(1);
    }
}

} // verus!
