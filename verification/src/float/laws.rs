//! What holds of floating-point numbers, stated by what a result lies next to.
use crate::float::binary32::Binary32;
use crate::float::binary64::Binary64;
use crate::float::rounding;
use crate::float::value;
use crate::float::value::{FloatValue, Format};
use vstd::arithmetic::div_mod::*;
use vstd::arithmetic::mul::*;
use vstd::arithmetic::power2::*;
use vstd::prelude::*;

verus! {

/// Law: a double's bits are a sign, an exponent and a fraction, from the highest
/// to the lowest. The least exponent has no leading one, the greatest is for what
/// is not finite.
pub proof fn law_bits_of_a_double(number: Binary64, sign: int, exponent: nat, fraction: nat)
    requires
        0 <= sign <= 1,
        exponent < 2048,
        fraction < 0x10_0000_0000_0000,
        number.bits == sign * 0x8000_0000_0000_0000 + exponent * 0x10_0000_0000_0000 + fraction,
    ensures
        exponent == 2047 && fraction > 0 ==> number@ is Nan,
        exponent == 2047 && fraction == 0 ==> number@ == (FloatValue::Infinite {
            negative: sign == 1,
        }),
        exponent == 0 ==> number@ == (FloatValue::Finite { negative: sign == 1, units: fraction }),
        0 < exponent < 2047 ==> number@ == (FloatValue::Finite {
            negative: sign == 1,
            units: (0x10_0000_0000_0000 + fraction) * pow2((exponent - 1) as nat),
        }),
{
    lemma2_to64();
    let rest = sign * 2048 + exponent;
    lemma_fundamental_div_mod_converse(
        number.bits as int,
        0x10_0000_0000_0000,
        rest,
        fraction as int,
    );
    lemma_fundamental_div_mod_converse(rest, 2048, sign, exponent as int);
    assert(fraction * pow2(0) == fraction) by (nonlinear_arith)
        requires
            pow2(0) == 1,
    ;
}

/// Law: a single's bits are a sign, an exponent and a fraction, from the highest
/// to the lowest.
pub proof fn law_bits_of_a_single(number: Binary32, sign: int, exponent: nat, fraction: nat)
    requires
        0 <= sign <= 1,
        exponent < 256,
        fraction < 0x80_0000,
        number.bits == sign * 0x8000_0000 + exponent * 0x80_0000 + fraction,
    ensures
        exponent == 255 && fraction > 0 ==> number@ is Nan,
        exponent == 255 && fraction == 0 ==> number@ == (FloatValue::Infinite {
            negative: sign == 1,
        }),
        exponent == 0 ==> number@ == (FloatValue::Finite {
            negative: sign == 1,
            units: fraction * pow2(925),
        }),
        0 < exponent < 255 ==> number@ == (FloatValue::Finite {
            negative: sign == 1,
            units: (0x80_0000 + fraction) * pow2(exponent + 924),
        }),
{
    let rest = sign * 256 + exponent;
    lemma_fundamental_div_mod_converse(number.bits as int, 0x80_0000, rest, fraction as int);
    lemma_fundamental_div_mod_converse(rest, 256, sign, exponent as int);
}

/// `m * 2^q` is `num / den` rounded to a format: `q` leaves `m` as many digits as
/// the format has and no more, `m` is off by half at most, and by exactly half
/// only where it is even.
pub open spec fn is_rounded_by(format: Format, num: nat, den: nat, m: nat, q: nat) -> bool {
    let off = 2 * (m * pow2(q) * den) - 2 * num;
    &&& q >= format.low
    &&& num < den * pow2(format.precision + q)
    &&& q > format.low ==> num >= den * pow2((format.precision + q - 1) as nat)
    &&& -(pow2(q) * den) <= off <= pow2(q) * den
    &&& off == pow2(q) * den || off == -(pow2(q) * den) ==> m % 2 == 0
}

/// `r` is `num / den` units, with a sign, rounded to a format; what is out of
/// range is infinite.
pub open spec fn is_rounded(
    format: Format,
    negative: bool,
    num: nat,
    den: nat,
    r: FloatValue,
) -> bool {
    exists|m: nat, q: nat|
        #![trigger is_rounded_by(format, num, den, m, q)]
        is_rounded_by(format, num, den, m, q) && if m * pow2(q) < pow2(format.limit) {
            r == (FloatValue::Finite { negative, units: m * pow2(q) })
        } else {
            r == (FloatValue::Infinite { negative })
        }
}

/// Law: a format's rounding goes to the nearest of its numbers, ties to even.
pub proof fn law_rounding_goes_to_the_nearest(
    format: Format,
    negative: bool,
    num: nat,
    den: nat,
)
    requires
        format.precision > 0,
        den > 0,
    ensures
        is_rounded(format, negative, num, den, format.round(negative, num, den)),
{
    let q = rounding::gap_exponent(format.precision, format.low, num, den);
    let d = den * pow2(q);
    let m = rounding::nearest_integer(num, d);
    rounding::lemma_gap_exponent_brackets(format.precision, format.low, num, den);
    rounding::lemma_multiplier_bounds(format.precision, format.low, num, den);
    assert(m * pow2(q) * den == m * d) by (nonlinear_arith)
        requires
            d == den * pow2(q),
    ;
    assert(pow2(q) * den == d) by (nonlinear_arith)
        requires
            d == den * pow2(q),
    ;
    assert(is_rounded_by(format, num, den, m, q));
}

/// Law: no number of the format lies nearer than the one that rounding goes to.
pub proof fn law_nothing_lies_nearer(
    format: Format,
    negative: bool,
    num: nat,
    den: nat,
    m: nat,
    q: nat,
)
    requires
        format.precision > 0,
        den > 0,
        m < pow2(format.precision),
        q >= format.low,
    ensures
        ({
            let r = format.round(negative, num, den);
            let other = (m * pow2(q)) * den - num;
            r is Finite ==> {
                let off = r->units * den - num;
                (if off < 0 { -off } else { off }) <= (if other < 0 { -other } else { other })
            }
        }),
{
    let p = format.precision;
    let g = rounding::gap_exponent(p, format.low, num, den);
    let d = den * pow2(g);
    let k = rounding::nearest_integer(num, d);
    rounding::lemma_gap_exponent_brackets(p, format.low, num, den);
    rounding::lemma_multiplier_bounds(p, format.low, num, den);
    assert((k * pow2(g)) * den == k * d) by (nonlinear_arith)
        requires
            d == den * pow2(g),
    ;
    if q >= g {
        let j = m * pow2((q - g) as nat);
        lemma_pow2_adds((q - g) as nat, g);
        assert((m * pow2(q)) * den == j * d) by (nonlinear_arith)
            requires
                d == den * pow2(g),
                pow2(q) == pow2((q - g) as nat) * pow2(g),
                j == m * pow2((q - g) as nat),
        ;
        lemma_multiples(num as int, d as int, k as int, j as int);
    } else {
        let b = pow2((p - 1) as nat);
        lemma_pow2_adds((p - 1) as nat, g);
        assert(p - 1 + g == p + g - 1);
        lemma_multiples(num as int, d as int, k as int, b as int);
        assert(b * d == den * (b * pow2(g))) by (nonlinear_arith)
            requires
                d == den * pow2(g),
        ;
        lemma_pow2_adds(p, q);
        rounding::lemma_pow2_grows(p + q, (p + g - 1) as nat);
        lemma_mul_inequality(m as int, pow2(p) as int, pow2(q) as int);
        lemma_mul_inequality((m * pow2(q)) as int, (b * pow2(g)) as int, den as int);
        assert((b * pow2(g)) * den == den * (b * pow2(g))) by (nonlinear_arith);
    }
}

proof fn lemma_multiples(num: int, d: int, k: int, j: int)
    requires
        d > 0,
        rounding::is_nearest(num, d, k),
    ensures
        ({
            let off = k * d - num;
            let other = j * d - num;
            (if off < 0 { -off } else { off }) <= (if other < 0 { -other } else { other })
        }),
{
    if j > k {
        assert(j * d >= k * d + d) by (nonlinear_arith)
            requires
                j >= k + 1,
                d > 0,
        ;
    } else if j < k {
        assert(j * d + d <= k * d) by (nonlinear_arith)
            requires
                j + 1 <= k,
                d > 0,
        ;
    }
}

/// Law: the product of two finite numbers is their exact product, rounded; its
/// sign is theirs combined. What is infinite stays so, but for a product with zero.
pub proof fn law_products_are_rounded(format: Format, a: FloatValue, b: FloatValue)
    requires
        format.precision > 0,
    ensures
        ({
            let r = format.times(a, b);
            let none = |v: FloatValue| v is Finite && v.signed() == 0;
            &&& a is Nan || b is Nan ==> r is Nan
            &&& (a is Infinite && none(b)) || (b is Infinite && none(a)) ==> r is Nan
            &&& a is Infinite && b is Infinite ==> r == (FloatValue::Infinite {
                negative: a->Infinite_negative != b->Infinite_negative,
            })
            &&& a is Infinite && b is Finite && !none(b) ==> r == (FloatValue::Infinite {
                negative: a->Infinite_negative != b->Finite_negative,
            })
            &&& a is Finite && b is Infinite && !none(a) ==> r == (FloatValue::Infinite {
                negative: a->Finite_negative != b->Infinite_negative,
            })
            &&& a is Finite && b is Finite ==> is_rounded(
                format,
                a->Finite_negative != b->Finite_negative,
                a->units * b->units,
                value::one(),
                r,
            )
        }),
{
    lemma_pow2_pos(1074);
    if a is Finite && b is Finite {
        law_rounding_goes_to_the_nearest(
            format,
            a->Finite_negative != b->Finite_negative,
            a->units * b->units,
            value::one(),
        );
    }
}

/// Law: the quotient of two finite numbers is their exact quotient, rounded; its
/// sign is theirs combined. Zero divides what is not zero into what is infinite.
pub proof fn law_quotients_are_rounded(a: FloatValue, b: FloatValue)
    ensures
        ({
            let r = a.over(b);
            let none = |v: FloatValue| v is Finite && v.signed() == 0;
            &&& a is Nan || b is Nan ==> r is Nan
            &&& (a is Infinite && b is Infinite) || (none(a) && none(b)) ==> r is Nan
            &&& a is Infinite && b is Finite ==> r == (FloatValue::Infinite {
                negative: a->Infinite_negative != b->Finite_negative,
            })
            &&& a is Finite && b is Infinite ==> r == (FloatValue::Finite {
                negative: a->Finite_negative != b->Infinite_negative,
                units: 0,
            })
            &&& a is Finite && !none(a) && none(b) ==> r == (FloatValue::Infinite {
                negative: a->Finite_negative != b->Finite_negative,
            })
            &&& a is Finite && b is Finite && !none(b) ==> is_rounded(
                value::double(),
                a->Finite_negative != b->Finite_negative,
                a->units * value::one(),
                b->units,
                r,
            )
        }),
{
    if a is Finite && b is Finite && b->units > 0 {
        law_rounding_goes_to_the_nearest(
            value::double(),
            a->Finite_negative != b->Finite_negative,
            a->units * value::one(),
            b->units,
        );
    }
}

/// Law: the sum of two finite numbers is their exact sum, rounded, and their
/// difference the exact difference; a sum of zero is negative only of two negative
/// numbers.
pub proof fn law_sums_are_rounded(a: FloatValue, b: FloatValue)
    requires
        a is Finite,
        b is Finite,
    ensures
        ({
            let r = a.plus(b);
            let exact = a.signed() + b.signed();
            &&& exact > 0 ==> is_rounded(value::double(), false, exact as nat, 1, r)
            &&& exact < 0 ==> is_rounded(value::double(), true, (-exact) as nat, 1, r)
            &&& exact == 0 ==> r == (FloatValue::Finite {
                negative: a->Finite_negative && b->Finite_negative,
                units: 0,
            })
        }),
        ({
            let r = a.minus(b);
            let exact = a.signed() - b.signed();
            &&& exact > 0 ==> is_rounded(value::double(), false, exact as nat, 1, r)
            &&& exact < 0 ==> is_rounded(value::double(), true, (-exact) as nat, 1, r)
            &&& exact == 0 ==> r == (FloatValue::Finite {
                negative: a->Finite_negative && !b->Finite_negative,
                units: 0,
            })
        }),
{
    let sum = a.signed() + b.signed();
    let difference = a.signed() - b.signed();
    if sum > 0 {
        law_rounding_goes_to_the_nearest(value::double(), false, sum as nat, 1);
    } else if sum < 0 {
        law_rounding_goes_to_the_nearest(value::double(), true, (-sum) as nat, 1);
    }
    if difference > 0 {
        law_rounding_goes_to_the_nearest(value::double(), false, difference as nat, 1);
    } else if difference < 0 {
        law_rounding_goes_to_the_nearest(value::double(), true, (-difference) as nat, 1);
    }
}

/// Law: what is not finite decides a sum: an infinite number stays, two of
/// opposite signs have no sum, and what is not a number has none with anything.
pub proof fn law_sums_of_what_is_not_finite(a: FloatValue, b: FloatValue)
    ensures
        a.plus(b) == b.plus(a),
        a is Nan ==> a.plus(b) is Nan && a.minus(b) is Nan && b.minus(a) is Nan,
        a is Infinite && b is Finite ==> a.plus(b) == a && a.minus(b) == a && b.minus(a)
            == a.negated(),
        a is Infinite && b is Infinite && a == b ==> a.plus(b) == a && a.minus(b) is Nan,
        a is Infinite && b is Infinite && a != b ==> a.plus(b) is Nan && a.minus(b) == a,
        a.negated().negated() == a,
        a is Finite ==> a.negated() is Finite && a.negated().signed() == -a.signed(),
        a is Infinite ==> a.negated() is Infinite && a.negated() != a,
        a is Nan ==> a.negated() is Nan,
{
}

/// Law: an integer becomes the nearest number of the format.
pub proof fn law_integers_are_rounded(format: Format, n: int)
    requires
        format.precision > 0,
    ensures
        n >= 0 ==> is_rounded(
            format,
            false,
            (n * value::one()) as nat,
            1,
            format.from_int(n),
        ),
        n < 0 ==> is_rounded(format, true, (-n * value::one()) as nat, 1, format.from_int(n)),
        FloatValue::of(n) == value::double().from_int(n),
{
    let magnitude = if n < 0 {
        -n
    } else {
        n
    };
    law_rounding_goes_to_the_nearest(format, n < 0, (magnitude * value::one()) as nat, 1);
}

/// Law: numbers are ordered as what they stand for; what is not a number is in no
/// order, and equals nothing.
pub proof fn law_order(a: FloatValue, b: FloatValue)
    ensures
        a is Nan || b is Nan ==> !a.less(b) && !a.at_most(b) && !a.equals(b),
        a is Finite && b is Finite ==> {
            &&& a.less(b) <==> a.signed() < b.signed()
            &&& a.at_most(b) <==> a.signed() <= b.signed()
            &&& a.equals(b) <==> a.signed() == b.signed()
        },
        a is Infinite && !(b is Nan) ==> {
            &&& a.less(b) <==> a->Infinite_negative && a != b
            &&& a.at_most(b) <==> a->Infinite_negative || a == b
            &&& a.equals(b) <==> a == b
            &&& b.less(a) <==> !a->Infinite_negative && a != b
        },
        a.is_positive() <==> (a is Finite && a.signed() > 0) || (a is Infinite
            && !a->Infinite_negative),
        a.is_known() <==> a is Finite && a.signed() > 0,
        a.is_finite() <==> a is Finite,
{
}

/// Law: the integers next to a number. Its floor is the greatest at or below it,
/// its ceiling the least at or above it, and it is rounded to the nearest, halves
/// away from zero.
pub proof fn law_neighbouring_integers(v: FloatValue)
    ensures
        !(v is Finite) ==> v.floor() == v && v.ceil() == v && v.round() == v,
        v is Finite ==> {
            let one = value::one() as int;
            let below = v.floor().signed();
            let above = v.ceil().signed();
            let near = v.round().signed();
            let off = 2 * (near - v.signed());
            &&& v.floor() is Finite && v.floor()->Finite_negative == v->Finite_negative
            &&& v.ceil() is Finite && v.ceil()->Finite_negative == v->Finite_negative
            &&& v.round() is Finite && v.round()->Finite_negative == v->Finite_negative
            &&& below % one == 0 && below <= v.signed() < below + one
            &&& above % one == 0 && above - one < v.signed() <= above
            &&& near % one == 0 && -one <= off <= one
            &&& off == one ==> v.signed() > 0
            &&& off == -one ==> v.signed() < 0
        },
{
    if v is Finite {
        let one = value::one() as int;
        let units = v->units as int;
        let k = units / one;
        lemma_pow2_pos(1074);
        lemma_fundamental_div_mod(units, one);
        lemma_mod_pos_bound(units, one);
        assert(k >= 0) by {
            lemma_div_pos_is_pos(units, one);
        }
        assert(one * k == k * one) by (nonlinear_arith);
        assert((k + 1) * one == k * one + one) by (nonlinear_arith);
        assert((-k) * one == -(k * one)) by (nonlinear_arith);
        assert((-(k + 1)) * one == -(k * one + one)) by (nonlinear_arith)
            requires
                (k + 1) * one == k * one + one,
        ;
        lemma_mod_multiples_basic(k, one);
        lemma_mod_multiples_basic(k + 1, one);
        lemma_mod_multiples_basic(-k, one);
        lemma_mod_multiples_basic(-(k + 1), one);
        assert(k * one >= 0) by (nonlinear_arith)
            requires
                k >= 0,
                one > 0,
        ;
        if units % one == 0 {
            assert(units == k * one);
        }
    }
}

/// Law: a number becomes the integer that is left of it without its fraction, as
/// far as that is in range.
pub proof fn law_integers_drop_the_fraction(v: FloatValue, max: nat)
    ensures
        ({
            let n = v.to_unsigned(max);
            let one = value::one() as int;
            &&& n <= max
            &&& v is Nan ==> n == 0
            &&& v is Infinite ==> n == (if v->Infinite_negative { 0 } else { max })
            &&& v is Finite && v.signed() <= 0 ==> n == 0
            &&& v is Finite && v.signed() >= 0 ==> n * one <= v.signed()
            &&& v is Finite && n < max ==> v.signed() < (n + 1) * one
        }),
{
    lemma_pow2_pos(1074);
    if v is Finite {
        let one = value::one() as int;
        let units = v->units as int;
        let k = units / one;
        lemma_fundamental_div_mod(units, one);
        lemma_mod_pos_bound(units, one);
        lemma_div_pos_is_pos(units, one);
        assert(one * k == k * one) by (nonlinear_arith);
        assert((k + 1) * one == k * one + one) by (nonlinear_arith);
        if units == 0 {
            lemma_div_basics(one);
        }
        let n = v.to_unsigned(max) as int;
        if v->Finite_negative {
            assert((n + 1) * one > 0) by (nonlinear_arith)
                requires
                    n == 0,
                    one > 0,
            ;
        } else if k > max {
            lemma_mul_inequality(max as int, k, one);
        }
        assert(0 * one == 0);
    }
}

} // verus!
