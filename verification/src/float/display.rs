//! Numbers written with one digit after the point.
use crate::decimal;
use crate::float::binary64::{Binary64, Parts};
use crate::float::engine;
use crate::float::rounding;
use crate::float::value;
use crate::float::value::FloatValue;
use vstd::arithmetic::div_mod::*;
use vstd::arithmetic::power2::*;
use vstd::prelude::*;

verus! {

/// The number of tenths nearest to a finite magnitude, ties to even.
pub open spec fn tenths(units: nat) -> nat {
    rounding::nearest_integer(units * 10, value::one())
}

/// A number rounded to one digit after the point. A sign is written for every
/// negative number, zero included; what is not a number has none.
pub open spec fn one_decimal(v: FloatValue) -> Seq<char> {
    match v {
        FloatValue::Nan => seq!['N', 'a', 'N'],
        FloatValue::Infinite { negative } => if negative {
            seq!['-', 'i', 'n', 'f']
        } else {
            seq!['i', 'n', 'f']
        },
        FloatValue::Finite { negative, units } => {
            let t = tenths(units);
            (if negative {
                seq!['-']
            } else {
                Seq::<char>::empty()
            }) + decimal::decimal(t / 10) + seq!['.', decimal::digit(t % 10)]
        },
    }
}

proof fn lemma_tenths_of_whole(m: nat, e: nat)
    requires
        e >= 1074,
    ensures
        tenths(m * pow2(e)) == 10 * (m * pow2((e - 1074) as nat)),
{
    let whole = m * pow2((e - 1074) as nat);
    lemma_pow2_adds((e - 1074) as nat, 1074);
    lemma_pow2_pos(1074);
    assert((m * pow2(e)) * 10 == (10 * whole) * value::one()) by (nonlinear_arith)
        requires
            whole == m * pow2((e - 1074) as nat),
            pow2(e) == pow2((e - 1074) as nat) * value::one(),
    ;
    rounding::lemma_nearest_integer_unique((m * pow2(e)) * 10, value::one(), 10 * whole);
}

proof fn lemma_tenths_of_fraction(m: nat, e: nat)
    requires
        e <= 1074,
    ensures
        tenths(m * pow2(e)) == rounding::nearest_integer(m * 10, pow2((1074 - e) as nat)),
{
    let width = pow2((1074 - e) as nat);
    let t = rounding::nearest_integer(m * 10, width);
    lemma_pow2_pos(e);
    lemma_pow2_pos((1074 - e) as nat);
    lemma_pow2_pos(1074);
    lemma_pow2_adds((1074 - e) as nat, e);
    rounding::lemma_nearest_integer_is_nearest(m * 10, width);
    rounding::lemma_is_nearest_scales(
        (m * 10) as int,
        width as int,
        t as int,
        pow2(e) as int,
    );
    assert((m * 10) * pow2(e) == (m * pow2(e)) * 10) by (nonlinear_arith);
    rounding::lemma_nearest_integer_unique((m * pow2(e)) * 10, value::one(), t);
}

impl Binary64 {
    /// Appends the number, rounded to one digit after the point, to `text`.
    pub fn append_one_decimal(self, text: &mut String)
        ensures
            final(text)@ == old(text)@ + one_decimal(self@),
    {
        proof {
            reveal_strlit("NaN");
            reveal_strlit("-");
            reveal_strlit("inf");
            reveal_strlit(".0");
            reveal_strlit(".");
            assert("NaN"@ =~= seq!['N', 'a', 'N']);
            assert("inf"@ =~= seq!['i', 'n', 'f']);
            assert(seq!['-'] + "inf"@ =~= seq!['-', 'i', 'n', 'f']);
            assert("-"@ =~= seq!['-']);
            assert(".0"@ =~= seq!['.', '0']);
            assert("."@ =~= seq!['.']);
            engine::lemma_power_of_127();
        }
        match self.parts() {
            Parts::Nan => {
                text.append("NaN");
            },
            Parts::Infinite { negative } => {
                if negative {
                    text.append("-");
                }
                text.append("inf");
                proof {
                    assert(text@ =~= old(text)@ + one_decimal(self@));
                }
            },
            Parts::Finite { negative, significand, exponent } => {
                if negative {
                    text.append("-");
                }
                if exponent >= 1074 {
                    proof {
                        lemma_tenths_of_whole(significand as nat, exponent as nat);
                    }
                    decimal::append_scaled(text, significand, exponent - 1074);
                    text.append(".0");
                } else {
                    let t = rounded_tenths(significand, exponent);
                    decimal::append_decimal(text, t / 10);
                    text.append(".");
                    decimal::append_decimal(text, t % 10);
                    proof {
                        assert(seq!['.'] + seq![decimal::digit((t % 10) as nat)] =~= seq![
                            '.',
                            decimal::digit((t % 10) as nat),
                        ]);
                    }
                }
                proof {
                    assert(text@ =~= old(text)@ + one_decimal(self@));
                }
            },
        }
    }
}

/// The tenths of a number below two to the power of fifty-three.
fn rounded_tenths(m: u64, e: u32) -> (t: u64)
    requires
        m < 0x20_0000_0000_0000,
        e < 1074,
    ensures
        t == tenths(m as nat * pow2(e as nat)),
{
    let places: u32 = 1074 - e;
    proof {
        lemma_tenths_of_fraction(m as nat, e as nat);
        engine::lemma_power_of_127();
        lemma_pow2_pos(places as nat);
    }
    let n: u64 = m * 10;
    if places >= 64 {
        proof {
            lemma_pow2_unfold(64);
            rounding::lemma_pow2_grows(64, places as nat);
            lemma_small_mod(n as nat, pow2(places as nat));
            lemma_basic_div(n as int, pow2(places as nat) as int);
        }
        return 0;
    }
    let width: u128 = engine::power_of_two(places);
    proof {
        rounding::lemma_pow2_grows(places as nat, 63);
    }
    let floor: u64 = (n as u128 / width) as u64;
    let twice: u128 = 2 * (n as u128 % width);
    if twice < width || (twice == width && floor % 2 == 0) {
        floor
    } else {
        floor + 1
    }
}

/// Law: a finite number is written with one digit after the point, and what is
/// written is the nearest number of tenths, the even one of two equally near; a
/// minus sign stands before a negative number and no other.
pub proof fn law_one_decimal_is_the_nearest_tenth(negative: bool, units: nat)
    ensures
        ({
            let text = one_decimal(FloatValue::Finite { negative, units });
            let sign: int = if negative {
                1
            } else {
                0
            };
            let point = text.len() - 2;
            let digits = text.subrange(sign, point).push(text.last());
            &&& negative <==> text[0] == '-'
            &&& point > sign
            &&& text[point] == '.'
            &&& forall|i: int| 0 <= i < digits.len() ==> '0' <= #[trigger] digits[i] <= '9'
            &&& rounding::is_nearest(
                10 * units as int,
                value::one() as int,
                decimal::reading(digits),
            )
        }),
{
    let text = one_decimal(FloatValue::Finite { negative, units });
    let sign: int = if negative {
        1
    } else {
        0
    };
    let t = tenths(units);
    let whole = decimal::decimal(t / 10);
    let digits = text.subrange(sign, text.len() - 2).push(text.last());
    lemma_pow2_pos(1074);
    decimal::law_decimals_read_back(t / 10);
    rounding::lemma_nearest_integer_is_nearest(units * 10, value::one());
    assert(text.subrange(sign, text.len() - 2) =~= whole);
    assert(digits.drop_last() =~= whole);
    assert(text.last() == decimal::digit(t % 10));
    assert(text[sign] == whole[0]);
}

} // verus!
