//! Single precision: what a model's processor hands over, and the product that
//! a frame's timestamp is.
use crate::float::binary64;
use crate::float::binary64::{Binary64, Parts};
use crate::float::engine;
use crate::float::rounding;
use crate::float::value;
use crate::float::value::FloatValue;
use vstd::arithmetic::mul::*;
use vstd::arithmetic::power2::*;
use vstd::prelude::*;

verus! {

/// An IEEE 754 binary32 number, held as its bit pattern.
#[derive(Debug, Clone, Copy)]
pub struct Binary32 {
    pub bits: u32,
}

/// The parts of a binary32 bit pattern: a sign bit, eight bits of exponent and
/// twenty-three of fraction.
pub open spec fn decode(bits: u32) -> Parts {
    let negative = bits >= 0x8000_0000;
    let field = (bits / 0x80_0000) % 256;
    let fraction = bits % 0x80_0000;
    if field == 255 {
        if fraction == 0 {
            Parts::Infinite { negative }
        } else {
            Parts::Nan
        }
    } else if field == 0 {
        Parts::Finite { negative, significand: fraction as u64, exponent: 925 }
    } else {
        Parts::Finite {
            negative,
            significand: (fraction + 0x80_0000) as u64,
            exponent: (field + 924) as u32,
        }
    }
}

impl View for Binary32 {
    type V = FloatValue;

    open spec fn view(&self) -> FloatValue {
        decode(self.bits).value()
    }
}

/// The bit pattern of a multiplier and an exponent.
fn encode(negative: bool, significand: u64, exponent: u32) -> (r: Binary32)
    requires
        significand <= 0x100_0000,
        925 <= exponent <= 6000,
        exponent > 925 ==> significand >= 0x80_0000,
    ensures
        r@ == (if significand as nat * pow2(exponent as nat) >= pow2(1202) {
            FloatValue::Infinite { negative }
        } else {
            FloatValue::Finite { negative, units: significand as nat * pow2(exponent as nat) }
        }),
{
    let sign: u32 = if negative {
        0x8000_0000
    } else {
        0
    };
    let ghost units = significand as nat * pow2(exponent as nat);
    proof {
        lemma2_to64();
        lemma_pow2_pos(exponent as nat);
        lemma_pow2_adds(23, 1179);
        lemma_pow2_adds(24, 1178);
    }
    if exponent >= 1179 || (exponent == 1178 && significand == 0x100_0000) {
        proof {
            if exponent >= 1179 {
                rounding::lemma_pow2_grows(1179, exponent as nat);
                lemma_mul_upper_bound(
                    pow2(23) as int,
                    significand as int,
                    pow2(1179) as int,
                    pow2(exponent as nat) as int,
                );
            }
        }
        return Binary32 { bits: sign + 0x7F80_0000 };
    }
    proof {
        if exponent == 1178 {
            lemma_mul_strict_inequality(
                significand as int,
                pow2(24) as int,
                pow2(exponent as nat) as int,
            );
        } else {
            rounding::lemma_pow2_grows(exponent as nat, 1177);
            lemma_pow2_adds(24, 1177);
            lemma_pow2_strictly_increases(1201, 1202);
            lemma_mul_upper_bound(
                significand as int,
                pow2(24) as int,
                pow2(exponent as nat) as int,
                pow2(1177) as int,
            );
        }
        assert(units < pow2(1202));
        if significand == 0x100_0000 {
            lemma_pow2_unfold((exponent + 1) as nat);
            assert(0x80_0000 * (2 * pow2(exponent as nat)) == units) by (nonlinear_arith)
                requires
                    units == 0x100_0000 * pow2(exponent as nat),
            ;
        }
    }
    Binary32 { bits: sign + (exponent - 925) as u32 * 0x80_0000 + significand as u32 }
}

/// The single nearest to `num / den` units.
fn pack(
    negative: bool,
    n: u128,
    e: i32,
    Ghost(num): Ghost<nat>,
    Ghost(den): Ghost<nat>,
) -> (r: Binary32)
    requires
        n < pow2(127),
        -4000 <= e <= 4000,
        den > 0,
        engine::bracketed(n as nat, e as int, false, num, den),
    ensures
        r@ == value::single().round(negative, num, den),
{
    let (significand, exponent) = engine::round_parts(
        24,
        925,
        n,
        e,
        false,
        Ghost(num),
        Ghost(den),
    );
    proof {
        lemma2_to64();
    }
    encode(negative, significand, exponent)
}

impl Binary32 {
    pub fn from_bits(bits: u32) -> (r: Binary32)
        ensures
            r.bits == bits,
    {
        Binary32 { bits }
    }

    pub fn to_bits(self) -> (bits: u32)
        ensures
            bits == self.bits,
    {
        self.bits
    }

    fn parts(self) -> (parts: Parts)
        ensures
            parts == decode(self.bits),
            parts.value() == self@,
            parts matches Parts::Finite { significand, exponent, .. } ==> significand < 0x100_0000
                && 925 <= exponent <= 1178,
    {
        let negative = self.bits >= 0x8000_0000;
        let field: u32 = (self.bits / 0x80_0000) % 256;
        let fraction: u32 = self.bits % 0x80_0000;
        if field == 255 {
            if fraction == 0 {
                Parts::Infinite { negative }
            } else {
                Parts::Nan
            }
        } else if field == 0 {
            Parts::Finite { negative, significand: fraction as u64, exponent: 925 }
        } else {
            Parts::Finite {
                negative,
                significand: fraction as u64 + 0x80_0000,
                exponent: field + 924,
            }
        }
    }

    /// The same number in double precision.
    pub fn to_double(self) -> (r: Binary64)
        ensures
            r@ == self@,
    {
        match self.parts() {
            Parts::Nan => Binary64::nan(),
            Parts::Infinite { negative } => Binary64::infinity(negative),
            Parts::Finite { negative, significand, exponent } => {
                let ghost units = significand as nat * pow2(exponent as nat);
                proof {
                    engine::lemma_power_of_127();
                    lemma2_to64();
                    binary64::lemma_whole(significand as nat, exponent as nat, units);
                    assert(units == 1 * (significand as nat * pow2(exponent as nat)));
                    rounding::lemma_nearest_exact(
                        53,
                        0,
                        significand as nat,
                        exponent as nat,
                        units,
                        1,
                    );
                    lemma_pow2_pos(exponent as nat);
                    lemma_mul_strict_inequality(
                        significand as int,
                        pow2(24) as int,
                        pow2(exponent as nat) as int,
                    );
                    lemma_pow2_adds(24, exponent as nat);
                    rounding::lemma_pow2_grows(24 + exponent as nat, 2098);
                }
                binary64::pack(
                    negative,
                    significand as u128,
                    exponent as i32,
                    false,
                    Ghost(units),
                    Ghost(1),
                )
            },
        }
    }

    /// The single nearest to a count.
    pub fn from_usize(n: usize) -> (r: Binary32)
        ensures
            r@ == value::single().from_int(n as int),
    {
        let ghost units = (n as int * value::one()) as nat;
        proof {
            engine::lemma_power_of_127();
            binary64::lemma_whole(n as nat, 1074, units);
        }
        pack(false, n as u128, 1074, Ghost(units), Ghost(1))
    }

    pub fn times(self, other: Binary32) -> (r: Binary32)
        ensures
            r@ == value::single().times(self@, other@),
    {
        match (self.parts(), other.parts()) {
            (Parts::Nan, _) => Binary32 { bits: 0x7FC0_0000 },
            (_, Parts::Nan) => Binary32 { bits: 0x7FC0_0000 },
            (Parts::Infinite { negative: s }, Parts::Infinite { negative: t }) => {
                Binary32::infinity(s != t)
            },
            (
                Parts::Infinite { negative: s },
                Parts::Finite { negative: t, significand, exponent },
            ) => {
                proof {
                    binary64::lemma_units_zero(significand as nat, exponent as nat);
                }
                if significand == 0 {
                    Binary32 { bits: 0x7FC0_0000 }
                } else {
                    Binary32::infinity(s != t)
                }
            },
            (
                Parts::Finite { negative: s, significand, exponent },
                Parts::Infinite { negative: t },
            ) => {
                proof {
                    binary64::lemma_units_zero(significand as nat, exponent as nat);
                }
                if significand == 0 {
                    Binary32 { bits: 0x7FC0_0000 }
                } else {
                    Binary32::infinity(s != t)
                }
            },
            (
                Parts::Finite { negative: s, significand: m1, exponent: e1 },
                Parts::Finite { negative: t, significand: m2, exponent: e2 },
            ) => {
                let ghost num = (m1 as nat * pow2(e1 as nat)) * (m2 as nat * pow2(e2 as nat));
                proof {
                    engine::lemma_power_of_127();
                    lemma_pow2_pos(1074);
                    binary64::lemma_product(m1 as nat, e1 as nat, m2 as nat, e2 as nat);
                    assert(m1 * m2 < 0x100_0000 * 0x100_0000) by (nonlinear_arith)
                        requires
                            m1 < 0x100_0000,
                            m2 < 0x100_0000,
                    ;
                }
                pack(
                    s != t,
                    m1 as u128 * m2 as u128,
                    e1 as i32 + e2 as i32 - 1074,
                    Ghost(num),
                    Ghost(value::one()),
                )
            },
        }
    }

    fn infinity(negative: bool) -> (r: Binary32)
        ensures
            r@ == (FloatValue::Infinite { negative }),
    {
        if negative {
            Binary32 { bits: 0xFF80_0000 }
        } else {
            Binary32 { bits: 0x7F80_0000 }
        }
    }
}

impl PartialEq for Binary32 {
    fn eq(&self, other: &Binary32) -> (equal: bool) {
        self.to_double().equals(other.to_double())
    }
}

impl vstd::std_specs::cmp::PartialEqSpecImpl for Binary32 {
    open spec fn obeys_eq_spec() -> bool {
        true
    }

    open spec fn eq_spec(&self, other: &Binary32) -> bool {
        self@.equals(other@)
    }
}

} // verus!
