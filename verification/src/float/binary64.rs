//! Double precision.
use crate::float::engine;
use crate::float::rounding;
use crate::float::value;
use crate::float::value::FloatValue;
use vstd::arithmetic::div_mod::*;
use vstd::arithmetic::mul::*;
use vstd::arithmetic::power2::*;
use vstd::prelude::*;

verus! {

/// An IEEE 754 binary64 number, held as its bit pattern.
#[derive(Debug, Clone, Copy)]
pub struct Binary64 {
    pub bits: u64,
}

/// What a bit pattern consists of.
#[derive(Debug, Clone, Copy)]
pub enum Parts {
    Nan,
    Infinite { negative: bool },
    Finite { negative: bool, significand: u64, exponent: u32 },
}

impl Parts {
    pub open spec fn value(self) -> FloatValue {
        match self {
            Parts::Nan => FloatValue::Nan,
            Parts::Infinite { negative } => FloatValue::Infinite { negative },
            Parts::Finite { negative, significand, exponent } => FloatValue::Finite {
                negative,
                units: significand as nat * pow2(exponent as nat),
            },
        }
    }

    /// The significand fits a double, and is full unless the exponent is least.
    pub open spec fn canonical(self) -> bool {
        self matches Parts::Finite { significand, exponent, .. } ==> {
            &&& significand < 0x20_0000_0000_0000
            &&& exponent <= 2045
            &&& exponent > 0 ==> significand >= 0x10_0000_0000_0000
        }
    }
}

/// The parts of a binary64 bit pattern: a sign bit, eleven bits of exponent and
/// fifty-two of fraction.
pub open spec fn decode(bits: u64) -> Parts {
    let negative = bits >= 0x8000_0000_0000_0000;
    let field = (bits / 0x10_0000_0000_0000) % 2048;
    let fraction = bits % 0x10_0000_0000_0000;
    if field == 2047 {
        if fraction == 0 {
            Parts::Infinite { negative }
        } else {
            Parts::Nan
        }
    } else if field == 0 {
        Parts::Finite { negative, significand: fraction, exponent: 0 }
    } else {
        Parts::Finite {
            negative,
            significand: (fraction + 0x10_0000_0000_0000) as u64,
            exponent: (field - 1) as u32,
        }
    }
}

impl View for Binary64 {
    type V = FloatValue;

    open spec fn view(&self) -> FloatValue {
        decode(self.bits).value()
    }
}

/// The bit pattern of a multiplier and an exponent.
fn encode(negative: bool, significand: u64, exponent: u32) -> (r: Binary64)
    requires
        significand <= 0x20_0000_0000_0000,
        exponent <= 6000,
        exponent > 0 ==> significand >= 0x10_0000_0000_0000,
    ensures
        r@ == (if significand as nat * pow2(exponent as nat) >= pow2(2098) {
            FloatValue::Infinite { negative }
        } else {
            FloatValue::Finite { negative, units: significand as nat * pow2(exponent as nat) }
        }),
{
    let sign: u64 = if negative {
        0x8000_0000_0000_0000
    } else {
        0
    };
    let ghost units = significand as nat * pow2(exponent as nat);
    proof {
        engine::lemma_power_of_127();
        lemma_pow2_pos(exponent as nat);
        lemma_pow2_adds(52, 2046);
        lemma_pow2_adds(53, 2045);
    }
    if exponent >= 2046 || (exponent == 2045 && significand == 0x20_0000_0000_0000) {
        proof {
            if exponent >= 2046 {
                rounding::lemma_pow2_grows(2046, exponent as nat);
                lemma_mul_upper_bound(
                    pow2(52) as int,
                    significand as int,
                    pow2(2046) as int,
                    pow2(exponent as nat) as int,
                );
            }
        }
        return Binary64 { bits: sign + 0x7FF0_0000_0000_0000 };
    }
    proof {
        if exponent == 2045 {
            assert(significand < 0x20_0000_0000_0000);
            lemma_mul_strict_inequality(
                significand as int,
                pow2(53) as int,
                pow2(exponent as nat) as int,
            );
        } else {
            rounding::lemma_pow2_grows(exponent as nat, 2044);
            lemma_pow2_adds(53, 2044);
            lemma_pow2_strictly_increases(2097, 2098);
            lemma_mul_upper_bound(
                significand as int,
                pow2(53) as int,
                pow2(exponent as nat) as int,
                pow2(2044) as int,
            );
        }
        assert(units < pow2(2098));
        if significand == 0x20_0000_0000_0000 {
            lemma_pow2_unfold((exponent + 1) as nat);
            assert(0x10_0000_0000_0000 * (2 * pow2(exponent as nat)) == units) by (nonlinear_arith)
                requires
                    units == 0x20_0000_0000_0000 * pow2(exponent as nat),
            ;
        }
        lemma2_to64();
    }
    Binary64 { bits: sign + exponent as u64 * 0x10_0000_0000_0000 + significand }
}

/// The double nearest to `num / den` units.
pub(crate) fn pack(
    negative: bool,
    n: u128,
    e: i32,
    inexact: bool,
    Ghost(num): Ghost<nat>,
    Ghost(den): Ghost<nat>,
) -> (r: Binary64)
    requires
        n < pow2(127),
        -4000 <= e <= 4000,
        den > 0,
        inexact ==> n >= pow2(53),
        engine::bracketed(n as nat, e as int, inexact, num, den),
    ensures
        r@ == value::double().round(negative, num, den),
{
    let (significand, exponent) = engine::round_parts(
        53,
        0,
        n,
        e,
        inexact,
        Ghost(num),
        Ghost(den),
    );
    proof {
        engine::lemma_power_of_127();
    }
    encode(negative, significand, exponent)
}

impl Binary64 {
    pub fn from_bits(bits: u64) -> (r: Binary64)
        ensures
            r.bits == bits,
    {
        Binary64 { bits }
    }

    pub fn to_bits(self) -> (bits: u64)
        ensures
            bits == self.bits,
    {
        self.bits
    }

    pub(crate) fn parts(self) -> (parts: Parts)
        ensures
            parts == decode(self.bits),
            parts.value() == self@,
            parts.canonical(),
    {
        let negative = self.bits >= 0x8000_0000_0000_0000;
        let field: u64 = (self.bits / 0x10_0000_0000_0000) % 2048;
        let fraction: u64 = self.bits % 0x10_0000_0000_0000;
        if field == 2047 {
            if fraction == 0 {
                Parts::Infinite { negative }
            } else {
                Parts::Nan
            }
        } else if field == 0 {
            Parts::Finite { negative, significand: fraction, exponent: 0 }
        } else {
            Parts::Finite {
                negative,
                significand: fraction + 0x10_0000_0000_0000,
                exponent: (field - 1) as u32,
            }
        }
    }
}

/// The product of two significands is the product of the numbers.
pub(crate) proof fn lemma_product(m1: nat, e1: nat, m2: nat, e2: nat)
    requires
        e1 <= 2045,
        e2 <= 2045,
    ensures
        engine::bracketed(
            m1 * m2,
            e1 + e2 - 1074,
            false,
            (m1 * pow2(e1)) * (m2 * pow2(e2)),
            value::one(),
        ),
{
    let e = e1 + e2 - 1074;
    lemma_pow2_adds(1074, (e + 4096) as nat);
    lemma_pow2_adds(e1, e2);
    lemma_pow2_adds(e1 + e2, 4096);
    assert(1074 + (e + 4096) as nat == e1 + e2 + 4096);
    let step = value::one() * pow2((e + 4096) as nat);
    assert((m1 * m2) * step == ((m1 * pow2(e1)) * (m2 * pow2(e2))) * pow2(4096))
        by (nonlinear_arith)
        requires
            step == (pow2(e1) * pow2(e2)) * pow2(4096),
    ;
}

/// A quotient of significands, cut to an integer, brackets the quotient of the
/// numbers.
proof fn lemma_quotient(m1: nat, e1: nat, m2: nat, e2: nat, s: nat, n: nat, rest: nat)
    requires
        e1 <= 2045,
        e2 <= 2045,
        s <= 126,
        m2 > 0,
        m1 * pow2(s) == n * m2 + rest,
        rest < m2,
    ensures
        engine::bracketed(
            n,
            e1 - s - e2 + 1074,
            rest != 0,
            (m1 * pow2(e1)) * value::one(),
            m2 * pow2(e2),
        ),
{
    let e = e1 - s - e2 + 1074;
    let scaled = m1 * pow2(s);
    let den = m2 * pow2(e2);
    let target = ((m1 * pow2(e1)) * value::one()) * pow2(4096);
    let common = pow2((e1 - s + 1074 + 4096) as nat);
    let step = den * pow2((e + 4096) as nat);
    lemma_pow2_adds(e2, (e + 4096) as nat);
    assert(e2 + (e + 4096) as nat == (e1 - s + 1074 + 4096) as nat);
    lemma_pow2_adds(s, (e1 - s + 1074 + 4096) as nat);
    assert(s + (e1 - s + 1074 + 4096) as nat == e1 + 1074 + 4096);
    lemma_pow2_adds(e1, 1074);
    lemma_pow2_adds(e1 + 1074, 4096);
    lemma_pow2_pos((e1 - s + 1074 + 4096) as nat);
    assert(step == m2 * common) by (nonlinear_arith)
        requires
            step == (m2 * pow2(e2)) * pow2((e + 4096) as nat),
            common == pow2(e2) * pow2((e + 4096) as nat),
    ;
    assert(target == scaled * common) by (nonlinear_arith)
        requires
            target == ((m1 * pow2(e1)) * value::one()) * pow2(4096),
            pow2(s) * common == (pow2(e1) * value::one()) * pow2(4096),
            scaled == m1 * pow2(s),
    ;
    assert(n * step == (n * m2) * common) by (nonlinear_arith)
        requires
            step == m2 * common,
    ;
    assert((n + 1) * step == (n * m2 + m2) * common) by (nonlinear_arith)
        requires
            step == m2 * common,
    ;
    if rest == 0 {
    } else {
        lemma_mul_strict_inequality((n * m2) as int, scaled as int, common as int);
        lemma_mul_strict_inequality(scaled as int, (n * m2 + m2) as int, common as int);
    }
}

/// A whole number of steps is bracketed exactly.
pub(crate) proof fn lemma_whole(n: nat, e: nat, num: nat)
    requires
        num == n * pow2(e),
    ensures
        engine::bracketed(n, e as int, false, num, 1),
{
    lemma_pow2_adds(e, 4096);
    assert(n * (1 * pow2(e + 4096)) == num * pow2(4096)) by (nonlinear_arith)
        requires
            num == n * pow2(e),
            pow2(e + 4096) == pow2(e) * pow2(4096),
    ;
}

/// Of two doubles the one with the greater exponent is greater.
proof fn lemma_exponent_decides(m1: nat, e1: nat, m2: nat, e2: nat)
    requires
        e1 > e2,
        m1 >= 0x10_0000_0000_0000,
        m2 < 0x20_0000_0000_0000,
    ensures
        m1 * pow2(e1) > m2 * pow2(e2),
{
    lemma_pow2_unfold((e2 + 1) as nat);
    rounding::lemma_pow2_grows(e2 + 1, e1);
    lemma_pow2_pos(e2);
    let g = pow2(e2);
    assert(m1 * pow2(e1) > m2 * g) by (nonlinear_arith)
        requires
            pow2(e1) >= 2 * g,
            m1 >= 0x10_0000_0000_0000,
            m2 < 0x20_0000_0000_0000,
            g > 0,
    ;
}

impl Binary64 {
    pub fn nan() -> (r: Binary64)
        ensures
            r@ == FloatValue::Nan,
    {
        Binary64 { bits: 0x7FF8_0000_0000_0000 }
    }

    pub fn infinity(negative: bool) -> (r: Binary64)
        ensures
            r@ == (FloatValue::Infinite { negative }),
    {
        if negative {
            Binary64 { bits: 0xFFF0_0000_0000_0000 }
        } else {
            Binary64 { bits: 0x7FF0_0000_0000_0000 }
        }
    }

    pub fn signed_zero(negative: bool) -> (r: Binary64)
        ensures
            r@ == (FloatValue::Finite { negative, units: 0 }),
    {
        proof {
            lemma_units_zero(0, 0);
        }
        if negative {
            Binary64 { bits: 0x8000_0000_0000_0000 }
        } else {
            Binary64 { bits: 0 }
        }
    }

    /// The double nearest to an unsigned integer.
    pub fn from_u64(n: u64) -> (r: Binary64)
        ensures
            r@ == FloatValue::of(n as int),
    {
        proof {
            engine::lemma_power_of_127();
            lemma_whole(n as nat, 1074, (n as int * value::one()) as nat);
        }
        pack(false, n as u128, 1074, false, Ghost((n as int * value::one()) as nat), Ghost(1))
    }

    /// The double nearest to a count.
    pub fn from_usize(n: usize) -> (r: Binary64)
        ensures
            r@ == FloatValue::of(n as int),
    {
        Binary64::from_u64(n as u64)
    }

    /// The double nearest to a signed integer.
    pub fn from_i64(n: i64) -> (r: Binary64)
        ensures
            r@ == FloatValue::of(n as int),
    {
        if n >= 0 {
            return Binary64::from_u64(n as u64);
        }
        let magnitude: u64 = if n == i64::MIN {
            0x8000_0000_0000_0000
        } else {
            (-n) as u64
        };
        proof {
            engine::lemma_power_of_127();
            lemma_whole(magnitude as nat, 1074, (-n * value::one()) as nat);
        }
        pack(true, magnitude as u128, 1074, false, Ghost((-n * value::one()) as nat), Ghost(1))
    }

    pub fn times(self, other: Binary64) -> (r: Binary64)
        ensures
            r@ == self@.times(other@),
    {
        match (self.parts(), other.parts()) {
            (Parts::Nan, _) => Binary64::nan(),
            (_, Parts::Nan) => Binary64::nan(),
            (Parts::Infinite { negative: s }, Parts::Infinite { negative: t }) => {
                Binary64::infinity(s != t)
            },
            (
                Parts::Infinite { negative: s },
                Parts::Finite { negative: t, significand, exponent },
            ) => {
                proof {
                    lemma_units_zero(significand as nat, exponent as nat);
                }
                if significand == 0 {
                    Binary64::nan()
                } else {
                    Binary64::infinity(s != t)
                }
            },
            (
                Parts::Finite { negative: s, significand, exponent },
                Parts::Infinite { negative: t },
            ) => {
                proof {
                    lemma_units_zero(significand as nat, exponent as nat);
                }
                if significand == 0 {
                    Binary64::nan()
                } else {
                    Binary64::infinity(s != t)
                }
            },
            (
                Parts::Finite { negative: s, significand: m1, exponent: e1 },
                Parts::Finite { negative: t, significand: m2, exponent: e2 },
            ) => {
                let ghost num = (m1 as nat * pow2(e1 as nat)) * (m2 as nat * pow2(e2 as nat));
                proof {
                    engine::lemma_power_of_127();
                    lemma_pow2_pos(1074);
                    lemma_product(m1 as nat, e1 as nat, m2 as nat, e2 as nat);
                    assert(m1 * m2 < 0x20_0000_0000_0000 * 0x20_0000_0000_0000)
                        by (nonlinear_arith)
                        requires
                            m1 < 0x20_0000_0000_0000,
                            m2 < 0x20_0000_0000_0000,
                    ;
                }
                pack(
                    s != t,
                    m1 as u128 * m2 as u128,
                    e1 as i32 + e2 as i32 - 1074,
                    false,
                    Ghost(num),
                    Ghost(value::one()),
                )
            },
        }
    }

    pub fn over(self, other: Binary64) -> (r: Binary64)
        ensures
            r@ == self@.over(other@),
    {
        match (self.parts(), other.parts()) {
            (Parts::Nan, _) => Binary64::nan(),
            (_, Parts::Nan) => Binary64::nan(),
            (Parts::Infinite { .. }, Parts::Infinite { .. }) => Binary64::nan(),
            (Parts::Infinite { negative: s }, Parts::Finite { negative: t, .. }) => {
                Binary64::infinity(s != t)
            },
            (Parts::Finite { negative: s, .. }, Parts::Infinite { negative: t }) => {
                Binary64::signed_zero(s != t)
            },
            (
                Parts::Finite { negative: s, significand: m1, exponent: e1 },
                Parts::Finite { negative: t, significand: m2, exponent: e2 },
            ) => {
                proof {
                    lemma_units_zero(m1 as nat, e1 as nat);
                    lemma_units_zero(m2 as nat, e2 as nat);
                }
                if m2 == 0 {
                    if m1 == 0 {
                        return Binary64::nan();
                    }
                    return Binary64::infinity(s != t);
                }
                Binary64::quotient(s != t, m1, e1, m2, e2)
            },
        }
    }

    fn quotient(negative: bool, m1: u64, e1: u32, m2: u64, e2: u32) -> (r: Binary64)
        requires
            m1 < 0x20_0000_0000_0000,
            0 < m2 < 0x20_0000_0000_0000,
            e1 <= 2045,
            e2 <= 2045,
        ensures
            r@ == value::double().round(
                negative,
                (m1 as nat * pow2(e1 as nat)) * value::one(),
                m2 as nat * pow2(e2 as nat),
            ),
    {
        let ghost num = (m1 as nat * pow2(e1 as nat)) * value::one();
        let ghost den = m2 as nat * pow2(e2 as nat);
        proof {
            engine::lemma_power_of_127();
            lemma_pow2_pos(e2 as nat);
            lemma_mul_strictly_positive(m2 as int, pow2(e2 as nat) as int);
        }
        if m1 == 0 {
            proof {
                assert(0 * pow2(0) == 0 * m2 + 0) by (nonlinear_arith);
                lemma_quotient(0, e1 as nat, m2 as nat, e2 as nat, 0, 0, 0);
            }
            return pack(
                negative,
                0,
                e1 as i32 - e2 as i32 + 1074,
                false,
                Ghost(num),
                Ghost(den),
            );
        }
        let count = engine::digit_count(m1 as u128);
        proof {
            if count > 53 {
                rounding::lemma_pow2_grows(53, (count - 1) as nat);
            }
        }
        let shift: u32 = 126 - count;
        let power = engine::power_of_two(shift);
        proof {
            lemma_pow2_adds((count - 1) as nat, shift as nat);
            lemma_pow2_adds(count as nat, shift as nat);
            lemma_pow2_unfold(127);
            lemma_pow2_unfold(126);
            assert(m1 * power <= pow2(126)) by (nonlinear_arith)
                requires
                    m1 <= pow2(count as nat),
                    pow2(126) == pow2(count as nat) * power,
            ;
            assert(m1 * power >= pow2(125)) by (nonlinear_arith)
                requires
                    m1 >= pow2((count - 1) as nat),
                    pow2(125) == pow2((count - 1) as nat) * power,
            ;
        }
        let scaled: u128 = m1 as u128 * power;
        let n: u128 = scaled / m2 as u128;
        let rest: u128 = scaled % m2 as u128;
        proof {
            lemma_fundamental_div_mod(scaled as int, m2 as int);
            assert(n * m2 == m2 * n) by (nonlinear_arith);
            lemma_quotient(
                m1 as nat,
                e1 as nat,
                m2 as nat,
                e2 as nat,
                shift as nat,
                n as nat,
                rest as nat,
            );
            if n < 0x20_0000_0000_0000 {
                assert(n * m2 + m2 <= 0x20_0000_0000_0000 * 0x20_0000_0000_0000)
                    by (nonlinear_arith)
                    requires
                        n + 1 <= 0x20_0000_0000_0000,
                        m2 <= 0x20_0000_0000_0000,
                ;
                assert(false);
            }
            if n > scaled {
                assert(n * m2 > scaled) by (nonlinear_arith)
                    requires
                        n > scaled,
                        m2 >= 1,
                ;
            }
        }
        pack(
            negative,
            n,
            e1 as i32 - shift as i32 - e2 as i32 + 1074,
            rest != 0,
            Ghost(num),
            Ghost(den),
        )
    }
}

pub(crate) proof fn lemma_units_zero(m: nat, e: nat)
    ensures
        (m * pow2(e) == 0) == (m == 0),
{
    lemma_pow2_pos(e);
    assert((m * pow2(e) == 0) == (m == 0)) by (nonlinear_arith)
        requires
            pow2(e) > 0,
    ;
}

/// The sum of two numbers whose exponents lie far apart lies within one step of
/// the greater.
proof fn lemma_far_sum(m1: nat, e1: nat, m2: nat, e2: nat, negative: bool)
    requires
        e1 >= e2 + 68,
        e1 <= 2045,
        m1 >= 0x10_0000_0000_0000,
        m2 < 0x20_0000_0000_0000,
    ensures
        ({
            let a = (m1 * pow2(e1)) as int;
            let b = (m2 * pow2(e2)) as int;
            let sum = if negative {
                a - b
            } else {
                a + b
            };
            let n = if negative && m2 != 0 {
                m1 * 1024int - 1
            } else {
                m1 * 1024int
            };
            &&& sum > 0
            &&& engine::bracketed(n as nat, e1 - 10, m2 != 0, sum as nat, 1)
        }),
{
    let g = pow2((e1 - 10) as nat) as int;
    let a = (m1 * pow2(e1)) as int;
    let b = (m2 * pow2(e2)) as int;
    lemma2_to64();
    lemma_pow2_adds(10, (e1 - 10) as nat);
    lemma_pow2_pos(e2);
    lemma_pow2_pos(4096);
    engine::lemma_power_of_127();
    lemma_pow2_adds(53, e2);
    rounding::lemma_pow2_grows(53 + e2, (e1 - 10) as nat);
    assert(a == (m1 * 1024) * g) by (nonlinear_arith)
        requires
            a == m1 * pow2(e1),
            pow2(e1) == 1024 * g,
    ;
    lemma_mul_strict_inequality(m2 as int, pow2(53) as int, pow2(e2) as int);
    assert(b < g);
    lemma_units_zero(m2, e2);
    let sum = if negative {
        a - b
    } else {
        a + b
    };
    let n = if negative && m2 != 0 {
        m1 * 1024int - 1
    } else {
        m1 * 1024int
    };
    assert(n * g == if negative && m2 != 0 {
        a - g
    } else {
        a
    }) by (nonlinear_arith)
        requires
            a == (m1 * 1024) * g,
            n == if negative && m2 != 0 {
                m1 * 1024int - 1
            } else {
                m1 * 1024int
            },
    ;
    assert((n + 1) * g == n * g + g) by (nonlinear_arith);
    assert(a >= g) by (nonlinear_arith)
        requires
            a == (m1 * 1024) * g,
            m1 >= 1,
            g > 0,
    ;
    lemma_pow2_adds((e1 - 10) as nat, 4096);
    assert((e1 - 10) as nat + 4096 == (e1 - 10 + 4096) as nat);
    let step = (1 * pow2((e1 - 10 + 4096) as nat)) as int;
    let scale = pow2(4096) as int;
    assert(step == g * scale);
    assert(n * step == (n * g) * scale) by (nonlinear_arith)
        requires
            step == g * scale,
    ;
    assert((n + 1) * step == ((n + 1) * g) * scale) by (nonlinear_arith)
        requires
            step == g * scale,
    ;
    if m2 != 0 {
        lemma_mul_strict_inequality(n * g, sum, scale);
        lemma_mul_strict_inequality(sum, (n + 1) * g, scale);
    }
}

impl Binary64 {
    pub fn plus(self, other: Binary64) -> (r: Binary64)
        ensures
            r@ == self@.plus(other@),
    {
        match (self.parts(), other.parts()) {
            (Parts::Nan, _) => Binary64::nan(),
            (_, Parts::Nan) => Binary64::nan(),
            (Parts::Infinite { negative: s }, Parts::Infinite { negative: t }) => {
                if s == t {
                    self
                } else {
                    Binary64::nan()
                }
            },
            (Parts::Infinite { .. }, Parts::Finite { .. }) => self,
            (Parts::Finite { .. }, Parts::Infinite { .. }) => other,
            (
                Parts::Finite { negative: s, significand: m1, exponent: e1 },
                Parts::Finite { negative: t, significand: m2, exponent: e2 },
            ) => {
                if e1 >= e2 {
                    Binary64::sum(s, m1, e1, t, m2, e2)
                } else {
                    Binary64::sum(t, m2, e2, s, m1, e1)
                }
            },
        }
    }

    fn sum(s: bool, m1: u64, e1: u32, t: bool, m2: u64, e2: u32) -> (r: Binary64)
        requires
            m1 < 0x20_0000_0000_0000,
            m2 < 0x20_0000_0000_0000,
            e2 <= e1 <= 2045,
            e1 > 0 ==> m1 >= 0x10_0000_0000_0000,
        ensures
            r@ == (FloatValue::Finite { negative: s, units: m1 as nat * pow2(e1 as nat) }).plus(
                FloatValue::Finite { negative: t, units: m2 as nat * pow2(e2 as nat) },
            ),
    {
        let ghost a = (m1 as nat * pow2(e1 as nat)) as int;
        let ghost b = (m2 as nat * pow2(e2 as nat)) as int;
        let apart: u32 = e1 - e2;
        proof {
            engine::lemma_power_of_127();
        }
        if apart <= 67 {
            let power = engine::power_of_two(apart);
            let ghost g = pow2(e2 as nat) as int;
            proof {
                lemma2_to64();
                lemma2_to64_rest();
                lemma_pow2_adds(63, 4);
                rounding::lemma_pow2_grows(apart as nat, 67);
                lemma_mul_upper_bound(
                    m1 as int,
                    0x1F_FFFF_FFFF_FFFF,
                    power as int,
                    pow2(67) as int,
                );
                lemma_pow2_adds(apart as nat, e2 as nat);
                lemma_pow2_pos(e2 as nat);
                assert(a == (m1 * power) * g) by (nonlinear_arith)
                    requires
                        a == m1 * pow2(e1 as nat),
                        pow2(e1 as nat) == power * g,
                ;
            }
            let x: u128 = m1 as u128 * power;
            let y: u128 = m2 as u128;
            let (negative, n): (bool, u128) = if s == t {
                (s, x + y)
            } else if x >= y {
                (s, (x - y) as u128)
            } else {
                (t, (y - x) as u128)
            };
            proof {
                assert((x + y) * g == a + b) by (nonlinear_arith)
                    requires
                        a == x * g,
                        b == y * g,
                ;
                assert((x - y) * g == a - b) by (nonlinear_arith)
                    requires
                        a == x * g,
                        b == y * g,
                ;
                assert((y - x) * g == b - a) by (nonlinear_arith)
                    requires
                        a == x * g,
                        b == y * g,
                ;
                lemma_units_zero(n as nat, e2 as nat);
                assert(n > 0 ==> n * g > 0) by (nonlinear_arith)
                    requires
                        g > 0,
                ;
                lemma_whole(n as nat, e2 as nat, (n * g) as nat);
            }
            if n == 0 {
                return Binary64::signed_zero(s && t);
            }
            return pack(negative, n, e2 as i32, false, Ghost((n * g) as nat), Ghost(1));
        }
        let ghost total = if s != t {
            a - b
        } else {
            a + b
        };
        proof {
            lemma_far_sum(m1 as nat, e1 as nat, m2 as nat, e2 as nat, s != t);
        }
        let lead: u128 = m1 as u128 * 1024;
        let n: u128 = if s != t && m2 != 0 {
            (lead - 1) as u128
        } else {
            lead
        };
        pack(s, n, e1 as i32 - 10, m2 != 0, Ghost(total as nat), Ghost(1))
    }

    pub fn negated(self) -> (r: Binary64)
        ensures
            r@ == self@.negated(),
    {
        if self.bits >= 0x8000_0000_0000_0000 {
            Binary64 { bits: (self.bits - 0x8000_0000_0000_0000) as u64 }
        } else {
            Binary64 { bits: self.bits + 0x8000_0000_0000_0000 }
        }
    }

    pub fn minus(self, other: Binary64) -> (r: Binary64)
        ensures
            r@ == self@.minus(other@),
    {
        self.plus(other.negated())
    }

    /// Whether the magnitude `m1 * 2^e1` is below `m2 * 2^e2`.
    fn magnitude_less(m1: u64, e1: u32, m2: u64, e2: u32) -> (less: bool)
        requires
            m1 < 0x20_0000_0000_0000,
            m2 < 0x20_0000_0000_0000,
            e1 > 0 ==> m1 >= 0x10_0000_0000_0000,
            e2 > 0 ==> m2 >= 0x10_0000_0000_0000,
        ensures
            less == (m1 as nat * pow2(e1 as nat) < m2 as nat * pow2(e2 as nat)),
    {
        if e1 == e2 {
            proof {
                lemma_pow2_pos(e1 as nat);
                let g = pow2(e1 as nat) as int;
                assert((m1 * g < m2 * g) == (m1 < m2)) by (nonlinear_arith)
                    requires
                        g > 0,
                ;
            }
            m1 < m2
        } else {
            proof {
                if e1 > e2 {
                    lemma_exponent_decides(m1 as nat, e1 as nat, m2 as nat, e2 as nat);
                } else {
                    lemma_exponent_decides(m2 as nat, e2 as nat, m1 as nat, e1 as nat);
                }
            }
            e1 < e2
        }
    }

    /// `self < other`.
    pub fn less(self, other: Binary64) -> (less: bool)
        ensures
            less == self@.less(other@),
    {
        match (self.parts(), other.parts()) {
            (Parts::Nan, _) => false,
            (_, Parts::Nan) => false,
            (Parts::Infinite { negative: s }, Parts::Infinite { negative: t }) => s && !t,
            (Parts::Infinite { negative: s }, Parts::Finite { .. }) => s,
            (Parts::Finite { .. }, Parts::Infinite { negative: t }) => !t,
            (
                Parts::Finite { negative: s, significand: m1, exponent: e1 },
                Parts::Finite { negative: t, significand: m2, exponent: e2 },
            ) => {
                proof {
                    lemma_units_zero(m1 as nat, e1 as nat);
                    lemma_units_zero(m2 as nat, e2 as nat);
                }
                if s {
                    if t {
                        Binary64::magnitude_less(m2, e2, m1, e1)
                    } else {
                        m1 != 0 || m2 != 0
                    }
                } else if t {
                    false
                } else {
                    Binary64::magnitude_less(m1, e1, m2, e2)
                }
            },
        }
    }

    /// `self == other` as numbers.
    pub fn equals(self, other: Binary64) -> (equal: bool)
        ensures
            equal == self@.equals(other@),
    {
        match (self.parts(), other.parts()) {
            (
                Parts::Finite { negative: s, significand: m1, exponent: e1 },
                Parts::Finite { negative: t, significand: m2, exponent: e2 },
            ) => {
                proof {
                    lemma_units_zero(m1 as nat, e1 as nat);
                    lemma_units_zero(m2 as nat, e2 as nat);
                }
                if s == t {
                    !Binary64::magnitude_less(m1, e1, m2, e2) && !Binary64::magnitude_less(
                        m2,
                        e2,
                        m1,
                        e1,
                    )
                } else {
                    m1 == 0 && m2 == 0
                }
            },
            (Parts::Infinite { negative: s }, Parts::Infinite { negative: t }) => s == t,
            _ => false,
        }
    }

    /// `self <= other`.
    pub fn at_most(self, other: Binary64) -> (holds: bool)
        ensures
            holds == self@.at_most(other@),
    {
        self.less(other) || self.equals(other)
    }

    pub fn is_finite(self) -> (finite: bool)
        ensures
            finite == self@.is_finite(),
    {
        match self.parts() {
            Parts::Finite { .. } => true,
            _ => false,
        }
    }

    /// `self > 0`.
    pub fn is_positive(self) -> (positive: bool)
        ensures
            positive == self@.is_positive(),
    {
        Binary64::signed_zero(false).less(self)
    }

    /// Finite and above zero.
    pub fn is_known(self) -> (known: bool)
        ensures
            known == self@.is_known(),
    {
        self.is_finite() && self.is_positive()
    }
}

impl PartialEq for Binary64 {
    fn eq(&self, other: &Binary64) -> (equal: bool) {
        self.equals(*other)
    }
}

impl vstd::std_specs::cmp::PartialEqSpecImpl for Binary64 {
    open spec fn obeys_eq_spec() -> bool {
        true
    }

    open spec fn eq_spec(&self, other: &Binary64) -> bool {
        self@.equals(other@)
    }
}

/// A significand and an exponent below that of one split into a whole part and
/// a rest as the number does.
proof fn lemma_split(m: nat, e: nat)
    requires
        e <= 1074,
    ensures
        ({
            let units = m * pow2(e);
            let width = pow2((1074 - e) as nat);
            &&& units / value::one() == m / width
            &&& units % value::one() == (m % width) * pow2(e)
            &&& (2 * (units % value::one()) < value::one()) == (2 * (m % width) < width)
        }),
{
    let units = m * pow2(e);
    let width = pow2((1074 - e) as nat);
    let g = pow2(e);
    lemma_pow2_adds((1074 - e) as nat, e);
    lemma_pow2_pos(e);
    lemma_pow2_pos((1074 - e) as nat);
    let whole = m / width;
    let rest = m % width;
    lemma_fundamental_div_mod(m as int, width as int);
    lemma_mod_pos_bound(m as int, width as int);
    assert(units == whole * value::one() + rest * g) by (nonlinear_arith)
        requires
            units == m * g,
            m == width * whole + rest,
            value::one() == width * g,
    ;
    assert(0 <= rest * g < value::one()) by (nonlinear_arith)
        requires
            rest < width,
            g > 0,
            value::one() == width * g,
    ;
    lemma_fundamental_div_mod_converse(
        units as int,
        value::one() as int,
        whole as int,
        (rest * g) as int,
    );
    assert((2 * (rest * g) < width * g) == (2 * rest < width)) by (nonlinear_arith)
        requires
            g > 0,
    ;
}

/// From the exponent of one on, a number is whole.
proof fn lemma_whole_part(m: nat, e: nat)
    requires
        e >= 1074,
    ensures
        ({
            let units = m * pow2(e);
            &&& units / value::one() == m * pow2((e - 1074) as nat)
            &&& units % value::one() == 0
        }),
{
    let units = m * pow2(e);
    let whole = m * pow2((e - 1074) as nat);
    lemma_pow2_adds((e - 1074) as nat, 1074);
    lemma_pow2_pos(1074);
    assert(units == whole * value::one() + 0) by (nonlinear_arith)
        requires
            units == m * pow2(e),
            whole == m * pow2((e - 1074) as nat),
            pow2(e) == pow2((e - 1074) as nat) * value::one(),
    ;
    lemma_fundamental_div_mod_converse(units as int, value::one() as int, whole as int, 0);
}

impl Binary64 {
    /// The whole part, whether there is a rest, and whether the rest is below a
    /// half.
    fn split(m: u64, e: u32) -> (r: (u64, bool, bool))
        requires
            m < 0x20_0000_0000_0000,
            e < 1074,
        ensures
            ({
                let units = m as nat * pow2(e as nat);
                &&& r.0 == units / value::one()
                &&& r.0 < 0x10_0000_0000_0000
                &&& r.1 == (units % value::one() != 0)
                &&& r.2 == (2 * (units % value::one()) < value::one())
            }),
    {
        let places: u32 = 1074 - e;
        let ghost width = pow2(places as nat);
        proof {
            lemma_split(m as nat, e as nat);
            engine::lemma_power_of_127();
            lemma_pow2_pos(places as nat);
            lemma_units_zero(m as nat % width, e as nat);
        }
        if places >= 64 {
            proof {
                lemma_pow2_unfold(64);
                rounding::lemma_pow2_grows(64, places as nat);
                lemma_small_mod(m as nat, width);
                lemma_basic_div(m as int, width as int);
            }
            return (0, m != 0, true);
        }
        let power = engine::power_of_two(places);
        proof {
            rounding::lemma_pow2_grows(1, places as nat);
            lemma2_to64();
            lemma_fundamental_div_mod(m as int, power as int);
            let whole = m as int / power as int;
            assert(2 * whole <= power * whole) by (nonlinear_arith)
                requires
                    power >= 2,
                    whole >= 0,
            ;
            rounding::lemma_pow2_grows(places as nat, 63);
        }
        let whole: u128 = m as u128 / power;
        let rest: u128 = m as u128 % power;
        (whole as u64, rest != 0, 2 * rest < power)
    }

    /// A whole number of ones.
    fn integer(negative: bool, whole: u64) -> (r: Binary64)
        requires
            whole < 0x20_0000_0000_0000,
        ensures
            r@ == (FloatValue::Finite { negative, units: whole as nat * value::one() }),
    {
        proof {
            engine::lemma_power_of_127();
            let units = whole as nat * value::one();
            lemma_whole(whole as nat, 1074, units);
            assert(units == 1 * (whole as nat * pow2(1074))) by (nonlinear_arith)
                requires
                    units == whole as nat * value::one(),
                    value::one() == pow2(1074),
            ;
            rounding::lemma_nearest_exact(53, 0, whole as nat, 1074, units, 1);
            lemma_pow2_pos(1074);
            lemma_mul_strict_inequality(whole as int, pow2(53) as int, pow2(1074) as int);
            lemma_pow2_adds(53, 1074);
            rounding::lemma_pow2_grows(53 + 1074, 2098);
        }
        pack(
            negative,
            whole as u128,
            1074,
            false,
            Ghost(whole as nat * value::one()),
            Ghost(1),
        )
    }

    /// The integer at or below.
    pub fn floor(self) -> (r: Binary64)
        ensures
            r@ == self@.floor(),
    {
        match self.parts() {
            Parts::Finite { negative, significand, exponent } => {
                if exponent >= 1074 {
                    proof {
                        lemma_whole_part(significand as nat, exponent as nat);
                        lemma_one_positive();
                        lemma_fundamental_div_mod(self@->units as int, value::one() as int);
                        lemma_mul_is_commutative(
                            (self@->units / value::one()) as int,
                            value::one() as int,
                        );
                    }
                    return self;
                }
                let (whole, rest, _) = Binary64::split(significand, exponent);
                proof {
                    lemma_next(whole as nat);
                    lemma_exact_whole(self@->units);
                }
                if negative && rest {
                    Binary64::integer(negative, whole + 1)
                } else {
                    Binary64::integer(negative, whole)
                }
            },
            _ => self,
        }
    }

    /// The integer at or above.
    pub fn ceil(self) -> (r: Binary64)
        ensures
            r@ == self@.ceil(),
    {
        self.negated().floor().negated()
    }

    /// The nearest integer, halves away from zero.
    pub fn round(self) -> (r: Binary64)
        ensures
            r@ == self@.round(),
    {
        match self.parts() {
            Parts::Finite { negative, significand, exponent } => {
                if exponent >= 1074 {
                    proof {
                        lemma_whole_part(significand as nat, exponent as nat);
                        lemma_one_positive();
                        lemma_exact_whole(self@->units);
                    }
                    return self;
                }
                let (whole, _, below_half) = Binary64::split(significand, exponent);
                proof {
                    lemma_next(whole as nat);
                }
                if below_half {
                    Binary64::integer(negative, whole)
                } else {
                    Binary64::integer(negative, whole + 1)
                }
            },
            _ => self,
        }
    }

    /// Whether the number is an even integer.
    pub fn is_even_integer(self) -> (even: bool)
        ensures
            even == (self@ is Finite && self@->units % value::one() == 0 && (self@->units
                / value::one()) % 2 == 0),
    {
        match self.parts() {
            Parts::Finite { significand, exponent, .. } => {
                if exponent >= 1074 {
                    proof {
                        lemma_whole_part(significand as nat, exponent as nat);
                        lemma2_to64();
                        if exponent > 1074 {
                            let half = pow2((exponent - 1075) as nat);
                            lemma_pow2_unfold((exponent - 1074) as nat);
                            assert(significand as nat * (2 * half) == 2 * (significand as nat
                                * half)) by (nonlinear_arith);
                        } else {
                            lemma_mul_basics(significand as int);
                        }
                    }
                    return exponent > 1074 || significand % 2 == 0;
                }
                let (whole, rest, _) = Binary64::split(significand, exponent);
                !rest && whole % 2 == 0
            },
            _ => false,
        }
    }

    /// Conversion to an unsigned integer of at most `max`.
    pub fn to_unsigned(self, max: u64) -> (n: u64)
        ensures
            n == self@.to_unsigned(max as nat),
    {
        match self.parts() {
            Parts::Nan => 0,
            Parts::Infinite { negative } => if negative {
                0
            } else {
                max
            },
            Parts::Finite { negative, significand, exponent } => {
                if negative {
                    return 0;
                }
                if exponent < 1074 {
                    let (whole, _, _) = Binary64::split(significand, exponent);
                    return if whole > max {
                        max
                    } else {
                        whole
                    };
                }
                let places: u32 = exponent - 1074;
                proof {
                    lemma_whole_part(significand as nat, exponent as nat);
                    engine::lemma_power_of_127();
                    lemma_pow2_unfold(64);
                }
                if places >= 64 {
                    proof {
                        rounding::lemma_pow2_grows(64, places as nat);
                        lemma_mul_upper_bound(
                            1,
                            significand as int,
                            pow2(64) as int,
                            pow2(places as nat) as int,
                        );
                    }
                    return max;
                }
                let power = engine::power_of_two(places);
                proof {
                    rounding::lemma_pow2_grows(places as nat, 63);
                    lemma_mul_upper_bound(
                        significand as int,
                        0x20_0000_0000_0000,
                        power as int,
                        pow2(63) as int,
                    );
                }
                let whole: u128 = significand as u128 * power;
                if whole > max as u128 {
                    max
                } else {
                    whole as u64
                }
            },
        }
    }

    /// Conversion to a count.
    pub fn to_usize(self) -> (n: usize)
        ensures
            n == self@.to_unsigned(usize::MAX as nat),
    {
        self.to_unsigned(usize::MAX as u64) as usize
    }
}

proof fn lemma_one_positive()
    ensures
        value::one() > 0,
{
    lemma_pow2_pos(1074);
}

proof fn lemma_next(whole: nat)
    ensures
        (whole + 1) * value::one() == whole * value::one() + value::one(),
{
    assert((whole + 1) * value::one() == whole * value::one() + value::one())
        by (nonlinear_arith);
}

proof fn lemma_exact_whole(units: nat)
    ensures
        units % value::one() == 0 ==> value::down(units) == units,
{
    lemma_one_positive();
    lemma_fundamental_div_mod(units as int, value::one() as int);
    lemma_mul_is_commutative((units / value::one()) as int, value::one() as int);
}

} // verus!
