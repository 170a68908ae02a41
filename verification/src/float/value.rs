//! What a floating-point number stands for, and what the operations yield.
use crate::float::rounding;
use vstd::arithmetic::power2::*;
use vstd::prelude::*;

verus! {

/// The number a bit pattern stands for. A finite number is counted in units of
/// two to the power of -1074, the smallest positive double, so that every
/// finite double (and every finite single) is a natural number and a sign.
pub enum FloatValue {
    Nan,
    Infinite { negative: bool },
    Finite { negative: bool, units: nat },
}

/// How many units make one.
pub open spec fn one() -> nat {
    pow2(1074)
}

/// A binary interchange format.
pub struct Format {
    /// Binary digits of a number.
    pub precision: nat,
    /// Exponent, in units, of the gap between the numbers nearest to zero.
    pub low: nat,
    /// Exponent, in units, of the first power of two that is out of range.
    pub limit: nat,
}

/// IEEE 754 binary64.
pub open spec fn double() -> Format {
    Format { precision: 53, low: 0, limit: 2098 }
}

/// IEEE 754 binary32.
pub open spec fn single() -> Format {
    Format { precision: 24, low: 925, limit: 1202 }
}

impl Format {
    /// The number of this format nearest to `num / den` units, ties to the
    /// even significand, infinite where that is out of range.
    pub open spec fn round(self, negative: bool, num: nat, den: nat) -> FloatValue {
        let units = rounding::nearest(self.precision, self.low, num, den);
        if units >= pow2(self.limit) {
            FloatValue::Infinite { negative }
        } else {
            FloatValue::Finite { negative, units }
        }
    }

    /// The number of this format nearest to the integer `n`.
    pub open spec fn from_int(self, n: int) -> FloatValue {
        let magnitude = if n < 0 { -n } else { n };
        self.round(n < 0, (magnitude * one()) as nat, 1)
    }

    pub open spec fn times(self, a: FloatValue, b: FloatValue) -> FloatValue {
        match a {
            FloatValue::Nan => FloatValue::Nan,
            FloatValue::Infinite { negative: s } => match b {
                FloatValue::Nan => FloatValue::Nan,
                FloatValue::Infinite { negative: t } => FloatValue::Infinite { negative: s != t },
                FloatValue::Finite { negative: t, units: v } => if v == 0 {
                    FloatValue::Nan
                } else {
                    FloatValue::Infinite { negative: s != t }
                },
            },
            FloatValue::Finite { negative: s, units: u } => match b {
                FloatValue::Nan => FloatValue::Nan,
                FloatValue::Infinite { negative: t } => if u == 0 {
                    FloatValue::Nan
                } else {
                    FloatValue::Infinite { negative: s != t }
                },
                FloatValue::Finite { negative: t, units: v } => self.round(s != t, u * v, one()),
            },
        }
    }
}

impl FloatValue {
    pub open spec fn zero() -> FloatValue {
        FloatValue::Finite { negative: false, units: 0 }
    }

    /// The double nearest to the integer `n`.
    pub open spec fn of(n: int) -> FloatValue {
        double().from_int(n)
    }

    /// The signed number of units of a finite number.
    pub open spec fn signed(self) -> int {
        match self {
            FloatValue::Finite { negative, units } => if negative {
                -(units as int)
            } else {
                units as int
            },
            _ => 0,
        }
    }

    pub open spec fn is_finite(self) -> bool {
        self is Finite
    }

    pub open spec fn negated(self) -> FloatValue {
        match self {
            FloatValue::Nan => FloatValue::Nan,
            FloatValue::Infinite { negative } => FloatValue::Infinite { negative: !negative },
            FloatValue::Finite { negative, units } => FloatValue::Finite {
                negative: !negative,
                units,
            },
        }
    }

    pub open spec fn times(self, other: FloatValue) -> FloatValue {
        double().times(self, other)
    }

    pub open spec fn over(self, other: FloatValue) -> FloatValue {
        match self {
            FloatValue::Nan => FloatValue::Nan,
            FloatValue::Infinite { negative: s } => match other {
                FloatValue::Nan => FloatValue::Nan,
                FloatValue::Infinite { .. } => FloatValue::Nan,
                FloatValue::Finite { negative: t, .. } => FloatValue::Infinite {
                    negative: s != t,
                },
            },
            FloatValue::Finite { negative: s, units: u } => match other {
                FloatValue::Nan => FloatValue::Nan,
                FloatValue::Infinite { negative: t } => FloatValue::Finite {
                    negative: s != t,
                    units: 0,
                },
                FloatValue::Finite { negative: t, units: v } => if v == 0 {
                    if u == 0 {
                        FloatValue::Nan
                    } else {
                        FloatValue::Infinite { negative: s != t }
                    }
                } else {
                    double().round(s != t, u * one(), v)
                },
            },
        }
    }

    pub open spec fn plus(self, other: FloatValue) -> FloatValue {
        match self {
            FloatValue::Nan => FloatValue::Nan,
            FloatValue::Infinite { negative: s } => match other {
                FloatValue::Nan => FloatValue::Nan,
                FloatValue::Infinite { negative: t } => if s == t {
                    self
                } else {
                    FloatValue::Nan
                },
                FloatValue::Finite { .. } => self,
            },
            FloatValue::Finite { negative: s, units: u } => match other {
                FloatValue::Nan => FloatValue::Nan,
                FloatValue::Infinite { .. } => other,
                FloatValue::Finite { negative: t, units: v } => {
                    let sum = self.signed() + other.signed();
                    if sum == 0 {
                        FloatValue::Finite { negative: s && t, units: 0 }
                    } else if sum < 0 {
                        double().round(true, (-sum) as nat, 1)
                    } else {
                        double().round(false, sum as nat, 1)
                    }
                },
            },
        }
    }

    pub open spec fn minus(self, other: FloatValue) -> FloatValue {
        self.plus(other.negated())
    }

    /// `self < other`; never so where one of them is not a number.
    pub open spec fn less(self, other: FloatValue) -> bool {
        match self {
            FloatValue::Nan => false,
            FloatValue::Infinite { negative: s } => match other {
                FloatValue::Nan => false,
                FloatValue::Infinite { negative: t } => s && !t,
                FloatValue::Finite { .. } => s,
            },
            FloatValue::Finite { .. } => match other {
                FloatValue::Nan => false,
                FloatValue::Infinite { negative: t } => !t,
                FloatValue::Finite { .. } => self.signed() < other.signed(),
            },
        }
    }

    /// `self == other` as numbers: zero has one value under either sign, and
    /// what is not a number equals nothing.
    pub open spec fn equals(self, other: FloatValue) -> bool {
        match self {
            FloatValue::Nan => false,
            FloatValue::Infinite { .. } => self == other,
            FloatValue::Finite { .. } => other is Finite && self.signed() == other.signed(),
        }
    }

    /// `self <= other`.
    pub open spec fn at_most(self, other: FloatValue) -> bool {
        self.less(other) || self.equals(other)
    }

    /// `self > 0`.
    pub open spec fn is_positive(self) -> bool {
        FloatValue::zero().less(self)
    }

    /// Finite and above zero: what a known rate or duration is.
    pub open spec fn is_known(self) -> bool {
        self.is_finite() && self.is_positive()
    }

    /// The integer at or below.
    pub open spec fn floor(self) -> FloatValue {
        match self {
            FloatValue::Finite { negative, units } => FloatValue::Finite {
                negative,
                units: if negative {
                    up(units)
                } else {
                    down(units)
                },
            },
            _ => self,
        }
    }

    /// The integer at or above.
    pub open spec fn ceil(self) -> FloatValue {
        match self {
            FloatValue::Finite { negative, units } => FloatValue::Finite {
                negative,
                units: if negative {
                    down(units)
                } else {
                    up(units)
                },
            },
            _ => self,
        }
    }

    /// The nearest integer, halves away from zero.
    pub open spec fn round(self) -> FloatValue {
        match self {
            FloatValue::Finite { negative, units } => FloatValue::Finite {
                negative,
                units: if 2 * (units % one()) < one() {
                    down(units)
                } else {
                    down(units) + one()
                },
            },
            _ => self,
        }
    }

    /// Conversion to an unsigned integer of largest value `max`: the fraction
    /// is dropped, what is out of range goes to the end of the range it passed,
    /// and what is not a number goes to zero.
    pub open spec fn to_unsigned(self, max: nat) -> nat {
        match self {
            FloatValue::Nan => 0,
            FloatValue::Infinite { negative } => if negative {
                0
            } else {
                max
            },
            FloatValue::Finite { negative, units } => if negative {
                0
            } else if units / one() > max {
                max
            } else {
                units / one()
            },
        }
    }
}

/// The multiple of one at or below `units`.
pub open spec fn down(units: nat) -> nat {
    (units / one()) * one()
}

/// The multiple of one at or above `units`.
pub open spec fn up(units: nat) -> nat {
    if units % one() == 0 {
        units
    } else {
        down(units) + one()
    }
}

} // verus!
