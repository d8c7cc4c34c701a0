use vstd::prelude::*;
use vstd::arithmetic::power2::pow2;

verus! {

/// The two binary formats that the recognizers report numbers in.
#[derive(Debug, Clone, Copy, PartialEq, Eq, Structural)]
pub enum Precision {
    /// 24 significant bits.
    Single,
    /// 53 significant bits.
    Double,
}

impl Precision {
    /// The number of significant bits.
    pub open spec fn digits(self) -> nat {
        match self {
            Precision::Single => 24,
            Precision::Double => 53,
        }
    }

    /// The spacing of the smallest numbers is `2^lowest` units.
    pub open spec fn lowest(self) -> nat {
        match self {
            Precision::Single => 925,
            Precision::Double => 0,
        }
    }

    /// Finite magnitudes lie below `2^limit` units.
    pub open spec fn limit(self) -> nat {
        match self {
            Precision::Single => 1202,
            Precision::Double => 2098,
        }
    }
}

/// `2^unit_exponent` units make up the number one: a unit is the smallest positive
/// number of the wider format, and every finite number is a whole number of
/// units.
pub open spec fn unit_exponent() -> nat {
    1074
}

/// What a floating-point number stands for. Zero keeps its sign.
pub enum Datum {
    Nan,
    Infinite { negative: bool },
    /// The magnitude counts units.
    Finite { negative: bool, magnitude: nat },
}

/// The number of binary digits of `n`.
pub open spec fn bit_length(n: nat) -> nat
    decreases n,
{
    if n == 0 {
        0
    } else {
        1 + bit_length(n / 2)
    }
}

/// The whole number nearest to `num / den`; of two equally near ones the even
/// one.
pub open spec fn nearest_even(num: nat, den: nat) -> nat {
    let quotient = num / den;
    let remainder = num % den;
    if 2 * remainder < den || (2 * remainder == den && quotient % 2 == 0) {
        quotient
    } else {
        quotient + 1
    }
}

/// Numbers of the size of `num / den` units lie `2^quantum` units apart.
pub open spec fn quantum(precision: Precision, num: nat, den: nat) -> nat {
    let spare = bit_length(num / den) - precision.digits();
    if spare < precision.lowest() {
        precision.lowest()
    } else {
        spare as nat
    }
}

/// `num / den` units, rounded to the spacing of numbers of that size.
pub open spec fn rounded_magnitude(precision: Precision, num: nat, den: nat) -> nat {
    let step = pow2(quantum(precision, num, den));
    nearest_even(num, den * step) * step
}

/// The number of the format nearest to `num / den` units, with the given sign.
/// Rounding past the largest finite number gives infinity.
pub open spec fn rounded(precision: Precision, negative: bool, num: nat, den: nat) -> Datum {
    let magnitude = rounded_magnitude(precision, num, den);
    if magnitude < pow2(precision.limit()) {
        Datum::Finite { negative, magnitude }
    } else {
        Datum::Infinite { negative }
    }
}

impl Datum {
    pub open spec fn is_finite(self) -> bool {
        self is Finite
    }

    /// The signed number of units of a finite number.
    pub open spec fn units(self) -> int {
        match self {
            Datum::Finite { negative, magnitude } => if negative {
                -(magnitude as int)
            } else {
                magnitude as int
            },
            _ => 0,
        }
    }

    /// `self < other`; false where one of the two is not a number.
    pub open spec fn less(self, other: Datum) -> bool {
        match (self, other) {
            (Datum::Nan, _) => false,
            (_, Datum::Nan) => false,
            (Datum::Infinite { negative: a }, Datum::Infinite { negative: b }) => a && !b,
            (Datum::Infinite { negative }, _) => negative,
            (_, Datum::Infinite { negative }) => !negative,
            _ => self.units() < other.units(),
        }
    }

    /// `self == other`: the two zeros are equal, and what is not a number
    /// equals nothing.
    pub open spec fn same(self, other: Datum) -> bool {
        match (self, other) {
            (Datum::Nan, _) => false,
            (_, Datum::Nan) => false,
            (Datum::Infinite { negative: a }, Datum::Infinite { negative: b }) => a == b,
            (Datum::Finite { .. }, Datum::Finite { .. }) => self.units() == other.units(),
            _ => false,
        }
    }

    /// `self <= other`; false where one of the two is not a number.
    pub open spec fn at_most(self, other: Datum) -> bool {
        self.less(other) || self.same(other)
    }

    pub open spec fn negated(self) -> Datum {
        match self {
            Datum::Nan => Datum::Nan,
            Datum::Infinite { negative } => Datum::Infinite { negative: !negative },
            Datum::Finite { negative, magnitude } => Datum::Finite {
                negative: !negative,
                magnitude,
            },
        }
    }

    /// The sum, rounded to `precision`.
    pub open spec fn plus(self, other: Datum, precision: Precision) -> Datum {
        match (self, other) {
            (Datum::Nan, _) => Datum::Nan,
            (_, Datum::Nan) => Datum::Nan,
            (Datum::Infinite { negative: a }, Datum::Infinite { negative: b }) => if a == b {
                self
            } else {
                Datum::Nan
            },
            (Datum::Infinite { .. }, _) => self,
            (_, Datum::Infinite { .. }) => other,
            (Datum::Finite { negative: a, .. }, Datum::Finite { negative: b, .. }) => {
                let sum = self.units() + other.units();
                if sum < 0 {
                    rounded(precision, true, (-sum) as nat, 1)
                } else if sum > 0 {
                    rounded(precision, false, sum as nat, 1)
                } else {
                    Datum::Finite { negative: a && b, magnitude: 0 }
                }
            },
        }
    }

    /// The difference, rounded to `precision`.
    pub open spec fn minus(self, other: Datum, precision: Precision) -> Datum {
        self.plus(other.negated(), precision)
    }

    /// The product, rounded to `precision`.
    pub open spec fn times(self, other: Datum, precision: Precision) -> Datum {
        match (self, other) {
            (Datum::Nan, _) => Datum::Nan,
            (_, Datum::Nan) => Datum::Nan,
            (Datum::Infinite { negative: a }, Datum::Infinite { negative: b }) => {
                Datum::Infinite { negative: a != b }
            },
            (Datum::Infinite { negative: a }, Datum::Finite { negative: b, magnitude }) => {
                if magnitude == 0 {
                    Datum::Nan
                } else {
                    Datum::Infinite { negative: a != b }
                }
            },
            (Datum::Finite { negative: a, magnitude }, Datum::Infinite { negative: b }) => {
                if magnitude == 0 {
                    Datum::Nan
                } else {
                    Datum::Infinite { negative: a != b }
                }
            },
            (
                Datum::Finite { negative: a, magnitude: m },
                Datum::Finite { negative: b, magnitude: n },
            ) => rounded(precision, a != b, m * n, pow2(unit_exponent())),
        }
    }

    /// The quotient, rounded to `precision`.
    pub open spec fn over(self, other: Datum, precision: Precision) -> Datum {
        match (self, other) {
            (Datum::Nan, _) => Datum::Nan,
            (_, Datum::Nan) => Datum::Nan,
            (Datum::Infinite { .. }, Datum::Infinite { .. }) => Datum::Nan,
            (Datum::Infinite { negative: a }, Datum::Finite { negative: b, .. }) => {
                Datum::Infinite { negative: a != b }
            },
            (Datum::Finite { negative: a, .. }, Datum::Infinite { negative: b }) => {
                Datum::Finite { negative: a != b, magnitude: 0 }
            },
            (
                Datum::Finite { negative: a, magnitude: m },
                Datum::Finite { negative: b, magnitude: n },
            ) => if n != 0 {
                rounded(precision, a != b, m * pow2(unit_exponent()), n)
            } else if m == 0 {
                Datum::Nan
            } else {
                Datum::Infinite { negative: a != b }
            },
        }
    }

    /// The smaller of the two; where only one is a number, that one.
    pub open spec fn smaller(self, other: Datum) -> Datum {
        if self is Nan || other.less(self) {
            other
        } else {
            self
        }
    }

    /// The larger of the two; where only one is a number, that one.
    pub open spec fn larger(self, other: Datum) -> Datum {
        if self is Nan || self.less(other) {
            other
        } else {
            self
        }
    }
}

/// The number zero.
pub open spec fn zero() -> Datum {
    Datum::Finite { negative: false, magnitude: 0 }
}

/// The number one.
pub open spec fn one() -> Datum {
    Datum::Finite { negative: false, magnitude: pow2(unit_exponent()) }
}

/// The number two.
pub open spec fn two() -> Datum {
    Datum::Finite { negative: false, magnitude: pow2(unit_exponent() + 1) }
}

/// The number nearest to the fraction `num / den`.
pub open spec fn fraction(precision: Precision, num: nat, den: nat) -> Datum {
    rounded(precision, false, num * pow2(unit_exponent()), den)
}

} // verus!
