use vstd::prelude::*;
use vstd::arithmetic::power2::{
    lemma2_to64, lemma2_to64_rest, lemma_pow2_adds, lemma_pow2_pos, lemma_pow2_strictly_increases,
    lemma_pow2_unfold, pow2,
};
use crate::float::model::{
    bit_length, fraction, one, quantum, rounded, rounded_magnitude, two, unit_exponent, zero, Datum,
    Precision,
};
use crate::float::rounding::{
    brackets, guard_exponent, lemma_bit_length_bounds, lemma_bit_length_unique, lemma_pow2_values, lemma_pow2_monotone,
    power_of_two, round_significand,
};

verus! {

/// A floating-point number of 64 bits, by its bit pattern: the sign, eleven
/// bits of exponent and 52 bits of fraction.
#[derive(Debug, Clone, Copy)]
pub struct Double {
    pub bits: u64,
}

pub open spec fn sign_field(bits: u64) -> bool {
    bits >= 0x8000_0000_0000_0000
}

pub open spec fn exponent_field(bits: u64) -> nat {
    ((bits / 0x10_0000_0000_0000) % 0x800) as nat
}

pub open spec fn fraction_field(bits: u64) -> nat {
    (bits % 0x10_0000_0000_0000) as nat
}

impl View for Double {
    type V = Datum;

    open spec fn view(&self) -> Datum {
        let negative = sign_field(self.bits);
        let exponent = exponent_field(self.bits);
        let fraction = fraction_field(self.bits);
        if exponent == 0x7ff {
            if fraction == 0 {
                Datum::Infinite { negative }
            } else {
                Datum::Nan
            }
        } else if exponent == 0 {
            Datum::Finite { negative, magnitude: fraction }
        } else {
            Datum::Finite {
                negative,
                magnitude: (0x10_0000_0000_0000 + fraction) * pow2((exponent - 1) as nat),
            }
        }
    }
}

/// The parts of a finite number: its magnitude is `significand * 2^exponent`
/// units.
struct Parts {
    negative: bool,
    significand: u64,
    exponent: u32,
}

impl Parts {
    spec fn wf(self) -> bool {
        &&& self.significand < 0x20_0000_0000_0000
        &&& self.exponent <= 2045
        &&& self.exponent > 0 ==> self.significand >= 0x10_0000_0000_0000
    }

    spec fn magnitude(self) -> nat {
        self.significand as nat * pow2(self.exponent as nat)
    }

    spec fn datum(self) -> Datum {
        Datum::Finite { negative: self.negative, magnitude: self.magnitude() }
    }
}

impl Double {
    pub fn from_bits(bits: u64) -> (r: Double)
        ensures
            r.bits == bits,
    {
        Double { bits }
    }

    pub fn to_bits(self) -> (bits: u64)
        ensures
            bits == self.bits,
    {
        self.bits
    }

    pub fn is_nan(self) -> (b: bool)
        ensures
            b == (self@ is Nan),
    {
        (self.bits / 0x10_0000_0000_0000) % 0x800 == 0x7ff && self.bits % 0x10_0000_0000_0000 != 0
    }

    pub fn is_infinite(self) -> (b: bool)
        ensures
            b == (self@ is Infinite),
    {
        (self.bits / 0x10_0000_0000_0000) % 0x800 == 0x7ff && self.bits % 0x10_0000_0000_0000 == 0
    }

    pub fn is_finite(self) -> (b: bool)
        ensures
            b == self@.is_finite(),
    {
        (self.bits / 0x10_0000_0000_0000) % 0x800 != 0x7ff
    }

    /// What is not a number.
    fn nan() -> (r: Double)
        ensures
            r@ is Nan,
    {
        Double { bits: 0x7ff8_0000_0000_0000 }
    }

    pub fn infinity(negative: bool) -> (r: Double)
        ensures
            r@ == (Datum::Infinite { negative }),
    {
        if negative {
            Double { bits: 0xfff0_0000_0000_0000 }
        } else {
            Double { bits: 0x7ff0_0000_0000_0000 }
        }
    }

    pub fn zero() -> (r: Double)
        ensures
            r@ == zero(),
    {
        Double { bits: 0 }
    }

    pub fn one() -> (r: Double)
        ensures
            r@ == one(),
    {
        proof {
            lemma2_to64_rest();
            lemma_pow2_adds(52, 1022);
        }
        Double { bits: 0x3ff0_0000_0000_0000 }
    }

    pub fn two() -> (r: Double)
        ensures
            r@ == two(),
    {
        proof {
            lemma2_to64_rest();
            lemma_pow2_adds(52, 1023);
        }
        Double { bits: 0x4000_0000_0000_0000 }
    }

    fn is_negative(self) -> (b: bool)
        ensures
            b == sign_field(self.bits),
    {
        self.bits >= 0x8000_0000_0000_0000
    }

    fn unpack(self) -> (r: Parts)
        requires
            self@ is Finite,
        ensures
            r.wf(),
            r.datum() == self@,
    {
        let exponent: u64 = (self.bits / 0x10_0000_0000_0000) % 0x800;
        let fraction: u64 = self.bits % 0x10_0000_0000_0000;
        let negative = self.is_negative();
        proof {
            lemma2_to64();
        }
        if exponent == 0 {
            assert(fraction as nat * pow2(0) == fraction) by (nonlinear_arith)
                requires
                    pow2(0) == 1,
            ;
            Parts { negative, significand: fraction, exponent: 0 }
        } else {
            Parts {
                negative,
                significand: 0x10_0000_0000_0000 + fraction,
                exponent: (exponent - 1) as u32,
            }
        }
    }

    /// The number of `steps * 2^step` units.
    fn pack(negative: bool, steps: u64, step: u32) -> (r: Double)
        requires
            steps <= 0x20_0000_0000_0000,
            steps as nat * pow2(step as nat) < pow2(2098),
        ensures
            r@ == (Datum::Finite { negative, magnitude: steps as nat * pow2(step as nat) }),
    {
        let ghost magnitude = steps as nat * pow2(step as nat);
        let mut q: u64 = steps;
        let mut k: u32 = step;
        while q < 0x10_0000_0000_0000 && k > 0
            invariant
                q <= 0x20_0000_0000_0000,
                q as nat * pow2(k as nat) == magnitude,
            decreases k,
        {
            proof {
                lemma_pow2_unfold(k as nat);
                assert((q * 2) as nat * pow2((k - 1) as nat) == q as nat * pow2(k as nat))
                    by (nonlinear_arith)
                    requires
                        k > 0,
                        pow2(k as nat) == 2 * pow2((k - 1) as nat),
                ;
            }
            q = q * 2;
            k = k - 1;
        }
        proof {
            lemma2_to64();
            lemma2_to64_rest();
            if k > 2045 {
                lemma_pow2_adds(52, k as nat);
                lemma_pow2_monotone(2098, 52 + k as nat);
                assert(magnitude >= pow2(52) * pow2(k as nat)) by (nonlinear_arith)
                    requires
                        magnitude == q as nat * pow2(k as nat),
                        q >= pow2(52),
                ;
            }
            if k == 2045 && q == 0x20_0000_0000_0000 {
                lemma_pow2_values();
                lemma_pow2_adds(53, 2045);
            }
        }
        let body: u64 = k as u64 * 0x10_0000_0000_0000 + q;
        proof {
            let high: u64 = if q < 0x10_0000_0000_0000 {
                0
            } else if q < 0x20_0000_0000_0000 {
                1
            } else {
                2
            };
            let low: u64 = (q - high * 0x10_0000_0000_0000) as u64;
            assert(body == (k as u64 + high) * 0x10_0000_0000_0000 + low);
            assert(body / 0x10_0000_0000_0000 == k as u64 + high);
            assert(body % 0x10_0000_0000_0000 == low);
            assert(q as nat * pow2(0) == q as nat) by (nonlinear_arith)
                requires
                    pow2(0) == 1,
            ;
            if high == 2 {
                lemma_pow2_unfold((k + 1) as nat);
                assert(0x10_0000_0000_0000 * pow2((k + 1) as nat) == q as nat * pow2(k as nat))
                    by (nonlinear_arith)
                    requires
                        pow2((k + 1) as nat) == 2 * pow2(k as nat),
                        q == 0x20_0000_0000_0000,
                ;
            }
        }
        if negative {
            Double { bits: 0x8000_0000_0000_0000 + body }
        } else {
            Double { bits: body }
        }
    }

    /// Rounds a bracketed number to the format.
    fn round(
        precision: Precision,
        negative: bool,
        significand: u128,
        exponent: u32,
        inexact: bool,
        Ghost(num): Ghost<nat>,
        Ghost(den): Ghost<nat>,
    ) -> (r: Double)
        requires
            den > 0,
            significand < pow2(127),
            exponent <= 8000,
            brackets(significand as nat, exponent as nat, inexact, num, den),
            inexact ==> bit_length(significand as nat) > precision.digits(),
        ensures
            r@ == rounded(precision, negative, num, den),
    {
        if significand == 0 {
            proof {
                lemma_round_zero(precision, exponent as nat, num, den);
                lemma_pow2_pos(2098);
                assert(0 * pow2(0) == 0) by (nonlinear_arith);
            }
            return Double::pack(negative, 0, 0);
        }
        let (steps, step) = round_significand(
            precision,
            significand,
            exponent,
            inexact,
            Ghost(num),
            Ghost(den),
        );
        let digits: u32 = match precision {
            Precision::Single => 24,
            Precision::Double => 53,
        };
        let limit: u32 = match precision {
            Precision::Single => 1202,
            Precision::Double => 2098,
        };
        let full = power_of_two(digits);
        let ghost magnitude = steps as nat * pow2(step as nat);
        assert(magnitude == rounded_magnitude(precision, num, den));
        proof {
            lemma_pow2_values();
            lemma_pow2_monotone(digits as nat, 53);
            lemma_pow2_monotone(limit as nat, 2098);
            lemma_overflow(
                steps as nat,
                step as nat,
                digits as nat,
                limit as nat,
                precision.lowest(),
            );
        }
        if step > limit - digits || (step == limit - digits && steps as u128 == full) {
            Double::infinity(negative)
        } else {
            Double::pack(negative, steps, step)
        }
    }

    /// The sum of two finite numbers, the first of which has the larger
    /// exponent.
    fn sum(a: Parts, b: Parts, precision: Precision) -> (r: Double)
        requires
            a.wf(),
            b.wf(),
            a.exponent >= b.exponent,
        ensures
            r@ == a.datum().plus(b.datum(), precision),
            r@ == b.datum().plus(a.datum(), precision),
    {
        let ghost total = a.datum().units() + b.datum().units();
        let gap: u32 = a.exponent - b.exponent;
        let ghost size = pow2(b.exponent as nat);
        proof {
            lemma_pow2_values();
            lemma_pow2_pos(b.exponent as nat);
        }
        if gap <= 64 {
            let factor = power_of_two(gap);
            proof {
                lemma_pow2_monotone(gap as nat, 64);
                lemma_pow2_adds(gap as nat, b.exponent as nat);
                assert(a.significand * factor < 0x20_0000_0000_0000 * 0x1_0000_0000_0000_0000)
                    by (nonlinear_arith)
                    requires
                        a.significand < 0x20_0000_0000_0000,
                        0 <= factor <= 0x1_0000_0000_0000_0000,
                ;
            }
            let wide: u128 = a.significand as u128 * factor;
            let narrow: u128 = b.significand as u128;
            let negative: bool = if a.negative == b.negative || wide >= narrow {
                a.negative
            } else {
                b.negative
            };
            let significand: u128 = if a.negative == b.negative {
                wide + narrow
            } else if wide >= narrow {
                wide - narrow
            } else {
                narrow - wide
            };
            proof {
                let w = wide as int;
                let n = narrow as int;
                assert(a.magnitude() == w * size) by (nonlinear_arith)
                    requires
                        a.magnitude() == a.significand as nat * pow2(a.exponent as nat),
                        w == a.significand as nat * factor,
                        pow2(a.exponent as nat) == factor * size,
                ;
                assert(b.magnitude() == n * size);
                let m = significand as int;
                assert(total == if negative {
                    -(m * size)
                } else {
                    m * size
                }) by (nonlinear_arith)
                    requires
                        total == (if a.negative { -(w * size) } else { w * size }) + (if b.negative {
                            -(n * size)
                        } else {
                            n * size
                        }),
                        m == (if a.negative == b.negative {
                            w + n
                        } else if w >= n {
                            w - n
                        } else {
                            n - w
                        }),
                        negative == (if a.negative == b.negative || w >= n {
                            a.negative
                        } else {
                            b.negative
                        }),
                ;
                assert((m == 0) == (m * size == 0)) by (nonlinear_arith)
                    requires
                        size > 0,
                ;
                assert(m * size >= 0) by (nonlinear_arith)
                    requires
                        m >= 0,
                        size > 0,
                ;
                if m == 0 && a.negative == b.negative {
                    assert(w == 0 && n == 0);
                }
            }
            if significand == 0 {
                proof {
                    lemma_pow2_pos(2098);
                    assert(0 * pow2(0) == 0) by (nonlinear_arith);
                }
                return Double::pack(a.negative && b.negative, 0, 0);
            }
            proof {
                lemma_bracket(
                    significand as nat,
                    b.exponent as nat,
                    0,
                    significand as nat * size,
                );
            }
            Double::round(
                precision,
                negative,
                significand,
                b.exponent + 1100,
                false,
                Ghost(significand as nat * size),
                Ghost(1),
            )
        } else {
            // The second number is smaller than a quarter of the last place of
            // the first.
            let inexact: bool = b.significand != 0;
            let significand: u128 = if a.negative != b.negative && inexact {
                a.significand as u128 * 4 - 1
            } else {
                a.significand as u128 * 4
            };
            let ghost big = a.magnitude();
            let ghost small = b.magnitude();
            let ghost quarter = pow2((a.exponent - 2) as nat);
            let ghost num = if a.negative == b.negative {
                big + small
            } else {
                (big - small) as nat
            };
            let ghost past = if a.negative == b.negative {
                small
            } else if inexact {
                (quarter - small) as nat
            } else {
                0
            };
            proof {
                lemma2_to64();
                lemma2_to64_rest();
                lemma_pow2_adds(2, (a.exponent - 2) as nat);
                lemma_pow2_adds(53, b.exponent as nat);
                lemma_pow2_monotone((53 + b.exponent) as nat, (a.exponent - 2) as nat);
                lemma_pow2_pos((a.exponent - 2) as nat);
                assert(small < quarter) by (nonlinear_arith)
                    requires
                        small == b.significand as nat * size,
                        b.significand < pow2(53),
                        pow2(53) * size <= quarter,
                        size > 0,
                ;
                assert((small == 0) == !inexact) by (nonlinear_arith)
                    requires
                        small == b.significand as nat * size,
                        size > 0,
                        inexact == (b.significand != 0),
                ;
                assert(big == (4 * a.significand as nat) * quarter) by (nonlinear_arith)
                    requires
                        big == a.significand as nat * pow2(a.exponent as nat),
                        pow2(a.exponent as nat) == 4 * quarter,
                ;
                assert((4 * a.significand as nat - 1) * quarter == big - quarter) by (nonlinear_arith)
                    requires
                        big == (4 * a.significand as nat) * quarter,
                ;
                assert(big >= quarter) by (nonlinear_arith)
                    requires
                        big == (4 * a.significand as nat) * quarter,
                        a.significand >= 1,
                        quarter > 0,
                ;
                assert(num == significand as nat * quarter + past);
                lemma_bracket(significand as nat, (a.exponent - 2) as nat, past, num);
                // The significand has at least 54 bits.
                lemma_pow2_values();
                if significand < pow2(54) {
                    lemma_bit_length_unique(significand as nat, 54);
                } else {
                    lemma_pow2_unfold(55);
                    lemma_bit_length_unique(significand as nat, 55);
                }
            }
            Double::round(
                precision,
                a.negative,
                significand,
                a.exponent - 2 + 1100,
                inexact,
                Ghost(num),
                Ghost(1),
            )
        }
    }

    /// The sum, rounded to `precision`.
    pub fn plus(self, other: Double, precision: Precision) -> (r: Double)
        ensures
            r@ == self@.plus(other@, precision),
    {
        if self.is_nan() || other.is_nan() {
            Double::nan()
        } else if self.is_infinite() {
            if other.is_infinite() && self.is_negative() != other.is_negative() {
                Double::nan()
            } else {
                self
            }
        } else if other.is_infinite() {
            other
        } else {
            let a = self.unpack();
            let b = other.unpack();
            if a.exponent >= b.exponent {
                Double::sum(a, b, precision)
            } else {
                Double::sum(b, a, precision)
            }
        }
    }

    pub fn negated(self) -> (r: Double)
        ensures
            r@ == self@.negated(),
    {
        if self.bits >= 0x8000_0000_0000_0000 {
            Double { bits: self.bits - 0x8000_0000_0000_0000 }
        } else {
            Double { bits: self.bits + 0x8000_0000_0000_0000 }
        }
    }

    /// The difference, rounded to `precision`.
    pub fn minus(self, other: Double, precision: Precision) -> (r: Double)
        ensures
            r@ == self@.minus(other@, precision),
    {
        self.plus(other.negated(), precision)
    }

    /// The product, rounded to `precision`.
    pub fn times(self, other: Double, precision: Precision) -> (r: Double)
        ensures
            r@ == self@.times(other@, precision),
    {
        let negative: bool = self.is_negative() != other.is_negative();
        if self.is_nan() || other.is_nan() {
            return Double::nan();
        }
        if self.is_infinite() || other.is_infinite() {
            return if self.is_zero() || other.is_zero() {
                Double::nan()
            } else {
                Double::infinity(negative)
            };
        }
        let a = self.unpack();
        let b = other.unpack();
        let ghost num = a.magnitude() * b.magnitude();
        let ghost den = pow2(unit_exponent());
        assert(a.significand * b.significand < 0x20_0000_0000_0000 * 0x20_0000_0000_0000)
            by (nonlinear_arith)
            requires
                a.significand < 0x20_0000_0000_0000,
                b.significand < 0x20_0000_0000_0000,
        ;
        let significand: u128 = a.significand as u128 * b.significand as u128;
        let exponent: u32 = a.exponent + b.exponent + 1100 - 1074;
        proof {
            let ea = pow2(a.exponent as nat);
            let eb = pow2(b.exponent as nat);
            lemma_pow2_values();
            lemma_pow2_pos(unit_exponent());
            lemma_pow2_pos(exponent as nat);
            lemma_pow2_adds(a.exponent as nat, b.exponent as nat);
            lemma_pow2_adds((a.exponent + b.exponent) as nat, guard_exponent());
            lemma_pow2_adds(exponent as nat, unit_exponent());
            let width = pow2(exponent as nat) * den;
            let scale = pow2(guard_exponent());
            assert(width > 0) by (nonlinear_arith)
                requires
                    width == pow2(exponent as nat) * den,
                    pow2(exponent as nat) > 0,
                    den > 0,
            ;
            assert(num * scale == significand as nat * width) by (nonlinear_arith)
                requires
                    num == (a.significand as nat * ea) * (b.significand as nat * eb),
                    significand as nat == a.significand as nat * b.significand as nat,
                    width == (ea * eb) * scale,
            ;
        }
        Double::round(precision, negative, significand, exponent, false, Ghost(num), Ghost(den))
    }

    /// The quotient, rounded to `precision`.
    pub fn over(self, other: Double, precision: Precision) -> (r: Double)
        ensures
            r@ == self@.over(other@, precision),
    {
        let negative: bool = self.is_negative() != other.is_negative();
        if self.is_nan() || other.is_nan() {
            return Double::nan();
        }
        if self.is_infinite() {
            return if other.is_infinite() {
                Double::nan()
            } else {
                Double::infinity(negative)
            };
        }
        if other.is_infinite() {
            proof {
                lemma_pow2_pos(2098);
                assert(0 * pow2(0) == 0) by (nonlinear_arith);
            }
            return Double::pack(negative, 0, 0);
        }
        if other.is_zero() {
            return if self.is_zero() {
                Double::nan()
            } else {
                Double::infinity(negative)
            };
        }
        let ghost num = self@->magnitude * pow2(unit_exponent());
        let ghost den = other@->magnitude;
        if self.is_zero() {
            proof {
                let width = pow2(0) * den;
                lemma2_to64();
                lemma_pow2_values();
                assert(0 * pow2(unit_exponent()) == 0) by (nonlinear_arith);
                assert(0 * width == 0) by (nonlinear_arith);
                assert(0 * pow2(guard_exponent()) == 0) by (nonlinear_arith);
            }
            return Double::round(precision, negative, 0, 0, false, Ghost(num), Ghost(den));
        }
        let (m, x) = self.unpack().normalized();
        let (n, y) = other.unpack().normalized();
        proof {
            lemma2_to64();
            lemma2_to64_rest();
            lemma_pow2_values();
        }
        let dividend: u128 = m as u128 * 0x1_0000_0000_0000_0000;
        let significand: u128 = dividend / n as u128;
        let inexact: bool = dividend % n as u128 != 0;
        // Both exponents are shifted up by 52.
        let exponent: u32 = x + 1074 + 1100 - 64 - y;
        proof {
            lemma_quotient(
                m as nat,
                x as nat,
                n as nat,
                y as nat,
                self@->magnitude,
                other@->magnitude,
                exponent as nat,
                significand as nat,
                (dividend % n as u128) as nat,
            );
        }
        Double::round(precision, negative, significand, exponent, inexact, Ghost(num), Ghost(den))
    }

    pub fn is_zero(self) -> (b: bool)
        ensures
            b == (self@ is Finite && self@->magnitude == 0),
    {
        proof {
            if exponent_field(self.bits) != 0 && exponent_field(self.bits) != 0x7ff {
                let size = pow2((exponent_field(self.bits) - 1) as nat);
                lemma_pow2_pos((exponent_field(self.bits) - 1) as nat);
                let s = 0x10_0000_0000_0000 + fraction_field(self.bits);
                assert(s * size > 0) by (nonlinear_arith)
                    requires
                        s > 0,
                        size > 0,
                ;
            }
        }
        self.bits == 0 || self.bits == 0x8000_0000_0000_0000
    }

    /// The whole number `count`, rounded to `precision`.
    pub fn from_count(count: u64, precision: Precision) -> (r: Double)
        ensures
            r@ == fraction(precision, count as nat, 1),
    {
        let ghost num = count as nat * pow2(unit_exponent());
        proof {
            lemma_pow2_values();
            lemma_pow2_pos(unit_exponent());
            lemma_bracket(count as nat, unit_exponent(), 0, num);
        }
        Double::round(precision, false, count as u128, 1074 + 1100, false, Ghost(num), Ghost(1))
    }

    /// The fraction `num / den`, rounded to `precision`.
    pub(crate) fn ratio(num: u64, den: u64, precision: Precision) -> (r: Double)
        requires
            0 < num <= 1000,
            0 < den <= 1000,
        ensures
            r@ == fraction(precision, num as nat, den as nat),
    {
        let dividend: u128 = num as u128 * 0x1_0000_0000_0000_0000;
        let significand: u128 = dividend / den as u128;
        let remainder: u128 = dividend % den as u128;
        let ghost units = num as nat * pow2(unit_exponent());
        proof {
            lemma_ratio(num as nat, den as nat, significand as nat, remainder as nat);
        }
        Double::round(
            precision,
            false,
            significand,
            1074 + 1100 - 64,
            remainder != 0,
            Ghost(units),
            Ghost(den as nat),
        )
    }
}

impl Double {
    /// `self < other`; false where one of the two is not a number.
    pub fn less(self, other: Double) -> (b: bool)
        ensures
            b == self@.less(other@),
    {
        if self.is_nan() || other.is_nan() {
            false
        } else if self.is_infinite() {
            self.is_negative() && !(other.is_infinite() && other.is_negative())
        } else if other.is_infinite() {
            !other.is_negative()
        } else {
            let a = self.unpack();
            let b = other.unpack();
            if a.negative != b.negative {
                a.negative && !(self.is_zero() && other.is_zero())
            } else if a.negative {
                Parts::smaller(&b, &a)
            } else {
                Parts::smaller(&a, &b)
            }
        }
    }

    /// `self == other`: the two zeros are equal, and what is not a number
    /// equals nothing.
    pub fn same(self, other: Double) -> (b: bool)
        ensures
            b == self@.same(other@),
    {
        if self.is_nan() || other.is_nan() {
            false
        } else if self.is_infinite() || other.is_infinite() {
            self.is_infinite() && other.is_infinite() && self.is_negative() == other.is_negative()
        } else {
            !self.less(other) && !other.less(self)
        }
    }

    /// `self <= other`; false where one of the two is not a number.
    pub fn at_most(self, other: Double) -> (b: bool)
        ensures
            b == self@.at_most(other@),
    {
        self.less(other) || self.same(other)
    }

    /// The smaller of the two; where only one is a number, that one.
    pub fn smaller(self, other: Double) -> (r: Double)
        ensures
            r@ == self@.smaller(other@),
            r == self || r == other,
    {
        if self.is_nan() || other.less(self) {
            other
        } else {
            self
        }
    }

    /// The larger of the two; where only one is a number, that one.
    pub fn larger(self, other: Double) -> (r: Double)
        ensures
            r@ == self@.larger(other@),
            r == self || r == other,
    {
        if self.is_nan() || self.less(other) {
            other
        } else {
            self
        }
    }
}

impl PartialEq for Double {
    fn eq(&self, other: &Double) -> (b: bool) {
        self.same(*other)
    }
}

impl vstd::std_specs::cmp::PartialEqSpecImpl for Double {
    open spec fn obeys_eq_spec() -> bool {
        true
    }

    open spec fn eq_spec(&self, other: &Double) -> bool {
        self@.same(other@)
    }
}

impl Parts {
    /// Compares two magnitudes.
    fn smaller(a: &Parts, b: &Parts) -> (r: bool)
        requires
            a.wf(),
            b.wf(),
        ensures
            r == (a.magnitude() < b.magnitude()),
    {
        let ghost p = pow2(a.exponent as nat);
        let ghost q = pow2(b.exponent as nat);
        proof {
            lemma_pow2_pos(a.exponent as nat);
            lemma_pow2_pos(b.exponent as nat);
        }
        if a.exponent < b.exponent {
            proof {
                lemma_pow2_unfold((a.exponent + 1) as nat);
                lemma_pow2_monotone((a.exponent + 1) as nat, b.exponent as nat);
                let m = a.significand as nat;
                let n = b.significand as nat;
                assert(m * p < n * q) by (nonlinear_arith)
                    requires
                        m < 2 * 0x10_0000_0000_0000,
                        n >= 0x10_0000_0000_0000,
                        2 * p <= q,
                        p > 0,
                ;
            }
            true
        } else if b.exponent < a.exponent {
            proof {
                lemma_pow2_unfold((b.exponent + 1) as nat);
                lemma_pow2_monotone((b.exponent + 1) as nat, a.exponent as nat);
                let m = a.significand as nat;
                let n = b.significand as nat;
                assert(n * q < m * p) by (nonlinear_arith)
                    requires
                        n < 2 * 0x10_0000_0000_0000,
                        m >= 0x10_0000_0000_0000,
                        2 * q <= p,
                        q > 0,
                ;
            }
            false
        } else {
            proof {
                let m = a.significand as nat;
                let n = b.significand as nat;
                assert((m < n) == (m * p < n * p)) by (nonlinear_arith)
                    requires
                        p > 0,
                ;
            }
            a.significand < b.significand
        }
    }

    /// The significand, shifted left until it has 53 bits, and the exponent
    /// that goes with it, counted from 52 below zero.
    fn normalized(self) -> (r: (u64, u32))
        requires
            self.wf(),
            self.significand > 0,
        ensures
            0x10_0000_0000_0000 <= r.0 < 0x20_0000_0000_0000,
            r.0 as nat * pow2(r.1 as nat) == self.magnitude() * pow2(52),
            r.1 <= 2097,
    {
        let mut m: u64 = self.significand;
        let mut x: u32 = self.exponent + 52;
        let ghost target = self.magnitude() * pow2(52);
        proof {
            lemma2_to64();
            lemma2_to64_rest();
            lemma_pow2_adds(self.exponent as nat, 52);
            let ghost size = pow2(self.exponent as nat);
            assert(m as nat * (size * pow2(52)) == (m as nat * size) * pow2(52)) by (nonlinear_arith);
        }
        let ghost mut slack: nat = 52;
        while m < 0x10_0000_0000_0000
            invariant
                0 < m < 0x20_0000_0000_0000,
                m as nat * pow2(x as nat) == target,
                x <= 2097,
                slack <= 52,
                m < 0x10_0000_0000_0000 ==> slack > 0 && m >= pow2((52 - slack) as nat) && x >= slack,
                pow2(52) == 0x10_0000_0000_0000,
            decreases slack,
        {
            proof {
                lemma_pow2_unfold(x as nat);
                assert((m * 2) as nat * pow2((x - 1) as nat) == m as nat * pow2(x as nat))
                    by (nonlinear_arith)
                    requires
                        pow2(x as nat) == 2 * pow2((x - 1) as nat),
                ;
                lemma_pow2_unfold((52 - slack + 1) as nat);
                slack = (slack - 1) as nat;
            }
            m = m * 2;
            x = x - 1;
        }
        (m, x)
    }
}

proof fn lemma_quotient(
    m: nat,
    x: nat,
    n: nat,
    y: nat,
    a: nat,
    b: nat,
    exponent: nat,
    quotient: nat,
    remainder: nat,
)
    requires
        0x10_0000_0000_0000 <= m < 0x20_0000_0000_0000,
        0x10_0000_0000_0000 <= n < 0x20_0000_0000_0000,
        m * pow2(x) == a * pow2(52),
        n * pow2(y) == b * pow2(52),
        exponent + y + 64 == x + unit_exponent() + guard_exponent(),
        quotient == (m * 0x1_0000_0000_0000_0000) / n,
        remainder == (m * 0x1_0000_0000_0000_0000) % n,
    ensures
        b > 0,
        quotient < pow2(127),
        bit_length(quotient) > 53,
        brackets(quotient, exponent, remainder != 0, a * pow2(unit_exponent()), b),
{
    let unit = pow2(unit_exponent());
    let scale = pow2(guard_exponent());
    let w = pow2(64);
    let f = pow2(52);
    let px = pow2(x);
    let py = pow2(y);
    let pe = pow2(exponent);
    lemma_pow2_values();
    lemma2_to64();
    lemma2_to64_rest();
    lemma_pow2_pos(y);
    lemma_pow2_pos(x);
    lemma_pow2_pos(exponent);
    assert(b > 0) by (nonlinear_arith)
        requires
            n * py == b * f,
            n > 0,
            py > 0,
    ;
    vstd::arithmetic::div_mod::lemma_fundamental_div_mod((m * w) as int, n as int);
    assert(m * w == quotient * n + remainder) by (nonlinear_arith)
        requires
            m * w == n * quotient + remainder,
    ;
    // The exponents agree.
    lemma_pow2_adds(exponent, y);
    lemma_pow2_adds(exponent + y, 64);
    lemma_pow2_adds(x, unit_exponent());
    lemma_pow2_adds(x + unit_exponent(), guard_exponent());
    assert(pe * py * w == px * unit * scale);
    // In parts, times 2^52.
    let width = pe * b;
    let parts = a * unit * scale;
    assert(width * f == n * (pe * py)) by (nonlinear_arith)
        requires
            width == pe * b,
            n * py == b * f,
    ;
    assert(parts * f == m * (px * unit * scale)) by (nonlinear_arith)
        requires
            parts == a * unit * scale,
            m * px == a * f,
    ;
    let g = pe * py;
    assert(parts * f == (m * w) * g) by (nonlinear_arith)
        requires
            parts * f == m * (px * unit * scale),
            pe * py * w == px * unit * scale,
            g == pe * py,
    ;
    assert(parts * f == quotient * (width * f) + remainder * g) by (nonlinear_arith)
        requires
            parts * f == (m * w) * g,
            m * w == quotient * n + remainder,
            width * f == n * g,
    ;
    assert(g > 0) by (nonlinear_arith)
        requires
            g == pe * py,
            pe > 0,
            py > 0,
    ;
    assert(remainder * g < width * f) by (nonlinear_arith)
        requires
            remainder < n,
            width * f == n * g,
            g > 0,
    ;
    assert(0 <= remainder * g) by (nonlinear_arith)
        requires
            remainder >= 0,
            g > 0,
    ;
    assert((remainder * g == 0) == (remainder == 0)) by (nonlinear_arith)
        requires
            g > 0,
    ;
    let start = quotient * width;
    assert(quotient * (width * f) == start * f) by (nonlinear_arith)
        requires
            start == quotient * width,
    ;
    assert(start <= parts) by (nonlinear_arith)
        requires
            start * f <= parts * f,
            f > 0,
    ;
    assert(parts < start + width) by (nonlinear_arith)
        requires
            parts * f < start * f + width * f,
            f > 0,
    ;
    assert((parts == start) == (parts * f == start * f)) by (nonlinear_arith)
        requires
            f > 0,
    ;
    // The size of the quotient.
    assert(quotient >= 0x8000_0000_0000_0000) by (nonlinear_arith)
        requires
            m * w == quotient * n + remainder,
            remainder < n,
            m >= 0x10_0000_0000_0000,
            n < 0x20_0000_0000_0000,
            w == 0x1_0000_0000_0000_0000,
    ;
    assert(quotient < 0x2_0000_0000_0000_0000) by (nonlinear_arith)
        requires
            m * w == quotient * n + remainder,
            remainder >= 0,
            m < 0x20_0000_0000_0000,
            n >= 0x10_0000_0000_0000,
            w == 0x1_0000_0000_0000_0000,
    ;
    lemma_pow2_unfold(65);
    if quotient < pow2(64) {
        lemma_bit_length_unique(quotient, 64);
    } else {
        lemma_bit_length_unique(quotient, 65);
    }
}
proof fn lemma_ratio(num: nat, den: nat, quotient: nat, remainder: nat)
    requires
        0 < num <= 1000,
        0 < den <= 1000,
        quotient == (num * 0x1_0000_0000_0000_0000) / den,
        remainder == (num * 0x1_0000_0000_0000_0000) % den,
    ensures
        quotient < pow2(127),
        bit_length(quotient) > 53,
        brackets(quotient, 2110, remainder != 0, num * pow2(unit_exponent()), den),
{
    let unit = pow2(unit_exponent());
    let scale = pow2(guard_exponent());
    let w = pow2(64);
    let size = pow2(2110);
    lemma_pow2_values();
    lemma2_to64();
    lemma2_to64_rest();
    lemma_pow2_pos(2110);
    lemma_pow2_adds(unit_exponent(), guard_exponent());
    lemma_pow2_adds(64, 2110);
    vstd::arithmetic::div_mod::lemma_fundamental_div_mod((num * w) as int, den as int);
    let width = size * den;
    let parts = num * unit * scale;
    assert(parts == (num * w) * size) by (nonlinear_arith)
        requires
            parts == num * unit * scale,
            unit * scale == w * size,
    ;
    assert(parts == quotient * width + remainder * size) by (nonlinear_arith)
        requires
            parts == (num * w) * size,
            num * w == den * quotient + remainder,
            width == size * den,
    ;
    assert(remainder * size < width) by (nonlinear_arith)
        requires
            remainder < den,
            width == size * den,
            size > 0,
    ;
    assert((remainder * size == 0) == (remainder == 0)) by (nonlinear_arith)
        requires
            size > 0,
    ;
    // The quotient has between 55 and 75 bits.
    assert(quotient >= 0x40_0000_0000_0000) by (nonlinear_arith)
        requires
            num * w == den * quotient + remainder,
            remainder < den,
            0 < den <= 1000,
            num > 0,
            w == 0x1_0000_0000_0000_0000,
    ;
    assert(quotient <= 1000 * w) by (nonlinear_arith)
        requires
            num * w == den * quotient + remainder,
            remainder >= 0,
            den > 0,
            num <= 1000,
            w == 0x1_0000_0000_0000_0000,
    ;
    lemma_bit_length_bounds(quotient);
    if bit_length(quotient) <= 53 {
        lemma_pow2_monotone(bit_length(quotient), 53);
    }
}

/// A number that lies `past` units past `significand * 2^exponent` units.
proof fn lemma_bracket(significand: nat, exponent: nat, past: nat, num: nat)
    requires
        num == significand * pow2(exponent) + past,
        past < pow2(exponent),
    ensures
        brackets(significand, exponent + guard_exponent(), past != 0, num, 1),
{
    let scale = pow2(guard_exponent());
    let size = pow2(exponent);
    lemma_pow2_pos(guard_exponent());
    lemma_pow2_adds(exponent, guard_exponent());
    let width = pow2(exponent + guard_exponent()) * 1;
    assert(width == size * scale);
    assert(num * scale == significand * width + past * scale) by (nonlinear_arith)
        requires
            num == significand * size + past,
            width == size * scale,
    ;
    assert(past * scale < width) by (nonlinear_arith)
        requires
            past < size,
            width == size * scale,
            scale > 0,
    ;
    assert((past * scale == 0) == (past == 0)) by (nonlinear_arith)
        requires
            scale > 0,
    ;
}
/// Zero rounds to zero.
proof fn lemma_round_zero(precision: Precision, exponent: nat, num: nat, den: nat)
    requires
        den > 0,
        brackets(0, exponent, false, num, den),
    ensures
        num == 0,
        rounded_magnitude(precision, num, den) == 0,
        0 < pow2(precision.limit()),
{
    lemma_pow2_pos(guard_exponent());
    lemma_pow2_pos(precision.limit());
    let scale = pow2(guard_exponent());
    assert(0 * (pow2(exponent) * den) == 0) by (nonlinear_arith);
    assert(num == 0) by (nonlinear_arith)
        requires
            num * scale == 0,
            scale > 0,
    ;
    let step = pow2(quantum(precision, num, den));
    lemma_pow2_pos(quantum(precision, num, den));
    assert(den * step > 0) by (nonlinear_arith)
        requires
            den > 0,
            step > 0,
    ;
    assert(0nat / (den * step) == 0 && 0nat % (den * step) == 0) by (nonlinear_arith)
        requires
            den * step > 0,
    ;
    assert(0 * step == 0) by (nonlinear_arith);
}

/// When a rounded number reaches `2^limit` units.
proof fn lemma_overflow(steps: nat, step: nat, digits: nat, limit: nat, lowest: nat)
    requires
        0 < digits,
        lowest + digits <= limit,
        steps <= pow2(digits),
        step > lowest ==> steps >= pow2((digits - 1) as nat),
    ensures
        steps * pow2(step) >= pow2(limit) <==> (step > limit - digits || (step == limit - digits
            && steps == pow2(digits))),
{
    let size = pow2(step);
    lemma_pow2_pos(step);
    if step > limit - digits {
        lemma_pow2_adds((digits - 1) as nat, step);
        lemma_pow2_monotone(limit, (digits - 1 + step) as nat);
        let least = pow2((digits - 1) as nat);
        assert(steps * size >= least * size) by (nonlinear_arith)
            requires
                steps >= least,
                size > 0,
        ;
    } else if step == limit - digits {
        lemma_pow2_adds(digits, step);
        let most = pow2(digits);
        if steps < most {
            assert(steps * size < most * size) by (nonlinear_arith)
                requires
                    steps < most,
                    size > 0,
            ;
        }
    } else {
        lemma_pow2_adds(digits, step);
        lemma_pow2_strictly_increases(digits + step, limit);
        let most = pow2(digits);
        assert(steps * size <= most * size) by (nonlinear_arith)
            requires
                steps <= most,
                size > 0,
        ;
    }
}

} // verus!
