use vstd::prelude::*;
use vstd::arithmetic::div_mod::{lemma_fundamental_div_mod, lemma_fundamental_div_mod_converse};
use vstd::arithmetic::power2::{
    lemma2_to64, lemma2_to64_rest, lemma_pow2_adds, lemma_pow2_pos,
    lemma_pow2_strictly_increases, lemma_pow2_unfold, pow2,
};
use crate::float::model::{bit_length, nearest_even, quantum, Precision};

verus! {

/// Intermediate results are written in parts of a unit: there are
/// `2^guard_exponent` of them in a unit.
pub open spec fn guard_exponent() -> nat {
    1100
}

/// `num / den` units lie in the interval of `2^exponent` parts that begins at
/// `significand * 2^exponent` parts; `inexact` tells whether they lie past its
/// beginning.
pub open spec fn brackets(
    significand: nat,
    exponent: nat,
    inexact: bool,
    num: nat,
    den: nat,
) -> bool {
    let width = pow2(exponent) * den;
    let parts = num * pow2(guard_exponent());
    &&& significand * width <= parts
    &&& parts < significand * width + width
    &&& inexact == (parts != significand * width)
}

pub proof fn lemma_pow2_monotone(a: nat, b: nat)
    requires
        a <= b,
    ensures
        pow2(a) <= pow2(b),
{
    if a < b {
        lemma_pow2_strictly_increases(a, b);
    }
}

/// A positive number of `l` binary digits lies from `2^(l - 1)` on and below
/// `2^l`.
pub proof fn lemma_bit_length_bounds(n: nat)
    ensures
        n < pow2(bit_length(n)),
        n > 0 ==> bit_length(n) > 0 && pow2((bit_length(n) - 1) as nat) <= n,
    decreases n,
{
    lemma2_to64();
    if n > 0 {
        lemma_bit_length_bounds(n / 2);
        let l = bit_length(n / 2);
        lemma_pow2_unfold(l + 1);
        if n / 2 > 0 {
            lemma_pow2_unfold(l);
        } else {
            assert(n == 1);
            assert(l == 0);
        }
    }
}

/// The bounds determine the number of binary digits.
pub proof fn lemma_bit_length_unique(n: nat, l: nat)
    requires
        l > 0,
        pow2((l - 1) as nat) <= n < pow2(l),
    ensures
        bit_length(n) == l,
{
    lemma_bit_length_bounds(n);
    lemma_pow2_pos((l - 1) as nat);
    let b = bit_length(n);
    if b < l {
        lemma_pow2_monotone(b, (l - 1) as nat);
    }
    if l < b {
        lemma_pow2_monotone(l, (b - 1) as nat);
    }
}

proof fn lemma_scale(a: int, b: int, c: int)
    by (nonlinear_arith)
    requires
        c > 0,
    ensures
        a < b <==> a * c < b * c,
        a <= b <==> a * c <= b * c,
        a == b <==> a * c == b * c,
{
}

/// The spacing of numbers as large as a bracketed one follows from the
/// significand and the exponent.
proof fn lemma_quantum(
    precision: Precision,
    significand: nat,
    exponent: nat,
    inexact: bool,
    num: nat,
    den: nat,
)
    requires
        brackets(significand, exponent, inexact, num, den),
        significand > 0,
        den > 0,
    ensures
        ({
            let spare = bit_length(significand) + exponent - guard_exponent() - precision.digits();
            quantum(precision, num, den) == if spare < precision.lowest() {
                precision.lowest() as int
            } else {
                spare
            }
        }),
{
    let l = bit_length(significand);
    let guard = guard_exponent();
    let scale = pow2(guard);
    let parts = num * scale;
    lemma_bit_length_bounds(significand);
    lemma_pow2_pos(guard);
    lemma_pow2_pos(exponent);
    let width = pow2(exponent) * den;
    let low = pow2((l - 1) as nat);
    let high = pow2(l);
    // low * width <= parts < high * width
    assert(low * width <= significand * width) by (nonlinear_arith)
        requires
            low <= significand,
            width >= 0,
    ;
    assert(significand * width + width <= high * width) by (nonlinear_arith)
        requires
            significand + 1 <= high,
            width >= 0,
    ;
    lemma_pow2_adds(l, exponent);
    lemma_pow2_adds((l - 1) as nat, exponent);
    let top = pow2(l + exponent);
    let bottom = pow2((l - 1 + exponent) as nat);
    assert(high * width == top * den) by (nonlinear_arith)
        requires
            width == pow2(exponent) * den,
            top == high * pow2(exponent),
    ;
    assert(low * width == bottom * den) by (nonlinear_arith)
        requires
            width == pow2(exponent) * den,
            bottom == low * pow2(exponent),
    ;
    if l + exponent > guard {
        let t = (l + exponent - guard) as nat;
        lemma_pow2_adds(t, guard);
        lemma_pow2_adds((t - 1) as nat, guard);
        let a = pow2((t - 1) as nat);
        let b = pow2(t);
        assert(num < b * den) by {
            assert(top * den == b * den * scale) by (nonlinear_arith)
                requires
                    top == b * scale,
            ;
            lemma_scale(num as int, (b * den) as int, scale as int);
        }
        assert(a * den <= num) by {
            assert(bottom * den == a * den * scale) by (nonlinear_arith)
                requires
                    bottom == a * scale,
            ;
            lemma_scale((a * den) as int, num as int, scale as int);
        }
        let q = num / den;
        lemma_fundamental_div_mod(num as int, den as int);
        assert(a <= q) by (nonlinear_arith)
            requires
                a * den <= num,
                num == den * q + num % den,
                num % den < den,
                den > 0,
        ;
        assert(q < b) by (nonlinear_arith)
            requires
                num < b * den,
                num == den * q + num % den,
                0 <= num % den,
                den > 0,
        ;
        lemma_bit_length_unique(q, t);
    } else {
        lemma_pow2_monotone(l + exponent, guard);
        assert(top * den <= scale * den) by (nonlinear_arith)
            requires
                top <= scale,
                den > 0,
        ;
        assert(num < den) by {
            assert(scale * den == den * scale) by (nonlinear_arith);
            lemma_scale(num as int, den as int, scale as int);
        }
        assert(num / den == 0) by {
            lemma_fundamental_div_mod_converse(num as int, den as int, 0, num as int);
        }
        assert(bit_length(0) == 0);
    }
}

/// Where a step of the format spans `2^shift` bracket widths, the low `shift`
/// bits of the significand and the inexact flag decide which way to round.
proof fn lemma_round_down_bits(
    significand: nat,
    exponent: nat,
    inexact: bool,
    num: nat,
    den: nat,
    step: nat,
    shift: nat,
)
    requires
        brackets(significand, exponent, inexact, num, den),
        den > 0,
        shift > 0,
        step + guard_exponent() == exponent + shift,
    ensures
        ({
            let high = significand / pow2(shift);
            let low = significand % pow2(shift);
            let half = pow2((shift - 1) as nat);
            nearest_even(num, den * pow2(step)) == if low > half || (low == half && (inexact || high
                % 2 == 1)) {
                high + 1
            } else {
                high
            }
        }),
{
    let span = pow2(shift);
    let half = pow2((shift - 1) as nat);
    let scale = pow2(guard_exponent());
    let width = pow2(exponent) * den;
    let parts = num * scale;
    let coarse = den * pow2(step);
    let high = significand / span;
    let low = significand % span;
    let past = (parts - significand * width) as nat;
    lemma_pow2_pos(shift);
    lemma_pow2_pos((shift - 1) as nat);
    lemma_pow2_pos(guard_exponent());
    lemma_pow2_pos(exponent);
    lemma_pow2_pos(step);
    lemma_pow2_unfold(shift);
    lemma_pow2_adds(step, guard_exponent());
    lemma_pow2_adds(exponent, shift);
    assert(span == 2 * half);
    assert(width > 0) by (nonlinear_arith)
        requires
            width == pow2(exponent) * den,
            pow2(exponent) > 0,
            den > 0,
    ;
    assert(coarse > 0) by (nonlinear_arith)
        requires
            coarse == den * pow2(step),
            pow2(step) > 0,
            den > 0,
    ;
    assert(coarse * scale == width * span) by (nonlinear_arith)
        requires
            coarse == den * pow2(step),
            width == pow2(exponent) * den,
            pow2(step) * scale == pow2(exponent) * span,
    ;
    lemma_fundamental_div_mod(significand as int, span as int);
    let rest = low * width + past;
    assert(parts == high * (coarse * scale) + rest) by (nonlinear_arith)
        requires
            parts == significand * width + past,
            significand == span * high + low,
            rest == low * width + past,
            coarse * scale == width * span,
    ;
    assert(rest < coarse * scale) by (nonlinear_arith)
        requires
            rest == low * width + past,
            past < width,
            low + 1 <= span,
            coarse * scale == width * span,
    ;
    // Dividing by the coarse step gives the high bits.
    let quotient = num / coarse;
    let remainder = num % coarse;
    lemma_fundamental_div_mod(num as int, coarse as int);
    assert(parts == quotient * (coarse * scale) + remainder * scale) by (nonlinear_arith)
        requires
            parts == num * scale,
            num == coarse * quotient + remainder,
    ;
    assert(remainder * scale < coarse * scale) by (nonlinear_arith)
        requires
            remainder < coarse,
            scale > 0,
    ;
    assert(0 <= remainder * scale) by (nonlinear_arith)
        requires
            0 <= remainder,
            scale > 0,
    ;
    lemma_fundamental_div_mod_converse(
        parts as int,
        (coarse * scale) as int,
        high as int,
        rest as int,
    );
    lemma_fundamental_div_mod_converse(
        parts as int,
        (coarse * scale) as int,
        quotient as int,
        (remainder * scale) as int,
    );
    assert(quotient == high);
    assert(remainder * scale == rest);
    // Twice the remainder against the coarse step is the low bits against half.
    lemma_scale((2 * remainder) as int, coarse as int, scale as int);
    assert((2 * remainder) * scale == 2 * rest) by (nonlinear_arith)
        requires
            remainder * scale == rest,
    ;
    assert(coarse * scale == 2 * (half * width)) by (nonlinear_arith)
        requires
            coarse * scale == width * span,
            span == 2 * half,
    ;
    if low < half {
        assert(rest < half * width) by (nonlinear_arith)
            requires
                rest == low * width + past,
                past < width,
                low + 1 <= half,
        ;
    } else if low > half {
        assert(rest > half * width) by (nonlinear_arith)
            requires
                rest == low * width + past,
                past >= 0,
                low >= half + 1,
                width > 0,
        ;
    } else {
        assert(rest == half * width + past);
    }
}

/// Where the bracket is no narrower than a step, an exact significand is a
/// whole number of steps.
proof fn lemma_round_exact_bits(
    significand: nat,
    exponent: nat,
    num: nat,
    den: nat,
    step: nat,
    shift: nat,
)
    requires
        brackets(significand, exponent, false, num, den),
        den > 0,
        step + guard_exponent() + shift == exponent,
    ensures
        nearest_even(num, den * pow2(step)) == significand * pow2(shift),
{
    let span = pow2(shift);
    let scale = pow2(guard_exponent());
    let width = pow2(exponent) * den;
    let coarse = den * pow2(step);
    lemma_pow2_pos(shift);
    lemma_pow2_pos(guard_exponent());
    lemma_pow2_pos(step);
    lemma_pow2_adds(step, guard_exponent());
    lemma_pow2_adds(step + guard_exponent(), shift);
    assert(coarse > 0) by (nonlinear_arith)
        requires
            coarse == den * pow2(step),
            pow2(step) > 0,
            den > 0,
    ;
    let whole = significand * span;
    assert(num * scale == (coarse * whole) * scale) by (nonlinear_arith)
        requires
            num * scale == significand * width,
            width == pow2(exponent) * den,
            pow2(exponent) == (pow2(step) * scale) * span,
            coarse == den * pow2(step),
            whole == significand * span,
    ;
    lemma_scale(num as int, (coarse * whole) as int, scale as int);
    assert(coarse * whole == whole * coarse) by (nonlinear_arith);
    lemma_fundamental_div_mod_converse(num as int, coarse as int, whole as int, 0);
}

pub proof fn lemma_pow2_values()
    ensures
        pow2(53) == 0x20_0000_0000_0000,
        pow2(64) == 0x1_0000_0000_0000_0000,
        pow2(127) == 0x8000_0000_0000_0000_0000_0000_0000_0000,
        pow2(128) == 0x1_0000_0000_0000_0000_0000_0000_0000_0000,
{
    lemma2_to64();
    lemma2_to64_rest();
    lemma_pow2_adds(63, 64);
    lemma_pow2_adds(64, 64);
}

/// `2^n`.
pub(crate) fn power_of_two(n: u32) -> (r: u128)
    requires
        n < 128,
    ensures
        r == pow2(n as nat),
{
    let mut i: u32 = 0;
    let mut r: u128 = 1;
    proof {
        lemma2_to64();
    }
    while i < n
        invariant
            i <= n < 128,
            r == pow2(i as nat),
        decreases n - i,
    {
        proof {
            lemma_pow2_values();
            lemma_pow2_unfold((i + 1) as nat);
            lemma_pow2_monotone((i + 1) as nat, 127);
        }
        r = r * 2;
        i = i + 1;
    }
    r
}

/// The number of binary digits of `n`.
fn digits_of(n: u128) -> (l: u32)
    ensures
        l == bit_length(n as nat),
        l <= 128,
{
    let mut rest: u128 = n;
    let mut l: u32 = 0;
    proof {
        lemma2_to64();
        lemma_pow2_values();
    }
    while rest > 0
        invariant
            l + bit_length(rest as nat) == bit_length(n as nat),
            rest < pow2((128 - l) as nat),
            l <= 128,
        decreases rest,
    {
        proof {
            if l == 128 {
                lemma2_to64();
            }
            lemma_pow2_unfold((128 - l) as nat);
        }
        rest = rest / 2;
        l = l + 1;
    }
    l
}

/// Rounds a bracketed number to the format: the result is the number of steps
/// and the exponent of the step.
pub(crate) fn round_significand(
    precision: Precision,
    significand: u128,
    exponent: u32,
    inexact: bool,
    Ghost(num): Ghost<nat>,
    Ghost(den): Ghost<nat>,
) -> (r: (u64, u32))
    requires
        den > 0,
        significand > 0,
        significand < pow2(127),
        exponent <= 8000,
        brackets(significand as nat, exponent as nat, inexact, num, den),
        inexact ==> bit_length(significand as nat) > precision.digits(),
    ensures
        r.1 == quantum(precision, num, den),
        r.0 == nearest_even(num, den * pow2(r.1 as nat)),
        r.0 <= pow2(precision.digits()),
        r.1 > precision.lowest() ==> r.0 >= pow2((precision.digits() - 1) as nat),
        r.1 <= 10000,
{
    let digits: u32 = match precision {
        Precision::Single => 24,
        Precision::Double => 53,
    };
    let lowest: u32 = match precision {
        Precision::Single => 925,
        Precision::Double => 0,
    };
    let length = digits_of(significand);
    let ghost m = significand as nat;
    let ghost e = exponent as nat;
    proof {
        lemma_quantum(precision, m, e, inexact, num, den);
        lemma_bit_length_bounds(m);
        lemma_pow2_values();
        if length > 127 {
            lemma_pow2_monotone(127, (length - 1) as nat);
        }
        lemma_pow2_monotone(digits as nat, 53);
    }
    // The exponent of the step, in parts of a unit.
    let step: u32 = if length + exponent < lowest + digits + 1100 {
        lowest
    } else {
        length + exponent - digits - 1100
    };
    assert(step == quantum(precision, num, den));
    if step + 1100 > exponent {
        let shift: u32 = step + 1100 - exponent;
        proof {
            lemma_round_down_bits(m, e, inexact, num, den, step as nat, shift as nat);
        }
        if shift > 127 {
            proof {
                lemma_pow2_monotone(127, (shift - 1) as nat);
                lemma_pow2_monotone(127, shift as nat);
                lemma_fundamental_div_mod_converse(
                    m as int,
                    pow2(shift as nat) as int,
                    0,
                    m as int,
                );
                if step > lowest {
                    assert(shift == length - digits);
                }
            }
            (0, step)
        } else {
            let span = power_of_two(shift);
            let half = power_of_two(shift - 1);
            proof {
                lemma_pow2_pos(shift as nat);
            }
            let high: u128 = significand / span;
            let low: u128 = significand % span;
            proof {
                lemma_high_bits(m, length as nat, shift as nat, digits as nat);
                if step > lowest {
                    assert(shift == length - digits);
                }
            }
            let up: bool = low > half || (low == half && (inexact || high % 2 == 1));
            let steps: u64 = if up {
                (high + 1) as u64
            } else {
                high as u64
            };
            (steps, step)
        }
    } else {
        let shift: u32 = exponent - step - 1100;
        assert(!inexact) by {
            if inexact {
                assert(length > digits);
            }
        }
        proof {
            lemma_round_exact_bits(m, e, num, den, step as nat, shift as nat);
            lemma_low_bits(m, length as nat, shift as nat, digits as nat);
            if step > lowest {
                assert(shift == digits - length);
            }
            lemma_pow2_adds((length - 1) as nat, shift as nat);
        }
        let span = power_of_two(shift);
        proof {
            assert((m * span) == significand * span);
        }
        let steps: u128 = significand * span;
        (steps as u64, step)
    }
}

/// Dropping `shift` of `length` bits leaves a number of `length - shift` bits.
proof fn lemma_high_bits(m: nat, length: nat, shift: nat, digits: nat)
    requires
        length > 0,
        pow2((length - 1) as nat) <= m < pow2(length),
        length <= digits + shift,
        digits > 0,
    ensures
        m / pow2(shift) < pow2(digits),
        length == digits + shift ==> m / pow2(shift) >= pow2((digits - 1) as nat),
{
    let span = pow2(shift);
    lemma_pow2_pos(shift);
    lemma_pow2_adds(digits, shift);
    lemma_pow2_monotone(length, digits + shift);
    lemma_pow2_adds((digits - 1) as nat, shift);
    lemma_fundamental_div_mod(m as int, span as int);
    let high = m / span;
    let top = pow2(digits);
    assert(high < top) by (nonlinear_arith)
        requires
            m < top * span,
            m == span * high + m % span,
            m % span >= 0,
            span > 0,
    ;
    if length == digits + shift {
        let bottom = pow2((digits - 1) as nat);
        assert(high >= bottom) by (nonlinear_arith)
            requires
                bottom * span <= m,
                m == span * high + m % span,
                m % span < span,
                span > 0,
        ;
    }
}

/// Appending `shift` zero bits to a number of `length` bits.
proof fn lemma_low_bits(m: nat, length: nat, shift: nat, digits: nat)
    requires
        length > 0,
        pow2((length - 1) as nat) <= m < pow2(length),
        length + shift <= digits,
    ensures
        m * pow2(shift) < pow2(digits),
        m * pow2(shift) >= pow2((length - 1 + shift) as nat),
{
    let span = pow2(shift);
    lemma_pow2_pos(shift);
    lemma_pow2_adds(length, shift);
    lemma_pow2_adds((length - 1) as nat, shift);
    lemma_pow2_monotone(length + shift, digits);
    let top = pow2(length);
    let bottom = pow2((length - 1) as nat);
    assert(m * span < top * span) by (nonlinear_arith)
        requires
            m < top,
            span > 0,
    ;
    assert(bottom * span <= m * span) by (nonlinear_arith)
        requires
            bottom <= m,
            span > 0,
    ;
}

} // verus!
