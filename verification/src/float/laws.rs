use vstd::prelude::*;
use vstd::arithmetic::div_mod::lemma_fundamental_div_mod;
use vstd::arithmetic::power2::{
    lemma2_to64, lemma2_to64_rest, lemma_pow2_adds, lemma_pow2_pos, lemma_pow2_unfold, pow2,
};
use crate::float::model::{
    bit_length, fraction, nearest_even, quantum, rounded, rounded_magnitude, unit_exponent, Datum,
    Precision,
};
use crate::float::rounding::{
    lemma_bit_length_bounds, lemma_bit_length_unique, lemma_pow2_monotone,
};

verus! {

/// Rounding moves a number by at most half a step.
pub proof fn lemma_rounding_error(precision: Precision, num: nat)
    ensures
        ({
            let step = pow2(quantum(precision, num, 1));
            let r = rounded_magnitude(precision, num, 1);
            &&& 2 * r <= 2 * num + step
            &&& 2 * num <= 2 * r + step
        }),
{
    let k = quantum(precision, num, 1);
    let step = pow2(k);
    lemma_pow2_pos(k);
    assert(1 * step == step);
    lemma_fundamental_div_mod(num as int, step as int);
    let q = num / step;
    let m = num % step;
    assert(q * step + m == num) by (nonlinear_arith)
        requires
            num == step * q + m,
    ;
    assert((q + 1) * step == q * step + step) by (nonlinear_arith);
}

/// A whole number of units that a step divides rounds to itself.
pub proof fn lemma_multiple_is_exact(precision: Precision, num: nat, steps: nat)
    requires
        num == steps * pow2(quantum(precision, num, 1)),
    ensures
        rounded_magnitude(precision, num, 1) == num,
{
    let k = quantum(precision, num, 1);
    let step = pow2(k);
    lemma_pow2_pos(k);
    assert(1 * step == step);
    vstd::arithmetic::div_mod::lemma_fundamental_div_mod_converse(
        num as int,
        step as int,
        steps as int,
        0,
    );
}

/// A positive whole number of units does not round to zero.
pub proof fn lemma_positive_stays_positive(num: nat)
    requires
        num > 0,
    ensures
        rounded_magnitude(Precision::Double, num, 1) > 0,
{
    let k = quantum(Precision::Double, num, 1);
    assert(num / 1 == num) by (nonlinear_arith);
    lemma_pow2_pos(k);
    lemma2_to64();
    if k == 0 {
        assert(num * pow2(0) == num) by (nonlinear_arith)
            requires
                pow2(0) == 1,
        ;
        lemma_multiple_is_exact(Precision::Double, num, num);
    } else {
        lemma_bit_length_bounds(num);
        lemma_pow2_monotone(k, (bit_length(num) - 1) as nat);
        lemma_rounding_error(Precision::Double, num);
    }
}

/// Less than half a step above one rounds to one at most.
pub proof fn lemma_rounds_to_at_most_one(num: nat)
    requires
        num < pow2(1074) + pow2(1021),
    ensures
        rounded_magnitude(Precision::Double, num, 1) <= pow2(1074),
{
    let k = quantum(Precision::Double, num, 1);
    let step = pow2(k);
    let top = pow2(1074);
    assert(num / 1 == num) by (nonlinear_arith);
    lemma_pow2_pos(k);
    lemma_pow2_pos(1021);
    lemma_bit_length_bounds(num);
    lemma_pow2_monotone(1021, 1074);
    lemma_pow2_unfold(1022);
    lemma_pow2_unfold(1075);
    lemma_fundamental_div_mod(num as int, step as int);
    assert(1 * step == step);
    let q = num / step;
    let m = num % step;
    if num < top {
        if bit_length(num) > 1074 {
            lemma_pow2_monotone(1074, (bit_length(num) - 1) as nat);
        }
        let count = pow2((1074 - k) as nat);
        lemma_pow2_adds((1074 - k) as nat, k);
        assert(q + 1 <= count) by (nonlinear_arith)
            requires
                num == step * q + m,
                m >= 0,
                num < count * step,
                step > 0,
        ;
        let n = nearest_even(num, step);
        assert(n * step <= count * step) by (nonlinear_arith)
            requires
                n <= count,
                step > 0,
        ;
    } else {
        lemma_bit_length_unique(num, 1075);
        assert(k == 1022);
        lemma2_to64_rest();
        lemma_pow2_adds(52, 1022);
        assert((num - top) < step);
        vstd::arithmetic::div_mod::lemma_fundamental_div_mod_converse(
            num as int,
            step as int,
            pow2(52) as int,
            num - top,
        );
    }
}

/// The difference of two numbers between zero and one is a positive number of
/// at most one, and added to the smaller of the two it stays at most one.
pub proof fn lemma_span_within_one(low: nat, high: nat)
    requires
        low < high <= pow2(1074),
    ensures
        ({
            let span = rounded_magnitude(Precision::Double, (high - low) as nat, 1);
            &&& 0 < span <= pow2(1074)
            &&& rounded_magnitude(Precision::Double, low + span, 1) <= pow2(1074)
        }),
{
    let d = (high - low) as nat;
    let top = pow2(1074);
    let span = rounded_magnitude(Precision::Double, d, 1);
    lemma_pow2_pos(1021);
    lemma_positive_stays_positive(d);
    lemma_rounds_to_at_most_one(d);
    assert(d / 1 == d) by (nonlinear_arith);
    if d < top {
        lemma_bit_length_bounds(d);
        if bit_length(d) > 1074 {
            lemma_pow2_monotone(1074, (bit_length(d) - 1) as nat);
        }
        let k = quantum(Precision::Double, d, 1);
        lemma_pow2_monotone(k, 1021);
        lemma_rounding_error(Precision::Double, d);
        lemma_rounds_to_at_most_one(low + span);
    } else {
        assert(low == 0);
        lemma_rounds_to_at_most_one(span);
    }
}

/// A whole number of steps of the size of `num / den` units stands beside a
/// number of the format: it is that number where the format has it on its grid,
/// and else the least number that has steps of that size.
spec fn grid_count(precision: Precision, num: nat, den: nat, steps: nat, exponent: nat) -> nat {
    let k = quantum(precision, num, den);
    if k <= exponent {
        steps * pow2((exponent - k) as nat)
    } else {
        pow2((precision.digits() - 1) as nat)
    }
}

/// How a number of the format lies to the grid of the size of `num / den`
/// units: on it, or below the least number with that grid, which `num / den`
/// units reach.
proof fn lemma_grid(precision: Precision, num: nat, den: nat, steps: nat, exponent: nat)
    requires
        den > 0,
        steps <= pow2(precision.digits()),
        exponent >= precision.lowest(),
    ensures
        ({
            let k = quantum(precision, num, den);
            let step = pow2(k);
            let coarse = den * step;
            let count = grid_count(precision, num, den, steps, exponent);
            let bound = steps * pow2(exponent);
            &&& step > 0
            &&& coarse > 0
            &&& num == coarse * (num / coarse) + num % coarse
            &&& 0 <= num % coarse < coarse
            &&& count * coarse == count * step * den
            &&& k <= exponent ==> count * step == bound
            &&& k > exponent ==> bound <= count * step && count * step * den <= num
        }),
{
    let k = quantum(precision, num, den);
    let step = pow2(k);
    let coarse = den * step;
    let count = grid_count(precision, num, den, steps, exponent);
    let bound = steps * pow2(exponent);
    let digits = precision.digits();
    lemma_pow2_pos(k);
    assert(coarse > 0) by (nonlinear_arith)
        requires
            coarse == den * step,
            den > 0,
            step > 0,
    ;
    lemma_fundamental_div_mod(num as int, coarse as int);
    assert(count * coarse == count * step * den) by (nonlinear_arith)
        requires
            coarse == den * step,
    ;
    if k <= exponent {
        let factor = pow2((exponent - k) as nat);
        lemma_pow2_adds((exponent - k) as nat, k);
        assert(count * step == bound) by (nonlinear_arith)
            requires
                count == steps * factor,
                pow2(exponent) == factor * step,
                bound == steps * pow2(exponent),
        ;
    } else {
        lemma_quantum_is_reached(precision, num, den);
        lemma_pow2_adds((digits - 1) as nat, k);
        lemma_pow2_adds(digits, exponent);
        lemma_pow2_monotone(digits + exponent, (digits - 1 + k) as nat);
        assert(bound <= pow2(digits) * pow2(exponent)) by (nonlinear_arith)
            requires
                bound == steps * pow2(exponent),
                steps <= pow2(digits),
        ;
    }
}

/// Rounding does not carry a number up past a number of the format.
pub proof fn law_rounding_keeps_upper_bounds(
    precision: Precision,
    num: nat,
    den: nat,
    steps: nat,
    exponent: nat,
)
    requires
        den > 0,
        steps <= pow2(precision.digits()),
        exponent >= precision.lowest(),
        num <= steps * pow2(exponent) * den,
    ensures
        rounded_magnitude(precision, num, den) <= steps * pow2(exponent),
{
    lemma_grid(precision, num, den, steps, exponent);
    let step = pow2(quantum(precision, num, den));
    let coarse = den * step;
    let count = grid_count(precision, num, den, steps, exponent);
    let bound = steps * pow2(exponent);
    let q = num / coarse;
    let m = num % coarse;
    let n = nearest_even(num, coarse);
    let reached = count * step;
    assert(bound == reached) by {
        if bound < reached {
            assert(bound * den < reached * den) by (nonlinear_arith)
                requires
                    bound < reached,
                    den > 0,
            ;
        }
    }
    if q >= count {
        assert(q == count && m == 0) by (nonlinear_arith)
            requires
                num == coarse * q + m,
                num <= count * coarse,
                q >= count,
                m >= 0,
                coarse > 0,
        ;
    }
    assert(n * step <= count * step) by (nonlinear_arith)
        requires
            n <= count,
            step > 0,
    ;
}

/// Rounding does not carry a number down past a number of the format.
pub proof fn law_rounding_keeps_lower_bounds(
    precision: Precision,
    num: nat,
    den: nat,
    steps: nat,
    exponent: nat,
)
    requires
        den > 0,
        steps <= pow2(precision.digits()),
        exponent >= precision.lowest(),
        steps * pow2(exponent) * den <= num,
    ensures
        steps * pow2(exponent) <= rounded_magnitude(precision, num, den),
{
    lemma_grid(precision, num, den, steps, exponent);
    let step = pow2(quantum(precision, num, den));
    let coarse = den * step;
    let count = grid_count(precision, num, den, steps, exponent);
    let q = num / coarse;
    let m = num % coarse;
    let n = nearest_even(num, coarse);
    assert(count <= q) by (nonlinear_arith)
        requires
            count * coarse <= num,
            num == coarse * q + m,
            m < coarse,
            coarse > 0,
    ;
    assert(count * step <= n * step) by (nonlinear_arith)
        requires
            count <= n,
            step > 0,
    ;
}

/// What is a number of the format already is not changed by rounding.
pub proof fn law_numbers_of_the_format_are_exact(
    precision: Precision,
    negative: bool,
    den: nat,
    steps: nat,
    exponent: nat,
)
    requires
        den > 0,
        steps <= pow2(precision.digits()),
        exponent >= precision.lowest(),
        steps * pow2(exponent) < pow2(precision.limit()),
    ensures
        rounded(precision, negative, steps * pow2(exponent) * den, den) == (Datum::Finite {
            negative,
            magnitude: steps * pow2(exponent),
        }),
{
    let num = steps * pow2(exponent) * den;
    law_rounding_keeps_upper_bounds(precision, num, den, steps, exponent);
    law_rounding_keeps_lower_bounds(precision, num, den, steps, exponent);
}

/// Where the spacing is not the smallest one, a number has all the digits that
/// the format has room for.
proof fn lemma_quantum_is_reached(precision: Precision, num: nat, den: nat)
    requires
        den > 0,
        quantum(precision, num, den) > precision.lowest(),
    ensures
        pow2((precision.digits() - 1) as nat) * pow2(quantum(precision, num, den)) * den <= num,
{
    let k = quantum(precision, num, den);
    let digits = precision.digits();
    let q = num / den;
    lemma_bit_length_bounds(q);
    assert(bit_length(q) == k + digits);
    lemma_pow2_adds((digits - 1) as nat, k);
    let least = pow2((digits - 1 + k) as nat);
    lemma_fundamental_div_mod(num as int, den as int);
    assert(least * den <= num) by (nonlinear_arith)
        requires
            least <= q,
            num == den * q + num % den,
            num % den >= 0,
    ;
}

/// How far two whole numbers lie apart.
pub open spec fn distance(a: int, b: int) -> int {
    if a < b {
        b - a
    } else {
        a - b
    }
}

/// No multiple of `coarse` is nearer to `num` than the one that is rounded to.
proof fn lemma_nearest_multiple(num: nat, coarse: nat, count: nat)
    requires
        coarse > 0,
    ensures
        distance((nearest_even(num, coarse) * coarse) as int, num as int) <= distance(
            (count * coarse) as int,
            num as int,
        ),
{
    lemma_fundamental_div_mod(num as int, coarse as int);
    let q = num / coarse;
    let m = num % coarse;
    assert(q * coarse + m == num) by (nonlinear_arith)
        requires
            num == coarse * q + m,
    ;
    assert((q + 1) * coarse == q * coarse + coarse) by (nonlinear_arith);
    if count <= q {
        assert(count * coarse <= q * coarse) by (nonlinear_arith)
            requires
                count <= q,
        ;
    } else {
        assert((q + 1) * coarse <= count * coarse) by (nonlinear_arith)
            requires
                q + 1 <= count,
        ;
    }
}

/// No number of the format is nearer to `num / den` units than the number that
/// is rounded to.
pub proof fn law_rounding_goes_to_a_nearest_number(
    precision: Precision,
    num: nat,
    den: nat,
    steps: nat,
    exponent: nat,
)
    requires
        den > 0,
        steps <= pow2(precision.digits()),
        exponent >= precision.lowest(),
    ensures
        distance((rounded_magnitude(precision, num, den) * den) as int, num as int) <= distance(
            (steps * pow2(exponent) * den) as int,
            num as int,
        ),
{
    lemma_grid(precision, num, den, steps, exponent);
    let step = pow2(quantum(precision, num, den));
    let coarse = den * step;
    let count = grid_count(precision, num, den, steps, exponent);
    let bound = steps * pow2(exponent);
    let n = nearest_even(num, coarse);
    lemma_nearest_multiple(num, coarse, count);
    assert(n * step * den == n * coarse) by (nonlinear_arith)
        requires
            coarse == den * step,
    ;
    if bound <= count * step {
        assert(bound * den <= count * step * den) by (nonlinear_arith)
            requires
                bound <= count * step,
        ;
    }
}

/// A sum is a number of the format that is nearest to the sum of the two
/// numbers, and so is a difference to theirs.
pub proof fn law_sums_and_differences_are_nearest(
    a: Datum,
    b: Datum,
    precision: Precision,
    negative: bool,
    steps: nat,
    exponent: nat,
)
    requires
        a.is_finite(),
        b.is_finite(),
        steps <= pow2(precision.digits()),
        exponent >= precision.lowest(),
    ensures
        ({
            let size = (steps * pow2(exponent)) as int;
            let other = if negative {
                -size
            } else {
                size
            };
            let (sum, difference) = (a.plus(b, precision), a.minus(b, precision));
            &&& sum.is_finite() ==> distance(sum.units(), a.units() + b.units()) <= distance(
                other,
                a.units() + b.units(),
            )
            &&& difference.is_finite() ==> distance(difference.units(), a.units() - b.units())
                <= distance(other, a.units() - b.units())
        }),
{
    lemma_sum_is_nearest(a, b, precision, negative, steps, exponent);
    lemma_sum_is_nearest(a, b.negated(), precision, negative, steps, exponent);
}

/// A sum is nearest to the sum of the two numbers.
proof fn lemma_sum_is_nearest(
    a: Datum,
    b: Datum,
    precision: Precision,
    negative: bool,
    steps: nat,
    exponent: nat,
)
    requires
        a.is_finite(),
        b.is_finite(),
        steps <= pow2(precision.digits()),
        exponent >= precision.lowest(),
    ensures
        ({
            let size = (steps * pow2(exponent)) as int;
            let other = if negative {
                -size
            } else {
                size
            };
            let sum = a.plus(b, precision);
            sum.is_finite() ==> distance(sum.units(), a.units() + b.units()) <= distance(
                other,
                a.units() + b.units(),
            )
        }),
{
    let exact = a.units() + b.units();
    let num = distance(exact, 0) as nat;
    let size = steps * pow2(exponent);
    assert(size * 1 == size);
    law_rounding_goes_to_a_nearest_number(precision, num, 1, steps, exponent);
    lemma_pow2_pos(precision.digits());
    let none = 0 * pow2(exponent);
    assert(none * 1 == 0) by (nonlinear_arith)
        requires
            none == 0 * pow2(exponent),
    ;
    law_rounding_goes_to_a_nearest_number(precision, num, 1, 0, exponent);
    let r = rounded_magnitude(precision, num, 1);
    assert(r * 1 == r);
}

/// A product is a number of the format that is nearest to the product of the two
/// numbers, negative where exactly one of them is.
pub proof fn law_products_are_nearest(
    a: Datum,
    b: Datum,
    precision: Precision,
    steps: nat,
    exponent: nat,
)
    requires
        a.is_finite(),
        b.is_finite(),
        a.times(b, precision).is_finite(),
        steps <= pow2(precision.digits()),
        exponent >= precision.lowest(),
    ensures
        ({
            let product = a.times(b, precision);
            let unit = pow2(unit_exponent());
            let exact = (a->magnitude * b->magnitude) as int;
            &&& product->Finite_negative <==> a->Finite_negative != b->Finite_negative
            &&& distance((product->magnitude * unit) as int, exact) <= distance(
                (steps * pow2(exponent) * unit) as int,
                exact,
            )
        }),
{
    lemma_pow2_pos(unit_exponent());
    law_rounding_goes_to_a_nearest_number(
        precision,
        a->magnitude * b->magnitude,
        pow2(unit_exponent()),
        steps,
        exponent,
    );
}

/// A quotient is a number of the format that is nearest to the quotient of the
/// two numbers, negative where exactly one of them is.
pub proof fn law_quotients_are_nearest(
    a: Datum,
    b: Datum,
    precision: Precision,
    steps: nat,
    exponent: nat,
)
    requires
        a.is_finite(),
        b.is_finite(),
        b.units() != 0,
        a.over(b, precision).is_finite(),
        steps <= pow2(precision.digits()),
        exponent >= precision.lowest(),
    ensures
        ({
            let quotient = a.over(b, precision);
            let exact = (a->magnitude * pow2(unit_exponent())) as int;
            &&& quotient->Finite_negative <==> a->Finite_negative != b->Finite_negative
            &&& distance((quotient->magnitude * b->magnitude) as int, exact) <= distance(
                (steps * pow2(exponent) * b->magnitude) as int,
                exact,
            )
        }),
{
    law_rounding_goes_to_a_nearest_number(
        precision,
        a->magnitude * pow2(unit_exponent()),
        b->magnitude,
        steps,
        exponent,
    );
}

/// The number for a fraction is one of the format that is nearest to it.
pub proof fn law_fractions_are_nearest(
    precision: Precision,
    num: nat,
    den: nat,
    steps: nat,
    exponent: nat,
)
    requires
        den > 0,
        fraction(precision, num, den).is_finite(),
        steps <= pow2(precision.digits()),
        exponent >= precision.lowest(),
    ensures
        ({
            let r = fraction(precision, num, den);
            let exact = (num * pow2(unit_exponent())) as int;
            &&& !r->Finite_negative
            &&& distance((r->magnitude * den) as int, exact) <= distance(
                (steps * pow2(exponent) * den) as int,
                exact,
            )
        }),
{
    law_rounding_goes_to_a_nearest_number(
        precision,
        num * pow2(unit_exponent()),
        den,
        steps,
        exponent,
    );
}

/// Of two numbers exactly one is less than the other, or they are the same; what
/// is not a number is neither less nor more than anything, nor the same.
pub proof fn law_numbers_are_ordered(a: Datum, b: Datum, c: Datum)
    ensures
        !(a.less(b) && b.less(a)),
        !(a.less(b) && a.same(b)),
        !(a is Nan) && !(b is Nan) ==> a.less(b) || b.less(a) || a.same(b),
        a is Nan || b is Nan ==> !a.less(b) && !a.same(b) && !a.at_most(b),
        a.at_most(b) <==> a.less(b) || a.same(b),
        a.less(b) && b.less(c) ==> a.less(c),
        a.same(b) && b.less(c) ==> a.less(c),
        a.is_finite() && b.is_finite() ==> (a.less(b) <==> a.units() < b.units()),
        a.less(b) <==> b.negated().less(a.negated()),
{
}

/// The smaller and the larger of two numbers are one of the two, with the other
/// not below or above; where only one is a number, it is that one.
pub proof fn law_smaller_and_larger_are_one_of_the_two(a: Datum, b: Datum)
    ensures
        a.smaller(b) == a || a.smaller(b) == b,
        a.larger(b) == a || a.larger(b) == b,
        !a.less(a.smaller(b)) && !b.less(a.smaller(b)),
        !a.larger(b).less(a) && !a.larger(b).less(b),
        a is Nan ==> a.smaller(b) == b && a.larger(b) == b,
        b is Nan ==> a.smaller(b) == a && a.larger(b) == a,
{
}

/// Halfway between two neighbours, rounding goes to the one with an even number
/// of steps.
pub proof fn law_ties_go_to_the_even_neighbour(precision: Precision, num: nat, den: nat, low: nat)
    requires
        den > 0,
        2 * num == (2 * low + 1) * (den * pow2(quantum(precision, num, den))),
    ensures
        rounded_magnitude(precision, num, den) == if low % 2 == 0 {
            low * pow2(quantum(precision, num, den))
        } else {
            (low + 1) * pow2(quantum(precision, num, den))
        },
{
    let step = pow2(quantum(precision, num, den));
    let coarse = den * step;
    lemma_pow2_pos(quantum(precision, num, den));
    assert(coarse > 0) by (nonlinear_arith)
        requires
            coarse == den * step,
            den > 0,
            step > 0,
    ;
    let past = num - low * coarse;
    assert(2 * past == coarse) by (nonlinear_arith)
        requires
            2 * num == (2 * low + 1) * coarse,
            past == num - low * coarse,
    ;
    assert(num == low * coarse + past);
    vstd::arithmetic::div_mod::lemma_fundamental_div_mod_converse(
        num as int,
        coarse as int,
        low as int,
        past,
    );
}

} // verus!
