//! Doubling of numbers, and what commutes with it.

use vstd::prelude::*;
use vstd::arithmetic::div_mod::{lemma_fundamental_div_mod, lemma_fundamental_div_mod_converse};
use vstd::arithmetic::power2::{
    lemma2_to64, lemma2_to64_rest, lemma_pow2_adds, lemma_pow2_pos, lemma_pow2_unfold, pow2,
};
use crate::float::double::{exponent_field, fraction_field, Double};
use crate::float::laws::law_numbers_of_the_format_are_exact;
use crate::float::model::{
    bit_length, nearest_even, quantum, rounded, rounded_magnitude, two, unit_exponent, Datum,
    Precision,
};
use crate::float::rounding::{lemma_bit_length_bounds, lemma_pow2_monotone};

verus! {

/// Twice a number. Infinities stay what they are.
pub open spec fn twice(value: Datum) -> Datum {
    match value {
        Datum::Finite { negative, magnitude } => Datum::Finite {
            negative,
            magnitude: 2 * magnitude,
        },
        _ => value,
    }
}

/// Twice the number is still finite if the number is.
pub open spec fn has_room(value: Datum) -> bool {
    value matches Datum::Finite { magnitude, .. } ==> 2 * magnitude < pow2(
        Precision::Double.limit(),
    )
}

/// `num / den` units are a whole number of units, or as large as a normal
/// number.
pub open spec fn is_regular(num: nat, den: nat) -> bool {
    num % den == 0 || pow2(52) <= num / den
}

/// The product is a whole number of units, or as large as a normal number.
pub open spec fn product_is_regular(a: Datum, b: Datum) -> bool {
    a is Finite && b is Finite ==> is_regular(a->magnitude * b->magnitude, pow2(unit_exponent()))
}

/// Doubling both parts of a fraction leaves its rounding as it is.
proof fn lemma_nearest_even_scales(num: nat, den: nat)
    requires
        den > 0,
    ensures
        nearest_even(2 * num, 2 * den) == nearest_even(num, den),
        (2 * num) / (2 * den) == num / den,
{
    lemma_fundamental_div_mod(num as int, den as int);
    let q = num / den;
    let m = num % den;
    assert(2 * num == q * (2 * den) + 2 * m) by (nonlinear_arith)
        requires
            num == den * q + m,
    ;
    lemma_fundamental_div_mod_converse((2 * num) as int, (2 * den) as int, q as int, 2 * m as int);
}

/// Doubling both parts of a fraction leaves the number nearest to it as it is.
proof fn lemma_fraction_scales(num: nat, den: nat)
    requires
        den > 0,
    ensures
        rounded_magnitude(Precision::Double, 2 * num, 2 * den) == rounded_magnitude(
            Precision::Double,
            num,
            den,
        ),
{
    lemma_nearest_even_scales(num, den);
    let step = pow2(quantum(Precision::Double, num, den));
    lemma_pow2_pos(quantum(Precision::Double, num, den));
    assert(den * step > 0) by (nonlinear_arith)
        requires
            den > 0,
            step > 0,
    ;
    assert((2 * den) * step == 2 * (den * step)) by (nonlinear_arith);
    lemma_nearest_even_scales(num, den * step);
}

/// Rounding commutes with doubling, as long as it does not round to whole units.
proof fn lemma_rounding_doubles(num: nat, den: nat)
    requires
        den > 0,
        is_regular(num, den),
    ensures
        rounded_magnitude(Precision::Double, 2 * num, den) == 2 * rounded_magnitude(
            Precision::Double,
            num,
            den,
        ),
{
    let q = num / den;
    let m = num % den;
    lemma_fundamental_div_mod(num as int, den as int);
    lemma2_to64();
    lemma2_to64_rest();
    lemma_bit_length_bounds(q);
    let high: nat = if 2 * m < den {
        0
    } else {
        1
    };
    let twofold = (2 * num) / den;
    assert(twofold == 2 * q + high) by {
        let rest = 2 * m - high * den;
        assert(2 * num == (2 * q + high) * den + rest) by (nonlinear_arith)
            requires
                num == den * q + m,
                rest == 2 * m - high * den,
        ;
        lemma_fundamental_div_mod_converse(
            (2 * num) as int,
            den as int,
            (2 * q + high) as int,
            rest,
        );
    }
    assert(twofold / 2 == q);
    let k = quantum(Precision::Double, num, den);
    let step = pow2(k);
    if bit_length(q) >= 53 {
        assert(bit_length(twofold) == bit_length(q) + 1);
        assert(quantum(Precision::Double, 2 * num, den) == k + 1);
        lemma_pow2_unfold(k + 1);
        lemma_pow2_pos(k);
        assert(den * step > 0) by (nonlinear_arith)
            requires
                den > 0,
                step > 0,
        ;
        assert(den * (2 * step) == 2 * (den * step)) by (nonlinear_arith);
        lemma_nearest_even_scales(num, den * step);
        let n = nearest_even(num, den * step);
        assert(n * (2 * step) == 2 * (n * step)) by (nonlinear_arith);
    } else {
        if pow2(52) <= q {
            lemma_pow2_monotone(bit_length(q), 52);
        }
        assert(m == 0);
        if twofold > 0 {
            assert(bit_length(twofold) == bit_length(q) + 1);
        }
        assert(quantum(Precision::Double, 2 * num, den) == 0);
        assert(k == 0);
        assert(2 * num == (2 * q) * den) by (nonlinear_arith)
            requires
                num == den * q,
        ;
        lemma_fundamental_div_mod_converse((2 * num) as int, den as int, 2 * q as int, 0);
        assert(num % den == 0);
        assert(nearest_even(num, den) == q);
        assert(nearest_even(2 * num, den) == 2 * q);
        assert(q * pow2(0) == q && (2 * q) * pow2(0) == 2 * q && den * pow2(0) == den)
            by (nonlinear_arith)
            requires
                pow2(0) == 1,
        ;
    }
}

/// Rounding a number of the given sign commutes with doubling.
pub proof fn lemma_rounded_doubles(negative: bool, num: nat, den: nat)
    requires
        den > 0,
        is_regular(num, den),
        has_room(rounded(Precision::Double, negative, num, den)),
    ensures
        rounded(Precision::Double, negative, 2 * num, den) == twice(
            rounded(Precision::Double, negative, num, den),
        ),
{
    lemma_rounding_doubles(num, den);
}

/// Doubling both terms doubles a sum, as long as it stays finite.
pub proof fn law_sums_scale(a: Datum, b: Datum)
    requires
        has_room(a.plus(b, Precision::Double)),
    ensures
        twice(a).plus(twice(b), Precision::Double) == twice(a.plus(b, Precision::Double)),
{
    if a is Finite && b is Finite {
        let sum = a.units() + b.units();
        assert(twice(a).units() + twice(b).units() == 2 * sum);
        let size: nat = if sum < 0 {
            (-sum) as nat
        } else {
            sum as nat
        };
        assert(size % 1 == 0);
        if sum != 0 {
            lemma_rounded_doubles(sum < 0, size, 1);
        }
    }
}

/// Doubling both terms doubles a difference, as long as it stays finite.
pub proof fn law_differences_scale(a: Datum, b: Datum)
    requires
        has_room(a.minus(b, Precision::Double)),
    ensures
        twice(a).minus(twice(b), Precision::Double) == twice(a.minus(b, Precision::Double)),
{
    law_sums_scale(a, b.negated());
}

/// Doubling a factor doubles a product, as long as it stays finite and does not
/// fall below the normal numbers.
pub proof fn law_products_scale(a: Datum, b: Datum)
    requires
        has_room(a.times(b, Precision::Double)),
        product_is_regular(a, b),
    ensures
        a.times(twice(b), Precision::Double) == twice(a.times(b, Precision::Double)),
{
    if a is Finite && b is Finite {
        let m = a->magnitude;
        let n = b->magnitude;
        lemma_pow2_pos(unit_exponent());
        assert(m * (2 * n) == 2 * (m * n)) by (nonlinear_arith);
        lemma_rounded_doubles(a->Finite_negative != b->Finite_negative, m * n, pow2(unit_exponent()));
    }
}

/// Doubling both numbers leaves their quotient as it is.
pub proof fn law_quotients_keep(a: Datum, b: Datum)
    ensures
        twice(a).over(twice(b), Precision::Double) == a.over(b, Precision::Double),
{
    if a is Finite && b is Finite && b->magnitude != 0 {
        let m = a->magnitude;
        let unit = pow2(unit_exponent());
        assert((2 * m) * unit == 2 * (m * unit)) by (nonlinear_arith);
        lemma_fraction_scales(m * unit, b->magnitude);
    }
}

/// Doubling both numbers leaves their order, and which of them is chosen, as it
/// is.
pub proof fn law_order_is_kept(a: Datum, b: Datum)
    ensures
        twice(a).less(twice(b)) == a.less(b),
        twice(a).smaller(twice(b)) == twice(a.smaller(b)),
        twice(a).larger(twice(b)) == twice(a.larger(b)),
{
}

/// The magnitude of a finite number of 64 bits, in its two parts.
proof fn lemma_parts(x: Double) -> (parts: (nat, nat))
    requires
        x@ is Finite,
    ensures
        parts.0 < pow2(53),
        parts.1 <= 2045,
        x@->magnitude == parts.0 * pow2(parts.1),
{
    lemma2_to64();
    lemma2_to64_rest();
    let fraction = fraction_field(x.bits);
    if exponent_field(x.bits) == 0 {
        assert(fraction * pow2(0) == fraction) by (nonlinear_arith)
            requires
                pow2(0) == 1,
        ;
        (fraction, 0)
    } else {
        (0x10_0000_0000_0000 + fraction, (exponent_field(x.bits) - 1) as nat)
    }
}

/// Multiplying a number by two is exact, as long as the result is finite.
pub proof fn law_doubling_is_exact(x: Double)
    requires
        has_room(x@),
        !(x@ is Nan),
    ensures
        two().times(x@, Precision::Double) == twice(x@),
{
    if x@ is Finite {
        let (steps, exponent) = lemma_parts(x);
        let m = x@->magnitude;
        let unit = pow2(1074);
        lemma_pow2_pos(1074);
        lemma_pow2_pos(1075);
        lemma_pow2_unfold(1075);
        lemma_pow2_unfold(exponent + 1);
        let size = pow2(exponent);
        assert(steps * (2 * size) == 2 * m) by (nonlinear_arith)
            requires
                m == steps * size,
        ;
        assert(pow2(1075) * m == 2 * m * unit) by (nonlinear_arith)
            requires
                pow2(1075) == 2 * unit,
        ;
        law_numbers_of_the_format_are_exact(
            Precision::Double,
            x@->Finite_negative,
            unit,
            steps,
            exponent + 1,
        );
    } else {
        lemma_pow2_pos(1075);
    }
}

/// A number of 64 bits that is zero or at least `2^low` units is a whole
/// multiple of `2^(low - 52)` units; its half is exact and a multiple of
/// half of that.
pub proof fn lemma_spacing(x: Double, low: nat)
    requires
        x@ is Finite,
        low > 52,
        x@->magnitude == 0 || x@->magnitude >= pow2(low),
    ensures
        x@->magnitude % pow2((low - 52) as nat) == 0,
        x@.over(two(), Precision::Double) == (Datum::Finite {
            negative: x@->Finite_negative,
            magnitude: x@->magnitude / 2,
        }),
        x@->magnitude % 2 == 0,
        (x@->magnitude / 2) % pow2((low - 53) as nat) == 0,
{
    let (steps, exponent) = lemma_parts(x);
    let m = x@->magnitude;
    let g = (low - 52) as nat;
    let grain = pow2(g);
    lemma_pow2_pos(g);
    lemma_pow2_pos((g - 1) as nat);
    lemma_pow2_unfold(g);
    let half = pow2((g - 1) as nat);
    // The number of grains.
    let count: nat = if m == 0 {
        0
    } else {
        lemma_pow2_adds(53, exponent);
        lemma_pow2_pos(exponent);
        assert(m < pow2(53) * pow2(exponent)) by (nonlinear_arith)
            requires
                m == steps * pow2(exponent),
                steps < pow2(53),
                pow2(exponent) > 0,
        ;
        if exponent < g {
            lemma_pow2_monotone(53 + exponent, low);
        }
        steps * pow2((exponent - g) as nat)
    };
    if m > 0 {
        lemma_pow2_adds((exponent - g) as nat, g);
        let factor = pow2((exponent - g) as nat);
        assert(count * grain == m) by (nonlinear_arith)
            requires
                count == steps * factor,
                pow2(exponent) == factor * grain,
                m == steps * pow2(exponent),
        ;
    } else {
        assert(count * grain == 0) by (nonlinear_arith)
            requires
                count == 0,
        ;
    }
    lemma_fundamental_div_mod_converse(m as int, grain as int, count as int, 0);
    let h = count * half;
    assert(m == 2 * h) by (nonlinear_arith)
        requires
            m == count * grain,
            grain == 2 * half,
            h == count * half,
    ;
    assert(m / 2 == h);
    lemma_fundamental_div_mod_converse(h as int, half as int, count as int, 0);
    // Halving is exact.
    let unit = pow2(1074);
    lemma_pow2_pos(1074);
    lemma_pow2_unfold(1075);
    lemma_pow2_pos(1075);
    assert(m * unit == h * pow2(1075)) by (nonlinear_arith)
        requires
            m == 2 * h,
            pow2(1075) == 2 * unit,
    ;
    lemma2_to64_rest();
    if m > 0 {
        lemma_pow2_unfold(exponent);
        let size = pow2((exponent - 1) as nat);
        assert(steps * size == h) by (nonlinear_arith)
            requires
                m == steps * pow2(exponent),
                pow2(exponent) == 2 * size,
                m == 2 * h,
        ;
        lemma_pow2_adds(53, (exponent - 1) as nat);
        lemma_pow2_monotone((53 + exponent - 1) as nat, 2097);
        lemma_pow2_unfold(2098);
        lemma_pow2_pos(2097);
        assert(h <= pow2(53) * size) by (nonlinear_arith)
            requires
                h == steps * size,
                steps < pow2(53),
        ;
        law_numbers_of_the_format_are_exact(
            Precision::Double,
            x@->Finite_negative,
            pow2(1075),
            steps,
            (exponent - 1) as nat,
        );
    } else {
        lemma_pow2_pos(2098);
        assert(0 * pow2(0) == 0) by (nonlinear_arith);
        assert(0 * pow2(1075) == 0) by (nonlinear_arith);
        law_numbers_of_the_format_are_exact(
            Precision::Double,
            x@->Finite_negative,
            pow2(1075),
            0,
            0,
        );
    }
}

} // verus!
