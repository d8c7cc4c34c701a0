//! Bounding boxes are relative to the size of the image.

use vstd::prelude::*;
use vstd::arithmetic::div_mod::{lemma_fundamental_div_mod, lemma_fundamental_div_mod_converse};
use vstd::arithmetic::power2::{
    lemma2_to64, lemma2_to64_rest, lemma_pow2_adds, lemma_pow2_pos, lemma_pow2_strictly_increases,
    lemma_pow2_unfold, pow2,
};
use crate::float::double::Double;
use crate::float::laws::{law_rounding_keeps_lower_bounds, law_rounding_keeps_upper_bounds};
use crate::float::model::{rounded_magnitude, two, zero, Datum, Precision};
use crate::float::rounding::lemma_pow2_monotone;
use crate::float::scaling::{
    has_room, is_regular, law_differences_scale, law_doubling_is_exact, law_order_is_kept,
    law_products_scale, law_quotients_keep, law_sums_scale, lemma_rounded_doubles, lemma_spacing,
    product_is_regular, twice,
};
use crate::geometry::{greatest, least, placed, rotated_box, turned, PointModel, RotationModel};

verus! {

/// A point at twice the distance from the origin.
pub open spec fn twice_point(point: PointModel) -> PointModel {
    PointModel { x: twice(point.x), y: twice(point.y) }
}

/// The center of an image.
pub open spec fn center_of(image_width: Datum, image_height: Datum) -> PointModel {
    PointModel {
        x: image_width.over(two(), Precision::Double),
        y: image_height.over(two(), Precision::Double),
    }
}

/// Nothing that turning a point computes leaves the range of normal numbers,
/// even if the point and the center are twice as far from the origin.
pub open spec fn turn_scales(
    point: PointModel,
    center: PointModel,
    rotation: RotationModel,
) -> bool {
    let p = Precision::Double;
    let dx = point.x.minus(center.x, p);
    let dy = point.y.minus(center.y, p);
    let (cos, sin) = (rotation.cos, rotation.sin);
    &&& has_room(dx) && has_room(dy)
    &&& product_is_regular(cos, dx) && has_room(cos.times(dx, p))
    &&& product_is_regular(sin, dy) && has_room(sin.times(dy, p))
    &&& product_is_regular(sin, dx) && has_room(sin.times(dx, p))
    &&& product_is_regular(cos, dy) && has_room(cos.times(dy, p))
    &&& has_room(center.x.plus(cos.times(dx, p), p))
    &&& has_room(center.y.plus(sin.times(dx, p), p))
    &&& has_room(turned(point, center, rotation).x)
    &&& has_room(turned(point, center, rotation).y)
}

/// Half of the number is as large as a normal number, or exact.
pub open spec fn can_be_halved(value: Datum) -> bool {
    value matches Datum::Finite { magnitude, .. } ==> magnitude % 2 == 0 || pow2(53) <= magnitude
}

/// Nothing that the box of a rectangle takes leaves the range of normal
/// numbers, even if all lengths are twice as large.
pub open spec fn box_scales(
    left: Datum,
    top: Datum,
    right: Datum,
    bottom: Datum,
    image_width: Datum,
    image_height: Datum,
    rotation: Option<RotationModel>,
) -> bool {
    let center = center_of(image_width, image_height);
    rotation matches Some(r) ==> r.turns() ==> {
        &&& can_be_halved(image_width) && has_room(center.x)
        &&& can_be_halved(image_height) && has_room(center.y)
        &&& turn_scales(PointModel { x: left, y: top }, center, r)
        &&& turn_scales(PointModel { x: right, y: top }, center, r)
        &&& turn_scales(PointModel { x: right, y: bottom }, center, r)
        &&& turn_scales(PointModel { x: left, y: bottom }, center, r)
    }
}

/// Halving commutes with doubling.
proof fn lemma_halves_scale(value: Datum)
    requires
        can_be_halved(value),
        has_room(value.over(two(), Precision::Double)),
    ensures
        twice(value).over(two(), Precision::Double) == twice(
            value.over(two(), Precision::Double),
        ),
{
    if value is Finite {
        let m = value->magnitude;
        let unit = pow2(1074);
        let den = pow2(1075);
        lemma_pow2_pos(1074);
        lemma_pow2_unfold(1075);
        lemma2_to64();
        lemma2_to64_rest();
        let num = m * unit;
        let q = m / 2;
        let rest = (m % 2) * unit;
        assert(num == q * den + rest) by (nonlinear_arith)
            requires
                num == m * unit,
                den == 2 * unit,
                m == 2 * q + m % 2,
                rest == (m % 2) * unit,
        ;
        assert(rest < den) by (nonlinear_arith)
            requires
                rest == (m % 2) * unit,
                m % 2 <= 1,
                den == 2 * unit,
                unit > 0,
        ;
        lemma_fundamental_div_mod_converse(num as int, den as int, q as int, rest as int);
        if m % 2 == 0 {
            assert(rest == 0) by (nonlinear_arith)
                requires
                    rest == (m % 2) * unit,
                    m % 2 == 0,
            ;
        } else {
            lemma_pow2_unfold(53);
        }
        assert(is_regular(num, den));
        assert((2 * m) * unit == 2 * num) by (nonlinear_arith)
            requires
                num == m * unit,
        ;
        lemma_rounded_doubles(value->Finite_negative, num, den);
    }
}

/// Turning a point commutes with doubling all distances.
proof fn lemma_turn_scales(point: PointModel, center: PointModel, rotation: RotationModel)
    requires
        turn_scales(point, center, rotation),
    ensures
        turned(twice_point(point), twice_point(center), rotation) == twice_point(
            turned(point, center, rotation),
        ),
{
    let p = Precision::Double;
    let dx = point.x.minus(center.x, p);
    let dy = point.y.minus(center.y, p);
    let (cos, sin) = (rotation.cos, rotation.sin);
    law_differences_scale(point.x, center.x);
    law_differences_scale(point.y, center.y);
    law_products_scale(cos, dx);
    law_products_scale(sin, dy);
    law_products_scale(sin, dx);
    law_products_scale(cos, dy);
    law_sums_scale(center.x, cos.times(dx, p));
    law_sums_scale(center.y, sin.times(dx, p));
    law_differences_scale(center.x.plus(cos.times(dx, p), p), sin.times(dy, p));
    law_sums_scale(center.y.plus(sin.times(dx, p), p), cos.times(dy, p));
}

/// The smallest and the largest of four numbers, with all of them doubled.
proof fn lemma_extent_scales(a: Datum, b: Datum, c: Datum, d: Datum)
    ensures
        least(twice(a), twice(b), twice(c), twice(d)) == twice(least(a, b, c, d)),
        greatest(twice(a), twice(b), twice(c), twice(d)) == twice(greatest(a, b, c, d)),
{
    let low = Datum::Infinite { negative: false };
    law_order_is_kept(low, a);
    law_order_is_kept(low.smaller(a), b);
    law_order_is_kept(low.smaller(a).smaller(b), c);
    law_order_is_kept(low.smaller(a).smaller(b).smaller(c), d);
    let high = Datum::Infinite { negative: true };
    law_order_is_kept(high, a);
    law_order_is_kept(high.larger(a), b);
    law_order_is_kept(high.larger(a).larger(b), c);
    law_order_is_kept(high.larger(a).larger(b).larger(c), d);
}

/// The box is relative to the size of the image: doubling all four edges and
/// both sizes of the image leaves it as it is, as long as nothing on the way
/// leaves the range of normal numbers.
pub proof fn law_doubling_all_lengths_keeps_the_box(
    left: Datum,
    top: Datum,
    right: Datum,
    bottom: Datum,
    image_width: Datum,
    image_height: Datum,
    rotation: Option<RotationModel>,
)
    requires
        box_scales(left, top, right, bottom, image_width, image_height, rotation),
    ensures
        rotated_box(
            twice(left),
            twice(top),
            twice(right),
            twice(bottom),
            twice(image_width),
            twice(image_height),
            rotation,
        ) == rotated_box(left, top, right, bottom, image_width, image_height, rotation),
{
    let center = center_of(image_width, image_height);
    let wide = center_of(twice(image_width), twice(image_height));
    let (a, b) = (PointModel { x: left, y: top }, PointModel { x: right, y: top });
    let (c, d) = (PointModel { x: right, y: bottom }, PointModel { x: left, y: bottom });
    if let Some(r) = rotation {
        if r.turns() {
            lemma_halves_scale(image_width);
            lemma_halves_scale(image_height);
            assert(wide == twice_point(center));
            lemma_turn_scales(a, center, r);
            lemma_turn_scales(b, center, r);
            lemma_turn_scales(c, center, r);
            lemma_turn_scales(d, center, r);
        }
    }
    let (pa, pb) = (placed(a, center, rotation), placed(b, center, rotation));
    let (pc, pd) = (placed(c, center, rotation), placed(d, center, rotation));
    assert(placed(twice_point(a), wide, rotation) == twice_point(pa));
    assert(placed(twice_point(b), wide, rotation) == twice_point(pb));
    assert(placed(twice_point(c), wide, rotation) == twice_point(pc));
    assert(placed(twice_point(d), wide, rotation) == twice_point(pd));
    lemma_extent_scales(pa.x, pb.x, pc.x, pd.x);
    lemma_extent_scales(pa.y, pb.y, pc.y, pd.y);
    law_quotients_keep(least(pa.x, pb.x, pc.x, pd.x), image_width);
    law_quotients_keep(least(pa.y, pb.y, pc.y, pd.y), image_height);
    law_quotients_keep(greatest(pa.x, pb.x, pc.x, pd.x), image_width);
    law_quotients_keep(greatest(pa.y, pb.y, pc.y, pd.y), image_height);
    law_order_is_kept(left, right);
    law_order_is_kept(top, bottom);
    law_order_is_kept(zero(), image_width);
    law_order_is_kept(zero(), image_height);
}

/// Zero, or a magnitude of at least `2^low` and at most `2^high` units.
pub open spec fn is_between(value: Datum, low: nat, high: nat) -> bool {
    value matches Datum::Finite { magnitude, .. } && (magnitude == 0 || pow2(low) <= magnitude
        <= pow2(high))
}

/// Zero, or a magnitude of at least `2^-333` and at most `2^333`: every length
/// from `1e-100` to `1e100` is one.
pub open spec fn is_moderate(value: Datum) -> bool {
    is_between(value, 741, 1407)
}

/// The sine and the cosine are zero, or of a magnitude of at least `2^-636` and
/// at most two.
pub open spec fn rotation_is_moderate(rotation: RotationModel) -> bool {
    is_between(rotation.sin, 438, 1075) && is_between(rotation.cos, 438, 1075)
}

/// A number within bounds leaves room for its double.
proof fn lemma_room(value: Datum, low: nat, high: nat)
    requires
        is_between(value, low, high),
        high < 2097,
    ensures
        has_room(value),
{
    lemma_pow2_strictly_increases(high, 2097);
    lemma_pow2_unfold(2098);
    lemma_pow2_pos(2098);
}

/// The magnitude of a sum.
spec fn size_of(sum: int) -> nat {
    if sum < 0 {
        (-sum) as nat
    } else {
        sum as nat
    }
}

/// The bounds of a rounded sum of two numbers.
proof fn lemma_rounded_sum(sum: int, low: nat, high: nat)
    requires
        size_of(sum) <= 2 * pow2(high),
        sum != 0 ==> size_of(sum) >= pow2(low),
        high < 2000,
    ensures
        sum != 0 ==> pow2(low) <= rounded_magnitude(Precision::Double, size_of(sum), 1) <= pow2(
            high + 1,
        ),
        pow2(high + 1) < pow2(2098),
{
    let p = Precision::Double;
    let size = size_of(sum);
    lemma_pow2_unfold(high + 1);
    lemma_pow2_strictly_increases(high + 1, 2098);
    lemma_pow2_pos(53);
    assert(1 * pow2(high + 1) * 1 == pow2(high + 1));
    assert(1 * pow2(low) * 1 == pow2(low));
    law_rounding_keeps_upper_bounds(p, size, 1, 1, high + 1);
    if sum != 0 {
        law_rounding_keeps_lower_bounds(p, size, 1, 1, low);
    }
}

/// A sum is not larger than twice the larger term.
proof fn lemma_sum_is_bounded(a: Datum, b: Datum, high: nat)
    requires
        is_between(a, 0, high),
        is_between(b, 0, high),
        high < 2000,
    ensures
        is_between(a.plus(b, Precision::Double), 0, high + 1),
        is_between(a.minus(b, Precision::Double), 0, high + 1),
{
    lemma2_to64();
    lemma_rounded_sum(a.units() + b.units(), 0, high);
    lemma_rounded_sum(a.units() - b.units(), 0, high);
}

/// The distance of an edge from the center of the image, along one axis.
proof fn lemma_offset(edge: Double, size: Double)
    requires
        is_moderate(edge@),
        is_moderate(size@),
    ensures
        can_be_halved(size@),
        is_between(size@.over(two(), Precision::Double), 688, 1407),
        is_between(
            edge@.minus(size@.over(two(), Precision::Double), Precision::Double),
            688,
            1408,
        ),
{
    lemma_spacing(edge, 741);
    lemma_spacing(size, 741);
    let center = size@.over(two(), Precision::Double);
    let grain = pow2(688);
    lemma_pow2_pos(688);
    lemma_pow2_unfold(689);
    lemma_pow2_strictly_increases(688, 740);
    lemma_pow2_unfold(741);
    let m = edge@->magnitude;
    let h = size@->magnitude / 2;
    let fine = pow2(689);
    lemma_fundamental_div_mod(m as int, fine as int);
    lemma_fundamental_div_mod(h as int, grain as int);
    let i = edge@.units();
    let j = center.units();
    let sum = edge@.units() + center.negated().units();
    // Both are whole numbers of grains.
    let ei: int = if edge@->Finite_negative {
        -(2 * (m / fine))
    } else {
        2 * (m / fine) as int
    };
    let ej: int = if size@->Finite_negative {
        -(h / grain)
    } else {
        (h / grain) as int
    };
    let n = m / fine;
    let k = h / grain;
    assert(i == ei * grain) by (nonlinear_arith)
        requires
            m == fine * n,
            fine == 2 * grain,
            i == (if edge@->Finite_negative { -(m as int) } else { m as int }),
            ei == (if edge@->Finite_negative { -(2 * n as int) } else { 2 * n as int }),
    ;
    assert(j == ej * grain) by (nonlinear_arith)
        requires
            h == grain * k,
            j == (if size@->Finite_negative { -(h as int) } else { h as int }),
            ej == (if size@->Finite_negative { -(k as int) } else { k as int }),
    ;
    assert(sum == (ei - ej) * grain) by (nonlinear_arith)
        requires
            sum == i - j,
            i == ei * grain,
            j == ej * grain,
    ;
    if sum != 0 {
        let e = ei - ej;
        assert(e >= 1 ==> sum >= grain) by (nonlinear_arith)
            requires
                sum == e * grain,
                grain > 0,
        ;
        assert(e <= -1 ==> -sum >= grain) by (nonlinear_arith)
            requires
                sum == e * grain,
                grain > 0,
        ;
        assert(e != 0) by (nonlinear_arith)
            requires
                sum == e * grain,
                sum != 0,
        ;
    }
    lemma_rounded_sum(sum, 688, 1407);
}

/// A product of a sine or a cosine with a distance.
proof fn lemma_product(factor: Datum, offset: Datum)
    requires
        is_between(factor, 438, 1075),
        is_between(offset, 688, 1408),
    ensures
        product_is_regular(factor, offset),
        is_between(factor.times(offset, Precision::Double), 0, 1409),
{
    let p = Precision::Double;
    let m = factor->magnitude;
    let n = offset->magnitude;
    let unit = pow2(1074);
    let num = m * n;
    lemma2_to64();
    lemma_pow2_pos(1074);
    lemma_pow2_pos(53);
    lemma_pow2_adds(438, 688);
    lemma_pow2_adds(52, 1074);
    lemma_pow2_adds(1075, 1408);
    lemma_pow2_adds(1409, 1074);
    lemma_pow2_strictly_increases(1409, 2098);
    lemma_fundamental_div_mod(num as int, unit as int);
    if m == 0 || n == 0 {
        assert(num == 0) by (nonlinear_arith)
            requires
                num == m * n,
                m == 0 || n == 0,
        ;
        lemma_fundamental_div_mod_converse(0, unit as int, 0, 0);
        assert(num <= 0 * pow2(0) * unit) by (nonlinear_arith)
            requires
                num == 0,
        ;
        assert(0 * pow2(0) == 0) by (nonlinear_arith);
        law_rounding_keeps_upper_bounds(p, num, unit, 0, 0);
    } else {
        assert(num >= pow2(438) * pow2(688)) by (nonlinear_arith)
            requires
                num == m * n,
                m >= pow2(438),
                n >= pow2(688),
        ;
        assert(num <= pow2(1075) * pow2(1408)) by (nonlinear_arith)
            requires
                num == m * n,
                m <= pow2(1075),
                n <= pow2(1408),
        ;
        let q = num / unit;
        let least_steps = pow2(52);
        lemma_pow2_pos(52);
        assert(least_steps <= q) by (nonlinear_arith)
            requires
                least_steps * unit <= num,
                num == unit * q + num % unit,
                num % unit < unit,
                unit > 0,
        ;
        assert(1 * pow2(1409) * unit == pow2(1409) * unit) by (nonlinear_arith);
        law_rounding_keeps_upper_bounds(p, num, unit, 1, 1409);
        assert(1 * pow2(0) * unit <= num) by (nonlinear_arith)
            requires
                pow2(0) == 1,
                least_steps * unit <= num,
                least_steps >= 1,
        ;
        law_rounding_keeps_lower_bounds(p, num, unit, 1, 0);
    }
}

/// Wider bounds hold too.
proof fn lemma_widen(value: Datum, low: nat, high: nat, higher: nat)
    requires
        is_between(value, low, high),
        high <= higher,
    ensures
        is_between(value, 0, higher),
{
    lemma_pow2_monotone(high, higher);
    lemma_pow2_monotone(0, low);
}

/// Turning a corner of moderate size stays within the normal numbers.
proof fn lemma_moderate_turn(
    x: Double,
    y: Double,
    image_width: Double,
    image_height: Double,
    rotation: RotationModel,
)
    requires
        is_moderate(x@),
        is_moderate(y@),
        is_moderate(image_width@),
        is_moderate(image_height@),
        rotation_is_moderate(rotation),
    ensures
        turn_scales(
            PointModel { x: x@, y: y@ },
            center_of(image_width@, image_height@),
            rotation,
        ),
{
    let p = Precision::Double;
    let center = center_of(image_width@, image_height@);
    let (cos, sin) = (rotation.cos, rotation.sin);
    lemma_offset(x, image_width);
    lemma_offset(y, image_height);
    let dx = x@.minus(center.x, p);
    let dy = y@.minus(center.y, p);
    lemma_product(cos, dx);
    lemma_product(sin, dy);
    lemma_product(sin, dx);
    lemma_product(cos, dy);
    lemma_widen(center.x, 688, 1407, 1409);
    lemma_widen(center.y, 688, 1407, 1409);
    let (cos_dx, sin_dy) = (cos.times(dx, p), sin.times(dy, p));
    let (sin_dx, cos_dy) = (sin.times(dx, p), cos.times(dy, p));
    lemma_sum_is_bounded(center.x, cos_dx, 1409);
    lemma_sum_is_bounded(center.y, sin_dx, 1409);
    lemma_widen(sin_dy, 0, 1409, 1410);
    lemma_widen(cos_dy, 0, 1409, 1410);
    lemma_sum_is_bounded(center.x.plus(cos_dx, p), sin_dy, 1410);
    lemma_sum_is_bounded(center.y.plus(sin_dx, p), cos_dy, 1410);
    lemma_room(dx, 688, 1408);
    lemma_room(dy, 688, 1408);
    lemma_room(cos_dx, 0, 1409);
    lemma_room(sin_dy, 0, 1409);
    lemma_room(sin_dx, 0, 1409);
    lemma_room(cos_dy, 0, 1409);
    lemma_room(center.x.plus(cos_dx, p), 0, 1410);
    lemma_room(center.y.plus(sin_dx, p), 0, 1410);
    lemma_room(center.x.plus(cos_dx, p).minus(sin_dy, p), 0, 1411);
    lemma_room(center.y.plus(sin_dx, p).plus(cos_dy, p), 0, 1411);
}

/// The box is relative to the size of the image: for lengths that are zero or
/// of a magnitude from `2^-333` to `2^333`, multiplying all four edges and both
/// sizes of the image by two leaves it as it is. A sine or a cosine of a
/// rotation that turns is zero or at least `2^-636` in magnitude: below that a
/// product may fall below the normal numbers.
pub proof fn law_box_is_relative_to_the_image(
    left: Double,
    top: Double,
    right: Double,
    bottom: Double,
    image_width: Double,
    image_height: Double,
    rotation: Option<RotationModel>,
)
    requires
        is_moderate(left@),
        is_moderate(top@),
        is_moderate(right@),
        is_moderate(bottom@),
        is_moderate(image_width@),
        is_moderate(image_height@),
        rotation matches Some(r) ==> r.turns() ==> rotation_is_moderate(r),
    ensures
        rotated_box(
            two().times(left@, Precision::Double),
            two().times(top@, Precision::Double),
            two().times(right@, Precision::Double),
            two().times(bottom@, Precision::Double),
            two().times(image_width@, Precision::Double),
            two().times(image_height@, Precision::Double),
            rotation,
        ) == rotated_box(
            left@,
            top@,
            right@,
            bottom@,
            image_width@,
            image_height@,
            rotation,
        ),
{
    lemma_room(left@, 741, 1407);
    lemma_room(top@, 741, 1407);
    lemma_room(right@, 741, 1407);
    lemma_room(bottom@, 741, 1407);
    lemma_room(image_width@, 741, 1407);
    lemma_room(image_height@, 741, 1407);
    law_doubling_is_exact(left);
    law_doubling_is_exact(top);
    law_doubling_is_exact(right);
    law_doubling_is_exact(bottom);
    law_doubling_is_exact(image_width);
    law_doubling_is_exact(image_height);
    if let Some(r) = rotation {
        if r.turns() {
            lemma_offset(left, image_width);
            lemma_offset(top, image_height);
            let center = center_of(image_width@, image_height@);
            lemma_room(center.x, 688, 1407);
            lemma_room(center.y, 688, 1407);
            lemma_moderate_turn(left, top, image_width, image_height, r);
            lemma_moderate_turn(right, top, image_width, image_height, r);
            lemma_moderate_turn(right, bottom, image_width, image_height, r);
            lemma_moderate_turn(left, bottom, image_width, image_height, r);
        }
    }
    law_doubling_all_lengths_keeps_the_box(
        left@,
        top@,
        right@,
        bottom@,
        image_width@,
        image_height@,
        rotation,
    );
}

} // verus!
