use vstd::prelude::*;
use vstd::arithmetic::power2::{
    lemma2_to64, lemma_pow2_pos, lemma_pow2_strictly_increases, pow2,
};
use crate::float::double::Double;
use crate::float::laws::{
    law_numbers_of_the_format_are_exact, law_rounding_keeps_upper_bounds, lemma_span_within_one,
};
use crate::float::model::{one, two, unit_exponent, zero, Datum, Precision};

verus! {

/// The bounds of a piece of text in the input image, as fractions of the
/// image, with the origin in the top left corner.
#[derive(Debug, Clone, PartialEq)]
pub struct OcrBoundingBox {
    /// Horizontal position, from zero to one.
    pub x: Double,
    /// Vertical position from the top, from zero to one.
    pub y: Double,
    /// Width, from zero to one.
    pub width: Double,
    /// Height, from zero to one.
    pub height: Double,
}

/// What a bounding box stands for.
pub struct BoxModel {
    pub x: Datum,
    pub y: Datum,
    pub width: Datum,
    pub height: Datum,
}

impl View for OcrBoundingBox {
    type V = BoxModel;

    open spec fn view(&self) -> BoxModel {
        BoxModel { x: self.x@, y: self.y@, width: self.width@, height: self.height@ }
    }
}

/// A finite number from zero to one.
pub open spec fn is_share(value: Datum) -> bool {
    value.is_finite() && 0 <= value.units() <= pow2(unit_exponent())
}

impl BoxModel {
    /// The box lies within the image and is not empty.
    pub open spec fn is_normalized(self) -> bool {
        &&& is_share(self.x)
        &&& is_share(self.y)
        &&& is_share(self.width)
        &&& is_share(self.height)
        &&& self.width.units() > 0
        &&& self.height.units() > 0
        &&& is_share(self.x.plus(self.width, Precision::Double))
        &&& is_share(self.y.plus(self.height, Precision::Double))
    }
}

/// The number of the range from zero to one that is nearest to `value`.
pub open spec fn clamped(value: Datum) -> Datum {
    if value.less(zero()) {
        zero()
    } else if one().less(value) {
        one()
    } else {
        value
    }
}

/// The box between four edges given as fractions of the image, cut off at the
/// borders of the image; nothing where an edge is not finite or where no area
/// is left.
pub open spec fn normalized_box(
    left: Datum,
    top: Datum,
    right: Datum,
    bottom: Datum,
) -> Option<BoxModel> {
    let (x, y) = (clamped(left), clamped(top));
    let (end_x, end_y) = (clamped(right), clamped(bottom));
    if left.is_finite() && top.is_finite() && right.is_finite() && bottom.is_finite() && left.less(
        right,
    ) && top.less(bottom) && x.less(end_x) && y.less(end_y) {
        Some(
            BoxModel {
                x,
                y,
                width: end_x.minus(x, Precision::Double),
                height: end_y.minus(y, Precision::Double),
            },
        )
    } else {
        None
    }
}

/// Bounds a number to the range from zero to one.
fn clamp_to_share(value: Double) -> (r: Double)
    ensures
        r@ == clamped(value@),
{
    let low = Double::zero();
    let high = Double::one();
    if value.less(low) {
        low
    } else if high.less(value) {
        high
    } else {
        value
    }
}

/// A box that comes out of the clamped edges lies within the image.
proof fn lemma_box_is_normalized(left: Datum, top: Datum, right: Datum, bottom: Datum)
    ensures
        normalized_box(left, top, right, bottom) matches Some(b) ==> b.is_normalized(),
{
    if let Some(b) = normalized_box(left, top, right, bottom) {
        lemma_side_is_normalized(clamped(left), clamped(right));
        lemma_side_is_normalized(clamped(top), clamped(bottom));
    }
}

/// One side of a box between two edges of the image.
proof fn lemma_side_is_normalized(start: Datum, end: Datum)
    requires
        is_share(start),
        is_share(end),
        start.less(end),
    ensures
        ({
            let side = end.minus(start, Precision::Double);
            &&& is_share(side)
            &&& side.units() > 0
            &&& is_share(start.plus(side, Precision::Double))
        }),
{
    lemma_span_within_one(start.units() as nat, end.units() as nat);
    lemma_pow2_strictly_increases(1074, 2098);
}

/// The bounding box between four edges that are given as fractions of the
/// image. Edges outside the image are moved to its border. There is no box
/// where an edge is not finite or where no area is left.
pub fn normalized_bounding_box(left: Double, top: Double, right: Double, bottom: Double) -> (r:
    Option<OcrBoundingBox>)
    ensures
        r is Some <==> normalized_box(left@, top@, right@, bottom@) is Some,
        r matches Some(b) ==> normalized_box(left@, top@, right@, bottom@) == Some(b@),
        r matches Some(b) ==> b@.is_normalized(),
{
    proof {
        lemma_box_is_normalized(left@, top@, right@, bottom@);
    }
    if !left.is_finite() || !top.is_finite() || !right.is_finite() || !bottom.is_finite()
        || right.at_most(left) || bottom.at_most(top) {
        return None;
    }
    let x = clamp_to_share(left);
    let y = clamp_to_share(top);
    let end_x = clamp_to_share(right);
    let end_y = clamp_to_share(bottom);
    if end_x.at_most(x) || end_y.at_most(y) {
        return None;
    }
    Some(
        OcrBoundingBox {
            x,
            y,
            width: end_x.minus(x, Precision::Double),
            height: end_y.minus(y, Precision::Double),
        },
    )
}

/// A clockwise rotation of the text, with the sine and the cosine of its angle.
#[derive(Debug, Clone, Copy)]
pub struct TextRotation {
    pub degrees: Double,
    pub sin: Double,
    pub cos: Double,
}

/// What a rotation stands for.
pub struct RotationModel {
    pub degrees: Datum,
    pub sin: Datum,
    pub cos: Datum,
}

impl View for TextRotation {
    type V = RotationModel;

    open spec fn view(&self) -> RotationModel {
        RotationModel { degrees: self.degrees@, sin: self.sin@, cos: self.cos@ }
    }
}

impl RotationModel {
    /// An angle that is zero or not finite leaves the text where it is.
    pub open spec fn turns(self) -> bool {
        self.degrees.is_finite() && !self.degrees.same(zero())
    }
}

/// The view of an optional rotation.
pub open spec fn rotation_model(rotation: Option<TextRotation>) -> Option<RotationModel> {
    match rotation {
        Some(r) => Some(r@),
        None => None,
    }
}

/// A point of the image, in pixels.
#[derive(Clone, Copy)]
struct Point {
    x: Double,
    y: Double,
}

/// What a point stands for.
pub struct PointModel {
    pub x: Datum,
    pub y: Datum,
}

impl View for Point {
    type V = PointModel;

    closed spec fn view(&self) -> PointModel {
        PointModel { x: self.x@, y: self.y@ }
    }
}

/// Where a clockwise rotation about `center` takes a point.
pub open spec fn turned(
    point: PointModel,
    center: PointModel,
    rotation: RotationModel,
) -> PointModel {
    let p = Precision::Double;
    let dx = point.x.minus(center.x, p);
    let dy = point.y.minus(center.y, p);
    PointModel {
        x: center.x.plus(rotation.cos.times(dx, p), p).minus(rotation.sin.times(dy, p), p),
        y: center.y.plus(rotation.sin.times(dx, p), p).plus(rotation.cos.times(dy, p), p),
    }
}

/// Where a point ends up under an optional rotation.
pub open spec fn placed(
    point: PointModel,
    center: PointModel,
    rotation: Option<RotationModel>,
) -> PointModel {
    match rotation {
        Some(r) => if r.turns() {
            turned(point, center, r)
        } else {
            point
        },
        None => point,
    }
}

/// The smallest of four numbers.
pub open spec fn least(a: Datum, b: Datum, c: Datum, d: Datum) -> Datum {
    (Datum::Infinite { negative: false }).smaller(a).smaller(b).smaller(c).smaller(d)
}

/// The largest of four numbers.
pub open spec fn greatest(a: Datum, b: Datum, c: Datum, d: Datum) -> Datum {
    (Datum::Infinite { negative: true }).larger(a).larger(b).larger(c).larger(d)
}

/// The axis-aligned box, as fractions of the image, around a rectangle of
/// pixels that is rotated about the center of the image; nothing where the
/// rectangle or the image is empty or not finite, or where no area is left
/// within the image.
pub open spec fn rotated_box(
    left: Datum,
    top: Datum,
    right: Datum,
    bottom: Datum,
    image_width: Datum,
    image_height: Datum,
    rotation: Option<RotationModel>,
) -> Option<BoxModel> {
    let p = Precision::Double;
    let center = PointModel { x: image_width.over(two(), p), y: image_height.over(two(), p) };
    let a = placed(PointModel { x: left, y: top }, center, rotation);
    let b = placed(PointModel { x: right, y: top }, center, rotation);
    let c = placed(PointModel { x: right, y: bottom }, center, rotation);
    let d = placed(PointModel { x: left, y: bottom }, center, rotation);
    if left.is_finite() && top.is_finite() && right.is_finite() && bottom.is_finite()
        && image_width.is_finite() && image_height.is_finite() && left.less(right) && top.less(
        bottom,
    ) && zero().less(image_width) && zero().less(image_height) {
        normalized_box(
            least(a.x, b.x, c.x, d.x).over(image_width, p),
            least(a.y, b.y, c.y, d.y).over(image_height, p),
            greatest(a.x, b.x, c.x, d.x).over(image_width, p),
            greatest(a.y, b.y, c.y, d.y).over(image_height, p),
        )
    } else {
        None
    }
}

impl Point {
    fn turned(self, center: Point, rotation: TextRotation) -> (r: Point)
        ensures
            r@ == turned(self@, center@, rotation@),
    {
        let p = Precision::Double;
        let dx = self.x.minus(center.x, p);
        let dy = self.y.minus(center.y, p);
        Point {
            x: center.x.plus(rotation.cos.times(dx, p), p).minus(rotation.sin.times(dy, p), p),
            y: center.y.plus(rotation.sin.times(dx, p), p).plus(rotation.cos.times(dy, p), p),
        }
    }
}

/// The smallest and the largest of four numbers.
fn extent(a: Double, b: Double, c: Double, d: Double) -> (r: (Double, Double))
    ensures
        r.0@ == least(a@, b@, c@, d@),
        r.1@ == greatest(a@, b@, c@, d@),
{
    let low = Double::infinity(false).smaller(a).smaller(b).smaller(c).smaller(d);
    let high = Double::infinity(true).larger(a).larger(b).larger(c).larger(d);
    (low, high)
}

/// The bounding box around a rectangle of pixels that is rotated clockwise
/// about the center of the image. An angle that is zero or not finite counts
/// as none.
pub fn normalized_rotated_bounding_box(
    left: Double,
    top: Double,
    right: Double,
    bottom: Double,
    image_width: Double,
    image_height: Double,
    rotation: Option<TextRotation>,
) -> (r: Option<OcrBoundingBox>)
    ensures
        ({
            let expected = rotated_box(
                left@,
                top@,
                right@,
                bottom@,
                image_width@,
                image_height@,
                rotation_model(rotation),
            );
            &&& r is Some <==> expected is Some
            &&& r matches Some(b) ==> expected == Some(b@)
        }),
        r matches Some(b) ==> b@.is_normalized(),
{
    if !left.is_finite() || !top.is_finite() || !right.is_finite() || !bottom.is_finite()
        || !image_width.is_finite() || !image_height.is_finite() || right.at_most(left)
        || bottom.at_most(top) || image_width.at_most(Double::zero()) || image_height.at_most(
        Double::zero(),
    ) {
        return None;
    }
    let p = Precision::Double;
    let mut a = Point { x: left, y: top };
    let mut b = Point { x: right, y: top };
    let mut c = Point { x: right, y: bottom };
    let mut d = Point { x: left, y: bottom };
    if let Some(angle) = rotation {
        if angle.degrees.is_finite() && !angle.degrees.same(Double::zero()) {
            let center = Point {
                x: image_width.over(Double::two(), p),
                y: image_height.over(Double::two(), p),
            };
            a = a.turned(center, angle);
            b = b.turned(center, angle);
            c = c.turned(center, angle);
            d = d.turned(center, angle);
        }
    }
    let (min_x, max_x) = extent(a.x, b.x, c.x, d.x);
    let (min_y, max_y) = extent(a.y, b.y, c.y, d.y);
    normalized_bounding_box(
        min_x.over(image_width, p),
        min_y.over(image_height, p),
        max_x.over(image_width, p),
        max_y.over(image_height, p),
    )
}

/// A rectangle of pixels, by its edges.
#[derive(Debug, Clone, Copy, PartialEq)]
pub struct PixelRect {
    pub left: Double,
    pub top: Double,
    pub right: Double,
    pub bottom: Double,
}

/// What a rectangle stands for.
pub struct RectModel {
    pub left: Datum,
    pub top: Datum,
    pub right: Datum,
    pub bottom: Datum,
}

impl View for PixelRect {
    type V = RectModel;

    open spec fn view(&self) -> RectModel {
        RectModel { left: self.left@, top: self.top@, right: self.right@, bottom: self.bottom@ }
    }
}

impl RectModel {
    /// The smallest rectangle around both.
    pub open spec fn joined(self, other: RectModel) -> RectModel {
        RectModel {
            left: self.left.smaller(other.left),
            top: self.top.smaller(other.top),
            right: self.right.larger(other.right),
            bottom: self.bottom.larger(other.bottom),
        }
    }

    /// All edges are numbers.
    pub open spec fn is_ordered(self) -> bool {
        !(self.left is Nan) && !(self.top is Nan) && !(self.right is Nan) && !(self.bottom is Nan)
    }

    /// `other` does not reach beyond any edge.
    pub open spec fn encloses(self, other: RectModel) -> bool {
        &&& self.left.at_most(other.left)
        &&& self.top.at_most(other.top)
        &&& other.right.at_most(self.right)
        &&& other.bottom.at_most(self.bottom)
    }
}

impl PixelRect {
    /// The smallest rectangle around both.
    pub fn union(self, other: PixelRect) -> (r: PixelRect)
        ensures
            r@ == self@.joined(other@),
    {
        PixelRect {
            left: self.left.smaller(other.left),
            top: self.top.smaller(other.top),
            right: self.right.larger(other.right),
            bottom: self.bottom.larger(other.bottom),
        }
    }
}

/// The union of two rectangles encloses both.
pub proof fn law_union_encloses_both(a: RectModel, b: RectModel)
    requires
        a.is_ordered(),
        b.is_ordered(),
    ensures
        a.joined(b).encloses(a),
        a.joined(b).encloses(b),
{
}

/// No rectangle that encloses two others is smaller than their union.
pub proof fn law_union_is_smallest(a: RectModel, b: RectModel, around: RectModel)
    requires
        around.encloses(a),
        around.encloses(b),
    ensures
        around.encloses(a.joined(b)),
{
}

/// Every bounding box lies within the image: each number is between zero and
/// one, neither side is empty, and neither the right nor the bottom edge lies
/// past one.
pub proof fn law_boxes_lie_within_the_image(
    left: Datum,
    top: Datum,
    right: Datum,
    bottom: Datum,
    image_width: Datum,
    image_height: Datum,
    rotation: Option<RotationModel>,
)
    ensures
        normalized_box(left, top, right, bottom) matches Some(b) ==> b.is_normalized(),
        rotated_box(
            left,
            top,
            right,
            bottom,
            image_width,
            image_height,
            rotation,
        ) matches Some(b) ==> b.is_normalized(),
{
    lemma_box_is_normalized(left, top, right, bottom);
    let p = Precision::Double;
    let center = PointModel { x: image_width.over(two(), p), y: image_height.over(two(), p) };
    let a = placed(PointModel { x: left, y: top }, center, rotation);
    let b = placed(PointModel { x: right, y: top }, center, rotation);
    let c = placed(PointModel { x: right, y: bottom }, center, rotation);
    let d = placed(PointModel { x: left, y: bottom }, center, rotation);
    lemma_box_is_normalized(
        least(a.x, b.x, c.x, d.x).over(image_width, p),
        least(a.y, b.y, c.y, d.y).over(image_height, p),
        greatest(a.x, b.x, c.x, d.x).over(image_width, p),
        greatest(a.y, b.y, c.y, d.y).over(image_height, p),
    );
}

/// Edges within the image keep their place: the box starts where the edges
/// start.
pub proof fn law_edges_within_the_image_are_kept(
    left: Datum,
    top: Datum,
    right: Datum,
    bottom: Datum,
)
    requires
        is_share(left),
        is_share(top),
        is_share(right),
        is_share(bottom),
        left.less(right),
        top.less(bottom),
    ensures
        normalized_box(left, top, right, bottom) == Some(
            BoxModel {
                x: left,
                y: top,
                width: right.minus(left, Precision::Double),
                height: bottom.minus(top, Precision::Double),
            },
        ),
{
    lemma_pow2_pos(unit_exponent());
}

/// A rotation by an angle that is zero or not finite gives the same box as no
/// rotation.
pub proof fn law_idle_rotation_changes_nothing(
    left: Datum,
    top: Datum,
    right: Datum,
    bottom: Datum,
    image_width: Datum,
    image_height: Datum,
    rotation: RotationModel,
)
    requires
        !rotation.turns(),
    ensures
        rotated_box(left, top, right, bottom, image_width, image_height, Some(rotation))
            == rotated_box(left, top, right, bottom, image_width, image_height, None),
{
}

/// A rectangle without area, or with an edge that is not finite, has no box.
pub proof fn law_degenerate_rectangles_have_no_box(
    left: Datum,
    top: Datum,
    right: Datum,
    bottom: Datum,
    image_width: Datum,
    image_height: Datum,
    rotation: Option<RotationModel>,
)
    requires
        !left.is_finite() || !top.is_finite() || !right.is_finite() || !bottom.is_finite()
            || right.at_most(left) || bottom.at_most(top),
    ensures
        normalized_box(left, top, right, bottom) is None,
        rotated_box(left, top, right, bottom, image_width, image_height, rotation) is None,
{
}

/// What a box shows is what its fields hold.
pub proof fn law_boxes_are_shown_as_they_are(b: OcrBoundingBox)
    ensures
        b@.x == b.x@,
        b@.y == b.y@,
        b@.width == b.width@,
        b@.height == b.height@,
{
}

/// What a rectangle or a rotation shows is what its fields hold.
pub proof fn law_rectangles_and_rotations_are_shown_as_they_are(rect: PixelRect, turn: TextRotation)
    ensures
        rect@.left == rect.left@,
        rect@.top == rect.top@,
        rect@.right == rect.right@,
        rect@.bottom == rect.bottom@,
        turn@.degrees == turn.degrees@,
        turn@.sin == turn.sin@,
        turn@.cos == turn.cos@,
        rotation_model(Some(turn)) == Some(turn@),
        rotation_model(None) is None,
{
}

/// A rectangle has a box exactly where it reaches into the image. The box
/// starts at the left and the top edge, or at the border of the image where they
/// lie outside, and ends in the same way at the right and the bottom edge.
pub proof fn law_boxes_are_cut_off_at_the_borders(
    left: Datum,
    top: Datum,
    right: Datum,
    bottom: Datum,
)
    requires
        left.is_finite(),
        top.is_finite(),
        right.is_finite(),
        bottom.is_finite(),
        left.less(right),
        top.less(bottom),
    ensures
        normalized_box(left, top, right, bottom) is Some <==> left.less(one()) && top.less(one())
            && zero().less(right) && zero().less(bottom),
        normalized_box(left, top, right, bottom) matches Some(b) ==> {
            &&& b.x == if left.units() < 0 {
                zero()
            } else {
                left
            }
            &&& b.y == if top.units() < 0 {
                zero()
            } else {
                top
            }
            &&& b.width == (if right.units() > pow2(1074) {
                one()
            } else {
                right
            }).minus(b.x, Precision::Double)
            &&& b.height == (if bottom.units() > pow2(1074) {
                one()
            } else {
                bottom
            }).minus(b.y, Precision::Double)
        },
{
    lemma_pow2_pos(unit_exponent());
}

/// Each axis of a box is made from the edges of that axis alone, and both axes
/// in the same way: with the axes exchanged, so are the sides of the box.
pub proof fn law_both_axes_are_treated_alike(left: Datum, top: Datum, right: Datum, bottom: Datum)
    ensures
        normalized_box(top, left, bottom, right) == match normalized_box(left, top, right, bottom) {
            Some(b) => Some(BoxModel { x: b.y, y: b.x, width: b.height, height: b.width }),
            None => None,
        },
{
}

/// An image without area, or of a size that is not finite, has no boxes.
pub proof fn law_images_without_area_have_no_boxes(
    left: Datum,
    top: Datum,
    right: Datum,
    bottom: Datum,
    image_width: Datum,
    image_height: Datum,
    rotation: Option<RotationModel>,
)
    requires
        !image_width.is_finite() || !image_height.is_finite() || image_width.units() <= 0
            || image_height.units() <= 0,
    ensures
        rotated_box(left, top, right, bottom, image_width, image_height, rotation) is None,
{
}

/// There is no rotation, or its angle is zero or not finite.
pub open spec fn is_upright(rotation: Option<RotationModel>) -> bool {
    rotation matches Some(r) ==> !r.degrees.is_finite() || r.degrees.units() == 0
}

/// A rectangle with an area in an image with an area.
pub open spec fn has_area(
    left: Datum,
    top: Datum,
    right: Datum,
    bottom: Datum,
    image_width: Datum,
    image_height: Datum,
) -> bool {
    &&& left.is_finite() && top.is_finite() && right.is_finite() && bottom.is_finite()
    &&& image_width.is_finite() && image_height.is_finite()
    &&& left.units() < right.units() && top.units() < bottom.units()
    &&& image_width.units() > 0 && image_height.units() > 0
}

/// Without a rotation that turns, the box of a rectangle of pixels is that of
/// its edges as fractions of the image: the horizontal positions are divided by
/// the width of the image, the vertical ones by its height.
pub proof fn law_upright_edges_are_divided_by_the_image(
    left: Datum,
    top: Datum,
    right: Datum,
    bottom: Datum,
    image_width: Datum,
    image_height: Datum,
    rotation: Option<RotationModel>,
)
    requires
        has_area(left, top, right, bottom, image_width, image_height),
        is_upright(rotation),
    ensures
        rotated_box(left, top, right, bottom, image_width, image_height, rotation)
            == normalized_box(
            left.over(image_width, Precision::Double),
            top.over(image_height, Precision::Double),
            right.over(image_width, Precision::Double),
            bottom.over(image_height, Precision::Double),
        ),
{
}

/// What lies between zero and a positive number, divided by that number.
proof fn lemma_share_of(part: Datum, all: Datum)
    requires
        part.is_finite(),
        all.is_finite(),
        0 <= part.units() <= all.units(),
        0 < all.units(),
    ensures
        is_share(part.over(all, Precision::Double)),
        part.units() == 0 ==> part.over(all, Precision::Double).units() == 0,
        part == zero() ==> part.over(all, Precision::Double) == zero(),
        part == all ==> part.over(all, Precision::Double) == one(),
{
    let p = Precision::Double;
    let unit = pow2(1074);
    let m = part->magnitude;
    let n = all->magnitude;
    lemma2_to64();
    lemma_pow2_pos(1074);
    lemma_pow2_pos(53);
    lemma_pow2_strictly_increases(1074, 2098);
    assert(m * unit <= 1 * unit * n) by (nonlinear_arith)
        requires
            m <= n,
    ;
    law_rounding_keeps_upper_bounds(p, m * unit, n, 1, 1074);
    if m == 0 {
        assert(m * unit <= 0 * unit * n) by (nonlinear_arith)
            requires
                m == 0,
        ;
        assert(0 * unit == 0) by (nonlinear_arith);
        law_rounding_keeps_upper_bounds(p, m * unit, n, 0, 1074);
    }
    if m == n {
        assert(1 * unit * n == m * unit) by (nonlinear_arith)
            requires
                m == n,
        ;
        law_numbers_of_the_format_are_exact(p, false, n, 1, 1074);
    }
}

/// For a rectangle within the image and no rotation that turns, the box starts
/// at the quotients of the left edge and the width and of the top edge and the
/// height, and its sides are the differences of the quotients of the edges,
/// wherever these leave an area.
pub proof fn law_upright_rectangles_keep_their_place(
    left: Datum,
    top: Datum,
    right: Datum,
    bottom: Datum,
    image_width: Datum,
    image_height: Datum,
    rotation: Option<RotationModel>,
)
    requires
        has_area(left, top, right, bottom, image_width, image_height),
        is_upright(rotation),
        0 <= left.units() && right.units() <= image_width.units(),
        0 <= top.units() && bottom.units() <= image_height.units(),
    ensures
        ({
            let p = Precision::Double;
            let x = left.over(image_width, p);
            let y = top.over(image_height, p);
            let end_x = right.over(image_width, p);
            let end_y = bottom.over(image_height, p);
            rotated_box(left, top, right, bottom, image_width, image_height, rotation) == if x.less(
                end_x,
            ) && y.less(end_y) {
                Some(BoxModel { x, y, width: end_x.minus(x, p), height: end_y.minus(y, p) })
            } else {
                None
            }
        }),
{
    lemma_share_of(left, image_width);
    lemma_share_of(right, image_width);
    lemma_share_of(top, image_height);
    lemma_share_of(bottom, image_height);
}

/// The box of the whole image.
pub open spec fn whole_box() -> BoxModel {
    BoxModel { x: zero(), y: zero(), width: one(), height: one() }
}

/// The rectangle of the whole image has the box from zero to one, whatever the
/// size of the image.
pub proof fn law_whole_image_is_the_whole_box(
    image_width: Datum,
    image_height: Datum,
    rotation: Option<RotationModel>,
)
    requires
        image_width.is_finite(),
        image_height.is_finite(),
        image_width.units() > 0,
        image_height.units() > 0,
        is_upright(rotation),
    ensures
        rotated_box(
            zero(),
            zero(),
            image_width,
            image_height,
            image_width,
            image_height,
            rotation,
        ) == Some(whole_box()),
{
    lemma_share_of(zero(), image_width);
    lemma_share_of(image_width, image_width);
    lemma_share_of(zero(), image_height);
    lemma_share_of(image_height, image_height);
    let p = Precision::Double;
    let unit = pow2(1074);
    lemma2_to64();
    lemma_pow2_pos(1074);
    lemma_pow2_pos(53);
    lemma_pow2_strictly_increases(1074, 2098);
    assert(1 * unit * 1 == unit);
    law_numbers_of_the_format_are_exact(p, false, 1, 1, 1074);
    law_upright_edges_are_divided_by_the_image(
        zero(),
        zero(),
        image_width,
        image_height,
        image_width,
        image_height,
        rotation,
    );
}

/// `value` is one of the numbers and none of them is less; positive infinity
/// where there is no number below it.
pub open spec fn is_lowest(value: Datum, numbers: Seq<Datum>) -> bool {
    &&& numbers.contains(value) || value == (Datum::Infinite { negative: false })
    &&& forall|i: int| 0 <= i < numbers.len() ==> !(#[trigger] numbers[i]).less(value)
}

/// `value` is one of the numbers and it is less than none of them; negative
/// infinity where there is no number above it.
pub open spec fn is_highest(value: Datum, numbers: Seq<Datum>) -> bool {
    &&& numbers.contains(value) || value == (Datum::Infinite { negative: true })
    &&& forall|i: int| 0 <= i < numbers.len() ==> !value.less(#[trigger] numbers[i])
}

/// The numbers reach from `low` to `high`.
pub open spec fn are_spanned(numbers: Seq<Datum>, low: Datum, high: Datum) -> bool {
    is_lowest(low, numbers) && is_highest(high, numbers)
}

/// The smallest and the largest of four numbers are among them.
proof fn lemma_extremes(a: Datum, b: Datum, c: Datum, d: Datum)
    ensures
        is_lowest(least(a, b, c, d), seq![a, b, c, d]),
        is_highest(greatest(a, b, c, d), seq![a, b, c, d]),
{
    let numbers = seq![a, b, c, d];
    assert(numbers[0] == a && numbers[1] == b && numbers[2] == c && numbers[3] == d);
    let low = least(a, b, c, d);
    let high = greatest(a, b, c, d);
    assert(low == a || low == b || low == c || low == d || low == (Datum::Infinite {
        negative: false,
    }));
    assert(high == a || high == b || high == c || high == d || high == (Datum::Infinite {
        negative: true,
    }));
    assert(!a.less(low) && !b.less(low) && !c.less(low) && !d.less(low));
    assert(!high.less(a) && !high.less(b) && !high.less(c) && !high.less(d));
}

/// The box of a turned rectangle by its turned corners.
proof fn lemma_box_of_turned_corners(
    left: Datum,
    top: Datum,
    right: Datum,
    bottom: Datum,
    image_width: Datum,
    image_height: Datum,
    rotation: RotationModel,
)
    requires
        has_area(left, top, right, bottom, image_width, image_height),
        rotation.turns(),
    ensures
        ({
            let p = Precision::Double;
            let center = PointModel {
                x: image_width.over(two(), p),
                y: image_height.over(two(), p),
            };
            let a = turned(PointModel { x: left, y: top }, center, rotation);
            let b = turned(PointModel { x: right, y: top }, center, rotation);
            let c = turned(PointModel { x: right, y: bottom }, center, rotation);
            let d = turned(PointModel { x: left, y: bottom }, center, rotation);
            rotated_box(left, top, right, bottom, image_width, image_height, Some(rotation))
                == normalized_box(
                least(a.x, b.x, c.x, d.x).over(image_width, p),
                least(a.y, b.y, c.y, d.y).over(image_height, p),
                greatest(a.x, b.x, c.x, d.x).over(image_width, p),
                greatest(a.y, b.y, c.y, d.y).over(image_height, p),
            )
        }),
{
}

/// The outermost positions of four points.
proof fn lemma_outermost_positions(
    a: PointModel,
    b: PointModel,
    c: PointModel,
    d: PointModel,
    xs: Seq<Datum>,
    ys: Seq<Datum>,
    image_width: Datum,
    image_height: Datum,
    around: Option<BoxModel>,
)
    requires
        xs == seq![a.x, b.x, c.x, d.x],
        ys == seq![a.y, b.y, c.y, d.y],
        around == normalized_box(
            least(a.x, b.x, c.x, d.x).over(image_width, Precision::Double),
            least(a.y, b.y, c.y, d.y).over(image_height, Precision::Double),
            greatest(a.x, b.x, c.x, d.x).over(image_width, Precision::Double),
            greatest(a.y, b.y, c.y, d.y).over(image_height, Precision::Double),
        ),
    ensures
        exists|low_x: Datum, low_y: Datum, high_x: Datum, high_y: Datum|
            {
                &&& #[trigger] are_spanned(xs, low_x, high_x)
                &&& #[trigger] are_spanned(ys, low_y, high_y)
                &&& around == normalized_box(
                    low_x.over(image_width, Precision::Double),
                    low_y.over(image_height, Precision::Double),
                    high_x.over(image_width, Precision::Double),
                    high_y.over(image_height, Precision::Double),
                )
            },
{
    lemma_extremes(a.x, b.x, c.x, d.x);
    lemma_extremes(a.y, b.y, c.y, d.y);
    assert(are_spanned(xs, least(a.x, b.x, c.x, d.x), greatest(a.x, b.x, c.x, d.x)));
    assert(are_spanned(ys, least(a.y, b.y, c.y, d.y), greatest(a.y, b.y, c.y, d.y)));
}

/// A rotation that turns takes the corners of the rectangle clockwise about the
/// middle of the image: `(x, y)` at the distances `dx` and `dy` from the middle
/// goes to `cos dx - sin dy` and `sin dx + cos dy` from it. The box is that
/// between the outermost positions that are reached, the horizontal ones divided
/// by the width of the image, the vertical ones by its height.
pub proof fn law_turned_corners_touch_the_box(
    left: Datum,
    top: Datum,
    right: Datum,
    bottom: Datum,
    image_width: Datum,
    image_height: Datum,
    rotation: RotationModel,
)
    requires
        has_area(left, top, right, bottom, image_width, image_height),
        rotation.degrees.is_finite(),
        rotation.degrees.units() != 0,
    ensures
        ({
            let p = Precision::Double;
            let (sin, cos) = (rotation.sin, rotation.cos);
            let middle_x = image_width.over(two(), p);
            let middle_y = image_height.over(two(), p);
            let (to_left, to_right) = (left.minus(middle_x, p), right.minus(middle_x, p));
            let (to_top, to_bottom) = (top.minus(middle_y, p), bottom.minus(middle_y, p));
            let xs = seq![
                middle_x.plus(cos.times(to_left, p), p).minus(sin.times(to_top, p), p),
                middle_x.plus(cos.times(to_right, p), p).minus(sin.times(to_top, p), p),
                middle_x.plus(cos.times(to_right, p), p).minus(sin.times(to_bottom, p), p),
                middle_x.plus(cos.times(to_left, p), p).minus(sin.times(to_bottom, p), p),
            ];
            let ys = seq![
                middle_y.plus(sin.times(to_left, p), p).plus(cos.times(to_top, p), p),
                middle_y.plus(sin.times(to_right, p), p).plus(cos.times(to_top, p), p),
                middle_y.plus(sin.times(to_right, p), p).plus(cos.times(to_bottom, p), p),
                middle_y.plus(sin.times(to_left, p), p).plus(cos.times(to_bottom, p), p),
            ];
            exists|low_x: Datum, low_y: Datum, high_x: Datum, high_y: Datum|
                {
                    &&& #[trigger] are_spanned(xs, low_x, high_x)
                    &&& #[trigger] are_spanned(ys, low_y, high_y)
                    &&& rotated_box(
                        left,
                        top,
                        right,
                        bottom,
                        image_width,
                        image_height,
                        Some(rotation),
                    ) == normalized_box(
                        low_x.over(image_width, p),
                        low_y.over(image_height, p),
                        high_x.over(image_width, p),
                        high_y.over(image_height, p),
                    )
                }
        }),
{
    let p = Precision::Double;
    let center = PointModel { x: image_width.over(two(), p), y: image_height.over(two(), p) };
    let a = turned(PointModel { x: left, y: top }, center, rotation);
    let b = turned(PointModel { x: right, y: top }, center, rotation);
    let c = turned(PointModel { x: right, y: bottom }, center, rotation);
    let d = turned(PointModel { x: left, y: bottom }, center, rotation);
    lemma_box_of_turned_corners(
        left,
        top,
        right,
        bottom,
        image_width,
        image_height,
        rotation,
    );
    let (sin, cos) = (rotation.sin, rotation.cos);
    let (to_left, to_right) = (left.minus(center.x, p), right.minus(center.x, p));
    let (to_top, to_bottom) = (top.minus(center.y, p), bottom.minus(center.y, p));
    let xs = seq![
        center.x.plus(cos.times(to_left, p), p).minus(sin.times(to_top, p), p),
        center.x.plus(cos.times(to_right, p), p).minus(sin.times(to_top, p), p),
        center.x.plus(cos.times(to_right, p), p).minus(sin.times(to_bottom, p), p),
        center.x.plus(cos.times(to_left, p), p).minus(sin.times(to_bottom, p), p),
    ];
    let ys = seq![
        center.y.plus(sin.times(to_left, p), p).plus(cos.times(to_top, p), p),
        center.y.plus(sin.times(to_right, p), p).plus(cos.times(to_top, p), p),
        center.y.plus(sin.times(to_right, p), p).plus(cos.times(to_bottom, p), p),
        center.y.plus(sin.times(to_left, p), p).plus(cos.times(to_bottom, p), p),
    ];
    lemma_outermost_positions(
        a,
        b,
        c,
        d,
        xs,
        ys,
        image_width,
        image_height,
        rotated_box(left, top, right, bottom, image_width, image_height, Some(rotation)),
    );
}

/// Of an edge that is not a number the union takes no notice: it has the edge
/// of the other rectangle there.
pub proof fn law_union_passes_over_what_is_no_number(a: RectModel, b: RectModel)
    ensures
        a.left is Nan ==> a.joined(b).left == b.left,
        a.top is Nan ==> a.joined(b).top == b.top,
        a.right is Nan ==> a.joined(b).right == b.right,
        a.bottom is Nan ==> a.joined(b).bottom == b.bottom,
        b.left is Nan ==> a.joined(b).left == a.left,
        b.top is Nan ==> a.joined(b).top == a.top,
        b.right is Nan ==> a.joined(b).right == a.right,
        b.bottom is Nan ==> a.joined(b).bottom == a.bottom,
{
}

/// Every edge of a union is an edge of one of the two rectangles, on the same
/// side, and none of the two reaches past it.
pub proof fn law_union_has_the_outer_edges(a: RectModel, b: RectModel)
    ensures
        a.joined(b).left == a.left || a.joined(b).left == b.left,
        a.joined(b).top == a.top || a.joined(b).top == b.top,
        a.joined(b).right == a.right || a.joined(b).right == b.right,
        a.joined(b).bottom == a.bottom || a.joined(b).bottom == b.bottom,
        !a.left.less(a.joined(b).left) && !b.left.less(a.joined(b).left),
        !a.top.less(a.joined(b).top) && !b.top.less(a.joined(b).top),
        !a.joined(b).right.less(a.right) && !a.joined(b).right.less(b.right),
        !a.joined(b).bottom.less(a.bottom) && !a.joined(b).bottom.less(b.bottom),
{
}

} // verus!
