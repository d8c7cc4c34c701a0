use system_ocr::float::double::Double;
use system_ocr::geometry::{PixelRect, TextRotation};
use system_ocr::{normalized_bounding_box, normalized_rotated_bounding_box, OcrBoundingBox};

fn double(value: f64) -> Double {
    Double::from_bits(value.to_bits())
}

fn native(value: Double) -> f64 {
    f64::from_bits(value.to_bits())
}

fn normalized(left: f64, top: f64, right: f64, bottom: f64) -> Option<OcrBoundingBox> {
    normalized_bounding_box(double(left), double(top), double(right), double(bottom))
}

fn rotation(degrees: f64) -> TextRotation {
    let (sin, cos) = degrees.to_radians().sin_cos();
    TextRotation { degrees: double(degrees), sin: double(sin), cos: double(cos) }
}

fn rotated(
    left: f64,
    top: f64,
    right: f64,
    bottom: f64,
    image_width: f64,
    image_height: f64,
    clockwise_degrees: Option<f64>,
) -> Option<OcrBoundingBox> {
    normalized_rotated_bounding_box(
        double(left),
        double(top),
        double(right),
        double(bottom),
        double(image_width),
        double(image_height),
        clockwise_degrees.map(rotation),
    )
}

fn assert_box_close(actual: OcrBoundingBox, x: f64, y: f64, width: f64, height: f64) {
    assert!((native(actual.x) - x).abs() < 1e-10);
    assert!((native(actual.y) - y).abs() < 1e-10);
    assert!((native(actual.width) - width).abs() < 1e-10);
    assert!((native(actual.height) - height).abs() < 1e-10);
}

#[test]
fn normalized_box_clamps_edges() {
    let bounding_box = normalized(-0.1, 0.2, 1.1, 0.8).unwrap();
    assert_eq!(native(bounding_box.x), 0.0);
    assert_eq!(native(bounding_box.y), 0.2);
    assert_eq!(native(bounding_box.width), 1.0);
    assert!((native(bounding_box.height) - 0.6).abs() < f64::EPSILON);
}

#[test]
fn normalized_box_rejects_invalid_geometry() {
    assert_eq!(normalized(0.4, 0.2, 0.4, 0.8), None);
    assert_eq!(normalized(f64::NAN, 0.2, 0.8, 0.8), None);
}

#[test]
fn normalizes_unrotated_pixel_box() {
    let bounding_box = rotated(10.0, 20.0, 50.0, 40.0, 100.0, 200.0, None).unwrap();
    assert_box_close(bounding_box, 0.1, 0.1, 0.4, 0.1);
}

#[test]
fn rotates_pixel_box_clockwise_around_image_center() {
    let bounding_box = rotated(10.0, 20.0, 30.0, 40.0, 100.0, 100.0, Some(90.0)).unwrap();
    assert_box_close(bounding_box, 0.6, 0.1, 0.2, 0.2);
}

#[test]
fn clamps_rotated_pixel_box_to_image_edges() {
    let bounding_box = rotated(-20.0, 10.0, 20.0, 30.0, 100.0, 100.0, Some(90.0)).unwrap();
    assert!(native(bounding_box.x) >= 0.0);
    assert!(native(bounding_box.y) >= 0.0);
    assert!(native(bounding_box.x) + native(bounding_box.width) <= 1.0);
    assert!(native(bounding_box.y) + native(bounding_box.height) <= 1.0);
}

#[test]
fn rejects_degenerate_pixel_box() {
    assert_eq!(rotated(10.0, 10.0, 10.0, 30.0, 100.0, 100.0, None), None);
}

#[test]
fn box_has_exact_edges() {
    let bounding_box = normalized(0.25, 0.5, 0.75, 0.625).unwrap();
    assert_eq!(native(bounding_box.x), 0.25);
    assert_eq!(native(bounding_box.y), 0.5);
    assert_eq!(native(bounding_box.width), 0.5);
    assert_eq!(native(bounding_box.height), 0.125);
}

#[test]
fn boxes_outside_the_image_are_rejected() {
    assert_eq!(normalized(1.5, 0.2, 1.8, 0.8), None);
    assert_eq!(normalized(-0.8, 0.2, -0.1, 0.8), None);
    assert_eq!(normalized(0.2, 0.2, f64::INFINITY, 0.8), None);
    assert_eq!(normalized(0.2, 0.8, 0.4, 0.2), None);
    assert_eq!(rotated(1.0, 1.0, 2.0, 2.0, 0.0, 10.0, None), None);
    assert_eq!(rotated(1.0, 1.0, 2.0, 2.0, 10.0, f64::NAN, None), None);
}

#[test]
fn idle_rotations_change_nothing() {
    let plain = rotated(10.0, 20.0, 50.0, 40.0, 100.0, 200.0, None);
    assert_eq!(rotated(10.0, 20.0, 50.0, 40.0, 100.0, 200.0, Some(0.0)), plain);
    assert_eq!(rotated(10.0, 20.0, 50.0, 40.0, 100.0, 200.0, Some(-0.0)), plain);
    assert_eq!(rotated(10.0, 20.0, 50.0, 40.0, 100.0, 200.0, Some(f64::NAN)), plain);
    assert_eq!(rotated(10.0, 20.0, 50.0, 40.0, 100.0, 200.0, Some(f64::INFINITY)), plain);
}

/// The same computation in native numbers.
fn native_rotated(edges: [f64; 4], size: [f64; 2], degrees: f64) -> Option<[f64; 4]> {
    let [left, top, right, bottom] = edges;
    let [image_width, image_height] = size;
    let (sin, cos) = degrees.to_radians().sin_cos();
    let (center_x, center_y) = (image_width / 2.0, image_height / 2.0);
    let mut xs = Vec::new();
    let mut ys = Vec::new();
    for (x, y) in [(left, top), (right, top), (right, bottom), (left, bottom)] {
        let (dx, dy) = (x - center_x, y - center_y);
        xs.push(center_x + cos * dx - sin * dy);
        ys.push(center_y + sin * dx + cos * dy);
    }
    let least = |values: &Vec<f64>| values.iter().copied().fold(f64::INFINITY, f64::min);
    let most = |values: &Vec<f64>| values.iter().copied().fold(f64::NEG_INFINITY, f64::max);
    let x = (least(&xs) / image_width).clamp(0.0, 1.0);
    let y = (least(&ys) / image_height).clamp(0.0, 1.0);
    let end_x = (most(&xs) / image_width).clamp(0.0, 1.0);
    let end_y = (most(&ys) / image_height).clamp(0.0, 1.0);
    if end_x <= x || end_y <= y {
        None
    } else {
        Some([x, y, end_x - x, end_y - y])
    }
}

#[test]
fn rotated_boxes_agree_with_native_arithmetic() {
    for step in 1..360 {
        let degrees = f64::from(step) * 1.25 - 200.0;
        let edges = [f64::from(step) * 0.3, 7.5, f64::from(step) * 0.3 + 31.7, 55.1];
        let size = [173.0, 91.0];
        if degrees == 0.0 {
            continue;
        }
        let expected = native_rotated(edges, size, degrees);
        let actual = rotated(
            edges[0],
            edges[1],
            edges[2],
            edges[3],
            size[0],
            size[1],
            Some(degrees),
        )
        .map(|b| [native(b.x), native(b.y), native(b.width), native(b.height)]);
        assert_eq!(actual, expected);
    }
}

#[test]
fn every_box_lies_within_the_image() {
    let values = [-1.0, -0.0, 1e-320, 0.1, 0.3, 0.7, 1.0 - f64::EPSILON, 1.0, 1.5, 1e300];
    for left in values {
        for right in values {
            if let Some(b) = normalized(left, left, right, right) {
                assert!(native(b.x) >= 0.0 && native(b.width) > 0.0);
                assert!(native(b.x) + native(b.width) <= 1.0);
                assert!(native(b.y) + native(b.height) <= 1.0);
            }
        }
    }
}

fn rect(left: f64, top: f64, right: f64, bottom: f64) -> PixelRect {
    PixelRect {
        left: double(left),
        top: double(top),
        right: double(right),
        bottom: double(bottom),
    }
}

#[test]
fn union_reaches_around_both_rectangles() {
    let union = rect(1.0, 2.0, 3.0, 4.0).union(rect(0.5, 2.5, 2.0, 9.0));
    assert_eq!(union, rect(0.5, 2.0, 3.0, 9.0));
}

fn doubled(
    left: f64,
    top: f64,
    right: f64,
    bottom: f64,
    image_width: f64,
    image_height: f64,
    clockwise_degrees: Option<f64>,
) -> Option<OcrBoundingBox> {
    rotated(
        2.0 * left,
        2.0 * top,
        2.0 * right,
        2.0 * bottom,
        2.0 * image_width,
        2.0 * image_height,
        clockwise_degrees,
    )
}

#[test]
fn doubling_all_lengths_keeps_the_box() {
    let rectangles = [
        (10.0, 20.0, 50.0, 40.0, 100.0, 200.0),
        (0.1, 0.7, 33.3, 44.9, 77.7, 51.3),
        (-20.0, 10.0, 20.0, 30.0, 100.0, 100.0),
        (0.0, 1e-100, 3e-100, 1e100, 2e100, 3e99),
        (3e-100, 1e-100, 7e-100, 5e-100, 1e-99, 9e-100),
        (30.0, 10.0, 30.0, 20.0, 100.0, 100.0),
    ];
    let angles = [None, Some(0.0), Some(1.0), Some(-17.3), Some(45.0), Some(90.0), Some(1e-150)];
    for (left, top, right, bottom, width, height) in rectangles {
        for angle in angles {
            assert_eq!(
                doubled(left, top, right, bottom, width, height, angle),
                rotated(left, top, right, bottom, width, height, angle)
            );
        }
    }
    let known = doubled(10.0, 20.0, 50.0, 40.0, 100.0, 200.0, None).unwrap();
    assert_eq!(native(known.x), 0.1);
    assert_eq!(native(known.y), 0.1);
}

#[test]
fn a_sine_below_the_normal_numbers_depends_on_the_scale() {
    let angle = Some(2.8e-322);
    let small = rotated(0.0, 0.05, 0.08, 0.1, 0.1, 1.0, angle).unwrap();
    let large = doubled(0.0, 0.05, 0.08, 0.1, 0.1, 1.0, angle).unwrap();
    assert_eq!(native(small.x), 0.0);
    assert_eq!(native(large.x), f64::from_bits(5));
}
