use agg_clip::clip::{clip_flags, mul_div, Rectangle};

#[test]
fn rectangle_new_keeps_ordered_corners() {
    let r = Rectangle::new(0, 10, 100, 90);
    assert_eq!((r.x1, r.y1, r.x2, r.y2), (0, 10, 100, 90));
}

#[test]
fn rectangle_new_normalizes_swapped_corners() {
    let r = Rectangle::new(100, 90, 0, 10);
    assert_eq!((r.x1, r.y1, r.x2, r.y2), (0, 10, 100, 90));
}

#[test]
fn rectangle_new_normalizes_each_axis_independently() {
    let r = Rectangle::new(0, 100, 100, 0);
    assert_eq!((r.x1, r.y1, r.x2, r.y2), (0, 0, 100, 100));
}

#[test]
fn clip_flags_inside_is_zero() {
    let r = Rectangle::new(10, 10, 90, 90);
    assert_eq!(r.clip_flags(50, 50), 0);
}

#[test]
fn clip_flags_boundary_is_inside() {
    let r = Rectangle::new(10, 10, 90, 90);
    assert_eq!(r.clip_flags(10, 10), 0);
    assert_eq!(r.clip_flags(90, 90), 0);
    assert_eq!(r.clip_flags(10, 90), 0);
    assert_eq!(r.clip_flags(90, 10), 0);
    assert_eq!(r.clip_flags(10, 50), 0);
    assert_eq!(r.clip_flags(50, 90), 0);
}

#[test]
fn clip_flags_eight_outside_regions() {
    let r = Rectangle::new(10, 10, 90, 90);
    assert_eq!(r.clip_flags(0, 50), 0b0001); // left
    assert_eq!(r.clip_flags(100, 50), 0b0010); // right
    assert_eq!(r.clip_flags(50, 0), 0b0100); // bottom
    assert_eq!(r.clip_flags(50, 100), 0b1000); // top
    assert_eq!(r.clip_flags(0, 0), 0b0101); // bottom-left
    assert_eq!(r.clip_flags(100, 0), 0b0110); // bottom-right
    assert_eq!(r.clip_flags(0, 100), 0b1001); // top-left
    assert_eq!(r.clip_flags(100, 100), 0b1010); // top-right
}

#[test]
fn clip_flags_free_function_matches_method() {
    let r = Rectangle::new(10, 10, 90, 90);
    let (x, y) = (-3, 200);
    assert_eq!(
        clip_flags(&x, &y, &r.x1, &r.y1, &r.x2, &r.y2),
        r.clip_flags(x, y)
    );
    assert_eq!(clip_flags(&x, &y, &r.x1, &r.y1, &r.x2, &r.y2), 0b1001);
}

#[test]
fn expand_grows_to_cover_point() {
    let mut r = Rectangle::new(0, 0, 10, 10);
    r.expand(20, -5);
    assert_eq!((r.x1, r.y1, r.x2, r.y2), (0, -5, 20, 10));
}

#[test]
fn expand_interior_point_is_noop() {
    let mut r = Rectangle::new(0, 0, 10, 10);
    r.expand(5, 5);
    assert_eq!((r.x1, r.y1, r.x2, r.y2), (0, 0, 10, 10));
}

#[test]
fn expand_rect_covers_union() {
    let mut r = Rectangle::new(0, 0, 10, 10);
    let other = Rectangle::new(20, 20, 30, 30);
    r.expand_rect(&other);
    assert_eq!((r.x1, r.y1, r.x2, r.y2), (0, 0, 30, 30));
}

#[test]
fn mul_div_exact_quotients() {
    assert_eq!(mul_div(6, 4, 8), 3);
    assert_eq!(mul_div(10, 10, 100), 1);
    assert_eq!(mul_div(0, 123, 7), 0);
}

#[test]
fn mul_div_rounds_to_nearest() {
    assert_eq!(mul_div(7, 100, 74), 9); // 9.459...
    assert_eq!(mul_div(200, 220, 300), 147); // 146.66...
    assert_eq!(mul_div(-7, 100, 74), -9);
}

#[test]
fn mul_div_rounds_halves_away_from_zero() {
    assert_eq!(mul_div(1, 1, 2), 1);
    assert_eq!(mul_div(-1, 1, 2), -1);
    assert_eq!(mul_div(3, 1, 2), 2);
    assert_eq!(mul_div(-3, 1, 2), -2);
}

#[test]
fn mul_div_negative_divisor() {
    assert_eq!(mul_div(3, 5, -2), -8); // -7.5 rounds away from zero
    assert_eq!(mul_div(-3, 5, -2), 8);
    assert_eq!(mul_div(4, 5, -2), -10);
}
