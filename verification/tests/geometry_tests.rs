use polyrig::arith::{clamp_coord, div_trunc, isqrt, COORD_LIMIT};
use polyrig::data_models::PointCords;
use polyrig::utils::{
    calculate_middle_point, check_if_parallel, check_line_hover, check_point_hover,
    get_click_point, get_line_length,
};

#[test]
fn isqrt_exact_values() {
    assert_eq!(isqrt(0), 0);
    assert_eq!(isqrt(1), 1);
    assert_eq!(isqrt(2), 1);
    assert_eq!(isqrt(4), 2);
    assert_eq!(isqrt(45800), 214);
    assert_eq!(isqrt(91600), 302);
    assert_eq!(isqrt(10100), 100);
    assert_eq!(isqrt(u64::MAX), 4294967295);
}

#[test]
fn div_trunc_rounds_towards_zero() {
    assert_eq!(div_trunc(7, 2), 3);
    assert_eq!(div_trunc(-7, 2), -3);
    assert_eq!(div_trunc(-1600, 116), -13);
    assert_eq!(div_trunc(0, 5), 0);
}

#[test]
fn clamp_keeps_range() {
    assert_eq!(clamp_coord(5), 5);
    assert_eq!(clamp_coord((COORD_LIMIT as i128) + 7), COORD_LIMIT);
    assert_eq!(clamp_coord(-(COORD_LIMIT as i128) - 7), -COORD_LIMIT);
}

#[test]
fn line_length_is_floored_distance() {
    assert_eq!(get_line_length(PointCords(0, 0), PointCords(3, 4)), 5);
    assert_eq!(get_line_length(PointCords(330, 220), PointCords(200, 50)), 214);
    assert_eq!(get_line_length(PointCords(200, 50), PointCords(160, 350)), 302);
    assert_eq!(get_line_length(PointCords(7, 9), PointCords(7, 9)), 0);
}

#[test]
fn point_hover_uses_squared_margin() {
    assert!(check_point_hover(PointCords(100, 100), PointCords(110, 105)));
    assert!(!check_point_hover(PointCords(100, 100), PointCords(115, 100)));
}

#[test]
fn line_hover_needs_box_and_distance() {
    // On the segment itself.
    assert!(check_line_hover(PointCords(0, 0), PointCords(100, 0), PointCords(50, 3)));
    // Within distance but far outside the bounding box.
    assert!(!check_line_hover(PointCords(0, 0), PointCords(100, 0), PointCords(200, 0)));
    // Inside the box of a diagonal segment, close enough to hover.
    assert!(check_line_hover(PointCords(0, 0), PointCords(100, 100), PointCords(60, 40)));
    // Inside the box but too far from the line.
    assert!(!check_line_hover(PointCords(0, 0), PointCords(100, 100), PointCords(70, 30)));
}

#[test]
fn middle_point_truncates() {
    let m = calculate_middle_point(PointCords(0, 0), PointCords(100, 0));
    assert_eq!((m.0, m.1), (50, 0));
    let m2 = calculate_middle_point(PointCords(3, 7), PointCords(0, 0));
    assert_eq!((m2.0, m2.1), (1, 3));
}

#[test]
fn click_point_adds_offset() {
    let c = get_click_point(PointCords(10, 20), (5, -3));
    assert_eq!((c.0, c.1), (15, 17));
}

#[test]
fn parallel_compares_slopes() {
    // Equal slope dx/dy.
    assert!(check_if_parallel(
        (PointCords(0, 0), PointCords(10, 100)),
        (PointCords(5, 7), PointCords(15, 107)),
    ));
    // Clearly different slopes.
    assert!(!check_if_parallel(
        (PointCords(0, 0), PointCords(100, 10)),
        (PointCords(0, 0), PointCords(10, 100)),
    ));
    // A horizontal segment (zero dy) never counts as parallel.
    assert!(!check_if_parallel(
        (PointCords(0, 0), PointCords(100, 0)),
        (PointCords(0, 0), PointCords(100, 0)),
    ));
}
