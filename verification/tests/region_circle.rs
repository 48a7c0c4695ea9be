use sediment::circle::Circle;
use sediment::color::Rgba;
use sediment::region::Region;

#[test]
fn region_bounds_are_center_plus_minus_radius() {
    let r = Region::new(20, 30, 5);
    assert_eq!((r.min_x, r.min_y, r.max_x, r.max_y), (15, 25, 25, 35));
    assert_eq!(r.real_origin_x(), 15);
    assert_eq!(r.real_origin_y(), 25);
    assert_eq!(r.real_width(), 10);
    assert_eq!(r.real_height(), 10);
    assert_eq!(r.real_center_x(), 5);
    assert_eq!(r.real_center_y(), 5);
}

#[test]
fn region_at_origin_is_clipped_to_its_radius() {
    for radius in [0u32, 1, 7, 1000] {
        let r = Region::new(0, 0, radius);
        assert_eq!(r.real_origin_x(), 0);
        assert_eq!(r.real_origin_y(), 0);
        assert_eq!(r.real_width(), radius);
        assert_eq!(r.real_height(), radius);
        assert_eq!(r.real_center_x(), 0);
        assert_eq!(r.real_center_y(), 0);
    }
}

#[test]
fn overhanging_region_on_a_large_canvas() {
    let r = Region::new(0, 0, 10);
    assert_eq!(r.min_x, -10);
    assert_eq!(r.real_origin_x(), 0);
    assert_eq!(r.real_center_x(), 0);
    assert_eq!(r.real_width(), 10);
}

#[test]
fn region_clipped_on_one_axis_only() {
    let r = Region::new(3, 50, 10);
    assert_eq!(r.real_origin_x(), 0);
    assert_eq!(r.real_origin_y(), 40);
    assert_eq!(r.real_width(), 13);
    assert_eq!(r.real_height(), 20);
    assert_eq!(r.real_center_x(), 3);
    assert_eq!(r.real_center_y(), 10);
}

#[test]
fn circle_takes_the_colours_channels() {
    let c = Circle::new(1, 2, 3, Rgba { r: 10, g: 20, b: 30, a: 40 });
    assert_eq!(c, Circle { x: 1, y: 2, radius: 3, r: 10, g: 20, b: 30 });
}

fn plain(x: u32, y: u32, radius: u32) -> Circle {
    Circle { x, y, radius, r: 0, g: 0, b: 0 }
}

#[test]
fn circles_overlap_when_closer_than_their_radii() {
    // 3-4-5 triangle: the centres are exactly 5 apart.
    assert!(!plain(0, 0, 2).overlaps_circle(&plain(3, 4, 3)));
    assert!(plain(0, 0, 3).overlaps_circle(&plain(3, 4, 3)));
    assert!(plain(3, 4, 3).overlaps_circle(&plain(0, 0, 3)));
    assert!(!plain(0, 0, 0).overlaps_circle(&plain(0, 0, 0)));
    assert!(plain(7, 7, 1).overlaps_circle(&plain(7, 7, 0)));
}

#[test]
fn circle_overlap_is_exact_for_large_coordinates() {
    let far = 4_000_000_000u32;
    assert!(!plain(0, 0, 1).overlaps_circle(&plain(far, far, 1)));
    assert!(plain(0, 0, u32::MAX).overlaps_circle(&plain(far, 0, u32::MAX)));
    // Touching circles do not overlap, however large.
    assert!(!plain(0, 0, 2_000_000_000).overlaps_circle(&plain(far, 0, 2_000_000_000)));
    assert!(plain(0, 0, 2_000_000_001).overlaps_circle(&plain(far, 0, 2_000_000_000)));
}

#[test]
fn circle_overlaps_region_when_nearest_point_is_within_radius() {
    let region = Region::new(20, 20, 5); // the square from 15 to 25
    assert!(plain(20, 20, 0).overlaps_region(&region));
    assert!(plain(10, 20, 5).overlaps_region(&region));
    assert!(!plain(10, 20, 4).overlaps_region(&region));
    // From (12, 11) the nearest corner (15, 15) is 5 away.
    assert!(plain(12, 11, 5).overlaps_region(&region));
    assert!(!plain(12, 11, 4).overlaps_region(&region));
    assert!(plain(30, 30, 8).overlaps_region(&region));
    assert!(!plain(30, 30, 7).overlaps_region(&region));
}

#[test]
fn drawable_circles_end_within_the_exact_range() {
    assert!(plain(10, 10, 5).is_drawable());
    assert!(plain(16_777_216, 0, 0).is_drawable());
    assert!(!plain(16_777_216, 0, 1).is_drawable());
    assert!(!plain(0, 16_777_000, 217).is_drawable());
    assert!(!plain(u32::MAX, 0, u32::MAX).is_drawable());
}
