use sediment::builder::{Attempt, BuildConfig, Builder, BuilderUpdate, ColorPicker};
use sediment::canvas::Canvas;
use sediment::circle::Circle;
use sediment::color::Rgba;
use sediment::ratio::Ratio;
use sediment::rate_meter::Rate;

fn ratio(numerator: u64, denominator: u64) -> Ratio {
    Ratio { numerator, denominator }
}

fn config(max_radius: u32, min_radius: u32, step: Ratio, limit: usize, similarity: Ratio) -> BuildConfig {
    BuildConfig {
        max_radius,
        min_radius,
        radius_shrink_threshold: ratio(2, 10),
        radius_step: step,
        radius_attempt_limit: limit,
        similarity_threshold: similarity,
    }
}

fn solid(width: u32, height: u32, color: [u8; 3]) -> Canvas {
    let mut bytes = Vec::new();
    for _ in 0..(width * height) {
        bytes.extend_from_slice(&[color[0], color[1], color[2], 255]);
    }
    Canvas::from_raw(width, height, bytes).unwrap()
}

#[test]
fn config_is_valid_within_its_bounds() {
    let good = config(500, 1, ratio(1, 10), 5000, ratio(9, 10));
    assert!(good.is_valid());
    assert!(!BuildConfig { min_radius: 0, ..good }.is_valid());
    assert!(!BuildConfig { max_radius: 0, min_radius: 0, ..good }.is_valid());
    assert!(!BuildConfig { min_radius: 501, ..good }.is_valid());
    assert!(!BuildConfig { max_radius: 8_388_609, ..good }.is_valid());
    assert!(BuildConfig { max_radius: 8_388_608, ..good }.is_valid());
    assert!(!BuildConfig { radius_step: ratio(11, 10), ..good }.is_valid());
    assert!(BuildConfig { radius_step: ratio(0, 10), ..good }.is_valid());
    assert!(!BuildConfig { radius_step: ratio(0, 0), ..good }.is_valid());
    assert!(!BuildConfig { similarity_threshold: ratio(1, 0), ..good }.is_valid());
    assert!(!BuildConfig { radius_shrink_threshold: ratio(1, 0), ..good }.is_valid());
    assert!(BuildConfig { radius_attempt_limit: 0, ..good }.is_valid());
}

#[test]
fn default_config_has_the_usual_options() {
    let config = BuildConfig::default();
    assert!(config.is_valid());
    assert_eq!((config.max_radius, config.min_radius, config.radius_attempt_limit), (500, 1, 5000));
    assert_eq!((config.radius_step.numerator, config.radius_step.denominator), (1, 10));
    assert_eq!((config.radius_shrink_threshold.numerator, config.radius_shrink_threshold.denominator), (2, 10));
    assert_eq!((config.similarity_threshold.numerator, config.similarity_threshold.denominator), (9, 10));
}

#[test]
fn can_build_wants_a_reference_with_a_pixel() {
    let good = config(500, 1, ratio(1, 10), 5000, ratio(9, 10));
    assert!(Builder::can_build(&Canvas::new(4, 4), &good));
    assert!(!Builder::can_build(&Canvas::new(0, 4), &good));
    assert!(!Builder::can_build(&Canvas::new(4, 0), &good));
    assert!(!Builder::can_build(&Canvas::new(4, 4), &BuildConfig { min_radius: 0, ..good }));
}

#[test]
fn color_picker_reads_the_pixel() {
    let canvas = Canvas::from_raw(2, 1, vec![1, 2, 3, 255, 4, 5, 6, 255]).unwrap();
    assert_eq!(ColorPicker::sample(&canvas, 1, 0), Rgba { r: 4, g: 5, b: 6, a: 255 });
}

#[test]
fn a_new_build_is_black_at_the_largest_radius() {
    let builder = Builder::new(solid(3, 2, [9, 9, 9]), config(7, 2, ratio(1, 2), 10, ratio(9, 10)));
    assert!(builder.current().is_equal(&Canvas::new(3, 2)));
    assert!(builder.reference().is_equal(&solid(3, 2, [9, 9, 9])));
    assert!(builder.circles().is_empty());
    assert!(!builder.is_finished());
    let stats = builder.stats();
    assert_eq!(stats.radius, 7);
    assert_eq!((stats.total_attempts, stats.total_successes, stats.total_skips), (0, 0, 0));
    assert_eq!((stats.radius_attempts, stats.radius_successes), (0, 0));
    // Six pixels, each 9 + 9 + 9 from black.
    assert_eq!((stats.radius_success_rate, stats.delta), (None, 162));
}

#[test]
fn solid_red_is_matched_by_the_first_circle() {
    let reference = solid(2, 2, [255, 0, 0]);
    let mut builder = Builder::new(reference, config(2, 1, ratio(1, 1), 10, ratio(9, 10)));
    builder.run();
    assert!(builder.is_finished());
    assert!(builder.current().is_equal(builder.reference()));
    assert_eq!(builder.reference().delta(builder.current()), 0);
    let stats = builder.stats();
    assert!(stats.total_successes >= 1);
    assert_eq!(stats.total_successes, 1);
    assert_eq!(stats.total_attempts, 10);
    assert_eq!(stats.radius, 0);
    assert_eq!(stats.delta, 0);
    assert_eq!(builder.circles().len(), 1);
    let placed = builder.circles()[0];
    assert_eq!((placed.radius, placed.r, placed.g, placed.b), (2, 255, 0, 0));
    assert!(placed.x < 2 && placed.y < 2);
}

#[test]
fn attempts_step_by_step_on_solid_red() {
    let reference = solid(2, 2, [255, 0, 0]);
    let mut builder = Builder::new(reference, config(2, 1, ratio(1, 1), 3, ratio(9, 10)));
    assert_eq!(builder.attempt(1, 0), Attempt::Accepted);
    assert_eq!(builder.circles(), &vec![Circle { x: 1, y: 0, radius: 2, r: 255, g: 0, b: 0 }]);
    assert!(builder.current().is_equal(builder.reference()));
    assert_eq!(builder.stats().radius_successes, 1);
    assert_eq!(builder.attempt(0, 0), Attempt::Same);
    assert_eq!(builder.stats().radius_attempts, 2);
    assert_eq!(builder.attempt(1, 1), Attempt::Finished);
    assert!(builder.is_finished());
    let stats = builder.stats();
    assert_eq!((stats.total_attempts, stats.total_successes, stats.total_skips), (3, 1, 0));
    assert_eq!((stats.radius, stats.radius_attempts, stats.radius_successes), (0, 0, 0));
    assert_eq!(stats.radius_success_rate, None);
}

#[test]
fn radius_steps_down_by_its_part_and_at_least_by_one() {
    // With a limit of one the radius steps down on every attempt.
    let mut builder = Builder::new(Canvas::new(4, 4), config(10, 1, ratio(3, 10), 1, ratio(9, 10)));
    let mut radii = Vec::new();
    while builder.attempt(0, 0) != Attempt::Finished {
        radii.push(builder.stats().radius);
    }
    assert_eq!(radii, vec![7, 5, 4, 3, 2, 1]);
    assert_eq!(builder.stats().radius, 0);
    assert_eq!(builder.stats().total_attempts, 7);
}

#[test]
fn a_step_of_nothing_still_takes_one() {
    let mut builder = Builder::new(Canvas::new(4, 4), config(4, 2, ratio(0, 1), 0, ratio(9, 10)));
    assert_eq!(builder.attempt(1, 1), Attempt::Same);
    assert_eq!(builder.stats().radius, 3);
    assert_eq!(builder.attempt(1, 1), Attempt::Same);
    assert_eq!(builder.stats().radius, 2);
    assert_eq!(builder.attempt(1, 1), Attempt::Finished);
    assert_eq!(builder.stats().radius, 1);
}

#[test]
fn a_whole_step_ends_the_build_at_once() {
    let mut builder = Builder::new(Canvas::new(4, 4), config(9, 1, ratio(1, 1), 1, ratio(9, 10)));
    assert_eq!(builder.attempt(0, 0), Attempt::Finished);
    assert_eq!(builder.stats().radius, 0);
}

#[test]
fn the_attempt_limit_steps_the_radius_down() {
    let mut builder = Builder::new(Canvas::new(4, 4), config(8, 1, ratio(1, 2), 3, ratio(9, 10)));
    for expected in [8, 8, 4, 4, 4, 2, 2, 2, 1, 1, 1] {
        assert_eq!(builder.attempt(2, 2), Attempt::Same);
        assert_eq!(builder.stats().radius, expected);
    }
    assert_eq!(builder.attempt(2, 2), Attempt::Finished);
    assert_eq!(builder.stats().total_attempts, 12);
}

/// A reference of two halves: the left is bright, the right is dark red.
fn halves() -> Canvas {
    let mut bytes = Vec::new();
    for _y in 0..8 {
        for x in 0..8 {
            if x < 4 {
                bytes.extend_from_slice(&[200, 200, 200, 255]);
            } else {
                bytes.extend_from_slice(&[50, 0, 0, 255]);
            }
        }
    }
    Canvas::from_raw(8, 8, bytes).unwrap()
}

#[test]
fn a_candidate_that_is_no_closer_is_rejected() {
    let mut builder = Builder::new(halves(), config(8, 1, ratio(1, 2), 1000, ratio(1, 1)));
    // A dark red disc over everything brings the canvas closer.
    assert_eq!(builder.attempt(6, 4), Attempt::Accepted);
    let after_first = builder.reference().delta(builder.current());
    assert_eq!(after_first, 32 * 550);
    // A bright disc over everything is as far off on the right as it is closer on the left:
    // it is no closer, so it is dropped.
    let before = builder.current().clone();
    assert_eq!(builder.attempt(1, 4), Attempt::Rejected);
    assert_eq!(builder.reference().delta(builder.current()), after_first);
    assert!(builder.current().is_equal(&before));
    let stats = builder.stats();
    assert_eq!((stats.total_successes, stats.radius_successes), (1, 1));
    assert_eq!(builder.circles(), &vec![Circle { x: 6, y: 4, radius: 8, r: 50, g: 0, b: 0 }]);
}

#[test]
fn rejected_candidates_leave_the_canvas_alone() {
    // The reference is black but for one pixel, so a large white disc is farther off.
    let mut bytes = vec![0u8; 4 * 36];
    for pixel in bytes.chunks_mut(4) {
        pixel[3] = 255;
    }
    bytes[4 * (6 * 3 + 3)] = 255;
    bytes[4 * (6 * 3 + 3) + 1] = 255;
    bytes[4 * (6 * 3 + 3) + 2] = 255;
    let reference = Canvas::from_raw(6, 6, bytes).unwrap();
    let mut builder = Builder::new(reference, config(3, 1, ratio(1, 2), 1000, ratio(1, 1)));
    assert_eq!(builder.attempt(3, 3), Attempt::Rejected);
    assert!(builder.current().is_equal(&Canvas::new(6, 6)));
    assert!(builder.circles().is_empty());
    let stats = builder.stats();
    assert_eq!((stats.total_attempts, stats.total_successes, stats.total_skips), (1, 0, 0));
}

#[test]
fn a_region_that_is_close_enough_is_skipped() {
    // One pixel of the reference is a little brighter than the canvas gets from the first disc.
    let mut bytes = Vec::new();
    for i in 0..16 {
        let level = if i == 5 { 101 } else { 100 };
        bytes.extend_from_slice(&[level, level, level, 255]);
    }
    let reference = Canvas::from_raw(4, 4, bytes).unwrap();
    let mut builder = Builder::new(reference, config(8, 1, ratio(1, 2), 1000, ratio(9, 10)));
    assert_eq!(builder.attempt(0, 0), Attempt::Accepted);
    // The canvas's value is 4800 of the reference's 4803: close enough.
    assert_eq!(builder.attempt(1, 1), Attempt::Skipped);
    assert_eq!(builder.stats().total_skips, 1);
    assert_eq!(builder.stats().total_successes, 1);
}

#[test]
fn a_threshold_of_one_skips_nothing() {
    let mut bytes = Vec::new();
    for i in 0..16 {
        let level = if i == 5 { 101 } else { 100 };
        bytes.extend_from_slice(&[level, level, level, 255]);
    }
    let reference = Canvas::from_raw(4, 4, bytes).unwrap();
    let mut builder = Builder::new(reference, config(8, 1, ratio(1, 2), 1000, ratio(1, 1)));
    assert_eq!(builder.attempt(0, 0), Attempt::Accepted);
    // The candidate is tried, and dropped: it would spoil fifteen pixels to mend one.
    assert_eq!(builder.attempt(1, 1), Attempt::Rejected);
    assert_eq!(builder.stats().total_skips, 0);
    assert!(builder.current().is_equal(&Canvas::from_raw(4, 4, vec![100, 100, 100, 255].repeat(16)).unwrap()));
}

#[test]
fn a_threshold_of_zero_skips_what_is_darker_but_not_black() {
    let mut bytes = Vec::new();
    for i in 0..16 {
        let level = if i == 5 { 200 } else { 100 };
        bytes.extend_from_slice(&[level, level, level, 255]);
    }
    let reference = Canvas::from_raw(4, 4, bytes).unwrap();
    let mut builder = Builder::new(reference, config(8, 1, ratio(1, 2), 1000, ratio(0, 1)));
    // The canvas is black: its value is zero, which is not above the threshold.
    assert_eq!(builder.attempt(0, 0), Attempt::Accepted);
    // Now it is darker than the reference, and above zero.
    assert_eq!(builder.attempt(1, 1), Attempt::Skipped);
}

#[test]
fn delta_never_grows_and_circles_only_come() {
    let mut bytes = Vec::new();
    for y in 0..16u32 {
        for x in 0..16u32 {
            bytes.extend_from_slice(&[(x * 16) as u8, (y * 16) as u8, ((x * y) % 256) as u8, 255]);
        }
    }
    let reference = Canvas::from_raw(16, 16, bytes).unwrap();
    let mut builder = Builder::new(reference, config(6, 1, ratio(1, 4), 40, ratio(95, 100)));
    let mut delta = builder.reference().delta(builder.current());
    let mut circles = builder.circles().clone();
    let mut radius = builder.stats().radius;
    let mut point = 0u32;
    loop {
        point = (point * 7 + 3) % 256;
        let outcome = builder.attempt(point % 16, point / 16);
        let now = builder.reference().delta(builder.current());
        if outcome == Attempt::Accepted {
            assert!(now < delta);
            assert_eq!(builder.circles().len(), circles.len() + 1);
        } else {
            assert_eq!(now, delta);
            assert_eq!(builder.circles().len(), circles.len());
        }
        assert_eq!(&builder.circles()[..circles.len()], &circles[..]);
        assert!(builder.stats().radius <= radius);
        assert!(builder.current().as_bytes().chunks(4).all(|p| p[3] == 255));
        delta = now;
        circles = builder.circles().clone();
        radius = builder.stats().radius;
        if outcome == Attempt::Finished {
            break;
        }
    }
    assert!(builder.stats().total_successes > 0);
    assert_eq!(builder.stats().total_successes, circles.len());
}

#[test]
fn a_low_success_rate_steps_the_radius_down() {
    // The reference is black but for one pixel, so every candidate there is rejected.
    let mut bytes = vec![0u8; 4 * 36];
    for pixel in bytes.chunks_mut(4) {
        pixel[3] = 255;
    }
    bytes[4 * (6 * 3 + 3)] = 255;
    let reference = Canvas::from_raw(6, 6, bytes).unwrap();
    let mut builder = Builder::new(reference, config(3, 1, ratio(1, 3), 100_000, ratio(1, 1)));
    for _ in 0..100 {
        assert_eq!(builder.attempt(3, 3), Attempt::Rejected);
        assert_eq!(builder.stats().radius, 3);
    }
    // The meter is full of misses now: the next attempt steps down first.
    assert_eq!(builder.attempt(3, 3), Attempt::Rejected);
    let stats = builder.stats();
    assert_eq!(stats.radius, 2);
    assert_eq!(stats.radius_success_rate, Some(Rate { sum: 0, limit: 100 }));
    assert_eq!(stats.radius_attempts, 0);
    assert_eq!(stats.delta, 255);
    assert_eq!(stats.total_attempts, 101);
}

#[test]
fn stats_hold_the_distance_as_it_is_now() {
    let mut builder = Builder::new(halves(), config(8, 1, ratio(1, 2), 1000, ratio(1, 1)));
    assert_eq!(builder.stats().delta, 32 * 600 + 32 * 50);
    assert_eq!(builder.attempt(6, 4), Attempt::Accepted);
    assert_eq!(builder.stats().delta, 32 * 550);
    assert_eq!(builder.stats().delta, builder.reference().delta(builder.current()));
    assert_eq!(builder.attempt(1, 4), Attempt::Rejected);
    assert_eq!(builder.stats().delta, 32 * 550);
}

#[test]
fn run_ends_right_after_a_step_down_within_its_attempts() {
    let mut bytes = Vec::new();
    for y in 0..10u32 {
        for x in 0..10u32 {
            bytes.extend_from_slice(&[(x * 25) as u8, (y * 25) as u8, 77, 255]);
        }
    }
    let reference = Canvas::from_raw(10, 10, bytes).unwrap();
    let mut builder = Builder::new(reference, config(5, 2, ratio(1, 4), 30, ratio(1, 1)));
    builder.run();
    let stats = builder.stats();
    assert!(stats.total_attempts >= 1);
    // Four radii, from five down to two, with thirty attempts each at most.
    assert!(stats.total_attempts <= 4 * 30);
    assert_eq!((stats.radius_attempts, stats.radius_successes), (0, 0));
    assert_eq!(stats.delta, builder.reference().delta(builder.current()));
    // With a threshold of one nothing is skipped.
    assert_eq!(stats.total_skips, 0);
    assert!(stats.radius < 2);
}

#[test]
fn updates_are_a_preview_and_the_stats() {
    let mut builder = Builder::new(solid(2, 2, [255, 0, 0]), config(2, 1, ratio(1, 1), 10, ratio(9, 10)));
    builder.attempt(0, 0);
    match builder.updates() {
        (BuilderUpdate::Preview(canvas), BuilderUpdate::Stats(stats)) => {
            assert!(canvas.is_equal(builder.current()));
            assert_eq!(stats.total_attempts, 1);
            assert_eq!(stats.total_successes, 1);
        }
        _ => panic!("not a preview and the stats"),
    }
    assert!(!Builder::update_due(99));
    assert!(Builder::update_due(100));
    assert!(Builder::update_due(101));
}

#[test]
fn run_ends_with_the_radius_below_the_minimum() {
    let mut bytes = Vec::new();
    for y in 0..12u32 {
        for x in 0..12u32 {
            bytes.extend_from_slice(&[(x * 20) as u8, (y * 20) as u8, 128, 255]);
        }
    }
    let reference = Canvas::from_raw(12, 12, bytes).unwrap();
    let mut builder = Builder::new(reference, config(6, 2, ratio(1, 2), 50, ratio(9, 10)));
    let start = builder.reference().delta(builder.current());
    builder.run();
    assert!(builder.is_finished());
    assert!(builder.stats().radius < 2);
    assert!(builder.reference().delta(builder.current()) <= start);
    assert!(builder.stats().total_attempts <= 150);
    assert_eq!(builder.stats().total_successes, builder.circles().len());
}
