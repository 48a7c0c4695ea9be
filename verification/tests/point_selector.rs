use sediment::canvas::Canvas;
use sediment::point_selector::RandomPointSelector;

#[test]
fn random_points_lie_on_the_canvas() {
    let canvas = Canvas::new(7, 3);
    let mut selector = RandomPointSelector::new(&canvas);
    let mut seen = [[false; 7]; 3];
    for _ in 0..2000 {
        let (x, y) = selector.next().unwrap();
        assert!(x < 7 && y < 3);
        seen[y as usize][x as usize] = true;
    }
    assert!(seen.iter().all(|row| row.iter().all(|hit| *hit)));
}

#[test]
fn random_point_of_a_single_pixel() {
    let canvas = Canvas::new(1, 1);
    let mut selector = RandomPointSelector::new(&canvas);
    for _ in 0..10 {
        assert_eq!(selector.next(), Some((0, 0)));
    }
}

use sediment::point_selector::DistancePointSelector;

/// A reference whose pixels differ from black by the given amounts of red.
fn reds(width: u32, height: u32, levels: &[u8]) -> Canvas {
    let mut bytes = Vec::new();
    for level in levels {
        bytes.extend_from_slice(&[*level, 0, 0, 255]);
    }
    Canvas::from_raw(width, height, bytes).unwrap()
}

fn drain(selector: &mut DistancePointSelector) -> Vec<(u32, u32)> {
    let mut points = Vec::new();
    while let Some(point) = selector.next() {
        points.push(point);
    }
    points
}

#[test]
fn farthest_pixels_come_first() {
    let reference = reds(3, 2, &[5, 200, 7, 90, 0, 60]);
    let current = Canvas::new(3, 2);
    let mut selector = DistancePointSelector::new(&reference, &current, 3);
    assert_eq!(drain(&mut selector), vec![(1, 0), (0, 1), (2, 1)]);
    assert_eq!(selector.next(), None);
}

#[test]
fn a_large_limit_ranks_every_pixel() {
    let reference = reds(3, 2, &[5, 200, 7, 90, 0, 60]);
    let current = Canvas::new(3, 2);
    let mut selector = DistancePointSelector::new(&reference, &current, 100);
    assert_eq!(drain(&mut selector), vec![(1, 0), (0, 1), (2, 1), (2, 0), (0, 0), (1, 1)]);
}

#[test]
fn a_limit_of_nothing_gives_no_point() {
    let reference = reds(2, 1, &[5, 200]);
    let mut selector = DistancePointSelector::new(&reference, &Canvas::new(2, 1), 0);
    assert_eq!(selector.next(), None);
}

#[test]
fn distance_counts_every_colour_channel() {
    let reference = Canvas::from_raw(2, 1, vec![10, 10, 10, 255, 0, 0, 29, 255]).unwrap();
    let current = Canvas::from_raw(2, 1, vec![0, 20, 10, 255, 0, 0, 0, 255]).unwrap();
    let mut selector = DistancePointSelector::new(&reference, &current, 1);
    // The first pixel is 10 + 10 + 0 apart, the second 29.
    assert_eq!(drain(&mut selector), vec![(1, 0)]);
}

#[test]
fn ranked_points_are_all_different_and_never_farther_later() {
    let mut bytes = Vec::new();
    for i in 0..64u32 {
        bytes.extend_from_slice(&[((i * 37) % 11) as u8, ((i * 5) % 3) as u8, 0, 255]);
    }
    let reference = Canvas::from_raw(8, 8, bytes).unwrap();
    let current = Canvas::new(8, 8);
    let mut selector = DistancePointSelector::new(&reference, &current, 20);
    let points = drain(&mut selector);
    assert_eq!(points.len(), 20);
    let delta = |p: &(u32, u32)| {
        let px = reference.get_pixel(p.0, p.1);
        px.r as u32 + px.g as u32 + px.b as u32
    };
    for pair in points.windows(2) {
        assert!(delta(&pair[0]) >= delta(&pair[1]));
    }
    let least = delta(points.last().unwrap());
    for y in 0..8 {
        for x in 0..8 {
            let listed = points.iter().filter(|p| **p == (x, y)).count();
            assert!(listed <= 1);
            assert!(listed == 1 || delta(&(x, y)) <= least);
        }
    }
}
