use sediment::canvas::{Canvas, OpenError};
use sediment::circle::Circle;
use sediment::color::Rgba;
use sediment::region::Region;

const BLACK: Rgba = Rgba { r: 0, g: 0, b: 0, a: 255 };
const RED: Rgba = Rgba { r: 255, g: 0, b: 0, a: 255 };

fn all_opaque(canvas: &Canvas) -> bool {
    canvas.as_bytes().chunks(4).all(|p| p[3] == 255)
}

fn solid(width: u32, height: u32, color: [u8; 3]) -> Canvas {
    let mut bytes = Vec::new();
    for _ in 0..(width * height) {
        bytes.extend_from_slice(&[color[0], color[1], color[2], 255]);
    }
    Canvas::from_raw(width, height, bytes).unwrap()
}

/// A canvas whose pixel (x, y) is (x, y, x + y).
fn gradient(width: u32, height: u32) -> Canvas {
    let mut bytes = Vec::new();
    for y in 0..height {
        for x in 0..width {
            bytes.extend_from_slice(&[x as u8, y as u8, (x + y) as u8, 255]);
        }
    }
    Canvas::from_raw(width, height, bytes).unwrap()
}

#[test]
fn new_canvas_is_opaque_black() {
    let c = Canvas::new(3, 2);
    assert_eq!((c.width(), c.height()), (3, 2));
    assert_eq!((c.center_x(), c.center_y()), (0, 0));
    assert_eq!(c.as_bytes().len(), 24);
    for y in 0..2 {
        for x in 0..3 {
            assert_eq!(c.get_pixel(x, y), BLACK);
        }
    }
    assert_eq!(c.value(), 0);
}

#[test]
fn empty_canvas_has_no_bytes() {
    let c = Canvas::new(0, 5);
    assert_eq!(c.as_bytes().len(), 0);
    assert_eq!(c.value(), 0);
    assert!(c.is_equal(&Canvas::new(0, 5)));
    assert!(!c.is_equal(&Canvas::new(5, 0)));
}

#[test]
fn can_hold_tells_the_sizes_that_fit() {
    assert!(Canvas::can_hold(0, 0));
    assert!(Canvas::can_hold(4000, 3000));
    assert!(!Canvas::can_hold(u32::MAX, 1));
    assert!(!Canvas::can_hold(1, 2_147_483_648));
    assert!(!Canvas::can_hold(2_147_483_647, 2_147_483_647));
}

#[test]
fn from_raw_wants_four_bytes_a_pixel() {
    assert!(Canvas::from_raw(2, 2, vec![0; 16]).is_some());
    assert!(Canvas::from_raw(2, 2, vec![0; 15]).is_none());
    assert!(Canvas::from_raw(2, 2, vec![0; 17]).is_none());
    assert!(Canvas::from_raw(u32::MAX, 1, vec![]).is_none());
}

#[test]
fn from_raw_makes_every_pixel_opaque() {
    let c = Canvas::from_raw(2, 1, vec![1, 2, 3, 4, 5, 6, 7, 0]).unwrap();
    assert_eq!(c.as_bytes(), &vec![1, 2, 3, 255, 5, 6, 7, 255]);
    assert_eq!(c.get_pixel(1, 0), Rgba { r: 5, g: 6, b: 7, a: 255 });
    assert_eq!((c.center_x(), c.center_y()), (1, 0));
}

#[test]
fn value_sums_red_green_and_blue() {
    let c = Canvas::from_raw(2, 1, vec![1, 2, 3, 255, 10, 20, 30, 255]).unwrap();
    assert_eq!(c.value(), 66);
    assert_eq!(solid(2, 2, [255, 0, 0]).value(), 1020);
}

#[test]
fn pixel_delta_ignores_alpha() {
    let a = Rgba { r: 10, g: 200, b: 0, a: 0 };
    let b = Rgba { r: 20, g: 100, b: 255, a: 255 };
    assert_eq!(Canvas::pixel_delta(a, b), 10 + 100 + 255);
    assert_eq!(Canvas::pixel_delta(b, a), 365);
    assert_eq!(Canvas::pixel_delta(a, a), 0);
    assert_eq!(Canvas::byte_delta(3, 250), 247);
    assert_eq!(Canvas::byte_delta(250, 3), 247);
}

#[test]
fn delta_is_zero_on_itself_symmetric_and_tells_equality() {
    let a = gradient(4, 3);
    let mut b = gradient(4, 3);
    assert_eq!(a.delta(&a), 0);
    assert_eq!(a.delta(&b), 0);
    assert!(a.is_equal(&b));

    b.draw_circle(&Circle { x: 1, y: 1, radius: 0, r: 9, g: 9, b: 9 });
    // Pixel (1, 1) was (1, 1, 2).
    assert_eq!(a.delta(&b), 8 + 8 + 7);
    assert_eq!(b.delta(&a), 23);
    assert!(!a.is_equal(&b));
    assert!(!b.is_equal(&a));
}

#[test]
fn delta_of_black_and_red() {
    let black = Canvas::new(2, 2);
    let red = solid(2, 2, [255, 0, 0]);
    assert_eq!(black.delta(&red), 1020);
}

#[test]
fn draw_circle_of_radius_one_is_a_plus() {
    let mut c = Canvas::new(5, 5);
    c.draw_circle(&Circle { x: 2, y: 2, radius: 1, r: 255, g: 0, b: 0 });
    for y in 0..5i32 {
        for x in 0..5i32 {
            let inside = (x - 2).abs() + (y - 2).abs() <= 1;
            let expected = if inside { RED } else { BLACK };
            assert_eq!(c.get_pixel(x as u32, y as u32), expected, "at {} {}", x, y);
        }
    }
    assert!(all_opaque(&c));
}

#[test]
fn draw_circle_of_radius_zero_is_one_pixel() {
    let mut c = Canvas::new(3, 3);
    c.draw_circle(&Circle { x: 1, y: 1, radius: 0, r: 1, g: 2, b: 3 });
    assert_eq!(c.value(), 6);
    assert_eq!(c.get_pixel(1, 1), Rgba { r: 1, g: 2, b: 3, a: 255 });
}

#[test]
fn draw_circle_at_the_corner_paints_one_quadrant() {
    let mut c = Canvas::new(100, 100);
    c.draw_circle(&Circle { x: 0, y: 0, radius: 10, r: 255, g: 0, b: 0 });
    assert_eq!(c.get_pixel(0, 0), RED);
    assert_eq!(c.get_pixel(10, 0), RED);
    assert_eq!(c.get_pixel(0, 10), RED);
    assert_eq!(c.get_pixel(11, 0), BLACK);
    assert_eq!(c.get_pixel(0, 11), BLACK);
    assert_eq!(c.get_pixel(10, 10), BLACK);
    assert_eq!(c.get_pixel(99, 99), BLACK);
    assert!(all_opaque(&c));
}

#[test]
fn draw_circle_beyond_the_canvas_changes_nothing() {
    let mut c = gradient(4, 4);
    c.draw_circle(&Circle { x: 50, y: 50, radius: 3, r: 255, g: 255, b: 255 });
    assert!(c.is_equal(&gradient(4, 4)));
    let mut empty = Canvas::new(0, 0);
    empty.draw_circle(&Circle { x: 0, y: 0, radius: 3, r: 255, g: 255, b: 255 });
    assert_eq!(empty.as_bytes().len(), 0);
}

#[test]
fn the_same_disc_is_drawn_wherever_the_centre_lies() {
    let mut a = Canvas::new(40, 40);
    let mut b = Canvas::new(40, 40);
    a.draw_circle(&Circle { x: 10, y: 12, radius: 7, r: 1, g: 1, b: 1 });
    b.draw_circle(&Circle { x: 25, y: 20, radius: 7, r: 1, g: 1, b: 1 });
    for dy in -8i32..=8 {
        for dx in -8i32..=8 {
            assert_eq!(
                a.get_pixel((10 + dx) as u32, (12 + dy) as u32),
                b.get_pixel((25 + dx) as u32, (20 + dy) as u32)
            );
        }
    }
}

#[test]
fn section_copies_the_clipped_rectangle() {
    let c = gradient(10, 8);
    let crop = c.section(&Region::new(4, 3, 2));
    assert_eq!((crop.width(), crop.height()), (4, 4));
    assert_eq!((crop.center_x(), crop.center_y()), (2, 2));
    for y in 0..4 {
        for x in 0..4 {
            assert_eq!(crop.get_pixel(x, y), c.get_pixel(2 + x, 1 + y));
        }
    }
    assert!(all_opaque(&crop));
}

#[test]
fn section_is_clipped_at_the_origin_and_at_the_far_edge() {
    let c = gradient(10, 8);
    let near = c.section(&Region::new(1, 0, 3));
    assert_eq!((near.width(), near.height()), (4, 3));
    assert_eq!((near.center_x(), near.center_y()), (1, 0));
    assert_eq!(near.get_pixel(3, 2), c.get_pixel(3, 2));

    let far = c.section(&Region::new(9, 7, 3));
    assert_eq!((far.width(), far.height()), (4, 4));
    assert_eq!((far.center_x(), far.center_y()), (3, 3));
    assert_eq!(far.get_pixel(0, 0), c.get_pixel(6, 4));
    assert_eq!(far.get_pixel(3, 3), c.get_pixel(9, 7));
}

#[test]
fn section_at_the_last_pixel_is_radius_plus_one_or_the_canvas() {
    let small = Canvas::new(2, 2).section(&Region::new(1, 1, 1));
    assert_eq!((small.width(), small.height()), (2, 2));
    let c = Canvas::new(20, 10);
    let crop = c.section(&Region::new(19, 9, 4));
    assert_eq!((crop.width(), crop.height()), (5, 5));
    let wide = c.section(&Region::new(19, 9, 15));
    assert_eq!((wide.width(), wide.height()), (16, 10));
    let whole = c.section(&Region::new(19, 9, 100));
    assert_eq!((whole.width(), whole.height()), (20, 10));

    let mut drawn = c.section(&Region::new(19, 9, 4));
    let center = Circle { x: 4, y: 4, radius: 4, r: 255, g: 0, b: 0 };
    drawn.draw_circle(&center);
    assert_eq!(drawn.get_pixel(4, 4), RED);
    assert_eq!(drawn.get_pixel(0, 4), RED);
    assert_eq!(drawn.get_pixel(0, 0), BLACK);
    assert_eq!(drawn.as_bytes().len(), 100);
}

#[test]
fn section_beyond_the_canvas_is_empty() {
    let c = gradient(4, 4);
    let crop = c.section(&Region::new(50, 50, 2));
    assert_eq!((crop.width(), crop.height()), (0, 0));
    assert_eq!(crop.as_bytes().len(), 0);
}

#[test]
fn section_is_independent_of_its_source() {
    let c = gradient(6, 6);
    let mut crop = c.section(&Region::new(3, 3, 2));
    crop.draw_circle(&Circle { x: 2, y: 2, radius: 2, r: 0, g: 0, b: 0 });
    assert!(c.is_equal(&gradient(6, 6)));
}

#[test]
fn copy_from_writes_the_rectangle_and_nothing_else() {
    let mut c = Canvas::new(6, 5);
    let patch = solid(2, 3, [255, 0, 0]);
    c.copy_from(&patch, 3, 1);
    for y in 0..5u32 {
        for x in 0..6u32 {
            let inside = (3..5).contains(&x) && (1..4).contains(&y);
            assert_eq!(c.get_pixel(x, y), if inside { RED } else { BLACK });
        }
    }
    assert_eq!((c.width(), c.height()), (6, 5));
}

#[test]
fn copy_from_clips_what_lies_beyond() {
    let mut c = Canvas::new(4, 4);
    c.copy_from(&gradient(3, 3), 2, 3);
    assert_eq!(c.get_pixel(2, 3), Rgba { r: 0, g: 0, b: 0, a: 255 });
    assert_eq!(c.get_pixel(3, 3), Rgba { r: 1, g: 0, b: 1, a: 255 });
    assert_eq!(c.value(), 2);

    let mut d = Canvas::new(4, 4);
    d.copy_from(&solid(3, 3, [9, 9, 9]), 4, 0);
    d.copy_from(&solid(3, 3, [9, 9, 9]), 0, 7);
    assert!(d.is_equal(&Canvas::new(4, 4)));
}

#[test]
fn copy_from_puts_a_section_back_where_it_was_cut() {
    let source = gradient(9, 9);
    let region = Region::new(2, 6, 3);
    let crop = source.section(&region);
    let mut target = Canvas::new(9, 9);
    target.copy_from(&crop, region.real_origin_x(), region.real_origin_y());
    for y in 0..9u32 {
        for x in 0..9u32 {
            let inside = x < 5 && (3..9).contains(&y);
            let expected = if inside { source.get_pixel(x, y) } else { BLACK };
            assert_eq!(target.get_pixel(x, y), expected);
        }
    }
}

#[test]
fn a_blit_changes_the_delta_by_the_change_inside_the_rectangle() {
    let reference = gradient(12, 12);
    let mut current = Canvas::new(12, 12);
    let before = reference.delta(&current);
    let region = Region::new(5, 6, 3);
    let reference_crop = reference.section(&region);
    let current_crop = current.section(&region);
    let mut candidate = current_crop.clone();
    candidate.draw_circle(&Circle { x: 3, y: 3, radius: 3, r: 5, g: 6, b: 11 });
    let inside_before = reference_crop.delta(&current_crop);
    let inside_after = reference_crop.delta(&candidate);
    current.copy_from(&candidate, region.real_origin_x(), region.real_origin_y());
    assert_eq!(reference.delta(&current), before - inside_before + inside_after);
}

#[test]
fn clone_is_equal_and_independent() {
    let a = gradient(3, 3);
    let mut b = a.clone();
    assert!(a.is_equal(&b));
    b.draw_circle(&Circle { x: 0, y: 0, radius: 0, r: 200, g: 0, b: 0 });
    assert!(!a.is_equal(&b));
}

fn png_of(width: u32, height: u32, raw: Vec<u8>) -> Vec<u8> {
    let buffer = image::RgbaImage::from_raw(width, height, raw).unwrap();
    let mut bytes = std::io::Cursor::new(Vec::new());
    image::DynamicImage::ImageRgba8(buffer)
        .write_to(&mut bytes, image::ImageOutputFormat::Png)
        .unwrap();
    bytes.into_inner()
}

#[test]
fn open_decodes_an_image_and_makes_it_opaque() {
    let raw = vec![1, 2, 3, 255, 4, 5, 6, 10, 7, 8, 9, 0, 10, 11, 12, 128, 13, 14, 15, 255, 16, 17, 18, 255];
    let canvas = Canvas::open(&png_of(3, 2, raw)).unwrap();
    assert_eq!((canvas.width(), canvas.height()), (3, 2));
    assert_eq!((canvas.center_x(), canvas.center_y()), (1, 1));
    assert_eq!(canvas.get_pixel(0, 0), Rgba { r: 1, g: 2, b: 3, a: 255 });
    assert_eq!(canvas.get_pixel(1, 0), Rgba { r: 4, g: 5, b: 6, a: 255 });
    assert_eq!(canvas.get_pixel(2, 1), Rgba { r: 16, g: 17, b: 18, a: 255 });
    assert!(all_opaque(&canvas));
}

#[test]
fn open_fails_on_bytes_that_are_no_image() {
    match Canvas::open(b"x,y,radius,r,g,b\n") {
        Err(OpenError::Decode(text)) => assert!(!text.is_empty()),
        _ => panic!("decoded what is no image"),
    }
    assert!(matches!(Canvas::open(&[]), Err(OpenError::Decode(_))));
    let mut cut = png_of(2, 2, vec![7; 16]);
    cut.truncate(20);
    assert!(matches!(Canvas::open(&cut), Err(OpenError::Decode(_))));
}
