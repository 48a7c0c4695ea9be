use sediment::canvas::Canvas;
use sediment::circle::Circle;
use sediment::color::Rgba;
use sediment::persistence::ParseError;
use sediment::render::{Render, RenderConfig};

const BLACK: Rgba = Rgba { r: 0, g: 0, b: 0, a: 255 };

fn circle(x: u32, y: u32, radius: u32, r: u8, g: u8, b: u8) -> Circle {
    Circle { x, y, radius, r, g, b }
}

#[test]
fn image_size_is_the_farthest_reach() {
    let circles = vec![circle(5, 5, 3, 0, 0, 0), circle(1, 20, 2, 0, 0, 0), circle(9, 0, 0, 0, 0, 0)];
    assert_eq!(Render::image_width(&circles), 9);
    assert_eq!(Render::image_height(&circles), 22);
    assert_eq!(Render::image_width(&[]), 0);
    assert_eq!(Render::image_height(&[]), 0);
}

#[test]
fn hex_color_is_lower_case_with_two_digits_a_channel() {
    assert_eq!(Render::hex_color(&circle(0, 0, 0, 10, 243, 194)), "#0af3c2");
    assert_eq!(Render::hex_color(&circle(0, 0, 0, 0, 0, 0)), "#000000");
    assert_eq!(Render::hex_color(&circle(0, 0, 0, 255, 255, 255)), "#ffffff");
    assert_eq!(Render::hex_color(&circle(0, 0, 0, 1, 16, 159)), "#01109f");
}

#[test]
fn svg_of_one_circle() {
    let svg = Render::render_svg(&[circle(5, 5, 3, 0, 255, 0)]);
    assert!(svg.starts_with("<svg id=\"sedimentSvg\""));
    assert_eq!(svg.matches("<circle").count(), 1);
    assert_eq!(svg.matches("<circle cx=\"5\" cy=\"5\" r=\"3\" fill=\"#00ff00\" />").count(), 1);
    assert!(svg.contains("viewBox=\"0 0 8 8\""));
    assert_eq!(
        svg,
        "<svg id=\"sedimentSvg\" overflow=\"hidden\" viewBox=\"0 0 8 8\" preserveAspectRatio=\"xMidYMid meet\" xmlns=\"http://www.w3.org/2000/svg\">\n\t<circle cx=\"5\" cy=\"5\" r=\"3\" fill=\"#00ff00\" />\n</svg>"
    );
}

#[test]
fn svg_keeps_the_order_of_the_circles() {
    let svg = Render::render_svg(&[circle(100, 20, 30, 255, 0, 0), circle(4, 1000, 0, 0, 0, 171)]);
    assert_eq!(
        svg,
        "<svg id=\"sedimentSvg\" overflow=\"hidden\" viewBox=\"0 0 130 1000\" preserveAspectRatio=\"xMidYMid meet\" xmlns=\"http://www.w3.org/2000/svg\">\n\t<circle cx=\"100\" cy=\"20\" r=\"30\" fill=\"#ff0000\" />\n\t<circle cx=\"4\" cy=\"1000\" r=\"0\" fill=\"#0000ab\" />\n</svg>"
    );
}

#[test]
fn svg_of_no_circle_is_an_empty_root() {
    assert_eq!(
        Render::render_svg(&[]),
        "<svg id=\"sedimentSvg\" overflow=\"hidden\" viewBox=\"0 0 0 0\" preserveAspectRatio=\"xMidYMid meet\" xmlns=\"http://www.w3.org/2000/svg\">\n</svg>"
    );
}

#[test]
fn raster_of_one_circle_is_its_disc_on_black() {
    let c = circle(5, 5, 3, 0, 255, 0);
    let canvas = Render::render_raster(&[c]);
    assert_eq!((canvas.width(), canvas.height()), (8, 8));
    // The rows of the disc of radius three reach 3, 3, 2 and 1 from the centre.
    let reach = [3i32, 3, 2, 1];
    for y in 0..8i32 {
        for x in 0..8i32 {
            let (dx, dy) = ((x - 5).abs(), (y - 5).abs());
            let inside = dy <= 3 && dx <= reach[dy as usize];
            let expected = if inside { Rgba { r: 0, g: 255, b: 0, a: 255 } } else { BLACK };
            assert_eq!(canvas.get_pixel(x as u32, y as u32), expected, "at {} {}", x, y);
        }
    }
}

#[test]
fn later_circles_lie_over_earlier_ones() {
    let red = circle(4, 4, 3, 255, 0, 0);
    let blue = circle(6, 4, 1, 0, 0, 255);
    let canvas = Render::render_raster(&[red, blue]);
    assert_eq!(canvas.get_pixel(6, 4), Rgba { r: 0, g: 0, b: 255, a: 255 });
    assert_eq!(canvas.get_pixel(4, 4), Rgba { r: 255, g: 0, b: 0, a: 255 });
    let other = Render::render_raster(&[blue, red]);
    assert_eq!(other.get_pixel(6, 4), Rgba { r: 255, g: 0, b: 0, a: 255 });
    assert!(canvas.as_bytes().chunks(4).all(|p| p[3] == 255));
}

#[test]
fn raster_is_built_from_an_empty_canvas_circle_by_circle() {
    let circles = vec![circle(3, 3, 2, 9, 8, 7), circle(2, 4, 1, 1, 2, 3)];
    let mut canvas = Render::create_empty_canvas(&circles);
    assert!(canvas.is_equal(&Canvas::new(5, 5)));
    Render::add_raster_circle(&mut canvas, &circles[0]);
    Render::add_raster_circle(&mut canvas, &circles[1]);
    assert!(canvas.is_equal(&Render::render_raster(&circles)));
}

#[test]
fn raster_of_no_circle_is_empty() {
    let canvas = Render::render_raster(&[]);
    assert_eq!((canvas.width(), canvas.height()), (0, 0));
}

#[test]
fn can_render_tells_what_can_be_drawn() {
    assert!(Render::can_render(&[]));
    assert!(Render::can_render(&[circle(5, 5, 3, 0, 0, 0)]));
    assert!(!Render::can_render(&[circle(5, 5, 3, 0, 0, 0), circle(16_777_216, 5, 1, 0, 0, 0)]));
    assert!(!Render::can_render(&[circle(u32::MAX, u32::MAX, u32::MAX, 0, 0, 0)]));
}

fn config(svg: bool, png: bool) -> RenderConfig {
    RenderConfig {
        input: "circles.csv".to_string(),
        svg: if svg { Some("out.svg".to_string()) } else { None },
        png: if png { Some("out.png".to_string()) } else { None },
    }
}

#[test]
fn render_reads_the_list_and_fails_as_parsing_does() {
    let render = Render::new(config(true, true), b"x,y,radius,r,g,b\n1,2,3,4,5,6\n");
    assert_eq!(render.ok().unwrap().circles(), &vec![circle(1, 2, 3, 4, 5, 6)]);
    assert_eq!(Render::new(config(true, true), b"x,y\n").err(), Some(ParseError::Header));
    assert_eq!(Render::new(config(true, true), b"x,y,radius,r,g,b\n1\n").err(), Some(ParseError::Columns));
    assert_eq!(Render::new(config(true, true), b"x,y,radius,r,g,b\n1,2,3,4,5,z\n").err(), Some(ParseError::Number));
}

#[test]
fn run_renders_the_pruned_list_in_the_forms_asked_for() {
    let text = b"x,y,radius,r,g,b\n10,10,5,255,0,0\n10,10,5,0,255,0\n";
    let both = Render::new(config(true, true), text).ok().unwrap().run();
    let kept = [circle(10, 10, 5, 0, 255, 0)];
    assert_eq!(both.svg, Some(Render::render_svg(&kept)));
    assert!(both.png.unwrap().is_equal(&Render::render_raster(&kept)));

    let svg_only = Render::new(config(true, false), text).ok().unwrap().run();
    assert!(svg_only.svg.is_some() && svg_only.png.is_none());
    let png_only = Render::new(config(false, true), text).ok().unwrap().run();
    assert!(png_only.svg.is_none() && png_only.png.is_some());
    let neither = Render::new(config(false, false), text).ok().unwrap().run();
    assert!(neither.svg.is_none() && neither.png.is_none());
}
