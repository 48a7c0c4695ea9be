use sediment::circle::Circle;
use sediment::optimizer::Optimizer;
use sediment::render::Render;

fn circle(x: u32, y: u32, radius: u32, r: u8, g: u8, b: u8) -> Circle {
    Circle { x, y, radius, r, g, b }
}

#[test]
fn prune_drops_a_circle_that_is_painted_over() {
    let red = circle(10, 10, 5, 255, 0, 0);
    let green = circle(10, 10, 5, 0, 255, 0);
    let optimizer = Optimizer::new(vec![red, green]);
    assert_eq!(optimizer.prune(), vec![green]);
    assert!(Render::render_raster(&[green]).is_equal(optimizer.reference()));
}

#[test]
fn test_circle_tells_what_shows() {
    let red = circle(10, 10, 5, 255, 0, 0);
    let green = circle(10, 10, 5, 0, 255, 0);
    let circles = vec![red, green];
    let reference = Render::render_raster(&circles);
    assert!(!Optimizer::test_circle(&reference, &circles, red));
    assert!(Optimizer::test_circle(&reference, &circles, green));
}

#[test]
fn prune_keeps_circles_that_show() {
    let circles = vec![
        circle(10, 10, 8, 255, 0, 0),
        circle(14, 10, 3, 0, 255, 0),
        circle(30, 30, 4, 0, 0, 255),
    ];
    let optimizer = Optimizer::new(circles.clone());
    assert_eq!(optimizer.circles(), &circles);
    assert_eq!(optimizer.prune(), circles);
}

#[test]
fn prune_keeps_the_order_and_the_picture() {
    let circles = vec![
        circle(20, 20, 3, 1, 1, 1),
        circle(20, 20, 10, 255, 0, 0),
        circle(40, 25, 6, 0, 255, 0),
        circle(21, 21, 2, 9, 9, 9),
        circle(40, 25, 9, 0, 0, 255),
        circle(21, 21, 4, 7, 7, 7),
    ];
    let optimizer = Optimizer::new(circles.clone());
    let pruned = optimizer.prune();
    assert_eq!(pruned, vec![circles[1], circles[4], circles[5]]);
    assert!(Render::render_raster(&pruned).is_equal(&Render::render_raster(&circles)));
}

#[test]
fn prune_of_nothing_is_nothing() {
    assert_eq!(Optimizer::new(vec![]).prune(), vec![]);
}

#[test]
fn equal_circles_that_show_are_all_kept() {
    let red = circle(5, 5, 2, 255, 0, 0);
    assert_eq!(Optimizer::new(vec![red, red]).prune(), vec![red, red]);
}
