//! Rendering a list of circles: as a raster, by drawing them in order, and
//! as an SVG document.

use crate::canvas::{
    beyond_square, blank, disc_covers, lemma_offset_in_bounds, lemma_painted_pixel, painted, pixel_of, Canvas,
    MAX_DRAW_COORDINATE,
};
use crate::circle::Circle;
use crate::color::Rgba;
use crate::optimizer::{lemma_pruned_renderable, pruned, Optimizer};
use crate::persistence::{parse, parse_text, ParseError};
use crate::text::{
    append_decimal, append_hex_byte, as_chars, decimal, hex_byte,
};
use vstd::prelude::*;
use vstd::string::*;

verus! {

/// The larger of two numbers.
pub open spec fn larger(a: int, b: int) -> int {
    if a >= b {
        a
    } else {
        b
    }
}

/// The width of the image of a list of circles: as far right as the
/// farthest of them reaches.
pub open spec fn spec_image_width(circles: Seq<Circle>) -> int
    decreases circles.len(),
{
    if circles.len() == 0 {
        0
    } else {
        larger(
            spec_image_width(circles.drop_last()),
            circles.last().x + circles.last().radius,
        )
    }
}

/// The height of the image of a list of circles: as far down as the
/// farthest of them reaches.
pub open spec fn spec_image_height(circles: Seq<Circle>) -> int
    decreases circles.len(),
{
    if circles.len() == 0 {
        0
    } else {
        larger(
            spec_image_height(circles.drop_last()),
            circles.last().y + circles.last().radius,
        )
    }
}

/// Every circle of the list can be drawn.
pub open spec fn all_drawable(circles: Seq<Circle>) -> bool {
    forall|i: int| 0 <= i < circles.len() ==> (#[trigger] circles[i]).drawable()
}

/// The list can be rendered: every circle can be drawn, and a canvas of the
/// image's size can be made.
pub open spec fn renderable(circles: Seq<Circle>) -> bool {
    &&& all_drawable(circles)
    &&& Canvas::fits(spec_image_width(circles) as u32, spec_image_height(circles) as u32)
}

/// The buffer of a black canvas of the given size on which the circles were
/// drawn in their order.
pub open spec fn rendered(circles: Seq<Circle>, width: int, height: int) -> Seq<u8>
    decreases circles.len(),
{
    if circles.len() == 0 {
        blank(width * height)
    } else {
        let circle = circles.last();
        painted(
            rendered(circles.drop_last(), width, height),
            width,
            circle.x as int,
            circle.y as int,
            circle.radius as int,
            circle.color(),
        )
    }
}

/// The colour that the list gives the pixel `(x, y)`: that of the last
/// circle that covers it, or black where none does.
pub open spec fn top_color(circles: Seq<Circle>, x: int, y: int) -> Rgba
    decreases circles.len(),
{
    if circles.len() == 0 {
        Rgba::black()
    } else if disc_covers(
        circles.last().radius as int,
        x - circles.last().x,
        y - circles.last().y,
    ) {
        circles.last().color()
    } else {
        top_color(circles.drop_last(), x, y)
    }
}

/// No circle of the list reaches `(x, y)`: the point lies beyond the
/// bounding square of each.
pub open spec fn untouched(circles: Seq<Circle>, x: int, y: int) -> bool
    decreases circles.len(),
{
    circles.len() == 0 || (beyond_square(
        circles.last().x as int,
        circles.last().y as int,
        circles.last().radius as int,
        x,
        y,
    ) && untouched(circles.drop_last(), x, y))
}

/// The colour of a circle as SVG writes it: `#` and two hexadecimal digits
/// for each of red, green and blue.
pub open spec fn hex_color_text(circle: Circle) -> Seq<char> {
    seq!['#'] + as_chars(hex_byte(circle.r)) + as_chars(hex_byte(circle.g)) + as_chars(
        hex_byte(circle.b),
    )
}

/// The line of a circle in the SVG document, with the line break before it.
pub open spec fn svg_circle(circle: Circle) -> Seq<char> {
    "\n\t<circle cx=\""@ + as_chars(decimal(circle.x as nat)) + "\" cy=\""@ + as_chars(
        decimal(circle.y as nat),
    ) + "\" r=\""@ + as_chars(decimal(circle.radius as nat)) + "\" fill=\""@ + hex_color_text(
        circle,
    ) + "\" />"@
}

/// The lines of the circles, in their order.
pub open spec fn svg_circles(circles: Seq<Circle>) -> Seq<char>
    decreases circles.len(),
{
    if circles.len() == 0 {
        Seq::empty()
    } else {
        svg_circles(circles.drop_last()) + svg_circle(circles.last())
    }
}

/// The first line of the SVG document of an image of the given size.
pub open spec fn svg_header(width: int, height: int) -> Seq<char> {
    "<svg id=\"sedimentSvg\" overflow=\"hidden\" viewBox=\"0 0 "@ + as_chars(
        decimal(width as nat),
    ) + " "@ + as_chars(decimal(height as nat))
        + "\" preserveAspectRatio=\"xMidYMid meet\" xmlns=\"http://www.w3.org/2000/svg\">"@
}

/// The SVG document of a list of circles: the root's opening tag, a line
/// for each circle in order, and the closing tag.
pub open spec fn svg_text(circles: Seq<Circle>) -> Seq<char> {
    svg_header(spec_image_width(circles), spec_image_height(circles)) + svg_circles(circles)
        + "\n</svg>"@
}

/// Every circle ends within the range of an unsigned 32-bit coordinate.
pub open spec fn in_range(circles: Seq<Circle>) -> bool {
    forall|i: int|
        0 <= i < circles.len() ==> (#[trigger] circles[i]).x + circles[i].radius <= u32::MAX
            && circles[i].y + circles[i].radius <= u32::MAX
}

/// Where a rendering reads its circles and what it is to produce.
#[derive(Debug, Clone)]
pub struct RenderConfig {
    /// The path of the circle list.
    pub input: String,
    /// The path of the SVG document, where one is asked for.
    pub svg: Option<String>,
    /// The path of the raster image, where one is asked for.
    pub png: Option<String>,
}

/// What a rendering has produced.
pub struct Rendering {
    /// The SVG document, where one was asked for.
    pub svg: Option<String>,
    /// The raster, where one was asked for.
    pub png: Option<Canvas>,
}

/// Renders a list of circles.
pub struct Render {
    config: RenderConfig,
    circles: Vec<Circle>,
}

impl Render {
    pub closed spec fn spec_config(&self) -> RenderConfig {
        self.config
    }

    pub closed spec fn spec_circles(&self) -> Seq<Circle> {
        self.circles@
    }

    /// A rendering of the circle list that the text holds.
    pub fn new(config: RenderConfig, text: &[u8]) -> (made: Result<Render, ParseError>)
        ensures
            match made {
                Ok(render) => {
                    &&& parse_text(text@) == Ok::<Seq<Circle>, ParseError>(render.spec_circles())
                    &&& render.spec_config() == config
                },
                Err(error) => parse_text(text@) == Err::<Seq<Circle>, ParseError>(error),
            },
    {
        match parse(text) {
            Ok(circles) => Ok(Render { config, circles }),
            Err(error) => Err(error),
        }
    }

    /// The circles of the list.
    pub fn circles(&self) -> (circles: &Vec<Circle>)
        ensures
            circles@ == self.spec_circles(),
    {
        &self.circles
    }

    /// Prunes the list and renders what is left, in each form that the
    /// configuration names a path for.
    pub fn run(&self) -> (rendering: Rendering)
        requires
            renderable(self.spec_circles()),
        ensures
            match rendering.svg {
                Some(svg) => self.spec_config().svg.is_some() && svg@ == svg_text(
                    pruned(self.spec_circles()),
                ),
                None => self.spec_config().svg.is_none(),
            },
            match rendering.png {
                Some(canvas) => {
                    &&& self.spec_config().png.is_some()
                    &&& canvas.wf()
                    &&& canvas.spec_width() == spec_image_width(pruned(self.spec_circles()))
                    &&& canvas.spec_height() == spec_image_height(pruned(self.spec_circles()))
                    &&& canvas@ == rendered(
                        pruned(self.spec_circles()),
                        spec_image_width(pruned(self.spec_circles())),
                        spec_image_height(pruned(self.spec_circles())),
                    )
                },
                None => self.spec_config().png.is_none(),
            },
    {
        let optimizer = Optimizer::new(copy_of(&self.circles));
        let pruned_circles = optimizer.prune();
        proof {
            lemma_pruned_renderable(self.circles@);
            lemma_image_size(pruned_circles@);
        }
        let svg = if self.config.svg.is_some() {
            Some(Self::render_svg(pruned_circles.as_slice()))
        } else {
            None
        };
        let png = if self.config.png.is_some() {
            Some(Self::render_raster(pruned_circles.as_slice()))
        } else {
            None
        };
        Rendering { svg, png }
    }

    /// The width of the image of the circles.
    pub fn image_width(circles: &[Circle]) -> (width: u32)
        requires
            in_range(circles@),
        ensures
            width == spec_image_width(circles@),
    {
        let mut max: u32 = 0;
        let mut i: usize = 0;
        while i < circles.len()
            invariant
                i <= circles@.len(),
                in_range(circles@),
                max == spec_image_width(circles@.take(i as int)),
            decreases circles@.len() - i,
        {
            assert(circles@.take(i + 1).drop_last() =~= circles@.take(i as int));
            let c = &circles[i];
            let new_x: u32 = c.x + c.radius;
            if new_x > max {
                max = new_x;
            }
            i = i + 1;
        }
        assert(circles@.take(circles@.len() as int) =~= circles@);
        max
    }

    /// The height of the image of the circles.
    pub fn image_height(circles: &[Circle]) -> (height: u32)
        requires
            in_range(circles@),
        ensures
            height == spec_image_height(circles@),
    {
        let mut max: u32 = 0;
        let mut i: usize = 0;
        while i < circles.len()
            invariant
                i <= circles@.len(),
                in_range(circles@),
                max == spec_image_height(circles@.take(i as int)),
            decreases circles@.len() - i,
        {
            assert(circles@.take(i + 1).drop_last() =~= circles@.take(i as int));
            let c = &circles[i];
            let new_y: u32 = c.y + c.radius;
            if new_y > max {
                max = new_y;
            }
            i = i + 1;
        }
        assert(circles@.take(circles@.len() as int) =~= circles@);
        max
    }

    /// The colour of a circle as SVG writes it.
    pub fn hex_color(circle: &Circle) -> (text: String)
        ensures
            text@ == hex_color_text(*circle),
    {
        let mut text = String::new();
        proof {
            reveal_strlit("#");
        }
        text.append("#");
        append_hex_byte(&mut text, circle.r);
        append_hex_byte(&mut text, circle.g);
        append_hex_byte(&mut text, circle.b);
        assert(text@ =~= hex_color_text(*circle));
        text
    }

    /// Whether the list can be rendered as a raster.
    pub fn can_render(circles: &[Circle]) -> (can: bool)
        ensures
            can == renderable(circles@),
    {
        let mut i: usize = 0;
        while i < circles.len()
            invariant
                i <= circles@.len(),
                forall|k: int| 0 <= k < i ==> (#[trigger] circles@[k]).drawable(),
            decreases circles@.len() - i,
        {
            if !circles[i].is_drawable() {
                return false;
            }
            i = i + 1;
        }
        Canvas::can_hold(Self::image_width(circles), Self::image_height(circles))
    }

    /// The SVG document of the circles: one root, and a circle element for
    /// each circle, in order, so that later circles lie over earlier ones.
    pub fn render_svg(circles: &[Circle]) -> (svg: String)
        requires
            in_range(circles@),
        ensures
            svg@ == svg_text(circles@),
    {
        let width: u32 = Self::image_width(circles);
        let height: u32 = Self::image_height(circles);

        let mut output = String::new();
        output.append("<svg id=\"sedimentSvg\" overflow=\"hidden\" viewBox=\"0 0 ");
        append_decimal(&mut output, width);
        output.append(" ");
        append_decimal(&mut output, height);
        output.append(
            "\" preserveAspectRatio=\"xMidYMid meet\" xmlns=\"http://www.w3.org/2000/svg\">",
        );
        assert(output@ =~= svg_header(width as int, height as int));

        let mut i: usize = 0;
        while i < circles.len()
            invariant
                i <= circles@.len(),
                output@ == svg_header(width as int, height as int) + svg_circles(
                    circles@.take(i as int),
                ),
            decreases circles@.len() - i,
        {
            assert(circles@.take(i + 1).drop_last() =~= circles@.take(i as int));
            let c = &circles[i];
            let ghost before = output@;
            output.append("\n\t<circle cx=\"");
            append_decimal(&mut output, c.x);
            output.append("\" cy=\"");
            append_decimal(&mut output, c.y);
            output.append("\" r=\"");
            append_decimal(&mut output, c.radius);
            output.append("\" fill=\"");
            let color = Self::hex_color(c);
            output.append(color.as_str());
            output.append("\" />");
            assert(output@ =~= before + svg_circle(*c));
            assert(output@ =~= svg_header(width as int, height as int) + svg_circles(
                circles@.take(i + 1),
            ));
            i = i + 1;
        }
        assert(circles@.take(circles@.len() as int) =~= circles@);
        output.append("\n</svg>");
        output
    }

    /// The raster of the circles: a black canvas of the image's size on
    /// which each circle is drawn in order, so that later circles lie over
    /// earlier ones.
    pub fn render_raster(circles: &[Circle]) -> (canvas: Canvas)
        requires
            renderable(circles@),
        ensures
            canvas.wf(),
            canvas.spec_width() == spec_image_width(circles@),
            canvas.spec_height() == spec_image_height(circles@),
            canvas@ == rendered(
                circles@,
                spec_image_width(circles@),
                spec_image_height(circles@),
            ),
            forall|x: int, y: int|
                canvas.contains(x, y) ==> #[trigger] canvas.pixel(x, y) == top_color(
                    circles@,
                    x,
                    y,
                ),
            forall|x: int, y: int|
                canvas.contains(x, y) && untouched(circles@, x, y) ==> #[trigger] canvas.pixel(
                    x,
                    y,
                ) == Rgba::black(),
            circles@.len() > 0 && canvas.contains(
                circles@.last().x as int,
                circles@.last().y as int,
            ) ==> canvas.pixel(circles@.last().x as int, circles@.last().y as int)
                == circles@.last().color(),
    {
        let mut output = Self::create_empty_canvas(circles);
        proof {
            assert forall|x: int, y: int| output.contains(x, y) implies #[trigger] output.pixel(
                x,
                y,
            ) == Rgba::black() by {
                lemma_rendered_pixel(
                    Seq::<Circle>::empty(),
                    spec_image_width(circles@),
                    spec_image_height(circles@),
                    x,
                    y,
                );
            }
        }
        let ghost width = spec_image_width(circles@);
        let ghost height = spec_image_height(circles@);

        let mut i: usize = 0;
        while i < circles.len()
            invariant
                i <= circles@.len(),
                all_drawable(circles@),
                output.wf(),
                output.spec_width() == width,
                output.spec_height() == height,
                output@ == rendered(circles@.take(i as int), width, height),
                forall|x: int, y: int|
                    output.contains(x, y) && untouched(circles@.take(i as int), x, y)
                        ==> #[trigger] output.pixel(x, y) == Rgba::black(),
                i > 0 && output.contains(circles@[i - 1].x as int, circles@[i - 1].y as int)
                    ==> output.pixel(circles@[i - 1].x as int, circles@[i - 1].y as int)
                    == circles@[i - 1].color(),
            decreases circles@.len() - i,
        {
            assert(circles@.take(i + 1).drop_last() =~= circles@.take(i as int));
            assert(circles@.take(i + 1).last() == circles@[i as int]);
            let ghost before = output;
            Self::add_raster_circle(&mut output, &circles[i]);
            proof {
                assert forall|x: int, y: int|
                    output.contains(x, y) && untouched(
                        circles@.take(i + 1),
                        x,
                        y,
                    ) implies #[trigger] output.pixel(x, y) == Rgba::black() by {
                    assert(before.contains(x, y));
                    assert(untouched(circles@.take(i as int), x, y));
                    assert(before.pixel(x, y) == Rgba::black());
                }
            }
            i = i + 1;
        }
        assert(circles@.take(circles@.len() as int) =~= circles@);
        assert forall|x: int, y: int| output.contains(x, y) implies #[trigger] output.pixel(x, y)
            == top_color(circles@, x, y) by {
            lemma_rendered_pixel(circles@, width, height, x, y);
        }
        output
    }

    /// A black canvas of the size of the circles' image.
    pub fn create_empty_canvas(circles: &[Circle]) -> (canvas: Canvas)
        requires
            renderable(circles@),
        ensures
            canvas.wf(),
            canvas.spec_width() == spec_image_width(circles@),
            canvas.spec_height() == spec_image_height(circles@),
            canvas@ == blank(spec_image_width(circles@) * spec_image_height(circles@)),
    {
        proof {
            lemma_image_size(circles@);
        }
        let width: u32 = Self::image_width(circles);
        let height: u32 = Self::image_height(circles);
        Canvas::new(width, height)
    }

    /// Draws one circle over what the canvas holds.
    pub fn add_raster_circle(canvas: &mut Canvas, circle: &Circle)
        requires
            old(canvas).wf(),
            circle.drawable(),
        ensures
            final(canvas).wf(),
            final(canvas).spec_width() == old(canvas).spec_width(),
            final(canvas).spec_height() == old(canvas).spec_height(),
            final(canvas)@ == painted(
                old(canvas)@,
                old(canvas).spec_width() as int,
                circle.x as int,
                circle.y as int,
                circle.radius as int,
                circle.color(),
            ),
            forall|x: int, y: int|
                final(canvas).contains(x, y) && beyond_square(
                    circle.x as int,
                    circle.y as int,
                    circle.radius as int,
                    x,
                    y,
                ) ==> #[trigger] final(canvas).pixel(x, y) == old(canvas).pixel(x, y),
            final(canvas).contains(circle.x as int, circle.y as int) ==> final(canvas).pixel(
                circle.x as int,
                circle.y as int,
            ) == circle.color(),
    {
        canvas.draw_circle(circle);
    }
}

/// A copy of a list of circles.
fn copy_of(circles: &Vec<Circle>) -> (copy: Vec<Circle>)
    ensures
        copy@ == circles@,
{
    let mut copy: Vec<Circle> = Vec::new();
    let mut i: usize = 0;
    while i < circles.len()
        invariant
            i <= circles@.len(),
            copy@ == circles@.take(i as int),
        decreases circles@.len() - i,
    {
        copy.push(circles[i]);
        assert(copy@ =~= circles@.take(i + 1));
        i = i + 1;
    }
    assert(circles@.take(circles@.len() as int) =~= circles@);
    copy
}

/// The image of circles that can be drawn ends within the range in which
/// they can be drawn, and it reaches as far as each of them.
pub proof fn lemma_image_size(circles: Seq<Circle>)
    requires
        all_drawable(circles),
    ensures
        in_range(circles),
        0 <= spec_image_width(circles) <= MAX_DRAW_COORDINATE,
        0 <= spec_image_height(circles) <= MAX_DRAW_COORDINATE,
        forall|i: int|
            0 <= i < circles.len() ==> (#[trigger] circles[i]).x + circles[i].radius
                <= spec_image_width(circles) && circles[i].y + circles[i].radius
                <= spec_image_height(circles),
    decreases circles.len(),
{
    if circles.len() > 0 {
        let rest = circles.drop_last();
        assert forall|i: int| 0 <= i < rest.len() implies (#[trigger] rest[i]).drawable() by {
            assert(rest[i] == circles[i]);
        }
        lemma_image_size(rest);
        assert(circles.last() == circles[circles.len() - 1]);
        assert forall|i: int| 0 <= i < circles.len() implies (#[trigger] circles[i]).x
            + circles[i].radius <= spec_image_width(circles) && circles[i].y + circles[i].radius
            <= spec_image_height(circles) by {
            if i < rest.len() {
                assert(rest[i] == circles[i]);
            }
        }
    }
}

/// A rendered buffer has four bytes for each pixel of the image.
pub proof fn lemma_rendered_len(circles: Seq<Circle>, width: int, height: int)
    requires
        0 <= width,
        0 <= height,
    ensures
        rendered(circles, width, height).len() == 4 * (width * height),
    decreases circles.len(),
{
    if circles.len() > 0 {
        lemma_rendered_len(circles.drop_last(), width, height);
    } else {
        assert(0 <= width * height) by (nonlinear_arith)
            requires
                0 <= width,
                0 <= height,
        ;
    }
}

/// The painter's rule: each pixel of a rendered image has the colour of the
/// last circle of the list that covers it, and is black where none does.
pub proof fn lemma_rendered_pixel(circles: Seq<Circle>, width: int, height: int, x: int, y: int)
    requires
        0 <= x < width,
        0 <= y < height,
    ensures
        pixel_of(rendered(circles, width, height), width, x, y) == top_color(circles, x, y),
    decreases circles.len(),
{
    lemma_offset_in_bounds(width, height, x, y);
    if circles.len() > 0 {
        let circle = circles.last();
        lemma_rendered_pixel(circles.drop_last(), width, height, x, y);
        lemma_rendered_len(circles.drop_last(), width, height);
        lemma_painted_pixel(
            rendered(circles.drop_last(), width, height),
            width,
            height,
            circle.x as int,
            circle.y as int,
            circle.radius as int,
            circle.color(),
            x,
            y,
        );
    }
}

/// The image of a single circle: the pixels that the circle covers have its
/// colour, and all the others are opaque black.
pub proof fn lemma_single_circle(circle: Circle, x: int, y: int)
    requires
        0 <= x < circle.x + circle.radius,
        0 <= y < circle.y + circle.radius,
    ensures
        pixel_of(
            rendered(
                seq![circle],
                spec_image_width(seq![circle]),
                spec_image_height(seq![circle]),
            ),
            spec_image_width(seq![circle]),
            x,
            y,
        ) == if disc_covers(circle.radius as int, x - circle.x, y - circle.y) {
            circle.color()
        } else {
            Rgba::black()
        },
{
    let circles = seq![circle];
    assert(circles.drop_last() =~= Seq::<Circle>::empty());
    assert(circles.last() == circle);
    assert(spec_image_width(circles.drop_last()) == 0);
    assert(spec_image_height(circles.drop_last()) == 0);
    assert(spec_image_width(circles) == circle.x + circle.radius);
    assert(spec_image_height(circles) == circle.y + circle.radius);
    lemma_rendered_pixel(circles, spec_image_width(circles), spec_image_height(circles), x, y);
    assert(top_color(circles.drop_last(), x, y) == Rgba::black());
}

} // verus!
