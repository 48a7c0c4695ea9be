//! Circles and their overlap tests.

use crate::canvas::MAX_DRAW_COORDINATE;
use crate::color::Rgba;
use crate::region::Region;
use vstd::prelude::*;

verus! {

/// A filled, opaque circle: centre, radius and colour.
#[derive(Debug, Copy, Clone, PartialEq, Eq, Structural)]
pub struct Circle {
    pub x: u32,
    pub y: u32,
    pub radius: u32,
    pub r: u8,
    pub g: u8,
    pub b: u8,
}

/// The point of the interval `[low, high]` that is nearest to `c`.
pub open spec fn clamp_to(c: int, low: int, high: int) -> int {
    if c < low {
        low
    } else if c > high {
        high
    } else {
        c
    }
}

impl Circle {
    /// The circle's colour as an opaque pixel.
    pub open spec fn color(&self) -> Rgba {
        Rgba::opaque(self.r, self.g, self.b)
    }

    /// The circle at `(x, y)` with the colour's red, green and blue.
    pub open spec fn from_color(x: u32, y: u32, radius: u32, color: Rgba) -> Circle {
        Circle { x, y, radius, r: color.r, g: color.g, b: color.b }
    }

    /// The circle can be drawn: its bounding square ends within the range
    /// in which the rasteriser is exact.
    pub open spec fn drawable(&self) -> bool {
        &&& self.x + self.radius <= MAX_DRAW_COORDINATE
        &&& self.y + self.radius <= MAX_DRAW_COORDINATE
    }

    /// Two circles overlap when their centres are closer than the sum of
    /// their radii. Stated on the squares, which compares the same distances.
    pub open spec fn spec_overlaps_circle(&self, other: &Circle) -> bool {
        (self.x - other.x) * (self.x - other.x) + (self.y - other.y) * (self.y - other.y) < (
        self.radius + other.radius) * (self.radius + other.radius)
    }

    /// A circle overlaps a region when the point of the region's square that
    /// is nearest to the centre is no farther from it than the radius.
    pub open spec fn spec_overlaps_region(&self, region: &Region) -> bool {
        let near_x = clamp_to(self.x as int, region.min_x as int, region.max_x as int);
        let near_y = clamp_to(self.y as int, region.min_y as int, region.max_y as int);
        (self.x - near_x) * (self.x - near_x) + (self.y - near_y) * (self.y - near_y)
            <= self.radius * self.radius
    }

    /// A circle with the colour's red, green and blue; its alpha is dropped.
    pub fn new(x: u32, y: u32, radius: u32, color: Rgba) -> (circle: Circle)
        ensures
            circle == Circle::from_color(x, y, radius, color),
    {
        Circle { x, y, radius, r: color.r, g: color.g, b: color.b }
    }

    /// Whether the circle can be drawn.
    pub fn is_drawable(&self) -> (drawable: bool)
        ensures
            drawable == self.drawable(),
    {
        self.x <= MAX_DRAW_COORDINATE && self.radius <= MAX_DRAW_COORDINATE - self.x && self.y
            <= MAX_DRAW_COORDINATE && self.radius <= MAX_DRAW_COORDINATE - self.y
    }

    pub fn overlaps_circle(&self, other: &Circle) -> (overlap: bool)
        ensures
            overlap == self.spec_overlaps_circle(other),
    {
        let dx: u128 = span(self.x, other.x) as u128;
        let dy: u128 = span(self.y, other.y) as u128;
        let reach: u128 = self.radius as u128 + other.radius as u128;
        proof {
            lemma_square_bound(dx as int, 0x1_0000_0000);
            lemma_square_bound(dy as int, 0x1_0000_0000);
            lemma_square_bound(reach as int, 0x2_0000_0000);
            lemma_square_of_distance(self.x as int, other.x as int, dx as int);
            lemma_square_of_distance(self.y as int, other.y as int, dy as int);
        }
        dx * dx + dy * dy < reach * reach
    }

    pub fn overlaps_region(&self, region: &Region) -> (overlap: bool)
        ensures
            overlap == self.spec_overlaps_region(region),
    {
        let near_x: i64 = nearest(self.x, region.min_x, region.max_x);
        let near_y: i64 = nearest(self.y, region.min_y, region.max_y);
        let dx: i128 = (self.x as i64 - near_x) as i128;
        let dy: i128 = (self.y as i64 - near_y) as i128;
        let radius: i128 = self.radius as i128;
        proof {
            lemma_square_bound(dx as int, 0x2_0000_0000);
            lemma_square_bound(dy as int, 0x2_0000_0000);
            lemma_square_bound(radius as int, 0x1_0000_0000);
        }
        dx * dx + dy * dy <= radius * radius
    }
}

/// The distance between two coordinates.
fn span(a: u32, b: u32) -> (d: u32)
    ensures
        d == if a >= b {
            a - b
        } else {
            b - a
        },
{
    if a >= b {
        a - b
    } else {
        b - a
    }
}

/// The coordinate of the interval `[low, high]` nearest to `c`.
fn nearest(c: u32, low: i32, high: i32) -> (near: i64)
    ensures
        near == clamp_to(c as int, low as int, high as int),
{
    let c: i64 = c as i64;
    if c < low as i64 {
        low as i64
    } else if c > high as i64 {
        high as i64
    } else {
        c
    }
}

proof fn lemma_square_bound(v: int, bound: int)
    requires
        -bound < v < bound,
    ensures
        0 <= v * v < bound * bound,
{
    assert(0 <= v * v < bound * bound) by (nonlinear_arith)
        requires
            -bound < v < bound,
    ;
}

proof fn lemma_square_of_distance(a: int, b: int, d: int)
    requires
        d == if a >= b {
            a - b
        } else {
            b - a
        },
    ensures
        d * d == (a - b) * (a - b),
{
    assert(d * d == (a - b) * (a - b)) by (nonlinear_arith)
        requires
            d == a - b || d == b - a,
    ;
}

} // verus!
