//! The bounding square of a circle, with its bounds clipped to the
//! non-negative quadrant.

use vstd::prelude::*;

verus! {

/// The bounding square of the circle with centre `(center_x, center_y)` and
/// radius `radius`.
///
/// `min_*` and `max_*` are the signed bounds of the square. The "real" bounds,
/// given by the methods, are the same square cut off at the axes.
#[derive(Debug)]
pub struct Region {
    pub center_x: u32,
    pub center_y: u32,
    pub radius: u32,
    pub min_x: i32,
    pub min_y: i32,
    pub max_x: i32,
    pub max_y: i32,
}

impl Region {
    /// The signed bounds are the centre minus and plus the radius.
    pub open spec fn wf(&self) -> bool {
        &&& self.min_x == self.center_x - self.radius
        &&& self.min_y == self.center_y - self.radius
        &&& self.max_x == self.center_x + self.radius
        &&& self.max_y == self.center_y + self.radius
    }

    /// The bounding square of the circle at `(center_x, center_y)`.
    pub open spec fn spec_new(center_x: u32, center_y: u32, radius: u32) -> Region {
        Region {
            center_x,
            center_y,
            radius,
            min_x: (center_x - radius) as i32,
            min_y: (center_y - radius) as i32,
            max_x: (center_x + radius) as i32,
            max_y: (center_y + radius) as i32,
        }
    }

    /// `max(0, min_x)`.
    pub open spec fn spec_real_origin_x(&self) -> int {
        if self.min_x < 0 {
            0
        } else {
            self.min_x as int
        }
    }

    /// `max(0, min_y)`.
    pub open spec fn spec_real_origin_y(&self) -> int {
        if self.min_y < 0 {
            0
        } else {
            self.min_y as int
        }
    }

    /// `max_x` minus the clipped origin.
    pub open spec fn spec_real_width(&self) -> int {
        self.max_x - self.spec_real_origin_x()
    }

    /// `max_y` minus the clipped origin.
    pub open spec fn spec_real_height(&self) -> int {
        self.max_y - self.spec_real_origin_y()
    }

    /// The centre's abscissa, counted from the clipped origin.
    pub open spec fn spec_real_center_x(&self) -> int {
        self.center_x - self.spec_real_origin_x()
    }

    /// The centre's ordinate, counted from the clipped origin.
    pub open spec fn spec_real_center_y(&self) -> int {
        self.center_y - self.spec_real_origin_y()
    }

    /// Builds the bounding square of a circle. The far corner must be
    /// representable as a signed 32-bit coordinate.
    pub fn new(center_x: u32, center_y: u32, radius: u32) -> (region: Region)
        requires
            center_x + radius <= i32::MAX,
            center_y + radius <= i32::MAX,
        ensures
            region.wf(),
            region == Self::spec_new(center_x, center_y, radius),
    {
        let i32x: i32 = center_x as i32;
        let i32y: i32 = center_y as i32;
        let i32radius: i32 = radius as i32;

        Region {
            center_x,
            center_y,
            radius,
            min_x: i32x - i32radius,
            min_y: i32y - i32radius,
            max_x: i32x + i32radius,
            max_y: i32y + i32radius,
        }
    }

    pub fn real_origin_x(&self) -> (x: u32)
        ensures
            x == self.spec_real_origin_x(),
    {
        if self.min_x < 0 {
            0
        } else {
            self.min_x as u32
        }
    }

    pub fn real_origin_y(&self) -> (y: u32)
        ensures
            y == self.spec_real_origin_y(),
    {
        if self.min_y < 0 {
            0
        } else {
            self.min_y as u32
        }
    }

    pub fn real_width(&self) -> (width: u32)
        requires
            self.wf(),
        ensures
            width == self.spec_real_width(),
    {
        (self.max_x as u32) - self.real_origin_x()
    }

    pub fn real_height(&self) -> (height: u32)
        requires
            self.wf(),
        ensures
            height == self.spec_real_height(),
    {
        (self.max_y as u32) - self.real_origin_y()
    }

    pub fn real_center_x(&self) -> (x: u32)
        requires
            self.wf(),
        ensures
            x == self.spec_real_center_x(),
    {
        self.center_x - self.real_origin_x()
    }

    pub fn real_center_y(&self) -> (y: u32)
        requires
            self.wf(),
        ensures
            y == self.spec_real_center_y(),
    {
        self.center_y - self.real_origin_y()
    }
}

/// A well-formed region reaches as far left and up as its radius allows: the
/// clipped centre is the smaller of the centre and the radius, and the clipped
/// extent is the centre's clipped coordinate plus the radius.
pub proof fn lemma_region_clipping(region: Region)
    requires
        region.wf(),
    ensures
        region.spec_real_center_x() == if region.center_x < region.radius {
            region.center_x as int
        } else {
            region.radius as int
        },
        region.spec_real_center_y() == if region.center_y < region.radius {
            region.center_y as int
        } else {
            region.radius as int
        },
        region.spec_real_width() == region.spec_real_center_x() + region.radius,
        region.spec_real_height() == region.spec_real_center_y() + region.radius,
        0 <= region.spec_real_origin_x() <= region.center_x,
        0 <= region.spec_real_origin_y() <= region.center_y,
{
}

/// A region centred on the origin is clipped to the square from the origin
/// with the radius as its side.
pub proof fn lemma_region_at_origin(region: Region)
    requires
        region.wf(),
        region.center_x == 0,
        region.center_y == 0,
    ensures
        region.spec_real_origin_x() == 0,
        region.spec_real_origin_y() == 0,
        region.spec_real_width() == region.radius,
        region.spec_real_height() == region.radius,
        region.spec_real_center_x() == 0,
        region.spec_real_center_y() == 0,
{
}

} // verus!
