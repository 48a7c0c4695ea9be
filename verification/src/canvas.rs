//! An RGBA raster whose pixels are all opaque, with the operations that the
//! search, the renderer and the pruner need: crop, blit, fill a circle, and
//! the two sums that measure a canvas against another.

use crate::circle::Circle;
use crate::color::Rgba;
use crate::region::Region;
use vstd::prelude::*;
use vstd::slice::slice_subrange;

verus! {

/// The largest coordinate that a circle's bounding square may reach when the
/// circle is drawn: up to here the rasteriser's single-precision arithmetic
/// is exact.
pub const MAX_DRAW_COORDINATE: u32 = 16_777_216;

/// The index of the first byte of pixel `(x, y)` in a row-major RGBA buffer
/// of the given width.
pub open spec fn offset(width: int, x: int, y: int) -> int {
    4 * (y * width + x)
}

/// The pixel `(x, y)` of a row-major RGBA buffer of the given width.
pub open spec fn pixel_of(bytes: Seq<u8>, width: int, x: int, y: int) -> Rgba {
    let first = offset(width, x, y);
    Rgba { r: bytes[first], g: bytes[first + 1], b: bytes[first + 2], a: bytes[first + 3] }
}

/// The buffer of `count` opaque black pixels.
pub open spec fn blank(count: int) -> Seq<u8> {
    Seq::new(
        (4 * count) as nat,
        |i: int|
            if i % 4 == 3 {
                255u8
            } else {
                0u8
            },
    )
}

/// The distance between two bytes.
pub open spec fn byte_distance(a: u8, b: u8) -> int {
    if a >= b {
        a - b
    } else {
        b - a
    }
}

/// The sum of the distances between the bytes of two buffers of one length.
pub open spec fn seq_delta(a: Seq<u8>, b: Seq<u8>) -> int
    recommends
        a.len() == b.len(),
    decreases a.len(),
{
    if a.len() == 0 {
        0
    } else {
        seq_delta(a.drop_last(), b.drop_last()) + byte_distance(a.last(), b.last())
    }
}

/// The sum of the red, green and blue bytes of an RGBA buffer: every byte
/// but each fourth.
pub open spec fn seq_value(bytes: Seq<u8>) -> int
    decreases bytes.len(),
{
    if bytes.len() == 0 {
        0
    } else {
        seq_value(bytes.drop_last()) + if (bytes.len() - 1) % 4 == 3 {
            0
        } else {
            bytes.last() as int
        }
    }
}

/// Byte `channel` of pixel `(x, y)` of a row-major RGBA buffer.
pub open spec fn byte_of(bytes: Seq<u8>, width: int, x: int, y: int, channel: int) -> u8 {
    bytes[offset(width, x, y) + channel]
}

/// `dst` with the `count` bytes from `start` on replaced by those of `src`
/// from `from` on.
pub open spec fn splice(dst: Seq<u8>, start: int, src: Seq<u8>, from: int, count: int) -> Seq<u8> {
    dst.subrange(0, start) + src.subrange(from, from + count) + dst.subrange(
        start + count,
        dst.len() as int,
    )
}

/// The first `rows` rows of the rectangle of `cols` columns whose corner is
/// `(x, y)`, cut from a buffer of width `width` and laid out one after
/// another.
pub open spec fn crop_rows(src: Seq<u8>, width: int, x: int, y: int, cols: int, rows: nat) -> Seq<
    u8,
>
    decreases rows,
{
    if rows == 0 {
        Seq::empty()
    } else {
        let start = offset(width, x, y + rows - 1);
        crop_rows(src, width, x, y, cols, (rows - 1) as nat) + src.subrange(
            start,
            start + 4 * cols,
        )
    }
}

/// `dst`, of width `width`, after the first `rows` rows of `src`, of width
/// `src_width`, were written over it with their corner at `(x, y)`, `cols`
/// columns of each.
pub open spec fn blit_rows(
    dst: Seq<u8>,
    width: int,
    x: int,
    y: int,
    src: Seq<u8>,
    src_width: int,
    cols: int,
    rows: nat,
) -> Seq<u8>
    decreases rows,
{
    if rows == 0 {
        dst
    } else {
        splice(
            blit_rows(dst, width, x, y, src, src_width, cols, (rows - 1) as nat),
            offset(width, x, y + rows - 1),
            src,
            offset(src_width, 0, rows - 1),
            4 * cols,
        )
    }
}

/// The smaller of two numbers.
pub open spec fn smaller(a: int, b: int) -> int {
    if a <= b {
        a
    } else {
        b
    }
}

/// Where the section for a region starts on an axis of the given extent:
/// at the region's clipped origin, or at the far edge where that lies
/// beyond.
pub open spec fn section_start(origin: int, extent: int) -> int {
    smaller(origin, extent)
}

/// How far the section for a region reaches on an axis of the given extent:
/// as far as the region's clipped side, or as far as the axis goes.
pub open spec fn section_side(origin: int, side: int, extent: int) -> int {
    smaller(side, extent - section_start(origin, extent))
}

/// The bytes of the section that a buffer of the given size gives for a
/// region.
pub open spec fn section_of(bytes: Seq<u8>, width: int, height: int, region: &Region) -> Seq<u8> {
    crop_rows(
        bytes,
        width,
        section_start(region.spec_real_origin_x(), width),
        section_start(region.spec_real_origin_y(), height),
        section_side(region.spec_real_origin_x(), region.spec_real_width(), width),
        section_side(region.spec_real_origin_y(), region.spec_real_height(), height) as nat,
    )
}

/// Whether the rasteriser of filled circles covers the pixel that lies
/// `(dx, dy)` from the centre of a circle of the given radius.
pub uninterp spec fn disc_covers(radius: int, dx: int, dy: int) -> bool;

/// Whether `(x, y)` lies beyond the bounding square of the circle at
/// `(center_x, center_y)`.
pub open spec fn beyond_square(center_x: int, center_y: int, radius: int, x: int, y: int) -> bool {
    x < center_x - radius || x > center_x + radius || y < center_y - radius || y > center_y
        + radius
}

/// The buffer, of the given width, after a circle was filled on it: the
/// pixels that the rasteriser covers have the colour, the others are as they
/// were.
pub open spec fn painted(
    bytes: Seq<u8>,
    width: int,
    center_x: int,
    center_y: int,
    radius: int,
    color: Rgba,
) -> Seq<u8> {
    Seq::new(
        bytes.len(),
        |i: int|
            if disc_covers(radius, (i / 4) % width - center_x, (i / 4) / width - center_y) {
                color.channel(i % 4)
            } else {
                bytes[i]
            },
    )
}

/// A buffer with every fourth byte set to 255: the same pixels, all opaque.
pub open spec fn opaque(bytes: Seq<u8>) -> Seq<u8> {
    Seq::new(
        bytes.len(),
        |i: int|
            if i % 4 == 3 {
                255u8
            } else {
                bytes[i]
            },
    )
}

/// The error of `image`'s decoders.
#[verifier::external_type_specification]
#[verifier::external_body]
pub struct ExImageError(image::ImageError);

/// Why bytes could not be opened as a canvas.
#[derive(Debug)]
pub enum OpenError {
    /// The bytes are no image that the decoder knows. The text is the
    /// decoder's account of it.
    Decode(String),
    /// The image is too large for a canvas.
    Size,
}

/// A raster of opaque pixels. `center_x` and `center_y` mark a point of
/// interest: in a crop, the centre of the region it was cut for.
pub struct Canvas {
    center_x: i32,
    center_y: i32,
    width: u32,
    height: u32,
    pixels: Vec<u8>,
}

impl View for Canvas {
    type V = Seq<u8>;

    /// The pixels as bytes: row by row, four bytes a pixel, in the order
    /// red, green, blue, alpha.
    closed spec fn view(&self) -> Seq<u8> {
        self.pixels@
    }
}

impl Canvas {
    pub closed spec fn spec_width(&self) -> u32 {
        self.width
    }

    pub closed spec fn spec_height(&self) -> u32 {
        self.height
    }

    pub closed spec fn spec_center_x(&self) -> i32 {
        self.center_x
    }

    pub closed spec fn spec_center_y(&self) -> i32 {
        self.center_y
    }

    /// The sizes that a canvas can have: both sides are signed 32-bit
    /// coordinates, the buffer can be allocated, and the sums over it fit in
    /// 64 bits.
    pub open spec fn fits(width: u32, height: u32) -> bool {
        &&& width <= i32::MAX
        &&& height <= i32::MAX
        &&& 4 * (width * height) <= usize::MAX
        &&& 1020 * (width * height) <= u64::MAX
    }

    /// The buffer has four bytes for each pixel, and every alpha byte is 255.
    pub open spec fn wf(&self) -> bool {
        &&& Self::fits(self.spec_width(), self.spec_height())
        &&& self@.len() == 4 * (self.spec_width() * self.spec_height())
        &&& forall|i: int| 0 <= i < self@.len() && i % 4 == 3 ==> #[trigger] self@[i] == 255
    }

    /// The pixel at `(x, y)`.
    pub open spec fn pixel(&self, x: int, y: int) -> Rgba {
        pixel_of(self@, self.spec_width() as int, x, y)
    }

    /// `(x, y)` is a pixel of this canvas.
    pub open spec fn contains(&self, x: int, y: int) -> bool {
        0 <= x < self.spec_width() && 0 <= y < self.spec_height()
    }

    /// The sum of red, green and blue over all pixels.
    pub open spec fn spec_value(&self) -> int {
        seq_value(self@)
    }

    /// The sum of the distances between the bytes of the two canvases.
    pub open spec fn spec_delta(&self, other: &Canvas) -> int {
        seq_delta(self@, other@)
    }

    /// The two canvases have the same size and the same bytes.
    pub open spec fn spec_is_equal(&self, other: &Canvas) -> bool {
        &&& self.spec_width() == other.spec_width()
        &&& self.spec_height() == other.spec_height()
        &&& self@ == other@
    }

    /// Whether a canvas of this size can be made.
    pub fn can_hold(width: u32, height: u32) -> (fits: bool)
        ensures
            fits == Self::fits(width, height),
    {
        if width > i32::MAX as u32 || height > i32::MAX as u32 {
            return false;
        }
        proof {
            assert(width * height <= 0x7fff_ffff * 0x7fff_ffff) by (nonlinear_arith)
                requires
                    0 <= width <= 0x7fff_ffff,
                    0 <= height <= 0x7fff_ffff,
            ;
        }
        let count: u64 = width as u64 * height as u64;
        count <= u64::MAX / 1020 && count <= (usize::MAX / 4) as u64
    }

    /// An opaque black canvas.
    pub fn new(width: u32, height: u32) -> (canvas: Canvas)
        requires
            Self::fits(width, height),
        ensures
            canvas.wf(),
            canvas.spec_width() == width,
            canvas.spec_height() == height,
            canvas.spec_center_x() == 0,
            canvas.spec_center_y() == 0,
            canvas@ == blank(width * height),
    {
        let count: usize = width as usize * height as usize;
        let mut pixels: Vec<u8> = Vec::new();
        let mut i: usize = 0;
        while i < count
            invariant
                i <= count,
                4 * count <= usize::MAX,
                pixels@ =~= blank(i as int),
            decreases count - i,
        {
            pixels.push(0);
            pixels.push(0);
            pixels.push(0);
            pixels.push(255);
            i = i + 1;
        }
        Canvas { center_x: 0, center_y: 0, width, height, pixels }
    }

    /// The canvas of the given size with the given pixels, made opaque.
    /// There is none where the size does not fit or the buffer has another
    /// length than the size asks for. The point of interest is the middle.
    pub fn from_raw(width: u32, height: u32, pixels: Vec<u8>) -> (canvas: Option<Canvas>)
        ensures
            canvas.is_some() <==> Self::fits(width, height) && pixels@.len() == 4 * (width
                * height),
            match canvas {
                Some(canvas) => {
                    &&& canvas.wf()
                    &&& canvas.spec_width() == width
                    &&& canvas.spec_height() == height
                    &&& canvas.spec_center_x() == width / 2
                    &&& canvas.spec_center_y() == height / 2
                    &&& canvas@ == opaque(pixels@)
                },
                None => true,
            },
    {
        if !Self::can_hold(width, height) {
            return None;
        }
        let count: usize = width as usize * height as usize;
        if pixels.len() != 4 * count {
            return None;
        }
        let mut pixels = pixels;
        let ghost given = pixels@;
        let mut i: usize = 0;
        while i < count
            invariant
                i <= count,
                pixels@.len() == 4 * count,
                given.len() == 4 * count,
                4 * count <= usize::MAX,
                forall|k: int|
                    0 <= k < 4 * count ==> #[trigger] pixels@[k] == if k < 4 * i && k % 4 == 3 {
                        255u8
                    } else {
                        given[k]
                    },
            decreases count - i,
        {
            pixels[4 * i + 3] = 255;
            i = i + 1;
        }
        assert(pixels@ =~= opaque(given));
        Some(
            Canvas {
                center_x: (width / 2) as i32,
                center_y: (height / 2) as i32,
                width,
                height,
                pixels,
            },
        )
    }

    /// Decodes an image into a canvas. Whatever alpha the image has, the
    /// canvas is opaque, and its point of interest is the middle. Whether
    /// bytes decode, and to what, is the decoder's matter: `from_raw` says
    /// what canvas a decoded image becomes.
    pub fn open(bytes: &[u8]) -> (opened: Result<Canvas, OpenError>)
        ensures
            match opened {
                Ok(canvas) => {
                    &&& canvas.wf()
                    &&& canvas.spec_center_x() == canvas.spec_width() / 2
                    &&& canvas.spec_center_y() == canvas.spec_height() / 2
                },
                Err(_) => true,
            },
    {
        match decode_rgba8(bytes) {
            Ok((width, height, pixels)) => match Self::from_raw(width, height, pixels) {
                Some(canvas) => Ok(canvas),
                None => Err(OpenError::Size),
            },
            Err(error) => Err(OpenError::Decode(describe(&error))),
        }
    }

    /// The pixels as bytes: row by row, four bytes a pixel.
    pub fn as_bytes(&self) -> (bytes: &Vec<u8>)
        ensures
            bytes@ == self@,
    {
        &self.pixels
    }

    pub fn width(&self) -> (width: u32)
        ensures
            width == self.spec_width(),
    {
        self.width
    }

    pub fn height(&self) -> (height: u32)
        ensures
            height == self.spec_height(),
    {
        self.height
    }

    /// The abscissa of the point of interest.
    pub fn center_x(&self) -> (x: i32)
        ensures
            x == self.spec_center_x(),
    {
        self.center_x
    }

    /// The ordinate of the point of interest.
    pub fn center_y(&self) -> (y: i32)
        ensures
            y == self.spec_center_y(),
    {
        self.center_y
    }

    /// Reads the pixel at `(x, y)`.
    pub fn get_pixel(&self, x: u32, y: u32) -> (pixel: Rgba)
        requires
            self.wf(),
            self.contains(x as int, y as int),
        ensures
            pixel == self.pixel(x as int, y as int),
            pixel.a == 255,
    {
        proof {
            lemma_offset_in_bounds(
                self.width as int,
                self.height as int,
                x as int,
                y as int,
            );
        }
        let first: usize = 4 * (y as usize * self.width as usize + x as usize);
        Rgba {
            r: self.pixels[first],
            g: self.pixels[first + 1],
            b: self.pixels[first + 2],
            a: self.pixels[first + 3],
        }
    }

    /// The sum of red, green and blue over all pixels: a cheap measure of
    /// how much a canvas holds.
    pub fn value(&self) -> (value: u64)
        requires
            self.wf(),
        ensures
            value == self.spec_value(),
    {
        let len: usize = self.pixels.len();
        let mut value: u64 = 0;
        let mut i: usize = 0;
        while i < len
            invariant
                i <= len,
                len == self.pixels@.len(),
                255 * len <= u64::MAX,
                value == seq_value(self.pixels@.take(i as int)),
                value <= 255 * i,
            decreases len - i,
        {
            proof {
                let next = self.pixels@.take(i + 1);
                assert(next.drop_last() =~= self.pixels@.take(i as int));
            }
            if i % 4 != 3 {
                value = value + self.pixels[i] as u64;
            }
            i = i + 1;
        }
        assert(self.pixels@.take(len as int) =~= self.pixels@);
        value
    }

    /// The distance between two pixels: the sum of the distances of their
    /// red, green and blue channels. Alpha does not count.
    pub fn pixel_delta(a: Rgba, b: Rgba) -> (delta: u32)
        ensures
            delta == byte_distance(a.r, b.r) + byte_distance(a.g, b.g) + byte_distance(a.b, b.b),
    {
        let mut delta: u32 = 0;

        delta = delta + Self::byte_delta(a.r, b.r) as u32;
        delta = delta + Self::byte_delta(a.g, b.g) as u32;
        delta = delta + Self::byte_delta(a.b, b.b) as u32;
        delta
    }

    /// The distance between two bytes.
    pub fn byte_delta(a: u8, b: u8) -> (delta: usize)
        ensures
            delta == byte_distance(a, b),
    {
        if a >= b {
            (a - b) as usize
        } else {
            (b - a) as usize
        }
    }

    /// The distance between two canvases of one size: the sum over all bytes
    /// of the distance between the two. The alpha bytes are equal, so this is
    /// the sum of the pixel distances.
    pub fn delta(&self, other: &Canvas) -> (delta: u64)
        requires
            self.wf(),
            other.wf(),
            self.spec_width() == other.spec_width(),
            self.spec_height() == other.spec_height(),
        ensures
            delta == self.spec_delta(other),
    {
        let len: usize = self.pixels.len();
        let mut delta: u64 = 0;
        let mut i: usize = 0;
        while i < len
            invariant
                i <= len,
                len == self.pixels@.len(),
                len == other.pixels@.len(),
                255 * len <= u64::MAX,
                delta == seq_delta(self.pixels@.take(i as int), other.pixels@.take(i as int)),
                delta <= 255 * i,
            decreases len - i,
        {
            proof {
                let next = self.pixels@.take(i + 1);
                let other_next = other.pixels@.take(i + 1);
                assert(next.drop_last() =~= self.pixels@.take(i as int));
                assert(other_next.drop_last() =~= other.pixels@.take(i as int));
            }
            delta = delta + Self::byte_delta(self.pixels[i], other.pixels[i]) as u64;
            i = i + 1;
        }
        assert(self.pixels@.take(len as int) =~= self.pixels@);
        assert(other.pixels@.take(len as int) =~= other.pixels@);
        delta
    }

    /// Whether the two canvases have the same size and the same bytes.
    pub fn is_equal(&self, other: &Canvas) -> (equal: bool)
        requires
            self.wf(),
            other.wf(),
        ensures
            equal == self.spec_is_equal(other),
    {
        if self.width != other.width || self.height != other.height {
            return false;
        }
        let len: usize = self.pixels.len();
        let mut i: usize = 0;
        while i < len
            invariant
                i <= len,
                len == self.pixels@.len(),
                len == other.pixels@.len(),
                forall|k: int| 0 <= k < i ==> self.pixels@[k] == other.pixels@[k],
            decreases len - i,
        {
            if self.pixels[i] != other.pixels[i] {
                return false;
            }
            i = i + 1;
        }
        assert(self.pixels@ =~= other.pixels@);
        true
    }

    /// The corner, in this canvas, of the section cut for a region: the
    /// region's clipped origin, or the canvas's edge where that lies beyond.
    pub open spec fn section_x(&self, region: &Region) -> int {
        section_start(region.spec_real_origin_x(), self.spec_width() as int)
    }

    pub open spec fn section_y(&self, region: &Region) -> int {
        section_start(region.spec_real_origin_y(), self.spec_height() as int)
    }

    /// The width of the section cut for a region: the region's clipped
    /// width, or what the canvas has left of it.
    pub open spec fn section_width(&self, region: &Region) -> int {
        section_side(
            region.spec_real_origin_x(),
            region.spec_real_width(),
            self.spec_width() as int,
        )
    }

    pub open spec fn section_height(&self, region: &Region) -> int {
        section_side(
            region.spec_real_origin_y(),
            region.spec_real_height(),
            self.spec_height() as int,
        )
    }

    /// An independent copy of the part of this canvas that lies in the
    /// region's clipped square. It carries the region's clipped centre, so
    /// that a circle drawn there lies in the copy as it lies in the canvas.
    pub fn section(&self, region: &Region) -> (crop: Canvas)
        requires
            self.wf(),
            region.wf(),
        ensures
            crop.wf(),
            crop.spec_width() == self.section_width(region),
            crop.spec_height() == self.section_height(region),
            crop.spec_center_x() == region.spec_real_center_x(),
            crop.spec_center_y() == region.spec_real_center_y(),
            crop@ == crop_rows(
                self@,
                self.spec_width() as int,
                self.section_x(region),
                self.section_y(region),
                self.section_width(region),
                self.section_height(region) as nat,
            ),
            forall|x: int, y: int|
                crop.contains(x, y) ==> #[trigger] crop.pixel(x, y) == self.pixel(
                    self.section_x(region) + x,
                    self.section_y(region) + y,
                ),
    {
        let x: u32 = lesser(region.real_origin_x(), self.width);
        let y: u32 = lesser(region.real_origin_y(), self.height);
        let cols: u32 = lesser(region.real_width(), self.width - x);
        let rows: u32 = lesser(region.real_height(), self.height - y);
        let mut pixels: Vec<u8> = Vec::new();
        let mut j: u32 = 0;
        while j < rows
            invariant
                j <= rows,
                self.wf(),
                x + cols <= self.width,
                y + rows <= self.height,
                pixels@ == crop_rows(
                    self.pixels@,
                    self.width as int,
                    x as int,
                    y as int,
                    cols as int,
                    j as nat,
                ),
            decreases rows - j,
        {
            proof {
                lemma_row_in_bounds(
                    self.width as int,
                    self.height as int,
                    x as int,
                    cols as int,
                    y + j,
                );
            }
            let start: usize = 4 * ((y + j) as usize * self.width as usize + x as usize);
            let row = slice_subrange(self.pixels.as_slice(), start, start + 4 * cols as usize);
            pixels.extend_from_slice(row);
            assert(pixels@ =~= crop_rows(
                self.pixels@,
                self.width as int,
                x as int,
                y as int,
                cols as int,
                (j + 1) as nat,
            ));
            j = j + 1;
        }
        let crop = Canvas {
            center_x: region.real_center_x() as i32,
            center_y: region.real_center_y() as i32,
            width: cols,
            height: rows,
            pixels,
        };
        proof {
            lemma_crop_rows(
                self.pixels@,
                self.width as int,
                self.height as int,
                x as int,
                y as int,
                cols as int,
                rows as nat,
            );
            lemma_smaller_area(cols as int, rows as int, self.width as int, self.height as int);
            assert forall|px: int, py: int| crop.contains(px, py) implies #[trigger] crop.pixel(
                px,
                py,
            ) == self.pixel(x + px, y + py) by {
                lemma_pixel_from_bytes(crop@, cols as int, px, py);
                lemma_pixel_from_bytes(self@, self.width as int, x + px, y + py);
            }
            assert forall|px: int, py: int| crop.contains(px, py) implies (#[trigger] pixel_of(
                crop@,
                cols as int,
                px,
                py,
            )).a == 255 by {
                assert(crop.pixel(px, py) == self.pixel(x + px, y + py));
                lemma_offset_in_bounds(self.width as int, self.height as int, x + px, y + py);
            }
            lemma_alpha_from_pixels(crop@, cols as int, rows as int);
        }
        crop
    }

    /// The number of columns that a blit of a canvas `other_width` wide at
    /// abscissa `x` writes: the part of it that lies on this canvas.
    pub open spec fn copied_width(&self, other: &Canvas, x: u32) -> int {
        smaller(
            other.spec_width() as int,
            self.spec_width() - smaller(x as int, self.spec_width() as int),
        )
    }

    pub open spec fn copied_height(&self, other: &Canvas, y: u32) -> int {
        smaller(
            other.spec_height() as int,
            self.spec_height() - smaller(y as int, self.spec_height() as int),
        )
    }

    /// Writes `other` over this canvas with its corner at `(x, y)`. What of
    /// it lies beyond this canvas is left out.
    pub fn copy_from(&mut self, other: &Canvas, x: u32, y: u32)
        requires
            old(self).wf(),
            other.wf(),
        ensures
            final(self).wf(),
            final(self).spec_width() == old(self).spec_width(),
            final(self).spec_height() == old(self).spec_height(),
            final(self).spec_center_x() == old(self).spec_center_x(),
            final(self).spec_center_y() == old(self).spec_center_y(),
            final(self)@ == blit_rows(
                old(self)@,
                old(self).spec_width() as int,
                smaller(x as int, old(self).spec_width() as int),
                smaller(y as int, old(self).spec_height() as int),
                other@,
                other.spec_width() as int,
                old(self).copied_width(other, x),
                old(self).copied_height(other, y) as nat,
            ),
            forall|px: int, py: int|
                final(self).contains(px, py) ==> #[trigger] final(self).pixel(px, py) == if x <= px
                    < x + other.spec_width() && y <= py < y + other.spec_height() {
                    other.pixel(px - x, py - y)
                } else {
                    old(self).pixel(px, py)
                },
    {
        let x0: u32 = lesser(x, self.width);
        let y0: u32 = lesser(y, self.height);
        let cols: u32 = lesser(other.width, self.width - x0);
        let rows: u32 = lesser(other.height, self.height - y0);
        let mut j: u32 = 0;
        while j < rows
            invariant
                j <= rows,
                old(self).wf(),
                other.wf(),
                self.width == old(self).width,
                self.height == old(self).height,
                self.center_x == old(self).center_x,
                self.center_y == old(self).center_y,
                x0 + cols <= self.width,
                y0 + rows <= self.height,
                cols <= other.width,
                rows <= other.height,
                self.pixels@.len() == old(self).pixels@.len(),
                self.pixels@ == blit_rows(
                    old(self).pixels@,
                    self.width as int,
                    x0 as int,
                    y0 as int,
                    other.pixels@,
                    other.width as int,
                    cols as int,
                    j as nat,
                ),
            decreases rows - j,
        {
            proof {
                lemma_row_in_bounds(
                    self.width as int,
                    self.height as int,
                    x0 as int,
                    cols as int,
                    y0 + j,
                );
                lemma_row_in_bounds(
                    other.width as int,
                    other.height as int,
                    0,
                    cols as int,
                    j as int,
                );
            }
            let count: usize = 4 * cols as usize;
            let to: usize = 4 * ((y0 + j) as usize * self.width as usize + x0 as usize);
            let from: usize = 4 * (j as usize * other.width as usize);
            let ghost before = self.pixels@;
            let total: usize = self.pixels.len();
            let other_total: usize = other.pixels.len();
            let mut t: usize = 0;
            while t < count
                invariant
                    t <= count,
                    to + count <= total,
                    from + count <= other_total,
                    total == before.len(),
                    other_total == other.pixels@.len(),
                    self.pixels@.len() == before.len(),
                    self.width == old(self).width,
                    self.height == old(self).height,
                    self.center_x == old(self).center_x,
                    self.center_y == old(self).center_y,
                    self.pixels@ == splice(before, to as int, other.pixels@, from as int, t as int),
                decreases count - t,
            {
                self.pixels[to + t] = other.pixels[from + t];
                assert(self.pixels@ =~= splice(
                    before,
                    to as int,
                    other.pixels@,
                    from as int,
                    t + 1,
                ));
                t = t + 1;
            }
            j = j + 1;
        }
        proof {
            assert(4 * (other.width * rows) <= 4 * (other.width * other.height))
                by (nonlinear_arith)
                requires
                    0 <= rows <= other.height,
                    0 <= other.width,
            ;
            lemma_blit_rows(
                old(self).pixels@,
                self.width as int,
                self.height as int,
                x0 as int,
                y0 as int,
                other.pixels@,
                other.width as int,
                cols as int,
                rows as nat,
            );
            assert forall|px: int, py: int| self.contains(px, py) implies #[trigger] self.pixel(
                px,
                py,
            ) == if x <= px < x + other.spec_width() && y <= py < y + other.spec_height() {
                other.pixel(px - x, py - y)
            } else {
                old(self).pixel(px, py)
            } by {
                lemma_pixel_from_bytes(self@, self.width as int, px, py);
                lemma_pixel_from_bytes(old(self)@, self.width as int, px, py);
                lemma_pixel_from_bytes(other@, other.width as int, px - x0, py - y0);
            }
            assert forall|px: int, py: int| self.contains(px, py) implies (#[trigger] pixel_of(
                self@,
                self.width as int,
                px,
                py,
            )).a == 255 by {
                assert(self.pixel(px, py) == if x <= px < x + other.spec_width() && y <= py < y
                    + other.spec_height() {
                    other.pixel(px - x, py - y)
                } else {
                    old(self).pixel(px, py)
                });
                lemma_offset_in_bounds(self.width as int, self.height as int, px, py);
                if x <= px < x + other.spec_width() && y <= py < y + other.spec_height() {
                    lemma_offset_in_bounds(
                        other.width as int,
                        other.height as int,
                        px - x,
                        py - y,
                    );
                }
            }
            lemma_alpha_from_pixels(self@, self.width as int, self.height as int);
        }
    }

    /// Fills the circle, in its colour, over what the canvas holds. Pixels
    /// of the circle that lie beyond the canvas are left out.
    pub fn draw_circle(&mut self, circle: &Circle)
        requires
            old(self).wf(),
            circle.drawable(),
        ensures
            final(self).wf(),
            final(self).spec_width() == old(self).spec_width(),
            final(self).spec_height() == old(self).spec_height(),
            final(self).spec_center_x() == old(self).spec_center_x(),
            final(self).spec_center_y() == old(self).spec_center_y(),
            final(self)@ == painted(
                old(self)@,
                old(self).spec_width() as int,
                circle.x as int,
                circle.y as int,
                circle.radius as int,
                circle.color(),
            ),
            forall|x: int, y: int|
                final(self).contains(x, y) ==> #[trigger] final(self).pixel(x, y) == if disc_covers(
                    circle.radius as int,
                    x - circle.x,
                    y - circle.y,
                ) {
                    circle.color()
                } else {
                    old(self).pixel(x, y)
                },
            forall|x: int, y: int|
                final(self).contains(x, y) && beyond_square(
                    circle.x as int,
                    circle.y as int,
                    circle.radius as int,
                    x,
                    y,
                ) ==> #[trigger] final(self).pixel(x, y) == old(self).pixel(x, y),
            final(self).contains(circle.x as int, circle.y as int) ==> final(self).pixel(
                circle.x as int,
                circle.y as int,
            ) == circle.color(),
    {
        let color = Rgba { r: circle.r, g: circle.g, b: circle.b, a: 255 };
        fill_circle(
            &mut self.pixels,
            self.width,
            self.height,
            circle.x as i32,
            circle.y as i32,
            circle.radius as i32,
            color,
        );
        proof {
            assert forall|px: int, py: int| self.contains(px, py) implies (#[trigger] pixel_of(
                self@,
                self.width as int,
                px,
                py,
            )).a == 255 by {
                lemma_offset_in_bounds(self.width as int, self.height as int, px, py);
            }
            lemma_alpha_from_pixels(self@, self.width as int, self.height as int);
            let after = painted(
                old(self)@,
                self.width as int,
                circle.x as int,
                circle.y as int,
                circle.radius as int,
                color,
            );
            assert forall|i: int| 0 <= i < self@.len() implies self@[i] == after[i] by {
                let k = i / 4;
                lemma_coordinates(self.width as int, self.height as int, k);
                let x = k % (self.width as int);
                let y = k / (self.width as int);
                assert(offset(self.width as int, x, y) + i % 4 == i);
                assert(self.contains(x, y));
                assert(self.pixel(x, y) == if disc_covers(
                    circle.radius as int,
                    x - circle.x,
                    y - circle.y,
                ) {
                    color
                } else {
                    old(self).pixel(x, y)
                });
            }
            assert(self@ =~= after);
        }
    }
}

impl Clone for Canvas {
    fn clone(&self) -> (copy: Canvas)
        ensures
            copy@ == self@,
            copy.spec_width() == self.spec_width(),
            copy.spec_height() == self.spec_height(),
            copy.spec_center_x() == self.spec_center_x(),
            copy.spec_center_y() == self.spec_center_y(),
    {
        let pixels = self.pixels.clone();
        assert(pixels@ =~= self.pixels@);
        Canvas {
            center_x: self.center_x,
            center_y: self.center_y,
            width: self.width,
            height: self.height,
            pixels,
        }
    }
}

/// A pixel of a canvas lies inside its buffer.
pub proof fn lemma_offset_in_bounds(width: int, height: int, x: int, y: int)
    requires
        0 <= x < width,
        0 <= y < height,
    ensures
        0 <= offset(width, x, y),
        offset(width, x, y) + 4 <= 4 * (width * height),
        offset(width, x, y) % 4 == 0,
{
    assert(0 <= y * width && y * width + width <= width * height) by (nonlinear_arith)
        requires
            0 <= x < width,
            0 <= y < height,
    ;
}

/// The smaller of two numbers.
fn lesser(a: u32, b: u32) -> (least: u32)
    ensures
        least == smaller(a as int, b as int),
{
    if a <= b {
        a
    } else {
        b
    }
}

/// Decodes an image with `image`'s `load_from_memory` and turns it into
/// RGBA with `DynamicImage::into_rgba8`: the width, the height and the
/// pixels, or the decoder's error. Nothing is claimed of the outcome: what a
/// decoder makes of given bytes can differ from one machine to another.
#[verifier::external_body]
fn decode_rgba8(bytes: &[u8]) -> (decoded: Result<(u32, u32, Vec<u8>), image::ImageError>) {
    match image::load_from_memory(bytes) {
        Ok(decoded) => {
            let raster = decoded.into_rgba8();
            Ok((raster.width(), raster.height(), raster.into_raw()))
        },
        Err(error) => Err(error),
    }
}

/// The decoder's account of its error, as `image` formats it. Nothing is
/// claimed of the text.
#[verifier::external_body]
fn describe(error: &image::ImageError) -> (text: String) {
    format!("{}", error)
}

/// Fills a circle on an RGBA buffer with `imageproc`'s
/// `draw_filled_circle_mut`, which sets the pixels that it covers to the
/// colour and leaves the rest as they are. The contract names the set that
/// the rasteriser covers, `disc_covers`, and claims that it depends on the
/// radius and on a pixel's place relative to the centre alone. It also
/// claims what the rasteriser's loop shows of every call: the first row that
/// it draws is the one through the centre, so the centre is painted where it
/// lies on the buffer, and no row that it draws reaches beyond the radius,
/// so the pixels beyond the bounding square are as they were. The bound on
/// the coordinates keeps the rasteriser's arithmetic exact.
#[verifier::external_body]
fn fill_circle(
    pixels: &mut Vec<u8>,
    width: u32,
    height: u32,
    center_x: i32,
    center_y: i32,
    radius: i32,
    color: Rgba,
)
    requires
        old(pixels)@.len() == 4 * (width * height),
        width <= i32::MAX,
        height <= i32::MAX,
        0 <= radius,
        -MAX_DRAW_COORDINATE <= center_x - radius,
        center_x + radius <= MAX_DRAW_COORDINATE,
        -MAX_DRAW_COORDINATE <= center_y - radius,
        center_y + radius <= MAX_DRAW_COORDINATE,
    ensures
        final(pixels)@.len() == old(pixels)@.len(),
        forall|x: int, y: int|
            0 <= x < width && 0 <= y < height ==> #[trigger] pixel_of(
                final(pixels)@,
                width as int,
                x,
                y,
            ) == if disc_covers(radius as int, x - center_x, y - center_y) {
                color
            } else {
                pixel_of(old(pixels)@, width as int, x, y)
            },
        forall|x: int, y: int|
            0 <= x < width && 0 <= y < height && beyond_square(
                center_x as int,
                center_y as int,
                radius as int,
                x,
                y,
            ) ==> #[trigger] pixel_of(final(pixels)@, width as int, x, y) == pixel_of(
                old(pixels)@,
                width as int,
                x,
                y,
            ),
        0 <= center_x < width && 0 <= center_y < height ==> pixel_of(
            final(pixels)@,
            width as int,
            center_x as int,
            center_y as int,
        ) == color,
{
    let buffer = std::mem::take(pixels);
    let mut raster = image::RgbaImage::from_raw(width, height, buffer).unwrap();
    imageproc::drawing::draw_filled_circle_mut(
        &mut raster,
        (center_x, center_y),
        radius,
        image::Rgba([color.r, color.g, color.b, color.a]),
    );
    *pixels = raster.into_raw();
}

/// The bytes of a row's stretch of `cols` pixels from `x` on lie inside the
/// buffer.
proof fn lemma_row_in_bounds(width: int, height: int, x: int, cols: int, y: int)
    requires
        0 <= x,
        0 <= cols,
        x + cols <= width,
        0 <= y < height,
    ensures
        0 <= offset(width, x, y),
        0 <= y * width,
        y * width + width <= width * height,
        offset(width, x, y) + 4 * cols <= 4 * (width * height),
{
    assert(0 <= y * width && y * width + width <= width * height) by (nonlinear_arith)
        requires
            0 <= width,
            0 <= y < height,
    ;
}

/// A rectangle inside another has no more pixels.
proof fn lemma_smaller_area(cols: int, rows: int, width: int, height: int)
    requires
        0 <= cols <= width,
        0 <= rows <= height,
    ensures
        0 <= cols * rows <= width * height,
{
    assert(0 <= cols * rows <= width * height) by (nonlinear_arith)
        requires
            0 <= cols <= width,
            0 <= rows <= height,
    ;
}

/// A product of two numbers that are not negative is not negative.
pub proof fn lemma_product_not_negative(cols: int, rows: int)
    requires
        0 <= cols,
        0 <= rows,
    ensures
        0 <= cols * rows,
{
    assert(0 <= cols * rows) by (nonlinear_arith)
        requires
            0 <= cols,
            0 <= rows,
    ;
}

/// Rows that differ lie apart in the buffer: all of row `y` comes before all
/// of row `z` when `y < z`.
proof fn lemma_rows_apart(width: int, y: int, z: int)
    requires
        0 <= width,
        y < z,
    ensures
        y * width + width <= z * width,
{
    assert(y * width + width <= z * width) by (nonlinear_arith)
        requires
            0 <= width,
            y + 1 <= z,
    ;
}

/// A pixel is made of its four bytes.
pub proof fn lemma_pixel_from_bytes(bytes: Seq<u8>, width: int, x: int, y: int)
    ensures
        pixel_of(bytes, width, x, y) == (Rgba {
            r: byte_of(bytes, width, x, y, 0),
            g: byte_of(bytes, width, x, y, 1),
            b: byte_of(bytes, width, x, y, 2),
            a: byte_of(bytes, width, x, y, 3),
        }),
{
}

/// Every index of a buffer of `width` by `height` pixels is that of a pixel
/// inside it.
pub proof fn lemma_coordinates(width: int, height: int, k: int)
    requires
        0 <= k < width * height,
        0 <= width,
        0 <= height,
    ensures
        0 < width,
        0 <= k % width < width,
        0 <= k / width < height,
        (k / width) * width + k % width == k,
{
    assert(0 < width) by (nonlinear_arith)
        requires
            0 <= k < width * height,
            0 <= width,
    ;
    vstd::arithmetic::div_mod::lemma_fundamental_div_mod(k, width);
    vstd::arithmetic::div_mod::lemma_mod_bound(k, width);
    let q = k / width;
    let r = k % width;
    assert(q * width == width * q) by (nonlinear_arith);
    assert(0 <= q < height) by (nonlinear_arith)
        requires
            0 < width,
            0 <= r < width,
            0 <= k < width * height,
            k == width * q + r,
    ;
}

/// Where every pixel of a buffer is opaque, every fourth byte is 255.
pub proof fn lemma_alpha_from_pixels(bytes: Seq<u8>, width: int, height: int)
    requires
        0 <= width,
        0 <= height,
        bytes.len() == 4 * (width * height),
        forall|x: int, y: int|
            0 <= x < width && 0 <= y < height ==> (#[trigger] pixel_of(bytes, width, x, y)).a
                == 255,
    ensures
        forall|i: int| 0 <= i < bytes.len() && i % 4 == 3 ==> #[trigger] bytes[i] == 255,
{
    assert forall|i: int| 0 <= i < bytes.len() && i % 4 == 3 implies #[trigger] bytes[i]
        == 255 by {
        let k = i / 4;
        lemma_coordinates(width, height, k);
        let x = k % width;
        let y = k / width;
        assert(pixel_of(bytes, width, x, y).a == 255);
        assert(offset(width, x, y) + 3 == i);
    }
}

/// What a crop holds: it has four bytes for each of its pixels, and each of
/// its bytes is the byte of the source that lies at the same place counted
/// from the corner.
pub proof fn lemma_crop_rows(
    src: Seq<u8>,
    width: int,
    height: int,
    x: int,
    y: int,
    cols: int,
    rows: nat,
)
    requires
        src.len() == 4 * (width * height),
        0 <= x,
        0 <= y,
        0 <= cols,
        x + cols <= width,
        y + rows <= height,
    ensures
        crop_rows(src, width, x, y, cols, rows).len() == 4 * (cols * rows),
        forall|i: int, j: int, c: int|
            0 <= i < cols && 0 <= j < rows && 0 <= c < 4 ==> #[trigger] byte_of(
                crop_rows(src, width, x, y, cols, rows),
                cols,
                i,
                j,
                c,
            ) == byte_of(src, width, x + i, y + j, c),
    decreases rows,
{
    if rows > 0 {
        let before = crop_rows(src, width, x, y, cols, (rows - 1) as nat);
        let all = crop_rows(src, width, x, y, cols, rows);
        let start = offset(width, x, y + rows - 1);
        lemma_crop_rows(src, width, height, x, y, cols, (rows - 1) as nat);
        lemma_row_in_bounds(width, height, x, cols, y + rows - 1);
        assert(cols * rows == cols * (rows - 1) + cols) by (nonlinear_arith);
        assert((rows - 1) * cols == cols * (rows - 1)) by (nonlinear_arith);
        assert forall|i: int, j: int, c: int|
            0 <= i < cols && 0 <= j < rows && 0 <= c < 4 implies #[trigger] byte_of(
            all,
            cols,
            i,
            j,
            c,
        ) == byte_of(src, width, x + i, y + j, c) by {
            if j < rows - 1 {
                lemma_rows_apart(cols, j, rows - 1);
                assert(byte_of(before, cols, i, j, c) == byte_of(src, width, x + i, y + j, c));
                assert(0 <= j * cols) by (nonlinear_arith)
                    requires
                        0 <= j,
                        0 <= cols,
                ;
            }
        }
    } else {
        assert(cols * 0 == 0) by (nonlinear_arith);
    }
}

/// What a blit leaves: the buffer keeps its length, the bytes of the
/// rectangle are those of the source, and the others are as they were.
pub proof fn lemma_blit_rows(
    dst: Seq<u8>,
    width: int,
    height: int,
    x: int,
    y: int,
    src: Seq<u8>,
    src_width: int,
    cols: int,
    rows: nat,
)
    requires
        dst.len() == 4 * (width * height),
        0 <= x,
        0 <= y,
        0 <= cols,
        x + cols <= width,
        y + rows <= height,
        cols <= src_width,
        4 * (src_width * rows) <= src.len(),
    ensures
        blit_rows(dst, width, x, y, src, src_width, cols, rows).len() == dst.len(),
        forall|i: int, j: int, c: int|
            0 <= i < width && 0 <= j < height && 0 <= c < 4 ==> #[trigger] byte_of(
                blit_rows(dst, width, x, y, src, src_width, cols, rows),
                width,
                i,
                j,
                c,
            ) == if x <= i < x + cols && y <= j < y + rows {
                byte_of(src, src_width, i - x, j - y, c)
            } else {
                byte_of(dst, width, i, j, c)
            },
    decreases rows,
{
    if rows > 0 {
        let before = blit_rows(dst, width, x, y, src, src_width, cols, (rows - 1) as nat);
        let all = blit_rows(dst, width, x, y, src, src_width, cols, rows);
        let start = offset(width, x, y + rows - 1);
        let from = offset(src_width, 0, rows - 1);
        assert(4 * (src_width * (rows - 1)) <= src.len() && (rows - 1) * src_width + src_width
            == src_width * rows && src_width * (rows - 1) == (rows - 1) * src_width && 0 <= (rows
            - 1) * src_width) by (nonlinear_arith)
            requires
                4 * (src_width * rows) <= src.len(),
                0 <= src_width,
                rows >= 1,
        ;
        lemma_blit_rows(dst, width, height, x, y, src, src_width, cols, (rows - 1) as nat);
        lemma_row_in_bounds(width, height, x, cols, y + rows - 1);
        assert forall|i: int, j: int, c: int|
            0 <= i < width && 0 <= j < height && 0 <= c < 4 implies #[trigger] byte_of(
            all,
            width,
            i,
            j,
            c,
        ) == if x <= i < x + cols && y <= j < y + rows {
            byte_of(src, src_width, i - x, j - y, c)
        } else {
            byte_of(dst, width, i, j, c)
        } by {
            lemma_offset_in_bounds(width, height, i, j);
            assert(byte_of(before, width, i, j, c) == if x <= i < x + cols && y <= j < y + rows
                - 1 {
                byte_of(src, src_width, i - x, j - y, c)
            } else {
                byte_of(dst, width, i, j, c)
            });
            if j < y + rows - 1 {
                lemma_rows_apart(width, j, y + rows - 1);
            } else if j > y + rows - 1 {
                lemma_rows_apart(width, y + rows - 1, j);
            }
        }
    }
}

/// The pixels of a buffer on which a circle was filled.
pub proof fn lemma_painted_pixel(
    bytes: Seq<u8>,
    width: int,
    height: int,
    center_x: int,
    center_y: int,
    radius: int,
    color: Rgba,
    x: int,
    y: int,
)
    requires
        bytes.len() == 4 * (width * height),
        0 <= x < width,
        0 <= y < height,
    ensures
        pixel_of(painted(bytes, width, center_x, center_y, radius, color), width, x, y)
            == if disc_covers(radius, x - center_x, y - center_y) {
            color
        } else {
            pixel_of(bytes, width, x, y)
        },
{
    lemma_offset_in_bounds(width, height, x, y);
    vstd::arithmetic::div_mod::lemma_fundamental_div_mod_converse(y * width + x, width, y, x);
}

/// Every pixel of a canvas is opaque.
pub proof fn lemma_pixels_opaque(canvas: Canvas, x: int, y: int)
    requires
        canvas.wf(),
        canvas.contains(x, y),
    ensures
        canvas.pixel(x, y).a == 255,
{
    lemma_offset_in_bounds(canvas.spec_width() as int, canvas.spec_height() as int, x, y);
}

/// The section for a region that ends on the canvas is the region's
/// clipped square, uncut.
pub proof fn lemma_section_of_inner_region(canvas: Canvas, region: Region)
    requires
        canvas.wf(),
        region.wf(),
        region.max_x <= canvas.spec_width(),
        region.max_y <= canvas.spec_height(),
    ensures
        canvas.section_x(&region) == region.spec_real_origin_x(),
        canvas.section_y(&region) == region.spec_real_origin_y(),
        canvas.section_width(&region) == region.spec_real_width(),
        canvas.section_height(&region) == region.spec_real_height(),
{
}

/// The section for a region whose centre is the last pixel of a canvas
/// reaches from the centre back by the radius: it is one more than the
/// radius wide and high, or as wide and high as the canvas where that is
/// less.
pub proof fn lemma_section_at_far_corner(canvas: Canvas, region: Region)
    requires
        canvas.wf(),
        region.wf(),
        region.radius >= 1,
        region.center_x == canvas.spec_width() - 1,
        region.center_y == canvas.spec_height() - 1,
    ensures
        canvas.section_width(&region) == smaller(
            canvas.spec_width() as int,
            region.radius + 1,
        ),
        canvas.section_height(&region) == smaller(
            canvas.spec_height() as int,
            region.radius + 1,
        ),
{
}

/// The distance of a buffer from itself is zero.
pub proof fn lemma_delta_self(a: Seq<u8>)
    ensures
        seq_delta(a, a) == 0,
    decreases a.len(),
{
    if a.len() > 0 {
        lemma_delta_self(a.drop_last());
    }
}

/// The distance between two buffers is the same in both directions.
pub proof fn lemma_delta_symmetric(a: Seq<u8>, b: Seq<u8>)
    requires
        a.len() == b.len(),
    ensures
        seq_delta(a, b) == seq_delta(b, a),
    decreases a.len(),
{
    if a.len() > 0 {
        lemma_delta_symmetric(a.drop_last(), b.drop_last());
    }
}

/// The distance between two buffers of one length is never negative, and it
/// is zero exactly when the two are equal.
pub proof fn lemma_delta_zero(a: Seq<u8>, b: Seq<u8>)
    requires
        a.len() == b.len(),
    ensures
        0 <= seq_delta(a, b),
        seq_delta(a, b) == 0 <==> a == b,
    decreases a.len(),
{
    if a.len() > 0 {
        lemma_delta_zero(a.drop_last(), b.drop_last());
        if seq_delta(a, b) == 0 {
            assert(a.drop_last() == b.drop_last());
            assert(a.last() == b.last());
            assert(a =~= a.drop_last().push(a.last()));
            assert(b =~= b.drop_last().push(b.last()));
        }
        if a == b {
            lemma_delta_self(a);
        }
    } else {
        assert(a =~= b);
    }
}

/// For canvases of one size: the distance of a canvas from itself is zero,
/// the distance is the same in both directions, and it is zero exactly when
/// the two canvases are equal.
pub proof fn lemma_canvas_delta(a: Canvas, b: Canvas)
    requires
        a.wf(),
        b.wf(),
        a.spec_width() == b.spec_width(),
        a.spec_height() == b.spec_height(),
    ensures
        a.spec_delta(&a) == 0,
        a.spec_delta(&b) == b.spec_delta(&a),
        a.spec_delta(&b) == 0 <==> a.spec_is_equal(&b),
{
    lemma_delta_self(a@);
    lemma_delta_symmetric(a@, b@);
    lemma_delta_zero(a@, b@);
}

/// The distance between two buffers is the sum of the distances between
/// their parts.
pub proof fn lemma_delta_concat(a1: Seq<u8>, b1: Seq<u8>, a2: Seq<u8>, b2: Seq<u8>)
    requires
        a1.len() == b1.len(),
        a2.len() == b2.len(),
    ensures
        seq_delta(a1 + a2, b1 + b2) == seq_delta(a1, b1) + seq_delta(a2, b2),
    decreases a2.len(),
{
    if a2.len() == 0 {
        assert(a1 + a2 =~= a1);
        assert(b1 + b2 =~= b1);
    } else {
        lemma_delta_concat(a1, b1, a2.drop_last(), b2.drop_last());
        assert((a1 + a2).drop_last() =~= a1 + a2.drop_last());
        assert((b1 + b2).drop_last() =~= b1 + b2.drop_last());
    }
}

/// Replacing a stretch of a buffer changes its distance from another by the
/// change of the distance on that stretch.
pub proof fn lemma_delta_splice(
    a: Seq<u8>,
    b: Seq<u8>,
    start: int,
    src: Seq<u8>,
    from: int,
    count: int,
)
    requires
        a.len() == b.len(),
        0 <= start,
        0 <= count,
        start + count <= b.len(),
        0 <= from,
        from + count <= src.len(),
    ensures
        seq_delta(a, splice(b, start, src, from, count)) == seq_delta(a, b) - seq_delta(
            a.subrange(start, start + count),
            b.subrange(start, start + count),
        ) + seq_delta(a.subrange(start, start + count), src.subrange(from, from + count)),
{
    let end = start + count;
    let len = a.len() as int;
    let a0 = a.subrange(0, start);
    let a1 = a.subrange(start, end);
    let a2 = a.subrange(end, len);
    let b0 = b.subrange(0, start);
    let b1 = b.subrange(start, end);
    let b2 = b.subrange(end, len);
    let s1 = src.subrange(from, from + count);
    assert(a =~= (a0 + a1) + a2);
    assert(b =~= (b0 + b1) + b2);
    assert(splice(b, start, src, from, count) =~= (b0 + s1) + b2);
    lemma_delta_concat(a0, b0, a1, b1);
    lemma_delta_concat(a0 + a1, b0 + b1, a2, b2);
    lemma_delta_concat(a0, b0, a1, s1);
    lemma_delta_concat(a0 + a1, b0 + s1, a2, b2);
}

/// A blit changes the distance of a canvas from a reference by the change
/// of the distance inside the rectangle: what the rectangle held is replaced
/// by what was written, and nothing else counts.
pub proof fn lemma_delta_blit(
    reference: Seq<u8>,
    current: Seq<u8>,
    width: int,
    height: int,
    x: int,
    y: int,
    src: Seq<u8>,
    cols: int,
    rows: nat,
)
    requires
        reference.len() == 4 * (width * height),
        current.len() == 4 * (width * height),
        0 <= x,
        0 <= y,
        0 <= cols,
        x + cols <= width,
        y + rows <= height,
        4 * (cols * rows) <= src.len(),
    ensures
        seq_delta(reference, blit_rows(current, width, x, y, src, cols, cols, rows)) == seq_delta(
            reference,
            current,
        ) - seq_delta(
            crop_rows(reference, width, x, y, cols, rows),
            crop_rows(current, width, x, y, cols, rows),
        ) + seq_delta(
            crop_rows(reference, width, x, y, cols, rows),
            src.subrange(0, 4 * (cols * rows)),
        ),
    decreases rows,
{
    if rows == 0 {
        assert(cols * 0 == 0) by (nonlinear_arith);
        assert(src.subrange(0, 0) =~= Seq::<u8>::empty());
    } else {
        let less = (rows - 1) as nat;
        let before = blit_rows(current, width, x, y, src, cols, cols, less);
        let start = offset(width, x, y + rows - 1);
        let from = offset(cols, 0, rows - 1);
        let count = 4 * cols;
        assert(cols * rows == cols * less + cols && (rows - 1) * cols == cols * less && 0 <= cols
            * less) by (nonlinear_arith)
            requires
                less == rows - 1,
                0 <= cols,
                rows >= 1,
        ;
        lemma_delta_blit(reference, current, width, height, x, y, src, cols, less);
        lemma_blit_rows(current, width, height, x, y, src, cols, cols, less);
        lemma_crop_rows(reference, width, height, x, y, cols, less);
        lemma_crop_rows(current, width, height, x, y, cols, less);
        lemma_row_in_bounds(width, height, x, cols, y + rows - 1);
        lemma_delta_splice(reference, before, start, src, from, count);
        // The row that is written now is still as the canvas had it.
        let written = before.subrange(start, start + count);
        let kept = current.subrange(start, start + count);
        assert(written =~= kept) by {
            assert forall|t: int| 0 <= t < count implies #[trigger] written[t] == kept[t] by {
                let i = x + t / 4;
                let j = y + rows - 1;
                assert(offset(width, i, j) + t % 4 == start + t);
                assert(byte_of(before, width, i, j, t % 4) == byte_of(
                    current,
                    width,
                    i,
                    j,
                    t % 4,
                ));
            }
        }
        lemma_delta_concat(
            crop_rows(reference, width, x, y, cols, less),
            crop_rows(current, width, x, y, cols, less),
            reference.subrange(start, start + count),
            current.subrange(start, start + count),
        );
        lemma_delta_concat(
            crop_rows(reference, width, x, y, cols, less),
            src.subrange(0, 4 * (cols * less)),
            reference.subrange(start, start + count),
            src.subrange(from, from + count),
        );
        assert(src.subrange(0, 4 * (cols * rows)) =~= src.subrange(0, 4 * (cols * less))
            + src.subrange(from, from + count));
    }
}

} // verus!
