//! The pixel grid that everything is drawn into.
//!
//! The grid itself is an `image::RgbaImage`.  Verus cannot look inside it, so
//! this module names what it holds and states, for each of its methods that
//! the rasterizer calls, what that method does to those contents.

use image::RgbaImage;
use vstd::prelude::*;

verus! {

/// An RGBA colour with eight bits per channel.
#[derive(Clone, Copy, Debug, PartialEq, Eq, Structural)]
pub struct Color {
    pub r: u8,
    pub g: u8,
    pub b: u8,
    pub a: u8,
}

/// The pixel grid: an `image::RgbaImage`, held where the verifier does not
/// look. What it holds is named by [`canvas_pixels`] and [`canvas_size`].
#[verifier::external_body]
pub struct Canvas {
    img: RgbaImage,
}

/// The colour stored at each position `(x, y)` of the grid. Only positions
/// inside the grid carry meaning.
pub uninterp spec fn canvas_pixels(c: Canvas) -> Map<(int, int), Color>;

/// The grid's width and height, in that order.
pub uninterp spec fn canvas_size(c: Canvas) -> (nat, nat);

/// What a canvas looks like to a contract: its size and its pixels.
pub struct Grid {
    pub width: nat,
    pub height: nat,
    pub pixels: Map<(int, int), Color>,
}

impl Grid {
    /// Whether `(x, y)` lies inside the grid.
    pub open spec fn inside(self, x: int, y: int) -> bool {
        0 <= x < self.width && 0 <= y < self.height
    }

    /// The colour at `(x, y)`.
    pub open spec fn at(self, x: int, y: int) -> Color {
        self.pixels[(x, y)]
    }

    /// Whether both grids have the same width and height.
    pub open spec fn same_size(self, other: Grid) -> bool {
        self.width == other.width && self.height == other.height
    }

    /// Whether `self` is `before` with every pixel of `region` that lies
    /// inside the grid set to `color`, and every other pixel left alone.
    pub open spec fn is_painted(self, before: Grid, region: Set<(int, int)>, color: Color) -> bool {
        &&& self.same_size(before)
        &&& forall|x: int, y: int|
            #![trigger self.inside(x, y)]
            #![trigger self.pixels[(x, y)]]
            self.inside(x, y) ==> self.pixels[(x, y)] == if region.contains((x, y)) {
                color
            } else {
                before.at(x, y)
            }
    }
}

/// Painting one more pixel of a region.
pub proof fn lemma_paint_one(
    after: Grid,
    mid: Grid,
    before: Grid,
    region: Set<(int, int)>,
    color: Color,
    x: int,
    y: int,
)
    requires
        mid.is_painted(before, region, color),
        after.same_size(mid),
        after.pixels == if mid.inside(x, y) {
            mid.pixels.insert((x, y), color)
        } else {
            mid.pixels
        },
    ensures
        after.is_painted(before, region.insert((x, y)), color),
{
    assert forall|px: int, py: int| #[trigger] after.inside(px, py) implies after.at(px, py)
        == if region.insert((x, y)).contains((px, py)) {
        color
    } else {
        before.at(px, py)
    } by {
        assert(mid.inside(px, py));
    }
}

/// Painting a second region in the same colour paints both.
pub proof fn lemma_paint_more(
    after: Grid,
    mid: Grid,
    before: Grid,
    first: Set<(int, int)>,
    second: Set<(int, int)>,
    color: Color,
)
    requires
        mid.is_painted(before, first, color),
        after.is_painted(mid, second, color),
    ensures
        after.is_painted(before, first.union(second), color),
{
    assert forall|px: int, py: int| #[trigger] after.inside(px, py) implies after.at(px, py)
        == if first.union(second).contains((px, py)) {
        color
    } else {
        before.at(px, py)
    } by {
        assert(mid.inside(px, py));
    }
}

impl View for Canvas {
    type V = Grid;

    open spec fn view(&self) -> Grid {
        Grid {
            width: canvas_size(*self).0,
            height: canvas_size(*self).1,
            pixels: canvas_pixels(*self),
        }
    }
}

/// Calls `ImageBuffer::new`, which panics when the buffer would be larger than
/// a vector may be, and otherwise returns a grid of the given size whose
/// channels are all zero.
#[verifier::external_body]
fn image_new(width: u32, height: u32) -> (c: Canvas)
    requires
        4 * width * height <= isize::MAX,
    ensures
        canvas_size(c) == (width as nat, height as nat),
        forall|x: int, y: int|
            0 <= x < width && 0 <= y < height ==> #[trigger] canvas_pixels(c)[(x, y)] == (Color {
                r: 0,
                g: 0,
                b: 0,
                a: 0,
            }),
{
    Canvas { img: RgbaImage::new(width, height) }
}

/// Calls `ImageBuffer::width`, which returns the width the buffer was made
/// with.
#[verifier::external_body]
fn image_width(c: &Canvas) -> (w: u32)
    ensures
        w == canvas_size(*c).0,
{
    c.img.width()
}

/// Calls `ImageBuffer::height`, which returns the height the buffer was made
/// with.
#[verifier::external_body]
fn image_height(c: &Canvas) -> (h: u32)
    ensures
        h == canvas_size(*c).1,
{
    c.img.height()
}

/// Calls `ImageBuffer::get_pixel`, which panics outside the grid and
/// otherwise returns the pixel stored at `(x, y)`.
#[verifier::external_body]
fn image_get(c: &Canvas, x: u32, y: u32) -> (color: Color)
    requires
        x < canvas_size(*c).0,
        y < canvas_size(*c).1,
    ensures
        color == canvas_pixels(*c)[(x as int, y as int)],
{
    let p = c.img.get_pixel(x, y);
    Color { r: p.0[0], g: p.0[1], b: p.0[2], a: p.0[3] }
}

/// Calls `ImageBuffer::put_pixel`, which panics outside the grid and
/// otherwise overwrites the one pixel at `(x, y)`, leaving the size and every
/// other pixel as they were.
#[verifier::external_body]
fn image_put(c: &mut Canvas, x: u32, y: u32, color: Color)
    requires
        x < canvas_size(*old(c)).0,
        y < canvas_size(*old(c)).1,
    ensures
        canvas_size(*final(c)) == canvas_size(*old(c)),
        canvas_pixels(*final(c)) == canvas_pixels(*old(c)).insert((x as int, y as int), color),
{
    c.img.put_pixel(x, y, image::Rgba([color.r, color.g, color.b, color.a]));
}

/// Calls `imageops::flip_vertical_in_place`, which exchanges each row with
/// the row as far from the other edge, and leaves the size as it was.
#[verifier::external_body]
fn image_flip(c: &mut Canvas)
    ensures
        canvas_size(*final(c)) == canvas_size(*old(c)),
        forall|x: int, y: int|
            0 <= x < canvas_size(*old(c)).0 && 0 <= y < canvas_size(*old(c)).1
                ==> #[trigger] canvas_pixels(*final(c))[(x, y)] == canvas_pixels(*old(c))[(
                x,
                canvas_size(*old(c)).1 - 1 - y,
            )],
{
    image::imageops::flip_vertical_in_place(&mut c.img);
}

impl Canvas {
    /// Turns the picture upside down: the bottom row becomes the top row.
    pub fn flip_vertical(&mut self)
        ensures
            final(self)@.same_size(old(self)@),
            forall|x: int, y: int|
                #![trigger final(self)@.inside(x, y)]
                #![trigger final(self)@.pixels[(x, y)]]
                final(self)@.inside(x, y) ==> final(self)@.pixels[(x, y)] == old(self)@.at(
                    x,
                    old(self)@.height - 1 - y,
                ),
    {
        image_flip(self);
    }

    /// A canvas of the given size with every channel of every pixel zero, or
    /// `None` when that many pixels cannot be held in memory.
    pub fn new(width: u32, height: u32) -> (r: Option<Canvas>)
        ensures
            r.is_some() <==> 4 * width * height <= isize::MAX,
            r matches Some(c) ==> c@.width == width && c@.height == height && forall|
                x: int,
                y: int,
            |
                #![trigger c@.inside(x, y)]
                #![trigger c@.pixels[(x, y)]]
                c@.inside(x, y) ==> c@.pixels[(x, y)] == (Color { r: 0, g: 0, b: 0, a: 0 }),
    {
        assert(width * height <= 0xffff_ffff * 0xffff_ffff) by (nonlinear_arith)
            requires
                width <= 0xffff_ffff,
                height <= 0xffff_ffff,
        ;
        assert(4 * width * height == 4 * (width * height)) by (nonlinear_arith);
        let area: u64 = (width as u64) * (height as u64);
        let bytes: u128 = 4 * (area as u128);
        if bytes > isize::MAX as u128 {
            return None;
        }
        Some(image_new(width, height))
    }

    /// Width in pixels.
    pub fn width(&self) -> (w: u32)
        ensures
            w == self@.width,
    {
        image_width(self)
    }

    /// Height in pixels.
    pub fn height(&self) -> (h: u32)
        ensures
            h == self@.height,
    {
        image_height(self)
    }

    /// The colour at `(x, y)`, or `None` outside the grid.
    pub fn pixel(&self, x: u32, y: u32) -> (r: Option<Color>)
        ensures
            r == if self@.inside(x as int, y as int) {
                Some(self@.at(x as int, y as int))
            } else {
                None
            },
    {
        if x < image_width(self) && y < image_height(self) {
            Some(image_get(self, x, y))
        } else {
            None
        }
    }
}

/// Writes `color` at `(x, y)` if that position lies inside the grid, and does
/// nothing otherwise.
pub fn put_pixel(image: &mut Canvas, x: i64, y: i64, color: Color)
    ensures
        final(image)@.same_size(old(image)@),
        final(image)@.pixels == if old(image)@.inside(x as int, y as int) {
            old(image)@.pixels.insert((x as int, y as int), color)
        } else {
            old(image)@.pixels
        },
{
    let w: u32 = image_width(image);
    let h: u32 = image_height(image);
    if x < 0 || y < 0 || x >= w as i64 || y >= h as i64 {
        return ;
    }
    image_put(image, x as u32, y as u32, color);
}

} // verus!
