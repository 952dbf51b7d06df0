//! The raster image model: a grid of RGB pixels.
//!
//! The engine works on a mutable working copy of the input image and
//! uses erasure to the background color as its visited marker: once a
//! pixel has been attributed to a shape it is repainted white so no
//! later stage re-detects it.

use vstd::prelude::*;

verus! {

/// Image dimensions are capped here; together with the bounds of
/// [`crate::config::Config::valid`] this keeps every coordinate the
/// pipeline ever produces far inside [`crate::geometry::GEOM_BOUND`].
pub const MAX_DIM: usize = 8192;

/// An 8-bit RGB pixel color.
#[derive(Clone, Copy, PartialEq, Eq, Structural, Debug)]
pub struct Color {
    pub r: u8,
    pub g: u8,
    pub b: u8,
}

/// The background color that erasure paints.
pub open spec fn white() -> Color {
    Color { r: 255, g: 255, b: 255 }
}

/// A pixel counts as ink when all three channels are strictly below
/// the discrimination threshold.
pub open spec fn is_ink(c: Color, thr: u8) -> bool {
    c.r < thr && c.g < thr && c.b < thr
}

/// A `width` x `height` grid of pixels, stored row-major.
pub struct Raster {
    pub width: usize,
    pub height: usize,
    pub pixels: Vec<Color>,
}

impl Raster {
    /// Well-formed: the pixel store matches the dimensions, and the
    /// dimensions respect [`MAX_DIM`].
    pub open spec fn wf(self) -> bool {
        &&& self.pixels.len() == self.width * self.height
        &&& self.width <= MAX_DIM
        &&& self.height <= MAX_DIM
    }

    /// `(x, y)` is a pixel position of this image.
    pub open spec fn valid_xy(self, x: int, y: int) -> bool {
        0 <= x < self.width && 0 <= y < self.height
    }

    /// The color of the pixel at `(x, y)`.
    pub open spec fn color_at(self, x: int, y: int) -> Color {
        self.pixels[y * self.width + x]
    }

    /// The pixel at `(x, y)` is ink under threshold `thr`.
    pub open spec fn ink_at(self, x: int, y: int, thr: u8) -> bool {
        is_ink(self.color_at(x, y), thr)
    }

    /// Same dimensions as `other`.
    pub open spec fn same_dims(self, other: Raster) -> bool {
        self.width == other.width && self.height == other.height
    }

    /// A fresh all-white image.
    pub fn new(width: usize, height: usize) -> (r: Raster)
        requires
            width <= MAX_DIM,
            height <= MAX_DIM,
        ensures
            r.wf(),
            r.width == width,
            r.height == height,
            forall|x: int, y: int| r.valid_xy(x, y) ==> r.color_at(x, y) == white(),
    {
        proof {
            lemma_area_bound(width as int, height as int);
        }
        let n = width * height;
        let mut pixels: Vec<Color> = Vec::new();
        while pixels.len() < n
            invariant
                pixels.len() <= n,
                forall|i: int| 0 <= i < pixels.len() ==> pixels[i] == white(),
            decreases n - pixels.len(),
        {
            pixels.push(Color { r: 255, g: 255, b: 255 });
        }
        let r = Raster { width, height, pixels };
        proof {
            assert forall|x: int, y: int| r.valid_xy(x, y) implies r.color_at(x, y)
                == white() by {
                lemma_grid_index(width as int, height as int, x, y);
            }
        }
        r
    }

    /// The color of the pixel at `(x, y)`.
    pub fn get(&self, x: usize, y: usize) -> (c: Color)
        requires
            self.wf(),
            x < self.width,
            y < self.height,
        ensures
            c == self.color_at(x as int, y as int),
    {
        proof {
            lemma_grid_index(self.width as int, self.height as int, x as int, y as int);
        }
        self.pixels[y * self.width + x]
    }

    /// Whether the pixel at `(x, y)` is ink under threshold `thr`.
    pub fn is_ink_at(&self, x: usize, y: usize, thr: u8) -> (b: bool)
        requires
            self.wf(),
            x < self.width,
            y < self.height,
        ensures
            b == self.ink_at(x as int, y as int, thr),
    {
        let c = self.get(x, y);
        c.r < thr && c.g < thr && c.b < thr
    }

    /// Repaint the pixel at `(x, y)` with `c`, leaving every other
    /// pixel unchanged.
    pub fn set_pixel(&mut self, x: usize, y: usize, c: Color)
        requires
            old(self).wf(),
            x < old(self).width,
            y < old(self).height,
        ensures
            final(self).wf(),
            final(self).same_dims(*old(self)),
            final(self).color_at(x as int, y as int) == c,
            forall|xx: int, yy: int|
                final(self).valid_xy(xx, yy) && !(xx == x && yy == y) ==> final(self).color_at(
                    xx, yy) == old(self).color_at(xx, yy),
            final(self).pixels@ == old(self).pixels@.update(
                y * old(self).width + x,
                c,
            ),
    {
        proof {
            lemma_grid_index(self.width as int, self.height as int, x as int, y as int);
        }
        self.pixels.set(y * self.width + x, c);
        proof {
            assert forall|xx: int, yy: int|
                self.valid_xy(xx, yy) && !(xx == x && yy == y) implies self.color_at(xx, yy)
                == old(self).color_at(xx, yy) by {
                lemma_grid_index(self.width as int, self.height as int, xx, yy);
                if yy * self.width + xx == y * self.width + x {
                    lemma_grid_index_unique(self.width as int, xx, yy, x as int, y as int);
                }
            }
        }
    }

    /// An independent working copy of this image, pixel for pixel.
    pub fn duplicate(&self) -> (r: Raster)
        requires
            self.wf(),
        ensures
            r.wf(),
            r.width == self.width,
            r.height == self.height,
            r.pixels@ == self.pixels@,
    {
        let mut pixels: Vec<Color> = Vec::new();
        let mut i: usize = 0;
        while i < self.pixels.len()
            invariant
                i <= self.pixels.len(),
                pixels@ == self.pixels@.take(i as int),
            decreases self.pixels.len() - i,
        {
            pixels.push(self.pixels[i]);
            proof {
                assert(pixels@ =~= self.pixels@.take(i + 1));
            }
            i = i + 1;
        }
        proof {
            assert(self.pixels@.take(self.pixels@.len() as int) =~= self.pixels@);
        }
        Raster { width: self.width, height: self.height, pixels }
    }

    /// Erase the pixel at `(x, y)` to the background color.
    pub fn erase(&mut self, x: usize, y: usize)
        requires
            old(self).wf(),
            x < old(self).width,
            y < old(self).height,
        ensures
            final(self).wf(),
            final(self).same_dims(*old(self)),
            final(self).color_at(x as int, y as int) == white(),
            forall|xx: int, yy: int|
                final(self).valid_xy(xx, yy) && !(xx == x && yy == y) ==> final(self).color_at(
                    xx, yy) == old(self).color_at(xx, yy),
            final(self).pixels@ == old(self).pixels@.update(
                y * old(self).width + x,
                white(),
            ),
    {
        self.set_pixel(x, y, Color { r: 255, g: 255, b: 255 });
    }
}

/// How many ink pixels a pixel store holds; the flood fill's
/// termination measure.
pub open spec fn count_ink_seq(s: Seq<Color>, thr: u8) -> nat
    decreases s.len(),
{
    if s.len() == 0 {
        0
    } else {
        count_ink_seq(s.drop_last(), thr) + (if is_ink(s.last(), thr) {
            1nat
        } else {
            0nat
        })
    }
}

/// Overwriting an ink pixel with a background color lowers the ink
/// count by exactly one.
pub proof fn lemma_count_ink_update(s: Seq<Color>, j: int, c: Color, thr: u8)
    requires
        0 <= j < s.len(),
        is_ink(s[j], thr),
        !is_ink(c, thr),
    ensures
        count_ink_seq(s.update(j, c), thr) + 1 == count_ink_seq(s, thr),
    decreases s.len(),
{
    if j == s.len() - 1 {
        assert(s.update(j, c).drop_last() =~= s.drop_last());
        assert(s.update(j, c).last() == c);
    } else {
        lemma_count_ink_update(s.drop_last(), j, c, thr);
        assert(s.update(j, c).drop_last() =~= s.drop_last().update(j, c));
        assert(s.update(j, c).last() == s.last());
    }
}

/// The area of a well-formed image fits comfortably in `usize`.
pub proof fn lemma_area_bound(w: int, h: int)
    requires
        0 <= w <= MAX_DIM,
        0 <= h <= MAX_DIM,
    ensures
        0 <= w * h <= 0x4000000,
{
    assert(0 <= w * h <= 0x4000000) by (nonlinear_arith)
        requires
            0 <= w <= 0x2000 && 0 <= h <= 0x2000,
    ;
}

/// The row-major index of a valid position lies inside the store.
pub proof fn lemma_grid_index(w: int, h: int, x: int, y: int)
    requires
        0 <= x < w,
        0 <= y < h,
    ensures
        0 <= y * w + x < w * h,
{
    assert(0 <= y * w && y * w + w <= h * w) by (nonlinear_arith)
        requires
            0 <= y < h && 0 < w,
    ;
    assert(w * h == h * w) by (nonlinear_arith);
}

/// Distinct valid positions map to distinct row-major indices.
pub proof fn lemma_grid_index_unique(w: int, x1: int, y1: int, x2: int, y2: int)
    requires
        0 <= x1 < w,
        0 <= x2 < w,
        0 <= y1,
        0 <= y2,
        y1 * w + x1 == y2 * w + x2,
    ensures
        x1 == x2 && y1 == y2,
{
    if y1 < y2 {
        assert(y1 * w + w <= y2 * w) by (nonlinear_arith)
            requires
                y1 < y2 && 0 < w,
        ;
    }
    if y2 < y1 {
        assert(y2 * w + w <= y1 * w) by (nonlinear_arith)
            requires
                y2 < y1 && 0 < w,
        ;
    }
}

} // verus!
