//! A plain RGBA pixel buffer: the raw-pixel protocol the codec works on.
//! An image-file codec supplies such buffers on decode and accepts them
//! back on encode; this module only stores and addresses the pixels.

use vstd::arithmetic::div_mod::{lemma_fundamental_div_mod, lemma_mod_bound};
use vstd::arithmetic::mul::{lemma_mul_inequality, lemma_mul_is_commutative};
use vstd::prelude::*;

verus! {

/// One RGBA pixel.
#[derive(Debug, Clone, Copy, PartialEq, Eq, Structural)]
pub struct Pixel {
    pub r: u8,
    pub g: u8,
    pub b: u8,
    pub a: u8,
}

/// A rectangular, row-major RGBA buffer addressed as (x, y) with the
/// origin at the top left.
#[derive(Debug)]
pub struct Bitmap {
    width: u32,
    height: u32,
    pixels: Vec<Pixel>,
}

/// `0 <= y*w + x < w*h` whenever `(x, y)` lies in a `w` by `h` rectangle.
pub proof fn lemma_grid_index(w: int, h: int, x: int, y: int)
    requires
        0 <= x < w,
        0 <= y < h,
    ensures
        0 <= y * w + x < w * h,
{
    assert(0 <= y * w + x < w * h) by (nonlinear_arith)
        requires
            0 <= x < w,
            0 <= y < h,
    ;
}

/// `sub` holds exactly the pixels of the `w` by `h` rectangle of `b`
/// whose top-left corner is (x, y).
pub open spec fn is_crop_of(sub: Bitmap, b: Bitmap, x: int, y: int, w: int, h: int) -> bool {
    &&& sub.wf()
    &&& sub.spec_width() == w
    &&& sub.spec_height() == h
    &&& forall|i: int, j: int| sub.in_bounds(i, j) ==> #[trigger] sub.at(i, j) == b.at(x + i, y + j)
}

/// A well-formed buffer's pixel count fits the address space.
pub proof fn lemma_wf_area(b: Bitmap)
    requires
        b.wf(),
    ensures
        0 <= b.spec_width() * b.spec_height() <= usize::MAX,
{
    assert(b.spec_width() * b.spec_height() >= 0) by (nonlinear_arith)
        requires
            b.spec_width() >= 0,
            b.spec_height() >= 0,
    ;
}

/// Both dimensions of any buffer are representable pixel counts.
pub broadcast proof fn lemma_bitmap_dims(b: Bitmap)
    ensures
        #![trigger b.spec_width()]
        #![trigger b.spec_height()]
        0 <= b.spec_width() <= u32::MAX && 0 <= b.spec_height() <= u32::MAX,
{
}

/// A well-formed buffer holds one pixel per coordinate of its grid.
pub broadcast proof fn lemma_bitmap_flat_len(b: Bitmap)
    ensures
        b.wf() ==> #[trigger] b.flat().len() == b.spec_width() * b.spec_height(),
{
}

/// The pixel at (x, y) is the flat store's entry at its row-major
/// position.
pub broadcast proof fn lemma_bitmap_flat_at(b: Bitmap, x: int, y: int)
    ensures
        b.in_bounds(x, y) ==> #[trigger] b.at(x, y) == b.flat()[y * b.spec_width() + x],
{
}

/// The coordinates a flat row-major position stands for.
pub proof fn lemma_flat_coords(w: int, h: int, k: int)
    requires
        0 < w,
        0 <= k < w * h,
    ensures
        0 <= k % w < w,
        0 <= k / w < h,
        k == (k / w) * w + (k % w),
{
    lemma_fundamental_div_mod(k, w);
    lemma_mod_bound(k, w);
    lemma_mul_is_commutative(k / w, w);
    assert(0 <= k / w < h) by (nonlinear_arith)
        requires
            0 < w,
            0 <= k < w * h,
            k == w * (k / w) + (k % w),
            0 <= k % w < w,
    ;
}

impl Bitmap {
    /// Buffer width in pixels.
    pub closed spec fn spec_width(&self) -> int {
        self.width as int
    }

    /// Buffer height in pixels.
    pub closed spec fn spec_height(&self) -> int {
        self.height as int
    }

    /// The pixel stored at (x, y); meaningless outside the buffer.
    pub closed spec fn at(&self, x: int, y: int) -> Pixel {
        self.pixels@[y * self.spec_width() + x]
    }

    /// The pixels in row-major order.
    pub closed spec fn flat(&self) -> Seq<Pixel> {
        self.pixels@
    }

    /// The backing store holds exactly one pixel per coordinate.
    pub closed spec fn wf(&self) -> bool {
        &&& self.pixels@.len() == self.spec_width() * self.spec_height()
        &&& self.spec_width() * self.spec_height() <= usize::MAX
    }

    /// True when (x, y) addresses a pixel of this buffer.
    pub open spec fn in_bounds(&self, x: int, y: int) -> bool {
        0 <= x < self.spec_width() && 0 <= y < self.spec_height()
    }

    pub fn width(&self) -> (r: u32)
        ensures
            r == self.spec_width(),
    {
        self.width
    }

    pub fn height(&self) -> (r: u32)
        ensures
            r == self.spec_height(),
    {
        self.height
    }

    /// Allocates a `width` by `height` buffer with every pixel set to
    /// `fill`; `None` when the pixel count exceeds the address space.
    pub fn new(width: u32, height: u32, fill: Pixel) -> (r: Option<Bitmap>)
        ensures
            width * height <= usize::MAX ==> match r {
                Some(b) => {
                    &&& b.wf()
                    &&& b.spec_width() == width
                    &&& b.spec_height() == height
                    &&& forall|x: int, y: int| b.in_bounds(x, y) ==> b.at(x, y) == fill
                },
                None => false,
            },
            width * height > usize::MAX ==> r is None,
    {
        let n = match (width as usize).checked_mul(height as usize) {
            Some(n) => n,
            None => {
                return None;
            },
        };
        let mut pixels: Vec<Pixel> = Vec::new();
        let mut i: usize = 0;
        while i < n
            invariant
                i <= n,
                n == width * height,
                pixels@.len() == i,
                forall|k: int| 0 <= k < i ==> pixels@[k] == fill,
            decreases n - i,
        {
            pixels.push(fill);
            i = i + 1;
        }
        let b = Bitmap { width, height, pixels };
        proof {
            assert forall|x: int, y: int| b.in_bounds(x, y) implies b.at(x, y) == fill by {
                lemma_grid_index(width as int, height as int, x, y);
            }
        }
        Some(b)
    }

    fn index_of(&self, x: u32, y: u32) -> (r: usize)
        requires
            self.wf(),
            self.in_bounds(x as int, y as int),
        ensures
            r == y * self.spec_width() + x,
            r < self.pixels@.len(),
    {
        proof {
            lemma_grid_index(self.spec_width(), self.spec_height(), x as int, y as int);
        }
        (y as usize) * (self.width as usize) + (x as usize)
    }

    /// The pixel at (x, y), or `None` outside the buffer.
    pub fn get(&self, x: u32, y: u32) -> (r: Option<Pixel>)
        requires
            self.wf(),
        ensures
            self.in_bounds(x as int, y as int) ==> r == Some(self.at(x as int, y as int)),
            !self.in_bounds(x as int, y as int) ==> r is None,
    {
        if x < self.width && y < self.height {
            let i = self.index_of(x, y);
            Some(self.pixels[i])
        } else {
            None
        }
    }

    /// Stores `p` at (x, y); a coordinate outside the buffer is ignored.
    pub fn put(&mut self, x: u32, y: u32, p: Pixel)
        requires
            old(self).wf(),
        ensures
            final(self).wf(),
            final(self).spec_width() == old(self).spec_width(),
            final(self).spec_height() == old(self).spec_height(),
            forall|i: int, j: int|
                final(self).in_bounds(i, j) ==> final(self).at(i, j) == (if i == x && j == y {
                    p
                } else {
                    old(self).at(i, j)
                }),
    {
        if x < self.width && y < self.height {
            let i = self.index_of(x, y);
            self.pixels.set(i, p);
            proof {
                assert forall|a: int, b: int|
                    self.in_bounds(a, b) && !(a == x && b == y) implies self.at(a, b) == old(
                    self,
                ).at(a, b) by {
                    lemma_grid_index(self.spec_width(), self.spec_height(), a, b);
                    if b * self.spec_width() + a == y * self.spec_width() + x {
                        assert((b - y) * self.spec_width() == x - a) by (nonlinear_arith)
                            requires
                                b * self.spec_width() + a == y * self.spec_width() + x,
                        ;
                        assert(b == y) by (nonlinear_arith)
                            requires
                                (b - y) * self.spec_width() == x - a,
                                -self.spec_width() < x - a < self.spec_width(),
                        ;
                    }
                }
            }
        }
    }

    /// Copies the `w` by `h` rectangle whose top-left pixel is (x, y)
    /// into a standalone buffer of exactly that size.
    pub fn crop(&self, x: u32, y: u32, w: u32, h: u32) -> (r: Bitmap)
        requires
            self.wf(),
            x + w <= self.spec_width(),
            y + h <= self.spec_height(),
        ensures
            is_crop_of(r, *self, x as int, y as int, w as int, h as int),
    {
        proof {
            lemma_mul_inequality(w as int, self.spec_width(), h as int);
            lemma_mul_inequality(h as int, self.spec_height(), self.spec_width());
            lemma_mul_is_commutative(self.spec_height(), self.spec_width());
            assert(w * h <= self.spec_width() * h) by (nonlinear_arith)
                requires
                    w <= self.spec_width(),
                    0 <= h,
            ;
            assert(self.spec_width() * h <= self.spec_width() * self.spec_height())
                by (nonlinear_arith)
                requires
                    h <= self.spec_height(),
                    0 <= self.spec_width(),
            ;
        }
        let mut pixels: Vec<Pixel> = Vec::new();
        let mut j: u32 = 0;
        while j < h
            invariant
                j <= h,
                self.wf(),
                x + w <= self.spec_width(),
                y + h <= self.spec_height(),
                pixels@.len() == j * w,
                forall|a: int, b: int|
                    x <= a < x + w && y <= b < y + j ==> #[trigger] self.at(a, b) == pixels@[(b - y)
                        * w + (a - x)],
            decreases h - j,
        {
            let mut i: u32 = 0;
            while i < w
                invariant
                    i <= w,
                    j < h,
                    self.wf(),
                    x + w <= self.spec_width(),
                    y + h <= self.spec_height(),
                    pixels@.len() == j * w + i,
                    forall|a: int, b: int|
                        x <= a < x + w && y <= b < y + j ==> #[trigger] self.at(a, b) == pixels@[(b
                            - y) * w + (a - x)],
                    forall|a: int, b: int|
                        x <= a < x + i && b == y + j ==> #[trigger] self.at(a, b) == pixels@[j * w
                            + (a - x)],
                decreases w - i,
            {
                proof {
                    lemma_grid_index(w as int, h as int, i as int, j as int);
                    lemma_grid_index(
                        self.spec_width(),
                        self.spec_height(),
                        x + i,
                        y + j,
                    );
                }
                let px = self.pixels[self.index_of(x + i, y + j)];
                pixels.push(px);
                i = i + 1;
                proof {
                    assert forall|a: int, b: int|
                        x <= a < x + w && y <= b < y + j implies #[trigger] self.at(a, b)
                        == pixels@[(b - y) * w + (a - x)] by {
                        lemma_grid_index(w as int, j as int, a - x, b - y);
                    }
                }
            }
            j = j + 1;
            proof {
                assert(j * w == (j - 1) * w + w) by (nonlinear_arith);
            }
        }
        proof {
            assert(h as int * w as int == w as int * h as int) by (nonlinear_arith);
        }
        let r = Bitmap { width: w, height: h, pixels };
        proof {
            assert forall|i: int, j2: int| r.in_bounds(i, j2) implies r.at(i, j2) == self.at(
                x + i,
                y + j2,
            ) by {
                lemma_grid_index(w as int, h as int, i, j2);
            }
        }
        r
    }
}

} // verus!
