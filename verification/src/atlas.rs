//! Glyph detection and atlas decoding.
//!
//! Each glyph in an atlas has an invisible edge of frame sentinel pixels
//! along its right and bottom. An optional baseline marker pixel may
//! stand on the right frame column, strictly above the bottom frame row;
//! its distance up from the bottom frame row is the glyph's descent.
//!
//! `.` = visible pixel of a glyph, `p` = frame pixel, `c` = baseline
//! marker pixel:
//!
//! ```text
//! ........p
//! ........p
//! ........c
//! ........p
//! ppppppppp
//! ```
//!
//! The buffer origin (0, 0) is the top left.

use crate::bitmap::{Bitmap, Pixel};
use crate::index::{
    baseline_color, spec_frameish, IndexGlyph, LoadedGlyph, LoadedIndex, FRAME_WIDTH,
};
use crate::point::{
    first_frame_down, first_frame_right, lemma_first_frame_down_at, lemma_first_frame_down_props,
    lemma_first_frame_right_at, lemma_first_frame_right_props, Point,
};
use vstd::prelude::*;

verus! {

broadcast use crate::bitmap::lemma_bitmap_dims;

/// One detected glyph: the bounding box of its visible pixels within the
/// atlas, and its descent.
#[derive(Debug, Clone, Copy, PartialEq, Eq, Structural)]
pub struct Glyph {
    /// Coordinates of the top-left visible pixel.
    pub tl: Point,
    /// Coordinates of the bottom-right visible pixel (not a frame pixel).
    pub br: Point,
    /// Distance from the bottom frame row up to the baseline marker
    /// pixel; zero when no marker is present.
    pub descent: u32,
}

/// The two ways a detection attempt ends without a glyph. Neither is an
/// error: they terminate a row or the whole decode.
#[derive(Debug, Clone, Copy, PartialEq, Eq, Structural)]
pub enum NoGlyph {
    /// The scan's start pixel is itself frame-colored: a sentinel column
    /// or row, not a glyph.
    JustFrame { point: Point },
    /// A scan ran off the edge of the buffer.
    End,
}

/// The least `m` with `y <= m < y_end` such that (x, m) is a baseline
/// marker pixel of `b`; nothing if the scan leaves the buffer or reaches
/// `y_end` first.
pub open spec fn first_baseline(b: Bitmap, x: int, y: int, y_end: int) -> Option<int>
    decreases y_end - y,
{
    if y >= y_end || !b.in_bounds(x, y) {
        None
    } else if b.at(x, y) == baseline_color() {
        Some(y)
    } else {
        first_baseline(b, x, y + 1, y_end)
    }
}

/// What a baseline scan finds: a marker pixel strictly before the bound,
/// with no marker strictly above it in the scanned stretch.
pub proof fn lemma_first_baseline_props(b: Bitmap, x: int, y: int, y_end: int)
    requires
        0 <= y,
        first_baseline(b, x, y, y_end) is Some,
    ensures
        ({
            let m = first_baseline(b, x, y, y_end)->Some_0;
            &&& y <= m < y_end
            &&& b.in_bounds(x, m)
            &&& b.at(x, m) == baseline_color()
            &&& forall|yy: int| y <= yy < m ==> #[trigger] b.at(x, yy) != baseline_color()
        }),
    decreases y_end - y,
{
    if y < y_end && b.in_bounds(x, y) && b.at(x, y) != baseline_color() {
        lemma_first_baseline_props(b, x, y + 1, y_end);
    }
}

/// Scans down column `x` from `y`, strictly above `y_end`, for the first
/// baseline marker pixel.
fn scan_baseline(buf: &Bitmap, x: u32, y: u32, y_end: u32) -> (r: Option<u32>)
    requires
        buf.wf(),
    ensures
        r == match first_baseline(*buf, x as int, y as int, y_end as int) {
            Some(m) => Some(m as u32),
            None => None::<u32>,
        },
{
    let mut cy: u32 = y;
    while cy < y_end
        invariant
            buf.wf(),
            y <= cy,
            first_baseline(*buf, x as int, y as int, y_end as int) == first_baseline(
                *buf,
                x as int,
                cy as int,
                y_end as int,
            ),
        decreases y_end - cy,
    {
        match buf.get(x, cy) {
            None => {
                return None;
            },
            Some(p) => {
                if p == crate::index::baseline() {
                    return Some(cy);
                }
            },
        }
        cy = cy + 1;
    }
    None
}

/// What detection at `start` yields: the glyph whose bottom frame row is
/// the first frame-ish pixel straight down from `start` and whose right
/// frame column is the first frame-ish pixel straight right of `start`,
/// or the sentinel that ends the row or the image.
pub open spec fn spec_detect(b: Bitmap, tl: Point) -> Result<Glyph, NoGlyph> {
    match first_frame_down(b, tl.x as int, tl.y as int) {
        None => Err(NoGlyph::End),
        Some(fy) => if fy == tl.y {
            Err(NoGlyph::JustFrame { point: tl })
        } else if tl.x == u32::MAX {
            Err(NoGlyph::End)
        } else {
            match first_frame_right(b, tl.x + 1, tl.y as int) {
                None => Err(NoGlyph::End),
                Some(fx) => {
                    let descent = match first_baseline(b, fx, tl.y as int, fy) {
                        Some(m) => fy - m,
                        None => 0,
                    };
                    Ok(
                        Glyph {
                            tl,
                            br: Point {
                                x: (fx - FRAME_WIDTH) as u32,
                                y: (fy - FRAME_WIDTH) as u32,
                            },
                            descent: descent as u32,
                        },
                    )
                },
            }
        },
    }
}

/// A detected glyph's box sits inside the buffer, starts at the scan
/// point, leaves room for its frame, and its descent never reaches past
/// its top row.
pub proof fn lemma_detect_ok(b: Bitmap, tl: Point)
    requires
        spec_detect(b, tl) is Ok,
    ensures
        ({
            let g = spec_detect(b, tl)->Ok_0;
            &&& g.tl == tl
            &&& tl.x <= g.br.x
            &&& tl.y <= g.br.y
            &&& g.br.x + FRAME_WIDTH < b.spec_width()
            &&& g.br.y + FRAME_WIDTH < b.spec_height()
            &&& g.descent <= g.br.y + 1 - tl.y
        }),
{
    let fy = first_frame_down(b, tl.x as int, tl.y as int)->Some_0;
    lemma_first_frame_down_props(b, tl.x as int, tl.y as int);
    lemma_first_frame_right_props(b, tl.x + 1, tl.y as int);
    let fx = first_frame_right(b, tl.x + 1, tl.y as int)->Some_0;
    if first_baseline(b, fx, tl.y as int, fy) is Some {
        lemma_first_baseline_props(b, fx, tl.y as int, fy);
    }
}

impl Glyph {
    /// x coordinate of the top-left visible pixel.
    pub fn x(&self) -> (r: u32)
        ensures
            r == self.tl.x,
    {
        self.tl.x
    }

    /// y coordinate of the top-left visible pixel.
    pub fn y(&self) -> (r: u32)
        ensures
            r == self.tl.y,
    {
        self.tl.y
    }

    /// Width of the bounding box, at least 1 whenever `br` lies at or
    /// right of `tl`; saturating, never negative.
    pub fn w(&self) -> (r: u32)
        ensures
            r == Self::spec_extent(self.tl.x, self.br.x),
    {
        self.br.x.saturating_sub(self.tl.x).saturating_add(1)
    }

    /// Height of the bounding box, at least 1 whenever `br` lies at or
    /// below `tl`; saturating, never negative.
    pub fn h(&self) -> (r: u32)
        ensures
            r == Self::spec_extent(self.tl.y, self.br.y),
    {
        self.br.y.saturating_sub(self.tl.y).saturating_add(1)
    }

    /// Inclusive distance from `lo` to `hi` along one axis, saturating
    /// at both ends.
    pub open spec fn spec_extent(lo: u32, hi: u32) -> int {
        if hi <= lo {
            1
        } else if hi - lo == u32::MAX {
            u32::MAX as int
        } else {
            hi - lo + 1
        }
    }

    /// Detects the glyph whose top-left visible pixel is `tl`, or the
    /// sentinel that ends the row (`JustFrame`) or the image (`End`).
    pub fn from_image(buf: &Bitmap, tl: Point) -> (r: Result<Glyph, NoGlyph>)
        requires
            buf.wf(),
        ensures
            r == spec_detect(*buf, tl),
    {
        let frame_bl = match tl.scan_y(buf) {
            Some(p) => p,
            None => {
                return Err(NoGlyph::End);
            },
        };

        proof {
            lemma_first_frame_down_props(*buf, tl.x as int, tl.y as int);
        }

        if frame_bl == tl {
            return Err(NoGlyph::JustFrame { point: tl });
        }

        let right_start = match tl.next_x() {
            Some(p) => p,
            None => {
                return Err(NoGlyph::End);
            },
        };
        let frame_tr = match right_start.scan_x(buf) {
            Some(p) => p,
            None => {
                return Err(NoGlyph::End);
            },
        };

        proof {
            lemma_first_frame_right_props(*buf, right_start.x as int, right_start.y as int);
        }

        let descent = match scan_baseline(buf, frame_tr.x, tl.y, frame_bl.y) {
            Some(m) => {
                proof {
                    lemma_first_baseline_props(
                        *buf,
                        frame_tr.x as int,
                        tl.y as int,
                        frame_bl.y as int,
                    );
                }
                frame_bl.y - m
            },
            None => 0,
        };

        let br = Point { x: frame_tr.x - FRAME_WIDTH, y: frame_bl.y - FRAME_WIDTH };

        Ok(Glyph { tl, br, descent })
    }
}

/// The glyphs of one row, scanning from column `x` at row top `y`: each
/// detected glyph is followed by a detection two columns right of its
/// box (skipping its frame column), until a sentinel or the buffer edge
/// ends the row.
pub open spec fn spec_row_glyphs(b: Bitmap, x: int, y: int) -> Seq<Glyph>
    decreases b.spec_width() - x,
{
    if !(0 <= x < b.spec_width()) {
        Seq::empty()
    } else {
        match spec_detect(b, Point { x: x as u32, y: y as u32 }) {
            Ok(g) => {
                let nx = g.br.x + FRAME_WIDTH + 1;
                if x < nx <= b.spec_width() {
                    seq![g] + spec_row_glyphs(b, nx, y)
                } else {
                    seq![g]
                }
            },
            Err(_) => Seq::empty(),
        }
    }
}

/// The rows of glyphs from row top `y` downward: each non-empty row is
/// followed by the rows two pixel rows below its first glyph's box
/// (skipping its frame row); an empty row ends the whole decode.
pub open spec fn spec_rows_from(b: Bitmap, y: int) -> Seq<Seq<Glyph>>
    decreases b.spec_height() - y,
{
    let row = spec_row_glyphs(b, 0, y);
    if row.len() == 0 {
        Seq::empty()
    } else {
        let ny = row[0].br.y + FRAME_WIDTH + 1;
        if y < ny <= b.spec_height() {
            seq![row] + spec_rows_from(b, ny)
        } else {
            seq![row]
        }
    }
}

/// The full decode of a buffer: its rows of glyphs, top to bottom.
pub open spec fn spec_decode(b: Bitmap) -> Seq<Seq<Glyph>> {
    spec_rows_from(b, 0)
}

/// A glyph's box lies inside buffer `b` with room for its one-pixel
/// frame on the right and below.
pub open spec fn glyph_box_in(g: Glyph, b: Bitmap) -> bool {
    &&& g.tl.x <= g.br.x
    &&& g.tl.y <= g.br.y
    &&& g.br.x + FRAME_WIDTH < b.spec_width()
    &&& g.br.y + FRAME_WIDTH < b.spec_height()
}

/// The decoded form of an atlas: ordered rows of glyphs, borrowing the
/// buffer they were detected in.
pub struct Atlas<'i> {
    buf: &'i Bitmap,
    rows: Vec<Vec<Glyph>>,
}

impl<'i> Atlas<'i> {
    /// The buffer this atlas was decoded from.
    pub closed spec fn spec_buf(&self) -> Bitmap {
        *self.buf
    }

    /// The decoded rows of glyphs as mathematical sequences.
    pub closed spec fn spec_rows(&self) -> Seq<Seq<Glyph>> {
        self.rows@.map_values(|r: Vec<Glyph>| r@)
    }

    /// The buffer is well formed and every decoded box lies inside it.
    pub open spec fn wf(&self) -> bool {
        &&& self.spec_buf().wf()
        &&& forall|i: int, j: int|
            0 <= i < self.spec_rows().len() && 0 <= j < self.spec_rows()[i].len()
                ==> glyph_box_in(#[trigger] self.spec_rows()[i][j], self.spec_buf())
    }

    /// The decoded rows of glyphs.
    pub fn rows(&self) -> (r: &Vec<Vec<Glyph>>)
        ensures
            r@.map_values(|row: Vec<Glyph>| row@) == self.spec_rows(),
    {
        &self.rows
    }

    /// Total number of glyphs, saturating at the greatest representable
    /// count.
    pub fn len(&self) -> (r: usize)
        ensures
            r == crate::index::clamp_usize(crate::index::spec_entry_count(self.spec_rows())),
    {
        let mut total: usize = 0;
        let mut i: usize = 0;
        proof {
            crate::index::lemma_entry_count_take(self.spec_rows(), 0);
        }
        while i < self.rows.len()
            invariant
                i <= self.rows@.len(),
                total == crate::index::clamp_usize(
                    crate::index::spec_entry_count(self.spec_rows().take(i as int)),
                ),
            decreases self.rows@.len() - i,
        {
            proof {
                crate::index::lemma_entry_count_take_step(self.spec_rows(), i as int);
                crate::index::lemma_entry_count_nonneg(self.spec_rows().take(i as int));
            }
            total = total.saturating_add(self.rows[i].len());
            i = i + 1;
        }
        proof {
            assert(self.spec_rows().take(self.rows@.len() as int) =~= self.spec_rows());
        }
        total
    }

    /// Number of decoded rows.
    pub fn row_count(&self) -> (r: usize)
        ensures
            r == self.spec_rows().len(),
    {
        self.rows.len()
    }

    /// Crops every glyph into a standalone image and pairs it with its
    /// manifest record. Identifiers are assigned in row-major order,
    /// starting at zero: sequential decimal numbers, zero-padded to
    /// width 3, with the image suffix.
    pub fn export(&self) -> (li: LoadedIndex)
        requires
            self.wf(),
            crate::index::spec_entry_count(self.spec_rows()) <= usize::MAX,
        ensures
            li.wf(),
            li.spec_rows().len() == self.spec_rows().len(),
            forall|i: int|
                0 <= i < self.spec_rows().len() ==> #[trigger] li.spec_rows()[i].len()
                    == self.spec_rows()[i].len(),
            forall|i: int, j: int|
                0 <= i < self.spec_rows().len() && 0 <= j < self.spec_rows()[i].len() ==> {
                    let g = self.spec_rows()[i][j];
                    let lg = #[trigger] li.spec_rows()[i][j];
                    &&& lg.glyph.descent == g.descent
                    &&& lg.glyph.path@ == crate::index::spec_glyph_path(
                        crate::index::spec_entry_count(self.spec_rows().take(i)) + j,
                    )
                    &&& crate::bitmap::is_crop_of(
                        lg.image,
                        self.spec_buf(),
                        g.tl.x as int,
                        g.tl.y as int,
                        g.br.x - g.tl.x + 1,
                        g.br.y - g.tl.y + 1,
                    )
                },
    {
        let ghost rows = self.spec_rows();
        let mut out: Vec<Vec<LoadedGlyph>> = Vec::new();
        let mut idx: usize = 0;
        let mut i: usize = 0;
        proof {
            crate::index::lemma_entry_count_take(rows, 0);
        }
        while i < self.rows.len()
            invariant
                self.wf(),
                rows == self.spec_rows(),
                rows.len() == self.rows@.len(),
                crate::index::spec_entry_count(rows) <= usize::MAX,
                i <= rows.len(),
                out@.len() == i,
                idx == crate::index::spec_entry_count(rows.take(i as int)),
                forall|a: int|
                    0 <= a < i ==> #[trigger] out@[a]@.len() == rows[a].len(),
                forall|a: int, b: int|
                    0 <= a < i && 0 <= b < rows[a].len() ==> {
                        let g = rows[a][b];
                        let lg = #[trigger] out@[a]@[b];
                        &&& lg.glyph.descent == g.descent
                        &&& lg.glyph.path@ == crate::index::spec_glyph_path(
                            crate::index::spec_entry_count(rows.take(a)) + b,
                        )
                        &&& crate::bitmap::is_crop_of(
                            lg.image,
                            self.spec_buf(),
                            g.tl.x as int,
                            g.tl.y as int,
                            g.br.x - g.tl.x + 1,
                            g.br.y - g.tl.y + 1,
                        )
                    },
            decreases rows.len() - i,
        {
            let src = &self.rows[i];
            let mut row: Vec<LoadedGlyph> = Vec::new();
            let mut j: usize = 0;
            proof {
                crate::index::lemma_entry_count_take_step(rows, i as int);
                crate::index::lemma_entry_count_mono(rows, i as int + 1);
                crate::index::lemma_entry_count_nonneg(rows.take(i as int));
            }
            while j < src.len()
                invariant
                    self.wf(),
                    rows == self.spec_rows(),
                    rows.len() == self.rows@.len(),
                    i < rows.len(),
                    src == &self.rows@[i as int],
                    src@ == rows[i as int],
                    j <= src@.len(),
                    row@.len() == j,
                    idx == crate::index::spec_entry_count(rows.take(i as int)) + j,
                    idx + (src@.len() - j) <= usize::MAX,
                    forall|b: int|
                        0 <= b < j ==> {
                            let g = rows[i as int][b];
                            let lg = #[trigger] row@[b];
                            &&& lg.glyph.descent == g.descent
                            &&& lg.glyph.path@ == crate::index::spec_glyph_path(
                                crate::index::spec_entry_count(rows.take(i as int)) + b,
                            )
                            &&& crate::bitmap::is_crop_of(
                                lg.image,
                                self.spec_buf(),
                                g.tl.x as int,
                                g.tl.y as int,
                                g.br.x - g.tl.x + 1,
                                g.br.y - g.tl.y + 1,
                            )
                        },
                decreases src@.len() - j,
            {
                let glyph = &src[j];
                proof {
                    assert(glyph_box_in(rows[i as int][j as int], self.spec_buf()));
                }
                let path = crate::index::glyph_path(idx);
                let image = self.buf.crop(glyph.x(), glyph.y(), glyph.w(), glyph.h());
                row.push(
                    LoadedGlyph {
                        glyph: IndexGlyph { path, descent: glyph.descent },
                        image,
                    },
                );
                idx = idx + 1;
                j = j + 1;
            }
            out.push(row);
            i = i + 1;
        }
        proof {
            assert(rows.take(rows.len() as int) =~= rows);
        }
        LoadedIndex { rows: out }
    }

    /// Decodes a buffer into its rows of glyphs by driving the glyph
    /// detector across a grid: left to right within a row, then past the
    /// frame below the row, until a row comes up empty.
    pub fn from_image(buf: &'i Bitmap) -> (a: Atlas<'i>)
        requires
            buf.wf(),
        ensures
            a.wf(),
            a.spec_buf() == *buf,
            a.spec_rows() == spec_decode(*buf),
            crate::index::spec_entry_count(a.spec_rows()) <= usize::MAX,
    {
        let mut point = Point { x: 0, y: 0 };
        let mut rows: Vec<Vec<Glyph>> = Vec::new();
        let mut done = false;

        while !done
            invariant
                buf.wf(),
                0 <= point.y <= buf.spec_height(),
                !done ==> point.x == 0,
                done ==> spec_rows_from(*buf, point.y as int) =~= Seq::<Seq<Glyph>>::empty(),
                spec_decode(*buf) == rows@.map_values(|r: Vec<Glyph>| r@) + spec_rows_from(
                    *buf,
                    point.y as int,
                ),
                4 * crate::index::spec_entry_count(rows@.map_values(|r: Vec<Glyph>| r@))
                    <= point.y * buf.spec_width(),
                forall|i: int, j: int|
                    0 <= i < rows@.len() && 0 <= j < rows@[i]@.len() ==> glyph_box_in(
                        #[trigger] rows@[i]@[j],
                        *buf,
                    ),
            decreases (if done {
                0int
            } else {
                1int
            }), buf.spec_height() - point.y,
        {
            let ghost y0 = point.y;
            let mut row: Vec<Glyph> = Vec::new();
            let mut row_done = false;

            while !row_done && point.x < buf.width()
                invariant
                    buf.wf(),
                    point.y == y0,
                    point.x <= buf.spec_width(),
                    2 * row@.len() <= point.x,
                    spec_row_glyphs(*buf, 0, y0 as int) == row@ + spec_row_glyphs(
                        *buf,
                        point.x as int,
                        y0 as int,
                    ),
                    row_done ==> spec_row_glyphs(*buf, point.x as int, y0 as int)
                        =~= Seq::<Glyph>::empty(),
                    forall|k: int|
                        0 <= k < row@.len() ==> glyph_box_in(#[trigger] row@[k], *buf)
                            && row@[k].tl.y == y0,
                decreases (if row_done {
                    0int
                } else {
                    1int
                }), buf.spec_width() - point.x,
            {
                match Glyph::from_image(buf, point) {
                    Ok(glyph) => {
                        proof {
                            lemma_detect_ok(*buf, point);
                            assert(row@.push(glyph) + spec_row_glyphs(
                                *buf,
                                glyph.br.x + FRAME_WIDTH + 1,
                                y0 as int,
                            ) =~= row@ + (seq![glyph] + spec_row_glyphs(
                                *buf,
                                glyph.br.x + FRAME_WIDTH + 1,
                                y0 as int,
                            )));
                        }
                        point.x = glyph.br.x + FRAME_WIDTH + 1;
                        row.push(glyph);
                    },
                    Err(_) => {
                        row_done = true;
                    },
                }
            }

            proof {
                assert(row@ + Seq::<Glyph>::empty() =~= row@);
            }

            if row.len() > 0 {
                let next_y = row[0].br.y + FRAME_WIDTH + 1;
                proof {
                    let w = buf.spec_width();
                    let before = rows@.map_values(|r: Vec<Glyph>| r@);
                    let after = before.push(row@);
                    crate::index::lemma_entry_count_take_step(after, before.len() as int);
                    assert(after.take(before.len() as int) =~= before);
                    assert(after.take(before.len() as int + 1) =~= after);
                    assert((y0 + 2) * w == y0 * w + 2 * w) by (nonlinear_arith);
                    vstd::arithmetic::mul::lemma_mul_inequality(y0 + 2, next_y as int, w);
                    assert(rows@.push(row).map_values(|r: Vec<Glyph>| r@) =~= rows@.map_values(
                        |r: Vec<Glyph>| r@,
                    ).push(row@));
                    assert(seq![row@] + spec_rows_from(*buf, next_y as int) =~= spec_rows_from(
                        *buf,
                        y0 as int,
                    ));
                    assert(rows@.map_values(|r: Vec<Glyph>| r@).push(row@) + spec_rows_from(
                        *buf,
                        next_y as int,
                    ) =~= rows@.map_values(|r: Vec<Glyph>| r@) + spec_rows_from(*buf, y0 as int));
                }
                point = Point { x: 0, y: next_y };
                rows.push(row);
            } else {
                done = true;
            }
        }

        proof {
            let w = buf.spec_width();
            let count = crate::index::spec_entry_count(rows@.map_values(|r: Vec<Glyph>| r@));
            crate::index::lemma_entry_count_nonneg(rows@.map_values(|r: Vec<Glyph>| r@));
            vstd::arithmetic::mul::lemma_mul_inequality(point.y as int, buf.spec_height(), w);
            vstd::arithmetic::mul::lemma_mul_is_commutative(buf.spec_height(), w);
            crate::bitmap::lemma_wf_area(*buf);
        }
        Atlas { rows, buf }
    }
}


/// A baseline scan over a stretch with no marker pixel finds nothing.
pub proof fn lemma_first_baseline_none(b: Bitmap, x: int, y: int, y_end: int)
    requires
        forall|yy: int| y <= yy < y_end ==> #[trigger] b.at(x, yy) != baseline_color(),
    ensures
        first_baseline(b, x, y, y_end) is None,
    decreases y_end - y,
{
    if y < y_end && b.in_bounds(x, y) {
        lemma_first_baseline_none(b, x, y + 1, y_end);
    }
}

/// A baseline scan finds `m` when (x, m) is the first marker pixel at
/// or below the start and strictly above the bound.
pub proof fn lemma_first_baseline_at(b: Bitmap, x: int, y: int, y_end: int, m: int)
    requires
        0 <= y <= m < y_end,
        b.in_bounds(x, m),
        b.at(x, m) == baseline_color(),
        forall|yy: int| y <= yy < m ==> b.in_bounds(x, yy) && #[trigger] b.at(x, yy) != baseline_color(),
    ensures
        first_baseline(b, x, y, y_end) == Some(m),
    decreases m - y,
{
    if y < m {
        lemma_first_baseline_at(b, x, y + 1, y_end, m);
    }
}

/// The metrics a well-detected glyph obeys: its box is at least one
/// pixel wide and one pixel tall, its descent never exceeds its height,
/// and the descent stays strictly below the height whenever the pixel
/// at the top of the glyph's right frame column is not itself the
/// baseline marker color.
pub open spec fn glyph_metrics_ok(b: Bitmap, g: Glyph) -> bool {
    let height = g.br.y + 1 - g.tl.y;
    &&& Glyph::spec_extent(g.tl.x, g.br.x) >= 1
    &&& Glyph::spec_extent(g.tl.y, g.br.y) >= 1
    &&& Glyph::spec_extent(g.tl.y, g.br.y) == height
    &&& Glyph::spec_extent(g.tl.x, g.br.x) == g.br.x + 1 - g.tl.x
    &&& 0 <= g.descent <= height
    &&& b.at(g.br.x + 1, g.tl.y as int) != baseline_color() ==> g.descent < height
}

/// Every glyph the detector yields obeys `glyph_metrics_ok`.
pub proof fn lemma_detect_metrics(b: Bitmap, tl: Point)
    requires
        spec_detect(b, tl) is Ok,
    ensures
        glyph_metrics_ok(b, spec_detect(b, tl)->Ok_0),
{
    broadcast use crate::bitmap::lemma_bitmap_dims;

    let fy = first_frame_down(b, tl.x as int, tl.y as int)->Some_0;
    lemma_first_frame_down_props(b, tl.x as int, tl.y as int);
    lemma_first_frame_right_props(b, tl.x + 1, tl.y as int);
    let fx = first_frame_right(b, tl.x + 1, tl.y as int)->Some_0;
    if first_baseline(b, fx, tl.y as int, fy) is Some {
        lemma_first_baseline_props(b, fx, tl.y as int, fy);
        let m = first_baseline(b, fx, tl.y as int, fy)->Some_0;
        if b.at(fx, tl.y as int) != baseline_color() {
            assert(m != tl.y);
        }
    }
}

/// Every glyph of a decoded row obeys `glyph_metrics_ok`.
pub proof fn lemma_row_glyph_metrics(b: Bitmap, x: int, y: int)
    ensures
        forall|k: int|
            0 <= k < spec_row_glyphs(b, x, y).len() ==> glyph_metrics_ok(
                b,
                #[trigger] spec_row_glyphs(b, x, y)[k],
            ),
    decreases b.spec_width() - x,
{
    if 0 <= x < b.spec_width() {
        let start = Point { x: x as u32, y: y as u32 };
        match spec_detect(b, start) {
            Ok(g) => {
                lemma_detect_metrics(b, start);
                lemma_detect_ok(b, start);
                let nx = g.br.x + FRAME_WIDTH + 1;
                if x < nx <= b.spec_width() {
                    lemma_row_glyph_metrics(b, nx, y);
                    let row = spec_row_glyphs(b, x, y);
                    assert forall|k: int| 0 <= k < row.len() implies glyph_metrics_ok(
                        b,
                        row[k],
                    ) by {
                        if k > 0 {
                            assert(row[k] == spec_row_glyphs(b, nx, y)[k - 1]);
                        }
                    }
                }
            },
            Err(_) => {},
        }
    }
}

/// Every glyph of a decode obeys `glyph_metrics_ok`: width and height
/// are at least 1, and the descent never exceeds the height.
pub proof fn lemma_decode_glyph_metrics(b: Bitmap, y: int)
    ensures
        forall|i: int, k: int|
            0 <= i < spec_rows_from(b, y).len() && 0 <= k < spec_rows_from(b, y)[i].len()
                ==> glyph_metrics_ok(b, #[trigger] spec_rows_from(b, y)[i][k]),
    decreases b.spec_height() - y,
{
    let row = spec_row_glyphs(b, 0, y);
    if row.len() != 0 {
        lemma_row_glyph_metrics(b, 0, y);
        let ny = row[0].br.y + FRAME_WIDTH + 1;
        let rows = spec_rows_from(b, y);
        if y < ny <= b.spec_height() {
            lemma_decode_glyph_metrics(b, ny);
            assert forall|i: int, k: int|
                0 <= i < rows.len() && 0 <= k < rows[i].len() implies glyph_metrics_ok(
                b,
                rows[i][k],
            ) by {
                if i == 0 {
                    assert(rows[0] == row);
                } else {
                    assert(rows[i] == spec_rows_from(b, ny)[i - 1]);
                }
            }
        } else {
            assert forall|i: int, k: int|
                0 <= i < rows.len() && 0 <= k < rows[i].len() implies glyph_metrics_ok(
                b,
                rows[i][k],
            ) by {
                assert(rows[i] == row);
            }
        }
    }
}

/// A row that yields no glyph ends the whole decode: nothing below it
/// is decoded, whatever pixels stand there.
pub proof fn lemma_empty_row_ends_decode(b: Bitmap, y: int)
    requires
        spec_row_glyphs(b, 0, y).len() == 0,
    ensures
        spec_rows_from(b, y) == Seq::<Seq<Glyph>>::empty(),
{
}

/// A decode never contains an empty row: the first empty row ends it.
pub proof fn lemma_decode_rows_nonempty(b: Bitmap, y: int)
    ensures
        forall|i: int|
            0 <= i < spec_rows_from(b, y).len() ==> (#[trigger] spec_rows_from(b, y)[i]).len() > 0,
    decreases b.spec_height() - y,
{
    let row = spec_row_glyphs(b, 0, y);
    let rows = spec_rows_from(b, y);
    if row.len() != 0 {
        let ny = row[0].br.y + FRAME_WIDTH + 1;
        if y < ny <= b.spec_height() {
            lemma_decode_rows_nonempty(b, ny);
            assert forall|i: int| 0 <= i < rows.len() implies rows[i].len() > 0 by {
                if i == 0 {
                    assert(rows[0] == row);
                } else {
                    assert(rows[i] == spec_rows_from(b, ny)[i - 1]);
                }
            }
        } else {
            assert forall|i: int| 0 <= i < rows.len() implies rows[i].len() > 0 by {
                assert(rows[i] == row);
            }
        }
    }
}



/// What one canvas pixel reads after the glyphs of a row are copied
/// left to right from (x0, y0): the first glyph whose image or baseline
/// marker covers (x, y) decides it, and a pixel no glyph covers keeps
/// the canvas value. The glyphs of a row never overlap, so this agrees
/// with copy order.
pub open spec fn row_pixel(
    c: Seq<Pixel>,
    cw: int,
    row: Seq<LoadedGlyph>,
    x0: int,
    y0: int,
    x: int,
    y: int,
) -> Pixel
    decreases row.len(),
{
    if row.len() == 0 {
        c[y * cw + x]
    } else {
        let g = row[0];
        let w0 = g.image.spec_width();
        let h0 = g.image.spec_height();
        let d0 = g.glyph.descent as int;
        if d0 > 0 && x == x0 + w0 && y == y0 + (if d0 <= h0 {
            h0 - d0
        } else {
            0
        }) {
            baseline_color()
        } else if x0 <= x < x0 + w0 && y0 <= y < y0 + h0 {
            g.image.at(x - x0, y - y0)
        } else {
            row_pixel(c, cw, row.drop_first(), x0 + w0 + FRAME_WIDTH, y0, x, y)
        }
    }
}

/// A pixel left of the copy origin keeps the canvas value.
proof fn lemma_row_pixel_left(
    c: Seq<Pixel>,
    cw: int,
    row: Seq<LoadedGlyph>,
    x0: int,
    y0: int,
    x: int,
    y: int,
)
    requires
        x < x0,
    ensures
        row_pixel(c, cw, row, x0, y0, x, y) == c[y * cw + x],
    decreases row.len(),
{
    broadcast use crate::bitmap::lemma_bitmap_dims;

    if row.len() > 0 {
        lemma_row_pixel_left(
            c,
            cw,
            row.drop_first(),
            x0 + row[0].image.spec_width() + FRAME_WIDTH,
            y0,
            x,
            y,
        );
    }
}

/// Two canvases that agree at a position give the same pixel there.
proof fn lemma_row_pixel_congruent(
    c1: Seq<Pixel>,
    c2: Seq<Pixel>,
    cw: int,
    row: Seq<LoadedGlyph>,
    x0: int,
    y0: int,
    x: int,
    y: int,
)
    requires
        c1[y * cw + x] == c2[y * cw + x],
    ensures
        row_pixel(c1, cw, row, x0, y0, x, y) == row_pixel(c2, cw, row, x0, y0, x, y),
    decreases row.len(),
{
    if row.len() > 0 {
        lemma_row_pixel_congruent(
            c1,
            c2,
            cw,
            row.drop_first(),
            x0 + row[0].image.spec_width() + FRAME_WIDTH,
            y0,
            x,
            y,
        );
    }
}

/// Copying a whole row onto a canvas equals deciding each pixel by the
/// first glyph that covers it.
proof fn lemma_place_row_pixels(
    cw: int,
    ch: int,
    c: Seq<Pixel>,
    row: Seq<LoadedGlyph>,
    x0: int,
    y0: int,
)
    requires
        0 < cw,
        0 <= ch,
        c.len() == cw * ch,
        0 <= x0,
        x0 + crate::index::spec_row_width(row) <= u32::MAX,
    ensures
        crate::index::spec_place_row(cw, c, row, x0, y0) == Seq::new(
            c.len(),
            |k: int| row_pixel(c, cw, row, x0, y0, k % cw, k / cw),
        ),
    decreases row.len(),
{
    broadcast use crate::bitmap::lemma_bitmap_dims;

    let target = Seq::new(c.len(), |k: int| row_pixel(c, cw, row, x0, y0, k % cw, k / cw));
    if row.len() == 0 {
        assert forall|k: int| 0 <= k < c.len() implies target[k] == c[k] by {
            crate::bitmap::lemma_flat_coords(cw, ch, k);
        }
        assert(target =~= c);
    } else {
        let g = row[0];
        let w0 = g.image.spec_width();
        let h0 = g.image.spec_height();
        let d0 = g.glyph.descent as int;
        let c2 = crate::index::spec_copy(cw, c, g.image, x0, y0, d0);
        let nx = x0 + w0 + FRAME_WIDTH;
        crate::index::lemma_row_width_cons(row);
        crate::index::lemma_row_width_nonneg(row.drop_first());
        assert(c2.len() == c.len());
        lemma_place_row_pixels(cw, ch, c2, row.drop_first(), nx, y0);
        let rest_target = Seq::new(
            c2.len(),
            |k: int| row_pixel(c2, cw, row.drop_first(), nx, y0, k % cw, k / cw),
        );
        assert forall|k: int| 0 <= k < c.len() implies rest_target[k] == target[k] by {
            crate::bitmap::lemma_flat_coords(cw, ch, k);
            let x = k % cw;
            let y = k / cw;
            assert(c2[k] == crate::index::spec_copy_pixel(c, cw, g.image, x0, y0, d0, x, y));
            let marker = d0 > 0 && x == x0 + w0 && y == y0 + (if d0 <= h0 {
                h0 - d0
            } else {
                0
            });
            let region = x0 <= x < x0 + w0 && y0 <= y < y0 + h0;
            if marker || region {
                lemma_row_pixel_left(c2, cw, row.drop_first(), nx, y0, x, y);
            } else {
                lemma_row_pixel_congruent(c2, c, cw, row.drop_first(), nx, y0, x, y);
            }
        }
        assert(crate::index::spec_place_row(cw, c, row, x0, y0) == rest_target);
        assert(rest_target =~= target);
    }
}


/// A pixel above the copy origin keeps the canvas value.
proof fn lemma_row_pixel_above(
    c: Seq<Pixel>,
    cw: int,
    row: Seq<LoadedGlyph>,
    x0: int,
    y0: int,
    x: int,
    y: int,
)
    requires
        y < y0,
    ensures
        row_pixel(c, cw, row, x0, y0, x, y) == c[y * cw + x],
    decreases row.len(),
{
    broadcast use crate::bitmap::lemma_bitmap_dims;

    if row.len() > 0 {
        lemma_row_pixel_above(
            c,
            cw,
            row.drop_first(),
            x0 + row[0].image.spec_width() + FRAME_WIDTH,
            y0,
            x,
            y,
        );
    }
}

/// A pixel below every glyph of the row keeps the canvas value.
proof fn lemma_row_pixel_below(
    c: Seq<Pixel>,
    cw: int,
    row: Seq<LoadedGlyph>,
    x0: int,
    y0: int,
    x: int,
    y: int,
    hband: int,
)
    requires
        forall|k: int| 0 <= k < row.len() ==> (#[trigger] row[k]).image.spec_height() < hband,
        y >= y0 + hband,
    ensures
        row_pixel(c, cw, row, x0, y0, x, y) == c[y * cw + x],
    decreases row.len(),
{
    broadcast use crate::bitmap::lemma_bitmap_dims;

    if row.len() > 0 {
        assert(row.drop_first() =~= row.skip(1));
        assert forall|k: int|
            0 <= k < row.drop_first().len() implies (#[trigger] row.drop_first()[k]).image.spec_height()
            < hband by {
            assert(row.drop_first()[k] == row[k + 1]);
        }
        lemma_row_pixel_below(
            c,
            cw,
            row.drop_first(),
            x0 + row[0].image.spec_width() + FRAME_WIDTH,
            y0,
            x,
            y,
            hband,
        );
    }
}

/// What one canvas pixel reads after every row is copied, the first
/// row's top at `y0` and each further row below the one before it: the
/// row whose band holds (x, y) decides it.
pub open spec fn rows_pixel(
    c: Seq<Pixel>,
    cw: int,
    rows: Seq<Seq<LoadedGlyph>>,
    y0: int,
    x: int,
    y: int,
) -> Pixel
    decreases rows.len(),
{
    if rows.len() == 0 {
        c[y * cw + x]
    } else {
        let rh = crate::index::clamp_u32(crate::index::spec_row_height(rows[0]));
        if y < y0 + rh {
            row_pixel(c, cw, rows[0], 0, y0, x, y)
        } else {
            rows_pixel(c, cw, rows.drop_first(), y0 + rh, x, y)
        }
    }
}

/// A pixel above the first row's top keeps the canvas value.
proof fn lemma_rows_pixel_above(
    c: Seq<Pixel>,
    cw: int,
    rows: Seq<Seq<LoadedGlyph>>,
    y0: int,
    x: int,
    y: int,
)
    requires
        y < y0,
    ensures
        rows_pixel(c, cw, rows, y0, x, y) == c[y * cw + x],
    decreases rows.len(),
{
    if rows.len() > 0 {
        let rh = crate::index::clamp_u32(crate::index::spec_row_height(rows[0]));
        if y < y0 + rh {
            lemma_row_pixel_above(c, cw, rows[0], 0, y0, x, y);
        } else {
            lemma_rows_pixel_above(c, cw, rows.drop_first(), y0 + rh, x, y);
        }
    }
}

/// Two canvases that agree at a position give the same pixel there.
proof fn lemma_rows_pixel_congruent(
    c1: Seq<Pixel>,
    c2: Seq<Pixel>,
    cw: int,
    rows: Seq<Seq<LoadedGlyph>>,
    y0: int,
    x: int,
    y: int,
)
    requires
        c1[y * cw + x] == c2[y * cw + x],
    ensures
        rows_pixel(c1, cw, rows, y0, x, y) == rows_pixel(c2, cw, rows, y0, x, y),
    decreases rows.len(),
{
    if rows.len() > 0 {
        let rh = crate::index::clamp_u32(crate::index::spec_row_height(rows[0]));
        if y < y0 + rh {
            lemma_row_pixel_congruent(c1, c2, cw, rows[0], 0, y0, x, y);
        } else {
            lemma_rows_pixel_congruent(c1, c2, cw, rows.drop_first(), y0 + rh, x, y);
        }
    }
}


/// Copying every row onto a canvas equals deciding each pixel by the
/// row whose band holds it.
proof fn lemma_place_rows_pixels(
    cw: int,
    ch: int,
    c: Seq<Pixel>,
    rows: Seq<Seq<LoadedGlyph>>,
    y0: int,
)
    requires
        0 < cw,
        0 <= ch,
        c.len() == cw * ch,
        0 <= y0,
        forall|i: int|
            0 <= i < rows.len() ==> crate::index::spec_row_width(#[trigger] rows[i]) <= u32::MAX,
        forall|i: int|
            0 <= i < rows.len() ==> crate::index::spec_row_height(#[trigger] rows[i]) <= u32::MAX,
        y0 + crate::index::spec_total_height(rows) <= u32::MAX,
    ensures
        crate::index::spec_place_rows(cw, c, rows, y0) == Seq::new(
            c.len(),
            |k: int| rows_pixel(c, cw, rows, y0, k % cw, k / cw),
        ),
    decreases rows.len(),
{
    broadcast use crate::bitmap::lemma_bitmap_dims;

    let target = Seq::new(c.len(), |k: int| rows_pixel(c, cw, rows, y0, k % cw, k / cw));
    if rows.len() == 0 {
        assert forall|k: int| 0 <= k < c.len() implies target[k] == c[k] by {
            crate::bitmap::lemma_flat_coords(cw, ch, k);
        }
        assert(target =~= c);
    } else {
        let row0 = rows[0];
        let rest = rows.drop_first();
        crate::index::lemma_total_height_cons(rows);
        crate::index::lemma_total_height_nonneg(rest);
        crate::index::lemma_row_height_nonneg(row0);
        let rh0 = crate::index::spec_row_height(row0);
        assert(crate::index::clamp_u32(rh0) == rh0);
        let ny = y0 + rh0;
        assert(ny <= u32::MAX);
        let c2 = crate::index::spec_place_row(cw, c, row0, 0, y0);
        lemma_place_row_pixels(cw, ch, c, row0, 0, y0);
        assert(c2.len() == c.len());
        assert forall|i: int|
            0 <= i < rest.len() implies crate::index::spec_row_width(#[trigger] rest[i])
            <= u32::MAX && crate::index::spec_row_height(rest[i]) <= u32::MAX by {
            assert(rest[i] == rows[i + 1]);
        }
        lemma_place_rows_pixels(cw, ch, c2, rest, ny);
        let rest_target = Seq::new(
            c2.len(),
            |k: int| rows_pixel(c2, cw, rest, ny, k % cw, k / cw),
        );
        assert forall|k: int| 0 <= k < c.len() implies rest_target[k] == target[k] by {
            crate::bitmap::lemma_flat_coords(cw, ch, k);
            let x = k % cw;
            let y = k / cw;
            assert(c2[k] == row_pixel(c, cw, row0, 0, y0, x, y));
            if y < ny {
                lemma_rows_pixel_above(c2, cw, rest, ny, x, y);
            } else {
                assert forall|m: int|
                    0 <= m < row0.len() implies (#[trigger] row0[m]).image.spec_height() < rh0 by {
                    crate::index::lemma_row_height_bounds(row0, m);
                }
                lemma_row_pixel_below(c, cw, row0, 0, y0, x, y, rh0);
                lemma_rows_pixel_congruent(c2, c, cw, rest, ny, x, y);
            }
        }
        assert(crate::index::spec_place_rows(cw, c, rows, y0) == rest_target);
        assert(rest_target =~= target);
    }
}

/// The boxes a composed row decodes to: each glyph's image at its walk
/// position, its bottom-right corner one pixel inside the frame.
pub open spec fn row_boxes(row: Seq<LoadedGlyph>, x0: int, y0: int) -> Seq<Glyph>
    decreases row.len(),
{
    if row.len() == 0 {
        Seq::empty()
    } else {
        let g = row[0];
        let w0 = g.image.spec_width();
        let h0 = g.image.spec_height();
        seq![
            Glyph {
                tl: Point { x: x0 as u32, y: y0 as u32 },
                br: Point { x: (x0 + w0 - 1) as u32, y: (y0 + h0 - 1) as u32 },
                descent: g.glyph.descent,
            },
        ] + row_boxes(row.drop_first(), x0 + w0 + FRAME_WIDTH, y0)
    }
}

/// Decoding one composed row of glyphs whose top is `y0`, over a
/// canvas that reads all frame wherever no glyph covers it, recovers
/// exactly the glyphs' boxes and descents; a row narrower than the
/// canvas ends at the frame column after its last glyph.
proof fn lemma_decode_composed_row(
    b: Bitmap,
    c0: Seq<Pixel>,
    row: Seq<LoadedGlyph>,
    x0: int,
    y0: int,
    hband: int,
)
    requires
        b.wf(),
        c0.len() == b.spec_width() * b.spec_height(),
        forall|k: int| 0 <= k < c0.len() ==> #[trigger] c0[k] == crate::index::frame_color(),
        0 <= x0 <= b.spec_width(),
        0 <= y0 < b.spec_height(),
        1 <= hband,
        x0 + crate::index::spec_row_width(row) <= b.spec_width(),
        forall|k: int| 0 <= k < row.len() ==> (#[trigger] row[k]).image.wf(),
        forall|k: int| 0 <= k < row.len() ==> 1 <= (#[trigger] row[k]).image.spec_width(),
        forall|k: int|
            0 <= k < row.len() ==> 1 <= (#[trigger] row[k]).image.spec_height() && y0 + row[
                k
            ].image.spec_height() + FRAME_WIDTH <= b.spec_height() && row[k].image.spec_height()
                < hband,
        forall|k: int|
            0 <= k < row.len() ==> (#[trigger] row[k]).glyph.descent < row[k].image.spec_height(),
        forall|k: int, x: int, y: int|
            0 <= k < row.len() && row[k].image.in_bounds(x, y) ==> !spec_frameish(
                #[trigger] row[k].image.at(x, y),
            ),
        forall|x: int, y: int|
            b.in_bounds(x, y) && x >= x0 && y0 <= y < y0 + hband ==> #[trigger] b.at(x, y)
                == row_pixel(c0, b.spec_width(), row, x0, y0, x, y),
    ensures
        spec_row_glyphs(b, x0, y0) == row_boxes(row, x0, y0),
    decreases row.len(),
{
    broadcast use crate::bitmap::lemma_bitmap_dims;

    let cw = b.spec_width();
    let ch = b.spec_height();
    if row.len() == 0 {
        if x0 < cw {
            assert(b.at(x0, y0) == row_pixel(c0, cw, row, x0, y0, x0, y0));
            crate::bitmap::lemma_grid_index(cw, ch, x0, y0);
            assert(b.at(x0, y0) == crate::index::frame_color());
            lemma_first_frame_down_at(b, x0, y0, y0);
            assert(spec_detect(b, Point { x: x0 as u32, y: y0 as u32 }) == Err::<
                Glyph,
                NoGlyph,
            >(NoGlyph::JustFrame { point: Point { x: x0 as u32, y: y0 as u32 } }));
        }
        assert(spec_row_glyphs(b, x0, y0) =~= Seq::<Glyph>::empty());
    } else {
        let g = row[0];
        let w0 = g.image.spec_width();
        let h0 = g.image.spec_height();
        let d0 = g.glyph.descent as int;
        let rest = row.drop_first();
        let nx = x0 + w0 + FRAME_WIDTH;
        crate::index::lemma_row_width_cons(row);
        crate::index::lemma_row_width_nonneg(rest);
        assert(nx <= cw);
        assert(x0 < cw);

        // Pixels of the first glyph's column, row, frame and marker.
        assert forall|y: int| y0 <= y < y0 + h0 implies !spec_frameish(#[trigger] b.at(x0, y)) by {
            assert(b.at(x0, y) == row_pixel(c0, cw, row, x0, y0, x0, y));
            assert(g.image.in_bounds(0, y - y0));
        }
        assert(b.in_bounds(x0, y0 + h0));
        assert(b.at(x0, y0 + h0) == row_pixel(c0, cw, row, x0, y0, x0, y0 + h0));
        lemma_row_pixel_left(c0, cw, rest, nx, y0, x0, y0 + h0);
        crate::bitmap::lemma_grid_index(cw, ch, x0, y0 + h0);
        assert(b.at(x0, y0 + h0) == crate::index::frame_color());
        lemma_first_frame_down_at(b, x0, y0, y0 + h0);

        assert forall|xx: int| x0 + 1 <= xx < x0 + w0 implies !spec_frameish(
            #[trigger] b.at(xx, y0),
        ) by {
            assert(b.at(xx, y0) == row_pixel(c0, cw, row, x0, y0, xx, y0));
            assert(g.image.in_bounds(xx - x0, 0));
        }
        assert(b.in_bounds(x0 + w0, y0));
        assert(b.at(x0 + w0, y0) == row_pixel(c0, cw, row, x0, y0, x0 + w0, y0));
        lemma_row_pixel_left(c0, cw, rest, nx, y0, x0 + w0, y0);
        crate::bitmap::lemma_grid_index(cw, ch, x0 + w0, y0);
        assert(b.at(x0 + w0, y0) == crate::index::frame_color());
        lemma_first_frame_right_at(b, x0 + 1, y0, x0 + w0);

        // The baseline search on the frame column.
        assert forall|y: int| y0 <= y < y0 + h0 && y != y0 + (h0 - d0) implies #[trigger] b.at(
            x0 + w0,
            y,
        ) == crate::index::frame_color() by {
            assert(b.at(x0 + w0, y) == row_pixel(c0, cw, row, x0, y0, x0 + w0, y));
            lemma_row_pixel_left(c0, cw, rest, nx, y0, x0 + w0, y);
            crate::bitmap::lemma_grid_index(cw, ch, x0 + w0, y);
        }
        if d0 > 0 {
            let m = y0 + (h0 - d0);
            assert(b.at(x0 + w0, m) == row_pixel(c0, cw, row, x0, y0, x0 + w0, m));
            assert(b.at(x0 + w0, m) == baseline_color());
            lemma_first_baseline_at(b, x0 + w0, y0, y0 + h0, m);
        } else {
            lemma_first_baseline_none(b, x0 + w0, y0, y0 + h0);
        }

        let g0 = Glyph {
            tl: Point { x: x0 as u32, y: y0 as u32 },
            br: Point { x: (x0 + w0 - 1) as u32, y: (y0 + h0 - 1) as u32 },
            descent: g.glyph.descent,
        };
        assert(spec_detect(b, Point { x: x0 as u32, y: y0 as u32 }) == Ok::<Glyph, NoGlyph>(g0));

        // The rest of the row, two columns past this glyph's box.
        assert forall|x: int, y: int|
            b.in_bounds(x, y) && x >= nx && y0 <= y < y0 + hband implies #[trigger] b.at(x, y)
            == row_pixel(c0, cw, rest, nx, y0, x, y) by {
            assert(b.at(x, y) == row_pixel(c0, cw, row, x0, y0, x, y));
        }
        lemma_decode_composed_row(b, c0, rest, nx, y0, hband);
        assert(spec_row_glyphs(b, x0, y0) == seq![g0] + spec_row_glyphs(b, nx, y0));
        assert(seq![g0] + row_boxes(rest, nx, y0) =~= row_boxes(row, x0, y0));
    }
}


/// The rows of boxes a composed atlas decodes to: each row's boxes at
/// its band top, each band as tall as the row's first glyph plus its
/// frame row.
pub open spec fn rows_boxes(rows: Seq<Seq<LoadedGlyph>>, y0: int) -> Seq<Seq<Glyph>>
    decreases rows.len(),
{
    if rows.len() == 0 {
        Seq::empty()
    } else {
        let rh = rows[0][0].image.spec_height() + FRAME_WIDTH;
        seq![row_boxes(rows[0], 0, y0)] + rows_boxes(rows.drop_first(), y0 + rh)
    }
}

/// Decoding the composed rows whose first band top is `y0`, over a
/// canvas that reads all frame wherever no glyph covers it, recovers
/// exactly every row's boxes and descents and stops below the last row.
proof fn lemma_decode_composed_rows(
    b: Bitmap,
    c0: Seq<Pixel>,
    rows: Seq<Seq<LoadedGlyph>>,
    y0: int,
)
    requires
        b.wf(),
        1 <= b.spec_width(),
        c0.len() == b.spec_width() * b.spec_height(),
        forall|k: int| 0 <= k < c0.len() ==> #[trigger] c0[k] == crate::index::frame_color(),
        0 <= y0,
        y0 + crate::index::spec_total_height(rows) <= b.spec_height(),
        forall|i: int| 0 <= i < rows.len() ==> (#[trigger] rows[i]).len() > 0,
        forall|i: int|
            0 <= i < rows.len() ==> crate::index::spec_row_width(#[trigger] rows[i])
                <= b.spec_width(),
        forall|i: int, k: int|
            0 <= i < rows.len() && 0 <= k < rows[i].len() ==> (#[trigger] rows[i][k]).image.wf(),
        forall|i: int, k: int|
            0 <= i < rows.len() && 0 <= k < rows[i].len() ==> 1 <= (
            #[trigger] rows[i][k]).image.spec_width(),
        forall|i: int, k: int|
            0 <= i < rows.len() && 0 <= k < rows[i].len() ==> 1 <= (
            #[trigger] rows[i][k]).image.spec_height() && rows[i][k].image.spec_height() <= rows[
                i
            ][0].image.spec_height(),
        forall|i: int, k: int|
            0 <= i < rows.len() && 0 <= k < rows[i].len() ==> (
            #[trigger] rows[i][k]).glyph.descent < rows[i][k].image.spec_height(),
        forall|i: int, k: int, x: int, y: int|
            0 <= i < rows.len() && 0 <= k < rows[i].len() && rows[i][k].image.in_bounds(x, y)
                ==> !spec_frameish(#[trigger] rows[i][k].image.at(x, y)),
        forall|x: int, y: int|
            b.in_bounds(x, y) && y >= y0 ==> #[trigger] b.at(x, y) == rows_pixel(
                c0,
                b.spec_width(),
                rows,
                y0,
                x,
                y,
            ),
    ensures
        spec_rows_from(b, y0) == rows_boxes(rows, y0),
    decreases rows.len(),
{
    broadcast use crate::bitmap::lemma_bitmap_dims;

    let cw = b.spec_width();
    let ch = b.spec_height();
    if rows.len() == 0 {
        if y0 < ch {
            assert(b.at(0, y0) == rows_pixel(c0, cw, rows, y0, 0, y0));
            crate::bitmap::lemma_grid_index(cw, ch, 0, y0);
            assert(b.at(0, y0) == crate::index::frame_color());
            lemma_first_frame_down_at(b, 0, y0, y0);
        } else {
            assert(first_frame_down(b, 0, y0) is None);
        }
        assert(spec_row_glyphs(b, 0, y0) =~= Seq::<Glyph>::empty());
        assert(spec_rows_from(b, y0) =~= Seq::<Seq<Glyph>>::empty());
    } else {
        let row0 = rows[0];
        let rest = rows.drop_first();
        let h00 = row0[0].image.spec_height();
        let rh0 = h00 + FRAME_WIDTH;
        crate::index::lemma_total_height_cons(rows);
        crate::index::lemma_total_height_nonneg(rest);
        assert forall|k: int|
            0 <= k < row0.len() implies (#[trigger] row0[k]).image.spec_height() <= h00 by {
            assert(rows[0][k] == row0[k]);
        }
        crate::index::lemma_row_height_of_first(row0);
        assert(crate::index::spec_row_height(row0) == rh0);
        assert(y0 + rh0 <= ch);
        assert(crate::index::clamp_u32(rh0) == rh0);

        // The first band reads as this one row composed alone.
        assert forall|x: int, y: int|
            b.in_bounds(x, y) && x >= 0 && y0 <= y < y0 + rh0 implies #[trigger] b.at(x, y)
            == row_pixel(c0, cw, row0, 0, y0, x, y) by {
            assert(b.at(x, y) == rows_pixel(c0, cw, rows, y0, x, y));
        }
        lemma_decode_composed_row(b, c0, row0, 0, y0, rh0);
        let boxes0 = row_boxes(row0, 0, y0);
        assert(spec_row_glyphs(b, 0, y0) == boxes0);
        assert(boxes0.len() > 0);
        assert(boxes0[0].br.y == y0 + h00 - 1);

        let ny = y0 + rh0;
        assert forall|x: int, y: int|
            b.in_bounds(x, y) && y >= ny implies #[trigger] b.at(x, y) == rows_pixel(
            c0,
            cw,
            rest,
            ny,
            x,
            y,
        ) by {
            assert(b.at(x, y) == rows_pixel(c0, cw, rows, y0, x, y));
        }
        assert forall|i: int| 0 <= i < rest.len() implies (#[trigger] rest[i]).len() > 0
            && crate::index::spec_row_width(rest[i]) <= cw by {
            assert(rest[i] == rows[i + 1]);
        }
        assert forall|i: int, k: int|
            0 <= i < rest.len() && 0 <= k < rest[i].len() implies {
            let g = #[trigger] rest[i][k];
            &&& g.image.wf()
            &&& 1 <= g.image.spec_width()
            &&& 1 <= g.image.spec_height()
            &&& g.image.spec_height() <= rest[i][0].image.spec_height()
            &&& g.glyph.descent < g.image.spec_height()
        } by {
            assert(rest[i] == rows[i + 1]);
            assert(rest[i][k] == rows[i + 1][k]);
        }
        assert forall|i: int, k: int, x: int, y: int|
            0 <= i < rest.len() && 0 <= k < rest[i].len() && rest[i][k].image.in_bounds(x, y)
            implies !spec_frameish(#[trigger] rest[i][k].image.at(x, y)) by {
            assert(rest[i] == rows[i + 1]);
            assert(rest[i][k] == rows[i + 1][k]);
            assert(rows[i + 1][k].image.at(x, y) == rest[i][k].image.at(x, y));
        }
        lemma_decode_composed_rows(b, c0, rest, ny);

        assert(spec_rows_from(b, y0) == seq![boxes0] + spec_rows_from(b, ny));
        assert(seq![boxes0] + rows_boxes(rest, ny) =~= rows_boxes(rows, y0));
    }
}

/// Round trip: a canvas that composing rows of glyphs at automatic
/// size produced decodes back to exactly those glyphs' boxes and
/// descents, row by row and in order. The glyph images must contain no
/// pixel of the two reserved colors, each descent must lie strictly
/// below its glyph's height, and each row's first glyph must be its
/// tallest, as holds of every decoded atlas.
pub proof fn lemma_compose_decode_round_trip(b: Bitmap, rows: Seq<Seq<LoadedGlyph>>)
    requires
        b.wf(),
        rows.len() >= 1,
        forall|i: int| 0 <= i < rows.len() ==> (#[trigger] rows[i]).len() > 0,
        forall|i: int, k: int|
            0 <= i < rows.len() && 0 <= k < rows[i].len() ==> (#[trigger] rows[i][k]).image.wf(),
        forall|i: int, k: int|
            0 <= i < rows.len() && 0 <= k < rows[i].len() ==> 1 <= (
            #[trigger] rows[i][k]).image.spec_width(),
        forall|i: int, k: int|
            0 <= i < rows.len() && 0 <= k < rows[i].len() ==> 1 <= (
            #[trigger] rows[i][k]).image.spec_height() && rows[i][k].image.spec_height() <= rows[
                i
            ][0].image.spec_height(),
        forall|i: int, k: int|
            0 <= i < rows.len() && 0 <= k < rows[i].len() ==> (
            #[trigger] rows[i][k]).glyph.descent < rows[i][k].image.spec_height(),
        forall|i: int, k: int, x: int, y: int|
            0 <= i < rows.len() && 0 <= k < rows[i].len() && rows[i][k].image.in_bounds(x, y)
                ==> !spec_frameish(#[trigger] rows[i][k].image.at(x, y)),
        crate::index::spec_widest(rows) <= u32::MAX,
        crate::index::spec_total_height(rows) <= u32::MAX,
        b.spec_width() == crate::index::spec_atlas_width(rows, 0),
        b.spec_height() == crate::index::spec_atlas_height(rows, 0),
        b.flat() == crate::index::spec_compose(rows, b.spec_width(), b.spec_height()),
    ensures
        spec_decode(b) == rows_boxes(rows, 0),
{
    broadcast use crate::bitmap::lemma_bitmap_dims;
    broadcast use crate::bitmap::lemma_bitmap_flat_len;
    broadcast use crate::bitmap::lemma_bitmap_flat_at;

    crate::index::lemma_widest_nonneg(rows);
    crate::index::lemma_total_height_nonneg(rows);
    let cw = crate::index::spec_widest(rows);
    let ch = crate::index::spec_total_height(rows);
    assert(b.spec_width() == cw);
    assert(b.spec_height() == ch);

    // Every row fits the canvas, and the first row makes it non-empty.
    assert forall|i: int|
        0 <= i < rows.len() implies crate::index::spec_row_width(#[trigger] rows[i]) <= cw
        && crate::index::spec_row_height(rows[i]) <= u32::MAX by {
        crate::index::lemma_widest_bounds(rows, i);
        crate::index::lemma_total_height_bounds(rows, i);
        crate::index::lemma_row_height_nonneg(rows[i]);
    }
    crate::index::lemma_row_width_cons(rows[0]);
    crate::index::lemma_row_width_nonneg(rows[0].drop_first());
    crate::index::lemma_widest_bounds(rows, 0);
    assert(cw >= 2);

    // The composed canvas, pixel by pixel.
    let fc = crate::index::spec_frame_canvas(cw, ch);
    lemma_place_rows_pixels(cw, ch, fc, rows, 0);
    assert forall|x: int, y: int| b.in_bounds(x, y) implies #[trigger] b.at(x, y) == rows_pixel(
        fc,
        cw,
        rows,
        0,
        x,
        y,
    ) by {
        crate::bitmap::lemma_grid_index(cw, ch, x, y);
        let k = y * cw + x;
        vstd::arithmetic::div_mod::lemma_fundamental_div_mod_converse(k, cw, y, x);
        assert(b.at(x, y) == b.flat()[k]);
    }

    // Decoding recovers every row.
    lemma_decode_composed_rows(b, fc, rows, 0);
}

} // verus!
