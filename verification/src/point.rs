//! Unsigned 2D coordinates with overflow-checked arithmetic and bounded
//! axis-aligned stepping.

use crate::bitmap::{Bitmap, Pixel};
use crate::index::{is_frameish, spec_frameish};
use vstd::prelude::*;

verus! {

broadcast use crate::bitmap::lemma_bitmap_dims;

/// A pixel coordinate inside an atlas; the origin (0, 0) is the top left.
#[derive(Debug, Clone, Copy, PartialEq, Eq, Structural)]
pub struct Point {
    pub x: u32,
    pub y: u32,
}

impl Point {
    /// Componentwise addition; `None` when either component would overflow.
    pub fn checked_add(&self, other: Point) -> (r: Option<Point>)
        ensures
            self.x + other.x <= u32::MAX && self.y + other.y <= u32::MAX ==> r == Some(
                (Point { x: (self.x + other.x) as u32, y: (self.y + other.y) as u32 }),
            ),
            self.x + other.x > u32::MAX || self.y + other.y > u32::MAX ==> r is None,
    {
        match (self.x.checked_add(other.x), self.y.checked_add(other.y)) {
            (Some(x), Some(y)) => Some(Point { x, y }),
            _ => None,
        }
    }

    /// The point one step to the right; `None` when x would overflow.
    pub fn next_x(&self) -> (r: Option<Point>)
        ensures
            self.x < u32::MAX ==> r == Some((Point { x: (self.x + 1) as u32, y: self.y })),
            self.x == u32::MAX ==> r is None,
    {
        match self.x.checked_add(1) {
            Some(x) => Some(Point { x, y: self.y }),
            None => None,
        }
    }

    /// A counter that yields this point and then each point one step
    /// further right, until x can no longer be represented.
    pub fn x_counter(&self) -> (c: AxisCounter)
        ensures
            c.cur == Some(*self),
            c.axis == Axis::X,
    {
        AxisCounter { cur: Some(*self), axis: Axis::X }
    }

    /// A counter that yields this point and then each point one step
    /// further down, until y can no longer be represented.
    pub fn y_counter(&self) -> (c: AxisCounter)
        ensures
            c.cur == Some(*self),
            c.axis == Axis::Y,
    {
        AxisCounter { cur: Some(*self), axis: Axis::Y }
    }
}

/// The axis along which an `AxisCounter` advances.
#[derive(Debug, Clone, Copy, PartialEq, Eq, Structural)]
pub enum Axis {
    X,
    Y,
}

/// A finite, restartable source of coordinates along one axis, starting
/// at a given point and stopping when the coordinate would overflow.
#[derive(Debug, Clone, Copy, PartialEq, Eq, Structural)]
pub struct AxisCounter {
    pub cur: Option<Point>,
    pub axis: Axis,
}

impl AxisCounter {
    /// The point an exhausted counter is left at after yielding `p`:
    /// one step further along the axis, or nothing at the numeric edge.
    pub open spec fn spec_step(axis: Axis, p: Point) -> Option<Point> {
        match axis {
            Axis::X => if p.x < u32::MAX {
                Some(Point { x: (p.x + 1) as u32, y: p.y })
            } else {
                None
            },
            Axis::Y => if p.y < u32::MAX {
                Some(Point { x: p.x, y: (p.y + 1) as u32 })
            } else {
                None
            },
        }
    }

    /// Yields the current point and advances, or `None` once exhausted.
    pub fn next(&mut self) -> (r: Option<Point>)
        ensures
            r == old(self).cur,
            final(self).axis == old(self).axis,
            match old(self).cur {
                Some(p) => final(self).cur == Self::spec_step(old(self).axis, p),
                None => final(self).cur is None,
            },
    {
        let r = self.cur;
        self.cur = match self.cur {
            Some(p) => match self.axis {
                Axis::X => match p.x.checked_add(1) {
                    Some(x) => Some(Point { x, y: p.y }),
                    None => None,
                },
                Axis::Y => match p.y.checked_add(1) {
                    Some(y) => Some(Point { x: p.x, y }),
                    None => None,
                },
            },
            None => None,
        };
        r
    }
}

/// The least `fy >= y` such that (x, fy) is a frame-ish pixel of `b`,
/// or nothing if the downward scan leaves the buffer first.
pub open spec fn first_frame_down(b: Bitmap, x: int, y: int) -> Option<int>
    decreases b.spec_height() - y,
{
    if !b.in_bounds(x, y) {
        None
    } else if spec_frameish(b.at(x, y)) {
        Some(y)
    } else {
        first_frame_down(b, x, y + 1)
    }
}

/// The least `fx >= x` such that (fx, y) is a frame-ish pixel of `b`,
/// or nothing if the rightward scan leaves the buffer first.
pub open spec fn first_frame_right(b: Bitmap, x: int, y: int) -> Option<int>
    decreases b.spec_width() - x,
{
    if !b.in_bounds(x, y) {
        None
    } else if spec_frameish(b.at(x, y)) {
        Some(x)
    } else {
        first_frame_right(b, x + 1, y)
    }
}

/// What a downward frame scan finds: a coordinate at or below the start,
/// inside the buffer, frame-ish, with nothing frame-ish strictly above it
/// in the scanned stretch.
pub proof fn lemma_first_frame_down_props(b: Bitmap, x: int, y: int)
    requires
        0 <= y,
        first_frame_down(b, x, y) is Some,
    ensures
        ({
            let fy = first_frame_down(b, x, y)->Some_0;
            &&& y <= fy < b.spec_height()
            &&& 0 <= x < b.spec_width()
            &&& spec_frameish(b.at(x, fy))
            &&& forall|yy: int| y <= yy < fy ==> !spec_frameish(#[trigger] b.at(x, yy))
        }),
    decreases b.spec_height() - y,
{
    if b.in_bounds(x, y) && !spec_frameish(b.at(x, y)) {
        lemma_first_frame_down_props(b, x, y + 1);
    }
}

/// What a rightward frame scan finds, mirroring the downward case.
pub proof fn lemma_first_frame_right_props(b: Bitmap, x: int, y: int)
    requires
        0 <= x,
        first_frame_right(b, x, y) is Some,
    ensures
        ({
            let fx = first_frame_right(b, x, y)->Some_0;
            &&& x <= fx < b.spec_width()
            &&& 0 <= y < b.spec_height()
            &&& spec_frameish(b.at(fx, y))
            &&& forall|xx: int| x <= xx < fx ==> !spec_frameish(#[trigger] b.at(xx, y))
        }),
    decreases b.spec_width() - x,
{
    if b.in_bounds(x, y) && !spec_frameish(b.at(x, y)) {
        lemma_first_frame_right_props(b, x + 1, y);
    }
}

/// A downward frame scan finds `t` when (x, t) is the first frame-ish
/// pixel at or below the start.
pub proof fn lemma_first_frame_down_at(b: Bitmap, x: int, y: int, t: int)
    requires
        0 <= y <= t,
        b.in_bounds(x, t),
        spec_frameish(b.at(x, t)),
        forall|yy: int| y <= yy < t ==> !spec_frameish(#[trigger] b.at(x, yy)),
    ensures
        first_frame_down(b, x, y) == Some(t),
    decreases t - y,
{
    if y < t {
        lemma_first_frame_down_at(b, x, y + 1, t);
    }
}

/// A rightward frame scan finds `t` when (t, y) is the first frame-ish
/// pixel at or right of the start.
pub proof fn lemma_first_frame_right_at(b: Bitmap, x: int, y: int, t: int)
    requires
        0 <= x <= t,
        b.in_bounds(t, y),
        spec_frameish(b.at(t, y)),
        forall|xx: int| x <= xx < t ==> !spec_frameish(#[trigger] b.at(xx, y)),
    ensures
        first_frame_right(b, x, y) == Some(t),
    decreases t - x,
{
    if x < t {
        lemma_first_frame_right_at(b, x + 1, y, t);
    }
}

impl Point {
    /// The pixel of `buf` under this point, or nothing outside the
    /// buffer.
    pub fn get_pixel_at(self, buf: &Bitmap) -> (r: Option<(Pixel, Point)>)
        requires
            buf.wf(),
        ensures
            buf.in_bounds(self.x as int, self.y as int) ==> r == Some(
                (buf.at(self.x as int, self.y as int), self),
            ),
            !buf.in_bounds(self.x as int, self.y as int) ==> r is None,
    {
        match buf.get(self.x, self.y) {
            Some(p) => Some((p, self)),
            None => None,
        }
    }

    /// Scans down from this point for the first frame-ish pixel of
    /// `buf`, or nothing if the scan leaves the buffer first.
    pub fn scan_y(self, buf: &Bitmap) -> (r: Option<Point>)
        requires
            buf.wf(),
        ensures
            r == match first_frame_down(*buf, self.x as int, self.y as int) {
                Some(fy) => Some(Point { x: self.x, y: fy as u32 }),
                None => None::<Point>,
            },
    {
        let mut cy: u32 = self.y;
        loop
            invariant
                buf.wf(),
                self.y <= cy,
                first_frame_down(*buf, self.x as int, self.y as int) == first_frame_down(
                    *buf,
                    self.x as int,
                    cy as int,
                ),
            decreases buf.spec_height() - cy,
        {
            match buf.get(self.x, cy) {
                None => {
                    return None;
                },
                Some(p) => {
                    if is_frameish(p) {
                        return Some(Point { x: self.x, y: cy });
                    }
                },
            }
            cy = cy + 1;
        }
    }

    /// Scans right from this point for the first frame-ish pixel of
    /// `buf`, or nothing if the scan leaves the buffer first.
    pub fn scan_x(self, buf: &Bitmap) -> (r: Option<Point>)
        requires
            buf.wf(),
        ensures
            r == match first_frame_right(*buf, self.x as int, self.y as int) {
                Some(fx) => Some(Point { x: fx as u32, y: self.y }),
                None => None::<Point>,
            },
    {
        let mut cx: u32 = self.x;
        loop
            invariant
                buf.wf(),
                self.x <= cx,
                first_frame_right(*buf, self.x as int, self.y as int) == first_frame_right(
                    *buf,
                    cx as int,
                    self.y as int,
                ),
            decreases buf.spec_width() - cx,
        {
            match buf.get(cx, self.y) {
                None => {
                    return None;
                },
                Some(p) => {
                    if is_frameish(p) {
                        return Some(Point { x: cx, y: self.y });
                    }
                },
            }
            cx = cx + 1;
        }
    }
}

} // verus!
