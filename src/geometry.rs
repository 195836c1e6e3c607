//! Points, rectangles, lines and labels on the integer grid.

use vstd::prelude::*;

verus! {

/// Every coordinate of a well-formed rectangle stays within this bound, so
/// that an area always fits in a `u64`.
pub const COORD_LIMIT: u64 = 0x1_0000;

/// Line width of the outermost partition lines, in drawing units.
pub const INITIAL_STROKE_WIDTH: u64 = 4;

/// Each deeper level of partition lines is this many times thinner.
pub const STROKE_DECAY: u64 = 3;

#[derive(Clone, Copy, Debug, PartialEq, Eq, Structural)]
pub struct Point {
    pub x: u64,
    pub y: u64,
}

impl Point {
    /// Keeps one coordinate and zeroes the other: `(x, 0)` when `value` is
    /// false, `(0, y)` when it is true.
    pub fn mask(self, value: bool) -> (r: Point)
        ensures
            r == (if value { Point { x: 0, y: self.y } } else { Point { x: self.x, y: 0 } }),
    {
        if !value {
            Point { x: self.x, y: 0 }
        } else {
            Point { x: 0, y: self.y }
        }
    }

    /// Coordinate-wise sum.
    pub fn add(self, o: Point) -> (r: Point)
        requires
            self.x + o.x <= u64::MAX,
            self.y + o.y <= u64::MAX,
        ensures
            r.x == self.x + o.x,
            r.y == self.y + o.y,
    {
        Point { x: self.x + o.x, y: self.y + o.y }
    }

    /// Both coordinates multiplied by `k`.
    pub fn mul(self, k: u64) -> (r: Point)
        requires
            self.x * k <= u64::MAX,
            self.y * k <= u64::MAX,
        ensures
            r.x == self.x * k,
            r.y == self.y * k,
    {
        Point { x: self.x * k, y: self.y * k }
    }

    /// Both coordinates divided by `k`, rounded down.
    pub fn div(self, k: u64) -> (r: Point)
        requires
            k > 0,
        ensures
            r.x == self.x / k,
            r.y == self.y / k,
    {
        Point { x: self.x / k, y: self.y / k }
    }

    /// Coordinate-wise difference.
    pub fn sub(self, o: Point) -> (r: Point)
        requires
            o.x <= self.x,
            o.y <= self.y,
        ensures
            r.x == self.x - o.x,
            r.y == self.y - o.y,
    {
        Point { x: self.x - o.x, y: self.y - o.y }
    }
}

/// Something that renders itself as markup.
pub trait Printer {
    fn print(&self) -> String;
}

/// An axis-aligned rectangle: corner `a` and extent `off`.
#[derive(Clone, Copy, Debug, PartialEq, Eq, Structural)]
pub struct Rect {
    pub a: Point,
    pub off: Point,
}

/// The part of `v` that a margin ratio `num / den` takes off one side.
pub open spec fn margin_part(v: u64, num: u64, den: u64) -> u64
    recommends
        den > 0,
{
    (v as int * num as int / den as int) as u64
}

impl Rect {
    /// The rectangle lies within the grid's bounds.
    pub open spec fn wf(self) -> bool {
        self.a.x + self.off.x <= COORD_LIMIT && self.a.y + self.off.y <= COORD_LIMIT
    }

    /// Well-formed, with both extents positive.
    pub open spec fn is_proper(self) -> bool {
        self.wf() && self.off.x > 0 && self.off.y > 0
    }

    pub open spec fn area(self) -> int {
        self.off.x * self.off.y
    }

    /// `inner` lies entirely within `self`.
    pub open spec fn contains(self, inner: Rect) -> bool {
        &&& self.a.x <= inner.a.x
        &&& self.a.y <= inner.a.y
        &&& inner.a.x + inner.off.x <= self.a.x + self.off.x
        &&& inner.a.y + inner.off.y <= self.a.y + self.off.y
    }

    /// Two rectangles share no interior point.
    pub open spec fn disjoint(self, o: Rect) -> bool {
        ||| self.a.x + self.off.x <= o.a.x
        ||| o.a.x + o.off.x <= self.a.x
        ||| self.a.y + self.off.y <= o.a.y
        ||| o.a.y + o.off.y <= self.a.y
    }

    /// The rectangle shrunk by `num / den` of each extent on every side.
    pub open spec fn margin_spec(self, num: u64, den: u64) -> Rect {
        let mx = margin_part(self.off.x, num, den);
        let my = margin_part(self.off.y, num, den);
        Rect {
            a: Point { x: (self.a.x + mx) as u64, y: (self.a.y + my) as u64 },
            off: Point { x: (self.off.x - 2 * mx) as u64, y: (self.off.y - 2 * my) as u64 },
        }
    }

    /// Insets the rectangle by the ratio `num / den` of its extent on every
    /// side (rounded down). A ratio of one half gives a flat rectangle.
    pub fn create_margin(self, num: u64, den: u64) -> (r: Rect)
        requires
            self.wf(),
            den > 0,
            den <= COORD_LIMIT,
            2 * num <= den,
        ensures
            r == self.margin_spec(num, den),
            self.contains(r),
            r.wf(),
    {
        proof {
            lemma_margin_part_bounds(self.off.x, num, den);
            lemma_margin_part_bounds(self.off.y, num, den);
        }
        let mx = self.off.x * num / den;
        let my = self.off.y * num / den;
        Rect {
            a: Point { x: self.a.x + mx, y: self.a.y + my },
            off: Point { x: self.off.x - 2 * mx, y: self.off.y - 2 * my },
        }
    }
}

proof fn lemma_margin_part_bounds(v: u64, num: u64, den: u64)
    requires
        v <= COORD_LIMIT,
        den > 0,
        den <= COORD_LIMIT,
        2 * num <= den,
    ensures
        v * num <= v * den <= u64::MAX,
        2 * margin_part(v, num, den) <= v,
        margin_part(v, num, den) == (v * num) / (den as int),
{
    assert(v * num <= v * den <= COORD_LIMIT * COORD_LIMIT) by (nonlinear_arith)
        requires
            num <= den,
            v <= COORD_LIMIT,
            den <= COORD_LIMIT,
    ;
    assert(2 * ((v * num) / (den as int)) <= v) by (nonlinear_arith)
        requires
            2 * num <= den,
            den > 0,
    ;
}

/// An axis-aligned partition line from `a` along `off`. Its width is
/// `INITIAL_STROKE_WIDTH / STROKE_DECAY^stroke_depth`.
#[derive(Clone, Copy, Debug, PartialEq, Eq, Structural)]
pub struct Line {
    pub a: Point,
    pub off: Point,
    pub stroke_depth: u64,
}

/// A text label: its corner, the message, the font size (its height) and the
/// width the text is stretched to.
#[derive(Debug)]
pub struct Text {
    pub a: Point,
    pub msg: String,
    pub font_size: u64,
    pub text_length: u64,
}

} // verus!
