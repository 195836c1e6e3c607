//! The best-split search and the greedy rectangle splitter.

use vstd::prelude::*;
use crate::geometry::{Line, Point, Rect};

verus! {

/// Sibling values handed to one split never add up to more than this.
pub const MAX_TOTAL: u64 = 0x1_0000_0000;

/// Sum of a sequence of values.
pub open spec fn seq_sum(s: Seq<u64>) -> int
    decreases s.len(),
{
    if s.len() == 0 {
        0
    } else {
        seq_sum(s.drop_last()) + s.last()
    }
}

/// Sum of the areas of a sequence of rectangles.
pub open spec fn area_sum(s: Seq<Rect>) -> int
    decreases s.len(),
{
    if s.len() == 0 {
        0
    } else {
        area_sum(s.drop_last()) + s.last().area()
    }
}

/// Sum of the values `s[a..b]`.
pub open spec fn range_sum(s: Seq<u64>, a: int, b: int) -> int {
    seq_sum(s.subrange(a, b))
}

pub proof fn lemma_range_sum_split(s: Seq<u64>, a: int, b: int, c: int)
    requires
        0 <= a <= b <= c <= s.len(),
    ensures
        range_sum(s, a, c) == range_sum(s, a, b) + range_sum(s, b, c),
        range_sum(s, a, b) >= 0,
        range_sum(s, b, c) >= 0,
    decreases c - b,
{
    if c == b {
        assert(s.subrange(b, c) =~= Seq::<u64>::empty());
        lemma_range_sum_nonneg(s, a, b);
    } else {
        lemma_range_sum_split(s, a, b, c - 1);
        assert(s.subrange(a, c).drop_last() =~= s.subrange(a, c - 1));
        assert(s.subrange(b, c).drop_last() =~= s.subrange(b, c - 1));
    }
}

pub proof fn lemma_range_sum_nonneg(s: Seq<u64>, a: int, b: int)
    requires
        0 <= a <= b <= s.len(),
    ensures
        range_sum(s, a, b) >= 0,
    decreases b - a,
{
    if b > a {
        lemma_range_sum_nonneg(s, a, b - 1);
        assert(s.subrange(a, b).drop_last() =~= s.subrange(a, b - 1));
    }
}

pub proof fn lemma_range_sum_unit(s: Seq<u64>, i: int)
    requires
        0 <= i < s.len(),
    ensures
        range_sum(s, i, i) == 0,
        range_sum(s, i, i + 1) == s[i] as int,
{
    assert(s.subrange(i, i) =~= Seq::<u64>::empty());
    assert(s.subrange(i, i + 1).drop_last() =~= Seq::<u64>::empty());
    assert(seq_sum(Seq::<u64>::empty()) == 0);
}

/// A value is never more than the sum of a range that holds it.
proof fn lemma_range_sum_bounds(s: Seq<u64>, a: int, b: int, c: int, d: int)
    requires
        0 <= a <= b <= c <= d <= s.len(),
    ensures
        range_sum(s, b, c) <= range_sum(s, a, d),
{
    lemma_range_sum_split(s, a, b, d);
    lemma_range_sum_split(s, b, c, d);
}

pub proof fn lemma_area_sum_concat(x: Seq<Rect>, y: Seq<Rect>)
    ensures
        area_sum(x + y) == area_sum(x) + area_sum(y),
    decreases y.len(),
{
    if y.len() > 0 {
        lemma_area_sum_concat(x, y.drop_last());
        assert((x + y).drop_last() =~= x + y.drop_last());
    } else {
        assert(x + y =~= x);
    }
}

/// The outcome of the best-split search over siblings `s[lo..hi]`: the last
/// sibling of the adjacent group, the adjacent group's total value, the
/// orientation, and the cost that was reached, exactly, as the fraction
/// `cost_num / cost_den`.
#[derive(Clone, Copy, Debug, PartialEq, Eq, Structural)]
pub struct BestSplit {
    pub index: usize,
    pub adj_area: u64,
    pub is_xy: bool,
    pub cost_num: u128,
    pub cost_den: u128,
}

/// Where no candidate beats it: a single line, measured by the shorter side.
pub open spec fn baseline(w: u64, h: u64) -> BestSplit {
    BestSplit { index: 0, adj_area: 0, is_xy: w >= h, cost_num: if w <= h { w as u128 } else { h as u128 }, cost_den: 1 }
}

/// The cost of a pivot of value `pivot` whose group (pivot and adjacent
/// siblings) has value `group`, laid against a side of length `side`: the
/// group's width `group / side` plus the pivot's height at that width,
/// `pivot * side / group`. As a fraction, this is the numerator...
pub open spec fn cost_num(group: int, pivot: int, side: int) -> int {
    group * group + pivot * side * side
}

/// ...and this the denominator.
pub open spec fn cost_den(group: int, side: int) -> int {
    group * side
}

/// `b` updated by the candidate at prefix `idx` in one orientation, where it
/// is strictly cheaper. An empty group (of value zero) is no candidate.
pub open spec fn consider(b: BestSplit, idx: int, adj: int, pivot: int, side: int, is_xy: bool) -> BestSplit {
    let g = adj + pivot;
    let num = cost_num(g, pivot, side);
    let den = cost_den(g, side);
    if g > 0 && num * b.cost_den < b.cost_num * den {
        BestSplit { index: idx as usize, adj_area: adj as u64, is_xy, cost_num: num as u128, cost_den: den as u128 }
    } else {
        b
    }
}

/// The bounds that keep the search's arithmetic within `u128`.
pub open spec fn cost_bounded(b: BestSplit) -> bool {
    0 < b.cost_den <= 0x1_0000_0000_0000 && b.cost_num <= 0x4_0000_0000_0000_0000
}

/// Weighs the candidate of prefix `idx` in one orientation against `best`.
fn try_candidate(best: BestSplit, idx: usize, adj: u64, pivot: u64, side: u64, is_xy: bool) -> (r: BestSplit)
    requires
        adj + pivot <= MAX_TOTAL,
        0 < side <= crate::geometry::COORD_LIMIT,
        cost_bounded(best),
    ensures
        r == consider(best, idx as int, adj as int, pivot as int, side as int, is_xy),
        cost_bounded(r),
{
    let g = (adj + pivot) as u128;
    if g == 0 {
        return best;
    }
    let sd = side as u128;
    let pv = pivot as u128;
    proof {
        assert(g * g <= 0x1_0000_0000_0000_0000) by (nonlinear_arith)
            requires g <= 0x1_0000_0000;
        assert(pv * sd <= 0x1_0000_0000_0000) by (nonlinear_arith)
            requires pv <= 0x1_0000_0000, sd <= 0x1_0000;
        assert(pv * sd * sd <= 0x1_0000_0000_0000_0000) by (nonlinear_arith)
            requires pv * sd <= 0x1_0000_0000_0000, sd <= 0x1_0000;
        assert(g * sd <= 0x1_0000_0000_0000) by (nonlinear_arith)
            requires g <= 0x1_0000_0000, sd <= 0x1_0000;
        assert(g * sd > 0) by (nonlinear_arith)
            requires g > 0, sd > 0;
    }
    let num = g * g + pv * sd * sd;
    let den = g * sd;
    proof {
        assert(num * best.cost_den <= 0x4_0000_0000_0000_0000 * 0x1_0000_0000_0000) by (nonlinear_arith)
            requires num <= 0x2_0000_0000_0000_0000, best.cost_den <= 0x1_0000_0000_0000;
        assert(best.cost_num * den <= 0x4_0000_0000_0000_0000 * 0x1_0000_0000_0000) by (nonlinear_arith)
            requires best.cost_num <= 0x4_0000_0000_0000_0000, den <= 0x1_0000_0000_0000;
    }
    if num * best.cost_den < best.cost_num * den {
        BestSplit { index: idx, adj_area: adj, is_xy, cost_num: num, cost_den: den }
    } else {
        best
    }
}

/// The search's state after the prefixes `0..k` of `s[lo..]` in a rectangle of
/// extent `(w, h)`. Prefix `idx` makes `s[lo + 1..=lo + idx]` the adjacent
/// group; the side `h` is tried before `w`.
pub open spec fn best_upto(s: Seq<u64>, lo: int, k: int, w: u64, h: u64) -> BestSplit
    decreases k,
{
    if k <= 0 {
        baseline(w, h)
    } else {
        let prev = best_upto(s, lo, k - 1, w, h);
        let idx = k - 1;
        let adj = range_sum(s, lo + 1, lo + idx + 1);
        let pivot = s[lo] as int;
        consider(consider(prev, idx, adj, pivot, h as int, true), idx, adj, pivot, w as int, false)
    }
}

/// Searches, for siblings `s[lo..hi]` ordered by decreasing value, the
/// adjacent group `s[lo + 1..=lo + index]` and the orientation that keep the
/// pivot `s[lo]` closest to a square, against the single-line baseline.
pub fn adj_rem_iter(s: &[u64], lo: usize, hi: usize, rect: &Rect) -> (r: BestSplit)
    requires
        lo < hi <= s.len(),
        range_sum(s@, lo as int, hi as int) <= MAX_TOTAL,
        rect.is_proper(),
    ensures
        r == best_upto(s@, lo as int, hi - lo, rect.off.x, rect.off.y),
        r.index < hi - lo,
        r.adj_area == range_sum(s@, lo + 1, lo + r.index + 1),
{
    let w = rect.off.x;
    let h = rect.off.y;
    let pivot = s[lo];
    let mut best = BestSplit {
        index: 0,
        adj_area: 0,
        is_xy: w >= h,
        cost_num: if w <= h { w as u128 } else { h as u128 },
        cost_den: 1,
    };
    let mut adj: u64 = 0;
    let mut idx: usize = 0;
    proof {
        lemma_range_sum_split(s@, lo as int, lo + 1, hi as int);
        lemma_range_sum_unit(s@, lo as int);
        assert(s@.subrange(lo + 1, lo + 1) =~= Seq::<u64>::empty());
        assert(seq_sum(Seq::<u64>::empty()) == 0);
    }
    while idx < hi - lo
        invariant
            lo < hi <= s.len(),
            range_sum(s@, lo as int, hi as int) <= MAX_TOTAL,
            pivot == s@[lo as int],
            w == rect.off.x,
            h == rect.off.y,
            0 < w <= crate::geometry::COORD_LIMIT,
            0 < h <= crate::geometry::COORD_LIMIT,
            cost_bounded(best),
            idx <= hi - lo,
            idx > 0 ==> adj == range_sum(s@, lo + 1, lo + idx),
            idx == 0 ==> adj == 0,
            best == best_upto(s@, lo as int, idx as int, w, h),
            best.index as int <= if idx > 0 { idx - 1 } else { 0 },
            best.index == 0 ==> best.adj_area == 0,
            best.adj_area == range_sum(s@, lo + 1, lo + best.index + 1),
            pivot as int + range_sum(s@, lo + 1, hi as int) <= MAX_TOTAL,
        decreases hi - lo - idx,
    {
        if idx > 0 {
            proof {
                lemma_range_sum_split(s@, lo + 1, lo + idx, lo + idx + 1);
                lemma_range_sum_bounds(s@, lo + 1, lo + 1, lo + idx + 1, hi as int);
                lemma_range_sum_unit(s@, lo + idx);
            }
            adj = adj + s[lo + idx];
        }
        proof {
            if idx == 0 {
                assert(s@.subrange(lo + 1, lo + 1) =~= Seq::<u64>::empty());
                assert(seq_sum(Seq::<u64>::empty()) == 0);
            }
            lemma_range_sum_bounds(s@, lo + 1, lo + 1, lo + idx + 1, hi as int);
            assert(adj == range_sum(s@, lo + 1, lo + idx + 1));
        }
        best = try_candidate(best, idx, adj, pivot, h, true);
        best = try_candidate(best, idx, adj, pivot, w, false);
        idx = idx + 1;
    }
    best
}

/// Lines and rectangles placed by one split: `rects[i]` belongs to the i-th
/// sibling of the split's range.
pub struct Placement {
    pub lines: Vec<Line>,
    pub rects: Vec<Rect>,
}

impl Rect {
    /// `l` is axis-aligned and lies within the rectangle.
    pub open spec fn holds_line(self, l: Line) -> bool {
        &&& l.off.x == 0 || l.off.y == 0
        &&& self.a.x <= l.a.x
        &&& self.a.y <= l.a.y
        &&& l.a.x + l.off.x <= self.a.x + self.off.x
        &&& l.a.y + l.off.y <= self.a.y + self.off.y
    }
}

/// No two rectangles of `s` share an interior point.
pub open spec fn pairwise_disjoint(s: Seq<Rect>) -> bool {
    forall|i: int, j: int| #![trigger s[i], s[j]] 0 <= i < j < s.len() ==> s[i].disjoint(s[j])
}

/// Rectangles inside two disjoint regions are disjoint.
proof fn lemma_apart(x: Seq<Rect>, y: Seq<Rect>, r1: Rect, r2: Rect)
    requires
        forall|i: int| 0 <= i < x.len() ==> #[trigger] r1.contains(x[i]),
        forall|j: int| 0 <= j < y.len() ==> #[trigger] r2.contains(y[j]),
        r1.disjoint(r2),
    ensures
        forall|i: int, j: int| #![trigger x[i], y[j]] 0 <= i < x.len() && 0 <= j < y.len() ==> x[i].disjoint(y[j]),
{
    assert forall|i: int, j: int| #![trigger x[i], y[j]] 0 <= i < x.len() && 0 <= j < y.len() implies x[i].disjoint(y[j]) by {
        assert(r1.contains(x[i]));
        assert(r2.contains(y[j]));
    }
}

/// What every split guarantees of its placement `p` of siblings `s[lo..hi]`
/// in `rect` at stroke depth `depth`: one rectangle per sibling, each inside
/// `rect`, no two overlapping, together covering `rect`'s area exactly, and
/// lines inside `rect`.
#[verifier::opaque]
pub open spec fn places(p: Placement, s: Seq<u64>, lo: int, hi: int, rect: Rect, depth: u64) -> bool {
    &&& p.rects@.len() == hi - lo
    &&& forall|i: int| 0 <= i < p.rects@.len() ==> #[trigger] rect.contains(p.rects@[i]) && p.rects@[i].wf()
    &&& hi > lo ==> area_sum(p.rects@) == rect.area()
    &&& pairwise_disjoint(p.rects@)
    &&& forall|i: int| 0 <= i < p.lines@.len() ==> #[trigger] rect.holds_line(p.lines@[i]) && p.lines@[i].stroke_depth == depth
}

proof fn lemma_places_concat(p: Placement, q: Placement, outer: Rect, r1: Rect, r2: Rect, depth: u64)
    requires
        forall|i: int| 0 <= i < p.rects@.len() ==> #[trigger] r1.contains(p.rects@[i]) && p.rects@[i].wf(),
        forall|i: int| 0 <= i < q.rects@.len() ==> #[trigger] r2.contains(q.rects@[i]) && q.rects@[i].wf(),
        forall|i: int| 0 <= i < p.lines@.len() ==> #[trigger] r1.holds_line(p.lines@[i]) && p.lines@[i].stroke_depth == depth,
        forall|i: int| 0 <= i < q.lines@.len() ==> #[trigger] r2.holds_line(q.lines@[i]) && q.lines@[i].stroke_depth == depth,
        outer.contains(r1),
        outer.contains(r2),
    ensures
        forall|i: int| 0 <= i < (p.rects@ + q.rects@).len() ==> #[trigger] outer.contains((p.rects@ + q.rects@)[i]) && (p.rects@ + q.rects@)[i].wf(),
        forall|i: int| 0 <= i < (p.lines@ + q.lines@).len() ==> #[trigger] outer.holds_line((p.lines@ + q.lines@)[i]) && (p.lines@ + q.lines@)[i].stroke_depth == depth,
        area_sum(p.rects@ + q.rects@) == area_sum(p.rects@) + area_sum(q.rects@),
{
    lemma_area_sum_concat(p.rects@, q.rects@);
    assert forall|i: int| 0 <= i < (p.rects@ + q.rects@).len() implies #[trigger] outer.contains((p.rects@ + q.rects@)[i]) && (p.rects@ + q.rects@)[i].wf() by {
        if i < p.rects@.len() {
            assert(r1.contains(p.rects@[i]));
        } else {
            assert(r2.contains(q.rects@[i - p.rects@.len()]));
        }
    }
    assert forall|i: int| 0 <= i < (p.lines@ + q.lines@).len() implies #[trigger] outer.holds_line((p.lines@ + q.lines@)[i]) && (p.lines@ + q.lines@)[i].stroke_depth == depth by {
        if i < p.lines@.len() {
            assert(r1.holds_line(p.lines@[i]));
        } else {
            assert(r2.holds_line(q.lines@[i - p.lines@.len()]));
        }
    }
}

proof fn lemma_places_widen(p: Placement, s: Seq<u64>, lo: int, hi: int, inner: Rect, outer: Rect, depth: u64)
    requires
        places(p, s, lo, hi, inner, depth),
        outer.contains(inner),
    ensures
        p.rects@.len() == hi - lo,
        hi > lo ==> area_sum(p.rects@) == inner.area(),
        pairwise_disjoint(p.rects@),
        forall|i: int| 0 <= i < p.rects@.len() ==> #[trigger] inner.contains(p.rects@[i]),
        forall|i: int| 0 <= i < p.rects@.len() ==> #[trigger] outer.contains(p.rects@[i]) && p.rects@[i].wf(),
        forall|i: int| 0 <= i < p.lines@.len() ==> #[trigger] outer.holds_line(p.lines@[i]) && p.lines@[i].stroke_depth == depth,
{
    reveal(places);
    assert forall|i: int| 0 <= i < p.rects@.len() implies #[trigger] outer.contains(p.rects@[i]) && p.rects@[i].wf() by {
        assert(inner.contains(p.rects@[i]));
    }
    assert forall|i: int| 0 <= i < p.lines@.len() implies #[trigger] outer.holds_line(p.lines@[i]) && p.lines@[i].stroke_depth == depth by {
        assert(inner.holds_line(p.lines@[i]));
    }
}

proof fn lemma_places_intro(p: Placement, s: Seq<u64>, lo: int, hi: int, rect: Rect, depth: u64)
    requires
        p.rects@.len() == hi - lo,
        hi > lo ==> area_sum(p.rects@) == rect.area(),
        pairwise_disjoint(p.rects@),
        forall|i: int| 0 <= i < p.rects@.len() ==> #[trigger] rect.contains(p.rects@[i]) && p.rects@[i].wf(),
        forall|i: int| 0 <= i < p.lines@.len() ==> #[trigger] rect.holds_line(p.lines@[i]) && p.lines@[i].stroke_depth == depth,
    ensures
        places(p, s, lo, hi, rect, depth),
{
    reveal(places);
}

proof fn lemma_area_sum_single(r: Rect)
    ensures
        area_sum(seq![r]) == r.area(),
{
    assert(seq![r].drop_last() =~= Seq::<Rect>::empty());
    assert(area_sum(Seq::<Rect>::empty()) == 0);
}

/// Joins the placement `head` (lines and rectangles inside `rect`) with the
/// placement `tail`, keeping their order.
fn join(head: Placement, tail: Placement, rect: Rect, depth: u64) -> (p: Placement)
    requires
        forall|i: int| 0 <= i < head.rects@.len() ==> #[trigger] rect.contains(head.rects@[i]) && head.rects@[i].wf(),
        forall|i: int| 0 <= i < tail.rects@.len() ==> #[trigger] rect.contains(tail.rects@[i]) && tail.rects@[i].wf(),
        forall|i: int| 0 <= i < head.lines@.len() ==> #[trigger] rect.holds_line(head.lines@[i]) && head.lines@[i].stroke_depth == depth,
        forall|i: int| 0 <= i < tail.lines@.len() ==> #[trigger] rect.holds_line(tail.lines@[i]) && tail.lines@[i].stroke_depth == depth,
        pairwise_disjoint(head.rects@),
        pairwise_disjoint(tail.rects@),
        forall|i: int, j: int| #![trigger head.rects@[i], tail.rects@[j]] 0 <= i < head.rects@.len() && 0 <= j < tail.rects@.len() ==> head.rects@[i].disjoint(tail.rects@[j]),
    ensures
        pairwise_disjoint(p.rects@),
        p.rects@ == head.rects@ + tail.rects@,
        p.lines@ == head.lines@ + tail.lines@,
        forall|i: int| 0 <= i < p.rects@.len() ==> #[trigger] rect.contains(p.rects@[i]) && p.rects@[i].wf(),
        forall|i: int| 0 <= i < p.lines@.len() ==> #[trigger] rect.holds_line(p.lines@[i]) && p.lines@[i].stroke_depth == depth,
        area_sum(p.rects@) == area_sum(head.rects@) + area_sum(tail.rects@),
{
    proof {
        lemma_places_concat(head, tail, rect, rect, rect, depth);
        let c = head.rects@ + tail.rects@;
        let m = head.rects@.len();
        assert forall|i: int, j: int| #![trigger c[i], c[j]] 0 <= i < j < c.len() implies c[i].disjoint(c[j]) by {
            if j < m {
                assert(c[i] == head.rects@[i] && c[j] == head.rects@[j]);
            } else if i < m {
                assert(c[i] == head.rects@[i] && c[j] == tail.rects@[j - m]);
            } else {
                assert(c[i] == tail.rects@[i - m] && c[j] == tail.rects@[j - m]);
            }
        }
    }
    let mut lines = head.lines;
    let mut rects = head.rects;
    let mut tail_lines = tail.lines;
    let mut tail_rects = tail.rects;
    lines.append(&mut tail_lines);
    rects.append(&mut tail_rects);
    Placement { lines, rects }
}

/// Where the single-line step draws its line: the first sibling's length
/// `v0 / short` along the longer side, at most the longer side, and all of it
/// in a rectangle with an empty side.
pub open spec fn line_len(v0: u64, w: u64, h: u64) -> u64 {
    let short = if w <= h { w } else { h };
    let long = if w <= h { h } else { w };
    if short == 0 { long } else if v0 / short <= long { v0 / short } else { long }
}

/// The single-line step's line, the region before it and the region after it.
pub open spec fn line_regions_spec(v0: u64, rect: Rect, depth: u64) -> (Line, Rect, Rect) {
    let (w, h, o) = (rect.off.x, rect.off.y, rect.a);
    let len = line_len(v0, w, h);
    if w >= h {
        (
            Line { a: Point { x: (o.x + len) as u64, y: o.y }, off: Point { x: 0, y: h }, stroke_depth: depth },
            Rect { a: o, off: Point { x: len, y: h } },
            Rect { a: Point { x: (o.x + len) as u64, y: o.y }, off: Point { x: (w - len) as u64, y: h } },
        )
    } else {
        (
            Line { a: Point { x: o.x, y: (o.y + len) as u64 }, off: Point { x: w, y: 0 }, stroke_depth: depth },
            Rect { a: o, off: Point { x: w, y: len } },
            Rect { a: Point { x: o.x, y: (o.y + len) as u64 }, off: Point { x: w, y: (h - len) as u64 } },
        )
    }
}

/// The pivot's extent along the orientation's first axis: the group's value
/// over the side it lies against, at most that axis' length, and all of it
/// where no remaining group follows.
pub open spec fn group_width(group: u64, side: u64, full: u64, last: bool) -> u64 {
    if last { full } else if group / side <= full { group / side } else { full }
}

/// The pivot's other extent: its value over its width, at most the axis'
/// length, and all of it where the adjacent group is empty.
pub open spec fn pivot_depth(v0: u64, width: u64, full: u64, k: usize) -> u64 {
    if k == 0 || width == 0 { full } else if v0 / width <= full { v0 / width } else { full }
}

/// The best-split step's pivot region, adjacent region, remaining region,
/// remaining line and adjacent line.
pub open spec fn pivot_regions_spec(b: BestSplit, v0: u64, last: bool, rect: Rect, depth: u64) -> (Rect, Rect, Rect, Line, Line) {
    let (w, h, o) = (rect.off.x, rect.off.y, rect.a);
    let group = (b.adj_area + v0) as u64;
    if b.is_xy {
        let nx = group_width(group, h, w, last);
        let ny = pivot_depth(v0, nx, h, b.index);
        (
            Rect { a: o, off: Point { x: nx, y: ny } },
            Rect { a: Point { x: o.x, y: (o.y + ny) as u64 }, off: Point { x: nx, y: (h - ny) as u64 } },
            Rect { a: Point { x: (o.x + nx) as u64, y: o.y }, off: Point { x: (w - nx) as u64, y: h } },
            Line { a: Point { x: (o.x + nx) as u64, y: o.y }, off: Point { x: 0, y: h }, stroke_depth: depth },
            Line { a: Point { x: o.x, y: (o.y + ny) as u64 }, off: Point { x: nx, y: 0 }, stroke_depth: depth },
        )
    } else {
        let ny = group_width(group, w, h, last);
        let nx = pivot_depth(v0, ny, w, b.index);
        (
            Rect { a: o, off: Point { x: nx, y: ny } },
            Rect { a: Point { x: (o.x + nx) as u64, y: o.y }, off: Point { x: (w - nx) as u64, y: ny } },
            Rect { a: Point { x: o.x, y: (o.y + ny) as u64 }, off: Point { x: w, y: (h - ny) as u64 } },
            Line { a: Point { x: o.x, y: (o.y + ny) as u64 }, off: Point { x: w, y: 0 }, stroke_depth: depth },
            Line { a: Point { x: (o.x + nx) as u64, y: o.y }, off: Point { x: 0, y: ny }, stroke_depth: depth },
        )
    }
}

/// The splitter's layout of siblings `s[lo..hi]` in `rect`, as its lines and
/// its rectangles (one per sibling, in sibling order).
pub open spec fn layout(s: Seq<u64>, lo: int, hi: int, rect: Rect, depth: u64) -> (Seq<Line>, Seq<Rect>)
    decreases hi - lo,
{
    if hi <= lo {
        (Seq::empty(), Seq::empty())
    } else if hi - lo == 1 {
        (Seq::empty(), seq![rect])
    } else {
        let (w, h) = (rect.off.x, rect.off.y);
        let short = if w <= h { w } else { h };
        let v0 = s[lo];
        if short == 0 || hi - lo == 2 || v0 / short >= short {
            let g = line_regions_spec(v0, rect, depth);
            let rest = layout(s, lo + 1, hi, g.2, depth);
            (seq![g.0] + rest.0, seq![g.1] + rest.1)
        } else {
            let b = best_upto(s, lo, hi - lo, w, h);
            let k: int = if b.index < hi - lo { b.index as int } else { 0 };
            let g = pivot_regions_spec(b, v0, lo + k + 1 == hi, rect, depth);
            let pa = layout(s, lo + 1, lo + k + 1, g.1, depth);
            let pr = layout(s, lo + k + 1, hi, g.2, depth);
            let own = if k > 0 { seq![g.3, g.4] } else { seq![g.3] };
            (own + (pa.0 + pr.0), seq![g.0] + (pa.1 + pr.1))
        }
    }
}

/// The single-line split of `rect`: the line across the longer side at the
/// first sibling's length `v0 / short` (at most the longer side; the whole
/// of it in a rectangle with an empty side), the region before it and the
/// region after it.
fn line_regions(v0: u64, rect: Rect, depth: u64) -> (r: (Line, Rect, Rect))
    requires
        rect.wf(),
    ensures
        rect.holds_line(r.0),
        r.0.stroke_depth == depth,
        rect.contains(r.1),
        rect.contains(r.2),
        r.1.wf(),
        r.2.wf(),
        r.1.area() + r.2.area() == rect.area(),
        r.1.disjoint(r.2),
        r == line_regions_spec(v0, rect, depth),
{
    let w = rect.off.x;
    let h = rect.off.y;
    let o = rect.a;
    let short = if w <= h { w } else { h };
    let long = if w <= h { h } else { w };
    let len = if short == 0 {
        long
    } else if v0 / short <= long {
        v0 / short
    } else {
        long
    };
    let line: Line;
    let lead: Rect;
    let trail: Rect;
    if w >= h {
        line = Line { a: Point { x: o.x + len, y: o.y }, off: Point { x: 0, y: h }, stroke_depth: depth };
        lead = Rect { a: o, off: Point { x: len, y: h } };
        trail = Rect { a: Point { x: o.x + len, y: o.y }, off: Point { x: w - len, y: h } };
        assert(lead.area() + trail.area() == rect.area()) by (nonlinear_arith)
            requires
                lead.off.x + trail.off.x == w,
                lead.off.y == h,
                trail.off.y == h,
                rect.off.x == w,
                rect.off.y == h,
        ;
    } else {
        line = Line { a: Point { x: o.x, y: o.y + len }, off: Point { x: w, y: 0 }, stroke_depth: depth };
        lead = Rect { a: o, off: Point { x: w, y: len } };
        trail = Rect { a: Point { x: o.x, y: o.y + len }, off: Point { x: w, y: h - len } };
        assert(lead.area() + trail.area() == rect.area()) by (nonlinear_arith)
            requires
                lead.off.y + trail.off.y == h,
                lead.off.x == w,
                trail.off.x == w,
                rect.off.x == w,
                rect.off.y == h,
        ;
    }
    (line, lead, trail)
}

/// The regions of the best split `b` of `rect` for a pivot of value `v0`:
/// the pivot's, the adjacent group's and the remaining group's, with the
/// remaining line and the adjacent line. `last` tells that the remaining group
/// is empty.
fn pivot_regions(b: BestSplit, v0: u64, last: bool, rect: Rect, depth: u64) -> (r: (Rect, Rect, Rect, Line, Line))
    requires
        rect.is_proper(),
        b.adj_area + v0 <= MAX_TOTAL,
    ensures
        rect.contains(r.0),
        rect.contains(r.1),
        rect.contains(r.2),
        r.0.wf(),
        r.1.wf(),
        r.2.wf(),
        rect.holds_line(r.3),
        rect.holds_line(r.4),
        r.3.stroke_depth == depth,
        r.4.stroke_depth == depth,
        r.0.area() + r.1.area() + r.2.area() == rect.area(),
        b.index == 0 ==> r.1.area() == 0,
        last ==> r.2.area() == 0,
        r.0.disjoint(r.1),
        r.0.disjoint(r.2),
        r.1.disjoint(r.2),
        r == pivot_regions_spec(b, v0, last, rect, depth),
{
    let w = rect.off.x;
    let h = rect.off.y;
    let o = rect.a;
    let k = b.index;
    let group = b.adj_area + v0;
    let pivot: Rect;
    let adj: Rect;
    let rem: Rect;
    let rem_line: Line;
    let adj_line: Line;
    if b.is_xy {
        let nx = if last {
            w
        } else if group / h <= w {
            group / h
        } else {
            w
        };
        let ny = if k == 0 || nx == 0 {
            h
        } else if v0 / nx <= h {
            v0 / nx
        } else {
            h
        };
        pivot = Rect { a: o, off: Point { x: nx, y: ny } };
        rem_line = Line { a: Point { x: o.x + nx, y: o.y }, off: Point { x: 0, y: h }, stroke_depth: depth };
        rem = Rect { a: Point { x: o.x + nx, y: o.y }, off: Point { x: w - nx, y: h } };
        adj_line = Line { a: Point { x: o.x, y: o.y + ny }, off: Point { x: nx, y: 0 }, stroke_depth: depth };
        adj = Rect { a: Point { x: o.x, y: o.y + ny }, off: Point { x: nx, y: h - ny } };
        assert(pivot.area() + adj.area() + rem.area() == rect.area()) by (nonlinear_arith)
            requires
                pivot.off.x == nx,
                pivot.off.y == ny,
                adj.off.x == nx,
                adj.off.y == h - ny,
                rem.off.x == w - nx,
                rem.off.y == h,
                rect.off.x == w,
                rect.off.y == h,
        ;
    } else {
        let ny = if last {
            h
        } else if group / w <= h {
            group / w
        } else {
            h
        };
        let nx = if k == 0 || ny == 0 {
            w
        } else if v0 / ny <= w {
            v0 / ny
        } else {
            w
        };
        pivot = Rect { a: o, off: Point { x: nx, y: ny } };
        rem_line = Line { a: Point { x: o.x, y: o.y + ny }, off: Point { x: w, y: 0 }, stroke_depth: depth };
        rem = Rect { a: Point { x: o.x, y: o.y + ny }, off: Point { x: w, y: h - ny } };
        adj_line = Line { a: Point { x: o.x + nx, y: o.y }, off: Point { x: 0, y: ny }, stroke_depth: depth };
        adj = Rect { a: Point { x: o.x + nx, y: o.y }, off: Point { x: w - nx, y: ny } };
        assert(pivot.area() + adj.area() + rem.area() == rect.area()) by (nonlinear_arith)
            requires
                pivot.off.x == nx,
                pivot.off.y == ny,
                adj.off.x == w - nx,
                adj.off.y == ny,
                rem.off.x == w,
                rem.off.y == h - ny,
                rect.off.x == w,
                rect.off.y == h,
        ;
    }
    assert(k == 0 ==> adj.area() == 0) by (nonlinear_arith)
        requires
            k == 0 ==> adj.off.x == 0 || adj.off.y == 0,
    ;
    assert(last ==> rem.area() == 0) by (nonlinear_arith)
        requires
            last ==> rem.off.x == 0 || rem.off.y == 0,
    ;
    (pivot, adj, rem, rem_line, adj_line)
}

/// The single-line step of the splitter: the first sibling takes the region
/// before the line, the others are split in the region after it.
fn split_by_line(s: &[u64], lo: usize, hi: usize, rect: Rect, depth: u64) -> (p: Placement)
    requires
        2 <= hi - lo,
        hi <= s.len(),
        rect.wf(),
        range_sum(s@, lo as int, hi as int) <= MAX_TOTAL,
        ({
            let short = if rect.off.x <= rect.off.y { rect.off.x } else { rect.off.y };
            short == 0 || hi - lo == 2 || s@[lo as int] / short >= short
        }),
    ensures
        p.lines@ == layout(s@, lo as int, hi as int, rect, depth).0,
        p.rects@ == layout(s@, lo as int, hi as int, rect, depth).1,
        places(p, s@, lo as int, hi as int, rect, depth),
        hi - lo == 2 ==> p.lines@.len() == 1 && p.rects@[0].disjoint(p.rects@[1])
            && p.rects@[0].area() + p.rects@[1].area() == rect.area(),
    decreases hi - lo, 0nat,
{
    let v0 = s[lo];
    proof {
        lemma_range_sum_split(s@, lo as int, lo + 1, hi as int);
        lemma_range_sum_unit(s@, lo as int);
    }
    let (line, lead, trail) = line_regions(v0, rect, depth);
    let rest = place_siblings(s, lo + 1, hi, trail, depth);
    proof {
        lemma_area_sum_single(lead);
        lemma_places_widen(rest, s@, lo + 1, hi as int, trail, rect, depth);
    }
    let head = Placement { lines: vec![line], rects: vec![lead] };
    assert(head.rects@ =~= seq![lead]);
    proof {
        assert(lead.contains(head.rects@[0]));
        lemma_apart(head.rects@, rest.rects@, lead, trail);
    }
    assert(head.lines@ =~= seq![line]);
    assert(rect.holds_line(head.lines@[0]));
    let p = join(head, rest, rect, depth);
    assert(area_sum(rest.rects@) == trail.area());
    proof {
        if hi - lo == 2 {
            assert(p.rects@ =~= seq![lead, trail]);
        }
    }
    proof {
        assert(forall|i: int| 0 <= i < p.lines@.len() ==> #[trigger] rect.holds_line(p.lines@[i]) && p.lines@[i].stroke_depth == depth);
        lemma_places_intro(p, s@, lo as int, hi as int, rect, depth);
    }
    return p;
}

/// The best-split step of the splitter: the pivot, its adjacent group and the
/// remaining group each get a region, and both groups are split in turn.
#[verifier::spinoff_prover]
#[verifier::rlimit(80)]
fn split_by_best(s: &[u64], lo: usize, hi: usize, rect: Rect, depth: u64) -> (p: Placement)
    requires
        2 <= hi - lo,
        hi <= s.len(),
        rect.is_proper(),
        range_sum(s@, lo as int, hi as int) <= MAX_TOTAL,
        hi - lo >= 3,
        ({
            let short = if rect.off.x <= rect.off.y { rect.off.x } else { rect.off.y };
            s@[lo as int] / short < short
        }),
    ensures
        p.lines@ == layout(s@, lo as int, hi as int, rect, depth).0,
        p.rects@ == layout(s@, lo as int, hi as int, rect, depth).1,
        places(p, s@, lo as int, hi as int, rect, depth),
    decreases hi - lo, 0nat,
{
    let v0 = s[lo];
    proof {
        lemma_range_sum_split(s@, lo as int, lo + 1, hi as int);
        lemma_range_sum_unit(s@, lo as int);
    }
    let w = rect.off.x;
    let h = rect.off.y;
    let b = adj_rem_iter(s, lo, hi, &rect);
    let k = b.index;
    proof {
        lemma_range_sum_bounds(s@, lo + 1, lo + 1, lo + k + 1, hi as int);
        lemma_range_sum_split(s@, lo as int, lo + k + 1, hi as int);
        lemma_range_sum_split(s@, lo + 1, lo + k + 1, hi as int);
    }
    let group = b.adj_area + v0;
    let last = lo + k + 1 == hi;
    let (pivot, adj, rem, rem_line, adj_line) = pivot_regions(b, v0, last, rect, depth);
    let pa = place_siblings(s, lo + 1, lo + k + 1, adj, depth);
    let pr = place_siblings(s, lo + k + 1, hi, rem, depth);
    let mut own_lines: Vec<Line> = Vec::new();
    own_lines.push(rem_line);
    if k > 0 {
        own_lines.push(adj_line);
    }
    let mut own_rects: Vec<Rect> = Vec::new();
    own_rects.push(pivot);
    proof {
        lemma_area_sum_single(pivot);
        assert(own_rects@ =~= seq![pivot]);
        assert(rect.contains(own_rects@[0]));
        if k > 0 {
            assert(own_lines@ =~= seq![rem_line, adj_line]);
        } else {
            assert(own_lines@ =~= seq![rem_line]);
        }
        assert(forall|i: int| 0 <= i < own_lines@.len() ==> #[trigger] rect.holds_line(own_lines@[i]) && own_lines@[i].stroke_depth == depth);
        lemma_places_widen(pa, s@, lo + 1, lo + k + 1, adj, rect, depth);
        lemma_places_widen(pr, s@, lo + k + 1, hi as int, rem, rect, depth);
        lemma_apart(pa.rects@, pr.rects@, adj, rem);
        assert(pivot.contains(own_rects@[0]));
        lemma_apart(own_rects@, pa.rects@, pivot, adj);
        lemma_apart(own_rects@, pr.rects@, pivot, rem);
    }
    let ghost pa_rects = pa.rects@;
    let ghost pr_rects = pr.rects@;
    let groups = join(pa, pr, rect, depth);
    proof {
        let m = pa_rects.len();
        assert forall|i: int, j: int| #![trigger own_rects@[i], groups.rects@[j]] 0 <= i < own_rects@.len() && 0 <= j < groups.rects@.len() implies own_rects@[i].disjoint(groups.rects@[j]) by {
            if j < m {
                assert(groups.rects@[j] == pa_rects[j]);
            } else {
                assert(groups.rects@[j] == pr_rects[j - m]);
            }
        }
    }
    let ghost own_l = own_lines@;
    let head = Placement { lines: own_lines, rects: own_rects };
    let p = join(head, groups, rect, depth);
    proof {
        assert(forall|i: int| 0 <= i < p.lines@.len() ==> #[trigger] rect.holds_line(p.lines@[i]) && p.lines@[i].stroke_depth == depth);
        assert(p.rects@.len() == hi - lo);
        assert(area_sum(p.rects@) == rect.area());
        assert(pairwise_disjoint(p.rects@));
        assert(forall|i: int| 0 <= i < p.rects@.len() ==> #[trigger] rect.contains(p.rects@[i]) && p.rects@[i].wf());
        lemma_places_intro(p, s@, lo as int, hi as int, rect, depth);
        assert(groups.lines@ == pa.lines@ + pr.lines@);
        assert(p.lines@ == own_l + (pa.lines@ + pr.lines@));
    }
    p
}

/// The splitter's recursion: as `compose_greedy_rec`, in a rectangle that
/// rounding may have left without extent.
#[verifier::spinoff_prover]
#[verifier::rlimit(50)]
pub(crate) fn place_siblings(s: &[u64], lo: usize, hi: usize, rect: Rect, depth: u64) -> (p: Placement)
    requires
        lo <= hi <= s.len(),
        rect.wf(),
        range_sum(s@, lo as int, hi as int) <= MAX_TOTAL,
    ensures
        places(p, s@, lo as int, hi as int, rect, depth),
        p.lines@ == layout(s@, lo as int, hi as int, rect, depth).0,
        p.rects@ == layout(s@, lo as int, hi as int, rect, depth).1,
        hi - lo == 1 ==> p.rects@ == seq![rect] && p.lines@.len() == 0,
        hi - lo >= 2 ==> p.lines@.len() >= 1,
        hi - lo == 2 ==> p.lines@.len() == 1 && p.rects@[0].disjoint(p.rects@[1])
            && p.rects@[0].area() + p.rects@[1].area() == rect.area(),
        hi > lo && range_sum(s@, lo as int, hi as int) == rect.area() ==> area_sum(p.rects@) == range_sum(s@, lo as int, hi as int),
    decreases hi - lo, 1nat,
{
    proof {
        reveal(places);
    }
    if lo == hi {
        let p = Placement { lines: Vec::new(), rects: Vec::new() };
        assert(p.lines@ =~= Seq::<Line>::empty());
        assert(p.rects@ =~= Seq::<Rect>::empty());
        proof {
            lemma_places_intro(p, s@, lo as int, hi as int, rect, depth);
        }
        return p;
    }
    if hi - lo == 1 {
        proof {
            lemma_area_sum_single(rect);
        }
        let p = Placement { lines: Vec::new(), rects: vec![rect] };
        assert(p.rects@ =~= seq![rect]);
        assert(p.lines@ =~= Seq::<Line>::empty());
        assert(rect.contains(p.rects@[0]));
        proof {
            lemma_places_intro(p, s@, lo as int, hi as int, rect, depth);
        }
        return p;
    }
    let w = rect.off.x;
    let h = rect.off.y;
    let short = if w <= h { w } else { h };
    let v0 = s[lo];
    proof {
        lemma_range_sum_split(s@, lo as int, lo + 1, hi as int);
        lemma_range_sum_unit(s@, lo as int);
    }
    if short == 0 || hi - lo == 2 || v0 / short >= short {
        return split_by_line(s, lo, hi, rect, depth);
    }
    split_by_best(s, lo, hi, rect, depth)
}

/// The greedy rectangle splitter: places siblings `s[lo..hi]`, ordered by
/// decreasing value, in `rect`, emitting partition lines at stroke depth
/// `depth`.
///
/// No sibling: nothing. One sibling: it fills `rect`. Two siblings, a
/// degenerate `rect`, or a first sibling at least as long as the shorter side:
/// one line across the longer side parts the first sibling's region from the
/// rest, which is split in turn. Otherwise the best split parts the pivot
/// (first sibling), its adjacent group and the remaining group by a
/// "remaining" line and, for a non-empty adjacent group, an "adjacent" line;
/// both groups are split in turn. Lengths are rounded down, and the last
/// group of a split takes all that is left, so that the rectangles always
/// cover `rect` exactly; a lone remaining sibling fills its region.
///
/// Rectangles come in sibling order; lines come as this split's own lines,
/// then those of the adjacent group, then those of the remaining group.
pub fn compose_greedy_rec(s: &[u64], lo: usize, hi: usize, rect: Rect, depth: u64) -> (p: Placement)
    requires
        lo <= hi <= s.len(),
        rect.is_proper(),
        range_sum(s@, lo as int, hi as int) <= MAX_TOTAL,
    ensures
        places(p, s@, lo as int, hi as int, rect, depth),
        p.lines@ == layout(s@, lo as int, hi as int, rect, depth).0,
        p.rects@ == layout(s@, lo as int, hi as int, rect, depth).1,
        hi - lo == 1 ==> p.rects@ == seq![rect] && p.lines@.len() == 0,
        hi - lo >= 2 ==> p.lines@.len() >= 1,
        hi - lo == 2 ==> p.lines@.len() == 1 && p.rects@[0].disjoint(p.rects@[1])
            && p.rects@[0].area() + p.rects@[1].area() == rect.area(),
        hi > lo && range_sum(s@, lo as int, hi as int) == rect.area() ==> area_sum(p.rects@) == range_sum(s@, lo as int, hi as int),
{
    place_siblings(s, lo, hi, rect, depth)
}

} // verus!
