//! Bresenham rasterization of lines and circles as step-by-step cursors.
//!
//! Every primitive walks the plane with integer arithmetic only. A cursor is
//! created by `new`, stepped with `next` until it returns `None`, and can be
//! materialized into a vector with `points`. The mathematical content of each
//! cursor is its `remaining` sequence: the exact points it will still yield.

use vstd::arithmetic::div_mod::{
    lemma_div_pos_is_pos, lemma_fundamental_div_mod_converse, lemma_div_is_ordered,
    lemma_div_plus_one,
};
use vstd::prelude::*;

use crate::{spec_pt, Point};

verus! {

/// Largest coordinate magnitude the line cursor accepts; one below `i32::MAX`
/// so that the one-past-the-end column and row still fit in an `i32`.
pub open spec fn coord_bound() -> int {
    0x7fff_fffe
}

/// The direction classification of a line, as computed by `Octant::from_points`.
pub open spec fn octant_of(dx0: int, dy0: int) -> int {
    let o1 = if dy0 < 0 { 4int } else { 0int };
    let dx1 = if dy0 < 0 { -dx0 } else { dx0 };
    let dy1 = if dy0 < 0 { -dy0 } else { dy0 };
    let o2 = if dx1 < 0 { o1 + 2 } else { o1 };
    let dx2 = if dx1 < 0 { dy1 } else { dx1 };
    let dy2 = if dx1 < 0 { -dx1 } else { dy1 };
    if dx2 < dy2 { o2 + 1 } else { o2 }
}

/// Rotate a point into the canonical octant (shallow slope, both deltas
/// non-negative) of octant `o`.
pub open spec fn to_octant(o: int, p: (int, int)) -> (int, int) {
    if o == 0 { (p.0, p.1) }
    else if o == 1 { (p.1, p.0) }
    else if o == 2 { (p.1, -p.0) }
    else if o == 3 { (-p.0, p.1) }
    else if o == 4 { (-p.0, -p.1) }
    else if o == 5 { (-p.1, -p.0) }
    else if o == 6 { (-p.1, p.0) }
    else { (p.0, -p.1) }
}

/// Rotate a point of the canonical octant back to the true orientation;
/// inverse of `to_octant`.
pub open spec fn from_octant(o: int, p: (int, int)) -> (int, int) {
    if o == 0 { (p.0, p.1) }
    else if o == 1 { (p.1, p.0) }
    else if o == 2 { (-p.1, p.0) }
    else if o == 3 { (-p.0, p.1) }
    else if o == 4 { (-p.0, -p.1) }
    else if o == 5 { (-p.1, -p.0) }
    else if o == 6 { (p.1, -p.0) }
    else { (p.0, -p.1) }
}

/// The y offset the canonical walk has accumulated after `j` unit steps in x:
/// the error accumulator rounds `j * dy / dx` down.
pub open spec fn canon_y(j: int, dy: int, dx: int) -> int {
    if dx == 0 { 0 } else { (j * dy) / dx }
}

/// The exact sequence of grid points on the line from `s` to `e`, both
/// inclusive, in walk order: point `j` is the canonical point
/// `(x0 + j, y0 + floor(j*dy/dx))` rotated back to the true orientation.
pub open spec fn line_pts(s: (int, int), e: (int, int)) -> Seq<(int, int)> {
    let o = octant_of(e.0 - s.0, e.1 - s.1);
    let cs = to_octant(o, s);
    let ce = to_octant(o, e);
    let dx = ce.0 - cs.0;
    let dy = ce.1 - cs.1;
    Seq::new((dx + 1) as nat, |j: int| from_octant(o, (cs.0 + j, cs.1 + canon_y(j, dy, dx))))
}

/// Inputs the line cursor accepts: coordinates leave one unit of headroom at
/// the ends of the `i32` range and the deltas themselves fit in an `i32`.
/// These bounds are what the cursor's own arithmetic needs; they restrict
/// nothing a grid map can represent.
pub open spec fn line_args_ok(s: (int, int), e: (int, int)) -> bool {
    &&& -coord_bound() <= s.0 <= coord_bound()
    &&& -coord_bound() <= s.1 <= coord_bound()
    &&& -coord_bound() <= e.0 <= coord_bound()
    &&& -coord_bound() <= e.1 <= coord_bound()
    &&& -0x7fff_ffff <= e.0 - s.0 <= 0x7fff_ffff
    &&& -0x7fff_ffff <= e.1 - s.1 <= 0x7fff_ffff
}

/// The canonical-frame walk itself: from state `(x, y, diff)` step x by one
/// each time, stepping y and paying `dx` from the accumulator whenever the
/// accumulated error `diff` is non-negative, until x passes `x1`.
pub open spec fn canon_steps(x: int, y: int, diff: int, dx: int, dy: int, x1: int) -> Seq<(int, int)>
    decreases x1 + 1 - x,
{
    if x > x1 {
        Seq::empty()
    } else {
        seq![(x, y)].add(canon_steps(
            x + 1,
            if diff >= 0 { y + 1 } else { y },
            (if diff >= 0 { diff - dx } else { diff }) + dy,
            dx,
            dy,
            x1,
        ))
    }
}

/// Every point of a canonical walk in a well-formed state is the closed-form
/// point `(x + j, y + floor((j*dy + r) / dx))` where `r` is the residue the
/// error accumulator encodes.
pub proof fn lemma_canon_elems(x: int, y: int, diff: int, dx: int, dy: int, x1: int)
    requires
        0 < dx,
        0 <= dy <= dx,
        0 <= diff + dx - dy < dx,
        x <= x1 + 1,
    ensures
        canon_steps(x, y, diff, dx, dy, x1).len() == x1 + 1 - x,
        forall |j: int| 0 <= j < x1 + 1 - x ==>
            canon_steps(x, y, diff, dx, dy, x1)[j]
                == (x + j, y + (j * dy + diff + dx - dy) / dx),
    decreases x1 + 1 - x,
{
    let r = diff + dx - dy;
    if x > x1 {
        // empty walk
    } else {
        let inc = diff >= 0;
        let y2 = if inc { y + 1 } else { y };
        let diff2 = (if inc { diff - dx } else { diff }) + dy;
        let r2 = diff2 + dx - dy;
        assert(r2 == if inc { r + dy - dx } else { r + dy });
        assert(inc <==> r + dy >= dx);
        lemma_canon_elems(x + 1, y2, diff2, dx, dy, x1);
        let s = canon_steps(x, y, diff, dx, dy, x1);
        let t = canon_steps(x + 1, y2, diff2, dx, dy, x1);
        assert(s =~= seq![(x, y)].add(t));
        assert forall |j: int| 0 <= j < x1 + 1 - x implies
            s[j] == (x + j, y + (j * dy + r) / dx)
        by {
            if j == 0 {
                assert(0 * dy == 0) by (nonlinear_arith);
                assert((0 * dy + r) / dx == 0) by {
                    lemma_fundamental_div_mod_converse(r, dx, 0, r);
                }
                assert(s[0] == (x, y));
            } else {
                let i = j - 1;
                assert(s[j] == t[i]);
                assert(t[i] == (x + 1 + i, y2 + (i * dy + r2) / dx));
                assert(j * dy == (j - 1) * dy + dy) by (nonlinear_arith);
                if inc {
                    // (i*dy + r + dy - dx) / dx == (j*dy + r)/dx - 1
                    let a = i * dy + r2;
                    assert(a + dx == j * dy + r);
                    assert(a >= 0) by {
                        assert(i * dy >= 0) by (nonlinear_arith)
                            requires 0 <= i, 0 <= dy;
                    }
                    lemma_div_plus_one(a, dx);
                    assert(y2 + a / dx == y + (j * dy + r) / dx);
                } else {
                    assert(i * dy + r2 == j * dy + r);
                }
            }
        }
    }
}

/// The quotient in the closed form never exceeds `dy` while the walk stays
/// within its `dx + 1` steps, so canonical y coordinates stay between their
/// start and end values.
pub proof fn lemma_canon_quotient_bounds(j: int, r: int, dx: int, dy: int)
    requires
        0 < dx,
        0 <= dy <= dx,
        0 <= r < dx,
        0 <= j <= dx,
    ensures
        0 <= (j * dy + r) / dx <= dy,
{
    let a = j * dy + r;
    assert(j * dy + r >= 0) by (nonlinear_arith)
        requires 0 <= j, 0 <= dy, 0 <= r;
    lemma_div_pos_is_pos(a, dx);
    assert(j * dy + r <= dx * dy + r) by (nonlinear_arith)
        requires 0 <= j <= dx, 0 <= dy;
    assert((dx * dy + r) / dx == dy) by {
        lemma_fundamental_div_mod_converse(dx * dy + r, dx, dy, r);
        assert(dx * dy + r == dy * dx + r) by (nonlinear_arith);
    }
    lemma_div_is_ordered(a, dx * dy + r, dx);
}

/// Rotating into an octant and back returns the original point.
pub proof fn lemma_octant_roundtrip(o: int, p: (int, int))
    requires
        0 <= o < 8,
    ensures
        from_octant(o, to_octant(o, p)) == p,
        to_octant(o, from_octant(o, p)) == p,
{
}

/// The canonical frame of any line has both deltas non-negative, a shallow
/// slope, and a dominant delta equal to the larger coordinate distance.
pub proof fn lemma_octant_canonical(s: (int, int), e: (int, int))
    ensures ({
        let o = octant_of(e.0 - s.0, e.1 - s.1);
        let cs = to_octant(o, s);
        let ce = to_octant(o, e);
        &&& 0 <= o < 8
        &&& 0 <= ce.1 - cs.1 <= ce.0 - cs.0
        &&& ce.0 - cs.0 == int_max(int_abs(e.0 - s.0), int_abs(e.1 - s.1))
    }),
{
}

/// The larger of two integers.
pub open spec fn int_max(a: int, b: int) -> int {
    if a < b { b } else { a }
}

/// The magnitude of an integer.
pub open spec fn int_abs(a: int) -> int {
    if a < 0 { -a } else { a }
}

proof fn lemma_canon_y_zero(j: int, dx: int)
    requires
        dx > 0,
    ensures
        canon_y(j, 0, dx) == 0,
{
    assert(j * 0 == 0) by (nonlinear_arith);
    assert(0int / dx == 0) by {
        lemma_fundamental_div_mod_converse(0, dx, 0, 0);
        assert(0int == 0 * dx + 0) by (nonlinear_arith);
    }
}

proof fn lemma_canon_y_diag(j: int, dx: int)
    requires
        dx > 0,
    ensures
        canon_y(j, dx, dx) == j,
{
    lemma_fundamental_div_mod_converse(j * dx, dx, j, 0);
}

/// Law: the line from `s` to `e` starts at `s`, ends at `e`, and has exactly
/// `max(|dx|, |dy|) + 1` points.
pub proof fn lemma_line_endpoints(s: (int, int), e: (int, int))
    requires
        line_args_ok(s, e),
    ensures
        line_pts(s, e).len() == int_max(int_abs(e.0 - s.0), int_abs(e.1 - s.1)) + 1,
        line_pts(s, e)[0] == s,
        line_pts(s, e).last() == e,
{
    lemma_octant_canonical(s, e);
    let o = octant_of(e.0 - s.0, e.1 - s.1);
    let cs = to_octant(o, s);
    let ce = to_octant(o, e);
    let dx = ce.0 - cs.0;
    let dy = ce.1 - cs.1;
    lemma_octant_roundtrip(o, s);
    lemma_octant_roundtrip(o, e);
    if dx == 0 {
        assert(line_pts(s, e)[0] == from_octant(o, (cs.0, cs.1 + canon_y(0, dy, dx))));
        assert(canon_y(0, dy, dx) == 0);
    } else {
        assert(canon_y(0, dy, dx) == 0) by {
            assert(0 * dy == 0) by (nonlinear_arith);
            lemma_fundamental_div_mod_converse(0, dx, 0, 0);
            assert(0int == 0 * dx + 0) by (nonlinear_arith);
        }
        assert(canon_y(dx, dy, dx) == dy) by {
            lemma_fundamental_div_mod_converse(dx * dy, dx, dy, 0);
            assert(dx * dy == dy * dx + 0) by (nonlinear_arith);
        }
        assert(line_pts(s, e).last() == from_octant(o, (cs.0 + dx, cs.1 + dy)));
        assert((cs.0 + dx, cs.1 + dy) == ce);
    }
}

/// Law: swapping the two endpoints yields the reversed point sequence, for
/// every horizontal, vertical, or exactly diagonal line. (On other slopes the
/// walk rounds ties toward different sides in the two directions, so the two
/// sequences may differ in their interior points.)
pub proof fn lemma_line_reverse(s: (int, int), e: (int, int))
    requires
        line_args_ok(s, e),
        e.0 - s.0 == 0 || e.1 - s.1 == 0 || int_abs(e.0 - s.0) == int_abs(e.1 - s.1),
    ensures
        line_pts(e, s) == line_pts(s, e).reverse(),
{
    let dx0 = e.0 - s.0;
    let dy0 = e.1 - s.1;
    let fwd = line_pts(s, e);
    let bwd = line_pts(e, s);
    let n = int_max(int_abs(dx0), int_abs(dy0));
    lemma_octant_canonical(s, e);
    lemma_octant_canonical(e, s);
    assert(fwd.len() == n + 1 && bwd.len() == n + 1) by {
        lemma_line_endpoints(s, e);
        lemma_line_endpoints(e, s);
    }
    if n == 0 {
        assert(bwd =~= fwd.reverse()) by {
            lemma_line_endpoints(s, e);
            lemma_line_endpoints(e, s);
        }
    } else {
        let of = octant_of(dx0, dy0);
        let ob = octant_of(-dx0, -dy0);
        assert forall |j: int| 0 <= j <= n implies bwd[j] == fwd[n - j] by {
            let csf = to_octant(of, s);
            let csb = to_octant(ob, e);
            if dy0 == 0 || dx0 == 0 {
                lemma_canon_y_zero(j, n);
                lemma_canon_y_zero(n - j, n);
            } else {
                lemma_canon_y_diag(j, n);
                lemma_canon_y_diag(n - j, n);
            }
            assert(bwd[j] == from_octant(ob, (csb.0 + j, csb.1 + canon_y(j, to_octant(ob, s).1 - csb.1, n))));
            assert(fwd[n - j] == from_octant(of, (csf.0 + (n - j), csf.1 + canon_y(n - j, to_octant(of, e).1 - csf.1, n))));
        }
        assert(bwd =~= fwd.reverse());
    }
}

/// The smaller of two integers.
pub open spec fn int_min(a: int, b: int) -> int {
    if a < b { a } else { b }
}

/// Every point of a line lies in the axis-aligned rectangle spanned by its
/// two endpoints.
pub proof fn lemma_line_pts_box(s: (int, int), e: (int, int))
    requires
        line_args_ok(s, e),
    ensures
        forall |i: int| 0 <= i < line_pts(s, e).len() ==> {
            let p = #[trigger] line_pts(s, e)[i];
            &&& int_min(s.0, e.0) <= p.0 <= int_max(s.0, e.0)
            &&& int_min(s.1, e.1) <= p.1 <= int_max(s.1, e.1)
        },
{
    lemma_octant_canonical(s, e);
    let o = octant_of(e.0 - s.0, e.1 - s.1);
    let cs = to_octant(o, s);
    let ce = to_octant(o, e);
    let dx = ce.0 - cs.0;
    let dy = ce.1 - cs.1;
    assert forall |i: int| 0 <= i < line_pts(s, e).len() implies {
        let p = #[trigger] line_pts(s, e)[i];
        &&& int_min(s.0, e.0) <= p.0 <= int_max(s.0, e.0)
        &&& int_min(s.1, e.1) <= p.1 <= int_max(s.1, e.1)
    } by {
        if dx > 0 {
            lemma_canon_quotient_bounds(i, 0, dx, dy);
            assert(i * dy + 0 == i * dy);
            assert(line_pts(s, e)[i] == from_octant(o, (cs.0 + i, cs.1 + canon_y(i, dy, dx))));
        } else {
            assert(line_pts(s, e)[i] == from_octant(o, (cs.0, cs.1 + canon_y(0, dy, 0))));
        }
    }
}

/// A line's direction octant; all stepping happens in the canonical frame of
/// this octant and results are rotated back through it.
struct Octant(u8);

impl Octant {
    /// Classify the direction from `start` to `end`.
    fn from_points(start: Point, end: Point) -> (o: Octant)
        requires
            line_args_ok(spec_pt(start), spec_pt(end)),
        ensures
            o.0 < 8,
            o.0 as int == octant_of(end.0 - start.0, end.1 - start.1),
    {
        let mut dx: i32 = end.0 - start.0;
        let mut dy: i32 = end.1 - start.1;

        let mut octant: u8 = 0;

        if dy < 0 {
            dx = -dx;
            dy = -dy;
            octant += 4;
        }

        if dx < 0 {
            let tmp = dx;
            dx = dy;
            dy = -tmp;
            octant += 2;
        }

        if dx < dy {
            octant += 1;
        }

        Octant(octant)
    }

    /// Rotate `p` into this octant's canonical frame.
    fn point_to_octant(&self, p: Point) -> (q: Point)
        requires
            self.0 < 8,
            -0x7fff_ffff <= p.0 as int,
            -0x7fff_ffff <= p.1 as int,
        ensures
            spec_pt(q) == to_octant(self.0 as int, spec_pt(p)),
    {
        match self.0 {
            0 => (p.0, p.1),
            1 => (p.1, p.0),
            2 => (p.1, -p.0),
            3 => (-p.0, p.1),
            4 => (-p.0, -p.1),
            5 => (-p.1, -p.0),
            6 => (-p.1, p.0),
            _ => (p.0, -p.1),
        }
    }

    /// Rotate a canonical-frame point back to the true orientation.
    fn point_from_octant(&self, p: Point) -> (q: Point)
        requires
            self.0 < 8,
            -0x7fff_ffff <= p.0 as int,
            -0x7fff_ffff <= p.1 as int,
        ensures
            spec_pt(q) == from_octant(self.0 as int, spec_pt(p)),
    {
        match self.0 {
            0 => (p.0, p.1),
            1 => (p.1, p.0),
            2 => (-p.1, p.0),
            3 => (-p.0, p.1),
            4 => (-p.0, -p.1),
            5 => (-p.1, -p.0),
            6 => (p.1, -p.0),
            _ => (p.0, -p.1),
        }
    }
}

/// Step cursor for Bresenham's line drawing algorithm.
///
/// Yields every grid point from `start` to `end`, both inclusive, in order.
/// The cursor state lives in the canonical frame of the line's octant; `next`
/// rotates each emitted point back to the true orientation.
pub struct BresenhamLine {
    x: i32,
    y: i32,
    dx: i32,
    dy: i32,
    x1: i32,
    diff: i32,
    octant: Octant,
}

impl BresenhamLine {
    /// The canonical-frame points this cursor will still walk.
    pub closed spec fn canon(self) -> Seq<(int, int)> {
        canon_steps(
            self.x as int,
            self.y as int,
            self.diff as int,
            self.dx as int,
            self.dy as int,
            self.x1 as int,
        )
    }

    /// The points this cursor will still yield, in order.
    pub closed spec fn remaining(self) -> Seq<(int, int)> {
        self.canon().map_values(|p: (int, int)| from_octant(self.octant.0 as int, p))
    }

    /// Internal consistency of the cursor state.
    pub closed spec fn wf(self) -> bool {
        let x = self.x as int;
        let y = self.y as int;
        let dx = self.dx as int;
        let dy = self.dy as int;
        let x1 = self.x1 as int;
        let diff = self.diff as int;
        &&& (self.octant.0 as int) < 8
        &&& 0 <= dy <= dx
        &&& x <= x1 + 1
        &&& x1 <= coord_bound()
        &&& x1 - x <= dx
        &&& (dx == 0 ==> diff == 0 && dy == 0)
        &&& (dx > 0 ==> 0 <= diff + dx - dy < dx)
        &&& forall |j: int| 0 <= j < self.canon().len() ==>
                -coord_bound() <= (#[trigger] self.canon()[j]).0 <= coord_bound()
                && -coord_bound() <= self.canon()[j].1 <= coord_bound()
    }

    /// Creates a new cursor. Yields the intermediate points between `start`
    /// and `end`, inclusive.
    pub fn new(start: Point, end: Point) -> (r: BresenhamLine)
        requires
            line_args_ok(spec_pt(start), spec_pt(end)),
        ensures
            r.wf(),
            r.remaining() == line_pts(spec_pt(start), spec_pt(end)),
            r.total_len() == line_pts(spec_pt(start), spec_pt(end)).len(),
    {
        proof {
            lemma_octant_canonical(spec_pt(start), spec_pt(end));
        }
        let octant = Octant::from_points(start, end);

        let cs = octant.point_to_octant(start);
        let ce = octant.point_to_octant(end);

        let dx: i32 = ce.0 - cs.0;
        let dy: i32 = ce.1 - cs.1;

        let r = BresenhamLine {
            x: cs.0,
            y: cs.1,
            dx,
            dy,
            x1: ce.0,
            diff: dy - dx,
            octant,
        };
        proof {
            let o = octant_of(end.0 - start.0, end.1 - start.1);
            let csi = to_octant(o, spec_pt(start));
            let cei = to_octant(o, spec_pt(end));
            let dxi = cei.0 - csi.0;
            let dyi = cei.1 - csi.1;
            if dxi > 0 {
                lemma_canon_elems(csi.0, csi.1, dyi - dxi, dxi, dyi, cei.0);
                assert forall |j: int| 0 <= j < r.canon().len() implies
                    -coord_bound() <= (#[trigger] r.canon()[j]).0 <= coord_bound()
                    && -coord_bound() <= r.canon()[j].1 <= coord_bound()
                by {
                    lemma_canon_quotient_bounds(j, 0, dxi, dyi);
                    assert(r.canon()[j] == (csi.0 + j, csi.1 + (j * dyi + 0) / dxi));
                    assert(j * dyi + 0 == j * dyi);
                }
                assert(r.remaining() =~= line_pts(spec_pt(start), spec_pt(end))) by {
                    assert forall |j: int| 0 <= j < r.canon().len() implies
                        r.remaining()[j] == line_pts(spec_pt(start), spec_pt(end))[j]
                    by {
                        assert(r.canon()[j] == (csi.0 + j, csi.1 + (j * dyi + 0) / dxi));
                        assert(j * dyi + 0 == j * dyi);
                    }
                }
            } else {
                // start == end in the canonical frame: a single point
                assert(dyi == 0);
                assert(canon_steps(csi.0 + 1, csi.1 + 1, 0, 0, 0, cei.0) =~= Seq::<(int, int)>::empty());
                assert(r.canon() =~= seq![(csi.0, csi.1)]);
                assert(r.remaining() =~= line_pts(spec_pt(start), spec_pt(end)));
            }
        }
        r
    }

    /// How many points a fresh cursor yields in total.
    pub closed spec fn total_len(self) -> int {
        self.dx as int + 1
    }

    /// How many points the cursor yields in total, available before stepping.
    pub fn len(&self) -> (n: usize)
        requires
            self.wf(),
        ensures
            n as int == self.total_len(),
    {
        self.dx as usize + 1
    }

    /// Yield the next point of the line, or `None` once `end` has been passed.
    pub fn next(&mut self) -> (r: Option<Point>)
        requires
            old(self).wf(),
        ensures
            final(self).wf(),
            match r {
                Some(p) => {
                    &&& old(self).remaining().len() > 0
                    &&& spec_pt(p) == old(self).remaining()[0]
                    &&& final(self).remaining() == old(self).remaining().drop_first()
                },
                None => {
                    &&& old(self).remaining().len() == 0
                    &&& final(self).remaining().len() == 0
                },
            },
    {
        if self.x > self.x1 {
            return None;
        }

        let p = (self.x, self.y);
        proof {
            assert(self.canon()[0] == (self.x as int, self.y as int));
        }
        let q = self.octant.point_from_octant(p);

        if self.diff >= 0 {
            self.y = self.y + 1;
            self.diff = self.diff - self.dx;
        }

        self.diff = self.diff + self.dy;

        self.x = self.x + 1;

        proof {
            assert(old(self).canon() =~= seq![(old(self).x as int, old(self).y as int)].add(self.canon()));
            assert forall |j: int| 0 <= j < self.canon().len() implies
                -coord_bound() <= (#[trigger] self.canon()[j]).0 <= coord_bound()
                && -coord_bound() <= self.canon()[j].1 <= coord_bound()
            by {
                assert(self.canon()[j] == old(self).canon()[j + 1]);
            }
            assert(self.remaining() =~= old(self).remaining().drop_first());
        }
        Some(q)
    }

    /// All points of the line, materialized in order.
    pub fn points(self) -> (r: Vec<Point>)
        requires
            self.wf(),
        ensures
            r@.len() == self.remaining().len(),
            forall |j: int| 0 <= j < r@.len() ==> spec_pt(#[trigger] r@[j]) == self.remaining()[j],
    {
        let mut cur = self;
        let mut out: Vec<Point> = Vec::new();
        loop
            invariant
                cur.wf(),
                out@.len() + cur.remaining().len() == self.remaining().len(),
                forall |j: int| 0 <= j < out@.len() ==>
                    spec_pt(#[trigger] out@[j]) == self.remaining()[j],
                forall |j: int| 0 <= j < cur.remaining().len() ==>
                    #[trigger] cur.remaining()[j] == self.remaining()[out@.len() + j],
            ensures
                cur.remaining().len() == 0,
                out@.len() == self.remaining().len(),
                forall |j: int| 0 <= j < out@.len() ==>
                    spec_pt(#[trigger] out@[j]) == self.remaining()[j],
            decreases cur.remaining().len(),
        {
            match cur.next() {
                Some(p) => {
                    out.push(p);
                }
                None => {
                    break;
                }
            }
        }
        out
    }
}

/// The midpoint-circle error term at offset `(x, y)` from a circle of radius
/// `r`: the signed distance of the next midpoint from the circle.
pub open spec fn thin_err(x: int, y: int, r: int) -> int {
    (x + 1) * (x + 1) + (y + 1) * (y + 1) - r * r
}

/// The first-quadrant arc walk of the thin circle: offsets starting at
/// `(-r, 0)`, stepping y while the error lags and x while it leads, until x
/// reaches zero.
pub open spec fn thin_arc(x: int, y: int, r: int) -> Seq<(int, int)>
    decreases (0 - x) + (r - y) + 1,
{
    if x >= 0 || x < -r || y < 0 || y > r {
        Seq::empty()
    } else {
        let e = thin_err(x, y, r);
        let y2 = if e <= y { y + 1 } else { y };
        let e2 = thin_err(x, y2, r);
        let x2 = if e > x || e2 > y2 { x + 1 } else { x };
        seq![(x, y)].add(thin_arc(x2, y2, r))
    }
}

/// Reflect an arc offset into quadrant `q` around center `c`.
pub open spec fn quad_map(q: int, c: (int, int), p: (int, int)) -> (int, int) {
    if q == 0 { (c.0 - p.0, c.1 + p.1) }
    else if q == 1 { (c.0 - p.1, c.1 - p.0) }
    else if q == 2 { (c.0 + p.0, c.1 - p.1) }
    else { (c.0 + p.1, c.1 + p.0) }
}

/// The exact point sequence of the thin circle of radius `r` around `c`: the
/// first-quadrant arc reflected into the four quadrants, in emission order.
pub open spec fn circle_pts(c: (int, int), r: int) -> Seq<(int, int)> {
    let arc = thin_arc(-r, 0, r);
    arc.map_values(|p: (int, int)| quad_map(0, c, p))
        .add(arc.map_values(|p: (int, int)| quad_map(1, c, p)))
        .add(arc.map_values(|p: (int, int)| quad_map(2, c, p)))
        .add(arc.map_values(|p: (int, int)| quad_map(3, c, p)))
}

/// While the arc walk is below the diagonal of its quadrant, a y step is only
/// taken strictly inside the radius.
proof fn lemma_thin_y_step_bound(x: int, y: int, r: int)
    requires
        -r <= x <= -1,
        0 <= y,
        thin_err(x, y, r) <= y,
    ensures
        y < r,
{
    assert(y < r) by (nonlinear_arith)
        requires
            -r <= x <= -1,
            0 <= y,
            (x + 1) * (x + 1) + (y + 1) * (y + 1) - r * r <= y;
}

/// The error term stays far inside the `i64` range for every offset the walk
/// can reach.
proof fn lemma_thin_err_range(x: int, y: int, r: int)
    requires
        -r <= x <= 1,
        0 <= y <= r + 1,
        0 <= r <= 0x7fff_ffff,
    ensures
        -0x5000_0000_0000_0000 <= thin_err(x, y, r) <= 0x5000_0000_0000_0000,
{
    assert(
        -(r * r) <= (x + 1) * (x + 1) + (y + 1) * (y + 1) - r * r
        && (x + 1) * (x + 1) + (y + 1) * (y + 1) - r * r <= r * r + 6 * r + 9
        && r * r <= 0x7fff_ffff * 0x7fff_ffff
    ) by (nonlinear_arith)
        requires
            -r <= x <= 1,
            0 <= y <= r + 1,
            0 <= r <= 0x7fff_ffff;
}

/// Step cursor for Bresenham's circle drawing algorithm.
///
/// Yields all points on the circumference of the circle of center `center`
/// and radius `radius`, one quadrant after the other.
pub struct BresenhamCircle {
    center: Point,
    original_radius: i32,
    x: i32,
    y: i32,
    err: i64,
    current_quadrant: i32,
}

impl BresenhamCircle {
    /// The arc offsets this cursor will still walk within its current quadrant.
    pub closed spec fn arc(self) -> Seq<(int, int)> {
        thin_arc(self.x as int, self.y as int, self.original_radius as int)
    }

    /// The points this cursor will still yield, in order.
    pub closed spec fn remaining(self) -> Seq<(int, int)> {
        let c = spec_pt(self.center);
        let full = thin_arc(-(self.original_radius as int), 0, self.original_radius as int);
        let q = self.current_quadrant as int;
        if q == 0 {
            self.arc().map_values(|p: (int, int)| quad_map(0, c, p))
                .add(full.map_values(|p: (int, int)| quad_map(1, c, p)))
                .add(full.map_values(|p: (int, int)| quad_map(2, c, p)))
                .add(full.map_values(|p: (int, int)| quad_map(3, c, p)))
        } else if q == 1 {
            self.arc().map_values(|p: (int, int)| quad_map(1, c, p))
                .add(full.map_values(|p: (int, int)| quad_map(2, c, p)))
                .add(full.map_values(|p: (int, int)| quad_map(3, c, p)))
        } else if q == 2 {
            self.arc().map_values(|p: (int, int)| quad_map(2, c, p))
                .add(full.map_values(|p: (int, int)| quad_map(3, c, p)))
        } else {
            self.arc().map_values(|p: (int, int)| quad_map(3, c, p))
        }
    }

    /// Internal consistency of the cursor state.
    pub closed spec fn wf(self) -> bool {
        let x = self.x as int;
        let y = self.y as int;
        let r = self.original_radius as int;
        let c = spec_pt(self.center);
        &&& 0 <= self.current_quadrant <= 3
        &&& 0 <= r
        &&& self.err as int == thin_err(x, y, r)
        &&& (x < 0 ==> -r <= x && 0 <= y <= r)
        &&& (x >= 0 ==> self.current_quadrant == 3 || r == 0)
        &&& (x >= 0 ==> self.arc() == Seq::<(int, int)>::empty())
        &&& c.0 + r <= i32::MAX
        &&& c.0 - r >= i32::MIN
        &&& c.1 + r <= i32::MAX
        &&& c.1 - r >= i32::MIN
    }

    /// Create a new cursor yielding all points on the circumference of the
    /// circle of center `center` and radius `radius`.
    pub fn new(center: Point, radius: i32) -> (r: Self)
        requires
            radius >= 0,
            center.0 + radius <= i32::MAX,
            center.0 - radius >= i32::MIN,
            center.1 + radius <= i32::MAX,
            center.1 - radius >= i32::MIN,
        ensures
            r.wf(),
            r.remaining() == circle_pts(spec_pt(center), radius as int),
    {
        let r = BresenhamCircle {
            center,
            original_radius: radius,
            x: -radius,
            y: 0,
            err: 2 - 2 * (radius as i64),
            current_quadrant: 0,
        };
        proof {
            let ri = radius as int;
            assert(thin_err(-ri, 0, ri) == 2 - 2 * ri) by (nonlinear_arith);
            if ri == 0 {
                assert(r.arc() =~= Seq::<(int, int)>::empty());
            }
            assert(r.remaining() =~= circle_pts(spec_pt(center), ri));
        }
        r
    }

    /// Yield the next circumference point, or `None` once all four quadrants
    /// are exhausted.
    #[verifier::rlimit(60)]
    pub fn next(&mut self) -> (res: Option<Point>)
        requires
            old(self).wf(),
        ensures
            final(self).wf(),
            match res {
                Some(p) => {
                    &&& old(self).remaining().len() > 0
                    &&& spec_pt(p) == old(self).remaining()[0]
                    &&& final(self).remaining() == old(self).remaining().drop_first()
                },
                None => {
                    &&& old(self).remaining().len() == 0
                    &&& final(self).remaining().len() == 0
                },
            },
    {
        if self.x >= 0 {
            proof {
                assert(old(self).remaining() =~= Seq::<(int, int)>::empty());
            }
            return None;
        }

        let point = match self.current_quadrant {
            0 => (self.center.0 - self.x, self.center.1 + self.y),
            1 => (self.center.0 - self.y, self.center.1 - self.x),
            2 => (self.center.0 + self.x, self.center.1 - self.y),
            _ => (self.center.0 + self.y, self.center.1 + self.x),
        };

        proof {
            assert(self.arc()[0] == (self.x as int, self.y as int));
            assert(spec_pt(point) == quad_map(
                self.current_quadrant as int,
                spec_pt(self.center),
                (self.x as int, self.y as int),
            ));
        }

        let ghost x0 = self.x as int;
        let ghost y0 = self.y as int;
        let ghost ri = self.original_radius as int;

        let rad: i64 = self.err;
        if rad <= self.y as i64 {
            proof {
                lemma_thin_y_step_bound(x0, y0, ri);
                assert((x0 + 1) * (x0 + 1) + (y0 + 2) * (y0 + 2) - ri * ri
                    == ((x0 + 1) * (x0 + 1) + (y0 + 1) * (y0 + 1) - ri * ri)
                        + 2 * (y0 + 1) + 1) by (nonlinear_arith);
                lemma_thin_err_range(x0, y0 + 1, ri);
            }
            self.y = self.y + 1;
            self.err = self.err + ((self.y as i64) * 2 + 1);
        }
        if rad > self.x as i64 || self.err > self.y as i64 {
            proof {
                let y2v = self.y as int;
                assert((x0 + 2) * (x0 + 2) + (y2v + 1) * (y2v + 1) - ri * ri
                    == ((x0 + 1) * (x0 + 1) + (y2v + 1) * (y2v + 1) - ri * ri)
                        + 2 * (x0 + 1) + 1) by (nonlinear_arith);
                lemma_thin_err_range(x0 + 1, y2v, ri);
            }
            self.x = self.x + 1;
            self.err = self.err + ((self.x as i64) * 2 + 1);
        }

        proof {
            // the stepped state is exactly the one the arc recursion names
            assert(old(self).arc() =~= seq![(x0, y0)].add(self.arc()));
        }

        if self.x >= 0 && self.current_quadrant < 3 {
            self.current_quadrant = self.current_quadrant + 1;
            self.x = -self.original_radius;
            self.y = 0;
            self.err = 2 - 2 * (self.original_radius as i64);
            proof {
                assert(thin_err(-ri, 0, ri) == 2 - 2 * ri) by (nonlinear_arith);
                assert(self.remaining() =~= old(self).remaining().drop_first());
            }
        } else {
            proof {
                assert(self.remaining() =~= old(self).remaining().drop_first());
            }
        }

        Some(point)
    }

    /// All points of the circle, materialized in emission order.
    pub fn points(self) -> (r: Vec<Point>)
        requires
            self.wf(),
        ensures
            r@.len() == self.remaining().len(),
            forall |j: int| 0 <= j < r@.len() ==> spec_pt(#[trigger] r@[j]) == self.remaining()[j],
    {
        let mut cur = self;
        let mut out: Vec<Point> = Vec::new();
        loop
            invariant
                cur.wf(),
                out@.len() + cur.remaining().len() == self.remaining().len(),
                forall |j: int| 0 <= j < out@.len() ==>
                    spec_pt(#[trigger] out@[j]) == self.remaining()[j],
                forall |j: int| 0 <= j < cur.remaining().len() ==>
                    #[trigger] cur.remaining()[j] == self.remaining()[out@.len() + j],
            ensures
                out@.len() == self.remaining().len(),
                forall |j: int| 0 <= j < out@.len() ==>
                    spec_pt(#[trigger] out@[j]) == self.remaining()[j],
            decreases cur.remaining().len(),
        {
            match cur.next() {
                Some(p) => {
                    out.push(p);
                }
                None => {
                    break;
                }
            }
        }
        out
    }
}

/// Reflect a thick-circle arc offset into octant `o` around center `c`.
pub open spec fn thick_oct(o: int, c: (int, int), p: (int, int)) -> (int, int) {
    if o == 0 { (c.0 + p.0, c.1 + p.1) }
    else if o == 1 { (c.0 + p.1, c.1 + p.0) }
    else if o == 2 { (c.0 - p.1, c.1 + p.0) }
    else if o == 3 { (c.0 - p.0, c.1 + p.1) }
    else if o == 4 { (c.0 - p.0, c.1 - p.1) }
    else if o == 5 { (c.0 - p.1, c.1 - p.0) }
    else if o == 6 { (c.0 + p.1, c.1 - p.0) }
    else { (c.0 + p.0, c.1 - p.1) }
}

/// The octant reflections of one arc offset that remain to be emitted, from
/// octant `o` on: every octant for a wide ring, the even ones for a narrow
/// ring (used at the start and the diagonal, where odd octants would repeat
/// points).
pub open spec fn thick_ring_rest(c: (int, int), p: (int, int), o: int, narrow: bool) -> Seq<(int, int)> {
    if narrow {
        Seq::new(((8 - o) / 2) as nat, |i: int| thick_oct(o + 2 * i, c, p))
    } else {
        Seq::new((8 - o) as nat, |i: int| thick_oct(o + i, c, p))
    }
}

/// One move of the thick-circle walk: a forced y step after each x step,
/// otherwise an x step when the error leads and a y step when it lags.
pub open spec fn thick_step(x: int, y: int, err: int, moved: bool) -> (int, int, int, bool) {
    if moved {
        (x, y + 1, err, false)
    } else if err > 0 {
        (x - 1, y, err + 2 * (5 - 2 * x + 2 * y), true)
    } else {
        (x, y + 1, err + 2 * (3 + 2 * y), false)
    }
}

/// All points the thick-circle walk emits from state `(x, y, err, moved)` on:
/// ring after ring, until the walk crosses the diagonal.
pub open spec fn thick_rings(c: (int, int), x: int, y: int, err: int, moved: bool, first: bool) -> Seq<(int, int)>
    decreases x - y,
{
    if x <= y {
        thick_ring_rest(c, (x, y), 0, true)
    } else {
        let s = thick_step(x, y, err, moved);
        thick_ring_rest(c, (x, y), 0, first).add(thick_rings(c, s.0, s.1, s.2, s.3, false))
    }
}

/// The initial error term of the thick-circle walk; radius one is set up so
/// that the walk emits a square rather than a diamond.
pub open spec fn thick_init_err(r: int) -> int {
    if r == 1 { -1 } else { 3 - 2 * r }
}

/// The exact point sequence of the thick circle of radius `r` around `c`.
pub open spec fn thick_circle_pts(c: (int, int), r: int) -> Seq<(int, int)> {
    thick_rings(c, r, 0, thick_init_err(r), false, true)
}

/// The closed form of the walk's error term, used to bound it.
pub open spec fn thick_val(x: int, y: int, moved: bool, r: int) -> int {
    let c0 = if r == 1 { -1 } else { 3 - 2 * r * r };
    if moved {
        2 * x * x - 2 * x + 2 * y * y + 8 * y + 6 + c0
    } else {
        2 * x * x - 2 * x + 2 * y * y + 4 * y + c0
    }
}

/// The error term stays far inside the `i64` range for every state the thick
/// walk can reach.
proof fn lemma_thick_val_range(x: int, y: int, moved: bool, r: int)
    requires
        0 <= x <= r,
        0 <= y <= r,
        r <= 0x0fff_ffff,
    ensures
        -0x1000_0000_0000_0000 <= thick_val(x, y, moved, r) <= 0x1000_0000_0000_0000,
{
    if r == 1 {
        assert(-0x1000_0000_0000_0000 <= thick_val(x, y, moved, r) <= 0x1000_0000_0000_0000)
            by (nonlinear_arith)
            requires 0 <= x <= r, 0 <= y <= r, r == 1;
    } else {
        assert(
            -0x1000_0000_0000_0000 <= 2 * x * x - 2 * x + 2 * y * y + 4 * y + (3 - 2 * r * r)
            && 2 * x * x - 2 * x + 2 * y * y + 4 * y + (3 - 2 * r * r) <= 0x1000_0000_0000_0000
            && -0x1000_0000_0000_0000 <= 2 * x * x - 2 * x + 2 * y * y + 8 * y + 6 + (3 - 2 * r * r)
            && 2 * x * x - 2 * x + 2 * y * y + 8 * y + 6 + (3 - 2 * r * r) <= 0x1000_0000_0000_0000
        ) by (nonlinear_arith)
            requires
                0 <= x <= r,
                0 <= y <= r,
                r <= 0x0fff_ffff;
    }
}

/// Every ring of the walk holds eight points but the first and the last,
/// which hold four, so the whole circle has exactly `8 * radius` points.
proof fn lemma_thick_rings_len(c: (int, int), x: int, y: int, err: int, moved: bool)
    ensures
        thick_rings(c, x, y, err, moved, false).len()
            == if x <= y { 4int } else { 8 * (x - y) + 4 },
    decreases x - y,
{
    if x <= y {
    } else {
        let s = thick_step(x, y, err, moved);
        lemma_thick_rings_len(c, s.0, s.1, s.2, s.3);
    }
}

/// Law: for every center and every radius of at least one, the thick circle
/// yields exactly `8 * radius` points.
pub proof fn lemma_thick_circle_count(c: (int, int), r: int)
    requires
        r >= 1,
    ensures
        thick_circle_pts(c, r).len() == 8 * r,
{
    let e = thick_init_err(r);
    assert(e <= 0);
    let s = thick_step(r, 0, e, false);
    assert(s == (r, 1int, e + 6, false));
    lemma_thick_rings_len(c, r, 1, e + 6, false);
}

/// Every point the walk emits from a state within the radius stays within
/// Chebyshev distance `b` of the center.
proof fn lemma_thick_rings_box(c: (int, int), x: int, y: int, err: int, moved: bool, first: bool, b: int)
    requires
        0 <= x <= b,
        0 <= y <= b,
        moved ==> y <= x && x <= b - 1,
    ensures
        forall |i: int| 0 <= i < thick_rings(c, x, y, err, moved, first).len() ==> {
            let p = #[trigger] thick_rings(c, x, y, err, moved, first)[i];
            &&& int_abs(p.0 - c.0) <= b
            &&& int_abs(p.1 - c.1) <= b
        },
    decreases x - y,
{
    if x <= y {
    } else {
        let s = thick_step(x, y, err, moved);
        lemma_thick_rings_box(c, s.0, s.1, s.2, s.3, false, b);
        let ring = thick_ring_rest(c, (x, y), 0, first);
        let tail = thick_rings(c, s.0, s.1, s.2, s.3, false);
        let whole = thick_rings(c, x, y, err, moved, first);
        assert forall |i: int| 0 <= i < whole.len() implies {
            let p = #[trigger] whole[i];
            &&& int_abs(p.0 - c.0) <= b
            &&& int_abs(p.1 - c.1) <= b
        } by {
            if i < ring.len() {
                assert(whole[i] == ring[i]);
            } else {
                assert(whole[i] == tail[i - ring.len()]);
            }
        }
    }
}

/// Law: every point of the thick circle lies within Chebyshev distance
/// `radius` of the center.
pub proof fn lemma_thick_circle_box(c: (int, int), r: int)
    requires
        r >= 0,
    ensures
        forall |i: int| 0 <= i < thick_circle_pts(c, r).len() ==> {
            let p = #[trigger] thick_circle_pts(c, r)[i];
            &&& int_abs(p.0 - c.0) <= r
            &&& int_abs(p.1 - c.1) <= r
        },
{
    lemma_thick_rings_box(c, r, 0, thick_init_err(r), false, true, r);
}

/// Law: at radius one the thick circle is exactly the eight cells of the
/// unit square around the center, in emission order: the four edge midpoints
/// first, then the four corners.
pub proof fn lemma_thick_circle_unit_square(c: (int, int))
    ensures
        thick_circle_pts(c, 1) == seq![
            (c.0 + 1, c.1), (c.0, c.1 + 1), (c.0 - 1, c.1), (c.0, c.1 - 1),
            (c.0 + 1, c.1 + 1), (c.0 - 1, c.1 + 1), (c.0 - 1, c.1 - 1), (c.0 + 1, c.1 - 1),
        ],
{
    let first = thick_ring_rest(c, (1, 0), 0, true);
    let last = thick_ring_rest(c, (1, 1), 0, true);
    assert(first =~= seq![(c.0 + 1, c.1), (c.0, c.1 + 1), (c.0 - 1, c.1), (c.0, c.1 - 1)]);
    assert(last =~= seq![
        (c.0 + 1, c.1 + 1), (c.0 - 1, c.1 + 1), (c.0 - 1, c.1 - 1), (c.0 + 1, c.1 - 1),
    ]);
    assert(thick_step(1, 0, -1, false) == (1int, 1int, 5int, false));
    assert(thick_rings(c, 1, 1, 5, false, false) == last);
    assert(thick_circle_pts(c, 1) =~= first.add(last));
}

/// Step cursor for Bresenham's circle drawing algorithm with a twist:
///
/// This will output each element of the circle, not ordered (because it
/// follows octants), making sure that each point of the circle moves step by
/// step, by x or y but not both at once.
///
/// This is needed for a field of view implementation that casts rays from the
/// center of the circle all around, making sure to not miss any point and
/// avoid blind spots.
pub struct ThickBresenhamCircle {
    center: Point,
    radius: i32,
    x: i32,
    y: i32,
    err: i64,
    moved: bool,
    octant: i8,
    current_step: u32,
}

impl ThickBresenhamCircle {
    /// The points this cursor will still yield, in order.
    pub closed spec fn remaining(self) -> Seq<(int, int)> {
        let c = spec_pt(self.center);
        let x = self.x as int;
        let y = self.y as int;
        let e = self.err as int;
        let m = self.moved;
        let tail = if x <= y {
            Seq::<(int, int)>::empty()
        } else {
            let s = thick_step(x, y, e, m);
            thick_rings(c, s.0, s.1, s.2, s.3, false)
        };
        if self.octant == -1 {
            tail
        } else {
            let narrow = self.current_step == 0 || x <= y;
            thick_ring_rest(c, (x, y), self.octant as int, narrow).add(tail)
        }
    }

    /// Internal consistency of the cursor state.
    pub closed spec fn wf(self) -> bool {
        let c = spec_pt(self.center);
        let x = self.x as int;
        let y = self.y as int;
        let r = self.radius as int;
        &&& 0 <= r <= 0x0fff_ffff
        &&& -1 <= self.octant <= 7
        &&& 0 <= x <= r
        &&& 0 <= y <= r
        &&& y - 1 <= x
        &&& (self.moved ==> y <= x && x <= r - 1)
        &&& self.err as int == thick_val(x, y, self.moved, r)
        &&& (self.octant >= 0 && (self.current_step == 0 || x <= y) ==> self.octant % 2 == 0)
        &&& self.current_step as int + x - y <= r
        &&& c.0 + r <= i32::MAX
        &&& c.0 - r >= i32::MIN
        &&& c.1 + r <= i32::MAX
        &&& c.1 - r >= i32::MIN
    }

    /// Create a new cursor yielding the thick circumference of the circle of
    /// center `center` and radius `radius`.
    pub fn new(center: Point, radius: i32) -> (r: Self)
        requires
            0 <= radius <= 0x0fff_ffff,
            center.0 + radius <= i32::MAX,
            center.0 - radius >= i32::MIN,
            center.1 + radius <= i32::MAX,
            center.1 - radius >= i32::MIN,
        ensures
            r.wf(),
            r.remaining() == thick_circle_pts(spec_pt(center), radius as int),
            r.total_len() == 8 * radius as int,
    {
        // Special case for a radius of one: the error is started so that the
        // output is the eight cells of the unit square around the center, not
        // a diamond that would leave diagonal gaps.
        let err: i64 = if radius == 1 { -1 } else { 3 - 2 * (radius as i64) };

        let r = Self {
            center,
            radius,
            x: radius,
            y: 0,
            err,
            moved: false,
            octant: 0,
            current_step: 0,
        };
        proof {
            let ri = radius as int;
            assert(thick_val(ri, 0, false, ri) == thick_init_err(ri)) by (nonlinear_arith);
            assert(r.remaining() =~= thick_circle_pts(spec_pt(center), ri));
        }
        r
    }

    /// How many points a fresh cursor of a positive radius yields in total.
    pub closed spec fn total_len(self) -> int {
        8 * self.radius as int
    }

    /// How many points the cursor yields in total for a positive radius.
    pub fn len(&self) -> (n: usize)
        requires
            self.wf(),
        ensures
            n as int == self.total_len(),
    {
        self.radius as usize * 8
    }

    /// Yield the next circumference point, or `None` once the walk has closed.
    #[verifier::rlimit(60)]
    pub fn next(&mut self) -> (res: Option<Point>)
        requires
            old(self).wf(),
        ensures
            final(self).wf(),
            match res {
                Some(p) => {
                    &&& old(self).remaining().len() > 0
                    &&& spec_pt(p) == old(self).remaining()[0]
                    &&& final(self).remaining() == old(self).remaining().drop_first()
                },
                None => {
                    &&& old(self).remaining().len() == 0
                    &&& final(self).remaining().len() == 0
                },
            },
    {
        if self.octant == -1 {
            if self.x <= self.y {
                return None;
            }

            self.octant = 0;

            let ghost x0 = self.x as int;
            let ghost y0 = self.y as int;
            let ghost ri = self.radius as int;

            if self.moved {
                self.y = self.y + 1;
                self.moved = false;
                proof {
                    assert(thick_val(x0, y0 + 1, false, ri) == thick_val(x0, y0, true, ri))
                        by (nonlinear_arith);
                }
            } else if self.err > 0 {
                proof {
                    assert(thick_val(x0 - 1, y0, true, ri)
                        == thick_val(x0, y0, false, ri) + 2 * (5 - 2 * x0 + 2 * y0))
                        by (nonlinear_arith);
                    lemma_thick_val_range(x0 - 1, y0, true, ri);
                }
                self.err = self.err + 2 * (5 - 2 * (self.x as i64) + 2 * (self.y as i64));
                self.x = self.x - 1;
                self.moved = true;
            } else {
                proof {
                    assert(thick_val(x0, y0 + 1, false, ri)
                        == thick_val(x0, y0, false, ri) + 2 * (3 + 2 * y0))
                        by (nonlinear_arith);
                    lemma_thick_val_range(x0, y0 + 1, false, ri);
                }
                self.err = self.err + 2 * (3 + 2 * (self.y as i64));
                self.y = self.y + 1;
            }

            self.current_step = self.current_step + 1;
        }

        let point = match self.octant {
            0 => (self.center.0 + self.x, self.center.1 + self.y),
            1 => (self.center.0 + self.y, self.center.1 + self.x),
            2 => (self.center.0 - self.y, self.center.1 + self.x),
            3 => (self.center.0 - self.x, self.center.1 + self.y),
            4 => (self.center.0 - self.x, self.center.1 - self.y),
            5 => (self.center.0 - self.y, self.center.1 - self.x),
            6 => (self.center.0 + self.y, self.center.1 - self.x),
            _ => (self.center.0 + self.x, self.center.1 - self.y),
        };

        proof {
            assert(spec_pt(point) == thick_oct(
                self.octant as int,
                spec_pt(self.center),
                (self.x as int, self.y as int),
            ));
            assert(old(self).remaining().len() > 0 && spec_pt(point) == old(self).remaining()[0]);
        }

        let step: i8 = if self.current_step == 0 || self.x <= self.y { 2 } else { 1 };
        if self.octant + step < 8 {
            self.octant = self.octant + step;
        } else {
            self.octant = -1;
        }

        proof {
            assert(self.remaining() =~= old(self).remaining().drop_first());
        }

        Some(point)
    }

    /// All points of the thick circle, materialized in emission order.
    pub fn points(self) -> (r: Vec<Point>)
        requires
            self.wf(),
        ensures
            r@.len() == self.remaining().len(),
            forall |j: int| 0 <= j < r@.len() ==> spec_pt(#[trigger] r@[j]) == self.remaining()[j],
    {
        let mut cur = self;
        let mut out: Vec<Point> = Vec::new();
        loop
            invariant
                cur.wf(),
                out@.len() + cur.remaining().len() == self.remaining().len(),
                forall |j: int| 0 <= j < out@.len() ==>
                    spec_pt(#[trigger] out@[j]) == self.remaining()[j],
                forall |j: int| 0 <= j < cur.remaining().len() ==>
                    #[trigger] cur.remaining()[j] == self.remaining()[out@.len() + j],
            ensures
                out@.len() == self.remaining().len(),
                forall |j: int| 0 <= j < out@.len() ==>
                    spec_pt(#[trigger] out@[j]) == self.remaining()[j],
            decreases cur.remaining().len(),
        {
            match cur.next() {
                Some(p) => {
                    out.push(p);
                }
                None => {
                    break;
                }
            }
        }
        out
    }
}

} // verus!
