//! Field of view computation by raycasting.
//!
//! `field_of_view` casts one ray from the origin to every boundary point of
//! the thick circle of the requested radius, walking each ray with the line
//! rasterizer and marking every traversed cell until the ray leaves the
//! clipped bounding box or hits an opaque cell (which is itself marked: one
//! sees the wall one is blocked by).

use vstd::prelude::*;

use crate::bresenham::{
    int_abs, lemma_line_endpoints, lemma_line_pts_box, lemma_thick_circle_box, line_args_ok,
    line_pts, thick_circle_pts, BresenhamLine, ThickBresenhamCircle,
};
use crate::{spec_pt, Point};

verus! {

/// Implement the `VisionMap` trait to use the field of view function.
pub trait VisionMap {
    /// The map's dimensions, as the mathematical value the contracts speak of.
    /// An implementation outside this crate leaves the default, which names
    /// no particular value; the executable methods' contracts then state
    /// what this crate assumes of the implementation.
    open spec fn spec_dimensions(&self) -> (int, int) {
        arbitrary()
    }

    /// Whether the tile at `p` can be seen through, as a predicate over the
    /// map's value.
    open spec fn spec_transparent(&self, p: (int, int)) -> bool {
        arbitrary()
    }

    /// Dimension of your map, in grid size. The area must fit in an `i32`.
    fn dimensions(&self) -> (d: (i32, i32))
        ensures
            (d.0 as int, d.1 as int) == self.spec_dimensions(),
            0 <= d.0,
            0 <= d.1,
            d.0 as int * d.1 as int <= 0x7fff_ffff,
    ;

    /// Whether it is possible or not to see through the tile at position
    /// `(x, y)`. Only called for in-bounds positions.
    fn is_transparent(&self, position: Point) -> (b: bool)
        requires
            ({
                let wh = self.spec_dimensions();
                0 <= (position.0 as int) && (position.0 as int) < wh.0
                    && 0 <= (position.1 as int) && (position.1 as int) < wh.1
            }),
        ensures
            b == self.spec_transparent(spec_pt(position)),
    ;
}

/// The bounding box of the circle of radius `radius` around `from`, clipped
/// to the map bounds: `(minx, miny, maxx, maxy)`.
pub open spec fn fov_box(from: (int, int), radius: int, w: int, h: int) -> (int, int, int, int) {
    (
        if from.0 - radius > 0 { from.0 - radius } else { 0 },
        if from.1 - radius > 0 { from.1 - radius } else { 0 },
        if from.0 + radius < w - 1 { from.0 + radius } else { w - 1 },
        if from.1 + radius < h - 1 { from.1 + radius } else { h - 1 },
    )
}

/// Whether `q` lies inside the box `bx = (minx, miny, maxx, maxy)`.
pub open spec fn in_box(bx: (int, int, int, int), q: (int, int)) -> bool {
    bx.0 <= q.0 <= bx.2 && bx.1 <= q.1 <= bx.3
}

/// A ray reaches its `j`-th point when every point after the origin up to and
/// including the `j`-th stays in the box and everything strictly before the
/// `j`-th is transparent.
pub open spec fn ray_hits<T: VisionMap>(
    map: &T,
    bx: (int, int, int, int),
    ray: Seq<(int, int)>,
    j: int,
) -> bool {
    &&& 1 <= j < ray.len()
    &&& forall |m: int| 1 <= m <= j ==> in_box(bx, #[trigger] ray[m])
    &&& forall |m: int| 1 <= m < j ==> map.spec_transparent(#[trigger] ray[m])
}

/// The ray from `from` towards the boundary point `b` marks the cell `q`.
pub open spec fn ray_marks<T: VisionMap>(
    map: &T,
    bx: (int, int, int, int),
    from: (int, int),
    b: (int, int),
    q: (int, int),
) -> bool {
    exists |j: int| #[trigger] ray_hits(map, bx, line_pts(from, b), j) && line_pts(from, b)[j] == q
}

/// Some of the first `n` rays of the circle of radius `radius` marks `q`.
pub open spec fn marked_rays<T: VisionMap>(
    map: &T,
    bx: (int, int, int, int),
    from: (int, int),
    radius: int,
    n: int,
    q: (int, int),
) -> bool {
    exists |b: int| 0 <= b < n
        && #[trigger] ray_marks(map, bx, from, thick_circle_pts(from, radius)[b], q)
}

/// The visibility predicate `field_of_view` computes for a positive radius
/// and a non-collapsed box: a cell is visible when it is the origin or some
/// ray of the boundary circle reaches it.
pub open spec fn fov_visible<T: VisionMap>(
    map: &T,
    from: (int, int),
    radius: int,
    q: (int, int),
) -> bool {
    let wh = map.spec_dimensions();
    let bx = fov_box(from, radius, wh.0, wh.1);
    q == from || marked_rays(map, bx, from, radius, thick_circle_pts(from, radius).len() as int, q)
}

/// Width of a box.
spec fn box_w(bx: (int, int, int, int)) -> int {
    bx.2 - bx.0 + 1
}

/// Height of a box.
spec fn box_h(bx: (int, int, int, int)) -> int {
    bx.3 - bx.1 + 1
}

/// Row-major index of a box cell in the visibility bitmap.
spec fn box_idx(bx: (int, int, int, int), q: (int, int)) -> int {
    (q.0 - bx.0) + (q.1 - bx.1) * box_w(bx)
}

/// Whether the bitmap `v` has the cell `q` of box `bx` marked.
spec fn bit(v: Seq<bool>, bx: (int, int, int, int), q: (int, int)) -> bool {
    v[box_idx(bx, q)] == true
}

/// The box of cast_ray's arguments: offset and sub-rectangle dimensions.
spec fn off_box(offset: (int, int), w: int, h: int) -> (int, int, int, int) {
    (offset.0, offset.1, offset.0 + w - 1, offset.1 + h - 1)
}

/// The row-major index of an in-box cell addresses the bitmap.
proof fn lemma_box_idx(bx: (int, int, int, int), q: (int, int))
    requires
        bx.0 <= bx.2,
        bx.1 <= bx.3,
        in_box(bx, q),
    ensures
        0 <= box_idx(bx, q) < box_w(bx) * box_h(bx),
        0 <= (q.1 - bx.1) * box_w(bx) <= box_idx(bx, q),
{
    let w = box_w(bx);
    let h = box_h(bx);
    let col = q.0 - bx.0;
    let row = q.1 - bx.1;
    assert(0 <= row * w && row * w <= (h - 1) * w && col + row * w < w * h) by (nonlinear_arith)
        requires 0 <= col < w, 0 <= row < h;
}

/// Distinct in-box cells have distinct row-major indices.
proof fn lemma_box_idx_inj(bx: (int, int, int, int), q1: (int, int), q2: (int, int))
    requires
        bx.0 <= bx.2,
        bx.1 <= bx.3,
        in_box(bx, q1),
        in_box(bx, q2),
        q1 != q2,
    ensures
        box_idx(bx, q1) != box_idx(bx, q2),
{
    let w = box_w(bx);
    if q1.1 == q2.1 {
    } else {
        let c1 = q1.0 - bx.0;
        let c2 = q2.0 - bx.0;
        let r1 = q1.1 - bx.1;
        let r2 = q2.1 - bx.1;
        assert(c1 + r1 * w != c2 + r2 * w) by (nonlinear_arith)
            requires 0 <= c1 < w, 0 <= c2 < w, r1 != r2;
    }
}

/// Multiplication keeps componentwise bounds.
proof fn lemma_mul_le(a1: int, b1: int, a2: int, b2: int)
    requires
        0 <= a1 <= a2,
        0 <= b1 <= b2,
    ensures
        a1 * b1 <= a2 * b2,
{
    assert(a1 * b1 <= a2 * b2) by (nonlinear_arith)
        requires 0 <= a1 <= a2, 0 <= b1 <= b2;
}

/// A vector of `n` unset bits.
fn false_vec(n: usize) -> (v: Vec<bool>)
    ensures
        v@.len() == n,
        forall |i: int| 0 <= i < n ==> v@[i] == false,
{
    let mut v: Vec<bool> = Vec::new();
    let mut i: usize = 0;
    while i < n
        invariant
            i <= n,
            v@.len() == i,
            forall |k: int| 0 <= k < i ==> v@[k] == false,
        decreases n - i,
    {
        v.push(false);
        i = i + 1;
    }
    v
}

/// Walk the ray from `origin` towards `destination`, skipping the origin
/// itself, and mark every traversed cell of the bitmap until the ray leaves
/// the sub-rectangle or reaches an opaque cell; that blocking cell is marked
/// too, and nothing beyond it.
#[verifier::loop_isolation(false)]
fn cast_ray<T: VisionMap>(
    map: &T,
    visibles: &mut Vec<bool>,
    width: i32,
    height: i32,
    origin: Point,
    destination: Point,
    offset: (i32, i32),
)
    requires
        ({
            let wh = map.spec_dimensions();
            &&& 0 <= offset.0 as int
            &&& 0 <= offset.1 as int
            &&& 1 <= width as int
            &&& 1 <= height as int
            &&& offset.0 as int + width as int - 1 < wh.0
            &&& offset.1 as int + height as int - 1 < wh.1
            &&& wh.0 * wh.1 <= 0x7fff_ffff
        }),
        old(visibles)@.len() == width as int * height as int,
        line_args_ok(spec_pt(origin), spec_pt(destination)),
        in_box(off_box(spec_pt(offset), width as int, height as int), spec_pt(origin)),
        -0x0fff_ffff <= destination.0 as int - origin.0 as int <= 0x0fff_ffff,
        -0x0fff_ffff <= destination.1 as int - origin.1 as int <= 0x0fff_ffff,
    ensures
        final(visibles)@.len() == old(visibles)@.len(),
        forall |q: (int, int)|
            in_box(off_box(spec_pt(offset), width as int, height as int), q) ==> (
                bit(final(visibles)@, off_box(spec_pt(offset), width as int, height as int), q)
                <==> bit(old(visibles)@, off_box(spec_pt(offset), width as int, height as int), q)
                    || ray_marks(
                        map,
                        off_box(spec_pt(offset), width as int, height as int),
                        spec_pt(origin),
                        spec_pt(destination),
                        q,
                    )
            ),
{
    let ghost bx = off_box(spec_pt(offset), width as int, height as int);
    let ghost ray = line_pts(spec_pt(origin), spec_pt(destination));
    proof {
        lemma_line_endpoints(spec_pt(origin), spec_pt(destination));
        lemma_line_pts_box(spec_pt(origin), spec_pt(destination));
    }

    // We skip the first item as it is the origin position.
    let mut line = BresenhamLine::new(origin, destination);
    let _origin_item = line.next();
    let ghost mut j: int = 1;

    let mut done = false;
    while !done
        invariant
            line.wf(),
            1 <= j <= ray.len(),
            line.remaining().len() == ray.len() - j,
            forall |k: int| 0 <= k < ray.len() - j ==> #[trigger] line.remaining()[k] == ray[j + k],
            forall |m: int| 1 <= m < j ==> in_box(bx, #[trigger] ray[m]),
            forall |m: int| 1 <= m < j ==> map.spec_transparent(#[trigger] ray[m]),
            visibles@.len() == width as int * height as int,
            forall |q: (int, int)| in_box(bx, q) ==> (
                bit(visibles@, bx, q) <==> bit(old(visibles)@, bx, q)
                    || exists |m: int| 1 <= m < j && #[trigger] ray[m] == q
            ),
            done ==> j == ray.len(),
        decreases line.remaining().len() + if done { 0int } else { 1int },
    {
        match line.next() {
            None => {
                proof {
                    assert(j == ray.len());
                }
                done = true;
            }
            Some(p) => {
                proof {
                    assert(spec_pt(p) == ray[j]);
                }
                let off_x = p.0 - offset.0;
                let off_y = p.1 - offset.1;
                if off_x < 0 || off_y < 0 || off_x >= width || off_y >= height {
                    // No need to continue the ray, we are out of the box.
                    proof {
                        assert(!in_box(bx, ray[j]));
                        assert forall |q: (int, int)| in_box(bx, q) implies (
                            bit(visibles@, bx, q) <==> bit(old(visibles)@, bx, q)
                                || ray_marks(map, bx, spec_pt(origin), spec_pt(destination), q)
                        ) by {
                            if bit(visibles@, bx, q) && !bit(old(visibles)@, bx, q) {
                                let m = choose |m: int| 1 <= m < j && #[trigger] ray[m] == q;
                                assert(ray_hits(map, bx, line_pts(spec_pt(origin), spec_pt(destination)), m));
                            }
                            if ray_marks(map, bx, spec_pt(origin), spec_pt(destination), q) {
                                let jw = choose |jw: int|
                                    #[trigger] ray_hits(map, bx, line_pts(spec_pt(origin), spec_pt(destination)), jw)
                                    && line_pts(spec_pt(origin), spec_pt(destination))[jw] == q;
                                assert(jw < j);
                                assert(1 <= jw < j && ray[jw] == q);
                            }
                        }
                    }
                    return;
                }

                proof {
                    lemma_box_idx(bx, ray[j]);
                    lemma_mul_le(width as int, height as int, map.spec_dimensions().0, map.spec_dimensions().1);
                    assert(off_x as int + off_y as int * width as int == box_idx(bx, ray[j]));
                }
                let idx = (off_x + off_y * width) as usize;
                let ghost v_pre = visibles@;
                visibles[idx] = true;
                proof {
                    assert(visibles@ == v_pre.update(box_idx(bx, ray[j]), true));
                    assert(bit(visibles@, bx, ray[j]));
                    assert forall |q: (int, int)| in_box(bx, q) implies (
                        bit(visibles@, bx, q) <==> bit(old(visibles)@, bx, q)
                            || exists |m: int| 1 <= m < j + 1 && #[trigger] ray[m] == q
                    ) by {
                        if q == ray[j] {
                            assert(1 <= j < j + 1 && ray[j] == q);
                        } else {
                            lemma_box_idx(bx, q);
                            lemma_box_idx_inj(bx, q, ray[j]);
                            assert(bit(visibles@, bx, q) == bit(v_pre, bx, q));
                            assert((exists |m: int| 1 <= m < j && #[trigger] ray[m] == q)
                                <==> (exists |m: int| 1 <= m < j + 1 && #[trigger] ray[m] == q)) by {
                                if exists |m: int| 1 <= m < j + 1 && #[trigger] ray[m] == q {
                                    let m = choose |m: int| 1 <= m < j + 1 && #[trigger] ray[m] == q;
                                    assert(m != j);
                                    assert(1 <= m < j && ray[m] == q);
                                }
                            }
                        }
                    }
                }

                if !map.is_transparent(p) {
                    proof {
                        assert forall |q: (int, int)| in_box(bx, q) implies (
                            bit(visibles@, bx, q) <==> bit(old(visibles)@, bx, q)
                                || ray_marks(map, bx, spec_pt(origin), spec_pt(destination), q)
                        ) by {
                            if bit(visibles@, bx, q) && !bit(old(visibles)@, bx, q) {
                                let m = choose |m: int| 1 <= m < j + 1 && #[trigger] ray[m] == q;
                                assert(ray_hits(map, bx, line_pts(spec_pt(origin), spec_pt(destination)), m));
                            }
                            if ray_marks(map, bx, spec_pt(origin), spec_pt(destination), q) {
                                let jw = choose |jw: int|
                                    #[trigger] ray_hits(map, bx, line_pts(spec_pt(origin), spec_pt(destination)), jw)
                                    && line_pts(spec_pt(origin), spec_pt(destination))[jw] == q;
                                assert(jw <= j);
                                assert(1 <= jw < j + 1 && ray[jw] == q);
                            }
                        }
                    }
                    return;
                }

                proof {
                    j = j + 1;
                }
            }
        }
    }

    proof {
        assert forall |q: (int, int)| in_box(bx, q) implies (
            bit(visibles@, bx, q) <==> bit(old(visibles)@, bx, q)
                || ray_marks(map, bx, spec_pt(origin), spec_pt(destination), q)
        ) by {
            if bit(visibles@, bx, q) && !bit(old(visibles)@, bx, q) {
                let m = choose |m: int| 1 <= m < j && #[trigger] ray[m] == q;
                assert(ray_hits(map, bx, line_pts(spec_pt(origin), spec_pt(destination)), m));
            }
            if ray_marks(map, bx, spec_pt(origin), spec_pt(destination), q) {
                let jw = choose |jw: int|
                    #[trigger] ray_hits(map, bx, line_pts(spec_pt(origin), spec_pt(destination)), jw)
                    && line_pts(spec_pt(origin), spec_pt(destination))[jw] == q;
                assert(1 <= jw < j && ray[jw] == q);
            }
        }
    }
}

/// An implementation of the field of view algorithm using basic raycasting.
/// Returns a vector containing all points visible from the starting position,
/// including the starting position itself, with no duplicates.
///
/// # Arguments
///
/// * `map` - A struct implementing the `VisionMap` trait.
/// * `from` - The origin/center of the field of vision.
/// * `radius` - How far the vision should go; must be at least 0 (at 0, you
///   only see yourself).
///
/// The remaining preconditions are arithmetic headroom: the radius and the
/// coordinates it is added to stay well inside the `i32` range.
#[verifier::loop_isolation(false)]
#[verifier::rlimit(100)]
pub fn field_of_view<T: VisionMap>(map: &T, from: Point, radius: i32) -> (r: Vec<Point>)
    requires
        ({
            let wh = map.spec_dimensions();
            0 <= (from.0 as int) && (from.0 as int) < wh.0
                && 0 <= (from.1 as int) && (from.1 as int) < wh.1
        }),
        0 <= radius <= 0x0fff_ffff,
        from.0 as int + radius as int <= 0x7fff_fffe,
        from.1 as int + radius as int <= 0x7fff_fffe,
    ensures
        radius == 0 ==> r@ =~= seq![from],
        ({
            let wh = map.spec_dimensions();
            let bx = fov_box(spec_pt(from), radius as int, wh.0, wh.1);
            &&& (radius >= 1 && (bx.2 - bx.0 == 0 || bx.3 - bx.1 == 0) ==> r@.len() == 0)
            &&& (radius >= 1 && bx.2 - bx.0 != 0 && bx.3 - bx.1 != 0 ==>
                forall |q: (int, int)|
                    #[trigger] fov_visible(map, spec_pt(from), radius as int, q)
                    <==> exists |i: int| 0 <= i < r@.len() && spec_pt(r@[i]) == q)
        }),
        forall |i: int| 0 <= i < r@.len() ==> ({
            let wh = map.spec_dimensions();
            let p = spec_pt(#[trigger] r@[i]);
            &&& 0 <= p.0 < wh.0
            &&& 0 <= p.1 < wh.1
            &&& int_abs(p.0 - from.0 as int) <= radius as int
            &&& int_abs(p.1 - from.1 as int) <= radius as int
        }),
        forall |i1: int, i2: int| 0 <= i1 < i2 < r@.len()
            ==> spec_pt(#[trigger] r@[i1]) != spec_pt(#[trigger] r@[i2]),
{
    let (x, y) = (from.0, from.1);

    if radius < 1 {
        let mut single: Vec<Point> = Vec::new();
        single.push(from);
        return single;
    }

    let (width, height) = map.dimensions();

    let minx = if x - radius > 0 { x - radius } else { 0 };
    let miny = if y - radius > 0 { y - radius } else { 0 };
    let maxx = if x + radius < width - 1 { x + radius } else { width - 1 };
    let maxy = if y + radius < height - 1 { y + radius } else { height - 1 };

    let ghost wh = map.spec_dimensions();
    let ghost bx = fov_box(spec_pt(from), radius as int, wh.0, wh.1);
    let ghost fromi = spec_pt(from);
    let ghost circ = thick_circle_pts(fromi, radius as int);

    if maxx - minx == 0 || maxy - miny == 0 {
        // Well, no area to check.
        return Vec::new();
    }

    let sub_width = maxx - minx + 1;
    let sub_height = maxy - miny + 1;
    let (offset_x, offset_y) = (minx, miny);

    proof {
        assert(bx == off_box((minx as int, miny as int), sub_width as int, sub_height as int));
        lemma_mul_le(sub_width as int, sub_height as int, wh.0, wh.1);
    }

    let mut visibles: Vec<bool> = false_vec((sub_width * sub_height) as usize);

    // Set origin as visible.
    proof {
        lemma_box_idx(bx, fromi);
    }
    let origin_index = ((x - offset_x) + (y - offset_y) * sub_width) as usize;
    visibles[origin_index] = true;

    proof {
        lemma_thick_circle_box(fromi, radius as int);
        assert forall |q: (int, int)| in_box(bx, q) implies (
            bit(visibles@, bx, q) <==> q == fromi || marked_rays(map, bx, fromi, radius as int, 0, q)
        ) by {
            if q != fromi {
                lemma_box_idx(bx, q);
                lemma_box_idx_inj(bx, q, fromi);
            }
        }
    }

    let mut circle = ThickBresenhamCircle::new(from, radius);
    let ghost mut bi: int = 0;

    let mut circle_done = false;
    while !circle_done
        invariant
            circle.wf(),
            0 <= bi <= circ.len(),
            circle.remaining().len() == circ.len() - bi,
            forall |k: int| 0 <= k < circ.len() - bi ==> #[trigger] circle.remaining()[k] == circ[bi + k],
            visibles@.len() == sub_width as int * sub_height as int,
            forall |q: (int, int)| in_box(bx, q) ==> (
                bit(visibles@, bx, q) <==> q == fromi
                    || marked_rays(map, bx, fromi, radius as int, bi, q)
            ),
            circle_done ==> bi == circ.len(),
        decreases circle.remaining().len() + if circle_done { 0int } else { 1int },
    {
        match circle.next() {
            None => {
                circle_done = true;
            }
            Some(point) => {
                proof {
                    assert(spec_pt(point) == circ[bi]);
                    assert(int_abs(circ[bi].0 - fromi.0) <= radius as int
                        && int_abs(circ[bi].1 - fromi.1) <= radius as int);
                }
                let ghost v_before = visibles@;
                cast_ray(
                    map,
                    &mut visibles,
                    sub_width,
                    sub_height,
                    from,
                    point,
                    (offset_x, offset_y),
                );
                proof {
                    bi = bi + 1;
                    assert(off_box(spec_pt((offset_x, offset_y)), sub_width as int, sub_height as int) == bx);
                    assert forall |q: (int, int)| in_box(bx, q) implies (
                        bit(visibles@, bx, q) <==> q == fromi
                            || marked_rays(map, bx, fromi, radius as int, bi, q)
                    ) by {
                        assert(in_box(off_box(spec_pt((offset_x, offset_y)), sub_width as int, sub_height as int), q));
                        assert(bit(visibles@, off_box(spec_pt((offset_x, offset_y)), sub_width as int, sub_height as int), q)
                            == bit(visibles@, bx, q));
                        assert(ray_marks(map, off_box(spec_pt((offset_x, offset_y)), sub_width as int, sub_height as int), spec_pt(from), spec_pt(point), q)
                            == ray_marks(map, bx, fromi, circ[bi - 1], q));
                        if bit(visibles@, bx, q) {
                            if !bit(v_before, bx, q) {
                                assert(ray_marks(map, bx, fromi, circ[bi - 1], q));
                                assert(0 <= bi - 1 < bi
                                    && ray_marks(map, bx, fromi, thick_circle_pts(fromi, radius as int)[bi - 1], q));
                            } else {
                                if q != fromi {
                                    let b0 = choose |b0: int| 0 <= b0 < bi - 1
                                        && #[trigger] ray_marks(map, bx, fromi, thick_circle_pts(fromi, radius as int)[b0], q);
                                    assert(0 <= b0 < bi
                                        && ray_marks(map, bx, fromi, thick_circle_pts(fromi, radius as int)[b0], q));
                                }
                            }
                        } else {
                            if q != fromi && marked_rays(map, bx, fromi, radius as int, bi, q) {
                                let b0 = choose |b0: int| 0 <= b0 < bi
                                    && #[trigger] ray_marks(map, bx, fromi, thick_circle_pts(fromi, radius as int)[b0], q);
                                if b0 < bi - 1 {
                                    assert(marked_rays(map, bx, fromi, radius as int, bi - 1, q));
                                } else {
                                    assert(ray_marks(map, bx, fromi, circ[bi - 1], q));
                                }
                                assert(false);
                            }
                        }
                    }
                }
            }
        }
    }

    // Translate the marked cells of the sub-rectangle back to absolute map
    // coordinates, row by row.
    let mut out: Vec<Point> = Vec::new();
    let mut yy = miny;
    while yy <= maxy
        invariant
            miny <= yy <= maxy + 1,
            forall |i1: int, i2: int| 0 <= i1 < i2 < out@.len()
                ==> spec_pt(#[trigger] out@[i1]) != spec_pt(#[trigger] out@[i2]),
            forall |i: int| 0 <= i < out@.len()
                ==> in_box(bx, spec_pt(#[trigger] out@[i]))
                    && bit(visibles@, bx, spec_pt(out@[i])),
            forall |q: (int, int)|
                (exists |i: int| 0 <= i < out@.len() && spec_pt(#[trigger] out@[i]) == q)
                <==> (in_box(bx, q) && q.1 < yy && bit(visibles@, bx, q)),
        decreases maxy + 1 - yy,
    {
        let mut xx = minx;
        while xx <= maxx
            invariant
                miny <= yy <= maxy,
                minx <= xx <= maxx + 1,
                forall |i1: int, i2: int| 0 <= i1 < i2 < out@.len()
                    ==> spec_pt(#[trigger] out@[i1]) != spec_pt(#[trigger] out@[i2]),
                forall |i: int| 0 <= i < out@.len()
                    ==> in_box(bx, spec_pt(#[trigger] out@[i]))
                        && bit(visibles@, bx, spec_pt(out@[i])),
                forall |q: (int, int)|
                    (exists |i: int| 0 <= i < out@.len() && spec_pt(#[trigger] out@[i]) == q)
                    <==> (in_box(bx, q)
                        && (q.1 < yy || (q.1 == yy && q.0 < xx))
                        && bit(visibles@, bx, q)),
            decreases maxx + 1 - xx,
        {
            proof {
                lemma_box_idx(bx, (xx as int, yy as int));
            }
            let idx = ((xx - minx) + (yy - miny) * sub_width) as usize;
            let ghost qnew = (xx as int, yy as int);
            proof {
                assert((xx as int - minx as int) + (yy as int - miny as int) * (sub_width as int)
                    == box_idx(bx, qnew));
                assert(idx as int == box_idx(bx, qnew));
            }
            if visibles[idx] {
                proof {
                    assert(bit(visibles@, bx, qnew));
                    assert(!(exists |i: int| 0 <= i < out@.len() && spec_pt(#[trigger] out@[i]) == qnew));
                }
                let ghost out_pre = out@;
                out.push((xx, yy));
                proof {
                    assert forall |q: (int, int)|
                        (exists |i: int| 0 <= i < out@.len() && spec_pt(#[trigger] out@[i]) == q)
                        <==> (in_box(bx, q)
                            && (q.1 < yy as int || (q.1 == yy as int && q.0 < xx as int + 1))
                            && bit(visibles@, bx, q))
                    by {
                        if q == qnew {
                            assert(spec_pt(out@[out@.len() - 1]) == q);
                        } else {
                            if exists |i: int| 0 <= i < out@.len() && spec_pt(#[trigger] out@[i]) == q {
                                let i = choose |i: int| 0 <= i < out@.len() && spec_pt(#[trigger] out@[i]) == q;
                                assert(i < out@.len() - 1);
                                assert(spec_pt(out_pre[i]) == q);
                            }
                            if exists |i: int| 0 <= i < out_pre.len() && spec_pt(#[trigger] out_pre[i]) == q {
                                let i2 = choose |i2: int| 0 <= i2 < out_pre.len() && spec_pt(#[trigger] out_pre[i2]) == q;
                                assert(spec_pt(out@[i2]) == q);
                            }
                        }
                    }
                }
            } else {
                proof {
                    assert forall |q: (int, int)|
                        (exists |i: int| 0 <= i < out@.len() && spec_pt(#[trigger] out@[i]) == q)
                        <==> (in_box(bx, q)
                            && (q.1 < yy as int || (q.1 == yy as int && q.0 < xx as int + 1))
                            && bit(visibles@, bx, q))
                    by {
                        if q == qnew {
                            assert(!bit(visibles@, bx, q));
                        }
                    }
                }
            }
            xx = xx + 1;
        }
        yy = yy + 1;
    }

    proof {
        assert forall |q: (int, int)|
            #[trigger] fov_visible(map, fromi, radius as int, q)
            <==> exists |i: int| 0 <= i < out@.len() && spec_pt(out@[i]) == q
        by {
            if fov_visible(map, fromi, radius as int, q) {
                if q != fromi {
                    assert(marked_rays(map, bx, fromi, radius as int, circ.len() as int, q));
                    let b0 = choose |b0: int| 0 <= b0 < circ.len() as int
                        && #[trigger] ray_marks(map, bx, fromi, thick_circle_pts(fromi, radius as int)[b0], q);
                    let jw = choose |jw: int|
                        #[trigger] ray_hits(map, bx, line_pts(fromi, thick_circle_pts(fromi, radius as int)[b0]), jw)
                        && line_pts(fromi, thick_circle_pts(fromi, radius as int)[b0])[jw] == q;
                    assert(in_box(bx, line_pts(fromi, thick_circle_pts(fromi, radius as int)[b0])[jw]));
                    assert(in_box(bx, q));
                    assert(marked_rays(map, bx, fromi, radius as int, bi, q));
                } else {
                    assert(in_box(bx, fromi));
                }
                assert(bit(visibles@, bx, q));
            } else {
                if exists |i: int| 0 <= i < out@.len() && spec_pt(#[trigger] out@[i]) == q {
                    let iw = choose |iw: int| 0 <= iw < out@.len() && spec_pt(#[trigger] out@[iw]) == q;
                    assert(in_box(bx, spec_pt(out@[iw])) && bit(visibles@, bx, spec_pt(out@[iw])));
                    assert(in_box(bx, q) && bit(visibles@, bx, q));
                    if q != fromi {
                        assert(marked_rays(map, bx, fromi, radius as int, bi, q));
                        assert(marked_rays(map, bx, fromi, radius as int, circ.len() as int, q));
                        assert(fov_visible(map, fromi, radius as int, q));
                    }
                    assert(false);
                }
            }
        }
        assert forall |i: int| 0 <= i < out@.len() implies ({
            let p = spec_pt(#[trigger] out@[i]);
            &&& 0 <= p.0 < wh.0
            &&& 0 <= p.1 < wh.1
            &&& int_abs(p.0 - from.0 as int) <= radius as int
            &&& int_abs(p.1 - from.1 as int) <= radius as int
        }) by {
            let p = spec_pt(out@[i]);
            assert(exists |k: int| 0 <= k < out@.len() && spec_pt(#[trigger] out@[k]) == p);
            assert(in_box(bx, p));
        }
    }

    out
}

} // verus!
