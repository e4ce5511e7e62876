//! Geometry utilities: segment lengths, hover predicates for hit-testing,
//! midpoints, centroids, the parallelism test, and regeneration of a
//! polygon's edge list from its vertex ring.

use vstd::prelude::*;
use vstd::math::{abs, max, min};
use crate::arith::{
    div_trunc, isqrt, lemma_sqrt_floor_is_root, lemma_sqrt_floor_le, lemma_sqrt_floor_sq,
    lemma_tdiv_le, sq, sqrt_floor, tdiv, COORD_LIMIT, LEN_LIMIT,
};
use crate::data_models::{coord_ok, cords_ok, point_ok, Line, Point, PointCords};

verus! {

/// Hover margin around an edge, in coordinate units.
pub const LINE_MARGIN: i64 = 15;

/// Hover margin around a point, as a squared distance.
pub const POINT_MARGIN: i64 = 200;

/// Length of the segment between `(x1, y1)` and `(x2, y2)`: the floor of the
/// Euclidean distance.
pub open spec fn length_of(x1: int, y1: int, x2: int, y2: int) -> int {
    sqrt_floor(sq(x1 - x2) + sq(y1 - y2))
}

/// A segment between in-range endpoints measures between 0 and `LEN_LIMIT`,
/// and at least as long as each axis projection.
pub proof fn lemma_length_bounds(x1: int, y1: int, x2: int, y2: int)
    requires
        abs(x1) <= COORD_LIMIT,
        abs(y1) <= COORD_LIMIT,
        abs(x2) <= COORD_LIMIT,
        abs(y2) <= COORD_LIMIT,
    ensures
        0 <= length_of(x1, y1, x2, y2) <= LEN_LIMIT,
        abs(x1 - x2) <= length_of(x1, y1, x2, y2),
        abs(y1 - y2) <= length_of(x1, y1, x2, y2),
{
    let dsq = sq(x1 - x2) + sq(y1 - y2);
    assert(sq(x1 - x2) <= 4000000000000000000 && sq(x1 - x2) >= 0) by (nonlinear_arith)
        requires
            -2000000000 <= x1 - x2 <= 2000000000,
    ;
    assert(sq(y1 - y2) <= 4000000000000000000 && sq(y1 - y2) >= 0) by (nonlinear_arith)
        requires
            -2000000000 <= y1 - y2 <= 2000000000,
    ;
    lemma_sqrt_floor_is_root(dsq);
    assert(sq(3000000000) == 9000000000000000000);
    lemma_sqrt_floor_le(dsq, 3000000000);
    // The root dominates each axis projection.
    let ax = abs(x1 - x2) as int;
    assert(sq(ax) <= dsq) by (nonlinear_arith)
        requires
            ax == abs(x1 - x2) as int,
            dsq == sq(x1 - x2) + sq(y1 - y2),
    ;
    lemma_sqrt_floor_sq(ax);
    assert(sqrt_floor(sq(ax)) <= sqrt_floor(dsq)) by {
        crate::arith::lemma_sqrt_floor_mono(sq(ax), dsq);
    }
    let ay = abs(y1 - y2) as int;
    assert(sq(ay) <= dsq) by (nonlinear_arith)
        requires
            ay == abs(y1 - y2) as int,
            dsq == sq(x1 - x2) + sq(y1 - y2),
    ;
    lemma_sqrt_floor_sq(ay);
    assert(sqrt_floor(sq(ay)) <= sqrt_floor(dsq)) by {
        crate::arith::lemma_sqrt_floor_mono(sq(ay), dsq);
    }
}

/// Measured length of the segment between two coordinate pairs.
pub fn get_line_length(p1: PointCords, p2: PointCords) -> (r: i64)
    requires
        cords_ok(p1),
        cords_ok(p2),
    ensures
        r == length_of(p1.0 as int, p1.1 as int, p2.0 as int, p2.1 as int),
        0 <= r <= LEN_LIMIT,
{
    proof {
        lemma_length_bounds(p1.0 as int, p1.1 as int, p2.0 as int, p2.1 as int);
    }
    let dx: i128 = p1.0 as i128 - p2.0 as i128;
    let dy: i128 = p1.1 as i128 - p2.1 as i128;
    proof {
        assert(dx * dx == sq(dx as int) && dy * dy == sq(dy as int));
        assert(sq(dx as int) <= 4000000000000000000 && sq(dx as int) >= 0) by (nonlinear_arith)
            requires
                -2000000000 <= dx as int <= 2000000000,
        ;
        assert(sq(dy as int) <= 4000000000000000000 && sq(dy as int) >= 0) by (nonlinear_arith)
            requires
                -2000000000 <= dy as int <= 2000000000,
        ;
    }
    let dsq: i128 = dx * dx + dy * dy;
    let r64: u64 = isqrt(dsq as u64);
    r64 as i64
}

/// Whether `p2` hovers over `p1`: squared distance below `POINT_MARGIN`.
pub open spec fn point_hover_spec(p1: PointCords, p2: PointCords) -> bool {
    sq(p1.0 - p2.0) + sq(p1.1 - p2.1) < POINT_MARGIN
}

pub fn check_point_hover(p1: PointCords, p2: PointCords) -> (r: bool)
    requires
        cords_ok(p1),
        cords_ok(p2),
    ensures
        r == point_hover_spec(p1, p2),
{
    let dx: i128 = p1.0 as i128 - p2.0 as i128;
    let dy: i128 = p1.1 as i128 - p2.1 as i128;
    proof {
        assert(sq(dx as int) <= 4000000000000000000 && sq(dx as int) >= 0) by (nonlinear_arith)
            requires
                -2000000000 <= dx as int <= 2000000000,
        ;
        assert(sq(dy as int) <= 4000000000000000000 && sq(dy as int) >= 0) by (nonlinear_arith)
            requires
                -2000000000 <= dy as int <= 2000000000,
        ;
    }
    dx * dx + dy * dy < POINT_MARGIN as i128
}

/// The bounding box of the segment, expanded by `LINE_MARGIN` on all sides.
pub open spec fn in_bounding_box(l1: PointCords, l2: PointCords, p: PointCords) -> bool {
    &&& p.0 > min(l1.0 as int, l2.0 as int) - LINE_MARGIN
    &&& p.0 < max(l1.0 as int, l2.0 as int) + LINE_MARGIN
    &&& p.1 > min(l1.1 as int, l2.1 as int) - LINE_MARGIN
    &&& p.1 < max(l1.1 as int, l2.1 as int) + LINE_MARGIN
}

/// Twice the signed area of the triangle `(l1, l2, p)`; zero exactly when `p`
/// lies on the line through `l1` and `l2`.
pub open spec fn cross_of(l1: PointCords, l2: PointCords, p: PointCords) -> int {
    (l2.0 - l1.0) * (l1.1 - p.1) - (l1.0 - p.0) * (l2.1 - l1.1)
}

/// Whether `p` hovers over the segment `l1`-`l2`: inside the expanded
/// bounding box and with perpendicular distance below `LINE_MARGIN`.
pub open spec fn line_hover_spec(l1: PointCords, l2: PointCords, p: PointCords) -> bool {
    &&& in_bounding_box(l1, l2, p)
    &&& abs(cross_of(l1, l2, p)) < LINE_MARGIN * length_of(
        l1.0 as int,
        l1.1 as int,
        l2.0 as int,
        l2.1 as int,
    )
}

pub fn check_line_hover(l1: PointCords, l2: PointCords, p: PointCords) -> (r: bool)
    requires
        cords_ok(l1),
        cords_ok(l2),
        cords_ok(p),
    ensures
        r == line_hover_spec(l1, l2, p),
{
    let minx: i64 = if l1.0 < l2.0 { l1.0 } else { l2.0 };
    let maxx: i64 = if l1.0 < l2.0 { l2.0 } else { l1.0 };
    let miny: i64 = if l1.1 < l2.1 { l1.1 } else { l2.1 };
    let maxy: i64 = if l1.1 < l2.1 { l2.1 } else { l1.1 };
    if !(p.0 > minx - LINE_MARGIN && p.0 < maxx + LINE_MARGIN && p.1 > miny - LINE_MARGIN && p.1
        < maxy + LINE_MARGIN) {
        return false;
    }
    proof {
        assert((l2.0 as int - l1.0 as int) * (l1.1 as int - p.1 as int)
            <= 4000000000000000000 && (l2.0 as int - l1.0 as int) * (l1.1 as int - p.1 as int)
            >= -4000000000000000000) by (nonlinear_arith)
            requires
                -2000000000 <= l2.0 as int - l1.0 as int <= 2000000000,
                -2000000000 <= l1.1 as int - p.1 as int <= 2000000000,
        ;
        assert((l1.0 as int - p.0 as int) * (l2.1 as int - l1.1 as int)
            <= 4000000000000000000 && (l1.0 as int - p.0 as int) * (l2.1 as int - l1.1 as int)
            >= -4000000000000000000) by (nonlinear_arith)
            requires
                -2000000000 <= l1.0 as int - p.0 as int <= 2000000000,
                -2000000000 <= l2.1 as int - l1.1 as int <= 2000000000,
        ;
    }
    let a: i128 = (l2.0 as i128 - l1.0 as i128) * (l1.1 as i128 - p.1 as i128);
    let b: i128 = (l1.0 as i128 - p.0 as i128) * (l2.1 as i128 - l1.1 as i128);
    let cross: i128 = a - b;
    let across: i128 = if cross < 0 { -cross } else { cross };
    let len: i64 = get_line_length(l1, l2);
    across < LINE_MARGIN as i128 * len as i128
}

/// x coordinate of the midpoint of a segment, rounded towards the lower end.
pub open spec fn middle_x(l1: PointCords, l2: PointCords) -> int {
    min(l1.0 as int, l2.0 as int) + abs(l1.0 - l2.0) / 2
}

pub open spec fn middle_y(l1: PointCords, l2: PointCords) -> int {
    min(l1.1 as int, l2.1 as int) + abs(l1.1 - l2.1) / 2
}

pub fn calculate_middle_point(l1: PointCords, l2: PointCords) -> (r: PointCords)
    requires
        cords_ok(l1),
        cords_ok(l2),
    ensures
        r.0 == middle_x(l1, l2),
        r.1 == middle_y(l1, l2),
        cords_ok(r),
{
    let minx: i64 = if l1.0 < l2.0 { l1.0 } else { l2.0 };
    let miny: i64 = if l1.1 < l2.1 { l1.1 } else { l2.1 };
    let dx: i64 = if l1.0 < l2.0 { l2.0 - l1.0 } else { l1.0 - l2.0 };
    let dy: i64 = if l1.1 < l2.1 { l2.1 - l1.1 } else { l1.1 - l2.1 };
    let hx: i64 = ((dx as u64) / 2) as i64;
    let hy: i64 = ((dy as u64) / 2) as i64;
    proof {
        vstd::arithmetic::div_mod::lemma_div_nonincreasing(dx as int, 2);
        vstd::arithmetic::div_mod::lemma_div_pos_is_pos(dx as int, 2);
        vstd::arithmetic::div_mod::lemma_div_nonincreasing(dy as int, 2);
        vstd::arithmetic::div_mod::lemma_div_pos_is_pos(dy as int, 2);
    }
    PointCords(minx + hx, miny + hy)
}

/// Sum of the x coordinates of a vertex sequence.
pub open spec fn sum_x(s: Seq<Point>) -> int
    decreases s.len(),
{
    if s.len() == 0 {
        0
    } else {
        sum_x(s.drop_last()) + s.last().x
    }
}

pub open spec fn sum_y(s: Seq<Point>) -> int
    decreases s.len(),
{
    if s.len() == 0 {
        0
    } else {
        sum_y(s.drop_last()) + s.last().y
    }
}

/// Arithmetic mean of the vertex coordinates, rounded towards zero.
pub open spec fn centroid_x(s: Seq<Point>) -> int {
    tdiv(sum_x(s), s.len() as int)
}

pub open spec fn centroid_y(s: Seq<Point>) -> int {
    tdiv(sum_y(s), s.len() as int)
}

pub proof fn lemma_sum_bounds(s: Seq<Point>)
    requires
        forall|k: int| 0 <= k < s.len() ==> point_ok(#[trigger] s[k]),
    ensures
        abs(sum_x(s)) <= s.len() * COORD_LIMIT,
        abs(sum_y(s)) <= s.len() * COORD_LIMIT,
    decreases s.len(),
{
    if s.len() > 0 {
        lemma_sum_bounds(s.drop_last());
        assert(point_ok(s[s.len() - 1]));
        assert(s.len() * COORD_LIMIT == (s.len() - 1) * COORD_LIMIT + COORD_LIMIT) by (nonlinear_arith);
    }
}

/// Centroid of a non-empty vertex list.
pub fn get_centroid(points: &Vec<Point>) -> (r: PointCords)
    requires
        points@.len() >= 1,
        forall|k: int| 0 <= k < points@.len() ==> point_ok(#[trigger] points@[k]),
    ensures
        r.0 == centroid_x(points@),
        r.1 == centroid_y(points@),
        cords_ok(r),
{
    let n = points.len();
    let mut sx: i128 = 0;
    let mut sy: i128 = 0;
    let mut i: usize = 0;
    while i < n
        invariant
            0 <= i <= n,
            n == points@.len(),
            forall|k: int| 0 <= k < points@.len() ==> point_ok(#[trigger] points@[k]),
            sx == sum_x(points@.subrange(0, i as int)),
            sy == sum_y(points@.subrange(0, i as int)),
            abs(sx as int) <= i * COORD_LIMIT,
            abs(sy as int) <= i * COORD_LIMIT,
        decreases n - i,
    {
        proof {
            assert(points@.subrange(0, i + 1).drop_last() =~= points@.subrange(0, i as int));
            assert(points@.subrange(0, i + 1).last() == points@[i as int]);
            assert((i + 1) * COORD_LIMIT == i * COORD_LIMIT + COORD_LIMIT) by (nonlinear_arith);
            assert(abs(sx as int + points@[i as int].x) <= abs(sx as int) + COORD_LIMIT);
        }
        sx = sx + points[i].x as i128;
        sy = sy + points[i].y as i128;
        i += 1;
    }
    proof {
        assert(points@.subrange(0, n as int) =~= points@);
        assert(n * COORD_LIMIT <= 170141183460469231731687303715884105727) by (nonlinear_arith)
            requires
                0 <= n <= 0xffff_ffff_ffff_ffff,
        ;
        lemma_tdiv_le(sx as int, n as int, COORD_LIMIT as int);
        lemma_tdiv_le(sy as int, n as int, COORD_LIMIT as int);
    }
    let cx: i128 = div_trunc(sx, n as i128);
    let cy: i128 = div_trunc(sy, n as i128);
    PointCords(cx as i64, cy as i64)
}

/// Where the cursor grabbed a segment, recovered from its first endpoint and
/// the stored grab offset.
pub fn get_click_point(p1: PointCords, offset: (i64, i64)) -> (r: PointCords)
    requires
        cords_ok(p1),
        abs(offset.0 as int) <= 2 * COORD_LIMIT,
        abs(offset.1 as int) <= 2 * COORD_LIMIT,
    ensures
        r.0 == p1.0 + offset.0,
        r.1 == offset.1 + p1.1,
{
    PointCords(p1.0 + offset.0, offset.1 + p1.1)
}

/// Whether two segments are parallel within the editor's tolerance: the
/// slopes `dx/dy` differ by less than 1/100.  Segments with a horizontal
/// component of slope (zero `dy`) never count as parallel.
pub open spec fn parallel_spec(l1: (PointCords, PointCords), l2: (PointCords, PointCords)) -> bool {
    let dx1 = (l1.1.0 - l1.0.0) as int;
    let dy1 = (l1.1.1 - l1.0.1) as int;
    let dx2 = (l2.1.0 - l2.0.0) as int;
    let dy2 = (l2.1.1 - l2.0.1) as int;
    100 * abs(dx1 * dy2 - dx2 * dy1) < abs(dy1 * dy2)
}

pub fn check_if_parallel(l1: (PointCords, PointCords), l2: (PointCords, PointCords)) -> (r: bool)
    requires
        cords_ok(l1.0),
        cords_ok(l1.1),
        cords_ok(l2.0),
        cords_ok(l2.1),
    ensures
        r == parallel_spec(l1, l2),
{
    let dx1: i128 = l1.1.0 as i128 - l1.0.0 as i128;
    let dy1: i128 = l1.1.1 as i128 - l1.0.1 as i128;
    let dx2: i128 = l2.1.0 as i128 - l2.0.0 as i128;
    let dy2: i128 = l2.1.1 as i128 - l2.0.1 as i128;
    proof {
        assert(-4000000000000000000 <= dx1 as int * dy2 as int <= 4000000000000000000)
            by (nonlinear_arith)
            requires
                -2000000000 <= dx1 as int <= 2000000000,
                -2000000000 <= dy2 as int <= 2000000000,
        ;
        assert(-4000000000000000000 <= dx2 as int * dy1 as int <= 4000000000000000000)
            by (nonlinear_arith)
            requires
                -2000000000 <= dx2 as int <= 2000000000,
                -2000000000 <= dy1 as int <= 2000000000,
        ;
        assert(-4000000000000000000 <= dy1 as int * dy2 as int <= 4000000000000000000)
            by (nonlinear_arith)
            requires
                -2000000000 <= dy1 as int <= 2000000000,
                -2000000000 <= dy2 as int <= 2000000000,
        ;
    }
    let d: i128 = dx1 * dy2 - dx2 * dy1;
    let ad: i128 = if d < 0 { -d } else { d };
    let p: i128 = dy1 * dy2;
    let ap: i128 = if p < 0 { -p } else { p };
    100 * ad < ap
}

/// Control points at one and three quarters of the way along the segment.
pub fn get_bezier_cords(point_cords: (PointCords, PointCords)) -> (r: (PointCords, PointCords))
    requires
        cords_ok(point_cords.0),
        cords_ok(point_cords.1),
    ensures
        r.0.0 == point_cords.0.0 + tdiv((point_cords.1.0 - point_cords.0.0) as int, 4),
        r.0.1 == point_cords.0.1 + tdiv((point_cords.1.1 - point_cords.0.1) as int, 4),
        r.1.0 == point_cords.0.0 + 3 * tdiv((point_cords.1.0 - point_cords.0.0) as int, 4),
        r.1.1 == point_cords.0.1 + 3 * tdiv((point_cords.1.1 - point_cords.0.1) as int, 4),
{
    let p1 = point_cords.0;
    let p2 = point_cords.1;
    let x_len: i128 = p2.0 as i128 - p1.0 as i128;
    let y_len: i128 = p2.1 as i128 - p1.1 as i128;
    proof {
        lemma_tdiv_le(x_len as int, 4, 2000000000);
        lemma_tdiv_le(y_len as int, 4, 2000000000);
    }
    let qx: i64 = div_trunc(x_len, 4) as i64;
    let qy: i64 = div_trunc(y_len, 4) as i64;
    let r1 = PointCords(p1.0 + qx, p1.1 + qy);
    let r2 = PointCords(p1.0 + 3 * qx, p1.1 + 3 * qy);
    (r1, r2)
}

/// Index of the vertex preceding vertex `i` on the closed ring of `n`
/// vertices.
pub open spec fn ring_prev(n: int, i: int) -> int {
    if i == 0 {
        n - 1
    } else {
        i - 1
    }
}

/// First endpoint id of ring edge `i`: the preceding vertex.
pub open spec fn ring_a(s: Seq<Point>, i: int) -> u32 {
    s[ring_prev(s.len() as int, i)].id
}

/// Second endpoint id of ring edge `i`: vertex `i` itself.
pub open spec fn ring_b(s: Seq<Point>, i: int) -> u32 {
    s[i].id
}

/// All vertex ids of the sequence are pairwise distinct.
pub open spec fn distinct_ids(s: Seq<Point>) -> bool {
    forall|x: int, y: int| 0 <= x < y < s.len() ==> (#[trigger] s[x].id) != (#[trigger] s[y].id)
}

/// `l` is the ring edge `i` of the vertex sequence `s`: it connects vertex
/// `i - 1` (wrapping) to vertex `i` and carries their measured distance.
pub open spec fn line_matches_ring(s: Seq<Point>, l: Line, i: int) -> bool {
    let pa = s[ring_prev(s.len() as int, i)];
    let pb = s[i];
    &&& l.points.0 == pa.id
    &&& l.points.1 == pb.id
    &&& l.length == length_of(pa.x as int, pa.y as int, pb.x as int, pb.y as int)
    &&& !l.visited
    &&& l.bezier is None
}

/// Edge `i` of a freshly generated edge list: a ring edge with no
/// constraints and the `i`-th fresh id.
pub open spec fn good_fresh_line(s: Seq<Point>, r: Seq<Line>, first_id: u32, i: int) -> bool {
    &&& line_matches_ring(s, r[i], i)
    &&& !r[i].is_const
    &&& r[i].relation is None
    &&& r[i].id as int == first_id as int + i
}

/// `l` connects the endpoint ids `a` and `b`, in either order.
pub open spec fn pair_matches(l: Line, a: u32, b: u32) -> bool {
    (l.points.0 == a && l.points.1 == b) || (l.points.0 == b && l.points.1 == a)
}

/// Index of the first edge of `old` connecting `a` and `b` (in either
/// order), or -1 when none does.
pub open spec fn match_idx(old: Seq<Line>, a: u32, b: u32) -> int
    decreases old.len(),
{
    if old.len() == 0 {
        -1
    } else if pair_matches(old[0], a, b) {
        0
    } else {
        let r = match_idx(old.subrange(1, old.len() as int), a, b);
        if r == -1 {
            -1
        } else {
            r + 1
        }
    }
}

pub proof fn lemma_match_idx(old: Seq<Line>, a: u32, b: u32)
    ensures
        match_idx(old, a, b) == -1 ==> forall|k: int|
            0 <= k < old.len() ==> !pair_matches(#[trigger] old[k], a, b),
        match_idx(old, a, b) != -1 ==> {
            let m = match_idx(old, a, b);
            &&& 0 <= m < old.len()
            &&& pair_matches(old[m], a, b)
            &&& forall|k: int| 0 <= k < m ==> !pair_matches(#[trigger] old[k], a, b)
        },
    decreases old.len(),
{
    if old.len() > 0 && !pair_matches(old[0], a, b) {
        let tail = old.subrange(1, old.len() as int);
        lemma_match_idx(tail, a, b);
        assert forall|k: int| 1 <= k < old.len() implies old[k] == tail[k - 1] by {}
        if match_idx(old, a, b) == -1 {
            assert forall|k: int| 0 <= k < old.len() implies !pair_matches(
                #[trigger] old[k],
                a,
                b,
            ) by {
                if k >= 1 {
                    assert(!pair_matches(tail[k - 1], a, b));
                }
            }
        } else {
            let m = match_idx(old, a, b);
            assert(pair_matches(tail[m - 1], a, b));
            assert forall|k: int| 0 <= k < m implies !pair_matches(#[trigger] old[k], a, b) by {
                if k >= 1 {
                    assert(!pair_matches(tail[k - 1], a, b));
                }
            }
        }
    }
}

/// First edge of `old_lines` connecting `a` and `b`, in either order.
pub fn find_pair_match(old_lines: &Vec<Line>, a: u32, b: u32) -> (r: Option<usize>)
    ensures
        match r {
            Some(k) => k < old_lines@.len() && k as int == match_idx(old_lines@, a, b),
            None => match_idx(old_lines@, a, b) == -1,
        },
{
    proof {
        lemma_match_idx(old_lines@, a, b);
    }
    let n = old_lines.len();
    let mut k: usize = 0;
    while k < n
        invariant
            0 <= k <= n,
            n == old_lines@.len(),
            forall|j: int| 0 <= j < k ==> !pair_matches(#[trigger] old_lines@[j], a, b),
        decreases n - k,
    {
        let l = old_lines[k];
        if (l.points.0 == a && l.points.1 == b) || (l.points.0 == b && l.points.1 == a) {
            proof {
                lemma_match_idx(old_lines@, a, b);
                let m = match_idx(old_lines@, a, b);
                assert(pair_matches(old_lines@[k as int], a, b));
                if m == -1 {
                    assert(!pair_matches(old_lines@[k as int], a, b));
                } else if m < k {
                    assert(!pair_matches(old_lines@[m], a, b));
                } else if k < m {
                    assert(!pair_matches(old_lines@[k as int], a, b));
                }
            }
            return Some(k);
        }
        k += 1;
    }
    None
}

/// No two edges of the vertex ring connect the same unordered pair of ids.
pub open spec fn ring_pair_eq(s: Seq<Point>, i: int, j: int) -> bool {
    ||| (ring_a(s, i) == ring_a(s, j) && ring_b(s, i) == ring_b(s, j))
    ||| (ring_a(s, i) == ring_b(s, j) && ring_b(s, i) == ring_a(s, j))
}

pub proof fn lemma_ring_pairs_distinct(s: Seq<Point>)
    requires
        s.len() >= 3,
        distinct_ids(s),
    ensures
        forall|i: int, j: int| 0 <= i < j < s.len() ==> !#[trigger] ring_pair_eq(s, i, j),
{
    let n = s.len() as int;
    assert forall|x: int, y: int|
        0 <= x < s.len() && 0 <= y < s.len() && x != y implies s[x].id != s[y].id by {
        if x < y {
            assert(s[x].id != s[y].id);
        } else {
            assert(s[y].id != s[x].id);
        }
    }
    assert forall|i: int, j: int| 0 <= i < j < s.len() implies !#[trigger] ring_pair_eq(
        s,
        i,
        j,
    ) by {
        if ring_pair_eq(s, i, j) {
            if ring_b(s, i) == ring_b(s, j) {
                assert(s[i].id == s[j].id);
            } else {
                // Crossed match: prev(i) == j and i == prev(j).
                assert(s[ring_prev(n, i)].id == s[j].id);
                assert(ring_prev(n, i) == j);
                assert(s[i].id == s[ring_prev(n, j)].id);
                assert(i == ring_prev(n, j));
            }
        }
    }
}

/// Fresh edge list for a vertex ring: one free edge per vertex, measured
/// lengths, sequential ids starting at `first_id`.  Fewer than three
/// vertices give no edges.
pub fn calcualate_new_lines(points: &Vec<Point>, first_id: u32) -> (r: Vec<Line>)
    requires
        forall|k: int| 0 <= k < points@.len() ==> point_ok(#[trigger] points@[k]),
        first_id as int + points@.len() <= u32::MAX as int,
    ensures
        points@.len() < 3 ==> r@.len() == 0,
        points@.len() >= 3 ==> r@.len() == points@.len(),
        forall|i: int| 0 <= i < r@.len() ==> #[trigger] good_fresh_line(points@, r@, first_id, i),
        forall|i: int| 0 <= i < r@.len() ==> crate::data_models::line_ok(#[trigger] r@[i]),
{
    let n = points.len();
    let mut lines: Vec<Line> = Vec::new();
    if n < 3 {
        return lines;
    }
    let mut i: usize = 0;
    while i < n
        invariant
            0 <= i <= n,
            3 <= n == points@.len(),
            first_id as int + n as int <= u32::MAX as int,
            forall|k: int| 0 <= k < points@.len() ==> point_ok(#[trigger] points@[k]),
            lines@.len() == i,
            forall|k: int| 0 <= k < i ==> #[trigger] good_fresh_line(points@, lines@, first_id, k),
            forall|k: int| 0 <= k < i ==> crate::data_models::line_ok(#[trigger] lines@[k]),
        decreases n - i,
    {
        let prev: Point = if i == 0 {
            points[n - 1]
        } else {
            points[i - 1]
        };
        let cur: Point = points[i];
        let length = get_line_length(PointCords(prev.x, prev.y), PointCords(cur.x, cur.y));
        let line = Line {
            points: (prev.id, cur.id),
            length,
            id: first_id + (i as u32),
            is_const: false,
            relation: None,
            visited: false,
            bezier: None,
        };
        let ghost pre = lines@;
        lines.push(line);
        proof {
            assert forall|k: int| 0 <= k < i + 1 implies #[trigger] good_fresh_line(
                points@,
                lines@,
                first_id,
                k,
            ) by {
                if k < i {
                    assert(good_fresh_line(points@, pre, first_id, k));
                    assert(lines@[k] == pre[k]);
                } else {
                    assert(lines@[k] == line);
                }
            }
        }
        i += 1;
    }
    lines
}

/// Edge `i` of a regenerated edge list that preserves relations: a ring
/// edge; where an old edge connected the same endpoint pair the old id and
/// relation are kept, otherwise the edge is fresh.
pub open spec fn good_regen_line(
    s: Seq<Point>,
    old: Seq<Line>,
    r: Seq<Line>,
    first_id: u32,
    i: int,
) -> bool {
    &&& line_matches_ring(s, r[i], i)
    &&& !r[i].is_const
    &&& {
        let m = match_idx(old, ring_a(s, i), ring_b(s, i));
        if m != -1 {
            r[i].id == old[m].id && r[i].relation == old[m].relation
        } else {
            r[i].id as int == first_id as int + i && r[i].relation is None
        }
    }
}

/// Regenerate the edge list of a vertex ring, carrying over the id and
/// relation of every old edge that connected the same endpoint pair.
pub fn calculate_new_lines_preserving_relations(
    points: &Vec<Point>,
    old_lines: &Vec<Line>,
    first_id: u32,
) -> (r: Vec<Line>)
    requires
        forall|k: int| 0 <= k < points@.len() ==> point_ok(#[trigger] points@[k]),
        first_id as int + points@.len() <= u32::MAX as int,
    ensures
        points@.len() < 3 ==> r@.len() == 0,
        points@.len() >= 3 ==> r@.len() == points@.len(),
        forall|i: int|
            0 <= i < r@.len() ==> #[trigger] good_regen_line(points@, old_lines@, r@, first_id, i),
        forall|i: int| 0 <= i < r@.len() ==> crate::data_models::line_ok(#[trigger] r@[i]),
{
    let n = points.len();
    let mut lines: Vec<Line> = Vec::new();
    if n < 3 {
        return lines;
    }
    let mut i: usize = 0;
    while i < n
        invariant
            0 <= i <= n,
            3 <= n == points@.len(),
            first_id as int + n as int <= u32::MAX as int,
            forall|k: int| 0 <= k < points@.len() ==> point_ok(#[trigger] points@[k]),
            lines@.len() == i,
            forall|k: int|
                0 <= k < i ==> #[trigger] good_regen_line(points@, old_lines@, lines@, first_id, k),
            forall|k: int| 0 <= k < i ==> crate::data_models::line_ok(#[trigger] lines@[k]),
        decreases n - i,
    {
        let prev: Point = if i == 0 {
            points[n - 1]
        } else {
            points[i - 1]
        };
        let cur: Point = points[i];
        let length = get_line_length(PointCords(prev.x, prev.y), PointCords(cur.x, cur.y));
        let found = find_pair_match(old_lines, prev.id, cur.id);
        let (id, rel) = match found {
            Some(k) => (old_lines[k].id, old_lines[k].relation),
            None => (first_id + (i as u32), None),
        };
        let line = Line {
            points: (prev.id, cur.id),
            length,
            id,
            is_const: false,
            relation: rel,
            visited: false,
            bezier: None,
        };
        let ghost pre = lines@;
        lines.push(line);
        proof {
            assert forall|k: int| 0 <= k < i + 1 implies #[trigger] good_regen_line(
                points@,
                old_lines@,
                lines@,
                first_id,
                k,
            ) by {
                if k < i {
                    assert(good_regen_line(points@, old_lines@, pre, first_id, k));
                    assert(lines@[k] == pre[k]);
                } else {
                    assert(lines@[k] == line);
                }
            }
        }
        i += 1;
    }
    lines
}

} // verus!
