//! The polygon entity: an ordered vertex ring and its edge list, kept in the
//! invariant that edge `i` connects vertex `i - 1` (wrapping) to vertex `i`.

use vstd::prelude::*;
use crate::arith::{clamp_spec, clamp_coord};
use crate::data_models::{bezier_ok, coord_ok, cords_ok, line_ok, point_ok, Line, Point, PointCords};
use crate::utils::{
    centroid_x, centroid_y, distinct_ids, get_centroid, get_line_length, length_of, ring_a, ring_b,
    ring_prev,
};

verus! {

pub struct Polygon {
    pub points: Vec<Point>,
    pub lines: Vec<Line>,
    pub center: PointCords,
}

/// What a pick resolved a screen coordinate to, in priority order: the
/// centroid handle, a vertex, a curve control handle, or an edge together
/// with the grab offset from its first endpoint.
#[derive(Clone, Copy)]
pub enum PressedObject {
    Center,
    Line(u32, (i64, i64)),
    Point(u32),
    BesierLine(u32, u8),
}

pub open spec fn has_point_id(s: Seq<Point>, id: u32) -> bool {
    exists|k: int| 0 <= k < s.len() && s[k].id == id
}

pub open spec fn has_line_id(s: Seq<Line>, id: u32) -> bool {
    exists|k: int| 0 <= k < s.len() && s[k].id == id
}

/// Index of the first vertex with id `id`, or -1.
pub open spec fn point_match_idx(s: Seq<Point>, id: u32) -> int
    decreases s.len(),
{
    if s.len() == 0 {
        -1
    } else if s[0].id == id {
        0
    } else {
        let r = point_match_idx(s.subrange(1, s.len() as int), id);
        if r == -1 {
            -1
        } else {
            r + 1
        }
    }
}

/// Index of the first edge with id `id`, or -1.
pub open spec fn line_match_idx(s: Seq<Line>, id: u32) -> int
    decreases s.len(),
{
    if s.len() == 0 {
        -1
    } else if s[0].id == id {
        0
    } else {
        let r = line_match_idx(s.subrange(1, s.len() as int), id);
        if r == -1 {
            -1
        } else {
            r + 1
        }
    }
}

pub proof fn lemma_point_match_idx(s: Seq<Point>, id: u32)
    ensures
        point_match_idx(s, id) == -1 ==> !has_point_id(s, id),
        point_match_idx(s, id) != -1 ==> {
            let m = point_match_idx(s, id);
            &&& 0 <= m < s.len()
            &&& s[m].id == id
            &&& forall|k: int| 0 <= k < m ==> (#[trigger] s[k]).id != id
        },
    decreases s.len(),
{
    if s.len() > 0 && s[0].id != id {
        let tail = s.subrange(1, s.len() as int);
        lemma_point_match_idx(tail, id);
        assert forall|k: int| 1 <= k < s.len() implies s[k] == tail[k - 1] by {}
        if point_match_idx(s, id) == -1 {
            assert forall|k: int| 0 <= k < s.len() implies (#[trigger] s[k]).id != id by {
                if k >= 1 {
                    assert(!has_point_id(tail, id));
                    if tail[k - 1].id == id {
                        assert(has_point_id(tail, id));
                    }
                }
            }
            assert(!has_point_id(s, id));
        }
    }
}

pub proof fn lemma_line_match_idx(s: Seq<Line>, id: u32)
    ensures
        line_match_idx(s, id) == -1 ==> !has_line_id(s, id),
        line_match_idx(s, id) != -1 ==> {
            let m = line_match_idx(s, id);
            &&& 0 <= m < s.len()
            &&& s[m].id == id
            &&& forall|k: int| 0 <= k < m ==> (#[trigger] s[k]).id != id
        },
    decreases s.len(),
{
    if s.len() > 0 && s[0].id != id {
        let tail = s.subrange(1, s.len() as int);
        lemma_line_match_idx(tail, id);
        assert forall|k: int| 1 <= k < s.len() implies s[k] == tail[k - 1] by {}
        if line_match_idx(s, id) == -1 {
            assert forall|k: int| 0 <= k < s.len() implies (#[trigger] s[k]).id != id by {
                if k >= 1 {
                    assert(!has_line_id(tail, id));
                    if tail[k - 1].id == id {
                        assert(has_line_id(tail, id));
                    }
                }
            }
            assert(!has_line_id(s, id));
        }
    }
}

/// The first index holding an id depends only on the ids.
pub proof fn lemma_point_match_idx_ids(a: Seq<Point>, b: Seq<Point>, id: u32)
    requires
        a.len() == b.len(),
        forall|i: int| 0 <= i < a.len() ==> (#[trigger] a[i]).id == b[i].id,
    ensures
        point_match_idx(a, id) == point_match_idx(b, id),
    decreases a.len(),
{
    if a.len() > 0 {
        let ta = a.subrange(1, a.len() as int);
        let tb = b.subrange(1, b.len() as int);
        assert forall|i: int| 0 <= i < ta.len() implies (#[trigger] ta[i]).id == tb[i].id by {
            assert(a[i + 1].id == b[i + 1].id);
        }
        lemma_point_match_idx_ids(ta, tb, id);
    }
}

pub proof fn lemma_line_match_idx_ids(a: Seq<Line>, b: Seq<Line>, id: u32)
    requires
        a.len() == b.len(),
        forall|i: int| 0 <= i < a.len() ==> (#[trigger] a[i]).id == b[i].id,
    ensures
        line_match_idx(a, id) == line_match_idx(b, id),
    decreases a.len(),
{
    if a.len() > 0 {
        let ta = a.subrange(1, a.len() as int);
        let tb = b.subrange(1, b.len() as int);
        assert forall|i: int| 0 <= i < ta.len() implies (#[trigger] ta[i]).id == tb[i].id by {
            assert(a[i + 1].id == b[i + 1].id);
        }
        lemma_line_match_idx_ids(ta, tb, id);
    }
}

/// With pairwise distinct ids, looking up a vertex's own id gives its index.
pub proof fn lemma_point_match_idx_of(s: Seq<Point>, i: int)
    requires
        crate::utils::distinct_ids(s),
        0 <= i < s.len(),
    ensures
        point_match_idx(s, s[i].id) == i,
{
    lemma_point_match_idx(s, s[i].id);
    let m = point_match_idx(s, s[i].id);
    if m == -1 {
        assert(!has_point_id(s, s[i].id));
        assert(false);
    }
    if m < i {
        // Distinctness contradicts the hit at the earlier index.
        assert(s[m].id != s[i].id);
        assert(false);
    }
    if i < m {
        // The characterisation excludes any earlier index holding the id.
        assert(s[i].id == s[i].id);
        assert(false);
    }
}

/// Every edge of the polygon connects its ring neighbours.
pub open spec fn ring_connected(p: Polygon) -> bool {
    forall|i: int|
        0 <= i < p.lines@.len() ==> (#[trigger] p.lines@[i]).points == (
            ring_a(p.points@, i),
            ring_b(p.points@, i),
        )
}

pub open spec fn polygon_points_ok(p: Polygon) -> bool {
    forall|k: int| 0 <= k < p.points@.len() ==> point_ok(#[trigger] p.points@[k])
}

pub open spec fn polygon_lines_ok(p: Polygon) -> bool {
    forall|k: int| 0 <= k < p.lines@.len() ==> line_ok(#[trigger] p.lines@[k])
}

/// The structural invariant of a live polygon: at least three vertices with
/// distinct ids, one edge per vertex forming the closed ring, everything in
/// coordinate range.
pub open spec fn polygon_wf(p: Polygon) -> bool {
    &&& p.points@.len() >= 3
    &&& p.lines@.len() == p.points@.len()
    &&& distinct_ids(p.points@)
    &&& ring_connected(p)
    &&& polygon_points_ok(p)
    &&& polygon_lines_ok(p)
    &&& cords_ok(p.center)
}

/// The stored centre is the centroid of the current vertices.
pub open spec fn polygon_centered(p: Polygon) -> bool {
    p.center.0 == centroid_x(p.points@) && p.center.1 == centroid_y(p.points@)
}

/// Measured length of ring edge `i` from the live vertex coordinates.
pub open spec fn measured_len(p: Polygon, i: int) -> int {
    let pa = p.points@[ring_prev(p.points@.len() as int, i)];
    let pb = p.points@[i];
    length_of(pa.x as int, pa.y as int, pb.x as int, pb.y as int)
}

/// Every stored edge length equals the measured length of its endpoints.
pub open spec fn polygon_settled(p: Polygon) -> bool {
    forall|i: int| 0 <= i < p.lines@.len() ==> (#[trigger] p.lines@[i]).length == measured_len(p, i)
}

impl Polygon {
    /// Index of the vertex with id `id`.
    pub fn find_point_index(&self, id: u32) -> (r: Option<usize>)
        ensures
            match r {
                Some(k) => k < self.points@.len() && k as int == point_match_idx(self.points@, id),
                None => !has_point_id(self.points@, id),
            },
    {
        proof {
            lemma_point_match_idx(self.points@, id);
        }
        let n = self.points.len();
        let mut k: usize = 0;
        while k < n
            invariant
                0 <= k <= n,
                n == self.points@.len(),
                forall|j: int| 0 <= j < k ==> (#[trigger] self.points@[j]).id != id,
            decreases n - k,
        {
            if self.points[k].id == id {
                proof {
                    lemma_point_match_idx(self.points@, id);
                    let m = point_match_idx(self.points@, id);
                    if m == -1 {
                        assert(has_point_id(self.points@, id));
                    }
                }
                return Some(k);
            }
            k += 1;
        }
        proof {
            if has_point_id(self.points@, id) {
                let w = choose|j: int| 0 <= j < self.points@.len() && self.points@[j].id == id;
                assert(self.points@[w].id != id);
            }
        }
        None
    }

    /// Index of the edge with id `id`.
    pub fn find_line_index(&self, id: u32) -> (r: Option<usize>)
        ensures
            match r {
                Some(k) => k < self.lines@.len() && k as int == line_match_idx(self.lines@, id),
                None => !has_line_id(self.lines@, id),
            },
    {
        proof {
            lemma_line_match_idx(self.lines@, id);
        }
        let n = self.lines.len();
        let mut k: usize = 0;
        while k < n
            invariant
                0 <= k <= n,
                n == self.lines@.len(),
                forall|j: int| 0 <= j < k ==> (#[trigger] self.lines@[j]).id != id,
            decreases n - k,
        {
            if self.lines[k].id == id {
                proof {
                    lemma_line_match_idx(self.lines@, id);
                    let m = line_match_idx(self.lines@, id);
                    if m == -1 {
                        assert(has_line_id(self.lines@, id));
                    }
                }
                return Some(k);
            }
            k += 1;
        }
        proof {
            if has_line_id(self.lines@, id) {
                let w = choose|j: int| 0 <= j < self.lines@.len() && self.lines@[j].id == id;
                assert(self.lines@[w].id != id);
            }
        }
        None
    }

    /// Coordinates of the vertex with id `id`.
    pub fn get_point_by_id(&self, id: u32) -> (r: PointCords)
        requires
            has_point_id(self.points@, id),
        ensures
            ({
                let m = point_match_idx(self.points@, id);
                &&& 0 <= m < self.points@.len()
                &&& self.points@[m].id == id
                &&& r.0 == self.points@[m].x
                &&& r.1 == self.points@[m].y
            }),
    {
        let r = self.find_point_index(id);
        match r {
            Some(k) => {
                proof {
                    lemma_point_match_idx(self.points@, id);
                }
                PointCords(self.points[k].x, self.points[k].y)
            },
            None => {
                proof {
                    assert(false);
                }
                PointCords(0, 0)
            },
        }
    }

    /// Endpoint ids of the edge with id `id`.
    pub fn get_line_by_id(&self, id: u32) -> (r: (u32, u32))
        requires
            has_line_id(self.lines@, id),
        ensures
            ({
                let m = line_match_idx(self.lines@, id);
                &&& 0 <= m < self.lines@.len()
                &&& self.lines@[m].id == id
                &&& r == self.lines@[m].points
            }),
    {
        let r = self.find_line_index(id);
        match r {
            Some(k) => {
                proof {
                    lemma_line_match_idx(self.lines@, id);
                }
                self.lines[k].points
            },
            None => {
                proof {
                    assert(false);
                }
                (0, 0)
            },
        }
    }

    /// Relation partner (if any) of the edge with id `line_id`.
    pub fn get_line_relation(&self, line_id: u32) -> (r: Option<u32>)
        requires
            has_line_id(self.lines@, line_id),
        ensures
            ({
                let m = line_match_idx(self.lines@, line_id);
                &&& 0 <= m < self.lines@.len()
                &&& r == self.lines@[m].relation
            }),
    {
        let r = self.find_line_index(line_id);
        match r {
            Some(k) => {
                proof {
                    lemma_line_match_idx(self.lines@, line_id);
                }
                self.lines[k].relation
            },
            None => {
                proof {
                    assert(false);
                }
                None
            },
        }
    }

    /// Whether the polygon owns an edge with id `line_id`.
    pub fn constains_line(&self, line_id: u32) -> (r: bool)
        ensures
            r == has_line_id(self.lines@, line_id),
    {
        let r = self.find_line_index(line_id);
        match r {
            Some(k) => {
                proof {
                    lemma_line_match_idx(self.lines@, line_id);
                    assert(self.lines@[line_match_idx(self.lines@, line_id)].id == line_id);
                }
                true
            },
            None => false,
        }
    }

    /// Set the relation field of the first edge with id `line_id`; a missing
    /// id leaves the polygon unchanged.
    pub fn set_relation(&mut self, line_id: u32, related_line_id: Option<u32>)
        ensures
            final(self).points@ == old(self).points@,
            final(self).center == old(self).center,
            ({
                let m = line_match_idx(old(self).lines@, line_id);
                if m == -1 {
                    final(self).lines@ == old(self).lines@
                } else {
                    final(self).lines@ == old(self).lines@.update(
                        m,
                        Line { relation: related_line_id, ..old(self).lines@[m] },
                    )
                }
            }),
    {
        let r = self.find_line_index(line_id);
        match r {
            Some(k) => {
                proof {
                    lemma_line_match_idx(self.lines@, line_id);
                }
                let mut l = self.lines[k];
                l.relation = related_line_id;
                self.lines[k] = l;
            },
            None => {
                proof {
                    lemma_line_match_idx(self.lines@, line_id);
                    if line_match_idx(self.lines@, line_id) != -1 {
                        assert(has_line_id(self.lines@, line_id));
                    }
                }
            },
        }
    }

    /// Set the curve control points of the first edge with id `line_id`.
    pub fn set_bezier(&mut self, line_id: u32, bezier: Option<(PointCords, PointCords)>)
        requires
            bezier_ok(bezier),
        ensures
            final(self).points@ == old(self).points@,
            final(self).center == old(self).center,
            ({
                let m = line_match_idx(old(self).lines@, line_id);
                if m == -1 {
                    final(self).lines@ == old(self).lines@
                } else {
                    final(self).lines@ == old(self).lines@.update(
                        m,
                        Line { bezier, ..old(self).lines@[m] },
                    )
                }
            }),
    {
        let r = self.find_line_index(line_id);
        match r {
            Some(k) => {
                proof {
                    lemma_line_match_idx(self.lines@, line_id);
                }
                let mut l = self.lines[k];
                l.bezier = bezier;
                self.lines[k] = l;
            },
            None => {
                proof {
                    lemma_line_match_idx(self.lines@, line_id);
                    if line_match_idx(self.lines@, line_id) != -1 {
                        assert(has_line_id(self.lines@, line_id));
                    }
                }
            },
        }
    }

    /// Translate the vertex with id `id` by the given delta, clamped into the
    /// coordinate range.
    pub fn modify_point_coordinates(&mut self, id: u32, coordinates: (i64, i64))
        requires
            has_point_id(old(self).points@, id),
        ensures
            final(self).lines@ == old(self).lines@,
            final(self).center == old(self).center,
            ({
                let m = point_match_idx(old(self).points@, id);
                let p = old(self).points@[m];
                &&& 0 <= m < old(self).points@.len()
                &&& final(self).points@ == old(self).points@.update(
                    m,
                    Point {
                        x: clamp_spec(p.x + coordinates.0) as i64,
                        y: clamp_spec(p.y + coordinates.1) as i64,
                        id: p.id,
                    },
                )
            }),
    {
        let r = self.find_point_index(id);
        match r {
            Some(k) => {
                proof {
                    lemma_point_match_idx(self.points@, id);
                }
                let p = self.points[k];
                let nx = clamp_coord(p.x as i128 + coordinates.0 as i128);
                let ny = clamp_coord(p.y as i128 + coordinates.1 as i128);
                self.points[k] = Point { x: nx, y: ny, id: p.id };
            },
            None => {
                proof {
                    assert(false);
                }
            },
        }
    }

    /// Recompute the centre from the current vertices and refresh every
    /// edge's stored length to its measured length.
    pub fn recalculate(&mut self)
        requires
            polygon_wf(*old(self)),
        ensures
            final(self).points@ == old(self).points@,
            polygon_centered(*final(self)),
            cords_ok(final(self).center),
            final(self).lines@.len() == old(self).lines@.len(),
            forall|i: int|
                0 <= i < final(self).lines@.len() ==> final(self).lines@[i] == (Line {
                    length: measured_len(*final(self), i) as i64,
                    ..old(self).lines@[i]
                }),
            polygon_settled(*final(self)),
            polygon_wf(*final(self)),
    {
        let c = get_centroid(&self.points);
        self.center = c;
        let ghost orig = *self;
        let n = self.lines.len();
        let mut i: usize = 0;
        while i < n
            invariant
                0 <= i <= n,
                n == self.lines@.len(),
                polygon_wf(orig),
                self.points@ == orig.points@,
                self.center == orig.center,
                orig.lines@.len() == n,
                forall|k: int| i <= k < n ==> self.lines@[k] == orig.lines@[k],
                forall|k: int|
                    0 <= k < i ==> self.lines@[k] == (Line {
                        length: measured_len(orig, k) as i64,
                        ..orig.lines@[k]
                    }),
                forall|k: int| 0 <= k < i ==> line_ok(#[trigger] self.lines@[k]),
            decreases n - i,
        {
            let np = self.points.len();
            let pa: Point = if i == 0 {
                self.points[np - 1]
            } else {
                self.points[i - 1]
            };
            let pb: Point = self.points[i];
            let len = get_line_length(PointCords(pa.x, pa.y), PointCords(pb.x, pb.y));
            proof {
                assert(len as int == measured_len(orig, i as int));
                assert((measured_len(orig, i as int) as i64) == len);
            }
            let mut l = self.lines[i];
            l.length = len;
            self.lines[i] = l;
            i += 1;
        }
        proof {
            assert forall|i2: int| 0 <= i2 < self.lines@.len() implies (#[trigger] self.lines@[i2]).length
                == measured_len(*self, i2) by {
                assert(self.lines@[i2] == (Line {
                    length: measured_len(orig, i2) as i64,
                    ..orig.lines@[i2]
                }));
                let np = self.points@.len() as int;
                let pa = self.points@[ring_prev(np, i2)];
                let pb = self.points@[i2];
                assert(point_ok(pa));
                assert(point_ok(pb));
                crate::utils::lemma_length_bounds(pa.x as int, pa.y as int, pb.x as int, pb.y as int);
                assert(measured_len(orig, i2) == measured_len(*self, i2));
            }
            assert forall|i2: int| 0 <= i2 < self.lines@.len() implies (#[trigger] self.lines@[i2]).points
                == (ring_a(self.points@, i2), ring_b(self.points@, i2)) by {
                assert(orig.lines@[i2].points == (ring_a(orig.points@, i2), ring_b(orig.points@, i2)));
            }
        }
    }
}

/// Index of the first vertex hovered by `c`, or -1.
pub open spec fn first_point_hover_idx(s: Seq<Point>, c: PointCords) -> int
    decreases s.len(),
{
    if s.len() == 0 {
        -1
    } else if crate::utils::point_hover_spec(PointCords(s[0].x, s[0].y), c) {
        0
    } else {
        let r = first_point_hover_idx(s.subrange(1, s.len() as int), c);
        if r == -1 {
            -1
        } else {
            r + 1
        }
    }
}

pub proof fn lemma_first_point_hover_idx(s: Seq<Point>, c: PointCords)
    ensures
        first_point_hover_idx(s, c) == -1 ==> forall|k: int|
            0 <= k < s.len() ==> !crate::utils::point_hover_spec(
                PointCords((#[trigger] s[k]).x, s[k].y),
                c,
            ),
        first_point_hover_idx(s, c) != -1 ==> {
            let m = first_point_hover_idx(s, c);
            &&& 0 <= m < s.len()
            &&& crate::utils::point_hover_spec(PointCords(s[m].x, s[m].y), c)
            &&& forall|k: int|
                0 <= k < m ==> !crate::utils::point_hover_spec(
                    PointCords((#[trigger] s[k]).x, s[k].y),
                    c,
                )
        },
    decreases s.len(),
{
    if s.len() > 0 && !crate::utils::point_hover_spec(PointCords(s[0].x, s[0].y), c) {
        let tail = s.subrange(1, s.len() as int);
        lemma_first_point_hover_idx(tail, c);
        assert forall|k: int| 1 <= k < s.len() implies s[k] == tail[k - 1] by {}
    }
}

/// What (if anything) edge `i` contributes to a pick at `c`: its curve
/// control handles when it is curved, otherwise the segment body, with the
/// grab offset from its first endpoint.
pub open spec fn line_hit(p: Polygon, i: int, c: PointCords) -> Option<PressedObject> {
    let l = p.lines@[i];
    match l.bezier {
        Some(bz) => {
            if crate::utils::point_hover_spec(bz.0, c) {
                Some(PressedObject::BesierLine(l.id, 1))
            } else if crate::utils::point_hover_spec(bz.1, c) {
                Some(PressedObject::BesierLine(l.id, 2))
            } else {
                None
            }
        },
        None => {
            let pa = p.points@[point_match_idx(p.points@, l.points.0)];
            let pb = p.points@[point_match_idx(p.points@, l.points.1)];
            if crate::utils::line_hover_spec(
                PointCords(pa.x, pa.y),
                PointCords(pb.x, pb.y),
                c,
            ) {
                Some(
                    PressedObject::Line(l.id, ((c.0 - pa.x) as i64, (c.1 - pa.y) as i64)),
                )
            } else {
                None
            }
        },
    }
}

/// First edge from index `i` on that the pick at `c` hits.
pub open spec fn first_line_hit(p: Polygon, i: int, c: PointCords) -> Option<PressedObject>
    decreases p.lines@.len() - i,
{
    if i < 0 || i >= p.lines@.len() {
        None
    } else if line_hit(p, i, c) is Some {
        line_hit(p, i, c)
    } else {
        first_line_hit(p, i + 1, c)
    }
}

/// The full pick result for one polygon: the centroid handle first, then the
/// first hovered vertex, then the first hit edge.
pub open spec fn hover_spec(p: Polygon, c: PointCords) -> Option<PressedObject> {
    if crate::utils::point_hover_spec(p.center, c) {
        Some(PressedObject::Center)
    } else if first_point_hover_idx(p.points@, c) != -1 {
        Some(PressedObject::Point(p.points@[first_point_hover_idx(p.points@, c)].id))
    } else {
        first_line_hit(p, 0, c)
    }
}

impl Polygon {
    /// Resolve a screen coordinate to the entity of this polygon it hovers
    /// over, in priority order: centroid handle, vertex, edge.
    pub fn check_hover(&self, x: i64, y: i64) -> (r: Option<PressedObject>)
        requires
            polygon_wf(*self),
            coord_ok(x),
            coord_ok(y),
        ensures
            r == hover_spec(*self, PointCords(x, y)),
    {
        let c = PointCords(x, y);
        if crate::utils::check_point_hover(self.center, c) {
            return Some(PressedObject::Center);
        }
        let n = self.points.len();
        proof {
            lemma_first_point_hover_idx(self.points@, c);
        }
        let mut i: usize = 0;
        while i < n
            invariant
                0 <= i <= n,
                n == self.points@.len(),
                polygon_wf(*self),
                coord_ok(x),
                coord_ok(y),
                c == PointCords(x, y),
                !crate::utils::point_hover_spec(self.center, c),
                forall|k: int|
                    0 <= k < i ==> !crate::utils::point_hover_spec(
                        PointCords((#[trigger] self.points@[k]).x, self.points@[k].y),
                        c,
                    ),
            decreases n - i,
        {
            let p = self.points[i];
            if crate::utils::check_point_hover(PointCords(p.x, p.y), c) {
                proof {
                    lemma_first_point_hover_idx(self.points@, c);
                    let m = first_point_hover_idx(self.points@, c);
                    if m == -1 {
                        assert(!crate::utils::point_hover_spec(
                            PointCords(self.points@[i as int].x, self.points@[i as int].y),
                            c,
                        ));
                    } else if m < i {
                        assert(!crate::utils::point_hover_spec(
                            PointCords(self.points@[m].x, self.points@[m].y),
                            c,
                        ));
                    } else if i < m {
                        assert(!crate::utils::point_hover_spec(
                            PointCords(self.points@[i as int].x, self.points@[i as int].y),
                            c,
                        ));
                    }
                }
                return Some(PressedObject::Point(p.id));
            }
            i += 1;
        }
        proof {
            lemma_first_point_hover_idx(self.points@, c);
            let m = first_point_hover_idx(self.points@, c);
            if m != -1 {
                assert(!crate::utils::point_hover_spec(
                    PointCords(self.points@[m].x, self.points@[m].y),
                    c,
                ));
            }
        }
        let nl = self.lines.len();
        let mut j: usize = 0;
        while j < nl
            invariant
                0 <= j <= nl,
                nl == self.lines@.len(),
                polygon_wf(*self),
                coord_ok(x),
                coord_ok(y),
                c == PointCords(x, y),
                !crate::utils::point_hover_spec(self.center, c),
                first_point_hover_idx(self.points@, c) == -1,
                first_line_hit(*self, 0, c) == first_line_hit(*self, j as int, c),
            decreases nl - j,
        {
            let l = self.lines[j];
            match l.bezier {
                Some(bz) => {
                    if crate::utils::check_point_hover(bz.0, c) {
                        return Some(PressedObject::BesierLine(l.id, 1));
                    }
                    if crate::utils::check_point_hover(bz.1, c) {
                        return Some(PressedObject::BesierLine(l.id, 2));
                    }
                },
                None => {
                    proof {
                        let s = self.points@;
                        let np = s.len() as int;
                        assert(self.lines@[j as int].points == (
                            ring_a(s, j as int),
                            ring_b(s, j as int),
                        ));
                        assert(s[ring_prev(np, j as int)].id == l.points.0);
                        assert(has_point_id(s, l.points.0));
                        assert(s[j as int].id == l.points.1);
                        assert(has_point_id(s, l.points.1));
                    }
                    let pa = self.get_point_by_id(l.points.0);
                    let pb = self.get_point_by_id(l.points.1);
                    if crate::utils::check_line_hover(pa, pb, c) {
                        return Some(PressedObject::Line(l.id, (x - pa.0, y - pa.1)));
                    }
                },
            }
            j += 1;
        }
        None
    }

    /// Remove the vertex with id `id` and regenerate the full edge list in
    /// vertex order, either fresh or preserving the relations of edges whose
    /// endpoint pair survives.  The centre is recomputed.
    pub fn remove_point_of_id(&mut self, id: u32, preserve: bool, first_id: u32)
        requires
            has_point_id(old(self).points@, id),
            old(self).points@.len() >= 2,
            polygon_points_ok(*old(self)),
            first_id as int + old(self).points@.len() <= u32::MAX as int,
        ensures
            ({
                let k = point_match_idx(old(self).points@, id);
                &&& 0 <= k < old(self).points@.len()
                &&& final(self).points@ == old(self).points@.remove(k)
            }),
            final(self).points@.len() == old(self).points@.len() - 1,
            polygon_centered(*final(self)),
            cords_ok(final(self).center),
            final(self).points@.len() < 3 ==> final(self).lines@.len() == 0,
            final(self).points@.len() >= 3 ==> final(self).lines@.len() == final(self).points@.len(),
            forall|i: int| 0 <= i < final(self).lines@.len() ==> line_ok(#[trigger] final(self).lines@[i]),
            !preserve ==> forall|i: int|
                0 <= i < final(self).lines@.len() ==> #[trigger] crate::utils::good_fresh_line(
                    final(self).points@,
                    final(self).lines@,
                    first_id,
                    i,
                ),
            preserve ==> forall|i: int|
                0 <= i < final(self).lines@.len() ==> #[trigger] crate::utils::good_regen_line(
                    final(self).points@,
                    old(self).lines@,
                    final(self).lines@,
                    first_id,
                    i,
                ),
    {
        let r = self.find_point_index(id);
        match r {
            Some(k) => {
                proof {
                    lemma_point_match_idx(self.points@, id);
                }
                self.points.remove(k);
                let new_lines = if preserve {
                    crate::utils::calculate_new_lines_preserving_relations(
                        &self.points,
                        &self.lines,
                        first_id,
                    )
                } else {
                    crate::utils::calcualate_new_lines(&self.points, first_id)
                };
                self.lines = new_lines;
                let c = get_centroid(&self.points);
                self.center = c;
            },
            None => {
                proof {
                    assert(false);
                }
            },
        }
    }
}

/// The two edges that replace a split edge: from `x` to the new vertex `s`,
/// and from `s` to `y`, with fresh sequential ids.
pub fn get_new_split_lines(polygon: &Polygon, x: u32, y: u32, s: u32, first_id: u32) -> (r: (
    Line,
    Line,
))
    requires
        has_point_id(polygon.points@, x),
        has_point_id(polygon.points@, y),
        has_point_id(polygon.points@, s),
        polygon_points_ok(*polygon),
        first_id < u32::MAX,
    ensures
        ({
            let px = polygon.points@[point_match_idx(polygon.points@, x)];
            let py = polygon.points@[point_match_idx(polygon.points@, y)];
            let ps = polygon.points@[point_match_idx(polygon.points@, s)];
            &&& r.0.points == (x, s)
            &&& r.0.length == length_of(px.x as int, px.y as int, ps.x as int, ps.y as int)
            &&& r.0.id == first_id
            &&& !r.0.is_const
            &&& r.0.relation is None
            &&& !r.0.visited
            &&& r.0.bezier is None
            &&& line_ok(r.0)
            &&& r.1.points == (s, y)
            &&& r.1.length == length_of(ps.x as int, ps.y as int, py.x as int, py.y as int)
            &&& r.1.id as int == first_id as int + 1
            &&& !r.1.is_const
            &&& r.1.relation is None
            &&& !r.1.visited
            &&& r.1.bezier is None
            &&& line_ok(r.1)
        }),
{
    proof {
        lemma_point_match_idx(polygon.points@, x);
        lemma_point_match_idx(polygon.points@, y);
        lemma_point_match_idx(polygon.points@, s);
    }
    let px = polygon.get_point_by_id(x);
    let py = polygon.get_point_by_id(y);
    let ps = polygon.get_point_by_id(s);
    let l1 = Line {
        id: first_id,
        points: (x, s),
        length: get_line_length(px, ps),
        is_const: false,
        relation: None,
        visited: false,
        bezier: None,
    };
    let l2 = Line {
        id: first_id + 1,
        points: (s, y),
        length: get_line_length(ps, py),
        is_const: false,
        relation: None,
        visited: false,
        bezier: None,
    };
    (l1, l2)
}

} // verus!
