//! The editing scene: all live polygons, the id counter, and the constraint
//! engine that keeps constant-length edges rigid and related edges
//! synchronised while vertices are dragged or edge lengths edited.

use vstd::prelude::*;
use vstd::math::abs;
use crate::arith::{
    clamp_spec, clamp_coord, div_trunc, isqrt, lemma_sqrt_floor_le, lemma_tdiv_le, sq, sqrt_floor,
    tdiv, COORD_LIMIT, LEN_LIMIT,
};
use crate::data_models::{coord_ok, cords_ok, line_ok, point_ok, Line, Point, PointCords};
use crate::polygon::{
    has_line_id, has_point_id, hover_spec, lemma_line_match_idx, lemma_point_match_idx,
    line_match_idx, measured_len, point_match_idx, polygon_centered, polygon_settled, polygon_wf,
    Polygon, PressedObject,
};
use crate::utils::{
    get_centroid, get_line_length, length_of, middle_x, middle_y, ring_a, ring_b, ring_prev,
};

verus! {

/// Why an editing operation was refused.
#[derive(Clone, Copy, PartialEq, Eq, Structural)]
pub enum EditError {
    /// An id or index named no live entity.
    NotFound,
    /// The operation would break the topology invariant.
    InvalidTopology,
    /// A relation was requested for an edge that already has a partner.
    RelationConflict,
}

/// The whole editing session: the live polygons and the counter from which
/// every new point and line id is drawn, so that ids never repeat.
pub struct Scene {
    pub polygons: Vec<Polygon>,
    pub next_id: u32,
}

pub open spec fn valid_pl(s: Scene, j: int, k: int) -> bool {
    0 <= j < s.polygons@.len() && 0 <= k < s.polygons@[j].lines@.len()
}

pub open spec fn line_at(s: Scene, j: int, k: int) -> Line {
    s.polygons@[j].lines@[k]
}

/// Every polygon of the scene is structurally well formed.
pub open spec fn polys_wf(s: Scene) -> bool {
    forall|j: int| 0 <= j < s.polygons@.len() ==> polygon_wf(#[trigger] s.polygons@[j])
}

/// Line ids are unique across the whole scene.
pub open spec fn ids_unique(s: Scene) -> bool {
    forall|j1: int, k1: int, j2: int, k2: int|
        valid_pl(s, j1, k1) && valid_pl(s, j2, k2) && (j1 != j2 || k1 != k2) ==> (#[trigger] line_at(
            s,
            j1,
            k1,
        )).id != (#[trigger] line_at(s, j2, k2)).id
}

/// Every line id was drawn from the counter.
pub open spec fn ids_bounded(s: Scene) -> bool {
    forall|j: int, k: int| valid_pl(s, j, k) ==> (#[trigger] line_at(s, j, k)).id < s.next_id
}

/// Some line of the scene has id `partner_id` and points back at `back_id`.
pub open spec fn has_partner(s: Scene, partner_id: u32, back_id: u32) -> bool {
    exists|j: int, k: int|
        valid_pl(s, j, k) && (#[trigger] line_at(s, j, k)).id == partner_id && line_at(
            s,
            j,
            k,
        ).relation == Some(back_id)
}

/// The relation of the line at `(j, k)`, when set, is mutual: its partner
/// exists and points back.
pub open spec fn rel_ok_at(s: Scene, j: int, k: int) -> bool {
    line_at(s, j, k).relation matches Some(m) ==> {
        &&& m != line_at(s, j, k).id
        &&& has_partner(s, m, line_at(s, j, k).id)
    }
}

/// Relation pairing is mutual everywhere: `A.relation == Some(B.id)` always
/// comes with `B.relation == Some(A.id)`, and no relation dangles.
pub open spec fn relations_mutual(s: Scene) -> bool {
    forall|j: int, k: int| valid_pl(s, j, k) ==> #[trigger] rel_ok_at(s, j, k)
}

/// No line carries the transient propagation mark.
pub open spec fn flags_clear(s: Scene) -> bool {
    forall|j: int, k: int| valid_pl(s, j, k) ==> !(#[trigger] line_at(s, j, k)).visited
}

/// The structural part of the scene invariant, maintained even in the middle
/// of a propagation pass.
pub open spec fn scene_struct_wf(s: Scene) -> bool {
    &&& polys_wf(s)
    &&& ids_unique(s)
    &&& ids_bounded(s)
    &&& relations_mutual(s)
}

/// Every polygon's centre is its centroid and every stored edge length is
/// the measured length; holds between operations.
pub open spec fn scene_calm(s: Scene) -> bool {
    forall|j: int|
        0 <= j < s.polygons@.len() ==> polygon_centered(#[trigger] s.polygons@[j])
            && polygon_settled(s.polygons@[j])
}

/// The full scene invariant, established by every editing operation.
pub open spec fn scene_wf(s: Scene) -> bool {
    &&& scene_struct_wf(s)
    &&& flags_clear(s)
    &&& scene_calm(s)
}

/// Number of lines of one edge list not yet marked by this propagation pass.
pub open spec fn count_unvisited_lines(ls: Seq<Line>) -> nat
    decreases ls.len(),
{
    if ls.len() == 0 {
        0
    } else {
        count_unvisited_lines(ls.drop_last()) + (if ls.last().visited {
            0nat
        } else {
            1nat
        })
    }
}

/// Number of unmarked lines of the whole scene: the termination measure of
/// constraint propagation.
pub open spec fn count_unvisited(ps: Seq<Polygon>) -> nat
    decreases ps.len(),
{
    if ps.len() == 0 {
        0
    } else {
        count_unvisited(ps.drop_last()) + count_unvisited_lines(ps.last().lines@)
    }
}

pub proof fn lemma_count_lines_update(ls: Seq<Line>, i: int, l: Line)
    requires
        0 <= i < ls.len(),
    ensures
        count_unvisited_lines(ls.update(i, l)) as int == count_unvisited_lines(ls) as int - (
        if ls[i].visited {
            0int
        } else {
            1int
        }) + (if l.visited {
            0int
        } else {
            1int
        }),
    decreases ls.len(),
{
    let u = ls.update(i, l);
    if i == ls.len() - 1 {
        assert(u.drop_last() =~= ls.drop_last());
        assert(u.last() == l);
    } else {
        assert(u.drop_last() =~= ls.drop_last().update(i, l));
        lemma_count_lines_update(ls.drop_last(), i, l);
        assert(u.last() == ls.last());
    }
}

pub proof fn lemma_count_polys_update(ps: Seq<Polygon>, j: int, p: Polygon)
    requires
        0 <= j < ps.len(),
    ensures
        count_unvisited(ps.update(j, p)) as int == count_unvisited(ps) as int
            - count_unvisited_lines(ps[j].lines@) as int + count_unvisited_lines(p.lines@) as int,
    decreases ps.len(),
{
    let u = ps.update(j, p);
    if j == ps.len() - 1 {
        assert(u.drop_last() =~= ps.drop_last());
        assert(u.last() == p);
    } else {
        assert(u.drop_last() =~= ps.drop_last().update(j, p));
        lemma_count_polys_update(ps.drop_last(), j, p);
        assert(u.last() == ps.last());
    }
}

/// Two edge lists with pointwise equal marks count the same.
pub proof fn lemma_count_lines_pointwise(a: Seq<Line>, b: Seq<Line>)
    requires
        a.len() == b.len(),
        forall|k: int| 0 <= k < a.len() ==> (#[trigger] a[k]).visited == b[k].visited,
    ensures
        count_unvisited_lines(a) == count_unvisited_lines(b),
    decreases a.len(),
{
    if a.len() > 0 {
        lemma_count_lines_pointwise(a.drop_last(), b.drop_last());
    }
}

pub proof fn lemma_count_polys_pointwise(a: Seq<Polygon>, b: Seq<Polygon>)
    requires
        a.len() == b.len(),
        forall|j: int|
            0 <= j < a.len() ==> count_unvisited_lines((#[trigger] a[j]).lines@)
                == count_unvisited_lines(b[j].lines@),
    ensures
        count_unvisited(a) == count_unvisited(b),
    decreases a.len(),
{
    if a.len() > 0 {
        lemma_count_polys_pointwise(a.drop_last(), b.drop_last());
    }
}

/// A fully unmarked edge list counts its whole length.
pub proof fn lemma_count_lines_clear(ls: Seq<Line>)
    requires
        forall|k: int| 0 <= k < ls.len() ==> !(#[trigger] ls[k]).visited,
    ensures
        count_unvisited_lines(ls) == ls.len(),
    decreases ls.len(),
{
    if ls.len() > 0 {
        lemma_count_lines_clear(ls.drop_last());
    }
}

/// A line changed only in its transient mark or its coordinates-independent
/// payload: everything the topology cares about is equal.
pub open spec fn line_same_shape(a: Line, b: Line) -> bool {
    &&& a.points == b.points
    &&& a.length == b.length
    &&& a.id == b.id
    &&& a.is_const == b.is_const
    &&& a.relation == b.relation
    &&& a.bezier == b.bezier
}

/// Propagation moves vertices and sets marks, but never edits topology:
/// ids, endpoint pairs, stored lengths, constraints and centres are kept.
pub open spec fn poly_same_shape(a: Polygon, b: Polygon) -> bool {
    &&& a.points@.len() == b.points@.len()
    &&& forall|k: int| 0 <= k < a.points@.len() ==> (#[trigger] a.points@[k]).id == b.points@[k].id
    &&& a.lines@.len() == b.lines@.len()
    &&& forall|k: int| 0 <= k < a.lines@.len() ==> line_same_shape(#[trigger] a.lines@[k], b.lines@[k])
    &&& a.center == b.center
}

pub open spec fn scene_same_shape(a: Scene, b: Scene) -> bool {
    &&& a.polygons@.len() == b.polygons@.len()
    &&& a.next_id == b.next_id
    &&& forall|j: int|
        0 <= j < a.polygons@.len() ==> poly_same_shape(#[trigger] a.polygons@[j], b.polygons@[j])
}

/// The polygons look exactly alike, view by view.
pub open spec fn poly_view_eq(a: Polygon, b: Polygon) -> bool {
    a.points@ == b.points@ && a.lines@ == b.lines@ && a.center == b.center
}

pub open spec fn scene_view_eq(a: Scene, b: Scene) -> bool {
    &&& a.polygons@.len() == b.polygons@.len()
    &&& a.next_id == b.next_id
    &&& forall|j: int|
        0 <= j < a.polygons@.len() ==> poly_view_eq(#[trigger] a.polygons@[j], b.polygons@[j])
}

/// Pass marks only accumulate during a propagation pass: an edge marked in
/// `a` is still marked in `b`.
pub open spec fn marks_monotone(a: Scene, b: Scene) -> bool {
    forall|j: int, k: int|
        valid_pl(a, j, k) && (#[trigger] line_at(a, j, k)).visited ==> line_at(b, j, k).visited
}

/// Once an edge is marked, the vertex it guards — ring vertex `k`, the far
/// endpoint of edge `k` in a forward scan — does not move again for the
/// rest of the pass.
pub open spec fn marked_far_points_stable(a: Scene, b: Scene) -> bool {
    forall|j: int, k: int|
        valid_pl(a, j, k) && (#[trigger] line_at(a, j, k)).visited ==> b.polygons@[j].points@[k]
            == a.polygons@[j].points@[k]
}

pub proof fn lemma_stability_refl(a: Scene)
    ensures
        marks_monotone(a, a),
        marked_far_points_stable(a, a),
{
}

/// A step that leaves every polygon's views unchanged moves no guarded
/// vertex and unmarks nothing.
pub proof fn lemma_view_eq_stability(a: Scene, b: Scene)
    requires
        scene_view_eq(a, b),
    ensures
        marks_monotone(a, b),
        marked_far_points_stable(a, b),
{
    assert forall|j: int, k: int|
        valid_pl(a, j, k) && (#[trigger] line_at(a, j, k)).visited implies line_at(b, j, k).visited
            && b.polygons@[j].points@[k] == a.polygons@[j].points@[k] by {
        assert(poly_view_eq(a.polygons@[j], b.polygons@[j]));
    }
}

pub proof fn lemma_monotone_trans(a: Scene, b: Scene, c: Scene)
    requires
        scene_same_shape(a, b),
        marks_monotone(a, b),
        marks_monotone(b, c),
    ensures
        marks_monotone(a, c),
{
    assert forall|j: int, k: int|
        valid_pl(a, j, k) && (#[trigger] line_at(a, j, k)).visited implies line_at(
        c,
        j,
        k,
    ).visited by {
        assert(line_at(b, j, k).visited);
        assert(valid_pl(b, j, k));
    }
}

/// Mark monotonicity and guarded-vertex stability compose across the steps
/// of a pass.
pub proof fn lemma_stability_trans(a: Scene, b: Scene, c: Scene)
    requires
        scene_same_shape(a, b),
        marks_monotone(a, b),
        marks_monotone(b, c),
        marked_far_points_stable(a, b),
        marked_far_points_stable(b, c),
    ensures
        marks_monotone(a, c),
        marked_far_points_stable(a, c),
{
    assert forall|j: int, k: int|
        valid_pl(a, j, k) && (#[trigger] line_at(a, j, k)).visited implies line_at(c, j, k).visited
            && c.polygons@[j].points@[k] == a.polygons@[j].points@[k] by {
        assert(line_at(b, j, k).visited);
        assert(poly_same_shape(a.polygons@[j], b.polygons@[j]));
        assert(valid_pl(b, j, k));
        assert(b.polygons@[j].points@[k] == a.polygons@[j].points@[k]);
        assert(c.polygons@[j].points@[k] == b.polygons@[j].points@[k]);
    }
}

/// Shape preservation carries the structural invariant across a propagation
/// pass: the id-dependent clauses read nothing that changed.
pub proof fn lemma_same_shape_struct_wf(a: Scene, b: Scene)
    requires
        scene_struct_wf(a),
        scene_same_shape(a, b),
        polys_wf(b),
    ensures
        scene_struct_wf(b),
{
    assert forall|j1: int, k1: int, j2: int, k2: int|
        valid_pl(b, j1, k1) && valid_pl(b, j2, k2) && (j1 != j2 || k1 != k2) implies (
    #[trigger] line_at(b, j1, k1)).id != (#[trigger] line_at(b, j2, k2)).id by {
        assert(poly_same_shape(a.polygons@[j1], b.polygons@[j1]));
        assert(poly_same_shape(a.polygons@[j2], b.polygons@[j2]));
        assert(line_same_shape(a.polygons@[j1].lines@[k1], b.polygons@[j1].lines@[k1]));
        assert(line_same_shape(a.polygons@[j2].lines@[k2], b.polygons@[j2].lines@[k2]));
        assert(line_at(a, j1, k1).id != line_at(a, j2, k2).id);
    }
    assert forall|j: int, k: int| valid_pl(b, j, k) implies (#[trigger] line_at(b, j, k)).id
        < b.next_id by {
        assert(poly_same_shape(a.polygons@[j], b.polygons@[j]));
        assert(line_same_shape(a.polygons@[j].lines@[k], b.polygons@[j].lines@[k]));
        assert(line_at(a, j, k).id < a.next_id);
    }
    assert forall|j: int, k: int| valid_pl(b, j, k) implies #[trigger] rel_ok_at(b, j, k) by {
        assert(poly_same_shape(a.polygons@[j], b.polygons@[j]));
        assert(line_same_shape(a.polygons@[j].lines@[k], b.polygons@[j].lines@[k]));
        assert(rel_ok_at(a, j, k));
        if line_at(b, j, k).relation is Some {
            let m = line_at(b, j, k).relation->0;
            let (j2, k2) = choose|j2: int, k2: int|
                valid_pl(a, j2, k2) && (#[trigger] line_at(a, j2, k2)).id == m && line_at(
                    a,
                    j2,
                    k2,
                ).relation == Some(line_at(a, j, k).id);
            assert(poly_same_shape(a.polygons@[j2], b.polygons@[j2]));
            assert(line_same_shape(a.polygons@[j2].lines@[k2], b.polygons@[j2].lines@[k2]));
            assert(valid_pl(b, j2, k2) && line_at(b, j2, k2).id == m && line_at(b, j2, k2).relation
                == Some(line_at(b, j, k).id));
        }
    }
}

pub proof fn lemma_view_eq_refl(a: Scene)
    ensures
        scene_view_eq(a, a),
{
    assert forall|j: int| 0 <= j < a.polygons@.len() implies poly_view_eq(
        #[trigger] a.polygons@[j],
        a.polygons@[j],
    ) by {}
}

pub proof fn lemma_same_shape_refl(a: Scene)
    ensures
        scene_same_shape(a, a),
{
    assert forall|j: int| 0 <= j < a.polygons@.len() implies poly_same_shape(
        #[trigger] a.polygons@[j],
        a.polygons@[j],
    ) by {}
}

pub proof fn lemma_same_shape_trans(a: Scene, b: Scene, c: Scene)
    requires
        scene_same_shape(a, b),
        scene_same_shape(b, c),
    ensures
        scene_same_shape(a, c),
{
    assert forall|j: int| 0 <= j < a.polygons@.len() implies poly_same_shape(
        #[trigger] a.polygons@[j],
        c.polygons@[j],
    ) by {
        assert(poly_same_shape(a.polygons@[j], b.polygons@[j]));
        assert(poly_same_shape(b.polygons@[j], c.polygons@[j]));
        let pa = a.polygons@[j];
        let pb = b.polygons@[j];
        let pc = c.polygons@[j];
        assert forall|k: int| 0 <= k < pa.points@.len() implies (#[trigger] pa.points@[k]).id
            == pc.points@[k].id by {
            assert(pa.points@[k].id == pb.points@[k].id);
            assert(pb.points@[k].id == pc.points@[k].id);
        }
        assert forall|k: int| 0 <= k < pa.lines@.len() implies line_same_shape(
            #[trigger] pa.lines@[k],
            pc.lines@[k],
        ) by {
            assert(line_same_shape(pa.lines@[k], pb.lines@[k]));
            assert(line_same_shape(pb.lines@[k], pc.lines@[k]));
        }
    }
}

/// Some line among the first `k` edges of polygon `pid` (in scene `o`)
/// relates to the line with id `id`.
pub open spec fn partner_of_prefix(o: Scene, pid: int, k: int, id: u32) -> bool {
    exists|k2: int| 0 <= k2 < k && (#[trigger] line_at(o, pid, k2)).relation == Some(id)
}

/// The state of one line slot after the first `k` edges of the polygon to
/// be destroyed have had their relations dissolved: cleared when it is one
/// of those edges or the partner of one, untouched otherwise.
pub open spec fn del_slot_ok(o: Scene, cur: Scene, pid: int, k: int, j: int, kk: int) -> bool {
    let ol = line_at(o, j, kk);
    let cl = line_at(cur, j, kk);
    if (j == pid && kk < k) || partner_of_prefix(o, pid, k, ol.id) {
        cl == (Line { relation: None::<u32>, ..ol })
    } else {
        cl == ol
    }
}

/// What polygon destruction leaves of a surviving polygon: everything as
/// before, except that a relation into the destroyed polygon is cleared.
pub open spec fn survivor_ok(o: Scene, nw: Scene, pid: int, j: int) -> bool {
    let oj = if j < pid {
        j
    } else {
        j + 1
    };
    let np2 = nw.polygons@[j];
    let op2 = o.polygons@[oj];
    let removed = o.polygons@[pid];
    &&& np2.points@ == op2.points@
    &&& np2.center == op2.center
    &&& np2.lines@.len() == op2.lines@.len()
    &&& forall|k: int|
        0 <= k < np2.lines@.len() ==> {
            let ol = op2.lines@[k];
            let nl = #[trigger] np2.lines@[k];
            if ol.relation matches Some(m) && has_line_id(removed.lines@, m) {
                nl == (Line { relation: None::<u32>, ..ol })
            } else {
                nl == ol
            }
        }
}

/// One dissolution step of polygon destruction keeps the slot
/// characterisation, now over one more prefix edge.
pub proof fn lemma_delete_clear_step(
    o: Scene,
    pre: Scene,
    cur: Scene,
    pid: int,
    k: int,
    target: u32,
    rel: Option<u32>,
)
    requires
        scene_wf(o),
        0 <= pid < o.polygons@.len(),
        0 <= k < o.polygons@[pid].lines@.len(),
        pre.polygons@.len() == o.polygons@.len(),
        forall|j: int|
            0 <= j < o.polygons@.len() ==> (#[trigger] pre.polygons@[j]).lines@.len()
                == o.polygons@[j].lines@.len(),
        forall|j: int, kk: int|
            valid_pl(o, j, kk) ==> #[trigger] del_slot_ok(o, pre, pid, k, j, kk),
        target == line_at(o, pid, k).id,
        rel == line_at(pre, pid, k).relation,
        cur.polygons@.len() == pre.polygons@.len(),
        forall|j: int|
            0 <= j < pre.polygons@.len() ==> (#[trigger] cur.polygons@[j]).lines@.len()
                == pre.polygons@[j].lines@.len(),
        forall|j: int, kk: int|
            valid_pl(pre, j, kk) ==> {
                let pl = #[trigger] line_at(pre, j, kk);
                let cl = line_at(cur, j, kk);
                if pl.id == target || (rel matches Some(m) && pl.id == m) {
                    cl == (Line { relation: None::<u32>, ..pl })
                } else {
                    cl == pl
                }
            },
    ensures
        forall|j: int, kk: int|
            valid_pl(o, j, kk) ==> #[trigger] del_slot_ok(o, cur, pid, k + 1, j, kk),
{
    assert forall|j: int, kk: int| valid_pl(o, j, kk) implies #[trigger] del_slot_ok(
        o,
        cur,
        pid,
        k + 1,
        j,
        kk,
    ) by {
        let ol = line_at(o, j, kk);
        let pl = line_at(pre, j, kk);
        let cl = line_at(cur, j, kk);
        assert(valid_pl(pre, j, kk));
        assert(del_slot_ok(o, pre, pid, k, j, kk));
        if (j == pid && kk < k) || partner_of_prefix(o, pid, k, ol.id) {
            assert(pl == (Line { relation: None::<u32>, ..ol }));
            assert(cl == pl || cl == (Line { relation: None::<u32>, ..pl }));
            assert(partner_of_prefix(o, pid, k + 1, ol.id) || (j == pid && kk < k + 1)) by {
                if !(j == pid && kk < k) {
                    let k2 = choose|k2: int|
                        0 <= k2 < k && (#[trigger] line_at(o, pid, k2)).relation == Some(ol.id);
                    assert(0 <= k2 < k + 1 && line_at(o, pid, k2).relation == Some(ol.id));
                }
            }
        } else {
            assert(pl == ol);
            if j == pid && kk == k {
                assert(pl.id == target);
                assert(cl == (Line { relation: None::<u32>, ..ol }));
            } else if rel is Some && pl.id == rel->0 {
                // This slot is the partner of edge k.
                assert(line_at(o, pid, k).relation == Some(ol.id)) by {
                    assert(del_slot_ok(o, pre, pid, k, pid, k));
                    if (pid == pid && k < k) || partner_of_prefix(o, pid, k, line_at(o, pid, k).id) {
                        assert(rel is None);
                        assert(false);
                    } else {
                        assert(line_at(pre, pid, k) == line_at(o, pid, k));
                    }
                }
                assert(cl == (Line { relation: None::<u32>, ..ol }));
                assert(partner_of_prefix(o, pid, k + 1, ol.id)) by {
                    assert(0 <= k < k + 1 && line_at(o, pid, k).relation == Some(ol.id));
                }
            } else {
                assert(cl == ol);
                if partner_of_prefix(o, pid, k + 1, ol.id) {
                    let k2 = choose|k2: int|
                        0 <= k2 < k + 1 && (#[trigger] line_at(o, pid, k2)).relation == Some(ol.id);
                    assert(k2 == k);
                    assert(line_at(o, pid, k).relation == Some(ol.id));
                    if partner_of_prefix(o, pid, k, line_at(o, pid, k).id) {
                        // Edge k was itself the partner of an earlier prefix
                        // edge; then `ol` is that earlier edge, already
                        // cleared, contradicting this branch.
                        let k2b = choose|k2b: int|
                            0 <= k2b < k && (#[trigger] line_at(o, pid, k2b)).relation == Some(
                                line_at(o, pid, k).id,
                            );
                        assert(rel_ok_at(o, pid, k2b));
                        let (wj, wk) = choose|wj: int, wk: int|
                            valid_pl(o, wj, wk) && (#[trigger] line_at(o, wj, wk)).id == line_at(
                                o,
                                pid,
                                k,
                            ).id && line_at(o, wj, wk).relation == Some(line_at(o, pid, k2b).id);
                        assert(wj == pid && wk == k) by {
                            if wj != pid || wk != k {
                                assert(line_at(o, wj, wk).id != line_at(o, pid, k).id);
                            }
                        }
                        assert(ol.id == line_at(o, pid, k2b).id);
                        assert(j == pid && kk == k2b) by {
                            if j != pid || kk != k2b {
                                assert(line_at(o, j, kk).id != line_at(o, pid, k2b).id);
                            }
                        }
                        assert(false);
                    } else {
                        assert(line_at(pre, pid, k) == line_at(o, pid, k)) by {
                            assert(del_slot_ok(o, pre, pid, k, pid, k));
                        }
                        assert(rel == Some(ol.id));
                        assert(pl.id == ol.id);
                        assert(false);
                    }
                }
            }
        }
    }
}

/// After the whole edge list of polygon `pid` has been cleared (every edge
/// and every partner of one), a slot is cleared exactly when it belongs to
/// `pid` or its relation pointed into `pid`.
pub proof fn lemma_cleared_characterize(o: Scene, mid: Scene, pid: int)
    requires
        scene_wf(o),
        0 <= pid < o.polygons@.len(),
        mid.polygons@.len() == o.polygons@.len(),
        forall|j: int|
            0 <= j < o.polygons@.len() ==> (#[trigger] mid.polygons@[j]).lines@.len()
                == o.polygons@[j].lines@.len(),
        forall|j: int, kk: int|
            valid_pl(o, j, kk) ==> #[trigger] del_slot_ok(
                o,
                mid,
                pid,
                o.polygons@[pid].lines@.len() as int,
                j,
                kk,
            ),
    ensures
        forall|kk: int|
            0 <= kk < o.polygons@[pid].lines@.len() ==> line_at(mid, pid, kk) == (Line {
                relation: None::<u32>,
                ..#[trigger] line_at(o, pid, kk)
            }),
        forall|j: int, kk: int|
            valid_pl(o, j, kk) && j != pid ==> {
                let ol = #[trigger] line_at(o, j, kk);
                let cl = line_at(mid, j, kk);
                if ol.relation matches Some(m) && has_line_id(o.polygons@[pid].lines@, m) {
                    cl == (Line { relation: None::<u32>, ..ol })
                } else {
                    cl == ol
                }
            },
{
    let nl = o.polygons@[pid].lines@.len() as int;
    let removed = o.polygons@[pid];
    assert forall|kk: int| 0 <= kk < nl implies line_at(mid, pid, kk) == (Line {
        relation: None::<u32>,
        ..#[trigger] line_at(o, pid, kk)
    }) by {
        assert(del_slot_ok(o, mid, pid, nl, pid, kk));
    }
    assert forall|j: int, kk: int| valid_pl(o, j, kk) && j != pid implies {
        let ol = #[trigger] line_at(o, j, kk);
        let cl = line_at(mid, j, kk);
        if ol.relation matches Some(m) && has_line_id(removed.lines@, m) {
            cl == (Line { relation: None::<u32>, ..ol })
        } else {
            cl == ol
        }
    } by {
        let ol = line_at(o, j, kk);
        let cl = line_at(mid, j, kk);
        assert(del_slot_ok(o, mid, pid, nl, j, kk));
        if ol.relation is Some && has_line_id(removed.lines@, ol.relation->0) {
            let m = ol.relation->0;
            let km = choose|km: int| 0 <= km < removed.lines@.len() && removed.lines@[km].id == m;
            assert(line_at(o, pid, km).id == m);
            assert(rel_ok_at(o, j, kk));
            let (wj, wk) = choose|wj: int, wk: int|
                valid_pl(o, wj, wk) && (#[trigger] line_at(o, wj, wk)).id == m && line_at(
                    o,
                    wj,
                    wk,
                ).relation == Some(ol.id);
            assert(wj == pid && wk == km) by {
                if wj != pid || wk != km {
                    assert(line_at(o, wj, wk).id != line_at(o, pid, km).id);
                }
            }
            assert(line_at(o, pid, km).relation == Some(ol.id));
            assert(partner_of_prefix(o, pid, nl, ol.id)) by {
                assert(0 <= km < nl && line_at(o, pid, km).relation == Some(ol.id));
            }
            assert(cl == (Line { relation: None::<u32>, ..ol }));
        } else {
            if partner_of_prefix(o, pid, nl, ol.id) {
                let k2 = choose|k2: int|
                    0 <= k2 < nl && (#[trigger] line_at(o, pid, k2)).relation == Some(ol.id);
                assert(rel_ok_at(o, pid, k2));
                let m2 = line_at(o, pid, k2).id;
                let (wj, wk) = choose|wj: int, wk: int|
                    valid_pl(o, wj, wk) && (#[trigger] line_at(o, wj, wk)).id == ol.id && line_at(
                        o,
                        wj,
                        wk,
                    ).relation == Some(m2);
                assert(wj == j && wk == kk) by {
                    if wj != j || wk != kk {
                        assert(line_at(o, wj, wk).id != line_at(o, j, kk).id);
                    }
                }
                assert(ol.relation == Some(m2));
                assert(has_line_id(removed.lines@, m2)) by {
                    assert(removed.lines@[k2].id == m2);
                }
                assert(false);
            }
            assert(cl == ol);
        }
    }
}

/// After every relation of the doomed polygon is dissolved, removing it
/// leaves a well-formed scene with no dangling relation.
pub proof fn lemma_delete_finish(o: Scene, cleared: Scene, nw: Scene, pid: int)
    requires
        scene_wf(o),
        scene_wf(cleared),
        0 <= pid < o.polygons@.len(),
        cleared.polygons@.len() == o.polygons@.len(),
        cleared.next_id == o.next_id,
        forall|j: int|
            0 <= j < o.polygons@.len() ==> {
                let np2 = #[trigger] cleared.polygons@[j];
                let op2 = o.polygons@[j];
                &&& np2.points@ == op2.points@
                &&& np2.center == op2.center
                &&& np2.lines@.len() == op2.lines@.len()
            },
        forall|j: int, kk: int|
            valid_pl(o, j, kk) ==> #[trigger] del_slot_ok(
                o,
                cleared,
                pid,
                o.polygons@[pid].lines@.len() as int,
                j,
                kk,
            ),
        nw.polygons@ == cleared.polygons@.remove(pid),
        nw.next_id == cleared.next_id,
    ensures
        scene_wf(nw),
        nw.polygons@.len() == o.polygons@.len() - 1,
        forall|j: int| 0 <= j < nw.polygons@.len() ==> #[trigger] survivor_ok(o, nw, pid, j),
        forall|j: int, k: int|
            valid_pl(nw, j, k) ==> ((#[trigger] line_at(nw, j, k)).relation matches Some(m)
                ==> !has_line_id(o.polygons@[pid].lines@, m)),
{
    let nl = o.polygons@[pid].lines@.len() as int;
    let removed = o.polygons@[pid];
    cleared.polygons@.remove_ensures(pid);
    // Characterise the cleared state against `o` in terms of the removed ids.
    assert forall|j: int, kk: int| valid_pl(o, j, kk) && j != pid implies {
        let cl = #[trigger] line_at(cleared, j, kk);
        let ol = line_at(o, j, kk);
        if ol.relation matches Some(m) && has_line_id(removed.lines@, m) {
            cl == (Line { relation: None::<u32>, ..ol })
        } else {
            cl == ol
        }
    } by {
        let ol = line_at(o, j, kk);
        let cl = line_at(cleared, j, kk);
        assert(del_slot_ok(o, cleared, pid, nl, j, kk));
        if ol.relation is Some && has_line_id(removed.lines@, ol.relation->0) {
            let m = ol.relation->0;
            let km = choose|km: int| 0 <= km < removed.lines@.len() && removed.lines@[km].id == m;
            assert(line_at(o, pid, km).id == m);
            assert(rel_ok_at(o, j, kk));
            let (wj, wk) = choose|wj: int, wk: int|
                valid_pl(o, wj, wk) && (#[trigger] line_at(o, wj, wk)).id == m && line_at(
                    o,
                    wj,
                    wk,
                ).relation == Some(ol.id);
            assert(wj == pid && wk == km) by {
                if wj != pid || wk != km {
                    assert(line_at(o, wj, wk).id != line_at(o, pid, km).id);
                }
            }
            assert(line_at(o, pid, km).relation == Some(ol.id));
            assert(partner_of_prefix(o, pid, nl, ol.id)) by {
                assert(0 <= km < nl && line_at(o, pid, km).relation == Some(ol.id));
            }
            assert(cl == (Line { relation: None::<u32>, ..ol }));
        } else {
            if partner_of_prefix(o, pid, nl, ol.id) {
                let k2 = choose|k2: int|
                    0 <= k2 < nl && (#[trigger] line_at(o, pid, k2)).relation == Some(ol.id);
                assert(rel_ok_at(o, pid, k2));
                let m2 = line_at(o, pid, k2).id;
                let (wj, wk) = choose|wj: int, wk: int|
                    valid_pl(o, wj, wk) && (#[trigger] line_at(o, wj, wk)).id == ol.id && line_at(
                        o,
                        wj,
                        wk,
                    ).relation == Some(m2);
                assert(wj == j && wk == kk) by {
                    if wj != j || wk != kk {
                        assert(line_at(o, wj, wk).id != line_at(o, j, kk).id);
                    }
                }
                assert(ol.relation == Some(m2));
                assert(has_line_id(removed.lines@, m2)) by {
                    assert(removed.lines@[k2].id == m2);
                }
                assert(false);
            }
            assert(cl == ol);
        }
    }
    // Index mapping through the removal.
    assert forall|j: int| 0 <= j < nw.polygons@.len() implies #[trigger] nw.polygons@[j]
        == cleared.polygons@[if j < pid {
        j
    } else {
        j + 1
    }] by {}
    assert forall|j: int| 0 <= j < nw.polygons@.len() implies polygon_wf(
        #[trigger] nw.polygons@[j],
    ) by {
        let oj = if j < pid {
            j
        } else {
            j + 1
        };
        assert(polygon_wf(cleared.polygons@[oj]));
    }
    assert forall|j1: int, k1: int, j2: int, k2: int|
        valid_pl(nw, j1, k1) && valid_pl(nw, j2, k2) && (j1 != j2 || k1 != k2) implies (
    #[trigger] line_at(nw, j1, k1)).id != (#[trigger] line_at(nw, j2, k2)).id by {
        let oj1 = if j1 < pid {
            j1
        } else {
            j1 + 1
        };
        let oj2 = if j2 < pid {
            j2
        } else {
            j2 + 1
        };
        assert(valid_pl(cleared, oj1, k1) && valid_pl(cleared, oj2, k2));
        assert(line_at(nw, j1, k1) == line_at(cleared, oj1, k1));
        assert(line_at(nw, j2, k2) == line_at(cleared, oj2, k2));
        assert(line_at(cleared, oj1, k1).id != line_at(cleared, oj2, k2).id);
    }
    assert forall|j: int, k2: int| valid_pl(nw, j, k2) implies (#[trigger] line_at(
        nw,
        j,
        k2,
    )).id < nw.next_id by {
        let oj = if j < pid {
            j
        } else {
            j + 1
        };
        assert(valid_pl(cleared, oj, k2));
        assert(line_at(nw, j, k2) == line_at(cleared, oj, k2));
        assert(line_at(cleared, oj, k2).id < cleared.next_id);
    }
    assert forall|j: int, k2: int| valid_pl(nw, j, k2) implies #[trigger] rel_ok_at(nw, j, k2) by {
        let oj = if j < pid {
            j
        } else {
            j + 1
        };
        assert(valid_pl(cleared, oj, k2));
        assert(line_at(nw, j, k2) == line_at(cleared, oj, k2));
        if line_at(nw, j, k2).relation is Some {
            let m = line_at(nw, j, k2).relation->0;
            assert(rel_ok_at(cleared, oj, k2));
            let (wj, wk) = choose|wj: int, wk: int|
                valid_pl(cleared, wj, wk) && (#[trigger] line_at(cleared, wj, wk)).id == m
                    && line_at(cleared, wj, wk).relation == Some(line_at(nw, j, k2).id);
            // No line of the destroyed polygon still carries a relation.
            assert(wj != pid) by {
                if wj == pid {
                    assert(valid_pl(o, wj, wk));
                    assert(del_slot_ok(o, cleared, pid, nl, wj, wk));
                    assert(line_at(cleared, wj, wk).relation is None);
                }
            }
            let nwj = if wj < pid {
                wj
            } else {
                wj - 1
            };
            assert(line_at(nw, nwj, wk) == line_at(cleared, wj, wk));
            assert(valid_pl(nw, nwj, wk));
            assert(has_partner(nw, m, line_at(nw, j, k2).id));
        }
    }
    assert forall|j: int, k2: int| valid_pl(nw, j, k2) implies !(#[trigger] line_at(
        nw,
        j,
        k2,
    )).visited by {
        let oj = if j < pid {
            j
        } else {
            j + 1
        };
        assert(valid_pl(cleared, oj, k2));
        assert(line_at(nw, j, k2) == line_at(cleared, oj, k2));
        assert(!line_at(cleared, oj, k2).visited);
    }
    assert forall|j: int| 0 <= j < nw.polygons@.len() implies polygon_centered(
        #[trigger] nw.polygons@[j],
    ) && polygon_settled(nw.polygons@[j]) by {
        let oj = if j < pid {
            j
        } else {
            j + 1
        };
        assert(polygon_centered(cleared.polygons@[oj]) && polygon_settled(cleared.polygons@[oj]));
    }
    assert forall|j: int| 0 <= j < nw.polygons@.len() implies #[trigger] survivor_ok(
        o,
        nw,
        pid,
        j,
    ) by {
        let oj = if j < pid {
            j
        } else {
            j + 1
        };
        assert(nw.polygons@[j] == cleared.polygons@[oj]);
        assert forall|k: int| 0 <= k < nw.polygons@[j].lines@.len() implies {
            let ol = o.polygons@[oj].lines@[k];
            let nl2 = #[trigger] nw.polygons@[j].lines@[k];
            if ol.relation matches Some(m) && has_line_id(removed.lines@, m) {
                nl2 == (Line { relation: None::<u32>, ..ol })
            } else {
                nl2 == ol
            }
        } by {
            assert(valid_pl(o, oj, k));
            assert(oj != pid);
            assert(valid_pl(cleared, oj, k));
            assert(line_at(cleared, oj, k) == nw.polygons@[j].lines@[k]);
            assert(line_at(o, oj, k) == o.polygons@[oj].lines@[k]);
        }
    }
    assert forall|j: int, k2: int| valid_pl(nw, j, k2) implies ((#[trigger] line_at(
        nw,
        j,
        k2,
    )).relation matches Some(m) ==> !has_line_id(removed.lines@, m)) by {
        let oj = if j < pid {
            j
        } else {
            j + 1
        };
        assert(valid_pl(cleared, oj, k2));
        assert(line_at(nw, j, k2) == line_at(cleared, oj, k2));
        if line_at(nw, j, k2).relation is Some {
            let m = line_at(nw, j, k2).relation->0;
            assert(valid_pl(o, oj, k2));
            let ol = line_at(o, oj, k2);
            if ol.relation is Some && has_line_id(removed.lines@, ol.relation->0) {
                assert(line_at(cleared, oj, k2).relation is None);
                assert(false);
            }
            assert(line_at(cleared, oj, k2) == ol);
            assert(!has_line_id(removed.lines@, m));
        }
    }
}

/// Splitting edge `kl` of a well-formed polygon at a fresh midpoint vertex
/// keeps the polygon well formed and settled: the inserted vertex slides
/// into the ring exactly where the replaced edge was.
pub proof fn lemma_polygon_wf_after_split(
    op: Polygon,
    np: Polygon,
    kl: int,
    l1: Line,
    l2: Line,
    newpt: Point,
)
    requires
        polygon_wf(op),
        polygon_settled(op),
        0 <= kl < op.lines@.len(),
        point_ok(newpt),
        forall|i: int| 0 <= i < op.points@.len() ==> (#[trigger] op.points@[i]).id != newpt.id,
        np.points@ == op.points@.insert(kl, newpt),
        np.lines@ == op.lines@.update(kl, l1).insert(kl + 1, l2),
        cords_ok(np.center),
        l1.points == (op.lines@[kl].points.0, newpt.id),
        l2.points == (newpt.id, op.lines@[kl].points.1),
        l1.length == length_of(
            op.points@[ring_prev(op.points@.len() as int, kl)].x as int,
            op.points@[ring_prev(op.points@.len() as int, kl)].y as int,
            newpt.x as int,
            newpt.y as int,
        ),
        l2.length == length_of(
            newpt.x as int,
            newpt.y as int,
            op.points@[kl].x as int,
            op.points@[kl].y as int,
        ),
        line_ok(l1),
        line_ok(l2),
    ensures
        polygon_wf(np),
        polygon_settled(np),
        np.points@.len() == op.points@.len() + 1,
        np.lines@.len() == op.lines@.len() + 1,
        forall|i: int|
            0 <= i < np.points@.len() ==> #[trigger] np.points@[i] == (if i < kl {
                op.points@[i]
            } else if i == kl {
                newpt
            } else {
                op.points@[i - 1]
            }),
        forall|i: int|
            0 <= i < np.lines@.len() ==> #[trigger] np.lines@[i] == (if i < kl {
                op.lines@[i]
            } else if i == kl {
                l1
            } else if i == kl + 1 {
                l2
            } else {
                op.lines@[i - 1]
            }),
{
    let n = op.points@.len() as int;
    op.points@.insert_ensures(kl, newpt);
    op.lines@.update(kl, l1).insert_ensures(kl + 1, l2);
    assert forall|i: int| 0 <= i < np.points@.len() implies #[trigger] np.points@[i] == (if i
        < kl {
        op.points@[i]
    } else if i == kl {
        newpt
    } else {
        op.points@[i - 1]
    }) by {}
    assert forall|i: int| 0 <= i < np.lines@.len() implies #[trigger] np.lines@[i] == (if i < kl {
        op.lines@[i]
    } else if i == kl {
        l1
    } else if i == kl + 1 {
        l2
    } else {
        op.lines@[i - 1]
    }) by {
        if i < kl {
            assert(np.lines@[i] == op.lines@.update(kl, l1)[i]);
        } else if i == kl {
            assert(np.lines@[i] == op.lines@.update(kl, l1)[i]);
        } else if i > kl + 1 {
            assert(np.lines@[i] == op.lines@.update(kl, l1)[i - 1]);
        }
    }
    // Distinct vertex ids.
    assert forall|x: int, y: int|
        0 <= x < y < np.points@.len() implies (#[trigger] np.points@[x]).id != (
    #[trigger] np.points@[y]).id by {
        let ox = if x < kl {
            x
        } else {
            x - 1
        };
        let oy = if y < kl {
            y
        } else {
            y - 1
        };
        if x != kl && y != kl {
            assert(op.points@[ox].id != op.points@[oy].id);
        }
    }
    // Every edge still connects its ring neighbours.
    assert forall|i: int| 0 <= i < np.lines@.len() implies (#[trigger] np.lines@[i]).points == (
        ring_a(np.points@, i),
        ring_b(np.points@, i),
    ) by {
        let nn = np.points@.len() as int;
        if i < kl {
            assert(op.lines@[i].points == (ring_a(op.points@, i), ring_b(op.points@, i)));
            if i == 0 {
                // kl > 0 here, so the last vertex is the old last vertex.
                assert(np.points@[nn - 1] == op.points@[n - 1]);
            }
        } else if i == kl {
            assert(op.lines@[kl].points == (ring_a(op.points@, kl), ring_b(op.points@, kl)));
            if kl == 0 {
                assert(np.points@[nn - 1] == op.points@[n - 1]);
            }
        } else if i == kl + 1 {
            assert(np.points@[kl] == newpt);
            assert(np.points@[kl + 1] == op.points@[kl]);
        } else {
            assert(op.lines@[i - 1].points == (ring_a(op.points@, i - 1), ring_b(
                op.points@,
                i - 1,
            )));
        }
    }
    assert forall|i: int| 0 <= i < np.lines@.len() implies line_ok(#[trigger] np.lines@[i]) by {
        if i != kl && i != kl + 1 {
            let oi = if i < kl {
                i
            } else {
                i - 1
            };
            assert(line_ok(op.lines@[oi]));
        }
    }
    assert forall|i: int| 0 <= i < np.points@.len() implies point_ok(#[trigger] np.points@[i]) by {
        if i != kl {
            let oi = if i < kl {
                i
            } else {
                i - 1
            };
            assert(point_ok(op.points@[oi]));
        }
    }
    // Settled: old edges keep their endpoints' coordinates; the two new
    // edges carry their measured lengths by construction.
    assert forall|i: int| 0 <= i < np.lines@.len() implies (#[trigger] np.lines@[i]).length
        == measured_len(np, i) by {
        let nn = np.points@.len() as int;
        if i < kl {
            assert(op.lines@[i].length == measured_len(op, i));
            if i == 0 {
                assert(np.points@[nn - 1] == op.points@[n - 1]);
            }
        } else if i == kl {
            if kl == 0 {
                assert(np.points@[nn - 1] == op.points@[n - 1]);
            }
        } else if i == kl + 1 {
        } else {
            assert(op.lines@[i - 1].length == measured_len(op, i - 1));
        }
    }
}

/// Replacing one edge of a well-formed scene's polygon by the two halves of
/// a split, around a fresh midpoint vertex, keeps the whole scene well
/// formed, provided the replaced edge ended the clearing pass unrelated.
pub proof fn lemma_split_finish(
    mid: Scene,
    nw: Scene,
    pid: int,
    kl: int,
    l1: Line,
    l2: Line,
    newpt: Point,
)
    requires
        scene_wf(mid),
        0 <= pid < mid.polygons@.len(),
        0 <= kl < mid.polygons@[pid].lines@.len(),
        line_at(mid, pid, kl).relation is None,
        point_ok(newpt),
        forall|i: int|
            0 <= i < mid.polygons@[pid].points@.len() ==> (#[trigger] mid.polygons@[pid].points@[i]).id
                != newpt.id,
        nw.polygons@.len() == mid.polygons@.len(),
        nw.next_id as int == mid.next_id as int + 2,
        forall|j: int| 0 <= j < mid.polygons@.len() && j != pid ==> #[trigger] nw.polygons@[j]
            == mid.polygons@[j],
        nw.polygons@[pid].points@ == mid.polygons@[pid].points@.insert(kl, newpt),
        nw.polygons@[pid].lines@ == mid.polygons@[pid].lines@.update(kl, l1).insert(kl + 1, l2),
        cords_ok(nw.polygons@[pid].center),
        polygon_centered(nw.polygons@[pid]),
        l1.points == (mid.polygons@[pid].lines@[kl].points.0, newpt.id),
        l2.points == (newpt.id, mid.polygons@[pid].lines@[kl].points.1),
        l1.id == mid.next_id,
        l2.id as int == mid.next_id as int + 1,
        l1.relation is None,
        l2.relation is None,
        !l1.visited,
        !l2.visited,
        l1.length == length_of(
            mid.polygons@[pid].points@[ring_prev(mid.polygons@[pid].points@.len() as int, kl)].x as int,
            mid.polygons@[pid].points@[ring_prev(mid.polygons@[pid].points@.len() as int, kl)].y as int,
            newpt.x as int,
            newpt.y as int,
        ),
        l2.length == length_of(
            newpt.x as int,
            newpt.y as int,
            mid.polygons@[pid].points@[kl].x as int,
            mid.polygons@[pid].points@[kl].y as int,
        ),
        line_ok(l1),
        line_ok(l2),
    ensures
        scene_wf(nw),
        nw.polygons@[pid].lines@.len() == mid.polygons@[pid].lines@.len() + 1,
        forall|i: int|
            0 <= i < nw.polygons@[pid].lines@.len() ==> #[trigger] nw.polygons@[pid].lines@[i] == (
            if i < kl {
                mid.polygons@[pid].lines@[i]
            } else if i == kl {
                l1
            } else if i == kl + 1 {
                l2
            } else {
                mid.polygons@[pid].lines@[i - 1]
            }),
{
    let op = mid.polygons@[pid];
    let np = nw.polygons@[pid];
    assert(polygon_wf(op));
    assert(polygon_settled(op));
    lemma_polygon_wf_after_split(op, np, kl, l1, l2, newpt);
    assert forall|j: int| 0 <= j < nw.polygons@.len() implies polygon_wf(
        #[trigger] nw.polygons@[j],
    ) by {
        if j != pid {
            assert(nw.polygons@[j] == mid.polygons@[j]);
            assert(polygon_wf(mid.polygons@[j]));
        }
    }
    assert forall|j1: int, k1: int, j2: int, k2: int|
        valid_pl(nw, j1, k1) && valid_pl(nw, j2, k2) && (j1 != j2 || k1 != k2) implies (
    #[trigger] line_at(nw, j1, k1)).id != (#[trigger] line_at(nw, j2, k2)).id by {
        let id1 = line_at(nw, j1, k1).id;
        let id2 = line_at(nw, j2, k2).id;
        if (j1 != pid || (k1 != kl && k1 != kl + 1)) && (j2 != pid || (k2 != kl && k2 != kl + 1)) {
            let ok1 = if j1 != pid || k1 < kl {
                k1
            } else {
                k1 - 1
            };
            let ok2 = if j2 != pid || k2 < kl {
                k2
            } else {
                k2 - 1
            };
            assert(valid_pl(mid, j1, ok1) && valid_pl(mid, j2, ok2));
            assert(id1 == line_at(mid, j1, ok1).id);
            assert(id2 == line_at(mid, j2, ok2).id);
            if j1 == j2 && ok1 == ok2 {
                assert(false);
            }
            assert(line_at(mid, j1, ok1).id != line_at(mid, j2, ok2).id);
        } else if (j1 == pid && (k1 == kl || k1 == kl + 1)) && (j2 == pid && (k2 == kl || k2 == kl
            + 1)) {
            assert(id1 != id2);
        } else if j1 == pid && (k1 == kl || k1 == kl + 1) {
            let ok2 = if j2 != pid || k2 < kl {
                k2
            } else {
                k2 - 1
            };
            assert(valid_pl(mid, j2, ok2));
            assert(id2 == line_at(mid, j2, ok2).id);
            assert(line_at(mid, j2, ok2).id < mid.next_id);
        } else {
            let ok1 = if j1 != pid || k1 < kl {
                k1
            } else {
                k1 - 1
            };
            assert(valid_pl(mid, j1, ok1));
            assert(id1 == line_at(mid, j1, ok1).id);
            assert(line_at(mid, j1, ok1).id < mid.next_id);
        }
    }
    assert forall|j: int, k: int| valid_pl(nw, j, k) implies (#[trigger] line_at(nw, j, k)).id
        < nw.next_id by {
        if j == pid && (k == kl || k == kl + 1) {
        } else {
            let ok = if j != pid || k < kl {
                k
            } else {
                k - 1
            };
            assert(valid_pl(mid, j, ok));
            assert(line_at(nw, j, k).id == line_at(mid, j, ok).id);
            assert(line_at(mid, j, ok).id < mid.next_id);
        }
    }
    assert forall|j: int, k: int| valid_pl(nw, j, k) implies #[trigger] rel_ok_at(nw, j, k) by {
        if j == pid && (k == kl || k == kl + 1) {
            assert(line_at(nw, j, k).relation is None);
        } else {
            let ok = if j != pid || k < kl {
                k
            } else {
                k - 1
            };
            assert(valid_pl(mid, j, ok));
            assert(line_at(nw, j, k) == line_at(mid, j, ok));
            assert(rel_ok_at(mid, j, ok));
            if line_at(nw, j, k).relation is Some {
                let m = line_at(nw, j, k).relation->0;
                let (wj, wk) = choose|wj: int, wk: int|
                    valid_pl(mid, wj, wk) && (#[trigger] line_at(mid, wj, wk)).id == m && line_at(
                        mid,
                        wj,
                        wk,
                    ).relation == Some(line_at(mid, j, ok).id);
                assert(!(wj == pid && wk == kl)) by {
                    if wj == pid && wk == kl {
                        assert(line_at(mid, pid, kl).relation is None);
                    }
                }
                let nk = if wj != pid || wk < kl {
                    wk
                } else {
                    wk + 1
                };
                assert(line_at(nw, wj, nk) == line_at(mid, wj, wk));
                assert(valid_pl(nw, wj, nk));
                assert(has_partner(nw, m, line_at(nw, j, k).id));
            }
        }
    }
    assert forall|j: int, k: int| valid_pl(nw, j, k) implies !(#[trigger] line_at(
        nw,
        j,
        k,
    )).visited by {
        if j == pid && (k == kl || k == kl + 1) {
        } else {
            let ok = if j != pid || k < kl {
                k
            } else {
                k - 1
            };
            assert(valid_pl(mid, j, ok));
            assert(line_at(nw, j, k) == line_at(mid, j, ok));
            assert(!line_at(mid, j, ok).visited);
        }
    }
    assert forall|j: int| 0 <= j < nw.polygons@.len() implies polygon_centered(
        #[trigger] nw.polygons@[j],
    ) && polygon_settled(nw.polygons@[j]) by {
        if j != pid {
            assert(nw.polygons@[j] == mid.polygons@[j]);
            assert(polygon_centered(mid.polygons@[j]) && polygon_settled(mid.polygons@[j]));
        }
    }
}

/// What edge `j` of the regenerated ring looks like after vertex `kp` was
/// removed: the merged edge bridging the removed vertex's neighbours is
/// fresh, every other edge keeps the id (and, in preserve mode, the
/// relation) of the surviving edge it stands for.
pub open spec fn removed_line_ok_partial(
    op: Polygon,
    npts: Seq<Point>,
    nls: Seq<Line>,
    kp: int,
    first_id: u32,
    preserve: bool,
    j: int,
) -> bool {
    let n = op.points@.len() as int;
    let merged_idx = if kp == n - 1 {
        0int
    } else {
        kp
    };
    if j == merged_idx {
        &&& crate::utils::line_matches_ring(npts, nls[j], j)
        &&& !nls[j].is_const
        &&& nls[j].relation is None
        &&& nls[j].id == first_id
    } else {
        let oi = if j < kp {
            j
        } else {
            j + 1
        };
        let ol = op.lines@[oi];
        &&& crate::utils::line_matches_ring(npts, nls[j], j)
        &&& !nls[j].is_const
        &&& nls[j].id == ol.id
        &&& nls[j].relation == (if preserve {
            ol.relation
        } else {
            None::<u32>
        })
    }
}

pub open spec fn removed_line_ok(
    op: Polygon,
    np: Polygon,
    kp: int,
    first_id: u32,
    preserve: bool,
    j: int,
) -> bool {
    removed_line_ok_partial(op, np.points@, np.lines@, kp, first_id, preserve, j)
}

/// Which slots the dissolution phase of a vertex removal clears: with
/// preservation, the two edges at the removed vertex and their partners;
/// without it, every edge of the polygon and every partner of one.
pub open spec fn removal_dropped(
    o: Scene,
    pid: int,
    kp: int,
    adj2i: int,
    preserve: bool,
    j2: int,
    k2: int,
) -> bool {
    let ol = line_at(o, j2, k2);
    let id_a = line_at(o, pid, kp).id;
    let id_b = line_at(o, pid, adj2i).id;
    let rel_a = line_at(o, pid, kp).relation;
    let rel_b = line_at(o, pid, adj2i).relation;
    if preserve {
        ol.id == id_a || ol.id == id_b || (rel_a matches Some(m) && ol.id == m) || (rel_b
            matches Some(mb) && ol.id == mb)
    } else {
        j2 == pid || (ol.relation matches Some(m) && has_line_id(o.polygons@[pid].lines@, m))
    }
}

/// Two relation dissolutions — the two edges at a vertex about to be
/// removed — compose into the preserve-mode dropped-set characterisation.
pub proof fn lemma_two_clears_compose(
    o: Scene,
    m1: Scene,
    m2: Scene,
    pid: int,
    kp: int,
    adj2i: int,
)
    requires
        scene_wf(o),
        0 <= pid < o.polygons@.len(),
        o.polygons@[pid].points@.len() >= 4,
        0 <= kp < o.polygons@[pid].points@.len(),
        o.polygons@[pid].lines@.len() == o.polygons@[pid].points@.len(),
        adj2i == (if kp + 1 == o.polygons@[pid].points@.len() {
            0int
        } else {
            kp + 1
        }),
        m1.polygons@.len() == o.polygons@.len(),
        forall|j2: int|
            0 <= j2 < o.polygons@.len() ==> (#[trigger] m1.polygons@[j2]).lines@.len()
                == o.polygons@[j2].lines@.len(),
        forall|j2: int, k2: int|
            valid_pl(o, j2, k2) ==> {
                let ol = #[trigger] line_at(o, j2, k2);
                let pl = line_at(m1, j2, k2);
                if ol.id == line_at(o, pid, kp).id || (line_at(o, pid, kp).relation matches Some(
                    m,
                ) && ol.id == m) {
                    pl == (Line { relation: None::<u32>, ..ol })
                } else {
                    pl == ol
                }
            },
        m2.polygons@.len() == m1.polygons@.len(),
        forall|j2: int|
            0 <= j2 < m1.polygons@.len() ==> (#[trigger] m2.polygons@[j2]).lines@.len()
                == m1.polygons@[j2].lines@.len(),
        forall|j2: int, k2: int|
            valid_pl(m1, j2, k2) ==> {
                let pl = #[trigger] line_at(m1, j2, k2);
                let cl = line_at(m2, j2, k2);
                if pl.id == line_at(o, pid, adj2i).id || (line_at(
                    m1,
                    pid,
                    adj2i,
                ).relation matches Some(m) && pl.id == m) {
                    cl == (Line { relation: None::<u32>, ..pl })
                } else {
                    cl == pl
                }
            },
    ensures
        forall|j2: int, k2: int|
            valid_pl(o, j2, k2) ==> line_at(m2, j2, k2) == (if #[trigger] removal_dropped(
                o,
                pid,
                kp,
                adj2i,
                true,
                j2,
                k2,
            ) {
                (Line { relation: None::<u32>, ..line_at(o, j2, k2) })
            } else {
                line_at(o, j2, k2)
            }),
        line_at(m2, pid, kp).relation is None,
        line_at(m2, pid, adj2i).relation is None,
{
    let id_a = line_at(o, pid, kp).id;
    let id_b = line_at(o, pid, adj2i).id;
    let rel_a = line_at(o, pid, kp).relation;
    let rel_b = line_at(o, pid, adj2i).relation;
    assert(polygon_wf(o.polygons@[pid]));
    assert(kp != adj2i);
    assert(valid_pl(o, pid, kp) && valid_pl(o, pid, adj2i));
    assert(id_a != id_b) by {
        assert(line_at(o, pid, kp).id != line_at(o, pid, adj2i).id);
    }
    // What the second dissolution started from.
    let rel2 = line_at(m1, pid, adj2i).relation;
    assert(rel2 == (if rel_a == Some(id_b) {
        None::<u32>
    } else {
        rel_b
    })) by {
        let ol = line_at(o, pid, adj2i);
        let pl = line_at(m1, pid, adj2i);
        if ol.id == id_a || (rel_a matches Some(m) && ol.id == m) {
            assert(pl == (Line { relation: None::<u32>, ..ol }));
            assert(rel_a == Some(id_b));
        } else {
            assert(pl == ol);
        }
    }
    // If the two adjacent edges were related to each other, mutuality says
    // so on both sides.
    if rel_a == Some(id_b) {
        assert(rel_ok_at(o, pid, kp));
        let (wj, wk) = choose|wj: int, wk: int|
            valid_pl(o, wj, wk) && (#[trigger] line_at(o, wj, wk)).id == id_b && line_at(
                o,
                wj,
                wk,
            ).relation == Some(id_a);
        assert(wj == pid && wk == adj2i) by {
            if wj != pid || wk != adj2i {
                assert(line_at(o, wj, wk).id != line_at(o, pid, adj2i).id);
            }
        }
        assert(rel_b == Some(id_a));
    }
    assert forall|j2: int, k2: int| valid_pl(o, j2, k2) implies line_at(m2, j2, k2) == (
    if #[trigger] removal_dropped(o, pid, kp, adj2i, true, j2, k2) {
        (Line { relation: None::<u32>, ..line_at(o, j2, k2) })
    } else {
        line_at(o, j2, k2)
    }) by {
        assert(valid_pl(m1, j2, k2));
        let ol = line_at(o, j2, k2);
        let pl = line_at(m1, j2, k2);
        let cl = line_at(m2, j2, k2);
        if ol.id == id_a || (rel_a matches Some(m) && ol.id == m) {
            assert(pl == (Line { relation: None::<u32>, ..ol }));
            assert(cl == pl || cl == (Line { relation: None::<u32>, ..pl }));
            assert(cl == (Line { relation: None::<u32>, ..ol }));
        } else if ol.id == id_b {
            assert(pl == ol);
            assert(cl == (Line { relation: None::<u32>, ..ol }));
        } else if rel_b matches Some(mb) && ol.id == mb {
            assert(!(rel_a == Some(id_b)));
            assert(rel2 == rel_b);
            assert(pl == ol);
            assert(cl == (Line { relation: None::<u32>, ..ol }));
        } else {
            assert(pl == ol);
            if rel2 is Some && pl.id == rel2->0 {
                assert(rel2 == rel_b);
                assert(false);
            }
            assert(cl == ol);
        }
    }
    assert(line_at(m2, pid, kp).relation is None) by {
        assert(removal_dropped(o, pid, kp, adj2i, true, pid, kp));
    }
    assert(line_at(m2, pid, adj2i).relation is None) by {
        assert(removal_dropped(o, pid, kp, adj2i, true, pid, adj2i));
    }
}

/// Carry the dissolution characterisation and the regenerated ring through
/// to the contract of a vertex removal, stated over the entry scene.
pub proof fn lemma_remove_glue(
    o: Scene,
    mid: Scene,
    nw: Scene,
    pid: int,
    kp: int,
    adj2i: int,
    first_id: u32,
    preserve: bool,
)
    requires
        scene_wf(o),
        0 <= pid < o.polygons@.len(),
        o.polygons@[pid].points@.len() >= 4,
        0 <= kp < o.polygons@[pid].points@.len(),
        adj2i == (if kp + 1 == o.polygons@[pid].points@.len() {
            0int
        } else {
            kp + 1
        }),
        mid.polygons@.len() == o.polygons@.len(),
        forall|j2: int|
            0 <= j2 < o.polygons@.len() ==> {
                let np2 = #[trigger] mid.polygons@[j2];
                let op2 = o.polygons@[j2];
                &&& np2.points@ == op2.points@
                &&& np2.lines@.len() == op2.lines@.len()
            },
        forall|j2: int, k2: int|
            valid_pl(o, j2, k2) ==> line_at(mid, j2, k2) == (
            if #[trigger] removal_dropped(o, pid, kp, adj2i, preserve, j2, k2) {
                (Line { relation: None::<u32>, ..line_at(o, j2, k2) })
            } else {
                line_at(o, j2, k2)
            }),
        nw.polygons@.len() == mid.polygons@.len(),
        forall|j2: int| 0 <= j2 < mid.polygons@.len() && j2 != pid ==> #[trigger] nw.polygons@[j2]
            == mid.polygons@[j2],
        nw.polygons@[pid].lines@.len() == o.polygons@[pid].points@.len() - 1,
        forall|i: int|
            0 <= i < nw.polygons@[pid].lines@.len() ==> #[trigger] removed_line_ok(
                mid.polygons@[pid],
                nw.polygons@[pid],
                kp,
                first_id,
                preserve,
                i,
            ),
    ensures
        forall|j2: int|
            0 <= j2 < o.polygons@.len() && j2 != pid ==> {
                let np2 = #[trigger] nw.polygons@[j2];
                let op2 = o.polygons@[j2];
                &&& np2.points@ == op2.points@
                &&& np2.lines@.len() == op2.lines@.len()
                &&& forall|k: int|
                    0 <= k < np2.lines@.len() ==> {
                        let ol = op2.lines@[k];
                        let nl = #[trigger] np2.lines@[k];
                        let dropped = if preserve {
                            (line_at(o, pid, kp).relation matches Some(m) && ol.id == m) || (
                            line_at(o, pid, adj2i).relation matches Some(mb) && ol.id == mb)
                        } else {
                            ol.relation matches Some(m) && has_line_id(
                                o.polygons@[pid].lines@,
                                m,
                            )
                        };
                        nl == (if dropped {
                            (Line { relation: None::<u32>, ..ol })
                        } else {
                            ol
                        })
                    }
            },
        forall|i: int|
            0 <= i < nw.polygons@[pid].lines@.len() ==> {
                let merged2 = if kp == o.polygons@[pid].points@.len() - 1 {
                    0int
                } else {
                    kp
                };
                let oi = if i < kp {
                    i
                } else {
                    i + 1
                };
                let ol = o.polygons@[pid].lines@[oi];
                &&& crate::utils::line_matches_ring(
                    nw.polygons@[pid].points@,
                    #[trigger] nw.polygons@[pid].lines@[i],
                    i,
                )
                &&& !nw.polygons@[pid].lines@[i].is_const
                &&& (i == merged2 ==> nw.polygons@[pid].lines@[i].relation is None
                    && nw.polygons@[pid].lines@[i].id == first_id)
                &&& (i != merged2 ==> nw.polygons@[pid].lines@[i].id == ol.id
                    && nw.polygons@[pid].lines@[i].relation == (if preserve {
                    if (line_at(o, pid, kp).relation matches Some(m) && ol.id == m) || (line_at(
                        o,
                        pid,
                        adj2i,
                    ).relation matches Some(mb) && ol.id == mb) {
                        None::<u32>
                    } else {
                        ol.relation
                    }
                } else {
                    None::<u32>
                }))
            },
{
    let p = o.polygons@[pid];
    let np = nw.polygons@[pid];
    let n = p.points@.len() as int;
    let id_a = line_at(o, pid, kp).id;
    let id_b = line_at(o, pid, adj2i).id;
    let rel_a = line_at(o, pid, kp).relation;
    let rel_b = line_at(o, pid, adj2i).relation;
    assert(polygon_wf(p));
    assert forall|j2: int| 0 <= j2 < o.polygons@.len() && j2 != pid implies {
        let np2 = #[trigger] nw.polygons@[j2];
        let op2 = o.polygons@[j2];
        &&& np2.points@ == op2.points@
        &&& np2.lines@.len() == op2.lines@.len()
        &&& forall|k: int|
            0 <= k < np2.lines@.len() ==> {
                let ol = op2.lines@[k];
                let nl = #[trigger] np2.lines@[k];
                let dropped = if preserve {
                    (rel_a matches Some(m) && ol.id == m) || (rel_b matches Some(mb) && ol.id
                        == mb)
                } else {
                    ol.relation matches Some(m) && has_line_id(o.polygons@[pid].lines@, m)
                };
                nl == (if dropped {
                    (Line { relation: None::<u32>, ..ol })
                } else {
                    ol
                })
            }
    } by {
        assert(nw.polygons@[j2] == mid.polygons@[j2]);
        assert forall|k: int|
            0 <= k < nw.polygons@[j2].lines@.len() implies {
            let ol = o.polygons@[j2].lines@[k];
            let nl = #[trigger] nw.polygons@[j2].lines@[k];
            let dropped = if preserve {
                (rel_a matches Some(m) && ol.id == m) || (rel_b matches Some(mb) && ol.id == mb)
            } else {
                ol.relation matches Some(m) && has_line_id(o.polygons@[pid].lines@, m)
            };
            nl == (if dropped {
                (Line { relation: None::<u32>, ..ol })
            } else {
                ol
            })
        } by {
            assert(valid_pl(o, j2, k));
            assert(line_at(o, j2, k) == o.polygons@[j2].lines@[k]);
            assert(line_at(mid, j2, k) == mid.polygons@[j2].lines@[k]);
            assert(nw.polygons@[j2].lines@[k] == mid.polygons@[j2].lines@[k]);
            let ol = line_at(o, j2, k);
            assert(removal_dropped(o, pid, kp, adj2i, preserve, j2, k) == (if preserve {
                ol.id == id_a || ol.id == id_b || (rel_a matches Some(m) && ol.id == m) || (
                rel_b matches Some(mb) && ol.id == mb)
            } else {
                (ol.relation matches Some(m) && has_line_id(o.polygons@[pid].lines@, m))
            }));
            if preserve {
                // A foreign slot never holds one of the polygon's own ids.
                assert(valid_pl(o, pid, kp));
                assert(valid_pl(o, pid, adj2i));
                if ol.id == id_a {
                    assert(line_at(o, j2, k).id != line_at(o, pid, kp).id);
                }
                if ol.id == id_b {
                    assert(line_at(o, j2, k).id != line_at(o, pid, adj2i).id);
                }
            }
        }
    }
    assert forall|i: int| 0 <= i < np.lines@.len() implies {
        let merged2 = if kp == p.points@.len() - 1 {
            0int
        } else {
            kp
        };
        let oi = if i < kp {
            i
        } else {
            i + 1
        };
        let ol = p.lines@[oi];
        &&& crate::utils::line_matches_ring(np.points@, #[trigger] np.lines@[i], i)
        &&& !np.lines@[i].is_const
        &&& (i == merged2 ==> np.lines@[i].relation is None && np.lines@[i].id == first_id)
        &&& (i != merged2 ==> np.lines@[i].id == ol.id && np.lines@[i].relation == (if preserve {
            if (rel_a matches Some(m) && ol.id == m) || (rel_b matches Some(mb) && ol.id == mb) {
                None::<u32>
            } else {
                ol.relation
            }
        } else {
            None::<u32>
        }))
    } by {
        assert(removed_line_ok(mid.polygons@[pid], np, kp, first_id, preserve, i));
        let merged2 = if kp == p.points@.len() - 1 {
            0int
        } else {
            kp
        };
        if i != merged2 {
            let oi = if i < kp {
                i
            } else {
                i + 1
            };
            assert(valid_pl(o, pid, oi));
            let ol = line_at(o, pid, oi);
            let ml = line_at(mid, pid, oi);
            // The surviving edge is not one of the two at the removed
            // vertex.
            assert(oi != kp && oi != adj2i);
            assert(ml == (if removal_dropped(o, pid, kp, adj2i, preserve, pid, oi) {
                (Line { relation: None::<u32>, ..ol })
            } else {
                ol
            }));
            if preserve {
                if ol.id == id_a {
                    assert(line_at(o, pid, oi).id != line_at(o, pid, kp).id);
                }
                if ol.id == id_b {
                    assert(line_at(o, pid, oi).id != line_at(o, pid, adj2i).id);
                }
            }
        }
    }
}

/// Removing a vertex and regenerating the ring by index mapping keeps the
/// whole scene well formed, provided the two edges at the removed vertex
/// (and, without preservation, all of the polygon's edges) were unrelated.
pub proof fn lemma_remove_finish(
    mid: Scene,
    nw: Scene,
    pid: int,
    kp: int,
    first_id: u32,
    preserve: bool,
)
    requires
        scene_wf(mid),
        0 <= pid < mid.polygons@.len(),
        mid.polygons@[pid].points@.len() >= 4,
        0 <= kp < mid.polygons@[pid].points@.len(),
        line_at(mid, pid, kp).relation is None,
        line_at(
            mid,
            pid,
            if kp + 1 == mid.polygons@[pid].points@.len() {
                0int
            } else {
                kp + 1
            },
        ).relation is None,
        !preserve ==> forall|kk: int|
            0 <= kk < mid.polygons@[pid].lines@.len() ==> (#[trigger] line_at(
                mid,
                pid,
                kk,
            )).relation is None,
        first_id == mid.next_id,
        nw.next_id as int == mid.next_id as int + 1,
        nw.polygons@.len() == mid.polygons@.len(),
        forall|j: int| 0 <= j < mid.polygons@.len() && j != pid ==> #[trigger] nw.polygons@[j]
            == mid.polygons@[j],
        nw.polygons@[pid].points@ == mid.polygons@[pid].points@.remove(kp),
        nw.polygons@[pid].lines@.len() == mid.polygons@[pid].points@.len() - 1,
        cords_ok(nw.polygons@[pid].center),
        polygon_centered(nw.polygons@[pid]),
        forall|j: int|
            0 <= j < nw.polygons@[pid].lines@.len() ==> #[trigger] removed_line_ok(
                mid.polygons@[pid],
                nw.polygons@[pid],
                kp,
                first_id,
                preserve,
                j,
            ),
        forall|j: int|
            0 <= j < nw.polygons@[pid].lines@.len() ==> line_ok(
                #[trigger] nw.polygons@[pid].lines@[j],
            ),
    ensures
        scene_wf(nw),
{
    let op = mid.polygons@[pid];
    let np = nw.polygons@[pid];
    let n = op.points@.len() as int;
    let merged_idx = if kp == n - 1 {
        0int
    } else {
        kp
    };
    let adj2 = if kp + 1 == n {
        0int
    } else {
        kp + 1
    };
    op.points@.remove_ensures(kp);
    assert(polygon_wf(op));
    // The shrunken polygon is well formed.
    assert forall|x: int, y: int|
        0 <= x < y < np.points@.len() implies (#[trigger] np.points@[x]).id != (
    #[trigger] np.points@[y]).id by {
        let ox = if x < kp {
            x
        } else {
            x + 1
        };
        let oy = if y < kp {
            y
        } else {
            y + 1
        };
        assert(op.points@[ox].id != op.points@[oy].id);
    }
    assert forall|i: int| 0 <= i < np.points@.len() implies point_ok(#[trigger] np.points@[i]) by {
        let oi = if i < kp {
            i
        } else {
            i + 1
        };
        assert(point_ok(op.points@[oi]));
    }
    assert forall|i: int| 0 <= i < np.lines@.len() implies (#[trigger] np.lines@[i]).points == (
        ring_a(np.points@, i),
        ring_b(np.points@, i),
    ) && line_ok(np.lines@[i]) && !np.lines@[i].visited && np.lines@[i].length == measured_len(
        np,
        i,
    ) by {
        assert(removed_line_ok(op, np, kp, first_id, preserve, i));
    }
    assert(polygon_wf(np));
    assert(polygon_settled(np));
    assert forall|j: int| 0 <= j < nw.polygons@.len() implies polygon_wf(
        #[trigger] nw.polygons@[j],
    ) by {
        if j != pid {
            assert(nw.polygons@[j] == mid.polygons@[j]);
            assert(polygon_wf(mid.polygons@[j]));
        }
    }
    // Unique, bounded ids.
    assert forall|j1: int, k1: int, j2: int, k2: int|
        valid_pl(nw, j1, k1) && valid_pl(nw, j2, k2) && (j1 != j2 || k1 != k2) implies (
    #[trigger] line_at(nw, j1, k1)).id != (#[trigger] line_at(nw, j2, k2)).id by {
        if j1 == pid && k1 < np.lines@.len() {
            assert(removed_line_ok(op, np, kp, first_id, preserve, k1));
        }
        if j2 == pid && k2 < np.lines@.len() {
            assert(removed_line_ok(op, np, kp, first_id, preserve, k2));
        }
        let ok1 = if j1 != pid {
            k1
        } else if k1 < kp {
            k1
        } else {
            k1 + 1
        };
        let ok2 = if j2 != pid {
            k2
        } else if k2 < kp {
            k2
        } else {
            k2 + 1
        };
        if (j1 != pid || k1 != merged_idx) && (j2 != pid || k2 != merged_idx) {
            assert(valid_pl(mid, j1, ok1) && valid_pl(mid, j2, ok2));
            assert(line_at(nw, j1, k1).id == line_at(mid, j1, ok1).id);
            assert(line_at(nw, j2, k2).id == line_at(mid, j2, ok2).id);
            if j1 == j2 && ok1 == ok2 {
                assert(false);
            }
            assert(line_at(mid, j1, ok1).id != line_at(mid, j2, ok2).id);
        } else if (j1 == pid && k1 == merged_idx) && (j2 == pid && k2 == merged_idx) {
            assert(false);
        } else if j1 == pid && k1 == merged_idx {
            assert(line_at(nw, j1, k1).id == first_id);
            assert(valid_pl(mid, j2, ok2));
            assert(line_at(nw, j2, k2).id == line_at(mid, j2, ok2).id);
            assert(line_at(mid, j2, ok2).id < mid.next_id);
        } else {
            assert(line_at(nw, j2, k2).id == first_id);
            assert(valid_pl(mid, j1, ok1));
            assert(line_at(nw, j1, k1).id == line_at(mid, j1, ok1).id);
            assert(line_at(mid, j1, ok1).id < mid.next_id);
        }
    }
    assert forall|j: int, k: int| valid_pl(nw, j, k) implies (#[trigger] line_at(nw, j, k)).id
        < nw.next_id by {
        if j == pid {
            assert(removed_line_ok(op, np, kp, first_id, preserve, k));
            if k != merged_idx {
                let ok = if k < kp {
                    k
                } else {
                    k + 1
                };
                assert(valid_pl(mid, pid, ok));
                assert(line_at(mid, pid, ok).id < mid.next_id);
            }
        } else {
            assert(valid_pl(mid, j, k));
            assert(line_at(mid, j, k).id < mid.next_id);
        }
    }
    // Mutual relations: every surviving relation keeps its partner.
    assert forall|j: int, k: int| valid_pl(nw, j, k) implies #[trigger] rel_ok_at(nw, j, k) by {
        let nl = line_at(nw, j, k);
        if nl.relation is Some {
            let m = nl.relation->0;
            let ok = if j != pid {
                k
            } else if k < kp {
                k
            } else {
                k + 1
            };
            if j == pid {
                assert(removed_line_ok(op, np, kp, first_id, preserve, k));
                assert(k != merged_idx);
                assert(preserve);
            }
            assert(valid_pl(mid, j, ok));
            assert(nl.id == line_at(mid, j, ok).id);
            assert(nl.relation == line_at(mid, j, ok).relation);
            assert(rel_ok_at(mid, j, ok));
            let (wj, wk) = choose|wj: int, wk: int|
                valid_pl(mid, wj, wk) && (#[trigger] line_at(mid, wj, wk)).id == m && line_at(
                    mid,
                    wj,
                    wk,
                ).relation == Some(line_at(mid, j, ok).id);
            if wj != pid {
                assert(line_at(nw, wj, wk) == line_at(mid, wj, wk));
                assert(valid_pl(nw, wj, wk));
                assert(has_partner(nw, m, nl.id));
            } else {
                // The partner sits in the same polygon: it is not one of the
                // two dropped edges (their relations were dissolved), so it
                // survives at its mapped index.
                assert(wk != kp && wk != adj2) by {
                    if wk == kp || wk == adj2 {
                        assert(line_at(mid, pid, wk).relation is None);
                    }
                }
                let nj = if wk < kp {
                    wk
                } else {
                    wk - 1
                };
                assert(0 <= nj < np.lines@.len());
                assert(nj != merged_idx);
                assert(removed_line_ok(op, np, kp, first_id, preserve, nj));
                assert(preserve);
                assert(line_at(nw, pid, nj).id == m);
                assert(line_at(nw, pid, nj).relation == Some(nl.id));
                assert(valid_pl(nw, pid, nj));
                assert(has_partner(nw, m, nl.id));
            }
        }
    }
    assert forall|j: int, k: int| valid_pl(nw, j, k) implies !(#[trigger] line_at(
        nw,
        j,
        k,
    )).visited by {
        if j == pid {
            assert(removed_line_ok(op, np, kp, first_id, preserve, k));
        } else {
            assert(valid_pl(mid, j, k));
            assert(!line_at(mid, j, k).visited);
        }
    }
    assert forall|j: int| 0 <= j < nw.polygons@.len() implies polygon_centered(
        #[trigger] nw.polygons@[j],
    ) && polygon_settled(nw.polygons@[j]) by {
        if j != pid {
            assert(nw.polygons@[j] == mid.polygons@[j]);
            assert(polygon_centered(mid.polygons@[j]) && polygon_settled(mid.polygons@[j]));
        }
    }
}

/// The first polygon (from index `j` on) that the pick at `c` hits, with
/// what was hit inside it.
pub open spec fn pick_from(ps: Seq<Polygon>, j: int, c: PointCords) -> Option<(int, PressedObject)>
    decreases ps.len() - j,
{
    if j < 0 || j >= ps.len() {
        None
    } else if hover_spec(ps[j], c) is Some {
        Some((j, hover_spec(ps[j], c)->0))
    } else {
        pick_from(ps, j + 1, c)
    }
}

/// Same entity layout and the same ids and relations everywhere: what the
/// id-dependent clauses of the scene invariant read.
pub open spec fn scene_rel_shape(a: Scene, b: Scene) -> bool {
    &&& a.polygons@.len() == b.polygons@.len()
    &&& a.next_id == b.next_id
    &&& forall|j: int|
        0 <= j < a.polygons@.len() ==> (#[trigger] a.polygons@[j]).lines@.len()
            == b.polygons@[j].lines@.len()
    &&& forall|j: int, k: int|
        valid_pl(a, j, k) ==> (#[trigger] line_at(a, j, k)).id == line_at(b, j, k).id && line_at(
            a,
            j,
            k,
        ).relation == line_at(b, j, k).relation
}

pub proof fn lemma_rel_shape_struct_wf(a: Scene, b: Scene)
    requires
        scene_struct_wf(a),
        scene_rel_shape(a, b),
        polys_wf(b),
    ensures
        scene_struct_wf(b),
{
    assert forall|j1: int, k1: int, j2: int, k2: int|
        valid_pl(b, j1, k1) && valid_pl(b, j2, k2) && (j1 != j2 || k1 != k2) implies (
    #[trigger] line_at(b, j1, k1)).id != (#[trigger] line_at(b, j2, k2)).id by {
        assert(line_at(a, j1, k1).id == line_at(b, j1, k1).id);
        assert(line_at(a, j2, k2).id == line_at(b, j2, k2).id);
        assert(line_at(a, j1, k1).id != line_at(a, j2, k2).id);
    }
    assert forall|j: int, k: int| valid_pl(b, j, k) implies (#[trigger] line_at(b, j, k)).id
        < b.next_id by {
        assert(line_at(a, j, k).id == line_at(b, j, k).id);
        assert(line_at(a, j, k).id < a.next_id);
    }
    assert forall|j: int, k: int| valid_pl(b, j, k) implies #[trigger] rel_ok_at(b, j, k) by {
        assert(line_at(a, j, k).id == line_at(b, j, k).id);
        assert(line_at(a, j, k).relation == line_at(b, j, k).relation);
        assert(rel_ok_at(a, j, k));
        if line_at(b, j, k).relation is Some {
            let m = line_at(b, j, k).relation->0;
            let (j2, k2) = choose|j2: int, k2: int|
                valid_pl(a, j2, k2) && (#[trigger] line_at(a, j2, k2)).id == m && line_at(
                    a,
                    j2,
                    k2,
                ).relation == Some(line_at(a, j, k).id);
            assert(line_at(b, j2, k2).id == m && line_at(b, j2, k2).relation == Some(line_at(
                b,
                j,
                k,
            ).id));
            assert(valid_pl(b, j2, k2));
        }
    }
}

/// Replacing one line by one that keeps its endpoint pair keeps the polygon
/// well formed.
pub proof fn lemma_polygon_wf_after_line_update(op: Polygon, np: Polygon, k: int, nl: Line)
    requires
        polygon_wf(op),
        0 <= k < op.lines@.len(),
        np.points@ == op.points@,
        np.center == op.center,
        np.lines@ == op.lines@.update(k, nl),
        nl.points == op.lines@[k].points,
        line_ok(nl),
    ensures
        polygon_wf(np),
{
    assert forall|i: int| 0 <= i < np.lines@.len() implies (#[trigger] np.lines@[i]).points == (
        ring_a(np.points@, i),
        ring_b(np.points@, i),
    ) by {
        assert(op.lines@[i].points == (ring_a(op.points@, i), ring_b(op.points@, i)));
    }
    assert forall|i: int| 0 <= i < np.lines@.len() implies line_ok(#[trigger] np.lines@[i]) by {
        assert(line_ok(op.lines@[i]));
    }
}

/// First polygon owning a line with id `id`, or -1.
pub open spec fn poly_match_idx(ps: Seq<Polygon>, id: u32) -> int
    decreases ps.len(),
{
    if ps.len() == 0 {
        -1
    } else if has_line_id(ps[0].lines@, id) {
        0
    } else {
        let r = poly_match_idx(ps.subrange(1, ps.len() as int), id);
        if r == -1 {
            -1
        } else {
            r + 1
        }
    }
}

pub proof fn lemma_poly_match_idx(ps: Seq<Polygon>, id: u32)
    ensures
        poly_match_idx(ps, id) == -1 ==> forall|j: int|
            0 <= j < ps.len() ==> !has_line_id((#[trigger] ps[j]).lines@, id),
        poly_match_idx(ps, id) != -1 ==> {
            let m = poly_match_idx(ps, id);
            &&& 0 <= m < ps.len()
            &&& has_line_id(ps[m].lines@, id)
            &&& forall|j: int| 0 <= j < m ==> !has_line_id((#[trigger] ps[j]).lines@, id)
        },
    decreases ps.len(),
{
    if ps.len() > 0 && !has_line_id(ps[0].lines@, id) {
        let tail = ps.subrange(1, ps.len() as int);
        lemma_poly_match_idx(tail, id);
        assert forall|j: int| 1 <= j < ps.len() implies ps[j] == tail[j - 1] by {}
    }
}

/// The first polygon holding an id depends only on the line ids.
pub proof fn lemma_poly_match_idx_ids(a: Seq<Polygon>, b: Seq<Polygon>, id: u32)
    requires
        a.len() == b.len(),
        forall|j: int| 0 <= j < a.len() ==> (#[trigger] a[j]).lines@.len() == b[j].lines@.len(),
        forall|j: int, k: int|
            0 <= j < a.len() && 0 <= k < a[j].lines@.len() ==> (#[trigger] a[j].lines@[k]).id
                == b[j].lines@[k].id,
    ensures
        poly_match_idx(a, id) == poly_match_idx(b, id),
    decreases a.len(),
{
    if a.len() > 0 {
        assert(has_line_id(a[0].lines@, id) <==> has_line_id(b[0].lines@, id)) by {
            if has_line_id(a[0].lines@, id) {
                let k = choose|k: int| 0 <= k < a[0].lines@.len() && a[0].lines@[k].id == id;
                assert(b[0].lines@[k].id == id);
            }
            if has_line_id(b[0].lines@, id) {
                let k = choose|k: int| 0 <= k < b[0].lines@.len() && b[0].lines@[k].id == id;
                assert(a[0].lines@[k].id == id);
            }
        }
        if !has_line_id(a[0].lines@, id) {
            let ta = a.subrange(1, a.len() as int);
            let tb = b.subrange(1, b.len() as int);
            assert forall|j: int| 0 <= j < ta.len() implies (#[trigger] ta[j]).lines@.len()
                == tb[j].lines@.len() by {
                assert(a[j + 1].lines@.len() == b[j + 1].lines@.len());
            }
            assert forall|j: int, k: int|
                0 <= j < ta.len() && 0 <= k < ta[j].lines@.len() implies (
            #[trigger] ta[j].lines@[k]).id == tb[j].lines@[k].id by {
                assert(a[j + 1].lines@[k].id == b[j + 1].lines@[k].id);
            }
            lemma_poly_match_idx_ids(ta, tb, id);
        }
    }
}

/// The horizontal movement that restores an edge's stored length, projected
/// on the edge's direction: `(stored - measured) * |dx| / measured`.
pub open spec fn rule_a_tx(x1: int, y1: int, x2: int, y2: int, stored: int) -> int {
    let len = length_of(x1, y1, x2, y2);
    if len == 0 {
        0
    } else {
        tdiv((stored - len) * (abs(x2 - x1) as int), len)
    }
}

pub open spec fn rule_a_ty(x1: int, y1: int, x2: int, y2: int, stored: int) -> int {
    let len = length_of(x1, y1, x2, y2);
    if len == 0 {
        0
    } else {
        tdiv((stored - len) * (abs(y2 - y1) as int), len)
    }
}

/// New x coordinate of the far endpoint after one rigidity step.  Forward
/// scans move the second endpoint away from the first; backward scans move
/// the first endpoint with the opposite sign.
pub open spec fn rule_a_new_far_x(x1: int, y1: int, x2: int, y2: int, stored: int, forward: bool) -> int {
    let t = rule_a_tx(x1, y1, x2, y2, stored);
    let farx = if forward {
        x2
    } else {
        x1
    };
    // The movement sign follows the edge's direction; a backward scan
    // flips it, so the two signs cancel exactly when they agree.
    if (x2 > x1) == forward {
        clamp_spec(farx + t)
    } else {
        clamp_spec(farx - t)
    }
}

pub open spec fn rule_a_new_far_y(x1: int, y1: int, x2: int, y2: int, stored: int, forward: bool) -> int {
    let t = rule_a_ty(x1, y1, x2, y2, stored);
    let fary = if forward {
        y2
    } else {
        y1
    };
    if (y2 > y1) == forward {
        clamp_spec(fary + t)
    } else {
        clamp_spec(fary - t)
    }
}

/// One rigidity step (Rule A): where the far endpoint of the edge
/// `p1`-`p2` moves so that the edge regains the stored length `stored`.  A
/// degenerate edge (both endpoints equal) is left in place.
pub fn rule_a_step(p1: PointCords, p2: PointCords, stored: i64, forward: bool) -> (r: PointCords)
    requires
        cords_ok(p1),
        cords_ok(p2),
        0 <= stored <= LEN_LIMIT,
    ensures
        r.0 == rule_a_new_far_x(p1.0 as int, p1.1 as int, p2.0 as int, p2.1 as int, stored as int, forward),
        r.1 == rule_a_new_far_y(p1.0 as int, p1.1 as int, p2.0 as int, p2.1 as int, stored as int, forward),
        cords_ok(r),
{
    proof {
        crate::utils::lemma_length_bounds(p1.0 as int, p1.1 as int, p2.0 as int, p2.1 as int);
    }
    let len = get_line_length(p1, p2);
    let farx: i64 = if forward {
        p2.0
    } else {
        p1.0
    };
    let fary: i64 = if forward {
        p2.1
    } else {
        p1.1
    };
    if len == 0 {
        proof {
            assert(clamp_spec(farx as int) == farx as int);
            assert(clamp_spec(fary as int) == fary as int);
        }
        return PointCords(farx, fary);
    }
    let ext: i128 = stored as i128 - len as i128;
    let adx: i128 = if p2.0 >= p1.0 {
        p2.0 as i128 - p1.0 as i128
    } else {
        p1.0 as i128 - p2.0 as i128
    };
    let ady: i128 = if p2.1 >= p1.1 {
        p2.1 as i128 - p1.1 as i128
    } else {
        p1.1 as i128 - p2.1 as i128
    };
    proof {
        assert(ext as int * adx as int <= 6000000000 * len as int && -(6000000000 * len as int)
            <= ext as int * adx as int) by (nonlinear_arith)
            requires
                -6000000000 <= ext as int <= 6000000000,
                0 <= adx as int <= len as int,
        ;
        assert(ext as int * ady as int <= 6000000000 * len as int && -(6000000000 * len as int)
            <= ext as int * ady as int) by (nonlinear_arith)
            requires
                -6000000000 <= ext as int <= 6000000000,
                0 <= ady as int <= len as int,
        ;
        assert(6000000000 * len as int <= 18000000000000000000) by (nonlinear_arith)
            requires
                0 <= len as int <= 3000000000,
        ;
        lemma_tdiv_le(ext as int * adx as int, len as int, 6000000000);
        lemma_tdiv_le(ext as int * ady as int, len as int, 6000000000);
    }
    let tx: i128 = div_trunc(ext * adx, len as i128);
    let ty: i128 = div_trunc(ext * ady, len as i128);
    // The signed movement: positive signs cancel, so the term is added
    // exactly when the direction sign agrees with the scan direction.
    let mvx: i128 = if (p2.0 > p1.0) == forward {
        tx
    } else {
        -tx
    };
    let mvy: i128 = if (p2.1 > p1.1) == forward {
        ty
    } else {
        -ty
    };
    let nx = clamp_coord(farx as i128 + mvx);
    let ny = clamp_coord(fary as i128 + mvy);
    PointCords(nx, ny)
}

/// Same entity layout, ids, endpoint pairs, constraints and relations;
/// coordinates, stored lengths and centres may differ.  What a drag or a
/// length edit preserves.
pub open spec fn scene_same_topo(a: Scene, b: Scene) -> bool {
    &&& a.polygons@.len() == b.polygons@.len()
    &&& a.next_id == b.next_id
    &&& forall|j: int|
        0 <= j < a.polygons@.len() ==> {
            let pa = #[trigger] a.polygons@[j];
            let pb = b.polygons@[j];
            &&& pa.points@.len() == pb.points@.len()
            &&& pa.lines@.len() == pb.lines@.len()
            &&& forall|k: int|
                0 <= k < pa.points@.len() ==> (#[trigger] pa.points@[k]).id == pb.points@[k].id
            &&& forall|k: int|
                0 <= k < pa.lines@.len() ==> {
                    let la = #[trigger] pa.lines@[k];
                    let lb = pb.lines@[k];
                    &&& la.id == lb.id
                    &&& la.points == lb.points
                    &&& la.is_const == lb.is_const
                    &&& la.relation == lb.relation
                    &&& la.bezier == lb.bezier
                }
        }
}

/// The symmetric midpoint extension's movement along x: the extension
/// resolved against the edge's direction (from the second endpoint at
/// `(x0, y0)` to the first at `(x1, y1)`).
pub open spec fn mid_tx(x0: int, y0: int, x1: int, y1: int, ext: int) -> int {
    let len = length_of(x0, y0, x1, y1);
    if len == 0 {
        0
    } else {
        tdiv(ext * (abs(x1 - x0) as int), len)
    }
}

pub open spec fn mid_ty(x0: int, y0: int, x1: int, y1: int, ext: int) -> int {
    let len = length_of(x0, y0, x1, y1);
    if len == 0 {
        0
    } else {
        tdiv(ext * (abs(y1 - y0) as int), len)
    }
}

/// Where Rule B puts the far endpoint of the partner edge: projected along
/// the anchor's direction at the partner's stored length from its near
/// endpoint.
pub open spec fn rule_b_px(ax1: int, ax2: int, alen: int, blen: int, nx: int) -> int {
    clamp_spec(nx + tdiv(blen * (ax1 - ax2), alen))
}

pub open spec fn rule_b_py(ay1: int, ay2: int, blen: int, px: int, nx: int, ny: int) -> int {
    let s = sqrt_floor(sq(blen) - sq(px - nx));
    clamp_spec(ny + if ay1 > ay2 {
        s
    } else {
        -s
    })
}

/// One relation step (Rule B): the new position of the partner edge's far
/// endpoint, so that the partner regains its stored length `blen` along the
/// direction of the anchor edge `a1`-`a2`.
pub fn rule_b_target(a1: PointCords, a2: PointCords, blen: i64, near: PointCords) -> (r: PointCords)
    requires
        cords_ok(a1),
        cords_ok(a2),
        cords_ok(near),
        0 <= blen <= LEN_LIMIT,
        length_of(a1.0 as int, a1.1 as int, a2.0 as int, a2.1 as int) >= 1,
    ensures
        ({
            let alen = length_of(a1.0 as int, a1.1 as int, a2.0 as int, a2.1 as int);
            &&& r.0 == rule_b_px(a1.0 as int, a2.0 as int, alen, blen as int, near.0 as int)
            &&& r.1 == rule_b_py(
                a1.1 as int,
                a2.1 as int,
                blen as int,
                r.0 as int,
                near.0 as int,
                near.1 as int,
            )
        }),
        cords_ok(r),
{
    proof {
        crate::utils::lemma_length_bounds(a1.0 as int, a1.1 as int, a2.0 as int, a2.1 as int);
    }
    let alen = get_line_length(a1, a2);
    let dxa: i128 = a1.0 as i128 - a2.0 as i128;
    proof {
        assert(blen as int * dxa as int <= blen as int * alen as int && -(blen as int
            * alen as int) <= blen as int * dxa as int) by (nonlinear_arith)
            requires
                0 <= blen as int,
                -(alen as int) <= dxa as int <= alen as int,
        ;
        assert(blen as int * alen as int <= 9000000000000000000) by (nonlinear_arith)
            requires
                0 <= blen as int <= 3000000000,
                0 <= alen as int <= 3000000000,
        ;
        lemma_tdiv_le(blen as int * dxa as int, alen as int, blen as int);
    }
    let q: i128 = div_trunc(blen as i128 * dxa, alen as i128);
    let px: i64 = clamp_coord(near.0 as i128 + q);
    let d: i128 = px as i128 - near.0 as i128;
    proof {
        // Clamping towards the range that contains `near.0` cannot increase
        // the distance from it, so |d| <= |q| <= blen.
        assert(-(blen as i128) <= d <= blen as i128);
        assert(sq(d as int) <= sq(blen as int)) by (nonlinear_arith)
            requires
                -(blen as int) <= d as int <= blen as int,
        ;
        assert(sq(blen as int) <= 9000000000000000000) by (nonlinear_arith)
            requires
                0 <= blen as int <= 3000000000,
        ;
        assert(sq(d as int) >= 0) by (nonlinear_arith);
        lemma_sqrt_floor_le(sq(blen as int) - sq(d as int), blen as int);
    }
    let t: i128 = blen as i128 * blen as i128 - d * d;
    let s: u64 = isqrt(t as u64);
    let py: i64 = if a1.1 > a2.1 {
        clamp_coord(near.1 as i128 + s as i128)
    } else {
        clamp_coord(near.1 as i128 - s as i128)
    };
    PointCords(px, py)
}

impl Scene {
    /// A scene with no polygons.
    pub fn new() -> (r: Scene)
        ensures
            scene_wf(r),
            r.polygons@.len() == 0,
            r.next_id == 1,
    {
        Scene { polygons: Vec::new(), next_id: 1 }
    }

    /// Replace the session's contents by the demonstration scene: a
    /// triangle and a quadrilateral, with one constant edge on the
    /// quadrilateral and a relation pairing the triangle's second edge with
    /// the quadrilateral's first.
    pub fn set_predefined_scene(&mut self)
        ensures
            scene_wf(*final(self)),
            final(self).polygons@.len() == 2,
            final(self).polygons@[0].points@.len() == 3,
            final(self).polygons@[1].points@.len() == 4,
            final(self).polygons@[0].lines@[1].relation == Some(
                final(self).polygons@[1].lines@[0].id,
            ),
            final(self).polygons@[1].lines@[0].relation == Some(
                final(self).polygons@[0].lines@[1].id,
            ),
            final(self).polygons@[1].lines@[1].is_const,
    {
        *self = Scene::new();
        let r1 = self.finalize_polygon(
            vec![PointCords(330, 220), PointCords(200, 50), PointCords(160, 350)],
        );
        proof {
            assert(r1 is Some);
        }
        let ghost t1 = *self;
        let r2 = self.finalize_polygon(
            vec![
                PointCords(80, 70),
                PointCords(250, 90),
                PointCords(220, 300),
                PointCords(50, 150),
            ],
        );
        let ghost t2 = *self;
        proof {
            assert(r2 is Some);
            assert(t2.polygons@[0] == t1.polygons@[0]);
            // Sequential ids: the triangle holds lines 4..=6 (next_id was 1
            // and three point ids come first), the quadrilateral 11..=14.
            assert(t1.polygons@[0].lines@[1].id == 5 && t1.polygons@[0].lines@[1].relation
                is None);
            assert(t2.polygons@[1].lines@[0].id == 11 && t2.polygons@[1].lines@[0].relation
                is None);
            assert(t2.polygons@[1].lines@[1].id == 12 && t2.polygons@[1].lines@[1].relation
                is None);
            assert(has_line_id(t2.polygons@[1].lines@, 12)) by {
                assert(t2.polygons@[1].lines@[1].id == 12);
            }
        }
        let rc = self.set_constant(1, 12, true);
        let ghost t3 = *self;
        proof {
            assert(rc is Ok);
            // The pinned edge sits at slot 1 of the quadrilateral.
            lemma_line_match_idx(t2.polygons@[1].lines@, 12);
            let m = line_match_idx(t2.polygons@[1].lines@, 12);
            assert(m != -1) by {
                if m == -1 {
                    assert(!has_line_id(t2.polygons@[1].lines@, 12));
                }
            }
            assert(m == 1) by {
                if m == 0 {
                    assert(t2.polygons@[1].lines@[0].id == 11);
                }
                if m > 1 {
                    assert(t2.polygons@[1].lines@[1].id != 12);
                }
            }
            assert(t3.polygons@[1].lines@ == t2.polygons@[1].lines@.update(
                1,
                (Line { is_const: true, ..t2.polygons@[1].lines@[1] }),
            ));
            assert(t3.polygons@[1].lines@[1].is_const);
            assert(t3.polygons@[0] == t2.polygons@[0]);
            assert(t3.polygons@[0].lines@[1].id == 5 && t3.polygons@[0].lines@[1].relation
                is None);
            assert(t3.polygons@[1].lines@[0].id == 11 && t3.polygons@[1].lines@[0].relation
                is None);
            assert(has_line_id(t3.polygons@[0].lines@, 5)) by {
                assert(t3.polygons@[0].lines@[1].id == 5);
            }
            assert(has_line_id(t3.polygons@[1].lines@, 11)) by {
                assert(t3.polygons@[1].lines@[0].id == 11);
            }
        }
        let rr = self.create_relation(5, 11);
        proof {
            let nw = *self;
            lemma_poly_match_idx(t3.polygons@, 5);
            lemma_poly_match_idx(t3.polygons@, 11);
            let f5 = poly_match_idx(t3.polygons@, 5);
            let f11 = poly_match_idx(t3.polygons@, 11);
            assert(f5 != -1) by {
                if f5 == -1 {
                    assert(!has_line_id(t3.polygons@[0].lines@, 5));
                }
            }
            assert(f11 != -1) by {
                if f11 == -1 {
                    assert(!has_line_id(t3.polygons@[1].lines@, 11));
                }
            }
            lemma_line_match_idx(t3.polygons@[f5].lines@, 5);
            lemma_line_match_idx(t3.polygons@[f11].lines@, 11);
            let k5 = line_match_idx(t3.polygons@[f5].lines@, 5);
            let k11 = line_match_idx(t3.polygons@[f11].lines@, 11);
            assert(k5 != -1) by {
                if k5 == -1 {
                    assert(!has_line_id(t3.polygons@[f5].lines@, 5));
                }
            }
            assert(k11 != -1) by {
                if k11 == -1 {
                    assert(!has_line_id(t3.polygons@[f11].lines@, 11));
                }
            }
            // By global id uniqueness those slots are (0, 1) and (1, 0).
            assert(valid_pl(t3, f5, k5) && line_at(t3, f5, k5).id == 5);
            assert(valid_pl(t3, 0, 1) && line_at(t3, 0, 1).id == 5);
            assert(f5 == 0 && k5 == 1) by {
                if f5 != 0 || k5 != 1 {
                    assert(line_at(t3, f5, k5).id != line_at(t3, 0, 1).id);
                }
            }
            assert(valid_pl(t3, f11, k11) && line_at(t3, f11, k11).id == 11);
            assert(valid_pl(t3, 1, 0) && line_at(t3, 1, 0).id == 11);
            assert(f11 == 1 && k11 == 0) by {
                if f11 != 1 || k11 != 0 {
                    assert(line_at(t3, f11, k11).id != line_at(t3, 1, 0).id);
                }
            }
            assert(rr is Ok);
            assert(valid_pl(t3, 1, 1));
            assert(line_at(t3, 1, 1).id == 12);
            assert(nw.polygons@[0].lines@[1].relation == Some(11u32));
            assert(nw.polygons@[1].lines@[0].relation == Some(5u32));
            assert(nw.polygons@[1].lines@[0].id == 11);
            assert(nw.polygons@[0].lines@[1].id == 5);
            assert(nw.polygons@[1].lines@[1].is_const);
        }
    }

    /// Clear the transient propagation mark on every line of the scene,
    /// making the next top-level edit start from a blank pass.
    pub fn reset_visited(&mut self)
        ensures
            final(self).next_id == old(self).next_id,
            final(self).polygons@.len() == old(self).polygons@.len(),
            forall|j: int|
                0 <= j < final(self).polygons@.len() ==> {
                    let np = #[trigger] final(self).polygons@[j];
                    let op = old(self).polygons@[j];
                    &&& np.points@ == op.points@
                    &&& np.center == op.center
                    &&& np.lines@.len() == op.lines@.len()
                    &&& forall|k: int|
                        0 <= k < np.lines@.len() ==> #[trigger] np.lines@[k] == (Line {
                            visited: false,
                            ..op.lines@[k]
                        })
                },
            flags_clear(*final(self)),
            scene_struct_wf(*old(self)) ==> scene_struct_wf(*final(self)),
    {
        let ghost orig = *self;
        let n = self.polygons.len();
        let mut i: usize = 0;
        while i < n
            invariant
                0 <= i <= n,
                n == self.polygons@.len(),
                n == orig.polygons@.len(),
                self.next_id == orig.next_id,
                forall|j: int| i <= j < n ==> #[trigger] self.polygons@[j] == orig.polygons@[j],
                forall|j: int|
                    0 <= j < i ==> {
                        let np = #[trigger] self.polygons@[j];
                        let op = orig.polygons@[j];
                        &&& np.points@ == op.points@
                        &&& np.center == op.center
                        &&& np.lines@.len() == op.lines@.len()
                        &&& forall|k: int|
                            0 <= k < np.lines@.len() ==> #[trigger] np.lines@[k] == (Line {
                                visited: false,
                                ..op.lines@[k]
                            })
                    },
            decreases n - i,
        {
            let m = self.polygons[i].lines.len();
            let mut k: usize = 0;
            while k < m
                invariant
                    0 <= k <= m,
                    0 <= i < n,
                    n == self.polygons@.len(),
                    n == orig.polygons@.len(),
                    self.next_id == orig.next_id,
                    m == self.polygons@[i as int].lines@.len(),
                    m == orig.polygons@[i as int].lines@.len(),
                    self.polygons@[i as int].points@ == orig.polygons@[i as int].points@,
                    self.polygons@[i as int].center == orig.polygons@[i as int].center,
                    forall|j: int| i < j < n ==> #[trigger] self.polygons@[j] == orig.polygons@[j],
                    forall|j: int|
                        0 <= j < i ==> {
                            let np = #[trigger] self.polygons@[j];
                            let op = orig.polygons@[j];
                            &&& np.points@ == op.points@
                            &&& np.center == op.center
                            &&& np.lines@.len() == op.lines@.len()
                            &&& forall|k2: int|
                                0 <= k2 < np.lines@.len() ==> #[trigger] np.lines@[k2] == (Line {
                                    visited: false,
                                    ..op.lines@[k2]
                                })
                        },
                    forall|k2: int|
                        0 <= k2 < k ==> #[trigger] self.polygons@[i as int].lines@[k2] == (Line {
                            visited: false,
                            ..orig.polygons@[i as int].lines@[k2]
                        }),
                    forall|k2: int|
                        k <= k2 < m ==> #[trigger] self.polygons@[i as int].lines@[k2]
                            == orig.polygons@[i as int].lines@[k2],
                decreases m - k,
            {
                let mut l = self.polygons[i].lines[k];
                l.visited = false;
                self.polygons[i].lines[k] = l;
                k += 1;
            }
            i += 1;
        }
        proof {
            if scene_struct_wf(orig) {
                let nw = *self;
                assert forall|j: int| 0 <= j < nw.polygons@.len() implies polygon_wf(
                    #[trigger] nw.polygons@[j],
                ) by {
                    assert(polygon_wf(orig.polygons@[j]));
                    let op = orig.polygons@[j];
                    let np2 = nw.polygons@[j];
                    assert forall|i2: int| 0 <= i2 < np2.lines@.len() implies (
                    #[trigger] np2.lines@[i2]).points == (
                        ring_a(np2.points@, i2),
                        ring_b(np2.points@, i2),
                    ) by {
                        assert(np2.lines@[i2] == (Line { visited: false, ..op.lines@[i2] }));
                        assert(op.lines@[i2].points == (ring_a(op.points@, i2), ring_b(
                            op.points@,
                            i2,
                        )));
                    }
                    assert forall|i2: int| 0 <= i2 < np2.lines@.len() implies line_ok(
                        #[trigger] np2.lines@[i2],
                    ) by {
                        assert(np2.lines@[i2] == (Line { visited: false, ..op.lines@[i2] }));
                        assert(line_ok(op.lines@[i2]));
                    }
                }
                assert forall|j: int, k2: int| valid_pl(orig, j, k2) implies (#[trigger] line_at(
                    orig,
                    j,
                    k2,
                )).id == line_at(nw, j, k2).id && line_at(orig, j, k2).relation == line_at(
                    nw,
                    j,
                    k2,
                ).relation by {
                    assert(nw.polygons@[j].lines@[k2] == (Line {
                        visited: false,
                        ..orig.polygons@[j].lines@[k2]
                    }));
                }
                assert(scene_rel_shape(orig, nw));
                lemma_rel_shape_struct_wf(orig, nw);
            }
        }
    }

    /// Locate the line with id `id` anywhere in the scene: the first polygon
    /// owning it, and the line's index there.
    pub fn find_line(&self, id: u32) -> (r: Option<(usize, usize)>)
        ensures
            match r {
                Some(loc) => {
                    &&& valid_pl(*self, loc.0 as int, loc.1 as int)
                    &&& loc.0 as int == poly_match_idx(self.polygons@, id)
                    &&& loc.1 as int == line_match_idx(self.polygons@[loc.0 as int].lines@, id)
                    &&& line_at(*self, loc.0 as int, loc.1 as int).id == id
                },
                None => forall|j: int|
                    0 <= j < self.polygons@.len() ==> !has_line_id(
                        (#[trigger] self.polygons@[j]).lines@,
                        id,
                    ),
            },
    {
        proof {
            lemma_poly_match_idx(self.polygons@, id);
        }
        let n = self.polygons.len();
        let mut j: usize = 0;
        while j < n
            invariant
                0 <= j <= n,
                n == self.polygons@.len(),
                forall|j2: int|
                    0 <= j2 < j ==> !has_line_id((#[trigger] self.polygons@[j2]).lines@, id),
            decreases n - j,
        {
            let f = self.polygons[j].find_line_index(id);
            match f {
                Some(k) => {
                    proof {
                        lemma_poly_match_idx(self.polygons@, id);
                        lemma_line_match_idx(self.polygons@[j as int].lines@, id);
                        assert(self.polygons@[j as int].lines@[k as int].id == id);
                        assert(has_line_id(self.polygons@[j as int].lines@, id));
                        let m = poly_match_idx(self.polygons@, id);
                        if m == -1 {
                            assert(!has_line_id(self.polygons@[j as int].lines@, id));
                        } else if m < j {
                            assert(!has_line_id(self.polygons@[m].lines@, id));
                        } else if (j as int) < m {
                            assert(!has_line_id(self.polygons@[j as int].lines@, id));
                        }
                    }
                    return Some((j, k));
                },
                None => {},
            }
            j += 1;
        }
        None
    }

    /// Set the transient propagation mark on one line.
    fn mark_visited(&mut self, j: usize, k: usize)
        requires
            scene_struct_wf(*old(self)),
            valid_pl(*old(self), j as int, k as int),
            !line_at(*old(self), j as int, k as int).visited,
        ensures
            scene_struct_wf(*final(self)),
            scene_same_shape(*old(self), *final(self)),
            count_unvisited(final(self).polygons@) as int == count_unvisited(
                old(self).polygons@,
            ) as int - 1,
            final(self).next_id == old(self).next_id,
            final(self).polygons@.len() == old(self).polygons@.len(),
            forall|j2: int|
                0 <= j2 < old(self).polygons@.len() && j2 != j ==> final(self).polygons@[j2] == old(self).polygons@[j2],
            final(self).polygons@[j as int].points@ == old(self).polygons@[j as int].points@,
            final(self).polygons@[j as int].center == old(self).polygons@[j as int].center,
            final(self).polygons@[j as int].lines@ == old(self).polygons@[j as int].lines@.update(
                k as int,
                (Line { visited: true, ..old(self).polygons@[j as int].lines@[k as int] }),
            ),
            marks_monotone(*old(self), *final(self)),
            marked_far_points_stable(*old(self), *final(self)),
    {
        let mut l = self.polygons[j].lines[k];
        l.visited = true;
        self.polygons[j].lines[k] = l;
        proof {
            let o = *old(self);
            let nw = *self;
            let op = o.polygons@[j as int];
            let np = nw.polygons@[j as int];
            assert(nw.polygons@ =~= o.polygons@.update(j as int, np));
            assert(np.lines@ =~= op.lines@.update(k as int, l));
            lemma_count_lines_update(op.lines@, k as int, l);
            lemma_count_polys_update(o.polygons@, j as int, np);
            assert(polygon_wf(op));
            assert forall|i: int| 0 <= i < np.lines@.len() implies (#[trigger] np.lines@[i]).points
                == (ring_a(np.points@, i), ring_b(np.points@, i)) by {
                assert(op.lines@[i].points == (ring_a(op.points@, i), ring_b(op.points@, i)));
            }
            assert forall|i: int| 0 <= i < np.lines@.len() implies line_ok(#[trigger] np.lines@[i]) by {
                assert(line_ok(op.lines@[i]));
            }
            assert(polygon_wf(np));
            assert forall|j2: int| 0 <= j2 < nw.polygons@.len() implies polygon_wf(
                #[trigger] nw.polygons@[j2],
            ) by {
                assert(polygon_wf(o.polygons@[j2]));
            }
            assert forall|j2: int| 0 <= j2 < o.polygons@.len() implies poly_same_shape(
                #[trigger] o.polygons@[j2],
                nw.polygons@[j2],
            ) by {
                if j2 == j as int {
                    assert forall|i: int| 0 <= i < op.lines@.len() implies line_same_shape(
                        #[trigger] op.lines@[i],
                        np.lines@[i],
                    ) by {}
                } else {
                    assert(o.polygons@[j2] == nw.polygons@[j2]);
                    assert forall|i: int|
                        0 <= i < o.polygons@[j2].lines@.len() implies line_same_shape(
                        #[trigger] o.polygons@[j2].lines@[i],
                        nw.polygons@[j2].lines@[i],
                    ) by {}
                }
            }
            lemma_same_shape_struct_wf(o, nw);
        }
    }

    /// Move one vertex to new (in-range) coordinates, keeping its id.
    fn set_scene_point(&mut self, j: usize, k: usize, x: i64, y: i64)
        requires
            scene_struct_wf(*old(self)),
            (j as int) < old(self).polygons@.len(),
            (k as int) < old(self).polygons@[j as int].points@.len(),
            coord_ok(x),
            coord_ok(y),
        ensures
            scene_struct_wf(*final(self)),
            scene_same_shape(*old(self), *final(self)),
            count_unvisited(final(self).polygons@) == count_unvisited(old(self).polygons@),
            final(self).next_id == old(self).next_id,
            final(self).polygons@.len() == old(self).polygons@.len(),
            forall|j2: int|
                0 <= j2 < old(self).polygons@.len() && j2 != j ==> final(self).polygons@[j2] == old(self).polygons@[j2],
            final(self).polygons@[j as int].lines@ == old(self).polygons@[j as int].lines@,
            final(self).polygons@[j as int].center == old(self).polygons@[j as int].center,
            final(self).polygons@[j as int].points@ == old(self).polygons@[j as int].points@.update(
                k as int,
                (Point { x, y, id: old(self).polygons@[j as int].points@[k as int].id }),
            ),
            marks_monotone(*old(self), *final(self)),
    {
        let p = self.polygons[j].points[k];
        self.polygons[j].points[k] = Point { x, y, id: p.id };
        proof {
            let o = *old(self);
            let nw = *self;
            let op = o.polygons@[j as int];
            let np = nw.polygons@[j as int];
            assert(nw.polygons@ =~= o.polygons@.update(j as int, np));
            assert(np.points@ =~= op.points@.update(k as int, (Point { x, y, id: p.id })));
            assert forall|j2: int|
                0 <= j2 < nw.polygons@.len() implies count_unvisited_lines(
                (#[trigger] o.polygons@[j2]).lines@,
            ) == count_unvisited_lines(nw.polygons@[j2].lines@) by {}
            lemma_count_polys_pointwise(o.polygons@, nw.polygons@);
            assert(polygon_wf(op));
            assert forall|x2: int, y2: int|
                0 <= x2 < y2 < np.points@.len() implies (#[trigger] np.points@[x2]).id != (
            #[trigger] np.points@[y2]).id by {
                assert(op.points@[x2].id != op.points@[y2].id);
                assert(np.points@[x2].id == op.points@[x2].id);
                assert(np.points@[y2].id == op.points@[y2].id);
            }
            assert forall|i: int| 0 <= i < np.lines@.len() implies (#[trigger] np.lines@[i]).points
                == (ring_a(np.points@, i), ring_b(np.points@, i)) by {
                assert(op.lines@[i].points == (ring_a(op.points@, i), ring_b(op.points@, i)));
                assert(np.points@[ring_prev(np.points@.len() as int, i)].id == op.points@[ring_prev(
                    op.points@.len() as int,
                    i,
                )].id);
                assert(np.points@[i].id == op.points@[i].id);
            }
            assert forall|i: int| 0 <= i < np.points@.len() implies point_ok(
                #[trigger] np.points@[i],
            ) by {
                assert(point_ok(op.points@[i]));
            }
            assert(polygon_wf(np));
            assert forall|j2: int| 0 <= j2 < nw.polygons@.len() implies polygon_wf(
                #[trigger] nw.polygons@[j2],
            ) by {
                assert(polygon_wf(o.polygons@[j2]));
            }
            assert forall|j2: int| 0 <= j2 < o.polygons@.len() implies poly_same_shape(
                #[trigger] o.polygons@[j2],
                nw.polygons@[j2],
            ) by {
                if j2 == j as int {
                    assert forall|i: int| 0 <= i < op.lines@.len() implies line_same_shape(
                        #[trigger] op.lines@[i],
                        np.lines@[i],
                    ) by {}
                } else {
                    assert(o.polygons@[j2] == nw.polygons@[j2]);
                    assert forall|i: int|
                        0 <= i < o.polygons@[j2].lines@.len() implies line_same_shape(
                        #[trigger] o.polygons@[j2].lines@[i],
                        nw.polygons@[j2].lines@[i],
                    ) by {}
                }
            }
            lemma_same_shape_struct_wf(o, nw);
        }
    }

    /// Overwrite one line record, with no claims beyond the update itself.
    fn set_line_raw(&mut self, j: usize, k: usize, l: Line)
        requires
            (j as int) < old(self).polygons@.len(),
            (k as int) < old(self).polygons@[j as int].lines@.len(),
        ensures
            final(self).next_id == old(self).next_id,
            final(self).polygons@.len() == old(self).polygons@.len(),
            forall|j2: int|
                0 <= j2 < old(self).polygons@.len() && j2 != j ==> final(self).polygons@[j2] == old(self).polygons@[j2],
            final(self).polygons@[j as int].points@ == old(self).polygons@[j as int].points@,
            final(self).polygons@[j as int].center == old(self).polygons@[j as int].center,
            final(self).polygons@[j as int].lines@ == old(self).polygons@[j as int].lines@.update(
                k as int,
                l,
            ),
    {
        self.polygons[j].lines[k] = l;
        proof {
            assert(self.polygons@ =~= old(self).polygons@.update(
                j as int,
                self.polygons@[j as int],
            ));
            assert(self.polygons@[j as int].lines@ =~= old(self).polygons@[j as int].lines@.update(
                k as int,
                l,
            ));
        }
    }

    /// Pin or free the length of the edge `line_id` of polygon
    /// `polygon_id`: a pinned (constant) edge resists every later movement.
    pub fn set_constant(&mut self, polygon_id: usize, line_id: u32, value: bool) -> (r: Result<
        (),
        EditError,
    >)
        requires
            scene_wf(*old(self)),
        ensures
            scene_wf(*final(self)),
            (r is Ok) <==> ((polygon_id as int) < old(self).polygons@.len() && has_line_id(
                old(self).polygons@[polygon_id as int].lines@,
                line_id,
            )),
            r is Err ==> r == Err::<(), EditError>(EditError::NotFound) && scene_view_eq(
                *old(self),
                *final(self),
            ),
            r is Ok ==> ({
                let kl = line_match_idx(old(self).polygons@[polygon_id as int].lines@, line_id);
                &&& final(self).next_id == old(self).next_id
                &&& final(self).polygons@.len() == old(self).polygons@.len()
                &&& forall|j2: int|
                    0 <= j2 < old(self).polygons@.len() && j2 != polygon_id ==> final(self).polygons@[j2] == old(self).polygons@[j2]
                &&& final(self).polygons@[polygon_id as int].points@ == old(self).polygons@[polygon_id as int].points@
                &&& final(self).polygons@[polygon_id as int].center == old(self).polygons@[polygon_id as int].center
                &&& final(self).polygons@[polygon_id as int].lines@ == old(self).polygons@[polygon_id as int].lines@.update(
                    kl,
                    (Line {
                        is_const: value,
                        ..old(self).polygons@[polygon_id as int].lines@[kl]
                    }),
                )
            }),
    {
        let ghost o = *old(self);
        if polygon_id >= self.polygons.len() {
            proof {
                lemma_view_eq_refl(o);
            }
            return Err(EditError::NotFound);
        }
        let fi = self.polygons[polygon_id].find_line_index(line_id);
        match fi {
            None => {
                proof {
                    lemma_view_eq_refl(o);
                }
                Err(EditError::NotFound)
            },
            Some(kl) => {
                proof {
                    lemma_line_match_idx(self.polygons@[polygon_id as int].lines@, line_id);
                }
                let mut l = self.polygons[polygon_id].lines[kl];
                l.is_const = value;
                self.set_line_raw(polygon_id, kl, l);
                proof {
                    let nw = *self;
                    let op = o.polygons@[polygon_id as int];
                    let np = nw.polygons@[polygon_id as int];
                    assert(polygon_wf(op));
                    assert(line_ok(op.lines@[kl as int]));
                    lemma_polygon_wf_after_line_update(op, np, kl as int, l);
                    assert forall|j2: int| 0 <= j2 < nw.polygons@.len() implies polygon_wf(
                        #[trigger] nw.polygons@[j2],
                    ) by {
                        assert(polygon_wf(o.polygons@[j2]));
                    }
                    assert(scene_rel_shape(o, nw));
                    lemma_rel_shape_struct_wf(o, nw);
                    assert forall|j2: int, k2: int| valid_pl(nw, j2, k2) implies !(
                    #[trigger] line_at(nw, j2, k2)).visited by {
                        assert(!line_at(o, j2, k2).visited);
                    }
                    assert forall|j2: int| 0 <= j2 < nw.polygons@.len() implies polygon_centered(
                        #[trigger] nw.polygons@[j2],
                    ) && polygon_settled(nw.polygons@[j2]) by {
                        assert(polygon_centered(o.polygons@[j2]) && polygon_settled(
                            o.polygons@[j2],
                        ));
                        assert forall|i: int|
                            0 <= i < nw.polygons@[j2].lines@.len() implies (
                        #[trigger] nw.polygons@[j2].lines@[i]).length == measured_len(
                            nw.polygons@[j2],
                            i,
                        ) by {
                            assert(o.polygons@[j2].lines@[i].length == measured_len(
                                o.polygons@[j2],
                                i,
                            ));
                        }
                    }
                }
                Ok(())
            },
        }
    }

    /// Drop the relation of the edge `line_id`, and its partner's
    /// back-reference with it, so that the pairing stays mutual.
    #[verifier::rlimit(40)]
    pub fn clear_relation(&mut self, line_id: u32) -> (r: Result<(), EditError>)
        requires
            scene_wf(*old(self)),
        ensures
            scene_wf(*final(self)),
            (r is Ok) <==> poly_match_idx(old(self).polygons@, line_id) != -1,
            r is Err ==> r == Err::<(), EditError>(EditError::NotFound) && scene_view_eq(
                *old(self),
                *final(self),
            ),
            r is Ok ==> ({
                let pj = poly_match_idx(old(self).polygons@, line_id);
                let pk = line_match_idx(old(self).polygons@[pj].lines@, line_id);
                let rel = line_at(*old(self), pj, pk).relation;
                &&& final(self).next_id == old(self).next_id
                &&& final(self).polygons@.len() == old(self).polygons@.len()
                &&& forall|j: int|
                    0 <= j < old(self).polygons@.len() ==> {
                        let np2 = #[trigger] final(self).polygons@[j];
                        let op2 = old(self).polygons@[j];
                        &&& np2.points@ == op2.points@
                        &&& np2.center == op2.center
                        &&& np2.lines@.len() == op2.lines@.len()
                    }
                &&& forall|j: int, k: int|
                    valid_pl(*old(self), j, k) ==> {
                        let ol = #[trigger] line_at(*old(self), j, k);
                        let nl = line_at(*final(self), j, k);
                        if ol.id == line_id || (rel matches Some(m) && ol.id == m) {
                            nl == (Line { relation: None::<u32>, ..ol })
                        } else {
                            nl == ol
                        }
                    }
            }),
    {
        let ghost o = *old(self);
        proof {
            lemma_poly_match_idx(o.polygons@, line_id);
        }
        let loc = self.find_line(line_id);
        match loc {
            None => {
                proof {
                    lemma_view_eq_refl(o);
                    if poly_match_idx(o.polygons@, line_id) != -1 {
                        assert(has_line_id(
                            o.polygons@[poly_match_idx(o.polygons@, line_id)].lines@,
                            line_id,
                        ));
                    }
                }
                Err(EditError::NotFound)
            },
            Some((pj, pk)) => {
                proof {
                    lemma_line_match_idx(o.polygons@[pj as int].lines@, line_id);
                }
                let l = self.polygons[pj].lines[pk];
                let rel = l.relation;
                let mut l2 = l;
                l2.relation = None;
                self.set_line_raw(pj, pk, l2);
                let ghost qloc: (int, int) = (pj as int, pk as int);
                match rel {
                    Some(m) => {
                        proof {
                            assert(rel_ok_at(o, pj as int, pk as int));
                            assert(has_partner(o, m, l.id));
                        }
                        let loc2 = self.find_line(m);
                        match loc2 {
                            Some((qj, qk)) => {
                                proof {
                                    qloc = (qj as int, qk as int);
                                }
                                let lq = self.polygons[qj].lines[qk];
                                let mut lq2 = lq;
                                lq2.relation = None;
                                self.set_line_raw(qj, qk, lq2);
                            },
                            None => {
                                proof {
                                    let cur = *self;
                                    let (wj, wk) = choose|wj: int, wk: int|
                                        valid_pl(o, wj, wk) && (#[trigger] line_at(
                                            o,
                                            wj,
                                            wk,
                                        )).id == m && line_at(o, wj, wk).relation == Some(l.id);
                                    assert(m != l.id);
                                    if wj == pj as int && wk == pk as int {
                                        assert(line_at(o, wj, wk).id == l.id);
                                        assert(false);
                                    }
                                    assert(line_at(cur, wj, wk).id == m);
                                    assert(has_line_id(cur.polygons@[wj].lines@, m));
                                    assert(false);
                                }
                            },
                        }
                    },
                    None => {},
                }
                proof {
                    let nw = *self;
                    // Only relations changed, pointwise.
                    assert forall|j: int, k: int| valid_pl(o, j, k) implies {
                        let ol = #[trigger] line_at(o, j, k);
                        let nl = line_at(nw, j, k);
                        if ol.id == line_id || (rel matches Some(m) && ol.id == m) {
                            nl == (Line { relation: None::<u32>, ..ol })
                        } else {
                            nl == ol
                        }
                    } by {
                        let ol = line_at(o, j, k);
                        if j == pj as int && k == pk as int {
                            assert(ol.id == line_id);
                        } else if rel is Some && j == qloc.0 && k == qloc.1 {
                            assert(ol.id == rel->0);
                            assert(ol.id != line_id);
                        } else {
                            if ol.id == line_id {
                                assert(line_at(o, pj as int, pk as int).id == line_id);
                                assert(false);
                            }
                            if rel is Some && ol.id == rel->0 {
                                assert(line_at(o, qloc.0, qloc.1).id == rel->0);
                                assert(false);
                            }
                        }
                    }
                    // Well-formed polygons: only a relation field changed.
                    assert forall|j: int| 0 <= j < nw.polygons@.len() implies polygon_wf(
                        #[trigger] nw.polygons@[j],
                    ) by {
                        assert(polygon_wf(o.polygons@[j]));
                        let op2 = o.polygons@[j];
                        let np2 = nw.polygons@[j];
                        assert forall|i2: int| 0 <= i2 < np2.lines@.len() implies (
                        #[trigger] np2.lines@[i2]).points == (
                            ring_a(np2.points@, i2),
                            ring_b(np2.points@, i2),
                        ) by {
                            assert(valid_pl(o, j, i2));
                            assert(line_at(o, j, i2).points == np2.lines@[i2].points);
                            assert(op2.lines@[i2].points == (ring_a(op2.points@, i2), ring_b(
                                op2.points@,
                                i2,
                            )));
                        }
                        assert forall|i2: int| 0 <= i2 < np2.lines@.len() implies line_ok(
                            #[trigger] np2.lines@[i2],
                        ) by {
                            assert(valid_pl(o, j, i2));
                            assert(line_ok(op2.lines@[i2]));
                        }
                    }
                    // Ids unchanged pointwise.
                    assert forall|j: int, k: int| valid_pl(nw, j, k) implies (#[trigger] line_at(
                        nw,
                        j,
                        k,
                    )).id == line_at(o, j, k).id by {
                        assert(valid_pl(o, j, k));
                    }
                    assert forall|j1: int, k1: int, j2: int, k2: int|
                        valid_pl(nw, j1, k1) && valid_pl(nw, j2, k2) && (j1 != j2 || k1
                            != k2) implies (#[trigger] line_at(nw, j1, k1)).id != (
                    #[trigger] line_at(nw, j2, k2)).id by {
                        assert(line_at(o, j1, k1).id != line_at(o, j2, k2).id);
                        assert(valid_pl(o, j1, k1) && valid_pl(o, j2, k2));
                        assert(line_at(nw, j1, k1).id == line_at(o, j1, k1).id);
                        assert(line_at(nw, j2, k2).id == line_at(o, j2, k2).id);
                    }
                    assert forall|j: int, k: int| valid_pl(nw, j, k) implies (#[trigger] line_at(
                        nw,
                        j,
                        k,
                    )).id < nw.next_id by {
                        assert(valid_pl(o, j, k));
                        assert(line_at(o, j, k).id < o.next_id);
                    }
                    // Mutuality: surviving relations kept their partners.
                    assert forall|j: int, k: int| valid_pl(nw, j, k) implies #[trigger] rel_ok_at(
                        nw,
                        j,
                        k,
                    ) by {
                        assert(valid_pl(o, j, k));
                        let nl = line_at(nw, j, k);
                        let ol = line_at(o, j, k);
                        if nl.relation is Some {
                            let p = nl.relation->0;
                            assert(nl == ol);
                            assert(rel_ok_at(o, j, k));
                            let (wj, wk) = choose|wj: int, wk: int|
                                valid_pl(o, wj, wk) && (#[trigger] line_at(o, wj, wk)).id == p
                                    && line_at(o, wj, wk).relation == Some(ol.id);
                            // The partner is neither of the two cleared lines.
                            if wj == pj as int && wk == pk as int {
                                assert(line_at(o, pj as int, pk as int).relation == Some(ol.id));
                                assert(rel == Some(ol.id));
                                assert(line_at(o, qloc.0, qloc.1).id == ol.id);
                                assert(j == qloc.0 && k == qloc.1);
                                assert(false);
                            }
                            if rel is Some && wj == qloc.0 && wk == qloc.1 {
                                assert(line_at(o, qloc.0, qloc.1).relation == Some(l.id));
                                assert(ol.id == l.id);
                                assert(j == pj as int && k == pk as int);
                                assert(false);
                            }
                            assert(line_at(nw, wj, wk) == line_at(o, wj, wk));
                            assert(has_partner(nw, p, nl.id));
                        }
                    }
                    // Flags and calm survive a relation change.
                    assert forall|j: int, k: int| valid_pl(nw, j, k) implies !(#[trigger] line_at(
                        nw,
                        j,
                        k,
                    )).visited by {
                        assert(valid_pl(o, j, k));
                        assert(!line_at(o, j, k).visited);
                    }
                    assert forall|j: int| 0 <= j < nw.polygons@.len() implies polygon_centered(
                        #[trigger] nw.polygons@[j],
                    ) && polygon_settled(nw.polygons@[j]) by {
                        assert(polygon_centered(o.polygons@[j]) && polygon_settled(o.polygons@[j]));
                        assert forall|i2: int|
                            0 <= i2 < nw.polygons@[j].lines@.len() implies (
                        #[trigger] nw.polygons@[j].lines@[i2]).length == measured_len(
                            nw.polygons@[j],
                            i2,
                        ) by {
                            assert(valid_pl(o, j, i2));
                            assert(o.polygons@[j].lines@[i2].length == measured_len(
                                o.polygons@[j],
                                i2,
                            ));
                        }
                    }
                }
                Ok(())
            },
        }
    }

    /// Pair the edges `line_a` and `line_b` by a mutual relation and enforce
    /// it at once: `line_b`'s far endpoint is repositioned along `line_a`'s
    /// direction.  Refused when either edge is missing, when the two are the
    /// same edge, or when either already has a partner.
    pub fn create_relation(&mut self, line_a: u32, line_b: u32) -> (r: Result<(), EditError>)
        requires
            scene_wf(*old(self)),
        ensures
            scene_wf(*final(self)),
            ({
                let fa = poly_match_idx(old(self).polygons@, line_a);
                let fb = poly_match_idx(old(self).polygons@, line_b);
                &&& (r == Err::<(), EditError>(EditError::NotFound) <==> (fa == -1 || fb == -1))
                &&& (fa != -1 && fb != -1 ==> {
                    let la = line_at(*old(self), fa, line_match_idx(old(self).polygons@[fa].lines@, line_a));
                    let lb = line_at(*old(self), fb, line_match_idx(old(self).polygons@[fb].lines@, line_b));
                    &&& (r == Err::<(), EditError>(EditError::RelationConflict) <==> (line_a
                        == line_b || la.relation is Some || lb.relation is Some))
                    &&& (r is Ok <==> (line_a != line_b && la.relation is None && lb.relation
                        is None))
                })
            }),
            r is Err ==> scene_view_eq(*old(self), *final(self)),
            r is Ok ==> ({
                &&& final(self).next_id == old(self).next_id
                &&& final(self).polygons@.len() == old(self).polygons@.len()
                &&& forall|j: int|
                    0 <= j < old(self).polygons@.len() ==> {
                        let np2 = #[trigger] final(self).polygons@[j];
                        let op2 = old(self).polygons@[j];
                        &&& np2.points@.len() == op2.points@.len()
                        &&& np2.lines@.len() == op2.lines@.len()
                        &&& forall|k: int|
                            0 <= k < np2.points@.len() ==> (#[trigger] np2.points@[k]).id
                                == op2.points@[k].id
                    }
                &&& forall|j: int, k: int|
                    valid_pl(*old(self), j, k) ==> {
                        let ol = #[trigger] line_at(*old(self), j, k);
                        let nl = line_at(*final(self), j, k);
                        &&& nl.id == ol.id
                        &&& nl.points == ol.points
                        &&& nl.is_const == ol.is_const
                        &&& nl.bezier == ol.bezier
                        &&& nl.relation == (if ol.id == line_a {
                            Some(line_b)
                        } else if ol.id == line_b {
                            Some(line_a)
                        } else {
                            ol.relation
                        })
                    }
            }),
            r is Ok ==> ({
                // The fresh pairing is enforced at once: Rule B moves
                // `line_b`'s far endpoint to the projection along
                // `line_a`'s direction.
                let fa = poly_match_idx(old(self).polygons@, line_a);
                let fb = poly_match_idx(old(self).polygons@, line_b);
                let ka2 = line_match_idx(old(self).polygons@[fa].lines@, line_a);
                let kb2 = line_match_idx(old(self).polygons@[fb].lines@, line_b);
                let la = line_at(*old(self), fa, ka2);
                let lbx = line_at(*old(self), fb, kb2);
                let spa = old(self).polygons@[fa].points@;
                let pa = spa[point_match_idx(spa, la.points.0)];
                let pb = spa[point_match_idx(spa, la.points.1)];
                let alen = length_of(pa.x as int, pa.y as int, pb.x as int, pb.y as int);
                let spb = old(self).polygons@[fb].points@;
                let near = spb[point_match_idx(spb, lbx.points.0)];
                alen >= 1 ==> {
                    let px = rule_b_px(pa.x as int, pb.x as int, alen, lbx.length as int, near.x as int);
                    let py = rule_b_py(pa.y as int, pb.y as int, lbx.length as int, px, near.x as int, near.y as int);
                    final(self).polygons@[fb].points@[kb2] == (Point {
                        x: px as i64,
                        y: py as i64,
                        id: lbx.points.1,
                    })
                }
            }),
    {
        let ghost o = *old(self);
        proof {
            lemma_poly_match_idx(o.polygons@, line_a);
            lemma_poly_match_idx(o.polygons@, line_b);
        }
        let la_loc = self.find_line(line_a);
        let lb_loc = self.find_line(line_b);
        proof {
            if la_loc is None && poly_match_idx(o.polygons@, line_a) != -1 {
                assert(has_line_id(o.polygons@[poly_match_idx(o.polygons@, line_a)].lines@, line_a));
            }
            if lb_loc is None && poly_match_idx(o.polygons@, line_b) != -1 {
                assert(has_line_id(o.polygons@[poly_match_idx(o.polygons@, line_b)].lines@, line_b));
            }
        }
        match (la_loc, lb_loc) {
            (Some((ja, ka)), Some((jb, kb))) => {
                proof {
                    lemma_line_match_idx(o.polygons@[ja as int].lines@, line_a);
                    lemma_line_match_idx(o.polygons@[jb as int].lines@, line_b);
                }
                let al = self.polygons[ja].lines[ka];
                let bl = self.polygons[jb].lines[kb];
                if line_a == line_b {
                    proof {
                        lemma_view_eq_refl(o);
                    }
                    return Err(EditError::RelationConflict);
                }
                if al.relation.is_some() || bl.relation.is_some() {
                    proof {
                        lemma_view_eq_refl(o);
                    }
                    return Err(EditError::RelationConflict);
                }
                proof {
                    // The two edges live at different slots.
                    assert(line_at(o, ja as int, ka as int).id == line_a);
                    assert(line_at(o, jb as int, kb as int).id == line_b);
                }
                let mut al2 = al;
                al2.relation = Some(line_b);
                self.set_line_raw(ja, ka, al2);
                let mut bl2 = bl;
                bl2.relation = Some(line_a);
                self.set_line_raw(jb, kb, bl2);
                proof {
                    let nw = *self;
                    // Pointwise: only the two relations changed.
                    assert forall|j: int, k: int| valid_pl(o, j, k) implies {
                        let ol = #[trigger] line_at(o, j, k);
                        let nl = line_at(nw, j, k);
                        if j == ja as int && k == ka as int {
                            nl == al2
                        } else if j == jb as int && k == kb as int {
                            nl == bl2
                        } else {
                            nl == ol
                        }
                    } by {}
                    assert forall|j: int| 0 <= j < nw.polygons@.len() implies polygon_wf(
                        #[trigger] nw.polygons@[j],
                    ) by {
                        assert(polygon_wf(o.polygons@[j]));
                        let op2 = o.polygons@[j];
                        let np2 = nw.polygons@[j];
                        assert forall|i2: int| 0 <= i2 < np2.lines@.len() implies (
                        #[trigger] np2.lines@[i2]).points == (
                            ring_a(np2.points@, i2),
                            ring_b(np2.points@, i2),
                        ) by {
                            assert(valid_pl(o, j, i2));
                            assert(op2.lines@[i2].points == (ring_a(op2.points@, i2), ring_b(
                                op2.points@,
                                i2,
                            )));
                        }
                        assert forall|i2: int| 0 <= i2 < np2.lines@.len() implies line_ok(
                            #[trigger] np2.lines@[i2],
                        ) by {
                            assert(valid_pl(o, j, i2));
                            assert(line_ok(op2.lines@[i2]));
                        }
                    }
                    assert forall|j1: int, k1: int, j2: int, k2: int|
                        valid_pl(nw, j1, k1) && valid_pl(nw, j2, k2) && (j1 != j2 || k1
                            != k2) implies (#[trigger] line_at(nw, j1, k1)).id != (
                    #[trigger] line_at(nw, j2, k2)).id by {
                        assert(valid_pl(o, j1, k1) && valid_pl(o, j2, k2));
                        assert(line_at(nw, j1, k1).id == line_at(o, j1, k1).id);
                        assert(line_at(nw, j2, k2).id == line_at(o, j2, k2).id);
                        assert(line_at(o, j1, k1).id != line_at(o, j2, k2).id);
                    }
                    assert forall|j: int, k: int| valid_pl(nw, j, k) implies (#[trigger] line_at(
                        nw,
                        j,
                        k,
                    )).id < nw.next_id by {
                        assert(valid_pl(o, j, k));
                        assert(line_at(o, j, k).id < o.next_id);
                    }
                    assert forall|j: int, k: int| valid_pl(nw, j, k) implies #[trigger] rel_ok_at(
                        nw,
                        j,
                        k,
                    ) by {
                        assert(valid_pl(o, j, k));
                        let nl = line_at(nw, j, k);
                        let ol = line_at(o, j, k);
                        if j == ja as int && k == ka as int {
                            assert(nl.relation == Some(line_b));
                            assert(nl.id == line_a);
                            assert(line_at(nw, jb as int, kb as int).id == line_b);
                            assert(line_at(nw, jb as int, kb as int).relation == Some(line_a));
                            assert(has_partner(nw, line_b, line_a));
                        } else if j == jb as int && k == kb as int {
                            assert(nl.relation == Some(line_a));
                            assert(nl.id == line_b);
                            assert(line_at(nw, ja as int, ka as int).id == line_a);
                            assert(line_at(nw, ja as int, ka as int).relation == Some(line_b));
                            assert(has_partner(nw, line_a, line_b));
                        } else if nl.relation is Some {
                            let p = nl.relation->0;
                            assert(nl == ol);
                            assert(rel_ok_at(o, j, k));
                            let (wj, wk) = choose|wj: int, wk: int|
                                valid_pl(o, wj, wk) && (#[trigger] line_at(o, wj, wk)).id == p
                                    && line_at(o, wj, wk).relation == Some(ol.id);
                            if wj == ja as int && wk == ka as int {
                                assert(line_at(o, ja as int, ka as int).relation is Some);
                                assert(false);
                            }
                            if wj == jb as int && wk == kb as int {
                                assert(line_at(o, jb as int, kb as int).relation is Some);
                                assert(false);
                            }
                            assert(line_at(nw, wj, wk) == line_at(o, wj, wk));
                            assert(has_partner(nw, p, nl.id));
                        }
                    }
                }
                let ghost s_mid = *self;
                proof {
                    // The pairing writes changed no id, so the partner and
                    // anchor are found at the same slots as at entry.
                    assert forall|j2: int| 0 <= j2 < o.polygons@.len() implies (
                    #[trigger] s_mid.polygons@[j2]).lines@.len() == o.polygons@[j2].lines@.len() by {}
                    assert forall|j2: int, k2: int|
                        0 <= j2 < o.polygons@.len() && 0 <= k2 < o.polygons@[j2].lines@.len()
                        implies (#[trigger] o.polygons@[j2].lines@[k2]).id
                            == s_mid.polygons@[j2].lines@[k2].id by {}
                    lemma_poly_match_idx_ids(o.polygons@, s_mid.polygons@, line_b);
                    lemma_poly_match_idx_ids(o.polygons@, s_mid.polygons@, line_a);
                    assert forall|k2: int|
                        0 <= k2 < o.polygons@[jb as int].lines@.len() implies (
                    #[trigger] s_mid.polygons@[jb as int].lines@[k2]).id
                        == o.polygons@[jb as int].lines@[k2].id by {}
                    crate::polygon::lemma_line_match_idx_ids(
                        s_mid.polygons@[jb as int].lines@,
                        o.polygons@[jb as int].lines@,
                        line_b,
                    );
                    assert forall|k2: int|
                        0 <= k2 < o.polygons@[ja as int].lines@.len() implies (
                    #[trigger] s_mid.polygons@[ja as int].lines@[k2]).id
                        == o.polygons@[ja as int].lines@[k2].id by {}
                    crate::polygon::lemma_line_match_idx_ids(
                        s_mid.polygons@[ja as int].lines@,
                        o.polygons@[ja as int].lines@,
                        line_a,
                    );
                }
                self.enforce_relation(line_a, line_b);
                let ghost s_e = *self;
                proof {
                    // Read the enforcement clause over the pairing state and
                    // carry the far endpoint's position back to entry terms.
                    let pjm = poly_match_idx(s_mid.polygons@, line_b);
                    assert(pjm == jb as int);
                    let pkm = line_match_idx(s_mid.polygons@[jb as int].lines@, line_b);
                    assert(pkm == kb as int);
                    let blm = line_at(s_mid, jb as int, kb as int);
                    assert(blm == bl2);
                    assert(!blm.visited) by {
                        assert(valid_pl(o, jb as int, kb as int));
                        assert(!line_at(o, jb as int, kb as int).visited);
                    }
                    assert(poly_match_idx(s_mid.polygons@, line_a) == ja as int);
                    assert(line_match_idx(s_mid.polygons@[ja as int].lines@, line_a) == ka as int);
                    assert(line_at(s_mid, ja as int, ka as int) == al2);
                    assert(s_mid.polygons@[ja as int].points@ == o.polygons@[ja as int].points@);
                    assert(s_mid.polygons@[jb as int].points@ == o.polygons@[jb as int].points@);
                }
                self.reset_visited();
                let ghost s_r = *self;
                proof {
                    assert forall|j: int| 0 <= j < s_r.polygons@.len() implies polygon_wf(
                        #[trigger] s_r.polygons@[j],
                    ) by {
                        assert(polygon_wf(s_e.polygons@[j]));
                        let op2 = s_e.polygons@[j];
                        let np2 = s_r.polygons@[j];
                        assert forall|i2: int| 0 <= i2 < np2.lines@.len() implies (
                        #[trigger] np2.lines@[i2]).points == (
                            ring_a(np2.points@, i2),
                            ring_b(np2.points@, i2),
                        ) by {
                            assert(np2.lines@[i2] == (Line { visited: false, ..op2.lines@[i2] }));
                            assert(op2.lines@[i2].points == (ring_a(op2.points@, i2), ring_b(
                                op2.points@,
                                i2,
                            )));
                        }
                        assert forall|i2: int| 0 <= i2 < np2.lines@.len() implies line_ok(
                            #[trigger] np2.lines@[i2],
                        ) by {
                            assert(np2.lines@[i2] == (Line { visited: false, ..op2.lines@[i2] }));
                            assert(line_ok(op2.lines@[i2]));
                        }
                    }
                }
                self.recalculate();
                proof {
                    let nw = *self;
                    // Ids and relations survived the pass; re-establish the
                    // id-dependent clauses from the state after the pairing.
                    assert forall|j: int, k: int| valid_pl(s_mid, j, k) implies {
                        let ml = #[trigger] line_at(s_mid, j, k);
                        let nl = line_at(nw, j, k);
                        &&& nl.id == ml.id
                        &&& nl.points == ml.points
                        &&& nl.is_const == ml.is_const
                        &&& nl.bezier == ml.bezier
                        &&& nl.relation == ml.relation
                        &&& !nl.visited
                    } by {
                        assert(poly_same_shape(s_mid.polygons@[j], s_e.polygons@[j]));
                        assert(line_same_shape(line_at(s_mid, j, k), line_at(s_e, j, k)));
                        assert(s_r.polygons@[j].lines@[k] == (Line {
                            visited: false,
                            ..s_e.polygons@[j].lines@[k]
                        }));
                        assert(nw.polygons@[j].lines@[k] == (Line {
                            length: measured_len(nw.polygons@[j], k) as i64,
                            ..s_r.polygons@[j].lines@[k]
                        }));
                    }
                    assert(scene_rel_shape(s_mid, nw));
                    lemma_rel_shape_struct_wf(s_mid, nw);
                    assert forall|j: int, k: int| valid_pl(nw, j, k) implies !(#[trigger] line_at(
                        nw,
                        j,
                        k,
                    )).visited by {
                        assert(valid_pl(s_mid, j, k));
                    }
                    // Point ids survived as well.
                    assert forall|j: int| 0 <= j < o.polygons@.len() implies {
                        let np2 = #[trigger] nw.polygons@[j];
                        let op2 = o.polygons@[j];
                        &&& np2.points@.len() == op2.points@.len()
                        &&& np2.lines@.len() == op2.lines@.len()
                        &&& forall|k: int|
                            0 <= k < np2.points@.len() ==> (#[trigger] np2.points@[k]).id
                                == op2.points@[k].id
                    } by {
                        assert(poly_same_shape(s_mid.polygons@[j], s_e.polygons@[j]));
                        assert forall|k: int|
                            0 <= k < nw.polygons@[j].points@.len() implies (
                        #[trigger] nw.polygons@[j].points@[k]).id == o.polygons@[j].points@[k].id by {
                            assert(s_mid.polygons@[j].points@[k].id == s_e.polygons@[j].points@[k].id);
                            assert(s_r.polygons@[j].points@ == s_e.polygons@[j].points@);
                            assert(nw.polygons@[j].points@ == s_r.polygons@[j].points@);
                        }
                    }
                    // The enforced far endpoint kept its position through
                    // the mark reset and the refresh.
                    assert(s_r.polygons@[jb as int].points@ == s_e.polygons@[jb as int].points@);
                    assert(nw.polygons@[jb as int].points@ == s_r.polygons@[jb as int].points@);
                }
                Ok(())
            },
            _ => {
                proof {
                    lemma_view_eq_refl(o);
                }
                Err(EditError::NotFound)
            },
        }
    }

    /// Enforce the relation of the anchor edge `line_id` on its partner
    /// `related_line_id` (Rule B): reposition the partner's far endpoint so
    /// that the partner regains its stored length along the anchor's
    /// direction, then let rigidity propagate onward from that endpoint.  An
    /// already marked partner ends the pass (the cycle guard); a degenerate
    /// anchor leaves the partner in place.
    pub fn enforce_relation(&mut self, line_id: u32, related_line_id: u32)
        requires
            scene_struct_wf(*old(self)),
        ensures
            scene_struct_wf(*final(self)),
            scene_same_shape(*old(self), *final(self)),
            count_unvisited(final(self).polygons@) <= count_unvisited(old(self).polygons@),
            marks_monotone(*old(self), *final(self)),
            marked_far_points_stable(*old(self), *final(self)),
            ({
                let pj = poly_match_idx(old(self).polygons@, related_line_id);
                &&& (pj == -1 ==> scene_view_eq(*old(self), *final(self)))
                &&& (pj != -1 ==> {
                    let pk = line_match_idx(old(self).polygons@[pj].lines@, related_line_id);
                    let bl = line_at(*old(self), pj, pk);
                    &&& (bl.visited ==> scene_view_eq(*old(self), *final(self)))
                    &&& (!bl.visited ==> line_at(*final(self), pj, pk).visited)
                    &&& ((!bl.visited && poly_match_idx(old(self).polygons@, line_id) != -1) ==> {
                        let aj = poly_match_idx(old(self).polygons@, line_id);
                        let ak = line_match_idx(old(self).polygons@[aj].lines@, line_id);
                        let al = line_at(*old(self), aj, ak);
                        let spa = old(self).polygons@[aj].points@;
                        let pa = spa[point_match_idx(spa, al.points.0)];
                        let pb = spa[point_match_idx(spa, al.points.1)];
                        let alen = length_of(pa.x as int, pa.y as int, pb.x as int, pb.y as int);
                        let spb = old(self).polygons@[pj].points@;
                        let near = spb[point_match_idx(spb, bl.points.0)];
                        alen >= 1 ==> {
                            let px = rule_b_px(
                                pa.x as int,
                                pb.x as int,
                                alen,
                                bl.length as int,
                                near.x as int,
                            );
                            let py = rule_b_py(
                                pa.y as int,
                                pb.y as int,
                                bl.length as int,
                                px,
                                near.x as int,
                                near.y as int,
                            );
                            final(self).polygons@[pj].points@[pk] == (Point {
                                x: px as i64,
                                y: py as i64,
                                id: bl.points.1,
                            })
                        }
                    })
                })
            }),
        decreases count_unvisited(old(self).polygons@), 0int,
    {
        let ghost s0 = *self;
        let loc = self.find_line(related_line_id);
        match loc {
            None => {
                proof {
                    lemma_same_shape_refl(s0);
                    lemma_view_eq_refl(s0);
                    lemma_stability_refl(s0);
                    lemma_poly_match_idx(s0.polygons@, related_line_id);
                    if poly_match_idx(s0.polygons@, related_line_id) != -1 {
                        let pjq = poly_match_idx(s0.polygons@, related_line_id);
                        assert(has_line_id(s0.polygons@[pjq].lines@, related_line_id));
                        assert(false);
                    }
                    assert(poly_match_idx(s0.polygons@, related_line_id) == -1);
                    assert(scene_view_eq(s0, *self));
                }
            },
            Some((pj, pk)) => {
                let bl = self.polygons[pj].lines[pk];
                if bl.visited {
                    proof {
                        lemma_same_shape_refl(s0);
                        lemma_view_eq_refl(s0);
                        lemma_stability_refl(s0);
                    }
                    return ;
                }
                // Pure reads first: the anchor's endpoints and the partner's
                // near endpoint, all still at their entry positions.
                let aloc = self.find_line(line_id);
                let (a1, a2): (PointCords, PointCords) = match aloc {
                    Some((aj, ak)) => {
                        let al = self.polygons[aj].lines[ak];
                        proof {
                            let sp = self.polygons@[aj as int].points@;
                            let np = sp.len() as int;
                            assert(polygon_wf(self.polygons@[aj as int]));
                            assert(self.polygons@[aj as int].lines@[ak as int].points == (
                                ring_a(sp, ak as int),
                                ring_b(sp, ak as int),
                            ));
                            assert(sp[ring_prev(np, ak as int)].id == al.points.0);
                            assert(has_point_id(sp, al.points.0));
                            assert(sp[ak as int].id == al.points.1);
                            assert(has_point_id(sp, al.points.1));
                        }
                        let q1 = self.polygons[aj].get_point_by_id(al.points.0);
                        let q2 = self.polygons[aj].get_point_by_id(al.points.1);
                        proof {
                            let sp = self.polygons@[aj as int].points@;
                            assert(point_ok(sp[point_match_idx(sp, al.points.0)]));
                            assert(point_ok(sp[point_match_idx(sp, al.points.1)]));
                        }
                        (q1, q2)
                    },
                    None => {
                        proof {
                            lemma_poly_match_idx(s0.polygons@, line_id);
                            if poly_match_idx(s0.polygons@, line_id) != -1 {
                                let ajq = poly_match_idx(s0.polygons@, line_id);
                                assert(has_line_id(s0.polygons@[ajq].lines@, line_id));
                                assert(false);
                            }
                        }
                        (PointCords(0, 0), PointCords(0, 0))
                    },
                };
                let alen = get_line_length(a1, a2);
                proof {
                    let sp = self.polygons@[pj as int].points@;
                    let np = sp.len() as int;
                    assert(polygon_wf(self.polygons@[pj as int]));
                    assert(self.polygons@[pj as int].lines@[pk as int].points == (
                        ring_a(sp, pk as int),
                        ring_b(sp, pk as int),
                    ));
                    assert(sp[ring_prev(np, pk as int)].id == bl.points.0);
                    assert(has_point_id(sp, bl.points.0));
                    assert(sp[pk as int].id == bl.points.1);
                    assert(has_point_id(sp, bl.points.1));
                }
                let p3 = self.polygons[pj].get_point_by_id(bl.points.0);
                proof {
                    let sp = self.polygons@[pj as int].points@;
                    assert(point_ok(sp[point_match_idx(sp, bl.points.0)]));
                    assert(line_ok(self.polygons@[pj as int].lines@[pk as int]));
                }
                self.mark_visited(pj, pk);
                let ghost s1 = *self;
                if alen > 0 {
                    let target = rule_b_target(a1, a2, bl.length, p3);
                    let fi = self.polygons[pj].find_point_index(bl.points.1);
                    match fi {
                        Some(fk) => {
                            proof {
                                // The far endpoint is ring vertex `pk`.
                                crate::polygon::lemma_point_match_idx_of(
                                    s0.polygons@[pj as int].points@,
                                    pk as int,
                                );
                                assert(fk as int == pk as int);
                            }
                            self.set_scene_point(pj, fk, target.0, target.1);
                        },
                        None => {
                            proof {
                                assert(false);
                            }
                        },
                    }
                }
                let ghost s2 = *self;
                proof {
                    lemma_same_shape_trans(s0, s1, s2);
                    assert(count_unvisited(s2.polygons@) as int <= count_unvisited(
                        s0.polygons@,
                    ) as int - 1);
                    // The far endpoint's id survives the coordinate update.
                    assert(poly_same_shape(s1.polygons@[pj as int], s2.polygons@[pj as int]));
                    let sp1 = s1.polygons@[pj as int].points@;
                    let sp2 = s2.polygons@[pj as int].points@;
                    assert(sp2[pk as int].id == sp1[pk as int].id);
                    assert(has_point_id(sp2, bl.points.1));
                    // Marks only grew, and no vertex guarded at entry moved:
                    // the only write is the far endpoint of the partner,
                    // which was unmarked at entry.
                    lemma_monotone_trans(s0, s1, s2);
                    assert forall|j2: int, k2: int|
                        valid_pl(s0, j2, k2) && (#[trigger] line_at(s0, j2, k2)).visited implies
                        s2.polygons@[j2].points@[k2] == s0.polygons@[j2].points@[k2] by {
                        assert(s1.polygons@[j2].points@ == s0.polygons@[j2].points@);
                        if j2 == pj as int && k2 == pk as int {
                            assert(!line_at(s0, pj as int, pk as int).visited);
                        }
                    }
                    assert(marked_far_points_stable(s0, s2));
                    // The partner stays marked from here on.
                    assert(line_at(s2, pj as int, pk as int).visited);
                }
                self.correct_line_length(bl.points.1, pj, true);
                proof {
                    lemma_same_shape_trans(s0, s2, *self);
                    lemma_monotone_trans(s0, s2, *self);
                    lemma_stability_trans(s0, s2, *self);
                    // The partner's far endpoint is still where Rule B put
                    // it: its edge was already marked when the onward walk
                    // started.
                    assert(valid_pl(s2, pj as int, pk as int));
                    assert(self.polygons@[pj as int].points@[pk as int] == s2.polygons@[pj as int].points@[pk as int]);
                    assert(line_at(*self, pj as int, pk as int).visited);
                    // Tie the written position to the Rule B formulas over
                    // the entry state.
                    if aloc is Some && alen > 0 {
                        let (aj, ak) = aloc->0;
                        let al = line_at(s0, aj as int, ak as int);
                        let spa = s0.polygons@[aj as int].points@;
                        let pa = spa[point_match_idx(spa, al.points.0)];
                        let pb = spa[point_match_idx(spa, al.points.1)];
                        assert(pa.x == a1.0 && pa.y == a1.1);
                        assert(pb.x == a2.0 && pb.y == a2.1);
                        let spb = s0.polygons@[pj as int].points@;
                        let near = spb[point_match_idx(spb, bl.points.0)];
                        assert(near.x == p3.0 && near.y == p3.1);
                        assert(alen == length_of(pa.x as int, pa.y as int, pb.x as int, pb.y as int));
                        assert(s1.polygons@[pj as int].points@[pk as int].id == bl.points.1);
                        assert(s2.polygons@[pj as int].points@ == s1.polygons@[pj as int].points@.update(
                            pk as int,
                            (Point {
                                x: rule_b_px(
                                    pa.x as int,
                                    pb.x as int,
                                    alen as int,
                                    bl.length as int,
                                    near.x as int,
                                ) as i64,
                                y: rule_b_py(
                                    pa.y as int,
                                    pb.y as int,
                                    bl.length as int,
                                    rule_b_px(
                                        pa.x as int,
                                        pb.x as int,
                                        alen as int,
                                        bl.length as int,
                                        near.x as int,
                                    ),
                                    near.x as int,
                                    near.y as int,
                                ) as i64,
                                id: bl.points.1,
                            }),
                        ));
                    }
                }
            },
        }
    }

    /// Rule A: walk the polygon's edge ring away from the vertex
    /// `origin_point_id`, restoring the stored length of every constant
    /// edge by moving its far endpoint, and firing Rule B for every related
    /// edge, until a free edge, the origin, or an already marked edge ends
    /// the scan.
    fn walk(
        &mut self,
        origin_point_id: u32,
        line_index: usize,
        polygon_id: usize,
        forward: bool,
        first: bool,
    )
        requires
            scene_struct_wf(*old(self)),
            (polygon_id as int) < old(self).polygons@.len(),
            (line_index as int) < old(self).polygons@[polygon_id as int].lines@.len(),
        ensures
            scene_struct_wf(*final(self)),
            scene_same_shape(*old(self), *final(self)),
            count_unvisited(final(self).polygons@) <= count_unvisited(old(self).polygons@),
            ({
                let l = line_at(*old(self), polygon_id as int, line_index as int);
                (!l.is_const && l.relation is None) ==> scene_view_eq(*old(self), *final(self))
            }),
            marks_monotone(*old(self), *final(self)),
            forward ==> marked_far_points_stable(*old(self), *final(self)),
            ({
                let l = line_at(*old(self), polygon_id as int, line_index as int);
                let p = old(self).polygons@[polygon_id as int];
                let nn = p.points@.len() as int;
                let a1 = p.points@[ring_prev(nn, line_index as int)];
                let a2 = p.points@[line_index as int];
                (first && forward && l.is_const && !l.visited) ==> final(self).polygons@[polygon_id as int].points@[line_index as int] == (Point {
                    x: rule_a_new_far_x(
                        a1.x as int,
                        a1.y as int,
                        a2.x as int,
                        a2.y as int,
                        l.length as int,
                        true,
                    ) as i64,
                    y: rule_a_new_far_y(
                        a1.x as int,
                        a1.y as int,
                        a2.x as int,
                        a2.y as int,
                        l.length as int,
                        true,
                    ) as i64,
                    id: a2.id,
                })
            }),
        decreases count_unvisited(old(self).polygons@), 0int,
    {
        let ghost s0 = *self;
        let l = self.polygons[polygon_id].lines[line_index];
        if !(l.is_const || l.relation.is_some()) {
            proof {
                lemma_same_shape_refl(s0);
                lemma_view_eq_refl(s0);
                lemma_stability_refl(s0);
            }
            return ;
        }
        if !first {
            let near = if forward {
                l.points.0
            } else {
                l.points.1
            };
            if near == origin_point_id {
                proof {
                    lemma_same_shape_refl(s0);
                    lemma_view_eq_refl(s0);
                    lemma_stability_refl(s0);
                }
                return ;
            }
        }
        if l.visited {
            proof {
                lemma_same_shape_refl(s0);
                lemma_view_eq_refl(s0);
                lemma_stability_refl(s0);
            }
            return ;
        }
        self.mark_visited(polygon_id, line_index);
        let ghost s1 = *self;
        if l.is_const {
            proof {
                let sp = self.polygons@[polygon_id as int].points@;
                let np = sp.len() as int;
                assert(polygon_wf(s0.polygons@[polygon_id as int]));
                assert(s0.polygons@[polygon_id as int].lines@[line_index as int].points == (
                    ring_a(sp, line_index as int),
                    ring_b(sp, line_index as int),
                ));
                assert(sp[ring_prev(np, line_index as int)].id == l.points.0);
                assert(has_point_id(sp, l.points.0));
                assert(sp[line_index as int].id == l.points.1);
                assert(has_point_id(sp, l.points.1));
            }
            let p1 = self.polygons[polygon_id].get_point_by_id(l.points.0);
            let p2 = self.polygons[polygon_id].get_point_by_id(l.points.1);
            proof {
                let sp = self.polygons@[polygon_id as int].points@;
                assert(point_ok(sp[point_match_idx(sp, l.points.0)]));
                assert(point_ok(sp[point_match_idx(sp, l.points.1)]));
                assert(line_ok(s0.polygons@[polygon_id as int].lines@[line_index as int]));
            }
            let np = rule_a_step(p1, p2, l.length, forward);
            let far_id = if forward {
                l.points.1
            } else {
                l.points.0
            };
            let fi = self.polygons[polygon_id].find_point_index(far_id);
            match fi {
                Some(fk) => {
                    proof {
                        let sp = s0.polygons@[polygon_id as int].points@;
                        let nn = sp.len() as int;
                        if forward {
                            // The far endpoint of a forward step is ring
                            // vertex `line_index` itself.
                            crate::polygon::lemma_point_match_idx_of(sp, line_index as int);
                            assert(fk as int == line_index as int);
                        } else {
                            crate::polygon::lemma_point_match_idx_of(
                                sp,
                                ring_prev(nn, line_index as int),
                            );
                            assert(fk as int == ring_prev(nn, line_index as int));
                        }
                    }
                    self.set_scene_point(polygon_id, fk, np.0, np.1);
                },
                None => {
                    proof {
                        assert(false);
                    }
                },
            }
        }
        let ghost s2 = *self;
        proof {
            lemma_same_shape_trans(s0, s1, s2);
            assert(count_unvisited(s2.polygons@) as int <= count_unvisited(s0.polygons@) as int
                - 1);
            lemma_monotone_trans(s0, s1, s2);
            if forward {
                // No vertex guarded at entry has moved: the only write (if
                // any) was the far endpoint of this edge, unmarked at entry.
                assert forall|j2: int, k2: int|
                    valid_pl(s0, j2, k2) && (#[trigger] line_at(s0, j2, k2)).visited implies
                    s2.polygons@[j2].points@[k2] == s0.polygons@[j2].points@[k2] by {
                    assert(s1.polygons@[j2].points@ == s0.polygons@[j2].points@);
                    if j2 == polygon_id as int && k2 == line_index as int {
                        assert(!line_at(s0, polygon_id as int, line_index as int).visited);
                    }
                }
                assert(marked_far_points_stable(s0, s2));
            }
            assert(line_at(s2, polygon_id as int, line_index as int).visited);
        }
        match l.relation {
            Some(rel_id) => {
                self.enforce_relation(l.id, rel_id);
            },
            None => {},
        }
        let ghost s3 = *self;
        proof {
            lemma_same_shape_trans(s0, s2, s3);
            assert(count_unvisited(s3.polygons@) as int <= count_unvisited(s0.polygons@) as int
                - 1);
            assert(poly_same_shape(s0.polygons@[polygon_id as int], s3.polygons@[polygon_id as int]));
            lemma_monotone_trans(s0, s2, s3);
            if forward {
                lemma_stability_trans(s0, s2, s3);
            }
            assert(valid_pl(s2, polygon_id as int, line_index as int));
            assert(line_at(s3, polygon_id as int, line_index as int).visited);
        }
        let n = self.polygons[polygon_id].lines.len();
        proof {
            assert(polygon_wf(s3.polygons@[polygon_id as int]));
            assert(n >= 3);
        }
        let next_index: usize = if forward {
            if line_index == n - 1 {
                0
            } else {
                line_index + 1
            }
        } else {
            if line_index == 0 {
                n - 1
            } else {
                line_index - 1
            }
        };
        self.walk(origin_point_id, next_index, polygon_id, forward, false);
        proof {
            lemma_same_shape_trans(s0, s3, *self);
            lemma_monotone_trans(s0, s3, *self);
            if forward {
                lemma_stability_trans(s0, s3, *self);
                if first && l.is_const {
                    // The far endpoint written by this first step has not
                    // moved since: its edge was marked before any onward
                    // work.
                    assert(valid_pl(s3, polygon_id as int, line_index as int));
                    assert(self.polygons@[polygon_id as int].points@[line_index as int]
                        == s3.polygons@[polygon_id as int].points@[line_index as int]);
                    assert(s3.polygons@[polygon_id as int].points@[line_index as int]
                        == s2.polygons@[polygon_id as int].points@[line_index as int]);
                }
            }
        }
    }

    /// Run rigidity propagation (Rule A) from the vertex `point_id` of
    /// polygon `polygon_id`, in one direction: forward along the vertex's
    /// outgoing edge, or backward along its incoming edge.  When that first
    /// edge is free (neither constant nor related) nothing moves.
    pub fn correct_line_length(
        &mut self,
        point_id: u32,
        polygon_id: usize,
        is_direction_forward: bool,
    )
        requires
            scene_struct_wf(*old(self)),
            (polygon_id as int) < old(self).polygons@.len(),
            has_point_id(old(self).polygons@[polygon_id as int].points@, point_id),
        ensures
            scene_struct_wf(*final(self)),
            scene_same_shape(*old(self), *final(self)),
            count_unvisited(final(self).polygons@) <= count_unvisited(old(self).polygons@),
            ({
                let p = old(self).polygons@[polygon_id as int];
                let kp = point_match_idx(p.points@, point_id);
                let li = if is_direction_forward {
                    if kp == p.points@.len() - 1 {
                        0int
                    } else {
                        kp + 1
                    }
                } else {
                    kp
                };
                let l = p.lines@[li];
                (!l.is_const && l.relation is None) ==> scene_view_eq(*old(self), *final(self))
            }),
            marks_monotone(*old(self), *final(self)),
            is_direction_forward ==> marked_far_points_stable(*old(self), *final(self)),
            ({
                let p = old(self).polygons@[polygon_id as int];
                let kp = point_match_idx(p.points@, point_id);
                let nn = p.points@.len() as int;
                let li = if is_direction_forward {
                    if kp == nn - 1 {
                        0int
                    } else {
                        kp + 1
                    }
                } else {
                    kp
                };
                let l = p.lines@[li];
                let a1 = p.points@[ring_prev(nn, li)];
                let a2 = p.points@[li];
                (is_direction_forward && l.is_const && !l.visited) ==> final(self).polygons@[polygon_id as int].points@[li] == (Point {
                    x: rule_a_new_far_x(
                        a1.x as int,
                        a1.y as int,
                        a2.x as int,
                        a2.y as int,
                        l.length as int,
                        true,
                    ) as i64,
                    y: rule_a_new_far_y(
                        a1.x as int,
                        a1.y as int,
                        a2.x as int,
                        a2.y as int,
                        l.length as int,
                        true,
                    ) as i64,
                    id: a2.id,
                })
            }),
        decreases count_unvisited(old(self).polygons@), 1int,
    {
        let fi = self.polygons[polygon_id].find_point_index(point_id);
        match fi {
            Some(kp) => {
                let n = self.polygons[polygon_id].points.len();
                proof {
                    assert(polygon_wf(self.polygons@[polygon_id as int]));
                }
                let li: usize = if is_direction_forward {
                    if kp == n - 1 {
                        0
                    } else {
                        kp + 1
                    }
                } else {
                    kp
                };
                proof {
                    let p = self.polygons@[polygon_id as int];
                    assert(p.lines@[li as int].points == (
                        ring_a(p.points@, li as int),
                        ring_b(p.points@, li as int),
                    ));
                }
                self.walk(point_id, li, polygon_id, is_direction_forward, true);
            },
            None => {
                proof {
                    assert(false);
                }
            },
        }
    }

    /// Symmetric midpoint extension: both endpoints of the edge `line_id`
    /// move apart (or together) by `extention` each, along the edge's own
    /// direction, so the edge's measured length changes by twice the
    /// extension.  Everything else is untouched.
    pub fn correct_line_mid(&mut self, extention: i64, line_id: u32, polygon_id: usize)
        requires
            scene_struct_wf(*old(self)),
            (polygon_id as int) < old(self).polygons@.len(),
            has_line_id(old(self).polygons@[polygon_id as int].lines@, line_id),
            -LEN_LIMIT <= extention <= LEN_LIMIT,
        ensures
            scene_struct_wf(*final(self)),
            scene_same_shape(*old(self), *final(self)),
            count_unvisited(final(self).polygons@) == count_unvisited(old(self).polygons@),
            final(self).next_id == old(self).next_id,
            final(self).polygons@.len() == old(self).polygons@.len(),
            forall|j: int|
                0 <= j < old(self).polygons@.len() && j != polygon_id ==> final(self).polygons@[j]
                    == old(self).polygons@[j],
            final(self).polygons@[polygon_id as int].lines@ == old(self).polygons@[polygon_id as int].lines@,
            final(self).polygons@[polygon_id as int].center == old(self).polygons@[polygon_id as int].center,
            ({
                let p = old(self).polygons@[polygon_id as int];
                let kl = line_match_idx(p.lines@, line_id);
                let ia = point_match_idx(p.points@, p.lines@[kl].points.0);
                let ib = point_match_idx(p.points@, p.lines@[kl].points.1);
                let pa = p.points@[ia];
                let pb = p.points@[ib];
                let tx = mid_tx(pb.x as int, pb.y as int, pa.x as int, pa.y as int, extention as int);
                let ty = mid_ty(pb.x as int, pb.y as int, pa.x as int, pa.y as int, extention as int);
                let nax = if pa.x > pb.x { clamp_spec(pa.x + tx) } else { clamp_spec(pa.x - tx) };
                let nbx = if pa.x > pb.x { clamp_spec(pb.x - tx) } else { clamp_spec(pb.x + tx) };
                let nay = if pa.y > pb.y { clamp_spec(pa.y + ty) } else { clamp_spec(pa.y - ty) };
                let nby = if pa.y > pb.y { clamp_spec(pb.y - ty) } else { clamp_spec(pb.y + ty) };
                final(self).polygons@[polygon_id as int].points@ == p.points@.update(
                    ia,
                    (Point { x: nax as i64, y: nay as i64, id: pa.id }),
                ).update(ib, (Point { x: nbx as i64, y: nby as i64, id: pb.id }))
            }),
    {
        let ghost o = *old(self);
        let fi = self.polygons[polygon_id].find_line_index(line_id);
        match fi {
            None => {
                proof {
                    assert(false);
                }
            },
            Some(kl) => {
                proof {
                    lemma_line_match_idx(o.polygons@[polygon_id as int].lines@, line_id);
                    assert(polygon_wf(o.polygons@[polygon_id as int]));
                    let sp = o.polygons@[polygon_id as int].points@;
                    let np = sp.len() as int;
                    let l0 = o.polygons@[polygon_id as int].lines@[kl as int];
                    assert(l0.points == (ring_a(sp, kl as int), ring_b(sp, kl as int)));
                    assert(sp[ring_prev(np, kl as int)].id == l0.points.0);
                    assert(has_point_id(sp, l0.points.0));
                    assert(sp[kl as int].id == l0.points.1);
                    assert(has_point_id(sp, l0.points.1));
                }
                let l = self.polygons[polygon_id].lines[kl];
                let fa = self.polygons[polygon_id].find_point_index(l.points.0);
                let fb = self.polygons[polygon_id].find_point_index(l.points.1);
                match (fa, fb) {
                    (Some(ia), Some(ib)) => {
                        let pa = self.polygons[polygon_id].points[ia];
                        let pb = self.polygons[polygon_id].points[ib];
                        proof {
                            assert(point_ok(pa));
                            assert(point_ok(pb));
                            crate::utils::lemma_length_bounds(
                                pb.x as int,
                                pb.y as int,
                                pa.x as int,
                                pa.y as int,
                            );
                        }
                        let len = get_line_length(PointCords(pb.x, pb.y), PointCords(pa.x, pa.y));
                        let (tx, ty): (i128, i128) = if len == 0 {
                            (0, 0)
                        } else {
                            let adx: i128 = if pa.x >= pb.x {
                                pa.x as i128 - pb.x as i128
                            } else {
                                pb.x as i128 - pa.x as i128
                            };
                            let ady: i128 = if pa.y >= pb.y {
                                pa.y as i128 - pb.y as i128
                            } else {
                                pb.y as i128 - pa.y as i128
                            };
                            proof {
                                assert(extention as int * adx as int <= 3000000000 * len as int
                                    && -(3000000000 * len as int) <= extention as int
                                    * adx as int) by (nonlinear_arith)
                                    requires
                                        -3000000000 <= extention as int <= 3000000000,
                                        0 <= adx as int <= len as int,
                                ;
                                assert(extention as int * ady as int <= 3000000000 * len as int
                                    && -(3000000000 * len as int) <= extention as int
                                    * ady as int) by (nonlinear_arith)
                                    requires
                                        -3000000000 <= extention as int <= 3000000000,
                                        0 <= ady as int <= len as int,
                                ;
                                assert(3000000000 * len as int <= 9000000000000000000)
                                    by (nonlinear_arith)
                                    requires
                                        0 <= len as int <= 3000000000,
                                ;
                                lemma_tdiv_le(extention as int * adx as int, len as int, 3000000000);
                                lemma_tdiv_le(extention as int * ady as int, len as int, 3000000000);
                            }
                            (
                                div_trunc(extention as i128 * adx, len as i128),
                                div_trunc(extention as i128 * ady, len as i128),
                            )
                        };
                        let nax: i64 = if pa.x > pb.x {
                            clamp_coord(pa.x as i128 + tx)
                        } else {
                            clamp_coord(pa.x as i128 - tx)
                        };
                        let nbx: i64 = if pa.x > pb.x {
                            clamp_coord(pb.x as i128 - tx)
                        } else {
                            clamp_coord(pb.x as i128 + tx)
                        };
                        let nay: i64 = if pa.y > pb.y {
                            clamp_coord(pa.y as i128 + ty)
                        } else {
                            clamp_coord(pa.y as i128 - ty)
                        };
                        let nby: i64 = if pa.y > pb.y {
                            clamp_coord(pb.y as i128 - ty)
                        } else {
                            clamp_coord(pb.y as i128 + ty)
                        };
                        let ghost s0 = *self;
                        self.set_scene_point(polygon_id, ia, nax, nay);
                        let ghost s1 = *self;
                        self.set_scene_point(polygon_id, ib, nbx, nby);
                        proof {
                            lemma_same_shape_trans(s0, s1, *self);
                            assert(s1.polygons@[polygon_id as int].points@[ib as int].id
                                == pb.id);
                            assert(self.polygons@[polygon_id as int].points@
                                == o.polygons@[polygon_id as int].points@.update(
                                ia as int,
                                (Point { x: nax, y: nay, id: pa.id }),
                            ).update(ib as int, (Point { x: nbx, y: nby, id: pb.id })));
                        }
                    },
                    _ => {
                        proof {
                            assert(false);
                        }
                    },
                }
            },
        }
    }

    /// Drag the vertex `point_id` of polygon `polygon_id` by `(dx, dy)`:
    /// the vertex is translated (clamped into range), rigidity then
    /// propagates outward along both of the vertex's edges, the pass marks
    /// are cleared, and centres and cached lengths are refreshed.  When both
    /// adjacent edges are free, exactly the dragged vertex moves.
    pub fn move_point(&mut self, polygon_id: usize, point_id: u32, dx: i64, dy: i64) -> (r: Result<
        (),
        EditError,
    >)
        requires
            scene_wf(*old(self)),
        ensures
            scene_wf(*final(self)),
            (r is Ok) <==> ((polygon_id as int) < old(self).polygons@.len() && has_point_id(
                old(self).polygons@[polygon_id as int].points@,
                point_id,
            )),
            r is Err ==> r == Err::<(), EditError>(EditError::NotFound) && scene_view_eq(
                *old(self),
                *final(self),
            ),
            r is Ok ==> scene_same_topo(*old(self), *final(self)),
            ({
                let p = old(self).polygons@[polygon_id as int];
                let kp = point_match_idx(p.points@, point_id);
                let n = p.points@.len() as int;
                let lf = p.lines@[if kp == n - 1 {
                    0int
                } else {
                    kp + 1
                }];
                let lb = p.lines@[kp];
                (r is Ok && !lf.is_const && lf.relation is None && !lb.is_const && lb.relation
                    is None) ==> {
                    &&& forall|j: int|
                        0 <= j < old(self).polygons@.len() && j != polygon_id ==> (
                        #[trigger] final(self).polygons@[j]).points@ == old(self).polygons@[j].points@
                    &&& final(self).polygons@[polygon_id as int].points@ == p.points@.update(
                        kp,
                        (Point {
                            x: clamp_spec(p.points@[kp].x + dx) as i64,
                            y: clamp_spec(p.points@[kp].y + dy) as i64,
                            id: point_id,
                        }),
                    )
                }
            }),
            ({
                // Rule A on a constant outgoing edge: after the drag, the
                // edge's far endpoint sits where one rigidity step puts it,
                // measured from the translated vertex.
                let p = old(self).polygons@[polygon_id as int];
                let kp = point_match_idx(p.points@, point_id);
                let n = p.points@.len() as int;
                let lif = if kp == n - 1 {
                    0int
                } else {
                    kp + 1
                };
                let lf = p.lines@[lif];
                let lb = p.lines@[kp];
                let mx = clamp_spec(p.points@[kp].x + dx);
                let my = clamp_spec(p.points@[kp].y + dy);
                let a2 = p.points@[lif];
                (r is Ok && !lb.is_const && lb.relation is None && lf.is_const) ==> final(self).polygons@[polygon_id as int].points@[lif] == (Point {
                    x: rule_a_new_far_x(mx, my, a2.x as int, a2.y as int, lf.length as int, true) as i64,
                    y: rule_a_new_far_y(mx, my, a2.x as int, a2.y as int, lf.length as int, true) as i64,
                    id: a2.id,
                })
            }),
    {
        let ghost o = *old(self);
        if polygon_id >= self.polygons.len() {
            proof {
                lemma_view_eq_refl(o);
            }
            return Err(EditError::NotFound);
        }
        let fi = self.polygons[polygon_id].find_point_index(point_id);
        match fi {
            None => {
                proof {
                    lemma_view_eq_refl(o);
                }
                Err(EditError::NotFound)
            },
            Some(kp) => {
                proof {
                    lemma_point_match_idx(o.polygons@[polygon_id as int].points@, point_id);
                    assert(polygon_wf(o.polygons@[polygon_id as int]));
                }
                let pt = self.polygons[polygon_id].points[kp];
                let nx = clamp_coord(pt.x as i128 + dx as i128);
                let ny = clamp_coord(pt.y as i128 + dy as i128);
                self.set_scene_point(polygon_id, kp, nx, ny);
                let ghost s1 = *self;
                proof {
                    assert(s1.polygons@[polygon_id as int].points@[kp as int].id == point_id);
                    assert(has_point_id(s1.polygons@[polygon_id as int].points@, point_id));
                    crate::polygon::lemma_point_match_idx_ids(
                        s1.polygons@[polygon_id as int].points@,
                        o.polygons@[polygon_id as int].points@,
                        point_id,
                    );
                }
                self.correct_line_length(point_id, polygon_id, false);
                let ghost s2 = *self;
                proof {
                    lemma_same_shape_trans(s1, s2, s2);
                    assert(poly_same_shape(s1.polygons@[polygon_id as int], s2.polygons@[polygon_id as int]));
                    assert(s2.polygons@[polygon_id as int].points@[kp as int].id == point_id);
                    assert(has_point_id(s2.polygons@[polygon_id as int].points@, point_id));
                    crate::polygon::lemma_point_match_idx_ids(
                        s2.polygons@[polygon_id as int].points@,
                        o.polygons@[polygon_id as int].points@,
                        point_id,
                    );
                }
                self.correct_line_length(point_id, polygon_id, true);
                let ghost s3 = *self;
                self.reset_visited();
                let ghost s4 = *self;
                proof {
                    assert forall|j: int| 0 <= j < s4.polygons@.len() implies polygon_wf(
                        #[trigger] s4.polygons@[j],
                    ) by {
                        assert(polygon_wf(s3.polygons@[j]));
                        let op2 = s3.polygons@[j];
                        let np2 = s4.polygons@[j];
                        assert forall|i2: int| 0 <= i2 < np2.lines@.len() implies (
                        #[trigger] np2.lines@[i2]).points == (
                            ring_a(np2.points@, i2),
                            ring_b(np2.points@, i2),
                        ) by {
                            assert(np2.lines@[i2] == (Line { visited: false, ..op2.lines@[i2] }));
                            assert(op2.lines@[i2].points == (ring_a(op2.points@, i2), ring_b(
                                op2.points@,
                                i2,
                            )));
                        }
                        assert forall|i2: int| 0 <= i2 < np2.lines@.len() implies line_ok(
                            #[trigger] np2.lines@[i2],
                        ) by {
                            assert(np2.lines@[i2] == (Line { visited: false, ..op2.lines@[i2] }));
                            assert(line_ok(op2.lines@[i2]));
                        }
                    }
                }
                self.recalculate();
                proof {
                    let nw = *self;
                    // Ids and relations survived the whole edit.
                    assert forall|j: int, k: int| valid_pl(s4, j, k) implies (#[trigger] line_at(
                        s4,
                        j,
                        k,
                    )).id == line_at(nw, j, k).id && line_at(s4, j, k).relation == line_at(
                        nw,
                        j,
                        k,
                    ).relation by {
                        assert(nw.polygons@[j].lines@[k] == (Line {
                            length: measured_len(nw.polygons@[j], k) as i64,
                            ..s4.polygons@[j].lines@[k]
                        }));
                    }
                    assert(scene_rel_shape(s4, nw));
                    lemma_rel_shape_struct_wf(s4, nw);
                    assert forall|j: int, k: int| valid_pl(nw, j, k) implies !(#[trigger] line_at(
                        nw,
                        j,
                        k,
                    )).visited by {
                        assert(valid_pl(s4, j, k));
                        assert(!line_at(s4, j, k).visited);
                        assert(nw.polygons@[j].lines@[k] == (Line {
                            length: measured_len(nw.polygons@[j], k) as i64,
                            ..s4.polygons@[j].lines@[k]
                        }));
                    }
                    // The whole edit preserved the topology.
                    lemma_same_shape_trans(s1, s2, s3);
                    assert forall|j: int| 0 <= j < o.polygons@.len() implies {
                        let pa = #[trigger] o.polygons@[j];
                        let pb = nw.polygons@[j];
                        &&& pa.points@.len() == pb.points@.len()
                        &&& pa.lines@.len() == pb.lines@.len()
                        &&& forall|k: int|
                            0 <= k < pa.points@.len() ==> (#[trigger] pa.points@[k]).id
                                == pb.points@[k].id
                        &&& forall|k: int|
                            0 <= k < pa.lines@.len() ==> {
                                let la = #[trigger] pa.lines@[k];
                                let lb2 = pb.lines@[k];
                                &&& la.id == lb2.id
                                &&& la.points == lb2.points
                                &&& la.is_const == lb2.is_const
                                &&& la.relation == lb2.relation
                                &&& la.bezier == lb2.bezier
                            }
                    } by {
                        assert(poly_same_shape(s1.polygons@[j], s3.polygons@[j]));
                        assert forall|k: int|
                            0 <= k < o.polygons@[j].points@.len() implies (
                        #[trigger] o.polygons@[j].points@[k]).id == nw.polygons@[j].points@[k].id by {
                            assert(s1.polygons@[j].points@[k].id == s3.polygons@[j].points@[k].id);
                            assert(s4.polygons@[j].points@ == s3.polygons@[j].points@);
                            assert(nw.polygons@[j].points@ == s4.polygons@[j].points@);
                        }
                        assert forall|k: int|
                            0 <= k < o.polygons@[j].lines@.len() implies {
                            let la = #[trigger] o.polygons@[j].lines@[k];
                            let lb2 = nw.polygons@[j].lines@[k];
                            &&& la.id == lb2.id
                            &&& la.points == lb2.points
                            &&& la.is_const == lb2.is_const
                            &&& la.relation == lb2.relation
                            &&& la.bezier == lb2.bezier
                        } by {
                            assert(line_same_shape(s1.polygons@[j].lines@[k], s3.polygons@[j].lines@[k]));
                            assert(s4.polygons@[j].lines@[k] == (Line {
                                visited: false,
                                ..s3.polygons@[j].lines@[k]
                            }));
                            assert(nw.polygons@[j].lines@[k] == (Line {
                                length: measured_len(nw.polygons@[j], k) as i64,
                                ..s4.polygons@[j].lines@[k]
                            }));
                        }
                    }
                    // When both adjacent edges are free, the propagation was
                    // the identity and only the dragged vertex moved.
                    let p = o.polygons@[polygon_id as int];
                    let kpi = point_match_idx(p.points@, point_id);
                    let n = p.points@.len() as int;
                    let lf = p.lines@[if kpi == n - 1 {
                        0int
                    } else {
                        kpi + 1
                    }];
                    let lb = p.lines@[kpi];
                    if !lf.is_const && lf.relation is None && !lb.is_const && lb.relation is None {
                        assert(s1.polygons@[polygon_id as int].lines@ == p.lines@);
                        assert(scene_view_eq(s1, s2));
                        assert forall|j: int| 0 <= j < s1.polygons@.len() implies (
                        #[trigger] s2.polygons@[j]).points@ == s1.polygons@[j].points@
                            && s2.polygons@[j].lines@ == s1.polygons@[j].lines@ by {
                            assert(poly_view_eq(s1.polygons@[j], s2.polygons@[j]));
                        }
                        assert(scene_view_eq(s2, s3));
                        assert forall|j: int| 0 <= j < s2.polygons@.len() implies (
                        #[trigger] s3.polygons@[j]).points@ == s2.polygons@[j].points@ by {
                            assert(poly_view_eq(s2.polygons@[j], s3.polygons@[j]));
                        }
                        assert forall|j: int|
                            0 <= j < o.polygons@.len() && j != polygon_id implies (
                        #[trigger] nw.polygons@[j]).points@ == o.polygons@[j].points@ by {
                            assert(s1.polygons@[j] == o.polygons@[j]);
                            assert(s3.polygons@[j].points@ == s1.polygons@[j].points@);
                            assert(s4.polygons@[j].points@ == s3.polygons@[j].points@);
                        }
                        assert(nw.polygons@[polygon_id as int].points@ == s1.polygons@[polygon_id as int].points@);
                    }
                    // Rule A on a constant outgoing edge: its far endpoint
                    // was placed by the forward pass and has not moved since.
                    let lif = if kpi == n - 1 {
                        0int
                    } else {
                        kpi + 1
                    };
                    if !lb.is_const && lb.relation is None && lf.is_const {
                        assert(s1.polygons@[polygon_id as int].lines@ == p.lines@);
                        assert(scene_view_eq(s1, s2));
                        assert forall|j: int| 0 <= j < s1.polygons@.len() implies (
                        #[trigger] s2.polygons@[j]).points@ == s1.polygons@[j].points@
                            && s2.polygons@[j].lines@ == s1.polygons@[j].lines@ by {
                            assert(poly_view_eq(s1.polygons@[j], s2.polygons@[j]));
                        }
                        // The forward pass's first edge is the constant one,
                        // still unmarked.
                        assert(point_match_idx(s2.polygons@[polygon_id as int].points@, point_id)
                            == kpi);
                        assert(s2.polygons@[polygon_id as int].lines@[lif] == lf);
                        assert(valid_pl(o, polygon_id as int, lif));
                        assert(!line_at(o, polygon_id as int, lif).visited);
                        assert(!s2.polygons@[polygon_id as int].lines@[lif].visited);
                        let a1 = s2.polygons@[polygon_id as int].points@[ring_prev(n, lif)];
                        let a2 = s2.polygons@[polygon_id as int].points@[lif];
                        assert(ring_prev(n, lif) == kpi);
                        assert(a1 == (Point {
                            x: clamp_spec(p.points@[kpi].x + dx) as i64,
                            y: clamp_spec(p.points@[kpi].y + dy) as i64,
                            id: point_id,
                        }));
                        assert(a2 == p.points@[lif]);
                        assert(s3.polygons@[polygon_id as int].points@[lif] == (Point {
                            x: rule_a_new_far_x(
                                a1.x as int,
                                a1.y as int,
                                a2.x as int,
                                a2.y as int,
                                lf.length as int,
                                true,
                            ) as i64,
                            y: rule_a_new_far_y(
                                a1.x as int,
                                a1.y as int,
                                a2.x as int,
                                a2.y as int,
                                lf.length as int,
                                true,
                            ) as i64,
                            id: a2.id,
                        }));
                        assert(s4.polygons@[polygon_id as int].points@ == s3.polygons@[polygon_id as int].points@);
                        assert(nw.polygons@[polygon_id as int].points@ == s4.polygons@[polygon_id as int].points@);
                    }
                }
                Ok(())
            },
        }
    }

    /// Edit the target length of the edge `line_id` of polygon
    /// `polygon_id`: both endpoints move apart (or together) symmetrically
    /// by half the length delta, rigidity then propagates outward from both
    /// endpoints, and centres and cached lengths are refreshed.
    #[verifier::rlimit(100)]
    #[verifier::spinoff_prover]
    pub fn set_line_length(&mut self, polygon_id: usize, line_id: u32, new_length: i64) -> (r:
        Result<(), EditError>)
        requires
            scene_wf(*old(self)),
            0 <= new_length <= LEN_LIMIT,
        ensures
            scene_wf(*final(self)),
            (r is Ok) <==> ((polygon_id as int) < old(self).polygons@.len() && has_line_id(
                old(self).polygons@[polygon_id as int].lines@,
                line_id,
            )),
            r is Err ==> r == Err::<(), EditError>(EditError::NotFound) && scene_view_eq(
                *old(self),
                *final(self),
            ),
            r is Ok ==> scene_same_topo(*old(self), *final(self)),
            ({
                let p = old(self).polygons@[polygon_id as int];
                let kl = line_match_idx(p.lines@, line_id);
                let n = p.points@.len() as int;
                let lnext = p.lines@[if kl == n - 1 {
                    0int
                } else {
                    kl + 1
                }];
                let lprev = p.lines@[ring_prev(n, kl)];
                let ia = point_match_idx(p.points@, p.lines@[kl].points.0);
                let ib = point_match_idx(p.points@, p.lines@[kl].points.1);
                let pa = p.points@[ia];
                let pb = p.points@[ib];
                let ext = tdiv(new_length - p.lines@[kl].length, 2);
                let tx = mid_tx(pb.x as int, pb.y as int, pa.x as int, pa.y as int, ext);
                let ty = mid_ty(pb.x as int, pb.y as int, pa.x as int, pa.y as int, ext);
                let nax = if pa.x > pb.x { clamp_spec(pa.x + tx) } else { clamp_spec(pa.x - tx) };
                let nbx = if pa.x > pb.x { clamp_spec(pb.x - tx) } else { clamp_spec(pb.x + tx) };
                let nay = if pa.y > pb.y { clamp_spec(pa.y + ty) } else { clamp_spec(pa.y - ty) };
                let nby = if pa.y > pb.y { clamp_spec(pb.y - ty) } else { clamp_spec(pb.y + ty) };
                (r is Ok && !lnext.is_const && lnext.relation is None && !lprev.is_const
                    && lprev.relation is None) ==> {
                    &&& forall|j: int|
                        0 <= j < old(self).polygons@.len() && j != polygon_id ==> (
                        #[trigger] final(self).polygons@[j]).points@ == old(self).polygons@[j].points@
                    &&& final(self).polygons@[polygon_id as int].points@ == p.points@.update(
                        ia,
                        (Point { x: nax as i64, y: nay as i64, id: pa.id }),
                    ).update(ib, (Point { x: nbx as i64, y: nby as i64, id: pb.id }))
                }
            }),
            ({
                // Rule A on a constant next edge: after the symmetric
                // extension, its far endpoint sits where one rigidity step
                // puts it, measured from the moved shared endpoint.
                let p = old(self).polygons@[polygon_id as int];
                let kl = line_match_idx(p.lines@, line_id);
                let n = p.points@.len() as int;
                let klnext = if kl == n - 1 {
                    0int
                } else {
                    kl + 1
                };
                let lnext = p.lines@[klnext];
                let lprev = p.lines@[ring_prev(n, kl)];
                let ia = point_match_idx(p.points@, p.lines@[kl].points.0);
                let ib = point_match_idx(p.points@, p.lines@[kl].points.1);
                let pa = p.points@[ia];
                let pb = p.points@[ib];
                let ext = tdiv(new_length - p.lines@[kl].length, 2);
                let tx = mid_tx(pb.x as int, pb.y as int, pa.x as int, pa.y as int, ext);
                let ty = mid_ty(pb.x as int, pb.y as int, pa.x as int, pa.y as int, ext);
                let nbx = if pa.x > pb.x {
                    clamp_spec(pb.x - tx)
                } else {
                    clamp_spec(pb.x + tx)
                };
                let nby = if pa.y > pb.y {
                    clamp_spec(pb.y - ty)
                } else {
                    clamp_spec(pb.y + ty)
                };
                let a2 = p.points@[klnext];
                (r is Ok && !lprev.is_const && lprev.relation is None && lnext.is_const)
                    ==> final(self).polygons@[polygon_id as int].points@[klnext] == (Point {
                    x: rule_a_new_far_x(nbx, nby, a2.x as int, a2.y as int, lnext.length as int, true) as i64,
                    y: rule_a_new_far_y(nbx, nby, a2.x as int, a2.y as int, lnext.length as int, true) as i64,
                    id: a2.id,
                })
            }),
    {
        let ghost o = *old(self);
        if polygon_id >= self.polygons.len() {
            proof {
                lemma_view_eq_refl(o);
            }
            return Err(EditError::NotFound);
        }
        let fi = self.polygons[polygon_id].find_line_index(line_id);
        match fi {
            None => {
                proof {
                    lemma_view_eq_refl(o);
                }
                Err(EditError::NotFound)
            },
            Some(kl) => {
                proof {
                    lemma_line_match_idx(o.polygons@[polygon_id as int].lines@, line_id);
                    assert(polygon_wf(o.polygons@[polygon_id as int]));
                    assert(line_ok(o.polygons@[polygon_id as int].lines@[kl as int]));
                }
                let l = self.polygons[polygon_id].lines[kl];
                let extd: i128 = new_length as i128 - l.length as i128;
                proof {
                    lemma_tdiv_le(extd as int, 2, 3000000000);
                }
                let ext: i64 = div_trunc(extd, 2) as i64;
                let mut l2 = l;
                l2.length = new_length;
                self.set_line_raw(polygon_id, kl, l2);
                let ghost s1 = *self;
                proof {
                    // Only one stored length changed: structure intact.
                    assert forall|j: int| 0 <= j < s1.polygons@.len() implies polygon_wf(
                        #[trigger] s1.polygons@[j],
                    ) by {
                        assert(polygon_wf(o.polygons@[j]));
                        if j == polygon_id as int {
                            lemma_polygon_wf_after_line_update(
                                o.polygons@[j],
                                s1.polygons@[j],
                                kl as int,
                                l2,
                            );
                        }
                    }
                    assert(scene_rel_shape(o, s1));
                    lemma_rel_shape_struct_wf(o, s1);
                    assert(has_line_id(s1.polygons@[polygon_id as int].lines@, line_id));
                    assert forall|i2: int|
                        0 <= i2 < s1.polygons@[polygon_id as int].lines@.len() implies (
                    #[trigger] s1.polygons@[polygon_id as int].lines@[i2]).id
                        == o.polygons@[polygon_id as int].lines@[i2].id by {}
                    crate::polygon::lemma_line_match_idx_ids(
                        s1.polygons@[polygon_id as int].lines@,
                        o.polygons@[polygon_id as int].lines@,
                        line_id,
                    );
                    assert(line_match_idx(s1.polygons@[polygon_id as int].lines@, line_id)
                        == kl as int);
                }
                self.correct_line_mid(ext, line_id, polygon_id);
                let ghost s2 = *self;
                proof {
                    assert(poly_same_shape(s1.polygons@[polygon_id as int], s2.polygons@[polygon_id as int]));
                    assert(s2.polygons@[polygon_id as int].points@[kl as int].id == l.points.1);
                    assert(has_point_id(s2.polygons@[polygon_id as int].points@, l.points.1));
                }
                self.correct_line_length(l.points.1, polygon_id, true);
                let ghost s3 = *self;
                proof {
                    lemma_same_shape_trans(s1, s2, s3);
                    assert(poly_same_shape(s1.polygons@[polygon_id as int], s3.polygons@[polygon_id as int]));
                    let n0 = s3.polygons@[polygon_id as int].points@.len() as int;
                    let prev = ring_prev(n0, kl as int);
                    assert(s3.polygons@[polygon_id as int].points@[prev].id == l.points.0);
                    assert(has_point_id(s3.polygons@[polygon_id as int].points@, l.points.0));
                }
                self.correct_line_length(l.points.0, polygon_id, false);
                let ghost s4 = *self;
                self.reset_visited();
                let ghost s5 = *self;
                proof {
                    assert forall|j: int| 0 <= j < s5.polygons@.len() implies polygon_wf(
                        #[trigger] s5.polygons@[j],
                    ) by {
                        assert(polygon_wf(s4.polygons@[j]));
                        let op2 = s4.polygons@[j];
                        let np2 = s5.polygons@[j];
                        assert forall|i2: int| 0 <= i2 < np2.lines@.len() implies (
                        #[trigger] np2.lines@[i2]).points == (
                            ring_a(np2.points@, i2),
                            ring_b(np2.points@, i2),
                        ) by {
                            assert(np2.lines@[i2] == (Line { visited: false, ..op2.lines@[i2] }));
                            assert(op2.lines@[i2].points == (ring_a(op2.points@, i2), ring_b(
                                op2.points@,
                                i2,
                            )));
                        }
                        assert forall|i2: int| 0 <= i2 < np2.lines@.len() implies line_ok(
                            #[trigger] np2.lines@[i2],
                        ) by {
                            assert(np2.lines@[i2] == (Line { visited: false, ..op2.lines@[i2] }));
                            assert(line_ok(op2.lines@[i2]));
                        }
                    }
                }
                self.recalculate();
                proof {
                    let nw = *self;
                    assert forall|j: int, k: int| valid_pl(s5, j, k) implies (#[trigger] line_at(
                        s5,
                        j,
                        k,
                    )).id == line_at(nw, j, k).id && line_at(s5, j, k).relation == line_at(
                        nw,
                        j,
                        k,
                    ).relation by {
                        assert(nw.polygons@[j].lines@[k] == (Line {
                            length: measured_len(nw.polygons@[j], k) as i64,
                            ..s5.polygons@[j].lines@[k]
                        }));
                    }
                    assert(scene_rel_shape(s5, nw));
                    lemma_rel_shape_struct_wf(s5, nw);
                    assert forall|j: int, k: int| valid_pl(nw, j, k) implies !(#[trigger] line_at(
                        nw,
                        j,
                        k,
                    )).visited by {
                        assert(valid_pl(s5, j, k));
                        assert(!line_at(s5, j, k).visited);
                        assert(nw.polygons@[j].lines@[k] == (Line {
                            length: measured_len(nw.polygons@[j], k) as i64,
                            ..s5.polygons@[j].lines@[k]
                        }));
                    }
                    // Topology preserved end to end.
                    lemma_same_shape_trans(s1, s3, s4);
                    assert forall|j: int| 0 <= j < o.polygons@.len() implies {
                        let pa2 = #[trigger] o.polygons@[j];
                        let pb2 = nw.polygons@[j];
                        &&& pa2.points@.len() == pb2.points@.len()
                        &&& pa2.lines@.len() == pb2.lines@.len()
                        &&& forall|k: int|
                            0 <= k < pa2.points@.len() ==> (#[trigger] pa2.points@[k]).id
                                == pb2.points@[k].id
                        &&& forall|k: int|
                            0 <= k < pa2.lines@.len() ==> {
                                let la = #[trigger] pa2.lines@[k];
                                let lb2 = pb2.lines@[k];
                                &&& la.id == lb2.id
                                &&& la.points == lb2.points
                                &&& la.is_const == lb2.is_const
                                &&& la.relation == lb2.relation
                                &&& la.bezier == lb2.bezier
                            }
                    } by {
                        assert(poly_same_shape(s1.polygons@[j], s4.polygons@[j]));
                        assert forall|k: int|
                            0 <= k < o.polygons@[j].points@.len() implies (
                        #[trigger] o.polygons@[j].points@[k]).id == nw.polygons@[j].points@[k].id by {
                            assert(s1.polygons@[j].points@[k].id == s4.polygons@[j].points@[k].id);
                            assert(s1.polygons@[j].points@[k].id == o.polygons@[j].points@[k].id);
                            assert(s5.polygons@[j].points@ == s4.polygons@[j].points@);
                            assert(nw.polygons@[j].points@ == s5.polygons@[j].points@);
                        }
                        assert forall|k: int|
                            0 <= k < o.polygons@[j].lines@.len() implies {
                            let la = #[trigger] o.polygons@[j].lines@[k];
                            let lb2 = nw.polygons@[j].lines@[k];
                            &&& la.id == lb2.id
                            &&& la.points == lb2.points
                            &&& la.is_const == lb2.is_const
                            &&& la.relation == lb2.relation
                            &&& la.bezier == lb2.bezier
                        } by {
                            assert(line_same_shape(s1.polygons@[j].lines@[k], s4.polygons@[j].lines@[k]));
                            if j == polygon_id as int && k == kl as int {
                                assert(s1.polygons@[j].lines@[k] == l2);
                            } else {
                                assert(s1.polygons@[j].lines@[k] == o.polygons@[j].lines@[k]);
                            }
                            assert(s5.polygons@[j].lines@[k] == (Line {
                                visited: false,
                                ..s4.polygons@[j].lines@[k]
                            }));
                            assert(nw.polygons@[j].lines@[k] == (Line {
                                length: measured_len(nw.polygons@[j], k) as i64,
                                ..s5.polygons@[j].lines@[k]
                            }));
                        }
                    }
                    // When the two neighbouring edges are free, only the two
                    // endpoints of the edited edge moved.
                    let p = o.polygons@[polygon_id as int];
                    let n = p.points@.len() as int;
                    let lnext = p.lines@[if kl as int == n - 1 {
                        0int
                    } else {
                        kl as int + 1
                    }];
                    let lprev = p.lines@[ring_prev(n, kl as int)];
                    if !lnext.is_const && lnext.relation is None && !lprev.is_const
                        && lprev.relation is None {
                        assert(s2.polygons@[polygon_id as int].lines@ == s1.polygons@[polygon_id as int].lines@);
                        assert(s1.polygons@[polygon_id as int].lines@ == o.polygons@[polygon_id as int].lines@.update(kl as int, l2));
                        crate::polygon::lemma_point_match_idx_ids(
                            s2.polygons@[polygon_id as int].points@,
                            o.polygons@[polygon_id as int].points@,
                            l.points.1,
                        );
                        assert(crate::utils::distinct_ids(p.points@));
                        crate::polygon::lemma_point_match_idx_of(p.points@, kl as int);
                        assert(point_match_idx(p.points@, l.points.1) == kl as int);
                        assert(s2.polygons@[polygon_id as int].lines@[if kl as int == n - 1 {
                            0int
                        } else {
                            kl as int + 1
                        }] == lnext);
                        assert(scene_view_eq(s2, s3));
                        assert forall|j: int| 0 <= j < s2.polygons@.len() implies (
                        #[trigger] s3.polygons@[j]).points@ == s2.polygons@[j].points@
                            && s3.polygons@[j].lines@ == s2.polygons@[j].lines@ by {
                            assert(poly_view_eq(s2.polygons@[j], s3.polygons@[j]));
                        }
                        crate::polygon::lemma_point_match_idx_ids(
                            s3.polygons@[polygon_id as int].points@,
                            o.polygons@[polygon_id as int].points@,
                            l.points.0,
                        );
                        crate::polygon::lemma_point_match_idx_of(p.points@, ring_prev(n, kl as int));
                        assert(point_match_idx(p.points@, l.points.0) == ring_prev(n, kl as int));
                        assert(scene_view_eq(s3, s4));
                        assert forall|j: int| 0 <= j < s3.polygons@.len() implies (
                        #[trigger] s4.polygons@[j]).points@ == s3.polygons@[j].points@ by {
                            assert(poly_view_eq(s3.polygons@[j], s4.polygons@[j]));
                        }
                        assert forall|j: int|
                            0 <= j < o.polygons@.len() && j != polygon_id implies (
                        #[trigger] nw.polygons@[j]).points@ == o.polygons@[j].points@ by {
                            assert(s1.polygons@[j] == o.polygons@[j]);
                            assert(s2.polygons@[j] == s1.polygons@[j]);
                            assert(s4.polygons@[j].points@ == s2.polygons@[j].points@);
                            assert(s5.polygons@[j].points@ == s4.polygons@[j].points@);
                            assert(nw.polygons@[j].points@ == s5.polygons@[j].points@);
                        }
                        assert(nw.polygons@[polygon_id as int].points@ == s2.polygons@[polygon_id as int].points@);
                        assert(s1.polygons@[polygon_id as int].points@ == p.points@);
                        assert(s1.polygons@[polygon_id as int].lines@[kl as int].points.0 == l.points.0);
                    }
                    // A constant next edge: the forward pass placed its far
                    // endpoint, and the free previous edge kept the
                    // backward pass from touching anything.
                    let klnext = if kl as int == n - 1 {
                        0int
                    } else {
                        kl as int + 1
                    };
                    if !lprev.is_const && lprev.relation is None && lnext.is_const {
                        assert(s2.polygons@[polygon_id as int].lines@ == s1.polygons@[polygon_id as int].lines@);
                        assert(s1.polygons@[polygon_id as int].lines@ == o.polygons@[polygon_id as int].lines@.update(kl as int, l2));
                        crate::polygon::lemma_point_match_idx_ids(
                            s2.polygons@[polygon_id as int].points@,
                            o.polygons@[polygon_id as int].points@,
                            l.points.1,
                        );
                        assert(crate::utils::distinct_ids(p.points@));
                        crate::polygon::lemma_point_match_idx_of(p.points@, kl as int);
                        assert(point_match_idx(p.points@, l.points.1) == kl as int);
                        assert(point_match_idx(s2.polygons@[polygon_id as int].points@, l.points.1)
                            == kl as int);
                        assert(s2.polygons@[polygon_id as int].lines@[klnext] == lnext);
                        assert(valid_pl(o, polygon_id as int, klnext));
                        assert(!line_at(o, polygon_id as int, klnext).visited);
                        assert(!s2.polygons@[polygon_id as int].lines@[klnext].visited);
                        // The shared endpoint moved by the extension; the
                        // far endpoint had not moved yet.
                        let ia2 = point_match_idx(p.points@, l.points.0);
                        assert(ia2 == ring_prev(n, kl as int)) by {
                            crate::polygon::lemma_point_match_idx_of(p.points@, ring_prev(n, kl as int));
                        }
                        assert(ring_prev(n, klnext) == kl as int);
                        assert(klnext != kl as int && klnext != ia2);
                        let a1 = s2.polygons@[polygon_id as int].points@[kl as int];
                        let a2 = s2.polygons@[polygon_id as int].points@[klnext];
                        assert(a2 == p.points@[klnext]);
                        assert(s3.polygons@[polygon_id as int].points@[klnext] == (Point {
                            x: rule_a_new_far_x(
                                a1.x as int,
                                a1.y as int,
                                a2.x as int,
                                a2.y as int,
                                lnext.length as int,
                                true,
                            ) as i64,
                            y: rule_a_new_far_y(
                                a1.x as int,
                                a1.y as int,
                                a2.x as int,
                                a2.y as int,
                                lnext.length as int,
                                true,
                            ) as i64,
                            id: a2.id,
                        }));
                        // The backward pass was a no-op.
                        crate::polygon::lemma_point_match_idx_ids(
                            s3.polygons@[polygon_id as int].points@,
                            o.polygons@[polygon_id as int].points@,
                            l.points.0,
                        );
                        assert(point_match_idx(s3.polygons@[polygon_id as int].points@, l.points.0)
                            == ring_prev(n, kl as int));
                        let lb3 = s3.polygons@[polygon_id as int].lines@[ring_prev(n, kl as int)];
                        assert(line_same_shape(
                            s2.polygons@[polygon_id as int].lines@[ring_prev(n, kl as int)],
                            lb3,
                        )) by {
                            assert(poly_same_shape(s2.polygons@[polygon_id as int], s3.polygons@[polygon_id as int]));
                        }
                        assert(ring_prev(n, kl as int) != kl as int);
                        assert(s2.polygons@[polygon_id as int].lines@[ring_prev(n, kl as int)]
                            == lprev);
                        assert(!lb3.is_const && lb3.relation is None);
                        assert(scene_view_eq(s3, s4));
                        assert(s4.polygons@[polygon_id as int].points@ == s3.polygons@[polygon_id as int].points@) by {
                            assert(poly_view_eq(s3.polygons@[polygon_id as int], s4.polygons@[polygon_id as int]));
                        }
                        assert(s5.polygons@[polygon_id as int].points@ == s4.polygons@[polygon_id as int].points@);
                        assert(nw.polygons@[polygon_id as int].points@ == s5.polygons@[polygon_id as int].points@);
                    }
                }
                Ok(())
            },
        }
    }

    /// Resolve a screen coordinate to the first polygon and entity it
    /// hovers over, scanning polygons in creation order.
    pub fn pick(&self, x: i64, y: i64) -> (r: Option<(usize, PressedObject)>)
        requires
            polys_wf(*self),
            coord_ok(x),
            coord_ok(y),
        ensures
            match r {
                Some(hit) => pick_from(self.polygons@, 0, PointCords(x, y)) == Some(
                    (hit.0 as int, hit.1),
                ),
                None => pick_from(self.polygons@, 0, PointCords(x, y)) is None,
            },
    {
        let c = PointCords(x, y);
        let n = self.polygons.len();
        let mut j: usize = 0;
        while j < n
            invariant
                0 <= j <= n,
                n == self.polygons@.len(),
                polys_wf(*self),
                coord_ok(x),
                coord_ok(y),
                c == PointCords(x, y),
                pick_from(self.polygons@, 0, c) == pick_from(self.polygons@, j as int, c),
            decreases n - j,
        {
            proof {
                assert(polygon_wf(self.polygons@[j as int]));
            }
            let h = self.polygons[j].check_hover(x, y);
            match h {
                Some(po) => {
                    return Some((j, po));
                },
                None => {},
            }
            j += 1;
        }
        None
    }

    /// Close a loop of freshly placed coordinates into a new polygon: one
    /// vertex per coordinate with a fresh id, free edges along the ring with
    /// their measured lengths, and the centroid as centre.  Fewer than three
    /// coordinates build nothing.
    pub fn finalize_polygon(&mut self, cords: Vec<PointCords>) -> (r: Option<usize>)
        requires
            scene_wf(*old(self)),
            forall|i: int| 0 <= i < cords@.len() ==> cords_ok(#[trigger] cords@[i]),
            old(self).next_id as int + 2 * cords@.len() <= u32::MAX as int,
        ensures
            scene_wf(*final(self)),
            (r is Some) <==> cords@.len() >= 3,
            r is None ==> scene_view_eq(*old(self), *final(self)) && final(self).next_id == old(self).next_id,
            r is Some ==> ({
                let np = final(self).polygons@[old(self).polygons@.len() as int];
                &&& r->0 == old(self).polygons@.len()
                &&& final(self).polygons@.len() == old(self).polygons@.len() + 1
                &&& forall|j: int|
                    0 <= j < old(self).polygons@.len() ==> final(self).polygons@[j] == old(self).polygons@[j]
                &&& final(self).next_id as int == old(self).next_id as int + 2 * cords@.len()
                &&& np.points@.len() == cords@.len()
                &&& forall|i: int|
                    0 <= i < cords@.len() ==> ((#[trigger] np.points@[i]).x == cords@[i].0
                        && np.points@[i].y == cords@[i].1 && np.points@[i].id as int == old(self).next_id as int + i)
                &&& np.lines@.len() == cords@.len()
                &&& forall|i: int|
                    0 <= i < np.lines@.len() ==> #[trigger] crate::utils::good_fresh_line(
                        np.points@,
                        np.lines@,
                        (old(self).next_id + cords@.len() as u32) as u32,
                        i,
                    )
                &&& forall|i: int|
                    0 <= i < np.lines@.len() ==> ((#[trigger] np.lines@[i]).id as int == old(self).next_id as int + cords@.len() + i && np.lines@[i].relation is None
                        && !np.lines@[i].is_const)
            }),
    {
        let ghost o = *old(self);
        let n = cords.len();
        if n < 3 {
            proof {
                lemma_view_eq_refl(o);
            }
            return None;
        }
        let mut points: Vec<Point> = Vec::new();
        let mut i: usize = 0;
        while i < n
            invariant
                0 <= i <= n,
                n == cords@.len(),
                self == old(self),
                old(self).next_id as int + 2 * n as int <= u32::MAX as int,
                forall|k: int| 0 <= k < cords@.len() ==> cords_ok(#[trigger] cords@[k]),
                points@.len() == i,
                forall|k: int|
                    0 <= k < i ==> ((#[trigger] points@[k]).x == cords@[k].0 && points@[k].y
                        == cords@[k].1 && points@[k].id as int == old(self).next_id as int + k),
                forall|k: int| 0 <= k < i ==> point_ok(#[trigger] points@[k]),
            decreases n - i,
        {
            let c = cords[i];
            points.push(Point { x: c.0, y: c.1, id: self.next_id + (i as u32) });
            i += 1;
        }
        let first_line_id: u32 = self.next_id + (n as u32);
        let lines = crate::utils::calcualate_new_lines(&points, first_line_id);
        let center = get_centroid(&points);
        let poly = Polygon { points, lines, center };
        let ghost npg = poly;
        self.polygons.push(poly);
        self.next_id = self.next_id + 2 * (n as u32);
        proof {
            let nw = *self;
            // The new polygon is well formed: sequential ids are distinct,
            // and the fresh edges connect the ring.
            assert forall|x2: int, y2: int|
                0 <= x2 < y2 < npg.points@.len() implies (#[trigger] npg.points@[x2]).id != (
            #[trigger] npg.points@[y2]).id by {}
            assert forall|i2: int| 0 <= i2 < npg.lines@.len() implies (#[trigger] npg.lines@[i2]).points
                == (ring_a(npg.points@, i2), ring_b(npg.points@, i2)) by {
                assert(crate::utils::good_fresh_line(npg.points@, npg.lines@, first_line_id, i2));
            }
            assert(polygon_wf(npg));
            assert forall|j: int| 0 <= j < nw.polygons@.len() implies polygon_wf(
                #[trigger] nw.polygons@[j],
            ) by {
                if j < o.polygons@.len() {
                    assert(nw.polygons@[j] == o.polygons@[j]);
                    assert(polygon_wf(o.polygons@[j]));
                }
            }
            // Fresh line ids are above every existing id and distinct.
            assert forall|i2: int| 0 <= i2 < npg.lines@.len() implies o.next_id <= (
            #[trigger] npg.lines@[i2]).id < nw.next_id by {
                assert(crate::utils::good_fresh_line(npg.points@, npg.lines@, first_line_id, i2));
            }
            assert forall|j1: int, k1: int, j2: int, k2: int|
                valid_pl(nw, j1, k1) && valid_pl(nw, j2, k2) && (j1 != j2 || k1 != k2) implies (
            #[trigger] line_at(nw, j1, k1)).id != (#[trigger] line_at(nw, j2, k2)).id by {
                let jn = o.polygons@.len() as int;
                if j1 < jn && j2 < jn {
                    assert(valid_pl(o, j1, k1) && valid_pl(o, j2, k2));
                    assert(line_at(o, j1, k1).id != line_at(o, j2, k2).id);
                } else if j1 < jn && j2 == jn {
                    assert(valid_pl(o, j1, k1));
                    assert(line_at(o, j1, k1).id < o.next_id);
                    assert(crate::utils::good_fresh_line(npg.points@, npg.lines@, first_line_id, k2));
                } else if j1 == jn && j2 < jn {
                    assert(valid_pl(o, j2, k2));
                    assert(line_at(o, j2, k2).id < o.next_id);
                    assert(crate::utils::good_fresh_line(npg.points@, npg.lines@, first_line_id, k1));
                } else {
                    assert(crate::utils::good_fresh_line(npg.points@, npg.lines@, first_line_id, k1));
                    assert(crate::utils::good_fresh_line(npg.points@, npg.lines@, first_line_id, k2));
                }
            }
            assert forall|j: int, k: int| valid_pl(nw, j, k) implies (#[trigger] line_at(
                nw,
                j,
                k,
            )).id < nw.next_id by {
                if j < o.polygons@.len() {
                    assert(valid_pl(o, j, k));
                    assert(line_at(o, j, k).id < o.next_id);
                } else {
                    assert(crate::utils::good_fresh_line(npg.points@, npg.lines@, first_line_id, k));
                }
            }
            // New edges carry no relation; old relations keep their partners.
            assert forall|j: int, k: int| valid_pl(nw, j, k) implies #[trigger] rel_ok_at(
                nw,
                j,
                k,
            ) by {
                let jn = o.polygons@.len() as int;
                if j < jn {
                    assert(valid_pl(o, j, k));
                    assert(rel_ok_at(o, j, k));
                    assert(line_at(nw, j, k) == line_at(o, j, k));
                    if line_at(nw, j, k).relation is Some {
                        let m = line_at(nw, j, k).relation->0;
                        let (wj, wk) = choose|wj: int, wk: int|
                            valid_pl(o, wj, wk) && (#[trigger] line_at(o, wj, wk)).id == m
                                && line_at(o, wj, wk).relation == Some(line_at(o, j, k).id);
                        assert(line_at(nw, wj, wk) == line_at(o, wj, wk));
                        assert(valid_pl(nw, wj, wk));
                        assert(has_partner(nw, m, line_at(nw, j, k).id));
                    }
                } else {
                    assert(crate::utils::good_fresh_line(npg.points@, npg.lines@, first_line_id, k));
                }
            }
            assert forall|j: int, k: int| valid_pl(nw, j, k) implies !(#[trigger] line_at(
                nw,
                j,
                k,
            )).visited by {
                if j < o.polygons@.len() {
                    assert(valid_pl(o, j, k));
                    assert(!line_at(o, j, k).visited);
                } else {
                    assert(crate::utils::good_fresh_line(npg.points@, npg.lines@, first_line_id, k));
                }
            }
            // The new polygon is centred and settled by construction.
            assert forall|j: int| 0 <= j < nw.polygons@.len() implies polygon_centered(
                #[trigger] nw.polygons@[j],
            ) && polygon_settled(nw.polygons@[j]) by {
                if j < o.polygons@.len() {
                    assert(nw.polygons@[j] == o.polygons@[j]);
                    assert(polygon_centered(o.polygons@[j]) && polygon_settled(o.polygons@[j]));
                } else {
                    assert forall|i2: int|
                        0 <= i2 < npg.lines@.len() implies (#[trigger] npg.lines@[i2]).length
                            == measured_len(npg, i2) by {
                        assert(crate::utils::good_fresh_line(
                            npg.points@,
                            npg.lines@,
                            first_line_id,
                            i2,
                        ));
                    }
                }
            }
            assert forall|i2: int| 0 <= i2 < npg.lines@.len() implies ((#[trigger] npg.lines@[i2]).id as int
                == o.next_id as int + n + i2 && npg.lines@[i2].relation is None
                && !npg.lines@[i2].is_const) by {
                assert(crate::utils::good_fresh_line(npg.points@, npg.lines@, first_line_id, i2));
            }
        }
        Some(self.polygons.len() - 1)
    }

    /// Destroy the polygon at index `polygon_id`: every relation between one
    /// of its edges and a partner anywhere in the scene is dissolved on both
    /// sides first, so that no relation ever references an edge of a
    /// destroyed polygon.
    pub fn delete_polygon(&mut self, polygon_id: usize) -> (r: Result<(), EditError>)
        requires
            scene_wf(*old(self)),
        ensures
            scene_wf(*final(self)),
            (r is Ok) <==> (polygon_id as int) < old(self).polygons@.len(),
            r is Err ==> r == Err::<(), EditError>(EditError::NotFound) && scene_view_eq(
                *old(self),
                *final(self),
            ),
            r is Ok ==> ({
                let removed = old(self).polygons@[polygon_id as int];
                &&& final(self).polygons@.len() == old(self).polygons@.len() - 1
                &&& final(self).next_id == old(self).next_id
                &&& forall|j: int|
                    0 <= j < final(self).polygons@.len() ==> #[trigger] survivor_ok(
                        *old(self),
                        *final(self),
                        polygon_id as int,
                        j,
                    )
                &&& forall|j: int, k: int|
                    valid_pl(*final(self), j, k) ==> ((#[trigger] line_at(
                        *final(self),
                        j,
                        k,
                    )).relation matches Some(m) ==> !has_line_id(removed.lines@, m))
            }),
    {
        let ghost o = *old(self);
        if polygon_id >= self.polygons.len() {
            proof {
                lemma_view_eq_refl(o);
            }
            return Err(EditError::NotFound);
        }
        let nl = self.polygons[polygon_id].lines.len();
        let mut k: usize = 0;
        while k < nl
            invariant
                0 <= k <= nl,
                scene_wf(*self),
                (polygon_id as int) < o.polygons@.len(),
                scene_wf(o),
                nl == o.polygons@[polygon_id as int].lines@.len(),
                self.polygons@.len() == o.polygons@.len(),
                self.next_id == o.next_id,
                forall|j: int|
                    0 <= j < o.polygons@.len() ==> {
                        let np2 = #[trigger] self.polygons@[j];
                        let op2 = o.polygons@[j];
                        &&& np2.points@ == op2.points@
                        &&& np2.center == op2.center
                        &&& np2.lines@.len() == op2.lines@.len()
                    },
                forall|j: int, kk: int|
                    valid_pl(o, j, kk) ==> #[trigger] del_slot_ok(
                        o,
                        *self,
                        polygon_id as int,
                        k as int,
                        j,
                        kk,
                    ),
            decreases nl - k,
        {
            let target = self.polygons[polygon_id].lines[k].id;
            proof {
                assert(valid_pl(o, polygon_id as int, k as int));
                assert(del_slot_ok(o, *self, polygon_id as int, k as int, polygon_id as int, k as int));
                assert(target == line_at(o, polygon_id as int, k as int).id);
            }
            let ghost pre = *self;
            let res = self.clear_relation(target);
            proof {
                let cur = *self;
                if res is Err {
                    assert(has_line_id(pre.polygons@[polygon_id as int].lines@, target)) by {
                        assert(line_at(pre, polygon_id as int, k as int).id == target);
                    }
                    lemma_poly_match_idx(pre.polygons@, target);
                    if poly_match_idx(pre.polygons@, target) == -1 {
                        assert(!has_line_id(pre.polygons@[polygon_id as int].lines@, target));
                    }
                    assert(false);
                }
                let pj = poly_match_idx(pre.polygons@, target);
                let pk = line_match_idx(pre.polygons@[pj].lines@, target);
                lemma_poly_match_idx(pre.polygons@, target);
                lemma_line_match_idx(pre.polygons@[pj].lines@, target);
                assert(valid_pl(pre, pj, pk));
                assert(line_at(pre, pj, pk).id == target);
                assert(valid_pl(o, pj, pk));
                assert(line_at(o, pj, pk).id == target) by {
                    assert(del_slot_ok(o, pre, polygon_id as int, k as int, pj, pk));
                }
                assert(pj == polygon_id as int && pk == k as int) by {
                    if pj != polygon_id as int || pk != k as int {
                        assert(line_at(o, pj, pk).id != line_at(o, polygon_id as int, k as int).id);
                    }
                }
                let rel = line_at(pre, polygon_id as int, k as int).relation;
                lemma_delete_clear_step(o, pre, cur, polygon_id as int, k as int, target, rel);
            }
            k += 1;
        }
        let ghost cleared = *self;
        self.polygons.remove(polygon_id);
        proof {
            cleared.polygons@.remove_ensures(polygon_id as int);
            lemma_delete_finish(o, cleared, *self, polygon_id as int);
        }
        Ok(())
    }

    /// Split the edge `line_id` of polygon `polygon_id` at its midpoint:
    /// a new vertex with id `new_point_id` is inserted between the edge's
    /// endpoints, and the edge is replaced by two fresh free edges.  Any
    /// relation the split edge carried is dropped on both sides.
    #[verifier::rlimit(100)]
    #[verifier::spinoff_prover]
    pub fn split_edge(&mut self, polygon_id: usize, line_id: u32, new_point_id: u32) -> (r: Result<
        (),
        EditError,
    >)
        requires
            scene_wf(*old(self)),
            old(self).next_id as int + 2 <= u32::MAX as int,
        ensures
            scene_wf(*final(self)),
            (r == Err::<(), EditError>(EditError::NotFound)) <==> !((polygon_id as int) < old(self).polygons@.len() && has_line_id(
                old(self).polygons@[polygon_id as int].lines@,
                line_id,
            )),
            ((polygon_id as int) < old(self).polygons@.len() && has_line_id(
                old(self).polygons@[polygon_id as int].lines@,
                line_id,
            )) ==> ((r == Err::<(), EditError>(EditError::InvalidTopology)) <==> has_point_id(
                old(self).polygons@[polygon_id as int].points@,
                new_point_id,
            )),
            (r is Ok) <==> ((polygon_id as int) < old(self).polygons@.len() && has_line_id(
                old(self).polygons@[polygon_id as int].lines@,
                line_id,
            ) && !has_point_id(old(self).polygons@[polygon_id as int].points@, new_point_id)),
            r is Err ==> scene_view_eq(*old(self), *final(self)) && final(self).next_id == old(self).next_id,
            r is Ok ==> ({
                let p = old(self).polygons@[polygon_id as int];
                let n = p.points@.len() as int;
                let kl = line_match_idx(p.lines@, line_id);
                let l = p.lines@[kl];
                let rel = l.relation;
                let pa = p.points@[ring_prev(n, kl)];
                let pb = p.points@[kl];
                let newpt = (Point {
                    x: middle_x((PointCords(pa.x, pa.y)), (PointCords(pb.x, pb.y))) as i64,
                    y: middle_y((PointCords(pa.x, pa.y)), (PointCords(pb.x, pb.y))) as i64,
                    id: new_point_id,
                });
                let np = final(self).polygons@[polygon_id as int];
                &&& final(self).next_id as int == old(self).next_id as int + 2
                &&& final(self).polygons@.len() == old(self).polygons@.len()
                &&& forall|j: int|
                    0 <= j < old(self).polygons@.len() && j != polygon_id ==> {
                        let np2 = #[trigger] final(self).polygons@[j];
                        let op2 = old(self).polygons@[j];
                        &&& np2.points@ == op2.points@
                        &&& np2.center == op2.center
                        &&& np2.lines@.len() == op2.lines@.len()
                        &&& forall|k: int|
                            0 <= k < np2.lines@.len() ==> {
                                let ol = op2.lines@[k];
                                let nl = #[trigger] np2.lines@[k];
                                if rel matches Some(m) && ol.id == m {
                                    nl == (Line { relation: None::<u32>, ..ol })
                                } else {
                                    nl == ol
                                }
                            }
                    }
                &&& np.points@ == p.points@.insert(kl, newpt)
                &&& np.lines@.len() == p.lines@.len() + 1
                &&& np.lines@[kl].points == (l.points.0, new_point_id)
                &&& np.lines@[kl].id == old(self).next_id
                &&& !np.lines@[kl].is_const
                &&& np.lines@[kl].relation is None
                &&& np.lines@[kl + 1].points == (new_point_id, l.points.1)
                &&& np.lines@[kl + 1].id as int == old(self).next_id as int + 1
                &&& !np.lines@[kl + 1].is_const
                &&& np.lines@[kl + 1].relation is None
                &&& forall|i: int|
                    0 <= i < np.lines@.len() && i != kl && i != kl + 1 ==> {
                        let oi = if i < kl {
                            i
                        } else {
                            i - 1
                        };
                        let ol = p.lines@[oi];
                        (#[trigger] np.lines@[i]) == (if rel matches Some(m) && ol.id == m {
                            (Line { relation: None::<u32>, ..ol })
                        } else {
                            ol
                        })
                    }
            }),
    {
        let ghost o = *old(self);
        if polygon_id >= self.polygons.len() {
            proof {
                lemma_view_eq_refl(o);
            }
            return Err(EditError::NotFound);
        }
        let fl = self.polygons[polygon_id].find_line_index(line_id);
        match fl {
            None => {
                proof {
                    lemma_view_eq_refl(o);
                }
                Err(EditError::NotFound)
            },
            Some(kl) => {
                proof {
                    lemma_line_match_idx(o.polygons@[polygon_id as int].lines@, line_id);
                    assert(has_line_id(o.polygons@[polygon_id as int].lines@, line_id));
                }
                let fp = self.polygons[polygon_id].find_point_index(new_point_id);
                match fp {
                    Some(kp) => {
                        proof {
                            lemma_view_eq_refl(o);
                            lemma_point_match_idx(
                                o.polygons@[polygon_id as int].points@,
                                new_point_id,
                            );
                            assert(kp as int == point_match_idx(
                                o.polygons@[polygon_id as int].points@,
                                new_point_id,
                            ));
                            assert(has_point_id(
                                o.polygons@[polygon_id as int].points@,
                                new_point_id,
                            ));
                        }
                        return Err(EditError::InvalidTopology);
                    },
                    None => {},
                }
                let l = self.polygons[polygon_id].lines[kl];
                let nlines = self.polygons[polygon_id].lines.len();
                proof {
                    assert(kl < nlines);
                }
                let kl1: usize = kl + 1;
                let res = self.clear_relation(line_id);
                let ghost mid = *self;
                proof {
                    if res is Err {
                        lemma_poly_match_idx(o.polygons@, line_id);
                        if poly_match_idx(o.polygons@, line_id) == -1 {
                            assert(!has_line_id(o.polygons@[polygon_id as int].lines@, line_id));
                        }
                        assert(false);
                    }
                    // The cleared slot is exactly (polygon_id, kl).
                    let pj = poly_match_idx(o.polygons@, line_id);
                    let pk = line_match_idx(o.polygons@[pj].lines@, line_id);
                    lemma_poly_match_idx(o.polygons@, line_id);
                    lemma_line_match_idx(o.polygons@[pj].lines@, line_id);
                    assert(valid_pl(o, pj, pk));
                    assert(line_at(o, pj, pk).id == line_id);
                    assert(valid_pl(o, polygon_id as int, kl as int));
                    assert(line_at(o, polygon_id as int, kl as int).id == line_id);
                    assert(pj == polygon_id as int && pk == kl as int) by {
                        if pj != polygon_id as int || pk != kl as int {
                            assert(line_at(o, pj, pk).id != line_at(
                                o,
                                polygon_id as int,
                                kl as int,
                            ).id);
                        }
                    }
                    assert(polygon_wf(mid.polygons@[polygon_id as int]));
                }
                // Midpoint of the split edge, from the live coordinates.
                proof {
                    let sp = mid.polygons@[polygon_id as int].points@;
                    let n = sp.len() as int;
                    assert(mid.polygons@[polygon_id as int].lines@[kl as int].points == (
                        ring_a(sp, kl as int),
                        ring_b(sp, kl as int),
                    ));
                    assert(sp[ring_prev(n, kl as int)].id == l.points.0);
                    assert(has_point_id(sp, l.points.0));
                    assert(sp[kl as int].id == l.points.1);
                    assert(has_point_id(sp, l.points.1));
                    crate::polygon::lemma_point_match_idx_of(sp, ring_prev(n, kl as int));
                    crate::polygon::lemma_point_match_idx_of(sp, kl as int);
                    assert(point_ok(sp[ring_prev(n, kl as int)]));
                    assert(point_ok(sp[kl as int]));
                }
                let p1c = self.polygons[polygon_id].get_point_by_id(l.points.0);
                let p2c = self.polygons[polygon_id].get_point_by_id(l.points.1);
                let mpt = crate::utils::calculate_middle_point(p1c, p2c);
                let newpt = Point { x: mpt.0, y: mpt.1, id: new_point_id };
                self.polygons[polygon_id].points.insert(kl, newpt);
                proof {
                    mid.polygons@[polygon_id as int].points@.insert_ensures(kl as int, newpt);
                    let sp2 = self.polygons@[polygon_id as int].points@;
                    // The extended ring still has distinct ids, and the
                    // three relevant vertices are found at known indices.
                    assert forall|x: int, y: int|
                        0 <= x < y < sp2.len() implies (#[trigger] sp2[x]).id != (
                    #[trigger] sp2[y]).id by {
                        let sp = mid.polygons@[polygon_id as int].points@;
                        let ox = if x < kl as int {
                            x
                        } else {
                            x - 1
                        };
                        let oy = if y < kl as int {
                            y
                        } else {
                            y - 1
                        };
                        if x != kl as int && y != kl as int {
                            assert(sp[ox].id != sp[oy].id);
                        } else if x == kl as int {
                            assert(sp[oy].id != new_point_id);
                        } else {
                            assert(sp[ox].id != new_point_id);
                        }
                    }
                    assert(has_point_id(sp2, l.points.0)) by {
                        let sp = mid.polygons@[polygon_id as int].points@;
                        let n = sp.len() as int;
                        let oi = ring_prev(n, kl as int);
                        let ni = if oi < kl as int {
                            oi
                        } else {
                            oi + 1
                        };
                        assert(sp2[ni] == sp[oi]);
                    }
                    assert(has_point_id(sp2, l.points.1)) by {
                        let sp = mid.polygons@[polygon_id as int].points@;
                        assert(sp2[kl as int + 1] == sp[kl as int]);
                    }
                    assert(has_point_id(sp2, new_point_id)) by {
                        assert(sp2[kl as int] == newpt);
                    }
                    assert forall|i: int| 0 <= i < sp2.len() implies point_ok(
                        #[trigger] sp2[i],
                    ) by {
                        let sp = mid.polygons@[polygon_id as int].points@;
                        if i != kl as int {
                            let oi = if i < kl as int {
                                i
                            } else {
                                i - 1
                            };
                            assert(point_ok(sp[oi]));
                        }
                    }
                }
                let first_id = self.next_id;
                let (l1, l2) = crate::polygon::get_new_split_lines(
                    &self.polygons[polygon_id],
                    l.points.0,
                    l.points.1,
                    new_point_id,
                    first_id,
                );
                proof {
                    // Identify the looked-up coordinates with the ring
                    // vertices of the cleared polygon.
                    let sp = mid.polygons@[polygon_id as int].points@;
                    let n = sp.len() as int;
                    let sp2 = self.polygons@[polygon_id as int].points@;
                    let oi = ring_prev(n, kl as int);
                    let ni = if oi < kl as int {
                        oi
                    } else {
                        oi + 1
                    };
                    assert(sp2[ni] == sp[oi]);
                    crate::polygon::lemma_point_match_idx_of(sp2, ni);
                    crate::polygon::lemma_point_match_idx_of(sp2, kl as int);
                    crate::polygon::lemma_point_match_idx_of(sp2, kl as int + 1);
                    assert(sp2[kl as int] == newpt);
                    assert(sp2[kl as int + 1] == sp[kl as int]);
                }
                self.polygons[polygon_id].lines[kl] = l1;
                proof {
                    assert(mid.polygons@[polygon_id as int].lines@.len()
                        == o.polygons@[polygon_id as int].lines@.len());
                    assert((kl as int) < o.polygons@[polygon_id as int].lines@.len());
                    assert(self.polygons@[polygon_id as int].lines@.len()
                        == mid.polygons@[polygon_id as int].lines@.len());
                    assert((kl as int) < self.polygons@[polygon_id as int].lines@.len());
                }
                self.polygons[polygon_id].lines.insert(kl1, l2);
                proof {
                    assert(self.next_id == o.next_id);
                    assert(self.next_id as int + 2 <= u32::MAX as int);
                }
                self.next_id = self.next_id + 2;
                let c = get_centroid(&self.polygons[polygon_id].points);
                self.polygons[polygon_id].center = c;
                proof {
                    let nw = *self;
                    let op = mid.polygons@[polygon_id as int];
                    let np = nw.polygons@[polygon_id as int];
                    assert(np.points@ == op.points@.insert(kl as int, newpt));
                    assert(np.lines@ =~= op.lines@.update(kl as int, l1).insert(kl as int + 1, l2));
                    assert(nw.polygons@ =~= mid.polygons@.update(polygon_id as int, np));
                    lemma_split_finish(mid, nw, polygon_id as int, kl as int, l1, l2, newpt);
                    // Glue the postcondition, stated over the original
                    // scene, to the cleared and the final one.
                    let p = o.polygons@[polygon_id as int];
                    let rel = p.lines@[kl as int].relation;
                    assert(mid.polygons@[polygon_id as int].points@ == p.points@);
                    assert forall|j: int|
                        0 <= j < o.polygons@.len() && j != polygon_id implies {
                        let np2 = #[trigger] nw.polygons@[j];
                        let op2 = o.polygons@[j];
                        &&& np2.points@ == op2.points@
                        &&& np2.center == op2.center
                        &&& np2.lines@.len() == op2.lines@.len()
                        &&& forall|k: int|
                            0 <= k < np2.lines@.len() ==> {
                                let ol = op2.lines@[k];
                                let nl = #[trigger] np2.lines@[k];
                                if rel matches Some(m) && ol.id == m {
                                    nl == (Line { relation: None::<u32>, ..ol })
                                } else {
                                    nl == ol
                                }
                            }
                    } by {
                        assert(nw.polygons@[j] == mid.polygons@[j]);
                        assert forall|k: int|
                            0 <= k < nw.polygons@[j].lines@.len() implies {
                            let ol = o.polygons@[j].lines@[k];
                            let nl = #[trigger] nw.polygons@[j].lines@[k];
                            if rel matches Some(m) && ol.id == m {
                                nl == (Line { relation: None::<u32>, ..ol })
                            } else {
                                nl == ol
                            }
                        } by {
                            let ol = o.polygons@[j].lines@[k];
                            assert(valid_pl(o, j, k));
                            if ol.id == line_id {
                                assert(line_at(o, j, k).id != line_at(
                                    o,
                                    polygon_id as int,
                                    kl as int,
                                ).id);
                                assert(false);
                            }
                        }
                    }
                    assert forall|i: int|
                        0 <= i < np.lines@.len() && i != kl as int && i != kl as int
                            + 1 implies {
                        let oi = if i < kl as int {
                            i
                        } else {
                            i - 1
                        };
                        let ol = p.lines@[oi];
                        (#[trigger] np.lines@[i]) == (if rel matches Some(m) && ol.id == m {
                            (Line { relation: None::<u32>, ..ol })
                        } else {
                            ol
                        })
                    } by {
                        let oi = if i < kl as int {
                            i
                        } else {
                            i - 1
                        };
                        let ol = p.lines@[oi];
                        assert(valid_pl(o, polygon_id as int, oi));
                        assert(np.lines@[i] == mid.polygons@[polygon_id as int].lines@[oi]);
                        if ol.id == line_id {
                            assert(line_at(o, polygon_id as int, oi).id != line_at(
                                o,
                                polygon_id as int,
                                kl as int,
                            ).id);
                            assert(false);
                        }
                    }
                }
                Ok(())
            },
        }
    }

    /// Remove the vertex `point_id` of polygon `polygon_id` and regenerate
    /// the edge ring in vertex order.  With `preserve` set, surviving edges
    /// keep their ids and relations and only the two edges at the removed
    /// vertex lose theirs; without it, every relation of the polygon is
    /// dropped.  A polygon reduced below three vertices is destroyed, and
    /// every relation referencing its edges is dissolved.
    #[verifier::rlimit(100)]
    #[verifier::spinoff_prover]
    pub fn remove_vertex(&mut self, polygon_id: usize, point_id: u32, preserve: bool) -> (r: Result<
        (),
        EditError,
    >)
        requires
            scene_wf(*old(self)),
            old(self).next_id < u32::MAX,
        ensures
            scene_wf(*final(self)),
            (r is Ok) <==> ((polygon_id as int) < old(self).polygons@.len() && has_point_id(
                old(self).polygons@[polygon_id as int].points@,
                point_id,
            )),
            r is Err ==> r == Err::<(), EditError>(EditError::NotFound) && scene_view_eq(
                *old(self),
                *final(self),
            ),
            (r is Ok && old(self).polygons@[polygon_id as int].points@.len() == 3) ==> ({
                let removed = old(self).polygons@[polygon_id as int];
                &&& final(self).polygons@.len() == old(self).polygons@.len() - 1
                &&& forall|j: int|
                    0 <= j < final(self).polygons@.len() ==> #[trigger] survivor_ok(
                        *old(self),
                        *final(self),
                        polygon_id as int,
                        j,
                    )
                &&& forall|j: int, k: int|
                    valid_pl(*final(self), j, k) ==> ((#[trigger] line_at(
                        *final(self),
                        j,
                        k,
                    )).relation matches Some(m) ==> !has_line_id(removed.lines@, m))
            }),
            (r is Ok && old(self).polygons@[polygon_id as int].points@.len() > 3) ==> ({
                let p = old(self).polygons@[polygon_id as int];
                let kp = point_match_idx(p.points@, point_id);
                let n = p.points@.len() as int;
                let adj2i = if kp == n - 1 {
                    0int
                } else {
                    kp + 1
                };
                let rel_a = p.lines@[kp].relation;
                let rel_b = p.lines@[adj2i].relation;
                let np = final(self).polygons@[polygon_id as int];
                &&& final(self).polygons@.len() == old(self).polygons@.len()
                &&& np.points@ == p.points@.remove(kp)
                &&& np.lines@.len() == np.points@.len()
                &&& forall|j2: int|
                    0 <= j2 < old(self).polygons@.len() && j2 != polygon_id ==> {
                        let np2 = #[trigger] final(self).polygons@[j2];
                        let op2 = old(self).polygons@[j2];
                        &&& np2.points@ == op2.points@
                        &&& np2.center == op2.center
                        &&& np2.lines@.len() == op2.lines@.len()
                        &&& forall|k: int|
                            0 <= k < np2.lines@.len() ==> {
                                let ol = op2.lines@[k];
                                let nl = #[trigger] np2.lines@[k];
                                let dropped = if preserve {
                                    (rel_a matches Some(m) && ol.id == m) || (rel_b matches Some(
                                        m2,
                                    ) && ol.id == m2)
                                } else {
                                    ol.relation matches Some(m) && has_line_id(p.lines@, m)
                                };
                                nl == (if dropped {
                                    (Line { relation: None::<u32>, ..ol })
                                } else {
                                    ol
                                })
                            }
                    }
                &&& forall|j: int|
                    0 <= j < np.lines@.len() ==> {
                        let merged_idx = if kp == n - 1 {
                            0int
                        } else {
                            kp
                        };
                        let oi = if j < kp {
                            j
                        } else {
                            j + 1
                        };
                        let ol = p.lines@[oi];
                        &&& crate::utils::line_matches_ring(np.points@, #[trigger] np.lines@[j], j)
                        &&& !np.lines@[j].is_const
                        &&& (j == merged_idx ==> np.lines@[j].relation is None && np.lines@[j].id
                            == old(self).next_id)
                        &&& (j != merged_idx ==> np.lines@[j].id == ol.id && np.lines@[j].relation
                            == (if preserve {
                            if (rel_a matches Some(m) && ol.id == m) || (rel_b matches Some(m2)
                                && ol.id == m2) {
                                None::<u32>
                            } else {
                                ol.relation
                            }
                        } else {
                            None::<u32>
                        }))
                    }
            }),
    {
        let ghost o = *old(self);
        if polygon_id >= self.polygons.len() {
            proof {
                lemma_view_eq_refl(o);
            }
            return Err(EditError::NotFound);
        }
        let fp = self.polygons[polygon_id].find_point_index(point_id);
        match fp {
            None => {
                proof {
                    lemma_view_eq_refl(o);
                }
                Err(EditError::NotFound)
            },
            Some(kp) => {
                proof {
                    lemma_point_match_idx(o.polygons@[polygon_id as int].points@, point_id);
                    assert(polygon_wf(o.polygons@[polygon_id as int]));
                }
                let n = self.polygons[polygon_id].points.len();
                if n == 3 {
                    let r2 = self.delete_polygon(polygon_id);
                    proof {
                        assert(r2 is Ok);
                    }
                    return Ok(());
                }
                // Dissolve the relations that will not survive, both sides.
                let adj2: usize = if kp + 1 == n {
                    0
                } else {
                    kp + 1
                };
                if preserve {
                    let id_a = self.polygons[polygon_id].lines[kp].id;
                    let ra = self.clear_relation(id_a);
                    proof {
                        if ra is Err {
                            lemma_poly_match_idx(o.polygons@, id_a);
                            if poly_match_idx(o.polygons@, id_a) == -1 {
                                assert(!has_line_id(o.polygons@[polygon_id as int].lines@, id_a))
                                ;
                                assert(line_at(o, polygon_id as int, kp as int).id == id_a);
                            }
                            assert(false);
                        }
                    }
                    let ghost m1 = *self;
                    let id_b = self.polygons[polygon_id].lines[adj2].id;
                    let rb = self.clear_relation(id_b);
                    proof {
                        if rb is Err {
                            lemma_poly_match_idx(m1.polygons@, id_b);
                            if poly_match_idx(m1.polygons@, id_b) == -1 {
                                assert(!has_line_id(m1.polygons@[polygon_id as int].lines@, id_b))
                                ;
                                assert(line_at(m1, polygon_id as int, adj2 as int).id == id_b);
                            }
                            assert(false);
                        }
                        // Both adjacent edges end unrelated.
                        let m2 = *self;
                        assert(line_at(m1, polygon_id as int, kp as int).relation is None) by {
                            assert(valid_pl(o, polygon_id as int, kp as int));
                        }
                        assert(line_at(m2, polygon_id as int, kp as int).relation is None) by {
                            assert(valid_pl(m1, polygon_id as int, kp as int));
                            let pl = line_at(m1, polygon_id as int, kp as int);
                            assert(line_at(m2, polygon_id as int, kp as int) == pl || line_at(
                                m2,
                                polygon_id as int,
                                kp as int,
                            ) == (Line { relation: None::<u32>, ..pl }));
                        }
                        assert(line_at(m2, polygon_id as int, adj2 as int).relation is None) by {
                            assert(valid_pl(m1, polygon_id as int, adj2 as int));
                        }
                        // Composed effect of the two dissolutions.
                        assert forall|j2: int| 0 <= j2 < o.polygons@.len() implies {
                            let np2 = #[trigger] m2.polygons@[j2];
                            let op2 = o.polygons@[j2];
                            &&& np2.points@ == op2.points@
                            &&& np2.center == op2.center
                            &&& np2.lines@.len() == op2.lines@.len()
                        } by {}
                        // Identify the slots the two calls worked on, then
                        // compose their exact effects.
                        let pj1 = poly_match_idx(o.polygons@, id_a);
                        let pk1 = line_match_idx(o.polygons@[pj1].lines@, id_a);
                        lemma_poly_match_idx(o.polygons@, id_a);
                        lemma_line_match_idx(o.polygons@[pj1].lines@, id_a);
                        assert(pj1 != -1) by {
                            if pj1 == -1 {
                                assert(!has_line_id(o.polygons@[polygon_id as int].lines@, id_a));
                            }
                        }
                        assert(pk1 != -1) by {
                            if pk1 == -1 {
                                assert(!has_line_id(o.polygons@[pj1].lines@, id_a));
                            }
                        }
                        assert(pj1 == polygon_id as int && pk1 == kp as int) by {
                            assert(valid_pl(o, pj1, pk1) && line_at(o, pj1, pk1).id == id_a);
                            if pj1 != polygon_id as int || pk1 != kp as int {
                                assert(line_at(o, pj1, pk1).id != line_at(
                                    o,
                                    polygon_id as int,
                                    kp as int,
                                ).id);
                            }
                        }
                        let idB = line_at(o, polygon_id as int, adj2 as int).id;
                        assert(idB == id_b) by {
                            assert(valid_pl(o, polygon_id as int, adj2 as int));
                            let pl = line_at(m1, polygon_id as int, adj2 as int);
                            let ol = line_at(o, polygon_id as int, adj2 as int);
                            assert(pl == ol || pl == (Line { relation: None::<u32>, ..ol }));
                        }
                        let pj2 = poly_match_idx(m1.polygons@, id_b);
                        let pk2 = line_match_idx(m1.polygons@[pj2].lines@, id_b);
                        lemma_poly_match_idx(m1.polygons@, id_b);
                        lemma_line_match_idx(m1.polygons@[pj2].lines@, id_b);
                        assert(pj2 != -1) by {
                            if pj2 == -1 {
                                assert(!has_line_id(m1.polygons@[polygon_id as int].lines@, id_b));
                                assert(line_at(m1, polygon_id as int, adj2 as int).id == id_b);
                            }
                        }
                        assert(pk2 != -1) by {
                            if pk2 == -1 {
                                assert(!has_line_id(m1.polygons@[pj2].lines@, id_b));
                            }
                        }
                        assert(pj2 == polygon_id as int && pk2 == adj2 as int) by {
                            assert(valid_pl(m1, pj2, pk2) && line_at(m1, pj2, pk2).id == id_b);
                            assert(line_at(m1, polygon_id as int, adj2 as int).id == id_b);
                            if pj2 != polygon_id as int || pk2 != adj2 as int {
                                assert(line_at(m1, pj2, pk2).id != line_at(
                                    m1,
                                    polygon_id as int,
                                    adj2 as int,
                                ).id);
                            }
                        }
                        lemma_two_clears_compose(
                            o,
                            m1,
                            m2,
                            polygon_id as int,
                            kp as int,
                            adj2 as int,
                        );
                    }
                } else {
                    let mut kk: usize = 0;
                    while kk < n
                        invariant
                            0 <= kk <= n,
                            scene_wf(*self),
                            (polygon_id as int) < o.polygons@.len(),
                            scene_wf(o),
                            n == o.polygons@[polygon_id as int].lines@.len(),
                            n == o.polygons@[polygon_id as int].points@.len(),
                            self.polygons@.len() == o.polygons@.len(),
                            self.next_id == o.next_id,
                            forall|j2: int|
                                0 <= j2 < o.polygons@.len() ==> {
                                    let np2 = #[trigger] self.polygons@[j2];
                                    let op2 = o.polygons@[j2];
                                    &&& np2.points@ == op2.points@
                                    &&& np2.center == op2.center
                                    &&& np2.lines@.len() == op2.lines@.len()
                                },
                            forall|j2: int, k2: int|
                                valid_pl(o, j2, k2) ==> #[trigger] del_slot_ok(
                                    o,
                                    *self,
                                    polygon_id as int,
                                    kk as int,
                                    j2,
                                    k2,
                                ),
                        decreases n - kk,
                    {
                        let target = self.polygons[polygon_id].lines[kk].id;
                        proof {
                            assert(valid_pl(o, polygon_id as int, kk as int));
                            assert(del_slot_ok(
                                o,
                                *self,
                                polygon_id as int,
                                kk as int,
                                polygon_id as int,
                                kk as int,
                            ));
                            assert(target == line_at(o, polygon_id as int, kk as int).id);
                        }
                        let ghost pre = *self;
                        let rc = self.clear_relation(target);
                        proof {
                            let cur = *self;
                            if rc is Err {
                                assert(has_line_id(pre.polygons@[polygon_id as int].lines@, target))
                                    by {
                                    assert(line_at(pre, polygon_id as int, kk as int).id == target);
                                }
                                lemma_poly_match_idx(pre.polygons@, target);
                                if poly_match_idx(pre.polygons@, target) == -1 {
                                    assert(!has_line_id(
                                        pre.polygons@[polygon_id as int].lines@,
                                        target,
                                    ));
                                }
                                assert(false);
                            }
                            let pj = poly_match_idx(pre.polygons@, target);
                            let pk = line_match_idx(pre.polygons@[pj].lines@, target);
                            lemma_poly_match_idx(pre.polygons@, target);
                            lemma_line_match_idx(pre.polygons@[pj].lines@, target);
                            assert(valid_pl(pre, pj, pk));
                            assert(line_at(pre, pj, pk).id == target);
                            assert(valid_pl(o, pj, pk));
                            assert(line_at(o, pj, pk).id == target) by {
                                assert(del_slot_ok(o, pre, polygon_id as int, kk as int, pj, pk));
                            }
                            assert(pj == polygon_id as int && pk == kk as int) by {
                                if pj != polygon_id as int || pk != kk as int {
                                    assert(line_at(o, pj, pk).id != line_at(
                                        o,
                                        polygon_id as int,
                                        kk as int,
                                    ).id);
                                }
                            }
                            let rel = line_at(pre, polygon_id as int, kk as int).relation;
                            lemma_delete_clear_step(
                                o,
                                pre,
                                cur,
                                polygon_id as int,
                                kk as int,
                                target,
                                rel,
                            );
                        }
                        kk += 1;
                    }
                    proof {
                        lemma_cleared_characterize(o, *self, polygon_id as int);
                        let mc = *self;
                        assert forall|j2: int, k2: int| valid_pl(o, j2, k2) implies line_at(
                            mc,
                            j2,
                            k2,
                        ) == (if #[trigger] removal_dropped(
                            o,
                            polygon_id as int,
                            kp as int,
                            adj2 as int,
                            preserve,
                            j2,
                            k2,
                        ) {
                            (Line { relation: None::<u32>, ..line_at(o, j2, k2) })
                        } else {
                            line_at(o, j2, k2)
                        }) by {
                            let ol = line_at(o, j2, k2);
                            if j2 == polygon_id as int {
                                assert(line_at(mc, j2, k2) == (Line {
                                    relation: None::<u32>,
                                    ..ol
                                }));
                            }
                        }
                        // Every edge of the polygon ends unrelated.
                        assert forall|kk2: int|
                            0 <= kk2 < mc.polygons@[polygon_id as int].lines@.len() implies (
                        #[trigger] line_at(mc, polygon_id as int, kk2)).relation is None by {
                            assert(valid_pl(o, polygon_id as int, kk2));
                            assert(line_at(mc, polygon_id as int, kk2) == (Line {
                                relation: None::<u32>,
                                ..line_at(o, polygon_id as int, kk2)
                            }));
                        }
                    }
                }
                let ghost mid = *self;
                proof {
                    assert(polygon_wf(mid.polygons@[polygon_id as int]));
                    assert(mid.polygons@[polygon_id as int].points@ == o.polygons@[polygon_id as int].points@);
                }
                // Remove the vertex and regenerate the ring by index mapping.
                self.polygons[polygon_id].points.remove(kp);
                let first_id = self.next_id;
                let merged_idx: usize = if kp == n - 1 {
                    0
                } else {
                    kp
                };
                let n2 = n - 1;
                let mut new_lines: Vec<Line> = Vec::new();
                let mut j: usize = 0;
                proof {
                    mid.polygons@[polygon_id as int].points@.remove_ensures(kp as int);
                }
                while j < n2
                    invariant
                        0 <= j <= n2,
                        n2 == n - 1,
                        4 <= n,
                        0 <= kp < n,
                        merged_idx as int == (if kp as int == n - 1 {
                            0int
                        } else {
                            kp as int
                        }),
                        (polygon_id as int) < self.polygons@.len(),
                        self.polygons@[polygon_id as int].points@.len() == n2,
                        self.polygons@[polygon_id as int].points@ == mid.polygons@[polygon_id as int].points@.remove(kp as int),
                        self.polygons@[polygon_id as int].lines@ == mid.polygons@[polygon_id as int].lines@,
                        mid.polygons@[polygon_id as int].lines@.len() == n,
                        mid.polygons@[polygon_id as int].points@.len() == n,
                        polygon_wf(mid.polygons@[polygon_id as int]),
                        new_lines@.len() == j,
                        forall|i: int|
                            0 <= i < self.polygons@[polygon_id as int].points@.len() ==> point_ok(
                                #[trigger] self.polygons@[polygon_id as int].points@[i],
                            ),
                        forall|i: int|
                            0 <= i < j ==> #[trigger] removed_line_ok_partial(
                                mid.polygons@[polygon_id as int],
                                self.polygons@[polygon_id as int].points@,
                                new_lines@,
                                kp as int,
                                first_id,
                                preserve,
                                i,
                            ),
                        forall|i: int| 0 <= i < j ==> line_ok(#[trigger] new_lines@[i]),
                    decreases n2 - j,
                {
                    let prev_pt: Point = if j == 0 {
                        self.polygons[polygon_id].points[n2 - 1]
                    } else {
                        self.polygons[polygon_id].points[j - 1]
                    };
                    let cur_pt: Point = self.polygons[polygon_id].points[j];
                    let length = get_line_length(
                        PointCords(prev_pt.x, prev_pt.y),
                        PointCords(cur_pt.x, cur_pt.y),
                    );
                    let line = if j == merged_idx {
                        Line {
                            points: (prev_pt.id, cur_pt.id),
                            length,
                            id: first_id,
                            is_const: false,
                            relation: None,
                            visited: false,
                            bezier: None,
                        }
                    } else {
                        let oi: usize = if j < kp {
                            j
                        } else {
                            j + 1
                        };
                        let ol = self.polygons[polygon_id].lines[oi];
                        Line {
                            points: (prev_pt.id, cur_pt.id),
                            length,
                            id: ol.id,
                            is_const: false,
                            relation: if preserve {
                                ol.relation
                            } else {
                                None
                            },
                            visited: false,
                            bezier: None,
                        }
                    };
                    let ghost prel = new_lines@;
                    new_lines.push(line);
                    proof {
                        assert forall|i: int| 0 <= i < j + 1 implies #[trigger] removed_line_ok_partial(
                            mid.polygons@[polygon_id as int],
                            self.polygons@[polygon_id as int].points@,
                            new_lines@,
                            kp as int,
                            first_id,
                            preserve,
                            i,
                        ) by {
                            if i < j {
                                assert(removed_line_ok_partial(
                                    mid.polygons@[polygon_id as int],
                                    self.polygons@[polygon_id as int].points@,
                                    prel,
                                    kp as int,
                                    first_id,
                                    preserve,
                                    i,
                                ));
                                assert(new_lines@[i] == prel[i]);
                            } else {
                                assert(new_lines@[i] == line);
                            }
                        }
                    }
                    j += 1;
                }
                self.polygons[polygon_id].lines = new_lines;
                let c = get_centroid(&self.polygons[polygon_id].points);
                self.polygons[polygon_id].center = c;
                proof {
                    assert(self.next_id == mid.next_id);
                    assert(self.next_id as int + 1 <= u32::MAX as int);
                }
                self.next_id = self.next_id + 1;
                proof {
                    let nw = *self;
                    assert(nw.polygons@ =~= mid.polygons@.update(
                        polygon_id as int,
                        nw.polygons@[polygon_id as int],
                    ));
                    assert forall|i: int|
                        0 <= i < nw.polygons@[polygon_id as int].lines@.len() implies #[trigger] removed_line_ok(
                        mid.polygons@[polygon_id as int],
                        nw.polygons@[polygon_id as int],
                        kp as int,
                        first_id,
                        preserve,
                        i,
                    ) by {
                        assert(removed_line_ok_partial(
                            mid.polygons@[polygon_id as int],
                            nw.polygons@[polygon_id as int].points@,
                            nw.polygons@[polygon_id as int].lines@,
                            kp as int,
                            first_id,
                            preserve,
                            i,
                        ));
                    }
                    lemma_remove_finish(mid, nw, polygon_id as int, kp as int, first_id, preserve);
                    // Glue the postcondition, stated over the original
                    // scene, to the cleared and the final one.
                    let p = o.polygons@[polygon_id as int];
                    let np = nw.polygons@[polygon_id as int];
                    assert(mid.polygons@[polygon_id as int].points@ == p.points@);
                    assert(np.points@ == p.points@.remove(kp as int));
                    lemma_remove_glue(
                        o,
                        mid,
                        nw,
                        polygon_id as int,
                        kp as int,
                        adj2 as int,
                        first_id,
                        preserve,
                    );
                }
                Ok(())
            },
        }
    }

    /// Translate a whole polygon by `(dx, dy)`: every vertex moves by the
    /// same (clamped) delta, and the centre and cached lengths follow.  No
    /// rigidity propagation runs: relative geometry is preserved.
    pub fn translate_polygon(&mut self, polygon_id: usize, dx: i64, dy: i64) -> (r: Result<
        (),
        EditError,
    >)
        requires
            scene_wf(*old(self)),
        ensures
            scene_wf(*final(self)),
            (r is Ok) <==> (polygon_id as int) < old(self).polygons@.len(),
            r is Err ==> r == Err::<(), EditError>(EditError::NotFound) && scene_view_eq(
                *old(self),
                *final(self),
            ),
            r is Ok ==> ({
                let p = old(self).polygons@[polygon_id as int];
                let np = final(self).polygons@[polygon_id as int];
                &&& final(self).next_id == old(self).next_id
                &&& final(self).polygons@.len() == old(self).polygons@.len()
                &&& forall|j: int|
                    0 <= j < old(self).polygons@.len() && j != polygon_id ==> final(self).polygons@[j] == old(self).polygons@[j]
                &&& np.points@.len() == p.points@.len()
                &&& forall|k: int|
                    0 <= k < p.points@.len() ==> #[trigger] np.points@[k] == (Point {
                        x: clamp_spec(p.points@[k].x + dx) as i64,
                        y: clamp_spec(p.points@[k].y + dy) as i64,
                        id: p.points@[k].id,
                    })
                &&& np.lines@.len() == p.lines@.len()
                &&& forall|k: int|
                    0 <= k < p.lines@.len() ==> #[trigger] np.lines@[k] == (Line {
                        length: measured_len(np, k) as i64,
                        ..p.lines@[k]
                    })
                &&& polygon_centered(np)
            }),
    {
        let ghost o = *old(self);
        if polygon_id >= self.polygons.len() {
            proof {
                lemma_view_eq_refl(o);
            }
            return Err(EditError::NotFound);
        }
        let npts = self.polygons[polygon_id].points.len();
        let mut k: usize = 0;
        while k < npts
            invariant
                0 <= k <= npts,
                (polygon_id as int) < self.polygons@.len(),
                self.polygons@.len() == o.polygons@.len(),
                self.next_id == o.next_id,
                scene_wf(o),
                npts == o.polygons@[polygon_id as int].points@.len(),
                self.polygons@[polygon_id as int].points@.len() == npts,
                self.polygons@[polygon_id as int].lines@ == o.polygons@[polygon_id as int].lines@,
                self.polygons@[polygon_id as int].center == o.polygons@[polygon_id as int].center,
                forall|j: int|
                    0 <= j < o.polygons@.len() && j != polygon_id ==> #[trigger] self.polygons@[j]
                        == o.polygons@[j],
                forall|k2: int|
                    0 <= k2 < k ==> #[trigger] self.polygons@[polygon_id as int].points@[k2] == (
                    Point {
                        x: clamp_spec(o.polygons@[polygon_id as int].points@[k2].x + dx) as i64,
                        y: clamp_spec(o.polygons@[polygon_id as int].points@[k2].y + dy) as i64,
                        id: o.polygons@[polygon_id as int].points@[k2].id,
                    }),
                forall|k2: int|
                    k <= k2 < npts ==> #[trigger] self.polygons@[polygon_id as int].points@[k2]
                        == o.polygons@[polygon_id as int].points@[k2],
            decreases npts - k,
        {
            let pt = self.polygons[polygon_id].points[k];
            let nx = clamp_coord(pt.x as i128 + dx as i128);
            let ny = clamp_coord(pt.y as i128 + dy as i128);
            self.polygons[polygon_id].points[k] = Point { x: nx, y: ny, id: pt.id };
            k += 1;
        }
        proof {
            // The translated polygon is still well formed: ids and the ring
            // are untouched, and every coordinate was clamped into range.
            let op = o.polygons@[polygon_id as int];
            let tp = self.polygons@[polygon_id as int];
            assert(polygon_wf(op));
            assert forall|x2: int, y2: int|
                0 <= x2 < y2 < tp.points@.len() implies (#[trigger] tp.points@[x2]).id != (
            #[trigger] tp.points@[y2]).id by {
                assert(op.points@[x2].id != op.points@[y2].id);
            }
            assert forall|i: int| 0 <= i < tp.lines@.len() implies (#[trigger] tp.lines@[i]).points
                == (ring_a(tp.points@, i), ring_b(tp.points@, i)) by {
                assert(op.lines@[i].points == (ring_a(op.points@, i), ring_b(op.points@, i)));
                assert(tp.points@[ring_prev(tp.points@.len() as int, i)].id == op.points@[ring_prev(
                    op.points@.len() as int,
                    i,
                )].id);
                assert(tp.points@[i].id == op.points@[i].id);
            }
            assert forall|i: int| 0 <= i < tp.points@.len() implies point_ok(
                #[trigger] tp.points@[i],
            ) by {
                assert(point_ok(op.points@[i]));
            }
            assert(polygon_wf(tp));
        }
        let pg = &mut self.polygons[polygon_id];
        pg.recalculate();
        proof {
            let nw = *self;
            assert forall|j: int| 0 <= j < nw.polygons@.len() implies polygon_wf(
                #[trigger] nw.polygons@[j],
            ) by {
                if j != polygon_id as int {
                    assert(nw.polygons@[j] == o.polygons@[j]);
                    assert(polygon_wf(o.polygons@[j]));
                }
            }
            assert forall|j: int, k2: int| valid_pl(nw, j, k2) implies (#[trigger] line_at(
                nw,
                j,
                k2,
            )).id == line_at(o, j, k2).id && line_at(nw, j, k2).relation == line_at(
                o,
                j,
                k2,
            ).relation by {
                assert(valid_pl(o, j, k2));
                if j == polygon_id as int {
                    assert(nw.polygons@[j].lines@[k2] == (Line {
                        length: measured_len(nw.polygons@[j], k2) as i64,
                        ..o.polygons@[j].lines@[k2]
                    }));
                }
            }
            assert(scene_rel_shape(o, nw));
            lemma_rel_shape_struct_wf(o, nw);
            assert forall|j: int, k2: int| valid_pl(nw, j, k2) implies !(#[trigger] line_at(
                nw,
                j,
                k2,
            )).visited by {
                assert(valid_pl(o, j, k2));
                assert(!line_at(o, j, k2).visited);
                if j == polygon_id as int {
                    assert(nw.polygons@[j].lines@[k2] == (Line {
                        length: measured_len(nw.polygons@[j], k2) as i64,
                        ..o.polygons@[j].lines@[k2]
                    }));
                }
            }
            assert forall|j: int| 0 <= j < nw.polygons@.len() implies polygon_centered(
                #[trigger] nw.polygons@[j],
            ) && polygon_settled(nw.polygons@[j]) by {
                if j != polygon_id as int {
                    assert(nw.polygons@[j] == o.polygons@[j]);
                    assert(polygon_centered(o.polygons@[j]) && polygon_settled(o.polygons@[j]));
                }
            }
        }
        Ok(())
    }

    /// Drag a whole edge: both endpoints move by the cursor delta, then
    /// rigidity propagates outward from each endpoint, as in a vertex drag.
    pub fn drag_line(&mut self, polygon_id: usize, line_id: u32, dx: i64, dy: i64) -> (r: Result<
        (),
        EditError,
    >)
        requires
            scene_wf(*old(self)),
        ensures
            scene_wf(*final(self)),
            (r is Ok) <==> ((polygon_id as int) < old(self).polygons@.len() && has_line_id(
                old(self).polygons@[polygon_id as int].lines@,
                line_id,
            )),
            r is Err ==> r == Err::<(), EditError>(EditError::NotFound) && scene_view_eq(
                *old(self),
                *final(self),
            ),
            r is Ok ==> scene_same_topo(*old(self), *final(self)),
            ({
                // With free neighbouring edges, exactly the two endpoints
                // move, by the clamped delta each.
                let p = old(self).polygons@[polygon_id as int];
                let kl = line_match_idx(p.lines@, line_id);
                let n = p.points@.len() as int;
                let lnext = p.lines@[if kl == n - 1 {
                    0int
                } else {
                    kl + 1
                }];
                let lprev = p.lines@[ring_prev(n, kl)];
                let ia = ring_prev(n, kl);
                let pa = p.points@[ia];
                let pb = p.points@[kl];
                (r is Ok && !lnext.is_const && lnext.relation is None && !lprev.is_const
                    && lprev.relation is None) ==> {
                    &&& forall|j: int|
                        0 <= j < old(self).polygons@.len() && j != polygon_id ==> (
                        #[trigger] final(self).polygons@[j]).points@ == old(self).polygons@[j].points@
                    &&& final(self).polygons@[polygon_id as int].points@ == p.points@.update(
                        ia,
                        (Point {
                            x: clamp_spec(pa.x + dx) as i64,
                            y: clamp_spec(pa.y + dy) as i64,
                            id: pa.id,
                        }),
                    ).update(
                        kl,
                        (Point {
                            x: clamp_spec(pb.x + dx) as i64,
                            y: clamp_spec(pb.y + dy) as i64,
                            id: pb.id,
                        }),
                    )
                }
            }),
    {
        let ghost o = *old(self);
        if polygon_id >= self.polygons.len() {
            proof {
                lemma_view_eq_refl(o);
            }
            return Err(EditError::NotFound);
        }
        let fl = self.polygons[polygon_id].find_line_index(line_id);
        match fl {
            None => {
                proof {
                    lemma_view_eq_refl(o);
                }
                Err(EditError::NotFound)
            },
            Some(kl) => {
                proof {
                    lemma_line_match_idx(o.polygons@[polygon_id as int].lines@, line_id);
                    assert(polygon_wf(o.polygons@[polygon_id as int]));
                    let sp = o.polygons@[polygon_id as int].points@;
                    let n = sp.len() as int;
                    assert(o.polygons@[polygon_id as int].lines@[kl as int].points == (
                        ring_a(sp, kl as int),
                        ring_b(sp, kl as int),
                    ));
                    assert(sp[ring_prev(n, kl as int)].id == o.polygons@[polygon_id as int].lines@[kl as int].points.0);
                    assert(has_point_id(sp, o.polygons@[polygon_id as int].lines@[kl as int].points.0));
                    assert(sp[kl as int].id == o.polygons@[polygon_id as int].lines@[kl as int].points.1);
                    assert(has_point_id(sp, o.polygons@[polygon_id as int].lines@[kl as int].points.1));
                    crate::polygon::lemma_point_match_idx_of(sp, ring_prev(n, kl as int));
                    crate::polygon::lemma_point_match_idx_of(sp, kl as int);
                }
                let l = self.polygons[polygon_id].lines[kl];
                let fa = self.polygons[polygon_id].find_point_index(l.points.0);
                let fb = self.polygons[polygon_id].find_point_index(l.points.1);
                match (fa, fb) {
                    (Some(ia), Some(ib)) => {
                        let pa = self.polygons[polygon_id].points[ia];
                        let pb = self.polygons[polygon_id].points[ib];
                        let nax = clamp_coord(pa.x as i128 + dx as i128);
                        let nay = clamp_coord(pa.y as i128 + dy as i128);
                        let nbx = clamp_coord(pb.x as i128 + dx as i128);
                        let nby = clamp_coord(pb.y as i128 + dy as i128);
                        self.set_scene_point(polygon_id, ia, nax, nay);
                        let ghost s1 = *self;
                        self.set_scene_point(polygon_id, ib, nbx, nby);
                        let ghost s2 = *self;
                        proof {
                            lemma_same_shape_trans(o, s1, s2);
                            assert(s2.polygons@[polygon_id as int].points@[ring_prev(
                                o.polygons@[polygon_id as int].points@.len() as int,
                                kl as int,
                            )].id == l.points.0);
                            assert(has_point_id(s2.polygons@[polygon_id as int].points@, l.points.0));
                            crate::polygon::lemma_point_match_idx_ids(
                                s2.polygons@[polygon_id as int].points@,
                                o.polygons@[polygon_id as int].points@,
                                l.points.0,
                            );
                        }
                        self.correct_line_length(l.points.0, polygon_id, false);
                        let ghost s3 = *self;
                        proof {
                            lemma_same_shape_trans(o, s2, s3);
                            assert(poly_same_shape(s2.polygons@[polygon_id as int], s3.polygons@[polygon_id as int]));
                            assert(s3.polygons@[polygon_id as int].points@[kl as int].id
                                == l.points.1);
                            assert(has_point_id(s3.polygons@[polygon_id as int].points@, l.points.1));
                            crate::polygon::lemma_point_match_idx_ids(
                                s3.polygons@[polygon_id as int].points@,
                                o.polygons@[polygon_id as int].points@,
                                l.points.1,
                            );
                        }
                        self.correct_line_length(l.points.1, polygon_id, true);
                        let ghost s4 = *self;
                        self.reset_visited();
                        let ghost s5 = *self;
                        proof {
                            assert forall|j: int| 0 <= j < s5.polygons@.len() implies polygon_wf(
                                #[trigger] s5.polygons@[j],
                            ) by {
                                assert(polygon_wf(s4.polygons@[j]));
                                let op2 = s4.polygons@[j];
                                let np2 = s5.polygons@[j];
                                assert forall|i2: int| 0 <= i2 < np2.lines@.len() implies (
                                #[trigger] np2.lines@[i2]).points == (
                                    ring_a(np2.points@, i2),
                                    ring_b(np2.points@, i2),
                                ) by {
                                    assert(np2.lines@[i2] == (Line {
                                        visited: false,
                                        ..op2.lines@[i2]
                                    }));
                                    assert(op2.lines@[i2].points == (ring_a(op2.points@, i2),
                                    ring_b(op2.points@, i2)));
                                }
                                assert forall|i2: int| 0 <= i2 < np2.lines@.len() implies line_ok(
                                    #[trigger] np2.lines@[i2],
                                ) by {
                                    assert(np2.lines@[i2] == (Line {
                                        visited: false,
                                        ..op2.lines@[i2]
                                    }));
                                    assert(line_ok(op2.lines@[i2]));
                                }
                            }
                        }
                        self.recalculate();
                        proof {
                            let nw = *self;
                            assert forall|j: int, k: int| valid_pl(s5, j, k) implies (
                            #[trigger] line_at(s5, j, k)).id == line_at(nw, j, k).id && line_at(
                                s5,
                                j,
                                k,
                            ).relation == line_at(nw, j, k).relation by {
                                assert(nw.polygons@[j].lines@[k] == (Line {
                                    length: measured_len(nw.polygons@[j], k) as i64,
                                    ..s5.polygons@[j].lines@[k]
                                }));
                            }
                            assert(scene_rel_shape(s5, nw));
                            lemma_rel_shape_struct_wf(s5, nw);
                            assert forall|j: int, k: int| valid_pl(nw, j, k) implies !(
                            #[trigger] line_at(nw, j, k)).visited by {
                                assert(valid_pl(s5, j, k));
                                assert(!line_at(s5, j, k).visited);
                                assert(nw.polygons@[j].lines@[k] == (Line {
                                    length: measured_len(nw.polygons@[j], k) as i64,
                                    ..s5.polygons@[j].lines@[k]
                                }));
                            }
                            // Topology preserved end to end.
                            lemma_same_shape_trans(s2, s3, s4);
                            assert forall|j: int| 0 <= j < o.polygons@.len() implies {
                                let pa2 = #[trigger] o.polygons@[j];
                                let pb2 = nw.polygons@[j];
                                &&& pa2.points@.len() == pb2.points@.len()
                                &&& pa2.lines@.len() == pb2.lines@.len()
                                &&& forall|k: int|
                                    0 <= k < pa2.points@.len() ==> (#[trigger] pa2.points@[k]).id
                                        == pb2.points@[k].id
                                &&& forall|k: int|
                                    0 <= k < pa2.lines@.len() ==> {
                                        let la = #[trigger] pa2.lines@[k];
                                        let lb2 = pb2.lines@[k];
                                        &&& la.id == lb2.id
                                        &&& la.points == lb2.points
                                        &&& la.is_const == lb2.is_const
                                        &&& la.relation == lb2.relation
                                        &&& la.bezier == lb2.bezier
                                    }
                            } by {
                                assert(poly_same_shape(o.polygons@[j], s2.polygons@[j]));
                                assert(poly_same_shape(s2.polygons@[j], s4.polygons@[j]));
                                assert forall|k: int|
                                    0 <= k < o.polygons@[j].points@.len() implies (
                                #[trigger] o.polygons@[j].points@[k]).id
                                    == nw.polygons@[j].points@[k].id by {
                                    assert(o.polygons@[j].points@[k].id == s2.polygons@[j].points@[k].id);
                                    assert(s2.polygons@[j].points@[k].id == s4.polygons@[j].points@[k].id);
                                    assert(s5.polygons@[j].points@ == s4.polygons@[j].points@);
                                    assert(nw.polygons@[j].points@ == s5.polygons@[j].points@);
                                }
                                assert forall|k: int|
                                    0 <= k < o.polygons@[j].lines@.len() implies {
                                    let la = #[trigger] o.polygons@[j].lines@[k];
                                    let lb2 = nw.polygons@[j].lines@[k];
                                    &&& la.id == lb2.id
                                    &&& la.points == lb2.points
                                    &&& la.is_const == lb2.is_const
                                    &&& la.relation == lb2.relation
                                    &&& la.bezier == lb2.bezier
                                } by {
                                    assert(line_same_shape(o.polygons@[j].lines@[k], s2.polygons@[j].lines@[k]));
                                    assert(line_same_shape(s2.polygons@[j].lines@[k], s4.polygons@[j].lines@[k]));
                                    assert(s5.polygons@[j].lines@[k] == (Line {
                                        visited: false,
                                        ..s4.polygons@[j].lines@[k]
                                    }));
                                    assert(nw.polygons@[j].lines@[k] == (Line {
                                        length: measured_len(nw.polygons@[j], k) as i64,
                                        ..s5.polygons@[j].lines@[k]
                                    }));
                                }
                            }
                            // The free-neighbour case: both passes were
                            // no-ops, so only the two endpoints moved.
                            let p = o.polygons@[polygon_id as int];
                            let n = p.points@.len() as int;
                            let lnext = p.lines@[if kl as int == n - 1 {
                                0int
                            } else {
                                kl as int + 1
                            }];
                            let lprev = p.lines@[ring_prev(n, kl as int)];
                            if !lnext.is_const && lnext.relation is None && !lprev.is_const
                                && lprev.relation is None {
                                assert(s2.polygons@[polygon_id as int].lines@ == p.lines@);
                                assert(point_match_idx(s2.polygons@[polygon_id as int].points@, l.points.0)
                                    == ring_prev(n, kl as int));
                                assert(scene_view_eq(s2, s3));
                                assert forall|j: int| 0 <= j < s2.polygons@.len() implies (
                                #[trigger] s3.polygons@[j]).points@ == s2.polygons@[j].points@
                                    && s3.polygons@[j].lines@ == s2.polygons@[j].lines@ by {
                                    assert(poly_view_eq(s2.polygons@[j], s3.polygons@[j]));
                                }
                                assert(point_match_idx(s3.polygons@[polygon_id as int].points@, l.points.1)
                                    == kl as int);
                                assert(scene_view_eq(s3, s4));
                                assert forall|j: int| 0 <= j < s3.polygons@.len() implies (
                                #[trigger] s4.polygons@[j]).points@ == s3.polygons@[j].points@ by {
                                    assert(poly_view_eq(s3.polygons@[j], s4.polygons@[j]));
                                }
                                assert forall|j: int|
                                    0 <= j < o.polygons@.len() && j != polygon_id implies (
                                #[trigger] nw.polygons@[j]).points@ == o.polygons@[j].points@ by {
                                    assert(s1.polygons@[j] == o.polygons@[j]);
                                    assert(s2.polygons@[j] == s1.polygons@[j]);
                                    assert(s4.polygons@[j].points@ == s2.polygons@[j].points@);
                                    assert(s5.polygons@[j].points@ == s4.polygons@[j].points@);
                                }
                                assert(nw.polygons@[polygon_id as int].points@ == s2.polygons@[polygon_id as int].points@);
                                assert(s2.polygons@[polygon_id as int].points@ == p.points@.update(
                                    ring_prev(n, kl as int),
                                    (Point {
                                        x: nax,
                                        y: nay,
                                        id: p.points@[ring_prev(n, kl as int)].id,
                                    }),
                                ).update(
                                    kl as int,
                                    (Point { x: nbx, y: nby, id: p.points@[kl as int].id }),
                                ));
                            }
                        }
                        Ok(())
                    },
                    _ => {
                        proof {
                            assert(false);
                        }
                        Err(EditError::NotFound)
                    },
                }
            },
        }
    }

    /// Recompute every polygon's centre and refresh every stored edge length
    /// to the measured length.
    pub fn recalculate(&mut self)
        requires
            polys_wf(*old(self)),
        ensures
            final(self).next_id == old(self).next_id,
            final(self).polygons@.len() == old(self).polygons@.len(),
            forall|j: int|
                0 <= j < final(self).polygons@.len() ==> {
                    let np = #[trigger] final(self).polygons@[j];
                    let op = old(self).polygons@[j];
                    &&& np.points@ == op.points@
                    &&& polygon_centered(np)
                    &&& polygon_settled(np)
                    &&& polygon_wf(np)
                    &&& np.lines@.len() == op.lines@.len()
                    &&& forall|k: int|
                        0 <= k < np.lines@.len() ==> #[trigger] np.lines@[k] == (Line {
                            length: measured_len(np, k) as i64,
                            ..op.lines@[k]
                        })
                },
            polys_wf(*final(self)),
    {
        let ghost orig = *self;
        let n = self.polygons.len();
        let mut i: usize = 0;
        while i < n
            invariant
                0 <= i <= n,
                n == self.polygons@.len(),
                n == orig.polygons@.len(),
                self.next_id == orig.next_id,
                polys_wf(orig),
                forall|j: int| i <= j < n ==> #[trigger] self.polygons@[j] == orig.polygons@[j],
                forall|j: int|
                    0 <= j < i ==> {
                        let np = #[trigger] self.polygons@[j];
                        let op = orig.polygons@[j];
                        &&& np.points@ == op.points@
                        &&& polygon_centered(np)
                        &&& polygon_settled(np)
                        &&& polygon_wf(np)
                        &&& np.lines@.len() == op.lines@.len()
                        &&& forall|k: int|
                            0 <= k < np.lines@.len() ==> #[trigger] np.lines@[k] == (Line {
                                length: measured_len(np, k) as i64,
                                ..op.lines@[k]
                            })
                    },
            decreases n - i,
        {
            proof {
                assert(polygon_wf(orig.polygons@[i as int]));
            }
            let p = &mut self.polygons[i];
            p.recalculate();
            i += 1;
        }
    }
}

} // verus!
