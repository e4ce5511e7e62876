//! The global laws of the editor, stated once over the scene invariant that
//! every editing operation establishes.

use vstd::prelude::*;
use crate::arith::{clamp_spec, tdiv, COORD_LIMIT};
use crate::polygon::polygon_wf;
use crate::scene::{
    has_partner, line_at, rel_ok_at, rule_a_new_far_x, rule_a_new_far_y, scene_wf, valid_pl, Scene,
};
use crate::utils::length_of;

verus! {

/// Every live polygon keeps one edge per vertex: `len(lines) == len(points)`
/// always holds after any operation.
pub proof fn lemma_lines_match_points(s: Scene, j: int)
    requires
        scene_wf(s),
        0 <= j < s.polygons@.len(),
    ensures
        s.polygons@[j].lines@.len() == s.polygons@[j].points@.len(),
        s.polygons@[j].points@.len() >= 3,
{
    assert(polygon_wf(s.polygons@[j]));
}

/// No relation ever dangles: whatever an edge's relation names is the id of
/// a live edge of the scene.
pub proof fn lemma_no_dangling_relation(s: Scene, j: int, k: int, m: u32)
    requires
        scene_wf(s),
        valid_pl(s, j, k),
        line_at(s, j, k).relation == Some(m),
    ensures
        exists|j2: int, k2: int|
            valid_pl(s, j2, k2) && (#[trigger] line_at(s, j2, k2)).id == m,
{
    assert(rel_ok_at(s, j, k));
    assert(has_partner(s, m, line_at(s, j, k).id));
    let (j2, k2) = choose|j2: int, k2: int|
        valid_pl(s, j2, k2) && (#[trigger] line_at(s, j2, k2)).id == m && line_at(
            s,
            j2,
            k2,
        ).relation == Some(line_at(s, j, k).id);
    assert(valid_pl(s, j2, k2) && line_at(s, j2, k2).id == m);
}

/// Relation mutuality: for any two edges `A` and `B` of the scene,
/// `A.relation == Some(B.id)` holds exactly when `B.relation == Some(A.id)`.
pub proof fn lemma_relation_mutual(s: Scene, j1: int, k1: int, j2: int, k2: int)
    requires
        scene_wf(s),
        valid_pl(s, j1, k1),
        valid_pl(s, j2, k2),
    ensures
        line_at(s, j1, k1).relation == Some(line_at(s, j2, k2).id) <==> line_at(
            s,
            j2,
            k2,
        ).relation == Some(line_at(s, j1, k1).id),
{
    let a = line_at(s, j1, k1);
    let b = line_at(s, j2, k2);
    if a.relation == Some(b.id) {
        assert(rel_ok_at(s, j1, k1));
        let (wj, wk) = choose|wj: int, wk: int|
            valid_pl(s, wj, wk) && (#[trigger] line_at(s, wj, wk)).id == b.id && line_at(
                s,
                wj,
                wk,
            ).relation == Some(a.id);
        // By global id uniqueness the partner is `B` itself.
        if wj != j2 || wk != k2 {
            assert(line_at(s, wj, wk).id != line_at(s, j2, k2).id);
        }
        assert(b.relation == Some(a.id));
    }
    if b.relation == Some(a.id) {
        assert(rel_ok_at(s, j2, k2));
        let (wj, wk) = choose|wj: int, wk: int|
            valid_pl(s, wj, wk) && (#[trigger] line_at(s, wj, wk)).id == a.id && line_at(
                s,
                wj,
                wk,
            ).relation == Some(b.id);
        if wj != j1 || wk != k1 {
            assert(line_at(s, wj, wk).id != line_at(s, j1, k1).id);
        }
        assert(a.relation == Some(b.id));
    }
}

/// An edge never relates to itself.
pub proof fn lemma_no_self_relation(s: Scene, j: int, k: int)
    requires
        scene_wf(s),
        valid_pl(s, j, k),
    ensures
        line_at(s, j, k).relation != Some(line_at(s, j, k).id),
{
    assert(rel_ok_at(s, j, k));
}

/// A rigidity step on a settled edge is the identity: when the stored
/// length already equals the measured length, the far endpoint stays put.
/// Together with `move_point`'s contract this gives the zero-delta drag its
/// meaning on constant edges: nothing moves.
pub proof fn lemma_rule_a_settled_fixed(x1: int, y1: int, x2: int, y2: int, stored: int)
    requires
        -COORD_LIMIT <= x1 <= COORD_LIMIT,
        -COORD_LIMIT <= y1 <= COORD_LIMIT,
        -COORD_LIMIT <= x2 <= COORD_LIMIT,
        -COORD_LIMIT <= y2 <= COORD_LIMIT,
        stored == length_of(x1, y1, x2, y2),
    ensures
        rule_a_new_far_x(x1, y1, x2, y2, stored, true) == x2,
        rule_a_new_far_y(x1, y1, x2, y2, stored, true) == y2,
{
    let len = length_of(x1, y1, x2, y2);
    crate::utils::lemma_length_bounds(x1, y1, x2, y2);
    if len != 0 {
        assert((stored - len) * (vstd::math::abs(x2 - x1) as int) == 0) by (nonlinear_arith)
            requires
                stored == len,
        ;
        assert((stored - len) * (vstd::math::abs(y2 - y1) as int) == 0) by (nonlinear_arith)
            requires
                stored == len,
        ;
        assert(tdiv(0, len) == 0) by {
            vstd::arithmetic::div_mod::lemma_div_of0(len);
        }
    }
    assert(clamp_spec(x2 + 0) == x2);
    assert(clamp_spec(y2 + 0) == y2);
}

} // verus!
