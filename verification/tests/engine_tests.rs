use polyrig::data_models::PointCords;
use polyrig::polygon::PressedObject;
use polyrig::scene::{EditError, Scene};

fn triangle(scene: &mut Scene) -> usize {
    scene
        .finalize_polygon(vec![PointCords(330, 220), PointCords(200, 50), PointCords(160, 350)])
        .unwrap()
}

fn square_at(scene: &mut Scene, x: i64, y: i64) -> usize {
    scene
        .finalize_polygon(vec![
            PointCords(x, y),
            PointCords(x + 100, y),
            PointCords(x + 100, y + 100),
            PointCords(x, y + 100),
        ])
        .unwrap()
}

#[test]
fn finalize_triangle_measures_edges() {
    let mut scene = Scene::new();
    let pid = triangle(&mut scene);
    assert_eq!(pid, 0);
    let p = &scene.polygons[0];
    assert_eq!(p.points.len(), 3);
    assert_eq!(p.lines.len(), 3);
    // Edge i connects vertex i-1 (wrapping) to vertex i.
    assert_eq!(p.lines[0].length, 214); // (160,350)-(330,220) -> sqrt(170^2+130^2)
    assert_eq!(p.lines[1].length, 214); // (330,220)-(200,50) -> sqrt(130^2+170^2)
    assert_eq!(p.lines[2].length, 302); // (200,50)-(160,350) -> sqrt(40^2+300^2)
    assert_eq!((p.center.0, p.center.1), (230, 206));
}

#[test]
fn finalize_needs_three_points() {
    let mut scene = Scene::new();
    assert!(scene.finalize_polygon(vec![PointCords(0, 0), PointCords(10, 0)]).is_none());
    assert_eq!(scene.polygons.len(), 0);
}

#[test]
fn constant_edge_keeps_length_under_drag() {
    let mut scene = Scene::new();
    let pid = square_at(&mut scene, 0, 0);
    // Point ids 1..=4, line ids 5..=8; line 6 joins (0,0) and (100,0).
    assert!(scene.set_constant(pid, 6, true).is_ok());
    // Drag (0,0) along the edge towards its far endpoint.
    assert!(scene.move_point(pid, 1, 50, 0).is_ok());
    let p = &scene.polygons[0];
    assert_eq!((p.points[0].x, p.points[0].y), (50, 0));
    // The constant edge pushed its far endpoint out to keep its length.
    assert_eq!((p.points[1].x, p.points[1].y), (150, 0));
    assert_eq!(p.lines[1].length, 100);
    // The other edge at the dragged vertex changed freely.
    assert_eq!(p.lines[0].length, 111); // sqrt(50^2+100^2) floored
}

#[test]
fn drag_with_free_edges_moves_only_the_vertex() {
    let mut scene = Scene::new();
    let pid = square_at(&mut scene, 0, 0);
    assert!(scene.move_point(pid, 1, 7, -9).is_ok());
    let p = &scene.polygons[0];
    assert_eq!((p.points[0].x, p.points[0].y), (7, -9));
    assert_eq!((p.points[1].x, p.points[1].y), (100, 0));
    assert_eq!((p.points[2].x, p.points[2].y), (100, 100));
    assert_eq!((p.points[3].x, p.points[3].y), (0, 100));
}

#[test]
fn zero_drag_changes_nothing() {
    let mut scene = Scene::new();
    let pid = square_at(&mut scene, 0, 0);
    assert!(scene.move_point(pid, 1, 0, 0).is_ok());
    let p = &scene.polygons[0];
    for (i, (x, y)) in [(0, 0), (100, 0), (100, 100), (0, 100)].iter().enumerate() {
        assert_eq!((p.points[i].x, p.points[i].y), (*x, *y));
    }
    for l in p.lines.iter() {
        assert_eq!(l.length, 100);
    }
    assert_eq!((p.center.0, p.center.1), (50, 50));
}

#[test]
fn relations_are_mutual_and_exclusive() {
    let mut scene = Scene::new();
    let a = square_at(&mut scene, 0, 0);
    let b = square_at(&mut scene, 0, 300);
    // Line 6 is the bottom edge of A, line 14 the bottom edge of B.
    assert!(scene.create_relation(6, 14).is_ok());
    assert_eq!(scene.polygons[a].get_line_relation(6), Some(14));
    assert_eq!(scene.polygons[b].get_line_relation(14), Some(6));
    // A second relation on an occupied edge is refused.
    assert!(scene.create_relation(6, 15) == Err(EditError::RelationConflict));
    assert!(scene.create_relation(15, 14) == Err(EditError::RelationConflict));
    assert!(scene.create_relation(7, 7) == Err(EditError::RelationConflict));
    assert!(scene.create_relation(6, 999) == Err(EditError::NotFound));
    // Clearing removes both sides.
    assert!(scene.clear_relation(6).is_ok());
    assert_eq!(scene.polygons[a].get_line_relation(6), None);
    assert_eq!(scene.polygons[b].get_line_relation(14), None);
}

#[test]
fn relation_enforces_partner_along_anchor_direction() {
    let mut scene = Scene::new();
    let _a = square_at(&mut scene, 0, 0);
    let b = square_at(&mut scene, 0, 300);
    assert!(scene.create_relation(6, 14).is_ok());
    // B's far endpoint (point id 10) was projected along A's direction:
    // px = near.x + 100 * (0 - 100) / 100 = -100, py = near.y.
    let p10 = scene.polygons[b].get_point_by_id(10);
    assert_eq!((p10.0, p10.1), (-100, 300));
    // The partner keeps its own stored length.
    assert_eq!(scene.polygons[b].lines[1].length, 100);
}

#[test]
fn relation_cycle_drag_terminates_once_per_edge() {
    let mut scene = Scene::new();
    let a = square_at(&mut scene, 0, 0);
    let b = square_at(&mut scene, 0, 300);
    assert!(scene.create_relation(6, 14).is_ok());
    // The pair forms a relation cycle A <-> B; a drag that reaches the
    // related edge fires each side at most once and returns.
    assert!(scene.move_point(a, 2, 50, 0).is_ok());
    let p10 = scene.polygons[b].get_point_by_id(10);
    // B's far endpoint follows A's (new) direction at B's own stored length.
    assert_eq!((p10.0, p10.1), (-100, 300));
    assert_eq!(scene.polygons[b].lines[1].length, 100);
    // A's edited edge measures its new geometry.
    assert_eq!(scene.polygons[a].lines[1].length, 150);
}

#[test]
fn set_line_length_extends_symmetrically() {
    let mut scene = Scene::new();
    let pid = square_at(&mut scene, 0, 0);
    assert!(scene.set_line_length(pid, 6, 150).is_ok());
    let p = &scene.polygons[0];
    // Both endpoints of line 6 moved apart by 25 along the edge.
    assert_eq!((p.points[0].x, p.points[0].y), (-25, 0));
    assert_eq!((p.points[1].x, p.points[1].y), (125, 0));
    assert_eq!(p.lines[1].length, 150);
    assert!(scene.set_line_length(pid, 999, 100) == Err(EditError::NotFound));
}

#[test]
fn split_edge_inserts_midpoint_vertex() {
    let mut scene = Scene::new();
    let pid = scene
        .finalize_polygon(vec![PointCords(0, 0), PointCords(100, 0), PointCords(50, 100)])
        .unwrap();
    // Point ids 1..=3, line ids 4..=6; line 5 joins (0,0) and (100,0).
    assert!(scene.split_edge(pid, 5, 99).is_ok());
    let p = &scene.polygons[0];
    assert_eq!(p.points.len(), 4);
    assert_eq!(p.lines.len(), 4);
    assert_eq!((p.points[1].x, p.points[1].y, p.points[1].id), (50, 0, 99));
    assert_eq!(p.lines[1].points, (1, 99));
    assert_eq!(p.lines[1].length, 50);
    assert_eq!(p.lines[2].points, (99, 2));
    assert_eq!(p.lines[2].length, 50);
    // Duplicate point ids are refused; missing lines are refused.
    assert!(scene.split_edge(pid, 4, 99) == Err(EditError::InvalidTopology));
    assert!(scene.split_edge(pid, 999, 55) == Err(EditError::NotFound));
}

#[test]
fn split_drops_the_relation_on_both_sides() {
    let mut scene = Scene::new();
    let a = square_at(&mut scene, 0, 0);
    let b = square_at(&mut scene, 0, 300);
    assert!(scene.create_relation(6, 14).is_ok());
    assert!(scene.split_edge(a, 6, 99).is_ok());
    // The split edge is gone; its partner no longer points anywhere.
    assert_eq!(scene.polygons[b].get_line_relation(14), None);
    for l in scene.polygons[a].lines.iter() {
        assert_eq!(l.relation, None);
    }
}

#[test]
fn split_then_remove_restores_the_edge_without_relation() {
    let mut scene = Scene::new();
    let pid = scene
        .finalize_polygon(vec![PointCords(0, 0), PointCords(100, 0), PointCords(50, 100)])
        .unwrap();
    let ids_before: Vec<u32> = scene.polygons[0].lines.iter().map(|l| l.id).collect();
    assert!(scene.split_edge(pid, 5, 99).is_ok());
    assert!(scene.remove_vertex(pid, 99, true).is_ok());
    let p = &scene.polygons[0];
    assert_eq!(p.points.len(), 3);
    assert_eq!(p.lines.len(), 3);
    // The original endpoint pair is restored...
    assert_eq!(p.lines[1].points, (1, 2));
    assert_eq!(p.lines[1].length, 100);
    // ...with a fresh id and no relation: the split dropped it for good.
    assert_eq!(p.lines[1].relation, None);
    assert!(p.lines[1].id != ids_before[1]);
    // The untouched edges kept their ids (preserve mode).
    assert_eq!(p.lines[0].id, ids_before[0]);
    assert_eq!(p.lines[2].id, ids_before[2]);
}

#[test]
fn remove_vertex_preserves_unrelated_topology() {
    let mut scene = Scene::new();
    let a = square_at(&mut scene, 0, 0);
    let b = square_at(&mut scene, 0, 300);
    // Relate the top edge of A (line 8) with the bottom edge of B (14).
    assert!(scene.create_relation(8, 14).is_ok());
    // Removing a vertex away from the related edge keeps the relation.
    assert!(scene.remove_vertex(a, 1, true).is_ok());
    assert_eq!(scene.polygons[a].points.len(), 3);
    assert_eq!(scene.polygons[a].get_line_relation(8), Some(14));
    assert_eq!(scene.polygons[b].get_line_relation(14), Some(8));
}

#[test]
fn remove_vertex_without_preserve_drops_relations() {
    let mut scene = Scene::new();
    let a = square_at(&mut scene, 0, 0);
    let b = square_at(&mut scene, 0, 300);
    assert!(scene.create_relation(8, 14).is_ok());
    assert!(scene.remove_vertex(a, 1, false).is_ok());
    for l in scene.polygons[a].lines.iter() {
        assert_eq!(l.relation, None);
    }
    assert_eq!(scene.polygons[b].get_line_relation(14), None);
}

#[test]
fn shrinking_below_three_vertices_destroys_the_polygon() {
    let mut scene = Scene::new();
    let a = square_at(&mut scene, 0, 0);
    let b = square_at(&mut scene, 0, 300);
    assert!(scene.create_relation(6, 14).is_ok());
    // Two removals leave a triangle, the third destroys polygon A.
    assert!(scene.remove_vertex(a, 3, true).is_ok());
    assert_eq!(scene.polygons[a].points.len(), 3);
    assert!(scene.remove_vertex(a, 4, true).is_ok());
    assert_eq!(scene.polygons.len(), 1);
    // No relation references the destroyed polygon's edges.
    for l in scene.polygons[0].lines.iter() {
        assert_eq!(l.relation, None);
    }
}

#[test]
fn delete_polygon_clears_relations_into_it() {
    let mut scene = Scene::new();
    let a = square_at(&mut scene, 0, 0);
    let b = square_at(&mut scene, 0, 300);
    assert!(scene.create_relation(6, 14).is_ok());
    assert!(scene.delete_polygon(b).is_ok());
    assert_eq!(scene.polygons.len(), 1);
    assert_eq!(scene.polygons[a].get_line_relation(6), None);
    assert!(scene.delete_polygon(5) == Err(EditError::NotFound));
}

#[test]
fn pick_prefers_center_then_vertex_then_edge() {
    let mut scene = Scene::new();
    triangle(&mut scene);
    // Near the centroid handle.
    match scene.pick(232, 208) {
        Some((0, PressedObject::Center)) => {},
        _ => panic!("expected the centroid handle"),
    }
    // Near the first vertex.
    match scene.pick(330, 225) {
        Some((0, PressedObject::Point(id))) => assert_eq!(id, 1),
        _ => panic!("expected a vertex hit"),
    }
    // On the edge between (330,220) and (200,50), away from its endpoints.
    match scene.pick(265, 135) {
        Some((0, PressedObject::Line(id, offset))) => {
            assert_eq!(id, 5);
            assert_eq!(offset, (-65, -85));
        },
        _ => panic!("expected an edge hit"),
    }
    assert!(scene.pick(5000, 5000).is_none());
}

#[test]
fn bezier_controls_take_over_edge_picking() {
    let mut scene = Scene::new();
    triangle(&mut scene);
    scene.polygons[0].set_bezier(5, Some((PointCords(600, 600), PointCords(700, 700))));
    // The segment body no longer answers; the control handles do.
    assert!(scene.pick(265, 135).is_none());
    match scene.pick(602, 598) {
        Some((0, PressedObject::BesierLine(id, which))) => {
            assert_eq!(id, 5);
            assert_eq!(which, 1);
        },
        _ => panic!("expected a curve control hit"),
    }
}

#[test]
fn lookups_with_bad_ids_are_refused() {
    let mut scene = Scene::new();
    let pid = triangle(&mut scene);
    assert!(scene.move_point(pid, 77, 1, 1) == Err(EditError::NotFound));
    assert!(scene.move_point(9, 1, 1, 1) == Err(EditError::NotFound));
    assert!(scene.remove_vertex(pid, 77, true) == Err(EditError::NotFound));
    assert!(scene.set_constant(pid, 77, true) == Err(EditError::NotFound));
    assert!(scene.clear_relation(77) == Err(EditError::NotFound));
    assert!(!scene.polygons[0].constains_line(77));
    assert!(scene.polygons[0].constains_line(5));
}

#[test]
fn translate_polygon_moves_everything_rigidly() {
    let mut scene = Scene::new();
    let pid = square_at(&mut scene, 0, 0);
    assert!(scene.translate_polygon(pid, 30, -20).is_ok());
    let p = &scene.polygons[0];
    assert_eq!((p.points[0].x, p.points[0].y), (30, -20));
    assert_eq!((p.points[2].x, p.points[2].y), (130, 80));
    for l in p.lines.iter() {
        assert_eq!(l.length, 100);
    }
    assert_eq!((p.center.0, p.center.1), (80, 30));
    assert!(scene.translate_polygon(9, 1, 1) == Err(EditError::NotFound));
}

#[test]
fn drag_line_moves_both_endpoints() {
    let mut scene = Scene::new();
    let pid = square_at(&mut scene, 0, 0);
    // Drag the bottom edge (line 6) down-right.
    assert!(scene.drag_line(pid, 6, 10, -5).is_ok());
    let p = &scene.polygons[0];
    assert_eq!((p.points[0].x, p.points[0].y), (10, -5));
    assert_eq!((p.points[1].x, p.points[1].y), (110, -5));
    assert_eq!((p.points[2].x, p.points[2].y), (100, 100));
    assert_eq!(p.lines[1].length, 100);
    assert!(scene.drag_line(pid, 99, 1, 1) == Err(EditError::NotFound));
}

#[test]
fn predefined_scene_pairs_and_pins_edges() {
    let mut scene = Scene::new();
    scene.set_predefined_scene();
    assert_eq!(scene.polygons.len(), 2);
    assert_eq!(scene.polygons[0].points.len(), 3);
    assert_eq!(scene.polygons[1].points.len(), 4);
    // The triangle's second edge and the quadrilateral's first are paired.
    assert_eq!(scene.polygons[0].get_line_relation(5), Some(11));
    assert_eq!(scene.polygons[1].get_line_relation(11), Some(5));
    // The quadrilateral's second edge is pinned.
    assert!(scene.polygons[1].lines[1].is_const);
    // The pairing was enforced at creation: the partner's far endpoint was
    // projected along the anchor's direction.
    assert!(scene.polygons[1].lines[0].length >= 0);
}

#[test]
fn remove_vertex_keeps_exactly_the_surviving_relations() {
    let mut scene = Scene::new();
    let a = square_at(&mut scene, 0, 0);
    let b = square_at(&mut scene, 0, 300);
    // Pair A's bottom edge (6) with B's bottom edge (14), and A's top edge
    // (8) with B's top edge (16).
    assert!(scene.create_relation(6, 14).is_ok());
    assert!(scene.create_relation(8, 16).is_ok());
    // Removing vertex 2 drops edges 6 and 7; only edge 6's pairing
    // dissolves, on both sides.
    assert!(scene.remove_vertex(a, 2, true).is_ok());
    assert_eq!(scene.polygons[a].get_line_relation(8), Some(16));
    assert_eq!(scene.polygons[b].get_line_relation(16), Some(8));
    assert_eq!(scene.polygons[b].get_line_relation(14), None);
    for l in scene.polygons[a].lines.iter() {
        assert!(l.relation == None || l.relation == Some(16));
    }
}
