//! The entities of the topology model: points, lines (edges), and bare
//! coordinate pairs, together with the validity bounds kept by every editor
//! operation.

use vstd::prelude::*;
use crate::arith::{COORD_LIMIT, LEN_LIMIT};

verus! {

/// A bare coordinate pair.
#[derive(Clone, Copy, PartialEq, Eq, Structural)]
pub struct PointCords(pub i64, pub i64);

/// A polygon vertex.  Identity is the `id`, unique within the owning polygon.
#[derive(Clone, Copy, PartialEq, Eq, Structural)]
pub struct Point {
    pub x: i64,
    pub y: i64,
    pub id: u32,
}

/// A polygon edge between the vertices named by `points`.
///
/// `length` is the target length: the value the constraint engine tries to
/// restore after any movement affecting this edge when `is_const` is set or
/// `relation` names a partner edge.  For a free edge it simply caches the
/// current measured length.  `visited` is transient cycle-breaking state of
/// one propagation pass, cleared before the next top-level edit.
#[derive(Clone, Copy)]
pub struct Line {
    pub points: (u32, u32),
    pub length: i64,
    pub id: u32,
    pub is_const: bool,
    pub relation: Option<u32>,
    pub visited: bool,
    pub bezier: Option<(PointCords, PointCords)>,
}

pub open spec fn coord_ok(c: i64) -> bool {
    -COORD_LIMIT <= c <= COORD_LIMIT
}

pub open spec fn cords_ok(c: PointCords) -> bool {
    coord_ok(c.0) && coord_ok(c.1)
}

pub open spec fn point_ok(p: Point) -> bool {
    coord_ok(p.x) && coord_ok(p.y)
}

pub open spec fn bezier_ok(b: Option<(PointCords, PointCords)>) -> bool {
    match b {
        Some((c1, c2)) => cords_ok(c1) && cords_ok(c2),
        None => true,
    }
}

pub open spec fn line_ok(l: Line) -> bool {
    0 <= l.length <= LEN_LIMIT && bezier_ok(l.bezier)
}

} // verus!
