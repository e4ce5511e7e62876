//! A 2D polygon editor core: a topology model of polygons built from points
//! and edges, a geometric constraint engine that keeps constant-length edges
//! rigid and related edges synchronised across polygons, hit-testing for
//! picking vertices, edges and centroid handles, and topology editing
//! operations (edge splitting, vertex removal, polygon destruction).
//!
//! All geometry is carried out over integer coordinates, so every formula of
//! the engine (lengths, direction ratios, midpoints, centroids) is exact and
//! fully specified.

pub mod arith;
pub mod data_models;
pub mod utils;
pub mod polygon;
pub mod scene;
pub mod laws;
