//! Combinatorial core of an offsetting library for arc polylines.
//!
//! The geometric computations of offsetting (offset curves, distances,
//! intersections, tangents) are floating-point work; this crate holds the
//! logic that decides what is done with their results: the line primitive,
//! the ways two primitives can meet and which of them are real crossings,
//! the pieces cut where primitives cross, the work list of splitting, the
//! arcs that connect raw offsets, the packing of arc identifiers, the
//! grouping of close arc endpoints and the search for non-intersecting
//! cycles in the graph of offset arcs.

pub mod arc_string;
pub mod configs;
pub mod connect;
pub mod ids;
pub mod line;
pub mod split;
pub mod split_work;
pub mod graph;
