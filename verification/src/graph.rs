//! Graph algorithms on arcs: grouping of close endpoints and cycle search.

pub mod cycles;
pub mod endpoint_groups;
