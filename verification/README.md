# offroad

Offsetting of closed arc polylines, split in two:

- `src/` is the verified library: the decisions of the offsetting pipeline,
  stated as contracts and proved. It covers the ways two primitives meet
  (`configs`), the pieces cut where they cross (`split`), the work list that
  splits all offset parts against each other (`split_work`), the arcs that
  join consecutive raw offsets (`connect`), arc identifiers (`ids`), the
  grouping of close endpoints (`graph::endpoint_groups`) and the search for
  closed, edge-disjoint cycles (`graph::cycles`).
- `app/` runs the pipeline on floating-point geometry with the `togo`
  crate (offset curves, intersections, distances, tangents), the `aabb`
  spatial index and `robust` orientation tests, and hands the library the
  plain values its decisions need.
