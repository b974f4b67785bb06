//! Cycles in the graph of offset arcs.
//!
//! Vertices are the (merged) endpoints of arcs and edges are the arcs. Starting
//! from every edge in turn, a walk follows unused edges until it comes back to
//! the vertex it started from; at a vertex with several possible exits it takes
//! the "most close on the right" one. Which exit that is depends on the tangent
//! angles of the arcs, so the library receives it as data: for every edge and
//! each of its two endpoints, the order in which the exits of that vertex are
//! preferred when the walk arrives there through that edge.

use vstd::prelude::*;
use vstd::set_lib::*;

verus! {

/// An edge of the graph: the arc with index `id` joins vertex `from` to vertex `to`.
#[derive(Debug, Clone, Copy, PartialEq, Eq)]
pub struct GraphEdge {
    pub from: usize,
    pub to: usize,
    pub id: usize,
}

/// Graph of arcs: `adjacency[v]` lists the edges that touch vertex `v`.
pub struct CycleGraph {
    pub vertex_count: usize,
    pub adjacency: Vec<Vec<usize>>,
    pub edges: Vec<GraphEdge>,
}

/// For an edge `e` through which a walk arrives at a vertex, the exits of that
/// vertex in the order in which they are preferred: `at_from[e]` when the walk
/// arrives at `edges[e].from`, `at_to[e]` when it arrives at `edges[e].to`.
pub struct TurnOrders {
    pub at_from: Vec<Vec<usize>>,
    pub at_to: Vec<Vec<usize>>,
}

impl CycleGraph {
    /// Number of edges.
    pub open spec fn n(self) -> nat {
        self.edges@.len()
    }

    /// The edges that touch vertex `v`, in the order they were added.
    pub open spec fn adj(self, v: usize) -> Seq<usize> {
        if v < self.adjacency@.len() {
            self.adjacency@[v as int]@
        } else {
            Seq::empty()
        }
    }

    pub open spec fn edge(self, e: usize) -> GraphEdge {
        self.edges@[e as int]
    }

    /// Edge `e` has `v` as one of its endpoints.
    pub open spec fn incident(self, e: usize, v: usize) -> bool {
        self.edge(e).from == v || self.edge(e).to == v
    }

    /// The endpoint of `e` that is not `v` (for a loop, `v` itself).
    pub open spec fn other_end(self, e: usize, v: usize) -> usize {
        if self.edge(e).from == v {
            self.edge(e).to
        } else {
            self.edge(e).from
        }
    }

    /// Well-formedness: vertices and edges are numbered densely, and every
    /// adjacency entry is an edge that touches the vertex.
    pub open spec fn wf(self) -> bool {
        &&& self.adjacency@.len() == self.vertex_count
        &&& forall|e: int|
            0 <= e < self.edges@.len() ==> {
                &&& (#[trigger] self.edges@[e]).from < self.vertex_count
                &&& self.edges@[e].to < self.vertex_count
                &&& self.edges@[e].id == e
            }
        &&& forall|v: int, i: int|
            0 <= v < self.adjacency@.len() && 0 <= i < self.adjacency@[v]@.len() ==> {
                &&& (#[trigger] self.adjacency@[v]@[i]) < self.edges@.len()
                &&& self.incident(self.adjacency@[v]@[i], v as usize)
            }
    }
}

impl TurnOrders {
    /// The preference order of exits when arriving at `v` through edge `e` of `g`.
    pub open spec fn order(self, g: CycleGraph, e: usize, v: usize) -> Seq<usize> {
        if g.edge(e).from == v {
            if e < self.at_from@.len() {
                self.at_from@[e as int]@
            } else {
                Seq::empty()
            }
        } else {
            if e < self.at_to@.len() {
                self.at_to@[e as int]@
            } else {
                Seq::empty()
            }
        }
    }
}

/// The edges that may be taken next: not the one just followed, not used by an
/// earlier cycle, not already on the current path.
pub open spec fn edge_free(came: Option<usize>, used: Seq<bool>, path: Seq<usize>) -> spec_fn(
    usize,
) -> bool {
    |e: usize| came != Some(e) && !used[e as int] && !path.contains(e)
}

/// The exits of `v` that the walk may take, in adjacency order.
pub open spec fn available(
    g: CycleGraph,
    v: usize,
    came: Option<usize>,
    used: Seq<bool>,
    path: Seq<usize>,
) -> Seq<usize> {
    g.adj(v).filter(edge_free(came, used, path))
}

/// The first element of `order` that `avail` holds.
pub open spec fn first_in_order(order: Seq<usize>, avail: Seq<usize>) -> Option<usize>
    decreases order.len(),
{
    if order.len() == 0 {
        None
    } else if avail.contains(order[0]) {
        Some(order[0])
    } else {
        first_in_order(order.drop_first(), avail)
    }
}

/// The "most close on the right" exit: the first available exit in the turn
/// order of the incoming edge; if the order names none of them, the first
/// available exit.
pub open spec fn rightmost(order: Seq<usize>, avail: Seq<usize>) -> Option<usize> {
    match first_in_order(order, avail) {
        Some(e) => Some(e),
        None => if avail.len() > 0 {
            Some(avail[0])
        } else {
            None
        },
    }
}

/// The edge the walk takes at `v`, having arrived through `came`.
pub open spec fn next_edge(
    g: CycleGraph,
    t: TurnOrders,
    v: usize,
    came: Option<usize>,
    used: Seq<bool>,
    path: Seq<usize>,
) -> Option<usize> {
    let avail = available(g, v, came, used, path);
    if avail.len() == 0 {
        None
    } else if avail.len() == 1 {
        Some(avail[0])
    } else {
        match came {
            Some(c) => rightmost(t.order(g, c, v), avail),
            None => Some(avail[0]),
        }
    }
}

/// The walk that started at `start_v` and has followed `path`, standing at
/// `cur_v` after edge `cur_e`: the cycle it closes, if any.
pub open spec fn walk(
    g: CycleGraph,
    t: TurnOrders,
    used: Seq<bool>,
    start_v: usize,
    path: Seq<usize>,
    cur_v: usize,
    cur_e: usize,
    fuel: nat,
) -> Option<Seq<usize>>
    decreases fuel,
{
    if cur_v == start_v {
        Some(path)
    } else if fuel == 0 {
        None
    } else {
        match next_edge(g, t, cur_v, Some(cur_e), used, path) {
            None => None,
            Some(nx) => walk(
                g,
                t,
                used,
                start_v,
                path.push(nx),
                g.other_end(nx, cur_v),
                nx,
                (fuel - 1) as nat,
            ),
        }
    }
}

/// The cycle found from edge `s`, given the edges `used` by earlier cycles.
pub open spec fn cycle_from_edge(g: CycleGraph, t: TurnOrders, used: Seq<bool>, s: usize) -> Option<
    Seq<usize>,
> {
    if used[s as int] {
        None
    } else {
        walk(g, t, used, g.edge(s).from, seq![s], g.edge(s).to, s, (g.n() - 1) as nat)
    }
}

/// `used` with the edges of `path` marked.
pub open spec fn mark_used(used: Seq<bool>, path: Seq<usize>) -> Seq<bool> {
    Seq::new(used.len(), |e: int| used[e] || path.contains(e as usize))
}

/// The cycles found from edges `i`, `i + 1`, ... in turn.
pub open spec fn cycles_from(g: CycleGraph, t: TurnOrders, used: Seq<bool>, i: nat) -> Seq<
    Seq<usize>,
>
    decreases g.n() - i,
{
    if i >= g.n() {
        Seq::empty()
    } else {
        match cycle_from_edge(g, t, used, i as usize) {
            Some(c) => seq![c] + cycles_from(g, t, mark_used(used, c), i + 1),
            None => cycles_from(g, t, used, i + 1),
        }
    }
}

/// All the cycles that the search finds in `g`.
pub open spec fn all_cycles(g: CycleGraph, t: TurnOrders) -> Seq<Seq<usize>> {
    cycles_from(g, t, Seq::new(g.n(), |e: int| false), 0)
}


impl CycleGraph {
    /// An empty graph.
    pub fn new() -> (g: CycleGraph)
        ensures
            g.wf(),
            g.vertex_count == 0,
            g.adjacency@.len() == 0,
            g.edges@.len() == 0,
    {
        CycleGraph { vertex_count: 0, adjacency: Vec::new(), edges: Vec::new() }
    }

    /// Adds a vertex with no edges and returns its number.
    pub fn add_vertex(&mut self) -> (v: usize)
        requires
            old(self).wf(),
            old(self).vertex_count < usize::MAX,
        ensures
            final(self).wf(),
            v == old(self).vertex_count,
            final(self).vertex_count == old(self).vertex_count + 1,
            final(self).edges@ == old(self).edges@,
            final(self).adjacency@.len() == old(self).adjacency@.len() + 1,
            forall|u: usize| u < old(self).vertex_count ==> #[trigger] final(self).adj(u) == old(self).adj(u),
            final(self).adj(v) == Seq::<usize>::empty(),
    {
        let v = self.vertex_count;
        self.adjacency.push(Vec::new());
        self.vertex_count = v + 1;
        proof {
            assert forall|u: int, i: int|
                0 <= u < self.adjacency@.len() && 0 <= i < self.adjacency@[u]@.len() implies {
                    &&& (#[trigger] self.adjacency@[u]@[i]) < self.edges@.len()
                    &&& self.incident(self.adjacency@[u]@[i], u as usize)
                } by {
                assert(u < old(self).adjacency@.len());
                assert(self.adjacency@[u] == old(self).adjacency@[u]);
            }
        }
        v
    }

    /// Adds an edge joining `from` to `to`; it gets the next edge number and is
    /// listed in the adjacency of `from`, then in that of `to`.
    pub fn add_edge(&mut self, from: usize, to: usize)
        requires
            old(self).wf(),
            from < old(self).vertex_count,
            to < old(self).vertex_count,
            old(self).edges@.len() < usize::MAX,
        ensures
            final(self).wf(),
            final(self).vertex_count == old(self).vertex_count,
            final(self).edges@ == old(self).edges@.push(
                GraphEdge { from, to, id: old(self).edges@.len() as usize },
            ),
            forall|u: usize| #[trigger] final(self).adj(u) == {
                let e = old(self).edges@.len() as usize;
                let a = if u == from { old(self).adj(u).push(e) } else { old(self).adj(u) };
                if u == to { a.push(e) } else { a }
            },
    {
        let id = self.edges.len();
        let edge = GraphEdge { from, to, id };
        self.edges.push(edge);
        self.adjacency[from].push(id);
        self.adjacency[to].push(id);
        proof {
            assert forall|e: int| 0 <= e < self.edges@.len() implies {
                &&& (#[trigger] self.edges@[e]).from < self.vertex_count
                &&& self.edges@[e].to < self.vertex_count
                &&& self.edges@[e].id == e
            } by {
                if e < old(self).edges@.len() {
                    assert(self.edges@[e] == old(self).edges@[e]);
                }
            }
            assert forall|v: int, i: int|
                0 <= v < self.adjacency@.len() && 0 <= i < self.adjacency@[v]@.len() implies {
                    &&& (#[trigger] self.adjacency@[v]@[i]) < self.edges@.len()
                    &&& self.incident(self.adjacency@[v]@[i], v as usize)
                } by {
                let x = self.adjacency@[v]@[i];
                if x != id {
                    let ov = old(self).adjacency@[v]@;
                    assert(ov.contains(x)) by {
                        if v == from && v == to {
                            assert(self.adjacency@[v]@ == ov.push(id).push(id));
                        } else if v == from {
                            assert(self.adjacency@[v]@ == ov.push(id));
                        } else if v == to {
                            assert(self.adjacency@[v]@ == ov.push(id));
                        } else {
                            assert(self.adjacency@[v]@ == ov);
                        }
                        assert(i < ov.len());
                        assert(ov[i] == x);
                    }
                    let j = choose|j: int| 0 <= j < ov.len() && ov[j] == x;
                    assert(old(self).adjacency@[v]@[j] == x);
                    assert(self.edges@[x as int] == old(self).edges@[x as int]);
                } else {
                    assert(v == from || v == to) by {
                        if v != from && v != to {
                            assert(self.adjacency@[v] == old(self).adjacency@[v]);
                            assert(old(self).adjacency@[v]@[i] < old(self).edges@.len());
                        }
                    }
                }
            }
        }
    }
}


/// The edges among `endpoints` (edge `k` joins `endpoints[k].0` to
/// `endpoints[k].1`) that touch `v`, in edge order; a loop is listed twice.
pub open spec fn incident_edges(endpoints: Seq<(usize, usize)>, v: usize) -> Seq<usize>
    decreases endpoints.len(),
{
    if endpoints.len() == 0 {
        Seq::empty()
    } else {
        let k = (endpoints.len() - 1) as usize;
        let prev = incident_edges(endpoints.drop_last(), v);
        let a = if endpoints[k as int].0 == v { prev.push(k) } else { prev };
        if endpoints[k as int].1 == v { a.push(k) } else { a }
    }
}

/// Builds the graph with `vertex_count` vertices whose edge `k` joins
/// `endpoints[k].0` to `endpoints[k].1`.
pub fn build_graph(vertex_count: usize, endpoints: &Vec<(usize, usize)>) -> (g: CycleGraph)
    requires
        forall|k: int|
            0 <= k < endpoints@.len() ==> (#[trigger] endpoints@[k]).0 < vertex_count
                && endpoints@[k].1 < vertex_count,
    ensures
        g.wf(),
        g.vertex_count == vertex_count,
        g.edges@.len() == endpoints@.len(),
        forall|k: int|
            0 <= k < endpoints@.len() ==> #[trigger] g.edges@[k] == (GraphEdge {
                from: endpoints@[k].0,
                to: endpoints@[k].1,
                id: k as usize,
            }),
        forall|v: usize| #[trigger] g.adj(v) == incident_edges(endpoints@, v),
{
    let mut g = CycleGraph::new();
    while g.vertex_count < vertex_count
        invariant
            g.wf(),
            g.vertex_count <= vertex_count,
            g.edges@.len() == 0,
            forall|u: usize| #[trigger] g.adj(u) == Seq::<usize>::empty(),
        decreases vertex_count - g.vertex_count,
    {
        g.add_vertex();
    }
    let mut k: usize = 0;
    while k < endpoints.len()
        invariant
            g.wf(),
            g.vertex_count == vertex_count,
            k <= endpoints@.len(),
            g.edges@.len() == k,
            forall|j: int|
                0 <= j < endpoints@.len() ==> (#[trigger] endpoints@[j]).0 < vertex_count
                    && endpoints@[j].1 < vertex_count,
            forall|j: int|
                0 <= j < k ==> #[trigger] g.edges@[j] == (GraphEdge {
                    from: endpoints@[j].0,
                    to: endpoints@[j].1,
                    id: j as usize,
                }),
            forall|v: usize| #[trigger] g.adj(v) == incident_edges(endpoints@.take(k as int), v),
        decreases endpoints@.len() - k,
    {
        let (from, to) = endpoints[k];
        g.add_edge(from, to);
        proof {
            assert(endpoints@.take(k + 1).drop_last() =~= endpoints@.take(k as int));
            assert forall|v: usize| #[trigger] g.adj(v) == incident_edges(endpoints@.take(k + 1), v) by {
                assert(endpoints@.take(k + 1)[k as int] == endpoints@[k as int]);
            }
        }
        k = k + 1;
    }
    proof {
        assert(endpoints@.take(k as int) =~= endpoints@);
    }
    g
}


/// Every element of a filtered sequence is in the sequence and meets the predicate.
proof fn lemma_filter_members(s: Seq<usize>, p: spec_fn(usize) -> bool)
    ensures
        forall|i: int| 0 <= i < s.filter(p).len() ==> s.contains(#[trigger] s.filter(p)[i]) && p(s.filter(p)[i]),
    decreases s.len(),
{
    reveal(Seq::filter);
    if s.len() > 0 {
        lemma_filter_members(s.drop_last(), p);
        let f = s.filter(p);
        assert forall|i: int| 0 <= i < f.len() implies s.contains(#[trigger] f[i]) && p(f[i]) by {
            let g = s.drop_last().filter(p);
            if i < g.len() {
                assert(f[i] == g[i]);
                let j = choose|j: int| 0 <= j < s.drop_last().len() && s.drop_last()[j] == g[i];
                assert(s[j] == f[i]);
            } else {
                assert(f[i] == s.last());
                assert(s[s.len() - 1] == f[i]);
            }
        }
    }
}

/// `first_in_order` picks an element of `avail`.
proof fn lemma_first_in_order_member(order: Seq<usize>, avail: Seq<usize>)
    ensures
        first_in_order(order, avail) matches Some(e) ==> avail.contains(e),
    decreases order.len(),
{
    if order.len() > 0 && !avail.contains(order[0]) {
        lemma_first_in_order_member(order.drop_first(), avail);
    }
}

/// The edge the walk takes next is free and touches `v`.
proof fn lemma_next_edge_free(
    g: CycleGraph,
    t: TurnOrders,
    v: usize,
    came: Option<usize>,
    used: Seq<bool>,
    path: Seq<usize>,
)
    requires
        g.wf(),
        v < g.vertex_count,
    ensures
        next_edge(g, t, v, came, used, path) matches Some(e) ==> {
            &&& g.adj(v).contains(e)
            &&& e < g.n()
            &&& g.incident(e, v)
            &&& edge_free(came, used, path)(e)
        },
{
    let avail = available(g, v, came, used, path);
    lemma_filter_members(g.adj(v), edge_free(came, used, path));
    if let Some(c) = came {
        lemma_first_in_order_member(t.order(g, c, v), avail);
    }
    if let Some(e) = next_edge(g, t, v, came, used, path) {
        assert(avail.contains(e));
        let i = choose|i: int| 0 <= i < avail.len() && avail[i] == e;
        assert(g.adj(v).contains(avail[i]));
        let j = choose|j: int| 0 <= j < g.adj(v).len() && g.adj(v)[j] == e;
        assert(g.adjacency@[v as int]@[j] == e);
    }
}

impl CycleGraph {
    /// The edges that touch vertex `vertex` (none for a vertex the graph does not have).
    pub fn get_adjacent_edges(&self, vertex: usize) -> (r: &[usize])
        requires
            self.wf(),
        ensures
            r@ == self.adj(vertex),
    {
        if vertex < self.adjacency.len() {
            self.adjacency[vertex].as_slice()
        } else {
            &[]
        }
    }
}

/// Whether `v` holds `x`.
fn contains_edge(v: &Vec<usize>, x: usize) -> (r: bool)
    ensures
        r == v@.contains(x),
{
    let mut i: usize = 0;
    while i < v.len()
        invariant
            i <= v@.len(),
            forall|j: int| 0 <= j < i ==> v@[j] != x,
        decreases v@.len() - i,
    {
        if v[i] == x {
            return true;
        }
        i = i + 1;
    }
    false
}

/// Chooses the exit at `vertex`, reached through `incoming_edge_id`, among
/// `available_edges`: the first of them in the turn order of that arrival.
fn choose_rightmost_edge(
    graph: &CycleGraph,
    turns: &TurnOrders,
    vertex: usize,
    incoming_edge_id: usize,
    available_edges: &Vec<usize>,
) -> (r: Option<usize>)
    requires
        graph.wf(),
        incoming_edge_id < graph.n(),
    ensures
        r == rightmost(turns.order(*graph, incoming_edge_id, vertex), available_edges@),
{
    let edge = graph.edges[incoming_edge_id];
    let order: &Vec<usize> = if edge.from == vertex {
        if incoming_edge_id < turns.at_from.len() {
            &turns.at_from[incoming_edge_id]
        } else {
            return if available_edges.len() > 0 { Some(available_edges[0]) } else { None };
        }
    } else {
        if incoming_edge_id < turns.at_to.len() {
            &turns.at_to[incoming_edge_id]
        } else {
            return if available_edges.len() > 0 { Some(available_edges[0]) } else { None };
        }
    };
    assert(order@ == turns.order(*graph, incoming_edge_id, vertex));
    assert(order@.skip(0) =~= order@);
    let mut j: usize = 0;
    while j < order.len()
        invariant
            j <= order@.len(),
            order@ == turns.order(*graph, incoming_edge_id, vertex),
            first_in_order(order@, available_edges@) == first_in_order(order@.skip(j as int), available_edges@),
        decreases order@.len() - j,
    {
        let e = order[j];
        proof {
            assert(order@.skip(j as int)[0] == e);
            assert(order@.skip(j as int).drop_first() =~= order@.skip(j + 1));
        }
        if contains_edge(available_edges, e) {
            assert(first_in_order(order@.skip(j as int), available_edges@) == Some(e));
            return Some(e);
        }
        j = j + 1;
    }
    proof {
        assert(order@.skip(j as int).len() == 0);
    }
    if available_edges.len() > 0 {
        Some(available_edges[0])
    } else {
        None
    }
}

/// The next edge of the walk at `current_vertex`: the only free exit if there
/// is one, else the rightmost one after `came_from_edge` (or the first free
/// exit when the walk has no incoming edge).
fn find_next_edge(
    graph: &CycleGraph,
    turns: &TurnOrders,
    current_vertex: usize,
    came_from_edge: Option<usize>,
    used_edges: &Vec<bool>,
    on_path: &Vec<bool>,
    Ghost(path): Ghost<Seq<usize>>,
) -> (r: Option<usize>)
    requires
        graph.wf(),
        current_vertex < graph.vertex_count,
        used_edges@.len() == graph.n(),
        on_path@.len() == graph.n(),
        forall|e: int| 0 <= e < graph.n() ==> on_path@[e] == path.contains(e as usize),
        came_from_edge matches Some(c) ==> c < graph.n(),
    ensures
        r == next_edge(*graph, *turns, current_vertex, came_from_edge, used_edges@, path),
{
    let adjacent = graph.get_adjacent_edges(current_vertex);
    let ghost pred = edge_free(came_from_edge, used_edges@, path);
    let mut available_edges: Vec<usize> = Vec::new();
    let mut i: usize = 0;
    while i < adjacent.len()
        invariant
            graph.wf(),
            current_vertex < graph.vertex_count,
            adjacent@ == graph.adj(current_vertex),
            used_edges@.len() == graph.n(),
            on_path@.len() == graph.n(),
            forall|e: int| 0 <= e < graph.n() ==> on_path@[e] == path.contains(e as usize),
            pred == edge_free(came_from_edge, used_edges@, path),
            i <= adjacent@.len(),
            available_edges@ == adjacent@.take(i as int).filter(pred),
        decreases adjacent@.len() - i,
    {
        let edge_id = adjacent[i];
        proof {
            assert(graph.adjacency@[current_vertex as int]@[i as int] == edge_id);
            assert(adjacent@.take(i + 1) =~= adjacent@.take(i as int).push(edge_id));
            adjacent@.take(i as int).lemma_filter_push(edge_id, pred);
        }
        let is_came = match came_from_edge {
            Some(c) => c == edge_id,
            None => false,
        };
        if !is_came && !used_edges[edge_id] && !on_path[edge_id] {
            available_edges.push(edge_id);
        }
        i = i + 1;
    }
    proof {
        assert(adjacent@.take(i as int) =~= adjacent@);
    }
    if available_edges.len() == 0 {
        return None;
    }
    if available_edges.len() == 1 {
        return Some(available_edges[0]);
    }
    match came_from_edge {
        Some(from_edge_id) => choose_rightmost_edge(
            graph,
            turns,
            current_vertex,
            from_edge_id,
            &available_edges,
        ),
        None => Some(available_edges[0]),
    }
}


/// A sequence of distinct numbers below `n` has at most `n` elements.
proof fn lemma_distinct_below(s: Seq<usize>, n: nat)
    requires
        s.no_duplicates(),
        forall|i: int| 0 <= i < s.len() ==> (s[i] as nat) < n,
    ensures
        s.len() <= n,
{
    let t = s.map_values(|e: usize| e as int);
    assert(t.no_duplicates()) by {
        assert forall|i: int, j: int| 0 <= i < t.len() && 0 <= j < t.len() && i != j implies t[i] != t[j] by {
            assert(s[i] != s[j]);
        }
    }
    t.unique_seq_to_set();
    lemma_int_range(0, n as int);
    assert(t.to_set().subset_of(set_int_range(0, n as int))) by {
        assert forall|x: int| t.to_set().contains(x) implies set_int_range(0, n as int).contains(x) by {
            assert(t.contains(x));
            let i = choose|i: int| 0 <= i < t.len() && t[i] == x;
            assert(t[i] == s[i] as int);
        }
    }
    lemma_len_subset(t.to_set(), set_int_range(0, n as int));
}

/// Marking the edges of `path.push(x)` is marking those of `path`, then `x`.
proof fn lemma_mark_used_push(used: Seq<bool>, path: Seq<usize>, x: usize)
    requires
        x < used.len(),
        used.len() <= usize::MAX,
    ensures
        mark_used(used, path.push(x)) == mark_used(used, path).update(x as int, true),
{
    assert forall|e: int| 0 <= e < used.len() implies #[trigger] mark_used(used, path.push(x))[e]
        == mark_used(used, path).update(x as int, true)[e] by {
        if path.push(x).contains(e as usize) && e != x {
            let i = choose|i: int| 0 <= i < path.push(x).len() && path.push(x)[i] == e as usize;
            assert(i < path.len());
            assert(path[i] == e as usize);
        }
        if path.contains(e as usize) {
            let i = choose|i: int| 0 <= i < path.len() && path[i] == e as usize;
            assert(path.push(x)[i] == e as usize);
        }
        if e == x {
            assert(path.push(x)[path.len() as int] == x);
        }
    }
    assert(mark_used(used, path.push(x)) =~= mark_used(used, path).update(x as int, true));
}

/// Searches the cycle that starts with edge `start_edge_id`: the walk leaves
/// its `from` vertex along it and keeps taking the next edge until it is back
/// there (a cycle, whose edges are then marked used) or stuck (no cycle).
fn find_cycle_from_edge(
    graph: &CycleGraph,
    turns: &TurnOrders,
    start_edge_id: usize,
    used_edges: &mut Vec<bool>,
) -> (r: Option<Vec<usize>>)
    requires
        graph.wf(),
        start_edge_id < graph.n(),
        old(used_edges)@.len() == graph.n(),
    ensures
        match r {
            Some(c) => {
                &&& cycle_from_edge(*graph, *turns, old(used_edges)@, start_edge_id) == Some(c@)
                &&& final(used_edges)@ == mark_used(old(used_edges)@, c@)
            },
            None => {
                &&& cycle_from_edge(*graph, *turns, old(used_edges)@, start_edge_id) == None::<Seq<usize>>
                &&& final(used_edges)@ == old(used_edges)@
            },
        },
{
    if used_edges[start_edge_id] {
        return None;
    }
    let n = graph.edges.len();
    let ghost used0 = used_edges@;
    let ghost target = cycle_from_edge(*graph, *turns, used0, start_edge_id);
    let mut on_path: Vec<bool> = Vec::new();
    while on_path.len() < n
        invariant
            on_path@.len() <= n,
            forall|e: int| 0 <= e < on_path@.len() ==> !on_path@[e],
        decreases n - on_path@.len(),
    {
        on_path.push(false);
    }
    let mut cycle_edges: Vec<usize> = Vec::new();
    cycle_edges.push(start_edge_id);
    on_path.set(start_edge_id, true);
    let start_vertex = graph.edges[start_edge_id].from;
    let mut current_vertex = graph.edges[start_edge_id].to;
    let mut current_edge_id = start_edge_id;
    proof {
        assert forall|e: int| 0 <= e < n implies on_path@[e] == cycle_edges@.contains(e as usize) by {
            if e == start_edge_id {
                assert(cycle_edges@[0] == start_edge_id);
            }
        }
        assert(cycle_edges@ == seq![start_edge_id]);
    }
    loop
        invariant
            graph.wf(),
            n == graph.n(),
            used_edges@ == used0,
            used0 == old(used_edges)@,
            target == cycle_from_edge(*graph, *turns, old(used_edges)@, start_edge_id),
            used0.len() == n,
            on_path@.len() == n,
            forall|e: int| 0 <= e < n ==> on_path@[e] == cycle_edges@.contains(e as usize),
            1 <= cycle_edges@.len() <= n,
            cycle_edges@.no_duplicates(),
            forall|i: int| 0 <= i < cycle_edges@.len() ==> cycle_edges@[i] < n,
            current_edge_id < n,
            current_vertex < graph.vertex_count,
            start_vertex == graph.edge(start_edge_id).from,
            target == walk(
                *graph,
                *turns,
                used0,
                start_vertex,
                cycle_edges@,
                current_vertex,
                current_edge_id,
                (n - cycle_edges@.len()) as nat,
            ),
        decreases n - cycle_edges@.len(),
    {
        if current_vertex == start_vertex {
            let mut k: usize = 0;
            while k < cycle_edges.len()
                invariant
                    0 <= k <= cycle_edges@.len(),
                    used0.len() == n,
                    n == graph.n(),
                    forall|i: int| 0 <= i < cycle_edges@.len() ==> cycle_edges@[i] < n,
                    used_edges@ == mark_used(used0, cycle_edges@.take(k as int)),
                decreases cycle_edges@.len() - k,
            {
                let e = cycle_edges[k];
                proof {
                    assert(cycle_edges@.take(k + 1) =~= cycle_edges@.take(k as int).push(e));
                    lemma_mark_used_push(used0, cycle_edges@.take(k as int), e);
                }
                used_edges.set(e, true);
                k = k + 1;
            }
            proof {
                assert(cycle_edges@.take(k as int) =~= cycle_edges@);
            }
            return Some(cycle_edges);
        }
        let next = find_next_edge(
            graph,
            turns,
            current_vertex,
            Some(current_edge_id),
            used_edges,
            &on_path,
            Ghost(cycle_edges@),
        );
        match next {
            Some(next_edge_id) => {
                proof {
                    lemma_next_edge_free(
                        *graph,
                        *turns,
                        current_vertex,
                        Some(current_edge_id),
                        used0,
                        cycle_edges@,
                    );
                }
                let ghost old_path = cycle_edges@;
                let e = graph.edges[next_edge_id];
                current_vertex = if e.from == current_vertex {
                    e.to
                } else {
                    e.from
                };
                current_edge_id = next_edge_id;
                cycle_edges.push(next_edge_id);
                on_path.set(next_edge_id, true);
                proof {
                    assert(!old_path.contains(next_edge_id));
                    assert(cycle_edges@.no_duplicates()) by {
                        assert forall|i: int, j: int|
                            0 <= i < cycle_edges@.len() && 0 <= j < cycle_edges@.len() && i != j
                            implies cycle_edges@[i] != cycle_edges@[j] by {
                            if i < old_path.len() && j < old_path.len() {
                                assert(old_path[i] != old_path[j]);
                            } else if i < old_path.len() {
                                assert(old_path[i] != next_edge_id);
                            } else if j < old_path.len() {
                                assert(old_path[j] != next_edge_id);
                            }
                        }
                    }
                    lemma_distinct_below(cycle_edges@, n as nat);
                    assert forall|e: int| 0 <= e < n implies on_path@[e] == cycle_edges@.contains(e as usize) by {
                        if old_path.contains(e as usize) {
                            let i = choose|i: int| 0 <= i < old_path.len() && old_path[i] == e as usize;
                            assert(cycle_edges@[i] == e as usize);
                        }
                        if cycle_edges@.contains(e as usize) && e != next_edge_id {
                            let i = choose|i: int| 0 <= i < cycle_edges@.len() && cycle_edges@[i] == e as usize;
                            assert(i < old_path.len());
                            assert(old_path[i] == e as usize);
                        }
                        if e == next_edge_id {
                            assert(cycle_edges@[old_path.len() as int] == next_edge_id);
                        }
                    }
                }
            },
            None => {
                return None;
            },
        }
    }
}

/// Finds the cycles of the graph: from every edge in turn, the cycle that
/// starts with it among the edges that no earlier cycle took.
pub fn find_non_intersecting_cycles(graph: &CycleGraph, turns: &TurnOrders) -> (r: Vec<Vec<usize>>)
    requires
        graph.wf(),
    ensures
        r@.map_values(|c: Vec<usize>| c@) == all_cycles(*graph, *turns),
{
    let n = graph.edges.len();
    if n == 0 {
        proof {
            assert(all_cycles(*graph, *turns) =~= Seq::<Seq<usize>>::empty());
        }
        let r: Vec<Vec<usize>> = Vec::new();
        assert(r@.map_values(|c: Vec<usize>| c@) =~= Seq::<Seq<usize>>::empty());
        return r;
    }
    let mut used_edges: Vec<bool> = Vec::new();
    while used_edges.len() < n
        invariant
            used_edges@.len() <= n,
            forall|e: int| 0 <= e < used_edges@.len() ==> !used_edges@[e],
        decreases n - used_edges@.len(),
    {
        used_edges.push(false);
    }
    proof {
        assert(used_edges@ =~= Seq::new(graph.n(), |e: int| false));
    }
    let mut cycles: Vec<Vec<usize>> = Vec::new();
    let mut edge_id: usize = 0;
    while edge_id < n
        invariant
            graph.wf(),
            n == graph.n(),
            edge_id <= n,
            used_edges@.len() == n,
            cycles@.map_values(|c: Vec<usize>| c@) + cycles_from(*graph, *turns, used_edges@, edge_id as nat)
                == all_cycles(*graph, *turns),
        decreases n - edge_id,
    {
        let ghost before = cycles@.map_values(|c: Vec<usize>| c@);
        let ghost used_before = used_edges@;
        let found = find_cycle_from_edge(graph, turns, edge_id, &mut used_edges);
        match found {
            Some(cycle) => {
                let ghost cv = cycle@;
                cycles.push(cycle);
                proof {
                    assert(cycles@.map_values(|c: Vec<usize>| c@) =~= before.push(cv));
                    assert(cycles_from(*graph, *turns, used_before, edge_id as nat)
                        == seq![cv] + cycles_from(*graph, *turns, used_edges@, (edge_id + 1) as nat));
                    assert(before.push(cv) + cycles_from(*graph, *turns, used_edges@, (edge_id + 1) as nat)
                        =~= before + (seq![cv] + cycles_from(*graph, *turns, used_edges@, (edge_id + 1) as nat)));
                }
            },
            None => {},
        }
        edge_id = edge_id + 1;
    }
    proof {
        assert(cycles_from(*graph, *turns, used_edges@, edge_id as nat) =~= Seq::<Seq<usize>>::empty());
        assert(cycles@.map_values(|c: Vec<usize>| c@) + Seq::<Seq<usize>>::empty()
            =~= cycles@.map_values(|c: Vec<usize>| c@));
    }
    cycles
}


/// The vertex a walk along `path` stands at after its edge `i`, having left
/// the `from` vertex of `path[0]`.
pub open spec fn trail_end(g: CycleGraph, path: Seq<usize>, i: int) -> usize
    decreases i,
{
    if i <= 0 {
        g.edge(path[0]).to
    } else {
        g.other_end(path[i], trail_end(g, path, i - 1))
    }
}

/// `path` is a closed trail of `g`: distinct edges, each touching the vertex
/// the previous one led to, coming back to the start vertex after the last
/// edge and not before.
pub open spec fn is_closed_trail(g: CycleGraph, path: Seq<usize>) -> bool {
    &&& path.len() >= 1
    &&& path.no_duplicates()
    &&& forall|i: int| 0 <= i < path.len() ==> #[trigger] path[i] < g.n()
    &&& forall|i: int| 1 <= i < path.len() ==> g.incident(#[trigger] path[i], trail_end(g, path, i - 1))
    &&& trail_end(g, path, path.len() - 1) == g.edge(path[0]).from
    &&& forall|i: int| 0 <= i < path.len() - 1 ==> #[trigger] trail_end(g, path, i) != g.edge(path[0]).from
}

proof fn lemma_trail_end_push(g: CycleGraph, path: Seq<usize>, x: usize, i: int)
    requires
        0 <= i < path.len(),
    ensures
        trail_end(g, path.push(x), i) == trail_end(g, path, i),
    decreases i,
{
    assert(path.push(x)[i] == path[i]);
    if i > 0 {
        lemma_trail_end_push(g, path, x, i - 1);
    }
}

/// A walk that is a trail so far closes, if it closes, into a closed trail of
/// edges not used before, extending the path followed so far.
proof fn lemma_walk_trail(
    g: CycleGraph,
    t: TurnOrders,
    used: Seq<bool>,
    start_v: usize,
    path: Seq<usize>,
    cur_v: usize,
    cur_e: usize,
    fuel: nat,
)
    requires
        g.wf(),
        used.len() == g.n(),
        path.len() >= 1,
        start_v == g.edge(path[0]).from,
        cur_e == path[path.len() - 1],
        cur_v == trail_end(g, path, path.len() - 1),
        cur_v < g.vertex_count,
        path.no_duplicates(),
        forall|i: int| 0 <= i < path.len() ==> #[trigger] path[i] < g.n() && !used[path[i] as int],
        forall|i: int| 1 <= i < path.len() ==> g.incident(#[trigger] path[i], trail_end(g, path, i - 1)),
        forall|i: int| 0 <= i < path.len() - 1 ==> #[trigger] trail_end(g, path, i) != start_v,
    ensures
        walk(g, t, used, start_v, path, cur_v, cur_e, fuel) matches Some(c) ==> {
            &&& is_closed_trail(g, c)
            &&& c[0] == path[0]
            &&& forall|i: int| 0 <= i < c.len() ==> !used[#[trigger] c[i] as int]
        },
    decreases fuel,
{
    if cur_v == start_v {
    } else if fuel == 0 {
    } else {
        lemma_next_edge_free(g, t, cur_v, Some(cur_e), used, path);
        if let Some(nx) = next_edge(g, t, cur_v, Some(cur_e), used, path) {
            let p2 = path.push(nx);
            assert forall|i: int| 0 <= i < path.len() implies #[trigger] trail_end(g, p2, i) == trail_end(g, path, i) by {
                lemma_trail_end_push(g, path, nx, i);
            }
            assert(p2[path.len() as int] == nx);
            assert(trail_end(g, p2, path.len() - 1) == cur_v);
            assert(trail_end(g, p2, path.len() as int) == g.other_end(nx, cur_v));
            assert(p2.no_duplicates()) by {
                assert forall|i: int, j: int| 0 <= i < p2.len() && 0 <= j < p2.len() && i != j implies p2[i] != p2[j] by {
                    if i < path.len() && j < path.len() {
                        assert(path[i] != path[j]);
                    } else if i < path.len() {
                        assert(path.contains(path[i]));
                    } else if j < path.len() {
                        assert(path.contains(path[j]));
                    }
                }
            }
            assert forall|i: int| 0 <= i < p2.len() implies #[trigger] p2[i] < g.n() && !used[p2[i] as int] by {
                if i < path.len() {
                    assert(p2[i] == path[i]);
                }
            }
            assert forall|i: int| 1 <= i < p2.len() implies g.incident(#[trigger] p2[i], trail_end(g, p2, i - 1)) by {
                if i < path.len() {
                    assert(p2[i] == path[i]);
                }
            }
            assert forall|i: int| 0 <= i < p2.len() - 1 implies #[trigger] trail_end(g, p2, i) != start_v by {
            }
            assert(p2[0] == path[0]);
            lemma_walk_trail(g, t, used, start_v, p2, g.other_end(nx, cur_v), nx, (fuel - 1) as nat);
        }
    }
}

/// The cycle found from an edge is a closed trail that starts with that edge
/// and holds no edge used before.
proof fn lemma_cycle_from_edge_trail(g: CycleGraph, t: TurnOrders, used: Seq<bool>, s: usize)
    requires
        g.wf(),
        used.len() == g.n(),
        s < g.n(),
    ensures
        cycle_from_edge(g, t, used, s) matches Some(c) ==> {
            &&& is_closed_trail(g, c)
            &&& c[0] == s
            &&& forall|i: int| 0 <= i < c.len() ==> !used[#[trigger] c[i] as int]
        },
{
    if !used[s as int] {
        let p = seq![s];
        assert(p[0] == s);
        assert(trail_end(g, p, 0) == g.edge(s).to);
        assert(p.no_duplicates());
        lemma_walk_trail(g, t, used, g.edge(s).from, p, g.edge(s).to, s, (g.n() - 1) as nat);
    }
}

proof fn lemma_cycles_from(g: CycleGraph, t: TurnOrders, used: Seq<bool>, i: nat)
    requires
        g.wf(),
        used.len() == g.n(),
    ensures
        forall|k: int| 0 <= k < cycles_from(g, t, used, i).len() ==> {
            &&& is_closed_trail(g, #[trigger] cycles_from(g, t, used, i)[k])
            &&& forall|j: int| 0 <= j < cycles_from(g, t, used, i)[k].len()
                ==> !used[#[trigger] cycles_from(g, t, used, i)[k][j] as int]
        },
        forall|k1: int, k2: int| 0 <= k1 < k2 < cycles_from(g, t, used, i).len()
            ==> (#[trigger] cycles_from(g, t, used, i)[k1]).disjoint(#[trigger] cycles_from(g, t, used, i)[k2]),
    decreases g.n() - i,
{
    if i < g.n() {
        lemma_cycle_from_edge_trail(g, t, used, i as usize);
        match cycle_from_edge(g, t, used, i as usize) {
            Some(c) => {
                let u2 = mark_used(used, c);
                lemma_cycles_from(g, t, u2, i + 1);
                let rest = cycles_from(g, t, u2, i + 1);
                let all = cycles_from(g, t, used, i);
                assert(all == seq![c] + rest);
                assert forall|k: int| 0 <= k < all.len() implies {
                    &&& is_closed_trail(g, #[trigger] all[k])
                    &&& forall|j: int| 0 <= j < all[k].len() ==> !used[#[trigger] all[k][j] as int]
                } by {
                    if k > 0 {
                        assert(all[k] == rest[k - 1]);
                        assert forall|j: int| 0 <= j < all[k].len() implies !used[#[trigger] all[k][j] as int] by {
                            assert(!u2[rest[k - 1][j] as int]);
                        }
                    }
                }
                assert forall|k1: int, k2: int| 0 <= k1 < k2 < all.len() implies (#[trigger] all[k1]).disjoint(
                    #[trigger] all[k2],
                ) by {
                    if k1 > 0 {
                        assert(all[k1] == rest[k1 - 1]);
                        assert(all[k2] == rest[k2 - 1]);
                    } else {
                        assert(all[k1] == c);
                        assert(all[k2] == rest[k2 - 1]);
                        assert forall|a: int, b: int| 0 <= a < c.len() && 0 <= b < all[k2].len() implies c[a] != all[k2][b] by {
                            let x = rest[k2 - 1][b];
                            assert(!u2[x as int]);
                            assert(c[a] < g.n());
                            if c[a] == x {
                                assert(c.contains(x));
                                assert(u2[x as int]);
                            }
                        }
                    }
                }
            },
            None => {
                lemma_cycles_from(g, t, used, i + 1);
                assert(cycles_from(g, t, used, i) == cycles_from(g, t, used, i + 1));
            },
        }
    } else {
        assert(cycles_from(g, t, used, i).len() == 0);
    }
}

/// Every cycle that the search finds is a closed trail of the graph: its edges
/// are distinct, each one starts where the previous one ended, and the last one
/// ends where the first one started.
pub proof fn lemma_cycles_are_closed_trails(g: CycleGraph, t: TurnOrders)
    requires
        g.wf(),
    ensures
        forall|k: int| 0 <= k < all_cycles(g, t).len() ==> is_closed_trail(g, #[trigger] all_cycles(g, t)[k]),
{
    lemma_cycles_from(g, t, Seq::new(g.n(), |e: int| false), 0);
}

/// No edge belongs to two of the cycles that the search finds.
pub proof fn lemma_cycles_are_edge_disjoint(g: CycleGraph, t: TurnOrders)
    requires
        g.wf(),
    ensures
        forall|k1: int, k2: int| 0 <= k1 < k2 < all_cycles(g, t).len()
            ==> (#[trigger] all_cycles(g, t)[k1]).disjoint(#[trigger] all_cycles(g, t)[k2]),
{
    lemma_cycles_from(g, t, Seq::new(g.n(), |e: int| false), 0);
}


/// No edge used.
pub open spec fn none_used(n: nat) -> Seq<bool> {
    Seq::new(n, |e: int| false)
}

/// `used` with the edges of the cycles of `found` that start at an edge
/// before `s` marked too.
pub open spec fn marked_before(used: Seq<bool>, found: Seq<Seq<usize>>, s: int) -> Seq<bool> {
    Seq::new(
        used.len(),
        |e: int|
            used[e] || exists|k: int|
                0 <= k < found.len() && (#[trigger] found[k])[0] < s && found[k].contains(e as usize),
    )
}

proof fn lemma_cycles_from_walks(g: CycleGraph, t: TurnOrders, used: Seq<bool>, i: nat)
    requires
        g.wf(),
        g.n() <= usize::MAX,
        used.len() == g.n(),
    ensures
        forall|k: int|
            0 <= k < cycles_from(g, t, used, i).len() ==> {
                &&& (#[trigger] cycles_from(g, t, used, i)[k]).len() > 0
                &&& i <= cycles_from(g, t, used, i)[k][0] < g.n()
                &&& cycle_from_edge(
                    g,
                    t,
                    marked_before(used, cycles_from(g, t, used, i), cycles_from(g, t, used, i)[k][0] as int),
                    cycles_from(g, t, used, i)[k][0],
                ) == Some(cycles_from(g, t, used, i)[k])
            },
        forall|s: usize|
            i <= s < g.n() ==> (#[trigger] cycle_from_edge(
                g,
                t,
                marked_before(used, cycles_from(g, t, used, i), s as int),
                s,
            ) matches Some(c) ==> cycles_from(g, t, used, i).contains(c)),
    decreases g.n() - i,
{
    let all = cycles_from(g, t, used, i);
    if i < g.n() {
        lemma_cycle_from_edge_trail(g, t, used, i as usize);
        match cycle_from_edge(g, t, used, i as usize) {
            Some(c) => {
                let u2 = mark_used(used, c);
                lemma_cycles_from_walks(g, t, u2, i + 1);
                let rest = cycles_from(g, t, u2, i + 1);
                assert(all == seq![c] + rest);
                assert(c[0] == i);
                assert(c.len() > 0);
                assert(marked_before(used, all, i as int) =~= used) by {
                    assert forall|e: int| 0 <= e < used.len() implies marked_before(used, all, i as int)[e] == used[e] by {
                        if exists|k: int| 0 <= k < all.len() && (#[trigger] all[k])[0] < i && all[k].contains(e as usize) {
                            let k = choose|k: int| 0 <= k < all.len() && (#[trigger] all[k])[0] < i && all[k].contains(e as usize);
                            if k > 0 {
                                assert(all[k] == rest[k - 1]);
                            }
                        }
                    }
                }
                assert forall|s: int| s > i implies #[trigger] marked_before(used, all, s) =~= marked_before(u2, rest, s) by {
                    assert forall|e: int| 0 <= e < used.len() implies marked_before(used, all, s)[e] == marked_before(u2, rest, s)[e] by {
                        if exists|k: int| 0 <= k < all.len() && (#[trigger] all[k])[0] < s && all[k].contains(e as usize) {
                            let k = choose|k: int| 0 <= k < all.len() && (#[trigger] all[k])[0] < s && all[k].contains(e as usize);
                            if k > 0 {
                                assert(all[k] == rest[k - 1]);
                                assert(rest[k - 1][0] < s && rest[k - 1].contains(e as usize));
                            } else {
                                assert(u2[e]);
                            }
                        }
                        if exists|k: int| 0 <= k < rest.len() && (#[trigger] rest[k])[0] < s && rest[k].contains(e as usize) {
                            let k = choose|k: int| 0 <= k < rest.len() && (#[trigger] rest[k])[0] < s && rest[k].contains(e as usize);
                            assert(all[k + 1] == rest[k]);
                        }
                        if u2[e] && !used[e] {
                            assert(c.contains(e as usize));
                            assert(all[0] == c);
                        }
                    }
                }
                assert forall|k: int| 0 <= k < all.len() implies {
                    &&& (#[trigger] all[k]).len() > 0
                    &&& i <= all[k][0] < g.n()
                    &&& cycle_from_edge(g, t, marked_before(used, all, all[k][0] as int), all[k][0]) == Some(all[k])
                } by {
                    if k > 0 {
                        assert(all[k] == rest[k - 1]);
                        assert(marked_before(used, all, all[k][0] as int) =~= marked_before(u2, rest, rest[k - 1][0] as int));
                    } else {
                        assert(all[0] == c);
                    }
                }
                assert forall|s: usize| i <= s < g.n() implies (#[trigger] cycle_from_edge(
                    g,
                    t,
                    marked_before(used, all, s as int),
                    s,
                ) matches Some(c2) ==> all.contains(c2)) by {
                    if s == i {
                        assert(all[0] == c);
                    } else {
                        assert(marked_before(used, all, s as int) =~= marked_before(u2, rest, s as int));
                        if let Some(c2) = cycle_from_edge(g, t, marked_before(u2, rest, s as int), s) {
                            assert(rest.contains(c2));
                            let j = choose|j: int| 0 <= j < rest.len() && rest[j] == c2;
                            assert(all[j + 1] == c2);
                        }
                    }
                }
            },
            None => {
                lemma_cycles_from_walks(g, t, used, i + 1);
                assert(all == cycles_from(g, t, used, i + 1));
                assert(marked_before(used, all, i as int) =~= used) by {
                    assert forall|e: int| 0 <= e < used.len() implies marked_before(used, all, i as int)[e] == used[e] by {
                        if exists|k: int| 0 <= k < all.len() && (#[trigger] all[k])[0] < i && all[k].contains(e as usize) {
                            let k = choose|k: int| 0 <= k < all.len() && (#[trigger] all[k])[0] < i && all[k].contains(e as usize);
                        }
                    }
                }
            },
        }
    } else {
        assert(all.len() == 0);
    }
}

/// The walk from every edge is run with exactly the edges of the cycles found
/// from the edges before it marked used (a walk that fails marks nothing):
/// every cycle found is the walk from its first edge on those terms, and
/// every walk that closes on those terms gives a cycle of the result.
pub proof fn lemma_cycles_are_the_closing_walks(g: CycleGraph, t: TurnOrders)
    requires
        g.wf(),
        g.n() <= usize::MAX,
    ensures
        forall|k: int|
            0 <= k < all_cycles(g, t).len() ==> {
                &&& (#[trigger] all_cycles(g, t)[k]).len() > 0
                &&& cycle_from_edge(
                    g,
                    t,
                    marked_before(none_used(g.n()), all_cycles(g, t), all_cycles(g, t)[k][0] as int),
                    all_cycles(g, t)[k][0],
                ) == Some(all_cycles(g, t)[k])
            },
        forall|s: usize|
            s < g.n() ==> (#[trigger] cycle_from_edge(
                g,
                t,
                marked_before(none_used(g.n()), all_cycles(g, t), s as int),
                s,
            ) matches Some(c) ==> all_cycles(g, t).contains(c)),
{
    assert(all_cycles(g, t) == cycles_from(g, t, none_used(g.n()), 0));
    lemma_cycles_from_walks(g, t, none_used(g.n()), 0);
}

} // verus!
