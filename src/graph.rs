//! The edge store of the requirements graph: a directed graph whose nodes are
//! UUIDs and whose edges run from a child to a parent, weighted by the
//! parent's fingerprint at the time of linking.

use petgraph::graphmap::DiGraphMap;
use vstd::prelude::*;

verus! {

#[verifier::external_type_specification]
#[verifier::external_body]
#[verifier::reject_recursive_types(N)]
#[verifier::reject_recursive_types(E)]
#[verifier::reject_recursive_types(Ty)]
#[verifier::reject_recursive_types(S)]
pub struct ExGraphMap<N, E, Ty, S: core::hash::BuildHasher>(
    petgraph::graphmap::GraphMap<N, E, Ty, S>,
);

#[verifier::external_type_specification]
#[verifier::external_body]
pub struct ExDirected(petgraph::Directed);

/// The graph type that stores the edges.
pub type EdgeGraph = DiGraphMap<u128, String>;

/// The nodes of the graph.
pub uninterp spec fn graph_nodes(g: EdgeGraph) -> Set<u128>;

/// The edges of the graph, `(from, to)`, each with its weight.
pub uninterp spec fn graph_edges(g: EdgeGraph) -> Map<(u128, u128), Seq<char>>;

/// Which way to follow edges.
#[derive(Debug, Clone, Copy, PartialEq, Eq)]
pub enum Direction {
    /// From a node to the nodes it points at (a child to its parents).
    Outgoing,
    /// From a node to the nodes pointing at it (a parent to its children).
    Incoming,
}

/// One step from `a` to `b` following edges in direction `dir`.
pub open spec fn step(edges: Map<(u128, u128), Seq<char>>, dir: Direction, a: u128, b: u128) -> bool {
    match dir {
        Direction::Outgoing => edges.contains_key((a, b)),
        Direction::Incoming => edges.contains_key((b, a)),
    }
}

/// `p` is a walk of one or more nodes, each consecutive pair one step apart.
pub open spec fn is_walk(edges: Map<(u128, u128), Seq<char>>, dir: Direction, p: Seq<u128>) -> bool {
    &&& p.len() >= 1
    &&& forall|i: int| 0 <= i < p.len() - 1 ==> step(edges, dir, #[trigger] p[i], p[i + 1])
}

/// `b` can be reached from `a` in zero or more steps.
pub open spec fn reaches(edges: Map<(u128, u128), Seq<char>>, dir: Direction, a: u128, b: u128) -> bool {
    exists|p: Seq<u128>| #[trigger] is_walk(edges, dir, p) && p[0] == a && p.last() == b
}

/// The graph holds a cycle: a walk of at least one edge that returns to its start.
pub open spec fn has_cycle(edges: Map<(u128, u128), Seq<char>>) -> bool {
    exists|p: Seq<u128>|
        #[trigger] is_walk(edges, Direction::Outgoing, p) && p.len() >= 2 && p[0] == p.last()
}

/// `n` lies on a cycle: a walk of at least one edge from `n` back to `n`.
pub open spec fn on_cycle(edges: Map<(u128, u128), Seq<char>>, n: u128) -> bool {
    exists|p: Seq<u128>|
        #[trigger] is_walk(edges, Direction::Outgoing, p) && p.len() >= 2 && p[0] == n && p.last() == n
}

/// Relies on `GraphMap::new`: a graph with no nodes and no edges.
#[verifier::external_body]
pub(crate) fn graph_new() -> (r: EdgeGraph)
    ensures
        graph_nodes(r).is_empty(),
        graph_edges(r).dom().is_empty(),
{
    DiGraphMap::new()
}

/// Relies on `GraphMap::add_node`: adds the node if it is absent; edges are kept.
#[verifier::external_body]
pub(crate) fn graph_add_node(g: &mut EdgeGraph, n: u128)
    ensures
        graph_nodes(*final(g)) == graph_nodes(*old(g)).insert(n),
        graph_edges(*final(g)) == graph_edges(*old(g)),
{
    g.add_node(n);
}

/// Relies on `GraphMap::add_edge`: adds both end nodes if absent and sets the
/// edge's weight, returning the weight it replaced.
#[verifier::external_body]
pub(crate) fn graph_add_edge(g: &mut EdgeGraph, a: u128, b: u128, w: String) -> (r: Option<String>)
    ensures
        graph_nodes(*final(g)) == graph_nodes(*old(g)).insert(a).insert(b),
        graph_edges(*final(g)) == graph_edges(*old(g)).insert((a, b), w@),
        r is Some <==> graph_edges(*old(g)).contains_key((a, b)),
        r matches Some(v) ==> v@ == graph_edges(*old(g))[(a, b)],
{
    g.add_edge(a, b, w)
}

/// Relies on `GraphMap::remove_edge`: removes the edge, returning its weight;
/// nodes are kept.
#[verifier::external_body]
pub(crate) fn graph_remove_edge(g: &mut EdgeGraph, a: u128, b: u128) -> (r: Option<String>)
    ensures
        graph_nodes(*final(g)) == graph_nodes(*old(g)),
        graph_edges(*final(g)) == graph_edges(*old(g)).remove((a, b)),
        r is Some <==> graph_edges(*old(g)).contains_key((a, b)),
        r matches Some(v) ==> v@ == graph_edges(*old(g))[(a, b)],
{
    g.remove_edge(a, b)
}

/// Relies on `GraphMap::edges_directed`: the nodes one step from `n` in
/// direction `dir`, each with the weight of the edge between them, each once.
#[verifier::external_body]
pub(crate) fn graph_edges_directed(g: &EdgeGraph, n: u128, dir: Direction) -> (r: Vec<(u128, String)>)
    ensures
        forall|i: int|
            0 <= i < r@.len() ==> step(graph_edges(*g), dir, n, (#[trigger] r@[i]).0) && r@[i].1@
                == match dir {
                Direction::Outgoing => graph_edges(*g)[(n, r@[i].0)],
                Direction::Incoming => graph_edges(*g)[(r@[i].0, n)],
            },
        forall|m: u128|
            step(graph_edges(*g), dir, n, m) ==> exists|i: int| 0 <= i < r@.len() && (#[trigger] r@[i]).0 == m,
        forall|i: int, j: int| 0 <= i < j < r@.len() ==> (#[trigger] r@[i]).0 != (#[trigger] r@[j]).0,
{
    match dir {
        Direction::Outgoing => g.edges_directed(n, petgraph::Direction::Outgoing).map(
            |(_, b, w)| (b, w.clone()),
        ).collect(),
        Direction::Incoming => g.edges_directed(n, petgraph::Direction::Incoming).map(
            |(a, _, w)| (a, w.clone()),
        ).collect(),
    }
}

/// Relies on `petgraph::algo::has_path_connecting`: whether `to` can be
/// reached from `from` by following edges (a node always reaches itself).
#[verifier::external_body]
pub(crate) fn graph_has_path(g: &EdgeGraph, from: u128, to: u128) -> (r: bool)
    ensures
        r == reaches(graph_edges(*g), Direction::Outgoing, from, to),
{
    petgraph::algo::has_path_connecting(g, from, to, None)
}

/// Relies on `petgraph::algo::toposort`: on an acyclic graph every node once,
/// each before the nodes its edges point at; an error carrying a node that
/// participates in a cycle when the graph holds one.
#[verifier::external_body]
pub(crate) fn graph_toposort(g: &EdgeGraph) -> (r: Result<Vec<u128>, u128>)
    ensures
        r is Ok <==> !has_cycle(graph_edges(*g)),
        r matches Ok(v) ==> v@.no_duplicates() && v@.to_set() == graph_nodes(*g) && forall|
            i: int,
            j: int,
        |
            0 <= i < v@.len() && 0 <= j < v@.len() && #[trigger] graph_edges(*g).contains_key(
                (v@[i], v@[j]),
            ) ==> i < j,
        r matches Err(n) ==> graph_nodes(*g).contains(n) && on_cycle(graph_edges(*g), n),
{
    petgraph::algo::toposort(g, None).map_err(|c| c.node_id())
}

/// Relies on `petgraph::algo::kosaraju_scc`: the strongly connected
/// components; every node lies in exactly one, and two nodes share one
/// exactly when each reaches the other.
#[verifier::external_body]
pub(crate) fn graph_sccs(g: &EdgeGraph) -> (r: Vec<Vec<u128>>)
    ensures
        forall|i: int, x: u128|
            0 <= i < r@.len() && #[trigger] r@[i]@.contains(x) ==> graph_nodes(*g).contains(x),
        forall|i: int, x: u128, y: u128|
            0 <= i < r@.len() && #[trigger] r@[i]@.contains(x) && #[trigger] r@[i]@.contains(y)
                ==> reaches(
                graph_edges(*g),
                Direction::Outgoing,
                x,
                y,
            ),
        forall|x: u128, y: u128|
            graph_nodes(*g).contains(x) && graph_nodes(*g).contains(y) && #[trigger] reaches(
                graph_edges(*g),
                Direction::Outgoing,
                x,
                y,
            ) && #[trigger] reaches(graph_edges(*g), Direction::Outgoing, y, x) ==> exists|i: int|
                0 <= i < r@.len() && (#[trigger] r@[i])@.contains(x) && r@[i]@.contains(y),
{
    petgraph::algo::kosaraju_scc(g)
}

} // verus!
