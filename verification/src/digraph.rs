//! The petgraph directed graph that holds the crates, and the contracts of the
//! petgraph functions that the library calls.
use vstd::prelude::*;
use petgraph::graph::{DiGraph, Graph, NodeIndex};
use petgraph::algo::toposort;
use crate::manifest::CrateNode;
use crate::model::{is_topo_order, on_cycle, out_nbrs, in_nbrs};

verus! {

#[verifier::external_type_specification]
#[verifier::external_body]
#[verifier::reject_recursive_types(N)]
#[verifier::reject_recursive_types(E)]
#[verifier::reject_recursive_types(Ty)]
#[verifier::reject_recursive_types(Ix)]
pub struct ExGraph<N, E, Ty, Ix>(Graph<N, E, Ty, Ix>);

#[verifier::external_type_specification]
#[verifier::external_body]
pub struct ExDirected(petgraph::Directed);

/// The direction in which neighbours are listed.
#[derive(Clone, Copy, PartialEq, Eq, Debug)]
pub enum Dir {
    /// Targets of the edges that leave the node.
    Outgoing,
    /// Sources of the edges that enter the node.
    Incoming,
}

/// The node weights of a petgraph graph, by node index.
pub uninterp spec fn graph_nodes(g: DiGraph<CrateNode, ()>) -> Seq<CrateNode>;

/// The edges of a petgraph graph as (source, target) pairs, in order of addition.
pub uninterp spec fn graph_edges(g: DiGraph<CrateNode, ()>) -> Seq<(int, int)>;

/// What petgraph's `toposort` returns for a graph with `node_count` nodes and
/// these edges, in order of addition: the order of the nodes, or a node on a cycle.
pub uninterp spec fn toposort_result(node_count: nat, edges: Seq<(int, int)>) -> Result<
    Seq<usize>,
    usize,
>;

/// `Graph::new`: a graph with no nodes and no edges.
#[verifier::external_body]
pub(crate) fn graph_new() -> (g: DiGraph<CrateNode, ()>)
    ensures
        graph_nodes(g) == Seq::<CrateNode>::empty(),
        graph_edges(g) == Seq::<(int, int)>::empty(),
{
    DiGraph::new()
}

/// `Graph::add_node`: appends a node, whose index is the old node count.
/// It panics when the count reaches `u32::MAX`, which `requires` rules out.
#[verifier::external_body]
pub(crate) fn graph_add_node(g: &mut DiGraph<CrateNode, ()>, weight: CrateNode) -> (idx: usize)
    requires
        graph_nodes(*old(g)).len() < u32::MAX,
    ensures
        graph_nodes(*final(g)) == graph_nodes(*old(g)).push(weight),
        graph_edges(*final(g)) == graph_edges(*old(g)),
        idx == graph_nodes(*old(g)).len(),
{
    g.add_node(weight).index()
}

/// `Graph::add_edge`: appends the edge `a -> b`; parallel edges are kept.
/// It panics on a missing node or when the edge count reaches `u32::MAX`.
#[verifier::external_body]
pub(crate) fn graph_add_edge(g: &mut DiGraph<CrateNode, ()>, a: usize, b: usize)
    requires
        a < graph_nodes(*old(g)).len(),
        b < graph_nodes(*old(g)).len(),
        graph_edges(*old(g)).len() < u32::MAX,
    ensures
        graph_nodes(*final(g)) == graph_nodes(*old(g)),
        graph_edges(*final(g)) == graph_edges(*old(g)).push((a as int, b as int)),
{
    g.add_edge(NodeIndex::new(a), NodeIndex::new(b), ());
}

/// `Graph::node_count`.
#[verifier::external_body]
pub(crate) fn graph_node_count(g: &DiGraph<CrateNode, ()>) -> (n: usize)
    ensures
        n == graph_nodes(*g).len(),
{
    g.node_count()
}

/// `Graph::edge_count`.
#[verifier::external_body]
pub(crate) fn graph_edge_count(g: &DiGraph<CrateNode, ()>) -> (m: usize)
    ensures
        m == graph_edges(*g).len(),
{
    g.edge_count()
}

/// Indexing a graph by a node index (`Index<NodeIndex>`): the node's weight.
/// It panics on a missing node.
#[verifier::external_body]
pub(crate) fn graph_node(g: &DiGraph<CrateNode, ()>, i: usize) -> (w: &CrateNode)
    requires
        i < graph_nodes(*g).len(),
    ensures
        *w == graph_nodes(*g)[i as int],
{
    &g[NodeIndex::new(i)]
}

/// `Graph::neighbors_directed`, collected: for a directed graph, the
/// neighbours in the given direction, most recently added edge first.
#[verifier::external_body]
pub(crate) fn graph_neighbors(g: &DiGraph<CrateNode, ()>, a: usize, dir: Dir) -> (r: Vec<usize>)
    requires
        a < graph_nodes(*g).len(),
    ensures
        r@.map_values(|x: usize| x as int) == match dir {
            Dir::Outgoing => out_nbrs(graph_edges(*g), a as int),
            Dir::Incoming => in_nbrs(graph_edges(*g), a as int),
        },
{
    let d = match dir {
        Dir::Outgoing => petgraph::Direction::Outgoing,
        Dir::Incoming => petgraph::Direction::Incoming,
    };
    g.neighbors_directed(NodeIndex::new(a), d).map(|x| x.index()).collect()
}

/// `petgraph::algo::toposort` with no workspace. Its documentation: on an
/// acyclic graph the result lists the nodes in topological order (each node
/// before its successors); otherwise it is a `Cycle` whose node participates in
/// a cycle. Which order, and which node of which cycle, is named, not stated.
#[verifier::external_body]
pub(crate) fn graph_toposort(g: &DiGraph<CrateNode, ()>) -> (r: Result<Vec<usize>, usize>)
    ensures
        match r {
            Ok(order) => toposort_result(graph_nodes(*g).len(), graph_edges(*g)) == Ok::<
                Seq<usize>,
                usize,
            >(order@),
            Err(c) => toposort_result(graph_nodes(*g).len(), graph_edges(*g)) == Err::<
                Seq<usize>,
                usize,
            >(c),
        },
        match r {
            Ok(order) => is_topo_order(
                graph_nodes(*g).len() as int,
                graph_edges(*g),
                order@.map_values(|x: usize| x as int),
            ),
            Err(c) => c < graph_nodes(*g).len() && on_cycle(graph_edges(*g), c as int),
        },
{
    match toposort(g, None) {
        Ok(order) => Ok(order.into_iter().map(|x| x.index()).collect()),
        Err(cycle) => Err(cycle.node_id().index()),
    }
}

} // verus!
