//! The wiring of a network, kept in petgraph's directed graph.
//!
//! Nothing in this file is proved: it states what the rest of the model
//! takes for granted of petgraph and of the standard hasher.

use std::collections::hash_map::DefaultHasher;
use std::hash::Hash;
use petgraph::graph::{DiGraph, Graph, NodeIndex};
use petgraph::{Directed, Direction};
use vstd::prelude::*;
use crate::model::{NodeKind, NodeWeight};

verus! {

/// `petgraph::graph::Graph`, carried through as it is.
#[verifier::external_type_specification]
#[verifier::external_body]
#[verifier::reject_recursive_types(N)]
#[verifier::reject_recursive_types(E)]
#[verifier::reject_recursive_types(Ty)]
#[verifier::reject_recursive_types(Ix)]
pub struct ExGraph<N, E, Ty, Ix>(Graph<N, E, Ty, Ix>);

/// `petgraph::Directed`, the marker of graphs whose edges have a direction.
#[verifier::external_type_specification]
#[verifier::external_body]
pub struct ExDirected(Directed);

/// The weights of the nodes of a graph, by node index.
pub uninterp spec fn node_weights(graph: DiGraph<NodeWeight, ()>) -> Seq<NodeWeight>;

/// For each node of a graph, by node index, the indices of the nodes that
/// the edges into it come from; of the edges into one node the one added
/// last stands first.
pub uninterp spec fn node_inputs(graph: DiGraph<NodeWeight, ()>) -> Seq<Seq<int>>;

/// What hashing a node weight writes to a hasher, write by write.
pub uninterp spec fn hash_writes(weight: NodeWeight) -> Seq<Seq<u8>>;

/// An empty graph, from `Graph::default`: it has no nodes and no edges.
#[verifier::external_body]
pub(crate) fn graph_new() -> (graph: DiGraph<NodeWeight, ()>)
    ensures
        node_weights(graph) == Seq::<NodeWeight>::empty(),
        node_inputs(graph) == Seq::<Seq<int>>::empty(),
{
    DiGraph::default()
}

/// A copy of the graph, from `Graph`'s `Clone`: the copy has the same nodes
/// under the same indices, and the same edges.
#[verifier::external_body]
pub(crate) fn graph_clone(graph: &DiGraph<NodeWeight, ()>) -> (copy: DiGraph<NodeWeight, ()>)
    ensures
        node_weights(copy) == node_weights(*graph),
        node_inputs(copy) == node_inputs(*graph),
{
    graph.clone()
}

/// The number of nodes, from `Graph::node_count`. Every node has a weight
/// and a list of inputs, so both sequences have this length.
#[verifier::external_body]
pub(crate) fn graph_node_count(graph: &DiGraph<NodeWeight, ()>) -> (count: usize)
    ensures
        count == node_weights(*graph).len(),
        count == node_inputs(*graph).len(),
{
    graph.node_count()
}

/// The kind of the node at index `node`, read through `Graph`'s `Index` by
/// `NodeIndex`, which panics where there is no such node.
#[verifier::external_body]
pub(crate) fn graph_node_kind(graph: &DiGraph<NodeWeight, ()>, node: usize) -> (kind: NodeKind)
    requires
        node < node_weights(*graph).len(),
    ensures
        kind == node_weights(*graph)[node as int].kind,
{
    graph[NodeIndex::new(node)].kind
}

/// The nodes that the edges into `node` come from, as
/// `Graph::neighbors_directed` with `Direction::Incoming` walks them: one
/// for each edge, the edge added last first. Edges join nodes of the graph
/// only, so each of them is the index of a node.
#[verifier::external_body]
pub(crate) fn graph_incoming(graph: &DiGraph<NodeWeight, ()>, node: usize) -> (sources: Vec<usize>)
    requires
        node < node_weights(*graph).len(),
    ensures
        sources@.len() == node_inputs(*graph)[node as int].len(),
        forall|k: int|
            0 <= k < sources@.len() ==> #[trigger] sources@[k] == node_inputs(
                *graph,
            )[node as int][k],
        forall|k: int|
            0 <= k < sources@.len() ==> #[trigger] sources@[k] < node_weights(*graph).len(),
{
    graph.neighbors_directed(NodeIndex::new(node), Direction::Incoming)
        .map(|source| source.index())
        .collect()
}

/// Replaces the weight of the node at index `node`, written through
/// `Graph`'s `IndexMut` by `NodeIndex`, which panics where there is no such
/// node. No other weight and no edge changes.
#[verifier::external_body]
pub(crate) fn graph_set_weight(graph: &mut DiGraph<NodeWeight, ()>, node: usize, weight: NodeWeight)
    requires
        node < node_weights(*old(graph)).len(),
    ensures
        node_weights(*final(graph)) == node_weights(*old(graph)).update(node as int, weight),
        node_inputs(*final(graph)) == node_inputs(*old(graph)),
{
    graph[NodeIndex::new(node)] = weight;
}

/// Feeds a node weight to the hasher with the `Hash::hash` that `derive`
/// wrote for it. What is written depends on the weight alone.
#[verifier::external_body]
pub(crate) fn hash_weight(weight: &NodeWeight, hasher: &mut DefaultHasher)
    ensures
        final(hasher)@ == old(hasher)@ + hash_writes(*weight),
{
    weight.hash(hasher)
}

} // verus!
