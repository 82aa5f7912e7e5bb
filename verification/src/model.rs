//! A Boolean network: nodes that switch on and off by the states of the
//! nodes wired into them.

pub mod cycle;
pub mod graph;

use std::collections::hash_map::DefaultHasher;
use std::hash::Hasher;
use petgraph::graph::DiGraph;
use vstd::prelude::*;
use vstd::std_specs::hash::DefaultHasherAdditionalSpecFns;
use vstd::std_specs::iter::IteratorSpec;
use crate::model::graph::{
    graph_clone, graph_incoming, graph_new, graph_node_count, graph_node_kind, graph_set_weight,
    hash_weight, hash_writes, node_inputs, node_weights,
};

verus! {

/// A node of the network: its gate, and whether it is on.
#[derive(Debug, Clone, Copy, Hash)]
pub enum NodeKind {
    And(bool),
    Or(bool),
    Nor(bool),
}

/// Whether any of the inputs is on.
pub open spec fn any_on(inputs: Seq<bool>) -> bool {
    exists|i: int| 0 <= i < inputs.len() && inputs[i]
}

/// Whether all of the inputs are on.
pub open spec fn all_on(inputs: Seq<bool>) -> bool {
    forall|i: int| 0 <= i < inputs.len() ==> inputs[i]
}

impl NodeKind {
    /// Whether the node is on.
    pub open spec fn is_on(self) -> bool {
        match self {
            NodeKind::And(state) => state,
            NodeKind::Or(state) => state,
            NodeKind::Nor(state) => state,
        }
    }

    /// The node after one step, given the states of the nodes wired into it.
    ///
    /// An and-gate is on where it has inputs and all of them are on, an
    /// or-gate where some input is on, a nor-gate where none is.
    pub open spec fn updated(self, inputs: Seq<bool>) -> NodeKind {
        match self {
            NodeKind::And(_) => NodeKind::And(inputs.len() > 0 && all_on(inputs)),
            NodeKind::Or(_) => NodeKind::Or(any_on(inputs)),
            NodeKind::Nor(_) => NodeKind::Nor(!any_on(inputs)),
        }
    }

    /// Whether the node is on.
    pub fn state(&self) -> (on: bool)
        ensures
            on == self.is_on(),
    {
        match self {
            NodeKind::And(state) => *state,
            NodeKind::Or(state) => *state,
            NodeKind::Nor(state) => *state,
        }
    }

    /// The node after one step, given the states of the nodes wired into it:
    /// the same gate, switched on or off.
    ///
    /// `inputs` must be an iterator that yields its values and then ends.
    pub fn update(&self, inputs: impl Iterator<Item = bool>) -> (next: Self)
        requires
            inputs.obeys_prophetic_iter_laws(),
            inputs.decrease() is Some,
        ensures
            next == self.updated(inputs.remaining()),
    {
        let ghost all_inputs = inputs.remaining();
        let ghost mut seen: Seq<bool> = Seq::empty();
        let mut inputs = inputs;
        let mut fed = false;
        let mut any = false;
        let mut all = true;
        loop
            invariant_except_break
                inputs.obeys_prophetic_iter_laws(),
                inputs.decrease() is Some,
                seen + inputs.remaining() == all_inputs,
                fed == (seen.len() > 0),
                any == any_on(seen),
                all == all_on(seen),
            ensures
                fed == (all_inputs.len() > 0),
                any == any_on(all_inputs),
                all == all_on(all_inputs),
            decreases inputs.decrease()->0,
        {
            let ghost before = inputs.remaining();
            match inputs.next() {
                Some(input) => {
                    proof {
                        let grown = seen.push(input);
                        assert(grown + inputs.remaining() =~= seen + before);
                        assert forall|i: int| 0 <= i < seen.len() implies grown[i] == seen[i] by {}
                        if any_on(seen) {
                            let w = choose|i: int| 0 <= i < seen.len() && seen[i];
                            assert(grown[w]);
                        }
                        if any_on(grown) && !input {
                            let w = choose|i: int| 0 <= i < grown.len() && grown[i];
                            assert(seen[w]);
                        }
                        if input {
                            assert(grown[seen.len() as int]);
                        } else {
                            assert(!grown[seen.len() as int]);
                        }
                        seen = grown;
                    }
                    fed = true;
                    if input {
                        any = true;
                    } else {
                        all = false;
                    }
                },
                None => {
                    assert(seen =~= all_inputs);
                    break ;
                },
            }
        }
        match self {
            NodeKind::And(_) => NodeKind::And(fed && all),
            NodeKind::Or(_) => NodeKind::Or(any),
            NodeKind::Nor(_) => NodeKind::Nor(!any),
        }
    }
}

/// What a node of the network carries.
#[derive(Debug, Clone, Copy, Hash)]
pub struct NodeWeight {
    pub kind: NodeKind,
}

/// The states of the nodes with the given indices.
pub open spec fn states_of(weights: Seq<NodeWeight>, sources: Seq<int>) -> Seq<bool> {
    sources.map_values(|source: int| weights[source].kind.is_on())
}

/// The weights of all nodes after one step: every node is updated from the
/// states that the nodes wired into it had before the step.
pub open spec fn stepped(weights: Seq<NodeWeight>, inputs: Seq<Seq<int>>) -> Seq<NodeWeight> {
    Seq::new(
        weights.len(),
        |node: int|
            NodeWeight { kind: weights[node].kind.updated(states_of(weights, inputs[node])) },
    )
}

/// What hashing all node weights in turn writes to a hasher.
pub open spec fn all_hash_writes(weights: Seq<NodeWeight>) -> Seq<Seq<u8>>
    decreases weights.len(),
{
    if weights.len() == 0 {
        Seq::empty()
    } else {
        all_hash_writes(weights.drop_last()) + hash_writes(weights.last())
    }
}

/// The hash of the states of a network.
pub open spec fn state_hash(weights: Seq<NodeWeight>) -> u64 {
    DefaultHasher::spec_finish(all_hash_writes(weights))
}

/// How many of the nodes are on.
pub open spec fn count_on(weights: Seq<NodeWeight>) -> nat
    decreases weights.len(),
{
    if weights.len() == 0 {
        0
    } else {
        count_on(weights.drop_last()) + if weights.last().kind.is_on() {
            1nat
        } else {
            0nat
        }
    }
}

/// A Boolean network and the record of its run.
pub struct Model {
    /// How many steps the network has taken.
    pub timestep: usize,
    /// The hash of the states at the start and after every step.
    pub state_hashes: Vec<u64>,
    /// The nodes and their wiring.
    pub graph: DiGraph<NodeWeight, ()>,
}

impl Clone for Model {
    fn clone(&self) -> (copy: Self)
        ensures
            copy.timestep == self.timestep,
            copy.state_hashes@ == self.state_hashes@,
            node_weights(copy.graph) == node_weights(self.graph),
            node_inputs(copy.graph) == node_inputs(self.graph),
    {
        Self {
            timestep: self.timestep,
            state_hashes: self.state_hashes.clone(),
            graph: graph_clone(&self.graph),
        }
    }
}

impl Model {
    /// A network with no nodes that has taken no step.
    pub fn new() -> (model: Self)
        ensures
            model.timestep == 0,
            model.state_hashes@ == Seq::<u64>::empty(),
            node_weights(model.graph) == Seq::<NodeWeight>::empty(),
            node_inputs(model.graph) == Seq::<Seq<int>>::empty(),
    {
        Self { timestep: 0, state_hashes: Vec::new(), graph: graph_new() }
    }

    /// Hashes the states of all nodes, in node order, and records the hash.
    fn push_state_hash(&mut self) -> (hash: u64)
        ensures
            hash == state_hash(node_weights(old(self).graph)),
            final(self).state_hashes@ == old(self).state_hashes@.push(hash),
            final(self).timestep == old(self).timestep,
            final(self).graph == old(self).graph,
    {
        let mut hasher = DefaultHasher::new();
        let count = graph_node_count(&self.graph);
        let ghost weights = node_weights(self.graph);
        let mut node: usize = 0;
        while node < count
            invariant
                node <= count,
                count == weights.len(),
                weights == node_weights(self.graph),
                hasher@ == all_hash_writes(weights.take(node as int)),
            decreases count - node,
        {
            let weight = NodeWeight { kind: graph_node_kind(&self.graph, node) };
            hash_weight(&weight, &mut hasher);
            node += 1;
            assert(weights.take(node as int).drop_last() =~= weights.take(node - 1));
        }
        assert(weights.take(count as int) =~= weights);
        let hash = hasher.finish();
        self.state_hashes.push(hash);
        hash
    }

    /// How many of the nodes are on.
    pub fn active_count(&self) -> (count: usize)
        ensures
            count == count_on(node_weights(self.graph)),
    {
        let nodes = graph_node_count(&self.graph);
        let ghost weights = node_weights(self.graph);
        let mut count: usize = 0;
        let mut node: usize = 0;
        while node < nodes
            invariant
                node <= nodes,
                nodes == weights.len(),
                weights == node_weights(self.graph),
                count == count_on(weights.take(node as int)),
                count <= node,
            decreases nodes - node,
        {
            if graph_node_kind(&self.graph, node).state() {
                count += 1;
            }
            node += 1;
            assert(weights.take(node as int).drop_last() =~= weights.take(node - 1));
        }
        assert(weights.take(nodes as int) =~= weights);
        count
    }

    /// Moves the network on by one step and returns the hash of its new
    /// states.
    ///
    /// Every node is updated at once from the states that the nodes wired
    /// into it had before the step. The hash of the new states is recorded;
    /// before the first step the hash of the states at the start is recorded
    /// too.
    pub fn step(&mut self) -> (hash: u64)
        requires
            old(self).timestep < usize::MAX,
        ensures
            node_weights(final(self).graph) == stepped(
                node_weights(old(self).graph),
                node_inputs(old(self).graph),
            ),
            node_inputs(final(self).graph) == node_inputs(old(self).graph),
            final(self).timestep == old(self).timestep + 1,
            hash == state_hash(node_weights(final(self).graph)),
            final(self).state_hashes@ == if old(self).timestep == 0 {
                old(self).state_hashes@.push(state_hash(node_weights(old(self).graph))).push(hash)
            } else {
                old(self).state_hashes@.push(hash)
            },
    {
        if self.timestep == 0 {
            self.push_state_hash();
        }
        let ghost weights = node_weights(self.graph);
        let ghost inputs = node_inputs(self.graph);
        let count = graph_node_count(&self.graph);
        let mut new_weights: Vec<NodeWeight> = Vec::new();
        let mut node: usize = 0;
        while node < count
            invariant
                node <= count,
                count == weights.len(),
                count == inputs.len(),
                weights == node_weights(self.graph),
                inputs == node_inputs(self.graph),
                new_weights@ == stepped(weights, inputs).take(node as int),
            decreases count - node,
        {
            let sources = graph_incoming(&self.graph, node);
            let mut input_states: Vec<bool> = Vec::new();
            let mut k: usize = 0;
            while k < sources.len()
                invariant
                    k <= sources.len(),
                    weights == node_weights(self.graph),
                    sources@.len() == inputs[node as int].len(),
                    forall|j: int|
                        0 <= j < sources@.len() ==> #[trigger] sources@[j]
                            == inputs[node as int][j],
                    forall|j: int|
                        0 <= j < sources@.len() ==> #[trigger] sources@[j] < weights.len(),
                    input_states@ == states_of(weights, inputs[node as int]).take(k as int),
                decreases sources.len() - k,
            {
                input_states.push(graph_node_kind(&self.graph, sources[k]).state());
                k += 1;
                assert(input_states@ =~= states_of(weights, inputs[node as int]).take(k as int));
            }
            assert(input_states@ =~= states_of(weights, inputs[node as int]));
            proof {
                vstd::std_specs::vec::axiom_spec_into_iter(input_states);
            }
            let kind = graph_node_kind(&self.graph, node).update(input_states.into_iter());
            new_weights.push(NodeWeight { kind });
            node += 1;
            assert(new_weights@ =~= stepped(weights, inputs).take(node as int));
        }
        assert(new_weights@ =~= stepped(weights, inputs));
        let mut node: usize = 0;
        while node < count
            invariant
                node <= count,
                count == weights.len(),
                new_weights@ == stepped(weights, inputs),
                inputs == node_inputs(self.graph),
                node_weights(self.graph).len() == count,
                forall|j: int| 0 <= j < node ==> node_weights(self.graph)[j] == new_weights@[j],
                self.timestep == old(self).timestep,
                self.state_hashes@ == if old(self).timestep == 0 {
                    old(self).state_hashes@.push(state_hash(node_weights(old(self).graph)))
                } else {
                    old(self).state_hashes@
                },
            decreases count - node,
        {
            graph_set_weight(&mut self.graph, node, new_weights[node]);
            node += 1;
        }
        assert(node_weights(self.graph) =~= stepped(weights, inputs));
        self.timestep += 1;
        self.push_state_hash()
    }
}

} // verus!
