use std::collections::hash_map::DefaultHasher;
use std::hash::{Hash, Hasher};

use folding_1d::model::cycle::CycleFinder;
use folding_1d::model::{Model, NodeKind, NodeWeight};

fn on(kind: NodeKind, inputs: &[bool]) -> bool {
    kind.update(inputs.to_vec().into_iter()).state()
}

#[test]
fn state_reads_the_flag_of_every_gate() {
    assert!(NodeKind::And(true).state());
    assert!(!NodeKind::And(false).state());
    assert!(NodeKind::Or(true).state());
    assert!(!NodeKind::Or(false).state());
    assert!(NodeKind::Nor(true).state());
    assert!(!NodeKind::Nor(false).state());
}

#[test]
fn an_and_gate_needs_inputs_and_all_of_them_on() {
    assert!(on(NodeKind::And(false), &[true, true, true]));
    assert!(!on(NodeKind::And(true), &[true, false, true]));
    assert!(!on(NodeKind::And(true), &[]));
    assert!(on(NodeKind::And(false), &[true]));
}

#[test]
fn an_or_gate_needs_one_input_on() {
    assert!(on(NodeKind::Or(false), &[false, true, false]));
    assert!(!on(NodeKind::Or(true), &[false, false]));
    assert!(!on(NodeKind::Or(true), &[]));
}

#[test]
fn a_nor_gate_needs_every_input_off() {
    assert!(!on(NodeKind::Nor(false), &[false, true, false]));
    assert!(on(NodeKind::Nor(false), &[false, false]));
    assert!(on(NodeKind::Nor(false), &[]));
}

#[test]
fn update_keeps_the_gate() {
    assert!(matches!(NodeKind::And(false).update([true].into_iter()), NodeKind::And(true)));
    assert!(matches!(NodeKind::Or(true).update([false].into_iter()), NodeKind::Or(false)));
    assert!(matches!(NodeKind::Nor(true).update([true].into_iter()), NodeKind::Nor(false)));
}

fn feed(values: &[u64]) -> Vec<Option<std::ops::Range<usize>>> {
    let mut finder = CycleFinder::new();
    let mut seen: Vec<u64> = Vec::new();
    let mut found = Vec::new();
    for &value in values {
        seen.push(value);
        found.push(finder.check_next(seen.as_slice(), value));
    }
    found
}

#[test]
fn a_fixed_point_is_a_cycle_of_length_one() {
    assert_eq!(feed(&[7, 7]), vec![None, Some(0..1)]);
}

#[test]
fn a_cycle_is_found_once_the_hare_meets_the_tortoise() {
    // 1 2 3 then 4 5 6 round and round.
    let found = feed(&[1, 2, 3, 4, 5, 6, 4]);
    assert_eq!(found[..6], vec![None; 6][..]);
    assert_eq!(found[6], Some(3..6));
}

#[test]
fn no_cycle_is_reported_while_all_values_differ() {
    assert_eq!(feed(&[1, 2, 3, 4, 5, 6, 7, 8, 9]), vec![None; 9]);
}

#[test]
fn a_cycle_from_the_start_begins_at_zero() {
    let found = feed(&[1, 2, 1, 2]);
    assert_eq!(found, vec![None, None, None, Some(0..2)]);
}

#[test]
fn a_finder_fed_on_after_a_cycle_keeps_counting() {
    let found = feed(&[1, 2, 1, 2, 1, 2]);
    assert_eq!(found, vec![None, None, None, Some(0..2), None, Some(0..4)]);
}

#[test]
fn the_cycle_start_stops_where_the_values_run_out() {
    // The tortoise rests on the first 5; the collection handed in is shorter
    // than the lag, so nothing can be compared.
    let mut finder = CycleFinder::new();
    assert_eq!(finder.check_next(&[], 5u64), None);
    assert_eq!(finder.check_next(&[], 5u64), Some(0..1));
}

fn network(kinds: &[NodeKind], edges: &[(u32, u32)]) -> Model {
    let mut model = Model::new();
    for &kind in kinds {
        model.graph.add_node(NodeWeight { kind });
    }
    for &(from, to) in edges {
        model.graph.add_edge(from.into(), to.into(), ());
    }
    model
}

fn states(model: &Model) -> Vec<bool> {
    model.graph.node_weights().map(|weight| weight.kind.state()).collect()
}

#[test]
fn a_new_model_is_empty() {
    let model = Model::new();
    assert_eq!(model.timestep, 0);
    assert!(model.state_hashes.is_empty());
    assert_eq!(model.graph.node_count(), 0);
    assert_eq!(model.graph.edge_count(), 0);
    assert_eq!(model.active_count(), 0);
}

#[test]
fn a_step_updates_every_node_from_the_states_before_it() {
    // 0 -> 1 -> 2 -> 0, all or-gates, only node 0 on: the light moves round.
    let kinds = [NodeKind::Or(true), NodeKind::Or(false), NodeKind::Or(false)];
    let mut model = network(&kinds, &[(0, 1), (1, 2), (2, 0)]);
    model.step();
    assert_eq!(states(&model), vec![false, true, false]);
    model.step();
    assert_eq!(states(&model), vec![false, false, true]);
    model.step();
    assert_eq!(states(&model), vec![true, false, false]);
    assert_eq!(model.timestep, 3);
}

#[test]
fn a_step_follows_the_gate_of_each_node() {
    // Nodes 0 and 1 feed the and-gate 2, the or-gate 3 and the nor-gate 4.
    let kinds = [
        NodeKind::Or(true),
        NodeKind::Or(false),
        NodeKind::And(true),
        NodeKind::Or(false),
        NodeKind::Nor(true),
    ];
    let edges = [(0, 2), (1, 2), (0, 3), (1, 3), (0, 4), (1, 4)];
    let mut model = network(&kinds, &edges);
    model.step();
    // Nodes 0 and 1 have no inputs: the or-gates go off.
    assert_eq!(states(&model), vec![false, false, false, true, false]);
    assert!(matches!(model.graph[petgraph::graph::NodeIndex::new(2)].kind, NodeKind::And(false)));
    assert!(matches!(model.graph[petgraph::graph::NodeIndex::new(4)].kind, NodeKind::Nor(false)));
    model.step();
    assert_eq!(states(&model), vec![false, false, false, false, true]);
}

#[test]
fn a_step_leaves_the_wiring_alone() {
    let kinds = [NodeKind::Nor(false), NodeKind::And(true)];
    let mut model = network(&kinds, &[(0, 1), (1, 0), (0, 0)]);
    model.step();
    assert_eq!(model.graph.node_count(), 2);
    assert_eq!(model.graph.edge_count(), 3);
    let into_first: Vec<usize> = model
        .graph
        .neighbors_directed(0.into(), petgraph::Direction::Incoming)
        .map(|node| node.index())
        .collect();
    assert_eq!(into_first, vec![0, 1]);
}

#[test]
fn the_first_step_records_two_hashes_and_later_steps_one() {
    let kinds = [NodeKind::Nor(false)];
    let mut model = network(&kinds, &[(0, 0)]);
    let first = model.step();
    assert_eq!(model.state_hashes.len(), 2);
    assert_eq!(model.state_hashes[1], first);
    let second = model.step();
    assert_eq!(model.state_hashes.len(), 3);
    assert_eq!(model.state_hashes[2], second);
    // A nor-gate wired to itself flips for ever: off, on, off.
    assert_eq!(model.state_hashes[0], model.state_hashes[2]);
    assert_ne!(model.state_hashes[0], model.state_hashes[1]);
}

#[test]
fn the_hash_is_that_of_the_node_weights_in_order() {
    let kinds = [NodeKind::Or(true), NodeKind::And(false)];
    let mut model = network(&kinds, &[(0, 1)]);
    let hash = model.step();
    let mut hasher = DefaultHasher::new();
    NodeWeight { kind: NodeKind::Or(false) }.hash(&mut hasher);
    NodeWeight { kind: NodeKind::And(true) }.hash(&mut hasher);
    assert_eq!(hash, hasher.finish());
    let mut hasher = DefaultHasher::new();
    NodeKind::Or(true).hash(&mut hasher);
    NodeKind::And(false).hash(&mut hasher);
    assert_eq!(model.state_hashes[0], hasher.finish());
}

#[test]
fn a_blinking_network_is_found_to_cycle() {
    let kinds = [NodeKind::Nor(false)];
    let mut model = network(&kinds, &[(0, 0)]);
    let mut finder = CycleFinder::new();
    let mut found = None;
    while found.is_none() {
        let hash = model.step();
        found = finder.check_next(model.state_hashes.as_slice(), hash);
    }
    assert_eq!(found, Some(0..2));
}

#[test]
fn active_count_counts_the_nodes_that_are_on() {
    let kinds = [
        NodeKind::Or(true),
        NodeKind::And(false),
        NodeKind::Nor(true),
        NodeKind::And(true),
    ];
    let model = network(&kinds, &[]);
    assert_eq!(model.active_count(), 3);
}

#[test]
fn a_clone_runs_on_its_own() {
    let kinds = [NodeKind::Nor(false)];
    let mut model = network(&kinds, &[(0, 0)]);
    let copy = model.clone();
    model.step();
    assert_eq!(states(&model), vec![true]);
    assert_eq!(states(&copy), vec![false]);
    assert_eq!(copy.timestep, 0);
    assert!(copy.state_hashes.is_empty());
    assert_eq!(copy.graph.edge_count(), 1);
}

#[test]
fn a_fresh_finder_has_room() {
    let mut finder = CycleFinder::new();
    assert!(finder.has_room());
    assert_eq!(finder.check_next(&[1u8], 1u8), None);
    assert!(finder.has_room());
}
