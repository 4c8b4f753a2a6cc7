use std::collections::BTreeMap;

use slap::graph::Arena;
use slap::graph::ExprId;
use slap::simulator::SimulationCtx;

/// Start -> Access(memref 0) -> Update(ivar 0) -> Branch(then back to the
/// Access, else End): the shape of a one-loop nest.
fn loop_graph() -> (Arena, usize, usize) {
    let mut arena = Arena::new();
    let end = arena.new_end();
    let acc = arena.new_access(0, ExprId(0), None);
    let upd = arena.new_update(0, ExprId(1), None);
    let br = arena.new_branch(0, ExprId(2), None, Some(end));
    let start = arena.new_start(Some(acc));
    arena.set_next(acc, Some(upd));
    arena.set_next(upd, Some(br));
    arena.set_then(br, Some(acc));
    (arena, start, acc)
}

#[test]
fn indexing_assigns_dense_indices_in_discovery_order() {
    let mut arena = Arena::new();
    let end = arena.new_end();
    let acc2 = arena.new_access(2, ExprId(0), Some(end));
    let acc1 = arena.new_access(1, ExprId(0), Some(acc2));
    let acc0 = arena.new_access(0, ExprId(0), Some(acc1));
    let start = arena.new_start(Some(acc0));
    let mut sim = SimulationCtx::new(64, vec![0x1000, 0x2000, 0x3000]);
    sim.populate_node_info(&arena, start);
    assert_eq!(sim.get_node_id(acc0), 0);
    assert_eq!(sim.get_node_id(acc1), 1);
    assert_eq!(sim.get_node_id(acc2), 2);
    assert_eq!(sim.num_indexed_nodes(), 3);
    assert!(sim.get_node_dist(start).is_none());
    assert!(sim.get_node_dist(end).is_none());
}

#[test]
fn identity_lookups_stay_stable_for_a_session() {
    let (arena, start, acc) = loop_graph();
    let mut sim = SimulationCtx::new(64, vec![0x1000]);
    sim.populate_node_info(&arena, start);
    let id = sim.get_node_id(acc);
    sim.access(id, 10);
    sim.access(id, 10);
    sim.populate_node_info(&arena, start);
    assert_eq!(sim.get_node_id(acc), id);
    sim.access(id, 10);
    assert_eq!(sim.get_node_id(acc), id);
}

#[test]
fn indexing_twice_keeps_indices_and_histograms() {
    let (arena, start, acc) = loop_graph();
    let mut sim = SimulationCtx::new(64, vec![0x1000]);
    sim.populate_node_info(&arena, start);
    let id = sim.get_node_id(acc);
    sim.access(id, 5);
    sim.access(id, 5);
    let before = sim.get_node_dist(acc).unwrap().clone();
    assert!(!before.is_empty());
    sim.populate_node_info(&arena, start);
    assert_eq!(sim.get_node_id(acc), id);
    assert_eq!(sim.get_node_dist(acc).unwrap(), &before);
}

#[test]
fn cyclic_graph_indexes_and_keeps_the_original_index() {
    let (arena, start, acc) = loop_graph();
    let mut sim = SimulationCtx::new(64, vec![0x1000]);
    sim.populate_node_info(&arena, start);
    assert_eq!(sim.get_node_id(acc), 0);
    sim.populate_node_info(&arena, start);
    assert_eq!(sim.get_node_id(acc), 0);
}

#[test]
fn first_touch_creates_no_histogram_entry() {
    let (arena, start, acc) = loop_graph();
    let mut sim = SimulationCtx::new(64, vec![0x1000]);
    sim.populate_node_info(&arena, start);
    let id = sim.get_node_id(acc);
    sim.access(id, 42);
    sim.access(id, 43);
    assert!(sim.get_node_dist(acc).unwrap().is_empty());
}

#[test]
fn intervals_count_gaps_between_touches_of_the_same_block() {
    let mut arena = Arena::new();
    let end = arena.new_end();
    let y = arena.new_access(1, ExprId(0), Some(end));
    let x = arena.new_access(0, ExprId(0), Some(y));
    let start = arena.new_start(Some(x));
    let mut sim = SimulationCtx::new(64, vec![0x1000, 0x2000]);
    sim.populate_node_info(&arena, start);
    let xi = sim.get_node_id(x);
    let yi = sim.get_node_id(y);
    // Block B is touched at node X at logical times 0, 3 and 7; the clock
    // ticks in between come from other blocks touched at node Y.
    sim.access(xi, 100); // t = 0, first touch of B
    sim.access(yi, 200); // t = 1
    sim.access(yi, 201); // t = 2
    sim.access(xi, 100); // t = 3, interval 3
    sim.access(yi, 202); // t = 4
    sim.access(yi, 203); // t = 5
    sim.access(yi, 204); // t = 6
    sim.access(xi, 100); // t = 7, interval 4
    let mut expected: BTreeMap<usize, usize> = BTreeMap::new();
    expected.insert(3, 1);
    expected.insert(4, 1);
    assert_eq!(sim.get_node_dist(x).unwrap(), &expected);
}

#[test]
fn repeated_interval_is_counted_not_rebucketed() {
    let (arena, start, acc) = loop_graph();
    let mut sim = SimulationCtx::new(64, vec![0x1000]);
    sim.populate_node_info(&arena, start);
    let id = sim.get_node_id(acc);
    sim.access(id, 9); // t = 0, first touch
    sim.access(id, 9); // t = 1, interval 1
    sim.access(id, 9); // t = 2, interval 1
    sim.access(id, 9); // t = 3, interval 1
    let mut expected: BTreeMap<usize, usize> = BTreeMap::new();
    expected.insert(1, 3);
    assert_eq!(sim.get_node_dist(acc).unwrap(), &expected);
}

#[test]
fn one_sided_branch_truncates_indexing() {
    let mut arena = Arena::new();
    let acc = arena.new_access(0, ExprId(0), None);
    let br = arena.new_branch(0, ExprId(1), Some(acc), None);
    let start = arena.new_start(Some(br));
    let mut sim = SimulationCtx::new(64, vec![0x1000]);
    sim.populate_node_info(&arena, start);
    assert!(sim.get_node_dist(acc).is_none());
    assert!(sim.get_node_dist(br).is_none());
}

#[test]
fn else_only_branch_truncates_indexing_too() {
    let mut arena = Arena::new();
    let acc = arena.new_access(0, ExprId(0), None);
    let br = arena.new_branch(0, ExprId(1), None, Some(acc));
    let start = arena.new_start(Some(br));
    let mut sim = SimulationCtx::new(64, vec![0x1000]);
    sim.populate_node_info(&arena, start);
    assert!(sim.get_node_dist(acc).is_none());
}

#[test]
fn two_sided_branch_indexes_both_arms() {
    let mut arena = Arena::new();
    let then_acc = arena.new_access(0, ExprId(0), None);
    let else_acc = arena.new_access(1, ExprId(0), None);
    let br = arena.new_branch(0, ExprId(1), Some(then_acc), Some(else_acc));
    let start = arena.new_start(Some(br));
    let mut sim = SimulationCtx::new(64, vec![0x1000, 0x2000]);
    sim.populate_node_info(&arena, start);
    assert_eq!(sim.get_node_id(then_acc), 0);
    assert_eq!(sim.get_node_id(else_acc), 1);
}

#[test]
fn end_to_end_loop_scenario() {
    let (arena, start, acc) = loop_graph();
    let mut sim = SimulationCtx::new(64, vec![0x1000]);
    sim.populate_node_info(&arena, start);
    assert_eq!(sim.get_node_id(acc), 0);
    assert_eq!(sim.num_indexed_nodes(), 1);
    assert_eq!(sim.get_logic_time(), 0);
    // Three loop iterations touching the same block at times 0, 1 and 2:
    // two reuse intervals of length 1, the first touch uncounted.
    sim.access(0, 7);
    sim.access(0, 7);
    sim.access(0, 7);
    let mut expected: BTreeMap<usize, usize> = BTreeMap::new();
    expected.insert(1, 2);
    assert_eq!(sim.get_node_dist(acc).unwrap(), &expected);
    assert_eq!(sim.get_logic_time(), 3);
}

#[test]
fn configuration_queries_are_constant_for_the_session() {
    let sim = SimulationCtx::new(128, vec![0x10, 0x20, 0x30]);
    assert_eq!(sim.get_block_size(), 128);
    assert_eq!(sim.num_memrefs(), 3);
    assert_eq!(sim.get_memref_vaddr(0), 0x10);
    assert_eq!(sim.get_memref_vaddr(2), 0x30);
}
