use mcmf::{FlowGraph, F, FINF, MCMF, W};

fn small_graph() -> FlowGraph {
    let mut graph = FlowGraph::new(6);
    graph.add_arc(0, 1, 10, 2 as W);
    graph.add_arc(0, 2, 10, 4 as W);
    graph.add_arc(1, 2, 2, 1 as W);
    graph.add_arc(1, 3, 4, 2 as W);
    graph.add_arc(1, 4, 8, 4 as W);
    graph.add_arc(2, 4, 9, 1 as W);
    graph.add_arc(3, 5, 10, 3 as W);
    graph.add_arc(3, 4, 6, 2 as W);
    graph.add_arc(4, 5, 10, 2 as W);
    graph
}

#[test]
fn small_network_flow_and_cost() {
    let mut graph = small_graph();
    let (max_flow, min_cost) = MCMF::new(&mut graph, 0, 5).run();
    assert_eq!(max_flow, 14);
    assert_eq!(min_cost, 97);
}

#[test]
fn second_run_finds_nothing_more() {
    let mut graph = small_graph();
    let first = MCMF::new(&mut graph, 0, 5).run();
    assert_eq!(first, (14, 97));
    // The flow left in the graph is maximal: a new run adds nothing.
    let second = MCMF::new(&mut graph, 0, 5).run();
    assert_eq!(second, (0, 0));
}

#[test]
fn single_arc() {
    let mut graph = FlowGraph::new(2);
    graph.add_arc(0, 1, 7, 3);
    assert_eq!(MCMF::new(&mut graph, 0, 1).run(), (7, 21));
}

#[test]
fn arc_runs_one_way_only() {
    let mut graph = FlowGraph::new(2);
    graph.add_arc(0, 1, 7, 3);
    assert_eq!(MCMF::new(&mut graph, 1, 0).run(), (0, 0));
}

#[test]
fn undirected_edge_runs_both_ways() {
    let mut graph = FlowGraph::new(2);
    graph.add_edge(0, 1, 7, 3);
    assert_eq!(MCMF::new(&mut graph, 1, 0).run(), (7, 21));
    let mut graph = FlowGraph::new(2);
    graph.add_edge(0, 1, 7, 3);
    assert_eq!(MCMF::new(&mut graph, 0, 1).run(), (7, 21));
}

#[test]
fn undirected_tree() {
    let mut graph = FlowGraph::new(4);
    graph.add_edge(0, 1, 5, 1);
    graph.add_edge(1, 2, 3, 2);
    graph.add_edge(1, 3, 4, 1);
    assert_eq!(MCMF::new(&mut graph, 0, 2).run(), (3, 9));
    let mut graph = FlowGraph::new(4);
    graph.add_edge(0, 1, 5, 1);
    graph.add_edge(1, 2, 3, 2);
    graph.add_edge(1, 3, 4, 1);
    assert_eq!(MCMF::new(&mut graph, 3, 0).run(), (4, 8));
}

#[test]
fn negative_cost_arc() {
    let mut graph = FlowGraph::new(3);
    graph.add_arc(0, 1, 5, -2);
    graph.add_arc(1, 2, 3, 4);
    assert_eq!(MCMF::new(&mut graph, 0, 2).run(), (3, 6));
}

#[test]
fn cheaper_longer_path_is_preferred() {
    // 0 -> 2 directly costs 10 per unit; 0 -> 1 -> 2 costs 2 per unit.
    let mut graph = FlowGraph::new(3);
    graph.add_arc(0, 2, 4, 10);
    graph.add_arc(0, 1, 3, 1);
    graph.add_arc(1, 2, 3, 1);
    assert_eq!(MCMF::new(&mut graph, 0, 2).run(), (7, 46));
}

#[test]
fn target_unreachable() {
    let mut graph = FlowGraph::new(4);
    graph.add_arc(0, 1, 5, 1);
    graph.add_arc(2, 3, 5, 1);
    assert_eq!(MCMF::new(&mut graph, 0, 3).run(), (0, 0));
}

#[test]
fn source_is_target() {
    let mut graph = small_graph();
    assert_eq!(MCMF::new(&mut graph, 2, 2).run(), (0, 0));
}

#[test]
fn zero_capacity_carries_nothing() {
    let mut graph = FlowGraph::new(2);
    graph.add_arc(0, 1, 0, 1);
    assert_eq!(MCMF::new(&mut graph, 0, 1).run(), (0, 0));
}

#[test]
fn parallel_arcs_cheapest_first() {
    let mut graph = FlowGraph::new(2);
    graph.add_arc(0, 1, 2, 5);
    graph.add_arc(0, 1, 3, 1);
    assert_eq!(MCMF::new(&mut graph, 0, 1).run(), (5, 13));
}

#[test]
fn large_capacity_bottleneck() {
    let mut graph = FlowGraph::new(3);
    graph.add_arc(0, 1, FINF, 1);
    graph.add_arc(1, 2, 1_000_000_000_000, 1);
    let (f, c) = MCMF::new(&mut graph, 0, 2).run();
    let expect: F = 1_000_000_000_000;
    assert_eq!(f, expect);
    assert_eq!(c, 2 * expect as i128);
}

#[test]
fn empty_graph_single_node() {
    let mut graph = FlowGraph::new(1);
    assert_eq!(MCMF::new(&mut graph, 0, 0).run(), (0, 0));
}

#[test]
fn loop_arc_carries_nothing() {
    let mut graph = FlowGraph::new(2);
    graph.add_arc(0, 0, 5, 3);
    graph.add_arc(0, 1, 4, 2);
    assert_eq!(MCMF::new(&mut graph, 0, 1).run(), (4, 8));
}

#[test]
fn cheap_detour_beats_direct_arc() {
    // s = 0, a = 1, b = 2, c = 3, t = 4
    let mut graph = FlowGraph::new(5);
    graph.add_arc(0, 1, 1, 0);
    graph.add_arc(1, 2, 1, 10);
    graph.add_arc(1, 3, 1, 0);
    graph.add_arc(3, 2, 1, 0);
    graph.add_arc(2, 4, 1, 0);
    assert_eq!(MCMF::new(&mut graph, 0, 4).run(), (1, 0));
    // A fresh run on the result finds nothing more.
    assert_eq!(MCMF::new(&mut graph, 0, 4).run(), (0, 0));
}

#[test]
fn huge_arc_capacities_out_of_the_source() {
    let mut graph = FlowGraph::new(4);
    graph.add_arc(0, 1, F::MAX, 1);
    graph.add_arc(0, 2, F::MAX, 2);
    graph.add_arc(1, 3, 1, 1);
    graph.add_arc(2, 3, 1, 1);
    assert_eq!(MCMF::new(&mut graph, 0, 3).run(), (2, 5));
}

#[test]
fn source_is_target_with_huge_capacities() {
    let mut graph = FlowGraph::new(2);
    graph.add_arc(0, 1, F::MAX, 1);
    graph.add_arc(0, 1, F::MAX, 1);
    assert_eq!(MCMF::new(&mut graph, 0, 0).run(), (0, 0));
}

#[test]
fn second_run_on_the_same_solver_finds_nothing() {
    let mut graph = small_graph();
    let mut m = MCMF::new(&mut graph, 0, 5);
    assert_eq!(m.run(), (14, 97));
    assert_eq!(m.run(), (0, 0));
}

#[test]
fn more_arc_capacity_never_lowers_the_flow() {
    let mut graph = small_graph();
    let (f_small, _) = MCMF::new(&mut graph, 0, 5).run();
    let mut big = FlowGraph::new(6);
    big.add_arc(0, 1, 10, 2 as W);
    big.add_arc(0, 2, 10, 4 as W);
    big.add_arc(1, 2, 2, 1 as W);
    big.add_arc(1, 3, 4, 2 as W);
    big.add_arc(1, 4, 8, 4 as W);
    big.add_arc(2, 4, 9, 1 as W);
    big.add_arc(3, 5, 10, 3 as W);
    big.add_arc(3, 4, 6, 2 as W);
    big.add_arc(4, 5, 15, 2 as W);
    let (f_big, _) = MCMF::new(&mut big, 0, 5).run();
    assert_eq!(f_small, 14);
    assert!(f_small <= f_big);
    assert_eq!(f_big, 19);
}
