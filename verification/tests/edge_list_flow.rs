use mcmf::edge_list::{Edge, MinCostMaxFlow};

fn example_network() -> MinCostMaxFlow {
    let mut graph = MinCostMaxFlow::new(6);
    graph.add_edge(0, 1, 10, 2);
    graph.add_edge(0, 2, 10, 4);
    graph.add_edge(1, 2, 2, 1);
    graph.add_edge(1, 3, 4, 2);
    graph.add_edge(1, 4, 8, 4);
    graph.add_edge(2, 4, 9, 1);
    graph.add_edge(3, 5, 10, 3);
    graph.add_edge(4, 3, 6, 2);
    graph.add_edge(4, 5, 10, 2);
    graph
}

fn ends(e: &Edge) -> (usize, usize, i64, i32, i64) {
    (e.from, e.to, e.capacity, e.cost, e.flow)
}

#[test]
fn example_flow_and_cost() {
    let mut graph = example_network();
    let (max_flow, min_cost) = graph.min_cost_max_flow(0, 5);
    assert_eq!(max_flow, 19);
    assert_eq!(min_cost, 154);
}

#[test]
fn example_flow_edges() {
    let mut graph = example_network();
    graph.min_cost_max_flow(0, 5);
    let got: Vec<_> = graph.get_flow_edges().iter().map(ends).collect();
    assert_eq!(
        got,
        vec![
            (0, 1, 10, 2, 10),
            (0, 2, 10, 4, 9),
            (1, 3, 4, 2, 4),
            (1, 4, 8, 4, 6),
            (2, 4, 9, 1, 9),
            (3, 5, 10, 3, 9),
            (4, 3, 6, 2, 5),
            (4, 5, 10, 2, 10),
        ]
    );
}

#[test]
fn example_all_edges_keep_their_order() {
    let mut graph = example_network();
    graph.min_cost_max_flow(0, 5);
    let got: Vec<_> = graph.get_all_edges().iter().map(ends).collect();
    assert_eq!(got.len(), 9);
    assert_eq!(got[2], (1, 2, 2, 1, 0));
    assert_eq!(got[0], (0, 1, 10, 2, 10));
    assert_eq!(got[8], (4, 5, 10, 2, 10));
}

#[test]
fn example_flow_is_conserved() {
    let mut graph = example_network();
    let (max_flow, min_cost) = graph.min_cost_max_flow(0, 5);
    let edges = graph.get_all_edges();
    let mut net = vec![0i64; 6];
    let mut cost: i128 = 0;
    for e in &edges {
        assert!(0 <= e.flow && e.flow <= e.capacity);
        net[e.from] += e.flow;
        net[e.to] -= e.flow;
        cost += e.flow as i128 * e.cost as i128;
    }
    assert_eq!(net, vec![max_flow, 0, 0, 0, 0, -max_flow]);
    assert_eq!(cost, min_cost);
}

#[test]
fn example_flow_paths() {
    let mut graph = example_network();
    graph.min_cost_max_flow(0, 5);
    let paths = graph.get_flow_paths(0, 5);
    assert_eq!(
        paths,
        vec![
            vec![(0, 1, 4, 2), (1, 3, 4, 2), (3, 5, 4, 3)],
            vec![(0, 1, 5, 2), (1, 4, 5, 4), (4, 3, 5, 2), (3, 5, 5, 3)],
            vec![(0, 1, 1, 2), (1, 4, 1, 4), (4, 5, 1, 2)],
            vec![(0, 2, 9, 4), (2, 4, 9, 1), (4, 5, 9, 2)],
        ]
    );
    let total: i64 = paths.iter().map(|p| p[0].2).sum();
    assert_eq!(total, 19);
}

#[test]
fn new_network_has_no_edges() {
    let graph = MinCostMaxFlow::new(3);
    assert!(graph.get_all_edges().is_empty());
    assert!(graph.get_flow_edges().is_empty());
    assert!(graph.get_flow_paths(0, 2).is_empty());
}

#[test]
fn add_edge_records_the_arc() {
    let mut graph = MinCostMaxFlow::new(3);
    graph.add_edge(2, 0, 5, -7);
    let got: Vec<_> = graph.get_all_edges().iter().map(ends).collect();
    assert_eq!(got, vec![(2, 0, 5, -7, 0)]);
}

#[test]
fn single_arc_saturates() {
    let mut graph = MinCostMaxFlow::new(2);
    graph.add_edge(0, 1, 7, 3);
    assert_eq!(graph.min_cost_max_flow(0, 1), (7, 21));
    assert_eq!(graph.get_flow_paths(0, 1), vec![vec![(0, 1, 7, 3)]]);
}

#[test]
fn sink_unreachable() {
    let mut graph = MinCostMaxFlow::new(4);
    graph.add_edge(0, 1, 5, 1);
    graph.add_edge(2, 3, 5, 1);
    assert_eq!(graph.min_cost_max_flow(0, 3), (0, 0));
    assert!(graph.get_flow_edges().is_empty());
}

#[test]
fn flow_paths_from_source_to_itself_is_empty() {
    let mut graph = example_network();
    graph.min_cost_max_flow(0, 5);
    assert!(graph.get_flow_paths(0, 0).is_empty());
}

#[test]
fn flow_paths_with_unrelated_source() {
    let mut graph = example_network();
    graph.min_cost_max_flow(0, 5);
    // No flow leaves node 5.
    assert!(graph.get_flow_paths(5, 0).is_empty());
    // Out-of-range nodes give no path either.
    assert!(graph.get_flow_paths(9, 5).is_empty());
}

#[test]
fn parallel_arcs_give_separate_paths() {
    let mut graph = MinCostMaxFlow::new(2);
    graph.add_edge(0, 1, 2, 5);
    graph.add_edge(0, 1, 3, 1);
    assert_eq!(graph.min_cost_max_flow(0, 1), (5, 13));
    // Each arc keeps its own flow and its own cost.
    assert_eq!(graph.get_flow_paths(0, 1), vec![vec![(0, 1, 2, 5)], vec![(0, 1, 3, 1)]]);
}

#[test]
fn parallel_arcs_carry_all_the_flow() {
    let mut graph = MinCostMaxFlow::new(2);
    graph.add_edge(0, 1, 2, 1);
    graph.add_edge(0, 1, 3, 5);
    assert_eq!(graph.min_cost_max_flow(0, 1), (5, 17));
    let paths = graph.get_flow_paths(0, 1);
    assert_eq!(paths, vec![vec![(0, 1, 2, 1)], vec![(0, 1, 3, 5)]]);
    let cost: i64 = paths.iter().map(|p| p[0].2 * p[0].3 as i64).sum();
    assert_eq!(cost, 17);
}

#[test]
fn negative_cost_chain() {
    let mut graph = MinCostMaxFlow::new(3);
    graph.add_edge(0, 1, 5, -2);
    graph.add_edge(1, 2, 3, 4);
    assert_eq!(graph.min_cost_max_flow(0, 2), (3, 6));
}

#[test]
fn second_search_adds_nothing() {
    let mut graph = example_network();
    assert_eq!(graph.min_cost_max_flow(0, 5), (19, 154));
    // No augmenting path is left, so a second call changes nothing.
    assert_eq!(graph.min_cost_max_flow(0, 5), (0, 0));
    let got: Vec<_> = graph.get_flow_edges().iter().map(ends).collect();
    assert_eq!(got.len(), 8);
}

#[test]
fn negative_cycle_in_the_way() {
    // 1 -> 2 -> 1 is a cycle of cost -2 reachable from the source.
    let mut graph = MinCostMaxFlow::new(4);
    graph.add_edge(0, 1, 5, 1);
    graph.add_edge(1, 2, 5, -3);
    graph.add_edge(2, 1, 5, 1);
    graph.add_edge(1, 3, 5, 1);
    assert_eq!(graph.min_cost_max_flow(0, 3), (5, 10));
    let got: Vec<_> = graph.get_flow_edges().iter().map(ends).collect();
    assert_eq!(got, vec![(0, 1, 5, 1, 5), (1, 3, 5, 1, 5)]);
}

#[test]
fn maximum_flow_fills_a_cut() {
    let mut graph = example_network();
    let (max_flow, _) = graph.min_cost_max_flow(0, 5);
    let edges = graph.get_all_edges();
    // Nodes still reachable from the source in the residual network.
    let mut seen = vec![false; 6];
    seen[0] = true;
    let mut changed = true;
    while changed {
        changed = false;
        for e in &edges {
            if seen[e.from] && !seen[e.to] && e.flow < e.capacity {
                seen[e.to] = true;
                changed = true;
            }
            if seen[e.to] && !seen[e.from] && e.flow > 0 {
                seen[e.from] = true;
                changed = true;
            }
        }
    }
    assert!(!seen[5]);
    let cut: i64 = edges.iter().filter(|e| seen[e.from] && !seen[e.to]).map(|e| e.capacity).sum();
    assert_eq!(cut, max_flow);
    let back: i64 = edges.iter().filter(|e| !seen[e.from] && seen[e.to]).map(|e| e.flow).sum();
    assert_eq!(back, 0);
}

#[test]
fn cheap_detour_beats_direct_edge() {
    let mut graph = MinCostMaxFlow::new(5);
    graph.add_edge(0, 1, 1, 0);
    graph.add_edge(1, 2, 1, 10);
    graph.add_edge(1, 3, 1, 0);
    graph.add_edge(3, 2, 1, 0);
    graph.add_edge(2, 4, 1, 0);
    assert_eq!(graph.min_cost_max_flow(0, 4), (1, 0));
    assert_eq!(
        graph.get_flow_paths(0, 4),
        vec![vec![(0, 1, 1, 0), (1, 3, 1, 0), (3, 2, 1, 0), (2, 4, 1, 0)]]
    );
}

#[test]
fn huge_capacities_out_of_the_source() {
    let mut graph = MinCostMaxFlow::new(4);
    graph.add_edge(0, 1, i64::MAX, 1);
    graph.add_edge(0, 2, i64::MAX, 2);
    graph.add_edge(1, 3, 1, 1);
    graph.add_edge(2, 3, 1, 1);
    assert_eq!(graph.min_cost_max_flow(0, 3), (2, 5));
}

#[test]
fn more_capacity_never_lowers_the_flow() {
    let mut small = example_network();
    let (f_small, _) = small.min_cost_max_flow(0, 5);
    let mut big = MinCostMaxFlow::new(6);
    big.add_edge(0, 1, 10, 2);
    big.add_edge(0, 2, 10, 4);
    big.add_edge(1, 2, 2, 1);
    big.add_edge(1, 3, 4, 2);
    big.add_edge(1, 4, 8, 4);
    big.add_edge(2, 4, 12, 1);
    big.add_edge(3, 5, 10, 3);
    big.add_edge(4, 3, 6, 2);
    big.add_edge(4, 5, 10, 2);
    let (f_big, _) = big.min_cost_max_flow(0, 5);
    assert_eq!(f_small, 19);
    assert_eq!(f_big, 20);
    assert!(f_small <= f_big);
}

#[test]
fn costlier_flow_of_the_same_value_loses() {
    // Of the flows of value 19 on the example network, the one found costs
    // less than one that routes 0 -> 1 -> 3 -> 5 three units and
    // 1 -> 4 -> 3 -> 5 six units.
    let mut graph = example_network();
    assert_eq!(graph.min_cost_max_flow(0, 5), (19, 154));
    let other: i64 = 10 * 2 + 9 * 4 + 9 * 1 + 3 * 2 + 7 * 4 + 6 * 2 + 10 * 2 + 9 * 3;
    assert_eq!(other, 158);
    let found: i64 = graph.get_flow_edges().iter().map(|e| e.flow * e.cost as i64).sum();
    assert_eq!(found, 154);
    assert!(found < other);
}
