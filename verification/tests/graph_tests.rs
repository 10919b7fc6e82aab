use hive::graph::{EdgeIndex, Graph, NodeIndex};

fn collect_edges(g: &Graph<u32, u32>, n: NodeIndex, dir: usize) -> Vec<EdgeIndex> {
    let mut it = g.edges(n, dir);
    let mut out = Vec::new();
    while let Some(e) = it.next() {
        out.push(e);
    }
    out
}

fn collect_neighbors(g: &Graph<u32, u32>, n: NodeIndex, dir: usize) -> Vec<(NodeIndex, EdgeIndex)> {
    let mut it = g.neighbors(n, dir);
    let mut out = Vec::new();
    while let Some(p) = it.next() {
        out.push(p);
    }
    out
}

#[test]
fn add_node_uses_first_free_slot() {
    let mut g: Graph<u32, u32> = Graph::default();
    let a = g.add_node(10);
    let b = g.add_node(11);
    let c = g.add_node(12);
    assert_eq!(a.0, 0);
    assert_eq!(b.0, 1);
    assert_eq!(c.0, 2);
    assert_eq!(g.remove_node(b), Some(11));
    let d = g.add_node(13);
    assert_eq!(d.0, 1);
    let e = g.add_node(14);
    assert_eq!(e.0, 3);
}

#[test]
fn node_round_trip_returns_payload() {
    let mut g: Graph<u32, u32> = Graph::default();
    let a = g.add_node(5);
    let b = g.add_node(6);
    assert_eq!(g.remove_node(a), Some(5));
    assert_eq!(g.remove_node(b), Some(6));
    assert_eq!(g.remove_node(a), None);
}

#[test]
fn edge_round_trip_returns_payload_and_leaves_rest() {
    let mut g: Graph<u32, u32> = Graph::default();
    let a = g.add_node(1);
    let b = g.add_node(2);
    let e1 = g.add_edge(a, b, 77);
    let e2 = g.add_edge(a, b, 88);
    assert_eq!(g.remove_edge(e1), Some(77));
    assert_eq!(g.remove_edge(e1), None);
    let nbrs = collect_neighbors(&g, a, 0);
    assert_eq!(nbrs, vec![(b, e2)]);
}

#[test]
fn remove_edge_checks_the_edge_arena() {
    let mut g: Graph<u32, u32> = Graph::default();
    let _a = g.add_node(1);
    // slot 0 is a live node but no edge lives there
    assert_eq!(g.remove_edge(EdgeIndex(0)), None);
    assert_eq!(g.remove_edge(EdgeIndex(9)), None);
}

#[test]
fn edges_are_chained_newest_first() {
    let mut g: Graph<u32, u32> = Graph::default();
    let a = g.add_node(0);
    let b = g.add_node(0);
    let c = g.add_node(0);
    let e1 = g.add_edge(a, b, 1);
    let e2 = g.add_edge(a, c, 2);
    assert_eq!(collect_edges(&g, a, 0), vec![e2, e1]);
    assert_eq!(collect_edges(&g, b, 1), vec![e1]);
    assert_eq!(collect_edges(&g, c, 1), vec![e2]);
    assert_eq!(collect_edges(&g, a, 1), vec![]);
}

#[test]
fn neighbors_resolve_far_endpoints() {
    let mut g: Graph<u32, u32> = Graph::default();
    let a = g.add_node(0);
    let b = g.add_node(0);
    let e = g.add_edge(a, b, 9);
    assert_eq!(collect_neighbors(&g, a, 0), vec![(b, e)]);
    assert_eq!(collect_neighbors(&g, b, 1), vec![(a, e)]);
}

#[test]
fn removing_a_node_cascades_to_its_edges() {
    let mut g: Graph<u32, u32> = Graph::default();
    let a = g.add_node(0);
    let b = g.add_node(0);
    let c = g.add_node(0);
    g.add_edge(a, b, 1);
    g.add_edge(b, c, 2);
    assert_eq!(g.remove_node(b), Some(0));
    assert_eq!(collect_neighbors(&g, a, 0), vec![]);
    assert_eq!(collect_neighbors(&g, c, 1), vec![]);
    // the other nodes survive untouched
    assert!(g.has_node(a));
    assert!(g.has_node(c));
    assert!(!g.has_node(b));
}

#[test]
fn self_loops_are_removed_with_their_node() {
    let mut g: Graph<u32, u32> = Graph::default();
    let a = g.add_node(0);
    let e = g.add_edge(a, a, 1);
    assert_eq!(collect_neighbors(&g, a, 0), vec![(a, e)]);
    assert_eq!(collect_neighbors(&g, a, 1), vec![(a, e)]);
    assert_eq!(g.remove_node(a), Some(0));
    assert!(!g.has_edge(e));
}

#[test]
fn bfs_visits_each_reachable_node_once() {
    let mut g: Graph<u32, u32> = Graph::default();
    let a = g.add_node(0);
    let b = g.add_node(0);
    let c = g.add_node(0);
    let d = g.add_node(0);
    let lone = g.add_node(0);
    g.add_edge(a, b, 0);
    g.add_edge(a, c, 0);
    g.add_edge(b, d, 0);
    g.add_edge(c, d, 0);
    let mut it = g.bfs(a, 0);
    let mut seen = Vec::new();
    while let Some(v) = it.next() {
        seen.push(v);
    }
    assert_eq!(seen.len(), 4);
    assert_eq!(seen[0], a);
    for i in 0..seen.len() {
        for j in 0..i {
            assert_ne!(seen[i], seen[j]);
        }
    }
    assert!(seen.contains(&b) && seen.contains(&c) && seen.contains(&d));
    assert!(!seen.contains(&lone));
    // count of visited equals count reachable by repeated neighbor expansion
    let mut frontier = vec![a];
    let mut reached = vec![a];
    while let Some(u) = frontier.pop() {
        for (v, _) in collect_neighbors(&g, u, 0) {
            if !reached.contains(&v) {
                reached.push(v);
                frontier.push(v);
            }
        }
    }
    assert_eq!(seen.len(), reached.len());
}

#[test]
fn bfs_yields_levels_in_order() {
    let mut g: Graph<u32, u32> = Graph::default();
    let a = g.add_node(0);
    let b = g.add_node(0);
    let c = g.add_node(0);
    let d = g.add_node(0);
    // discovery order interleaves the levels' parents; the yields may not
    g.add_edge(a, b, 0);
    g.add_edge(b, c, 0);
    g.add_edge(a, d, 0);
    let mut it = g.bfs(a, 0);
    let mut seen = Vec::new();
    while let Some(v) = it.next() {
        seen.push(v);
    }
    let depth = |v: NodeIndex| if v == a { 0 } else if v == c { 2 } else { 1 };
    for i in 1..seen.len() {
        assert!(depth(seen[i - 1]) <= depth(seen[i]));
    }
    assert_eq!(seen[0], a);
    assert_eq!(seen[3], c);
}

#[test]
fn bfs_from_a_sink_is_just_the_start() {
    let mut g: Graph<u32, u32> = Graph::default();
    let a = g.add_node(0);
    let b = g.add_node(0);
    g.add_edge(a, b, 0);
    let mut it = g.bfs(b, 0);
    assert_eq!(it.next(), Some(b));
    assert_eq!(it.next(), None);
}

#[test]
fn schedule_stages_are_breadth_first_depths() {
    let mut g: Graph<u32, u32> = Graph::default();
    let a = g.add_node(0);
    let b = g.add_node(0);
    let c = g.add_node(0);
    let d = g.add_node(0);
    g.add_edge(a, b, 0);
    g.add_edge(a, c, 0);
    g.add_edge(b, d, 0);
    g.add_edge(c, d, 0);
    let sched = g.schedule(a, 0);
    assert_eq!(sched.len(), 4);
    assert_eq!(sched[0].0, a);
    assert_eq!(sched[0].1.stage, 0);
    for (v, info) in &sched {
        let out = collect_edges(&g, *v, 0).len();
        assert_eq!(info.count.out, out);
        let depth = if *v == a {
            0
        } else if *v == d {
            2
        } else {
            1
        };
        assert_eq!(info.stage, depth);
    }
    // each node pays one discovery edge; the join node keeps one further
    // shortest-path arrival
    for (v, info) in &sched {
        let expected = if *v == d { 1 } else { 0 };
        assert_eq!(info.count.inc, expected);
    }
}

#[test]
fn schedule_start_stage_stays_zero_on_cycles() {
    let mut g: Graph<u32, u32> = Graph::default();
    let a = g.add_node(0);
    let b = g.add_node(0);
    g.add_edge(a, b, 0);
    g.add_edge(b, a, 0);
    let sched = g.schedule(a, 0);
    assert_eq!(sched[0].0, a);
    assert_eq!(sched[0].1.stage, 0);
    for (v, info) in &sched {
        if *v == b {
            assert_eq!(info.stage, 1);
        }
    }
}

#[test]
fn schedule_keeps_the_shortest_depth_on_multiple_paths() {
    let mut g: Graph<u32, u32> = Graph::default();
    let a = g.add_node(0);
    let b = g.add_node(0);
    let c = g.add_node(0);
    g.add_edge(a, b, 0);
    g.add_edge(b, c, 0);
    // a direct shortcut: the longer path may not push c deeper
    g.add_edge(a, c, 0);
    let sched = g.schedule(a, 0);
    for (v, info) in &sched {
        if *v == c {
            assert_eq!(info.stage, 1);
            // only the direct edge arrives at c's depth, and it was the
            // discovery, so no further arrival is counted
            assert_eq!(info.count.inc, 0);
        }
    }
}

#[test]
fn schedule_counts_arrivals_from_reachable_nodes_only() {
    let mut g: Graph<u32, u32> = Graph::default();
    let a = g.add_node(0);
    let b = g.add_node(0);
    let outside = g.add_node(0);
    g.add_edge(a, b, 0);
    g.add_edge(a, b, 0);
    // an edge from an unreachable node never counts
    g.add_edge(outside, b, 0);
    let sched = g.schedule(a, 0);
    assert_eq!(sched.len(), 2);
    for (v, info) in &sched {
        if *v == b {
            // two arrivals from `a`, one of them the discovery
            assert_eq!(info.count.inc, 1);
        }
    }
}
