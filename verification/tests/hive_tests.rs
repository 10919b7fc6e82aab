use hive::graph::NodeIndex;
use hive::hive::Hive;

fn live_edge_count(h: &Hive) -> usize {
    h.graph.edges.iter().filter(|e| e.is_ok()).count()
}

fn out_neighbors(h: &Hive, name: &str) -> Vec<NodeIndex> {
    let idx = h.lookup(name).unwrap();
    let mut it = h.graph.neighbors(idx, 0);
    let mut out = Vec::new();
    while let Some((v, _)) = it.next() {
        out.push(v);
    }
    out
}

fn in_neighbors(h: &Hive, name: &str) -> Vec<NodeIndex> {
    let idx = h.lookup(name).unwrap();
    let mut it = h.graph.neighbors(idx, 1);
    let mut out = Vec::new();
    while let Some((v, _)) = it.next() {
        out.push(v);
    }
    out
}

#[test]
fn two_pipes_build_three_named_nodes_and_two_edges() {
    let mut h = Hive::default();
    h.pipe("a", "b");
    h.pipe("b", "c");
    assert_eq!(h.nodes.len(), 3);
    assert_eq!(live_edge_count(&h), 2);
    assert_eq!(out_neighbors(&h, "b"), vec![h.lookup("c").unwrap()]);
    assert_eq!(in_neighbors(&h, "b"), vec![h.lookup("a").unwrap()]);
}

#[test]
fn removing_a_named_node_takes_both_edges_with_it() {
    let mut h = Hive::default();
    h.pipe("a", "b");
    h.pipe("b", "c");
    assert!(h.remove_node("b"));
    assert_eq!(live_edge_count(&h), 0);
    assert_eq!(out_neighbors(&h, "a"), vec![]);
    assert!(h.lookup("b").is_none());
    assert!(!h.remove_node("b"));
}

#[test]
fn pipe_reuses_existing_names() {
    let mut h = Hive::default();
    h.pipe("a", "b");
    h.pipe("a", "b");
    assert_eq!(h.nodes.len(), 2);
    assert_eq!(live_edge_count(&h), 2);
}

#[test]
fn delete_edge_by_raw_id() {
    let mut h = Hive::default();
    h.pipe("a", "b");
    assert!(h.delete_edge(0));
    assert!(!h.delete_edge(0));
    assert_eq!(h.nodes.len(), 2);
    assert_eq!(live_edge_count(&h), 0);
}

#[test]
fn pile_groups_a_snapshot_range_into_one_undo_step() {
    let mut h = Hive::default();
    h.pipe("a", "b");
    let snapshot = h.undo.snapshot();
    h.pipe("b", "c");
    h.undo.pile(snapshot);
    assert_eq!(h.undo.snapshot(), snapshot + 1);
    // one undo removes both the new edge and the node created for "c"
    assert_eq!(h.undo(1), 0);
    assert_eq!(h.nodes.len(), 2);
    assert!(h.lookup("a").is_some());
    assert!(h.lookup("b").is_some());
    assert!(h.lookup("c").is_none());
    assert_eq!(live_edge_count(&h), 1);
}

#[test]
fn piling_fewer_than_two_entries_is_a_no_op() {
    let mut h = Hive::default();
    h.pipe("a", "b");
    let len = h.undo.snapshot();
    h.undo.pile(len);
    assert_eq!(h.undo.snapshot(), len);
    let almost = len - 1;
    h.undo.pile(almost);
    assert_eq!(h.undo.snapshot(), len);
    let mut empty = Hive::default();
    empty.undo.pile(0);
    assert_eq!(empty.undo.snapshot(), 0);
}

#[test]
fn undo_then_redo_is_observably_a_no_op() {
    let mut h = Hive::default();
    h.pipe("a", "b");
    let snapshot = h.undo.snapshot();
    h.pipe("b", "c");
    h.undo.pile(snapshot);
    let pos_before = h.undo.position();
    let nodes_before = h.nodes.len();
    let edges_before = live_edge_count(&h);
    assert_eq!(h.undo(1), 0);
    assert_eq!(h.redo(1), 0);
    assert_eq!(h.undo.position(), pos_before);
    assert_eq!(h.nodes.len(), nodes_before);
    assert_eq!(live_edge_count(&h), edges_before);
    assert_eq!(out_neighbors(&h, "b"), vec![h.lookup("c").unwrap()]);
    assert_eq!(in_neighbors(&h, "b"), vec![h.lookup("a").unwrap()]);
}

#[test]
fn undo_reports_how_many_steps_were_unavailable() {
    let mut h = Hive::default();
    assert_eq!(h.undo(3), 3);
    h.pipe("a", "b");
    let snapshot = 0;
    h.undo.pile(snapshot);
    assert_eq!(h.undo(5), 4);
    assert_eq!(h.nodes.len(), 0);
}

#[test]
fn redo_without_a_prior_undo_is_unavailable() {
    let mut h = Hive::default();
    assert_eq!(h.redo(2), 2);
    h.pipe("a", "b");
    assert_eq!(h.redo(1), 1);
}

#[test]
fn a_new_action_after_undo_discards_the_redo_branch() {
    let mut h = Hive::default();
    h.pipe("a", "b");
    h.undo.pile(0);
    h.pipe("b", "c");
    h.undo.pile(1);
    assert_eq!(h.undo(1), 0);
    assert!(h.lookup("c").is_none());
    h.pipe("a", "d");
    // the undone branch is gone: nothing to redo
    assert_eq!(h.redo(1), 1);
    assert!(h.lookup("c").is_none());
    assert!(h.lookup("d").is_some());
}

#[test]
fn nested_piles_undo_and_redo_as_one_step() {
    let mut h = Hive::default();
    h.pipe("a", "b");
    h.undo.pile(0);
    h.pipe("b", "c");
    h.undo.pile(1);
    assert_eq!(h.undo.snapshot(), 2);
    // a pile of piles: the whole session as one step
    h.undo.pile(0);
    assert_eq!(h.undo.snapshot(), 1);
    assert_eq!(h.undo(1), 0);
    assert_eq!(h.nodes.len(), 0);
    assert_eq!(live_edge_count(&h), 0);
    assert_eq!(h.redo(1), 0);
    assert_eq!(h.nodes.len(), 3);
    assert_eq!(live_edge_count(&h), 2);
    assert_eq!(out_neighbors(&h, "a"), vec![h.lookup("b").unwrap()]);
    assert_eq!(out_neighbors(&h, "b"), vec![h.lookup("c").unwrap()]);
}

#[test]
fn undo_restores_a_deleted_edge() {
    let mut h = Hive::default();
    h.pipe("a", "b");
    assert!(h.delete_edge(0));
    assert_eq!(h.undo(1), 0);
    assert_eq!(live_edge_count(&h), 1);
    assert_eq!(out_neighbors(&h, "a"), vec![h.lookup("b").unwrap()]);
}

#[test]
fn full_undo_then_clear_empties_the_hive() {
    let mut h = Hive::default();
    h.pipe("a", "b");
    h.pipe("b", "c");
    assert!(h.remove_node("a"));
    assert!(h.clear());
    assert_eq!(h.nodes.len(), 0);
    assert_eq!(h.graph.nodes.len(), 0);
    assert_eq!(h.graph.edges.len(), 0);
    assert_eq!(h.undo.snapshot(), 0);
    assert_eq!(h.undo.position(), 0);
}

#[test]
fn undo_restores_a_removed_node_with_its_edges() {
    let mut h = Hive::default();
    h.pipe("a", "b");
    h.pipe("b", "c");
    let snapshot = h.undo.snapshot();
    assert!(h.remove_node("b"));
    h.undo.pile(snapshot);
    assert_eq!(h.undo(1), 0);
    assert_eq!(h.nodes.len(), 3);
    assert_eq!(live_edge_count(&h), 2);
    assert_eq!(out_neighbors(&h, "b"), vec![h.lookup("c").unwrap()]);
    assert_eq!(in_neighbors(&h, "b"), vec![h.lookup("a").unwrap()]);
}
