use hive::command::{parse_command, parse_usize, run_command, Command, Step};
use hive::hive::Hive;

fn toks(parts: &[&str]) -> Vec<String> {
    parts.iter().map(|p| p.to_string()).collect()
}

#[test]
fn parse_usize_reads_exact_decimals() {
    assert_eq!(parse_usize("0"), Some(0));
    assert_eq!(parse_usize("42"), Some(42));
    assert_eq!(parse_usize("007"), Some(7));
    assert_eq!(parse_usize(""), None);
    assert_eq!(parse_usize("x1"), None);
    assert_eq!(parse_usize("1x"), None);
    assert_eq!(parse_usize("-3"), None);
    assert_eq!(parse_usize("999999999999999999999999999999999"), None);
}

#[test]
fn parse_pipe_forms() {
    match parse_command(&toks(&["a", ">", "b"])) {
        Some(Command::Actions(steps)) => {
            assert_eq!(steps.len(), 1);
            match &steps[0] {
                Step::Pipe(s, d) => {
                    assert_eq!(s, "a");
                    assert_eq!(d, "b");
                }
                _ => panic!("expected a pipe"),
            }
        }
        _ => panic!("expected actions"),
    }
    match parse_command(&toks(&["b", "<", "a"])) {
        Some(Command::Actions(steps)) => match &steps[0] {
            Step::Pipe(s, d) => {
                assert_eq!(s, "a");
                assert_eq!(d, "b");
            }
            _ => panic!("expected a pipe"),
        },
        _ => panic!("expected actions"),
    }
}

#[test]
fn parse_chained_pipes() {
    match parse_command(&toks(&["a", ">", "b", "<", "c"])) {
        Some(Command::Actions(steps)) => {
            assert_eq!(steps.len(), 2);
            match (&steps[0], &steps[1]) {
                (Step::Pipe(s1, d1), Step::Pipe(s2, d2)) => {
                    assert_eq!((s1.as_str(), d1.as_str()), ("a", "b"));
                    assert_eq!((s2.as_str(), d2.as_str()), ("c", "b"));
                }
                _ => panic!("expected two pipes"),
            }
        }
        _ => panic!("expected actions"),
    }
}

#[test]
fn parse_delete_forms() {
    match parse_command(&toks(&["delete", "x"])) {
        Some(Command::Actions(steps)) => match &steps[0] {
            Step::Delete(t) => assert_eq!(t, "x"),
            _ => panic!("expected a delete"),
        },
        _ => panic!("expected actions"),
    }
    match parse_command(&toks(&["d", "7"])) {
        Some(Command::Actions(steps)) => match &steps[0] {
            Step::Delete(t) => assert_eq!(t, "7"),
            _ => panic!("expected a delete"),
        },
        _ => panic!("expected actions"),
    }
}

#[test]
fn parse_history_forms() {
    assert!(matches!(parse_command(&toks(&["undo"])), Some(Command::Undo(1))));
    assert!(matches!(parse_command(&toks(&["undo", "3"])), Some(Command::Undo(3))));
    assert!(matches!(parse_command(&toks(&["redo"])), Some(Command::Redo(1))));
    assert!(matches!(parse_command(&toks(&["redo", "2"])), Some(Command::Redo(2))));
    assert!(matches!(parse_command(&toks(&["pile", "2"])), Some(Command::Pile(2))));
    assert!(matches!(parse_command(&toks(&["clear"])), Some(Command::Clear)));
    assert!(matches!(parse_command(&toks(&["quit"])), Some(Command::Quit)));
}

#[test]
fn first_match_wins_a_pipe_beats_a_keyword() {
    match parse_command(&toks(&["undo", ">", "b"])) {
        Some(Command::Actions(steps)) => match &steps[0] {
            Step::Pipe(s, d) => {
                assert_eq!(s, "undo");
                assert_eq!(d, "b");
            }
            _ => panic!("expected a pipe"),
        },
        _ => panic!("expected actions"),
    }
}

#[test]
fn malformed_lines_do_not_parse() {
    assert!(parse_command(&toks(&[])).is_none());
    assert!(parse_command(&toks(&["a"])).is_none());
    assert!(parse_command(&toks(&["a", ">"])).is_none());
    assert!(parse_command(&toks(&["undo", "x"])).is_none());
    assert!(parse_command(&toks(&["pile"])).is_none());
    assert!(parse_command(&toks(&["quit", "now"])).is_none());
    assert!(parse_command(&toks(&["delete"])).is_none());
}

#[test]
fn an_action_line_becomes_one_undo_step() {
    let mut h = Hive::default();
    let cmd = parse_command(&toks(&["a", ">", "b", ">", "c"])).unwrap();
    assert!(!run_command(&mut h, cmd).0);
    assert_eq!(h.nodes.len(), 3);
    assert_eq!(h.undo.snapshot(), 1);
    assert_eq!(h.undo(1), 0);
    assert_eq!(h.nodes.len(), 0);
}

#[test]
fn delete_tries_the_edge_id_first() {
    let mut h = Hive::default();
    run_command(&mut h, parse_command(&toks(&["a", ">", "b"])).unwrap());
    // a node named like a live edge id: the edge wins
    run_command(&mut h, parse_command(&toks(&["0", ">", "b"])).unwrap());
    assert_eq!(h.nodes.len(), 3);
    run_command(&mut h, parse_command(&toks(&["delete", "0"])).unwrap());
    // the edge with id 0 went; the node named "0" is still there
    assert!(h.lookup("0").is_some());
    run_command(&mut h, parse_command(&toks(&["delete", "0"])).unwrap());
    // now no edge 0 was live any more, so the node named "0" went
    assert!(h.lookup("0").is_none());
}

#[test]
fn quit_signals_the_end_and_teardown_reports_success() {
    let mut h = Hive::default();
    run_command(&mut h, parse_command(&toks(&["a", ">", "b"])).unwrap());
    let (quit, _) = run_command(&mut h, parse_command(&toks(&["quit"])).unwrap());
    assert!(quit);
    // the caller tears down; a sound session drains to nothing
    assert!(h.clear());
    assert_eq!(h.nodes.len(), 0);
    assert_eq!(h.graph.nodes.len(), 0);
    assert_eq!(h.graph.edges.len(), 0);
    assert_eq!(h.undo.snapshot(), 0);
}

#[test]
fn run_command_reports_unavailable_history_steps() {
    let mut h = Hive::default();
    let (_, ignored) = run_command(&mut h, parse_command(&toks(&["undo", "3"])).unwrap());
    assert_eq!(ignored, 3);
    run_command(&mut h, parse_command(&toks(&["a", ">", "b"])).unwrap());
    let (_, ignored) = run_command(&mut h, parse_command(&toks(&["undo"])).unwrap());
    assert_eq!(ignored, 0);
    let (_, ignored) = run_command(&mut h, parse_command(&toks(&["redo", "2"])).unwrap());
    assert_eq!(ignored, 1);
}

#[test]
fn pile_n_merges_the_last_n_entries() {
    let mut h = Hive::default();
    run_command(&mut h, parse_command(&toks(&["a", ">", "b"])).unwrap());
    run_command(&mut h, parse_command(&toks(&["b", ">", "c"])).unwrap());
    assert_eq!(h.undo.snapshot(), 2);
    run_command(&mut h, parse_command(&toks(&["pile", "2"])).unwrap());
    assert_eq!(h.undo.snapshot(), 1);
    assert_eq!(h.undo(1), 0);
    assert_eq!(h.nodes.len(), 0);
}
