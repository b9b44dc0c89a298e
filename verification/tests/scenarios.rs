//! End-to-end ingestion and extraction scenarios.

use tgproc::cli::Options;
use tgproc::graph::Graph;
use tgproc::graph::IngestError;
use tgproc::graph::LineOutcome;
use tgproc::graph::VarAction;
use tgproc::meta::MetaDB;
use tgproc::meta::TgMetaDb;
use tgproc::tgnode::Taint;

fn ingest_all(g: &mut Graph, db: &mut MetaDB, lines: &[&str]) {
    for line in lines {
        g.ingest_line(line.as_bytes(), false, db)
            .expect("ingestion failed");
    }
}

fn node_taint(g: &Graph, idx: usize) -> Taint {
    g.nodes[idx].as_ref().expect("node absent").taint
}

#[test]
fn plain_propagation_no_sink() {
    let mut g = Graph::new(Options::default());
    let mut db = MetaDB::new();
    ingest_all(
        &mut g,
        &mut db,
        &[
            "0x1: f (a.c:1) | t1 = Ld | u | v | t1 <- undef",
            "0x2: f (a.c:2) | t2 = Add t1 t1 | u | v | t2 <- t1",
        ],
    );
    assert_eq!(g.sinks.len(), 0);
    assert_eq!(node_taint(&g, 0), Taint::Blue);
    assert_eq!(node_taint(&g, 1), Taint::Blue);
}

#[test]
fn add_two_blues_then_branch_is_sink() {
    let mut g = Graph::new(Options::default());
    let mut db = MetaDB::new();
    ingest_all(
        &mut g,
        &mut db,
        &[
            "0x1: f (a.c:1) | t1 = Ld | u | v | t1 <- undef",
            "0x2: f (a.c:2) | t2 = Ld | u | v | t2 <- undef",
            "0x3: f (a.c:3) | t3 = Add t1 t2 | u | v | t3 <- t1, t2",
            "0x4: f (a.c:4) | IF t3 goto | u | v | t4 <- t3",
        ],
    );
    assert_eq!(node_taint(&g, 2), Taint::Red);
    assert_eq!(g.sinks, vec![3]);
    let traces = g.get_traces(3);
    assert_eq!(traces, vec![vec![0, 2, 3], vec![1, 2, 3]]);
}

#[test]
fn dereference_of_red_pointer_is_sink() {
    let mut g = Graph::new(Options::default());
    let mut db = MetaDB::new();
    ingest_all(
        &mut g,
        &mut db,
        &[
            "0x1: f (a.c:1) | p = Mul a b | u | v | p <- undef",
            "0x2: f (a.c:2) | t = Ld | u | v | t <*- p",
        ],
    );
    assert_eq!(node_taint(&g, 0), Taint::Red);
    // the dereference neither defines a variable nor propagates taint
    assert_eq!(g.lookup_var(b"t"), None);
    assert_eq!(node_taint(&g, 1), Taint::Green);
    assert_eq!(g.sinks, vec![1]);
    assert_eq!(g.nodes[1].as_ref().unwrap().sink_reasons, vec![0]);
}

#[test]
fn sub_red_only_when_subtrahend_matches() {
    let mut g = Graph::new(Options::default());
    let mut db = MetaDB::new();
    ingest_all(
        &mut g,
        &mut db,
        &[
            "0x1: f (a.c:1) | t1 = Ld | u | v | t1 <- undef",
            "0x2: f (a.c:2) | t2 = Cmp41 t1 t1 | u | v | t2 <- t1",
            "0x3: f (a.c:3) | t3 = Sub32 t1 t2 | u | v | t3 <- t1",
            "0x4: f (a.c:4) | t4 = Sub32 t2 t1 | u | v | t4 <- t1",
        ],
    );
    assert_eq!(node_taint(&g, 0), Taint::Blue);
    assert_eq!(node_taint(&g, 1), Taint::Green);
    // subtrahend is t2, the blue predecessor arrived over t1: stays Blue
    assert_eq!(node_taint(&g, 2), Taint::Blue);
    // subtrahend is t1 and the blue predecessor arrived over t1: Red
    assert_eq!(node_taint(&g, 3), Taint::Red);
}

#[test]
fn unique_locs_folds_second_hit_at_same_address() {
    let mut opts = Options::default();
    opts.unique_locs = true;
    let mut g = Graph::new(opts);
    let mut db = MetaDB::new();
    let r1 = g
        .ingest_line(b"0x40: f (a.c:1) | t1 = Ld | u | v | t1 <- undef", false, &mut db)
        .unwrap();
    let r2 = g
        .ingest_line(b"0x40: f (a.c:1) | t2 = Ld | u | v | t2 <- t1", false, &mut db)
        .unwrap();
    assert!(matches!(
        r1,
        LineOutcome::Processed { action: VarAction::Defined, .. }
    ));
    assert!(matches!(
        r2,
        LineOutcome::Processed { action: VarAction::FoldedTo(0), .. }
    ));
    // t2 now resolves to the node produced for t1
    assert_eq!(g.lookup_var(b"t2"), Some(0));
    assert_eq!(g.lookup_var(b"t1"), Some(0));
}

#[test]
fn manual_sink_override() {
    let mut opts = Options::default();
    opts.sink_lines = vec![5];
    let mut g = Graph::new(opts);
    let mut db = MetaDB::new();
    ingest_all(
        &mut g,
        &mut db,
        &[
            "0x1: f (a.c:1) | t1 = Ld | u | v | t1 <- undef",
            "0x2: f (a.c:2) | t2 = Ld | u | v | t2 <- undef",
            "0x3: f (a.c:3) | t3 = Add t1 t2 | u | v | t3 <- t1, t2",
            "0x4: f (a.c:4) | IF t3 goto | u | v | t4 <- t3",
            "0x5: f (a.c:5) | t5 = Ld | u | v | t5 <- t1",
        ],
    );
    // the automatically detected sink on line 4 is cancelled
    assert!(g.nodes[3].as_ref().unwrap().sink_reasons.is_empty());
    // line 5 becomes a sink with its present predecessor as reason
    assert_eq!(g.sinks, vec![4]);
    assert_eq!(g.nodes[4].as_ref().unwrap().sink_reasons, vec![0]);
}

#[test]
fn manual_sink_augments_existing_reasons() {
    let mut opts = Options::default();
    opts.sink_lines = vec![2];
    let mut g = Graph::new(opts);
    let mut db = MetaDB::new();
    ingest_all(
        &mut g,
        &mut db,
        &[
            "0x1: f (a.c:1) | p = Mul a b | u | v | p <- undef",
            "0x2: f (a.c:2) | t = Ld | u | v | t <- p; t <*- p",
        ],
    );
    // line 2 already carried the dereference reason; the listed line
    // additionally acquires every present predecessor
    assert_eq!(g.sinks, vec![1]);
    assert_eq!(g.nodes[1].as_ref().unwrap().sink_reasons, vec![0, 0]);
}

#[test]
fn duplicate_definition_is_fatal() {
    let mut g = Graph::new(Options::default());
    let mut db = MetaDB::new();
    ingest_all(&mut g, &mut db, &["0x1: f (a.c:1) | t1 = Ld | u | v | t1 <- undef"]);
    let err = g
        .ingest_line(b"0x2: f (a.c:2) | t1 = Ld | u | v | t1 <- undef", false, &mut db)
        .unwrap_err();
    assert_eq!(
        err,
        IngestError::DuplicateDefinition { first_line: 1, second_line: 2 }
    );
}

#[test]
fn conflicting_plain_clauses_are_fatal() {
    let mut g = Graph::new(Options::default());
    let mut db = MetaDB::new();
    let err = g
        .ingest_line(b"0x1: f (a.c:1) | c | u | v | a <- x; b <- y", false, &mut db)
        .unwrap_err();
    assert_eq!(err, IngestError::ConflictingDefinition);
}

#[test]
fn malformed_command_is_fatal_on_blue_node() {
    let mut g = Graph::new(Options::default());
    let mut db = MetaDB::new();
    let err = g
        .ingest_line(b"0x1: f (a.c:1) | a = b = c | u | v | t1 <- undef", false, &mut db)
        .unwrap_err();
    assert_eq!(err, IngestError::MalformedCommand);
}

#[test]
fn unparseable_location_is_fatal() {
    let mut g = Graph::new(Options::default());
    let mut db = MetaDB::new();
    let err = g
        .ingest_line(b"nonsense | c | u | v | t1 <- undef", false, &mut db)
        .unwrap_err();
    assert_eq!(err, IngestError::UnparseableLoc);
}

#[test]
fn bad_address_is_fatal() {
    let mut g = Graph::new(Options::default());
    let mut db = MetaDB::new();
    let err = g
        .ingest_line(b"0xZZ: f (a.c:1) | c | u | v | t1 <- undef", false, &mut db)
        .unwrap_err();
    assert_eq!(err, IngestError::BadAddress);
}

#[test]
fn bad_line_number_is_fatal() {
    let mut g = Graph::new(Options::default());
    let mut db = MetaDB::new();
    let err = g
        .ingest_line(
            b"0x1: f (a.c:99999999999999999999999) | c | u | v | t1 <- undef",
            false,
            &mut db,
        )
        .unwrap_err();
    assert_eq!(err, IngestError::BadLineNumber);
}

#[test]
fn short_lines_are_ignored() {
    let mut g = Graph::new(Options::default());
    let mut db = MetaDB::new();
    let r = g.ingest_line(b"only | three | fields", false, &mut db).unwrap();
    assert_eq!(r, LineOutcome::Skipped);
    assert!(g.nodes[0].is_none());
}

#[test]
fn exit_call_makes_predecessors_sink_reasons() {
    let mut g = Graph::new(Options::default());
    let mut db = MetaDB::new();
    ingest_all(
        &mut g,
        &mut db,
        &[
            "0x1: f (a.c:1) | t1 = Ld | u | v | t1 <- undef",
            "0x2: _Exit (a.c:2) | c | u | v | t2 <- t1",
        ],
    );
    // the location field holds ` _Exit ` and the node is Blue
    assert_eq!(g.sinks, vec![1]);
    assert_eq!(g.nodes[1].as_ref().unwrap().sink_reasons, vec![0]);
}

#[test]
fn ternary_condition_makes_red_predecessor_a_sink_reason() {
    let mut g = Graph::new(Options::default());
    let mut db = MetaDB::new();
    ingest_all(
        &mut g,
        &mut db,
        &[
            "0x1: f (a.c:1) | p = Mul a b | u | v | p <- undef",
            "0x2: f (a.c:2) | t2 = p ? x : y | u | v | t2 <- p",
        ],
    );
    assert_eq!(g.sinks, vec![1]);
    assert_eq!(g.nodes[1].as_ref().unwrap().sink_reasons, vec![0]);
}

#[test]
fn identical_input_gives_identical_graphs() {
    let lines = [
        "0x1: f (a.c:1) | t1 = Ld | u | v | t1 <- undef",
        "0x2: f (a.c:2) | t2 = Ld | u | v | t2 <- undef",
        "0x3: f (a.c:3) | t3 = Add t1 t2 | u | v | t3 <- t1, t2",
        "0x4: f (a.c:4) | IF t3 goto | u | v | t4 <- t3",
    ];
    let mut g1 = Graph::new(Options::default());
    let mut db1 = MetaDB::new();
    ingest_all(&mut g1, &mut db1, &lines);
    let mut g2 = Graph::new(Options::default());
    let mut db2 = MetaDB::new();
    ingest_all(&mut g2, &mut db2, &lines);
    assert_eq!(g1.sinks, g2.sinks);
    assert_eq!(g1.nodes.len(), g2.nodes.len());
    for i in 0..g1.nodes.len() {
        let n1 = g1.nodes[i].as_ref().unwrap();
        let n2 = g2.nodes[i].as_ref().unwrap();
        assert_eq!(n1.taint, n2.taint);
        assert_eq!(n1.sink_reasons, n2.sink_reasons);
    }
    assert_eq!(g1.get_traces(3), g2.get_traces(3));
}

#[test]
fn sink_query_order_does_not_change_source_sets() {
    let lines = [
        "0x1: f (a.c:1) | p = Mul a b | u | v | p <- undef",
        "0x2: f (a.c:2) | t = Ld | u | v | t <*- p",
        "0x3: f (a.c:3) | u = Ld | u | v | u <-*- p",
    ];
    let mut g = Graph::new(Options::default());
    let mut db = MetaDB::new();
    ingest_all(&mut g, &mut db, &lines);
    assert_eq!(g.sinks, vec![1, 2]);
    let forward: Vec<(usize, Vec<usize>)> = g
        .sinks
        .iter()
        .map(|&s| (s, g.get_traces(s).iter().map(|t| t[0]).collect()))
        .collect();
    let backward: Vec<(usize, Vec<usize>)> = g
        .sinks
        .iter()
        .rev()
        .map(|&s| (s, g.get_traces(s).iter().map(|t| t[0]).collect()))
        .collect();
    let mut backward_sorted = backward.clone();
    backward_sorted.sort();
    let mut forward_sorted = forward.clone();
    forward_sorted.sort();
    assert_eq!(forward_sorted, backward_sorted);
}

#[test]
fn deref_sink_trace_reaches_red_origin() {
    // a dereference sink has no plain predecessors: its trace follows
    // the sink reason back to the red origin
    let mut g = Graph::new(Options::default());
    let mut db = MetaDB::new();
    ingest_all(
        &mut g,
        &mut db,
        &[
            "0x1: f (a.c:1) | p = Mul a b | u | v | p <- undef",
            "0x2: f (a.c:2) | t = Ld | u | v | t <*- p",
        ],
    );
    let traces = g.get_traces(1);
    assert_eq!(traces, vec![vec![0, 1]]);
}
