//! Tests of the metadata side tables and location enrichment.

use tgproc::cli::Options;
use tgproc::graph::Graph;
use tgproc::meta::DebugInfoDb;
use tgproc::meta::MetaDB;
use tgproc::meta::MetaError;
use tgproc::meta::SrcLoc;
use tgproc::meta::TgMetaDb;
use tgproc::meta::TgMetaNode;
use tgproc::vartable::VarTable;

#[test]
fn meta_node_parses_loc() {
    let m = TgMetaNode::new(b"raw line".to_vec(), b"0x40080D: main (two-taints.c:10)").unwrap();
    assert_eq!(m.line, b"raw line".to_vec());
    assert_eq!(m.loc.addr, 0x40080D);
    assert_eq!(m.loc.file, b"two-taints.c".to_vec());
    assert_eq!(m.loc.lineno, Some(10));
    assert_eq!(m.loc.func, b"main".to_vec());
    assert!(m.loc.src_line.is_none());
}

#[test]
fn meta_node_rejects_bad_loc() {
    assert_eq!(
        TgMetaNode::new(b"x".to_vec(), b"garbage").unwrap_err(),
        MetaError::UnparseableLoc
    );
    assert_eq!(
        TgMetaNode::new(b"x".to_vec(), b"0xZZ: f (a.c:1)").unwrap_err(),
        MetaError::BadAddress
    );
}

#[test]
fn is_lib_detects_shared_objects() {
    let m = TgMetaNode::new(b"x".to_vec(), b"0x1: f (in /usr/lib/libc.so)").unwrap();
    assert!(m.is_lib());
    let m = TgMetaNode::new(b"x".to_vec(), b"0x1: f (a.c:1)").unwrap();
    assert!(!m.is_lib());
}

#[test]
fn src_loc_new_parses_hex_address() {
    let loc = SrcLoc::new(b"0x1F", b"a.c".to_vec(), Some(3), b"f".to_vec()).unwrap();
    assert_eq!(loc.addr, 0x1F);
    let err = SrcLoc::new(b"0xZZ", b"a.c".to_vec(), None, b"f".to_vec()).unwrap_err();
    assert_eq!(err, MetaError::BadAddress);
}

#[test]
fn complete_info_applies_resolver_and_search() {
    let mut loc = SrcLoc::new_u64(0x10, b"a.c".to_vec(), None, b"f".to_vec());
    loc.complete_info(
        Some((b"b.c".to_vec(), 7)),
        Some((Some(b"./src/b.c".to_vec()), b"x = y;".to_vec())),
    );
    assert_eq!(loc.lineno, Some(7));
    assert_eq!(loc.file, b"./src/b.c".to_vec());
    assert_eq!(loc.src_line, Some(b"x = y;".to_vec()));
}

#[test]
fn complete_info_keeps_parsed_line_number() {
    let mut loc = SrcLoc::new_u64(0x10, b"a.c".to_vec(), Some(4), b"f".to_vec());
    // a parsed line number is never overwritten by the resolver
    loc.complete_info(Some((b"b.c".to_vec(), 7)), None);
    assert_eq!(loc.lineno, Some(4));
    assert_eq!(loc.file, b"a.c".to_vec());
    assert!(loc.src_line.is_none());
}

#[test]
fn meta_db_insert_and_get() {
    let mut db = MetaDB::new();
    assert!(db.get_by_idx(0).is_none());
    let m = TgMetaNode::new(b"l".to_vec(), b"0x1: f (a.c:1)").unwrap();
    db.insert(3, m);
    assert_eq!(db.get_by_idx(3).unwrap().loc.addr, 1);
    assert!(db.get_by_idx(2).is_none());
}

#[test]
fn debug_info_db_memoizes() {
    let mut db = DebugInfoDb::new();
    assert!(!db.contains(b"/tmp/a.out", 0x40));
    assert!(db.lookup(b"/tmp/a.out", 0x40).is_none());
    db.record(b"/tmp/a.out".to_vec(), 0x40, Some((b"a.c".to_vec(), 12)));
    db.record(b"/tmp/a.out".to_vec(), 0x41, None);
    assert!(db.contains(b"/tmp/a.out", 0x40));
    assert_eq!(
        db.lookup(b"/tmp/a.out", 0x40),
        Some(Some((b"a.c".to_vec(), 12)))
    );
    assert_eq!(db.lookup(b"/tmp/a.out", 0x41), Some(None));
    assert!(!db.contains(b"/tmp/b.out", 0x40));
}

#[test]
fn var_table_records_definitions() {
    let mut t = VarTable::new();
    assert!(t.get(b"x").is_none());
    t.insert(b"x".to_vec(), 5);
    t.insert(b"y".to_vec(), 9);
    assert_eq!(t.get(b"x"), Some(5));
    assert_eq!(t.get(b"y"), Some(9));
    assert!(t.get(b"z").is_none());
}

#[test]
fn metadata_kept_for_definitions_and_sinks() {
    let mut g = Graph::new(Options::default());
    let mut db = MetaDB::new();
    let lines: [&str; 3] = [
        "0x1: f (a.c:1) | p = Mul a b | u | v | p <- undef",
        "0x2: g (b.c:2) | t = Ld | u | v | t <*- p",
        "0x9: h (c.c:9) | w = St | u | v | q, r",
    ];
    for line in &lines {
        g.ingest_line(line.as_bytes(), false, &mut db).unwrap();
    }
    // the definition and the sink both carry metadata
    let m0 = db.get_by_idx(0).unwrap();
    assert_eq!(m0.loc.func, b"f".to_vec());
    assert_eq!(m0.loc.lineno, Some(1));
    let m1 = db.get_by_idx(1).unwrap();
    assert_eq!(m1.loc.func, b"g".to_vec());
    assert_eq!(m1.line, lines[1].as_bytes().to_vec());
    // the third line defines nothing and is no sink: nothing is kept
    assert!(db.get_by_idx(2).is_none());
}

#[test]
fn options_defaults() {
    let o = Options::default();
    assert!(o.color);
    assert_eq!(o.verbosity, 10);
    assert!(!o.unique_locs);
    assert!(!o.no_libs);
    assert!(!o.no_tmp_instr);
    assert!(!o.src_only);
    assert!(!o.taintgrind_trace);
    assert!(!o.mark_trace);
    assert!(!o.mark_taint);
    assert!(o.sink_lines.is_empty());
    assert!(o.logfile.is_empty());
}
