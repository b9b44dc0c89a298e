//! Unit tests of the log-line grammar and the numeric parsers.

use tgproc::bytes::contains_sub;
use tgproc::bytes::count_digits10;
use tgproc::bytes::parse_dec_usize;
use tgproc::bytes::parse_hex_u64;
use tgproc::bytes::split_bytes;
use tgproc::parse::Clause;
use tgproc::parse::LineParts;
use tgproc::parse::LocParts;
use tgproc::parse::if_cond_exec;
use tgproc::parse::is_tmp_var;
use tgproc::parse::sub_subtrahend_exec;
use tgproc::parse::ternary_cond_exec;
use tgproc::tgnode::Taint;

#[test]
fn line_splits_into_five_fields() {
    let lp = LineParts::new(b"LOC | CMD | x | y | FLOW").unwrap();
    assert_eq!(lp.loc, b"LOC".to_vec());
    assert_eq!(lp.cmd, b"CMD".to_vec());
    assert_eq!(lp.flow, b"FLOW".to_vec());
}

#[test]
fn line_with_extra_fields_keeps_fifth() {
    let lp = LineParts::new(b"a | b | c | d | e | f").unwrap();
    assert_eq!(lp.flow, b"e".to_vec());
}

#[test]
fn short_line_is_rejected() {
    assert!(LineParts::new(b"a | b | c | d").is_none());
}

#[test]
fn plain_clause_parses() {
    match Clause::parse(b"t54_1741 <- t42_1773, t29_4179") {
        Clause::Assign { lhs, rhs } => {
            assert_eq!(lhs, b"t54_1741".to_vec());
            assert_eq!(rhs, vec![b"t42_1773".to_vec(), b"t29_4179".to_vec()]);
        }
        _ => panic!("expected a plain clause"),
    }
}

#[test]
fn dereference_clause_parses() {
    match Clause::parse(b"t78_744 <*- t72_268") {
        Clause::Mem { rhs } => assert_eq!(rhs, vec![b"t72_268".to_vec()]),
        _ => panic!("expected a memory clause"),
    }
}

#[test]
fn store_clause_parses() {
    match Clause::parse(b"t78_744 <-*- t72_268") {
        Clause::Mem { rhs } => assert_eq!(rhs, vec![b"t72_268".to_vec()]),
        _ => panic!("expected a memory clause"),
    }
}

#[test]
fn bare_clause_parses() {
    match Clause::parse(b"t54_1741, t1_2") {
        Clause::Bare { vars } => {
            assert_eq!(vars, vec![b"t54_1741".to_vec(), b"t1_2".to_vec()])
        }
        _ => panic!("expected a bare clause"),
    }
}

#[test]
fn loc_with_line_number_parses() {
    let p = LocParts::parse(b"0x40080D: main (two-taints.c:10)").unwrap();
    assert_eq!(p.addr, b"40080D".to_vec());
    assert_eq!(p.func, b"main".to_vec());
    assert_eq!(p.file, b"two-taints.c".to_vec());
    assert_eq!(p.lineno, Some(b"10".to_vec()));
}

#[test]
fn loc_with_object_parses() {
    let p = LocParts::parse(b"0x40080D: main (in /tmp/a.out)").unwrap();
    assert_eq!(p.addr, b"40080D".to_vec());
    assert_eq!(p.func, b"main".to_vec());
    assert_eq!(p.file, b"/tmp/a.out".to_vec());
    assert_eq!(p.lineno, None);
}

#[test]
fn loc_without_paren_is_rejected() {
    assert!(LocParts::parse(b"0x1: main").is_none());
    assert!(LocParts::parse(b"garbage").is_none());
}

#[test]
fn subtrahend_is_last_operand() {
    assert_eq!(sub_subtrahend_exec(b"Sub32 t1 t2"), Some(b"t2".to_vec()));
    assert_eq!(sub_subtrahend_exec(b"Sub8 a b"), Some(b"b".to_vec()));
    assert_eq!(sub_subtrahend_exec(b"Sub32 lone"), None);
    assert_eq!(sub_subtrahend_exec(b"Add t1 t2"), None);
    assert_eq!(sub_subtrahend_exec(b"Sub325 a b"), None);
}

#[test]
fn if_condition_is_first_word() {
    assert_eq!(if_cond_exec(b"IF t3 goto 0x1"), Some(b"t3".to_vec()));
    assert_eq!(if_cond_exec(b"IF t3"), None);
    assert_eq!(if_cond_exec(b"IFt3 goto"), None);
}

#[test]
fn ternary_condition_is_extracted() {
    assert_eq!(ternary_cond_exec(b"t2 = p ? x : y"), Some(b"p".to_vec()));
    assert_eq!(ternary_cond_exec(b"t2 = p ? x"), None);
}

#[test]
fn tmp_var_shape() {
    assert!(is_tmp_var(b"t54_1741"));
    assert!(is_tmp_var(b"t1_2"));
    assert!(!is_tmp_var(b"t54"));
    assert!(!is_tmp_var(b"x1_2"));
    assert!(!is_tmp_var(b"t_2"));
    assert!(!is_tmp_var(b"t1_"));
}

#[test]
fn hex_parsing() {
    assert_eq!(parse_hex_u64(b"40080D"), Some(0x40080D));
    assert_eq!(parse_hex_u64(b"ff"), Some(255));
    assert_eq!(parse_hex_u64(b"FFFFFFFFFFFFFFFF"), Some(u64::MAX));
    assert_eq!(parse_hex_u64(b"10000000000000000"), None);
    assert_eq!(parse_hex_u64(b""), None);
    assert_eq!(parse_hex_u64(b"xyz"), None);
}

#[test]
fn dec_parsing() {
    assert_eq!(parse_dec_usize(b"10"), Some(10));
    assert_eq!(parse_dec_usize(b"0"), Some(0));
    assert_eq!(parse_dec_usize(b""), None);
    assert_eq!(parse_dec_usize(b"1a"), None);
}

#[test]
fn digit_count() {
    assert_eq!(count_digits10(0), 1);
    assert_eq!(count_digits10(9), 1);
    assert_eq!(count_digits10(10), 2);
    assert_eq!(count_digits10(12345), 5);
}

#[test]
fn split_and_contains() {
    let parts = split_bytes(b"a; b; c", b"; ");
    assert_eq!(parts, vec![b"a".to_vec(), b"b".to_vec(), b"c".to_vec()]);
    let parts = split_bytes(b"one", b"; ");
    assert_eq!(parts, vec![b"one".to_vec()]);
    assert!(contains_sub(b"0x1: _Exit (a.c:1)", b" _Exit "));
    assert!(!contains_sub(b"0x1: main (a.c:1)", b" _Exit "));
}

#[test]
fn taint_abbreviations() {
    assert_eq!(Taint::Red.abbrv(), "R");
    assert_eq!(Taint::Blue.abbrv(), "B");
    assert_eq!(Taint::Green.abbrv(), "G");
}
