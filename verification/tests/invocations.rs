//! Tests of invocation-argument reading and the shared accumulator.

use trawl::accumulator::{extract_invocation_facts, ExecArgError, InvocationLog};

fn s(x: &str) -> String {
    x.to_string()
}

#[test]
fn reads_out_dir_and_source_arguments() {
    let args = vec![
        s("--crate-name"),
        s("foo"),
        s("src/lib.rs"),
        s("--out-dir"),
        s("/t/debug/deps"),
        s("--emit=metadata"),
    ];
    let facts = extract_invocation_facts(&args).unwrap();
    assert_eq!(facts.out_dir, s("/t/debug/deps"));
    assert_eq!(facts.rs_files, vec![s("src/lib.rs")]);
}

#[test]
fn source_suffix_matches_in_any_letter_case() {
    let args = vec![s("A.RS"), s("b.Rs"), s("c.rS"), s("d.rson"), s("--out-dir"), s("/o")];
    let facts = extract_invocation_facts(&args).unwrap();
    assert_eq!(facts.rs_files, vec![s("A.RS"), s("b.Rs"), s("c.rS")]);
}

#[test]
fn missing_out_dir_key_is_reported() {
    let args = vec![s("--crate-name"), s("foo"), s("src/lib.rs")];
    match extract_invocation_facts(&args) {
        Err(ExecArgError::OutDirKeyMissing) => {}
        _ => panic!("expected the missing-key failure"),
    }
}

#[test]
fn out_dir_key_without_value_is_reported() {
    let args = vec![s("src/lib.rs"), s("--out-dir")];
    match extract_invocation_facts(&args) {
        Err(ExecArgError::OutDirValueMissing) => {}
        _ => panic!("expected the missing-value failure"),
    }
}

#[test]
fn first_out_dir_key_decides() {
    let args = vec![s("--out-dir"), s("/first"), s("--out-dir"), s("/second")];
    let facts = extract_invocation_facts(&args).unwrap();
    assert_eq!(facts.out_dir, s("/first"));
}

#[test]
fn parallel_registrations_lose_no_entry() {
    let paths: Vec<String> = (0..8).map(|i| format!("/w/src/f{}.rs", i)).collect();

    let mut forward = InvocationLog::new();
    for (i, p) in paths.iter().enumerate() {
        forward.record_invocation(&vec![p.clone()], format!("/t/out{}", i));
    }
    let mut backward = InvocationLog::new();
    for (i, p) in paths.iter().enumerate().rev() {
        backward.record_invocation(&vec![p.clone()], format!("/t/out{}", i));
    }

    assert_eq!(forward.rs_file_args.len(), 8);
    assert_eq!(backward.rs_file_args.len(), 8);
    assert_eq!(forward.out_dir_args.len(), 8);
    for p in &paths {
        assert!(forward.rs_file_args.contains(p));
        assert!(backward.rs_file_args.contains(p));
    }
}

#[test]
fn reregistration_adds_nothing() {
    let mut log = InvocationLog::new();
    log.record_invocation(&vec![s("/w/a.rs"), s("/w/b.rs")], s("/t/out"));
    log.record_invocation(&vec![s("/w/b.rs"), s("/w/a.rs")], s("/t/out"));
    assert_eq!(log.rs_file_args.len(), 2);
    assert_eq!(log.out_dir_args.len(), 1);
}
