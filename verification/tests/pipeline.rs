//! End-to-end test of the audit pipeline on simulated build facts,
//! and tests of the feature-string splitting.

use trawl::accumulator::{extract_invocation_facts, InvocationLog};
use trawl::args::split_features;
use trawl::classify::{find_rs_files_in_packages, FileRole, Package, Target, TargetKind};
use trawl::dep_info::parse_rustc_dep_info;
use trawl::file_set::SourceFileSet;
use trawl::scan::{scan_parsed_file, AstNode, ConstructKind, Finding};

fn s(x: &str) -> String {
    x.to_string()
}

/// Package A holds a library root with one unsafe function; package B
/// holds a library root without unsafe code; A depends on B.  Both
/// compile fully, so the audit yields exactly one finding and no
/// never-scanned warning.
#[test]
fn two_packages_one_finding_no_warnings() {
    let a_lib = s("/w/a/src/lib.rs");
    let b_lib = s("/w/b/src/lib.rs");

    // The interceptor observes one compiler invocation per package.
    let mut log = InvocationLog::new();
    for (root, out_dir) in [(&a_lib, s("/t/debug/a")), (&b_lib, s("/t/debug/b"))] {
        let args = vec![s("--crate-name"), s("x"), root.clone(), s("--out-dir"), out_dir];
        let facts = extract_invocation_facts(&args).unwrap();
        log.record_invocation(&facts.rs_files, facts.out_dir);
    }

    // The listings found under the recorded output directories.
    let listing_a = "a.rmeta: /w/a/src/lib.rs\n";
    let listing_b = "b.rmeta: /w/b/src/lib.rs\n";

    let mut set = SourceFileSet::new();
    for listing in [listing_a, listing_b] {
        for entry in parse_rustc_dep_info(listing).unwrap() {
            set.merge_inputs(&entry.inputs);
        }
    }
    set.merge_inputs(&log.rs_file_args.items);
    assert_eq!(set.len(), 2);

    // Classification of both packages' files.
    let packs = vec![
        Package {
            name: s("a"),
            targets: vec![Target { kind: TargetKind::Lib, src_path: a_lib.clone() }],
        },
        Package {
            name: s("b"),
            targets: vec![Target { kind: TargetKind::Lib, src_path: b_lib.clone() }],
        },
    ];
    let walked = vec![vec![a_lib.clone()], vec![b_lib.clone()]];
    let records = find_rs_files_in_packages(&packs, &walked);
    assert_eq!(records.len(), 2);
    assert!(records.iter().all(|(_, r)| r.role() == FileRole::LibRoot));

    // The parser's trees: one unsafe function in A, nothing in B.
    let tree_a = AstNode {
        unsafe_kind: None,
        is_test: false,
        location: s("a"),
        children: vec![AstNode {
            unsafe_kind: Some(ConstructKind::Function),
            is_test: false,
            location: s("a::fast_path"),
            children: vec![],
        }],
    };
    let tree_b =
        AstNode { unsafe_kind: None, is_test: false, location: s("b"), children: vec![] };

    let mut findings: Vec<Finding> = Vec::new();
    for (pack_name, record) in &records {
        let tree = if record.as_path_buf() == &a_lib { &tree_a } else { &tree_b };
        let ok = scan_parsed_file(
            &mut set,
            pack_name,
            record.as_path_buf(),
            Some(tree),
            false,
            true,
            &mut findings,
        )
        .unwrap();
        assert!(ok);
    }

    assert_eq!(findings.len(), 1);
    assert_eq!(findings[0].package, s("a"));
    assert_eq!(findings[0].file, a_lib);
    assert_eq!(findings[0].location, s("a::fast_path"));
    assert_eq!(findings[0].kind, ConstructKind::Function);
    assert_eq!(set.unscanned().len(), 0);
}

#[test]
fn features_split_at_whitespace_and_commas() {
    let r = split_features(&Some(s("alpha beta,gamma")));
    assert_eq!(r, vec![s("alpha"), s("beta"), s("gamma")]);
}

#[test]
fn empty_feature_names_are_dropped() {
    let r = split_features(&Some(s(" ,alpha,,beta, ")));
    assert_eq!(r, vec![s("alpha"), s("beta")]);
    assert_eq!(split_features(&Some(s(""))), Vec::<String>::new());
}

#[test]
fn no_feature_string_activates_nothing() {
    assert_eq!(split_features(&None), Vec::<String>::new());
}

#[test]
fn packages_tag_their_own_records() {
    let packs = vec![
        Package { name: s("one"), targets: vec![] },
        Package {
            name: s("two"),
            targets: vec![Target { kind: TargetKind::Bin, src_path: s("/two/src/main.rs") }],
        },
    ];
    let walked = vec![vec![s("/one/src/lib.rs")], vec![s("/two/src/main.rs")]];
    let records = find_rs_files_in_packages(&packs, &walked);
    assert_eq!(records.len(), 2);
    assert_eq!(records[0].0, s("one"));
    assert_eq!(records[0].1.role(), FileRole::Other);
    assert_eq!(records[1].0, s("two"));
    assert_eq!(records[1].1.role(), FileRole::BinRoot);
}
