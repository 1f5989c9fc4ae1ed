//! Tests of file classification and the syntax-tree walk.

use trawl::classify::{
    find_rs_files_in_package, into_rs_code_file, is_file_with_ext, FileRole, Target, TargetKind,
};
use trawl::scan::{find_unsafe_in_node, scan_parsed_file, AstNode, ConstructKind, Finding,
    ScanError};
use trawl::file_set::SourceFileSet;

fn s(x: &str) -> String {
    x.to_string()
}

fn leaf(kind: Option<ConstructKind>, is_test: bool, loc: &str) -> AstNode {
    AstNode { unsafe_kind: kind, is_test, location: s(loc), children: vec![] }
}

#[test]
fn one_path_under_two_kinds_yields_both_records() {
    let targets = vec![
        Target { kind: TargetKind::Lib, src_path: s("/p/src/lib.rs") },
        Target { kind: TargetKind::Bin, src_path: s("/p/src/lib.rs") },
    ];
    let files = vec![s("/p/src/lib.rs"), s("/p/src/util.rs")];
    let records = find_rs_files_in_package(&targets, &files);
    let views: Vec<(FileRole, String)> =
        records.iter().map(|r| (r.role(), r.as_path_buf().clone())).collect();
    assert!(views.contains(&(FileRole::LibRoot, s("/p/src/lib.rs"))));
    assert!(views.contains(&(FileRole::BinRoot, s("/p/src/lib.rs"))));
    assert!(views.contains(&(FileRole::Other, s("/p/src/util.rs"))));
    assert_eq!(records.len(), 3);
}

#[test]
fn unclaimed_files_keep_walk_order() {
    let targets = vec![Target { kind: TargetKind::Lib, src_path: s("/p/src/lib.rs") }];
    let files = vec![s("/p/src/b.rs"), s("/p/src/lib.rs"), s("/p/src/a.rs")];
    let records = find_rs_files_in_package(&targets, &files);
    assert_eq!(records.len(), 3);
    assert_eq!(records[0].as_path_buf(), &s("/p/src/b.rs"));
    assert_eq!(records[0].role(), FileRole::Other);
    assert_eq!(records[1].as_path_buf(), &s("/p/src/a.rs"));
    assert_eq!(records[2].role(), FileRole::LibRoot);
}

#[test]
fn target_kinds_map_to_their_roles() {
    assert_eq!(into_rs_code_file(&TargetKind::Lib, s("/x")).role(), FileRole::LibRoot);
    assert_eq!(into_rs_code_file(&TargetKind::Bin, s("/x")).role(), FileRole::BinRoot);
    assert_eq!(
        into_rs_code_file(&TargetKind::CustomBuild, s("/x")).role(),
        FileRole::CustomBuildRoot
    );
    assert_eq!(into_rs_code_file(&TargetKind::Test, s("/x")).role(), FileRole::Other);
    assert_eq!(into_rs_code_file(&TargetKind::Bench, s("/x")).role(), FileRole::Other);
    assert_eq!(into_rs_code_file(&TargetKind::ExampleLib, s("/x")).role(), FileRole::Other);
    assert_eq!(into_rs_code_file(&TargetKind::ExampleBin, s("/x")).role(), FileRole::Other);
}

#[test]
fn extension_filter_matches_path_rules() {
    assert!(is_file_with_ext(true, &s("lib.rs"), &s("rs")));
    assert!(is_file_with_ext(true, &s("archive.tar.gz"), &s("gz")));
    assert!(!is_file_with_ext(true, &s("lib.rs"), &s("d")));
    assert!(!is_file_with_ext(true, &s("no_extension"), &s("rs")));
    assert!(!is_file_with_ext(true, &s(".hidden"), &s("hidden")));
    assert!(is_file_with_ext(true, &s("..rs"), &s("rs")));
    assert!(!is_file_with_ext(false, &s("lib.rs"), &s("rs")));
}

#[test]
fn test_region_counts_only_when_included() {
    let tree = AstNode {
        unsafe_kind: None,
        is_test: false,
        location: s("crate"),
        children: vec![
            leaf(Some(ConstructKind::Block), false, "crate::go"),
            AstNode {
                unsafe_kind: None,
                is_test: true,
                location: s("crate::tests"),
                children: vec![leaf(Some(ConstructKind::Block), false, "crate::tests::check")],
            },
        ],
    };
    let mut excluded: Vec<Finding> = Vec::new();
    find_unsafe_in_node(&tree, false, &s("pkg"), &s("/p/lib.rs"), &mut excluded);
    assert_eq!(excluded.len(), 1);
    assert_eq!(excluded[0].location, s("crate::go"));

    let mut included: Vec<Finding> = Vec::new();
    find_unsafe_in_node(&tree, true, &s("pkg"), &s("/p/lib.rs"), &mut included);
    assert_eq!(included.len(), 2);
    assert_eq!(included[1].location, s("crate::tests::check"));
}

#[test]
fn nested_test_regions_are_skipped_at_any_depth() {
    let tree = AstNode {
        unsafe_kind: None,
        is_test: false,
        location: s("crate"),
        children: vec![AstNode {
            unsafe_kind: None,
            is_test: false,
            location: s("crate::outer"),
            children: vec![AstNode {
                unsafe_kind: None,
                is_test: true,
                location: s("crate::outer::tests"),
                children: vec![AstNode {
                    unsafe_kind: None,
                    is_test: false,
                    location: s("crate::outer::tests::inner"),
                    children: vec![leaf(
                        Some(ConstructKind::Function),
                        false,
                        "crate::outer::tests::inner::f",
                    )],
                }],
            }],
        }],
    };
    let mut excluded: Vec<Finding> = Vec::new();
    find_unsafe_in_node(&tree, false, &s("pkg"), &s("/p/lib.rs"), &mut excluded);
    assert_eq!(excluded.len(), 0);
    let mut included: Vec<Finding> = Vec::new();
    find_unsafe_in_node(&tree, true, &s("pkg"), &s("/p/lib.rs"), &mut included);
    assert_eq!(included.len(), 1);
}

#[test]
fn nested_constructs_are_each_reported() {
    let tree = AstNode {
        unsafe_kind: Some(ConstructKind::Function),
        is_test: false,
        location: s("crate::f"),
        children: vec![leaf(Some(ConstructKind::Block), false, "crate::f::b")],
    };
    let mut out: Vec<Finding> = Vec::new();
    find_unsafe_in_node(&tree, false, &s("pkg"), &s("/p/lib.rs"), &mut out);
    assert_eq!(out.len(), 2);
    assert_eq!(out[0].kind, ConstructKind::Function);
    assert_eq!(out[1].kind, ConstructKind::Block);
}

#[test]
fn parse_failure_is_passed_over_in_partial_mode() {
    let mut set = SourceFileSet::new();
    set.insert_missing(s("/p/broken.rs"));
    let mut out: Vec<Finding> = Vec::new();
    let r = scan_parsed_file(&mut set, &s("pkg"), &s("/p/broken.rs"), None, false, true, &mut out);
    assert_eq!(r, Ok(false));
    assert_eq!(out.len(), 0);
    assert_eq!(set.count_of(&s("/p/broken.rs")), Some(1));
}

#[test]
fn parse_failure_is_fatal_outside_partial_mode() {
    let mut set = SourceFileSet::new();
    set.insert_missing(s("/p/broken.rs"));
    let mut out: Vec<Finding> = Vec::new();
    let r = scan_parsed_file(&mut set, &s("pkg"), &s("/p/broken.rs"), None, false, false, &mut out);
    assert_eq!(r, Err(ScanError::ParseFailed));
    assert_eq!(set.count_of(&s("/p/broken.rs")), Some(1));
}
