//! Tests of the dependency-listing parser and the reconciled file set.

use trawl::dep_info::parse_rustc_dep_info;
use trawl::file_set::SourceFileSet;

fn s(x: &str) -> String {
    x.to_string()
}

#[test]
fn continuation_restores_embedded_space() {
    let entries = parse_rustc_dep_info("out/obj: a\\ b.rs c.rs").unwrap();
    assert_eq!(entries.len(), 1);
    assert_eq!(entries[0].product, s("out/obj"));
    assert_eq!(entries[0].inputs, vec![s("a b.rs"), s("c.rs")]);
}

#[test]
fn several_continuations_in_one_token() {
    let entries = parse_rustc_dep_info("t: a\\ b\\ c.rs").unwrap();
    assert_eq!(entries[0].inputs, vec![s("a b c.rs")]);
}

#[test]
fn lines_without_mapping_are_passed_over() {
    let entries = parse_rustc_dep_info("# comment\nout: x.rs\n\njust text").unwrap();
    assert_eq!(entries.len(), 1);
    assert_eq!(entries[0].product, s("out"));
    assert_eq!(entries[0].inputs, vec![s("x.rs")]);
}

#[test]
fn several_entry_lines_keep_order() {
    let entries = parse_rustc_dep_info("a: one.rs\nb: two.rs three.rs\n").unwrap();
    assert_eq!(entries.len(), 2);
    assert_eq!(entries[0].product, s("a"));
    assert_eq!(entries[0].inputs, vec![s("one.rs")]);
    assert_eq!(entries[1].product, s("b"));
    assert_eq!(entries[1].inputs, vec![s("two.rs"), s("three.rs")]);
}

#[test]
fn windows_line_endings_read_the_same() {
    let entries = parse_rustc_dep_info("a: one.rs\r\nb: two.rs\r\n").unwrap();
    assert_eq!(entries.len(), 2);
    assert_eq!(entries[0].inputs, vec![s("one.rs")]);
    assert_eq!(entries[1].inputs, vec![s("two.rs")]);
}

#[test]
fn unfinished_continuation_is_a_parse_error() {
    let err = parse_rustc_dep_info("good: x.rs\nbad: a\\").unwrap_err();
    assert_eq!(err.line, 1);
}

#[test]
fn continuation_that_ends_in_a_backslash_still_awaits() {
    let err = parse_rustc_dep_info("bad: a\\ b\\").unwrap_err();
    assert_eq!(err.line, 0);
}

#[test]
fn empty_listing_has_no_entries() {
    let entries = parse_rustc_dep_info("").unwrap();
    assert_eq!(entries.len(), 0);
}

#[test]
fn empty_input_list_is_allowed() {
    let entries = parse_rustc_dep_info("out: ").unwrap();
    assert_eq!(entries.len(), 1);
    assert_eq!(entries[0].inputs.len(), 0);
}

#[test]
fn product_is_text_before_first_colon_space() {
    let entries = parse_rustc_dep_info("out dir/f.o: x.rs: y.rs").unwrap();
    assert_eq!(entries[0].product, s("out dir/f.o"));
    assert_eq!(entries[0].inputs, vec![s("x.rs:"), s("y.rs")]);
}

#[test]
fn reinsertion_never_resets_a_count() {
    let mut set = SourceFileSet::new();
    set.insert_missing(s("/w/a.rs"));
    set.mark_scanned(&s("/w/a.rs"));
    assert_eq!(set.count_of(&s("/w/a.rs")), Some(1));
    set.insert_missing(s("/w/a.rs"));
    assert_eq!(set.count_of(&s("/w/a.rs")), Some(1));
    set.merge_inputs(&vec![s("/w/a.rs"), s("/w/b.rs")]);
    assert_eq!(set.count_of(&s("/w/a.rs")), Some(1));
    assert_eq!(set.count_of(&s("/w/b.rs")), Some(0));
}

#[test]
fn reconciling_twice_yields_the_same_set() {
    let batch_one = vec![s("/w/a.rs"), s("/w/b.rs"), s("/w/c.rs")];
    let batch_two = vec![s("/w/c.rs"), s("/w/a.rs"), s("/w/b.rs")];

    let mut first = SourceFileSet::new();
    first.merge_inputs(&batch_one);
    let mut second = SourceFileSet::new();
    second.merge_inputs(&batch_one);
    second.merge_inputs(&batch_two);

    assert_eq!(first.len(), 3);
    assert_eq!(second.len(), 3);
    for p in &batch_one {
        assert_eq!(first.count_of(p), Some(0));
        assert_eq!(second.count_of(p), Some(0));
    }
}

#[test]
fn every_path_is_scanned_or_warned() {
    let mut set = SourceFileSet::new();
    set.merge_inputs(&vec![s("/w/a.rs"), s("/w/b.rs"), s("/w/c.rs")]);
    set.mark_scanned(&s("/w/a.rs"));
    set.mark_scanned(&s("/w/c.rs"));
    let warned = set.unscanned();
    assert_eq!(warned, vec![s("/w/b.rs")]);
    for p in [s("/w/a.rs"), s("/w/b.rs"), s("/w/c.rs")] {
        let scanned = set.count_of(&p).unwrap() >= 1;
        assert!(scanned || warned.contains(&p));
    }
}

#[test]
fn marking_an_unknown_path_records_nothing() {
    let mut set = SourceFileSet::new();
    set.insert_missing(s("/w/a.rs"));
    set.mark_scanned(&s("/w/ghost.rs"));
    assert_eq!(set.len(), 1);
    assert_eq!(set.count_of(&s("/w/ghost.rs")), None);
}

#[test]
fn tabs_separate_inputs_too() {
    let entries = parse_rustc_dep_info("out: a.rs\tb.rs").unwrap();
    assert_eq!(entries[0].inputs, vec![s("a.rs"), s("b.rs")]);
}

#[test]
fn unscanned_warnings_keep_entry_order() {
    let mut set = SourceFileSet::new();
    set.merge_inputs(&vec![s("/w/c.rs"), s("/w/a.rs"), s("/w/b.rs")]);
    assert_eq!(set.unscanned(), vec![s("/w/c.rs"), s("/w/a.rs"), s("/w/b.rs")]);
}
