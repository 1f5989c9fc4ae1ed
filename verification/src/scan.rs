//! The scan of one parsed source file.  A language-specific parser
//! (an outside capability, run by the caller) turns a file into a
//! tree of nodes; this module walks that tree depth first and yields
//! one finding per safety-opt-out construct.  Nested constructs are
//! each reported, never collapsed.  A switch controls whether
//! test-only regions are visited at all: when they are excluded, a
//! test-marked subtree is skipped whole, at any depth.

use vstd::prelude::*;

use crate::file_set::{SourceFileSet, mark_scanned_map};

verus! {

/// The kind of construct that disables the language's safety checks.
#[derive(Clone, Copy, Debug, PartialEq, Eq, Structural)]
pub enum ConstructKind {
    Block,
    Function,
    TraitImpl,
    TraitDecl,
    ModuleAnnotation,
}

/// One node of the parsed tree, as the scanner reads it: whether the
/// node itself is a safety-opt-out construct, whether its subtree is
/// a test-only region, where it stands, and its children in source
/// order.
pub struct AstNode {
    pub unsafe_kind: Option<ConstructKind>,
    pub is_test: bool,
    pub location: String,
    pub children: Vec<AstNode>,
}

/// One reported occurrence, immutable once emitted.
pub struct Finding {
    pub package: String,
    pub file: String,
    pub location: String,
    pub kind: ConstructKind,
}

impl View for Finding {
    type V = (Seq<char>, ConstructKind);

    open spec fn view(&self) -> (Seq<char>, ConstructKind) {
        (self.location@, self.kind)
    }
}

/// The locations and kinds a depth-first walk of `n` yields: nothing
/// from an excluded test region, else the node's own construct first,
/// then its children's in order.
pub open spec fn node_findings(n: AstNode, include_tests: bool) -> Seq<
    (Seq<char>, ConstructKind),
>
    decreases n,
{
    if n.is_test && !include_tests {
        seq![]
    } else {
        (match n.unsafe_kind {
            Some(k) => seq![(n.location@, k)],
            None => seq![],
        }) + nodes_findings(n.children@, include_tests)
    }
}

/// The findings of a forest, in order.
pub open spec fn nodes_findings(s: Seq<AstNode>, include_tests: bool) -> Seq<
    (Seq<char>, ConstructKind),
>
    decreases s,
{
    if s.len() == 0 {
        seq![]
    } else {
        node_findings(s[0], include_tests) + nodes_findings(s.drop_first(), include_tests)
    }
}

/// The location-and-kind views of emitted findings.
pub open spec fn findings_views(v: Seq<Finding>) -> Seq<(Seq<char>, ConstructKind)> {
    Seq::new(v.len(), |i: int| v[i]@)
}

/// Walks the parsed tree of one file depth first and appends one
/// finding per safety-opt-out construct, each carrying the package
/// and file it was found in.
pub fn find_unsafe_in_node(
    n: &AstNode,
    include_tests: bool,
    package: &String,
    file: &String,
    out: &mut Vec<Finding>,
)
    ensures
        final(out)@.len() == old(out)@.len() + node_findings(*n, include_tests).len(),
        final(out)@.take(old(out)@.len() as int) == old(out)@,
        findings_views(final(out)@.skip(old(out)@.len() as int)) == node_findings(
            *n,
            include_tests,
        ),
        forall|i: int|
            old(out)@.len() <= i < final(out)@.len() ==> (#[trigger] final(out)@[i]).package@
                == package@ && final(out)@[i].file@ == file@,
    decreases *n,
{
    let ghost base = out@;
    if n.is_test && !include_tests {
        proof {
            assert(final(out)@.take(base.len() as int) =~= base);
            assert(findings_views(final(out)@.skip(base.len() as int)) =~= node_findings(
                *n,
                include_tests,
            ));
        }
        return ;
    }
    let ghost head = match n.unsafe_kind {
        Some(k) => seq![(n.location@, k)],
        None => Seq::<(Seq<char>, ConstructKind)>::empty(),
    };
    match &n.unsafe_kind {
        Some(k) => {
            let f = Finding {
                package: package.clone(),
                file: file.clone(),
                location: n.location.clone(),
                kind: *k,
            };
            out.push(f);
        },
        None => {},
    }
    proof {
        assert(out@.take(base.len() as int) =~= base);
        assert(findings_views(out@.skip(base.len() as int)) =~= head);
    }
    let m = n.children.len();
    let mut j: usize = 0;
    proof {
        assert(n.children@.skip(0) =~= n.children@);
    }
    while j < m
        invariant
            j <= m,
            m == n.children@.len(),
            out@.len() >= base.len(),
            out@.take(base.len() as int) == base,
            head + nodes_findings(n.children@, include_tests) == findings_views(out@.skip(
                base.len() as int,
            )) + nodes_findings(n.children@.skip(j as int), include_tests),
            forall|i: int|
                base.len() <= i < out@.len() ==> (#[trigger] out@[i]).package@ == package@
                    && out@[i].file@ == file@,
        decreases m - j,
    {
        let ghost rest = n.children@.skip(j as int);
        let ghost mid = out@;
        proof {
            assert(rest[0] == n.children@[j as int]);
            assert(rest.drop_first() =~= n.children@.skip(j + 1));
            assert(nodes_findings(rest, include_tests) == node_findings(rest[0], include_tests)
                + nodes_findings(rest.drop_first(), include_tests));
            assert(decreases_to!(*n => n.children@[j as int]));
        }
        find_unsafe_in_node(&n.children[j], include_tests, package, file, out);
        proof {
            assert(out@.take(base.len() as int) =~= mid.take(base.len() as int));
            assert(findings_views(out@.skip(base.len() as int)) =~= findings_views(mid.skip(
                base.len() as int,
            )) + findings_views(out@.skip(mid.len() as int)));
            assert(findings_views(out@.skip(mid.len() as int)) == node_findings(
                n.children@[j as int],
                include_tests,
            ));
            assert(head + nodes_findings(n.children@, include_tests) =~= findings_views(
                out@.skip(base.len() as int),
            ) + nodes_findings(n.children@.skip(j + 1), include_tests));
            assert forall|i: int|
                base.len() <= i < out@.len() implies (#[trigger] out@[i]).package@ == package@
                && out@[i].file@ == file@ by {
                if i < mid.len() {
                    assert(out@.take(mid.len() as int) == mid);
                    assert(out@[i] == out@.take(mid.len() as int)[i]);
                }
            }
        }
        j = j + 1;
    }
    proof {
        assert(n.children@.skip(m as int) =~= Seq::<AstNode>::empty());
        assert(nodes_findings(Seq::<AstNode>::empty(), include_tests) == Seq::<
            (Seq<char>, ConstructKind),
        >::empty());
        assert(findings_views(out@.skip(base.len() as int)) =~= head + nodes_findings(
            n.children@,
            include_tests,
        ));
        assert(node_findings(*n, include_tests) == head + nodes_findings(
            n.children@,
            include_tests,
        ));
    }
}

/// No node of this subtree is marked as a test-only region.
pub open spec fn no_test_regions(n: AstNode) -> bool
    decreases n,
{
    !n.is_test && forest_no_test_regions(n.children@)
}

/// No node of this forest is marked as a test-only region.
pub open spec fn forest_no_test_regions(s: Seq<AstNode>) -> bool
    decreases s,
{
    s.len() == 0 || (no_test_regions(s[0]) && forest_no_test_regions(s.drop_first()))
}

/// A test-marked region contributes nothing while tests are excluded,
/// wherever in the tree it stands.
pub proof fn lemma_test_region_excluded(n: AstNode)
    requires
        n.is_test,
    ensures
        node_findings(n, false) == Seq::<(Seq<char>, ConstructKind)>::empty(),
{
}

/// In a tree without test-only regions the test switch changes
/// nothing: both settings yield the same findings.
pub proof fn lemma_test_flag_moot(n: AstNode)
    requires
        no_test_regions(n),
    ensures
        node_findings(n, false) == node_findings(n, true),
    decreases n,
{
    lemma_forest_test_flag_moot(n.children@);
}

/// The forest form of `lemma_test_flag_moot`.
pub proof fn lemma_forest_test_flag_moot(s: Seq<AstNode>)
    requires
        forest_no_test_regions(s),
    ensures
        nodes_findings(s, false) == nodes_findings(s, true),
    decreases s,
{
    if s.len() > 0 {
        lemma_test_flag_moot(s[0]);
        lemma_forest_test_flag_moot(s.drop_first());
    }
}

/// Why a file could not be scanned: its parse failed while partial
/// results are not allowed.
#[derive(Debug, PartialEq, Eq)]
pub enum ScanError {
    ParseFailed,
}

/// The scan step for one classified file of a package in the
/// reconciled set.  The file's scan count is raised first; then, if
/// the parser produced a tree, its findings are appended.  A file
/// whose parse failed is passed over with `Ok(false)` (the caller
/// warns) when partial results are allowed — the default — and is
/// fatal otherwise.  Findings already emitted are never retracted.
pub fn scan_parsed_file(
    set: &mut SourceFileSet,
    package: &String,
    file: &String,
    parsed: Option<&AstNode>,
    include_tests: bool,
    allow_partial_results: bool,
    out: &mut Vec<Finding>,
) -> (r: Result<bool, ScanError>)
    requires
        old(set).wf(),
    ensures
        final(set).wf(),
        final(set)@ == mark_scanned_map(old(set)@, file@),
        match r {
            Ok(true) => parsed is Some && final(out)@.len() == old(out)@.len() + node_findings(
                *parsed.unwrap(),
                include_tests,
            ).len() && final(out)@.take(old(out)@.len() as int) == old(out)@ && findings_views(
                final(out)@.skip(old(out)@.len() as int),
            ) == node_findings(*parsed.unwrap(), include_tests) && forall|i: int|
                old(out)@.len() <= i < final(out)@.len() ==> (#[trigger] final(out)@[i]).package@
                    == package@ && final(out)@[i].file@ == file@,
            Ok(false) => parsed is None && allow_partial_results && final(out)@ == old(out)@,
            Err(ScanError::ParseFailed) => parsed is None && !allow_partial_results
                && final(out)@ == old(out)@,
        },
{
    set.mark_scanned(file);
    match parsed {
        Some(tree) => {
            find_unsafe_in_node(tree, include_tests, package, file, out);
            Ok(true)
        },
        None => {
            if allow_partial_results {
                Ok(false)
            } else {
                Err(ScanError::ParseFailed)
            }
        },
    }
}

} // verus!
