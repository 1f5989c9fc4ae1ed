//! The audit's configuration, as plain values.  Argument parsing
//! itself is the host program's business; these structs carry what
//! was parsed, and `split_features` turns the single feature string
//! into the individual feature names the build is asked for.

use vstd::prelude::*;

use crate::text::{listing_tokens, split_char_sep, split_listing_tokens, split_str_on};

verus! {

/// The audit's command-line configuration.
pub struct Args {
    /// Path to output file
    pub out_path: String,
    /// Package to be used as the root of the tree
    pub package: Option<String>,
    /// Space-separated list of features to activate
    pub features: Option<String>,
    /// Activate all available features
    pub all_features: bool,
    /// Do not activate the `default` feature
    pub no_default_features: bool,
    /// Set the target triple
    pub target: Option<String>,
    /// Return dependencies for all targets. By default only the host target is matched.
    pub all_targets: bool,
    /// Path to Cargo.toml
    pub manifest_path: Option<String>,
    /// Invert the tree direction
    pub invert: bool,
    /// Number of parallel jobs, defaults to # of CPUs
    pub jobs: Option<u32>,
    /// Use verbose cargo output (-vv very verbose)
    pub verbose: u32,
    /// Omit cargo output to stdout
    pub quiet: bool,
    /// Cargo output coloring: auto, always, never
    pub color: Option<String>,
    /// Require Cargo.lock and cache are up to date
    pub frozen: bool,
    /// Require Cargo.lock is up to date
    pub locked: bool,
    /// Unstable (nightly-only) flags to Cargo
    pub unstable_flags: Vec<String>,
    /// Count unsafe usage in tests.
    pub include_tests: bool,
    /// Also analyze build dependencies
    pub build_deps: bool,
    /// Also analyze dev dependencies
    pub dev_deps: bool,
    /// Analyze all dependencies, including build and dev
    pub all_deps: bool,
}

/// The trawl subcommand's configuration: the audit's, and whether to
/// only output a build plan instead of compiling.
pub struct TrawlArgs {
    /// Output a build plan to stdout instead of actually compiling
    pub build_plan: bool,
    /// Path to output file
    pub out_path: String,
    /// Package to be used as the root of the tree
    pub package: Option<String>,
    /// Space-separated list of features to activate
    pub features: Option<String>,
    /// Activate all available features
    pub all_features: bool,
    /// Do not activate the `default` feature
    pub no_default_features: bool,
    /// Set the target triple
    pub target: Option<String>,
    /// Return dependencies for all targets. By default only the host target is matched.
    pub all_targets: bool,
    /// Path to Cargo.toml
    pub manifest_path: Option<String>,
    /// Invert the tree direction
    pub invert: bool,
    /// Number of parallel jobs, defaults to # of CPUs
    pub jobs: Option<u32>,
    /// Use verbose cargo output (-vv very verbose)
    pub verbose: u32,
    /// Omit cargo output to stdout
    pub quiet: bool,
    /// Cargo output coloring: auto, always, never
    pub color: Option<String>,
    /// Require Cargo.lock and cache are up to date
    pub frozen: bool,
    /// Require Cargo.lock is up to date
    pub locked: bool,
    /// Unstable (nightly-only) flags to Cargo
    pub unstable_flags: Vec<String>,
    /// Count unsafe usage in tests.
    pub include_tests: bool,
    /// Also analyze build dependencies
    pub build_deps: bool,
    /// Also analyze dev dependencies
    pub dev_deps: bool,
    /// Analyze all dependencies, including build and dev
    pub all_deps: bool,
}

/// The nonempty segments of `segs`, in order.
pub open spec fn nonempty_segments(segs: Seq<Seq<char>>) -> Seq<Seq<char>>
    decreases segs.len(),
{
    if segs.len() == 0 {
        seq![]
    } else if segs.last().len() > 0 {
        nonempty_segments(segs.drop_last()).push(segs.last())
    } else {
        nonempty_segments(segs.drop_last())
    }
}

/// The feature names one whitespace token carries: its nonempty
/// comma-separated pieces.
pub open spec fn comma_pieces(t: Seq<char>) -> Seq<Seq<char>> {
    nonempty_segments(split_char_sep(t, ','))
}

/// The feature names of a list of whitespace tokens, in order.
pub open spec fn features_of_tokens(ts: Seq<Seq<char>>) -> Seq<Seq<char>>
    decreases ts.len(),
{
    if ts.len() == 0 {
        seq![]
    } else {
        comma_pieces(ts[0]) + features_of_tokens(ts.drop_first())
    }
}

/// The feature names a feature string activates: its whitespace
/// tokens, each further split at commas, empty names dropped.
pub open spec fn features_of(s: Seq<char>) -> Seq<Seq<char>> {
    features_of_tokens(listing_tokens(s))
}

/// The nonempty entries of `segs`, in order.
fn keep_nonempty(segs: &Vec<String>, out: &mut Vec<String>)
    ensures
        final(out).deep_view() == old(out).deep_view() + nonempty_segments(segs.deep_view()),
{
    let ghost dv = segs.deep_view();
    let ghost base = out.deep_view();
    let n = segs.len();
    let mut i: usize = 0;
    proof {
        assert(dv.take(0) =~= Seq::<Seq<char>>::empty());
        assert(out.deep_view() =~= base + nonempty_segments(dv.take(0)));
    }
    while i < n
        invariant
            i <= n,
            n == segs@.len(),
            dv == segs.deep_view(),
            out.deep_view() == base + nonempty_segments(dv.take(i as int)),
        decreases n - i,
    {
        let ghost pre = out.deep_view();
        proof {
            assert(dv.take(i + 1).drop_last() =~= dv.take(i as int));
            assert(dv.take(i + 1).last() == dv[i as int]);
            assert(dv[i as int] == segs@[i as int]@);
        }
        if segs[i].as_str().unicode_len() > 0 {
            let p = segs[i].clone();
            out.push(p);
            proof {
                assert(out.deep_view() =~= pre.push(dv[i as int]));
                assert(pre.push(dv[i as int]) =~= base + nonempty_segments(dv.take(i + 1)));
            }
        }
        i = i + 1;
    }
    proof {
        assert(dv.take(n as int) =~= dv);
    }
}

/// The feature names the configured feature string activates, in
/// order: whitespace separates features, a comma does too, and empty
/// names are dropped; with no feature string configured, none is activated.
pub fn split_features(features: &Option<String>) -> (r: Vec<String>)
    ensures
        match features {
            Some(s) => r.deep_view() == features_of(s@),
            None => r@.len() == 0,
        },
{
    let mut out: Vec<String> = Vec::new();
    let s = match features {
        Some(s) => s,
        None => {
            return out;
        },
    };
    let toks = split_listing_tokens(s.as_str(), 0);
    let ghost tv = toks.deep_view();
    proof {
        assert(s@.skip(0) =~= s@);
        assert(tv == listing_tokens(s@));
    }
    let n = toks.len();
    let mut i: usize = 0;
    proof {
        assert(tv.skip(0) =~= tv);
        assert(out.deep_view() =~= Seq::<Seq<char>>::empty());
    }
    while i < n
        invariant
            i <= n,
            n == toks@.len(),
            tv == toks.deep_view(),
            features_of_tokens(tv) == out.deep_view() + features_of_tokens(tv.skip(i as int)),
        decreases n - i,
    {
        let ghost rest = tv.skip(i as int);
        let ghost pre = out.deep_view();
        proof {
            assert(rest[0] == tv[i as int]);
            assert(tv[i as int] == toks@[i as int]@);
            assert(rest.drop_first() =~= tv.skip(i + 1));
            assert(features_of_tokens(rest) == comma_pieces(rest[0]) + features_of_tokens(
                rest.drop_first(),
            ));
        }
        let segs = split_str_on(toks[i].as_str(), ',');
        keep_nonempty(&segs, &mut out);
        proof {
            assert(out.deep_view() == pre + comma_pieces(tv[i as int]));
            assert(pre + comma_pieces(tv[i as int]) + features_of_tokens(tv.skip(i + 1))
                =~= pre + (comma_pieces(tv[i as int]) + features_of_tokens(tv.skip(i + 1))));
        }
        i = i + 1;
    }
    proof {
        assert(tv.skip(n as int) =~= Seq::<Seq<char>>::empty());
        assert(out.deep_view() =~= features_of_tokens(tv));
    }
    out
}

} // verus!
