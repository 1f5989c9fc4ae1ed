//! Parser for the build tool's dependency-listing files: UTF-8 text,
//! one `product: input input ...` mapping per line, where an input
//! token ending in a backslash is continued by the next token with the
//! separating space restored.  A malformed listing (a continuation
//! with nothing to continue into) is reported as a parse error rather
//! than salvaged, since an incomplete file set would later produce
//! false "never scanned" warnings.

use vstd::prelude::*;

use crate::text::{listing_tokens, split_lines, split_listing_tokens, split_str_lines};

verus! {

/// One parsed listing line: the product name before the first `": "`,
/// and the input paths named after it, continuations already rejoined.
#[derive(Debug)]
pub struct DepEntry {
    pub product: String,
    pub inputs: Vec<String>,
}

impl View for DepEntry {
    type V = (Seq<char>, Seq<Seq<char>>);

    open spec fn view(&self) -> (Seq<char>, Seq<Seq<char>>) {
        (self.product@, self.inputs.deep_view())
    }
}

/// A malformed listing: the line at this index (counting every line of
/// the file) ends in an unfinished continuation.
#[derive(Debug, PartialEq, Eq)]
pub struct DepParseError {
    pub line: usize,
}

/// Index of the first `": "` in `s`, or -1 when none occurs.
pub open spec fn find_colon_space(s: Seq<char>) -> int
    decreases s.len(),
{
    if s.len() < 2 {
        -1
    } else if s[0] == ':' && s[1] == ' ' {
        0
    } else if find_colon_space(s.drop_first()) < 0 {
        -1
    } else {
        find_colon_space(s.drop_first()) + 1
    }
}

/// Whether `": "` stands at position `j` of `s`.
pub open spec fn colon_space_at(s: Seq<char>, j: int) -> bool {
    0 <= j <= s.len() - 2 && s[j] == ':' && s[j + 1] == ' '
}

/// `find_colon_space` returns -1 exactly when `": "` never occurs, and
/// otherwise its least position.
pub proof fn lemma_find_colon_space(s: Seq<char>)
    ensures
        find_colon_space(s) == -1 || find_colon_space(s) >= 0,
        find_colon_space(s) == -1 ==> forall|j: int| !colon_space_at(s, j),
        find_colon_space(s) >= 0 ==> colon_space_at(s, find_colon_space(s)),
        find_colon_space(s) >= 0 ==> forall|j: int|
            0 <= j < find_colon_space(s) ==> !colon_space_at(s, j),
    decreases s.len(),
{
    if s.len() < 2 {
    } else if s[0] == ':' && s[1] == ' ' {
    } else {
        lemma_find_colon_space(s.drop_first());
        assert forall|j: int| 1 <= j < s.len() implies s[j] == s.drop_first()[j - 1] by {}
        if find_colon_space(s) >= 0 {
            assert forall|j: int| 0 <= j < find_colon_space(s) implies !colon_space_at(s, j) by {
                if j > 0 {
                    assert(!colon_space_at(s.drop_first(), j - 1));
                }
            }
        } else {
            assert forall|j: int| 0 <= j <= s.len() - 2 implies !colon_space_at(s, j) by {
                if j > 0 {
                    assert(!colon_space_at(s.drop_first(), j - 1));
                }
            }
        }
    }
}

/// Position of the first `": "` in `s`, if any.
pub fn find_colon_space_at(s: &str) -> (r: Option<usize>)
    ensures
        match r {
            Some(i) => i == find_colon_space(s@) && i + 2 <= s@.len() && s@.len() <= usize::MAX,
            None => find_colon_space(s@) == -1,
        },
{
    let n = s.unicode_len();
    if n < 2 {
        proof {
            lemma_find_colon_space(s@);
        }
        return None;
    }
    let mut i: usize = 0;
    while i + 1 < n
        invariant
            i < n,
            n >= 2,
            n == s@.len(),
            forall|j: int| 0 <= j < i ==> !colon_space_at(s@, j),
        decreases n - i,
    {
        if s.get_char(i) == ':' && s.get_char(i + 1) == ' ' {
            proof {
                lemma_find_colon_space(s@);
                assert(colon_space_at(s@, i as int));
            }
            return Some(i);
        }
        i = i + 1;
    }
    proof {
        lemma_find_colon_space(s@);
        assert forall|j: int| !colon_space_at(s@, j) by {
            if 0 <= j <= s@.len() - 2 {
                assert(j < i);
            }
        }
    }
    None
}

/// Whether a token still awaits its continuation.
pub open spec fn ends_backslash(t: Seq<char>) -> bool {
    t.len() > 0 && t[t.len() - 1] == '\\'
}

/// Rejoins continuation tokens, starting from the partial token `cur`:
/// while `cur` ends in a backslash, that backslash is replaced by a
/// space and the next token appended; a finished token is emitted and
/// the next token started.  `None` when the last token of the line
/// still awaits a continuation.
pub open spec fn join_tokens(cur: Seq<char>, toks: Seq<Seq<char>>) -> Option<Seq<Seq<char>>>
    decreases toks.len(),
{
    if ends_backslash(cur) {
        if toks.len() == 0 {
            None
        } else {
            join_tokens(cur.drop_last() + seq![' '] + toks[0], toks.drop_first())
        }
    } else if toks.len() == 0 {
        Some(seq![cur])
    } else {
        match join_tokens(toks[0], toks.drop_first()) {
            Some(r) => Some(seq![cur] + r),
            None => None,
        }
    }
}

/// The input paths encoded by a line's token list, continuations
/// rejoined; `None` when the list is malformed.
pub open spec fn parse_inputs(toks: Seq<Seq<char>>) -> Option<Seq<Seq<char>>> {
    if toks.len() == 0 {
        Some(seq![])
    } else {
        join_tokens(toks[0], toks.drop_first())
    }
}

/// Whether the line maps a product to inputs, i.e. contains `": "`.
pub open spec fn line_is_entry(l: Seq<char>) -> bool {
    find_colon_space(l) >= 0
}

/// The product named before the first `": "`.
pub open spec fn line_product(l: Seq<char>) -> Seq<char> {
    l.take(find_colon_space(l))
}

/// The inputs named after the first `": "`, or `None` when malformed.
pub open spec fn line_inputs(l: Seq<char>) -> Option<Seq<Seq<char>>> {
    parse_inputs(listing_tokens(l.skip(find_colon_space(l) + 2)))
}

/// A line is in order when it is no entry, or its inputs parse.
pub open spec fn line_ok(l: Seq<char>) -> bool {
    line_is_entry(l) ==> line_inputs(l) is Some
}

/// The entries of the given lines in order, skipping lines without
/// `": "`; a malformed line contributes its product with no inputs
/// (the parser never returns such an entry, it reports the line).
pub open spec fn entries_of_lines(ls: Seq<Seq<char>>) -> Seq<(Seq<char>, Seq<Seq<char>>)>
    decreases ls.len(),
{
    if ls.len() == 0 {
        seq![]
    } else {
        let rest = entries_of_lines(ls.drop_first());
        if line_is_entry(ls[0]) {
            seq![
                (
                    line_product(ls[0]),
                    match line_inputs(ls[0]) {
                        Some(v) => v,
                        None => seq![],
                    },
                ),
            ] + rest
        } else {
            rest
        }
    }
}

/// Every entry line of the listing parses.
pub open spec fn dep_file_ok(s: Seq<char>) -> bool {
    forall|k: int| 0 <= k < split_lines(s).len() ==> line_ok(#[trigger] split_lines(s)[k])
}

/// What a well-formed listing maps: every entry line's product and
/// rejoined inputs, in line order.
pub open spec fn dep_file_entries(s: Seq<char>) -> Seq<(Seq<char>, Seq<Seq<char>>)> {
    entries_of_lines(split_lines(s))
}

/// The view of a parsed entry list.
pub open spec fn entries_view(v: Seq<DepEntry>) -> Seq<(Seq<char>, Seq<Seq<char>>)> {
    Seq::new(v.len(), |i: int| v[i]@)
}

/// Whether `cur` ends in a backslash.
fn str_ends_backslash(cur: &String) -> (b: bool)
    ensures
        b == ends_backslash(cur@),
{
    let n = cur.as_str().unicode_len();
    if n == 0 {
        false
    } else {
        cur.as_str().get_char(n - 1) == '\\'
    }
}

/// Rejoins the continuation tokens of one line.
fn join_continuations(toks: &Vec<String>) -> (r: Option<Vec<String>>)
    ensures
        match r {
            Some(v) => parse_inputs(toks.deep_view()) == Some(v.deep_view()),
            None => parse_inputs(toks.deep_view()) is None,
        },
{
    let ghost dv = toks.deep_view();
    let n = toks.len();
    if n == 0 {
        let out: Vec<String> = Vec::new();
        proof {
            assert(out.deep_view() =~= Seq::<Seq<char>>::empty());
            assert(parse_inputs(dv) == Some(Seq::<Seq<char>>::empty()));
        }
        return Some(out);
    }
    let mut out: Vec<String> = Vec::new();
    let mut cur: String = toks[0].clone();
    let mut i: usize = 1;
    proof {
        assert(dv[0] == toks@[0]@);
        assert(dv.skip(1) =~= dv.drop_first());
        assert(out.deep_view() =~= Seq::<Seq<char>>::empty());
    }
    loop
        invariant
            1 <= i <= n,
            n == toks.len(),
            dv == toks.deep_view(),
            parse_inputs(dv) is Some <==> join_tokens(cur@, dv.skip(i as int)) is Some,
            join_tokens(cur@, dv.skip(i as int)) is Some ==> parse_inputs(dv) == Some(
                out.deep_view() + join_tokens(cur@, dv.skip(i as int)).unwrap(),
            ),
        decreases n - i,
    {
        let ghost rest = dv.skip(i as int);
        if str_ends_backslash(&cur) {
            if i >= n {
                proof {
                    assert(rest =~= Seq::<Seq<char>>::empty());
                    assert(join_tokens(cur@, rest) is None);
                }
                return None;
            }
            let m = cur.as_str().unicode_len();
            let mut next = cur.as_str().substring_char(0, m - 1).to_owned();
            next.append(" ");
            next.append(toks[i].as_str());
            proof {
                reveal_strlit(" ");
                assert(" "@ =~= seq![' ']);
                assert(rest[0] == dv[i as int]);
                assert(dv[i as int] == toks@[i as int]@);
                assert(next@ =~= cur@.drop_last() + seq![' '] + rest[0]);
                assert(join_tokens(cur@, rest) == join_tokens(next@, rest.drop_first()));
                assert(rest.drop_first() =~= dv.skip(i + 1));
            }
            cur = next;
            i = i + 1;
        } else {
            let ghost curv = cur@;
            let ghost pre = out.deep_view();
            out.push(cur);
            proof {
                assert(out.deep_view() =~= pre.push(curv));
            }
            if i >= n {
                proof {
                    assert(rest =~= Seq::<Seq<char>>::empty());
                    assert(join_tokens(curv, rest) == Some(seq![curv]));
                    assert(pre + seq![curv] =~= out.deep_view());
                }
                return Some(out);
            }
            let next = toks[i].clone();
            proof {
                assert(rest[0] == dv[i as int]);
                assert(dv[i as int] == toks@[i as int]@);
                assert(next@ == rest[0]);
                assert(rest.drop_first() =~= dv.skip(i + 1));
                if join_tokens(rest[0], rest.drop_first()) is Some {
                    assert(join_tokens(curv, rest) == Some(
                        seq![curv] + join_tokens(rest[0], rest.drop_first()).unwrap(),
                    ));
                    assert(pre + (seq![curv] + join_tokens(rest[0], rest.drop_first()).unwrap())
                        =~= out.deep_view() + join_tokens(rest[0], rest.drop_first()).unwrap());
                } else {
                    assert(join_tokens(curv, rest) is None);
                }
            }
            cur = next;
            i = i + 1;
        }
    }
}

/// Parses one listing line: `Ok(None)` when the line holds no `": "`,
/// otherwise the entry, or the malformed-continuation failure.
fn parse_line(l: &String) -> (r: Result<Option<DepEntry>, ()>)
    ensures
        match r {
            Ok(None) => !line_is_entry(l@),
            Ok(Some(e)) => line_is_entry(l@) && line_product(l@) == e.product@ && line_inputs(l@)
                == Some(e.inputs.deep_view()),
            Err(()) => line_is_entry(l@) && line_inputs(l@) is None,
        },
{
    match find_colon_space_at(l.as_str()) {
        None => Ok(None),
        Some(ci) => {
            let product = l.as_str().substring_char(0, ci).to_owned();
            proof {
                assert(product@ =~= l@.take(ci as int));
            }
            let toks = split_listing_tokens(l.as_str(), ci + 2);
            match join_continuations(&toks) {
                Some(inputs) => Ok(Some(DepEntry { product, inputs })),
                None => Err(()),
            }
        },
    }
}

/// Parses a whole dependency listing into its entries, or reports the
/// first line whose continuation is unfinished.  Lines without `": "`
/// carry no entry and are passed over.
pub fn parse_rustc_dep_info(contents: &str) -> (r: Result<Vec<DepEntry>, DepParseError>)
    ensures
        r is Ok <==> dep_file_ok(contents@),
        r matches Ok(v) ==> entries_view(v@) == dep_file_entries(contents@),
        r matches Err(e) ==> {
            let ls = split_lines(contents@);
            &&& e.line < ls.len()
            &&& line_is_entry(ls[e.line as int])
            &&& line_inputs(ls[e.line as int]) is None
            &&& forall|j: int| 0 <= j < e.line ==> line_ok(#[trigger] ls[j])
        },
{
    let lines = split_str_lines(contents);
    let ghost ls = split_lines(contents@);
    let mut out: Vec<DepEntry> = Vec::new();
    let mut li: usize = 0;
    proof {
        assert(ls.skip(0) =~= ls);
        assert(entries_view(out@) =~= Seq::<(Seq<char>, Seq<Seq<char>>)>::empty());
    }
    while li < lines.len()
        invariant
            li <= lines.len(),
            lines.deep_view() == ls,
            ls == split_lines(contents@),
            forall|j: int| 0 <= j < li ==> line_ok(#[trigger] ls[j]),
            entries_of_lines(ls) =~= entries_view(out@) + entries_of_lines(ls.skip(li as int)),
        decreases lines.len() - li,
    {
        let ghost rest = ls.skip(li as int);
        proof {
            assert(rest[0] == lines.deep_view()[li as int]);
            assert(lines.deep_view()[li as int] == lines@[li as int]@);
            assert(rest.drop_first() =~= ls.skip(li + 1));
        }
        match parse_line(&lines[li]) {
            Ok(None) => {
                proof {
                    assert(entries_of_lines(rest) == entries_of_lines(rest.drop_first()));
                }
            },
            Ok(Some(e)) => {
                let ghost ev = e@;
                let ghost pre = entries_view(out@);
                proof {
                    assert(entries_of_lines(rest) == seq![ev] + entries_of_lines(
                        rest.drop_first(),
                    ));
                }
                out.push(e);
                proof {
                    assert(entries_view(out@) =~= pre.push(ev));
                    assert(pre + (seq![ev] + entries_of_lines(rest.drop_first()))
                        =~= entries_view(out@) + entries_of_lines(rest.drop_first()));
                }
            },
            Err(()) => {
                proof {
                    assert(!line_ok(ls[li as int]));
                    assert(!dep_file_ok(contents@));
                }
                return Err(DepParseError { line: li });
            },
        }
        li = li + 1;
    }
    proof {
        assert(ls.skip(li as int) =~= Seq::<Seq<char>>::empty());
        assert(entries_of_lines(Seq::<Seq<char>>::empty()) == Seq::<
            (Seq<char>, Seq<Seq<char>>),
        >::empty());
        assert(entries_view(out@) =~= entries_of_lines(ls));
        assert(dep_file_ok(contents@));
    }
    Ok(out)
}

} // verus!
