//! Character-level helpers shared by the listing parser and the
//! invocation-argument reader: first-occurrence searches, line
//! splitting, and whitespace tokenization, each as a spec function
//! with a proved executable counterpart.

use vstd::prelude::*;

verus! {

/// Whitespace that separates tokens in a dependency listing: space,
/// horizontal tab, and carriage return (so listings with Windows line
/// endings read the same as others).
pub open spec fn is_listing_ws(c: char) -> bool {
    c == ' ' || c == '\t' || c == '\r'
}

/// Index of the first occurrence of `d` in `s`, or -1 when `d` does not occur.
pub open spec fn find_char(s: Seq<char>, d: char) -> int
    decreases s.len(),
{
    if s.len() == 0 {
        -1
    } else if s[0] == d {
        0
    } else if find_char(s.drop_first(), d) < 0 {
        -1
    } else {
        find_char(s.drop_first(), d) + 1
    }
}

/// `find_char` returns -1 exactly when `d` is absent, and otherwise the
/// least index holding `d`.
pub proof fn lemma_find_char(s: Seq<char>, d: char)
    ensures
        find_char(s, d) == -1 || find_char(s, d) >= 0,
        find_char(s, d) == -1 ==> forall|j: int| 0 <= j < s.len() ==> s[j] != d,
        find_char(s, d) >= 0 ==> 0 <= find_char(s, d) < s.len() && s[find_char(s, d)] == d,
        find_char(s, d) >= 0 ==> forall|j: int| 0 <= j < find_char(s, d) ==> s[j] != d,
    decreases s.len(),
{
    if s.len() == 0 {
    } else if s[0] == d {
    } else {
        lemma_find_char(s.drop_first(), d);
        assert forall|j: int| 1 <= j < s.len() implies s[j] == s.drop_first()[j - 1] by {}
    }
}

/// The least index holding `d` is what `find_char` returns.
pub proof fn lemma_find_char_at(s: Seq<char>, d: char, i: int)
    requires
        0 <= i < s.len(),
        s[i] == d,
        forall|j: int| 0 <= j < i ==> s[j] != d,
    ensures
        find_char(s, d) == i,
{
    lemma_find_char(s, d);
}

/// When `d` occurs nowhere in `s`, `find_char` reports -1.
pub proof fn lemma_find_char_absent(s: Seq<char>, d: char)
    requires
        forall|j: int| 0 <= j < s.len() ==> s[j] != d,
    ensures
        find_char(s, d) == -1,
{
    lemma_find_char(s, d);
}

/// First position of `d` in `s` at or after `from`, reported against
/// the suffix of `s` that starts at `from`.
pub fn find_char_from(s: &str, from: usize, d: char) -> (r: Option<usize>)
    requires
        from <= s@.len(),
    ensures
        match r {
            Some(i) => from <= i < s@.len() && i - from == find_char(s@.skip(from as int), d),
            None => find_char(s@.skip(from as int), d) == -1,
        },
{
    let n = s.unicode_len();
    let mut i = from;
    while i < n
        invariant
            from <= i <= n,
            n == s@.len(),
            from <= s@.len(),
            forall|j: int| from <= j < i ==> s@[j] != d,
        decreases n - i,
    {
        if s.get_char(i) == d {
            proof {
                let tail = s@.skip(from as int);
                assert forall|j: int| 0 <= j < i - from implies tail[j] != d by {
                    assert(tail[j] == s@[from + j]);
                }
                assert(tail[i - from] == s@[i as int]);
                lemma_find_char_at(tail, d, i - from);
            }
            return Some(i);
        }
        i = i + 1;
    }
    proof {
        let tail = s@.skip(from as int);
        assert forall|j: int| 0 <= j < tail.len() implies tail[j] != d by {
            assert(tail[j] == s@[from + j]);
        }
        lemma_find_char_absent(tail, d);
    }
    None
}

/// Index of the first listing-whitespace character in `s`, or -1.
pub open spec fn find_listing_ws(s: Seq<char>) -> int
    decreases s.len(),
{
    if s.len() == 0 {
        -1
    } else if is_listing_ws(s[0]) {
        0
    } else if find_listing_ws(s.drop_first()) < 0 {
        -1
    } else {
        find_listing_ws(s.drop_first()) + 1
    }
}

/// `find_listing_ws` returns -1 exactly when no listing whitespace
/// occurs, and otherwise the least index holding some.
pub proof fn lemma_find_listing_ws(s: Seq<char>)
    ensures
        find_listing_ws(s) == -1 || find_listing_ws(s) >= 0,
        find_listing_ws(s) == -1 ==> forall|j: int| 0 <= j < s.len() ==> !is_listing_ws(s[j]),
        find_listing_ws(s) >= 0 ==> 0 <= find_listing_ws(s) < s.len() && is_listing_ws(
            s[find_listing_ws(s)],
        ),
        find_listing_ws(s) >= 0 ==> forall|j: int|
            0 <= j < find_listing_ws(s) ==> !is_listing_ws(s[j]),
    decreases s.len(),
{
    if s.len() == 0 {
    } else if is_listing_ws(s[0]) {
    } else {
        lemma_find_listing_ws(s.drop_first());
        assert forall|j: int| 1 <= j < s.len() implies s[j] == s.drop_first()[j - 1] by {}
    }
}

/// First position of listing whitespace in `s` at or after `from`,
/// reported against the suffix of `s` that starts at `from`.
pub fn find_listing_ws_from(s: &str, from: usize) -> (r: Option<usize>)
    requires
        from <= s@.len(),
    ensures
        match r {
            Some(i) => from <= i < s@.len() && i - from == find_listing_ws(
                s@.skip(from as int),
            ) && is_listing_ws(s@[i as int]),
            None => find_listing_ws(s@.skip(from as int)) == -1,
        },
{
    let n = s.unicode_len();
    let mut i = from;
    while i < n
        invariant
            from <= i <= n,
            n == s@.len(),
            forall|j: int| from <= j < i ==> !is_listing_ws(s@[j]),
        decreases n - i,
    {
        let c = s.get_char(i);
        if c == ' ' || c == '\t' || c == '\r' {
            proof {
                let tail = s@.skip(from as int);
                assert forall|j: int| 0 <= j < i - from implies !is_listing_ws(tail[j]) by {
                    assert(tail[j] == s@[from + j]);
                }
                assert(tail[i - from] == s@[i as int]);
                lemma_find_listing_ws(tail);
            }
            return Some(i);
        }
        i = i + 1;
    }
    proof {
        let tail = s@.skip(from as int);
        assert forall|j: int| 0 <= j < tail.len() implies !is_listing_ws(tail[j]) by {
            assert(tail[j] == s@[from + j]);
        }
        lemma_find_listing_ws(tail);
    }
    None
}

/// The segments of `s` between occurrences of `d`: one segment more
/// than there are separators, in order, each without its separator.
pub open spec fn split_char_sep(s: Seq<char>, d: char) -> Seq<Seq<char>>
    decreases s.len(),
{
    let i = find_char(s, d);
    if 0 <= i < s.len() {
        seq![s.take(i)] + split_char_sep(s.skip(i + 1), d)
    } else {
        seq![s]
    }
}

/// The lines of `s`: its segments between newlines.
pub open spec fn split_lines(s: Seq<char>) -> Seq<Seq<char>> {
    split_char_sep(s, '\n')
}

/// The maximal runs of non-whitespace characters in `s`, in order.
pub open spec fn listing_tokens(s: Seq<char>) -> Seq<Seq<char>>
    decreases s.len(),
{
    if s.len() == 0 {
        seq![]
    } else if is_listing_ws(s[0]) {
        listing_tokens(s.drop_first())
    } else {
        let i = find_listing_ws(s);
        if 0 < i < s.len() {
            seq![s.take(i)] + listing_tokens(s.skip(i))
        } else {
            seq![s]
        }
    }
}

/// Splits `s` at every `'\n'`, dropping the terminators.
pub fn split_str_lines(s: &str) -> (r: Vec<String>)
    ensures
        r.deep_view() == split_lines(s@),
{
    split_str_on(s, '\n')
}

/// Splits `s` at every occurrence of `d`, dropping the separators.
pub fn split_str_on(s: &str, d: char) -> (r: Vec<String>)
    ensures
        r.deep_view() == split_char_sep(s@, d),
{
    let n = s.unicode_len();
    let mut out: Vec<String> = Vec::new();
    let mut p: usize = 0;
    proof {
        assert(s@.skip(0) =~= s@);
        assert(out.deep_view() =~= Seq::<Seq<char>>::empty());
    }
    loop
        invariant
            p <= n,
            n == s@.len(),
            split_char_sep(s@, d) =~= out.deep_view() + split_char_sep(s@.skip(p as int), d),
        decreases n - p,
    {
        let ghost tail = s@.skip(p as int);
        match find_char_from(s, p, d) {
            Some(i) => {
                let seg = s.substring_char(p, i).to_owned();
                proof {
                    assert(find_char(tail, d) == i - p);
                    assert(split_char_sep(tail, d) == seq![tail.take(i - p)] + split_char_sep(tail.skip(i - p + 1), d));
                    assert(seg@ =~= tail.take(i - p));
                    assert(tail.skip(i - p + 1) =~= s@.skip(i + 1));
                }
                let ghost pre = out.deep_view();
                out.push(seg);
                proof {
                    assert(out.deep_view() =~= pre.push(seg@));
                    assert(split_char_sep(s@, d) =~= out.deep_view() + split_char_sep(s@.skip(i + 1), d));
                }
                p = i + 1;
            },
            None => {
                let seg = s.substring_char(p, n).to_owned();
                proof {
                    assert(find_char(tail, d) == -1);
                    assert(split_char_sep(tail, d) == seq![tail]);
                    assert(seg@ =~= tail);
                }
                let ghost pre = out.deep_view();
                out.push(seg);
                proof {
                    assert(out.deep_view() =~= pre.push(seg@));
                    assert(split_char_sep(s@, d) =~= out.deep_view());
                }
                return out;
            },
        }
    }
}

/// Splits the suffix of `s` that starts at `from` into its
/// whitespace-separated tokens.
pub fn split_listing_tokens(s: &str, from: usize) -> (r: Vec<String>)
    requires
        from <= s@.len(),
    ensures
        r.deep_view() == listing_tokens(s@.skip(from as int)),
{
    let n = s.unicode_len();
    let mut out: Vec<String> = Vec::new();
    let mut p: usize = from;
    while p < n
        invariant
            from <= p <= n,
            n == s@.len(),
            listing_tokens(s@.skip(from as int)) =~= out.deep_view() + listing_tokens(
                s@.skip(p as int),
            ),
        decreases n - p,
    {
        let ghost tail = s@.skip(p as int);
        let c = s.get_char(p);
        if c == ' ' || c == '\t' || c == '\r' {
            proof {
                assert(is_listing_ws(tail[0]));
                assert(listing_tokens(tail) == listing_tokens(tail.drop_first()));
                assert(tail.drop_first() =~= s@.skip(p + 1));
            }
            p = p + 1;
        } else {
            proof {
                assert(tail[0] == s@[p as int]);
                assert(!is_listing_ws(tail[0]));
            }
            let q = match find_listing_ws_from(s, p) {
                Some(i) => i,
                None => n,
            };
            let tok = s.substring_char(p, q).to_owned();
            proof {
                let i = find_listing_ws(tail);
                if q < n {
                    assert(i == q - p);
                    assert(i != 0);
                    assert(listing_tokens(tail) == seq![tail.take(i)] + listing_tokens(
                        tail.skip(i),
                    ));
                    assert(tok@ =~= tail.take(i));
                    assert(tail.skip(i) =~= s@.skip(q as int));
                } else {
                    assert(i == -1);
                    assert(listing_tokens(tail) == seq![tail]);
                    assert(tok@ =~= tail);
                    assert(s@.skip(q as int) =~= Seq::<char>::empty());
                }
            }
            let ghost pre = out.deep_view();
            out.push(tok);
            proof {
                assert(out.deep_view() =~= pre.push(tok@));
                assert(listing_tokens(s@.skip(from as int)) =~= out.deep_view()
                    + listing_tokens(s@.skip(q as int)));
            }
            p = q;
        }
    }
    proof {
        assert(s@.skip(p as int) =~= Seq::<char>::empty());
        assert(listing_tokens(Seq::<char>::empty()) == Seq::<Seq<char>>::empty());
        assert(out.deep_view() =~= listing_tokens(s@.skip(from as int)));
    }
    out
}

} // verus!
