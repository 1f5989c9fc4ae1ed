//! The reconciled record of source files: each canonical path mapped
//! to the number of times the scanner visited it.  Paths enter the
//! record with count zero when the build's bookkeeping names them;
//! re-inserting a present path never resets its count, so scanning may
//! safely raise counts only after reconciliation.  A count still zero
//! at the end is the cross-check signal that the built and the scanned
//! file sets disagree.

use vstd::prelude::*;

verus! {

/// Count map over entries taken back to front, so that appending an
/// entry is one definitional step.
pub open spec fn entries_map(s: Seq<(String, u32)>) -> Map<Seq<char>, u32>
    decreases s.len(),
{
    if s.len() == 0 {
        Map::empty()
    } else {
        entries_map(s.drop_last()).insert(s.last().0@, s.last().1)
    }
}

/// Adds `p` with count zero unless it is already recorded.
pub open spec fn record_path(m: Map<Seq<char>, u32>, p: Seq<char>) -> Map<Seq<char>, u32> {
    if m.dom().contains(p) {
        m
    } else {
        m.insert(p, 0u32)
    }
}

/// Records every path of `ps` in order, none resetting a present one.
pub open spec fn merge_paths(m: Map<Seq<char>, u32>, ps: Seq<Seq<char>>) -> Map<Seq<char>, u32>
    decreases ps.len(),
{
    if ps.len() == 0 {
        m
    } else {
        merge_paths(record_path(m, ps[0]), ps.drop_first())
    }
}

/// One more scan of `p`; the count saturates rather than wraps, and a
/// path never recorded stays unrecorded.
pub open spec fn bump(c: u32) -> u32 {
    if c == u32::MAX {
        c
    } else {
        (c + 1) as u32
    }
}

/// The count map after one scan of `p`.
pub open spec fn mark_scanned_map(m: Map<Seq<char>, u32>, p: Seq<char>) -> Map<Seq<char>, u32> {
    if m.dom().contains(p) {
        m.insert(p, bump(m[p]))
    } else {
        m
    }
}

/// The paths with count zero, in entry order.
pub open spec fn zero_keys(s: Seq<(String, u32)>) -> Seq<Seq<char>>
    decreases s.len(),
{
    if s.len() == 0 {
        seq![]
    } else if s.last().1 == 0u32 {
        zero_keys(s.drop_last()).push(s.last().0@)
    } else {
        zero_keys(s.drop_last())
    }
}

/// The reconciled path-to-scan-count record.
pub struct SourceFileSet {
    pub entries: Vec<(String, u32)>,
}

impl View for SourceFileSet {
    type V = Map<Seq<char>, u32>;

    open spec fn view(&self) -> Map<Seq<char>, u32> {
        entries_map(self.entries@)
    }
}

/// No path stands twice in `s`.
pub open spec fn unique_keys(s: Seq<(String, u32)>) -> bool {
    forall|i: int, j: int| 0 <= i < j < s.len() ==> (#[trigger] s[i]).0@ != (#[trigger] s[j]).0@
}

/// A recorded entry is what the map reports.
proof fn lemma_entries_map_lookup(s: Seq<(String, u32)>, i: int)
    requires
        unique_keys(s),
        0 <= i < s.len(),
    ensures
        entries_map(s).dom().contains(s[i].0@),
        entries_map(s)[s[i].0@] == s[i].1,
    decreases s.len(),
{
    if i == s.len() - 1 {
    } else {
        lemma_entries_map_lookup(s.drop_last(), i);
    }
}

/// A path in no entry is not in the map.
proof fn lemma_entries_map_absent(s: Seq<(String, u32)>, k: Seq<char>)
    requires
        forall|i: int| 0 <= i < s.len() ==> (#[trigger] s[i]).0@ != k,
    ensures
        !entries_map(s).dom().contains(k),
    decreases s.len(),
{
    if s.len() > 0 {
        lemma_entries_map_absent(s.drop_last(), k);
    }
}

/// Replacing the entry at `i` by one with the same path replaces its
/// count in the map.
proof fn lemma_entries_map_update(s: Seq<(String, u32)>, i: int, x: (String, u32))
    requires
        unique_keys(s),
        0 <= i < s.len(),
        x.0@ == s[i].0@,
    ensures
        entries_map(s.update(i, x)) == entries_map(s).insert(x.0@, x.1),
    decreases s.len(),
{
    if i == s.len() - 1 {
        assert(s.update(i, x).drop_last() =~= s.drop_last());
        assert(entries_map(s.update(i, x)) =~= entries_map(s).insert(x.0@, x.1));
    } else {
        lemma_entries_map_update(s.drop_last(), i, x);
        assert(s.update(i, x).drop_last() =~= s.drop_last().update(i, x));
        assert(s.update(i, x).last() == s.last());
        assert(entries_map(s.update(i, x)) =~= entries_map(s).insert(x.0@, x.1));
    }
}

/// A path names a zero count exactly when the zero-key list holds it.
proof fn lemma_zero_keys_characterize(s: Seq<(String, u32)>, k: Seq<char>)
    requires
        unique_keys(s),
    ensures
        zero_keys(s).contains(k) <==> entries_map(s).dom().contains(k) && entries_map(s)[k]
            == 0u32,
    decreases s.len(),
{
    if s.len() == 0 {
    } else {
        lemma_zero_keys_characterize(s.drop_last(), k);
        if k == s.last().0@ {
            assert forall|i: int| 0 <= i < s.drop_last().len() implies (#[trigger] s.drop_last()[
                i
            ]).0@ != k by {
                assert(s.drop_last()[i] == s[i]);
            }
            lemma_entries_map_absent(s.drop_last(), k);
            if s.last().1 == 0u32 {
                assert(zero_keys(s).last() == k);
                assert(zero_keys(s).contains(k));
            } else {
                if zero_keys(s).contains(k) {
                    let i = choose|i: int| 0 <= i < zero_keys(s).len() && zero_keys(s)[i] == k;
                    assert(zero_keys(s.drop_last()).contains(k));
                }
            }
        } else {
            if s.last().1 == 0u32 {
                if zero_keys(s).contains(k) {
                    let i = choose|i: int| 0 <= i < zero_keys(s).len() && zero_keys(s)[i] == k;
                    assert(zero_keys(s.drop_last())[i] == k);
                    assert(zero_keys(s.drop_last()).contains(k));
                }
                if zero_keys(s.drop_last()).contains(k) {
                    let i = choose|i: int|
                        0 <= i < zero_keys(s.drop_last()).len() && zero_keys(s.drop_last())[i]
                            == k;
                    assert(zero_keys(s)[i] == k);
                    assert(zero_keys(s).contains(k));
                }
            }
        }
    }
}

impl SourceFileSet {
    /// The unique-path invariant of the record.
    pub open spec fn wf(&self) -> bool {
        unique_keys(self.entries@)
    }

    /// An empty record.
    pub fn new() -> (r: Self)
        ensures
            r.wf(),
            r@ == Map::<Seq<char>, u32>::empty(),
    {
        SourceFileSet { entries: Vec::new() }
    }

    /// How many paths the record holds.
    pub fn len(&self) -> (n: usize)
        requires
            self.wf(),
        ensures
            n == self.entries@.len(),
            n == self@.dom().len(),
    {
        proof {
            lemma_entries_map_dom_len(self.entries@);
        }
        self.entries.len()
    }

    /// The index of `path`'s entry, if it is recorded.
    fn find_index(&self, path: &String) -> (r: Option<usize>)
        ensures
            match r {
                Some(i) => i < self.entries@.len() && self.entries@[i as int].0@ == path@,
                None => forall|i: int|
                    0 <= i < self.entries@.len() ==> (#[trigger] self.entries@[i]).0@ != path@,
            },
    {
        let n = self.entries.len();
        let mut i: usize = 0;
        while i < n
            invariant
                i <= n,
                n == self.entries@.len(),
                forall|j: int| 0 <= j < i ==> (#[trigger] self.entries@[j]).0@ != path@,
            decreases n - i,
        {
            if self.entries[i].0 == *path {
                return Some(i);
            }
            i = i + 1;
        }
        None
    }

    /// Whether `path` is recorded.
    pub fn contains(&self, path: &String) -> (b: bool)
        requires
            self.wf(),
        ensures
            b == self@.dom().contains(path@),
    {
        match self.find_index(path) {
            Some(i) => {
                proof {
                    lemma_entries_map_lookup(self.entries@, i as int);
                }
                true
            },
            None => {
                proof {
                    lemma_entries_map_absent(self.entries@, path@);
                }
                false
            },
        }
    }

    /// The scan count recorded for `path`, if any.
    pub fn count_of(&self, path: &String) -> (r: Option<u32>)
        requires
            self.wf(),
        ensures
            match r {
                Some(c) => self@.dom().contains(path@) && c == self@[path@],
                None => !self@.dom().contains(path@),
            },
    {
        match self.find_index(path) {
            Some(i) => {
                proof {
                    lemma_entries_map_lookup(self.entries@, i as int);
                }
                Some(self.entries[i].1)
            },
            None => {
                proof {
                    lemma_entries_map_absent(self.entries@, path@);
                }
                None
            },
        }
    }

    /// Records `path` with count zero; a present path keeps its count.
    pub fn insert_missing(&mut self, path: String)
        requires
            old(self).wf(),
        ensures
            final(self).wf(),
            final(self)@ == record_path(old(self)@, path@),
    {
        match self.find_index(&path) {
            Some(i) => {
                proof {
                    lemma_entries_map_lookup(self.entries@, i as int);
                }
            },
            None => {
                proof {
                    lemma_entries_map_absent(self.entries@, path@);
                }
                let ghost pre = self.entries@;
                self.entries.push((path, 0u32));
                proof {
                    assert(self.entries@.drop_last() =~= pre);
                }
            },
        }
    }

    /// Records every path of `paths`, none resetting a present count.
    pub fn merge_inputs(&mut self, paths: &Vec<String>)
        requires
            old(self).wf(),
        ensures
            final(self).wf(),
            final(self)@ == merge_paths(old(self)@, paths.deep_view()),
    {
        let ghost dv = paths.deep_view();
        let ghost m0 = self@;
        let n = paths.len();
        let mut i: usize = 0;
        proof {
            assert(dv.skip(0) =~= dv);
        }
        while i < n
            invariant
                i <= n,
                n == paths@.len(),
                dv == paths.deep_view(),
                self.wf(),
                merge_paths(m0, dv) == merge_paths(self@, dv.skip(i as int)),
            decreases n - i,
        {
            let ghost rest = dv.skip(i as int);
            let ghost cur = self@;
            proof {
                assert(rest[0] == dv[i as int]);
                assert(dv[i as int] == paths@[i as int]@);
                assert(rest.drop_first() =~= dv.skip(i + 1));
                assert(merge_paths(cur, rest) == merge_paths(record_path(cur, rest[0]),
                    rest.drop_first()));
            }
            let p = paths[i].clone();
            self.insert_missing(p);
            i = i + 1;
        }
        proof {
            assert(dv.skip(n as int) =~= Seq::<Seq<char>>::empty());
        }
    }

    /// One more scan of `path`; an unrecorded path stays unrecorded.
    pub fn mark_scanned(&mut self, path: &String)
        requires
            old(self).wf(),
        ensures
            final(self).wf(),
            final(self)@ == mark_scanned_map(old(self)@, path@),
    {
        match self.find_index(path) {
            Some(i) => {
                proof {
                    lemma_entries_map_lookup(self.entries@, i as int);
                }
                let c = self.entries[i].1;
                let newc = if c == u32::MAX {
                    c
                } else {
                    c + 1
                };
                let key = self.entries[i].0.clone();
                let ghost pre = self.entries@;
                self.entries[i] = (key, newc);
                proof {
                    assert forall|a: int, b: int|
                        0 <= a < b < self.entries@.len() implies (#[trigger] self.entries@[a]).0@
                        != (#[trigger] self.entries@[b]).0@ by {
                        assert(pre[a].0@ != pre[b].0@);
                    }
                    lemma_entries_map_update(pre, i as int, (key, newc));
                }
            },
            None => {
                proof {
                    lemma_entries_map_absent(self.entries@, path@);
                }
            },
        }
    }

    /// The paths whose count is still zero, in entry order: the
    /// never-scanned warnings.
    pub fn unscanned(&self) -> (r: Vec<String>)
        requires
            self.wf(),
        ensures
            r.deep_view() == zero_keys(self.entries@),
            forall|k: Seq<char>|
                r.deep_view().contains(k) <==> self@.dom().contains(k) && self@[k] == 0u32,
    {
        let n = self.entries.len();
        let mut out: Vec<String> = Vec::new();
        let mut i: usize = 0;
        proof {
            assert(self.entries@.take(0) =~= Seq::<(String, u32)>::empty());
            assert(out.deep_view() =~= zero_keys(self.entries@.take(0)));
        }
        while i < n
            invariant
                i <= n,
                n == self.entries@.len(),
                out.deep_view() == zero_keys(self.entries@.take(i as int)),
            decreases n - i,
        {
            let ghost pre = out.deep_view();
            proof {
                assert(self.entries@.take(i + 1).drop_last() =~= self.entries@.take(i as int));
                assert(self.entries@.take(i + 1).last() == self.entries@[i as int]);
            }
            if self.entries[i].1 == 0 {
                let k = self.entries[i].0.clone();
                out.push(k);
                proof {
                    assert(out.deep_view() =~= pre.push(self.entries@[i as int].0@));
                }
            }
            i = i + 1;
        }
        proof {
            assert(self.entries@.take(n as int) =~= self.entries@);
            assert forall|k: Seq<char>| true implies (out.deep_view().contains(k)
                <==> self@.dom().contains(k) && self@[k] == 0u32) by {
                lemma_zero_keys_characterize(self.entries@, k);
            }
        }
        out
    }
}

/// The map holds as many paths as the record has entries.
proof fn lemma_entries_map_dom_len(s: Seq<(String, u32)>)
    requires
        unique_keys(s),
    ensures
        entries_map(s).dom().finite(),
        entries_map(s).dom().len() == s.len(),
    decreases s.len(),
{
    if s.len() > 0 {
        lemma_entries_map_dom_len(s.drop_last());
        lemma_entries_map_absent(s.drop_last(), s.last().0@);
    }
}

/// What reconciliation produces, path by path: a path is recorded
/// afterwards exactly when it was recorded before or the listing names
/// it; a previously recorded path keeps its count; a newly named one
/// enters with count zero.
pub proof fn lemma_merge_paths_characterize(m: Map<Seq<char>, u32>, ps: Seq<Seq<char>>)
    ensures
        forall|k: Seq<char>|
            #![trigger merge_paths(m, ps).dom().contains(k)]
            merge_paths(m, ps).dom().contains(k) ==> m.dom().contains(k) || ps.contains(k),
        forall|k: Seq<char>| #![trigger m.dom().contains(k)]
            m.dom().contains(k) ==> merge_paths(m, ps).dom().contains(k) && merge_paths(m, ps)[k]
                == m[k],
        forall|k: Seq<char>| #![trigger ps.contains(k)]
            ps.contains(k) ==> merge_paths(m, ps).dom().contains(k),
        forall|k: Seq<char>| #![trigger ps.contains(k)]
            !m.dom().contains(k) && ps.contains(k) ==> merge_paths(m, ps)[k] == 0u32,
    decreases ps.len(),
{
    if ps.len() == 0 {
        assert(merge_paths(m, ps) == m);
    } else {
        let m1 = record_path(m, ps[0]);
        let ps1 = ps.drop_first();
        lemma_merge_paths_characterize(m1, ps1);
        assert(merge_paths(m, ps) == merge_paths(m1, ps1));
        assert forall|k: Seq<char>| ps.contains(k) implies k == ps[0] || ps1.contains(k) by {
            let i = choose|i: int| 0 <= i < ps.len() && ps[i] == k;
            if i > 0 {
                assert(ps1[i - 1] == k);
            }
        }
        assert forall|k: Seq<char>|
            merge_paths(m, ps).dom().contains(k) implies m.dom().contains(k) || ps.contains(
            k,
        ) by {
            assert(m1.dom().contains(k) || ps1.contains(k));
            if ps1.contains(k) {
                let i = choose|i: int| 0 <= i < ps1.len() && ps1[i] == k;
                assert(ps[i + 1] == k);
                assert(ps.contains(k));
            } else {
                assert(m1.dom().contains(k));
                if !m.dom().contains(k) {
                    assert(k == ps[0]);
                    assert(ps.contains(k));
                }
            }
        }
        assert forall|k: Seq<char>| #![trigger m.dom().contains(k)]
            m.dom().contains(k) implies merge_paths(m, ps).dom().contains(k) && merge_paths(
            m,
            ps,
        )[k] == m[k] by {
            assert(m1.dom().contains(k));
            assert(merge_paths(m1, ps1)[k] == m1[k]);
            assert(m1[k] == m[k]);
        }
        assert forall|k: Seq<char>| ps.contains(k) implies merge_paths(m, ps).dom().contains(
            k,
        ) by {
            if k == ps[0] {
                assert(m1.dom().contains(k));
            } else {
                assert(ps1.contains(k));
            }
        }
        assert forall|k: Seq<char>| !m.dom().contains(k) && ps.contains(k) implies merge_paths(
            m,
            ps,
        )[k] == 0u32 by {
            if k == ps[0] {
                assert(m1.dom().contains(k));
                assert(m1[k] == 0u32);
                assert(merge_paths(m1, ps1)[k] == m1[k]);
            } else {
                assert(ps1.contains(k));
                assert(!m1.dom().contains(k));
                assert(merge_paths(m1, ps1)[k] == 0u32);
            }
        }
    }
}

/// Reconciling the same listing inputs a second time, in any
/// visitation order, changes nothing: the canonical path map it
/// yields is the one already at hand.
pub proof fn lemma_reconcile_idempotent(
    m: Map<Seq<char>, u32>,
    ps: Seq<Seq<char>>,
    qs: Seq<Seq<char>>,
)
    requires
        forall|k: Seq<char>| #[trigger] ps.contains(k) <==> #[trigger] qs.contains(k),
    ensures
        merge_paths(merge_paths(m, ps), qs) == merge_paths(m, ps),
        merge_paths(m, qs) == merge_paths(m, ps),
{
    lemma_merge_paths_characterize(m, ps);
    lemma_merge_paths_characterize(m, qs);
    lemma_merge_paths_characterize(merge_paths(m, ps), qs);
    let b = merge_paths(m, ps);
    let a = merge_paths(b, qs);
    let c = merge_paths(m, qs);
    assert forall|k: Seq<char>| a.dom().contains(k) implies b.dom().contains(k) by {
        assert(b.dom().contains(k) || qs.contains(k));
        if qs.contains(k) {
            assert(ps.contains(k));
            assert(b.dom().contains(k));
        }
    }
    assert forall|k: Seq<char>| b.dom().contains(k) implies a.dom().contains(k) && a[k] == b[
        k
    ] by {}
    assert(a.dom() =~= b.dom());
    assert(a =~= b);
    assert forall|k: Seq<char>| c.dom().contains(k) implies b.dom().contains(k) by {
        assert(m.dom().contains(k) || qs.contains(k));
        if qs.contains(k) {
            assert(ps.contains(k));
        }
    }
    assert forall|k: Seq<char>| b.dom().contains(k) implies c.dom().contains(k) by {
        assert(m.dom().contains(k) || ps.contains(k));
        if ps.contains(k) {
            assert(qs.contains(k));
        }
    }
    assert forall|k: Seq<char>| b.dom().contains(k) implies c[k] == b[k] by {
        assert(m.dom().contains(k) || ps.contains(k));
        if m.dom().contains(k) {
            assert(c[k] == m[k]);
            assert(b[k] == m[k]);
        } else {
            assert(ps.contains(k));
            assert(qs.contains(k));
            assert(b[k] == 0u32);
            assert(c[k] == 0u32);
        }
    }
    assert(c.dom() =~= b.dom());
    assert(c =~= b);
}

/// Completeness: every path the reconciled record holds has either
/// been scanned at least once or is named by a never-scanned warning.
pub proof fn lemma_completeness(m: Map<Seq<char>, u32>, warns: Seq<Seq<char>>)
    requires
        forall|k: Seq<char>| warns.contains(k) <==> m.dom().contains(k) && m[k] == 0u32,
    ensures
        forall|k: Seq<char>| m.dom().contains(k) ==> m[k] >= 1 || warns.contains(k),
{
}

} // verus!
