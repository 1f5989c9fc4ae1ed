//! The shared accumulator of the build phase and the reading of one
//! compiler invocation's arguments.  Per invocation the host build
//! tool hands over the argument list; the library picks out every
//! argument naming a source file and the designated output directory,
//! and records them.  The caller serializes invocations (one exclusive
//! lock around each `record_invocation`); the proofs here show that
//! any such interleaving ends with the union of everything recorded,
//! so no entry is lost.

use vstd::prelude::*;

verus! {

/// The set a path list denotes, entries taken back to front.
pub open spec fn path_set(s: Seq<String>) -> Set<Seq<char>>
    decreases s.len(),
{
    if s.len() == 0 {
        Set::empty()
    } else {
        path_set(s.drop_last()).insert(s.last()@)
    }
}

/// Adds every path of `ps` in order.
pub open spec fn add_paths(s: Set<Seq<char>>, ps: Seq<Seq<char>>) -> Set<Seq<char>>
    decreases ps.len(),
{
    if ps.len() == 0 {
        s
    } else {
        add_paths(s.insert(ps[0]), ps.drop_first())
    }
}

/// A path list denotes the set of its entries' views.
pub proof fn lemma_path_set_characterize(s: Seq<String>, k: Seq<char>)
    ensures
        path_set(s).contains(k) <==> exists|i: int| 0 <= i < s.len() && (#[trigger] s[i])@ == k,
        path_set(s).finite(),
    decreases s.len(),
{
    if s.len() > 0 {
        lemma_path_set_characterize(s.drop_last(), k);
        if path_set(s).contains(k) && k != s.last()@ {
            let i = choose|i: int| 0 <= i < s.drop_last().len() && (#[trigger] s.drop_last()[i])@
                == k;
            assert(s[i]@ == k);
        }
        if exists|i: int| 0 <= i < s.len() && (#[trigger] s[i])@ == k {
            let i = choose|i: int| 0 <= i < s.len() && (#[trigger] s[i])@ == k;
            if i < s.len() - 1 {
                assert(s.drop_last()[i]@ == k);
            }
        }
    }
}

/// Registration reaches exactly the union: a path is in the
/// accumulator afterwards when it was before or was registered now.
pub proof fn lemma_add_paths_characterize(s: Set<Seq<char>>, ps: Seq<Seq<char>>)
    ensures
        forall|k: Seq<char>| #![trigger add_paths(s, ps).contains(k)]
            add_paths(s, ps).contains(k) <==> s.contains(k) || ps.contains(k),
        s.finite() ==> add_paths(s, ps).finite(),
    decreases ps.len(),
{
    if ps.len() > 0 {
        lemma_add_paths_characterize(s.insert(ps[0]), ps.drop_first());
        assert forall|k: Seq<char>| #![trigger add_paths(s, ps).contains(k)]
            add_paths(s, ps).contains(k) <==> s.contains(k) || ps.contains(k) by {
            assert(add_paths(s, ps) == add_paths(s.insert(ps[0]), ps.drop_first()));
            if ps.drop_first().contains(k) {
                let i = choose|i: int|
                    0 <= i < ps.drop_first().len() && ps.drop_first()[i] == k;
                assert(ps[i + 1] == k);
            }
            if ps.contains(k) && k != ps[0] {
                let i = choose|i: int| 0 <= i < ps.len() && ps[i] == k;
                assert(ps.drop_first()[i - 1] == k);
            }
            assert(ps.contains(k) ==> k == ps[0] || ps.drop_first().contains(k));
        }
    }
}

/// Concurrency safety of the accumulator: however an interleaving
/// orders the registrations, the same paths are registered, and no
/// entry is lost; distinct fresh paths each count.
pub proof fn lemma_accumulator_no_loss(
    s: Set<Seq<char>>,
    ps: Seq<Seq<char>>,
    qs: Seq<Seq<char>>,
)
    requires
        forall|k: Seq<char>| #[trigger] ps.contains(k) <==> #[trigger] qs.contains(k),
    ensures
        add_paths(s, ps) == add_paths(s, qs),
        forall|k: Seq<char>| ps.contains(k) ==> add_paths(s, ps).contains(k),
{
    lemma_add_paths_characterize(s, ps);
    lemma_add_paths_characterize(s, qs);
    assert forall|k: Seq<char>|
        add_paths(s, ps).contains(k) <==> add_paths(s, qs).contains(k) by {
        assert(add_paths(s, ps).contains(k) <==> s.contains(k) || ps.contains(k));
        assert(add_paths(s, qs).contains(k) <==> s.contains(k) || qs.contains(k));
    }
    assert(add_paths(s, ps) =~= add_paths(s, qs));
}

/// Registering `n` distinct paths, none recorded before, grows the
/// accumulator by exactly `n`: from empty it ends with exactly the
/// number of simulated invocations.
pub proof fn lemma_accumulator_count(s: Set<Seq<char>>, ps: Seq<Seq<char>>)
    requires
        s.finite(),
        forall|i: int, j: int| 0 <= i < j < ps.len() ==> ps[i] != ps[j],
        forall|i: int| 0 <= i < ps.len() ==> !s.contains(#[trigger] ps[i]),
    ensures
        add_paths(s, ps).finite(),
        add_paths(s, ps).len() == s.len() + ps.len(),
    decreases ps.len(),
{
    if ps.len() > 0 {
        let s1 = s.insert(ps[0]);
        let ps1 = ps.drop_first();
        assert forall|i: int| 0 <= i < ps1.len() implies !s1.contains(#[trigger] ps1[i]) by {
            assert(ps1[i] == ps[i + 1]);
            assert(ps[i + 1] != ps[0]);
        }
        assert forall|i: int, j: int| 0 <= i < j < ps1.len() implies ps1[i] != ps1[j] by {
            assert(ps1[i] == ps[i + 1]);
            assert(ps1[j] == ps[j + 1]);
        }
        lemma_accumulator_count(s1, ps1);
        assert(s1.len() == s.len() + 1);
    }
}

/// A duplicate-free list of canonical paths, seen as the set it holds.
pub struct PathList {
    pub items: Vec<String>,
}

impl View for PathList {
    type V = Set<Seq<char>>;

    open spec fn view(&self) -> Set<Seq<char>> {
        path_set(self.items@)
    }
}

impl PathList {
    /// No path stands twice.
    pub open spec fn wf(&self) -> bool {
        forall|i: int, j: int|
            0 <= i < j < self.items@.len() ==> (#[trigger] self.items@[i])@ != (
            #[trigger] self.items@[j])@
    }

    /// An empty list.
    pub fn new() -> (r: Self)
        ensures
            r.wf(),
            r@ == Set::<Seq<char>>::empty(),
    {
        PathList { items: Vec::new() }
    }

    /// How many distinct paths are recorded.
    pub fn len(&self) -> (n: usize)
        requires
            self.wf(),
        ensures
            n == self.items@.len(),
            n == self@.len(),
    {
        proof {
            lemma_path_list_len(self.items@);
        }
        self.items.len()
    }

    /// Whether `path` is recorded.
    pub fn contains(&self, path: &String) -> (b: bool)
        ensures
            b == self@.contains(path@),
    {
        let n = self.items.len();
        let mut i: usize = 0;
        while i < n
            invariant
                i <= n,
                n == self.items@.len(),
                forall|j: int| 0 <= j < i ==> (#[trigger] self.items@[j])@ != path@,
            decreases n - i,
        {
            if self.items[i] == *path {
                proof {
                    lemma_path_set_characterize(self.items@, path@);
                }
                return true;
            }
            i = i + 1;
        }
        proof {
            lemma_path_set_characterize(self.items@, path@);
        }
        false
    }

    /// Records `path`; recording a present path changes nothing.
    pub fn insert(&mut self, path: String)
        requires
            old(self).wf(),
        ensures
            final(self).wf(),
            final(self)@ == old(self)@.insert(path@),
    {
        if self.contains(&path) {
            proof {
                assert(self@ =~= self@.insert(path@));
            }
        } else {
            let ghost pre = self.items@;
            proof {
                lemma_path_set_characterize(pre, path@);
                assert forall|j: int| 0 <= j < pre.len() implies (#[trigger] pre[j])@ != path@ by {
                    if pre[j]@ == path@ {
                        assert(path_set(pre).contains(path@));
                    }
                }
            }
            self.items.push(path);
            proof {
                assert(self.items@.drop_last() =~= pre);
            }
        }
    }

    /// Records every path of `paths`, in order.
    pub fn insert_all(&mut self, paths: &Vec<String>)
        requires
            old(self).wf(),
        ensures
            final(self).wf(),
            final(self)@ == add_paths(old(self)@, paths.deep_view()),
    {
        let ghost dv = paths.deep_view();
        let ghost s0 = self@;
        let n = paths.len();
        let mut i: usize = 0;
        proof {
            assert(dv.skip(0) =~= dv);
        }
        while i < n
            invariant
                i <= n,
                n == paths@.len(),
                dv == paths.deep_view(),
                self.wf(),
                add_paths(s0, dv) == add_paths(self@, dv.skip(i as int)),
            decreases n - i,
        {
            let ghost rest = dv.skip(i as int);
            let ghost cur = self@;
            proof {
                assert(rest[0] == dv[i as int]);
                assert(dv[i as int] == paths@[i as int]@);
                assert(rest.drop_first() =~= dv.skip(i + 1));
                assert(add_paths(cur, rest) == add_paths(cur.insert(rest[0]),
                    rest.drop_first()));
            }
            let p = paths[i].clone();
            self.insert(p);
            i = i + 1;
        }
        proof {
            assert(dv.skip(n as int) =~= Seq::<Seq<char>>::empty());
        }
    }
}

/// A duplicate-free list holds as many entries as its set.
proof fn lemma_path_list_len(s: Seq<String>)
    requires
        forall|i: int, j: int| 0 <= i < j < s.len() ==> (#[trigger] s[i])@ != (#[trigger] s[j])@,
    ensures
        path_set(s).finite(),
        path_set(s).len() == s.len(),
    decreases s.len(),
{
    if s.len() > 0 {
        lemma_path_list_len(s.drop_last());
        lemma_path_set_characterize(s.drop_last(), s.last()@);
        if path_set(s.drop_last()).contains(s.last()@) {
            let i = choose|i: int|
                0 <= i < s.drop_last().len() && (#[trigger] s.drop_last()[i])@ == s.last()@;
            assert(s[i]@ == s[s.len() - 1]@);
        }
    }
}

/// What the interceptor accumulates over the whole build phase: the
/// source files named by any invocation, and every designated output
/// directory.
pub struct InvocationLog {
    pub rs_file_args: PathList,
    pub out_dir_args: PathList,
}

impl InvocationLog {
    /// Both lists are duplicate-free.
    pub open spec fn wf(&self) -> bool {
        self.rs_file_args.wf() && self.out_dir_args.wf()
    }

    /// An empty log.
    pub fn new() -> (r: Self)
        ensures
            r.wf(),
            r.rs_file_args@ == Set::<Seq<char>>::empty(),
            r.out_dir_args@ == Set::<Seq<char>>::empty(),
    {
        InvocationLog { rs_file_args: PathList::new(), out_dir_args: PathList::new() }
    }

    /// Records one invocation's facts: every named source file and the
    /// output directory.  The caller holds the accumulator's lock for
    /// exactly this call, so each invocation lands atomically.
    pub fn record_invocation(&mut self, rs_files: &Vec<String>, out_dir: String)
        requires
            old(self).wf(),
        ensures
            final(self).wf(),
            final(self).rs_file_args@ == add_paths(
                old(self).rs_file_args@,
                rs_files.deep_view(),
            ),
            final(self).out_dir_args@ == old(self).out_dir_args@.insert(out_dir@),
    {
        self.rs_file_args.insert_all(rs_files);
        self.out_dir_args.insert(out_dir);
    }
}

/// Whether an argument names a source file: it ends in `.rs` in either
/// letter case.
pub open spec fn is_rs_path(s: Seq<char>) -> bool {
    s.len() >= 3 && s[s.len() - 3] == '.' && (s[s.len() - 2] == 'r' || s[s.len() - 2] == 'R') && (
    s[s.len() - 1] == 's' || s[s.len() - 1] == 'S')
}

/// The arguments naming source files, in argument order.
pub open spec fn rs_args(args: Seq<Seq<char>>) -> Seq<Seq<char>>
    decreases args.len(),
{
    if args.len() == 0 {
        seq![]
    } else if is_rs_path(args.last()) {
        rs_args(args.drop_last()).push(args.last())
    } else {
        rs_args(args.drop_last())
    }
}

/// The flag whose following argument designates the output directory.
pub open spec fn out_dir_flag() -> Seq<char> {
    "--out-dir"@
}

/// Index of the first argument equal to the output-directory flag,
/// or -1.
pub open spec fn find_out_dir_key(args: Seq<Seq<char>>) -> int
    decreases args.len(),
{
    if args.len() == 0 {
        -1
    } else if args[0] == out_dir_flag() {
        0
    } else if find_out_dir_key(args.drop_first()) < 0 {
        -1
    } else {
        find_out_dir_key(args.drop_first()) + 1
    }
}

/// `find_out_dir_key` returns -1 exactly when no argument is the
/// flag, and otherwise the least index holding it.
pub proof fn lemma_find_out_dir_key(args: Seq<Seq<char>>)
    ensures
        find_out_dir_key(args) == -1 || find_out_dir_key(args) >= 0,
        find_out_dir_key(args) == -1 ==> forall|j: int|
            0 <= j < args.len() ==> args[j] != out_dir_flag(),
        find_out_dir_key(args) >= 0 ==> 0 <= find_out_dir_key(args) < args.len() && args[
            find_out_dir_key(args)
        ] == out_dir_flag(),
        find_out_dir_key(args) >= 0 ==> forall|j: int|
            0 <= j < find_out_dir_key(args) ==> args[j] != out_dir_flag(),
    decreases args.len(),
{
    if args.len() == 0 {
    } else if args[0] == out_dir_flag() {
    } else {
        lemma_find_out_dir_key(args.drop_first());
        assert forall|j: int| 1 <= j < args.len() implies args[j] == args.drop_first()[j - 1] by {}
    }
}

/// One invocation's recorded facts: the source files its arguments
/// name, as given (not yet resolved against the invocation's working
/// directory), and its designated output directory.
pub struct InvocationFacts {
    pub rs_files: Vec<String>,
    pub out_dir: String,
}

/// Why an invocation's arguments cannot be read: the expected
/// output-directory flag is missing, or nothing follows it.  Either
/// breaks the build-tool convention this library relies on, so the
/// caller aborts the whole build.
#[derive(Debug, PartialEq, Eq)]
pub enum ExecArgError {
    OutDirKeyMissing,
    OutDirValueMissing,
}

/// Whether `arg` names a source file.
pub fn arg_names_source_file(arg: &String) -> (b: bool)
    ensures
        b == is_rs_path(arg@),
{
    let n = arg.as_str().unicode_len();
    if n < 3 {
        false
    } else {
        let dot = arg.as_str().get_char(n - 3);
        let r = arg.as_str().get_char(n - 2);
        let s = arg.as_str().get_char(n - 1);
        dot == '.' && (r == 'r' || r == 'R') && (s == 's' || s == 'S')
    }
}

/// Index of the first argument equal to `flag`, if any.
fn find_flag_index(args: &Vec<String>, flag: &String) -> (r: Option<usize>)
    ensures
        match r {
            Some(k) => k < args@.len() && args.deep_view()[k as int] == flag@ && forall|j: int|
                0 <= j < k ==> args.deep_view()[j] != flag@,
            None => forall|j: int| 0 <= j < args@.len() ==> args.deep_view()[j] != flag@,
        },
{
    let n = args.len();
    let mut i: usize = 0;
    while i < n
        invariant
            i <= n,
            n == args@.len(),
            forall|j: int| 0 <= j < i ==> args.deep_view()[j] != flag@,
        decreases n - i,
    {
        proof {
            assert(args.deep_view()[i as int] == args@[i as int]@);
        }
        if args[i] == *flag {
            return Some(i);
        }
        i = i + 1;
    }
    None
}

/// Reads one invocation's argument list: every argument naming a
/// source file, and the argument following the first
/// output-directory flag.  Fails exactly when the flag is absent or
/// stands last.
pub fn extract_invocation_facts(args: &Vec<String>) -> (r: Result<
    InvocationFacts,
    ExecArgError,
>)
    ensures
        ({
            let av = args.deep_view();
            match r {
                Ok(f) => 0 <= find_out_dir_key(av) < av.len() - 1 && f.out_dir@ == av[
                    find_out_dir_key(av) + 1
                ] && f.rs_files.deep_view() == rs_args(av),
                Err(ExecArgError::OutDirKeyMissing) => find_out_dir_key(av) == -1,
                Err(ExecArgError::OutDirValueMissing) => find_out_dir_key(av) == av.len() - 1,
            }
        }),
{
    let ghost av = args.deep_view();
    let flag: String = String::from_str("--out-dir");
    let n = args.len();
    let key = find_flag_index(args, &flag);
    let ki = match key {
        Some(k) => {
            proof {
                lemma_find_out_dir_key(av);
            }
            k
        },
        None => {
            proof {
                lemma_find_out_dir_key(av);
            }
            return Err(ExecArgError::OutDirKeyMissing);
        },
    };
    if ki + 1 >= n {
        return Err(ExecArgError::OutDirValueMissing);
    }
    let out_dir = args[ki + 1].clone();
    let mut rs_files: Vec<String> = Vec::new();
    let mut j: usize = 0;
    proof {
        assert(av.take(0) =~= Seq::<Seq<char>>::empty());
        assert(rs_files.deep_view() =~= rs_args(av.take(0)));
    }
    while j < n
        invariant
            j <= n,
            n == args@.len(),
            av == args.deep_view(),
            rs_files.deep_view() == rs_args(av.take(j as int)),
        decreases n - j,
    {
        let ghost pre = rs_files.deep_view();
        proof {
            assert(av.take(j + 1).drop_last() =~= av.take(j as int));
            assert(av.take(j + 1).last() == av[j as int]);
            assert(av[j as int] == args@[j as int]@);
        }
        if arg_names_source_file(&args[j]) {
            let p = args[j].clone();
            rs_files.push(p);
            proof {
                assert(rs_files.deep_view() =~= pre.push(av[j as int]));
            }
        }
        j = j + 1;
    }
    proof {
        assert(av.take(n as int) =~= av);
    }
    Ok(InvocationFacts { rs_files, out_dir })
}

} // verus!
