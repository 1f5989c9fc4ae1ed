//! Classification of a package's on-disk source files against its
//! declared build targets.  Every path here is already canonical: the
//! caller resolves and canonicalizes before handing paths in, and
//! skips declared targets whose entry file does not exist on disk.
//! A file matched by several targets is emitted once per matching
//! kind, not deduplicated, since later checks are keyed on the pair
//! of package and kind.

use vstd::prelude::*;

verus! {

/// The declared role of a build target.
#[derive(Clone, Copy, Debug, PartialEq, Eq, Structural)]
pub enum TargetKind {
    Lib,
    Bin,
    Test,
    Bench,
    ExampleLib,
    ExampleBin,
    CustomBuild,
}

/// One declared build target: its role and its canonical entry path.
pub struct Target {
    pub kind: TargetKind,
    pub src_path: String,
}

/// How a source file relates to the declared targets; the roles a
/// finding can be keyed on.
#[derive(Clone, Copy, Debug, PartialEq, Eq, Structural)]
pub enum FileRole {
    LibRoot,
    BinRoot,
    CustomBuildRoot,
    Other,
}

/// A classified source file; the wrapped path is canonical.
pub enum RsFile {
    /// Library entry point source file.
    LibRoot(String),
    /// Executable entry point source file.
    BinRoot(String),
    /// Build-script entry point source file.
    CustomBuildRoot(String),
    /// Any other source file.
    Other(String),
}

/// The canonical path a record carries.
pub open spec fn rs_file_path(f: RsFile) -> Seq<char> {
    match f {
        RsFile::LibRoot(p) => p@,
        RsFile::BinRoot(p) => p@,
        RsFile::CustomBuildRoot(p) => p@,
        RsFile::Other(p) => p@,
    }
}

/// The role a record carries.
pub open spec fn rs_file_role(f: RsFile) -> FileRole {
    match f {
        RsFile::LibRoot(_) => FileRole::LibRoot,
        RsFile::BinRoot(_) => FileRole::BinRoot,
        RsFile::CustomBuildRoot(_) => FileRole::CustomBuildRoot,
        RsFile::Other(_) => FileRole::Other,
    }
}

impl RsFile {
    /// The canonical path of the file.
    pub fn as_path_buf(&self) -> (r: &String)
        ensures
            r@ == rs_file_path(*self),
    {
        match self {
            RsFile::LibRoot(pb) => pb,
            RsFile::BinRoot(pb) => pb,
            RsFile::CustomBuildRoot(pb) => pb,
            RsFile::Other(pb) => pb,
        }
    }

    /// The role of the file.
    pub fn role(&self) -> (r: FileRole)
        ensures
            r == rs_file_role(*self),
    {
        match self {
            RsFile::LibRoot(_) => FileRole::LibRoot,
            RsFile::BinRoot(_) => FileRole::BinRoot,
            RsFile::CustomBuildRoot(_) => FileRole::CustomBuildRoot,
            RsFile::Other(_) => FileRole::Other,
        }
    }
}

/// The role a target of the given kind confers on its entry file:
/// tests, benches and examples are ordinary files for this audit.
pub open spec fn role_of_target(k: TargetKind) -> FileRole {
    match k {
        TargetKind::Lib => FileRole::LibRoot,
        TargetKind::Bin => FileRole::BinRoot,
        TargetKind::CustomBuild => FileRole::CustomBuildRoot,
        TargetKind::Test => FileRole::Other,
        TargetKind::Bench => FileRole::Other,
        TargetKind::ExampleLib => FileRole::Other,
        TargetKind::ExampleBin => FileRole::Other,
    }
}

/// Wraps a target's entry path in the record its kind calls for.
pub fn into_rs_code_file(kind: &TargetKind, path: String) -> (r: RsFile)
    ensures
        rs_file_role(r) == role_of_target(*kind),
        rs_file_path(r) == path@,
{
    match kind {
        TargetKind::Lib => RsFile::LibRoot(path),
        TargetKind::Bin => RsFile::BinRoot(path),
        TargetKind::Test => RsFile::Other(path),
        TargetKind::Bench => RsFile::Other(path),
        TargetKind::ExampleLib => RsFile::Other(path),
        TargetKind::ExampleBin => RsFile::Other(path),
        TargetKind::CustomBuild => RsFile::CustomBuildRoot(path),
    }
}

/// Whether some declared target's entry is this canonical path.
pub open spec fn matches_some_target(ts: Seq<Target>, p: Seq<char>) -> bool {
    exists|i: int| 0 <= i < ts.len() && (#[trigger] ts[i]).src_path@ == p
}

/// The records of the walked files no target claims, in walk order.
pub open spec fn unmatched_records(files: Seq<Seq<char>>, ts: Seq<Target>) -> Seq<
    (FileRole, Seq<char>),
>
    decreases files.len(),
{
    if files.len() == 0 {
        seq![]
    } else if matches_some_target(ts, files.last()) {
        unmatched_records(files.drop_last(), ts)
    } else {
        unmatched_records(files.drop_last(), ts).push((FileRole::Other, files.last()))
    }
}

/// One record per declared target, in declaration order.
pub open spec fn target_records(ts: Seq<Target>) -> Seq<(FileRole, Seq<char>)> {
    Seq::new(ts.len(), |i: int| (role_of_target(ts[i].kind), ts[i].src_path@))
}

/// Everything classification emits for one package: the unclaimed
/// walked files, then one record per declared target.
pub open spec fn classified_records(files: Seq<Seq<char>>, ts: Seq<Target>) -> Seq<
    (FileRole, Seq<char>),
> {
    unmatched_records(files, ts) + target_records(ts)
}

/// The view of a record list.
pub open spec fn rs_file_views(v: Seq<RsFile>) -> Seq<(FileRole, Seq<char>)> {
    Seq::new(v.len(), |i: int| (rs_file_role(v[i]), rs_file_path(v[i])))
}

/// Whether some declared target's entry is the path `p`.
fn matches_target(targets: &Vec<Target>, p: &String) -> (b: bool)
    ensures
        b == matches_some_target(targets@, p@),
{
    let n = targets.len();
    let mut i: usize = 0;
    while i < n
        invariant
            i <= n,
            n == targets@.len(),
            forall|j: int| 0 <= j < i ==> (#[trigger] targets@[j]).src_path@ != p@,
        decreases n - i,
    {
        if targets[i].src_path == *p {
            return true;
        }
        i = i + 1;
    }
    false
}

/// Classifies one package's walked source files against its declared
/// targets: a file claimed by no target is an ordinary record, and
/// every target contributes one record of its kind — a path declared
/// by several targets is emitted once per kind.
pub fn find_rs_files_in_package(targets: &Vec<Target>, files: &Vec<String>) -> (r: Vec<RsFile>)
    ensures
        rs_file_views(r@) == classified_records(files.deep_view(), targets@),
{
    let ghost fv = files.deep_view();
    let mut out: Vec<RsFile> = Vec::new();
    let n = files.len();
    let mut i: usize = 0;
    proof {
        assert(fv.take(0) =~= Seq::<Seq<char>>::empty());
        assert(rs_file_views(out@) =~= unmatched_records(fv.take(0), targets@));
    }
    while i < n
        invariant
            i <= n,
            n == files@.len(),
            fv == files.deep_view(),
            rs_file_views(out@) == unmatched_records(fv.take(i as int), targets@),
        decreases n - i,
    {
        let ghost pre = rs_file_views(out@);
        proof {
            assert(fv.take(i + 1).drop_last() =~= fv.take(i as int));
            assert(fv.take(i + 1).last() == fv[i as int]);
            assert(fv[i as int] == files@[i as int]@);
        }
        if !matches_target(targets, &files[i]) {
            let p = files[i].clone();
            out.push(RsFile::Other(p));
            proof {
                assert(rs_file_views(out@) =~= pre.push((FileRole::Other, fv[i as int])));
            }
        }
        i = i + 1;
    }
    proof {
        assert(fv.take(n as int) =~= fv);
    }
    let m = targets.len();
    let mut t: usize = 0;
    proof {
        assert(rs_file_views(out@) =~= unmatched_records(fv, targets@) + target_records(
            targets@,
        ).take(0));
    }
    while t < m
        invariant
            t <= m,
            m == targets@.len(),
            fv == files.deep_view(),
            rs_file_views(out@) == unmatched_records(fv, targets@) + target_records(
                targets@,
            ).take(t as int),
        decreases m - t,
    {
        let ghost pre = rs_file_views(out@);
        let kind = targets[t].kind;
        let path = targets[t].src_path.clone();
        let rec = into_rs_code_file(&kind, path);
        out.push(rec);
        proof {
            assert(rs_file_views(out@) =~= pre.push((role_of_target(targets@[t as int].kind),
                targets@[t as int].src_path@)));
            assert(target_records(targets@).take(t + 1) =~= target_records(targets@).take(
                t as int,
            ).push((role_of_target(targets@[t as int].kind), targets@[t as int].src_path@)));
        }
        t = t + 1;
    }
    proof {
        assert(target_records(targets@).take(m as int) =~= target_records(targets@));
    }
    out
}

/// Every declared target's entry appears among the classified
/// records, under the role its kind confers.
pub proof fn lemma_every_target_classified(files: Seq<Seq<char>>, ts: Seq<Target>, i: int)
    requires
        0 <= i < ts.len(),
    ensures
        classified_records(files, ts).contains(
            (role_of_target(ts[i].kind), ts[i].src_path@),
        ),
{
    let recs = classified_records(files, ts);
    let at = unmatched_records(files, ts).len() + i;
    assert(recs[at] == (role_of_target(ts[i].kind), ts[i].src_path@));
}

/// A package that declares a library target and an executable target
/// at one canonical path is classified under both roles: one
/// library-root record and one executable-root record.
pub proof fn lemma_classification_both_kinds(
    files: Seq<Seq<char>>,
    ts: Seq<Target>,
    i: int,
    j: int,
)
    requires
        0 <= i < ts.len(),
        0 <= j < ts.len(),
        ts[i].kind == TargetKind::Lib,
        ts[j].kind == TargetKind::Bin,
        ts[i].src_path@ == ts[j].src_path@,
    ensures
        classified_records(files, ts).contains((FileRole::LibRoot, ts[i].src_path@)),
        classified_records(files, ts).contains((FileRole::BinRoot, ts[i].src_path@)),
{
    lemma_every_target_classified(files, ts, i);
    lemma_every_target_classified(files, ts, j);
}

/// Index of the last `d` in `s`, or -1.
pub open spec fn find_last_char(s: Seq<char>, d: char) -> int
    decreases s.len(),
{
    if s.len() == 0 {
        -1
    } else if s.last() == d {
        s.len() - 1
    } else {
        find_last_char(s.drop_last(), d)
    }
}

/// `find_last_char` returns -1 exactly when `d` is absent, and
/// otherwise the greatest index holding `d`.
pub proof fn lemma_find_last_char(s: Seq<char>, d: char)
    ensures
        find_last_char(s, d) == -1 || 0 <= find_last_char(s, d) < s.len(),
        find_last_char(s, d) == -1 ==> forall|j: int| 0 <= j < s.len() ==> s[j] != d,
        find_last_char(s, d) >= 0 ==> s[find_last_char(s, d)] == d,
        find_last_char(s, d) >= 0 ==> forall|j: int|
            find_last_char(s, d) < j < s.len() ==> s[j] != d,
    decreases s.len(),
{
    if s.len() == 0 {
    } else if s.last() == d {
    } else {
        lemma_find_last_char(s.drop_last(), d);
        assert forall|j: int| 0 <= j < s.len() - 1 implies s[j] == s.drop_last()[j] by {}
    }
}

/// The extension of a file name: what follows its last dot, except
/// that a name without a dot, or whose only dot begins it, has none.
pub open spec fn extension_of(name: Seq<char>) -> Option<Seq<char>> {
    let i = find_last_char(name, '.');
    if 0 < i < name.len() {
        Some(name.skip(i + 1))
    } else {
        None
    }
}

/// The walker's filter: whether a directory entry is a file whose
/// name carries the given extension.
pub fn is_file_with_ext(is_file: bool, file_name: &String, file_ext: &String) -> (b: bool)
    ensures
        b == (is_file && extension_of(file_name@) == Some(file_ext@)),
{
    if !is_file {
        return false;
    }
    let n = file_name.as_str().unicode_len();
    let mut i: usize = n;
    while i > 0
        invariant
            is_file,
            i <= n,
            n == file_name@.len(),
            forall|j: int| i <= j < n ==> file_name@[j] != '.',
        decreases i,
    {
        if file_name.as_str().get_char(i - 1) == '.' {
            proof {
                lemma_find_last_char(file_name@, '.');
                assert(find_last_char(file_name@, '.') == i - 1);
            }
            if i == 1 {
                return false;
            }
            let ext = file_name.as_str().substring_char(i, n).to_owned();
            proof {
                assert(ext@ =~= file_name@.skip(i as int));
            }
            return ext == *file_ext;
        }
        i = i - 1;
    }
    proof {
        lemma_find_last_char(file_name@, '.');
    }
    false
}

/// One resolved package, as the project model provides it: its name
/// and its declared targets whose entries exist on disk.
pub struct Package {
    pub name: String,
    pub targets: Vec<Target>,
}

/// The classified records of one package, each tagged with its name.
pub open spec fn tag_records(name: Seq<char>, recs: Seq<(FileRole, Seq<char>)>) -> Seq<
    (Seq<char>, (FileRole, Seq<char>)),
> {
    Seq::new(recs.len(), |i: int| (name, recs[i]))
}

/// The classified records of every package in order, each tagged with
/// its package's name; `fs` holds, per package, the walked files.
pub open spec fn packages_records(ps: Seq<Package>, fs: Seq<Seq<Seq<char>>>) -> Seq<
    (Seq<char>, (FileRole, Seq<char>)),
>
    decreases ps.len(),
{
    if ps.len() == 0 {
        seq![]
    } else {
        packages_records(ps.drop_last(), fs.drop_last()) + tag_records(
            ps.last().name@,
            classified_records(fs.last(), ps.last().targets@),
        )
    }
}

/// The view of a tagged record list.
pub open spec fn tagged_views(v: Seq<(String, RsFile)>) -> Seq<
    (Seq<char>, (FileRole, Seq<char>)),
> {
    Seq::new(v.len(), |i: int| (v[i].0@, (rs_file_role(v[i].1), rs_file_path(v[i].1))))
}

/// A record with the same role and path.
fn clone_record(f: &RsFile) -> (r: RsFile)
    ensures
        rs_file_role(r) == rs_file_role(*f),
        rs_file_path(r) == rs_file_path(*f),
{
    match f {
        RsFile::LibRoot(p) => RsFile::LibRoot(p.clone()),
        RsFile::BinRoot(p) => RsFile::BinRoot(p.clone()),
        RsFile::CustomBuildRoot(p) => RsFile::CustomBuildRoot(p.clone()),
        RsFile::Other(p) => RsFile::Other(p.clone()),
    }
}

/// Classifies every package's walked files, tagging each record with
/// its package's name; `files` holds, per package in the same order,
/// the source files walked under its root.
pub fn find_rs_files_in_packages(packs: &Vec<Package>, files: &Vec<Vec<String>>) -> (r: Vec<
    (String, RsFile),
>)
    requires
        packs@.len() == files@.len(),
    ensures
        tagged_views(r@) == packages_records(packs@, files.deep_view()),
{
    let ghost fv = files.deep_view();
    let mut out: Vec<(String, RsFile)> = Vec::new();
    let n = packs.len();
    let mut i: usize = 0;
    proof {
        assert(packs@.take(0) =~= Seq::<Package>::empty());
        assert(tagged_views(out@) =~= packages_records(packs@.take(0), fv.take(0)));
    }
    while i < n
        invariant
            i <= n,
            n == packs@.len(),
            packs@.len() == files@.len(),
            fv == files.deep_view(),
            tagged_views(out@) == packages_records(packs@.take(i as int), fv.take(i as int)),
        decreases n - i,
    {
        let recs = find_rs_files_in_package(&packs[i].targets, &files[i]);
        let ghost inner = classified_records(fv[i as int], packs@[i as int].targets@);
        proof {
            assert(fv[i as int] == files@[i as int].deep_view());
            assert(rs_file_views(recs@) == inner);
        }
        let m = recs.len();
        let mut j: usize = 0;
        proof {
            assert(tag_records(packs@[i as int].name@, inner).take(0) =~= Seq::<
                (Seq<char>, (FileRole, Seq<char>)),
            >::empty());
            assert(tagged_views(out@) =~= packages_records(packs@.take(i as int), fv.take(
                i as int,
            )) + tag_records(packs@[i as int].name@, inner).take(0));
        }
        while j < m
            invariant
                j <= m,
                i < n,
                n == packs@.len(),
                packs@.len() == files@.len(),
                fv == files.deep_view(),
                m == recs@.len(),
                rs_file_views(recs@) == inner,
                inner == classified_records(fv[i as int], packs@[i as int].targets@),
                tagged_views(out@) == packages_records(packs@.take(i as int), fv.take(i as int))
                    + tag_records(packs@[i as int].name@, inner).take(j as int),
            decreases m - j,
        {
            let ghost pre = tagged_views(out@);
            let name = packs[i].name.clone();
            let rec = clone_record(&recs[j]);
            out.push((name, rec));
            proof {
                assert(rs_file_views(recs@)[j as int] == (rs_file_role(recs@[j as int]),
                    rs_file_path(recs@[j as int])));
                assert(tagged_views(out@) =~= pre.push((packs@[i as int].name@, inner[j as int])));
                assert(tag_records(packs@[i as int].name@, inner).take(j + 1) =~= tag_records(
                    packs@[i as int].name@,
                    inner,
                ).take(j as int).push((packs@[i as int].name@, inner[j as int])));
            }
            j = j + 1;
        }
        proof {
            assert(tag_records(packs@[i as int].name@, inner).take(m as int) =~= tag_records(
                packs@[i as int].name@,
                inner,
            ));
            assert(packs@.take(i + 1).drop_last() =~= packs@.take(i as int));
            assert(fv.take(i + 1).drop_last() =~= fv.take(i as int));
            assert(packs@.take(i + 1).last() == packs@[i as int]);
            assert(fv.take(i + 1).last() == fv[i as int]);
        }
        i = i + 1;
    }
    proof {
        assert(packs@.take(n as int) =~= packs@);
        assert(fv.take(n as int) =~= fv);
    }
    out
}

} // verus!
