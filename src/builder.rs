use vstd::prelude::*;
use crate::error::BackupError;
use crate::paths::{
    chars_of, derive_root_name, join_slash, normal_names, parts_view, path_to_zip_string, string_of,
    Part, PathPart,
};

verus! {

/// What a directory listing reports an entry to be.
#[derive(Clone, Copy, Debug, PartialEq, Eq, Structural)]
pub enum EntryKind {
    Directory,
    File,
    Symlink,
    /// Anything else (a socket, a device): neither walked nor archived.
    Other,
}

/// One entry found while walking a source directory.
#[derive(Clone, Debug)]
pub struct TreeEntry {
    /// The names leading from the source directory to the entry.
    pub path: Vec<String>,
    pub kind: EntryKind,
    /// The bytes of a regular file; empty for anything else.
    pub data: Vec<u8>,
}

pub struct TreeEntryView {
    pub path: Seq<Seq<char>>,
    pub kind: EntryKind,
    pub data: Seq<u8>,
}

impl View for TreeEntry {
    type V = TreeEntryView;

    open spec fn view(&self) -> TreeEntryView {
        TreeEntryView { path: self.path@.map_values(|s: String| s@), kind: self.kind, data: self.data@ }
    }
}

/// A source directory as the filesystem showed it: whether it exists, its
/// canonical path, and its entries in walk order (each directory before what
/// it holds).
#[derive(Clone, Debug)]
pub struct SourceDir {
    pub exists: bool,
    pub is_dir: bool,
    pub canonical: Vec<PathPart>,
    pub entries: Vec<TreeEntry>,
}

pub struct SourceView {
    pub exists: bool,
    pub is_dir: bool,
    pub canonical: Seq<Part>,
    pub entries: Seq<TreeEntryView>,
}

impl View for SourceDir {
    type V = SourceView;

    open spec fn view(&self) -> SourceView {
        SourceView {
            exists: self.exists,
            is_dir: self.is_dir,
            canonical: parts_view(self.canonical@),
            entries: self.entries@.map_values(|e: TreeEntry| e@),
        }
    }
}

/// One entry to be written into an archive: a directory marker (its name
/// ends in `/`) or a file with its bytes.
#[derive(Clone, Debug)]
pub struct ArchiveEntry {
    pub name: String,
    pub is_dir: bool,
    pub data: Vec<u8>,
}

pub struct EntryView {
    pub name: Seq<char>,
    pub is_dir: bool,
    pub data: Seq<u8>,
}

impl View for ArchiveEntry {
    type V = EntryView;

    open spec fn view(&self) -> EntryView {
        EntryView { name: self.name@, is_dir: self.is_dir, data: self.data@ }
    }
}

pub open spec fn entries_view(v: Seq<ArchiveEntry>) -> Seq<EntryView> {
    v.map_values(|e: ArchiveEntry| e@)
}

pub open spec fn sources_view(v: Seq<SourceDir>) -> Seq<SourceView> {
    v.map_values(|s: SourceDir| s@)
}

/// Component-wise prefix, as paths compare.
pub open spec fn parts_start_with(path: Seq<Part>, base: Seq<Part>) -> bool {
    base.len() <= path.len() && path.take(base.len() as int) == base
}

/// The root name of one source directory, or the first check it fails.
pub open spec fn source_check(archive: Seq<Part>, s: SourceView) -> Result<Seq<char>, BackupError> {
    if !s.exists {
        Err(BackupError::NotFound)
    } else if !s.is_dir {
        Err(BackupError::NotADirectory)
    } else if parts_start_with(archive, s.canonical) {
        Err(BackupError::SelfContainment)
    } else if normal_names(s.canonical).len() == 0 {
        Err(BackupError::UnnameableRoot)
    } else {
        Ok(normal_names(s.canonical).last())
    }
}

/// The root names of all sources in order, or the first failure, sources
/// taken one after another.
pub open spec fn roots_of(archive: Seq<Part>, srcs: Seq<SourceView>) -> Result<
    Seq<Seq<char>>,
    BackupError,
>
    decreases srcs.len(),
{
    if srcs.len() == 0 {
        Ok(seq![])
    } else {
        match roots_of(archive, srcs.drop_last()) {
            Err(e) => Err(e),
            Ok(names) => match source_check(archive, srcs.last()) {
                Err(e) => Err(e),
                Ok(n) => if names.contains(n) {
                    Err(BackupError::DuplicateRootName)
                } else {
                    Ok(names.push(n))
                },
            },
        }
    }
}

/// The archive entry, if any, for one walked entry under `root`.
pub open spec fn entry_for(root: Seq<char>, e: TreeEntryView) -> Seq<EntryView> {
    let name = join_slash(seq![root] + e.path);
    match e.kind {
        EntryKind::Directory => seq![EntryView { name: name + seq!['/'], is_dir: true, data: seq![] }],
        EntryKind::File => seq![EntryView { name: name, is_dir: false, data: e.data }],
        _ => seq![],
    }
}

/// The archive entries for walked entries under `root`, in walk order.
pub open spec fn walked_entries(root: Seq<char>, es: Seq<TreeEntryView>) -> Seq<EntryView>
    decreases es.len(),
{
    if es.len() == 0 {
        seq![]
    } else {
        walked_entries(root, es.drop_last()) + entry_for(root, es.last())
    }
}

/// A source directory's entries: its own marker `root/`, then its tree.
pub open spec fn tree_entries(root: Seq<char>, es: Seq<TreeEntryView>) -> Seq<EntryView> {
    seq![EntryView { name: root + seq!['/'], is_dir: true, data: seq![] }] + walked_entries(root, es)
}

/// All entries of an archive of the sources, under the given root names.
pub open spec fn archive_entries(names: Seq<Seq<char>>, srcs: Seq<SourceView>) -> Seq<EntryView>
    decreases srcs.len(),
{
    if srcs.len() == 0 || names.len() != srcs.len() {
        seq![]
    } else {
        archive_entries(names.drop_last(), srcs.drop_last()) + tree_entries(
            names.last(),
            srcs.last().entries,
        )
    }
}

/// What an archive of the sources holds, or why none can be made.
pub open spec fn archive_plan(archive: Seq<Part>, srcs: Seq<SourceView>) -> Result<
    Seq<EntryView>,
    BackupError,
> {
    match roots_of(archive, srcs) {
        Err(e) => Err(e),
        Ok(names) => Ok(archive_entries(names, srcs)),
    }
}


fn part_eq(a: &PathPart, b: &PathPart) -> (r: bool)
    ensures
        r == (a@ == b@),
{
    match (a, b) {
        (PathPart::Prefix(x), PathPart::Prefix(y)) => *x == *y,
        (PathPart::RootDir, PathPart::RootDir) => true,
        (PathPart::CurDir, PathPart::CurDir) => true,
        (PathPart::ParentDir, PathPart::ParentDir) => true,
        (PathPart::Normal(x), PathPart::Normal(y)) => *x == *y,
        _ => false,
    }
}

/// Whether `base` is a component-wise prefix of `path`.
pub fn path_starts_with(path: &Vec<PathPart>, base: &Vec<PathPart>) -> (r: bool)
    ensures
        r == parts_start_with(parts_view(path@), parts_view(base@)),
{
    if base.len() > path.len() {
        return false;
    }
    let mut i: usize = 0;
    while i < base.len()
        invariant
            i <= base.len() <= path.len(),
            forall|j: int| 0 <= j < i ==> path@[j]@ == base@[j]@,
        decreases base.len() - i,
    {
        if !part_eq(&path[i], &base[i]) {
            assert(parts_view(path@).take(base.len() as int)[i as int] != parts_view(base@)[i as int]);
            return false;
        }
        i = i + 1;
    }
    assert(parts_view(path@).take(base.len() as int) =~= parts_view(base@));
    true
}

/// The root name of one source directory, or the first check it fails.
pub fn check_source(archive: &Vec<PathPart>, src: &SourceDir) -> (r: Result<String, BackupError>)
    ensures
        match source_check(parts_view(archive@), src@) {
            Ok(n) => r == Ok::<String, BackupError>(r->Ok_0) && r->Ok_0@ == n,
            Err(e) => r == Err::<String, BackupError>(e),
        },
{
    if !src.exists {
        return Err(BackupError::NotFound);
    }
    if !src.is_dir {
        return Err(BackupError::NotADirectory);
    }
    if path_starts_with(archive, &src.canonical) {
        return Err(BackupError::SelfContainment);
    }
    derive_root_name(&src.canonical)
}

fn name_taken(names: &Vec<String>, n: &String) -> (r: bool)
    ensures
        r == names@.map_values(|s: String| s@).contains(n@),
{
    let ghost v = names@.map_values(|s: String| s@);
    let mut i: usize = 0;
    while i < names.len()
        invariant
            i <= names.len(),
            v == names@.map_values(|s: String| s@),
            forall|j: int| 0 <= j < i ==> v[j] != n@,
        decreases names.len() - i,
    {
        if names[i] == *n {
            assert(v[i as int] == n@);
            return true;
        }
        i = i + 1;
    }
    false
}

/// The archive name `root/p1/.../pk` of a walked entry: the path made of
/// those components, in archive form.
fn entry_name(root: &String, path: &Vec<String>) -> (r: Vec<char>)
    ensures
        r@ == join_slash(seq![root@] + path@.map_values(|s: String| s@)),
{
    let mut parts: Vec<PathPart> = Vec::new();
    parts.push(PathPart::Normal(root.clone()));
    assert(parts_view(parts@).drop_last() =~= Seq::<Part>::empty());
    assert(normal_names(Seq::<Part>::empty()) == Seq::<Seq<char>>::empty());
    assert(parts_view(parts@).last() == Part::Normal(root@));
    assert(path@.map_values(|s: String| s@).take(0) =~= Seq::<Seq<char>>::empty());
    assert(normal_names(parts_view(parts@)) =~= seq![root@] + path@.map_values(|s: String| s@).take(0));
    let mut i: usize = 0;
    while i < path.len()
        invariant
            i <= path.len(),
            normal_names(parts_view(parts@)) == seq![root@] + path@.map_values(|s: String| s@).take(
                i as int,
            ),
        decreases path.len() - i,
    {
        let ghost before = parts_view(parts@);
        parts.push(PathPart::Normal(path[i].clone()));
        assert(parts_view(parts@).drop_last() =~= before);
        assert(parts_view(parts@).last() == Part::Normal(path[i as int]@));
        assert(path@.map_values(|s: String| s@).take(i as int + 1) =~= path@.map_values(
            |s: String| s@,
        ).take(i as int).push(path[i as int]@));
        i = i + 1;
    }
    assert(path@.map_values(|s: String| s@).take(path.len() as int) =~= path@.map_values(
        |s: String| s@,
    ));
    let name = path_to_zip_string(&parts);
    chars_of(name.as_str())
}

/// Appends the entries of one source directory, archived under `root`:
/// the marker `root/`, then each directory and file of its tree in walk
/// order. Symbolic links and other entries are left out.
pub fn add_tree_entries(root: &String, entries: &Vec<TreeEntry>, out: &mut Vec<ArchiveEntry>)
    ensures
        entries_view(final(out)@) == entries_view(old(out)@) + tree_entries(
            root@,
            entries@.map_values(|e: TreeEntry| e@),
        ),
{
    let ghost start = entries_view(out@);
    let ghost es = entries@.map_values(|e: TreeEntry| e@);
    let mut marker = chars_of(root.as_str());
    marker.push('/');
    assert(marker@ =~= root@ + seq!['/']);
    out.push(ArchiveEntry { name: string_of(&marker), is_dir: true, data: Vec::new() });
    let ghost head = entries_view(out@);
    assert(head =~= start + seq![EntryView { name: root@ + seq!['/'], is_dir: true, data: seq![] }]);
    let mut i: usize = 0;
    while i < entries.len()
        invariant
            i <= entries.len(),
            es == entries@.map_values(|e: TreeEntry| e@),
            head == start + seq![EntryView { name: root@ + seq!['/'], is_dir: true, data: seq![] }],
            entries_view(out@) == head + walked_entries(root@, es.take(i as int)),
        decreases entries.len() - i,
    {
        let ghost before = entries_view(out@);
        assert(es.take(i as int + 1).drop_last() =~= es.take(i as int));
        let e = &entries[i];
        match e.kind {
            EntryKind::Directory => {
                let mut name = entry_name(root, &e.path);
                name.push('/');
                let ghost nm = join_slash(seq![root@] + es[i as int].path);
                assert(name@ =~= nm + seq!['/']);
                out.push(ArchiveEntry { name: string_of(&name), is_dir: true, data: Vec::new() });
                assert(entries_view(out@) =~= before + entry_for(root@, es[i as int]));
            },
            EntryKind::File => {
                let name = entry_name(root, &e.path);
                out.push(ArchiveEntry { name: string_of(&name), is_dir: false, data: e.data.clone() });
                assert(entries_view(out@) =~= before + entry_for(root@, es[i as int]));
            },
            _ => {
                assert(entry_for(root@, es[i as int]) =~= seq![]);
                assert(entries_view(out@) =~= before + entry_for(root@, es[i as int]));
            },
        }
        assert(walked_entries(root@, es.take(i as int + 1)) == walked_entries(root@, es.take(i as int))
            + entry_for(root@, es[i as int]));
        i = i + 1;
    }
    assert(es.take(entries.len() as int) =~= es);
    assert(entries_view(out@) =~= start + tree_entries(root@, es));
}

/// Plans an archive of the source directories: checks each in order (it
/// exists, is a directory, does not hold the archive, has a root name not
/// seen before) and lists every entry to write. The first failed check is
/// the error.
pub fn plan_archive(archive: &Vec<PathPart>, sources: &Vec<SourceDir>) -> (r: Result<
    Vec<ArchiveEntry>,
    BackupError,
>)
    ensures
        match archive_plan(parts_view(archive@), sources_view(sources@)) {
            Ok(es) => r is Ok && entries_view(r->Ok_0@) == es,
            Err(e) => r == Err::<Vec<ArchiveEntry>, BackupError>(e),
        },
{
    let ghost a = parts_view(archive@);
    let ghost srcs = sources_view(sources@);
    let mut names: Vec<String> = Vec::new();
    let mut out: Vec<ArchiveEntry> = Vec::new();
    let mut i: usize = 0;
    assert(srcs.take(0) =~= seq![]);
    assert(names@.map_values(|s: String| s@) =~= seq![]);
    while i < sources.len()
        invariant
            i <= sources.len(),
            a == parts_view(archive@),
            srcs == sources_view(sources@),
            names.len() == i,
            roots_of(a, srcs.take(i as int)) == Ok::<Seq<Seq<char>>, BackupError>(
                names@.map_values(|s: String| s@),
            ),
            entries_view(out@) == archive_entries(
                names@.map_values(|s: String| s@),
                srcs.take(i as int),
            ),
        decreases sources.len() - i,
    {
        let ghost prev = names@.map_values(|s: String| s@);
        let ghost pre = srcs.take(i as int + 1);
        assert(pre.drop_last() =~= srcs.take(i as int));
        assert(pre.last() == sources@[i as int]@);
        let src = &sources[i];
        let root = match check_source(archive, src) {
            Ok(n) => n,
            Err(e) => {
                proof {
                    lemma_roots_fail_extend(a, srcs, i as int + 1);
                }
                return Err(e);
            },
        };
        if name_taken(&names, &root) {
            proof {
                lemma_roots_fail_extend(a, srcs, i as int + 1);
            }
            return Err(BackupError::DuplicateRootName);
        }
        add_tree_entries(&root, &src.entries, &mut out);
        names.push(root);
        assert(names@.map_values(|s: String| s@) =~= prev.push(root@));
        assert(names@.map_values(|s: String| s@).drop_last() =~= prev);
        i = i + 1;
    }
    assert(srcs.take(sources.len() as int) =~= srcs);
    Ok(out)
}

/// The position of the source whose check fails first, taking the sources
/// one after another as `plan_archive` does; `None` where all pass.
pub fn failing_source(archive: &Vec<PathPart>, sources: &Vec<SourceDir>) -> (r: Option<usize>)
    ensures
        match r {
            None => roots_of(parts_view(archive@), sources_view(sources@)) is Ok,
            Some(k) => {
                &&& k < sources.len()
                &&& roots_of(parts_view(archive@), sources_view(sources@).take(k as int)) is Ok
                &&& roots_of(parts_view(archive@), sources_view(sources@)) is Err
                &&& roots_of(parts_view(archive@), sources_view(sources@)) == roots_of(
                    parts_view(archive@),
                    sources_view(sources@).take(k as int + 1),
                )
            },
        },
{
    let ghost a = parts_view(archive@);
    let ghost srcs = sources_view(sources@);
    let mut names: Vec<String> = Vec::new();
    let mut i: usize = 0;
    assert(srcs.take(0) =~= seq![]);
    assert(names@.map_values(|s: String| s@) =~= seq![]);
    while i < sources.len()
        invariant
            i <= sources.len(),
            a == parts_view(archive@),
            srcs == sources_view(sources@),
            roots_of(a, srcs.take(i as int)) == Ok::<Seq<Seq<char>>, BackupError>(
                names@.map_values(|s: String| s@),
            ),
        decreases sources.len() - i,
    {
        let ghost prev = names@.map_values(|s: String| s@);
        let ghost pre = srcs.take(i as int + 1);
        assert(pre.drop_last() =~= srcs.take(i as int));
        assert(pre.last() == sources@[i as int]@);
        let root = match check_source(archive, &sources[i]) {
            Ok(n) => n,
            Err(_) => {
                proof {
                    lemma_roots_fail_extend(a, srcs, i as int + 1);
                }
                return Some(i);
            },
        };
        if name_taken(&names, &root) {
            proof {
                lemma_roots_fail_extend(a, srcs, i as int + 1);
            }
            return Some(i);
        }
        names.push(root);
        assert(names@.map_values(|s: String| s@) =~= prev.push(root@));
        i = i + 1;
    }
    assert(srcs.take(sources.len() as int) =~= srcs);
    None
}

/// A failure among the first `k` sources is the failure of them all.
pub proof fn lemma_roots_fail_extend(a: Seq<Part>, srcs: Seq<SourceView>, k: int)
    requires
        0 <= k <= srcs.len(),
        roots_of(a, srcs.take(k)) is Err,
    ensures
        roots_of(a, srcs) == roots_of(a, srcs.take(k)),
    decreases srcs.len() - k,
{
    if k < srcs.len() {
        assert(srcs.take(k + 1).drop_last() =~= srcs.take(k));
        lemma_roots_fail_extend(a, srcs, k + 1);
    } else {
        assert(srcs.take(k) =~= srcs);
    }
}

} // verus!
