use vstd::prelude::*;
use crate::error::BackupError;
use crate::paths::{
    is_unsafe_segment, normalize_selector, segment_strings, segments, selector_ok, strings_view,
};

verus! {

/// One entry as read back from an archive.
#[derive(Clone, Debug)]
pub struct StoredEntry {
    /// The entry's name as stored.
    pub name: String,
    /// Whether the archive reader judged the name a relative path that
    /// stays inside its start.
    pub enclosed: bool,
    pub is_dir: bool,
    pub data: Vec<u8>,
}

pub struct StoredView {
    pub name: Seq<char>,
    pub enclosed: bool,
    pub is_dir: bool,
    pub data: Seq<u8>,
}

impl View for StoredEntry {
    type V = StoredView;

    open spec fn view(&self) -> StoredView {
        StoredView { name: self.name@, enclosed: self.enclosed, is_dir: self.is_dir, data: self.data@ }
    }
}

pub open spec fn stored_view(v: Seq<StoredEntry>) -> Seq<StoredView> {
    v.map_values(|e: StoredEntry| e@)
}

/// One step of a restore: make a directory, or write a file, at the path
/// of segments `path` below the destination.
#[derive(Clone, Debug)]
pub struct RestoreAction {
    pub path: Vec<String>,
    pub is_dir: bool,
    pub data: Vec<u8>,
}

pub struct ActionView {
    pub path: Seq<Seq<char>>,
    pub is_dir: bool,
    pub data: Seq<u8>,
}

impl View for RestoreAction {
    type V = ActionView;

    open spec fn view(&self) -> ActionView {
        ActionView { path: strings_view(self.path@), is_dir: self.is_dir, data: self.data@ }
    }
}

pub open spec fn actions_view(v: Seq<RestoreAction>) -> Seq<ActionView> {
    v.map_values(|a: RestoreAction| a@)
}

pub open spec fn has_unsafe_segment(segs: Seq<Seq<char>>, windows: bool) -> bool {
    exists|i: int| 0 <= i < segs.len() && is_unsafe_segment(#[trigger] segs[i], windows)
}

/// An entry's name may be used: the archive reader found it enclosed, and
/// none of its segments is `..` or a drive prefix.
pub open spec fn usable(e: StoredView, windows: bool) -> bool {
    e.enclosed && !has_unsafe_segment(segments(e.name), windows)
}

pub open spec fn segs_start_with(path: Seq<Seq<char>>, base: Seq<Seq<char>>) -> bool {
    base.len() <= path.len() && path.take(base.len() as int) == base
}

/// The entry is usable and lies at or below `prefix`.
pub open spec fn lies_under(e: StoredView, prefix: Seq<Seq<char>>, windows: bool) -> bool {
    usable(e, windows) && segs_start_with(segments(e.name), prefix)
}

/// The step that restores one entry: none for an entry outside `prefix` or
/// for the marker of `prefix` itself.
pub open spec fn action_for(e: StoredView, prefix: Seq<Seq<char>>, windows: bool) -> Seq<ActionView> {
    let ps = segments(e.name);
    if lies_under(e, prefix, windows) && ps.len() > prefix.len() {
        seq![ActionView { path: ps.skip(prefix.len() as int), is_dir: e.is_dir, data: e.data }]
    } else {
        seq![]
    }
}

/// The steps that restore everything below `prefix`, in archive order.
pub open spec fn restore_actions(es: Seq<StoredView>, prefix: Seq<Seq<char>>, windows: bool) -> Seq<ActionView>
    decreases es.len(),
{
    if es.len() == 0 {
        seq![]
    } else {
        restore_actions(es.drop_last(), prefix, windows) + action_for(es.last(), prefix, windows)
    }
}

pub open spec fn any_under(es: Seq<StoredView>, prefix: Seq<Seq<char>>, windows: bool) -> bool {
    exists|i: int| 0 <= i < es.len() && lies_under(#[trigger] es[i], prefix, windows)
}

/// What restoring `prefix` from entries `es` does, or why it fails.
pub open spec fn restore_plan(es: Seq<StoredView>, prefix: Seq<Seq<char>>, windows: bool) -> Result<
    Seq<ActionView>,
    BackupError,
> {
    if any_under(es, prefix, windows) {
        Ok(restore_actions(es, prefix, windows))
    } else {
        Err(BackupError::RootNotFound)
    }
}

fn is_unsafe(s: &String, windows: bool) -> (r: bool)
    ensures
        r == is_unsafe_segment(s@, windows),
{
    let cs = crate::paths::chars_of(s.as_str());
    let parent = cs.len() == 2 && cs[0] == '.' && cs[1] == '.';
    if parent {
        assert(cs@ =~= seq!['.', '.']);
    }
    let drive = windows && cs.len() >= 2 && cs[1] == ':';
    parent || drive
}

fn any_unsafe(segs: &Vec<String>, windows: bool) -> (r: bool)
    ensures
        r == has_unsafe_segment(strings_view(segs@), windows),
{
    let mut i: usize = 0;
    while i < segs.len()
        invariant
            i <= segs.len(),
            forall|j: int| 0 <= j < i ==> !is_unsafe_segment(#[trigger] strings_view(segs@)[j], windows),
        decreases segs.len() - i,
    {
        if is_unsafe(&segs[i], windows) {
            assert(is_unsafe_segment(strings_view(segs@)[i as int], windows));
            return true;
        }
        i = i + 1;
    }
    false
}

fn starts_with_segments(path: &Vec<String>, base: &Vec<String>) -> (r: bool)
    ensures
        r == segs_start_with(strings_view(path@), strings_view(base@)),
{
    if base.len() > path.len() {
        return false;
    }
    let mut i: usize = 0;
    while i < base.len()
        invariant
            i <= base.len() <= path.len(),
            forall|j: int| 0 <= j < i ==> path@[j]@ == base@[j]@,
        decreases base.len() - i,
    {
        if path[i] != base[i] {
            assert(strings_view(path@).take(base.len() as int)[i as int] != strings_view(base@)[i as int]);
            return false;
        }
        i = i + 1;
    }
    assert(strings_view(path@).take(base.len() as int) =~= strings_view(base@));
    true
}

fn skip_segments(ps: &Vec<String>, k: usize) -> (r: Vec<String>)
    requires
        k <= ps.len(),
    ensures
        strings_view(r@) == strings_view(ps@).skip(k as int),
{
    let mut out: Vec<String> = Vec::new();
    let mut i: usize = k;
    while i < ps.len()
        invariant
            k <= i <= ps.len(),
            strings_view(out@) == strings_view(ps@).subrange(k as int, i as int),
        decreases ps.len() - i,
    {
        let ghost before = strings_view(out@);
        out.push(ps[i].clone());
        assert(strings_view(out@) =~= before.push(ps@[i as int]@));
        assert(strings_view(ps@).subrange(k as int, i as int + 1) =~= strings_view(ps@).subrange(
            k as int,
            i as int,
        ).push(ps@[i as int]@));
        i = i + 1;
    }
    assert(strings_view(ps@).subrange(k as int, ps.len() as int) =~= strings_view(ps@).skip(
        k as int,
    ));
    out
}

/// Scans all entries once and lists the steps that restore what lies below
/// `prefix`, each path made relative to `prefix`. An entry that is not
/// enclosed, or has a `..` or drive-prefix segment, is never used. Fails with
/// `RootNotFound` when no entry lies below `prefix`, known only after the
/// whole scan.
pub fn select_entries(entries: &Vec<StoredEntry>, prefix: &Vec<String>, windows: bool) -> (r: Result<
    Vec<RestoreAction>,
    BackupError,
>)
    ensures
        match restore_plan(stored_view(entries@), strings_view(prefix@), windows) {
            Ok(acts) => r is Ok && actions_view(r->Ok_0@) == acts,
            Err(e) => r == Err::<Vec<RestoreAction>, BackupError>(e),
        },
{
    let ghost es = stored_view(entries@);
    let ghost pre = strings_view(prefix@);
    let mut out: Vec<RestoreAction> = Vec::new();
    let mut restored_any = false;
    let mut i: usize = 0;
    assert(es.take(0) =~= seq![]);
    assert(actions_view(out@) =~= seq![]);
    while i < entries.len()
        invariant
            i <= entries.len(),
            es == stored_view(entries@),
            pre == strings_view(prefix@),
            actions_view(out@) == restore_actions(es.take(i as int), pre, windows),
            restored_any == any_under(es.take(i as int), pre, windows),
        decreases entries.len() - i,
    {
        let ghost before = actions_view(out@);
        let ghost cur = es.take(i as int + 1);
        assert(cur.drop_last() =~= es.take(i as int));
        assert(cur.last() == entries@[i as int]@);
        let e = &entries[i];
        if e.enclosed {
            let segs = segment_strings(e.name.as_str());
            if !any_unsafe(&segs, windows) && starts_with_segments(&segs, prefix) {
                restored_any = true;
                assert(cur[i as int] == cur.last());
                if segs.len() > prefix.len() {
                    let rest = skip_segments(&segs, prefix.len());
                    out.push(RestoreAction { path: rest, is_dir: e.is_dir, data: e.data.clone() });
                    assert(actions_view(out@) =~= before + action_for(cur.last(), pre, windows));
                } else {
                    assert(actions_view(out@) =~= before + action_for(cur.last(), pre, windows));
                }
            } else {
                assert(actions_view(out@) =~= before + action_for(cur.last(), pre, windows));
            }
        } else {
            assert(actions_view(out@) =~= before + action_for(cur.last(), pre, windows));
        }
        proof {
            if restored_any && !any_under(es.take(i as int), pre, windows) {
                assert(lies_under(cur[i as int], pre, windows));
            }
            if any_under(cur, pre, windows) && !lies_under(cur.last(), pre, windows) {
                let j = choose|j: int| 0 <= j < cur.len() && lies_under(#[trigger] cur[j], pre, windows);
                assert(es.take(i as int)[j] == cur[j]);
            }
            if any_under(es.take(i as int), pre, windows) {
                let j = choose|j: int| 0 <= j < i && lies_under(#[trigger] es.take(i as int)[j], pre, windows);
                assert(cur[j] == es.take(i as int)[j]);
            }
        }
        i = i + 1;
    }
    assert(es.take(entries.len() as int) =~= es);
    if !restored_any {
        return Err(BackupError::RootNotFound);
    }
    Ok(out)
}

/// Checks a restore selector and splits it into the segments that archive
/// entries are matched against.
pub fn selector_prefix(selector: &str) -> (r: Result<Vec<String>, BackupError>)
    ensures
        selector_ok(selector@) ==> r is Ok && strings_view(r->Ok_0@) == segments(selector@),
        !selector_ok(selector@) ==> r == Err::<Vec<String>, BackupError>(
            BackupError::InvalidSelector,
        ),
{
    match normalize_selector(selector) {
        Ok(_) => Ok(segment_strings(selector)),
        Err(e) => Err(e),
    }
}

/// Plans the restore of what `selector` names from the archive's entries.
/// An empty or upward-climbing selector fails with `InvalidSelector`
/// before any entry is looked at.
pub fn plan_restore(entries: &Vec<StoredEntry>, selector: &str, windows: bool) -> (r: Result<
    Vec<RestoreAction>,
    BackupError,
>)
    ensures
        !selector_ok(selector@) ==> r == Err::<Vec<RestoreAction>, BackupError>(
            BackupError::InvalidSelector,
        ),
        selector_ok(selector@) ==> match restore_plan(stored_view(entries@), segments(selector@), windows) {
            Ok(acts) => r is Ok && actions_view(r->Ok_0@) == acts,
            Err(e) => r == Err::<Vec<RestoreAction>, BackupError>(e),
        },
{
    let prefix = match selector_prefix(selector) {
        Ok(p) => p,
        Err(e) => return Err(e),
    };
    select_entries(entries, &prefix, windows)
}

} // verus!
