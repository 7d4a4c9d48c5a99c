use vstd::prelude::*;
use crate::builder::{
    archive_entries, archive_plan, entry_for, lemma_roots_fail_extend, parts_start_with, roots_of,
    source_check, tree_entries, walked_entries, EntryKind, EntryView, SourceView, TreeEntryView,
};
use crate::archive::{decoded_entries, nul_free, reads_back_as, safe_name};
use crate::error::BackupError;
use crate::paths::{component_name, component_names, lemma_join_form, lemma_normal_names_named, slash_form, well_named, is_drive_segment, is_parent_segment, is_sep, is_unsafe_segment, join_slash, normal_names, scan, segments, selector_ok, Part};
use crate::restore::{action_for, has_unsafe_segment, usable, any_under, lies_under, restore_actions, restore_plan, ActionView, StoredView};

verus! {

/// A name that the archive keeps as one segment: non-empty, free of `/`
/// and `\`, and neither `..` nor a drive prefix.
pub open spec fn plain_segment(s: Seq<char>, windows: bool) -> bool {
    &&& s.len() > 0
    &&& forall|k: int| 0 <= k < s.len() ==> !is_sep(#[trigger] s[k])
    &&& !is_unsafe_segment(s, windows)
    &&& nul_free(s)
}

pub open spec fn plain_segments(segs: Seq<Seq<char>>, windows: bool) -> bool {
    forall|k: int| 0 <= k < segs.len() ==> plain_segment(#[trigger] segs[k], windows)
}

/// A walked tree whose entries have paths of plain segments.
pub open spec fn plain_tree(es: Seq<TreeEntryView>, windows: bool) -> bool {
    forall|k: int|
        0 <= k < es.len() ==> (#[trigger] es[k]).path.len() > 0 && plain_segments(es[k].path, windows)
}

/// A source whose path components and walked entries all have plain names.
pub open spec fn plain_source(s: SourceView, windows: bool) -> bool {
    plain_tree(s.entries, windows) && plain_segments(normal_names(s.canonical), windows)
}

/// The entries as an archive reader hands them back when the archive
/// keeps names, kinds and bytes unchanged.
pub open spec fn read_back(es: Seq<EntryView>) -> Seq<StoredView> {
    es.map_values(|e: EntryView| StoredView { name: e.name, enclosed: true, is_dir: e.is_dir, data: e.data })
}

/// The restore step for one walked entry: directories and files, by their
/// path below the source directory; nothing for links and other entries.
pub open spec fn tree_action(e: TreeEntryView) -> Seq<ActionView> {
    match e.kind {
        EntryKind::Directory => seq![ActionView { path: e.path, is_dir: true, data: seq![] }],
        EntryKind::File => seq![ActionView { path: e.path, is_dir: false, data: e.data }],
        _ => seq![],
    }
}

/// The restore steps that recreate a walked tree, in walk order.
pub open spec fn tree_actions(es: Seq<TreeEntryView>) -> Seq<ActionView>
    decreases es.len(),
{
    if es.len() == 0 {
        seq![]
    } else {
        tree_actions(es.drop_last()) + tree_action(es.last())
    }
}

proof fn lemma_scan_word(t: Seq<char>, w: Seq<char>)
    requires
        scan(t).1.len() == 0,
        forall|k: int| 0 <= k < w.len() ==> !is_sep(#[trigger] w[k]),
    ensures
        scan(t + w) == (scan(t).0, w),
    decreases w.len(),
{
    if w.len() == 0 {
        assert(t + w =~= t);
    } else {
        lemma_scan_word(t, w.drop_last());
        assert((t + w).drop_last() =~= t + w.drop_last());
        assert((t + w).last() == w.last());
        assert(w.drop_last().push(w.last()) =~= w);
    }
}

proof fn lemma_scan_sep(x: Seq<char>)
    ensures
        scan(x + seq!['/']) == (segments(x), Seq::<char>::empty()),
{
    assert((x + seq!['/']).drop_last() =~= x);
}

proof fn lemma_scan_join(segs: Seq<Seq<char>>, windows: bool)
    requires
        segs.len() > 0,
        plain_segments(segs, windows),
    ensures
        scan(join_slash(segs)) == (segs.drop_last(), segs.last()),
    decreases segs.len(),
{
    let w = segs.last();
    assert(plain_segment(segs[segs.len() - 1], windows));
    if segs.len() == 1 {
        assert(scan(Seq::<char>::empty()) == (Seq::<Seq<char>>::empty(), Seq::<char>::empty()));
        lemma_scan_word(seq![], w);
        assert(Seq::<char>::empty() + w =~= w);
        assert(segs.drop_last() =~= seq![]);
    } else {
        let init = segs.drop_last();
        assert forall|k: int| 0 <= k < init.len() implies plain_segment(#[trigger] init[k], windows) by {
            assert(init[k] == segs[k]);
        }
        lemma_scan_join(init, windows);
        assert(plain_segment(init[init.len() - 1], windows));
        assert(init.drop_last().push(init.last()) =~= init);
        lemma_scan_sep(join_slash(init));
        lemma_scan_word(join_slash(init) + seq!['/'], w);
    }
}

proof fn lemma_segments_join(segs: Seq<Seq<char>>, windows: bool)
    requires
        segs.len() > 0,
        plain_segments(segs, windows),
    ensures
        segments(join_slash(segs)) == segs,
        segments(join_slash(segs) + seq!['/']) == segs,
{
    lemma_scan_join(segs, windows);
    assert(plain_segment(segs[segs.len() - 1], windows));
    assert(segs.drop_last().push(segs.last()) =~= segs);
    lemma_scan_sep(join_slash(segs));
}

proof fn lemma_segments_one(r: Seq<char>, windows: bool)
    requires
        plain_segment(r, windows),
    ensures
        segments(r) == seq![r],
        segments(r + seq!['/']) == seq![r],
        join_slash(seq![r]) == r,
{
    assert(plain_segments(seq![r], windows));
    lemma_segments_join(seq![r], windows);
}

proof fn lemma_actions_concat(a: Seq<StoredView>, b: Seq<StoredView>, p: Seq<Seq<char>>, windows: bool)
    ensures
        restore_actions(a + b, p, windows) == restore_actions(a, p, windows) + restore_actions(b, p, windows),
    decreases b.len(),
{
    if b.len() == 0 {
        assert(a + b =~= a);
        assert(restore_actions(a, p, windows) + Seq::<ActionView>::empty() =~= restore_actions(a, p, windows));
    } else {
        lemma_actions_concat(a, b.drop_last(), p, windows);
        assert((a + b).drop_last() =~= a + b.drop_last());
        assert((a + b).last() == b.last());
    }
}

proof fn lemma_read_back_concat(a: Seq<EntryView>, b: Seq<EntryView>)
    ensures
        read_back(a + b) == read_back(a) + read_back(b),
{
    assert(read_back(a + b) =~= read_back(a) + read_back(b));
}

proof fn lemma_actions_one(x: StoredView, p: Seq<Seq<char>>, windows: bool)
    ensures
        restore_actions(seq![x], p, windows) == action_for(x, p, windows),
{
    assert(seq![x].drop_last() =~= Seq::<StoredView>::empty());
    assert(seq![x].last() == x);
    assert(restore_actions(Seq::<StoredView>::empty(), p, windows) == Seq::<ActionView>::empty());
    assert(restore_actions(seq![x], p, windows) == restore_actions(Seq::<StoredView>::empty(), p, windows)
        + action_for(x, p, windows));
    assert(Seq::<ActionView>::empty() + action_for(x, p, windows) =~= action_for(x, p, windows));
}

/// Where a stored name splits into `[r] + path`, it lies under `[t]` exactly
/// when `r == t`, and its step is the one for `path`.
proof fn lemma_entry_under(x: StoredView, r: Seq<char>, path: Seq<Seq<char>>, t: Seq<char>, windows: bool)
    requires
        x.enclosed,
        segments(x.name) == seq![r] + path,
        plain_segment(r, windows),
        plain_segments(path, windows),
        plain_segment(t, windows),
    ensures
        lies_under(x, seq![t], windows) == (r == t),
        r == t && path.len() > 0 ==> action_for(x, seq![t], windows) == seq![
            ActionView { path: path, is_dir: x.is_dir, data: x.data },
        ],
        path.len() == 0 || r != t ==> action_for(x, seq![t], windows) == Seq::<ActionView>::empty(),
{
    let ps = seq![r] + path;
    assert forall|k: int| 0 <= k < ps.len() implies !is_unsafe_segment(#[trigger] ps[k], windows) by {
        if k > 0 {
            assert(ps[k] == path[k - 1]);
        }
    }
    assert(ps.take(1) =~= seq![r]);
    if r != t {
        assert(ps.take(1) != seq![t]) by {
            assert(ps.take(1)[0] != seq![t][0]);
        }
    }
    assert(ps.skip(1) =~= path);
}

proof fn lemma_walked_restore(r: Seq<char>, es: Seq<TreeEntryView>, t: Seq<char>, windows: bool)
    requires
        plain_segment(r, windows),
        plain_segment(t, windows),
        plain_tree(es, windows),
    ensures
        restore_actions(read_back(walked_entries(r, es)), seq![t], windows) == (if r == t {
            tree_actions(es)
        } else {
            Seq::<ActionView>::empty()
        }),
    decreases es.len(),
{
    if es.len() == 0 {
        assert(read_back(walked_entries(r, es)) =~= seq![]);
    } else {
        let init = es.drop_last();
        let e = es.last();
        assert(plain_tree(init, windows)) by {
            assert forall|k: int| 0 <= k < init.len() implies (#[trigger] init[k]).path.len() > 0
                && plain_segments(init[k].path, windows) by {
                assert(init[k] == es[k]);
            }
        }
        lemma_walked_restore(r, init, t, windows);
        assert(es[es.len() - 1] == e);
        let one = entry_for(r, e);
        lemma_read_back_concat(walked_entries(r, init), one);
        lemma_actions_concat(read_back(walked_entries(r, init)), read_back(one), seq![t], windows);
        let segs = seq![r] + e.path;
        assert(plain_segments(segs, windows)) by {
            assert forall|k: int| 0 <= k < segs.len() implies plain_segment(#[trigger] segs[k], windows) by {
                if k > 0 {
                    assert(segs[k] == e.path[k - 1]);
                }
            }
        }
        lemma_segments_join(segs, windows);
        match e.kind {
            EntryKind::Directory => {
                let x = StoredView { name: join_slash(segs) + seq!['/'], enclosed: true, is_dir: true, data: seq![] };
                assert(read_back(one) =~= seq![x]);
                lemma_actions_one(x, seq![t], windows);
                lemma_entry_under(x, r, e.path, t, windows);
            },
            EntryKind::File => {
                let x = StoredView { name: join_slash(segs), enclosed: true, is_dir: false, data: e.data };
                assert(read_back(one) =~= seq![x]);
                lemma_actions_one(x, seq![t], windows);
                lemma_entry_under(x, r, e.path, t, windows);
            },
            _ => {
                assert(read_back(one) =~= seq![]);
                assert(restore_actions(read_back(one), seq![t], windows) == Seq::<ActionView>::empty());
            },
        }
        if r == t {
            assert(tree_actions(es) == tree_actions(init) + tree_action(e));
        } else {
            assert(Seq::<ActionView>::empty() + Seq::<ActionView>::empty() =~= Seq::<ActionView>::empty());
        }
    }
}

pub open spec fn distinct_names(names: Seq<Seq<char>>) -> bool {
    forall|x: int, y: int| 0 <= x < y < names.len() ==> names[x] != names[y]
}

proof fn lemma_archive_restore(names: Seq<Seq<char>>, srcs: Seq<SourceView>, t: Seq<char>, windows: bool)
    requires
        names.len() == srcs.len(),
        plain_segments(names, windows),
        distinct_names(names),
        forall|k: int| 0 <= k < srcs.len() ==> plain_tree((#[trigger] srcs[k]).entries, windows),
        plain_segment(t, windows),
    ensures
        !names.contains(t) ==> restore_actions(read_back(archive_entries(names, srcs)), seq![t], windows)
            == Seq::<ActionView>::empty(),
        forall|m: int|
            0 <= m < names.len() && names[m] == t ==> restore_actions(
                read_back(archive_entries(names, srcs)),
                seq![t], windows
            ) == tree_actions(#[trigger] srcs[m].entries),
        names.contains(t) ==> any_under(read_back(archive_entries(names, srcs)), seq![t], windows),
    decreases srcs.len(),
{
    if srcs.len() == 0 {
        assert(read_back(archive_entries(names, srcs)) =~= seq![]);
    } else {
        let ni = names.drop_last();
        let si = srcs.drop_last();
        let r = names.last();
        let s = srcs.last();
        assert(plain_segments(ni, windows)) by {
            assert forall|k: int| 0 <= k < ni.len() implies plain_segment(#[trigger] ni[k], windows) by {
                assert(ni[k] == names[k]);
            }
        }
        assert(distinct_names(ni)) by {
            assert forall|x: int, y: int| 0 <= x < y < ni.len() implies ni[x] != ni[y] by {
                assert(ni[x] == names[x] && ni[y] == names[y]);
            }
        }
        assert forall|k: int| 0 <= k < si.len() implies plain_tree((#[trigger] si[k]).entries, windows) by {
            assert(si[k] == srcs[k]);
        }
        lemma_archive_restore(ni, si, t, windows);
        assert(plain_segment(names[names.len() - 1], windows));
        assert(plain_tree(srcs[srcs.len() - 1].entries, windows));
        let before = archive_entries(ni, si);
        let marker = seq![EntryView { name: r + seq!['/'], is_dir: true, data: seq![] }];
        let walked = walked_entries(r, s.entries);
        assert(tree_entries(r, s.entries) == marker + walked);
        lemma_read_back_concat(before, marker + walked);
        lemma_read_back_concat(marker, walked);
        lemma_actions_concat(read_back(before), read_back(marker) + read_back(walked), seq![t], windows);
        lemma_actions_concat(read_back(marker), read_back(walked), seq![t], windows);
        let mx = StoredView { name: r + seq!['/'], enclosed: true, is_dir: true, data: seq![] };
        assert(read_back(marker) =~= seq![mx]);
        lemma_actions_one(mx, seq![t], windows);
        lemma_segments_one(r, windows);
        assert(seq![r] + Seq::<Seq<char>>::empty() =~= seq![r]);
        assert(plain_segments(Seq::<Seq<char>>::empty(), windows));
        lemma_entry_under(mx, r, seq![], t, windows);
        lemma_walked_restore(r, s.entries, t, windows);
        let all = read_back(archive_entries(names, srcs));
        assert(all == read_back(before) + (read_back(marker) + read_back(walked)));
        if r == t {
            assert(!ni.contains(t)) by {
                if ni.contains(t) {
                    let x = choose|x: int| 0 <= x < ni.len() && ni[x] == t;
                    assert(names[x] == names[names.len() - 1]);
                }
            }
            assert(Seq::<ActionView>::empty() + (Seq::<ActionView>::empty() + tree_actions(s.entries))
                =~= tree_actions(s.entries));
            assert forall|m: int| 0 <= m < names.len() && names[m] == t implies restore_actions(
                all,
                seq![t], windows
            ) == tree_actions(#[trigger] srcs[m].entries) by {
                if m < names.len() - 1 {
                    assert(names[m] != names[names.len() - 1]);
                }
            }
            let idx = read_back(before).len() as int;
            assert(all[idx] == mx);
            assert(lies_under(all[idx], seq![t], windows));
        } else {
            let base = restore_actions(read_back(before), seq![t], windows);
            assert(base + (Seq::<ActionView>::empty() + Seq::<ActionView>::empty()) =~= base);
            assert forall|m: int| 0 <= m < names.len() && names[m] == t implies restore_actions(
                all,
                seq![t], windows
            ) == tree_actions(#[trigger] srcs[m].entries) by {
                assert(m < names.len() - 1);
                assert(ni[m] == names[m]);
                assert(si[m] == srcs[m]);
            }
            if names.contains(t) {
                let m = choose|m: int| 0 <= m < names.len() && names[m] == t;
                assert(ni[m] == t);
                assert(ni.contains(t));
                let j = choose|j: int| 0 <= j < read_back(before).len() && lies_under(
                    #[trigger] read_back(before)[j],
                    seq![t], windows
                );
                assert(all[j] == read_back(before)[j]);
            }
            if !names.contains(t) {
                assert(!ni.contains(t)) by {
                    if ni.contains(t) {
                        let x = choose|x: int| 0 <= x < ni.len() && ni[x] == t;
                        assert(names[x] == t);
                    }
                }
            }
        }
    }
}

/// What `roots_of` succeeds with: each source's own root name, pairwise
/// distinct.
proof fn lemma_roots_ok(a: Seq<Part>, srcs: Seq<SourceView>)
    requires
        roots_of(a, srcs) is Ok,
    ensures
        roots_of(a, srcs)->Ok_0.len() == srcs.len(),
        distinct_names(roots_of(a, srcs)->Ok_0),
        forall|k: int|
            0 <= k < srcs.len() ==> source_check(a, #[trigger] srcs[k]) == Ok::<Seq<char>, BackupError>(
                roots_of(a, srcs)->Ok_0[k],
            ),
    decreases srcs.len(),
{
    if srcs.len() > 0 {
        let si = srcs.drop_last();
        lemma_roots_ok(a, si);
        let ni = roots_of(a, si)->Ok_0;
        let n = source_check(a, srcs.last())->Ok_0;
        let names = roots_of(a, srcs)->Ok_0;
        assert(names == ni.push(n));
        assert forall|k: int| 0 <= k < srcs.len() implies source_check(a, #[trigger] srcs[k])
            == Ok::<Seq<char>, BackupError>(names[k]) by {
            if k < si.len() {
                assert(si[k] == srcs[k]);
            }
        }
        assert forall|x: int, y: int| 0 <= x < y < names.len() implies names[x] != names[y] by {
            if y == names.len() - 1 {
                assert(names[x] == ni[x]);
            }
        }
    }
}

/// Building an archive of directories with distinct root names and then
/// restoring any one root by its name gives back exactly that directory's
/// tree: every directory, empty ones included, and every file with its
/// bytes, at the same place below the destination, in walk order. Links and
/// other entries never appear. This holds where the archive keeps each
/// entry's name, kind and bytes, and where every name is a plain segment
/// (no `/`, `\` or `..` inside one name).
pub proof fn law_round_trip(archive: Seq<Part>, srcs: Seq<SourceView>, i: int, windows: bool)
    requires
        archive_plan(archive, srcs) is Ok,
        0 <= i < srcs.len(),
        forall|k: int| 0 <= k < srcs.len() ==> plain_source(#[trigger] srcs[k], windows),
    ensures
        roots_of(archive, srcs) is Ok,
        selector_ok(roots_of(archive, srcs)->Ok_0[i]),
        restore_plan(
            read_back(archive_plan(archive, srcs)->Ok_0),
            segments(roots_of(archive, srcs)->Ok_0[i]), windows
        ) == Ok::<Seq<ActionView>, BackupError>(tree_actions(srcs[i].entries)),
{
    lemma_roots_ok(archive, srcs);
    let names = roots_of(archive, srcs)->Ok_0;
    assert(plain_segments(names, windows)) by {
        assert forall|k: int| 0 <= k < names.len() implies plain_segment(#[trigger] names[k], windows) by {
            let nn = normal_names(srcs[k].canonical);
            assert(source_check(archive, srcs[k]) == Ok::<Seq<char>, BackupError>(names[k]));
            assert(plain_source(srcs[k], windows));
            assert(plain_segment(nn[nn.len() - 1], windows));
        }
    }
    assert forall|k: int| 0 <= k < srcs.len() implies plain_tree((#[trigger] srcs[k]).entries, windows) by {
        assert(plain_source(srcs[k], windows));
    }
    let t = names[i];
    assert(plain_segment(t, windows));
    lemma_segments_one(t, windows);
    assert(names.contains(t));
    lemma_archive_restore(names, srcs, t, windows);
    assert forall|k: int| 0 <= k < segments(t).len() implies !is_parent_segment(
        #[trigger] segments(t)[k],
    ) by {}
}

/// Building fails with `DuplicateRootName` when two of the directories have
/// the same root name, where every directory before the second passes its
/// own checks.
pub proof fn law_duplicate_root_name(archive: Seq<Part>, srcs: Seq<SourceView>, i: int, j: int)
    requires
        0 <= i < j < srcs.len(),
        forall|k: int| 0 <= k < j ==> (#[trigger] source_check(archive, srcs[k])) is Ok,
        source_check(archive, srcs[i]) == source_check(archive, srcs[j]),
    ensures
        archive_plan(archive, srcs) == Err::<Seq<EntryView>, BackupError>(
            BackupError::DuplicateRootName,
        ),
{
    let t = srcs.take(j);
    assert(srcs.take(j + 1).drop_last() =~= t);
    assert(srcs.take(j + 1).last() == srcs[j]);
    assert forall|k: int| 0 <= k < t.len() implies (#[trigger] source_check(archive, t[k])) is Ok by {
        assert(t[k] == srcs[k]);
    }
    assert(source_check(archive, srcs[i]) is Ok);
    lemma_roots_ok_or_dup(archive, t);
    match roots_of(archive, t) {
        Ok(names) => {
            lemma_roots_ok(archive, t);
            assert(t[i] == srcs[i]);
            assert(source_check(archive, t[i]) == Ok::<Seq<char>, BackupError>(names[i]));
            assert(names.contains(source_check(archive, srcs[j])->Ok_0));
        },
        Err(_) => {},
    }
    lemma_roots_fail_extend(archive, srcs, j + 1);
}

proof fn lemma_roots_ok_or_dup(a: Seq<Part>, srcs: Seq<SourceView>)
    requires
        forall|k: int| 0 <= k < srcs.len() ==> (#[trigger] source_check(a, srcs[k])) is Ok,
    ensures
        roots_of(a, srcs) is Ok || roots_of(a, srcs) == Err::<Seq<Seq<char>>, BackupError>(
            BackupError::DuplicateRootName,
        ),
    decreases srcs.len(),
{
    if srcs.len() > 0 {
        let si = srcs.drop_last();
        assert forall|k: int| 0 <= k < si.len() implies (#[trigger] source_check(a, si[k])) is Ok by {
            assert(si[k] == srcs[k]);
        }
        lemma_roots_ok_or_dup(a, si);
        assert(source_check(a, srcs[srcs.len() - 1]) is Ok);
    }
}

/// The sources exist, are directories, have root names, and no two share one.
pub open spec fn sound_sources(srcs: Seq<SourceView>) -> bool {
    &&& forall|k: int|
        0 <= k < srcs.len() ==> (#[trigger] srcs[k]).exists && srcs[k].is_dir && normal_names(
            srcs[k].canonical,
        ).len() > 0
    &&& forall|x: int, y: int|
        0 <= x < y < srcs.len() ==> normal_names(srcs[x].canonical).last() != normal_names(
            srcs[y].canonical,
        ).last()
}

proof fn lemma_roots_ok_or_contained(a: Seq<Part>, srcs: Seq<SourceView>)
    requires
        sound_sources(srcs),
    ensures
        roots_of(a, srcs) is Ok || roots_of(a, srcs) == Err::<Seq<Seq<char>>, BackupError>(
            BackupError::SelfContainment,
        ),
    decreases srcs.len(),
{
    if srcs.len() > 0 {
        let si = srcs.drop_last();
        assert(sound_sources(si)) by {
            assert forall|k: int| 0 <= k < si.len() implies (#[trigger] si[k]).exists && si[k].is_dir
                && normal_names(si[k].canonical).len() > 0 by {
                assert(si[k] == srcs[k]);
            }
            assert forall|x: int, y: int| 0 <= x < y < si.len() implies normal_names(
                si[x].canonical,
            ).last() != normal_names(si[y].canonical).last() by {
                assert(si[x] == srcs[x] && si[y] == srcs[y]);
            }
        }
        lemma_roots_ok_or_contained(a, si);
        let last = srcs[srcs.len() - 1];
        assert(last.exists && last.is_dir && normal_names(last.canonical).len() > 0);
        if roots_of(a, si) is Ok && source_check(a, last) is Ok {
            lemma_roots_ok(a, si);
            let names = roots_of(a, si)->Ok_0;
            let n = source_check(a, last)->Ok_0;
            if names.contains(n) {
                let x = choose|x: int| 0 <= x < names.len() && names[x] == n;
                assert(si[x] == srcs[x]);
                assert(source_check(a, si[x]) == Ok::<Seq<char>, BackupError>(names[x]));
            }
        }
    }
}

/// Building fails with `SelfContainment` when the archive lies inside an
/// existing directory among them, where the directories before it exist,
/// are directories, and have distinct root names.
pub proof fn law_archive_inside_source(archive: Seq<Part>, srcs: Seq<SourceView>, k: int)
    requires
        0 <= k < srcs.len(),
        srcs[k].exists && srcs[k].is_dir,
        parts_start_with(archive, srcs[k].canonical),
        sound_sources(srcs.take(k)),
    ensures
        archive_plan(archive, srcs) == Err::<Seq<EntryView>, BackupError>(
            BackupError::SelfContainment,
        ),
{
    let t = srcs.take(k);
    assert(srcs.take(k + 1).drop_last() =~= t);
    assert(srcs.take(k + 1).last() == srcs[k]);
    lemma_roots_ok_or_contained(archive, t);
    assert(source_check(archive, srcs[k]) == Err::<Seq<char>, BackupError>(
        BackupError::SelfContainment,
    ));
    lemma_roots_fail_extend(archive, srcs, k + 1);
}


pub open spec fn sep_free(w: Seq<char>) -> bool {
    forall|q: int| 0 <= q < w.len() ==> !is_sep(#[trigger] w[q])
}

proof fn lemma_scan_clean(s: Seq<char>)
    ensures
        forall|k: int|
            0 <= k < scan(s).0.len() ==> (#[trigger] scan(s).0[k]).len() > 0 && sep_free(scan(s).0[k]),
        sep_free(scan(s).1),
    decreases s.len(),
{
    if s.len() > 0 {
        lemma_scan_clean(s.drop_last());
        let d = scan(s.drop_last()).0;
        let c = scan(s.drop_last()).1;
        let ch = s.last();
        if is_sep(ch) {
            if c.len() > 0 {
                assert forall|k: int| 0 <= k < d.push(c).len() implies (#[trigger] d.push(c)[k]).len()
                    > 0 && sep_free(d.push(c)[k]) by {
                    if k < d.len() {
                        assert(d.push(c)[k] == d[k]);
                    }
                }
            }
        } else {
            assert forall|q: int| 0 <= q < c.push(ch).len() implies !is_sep(#[trigger] c.push(ch)[q]) by {
                if q < c.len() {
                    assert(c.push(ch)[q] == c[q]);
                }
            }
        }
    }
}

proof fn lemma_segments_clean(s: Seq<char>)
    ensures
        forall|k: int|
            0 <= k < segments(s).len() ==> (#[trigger] segments(s)[k]).len() > 0 && sep_free(segments(s)[k]),
{
    lemma_scan_clean(s);
    let d = scan(s).0;
    let c = scan(s).1;
    if c.len() > 0 {
        assert forall|k: int| 0 <= k < d.push(c).len() implies (#[trigger] d.push(c)[k]).len() > 0
            && sep_free(d.push(c)[k]) by {
            if k < d.len() {
                assert(d.push(c)[k] == d[k]);
            }
        }
    }
}

/// A segment that can be placed below a destination: non-empty, free of
/// separators, and neither `..` nor a drive prefix.
pub open spec fn placed_segment(s: Seq<char>, windows: bool) -> bool {
    &&& s.len() > 0
    &&& sep_free(s)
    &&& !is_unsafe_segment(s, windows)
}

pub open spec fn placed_segments(segs: Seq<Seq<char>>, windows: bool) -> bool {
    forall|k: int| 0 <= k < segs.len() ==> placed_segment(#[trigger] segs[k], windows)
}

/// Every step of a restore names a path of one or more segments below the
/// destination, none of them empty, holding a separator, `..`, or a drive
/// prefix.
pub proof fn law_restore_stays_inside(es: Seq<StoredView>, prefix: Seq<Seq<char>>, windows: bool)
    ensures
        forall|k: int|
            0 <= k < restore_actions(es, prefix, windows).len() ==> (#[trigger] restore_actions(
                es,
                prefix, windows
            )[k]).path.len() > 0 && placed_segments(restore_actions(es, prefix, windows)[k].path, windows),
    decreases es.len(),
{
    if es.len() > 0 {
        law_restore_stays_inside(es.drop_last(), prefix, windows);
        let x = es.last();
        let before = restore_actions(es.drop_last(), prefix, windows);
        let one = action_for(x, prefix, windows);
        let ps = segments(x.name);
        lemma_segments_clean(x.name);
        assert forall|k: int| 0 <= k < one.len() implies (#[trigger] one[k]).path.len() > 0
            && placed_segments(one[k].path, windows) by {
            let rest = ps.skip(prefix.len() as int);
            assert(one[k].path == rest);
            assert(usable(x, windows));
            assert forall|m: int| 0 <= m < rest.len() implies placed_segment(#[trigger] rest[m], windows) by {
                let idx = m + prefix.len();
                assert(rest[m] == ps[idx]);
                assert(ps[idx].len() > 0 && sep_free(ps[idx]));
                if is_unsafe_segment(ps[idx], windows) {
                    assert(has_unsafe_segment(ps, windows));
                }
            }
        }
        assert forall|k: int| 0 <= k < (before + one).len() implies (#[trigger] (before
            + one)[k]).path.len() > 0 && placed_segments((before + one)[k].path, windows) by {
            if k < before.len() {
                assert((before + one)[k] == before[k]);
            } else {
                assert((before + one)[k] == one[k - before.len()]);
            }
        }
    }
}


proof fn lemma_join_ends(segs: Seq<Seq<char>>, windows: bool)
    requires
        segs.len() > 0,
        plain_segments(segs, windows),
    ensures
        join_slash(segs).len() > 0,
        join_slash(segs)[0] == segs[0][0],
        join_slash(segs).last() == segs.last().last(),
        nul_free(join_slash(segs)),
    decreases segs.len(),
{
    assert(plain_segment(segs[0], windows));
    assert(plain_segment(segs[segs.len() - 1], windows));
    if segs.len() > 1 {
        let init = segs.drop_last();
        assert forall|k: int| 0 <= k < init.len() implies plain_segment(#[trigger] init[k], windows) by {
            assert(init[k] == segs[k]);
        }
        lemma_join_ends(init, windows);
        let j = join_slash(init);
        let l = segs.last();
        let all = j + seq!['/'] + l;
        assert(all[0] == j[0]);
        assert(init[0] == segs[0]);
        assert(all.last() == l.last());
        assert forall|k: int| 0 <= k < all.len() implies #[trigger] all[k] != '\0' by {
            if k < j.len() {
                assert(all[k] == j[k]);
            } else if k == j.len() {
                assert(all[k] == '/');
            } else {
                assert(all[k] == l[k - j.len() - 1]);
            }
        }
    }
}

/// A planned entry is read back as itself.
pub open spec fn shaped(e: EntryView) -> bool {
    safe_name(e.name) && e.is_dir == (e.name.len() > 0 && is_sep(e.name.last()))
}

pub open spec fn all_shaped(es: Seq<EntryView>) -> bool {
    forall|k: int| 0 <= k < es.len() ==> shaped(#[trigger] es[k])
}

proof fn lemma_shaped_concat(a: Seq<EntryView>, b: Seq<EntryView>)
    requires
        all_shaped(a),
        all_shaped(b),
    ensures
        all_shaped(a + b),
{
    assert forall|k: int| 0 <= k < (a + b).len() implies shaped(#[trigger] (a + b)[k]) by {
        if k < a.len() {
            assert((a + b)[k] == a[k]);
        } else {
            assert((a + b)[k] == b[k - a.len()]);
        }
    }
}

proof fn lemma_name_shaped(segs: Seq<Seq<char>>, dir: bool, windows: bool)
    requires
        !is_drive_segment(segs[0]),
        segs.len() > 0,
        plain_segments(segs, windows),
    ensures
        shaped(EntryView {
            name: if dir { join_slash(segs) + seq!['/'] } else { join_slash(segs) },
            is_dir: dir,
            data: seq![],
        }),
{
    lemma_join_ends(segs, windows);
    lemma_segments_join(segs, windows);
    let j = join_slash(segs);
    assert(plain_segment(segs[segs.len() - 1], windows));
    assert(segs.last().len() > 0);
    assert(plain_segment(segs[0], windows));
    assert(segs[0].len() > 0);
    assert(!is_sep(segs[0][0]));
    assert forall|k: int| 0 <= k < segs.len() implies !is_parent_segment(#[trigger] segs[k]) by {
        assert(plain_segment(segs[k], windows));
    }
    if dir {
        let n = j + seq!['/'];
        assert(n[0] == j[0]);
        assert forall|k: int| 0 <= k < n.len() implies #[trigger] n[k] != '\0' by {
            if k < j.len() {
                assert(n[k] == j[k]);
            }
        }
        assert(n.last() == '/');
    } else {
        assert(!is_sep(segs.last()[segs.last().len() - 1]));
    }
}

proof fn lemma_walked_shaped(r: Seq<char>, es: Seq<TreeEntryView>, windows: bool)
    requires
        !is_drive_segment(r),
        plain_segment(r, windows),
        plain_tree(es, windows),
    ensures
        all_shaped(walked_entries(r, es)),
    decreases es.len(),
{
    if es.len() > 0 {
        let init = es.drop_last();
        let e = es.last();
        assert(plain_tree(init, windows)) by {
            assert forall|k: int| 0 <= k < init.len() implies (#[trigger] init[k]).path.len() > 0
                && plain_segments(init[k].path, windows) by {
                assert(init[k] == es[k]);
            }
        }
        lemma_walked_shaped(r, init, windows);
        assert(es[es.len() - 1] == e);
        let segs = seq![r] + e.path;
        assert(plain_segments(segs, windows)) by {
            assert forall|k: int| 0 <= k < segs.len() implies plain_segment(#[trigger] segs[k], windows) by {
                if k > 0 {
                    assert(segs[k] == e.path[k - 1]);
                }
            }
        }
        let one = entry_for(r, e);
        match e.kind {
            EntryKind::Directory => {
                assert(segs[0] == r);
                lemma_name_shaped(segs, true, windows);
                assert(shaped(one[0]));
            },
            EntryKind::File => {
                assert(segs[0] == r);
                lemma_name_shaped(segs, false, windows);
                assert(shaped(one[0]));
            },
            _ => {},
        }
        assert(all_shaped(one));
        lemma_shaped_concat(walked_entries(r, init), one);
    }
}

proof fn lemma_archive_shaped(names: Seq<Seq<char>>, srcs: Seq<SourceView>, windows: bool)
    requires
        forall|k: int| 0 <= k < names.len() ==> !is_drive_segment(#[trigger] names[k]),
        names.len() == srcs.len(),
        plain_segments(names, windows),
        forall|k: int| 0 <= k < srcs.len() ==> plain_tree((#[trigger] srcs[k]).entries, windows),
    ensures
        all_shaped(archive_entries(names, srcs)),
    decreases srcs.len(),
{
    if srcs.len() > 0 {
        let ni = names.drop_last();
        let si = srcs.drop_last();
        assert(plain_segments(ni, windows)) by {
            assert forall|k: int| 0 <= k < ni.len() implies plain_segment(#[trigger] ni[k], windows) by {
                assert(ni[k] == names[k]);
            }
        }
        assert forall|k: int| 0 <= k < si.len() implies plain_tree((#[trigger] si[k]).entries, windows) by {
            assert(si[k] == srcs[k]);
        }
        assert forall|k: int| 0 <= k < ni.len() implies !is_drive_segment(#[trigger] ni[k]) by {
            assert(ni[k] == names[k]);
        }
        lemma_archive_shaped(ni, si, windows);
        assert(!is_drive_segment(names[names.len() - 1]));
        let r = names.last();
        assert(plain_segment(names[names.len() - 1], windows));
        assert(plain_tree(srcs[srcs.len() - 1].entries, windows));
        lemma_segments_one(r, windows);
        assert(plain_segments(seq![r], windows));
        lemma_name_shaped(seq![r], true, windows);
        let marker = seq![EntryView { name: r + seq!['/'], is_dir: true, data: seq![] }];
        assert(all_shaped(marker));
        lemma_walked_shaped(r, srcs.last().entries, windows);
        lemma_shaped_concat(marker, walked_entries(r, srcs.last().entries));
        lemma_shaped_concat(archive_entries(ni, si), tree_entries(r, srcs.last().entries));
    } else {
        assert(archive_entries(names, srcs) =~= seq![]);
    }
}

/// Building an archive of directories with distinct root names, then
/// decoding the bytes that `build_archive` returns and restoring any one
/// root by its name, gives back exactly that directory's tree: every
/// directory, empty ones included, and every file with its bytes, at the
/// same place below the destination (not below a directory named after the
/// root), in walk order. Links and other entries never appear. This holds
/// where every name is a plain segment (no `/`, `\`, NUL, `..` or drive
/// prefix inside one name).
pub proof fn law_build_then_restore(archive: Seq<Part>, srcs: Seq<SourceView>, i: int, bytes: Seq<u8>, windows: bool)
    requires
        forall|k: int|
            0 <= k < srcs.len() ==> !is_drive_segment(
                #[trigger] normal_names(srcs[k].canonical).last(),
            ),
        archive_plan(archive, srcs) is Ok,
        reads_back_as(decoded_entries(bytes), archive_plan(archive, srcs)->Ok_0),
        0 <= i < srcs.len(),
        forall|k: int| 0 <= k < srcs.len() ==> plain_source(#[trigger] srcs[k], windows),
    ensures
        roots_of(archive, srcs) is Ok,
        selector_ok(roots_of(archive, srcs)->Ok_0[i]),
        restore_plan(decoded_entries(bytes), segments(roots_of(archive, srcs)->Ok_0[i]), windows)
            == Ok::<Seq<ActionView>, BackupError>(tree_actions(srcs[i].entries)),
{
    law_round_trip(archive, srcs, i, windows);
    lemma_roots_ok(archive, srcs);
    let names = roots_of(archive, srcs)->Ok_0;
    let es = archive_plan(archive, srcs)->Ok_0;
    assert(plain_segments(names, windows)) by {
        assert forall|k: int| 0 <= k < names.len() implies plain_segment(#[trigger] names[k], windows) by {
            let nn = normal_names(srcs[k].canonical);
            assert(source_check(archive, srcs[k]) == Ok::<Seq<char>, BackupError>(names[k]));
            assert(plain_source(srcs[k], windows));
            assert(plain_segment(nn[nn.len() - 1], windows));
        }
    }
    assert forall|k: int| 0 <= k < srcs.len() implies plain_tree((#[trigger] srcs[k]).entries, windows) by {
        assert(plain_source(srcs[k], windows));
    }
    assert forall|k: int| 0 <= k < names.len() implies !is_drive_segment(#[trigger] names[k]) by {
        assert(source_check(archive, srcs[k]) == Ok::<Seq<char>, BackupError>(names[k]));
        assert(!is_drive_segment(normal_names(srcs[k].canonical).last()));
    }
    lemma_archive_shaped(names, srcs, windows);
    let d = decoded_entries(bytes);
    assert forall|k: int| 0 <= k < d.len() implies #[trigger] d[k] == read_back(es)[k] by {
        assert(shaped(es[k]));
    }
    assert(d =~= read_back(es));
}


/// A source whose path names are host component names, each walked entry
/// at least one level below it.
pub open spec fn well_named_source(s: SourceView) -> bool {
    &&& well_named(s.canonical)
    &&& forall|k: int|
        0 <= k < s.entries.len() ==> (#[trigger] s.entries[k]).path.len() > 0 && component_names(
            s.entries[k].path,
        )
}

/// An entry name as archives hold them: one of the root names followed by
/// component names, joined by `/` with no leading, trailing or doubled `/`,
/// and for a directory marker one `/` more.
pub open spec fn model_name(e: EntryView, roots: Seq<Seq<char>>) -> bool {
    exists|segs: Seq<Seq<char>>|
        #![trigger join_slash(segs)]
        segs.len() > 0 && component_names(segs) && roots.contains(segs[0]) && slash_form(
            join_slash(segs),
        ) && e.name == (if e.is_dir {
            join_slash(segs) + seq!['/']
        } else {
            join_slash(segs)
        })
}

pub open spec fn all_model_names(es: Seq<EntryView>, roots: Seq<Seq<char>>) -> bool {
    forall|k: int| 0 <= k < es.len() ==> model_name(#[trigger] es[k], roots)
}

proof fn lemma_model_concat(a: Seq<EntryView>, b: Seq<EntryView>, roots: Seq<Seq<char>>)
    requires
        all_model_names(a, roots),
        all_model_names(b, roots),
    ensures
        all_model_names(a + b, roots),
{
    assert forall|k: int| 0 <= k < (a + b).len() implies model_name(#[trigger] (a + b)[k], roots) by {
        if k < a.len() {
            assert((a + b)[k] == a[k]);
        } else {
            assert((a + b)[k] == b[k - a.len()]);
        }
    }
}

proof fn lemma_model_one(segs: Seq<Seq<char>>, dir: bool, data: Seq<u8>, roots: Seq<Seq<char>>)
    requires
        segs.len() > 0,
        component_names(segs),
        roots.contains(segs[0]),
    ensures
        model_name(
            EntryView {
                name: if dir { join_slash(segs) + seq!['/'] } else { join_slash(segs) },
                is_dir: dir,
                data: data,
            },
            roots,
        ),
{
    lemma_join_form(segs);
}

proof fn lemma_model_walked(r: Seq<char>, es: Seq<TreeEntryView>, roots: Seq<Seq<char>>)
    requires
        component_name(r),
        roots.contains(r),
        forall|k: int|
            0 <= k < es.len() ==> (#[trigger] es[k]).path.len() > 0 && component_names(es[k].path),
    ensures
        all_model_names(walked_entries(r, es), roots),
    decreases es.len(),
{
    if es.len() > 0 {
        let init = es.drop_last();
        let e = es.last();
        assert forall|k: int| 0 <= k < init.len() implies (#[trigger] init[k]).path.len() > 0
            && component_names(init[k].path) by {
            assert(init[k] == es[k]);
        }
        lemma_model_walked(r, init, roots);
        assert(es[es.len() - 1] == e);
        let segs = seq![r] + e.path;
        assert(component_names(segs)) by {
            assert forall|k: int| 0 <= k < segs.len() implies component_name(#[trigger] segs[k]) by {
                if k > 0 {
                    assert(segs[k] == e.path[k - 1]);
                }
            }
        }
        assert(segs[0] == r);
        let one = entry_for(r, e);
        match e.kind {
            EntryKind::Directory => {
                lemma_model_one(segs, true, seq![], roots);
                assert(model_name(one[0], roots));
            },
            EntryKind::File => {
                lemma_model_one(segs, false, e.data, roots);
                assert(model_name(one[0], roots));
            },
            _ => {},
        }
        assert(all_model_names(one, roots));
        lemma_model_concat(walked_entries(r, init), one, roots);
    }
}

proof fn lemma_model_archive(names: Seq<Seq<char>>, srcs: Seq<SourceView>, roots: Seq<Seq<char>>)
    requires
        names.len() == srcs.len(),
        component_names(names),
        forall|k: int| 0 <= k < names.len() ==> roots.contains(#[trigger] names[k]),
        forall|k: int| 0 <= k < srcs.len() ==> well_named_source(#[trigger] srcs[k]),
    ensures
        all_model_names(archive_entries(names, srcs), roots),
    decreases srcs.len(),
{
    if srcs.len() > 0 {
        let ni = names.drop_last();
        let si = srcs.drop_last();
        assert forall|k: int| 0 <= k < ni.len() implies component_name(#[trigger] ni[k]) by {
            assert(ni[k] == names[k]);
        }
        assert forall|k: int| 0 <= k < ni.len() implies roots.contains(#[trigger] ni[k]) by {
            assert(ni[k] == names[k]);
        }
        assert forall|k: int| 0 <= k < si.len() implies well_named_source(#[trigger] si[k]) by {
            assert(si[k] == srcs[k]);
        }
        lemma_model_archive(ni, si, roots);
        let r = names.last();
        assert(component_name(names[names.len() - 1]));
        assert(roots.contains(names[names.len() - 1]));
        assert(well_named_source(srcs[srcs.len() - 1]));
        let es = srcs.last().entries;
        lemma_model_one(seq![r], true, seq![], roots);
        assert(join_slash(seq![r]) == r);
        let marker = seq![EntryView { name: r + seq!['/'], is_dir: true, data: seq![] }];
        assert(all_model_names(marker, roots));
        lemma_model_walked(r, es, roots);
        lemma_model_concat(marker, walked_entries(r, es), roots);
        lemma_model_concat(archive_entries(ni, si), tree_entries(r, es), roots);
    } else {
        assert(archive_entries(names, srcs) =~= seq![]);
    }
}

/// Every entry that building plans for sources with host component names
/// has its name in archive form: the root name of one of the sources, then
/// component names (never empty, `.` or `..`), joined by `/` with no
/// leading, trailing or doubled `/`; a directory marker ends in one `/` more.
pub proof fn law_entry_names(archive: Seq<Part>, srcs: Seq<SourceView>)
    requires
        archive_plan(archive, srcs) is Ok,
        forall|k: int| 0 <= k < srcs.len() ==> well_named_source(#[trigger] srcs[k]),
    ensures
        all_model_names(archive_plan(archive, srcs)->Ok_0, roots_of(archive, srcs)->Ok_0),
{
    lemma_roots_ok(archive, srcs);
    let names = roots_of(archive, srcs)->Ok_0;
    assert forall|k: int| 0 <= k < names.len() implies component_name(#[trigger] names[k]) by {
        assert(source_check(archive, srcs[k]) == Ok::<Seq<char>, BackupError>(names[k]));
        assert(well_named_source(srcs[k]));
        lemma_normal_names_named(srcs[k].canonical);
        let nn = normal_names(srcs[k].canonical);
        assert(component_name(nn[nn.len() - 1]));
    }
    assert forall|k: int| 0 <= k < names.len() implies names.contains(#[trigger] names[k]) by {}
    lemma_model_archive(names, srcs, names);
}

} // verus!
