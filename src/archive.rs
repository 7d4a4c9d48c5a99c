use vstd::prelude::*;
use std::io::Cursor;
use zip::read::ZipArchive;
use zip::result::ZipError;
use zip::ZipWriter;
use crate::builder::{
    archive_entries, archive_plan, entry_for, entries_view, plan_archive, sources_view, tree_entries,
    walked_entries, ArchiveEntry, EntryView, SourceDir, SourceView, TreeEntryView,
};
use crate::error::BackupError;
use crate::paths::{is_drive_segment, is_parent_segment, is_sep, parts_view, segments, selector_ok, PathPart};
use crate::restore::{
    ActionView, actions_view, restore_plan, select_entries, selector_prefix, stored_view, RestoreAction,
    StoredEntry, StoredView,
};

verus! {

#[verifier::external_type_specification]
#[verifier::external_body]
#[verifier::reject_recursive_types(T)]
pub struct ExCursor<T>(std::io::Cursor<T>);

/// An archive being written into memory, held in a `zip::ZipWriter` kept
/// in a private field.
#[verifier::external_body]
pub struct ArchiveWriter {
    inner: ZipWriter<Cursor<Vec<u8>>>,
}

#[verifier::external_type_specification]
#[verifier::external_body]
#[verifier::reject_recursive_types(R)]
pub struct ExZipArchive<R>(zip::read::ZipArchive<R>);

#[verifier::external_type_specification]
#[verifier::external_body]
pub struct ExZipError(zip::result::ZipError);

/// The entries handed to a writer so far, in order.
pub uninterp spec fn written_entries(w: ArchiveWriter) -> Seq<EntryView>;

/// Whether every call on the writer so far has succeeded.
pub uninterp spec fn writer_open(w: ArchiveWriter) -> bool;

/// The bytes of the finished archive of these entries.
pub uninterp spec fn archive_bytes(es: Seq<EntryView>) -> Seq<u8>;

/// The entries that an opened archive holds, in order.
pub uninterp spec fn held_entries(a: ZipArchive<Cursor<Vec<u8>>>) -> Seq<StoredView>;

/// Whether entry `i` of an opened archive can be read in full.
pub uninterp spec fn entry_readable(a: ZipArchive<Cursor<Vec<u8>>>, i: int) -> bool;

/// Whether every entry of an opened archive can be read in full.
pub open spec fn held_readable(a: ZipArchive<Cursor<Vec<u8>>>) -> bool {
    forall|i: int| 0 <= i < held_entries(a).len() ==> #[trigger] entry_readable(a, i)
}

/// The entries that an archive's bytes decode to, in order.
pub uninterp spec fn decoded_entries(bytes: Seq<u8>) -> Seq<StoredView>;

/// Whether the bytes open as an archive whose every entry can be read in full.
pub uninterp spec fn archive_ok(bytes: Seq<u8>) -> bool;

pub open spec fn nul_free(n: Seq<char>) -> bool {
    forall|k: int| 0 <= k < n.len() ==> #[trigger] n[k] != '\0'
}

/// A name that the archive reader accepts as enclosed on any platform:
/// non-empty, not starting with a separator, free of NUL, with no `..`
/// segment, and not starting with a drive prefix.
pub open spec fn safe_name(n: Seq<char>) -> bool {
    &&& n.len() > 0
    &&& !is_sep(n[0])
    &&& nul_free(n)
    &&& forall|k: int| 0 <= k < segments(n).len() ==> !is_parent_segment(#[trigger] segments(n)[k])
    &&& segments(n).len() > 0 ==> !is_drive_segment(segments(n)[0])
}

/// What the archive reader gives back for entries written in order: the
/// same names and bytes, a directory exactly where the name ends in a
/// separator, and every safe name enclosed.
pub open spec fn reads_back_as(d: Seq<StoredView>, es: Seq<EntryView>) -> bool {
    &&& d.len() == es.len()
    &&& forall|k: int|
        0 <= k < es.len() ==> {
            &&& (#[trigger] d[k]).name == es[k].name
            &&& d[k].data == es[k].data
            &&& d[k].is_dir == (es[k].name.len() > 0 && is_sep(es[k].name.last()))
            &&& safe_name(es[k].name) ==> d[k].enclosed
        }
}

/// Every entry's name has at most 16383 characters, so at most 65535
/// bytes in UTF-8: the most that a zip header can record.
pub open spec fn short_names(es: Seq<EntryView>) -> bool {
    forall|i: int| 0 <= i < es.len() ==> (#[trigger] es[i]).name.len() <= 16383
}

/// Every entry holds at most 2^31 bytes. Deflate adds a few bytes per
/// 64 KiB block at worst, so each entry's compressed size then stays under
/// the 4 GiB that a zip entry without the large-file option can hold.
pub open spec fn sizes_ok(es: Seq<EntryView>) -> bool {
    forall|i: int| 0 <= i < es.len() ==> (#[trigger] es[i]).data.len() <= 0x8000_0000
}

/// Relies on `zip::ZipWriter::new`: a writer into an empty buffer, with no
/// entries yet.
#[verifier::external_body]
fn new_writer() -> (w: ArchiveWriter)
    ensures
        written_entries(w) == Seq::<EntryView>::empty(),
        writer_open(w),
{
    ArchiveWriter { inner: ZipWriter::new(Cursor::new(Vec::new())) }
}

/// Relies on `zip::ZipWriter::add_directory`: one directory entry named
/// `name` (which already ends in `/`), with no data. Writing into memory,
/// it fails only where the entry before it is too large.
#[verifier::external_body]
fn add_dir_entry(w: &mut ArchiveWriter, name: &String) -> (r: Result<(), ZipError>)
    requires
        name@.len() > 0,
        name@.last() == '/',
    ensures
        r is Ok ==> written_entries(*final(w)) == written_entries(*old(w)).push(
            EntryView { name: name@, is_dir: true, data: seq![] },
        ) && writer_open(*final(w)),
        writer_open(*old(w)) && sizes_ok(written_entries(*old(w))) ==> r is Ok,
{
    w.inner.add_directory(name.as_str(), zip::write::FileOptions::default())
}

/// Relies on `zip::ZipWriter::start_file`: one deflated file entry named
/// `name`, with no data yet. Writing into memory, it fails only where the
/// entry before it is too large.
#[verifier::external_body]
fn start_file_entry(w: &mut ArchiveWriter, name: &String) -> (r: Result<(), ZipError>)
    ensures
        r is Ok ==> written_entries(*final(w)) == written_entries(*old(w)).push(
            EntryView { name: name@, is_dir: false, data: seq![] },
        ) && writer_open(*final(w)),
        writer_open(*old(w)) && sizes_ok(written_entries(*old(w))) ==> r is Ok,
{
    let options = zip::write::FileOptions::default().compression_method(
        zip::CompressionMethod::Deflated,
    );
    w.inner.start_file(name.as_str(), options)
}

/// Relies on `std::io::Write::write_all` for `zip::ZipWriter`: the bytes
/// become the data of the file entry started last. Writing into memory, it
/// fails only on a file beyond 4 GiB.
#[verifier::external_body]
fn write_entry_data(w: &mut ArchiveWriter, data: &Vec<u8>) -> (r: Result<(), ZipError>)
    requires
        written_entries(*old(w)).len() > 0,
        !written_entries(*old(w)).last().is_dir,
        written_entries(*old(w)).last().data.len() == 0,
    ensures
        r is Ok ==> written_entries(*final(w)) == written_entries(*old(w)).update(
            written_entries(*old(w)).len() - 1,
            EntryView { name: written_entries(*old(w)).last().name, is_dir: false, data: data@ },
        ) && writer_open(*final(w)),
        writer_open(*old(w)) && data@.len() <= 0x8000_0000 ==> r is Ok,
{
    std::io::Write::write_all(&mut w.inner, data.as_slice()).map_err(ZipError::Io)
}

/// Relies on `zip::ZipWriter::finish`: the finished archive's bytes. Its
/// options are fixed (no clock is read), so the bytes follow from the
/// entries. Writing into memory, it fails only where the last entry is too
/// large. Where the bytes open again with `zip::read::ZipArchive` and
/// every name fits a zip header, each entry gives back its name and bytes;
/// `is_dir` and `enclosed_name` judge the names as they do any name.
#[verifier::external_body]
fn finish_writer(w: ArchiveWriter) -> (r: Result<Vec<u8>, ZipError>)
    ensures
        r is Ok ==> r->Ok_0@ == archive_bytes(written_entries(w)),
        r is Ok && archive_ok(r->Ok_0@) && short_names(written_entries(w)) ==> reads_back_as(
            decoded_entries(r->Ok_0@),
            written_entries(w),
        ),
        writer_open(w) && sizes_ok(written_entries(w)) ==> r is Ok,
{
    let mut w = w;
    w.inner.finish().map(|c| c.into_inner())
}

/// Relies on `zip::read::ZipArchive::new`: the archive that the bytes hold.
#[verifier::external_body]
fn open_archive(bytes: Vec<u8>) -> (r: Result<ZipArchive<Cursor<Vec<u8>>>, ZipError>)
    ensures
        r is Ok ==> held_entries(r->Ok_0) == decoded_entries(bytes@) && held_readable(r->Ok_0)
            == archive_ok(bytes@),
        r is Err ==> !archive_ok(bytes@),
{
    ZipArchive::new(Cursor::new(bytes))
}

/// Relies on `zip::read::ZipArchive::len`: the number of entries.
#[verifier::external_body]
fn archive_len(a: &ZipArchive<Cursor<Vec<u8>>>) -> (r: usize)
    ensures
        r == held_entries(*a).len(),
{
    a.len()
}

/// Relies on `zip::read::ZipArchive::by_index_decrypt` with an empty
/// password, which an unencrypted entry ignores: entry `i`, its name,
/// whether `enclosed_name` accepts it, whether `is_dir` holds (the name
/// ends in `/` or `\`), and its bytes read in full. An entry that needs a
/// password is an error.
#[verifier::external_body]
fn entry_at(a: &mut ZipArchive<Cursor<Vec<u8>>>, i: usize) -> (r: Result<StoredEntry, ZipError>)
    requires
        i < held_entries(*old(a)).len(),
    ensures
        held_entries(*final(a)) == held_entries(*old(a)),
        forall|j: int| #[trigger] entry_readable(*final(a), j) == entry_readable(*old(a), j),
        r is Ok <==> entry_readable(*old(a), i as int),
        r is Ok ==> r->Ok_0@ == held_entries(*old(a))[i as int],
        r is Ok ==> r->Ok_0.is_dir == (r->Ok_0.name@.len() > 0 && is_sep(r->Ok_0.name@.last())),
{
    let mut f = match a.by_index_decrypt(i, &[])? {
        Ok(f) => f,
        Err(_) => return Err(ZipError::UnsupportedArchive(ZipError::PASSWORD_REQUIRED)),
    };
    let mut data = Vec::new();
    std::io::Read::read_to_end(&mut f, &mut data)?;
    let enclosed = f.enclosed_name().is_some();
    Ok(StoredEntry { name: f.name().to_string(), enclosed, is_dir: f.is_dir(), data })
}

/// Every directory entry's name ends in `/`, and it has no data.
pub open spec fn dirs_marked(es: Seq<EntryView>) -> bool {
    forall|i: int|
        0 <= i < es.len() && (#[trigger] es[i]).is_dir ==> es[i].name.len() > 0 && es[i].name.last()
            == '/' && es[i].data.len() == 0
}

/// Writes the entries, in order, into the archive being built. It
/// succeeds on an open writer where no entry is too large.
pub fn write_entries(w: &mut ArchiveWriter, entries: &Vec<ArchiveEntry>) -> (r: Result<
    (),
    BackupError,
>)
    requires
        dirs_marked(entries_view(entries@)),
    ensures
        r is Ok ==> written_entries(*final(w)) == written_entries(*old(w)) + entries_view(entries@),
        r is Ok && writer_open(*old(w)) ==> writer_open(*final(w)),
        r is Err ==> r == Err::<(), BackupError>(BackupError::Archive),
        writer_open(*old(w)) && sizes_ok(written_entries(*old(w)) + entries_view(entries@)) ==> r is Ok,
{
    let ghost start = written_entries(*w);
    let ghost all = start + entries_view(entries@);
    let ghost fits = writer_open(*w) && sizes_ok(all);
    let mut i: usize = 0;
    assert(entries_view(entries@).take(0) =~= seq![]);
    assert(start + Seq::<EntryView>::empty() =~= start);
    while i < entries.len()
        invariant
            i <= entries.len(),
            dirs_marked(entries_view(entries@)),
            all == start + entries_view(entries@),
            written_entries(*w) == start + entries_view(entries@).take(i as int),
            start == written_entries(*old(w)),
            writer_open(*old(w)) ==> writer_open(*w),
            fits == (writer_open(*old(w)) && sizes_ok(all)),
        decreases entries.len() - i,
    {
        let e = &entries[i];
        let ghost ev = entries_view(entries@)[i as int];
        let ghost done = start + entries_view(entries@).take(i as int);
        let ghost next = start + entries_view(entries@).take(i as int + 1);
        assert(entries_view(entries@).take(i as int + 1) =~= entries_view(entries@).take(i as int).push(ev));
        assert(next =~= done.push(ev));
        proof {
            if fits {
                assert forall|j: int| 0 <= j < next.len() implies (#[trigger] next[j]).data.len()
                    <= 0x8000_0000 by {
                    assert(next[j] == all[j]);
                }
                assert forall|j: int| 0 <= j < done.len() implies (#[trigger] done[j]).data.len()
                    <= 0x8000_0000 by {
                    assert(done[j] == all[j]);
                }
                assert(sizes_ok(done));
                assert(next[next.len() - 1] == ev);
            }
        }
        if e.is_dir {
            assert(ev.is_dir);
            assert(ev.data =~= seq![]);
            if add_dir_entry(w, &e.name).is_err() {
                return Err(BackupError::Archive);
            }
            assert(written_entries(*w) =~= next);
        } else {
            if start_file_entry(w, &e.name).is_err() {
                return Err(BackupError::Archive);
            }
            let ghost mid = written_entries(*w);
            if write_entry_data(w, &e.data).is_err() {
                return Err(BackupError::Archive);
            }
            assert(written_entries(*w) =~= mid.drop_last().push(ev));
            assert(mid.drop_last() =~= done);
        }
        i = i + 1;
    }
    assert(entries_view(entries@).take(entries.len() as int) =~= entries_view(entries@));
    Ok(())
}

proof fn lemma_marked_concat(a: Seq<EntryView>, b: Seq<EntryView>)
    requires
        dirs_marked(a),
        dirs_marked(b),
    ensures
        dirs_marked(a + b),
{
    assert forall|i: int| 0 <= i < (a + b).len() && (#[trigger] (a + b)[i]).is_dir implies (a
        + b)[i].name.len() > 0 && (a + b)[i].name.last() == '/' && (a + b)[i].data.len() == 0 by {
        if i < a.len() {
            assert((a + b)[i] == a[i]);
        } else {
            assert((a + b)[i] == b[i - a.len()]);
        }
    }
}

proof fn lemma_walked_marked(root: Seq<char>, es: Seq<TreeEntryView>)
    ensures
        dirs_marked(walked_entries(root, es)),
    decreases es.len(),
{
    if es.len() > 0 {
        lemma_walked_marked(root, es.drop_last());
        let one = entry_for(root, es.last());
        assert(dirs_marked(one));
        lemma_marked_concat(walked_entries(root, es.drop_last()), one);
    }
}

proof fn lemma_archive_marked(names: Seq<Seq<char>>, srcs: Seq<SourceView>)
    ensures
        dirs_marked(archive_entries(names, srcs)),
    decreases srcs.len(),
{
    if srcs.len() > 0 && names.len() == srcs.len() {
        lemma_archive_marked(names.drop_last(), srcs.drop_last());
        let root = names.last();
        let es = srcs.last().entries;
        let marker = seq![EntryView { name: root + seq!['/'], is_dir: true, data: seq![] }];
        assert(dirs_marked(marker));
        lemma_walked_marked(root, es);
        lemma_marked_concat(marker, walked_entries(root, es));
        lemma_marked_concat(
            archive_entries(names.drop_last(), srcs.drop_last()),
            tree_entries(root, es),
        );
    } else {
        assert(archive_entries(names, srcs) =~= seq![]);
    }
}

/// Builds an archive of the source directories in memory: checks them as
/// `plan_archive` does, writes every planned entry in order, and returns the
/// finished archive's bytes. A failed check is returned as it is; a failure
/// of the archive encoder is `Archive`.
pub fn build_archive(archive: &Vec<PathPart>, sources: &Vec<SourceDir>) -> (r: Result<
    Vec<u8>,
    BackupError,
>)
    ensures
        match archive_plan(parts_view(archive@), sources_view(sources@)) {
            Ok(es) => {
                &&& r is Ok ==> r->Ok_0@ == archive_bytes(es)
                &&& r is Ok && archive_ok(r->Ok_0@) && short_names(es) ==> reads_back_as(
                    decoded_entries(r->Ok_0@),
                    es,
                )
                &&& r is Err ==> r == Err::<Vec<u8>, BackupError>(BackupError::Archive)
                &&& sizes_ok(es) ==> r is Ok
            },
            Err(e) => r == Err::<Vec<u8>, BackupError>(e),
        },
{
    let entries = match plan_archive(archive, sources) {
        Ok(es) => es,
        Err(e) => return Err(e),
    };
    proof {
        let a = parts_view(archive@);
        let srcs = sources_view(sources@);
        match crate::builder::roots_of(a, srcs) {
            Ok(names) => lemma_archive_marked(names, srcs),
            Err(_) => {},
        }
    }
    let mut w = new_writer();
    assert(written_entries(w) + entries_view(entries@) =~= entries_view(entries@));
    match write_entries(&mut w, &entries) {
        Ok(()) => {},
        Err(e) => return Err(e),
    }
    match finish_writer(w) {
        Ok(bytes) => Ok(bytes),
        Err(_) => Err(BackupError::Archive),
    }
}

/// Decodes an archive's bytes into its entries, in archive order. It
/// succeeds on bytes that decode; otherwise (a corrupt archive, an entry
/// that needs a password) the error is `Archive`.
pub fn read_archive(bytes: Vec<u8>) -> (r: Result<Vec<StoredEntry>, BackupError>)
    ensures
        r is Ok ==> stored_view(r->Ok_0@) == decoded_entries(bytes@),
        r is Err ==> r == Err::<Vec<StoredEntry>, BackupError>(BackupError::Archive),
        archive_ok(bytes@) <==> r is Ok,
{
    let ghost src = bytes@;
    let mut a = match open_archive(bytes) {
        Ok(a) => a,
        Err(_) => return Err(BackupError::Archive),
    };
    let n = archive_len(&a);
    let mut out: Vec<StoredEntry> = Vec::new();
    let mut i: usize = 0;
    while i < n
        invariant
            i <= n,
            n == held_entries(a).len(),
            held_entries(a) == decoded_entries(src),
            held_readable(a) == archive_ok(src),
            forall|j: int| 0 <= j < i ==> #[trigger] entry_readable(a, j),
            src == bytes@,
            stored_view(out@) == held_entries(a).take(i as int),
        decreases n - i,
    {
        let ghost a0 = a;
        let e = match entry_at(&mut a, i) {
            Ok(e) => e,
            Err(_) => return Err(BackupError::Archive),
        };
        proof {
            if held_readable(a0) {
                assert forall|j: int| 0 <= j < held_entries(a).len() implies #[trigger] entry_readable(
                    a,
                    j,
                ) by {
                    assert(entry_readable(a0, j));
                }
            }
            if held_readable(a) {
                assert forall|j: int| 0 <= j < held_entries(a0).len() implies #[trigger] entry_readable(
                    a0,
                    j,
                ) by {
                    assert(entry_readable(a, j));
                }
            }
        }
        let ghost before = stored_view(out@);
        out.push(e);
        assert(stored_view(out@) =~= before.push(held_entries(a)[i as int]));
        assert(held_entries(a).take(i as int + 1) =~= held_entries(a).take(i as int).push(
            held_entries(a)[i as int],
        ));
        i = i + 1;
    }
    assert(held_entries(a).take(n as int) =~= held_entries(a));
    Ok(out)
}

/// What restoring `selector` from an archive's bytes gives: the selector
/// is judged first, then whether the bytes decode, then what lies below the
/// selector. It depends on nothing else, so restoring twice plans the same
/// steps.
pub open spec fn restore_outcome(bytes: Seq<u8>, selector: Seq<char>, windows: bool) -> Result<
    Seq<ActionView>,
    BackupError,
> {
    if !selector_ok(selector) {
        Err(BackupError::InvalidSelector)
    } else if !archive_ok(bytes) {
        Err(BackupError::Archive)
    } else {
        restore_plan(decoded_entries(bytes), segments(selector), windows)
    }
}

/// Plans the restore of what `selector` names from an archive's bytes. The
/// selector is checked before the archive is decoded; only bytes that do
/// not decode give `Archive`.
pub fn restore_from_archive(bytes: Vec<u8>, selector: &str, windows: bool) -> (r: Result<
    Vec<RestoreAction>,
    BackupError,
>)
    ensures
        match restore_outcome(bytes@, selector@, windows) {
            Ok(acts) => r is Ok && actions_view(r->Ok_0@) == acts,
            Err(e) => r == Err::<Vec<RestoreAction>, BackupError>(e),
        },
{
    let prefix = match selector_prefix(selector) {
        Ok(p) => p,
        Err(e) => return Err(e),
    };
    let entries = match read_archive(bytes) {
        Ok(es) => es,
        Err(e) => return Err(e),
    };
    select_entries(&entries, &prefix, windows)
}

} // verus!
