//! Archives of stored files and directories, built in memory.
//!
//! An archive is made in two steps. `collect_entries` walks the members that
//! were asked for, reads every stored file and lists the entries of the
//! archive in their order. `write_archive` hands that list to the zip writer.
//! A member that cannot be read fails the whole archive.

use std::io::Write;
use vstd::prelude::*;
use crate::blob::{decode_object, gzip_decoded, io_outcome};
use crate::error::StoreError;
use crate::path::{beneath, covers, lemma_covers_transitive, slash_join, slash_joined};
use crate::store::{lemma_children_view, NodeView, StoredNode};

verus! {

/// An entry of an archive: a file with its content, or a directory. The
/// name is the entry's path inside the archive.
#[derive(Clone, Debug, PartialEq, Eq)]
pub struct ArchiveEntry {
    pub name: String,
    pub is_dir: bool,
    pub data: Vec<u8>,
}

/// The model of an `ArchiveEntry`.
pub struct EntryView {
    pub name: Seq<char>,
    pub is_dir: bool,
    pub data: Seq<u8>,
}

impl View for ArchiveEntry {
    type V = EntryView;

    open spec fn view(&self) -> EntryView {
        EntryView { name: self.name@, is_dir: self.is_dir, data: self.data@ }
    }
}

impl DeepView for ArchiveEntry {
    type V = EntryView;

    open spec fn deep_view(&self) -> EntryView {
        self@
    }
}

/// The entry of a directory at `path`.
pub open spec fn directory_entry(path: Seq<char>) -> EntryView {
    EntryView { name: path, is_dir: true, data: Seq::empty() }
}

/// Two runs of entries, one after the other; nothing where either is
/// missing.
pub open spec fn both(a: Option<Seq<EntryView>>, b: Option<Seq<EntryView>>) -> Option<
    Seq<EntryView>,
> {
    match (a, b) {
        (Some(x), Some(y)) => Some(x + y),
        _ => None,
    }
}

/// The one entry of the file stored as `blob`, under the name `path`;
/// nothing where the blob cannot be read.
pub open spec fn file_entries(path: Seq<char>, blob: Seq<u8>) -> Option<Seq<EntryView>> {
    match gzip_decoded(blob) {
        Some(data) => Some(seq![EntryView { name: path, is_dir: false, data }]),
        None => None,
    }
}

/// The entries of a node that lies inside a member, at `path`: a file gives
/// its one entry; a directory gives an entry of its own, then the entries of
/// all that it holds.
pub open spec fn nested_entries(node: NodeView, path: Seq<char>) -> Option<Seq<EntryView>>
    decreases node,
{
    match node {
        NodeView::File { name, blob } => file_entries(path, blob),
        NodeView::Directory { name, children } => both(
            Some(seq![directory_entry(path)]),
            folder_entries(children, path),
        ),
    }
}

/// The entries of what the directory at `dir` holds: those of each child in
/// turn, the child's path being `dir`, a separator and the child's name.
pub open spec fn folder_entries(children: Seq<NodeView>, dir: Seq<char>) -> Option<Seq<EntryView>>
    decreases children,
{
    if children.len() == 0 {
        Some(Seq::empty())
    } else {
        let last = children.last();
        both(
            folder_entries(children.drop_last(), dir),
            nested_entries(last, slash_joined(dir, last.name())),
        )
    }
}

/// The entries of one member of an archive: a file gives one entry under
/// its name; a directory gives the entries of all that it holds, and none of
/// its own.
pub open spec fn member_entries(member: NodeView) -> Option<Seq<EntryView>> {
    match member {
        NodeView::File { name, blob } => file_entries(name, blob),
        NodeView::Directory { name, children } => folder_entries(children, name),
    }
}

/// The entries of an archive of `members`, in their order; nothing where a
/// stored file among them cannot be read.
pub open spec fn archive_entries(members: Seq<NodeView>) -> Option<Seq<EntryView>>
    decreases members.len(),
{
    if members.len() == 0 {
        Some(Seq::empty())
    } else {
        both(archive_entries(members.drop_last()), member_entries(members.last()))
    }
}

/// The name under which the zip writer records a directory: the name
/// itself where it ends in a slash or a backslash, else the name and a slash.
pub open spec fn directory_name(name: Seq<char>) -> Seq<char> {
    if name.len() > 0 && (name.last() == '/' || name.last() == '\\') {
        name
    } else {
        name + seq!['/']
    }
}

/// The entry as the zip writer records it: a directory under its
/// `directory_name` and without content, a file as it is.
pub open spec fn written(entry: EntryView) -> EntryView {
    if entry.is_dir {
        directory_entry(directory_name(entry.name))
    } else {
        entry
    }
}

/// The entries as the zip writer records them.
pub open spec fn written_all(entries: Seq<EntryView>) -> Seq<EntryView> {
    Seq::new(entries.len(), |i: int| written(entries[i]))
}

/// Every one of `entries` is named by `path` or by a path beneath it.
pub open spec fn all_within(entries: Seq<EntryView>, path: Seq<char>) -> bool {
    forall|i: int| 0 <= i < entries.len() ==> covers(path, (#[trigger] entries[i]).name)
}

/// Every one of `entries` is named by a path beneath `dir`.
pub open spec fn all_beneath(entries: Seq<EntryView>, dir: Seq<char>) -> bool {
    forall|i: int| 0 <= i < entries.len() ==> beneath(dir, (#[trigger] entries[i]).name)
}

/// The entries of a node at `path` are named by `path` and by paths beneath
/// it.
pub proof fn lemma_nested_entries_lie_within(node: NodeView, path: Seq<char>)
    ensures
        nested_entries(node, path) matches Some(entries) ==> all_within(entries, path),
    decreases node,
{
    match node {
        NodeView::File { name, blob } => {},
        NodeView::Directory { name, children } => {
            lemma_folder_entries_lie_beneath(children, path);
            if nested_entries(node, path) is Some {
                let entries = nested_entries(node, path)->0;
                let inner = folder_entries(children, path)->0;
                assert forall|i: int| 0 <= i < entries.len() implies covers(
                    path,
                    (#[trigger] entries[i]).name,
                ) by {
                    if i > 0 {
                        assert(entries[i] == inner[i - 1]);
                    }
                }
            }
        },
    }
}

/// The entries of what a directory holds are named by paths beneath the
/// directory's own: each begins with the directory's path and a separator.
pub proof fn lemma_folder_entries_lie_beneath(children: Seq<NodeView>, dir: Seq<char>)
    ensures
        folder_entries(children, dir) matches Some(entries) ==> all_beneath(entries, dir),
    decreases children,
{
    if children.len() > 0 && folder_entries(children, dir) is Some {
        let last = children.last();
        let at = slash_joined(dir, last.name());
        let before = folder_entries(children.drop_last(), dir)->0;
        let found = nested_entries(last, at)->0;
        let entries = folder_entries(children, dir)->0;
        lemma_folder_entries_lie_beneath(children.drop_last(), dir);
        lemma_nested_entries_lie_within(last, at);
        assert(at.subrange(0, dir.len() as int) =~= dir);
        assert(covers(dir, at));
        assert forall|i: int| 0 <= i < entries.len() implies beneath(
            dir,
            (#[trigger] entries[i]).name,
        ) by {
            if i < before.len() {
                assert(entries[i] == before[i]);
            } else {
                assert(entries[i] == found[i - before.len()]);
                lemma_covers_transitive(dir, at, entries[i].name);
            }
        }
    }
}

/// The entries of a member that is a directory are named by paths beneath
/// the member's name.
pub proof fn lemma_member_entries_lie_beneath(member: NodeView)
    requires
        member is Directory,
    ensures
        member_entries(member) matches Some(entries) ==> all_beneath(entries, member.name()),
{
    lemma_folder_entries_lie_beneath(member->Directory_children, member.name());
}

/// A folder that cannot be read in part cannot be read as a whole.
pub proof fn lemma_folder_unreadable(children: Seq<NodeView>, dir: Seq<char>, n: int)
    requires
        0 <= n <= children.len(),
        folder_entries(children.take(n), dir) is None,
    ensures
        folder_entries(children, dir) is None,
    decreases children.len(),
{
    if n < children.len() {
        assert(children.drop_last().take(n) =~= children.take(n));
        lemma_folder_unreadable(children.drop_last(), dir, n);
    } else {
        assert(children.take(n) =~= children);
    }
}

/// An archive with an unreadable member among its first `n` has no entries.
pub proof fn lemma_archive_unreadable(members: Seq<NodeView>, n: int)
    requires
        0 <= n <= members.len(),
        archive_entries(members.take(n)) is None,
    ensures
        archive_entries(members) is None,
    decreases members.len(),
{
    if n < members.len() {
        assert(members.drop_last().take(n) =~= members.take(n));
        lemma_archive_unreadable(members.drop_last(), n);
    } else {
        assert(members.take(n) =~= members);
    }
}

/// `zip::result::ZipError`, which the library carries through without
/// looking inside.
#[verifier::external_type_specification]
#[verifier::external_body]
pub struct ExZipError(zip::result::ZipError);

/// A `zip::ZipWriter` over a buffer in memory. What it holds is known only
/// through `recorded`.
#[verifier::external_body]
pub struct ArchiveWriter {
    inner: zip::ZipWriter<std::io::Cursor<Vec<u8>>>,
}

/// The entries that the writer has recorded so far, in their order.
pub uninterp spec fn recorded(writer: ArchiveWriter) -> Seq<EntryView>;

/// Whether `zip::ZipWriter::start_file` succeeds for `name` on a writer that
/// has recorded `before`. The writer works on a buffer in memory, so this
/// depends on what it holds and on the name alone.
pub uninterp spec fn start_file_ok(before: Seq<EntryView>, name: Seq<char>) -> bool;

/// Whether `write_all` of `zip::ZipWriter` succeeds for `data` on a writer
/// that has recorded `before`.
pub uninterp spec fn write_ok(before: Seq<EntryView>, data: Seq<u8>) -> bool;

/// Whether `zip::ZipWriter::add_directory` succeeds for `name` on a writer
/// that has recorded `before`.
pub uninterp spec fn add_directory_ok(before: Seq<EntryView>, name: Seq<char>) -> bool;

/// The bytes of the archive that `zip::ZipWriter::finish` gives for
/// `entries`, each with the default options; `None` where it reports an
/// error. The `zip` crate is built without its `time` feature: the default
/// options carry a fixed date, so the outcome depends on the entries alone.
pub uninterp spec fn zip_archive(entries: Seq<EntryView>) -> Option<Seq<u8>>;

/// Calls `zip::ZipWriter::new` on an empty buffer. The new writer has
/// recorded nothing.
#[verifier::external_body]
fn writer_new() -> (writer: ArchiveWriter)
    ensures
        recorded(writer) == Seq::<EntryView>::empty(),
{
    ArchiveWriter { inner: zip::ZipWriter::new(std::io::Cursor::new(Vec::new())) }
}

/// Calls `zip::ZipWriter::start_file` with the default options. It
/// succeeds exactly where `start_file_ok` says so, and the writer has then
/// recorded one more entry: a file named `name`, still without content.
#[verifier::external_body]
fn writer_start_file(writer: &mut ArchiveWriter, name: &str) -> (r: Result<
    (),
    zip::result::ZipError,
>)
    ensures
        r is Ok <==> start_file_ok(recorded(*old(writer)), name@),
        r is Ok ==> recorded(*final(writer)) == recorded(*old(writer)).push(
            EntryView { name: name@, is_dir: false, data: Seq::empty() },
        ),
{
    writer.inner.start_file(name, zip::write::FileOptions::default())
}

/// Calls `write_all` of `zip::ZipWriter`, which appends to the file that was
/// started last. It is called once for a file. It succeeds exactly where
/// `write_ok` says so, and that file then has `data` as its content.
#[verifier::external_body]
fn writer_write(writer: &mut ArchiveWriter, data: &[u8]) -> (r: Result<(), std::io::Error>)
    requires
        recorded(*old(writer)).len() > 0,
        !recorded(*old(writer)).last().is_dir,
        recorded(*old(writer)).last().data.len() == 0,
    ensures
        r is Ok <==> write_ok(recorded(*old(writer)), data@),
        r is Ok ==> recorded(*final(writer)) == recorded(*old(writer)).drop_last().push(
            EntryView { name: recorded(*old(writer)).last().name, is_dir: false, data: data@ },
        ),
{
    writer.inner.write_all(data)
}

/// Calls `zip::ZipWriter::add_directory` with the default options. It
/// succeeds exactly where `add_directory_ok` says so, and the writer has
/// then recorded one more entry: a directory, under `directory_name(name)`.
#[verifier::external_body]
fn writer_add_directory(writer: &mut ArchiveWriter, name: &str) -> (r: Result<
    (),
    zip::result::ZipError,
>)
    ensures
        r is Ok <==> add_directory_ok(recorded(*old(writer)), name@),
        r is Ok ==> recorded(*final(writer)) == recorded(*old(writer)).push(
            directory_entry(directory_name(name@)),
        ),
{
    writer.inner.add_directory(name, zip::write::FileOptions::default())
}

/// Calls `zip::ZipWriter::finish` and takes the buffer out of the cursor
/// that it returns. The result is what `zip_archive` names for the entries
/// that the writer has recorded: the bytes on success, `None` for an error.
#[verifier::external_body]
fn writer_finish(writer: ArchiveWriter) -> (r: Result<Vec<u8>, zip::result::ZipError>)
    ensures
        match r {
            Ok(bytes) => zip_archive(recorded(writer)) == Some(bytes@),
            Err(_) => zip_archive(recorded(writer)) is None,
        },
{
    let mut writer = writer;
    match writer.inner.finish() {
        Ok(cursor) => Ok(cursor.into_inner()),
        Err(e) => Err(e),
    }
}

/// The writer takes `entry` after it has recorded `before`: a directory is
/// added; a file is started and its content written.
pub open spec fn takes(before: Seq<EntryView>, entry: EntryView) -> bool {
    if entry.is_dir {
        add_directory_ok(before, entry.name)
    } else {
        start_file_ok(before, entry.name) && write_ok(
            before.push(EntryView { name: entry.name, is_dir: false, data: Seq::empty() }),
            entry.data,
        )
    }
}

/// The writer takes every one of `entries`, in their order.
pub open spec fn takes_all(entries: Seq<EntryView>) -> bool
    decreases entries.len(),
{
    entries.len() == 0 || (takes_all(entries.drop_last()) && takes(
        written_all(entries.drop_last()),
        entries.last(),
    ))
}

/// The writer makes an archive of `entries`: it takes them all and
/// finishes.
pub open spec fn accepted(entries: Seq<EntryView>) -> bool {
    takes_all(entries) && zip_archive(written_all(entries)) is Some
}

/// The archive that the writer makes of `entries`; nothing where it does
/// not accept them.
pub open spec fn written_archive(entries: Seq<EntryView>) -> Option<Seq<u8>> {
    if takes_all(entries) {
        zip_archive(written_all(entries))
    } else {
        None
    }
}

/// The archive of `members`; nothing where a stored file among them cannot
/// be read or the writer does not accept their entries.
pub open spec fn archive_of(members: Seq<NodeView>) -> Option<Seq<u8>> {
    match archive_entries(members) {
        Some(entries) => written_archive(entries),
        None => None,
    }
}

/// Where the writer refuses one of the first `n` entries, it does not take
/// them all.
pub proof fn lemma_refused_in_part(entries: Seq<EntryView>, n: int)
    requires
        0 <= n <= entries.len(),
        !takes_all(entries.take(n)),
    ensures
        !takes_all(entries),
    decreases entries.len(),
{
    if n < entries.len() {
        assert(entries.drop_last().take(n) =~= entries.take(n));
        lemma_refused_in_part(entries.drop_last(), n);
    } else {
        assert(entries.take(n) =~= entries);
    }
}

/// What the store makes of the outcome of a call of the zip writer: the
/// value as it is, and `IoFailure` for every error.
pub fn zip_outcome<T>(outcome: Result<T, zip::result::ZipError>) -> (r: Result<T, StoreError>)
    ensures
        match outcome {
            Ok(value) => r == Ok::<T, StoreError>(value),
            Err(_) => r == Err::<T, StoreError>(StoreError::IoFailure),
        },
{
    match outcome {
        Ok(value) => Ok(value),
        Err(_) => Err(StoreError::IoFailure),
    }
}

/// Adds the entry of the file stored as `blob` to `out`, under the name
/// `path`.
pub fn collect_file(path: &str, blob: &[u8], out: &mut Vec<ArchiveEntry>) -> (r: Result<(), StoreError>)
    ensures
        match r {
            Ok(_) => file_entries(path@, blob@) matches Some(found) && final(out).deep_view()
                == old(out).deep_view() + found,
            Err(e) => e == StoreError::IoFailure && file_entries(path@, blob@) is None,
        },
{
    let ghost before = out.deep_view();
    match decode_object(blob) {
        Ok(data) => {
            let entry = ArchiveEntry { name: path.to_owned(), is_dir: false, data };
            out.push(entry);
            assert(out.deep_view() =~= before + file_entries(path@, blob@)->0);
            Ok(())
        },
        Err(e) => Err(e),
    }
}

/// Adds the entries of a node that lies inside a member, at `path`.
pub fn collect_nested(node: &StoredNode, path: &str, out: &mut Vec<ArchiveEntry>) -> (r: Result<
    (),
    StoreError,
>)
    ensures
        match r {
            Ok(_) => nested_entries(node@, path@) matches Some(found) && final(out).deep_view()
                == old(out).deep_view() + found,
            Err(e) => e == StoreError::IoFailure && nested_entries(node@, path@) is None,
        },
    decreases node,
{
    let ghost before = out.deep_view();
    match node {
        StoredNode::File { name, blob } => collect_file(path, blob.as_slice(), out),
        StoredNode::Directory { name, children } => {
            proof {
                lemma_children_view(*node);
            }
            let entry = ArchiveEntry { name: path.to_owned(), is_dir: true, data: Vec::new() };
            out.push(entry);
            assert(out.deep_view() =~= before + seq![directory_entry(path@)]);
            let r = collect_folder(children, path, out);
            proof {
                if r is Ok {
                    let inner = folder_entries(children.deep_view(), path@)->0;
                    assert(out.deep_view() =~= before + (seq![directory_entry(path@)] + inner));
                }
            }
            r
        },
    }
}

/// Adds the entries of what the directory at `dir` holds.
pub fn collect_folder(children: &Vec<StoredNode>, dir: &str, out: &mut Vec<ArchiveEntry>) -> (r:
    Result<(), StoreError>)
    ensures
        match r {
            Ok(_) => folder_entries(children.deep_view(), dir@) matches Some(found) && final(out).deep_view() == old(out).deep_view() + found,
            Err(e) => e == StoreError::IoFailure && folder_entries(children.deep_view(), dir@)
                is None,
        },
    decreases children,
{
    let ghost before = out.deep_view();
    let ghost kids = children.deep_view();
    let mut i: usize = 0;
    assert(kids.take(0) =~= Seq::<NodeView>::empty());
    assert(out.deep_view() =~= before + Seq::<EntryView>::empty());
    while i < children.len()
        invariant
            i <= children.len(),
            kids == children.deep_view(),
            folder_entries(kids.take(i as int), dir@) matches Some(found) && out.deep_view()
                == before + found,
        decreases children.len() - i,
    {
        let child = &children[i];
        let path = slash_join(dir, child.name());
        let ghost so_far = folder_entries(kids.take(i as int), dir@)->0;
        proof {
            vstd::std_specs::vec::axiom_vec_index_decreases(*children, i as int);
            assert(kids.take(i + 1).drop_last() =~= kids.take(i as int));
            assert(kids.take(i + 1).last() == child@);
        }
        match collect_nested(child, path.as_str(), out) {
            Ok(_) => {
                proof {
                    let found = nested_entries(child@, path@)->0;
                    assert(out.deep_view() =~= before + (so_far + found));
                }
            },
            Err(e) => {
                proof {
                    lemma_folder_unreadable(kids, dir@, i + 1);
                }
                return Err(e);
            },
        }
        i += 1;
    }
    assert(kids.take(children.len() as int) =~= kids);
    Ok(())
}

/// Adds the entries of one member of an archive.
pub fn collect_member(member: &StoredNode, out: &mut Vec<ArchiveEntry>) -> (r: Result<(), StoreError>)
    ensures
        match r {
            Ok(_) => member_entries(member@) matches Some(found) && final(out).deep_view() == old(out).deep_view() + found,
            Err(e) => e == StoreError::IoFailure && member_entries(member@) is None,
        },
{
    match member {
        StoredNode::File { name, blob } => collect_file(name.as_str(), blob.as_slice(), out),
        StoredNode::Directory { name, children } => {
            proof {
                lemma_children_view(*member);
            }
            collect_folder(children, name.as_str(), out)
        },
    }
}

/// The entries of an archive of `members`, in the order in which the
/// archive holds them.
///
/// Each member is a node as read from the store, named by the path, relative
/// to the base directory, under which it was asked for. A file gives one
/// entry, with its content read out of the stored blob. A directory gives the
/// entries of all that lies beneath it, directories included, each under its
/// path relative to the base directory, and no entry of its own. The one
/// failure is `IoFailure`: it is returned exactly where the blob of some file
/// among the members cannot be read.
pub fn collect_entries(members: &Vec<StoredNode>) -> (r: Result<Vec<ArchiveEntry>, StoreError>)
    ensures
        match r {
            Ok(entries) => archive_entries(members.deep_view()) == Some(entries.deep_view()),
            Err(e) => e == StoreError::IoFailure && archive_entries(members.deep_view()) is None,
        },
{
    let ghost all = members.deep_view();
    let mut out: Vec<ArchiveEntry> = Vec::new();
    let mut i: usize = 0;
    assert(all.take(0) =~= Seq::<NodeView>::empty());
    assert(out.deep_view() =~= Seq::<EntryView>::empty());
    while i < members.len()
        invariant
            i <= members.len(),
            all == members.deep_view(),
            archive_entries(all.take(i as int)) == Some(out.deep_view()),
        decreases members.len() - i,
    {
        proof {
            assert(all.take(i + 1).drop_last() =~= all.take(i as int));
            assert(all.take(i + 1).last() == members[i as int]@);
        }
        match collect_member(&members[i], &mut out) {
            Ok(_) => {},
            Err(e) => {
                proof {
                    lemma_archive_unreadable(all, i + 1);
                }
                return Err(e);
            },
        }
        i += 1;
    }
    assert(all.take(members.len() as int) =~= all);
    Ok(out)
}

/// The archive that holds `entries`, in their order.
///
/// The entries are handed to the zip writer one by one, a file with one
/// write of its content. The archive comes back exactly where the writer
/// accepts them; its bytes are then the zip archive of the entries as the
/// writer records them. The one failure is `IoFailure`.
pub fn write_archive(entries: &Vec<ArchiveEntry>) -> (r: Result<Vec<u8>, StoreError>)
    ensures
        r is Ok <==> accepted(entries.deep_view()),
        match r {
            Ok(bytes) => written_archive(entries.deep_view()) == Some(bytes@),
            Err(e) => e == StoreError::IoFailure && written_archive(entries.deep_view()) is None,
        },
{
    let ghost all = entries.deep_view();
    let mut writer = writer_new();
    let mut i: usize = 0;
    assert(written_all(all.take(0)) =~= Seq::<EntryView>::empty());
    while i < entries.len()
        invariant
            i <= entries.len(),
            all == entries.deep_view(),
            recorded(writer) == written_all(all.take(i as int)),
            takes_all(all.take(i as int)),
        decreases entries.len() - i,
    {
        let entry = &entries[i];
        let ghost before = recorded(writer);
        proof {
            assert(all.take(i + 1).drop_last() =~= all.take(i as int));
            assert(all.take(i + 1).last() == entry@);
        }
        if entry.is_dir {
            match zip_outcome(writer_add_directory(&mut writer, entry.name.as_str())) {
                Ok(_) => {},
                Err(e) => {
                    proof {
                        lemma_refused_in_part(all, i + 1);
                    }
                    return Err(e);
                },
            }
        } else {
            match zip_outcome(writer_start_file(&mut writer, entry.name.as_str())) {
                Ok(_) => {},
                Err(e) => {
                    proof {
                        lemma_refused_in_part(all, i + 1);
                    }
                    return Err(e);
                },
            }
            match io_outcome(writer_write(&mut writer, entry.data.as_slice())) {
                Ok(_) => {},
                Err(e) => {
                    proof {
                        lemma_refused_in_part(all, i + 1);
                    }
                    return Err(e);
                },
            }
        }
        assert(recorded(writer) =~= before.push(written(entry@)));
        assert(written_all(all.take(i + 1)) =~= written_all(all.take(i as int)).push(
            written(entry@),
        ));
        i += 1;
    }
    assert(all.take(entries.len() as int) =~= all);
    zip_outcome(writer_finish(writer))
}

/// The archive of `members`: `collect_entries`, then `write_archive`.
///
/// Nothing is returned in part. The archive comes back exactly where every
/// stored file among the members can be read and the writer accepts the
/// entries; every other outcome is `IoFailure`.
pub fn pack_archive(members: &Vec<StoredNode>) -> (r: Result<Vec<u8>, StoreError>)
    ensures
        match r {
            Ok(bytes) => archive_of(members.deep_view()) == Some(bytes@),
            Err(e) => e == StoreError::IoFailure && archive_of(members.deep_view()) is None,
        },
{
    match collect_entries(members) {
        Ok(entries) => write_archive(&entries),
        Err(e) => Err(e),
    }
}

} // verus!
