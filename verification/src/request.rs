//! What a request needs before the store is touched: the path that it
//! names, the directory that governs it, and the caller's right to go on.

use vstd::prelude::*;
use crate::access::{listing_of, permitted, resolve_listing_visibility, resolve_permission,
    AccessGrant, DirEntry, DirEntryView, FileEntry, FileEntryView, GrantView};
use crate::error::{Missing, StoreError};
use crate::identity::{mask_allows, mask_is_admin, Permission, RequestContext};
use crate::path::{begins_with, normalized, parent, parent_dir, slash_join, slash_joined};

verus! {

/// An operation of the store on one path.
#[derive(Clone, Copy, Debug, PartialEq, Eq, Structural)]
pub enum Operation {
    List,
    Upload,
    Download,
    DownloadArchive,
    Exists,
    ExistsMultiple,
    CreateDirectory,
    DeleteFile,
    DeleteDirectory,
    RenameFile,
    RenameDirectory,
    CreateLink,
}

impl Operation {
    /// The operation changes the store, so the caller must hold a grant
    /// that allows writing.
    pub open spec fn spec_requires_write(self) -> bool {
        match self {
            Operation::Upload => true,
            Operation::CreateDirectory => true,
            Operation::DeleteFile => true,
            Operation::DeleteDirectory => true,
            Operation::RenameFile => true,
            Operation::RenameDirectory => true,
            Operation::CreateLink => true,
            Operation::List => false,
            Operation::Download => false,
            Operation::DownloadArchive => false,
            Operation::Exists => false,
            Operation::ExistsMultiple => false,
        }
    }

    /// The operation is governed by the directory that it names; the others
    /// are governed by the directory that holds the path.
    pub open spec fn spec_on_directory(self) -> bool {
        match self {
            Operation::List => true,
            Operation::CreateDirectory => true,
            Operation::DeleteDirectory => true,
            Operation::RenameDirectory => true,
            Operation::ExistsMultiple => true,
            Operation::Upload => false,
            Operation::Download => false,
            Operation::DownloadArchive => false,
            Operation::Exists => false,
            Operation::DeleteFile => false,
            Operation::RenameFile => false,
            Operation::CreateLink => false,
        }
    }

    /// The caller must hold a grant that covers the governing directory. A
    /// listing asks for none: what the caller's grants do not open is left
    /// out of it instead.
    pub open spec fn spec_needs_grant(self) -> bool {
        match self {
            Operation::List => false,
            _ => true,
        }
    }

    /// Whether the caller must hold a grant that covers the governing
    /// directory.
    #[verifier::when_used_as_spec(spec_needs_grant)]
    pub fn needs_grant(self) -> (r: bool)
        ensures
            r == self.spec_needs_grant(),
    {
        match self {
            Operation::List => false,
            _ => true,
        }
    }

    /// Whether the operation changes the store.
    #[verifier::when_used_as_spec(spec_requires_write)]
    pub fn requires_write(self) -> (r: bool)
        ensures
            r == self.spec_requires_write(),
    {
        match self {
            Operation::Upload => true,
            Operation::CreateDirectory => true,
            Operation::DeleteFile => true,
            Operation::DeleteDirectory => true,
            Operation::RenameFile => true,
            Operation::RenameDirectory => true,
            Operation::CreateLink => true,
            Operation::List => false,
            Operation::Download => false,
            Operation::DownloadArchive => false,
            Operation::Exists => false,
            Operation::ExistsMultiple => false,
        }
    }

    /// Whether the operation is governed by the directory that it names.
    #[verifier::when_used_as_spec(spec_on_directory)]
    pub fn on_directory(self) -> (r: bool)
        ensures
            r == self.spec_on_directory(),
    {
        match self {
            Operation::List => true,
            Operation::CreateDirectory => true,
            Operation::DeleteDirectory => true,
            Operation::RenameDirectory => true,
            Operation::ExistsMultiple => true,
            Operation::Upload => false,
            Operation::Download => false,
            Operation::DownloadArchive => false,
            Operation::Exists => false,
            Operation::DeleteFile => false,
            Operation::RenameFile => false,
            Operation::CreateLink => false,
        }
    }
}

/// A request that may go on: the path that it names and the directory that
/// governs it.
#[derive(Clone, Debug, PartialEq, Eq)]
pub struct Authorized {
    pub path: String,
    pub dir: String,
}

/// The directory that governs `op` on `path`.
pub open spec fn governing(op: Operation, path: Seq<char>) -> Seq<char> {
    if op.spec_on_directory() {
        path
    } else {
        parent(path)
    }
}

/// The caller may carry out `op` on `path`: the mask opens the store to the
/// caller and, where `op` needs a grant, the caller is an administrator or
/// holds a grant that covers the governing directory and, where `op` changes
/// the store, allows writing.
pub open spec fn may_proceed(
    mask: i32,
    user: Seq<char>,
    grants: Seq<GrantView>,
    op: Operation,
    path: Seq<char>,
) -> bool {
    mask_allows(mask, Permission::Cloud.spec_bit()) && (!op.spec_needs_grant() || mask_is_admin(mask)
        || permitted(grants, user, normalized(governing(op, path)), op.spec_requires_write()))
}

/// The text that `percent_encoding` decodes `raw` to, with what is no
/// UTF-8 replaced as `decode_utf8_lossy` does.
pub uninterp spec fn percent_decoded(raw: Seq<char>) -> Seq<char>;

/// Calls `percent_encoding::percent_decode_str` and, on what it returns,
/// `decode_utf8_lossy`. The result is the text named `percent_decoded(raw)`.
#[verifier::external_body]
fn percent_decode(raw: &str) -> (text: String)
    ensures
        text@ == percent_decoded(raw@),
{
    percent_encoding::percent_decode_str(raw).decode_utf8_lossy().to_string()
}

/// The directory that governs `op` on `path`.
pub fn governing_dir(op: Operation, path: &str) -> (dir: &str)
    ensures
        dir@ == governing(op, path@),
{
    if op.on_directory() {
        path
    } else {
        parent_dir(path)
    }
}

/// Decides whether the caller may carry out `op` on `path`, before the store
/// is touched.
///
/// The request goes on exactly where `may_proceed` holds, and then with the
/// path and the directory that governs it. Every other request is denied.
pub fn authorize_path(
    ctx: &RequestContext,
    grants: &Vec<AccessGrant>,
    op: Operation,
    path: &str,
) -> (r: Result<Authorized, StoreError>)
    ensures
        match r {
            Ok(a) => may_proceed(ctx@.mask, ctx@.user, grants.deep_view(), op, path@) && a.path@
                == path@ && a.dir@ == governing(op, path@),
            Err(e) => e == StoreError::AuthorizationDenied && !may_proceed(
                ctx@.mask,
                ctx@.user,
                grants.deep_view(),
                op,
                path@,
            ),
        },
{
    if !ctx.has_permissions(Permission::Cloud.bit()) {
        return Err(StoreError::AuthorizationDenied);
    }
    let dir = governing_dir(op, path);
    if op.needs_grant() && !resolve_permission(ctx, grants, dir, op.requires_write()) {
        return Err(StoreError::AuthorizationDenied);
    }
    Ok(Authorized { path: path.to_owned(), dir: dir.to_owned() })
}

/// Decides whether the caller may carry out `op` on the path that a request
/// names in percent-encoded form.
///
/// The path is decoded first; the decision is that of `authorize_path` on
/// the decoded path.
pub fn authorize(ctx: &RequestContext, grants: &Vec<AccessGrant>, op: Operation, raw_path: &str) -> (r:
    Result<Authorized, StoreError>)
    ensures
        match r {
            Ok(a) => may_proceed(
                ctx@.mask,
                ctx@.user,
                grants.deep_view(),
                op,
                percent_decoded(raw_path@),
            ) && a.path@ == percent_decoded(raw_path@) && a.dir@ == governing(
                op,
                percent_decoded(raw_path@),
            ),
            Err(e) => e == StoreError::AuthorizationDenied && !may_proceed(
                ctx@.mask,
                ctx@.user,
                grants.deep_view(),
                op,
                percent_decoded(raw_path@),
            ),
        },
{
    let path = percent_decode(raw_path);
    authorize_path(ctx, grants, op, path.as_str())
}

/// What a listing of `dir` gives the caller, `children` being what the store
/// holds there, or nothing where the directory is absent.
pub open spec fn listing_outcome(
    mask: i32,
    user: Seq<char>,
    grants: Seq<GrantView>,
    dir: Seq<char>,
    children: Option<Seq<DirEntryView>>,
) -> Result<Seq<FileEntryView>, StoreError> {
    if !mask_allows(mask, Permission::Cloud.spec_bit()) {
        Err(StoreError::AuthorizationDenied)
    } else {
        match children {
            None => Err(StoreError::NotFound(Missing::Path)),
            Some(entries) => Ok(listing_of(grants, user, mask_is_admin(mask), dir, entries)),
        }
    }
}

/// The listing of the directory `dir` for the caller, `children` being what
/// the store holds there, or nothing where the directory is absent.
///
/// A caller to whom the mask does not open the store is denied, whatever the
/// store holds. An absent directory is not found. For a directory that is
/// there no grant has to cover `dir`: the listing is pruned to what the
/// caller's grants let the caller see.
pub fn list_directory(
    ctx: &RequestContext,
    grants: &Vec<AccessGrant>,
    dir: &str,
    children: Option<&Vec<DirEntry>>,
) -> (r: Result<Vec<FileEntry>, StoreError>)
    ensures
        match r {
            Ok(listing) => listing_outcome(
                ctx@.mask,
                ctx@.user,
                grants.deep_view(),
                dir@,
                children.deep_view(),
            ) == Ok::<Seq<FileEntryView>, StoreError>(listing.deep_view()),
            Err(e) => listing_outcome(
                ctx@.mask,
                ctx@.user,
                grants.deep_view(),
                dir@,
                children.deep_view(),
            ) == Err::<Seq<FileEntryView>, StoreError>(e),
        },
{
    if !ctx.has_permissions(Permission::Cloud.bit()) {
        return Err(StoreError::AuthorizationDenied);
    }
    match children {
        None => Err(StoreError::NotFound(Missing::Path)),
        Some(entries) => Ok(resolve_listing_visibility(ctx, grants, dir, entries)),
    }
}

/// The entries that stand for `names`, each taken as the name of a file.
pub open spec fn as_files(names: Seq<Seq<char>>) -> Seq<DirEntryView> {
    Seq::new(names.len(), |i: int| DirEntryView { name: names[i], is_dir: false })
}

/// The names of the entries of a listing, in their order.
pub open spec fn names_of(listing: Seq<FileEntryView>) -> Seq<Seq<char>> {
    Seq::new(listing.len(), |i: int| listing[i].name)
}

/// Those of `names` that the caller sees in the directory `dir`, in their
/// order: the names whose presence the store is then asked about.
pub fn visible_names(
    ctx: &RequestContext,
    grants: &Vec<AccessGrant>,
    dir: &str,
    names: &Vec<String>,
) -> (seen: Vec<String>)
    ensures
        seen.deep_view() == names_of(
            listing_of(
                grants.deep_view(),
                ctx@.user,
                mask_is_admin(ctx@.mask),
                dir@,
                as_files(names.deep_view()),
            ),
        ),
{
    let mut entries: Vec<DirEntry> = Vec::new();
    let mut i: usize = 0;
    while i < names.len()
        invariant
            i <= names.len(),
            entries.deep_view() == as_files(names.deep_view().take(i as int)),
        decreases names.len() - i,
    {
        let ghost before = entries.deep_view();
        let name = names[i].clone();
        assert(name@ == names.deep_view()[i as int]);
        entries.push(DirEntry { name, is_dir: false });
        assert(entries.deep_view() =~= before.push(
            DirEntryView { name: names.deep_view()[i as int], is_dir: false },
        ));
        assert(entries.deep_view() =~= as_files(names.deep_view().take(i + 1)));
        i += 1;
    }
    assert(names.deep_view().take(names.len() as int) =~= names.deep_view());
    let listing = resolve_listing_visibility(ctx, grants, dir, &entries);
    let mut seen: Vec<String> = Vec::new();
    let mut k: usize = 0;
    while k < listing.len()
        invariant
            k <= listing.len(),
            seen.deep_view() == names_of(listing.deep_view().take(k as int)),
        decreases listing.len() - k,
    {
        let ghost before = seen.deep_view();
        let name = listing[k].name.clone();
        assert(name@ == listing.deep_view()[k as int].name);
        seen.push(name);
        assert(seen.deep_view() =~= before.push(listing.deep_view()[k as int].name));
        assert(seen.deep_view() =~= names_of(listing.deep_view().take(k + 1)));
        k += 1;
    }
    assert(listing.deep_view().take(listing.len() as int) =~= listing.deep_view());
    seen
}

/// How many of `flags` are set.
pub open spec fn count_set(flags: Seq<bool>) -> nat
    decreases flags.len(),
{
    if flags.len() == 0 {
        0
    } else {
        count_set(flags.drop_last()) + if flags.last() {
            1nat
        } else {
            0nat
        }
    }
}

/// No more flags are set than there are flags.
pub proof fn lemma_count_set_bound(flags: Seq<bool>)
    ensures
        count_set(flags) <= flags.len(),
    decreases flags.len(),
{
    if flags.len() > 0 {
        lemma_count_set_bound(flags.drop_last());
    }
}

/// How many of the names that were asked about are present, `present`
/// holding the store's answer for each.
pub fn count_present(present: &Vec<bool>) -> (count: usize)
    ensures
        count == count_set(present@),
{
    let mut count: usize = 0;
    let mut i: usize = 0;
    assert(present@.take(0) =~= Seq::<bool>::empty());
    while i < present.len()
        invariant
            i <= present.len(),
            count == count_set(present@.take(i as int)),
            count <= i,
        decreases present.len() - i,
    {
        assert(present@.take(i + 1).drop_last() =~= present@.take(i as int));
        if present[i] {
            count += 1;
        }
        i += 1;
    }
    assert(present@.take(present.len() as int) =~= present@);
    count
}

/// The path of the entry at `path` once it is renamed to `new_name`: the
/// directory that holds it, a separator, the new name.
pub fn rename_target(path: &str, new_name: &str) -> (target: String)
    ensures
        target@ == slash_joined(parent(path@), new_name@),
{
    slash_join(parent_dir(path), new_name)
}

/// The request is served without an identity: it retrieves, by `GET`, what
/// a direct link opens, or the picture of the day by a token of its own.
pub open spec fn open_route(url_path: Seq<char>, is_get: bool) -> bool {
    is_get && ("/cloud/direct/"@.is_prefix_of(url_path) || "/images/apod/direct/"@.is_prefix_of(
        url_path,
    ))
}

/// Whether the request is served without an identity. Every other request
/// has to carry a credential before it reaches the store.
pub fn is_open_route(url_path: &str, is_get: bool) -> (r: bool)
    ensures
        r == open_route(url_path@, is_get),
{
    is_get && (begins_with(url_path, "/cloud/direct/") || begins_with(
        url_path,
        "/images/apod/direct/",
    ))
}

/// The range of a query over time is well-formed: it does not end before it
/// starts, and its step is at least one.
pub open spec fn well_formed_range(start: i64, end: i64, step: i32) -> bool {
    start <= end && step >= 1
}

/// Accepts a well-formed range of time and refuses any other as a bad
/// request.
pub fn check_time_range(start: i64, end: i64, step: i32) -> (r: Result<(), StoreError>)
    ensures
        well_formed_range(start, end, step) ==> r == Ok::<(), StoreError>(()),
        !well_formed_range(start, end, step) ==> r == Err::<(), StoreError>(StoreError::BadRequest),
{
    if start > end || step < 1 {
        Err(StoreError::BadRequest)
    } else {
        Ok(())
    }
}

} // verus!
