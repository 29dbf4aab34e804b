//! Access grants and what they open to a caller.
//!
//! A grant names a user, a directory and a write flag. It covers its
//! directory and all that lies beneath it. Of the grants of one user that
//! cover a path, the one with the longest directory decides; of several with
//! the same directory, the one that stands last in the list.

use vstd::prelude::*;
use crate::identity::{mask_is_admin, RequestContext};
use crate::path::{beneath, child_path, covers, covers_path, joined, lemma_covers_transitive,
    lemma_dir_covers_entry, lemma_normalized, normalize, normalized, same_text};

verus! {

/// A record that opens a directory and its subtree to a user.
#[derive(Clone, Debug, PartialEq, Eq)]
pub struct AccessGrant {
    pub id: String,
    pub user: String,
    pub dir: String,
    pub write: bool,
}

/// The model of an `AccessGrant`.
pub struct GrantView {
    pub id: Seq<char>,
    pub user: Seq<char>,
    pub dir: Seq<char>,
    pub write: bool,
}

impl View for AccessGrant {
    type V = GrantView;

    open spec fn view(&self) -> GrantView {
        GrantView { id: self.id@, user: self.user@, dir: self.dir@, write: self.write }
    }
}

impl DeepView for AccessGrant {
    type V = GrantView;

    open spec fn deep_view(&self) -> GrantView {
        self@
    }
}

impl GrantView {
    /// The directory of the grant is written without trailing separators.
    pub open spec fn well_formed(self) -> bool {
        normalized(self.dir) == self.dir
    }
}

impl AccessGrant {
    /// A grant of `user` on the directory `dir`, whose trailing separators
    /// are dropped.
    pub fn new(id: String, user: String, dir: &str, write: bool) -> (grant: AccessGrant)
        ensures
            grant@ == (GrantView { id: id@, user: user@, dir: normalized(dir@), write }),
            grant@.well_formed(),
    {
        proof {
            lemma_normalized(dir@);
        }
        AccessGrant { id, user, dir: normalize(dir).to_owned(), write }
    }
}

/// An entry of a directory as the store enumerates it.
#[derive(Clone, Debug, PartialEq, Eq)]
pub struct DirEntry {
    pub name: String,
    pub is_dir: bool,
}

/// The model of a `DirEntry`.
pub struct DirEntryView {
    pub name: Seq<char>,
    pub is_dir: bool,
}

impl View for DirEntry {
    type V = DirEntryView;

    open spec fn view(&self) -> DirEntryView {
        DirEntryView { name: self.name@, is_dir: self.is_dir }
    }
}

impl DeepView for DirEntry {
    type V = DirEntryView;

    open spec fn deep_view(&self) -> DirEntryView {
        self@
    }
}

/// An entry of a directory as one caller sees it.
#[derive(Clone, Debug, PartialEq, Eq)]
pub struct FileEntry {
    pub name: String,
    pub is_dir: bool,
    pub writable: bool,
}

/// The model of a `FileEntry`.
pub struct FileEntryView {
    pub name: Seq<char>,
    pub is_dir: bool,
    pub writable: bool,
}

impl View for FileEntry {
    type V = FileEntryView;

    open spec fn view(&self) -> FileEntryView {
        FileEntryView { name: self.name@, is_dir: self.is_dir, writable: self.writable }
    }
}

impl DeepView for FileEntry {
    type V = FileEntryView;

    open spec fn deep_view(&self) -> FileEntryView {
        self@
    }
}

/// The grant belongs to `user` and covers `path`.
pub open spec fn grant_covers(grant: GrantView, user: Seq<char>, path: Seq<char>) -> bool {
    grant.user == user && covers(grant.dir, path)
}

/// The grant belongs to `user` and its directory lies strictly beneath `path`.
pub open spec fn grant_beneath(grant: GrantView, user: Seq<char>, path: Seq<char>) -> bool {
    grant.user == user && beneath(path, grant.dir)
}

/// Some grant of `user` covers `path` and, where writing is asked for, allows
/// it.
pub open spec fn permitted(
    grants: Seq<GrantView>,
    user: Seq<char>,
    path: Seq<char>,
    require_write: bool,
) -> bool {
    exists|i: int|
        0 <= i < grants.len() && #[trigger] grant_covers(grants[i], user, path) && (require_write
            ==> grants[i].write)
}

/// Some grant of `user` covers `path`.
pub open spec fn has_covering(grants: Seq<GrantView>, user: Seq<char>, path: Seq<char>) -> bool {
    exists|i: int| 0 <= i < grants.len() && #[trigger] grant_covers(grants[i], user, path)
}

/// The directory of some grant of `user` lies strictly beneath `path`.
pub open spec fn has_descendant(grants: Seq<GrantView>, user: Seq<char>, path: Seq<char>) -> bool {
    exists|i: int| 0 <= i < grants.len() && #[trigger] grant_beneath(grants[i], user, path)
}

/// The grant at `i` decides for `user` on `path`: it covers `path`, no
/// covering grant has a longer directory, and none with an equally long
/// directory stands after it.
pub open spec fn is_deciding(
    grants: Seq<GrantView>,
    user: Seq<char>,
    path: Seq<char>,
    i: int,
) -> bool {
    &&& 0 <= i < grants.len()
    &&& grant_covers(grants[i], user, path)
    &&& forall|j: int|
        0 <= j < grants.len() && #[trigger] grant_covers(grants[j], user, path) ==> {
            ||| grants[j].dir.len() < grants[i].dir.len()
            ||| (grants[j].dir.len() == grants[i].dir.len() && j <= i)
        }
}

/// The place of the grant that decides for `user` on `path`, where some
/// grant covers it.
pub open spec fn deciding(grants: Seq<GrantView>, user: Seq<char>, path: Seq<char>) -> int {
    choose|i: int| is_deciding(grants, user, path, i)
}

/// What `user` sees of the entry at `path` in a listing: `None` where the
/// entry is left out, else whether it is shown as writable.
///
/// An administrator sees every entry as writable. For the others, an entry
/// that a grant covers is shown with the write flag of the deciding grant;
/// one that no grant covers is shown as read-only where some grant lies
/// beneath it, and is left out where none does.
pub open spec fn visibility(
    grants: Seq<GrantView>,
    user: Seq<char>,
    admin: bool,
    path: Seq<char>,
) -> Option<bool> {
    if admin {
        Some(true)
    } else if has_covering(grants, user, path) {
        Some(grants[deciding(grants, user, path)].write)
    } else if has_descendant(grants, user, path) {
        Some(false)
    } else {
        None
    }
}

/// The listing of the directory `dir` for `user`: the entries of `children`
/// that the user sees, in their order, each with its write flag.
pub open spec fn listing_of(
    grants: Seq<GrantView>,
    user: Seq<char>,
    admin: bool,
    dir: Seq<char>,
    children: Seq<DirEntryView>,
) -> Seq<FileEntryView>
    decreases children.len(),
{
    if children.len() == 0 {
        Seq::empty()
    } else {
        let child = children.last();
        let before = listing_of(grants, user, admin, dir, children.drop_last());
        match visibility(grants, user, admin, joined(dir, child.name)) {
            Some(writable) => before.push(
                FileEntryView { name: child.name, is_dir: child.is_dir, writable },
            ),
            None => before,
        }
    }
}

/// At most one grant decides.
pub proof fn lemma_deciding_unique(
    grants: Seq<GrantView>,
    user: Seq<char>,
    path: Seq<char>,
    i: int,
    j: int,
)
    requires
        is_deciding(grants, user, path, i),
        is_deciding(grants, user, path, j),
    ensures
        i == j,
{
}

/// `found` is what decides for `user` on `path` among `grants`: the place of
/// the deciding grant, and nothing where no grant covers the path.
pub open spec fn decides(
    grants: Seq<GrantView>,
    user: Seq<char>,
    path: Seq<char>,
    found: Option<int>,
) -> bool {
    match found {
        Some(i) => is_deciding(grants, user, path, i),
        None => !has_covering(grants, user, path),
    }
}

/// What decides once the last of `grants` is looked at, `prior` being what
/// decides among the grants before it: the last grant where it covers the
/// path and its directory is no shorter than that of `prior`, else `prior`.
pub open spec fn with_last(
    grants: Seq<GrantView>,
    user: Seq<char>,
    path: Seq<char>,
    prior: Option<int>,
) -> Option<int> {
    if grant_covers(grants.last(), user, path) && (prior matches Some(b) ==> grants[b].dir.len()
        <= grants.last().dir.len()) {
        Some(grants.len() - 1)
    } else {
        prior
    }
}

/// What decides among `grants`, found by looking at one grant after the
/// other.
pub open spec fn decided(grants: Seq<GrantView>, user: Seq<char>, path: Seq<char>) -> Option<int>
    decreases grants.len(),
{
    if grants.len() == 0 {
        None
    } else {
        with_last(grants, user, path, decided(grants.drop_last(), user, path))
    }
}

/// When one grant is added at the end, the grant that decided stays, or the
/// new grant takes its place.
pub proof fn lemma_deciding_step(
    grants: Seq<GrantView>,
    user: Seq<char>,
    path: Seq<char>,
    prior: Option<int>,
)
    requires
        grants.len() > 0,
        decides(grants.drop_last(), user, path, prior),
    ensures
        decides(grants, user, path, with_last(grants, user, path, prior)),
{
    let init = grants.drop_last();
    let last = grants.len() - 1;
    assert forall|j: int| 0 <= j < last && grant_covers(grants[j], user, path) implies #[trigger] grant_covers(
        init[j],
        user,
        path,
    ) by {}
    match with_last(grants, user, path, prior) {
        Some(d) => {
            assert forall|j: int|
                0 <= j < grants.len() && #[trigger] grant_covers(
                    grants[j],
                    user,
                    path,
                ) implies grants[j].dir.len() < grants[d].dir.len() || (grants[j].dir.len()
                == grants[d].dir.len() && j <= d) by {
                if j < last {
                    assert(grant_covers(init[j], user, path));
                }
            }
        },
        None => {
            if has_covering(grants, user, path) {
                let w = choose|i: int|
                    0 <= i < grants.len() && #[trigger] grant_covers(grants[i], user, path);
                assert(grant_covers(init[w], user, path));
            }
        },
    }
}

/// Looking at one grant after the other finds what decides.
pub proof fn lemma_decided(grants: Seq<GrantView>, user: Seq<char>, path: Seq<char>)
    ensures
        decides(grants, user, path, decided(grants, user, path)),
    decreases grants.len(),
{
    if grants.len() > 0 {
        lemma_decided(grants.drop_last(), user, path);
        lemma_deciding_step(grants, user, path, decided(grants.drop_last(), user, path));
    }
}

/// Where some grant covers the path, one decides, and it is among the
/// covering grants with the longest directory.
pub proof fn lemma_deciding_exists(grants: Seq<GrantView>, user: Seq<char>, path: Seq<char>)
    requires
        has_covering(grants, user, path),
    ensures
        is_deciding(grants, user, path, deciding(grants, user, path)),
{
    lemma_decided(grants, user, path);
    assert(is_deciding(grants, user, path, decided(grants, user, path)->0));
}

/// The entry `shown` is the child `child` of `dir` as the caller sees it.
pub open spec fn shows(
    grants: Seq<GrantView>,
    user: Seq<char>,
    admin: bool,
    dir: Seq<char>,
    child: DirEntryView,
    shown: FileEntryView,
) -> bool {
    &&& visibility(grants, user, admin, joined(dir, child.name)) == Some(shown.writable)
    &&& shown.name == child.name
    &&& shown.is_dir == child.is_dir
}

/// A listing is pruned to exactly what the caller sees: every entry of it
/// is a child that the caller sees, with the flag that the caller sees it
/// with, and every child that the caller sees is an entry of it.
pub proof fn lemma_listing_is_pruned(
    grants: Seq<GrantView>,
    user: Seq<char>,
    admin: bool,
    dir: Seq<char>,
    children: Seq<DirEntryView>,
)
    ensures
        listing_of(grants, user, admin, dir, children).len() <= children.len(),
        forall|j: int|
            0 <= j < listing_of(grants, user, admin, dir, children).len() ==> exists|k: int|
                0 <= k < children.len() && shows(
                    grants,
                    user,
                    admin,
                    dir,
                    children[k],
                    #[trigger] listing_of(grants, user, admin, dir, children)[j],
                ),
        forall|k: int|
            0 <= k < children.len() && visibility(
                grants,
                user,
                admin,
                joined(dir, (#[trigger] children[k]).name),
            ) is Some ==> exists|j: int|
                0 <= j < listing_of(grants, user, admin, dir, children).len() && shows(
                    grants,
                    user,
                    admin,
                    dir,
                    children[k],
                    listing_of(grants, user, admin, dir, children)[j],
                ),
    decreases children.len(),
{
    if children.len() > 0 {
        let init = children.drop_last();
        let last = children.last();
        let before = listing_of(grants, user, admin, dir, init);
        let listing = listing_of(grants, user, admin, dir, children);
        let seen = visibility(grants, user, admin, joined(dir, last.name));
        lemma_listing_is_pruned(grants, user, admin, dir, init);
        assert forall|j: int| 0 <= j < listing.len() implies exists|k: int|
            0 <= k < children.len() && shows(
                grants,
                user,
                admin,
                dir,
                children[k],
                #[trigger] listing[j],
            ) by {
            if j < before.len() {
                assert(listing[j] == before[j]);
                let k = choose|k: int|
                    0 <= k < init.len() && shows(grants, user, admin, dir, init[k], before[j]);
                assert(children[k] == init[k]);
            } else {
                assert(shows(grants, user, admin, dir, children[children.len() - 1], listing[j]));
            }
        }
        assert forall|k: int|
            0 <= k < children.len() && visibility(
                grants,
                user,
                admin,
                joined(dir, (#[trigger] children[k]).name),
            ) is Some implies exists|j: int|
            0 <= j < listing.len() && shows(grants, user, admin, dir, children[k], listing[j]) by {
            if k < init.len() {
                assert(children[k] == init[k]);
                let j = choose|j: int|
                    0 <= j < before.len() && shows(grants, user, admin, dir, init[k], before[j]);
                assert(listing[j] == before[j]);
            } else {
                assert(shows(grants, user, admin, dir, children[k], listing[listing.len() - 1]));
            }
        }
    }
}

/// Under a directory that a grant of the caller covers, the caller sees
/// every entry.
pub proof fn lemma_covered_directory_is_listed_in_full(
    grants: Seq<GrantView>,
    user: Seq<char>,
    admin: bool,
    dir: Seq<char>,
    name: Seq<char>,
)
    requires
        dir.len() > 0,
        has_covering(grants, user, dir),
    ensures
        visibility(grants, user, admin, joined(dir, name)) is Some,
{
    let i = choose|i: int| 0 <= i < grants.len() && #[trigger] grant_covers(grants[i], user, dir);
    lemma_dir_covers_entry(dir, name);
    lemma_covers_transitive(grants[i].dir, dir, joined(dir, name));
    assert(grant_covers(grants[i], user, joined(dir, name)));
}

/// What is shown as writable to a caller, the caller may write.
pub proof fn lemma_writable_entry_may_be_written(
    grants: Seq<GrantView>,
    user: Seq<char>,
    path: Seq<char>,
)
    requires
        visibility(grants, user, false, path) == Some(true),
    ensures
        permitted(grants, user, path, true),
{
    lemma_deciding_exists(grants, user, path);
    let d = deciding(grants, user, path);
    assert(grant_covers(grants[d], user, path) && grants[d].write);
}

/// Whether `grant` belongs to `user` and covers `path`.
pub fn grant_applies(grant: &AccessGrant, user: &str, path: &str) -> (r: bool)
    ensures
        r == grant_covers(grant@, user@, path@),
{
    same_text(grant.user.as_str(), user) && covers_path(grant.dir.as_str(), path)
}

/// The place in a list as a number of the model.
pub open spec fn place(found: Option<usize>) -> Option<int> {
    match found {
        Some(i) => Some(i as int),
        None => None,
    }
}

/// The place of the grant that decides for `user` on `path`, if any grant
/// of the user covers the path.
pub fn deciding_grant(grants: &Vec<AccessGrant>, user: &str, path: &str) -> (r: Option<usize>)
    ensures
        match r {
            Some(i) => is_deciding(grants.deep_view(), user@, path@, i as int) && i == deciding(
                grants.deep_view(),
                user@,
                path@,
            ),
            None => !has_covering(grants.deep_view(), user@, path@),
        },
{
    let ghost views = grants.deep_view();
    let mut best: Option<usize> = None;
    let mut i: usize = 0;
    while i < grants.len()
        invariant
            i <= grants.len(),
            views == grants.deep_view(),
            decides(views.take(i as int), user@, path@, place(best)),
        decreases grants.len() - i,
    {
        let ghost after = views.take(i + 1);
        let applies = grant_applies(&grants[i], user, path);
        let takes_over = applies && match best {
            Some(b) => grants[b].dir.as_str().unicode_len() <= grants[i].dir.as_str().unicode_len(),
            None => true,
        };
        proof {
            assert(after.drop_last() =~= views.take(i as int));
            assert(after.last() == grants[i as int]@);
            if best is Some {
                assert(after[best->0 as int] == grants[best->0 as int]@);
            }
            lemma_deciding_step(after, user@, path@, place(best));
        }
        if takes_over {
            best = Some(i);
        }
        i += 1;
    }
    proof {
        assert(views.take(grants.len() as int) =~= views);
        match best {
            Some(b) => {
                lemma_deciding_unique(views, user@, path@, b as int, deciding(views, user@, path@));
            },
            None => {},
        }
    }
    best
}

/// Whether the caller may read, or with `require_write` write, at `path`.
///
/// Trailing separators of `path` are ignored. An administrator always may.
/// Another caller may where one of the caller's own grants covers the path
/// and, for writing, carries the write flag.
pub fn resolve_permission(
    ctx: &RequestContext,
    grants: &Vec<AccessGrant>,
    path: &str,
    require_write: bool,
) -> (allowed: bool)
    ensures
        allowed == (mask_is_admin(ctx@.mask) || permitted(
            grants.deep_view(),
            ctx@.user,
            normalized(path@),
            require_write,
        )),
{
    if ctx.is_admin() {
        return true;
    }
    let target = normalize(path);
    let ghost views = grants.deep_view();
    let mut i: usize = 0;
    while i < grants.len()
        invariant
            i <= grants.len(),
            views == grants.deep_view(),
            target@ == normalized(path@),
            forall|j: int|
                0 <= j < i ==> !(#[trigger] grant_covers(views[j], ctx@.user, target@) && (
                require_write ==> views[j].write)),
        decreases grants.len() - i,
    {
        assert(views[i as int] == grants[i as int]@);
        if grant_applies(&grants[i], ctx.user_id.as_str(), target) && (!require_write
            || grants[i].write) {
            return true;
        }
        i += 1;
    }
    false
}

/// Whether the directory of some grant of `user` lies beneath `path`, given
/// that no grant of the user covers `path`.
fn some_grant_beneath(grants: &Vec<AccessGrant>, user: &str, path: &str) -> (r: bool)
    requires
        !has_covering(grants.deep_view(), user@, path@),
    ensures
        r == has_descendant(grants.deep_view(), user@, path@),
{
    let ghost views = grants.deep_view();
    let mut i: usize = 0;
    while i < grants.len()
        invariant
            i <= grants.len(),
            views == grants.deep_view(),
            !has_covering(views, user@, path@),
            forall|j: int| 0 <= j < i ==> !#[trigger] grant_beneath(views[j], user@, path@),
        decreases grants.len() - i,
    {
        assert(views[i as int] == grants[i as int]@);
        if same_text(grants[i].user.as_str(), user) && covers_path(path, grants[i].dir.as_str()) {
            proof {
                if views[i as int].dir == path@ {
                    assert(grant_covers(views[i as int], user@, path@));
                }
                assert(grant_beneath(views[i as int], user@, path@));
            }
            return true;
        }
        i += 1;
    }
    false
}

/// What the caller sees of the entry at `path`: `None` where it is left out
/// of the listing, else its write flag.
pub fn entry_visibility(ctx: &RequestContext, grants: &Vec<AccessGrant>, path: &str) -> (r:
    Option<bool>)
    ensures
        r == visibility(grants.deep_view(), ctx@.user, mask_is_admin(ctx@.mask), path@),
{
    if ctx.is_admin() {
        return Some(true);
    }
    match deciding_grant(grants, ctx.user_id.as_str(), path) {
        Some(i) => {
            assert(grants.deep_view()[i as int] == grants[i as int]@);
            Some(grants[i].write)
        },
        None => {
            if some_grant_beneath(grants, ctx.user_id.as_str(), path) {
                Some(false)
            } else {
                None
            }
        },
    }
}

/// The listing of the directory `dir` as the caller sees it.
///
/// Each entry of `children` that the caller may see is kept, in the order of
/// `children`, with its write flag; the others are left out.
pub fn resolve_listing_visibility(
    ctx: &RequestContext,
    grants: &Vec<AccessGrant>,
    dir: &str,
    children: &Vec<DirEntry>,
) -> (listing: Vec<FileEntry>)
    ensures
        listing.deep_view() == listing_of(
            grants.deep_view(),
            ctx@.user,
            mask_is_admin(ctx@.mask),
            dir@,
            children.deep_view(),
        ),
{
    let ghost all = children.deep_view();
    let mut listing: Vec<FileEntry> = Vec::new();
    let mut i: usize = 0;
    assert(all.take(0) =~= Seq::<DirEntryView>::empty());
    while i < children.len()
        invariant
            i <= children.len(),
            all == children.deep_view(),
            listing.deep_view() == listing_of(
                grants.deep_view(),
                ctx@.user,
                mask_is_admin(ctx@.mask),
                dir@,
                all.take(i as int),
            ),
        decreases children.len() - i,
    {
        let child = &children[i];
        let path = child_path(dir, child.name.as_str());
        let seen = entry_visibility(ctx, grants, path.as_str());
        proof {
            assert(all.take(i + 1).drop_last() =~= all.take(i as int));
            assert(all.take(i + 1).last() == child@);
        }
        let ghost before = listing.deep_view();
        match seen {
            Some(writable) => {
                let entry = FileEntry { name: child.name.clone(), is_dir: child.is_dir, writable };
                listing.push(entry);
                assert(listing.deep_view() =~= before.push(
                    FileEntryView { name: child@.name, is_dir: child@.is_dir, writable },
                ));
            },
            None => {},
        }
        i += 1;
    }
    assert(all.take(children.len() as int) =~= all);
    listing
}

} // verus!
