//! Direct links: tokens that open one stored path to whoever holds them.
//!
//! A link is made when it is first asked for and is kept from then on: a
//! path, taken letter for letter, has at most one. Resolving a token asks for
//! no identity and consults no grant.

use vstd::prelude::*;
use crate::archive::{archive_of, pack_archive};
use crate::blob::{decode_object, gzip_decoded};
use crate::error::{Missing, StoreError};
use crate::path::{file_name, last_segment, same_text, slash_join, slash_joined};
use crate::store::{lemma_children_view, NodeView, StoredNode};
use crate::token::{decimal, parse_token, token_text, token_value};

verus! {

/// The record of a direct link: the token in its decimal form, and the path
/// that it opens.
#[derive(Clone, Debug, PartialEq, Eq)]
pub struct DirectLink {
    pub token: String,
    pub path: String,
}

/// The model of a `DirectLink`.
pub struct LinkView {
    pub token: Seq<char>,
    pub path: Seq<char>,
}

impl View for DirectLink {
    type V = LinkView;

    open spec fn view(&self) -> LinkView {
        LinkView { token: self.token@, path: self.path@ }
    }
}

impl DeepView for DirectLink {
    type V = LinkView;

    open spec fn deep_view(&self) -> LinkView {
        self@
    }
}

/// The direct links that are known, oldest first.
#[derive(Clone, Debug, PartialEq, Eq)]
pub struct LinkRegistry {
    pub links: Vec<DirectLink>,
}

impl View for LinkRegistry {
    type V = Seq<LinkView>;

    open spec fn view(&self) -> Seq<LinkView> {
        self.links.deep_view()
    }
}

/// What a direct link hands out: the content and the name under which it is
/// offered for download.
#[derive(Debug, PartialEq, Eq)]
pub struct Download {
    pub bytes: Vec<u8>,
    pub filename: String,
}

/// Some link opens `path`.
pub open spec fn holds_path(links: Seq<LinkView>, path: Seq<char>) -> bool {
    exists|i: int| 0 <= i < links.len() && (#[trigger] links[i]).path == path
}

/// The link at `i` is the first that opens `path`.
pub open spec fn is_first_with_path(links: Seq<LinkView>, path: Seq<char>, i: int) -> bool {
    &&& 0 <= i < links.len()
    &&& links[i].path == path
    &&& forall|j: int| 0 <= j < i ==> (#[trigger] links[j]).path != path
}

/// The place of the first link that opens `path`, where there is one.
pub open spec fn first_with_path(links: Seq<LinkView>, path: Seq<char>) -> int {
    choose|i: int| is_first_with_path(links, path, i)
}

/// Some link has the token `token`.
pub open spec fn holds_token(links: Seq<LinkView>, token: Seq<char>) -> bool {
    exists|i: int| 0 <= i < links.len() && (#[trigger] links[i]).token == token
}

/// The link at `i` is the first with the token `token`.
pub open spec fn is_first_with_token(links: Seq<LinkView>, token: Seq<char>, i: int) -> bool {
    &&& 0 <= i < links.len()
    &&& links[i].token == token
    &&& forall|j: int| 0 <= j < i ==> (#[trigger] links[j]).token != token
}

/// The place of the first link with the token `token`, where there is one.
pub open spec fn first_with_token(links: Seq<LinkView>, token: Seq<char>) -> int {
    choose|i: int| is_first_with_token(links, token, i)
}

/// No two links open the same path.
pub open spec fn distinct_paths(links: Seq<LinkView>) -> bool {
    forall|i: int, j: int|
        0 <= i < links.len() && 0 <= j < links.len() && i != j ==> (#[trigger] links[i]).path != (
        #[trigger] links[j]).path
}

/// The link for `path` once it has been asked for: the first that opens
/// `path`, or, where there is none, a new one with the token `fresh`.
pub open spec fn link_for(links: Seq<LinkView>, path: Seq<char>, fresh: u128) -> LinkView {
    if holds_path(links, path) {
        links[first_with_path(links, path)]
    } else {
        LinkView { token: decimal(fresh as nat), path }
    }
}

/// The links once a link for `path` has been asked for: as they were where
/// one opens `path`, else with the new link at their end.
pub open spec fn links_after(links: Seq<LinkView>, path: Seq<char>, fresh: u128) -> Seq<LinkView> {
    if holds_path(links, path) {
        links
    } else {
        links.push(LinkView { token: decimal(fresh as nat), path })
    }
}

/// The address under which the link with the token `token` is shared.
pub open spec fn url_of(base: Seq<char>, token: Seq<char>) -> Seq<char> {
    slash_joined(base, token)
}

/// The path that `token` opens. A token that no link has is not found, and
/// so is text that denotes no token, since no link can have it.
pub open spec fn resolved(links: Seq<LinkView>, token: Seq<char>) -> Result<Seq<char>, StoreError> {
    match token_value(token) {
        None => Err(StoreError::NotFound(Missing::Token)),
        Some(n) => if holds_token(links, decimal(n as nat)) {
            Ok(links[first_with_token(links, decimal(n as nat))].path)
        } else {
            Err(StoreError::NotFound(Missing::Token))
        },
    }
}

/// The name under which the node at `path` is offered for download: the
/// last segment of `path`, with `.zip` behind it for a directory.
pub open spec fn download_name(path: Seq<char>, is_dir: bool) -> Seq<char> {
    let name = last_segment(path);
    if is_dir {
        name + ".zip"@
    } else {
        name
    }
}

/// Where some link opens `path`, one of them is the first.
pub proof fn lemma_first_with_path(links: Seq<LinkView>, path: Seq<char>)
    requires
        holds_path(links, path),
    ensures
        is_first_with_path(links, path, first_with_path(links, path)),
    decreases links.len(),
{
    let w = choose|i: int| 0 <= i < links.len() && (#[trigger] links[i]).path == path;
    let init = links.drop_last();
    if w < links.len() - 1 {
        assert(init[w].path == path);
        lemma_first_with_path(init, path);
        let f = first_with_path(init, path);
        assert(is_first_with_path(links, path, f)) by {
            assert(links[f] == init[f]);
            assert forall|j: int| 0 <= j < f implies (#[trigger] links[j]).path != path by {
                assert(links[j] == init[j]);
            }
        }
    } else if holds_path(init, path) {
        lemma_first_with_path(init, path);
        let f = first_with_path(init, path);
        assert(is_first_with_path(links, path, f)) by {
            assert(links[f] == init[f]);
            assert forall|j: int| 0 <= j < f implies (#[trigger] links[j]).path != path by {
                assert(links[j] == init[j]);
            }
        }
    } else {
        assert(is_first_with_path(links, path, w)) by {
            assert forall|j: int| 0 <= j < w implies (#[trigger] links[j]).path != path by {
                assert(links[j] == init[j]);
            }
        }
    }
}

/// Asking twice for the link of one path, spelled the same way, gives the
/// same link both times, and the second time changes nothing.
pub proof fn lemma_get_or_create_idempotent(
    links: Seq<LinkView>,
    path: Seq<char>,
    first: u128,
    second: u128,
)
    ensures
        link_for(links_after(links, path, first), path, second) == link_for(links, path, first),
        links_after(links_after(links, path, first), path, second) == links_after(
            links,
            path,
            first,
        ),
{
    let once = links_after(links, path, first);
    if !holds_path(links, path) {
        let n = links.len() as int;
        assert(once[n].path == path);
        assert(holds_path(once, path));
        lemma_first_with_path(once, path);
        let f = first_with_path(once, path);
        if f < n {
            assert(once[f] == links[f]);
            assert(links[f].path == path);
        }
    }
}

/// Asking for a link keeps the paths of the links distinct.
pub proof fn lemma_links_stay_distinct(links: Seq<LinkView>, path: Seq<char>, fresh: u128)
    requires
        distinct_paths(links),
    ensures
        distinct_paths(links_after(links, path, fresh)),
{
    let after = links_after(links, path, fresh);
    if !holds_path(links, path) {
        assert forall|i: int, j: int|
            0 <= i < after.len() && 0 <= j < after.len() && i != j implies (#[trigger] after[i]).path
            != (#[trigger] after[j]).path by {
            if i < links.len() {
                assert(after[i] == links[i]);
            }
            if j < links.len() {
                assert(after[j] == links[j]);
            }
        }
    }
}

/// Calls `rand::random::<u128>`. Nothing is promised of the number that
/// comes back.
#[verifier::external_body]
fn random_token() -> u128 {
    rand::random::<u128>()
}

/// The address under which the link with the token `token` is shared: the
/// base address, a slash, the token.
pub fn link_url(base: &str, token: &str) -> (url: String)
    ensures
        url@ == url_of(base@, token@),
{
    slash_join(base, token)
}

impl LinkRegistry {
    /// A registry without links.
    pub fn new() -> (registry: LinkRegistry)
        ensures
            registry@ == Seq::<LinkView>::empty(),
            distinct_paths(registry@),
    {
        let registry = LinkRegistry { links: Vec::new() };
        assert(registry@ =~= Seq::<LinkView>::empty());
        registry
    }

    /// The place of the first link that opens `path`, spelled exactly so.
    pub fn find_by_path(&self, path: &str) -> (r: Option<usize>)
        ensures
            match r {
                Some(i) => is_first_with_path(self@, path@, i as int) && i == first_with_path(
                    self@,
                    path@,
                ),
                None => !holds_path(self@, path@),
            },
    {
        let mut i: usize = 0;
        while i < self.links.len()
            invariant
                i <= self.links.len(),
                forall|j: int| 0 <= j < i ==> (#[trigger] self@[j]).path != path@,
            decreases self.links.len() - i,
        {
            assert(self@[i as int] == self.links[i as int]@);
            if same_text(self.links[i].path.as_str(), path) {
                proof {
                    assert(holds_path(self@, path@));
                    lemma_first_with_path(self@, path@);
                }
                return Some(i);
            }
            i += 1;
        }
        None
    }

    /// The place of the first link whose token is `token`.
    pub fn find_by_token(&self, token: &str) -> (r: Option<usize>)
        ensures
            match r {
                Some(i) => is_first_with_token(self@, token@, i as int) && i == first_with_token(
                    self@,
                    token@,
                ),
                None => !holds_token(self@, token@),
            },
    {
        let mut i: usize = 0;
        while i < self.links.len()
            invariant
                i <= self.links.len(),
                forall|j: int| 0 <= j < i ==> (#[trigger] self@[j]).token != token@,
            decreases self.links.len() - i,
        {
            assert(self@[i as int] == self.links[i as int]@);
            if same_text(self.links[i].token.as_str(), token) {
                proof {
                    let f = first_with_token(self@, token@);
                    assert(is_first_with_token(self@, token@, i as int));
                    assert(is_first_with_token(self@, token@, f));
                }
                return Some(i);
            }
            i += 1;
        }
        None
    }

    /// The address of the link for `path`, which is made with the token
    /// `fresh` where no link opens `path` yet.
    ///
    /// The path is taken letter for letter: two spellings of one place are
    /// two paths.
    pub fn get_or_create_with(&mut self, base_url: &str, path: &str, fresh: u128) -> (url: String)
        ensures
            final(self)@ == links_after(old(self)@, path@, fresh),
            url@ == url_of(base_url@, link_for(old(self)@, path@, fresh).token),
    {
        match self.find_by_path(path) {
            Some(i) => {
                assert(self@[i as int] == self.links[i as int]@);
                link_url(base_url, self.links[i].token.as_str())
            },
            None => {
                let ghost before = self@;
                let token = token_text(fresh);
                let url = link_url(base_url, token.as_str());
                self.links.push(DirectLink { token, path: path.to_owned() });
                assert(self@ =~= before.push(LinkView { token: decimal(fresh as nat), path: path@ }));
                url
            },
        }
    }

    /// The address of the link for `path`. Where no link opens `path` yet,
    /// one is made with a random token and added at the end.
    pub fn get_or_create(&mut self, base_url: &str, path: &str) -> (url: String)
        ensures
            exists|fresh: u128|
                final(self)@ == #[trigger] links_after(old(self)@, path@, fresh) && url@ == url_of(
                    base_url@,
                    link_for(old(self)@, path@, fresh).token,
                ),
    {
        let fresh = random_token();
        self.get_or_create_with(base_url, path, fresh)
    }

    /// The path that the text `token` opens.
    ///
    /// The token is read as a number and looked up in its decimal form, so a
    /// plus sign or zeros at its head make no difference. The one failure is
    /// that the token is not found: no link has it, or the text denotes no
    /// token at all.
    pub fn resolve(&self, token: &str) -> (r: Result<String, StoreError>)
        ensures
            match r {
                Ok(path) => resolved(self@, token@) == Ok::<Seq<char>, StoreError>(path@),
                Err(e) => resolved(self@, token@) == Err::<Seq<char>, StoreError>(e),
            },
    {
        match parse_token(token) {
            None => Err(StoreError::NotFound(Missing::Token)),
            Some(n) => {
                let canonical = token_text(n);
                match self.find_by_token(canonical.as_str()) {
                    Some(i) => {
                        assert(self@[i as int] == self.links[i as int]@);
                        Ok(self.links[i].path.clone())
                    },
                    None => Err(StoreError::NotFound(Missing::Token)),
                }
            },
        }
    }
}

/// The bytes that the link to a node hands out: the content of a file, the
/// archive of all that a directory holds. Nothing where a stored file
/// cannot be read or the writer does not accept the entries.
pub open spec fn download_bytes(node: NodeView) -> Option<Seq<u8>> {
    match node {
        NodeView::File { name, blob } => gzip_decoded(blob),
        NodeView::Directory { name, children } => archive_of(children),
    }
}

/// What the link to `path` hands out, `node` being what the store holds at
/// `path`, if it holds anything there.
pub open spec fn download_of(path: Seq<char>, node: Option<NodeView>) -> Result<
    (Seq<u8>, Seq<char>),
    StoreError,
> {
    match node {
        None => Err(StoreError::NotFound(Missing::Path)),
        Some(found) => match download_bytes(found) {
            Some(bytes) => Ok((bytes, download_name(path, found is Directory))),
            None => Err(StoreError::IoFailure),
        },
    }
}

/// What the link to `path` hands out, `node` being what the store holds at
/// `path`, if it holds anything there.
///
/// A file is handed out with its content, under its own name. A directory
/// is handed out as the archive of all that it holds, under its name with
/// `.zip` behind it. A path at which the store holds nothing is not found;
/// what cannot be read or packed is an `IoFailure`. No grant is consulted.
pub fn link_download(path: &str, node: Option<&StoredNode>) -> (r: Result<Download, StoreError>)
    ensures
        match r {
            Ok(download) => download_of(path@, node.deep_view()) == Ok::<
                (Seq<u8>, Seq<char>),
                StoreError,
            >((download.bytes@, download.filename@)),
            Err(e) => download_of(path@, node.deep_view()) == Err::<
                (Seq<u8>, Seq<char>),
                StoreError,
            >(e),
        },
{
    let name = file_name(path);
    match node {
        None => Err(StoreError::NotFound(Missing::Path)),
        Some(StoredNode::File { name: _, blob }) => {
            match decode_object(blob.as_slice()) {
                Ok(bytes) => Ok(Download { bytes, filename: name.to_owned() }),
                Err(e) => Err(e),
            }
        },
        Some(StoredNode::Directory { name: _, children }) => {
            proof {
                lemma_children_view(*node.unwrap());
            }
            match pack_archive(children) {
                Ok(bytes) => Ok(Download { bytes, filename: String::from_str(name).concat(".zip") }),
                Err(e) => Err(e),
            }
        },
    }
}

} // verus!
