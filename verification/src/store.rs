//! The object store as plain values: where a path lies under the storage
//! root, and a snapshot of a stored file or directory tree.

use vstd::prelude::*;
use crate::path::{joined, slash_join, slash_joined};

verus! {

/// A stored file or directory as read from the store: a file with its
/// stored blob, a directory with what it holds. `name` is a single segment,
/// except at the top of a snapshot, where it is the path by which the node
/// was asked for.
#[derive(Debug, PartialEq, Eq)]
pub enum StoredNode {
    File { name: String, blob: Vec<u8> },
    Directory { name: String, children: Vec<StoredNode> },
}

/// The model of a `StoredNode`.
pub enum NodeView {
    File { name: Seq<char>, blob: Seq<u8> },
    Directory { name: Seq<char>, children: Seq<NodeView> },
}

impl View for StoredNode {
    type V = NodeView;

    open spec fn view(&self) -> NodeView
        decreases self,
    {
        match self {
            StoredNode::File { name, blob } => NodeView::File { name: name@, blob: blob@ },
            StoredNode::Directory { name, children } => NodeView::Directory {
                name: name@,
                children: Seq::new(
                    children@.len(),
                    |i: int|
                        if 0 <= i < children@.len() {
                            children@[i].view()
                        } else {
                            NodeView::File { name: Seq::empty(), blob: Seq::empty() }
                        },
                ),
            },
        }
    }
}

impl DeepView for StoredNode {
    type V = NodeView;

    open spec fn deep_view(&self) -> NodeView {
        self@
    }
}

impl NodeView {
    /// The name of the node.
    pub open spec fn name(self) -> Seq<char> {
        match self {
            NodeView::File { name, .. } => name,
            NodeView::Directory { name, .. } => name,
        }
    }
}

impl StoredNode {
    /// The name of the node.
    pub fn name(&self) -> (r: &str)
        ensures
            r@ == self@.name(),
    {
        match self {
            StoredNode::File { name, .. } => name.as_str(),
            StoredNode::Directory { name, .. } => name.as_str(),
        }
    }

    /// Whether the node is a directory.
    pub fn is_dir(&self) -> (r: bool)
        ensures
            r == (self@ is Directory),
    {
        match self {
            StoredNode::File { .. } => false,
            StoredNode::Directory { .. } => true,
        }
    }
}

/// The model of the nodes that a directory holds is the model of each, in
/// their order.
pub proof fn lemma_children_view(node: StoredNode)
    requires
        node is Directory,
    ensures
        node@ is Directory,
        node@->Directory_children == node->Directory_children.deep_view(),
{
    assert(node@->Directory_children =~= node->Directory_children.deep_view());
}

/// Two paths lie at the same place under the root only where they are the
/// same path.
pub proof fn lemma_location_one_to_one(root: Seq<char>, a: Seq<char>, b: Seq<char>)
    requires
        slash_joined(root, a) == slash_joined(root, b),
    ensures
        a == b,
{
    let la = slash_joined(root, a);
    let lb = slash_joined(root, b);
    assert(a =~= la.subrange(root.len() as int + 1, la.len() as int));
    assert(b =~= lb.subrange(root.len() as int + 1, lb.len() as int));
}

/// The directories of the file system mirror the namespace: an entry of a
/// directory other than the root lies in the directory's own place, under
/// its name.
pub proof fn lemma_location_mirrors(root: Seq<char>, dir: Seq<char>, name: Seq<char>)
    requires
        dir.len() > 0,
    ensures
        slash_joined(root, joined(dir, name)) == slash_joined(slash_joined(root, dir), name),
{
    assert(slash_joined(root, joined(dir, name)) =~= slash_joined(slash_joined(root, dir), name));
}

/// Where the object at `path` lies in the file system: the storage root, a
/// separator, then the path, segment for segment.
pub fn storage_location(root: &str, path: &str) -> (r: String)
    ensures
        r@ == slash_joined(root@, path@),
{
    slash_join(root, path)
}

} // verus!
