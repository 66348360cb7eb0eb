//! Node values, edge labels, and the error surface of the tag graph.

use vstd::prelude::*;

verus! {

/// What a graph node stands for, as specifications see it: paths and tag
/// names are sequences of characters.
pub enum NodeView {
    File(Seq<char>),
    Directory(Seq<char>),
    RootDirectory,
    RootTag,
    Tag(Seq<char>),
}

/// A node of the tag graph. Node identity is pure value equality: two
/// `File` nodes with equal canonical paths, or two `Tag` nodes with equal
/// strings, are the same logical node. Path-bearing nodes must therefore
/// carry absolute, symlink-resolved paths before they are registered.
#[derive(Debug, Clone, Hash, Eq)]
pub enum TagGraphNode {
    /// A file, by its canonical path.
    File { path: String },
    /// A directory, by its canonical path.
    Directory { path: String },
    /// Singleton anchor for the walked filesystem tree.
    RootDirectory,
    /// Singleton anchor owning every known tag.
    RootTag,
    /// A tag, by its exact string value.
    Tag(String),
}

impl View for TagGraphNode {
    type V = NodeView;

    open spec fn view(&self) -> NodeView {
        match self {
            TagGraphNode::File { path } => NodeView::File(path@),
            TagGraphNode::Directory { path } => NodeView::Directory(path@),
            TagGraphNode::RootDirectory => NodeView::RootDirectory,
            TagGraphNode::RootTag => NodeView::RootTag,
            TagGraphNode::Tag(name) => NodeView::Tag(name@),
        }
    }
}

impl PartialEq for TagGraphNode {
    fn eq(&self, other: &Self) -> (r: bool) {
        match (self, other) {
            (TagGraphNode::File { path: a }, TagGraphNode::File { path: b }) => a.eq(b),
            (TagGraphNode::Directory { path: a }, TagGraphNode::Directory { path: b }) => a.eq(b),
            (TagGraphNode::RootDirectory, TagGraphNode::RootDirectory) => true,
            (TagGraphNode::RootTag, TagGraphNode::RootTag) => true,
            (TagGraphNode::Tag(a), TagGraphNode::Tag(b)) => a.eq(b),
            _ => false,
        }
    }
}

impl vstd::std_specs::cmp::PartialEqSpecImpl for TagGraphNode {
    open spec fn obeys_eq_spec() -> bool {
        true
    }

    open spec fn eq_spec(&self, other: &Self) -> bool {
        self@ == other@
    }
}

/// Copies a node value; the copy denotes the same logical node.
pub fn clone_node(n: &TagGraphNode) -> (r: TagGraphNode)
    ensures
        r@ == n@,
{
    match n {
        TagGraphNode::File { path } => TagGraphNode::File { path: path.clone() },
        TagGraphNode::Directory { path } => TagGraphNode::Directory { path: path.clone() },
        TagGraphNode::RootDirectory => TagGraphNode::RootDirectory,
        TagGraphNode::RootTag => TagGraphNode::RootTag,
        TagGraphNode::Tag(name) => TagGraphNode::Tag(name.clone()),
    }
}

/// The label of a directed edge. Several edges with distinct labels may
/// connect the same ordered pair of nodes; the graph never coalesces them.
#[derive(Debug, Hash, Clone, Copy, PartialEq, Eq, Structural)]
pub enum Relation {
    /// Directory or file A's parent is B.
    Parent,
    /// Directory B contains A.
    Child,
    /// Directory or file A has tag B.
    HasTag,
    /// Tag A has been assigned to B.
    TagAssignedTo,
}

/// What can go wrong while a caller gathers the inputs of a build: path
/// canonicalization and tag-file reads abort the whole build with `IO`.
#[derive(Debug)]
pub enum Error {
    OhNo(String),
    ErrMsg(&'static str),
    IO(String),
}

} // verus!
