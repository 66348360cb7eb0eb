//! The filesystem walker: which nodes and edges the structural pass
//! contributes for the entries a walk of the tree visited.
//!
//! Every entry whose name carries the tag-file extension is skipped.
//! The walked root itself (the entry at depth zero) is wired to the
//! `RootDirectory` anchor; every other entry is wired to its immediate
//! canonical parent directory; each wiring is one `Child` edge downward
//! and one `Parent` edge upward.

use vstd::prelude::*;

use crate::graph::HashSetGraph;
use crate::names::is_tag_path;
use crate::names::parent_of;
use crate::names::path_is_tag_file;
use crate::names::path_parent;
use crate::node::NodeView;
use crate::node::Relation;
use crate::node::TagGraphNode;

verus! {

/// One entry a walk of the tree visited: its canonical path, whether
/// it is a directory, and how deep under the walked root it sits
/// (depth zero is the root entry itself).
pub struct WalkEntry {
    pub path: String,
    pub is_dir: bool,
    pub depth: usize,
}

/// The specification-level image of a `WalkEntry`.
pub struct WalkEntryView {
    pub path: Seq<char>,
    pub is_dir: bool,
    pub depth: nat,
}

impl View for WalkEntry {
    type V = WalkEntryView;

    open spec fn view(&self) -> WalkEntryView {
        WalkEntryView { path: self.path@, is_dir: self.is_dir, depth: self.depth as nat }
    }
}

/// The node standing for a walked entry.
pub open spec fn entry_node(e: WalkEntryView) -> NodeView {
    if e.is_dir {
        NodeView::Directory(e.path)
    } else {
        NodeView::File(e.path)
    }
}

/// The node a walked entry hangs under: `RootDirectory` for the root
/// entry, the immediate canonical parent directory for every other.
pub open spec fn entry_parent(e: WalkEntryView) -> NodeView {
    if e.depth == 0 {
        NodeView::RootDirectory
    } else {
        NodeView::Directory(parent_of(e.path))
    }
}

/// The nodes one walked entry contributes; none when the entry names a
/// tag file.
pub open spec fn entry_nodes(e: WalkEntryView) -> Set<NodeView> {
    if is_tag_path(e.path) {
        Set::empty()
    } else {
        set![entry_node(e), entry_parent(e)]
    }
}

/// The edges one walked entry contributes; none when the entry names a
/// tag file.
pub open spec fn entry_edges(e: WalkEntryView) -> Set<(NodeView, NodeView, Relation)> {
    if is_tag_path(e.path) {
        Set::empty()
    } else {
        set![
            (entry_parent(e), entry_node(e), Relation::Child),
            (entry_node(e), entry_parent(e), Relation::Parent),
        ]
    }
}

/// Every node the walk pass contributes, `RootDirectory` included.
pub open spec fn walk_nodes(es: Seq<WalkEntryView>) -> Set<NodeView>
    decreases es.len(),
{
    if es.len() == 0 {
        set![NodeView::RootDirectory]
    } else {
        walk_nodes(es.drop_last()).union(entry_nodes(es.last()))
    }
}

/// Every edge the walk pass contributes.
pub open spec fn walk_edges(es: Seq<WalkEntryView>) -> Set<(NodeView, NodeView, Relation)>
    decreases es.len(),
{
    if es.len() == 0 {
        Set::empty()
    } else {
        walk_edges(es.drop_last()).union(entry_edges(es.last()))
    }
}

/// The specification-level image of a list of walked entries.
pub open spec fn walk_views(es: Seq<WalkEntry>) -> Seq<WalkEntryView> {
    es.map_values(|e: WalkEntry| e@)
}

proof fn lemma_walk_step(es: Seq<WalkEntryView>, i: int)
    requires
        0 <= i < es.len(),
    ensures
        walk_nodes(es.subrange(0, i + 1)) == walk_nodes(es.subrange(0, i)).union(
            entry_nodes(es[i]),
        ),
        walk_edges(es.subrange(0, i + 1)) == walk_edges(es.subrange(0, i)).union(
            entry_edges(es[i]),
        ),
{
    assert(es.subrange(0, i + 1).drop_last() =~= es.subrange(0, i));
    assert(es.subrange(0, i + 1).last() == es[i]);
}

/// Walks every visited entry into the shared registry: the second
/// builder pass. Adds exactly the walk pass's nodes and edges, leaving
/// everything already registered in place.
pub fn add_file_structure_to_graph(entries: &Vec<WalkEntry>, tag_graph: &mut HashSetGraph)
    requires
        old(tag_graph).wf(),
    ensures
        final(tag_graph).wf(),
        final(tag_graph).node_set() == old(tag_graph).node_set().union(
            walk_nodes(walk_views(entries@)),
        ),
        final(tag_graph).edge_set() == old(tag_graph).edge_set().union(
            walk_edges(walk_views(entries@)),
        ),
{
    let ghost base_n = old(tag_graph).node_set();
    let ghost base_e = old(tag_graph).edge_set();
    let ghost evs = walk_views(entries@);
    let dir_root = TagGraphNode::RootDirectory;
    tag_graph.get_node(&dir_root);
    proof {
        assert(tag_graph.node_set() =~= base_n.union(walk_nodes(evs.subrange(0, 0))));
        assert(tag_graph.edge_set() =~= base_e.union(walk_edges(evs.subrange(0, 0))));
    }
    let ne = entries.len();
    let mut i: usize = 0;
    while i < ne
        invariant
            i <= ne,
            ne == entries@.len(),
            evs == walk_views(entries@),
            dir_root@ == NodeView::RootDirectory,
            tag_graph.wf(),
            tag_graph.node_set() == base_n.union(walk_nodes(evs.subrange(0, i as int))),
            tag_graph.edge_set() == base_e.union(walk_edges(evs.subrange(0, i as int))),
        decreases ne - i,
    {
        let e = &entries[i];
        let ghost ev = evs[i as int];
        let ghost s_n = tag_graph.node_set();
        let ghost s_e = tag_graph.edge_set();
        proof {
            assert(ev == e@);
            lemma_walk_step(evs, i as int);
        }
        if !path_is_tag_file(e.path.as_str()) {
            let node = if e.is_dir {
                TagGraphNode::Directory { path: e.path.clone() }
            } else {
                TagGraphNode::File { path: e.path.clone() }
            };
            proof {
                assert(node@ == entry_node(ev));
            }
            if e.depth == 0 {
                tag_graph.update_edge(&dir_root, &node, Relation::Child);
                tag_graph.update_edge(&node, &dir_root, Relation::Parent);
                proof {
                    assert(dir_root@ == entry_parent(ev));
                }
            } else {
                let parent = TagGraphNode::Directory { path: path_parent(e.path.as_str()) };
                proof {
                    assert(parent@ == entry_parent(ev));
                }
                tag_graph.update_edge(&parent, &node, Relation::Child);
                tag_graph.update_edge(&node, &parent, Relation::Parent);
            }
            proof {
                assert(tag_graph.node_set() =~= base_n.union(walk_nodes(evs.subrange(0, i + 1))));
                assert(tag_graph.edge_set() =~= base_e.union(walk_edges(evs.subrange(0, i + 1))));
            }
        } else {
            proof {
                assert(tag_graph.node_set() =~= base_n.union(walk_nodes(evs.subrange(0, i + 1))));
                assert(tag_graph.edge_set() =~= base_e.union(walk_edges(evs.subrange(0, i + 1))));
            }
        }
        i = i + 1;
    }
    proof {
        assert(evs.subrange(0, ne as int) =~= evs);
    }
}

/// Walker exclusion: an entry that names a tag file is skipped whole,
/// so removing it from the walked list leaves the walk pass's nodes
/// and edges unchanged; in particular it receives no `Parent` or
/// `Child` edge from this pass.
pub proof fn lemma_walker_excludes_tag_files(es: Seq<WalkEntryView>, i: int)
    requires
        0 <= i < es.len(),
        is_tag_path(es[i].path),
    ensures
        walk_nodes(es) == walk_nodes(es.remove(i)),
        walk_edges(es) == walk_edges(es.remove(i)),
    decreases es.len(),
{
    if i == es.len() - 1 {
        assert(es.remove(i) =~= es.drop_last());
        assert(entry_nodes(es[i]) =~= Set::<NodeView>::empty());
        assert(entry_edges(es[i]) =~= Set::<(NodeView, NodeView, Relation)>::empty());
        assert(walk_nodes(es) =~= walk_nodes(es.drop_last()));
        assert(walk_edges(es) =~= walk_edges(es.drop_last()));
    } else {
        assert(es.remove(i).drop_last() =~= es.drop_last().remove(i));
        assert(es.remove(i).last() == es.last());
        assert(es.drop_last()[i] == es[i]);
        lemma_walker_excludes_tag_files(es.drop_last(), i);
        assert(walk_nodes(es.remove(i)) == walk_nodes(es.drop_last().remove(i)).union(
            entry_nodes(es.last()),
        ));
        assert(walk_edges(es.remove(i)) == walk_edges(es.drop_last().remove(i)).union(
            entry_edges(es.last()),
        ));
    }
}

/// Root wiring: every entry the walk keeps is joined to its parent
/// slot by exactly one `Child` edge downward and one `Parent` edge
/// upward: the root entry itself to `RootDirectory`, every other entry
/// to its immediate canonical parent directory.
pub proof fn lemma_root_wiring(es: Seq<WalkEntryView>, i: int)
    requires
        0 <= i < es.len(),
        !is_tag_path(es[i].path),
    ensures
        walk_edges(es).contains((entry_parent(es[i]), entry_node(es[i]), Relation::Child)),
        walk_edges(es).contains((entry_node(es[i]), entry_parent(es[i]), Relation::Parent)),
        es[i].depth == 0 ==> entry_parent(es[i]) == NodeView::RootDirectory,
        es[i].depth != 0 ==> entry_parent(es[i]) == NodeView::Directory(parent_of(es[i].path)),
    decreases es.len(),
{
    if i == es.len() - 1 {
        assert(entry_edges(es[i]).contains(
            (entry_parent(es[i]), entry_node(es[i]), Relation::Child),
        ));
        assert(entry_edges(es[i]).contains(
            (entry_node(es[i]), entry_parent(es[i]), Relation::Parent),
        ));
    } else {
        assert(es.drop_last()[i] == es[i]);
        lemma_root_wiring(es.drop_last(), i);
    }
}

} // verus!
