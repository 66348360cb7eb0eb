//! The graph assembler: one shared registry, two passes.

use vstd::prelude::*;

use crate::graph::HashSetGraph;
use crate::node::Error;
use crate::node::NodeView;
use crate::node::Relation;
use crate::scan::add_tags_to_graph;
use crate::scan::scan_edges;
use crate::scan::scan_nodes;
use crate::scan::tagfile_views;
use crate::scan::TagFileEntry;
use crate::scan::TagFileView;
use crate::walk::add_file_structure_to_graph;
use crate::walk::walk_edges;
use crate::walk::walk_nodes;
use crate::walk::walk_views;
use crate::walk::WalkEntry;
use crate::walk::WalkEntryView;

verus! {

/// Every node a build of the described tree registers.
pub open spec fn build_nodes(tfs: Seq<TagFileView>, es: Seq<WalkEntryView>) -> Set<NodeView> {
    scan_nodes(tfs).union(walk_nodes(es))
}

/// Every edge a build of the described tree records.
pub open spec fn build_edges(tfs: Seq<TagFileView>, es: Seq<WalkEntryView>) -> Set<
    (NodeView, NodeView, Relation),
> {
    scan_edges(tfs).union(walk_edges(es))
}

/// Builds the tag graph of one described tree: scans every tag file,
/// then walks the filesystem structure, both into one shared registry,
/// so that a path reached from either pass resolves to one node.
///
/// The descriptions are already gathered, so the build itself cannot
/// fail; a caller that reads them from a real filesystem surfaces its
/// own `Error::IO` for a canonicalization or read failure before ever
/// calling in, aborting the whole build with no partial graph.
pub fn get_tagged_files(tag_files: &Vec<TagFileEntry>, entries: &Vec<WalkEntry>) -> (r: Result<
    HashSetGraph,
    Error,
>)
    ensures
        r is Ok,
        r matches Ok(g) ==> {
            &&& g.wf()
            &&& g.node_set() == build_nodes(tagfile_views(tag_files@), walk_views(entries@))
            &&& g.edge_set() == build_edges(tagfile_views(tag_files@), walk_views(entries@))
        },
{
    let mut tag_graph = HashSetGraph::new();
    add_tags_to_graph(tag_files, &mut tag_graph);
    add_file_structure_to_graph(entries, &mut tag_graph);
    proof {
        assert(tag_graph.node_set() =~= build_nodes(
            tagfile_views(tag_files@),
            walk_views(entries@),
        ));
        assert(tag_graph.edge_set() =~= build_edges(
            tagfile_views(tag_files@),
            walk_views(entries@),
        ));
    }
    Ok(tag_graph)
}

/// Idempotence: rebuilding against an unchanged tree produces a graph
/// isomorphic to the previous build. Two well-formed graphs built from
/// the same descriptions carry the same node set, the same edge set,
/// and node for node and edge for edge the same counts, however each
/// happened to number its handles; and since a well-formed graph never
/// repeats an edge triple, equal edge sets are equal edge multisets.
pub proof fn lemma_build_idempotent(
    g1: HashSetGraph,
    g2: HashSetGraph,
    tfs: Seq<TagFileView>,
    es: Seq<WalkEntryView>,
)
    requires
        g1.wf(),
        g2.wf(),
        g1.node_set() == build_nodes(tfs, es),
        g1.edge_set() == build_edges(tfs, es),
        g2.node_set() == build_nodes(tfs, es),
        g2.edge_set() == build_edges(tfs, es),
    ensures
        g1.node_set() == g2.node_set(),
        g1.edge_set() == g2.edge_set(),
        g1.node_seq().len() == g2.node_seq().len(),
        g1.edge_seq().len() == g2.edge_seq().len(),
{
    crate::graph::lemma_counts_determined(g1);
    crate::graph::lemma_counts_determined(g2);
}

} // verus!
