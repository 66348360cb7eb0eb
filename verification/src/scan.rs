//! The tag-file scanner: which entities a tag file attaches its tags
//! to, and which nodes and edges one scan pass contributes.
//!
//! A tag file named exactly `dir.tags` attaches to its containing
//! directory alone. Any other tag file attaches to every sibling entry,
//! tag files excluded, whose full name or whose own stem equals the tag
//! file's stem; zero, one, or many siblings may match. Every tag line
//! becomes a `Tag` node owned by `RootTag`, and for every matched
//! target the graph gains one `HasTag` and one `TagAssignedTo` edge.

use vstd::prelude::*;

use crate::graph::HashSetGraph;
use crate::lines::parse_tag_lines;
use crate::lines::split_lines;
use crate::names::dir_tags_name;
use crate::names::is_tag_name;
use crate::names::name_is_dir_tags;
use crate::names::name_is_tag_file;
use crate::names::name_stem;
use crate::names::stem_of;
use crate::node::NodeView;
use crate::node::Relation;
use crate::node::TagGraphNode;

verus! {

/// One entry of a tag file's directory, as a candidate attachment
/// target: its bare name, its canonical path, and whether it is a
/// directory.
pub struct Sibling {
    pub name: String,
    pub path: String,
    pub is_dir: bool,
}

/// The specification-level image of a `Sibling`.
pub struct SiblingView {
    pub name: Seq<char>,
    pub path: Seq<char>,
    pub is_dir: bool,
}

impl View for Sibling {
    type V = SiblingView;

    open spec fn view(&self) -> SiblingView {
        SiblingView { name: self.name@, path: self.path@, is_dir: self.is_dir }
    }
}

/// One discovered tag file: the canonical path of its directory, its
/// bare file name, the other entries of that directory, and its text.
pub struct TagFileEntry {
    pub dir_path: String,
    pub file_name: String,
    pub siblings: Vec<Sibling>,
    pub contents: String,
}

/// The specification-level image of a `TagFileEntry`.
pub struct TagFileView {
    pub dir_path: Seq<char>,
    pub file_name: Seq<char>,
    pub siblings: Seq<SiblingView>,
    pub contents: Seq<char>,
}

impl View for TagFileEntry {
    type V = TagFileView;

    open spec fn view(&self) -> TagFileView {
        TagFileView {
            dir_path: self.dir_path@,
            file_name: self.file_name@,
            siblings: self.siblings@.map_values(|s: Sibling| s@),
            contents: self.contents@,
        }
    }
}

/// The node standing for a directory entry.
pub open spec fn sibling_node(s: SiblingView) -> NodeView {
    if s.is_dir {
        NodeView::Directory(s.path)
    } else {
        NodeView::File(s.path)
    }
}

/// The stem-matching rule: a sibling is an attachment target when it is
/// not itself a tag file and its full name or its own stem equals the
/// tag file's stem.
pub open spec fn sibling_matches(s: SiblingView, stem: Seq<char>) -> bool {
    &&& !is_tag_name(s.name)
    &&& (s.name == stem || stem_of(s.name) == stem)
}

/// The attachment targets selected from `sibs` by stem matching, in
/// directory order.
pub open spec fn matching_targets(sibs: Seq<SiblingView>, stem: Seq<char>) -> Seq<NodeView>
    decreases sibs.len(),
{
    if sibs.len() == 0 {
        Seq::empty()
    } else if sibling_matches(sibs.last(), stem) {
        matching_targets(sibs.drop_last(), stem).push(sibling_node(sibs.last()))
    } else {
        matching_targets(sibs.drop_last(), stem)
    }
}

/// Every attachment target of one tag file: the containing directory
/// alone for `dir.tags`, the stem matches otherwise.
pub open spec fn tag_targets(tf: TagFileView) -> Seq<NodeView> {
    if tf.file_name == dir_tags_name() {
        seq![NodeView::Directory(tf.dir_path)]
    } else {
        matching_targets(tf.siblings, stem_of(tf.file_name))
    }
}

/// Computes the attachment targets of one tag file.
pub fn match_targets(tf: &TagFileEntry) -> (targets: Vec<TagGraphNode>)
    ensures
        targets@.map_values(|n: TagGraphNode| n@) == tag_targets(tf@),
{
    let mut targets: Vec<TagGraphNode> = Vec::new();
    if name_is_dir_tags(&tf.file_name) {
        targets.push(TagGraphNode::Directory { path: tf.dir_path.clone() });
        proof {
            assert(targets@.map_values(|n: TagGraphNode| n@) =~= tag_targets(tf@));
        }
        return targets;
    }
    let stem = name_stem(tf.file_name.as_str());
    let ghost stem_v = stem_of(tf@.file_name);
    let ghost sibs = tf@.siblings;
    let m = tf.siblings.len();
    let mut i: usize = 0;
    proof {
        assert(targets@.map_values(|n: TagGraphNode| n@) =~= matching_targets(
            sibs.subrange(0, 0),
            stem_v,
        ));
    }
    while i < m
        invariant
            i <= m,
            m == tf.siblings@.len(),
            sibs == tf@.siblings,
            stem@ == stem_v,
            stem_v == stem_of(tf@.file_name),
            targets@.map_values(|n: TagGraphNode| n@) == matching_targets(
                sibs.subrange(0, i as int),
                stem_v,
            ),
        decreases m - i,
    {
        let sib = &tf.siblings[i];
        proof {
            assert(sibs[i as int] == sib@);
            assert(sibs.subrange(0, i + 1).drop_last() =~= sibs.subrange(0, i as int));
            assert(sibs.subrange(0, i + 1).last() == sib@);
        }
        if !name_is_tag_file(sib.name.as_str()) {
            let hit = sib.name.eq(&stem) || name_stem(sib.name.as_str()).eq(&stem);
            if hit {
                let node = if sib.is_dir {
                    TagGraphNode::Directory { path: sib.path.clone() }
                } else {
                    TagGraphNode::File { path: sib.path.clone() }
                };
                proof {
                    assert(node@ == sibling_node(sib@));
                    assert(targets@.push(node).map_values(|n: TagGraphNode| n@)
                        =~= targets@.map_values(|n: TagGraphNode| n@).push(node@));
                }
                targets.push(node);
            }
        }
        i = i + 1;
    }
    proof {
        assert(sibs.subrange(0, m as int) =~= sibs);
    }
    targets
}

/// The `Tag` nodes made from a tag file's lines.
pub open spec fn line_tag_nodes(lines: Seq<Seq<char>>) -> Set<NodeView>
    decreases lines.len(),
{
    if lines.len() == 0 {
        Set::empty()
    } else {
        line_tag_nodes(lines.drop_last()).insert(NodeView::Tag(lines.last()))
    }
}

/// The edges attaching one tag to every target: target owns the tag,
/// and the tag is assigned to the target.
pub open spec fn attach_edges(tag: Seq<char>, targets: Seq<NodeView>) -> Set<
    (NodeView, NodeView, Relation),
>
    decreases targets.len(),
{
    if targets.len() == 0 {
        Set::empty()
    } else {
        attach_edges(tag, targets.drop_last()).insert(
            (targets.last(), NodeView::Tag(tag), Relation::HasTag),
        ).insert((NodeView::Tag(tag), targets.last(), Relation::TagAssignedTo))
    }
}

/// The edges a tag file's lines contribute: `RootTag` owns every tag,
/// and every tag attaches to every target.
pub open spec fn line_edges(lines: Seq<Seq<char>>, targets: Seq<NodeView>) -> Set<
    (NodeView, NodeView, Relation),
>
    decreases lines.len(),
{
    if lines.len() == 0 {
        Set::empty()
    } else {
        line_edges(lines.drop_last(), targets).insert(
            (NodeView::RootTag, NodeView::Tag(lines.last()), Relation::HasTag),
        ).union(attach_edges(lines.last(), targets))
    }
}

/// The nodes one tag file contributes: its directory, its attachment
/// targets, and one `Tag` node per line.
pub open spec fn tagfile_nodes(tf: TagFileView) -> Set<NodeView> {
    set![NodeView::Directory(tf.dir_path)].union(tag_targets(tf).to_set()).union(
        line_tag_nodes(split_lines(tf.contents)),
    )
}

/// The edges one tag file contributes.
pub open spec fn tagfile_edges(tf: TagFileView) -> Set<(NodeView, NodeView, Relation)> {
    line_edges(split_lines(tf.contents), tag_targets(tf))
}

/// Every node the scan pass contributes, `RootTag` included.
pub open spec fn scan_nodes(tfs: Seq<TagFileView>) -> Set<NodeView>
    decreases tfs.len(),
{
    if tfs.len() == 0 {
        set![NodeView::RootTag]
    } else {
        scan_nodes(tfs.drop_last()).union(tagfile_nodes(tfs.last()))
    }
}

/// Every edge the scan pass contributes.
pub open spec fn scan_edges(tfs: Seq<TagFileView>) -> Set<(NodeView, NodeView, Relation)>
    decreases tfs.len(),
{
    if tfs.len() == 0 {
        Set::empty()
    } else {
        scan_edges(tfs.drop_last()).union(tagfile_edges(tfs.last()))
    }
}

/// The specification-level image of a list of tag files.
pub open spec fn tagfile_views(tfs: Seq<TagFileEntry>) -> Seq<TagFileView> {
    tfs.map_values(|t: TagFileEntry| t@)
}

proof fn lemma_scan_nodes_has_root(tfs: Seq<TagFileView>)
    ensures
        scan_nodes(tfs).contains(NodeView::RootTag),
    decreases tfs.len(),
{
    if tfs.len() > 0 {
        lemma_scan_nodes_has_root(tfs.drop_last());
    }
}

proof fn lemma_subrange_to_set_step<A>(s: Seq<A>, j: int)
    requires
        0 <= j < s.len(),
    ensures
        s.subrange(0, j + 1).to_set() == s.subrange(0, j).to_set().insert(s[j]),
{
    let a = s.subrange(0, j + 1);
    let b = s.subrange(0, j);
    assert(a.to_set() =~= b.to_set().insert(s[j])) by {
        assert forall|x: A| a.contains(x) implies b.contains(x) || x == s[j] by {
            let idx = choose|idx: int| 0 <= idx < a.len() && a[idx] == x;
            if idx < j {
                assert(b[idx] == x);
            }
        }
        assert forall|x: A| b.contains(x) implies a.contains(x) by {
            let idx = choose|idx: int| 0 <= idx < b.len() && b[idx] == x;
            assert(a[idx] == x);
        }
        assert(a[j] == s[j]);
        assert(a.contains(s[j]));
    }
}

proof fn lemma_line_tag_nodes_step(lines: Seq<Seq<char>>, k: int)
    requires
        0 <= k < lines.len(),
    ensures
        line_tag_nodes(lines.subrange(0, k + 1)) == line_tag_nodes(lines.subrange(0, k)).insert(
            NodeView::Tag(lines[k]),
        ),
{
    assert(lines.subrange(0, k + 1).drop_last() =~= lines.subrange(0, k));
    assert(lines.subrange(0, k + 1).last() == lines[k]);
}

proof fn lemma_attach_edges_step(tag: Seq<char>, targets: Seq<NodeView>, m: int)
    requires
        0 <= m < targets.len(),
    ensures
        attach_edges(tag, targets.subrange(0, m + 1)) == attach_edges(
            tag,
            targets.subrange(0, m),
        ).insert((targets[m], NodeView::Tag(tag), Relation::HasTag)).insert(
            (NodeView::Tag(tag), targets[m], Relation::TagAssignedTo),
        ),
{
    assert(targets.subrange(0, m + 1).drop_last() =~= targets.subrange(0, m));
    assert(targets.subrange(0, m + 1).last() == targets[m]);
}

proof fn lemma_line_edges_step(lines: Seq<Seq<char>>, targets: Seq<NodeView>, k: int)
    requires
        0 <= k < lines.len(),
    ensures
        line_edges(lines.subrange(0, k + 1), targets) == line_edges(
            lines.subrange(0, k),
            targets,
        ).insert((NodeView::RootTag, NodeView::Tag(lines[k]), Relation::HasTag)).union(
            attach_edges(lines[k], targets),
        ),
{
    assert(lines.subrange(0, k + 1).drop_last() =~= lines.subrange(0, k));
    assert(lines.subrange(0, k + 1).last() == lines[k]);
}

proof fn lemma_scan_step(tfs: Seq<TagFileView>, i: int)
    requires
        0 <= i < tfs.len(),
    ensures
        scan_nodes(tfs.subrange(0, i + 1)) == scan_nodes(tfs.subrange(0, i)).union(
            tagfile_nodes(tfs[i]),
        ),
        scan_edges(tfs.subrange(0, i + 1)) == scan_edges(tfs.subrange(0, i)).union(
            tagfile_edges(tfs[i]),
        ),
{
    assert(tfs.subrange(0, i + 1).drop_last() =~= tfs.subrange(0, i));
    assert(tfs.subrange(0, i + 1).last() == tfs[i]);
}

/// Scans every discovered tag file into the shared registry: the first
/// builder pass. Adds exactly the scan pass's nodes and edges, leaving
/// everything already registered in place.
pub fn add_tags_to_graph(tag_files: &Vec<TagFileEntry>, tag_graph: &mut HashSetGraph)
    requires
        old(tag_graph).wf(),
    ensures
        final(tag_graph).wf(),
        final(tag_graph).node_set() == old(tag_graph).node_set().union(
            scan_nodes(tagfile_views(tag_files@)),
        ),
        final(tag_graph).edge_set() == old(tag_graph).edge_set().union(
            scan_edges(tagfile_views(tag_files@)),
        ),
{
    let ghost base_n = old(tag_graph).node_set();
    let ghost base_e = old(tag_graph).edge_set();
    let ghost tfs = tagfile_views(tag_files@);
    let root_tag = TagGraphNode::RootTag;
    tag_graph.get_node(&root_tag);
    proof {
        assert(tag_graph.node_set() =~= base_n.union(scan_nodes(tfs.subrange(0, 0))));
        assert(tag_graph.edge_set() =~= base_e.union(scan_edges(tfs.subrange(0, 0))));
    }
    let nf = tag_files.len();
    let mut i: usize = 0;
    while i < nf
        invariant
            i <= nf,
            nf == tag_files@.len(),
            tfs == tagfile_views(tag_files@),
            root_tag@ == NodeView::RootTag,
            tag_graph.wf(),
            tag_graph.node_set() == base_n.union(scan_nodes(tfs.subrange(0, i as int))),
            tag_graph.edge_set() == base_e.union(scan_edges(tfs.subrange(0, i as int))),
        decreases nf - i,
    {
        let tf = &tag_files[i];
        let ghost tfv = tfs[i as int];
        let ghost s_n = tag_graph.node_set();
        let ghost s_e = tag_graph.edge_set();
        proof {
            assert(tfv == tf@);
            assert(s_n.contains(NodeView::RootTag)) by {
                lemma_scan_nodes_has_root(tfs.subrange(0, i as int));
            }
        }
        let dir_node = TagGraphNode::Directory { path: tf.dir_path.clone() };
        tag_graph.get_node(&dir_node);

        let targets = match_targets(tf);
        let ghost tgt = tag_targets(tfv);
        let mt = targets.len();
        let mut j: usize = 0;
        proof {
            assert(tgt.subrange(0, 0).to_set() =~= Set::<NodeView>::empty());
            assert(tag_graph.node_set() =~= s_n.insert(NodeView::Directory(tfv.dir_path)).union(
                tgt.subrange(0, 0).to_set(),
            ));
        }
        while j < mt
            invariant
                j <= mt,
                mt == targets@.len(),
                targets@.map_values(|n: TagGraphNode| n@) == tgt,
                tag_graph.wf(),
                tag_graph.node_set() == s_n.insert(NodeView::Directory(tfv.dir_path)).union(
                    tgt.subrange(0, j as int).to_set(),
                ),
                tag_graph.edge_set() == s_e,
            decreases mt - j,
        {
            let ghost before = tag_graph.node_set();
            tag_graph.get_node(&targets[j]);
            proof {
                assert(targets@[j as int]@ == tgt[j as int]);
                lemma_subrange_to_set_step(tgt, j as int);
                assert(before.insert(tgt[j as int]) =~= s_n.insert(
                    NodeView::Directory(tfv.dir_path),
                ).union(tgt.subrange(0, j + 1).to_set()));
            }
            j = j + 1;
        }
        proof {
            assert(tgt.subrange(0, mt as int) =~= tgt);
        }

        let tags = parse_tag_lines(tf.contents.as_str());
        let ghost lns = split_lines(tfv.contents);
        let ghost s2_n = tag_graph.node_set();
        let lt = tags.len();
        let mut k: usize = 0;
        proof {
            assert(line_tag_nodes(lns.subrange(0, 0)) =~= Set::<NodeView>::empty());
            assert(line_edges(lns.subrange(0, 0), tgt) =~= Set::<
                (NodeView, NodeView, Relation),
            >::empty());
            assert(tag_graph.node_set() =~= s2_n.union(line_tag_nodes(lns.subrange(0, 0))));
            assert(tag_graph.edge_set() =~= s_e.union(line_edges(lns.subrange(0, 0), tgt)));
        }
        while k < lt
            invariant
                k <= lt,
                lt == tags@.len(),
                tags@.map_values(|t: String| t@) == lns,
                mt == targets@.len(),
                targets@.map_values(|n: TagGraphNode| n@) == tgt,
                root_tag@ == NodeView::RootTag,
                s2_n.contains(NodeView::RootTag),
                forall|x: NodeView| tgt.to_set().contains(x) ==> s2_n.contains(x),
                tag_graph.wf(),
                tag_graph.node_set() == s2_n.union(line_tag_nodes(lns.subrange(0, k as int))),
                tag_graph.edge_set() == s_e.union(line_edges(lns.subrange(0, k as int), tgt)),
            decreases lt - k,
        {
            let tag_value = tags[k].clone();
            let tag_node = TagGraphNode::Tag(tag_value);
            let ghost lv = lns[k as int];
            let ghost before_n = tag_graph.node_set();
            let ghost before_e = tag_graph.edge_set();
            proof {
                assert(tags@[k as int]@ == lv);
                assert(tag_node@ == NodeView::Tag(lv));
            }
            tag_graph.update_edge(&root_tag, &tag_node, Relation::HasTag);
            let ghost ns3 = tag_graph.node_set();
            let ghost es3 = tag_graph.edge_set();
            proof {
                lemma_line_tag_nodes_step(lns, k as int);
                assert(ns3 =~= s2_n.union(line_tag_nodes(lns.subrange(0, k + 1))));
                assert(es3 == before_e.insert(
                    (NodeView::RootTag, NodeView::Tag(lv), Relation::HasTag),
                ));
                assert(attach_edges(lv, tgt.subrange(0, 0)) =~= Set::<
                    (NodeView, NodeView, Relation),
                >::empty());
                assert(tag_graph.edge_set() =~= es3.union(attach_edges(lv, tgt.subrange(0, 0))));
            }
            let mut m: usize = 0;
            while m < mt
                invariant
                    m <= mt,
                    mt == targets@.len(),
                    targets@.map_values(|n: TagGraphNode| n@) == tgt,
                    tag_node@ == NodeView::Tag(lv),
                    ns3.contains(NodeView::Tag(lv)),
                    forall|x: NodeView| tgt.to_set().contains(x) ==> ns3.contains(x),
                    tag_graph.wf(),
                    tag_graph.node_set() == ns3,
                    tag_graph.edge_set() == es3.union(attach_edges(lv, tgt.subrange(0, m as int))),
                decreases mt - m,
            {
                let ghost mid_e = tag_graph.edge_set();
                let tag_node_ref = &tag_node;
                proof {
                    assert(targets@[m as int]@ == tgt[m as int]);
                    assert(tgt.contains(tgt[m as int]));
                    assert(tgt.to_set().contains(tgt[m as int]));
                }
                tag_graph.update_edge(&targets[m], tag_node_ref, Relation::HasTag);
                proof {
                    assert(tag_graph.node_set() =~= ns3);
                }
                tag_graph.update_edge(tag_node_ref, &targets[m], Relation::TagAssignedTo);
                proof {
                    assert(tag_graph.node_set() =~= ns3);
                    lemma_attach_edges_step(lv, tgt, m as int);
                    assert(tag_graph.edge_set() =~= es3.union(
                        attach_edges(lv, tgt.subrange(0, m + 1)),
                    ));
                }
                m = m + 1;
            }
            proof {
                assert(tgt.subrange(0, mt as int) =~= tgt);
                lemma_line_edges_step(lns, tgt, k as int);
                assert(tag_graph.edge_set() =~= s_e.union(
                    line_edges(lns.subrange(0, k + 1), tgt),
                ));
            }
            k = k + 1;
        }
        proof {
            assert(lns.subrange(0, lt as int) =~= lns);
            lemma_scan_step(tfs, i as int);
            assert(tagfile_nodes(tfv) =~= set![NodeView::Directory(tfv.dir_path)].union(
                tgt.to_set(),
            ).union(line_tag_nodes(lns)));
            assert(tag_graph.node_set() =~= base_n.union(scan_nodes(tfs.subrange(0, i + 1))));
            assert(tag_graph.edge_set() =~= base_e.union(scan_edges(tfs.subrange(0, i + 1))));
        }
        i = i + 1;
    }
    proof {
        assert(tfs.subrange(0, nf as int) =~= tfs);
    }
}

proof fn lemma_line_tag_nodes_contains(lines: Seq<Seq<char>>, i: int)
    requires
        0 <= i < lines.len(),
    ensures
        line_tag_nodes(lines).contains(NodeView::Tag(lines[i])),
    decreases lines.len(),
{
    if i < lines.len() - 1 {
        assert(lines.drop_last()[i] == lines[i]);
        lemma_line_tag_nodes_contains(lines.drop_last(), i);
    }
}

proof fn lemma_line_edges_contains_root(lines: Seq<Seq<char>>, targets: Seq<NodeView>, i: int)
    requires
        0 <= i < lines.len(),
    ensures
        line_edges(lines, targets).contains(
            (NodeView::RootTag, NodeView::Tag(lines[i]), Relation::HasTag),
        ),
    decreases lines.len(),
{
    if i < lines.len() - 1 {
        assert(lines.drop_last()[i] == lines[i]);
        lemma_line_edges_contains_root(lines.drop_last(), targets, i);
    }
}

proof fn lemma_attach_edges_shape(
    tag: Seq<char>,
    targets: Seq<NodeView>,
    a: NodeView,
    b: NodeView,
    r: Relation,
)
    requires
        attach_edges(tag, targets).contains((a, b, r)),
    ensures
        exists|m: int|
            0 <= m < targets.len() && ((a == targets[m] && b == NodeView::Tag(tag) && r
                == Relation::HasTag) || (a == NodeView::Tag(tag) && b == targets[m] && r
                == Relation::TagAssignedTo)),
    decreases targets.len(),
{
    let last = targets.len() - 1;
    if (a, b, r) == (targets.last(), NodeView::Tag(tag), Relation::HasTag) {
        assert(targets[last] == targets.last());
    } else if (a, b, r) == (NodeView::Tag(tag), targets.last(), Relation::TagAssignedTo) {
        assert(targets[last] == targets.last());
    } else {
        lemma_attach_edges_shape(tag, targets.drop_last(), a, b, r);
        let m = choose|m: int|
            0 <= m < targets.drop_last().len() && ((a == targets.drop_last()[m] && b
                == NodeView::Tag(tag) && r == Relation::HasTag) || (a == NodeView::Tag(tag) && b
                == targets.drop_last()[m] && r == Relation::TagAssignedTo));
        assert(targets[m] == targets.drop_last()[m]);
    }
}

proof fn lemma_line_edges_shape(
    lines: Seq<Seq<char>>,
    targets: Seq<NodeView>,
    a: NodeView,
    b: NodeView,
    r: Relation,
)
    requires
        line_edges(lines, targets).contains((a, b, r)),
    ensures
        (a == NodeView::RootTag && r == Relation::HasTag) || (exists|m: int|
            0 <= m < targets.len() && ((a == targets[m] && r == Relation::HasTag) || (b
                == targets[m] && r == Relation::TagAssignedTo))),
    decreases lines.len(),
{
    if line_edges(lines.drop_last(), targets).contains((a, b, r)) {
        lemma_line_edges_shape(lines.drop_last(), targets, a, b, r);
    } else if attach_edges(lines.last(), targets).contains((a, b, r)) {
        lemma_attach_edges_shape(lines.last(), targets, a, b, r);
    }
}

/// The zero-match path is a warning, not an error: a tag file whose
/// stem matching selected no target still yields a `Tag` node and a
/// `RootTag` ownership edge for every line, and not a single
/// attachment edge.
pub proof fn lemma_zero_match_keeps_tags(tf: TagFileView, i: int)
    requires
        tag_targets(tf).len() == 0,
        0 <= i < split_lines(tf.contents).len(),
    ensures
        tagfile_nodes(tf).contains(NodeView::Tag(split_lines(tf.contents)[i])),
        tagfile_edges(tf).contains(
            (NodeView::RootTag, NodeView::Tag(split_lines(tf.contents)[i]), Relation::HasTag),
        ),
        forall|a: NodeView, b: NodeView, r: Relation|
            tagfile_edges(tf).contains((a, b, r)) ==> a == NodeView::RootTag && r
                == Relation::HasTag,
{
    let lines = split_lines(tf.contents);
    let targets = tag_targets(tf);
    lemma_line_tag_nodes_contains(lines, i);
    lemma_line_edges_contains_root(lines, targets, i);
    assert forall|a: NodeView, b: NodeView, r: Relation|
        tagfile_edges(tf).contains((a, b, r)) implies a == NodeView::RootTag && r
        == Relation::HasTag by {
        lemma_line_edges_shape(lines, targets, a, b, r);
    }
}

/// dir.tags scoping: every edge a `dir.tags` file contributes either
/// records tag ownership by `RootTag`, attaches a tag to the containing
/// directory, or assigns a tag to the containing directory. No sibling
/// entry receives any of its edges.
pub proof fn lemma_dir_tags_scoped(tf: TagFileView, a: NodeView, b: NodeView, r: Relation)
    requires
        tf.file_name == dir_tags_name(),
        tagfile_edges(tf).contains((a, b, r)),
    ensures
        (a == NodeView::RootTag && r == Relation::HasTag) || (a == NodeView::Directory(
            tf.dir_path,
        ) && r == Relation::HasTag) || (b == NodeView::Directory(tf.dir_path) && r
            == Relation::TagAssignedTo),
{
    lemma_line_edges_shape(split_lines(tf.contents), tag_targets(tf), a, b, r);
}

} // verus!

