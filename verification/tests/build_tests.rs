use relatable::get_tagged_files;
use relatable::HashSetGraph;
use relatable::Relation;
use relatable::Sibling;
use relatable::TagFileEntry;
use relatable::TagGraphNode;
use relatable::WalkEntry;

fn file(path: &str) -> TagGraphNode {
    TagGraphNode::File { path: path.to_string() }
}

fn dir(path: &str) -> TagGraphNode {
    TagGraphNode::Directory { path: path.to_string() }
}

fn tag(name: &str) -> TagGraphNode {
    TagGraphNode::Tag(name.to_string())
}

fn entry(path: &str, is_dir: bool, depth: usize) -> WalkEntry {
    WalkEntry { path: path.to_string(), is_dir, depth }
}

fn sample_tree() -> (Vec<TagFileEntry>, Vec<WalkEntry>) {
    let tag_files = vec![TagFileEntry {
        dir_path: "/r".to_string(),
        file_name: "img.tags".to_string(),
        siblings: vec![
            Sibling { name: "img.png".to_string(), path: "/r/img.png".to_string(), is_dir: false },
            Sibling { name: "sub".to_string(), path: "/r/sub".to_string(), is_dir: true },
            Sibling { name: "img.tags".to_string(), path: "/r/img.tags".to_string(), is_dir: false },
        ],
        contents: "favorite\nholiday\n".to_string(),
    }];
    let entries = vec![
        entry("/r", true, 0),
        entry("/r/img.png", false, 1),
        entry("/r/img.tags", false, 1),
        entry("/r/sub", true, 1),
        entry("/r/sub/deep.txt", false, 2),
    ];
    (tag_files, entries)
}

#[test]
fn both_passes_share_one_node_per_path() {
    let (tag_files, entries) = sample_tree();
    let graph = get_tagged_files(&tag_files, &entries).unwrap();
    // /r/img.png is reached by the scanner (tag target) and the walker:
    // one File node serves both, carrying tag and structure edges alike.
    assert!(graph.contains_edge(&file("/r/img.png"), &tag("favorite"), Relation::HasTag));
    assert!(graph.contains_edge(&dir("/r"), &file("/r/img.png"), Relation::Child));
    // RootTag, RootDirectory, Tag(favorite), Tag(holiday),
    // Dir(/r), File(/r/img.png), Dir(/r/sub), File(/r/sub/deep.txt).
    assert_eq!(graph.node_count(), 8);
}

#[test]
fn rebuilding_an_unchanged_tree_is_isomorphic() {
    let (tag_files, entries) = sample_tree();
    let g1 = get_tagged_files(&tag_files, &entries).unwrap();
    let g2 = get_tagged_files(&tag_files, &entries).unwrap();
    assert_eq!(g1.node_count(), g2.node_count());
    assert_eq!(g1.edge_count(), g2.edge_count());
    for k in 0..g1.edge_count() {
        let e = g1.edge_at(k);
        assert!(g2.contains_edge(g1.node_at(e.from), g1.node_at(e.to), e.rel));
    }
    for i in 0..g1.node_count() {
        assert!(g2.contains_node(g1.node_at(i)));
    }
}

#[test]
fn the_walker_skips_tag_files() {
    let (tag_files, entries) = sample_tree();
    let graph = get_tagged_files(&tag_files, &entries).unwrap();
    assert!(!graph.contains_node(&file("/r/img.tags")));
    assert!(!graph.contains_edge(&dir("/r"), &file("/r/img.tags"), Relation::Child));
    assert!(!graph.contains_edge(&file("/r/img.tags"), &dir("/r"), Relation::Parent));
}

#[test]
fn the_root_entry_is_wired_to_root_directory() {
    let (tag_files, entries) = sample_tree();
    let graph = get_tagged_files(&tag_files, &entries).unwrap();
    assert!(graph.contains_edge(&TagGraphNode::RootDirectory, &dir("/r"), Relation::Child));
    assert!(graph.contains_edge(&dir("/r"), &TagGraphNode::RootDirectory, Relation::Parent));
}

#[test]
fn every_other_entry_is_wired_to_its_parent() {
    let (tag_files, entries) = sample_tree();
    let graph = get_tagged_files(&tag_files, &entries).unwrap();
    assert!(graph.contains_edge(&dir("/r"), &file("/r/img.png"), Relation::Child));
    assert!(graph.contains_edge(&file("/r/img.png"), &dir("/r"), Relation::Parent));
    assert!(graph.contains_edge(&dir("/r"), &dir("/r/sub"), Relation::Child));
    assert!(graph.contains_edge(&dir("/r/sub"), &dir("/r"), Relation::Parent));
    assert!(graph.contains_edge(&dir("/r/sub"), &file("/r/sub/deep.txt"), Relation::Child));
    assert!(graph.contains_edge(&file("/r/sub/deep.txt"), &dir("/r/sub"), Relation::Parent));
}

#[test]
fn an_empty_tree_still_anchors_both_roots() {
    let tag_files: Vec<TagFileEntry> = vec![];
    let entries: Vec<WalkEntry> = vec![];
    let graph: HashSetGraph = get_tagged_files(&tag_files, &entries).unwrap();
    assert!(graph.contains_node(&TagGraphNode::RootTag));
    assert!(graph.contains_node(&TagGraphNode::RootDirectory));
    assert_eq!(graph.node_count(), 2);
    assert_eq!(graph.edge_count(), 0);
}

#[test]
fn tag_and_structure_edges_coexist_between_the_same_nodes() {
    // A dir.tags in /r/sub tags the directory that the walker also
    // wires structurally: relation-labeled edges never overwrite one
    // another, whatever pair they connect.
    let tag_files = vec![TagFileEntry {
        dir_path: "/r/sub".to_string(),
        file_name: "dir.tags".to_string(),
        siblings: vec![],
        contents: "blue\n".to_string(),
    }];
    let entries = vec![entry("/r", true, 0), entry("/r/sub", true, 1)];
    let graph = get_tagged_files(&tag_files, &entries).unwrap();
    assert!(graph.contains_edge(&dir("/r/sub"), &tag("blue"), Relation::HasTag));
    assert!(graph.contains_edge(&tag("blue"), &dir("/r/sub"), Relation::TagAssignedTo));
    assert!(graph.contains_edge(&dir("/r"), &dir("/r/sub"), Relation::Child));
    assert!(graph.contains_edge(&dir("/r/sub"), &dir("/r"), Relation::Parent));
}
