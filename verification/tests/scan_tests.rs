use relatable::get_tagged_files;
use relatable::match_targets;
use relatable::Relation;
use relatable::Sibling;
use relatable::TagFileEntry;
use relatable::TagGraphNode;
use relatable::WalkEntry;

fn file(path: &str) -> TagGraphNode {
    TagGraphNode::File { path: path.to_string() }
}

fn dir(path: &str) -> TagGraphNode {
    TagGraphNode::Directory { path: path.to_string() }
}

fn tag(name: &str) -> TagGraphNode {
    TagGraphNode::Tag(name.to_string())
}

fn sibling(dir_path: &str, name: &str, is_dir: bool) -> Sibling {
    Sibling { name: name.to_string(), path: format!("{}/{}", dir_path, name), is_dir }
}

#[test]
fn stem_matching_selects_name_and_stem_hits_only() {
    let tf = TagFileEntry {
        dir_path: "/r/d".to_string(),
        file_name: "img.tags".to_string(),
        siblings: vec![
            sibling("/r/d", "img.png", false),
            sibling("/r/d", "img", true),
            sibling("/r/d", "image.png", false),
            sibling("/r/d", "img.tags", false),
        ],
        contents: "favorite\n".to_string(),
    };
    let targets = match_targets(&tf);
    assert_eq!(targets, vec![file("/r/d/img.png"), dir("/r/d/img")]);

    let no_entries: Vec<WalkEntry> = vec![];
    let graph = get_tagged_files(&vec![tf], &no_entries).unwrap();
    assert!(graph.contains_edge(&file("/r/d/img.png"), &tag("favorite"), Relation::HasTag));
    assert!(graph.contains_edge(&tag("favorite"), &file("/r/d/img.png"), Relation::TagAssignedTo));
    assert!(graph.contains_edge(&dir("/r/d/img"), &tag("favorite"), Relation::HasTag));
    assert!(graph.contains_edge(&tag("favorite"), &dir("/r/d/img"), Relation::TagAssignedTo));
    assert!(!graph.contains_edge(&file("/r/d/image.png"), &tag("favorite"), Relation::HasTag));
    assert!(!graph.contains_edge(&tag("favorite"), &file("/r/d/image.png"), Relation::TagAssignedTo));
    assert!(!graph.contains_node(&file("/r/d/image.png")));
}

#[test]
fn a_tag_file_is_never_its_own_target() {
    let tf = TagFileEntry {
        dir_path: "/r/d".to_string(),
        file_name: "img.tags".to_string(),
        siblings: vec![sibling("/r/d", "img.tags", false), sibling("/r/d", "img.png", false)],
        contents: "x\n".to_string(),
    };
    let targets = match_targets(&tf);
    assert_eq!(targets, vec![file("/r/d/img.png")]);
}

#[test]
fn dir_tags_attaches_to_the_directory_only() {
    let tf = TagFileEntry {
        dir_path: "/r/d".to_string(),
        file_name: "dir.tags".to_string(),
        siblings: vec![sibling("/r/d", "a.txt", false), sibling("/r/d", "dir.tags", false)],
        contents: "red\nblue\n".to_string(),
    };
    assert_eq!(match_targets(&tf), vec![dir("/r/d")]);

    let no_entries: Vec<WalkEntry> = vec![];
    let graph = get_tagged_files(&vec![tf], &no_entries).unwrap();
    for t in ["red", "blue"] {
        assert!(graph.contains_edge(&TagGraphNode::RootTag, &tag(t), Relation::HasTag));
        assert!(graph.contains_edge(&dir("/r/d"), &tag(t), Relation::HasTag));
        assert!(graph.contains_edge(&tag(t), &dir("/r/d"), Relation::TagAssignedTo));
        assert!(!graph.contains_edge(&file("/r/d/a.txt"), &tag(t), Relation::HasTag));
        assert!(!graph.contains_edge(&tag(t), &file("/r/d/a.txt"), Relation::TagAssignedTo));
    }
    assert!(!graph.contains_node(&file("/r/d/a.txt")));
    // RootTag -> red, RootTag -> blue, and two attachment edges per tag.
    assert_eq!(graph.edge_count(), 6);
}

#[test]
fn zero_match_still_records_the_tags() {
    let tf = TagFileEntry {
        dir_path: "/r/d".to_string(),
        file_name: "orphan.tags".to_string(),
        siblings: vec![sibling("/r/d", "other.txt", false), sibling("/r/d", "orphan.tags", false)],
        contents: "lost\n".to_string(),
    };
    assert_eq!(match_targets(&tf), Vec::<TagGraphNode>::new());

    let no_entries: Vec<WalkEntry> = vec![];
    let graph = get_tagged_files(&vec![tf], &no_entries).unwrap();
    assert!(graph.contains_node(&tag("lost")));
    assert!(graph.contains_edge(&TagGraphNode::RootTag, &tag("lost"), Relation::HasTag));
    // No attachment edge at all: every edge is a RootTag ownership edge.
    for k in 0..graph.edge_count() {
        let e = graph.edge_at(k);
        assert_eq!(*graph.node_at(e.from), TagGraphNode::RootTag);
        assert_eq!(e.rel, Relation::HasTag);
    }
}

#[test]
fn repeated_tag_lines_collapse_to_one_edge_set() {
    let tf = TagFileEntry {
        dir_path: "/r/d".to_string(),
        file_name: "dir.tags".to_string(),
        siblings: vec![],
        contents: "red\nred\n".to_string(),
    };
    let no_entries: Vec<WalkEntry> = vec![];
    let graph = get_tagged_files(&vec![tf], &no_entries).unwrap();
    // RootTag, RootDirectory, the directory and Tag(red): one node
    // each; three distinct edges, however often the line repeats.
    assert_eq!(graph.node_count(), 4);
    assert_eq!(graph.edge_count(), 3);
}

#[test]
fn an_empty_line_yields_an_empty_string_tag() {
    let tf = TagFileEntry {
        dir_path: "/r/d".to_string(),
        file_name: "dir.tags".to_string(),
        siblings: vec![],
        contents: "\n".to_string(),
    };
    let no_entries: Vec<WalkEntry> = vec![];
    let graph = get_tagged_files(&vec![tf], &no_entries).unwrap();
    assert!(graph.contains_node(&tag("")));
    assert!(graph.contains_edge(&dir("/r/d"), &tag(""), Relation::HasTag));
}
