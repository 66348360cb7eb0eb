use relatable::HashSetGraph;
use relatable::Relation;
use relatable::TagGraphNode;

fn file(path: &str) -> TagGraphNode {
    TagGraphNode::File { path: path.to_string() }
}

fn dir(path: &str) -> TagGraphNode {
    TagGraphNode::Directory { path: path.to_string() }
}

#[test]
fn empty_graph_has_no_nodes_or_edges() {
    let g = HashSetGraph::new();
    assert_eq!(g.node_count(), 0);
    assert_eq!(g.edge_count(), 0);
}

#[test]
fn get_node_registers_once_per_value() {
    let mut g = HashSetGraph::new();
    let a = g.get_node(&file("/r/a.txt"));
    let b = g.get_node(&file("/r/a.txt"));
    assert_eq!(a, b);
    assert_eq!(g.node_count(), 1);
    let c = g.get_node(&file("/r/b.txt"));
    assert_ne!(a, c);
    assert_eq!(g.node_count(), 2);
}

#[test]
fn borrowing_and_consuming_lookup_agree() {
    let mut g = HashSetGraph::new();
    let a = g.get_node(&dir("/r/d"));
    let b = g.get_node_move(dir("/r/d"));
    assert_eq!(a, b);
    assert_eq!(g.node_count(), 1);
}

#[test]
fn file_and_directory_of_same_path_are_distinct_nodes() {
    let mut g = HashSetGraph::new();
    let a = g.get_node(&file("/r/x"));
    let b = g.get_node(&dir("/r/x"));
    assert_ne!(a, b);
    assert_eq!(g.node_count(), 2);
}

#[test]
fn update_edge_creates_missing_endpoints() {
    let mut g = HashSetGraph::new();
    g.update_edge(&dir("/r"), &file("/r/a.txt"), Relation::Child);
    assert_eq!(g.node_count(), 2);
    assert_eq!(g.edge_count(), 1);
    assert!(g.contains_edge(&dir("/r"), &file("/r/a.txt"), Relation::Child));
    assert!(!g.contains_edge(&file("/r/a.txt"), &dir("/r"), Relation::Child));
}

#[test]
fn update_edge_is_idempotent_per_triple() {
    let mut g = HashSetGraph::new();
    g.update_edge(&dir("/r"), &file("/r/a.txt"), Relation::Child);
    g.update_edge(&dir("/r"), &file("/r/a.txt"), Relation::Child);
    assert_eq!(g.edge_count(), 1);
}

#[test]
fn relations_between_same_pair_coexist() {
    let mut g = HashSetGraph::new();
    let tag = TagGraphNode::Tag("red".to_string());
    g.update_edge(&file("/r/a.txt"), &tag, Relation::HasTag);
    g.update_edge(&file("/r/a.txt"), &tag, Relation::TagAssignedTo);
    assert_eq!(g.edge_count(), 2);
    assert!(g.contains_edge(&file("/r/a.txt"), &tag, Relation::HasTag));
    assert!(g.contains_edge(&file("/r/a.txt"), &tag, Relation::TagAssignedTo));
}

#[test]
fn enumeration_resolves_handles_to_values() {
    let mut g = HashSetGraph::new();
    g.update_edge(&TagGraphNode::RootTag, &TagGraphNode::Tag("blue".to_string()), Relation::HasTag);
    assert_eq!(g.edge_count(), 1);
    let e = g.edge_at(0);
    assert_eq!(*g.node_at(e.from), TagGraphNode::RootTag);
    assert_eq!(*g.node_at(e.to), TagGraphNode::Tag("blue".to_string()));
    assert_eq!(e.rel, Relation::HasTag);
}

#[test]
fn edges_can_be_restricted_by_relation() {
    let mut g = HashSetGraph::new();
    g.update_edge(&dir("/r"), &file("/r/a.txt"), Relation::Child);
    g.update_edge(&file("/r/a.txt"), &dir("/r"), Relation::Parent);
    g.update_edge(&file("/r/a.txt"), &TagGraphNode::Tag("red".to_string()), Relation::HasTag);
    let children = g.edges_by_relation(Relation::Child);
    assert_eq!(children.len(), 1);
    assert_eq!(*g.node_at(children[0].from), dir("/r"));
    assert_eq!(*g.node_at(children[0].to), file("/r/a.txt"));
    let tags = g.edges_by_relation(Relation::HasTag);
    assert_eq!(tags.len(), 1);
    assert_eq!(tags[0].rel, Relation::HasTag);
    let none = g.edges_by_relation(Relation::TagAssignedTo);
    assert!(none.is_empty());
}
