//! A tag graph for a file tree.
//!
//! Sidecar tag files (extension `.tags`) declare free-form tags for the
//! entries beside them; the library unifies those tag assignments and the
//! directory structure itself into one directed, multi-relation graph.
//! Every logical filesystem entity is represented by exactly one node,
//! however many times and from whichever pass it is encountered.
//!
//! The library works on plain descriptions of the tree: which tag files
//! were found, what their directories contain, and which entries a walk
//! of the tree visited. Gathering those descriptions from a real
//! filesystem is the caller's business.

pub mod assemble;
pub mod graph;
pub mod lines;
pub mod names;
pub mod node;
pub mod scan;
pub mod walk;

pub use assemble::get_tagged_files;
pub use graph::GraphEdge;
pub use graph::HashSetGraph;
pub use lines::parse_tag_lines;
pub use node::Error;
pub use node::NodeView;
pub use node::Relation;
pub use node::TagGraphNode;
pub use scan::add_tags_to_graph;
pub use scan::match_targets;
pub use scan::Sibling;
pub use scan::TagFileEntry;
pub use walk::add_file_structure_to_graph;
pub use walk::WalkEntry;
