//! A small parser for HTML-like markup.
//!
//! A document is scanned into a flat sequence of tag, text and comment nodes,
//! which is then nested into a tree under a synthetic `root` tag:
//!
//! - [`parser::input`] holds the cursor over the source text,
//! - [`parser::grammar`] states what the tokenizer reads,
//! - [`parser::nesting`] states how the nodes are nested,
//! - [`parser`] reads and nests, and [`parse`] joins the two,
//! - [`dom`] holds the tree, [`extent`] searches it,
//! - [`parser::tags`], [`parser::attributes`] and [`parser::markup`] state
//!   what parsing makes of tags as they are written and of documents of
//!   properly paired tags and text.
//!
//! This is no HTML engine: it knows no entities, no encodings and none of
//! the elements that HTML closes by itself, and it does not mend documents
//! whose tags do not pair.

pub mod dom;
pub mod extent;
pub mod parser;
pub mod text;

pub use extent::get_first_child;
pub use extent::get_node_by_attribute;
pub use extent::get_node_by_name;
pub use extent::get_nodes_by_attribute;
pub use extent::get_nodes_by_name;
pub use extent::Attribute;
pub use parser::parse;
