//! `etree`: an XML document model stored as a flat, pre-order array of nodes,
//! with navigation, mutation, re-indentation and a small path query language.

pub mod node;
pub mod text;
pub mod tree;
pub mod xpath;
pub mod query;
pub mod events;
pub mod laws;

pub use node::ETreeNode;
pub use tree::ETree;
pub use query::XPathIterator;
pub use events::{XmlEvent, OutEvent, StructureError};
