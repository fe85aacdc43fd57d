//! A tree of lazily populated nodes with cursor-based traversal.
//!
//! Nodes are populated when a cursor visits them and released when the last
//! cursor leaves them. Cursors move vertically (to a parent or a child) and
//! horizontally (to a sibling, or across branches).
pub mod node;
pub mod visits;
pub mod tree;
pub mod cursor;
pub mod laws;

pub use cursor::Cursor;
pub use node::Node;
pub use tree::Tree;
