//! A mutable tree-storage backend for an external markup tree-construction
//! algorithm.
//!
//! The library owns an arena of nodes addressed by generational handles and
//! offers the mutation protocol the external algorithm drives: node
//! creation, appending, sibling insertion, detachment, child-list transfer,
//! text coalescing, attribute merging, template-content isolation, doctype
//! placement and diagnostic recording.  Every operation carries a contract
//! describing exactly how the tree changes, and the parent/child link
//! consistency of the arena is an invariant proved across all of them.

pub mod arena;
pub mod dom;
pub mod laws;
pub mod node;

pub use arena::Arena;
pub use arena::Slot;
pub use dom::GenerationalArenaDom;
pub use node::Attribute;
pub use node::DomError;
pub use node::ElementFlags;
pub use node::Handle;
pub use node::Node;
pub use node::NodeData;
pub use node::NodeOrText;
pub use node::QualName;
pub use node::QuirksMode;
