//! A hierarchical configuration store: a tree of named scalar values, nested
//! scopes, and ordered sequences of scopes, with scope-aware fallback lookup.

pub mod format;
pub mod node;
pub mod path;
pub mod result;
pub mod tree;

pub use format::toml::TOML;
pub use node::Kind;
pub use node::Node;
pub use node::Item;
pub use result::Error;
pub use tree::Tree;
