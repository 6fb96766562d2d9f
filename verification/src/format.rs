//! Adapters from textual document formats to configuration trees.

mod parser;
pub mod toml;
