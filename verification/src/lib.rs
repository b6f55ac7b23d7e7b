//! An in-memory document model: a tree of typed, taggable nodes addressed by a
//! compact path language, each node carrying a small typed configuration.

pub mod child_map;
pub mod config;
pub mod error;
pub mod number;
pub mod source;
pub mod string_map;
pub mod text;
pub mod utils;
pub mod view;
pub mod xpath;
