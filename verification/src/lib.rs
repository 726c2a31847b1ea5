//! Leaf: a local library of HTML documents.

pub mod text;
pub mod paths;
pub mod tags;
pub mod inliner;
pub mod parser;
pub mod db;
pub mod library;
pub mod sort;
pub mod vault;
pub mod scan;
pub mod watcher;
