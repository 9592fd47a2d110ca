//! Structure analysis of source repositories: import graphs, resolution of
//! import specifiers to files, cycle detection and related checks.

pub mod text;
pub mod order;
pub mod model;
pub mod graph;
pub mod parse;
pub mod resolve;
pub mod lsp;
pub mod paths;
pub mod walk;
pub mod watch;
pub mod findings;
pub mod style;
pub mod git;
pub mod analyse;
pub mod symbols;
pub mod config;
pub mod tour;
pub mod repo;
pub mod export;
pub mod workspace;
pub mod baseline;
pub mod cache;
