//! What the library computes from a repository's history: file histories,
//! files that change together, differences
//! between snapshots, and which paths can be written out for a comparison.
pub mod compare;
pub mod history;
pub mod timetravel;
