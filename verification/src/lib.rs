//! A code review engine whose logic is verified: changed files and their
//! diffs read from Git output, the review session that the front ends
//! navigate, the file trees they show, the data-flow graph of a Rust file,
//! and the texts they draw.

pub mod analysis;
pub mod cli;
pub mod engine;
pub mod file_tree;
pub mod git;
pub mod laws;
pub mod nav_tree;
pub mod order;
pub mod session;
pub mod snapshot_view;
pub mod strset;
pub mod text;
pub mod tui;
pub mod view_laws;
pub mod views;
