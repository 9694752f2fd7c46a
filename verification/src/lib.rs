//! Core data structures of a terminal text editor: the byte buffer's tree, the menu
//! configuration, and the state and layout of the menu bar.

pub mod chunk_tree;
pub mod config;
pub mod ui;
