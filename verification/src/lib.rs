//! Code-intelligence core: an indexed view of one or more source trees with
//! symbol extraction, scoped search, and agent annotations.
pub mod config;
pub mod annotations;
pub mod cache;
pub mod content;
pub mod session;
pub mod state;
pub mod strmap;
pub mod structure;
pub mod walker;
pub mod watcher;
pub mod symbol;
pub mod symbol_ops;
pub mod symbol_table;
pub mod errors;
pub mod file_entry;
pub mod file_tree;
pub mod history;
pub mod parser;
pub mod queries;
pub mod text;
