//! The logic of `ish`, an interactive shell: line editing, parsing, expansion,
//! completion, history and the decisions of the prompt loop.
pub mod alias;
pub mod builtin;
pub mod byte_paths;
pub mod candidates;
pub mod commands;
pub mod complete;
pub mod completing;
pub mod config;
pub mod denv;
pub mod dirs;
pub mod editor;
pub mod env_changes;
pub mod env_files;
pub mod error;
pub mod exec;
pub mod expand;
pub mod external;
pub mod finder;
pub mod frecency;
pub mod fuzzy;
pub mod history;
pub mod history_cache;
pub mod history_log;
pub mod history_store;
pub mod index;
pub mod input;
pub mod job;
pub mod laws;
pub mod lex;
pub mod lexable;
pub mod line;
pub mod ls;
pub mod math;
pub mod parse;
pub mod path;
pub mod pickers;
pub mod prompt;
pub mod render;
pub mod rewrite;
pub mod session;
pub mod sort;
pub mod startup;
pub mod term;
pub mod text;
pub mod utf8_bytes;
