//! Session analytics and model explorer for the pi coding agent: the
//! verified core of the `pii` command-line tool.
//!
//! The modules hold what the tool decides and computes: the summary of a
//! session log, the session tree and its navigation, the pickers' ranking
//! and key handling, the settings, the session list and its query, the
//! heatmap grid, dates, number formatting, and the matching of model
//! records. Terminal, database, network and file access live in the program
//! around this library.
pub mod text;
pub mod order;
pub mod numfmt;
pub mod keys;
pub mod fuzzy;
pub mod tree;
pub mod tree_view;
pub mod tree_picker;
pub mod picker;
pub mod settings;
pub mod progress;
pub mod session;
pub mod dates;
pub mod listing;
pub mod heatmap;
pub mod models;
pub mod cli;

pub use cli::{Cli, Commands};
pub use picker::Selection;
pub use progress::Progress;
pub use numfmt::compact_num;
pub use text::truncate;
