//! Verified core of a frecency-ranked file finder: the bigram content index,
//! the flat file-list format, the consistent-hash worker ring, the IPC wire
//! formats and the text output rendered for search tools.

pub mod bitset;
pub mod bigram;
pub mod types;
pub mod git;
pub mod text;
pub mod file_list;
pub mod hashing;
pub mod ring;
pub mod routing;
pub mod lockfile;
pub mod paths;
pub mod config;
pub mod wire;
pub mod output;
pub mod instructions;
pub mod grep;
pub mod cursor;
pub mod sort;
pub mod score;
pub mod watcher;
pub mod ignore;
pub mod master;
pub mod engine;
pub mod ffi_json;
pub mod fuzzy;
pub mod listing;
pub mod options;
pub mod fallback;
pub mod overlay;
