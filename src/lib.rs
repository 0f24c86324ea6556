//! Rewrites the entries of an m3u playlist so that each names a file found
//! under the playlist's own directory, matched on its trailing path segments.
pub mod cli;
pub mod index;
pub mod path;
pub mod playlist;

pub use cli::{default_depth, Args};
pub use index::{index_files, DirMap};
pub use playlist::{relativize, resolve_trimmed, rewrite_line};
