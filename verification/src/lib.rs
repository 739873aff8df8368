//! Path search for an interactive file picker: the entries found under a
//! directory are matched against a typed query by ordered-subsequence
//! scoring, filtered, ranked, and exchanged through buffers of fixed
//! capacity.
//!
//! - `walk` records the entries of a directory tree, told by its caller
//!   what each directory holds; `walk_laws` and `path_laws` say what it
//!   records of a tree.
//! - `score` scores one candidate against one query; `score_laws` and
//!   `space_laws` say when there is a score and how high it is.
//! - `filter` keeps and ranks the entries that a query matches;
//!   `filter_laws` says what each form of a query keeps.
//! - `transfer` writes entries into a caller's buffers and reads them back.
//! - `entry`, `options`, `text` and `order` hold what these share: entries
//!   and their kinds, the options of a search, text helpers, and sorting.

pub mod entry;
pub mod filter;
pub mod filter_laws;
pub mod options;
pub mod order;
pub mod path_laws;
pub mod score;
pub mod score_laws;
pub mod space_laws;
pub mod text;
pub mod transfer;
pub mod walk;
pub mod walk_laws;

pub use entry::{FileHit, FileMode};
pub use filter::{filter, ScoredHit};
pub use options::{
    set_contains_filter, set_ignore_case, set_ignore_whitespace, set_match_path,
    set_suffix_filter, set_user_input, MatchOptions,
};
pub use score::fzf;
pub use text::string_from_wstr;
pub use transfer::{filter_ffi, walk_ffi, Data};
pub use walk::{walk, DirItem, Walker};
