//! Clipboard history core: capture deduplication, an ordered history store,
//! and fuzzy-subsequence ranking of stored entries against a typed query.

pub mod entry;
pub mod event;
pub mod fzf;
pub mod media;
pub mod search;
pub mod store;
pub mod text;
pub mod watcher;
