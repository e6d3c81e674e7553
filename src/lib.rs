//! A bookmark manager for directories: bookmarks are kept one per line in a
//! text file, with uniqueness by path, update on re-save, deletion by path and
//! pruning of entries whose directory has gone.
pub mod bookmark;
pub mod store;
pub mod storage;
pub mod dao;
pub mod repository;
pub mod path;
pub mod selector;
pub mod usecase;
