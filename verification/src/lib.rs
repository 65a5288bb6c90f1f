//! Duplicate detection and album relation analysis for a tagged music library.
//!
//! The library works on a snapshot of records, one for each audio file, and decides what
//! to keep, what to delete and what to link. It reads no file and asks no question: the
//! program around it does, and hands over plain values.

pub mod text;
pub mod utils;
pub mod metadata;
pub mod library;
pub mod catalog;
pub mod cluster;
pub mod duplicates;
pub mod hierarchy;
pub mod dedup;
pub mod resolve;
pub mod fileops;
pub mod lives;
pub mod playlists;
pub mod cache;
