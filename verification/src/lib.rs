//! An anonymous discussion board core: threads and replies persisted in an
//! embedded key-value store, identifier allocation by prefix counting,
//! recency-sorted pagination, and a media ingestion pipeline that validates
//! uploads and derives bounded-size thumbnails.
//!
//! Records are stored in this crate's own length-framed binary format,
//! proved to decode back to what was encoded; a store written by software
//! using another record format is read as empty rather than migrated.

pub mod keys;
pub mod laws;
pub mod media;
pub mod pages;
pub mod records;
pub mod render;
pub mod repo;
pub mod store;
pub mod text;

