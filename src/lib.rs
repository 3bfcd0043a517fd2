//! Metadata indexing for a local image gallery.
//!
//! Each image may carry a sidecar record (source, author, tags). Given the
//! sidecar files found under the metadata root, this library builds the
//! reverse indexes by source, author and tag, the sorted set of tags and
//! the ranked tag counts. It also names sidecar files, picks and orders
//! image files and folders, and decides what loading a sidecar yields.
pub mod text;
pub mod model;
pub mod groups;
pub mod tags;
pub mod listing;
pub mod laws;
