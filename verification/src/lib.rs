//! Locates a directory by name inside a configured root, by breadth-first
//! search over the directory tree, with configurable filtering of hidden and
//! `vendor` folders and optional alphabetical ordering of each listing.
//!
//! The search logic is pure: directory contents reach it as plain values
//! ([`listing::DirEntry`]), either supplied step by step through the
//! incremental [`engine::Search`], or taken from an in-memory tree
//! ([`model::FsModel`]) by [`model::finddir`].  Where the search starts is
//! decided once, by [`config::RootChoice::resolve`], and passed in.

pub mod config;
pub mod engine;
pub mod listing;
pub mod model;
pub mod paths;
