//! An embedded, directory-scoped metadata store.
//!
//! The store attaches tags, comments, and named collections to filesystem
//! paths without touching the files themselves. A marker directory found by
//! walking parent directories holds the store body in one of three
//! interchangeable on-disk formats. This crate holds the store engine: path
//! canonicalization into store keys, locator decisions, the multi-format
//! codec, the in-memory model with its mutation operations, and the
//! filter/sort query path.
use vstd::prelude::*;

pub mod text;
pub mod omap;
pub mod tags;
pub mod paths;
pub mod db;
pub mod locate;
pub mod query;
pub mod ops;
pub mod coll;
pub mod opener;
pub mod json;
pub mod binfmt;
pub mod codec;

verus! {

/// A store-level timestamp: seconds since the Unix epoch.
pub type Timestamp = i64;

} // verus!
