//! Verified core of a workspace-maintenance tool.
//!
//! The tool keeps a Rust workspace's manifest in sync with a group of
//! toolchain crates: it rewrites dependency entries to point at a chosen
//! source (registry version, git revision or branch, or a local path),
//! maintains the patch table that swaps those sources in, prunes patch
//! entries the resolver reports as unused, and synchronises the package's
//! own version with the version of an anchor crate found in the lock file.
//!
//! The manifest and lock file are modelled as plain values (tables of
//! byte-string keys and dependency entries); the unverified binary converts
//! between the on-disk TOML documents and this model and performs all I/O.

pub mod bytes;
pub mod version;
pub mod model;
pub mod sort;
pub mod lock;
pub mod rewrite;
pub mod patch;
pub mod script;
