//! A read-only, programmatically-defined tree of named entries (files and
//! directories), exposed through an inode router that answers the metadata
//! and namespace operations of a kernel-facing filesystem protocol.
//!
//! The crate has three layers:
//! - [`identity`]: process-local opaque tokens that identify tree entries.
//! - [`handler`]: the immutable handler tree of files and directories.
//! - [`fs`]: the router that binds identities to kernel-visible inode
//!   numbers lazily and answers `getattr`, `lookup` and `readdir`.

pub mod fs;
pub mod handler;
pub mod identity;

pub use fs::RoutableFilesystem;
pub use identity::ItemIdentity;
