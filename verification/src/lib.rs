//! A content-addressed object store in the on-disk object model of git:
//! blobs and trees in their canonical byte form, named by the SHA-1 of that
//! form and kept zlib-compressed.
//!
//! Nothing here touches a file system. A caller reads files and directories
//! into the plain values of [`worktree`], lets an [`store::ObjectStore`] hold
//! the objects, and writes each of them where [`digest::object_location`]
//! says.
//!
//! - [`codec`]: the canonical form of an object, written and read.
//! - [`digest`]: SHA-1 digests, their hexadecimal form, the place they name.
//! - [`compress`]: zlib streams.
//! - [`store`]: objects by their digests: put, get, read a blob, read a tree.
//! - [`tree`]: tree entries and the payload of a tree.
//! - [`order`]: the order of the entries of a tree.
//! - [`worktree`]: a directory as plain values.
//! - [`builder`]: the tree of a directory, built object by object.
//! - [`command`]: the commands of the tool over all of these.
//! - [`bytes`], [`decimal`], [`utils`]: helpers.

pub mod builder;
pub mod bytes;
pub mod codec;
pub mod command;
pub mod compress;
pub mod decimal;
pub mod digest;
pub mod error;
pub mod order;
pub mod store;
pub mod tree;
pub mod utils;
pub mod worktree;
