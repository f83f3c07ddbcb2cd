//! Overlaying modules on a mounted directory tree with bind mounts and
//! synthetic directories alone.
//!
//! A pass works on plain values: what each module's directory lists and what
//! the target lists, as they were read. From these the library
//! - merges, level by level, every module's copy of a directory into one run
//!   of entries, each name once, from the module of highest precedence
//!   ([`projection`], with its definition in [`merge`]);
//! - builds the tree of nodes that says of each path whether it is bound from
//!   a module, deleted, or a directory, and whether a directory has to be
//!   made synthetic ([`tree`], [`node`]);
//! - plans the operations that put the tree onto the target ([`mount`]).
//!
//! [`deploy`] runs the three in a row. What holds of the merge and of the
//! tree for all inputs is stated in [`laws`], and where the operations of a
//! plan land in [`landing`].

pub mod attr;
pub mod deploy;
pub mod error;
pub mod landing;
pub mod laws;
pub mod merge;
pub mod mount;
pub mod names;
pub mod node;
pub mod projection;
pub mod snapshot;
pub mod tree;
