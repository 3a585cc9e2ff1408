//! A content-addressed object store in the style of Git's object
//! database, built for a package-registry testbed.
//!
//! Objects are tagged envelopes named by the SHA-256 digest of their
//! framing.  They live either loose, one zlib-deflated file per address,
//! or packed into a single file with a fanout-indexed, sorted side index;
//! compaction turns the former into the latter.  Signed events carry
//! claims, parent links and an Ed25519 signature over their byte-exact
//! serialization, and a DAG iterator walks their ancestors newest first.

use vstd::prelude::*;

pub mod bytesutil;
pub mod envelope;
pub mod errors;
pub mod event;
pub mod hexcode;
pub mod keys;
pub mod loose;
pub mod middleware;
pub mod multiple;
pub mod numcodec;
pub mod object;
pub mod packed;
pub mod packument;
pub mod varint;
pub mod zlib;

verus! {

/// A reference to a package, in any of the registry's naming schemes.
pub trait PackageArg {

}

/// A package reference that renames another one.
#[derive(Debug, Clone, PartialEq, Eq)]
pub struct AliasArg<T: PackageArg> {
    pub name: Vec<u8>,
    pub package: T,
}

impl<T: PackageArg> PackageArg for AliasArg<T> {

}

} // verus!
