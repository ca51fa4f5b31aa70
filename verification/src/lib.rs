//! A minimal content-addressable object store: blobs, trees and commits are
//! persisted under the SHA-1 digest of their serialized form, zlib-compressed,
//! and reconstructed on demand.

pub mod bytes;
pub mod compress;
pub mod decimal;
pub mod hashing;
pub mod kind;
pub mod object;
pub mod store;
pub mod tree;
