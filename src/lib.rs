//! Codec and storage-layout primitives for pack archives of a content-addressed
//! object store: fixed-width and variable-length integer decoding, bounded zlib
//! block reading, and pack archive discovery by file name.
use vstd::prelude::*;

pub mod error;
pub mod hash;
pub mod source;
pub mod varint;
pub mod partial;
pub mod zlib;
pub mod pack;
pub mod key;
