//! An encrypted single-file container: named byte blobs behind one AES-256-CBC
//! layer, with an in-archive table of contents.
use vstd::prelude::*;

pub mod codec;
pub mod crypto;
pub mod format;
pub mod datafile;
pub mod laws;
