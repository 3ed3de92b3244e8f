//! exFAT recovery: boot geometry, allocation bitmap, directory entry sets and
//! the extents a file's stream describes.
//!
//! Every structure here is parsed from untrusted on-disk metadata. Derived
//! offsets are checked and bounds-validated before any read, and no parser
//! allocates from a length it has not validated.

pub mod bitmap;
pub mod boot;
pub mod deleted;
pub mod directory;
pub mod allocation;
pub mod extents;
