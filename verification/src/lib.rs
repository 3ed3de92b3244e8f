use vstd::prelude::*;

pub mod apfs;
pub mod bytes;
pub mod candidate;
pub mod carving;
pub mod fat32;
pub mod imaging;
pub mod pipeline;
pub mod partition;
pub mod platform;
pub mod probe;
pub mod device;
pub mod engine;
pub mod exfat;
pub mod range;
pub mod text;
pub mod unicode;

verus! {

} // verus!
