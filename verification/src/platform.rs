//! Platform-facing rules: how sources are attached, read alignment for raw
//! devices, recovered-filename sanitisation, device paths, and the requests a
//! privileged helper accepts.

use vstd::prelude::*;
use crate::candidate::SourceId;

pub mod align;
pub mod describe;
pub mod disk_path;
pub mod filename;
pub mod plist;
pub mod protocol;

verus! {

/// How a source is attached, which determines whether elevation is required.
#[derive(Clone, Copy, Debug, PartialEq, Eq)]
pub enum SourceKind {
    /// A file-backed image. Never requires elevation.
    Image,
    /// A whole physical drive (`/dev/rdiskN`, `\\.\PhysicalDriveN`).
    PhysicalDrive,
    /// A mounted volume (`/dev/rdiskNsM`, `\\.\X:`).
    Volume,
}

impl SourceKind {
    /// Raw device access requires elevation; images do not. This is what keeps
    /// the image-first path unprivileged on every platform.
    pub fn requires_elevation(self) -> (r: bool)
        ensures
            r == !(self is Image),
    {
        match self {
            SourceKind::Image => false,
            _ => true,
        }
    }
}

/// Identity and geometry of a platform device.
///
/// Identity is deliberately not a path: drive letters and `/dev` node numbers
/// are reassignable, so they cannot anchor resume or source/destination
/// overlap checks.
#[derive(Clone, Debug, PartialEq, Eq)]
pub struct DeviceInfo {
    pub id: SourceId,
    pub kind: SourceKind,
    /// Platform-native path used to open the device.
    pub path: String,
    /// Human-readable model or volume label, for display only. Never trusted
    /// for identity or filesystem classification.
    pub display_name: Option<String>,
    pub capacity: u64,
    /// Logical sector size. Reads are aligned to this; never assume 512.
    pub logical_sector_size: u64,
    /// Physical sector size where reported (4096 on 4Kn and 512e media).
    pub physical_sector_size: Option<u64>,
    pub removable: bool,
}

impl DeviceInfo {
    /// Whether opening this device needs elevated privileges.
    pub fn requires_elevation(&self) -> (r: bool)
        ensures
            r == !(self.kind is Image),
    {
        self.kind.requires_elevation()
    }
}

} // verus!
