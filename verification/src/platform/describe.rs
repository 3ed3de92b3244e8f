//! Turns what a disk utility reports about a device into a device
//! description, treating every value as untrusted.

use vstd::prelude::*;
use crate::candidate::SourceId;
use crate::platform::plist::{
    plist_bool, plist_integer, plist_string, plist_string_array, spec_plist_bool, spec_plist_integer,
    spec_plist_string, spec_plist_string_array,
};
use crate::platform::{DeviceInfo, SourceKind};

use crate::range::{io_error, unsupported, RecoveryResult};
use crate::text::{chars_of, push_str, string_of};
use crate::fat32::{is_pow2, pow2_u64};

verus! {

/// Upper bound on a plausible sector size; anything larger is a parse error
/// or a hostile value, not a real device.
pub const MAX_SECTOR_SIZE: u64 = 65_536;

/// Whether `c` is an ASCII letter or digit.
pub open spec fn ascii_alphanumeric(c: char) -> bool {
    ('a' <= c <= 'z') || ('A' <= c <= 'Z') || ('0' <= c <= '9')
}

/// Whether a reported identifier may name a device: a non-empty run of ASCII
/// letters and digits starting with `disk`, so it can reach neither a command
/// line nor a path as anything else.
pub open spec fn identifier_ok(id: Seq<char>) -> bool {
    &&& id.len() >= 4
    &&& id.take(4) == "disk"@
    &&& forall|i: int| 0 <= i < id.len() ==> ascii_alphanumeric(#[trigger] id[i])
}

/// Whether a reported identifier may name a device.
pub fn identifier_acceptable(identifier: &str) -> (r: bool)
    ensures
        r == identifier_ok(identifier@),
{
    let chars = chars_of(identifier);
    proof {
        reveal_strlit("disk");
    }
    if chars.len() < 4 || chars[0] != 'd' || chars[1] != 'i' || chars[2] != 's' || chars[3] != 'k' {
        proof {
            if chars@.len() >= 4 {
                assert(chars@.take(4) != "disk"@ ) by {
                    if chars@.take(4) == "disk"@ {
                        assert(chars@.take(4)[0] == chars@[0]);
                        assert(chars@.take(4)[1] == chars@[1]);
                        assert(chars@.take(4)[2] == chars@[2]);
                        assert(chars@.take(4)[3] == chars@[3]);
                    }
                }
            }
        }
        return false;
    }
    assert(chars@.take(4) =~= "disk"@);
    let mut i: usize = 0;
    while i < chars.len()
        invariant
            i <= chars@.len(),
            chars@ == identifier@,
            forall|k: int| 0 <= k < i ==> ascii_alphanumeric(#[trigger] chars@[k]),
        decreases chars@.len() - i,
    {
        let c = chars[i];
        if !(('a' <= c && c <= 'z') || ('A' <= c && c <= 'Z') || ('0' <= c && c <= '9')) {
            assert(!ascii_alphanumeric(chars@[i as int]));
            return false;
        }
        i = i + 1;
    }
    true
}

/// The identifiers a device list reports that may name a device, in order.
pub open spec fn acceptable_identifiers(ids: Seq<Seq<char>>) -> Seq<Seq<char>>
    decreases ids.len(),
{
    if ids.len() == 0 {
        Seq::empty()
    } else {
        let rest = acceptable_identifiers(ids.drop_last());
        if identifier_ok(ids.last()) {
            rest.push(ids.last())
        } else {
            rest
        }
    }
}

/// The device identifiers a device-list plist names under `AllDisks`,
/// leaving out any that could not safely name a device.
pub fn device_identifiers(plist: &str) -> (r: Vec<String>)
    ensures
        r@.map_values(|s: String| s@) == acceptable_identifiers(spec_plist_string_array(plist@, "AllDisks"@)),
{
    let all = plist_string_array(plist, "AllDisks");
    let ghost ids = all@.map_values(|s: String| s@);
    let mut out: Vec<String> = Vec::new();
    let mut i: usize = 0;
    while i < all.len()
        invariant
            i <= all@.len(),
            ids == all@.map_values(|s: String| s@),
            out@.map_values(|s: String| s@) == acceptable_identifiers(ids.take(i as int)),
        decreases all@.len() - i,
    {
        assert(ids.take(i + 1).drop_last() == ids.take(i as int));
        assert(ids.take(i + 1).last() == all@[i as int]@);
        if identifier_acceptable(all[i].as_str()) {
            let ghost before = out@;
            out.push(string_of(all[i].as_str()));
            assert(out@.map_values(|s: String| s@) =~= before.map_values(|s: String| s@).push(all@[i as int]@));
        }
        i = i + 1;
    }
    assert(ids.take(all@.len() as int) == ids);
    out
}

/// The capacity a device report gives: `Size`, else `IOKitSize`.
pub open spec fn reported_capacity(plist: Seq<char>) -> Option<u64> {
    match spec_plist_integer(plist, "Size"@) {
        Some(v) => Some(v),
        None => spec_plist_integer(plist, "IOKitSize"@),
    }
}

/// The logical sector size a device report gives, 512 when it gives none.
pub open spec fn reported_sector_size(plist: Seq<char>) -> u64 {
    match spec_plist_integer(plist, "DeviceBlockSize"@) {
        Some(v) => v,
        None => 512,
    }
}

/// Whether a device is a whole disk: as the report says, else when its
/// identifier has no partition suffix.
pub open spec fn reported_whole(plist: Seq<char>, id: Seq<char>) -> bool {
    match spec_plist_bool(plist, "WholeDisk"@) {
        Some(b) => b,
        None => !id.contains('s'),
    }
}

/// The name a device report gives for display: a non-empty volume name,
/// else the media name, else the registry entry name.
pub open spec fn reported_name(plist: Seq<char>) -> Option<Seq<char>> {
    match spec_plist_string(plist, "VolumeName"@) {
        Some(n) if n.len() > 0 => Some(n),
        _ => match spec_plist_string(plist, "MediaName"@) {
            Some(m) => Some(m),
            None => spec_plist_string(plist, "IORegistryEntryName"@),
        },
    }
}

/// Whether a device is removable: `RemovableMediaOrExternalDevice`, else
/// `Removable`, else not.
pub open spec fn reported_removable(plist: Seq<char>) -> bool {
    match spec_plist_bool(plist, "RemovableMediaOrExternalDevice"@) {
        Some(b) => b,
        None => match spec_plist_bool(plist, "Removable"@) {
            Some(b) => b,
            None => false,
        },
    }
}

/// Whether `s` holds the character `c`.
fn has_char(s: &str, c: char) -> (r: bool)
    ensures
        r == s@.contains(c),
{
    let chars = chars_of(s);
    let mut i: usize = 0;
    while i < chars.len()
        invariant
            i <= chars@.len(),
            chars@ == s@,
            forall|k: int| 0 <= k < i ==> chars@[k] != c,
        decreases chars@.len() - i,
    {
        if chars[i] == c {
            assert(s@[i as int] == c);
            return true;
        }
        i = i + 1;
    }
    false
}

/// Describes device `identifier` from the plist a disk utility printed for
/// it. A report without a non-zero capacity, or with a sector size that is
/// not a power of two up to 64 KiB, is refused.
pub fn describe_plist(identifier: &str, plist: &str) -> (r: RecoveryResult<DeviceInfo>)
    ensures
        r is Ok <==> ({
            let cap = reported_capacity(plist@);
            let sector = reported_sector_size(plist@);
            &&& cap is Some && cap->0 != 0
            &&& sector != 0 && is_pow2(sector as int) && sector <= MAX_SECTOR_SIZE
        }),
        r matches Err(e) ==> (reported_capacity(plist@) is None || reported_capacity(plist@)->0 == 0) && e is IoFailure
            || e is Unsupported,
        r matches Ok(info) ==> {
            &&& info.id.0@ == identifier@
            &&& info.kind == if reported_whole(plist@, identifier@) {
                SourceKind::PhysicalDrive
            } else {
                SourceKind::Volume
            }
            &&& info.path@ == "/dev/r"@ + identifier@
            &&& info.capacity == reported_capacity(plist@)->0
            &&& info.logical_sector_size == reported_sector_size(plist@)
            &&& info.physical_sector_size == spec_plist_integer(plist@, "DeviceBlockSize"@)
            &&& info.removable == reported_removable(plist@)
            &&& match info.display_name {
                Some(n) => reported_name(plist@) == Some(n@),
                None => reported_name(plist@) is None,
            }
        },
{
    let capacity = match plist_integer(plist, "Size") {
        Some(v) => v,
        None => match plist_integer(plist, "IOKitSize") {
            Some(v) => v,
            None => return Err(io_error("device reports no usable capacity")),
        },
    };
    if capacity == 0 {
        return Err(io_error("device reports a zero capacity"));
    }
    let block = plist_integer(plist, "DeviceBlockSize");
    let logical_sector_size = match block {
        Some(v) => v,
        None => 512,
    };
    if logical_sector_size == 0 || !pow2_u64(logical_sector_size) || logical_sector_size > MAX_SECTOR_SIZE {
        return Err(unsupported("device reports an implausible sector size"));
    }
    let whole = match plist_bool(plist, "WholeDisk") {
        Some(b) => b,
        None => !has_char(identifier, 's'),
    };
    let kind = if whole {
        SourceKind::PhysicalDrive
    } else {
        SourceKind::Volume
    };
    let mut path = string_of("/dev/r");
    push_str(&mut path, identifier);
    let volume_name = match plist_string(plist, "VolumeName") {
        Some(n) => if chars_of(n.as_str()).len() > 0 {
            Some(n)
        } else {
            None
        },
        None => None,
    };
    let display_name = match volume_name {
        Some(n) => Some(n),
        None => match plist_string(plist, "MediaName") {
            Some(m) => Some(m),
            None => plist_string(plist, "IORegistryEntryName"),
        },
    };
    let removable = match plist_bool(plist, "RemovableMediaOrExternalDevice") {
        Some(b) => b,
        None => match plist_bool(plist, "Removable") {
            Some(b) => b,
            None => false,
        },
    };
    Ok(
        DeviceInfo {
            id: SourceId::new(identifier),
            kind,
            path,
            display_name,
            capacity,
            logical_sector_size,
            physical_sector_size: block,
            removable,
        },
    )
}

} // verus!
