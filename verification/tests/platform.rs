use data_recovery::candidate::SourceId;
use data_recovery::platform::disk_path::destination_holds_source;
use data_recovery::platform::align::{align_read, AlignedRead};
use data_recovery::platform::describe::{describe_plist, device_identifiers, identifier_acceptable};
use data_recovery::platform::disk_path::raw_device_path;
use data_recovery::platform::filename::{sanitize_component, MAX_COMPONENT};
use data_recovery::platform::plist::{plist_bool, plist_integer, plist_string, plist_string_array};
use data_recovery::platform::protocol::{
    Operation, ProtocolRequest, MAX_READ_LENGTH, MAX_SOURCE_REF_LENGTH, PROTOCOL_VERSION,
};
use data_recovery::platform::{DeviceInfo, SourceKind};
use data_recovery::range::{ByteRange, RecoveryError};

const RESERVED_CHARS: &[char] = &['<', '>', ':', '"', '/', '\\', '|', '?', '*'];

const RESERVED_NAMES: &[&str] = &[
    "CON", "PRN", "AUX", "NUL", "COM1", "COM2", "COM3", "COM4", "COM5", "COM6", "COM7", "COM8", "COM9", "LPT1",
    "LPT2", "LPT3", "LPT4", "LPT5", "LPT6", "LPT7", "LPT8", "LPT9",
];

const SAMPLE: &str = r#"<plist version="1.0"><dict>
    <key>AllDisks</key><array>
        <string>disk0</string><string>disk0s1</string>
    </array>
    <key>Size</key><integer>500277792768</integer>
    <key>DeviceBlockSize</key><integer>4096</integer>
    <key>MediaName</key><string>APPLE SSD AP0512Z</string>
    <key>Removable</key><false/>
    <key>Internal</key><true/>
</dict></plist>"#;

const S: u64 = 512;
const CAP: u64 = 1 << 20;

fn s(input: &str) -> String {
    sanitize_component(input).name
}

fn aligned(offset: u64, length: u64) -> AlignedRead {
    align_read(ByteRange::new(offset, length).unwrap(), S, CAP).unwrap()
}

#[test]
fn ordinary_names_are_untouched() {
    let r = sanitize_component("holiday photo.jpg");
    assert_eq!(r.name, "holiday photo.jpg");
    assert!(!r.changed);
}

#[test]
fn reserved_characters_are_replaced() {
    assert_eq!(s(r#"a<b>c:d"e|f?g*h"#), "a_b_c_d_e_f_g_h");
    assert!(sanitize_component("a<b").changed);
}

#[test]
fn path_separators_cannot_escape_the_component() {
    assert_eq!(s("../../etc/passwd"), ".._.._etc_passwd");
    assert_eq!(s(r"..\..\windows"), ".._.._windows");
}

#[test]
fn reserved_device_names_are_prefixed() {
    assert_eq!(s("NUL"), "_NUL");
    assert_eq!(s("con"), "_con");
    assert_eq!(s("NUL.txt"), "_NUL.txt");
    assert_eq!(s("COM1.dat"), "_COM1.dat");
}

#[test]
fn similar_but_unreserved_names_are_kept() {
    assert_eq!(s("CONSOLE.txt"), "CONSOLE.txt");
    assert_eq!(s("COM10"), "COM10");
}

#[test]
fn trailing_dots_and_spaces_are_trimmed() {
    assert_eq!(s("report."), "report");
    assert_eq!(s("report   "), "report");
    assert_eq!(s("report. . "), "report");
}

#[test]
fn control_characters_are_replaced() {
    assert_eq!(s("a\u{0}b\tc\u{7f}"), "a_b_c_");
}

#[test]
fn empty_and_degenerate_names_get_a_placeholder() {
    assert_eq!(s(""), "unnamed");
    assert_eq!(s("..."), "unnamed");
    assert_eq!(s("   "), "unnamed");
}

#[test]
fn long_names_are_truncated_on_char_boundaries() {
    let long = "é".repeat(400);
    let out = s(&long);
    assert_eq!(out.chars().count(), MAX_COMPONENT);
    assert!(out.chars().all(|c| c == 'é'));
}

#[test]
fn unicode_names_are_preserved() {
    assert_eq!(s("café-漢字.txt"), "café-漢字.txt");
}

#[test]
fn output_is_always_usable() {
    let long = "x".repeat(900);
    for input in ["", "...", "NUL", "a/b", "\u{0}", "  . ", "COM9.tar.gz", long.as_str()] {
        let out = s(input);
        assert!(!out.is_empty());
        assert!(!out.chars().any(|c| RESERVED_CHARS.contains(&c) || (c as u32) < 0x20));
        assert!(!out.ends_with('.') && !out.ends_with(' '));
        assert!(out.chars().count() <= MAX_COMPONENT + 1);
        let stem = out.split('.').next().unwrap();
        assert!(!RESERVED_NAMES.iter().any(|r| r.eq_ignore_ascii_case(stem)));
    }
}

#[test]
fn images_do_not_require_elevation() {
    assert!(!SourceKind::Image.requires_elevation());
}

#[test]
fn raw_devices_require_elevation() {
    assert!(SourceKind::PhysicalDrive.requires_elevation());
    assert!(SourceKind::Volume.requires_elevation());
}

#[test]
fn device_elevation_follows_its_kind() {
    let info = DeviceInfo {
        id: SourceId::new("disk4"),
        kind: SourceKind::Volume,
        path: "/dev/rdisk4s1".to_string(),
        display_name: None,
        capacity: 4096,
        logical_sector_size: 512,
        physical_sector_size: Some(4096),
        removable: true,
    };
    assert!(info.requires_elevation());
}

#[test]
fn reads_arrays_integers_strings_and_booleans() {
    assert_eq!(plist_string_array(SAMPLE, "AllDisks"), vec!["disk0".to_string(), "disk0s1".to_string()]);
    assert_eq!(plist_integer(SAMPLE, "Size"), Some(500_277_792_768));
    assert_eq!(plist_integer(SAMPLE, "DeviceBlockSize"), Some(4096));
    assert_eq!(plist_string(SAMPLE, "MediaName").as_deref(), Some("APPLE SSD AP0512Z"));
    assert_eq!(plist_bool(SAMPLE, "Removable"), Some(false));
    assert_eq!(plist_bool(SAMPLE, "Internal"), Some(true));
}

#[test]
fn missing_keys_yield_nothing_rather_than_panicking() {
    assert!(plist_string_array(SAMPLE, "Absent").is_empty());
    assert_eq!(plist_integer(SAMPLE, "Absent"), None);
    assert_eq!(plist_string(SAMPLE, "Absent"), None);
    assert_eq!(plist_bool(SAMPLE, "Absent"), None);
}

#[test]
fn malformed_plists_do_not_panic() {
    for broken in [
        "",
        "<plist>",
        "<key>Size</key>",
        "<key>Size</key><integer>",
        "<key>Size</key><integer>not-a-number</integer>",
        "<key>AllDisks</key><array>",
        "<key>AllDisks</key></array><array>",
    ] {
        let _ = plist_string_array(broken, "AllDisks");
        let _ = plist_integer(broken, "Size");
        let _ = plist_string(broken, "MediaName");
        let _ = plist_bool(broken, "Removable");
    }
    assert_eq!(plist_integer("<key>Size</key><integer>not-a-number</integer>", "Size"), None);
}

#[test]
fn already_aligned_range_is_unchanged() {
    let a = aligned(1024, 512);
    assert_eq!(a.aligned.offset, 1024);
    assert_eq!(a.aligned.length, 512);
    assert_eq!(a.inner_offset, 0);
    assert_eq!(a.inner_length, 512);
}

#[test]
fn unaligned_start_rounds_down() {
    let a = aligned(100, 8);
    assert_eq!(a.aligned.offset, 0);
    assert_eq!(a.aligned.length, 512);
    assert_eq!(a.inner_offset, 100);
    assert_eq!(a.inner_length, 8);
}

#[test]
fn span_crossing_sector_boundary_covers_both() {
    let a = aligned(500, 24);
    assert_eq!(a.aligned.offset, 0);
    assert_eq!(a.aligned.length, 1024);
    assert_eq!(a.inner_offset, 500);
}

#[test]
fn tail_is_clamped_to_capacity() {
    let cap = 1000;
    let a = align_read(ByteRange::new(900, 100).unwrap(), S, cap).unwrap();
    assert_eq!(a.aligned.offset, 512);
    assert_eq!(a.aligned.end().unwrap(), cap);
    assert_eq!(a.inner_offset, 388);
}

#[test]
fn zero_length_is_preserved() {
    let a = aligned(700, 0);
    assert_eq!(a.inner_length, 0);
}

#[test]
fn four_kn_geometry_is_supported() {
    let a = align_read(ByteRange::new(5000, 10).unwrap(), 4096, CAP).unwrap();
    assert_eq!(a.aligned.offset, 4096);
    assert_eq!(a.aligned.length, 4096);
    assert_eq!(a.inner_offset, 904);
}

#[test]
fn rejects_non_power_of_two_sector_size() {
    assert!(matches!(align_read(ByteRange::new(0, 1).unwrap(), 513, CAP), Err(RecoveryError::Unsupported(_))));
    assert!(matches!(align_read(ByteRange::new(0, 1).unwrap(), 0, CAP), Err(RecoveryError::Unsupported(_))));
}

#[test]
fn rejects_range_beyond_capacity() {
    assert!(matches!(align_read(ByteRange::new(CAP, 1).unwrap(), S, CAP), Err(RecoveryError::OutOfRange { .. })));
}

#[test]
fn aligned_span_always_contains_request() {
    for offset in 0..600u64 {
        for length in 0..40u64 {
            let a = aligned(offset, length);
            assert!(a.aligned.offset <= offset);
            let need = a.inner_offset as u64 + length;
            assert!(need <= a.aligned.length, "offset={offset} length={length}");
        }
    }
}

#[test]
fn converts_disk_to_raw_disk() {
    assert_eq!(raw_device_path("/dev/disk4").unwrap(), "/dev/rdisk4");
    assert_eq!(raw_device_path("/dev/disk4s2").unwrap(), "/dev/rdisk4s2");
}

#[test]
fn preserves_raw_disk() {
    assert_eq!(raw_device_path("/dev/rdisk4").unwrap(), "/dev/rdisk4");
    assert_eq!(raw_device_path("/dev/rdisk4s2").unwrap(), "/dev/rdisk4s2");
}

#[test]
fn rejects_non_device_paths() {
    assert!(raw_device_path("/tmp/image.dmg").is_err());
    assert!(raw_device_path("/dev/diskX").is_err());
    assert!(raw_device_path("/dev/disk4foo").is_err());
    assert!(raw_device_path("/dev/disk4s").is_err());
    assert!(raw_device_path("/dev/rdisk").is_err());
    assert!(raw_device_path("/dev/rdisk4foo").is_err());
}

#[test]
fn accepts_read_within_limit() {
    let request = ProtocolRequest {
        version: PROTOCOL_VERSION,
        operation: Operation::Read { handle: 1, offset: 0, length: MAX_READ_LENGTH },
    };
    assert!(request.validate().is_ok());
}

#[test]
fn rejects_oversized_reads() {
    let request = ProtocolRequest {
        version: PROTOCOL_VERSION,
        operation: Operation::Read { handle: 1, offset: 0, length: MAX_READ_LENGTH + 1 },
    };
    assert!(request.validate().is_err());
}

#[test]
fn rejects_wrong_version_and_invalid_source_ref() {
    let wrong_version = ProtocolRequest {
        version: PROTOCOL_VERSION + 1,
        operation: Operation::GetSourceMetadata { source_ref: "disk4".into() },
    };
    assert!(wrong_version.validate().is_err());
    let nul_ref = ProtocolRequest {
        version: PROTOCOL_VERSION,
        operation: Operation::OpenReadOnly { source_ref: "disk\0".into() },
    };
    assert!(nul_ref.validate().is_err());
}

#[test]
fn rejects_zero_handles() {
    let request = ProtocolRequest { version: PROTOCOL_VERSION, operation: Operation::Close { handle: 0 } };
    assert!(request.validate().is_err());
}

#[test]
fn source_refs_are_bounded() {
    let long = "d".repeat(MAX_SOURCE_REF_LENGTH + 1);
    let request = ProtocolRequest {
        version: PROTOCOL_VERSION,
        operation: Operation::OpenReadOnly { source_ref: long },
    };
    assert!(request.validate().is_err());
    let ok = ProtocolRequest {
        version: PROTOCOL_VERSION,
        operation: Operation::OpenReadOnly { source_ref: "disk4".into() },
    };
    assert!(ok.validate().is_ok());
}

#[test]
fn describes_a_device_from_its_report() {
    let info = describe_plist("disk4s1", SAMPLE).unwrap();
    assert_eq!(info.id, SourceId::new("disk4s1"));
    assert_eq!(info.kind, SourceKind::Volume);
    assert_eq!(info.path, "/dev/rdisk4s1");
    assert_eq!(info.capacity, 500_277_792_768);
    assert_eq!(info.logical_sector_size, 4096);
    assert_eq!(info.physical_sector_size, Some(4096));
    assert_eq!(info.display_name.as_deref(), Some("APPLE SSD AP0512Z"));
    assert!(!info.removable);
    let whole = SAMPLE.replace("<key>Internal</key>", "<key>WholeDisk</key><true/><key>Internal</key>");
    assert_eq!(describe_plist("disk4", &whole).unwrap().kind, SourceKind::PhysicalDrive);
}

#[test]
fn implausible_device_reports_are_refused() {
    assert!(matches!(describe_plist("disk0", "<plist></plist>"), Err(RecoveryError::IoFailure(_))));
    let zero = "<key>Size</key><integer>0</integer>";
    assert!(matches!(describe_plist("disk0", zero), Err(RecoveryError::IoFailure(_))));
    let odd = "<key>Size</key><integer>4096</integer><key>DeviceBlockSize</key><integer>1000</integer>";
    assert!(matches!(describe_plist("disk0", odd), Err(RecoveryError::Unsupported(_))));
    let small = "<key>IOKitSize</key><integer>4096</integer>";
    assert_eq!(describe_plist("disk0", small).unwrap().logical_sector_size, 512);
}

#[test]
fn only_safe_identifiers_are_listed() {
    let list = "<key>AllDisks</key><array><string>disk0</string><string>../x</string><string>disk0s1</string><string>disk 2</string><string>sda</string></array>";
    assert_eq!(device_identifiers(list), vec!["disk0".to_string(), "disk0s1".to_string()]);
    assert!(identifier_acceptable("disk12s3"));
    assert!(identifier_acceptable("disk"));
    assert!(identifier_acceptable("diskX"));
    assert!(!identifier_acceptable("dis"));
}

fn parts(p: &[&str]) -> Vec<String> {
    p.iter().map(|s| s.to_string()).collect()
}

#[test]
fn a_destination_holding_the_source_is_refused() {
    let source = parts(&["/", "images", "disk.img"]);
    assert!(destination_holds_source(&source, &parts(&["/", "images", "disk.img"])));
    assert!(destination_holds_source(&source, &parts(&["/", "images"])));
    assert!(!destination_holds_source(&source, &parts(&["/", "out"])));
    assert!(!destination_holds_source(&source, &parts(&["/", "images", "disk.img", "x"])));
}

#[test]
fn c1_control_characters_are_replaced() {
    let r = sanitize_component("\u{0085}");
    assert_eq!(r.name, "_");
    assert!(r.changed);
    assert_eq!(sanitize_component("a\u{0080}b\u{009f}").name, "a_b_");
}
