use data_recovery::candidate::{CancellationToken, Completeness, Confidence, FileCandidate, Origin};
use data_recovery::carving::registry::{gif, jpeg as jpeg_signature, max_lookbehind, png as png_signature, registry, zip};
use data_recovery::carving::registry::{BoundaryStrategy, CarveLimits};
use data_recovery::carving::scanner::{carve, collect_detections, find_all, find_from};
use data_recovery::device::{BlockDevice, MemoryDevice};
use data_recovery::range::ByteRange;

fn jpeg(body: usize, terminated: bool) -> Vec<u8> {
    let mut v = vec![0xFF, 0xD8, 0xFF, 0xE0];
    v.extend(std::iter::repeat_n(0x41u8, body));
    if terminated {
        v.extend_from_slice(&[0xFF, 0xD9]);
    }
    v
}

fn png(body: usize) -> Vec<u8> {
    let mut v = vec![0x89, b'P', b'N', b'G', 0x0D, 0x0A, 0x1A, 0x0A];
    v.extend(std::iter::repeat_n(0x42u8, body));
    v.extend_from_slice(b"IEND");
    v.extend_from_slice(&[0; 4]);
    v
}

fn small_limits() -> CarveLimits {
    CarveLimits { chunk_size: 256, ..CarveLimits::default() }
}

fn carve_all(device: &MemoryDevice, limits: &CarveLimits) -> Vec<FileCandidate> {
    carve(device, ByteRange::new(0, device.capacity()).unwrap(), &registry(), limits, &CancellationToken::default())
        .unwrap()
}

#[test]
fn every_registered_format_has_a_boundary_rule() {
    for signature in registry() {
        assert!(
            signature.footer.is_some() || signature.boundary != BoundaryStrategy::Footer,
            "{} claims a footer strategy without a footer",
            signature.id
        );
        assert!(signature.max_length > signature.min_length);
        assert!(!signature.header.is_empty());
    }
}

#[test]
fn identifiers_and_headers_are_distinct() {
    let all = registry();
    for (i, a) in all.iter().enumerate() {
        for b in all.iter().skip(i + 1) {
            assert_ne!(a.id, b.id);
            assert_ne!(a.header, b.header);
        }
    }
}

#[test]
fn lookbehind_covers_the_longest_marker() {
    assert_eq!(png_signature().lookbehind(), 8);
    assert_eq!(max_lookbehind(&registry()), 8);
    assert_eq!(max_lookbehind(&[]), 0);
}

#[test]
fn limits_are_bounded_by_default() {
    let limits = CarveLimits::default();
    assert!(limits.chunk_size > 0);
    assert!(limits.max_candidates > 0);
    assert!(limits.max_per_chunk <= limits.max_candidates);
}

#[test]
fn finds_every_occurrence_of_a_marker() {
    assert_eq!(find_all(b"abcabcab", b"ab"), vec![0, 3, 6]);
    assert_eq!(find_all(b"aaaa", b"aa"), vec![0, 1, 2]);
    assert!(find_all(b"abc", b"").is_empty());
    assert_eq!(find_from(b"abcabc", b"bc", 2), Some(4));
    assert_eq!(find_from(b"abcabc", b"x", 0), None);
}

#[test]
fn carves_a_terminated_jpeg() {
    let mut disk = vec![0u8; 100];
    let file = jpeg(300, true);
    disk.extend_from_slice(&file);
    disk.extend(std::iter::repeat_n(0u8, 100));
    let out = carve_all(&MemoryDevice::new(disk), &small_limits());
    assert_eq!(out.len(), 1);
    assert_eq!(out[0].origin, Origin::Carved);
    assert_eq!(out[0].extents[0].source_range.offset, 100);
    assert_eq!(out[0].extents[0].source_range.length, file.len() as u64);
    assert_eq!(out[0].completeness, Completeness::Complete);
    assert!(out[0].evidence.iter().any(|e| e.detail.contains("terminator located")));
}

#[test]
fn unterminated_carves_are_partial_not_complete() {
    let disk = jpeg(2000, false);
    let out = carve_all(&MemoryDevice::new(disk), &small_limits());
    assert_eq!(out.len(), 1);
    assert_eq!(out[0].completeness, Completeness::Partial);
    assert!(out[0].evidence.iter().any(|e| !e.supporting && e.detail.contains("not established")));
}

#[test]
fn every_carve_records_fragmentation_uncertainty() {
    let out = carve_all(&MemoryDevice::new(jpeg(300, true)), &small_limits());
    assert!(out[0].evidence.iter().any(|e| !e.supporting && e.detail.contains("fragmentation")));
}

#[test]
fn carved_candidates_never_reach_high_confidence() {
    let out = carve_all(&MemoryDevice::new(jpeg(300, true)), &small_limits());
    assert!(out[0].confidence() < Confidence::High);
}

#[test]
fn short_matches_are_treated_as_false_positives() {
    let disk = vec![0xFF, 0xD8, 0xFF, 0x00, 0x00, 0x00];
    assert!(carve_all(&MemoryDevice::new(disk), &small_limits()).is_empty());
}

#[test]
fn random_bytes_produce_no_candidates() {
    let disk: Vec<u8> = (0..4096u32).map(|i| (i.wrapping_mul(37) % 200) as u8 + 1).collect();
    let out = carve_all(&MemoryDevice::new(disk), &small_limits());
    assert!(out.is_empty(), "false positives: {out:?}");
}

#[test]
fn a_signature_embedded_in_a_carved_file_is_not_a_separate_candidate() {
    let mut file = vec![0xFF, 0xD8, 0xFF, 0xE0];
    file.extend(std::iter::repeat_n(0x41u8, 100));
    file.extend_from_slice(&[0x89, b'P', b'N', b'G', 0x0D, 0x0A, 0x1A, 0x0A]);
    file.extend(std::iter::repeat_n(0x41u8, 100));
    file.extend_from_slice(&[0xFF, 0xD9]);
    let out = carve_all(&MemoryDevice::new(file), &small_limits());
    assert_eq!(out.len(), 1);
    assert_eq!(out[0].extents[0].source_range.offset, 0);
}

#[test]
fn carves_several_distinct_files() {
    let mut disk = Vec::new();
    disk.extend_from_slice(&jpeg(200, true));
    disk.extend(std::iter::repeat_n(0u8, 64));
    let png_offset = disk.len() as u64;
    disk.extend_from_slice(&png(200));
    let out = carve_all(&MemoryDevice::new(disk), &small_limits());
    assert_eq!(out.len(), 2);
    assert!(out.iter().any(|c| c.extents[0].source_range.offset == 0));
    assert!(out.iter().any(|c| c.extents[0].source_range.offset == png_offset));
}

#[test]
fn finds_a_signature_spanning_a_chunk_boundary() {
    let mut disk = vec![0u8; 254];
    disk.extend_from_slice(&jpeg(400, true));
    let out = carve_all(&MemoryDevice::new(disk), &small_limits());
    assert_eq!(out.len(), 1, "signature at a chunk boundary was missed");
    assert_eq!(out[0].extents[0].source_range.offset, 254);
}

#[test]
fn finds_a_footer_spanning_a_window_boundary() {
    let disk = jpeg(255, true);
    let out = carve_all(&MemoryDevice::new(disk.clone()), &small_limits());
    assert_eq!(out.len(), 1);
    assert_eq!(out[0].extents[0].source_range.length, disk.len() as u64);
    assert_eq!(out[0].completeness, Completeness::Complete);
}

#[test]
fn png_carve_includes_the_iend_crc() {
    let file = png(100);
    let out = carve_all(&MemoryDevice::new(file.clone()), &small_limits());
    assert_eq!(out.len(), 1);
    assert_eq!(out[0].extents[0].source_range.length, file.len() as u64);
}

#[test]
fn carving_never_reads_outside_the_requested_range() {
    let mut disk = vec![0u8; 512];
    disk.extend_from_slice(&jpeg(200, true));
    let device = MemoryDevice::new(disk);
    let out = carve(
        &device,
        ByteRange::new(0, 512).unwrap(),
        &registry(),
        &small_limits(),
        &CancellationToken::default(),
    )
    .unwrap();
    assert!(out.is_empty());
}

#[test]
fn candidate_extents_stay_within_the_device() {
    let mut disk = vec![0u8; 100];
    disk.extend_from_slice(&[0xFF, 0xD8, 0xFF]);
    let device = MemoryDevice::new(disk);
    let capacity = device.capacity();
    for c in carve_all(&device, &small_limits()) {
        assert!(c.extents[0].source_range.end().unwrap() <= capacity);
    }
}

#[test]
fn respects_the_candidate_limit() {
    let mut disk = Vec::new();
    for _ in 0..20 {
        disk.extend_from_slice(&jpeg(200, true));
    }
    let limits = CarveLimits { chunk_size: 256, max_candidates: 5, ..CarveLimits::default() };
    assert!(carve_all(&MemoryDevice::new(disk), &limits).len() <= 5);
}

#[test]
fn honours_cancellation() {
    let disk = jpeg(2000, true);
    let mut token = CancellationToken::default();
    token.cancel();
    let device = MemoryDevice::new(disk);
    let result = carve(&device, ByteRange::new(0, device.capacity()).unwrap(), &registry(), &small_limits(), &token);
    assert!(result.is_err());
}

#[test]
fn carve_output_is_deterministic() {
    let mut disk = Vec::new();
    disk.extend_from_slice(&jpeg(200, true));
    disk.extend(std::iter::repeat_n(0u8, 50));
    disk.extend_from_slice(&png(200));
    let first = carve_all(&MemoryDevice::new(disk.clone()), &small_limits());
    let second = carve_all(&MemoryDevice::new(disk), &small_limits());
    assert_eq!(first, second);
}

#[test]
fn an_empty_source_yields_nothing() {
    let device = MemoryDevice::new(Vec::new());
    let out = carve(&device, ByteRange::new(0, 0).unwrap(), &registry(), &small_limits(), &CancellationToken::default())
        .unwrap();
    assert!(out.is_empty());
}

#[test]
fn a_truncated_source_does_not_panic() {
    for signature in [jpeg_signature(), png_signature(), zip(), gif()] {
        let mut disk = signature.header.to_vec();
        disk.extend(std::iter::repeat_n(0x41u8, 40));
        let _ = carve_all(&MemoryDevice::new(disk), &small_limits());
    }
}

#[test]
fn carved_names_encode_their_offset_and_format() {
    let mut disk = vec![0u8; 100];
    disk.extend_from_slice(&jpeg(300, true));
    let out = carve_all(&MemoryDevice::new(disk), &small_limits());
    assert!(out[0].name.ends_with(".jpg"));
    assert!(out[0].name.contains("0000000100"));
    assert_eq!(out[0].path, vec!["carved".to_string()]);
}

#[test]
fn detections_come_in_offset_order() {
    let mut buffer = vec![0u8; 40];
    let png_header = png_signature().header;
    let jpeg_header = jpeg_signature().header;
    buffer[20..20 + png_header.len()].copy_from_slice(&png_header);
    buffer[3..3 + jpeg_header.len()].copy_from_slice(&jpeg_header);
    let detections = collect_detections(&buffer, 100, &registry());
    assert_eq!(detections.len(), 2);
    assert_eq!((detections[0].offset, detections[0].signature_index), (103, 0));
    assert_eq!((detections[1].offset, detections[1].signature_index), (120, 1));
}

#[test]
fn carves_are_listed_by_offset_up_to_the_lookbehind() {
    let mut image = vec![0u8; 64];
    image.extend(jpeg(300, true));
    image.extend(vec![0u8; 100]);
    image.extend(png(200));
    image.extend(vec![0u8; 50]);
    image.extend(jpeg(200, true));
    let device = MemoryDevice::new(image);
    let found = carve_all(&device, &small_limits());
    assert_eq!(found.len(), 3);
    let overlap = max_lookbehind(&registry()) as u64;
    for i in 0..found.len() {
        for j in i + 1..found.len() {
            assert!(found[i].extents[0].source_range.offset <= found[j].extents[0].source_range.offset + overlap);
        }
    }
}
