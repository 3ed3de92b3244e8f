use data_recovery::candidate::{
    CancellationToken, CandidateId, Completeness, Confidence, Evidence, FileCandidate, Origin, SourceId, Validation,
};
use data_recovery::device::MemoryDevice;
use data_recovery::pipeline::normalize::{deduplicate, extents_overlap, normalize, normalize_name};
use data_recovery::pipeline::validate::{detect_format, read_prefix, validate, validate_bytes, ContentFormat, ValidationReport};
use data_recovery::pipeline::{self, normalize_path, CandidateEvidence, RecoveryCandidate};
use data_recovery::range::{ByteRange, Extent};

fn candidate(name: &str, offset: u64, size: u64, origin: Origin) -> FileCandidate {
    FileCandidate {
        id: CandidateId::new(name),
        name: name.into(),
        path: Vec::new(),
        origin,
        extents: vec![Extent::new(ByteRange::new(offset, size).unwrap(), 0).unwrap()],
        declared_size: size,
        completeness: Completeness::Complete,
        validation: Validation::Valid,
        evidence: Vec::new(),
    }
}

fn extent(offset: u64, length: u64) -> ByteRange {
    ByteRange::new(offset, length).unwrap()
}

fn jpeg(body: &[u8], with_eoi: bool) -> Vec<u8> {
    let mut v = vec![0xFF, 0xD8, 0xFF, 0xE0, 0x00, 0x10];
    v.extend_from_slice(b"JFIF\0");
    v.resize(20, 0);
    v.extend_from_slice(body);
    if with_eoi {
        v.extend_from_slice(&[0xFF, 0xD9]);
    }
    v
}

fn png(with_iend: bool) -> Vec<u8> {
    let mut v = vec![0x89, b'P', b'N', b'G', 0x0D, 0x0A, 0x1A, 0x0A];
    v.extend_from_slice(&13u32.to_be_bytes());
    v.extend_from_slice(b"IHDR");
    v.extend_from_slice(&[0; 13]);
    v.extend_from_slice(&[0; 4]);
    if with_iend {
        v.extend_from_slice(&0u32.to_be_bytes());
        v.extend_from_slice(b"IEND");
        v.extend_from_slice(&[0; 4]);
    }
    v
}

fn check(data: &[u8], name: &str) -> ValidationReport {
    validate_bytes(data, name, data.len() as u64)
}

fn content_candidate(extents: Vec<Extent>, name: &str, size: u64) -> FileCandidate {
    FileCandidate {
        id: CandidateId::new("c"),
        name: name.into(),
        path: Vec::new(),
        origin: Origin::ActiveFilesystem,
        extents,
        declared_size: size,
        completeness: Completeness::Complete,
        validation: Validation::NotAttempted,
        evidence: Vec::new(),
    }
}

#[test]
fn normalises_ordinary_names_unchanged() {
    assert_eq!(normalize_name("holiday photo.jpg"), "holiday photo.jpg");
}

#[test]
fn replaces_path_separators() {
    assert_eq!(normalize_name("../../etc/passwd"), ".._.._etc_passwd");
    assert_eq!(normalize_name(r"..\windows"), ".._windows");
}

#[test]
fn replaces_control_characters() {
    assert_eq!(normalize_name("a\u{0}b\u{7f}"), "a_b_");
}

#[test]
fn degenerate_names_get_a_placeholder() {
    assert_eq!(normalize_name(""), "unnamed");
    assert_eq!(normalize_name("   "), "unnamed");
    assert_eq!(normalize_name("..."), "unnamed");
}

#[test]
fn normalising_a_name_twice_changes_nothing() {
    for name in ["a/b\\c", "  x  ", "...", "ok.txt", "a\u{1}b", ""] {
        let once = normalize_name(name);
        assert_eq!(normalize_name(&once), once);
    }
}

#[test]
fn normalises_path_components_and_drops_dot_entries() {
    let mut c = candidate("f.txt", 0, 10, Origin::ActiveFilesystem);
    c.path = vec!["DCIM".into(), "..".into(), "a/b".into(), ".".into()];
    normalize(&mut c);
    assert_eq!(c.path, vec!["DCIM".to_string(), "a_b".to_string()]);
}

#[test]
fn deduplicates_candidates_sharing_content() {
    let carved = candidate("carved.jpg", 4096, 1000, Origin::Carved);
    let active = candidate("photo.jpg", 4096, 1000, Origin::ActiveFilesystem);
    let out = deduplicate(vec![carved, active]);
    assert_eq!(out.len(), 1);
    assert_eq!(out[0].origin, Origin::ActiveFilesystem);
    assert_eq!(out[0].name, "photo.jpg");
}

#[test]
fn keeps_candidates_at_distinct_offsets() {
    let out = deduplicate(vec![
        candidate("a.jpg", 0, 100, Origin::Carved),
        candidate("b.jpg", 4096, 100, Origin::Carved),
    ]);
    assert_eq!(out.len(), 2);
}

#[test]
fn same_offset_different_size_is_not_a_duplicate() {
    let out = deduplicate(vec![
        candidate("a.jpg", 4096, 100, Origin::Carved),
        candidate("b.jpg", 4096, 200, Origin::Carved),
    ]);
    assert_eq!(out.len(), 2);
}

#[test]
fn prefers_the_higher_confidence_duplicate() {
    let mut weak = candidate("weak.jpg", 4096, 100, Origin::DeletedFilesystem);
    weak.evidence.push(Evidence::detracting("clusters partly reallocated"));
    let strong = candidate("strong.jpg", 4096, 100, Origin::DeletedFilesystem);
    assert!(strong.confidence() > weak.confidence());
    let out = deduplicate(vec![weak, strong]);
    assert_eq!(out.len(), 1);
    assert_eq!(out[0].name, "strong.jpg");
}

#[test]
fn keeps_the_first_of_equally_strong_duplicates() {
    let out = deduplicate(vec![
        candidate("first.jpg", 4096, 100, Origin::Carved),
        candidate("second.jpg", 4096, 100, Origin::Carved),
        candidate("third.jpg", 4096, 100, Origin::Carved),
    ]);
    assert_eq!(out.len(), 1);
    assert_eq!(out[0].name, "first.jpg");
}

#[test]
fn retains_metadata_only_candidates() {
    let mut a = candidate("gone.txt", 0, 0, Origin::DeletedFilesystem);
    a.extents.clear();
    let mut b = candidate("also-gone.txt", 0, 0, Origin::DeletedFilesystem);
    b.extents.clear();
    assert_eq!(deduplicate(vec![a, b]).len(), 2);
}

#[test]
fn deduplication_is_deterministic() {
    let build = || {
        vec![
            candidate("a.jpg", 4096, 100, Origin::Carved),
            candidate("b.jpg", 4096, 100, Origin::ActiveFilesystem),
            candidate("c.jpg", 8192, 100, Origin::DeletedFilesystem),
        ]
    };
    let first = deduplicate(build());
    let second = deduplicate(build());
    assert_eq!(first, second);
}

#[test]
fn detects_overlapping_extents() {
    let a = candidate("a", 0, 1000, Origin::Carved);
    let b = candidate("b", 500, 1000, Origin::Carved);
    let c = candidate("c", 4096, 1000, Origin::Carved);
    assert!(extents_overlap(&a.extents, &b.extents));
    assert!(!extents_overlap(&a.extents, &c.extents));
    let d = candidate("d", 1000, 100, Origin::Carved);
    assert!(!extents_overlap(&a.extents, &d.extents));
}

#[test]
fn confidence_ordering_is_usable_for_ranking() {
    assert!(Confidence::High > Confidence::Medium);
    assert!(Confidence::Medium > Confidence::Low);
    assert!(Confidence::Low > Confidence::Unknown);
}

#[test]
fn confidence_follows_provenance_and_evidence() {
    let active = candidate("a", 0, 10, Origin::ActiveFilesystem);
    assert_eq!(active.confidence(), Confidence::High);
    let carved = candidate("b", 0, 10, Origin::Carved);
    assert_eq!(carved.confidence(), Confidence::Medium);
    let mut partial = candidate("c", 0, 10, Origin::DeletedFilesystem);
    partial.completeness = Completeness::Partial;
    assert_eq!(partial.confidence(), Confidence::Low);
    let mut contradicted = candidate("d", 0, 10, Origin::ActiveFilesystem);
    contradicted.validation = Validation::Invalid;
    assert_eq!(contradicted.confidence(), Confidence::Unknown);
}

#[test]
fn normalizes_separators_and_dot_components() {
    assert_eq!(normalize_path(r"/Users//alice/./docs\\file.txt").unwrap(), "Users/alice/docs/file.txt");
}

#[test]
fn rejects_root_escape() {
    assert!(normalize_path("../../file").is_err());
}

#[test]
fn normalize_path_rejects_empty_and_nul_paths() {
    assert!(normalize_path("/./").is_err());
    assert!(normalize_path("a/b\0c").is_err());
    assert_eq!(normalize_path(" a / b /.. / c ").unwrap(), "a/c");
}

#[test]
fn validates_extent_length_and_overlap() {
    let source = SourceId::new("disk-1");
    let valid = RecoveryCandidate::new(
        CandidateId::new("a"),
        source.clone(),
        "file",
        20,
        vec![extent(100, 10), extent(200, 10)],
        CandidateEvidence::DeletedDirectoryEntry,
    )
    .unwrap();
    assert_eq!(valid.score, 65);
    assert!(RecoveryCandidate::new(
        CandidateId::new("b"),
        source.clone(),
        "bad",
        15,
        vec![extent(100, 10), extent(105, 5)],
        CandidateEvidence::DeletedDirectoryEntry,
    )
    .is_err());
}

#[test]
fn deduplicates_by_source_size_and_extents_and_keeps_stronger_evidence() {
    let source = SourceId::new("disk-1");
    let a = RecoveryCandidate::new(
        CandidateId::new("a"),
        source.clone(),
        "old.txt",
        10,
        vec![extent(100, 10)],
        CandidateEvidence::DeletedDirectoryEntry,
    )
    .unwrap();
    let b = RecoveryCandidate::new(
        CandidateId::new("b"),
        source,
        "renamed.txt",
        10,
        vec![extent(100, 10)],
        CandidateEvidence::ActiveDirectoryEntry,
    )
    .unwrap();
    let result = pipeline::deduplicate(vec![a, b]);
    assert_eq!(result.len(), 1);
    assert_eq!(result[0].score, 90);
    assert_eq!(result[0].path, "renamed.txt");
}

fn recovery(name: &str, offset: u64, evidence: CandidateEvidence) -> RecoveryCandidate {
    RecoveryCandidate::new(
        CandidateId::new(name),
        SourceId::new("disk-1"),
        name,
        10,
        vec![extent(offset, 10)],
        evidence,
    )
    .unwrap()
}

#[test]
fn deduplication_keeps_first_of_equal_scores_in_key_order() {
    let result = pipeline::deduplicate(vec![
        recovery("x-first.txt", 500, CandidateEvidence::CarvedSignature),
        recovery("y-first.txt", 100, CandidateEvidence::DeletedDirectoryEntry),
        recovery("x-second.txt", 500, CandidateEvidence::CarvedSignature),
        recovery("y-better.txt", 100, CandidateEvidence::ActiveDirectoryEntry),
    ]);
    assert_eq!(result.len(), 2);
    assert_eq!(result[0].path, "x-first.txt");
    assert_eq!(result[1].path, "y-better.txt");
}

#[test]
fn evidence_scores_rank_filesystem_records_above_carves() {
    assert_eq!(CandidateEvidence::ActiveDirectoryEntry.base_score(), 90);
    assert_eq!(CandidateEvidence::DeletedDirectoryEntry.base_score(), 65);
    assert_eq!(CandidateEvidence::CarvedSignature.base_score(), 40);
}

#[test]
fn accepts_a_well_formed_jpeg() {
    let r = check(&jpeg(&[], true), "photo.jpg");
    assert_eq!(r.validation, Validation::Valid);
    assert_eq!(r.detected_format, Some("jpeg"));
    assert!(r.evidence[0].supporting);
}

#[test]
fn truncated_jpeg_is_partial_not_invalid() {
    let r = check(&jpeg(&[], false), "photo.jpg");
    assert_eq!(r.validation, Validation::PartiallyValid);
}

#[test]
fn rejects_a_jpeg_with_an_impossible_segment_length() {
    let mut data = jpeg(&[], true);
    data[4..6].copy_from_slice(&1u16.to_be_bytes());
    assert_eq!(check(&data, "photo.jpg").validation, Validation::Invalid);
}

#[test]
fn rejects_a_jpeg_marker_without_a_segment() {
    let r = check(&[0xFF, 0xD8, 0x00, 0x00], "photo.jpg");
    assert_eq!(r.validation, Validation::Invalid);
    assert!(!r.evidence[0].supporting);
}

#[test]
fn accepts_a_well_formed_png() {
    let r = check(&png(true), "image.png");
    assert_eq!(r.validation, Validation::Valid);
    assert_eq!(r.detected_format, Some("png"));
}

#[test]
fn truncated_png_is_partial() {
    assert_eq!(check(&png(false), "image.png").validation, Validation::PartiallyValid);
}

#[test]
fn rejects_a_png_without_ihdr() {
    let mut data = png(true);
    data[12..16].copy_from_slice(b"XXXX");
    assert_eq!(check(&data, "image.png").validation, Validation::Invalid);
}

#[test]
fn rejects_a_png_chunk_with_an_impossible_length() {
    let mut data = png(false);
    data[8..12].copy_from_slice(&u32::MAX.to_be_bytes());
    let r = check(&data, "image.png");
    assert_ne!(r.validation, Validation::Valid);
}

#[test]
fn accepts_pdf_and_zip_headers() {
    assert_eq!(check(b"%PDF-1.7\n%...", "doc.pdf").validation, Validation::Valid);
    let mut zip = b"PK\x03\x04".to_vec();
    zip.resize(40, 0);
    assert_eq!(check(&zip, "archive.zip").validation, Validation::Valid);
    assert_eq!(check(b"PK\x05\x06", "empty.zip").validation, Validation::Valid);
}

#[test]
fn rejects_a_pdf_without_a_version() {
    assert_eq!(check(b"%PDF-XY!!", "doc.pdf").validation, Validation::Invalid);
}

#[test]
fn content_contradicting_a_known_extension_is_invalid() {
    let r = check(&[0u8; 64], "photo.jpg");
    assert_eq!(r.validation, Validation::Invalid);
    assert!(!r.evidence[0].supporting);
}

#[test]
fn unknown_formats_are_indeterminate_not_invalid() {
    let r = check(&[0u8; 64], "notes.xyz");
    assert_eq!(r.validation, Validation::Indeterminate);
    assert!(r.evidence[0].supporting);
    assert_eq!(check(&[0u8; 64], "noextension").validation, Validation::Indeterminate);
}

#[test]
fn content_decides_the_format_over_the_extension() {
    let r = check(&jpeg(&[], true), "mislabelled.png");
    assert_eq!(r.detected_format, Some("jpeg"));
    assert_eq!(r.validation, Validation::Valid);
}

#[test]
fn large_files_are_not_judged_truncated_from_a_window() {
    let data = jpeg(&[0x11; 1000], false);
    let r = validate_bytes(&data, "photo.jpg", 10_000_000);
    assert_eq!(r.validation, Validation::Valid);
}

#[test]
fn extensions_are_matched_without_regard_to_case() {
    assert_eq!(check(&[0u8; 64], "PHOTO.JPG").validation, Validation::Invalid);
    assert_eq!(detect_format(&jpeg(&[], true)), Some(ContentFormat::Jpeg));
    assert_eq!(detect_format(b"GIF89a"), Some(ContentFormat::Gif));
    assert_eq!(detect_format(b"plain text"), None);
}

#[test]
fn validates_a_candidate_from_a_device() {
    let data = jpeg(&[], true);
    let size = data.len() as u64;
    let device = MemoryDevice::new(data);
    let c = content_candidate(vec![Extent::new(ByteRange::new(0, size).unwrap(), 0).unwrap()], "photo.jpg", size);
    let r = validate(&device, &c, &CancellationToken::default()).unwrap();
    assert_eq!(r.validation, Validation::Valid);
}

#[test]
fn reassembles_fragmented_extents_before_validating() {
    let data = jpeg(&[], true);
    let split = 10;
    let mut disk = vec![0u8; 4096];
    disk[..split].copy_from_slice(&data[..split]);
    disk[2048..2048 + (data.len() - split)].copy_from_slice(&data[split..]);
    let device = MemoryDevice::new(disk);
    let c = content_candidate(
        vec![
            Extent::new(ByteRange::new(0, split as u64).unwrap(), 0).unwrap(),
            Extent::new(ByteRange::new(2048, (data.len() - split) as u64).unwrap(), split as u64).unwrap(),
        ],
        "photo.jpg",
        data.len() as u64,
    );
    let r = validate(&device, &c, &CancellationToken::default()).unwrap();
    assert_eq!(r.validation, Validation::Valid);
}

#[test]
fn candidates_without_content_are_indeterminate() {
    let device = MemoryDevice::new(vec![0; 16]);
    let c = content_candidate(Vec::new(), "gone.jpg", 100);
    let r = validate(&device, &c, &CancellationToken::default()).unwrap();
    assert_eq!(r.validation, Validation::Indeterminate);
}

#[test]
fn extents_outside_the_device_do_not_fail_the_scan() {
    let device = MemoryDevice::new(vec![0; 16]);
    let c = content_candidate(
        vec![Extent::new(ByteRange::new(1_000_000, 100).unwrap(), 0).unwrap()],
        "photo.jpg",
        100,
    );
    let r = validate(&device, &c, &CancellationToken::default()).unwrap();
    assert_eq!(r.validation, Validation::Indeterminate);
}

#[test]
fn validation_honours_cancellation() {
    let data = jpeg(&[], true);
    let size = data.len() as u64;
    let device = MemoryDevice::new(data);
    let c = content_candidate(vec![Extent::new(ByteRange::new(0, size).unwrap(), 0).unwrap()], "photo.jpg", size);
    let mut token = CancellationToken::default();
    token.cancel();
    assert!(validate(&device, &c, &token).is_err());
}

#[test]
fn reads_are_bounded_by_the_validation_window() {
    let device = MemoryDevice::new(vec![0xFF; 1 << 20]);
    let c = content_candidate(
        vec![Extent::new(ByteRange::new(0, 1 << 20).unwrap(), 0).unwrap()],
        "big.bin",
        u64::MAX,
    );
    validate(&device, &c, &CancellationToken::default()).unwrap();
}

#[test]
fn normalising_a_candidate_twice_changes_nothing_more() {
    let mut c = candidate(" a/b\u{1}.jpg ", 0, 10, Origin::ActiveFilesystem);
    c.path = vec!["DCIM".into(), "..".into(), " x\\y ".into(), ".".into(), "...".into()];
    normalize(&mut c);
    let once = c.clone();
    normalize(&mut c);
    assert_eq!(c.name, once.name);
    assert_eq!(c.path, once.path);
}

#[test]
fn prefix_follows_extents_and_stops_at_one_past_the_end() {
    let device = MemoryDevice::new((0u8..32).collect());
    let mut c = candidate("frag.bin", 20, 4, Origin::Carved);
    c.extents.push(Extent::new(extent(2, 3), 4).unwrap());
    c.extents.push(Extent::new(extent(30, 8), 7).unwrap());
    c.extents.push(Extent::new(extent(0, 2), 15).unwrap());
    let prefix = read_prefix(&device, &c, &CancellationToken::new()).unwrap();
    assert_eq!(prefix, vec![20, 21, 22, 23, 2, 3, 4]);
}

#[test]
fn normalizing_a_normalized_path_changes_nothing() {
    for raw in [r"/Users//alice/./docs\\file.txt", r" a \ b /../c/ d ", "x/./y/z/.."] {
        let once = normalize_path(raw).unwrap();
        assert_eq!(normalize_path(&once).unwrap(), once);
        assert!(!once.contains('\\') && !once.contains('\0'));
        assert!(once.split('/').all(|c| !c.is_empty() && c != "." && c != ".."));
    }
}

#[test]
fn control_characters_in_names_are_replaced() {
    assert_eq!(normalize_name("a\u{0085}b\u{009f}c\u{007f}"), "a_b_c_");
    assert_eq!(normalize_name("caf\u{00e9}"), "caf\u{00e9}");
}

#[test]
fn prefix_of_a_candidate_without_extents_is_empty() {
    let device = MemoryDevice::new(vec![1u8; 16]);
    let mut c = candidate("empty.bin", 0, 4, Origin::Carved);
    c.extents.clear();
    let prefix = read_prefix(&device, &c, &CancellationToken::new()).unwrap();
    assert!(prefix.is_empty());
}

#[test]
fn an_extent_ending_past_u64_fails_validation() {
    let device = MemoryDevice::new(vec![1u8; 16]);
    let mut c = candidate("wrap.jpg", 0, 4, Origin::Carved);
    c.extents = vec![Extent { source_range: ByteRange { offset: u64::MAX - 1, length: 5 }, logical_offset: 0 }];
    let err = validate(&device, &c, &CancellationToken::new()).unwrap_err();
    assert!(matches!(err, data_recovery::range::RecoveryError::RangeOverflow));
}
