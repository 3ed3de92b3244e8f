use data_recovery::candidate::CancellationToken;
use data_recovery::device::{FaultyDevice, MemoryDevice};
use data_recovery::imaging::manifest::ImageManifest;
use data_recovery::imaging::{
    BadRange, ImageSink, ImagingEngine, ImagingPolicy, ImagingProgress, ImagingReport, MemorySink,
};
use data_recovery::range::{ByteRange, RecoveryError};

#[derive(Default)]
struct Progress {
    copied: Vec<(u64, u64)>,
    bad: Vec<BadRange>,
}

impl ImagingProgress for Progress {
    fn copied(&mut self, bytes_copied: u64, total_bytes: u64) {
        self.copied.push((bytes_copied, total_bytes));
    }

    fn bad_range(&mut self, bad_range: BadRange) {
        self.bad.push(bad_range);
    }
}

fn engine() -> ImagingEngine {
    ImagingEngine::new(ImagingPolicy { chunk_size: 4, max_retries: 1, min_chunk_size: 1 }).unwrap()
}

#[test]
fn copies_source_in_bounded_chunks() {
    let source = MemoryDevice::new(b"abcdefgh".to_vec());
    let mut sink = MemorySink::default();
    let report = engine().image(&source, &mut sink, &CancellationToken::new()).unwrap();
    assert_eq!(sink.bytes, b"abcdefgh");
    assert_eq!(report.bytes_copied, 8);
    assert!(report.bad_ranges.is_empty());
}

#[test]
fn records_permanent_failures_after_reduction() {
    let source = FaultyDevice::new(b"abcd".to_vec(), 0, 4);
    let mut sink = MemorySink::default();
    let report = engine().image(&source, &mut sink, &CancellationToken::new()).unwrap();
    assert_eq!(report.bytes_copied, 0);
    assert_eq!(report.bad_ranges.len(), 4);
    assert!(report.bad_ranges.iter().all(|bad| bad.range.length == 1));
    assert!(report.bad_ranges.iter().all(|bad| bad.attempts == 2));
}

#[test]
fn cancellation_stops_before_reading() {
    let source = MemoryDevice::new(b"abcd".to_vec());
    let mut sink = MemorySink::default();
    let mut token = CancellationToken::new();
    token.cancel();
    assert_eq!(engine().image(&source, &mut sink, &token).unwrap_err(), RecoveryError::Cancelled);
    assert!(sink.bytes.is_empty());
}

#[test]
fn reports_monotonic_copy_progress() {
    let source = MemoryDevice::new(b"abcdefgh".to_vec());
    let mut sink = MemorySink::default();
    let mut progress = Progress::default();
    engine().image_with_progress(&source, &mut sink, &CancellationToken::new(), &mut progress).unwrap();
    assert_eq!(progress.copied, vec![(4, 8), (8, 8)]);
}

#[test]
fn damaged_spans_are_isolated_and_the_rest_is_copied() {
    let bytes: Vec<u8> = (0..32u8).collect();
    let source = FaultyDevice::new(bytes.clone(), 10, 12);
    let mut sink = MemorySink::default();
    let mut progress = Progress::default();
    let engine = ImagingEngine::new(ImagingPolicy { chunk_size: 8, max_retries: 0, min_chunk_size: 2 }).unwrap();
    let report = engine.image_with_progress(&source, &mut sink, &CancellationToken::new(), &mut progress).unwrap();
    assert_eq!(report.bad_ranges, vec![BadRange { range: ByteRange::new(10, 2).unwrap(), attempts: 1 }]);
    assert_eq!(progress.bad, report.bad_ranges);
    assert_eq!(report.bytes_copied, 30);
    for (k, byte) in bytes.iter().enumerate() {
        if !(10..12).contains(&k) {
            assert_eq!(sink.bytes[k], *byte);
        }
    }
}

#[test]
fn an_empty_source_images_to_nothing_even_when_cancelled() {
    let source = MemoryDevice::new(Vec::new());
    let mut sink = MemorySink::default();
    let mut token = CancellationToken::new();
    token.cancel();
    let report = engine().image(&source, &mut sink, &token).unwrap();
    assert_eq!(report, ImagingReport { bytes_copied: 0, bad_ranges: Vec::new() });
}

#[test]
fn invalid_policies_are_refused() {
    for policy in [
        ImagingPolicy { chunk_size: 0, max_retries: 1, min_chunk_size: 1 },
        ImagingPolicy { chunk_size: 4, max_retries: 1, min_chunk_size: 0 },
        ImagingPolicy { chunk_size: 4, max_retries: 1, min_chunk_size: 8 },
    ] {
        assert!(policy.validate().is_err());
        assert!(matches!(ImagingEngine::new(policy), Err(RecoveryError::IoFailure(_))));
    }
    assert!(ImagingPolicy { chunk_size: 4, max_retries: 0, min_chunk_size: 4 }.validate().is_ok());
}

#[test]
fn memory_sink_writes_at_offsets() {
    let mut sink = MemorySink::default();
    sink.write(4, b"xy").unwrap();
    assert_eq!(sink.bytes, vec![0, 0, 0, 0, b'x', b'y']);
    sink.write(1, b"a").unwrap();
    assert_eq!(sink.bytes, vec![0, b'a', 0, 0, b'x', b'y']);
}

#[test]
fn recognizes_contiguous_completion() {
    let mut manifest = ImageManifest::new(8);
    manifest.record_completed(ByteRange::new(4, 4).unwrap()).unwrap();
    assert!(!manifest.is_complete());
    manifest.record_completed(ByteRange::new(0, 4).unwrap()).unwrap();
    assert!(manifest.is_complete());
}

#[test]
fn rejects_ranges_outside_source() {
    let mut manifest = ImageManifest::new(8);
    assert!(matches!(
        manifest.record_completed(ByteRange::new(7, 2).unwrap()),
        Err(RecoveryError::OutOfRange { .. })
    ));
}

#[test]
fn completeness_ignores_order_and_overlap_but_not_gaps() {
    let mut manifest = ImageManifest::new(10);
    assert!(!manifest.is_complete());
    manifest.record_completed(ByteRange::new(6, 4).unwrap()).unwrap();
    manifest.record_completed(ByteRange::new(0, 5).unwrap()).unwrap();
    assert!(!manifest.is_complete());
    manifest.record_completed(ByteRange::new(3, 4).unwrap()).unwrap();
    assert!(manifest.is_complete());
    assert!(ImageManifest::new(0).is_complete());
}

#[test]
fn a_manifest_keeps_a_reports_bad_ranges() {
    let bad = BadRange { range: ByteRange::new(2, 1).unwrap(), attempts: 3 };
    let report = ImagingReport { bytes_copied: 7, bad_ranges: vec![bad] };
    let mut manifest = ImageManifest::from_report(8, &report);
    assert_eq!(manifest.bad_ranges, vec![bad]);
    assert!(manifest.completed_ranges.is_empty());
    assert!(manifest.record_bad(BadRange { range: ByteRange::new(8, 1).unwrap(), attempts: 1 }).is_err());
    assert_eq!(manifest.bad_ranges.len(), 1);
}

#[test]
fn a_manifest_recording_the_whole_source_is_complete() {
    let mut manifest = ImageManifest::new(4096);
    assert!(!manifest.is_complete());
    manifest.record_completed(ByteRange::new(0, 4096).unwrap()).unwrap();
    assert!(manifest.is_complete());
}
