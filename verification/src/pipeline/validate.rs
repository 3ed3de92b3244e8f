//! Bounded structural validators.
//!
//! Validators answer one question: are these bytes structurally plausible for
//! the format they claim to be? They return evidence, never a recovery
//! decision. Every validator reads a bounded prefix, so a hostile size field
//! cannot drive unbounded work, and exhaustion is reported as Indeterminate
//! rather than Invalid.

use vstd::prelude::*;
use crate::bytes::{be_u16, be_u32, bytes_match_at, spec_be_u16, spec_be_u32};
use crate::candidate::{CancellationToken, Evidence, FileCandidate, Validation};
use crate::device::{readable, BlockDevice};
use crate::range::{ByteRange, Extent, RecoveryError, RecoveryResult};
use crate::text::{chars_of, push_str, string_push};

verus! {

/// Bytes read from a candidate to judge it: enough for any header checked
/// here, and small enough that validation stays cheap.
pub const VALIDATION_WINDOW: u64 = 64 * 1024;

/// A validator's finding.
#[derive(Clone, Debug, PartialEq, Eq)]
pub struct ValidationReport {
    pub validation: Validation,
    pub evidence: Vec<Evidence>,
    /// Format inferred from the content, which may contradict the extension.
    pub detected_format: Option<&'static str>,
}

/// Whether a validation outcome speaks for the candidate.
pub open spec fn is_supporting(v: Validation) -> bool {
    v is Valid || v is PartiallyValid
}

impl ValidationReport {
    /// A finding with one item of evidence, supporting exactly when the
    /// outcome is valid or partially valid.
    pub fn new(validation: Validation, detail: &str, format: Option<&'static str>) -> (r: ValidationReport)
        ensures
            r.validation == validation,
            r.detected_format == format,
            r.evidence@.len() == 1,
            r.evidence@[0].supporting == is_supporting(validation),
            r.evidence@[0].detail@ == detail@,
    {
        let supporting = match validation {
            Validation::Valid | Validation::PartiallyValid => true,
            _ => false,
        };
        let e = if supporting {
            Evidence::supporting(detail)
        } else {
            Evidence::detracting(detail)
        };
        ValidationReport { validation, evidence: vec![e], detected_format: format }
    }

    /// An inconclusive finding, which is not evidence against the candidate.
    pub fn indeterminate(detail: &str) -> (r: ValidationReport)
        ensures
            r.validation == Validation::Indeterminate,
            r.detected_format is None,
            r.evidence@.len() == 1,
            r.evidence@[0].supporting,
            r.evidence@[0].detail@ == detail@,
    {
        ValidationReport {
            validation: Validation::Indeterminate,
            evidence: vec![Evidence::supporting(detail)],
            detected_format: None,
        }
    }
}

/// The formats recognised from content.
#[derive(Clone, Copy, Debug, PartialEq, Eq)]
pub enum ContentFormat {
    Jpeg,
    Png,
    Pdf,
    Zip,
    Gif,
}

/// Whether `d` starts with `p`.
pub open spec fn starts_with(d: Seq<u8>, p: Seq<u8>) -> bool {
    d.len() >= p.len() && d.take(p.len() as int) == p
}

/// The format `d`'s magic bytes identify.
pub open spec fn spec_detect_format(d: Seq<u8>) -> Option<ContentFormat> {
    if starts_with(d, seq![0xFFu8, 0xD8u8, 0xFFu8]) {
        Some(ContentFormat::Jpeg)
    } else if starts_with(d, seq![0x89u8, 0x50u8, 0x4Eu8, 0x47u8, 0x0Du8, 0x0Au8, 0x1Au8, 0x0Au8]) {
        Some(ContentFormat::Png)
    } else if starts_with(d, seq![0x25u8, 0x50u8, 0x44u8, 0x46u8, 0x2Du8]) {
        Some(ContentFormat::Pdf)
    } else if starts_with(d, seq![0x50u8, 0x4Bu8, 0x03u8, 0x04u8]) || starts_with(
        d,
        seq![0x50u8, 0x4Bu8, 0x05u8, 0x06u8],
    ) {
        Some(ContentFormat::Zip)
    } else if starts_with(d, seq![0x47u8, 0x49u8, 0x46u8, 0x38u8, 0x37u8, 0x61u8]) || starts_with(
        d,
        seq![0x47u8, 0x49u8, 0x46u8, 0x38u8, 0x39u8, 0x61u8],
    ) {
        Some(ContentFormat::Gif)
    } else {
        None
    }
}

/// Whether `data` starts with `pattern`.
fn has_prefix(data: &[u8], pattern: &[u8]) -> (r: bool)
    ensures
        r == starts_with(data@, pattern@),
{
    if data.len() < pattern.len() {
        return false;
    }
    let r = bytes_match_at(data, 0, pattern);
    assert(data@.subrange(0, pattern@.len() as int) == data@.take(pattern@.len() as int));
    r
}

/// Identifies a format from its magic bytes.
pub fn detect_format(data: &[u8]) -> (r: Option<ContentFormat>)
    ensures
        r == spec_detect_format(data@),
{
    let jpeg: [u8; 3] = [0xFF, 0xD8, 0xFF];
    let png: [u8; 8] = [0x89, 0x50, 0x4E, 0x47, 0x0D, 0x0A, 0x1A, 0x0A];
    let pdf: [u8; 5] = [0x25, 0x50, 0x44, 0x46, 0x2D];
    let zip: [u8; 4] = [0x50, 0x4B, 0x03, 0x04];
    let zip_empty: [u8; 4] = [0x50, 0x4B, 0x05, 0x06];
    let gif87: [u8; 6] = [0x47, 0x49, 0x46, 0x38, 0x37, 0x61];
    let gif89: [u8; 6] = [0x47, 0x49, 0x46, 0x38, 0x39, 0x61];
    assert(jpeg@ == seq![0xFFu8, 0xD8u8, 0xFFu8]);
    assert(png@ == seq![0x89u8, 0x50u8, 0x4Eu8, 0x47u8, 0x0Du8, 0x0Au8, 0x1Au8, 0x0Au8]);
    assert(pdf@ == seq![0x25u8, 0x50u8, 0x44u8, 0x46u8, 0x2Du8]);
    assert(zip@ == seq![0x50u8, 0x4Bu8, 0x03u8, 0x04u8]);
    assert(zip_empty@ == seq![0x50u8, 0x4Bu8, 0x05u8, 0x06u8]);
    assert(gif87@ == seq![0x47u8, 0x49u8, 0x46u8, 0x38u8, 0x37u8, 0x61u8]);
    assert(gif89@ == seq![0x47u8, 0x49u8, 0x46u8, 0x38u8, 0x39u8, 0x61u8]);
    if has_prefix(data, &jpeg) {
        return Some(ContentFormat::Jpeg);
    }
    if has_prefix(data, &png) {
        return Some(ContentFormat::Png);
    }
    if has_prefix(data, &pdf) {
        return Some(ContentFormat::Pdf);
    }
    if has_prefix(data, &zip) || has_prefix(data, &zip_empty) {
        return Some(ContentFormat::Zip);
    }
    if has_prefix(data, &gif87) || has_prefix(data, &gif89) {
        return Some(ContentFormat::Gif);
    }
    None
}

/// Walks a JPEG marker chain from `index`: whether a segment declares an
/// impossible length, and how many segments were seen. The walk stops at a
/// byte that is not a marker, at start-of-scan (counted), or where fewer
/// than four bytes remain; standalone markers carry no length.
pub open spec fn jpeg_scan(d: Seq<u8>, index: int, segments: int) -> (bool, int)
    decreases if index <= d.len() { d.len() - index } else { 0 },
{
    if index < 0 || index + 4 > d.len() || d[index] != 0xFF {
        (false, segments)
    } else if d[index + 1] == 0xDA {
        (false, segments + 1)
    } else if 0xD0 <= d[index + 1] <= 0xD9 {
        jpeg_scan(d, index + 2, segments)
    } else if spec_be_u16(d, index + 2) < 2 {
        (true, segments)
    } else {
        jpeg_scan(d, index + 2 + spec_be_u16(d, index + 2), segments + 1)
    }
}

/// Whether `d` ends with the JPEG end-of-image marker.
pub open spec fn ends_with_eoi(d: Seq<u8>) -> bool {
    d.len() >= 2 && d[d.len() - 2] == 0xFF && d[d.len() - 1] == 0xD9
}

/// The outcome for JPEG content: a broken segment chain is invalid; a
/// missing end marker is partial, but only when the whole file was seen.
pub open spec fn jpeg_validation(d: Seq<u8>, declared: u64) -> Validation {
    let scan = jpeg_scan(d, 2, 0);
    if scan.0 || scan.1 == 0 {
        Validation::Invalid
    } else if declared <= d.len() && !ends_with_eoi(d) {
        Validation::PartiallyValid
    } else {
        Validation::Valid
    }
}

/// JPEG: a start marker, a plausible segment chain, and ideally an
/// end-of-image marker.
fn validate_jpeg(data: &[u8], declared_size: u64) -> (r: ValidationReport)
    ensures
        r.validation == jpeg_validation(data@, declared_size),
        r.detected_format == Some("jpeg"),
        r.evidence@.len() == 1 && r.evidence@[0].supporting == is_supporting(r.validation),
{
    let mut index: usize = 2;
    let mut segments: usize = 0;
    let mut impossible = false;
    let mut done = false;
    while !done && index <= data.len() && data.len() - index >= 4
        invariant
            !done ==> jpeg_scan(data@, 2, 0) == jpeg_scan(data@, index as int, segments as int),
            done ==> jpeg_scan(data@, 2, 0) == (impossible, segments as int),
            impossible ==> done,
            segments <= index,
            !done ==> segments < index,
            index >= 2,
        decreases if index <= data@.len() { data@.len() + 1 - index } else { 0 }, if done { 0int } else { 1int },
    {
        if data[index] != 0xFF {
            done = true;
        } else {
            let marker = data[index + 1];
            if marker == 0xDA {
                segments = segments + 1;
                done = true;
            } else if 0xD0 <= marker && marker <= 0xD9 {
                index = index + 2;
            } else {
                let length = be_u16(data, index + 2) as usize;
                if length < 2 {
                    impossible = true;
                    done = true;
                } else {
                    segments = segments + 1;
                    match index.checked_add(2 + length) {
                        Some(next) => {
                            index = next;
                        },
                        None => {
                            assert(jpeg_scan(data@, index + 2 + length, segments as int) == (false, segments as int));
                            done = true;
                        },
                    }
                }
            }
        }
    }
    if impossible {
        return ValidationReport::new(Validation::Invalid, "JPEG segment declares an impossible length", Some("jpeg"));
    }
    if segments == 0 {
        return ValidationReport::new(
            Validation::Invalid,
            "JPEG start marker is not followed by a valid segment",
            Some("jpeg"),
        );
    }
    let whole_file_seen = declared_size <= data.len() as u64;
    let ends = data.len() >= 2 && data[data.len() - 2] == 0xFF && data[data.len() - 1] == 0xD9;
    if whole_file_seen && !ends {
        return ValidationReport::new(
            Validation::PartiallyValid,
            "JPEG structure is valid but the end-of-image marker is missing",
            Some("jpeg"),
        );
    }
    ValidationReport::new(Validation::Valid, "JPEG marker chain is well formed", Some("jpeg"))
}

/// The chunk type that ends a PNG, `IEND`.
pub open spec fn iend() -> Seq<u8> {
    seq![0x49u8, 0x45u8, 0x4Eu8, 0x44u8]
}

/// Walks a PNG chunk chain from `index`: whether a chunk declares a length
/// the cursor cannot step over, and whether the end chunk was reached. The
/// walk stops where fewer than twelve bytes remain.
pub open spec fn png_scan(d: Seq<u8>, index: int) -> (bool, bool)
    decreases if index <= d.len() { d.len() - index } else { 0 },
{
    if index < 0 || index + 12 > d.len() {
        (false, false)
    } else if d.subrange(index + 4, index + 8) == iend() {
        (false, true)
    } else if spec_be_u32(d, index) + 12 > usize::MAX {
        (true, false)
    } else {
        png_scan(d, index + spec_be_u32(d, index) + 12)
    }
}

/// The outcome for PNG content.
pub open spec fn png_validation(d: Seq<u8>, declared: u64) -> Validation {
    let scan = png_scan(d, 8);
    if d.len() < 16 {
        Validation::PartiallyValid
    } else if d.subrange(12, 16) != seq![0x49u8, 0x48u8, 0x44u8, 0x52u8] {
        Validation::Invalid
    } else if scan.0 {
        Validation::Invalid
    } else if declared <= d.len() && !scan.1 {
        Validation::PartiallyValid
    } else {
        Validation::Valid
    }
}

/// PNG: signature, an IHDR first chunk, and a plausible chunk chain.
fn validate_png(data: &[u8], declared_size: u64) -> (r: ValidationReport)
    ensures
        r.validation == png_validation(data@, declared_size),
        r.detected_format == Some("png"),
        r.evidence@.len() == 1 && r.evidence@[0].supporting == is_supporting(r.validation),
{
    if data.len() < 16 {
        return ValidationReport::new(
            Validation::PartiallyValid,
            "PNG signature present but the header chunk is truncated",
            Some("png"),
        );
    }
    let ihdr: [u8; 4] = [0x49, 0x48, 0x44, 0x52];
    assert(ihdr@ == seq![0x49u8, 0x48u8, 0x44u8, 0x52u8]);
    if !bytes_match_at(data, 12, &ihdr) {
        return ValidationReport::new(Validation::Invalid, "PNG signature is not followed by an IHDR chunk", Some("png"));
    }
    let end_kind: [u8; 4] = [0x49, 0x45, 0x4E, 0x44];
    assert(end_kind@ == iend());
    let mut index: usize = 8;
    let mut saw_end = false;
    let mut impossible = false;
    let mut done = false;
    while !done && index <= data.len() && data.len() - index >= 12
        invariant
            !done ==> png_scan(data@, 8) == png_scan(data@, index as int),
            done ==> png_scan(data@, 8) == (impossible, saw_end),
            impossible ==> done,
            saw_end ==> done,
            !done ==> !impossible && !saw_end,
            index >= 8,
            end_kind@ == iend(),
        decreases if index <= data@.len() { data@.len() + 1 - index } else { 0 }, if done { 0int } else { 1int },
    {
        if bytes_match_at(data, index + 4, &end_kind) {
            saw_end = true;
            done = true;
        } else {
            let length = be_u32(data, index) as u64;
            if length + 12 > usize::MAX as u64 {
                impossible = true;
                done = true;
            } else {
                match index.checked_add((length + 12) as usize) {
                    Some(next) => {
                        index = next;
                    },
                    None => {
                        assert(png_scan(data@, index + length + 12) == (false, false));
                        done = true;
                    },
                }
            }
        }
    }
    if impossible {
        return ValidationReport::new(Validation::Invalid, "PNG chunk declares an impossible length", Some("png"));
    }
    let whole_file_seen = declared_size <= data.len() as u64;
    if whole_file_seen && !saw_end {
        return ValidationReport::new(
            Validation::PartiallyValid,
            "PNG structure is valid but the IEND chunk is missing",
            Some("png"),
        );
    }
    ValidationReport::new(Validation::Valid, "PNG chunk chain is well formed", Some("png"))
}

/// The outcome for PDF content: `%PDF-` must be followed by a version digit.
pub open spec fn pdf_validation(d: Seq<u8>) -> Validation {
    if d.len() < 8 || !(0x30 <= d[5] <= 0x39) {
        Validation::Invalid
    } else {
        Validation::Valid
    }
}

/// PDF: a version header.
fn validate_pdf(data: &[u8]) -> (r: ValidationReport)
    ensures
        r.validation == pdf_validation(data@),
        r.detected_format == Some("pdf"),
        r.evidence@.len() == 1 && r.evidence@[0].supporting == is_supporting(r.validation),
{
    if data.len() < 8 || !(0x30 <= data[5] && data[5] <= 0x39) {
        return ValidationReport::new(Validation::Invalid, "PDF header is not followed by a version", Some("pdf"));
    }
    ValidationReport::new(Validation::Valid, "PDF header is well formed", Some("pdf"))
}

/// The outcome for ZIP content: an empty-archive record is valid; a local
/// header shorter than its fixed part is partial.
pub open spec fn zip_validation(d: Seq<u8>) -> Validation {
    if starts_with(d, seq![0x50u8, 0x4Bu8, 0x05u8, 0x06u8]) {
        Validation::Valid
    } else if d.len() < 30 {
        Validation::PartiallyValid
    } else {
        Validation::Valid
    }
}

/// ZIP: a local file header or an empty-archive end record.
fn validate_zip(data: &[u8]) -> (r: ValidationReport)
    ensures
        r.validation == zip_validation(data@),
        r.detected_format == Some("zip"),
        r.evidence@.len() == 1 && r.evidence@[0].supporting == is_supporting(r.validation),
{
    let zip_empty: [u8; 4] = [0x50, 0x4B, 0x05, 0x06];
    assert(zip_empty@ == seq![0x50u8, 0x4Bu8, 0x05u8, 0x06u8]);
    if has_prefix(data, &zip_empty) {
        return ValidationReport::new(Validation::Valid, "ZIP end-of-archive record", Some("zip"));
    }
    if data.len() < 30 {
        return ValidationReport::new(
            Validation::PartiallyValid,
            "ZIP signature present but the local header is truncated",
            Some("zip"),
        );
    }
    ValidationReport::new(Validation::Valid, "ZIP local file header is well formed", Some("zip"))
}

/// Where the last `.` of `name` lies, if anywhere.
pub open spec fn last_dot(name: Seq<char>) -> Option<int>
    decreases name.len(),
{
    if name.len() == 0 {
        None
    } else if name.last() == '.' {
        Some(name.len() - 1)
    } else {
        last_dot(name.drop_last())
    }
}

/// A character's scalar value with ASCII capitals lowered.
pub open spec fn lower_value(c: char) -> u32 {
    if 'A' <= c <= 'Z' {
        ((c as u32) + 32) as u32
    } else {
        c as u32
    }
}

/// A name's extension: what follows its last `.`; empty when it has none.
pub open spec fn extension_of(name: Seq<char>) -> Seq<char> {
    match last_dot(name) {
        Some(k) => name.subrange(k + 1, name.len() as int),
        None => Seq::empty(),
    }
}

/// Whether `e` spells `w` ignoring ASCII case.
pub open spec fn spells(e: Seq<char>, w: Seq<char>) -> bool {
    e.len() == w.len() && forall|i: int| 0 <= i < e.len() ==> lower_value(e[i]) == (w[i] as u32)
}

/// Whether an extension names a format with a validator, ignoring ASCII
/// case.
pub open spec fn known_extension(e: Seq<char>) -> bool {
    spells(e, seq!['j', 'p', 'g']) || spells(e, seq!['j', 'p', 'e', 'g']) || spells(e, seq!['p', 'n', 'g']) || spells(
        e,
        seq!['p', 'd', 'f'],
    ) || spells(e, seq!['z', 'i', 'p']) || spells(e, seq!['g', 'i', 'f'])
}

/// The outcome content earns: content decides the format, the extension
/// only says which rules the user expected; a known extension whose
/// content matches no signature is a contradiction, anything else
/// unrecognised is inconclusive.
pub open spec fn spec_validation(d: Seq<u8>, name: Seq<char>, declared: u64) -> Validation {
    match spec_detect_format(d) {
        Some(ContentFormat::Jpeg) => jpeg_validation(d, declared),
        Some(ContentFormat::Png) => png_validation(d, declared),
        Some(ContentFormat::Pdf) => pdf_validation(d),
        Some(ContentFormat::Zip) => zip_validation(d),
        Some(ContentFormat::Gif) => Validation::Valid,
        None => if known_extension(extension_of(name)) {
            Validation::Invalid
        } else {
            Validation::Indeterminate
        },
    }
}

/// Whether `e` is the word `lower` with any of its letters written as in
/// `upper`, the same word in capitals.
pub open spec fn case_variant(e: Seq<char>, lower: Seq<char>, upper: Seq<char>) -> bool {
    e.len() == lower.len() && e.len() == upper.len() && forall|i: int|
        0 <= i < e.len() ==> e[i] == lower[i] || e[i] == upper[i]
}

/// Content whose leading bytes match no known format, under a name whose
/// extension is `jpg`, `jpeg`, `png`, `pdf`, `zip` or `gif` in any letter
/// case, is judged invalid: the name promises a format the bytes do not
/// have.
pub proof fn lemma_known_extension_without_signature_is_invalid(
    d: Seq<u8>,
    stem: Seq<char>,
    e: Seq<char>,
    declared: u64,
)
    requires
        spec_detect_format(d) is None,
        !e.contains('.'),
        case_variant(e, seq!['j', 'p', 'g'], seq!['J', 'P', 'G']) || case_variant(
            e,
            seq!['j', 'p', 'e', 'g'],
            seq!['J', 'P', 'E', 'G'],
        ) || case_variant(e, seq!['p', 'n', 'g'], seq!['P', 'N', 'G']) || case_variant(
            e,
            seq!['p', 'd', 'f'],
            seq!['P', 'D', 'F'],
        ) || case_variant(e, seq!['z', 'i', 'p'], seq!['Z', 'I', 'P']) || case_variant(
            e,
            seq!['g', 'i', 'f'],
            seq!['G', 'I', 'F'],
        ),
    ensures
        spec_validation(d, stem + seq!['.'] + e, declared) == Validation::Invalid,
{
    let name = stem + seq!['.'] + e;
    lemma_last_dot_before_tail(stem + seq!['.'], e);
    assert(name.subrange(stem.len() + 1int, name.len() as int) =~= e);
    assert(extension_of(name) == e);
    if case_variant(e, seq!['j', 'p', 'g'], seq!['J', 'P', 'G']) {
        assert(spells(e, seq!['j', 'p', 'g']));
    } else if case_variant(e, seq!['j', 'p', 'e', 'g'], seq!['J', 'P', 'E', 'G']) {
        assert(spells(e, seq!['j', 'p', 'e', 'g']));
    } else if case_variant(e, seq!['p', 'n', 'g'], seq!['P', 'N', 'G']) {
        assert(spells(e, seq!['p', 'n', 'g']));
    } else if case_variant(e, seq!['p', 'd', 'f'], seq!['P', 'D', 'F']) {
        assert(spells(e, seq!['p', 'd', 'f']));
    } else if case_variant(e, seq!['z', 'i', 'p'], seq!['Z', 'I', 'P']) {
        assert(spells(e, seq!['z', 'i', 'p']));
    } else {
        assert(spells(e, seq!['g', 'i', 'f']));
    }
}

/// The last `.` of `a + tail`, where `a` ends with a `.` and `tail` holds
/// none, is the one ending `a`.
proof fn lemma_last_dot_before_tail(a: Seq<char>, tail: Seq<char>)
    requires
        a.len() > 0,
        a.last() == '.',
        !tail.contains('.'),
    ensures
        last_dot(a + tail) == Some(a.len() - 1),
    decreases tail.len(),
{
    if tail.len() == 0 {
        assert(a + tail =~= a);
    } else {
        assert((a + tail).drop_last() =~= a + tail.drop_last());
        assert((a + tail).last() == tail.last());
        assert(!tail.drop_last().contains('.')) by {
            if tail.drop_last().contains('.') {
                let k = choose|k: int| 0 <= k < tail.drop_last().len() && tail.drop_last()[k] == '.';
                assert(tail[k] == '.');
            }
        }
        assert(tail.last() != '.') by {
            if tail.last() == '.' {
                assert(tail[tail.len() - 1] == '.');
            }
        }
        lemma_last_dot_before_tail(a, tail.drop_last());
    }
}

/// The extension of a name, as written.
fn extension(name: &str) -> (r: Vec<char>)
    ensures
        r@ == extension_of(name@),
{
    let chars = chars_of(name);
    let mut k: usize = chars.len();
    assert(chars@.take(chars@.len() as int) == chars@);
    while k > 0 && chars[k - 1] != '.'
        invariant
            k <= chars@.len(),
            chars@ == name@,
            last_dot(chars@) == last_dot(chars@.take(k as int)),
        decreases k,
    {
        assert(chars@.take(k as int).drop_last() == chars@.take(k - 1));
        k = k - 1;
    }
    if k == 0 {
        return Vec::new();
    }
    assert(chars@.take(k as int).last() == '.');
    crate::bytes::copy_range(chars.as_slice(), k, chars.len())
}

/// The scalar value of a character with ASCII capitals lowered.
fn lower_char_value(c: char) -> (r: u32)
    ensures
        r == lower_value(c),
{
    if 'A' <= c && c <= 'Z' {
        (c as u32) + 32
    } else {
        c as u32
    }
}

/// Whether `e` spells `word`, ignoring ASCII case.
fn spells_word(e: &Vec<char>, word: &str) -> (r: bool)
    ensures
        r == spells(e@, word@),
{
    let w = chars_of(word);
    if w.len() != e.len() {
        return false;
    }
    let mut i: usize = 0;
    while i < w.len()
        invariant
            i <= w@.len(),
            w@.len() == e@.len(),
            w@ == word@,
            forall|j: int| 0 <= j < i ==> lower_value(e@[j]) == (w@[j] as u32),
        decreases w@.len() - i,
    {
        if lower_char_value(e[i]) != w[i] as u32 {
            return false;
        }
        i = i + 1;
    }
    true
}

/// Validates an in-memory prefix of a candidate's content against the
/// rules of the format it shows, with the declared size telling whether
/// the whole file is in the prefix.
pub fn validate_bytes(data: &[u8], name: &str, declared_size: u64) -> (r: ValidationReport)
    ensures
        r.validation == spec_validation(data@, name@, declared_size),
        r.evidence@.len() == 1,
        r.evidence@[0].supporting == (is_supporting(r.validation) || r.validation == Validation::Indeterminate),
        r.detected_format == match spec_detect_format(data@) {
            Some(ContentFormat::Jpeg) => Some("jpeg"),
            Some(ContentFormat::Png) => Some("png"),
            Some(ContentFormat::Pdf) => Some("pdf"),
            Some(ContentFormat::Zip) => Some("zip"),
            Some(ContentFormat::Gif) => Some("gif"),
            None => None::<&'static str>,
        },
{
    match detect_format(data) {
        Some(ContentFormat::Jpeg) => validate_jpeg(data, declared_size),
        Some(ContentFormat::Png) => validate_png(data, declared_size),
        Some(ContentFormat::Pdf) => validate_pdf(data),
        Some(ContentFormat::Zip) => validate_zip(data),
        Some(ContentFormat::Gif) => ValidationReport::new(Validation::Valid, "GIF header is well formed", Some("gif")),
        None => {
            let ext = extension(name);
            if ext.len() == 0 {
                proof {
                    reveal_strlit("jpg");
                }
                assert(!known_extension(ext@));
                return ValidationReport::indeterminate("no recognised signature and no extension to check against");
            }
            let known = spells_word(&ext, "jpg") || spells_word(&ext, "jpeg") || spells_word(&ext, "png")
                || spells_word(&ext, "pdf") || spells_word(&ext, "zip") || spells_word(&ext, "gif");
            proof {
                reveal_strlit("jpg");
                reveal_strlit("jpeg");
                reveal_strlit("png");
                reveal_strlit("pdf");
                reveal_strlit("zip");
                reveal_strlit("gif");
            }
            if known {
                let mut detail = String::new();
                push_str(&mut detail, "content does not match the .");
                let mut i: usize = 0;
                while i < ext.len()
                    invariant
                        i <= ext@.len(),
                    decreases ext@.len() - i,
                {
                    let c = ext[i];
                    let shown = if 'A' <= c && c <= 'Z' {
                        match crate::text::char_from_u32((c as u32) + 32) {
                            Some(l) => l,
                            None => c,
                        }
                    } else {
                        c
                    };
                    string_push(&mut detail, shown);
                    i = i + 1;
                }
                push_str(&mut detail, " signature");
                ValidationReport::new(Validation::Invalid, detail.as_str(), None)
            } else {
                ValidationReport::indeterminate("no validator is registered for this format")
            }
        },
    }
}

/// The bytes gathered from the first `n` extents of a candidate, up to the
/// validation window, and whether gathering has stopped: at a full window
/// or at an extent that reaches past the end of `contents`.
pub open spec fn gathered(contents: Seq<u8>, extents: Seq<Extent>, n: nat) -> (Seq<u8>, bool)
    decreases n,
{
    if n == 0 {
        (Seq::empty(), false)
    } else {
        let (b, stopped) = gathered(contents, extents, (n - 1) as nat);
        let room = VALIDATION_WINDOW - b.len();
        let e = extents[n - 1].source_range;
        let take = if e.length < room { e.length as int } else { room };
        if stopped || room <= 0 {
            (b, true)
        } else if take == 0 {
            (b, false)
        } else if e.offset + take > contents.len() {
            (b, true)
        } else {
            (b + contents.subrange(e.offset as int, e.offset + take), false)
        }
    }
}

/// The verdict on a candidate whose gathered prefix is `d`: inconclusive
/// when nothing could be gathered, else the verdict on those bytes.
pub open spec fn prefix_validation(d: Seq<u8>, name: Seq<char>, declared_size: u64) -> Validation {
    if d.len() == 0 {
        Validation::Indeterminate
    } else {
        spec_validation(d, name, declared_size)
    }
}

/// Whether every extent's source range ends within the `u64` offsets.
pub open spec fn extent_ends_fit(extents: Seq<Extent>) -> bool {
    forall|k: int| 0 <= k < extents.len() ==> #[trigger] extents[k].source_range.spec_end() <= u64::MAX
}

/// Once gathering stops, later extents add nothing.
proof fn lemma_gathered_stays(contents: Seq<u8>, extents: Seq<Extent>, m: nat, n: nat)
    requires
        m <= n,
        gathered(contents, extents, m).1,
    ensures
        gathered(contents, extents, n) == gathered(contents, extents, m),
    decreases n - m,
{
    if m < n {
        lemma_gathered_stays(contents, extents, m, (n - 1) as nat);
    }
}

/// Reads the leading bytes of a candidate, following its extents so a
/// fragmented file is judged by its reconstructed content rather than raw
/// disk order, up to `VALIDATION_WINDOW` bytes. An extent outside the
/// device, or a failed read, ends the prefix rather than the scan.
pub fn read_prefix<D: BlockDevice>(device: &D, candidate: &FileCandidate, cancel: &CancellationToken) -> (r:
    RecoveryResult<Vec<u8>>)
    ensures
        cancel.spec_cancelled() && candidate.extents@.len() > 0 ==> (r matches Err(e) && e is Cancelled),
        r matches Ok(b) ==> b@.len() <= VALIDATION_WINDOW,
        r matches Ok(b) ==> (readable(device) ==> b@ == gathered(
            device.contents(),
            candidate.extents@,
            candidate.extents@.len(),
        ).0),
        candidate.extents@.len() == 0 ==> (r matches Ok(b) && b@.len() == 0),
        !cancel.spec_cancelled() && extent_ends_fit(candidate.extents@) ==> r is Ok,
        r matches Err(e) ==> e is Cancelled || e is RangeOverflow,
{
    if candidate.extents.len() > 0 {
        cancel.check()?;
    }
    let ghost contents = device.contents();
    let ghost ex = candidate.extents@;
    let mut buffer: Vec<u8> = Vec::new();
    let mut i: usize = 0;
    while i < candidate.extents.len()
        invariant_except_break
            readable(device) ==> gathered(contents, ex, i as nat) == (buffer@, false),
        invariant
            i <= candidate.extents@.len(),
            buffer@.len() <= VALIDATION_WINDOW,
            contents == device.contents(),
            ex == candidate.extents@,
            ex.len() == 0 ==> buffer@.len() == 0,
        ensures
            buffer@.len() <= VALIDATION_WINDOW,
            ex.len() == 0 ==> buffer@.len() == 0,
            readable(device) ==> buffer@ == gathered(contents, ex, ex.len()).0,
        decreases candidate.extents@.len() - i,
    {
        cancel.check()?;
        let ghost here = candidate.extents@[i as int];
        let remaining = VALIDATION_WINDOW - buffer.len() as u64;
        if remaining == 0 {
            proof {
                if readable(device) {
                    assert(gathered(contents, ex, (i + 1) as nat).1);
                    lemma_gathered_stays(contents, ex, (i + 1) as nat, ex.len());
                }
            }
            break;
        }
        let extent = candidate.extents[i].source_range;
        let take = if extent.length < remaining {
            extent.length
        } else {
            remaining
        };
        if take == 0 {
            i = i + 1;
            continue;
        }
        let range = match ByteRange::new(extent.offset, take) {
            Ok(v) => v,
            Err(e) => {
                proof {
                    assert(here.source_range.spec_end() > u64::MAX);
                }
                return Err(e);
            },
        };
        if range.validate_within(device.capacity()).is_err() {
            proof {
                if readable(device) {
                    assert(gathered(contents, ex, (i + 1) as nat).1);
                    lemma_gathered_stays(contents, ex, (i + 1) as nat, ex.len());
                }
            }
            break;
        }
        let ghost mid = buffer@;
        match device.read(range) {
            Ok(bytes) => {
                let mut k: usize = 0;
                while k < bytes.len()
                    invariant
                        k <= bytes@.len(),
                        bytes@.len() <= take,
                        buffer@.len() + bytes@.len() - k <= VALIDATION_WINDOW,
                        buffer@ == mid + bytes@.take(k as int),
                    decreases bytes@.len() - k,
                {
                    buffer.push(bytes[k]);
                    assert(bytes@.take(k + 1) == bytes@.take(k as int).push(bytes@[k as int]));
                    k = k + 1;
                }
                assert(bytes@.take(bytes@.len() as int) == bytes@);
            },
            Err(_) => {
                break;
            },
        }
        i = i + 1;
    }
    Ok(buffer)
}

/// Validates a candidate's content against the format it shows. A
/// candidate without extents, or whose content cannot be read, is
/// inconclusive rather than invalid.
pub fn validate<D: BlockDevice>(device: &D, candidate: &FileCandidate, cancel: &CancellationToken) -> (r:
    RecoveryResult<ValidationReport>)
    ensures
        candidate.extents@.len() == 0 ==> (r matches Ok(rep) && rep.validation == Validation::Indeterminate),
        cancel.spec_cancelled() && candidate.extents@.len() > 0 ==> (r matches Err(e) && e is Cancelled),
        !cancel.spec_cancelled() && extent_ends_fit(candidate.extents@) ==> r is Ok,
        r matches Err(e) ==> e is Cancelled || e is RangeOverflow,
        r matches Ok(rep) ==> (readable(device) ==> rep.validation == prefix_validation(
            gathered(device.contents(), candidate.extents@, candidate.extents@.len()).0,
            candidate.name@,
            candidate.declared_size,
        )),
        r matches Ok(rep) ==> rep.validation == Validation::Indeterminate || exists|d: Seq<u8>|
            d.len() <= VALIDATION_WINDOW && rep.validation == #[trigger] spec_validation(
                d,
                candidate.name@,
                candidate.declared_size,
            ),
{
    if candidate.extents.len() == 0 {
        return Ok(ValidationReport::indeterminate("no content located, so structure could not be checked"));
    }
    let data = read_prefix(device, candidate, cancel)?;
    if data.len() == 0 {
        return Ok(ValidationReport::indeterminate("content could not be read, so structure could not be checked"));
    }
    let report = validate_bytes(data.as_slice(), candidate.name.as_str(), candidate.declared_size);
    assert(report.validation == spec_validation(data@, candidate.name@, candidate.declared_size));
    Ok(report)
}

} // verus!
