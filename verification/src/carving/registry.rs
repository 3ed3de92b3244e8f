//! The signature registry.
//!
//! A signature is a hint, never proof. Each format declares how to recognise a
//! start, how to find its end, and the resource limits that bound the work of
//! carving it. Formats without explicit boundary validation are not registered:
//! arbitrary-file recovery is not claimed.

use vstd::prelude::*;
use crate::text::string_of;

verus! {

/// How a carver determines where a candidate ends.
#[derive(Clone, Copy, Debug, PartialEq, Eq)]
pub enum BoundaryStrategy {
    /// The format has an explicit terminating marker.
    Footer,
    /// The length is declared in the header and must be validated.
    DeclaredLength,
    /// The end is inferred by walking the format's internal structure.
    StructureWalk,
}

/// One registered format.
#[derive(Clone, Debug)]
pub struct Signature {
    /// Stable identifier used in evidence and manifests.
    pub id: String,
    /// Extension applied to carved output.
    pub extension: String,
    /// Bytes identifying the start of a candidate.
    pub header: Vec<u8>,
    /// Bytes identifying the end, where the format has one.
    pub footer: Option<Vec<u8>>,
    pub boundary: BoundaryStrategy,
    /// Refuse to carve beyond this, so a missing footer cannot consume the
    /// rest of the source.
    pub max_length: u64,
    /// Candidates shorter than this are treated as false positives.
    pub min_length: u64,
    /// Higher priority wins when two signatures match at one offset.
    pub priority: u8,
}

impl Signature {
    /// Longest look-behind a detector needs.
    pub open spec fn spec_lookbehind(&self) -> nat {
        let f: nat = match self.footer {
            Some(f) => f@.len(),
            None => 0,
        };
        if self.header@.len() >= f {
            self.header@.len()
        } else {
            f
        }
    }

    /// Longest look-behind a detector needs, so chunk overlap can be sized.
    pub fn lookbehind(&self) -> (r: usize)
        ensures
            r == self.spec_lookbehind(),
    {
        let f = match &self.footer {
            Some(f) => f.len(),
            None => 0,
        };
        if self.header.len() >= f {
            self.header.len()
        } else {
            f
        }
    }
}

/// Whether `s` is the JPEG signature of the registry.
pub open spec fn is_jpeg(s: Signature) -> bool {
    &&& s.id@ == "jpeg"@
    &&& s.extension@ == "jpg"@
    &&& s.header@ == seq![0xFFu8, 0xD8, 0xFF]
    &&& s.footer matches Some(f) && f@ == seq![0xFFu8, 0xD9]
    &&& s.boundary == BoundaryStrategy::Footer
    &&& s.max_length == 100 * 1024 * 1024
    &&& s.min_length == 128
    &&& s.priority == 10
}

/// JPEG: SOI header, EOI footer.
pub fn jpeg() -> (s: Signature)
    ensures
        is_jpeg(s),
{
    Signature {
        id: string_of("jpeg"),
        extension: string_of("jpg"),
        header: vec![0xFF, 0xD8, 0xFF],
        footer: Some(vec![0xFF, 0xD9]),
        boundary: BoundaryStrategy::Footer,
        // 100MB covers realistic camera output without unbounded scanning.
        max_length: 100 * 1024 * 1024,
        min_length: 128,
        priority: 10,
    }
}

/// Whether `s` is the PNG signature of the registry.
pub open spec fn is_png(s: Signature) -> bool {
    &&& s.id@ == "png"@
    &&& s.extension@ == "png"@
    &&& s.header@ == seq![0x89u8, 0x50, 0x4E, 0x47, 0x0D, 0x0A, 0x1A, 0x0A]
    &&& s.footer matches Some(f) && f@ == seq![0x49u8, 0x45, 0x4E, 0x44]
    &&& s.boundary == BoundaryStrategy::StructureWalk
    &&& s.max_length == 100 * 1024 * 1024
    &&& s.min_length == 57
    &&& s.priority == 10
}

/// PNG: signature header, IEND chunk terminator.
pub fn png() -> (s: Signature)
    ensures
        is_png(s),
{
    Signature {
        id: string_of("png"),
        extension: string_of("png"),
        header: vec![0x89, 0x50, 0x4E, 0x47, 0x0D, 0x0A, 0x1A, 0x0A],
        footer: Some(vec![0x49, 0x45, 0x4E, 0x44]),
        boundary: BoundaryStrategy::StructureWalk,
        max_length: 100 * 1024 * 1024,
        min_length: 57,
        priority: 10,
    }
}

/// Whether `s` is the PDF signature of the registry.
pub open spec fn is_pdf(s: Signature) -> bool {
    &&& s.id@ == "pdf"@
    &&& s.extension@ == "pdf"@
    &&& s.header@ == seq![0x25u8, 0x50, 0x44, 0x46, 0x2D]
    &&& s.footer matches Some(f) && f@ == seq![0x25u8, 0x25, 0x45, 0x4F, 0x46]
    &&& s.boundary == BoundaryStrategy::Footer
    &&& s.max_length == 200 * 1024 * 1024
    &&& s.min_length == 32
    &&& s.priority == 8
}

/// PDF: header, with the EOF marker terminating the document.
pub fn pdf() -> (s: Signature)
    ensures
        is_pdf(s),
{
    Signature {
        id: string_of("pdf"),
        extension: string_of("pdf"),
        header: vec![0x25, 0x50, 0x44, 0x46, 0x2D],
        footer: Some(vec![0x25, 0x25, 0x45, 0x4F, 0x46]),
        boundary: BoundaryStrategy::Footer,
        max_length: 200 * 1024 * 1024,
        min_length: 32,
        priority: 8,
    }
}

/// Whether `s` is the ZIP signature of the registry.
pub open spec fn is_zip(s: Signature) -> bool {
    &&& s.id@ == "zip"@
    &&& s.extension@ == "zip"@
    &&& s.header@ == seq![0x50u8, 0x4B, 0x03, 0x04]
    &&& s.footer matches Some(f) && f@ == seq![0x50u8, 0x4B, 0x05, 0x06]
    &&& s.boundary == BoundaryStrategy::Footer
    &&& s.max_length == 500 * 1024 * 1024
    &&& s.min_length == 30
    &&& s.priority == 6
}

/// ZIP and its container formats: local header, end-of-central-directory.
pub fn zip() -> (s: Signature)
    ensures
        is_zip(s),
{
    Signature {
        id: string_of("zip"),
        extension: string_of("zip"),
        header: vec![0x50, 0x4B, 0x03, 0x04],
        footer: Some(vec![0x50, 0x4B, 0x05, 0x06]),
        boundary: BoundaryStrategy::Footer,
        max_length: 500 * 1024 * 1024,
        min_length: 30,
        priority: 6,
    }
}

/// Whether `s` is the GIF signature of the registry.
pub open spec fn is_gif(s: Signature) -> bool {
    &&& s.id@ == "gif"@
    &&& s.extension@ == "gif"@
    &&& s.header@ == seq![0x47u8, 0x49, 0x46, 0x38, 0x39, 0x61]
    &&& s.footer matches Some(f) && f@ == seq![0x3Bu8]
    &&& s.boundary == BoundaryStrategy::Footer
    &&& s.max_length == 50 * 1024 * 1024
    &&& s.min_length == 32
    &&& s.priority == 9
}

/// GIF: header, trailer byte.
pub fn gif() -> (s: Signature)
    ensures
        is_gif(s),
{
    let s = Signature {
        id: string_of("gif"),
        extension: string_of("gif"),
        header: vec![0x47, 0x49, 0x46, 0x38, 0x39, 0x61],
        footer: Some(vec![0x3B]),
        boundary: BoundaryStrategy::Footer,
        max_length: 50 * 1024 * 1024,
        min_length: 32,
        priority: 9,
    };
    assert(s.footer matches Some(f) && f@ == seq![0x3Bu8]);
    s
}

/// Formats supported by the carver, all with explicit boundary validation.
pub fn registry() -> (r: Vec<Signature>)
    ensures
        r@.len() == 5,
        is_jpeg(r@[0]) && is_png(r@[1]) && is_pdf(r@[2]) && is_zip(r@[3]) && is_gif(r@[4]),
        forall|i: int| 0 <= i < r@.len() ==> #[trigger] r@[i].footer is Some,
        forall|i: int| 0 <= i < r@.len() ==> #[trigger] r@[i].header@.len() > 0,
        forall|i: int| 0 <= i < r@.len() ==> #[trigger] r@[i].max_length > r@[i].min_length,
{
    vec![jpeg(), png(), pdf(), zip(), gif()]
}

/// Resource limits bounding a carve run.
#[derive(Clone, Copy, Debug)]
pub struct CarveLimits {
    /// Bytes read per chunk. Bounds memory regardless of source size.
    pub chunk_size: usize,
    /// Maximum candidates emitted, so a pathological source cannot flood the
    /// result set.
    pub max_candidates: usize,
    /// Maximum candidates carried from a single chunk.
    pub max_per_chunk: usize,
}

impl Default for CarveLimits {
    fn default() -> (l: CarveLimits)
        ensures
            l.chunk_size == 4 * 1024 * 1024,
            l.max_candidates == 100_000,
            l.max_per_chunk == 10_000,
    {
        CarveLimits { chunk_size: 4 * 1024 * 1024, max_candidates: 100_000, max_per_chunk: 10_000 }
    }
}

/// Largest look-behind across `signatures[..k]`.
pub open spec fn max_lookbehind_prefix(signatures: Seq<Signature>, k: int) -> nat
    decreases k,
{
    if k <= 0 {
        0
    } else {
        let rest = max_lookbehind_prefix(signatures, k - 1);
        let here = signatures[k - 1].spec_lookbehind();
        if here > rest {
            here
        } else {
            rest
        }
    }
}

/// Largest look-behind across the registry, used to size chunk overlap so a
/// signature straddling a chunk boundary is still detected.
pub fn max_lookbehind(signatures: &[Signature]) -> (r: usize)
    ensures
        r == max_lookbehind_prefix(signatures@, signatures@.len() as int),
        forall|i: int| 0 <= i < signatures@.len() ==> #[trigger] signatures@[i].spec_lookbehind() <= r,
{
    let mut best: usize = 0;
    let mut i: usize = 0;
    while i < signatures.len()
        invariant
            i <= signatures@.len(),
            best == max_lookbehind_prefix(signatures@, i as int),
            forall|j: int| 0 <= j < i ==> #[trigger] signatures@[j].spec_lookbehind() <= best,
        decreases signatures@.len() - i,
    {
        let here = signatures[i].lookbehind();
        if here > best {
            best = here;
        }
        i = i + 1;
    }
    best
}

} // verus!
