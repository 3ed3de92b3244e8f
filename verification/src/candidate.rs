//! What a scan reports: file candidates with their provenance, completeness,
//! validation and the evidence behind them.

use vstd::prelude::*;
use crate::range::{sum_lengths, total_length, Extent, RecoveryError, RecoveryResult};
use crate::text::{push_str, string_of};

verus! {

/// Identifies a candidate within a scan.
#[derive(Clone, Debug, PartialEq, Eq, Hash)]
pub struct CandidateId(pub String);

impl CandidateId {
    /// An identifier with the given text.
    pub fn new(id: &str) -> (r: CandidateId)
        ensures
            r.0@ == id@,
    {
        CandidateId(string_of(id))
    }
}

/// Identifies a recovery source.
#[derive(Clone, Debug, PartialEq, Eq, Hash)]
pub struct SourceId(pub String);

impl SourceId {
    /// An identifier with the given text.
    pub fn new(id: &str) -> (r: SourceId)
        ensures
            r.0@ == id@,
    {
        SourceId(string_of(id))
    }
}

/// Where a candidate was found.
#[derive(Clone, Copy, Debug, PartialEq, Eq, Hash)]
pub enum Origin {
    ActiveFilesystem,
    DeletedFilesystem,
    Carved,
}

/// How much of a candidate's content was located.
#[derive(Clone, Copy, Debug, PartialEq, Eq, Hash)]
pub enum Completeness {
    Complete,
    Partial,
    MetadataOnly,
}

/// What structural validation concluded about a candidate's content.
#[derive(Clone, Copy, Debug, PartialEq, Eq, Hash)]
pub enum Validation {
    Valid,
    PartiallyValid,
    Invalid,
    Indeterminate,
    NotAttempted,
}

/// A band of belief in a candidate, lowest first.
#[derive(Clone, Copy, Debug, PartialEq, Eq, PartialOrd, Ord, Hash)]
pub enum Confidence {
    Unknown,
    Low,
    Medium,
    High,
}

/// One reason behind a candidate's classification.
#[derive(Clone, Debug, PartialEq, Eq)]
pub struct Evidence {
    /// Whether the evidence supports (rather than detracts from) the candidate.
    pub supporting: bool,
    pub detail: String,
}

impl Evidence {
    /// Evidence in favour of the candidate.
    pub fn supporting(detail: &str) -> (e: Evidence)
        ensures
            e.supporting,
            e.detail@ == detail@,
    {
        Evidence { supporting: true, detail: string_of(detail) }
    }

    /// Evidence against the candidate.
    pub fn detracting(detail: &str) -> (e: Evidence)
        ensures
            !e.supporting,
            e.detail@ == detail@,
    {
        Evidence { supporting: false, detail: string_of(detail) }
    }
}

/// A file a scan believes it can recover.
#[derive(Clone, Debug, PartialEq, Eq)]
pub struct FileCandidate {
    pub id: CandidateId,
    pub name: String,
    pub path: Vec<String>,
    pub origin: Origin,
    pub extents: Vec<Extent>,
    pub declared_size: u64,
    pub completeness: Completeness,
    pub validation: Validation,
    pub evidence: Vec<Evidence>,
}

/// The number of detracting items in `evidence`.
pub open spec fn detracting_count(evidence: Seq<Evidence>) -> nat
    decreases evidence.len(),
{
    if evidence.len() == 0 {
        0
    } else {
        detracting_count(evidence.drop_last()) + if !evidence.last().supporting {
            1nat
        } else {
            0nat
        }
    }
}

/// The band a level stands for: 3 and above High, 2 Medium, 1 and below Low.
pub open spec fn band(level: int) -> Confidence {
    if level >= 3 {
        Confidence::High
    } else if level == 2 {
        Confidence::Medium
    } else {
        Confidence::Low
    }
}

/// The confidence a candidate's evidence supports. A candidate with no
/// located content, or whose content contradicts its format, is Unknown.
/// Otherwise the band starts from provenance (a live record High, a deleted
/// record or a carve Medium) and drops one level for partial content, for
/// partially valid content, and for each detracting item, never below Low.
pub open spec fn spec_confidence(
    origin: Origin,
    completeness: Completeness,
    validation: Validation,
    detracting: nat,
) -> Confidence {
    if completeness == Completeness::MetadataOnly || validation == Validation::Invalid {
        Confidence::Unknown
    } else {
        let base: int = match origin {
            Origin::ActiveFilesystem => 3,
            Origin::DeletedFilesystem => 2,
            Origin::Carved => 2,
        };
        let partial: int = if completeness == Completeness::Partial {
            1
        } else {
            0
        };
        let weak: int = if validation == Validation::PartiallyValid {
            1
        } else {
            0
        };
        band(base - partial - weak - detracting)
    }
}

impl FileCandidate {
    /// The candidate's confidence band, derived from its evidence.
    pub open spec fn spec_confidence(&self) -> Confidence {
        spec_confidence(self.origin, self.completeness, self.validation, detracting_count(self.evidence@))
    }

    /// The confidence band the candidate's evidence supports.
    pub fn confidence(&self) -> (c: Confidence)
        ensures
            c == self.spec_confidence(),
    {
        let mut detracting: u64 = 0;
        let mut i: usize = 0;
        while i < self.evidence.len()
            invariant
                i <= self.evidence@.len(),
                detracting == detracting_count(self.evidence@.take(i as int)),
                detracting <= i,
            decreases self.evidence@.len() - i,
        {
            assert(self.evidence@.take(i + 1).drop_last() == self.evidence@.take(i as int));
            if !self.evidence[i].supporting {
                detracting = detracting + 1;
            }
            i = i + 1;
        }
        assert(self.evidence@.take(self.evidence@.len() as int) == self.evidence@);
        match self.completeness {
            Completeness::MetadataOnly => return Confidence::Unknown,
            _ => {},
        }
        match self.validation {
            Validation::Invalid => return Confidence::Unknown,
            _ => {},
        }
        let base: u64 = match self.origin {
            Origin::ActiveFilesystem => 3,
            Origin::DeletedFilesystem => 2,
            Origin::Carved => 2,
        };
        let mut penalty: u64 = detracting;
        match self.completeness {
            Completeness::Partial => {
                penalty = penalty.saturating_add(1);
            },
            _ => {},
        }
        match self.validation {
            Validation::PartiallyValid => {
                penalty = penalty.saturating_add(1);
            },
            _ => {},
        }
        if penalty >= base {
            Confidence::Low
        } else if base - penalty >= 3 {
            Confidence::High
        } else if base - penalty == 2 {
            Confidence::Medium
        } else {
            Confidence::Low
        }
    }

    /// The candidate's directory components and name, joined with `/`.
    pub fn display_path(&self) -> (r: String)
        ensures
            r@ == path_text(self.path@, self.path@.len() as int) + self.name@,
    {
        let mut out = String::new();
        let mut i: usize = 0;
        while i < self.path.len()
            invariant
                i <= self.path@.len(),
                out@ == path_text(self.path@, i as int),
            decreases self.path@.len() - i,
        {
            push_str(&mut out, self.path[i].as_str());
            push_str(&mut out, "/");
            proof {
                reveal_strlit("/");
            }
            i = i + 1;
        }
        push_str(&mut out, self.name.as_str());
        out
    }

    /// Total bytes the candidate's extents locate.
    pub fn recovered_size(&self) -> (r: RecoveryResult<u64>)
        ensures
            r matches Ok(n) ==> n == sum_lengths(self.extents@),
            r is Ok <==> sum_lengths(self.extents@) <= u64::MAX,
    {
        total_length(self.extents.as_slice())
    }
}

/// The first `n` of `path`, each followed by `/`.
pub open spec fn path_text(path: Seq<String>, n: int) -> Seq<char>
    decreases n,
{
    if n <= 0 {
        Seq::empty()
    } else {
        path_text(path, n - 1) + path[n - 1]@ + seq!['/']
    }
}

/// A flag a long-running operation polls so a user can stop it.
#[derive(Clone, Debug, Default)]
pub struct CancellationToken {
    cancelled: bool,
}

impl CancellationToken {
    /// Whether cancellation was requested.
    pub closed spec fn spec_cancelled(&self) -> bool {
        self.cancelled
    }

    /// A token that has not been cancelled.
    pub fn new() -> (t: CancellationToken)
        ensures
            !t.spec_cancelled(),
    {
        CancellationToken { cancelled: false }
    }

    /// Requests cancellation.
    pub fn cancel(&mut self)
        ensures
            final(self).spec_cancelled(),
    {
        self.cancelled = true;
    }

    /// Whether cancellation was requested.
    pub fn is_cancelled(&self) -> (r: bool)
        ensures
            r == self.spec_cancelled(),
    {
        self.cancelled
    }

    /// Fails with [`RecoveryError::Cancelled`] once cancellation was requested.
    pub fn check(&self) -> (r: RecoveryResult<()>)
        ensures
            r is Ok <==> !self.spec_cancelled(),
            r matches Err(e) ==> e is Cancelled,
    {
        if self.cancelled {
            Err(RecoveryError::Cancelled)
        } else {
            Ok(())
        }
    }
}

} // verus!
