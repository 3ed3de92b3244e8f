//! Typed, transport-neutral request validation for a privileged read helper.
//!
//! The transport and client authentication live with the native helper.
//! This module contains no privilege escalation or arbitrary path access: it
//! is a small schema both sides validate before any privileged operation.

use vstd::prelude::*;
use crate::range::{io_error, unsupported, RecoveryResult};

verus! {

pub const PROTOCOL_VERSION: u16 = 1;
pub const MAX_READ_LENGTH: u64 = 8 * 1024 * 1024;
pub const MAX_SOURCE_REF_LENGTH: usize = 512;

/// A request to the helper.
#[derive(Clone, Debug, PartialEq, Eq)]
pub struct ProtocolRequest {
    pub version: u16,
    pub operation: Operation,
}

/// What the helper is asked to do.
#[derive(Clone, Debug, PartialEq, Eq)]
pub enum Operation {
    GetSourceMetadata { source_ref: String },
    OpenReadOnly { source_ref: String },
    Read { handle: u64, offset: u64, length: u64 },
    Close { handle: u64 },
}

/// Whether a source reference is acceptable: non-empty, at most the limit in
/// UTF-8 bytes, and free of NUL.
pub open spec fn source_ref_ok(s: Seq<char>) -> bool {
    &&& s.len() > 0
    &&& utf8_len(s) <= MAX_SOURCE_REF_LENGTH
    &&& !s.contains('\0')
}

/// The number of bytes the UTF-8 encoding of `s` takes.
pub open spec fn utf8_len(s: Seq<char>) -> int
    decreases s.len(),
{
    if s.len() == 0 {
        0
    } else {
        utf8_len(s.drop_last()) + char_utf8_len(s.last())
    }
}

/// The number of bytes the UTF-8 encoding of `c` takes.
pub open spec fn char_utf8_len(c: char) -> int {
    let v = c as u32;
    if v < 0x80 {
        1
    } else if v < 0x800 {
        2
    } else if v < 0x10000 {
        3
    } else {
        4
    }
}

/// Whether a request may be served.
pub open spec fn request_ok(r: ProtocolRequest) -> bool {
    r.version == PROTOCOL_VERSION && match r.operation {
        Operation::GetSourceMetadata { source_ref } => source_ref_ok(source_ref@),
        Operation::OpenReadOnly { source_ref } => source_ref_ok(source_ref@),
        Operation::Read { handle, offset, length } => handle != 0 && 0 < length <= MAX_READ_LENGTH,
        Operation::Close { handle } => handle != 0,
    }
}

/// Checks a source reference.
fn validate_source_ref(source_ref: &String) -> (r: RecoveryResult<()>)
    ensures
        r is Ok <==> source_ref_ok(source_ref@),
{
    let chars = crate::text::chars_of(source_ref.as_str());
    if chars.len() == 0 {
        return Err(io_error("helper source reference has invalid length"));
    }
    let mut bytes: usize = 0;
    let mut i: usize = 0;
    while i < chars.len()
        invariant
            i <= chars@.len(),
            chars@ == source_ref@,
            bytes == utf8_len(chars@.take(i as int)),
            bytes <= MAX_SOURCE_REF_LENGTH,
            forall|j: int| 0 <= j < i ==> chars@[j] != '\0',
        decreases chars@.len() - i,
    {
        assert(chars@.take(i + 1).drop_last() == chars@.take(i as int));
        let v = chars[i] as u32;
        let w: usize = if v < 0x80 {
            1
        } else if v < 0x800 {
            2
        } else if v < 0x10000 {
            3
        } else {
            4
        };
        if bytes + w > MAX_SOURCE_REF_LENGTH {
            proof {
                lemma_utf8_len_grows(chars@, i + 1);
                assert(chars@.take(chars@.len() as int) == chars@);
            }
            return Err(io_error("helper source reference has invalid length"));
        }
        if chars[i] == '\0' {
            assert(source_ref@[i as int] == '\0');
            return Err(io_error("helper source reference contains NUL"));
        }
        bytes = bytes + w;
        i = i + 1;
    }
    assert(chars@.take(chars@.len() as int) == chars@);
    Ok(())
}

/// Encoded length never shrinks as a prefix grows.
pub proof fn lemma_utf8_len_grows(s: Seq<char>, k: int)
    requires
        0 <= k <= s.len(),
    ensures
        utf8_len(s.take(k)) <= utf8_len(s),
    decreases s.len() - k,
{
    if k < s.len() {
        lemma_utf8_len_grows(s, k + 1);
        assert(s.take(k + 1).drop_last() == s.take(k));
    } else {
        assert(s.take(k) == s);
    }
}

impl ProtocolRequest {
    /// Checks a request against the schema before anything is attempted.
    pub fn validate(&self) -> (r: RecoveryResult<()>)
        ensures
            r is Ok <==> request_ok(*self),
            self.version != PROTOCOL_VERSION ==> (r matches Err(e) && e is Unsupported),
    {
        if self.version != PROTOCOL_VERSION {
            return Err(unsupported("unsupported helper protocol version"));
        }
        match &self.operation {
            Operation::GetSourceMetadata { source_ref } => validate_source_ref(source_ref),
            Operation::OpenReadOnly { source_ref } => validate_source_ref(source_ref),
            Operation::Read { handle, length, .. } => {
                if *handle == 0 {
                    return Err(io_error("invalid helper handle"));
                }
                if *length == 0 || *length > MAX_READ_LENGTH {
                    return Err(io_error("helper read length is outside the allowed range"));
                }
                Ok(())
            },
            Operation::Close { handle } => {
                if *handle == 0 {
                    return Err(io_error("invalid helper handle"));
                }
                Ok(())
            },
        }
    }
}

} // verus!
