//! The optional request-correlation id on the KISS-Announce contract-query /
//! KISS-Synth provision request and response frames (KISS-ANNOUNCE-6.4-0013).
//! A request that carries one is answered by a response echoing the identical
//! eight bytes; a synchronous seam omits it, and an empty tail is a valid
//! absent field.
//!
//! Wire tail, appended after the frame body:
//! ```text
//!   +0  1  correlation_present  u8      0 or 1
//!   +1  8  correlation_id       u8[8]   present only when correlation_present == 1
//! ```

use vstd::prelude::*;

verus! {

/// A reserved/optional 8-byte request-correlation id (§6.4-0013).
pub type CorrelationId = [u8; 8];

/// Reason a correlation tail was rejected: a `MALFORMED_REQUEST` typed decline.
#[derive(Debug, Clone, PartialEq, Eq, Structural)]
pub enum CorrelationError {
    /// `correlation_present` was a byte other than `0` or `1`.
    BadPresentFlag { got: u8 },
    /// The tail ended before the 8 id bytes a present flag promised.
    Truncated,
}

/// The tail of an optional id: nothing when absent, else `1` then the id.
pub open spec fn tail_bytes(id: Option<Seq<u8>>) -> Seq<u8> {
    match id {
        None => seq![],
        Some(b) => seq![1u8] + b,
    }
}

/// The view of an optional id.
pub open spec fn id_view(id: Option<CorrelationId>) -> Option<Seq<u8>> {
    match id {
        None => None,
        Some(b) => Some(b@),
    }
}

/// Serialize the optional correlation tail (§6.4-0013): `None` is no tail at
/// all, so the frame is byte-identical to one without the extension.
pub fn encode_tail(id: Option<CorrelationId>) -> (v: Vec<u8>)
    ensures
        v@ == tail_bytes(id_view(id)),
{
    match id {
        None => Vec::new(),
        Some(bytes) => {
            let mut out: Vec<u8> = Vec::new();
            out.push(1u8);
            let mut i: usize = 0;
            while i < 8
                invariant
                    i <= 8,
                    bytes@.len() == 8,
                    out@ == seq![1u8] + bytes@.take(i as int),
                decreases 8 - i,
            {
                out.push(bytes[i]);
                i += 1;
            }
            assert(bytes@.take(8) == bytes@);
            out
        },
    }
}

/// The reading of a correlation tail.
pub open spec fn tail_of(tail: Seq<u8>) -> Result<Option<Seq<u8>>, CorrelationError> {
    if tail.len() == 0 || tail[0] == 0 {
        Ok(None)
    } else if tail[0] == 1 {
        if tail.len() < 9 {
            Err(CorrelationError::Truncated)
        } else {
            Ok(Some(tail.subrange(1, 9)))
        }
    } else {
        Err(CorrelationError::BadPresentFlag { got: tail[0] })
    }
}

/// Parse a correlation tail (§6.4-0013): an empty tail or a present flag of
/// `0` is absent; a flag of `1` yields the next 8 bytes (bytes after them are
/// not examined); any other flag, or a short present tail, is a typed error.
pub fn parse_tail(tail: &[u8]) -> (r: Result<Option<CorrelationId>, CorrelationError>)
    ensures
        match (r, tail_of(tail@)) {
            (Ok(a), Ok(b)) => id_view(a) == b,
            (Err(e), Err(f)) => e == f,
            _ => false,
        },
{
    if tail.len() == 0 || tail[0] == 0 {
        return Ok(None);
    }
    if tail[0] != 1 {
        return Err(CorrelationError::BadPresentFlag { got: tail[0] });
    }
    if tail.len() < 9 {
        return Err(CorrelationError::Truncated);
    }
    let id: [u8; 8] = [tail[1], tail[2], tail[3], tail[4], tail[5], tail[6], tail[7], tail[8]];
    assert(id@ =~= tail@.subrange(1, 9));
    Ok(Some(id))
}

/// The provider echo obligation (§6.4-0013): the response carries the
/// request's correlation id unchanged, or none when the request carried none.
pub fn echo(request_id: Option<CorrelationId>) -> (r: Option<CorrelationId>)
    ensures
        r == request_id,
{
    request_id
}

/// A tail reads back as what was written: parsing the encoding of an optional
/// id gives that id.
pub proof fn tail_roundtrip(id: Option<Seq<u8>>)
    requires
        id matches Some(b) ==> b.len() == 8,
    ensures
        tail_of(tail_bytes(id)) == Ok::<Option<Seq<u8>>, CorrelationError>(id),
{
    match id {
        Some(b) => {
            assert(tail_bytes(id).subrange(1, 9) =~= b);
        },
        None => {},
    }
}

} // verus!
