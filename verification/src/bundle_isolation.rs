//! Bundle / catalog member isolation (Contract §6.11-0011): a catalog is
//! several contract documents carried together, each delimited by its own
//! §6.11-0003 header `len=<N>`. A member whose body is malformed is declined in
//! isolation while its siblings still parse; only a member whose frame cannot
//! be delimited ends the reading, with a typed frame error, and every sibling
//! read before it is kept.

use vstd::prelude::*;
use vstd::utf8::{decode_utf8, valid_utf8};
use crate::contract::{
    first_line_len, lemma_first_line_len, line_end_of, magic, read_document, read_spec,
    ContractDecline, ContractHeader, DeclineView, HeaderView,
};
use crate::text::{
    chars_of, chars_skip, chars_start_with, chars_vv, parse_unsigned, parse_unsigned_chars,
    split_chars, split_seq, starts_with, str_bytes, utf8_decode,
};
use crate::wire::{copy_range, has_prefix_at};

verus! {

/// The per-member outcome of reading a bundle.
#[derive(Debug, Clone, PartialEq, Eq)]
pub enum MemberOutcome {
    /// The member's frame and body validated (§6.1 / §6.11).
    Accepted(ContractHeader),
    /// The member was well-framed but its body was malformed — a decline
    /// isolated to this member.
    Declined(ContractDecline),
}

/// The content of a [`MemberOutcome`].
pub enum OutcomeView {
    Accepted(HeaderView),
    Declined(DeclineView),
}

impl View for MemberOutcome {
    type V = OutcomeView;

    open spec fn view(&self) -> OutcomeView {
        match self {
            MemberOutcome::Accepted(h) => OutcomeView::Accepted(h@),
            MemberOutcome::Declined(d) => OutcomeView::Declined(d@),
        }
    }
}

/// A terminal frame error: the member's self-delimiting frame is unrecoverable,
/// so the next member boundary cannot be located.
#[derive(Debug, Clone, PartialEq, Eq, Structural)]
pub enum FrameError {
    /// The member does not begin with the pinned magic `KISC` (§6.11-0002).
    NoMagic,
    /// The header line has no terminating LF (§6.11-0002).
    UnterminatedHeader,
    /// The header line carries no parsable `len=<N>`, or the declared length
    /// overruns the remaining bytes (§6.11-0003).
    MalformedLen,
}

/// The byte extent of the member at the front of `s` — its header line through
/// the LF plus the declared body length — read from the frame alone, the body
/// unvalidated.
pub open spec fn extent_of(s: Seq<u8>) -> Result<int, FrameError> {
    if s.len() < 4 || s.take(4) != magic() {
        Err(FrameError::NoMagic)
    } else {
        let n = first_line_len(s);
        if s[n - 1] != 10 {
            Err(FrameError::UnterminatedHeader)
        } else {
            let h = s.take(n - 1);
            if !valid_utf8(h) {
                Err(FrameError::MalformedLen)
            } else {
                let parts = split_seq(decode_utf8(h), ' ');
                if parts.len() != 5 || !starts_with(parts[3], "len="@) || parse_unsigned(
                    parts[3].skip(4),
                    usize::MAX as nat,
                ) is None {
                    Err(FrameError::MalformedLen)
                } else {
                    let end = n + parse_unsigned(parts[3].skip(4), usize::MAX as nat)->0;
                    if end > usize::MAX || end > s.len() {
                        Err(FrameError::MalformedLen)
                    } else {
                        Ok(end)
                    }
                }
            }
        }
    }
}

pub proof fn lemma_extent_positive(s: Seq<u8>)
    requires
        extent_of(s) is Ok,
    ensures
        1 <= extent_of(s)->Ok_0 <= s.len(),
{
    lemma_first_line_len(s);
}

/// The outcome of validating one member's bytes.
pub open spec fn outcome_of(m: Seq<u8>) -> OutcomeView {
    match read_spec(m) {
        Ok(h) => OutcomeView::Accepted(h),
        Err(d) => OutcomeView::Declined(d),
    }
}

/// The §6.11-0011 reading of a bundle: one outcome per delimited member, in
/// stream order, and the terminal frame error, if a frame could not be
/// delimited.
pub open spec fn bundle_of(s: Seq<u8>) -> (Seq<OutcomeView>, Option<FrameError>)
    decreases s.len(),
{
    if s.len() == 0 {
        (seq![], None)
    } else {
        match extent_of(s) {
            Err(fe) => (seq![], Some(fe)),
            Ok(e) => {
                proof {
                    lemma_extent_positive(s);
                }
                let rest = bundle_of(s.skip(e));
                (seq![outcome_of(s.take(e))] + rest.0, rest.1)
            },
        }
    }
}

fn member_extent(stream: &[u8]) -> (r: Result<usize, FrameError>)
    ensures
        match (r, extent_of(stream@)) {
            (Ok(e), Ok(f)) => e as int == f,
            (Err(x), Err(y)) => x == y,
            _ => false,
        },
{
    let m = str_bytes("KISC");
    proof {
        reveal_strlit("KISC");
        vstd::utf8::is_ascii_chars_encode_utf8("KISC"@);
    }
    if stream.len() < 4 || !has_prefix_at(stream, 0, m.as_slice()) {
        proof {
            if stream@.len() >= 4 {
                assert(stream@.subrange(0, 4) == stream@.take(4));
            }
        }
        return Err(FrameError::NoMagic);
    }
    assert(stream@.subrange(0, 4) == stream@.take(4));
    let e = line_end_of(stream);
    if stream[e - 1] != 10 {
        return Err(FrameError::UnterminatedHeader);
    }
    let lf = e - 1;
    let header = copy_range(stream, 0, lf);
    assert(header@ == stream@.take(lf as int));
    let text = match utf8_decode(header.as_slice()) {
        Some(t) => t,
        None => {
            return Err(FrameError::MalformedLen);
        },
    };
    let cs = chars_of(text.as_str());
    let parts = split_chars(cs.as_slice(), ' ');
    let ghost ps = split_seq(decode_utf8(header@), ' ');
    assert(chars_vv(parts@) == ps);
    if parts.len() != 5 {
        return Err(FrameError::MalformedLen);
    }
    assert(parts@[3]@ == ps[3]);
    let len_lit = chars_of("len=");
    proof {
        reveal_strlit("len=");
    }
    if !chars_start_with(parts[3].as_slice(), len_lit.as_slice()) {
        return Err(FrameError::MalformedLen);
    }
    let digits = chars_skip(parts[3].as_slice(), 4);
    let declared = match parse_unsigned_chars(digits.as_slice(), usize::MAX as u64) {
        Some(n) => n as usize,
        None => {
            return Err(FrameError::MalformedLen);
        },
    };
    let header_len = e;
    if declared > usize::MAX - header_len {
        return Err(FrameError::MalformedLen);
    }
    let end = header_len + declared;
    if end > stream.len() {
        return Err(FrameError::MalformedLen);
    }
    Ok(end)
}

/// Read a bundle / catalog of self-delimiting contract-document members
/// (§6.11-0011): one outcome per delimited member, in stream order — accepted
/// with its transport header, or declined in isolation — and, when a member's
/// frame cannot be delimited, the terminal frame error after the members
/// already read.
pub fn read_bundle(stream: &[u8]) -> (r: (Vec<MemberOutcome>, Option<FrameError>))
    ensures
        Seq::new(r.0@.len(), |i: int| r.0@[i]@) == bundle_of(stream@).0,
        r.1 == bundle_of(stream@).1,
{
    let mut out: Vec<MemberOutcome> = Vec::new();
    let mut cursor: usize = 0;
    assert(stream@.skip(0) == stream@);
    while cursor < stream.len()
        invariant
            cursor <= stream@.len(),
            Seq::new(out@.len(), |i: int| out@[i]@) + bundle_of(stream@.skip(cursor as int)).0
                == bundle_of(stream@).0,
            bundle_of(stream@.skip(cursor as int)).1 == bundle_of(stream@).1,
        decreases stream.len() - cursor,
    {
        let rest = copy_range(stream, cursor, stream.len());
        assert(rest@ == stream@.skip(cursor as int));
        let ghost ov = Seq::new(out@.len(), |i: int| out@[i]@);
        let extent = match member_extent(rest.as_slice()) {
            Ok(e) => e,
            Err(fe) => {
                assert(Seq::new(out@.len(), |i: int| out@[i]@) =~= ov + bundle_of(rest@).0);
                return (out, Some(fe));
            },
        };
        proof {
            lemma_extent_positive(rest@);
        }
        let member = copy_range(rest.as_slice(), 0, extent);
        assert(member@ == rest@.take(extent as int));
        match read_document(member.as_slice()) {
            Ok(h) => out.push(MemberOutcome::Accepted(h)),
            Err(d) => out.push(MemberOutcome::Declined(d)),
        }
        proof {
            assert(rest@.skip(extent as int) =~= stream@.skip(cursor + extent));
            assert(Seq::new(out@.len(), |i: int| out@[i]@) =~= ov.push(outcome_of(member@)));
            let b = bundle_of(rest@);
            assert(b.0 =~= seq![outcome_of(member@)] + bundle_of(rest@.skip(extent as int)).0);
            assert(ov.push(outcome_of(member@)) + bundle_of(stream@.skip(cursor + extent)).0 =~= ov
                + b.0);
        }
        cursor = cursor + extent;
    }
    assert(stream@.skip(cursor as int).len() == 0);
    assert(Seq::new(out@.len(), |i: int| out@[i]@) + Seq::<OutcomeView>::empty() =~= Seq::new(out@.len(), |i: int| out@[i]@));
    (out, None)
}

/// Member isolation (§6.11-0011): once a member's frame delimits it, the rest
/// of the bundle reads exactly as it would alone — whatever the member's body
/// holds, well-formed or malformed, it contributes its own outcome and nothing
/// else.
pub proof fn member_isolation(member: Seq<u8>, rest: Seq<u8>)
    requires
        extent_of(member + rest) == Ok::<int, FrameError>(member.len() as int),
    ensures
        bundle_of(member + rest).0 == seq![outcome_of(member)] + bundle_of(rest).0,
        bundle_of(member + rest).1 == bundle_of(rest).1,
{
    let s = member + rest;
    lemma_extent_positive(s);
    assert(s.take(member.len() as int) =~= member);
    assert(s.skip(member.len() as int) =~= rest);
}

} // verus!
