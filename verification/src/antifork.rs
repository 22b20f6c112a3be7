//! The anti-fork op-tag rule (§6.4-0012): the op name is the sole identity
//! anchor of an advertisable op. A party that meets an operation it cannot
//! re-base onto a KISS-Ops op name must typed-decline and must never fabricate
//! a tag: every emitted `op_name` is a member of the confirmed vocabulary.

use vstd::prelude::*;
use crate::text::{str_eq, string_from};

verus! {

/// A typed decline for an operation with no KISS-Ops op name in the pinned
/// vocabulary.
#[derive(Debug, Clone, PartialEq, Eq)]
pub struct UnknownOp {
    pub candidate: String,
}

/// Whether `s` is one of the names of `vocab`.
pub open spec fn in_vocab<'a>(vocab: Seq<&'a str>, s: Seq<char>) -> bool {
    exists|i: int| 0 <= i < vocab.len() && (#[trigger] vocab[i])@ == s
}

/// Emit the confirmed KISS-Ops op tag for a candidate operation: the
/// vocabulary's entry when the candidate names a KISS-Ops op, otherwise a typed
/// decline carrying the candidate. It never invents, guesses or re-bases a tag.
pub fn emit_op_tag<'a>(candidate: &str, kiss_ops_vocab: &'a [&'a str]) -> (r: Result<&'a str, UnknownOp>)
    ensures
        r is Ok <==> in_vocab(kiss_ops_vocab@, candidate@),
        r matches Ok(t) ==> t@ == candidate@,
        r matches Err(e) ==> e.candidate@ == candidate@,
{
    let mut i: usize = 0;
    while i < kiss_ops_vocab.len()
        invariant
            i <= kiss_ops_vocab@.len(),
            forall|j: int| 0 <= j < i ==> (#[trigger] kiss_ops_vocab@[j])@ != candidate@,
        decreases kiss_ops_vocab.len() - i,
    {
        let name = kiss_ops_vocab[i];
        if str_eq(name, candidate) {
            assert(kiss_ops_vocab@[i as int]@ == candidate@);
            return Ok(name);
        }
        i += 1;
    }
    Err(UnknownOp { candidate: string_from(candidate) })
}

/// Witness the positive anti-fork invariant over a set of emitted op tags:
/// every emitted tag is a member of the confirmed KISS-Ops vocabulary.
pub fn no_fabricated_tag(emitted: &[&str], kiss_ops_vocab: &[&str]) -> (r: bool)
    ensures
        r == forall|i: int| 0 <= i < emitted@.len() ==> in_vocab(kiss_ops_vocab@, (#[trigger] emitted@[i])@),
{
    let mut i: usize = 0;
    while i < emitted.len()
        invariant
            i <= emitted@.len(),
            forall|k: int| 0 <= k < i ==> in_vocab(kiss_ops_vocab@, (#[trigger] emitted@[k])@),
        decreases emitted.len() - i,
    {
        let tag = emitted[i];
        let mut found = false;
        let mut j: usize = 0;
        while j < kiss_ops_vocab.len()
            invariant
                j <= kiss_ops_vocab@.len(),
                found ==> in_vocab(kiss_ops_vocab@, tag@),
                !found ==> forall|q: int| 0 <= q < j ==> (#[trigger] kiss_ops_vocab@[q])@ != tag@,
            decreases kiss_ops_vocab.len() - j,
        {
            if !found && str_eq(kiss_ops_vocab[j], tag) {
                assert(kiss_ops_vocab@[j as int]@ == tag@);
                found = true;
            }
            j += 1;
        }
        if !found {
            assert(!in_vocab(kiss_ops_vocab@, emitted@[i as int]@));
            return false;
        }
        i += 1;
    }
    true
}

/// An emitted tag is never fabricated: whatever `emit_op_tag` returns is a
/// member of the vocabulary it was given.
pub proof fn emitted_tag_in_vocab<'a>(candidate: Seq<char>, vocab: Seq<&'a str>, tag: Seq<char>)
    requires
        in_vocab(vocab, candidate),
        tag == candidate,
    ensures
        in_vocab(vocab, tag),
{
}

} // verus!
