//! The typed-decline taxonomy (§6.4-0009/-0010): a closed normative
//! `decline_code` a consumer binds on, and an open, seeded, informative
//! `blocker_reason` set that is never a gate.

use vstd::prelude::*;
use crate::text::{push_str, str_eq};

verus! {

/// The closed normative decline code (§6.4-0009).
#[derive(Debug, Clone, Copy, PartialEq, Eq, Structural)]
pub enum DeclineCode {
    NotARegion,
    MultiOutput,
    BindSetMismatch,
    UnknownOp,
    OperandTupleInexpressible,
    AttrsCantCarry,
    OutOfRangeIndex,
}

/// The wire token of a decline code.
pub open spec fn code_token(c: DeclineCode) -> Seq<char> {
    match c {
        DeclineCode::NotARegion => "not-a-region"@,
        DeclineCode::MultiOutput => "multi-output"@,
        DeclineCode::BindSetMismatch => "bind-set-mismatch"@,
        DeclineCode::UnknownOp => "unknown-op"@,
        DeclineCode::OperandTupleInexpressible => "operand-tuple-inexpressible"@,
        DeclineCode::AttrsCantCarry => "attrs-can't-carry"@,
        DeclineCode::OutOfRangeIndex => "out-of-range-index"@,
    }
}

/// The message a rejected token gets.
pub open spec fn not_a_code_message(token: Seq<char>) -> Seq<char> {
    "`"@ + token + "` is not a \u{00a7}6.4-0009 decline_code (closed set)"@
}

/// The full closed set, in declaration order.
pub const DECLINE_CODES: [DeclineCode; 7] = [
    DeclineCode::NotARegion,
    DeclineCode::MultiOutput,
    DeclineCode::BindSetMismatch,
    DeclineCode::UnknownOp,
    DeclineCode::OperandTupleInexpressible,
    DeclineCode::AttrsCantCarry,
    DeclineCode::OutOfRangeIndex,
];

impl DeclineCode {
    /// The wire token.
    pub fn as_str(self) -> (t: &'static str)
        ensures
            t@ == code_token(self),
    {
        match self {
            DeclineCode::NotARegion => "not-a-region",
            DeclineCode::MultiOutput => "multi-output",
            DeclineCode::BindSetMismatch => "bind-set-mismatch",
            DeclineCode::UnknownOp => "unknown-op",
            DeclineCode::OperandTupleInexpressible => "operand-tuple-inexpressible",
            DeclineCode::AttrsCantCarry => "attrs-can't-carry",
            DeclineCode::OutOfRangeIndex => "out-of-range-index",
        }
    }

    /// Parse a wire token into the closed code; an unknown token is rejected
    /// with a message naming it (the set is closed, §6.4-0009).
    pub fn parse(token: &str) -> (r: Result<DeclineCode, String>)
        ensures
            r is Ok <==> exists|c: DeclineCode| code_token(c) == token@,
            r matches Ok(c) ==> code_token(c) == token@,
            r matches Err(m) ==> m@ == not_a_code_message(token@),
    {
        let all = DECLINE_CODES;
        let mut i: usize = 0;
        while i < 7
            invariant
                i <= 7,
                all@ == DECLINE_CODES@,
                forall|j: int| 0 <= j < i ==> code_token(#[trigger] all@[j]) != token@,
            decreases 7 - i,
        {
            let c = all[i];
            if str_eq(c.as_str(), token) {
                return Ok(c);
            }
            i += 1;
        }
        proof {
            assert forall|c: DeclineCode| code_token(c) != token@ by {
                match c {
                    DeclineCode::NotARegion => assert(all@[0] == c),
                    DeclineCode::MultiOutput => assert(all@[1] == c),
                    DeclineCode::BindSetMismatch => assert(all@[2] == c),
                    DeclineCode::UnknownOp => assert(all@[3] == c),
                    DeclineCode::OperandTupleInexpressible => assert(all@[4] == c),
                    DeclineCode::AttrsCantCarry => assert(all@[5] == c),
                    DeclineCode::OutOfRangeIndex => assert(all@[6] == c),
                }
            }
        }
        let mut m = String::new();
        push_str(&mut m, "`");
        push_str(&mut m, token);
        push_str(&mut m, "` is not a \u{00a7}6.4-0009 decline_code (closed set)");
        Err(m)
    }

    /// Whether the code is a Phase-A whole-input structural decline
    /// (§6.4-0008); the others are Phase-B per-region lift-misses.
    pub fn is_phase_a_structural(self) -> (r: bool)
        ensures
            r == (self == DeclineCode::NotARegion || self == DeclineCode::MultiOutput || self
                == DeclineCode::BindSetMismatch || self == DeclineCode::OutOfRangeIndex),
    {
        match self {
            DeclineCode::NotARegion | DeclineCode::MultiOutput | DeclineCode::BindSetMismatch
            | DeclineCode::OutOfRangeIndex => true,
            _ => false,
        }
    }
}

/// The §6.4-0010 `blocker_reason` seed registry: the recommended spellings of
/// the known blocker classes (the registry is open).
pub const SEED_BLOCKER_REASONS: [&'static str; 6] = [
    "vocabulary",
    "attrs-channel",
    "keying",
    "determinism",
    "shape-layout-inexpressible",
    "dispatch-envelope",
];

/// Whether `reason` is one of the seeded recommended spellings.
pub fn is_seed_reason(reason: &str) -> (r: bool)
    ensures
        r == exists|i: int| 0 <= i < 6 && (#[trigger] SEED_BLOCKER_REASONS@[i])@ == reason@,
{
    let seeds = SEED_BLOCKER_REASONS;
    let mut i: usize = 0;
    while i < 6
        invariant
            i <= 6,
            seeds@ == SEED_BLOCKER_REASONS@,
            forall|j: int| 0 <= j < i ==> (#[trigger] SEED_BLOCKER_REASONS@[j])@ != reason@,
        decreases 6 - i,
    {
        if str_eq(seeds[i], reason) {
            return true;
        }
        i += 1;
    }
    false
}

/// A decline / residue frame's typed-decline fields (§6.4-0009/-0010).
#[derive(Debug, Clone, PartialEq, Eq)]
pub struct DeclineFrame {
    /// The closed normative code (required).
    pub decline_code: DeclineCode,
    /// The open informative reason set (optional).
    pub blocker_reason: Vec<String>,
}

impl DeclineFrame {
    /// A frame is well-formed: its code is in the closed set by construction,
    /// and `blocker_reason` is open and never consulted as a gate, so every
    /// frame passes.
    pub fn is_well_formed(&self) -> (r: bool)
        ensures
            r,
    {
        true
    }
}

/// Each code's token reads back as that code: the token spellings are pairwise
/// distinct.
pub proof fn decline_token_roundtrip(c: DeclineCode, d: DeclineCode)
    requires
        code_token(c) == code_token(d),
    ensures
        c == d,
{
    reveal_strlit("not-a-region");
    reveal_strlit("multi-output");
    reveal_strlit("bind-set-mismatch");
    reveal_strlit("unknown-op");
    reveal_strlit("operand-tuple-inexpressible");
    reveal_strlit("attrs-can't-carry");
    reveal_strlit("out-of-range-index");
    match c {
        DeclineCode::NotARegion => {
            assert("not-a-region"@[0] != "multi-output"@[0]);
            assert("not-a-region"@.len() != "bind-set-mismatch"@.len());
            assert("not-a-region"@.len() != "unknown-op"@.len());
            assert("not-a-region"@.len() != "operand-tuple-inexpressible"@.len());
            assert("not-a-region"@.len() != "attrs-can't-carry"@.len());
            assert("not-a-region"@.len() != "out-of-range-index"@.len());
        },
        DeclineCode::MultiOutput => {
            assert("multi-output"@[0] != "not-a-region"@[0]);
            assert("multi-output"@.len() != "bind-set-mismatch"@.len());
            assert("multi-output"@.len() != "unknown-op"@.len());
            assert("multi-output"@.len() != "operand-tuple-inexpressible"@.len());
            assert("multi-output"@.len() != "attrs-can't-carry"@.len());
            assert("multi-output"@.len() != "out-of-range-index"@.len());
        },
        DeclineCode::BindSetMismatch => {
            assert("bind-set-mismatch"@.len() != "not-a-region"@.len());
            assert("bind-set-mismatch"@.len() != "multi-output"@.len());
            assert("bind-set-mismatch"@.len() != "unknown-op"@.len());
            assert("bind-set-mismatch"@.len() != "operand-tuple-inexpressible"@.len());
            assert("bind-set-mismatch"@[0] != "attrs-can't-carry"@[0]);
            assert("bind-set-mismatch"@.len() != "out-of-range-index"@.len());
        },
        DeclineCode::UnknownOp => {
            assert("unknown-op"@.len() != "not-a-region"@.len());
            assert("unknown-op"@.len() != "multi-output"@.len());
            assert("unknown-op"@.len() != "bind-set-mismatch"@.len());
            assert("unknown-op"@.len() != "operand-tuple-inexpressible"@.len());
            assert("unknown-op"@.len() != "attrs-can't-carry"@.len());
            assert("unknown-op"@.len() != "out-of-range-index"@.len());
        },
        DeclineCode::OperandTupleInexpressible => {
            assert("operand-tuple-inexpressible"@.len() != "not-a-region"@.len());
            assert("operand-tuple-inexpressible"@.len() != "multi-output"@.len());
            assert("operand-tuple-inexpressible"@.len() != "bind-set-mismatch"@.len());
            assert("operand-tuple-inexpressible"@.len() != "unknown-op"@.len());
            assert("operand-tuple-inexpressible"@.len() != "attrs-can't-carry"@.len());
            assert("operand-tuple-inexpressible"@.len() != "out-of-range-index"@.len());
        },
        DeclineCode::AttrsCantCarry => {
            assert("attrs-can't-carry"@.len() != "not-a-region"@.len());
            assert("attrs-can't-carry"@.len() != "multi-output"@.len());
            assert("attrs-can't-carry"@[0] != "bind-set-mismatch"@[0]);
            assert("attrs-can't-carry"@.len() != "unknown-op"@.len());
            assert("attrs-can't-carry"@.len() != "operand-tuple-inexpressible"@.len());
            assert("attrs-can't-carry"@.len() != "out-of-range-index"@.len());
        },
        DeclineCode::OutOfRangeIndex => {
            assert("out-of-range-index"@.len() != "not-a-region"@.len());
            assert("out-of-range-index"@.len() != "multi-output"@.len());
            assert("out-of-range-index"@.len() != "bind-set-mismatch"@.len());
            assert("out-of-range-index"@.len() != "unknown-op"@.len());
            assert("out-of-range-index"@.len() != "operand-tuple-inexpressible"@.len());
            assert("out-of-range-index"@.len() != "attrs-can't-carry"@.len());
        },
    }
}

} // verus!
