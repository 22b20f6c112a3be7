//! Reference encoder/decoder for the KISS-Announce 56-byte handshake envelope
//! (Announce §6.1), the availability list (§6.3), the contract-query frames
//! (§6.4), and the hard-reject reader discipline (§6.2): every malformation is
//! a typed decline, never a panic or an out-of-bounds read.
//!
//! Envelope layout (all multi-byte fields little-endian):
//! ```text
//!   0  4  magic            u32 LE  == 0x4D414553 ("SEAM", wire 53 45 41 4D)
//!   4  1  envelope_version u8      1
//!   5  3  reserved0        u8[3]   MBZ
//!   8  2  profiles_len     u16 LE  <= 16
//!  10 32  profiles         u16[16] live entries >=1 ascending, trailing 0
//!  42  6  reserved1        u8[6]   MBZ
//!  48  8  capabilities     u64 LE
//! ```

use vstd::prelude::*;
use crate::text::{dec_chars, hex_upper_spaced, push_dec, push_hex_upper_spaced, push_str};
use crate::wire::{
    copy_range, le_value, lemma_le_bytes_len, lemma_u16_roundtrip, lemma_u32_roundtrip,
    lemma_u64_roundtrip, push_all, push_u16_le, push_u32_le, push_u64_le, read_u16_le,
    read_u32_le, read_u64_le, u16_le, u32_le, u64_le,
};

verus! {

/// The envelope magic (§6.1-0004): the u32-LE value of wire bytes `53 45 41 4D`.
pub const MAGIC: u32 = 0x4D41_4553;
/// The fixed envelope length (§6.1-0001).
pub const ENVELOPE_LEN: usize = 56;
/// The maximum number of live profiles (§6.1-0007).
pub const MAX_PROFILES: usize = 16;

/// Availability-list tag `SAVL` (§6.3-0011): wire bytes `53 41 56 4C`.
pub const SAVL: u32 = 0x4C56_4153;
/// Contract-query request tag `CYRQ` (§6.4-0001): wire bytes `43 59 52 51`.
pub const CYRQ: u32 = 0x5152_5943;
/// Contract response tag `CRSP` (§6.4-0004): wire bytes `43 52 53 50`.
pub const CRSP: u32 = 0x5053_5243;
/// Decline response tag `CDEC` (§6.4-0007): wire bytes `43 44 45 43`.
pub const CDEC: u32 = 0x4345_4443;

/// Inclusive upper bound on a `structure_key` byte-length (§6.3-0009, §6.4-0001).
pub const MAX_STRUCTURE_KEY_LEN: u32 = 4096;
/// Upper bound on an availability list's `record_count` (§6.3-0010, `2^20`).
pub const MAX_AVAILABILITY_RECORDS: u32 = 0x10_0000;

/// The pinned little-endian u32 `decline_code` values (§6.4-0009).
pub const UNKNOWN_STRUCTURE_KEY: u32 = 0x0000_0001;
pub const CANNOT_PROVISION: u32 = 0x0000_0002;
pub const MALFORMED_REQUEST: u32 = 0x0000_0003;
pub const QUERY_NOT_SUPPORTED: u32 = 0x0000_0004;
pub const VERSION_UNSUPPORTED: u32 = 0x0000_0005;
pub const UNKNOWN_REVISION: u32 = 0x0000_0006;

/// A decoded handshake envelope.
#[derive(Debug, Clone, PartialEq, Eq)]
pub struct Envelope {
    pub envelope_version: u8,
    pub profiles: Vec<u16>,
    pub capabilities: u64,
}

/// The mathematical content of an [`Envelope`].
pub struct EnvelopeView {
    pub envelope_version: u8,
    pub profiles: Seq<u16>,
    pub capabilities: u64,
}

impl View for Envelope {
    type V = EnvelopeView;

    open spec fn view(&self) -> EnvelopeView {
        EnvelopeView {
            envelope_version: self.envelope_version,
            profiles: self.profiles@,
            capabilities: self.capabilities,
        }
    }
}

/// A typed decline from the POD reader (§6.2 hard-reject; never a panic).
#[derive(Debug, Clone, PartialEq, Eq)]
pub enum AnnounceDecline {
    WrongLength { got: usize },
    BadMagic { got: u32 },
    UnsupportedVersion { got: u8 },
    ReservedNonZero { region: &'static str },
    ProfilesLenOverflow { got: u16 },
    ZeroLiveProfile,
    ProfilesNotStrictlyAscending,
    TrailingProfileNonZero,
    /// Version negotiation found no profile common to both live-profile sets (§7.1-0002).
    NoMutualProfile,
    /// A 4-byte message tag did not match the expected code (§6.3-0011, §6.4).
    BadTag { region: &'static str, got: u32 },
    /// An availability list carried an unsupported `list_version` (§6.3-0012).
    ListVersionUnsupported { got: u8 },
    /// Input ended before a fixed-width field could be read (§6.4-0006).
    Truncated { region: &'static str },
    /// A declared `structure_key` byte-length fell outside `[1, 4096]`.
    StructureKeyLenOutOfRange { got: u32 },
    /// A declared `record_count` exceeded `MAX_AVAILABILITY_RECORDS` (§6.3-0010).
    RecordCountOverflow { got: u32 },
    /// A `revision_present` flag was neither `0` nor `1` (§6.4-0001).
    BadRevisionPresent { got: u8 },
}

// ---------------------------------------------------------------------------
// Envelope (§6.1).
// ---------------------------------------------------------------------------

/// Profile slot `i` of the fixed 16-slot table: the live entry, else zero.
pub open spec fn profile_slot(p: Seq<u16>, i: int) -> u16 {
    if 0 <= i < p.len() {
        p[i]
    } else {
        0
    }
}

/// The first `k` profile slots, two little-endian bytes each.
pub open spec fn profile_slots_bytes(p: Seq<u16>, k: nat) -> Seq<u8>
    decreases k,
{
    if k == 0 {
        seq![]
    } else {
        profile_slots_bytes(p, (k - 1) as nat) + u16_le(profile_slot(p, k - 1))
    }
}

/// The 56 envelope bytes of `e` (§6.1-0002).
pub open spec fn envelope_bytes(e: EnvelopeView) -> Seq<u8> {
    u32_le(MAGIC) + seq![e.envelope_version, 0u8, 0u8, 0u8] + u16_le(e.profiles.len() as u16)
        + profile_slots_bytes(e.profiles, 16) + seq![0u8, 0u8, 0u8, 0u8, 0u8, 0u8] + u64_le(
        e.capabilities,
    )
}

/// Strictly ascending: each live profile below the next.
pub open spec fn strictly_ascending(p: Seq<u16>) -> bool {
    forall|i: int| 0 <= i < p.len() - 1 ==> #[trigger] p[i] < p[i + 1]
}

/// A valid live-profile set: at most 16, each `>= 1`, strictly ascending.
pub open spec fn valid_profiles(p: Seq<u16>) -> bool {
    &&& p.len() <= 16
    &&& forall|i: int| 0 <= i < p.len() ==> #[trigger] p[i] >= 1
    &&& strictly_ascending(p)
}

/// The little-endian u16 at `off`.
pub open spec fn word_at(b: Seq<u8>, off: int) -> nat {
    le_value(b.subrange(off, off + 2))
}

/// The little-endian u32 at `off`.
pub open spec fn dword_at(b: Seq<u8>, off: int) -> nat {
    le_value(b.subrange(off, off + 4))
}

/// Profile slot `i` of an envelope byte string.
pub open spec fn slot_at(b: Seq<u8>, i: int) -> nat {
    word_at(b, 10 + 2 * i)
}

/// Whether slot `i` breaks the table rule: a live slot holding 0, or a
/// trailing slot holding non-zero.
pub open spec fn slot_bad(b: Seq<u8>, plen: nat, i: int) -> bool {
    if i < plen {
        slot_at(b, i) == 0
    } else {
        slot_at(b, i) != 0
    }
}

/// The first bad slot at or after `i`, if any.
pub open spec fn first_bad_slot(b: Seq<u8>, plen: nat, i: int) -> Option<int>
    decreases 16 - i,
{
    if i >= 16 {
        None
    } else if slot_bad(b, plen, i) {
        Some(i)
    } else {
        first_bad_slot(b, plen, i + 1)
    }
}

/// The live profile entries an envelope carries.
pub open spec fn live_profiles(b: Seq<u8>, plen: nat) -> Seq<u16> {
    Seq::new(plen, |i: int| slot_at(b, i) as u16)
}

/// The reader's verdict on the 16-slot profile table of a 56-byte envelope.
pub open spec fn spec_profile_table(b: Seq<u8>, plen: nat) -> Result<Seq<u16>, AnnounceDecline> {
    if first_bad_slot(b, plen, 0) is Some {
        if first_bad_slot(b, plen, 0)->0 < plen {
            Err(AnnounceDecline::ZeroLiveProfile)
        } else {
            Err(AnnounceDecline::TrailingProfileNonZero)
        }
    } else if !strictly_ascending(live_profiles(b, plen)) {
        Err(AnnounceDecline::ProfilesNotStrictlyAscending)
    } else {
        Ok(live_profiles(b, plen))
    }
}

/// The reader's verdict on an envelope byte string (§6.1, §6.2), in the order
/// the checks are made.
pub open spec fn spec_decode(b: Seq<u8>) -> Result<EnvelopeView, AnnounceDecline> {
    let plen = word_at(b, 8);
    if b.len() != 56 {
        Err(AnnounceDecline::WrongLength { got: b.len() as usize })
    } else if dword_at(b, 0) != MAGIC {
        Err(AnnounceDecline::BadMagic { got: dword_at(b, 0) as u32 })
    } else if b[4] != 1 {
        Err(AnnounceDecline::UnsupportedVersion { got: b[4] })
    } else if !(b[5] == 0 && b[6] == 0 && b[7] == 0) {
        Err(AnnounceDecline::ReservedNonZero { region: "reserved0" })
    } else if plen > 16 {
        Err(AnnounceDecline::ProfilesLenOverflow { got: plen as u16 })
    } else {
        match spec_profile_table(b, plen) {
            Err(d) => Err(d),
            Ok(p) => if !(forall|j: int| 42 <= j < 48 ==> b[j] == 0) {
                Err(AnnounceDecline::ReservedNonZero { region: "reserved1" })
            } else {
                Ok(
                    EnvelopeView {
                        envelope_version: 1,
                        profiles: p,
                        capabilities: le_value(b.subrange(48, 56)) as u64,
                    },
                )
            },
        }
    }
}

impl Envelope {
    /// Serialize to exactly 56 bytes (§6.1-0002). The caller supplies a valid
    /// profile set (at most 16, strictly ascending, each `>= 1`).
    pub fn encode(&self) -> (b: Vec<u8>)
        requires
            valid_profiles(self.profiles@),
        ensures
            b@ == envelope_bytes(self@),
            b@.len() == ENVELOPE_LEN,
    {
        let mut b: Vec<u8> = Vec::new();
        push_u32_le(&mut b, MAGIC);
        b.push(self.envelope_version);
        b.push(0);
        b.push(0);
        b.push(0);
        push_u16_le(&mut b, self.profiles.len() as u16);
        let ghost head = b@;
        let mut i: usize = 0;
        while i < MAX_PROFILES
            invariant
                i <= 16,
                self.profiles@.len() <= 16,
                b@ == head + profile_slots_bytes(self.profiles@, i as nat),
            decreases 16 - i,
        {
            let w: u16 = if i < self.profiles.len() {
                self.profiles[i]
            } else {
                0
            };
            push_u16_le(&mut b, w);
            i += 1;
        }
        let mut k: usize = 0;
        while k < 6
            invariant
                k <= 6,
                b@ == head + profile_slots_bytes(self.profiles@, 16) + Seq::new(
                    k as nat,
                    |j: int| 0u8,
                ),
            decreases 6 - k,
        {
            b.push(0);
            k += 1;
            assert(Seq::new(k as nat, |j: int| 0u8) =~= Seq::new((k - 1) as nat, |j: int| 0u8).push(0u8));
        }
        push_u64_le(&mut b, self.capabilities);
        proof {
            lemma_envelope_bytes_len(self@);
            assert(Seq::new(6, |j: int| 0u8) =~= seq![0u8, 0u8, 0u8, 0u8, 0u8, 0u8]);
            assert(b@ =~= envelope_bytes(self@));
        }
        b
    }
}

proof fn lemma_profile_slots_bytes(p: Seq<u16>, k: nat)
    ensures
        profile_slots_bytes(p, k).len() == 2 * k,
        forall|i: int|
            0 <= i < k ==> #[trigger] profile_slots_bytes(p, k).subrange(2 * i, 2 * i + 2)
                == u16_le(profile_slot(p, i)),
    decreases k,
{
    if k > 0 {
        lemma_profile_slots_bytes(p, (k - 1) as nat);
        let prev = profile_slots_bytes(p, (k - 1) as nat);
        let last = u16_le(profile_slot(p, k - 1));
        lemma_u16_roundtrip(profile_slot(p, k - 1));
        let all = prev + last;
        assert forall|i: int| 0 <= i < k implies #[trigger] all.subrange(2 * i, 2 * i + 2)
            == u16_le(profile_slot(p, i)) by {
            if i < k - 1 {
                assert(all.subrange(2 * i, 2 * i + 2) =~= prev.subrange(2 * i, 2 * i + 2));
            } else {
                assert(all.subrange(2 * i, 2 * i + 2) =~= last);
            }
        }
    }
}

proof fn lemma_envelope_bytes_len(e: EnvelopeView)
    ensures
        envelope_bytes(e).len() == 56,
{
    lemma_profile_slots_bytes(e.profiles, 16);
    lemma_u16_roundtrip(e.profiles.len() as u16);
    lemma_u32_roundtrip(MAGIC);
    lemma_u64_roundtrip(e.capabilities);
}

/// Reads the live slots of the profile table, declining at the first bad slot.
fn read_profile_slots(b: &[u8], plen: usize) -> (r: Result<Vec<u16>, AnnounceDecline>)
    requires
        b@.len() == 56,
        plen <= 16,
    ensures
        match r {
            Ok(v) => first_bad_slot(b@, plen as nat, 0) is None && v@ == live_profiles(
                b@,
                plen as nat,
            ),
            Err(d) => first_bad_slot(b@, plen as nat, 0) is Some && d == (if first_bad_slot(
                b@,
                plen as nat,
                0,
            )->0 < plen {
                AnnounceDecline::ZeroLiveProfile
            } else {
                AnnounceDecline::TrailingProfileNonZero
            }),
        },
{
    let ghost pl = plen as nat;
    let mut profiles: Vec<u16> = Vec::new();
    let mut i: usize = 0;
    while i < MAX_PROFILES
        invariant
            b@.len() == 56,
            plen <= 16,
            pl == plen,
            i <= 16,
            first_bad_slot(b@, pl, 0) == first_bad_slot(b@, pl, i as int),
            profiles@.len() == if i < plen {
                i
            } else {
                plen
            },
            forall|j: int| 0 <= j < profiles@.len() ==> #[trigger] profiles@[j] == slot_at(b@, j),
        decreases 16 - i,
    {
        let p = read_u16_le(b, 10 + 2 * i);
        assert(p as nat == slot_at(b@, i as int));
        if i < plen {
            if p == 0 {
                assert(first_bad_slot(b@, pl, i as int) == Some(i as int));
                return Err(AnnounceDecline::ZeroLiveProfile);
            }
            profiles.push(p);
        } else if p != 0 {
            assert(first_bad_slot(b@, pl, i as int) == Some(i as int));
            return Err(AnnounceDecline::TrailingProfileNonZero);
        }
        i += 1;
    }
    assert(profiles@ =~= live_profiles(b@, pl));
    Ok(profiles)
}

/// Whether `p` is strictly ascending.
fn is_strictly_ascending(p: &[u16]) -> (r: bool)
    ensures
        r == strictly_ascending(p@),
{
    if p.len() == 0 {
        return true;
    }
    let mut k: usize = 1;
    while k < p.len()
        invariant
            1 <= k <= p@.len(),
            forall|j: int| 0 <= j < k - 1 ==> #[trigger] p@[j] < p@[j + 1],
        decreases p.len() - k,
    {
        if p[k - 1] >= p[k] {
            assert(!(p@[k - 1] < p@[(k - 1) + 1]));
            return false;
        }
        k += 1;
    }
    true
}

/// Decode + hard-reject a 56-byte envelope (§6.1, §6.2). Every malformation
/// yields a typed decline; no panic, abort, or out-of-bounds read.
pub fn decode(bytes: &[u8]) -> (r: Result<Envelope, AnnounceDecline>)
    ensures
        match r {
            Ok(e) => spec_decode(bytes@) == Ok::<EnvelopeView, AnnounceDecline>(e@),
            Err(d) => spec_decode(bytes@) == Err::<EnvelopeView, AnnounceDecline>(d),
        },
{
    let b = bytes;
    if b.len() != ENVELOPE_LEN {
        return Err(AnnounceDecline::WrongLength { got: b.len() });
    }
    let magic = read_u32_le(b, 0);
    if magic != MAGIC {
        return Err(AnnounceDecline::BadMagic { got: magic });
    }
    let version = b[4];
    if version != 1 {
        return Err(AnnounceDecline::UnsupportedVersion { got: version });
    }
    if !(b[5] == 0 && b[6] == 0 && b[7] == 0) {
        return Err(AnnounceDecline::ReservedNonZero { region: "reserved0" });
    }
    let profiles_len = read_u16_le(b, 8);
    if profiles_len as usize > MAX_PROFILES {
        return Err(AnnounceDecline::ProfilesLenOverflow { got: profiles_len });
    }
    let plen = profiles_len as usize;
    let profiles = match read_profile_slots(b, plen) {
        Ok(v) => v,
        Err(d) => {
            return Err(d);
        },
    };
    if !is_strictly_ascending(profiles.as_slice()) {
        return Err(AnnounceDecline::ProfilesNotStrictlyAscending);
    }
    if !all_zero(b, 42, 48) {
        return Err(AnnounceDecline::ReservedNonZero { region: "reserved1" });
    }
    let capabilities = read_u64_le(b, 48);
    Ok(Envelope { envelope_version: version, profiles, capabilities })
}

/// Whether `b[from..to]` is all zero bytes.
pub fn all_zero(b: &[u8], from: usize, to: usize) -> (r: bool)
    requires
        from <= to <= b@.len(),
    ensures
        r == (forall|t: int| from <= t < to ==> b@[t] == 0),
{
    let mut j = from;
    while j < to
        invariant
            from <= j <= to,
            to <= b@.len(),
            forall|t: int| from <= t < j ==> b@[t] == 0,
        decreases to - j,
    {
        if b[j] != 0 {
            return false;
        }
        j += 1;
    }
    true
}

/// A window of the middle part of a three-part concatenation.
pub proof fn lemma_concat3_mid(a: Seq<u8>, m: Seq<u8>, c: Seq<u8>, i: int, j: int)
    requires
        0 <= i <= j <= m.len(),
    ensures
        (a + m + c).subrange(a.len() + i, a.len() + j) == m.subrange(i, j),
{
    assert((a + m + c).subrange(a.len() + i, a.len() + j) =~= m.subrange(i, j));
}

proof fn lemma_first_bad_none(b: Seq<u8>, plen: nat, i: int)
    requires
        0 <= i <= 16,
        forall|j: int| i <= j < 16 ==> !slot_bad(b, plen, j),
    ensures
        first_bad_slot(b, plen, i) is None,
    decreases 16 - i,
{
    if i < 16 {
        lemma_first_bad_none(b, plen, i + 1);
    }
}

proof fn lemma_envelope_slots(e: EnvelopeView)
    requires
        valid_profiles(e.profiles),
    ensures
        forall|i: int| 0 <= i < 16 ==> #[trigger] slot_at(envelope_bytes(e), i) == profile_slot(
            e.profiles,
            i,
        ),
{
    let b = envelope_bytes(e);
    let p = e.profiles;
    lemma_profile_slots_bytes(p, 16);
    lemma_u16_roundtrip(p.len() as u16);
    lemma_u32_roundtrip(MAGIC);
    let head = u32_le(MAGIC) + seq![e.envelope_version, 0u8, 0u8, 0u8] + u16_le(
        p.len() as u16,
    );
    let slots = profile_slots_bytes(p, 16);
    let tail = seq![0u8, 0u8, 0u8, 0u8, 0u8, 0u8] + u64_le(e.capabilities);
    assert(b =~= head + slots + tail);
    assert(head.len() == 10);
    assert forall|i: int| 0 <= i < 16 implies #[trigger] slot_at(b, i) == profile_slot(p, i) by {
        lemma_concat3_mid(head, slots, tail, 2 * i, 2 * i + 2);
        lemma_u16_roundtrip(profile_slot(p, i));
    }
}

/// Decoding an encoded envelope gives the envelope back, for every envelope of
/// version 1 with a valid live-profile set.
pub proof fn envelope_roundtrip(e: EnvelopeView)
    requires
        e.envelope_version == 1,
        valid_profiles(e.profiles),
    ensures
        spec_decode(envelope_bytes(e)) == Ok::<EnvelopeView, AnnounceDecline>(e),
{
    let b = envelope_bytes(e);
    let p = e.profiles;
    lemma_envelope_bytes_len(e);
    lemma_profile_slots_bytes(p, 16);
    lemma_u16_roundtrip(p.len() as u16);
    lemma_u32_roundtrip(MAGIC);
    lemma_u64_roundtrip(e.capabilities);
    assert(b.subrange(0, 4) =~= u32_le(MAGIC));
    assert(b.subrange(8, 10) =~= u16_le(p.len() as u16));
    assert(b[4] == 1 && b[5] == 0 && b[6] == 0 && b[7] == 0);
    let plen = word_at(b, 8);
    assert(plen == p.len());
    lemma_envelope_slots(e);
    assert forall|j: int| 0 <= j < 16 implies !slot_bad(b, plen, j) by {
        assert(slot_at(b, j) == profile_slot(p, j));
    }
    lemma_first_bad_none(b, plen, 0);
    assert(live_profiles(b, plen) =~= p);
    assert forall|j: int| 42 <= j < 48 implies b[j] == 0 by {}
    assert(b.subrange(48, 56) =~= u64_le(e.capabilities));
}

proof fn lemma_first_bad_none_all(b: Seq<u8>, plen: nat, i: int)
    requires
        0 <= i <= 16,
        first_bad_slot(b, plen, i) is None,
    ensures
        forall|j: int| i <= j < 16 ==> !slot_bad(b, plen, j),
    decreases 16 - i,
{
    if i < 16 {
        lemma_first_bad_none_all(b, plen, i + 1);
    }
}

/// A run of bytes is the little-endian encoding of its own value.
proof fn lemma_le_run(s: Seq<u8>, v: nat)
    requires
        le_value(s) == v,
    ensures
        crate::wire::le_bytes(v, s.len()) == s,
{
    crate::wire::lemma_le_bytes_of_value(s);
}

/// A byte string the reader accepts is the envelope's encoding: the reader
/// takes exactly the canonical 56 bytes, so `decode(b) == Ok(e)` gives
/// `e.encode() == b`.
#[verifier::spinoff_prover]
#[verifier::rlimit(40)]
pub proof fn decode_encode_roundtrip(b: Seq<u8>)
    requires
        spec_decode(b) is Ok,
    ensures
        envelope_bytes(spec_decode(b)->Ok_0) == b,
{
    let e = spec_decode(b)->Ok_0;
    let plen = word_at(b, 8);
    let p = e.profiles;
    crate::wire::lemma_pow256_values();
    assert(p == live_profiles(b, plen));
    // magic, version, reserved, count
    lemma_le_run(b.subrange(0, 4), MAGIC as nat);
    assert(u32_le(MAGIC) == b.subrange(0, 4));
    assert(seq![e.envelope_version, 0u8, 0u8, 0u8] =~= b.subrange(4, 8));
    lemma_le_run(b.subrange(8, 10), plen);
    assert(u16_le(p.len() as u16) == b.subrange(8, 10));
    // the slot table
    lemma_first_bad_none_all(b, plen, 0);
    lemma_profile_slots_bytes(p, 16);
    let d = profile_slots_bytes(p, 16);
    let bd = b.subrange(10, 42);
    assert forall|k: int| 0 <= k < 32 implies bd[k] == d[k] by {
        let i = k / 2;
        let w = b.subrange(10 + 2 * i, 12 + 2 * i);
        crate::wire::lemma_le_value_bound(w);
        assert(slot_at(b, i) == le_value(w));
        assert(!slot_bad(b, plen, i));
        assert(slot_at(b, i) == profile_slot(p, i) as nat) by {
            if i < plen {
                assert(p[i] == slot_at(b, i) as u16);
            }
        }
        lemma_le_run(w, profile_slot(p, i) as nat);
        assert(d.subrange(2 * i, 2 * i + 2) == u16_le(profile_slot(p, i)));
        assert(bd[k] == w[k - 2 * i]);
        assert(d[k] == d.subrange(2 * i, 2 * i + 2)[k - 2 * i]);
    }
    assert(bd =~= d);
    // the reserved bytes and the capabilities
    assert(seq![0u8, 0u8, 0u8, 0u8, 0u8, 0u8] =~= b.subrange(42, 48));
    let cw = b.subrange(48, 56);
    crate::wire::lemma_le_value_bound(cw);
    lemma_le_run(cw, e.capabilities as nat);
    assert(u64_le(e.capabilities) == cw);
    assert(b =~= b.subrange(0, 4) + b.subrange(4, 8) + b.subrange(8, 10) + bd + b.subrange(42, 48) + cw);
}

// ---------------------------------------------------------------------------
// Version negotiation (§7.1).
// ---------------------------------------------------------------------------

/// Whether `p` occurs in `s`.
fn contains_u16(s: &[u16], p: u16) -> (r: bool)
    ensures
        r == s@.contains(p),
{
    let mut j: usize = 0;
    while j < s.len()
        invariant
            j <= s@.len(),
            forall|k: int| 0 <= k < j ==> s@[k] != p,
        decreases s.len() - j,
    {
        if s[j] == p {
            assert(s@[j as int] == p);
            return true;
        }
        j += 1;
    }
    false
}

/// Negotiate the mutually-highest live profile (§7.1-0001): `max(L ∩ R)`. An
/// empty intersection is the typed decline `NoMutualProfile` (§7.1-0002).
pub fn negotiate(local: &Envelope, remote: &Envelope) -> (r: Result<u16, AnnounceDecline>)
    ensures
        match r {
            Ok(p) => local.profiles@.contains(p) && remote.profiles@.contains(p) && forall|q: u16|
                local.profiles@.contains(q) && remote.profiles@.contains(q) ==> q <= p,
            Err(d) => d == AnnounceDecline::NoMutualProfile && forall|q: u16|
                !(local.profiles@.contains(q) && remote.profiles@.contains(q)),
        },
{
    let l = &local.profiles;
    let mut best: Option<u16> = None;
    let mut i: usize = 0;
    while i < l.len()
        invariant
            l@ == local.profiles@,
            i <= l@.len(),
            forall|k: int|
                0 <= k < i && remote.profiles@.contains(#[trigger] l@[k]) ==> (best is Some
                    && l@[k] <= best->0),
            best is Some ==> local.profiles@.contains(best->0) && remote.profiles@.contains(
                best->0,
            ),
        decreases l.len() - i,
    {
        let p = l[i];
        if contains_u16(remote.profiles.as_slice(), p) {
            assert(local.profiles@[i as int] == p);
            match best {
                Some(b) => {
                    if p > b {
                        best = Some(p);
                    }
                },
                None => {
                    best = Some(p);
                },
            }
        }
        i += 1;
    }
    match best {
        Some(p) => {
            assert forall|q: u16|
                local.profiles@.contains(q) && remote.profiles@.contains(q) implies q <= p by {
                let k = choose|k: int| 0 <= k < l@.len() && l@[k] == q;
                assert(remote.profiles@.contains(l@[k]));
            }
            Ok(p)
        },
        None => {
            assert forall|q: u16|
                !(local.profiles@.contains(q) && remote.profiles@.contains(q)) by {
                if local.profiles@.contains(q) && remote.profiles@.contains(q) {
                    let k = choose|k: int| 0 <= k < l@.len() && l@[k] == q;
                    assert(remote.profiles@.contains(l@[k]));
                }
            }
            Err(AnnounceDecline::NoMutualProfile)
        },
    }
}

// ---------------------------------------------------------------------------
// Availability list (§6.3).
// ---------------------------------------------------------------------------

/// One availability record: the identity pair `(structure_key, revision_hash)`
/// and nothing else (§6.3-0001). `revision_hash` is exactly 32 bytes (§6.3-0003).
#[derive(Debug, Clone, PartialEq, Eq)]
pub struct AvailabilityRecord {
    pub structure_key: Vec<u8>,
    pub revision_hash: [u8; 32],
}

/// The content of an [`AvailabilityRecord`].
pub struct RecordView {
    pub structure_key: Seq<u8>,
    pub revision_hash: Seq<u8>,
}

impl View for AvailabilityRecord {
    type V = RecordView;

    open spec fn view(&self) -> RecordView {
        RecordView { structure_key: self.structure_key@, revision_hash: self.revision_hash@ }
    }
}

/// A decoded availability list (§6.3): tag, `list_version` block, `record_count`,
/// then the records.
#[derive(Debug, Clone, PartialEq, Eq)]
pub struct AvailabilityList {
    pub list_version: u8,
    pub records: Vec<AvailabilityRecord>,
}

/// The content of an [`AvailabilityList`].
pub struct ListView {
    pub list_version: u8,
    pub records: Seq<RecordView>,
}

impl View for AvailabilityList {
    type V = ListView;

    open spec fn view(&self) -> ListView {
        ListView {
            list_version: self.list_version,
            records: Seq::new(self.records@.len(), |i: int| self.records@[i]@),
        }
    }
}

/// One record on the wire: u32-LE key length, the key, the 32-byte hash.
pub open spec fn record_bytes(r: RecordView) -> Seq<u8> {
    u32_le(r.structure_key.len() as u32) + r.structure_key + r.revision_hash
}

/// Records on the wire, in order.
pub open spec fn records_bytes(rs: Seq<RecordView>) -> Seq<u8>
    decreases rs.len(),
{
    if rs.len() == 0 {
        seq![]
    } else {
        records_bytes(rs.drop_last()) + record_bytes(rs.last())
    }
}

/// The availability-list bytes (§6.3-0011/-0012/-0005).
pub open spec fn list_bytes(l: ListView) -> Seq<u8> {
    u32_le(SAVL) + seq![l.list_version, 0u8, 0u8, 0u8] + u32_le(l.records.len() as u32)
        + records_bytes(l.records)
}

/// Prefix `p` onto a successful record run; pass a decline through.
pub open spec fn prepend_ok(
    p: Seq<RecordView>,
    r: Result<Seq<RecordView>, AnnounceDecline>,
) -> Result<Seq<RecordView>, AnnounceDecline> {
    match r {
        Ok(x) => Ok(p + x),
        Err(e) => Err(e),
    }
}

/// The reader's verdict on `n` records starting at `off`.
pub open spec fn spec_records(b: Seq<u8>, off: int, n: nat) -> Result<
    Seq<RecordView>,
    AnnounceDecline,
>
    decreases n,
{
    let kl = dword_at(b, off);
    if n == 0 {
        Ok(seq![])
    } else if b.len() < off + 4 {
        Err(AnnounceDecline::Truncated { region: "key_len" })
    } else if kl < 1 || kl > MAX_STRUCTURE_KEY_LEN {
        Err(AnnounceDecline::StructureKeyLenOutOfRange { got: kl as u32 })
    } else if b.len() < off + 4 + kl {
        Err(AnnounceDecline::Truncated { region: "structure_key" })
    } else if b.len() < off + 4 + kl + 32 {
        Err(AnnounceDecline::Truncated { region: "revision_hash" })
    } else {
        prepend_ok(
            seq![
                RecordView {
                    structure_key: b.subrange(off + 4, off + 4 + kl),
                    revision_hash: b.subrange(off + 4 + kl, off + 4 + kl + 32),
                },
            ],
            spec_records(b, off + 4 + kl + 32, (n - 1) as nat),
        )
    }
}

/// The reader's verdict on an availability-list byte string (§6.3).
pub open spec fn spec_decode_list(b: Seq<u8>) -> Result<ListView, AnnounceDecline> {
    if b.len() < 8 {
        Err(AnnounceDecline::Truncated { region: "savl_header" })
    } else if dword_at(b, 0) != SAVL {
        Err(AnnounceDecline::BadTag { region: "savl", got: dword_at(b, 0) as u32 })
    } else if b[4] != 1 {
        Err(AnnounceDecline::ListVersionUnsupported { got: b[4] })
    } else if !(b[5] == 0 && b[6] == 0 && b[7] == 0) {
        Err(AnnounceDecline::ReservedNonZero { region: "savl_mbz" })
    } else if b.len() < 12 {
        Err(AnnounceDecline::Truncated { region: "record_count" })
    } else if dword_at(b, 8) > MAX_AVAILABILITY_RECORDS {
        Err(AnnounceDecline::RecordCountOverflow { got: dword_at(b, 8) as u32 })
    } else {
        match spec_records(b, 12, dword_at(b, 8)) {
            Ok(rs) => Ok(ListView { list_version: 1, records: rs }),
            Err(e) => Err(e),
        }
    }
}

/// Copies 32 bytes at `off` into a hash array.
fn read_hash(b: &[u8], off: usize) -> (h: [u8; 32])
    requires
        off + 32 <= b@.len(),
    ensures
        h@ == b@.subrange(off as int, off + 32),
{
    let mut h = [0u8; 32];
    let mut i: usize = 0;
    while i < 32
        invariant
            i <= 32,
            off + 32 <= b@.len(),
            forall|j: int| 0 <= j < i ==> h@[j] == b@[off + j],
        decreases 32 - i,
    {
        assert(off + i < b.len());
        h[i] = b[off + i];
        i += 1;
    }
    assert(h@ =~= b@.subrange(off as int, off + 32));
    h
}

impl AvailabilityList {
    /// Serialize per §6.3-0011/-0012/-0005: `SAVL` tag, `list_version` + 3 MBZ
    /// bytes, u32-LE `record_count`, then each record as {u32-LE key length, key
    /// bytes, 32-byte `revision_hash`}.
    pub fn encode(&self) -> (b: Vec<u8>)
        ensures
            b@ == list_bytes(self@),
    {
        let mut b: Vec<u8> = Vec::new();
        push_u32_le(&mut b, SAVL);
        b.push(self.list_version);
        b.push(0);
        b.push(0);
        b.push(0);
        push_u32_le(&mut b, self.records.len() as u32);
        let ghost head = b@;
        let ghost rs = self@.records;
        let mut i: usize = 0;
        while i < self.records.len()
            invariant
                i <= self.records@.len(),
                rs == self@.records,
                b@ == head + records_bytes(rs.take(i as int)),
            decreases self.records.len() - i,
        {
            let r = &self.records[i];
            push_u32_le(&mut b, r.structure_key.len() as u32);
            push_all(&mut b, r.structure_key.as_slice());
            push_all(&mut b, r.revision_hash.as_slice());
            assert(rs.take(i + 1).drop_last() == rs.take(i as int));
            assert(rs.take(i + 1).last() == r@);
            i += 1;
        }
        assert(rs.take(i as int) == rs);
        b
    }
}

/// Decode + hard-reject an availability list (§6.3). Every malformation yields a
/// typed decline; no panic or out-of-bounds read. Records are pushed as they are
/// validated, never pre-allocated on the declared count (§6.3-0010).
pub fn decode_availability_list(bytes: &[u8]) -> (r: Result<AvailabilityList, AnnounceDecline>)
    ensures
        match r {
            Ok(l) => spec_decode_list(bytes@) == Ok::<ListView, AnnounceDecline>(l@),
            Err(d) => spec_decode_list(bytes@) == Err::<ListView, AnnounceDecline>(d),
        },
{
    if bytes.len() < 8 {
        return Err(AnnounceDecline::Truncated { region: "savl_header" });
    }
    let tag = read_u32_le(bytes, 0);
    if tag != SAVL {
        return Err(AnnounceDecline::BadTag { region: "savl", got: tag });
    }
    let list_version = bytes[4];
    if list_version != 1 {
        return Err(AnnounceDecline::ListVersionUnsupported { got: list_version });
    }
    if !(bytes[5] == 0 && bytes[6] == 0 && bytes[7] == 0) {
        return Err(AnnounceDecline::ReservedNonZero { region: "savl_mbz" });
    }
    if bytes.len() < 12 {
        return Err(AnnounceDecline::Truncated { region: "record_count" });
    }
    let record_count = read_u32_le(bytes, 8);
    if record_count > MAX_AVAILABILITY_RECORDS {
        return Err(AnnounceDecline::RecordCountOverflow { got: record_count });
    }
    match decode_records(bytes, record_count) {
        Ok(records) => Ok(AvailabilityList { list_version, records }),
        Err(e) => Err(e),
    }
}

/// Reads `count` records from offset 12.
fn decode_records(bytes: &[u8], count: u32) -> (r: Result<Vec<AvailabilityRecord>, AnnounceDecline>)
    requires
        bytes@.len() >= 12,
    ensures
        match r {
            Ok(v) => spec_records(bytes@, 12, count as nat) == Ok::<
                Seq<RecordView>,
                AnnounceDecline,
            >(Seq::new(v@.len(), |i: int| v@[i]@)),
            Err(d) => spec_records(bytes@, 12, count as nat) == Err::<
                Seq<RecordView>,
                AnnounceDecline,
            >(d),
        },
{
    let ghost b = bytes@;
    let mut off: usize = 12;
    let mut records: Vec<AvailabilityRecord> = Vec::new();
    let mut k: u32 = 0;
    while k < count
        invariant
            b == bytes@,
            k <= count,
            off <= b.len(),
            spec_records(b, 12, count as nat) == prepend_ok(
                Seq::new(records@.len(), |i: int| records@[i]@),
                spec_records(b, off as int, (count - k) as nat),
            ),
        decreases count - k,
    {
        let ghost before = Seq::new(records@.len(), |i: int| records@[i]@);
        if bytes.len() - off < 4 {
            return Err(AnnounceDecline::Truncated { region: "key_len" });
        }
        let key_len = read_u32_le(bytes, off);
        if key_len < 1 || key_len > MAX_STRUCTURE_KEY_LEN {
            return Err(AnnounceDecline::StructureKeyLenOutOfRange { got: key_len });
        }
        let kl = key_len as usize;
        if bytes.len() - off - 4 < kl {
            return Err(AnnounceDecline::Truncated { region: "structure_key" });
        }
        if bytes.len() - off - 4 - kl < 32 {
            return Err(AnnounceDecline::Truncated { region: "revision_hash" });
        }
        let structure_key = copy_range(bytes, off + 4, off + 4 + kl);
        let revision_hash = read_hash(bytes, off + 4 + kl);
        let rec = AvailabilityRecord { structure_key, revision_hash };
        records.push(rec);
        proof {
            let after = Seq::new(records@.len(), |i: int| records@[i]@);
            assert(after =~= before.push(rec@));
            let rest = spec_records(b, off + 4 + kl + 32, (count - k - 1) as nat);
            match rest {
                Ok(x) => {
                    assert(before + (seq![rec@] + x) =~= before.push(rec@) + x);
                },
                Err(e) => {},
            }
        }
        off = off + 4 + kl + 32;
        k += 1;
    }
    assert(Seq::new(records@.len(), |i: int| records@[i]@) + Seq::<RecordView>::empty()
        =~= Seq::new(records@.len(), |i: int| records@[i]@));
    Ok(records)
}

// ---------------------------------------------------------------------------
// Contract-query frames (§6.4).
// ---------------------------------------------------------------------------

/// The echoed `(structure_key, revision_hash)` identity block shared by a
/// contract-query request (§6.4-0001) and a response (§6.4-0011): a u32-LE
/// `structure_key` length, the key bytes, a 1-byte `revision_present` flag, and
/// — only when the flag is `1` — the 32-byte `revision_hash`.
#[derive(Debug, Clone, PartialEq, Eq)]
pub struct Identity {
    pub structure_key: Vec<u8>,
    pub revision_hash: Option<[u8; 32]>,
}

/// The content of an [`Identity`].
pub struct IdentityView {
    pub structure_key: Seq<u8>,
    pub revision_hash: Option<Seq<u8>>,
}

impl View for Identity {
    type V = IdentityView;

    open spec fn view(&self) -> IdentityView {
        IdentityView {
            structure_key: self.structure_key@,
            revision_hash: match self.revision_hash {
                Some(h) => Some(h@),
                None => None,
            },
        }
    }
}

/// An identity block on the wire.
pub open spec fn identity_bytes(id: IdentityView) -> Seq<u8> {
    u32_le(id.structure_key.len() as u32) + id.structure_key + match id.revision_hash {
        Some(h) => seq![1u8] + h,
        None => seq![0u8],
    }
}

/// The reader's verdict on an identity block at `off`: the block and the
/// offset just past it.
pub open spec fn spec_identity_at(b: Seq<u8>, off: int) -> Result<
    (IdentityView, int),
    AnnounceDecline,
> {
    let kl = dword_at(b, off);
    let flag_at = off + 4 + kl;
    if b.len() < off + 4 {
        Err(AnnounceDecline::Truncated { region: "structure_key_len" })
    } else if kl < 1 || kl > MAX_STRUCTURE_KEY_LEN {
        Err(AnnounceDecline::StructureKeyLenOutOfRange { got: kl as u32 })
    } else if b.len() < off + 4 + kl {
        Err(AnnounceDecline::Truncated { region: "structure_key" })
    } else if b.len() < flag_at + 1 {
        Err(AnnounceDecline::Truncated { region: "revision_present" })
    } else if b[flag_at] > 1 {
        Err(AnnounceDecline::BadRevisionPresent { got: b[flag_at] })
    } else if b[flag_at] == 1 {
        if b.len() < flag_at + 1 + 32 {
            Err(AnnounceDecline::Truncated { region: "revision_hash" })
        } else {
            Ok(
                (
                    IdentityView {
                        structure_key: b.subrange(off + 4, flag_at),
                        revision_hash: Some(b.subrange(flag_at + 1, flag_at + 33)),
                    },
                    flag_at + 33,
                ),
            )
        }
    } else {
        Ok(
            (
                IdentityView {
                    structure_key: b.subrange(off + 4, flag_at),
                    revision_hash: None,
                },
                flag_at + 1,
            ),
        )
    }
}

impl Identity {
    fn encode_into(&self, b: &mut Vec<u8>)
        ensures
            final(b)@ == old(b)@ + identity_bytes(self@),
    {
        push_u32_le(b, self.structure_key.len() as u32);
        push_all(b, self.structure_key.as_slice());
        match &self.revision_hash {
            Some(h) => {
                b.push(1);
                push_all(b, h.as_slice());
            },
            None => {
                b.push(0);
            },
        }
        proof {
            match self@.revision_hash {
                Some(h) => {
                    assert(identity_bytes(self@) =~= u32_le(self.structure_key@.len() as u32)
                        + self.structure_key@ + seq![1u8] + h);
                },
                None => {},
            }
        }
    }

    /// Decode an identity block starting at `off`; returns the block and the new
    /// offset. Truncation and an out-of-range length yield a typed decline, never
    /// a panic or out-of-bounds slice (§6.4-0006).
    fn decode_at(bytes: &[u8], off: usize) -> (r: Result<(Identity, usize), AnnounceDecline>)
        requires
            off <= bytes@.len(),
        ensures
            match r {
                Ok((id, next)) => spec_identity_at(bytes@, off as int) == Ok::<
                    (IdentityView, int),
                    AnnounceDecline,
                >((id@, next as int)),
                Err(d) => spec_identity_at(bytes@, off as int) == Err::<
                    (IdentityView, int),
                    AnnounceDecline,
                >(d),
            },
    {
        if bytes.len() - off < 4 {
            return Err(AnnounceDecline::Truncated { region: "structure_key_len" });
        }
        let key_len = read_u32_le(bytes, off);
        if key_len < 1 || key_len > MAX_STRUCTURE_KEY_LEN {
            return Err(AnnounceDecline::StructureKeyLenOutOfRange { got: key_len });
        }
        let kl = key_len as usize;
        if bytes.len() - off - 4 < kl {
            return Err(AnnounceDecline::Truncated { region: "structure_key" });
        }
        let structure_key = copy_range(bytes, off + 4, off + 4 + kl);
        let flag_at = off + 4 + kl;
        if bytes.len() - flag_at < 1 {
            return Err(AnnounceDecline::Truncated { region: "revision_present" });
        }
        let revision_present = bytes[flag_at];
        if revision_present > 1 {
            return Err(AnnounceDecline::BadRevisionPresent { got: revision_present });
        }
        if revision_present == 1 {
            if bytes.len() - flag_at - 1 < 32 {
                return Err(AnnounceDecline::Truncated { region: "revision_hash" });
            }
            let h = read_hash(bytes, flag_at + 1);
            Ok((Identity { structure_key, revision_hash: Some(h) }, flag_at + 33))
        } else {
            Ok((Identity { structure_key, revision_hash: None }, flag_at + 1))
        }
    }
}

/// A contract-query request (§6.4-0001): `CYRQ` tag then the identity block.
#[derive(Debug, Clone, PartialEq, Eq)]
pub struct QueryRequest {
    pub identity: Identity,
}

/// A contract-query request on the wire.
pub open spec fn query_bytes(id: IdentityView) -> Seq<u8> {
    u32_le(CYRQ) + identity_bytes(id)
}

/// The reader's verdict on a contract-query request (§6.4-0001, §6.4-0006).
pub open spec fn spec_decode_query(b: Seq<u8>) -> Result<IdentityView, AnnounceDecline> {
    if b.len() < 4 {
        Err(AnnounceDecline::Truncated { region: "cyrq_tag" })
    } else if dword_at(b, 0) != CYRQ {
        Err(AnnounceDecline::BadTag { region: "cyrq", got: dword_at(b, 0) as u32 })
    } else {
        match spec_identity_at(b, 4) {
            Ok((id, _)) => Ok(id),
            Err(e) => Err(e),
        }
    }
}

impl QueryRequest {
    /// Serialize per §6.4-0001: `CYRQ` tag then the identity block.
    pub fn encode(&self) -> (b: Vec<u8>)
        ensures
            b@ == query_bytes(self.identity@),
    {
        let mut b = Vec::new();
        push_u32_le(&mut b, CYRQ);
        self.identity.encode_into(&mut b);
        b
    }
}

/// Decode + hard-reject a contract-query request (§6.4-0001, §6.4-0006). A
/// truncated request yields a typed `Truncated` decline — never a panic.
pub fn decode_query_request(bytes: &[u8]) -> (r: Result<QueryRequest, AnnounceDecline>)
    ensures
        match r {
            Ok(q) => spec_decode_query(bytes@) == Ok::<IdentityView, AnnounceDecline>(
                q.identity@,
            ),
            Err(d) => spec_decode_query(bytes@) == Err::<IdentityView, AnnounceDecline>(d),
        },
{
    if bytes.len() < 4 {
        return Err(AnnounceDecline::Truncated { region: "cyrq_tag" });
    }
    let tag = read_u32_le(bytes, 0);
    if tag != CYRQ {
        return Err(AnnounceDecline::BadTag { region: "cyrq", got: tag });
    }
    match Identity::decode_at(bytes, 4) {
        Ok((identity, _off)) => Ok(QueryRequest { identity }),
        Err(e) => Err(e),
    }
}

/// A contract response (§6.4-0004): `CRSP` tag, echoed identity, u32-LE payload
/// byte-length, then the payload.
#[derive(Debug, Clone, PartialEq, Eq)]
pub struct ContractResponse {
    pub identity: Identity,
    pub payload: Vec<u8>,
}

/// A contract response on the wire.
pub open spec fn response_bytes(id: IdentityView, payload: Seq<u8>) -> Seq<u8> {
    u32_le(CRSP) + identity_bytes(id) + u32_le(payload.len() as u32) + payload
}

impl ContractResponse {
    pub fn encode(&self) -> (b: Vec<u8>)
        ensures
            b@ == response_bytes(self.identity@, self.payload@),
    {
        let mut b = Vec::new();
        push_u32_le(&mut b, CRSP);
        self.identity.encode_into(&mut b);
        push_u32_le(&mut b, self.payload.len() as u32);
        push_all(&mut b, self.payload.as_slice());
        b
    }
}

/// A decline response (§6.4-0007): `CDEC` tag, echoed identity, u32-LE
/// `decline_code` (§6.4-0009).
#[derive(Debug, Clone, PartialEq, Eq)]
pub struct DeclineResponse {
    pub identity: Identity,
    pub decline_code: u32,
}

/// A decline response on the wire.
pub open spec fn decline_response_bytes(id: IdentityView, code: u32) -> Seq<u8> {
    u32_le(CDEC) + identity_bytes(id) + u32_le(code)
}

impl DeclineResponse {
    pub fn encode(&self) -> (b: Vec<u8>)
        ensures
            b@ == decline_response_bytes(self.identity@, self.decline_code),
    {
        let mut b = Vec::new();
        push_u32_le(&mut b, CDEC);
        self.identity.encode_into(&mut b);
        push_u32_le(&mut b, self.decline_code);
        b
    }
}

// ---------------------------------------------------------------------------
// Round trips.
// ---------------------------------------------------------------------------

/// A record the reader accepts: a key of 1..=4096 bytes and a 32-byte hash.
pub open spec fn valid_record(r: RecordView) -> bool {
    1 <= r.structure_key.len() <= MAX_STRUCTURE_KEY_LEN && r.revision_hash.len() == 32
}

proof fn lemma_records_bytes_front(rs: Seq<RecordView>)
    requires
        rs.len() > 0,
    ensures
        records_bytes(rs) == record_bytes(rs[0]) + records_bytes(rs.drop_first()),
    decreases rs.len(),
{
    if rs.len() == 1 {
        assert(rs.drop_first() =~= Seq::<RecordView>::empty());
        assert(rs.drop_last() =~= Seq::<RecordView>::empty());
        assert(records_bytes(rs.drop_last()) =~= Seq::<u8>::empty());
        assert(records_bytes(rs.drop_first()) =~= Seq::<u8>::empty());
        assert(rs.last() == rs[0]);
        assert(records_bytes(rs) =~= record_bytes(rs[0]) + records_bytes(rs.drop_first()));
    } else {
        lemma_records_bytes_front(rs.drop_last());
        assert(rs.drop_last().drop_first() =~= rs.drop_first().drop_last());
        assert(rs.drop_first().last() == rs.last());
        assert(records_bytes(rs) =~= record_bytes(rs[0]) + records_bytes(rs.drop_first()));
    }
}

proof fn lemma_records_read_back(p: Seq<u8>, rs: Seq<RecordView>)
    requires
        forall|i: int| 0 <= i < rs.len() ==> valid_record(#[trigger] rs[i]),
    ensures
        spec_records(p + records_bytes(rs), p.len() as int, rs.len()) == Ok::<
            Seq<RecordView>,
            AnnounceDecline,
        >(rs),
    decreases rs.len(),
{
    if rs.len() > 0 {
        let r = rs[0];
        assert(valid_record(r));
        let rest = rs.drop_first();
        lemma_records_bytes_front(rs);
        let p2 = p + record_bytes(r);
        let b = p + records_bytes(rs);
        assert(b =~= p2 + records_bytes(rest));
        assert forall|i: int| 0 <= i < rest.len() implies valid_record(#[trigger] rest[i]) by {
            assert(rest[i] == rs[i + 1]);
        }
        lemma_records_read_back(p2, rest);
        let off = p.len() as int;
        let kl = r.structure_key.len();
        lemma_u32_roundtrip(kl as u32);
        assert(b.subrange(off, off + 4) =~= u32_le(kl as u32));
        assert(dword_at(b, off) == kl);
        assert(b.subrange(off + 4, off + 4 + kl) =~= r.structure_key);
        assert(b.subrange(off + 4 + kl, off + 4 + kl + 32) =~= r.revision_hash);
        assert(p2.len() == off + 4 + kl + 32);
        assert(seq![r] + rest =~= rs);
    } else {
        assert(spec_records(p + records_bytes(rs), p.len() as int, 0) == Ok::<
            Seq<RecordView>,
            AnnounceDecline,
        >(Seq::<RecordView>::empty()));
        assert(rs =~= Seq::<RecordView>::empty());
    }
}

/// Decoding an encoded availability list gives it back, for every list of
/// version 1 with at most 2^20 records, each key 1..=4096 bytes.
pub proof fn availability_list_roundtrip(l: ListView)
    requires
        l.list_version == 1,
        l.records.len() <= MAX_AVAILABILITY_RECORDS,
        forall|i: int| 0 <= i < l.records.len() ==> valid_record(#[trigger] l.records[i]),
    ensures
        spec_decode_list(list_bytes(l)) == Ok::<ListView, AnnounceDecline>(l),
{
    let rs = l.records;
    let head = u32_le(SAVL) + seq![l.list_version, 0u8, 0u8, 0u8] + u32_le(rs.len() as u32);
    let b = list_bytes(l);
    lemma_u32_roundtrip(SAVL);
    lemma_u32_roundtrip(rs.len() as u32);
    assert(b =~= head + records_bytes(rs));
    assert(head.len() == 12);
    assert(b.subrange(0, 4) =~= u32_le(SAVL));
    assert(b.subrange(8, 12) =~= u32_le(rs.len() as u32));
    lemma_records_read_back(head, rs);
}

/// Decoding an encoded contract-query request gives its identity back, for
/// every identity whose key is 1..=4096 bytes and whose hash, when present, is
/// 32 bytes.
pub proof fn query_request_roundtrip(id: IdentityView)
    requires
        1 <= id.structure_key.len() <= MAX_STRUCTURE_KEY_LEN,
        id.revision_hash matches Some(h) ==> h.len() == 32,
    ensures
        spec_decode_query(query_bytes(id)) == Ok::<IdentityView, AnnounceDecline>(id),
{
    let b = query_bytes(id);
    let kl = id.structure_key.len() as int;
    lemma_u32_roundtrip(CYRQ);
    lemma_u32_roundtrip(kl as u32);
    assert(b.subrange(0, 4) =~= u32_le(CYRQ));
    assert(b.subrange(4, 8) =~= u32_le(kl as u32));
    assert(b.subrange(8, 8 + kl) =~= id.structure_key);
    match id.revision_hash {
        Some(h) => {
            assert(b[8 + kl] == 1);
            assert(b.subrange(9 + kl, 9 + kl + 32) =~= h);
        },
        None => {
            assert(b[8 + kl] == 0);
        },
    }
}

// ---------------------------------------------------------------------------
// The worked-example frames (§2.5) and their machine-readable artifact.
// ---------------------------------------------------------------------------

/// The 32-byte hash whose every byte is `v`.
pub open spec fn filled_hash(v: u8) -> Seq<u8> {
    Seq::new(32, |i: int| v)
}

/// The §6.4-0011 reference identity: key `AA BB CC`, revision present (`11`×32).
pub open spec fn reference_identity_view() -> IdentityView {
    IdentityView { structure_key: seq![0xAAu8, 0xBBu8, 0xCCu8], revision_hash: Some(filled_hash(0x11)) }
}

/// §6.1-0002 reference envelope: version 1, one profile {1}, caps EXT[0..5]|FEAT[32]|FEAT[33].
pub fn reference_envelope() -> (e: Envelope)
    ensures
        e@ == (EnvelopeView {
            envelope_version: 1,
            profiles: seq![1u16],
            capabilities: 0x0000_0003_0000_003F,
        }),
        valid_profiles(e.profiles@),
{
    let e = Envelope { envelope_version: 1, profiles: vec![1u16], capabilities: 0x0000_0003_0000_003F };
    assert(e.profiles@ =~= seq![1u16]);
    e
}

/// §6.3-0005 reference availability list: two records (keys AA BB CC / DE AD).
pub fn reference_availability_list() -> (l: AvailabilityList)
    ensures
        l@ == (ListView {
            list_version: 1,
            records: seq![
                RecordView { structure_key: seq![0xAAu8, 0xBBu8, 0xCCu8], revision_hash: filled_hash(0x11) },
                RecordView { structure_key: seq![0xDEu8, 0xADu8], revision_hash: filled_hash(0x22) },
            ],
        }),
{
    let r1 = AvailabilityRecord { structure_key: vec![0xAAu8, 0xBBu8, 0xCCu8], revision_hash: [0x11u8; 32] };
    let r2 = AvailabilityRecord { structure_key: vec![0xDEu8, 0xADu8], revision_hash: [0x22u8; 32] };
    assert(r1.structure_key@ =~= seq![0xAAu8, 0xBBu8, 0xCCu8]);
    assert(r2.structure_key@ =~= seq![0xDEu8, 0xADu8]);
    assert(r1.revision_hash@ =~= filled_hash(0x11));
    assert(r2.revision_hash@ =~= filled_hash(0x22));
    let l = AvailabilityList { list_version: 1, records: vec![r1, r2] };
    assert(l@.records =~= seq![r1@, r2@]);
    l
}

/// §6.4-0011 reference identity block, echoed by CYRQ/CRSP/CDEC.
pub fn reference_identity() -> (id: Identity)
    ensures
        id@ == reference_identity_view(),
{
    let h = [0x11u8; 32];
    assert(h@ =~= filled_hash(0x11));
    let id = Identity { structure_key: vec![0xAAu8, 0xBBu8, 0xCCu8], revision_hash: Some(h) };
    assert(id.structure_key@ =~= seq![0xAAu8, 0xBBu8, 0xCCu8]);
    id
}

/// §6.4-0001 reference contract-query request.
pub fn reference_cyrq() -> (q: QueryRequest)
    ensures
        q.identity@ == reference_identity_view(),
{
    QueryRequest { identity: reference_identity() }
}

/// §6.4-0004 reference contract response (5-byte payload).
pub fn reference_crsp() -> (c: ContractResponse)
    ensures
        c.identity@ == reference_identity_view(),
        c.payload@ == seq![0xDEu8, 0xADu8, 0xBEu8, 0xEFu8, 0x01u8],
{
    let c = ContractResponse {
        identity: reference_identity(),
        payload: vec![0xDEu8, 0xADu8, 0xBEu8, 0xEFu8, 0x01u8],
    };
    assert(c.payload@ =~= seq![0xDEu8, 0xADu8, 0xBEu8, 0xEFu8, 0x01u8]);
    c
}

/// §6.4-0007 reference decline response (decline_code UNKNOWN_REVISION).
pub fn reference_cdec() -> (d: DeclineResponse)
    ensures
        d.identity@ == reference_identity_view(),
        d.decline_code == UNKNOWN_REVISION,
{
    DeclineResponse { identity: reference_identity(), decline_code: UNKNOWN_REVISION }
}

/// The fixed opening of the announce vector artifact, through `"frames": [`.
pub const ANNOUNCE_JSON_HEAD: &'static str = "{\n  \"schema\": \"kiss-announce-vectors-v1.json\",\n  \"generated_from\": \"conformance/src/announce.rs::emit_announce_vectors_json (the reference codec)\",\n  \"spec_reference\": \"spec/announce.md \u{00a7}2.5 worked handshake example (informative) + the \u{00a7}6.1/\u{00a7}6.3/\u{00a7}6.4 framing clauses\",\n  \"scope_note\": \"DIFFABLE, not COVERED: a foreign reader byte-diffs each frame's exact wire bytes (endianness, field width, padding) against its own encoder; this does NOT cover the untested KISS-Announce clauses or the reader/decline paths.\",\n  \"population\": \"the FIVE \u{00a7}2.5 worked-example POSITIVE frames only: the 56-byte envelope, the availability list, and the CYRQ/CRSP/CDEC request-response frames. NOT rendered here: malformed/decline vectors (announce_golden.rs exercises the reader's typed declines in Rust), envelopes with >1 profile or other capability sets, and any frame type absent from \u{00a7}2.5 \u{2014} that is the burn-down this artifact makes measurable, not part of it.\",\n  \"frames\": [\n";

/// The fixed close of the announce vector artifact.
pub const ANNOUNCE_JSON_TAIL: &'static str = "  ]\n}\n";

/// One frame object of the artifact; `last` omits the trailing comma.
pub open spec fn frame_json(name: Seq<char>, clause: Seq<char>, bytes: Seq<u8>, last: bool) -> Seq<
    char,
> {
    "    {\n      \"name\": \""@ + name + "\",\n      \"clause\": \""@ + clause
        + "\",\n      \"byte_length\": "@ + dec_chars(bytes.len()) + ",\n      \"bytes_hex\": \""@
        + hex_upper_spaced(bytes) + "\"\n    }"@ + (if last {
        ""@
    } else {
        ","@
    }) + "\n"@
}

/// The announce vector artifact: the five §2.5 worked-example frames.
pub open spec fn announce_vectors_json() -> Seq<char> {
    ANNOUNCE_JSON_HEAD@ + frame_json(
        "reference_envelope"@,
        "KISS-ANNOUNCE-6.1-0002"@,
        envelope_bytes(
            EnvelopeView {
                envelope_version: 1,
                profiles: seq![1u16],
                capabilities: 0x0000_0003_0000_003F,
            },
        ),
        false,
    ) + frame_json(
        "availability_list"@,
        "KISS-ANNOUNCE-6.3-0005"@,
        list_bytes(
            ListView {
                list_version: 1,
                records: seq![
                    RecordView { structure_key: seq![0xAAu8, 0xBBu8, 0xCCu8], revision_hash: filled_hash(0x11) },
                    RecordView { structure_key: seq![0xDEu8, 0xADu8], revision_hash: filled_hash(0x22) },
                ],
            },
        ),
        false,
    ) + frame_json(
        "cyrq_request"@,
        "KISS-ANNOUNCE-6.4-0001"@,
        query_bytes(reference_identity_view()),
        false,
    ) + frame_json(
        "crsp_response"@,
        "KISS-ANNOUNCE-6.4-0004"@,
        response_bytes(reference_identity_view(), seq![0xDEu8, 0xADu8, 0xBEu8, 0xEFu8, 0x01u8]),
        false,
    ) + frame_json(
        "cdec_response"@,
        "KISS-ANNOUNCE-6.4-0007"@,
        decline_response_bytes(reference_identity_view(), UNKNOWN_REVISION),
        true,
    ) + ANNOUNCE_JSON_TAIL@
}

fn push_frame_json(s: &mut String, name: &str, clause: &str, bytes: &[u8], last: bool)
    ensures
        final(s)@ == old(s)@ + frame_json(name@, clause@, bytes@, last),
{
    push_str(s, "    {\n      \"name\": \"");
    push_str(s, name);
    push_str(s, "\",\n      \"clause\": \"");
    push_str(s, clause);
    push_str(s, "\",\n      \"byte_length\": ");
    push_dec(s, bytes.len() as u64);
    push_str(s, ",\n      \"bytes_hex\": \"");
    push_hex_upper_spaced(s, bytes);
    push_str(s, "\"\n    }");
    if last {
        push_str(s, "");
    } else {
        push_str(s, ",");
    }
    push_str(s, "\n");
    proof {
        assert(final(s)@ =~= old(s)@ + frame_json(name@, clause@, bytes@, last));
    }
}

/// Emit the machine-readable golden vector set for the KISS-Announce wire
/// handshake, generated from the reference codec: the five §2.5 worked-example
/// frames with their clause, byte length and wire bytes.
pub fn emit_announce_vectors_json() -> (s: String)
    ensures
        s@ == announce_vectors_json(),
{
    let mut s = String::new();
    push_str(&mut s, ANNOUNCE_JSON_HEAD);
    let env = reference_envelope();
    let b1 = env.encode();
    push_frame_json(&mut s, "reference_envelope", "KISS-ANNOUNCE-6.1-0002", b1.as_slice(), false);
    let b2 = reference_availability_list().encode();
    push_frame_json(&mut s, "availability_list", "KISS-ANNOUNCE-6.3-0005", b2.as_slice(), false);
    let b3 = reference_cyrq().encode();
    push_frame_json(&mut s, "cyrq_request", "KISS-ANNOUNCE-6.4-0001", b3.as_slice(), false);
    let b4 = reference_crsp().encode();
    push_frame_json(&mut s, "crsp_response", "KISS-ANNOUNCE-6.4-0004", b4.as_slice(), false);
    let b5 = reference_cdec().encode();
    push_frame_json(&mut s, "cdec_response", "KISS-ANNOUNCE-6.4-0007", b5.as_slice(), true);
    push_str(&mut s, ANNOUNCE_JSON_TAIL);
    s
}

} // verus!
