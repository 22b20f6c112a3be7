use kiss_conformance::announce::{
    decode, decode_availability_list, decode_query_request, emit_announce_vectors_json, negotiate,
    reference_availability_list, reference_cdec, reference_crsp, reference_cyrq,
    reference_envelope, AnnounceDecline, Envelope,
};
use kiss_conformance::hex;

#[test]
fn reference_envelope_golden_bytes() {
    let b = reference_envelope().encode();
    assert_eq!(b.len(), 56);
    assert_eq!(
        hex(&b[0..12]),
        "53 45 41 4D 01 00 00 00 01 00 01 00"
    );
    assert_eq!(hex(&b[48..56]), "3F 00 00 00 03 00 00 00");
    assert_eq!(decode(&b), Ok(reference_envelope()));
}

#[test]
fn envelope_declines_are_typed() {
    let good = reference_envelope().encode();
    assert_eq!(decode(&good[..55]), Err(AnnounceDecline::WrongLength { got: 55 }));
    let mut bad = good.clone();
    bad[0] = 0;
    assert!(matches!(decode(&bad), Err(AnnounceDecline::BadMagic { .. })));
    let mut bad = good.clone();
    bad[4] = 2;
    assert_eq!(decode(&bad), Err(AnnounceDecline::UnsupportedVersion { got: 2 }));
    let mut bad = good.clone();
    bad[6] = 1;
    assert_eq!(decode(&bad), Err(AnnounceDecline::ReservedNonZero { region: "reserved0" }));
    let mut bad = good.clone();
    bad[8] = 17;
    assert_eq!(decode(&bad), Err(AnnounceDecline::ProfilesLenOverflow { got: 17 }));
    let mut bad = good.clone();
    bad[10] = 0;
    assert_eq!(decode(&bad), Err(AnnounceDecline::ZeroLiveProfile));
    let mut bad = good.clone();
    bad[12] = 5;
    assert_eq!(decode(&bad), Err(AnnounceDecline::TrailingProfileNonZero));
    let mut bad = good.clone();
    bad[44] = 1;
    assert_eq!(decode(&bad), Err(AnnounceDecline::ReservedNonZero { region: "reserved1" }));
    let e = Envelope { envelope_version: 1, profiles: vec![3, 2], capabilities: 0 };
    let mut b = reference_envelope().encode();
    b[8] = 2;
    b[10] = 3;
    b[12] = 2;
    assert_eq!(decode(&b), Err(AnnounceDecline::ProfilesNotStrictlyAscending));
    let _ = e;
}

#[test]
fn negotiation_picks_the_highest_common_profile() {
    let a = Envelope { envelope_version: 1, profiles: vec![1, 2, 5], capabilities: 0 };
    let b = Envelope { envelope_version: 1, profiles: vec![2, 5, 7], capabilities: 0 };
    assert_eq!(negotiate(&a, &b), Ok(5));
    let c = Envelope { envelope_version: 1, profiles: vec![3], capabilities: 0 };
    assert_eq!(negotiate(&a, &c), Err(AnnounceDecline::NoMutualProfile));
}

#[test]
fn frames_round_trip() {
    let l = reference_availability_list();
    assert_eq!(decode_availability_list(&l.encode()), Ok(l));
    let q = reference_cyrq();
    let qb = q.encode();
    assert_eq!(decode_query_request(&qb), Ok(q));
    assert_eq!(
        decode_query_request(&qb[..qb.len() - 1]),
        Err(AnnounceDecline::Truncated { region: "revision_hash" })
    );
    assert_eq!(hex(&reference_crsp().encode()[0..4]), "43 52 53 50");
    let d = reference_cdec().encode();
    assert_eq!(hex(&d[d.len() - 4..]), "06 00 00 00");
    let j = emit_announce_vectors_json();
    assert!(j.starts_with("{\n  \"schema\": \"kiss-announce-vectors-v1.json\""));
    assert!(j.contains("\"byte_length\": 56,"));
    assert!(j.ends_with("  ]\n}\n"));
}
