use kiss_conformance::{compare, hex, parse_hex, DeterminismClass};

#[test]
fn hex_roundtrip() {
    assert_eq!(parse_hex("01 FF FF 01"), vec![0x01, 0xFF, 0xFF, 0x01]);
    assert_eq!(hex(&[0x00, 0x02, 0x01, 0x02]), "00 02 01 02");
    // the `·` grouping marks are ignored
    assert_eq!(parse_hex("02·03 00 00 00·03 00 00 00").len(), 9);
}

#[test]
fn exact_byte_comparator() {
    assert!(compare(DeterminismClass::ExactByte, &[1, 2], &[1, 2]).is_ok());
    assert!(compare(DeterminismClass::ExactByte, &[1, 2], &[1, 3]).is_err());
}

#[test]
fn exact_byte_mismatch_message_cites_both_vectors() {
    assert_eq!(
        compare(DeterminismClass::ExactByte, &[0xAB], &[0x01, 0x02]),
        Err("byte mismatch under exact-byte comparator\n    expected: 01 02\n    actual:   AB".to_string())
    );
}

#[test]
fn other_comparators_are_outside_the_slice() {
    assert_eq!(
        compare(DeterminismClass::UlpTolerance, &[1], &[1]),
        Err("comparator for UlpTolerance is not part of this slice".to_string())
    );
    assert_eq!(
        compare(DeterminismClass::OrderInvariant, &[], &[]),
        Err("comparator for OrderInvariant is not part of this slice".to_string())
    );
}

#[test]
fn hex_of_empty_is_empty_and_parse_ignores_separators() {
    assert_eq!(hex(&[]), "");
    assert_eq!(parse_hex(""), Vec::<u8>::new());
    assert_eq!(parse_hex("a-b:0f"), vec![0xAB, 0x0F]);
    assert_eq!(parse_hex(&hex(&[0, 0x7F, 0x80, 0xFF])), vec![0, 0x7F, 0x80, 0xFF]);
}

/// Asserts that an encoder's output matches a golden vector byte for byte,
/// citing the pinning clause on a mismatch.
fn assert_golden(clause: &str, name: &str, actual: &[u8], golden_hex: &str) {
    let expected = parse_hex(golden_hex);
    if let Err(e) = compare(DeterminismClass::ExactByte, actual, &expected) {
        panic!("[{clause}] golden vector `{name}` FAILED\n    {e}");
    }
}

#[test]
fn golden_vectors_compare_as_transcribed() {
    assert_golden("6.4", "grouped", &[0x02, 0x03, 0x00], "02·03 00");
    assert_golden("6.4", "spaced", &[0xAB, 0xCD], "ab cd");
}
