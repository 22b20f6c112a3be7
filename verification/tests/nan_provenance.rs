use kiss_conformance::nan_provenance::{admits_snan, compare_nan_output, is_nan, NanProvenance};

#[test]
fn nan_detection_per_layout() {
    assert!(is_nan("f32", &[0x7F, 0xC0, 0x00, 0x00]));
    assert!(!is_nan("f32", &[0x7F, 0x80, 0x00, 0x00])); // +inf
    assert!(!is_nan("f32", &[0x7F, 0xC0, 0x00])); // wrong width
    assert!(is_nan("f8e4m3fn", &[0x7F]));
    assert!(is_nan("f8e4m3fn", &[0xFF]));
    assert!(!is_nan("f8e4m3fn", &[0x7E]));
    assert!(is_nan("bf16", &[0xFF, 0x81]));
    assert!(is_nan("f64", &[0x7F, 0xF8, 0, 0, 0, 0, 0, 0]));
    assert!(!is_nan("i32", &[0, 0, 0, 0]));
}

#[test]
fn only_e4m3fn_lacks_a_signaling_nan() {
    for d in ["f64", "f32", "f16", "bf16", "f8e5m2"] {
        assert!(admits_snan(d));
    }
    assert!(!admits_snan("f8e4m3fn"));
    assert!(!admits_snan("u8"));
}

#[test]
fn moved_nan_compares_bytes() {
    let q = [0x7F, 0xC0, 0x00, 0x01];
    assert_eq!(compare_nan_output("f32", &q, &q, NanProvenance::Moved), Ok(()));
    assert_eq!(
        compare_nan_output("f32", &[0xFF, 0xC0, 0x00, 0x01], &q, NanProvenance::Moved),
        Err("moved-NaN mismatch (f32): bytes differ — payload/sign not preserved (actual [FF, C0, 00, 01], expected [7F, C0, 00, 01])".to_string())
    );
}

#[test]
fn computed_nan_compares_nan_ness_and_quietness() {
    let quiet = [0x7F, 0xC0, 0x00, 0x00];
    let other_quiet = [0xFF, 0xC1, 0x23, 0x45];
    let signaling = [0x7F, 0x80, 0x00, 0x01];
    assert_eq!(compare_nan_output("f32", &other_quiet, &quiet, NanProvenance::Computed), Ok(()));
    assert_eq!(
        compare_nan_output("f32", &signaling, &quiet, NanProvenance::Computed),
        Err("computed-NaN quietness mismatch (f32): actual quiet=false, expected quiet=true (§6.16-0010 — quietness must agree where the format admits an sNaN)".to_string())
    );
    assert_eq!(
        compare_nan_output("f32", &[0, 0, 0, 0], &quiet, NanProvenance::Computed),
        Err("computed-NaN mismatch (f32): actual is not a NaN".to_string())
    );
    assert_eq!(
        compare_nan_output("f32", &quiet, &[0, 0, 0, 0], NanProvenance::Computed),
        Err("computed-NaN test error (f32): expected is not a NaN".to_string())
    );
    assert_eq!(
        compare_nan_output("x9", &quiet, &quiet, NanProvenance::Computed),
        Err("unknown dtype `x9`".to_string())
    );
    // the single-encoding dtype has no quietness obligation
    assert_eq!(compare_nan_output("f8e4m3fn", &[0xFF], &[0x7F], NanProvenance::Computed), Ok(()));
}
