use kiss_conformance::namespace_vocabulary::{
    assert_vocabulary_version, check_derivability_witnesses, check_generated_vector_coverage, validate_envelope,
    Kind, ManifestDecline,
};

const REGISTRY: &str = r#"{"namespaces": [
  {"namespace": "cuda", "status": "registered"},
  {"namespace": "future", "status": "reserved"}
]}"#;

fn manifest(fields: &str) -> String {
    format!(
        r#"{{"schema": "kiss-namespace-vocabulary-v1", "namespace": "cuda", "generated_from": "annex A",
"grammar": "token", "coverage_note": "all", {fields}}}"#
    )
}

#[test]
fn a_well_formed_envelope_validates() {
    let m = validate_envelope(&manifest(r#""vocabulary_version": 3, "kind": "enumerated", "members": []"#), REGISTRY)
        .expect("valid envelope");
    assert_eq!(m.namespace, "cuda");
    assert_eq!(m.vocabulary_version, 3);
    assert_eq!(m.kind, Kind::Enumerated);
    assert_eq!(assert_vocabulary_version(&m, 3), Ok(()));
    assert_eq!(
        assert_vocabulary_version(&m, 4),
        Err(ManifestDecline::VocabularyVersionMismatch { got: 3, built_for: 4 })
    );
}

#[test]
fn envelope_defects_are_typed_declines() {
    let v = |f: &str| validate_envelope(&manifest(f), REGISTRY).err();
    assert_eq!(
        v(r#""vocabulary_version": 3.9, "kind": "enumerated", "members": []"#),
        Some(ManifestDecline::NonIntegerVersion { got: "3.9".to_string() })
    );
    assert_eq!(
        v(r#""vocabulary_version": 3, "kind": "mixed", "members": []"#),
        Some(ManifestDecline::UnrecognizedKind { got: "mixed".to_string() })
    );
    assert_eq!(v(r#""vocabulary_version": 3, "kind": "enumerated""#), Some(ManifestDecline::EnumeratedMissingMembers));
    assert_eq!(
        v(r#""vocabulary_version": 3, "kind": "generated", "field_spec": null"#),
        Some(ManifestDecline::MissingField("field_spec"))
    );
    assert_eq!(v(r#""kind": "enumerated""#), Some(ManifestDecline::MissingField("vocabulary_version")));
    let reserved = manifest(r#""vocabulary_version": 3, "kind": "enumerated", "members": []"#)
        .replace(r#""namespace": "cuda""#, r#""namespace": "future""#);
    assert_eq!(
        validate_envelope(&reserved, REGISTRY).err(),
        Some(ManifestDecline::UnregisteredNamespace { got: "future".to_string() })
    );
    assert_eq!(validate_envelope("{", REGISTRY).err(), Some(ManifestDecline::BadJson));
    assert_eq!(validate_envelope("[1]", REGISTRY).err(), Some(ManifestDecline::NotAnObject));
    assert_eq!(
        validate_envelope(r#"{"schema": "other"}"#, REGISTRY).err(),
        Some(ManifestDecline::UnknownSchema { got: "other".to_string() })
    );
}

#[test]
fn generated_vectors_cover_the_canonicalization_concerns() {
    let base = r#""vocabulary_version": 1, "kind": "generated", "field_spec": {}, "vectors": [{"pins": "order"}, {"pins": "dedup"}]"#;
    let exempt = validate_envelope(&manifest(&format!(r#"{base}, "pins_exempt": ["threshold", "digest_input"]"#)), REGISTRY)
        .expect("valid");
    assert_eq!(check_generated_vector_coverage(&exempt), Ok(()));
    let bare = validate_envelope(&manifest(base), REGISTRY).expect("valid");
    assert_eq!(check_generated_vector_coverage(&bare), Err(ManifestDecline::GeneratedVectorsMissingPin("threshold")));
    let no_order = validate_envelope(
        &manifest(r#""vocabulary_version": 1, "kind": "generated", "field_spec": {}, "vectors": [], "pins_exempt": ["order"]"#),
        REGISTRY,
    )
    .expect("valid");
    assert_eq!(check_generated_vector_coverage(&no_order), Err(ManifestDecline::GeneratedVectorsMissingPin("order")));
    let none = validate_envelope(&manifest(r#""vocabulary_version": 1, "kind": "generated", "field_spec": {}"#), REGISTRY)
        .expect("valid");
    assert_eq!(check_generated_vector_coverage(&none), Err(ManifestDecline::GeneratedMissingVectors));
}

#[test]
fn witnesses_need_a_gate_and_resolvable_references() {
    let with = |gate: &str, members: &str| {
        validate_envelope(
            &manifest(&format!(r#""vocabulary_version": 1, "kind": "enumerated", {gate} "members": {members}"#)),
            REGISTRY,
        )
        .expect("valid")
    };
    let good = with(r#""witness_gate": "ci", "#, r#"[{"token": "sm90", "derivability_witness": ["vocab::Sm90"]}]"#);
    assert_eq!(check_derivability_witnesses(&good), Ok(()));
    let empty = with(r#""witness_gate": "ci", "#, r#"[{"token": "sm90", "derivability_witness": []}]"#);
    assert_eq!(
        check_derivability_witnesses(&empty),
        Err(ManifestDecline::EntryMissingWitness { token: "sm90".to_string() })
    );
    let flat = with(r#""witness_gate": "ci", "#, r#"[{"derivability_witness": ["Sm90"]}]"#);
    assert_eq!(
        check_derivability_witnesses(&flat),
        Err(ManifestDecline::WitnessNotResolvable { token: "<unnamed>".to_string(), reference: "Sm90".to_string() })
    );
    assert_eq!(check_derivability_witnesses(&with("", "[]")), Err(ManifestDecline::NoWitnessGate));
    assert_eq!(check_derivability_witnesses(&with(r#""witness_gate": "  ", "#, "[]")), Err(ManifestDecline::NoWitnessGate));
}
