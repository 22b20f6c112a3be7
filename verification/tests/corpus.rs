use kiss_conformance::corpus::load;
use kiss_conformance::DeterminismClass;

const SAMPLE: &str = r#"{
  "schema": "kiss-oracle-vectors-v1.json",
  "schema_version": 1,
  "ulp_metric": "integer totalOrder distance",
  "vectors": [
    {
      "tcId": 1, "op": "add", "dtype": "f32", "rounding": "roundTiesToEven",
      "inputs": [ {"role":"a","dtype":"f32","bits":"80 00 00 00"},
                  {"role":"b","dtype":"f32","bits":"00 00 00 00"} ],
      "expected": {"dtype":"f32","bits":"00 00 00 00"},
      "class": "exact-byte", "ulp_bound": 0, "provenance": "oracle",
      "tags": ["signed-zero"],
      "certificate": {"hardness_margin_bits": 0, "stabilized_precision_bits": 24}
    }
  ]
}"#;

#[test]
fn loads_a_cell_with_decoded_bits_and_class() {
    let c = load(SAMPLE).unwrap();
    assert_eq!(c.schema, "kiss-oracle-vectors-v1.json");
    assert_eq!(c.vectors.len(), 1);
    let cell = &c.vectors[0];
    assert_eq!(cell.op, "add");
    assert_eq!(cell.inputs.len(), 2);
    assert_eq!(cell.inputs[0], vec![0x80, 0x00, 0x00, 0x00]); // -0.0
    assert_eq!(cell.expected, vec![0x00, 0x00, 0x00, 0x00]); // +0.0
    assert_eq!(cell.class, DeterminismClass::ExactByte);
    assert!(cell.has_certificate);
    assert_eq!(cell.provenance, "oracle");
}

#[test]
fn rejects_split_as_a_class() {
    let bad = SAMPLE.replace("\"exact-byte\"", "\"split\"");
    assert!(load(&bad).is_err(), "split is not a determinism class (§6.8-0005)");
}

#[test]
fn rejects_reference_observed_provenance() {
    let bad = SAMPLE.replace("\"oracle\"", "\"reference-observed\"");
    assert!(load(&bad).is_err(), "reference-observed is circular (§6.5-0003)");
}

#[test]
fn cell_fields_and_declines_are_exact() {
    let c = load(SAMPLE).unwrap();
    let cell = &c.vectors[0];
    assert_eq!(c.schema_version, 1);
    assert_eq!(c.ulp_metric, "integer totalOrder distance");
    assert_eq!(cell.tc_id, 1);
    assert_eq!(cell.tags, vec!["signed-zero".to_string()]);
    assert_eq!(cell.certificate_precision_bits, Some(24));
    assert_eq!(
        load(&SAMPLE.replace("\"exact-byte\"", "\"split\"")).unwrap_err(),
        "vector[0]: `split` is not a determinism class (split is not a class, §6.8-0005)"
    );
    assert_eq!(
        load(&SAMPLE.replace("\"oracle\"", "\"reference-observed\"")).unwrap_err(),
        "vector[0]: provenance `reference-observed` is circular and inadmissible (§6.5-0003)"
    );
    assert_eq!(
        load(&SAMPLE.replace("v1.json", "v99.json")).unwrap_err(),
        "unrecognized `schema` `kiss-oracle-vectors-v99.json` (§6.5-0017); recognized: [\"kiss-oracle-vectors-v1.json\"]"
    );
    assert_eq!(
        load(&SAMPLE.replace("\"schema_version\": 1", "\"schema_version\": 999")).unwrap_err(),
        "unrecognized `schema_version` 999 (§6.5-0017); recognized: [1]"
    );
    assert_eq!(
        load(&SAMPLE.replace("\"tcId\": 1,", "")).unwrap_err(),
        "vector[0]: missing field `tcId`"
    );
    assert_eq!(
        load(&SAMPLE.replace("\"ULP\"", "x").replace("\"class\": \"exact-byte\"", "\"class\": \"ULP\"")).unwrap().vectors[0].class,
        DeterminismClass::UlpTolerance
    );
}
