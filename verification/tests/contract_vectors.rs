use kiss_conformance::contract::{
    malformed_contract_vectors, read_document, well_formed_document, ContractDecline,
};

#[test]
fn every_malformed_vector_is_declined_as_pinned() {
    let control = read_document(&well_formed_document()).unwrap();
    assert_eq!(control.contract_kind, "kiss-contract");
    assert_eq!(control.contract_version, "1");
    let vectors = malformed_contract_vectors();
    assert_eq!(vectors.len(), 13);
    for v in &vectors {
        assert_eq!(read_document(&v.doc), Err(v.expect.clone()), "vector: {}", v.name);
    }
    assert_eq!(vectors[0].expect, ContractDecline::NoMagic);
    assert_eq!(
        vectors[8].expect,
        ContractDecline::UnknownVersion { got: "2".to_string() }
    );
    assert!(matches!(vectors[11].expect, ContractDecline::BadChecksum { .. }));
    assert_eq!(vectors[12].expect, ContractDecline::Headingless);
}
