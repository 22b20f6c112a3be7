use kiss_conformance::expressibility::{
    fnv1a64, reject_set, serialize_set, serialize_signature_bytes, signature_hash_hex, Decline,
    Node, Signature, SignatureSet,
};

#[test]
fn fnv1a64_empty_is_the_offset_basis() {
    assert_eq!(fnv1a64(&[]), 0xcbf2_9ce4_8422_2325);
}

#[test]
fn fnv1a64_is_deterministic_and_input_sensitive() {
    let a = fnv1a64(b"add-signature-bytes");
    let b = fnv1a64(b"add-signature-bytes");
    let c = fnv1a64(b"sub-signature-bytes");
    assert_eq!(a, b, "same input must hash identically across calls");
    assert_ne!(a, c, "different input should (overwhelmingly likely) hash differently");
}

#[test]
fn signature_hash_hex_is_16_lowercase_hex_digits() {
    let h = signature_hash_hex(b"\x01\x02\x03");
    assert_eq!(h.len(), 16);
    assert!(h.chars().all(|c| c.is_ascii_hexdigit() && !c.is_ascii_uppercase()));
}

#[test]
fn fnv1a64_of_one_byte_is_one_step() {
    // (basis ^ 0x61) * prime mod 2^64 — the published FNV-1a-64 of "a".
    assert_eq!(fnv1a64(b"a"), 0xaf63_dc4c_8601_ec8c);
    assert_eq!(signature_hash_hex(b"a"), "af63dc4c8601ec8c");
    assert_eq!(signature_hash_hex(&[]), "cbf29ce484222325");
}

fn op(name: &str) -> Node {
    Node::Op { name: name.to_string(), opattrs: vec![] }
}

#[test]
fn bind_leaf_and_positional_op_bytes() {
    let sig = Signature { nodes: vec![Node::Bind(0), Node::Bind(1), op("sub")], edges: vec![vec![], vec![], vec![1, 0]] };
    let b = serialize_signature_bytes(&sig);
    let mut want = vec![0x01, 0x03, 0x00, b's', b'u', b'b', 0x01, 0x00, 0x00, 0x00, 0x00];
    want.extend_from_slice(&[0x00, 0x01, 0x00, 0x00, 0x00]); // Bind(1) first: authored order kept
    want.extend_from_slice(&[0x00, 0x00, 0x00, 0x00, 0x00]); // Bind(0)
    assert_eq!(b, want);
}

#[test]
fn commutative_operands_sort_by_bytes() {
    let swapped = Signature { nodes: vec![Node::Bind(0), Node::Bind(1), op("add")], edges: vec![vec![], vec![], vec![1, 0]] };
    let authored = Signature { nodes: vec![Node::Bind(0), Node::Bind(1), op("add")], edges: vec![vec![], vec![], vec![0, 1]] };
    let a = serialize_signature_bytes(&swapped);
    assert_eq!(a, serialize_signature_bytes(&authored));
    // Bind(0) sorts before Bind(1)
    assert_eq!(&a[a.len() - 10..a.len() - 5], &[0x00, 0x00, 0x00, 0x00, 0x00]);
    // an interior op node carries the INTERIOR consumers byte
    let nested = Signature {
        nodes: vec![Node::Bind(0), op("neg"), op("sub")],
        edges: vec![vec![], vec![0], vec![1]],
    };
    let n = serialize_signature_bytes(&nested);
    assert_eq!(n[6], 0x01); // root consumers byte
    assert_eq!(n[11 + 6], 0x00); // interior `neg` consumers byte
    assert_eq!(serialize_signature_bytes(&Signature { nodes: vec![], edges: vec![] }), Vec::<u8>::new());
}

fn two_bind_set() -> SignatureSet {
    SignatureSet {
        owner: "KISS-OPS".to_string(),
        ops_op_set_version: "1".to_string(),
        opattrs_wire_version: "1".to_string(),
        generator: "g\u{1}".to_string(),
        signatures: vec![
            Signature { nodes: vec![Node::Bind(1)], edges: vec![vec![]] },
            Signature { nodes: vec![Node::Bind(0)], edges: vec![vec![]] },
        ],
    }
}

#[test]
fn set_document_orders_signatures_by_bytes() {
    let doc = String::from_utf8(serialize_set(&two_bind_set())).unwrap();
    let want = [
        "{\"generator\":\"g\\u0001\",\"opattrs_wire_version\":\"1\",\"ops_op_set_version\":\"1\",\"owner\":\"KISS-OPS\",",
        "\"signatures\":[",
        "{\"bytes\":\"0000000000\",\"edges\":[[]],\"nodes\":[\"Bind{0}\"],\"signature_hash\":\"e4bc4fd9252be94f\"},",
        "{\"bytes\":\"0001000000\",\"edges\":[[]],\"nodes\":[\"Bind{1}\"],\"signature_hash\":\"44c1a3d0cef62cbe\"}",
        "]}",
    ]
    .join("");
    assert_eq!(doc, want);
}

#[test]
fn set_document_lists_canonical_edges_and_op_displays() {
    let set = SignatureSet {
        owner: "KISS-OPS".to_string(),
        ops_op_set_version: "1".to_string(),
        opattrs_wire_version: "1".to_string(),
        generator: "g".to_string(),
        signatures: vec![Signature {
            nodes: vec![Node::Bind(0), Node::Bind(1), Node::Op { name: "add".to_string(), opattrs: vec![0xAB] }],
            edges: vec![vec![], vec![], vec![1, 0]],
        }],
    };
    let doc = String::from_utf8(serialize_set(&set)).unwrap();
    assert!(doc.contains("\"edges\":[[],[],[0,1]]"));
    assert!(doc.contains("\"nodes\":[\"Bind{0}\",\"Bind{1}\",\"Op{add;ab}\"]"));
}

#[test]
fn a_serialized_set_reads_back_and_violations_decline() {
    let doc = serialize_set(&two_bind_set());
    assert_eq!(reject_set(&doc), Ok(()));
    assert_eq!(reject_set(b"not json"), Err(Decline::MissingField("generator".to_string())));
    assert_eq!(reject_set(&[0xFF]), Err(Decline::MissingField("generator".to_string())));
    assert_eq!(reject_set(b"[]"), Err(Decline::MissingField("generator".to_string())));
    let text = String::from_utf8(doc).unwrap();
    let no_owner = text.replace("\"owner\":\"KISS-OPS\",", "");
    assert_eq!(reject_set(no_owner.as_bytes()), Err(Decline::MissingField("owner".to_string())));
    let extra = text.replace("{\"generator\"", "{\"extra\":1,\"generator\"");
    assert_eq!(reject_set(extra.as_bytes()), Err(Decline::UnknownField("extra".to_string())));
    let bad_owner = text.replace("KISS-OPS", "OTHER");
    assert_eq!(reject_set(bad_owner.as_bytes()), Err(Decline::BadEnumerant("owner=OTHER".to_string())));
    let no_hash = text.replacen(",\"signature_hash\":\"e4bc4fd9252be94f\"", "", 1);
    assert_eq!(reject_set(no_hash.as_bytes()), Err(Decline::MissingField("signature_hash".to_string())));
    let scalar_sig = text.replace("\"signatures\":[", "\"signatures\":[7,");
    assert_eq!(reject_set(scalar_sig.as_bytes()), Err(Decline::MissingField("bytes".to_string())));
    let sigs_not_array = "{\"generator\":\"g\",\"opattrs_wire_version\":\"1\",\"ops_op_set_version\":\"1\",\"owner\":\"KISS-OPS\",\"signatures\":7}";
    assert_eq!(
        reject_set(sigs_not_array.as_bytes()),
        Err(Decline::MissingField("signatures[array]".to_string()))
    );
}
