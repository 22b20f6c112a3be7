use kiss_conformance::grammar::{declared_appendix_vectors, AppendixDecline};
use kiss_conformance::grammar::{
    decode, encode, encode_operand_roles, encode_tag, g1_region, g4_region, golden_regions,
    is_commutative, subtree_key, DecodeDecline, Decline, Extract, Node, ParsedNode, Region,
    RoleEntry,
};

fn g4_golden() -> Vec<u8> {
    vec![
        0x4B, 0x47, 0x52, 0x4D, // magic
        0x01, 0x00, // schema version
        0x01, 0x00, 0x00, 0x00, // n_inputs
        0x01, 0x00, 0x31, // ops_version "1"
        0x01, 0x00, 0x31, // classify_version "1"
        0x02, 0x00, 0x00, 0x00, // node count
        0x00, 0x00, 0x00, 0x00, 0x00, // Bind(0)
        0x01, 0x03, 0x00, 0x61, 0x64, 0x64, // op "add"
        0x01, // consumers = ROOT
        0x00, 0x00, // empty OpAttrs
        0x00, 0x00, // default roles
        0x02, 0x00, 0x00, 0x00, 0x00, 0x00, 0x00, 0x00, 0x00, 0x00, // operands [0, 0]
        0x00, 0x00, // no extracts
    ]
}

#[test]
fn repeated_bind_is_deduplicated_into_one_record() {
    let bytes = encode(&g4_region()).unwrap();
    assert_eq!(bytes, g4_golden());
}

#[test]
fn golden_regions_decode_back_to_their_node_tables() {
    let g1 = decode(&encode(&g1_region()).unwrap()).unwrap();
    assert_eq!(g1.n_inputs, 3);
    assert_eq!(g1.nodes.len(), 5);
    // `add` is commutative: the bind leaf (key 0x00..) sorts before the `mul` subtree.
    assert_eq!(g1.nodes[0], ParsedNode::Bind(2));
    assert_eq!(g1.nodes[1], ParsedNode::Bind(0));
    assert_eq!(g1.nodes[2], ParsedNode::Bind(1));
    match &g1.nodes[4] {
        ParsedNode::Op { op_name, consumers, operands, .. } => {
            assert_eq!(op_name, "add");
            assert_eq!(*consumers, 0x01);
            assert_eq!(operands, &vec![0u32, 3]);
        }
        other => panic!("root should be an op node, got {:?}", other),
    }
    let g4 = decode(&g4_golden()).unwrap();
    assert_eq!(g4.nodes.len(), 2);
    assert_eq!(g4.ops_version, "1");
    assert!(g4.extracts.is_empty());
    assert_eq!(golden_regions().len(), 2);
}

#[test]
fn decoding_an_encoded_region_reads_it_back() {
    let mut region = Region::new(
        2,
        "ops-2",
        "cls-1",
        Node::op("sub", vec![Node::op("mul", vec![Node::Bind(1), Node::Bind(0)]), Node::Bind(0)]),
    );
    region.extracts.push(Extract { path: vec![1, 0], param_slot: 1 });
    region.extracts.push(Extract { path: vec![0], param_slot: 1 });
    region.extracts.push(Extract { path: vec![2], param_slot: 0 });
    let bytes = encode(&region).unwrap();
    let parsed = decode(&bytes).unwrap();
    assert_eq!(parsed.n_inputs, 2);
    assert_eq!(parsed.ops_version, "ops-2");
    assert_eq!(parsed.classify_version, "cls-1");
    let last = parsed.nodes.len() - 1;
    for (i, node) in parsed.nodes.iter().enumerate() {
        if let ParsedNode::Op { consumers, operands, .. } = node {
            assert!(operands.iter().all(|&o| (o as usize) < i));
            assert_eq!(*consumers == 0x01, i == last);
        }
    }
    assert!(matches!(&parsed.nodes[last], ParsedNode::Op { op_name, .. } if op_name == "sub"));
    let slots: Vec<(u32, Vec<u16>)> =
        parsed.extracts.iter().map(|e| (e.param_slot, e.path.clone())).collect();
    assert_eq!(slots, vec![(0, vec![2]), (1, vec![0]), (1, vec![1, 0])]);
    let mut trailing = bytes.clone();
    trailing.push(0x7F);
    assert_eq!(decode(&trailing), Err(DecodeDecline::TrailingBytes));
}

#[test]
fn unbound_and_out_of_range_inputs_decline() {
    let unbound = Region::new(2, "1", "1", Node::op("add", vec![Node::Bind(0), Node::Bind(0)]));
    assert_eq!(encode(&unbound), Err(Decline::BindSetMismatch { declared: 2, unbound: 1 }));
    let out_of_range =
        Region::new(1, "1", "1", Node::op("add", vec![Node::Bind(0), Node::Bind(3)]));
    assert_eq!(
        encode(&out_of_range),
        Err(Decline::BindIndexOutOfRange { index: 3, n_inputs: 1 })
    );
}

#[test]
fn reader_declines_are_typed() {
    assert_eq!(decode(b"XXXX\x01\x00"), Err(DecodeDecline::BadMagic));
    assert_eq!(decode(b"KGRM"), Err(DecodeDecline::Truncated));
    assert_eq!(
        decode(b"KGRM\x02\x00"),
        Err(DecodeDecline::UnsupportedSchemaVersion { got: 2 })
    );
    let mut trailing = g4_golden();
    trailing.push(0);
    assert_eq!(decode(&trailing), Err(DecodeDecline::TrailingBytes));
    let mut not_root = g4_golden();
    not_root[31] = 0x00;
    assert_eq!(decode(&not_root), Err(DecodeDecline::RootNotRoot));
    let mut forward = g4_golden();
    forward[38] = 0x01;
    assert_eq!(
        decode(&forward),
        Err(DecodeDecline::ForwardOperandReference { node: 1, operand: 1 })
    );
}

#[test]
fn operand_roles_omit_trailing_defaults() {
    assert_eq!(encode_operand_roles(&[], 3), vec![0x00, 0x00]);
    let roles = vec![
        RoleEntry::default_entry(),
        RoleEntry { role: "index".to_string(), dtype: "i32".to_string() },
        RoleEntry::default_entry(),
    ];
    assert_eq!(
        encode_operand_roles(&roles, 3),
        vec![
            0x02, 0x00, // k = 2
            0x04, 0x00, b'd', b'a', b't', b'a', 0x01, 0x00, b'*', //
            0x05, 0x00, b'i', b'n', b'd', b'e', b'x', 0x03, 0x00, b'i', b'3', b'2',
        ]
    );
}

#[test]
fn tag_serialization_carries_only_identity_fields() {
    assert_eq!(
        encode_tag("add", &[], &[], 2),
        vec![0x03, 0x00, b'a', b'd', b'd', 0x00, 0x00, 0x00, 0x00]
    );
    assert_eq!(
        encode_tag("mul", &[0xAB], &[], 2),
        vec![0x03, 0x00, b'm', b'u', b'l', 0x01, 0x00, 0xAB, 0x00, 0x00]
    );
}

#[test]
fn subtree_keys_and_commutativity() {
    assert!(is_commutative("add"));
    assert!(is_commutative("mul"));
    assert!(!is_commutative("sub"));
    assert_eq!(subtree_key(&Node::Bind(7)), vec![0x00, 0x07, 0x00, 0x00, 0x00]);
    let ab = subtree_key(&Node::op("add", vec![Node::Bind(1), Node::Bind(0)]));
    let ba = subtree_key(&Node::op("add", vec![Node::Bind(0), Node::Bind(1)]));
    assert_eq!(ab, ba);
    let sa = subtree_key(&Node::op("sub", vec![Node::Bind(1), Node::Bind(0)]));
    let sb = subtree_key(&Node::op("sub", vec![Node::Bind(0), Node::Bind(1)]));
    assert_ne!(sa, sb);
}

#[test]
fn mul_key_ignores_the_order_of_its_subtrees() {
    let left = Node::op("sub", vec![Node::Bind(2), Node::Bind(0)]);
    let right = Node::Bind(1);
    let lr = subtree_key(&Node::op("mul", vec![left, right]));
    let left = Node::op("sub", vec![Node::Bind(2), Node::Bind(0)]);
    let right = Node::Bind(1);
    let rl = subtree_key(&Node::op("mul", vec![right, left]));
    assert_eq!(lr, rl);
    assert_eq!(&lr[..9], &[0x01, 0x03, 0x00, b'm', b'u', b'l', 0x00, 0x00, 0x00]);
}

#[test]
fn declared_vectors_are_read_from_appendix_a() {
    let doc = "# Grammar\n*Vector X0* is not in the appendix\n## Appendix A\n*Vector G1* fusion\n\
*Vector G4*: dedup\n*Vector G1* again\n*Vector * no id\n## Appendix B\n*Vector G9*\n";
    let ids = declared_appendix_vectors(doc).expect("the appendix declares vectors");
    assert_eq!(ids, vec!["G1".to_string(), "G4".to_string()]);
    assert_eq!(declared_appendix_vectors("## Appendix B\n*Vector G1*"), Err(AppendixDecline::NoAppendix));
    assert_eq!(declared_appendix_vectors("## Appendix A\nnothing here\n## B"), Err(AppendixDecline::NoVectors));
}
