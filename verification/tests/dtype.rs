use kiss_conformance::dtype::{
    b1_pack, b1_unpack, s4_pack, s4_sign_extend, s4_unpack, u4_pack, u4_unpack, u4_zero_extend,
};

#[test]
fn s4_sign_extension_and_u4_zero_extension() {
    assert_eq!(s4_sign_extend(0xF), -1);
    assert_eq!(s4_sign_extend(0x8), -8);
    assert_eq!(s4_sign_extend(0x7), 7);
    assert_eq!(s4_sign_extend(0xF3), 3); // only the low nibble counts
    assert_eq!(u4_zero_extend(0xF), 15);
    assert_eq!(u4_zero_extend(0xAB), 0xB);
}

#[test]
fn nibble_layout_is_even_low_odd_high() {
    assert_eq!(u4_pack(&[0x1, 0x2, 0x3]), vec![0x21, 0x03]);
    assert_eq!(s4_pack(&[-1, 2]), vec![0x2F]);
    assert_eq!(s4_pack(&[]), Vec::<u8>::new());
    assert_eq!(u4_unpack(&[0x21, 0x03], 3), vec![1, 2, 3]);
    assert_eq!(s4_unpack(&[0x8F], 2), vec![-1, -8]);
}

#[test]
fn nibble_roundtrips() {
    let s: Vec<i8> = (-8..=7).collect();
    assert_eq!(s4_unpack(&s4_pack(&s), s.len()), s);
    let u: Vec<u8> = (0..16).collect();
    assert_eq!(u4_unpack(&u4_pack(&u), u.len()), u);
}

#[test]
fn b1_is_lsb_first() {
    assert_eq!(b1_pack(&[1, 0, 0, 0, 0, 0, 0, 0, 1]), vec![0x01, 0x01]);
    assert_eq!(b1_pack(&[0, 1, 1]), vec![0x06]);
    assert_eq!(b1_pack(&[]), Vec::<u8>::new());
    assert_eq!(b1_unpack(&[0x06], 3), vec![0, 1, 1]);
    let bits = vec![1, 1, 0, 1, 0, 0, 1, 0, 1, 1, 1];
    assert_eq!(b1_unpack(&b1_pack(&bits), bits.len()), bits);
}
