use advz::bytes_to_field::{bytes_to_field, elem_byte_capacity, field_to_bytes};
use advz::field::Scalar;

#[test]
fn an_element_takes_thirty_one_bytes() {
    assert_eq!(elem_byte_capacity(), 31);
}

#[test]
fn packing_pads_the_last_element_with_zeros() {
    let bytes: Vec<u8> = (1..=33).collect();
    let elems = bytes_to_field(&bytes);
    assert_eq!(elems.len(), 2);
    let mut first = [0u8; 32];
    first[..31].copy_from_slice(&bytes[..31]);
    assert_eq!(elems[0], Scalar { bytes: first });
    let mut second = [0u8; 32];
    second[0] = 32;
    second[1] = 33;
    assert_eq!(elems[1], Scalar { bytes: second });
}

#[test]
fn unpacking_gives_thirty_one_bytes_for_each_element() {
    let mut bytes = [0xffu8; 32];
    bytes[31] = 0x11;
    let out = field_to_bytes(&[Scalar { bytes }, Scalar::one()]);
    assert_eq!(out.len(), 62);
    assert_eq!(&out[..31], &[0xffu8; 31]);
    assert_eq!(out[31], 1);
    assert_eq!(&out[32..], &[0u8; 30]);
}

#[test]
fn packing_then_unpacking_gives_the_bytes_back() {
    for len in [0usize, 1, 30, 31, 32, 61, 62, 63, 500] {
        let bytes: Vec<u8> = (0..len).map(|i| (i * 7 + 3) as u8).collect();
        let elems = bytes_to_field(&bytes);
        assert_eq!(elems.len(), (len + 30) / 31);
        let mut out = field_to_bytes(&elems);
        assert!(out.len() >= len);
        out.truncate(len);
        assert_eq!(out, bytes);
    }
}
