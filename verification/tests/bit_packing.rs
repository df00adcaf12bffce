use vector_experiments::quantization::turboquant::bitpack::{
    pack, pack_into, pack_signs, pack_signs_into, packed_byte_size, unpack, unpack_into,
    unpack_signs_into,
};

fn roundtrip(indices: &[u8], bit_width: u8) {
    let packed = pack(indices, bit_width);
    assert_eq!(packed.len(), packed_byte_size(indices.len(), bit_width));
    let unpacked = unpack(&packed, indices.len(), bit_width);
    assert_eq!(
        unpacked, indices,
        "roundtrip failed at bit_width={bit_width}"
    );
}

#[test]
fn pack_b2_roundtrip() {
    let indices: Vec<u8> = (0..200).map(|i| (i as u8) & 0b11).collect();
    roundtrip(&indices, 2);
}

#[test]
fn pack_b3_roundtrip() {
    let indices: Vec<u8> = (0..768).map(|i| (i as u8) & 0b111).collect();
    roundtrip(&indices, 3);
}

#[test]
fn pack_b4_roundtrip() {
    let indices: Vec<u8> = (0..768).map(|i| (i as u8) & 0b1111).collect();
    roundtrip(&indices, 4);
}

#[test]
fn pack_b1_alternating() {
    let indices = vec![1u8, 0, 1, 0, 1, 0, 1, 0];
    let packed = pack(&indices, 1);
    assert_eq!(packed, vec![0b10101010]);
    assert_eq!(unpack(&packed, 8, 1), indices);
}

#[test]
fn pack_b8_passthrough() {
    let indices: Vec<u8> = (0..256).map(|i| i as u8).collect();
    let packed = pack(&indices, 8);
    assert_eq!(packed, indices);
    assert_eq!(unpack(&packed, 256, 8), indices);
}

#[test]
fn signs_roundtrip() {
    let signs: Vec<bool> = (0..768).map(|i| i % 3 == 0).collect();
    let packed = pack_signs(&signs);
    assert_eq!(packed.len(), 96);
    let mut out = vec![false; signs.len()];
    unpack_signs_into(&packed, signs.len(), &mut out);
    assert_eq!(out, signs);
}

#[test]
fn odd_widths_roundtrip() {
    for bits in [5u8, 6, 7] {
        let mask = (1u16 << bits) as u8 - 1;
        let indices: Vec<u8> = (0..101u32).map(|i| (i * 37 % 251) as u8 & mask).collect();
        roundtrip(&indices, bits);
    }
}

#[test]
fn three_bit_fields_cross_bytes() {
    assert_eq!(pack(&[0b101, 0b011, 0b110], 3), vec![0b1010_1111, 0b0000_0000]);
    assert_eq!(packed_byte_size(3, 3), 2);
    assert_eq!(packed_byte_size(0, 3), 0);
}

#[test]
fn packing_into_a_buffer_clears_it() {
    let mut out = vec![0xffu8; 3];
    pack_into(&[1, 2, 3], 4, &mut out);
    assert_eq!(out, vec![0x12, 0x30, 0xff]);
    let mut back = vec![9u8; 4];
    unpack_into(&out, 3, 4, &mut back);
    assert_eq!(back, vec![1, 2, 3, 9]);
}

#[test]
fn signs_fill_bytes_from_the_top() {
    let mut out = vec![0xffu8; 3];
    let signs = [true, false, false, false, false, false, false, true, true];
    pack_signs_into(&signs, &mut out);
    assert_eq!(out, vec![0x81, 0x80, 0xff]);
}

#[test]
fn equal_packings_hold_equal_indices() {
    let a: Vec<u8> = (0..40).map(|i| (i * 7) as u8 & 0x1f).collect();
    let b: Vec<u8> = (0..40).map(|i| (i * 11) as u8 & 0x1f).collect();
    assert_ne!(pack(&a, 5), pack(&b, 5));
    assert_eq!(unpack(&pack(&a, 5), 40, 5), a);
}
