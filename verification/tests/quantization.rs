use a3s_vec::index::quantization::{
    fp16_from_f32_bits, nibble_value, pack_nibbles, unpack_nibbles, QuantizedVector,
};

#[test]
fn nibble_patterns_read_as_signed_codes() {
    assert_eq!(nibble_value(0), 0);
    assert_eq!(nibble_value(7), 7);
    assert_eq!(nibble_value(8), -8);
    assert_eq!(nibble_value(15), -1);
}

#[test]
fn packing_puts_even_codes_in_the_low_nibble() {
    assert_eq!(pack_nibbles(&[1, -1]), vec![0xf1]);
    assert_eq!(pack_nibbles(&[-8, 7, 3]), vec![0x78, 0x03]);
    assert!(pack_nibbles(&[]).is_empty());
}

#[test]
fn unpacking_packed_codes_gives_them_back() {
    let codes: Vec<i8> = vec![-8, -3, 0, 1, 7, -1, 5];
    let packed = pack_nibbles(&codes);
    assert_eq!(packed.len(), 4);
    assert_eq!(unpack_nibbles(&packed, codes.len()), codes);
}

#[test]
fn unpacking_stops_at_the_dimension_or_the_bytes() {
    assert_eq!(unpack_nibbles(&[0x21, 0x43], 3), vec![1, 2, 3]);
    assert_eq!(unpack_nibbles(&[0x21], 5), vec![1, 2]);
    assert!(unpack_nibbles(&[0x21], 0).is_empty());
}

#[test]
fn encoded_bytes_counts_payload_and_scale() {
    assert_eq!(QuantizedVector::F32(vec![0; 3]).encoded_bytes(), 12);
    assert_eq!(QuantizedVector::Fp16(vec![0; 3]).encoded_bytes(), 6);
    let int8 = QuantizedVector::Int8 { codes: vec![1, 2, 3], scale_bits: 0x3f80_0000 };
    assert_eq!(int8.encoded_bytes(), 7);
    let int4 = QuantizedVector::Int4 { nibbles: vec![0x21, 0x03], scale_bits: 0x3f80_0000, dimension: 3 };
    assert_eq!(int4.encoded_bytes(), 6);
}

#[test]
fn validation_checks_dimension_and_finiteness() {
    let one = 1.0_f32.to_bits();
    assert!(QuantizedVector::F32(vec![one, 0]).validates(2));
    assert!(!QuantizedVector::F32(vec![one, 0]).validates(3));
    assert!(!QuantizedVector::F32(vec![one, f32::NAN.to_bits()]).validates(2));
    assert!(!QuantizedVector::F32(vec![f32::NEG_INFINITY.to_bits()]).validates(1));
    assert!(QuantizedVector::Fp16(vec![0x3c00, 0xfbff]).validates(2));
    assert!(!QuantizedVector::Fp16(vec![0x7c00]).validates(1));
    assert!(!QuantizedVector::Fp16(vec![0xfe00]).validates(1));
}

#[test]
fn validation_requires_a_finite_scale_not_below_zero() {
    let ok = QuantizedVector::Int8 { codes: vec![1, 2], scale_bits: 0.5_f32.to_bits() };
    assert!(ok.validates(2));
    let negative_zero = QuantizedVector::Int8 { codes: vec![1, 2], scale_bits: (-0.0_f32).to_bits() };
    assert!(negative_zero.validates(2));
    let negative = QuantizedVector::Int8 { codes: vec![1, 2], scale_bits: (-0.5_f32).to_bits() };
    assert!(!negative.validates(2));
    let infinite = QuantizedVector::Int8 { codes: vec![1], scale_bits: f32::INFINITY.to_bits() };
    assert!(!infinite.validates(1));
}

#[test]
fn int4_validation_checks_packed_length_and_dimension() {
    let scale_bits = 1.0_f32.to_bits();
    let three = QuantizedVector::Int4 { nibbles: vec![0, 0], scale_bits, dimension: 3 };
    assert!(three.validates(3));
    assert!(!three.validates(4));
    let short = QuantizedVector::Int4 { nibbles: vec![0], scale_bits, dimension: 3 };
    assert!(!short.validates(3));
    let nan_scale = QuantizedVector::Int4 { nibbles: vec![0, 0], scale_bits: f32::NAN.to_bits(), dimension: 3 };
    assert!(!nan_scale.validates(3));
}

#[test]
fn half_precision_patterns_round_to_nearest_even() {
    assert_eq!(fp16_from_f32_bits(1.0_f32.to_bits()), 0x3c00);
    assert_eq!(fp16_from_f32_bits((-2.0_f32).to_bits()), 0xc000);
    assert_eq!(fp16_from_f32_bits(65504.0_f32.to_bits()), 0x7bff);
    assert_eq!(fp16_from_f32_bits(0.0_f32.to_bits()), 0x0000);
    assert_eq!(fp16_from_f32_bits((-0.0_f32).to_bits()), 0x8000);
    assert_eq!(fp16_from_f32_bits(2.0_f32.powi(-24).to_bits()), 0x0001);
    assert_eq!(fp16_from_f32_bits(2.0_f32.powi(-26).to_bits()), 0x0000);
    assert_eq!(fp16_from_f32_bits((1.0_f32 / 3.0).to_bits()), 0x3555);
    assert_eq!(fp16_from_f32_bits(1.000_976_6_f32.to_bits()), 0x3c01);
    assert_eq!(fp16_from_f32_bits(1.000_488_3_f32.to_bits()), 0x3c00);
}
