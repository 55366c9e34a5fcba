use a3s_vec::index::rabitq::{pack_values, packed_bytes, unpack_value, validate_options};
use a3s_vec::index::rotation::{checked_next_power_of_two, splitmix64, RabitqRotation, ROTATION_SEED};
use a3s_vec::types::MetricType;
use a3s_vec::ErrorCode;

#[test]
fn compact_codes_round_trip_every_supported_bit_width() {
    for total_bits in 1..=9 {
        let mask = (1_u16 << total_bits) - 1;
        let values: Vec<u16> = (0_u16..37).map(|value| value.wrapping_mul(29) & mask).collect();
        let packed = pack_values(&values, total_bits);
        assert_eq!(packed.len(), packed_bytes(values.len(), total_bits));
        assert_eq!(
            values,
            (0..values.len())
                .map(|index| unpack_value(&packed, index, total_bits))
                .collect::<Vec<_>>()
        );
    }
}

#[test]
fn packed_length_rounds_bits_up_to_bytes() {
    assert_eq!(packed_bytes(0, 7), 0);
    assert_eq!(packed_bytes(1, 1), 1);
    assert_eq!(packed_bytes(8, 1), 1);
    assert_eq!(packed_bytes(9, 1), 2);
    assert_eq!(packed_bytes(3, 9), 4);
    assert_eq!(pack_values(&[0b101], 3), vec![0b101]);
    assert_eq!(pack_values(&[1, 1], 4), vec![0x11]);
}

#[test]
fn splitmix_matches_the_reference_stream() {
    assert_eq!(splitmix64(0), 0xe220_a839_7b1d_cdaf);
    assert_ne!(splitmix64(1), splitmix64(2));
}

#[test]
fn rotation_pads_to_a_power_of_two() {
    assert_eq!(checked_next_power_of_two(0), Some(1));
    assert_eq!(checked_next_power_of_two(5), Some(8));
    assert_eq!(checked_next_power_of_two(8), Some(8));
    assert_eq!(checked_next_power_of_two(usize::MAX), None);
    let rotation = RabitqRotation::new(100).expect("rotation");
    assert_eq!(rotation.dimension(), 100);
    assert_eq!(rotation.padded_dimension(), 128);
    assert_eq!(rotation.seed(), ROTATION_SEED ^ 100);
    assert!(rotation.validates(100));
    assert!(!rotation.validates(99));
    assert_eq!(RabitqRotation::new(0).err().expect("zero").code, ErrorCode::InvalidArgument);
    assert_eq!(RabitqRotation::estimated_payload_bytes(), std::mem::size_of::<RabitqRotation>());
}

#[test]
fn option_validation_reports_each_rejection() {
    assert!(validate_options(8, 4, 2, MetricType::L2).is_ok());
    assert!(validate_options(8, 9, 2, MetricType::Cosine).is_ok());
    assert_eq!(validate_options(0, 4, 2, MetricType::L2).err().expect("dimension").code, ErrorCode::InvalidArgument);
    assert_eq!(validate_options(8, 10, 2, MetricType::L2).err().expect("bits").code, ErrorCode::InvalidArgument);
    assert_eq!(validate_options(8, 4, 0, MetricType::Ip).err().expect("clusters").code, ErrorCode::InvalidArgument);
    assert_eq!(validate_options(8, 4, 2, MetricType::MipsL2).err().expect("metric").code, ErrorCode::NotSupported);
}

#[test]
fn packed_length_saturates_for_huge_inputs() {
    assert_eq!(packed_bytes(usize::MAX, 9), usize::MAX / 8);
}
