use a3s_vec::index::limits::{
    balanced_offsets, bitmap_count_to_usize, delta_compaction_limit, integer_sqrt_ceil,
    proportional_candidate_limit, validate_shape, MAX_DELTA_COMPACTION, MIN_DELTA_COMPACTION,
};
use a3s_vec::index::vamana::shuffled_ordinals;
use a3s_vec::ErrorCode;

#[test]
fn delta_compaction_limit_is_an_eighth_of_the_base_within_bounds() {
    assert_eq!(delta_compaction_limit(0), MIN_DELTA_COMPACTION);
    assert_eq!(delta_compaction_limit(1_000), 125);
    assert_eq!(delta_compaction_limit(1_001), 126);
    assert_eq!(delta_compaction_limit(1 << 20), MAX_DELTA_COMPACTION);
}

#[test]
fn bitmap_counts_saturate_to_usize() {
    assert_eq!(bitmap_count_to_usize(7), 7);
    assert_eq!(bitmap_count_to_usize(u64::MAX), usize::try_from(u64::MAX).unwrap_or(usize::MAX));
}

#[test]
fn proportional_limit_scales_up_and_caps_at_the_population() {
    assert_eq!(proportional_candidate_limit(10, 1_000, 100), 100);
    assert_eq!(proportional_candidate_limit(10, 1_000, 3), 1_000);
    assert_eq!(proportional_candidate_limit(1, 10, 3), 4);
    assert_eq!(proportional_candidate_limit(0, 10, 3), 0);
    assert_eq!(proportional_candidate_limit(5, 0, 3), 0);
    assert_eq!(proportional_candidate_limit(5, 10, 0), 0);
    assert_eq!(proportional_candidate_limit(usize::MAX, usize::MAX, usize::MAX), usize::MAX);
}

#[test]
fn integer_square_root_rounds_up() {
    assert_eq!(integer_sqrt_ceil(0), 1);
    assert_eq!(integer_sqrt_ceil(1), 1);
    assert_eq!(integer_sqrt_ceil(2), 2);
    assert_eq!(integer_sqrt_ceil(16), 4);
    assert_eq!(integer_sqrt_ceil(17), 5);
}

#[test]
fn product_quantization_shapes_and_offsets() {
    assert!(validate_shape(8, 4).is_ok());
    assert_eq!(validate_shape(0, 1).err().expect("dimension").code, ErrorCode::InvalidArgument);
    assert_eq!(validate_shape(4, 5).err().expect("chunks").code, ErrorCode::InvalidArgument);
    assert_eq!(balanced_offsets(10, 3), vec![0, 3, 6, 10]);
    assert_eq!(balanced_offsets(4, 0), vec![0]);
}

#[test]
fn shuffling_is_a_deterministic_permutation() {
    let values: Vec<u64> = (0..50).collect();
    let first = shuffled_ordinals(values.clone(), 7);
    let second = shuffled_ordinals(values.clone(), 7);
    assert_eq!(first, second);
    let mut sorted = first.clone();
    sorted.sort_unstable();
    assert_eq!(sorted, values);
    assert_ne!(first, values);
    assert_eq!(shuffled_ordinals(Vec::new(), 3), Vec::<u64>::new());
}
