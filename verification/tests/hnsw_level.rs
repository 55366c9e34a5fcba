use a3s_vec::index::hnsw::level_seed;

#[test]
fn level_seeds_mix_the_ordinal_deterministically() {
    assert_eq!(level_seed(0), 0xe220_a839_7b1d_cdaf);
    assert_eq!(level_seed(41), 0x134f_7096_9181_75ce);
    assert_eq!(level_seed(41), level_seed(41));
    assert_ne!(level_seed(1), level_seed(2));
}
