use a3s_vec::version;

#[test]
fn public_version_is_nonempty() {
    assert!(!version().is_empty());
}

#[test]
fn version_is_the_release() {
    assert_eq!(version(), "0.1.8");
}
