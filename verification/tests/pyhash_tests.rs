use iroha_python::pyhash::{combine_hash, int_hash};

#[test]
fn int_hash_small_values_are_themselves() {
    assert_eq!(int_hash(0), 0);
    assert_eq!(int_hash(5), 5);
    assert_eq!(int_hash(-5), -5);
}

#[test]
fn int_hash_minus_one_is_minus_two() {
    assert_eq!(int_hash(-1), -2);
}

#[test]
fn int_hash_wraps_at_modulus() {
    let p: isize = 0x1fff_ffff_ffff_ffff;
    assert_eq!(int_hash(p), 0);
    assert_eq!(int_hash(p + 1), 1);
    assert_eq!(int_hash(-p), 0);
    // -(p + 1) reduces to -1, which Python reserves
    assert_eq!(int_hash(-(p + 1)), -2);
}

#[test]
fn int_hash_extremes() {
    assert_eq!(int_hash(isize::MAX), 3);
    assert_eq!(int_hash(isize::MIN), -4);
}

#[test]
fn int_hash_never_minus_one() {
    for n in [-1isize, -2, 0x1fff_ffff_ffff_ffff - 1, -0x2000_0000_0000_0000, isize::MIN, isize::MAX] {
        assert_ne!(int_hash(n), -1);
    }
}

#[test]
fn combine_hash_hashes_the_wrapping_sum() {
    assert_eq!(combine_hash(1, 2), 3);
    assert_eq!(combine_hash(0, -1), -2);
    // isize::MAX + 1 wraps to isize::MIN
    assert_eq!(combine_hash(isize::MAX, 1), -4);
}
