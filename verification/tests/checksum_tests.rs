use archbench::checksum::super_fast_hash;

#[test]
fn empty_buffer_folds_to_zero() {
    assert_eq!(super_fast_hash(&vec![]), 0);
}

#[test]
fn single_byte_folds_to_itself() {
    assert_eq!(super_fast_hash(&vec![0xab]), 0xab);
}

#[test]
fn known_fold_values() {
    assert_eq!(super_fast_hash(&vec![0x12, 0x34]), 0x26);
    assert_eq!(super_fast_hash(&vec![1, 2, 3]), 0);
    assert_eq!(super_fast_hash(&vec![0xff, 0x0f]), 0xf0);
}

#[test]
fn fold_ignores_byte_order() {
    // The checksum cannot tell reordered content apart.
    let ab = super_fast_hash(&vec![b'a', b'b']);
    let ba = super_fast_hash(&vec![b'b', b'a']);
    assert_eq!(ab, ba);
}

#[test]
fn adversarial_collision_same_fold_different_content() {
    // An even number of identical byte flips cancels out: these buffers
    // differ in two positions yet fold to the same byte, so the checksum is
    // only a cheap sanity check, never a proof of equality.
    let intact = vec![7, 7, 9, 42];
    let corrupted = vec![1, 1, 9, 42];
    assert_ne!(intact, corrupted);
    assert_eq!(super_fast_hash(&intact), super_fast_hash(&corrupted));
}

#[test]
fn swapped_halves_collide() {
    let one = vec![10, 20, 30, 40];
    let two = vec![30, 40, 10, 20];
    assert_ne!(one, two);
    assert_eq!(super_fast_hash(&one), super_fast_hash(&two));
}
