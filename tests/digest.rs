use quack::digest::hash_fn;
use quack::{AdditiveMsetHash, XorDigest};

fn elems(n: u32, salt: u32) -> Vec<Vec<u8>> {
    (0..n).map(|i| (i * 7919 + salt).to_be_bytes().to_vec()).collect()
}

#[test]
fn default_digests_are_equal() {
    let digest_a = AdditiveMsetHash::new();
    let digest_b = AdditiveMsetHash::new();
    assert!(digest_a.equals(&digest_b));
    assert!(digest_b.equals(&digest_a));
}

#[test]
fn mset_different_elements_produce_different_digests() {
    let set_a = elems(10, 1);
    let set_b = elems(10, 2);
    assert_ne!(set_a, set_b);
    let mut digest_a = AdditiveMsetHash::new();
    let mut digest_b = AdditiveMsetHash::new();
    digest_a.add_all(&set_a);
    digest_b.add_all(&set_b);
    assert!(!digest_a.equals(&digest_b));
}

#[test]
fn equality_works_with_different_nonces() {
    let set = elems(10, 3);
    let mut digest_a = AdditiveMsetHash::new_with_seed([1; 16]);
    let mut digest_b = AdditiveMsetHash::new_with_seed([2; 16]);
    digest_a.add_all(&set);
    digest_b.add_all(&set);
    assert_ne!(digest_a.value(), digest_b.value(), "hashes are different");
    assert!(digest_a.equals(&digest_b), "digests are equivalent");
}

#[test]
fn set_and_multiset_collision() {
    let set = elems(10, 4);
    let mut digest_a = AdditiveMsetHash::new();
    let mut digest_b = AdditiveMsetHash::new();
    digest_a.add_all(&set);
    digest_b.add_all(&set);
    digest_b.add(&set[0]);
    assert!(!digest_a.equals(&digest_b), "set with same elements does not equal multiset");
    digest_a.add(&set[0]);
    assert!(digest_a.equals(&digest_b));
}

#[test]
fn element_order_does_not_matter_random() {
    let set_a = elems(10, 5);
    let mut set_b = set_a.clone();
    set_b.reverse();
    set_b.swap(2, 7);
    assert_ne!(set_a, set_b);
    let mut digest_a = AdditiveMsetHash::new();
    let mut digest_b = AdditiveMsetHash::new_with_seed([9; 16]);
    digest_a.add_all(&set_a);
    digest_b.add_all(&set_b);
    assert!(digest_a.equals(&digest_b));
    assert_eq!(digest_a.count, 10);
}

#[test]
fn deterministic_hash_fn() {
    let v = b"151314873930905896330907615404940191038";
    assert_eq!(hash_fn(0, v), hash_fn(0, v));
    assert_eq!(hash_fn(1, v), hash_fn(1, v));
    assert_ne!(hash_fn(0, v), hash_fn(1, v));
}

#[test]
fn sha3_of_tagged_empty() {
    // SHA3-256 of the single byte 0x00
    let h = hash_fn(0, &[]);
    assert_eq!(h[0], 0x5d);
    assert_eq!(h[31], 0xd0);
}

#[test]
fn seeded_digests_are_byte_equal() {
    let mut a = AdditiveMsetHash::new_with_seed([5; 16]);
    let mut b = AdditiveMsetHash::new_with_seed([5; 16]);
    a.add(&[1, 2, 3]);
    a.add(&[4]);
    b.add(&[4]);
    b.add(&[1, 2, 3]);
    assert_eq!(a, b);
}

#[test]
fn xor_different_elements_produce_different_digests() {
    let set_a: Vec<u32> = (0..10).map(|i| i * 2654435761u32.wrapping_mul(i + 1)).collect();
    let set_b: Vec<u32> = (0..10).map(|i| i * 40503 + 11).collect();
    assert_ne!(set_a, set_b);
    let mut digest_a = XorDigest::new();
    let mut digest_b = XorDigest::new();
    digest_a.add_all(&set_a);
    digest_b.add_all(&set_b);
    assert_ne!(digest_a.value(), digest_b.value());
}

#[test]
fn element_order_does_not_matter() {
    let set_a: Vec<u32> = (0..10).map(|i| i * 40503 + 11).collect();
    let mut set_b = set_a.clone();
    set_b.reverse();
    assert_ne!(set_a, set_b);
    let mut digest_a = XorDigest::new();
    let mut digest_b = XorDigest::new();
    digest_a.add_all(&set_a);
    digest_b.add_all(&set_b);
    assert_eq!(digest_a.value(), digest_b.value());
}

#[test]
fn xor_values() {
    let mut d = XorDigest::new();
    assert_eq!(d.value(), 0);
    d.add(0b1100);
    d.add_all(&vec![0b1010, 0b0001]);
    assert_eq!(d.value(), 0b0111);
}
