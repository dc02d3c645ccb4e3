use feistel_permutation::{DefaultBuildHasher, Feistel};

const KEYS: [u64; 5] = [0x1c10u64, 0x8fd6u64, 0x2d5au64, 0x7363u64, 0x5f70u64];

#[test]
fn test_1a() {
    let bob = DefaultBuildHasher::new();
    let bits = 32;
    let keys = KEYS;
    let f = Feistel::new(bob, bits, &keys);
    let x = 17;
    let y = f.encrypt(x);
    let z = f.decrypt(y);
    println!("x=0x{x:0x}, y=0x{y:0x}, z=0x{z:0x}");
    assert_eq!(x, z);
}

#[test]
fn test_1b() {
    let bob = DefaultBuildHasher::new();
    let bits = 32;
    let keys = KEYS;
    let f = Feistel::new(bob, bits, &keys);
    let x = 234;
    let y = f.encrypt(x);
    let z = f.decrypt(y);
    assert_eq!(x, z);
}

#[test]
fn feistel_test_2() {
    let bob = DefaultBuildHasher::new();
    let bits = 56;
    let keys = KEYS;
    let f = Feistel::new(bob, bits, &keys);
    let x = 17;
    let y = f.encrypt(x);
    let z = f.decrypt(y);
    assert_eq!(x, z);
}

#[test]
fn encrypt_stays_in_block_and_inverts_on_many_values() {
    let f = Feistel::new(DefaultBuildHasher::new(), 16, &KEYS);
    for x in 0..(1u64 << 16) {
        let y = f.encrypt(x);
        assert!(y < (1u64 << 16));
        assert_eq!(f.decrypt(y), x);
        let w = f.decrypt(x);
        assert!(w < (1u64 << 16));
        assert_eq!(f.encrypt(w), x);
    }
}

#[test]
fn encrypt_is_a_bijection_on_a_small_block() {
    let f = Feistel::new(DefaultBuildHasher::new(), 8, &KEYS);
    let mut seen = vec![false; 256];
    for x in 0..256u64 {
        let y = f.encrypt(x) as usize;
        assert!(!seen[y]);
        seen[y] = true;
    }
}

#[test]
fn encrypt_is_not_the_identity() {
    let f = Feistel::new(DefaultBuildHasher::new(), 32, &KEYS);
    let moved = (0..64u64).filter(|&x| f.encrypt(x) != x).count();
    assert!(moved > 0);
}

#[test]
fn full_width_block_inverts() {
    let f = Feistel::new(DefaultBuildHasher::new(), 64, &KEYS);
    for &x in &[0u64, 1, 17, u64::MAX, u64::MAX - 1, 1 << 63] {
        assert_eq!(f.decrypt(f.encrypt(x)), x);
        assert_eq!(f.encrypt(f.decrypt(x)), x);
    }
}

#[test]
fn zero_width_block_is_fixed() {
    let f = Feistel::new(DefaultBuildHasher::new(), 0, &KEYS);
    assert_eq!(f.encrypt(0), 0);
    assert_eq!(f.decrypt(0), 0);
}

#[test]
fn no_keys_only_swaps_the_halves() {
    let f = Feistel::new(DefaultBuildHasher::new(), 16, &[]);
    assert_eq!(f.encrypt(0x12ab), 0xab12);
    assert_eq!(f.decrypt(0xab12), 0x12ab);
}

#[test]
fn key_order_matters() {
    let mut reversed = KEYS;
    reversed.reverse();
    let f = Feistel::new(DefaultBuildHasher::new(), 32, &KEYS);
    let g = Feistel::new(DefaultBuildHasher::new(), 32, &reversed);
    let differ = (0..64u64).filter(|&x| f.encrypt(x) != g.encrypt(x)).count();
    assert!(differ > 0);
    for x in 0..64u64 {
        assert_eq!(g.decrypt(x), f.encrypt(x));
    }
}
