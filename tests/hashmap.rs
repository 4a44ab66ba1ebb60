use freelist_alloc::hashmap::{hash, HashMap};

#[test]
fn test_hash() {
    let s: &str = "testing";
    let a: &str = "test";
    let h: &str = "g";
    let t: &str = "key";
    assert_eq!(hash(s), hash(s));
    assert_eq!(hash(a), hash(a));
    assert_eq!(hash(h), hash(h));
    assert_eq!(hash(t), hash(t));
}

#[test]
fn basic_set_read() {
    let mut map = HashMap::<&str, u8>::new();
    map.insert("test", 1);
    map.insert("g", 2);
    map.insert("key", 3);

    assert_eq!(map.get("test"), 1);
    assert_eq!(map.get("g"), 2);
    assert_eq!(map.get("key"), 3);
}

#[test]
fn hash_exact_values() {
    assert_eq!(hash(""), 0);
    assert_eq!(hash("a"), 1);
    assert_eq!(hash("g"), 7);
    // k = 11, e = 5, y = 25: 11 + 5 * 31 + 25 * 961
    assert_eq!(hash("key"), 24191);
    // t = 20, e = 5, s = 19, t = 20
    assert_eq!(hash("test"), 614254);
}

#[test]
fn hash_reduces_modulo() {
    // 26 * (1 + 31 + ... + 31^6) exceeds the modulus once the seventh power is reached.
    let mut expected: u64 = 0;
    let mut p: u64 = 1;
    for _ in 0..8 {
        expected = (expected + 26 * p) % 1000000009;
        p = (p * 31) % 1000000009;
    }
    assert_eq!(hash("zzzzzzzz") as u64, expected);
    assert!(hash("zzzzzzzz") < 1000000009);
}

#[test]
fn later_insert_overwrites_slot() {
    let mut map = HashMap::<&str, u32>::new();
    map.insert("g", 5);
    map.insert("g", 9);
    assert_eq!(map.get("g"), 9);
}
