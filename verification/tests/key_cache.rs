//! The cache of dict keys.

use isojson::key_cache::{is_cacheable, KeyCache};

#[test]
fn keys_are_found_with_their_objects() {
    let mut c = KeyCache::new();
    assert_eq!(c.get(b"id"), None);
    assert_eq!(c.put(b"id", 7), None);
    assert_eq!(c.get(b"id"), Some(7));
    assert_eq!(c.get(b"ie"), None);
    assert_eq!(c.get(b"id\0"), None);
    // a key takes its slot from itself too
    assert_eq!(c.put(b"id", 8), Some(7));
    assert_eq!(c.get(b"id"), Some(8));
}

#[test]
fn a_key_is_never_found_with_the_object_of_another() {
    let mut c = KeyCache::new();
    let keys: Vec<String> = (0..10_000).map(|i| format!("key number {i}")).collect();
    let mut evicted = 0;
    for (i, k) in keys.iter().enumerate() {
        if c.put(k.as_bytes(), i + 1).is_some() {
            evicted += 1;
        }
        assert_eq!(c.get(k.as_bytes()), Some(i + 1));
    }
    let mut found = 0;
    for (i, k) in keys.iter().enumerate() {
        match c.get(k.as_bytes()) {
            Some(o) => {
                assert_eq!(o, i + 1);
                found += 1;
            }
            None => {}
        }
    }
    assert!(found <= 2048);
    assert_eq!(found + evicted, keys.len());
    let released = c.clear();
    assert_eq!(released.len(), found);
    assert_eq!(c.clear(), Vec::<usize>::new());
    assert_eq!(c.get(keys[9_999].as_bytes()), None);
}

#[test]
fn short_ascii_keys_are_cached() {
    assert!(is_cacheable(b""));
    assert!(is_cacheable(&[b'k'; 64]));
    assert!(!is_cacheable(&[b'k'; 65]));
    assert!(!is_cacheable("é".as_bytes()));
}
