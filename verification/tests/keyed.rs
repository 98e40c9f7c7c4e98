use bitter_dotcom_generator::keyed::{hash_bytes, KeyedMap};

#[test]
fn hashes_byte_by_byte() {
    assert_eq!(hash_bytes(b""), 0xcbf2_9ce4_8422_2325);
    let once = (0xcbf2_9ce4_8422_2325u64 ^ 97).wrapping_mul(0x1000_0000_01b3);
    assert_eq!(hash_bytes(b"a"), once);
    assert_eq!(hash_bytes(b"ab"), (once ^ 98).wrapping_mul(0x1000_0000_01b3));
}

#[test]
fn behaves_like_a_map() {
    let mut m: KeyedMap<usize> = KeyedMap::new();
    assert!(m.is_empty());
    for i in 0..1000usize {
        m.insert(format!("key{}", i % 400).into_bytes(), i);
    }
    assert!(!m.is_empty());
    for i in 0..400usize {
        let last = if i + 800 < 1000 { i + 800 } else { i + 400 };
        assert_eq!(m.get(format!("key{i}").as_bytes()), Some(&last));
    }
    assert_eq!(m.get(b"key400"), None);
    assert!(!m.contains(b""));
    m.insert(Vec::new(), 7);
    assert_eq!(m.get(b""), Some(&7));
}
