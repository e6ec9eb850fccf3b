use onehop_hashmap::murmurhash2::murmurhash2;

#[test]
fn test_murmur_against_reference_impl() {
    const BYTES: &'static [u8] = b"abcdefghijklmnop";
    assert_eq!(murmurhash2(&BYTES[..0]), 3632506080);
    assert_eq!(murmurhash2(&BYTES[..1]), 455683869);
    assert_eq!(murmurhash2(&BYTES[..2]), 2448092234);
    assert_eq!(murmurhash2(&BYTES[..3]), 2066295634);
    assert_eq!(murmurhash2(&BYTES[..4]), 2588571162);
    assert_eq!(murmurhash2(&BYTES[..5]), 2988696942);
    assert_eq!(murmurhash2(BYTES), 2350868870);
}

#[test]
fn hash_is_a_function_of_the_bytes() {
    let a = b"the same bytes".to_vec();
    let b = b"the same bytes".to_vec();
    assert_eq!(murmurhash2(&a), murmurhash2(&b));
    assert_eq!(murmurhash2(&a), murmurhash2(&a));
    for len in 0..=16 {
        let bytes = &b"abcdefghijklmnop"[..len];
        assert_eq!(murmurhash2(bytes), murmurhash2(&bytes.to_vec()));
    }
}

#[test]
fn hash_tells_prefixes_apart() {
    let bytes = b"abcdefghijklmnop";
    let mut seen: Vec<u32> = Vec::new();
    for len in 0..=16 {
        let h = murmurhash2(&bytes[..len]);
        assert!(!seen.contains(&h));
        seen.push(h);
    }
}
