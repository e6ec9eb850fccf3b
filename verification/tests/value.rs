use onehop_hashmap::Value;

#[test]
fn sizes_of_the_integers() {
    assert_eq!(<u8 as Value>::byte_size(), 1);
    assert_eq!(<u16 as Value>::byte_size(), 2);
    assert_eq!(<u32 as Value>::byte_size(), 4);
    assert_eq!(<u64 as Value>::byte_size(), 8);
}

#[test]
fn integers_are_stored_least_significant_byte_first() {
    let mut one = [0u8; 1];
    0xabu8.store(&mut one);
    assert_eq!(one, [0xab]);
    let mut two = [0u8; 2];
    0x1234u16.store(&mut two);
    assert_eq!(two, [0x34, 0x12]);
    let mut four = [0u8; 4];
    0x1234_5678u32.store(&mut four);
    assert_eq!(four, [0x78, 0x56, 0x34, 0x12]);
    let mut eight = [0u8; 8];
    0x0102_0304_0506_0708u64.store(&mut eight);
    assert_eq!(eight, [8, 7, 6, 5, 4, 3, 2, 1]);
}

#[test]
fn integers_are_loaded_from_their_bytes() {
    assert_eq!(u8::load(&[0xab]), 0xab);
    assert_eq!(u16::load(&[0x34, 0x12]), 0x1234);
    assert_eq!(u32::load(&[0x78, 0x56, 0x34, 0x12]), 0x1234_5678);
    assert_eq!(u64::load(&[8, 7, 6, 5, 4, 3, 2, 1]), 0x0102_0304_0506_0708);
}

#[test]
fn stored_integers_load_as_themselves() {
    for x in [0u32, 1, 255, 256, 65_535, 65_536, 0x00ff_ffff, 0x0100_0000, u32::MAX] {
        let mut bytes = [0u8; 4];
        x.store(&mut bytes);
        assert_eq!(bytes, x.to_le_bytes());
        assert_eq!(u32::load(&bytes), x);
    }
    for x in [0u64, 1, u32::MAX as u64, u32::MAX as u64 + 1, u64::MAX, 0x8000_0000_0000_0000] {
        let mut bytes = [0u8; 8];
        x.store(&mut bytes);
        assert_eq!(bytes, x.to_le_bytes());
        assert_eq!(u64::load(&bytes), x);
    }
    for x in [0u16, 1, 255, 256, u16::MAX] {
        let mut bytes = [0u8; 2];
        x.store(&mut bytes);
        assert_eq!(bytes, x.to_le_bytes());
        assert_eq!(u16::load(&bytes), x);
    }
}
