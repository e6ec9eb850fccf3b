use onehop_hashmap::hashmap::eq_slice;
use onehop_hashmap::{Addr, Entry, HashMap};

#[test]
fn test_insert_one() {
    let mut hash_map: HashMap<u32> = HashMap::new();
    assert_eq!(hash_map.get(b"coucou"), None);
    hash_map.update(b"coucou", |val| *val += 1, || 1);
    assert_eq!(hash_map.len(), 1);
    assert_eq!(hash_map.get(b"coucou"), Some(2));
}

#[test]
fn test_insert_same_el_twice() {
    let mut hash_map: HashMap<u32> = HashMap::new();
    assert_eq!(hash_map.get(b"coucou"), None);
    hash_map.update(b"coucou", |val| *val += 1, || 1);
    assert_eq!(hash_map.len(), 1);
    hash_map.update(b"coucou", |val| *val += 1, || 1);
    assert_eq!(hash_map.len(), 1);
    assert_eq!(hash_map.get(b"coucou"), Some(3));
}

#[test]
fn test_insert_several_keys() {
    let mut hash_map: HashMap<u32> = HashMap::new();
    assert_eq!(hash_map.get(b"coucou"), None);
    hash_map.update(b"coucou", |val| *val += 1, || 1);
    assert_eq!(hash_map.get(b"coucou2"), None);
    hash_map.update(b"coucou2", |val| *val += 1, || 1);
    hash_map.update(b"coucou3", |val| *val += 1, || 1);
    hash_map.update(b"coucou4", |val| *val += 1, || 1);
    assert_eq!(hash_map.get(b"coucou"), Some(2));
    assert_eq!(hash_map.get(b"coucou2"), Some(2));
    assert_eq!(hash_map.get(b"coucou3"), Some(2));
    assert_eq!(hash_map.get(b"coucou4"), Some(2));
    assert_eq!(hash_map.get(b"coucou5"), None);
}

#[test]
fn test_insert_thousand() {
    let mut hash_map: HashMap<u32> = HashMap::new();
    for i in 0..800 {
        let key = format!("key{}", i);
        let key_bytes = key.as_bytes();
        assert_eq!(hash_map.get(key_bytes), None);
        hash_map.update(key_bytes, |value| *value += 1, || 1);
    }
    for i in 0..800 {
        let key = format!("key{}", i);
        let key_bytes = key.as_bytes();
        assert_eq!(hash_map.get(key_bytes), Some(2));
        hash_map.update(key_bytes, |value| *value += 1, || 0);
    }
    for i in 0..800 {
        let key = format!("key{}", i);
        let key_bytes = key.as_bytes();
        assert_eq!(hash_map.get(key_bytes), Some(3));
    }
}

#[test]
fn new_table_is_empty() {
    let hash_map: HashMap<u32> = HashMap::new();
    assert_eq!(hash_map.len(), 0);
    assert_eq!(hash_map.capacity(), 1_048_576);
    assert_eq!(hash_map.get(b""), None);
    assert_eq!(hash_map.get(b"anything"), None);
    let small: HashMap<u64> = HashMap::with_capacity(4);
    assert_eq!(small.len(), 0);
    assert_eq!(small.capacity(), 4);
    assert_eq!(small.get(b"anything"), None);
}

#[test]
fn counter_from_zero() {
    let mut hash_map: HashMap<u32> = HashMap::new();
    assert_eq!(hash_map.get(b"coucou"), None);
    hash_map.update(b"coucou", |val| *val += 1, || 0);
    assert_eq!(hash_map.get(b"coucou"), Some(1));
    hash_map.update(b"coucou", |val| *val += 1, || 0);
    assert_eq!(hash_map.get(b"coucou"), Some(2));
    assert_eq!(hash_map.len(), 1);
}

#[test]
fn default_is_changed_before_it_is_stored() {
    let mut hash_map: HashMap<u32> = HashMap::with_capacity(4);
    hash_map.update(b"a", |val| *val *= 3, || 7);
    assert_eq!(hash_map.get(b"a"), Some(21));
    hash_map.update(b"a", |val| *val *= 3, || 1000);
    assert_eq!(hash_map.get(b"a"), Some(63));
    hash_map.update(b"b", |val| *val = 5, || 9);
    assert_eq!(hash_map.get(b"b"), Some(5));
    hash_map.update(b"c", |_| (), || 9);
    assert_eq!(hash_map.get(b"c"), Some(9));
    assert_eq!(hash_map.len(), 3);
}

#[test]
fn counter_through_the_entry() {
    let mut hash_map: HashMap<u32> = HashMap::with_capacity(16);
    for expected in 1..=2u32 {
        let entry = hash_map.entry(b"coucou");
        let mut handler = entry.or_insert(&mut hash_map, 0);
        handler.set(handler.get() + 1);
        handler.commit(&mut hash_map);
        assert_eq!(hash_map.get(b"coucou"), Some(expected));
    }
    assert_eq!(hash_map.len(), 1);
}

#[test]
fn eight_hundred_keys_counted_twice() {
    let mut hash_map: HashMap<u32> = HashMap::with_capacity(1);
    for round in 1..=2u32 {
        for i in 0..800 {
            let key = format!("key{}", i);
            assert!(hash_map.has_room_for(key.as_bytes()));
            hash_map.update(key.as_bytes(), |value| *value += 1, || 0);
        }
        assert_eq!(hash_map.len(), 800);
        for i in 0..800 {
            let key = format!("key{}", i);
            assert_eq!(hash_map.get(key.as_bytes()), Some(round));
        }
    }
    assert_eq!(hash_map.get(b"key800"), None);
}

#[test]
fn eight_hundred_keys_through_the_entry() {
    let mut hash_map: HashMap<u32> = HashMap::with_capacity(1);
    for round in 1..=2u32 {
        for i in 0..800 {
            let key = format!("key{}", i);
            let entry = hash_map.entry(key.as_bytes());
            let mut handler = entry.or_insert(&mut hash_map, 0);
            handler.set(handler.get() + 1);
            handler.commit(&mut hash_map);
        }
        assert_eq!(hash_map.len(), 800);
        for i in 0..800 {
            let key = format!("key{}", i);
            assert_eq!(hash_map.get(key.as_bytes()), Some(round));
        }
    }
}

#[test]
fn update_is_entry_or_insert_change_commit() {
    let mut by_update: HashMap<u32> = HashMap::with_capacity(2);
    let mut by_entry: HashMap<u32> = HashMap::with_capacity(2);
    let keys: [&[u8]; 6] = [b"a", b"b", b"a", b"c", b"a", b"b"];
    for key in keys {
        by_update.update(key, |value| *value = *value * 3 + 1, || 7);
        let entry = by_entry.entry(key);
        let mut handler = entry.or_insert(&mut by_entry, 7);
        handler.set(handler.get() * 3 + 1);
        handler.commit(&mut by_entry);
        for probe in [&b"a"[..], b"b", b"c", b"d"] {
            assert_eq!(by_update.get(probe), by_entry.get(probe));
        }
        assert_eq!(by_update.len(), by_entry.len());
        assert_eq!(by_update.capacity(), by_entry.capacity());
    }
    assert_eq!(by_update.get(b"a"), Some(202));
    assert_eq!(by_update.get(b"b"), Some(67));
    assert_eq!(by_update.get(b"c"), Some(22));
    assert_eq!(by_update.get(b"d"), None);
}

#[test]
fn update_of_one_key_leaves_the_others() {
    let mut hash_map: HashMap<u64> = HashMap::with_capacity(2);
    for i in 0..50u64 {
        let key = format!("k{}", i);
        hash_map.update(key.as_bytes(), |_| (), || i * 1000);
    }
    assert_eq!(hash_map.len(), 50);
    hash_map.update(b"k7", |value| *value = 1, || 0);
    hash_map.update(b"k21", |value| *value += 5, || 0);
    for i in 0..50u64 {
        let key = format!("k{}", i);
        let expected = match i {
            7 => 1,
            21 => 21_005,
            _ => i * 1000,
        };
        assert_eq!(hash_map.get(key.as_bytes()), Some(expected));
    }
    assert_eq!(hash_map.len(), 50);
}

#[test]
fn index_grows_before_it_is_a_quarter_full() {
    let mut hash_map: HashMap<u32> = HashMap::with_capacity(1);
    assert_eq!(hash_map.capacity(), 1);
    hash_map.update(b"a", |_| (), || 1);
    assert_eq!(hash_map.capacity(), 1);
    hash_map.update(b"b", |_| (), || 2);
    assert_eq!(hash_map.capacity(), 2);
    hash_map.update(b"c", |_| (), || 3);
    assert_eq!(hash_map.capacity(), 4);
    hash_map.update(b"d", |_| (), || 4);
    assert_eq!(hash_map.capacity(), 4);
    hash_map.update(b"e", |_| (), || 5);
    assert_eq!(hash_map.capacity(), 8);
    assert_eq!(hash_map.len(), 5);
    // An update of a key that is there grows the index all the same when it is full.
    for _ in 0..3 {
        hash_map.update(b"a", |value| *value += 10, || 0);
    }
    assert_eq!(hash_map.capacity(), 8);
    assert_eq!(hash_map.get(b"a"), Some(31));
    assert_eq!(hash_map.get(b"e"), Some(5));
}

#[test]
fn ensure_capacity_doubles_a_full_index() {
    let mut hash_map: HashMap<u32> = HashMap::with_capacity(2);
    hash_map.ensure_capacity();
    assert_eq!(hash_map.capacity(), 2);
    hash_map.update(b"a", |_| (), || 1);
    hash_map.update(b"b", |_| (), || 2);
    assert_eq!(hash_map.capacity(), 2);
    hash_map.ensure_capacity();
    assert_eq!(hash_map.capacity(), 4);
    hash_map.ensure_capacity();
    assert_eq!(hash_map.capacity(), 4);
    assert_eq!(hash_map.get(b"a"), Some(1));
    assert_eq!(hash_map.get(b"b"), Some(2));
}

fn addr_of(hash_map: &mut HashMap<u32>, key: &[u8]) -> Addr {
    match hash_map.entry(key) {
        Entry::Present(handler) => handler.addr(),
        Entry::Absent(_) => panic!("the key is not in the table"),
    }
}

#[test]
fn growth_keeps_values_and_addresses() {
    let mut hash_map: HashMap<u32> = HashMap::with_capacity(4);
    let keys: Vec<String> = (0..4).map(|i| format!("before{}", i)).collect();
    for (i, key) in keys.iter().enumerate() {
        hash_map.update(key.as_bytes(), |_| (), || 100 + i as u32);
    }
    assert_eq!(hash_map.capacity(), 4);
    let before: Vec<Addr> = keys.iter().map(|k| addr_of(&mut hash_map, k.as_bytes())).collect();
    // Entries follow each other in the arena: a byte of length, the key, four bytes of value.
    assert_eq!(before, vec![Addr(1), Addr(13), Addr(25), Addr(37)]);

    hash_map.ensure_capacity();
    assert_eq!(hash_map.capacity(), 8);
    assert_eq!(hash_map.len(), 4);
    for (i, key) in keys.iter().enumerate() {
        assert_eq!(hash_map.get(key.as_bytes()), Some(100 + i as u32));
        assert_eq!(addr_of(&mut hash_map, key.as_bytes()), before[i]);
    }

    for i in 0..200 {
        let key = format!("after{}", i);
        hash_map.update(key.as_bytes(), |_| (), || i);
    }
    assert!(hash_map.capacity() >= 204);
    for (i, key) in keys.iter().enumerate() {
        assert_eq!(hash_map.get(key.as_bytes()), Some(100 + i as u32));
        assert_eq!(addr_of(&mut hash_map, key.as_bytes()), before[i]);
    }
}

#[test]
fn entry_tells_present_from_absent() {
    let mut hash_map: HashMap<u32> = HashMap::with_capacity(4);
    match hash_map.entry(b"one") {
        Entry::Present(_) => panic!("the table is empty"),
        Entry::Absent(insertion) => {
            let handler = insertion.insert(&mut hash_map, 11);
            assert_eq!(handler.get(), 11);
            assert_eq!(handler.addr(), Addr(1));
        }
    }
    assert_eq!(hash_map.len(), 1);
    assert_eq!(hash_map.get(b"one"), Some(11));
    match hash_map.entry(b"one") {
        Entry::Present(mut handler) => {
            assert_eq!(handler.get(), 11);
            assert_eq!(handler.addr(), Addr(1));
            handler.set(12);
            assert_eq!(handler.get(), 12);
            // Nothing is written before the handle is committed.
            assert_eq!(hash_map.get(b"one"), Some(11));
            handler.commit(&mut hash_map);
        }
        Entry::Absent(_) => panic!("the key was put in"),
    }
    assert_eq!(hash_map.get(b"one"), Some(12));
    assert_eq!(hash_map.len(), 1);
}

#[test]
fn last_committed_handle_wins() {
    let mut hash_map: HashMap<u32> = HashMap::with_capacity(4);
    hash_map.update(b"shared", |_| (), || 1);
    let mut first = match hash_map.entry(b"shared") {
        Entry::Present(handler) => handler,
        Entry::Absent(_) => panic!("the key was put in"),
    };
    let mut second = match hash_map.entry(b"shared") {
        Entry::Present(handler) => handler,
        Entry::Absent(_) => panic!("the key was put in"),
    };
    first.set(first.get() + 10);
    second.set(second.get() + 100);
    first.commit(&mut hash_map);
    assert_eq!(hash_map.get(b"shared"), Some(11));
    second.commit(&mut hash_map);
    assert_eq!(hash_map.get(b"shared"), Some(101));
}

#[test]
fn handle_outlives_growth() {
    let mut hash_map: HashMap<u32> = HashMap::with_capacity(1);
    hash_map.update(b"early", |_| (), || 1);
    let mut handler = match hash_map.entry(b"early") {
        Entry::Present(handler) => handler,
        Entry::Absent(_) => panic!("the key was put in"),
    };
    for i in 0..100 {
        let key = format!("later{}", i);
        hash_map.update(key.as_bytes(), |_| (), || i);
    }
    handler.set(77);
    handler.commit(&mut hash_map);
    assert_eq!(hash_map.get(b"early"), Some(77));
    assert_eq!(hash_map.get(b"later42"), Some(42));
    assert_eq!(hash_map.len(), 101);
}

#[test]
fn or_insert_keeps_the_value_that_is_there() {
    let mut hash_map: HashMap<u32> = HashMap::with_capacity(4);
    let entry = hash_map.entry(b"key");
    let handler = entry.or_insert(&mut hash_map, 5);
    assert_eq!(handler.get(), 5);
    assert_eq!(hash_map.get(b"key"), Some(5));
    let entry = hash_map.entry(b"key");
    let handler = entry.or_insert(&mut hash_map, 9);
    assert_eq!(handler.get(), 5);
    assert_eq!(hash_map.get(b"key"), Some(5));
    assert_eq!(hash_map.len(), 1);
}

#[test]
fn keys_that_share_a_prefix_or_are_empty() {
    let mut hash_map: HashMap<u32> = HashMap::with_capacity(4);
    hash_map.update(b"", |_| (), || 1);
    hash_map.update(b"a", |_| (), || 2);
    hash_map.update(b"aa", |_| (), || 3);
    hash_map.update(b"aaa", |_| (), || 4);
    hash_map.update(b"\0", |_| (), || 5);
    assert_eq!(hash_map.len(), 5);
    assert_eq!(hash_map.get(b""), Some(1));
    assert_eq!(hash_map.get(b"a"), Some(2));
    assert_eq!(hash_map.get(b"aa"), Some(3));
    assert_eq!(hash_map.get(b"aaa"), Some(4));
    assert_eq!(hash_map.get(b"\0"), Some(5));
    assert_eq!(hash_map.get(b"aaaa"), None);
    assert_eq!(hash_map.get(b"\0\0"), None);
}

#[test]
fn long_keys_get_two_bytes_of_length() {
    let mut hash_map: HashMap<u32> = HashMap::with_capacity(4);
    let long = vec![b'x'; 1000];
    let longer = vec![b'x'; 1001];
    hash_map.update(&long, |_| (), || 1);
    hash_map.update(&longer, |_| (), || 2);
    assert_eq!(addr_of(&mut hash_map, &long), Addr(1));
    assert_eq!(addr_of(&mut hash_map, &longer), Addr(1 + 2 + 1000 + 4));
    assert_eq!(hash_map.get(&long), Some(1));
    assert_eq!(hash_map.get(&longer), Some(2));
    assert_eq!(hash_map.get(&long[..999]), None);
}

#[test]
fn values_of_other_sizes() {
    let mut bytes: HashMap<u8> = HashMap::with_capacity(4);
    bytes.update(b"k", |value| *value += 1, || 253);
    assert_eq!(bytes.get(b"k"), Some(254));
    bytes.update(b"k", |value| *value += 1, || 0);
    assert_eq!(bytes.get(b"k"), Some(255));
    let mut wide: HashMap<u64> = HashMap::with_capacity(4);
    wide.update(b"k", |_| (), || u64::MAX - 1);
    wide.update(b"k", |value| *value += 1, || 0);
    assert_eq!(wide.get(b"k"), Some(u64::MAX));
    let mut short: HashMap<u16> = HashMap::with_capacity(4);
    short.update(b"k", |_| (), || 0xbeef);
    assert_eq!(short.get(b"k"), Some(0xbeef));
}

#[test]
fn no_room_for_a_key_that_fills_a_page() {
    let hash_map: HashMap<u32> = HashMap::with_capacity(4);
    assert!(hash_map.has_room_for(b"small"));
    // Three bytes of length, the key, four bytes of value: one byte short of a page.
    let fits = vec![0u8; (1 << 20) - 8];
    assert!(hash_map.has_room_for(&fits));
    let too_long = vec![0u8; (1 << 20) - 7];
    assert!(!hash_map.has_room_for(&too_long));
    let page = vec![0u8; 1 << 20];
    assert!(!hash_map.has_room_for(&page));
}

#[test]
fn entries_go_to_a_new_page_when_one_is_full() {
    let mut hash_map: HashMap<u32> = HashMap::with_capacity(4);
    let big_a = vec![b'a'; 600_000];
    let big_b = vec![b'b'; 600_000];
    hash_map.update(&big_a, |_| (), || 1);
    hash_map.update(&big_b, |_| (), || 2);
    hash_map.update(b"small", |_| (), || 3);
    assert_eq!(addr_of(&mut hash_map, &big_a), Addr(1));
    assert_eq!(addr_of(&mut hash_map, &big_b), Addr(1 << 20));
    assert_eq!(addr_of(&mut hash_map, b"small"), Addr((1 << 20) + 3 + 600_000 + 4));
    assert_eq!(hash_map.get(&big_a), Some(1));
    assert_eq!(hash_map.get(&big_b), Some(2));
    assert_eq!(hash_map.get(b"small"), Some(3));
}

#[test]
fn make_hash_is_murmur() {
    let hash_map: HashMap<u32> = HashMap::with_capacity(4);
    assert_eq!(hash_map.make_hash(b""), 3632506080);
    assert_eq!(hash_map.make_hash(b"abcd"), 2588571162);
}

#[test]
fn slices_are_compared_byte_by_byte() {
    assert!(eq_slice(b"", b""));
    assert!(eq_slice(b"abc", b"abc"));
    assert!(!eq_slice(b"abc", b"abd"));
    assert!(!eq_slice(b"abc", b"ab"));
    assert!(!eq_slice(b"", b"a"));
}

#[test]
fn many_keys_in_a_small_table() {
    let mut hash_map: HashMap<u32> = HashMap::with_capacity(1);
    for i in 0..5000u32 {
        let key = i.to_le_bytes();
        assert_eq!(hash_map.get(&key), None);
        hash_map.update(&key, |_| (), || i);
        assert_eq!(hash_map.len(), i as usize + 1);
    }
    for i in 0..5000u32 {
        assert_eq!(hash_map.get(&i.to_le_bytes()), Some(i));
    }
    for i in 5000..6000u32 {
        assert_eq!(hash_map.get(&i.to_le_bytes()), None);
    }
    assert!(hash_map.capacity() >= 5000);
    assert!(hash_map.capacity() < 10_000);
}

#[test]
fn handle_changes_its_copy_in_place() {
    let mut hash_map: HashMap<u32> = HashMap::with_capacity(4);
    hash_map.update(b"key", |_| (), || 40);
    let mut handler = match hash_map.entry(b"key") {
        Entry::Present(handler) => handler,
        Entry::Absent(_) => panic!("the key was put in"),
    };
    *handler.get_mut() += 2;
    assert_eq!(handler.get(), 42);
    assert_eq!(hash_map.get(b"key"), Some(40));
    handler.commit(&mut hash_map);
    assert_eq!(hash_map.get(b"key"), Some(42));
}

#[test]
fn index_of_a_new_table_can_grow() {
    let mut hash_map: HashMap<u32> = HashMap::with_capacity(1);
    assert!(hash_map.has_room_to_grow());
    hash_map.update(b"a", |_| (), || 1);
    assert!(hash_map.has_room_to_grow());
}
