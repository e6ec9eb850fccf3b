use onehop_hashmap::arena::{copy_into, MAX_PAGES, PAGE_SIZE};
use onehop_hashmap::{Addr, Arena};

#[test]
fn test_arena_allocate() {
    let mut arena = Arena::new();
    let a = b"hello";
    let b = b"happy tax payer";

    let addr_a = {
        let (addr_a, data) = arena.allocate(a.len());
        data.copy_from_slice(a);
        addr_a
    };
    let addr_b = {
        let (addr_b, data) = arena.allocate(b.len());
        data.copy_from_slice(b);
        addr_b
    };
    {
        let a_retrieve = arena.get_mut_slice(addr_a, a.len());
        assert_eq!(a_retrieve, a);
    }
    {
        let b_retrieve = arena.get_mut_slice(addr_b, b.len());
        assert_eq!(b_retrieve, b);
    }
}

#[test]
fn addr_packs_page_and_offset() {
    let addr = Addr::new(3, 17);
    assert_eq!(addr.0, 3 * (1 << 20) + 17);
    assert_eq!(addr.page_id(), 3);
    assert_eq!(addr.page_local_addr(), 17);
    let last = Addr::new(4095, PAGE_SIZE - 1);
    assert_eq!(last.0, u32::MAX);
    assert_eq!(last.page_id(), 4095);
    assert_eq!(last.page_local_addr(), PAGE_SIZE - 1);
    assert_eq!(Addr::new(0, 0), Addr(0));
}

#[test]
fn page_constants() {
    assert_eq!(PAGE_SIZE, 1_048_576);
    assert_eq!(MAX_PAGES, 4095);
}

#[test]
fn address_zero_is_never_handed_out() {
    let mut arena = Arena::new();
    let (first, window) = arena.allocate(4);
    assert_eq!(window.len(), 4);
    assert_eq!(first, Addr(1));
    let (second, _) = arena.allocate(0);
    assert_eq!(second, Addr(5));
    let (third, _) = arena.allocate(1);
    assert_eq!(third, Addr(5));
}

#[test]
fn allocations_follow_each_other_in_a_page() {
    let mut arena = Arena::new();
    let (a, _) = arena.allocate(10);
    let (b, _) = arena.allocate(20);
    let (c, _) = arena.allocate(30);
    assert_eq!(a, Addr(1));
    assert_eq!(b, Addr(11));
    assert_eq!(c, Addr(31));
}

#[test]
fn allocation_that_does_not_fit_opens_a_new_page() {
    let mut arena = Arena::new();
    let (a, _) = arena.allocate(PAGE_SIZE - 10);
    assert_eq!(a, Addr(1));
    // Nine bytes are left in the first page.
    let (b, window) = arena.allocate(10);
    assert_eq!(window.len(), 10);
    assert_eq!(b.page_id(), 1);
    assert_eq!(b.page_local_addr(), 0);
    // The rest of the first page is not used any more.
    let (c, _) = arena.allocate(5);
    assert_eq!(c.page_id(), 1);
    assert_eq!(c.page_local_addr(), 10);
}

#[test]
fn allocation_fills_a_page_to_its_last_byte() {
    let mut arena = Arena::new();
    let (a, window) = arena.allocate(PAGE_SIZE - 1);
    assert_eq!(a, Addr(1));
    assert_eq!(window.len(), PAGE_SIZE - 1);
    // A full page takes nothing more, not even an empty allocation.
    let (b, window) = arena.allocate(0);
    assert_eq!(window.len(), 0);
    assert_eq!(b.page_id(), 1);
    assert_eq!(b.page_local_addr(), 0);
}

#[test]
fn window_shows_only_its_own_bytes() {
    let mut arena = Arena::new();
    let (a, window) = arena.allocate(4);
    window.copy_from_slice(&[1, 2, 3, 4]);
    let (b, window) = arena.allocate(3);
    assert_eq!(window.len(), 3);
    window.copy_from_slice(&[9, 8, 7]);
    assert_eq!(arena.get_slice(a, 4), &[1, 2, 3, 4]);
    assert_eq!(arena.get_slice(b, 3), &[9, 8, 7]);
    assert_eq!(arena.get_slice(a, 7), &[1, 2, 3, 4, 9, 8, 7]);
    {
        let inner = arena.get_mut_slice(Addr(a.0 + 1), 2);
        assert_eq!(inner.len(), 2);
        assert_eq!(inner, &[2, 3]);
        inner[0] = 20;
        inner[1] = 30;
    }
    assert_eq!(arena.get_slice(a, 7), &[1, 20, 30, 4, 9, 8, 7]);
}

#[test]
fn fresh_page_is_zero() {
    let mut arena = Arena::new();
    let (addr, _) = arena.allocate(8);
    assert_eq!(arena.get_slice(addr, 8), &[0u8; 8]);
    assert_eq!(arena.get_slice(Addr(0), 1), &[0u8]);
}

#[test]
fn copy_into_overlays_bytes() {
    let mut buffer = [1u8, 2, 3, 4, 5, 6];
    copy_into(&mut buffer, 2, &[9, 9, 9]);
    assert_eq!(buffer, [1, 2, 9, 9, 9, 6]);
    copy_into(&mut buffer, 6, &[]);
    assert_eq!(buffer, [1, 2, 9, 9, 9, 6]);
}

#[test]
fn save_and_read_typed_values() {
    let mut arena = Arena::new();
    let a = arena.save(0xdead_beefu32);
    let b = arena.save(7u8);
    let c = arena.save(0x0102_0304_0506_0708u64);
    let d = arena.save(0xabcdu16);
    assert_eq!(a, Addr(1));
    assert_eq!(b, Addr(5));
    assert_eq!(c, Addr(6));
    assert_eq!(d, Addr(14));
    assert_eq!(arena.read::<u32>(a), 0xdead_beef);
    assert_eq!(arena.read::<u8>(b), 7);
    assert_eq!(arena.read::<u64>(c), 0x0102_0304_0506_0708);
    assert_eq!(arena.read::<u16>(d), 0xabcd);
    // Values lie in little-endian order.
    assert_eq!(arena.get_slice(a, 4), &[0xef, 0xbe, 0xad, 0xde]);
}

#[test]
fn save_slice_then_read_slice_gives_the_bytes_back() {
    let mut arena = Arena::new();
    let empty = arena.save_slice(b"");
    let short = arena.save_slice(b"hello");
    let long_bytes: Vec<u8> = (0..300u32).map(|i| (i % 251) as u8).collect();
    let long = arena.save_slice(&long_bytes);
    assert_eq!(empty, Addr(1));
    assert_eq!(short, Addr(2));
    assert_eq!(long, Addr(8));

    let (bytes, next) = arena.read_slice(empty);
    assert_eq!(bytes, b"");
    assert_eq!(next, Addr(2));
    let (bytes, next) = arena.read_slice(short);
    assert_eq!(bytes, b"hello");
    assert_eq!(next, Addr(8));
    let (bytes, next) = arena.read_slice(long);
    assert_eq!(bytes, &long_bytes[..]);
    // Two bytes of length and three hundred of content.
    assert_eq!(next, Addr(8 + 2 + 300));
}

#[test]
fn slice_is_stored_behind_its_length() {
    let mut arena = Arena::new();
    let addr = arena.save_slice(b"abc");
    assert_eq!(arena.get_slice(addr, 4), &[3, b'a', b'b', b'c']);
    let bytes = vec![7u8; 200];
    let addr = arena.save_slice(&bytes);
    assert_eq!(arena.get_slice(addr, 2), &[0xc8, 0x01]);
    assert_eq!(arena.get_slice(Addr(addr.0 + 2), 200), &bytes[..]);
}

#[test]
fn value_adjoins_the_slice() {
    let mut arena = Arena::new();
    let key = arena.save_slice(b"key");
    let value = arena.save(42u32);
    let (bytes, next) = arena.read_slice(key);
    assert_eq!(bytes, b"key");
    assert_eq!(next, value);
    assert_eq!(arena.read::<u32>(next), 42);
}

#[test]
fn slices_survive_later_allocations() {
    let mut arena = Arena::new();
    let first = arena.save_slice(b"first");
    for i in 0..100u32 {
        let bytes = vec![i as u8; 40_000];
        arena.save_slice(&bytes);
    }
    let last = arena.save_slice(b"last");
    assert!(last.page_id() >= 3);
    assert_eq!(arena.read_slice(first).0, b"first");
    assert_eq!(arena.read_slice(last).0, b"last");
}

#[test]
fn arena_has_room_while_pages_can_be_added() {
    let mut arena = Arena::new();
    assert!(arena.has_room_for(0));
    assert!(arena.has_room_for(PAGE_SIZE - 1));
    assert!(arena.has_room_for(PAGE_SIZE));
    let (_, _) = arena.allocate(PAGE_SIZE - 1);
    assert!(arena.has_room_for(1));
}

#[test]
fn pointers_reach_to_the_end_of_the_page() {
    let mut arena = Arena::new();
    let (addr, window) = arena.allocate(3);
    window.copy_from_slice(&[5, 6, 7]);
    assert_eq!(addr, Addr(1));
    {
        let rest = arena.get_ptr(addr);
        assert_eq!(rest.len(), PAGE_SIZE - 1);
        assert_eq!(&rest[..4], &[5, 6, 7, 0]);
    }
    {
        let rest = arena.get_mut_ptr(Addr(2));
        assert_eq!(rest.len(), PAGE_SIZE - 2);
        assert_eq!(&rest[..2], &[6, 7]);
        rest[1] = 70;
    }
    assert_eq!(arena.get_slice(addr, 3), &[5, 6, 70]);
    assert_eq!(arena.get_ptr(Addr(0)).len(), PAGE_SIZE);
}
