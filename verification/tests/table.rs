use onehop_hashmap::table::{distance, is_power_of_two, place, Bucket, Probe};
use onehop_hashmap::Addr;

fn occupied(table: &[Bucket]) -> Vec<Option<(u32, u32)>> {
    table
        .iter()
        .map(|b| match b {
            Bucket::Vacant => None,
            Bucket::Occupied { hash, addr } => Some((*hash, addr.0)),
        })
        .collect()
}

#[test]
fn powers_of_two() {
    assert!(!is_power_of_two(0));
    assert!(is_power_of_two(1));
    assert!(is_power_of_two(2));
    assert!(!is_power_of_two(3));
    assert!(is_power_of_two(4));
    assert!(!is_power_of_two(6));
    assert!(is_power_of_two(1 << 20));
    assert!(!is_power_of_two((1 << 20) + 1));
    assert!(is_power_of_two(1 << 63));
    assert!(!is_power_of_two(usize::MAX));
}

#[test]
fn probe_starts_at_the_low_bits_of_the_hash() {
    assert_eq!(Probe::new(0, 8).bucket(), 0);
    assert_eq!(Probe::new(13, 8).bucket(), 5);
    assert_eq!(Probe::new(0xffff_ffff, 8).bucket(), 7);
    assert_eq!(Probe::new(0xffff_ffff, 1 << 20).bucket(), (1 << 20) - 1);
    assert_eq!(Probe::new(0x1234_5678, 16).bucket(), 8);
}

#[test]
fn probe_advances_round_the_end() {
    let mut probe = Probe::new(6, 8);
    assert_eq!(probe.bucket(), 6);
    assert_eq!(probe.advance(), 7);
    assert_eq!(probe.advance(), 0);
    assert_eq!(probe.advance(), 1);
    assert_eq!(probe.bucket(), 1);
    let mut probe = Probe::starting_at(3, 4);
    assert_eq!(probe.advance(), 0);
}

#[test]
fn distance_is_counted_round_the_end() {
    assert_eq!(distance(5, 5, 8), 0);
    assert_eq!(distance(7, 5, 8), 2);
    assert_eq!(distance(1, 5, 8), 4);
    assert_eq!(distance(4, 5, 8), 7);
    assert_eq!(distance(0, 0xffff_ffff, 8), 1);
}

#[test]
fn place_takes_the_first_vacant_bucket() {
    let mut table = vec![Bucket::Vacant; 8];
    place(&mut table, 2, 0, 2, Addr(10));
    place(&mut table, 2, 0, 10, Addr(20));
    place(&mut table, 2, 0, 18, Addr(30));
    assert_eq!(
        occupied(&table),
        vec![None, None, Some((2, 10)), Some((10, 20)), Some((18, 30)), None, None, None]
    );
}

#[test]
fn place_displaces_the_entry_nearer_to_its_home() {
    let mut table = vec![Bucket::Vacant; 8];
    place(&mut table, 2, 0, 2, Addr(10));
    place(&mut table, 3, 0, 3, Addr(20));
    place(&mut table, 4, 0, 4, Addr(30));
    // A second entry with home 2 lies one step from home at bucket 3, where the
    // occupant is at home: the two change places, and so on down the run.
    place(&mut table, 2, 0, 10, Addr(40));
    assert_eq!(
        occupied(&table),
        vec![
            None,
            None,
            Some((2, 10)),
            Some((10, 40)),
            Some((3, 20)),
            Some((4, 30)),
            None,
            None
        ]
    );
}

#[test]
fn place_goes_round_the_end() {
    let mut table = vec![Bucket::Vacant; 4];
    place(&mut table, 3, 0, 3, Addr(10));
    place(&mut table, 3, 0, 7, Addr(20));
    assert_eq!(occupied(&table), vec![Some((7, 20)), None, None, Some((3, 10))]);
    place(&mut table, 0, 0, 0, Addr(30));
    // The entry with home 0 does not displace the one that is a step from
    // home at bucket 0.
    assert_eq!(occupied(&table), vec![Some((7, 20)), Some((0, 30)), None, Some((3, 10))]);
}

#[test]
fn place_starts_where_the_search_ended() {
    let mut table = vec![Bucket::Vacant; 8];
    place(&mut table, 1, 0, 1, Addr(10));
    place(&mut table, 2, 0, 2, Addr(20));
    // The search for a second entry with home 1 ends at bucket 2, one step
    // from home.
    place(&mut table, 2, 1, 9, Addr(30));
    assert_eq!(
        occupied(&table),
        vec![None, Some((1, 10)), Some((9, 30)), Some((2, 20)), None, None, None, None]
    );
}
