//! The bucket index: a power-of-two number of buckets, probed linearly and
//! kept in Robin Hood order.

use crate::arena::Addr;
use vstd::prelude::*;

verus! {

/// The hash of a key.
pub type HashKey = u32;

/// One bucket of the index: empty, or the hash of a key and the address of its
/// entry.
#[derive(Clone, Copy, Debug)]
pub enum Bucket {
    /// The bucket holds nothing.
    Vacant,
    /// The bucket stands for the key whose entry lies at `addr` and whose hash
    /// is `hash`.
    Occupied { hash: HashKey, addr: Addr },
}

/// `n` is a power of two.
pub open spec fn power_of_two(n: usize) -> bool {
    n != 0 && n & ((n - 1) as usize) == 0
}

/// `power_of_two` says what its name says: it holds of `n` exactly where `n` is
/// a one shifted left by some number of places below the width of `usize`.
pub proof fn lemma_power_of_two(n: usize)
    ensures
        power_of_two(n) <==> exists|k: u32| k < usize::BITS && n == #[trigger] (1usize << k),
{
    assert forall|k: u32| k < usize::BITS && n == #[trigger] (1usize << k) implies power_of_two(
        n,
    ) by {
        assert(k < usize::BITS && n == 1usize << k ==> n != 0 && n & ((n - 1) as usize) == 0)
            by (bit_vector);
    }
    if power_of_two(n) {
        assert(
            (0u32 < usize::BITS && n == 1usize << 0u32)
            || (1u32 < usize::BITS && n == 1usize << 1u32)
            || (2u32 < usize::BITS && n == 1usize << 2u32)
            || (3u32 < usize::BITS && n == 1usize << 3u32)
            || (4u32 < usize::BITS && n == 1usize << 4u32)
            || (5u32 < usize::BITS && n == 1usize << 5u32)
            || (6u32 < usize::BITS && n == 1usize << 6u32)
            || (7u32 < usize::BITS && n == 1usize << 7u32)
            || (8u32 < usize::BITS && n == 1usize << 8u32)
            || (9u32 < usize::BITS && n == 1usize << 9u32)
            || (10u32 < usize::BITS && n == 1usize << 10u32)
            || (11u32 < usize::BITS && n == 1usize << 11u32)
            || (12u32 < usize::BITS && n == 1usize << 12u32)
            || (13u32 < usize::BITS && n == 1usize << 13u32)
            || (14u32 < usize::BITS && n == 1usize << 14u32)
            || (15u32 < usize::BITS && n == 1usize << 15u32)
            || (16u32 < usize::BITS && n == 1usize << 16u32)
            || (17u32 < usize::BITS && n == 1usize << 17u32)
            || (18u32 < usize::BITS && n == 1usize << 18u32)
            || (19u32 < usize::BITS && n == 1usize << 19u32)
            || (20u32 < usize::BITS && n == 1usize << 20u32)
            || (21u32 < usize::BITS && n == 1usize << 21u32)
            || (22u32 < usize::BITS && n == 1usize << 22u32)
            || (23u32 < usize::BITS && n == 1usize << 23u32)
            || (24u32 < usize::BITS && n == 1usize << 24u32)
            || (25u32 < usize::BITS && n == 1usize << 25u32)
            || (26u32 < usize::BITS && n == 1usize << 26u32)
            || (27u32 < usize::BITS && n == 1usize << 27u32)
            || (28u32 < usize::BITS && n == 1usize << 28u32)
            || (29u32 < usize::BITS && n == 1usize << 29u32)
            || (30u32 < usize::BITS && n == 1usize << 30u32)
            || (31u32 < usize::BITS && n == 1usize << 31u32)
            || (32u32 < usize::BITS && n == 1usize << 32u32)
            || (33u32 < usize::BITS && n == 1usize << 33u32)
            || (34u32 < usize::BITS && n == 1usize << 34u32)
            || (35u32 < usize::BITS && n == 1usize << 35u32)
            || (36u32 < usize::BITS && n == 1usize << 36u32)
            || (37u32 < usize::BITS && n == 1usize << 37u32)
            || (38u32 < usize::BITS && n == 1usize << 38u32)
            || (39u32 < usize::BITS && n == 1usize << 39u32)
            || (40u32 < usize::BITS && n == 1usize << 40u32)
            || (41u32 < usize::BITS && n == 1usize << 41u32)
            || (42u32 < usize::BITS && n == 1usize << 42u32)
            || (43u32 < usize::BITS && n == 1usize << 43u32)
            || (44u32 < usize::BITS && n == 1usize << 44u32)
            || (45u32 < usize::BITS && n == 1usize << 45u32)
            || (46u32 < usize::BITS && n == 1usize << 46u32)
            || (47u32 < usize::BITS && n == 1usize << 47u32)
            || (48u32 < usize::BITS && n == 1usize << 48u32)
            || (49u32 < usize::BITS && n == 1usize << 49u32)
            || (50u32 < usize::BITS && n == 1usize << 50u32)
            || (51u32 < usize::BITS && n == 1usize << 51u32)
            || (52u32 < usize::BITS && n == 1usize << 52u32)
            || (53u32 < usize::BITS && n == 1usize << 53u32)
            || (54u32 < usize::BITS && n == 1usize << 54u32)
            || (55u32 < usize::BITS && n == 1usize << 55u32)
            || (56u32 < usize::BITS && n == 1usize << 56u32)
            || (57u32 < usize::BITS && n == 1usize << 57u32)
            || (58u32 < usize::BITS && n == 1usize << 58u32)
            || (59u32 < usize::BITS && n == 1usize << 59u32)
            || (60u32 < usize::BITS && n == 1usize << 60u32)
            || (61u32 < usize::BITS && n == 1usize << 61u32)
            || (62u32 < usize::BITS && n == 1usize << 62u32)
            || (63u32 < usize::BITS && n == 1usize << 63u32)
        ) by (bit_vector)
            requires
                n != 0,
                n & ((n - 1) as usize) == 0,
        ;
    }
}

/// The bucket at which the search for a hash starts in an index of `n`
/// buckets.
pub open spec fn home(hash: HashKey, n: usize) -> int {
    ((hash as usize) & ((n - 1) as usize)) as int
}

/// The number of steps from bucket `from` forward to bucket `pos`, round the
/// end of an index of `n` buckets.
pub open spec fn dist(pos: int, from: int, n: int) -> int {
    if pos >= from {
        pos - from
    } else {
        pos - from + n
    }
}

/// The bucket that lies `d` steps after bucket `from`.
pub open spec fn ahead(from: int, d: int, n: int) -> int {
    if from + d < n {
        from + d
    } else {
        from + d - n
    }
}

/// The bucket before `pos`.
pub open spec fn prev(pos: int, n: int) -> int {
    if pos == 0 {
        n - 1
    } else {
        pos - 1
    }
}

/// The probe distance of what bucket `i` holds: how far it lies from the home
/// of its hash. For a vacant bucket, -1.
pub open spec fn reach(t: Seq<Bucket>, i: int) -> int {
    match t[i] {
        Bucket::Vacant => -1,
        Bucket::Occupied { hash, addr } => dist(i, home(hash, t.len() as usize), t.len() as int),
    }
}

/// Robin Hood order: from one bucket to the next the probe distance grows by
/// one at most. So the buckets between the home of an entry and the entry are
/// all occupied, by entries that lie at least as far from their homes.
pub open spec fn ordered(t: Seq<Bucket>) -> bool {
    forall|i: int, j: int|
        0 <= i < t.len() && j == prev(i, t.len() as int) ==> #[trigger] reach(t, i) <= #[trigger] reach(t, j) + 1
}

/// Some bucket of `t` is `b`.
pub open spec fn in_table(t: Seq<Bucket>, b: Bucket) -> bool {
    exists|i: int| 0 <= i < t.len() && #[trigger] t[i] == b
}

/// The entries of the index: what its occupied buckets hold.
pub open spec fn entries(t: Seq<Bucket>) -> Set<Bucket> {
    Set::new(|b: Bucket| b is Occupied && in_table(t, b))
}

/// The number of occupied buckets.
pub open spec fn count(t: Seq<Bucket>) -> nat
    decreases t.len(),
{
    if t.len() == 0 {
        0
    } else {
        count(t.drop_last()) + if t.last() is Occupied {
            1nat
        } else {
            0nat
        }
    }
}

/// Replacing one bucket changes the count by what the two buckets differ in.
pub proof fn lemma_count_update(t: Seq<Bucket>, i: int, b: Bucket)
    requires
        0 <= i < t.len(),
    ensures
        count(t.update(i, b)) + (if t[i] is Occupied { 1nat } else { 0nat })
            == count(t) + (if b is Occupied { 1nat } else { 0nat }),
    decreases t.len(),
{
    let u = t.update(i, b);
    if i == t.len() - 1 {
        assert(u.drop_last() =~= t.drop_last());
    } else {
        assert(u.drop_last() =~= t.drop_last().update(i, b));
        lemma_count_update(t.drop_last(), i, b);
    }
}

/// An index that is not full has a vacant bucket.
pub proof fn lemma_count_vacancy(t: Seq<Bucket>)
    requires
        count(t) < t.len(),
    ensures
        exists|i: int| 0 <= i < t.len() && #[trigger] t[i] is Vacant,
    decreases t.len(),
{
    if t.last() is Occupied {
        lemma_count_vacancy(t.drop_last());
        let i = choose|i: int| 0 <= i < t.len() - 1 && #[trigger] t.drop_last()[i] is Vacant;
        assert(t[i] is Vacant);
    } else {
        assert(t[t.len() - 1] is Vacant);
    }
}

/// A prefix of an index holds no more entries than the index.
pub proof fn lemma_count_prefix(t: Seq<Bucket>, i: int)
    requires
        0 <= i <= t.len(),
    ensures
        count(t.take(i)) <= count(t),
        i < t.len() ==> count(t.take(i + 1)) == count(t.take(i)) + (if t[i] is Occupied {
            1nat
        } else {
            0nat
        }),
    decreases t.len(),
{
    if i == t.len() {
        assert(t.take(i) =~= t);
    } else {
        assert(t.take(i + 1).drop_last() =~= t.take(i));
        assert(t.drop_last().take(i) =~= t.take(i));
        lemma_count_prefix(t.drop_last(), i);
    }
}

/// Twice a power of two is a power of two.
pub proof fn lemma_double(n: usize)
    requires
        power_of_two(n),
        2 * n <= usize::MAX,
    ensures
        power_of_two((2 * n) as usize),
{
    let m = (2 * n) as usize;
    assert(m != 0 && m & ((m - 1) as usize) == 0) by (bit_vector)
        requires
            n != 0,
            n & ((n - 1) as usize) == 0,
            m == 2 * n,
    ;
}

/// An index of vacant buckets holds nothing.
pub proof fn lemma_count_vacant(t: Seq<Bucket>)
    requires
        forall|i: int| 0 <= i < t.len() ==> #[trigger] t[i] is Vacant,
    ensures
        count(t) == 0,
    decreases t.len(),
{
    if t.len() > 0 {
        lemma_count_vacant(t.drop_last());
    }
}

/// In Robin Hood order the entry that lies `j` buckets before an entry, for
/// `j` up to the probe distance of the latter, is less far from its home by `j`
/// at most. So every bucket between the home of an entry and the entry is
/// occupied, by an entry that is at least as far from its own home.
pub proof fn lemma_run(t: Seq<Bucket>, q: int, j: int)
    requires
        ordered(t),
        t.len() <= usize::MAX,
        0 <= q < t.len(),
        0 <= j <= reach(t, q),
    ensures
        reach(t, dist(q, j, t.len() as int)) >= reach(t, q) - j,
    decreases j,
{
    let n = t.len() as int;
    lemma_reach_bound(t, q);
    if j > 0 {
        lemma_run(t, q, j - 1);
        let a = dist(q, j - 1, n);
        let b = dist(q, j, n);
        assert(b == prev(a, n));
        assert(reach(t, a) <= reach(t, b) + 1);
    }
}

/// In Robin Hood order an entry lies nearer to its home than to any vacant
/// bucket behind it: the walk that stands at the entry has not come round
/// from its home past that bucket.
pub proof fn lemma_vacancy_behind(t: Seq<Bucket>, pos: int, v: int)
    requires
        ordered(t),
        t.len() <= usize::MAX,
        0 <= pos < t.len(),
        0 <= v < t.len(),
        t[v] is Vacant,
    ensures
        -1 <= reach(t, pos) < t.len(),
        reach(t, pos) < dist(pos, v, t.len() as int),
{
    let n = t.len() as int;
    let j = dist(pos, v, n);
    lemma_reach_bound(t, pos);
    if j <= reach(t, pos) {
        lemma_run(t, pos, j);
        assert(dist(pos, j, n) == v);
    }
}

/// A probe distance is less than the number of buckets.
pub proof fn lemma_reach_bound(t: Seq<Bucket>, i: int)
    requires
        t.len() <= usize::MAX,
        0 <= i < t.len(),
    ensures
        -1 <= reach(t, i) < t.len(),
{
    match t[i] {
        Bucket::Vacant => {},
        Bucket::Occupied { hash, addr } => {
            lemma_home_bound(hash, t.len() as usize);
        },
    }
}

/// The home of a hash is a bucket of the index.
pub proof fn lemma_home_bound(hash: HashKey, n: usize)
    requires
        n != 0,
    ensures
        0 <= home(hash, n) < n,
{
    let h = hash as usize;
    let m = (n - 1) as usize;
    assert(h & m <= m) by (bit_vector);
}

/// What putting an entry into the index makes of it. The walk starts at
/// bucket `pos`, where the entry lies `d` steps from its home. A vacant bucket
/// takes the entry. An occupant that lies nearer to its own home than `d`
/// changes places with the entry and is carried on, one step further from its
/// home; any other occupant stays, and the entry is carried on. `steps` bounds
/// the walk: where a bucket is vacant, as many steps as there are buckets are
/// enough.
pub open spec fn robin_hood(
    t: Seq<Bucket>,
    pos: int,
    hash: HashKey,
    addr: Addr,
    d: int,
    steps: nat,
) -> Seq<Bucket>
    decreases steps,
{
    if steps == 0 {
        t
    } else {
        match t[pos] {
            Bucket::Vacant => t.update(pos, Bucket::Occupied { hash, addr }),
            Bucket::Occupied { hash: hash2, addr: addr2 } => {
                let next = ahead(pos, 1, t.len() as int);
                if reach(t, pos) < d {
                    robin_hood(
                        t.update(pos, Bucket::Occupied { hash, addr }),
                        next,
                        hash2,
                        addr2,
                        reach(t, pos) + 1,
                        (steps - 1) as nat,
                    )
                } else {
                    robin_hood(t, next, hash, addr, d + 1, (steps - 1) as nat)
                }
            },
        }
    }
}

/// How far from the home `from` of a hash the search for a key that the index
/// does not hold ends: at the first bucket, from `d` steps on, that is vacant
/// or whose occupant lies nearer to its own home than the search has come.
/// `steps` bounds the search: where a bucket is vacant, as many steps as there
/// are buckets are enough.
pub open spec fn landing(t: Seq<Bucket>, from: int, d: int, steps: nat) -> int
    decreases steps,
{
    if steps == 0 || reach(t, ahead(from, d, t.len() as int)) < d {
        d
    } else {
        landing(t, from, d + 1, (steps - 1) as nat)
    }
}

/// An index of `size` buckets into which the entries of the first `i` buckets
/// of `t` were put, one after the other, each from its home on.
pub open spec fn rebuilt(t: Seq<Bucket>, size: usize, i: nat) -> Seq<Bucket>
    decreases i,
{
    if i == 0 {
        Seq::new(size as nat, |j: int| Bucket::Vacant)
    } else {
        let r = rebuilt(t, size, (i - 1) as nat);
        match t[i - 1] {
            Bucket::Vacant => r,
            Bucket::Occupied { hash, addr } => robin_hood(
                r,
                home(hash, size),
                hash,
                addr,
                0,
                size as nat,
            ),
        }
    }
}

/// No two buckets hold the same address.
pub open spec fn distinct(t: Seq<Bucket>) -> bool {
    forall|i: int, j: int|
        0 <= i < j < t.len() && (#[trigger] t[i]) is Occupied && (#[trigger] t[j]) is Occupied
            ==> t[i]->addr != t[j]->addr
}

/// Some bucket holds `addr`.
pub open spec fn holds_addr(t: Seq<Bucket>, addr: Addr) -> bool {
    exists|i: int| 0 <= i < t.len() && (#[trigger] t[i]) is Occupied && t[i]->addr == addr
}

/// Putting in an address that no bucket holds leaves no address in two
/// buckets.
pub proof fn lemma_robin_hood_distinct(
    t: Seq<Bucket>,
    pos: int,
    hash: HashKey,
    addr: Addr,
    d: int,
    steps: nat,
)
    requires
        distinct(t),
        !holds_addr(t, addr),
        0 <= pos < t.len(),
    ensures
        distinct(robin_hood(t, pos, hash, addr, d, steps)),
    decreases steps,
{
    if steps > 0 {
        let entry = Bucket::Occupied { hash, addr };
        let u = t.update(pos, entry);
        assert(distinct(u)) by {
            assert forall|i: int, j: int|
                0 <= i < j < u.len() && (#[trigger] u[i]) is Occupied && (#[trigger] u[j]) is Occupied implies u[i]->addr
                != u[j]->addr by {
                if i == pos {
                    assert(t[j] is Occupied);
                } else if j == pos {
                    assert(t[i] is Occupied);
                } else {
                    assert(t[i] is Occupied && t[j] is Occupied);
                }
            }
        }
        match t[pos] {
            Bucket::Vacant => {},
            Bucket::Occupied { hash: hash2, addr: addr2 } => {
                let next = ahead(pos, 1, t.len() as int);
                if reach(t, pos) < d {
                    assert(!holds_addr(u, addr2)) by {
                        if holds_addr(u, addr2) {
                            let i = choose|i: int|
                                0 <= i < u.len() && (#[trigger] u[i]) is Occupied && u[i]->addr
                                    == addr2;
                            if i != pos {
                                assert(t[i] is Occupied);
                                assert(t[pos] is Occupied);
                            }
                        }
                    }
                    lemma_robin_hood_distinct(u, next, hash2, addr2, reach(t, pos) + 1, (steps - 1) as nat);
                } else {
                    lemma_robin_hood_distinct(t, next, hash, addr, d + 1, (steps - 1) as nat);
                }
            },
        }
    }
}

/// Putting an entry where the occupant, if there is one, lies nearer to its
/// home than the entry does keeps Robin Hood order, as long as the entry is
/// no more than one step further from home than its neighbour before.
pub proof fn lemma_put(t: Seq<Bucket>, p: int, hash: HashKey, addr: Addr)
    requires
        ordered(t),
        2 <= t.len() <= usize::MAX,
        0 <= p < t.len(),
        reach(t, p) < dist(p, home(hash, t.len() as usize), t.len() as int),
        dist(p, home(hash, t.len() as usize), t.len() as int) <= reach(t, prev(p, t.len() as int)) + 1,
    ensures
        ordered(t.update(p, Bucket::Occupied { hash, addr })),
{
    let n = t.len() as int;
    let u = t.update(p, Bucket::Occupied { hash, addr });
    assert forall|i: int, j: int| 0 <= i < n && j == prev(i, n) implies #[trigger] reach(u, i)
        <= #[trigger] reach(u, j) + 1 by {
        assert(reach(t, i) <= reach(t, j) + 1);
    }
}

/// Putting `carried` into bucket `pos` and taking out what was there leaves
/// the same entries in the index and in hand together.
pub proof fn lemma_exchange(t: Seq<Bucket>, pos: int, carried: Bucket)
    requires
        0 <= pos < t.len(),
        carried is Occupied,
    ensures
        t[pos] is Occupied ==> entries(t.update(pos, carried)).insert(t[pos]) == entries(t).insert(
            carried,
        ),
        t[pos] is Vacant ==> entries(t.update(pos, carried)) == entries(t).insert(carried),
{
    let u = t.update(pos, carried);
    assert forall|b: Bucket| b is Occupied implies (in_table(u, b) || b == t[pos] <==> in_table(t, b)
        || b == carried) by {
        if in_table(t, b) {
            let i = choose|i: int| 0 <= i < t.len() && #[trigger] t[i] == b;
            if i != pos {
                assert(u[i] == b);
            }
        }
        if b == carried {
            assert(u[pos] == b);
        }
        if in_table(u, b) {
            let i = choose|i: int| 0 <= i < u.len() && #[trigger] u[i] == b;
            if i != pos {
                assert(t[i] == b);
            }
        }
        if b == t[pos] {
            assert(t[pos] == b);
        }
    }
    if t[pos] is Occupied {
        assert(entries(u).insert(t[pos]) =~= entries(t).insert(carried));
    } else {
        assert(entries(u) =~= entries(t).insert(carried));
    }
}

/// An index of vacant buckets is in Robin Hood order, and no address is in
/// two of its buckets.
pub proof fn lemma_vacant_ordered(t: Seq<Bucket>)
    requires
        forall|i: int| 0 <= i < t.len() ==> #[trigger] t[i] is Vacant,
    ensures
        ordered(t),
        distinct(t),
{
    assert forall|i: int, j: int| 0 <= i < t.len() && j == prev(i, t.len() as int) implies #[trigger] reach(
        t,
        i,
    ) <= #[trigger] reach(t, j) + 1 by {
        assert(t[i] is Vacant);
        if 0 <= j < t.len() {
            assert(t[j] is Vacant);
        }
    }
}

/// An index of vacant buckets has no entries.
pub proof fn lemma_entries_vacant(t: Seq<Bucket>)
    requires
        forall|i: int| 0 <= i < t.len() ==> #[trigger] t[i] is Vacant,
    ensures
        entries(t) == Set::<Bucket>::empty(),
{
    assert forall|b: Bucket| !(b is Occupied && in_table(t, b)) by {
        if in_table(t, b) {
            let i = choose|i: int| 0 <= i < t.len() && #[trigger] t[i] == b;
            assert(t[i] is Vacant);
        }
    }
    assert(entries(t) =~= Set::<Bucket>::empty());
}

/// The entries of a prefix that is one bucket longer are those of the
/// prefix and what the bucket holds.
pub proof fn lemma_entries_prefix(t: Seq<Bucket>, i: int)
    requires
        0 <= i < t.len(),
    ensures
        entries(t.take(i + 1)) == (if t[i] is Occupied {
            entries(t.take(i)).insert(t[i])
        } else {
            entries(t.take(i))
        }),
{
    let short = t.take(i);
    let long = t.take(i + 1);
    assert forall|b: Bucket| b is Occupied implies (in_table(long, b) <==> in_table(short, b) || b
        == t[i]) by {
        if in_table(short, b) {
            let j = choose|j: int| 0 <= j < short.len() && #[trigger] short[j] == b;
            assert(long[j] == b);
        }
        if b == t[i] {
            assert(long[i] == b);
        }
        if in_table(long, b) {
            let j = choose|j: int| 0 <= j < long.len() && #[trigger] long[j] == b;
            if j < i {
                assert(short[j] == b);
            }
        }
    }
    if t[i] is Occupied {
        assert(entries(long) =~= entries(short).insert(t[i]));
    } else {
        assert(entries(long) =~= entries(short));
    }
}

/// Whether `n` is a power of two.
pub fn is_power_of_two(n: usize) -> (b: bool)
    ensures
        b == power_of_two(n),
{
    if n == 0 {
        false
    } else {
        n & (n - 1) == 0
    }
}

/// The walk over the buckets of an index, one step at a time, round the end.
pub struct Probe {
    bucket_addr: usize,
    mask: usize,
}

impl Probe {
    /// The bucket at which the walk stands.
    pub closed spec fn position(&self) -> int {
        self.bucket_addr as int
    }

    /// The number of buckets of the index.
    pub closed spec fn buckets(&self) -> int {
        self.mask + 1
    }

    /// The walk stands at a bucket of an index whose size is a power of two.
    pub closed spec fn wf(&self) -> bool {
        &&& self.mask < usize::MAX
        &&& power_of_two((self.mask + 1) as usize)
        &&& self.bucket_addr <= self.mask
    }

    /// A walk that starts at the home of `hash` in an index of `len` buckets.
    pub fn new(hash: HashKey, len: usize) -> (probe: Probe)
        requires
            power_of_two(len),
        ensures
            probe.wf(),
            probe.position() == home(hash, len),
            probe.buckets() == len,
    {
        let mask = len - 1;
        proof {
            lemma_home_bound(hash, len);
        }
        Probe { bucket_addr: (hash as usize) & mask, mask }
    }

    /// A walk that starts at bucket `pos` of an index of `len` buckets.
    pub fn starting_at(pos: usize, len: usize) -> (probe: Probe)
        requires
            power_of_two(len),
            pos < len,
        ensures
            probe.wf(),
            probe.position() == pos,
            probe.buckets() == len,
    {
        Probe { bucket_addr: pos, mask: len - 1 }
    }

    /// The bucket at which the walk stands.
    pub fn bucket(&self) -> (pos: usize)
        requires
            self.wf(),
        ensures
            pos == self.position(),
            pos < self.buckets(),
    {
        self.bucket_addr
    }

    /// Steps to the next bucket, round the end, and tells which it is.
    pub fn advance(&mut self) -> (pos: usize)
        requires
            old(self).wf(),
        ensures
            final(self).wf(),
            final(self).buckets() == old(self).buckets(),
            final(self).position() == ahead(old(self).position(), 1, old(self).buckets()),
            pos == final(self).position(),
    {
        let p = self.bucket_addr;
        let m = self.mask;
        assert(((p + 1) as usize) & m == (if p == m { 0usize } else { (p + 1) as usize })
            && ((p + 1) as usize) & m <= m) by (bit_vector)
            requires
                p <= m,
                ((m + 1) as usize) != 0,
                ((m + 1) as usize) & m == 0,
        ;
        self.bucket_addr = (self.bucket_addr + 1) & self.mask;
        self.bucket_addr
    }
}

/// How far bucket `pos` lies from the home of `hash` in an index of `len`
/// buckets.
pub fn distance(pos: usize, hash: HashKey, len: usize) -> (d: usize)
    requires
        power_of_two(len),
        pos < len,
    ensures
        d == dist(pos as int, home(hash, len), len as int),
        d < len,
{
    proof {
        lemma_home_bound(hash, len);
    }
    let from = (hash as usize) & (len - 1);
    if pos >= from {
        pos - from
    } else {
        len - from + pos
    }
}

/// Puts an entry into the index, from bucket `start` on, where the entry lies
/// `d` steps from its home. At each occupied bucket whose occupant lies nearer
/// to its own home than the entry carried, the two change places, and the walk
/// goes on with the occupant. The first vacant bucket takes what is carried.
pub fn place(table: &mut Vec<Bucket>, start: usize, d: usize, hash: HashKey, addr: Addr)
    requires
        old(table)@.len() >= 2,
        power_of_two(old(table).len()),
        ordered(old(table)@),
        count(old(table)@) < old(table)@.len(),
        start < old(table)@.len(),
        d == dist(start as int, home(hash, old(table).len()), old(table)@.len() as int),
        d <= reach(old(table)@, prev(start as int, old(table)@.len() as int)) + 1,
    ensures
        final(table)@ == robin_hood(
            old(table)@,
            start as int,
            hash,
            addr,
            d as int,
            old(table)@.len(),
        ),
        final(table)@.len() == old(table)@.len(),
        ordered(final(table)@),
        count(final(table)@) == count(old(table)@) + 1,
        distinct(old(table)@) && !holds_addr(old(table)@, addr) ==> distinct(final(table)@),
        entries(final(table)@) == entries(old(table)@).insert(Bucket::Occupied { hash, addr }),
{
    let n = table.len();
    let mut probe = Probe::starting_at(start, n);
    let ghost first = table@;
    let ghost entry = Bucket::Occupied { hash, addr };
    let mut c_hash = hash;
    let mut c_addr = addr;
    let mut c_d = d;
    proof {
        lemma_count_vacancy(table@);
    }
    let ghost v = choose|i: int| 0 <= i < first.len() && #[trigger] first[i] is Vacant;
    let ghost result = robin_hood(first, start as int, hash, addr, d as int, first.len());
    let ghost mut k: nat = 0;
    proof {
        if distinct(first) && !holds_addr(first, addr) {
            lemma_robin_hood_distinct(first, start as int, hash, addr, d as int, first.len());
        }
    }
    loop
        invariant_except_break
            k + dist(v, probe.position(), n as int) < n,
            result == robin_hood(
                table@,
                probe.position(),
                c_hash,
                c_addr,
                c_d as int,
                (n - k) as nat,
            ),
            ordered(table@),
            count(table@) == count(first),
            table@[v] is Vacant,
            c_d == dist(probe.position(), home(c_hash, n), n as int),
            c_d <= reach(table@, prev(probe.position(), n as int)) + 1,
            entries(table@).insert(Bucket::Occupied { hash: c_hash, addr: c_addr }) == entries(
                first,
            ).insert(entry),
        invariant
            n == table@.len(),
            n == first.len(),
            n >= 2,
            power_of_two(n),
            probe.wf(),
            probe.buckets() == n,
            0 <= v < n,
        ensures
            table@ == result,
            ordered(table@),
            count(table@) == count(first) + 1,
            entries(table@) == entries(first).insert(entry),
        decreases dist(v, probe.position(), n as int),
    {
        let pos = probe.bucket();
        let ghost t = table@;
        let carried = Bucket::Occupied { hash: c_hash, addr: c_addr };
        match table[pos] {
            Bucket::Vacant => {
                table[pos] = carried;
                proof {
                    lemma_put(t, pos as int, c_hash, c_addr);
                    lemma_count_update(t, pos as int, carried);
                    lemma_exchange(t, pos as int, carried);
                }
                break ;
            },
            Bucket::Occupied { hash: hash2, addr: addr2 } => {
                let d2 = distance(pos, hash2, n);
                let occupant = Bucket::Occupied { hash: hash2, addr: addr2 };
                if d2 < c_d {
                    table[pos] = carried;
                    proof {
                        lemma_put(t, pos as int, c_hash, c_addr);
                        lemma_count_update(t, pos as int, carried);
                        lemma_exchange(t, pos as int, carried);
                        assert(table@ == t.update(pos as int, carried));
                        assert(t[pos as int] == occupant);
                        assert(entries(table@).insert(occupant) == entries(first).insert(entry));
                    }
                    c_hash = hash2;
                    c_addr = addr2;
                    c_d = d2;
                } else {
                    proof {
                        // Between the vacant bucket and this one the walk cannot
                        // come round to the home of what it carries.
                        lemma_vacancy_behind(t, pos as int, v);
                    }
                }
                proof {
                    lemma_home_bound(c_hash, n);
                }
                probe.advance();
                c_d = c_d + 1;
                proof {
                    k = k + 1;
                }
            },
        }
    }
}

} // verus!
