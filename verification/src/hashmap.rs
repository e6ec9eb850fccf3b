//! The hash table: a bucket index in Robin Hood order over entries that lie in
//! an arena, each entry a key behind its length and, right after it, a value.

use crate::arena::{copy_into, overlay, record, slice_window_mut, Addr, Arena, PAGE_SIZE};
use crate::lookup::{lemma_distinct_keys, lemma_put_counts_once, put_all, value_in};
use crate::murmurhash2::{hash_of, murmurhash2};
use crate::table::{ahead, count, dist, distance, distinct, entries, holds_addr, home, in_table};
use crate::table::{landing, ordered, place, rebuilt, robin_hood};
use crate::table::{power_of_two, prev, reach, Bucket, HashKey, Probe};
use crate::table::{lemma_count_prefix, lemma_count_vacancy, lemma_count_vacant, lemma_double};
use crate::table::{lemma_entries_prefix, lemma_entries_vacant, lemma_vacant_ordered};
use crate::table::{lemma_home_bound, lemma_reach_bound, lemma_run, lemma_vacancy_behind};
use crate::value::Value;
use crate::vint::{lemma_encode_len, vint_len, write_vint};
use std::marker::PhantomData;
use vstd::prelude::*;
use vstd::slice::slice_subrange;

verus! {

/// The number of keys that `HashMap::new` makes room for.
pub const DEFAULT_CAPACITY: usize = 1_048_576;

/// The number of buckets per key that the index keeps at least.
pub const CAPACITY_RATIO: usize = 4;

/// A hash table from byte strings to values of fixed size. Its view is the map
/// from each key to its value.
pub struct HashMap<V> {
    key_addr: Vec<Bucket>,
    arena: Arena,
    data: PhantomData<V>,
    len: usize,
    index: Ghost<Map<Seq<u8>, Addr>>,
}

/// Where a search ended: at the bucket of the key, or at the bucket where the
/// key would go, so many steps from its home.
enum Slot {
    Found { pos: usize, addr: Addr },
    Missing { pos: usize, d: usize },
}

/// Whether two slices hold the same bytes.
pub fn eq_slice(left: &[u8], right: &[u8]) -> (same: bool)
    ensures
        same == (left@ == right@),
{
    if left.len() != right.len() {
        return false;
    }
    let n = left.len();
    let mut i: usize = 0;
    while i < n
        invariant
            n == left@.len(),
            n == right@.len(),
            i <= n,
            forall|j: int| 0 <= j < i ==> left@[j] == right@[j],
        decreases n - i,
    {
        if left[i] != right[i] {
            return false;
        }
        i += 1;
    }
    assert(left@ =~= right@);
    true
}

/// Two ranges of bytes that share no byte.
pub open spec fn apart(a1: Addr, l1: nat, a2: Addr, l2: nat) -> bool {
    a1.page() != a2.page() || a1.offset() + l1 <= a2.offset() || a2.offset() + l2 <= a1.offset()
}

impl<V: Value> View for HashMap<V> {
    type V = Map<Seq<u8>, V>;

    closed spec fn view(&self) -> Map<Seq<u8>, V> {
        Map::new(|k: Seq<u8>| self.index@.contains_key(k), |k: Seq<u8>| self.value_of(k))
    }
}

impl<V: Value> HashMap<V> {
    /// The number of bytes that the entry of `key` takes in the arena.
    pub open spec fn entry_len(key: Seq<u8>) -> nat {
        record(key).len() + V::size()
    }

    /// The address of the entry of each key.
    pub closed spec fn addresses(&self) -> Map<Seq<u8>, Addr> {
        self.index@
    }

    /// The arena in which the entries lie.
    pub closed spec fn store(&self) -> Arena {
        self.arena
    }

    /// The number of buckets of the index.
    pub closed spec fn buckets(&self) -> nat {
        self.key_addr@.len()
    }

    /// The buckets of the index.
    pub closed spec fn index(&self) -> Seq<Bucket> {
        self.key_addr@
    }

    /// The index after it was made to take one more key: as it is where the
    /// keys are fewer than a quarter of the buckets, and else with twice the
    /// buckets and every entry put in anew.
    pub open spec fn grown_index(&self) -> Seq<Bucket> {
        if self.len() < self.capacity() {
            self.index()
        } else {
            rebuilt(self.index(), (2 * self.buckets()) as usize, self.buckets())
        }
    }

    /// The number of steps from the home of `key` at which the search for it
    /// ends in the index `t`, where `t` does not hold the key.
    pub open spec fn landing_of(t: Seq<Bucket>, key: Seq<u8>) -> int {
        landing(t, home(hash_of(key), t.len() as usize), 0, t.len())
    }

    /// The bucket at which the search for `key` ends in the index `t`, where
    /// `t` does not hold the key.
    pub open spec fn landing_bucket(t: Seq<Bucket>, key: Seq<u8>) -> int {
        ahead(home(hash_of(key), t.len() as usize), Self::landing_of(t, key), t.len() as int)
    }

    /// The bytes of the entry of `k`.
    spec fn entry_of(&self, k: Seq<u8>) -> Seq<u8> {
        self.arena.bytes(self.index@[k], Self::entry_len(k))
    }

    /// The value that the entry of `k` holds.
    spec fn value_of(&self, k: Seq<u8>) -> V {
        V::from_bytes(self.entry_of(k).subrange(record(k).len() as int, Self::entry_len(k) as int))
    }

    /// The entry of `k` was handed out by the arena and starts with the key
    /// behind its length.
    spec fn stored(&self, k: Seq<u8>) -> bool {
        &&& self.arena.holds(self.index@[k], Self::entry_len(k))
        &&& self.arena.holds_slice(self.index@[k], k)
    }

    /// The bucket that stands for `k` in the index.
    spec fn bucket_of(&self, k: Seq<u8>) -> Bucket {
        Bucket::Occupied { hash: hash_of(k), addr: self.index@[k] }
    }

    /// `b` stands for a key of the table.
    spec fn listed(&self, b: Bucket) -> bool {
        exists|k: Seq<u8>| #[trigger] self.index@.contains_key(k) && b == self.bucket_of(k)
    }

    /// The invariant of the table. The index has a power-of-two number of
    /// buckets, at least four for each key, and is in Robin Hood order; each key
    /// has one bucket, and each occupied bucket stands for a key, with the hash
    /// of that key; each key has its entry in the arena, and no two entries
    /// share a byte.
    #[verifier::opaque]
    pub closed spec fn wf(&self) -> bool {
        let t = self.key_addr@;
        &&& self.arena.wf()
        &&& t.len() >= 4
        &&& power_of_two(self.key_addr.len())
        &&& ordered(t)
        &&& distinct(t)
        &&& count(t) == self.len
        &&& self.len <= t.len() / 4
        &&& self.index@.dom().finite()
        &&& self.index@.dom().len() == self.len
        &&& forall|k: Seq<u8>| #[trigger] self.index@.contains_key(k) ==> self.stored(k)
        &&& forall|k: Seq<u8>| #[trigger] self.index@.contains_key(k) ==> in_table(t, self.bucket_of(k))
        &&& forall|i: int| 0 <= i < t.len() && (#[trigger] t[i]) is Occupied ==> self.listed(t[i])
        &&& forall|k1: Seq<u8>, k2: Seq<u8>|
            #[trigger] self.index@.contains_key(k1) && #[trigger] self.index@.contains_key(k2) && k1
                != k2 ==> apart(
                self.index@[k1],
                Self::entry_len(k1),
                self.index@[k2],
                Self::entry_len(k2),
            )
    }

    proof fn lemma_inv_basics(&self)
        requires
            self.wf(),
        ensures
            self.arena.wf(),
            self.key_addr@.len() >= 4,
            power_of_two(self.key_addr.len()),
            ordered(self.key_addr@),
            distinct(self.key_addr@),
            count(self.key_addr@) == self.len,
            self.len <= self.key_addr@.len() / 4,
            self.index@.dom().finite(),
            self.index@.dom().len() == self.len,
    {
        reveal(HashMap::wf);
    }

    /// An address of which the arena has handed out nothing is in no bucket.
    proof fn lemma_fresh(&self, addr: Addr)
        requires
            self.wf(),
            !self.arena.holds(addr, 1),
        ensures
            !holds_addr(self.key_addr@, addr),
    {
        if holds_addr(self.key_addr@, addr) {
            let i = choose|i: int|
                0 <= i < self.key_addr@.len() && (#[trigger] self.key_addr@[i]) is Occupied
                    && self.key_addr@[i]->addr == addr;
            self.lemma_inv_bucket(i);
            let k = choose|k: Seq<u8>| #[trigger]
                self.index@.contains_key(k) && self.key_addr@[i] == self.bucket_of(k);
            self.lemma_inv_key(k);
            lemma_encode_len(k.len());
        }
    }

    proof fn lemma_inv_key(&self, k: Seq<u8>)
        requires
            self.wf(),
            self.index@.contains_key(k),
        ensures
            self.stored(k),
            in_table(self.key_addr@, self.bucket_of(k)),
    {
        reveal(HashMap::wf);
    }

    proof fn lemma_inv_bucket(&self, i: int)
        requires
            self.wf(),
            0 <= i < self.key_addr@.len(),
            self.key_addr@[i] is Occupied,
        ensures
            self.listed(self.key_addr@[i]),
    {
        reveal(HashMap::wf);
    }

    proof fn lemma_inv_apart(&self, k1: Seq<u8>, k2: Seq<u8>)
        requires
            self.wf(),
            self.index@.contains_key(k1),
            self.index@.contains_key(k2),
            k1 != k2,
        ensures
            apart(self.index@[k1], Self::entry_len(k1), self.index@[k2], Self::entry_len(k2)),
    {
        reveal(HashMap::wf);
    }

    /// What the invariant lets a caller know: the table holds the keys that
    /// have an address, as many as `len` tells, each entry lies in the arena and
    /// starts with its key, no two entries share a byte, and there are four
    /// buckets for each key at least; the index is in Robin Hood order, and its
    /// entries are the keys of the table, each with its hash and the address of
    /// its entry, each in one bucket.
    pub proof fn lemma_wf(&self)
        requires
            self.wf(),
        ensures
            self.store().wf(),
            self@.dom() == self.addresses().dom(),
            self@.dom().finite(),
            self@.dom().len() == self.len(),
            self.len() <= self.capacity(),
            self.buckets() == 4 * self.capacity(),
            self.buckets() == self.index().len(),
            self.buckets() <= usize::MAX,
            power_of_two(self.buckets() as usize),
            ordered(self.index()),
            distinct(self.index()),
            count(self.index()) == self.len(),
            forall|b: Bucket|
                entries(self.index()).contains(b) <==> exists|k: Seq<u8>| #[trigger]
                    self@.contains_key(k) && b == (Bucket::Occupied {
                        hash: hash_of(k),
                        addr: self.addresses()[k],
                    }),
            forall|k: Seq<u8>| #[trigger]
                self@.contains_key(k) ==> self.store().holds(self.addresses()[k], Self::entry_len(k))
                    && self.store().holds_slice(self.addresses()[k], k),
            forall|k1: Seq<u8>, k2: Seq<u8>|
                #[trigger] self@.contains_key(k1) && #[trigger] self@.contains_key(k2) && k1 != k2
                    ==> apart(
                    self.addresses()[k1],
                    Self::entry_len(k1),
                    self.addresses()[k2],
                    Self::entry_len(k2),
                ),
    {
        reveal(HashMap::wf);
        assert(self@.dom() =~= self.index@.dom());
        let n = self.key_addr.len();
        assert(n % 4 == 0) by (bit_vector)
            requires
                n >= 4,
                n & ((n - 1) as usize) == 0,
        ;
        let t = self.key_addr@;
        assert forall|b: Bucket| entries(t).contains(b) <==> exists|k: Seq<u8>| #[trigger]
                self@.contains_key(k) && b == (Bucket::Occupied {
                    hash: hash_of(k),
                    addr: self.addresses()[k],
                }) by {
            if entries(t).contains(b) {
                let i = choose|i: int| 0 <= i < t.len() && #[trigger] t[i] == b;
                assert(self.listed(t[i]));
                let k = choose|k: Seq<u8>| #[trigger]
                    self.index@.contains_key(k) && b == self.bucket_of(k);
                assert(self@.contains_key(k) && b == (Bucket::Occupied {
                    hash: hash_of(k),
                    addr: self.addresses()[k],
                }));
            }
            if exists|k: Seq<u8>| #[trigger]
                self@.contains_key(k) && b == (Bucket::Occupied {
                    hash: hash_of(k),
                    addr: self.addresses()[k],
                }) {
                let k = choose|k: Seq<u8>| #[trigger]
                    self@.contains_key(k) && b == (Bucket::Occupied {
                        hash: hash_of(k),
                        addr: self.addresses()[k],
                    });
                assert(self.index@.contains_key(k));
                assert(in_table(t, self.bucket_of(k)));
            }
        }
    }

    /// The number of keys.
    pub closed spec fn spec_len(&self) -> usize {
        self.len
    }

    /// The number of keys that the index takes before it grows.
    pub closed spec fn spec_capacity(&self) -> usize {
        self.key_addr.len() / 4
    }

    /// An empty table with room for `DEFAULT_CAPACITY` keys.
    pub fn new() -> (map: HashMap<V>)
        ensures
            map.wf(),
            map@ == Map::<Seq<u8>, V>::empty(),
            map.len() == 0,
            map.capacity() == DEFAULT_CAPACITY,
            map.index() == Seq::new((CAPACITY_RATIO * DEFAULT_CAPACITY) as nat, |i: int| Bucket::Vacant),
            map.store()@.len() == 1,
            map.store()@[0].used == 1,
    {
        assert(power_of_two(4_194_304usize)) by {
            assert(4_194_304usize & ((4_194_304usize - 1) as usize) == 0) by (bit_vector);
        }
        HashMap::with_capacity(DEFAULT_CAPACITY)
    }

    /// An empty table with room for `capacity` keys. Four times `capacity` is a
    /// power of two.
    pub fn with_capacity(capacity: usize) -> (map: HashMap<V>)
        requires
            capacity * CAPACITY_RATIO <= usize::MAX,
            power_of_two((capacity * CAPACITY_RATIO) as usize),
        ensures
            map.wf(),
            map@ == Map::<Seq<u8>, V>::empty(),
            map.len() == 0,
            map.capacity() == capacity,
            map.index() == Seq::new((CAPACITY_RATIO * capacity) as nat, |i: int| Bucket::Vacant),
            map.store()@.len() == 1,
            map.store()@[0].used == 1,
    {
        let table_len = capacity * CAPACITY_RATIO;
        let map = HashMap {
            key_addr: vec![Bucket::Vacant; table_len],
            arena: Arena::new(),
            data: PhantomData,
            len: 0,
            index: Ghost(Map::empty()),
        };
        proof {
            reveal(HashMap::wf);
            assert(map.key_addr@ =~= Seq::new((CAPACITY_RATIO * capacity) as nat, |i: int| Bucket::Vacant));
            lemma_count_vacant(map.key_addr@);
            assert(map@ =~= Map::<Seq<u8>, V>::empty());
            lemma_vacant_ordered(map.key_addr@);
        }
        map
    }

    /// The number of keys that the index takes before it grows: a quarter of
    /// its buckets.
    #[verifier::when_used_as_spec(spec_capacity)]
    pub fn capacity(&self) -> (n: usize)
        ensures
            n == self.spec_capacity(),
    {
        self.key_addr.len() / CAPACITY_RATIO
    }

    /// The number of keys.
    #[verifier::when_used_as_spec(spec_len)]
    pub fn len(&self) -> (n: usize)
        ensures
            n == self.spec_len(),
    {
        self.len
    }

    /// The hash of a key.
    pub fn make_hash(&self, key: &[u8]) -> (hash: HashKey)
        ensures
            hash == hash_of(key@),
    {
        murmurhash2(key)
    }

    /// Bucket `pos` is where an entry with `hash` can be put, `d` steps from
    /// its home, without breaking Robin Hood order before it.
    spec fn opening(&self, hash: HashKey, pos: usize, d: usize) -> bool {
        let t = self.key_addr@;
        &&& pos < t.len()
        &&& d == dist(pos as int, home(hash, self.key_addr.len()), t.len() as int)
        &&& d <= reach(t, prev(pos as int, t.len() as int)) + 1
        &&& d == landing(t, home(hash, self.key_addr.len()), 0, t.len())
    }

    /// Two keys of the table have their entries at two addresses.
    proof fn lemma_addr_tells_key(&self, k1: Seq<u8>, k2: Seq<u8>)
        requires
            self.wf(),
            self.index@.contains_key(k1),
            self.index@.contains_key(k2),
            self.index@[k1] == self.index@[k2],
        ensures
            k1 == k2,
    {
        lemma_encode_len(k1.len());
        lemma_encode_len(k2.len());
        self.lemma_inv_key(k1);
        self.lemma_inv_key(k2);
        if k1 != k2 {
            self.lemma_inv_apart(k1, k2);
        }
    }

    /// What an occupied bucket tells: at its address lies a key of the table,
    /// whose entry that address is and whose hash the bucket holds.
    proof fn lemma_bucket_key(&self, pos: int, hash: HashKey, addr: Addr)
        requires
            self.wf(),
            0 <= pos < self.key_addr@.len(),
            self.key_addr@[pos] == (Bucket::Occupied { hash, addr }),
        ensures
            self.arena.wf(),
            self.arena.is_slice_at(addr),
            self.index@.contains_key(self.arena.slice_at(addr)),
            self.index@[self.arena.slice_at(addr)] == addr,
            hash == hash_of(self.arena.slice_at(addr)),
    {
        self.lemma_inv_basics();
        self.lemma_inv_bucket(pos);
        let owner = choose|k: Seq<u8>| #[trigger]
            self.index@.contains_key(k) && self.key_addr@[pos] == self.bucket_of(k);
        self.lemma_inv_key(owner);
        self.arena.lemma_slice_round_trip(addr, owner);
    }

    /// One step of the walk past a bucket that is not that of the key and whose
    /// occupant lies no nearer to its home than the walk has come.
    proof fn lemma_walk_on(&self, hash: HashKey, key: Seq<u8>, pos: int, d: int, v: int)
        requires
            self.wf(),
            0 <= pos < self.key_addr@.len(),
            0 <= v < self.key_addr@.len(),
            self.key_addr@[v] is Vacant,
            d == dist(pos, home(hash, self.key_addr.len()), self.key_addr@.len() as int),
            reach(self.key_addr@, pos) >= d,
            self.index@.contains_key(key) ==> self.key_addr@[pos] != self.bucket_of(key),
            forall|q: int|
                self.index@.contains_key(key) && 0 <= q < self.key_addr@.len() && dist(
                    q,
                    home(hash, self.key_addr.len()),
                    self.key_addr@.len() as int,
                ) < d ==> #[trigger] self.key_addr@[q] != self.bucket_of(key),
        ensures
            ({
                let n = self.key_addr@.len() as int;
                let from = home(hash, self.key_addr.len());
                let next = ahead(pos, 1, n);
                &&& d + 1 < n
                &&& landing(self.key_addr@, from, d, (n - d) as nat) == landing(
                    self.key_addr@,
                    from,
                    d + 1,
                    (n - d - 1) as nat,
                )
                &&& d + 1 == dist(next, from, n)
                &&& d + 1 <= reach(self.key_addr@, prev(next, n)) + 1
                &&& dist(v, next, n) < dist(v, pos, n)
                &&& forall|q: int|
                    self.index@.contains_key(key) && 0 <= q < n && dist(q, from, n) < d + 1
                        ==> #[trigger] self.key_addr@[q] != self.bucket_of(key)
            }),
    {
        let t = self.key_addr@;
        let n = t.len() as int;
        self.lemma_inv_basics();
        lemma_home_bound(hash, self.key_addr.len());
        // Between the vacant bucket and this one the walk cannot come round to
        // the home of the key.
        lemma_vacancy_behind(t, pos, v);
    }

    /// Walks from the home of `hash` to the bucket of `key`, or to the first
    /// bucket that is vacant or whose occupant lies nearer to its own home than
    /// the walk has come: in Robin Hood order the key then lies nowhere.
    fn find(&self, hash: HashKey, key: &[u8]) -> (slot: Slot)
        requires
            self.wf(),
            hash == hash_of(key@),
        ensures
            match slot {
                Slot::Found { pos, addr } => {
                    &&& self.index@.contains_key(key@)
                    &&& self.index@[key@] == addr
                    &&& pos < self.key_addr@.len()
                    &&& self.key_addr@[pos as int] == (Bucket::Occupied { hash, addr })
                },
                Slot::Missing { pos, d } => {
                    &&& !self.index@.contains_key(key@)
                    &&& self.opening(hash, pos, d)
                },
            },
    {
        let n = self.key_addr.len();
        let ghost t = self.key_addr@;
        let ghost from = home(hash, n);
        proof {
            self.lemma_inv_basics();
            lemma_count_vacancy(t);
            lemma_home_bound(hash, n);
            lemma_reach_bound(t, prev(from, n as int));
        }
        let mut probe = Probe::new(hash, n);
        let mut d: usize = 0;
        let ghost v = choose|i: int| 0 <= i < t.len() && #[trigger] t[i] is Vacant;
        loop
            invariant
                self.wf(),
                power_of_two(n),
                hash == hash_of(key@),
                t == self.key_addr@,
                n == t.len(),
                from == home(hash, n),
                probe.wf(),
                probe.buckets() == n,
                0 <= v < n,
                t[v] is Vacant,
                d == dist(probe.position(), from, n as int),
                d <= reach(t, prev(probe.position(), n as int)) + 1,
                d < n,
                landing(t, from, 0, n as nat) == landing(t, from, d as int, (n - d) as nat),
                forall|q: int|
                    self.index@.contains_key(key@) && 0 <= q < n && dist(q, from, n as int) < d
                        ==> #[trigger] t[q] != self.bucket_of(key@),
            decreases dist(v, probe.position(), n as int),
        {
            let pos = probe.bucket();
            match self.key_addr[pos] {
                Bucket::Vacant => {
                    proof {
                        self.lemma_not_there(hash, key@, pos, d);
                    }
                    return Slot::Missing { pos, d };
                },
                Bucket::Occupied { hash: hash2, addr } => {
                    let d2 = distance(pos, hash2, n);
                    if d2 < d {
                        proof {
                            self.lemma_not_there(hash, key@, pos, d);
                        }
                        return Slot::Missing { pos, d };
                    }
                    proof {
                        self.lemma_bucket_key(pos as int, hash2, addr);
                    }
                    if hash2 == hash {
                        let (stored_key, _) = self.arena.read_slice(addr);
                        if eq_slice(key, stored_key) {
                            return Slot::Found { pos, addr };
                        }
                    }
                    proof {
                        if self.index@.contains_key(key@) && self.index@[key@] == addr {
                            self.lemma_addr_tells_key(key@, self.arena.slice_at(addr));
                        }
                        self.lemma_walk_on(hash, key@, pos as int, d as int, v);
                    }
                    probe.advance();
                    d = d + 1;
                },
            }
        }
    }

    /// A key has no entry where the walk from its home met, before any bucket of
    /// the key, a bucket that is vacant or whose occupant lies nearer to its own
    /// home than the walk had come.
    proof fn lemma_not_there(&self, hash: HashKey, key: Seq<u8>, pos: usize, d: usize)
        requires
            self.wf(),
            hash == hash_of(key),
            pos < self.key_addr@.len(),
            d == dist(pos as int, home(hash, self.key_addr.len()), self.key_addr@.len() as int),
            reach(self.key_addr@, pos as int) < d,
            forall|q: int|
                self.index@.contains_key(key) && 0 <= q < self.key_addr@.len() && dist(
                    q,
                    home(hash, self.key_addr.len()),
                    self.key_addr@.len() as int,
                ) < d ==> #[trigger] self.key_addr@[q] != self.bucket_of(key),
        ensures
            !self.index@.contains_key(key),
    {
        let t = self.key_addr@;
        let n = t.len() as int;
        self.lemma_inv_basics();
        if self.index@.contains_key(key) {
            let b = self.bucket_of(key);
            self.lemma_inv_key(key);
            let q = choose|q: int| 0 <= q < t.len() && #[trigger] t[q] == b;
            lemma_home_bound(hash, self.key_addr.len());
            let dq = reach(t, q);
            assert(dq >= d);
            lemma_run(t, q, dq - d);
            assert(dist(q, dq - d, n) == pos);
        }
    }

    /// Reads the value of the entry at `addr`, whose key is `key_len` long.
    fn read_value(&self, addr: Addr, key_len: usize, Ghost(k): Ghost<Seq<u8>>) -> (value: V)
        requires
            self.wf(),
            self.index@.contains_key(k),
            self.index@[k] == addr,
            key_len == k.len(),
        ensures
            value == self@[k],
    {
        proof {
            self.lemma_inv_basics();
            self.lemma_inv_key(k);
            lemma_encode_len(k.len());
        }
        let at = vint_len(key_len) + key_len;
        let size = V::byte_size();
        let entry = self.arena.get_slice(addr, at + size);
        V::load(slice_subrange(entry, at, at + size))
    }

    /// The value of `key`, if the table holds the key.
    pub fn get(&self, key: &[u8]) -> (value: Option<V>)
        requires
            self.wf(),
        ensures
            value == value_in(self@, key@),
    {
        let hash = self.make_hash(key);
        match self.find(hash, key) {
            Slot::Found { addr, .. } => Some(self.read_value(addr, key.len(), Ghost(key@))),
            Slot::Missing { .. } => None,
        }
    }

    /// Each occupied bucket of `after` stands for a key of `after`, where
    /// `after` keeps the keys of `before` at their addresses and each of its
    /// entries is one of `before` or stands for a key of `after`.
    proof fn lemma_buckets_listed(before: Self, after: Self)
        requires
            before.wf(),
            forall|k: Seq<u8>| #[trigger]
                before.index@.contains_key(k) ==> after.index@.contains_key(k) && after.index@[k]
                    == before.index@[k],
            forall|b: Bucket| #[trigger]
                entries(after.key_addr@).contains(b) ==> entries(before.key_addr@).contains(b)
                    || after.listed(b),
        ensures
            forall|i: int|
                0 <= i < after.key_addr@.len() && (#[trigger] after.key_addr@[i]) is Occupied
                    ==> after.listed(after.key_addr@[i]),
    {
        reveal(HashMap::wf);
        assert forall|i: int|
            0 <= i < after.key_addr@.len() && (#[trigger] after.key_addr@[i]) is Occupied implies after.listed(
            after.key_addr@[i],
        ) by {
            let b = after.key_addr@[i];
            assert(in_table(after.key_addr@, b));
            assert(entries(after.key_addr@).contains(b));
            if !after.listed(b) {
                assert(entries(before.key_addr@).contains(b));
                let j = choose|j: int| 0 <= j < before.key_addr@.len() && #[trigger] before.key_addr@[j] == b;
                assert(before.listed(before.key_addr@[j]));
                let w = choose|w: Seq<u8>| #[trigger]
                    before.index@.contains_key(w) && b == before.bucket_of(w);
                assert(after.index@.contains_key(w) && b == after.bucket_of(w));
            }
        }
    }

    /// Writing a value over that of a key changes that value in the view and
    /// nothing else.
    proof fn lemma_value_written(before: Self, after: Self, k: Seq<u8>, value: V)
        requires
            before.wf(),
            before.index@.contains_key(k),
            after.key_addr == before.key_addr,
            after.len == before.len,
            after.index == before.index,
            after.arena.wf(),
            before.arena.same_but(&after.arena, before.index@[k], Self::entry_len(k)),
            after.arena.bytes(before.index@[k], Self::entry_len(k)) == overlay(
                before.arena.bytes(before.index@[k], Self::entry_len(k)),
                record(k).len() as int,
                value.to_bytes(),
            ),
        ensures
            after.wf(),
            after@ == before@.insert(k, value),
    {
        reveal(HashMap::wf);
        value.lemma_round_trip();
        let addr = before.index@[k];
        let total = Self::entry_len(k);
        let at = record(k).len();
        assert(before.stored(k));
        assert forall|k2: Seq<u8>| #[trigger] after.index@.contains_key(k2) implies after.stored(k2)
            && after.entry_of(k2) == (if k2 == k {
            record(k) + value.to_bytes()
        } else {
            before.entry_of(k2)
        }) by {
            assert(before.stored(k2));
            let a2 = before.index@[k2];
            if k2 == k {
                assert(after.arena.bytes(addr, at) =~= after.arena.bytes(addr, total).subrange(
                    0,
                    at as int,
                ));
                assert(before.arena.bytes(addr, at) =~= before.arena.bytes(addr, total).subrange(
                    0,
                    at as int,
                ));
                assert(after.arena.bytes(addr, at) =~= before.arena.bytes(addr, at));
                assert(after.entry_of(k) =~= record(k) + value.to_bytes());
            } else {
                before.arena.lemma_same_but_keeps(&after.arena, addr, total, a2, Self::entry_len(k2));
                before.arena.lemma_same_but_keeps(&after.arena, addr, total, a2, record(k2).len());
            }
        }
        assert forall|k2: Seq<u8>| #[trigger] after.index@.contains_key(k2) implies in_table(
            after.key_addr@,
            after.bucket_of(k2),
        ) by {
            assert(in_table(before.key_addr@, before.bucket_of(k2)));
        }
        Self::lemma_buckets_listed(before, after);
        assert(after.wf());
        assert forall|k2: Seq<u8>| after@.contains_key(k2) implies #[trigger] after@[k2]
            == before@.insert(k, value)[k2] by {
            assert(after.index@.contains_key(k2));
            if k2 == k {
                assert((record(k) + value.to_bytes()).subrange(at as int, total as int)
                    =~= value.to_bytes());
            }
        }
        assert(after@ =~= before@.insert(k, value));
    }

    /// Writes `value` over the value of the entry at `addr`, whose key is
    /// `key_len` long.
    fn write_value(&mut self, addr: Addr, key_len: usize, value: V, Ghost(k): Ghost<Seq<u8>>)
        requires
            old(self).wf(),
            old(self).index@.contains_key(k),
            old(self).index@[k] == addr,
            key_len == k.len(),
        ensures
            final(self).wf(),
            final(self)@ == old(self)@.insert(k, value),
            final(self).index == old(self).index,
            final(self).key_addr == old(self).key_addr,
            final(self).len == old(self).len,
            old(self).arena.same_but(&final(self).arena, addr, Self::entry_len(k)),
    {
        proof {
            self.lemma_inv_basics();
            self.lemma_inv_key(k);
            lemma_encode_len(k.len());
            value.lemma_round_trip();
        }
        let at = vint_len(key_len) + key_len;
        let size = V::byte_size();
        let entry = self.arena.get_mut_slice(addr, at + size);
        value.store(slice_window_mut(entry, at, size));
        proof {
            Self::lemma_value_written(*old(self), *self, k, value);
        }
    }

    /// A new entry in fresh bytes of the arena, with its bucket put into the
    /// index, adds its key and value to the view and changes nothing else.
    proof fn lemma_entry_added(before: Self, after: Self, key: Seq<u8>, value: V, addr: Addr)
        requires
            before.wf(),
            !before.index@.contains_key(key),
            before.len < before.key_addr@.len() / 4,
            after.len == before.len + 1,
            after.index@ == before.index@.insert(key, addr),
            after.key_addr@.len() == before.key_addr@.len(),
            ordered(after.key_addr@),
            distinct(after.key_addr@),
            count(after.key_addr@) == count(before.key_addr@) + 1,
            entries(after.key_addr@) == entries(before.key_addr@).insert(
                Bucket::Occupied { hash: hash_of(key), addr },
            ),
            after.arena.wf(),
            before.arena.extended_by(&after.arena),
            !before.arena.holds(addr, 1),
            after.arena.holds(addr, Self::entry_len(key)),
            after.arena.bytes(addr, Self::entry_len(key)) == record(key) + value.to_bytes(),
        ensures
            after.wf(),
            after@ == before@.insert(key, value),
    {
        reveal(HashMap::wf);
        value.lemma_round_trip();
        lemma_encode_len(key.len());
        let total = Self::entry_len(key);
        let at = record(key).len();
        let entry = Bucket::Occupied { hash: hash_of(key), addr };
        assert(after.arena.bytes(addr, at) =~= after.arena.bytes(addr, total).subrange(0, at as int));
        assert((record(key) + value.to_bytes()).subrange(0, at as int) =~= record(key));
        assert forall|k2: Seq<u8>| #[trigger] after.index@.contains_key(k2) implies after.stored(k2)
            && in_table(after.key_addr@, after.bucket_of(k2)) && after.entry_of(k2) == (if k2 == key {
            record(key) + value.to_bytes()
        } else {
            before.entry_of(k2)
        }) by {
            if k2 == key {
                assert(after.bucket_of(key) == entry);
                assert(entries(after.key_addr@).contains(entry));
            } else {
                assert(before.index@.contains_key(k2));
                assert(before.stored(k2));
                let a2 = before.index@[k2];
                lemma_encode_len(k2.len());
                before.arena.lemma_extended_keeps(&after.arena, a2, Self::entry_len(k2));
                before.arena.lemma_extended_keeps(&after.arena, a2, record(k2).len());
                assert(in_table(before.key_addr@, before.bucket_of(k2)));
                assert(entries(before.key_addr@).contains(before.bucket_of(k2)));
                assert(entries(after.key_addr@).contains(after.bucket_of(k2)));
            }
        }
        assert(after.index@.contains_key(key) && entry == after.bucket_of(key));
        assert(after.listed(entry));
        Self::lemma_buckets_listed(before, after);
        assert forall|k1: Seq<u8>, k2: Seq<u8>|
            #[trigger] after.index@.contains_key(k1) && #[trigger] after.index@.contains_key(k2)
                && k1 != k2 implies apart(
            after.index@[k1],
            Self::entry_len(k1),
            after.index@[k2],
            Self::entry_len(k2),
        ) by {
            if k1 != key {
                assert(before.index@.contains_key(k1));
                assert(before.stored(k1));
            }
            if k2 != key {
                assert(before.index@.contains_key(k2));
                assert(before.stored(k2));
            }
        }
        assert(after.index@.dom() =~= before.index@.dom().insert(key));
        assert(after.wf());
        assert forall|k2: Seq<u8>| after@.contains_key(k2) implies #[trigger] after@[k2]
            == before@.insert(key, value)[k2] by {
            assert(after.index@.contains_key(k2));
            if k2 == key {
                assert((record(key) + value.to_bytes()).subrange(at as int, total as int)
                    =~= value.to_bytes());
            }
        }
        assert(after@ =~= before@.insert(key, value));
    }

    /// Writes a new entry for `key` with `value` into the arena and puts its
    /// bucket into the index, from bucket `bucket_addr` on, which lies `d` steps
    /// from the home of `hash`. Gives the address of the entry.
    fn insert_key_value(&mut self, bucket_addr: usize, d: usize, hash: HashKey, key: &[u8], value: V) -> (addr: Addr)
        requires
            old(self).wf(),
            hash == hash_of(key@),
            !old(self).index@.contains_key(key@),
            old(self).opening(hash, bucket_addr, d),
            old(self).len < old(self).key_addr@.len() / 4,
            Self::entry_len(key@) < PAGE_SIZE,
            old(self).arena.has_room(Self::entry_len(key@)),
        ensures
            final(self).wf(),
            final(self)@ == old(self)@.insert(key@, value),
            final(self).index@ == old(self).index@.insert(key@, addr),
            final(self).len == old(self).len + 1,
            final(self).key_addr@ == robin_hood(
                old(self).key_addr@,
                bucket_addr as int,
                hash,
                addr,
                d as int,
                old(self).key_addr@.len(),
            ),
            final(self).key_addr@.len() == old(self).key_addr@.len(),
            entries(final(self).key_addr@) == entries(old(self).key_addr@).insert(
                Bucket::Occupied { hash, addr },
            ),
            old(self).arena.allocation(
                &final(self).arena,
                Self::entry_len(key@),
                addr,
                record(key@) + value.to_bytes(),
            ),
    {
        proof {
            self.lemma_inv_basics();
            lemma_encode_len(key@.len());
            value.lemma_round_trip();
        }
        let key_len = key.len();
        let at = vint_len(key_len);
        let size = V::byte_size();
        let (addr, entry) = self.arena.allocate(at + key_len + size);
        write_vint(slice_window_mut(entry, 0, at), key_len);
        copy_into(entry, at, key);
        value.store(slice_window_mut(entry, at + key_len, size));
        proof {
            assert(entry@ =~= record(key@) + value.to_bytes());
            old(self).lemma_fresh(addr);
        }
        place(&mut self.key_addr, bucket_addr, d, hash, addr);
        self.len = self.len + 1;
        self.index = Ghost(self.index@.insert(key@, addr));
        proof {
            Self::lemma_entry_added(*old(self), *self, key@, value, addr);
        }
        addr
    }

    /// An index that holds the same buckets in another order, over the same
    /// arena, makes the same table.
    proof fn lemma_rebuilt(before: Self, after: Self)
        requires
            before.wf(),
            after.arena == before.arena,
            after.index == before.index,
            after.len == before.len,
            after.key_addr@.len() >= 4,
            power_of_two(after.key_addr.len()),
            after.len <= after.key_addr@.len() / 4,
            ordered(after.key_addr@),
            distinct(after.key_addr@),
            count(after.key_addr@) == count(before.key_addr@),
            entries(after.key_addr@) == entries(before.key_addr@),
        ensures
            after.wf(),
            after@ == before@,
    {
        reveal(HashMap::wf);
        assert forall|k: Seq<u8>| #[trigger] after.index@.contains_key(k) implies after.stored(k)
            && in_table(after.key_addr@, after.bucket_of(k)) by {
            assert(before.stored(k));
            assert(in_table(before.key_addr@, before.bucket_of(k)));
            assert(entries(before.key_addr@).contains(before.bucket_of(k)));
            assert(entries(after.key_addr@).contains(after.bucket_of(k)));
        }
        Self::lemma_buckets_listed(before, after);
        assert(after.wf());
        assert(after@ =~= before@);
    }

    /// Replaces the index by one of `new_size` buckets and puts every entry
    /// into it anew. The arena is not touched.
    fn resize_table(&mut self, new_size: usize)
        requires
            old(self).wf(),
            power_of_two(new_size),
            new_size >= 4,
            old(self).len <= new_size / 4,
        ensures
            final(self).wf(),
            final(self)@ == old(self)@,
            final(self).index == old(self).index,
            final(self).arena == old(self).arena,
            final(self).len == old(self).len,
            final(self).key_addr@.len() == new_size,
            final(self).key_addr@ == rebuilt(old(self).key_addr@, new_size, old(self).key_addr@.len()),
            entries(final(self).key_addr@) == entries(old(self).key_addr@),
            count(final(self).key_addr@) == count(old(self).key_addr@),
    {
        proof {
            self.lemma_inv_basics();
        }
        let mut old_key_addr = vec![Bucket::Vacant; new_size];
        proof {
            assert(old_key_addr@ =~= Seq::new(new_size as nat, |j: int| Bucket::Vacant));
            lemma_count_vacant(old_key_addr@);
            lemma_vacant_ordered(old_key_addr@);
        }
        std::mem::swap(&mut self.key_addr, &mut old_key_addr);
        let old_len = old_key_addr.len();
        let ghost before = old_key_addr@;
        let mut i: usize = 0;
        proof {
            lemma_count_prefix(before, 0);
            lemma_count_vacant(before.take(0));
            lemma_entries_vacant(before.take(0));
            lemma_entries_vacant(self.key_addr@);
        }
        while i < old_len
            invariant
                i <= old_len,
                old_len == before.len(),
                before == old_key_addr@,
                before == old(self).key_addr@,
                self.arena == old(self).arena,
                self.index == old(self).index,
                self.len == old(self).len,
                count(before) == self.len,
                self.len <= new_size / 4,
                new_size >= 4,
                power_of_two(new_size),
                self.key_addr@.len() == new_size,
                ordered(self.key_addr@),
                distinct(self.key_addr@),
                distinct(before),
                count(self.key_addr@) == count(before.take(i as int)),
                entries(self.key_addr@) == entries(before.take(i as int)),
                self.key_addr@ == rebuilt(before, new_size, i as nat),
            decreases old_len - i,
        {
            let ghost t = self.key_addr@;
            proof {
                lemma_count_prefix(before, i as int);
                lemma_count_prefix(before, i as int + 1);
            }
            match old_key_addr[i] {
                Bucket::Occupied { hash, addr } => {
                    let probe = Probe::new(hash, new_size);
                    proof {
                        lemma_home_bound(hash, new_size);
                        lemma_reach_bound(t, prev(probe.position(), new_size as int));
                        if holds_addr(t, addr) {
                            let j = choose|j: int|
                                0 <= j < t.len() && (#[trigger] t[j]) is Occupied && t[j]->addr
                                    == addr;
                            assert(in_table(t, t[j]));
                            assert(entries(t).contains(t[j]));
                            assert(entries(before.take(i as int)).contains(t[j]));
                            let q = choose|q: int|
                                0 <= q < before.take(i as int).len() && #[trigger] before.take(
                                    i as int,
                                )[q] == t[j];
                            assert(before[q] is Occupied && before[i as int] is Occupied);
                        }
                    }
                    place(&mut self.key_addr, probe.bucket(), 0, hash, addr);
                },
                Bucket::Vacant => {},
            }
            proof {
                lemma_entries_prefix(before, i as int);
            }
            i = i + 1;
        }
        proof {
            assert(before.take(old_len as int) =~= before);
            Self::lemma_rebuilt(*old(self), *self);
        }
    }

    /// A key that was put in keeps the address of its entry when another key is
    /// put in, and when the index grows: addresses are only ever added.
    pub proof fn lemma_addresses_stay(&self, after: &Self, key: Seq<u8>, other: Seq<u8>, addr: Addr)
        requires
            self.wf(),
            self@.contains_key(key),
            after.addresses() == self.addresses() || (!self@.contains_key(other)
                && after.addresses() == self.addresses().insert(other, addr)),
        ensures
            after.addresses().contains_key(key),
            after.addresses()[key] == self.addresses()[key],
    {
        self.lemma_wf();
    }

    /// Putting in a key a second time changes its value and not the number of
    /// keys: of three tables, each the one before with the same key put in, the
    /// second and the third hold as many keys, one more than the first where
    /// the first did not hold the key.
    pub proof fn lemma_same_key_counts_once(&self, second: &Self, third: &Self, key: Seq<u8>, v: V, w: V)
        requires
            self.wf(),
            second.wf(),
            third.wf(),
            second@ == self@.insert(key, v),
            third@ == second@.insert(key, w),
        ensures
            second.len() == self.len() + (if self@.contains_key(key) {
                0int
            } else {
                1int
            }),
            third.len() == second.len(),
            third@ == self@.insert(key, w),
    {
        self.lemma_wf();
        second.lemma_wf();
        third.lemma_wf();
        lemma_put_counts_once(self@, key, v, w);
    }

    /// A table into which `n` keys, no two of them the same, were put, and
    /// nothing else, holds `n` keys and answers for each the value that it was
    /// put in with.
    pub proof fn lemma_holds_distinct_keys(&self, keys: Seq<Seq<u8>>, values: Seq<V>, n: nat)
        requires
            self.wf(),
            n <= keys.len(),
            n <= values.len(),
            forall|i: int, j: int| 0 <= i < j < n ==> keys[i] != keys[j],
            self@ == put_all(Map::<Seq<u8>, V>::empty(), keys, values, n),
        ensures
            self.len() == n,
            forall|i: int| 0 <= i < n ==> value_in(self@, #[trigger] keys[i]) == Some(values[i]),
    {
        self.lemma_wf();
        lemma_distinct_keys(keys, values, n);
    }

    /// After `update` of `key`, which puts into the view the old value of the
    /// key, or else what `default_value` gives, changed once by
    /// `update_value`, the table answers that changed value for `key`; it
    /// answers for every other key what it answered before; and it holds one
    /// key more where it did not hold `key`, and else as many as before.
    pub proof fn lemma_update_then_get<F: Fn(&mut V), DefaultF: Fn() -> V>(
        &self,
        after: &Self,
        key: Seq<u8>,
        update_value: F,
        default_value: DefaultF,
    )
        requires
            self.wf(),
            after.wf(),
            self@.contains_key(key) ==> exists|v: &mut V|
                *v == self@[key] && #[trigger] call_ensures(update_value, (v,), ()) && after@
                    == self@.insert(key, *final(v)),
            !self@.contains_key(key) ==> exists|d: V, v: &mut V|
                #![trigger call_ensures(default_value, (), d), call_ensures(update_value, (v,), ())]
                call_ensures(default_value, (), d) && *v == d && call_ensures(
                    update_value,
                    (v,),
                    (),
                ) && after@ == self@.insert(key, *final(v)),
        ensures
            self@.contains_key(key) ==> exists|v: &mut V|
                *v == self@[key] && #[trigger] call_ensures(update_value, (v,), ()) && value_in(
                    after@,
                    key,
                ) == Some(*final(v)),
            !self@.contains_key(key) ==> exists|d: V, v: &mut V|
                #![trigger call_ensures(default_value, (), d), call_ensures(update_value, (v,), ())]
                call_ensures(default_value, (), d) && *v == d && call_ensures(
                    update_value,
                    (v,),
                    (),
                ) && value_in(after@, key) == Some(*final(v)),
            forall|other: Seq<u8>|
                other != key ==> #[trigger] value_in(after@, other) == value_in(self@, other),
            after.len() == self.len() + (if self@.contains_key(key) {
                0int
            } else {
                1int
            }),
    {
        self.lemma_wf();
        after.lemma_wf();
        if self@.contains_key(key) {
            let v = choose|v: &mut V|
                *v == self@[key] && #[trigger] call_ensures(update_value, (v,), ()) && after@
                    == self@.insert(key, *final(v));
            lemma_put_counts_once(self@, key, *final(v), *final(v));
        } else {
            let (d, v) = choose|d: V, v: &mut V|
                #![trigger call_ensures(default_value, (), d), call_ensures(update_value, (v,), ())]
                call_ensures(default_value, (), d) && *v == d && call_ensures(
                    update_value,
                    (v,),
                    (),
                ) && after@ == self@.insert(key, *final(v));
            lemma_put_counts_once(self@, key, *final(v), *final(v));
        }
    }

    /// After a key was put in through `entry` with `value`, the table answers
    /// `value` for it and holds one key more; it answers for every other key
    /// what it answered before.
    pub proof fn lemma_insert_then_get(&self, after: &Self, key: Seq<u8>, value: V)
        requires
            self.wf(),
            after.wf(),
            !self@.contains_key(key),
            after@ == self@.insert(key, value),
        ensures
            value_in(after@, key) == Some(value),
            forall|other: Seq<u8>|
                other != key ==> #[trigger] value_in(after@, other) == value_in(self@, other),
            after.len() == self.len() + 1,
    {
        self.lemma_wf();
        after.lemma_wf();
        lemma_put_counts_once(self@, key, value, value);
    }

    /// Growth loses nothing: a table whose index was grown over the same arena
    /// and the same addresses answers for every key what it answered before,
    /// from the same address, and holds as many keys.
    pub proof fn lemma_growth_keeps(&self, after: &Self, key: Seq<u8>)
        requires
            self.wf(),
            after.wf(),
            after.store() == self.store(),
            after.addresses() == self.addresses(),
            after@ == self@,
        ensures
            value_in(after@, key) == value_in(self@, key),
            self@.contains_key(key) ==> after.addresses()[key] == self.addresses()[key]
                && after.store().holds_slice(after.addresses()[key], key),
            after.len() == self.len(),
            entries(after.index()) == entries(self.index()),
    {
        self.lemma_wf();
        after.lemma_wf();
        assert(entries(after.index()) =~= entries(self.index()));
    }

    /// The index can take one more key, after growing if it has to.
    pub open spec fn can_grow(&self) -> bool {
        self.len() < self.capacity() || 2 * self.buckets() <= usize::MAX
    }

    /// The table can take `key` as a new key: the index can grow if it has to,
    /// and the arena grants the bytes of the entry.
    pub open spec fn has_room(&self, key: Seq<u8>) -> bool {
        &&& self.can_grow()
        &&& Self::entry_len(key) < PAGE_SIZE
        &&& self.store().has_room(Self::entry_len(key))
    }

    /// Whether the index can take one more key, after growing if it has to.
    pub fn has_room_to_grow(&self) -> (room: bool)
        requires
            self.wf(),
        ensures
            room == self.can_grow(),
    {
        let buckets = self.key_addr.len();
        self.len < buckets / CAPACITY_RATIO || buckets <= usize::MAX / 2
    }

    /// Whether the table can take `key` as a new key.
    pub fn has_room_for(&self, key: &[u8]) -> (room: bool)
        requires
            self.wf(),
        ensures
            room == self.has_room(key@),
    {
        proof {
            self.lemma_inv_basics();
            lemma_encode_len(key@.len());
        }
        let key_len = key.len();
        let size = V::byte_size();
        let buckets = self.key_addr.len();
        if self.len >= buckets / CAPACITY_RATIO && buckets > usize::MAX / 2 {
            return false;
        }
        if key_len >= PAGE_SIZE || size >= PAGE_SIZE {
            return false;
        }
        let total = vint_len(key_len) + key_len + size;
        total < PAGE_SIZE && self.arena.has_room_for(total)
    }

    /// Makes sure that the index takes one more key: where the keys would be
    /// more than a quarter of the buckets, the index is doubled first.
    pub fn ensure_capacity(&mut self)
        requires
            old(self).wf(),
            old(self).can_grow(),
        ensures
            final(self).wf(),
            final(self)@ == old(self)@,
            final(self).addresses() == old(self).addresses(),
            final(self).store() == old(self).store(),
            final(self).len() == old(self).len(),
            final(self).len() < final(self).capacity(),
            final(self).buckets() == (if old(self).len() < old(self).capacity() {
                old(self).buckets()
            } else {
                2 * old(self).buckets()
            }),
            final(self).index() == old(self).grown_index(),
            entries(final(self).index()) == entries(old(self).index()),
            count(final(self).index()) == count(old(self).index()),
    {
        proof {
            self.lemma_inv_basics();
        }
        if self.len + 1 > self.capacity() {
            proof {
                lemma_double(self.key_addr.len());
            }
            let new_len = self.key_addr.len() * 2;
            self.resize_table(new_len);
        }
    }

    /// Changes the value of `key` with `update_value`: in place where the table
    /// holds the key; where it does not, what `default_value` gives is changed
    /// by `update_value` and then stored in a new entry. So `update` does what
    /// `entry`, `or_insert` with the default, a change through the handle and
    /// `commit` do together. The index is grown first where it would not take
    /// one more key.
    pub fn update<F: Fn(&mut V), DefaultF: Fn() -> V>(
        &mut self,
        key: &[u8],
        update_value: F,
        default_value: DefaultF,
    )
        requires
            old(self).wf(),
            old(self).can_grow(),
            old(self)@.contains_key(key@) ==> forall|v: &mut V|
                *v == old(self)@[key@] ==> #[trigger] call_requires(update_value, (v,)),
            !old(self)@.contains_key(key@) ==> {
                &&& old(self).has_room(key@)
                &&& call_requires(default_value, ())
                &&& forall|d: V, v: &mut V|
                    #![trigger call_ensures(default_value, (), d), call_requires(update_value, (v,))]
                    call_ensures(default_value, (), d) && *v == d ==> call_requires(
                        update_value,
                        (v,),
                    )
            },
        ensures
            final(self).wf(),
            final(self).len() == old(self).len() + (if old(self)@.contains_key(key@) {
                0int
            } else {
                1int
            }),
            final(self).buckets() == (if old(self).len() < old(self).capacity() {
                old(self).buckets()
            } else {
                2 * old(self).buckets()
            }),
            old(self)@.contains_key(key@) ==> {
                &&& final(self).addresses() == old(self).addresses()
                &&& final(self).index() == old(self).grown_index()
                &&& entries(final(self).index()) == entries(old(self).index())
                &&& old(self).store().same_but(
                    &final(self).store(),
                    old(self).addresses()[key@],
                    Self::entry_len(key@),
                )
                &&& exists|v: &mut V|
                    *v == old(self)@[key@] && #[trigger] call_ensures(update_value, (v,), ())
                        && final(self)@ == old(self)@.insert(key@, *final(v))
            },
            !old(self)@.contains_key(key@) ==> {
                &&& final(self).addresses() == old(self).addresses().insert(
                    key@,
                    final(self).addresses()[key@],
                )
                &&& final(self).index() == robin_hood(
                    old(self).grown_index(),
                    Self::landing_bucket(old(self).grown_index(), key@),
                    hash_of(key@),
                    final(self).addresses()[key@],
                    Self::landing_of(old(self).grown_index(), key@),
                    old(self).grown_index().len(),
                )
                &&& entries(final(self).index()) == entries(old(self).index()).insert(
                    Bucket::Occupied { hash: hash_of(key@), addr: final(self).addresses()[key@] },
                )
                &&& exists|d: V, v: &mut V|
                    #![trigger call_ensures(default_value, (), d), call_ensures(update_value, (v,), ())]
                    call_ensures(default_value, (), d) && *v == d && call_ensures(
                        update_value,
                        (v,),
                        (),
                    ) && final(self)@ == old(self)@.insert(key@, *final(v)) && old(
                        self,
                    ).store().allocation(
                        &final(self).store(),
                        Self::entry_len(key@),
                        final(self).addresses()[key@],
                        record(key@) + (*final(v)).to_bytes(),
                    )
            },
    {
        proof {
            old(self).lemma_wf();
        }
        self.ensure_capacity();
        proof {
            self.lemma_wf();
        }
        let hash = self.make_hash(key);
        match self.find(hash, key) {
            Slot::Missing { pos, d } => {
                let mut value: V = default_value();
                update_value(&mut value);
                self.insert_key_value(pos, d, hash, key, value);
            },
            Slot::Found { addr, .. } => {
                let mut val: V = self.read_value(addr, key.len(), Ghost(key@));
                update_value(&mut val);
                self.write_value(addr, key.len(), val, Ghost(key@));
            },
        }
    }

    /// Looks `key` up for reading and writing: gives the handle on its value
    /// where the table holds the key, and else the place where it can be put in.
    /// The index is grown first where it would not take one more key.
    pub fn entry<'a>(&mut self, key: &'a [u8]) -> (entry: Entry<'a, V>)
        requires
            old(self).wf(),
            old(self).can_grow(),
        ensures
            final(self).wf(),
            final(self)@ == old(self)@,
            final(self).addresses() == old(self).addresses(),
            final(self).store() == old(self).store(),
            final(self).len() == old(self).len(),
            final(self).buckets() == (if old(self).len() < old(self).capacity() {
                old(self).buckets()
            } else {
                2 * old(self).buckets()
            }),
            final(self).index() == old(self).grown_index(),
            entries(final(self).index()) == entries(old(self).index()),
            match entry {
                Entry::Present(handler) => {
                    &&& old(self)@.contains_key(key@)
                    &&& handler.belongs_to(final(self))
                    &&& handler.key() == key@
                    &&& handler.value() == old(self)@[key@]
                },
                Entry::Absent(insertion) => {
                    &&& !old(self)@.contains_key(key@)
                    &&& insertion.fits(final(self))
                    &&& insertion.key() == key@
                    &&& insertion.bucket() == Self::landing_bucket(final(self).index(), key@)
                    &&& insertion.distance() == Self::landing_of(final(self).index(), key@)
                },
            },
    {
        self.ensure_capacity();
        proof {
            self.lemma_wf();
        }
        let hash = self.make_hash(key);
        match self.find(hash, key) {
            Slot::Missing { pos, d } => Entry::Absent(Insertion { key, hash, bucket_addr: pos, distance: d }),
            Slot::Found { addr, .. } => {
                let value = self.read_value(addr, key.len(), Ghost(key@));
                Entry::Present(Handler { addr, key_len: key.len(), value, key: Ghost(key@) })
            },
        }
    }
}

/// The handle on the value of one key: a copy of the value, to read and to
/// change, and the address of the entry to which `commit` writes the copy
/// back. The copy is written back as it is then: of two handles on one key the
/// one that is committed last wins.
pub struct Handler<V> {
    addr: Addr,
    key_len: usize,
    value: V,
    key: Ghost<Seq<u8>>,
}

impl<V: Value> Handler<V> {
    /// The key whose value the handle is on.
    pub closed spec fn key(&self) -> Seq<u8> {
        self.key@
    }

    /// The copy of the value that the handle holds.
    pub closed spec fn value(&self) -> V {
        self.value
    }

    /// The address of the entry.
    pub closed spec fn spec_addr(&self) -> Addr {
        self.addr
    }

    /// The handle knows how long its key is.
    pub closed spec fn wf(&self) -> bool {
        self.key_len == self.key@.len()
    }

    /// The handle is on a key of `map`, at the address of its entry.
    pub open spec fn belongs_to(&self, map: &HashMap<V>) -> bool {
        &&& self.wf()
        &&& map.addresses().contains_key(self.key())
        &&& map.addresses()[self.key()] == self.spec_addr()
    }

    /// The address of the entry.
    #[verifier::when_used_as_spec(spec_addr)]
    pub fn addr(&self) -> (addr: Addr)
        ensures
            addr == self.spec_addr(),
    {
        self.addr
    }

    /// The copy of the value.
    pub fn get(&self) -> (value: V)
        ensures
            value == self.value(),
    {
        self.value
    }

    /// Changes the copy of the value.
    pub fn set(&mut self, value: V)
        ensures
            final(self).value() == value,
            final(self).key() == old(self).key(),
            final(self).addr() == old(self).addr(),
            final(self).wf() == old(self).wf(),
    {
        self.value = value;
    }

    /// The copy of the value, for changing it in place.
    pub fn get_mut(&mut self) -> (value: &mut V)
        ensures
            *value == old(self).value(),
            final(self).value() == *final(value),
            final(self).key() == old(self).key(),
            final(self).addr() == old(self).addr(),
            final(self).wf() == old(self).wf(),
    {
        &mut self.value
    }

    /// Writes the copy of the value back to the entry, whatever the entry
    /// holds by now.
    pub fn commit(self, map: &mut HashMap<V>)
        requires
            old(map).wf(),
            self.belongs_to(old(map)),
        ensures
            final(map).wf(),
            final(map)@ == old(map)@.insert(self.key(), self.value()),
            final(map).addresses() == old(map).addresses(),
            final(map).len() == old(map).len(),
            final(map).index() == old(map).index(),
            old(map).store().same_but(
                &final(map).store(),
                self.addr(),
                HashMap::<V>::entry_len(self.key()),
            ),
    {
        map.write_value(self.addr, self.key_len, self.value, Ghost(self.key@));
    }
}

/// The place where a key that the table does not hold can be put in: the
/// key, its hash, and the bucket at which the search for it ended. It is good
/// for the table as `entry` left it, and for no other.
pub struct Insertion<'a> {
    key: &'a [u8],
    hash: HashKey,
    bucket_addr: usize,
    distance: usize,
}

impl<'a> Insertion<'a> {
    /// The key to put in.
    pub closed spec fn key(&self) -> Seq<u8> {
        self.key@
    }

    /// The bucket at which the search for the key ended.
    pub closed spec fn bucket(&self) -> int {
        self.bucket_addr as int
    }

    /// The number of steps from the home of the key to that bucket.
    pub closed spec fn distance(&self) -> int {
        self.distance as int
    }

    /// The place is good for `map` as it is: the key is not in it, the bucket
    /// is where the search for the key ends, and the index takes one more key.
    pub closed spec fn fits<V: Value>(&self, map: &HashMap<V>) -> bool {
        &&& self.hash == hash_of(self.key@)
        &&& !map.index@.contains_key(self.key@)
        &&& map.opening(self.hash, self.bucket_addr, self.distance)
        &&& map.len < map.key_addr@.len() / 4
    }

    /// A place that fits is that of a key that the table does not hold, in a
    /// table that takes one more key.
    pub proof fn lemma_fits<V: Value>(&self, map: &HashMap<V>)
        requires
            map.wf(),
            self.fits(map),
        ensures
            !map@.contains_key(self.key()),
            map.len() < map.capacity(),
            self.bucket() == HashMap::<V>::landing_bucket(map.index(), self.key()),
            self.distance() == HashMap::<V>::landing_of(map.index(), self.key()),
    {
        map.lemma_inv_basics();
        lemma_home_bound(self.hash, map.key_addr.len());
    }

    /// Writes the key and `value` into a new entry, puts its bucket into the
    /// index, moving on the entries that lie nearer to their homes, and gives
    /// the handle on the value.
    pub fn insert<V: Value>(self, map: &mut HashMap<V>, value: V) -> (handler: Handler<V>)
        requires
            old(map).wf(),
            self.fits(old(map)),
            HashMap::<V>::entry_len(self.key()) < PAGE_SIZE,
            old(map).store().has_room(HashMap::<V>::entry_len(self.key())),
        ensures
            final(map).wf(),
            final(map)@ == old(map)@.insert(self.key(), value),
            final(map).addresses() == old(map).addresses().insert(self.key(), handler.addr()),
            final(map).len() == old(map).len() + 1,
            final(map).index() == robin_hood(
                old(map).index(),
                self.bucket(),
                hash_of(self.key()),
                handler.addr(),
                self.distance(),
                old(map).buckets(),
            ),
            entries(final(map).index()) == entries(old(map).index()).insert(
                Bucket::Occupied { hash: hash_of(self.key()), addr: handler.addr() },
            ),
            old(map).store().allocation(
                &final(map).store(),
                HashMap::<V>::entry_len(self.key()),
                handler.addr(),
                record(self.key()) + value.to_bytes(),
            ),
            handler.belongs_to(final(map)),
            handler.key() == self.key(),
            handler.value() == value,
    {
        let addr = map.insert_key_value(self.bucket_addr, self.distance, self.hash, self.key, value);
        Handler { addr, key_len: self.key.len(), value, key: Ghost(self.key@) }
    }
}

/// What looking a key up for reading and writing gives.
pub enum Entry<'a, V> {
    /// The table holds the key: the handle on its value.
    Present(Handler<V>),
    /// The table does not hold the key: the place where it can be put in.
    Absent(Insertion<'a>),
}

impl<'a, V: Value> Entry<'a, V> {
    /// The handle on the value of the key, which is put in with `default` where
    /// the table does not hold it.
    pub fn or_insert(self, map: &mut HashMap<V>, default: V) -> (handler: Handler<V>)
        requires
            old(map).wf(),
            match self {
                Entry::Present(h) => h.belongs_to(old(map)),
                Entry::Absent(i) => i.fits(old(map)) && HashMap::<V>::entry_len(i.key()) < PAGE_SIZE
                    && old(map).store().has_room(HashMap::<V>::entry_len(i.key())),
            },
        ensures
            final(map).wf(),
            handler.belongs_to(final(map)),
            match self {
                Entry::Present(h) => handler == h && *final(map) == *old(map),
                Entry::Absent(i) => {
                    &&& handler.key() == i.key()
                    &&& handler.value() == default
                    &&& final(map)@ == old(map)@.insert(i.key(), default)
                    &&& final(map).addresses() == old(map).addresses().insert(i.key(), handler.addr())
                    &&& final(map).len() == old(map).len() + 1
                    &&& final(map).index() == robin_hood(
                        old(map).index(),
                        i.bucket(),
                        hash_of(i.key()),
                        handler.addr(),
                        i.distance(),
                        old(map).buckets(),
                    )
                    &&& old(map).store().allocation(
                        &final(map).store(),
                        HashMap::<V>::entry_len(i.key()),
                        handler.addr(),
                        record(i.key()) + default.to_bytes(),
                    )
                },
            },
    {
        match self {
            Entry::Present(handler) => handler,
            Entry::Absent(insertion) => insertion.insert(map, default),
        }
    }
}

} // verus!
