//! An open-addressing hash table with linear probing, tombstone deletion and
//! prime bucket counts.
//!
//! The table is not synchronised: it needs a single owner, or a lock supplied
//! by the caller, to be shared between threads.

pub use crate::hashing::{HasherDJB2, TableKey};
use crate::hashing::djb2;
use crate::prime::{is_prime, spec_is_prime};
use vstd::prelude::*;
use vstd::std_specs::cmp::PartialEqSpec;
use vstd::string::StringExecFns;

verus! {

/// The bucket count a table starts with, and below which it never shrinks.
pub const INITIAL_BASE_SIZE: usize = 53;

/// The state of one bucket.
#[derive(Clone)]
pub enum Slot<K, V> {
    Empty,
    /// A removed entry: probes continue past it, and insertion may reuse it.
    Tombstone,
    Occupied(K, V),
}

impl<K: View, V> Slot<K, V> {
    pub open spec fn is_free(&self) -> bool {
        !(self is Occupied)
    }

    /// The slot holds an entry whose key has view `k`.
    pub open spec fn holds(&self, k: K::V) -> bool {
        match self {
            Slot::Occupied(kk, _) => kk@ == k,
            _ => false,
        }
    }

    pub open spec fn key_view(&self) -> K::V {
        match self {
            Slot::Occupied(kk, _) => kk@,
            _ => arbitrary(),
        }
    }

    pub open spec fn value(&self) -> V {
        match self {
            Slot::Occupied(_, v) => *v,
            _ => arbitrary(),
        }
    }
}

/// The bucket where the probe for key `k` starts, in a table of `cap` buckets.
pub open spec fn home<K: TableKey>(k: K::V, cap: nat) -> int {
    (djb2(K::key_bytes(k)) as nat % cap) as int
}

/// The bucket `d` steps after bucket `h`, wrapping around at `cap`.
pub open spec fn probe_pos(h: int, d: int, cap: int) -> int {
    if h + d < cap {
        h + d
    } else {
        h + d - cap
    }
}

/// How many steps a probe from bucket `h` takes to reach bucket `i`.
pub open spec fn probe_dist(h: int, i: int, cap: int) -> int {
    if i >= h {
        i - h
    } else {
        i + cap - h
    }
}

/// A bucket count the table accepts: a prime, or, where no prime lies between
/// it and `usize::MAX`, any count.
pub open spec fn capacity_ok(cap: nat) -> bool {
    spec_is_prime(cap) || forall|p: nat| cap <= p <= usize::MAX ==> !#[trigger] spec_is_prime(p)
}

/// Inserting `n` new entries one after another into `cap` buckets never
/// finds the load factor above 70 percent, so never grows the table.
pub open spec fn fits_without_growth(n: nat, cap: nat) -> bool {
    n == 0 || (n - 1) * 100 / (cap as int) <= 70
}

/// The number of occupied slots.
pub open spec fn occupied_count<K: View, V>(s: Seq<Slot<K, V>>) -> nat
    decreases s.len(),
{
    if s.len() == 0 {
        0
    } else {
        occupied_count(s.drop_last()) + if s.last().is_free() {
            0nat
        } else {
            1nat
        }
    }
}

/// The map that a sequence of pairs describes, later pairs taking precedence.
pub open spec fn pairs_map<K: View, V>(s: Seq<(K, V)>) -> Map<K::V, V>
    decreases s.len(),
{
    if s.len() == 0 {
        Map::empty()
    } else {
        pairs_map(s.drop_last()).insert(s.last().0@, s.last().1)
    }
}

/// No two pairs of `s` have keys with the same view.
pub open spec fn distinct_keys<K: View, V>(s: Seq<(K, V)>) -> bool
    decreases s.len(),
{
    s.len() == 0 || (distinct_keys(s.drop_last()) && !pairs_map(s.drop_last()).contains_key(
        s.last().0@,
    ))
}

proof fn lemma_count_update<K: View, V>(s: Seq<Slot<K, V>>, i: int, x: Slot<K, V>)
    requires
        0 <= i < s.len(),
    ensures
        occupied_count(s.update(i, x)) + (if s[i].is_free() {
            0nat
        } else {
            1nat
        }) == occupied_count(s) + (if x.is_free() {
            0nat
        } else {
            1nat
        }),
    decreases s.len(),
{
    if i == s.len() - 1 {
        assert(s.update(i, x).drop_last() =~= s.drop_last());
    } else {
        assert(s.update(i, x).drop_last() =~= s.drop_last().update(i, x));
        lemma_count_update(s.drop_last(), i, x);
    }
}

proof fn lemma_count_free<K: View, V>(s: Seq<Slot<K, V>>)
    requires
        occupied_count(s) < s.len(),
    ensures
        exists|i: int| 0 <= i < s.len() && (#[trigger] s[i]).is_free(),
    decreases s.len(),
{
    if !s.last().is_free() {
        lemma_count_free(s.drop_last());
        let i = choose|i: int| 0 <= i < s.drop_last().len() && (#[trigger] s.drop_last()[i]).is_free();
        assert(s[i] == s.drop_last()[i]);
    } else {
        assert(s[s.len() - 1].is_free());
    }
}

proof fn lemma_count_all_empty<K: View, V>(s: Seq<Slot<K, V>>)
    requires
        forall|i: int| 0 <= i < s.len() ==> (#[trigger] s[i]) is Empty,
    ensures
        occupied_count(s) == 0,
    decreases s.len(),
{
    if s.len() > 0 {
        lemma_count_all_empty(s.drop_last());
    }
}

proof fn lemma_probe_cover(h: int, i: int, cap: int)
    requires
        0 <= h < cap,
        0 <= i < cap,
    ensures
        0 <= probe_dist(h, i, cap) < cap,
        probe_pos(h, probe_dist(h, i, cap), cap) == i,
{
}

proof fn lemma_pairs_len<K: View, V>(s: Seq<(K, V)>)
    requires
        distinct_keys(s),
    ensures
        pairs_map(s).dom().finite(),
        pairs_map(s).len() == s.len(),
    decreases s.len(),
{
    if s.len() > 0 {
        lemma_pairs_len(s.drop_last());
    }
}

/// The least bucket count from `start` on that is prime; where no prime lies
/// between `start` and `usize::MAX`, `start` itself.
fn next_prime_from(start: usize) -> (r: usize)
    ensures
        r >= start,
        capacity_ok(r as nat),
        forall|p: nat| start <= p < r ==> !#[trigger] spec_is_prime(p),
{
    let mut n = start;
    while n < usize::MAX && !is_prime(n)
        invariant
            start <= n,
            forall|p: nat| start <= p < n ==> !#[trigger] spec_is_prime(p),
        decreases usize::MAX - n,
    {
        n = n + 1;
    }
    if is_prime(n) {
        n
    } else {
        assert forall|p: nat| start <= p <= usize::MAX implies !#[trigger] spec_is_prime(p) by {
            if p == n {
            }
        }
        start
    }
}

/// What one probe step found.
enum Probe {
    /// The key sought.
    Hit,
    /// Another key: the probe goes on.
    Next,
    /// A tombstone: the probe goes on, and insertion may reuse the bucket.
    Reuse,
    /// An empty bucket: the key is absent.
    End,
}

/// A key/value table with open addressing and linear probing.
#[derive(Clone)]
pub struct HashTable<K: TableKey, V> {
    buckets: Vec<Slot<K, V>>,
    items: usize,
    /// The entries the table holds, by key view.
    map: Ghost<Map<K::V, V>>,
    /// The bucket of each entry.
    loc: Ghost<Map<K::V, int>>,
}

impl<K: TableKey, V> View for HashTable<K, V> {
    type V = Map<K::V, V>;

    closed spec fn view(&self) -> Map<K::V, V> {
        self.map@
    }
}

impl<K: TableKey, V> HashTable<K, V> {
    /// The number of buckets.
    pub closed spec fn spec_capacity(&self) -> nat {
        self.buckets@.len()
    }

    /// On the probe path from the home bucket of the entry in bucket `i` to `i`,
    /// no bucket is empty.
    pub closed spec fn chain_ok(&self, i: int) -> bool {
        let cap = self.buckets@.len() as int;
        let h = home::<K>(self.buckets@[i].key_view(), cap as nat);
        forall|e: int|
            0 <= e < probe_dist(h, i, cap) ==> !(#[trigger] self.buckets@[probe_pos(h, e, cap)] is Empty)
    }

    /// No bucket holds a tombstone.
    pub closed spec fn no_tombstones(&self) -> bool {
        forall|i: int| 0 <= i < self.buckets@.len() ==> !(#[trigger] self.buckets@[i] is Tombstone)
    }

    /// The table's invariant.
    pub closed spec fn wf(&self) -> bool {
        let cap = self.buckets@.len();
        &&& cap >= INITIAL_BASE_SIZE
        &&& capacity_ok(cap)
        &&& self.map@.dom().finite()
        &&& self.items == self.map@.len()
        &&& self.items == occupied_count(self.buckets@)
        &&& self.items < cap
        &&& self.loc@.dom() == self.map@.dom()
        &&& forall|k: K::V| #[trigger]
            self.map@.contains_key(k) ==> {
                &&& 0 <= self.loc@[k] < cap
                &&& self.buckets@[self.loc@[k]].holds(k)
                &&& self.buckets@[self.loc@[k]].value() == self.map@[k]
            }
        &&& forall|i: int|
            0 <= i < cap && !(#[trigger] self.buckets@[i]).is_free() ==> {
                &&& self.map@.contains_key(self.buckets@[i].key_view())
                &&& self.loc@[self.buckets@[i].key_view()] == i
                &&& self.chain_ok(i)
            }
    }

    /// A table of `cap` empty buckets.
    fn with_capacity(cap: usize) -> (r: Self)
        requires
            cap >= INITIAL_BASE_SIZE,
            capacity_ok(cap as nat),
        ensures
            r.wf(),
            r@ == Map::<K::V, V>::empty(),
            r.spec_capacity() == cap,
            r.no_tombstones(),
    {
        let mut buckets: Vec<Slot<K, V>> = Vec::new();
        let mut i: usize = 0;
        while i < cap
            invariant
                i <= cap,
                buckets@.len() == i,
                forall|j: int| 0 <= j < i ==> (#[trigger] buckets@[j]) is Empty,
            decreases cap - i,
        {
            buckets.push(Slot::Empty);
            i = i + 1;
        }
        proof {
            lemma_count_all_empty(buckets@);
        }
        HashTable { buckets, items: 0, map: Ghost(Map::empty()), loc: Ghost(Map::empty()) }
    }

    /// The bucket where the probe for `key` starts.
    fn find_index(&self, key: &K) -> (r: usize)
        requires
            self.buckets@.len() > 0,
        ensures
            r == home::<K>(key@, self.buckets@.len()),
    {
        let mut hasher = HasherDJB2::new();
        key.write_key(&mut hasher);
        (hasher.finish() % self.buckets.len() as u64) as usize
    }

    /// The bucket after `idx`, wrapping around at the end.
    fn next_index(&self, idx: usize) -> (r: usize)
        requires
            idx < self.buckets@.len(),
        ensures
            r == probe_pos(idx as int, 1, self.buckets@.len() as int),
    {
        if idx == self.buckets.len() - 1 {
            0
        } else {
            idx + 1
        }
    }

    /// Probes for `key`: the bucket holding it, or `None` where it is absent.
    fn lookup(&self, key: &K) -> (r: Option<usize>)
        requires
            self.wf(),
        ensures
            match r {
                Some(i) => i < self.buckets@.len() && self.buckets@[i as int].holds(key@)
                    && self.map@.contains_key(key@) && self.loc@[key@] == i,
                None => !self.map@.contains_key(key@),
            },
    {
        let cap = self.buckets.len();
        let h = self.find_index(key);
        let mut idx = h;
        let mut d: usize = 0;
        while d < cap
            invariant
                self.wf(),
                cap == self.buckets@.len(),
                h == home::<K>(key@, cap as nat),
                d <= cap,
                d < cap ==> idx == probe_pos(h as int, d as int, cap as int),
                forall|e: int| 0 <= e < d ==> !self.buckets@[#[trigger] probe_pos(h as int, e, cap as int)].holds(key@),
            decreases cap - d,
        {
            let step = match &self.buckets[idx] {
                Slot::Occupied(k, _) => if k.same_key(key) {
                    Probe::Hit
                } else {
                    Probe::Next
                },
                Slot::Tombstone => Probe::Reuse,
                Slot::Empty => Probe::End,
            };
            if let Probe::Hit = step {
                return Some(idx);
            }
            if let Probe::End = step {
                proof {
                    if self.map@.contains_key(key@) {
                        let i = self.loc@[key@];
                        lemma_probe_cover(h as int, i, cap as int);
                        assert(self.chain_ok(i));
                        let di = probe_dist(h as int, i, cap as int);
                        if di < d {
                            assert(!self.buckets@[probe_pos(h as int, di, cap as int)].holds(key@));
                        }
                        if di > d {
                            assert(!(self.buckets@[probe_pos(h as int, d as int, cap as int)] is Empty));
                        }
                    }
                }
                return None;
            }
            idx = self.next_index(idx);
            d = d + 1;
        }
        proof {
            if self.map@.contains_key(key@) {
                let i = self.loc@[key@];
                lemma_probe_cover(h as int, i, cap as int);
                let di = probe_dist(h as int, i, cap as int);
                assert(!self.buckets@[probe_pos(h as int, di, cap as int)].holds(key@));
            }
        }
        None
    }

    /// Stores a new entry in the free bucket `at`.
    fn claim(&mut self, at: usize, key: K, value: V)
        requires
            old(self).wf(),
            old(self).items + 1 < old(self).buckets@.len(),
            at < old(self).buckets@.len(),
            old(self).buckets@[at as int].is_free(),
            !old(self).map@.contains_key(key@),
            forall|e: int|
                0 <= e < probe_dist(home::<K>(key@, old(self).buckets@.len()), at as int, old(self).buckets@.len() as int)
                    ==> !(#[trigger] old(self).buckets@[probe_pos(home::<K>(key@, old(self).buckets@.len()), e, old(self).buckets@.len() as int)] is Empty),
        ensures
            final(self).wf(),
            final(self)@ == old(self)@.insert(key@, value),
            final(self).buckets@.len() == old(self).buckets@.len(),
            old(self).no_tombstones() ==> final(self).no_tombstones(),
    {
        let ghost k = key@;
        let ghost before = self.buckets@;
        proof {
            lemma_count_update(before, at as int, Slot::Occupied(key, value));
        }
        let cap = self.buckets.len();
        self.buckets.set(at, Slot::Occupied(key, value));
        assert(self.items + 1 < cap);
        self.items = self.items + 1;
        self.map = Ghost(self.map@.insert(k, value));
        self.loc = Ghost(self.loc@.insert(k, at as int));
        proof {
            let cap = before.len() as int;
            assert forall|i: int|
                0 <= i < cap && !(#[trigger] self.buckets@[i]).is_free() implies {
                    &&& self.map@.contains_key(self.buckets@[i].key_view())
                    &&& self.loc@[self.buckets@[i].key_view()] == i
                    &&& self.chain_ok(i)
                } by {
                if i != at {
                    assert(!before[i].is_free());
                    let h = home::<K>(before[i].key_view(), cap as nat);
                    assert forall|e: int| 0 <= e < probe_dist(h, i, cap) implies !(#[trigger] self.buckets@[probe_pos(h, e, cap)] is Empty) by {
                        assert(!(before[probe_pos(h, e, cap)] is Empty));
                    }
                }
            }
            assert(self.loc@.dom() =~= self.map@.dom());
        }
    }

    /// Replaces the entry in bucket `at`, whose key has the view of `key`.
    fn overwrite(&mut self, at: usize, key: K, value: V)
        requires
            old(self).wf(),
            at < old(self).buckets@.len(),
            old(self).buckets@[at as int].holds(key@),
        ensures
            final(self).wf(),
            final(self)@ == old(self)@.insert(key@, value),
            final(self).buckets@.len() == old(self).buckets@.len(),
            old(self).no_tombstones() ==> final(self).no_tombstones(),
    {
        let ghost k = key@;
        let ghost before = self.buckets@;
        proof {
            lemma_count_update(before, at as int, Slot::Occupied(key, value));
        }
        self.buckets.set(at, Slot::Occupied(key, value));
        self.map = Ghost(self.map@.insert(k, value));
        proof {
            let cap = before.len() as int;
            assert forall|i: int|
                0 <= i < cap && !(#[trigger] self.buckets@[i]).is_free() implies {
                    &&& self.map@.contains_key(self.buckets@[i].key_view())
                    &&& self.loc@[self.buckets@[i].key_view()] == i
                    &&& self.chain_ok(i)
                } by {
                assert(!before[i].is_free());
                let h = home::<K>(before[i].key_view(), cap as nat);
                assert forall|e: int| 0 <= e < probe_dist(h, i, cap) implies !(#[trigger] self.buckets@[probe_pos(h, e, cap)] is Empty) by {
                    assert(!(before[probe_pos(h, e, cap)] is Empty));
                }
            }
            assert(self.map@.dom() =~= old(self).map@.dom());
        }
    }

    /// Replaces the entry in bucket `at` with a tombstone.
    fn bury(&mut self, at: usize)
        requires
            old(self).wf(),
            at < old(self).buckets@.len(),
            !old(self).buckets@[at as int].is_free(),
        ensures
            final(self).wf(),
            final(self)@ == old(self)@.remove(old(self).buckets@[at as int].key_view()),
            final(self).buckets@.len() == old(self).buckets@.len(),
    {
        let ghost before = self.buckets@;
        let ghost k = before[at as int].key_view();
        proof {
            lemma_count_update(before, at as int, Slot::Tombstone);
        }
        self.buckets.set(at, Slot::Tombstone);
        self.items = self.items - 1;
        self.map = Ghost(self.map@.remove(k));
        self.loc = Ghost(self.loc@.remove(k));
        proof {
            let cap = before.len() as int;
            assert forall|i: int|
                0 <= i < cap && !(#[trigger] self.buckets@[i]).is_free() implies {
                    &&& self.map@.contains_key(self.buckets@[i].key_view())
                    &&& self.loc@[self.buckets@[i].key_view()] == i
                    &&& self.chain_ok(i)
                } by {
                assert(!before[i].is_free());
                let h = home::<K>(before[i].key_view(), cap as nat);
                assert forall|e: int| 0 <= e < probe_dist(h, i, cap) implies !(#[trigger] self.buckets@[probe_pos(h, e, cap)] is Empty) by {
                    assert(!(before[probe_pos(h, e, cap)] is Empty));
                }
            }
            assert(self.loc@.dom() =~= self.map@.dom());
        }
    }

    /// Inserts without resizing: the whole probe chain is searched for `key`
    /// before the first free bucket on it is claimed.
    fn place(&mut self, key: K, value: V)
        requires
            old(self).wf(),
            old(self).items + 1 < old(self).buckets@.len(),
        ensures
            final(self).wf(),
            final(self)@ == old(self)@.insert(key@, value),
            final(self).buckets@.len() == old(self).buckets@.len(),
            old(self).no_tombstones() ==> final(self).no_tombstones(),
    {
        let cap = self.buckets.len();
        let h = self.find_index(&key);
        let mut idx = h;
        let mut d: usize = 0;
        let mut free: Option<usize> = None;
        let ghost mut free_d: int = 0;
        while d < cap
            invariant
                self.wf(),
                self.items + 1 < cap,
                cap == self.buckets@.len(),
                h == home::<K>(key@, cap as nat),
                d <= cap,
                *self == *old(self),
                d < cap ==> idx == probe_pos(h as int, d as int, cap as int),
                forall|e: int| 0 <= e < d ==> !self.buckets@[#[trigger] probe_pos(h as int, e, cap as int)].holds(key@),
                free is None ==> forall|e: int| 0 <= e < d ==> !(#[trigger] self.buckets@[probe_pos(h as int, e, cap as int)]).is_free(),
                free matches Some(f) ==> {
                    &&& 0 <= free_d < d
                    &&& f == probe_pos(h as int, free_d, cap as int)
                    &&& self.buckets@[f as int].is_free()
                    &&& forall|e: int| 0 <= e < free_d ==> !(#[trigger] self.buckets@[probe_pos(h as int, e, cap as int)]).is_free()
                },
            decreases cap - d,
        {
            let step = match &self.buckets[idx] {
                Slot::Occupied(k, _) => if k.same_key(&key) {
                    Probe::Hit
                } else {
                    Probe::Next
                },
                Slot::Tombstone => Probe::Reuse,
                Slot::Empty => Probe::End,
            };
            if let Probe::Hit = step {
                self.overwrite(idx, key, value);
                return;
            }
            let reusable = match step {
                Probe::Next => false,
                _ => true,
            };
            if free.is_none() && reusable {
                free = Some(idx);
                proof {
                    free_d = d as int;
                }
            }
            if let Probe::End = step {
                proof {
                    if self.map@.contains_key(key@) {
                        let i = self.loc@[key@];
                        lemma_probe_cover(h as int, i, cap as int);
                        assert(self.chain_ok(i));
                        let di = probe_dist(h as int, i, cap as int);
                        if di < d {
                            assert(!self.buckets@[probe_pos(h as int, di, cap as int)].holds(key@));
                        }
                        if di > d {
                            assert(!(self.buckets@[probe_pos(h as int, d as int, cap as int)] is Empty));
                        }
                    }
                }
                let at = free.unwrap();
                proof {
                    lemma_probe_cover(h as int, at as int, cap as int);
                    assert(probe_dist(h as int, at as int, cap as int) == free_d);
                }
                self.claim(at, key, value);
                return;
            }
            idx = self.next_index(idx);
            d = d + 1;
        }
        proof {
            if self.map@.contains_key(key@) {
                let i = self.loc@[key@];
                lemma_probe_cover(h as int, i, cap as int);
                let di = probe_dist(h as int, i, cap as int);
                assert(!self.buckets@[probe_pos(h as int, di, cap as int)].holds(key@));
            }
            if free is None {
                lemma_count_free(self.buckets@);
                let j = choose|j: int| 0 <= j < cap && (#[trigger] self.buckets@[j]).is_free();
                lemma_probe_cover(h as int, j, cap as int);
                assert(!self.buckets@[probe_pos(h as int, probe_dist(h as int, j, cap as int), cap as int)].is_free());
            }
        }
        let at = free.unwrap();
        proof {
            lemma_probe_cover(h as int, at as int, cap as int);
            assert(probe_dist(h as int, at as int, cap as int) == free_d);
        }
        self.claim(at, key, value);
    }

    /// Moves every entry out, leaving the table without buckets.
    fn take_entries(&mut self) -> (r: Vec<(K, V)>)
        requires
            old(self).wf(),
        ensures
            pairs_map(r@) == old(self)@,
            distinct_keys(r@),
            r@.len() == old(self)@.len(),
    {
        let ghost t0 = *self;
        let mut b: Vec<Slot<K, V>> = Vec::new();
        std::mem::swap(&mut self.buckets, &mut b);
        let mut out: Vec<(K, V)> = Vec::new();
        while b.len() > 0
            invariant
                t0.wf(),
                b@.len() <= t0.buckets@.len(),
                b@ == t0.buckets@.subrange(0, b@.len() as int),
                forall|k: K::V| #[trigger]
                    pairs_map(out@).contains_key(k) <==> (t0.map@.contains_key(k) && t0.loc@[k]
                        >= b@.len()),
                forall|k: K::V| #[trigger]
                    pairs_map(out@).contains_key(k) ==> pairs_map(out@)[k] == t0.map@[k],
                distinct_keys(out@),
            decreases b@.len(),
        {
            let ghost j = b@.len() - 1;
            let slot = b.pop().unwrap();
            assert(slot == t0.buckets@[j]);
            match slot {
                Slot::Occupied(k, v) => {
                    let ghost before = out@;
                    proof {
                        assert(!t0.buckets@[j].is_free());
                    }
                    out.push((k, v));
                    assert(out@.drop_last() =~= before);
                    assert(pairs_map(out@) == pairs_map(before).insert(k@, v));
                    assert(t0.loc@[k@] == j);
                    assert forall|kk: K::V| #[trigger]
                        pairs_map(out@).contains_key(kk) <==> (t0.map@.contains_key(kk) && t0.loc@[kk] >= j) by {
                        if t0.map@.contains_key(kk) && t0.loc@[kk] == j {
                            assert(kk == k@);
                        }
                    }
                },
                _ => {
                    assert forall|kk: K::V| #[trigger]
                        pairs_map(out@).contains_key(kk) <==> (t0.map@.contains_key(kk) && t0.loc@[kk] >= j) by {
                        if t0.map@.contains_key(kk) {
                            assert(t0.buckets@[t0.loc@[kk]].holds(kk));
                        }
                    }
                },
            }
        }
        proof {
            assert(pairs_map(out@) =~= t0.map@);
            lemma_pairs_len(out@);
        }
        out
    }

    /// Rebuilds the table: the entries are reinserted into fresh buckets,
    /// as many as the least prime from `target`, doubled (and rounded up to a
    /// prime) wherever a reinsertion would find the load factor above 70
    /// percent. A target below the base size leaves the table as it is.
    fn resize(&mut self, target: usize)
        requires
            old(self).wf(),
            old(self)@.len() < usize::MAX / 4,
        ensures
            final(self).wf(),
            final(self)@ == old(self)@,
            target < INITIAL_BASE_SIZE ==> *final(self) == *old(self),
            target >= INITIAL_BASE_SIZE ==> {
                &&& final(self).spec_capacity() >= target
                &&& final(self).no_tombstones()
                &&& fits_without_growth(old(self)@.len(), target as nat) ==> forall|p: nat|
                    target <= p < final(self).spec_capacity() ==> !#[trigger] spec_is_prime(p)
            },
    {
        if target < INITIAL_BASE_SIZE {
            return;
        }
        let ghost m0 = self.map@;
        let n = self.items;
        let mut rest = self.take_entries();
        let mut size = next_prime_from(target);
        let ghost least = size;
        let mut j: usize = 0;
        while j < n
            invariant
                n < usize::MAX / 4,
                j <= n,
                size >= least >= target >= INITIAL_BASE_SIZE,
                capacity_ok(size as nat),
                forall|p: nat| target <= p < least ==> !#[trigger] spec_is_prime(p),
                j == 0 || (j - 1) * 100 / (size as int) <= 70,
                fits_without_growth(n as nat, target as nat) ==> size == least,
            decreases n - j,
        {
            let load: u128 = j as u128 * 100 / size as u128;
            if load > 70 {
                proof {
                    if fits_without_growth(n as nat, target as nat) {
                        assert(j * 100 / (least as int) <= (n - 1) * 100 / (target as int)) by (nonlinear_arith)
                            requires j <= n - 1, least >= target, target > 0;
                    }
                }
                assert(size <= usize::MAX / 2) by (nonlinear_arith)
                    requires load == j * 100 / (size as int), load > 70, j < usize::MAX / 4, size > 0;
                let grown = next_prime_from(size * 2);
                assert(j * 100 / (grown as int) <= 70) by (nonlinear_arith)
                    requires j == 0 || (j - 1) * 100 / (size as int) <= 70, grown >= 2 * size, size >= 53;
                size = grown;
            } else {
                assert(j * 100 / (size as int) <= 70);
            }
            j = j + 1;
        }
        assert(n < size) by (nonlinear_arith)
            requires n == 0 || (n - 1) * 100 / (size as int) <= 70, size >= 53;
        *self = Self::with_capacity(size);
        while rest.len() > 0
            invariant
                self.wf(),
                self.no_tombstones(),
                self.buckets@.len() == size,
                m0.len() == n,
                n < size,
                self@.len() + rest@.len() == m0.len(),
                distinct_keys(rest@),
                forall|k: K::V| #[trigger]
                    m0.contains_key(k) <==> (self@.contains_key(k) || pairs_map(rest@).contains_key(k)),
                forall|k: K::V| #[trigger]
                    pairs_map(rest@).contains_key(k) ==> pairs_map(rest@)[k] == m0[k],
                forall|k: K::V| #[trigger]
                    self@.contains_key(k) ==> !pairs_map(rest@).contains_key(k) && self@[k] == m0[k],
            decreases rest@.len(),
        {
            let ghost before = rest@;
            let (k, v) = rest.pop().unwrap();
            proof {
                assert(before.drop_last() =~= rest@);
                assert(pairs_map(before) == pairs_map(rest@).insert(k@, v));
                assert(!pairs_map(rest@).contains_key(k@));
                assert forall|kk: K::V| #[trigger] pairs_map(rest@).contains_key(kk) implies pairs_map(rest@)[kk]
                    == m0[kk] && kk != k@ by {
                    assert(pairs_map(before).contains_key(kk));
                }
            }
            let ghost placed = self@;
            proof {
                assert(pairs_map(before).contains_key(k@));
                assert(m0[k@] == v);
            }
            self.place(k, v);
            proof {
                assert forall|kk: K::V| #[trigger] self@.contains_key(kk) implies !pairs_map(rest@).contains_key(kk)
                    && self@[kk] == m0[kk] by {
                    if kk != k@ {
                        assert(placed.contains_key(kk));
                        assert(!pairs_map(before).contains_key(kk));
                    }
                }
            }
        }
        proof {
            assert(self@ =~= m0);
        }
    }

    /// The load factor in percent.
    fn load(&self) -> (r: usize)
        requires
            self.wf(),
        ensures
            r == self.items * 100 / (self.buckets@.len() as int),
    {
        let c = self.buckets.len() as u128;
        let n = self.items as u128;
        let q = n * 100 / c;
        assert(q < 100) by (nonlinear_arith)
            requires n < c, q == n * 100 / (c as int), c > 0;
        q as usize
    }

    /// Doubles the bucket count, rounded up to a prime, where the load factor
    /// is above 70 percent.
    fn maybe_grow(&mut self)
        requires
            old(self).wf(),
            old(self)@.len() < usize::MAX / 4,
        ensures
            final(self).wf(),
            final(self)@ == old(self)@,
            final(self).items + 1 < final(self).buckets@.len(),
            old(self)@.len() * 100 / old(self).spec_capacity() > 70 ==> {
                &&& final(self).spec_capacity() >= 2 * old(self).spec_capacity()
                &&& forall|p: nat|
                    2 * old(self).spec_capacity() <= p < final(self).spec_capacity() ==> !#[trigger] spec_is_prime(p)
            },
            old(self)@.len() * 100 / old(self).spec_capacity() <= 70 ==> *final(self) == *old(self),
    {
        let cap = self.buckets.len();
        let load = self.load();
        if load > 70 {
            assert(cap <= usize::MAX / 2) by (nonlinear_arith)
                requires load == self.items * 100 / (cap as int), load > 70, self.items < usize::MAX / 4, cap > 0;
            assert(fits_without_growth(self.items as nat, (cap * 2) as nat)) by (nonlinear_arith)
                requires self.items < cap, cap >= 53;
            self.resize(cap * 2);
            assert(self.items + 1 < self.buckets@.len());
        } else {
            assert(self.items + 1 < cap) by (nonlinear_arith)
                requires load == self.items * 100 / (cap as int), load <= 70, cap >= 53;
        }
    }

    /// Halves the bucket count, rounded up to a prime, where the load factor
    /// is below 10 percent, though never below the base size.
    fn maybe_shrink(&mut self)
        requires
            old(self).wf(),
        ensures
            final(self).wf(),
            final(self)@ == old(self)@,
            old(self)@.len() * 100 / old(self).spec_capacity() < 10 && old(self).spec_capacity() / 2
                >= INITIAL_BASE_SIZE ==> {
                &&& final(self).spec_capacity() >= old(self).spec_capacity() / 2
                &&& forall|p: nat|
                    old(self).spec_capacity() / 2 <= p < final(self).spec_capacity() ==> !#[trigger] spec_is_prime(p)
            },
            old(self)@.len() * 100 / old(self).spec_capacity() >= 10 || old(self).spec_capacity() / 2
                < INITIAL_BASE_SIZE ==> *final(self) == *old(self),
    {
        let cap = self.buckets.len();
        let load = self.load();
        if load < 10 {
            assert(self.items * 10 < cap) by (nonlinear_arith)
                requires load == self.items * 100 / (cap as int), load < 10, cap >= 53;
            assert(fits_without_growth(self.items as nat, (cap / 2) as nat)) by (nonlinear_arith)
                requires self.items * 10 < cap, cap >= 53;
            self.resize(cap / 2);
        }
    }

    /// An empty table whose bucket count is the least prime from the base
    /// size on.
    pub fn new() -> (r: Self)
        ensures
            r.wf(),
            r@ == Map::<K::V, V>::empty(),
            r.spec_capacity() >= INITIAL_BASE_SIZE,
            forall|p: nat| INITIAL_BASE_SIZE <= p < r.spec_capacity() ==> !#[trigger] spec_is_prime(p),
    {
        let cap = next_prime_from(INITIAL_BASE_SIZE);
        Self::with_capacity(cap)
    }

    /// Stores `value` under `key`, replacing the value stored under an equal key.
    /// Where the load factor is above 70 percent the bucket count first
    /// becomes the least prime from twice the old count.
    pub fn insert(&mut self, key: K, value: V)
        requires
            old(self).wf(),
            old(self)@.len() < usize::MAX / 4,
        ensures
            final(self).wf(),
            final(self)@ == old(self)@.insert(key@, value),
            final(self)@.dom().finite(),
            final(self)@.len() == old(self)@.len() + if old(self)@.contains_key(key@) {
                0int
            } else {
                1int
            },
            old(self)@.len() * 100 / old(self).spec_capacity() > 70 ==> {
                &&& final(self).spec_capacity() >= 2 * old(self).spec_capacity()
                &&& forall|p: nat|
                    2 * old(self).spec_capacity() <= p < final(self).spec_capacity() ==> !#[trigger] spec_is_prime(p)
            },
            old(self)@.len() * 100 / old(self).spec_capacity() <= 70 ==> final(self).spec_capacity()
                == old(self).spec_capacity(),
    {
        self.maybe_grow();
        self.place(key, value);
    }

    /// Removes the entry stored under `key`, if any.
    ///
    /// Before the removal, a load factor below 10 percent halves the bucket
    /// count (rounded up to a prime, never below the base size). The check
    /// runs whether or not `key` is present, as an amortised compaction.
    pub fn remove(&mut self, key: &K)
        requires
            old(self).wf(),
        ensures
            final(self).wf(),
            final(self)@ == old(self)@.remove(key@),
            final(self)@.dom().finite(),
            final(self)@.len() == old(self)@.len() - if old(self)@.contains_key(key@) {
                1int
            } else {
                0int
            },
            old(self)@.len() * 100 / old(self).spec_capacity() < 10 && old(self).spec_capacity() / 2
                >= INITIAL_BASE_SIZE ==> {
                &&& final(self).spec_capacity() >= old(self).spec_capacity() / 2
                &&& forall|p: nat|
                    old(self).spec_capacity() / 2 <= p < final(self).spec_capacity() ==> !#[trigger] spec_is_prime(p)
            },
            old(self)@.len() * 100 / old(self).spec_capacity() >= 10 || old(self).spec_capacity() / 2
                < INITIAL_BASE_SIZE ==> final(self).spec_capacity() == old(self).spec_capacity(),
    {
        self.maybe_shrink();
        match self.lookup(key) {
            Some(i) => self.bury(i),
            None => {
                assert(self@.remove(key@) =~= self@);
            },
        }
    }

    /// Moves every entry out and returns them, in no particular order; the
    /// table is left empty with the bucket count of a new table.
    pub fn clear(&mut self) -> (r: Vec<(K, V)>)
        requires
            old(self).wf(),
        ensures
            final(self).wf(),
            final(self)@ == Map::<K::V, V>::empty(),
            final(self).spec_capacity() >= INITIAL_BASE_SIZE,
            forall|p: nat| INITIAL_BASE_SIZE <= p < final(self).spec_capacity() ==> !#[trigger] spec_is_prime(p),
            pairs_map(r@) == old(self)@,
            distinct_keys(r@),
            r@.len() == old(self)@.len(),
    {
        let r = self.take_entries();
        *self = Self::new();
        r
    }

    /// The value stored under `key`, if any.
    pub fn get(&self, key: &K) -> (r: Option<&V>)
        requires
            self.wf(),
        ensures
            match r {
                Some(v) => self@.contains_key(key@) && *v == self@[key@],
                None => !self@.contains_key(key@),
            },
    {
        match self.lookup(key) {
            Some(i) => match &self.buckets[i] {
                Slot::Occupied(_, v) => Some(v),
                _ => None,
            },
            None => None,
        }
    }

    pub fn contains_key(&self, key: &K) -> (r: bool)
        requires
            self.wf(),
        ensures
            r == self@.contains_key(key@),
    {
        self.get(key).is_some()
    }

    /// The number of entries.
    pub fn len(&self) -> (r: usize)
        requires
            self.wf(),
        ensures
            r == self@.len(),
            self@.dom().finite(),
    {
        self.items
    }

    pub fn is_empty(&self) -> (r: bool)
        requires
            self.wf(),
        ensures
            r == (self@.len() == 0),
    {
        self.items == 0
    }

    /// The number of buckets.
    pub fn capacity(&self) -> (r: usize)
        ensures
            r == self.spec_capacity(),
    {
        self.buckets.len()
    }
}

impl<K: TableKey, V: PartialEq> HashTable<K, V> {
    /// Some bucket of `self` holds key `k` with a value that `==` relates to `v`.
    pub closed spec fn has_entry(&self, k: K::V, v: V) -> bool {
        exists|j: int|
            0 <= j < self.buckets@.len() && #[trigger] self.buckets@[j].holds(k) && v.eq_spec(
                &self.buckets@[j].value(),
            )
    }

    /// `self` and `other` count the same number of entries, and every entry of
    /// `self` is matched in `other`.
    pub closed spec fn same_content_as(&self, other: &Self) -> bool {
        &&& self.items == other.items
        &&& forall|i: int|
            0 <= i < self.buckets@.len() && !(#[trigger] self.buckets@[i]).is_free() ==> other.has_entry(
                self.buckets@[i].key_view(),
                self.buckets@[i].value(),
            )
    }

    /// Compares the entries of two tables, whatever buckets they occupy.
    fn same_content(&self, other: &Self) -> (r: bool)
        ensures
            V::obeys_eq_spec() ==> r == self.same_content_as(other),
    {
        if self.items != other.items {
            return false;
        }
        let mut i: usize = 0;
        while i < self.buckets.len()
            invariant
                i <= self.buckets@.len(),
                self.items == other.items,
                V::obeys_eq_spec() ==> forall|ii: int|
                    0 <= ii < i && !(#[trigger] self.buckets@[ii]).is_free() ==> other.has_entry(
                        self.buckets@[ii].key_view(),
                        self.buckets@[ii].value(),
                    ),
            decreases self.buckets@.len() - i,
        {
            if let Slot::Occupied(k, v) = &self.buckets[i] {
                let mut j: usize = 0;
                let mut found = false;
                while j < other.buckets.len() && !found
                    invariant
                        j <= other.buckets@.len(),
                        V::obeys_eq_spec() && found ==> other.has_entry(k@, *v),
                        V::obeys_eq_spec() && !found ==> forall|jj: int|
                            0 <= jj < j ==> !(#[trigger] other.buckets@[jj].holds(k@) && v.eq_spec(
                                &other.buckets@[jj].value(),
                            )),
                    decreases other.buckets@.len() - j,
                {
                    if let Slot::Occupied(k2, v2) = &other.buckets[j] {
                        if k.same_key(k2) && *v == *v2 {
                            found = true;
                            assert(other.buckets@[j as int].holds(k@));
                        }
                    }
                    j = j + 1;
                }
                if !found {
                    return false;
                }
            }
            i = i + 1;
        }
        true
    }
}

proof fn lemma_count_zero<K: View, V>(s: Seq<Slot<K, V>>)
    requires
        occupied_count(s) == 0,
    ensures
        forall|i: int| 0 <= i < s.len() ==> (#[trigger] s[i]).is_free(),
    decreases s.len(),
{
    if s.len() > 0 {
        lemma_count_zero(s.drop_last());
        assert forall|i: int| 0 <= i < s.len() implies (#[trigger] s[i]).is_free() by {
            if i < s.len() - 1 {
                assert(s.drop_last()[i] == s[i]);
            }
        }
    }
}

/// The parts one after another, with `sep` between neighbours.
pub open spec fn join(parts: Seq<Seq<char>>, sep: Seq<char>) -> Seq<char>
    decreases parts.len(),
{
    if parts.len() == 0 {
        Seq::empty()
    } else if parts.len() == 1 {
        parts[0]
    } else {
        join(parts.drop_last(), sep) + sep + parts.last()
    }
}

/// `{`, the parts joined by `, `, then `}`.
pub open spec fn braced_list(parts: Seq<Seq<char>>) -> Seq<char> {
    seq!['{'] + join(parts, seq![',', ' ']) + seq!['}']
}

/// Relies on `format!` with `{:?}`: renders one entry as `key: value` through
/// the `Debug` impls of the key and value types.
#[verifier::external_body]
fn debug_entry<K: std::fmt::Debug, V: std::fmt::Debug>(k: &K, v: &V) -> String {
    format!("{:?}: {:?}", k, v)
}

impl<K: TableKey + std::fmt::Debug, V: std::fmt::Debug> HashTable<K, V> {
    /// The live entries as `{k1: v1, k2: v2, ...}`, in bucket order: one
    /// rendering per entry, joined by `, ` between braces.
    pub fn debug_string(&self) -> (r: String)
        requires
            self.wf(),
        ensures
            exists|parts: Seq<Seq<char>>| parts.len() == self@.len() && r@ == #[trigger] braced_list(parts),
    {
        let mut out = String::new();
        proof {
            reveal_strlit("{");
            reveal_strlit("}");
            reveal_strlit(", ");
        }
        out.append("{");
        let mut first = true;
        let ghost mut parts: Seq<Seq<char>> = Seq::empty();
        let mut i: usize = 0;
        while i < self.buckets.len()
            invariant
                i <= self.buckets@.len(),
                out@ == seq!['{'] + join(parts, seq![',', ' ']),
                first <==> parts.len() == 0,
                parts.len() == occupied_count(self.buckets@.subrange(0, i as int)),
            decreases self.buckets@.len() - i,
        {
            proof {
                assert(self.buckets@.subrange(0, i + 1).drop_last() =~= self.buckets@.subrange(0, i as int));
            }
            if let Slot::Occupied(k, v) = &self.buckets[i] {
                let ghost out0 = out@;
                proof {
                    reveal_strlit(", ");
                }
                if !first {
                    out.append(", ");
                }
                assert(out@ == if first { out0 } else { out0 + seq![',', ' '] });
                let entry = debug_entry(k, v);
                let ghost out1 = out@;
                out.append(entry.as_str());
                proof {
                    let np = parts.push(entry@);
                    assert(out@ == out1 + entry@);
                    assert(np.drop_last() =~= parts);
                    assert(np.last() == entry@);
                    if parts.len() == 0 {
                        assert(join(np, seq![',', ' ']) == entry@);
                    }
                    assert(out@ =~= seq!['{'] + join(np, seq![',', ' ']));
                    parts = np;
                }
                first = false;
            }
            i = i + 1;
        }
        out.append("}");
        proof {
            assert(self.buckets@.subrange(0, i as int) =~= self.buckets@);
            assert(out@ == braced_list(parts));
        }
        out
    }
}

impl<K: TableKey, V: PartialEq> PartialEq for HashTable<K, V> {
    fn eq(&self, other: &Self) -> (r: bool) {
        self.same_content(other)
    }
}

impl<K: TableKey, V: PartialEq> vstd::std_specs::cmp::PartialEqSpecImpl for HashTable<K, V> {
    open spec fn obeys_eq_spec() -> bool {
        V::obeys_eq_spec()
    }

    open spec fn eq_spec(&self, other: &Self) -> bool {
        self.same_content_as(other)
    }
}

impl<K: TableKey, V> Default for HashTable<K, V> {
    fn default() -> (r: Self)
        ensures
            r.wf(),
            r@ == Map::<K::V, V>::empty(),
    {
        Self::new()
    }
}

/// Every reachable table is well formed: its bucket count is prime (unless no
/// prime lies between it and `usize::MAX`) and never below the base size.
pub proof fn lemma_capacity_prime<K: TableKey, V>(t: &HashTable<K, V>)
    requires
        t.wf(),
    ensures
        capacity_ok(t.spec_capacity()),
        t.spec_capacity() >= INITIAL_BASE_SIZE,
        t@.dom().finite(),
        t@.len() < t.spec_capacity(),
{
}

/// After `insert(k, v)`, `get(k)` returns `v`.
pub proof fn lemma_insert_then_get<KV, V>(m: Map<KV, V>, k: KV, v: V)
    ensures
        m.insert(k, v).contains_key(k),
        m.insert(k, v)[k] == v,
{
}

/// After `remove(k)`, `get(k)` finds nothing, and the length drops by one
/// exactly when `k` was present; removing an absent key changes nothing.
pub proof fn lemma_remove_then_get<KV, V>(m: Map<KV, V>, k: KV)
    requires
        m.dom().finite(),
    ensures
        !m.remove(k).contains_key(k),
        m.contains_key(k) ==> m.remove(k).len() == m.len() - 1,
        !m.contains_key(k) ==> m.remove(k) == m,
{
    if !m.contains_key(k) {
        assert(m.remove(k) =~= m);
    }
}

/// Inserting a key twice keeps the length of the first insertion and the
/// value of the second.
pub proof fn lemma_overwrite<KV, V>(m: Map<KV, V>, k: KV, v1: V, v2: V)
    requires
        m.dom().finite(),
    ensures
        m.insert(k, v1).insert(k, v2).len() == m.insert(k, v1).len(),
        m.insert(k, v1).insert(k, v2)[k] == v2,
{
    assert(m.insert(k, v1).insert(k, v2).dom() =~= m.insert(k, v1).dom());
}

/// Insertions of distinct keys commute: the order in which pairs are inserted
/// does not change the content of the table.
pub proof fn lemma_insert_commutes<KV, V>(m: Map<KV, V>, k1: KV, v1: V, k2: KV, v2: V)
    requires
        k1 != k2,
    ensures
        m.insert(k1, v1).insert(k2, v2) == m.insert(k2, v2).insert(k1, v1),
{
    assert(m.insert(k1, v1).insert(k2, v2) =~= m.insert(k2, v2).insert(k1, v1));
}

/// Two well-formed tables compare equal exactly when they hold the same
/// entries, wherever in their buckets those entries sit; so tables built by
/// inserting the same pairs in different orders compare equal.
pub proof fn lemma_eq_iff_same_entries<K: TableKey, V: PartialEq>(a: &HashTable<K, V>, b: &HashTable<K, V>)
    requires
        a.wf(),
        b.wf(),
        vstd::laws_eq::obeys_concrete_eq::<V>(),
    ensures
        a.same_content_as(b) <==> a@ == b@,
{
    reveal(vstd::laws_eq::obeys_concrete_eq);
    if a@ == b@ {
        assert forall|i: int|
            0 <= i < a.buckets@.len() && !(#[trigger] a.buckets@[i]).is_free() implies b.has_entry(
                a.buckets@[i].key_view(),
                a.buckets@[i].value(),
            ) by {
            let kv = a.buckets@[i].key_view();
            let j = b.loc@[kv];
            assert(b.map@.contains_key(kv));
            assert(b.buckets@[j].holds(kv));
            assert(a.buckets@[i].value().eq_spec(&b.buckets@[j].value()));
        }
    }
    if a.same_content_as(b) {
        assert forall|kv: K::V| #[trigger] a@.contains_key(kv) implies b@.contains_key(kv) && b@[kv] == a@[kv] by {
            let i = a.loc@[kv];
            assert(!a.buckets@[i].is_free());
            assert(b.has_entry(kv, a.buckets@[i].value()));
            let j = choose|j: int|
                0 <= j < b.buckets@.len() && #[trigger] b.buckets@[j].holds(kv) && a.buckets@[i].value().eq_spec(
                    &b.buckets@[j].value(),
                );
            assert(!b.buckets@[j].is_free());
        }
        vstd::set_lib::lemma_subset_equality(a@.dom(), b@.dom());
        assert(a@ =~= b@);
    }
}

} // verus!
