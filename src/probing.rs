//! Table with open addressing: each slot holds at most one entry, found by
//! linear probing from a start slot that a permutation table picks.

use vstd::prelude::*;
use crate::chained::{bucket_index, lemma_mask_bound, valid_capacity};
use crate::model::inserted;
use crate::xorshift::{Rng, xorshift_step};

verus! {

/// A stored key/value record.
pub struct Entry<V> {
    key: usize,
    val: V,
}

/// Why an insert did not store its value.
pub enum HashMapErr<'a, V> {
    /// Probing found no empty slot: every slot is taken.
    HashMapFull,
    /// The key is present; this is the value stored for it.
    ExistentEntry(&'a V),
}

/// One slot: empty, or holding a single entry that never changes.
pub type Bucket<V> = Option<Entry<V>>;

/// The slot `d` steps after `start` in a table of `n` slots, wrapping around.
pub open spec fn probe(start: int, d: int, n: int) -> int {
    if start + d < n {
        start + d
    } else {
        start + d - n
    }
}

/// The number of steps from `start` forward to `s` in a table of `n` slots.
pub open spec fn distance(start: int, s: int, n: int) -> int {
    if s >= start {
        s - start
    } else {
        s + n - start
    }
}

/// `p` is a permutation of `0..p.len()`.
pub open spec fn is_permutation(p: Seq<usize>) -> bool {
    &&& forall|i: int| 0 <= i < p.len() ==> #[trigger] p[i] < p.len()
    &&& forall|i: int, j: int| 0 <= i < p.len() && 0 <= j < p.len() && i != j ==> p[i] != p[j]
}

/// The identity arrangement `0, 1, ..., n - 1`.
pub open spec fn identity(n: nat) -> Seq<usize> {
    Seq::new(n, |i: int| i as usize)
}

/// Fisher-Yates over the first `i` elements of `s`, drawing from a generator
/// in state `state`: for each index `i - 1` down to `1`, the next draw modulo
/// `i` picks the element swapped with it.
pub open spec fn shuffled(s: Seq<usize>, state: usize, i: nat) -> Seq<usize>
    decreases i,
{
    if i <= 1 || i > s.len() {
        s
    } else {
        let st = xorshift_step(state);
        let j = (st % (i as usize)) as int;
        shuffled(s.update(i - 1, s[j]).update(j, s[i - 1]), st, (i - 1) as nat)
    }
}

/// The generator state after `n` draws from `state`.
pub open spec fn draws(state: usize, n: nat) -> usize
    decreases n,
{
    if n == 0 {
        state
    } else {
        xorshift_step(draws(state, (n - 1) as nat))
    }
}

/// The number of taken slots.
pub closed spec fn occupied<V>(bs: Seq<Bucket<V>>) -> nat
    decreases bs.len(),
{
    if bs.len() == 0 {
        0
    } else {
        occupied(bs.drop_last()) + if bs.last() is Some {
            1nat
        } else {
            0nat
        }
    }
}

proof fn lemma_occupied_fill<V>(bs: Seq<Bucket<V>>, s: int, e: Entry<V>)
    requires
        0 <= s < bs.len(),
        bs[s] is None,
    ensures
        occupied(bs.update(s, Some(e))) == occupied(bs) + 1,
    decreases bs.len(),
{
    let nbs = bs.update(s, Some(e));
    if s == bs.len() - 1 {
        assert(nbs.drop_last() =~= bs.drop_last());
    } else {
        assert(nbs.drop_last() =~= bs.drop_last().update(s, Some(e)));
        lemma_occupied_fill(bs.drop_last(), s, e);
    }
}

proof fn lemma_occupied_bound<V>(bs: Seq<Bucket<V>>)
    ensures
        occupied(bs) <= bs.len(),
        occupied(bs) == bs.len() ==> forall|i: int| 0 <= i < bs.len() ==> #[trigger] bs[i] is Some,
    decreases bs.len(),
{
    if bs.len() > 0 {
        lemma_occupied_bound(bs.drop_last());
        if occupied(bs) == bs.len() {
            assert forall|i: int| 0 <= i < bs.len() implies #[trigger] bs[i] is Some by {
                if i < bs.len() - 1 {
                    assert(bs.drop_last()[i] == bs[i]);
                }
            }
        }
    }
}

proof fn lemma_occupied_all<V>(bs: Seq<Bucket<V>>)
    requires
        forall|i: int| 0 <= i < bs.len() ==> #[trigger] bs[i] is Some,
    ensures
        occupied(bs) == bs.len(),
    decreases bs.len(),
{
    if bs.len() > 0 {
        let d = bs.drop_last();
        assert forall|i: int| 0 <= i < d.len() implies #[trigger] d[i] is Some by {
            assert(d[i] == bs[i]);
        }
        lemma_occupied_all(d);
    }
}

proof fn lemma_occupied_empty<V>(bs: Seq<Bucket<V>>)
    requires
        forall|i: int| 0 <= i < bs.len() ==> #[trigger] bs[i] is None,
    ensures
        occupied(bs) == 0,
    decreases bs.len(),
{
    if bs.len() > 0 {
        lemma_occupied_empty(bs.drop_last());
    }
}

proof fn lemma_probe_distance(start: int, s: int, n: int)
    requires
        0 <= start < n,
        0 <= s < n,
    ensures
        0 <= distance(start, s, n) < n,
        probe(start, distance(start, s, n), n) == s,
{
}

/// What probing for a key found.
enum Probe {
    /// The key sits in this slot.
    Found(usize),
    /// The key is absent and this is the first empty slot on its probe path.
    Vacant(usize),
    /// The key is absent and every slot is taken.
    Exhausted,
}

/// A fixed-capacity, insert-only table of `N` slots with linear probing.
pub struct HashMap<V, const N: usize> {
    /// Maps a masked key to the slot where its probe starts.
    permutation: Vec<usize>,
    /// Number of entries in the table.
    entries: usize,
    /// The slots.
    buckets: Vec<Bucket<V>>,
    /// The keys stored and the value each one holds.
    contents: Ghost<Map<usize, V>>,
}

impl<V, const N: usize> View for HashMap<V, N> {
    type V = Map<usize, V>;

    closed spec fn view(&self) -> Map<usize, V> {
        self.contents@
    }
}

impl<V, const N: usize> HashMap<V, N> {
    /// The permutation that picks start slots.
    pub closed spec fn permutation(&self) -> Seq<usize> {
        self.permutation@
    }

    /// The slot where the probe for `key` starts.
    pub open spec fn start_of(&self, key: usize) -> int {
        self.permutation()[bucket_index(key, N)] as int
    }

    /// Every slot is taken.
    closed spec fn is_full(&self) -> bool {
        forall|s: int| 0 <= s < N ==> #[trigger] self.buckets@[s] is Some
    }

    closed spec fn val_at(&self, s: int) -> V {
        self.buckets@[s]->Some_0.val
    }

    closed spec fn key_at(&self, s: int) -> usize {
        match self.buckets@[s] {
            Some(e) => e.key,
            None => 0,
        }
    }

    /// Every slot on the probe path from the start slot of the key in slot `s`
    /// up to `s` is taken.
    closed spec fn path_taken(&self, s: int) -> bool {
        let start = self.start_of(self.key_at(s));
        forall|d: int|
            0 <= d < distance(start, s, N as int) ==> #[trigger] self.buckets@[probe(
                start,
                d,
                N as int,
            )] is Some
    }

    /// The table's internal invariant.
    pub closed spec fn wf(&self) -> bool {
        &&& valid_capacity(N)
        &&& self.buckets@.len() == N
        &&& self.permutation@.len() == N
        &&& is_permutation(self.permutation@)
        &&& self.contents@.dom().finite()
        &&& self.entries == self.contents@.len()
        &&& self.entries == occupied(self.buckets@)
        &&& forall|s: int|
            0 <= s < N && #[trigger] self.buckets@[s] is Some ==> {
                &&& self.contents@.contains_key(self.key_at(s))
                &&& self.contents@[self.key_at(s)] == self.val_at(s)
                &&& self.path_taken(s)
            }
        &&& forall|k: usize| #[trigger]
            self.contents@.contains_key(k) ==> exists|s: int|
                0 <= s < N && #[trigger] self.buckets@[s] is Some && self.key_at(s) == k
    }

    /// Number of entries stored.
    pub fn entries(&self) -> (r: usize)
        requires
            self.wf(),
        ensures
            r == self@.len(),
    {
        self.entries
    }

    /// Shuffles `v` in place by Fisher-Yates, drawing from `rng`.
    fn scramble(rng: &mut Rng, v: &mut Vec<usize>)
        ensures
            final(v)@ == shuffled(old(v)@, old(rng).state(), old(v)@.len()),
            final(v)@.len() == old(v)@.len(),
            is_permutation(old(v)@) ==> is_permutation(final(v)@),
    {
        let ghost s0 = v@;
        let ghost st0 = rng.state();
        let len = v.len();
        if len < 2 {
            return;
        }
        let mut i: usize = len - 1;
        while i > 0
            invariant
                v@.len() == len,
                len == s0.len(),
                1 <= len,
                i < len,
                s0 == old(v)@,
                st0 == old(rng).state(),
                shuffled(v@, rng.state(), (i + 1) as nat) == shuffled(s0, st0, len as nat),
                is_permutation(s0) ==> is_permutation(v@),
            decreases i,
        {
            let ghost before = v@;
            let ghost st = rng.state();
            let j = rng.get_random(i + 1);
            let a = v[i];
            let b = v[j];
            v.set(i, b);
            v.set(j, a);
            proof {
                assert(v@ =~= before.update(i as int, before[j as int]).update(
                    j as int,
                    before[i as int],
                ));
                if is_permutation(s0) {
                    assert forall|x: int, y: int|
                        0 <= x < v@.len() && 0 <= y < v@.len() && x != y implies v@[x]
                        != v@[y] by {
                        let px = if x == i {
                            j as int
                        } else if x == j {
                            i as int
                        } else {
                            x
                        };
                        let py = if y == i {
                            j as int
                        } else if y == j {
                            i as int
                        } else {
                            y
                        };
                        assert(v@[x] == before[px] && v@[y] == before[py]);
                    }
                    assert forall|x: int| 0 <= x < v@.len() implies #[trigger] v@[x] < v@.len() by {
                        if x == i {
                            assert(v@[x] == before[j as int]);
                        } else if x == j {
                            assert(v@[x] == before[i as int]);
                        } else {
                            assert(v@[x] == before[x]);
                        }
                    }
                }
            }
            i = i - 1;
        }
    }

    /// A table whose permutation is shuffled by a generator seeded with `seed`.
    pub fn new_with_seed(seed: usize) -> (r: Self)
        requires
            valid_capacity(N),
        ensures
            r.wf(),
            r@ == Map::<usize, V>::empty(),
            r.permutation() == shuffled(identity(N as nat), seed, N as nat),
            r.permutation().len() == N,
            is_permutation(r.permutation()),
    {
        let mut rng = Rng::new(seed);
        let mut permutation: Vec<usize> = Vec::new();
        let mut i: usize = 0;
        while i < N
            invariant
                i <= N,
                permutation@ == identity(i as nat),
            decreases N - i,
        {
            permutation.push(i);
            i = i + 1;
            proof {
                assert(permutation@ =~= identity(i as nat));
            }
        }
        proof {
            assert(is_permutation(identity(N as nat)));
        }
        Self::scramble(&mut rng, &mut permutation);
        let mut buckets: Vec<Bucket<V>> = Vec::new();
        let mut k: usize = 0;
        while k < N
            invariant
                k <= N,
                buckets@.len() == k,
                forall|s: int| 0 <= s < k ==> #[trigger] buckets@[s] is None,
            decreases N - k,
        {
            buckets.push(None);
            k = k + 1;
        }
        proof {
            lemma_occupied_empty(buckets@);
        }
        let r = HashMap { permutation, entries: 0, buckets, contents: Ghost(Map::empty()) };
        proof {
            assert(r.contents@.dom() =~= Set::empty());
        }
        r
    }

    /// A table seeded by a fixed default: the generator seeded with 1 is drawn
    /// ten times and its tenth draw is the seed.
    pub fn new() -> (r: Self)
        requires
            valid_capacity(N),
        ensures
            r.wf(),
            r@ == Map::<usize, V>::empty(),
            r.permutation() == shuffled(identity(N as nat), draws(1, 10), N as nat),
            r.permutation().len() == N,
            is_permutation(r.permutation()),
    {
        let mut rng = Rng::new(1);
        let mut i: usize = 1;
        while i < 10
            invariant
                1 <= i <= 10,
                rng.state() == draws(1, (i - 1) as nat),
            decreases 10 - i,
        {
            rng.rand();
            i = i + 1;
        }
        Self::new_with_seed(rng.rand())
    }

    /// The slot where the probe for `key` starts.
    fn get_idx(&self, key: usize) -> (r: usize)
        requires
            self.wf(),
        ensures
            r == self.start_of(key),
            r < N,
    {
        let m = key & (N - 1);
        proof {
            lemma_mask_bound(key, (N - 1) as usize);
        }
        self.permutation[m]
    }

    /// Walks the probe path of `key` until the key, an empty slot, or the
    /// start slot again.
    fn probe_for(&self, key: usize) -> (r: Probe)
        requires
            self.wf(),
        ensures
            match r {
                Probe::Found(s) => s < N && self.buckets@[s as int] is Some && self.key_at(s as int)
                    == key,
                Probe::Vacant(s) => {
                    &&& s < N
                    &&& self.buckets@[s as int] is None
                    &&& !self@.contains_key(key)
                    &&& forall|d: int|
                        0 <= d < distance(self.start_of(key), s as int, N as int)
                            ==> #[trigger] self.buckets@[probe(self.start_of(key), d, N as int)] is Some
                },
                Probe::Exhausted => !self@.contains_key(key) && self.is_full() && self@.len() == N,
            },
    {
        let start = self.get_idx(key);
        let ghost st = start as int;
        let ghost n = N as int;
        let mut idx = start;
        let mut d: usize = 0;
        loop
            invariant
                self.wf(),
                start == self.start_of(key),
                start < N,
                st == start as int,
                n == N as int,
                d < N,
                idx as int == probe(st, d as int, n),
                forall|d2: int|
                    0 <= d2 < d ==> #[trigger] self.buckets@[probe(st, d2, n)] is Some
                        && self.key_at(probe(st, d2, n)) != key,
            decreases N - d,
        {
            match &self.buckets[idx] {
                None => {
                    proof {
                        assert(distance(st, idx as int, n) == d);
                        self.lemma_absent_before_gap(key, d as int);
                    }
                    return Probe::Vacant(idx);
                },
                Some(e) => {
                    if e.key == key {
                        return Probe::Found(idx);
                    }
                },
            }
            idx = if idx + 1 == N {
                0
            } else {
                idx + 1
            };
            d = d + 1;
            if d == N {
                proof {
                    assert forall|s: int| 0 <= s < N implies #[trigger] self.buckets@[s] is Some
                        && self.key_at(s) != key by {
                        lemma_probe_distance(st, s, n);
                        let ds = distance(st, s, n);
                        assert(self.buckets@[probe(st, ds, n)] is Some);
                    }
                    if self@.contains_key(key) {
                        let s = choose|s: int|
                            0 <= s < N && #[trigger] self.buckets@[s] is Some && self.key_at(s)
                                == key;
                        assert(self.key_at(s) != key);
                    }
                    lemma_occupied_all(self.buckets@);
                }
                return Probe::Exhausted;
            }
        }
    }

    /// A key whose first `d` probe slots are taken by other keys and whose
    /// next probe slot is empty is absent: its own slot would lie on that path.
    proof fn lemma_absent_before_gap(&self, key: usize, d: int)
        requires
            self.wf(),
            0 <= d < N,
            0 <= self.start_of(key) < N,
            forall|d2: int|
                0 <= d2 < d ==> #[trigger] self.buckets@[probe(self.start_of(key), d2, N as int)]
                    is Some && self.key_at(probe(self.start_of(key), d2, N as int)) != key,
            self.buckets@[probe(self.start_of(key), d, N as int)] is None,
        ensures
            !self@.contains_key(key),
    {
        let st = self.start_of(key);
        let n = N as int;
        if self@.contains_key(key) {
            let s = choose|s: int|
                0 <= s < N && #[trigger] self.buckets@[s] is Some && self.key_at(s) == key;
            lemma_probe_distance(st, s, n);
            let ds = distance(st, s, n);
            assert(self.path_taken(s));
            if ds < d {
                assert(self.buckets@[probe(st, ds, n)] is Some);
            } else if ds > d {
                assert(self.buckets@[probe(st, d, n)] is Some);
            }
        }
    }

    /// The value stored for `key`, if any.
    pub fn lookup(&self, key: usize) -> (r: Option<&V>)
        requires
            self.wf(),
        ensures
            match r {
                Some(v) => self@.contains_key(key) && *v == self@[key],
                None => !self@.contains_key(key),
            },
    {
        match self.probe_for(key) {
            Probe::Found(s) => match &self.buckets[s] {
                Some(e) => Some(&e.val),
                None => None,
            },
            _ => None,
        }
    }

    /// Stores `value` for `key` in the first empty slot of its probe path,
    /// unless the key is present, whose stored value is then reported, or no
    /// slot is empty.
    pub fn insert(&mut self, key: usize, value: V) -> (r: Result<&V, HashMapErr<'_, V>>)
        requires
            old(self).wf(),
        ensures
            final(self).wf(),
            final(self).permutation() == old(self).permutation(),
            match r {
                Ok(v) => {
                    &&& !old(self)@.contains_key(key)
                    &&& old(self)@.len() < N
                    &&& *v == value
                    &&& final(self)@ == inserted(old(self)@, key, value)
                },
                Err(HashMapErr::ExistentEntry(v)) => {
                    &&& old(self)@.contains_key(key)
                    &&& *v == old(self)@[key]
                    &&& final(self)@ == old(self)@
                },
                Err(HashMapErr::HashMapFull) => {
                    &&& !old(self)@.contains_key(key)
                    &&& old(self)@.len() == N
                    &&& final(self)@ == old(self)@
                },
            },
    {
        match self.probe_for(key) {
            Probe::Found(s) => {
                proof {
                    assert(self.contents@.contains_key(self.key_at(s as int)));
                }
                match &self.buckets[s] {
                    Some(e) => Err(HashMapErr::ExistentEntry(&e.val)),
                    None => Err(HashMapErr::HashMapFull),
                }
            },
            Probe::Exhausted => Err(HashMapErr::HashMapFull),
            Probe::Vacant(s) => {
                let ghost old_self = *self;
                let ghost n = N as int;
                proof {
                    lemma_occupied_fill(self.buckets@, s as int, Entry { key, val: value });
                    lemma_occupied_bound(self.buckets@.update(s as int, Some(Entry { key, val: value })));
                }
                self.buckets.set(s, Some(Entry { key, val: value }));
                self.entries = self.entries + 1;
                self.contents = Ghost(old_self.contents@.insert(key, value));
                proof {
                    lemma_occupied_bound(old_self.buckets@);
                    assert forall|t: int|
                        0 <= t < N && #[trigger] self.buckets@[t] is Some implies {
                        &&& self.contents@.contains_key(self.key_at(t))
                        &&& self.contents@[self.key_at(t)] == self.val_at(t)
                        &&& self.path_taken(t)
                    } by {
                        let st = self.start_of(self.key_at(t));
                        if t != s {
                            assert(old_self.buckets@[t] is Some);
                            assert(old_self.key_at(t) == self.key_at(t));
                            assert(old_self.path_taken(t));
                            assert forall|d: int| 0 <= d < distance(st, t, n) implies #[trigger] self.buckets@[probe(st, d, n)] is Some by {
                                assert(old_self.buckets@[probe(st, d, n)] is Some);
                            }
                        } else {
                            assert forall|d: int| 0 <= d < distance(st, t, n) implies #[trigger] self.buckets@[probe(st, d, n)] is Some by {
                                assert(old_self.buckets@[probe(st, d, n)] is Some);
                            }
                        }
                    }
                    assert forall|k: usize| #[trigger] self.contents@.contains_key(k) implies exists|t: int|
                        0 <= t < N && #[trigger] self.buckets@[t] is Some && self.key_at(t) == k by {
                        if k == key {
                            assert(self.buckets@[s as int] is Some && self.key_at(s as int) == k);
                        } else {
                            assert(old_self.contents@.contains_key(k));
                            let t = choose|t: int|
                                0 <= t < N && #[trigger] old_self.buckets@[t] is Some && old_self.key_at(t) == k;
                            assert(self.buckets@[t] is Some && self.key_at(t) == k);
                        }
                    }
                }
                match &self.buckets[s] {
                    Some(e) => Ok(&e.val),
                    None => Err(HashMapErr::HashMapFull),
                }
            },
        }
    }

    /// The key in slot `s`, if the slot is taken.
    pub closed spec fn slot_key(&self, s: int) -> Option<usize> {
        match self.buckets@[s] {
            Some(e) => Some(e.key),
            None => None,
        }
    }

    /// For each slot in index order, the key it holds.
    pub fn slot_keys(&self) -> (r: Vec<Option<usize>>)
        requires
            self.wf(),
        ensures
            r@.len() == N,
            forall|s: int| 0 <= s < N ==> #[trigger] r@[s] == self.slot_key(s),
            forall|s: int|
                0 <= s < N ==> match #[trigger] r@[s] {
                    Some(k) => self@.contains_key(k),
                    None => true,
                },
    {
        let mut r: Vec<Option<usize>> = Vec::new();
        let mut s: usize = 0;
        while s < N
            invariant
                self.wf(),
                s <= N,
                r@.len() == s,
                forall|t: int| 0 <= t < s ==> #[trigger] r@[t] == self.slot_key(t),
            decreases N - s,
        {
            match &self.buckets[s] {
                Some(e) => r.push(Some(e.key)),
                None => r.push(None),
            }
            s = s + 1;
        }
        proof {
            assert forall|t: int|
                0 <= t < N implies match #[trigger] r@[t] {
                Some(k) => self@.contains_key(k),
                None => true,
            } by {
                if self.buckets@[t] is Some {
                    assert(self.contents@.contains_key(self.key_at(t)));
                }
            }
        }
        r
    }

    /// Capacity exhaustion: a table never holds more than `N` entries; once
    /// it holds `N`, `insert` refuses every new key as full.
    pub proof fn lemma_capacity(&self)
        requires
            self.wf(),
        ensures
            self@.len() <= N,
    {
        lemma_occupied_bound(self.buckets@);
    }
}

} // verus!
