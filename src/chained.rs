//! Table with separate chaining: each bucket holds the chain of entries whose
//! keys map to it, in the order they were linked.

use vstd::prelude::*;
use crate::model::inserted;

verus! {

/// A stored key/value record. Its place in a bucket's chain is its link.
pub struct Entry<V> {
    key: usize,
    val: V,
}

/// Why an insert did not store its value.
pub enum HashMapErr<'a, V> {
    /// No slot is left for the key; the chaining table never reports this.
    HashMapFull,
    /// The key is present; this is the value stored for it.
    ExistentEntry(&'a V),
}

/// One bucket: the chain of entries that map to it, head first.
pub type Bucket<V> = Vec<Entry<V>>;

/// `n` is a usable capacity: a nonzero power of two.
pub open spec fn valid_capacity(n: usize) -> bool {
    n > 0 && n & ((n - 1) as usize) == 0
}

/// The bucket that `key` maps to in a table of `n` buckets.
pub open spec fn bucket_index(key: usize, n: usize) -> int {
    (key & ((n - 1) as usize)) as int
}

/// The pairs of one chain, in chain order.
pub closed spec fn chain_pairs<V>(c: Seq<Entry<V>>) -> Seq<(usize, V)> {
    c.map_values(|e: Entry<V>| (e.key, e.val))
}

/// The pairs of the buckets from `i` on, bucket by bucket, each in chain order.
pub closed spec fn pairs_from<V>(bs: Seq<Bucket<V>>, i: int) -> Seq<(usize, V)>
    decreases bs.len() - i,
{
    if i < 0 || i >= bs.len() {
        Seq::empty()
    } else {
        chain_pairs(bs[i]@) + pairs_from(bs, i + 1)
    }
}

pub(crate) proof fn lemma_mask_bound(key: usize, m: usize)
    ensures
        key & m <= m,
{
    assert(key & m <= m) by (bit_vector);
}

/// Growing one bucket's chain by one entry grows the pairs from any bucket at
/// or before it by one.
proof fn lemma_pairs_from_push<V>(bs: Seq<Bucket<V>>, nbs: Seq<Bucket<V>>, b: int, i: int)
    requires
        0 <= b < bs.len(),
        nbs.len() == bs.len(),
        nbs[b]@.len() == bs[b]@.len() + 1,
        forall|j: int| 0 <= j < bs.len() && j != b ==> nbs[j] == bs[j],
        0 <= i <= bs.len(),
    ensures
        pairs_from(nbs, i).len() == pairs_from(bs, i).len() + (if i <= b { 1int } else { 0int }),
    decreases bs.len() - i,
{
    if i < bs.len() {
        lemma_pairs_from_push(bs, nbs, b, i + 1);
        if i != b {
            assert(nbs[i] == bs[i]);
        }
    }
}

/// A fixed-capacity, insert-only table of `N` buckets with chaining.
pub struct HashMap<V, const N: usize> {
    /// Number of entries in the table.
    entries: usize,
    /// Number of entries linked behind another entry of their bucket.
    collisions: usize,
    /// The buckets, indexed by `bucket_index`.
    buckets: Vec<Bucket<V>>,
    /// The keys stored and the value each one holds.
    contents: Ghost<Map<usize, V>>,
}

impl<V, const N: usize> View for HashMap<V, N> {
    type V = Map<usize, V>;

    closed spec fn view(&self) -> Map<usize, V> {
        self.contents@
    }
}

impl<V, const N: usize> HashMap<V, N> {
    /// The table's internal invariant.
    pub closed spec fn wf(&self) -> bool {
        &&& valid_capacity(N)
        &&& self.buckets@.len() == N
        &&& self.contents@.dom().finite()
        &&& self.entries == self.contents@.len()
        &&& self.collisions <= self.entries
        &&& pairs_from(self.buckets@, 0).len() == self.entries
        &&& forall|b: int, j: int|
            0 <= b < N && 0 <= j < self.buckets@[b]@.len() ==> {
                let e = #[trigger] self.buckets@[b]@[j];
                &&& bucket_index(e.key, N) == b
                &&& self.contents@.contains_key(e.key)
                &&& self.contents@[e.key] == e.val
            }
        &&& forall|k: usize| #[trigger]
            self.contents@.contains_key(k) ==> exists|j: int|
                0 <= j < self.buckets@[bucket_index(k, N)]@.len()
                    && #[trigger] self.buckets@[bucket_index(k, N)]@[j].key == k
    }

    /// The collision counter.
    pub closed spec fn collision_count(&self) -> nat {
        self.collisions as nat
    }

    /// Every stored pair, bucket by bucket in index order, each chain from its
    /// head: the order in which iteration yields them.
    pub closed spec fn pairs(&self) -> Seq<(usize, V)> {
        pairs_from(self.buckets@, 0)
    }

    /// Some stored key maps to bucket `b`, so its chain is not empty.
    pub open spec fn bucket_taken(&self, b: int) -> bool {
        exists|k: usize| self@.contains_key(k) && bucket_index(k, N) == b
    }

    /// Number of entries stored.
    pub fn entries(&self) -> (r: usize)
        requires
            self.wf(),
        ensures
            r == self@.len(),
    {
        self.entries
    }

    /// Number of entries that were linked behind an earlier entry of their
    /// bucket.
    pub fn collisions(&self) -> (r: usize)
        requires
            self.wf(),
        ensures
            r == self.collision_count(),
            r <= self@.len(),
    {
        self.collisions
    }

    /// An empty table with `N` empty buckets.
    pub fn new() -> (r: Self)
        requires
            valid_capacity(N),
        ensures
            r.wf(),
            r@ == Map::<usize, V>::empty(),
            r.collision_count() == 0,
    {
        let mut buckets: Vec<Bucket<V>> = Vec::new();
        let mut i: usize = 0;
        while i < N
            invariant
                i <= N,
                buckets@.len() == i,
                forall|b: int| 0 <= b < i ==> (#[trigger] buckets@[b])@.len() == 0,
            decreases N - i,
        {
            buckets.push(Vec::new());
            i = i + 1;
        }
        let r = HashMap { entries: 0, collisions: 0, buckets, contents: Ghost(Map::empty()) };
        assert(pairs_from(r.buckets@, 0).len() == 0) by {
            lemma_empty_pairs(r.buckets@, 0);
        }
        r
    }

    /// The bucket that `key` maps to.
    fn get_idx(&self, key: usize) -> (r: usize)
        requires
            self.wf(),
        ensures
            r == bucket_index(key, N),
            r < N,
    {
        proof {
            lemma_mask_bound(key, (N - 1) as usize);
        }
        key & (N - 1)
    }

    /// The position of `key` in the chain of bucket `idx`, if it is there.
    fn find_in_chain(&self, idx: usize, key: usize) -> (r: Option<usize>)
        requires
            self.wf(),
            idx == bucket_index(key, N),
            idx < N,
        ensures
            match r {
                Some(j) => j < self.buckets@[idx as int]@.len() && self.buckets@[idx as int]@[j as int].key
                    == key,
                None => !self@.contains_key(key),
            },
    {
        let chain = &self.buckets[idx];
        let mut j: usize = 0;
        while j < chain.len()
            invariant
                self.wf(),
                idx == bucket_index(key, N),
                idx < N,
                chain == self.buckets@[idx as int],
                j <= chain@.len(),
                forall|t: int| 0 <= t < j ==> (#[trigger] chain@[t]).key != key,
            decreases chain@.len() - j,
        {
            if chain[j].key == key {
                return Some(j);
            }
            j = j + 1;
        }
        None
    }

    /// The value stored for `key`, if any.
    pub fn lookup(&self, key: usize) -> (r: Option<&V>)
        requires
            self.wf(),
        ensures
            match r {
                Some(v) => self@.contains_key(key) && *v == self@[key],
                None => !self@.contains_key(key),
            },
    {
        let idx = self.get_idx(key);
        match self.find_in_chain(idx, key) {
            Some(j) => Some(&self.buckets[idx][j].val),
            None => None,
        }
    }

    /// Stores `value` for `key` unless the key is present. A new key is
    /// linked at the end of its bucket's chain; that counts as a collision when
    /// the chain was not empty. A present key is left as it is and its stored
    /// value is reported.
    pub fn insert(&mut self, key: usize, value: V) -> (r: Result<&V, HashMapErr<'_, V>>)
        requires
            old(self).wf(),
            old(self)@.len() < usize::MAX,
        ensures
            final(self).wf(),
            final(self)@ == inserted(old(self)@, key, value),
            match r {
                Ok(v) => !old(self)@.contains_key(key) && *v == value,
                Err(HashMapErr::ExistentEntry(v)) => old(self)@.contains_key(key) && *v == old(
                    self,
                )@[key],
                Err(HashMapErr::HashMapFull) => false,
            },
            final(self).collision_count() == old(self).collision_count() + (if !old(
                self,
            )@.contains_key(key) && old(self).bucket_taken(bucket_index(key, N)) {
                1int
            } else {
                0int
            }),
    {
        let idx = self.get_idx(key);
        if let Some(j) = self.find_in_chain(idx, key) {
            proof {
                let e = self.buckets@[idx as int]@[j as int];
                assert(self.contents@.contains_key(e.key));
            }
            return Err(HashMapErr::ExistentEntry(&self.buckets[idx][j].val));
        }
        let ghost old_buckets = self.buckets@;
        let ghost old_contents = self.contents@;
        let len = self.buckets[idx].len();
        proof {
            if len > 0 {
                let e = old_buckets[idx as int]@[0];
                assert(old_contents.contains_key(e.key) && bucket_index(e.key, N) == idx);
                assert(self.bucket_taken(idx as int));
            }
            if self.bucket_taken(idx as int) {
                let k = choose|k: usize|
                    old_contents.contains_key(k) && bucket_index(k, N) == idx;
                assert(old_contents.contains_key(k));
                assert(len > 0);
            }
        }
        self.buckets[idx].push(Entry { key, val: value });
        if len > 0 {
            self.collisions = self.collisions + 1;
        }
        self.entries = self.entries + 1;
        self.contents = Ghost(old_contents.insert(key, value));
        proof {
            let nb = self.buckets@;
            lemma_pairs_from_push(old_buckets, nb, idx as int, 0);
            assert forall|b: int, j: int| 0 <= b < N && 0 <= j < nb[b]@.len() implies {
                let e = #[trigger] nb[b]@[j];
                &&& bucket_index(e.key, N) == b
                &&& self.contents@.contains_key(e.key)
                &&& self.contents@[e.key] == e.val
            } by {
                if b != idx || j < len {
                    let e = old_buckets[b]@[j];
                    assert(old_contents.contains_key(e.key));
                }
            }
            assert forall|k: usize| #[trigger] self.contents@.contains_key(k) implies exists|j: int|
                0 <= j < nb[bucket_index(k, N)]@.len() && #[trigger] nb[bucket_index(
                    k,
                    N,
                )]@[j].key == k by {
                lemma_mask_bound(k, (N - 1) as usize);
                if k == key {
                    assert(nb[idx as int]@[len as int].key == key);
                } else {
                    assert(old_contents.contains_key(k));
                    let j = choose|j: int|
                        0 <= j < old_buckets[bucket_index(k, N)]@.len()
                            && #[trigger] old_buckets[bucket_index(k, N)]@[j].key == k;
                    assert(nb[bucket_index(k, N)]@[j].key == k);
                }
            }
        }
        Ok(&self.buckets[idx][len].val)
    }

    /// The key at the head of bucket `b`, if its chain is not empty.
    pub closed spec fn head_key(&self, b: int) -> Option<usize> {
        if self.buckets@[b]@.len() > 0 {
            Some(self.buckets@[b]@[0].key)
        } else {
            None
        }
    }

    /// For each bucket in index order, the key at the head of its chain.
    pub fn bucket_heads(&self) -> (r: Vec<Option<usize>>)
        requires
            self.wf(),
        ensures
            r@.len() == N,
            forall|b: int| 0 <= b < N ==> #[trigger] r@[b] == self.head_key(b),
            forall|b: int|
                0 <= b < N ==> match #[trigger] r@[b] {
                    Some(k) => self@.contains_key(k) && bucket_index(k, N) == b,
                    None => !self.bucket_taken(b),
                },
    {
        let mut r: Vec<Option<usize>> = Vec::new();
        let mut b: usize = 0;
        while b < N
            invariant
                self.wf(),
                b <= N,
                r@.len() == b,
                forall|t: int| 0 <= t < b ==> #[trigger] r@[t] == self.head_key(t),
            decreases N - b,
        {
            let chain = &self.buckets[b];
            if chain.len() > 0 {
                r.push(Some(chain[0].key));
            } else {
                r.push(None);
            }
            b = b + 1;
        }
        proof {
            assert forall|t: int|
                0 <= t < N implies match #[trigger] r@[t] {
                Some(k) => self@.contains_key(k) && bucket_index(k, N) == t,
                None => !self.bucket_taken(t),
            } by {
                if r@[t] is Some {
                    let e = self.buckets@[t]@[0];
                    assert(self.contents@.contains_key(e.key));
                } else if self.bucket_taken(t) {
                    let k = choose|k: usize| self@.contains_key(k) && bucket_index(k, N) == t;
                    assert(self.contents@.contains_key(k));
                }
            }
        }
        r
    }

    /// Iteration over every stored pair.
    pub fn iter(&self) -> (r: Iter<'_, V>)
        requires
            self.wf(),
        ensures
            r.wf(),
            r.remaining() == self.pairs(),
    {
        Iter { buckets: &self.buckets, current_bucket: 0, current_entry: 0 }
    }

    /// Iteration completeness: with no insert in between, iteration yields
    /// exactly as many pairs as there are entries, and each pair it yields is
    /// a stored key with its value.
    pub proof fn lemma_iteration_complete(&self)
        requires
            self.wf(),
        ensures
            self.pairs().len() == self@.len(),
            forall|t: int|
                0 <= t < self.pairs().len() ==> self@.contains_key(#[trigger] self.pairs()[t].0)
                    && self@[self.pairs()[t].0] == self.pairs()[t].1,
    {
        self.lemma_pairs_stored(0);
    }

    proof fn lemma_pairs_stored(&self, i: int)
        requires
            self.wf(),
            0 <= i <= N,
        ensures
            forall|t: int|
                0 <= t < pairs_from(self.buckets@, i).len() ==> self@.contains_key(
                    #[trigger] pairs_from(self.buckets@, i)[t].0,
                ) && self@[pairs_from(self.buckets@, i)[t].0] == pairs_from(self.buckets@, i)[t].1,
        decreases N - i,
    {
        if i < N {
            self.lemma_pairs_stored(i + 1);
            let cp = chain_pairs(self.buckets@[i]@);
            let rest = pairs_from(self.buckets@, i + 1);
            assert(pairs_from(self.buckets@, i) == cp + rest);
            assert forall|t: int| 0 <= t < pairs_from(self.buckets@, i).len() implies self@.contains_key(
                #[trigger] pairs_from(self.buckets@, i)[t].0,
            ) && self@[pairs_from(self.buckets@, i)[t].0] == pairs_from(self.buckets@, i)[t].1 by {
                if t < cp.len() {
                    let e = self.buckets@[i]@[t];
                    assert(cp[t] == (e.key, e.val));
                } else {
                    assert(pairs_from(self.buckets@, i)[t] == rest[t - cp.len()]);
                }
            }
        }
    }
}

proof fn lemma_empty_pairs<V>(bs: Seq<Bucket<V>>, i: int)
    requires
        0 <= i <= bs.len(),
        forall|b: int| 0 <= b < bs.len() ==> (#[trigger] bs[b])@.len() == 0,
    ensures
        pairs_from(bs, i).len() == 0,
    decreases bs.len() - i,
{
    if i < bs.len() {
        lemma_empty_pairs(bs, i + 1);
    }
}

/// A forward walk over the pairs of a chaining table.
pub struct Iter<'a, V> {
    buckets: &'a Vec<Bucket<V>>,
    current_bucket: usize,
    current_entry: usize,
}

impl<'a, V> Iter<'a, V> {
    pub closed spec fn wf(&self) -> bool {
        &&& self.current_bucket <= self.buckets@.len()
        &&& self.current_bucket < self.buckets@.len() ==> self.current_entry
            <= self.buckets@[self.current_bucket as int]@.len()
    }

    /// The pairs not yet yielded, in the order they will come.
    pub closed spec fn remaining(&self) -> Seq<(usize, V)> {
        if self.current_bucket < self.buckets@.len() {
            chain_pairs(self.buckets@[self.current_bucket as int]@).skip(
                self.current_entry as int,
            ) + pairs_from(self.buckets@, self.current_bucket + 1)
        } else {
            Seq::empty()
        }
    }

    /// Yields the next pair, or `None` once every pair has been yielded.
    pub fn next(&mut self) -> (r: Option<(&'a usize, &'a V)>)
        requires
            old(self).wf(),
        ensures
            final(self).wf(),
            match r {
                Some(p) => {
                    &&& old(self).remaining().len() > 0
                    &&& (*p.0, *p.1) == old(self).remaining()[0]
                    &&& final(self).remaining() == old(self).remaining().drop_first()
                },
                None => old(self).remaining().len() == 0 && final(self).remaining().len() == 0,
            },
    {
        let ghost start = self.remaining();
        let buckets = self.buckets;
        let mut b = self.current_bucket;
        let mut pos = self.current_entry;
        while b < buckets.len()
            invariant
                buckets == self.buckets,
                *self == *old(self),
                start == old(self).remaining(),
                b <= buckets@.len(),
                b < buckets@.len() ==> pos <= buckets@[b as int]@.len(),
                (Iter { buckets, current_bucket: b, current_entry: pos }).remaining() == start,
            decreases buckets@.len() - b,
        {
            let chain = &buckets[b];
            if pos < chain.len() {
                let e = &chain[pos];
                proof {
                    let cp = chain_pairs(chain@);
                    assert(cp.skip(pos as int)[0] == (e.key, e.val));
                    assert(cp.skip(pos as int + 1) =~= cp.skip(pos as int).drop_first());
                    assert(start == cp.skip(pos as int) + pairs_from(buckets@, b + 1));
                    assert(start[0] == (e.key, e.val));
                    assert(start.len() > 0);
                }
                self.current_bucket = b;
                self.current_entry = pos + 1;
                proof {
                    assert(self.remaining() =~= start.drop_first());
                }
                return Some((&e.key, &e.val));
            }
            proof {
                assert(chain_pairs(chain@).skip(pos as int) =~= Seq::<(usize, V)>::empty());
            }
            b = b + 1;
            pos = 0;
            proof {
                if b < buckets@.len() {
                    let cp = chain_pairs(buckets@[b as int]@);
                    assert(cp.skip(0) =~= cp);
                }
                assert((Iter { buckets, current_bucket: b, current_entry: pos }).remaining()
                    =~= start);
            }
        }
        self.current_bucket = b;
        self.current_entry = pos;
        None
    }

    /// Yields every remaining pair and returns how many there were.
    pub fn count(self) -> (r: usize)
        requires
            self.wf(),
            self.remaining().len() <= usize::MAX,
        ensures
            r == self.remaining().len(),
    {
        let ghost total = self.remaining().len();
        let mut it = self;
        let mut n: usize = 0;
        loop
            invariant
                it.wf(),
                n + it.remaining().len() == total,
                total <= usize::MAX,
                total == self.remaining().len(),
            decreases it.remaining().len(),
        {
            match it.next() {
                Some(_) => {
                    n = n + 1;
                },
                None => {
                    return n;
                },
            }
        }
    }
}

} // verus!
