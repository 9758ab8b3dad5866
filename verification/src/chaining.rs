use crate::common::initial_capacity;
use crate::common::is_pow2;
use crate::common::lemma_pairs_has_append;
use crate::common::lemma_pairs_lookup_at;
use crate::common::lemma_pairs_lookup_has;
use crate::common::lemma_pairs_lookup_push;
use crate::common::lemma_pairs_lookup_remove;
use crate::common::lemma_pairs_lookup_update;
use crate::common::lemma_pairs_card;
use crate::common::pairs_distinct;
use crate::common::pairs_has;
use crate::common::pairs_key_set;
use crate::common::pairs_lookup;
use crate::common::spec_slot;
use crate::common::DEFAULT_LOAD_FACTOR_PCT;
use crate::common::MIN_CAPACITY;
use crate::errors::HashMapError;

pub use crate::keys::Key;
pub use crate::keys::Value;
use vstd::prelude::*;

verus! {

/// The keys whose home slot lies below `i` and which their home bucket
/// holds.
pub open spec fn home_prefix_dom<K: Key, V: Value>(
    bs: Seq<Vec<(K, V)>>,
    cap: int,
    i: int,
) -> Set<K::V> {
    Set::new(
        |ka: K::V|
            spec_slot(K::key_hash(ka), cap) < i && pairs_has(
                bs[spec_slot(K::key_hash(ka), cap)]@,
                ka,
            ),
    )
}

/// Lookup of `ka` in the bucket that `ka` hashes to.
pub open spec fn table_lookup<K: Key, V: Value>(
    bs: Seq<Vec<(K, V)>>,
    cap: int,
    ka: K::V,
) -> Option<V::V> {
    pairs_lookup(bs[spec_slot(K::key_hash(ka), cap)]@, ka)
}

/// Total number of pairs stored across all buckets.
pub open spec fn total_pairs<K, V>(bs: Seq<Vec<(K, V)>>) -> int
    decreases bs.len(),
{
    if bs.len() == 0 {
        0
    } else {
        total_pairs(bs.drop_last()) + bs.last()@.len()
    }
}

proof fn lemma_total_pairs_nonneg<K, V>(bs: Seq<Vec<(K, V)>>)
    ensures
        total_pairs(bs) >= 0,
    decreases bs.len(),
{
    if bs.len() > 0 {
        lemma_total_pairs_nonneg(bs.drop_last());
    }
}

proof fn lemma_total_pairs_update<K, V>(bs: Seq<Vec<(K, V)>>, i: int, b: Vec<(K, V)>)
    requires
        0 <= i < bs.len(),
    ensures
        total_pairs(bs.update(i, b)) == total_pairs(bs) - bs[i]@.len() + b@.len(),
    decreases bs.len(),
{
    if i == bs.len() - 1 {
        assert(bs.update(i, b).drop_last() =~= bs.drop_last());
    } else {
        lemma_total_pairs_update(bs.drop_last(), i, b);
        assert(bs.update(i, b).drop_last() =~= bs.drop_last().update(i, b));
    }
}

/// Separate-chaining hash table: an array of `capacity` buckets, each an
/// ordered sequence of key/value pairs, plus the count of live keys.
///
/// The table is specified against its abstract view, a `Map` from key
/// abstractions to value abstractions. The buckets, the hash placement, the
/// load-factor policy and the resizing are implementation detail hidden
/// behind that view.
pub struct HashMap<K, V> where K: Key, V: Value {
    buckets: Vec<Vec<(K, V)>>,
    size: usize,
    capacity: usize,
    threshold_pct: usize,
}

impl<K, V> HashMap<K, V> where K: Key, V: Value {
    /// Every pair in bucket `i` hashes to `i`, and no two pairs of the
    /// bucket share a key abstraction.
    pub closed spec fn bucket_wf(self, i: int) -> bool {
        let b = self.buckets[i]@;
        &&& forall|j: int|
            0 <= j < b.len() ==> spec_slot(
                K::key_hash(#[trigger] b[j].0@),
                self.capacity as int,
            ) == i
        &&& pairs_distinct(b)
    }

    /// Structural well-formedness: the bucket array matches the capacity,
    /// the capacity is a power of two in its permitted range, the threshold
    /// is a meaningful percentage, every bucket is internally consistent,
    /// and `size` counts the stored pairs.
    pub closed spec fn wf(self) -> bool {
        &&& self.buckets.len() == self.capacity
        &&& is_pow2(self.capacity as int)
        &&& self.capacity >= MIN_CAPACITY
        &&& self.capacity <= usize::MAX / 2
        &&& 1 <= self.threshold_pct <= 100
        &&& forall|i: int| 0 <= i < self.buckets.len() ==> self.bucket_wf(i)
        &&& self.size as int == total_pairs(self.buckets@)
        &&& self.size <= self.capacity
    }

    /// The abstract contents: a key is present exactly when its home bucket
    /// holds a pair with it, and it maps to the value of that pair.
    pub closed spec fn as_map(self) -> Map<K::V, V::V> {
        Map::new(
            |ka: K::V| table_lookup(self.buckets@, self.capacity as int, ka) is Some,
            |ka: K::V| table_lookup(self.buckets@, self.capacity as int, ka)->0,
        )
    }

    /// The percentage of the capacity at which an insert grows the table.
    pub closed spec fn spec_threshold(self) -> int {
        self.threshold_pct as int
    }

    /// An insert at the current state would grow the table first.
    pub open spec fn spec_needs_resize(self) -> bool {
        100 * self.spec_len() >= self.spec_threshold() * self.spec_capacity()
    }

    /// The table still has room to double its slot array.
    pub open spec fn spec_can_grow(self) -> bool {
        self.spec_capacity() <= usize::MAX as int / 4
    }
}

impl<K, V> View for HashMap<K, V> where K: Key, V: Value {
    type V = Map<K::V, V::V>;

    open spec fn view(&self) -> Map<K::V, V::V> {
        self.as_map()
    }
}

impl<K, V> HashMap<K, V> where K: Key, V: Value {
    /// Create an empty table with the default load-factor threshold. The
    /// capacity hint is rounded up to the next power of two, floor
    /// `MIN_CAPACITY`.
    pub fn new(capacity: usize) -> (m: Self)
        requires
            capacity <= usize::MAX / 4,
        ensures
            m.wf(),
            m@ == Map::<K::V, V::V>::empty(),
            MIN_CAPACITY <= m.spec_capacity(),
            capacity <= m.spec_capacity(),
            is_pow2(m.spec_capacity()),
            m.spec_capacity() == MIN_CAPACITY || m.spec_capacity() < 2 * capacity,
            m.spec_len() == 0,
            m.spec_threshold() == DEFAULT_LOAD_FACTOR_PCT as int,
            !m.spec_needs_resize(),
    {
        Self::with_threshold(capacity, DEFAULT_LOAD_FACTOR_PCT)
    }

    /// Create an empty table that grows once the live-key count reaches
    /// `threshold_pct` percent of the capacity.
    pub fn with_threshold(capacity: usize, threshold_pct: usize) -> (m: Self)
        requires
            capacity <= usize::MAX / 4,
            1 <= threshold_pct <= 100,
        ensures
            m.wf(),
            m@ == Map::<K::V, V::V>::empty(),
            MIN_CAPACITY <= m.spec_capacity(),
            capacity <= m.spec_capacity(),
            is_pow2(m.spec_capacity()),
            m.spec_capacity() == MIN_CAPACITY || m.spec_capacity() < 2 * capacity,
            m.spec_len() == 0,
            m.spec_threshold() == threshold_pct as int,
            !m.spec_needs_resize(),
    {
        let cap = initial_capacity(capacity);
        proof {
            assert(threshold_pct * cap >= 16) by (nonlinear_arith)
                requires
                    threshold_pct >= 1,
                    cap >= 16,
            ;
        }
        let mut buckets: Vec<Vec<(K, V)>> = Vec::new();
        let mut i: usize = 0;
        while i < cap
            invariant
                i == buckets.len(),
                i <= cap,
                forall|j: int| 0 <= j < i ==> #[trigger] buckets[j]@.len() == 0,
                total_pairs(buckets@) == 0,
        decreases cap - i,
        {
            let ghost before = buckets@;
            buckets.push(Vec::new());
            proof {
                assert(buckets@.drop_last() =~= before);
            }
            i = i + 1;
        }
        let m = HashMap { buckets, size: 0, capacity: cap, threshold_pct };
        proof {
            assert(m@ =~= Map::<K::V, V::V>::empty());
        }
        m
    }

    /// The home slot of `key` at the current capacity.
    fn slot_index(&self, key: &K) -> (i: usize)
        requires
            self.capacity >= 1,
        ensures
            i as int == spec_slot(K::key_hash(key@), self.capacity as int),
            i < self.capacity,
    {
        let h = key.hash_key();
        (h % (self.capacity as u64)) as usize
    }

    /// The capacity of the table.
    pub closed spec fn spec_capacity(self) -> int {
        self.capacity as int
    }

    /// The count of live keys the table maintains.
    pub closed spec fn spec_len(self) -> int {
        self.size as int
    }

    /// Cardinality of the prefix domain, bucket by bucket.
    proof fn lemma_prefix_card(self, i: int)
        requires
            self.wf(),
            0 <= i <= self.capacity,
        ensures
            home_prefix_dom::<K, V>(self.buckets@, self.capacity as int, i).finite(),
            home_prefix_dom::<K, V>(self.buckets@, self.capacity as int, i).len()
                == total_pairs(self.buckets@.subrange(0, i)),
        decreases i,
    {
        let bs = self.buckets@;
        let cap = self.capacity as int;
        if i == 0 {
            assert(home_prefix_dom::<K, V>(bs, cap, 0) =~= Set::<K::V>::empty());
            assert(bs.subrange(0, 0) =~= Seq::<Vec<(K, V)>>::empty());
        } else {
            self.lemma_prefix_card(i - 1);
            assert(self.bucket_wf(i - 1));
            lemma_pairs_card::<K, V>(bs[i - 1]@);
            let left = home_prefix_dom::<K, V>(bs, cap, i - 1);
            let right = pairs_key_set::<K, V>(bs[i - 1]@);
            assert(left.disjoint(right)) by {
                assert forall|ka: K::V|
                    left.contains(ka) implies !(#[trigger] right.contains(ka)) by {
                    if pairs_has(bs[i - 1]@, ka) {
                        let j = choose|j: int| 0 <= j < bs[i - 1]@.len() && #[trigger] bs[i - 1]@[j].0@ == ka;
                        assert(spec_slot(K::key_hash(bs[i - 1]@[j].0@), cap) == i - 1);
                    }
                }
            }
            assert(home_prefix_dom::<K, V>(bs, cap, i) =~= left + right) by {
                assert forall|ka: K::V|
                    #[trigger] right.contains(ka) implies spec_slot(K::key_hash(ka), cap) == i
                    - 1 by {
                    let j = choose|j: int| 0 <= j < bs[i - 1]@.len() && #[trigger] bs[i - 1]@[j].0@ == ka;
                    assert(spec_slot(K::key_hash(bs[i - 1]@[j].0@), cap) == i - 1);
                }
            }
            vstd::set_lib::lemma_set_disjoint_lens(left, right);
            assert(bs.subrange(0, i).drop_last() =~= bs.subrange(0, i - 1));
            assert(total_pairs(bs.subrange(0, i)) == total_pairs(bs.subrange(0, i - 1)) + bs[i
                - 1]@.len());
        }
    }

    /// The size the table maintains counts exactly the distinct live keys
    /// of its abstract contents: inserts of fresh keys, upserts, deletions
    /// and resizes never let the two drift apart.
    pub proof fn lemma_len_counts_keys(self)
        requires
            self.wf(),
        ensures
            self@.dom().finite(),
            self.spec_len() == self@.dom().len(),
    {
        let bs = self.buckets@;
        let cap = self.capacity as int;
        self.lemma_prefix_card(cap);
        assert(self@.dom() =~= home_prefix_dom::<K, V>(bs, cap, cap)) by {
            assert forall|ka: K::V| #[trigger]
                self@.contains_key(ka) == (spec_slot(K::key_hash(ka), cap) < cap && pairs_has(
                    bs[spec_slot(K::key_hash(ka), cap)]@,
                    ka,
                )) by {
                lemma_pairs_lookup_has(bs[spec_slot(K::key_hash(ka), cap)]@, ka);
            }
        }
        assert(bs.subrange(0, cap) =~= bs);
    }

    /// Number of live keys in the table: the cardinality of the abstract
    /// contents.
    pub fn len(&self) -> (n: usize)
        requires
            self.wf(),
        ensures
            n as int == self.spec_len(),
            self@.dom().finite(),
            n as int == self@.dom().len(),
    {
        proof {
            self.lemma_len_counts_keys();
        }
        self.size
    }

    /// Look `key` up and hand back a copy of its stored value, or nothing
    /// when the key is absent. Lookups never fail.
    pub fn get(&self, key: K) -> (r: Result<Option<V>, HashMapError>)
        requires
            self.wf(),
        ensures
            match r {
                Ok(Some(v)) => self@.contains_key(key@) && v@ == self@[key@],
                Ok(None) => !self@.contains_key(key@),
                Err(_) => false,
            },
    {
        let idx = self.slot_index(&key);
        proof {
            assert(self.bucket_wf(idx as int));
        }
        let bucket = &self.buckets[idx];
        let ghost b = bucket@;
        let mut j: usize = 0;
        while j < bucket.len()
            invariant
                b == bucket@,
                pairs_distinct(b),
                j <= b.len(),
                self@.contains_key(key@) == (pairs_lookup(b, key@) is Some),
                self@.contains_key(key@) ==> Some(self@[key@]) == pairs_lookup(b, key@),
                forall|l: int| 0 <= l < j ==> #[trigger] b[l].0@ != key@,
            decreases b.len() - j,
        {
            if bucket[j].0.eq_key(&key) {
                let v = bucket[j].1.clone_value();
                proof {
                    lemma_pairs_lookup_at(b, key@, j as int);
                }
                return Ok(Some(v));
            }
            j = j + 1;
        }
        proof {
            lemma_pairs_lookup_has(b, key@);
        }
        Ok(None)
    }
}

proof fn lemma_total_pairs_at<K, V>(bs: Seq<Vec<(K, V)>>, i: int)
    requires
        0 <= i < bs.len(),
    ensures
        total_pairs(bs) >= bs[i]@.len(),
    decreases bs.len(),
{
    if i == bs.len() - 1 {
        lemma_total_pairs_nonneg(bs.drop_last());
    } else {
        lemma_total_pairs_at(bs.drop_last(), i);
    }
}

impl<K, V> HashMap<K, V> where K: Key, V: Value {
    /// The load-factor check that decides whether an insert grows the table
    /// before it places its entry.
    fn needs_resize_now(&self) -> (b: bool)
        requires
            self.wf(),
        ensures
            b == self.spec_needs_resize(),
    {
        proof {
            assert((self.threshold_pct as u128) * (self.capacity as u128) < 0x7fffffffffffffffffffffffffffffff
                as u128) by (nonlinear_arith)
                requires
                    self.threshold_pct <= 100,
                    self.capacity <= 0xffffffffffffffffu128,
            ;
        }
        (self.size as u128) * 100 >= (self.threshold_pct as u128) * (self.capacity as u128)
    }

    /// Upsert into one bucket: overwrite the value of the pair carrying
    /// `key`, or append a new pair at the tail. Returns whether the key was
    /// new to the bucket.
    fn bucket_insert(b: &mut Vec<(K, V)>, key: K, value: V) -> (is_new: bool)
        requires
            pairs_distinct(old(b)@),
        ensures
            pairs_distinct(final(b)@),
            is_new == !pairs_has(old(b)@, key@),
            final(b)@.len() == old(b)@.len() + (if is_new { 1int } else { 0int }),
            is_new ==> final(b)@ == old(b)@.push((key, value)),
            !is_new ==> exists|j: int| #![auto]
                0 <= j < old(b)@.len() && old(b)@[j].0@ == key@ && final(b)@ == old(
                    b,
                )@.update(j, (old(b)@[j].0, value)),
            forall|ka: K::V| #[trigger]
                pairs_lookup(final(b)@, ka) == if ka == key@ {
                    Some(value@)
                } else {
                    pairs_lookup(old(b)@, ka)
                },
            forall|l: int|
                0 <= l < final(b)@.len() ==> final(b)@[l].0@ == key@ || pairs_has(
                    old(b)@,
                    #[trigger] final(b)@[l].0@,
                ),
    {
        let ghost b0 = b@;
        let mut j: usize = 0;
        while j < b.len()
            invariant
                b0 == old(b)@,
                b@ == b0,
                j <= b0.len(),
                pairs_distinct(b0),
                forall|l: int| 0 <= l < j ==> #[trigger] b0[l].0@ != key@,
            decreases b0.len() - j,
        {
            if b[j].0.eq_key(&key) {
                let pair = b.remove(j);
                b.insert(j, (pair.0, value));
                proof {
                    assert(b@ =~= b0.update(j as int, (b0[j as int].0, value)));
                    assert(b0[j as int].0@ == key@);
                    assert forall|ka: K::V| #[trigger]
                        pairs_lookup(b@, ka) == if ka == key@ {
                            Some(value@)
                        } else {
                            pairs_lookup(b0, ka)
                        } by {
                        lemma_pairs_lookup_update(b0, j as int, (b0[j as int].0, value), ka);
                    }
                    assert(pairs_has(b0, key@));
                }
                return false;
            }
            j = j + 1;
        }
        b.push((key, value));
        proof {
            assert(!pairs_has(b0, key@));
            assert forall|ka: K::V| #[trigger]
                pairs_lookup(b@, ka) == if ka == key@ {
                    Some(value@)
                } else {
                    pairs_lookup(b0, ka)
                } by {
                lemma_pairs_lookup_push(b0, (b@[b0.len() as int].0, b@[b0.len() as int].1), ka);
                lemma_pairs_lookup_has(b0, ka);
                assert(b@ == b0.push(b@[b0.len() as int]));
                if ka == key@ {
                    lemma_pairs_lookup_has(b0, key@);
                }
            }
            assert forall|l: int|
                0 <= l < b@.len() implies b@[l].0@ == key@ || pairs_has(
                b0,
                #[trigger] b@[l].0@,
            ) by {
                if l < b0.len() {
                    assert(b0[l].0@ == b@[l].0@);
                }
            }
        }
        true
    }

    /// Remove the bucket pair carrying `key`, splicing the survivors
    /// together in their old order. Returns whether a pair was removed.
    fn bucket_remove(b: &mut Vec<(K, V)>, key: &K) -> (removed: bool)
        requires
            pairs_distinct(old(b)@),
        ensures
            pairs_distinct(final(b)@),
            removed == pairs_has(old(b)@, key@),
            final(b)@.len() == old(b)@.len() - (if removed { 1int } else { 0int }),
            !removed ==> final(b)@ == old(b)@,
            removed ==> exists|j: int| #![auto]
                0 <= j < old(b)@.len() && old(b)@[j].0@ == key@ && final(b)@ == old(
                    b,
                )@.remove(j),
            forall|ka: K::V| #[trigger]
                pairs_lookup(final(b)@, ka) == if ka == key@ {
                    None::<V::V>
                } else {
                    pairs_lookup(old(b)@, ka)
                },
            forall|l: int|
                0 <= l < final(b)@.len() ==> pairs_has(old(b)@, #[trigger] final(b)@[l].0@),
    {
        let ghost b0 = b@;
        let mut j: usize = 0;
        while j < b.len()
            invariant
                b0 == old(b)@,
                b@ == b0,
                j <= b0.len(),
                pairs_distinct(b0),
                forall|l: int| 0 <= l < j ==> #[trigger] b0[l].0@ != key@,
            decreases b0.len() - j,
        {
            if b[j].0.eq_key(key) {
                b.remove(j);
                proof {
                    assert forall|ka: K::V| #[trigger]
                        pairs_lookup(b@, ka) == if ka == key@ {
                            None::<V::V>
                        } else {
                            pairs_lookup(b0, ka)
                        } by {
                        lemma_pairs_lookup_remove(b0, j as int, ka);
                    }
                    assert forall|j1: int, j2: int|
                        0 <= j1 < j2 < b@.len() implies #[trigger] b@[j1].0@
                        != #[trigger] b@[j2].0@ by {
                        assert(b@[j1] == if j1 < j { b0[j1] } else { b0[j1 + 1] });
                        assert(b@[j2] == if j2 < j { b0[j2] } else { b0[j2 + 1] });
                    }
                    assert forall|l: int|
                        0 <= l < b@.len() implies pairs_has(b0, #[trigger] b@[l].0@) by {
                        assert(b@[l] == if l < j { b0[l] } else { b0[l + 1] });
                    }
                }
                return true;
            }
            j = j + 1;
        }
        proof {
            lemma_pairs_lookup_has(b0, key@);
            assert forall|ka: K::V| #[trigger]
                pairs_lookup(b@, ka) == if ka == key@ {
                    None::<V::V>
                } else {
                    pairs_lookup(b0, ka)
                } by {
                if ka == key@ {
                    lemma_pairs_lookup_has(b0, ka);
                }
            }
        }
        false
    }

    /// Double the bucket array and rehash every stored pair into it. The
    /// abstract contents are unchanged; the old storage is discarded.
    fn resize(&mut self)
        requires
            old(self).wf(),
            old(self).spec_can_grow(),
        ensures
            final(self).wf(),
            final(self)@ == old(self)@,
            final(self).size == old(self).size,
            final(self).threshold_pct == old(self).threshold_pct,
            final(self).capacity == 2 * old(self).capacity,
            final(self).size < final(self).capacity,
    {
        let ghost t0 = *self;
        let cap0 = self.capacity;
        let cap2 = self.capacity * 2;
        // Gather every stored pair; popped buckets leave a shrinking prefix.
        let mut flat: Vec<(K, V)> = Vec::new();
        while self.buckets.len() > 0
            invariant
                self.size == t0.size,
                self.capacity == t0.capacity,
                self.threshold_pct == t0.threshold_pct,
                t0.wf(),
                cap0 == t0.capacity,
                self.buckets@ =~= t0.buckets@.subrange(0, self.buckets@.len() as int),
                self.buckets@.len() <= t0.buckets@.len(),
                forall|ka: K::V|
                    spec_slot(K::key_hash(ka), cap0 as int) >= self.buckets@.len()
                        ==> t0@.contains_key(ka) == pairs_has(flat@, ka),
                forall|l: int|
                    0 <= l < flat@.len() ==> spec_slot(
                        K::key_hash(#[trigger] flat@[l].0@),
                        cap0 as int,
                    ) >= self.buckets@.len(),
                forall|l: int|
                    0 <= l < flat@.len() ==> t0@.contains_key(#[trigger] flat@[l].0@)
                        && t0@[flat@[l].0@] == flat@[l].1@,
                pairs_distinct(flat@),
                flat@.len() + total_pairs(self.buckets@) == t0.size,
            decreases self.buckets.len(),
        {
            let ghost bspre = self.buckets@;
            let ghost flatpre = flat@;
            let mut bucket = self.buckets.pop().unwrap();
            let ghost m = self.buckets@.len() as int;
            let ghost bseq = bucket@;
            flat.append(&mut bucket);
            proof {
                assert(flat@ =~= flatpre + bseq);
                assert(self.buckets@ =~= t0.buckets@.subrange(0, m));
                assert(t0.bucket_wf(m));
                assert(t0.buckets@[m]@ == bseq);
                assert forall|j1: int, j2: int|
                    0 <= j1 < j2 < flat@.len() implies #[trigger] flat@[j1].0@
                    != #[trigger] flat@[j2].0@ by {
                    if j1 < flatpre.len() && j2 >= flatpre.len() {
                        assert(flat@[j1] == flatpre[j1]);
                        assert(flat@[j2] == bseq[j2 - flatpre.len()]);
                        assert(spec_slot(K::key_hash(flat@[j1].0@), cap0 as int) >= m + 1);
                        assert(spec_slot(K::key_hash(flat@[j2].0@), cap0 as int) == m);
                    } else if j2 < flatpre.len() {
                        assert(flat@[j1] == flatpre[j1] && flat@[j2] == flatpre[j2]);
                    } else {
                        assert(flat@[j1] == bseq[j1 - flatpre.len()]);
                        assert(flat@[j2] == bseq[j2 - flatpre.len()]);
                    }
                }
                assert forall|ka: K::V|
                    spec_slot(K::key_hash(ka), cap0 as int) >= m implies t0@.contains_key(ka)
                    == pairs_has(flat@, ka) by {
                    lemma_pairs_has_append(flatpre, bseq, ka);
                    lemma_pairs_lookup_has(bseq, ka);
                    let home = spec_slot(K::key_hash(ka), cap0 as int);
                    if home == m {
                        assert(!pairs_has(flatpre, ka)) by {
                            if pairs_has(flatpre, ka) {
                                let l = choose|l: int|
                                    0 <= l < flatpre.len() && flatpre[l].0@ == ka;
                                assert(spec_slot(K::key_hash(flatpre[l].0@), cap0 as int) >= m
                                    + 1);
                            }
                        }
                        assert(t0@.contains_key(ka) == (pairs_lookup(bseq, ka) is Some));
                    } else {
                        assert(!pairs_has(bseq, ka)) by {
                            if pairs_has(bseq, ka) {
                                let l = choose|l: int| 0 <= l < bseq.len() && bseq[l].0@ == ka;
                                assert(spec_slot(K::key_hash(bseq[l].0@), cap0 as int) == m);
                            }
                        }
                    }
                }
                assert forall|l: int|
                    0 <= l < flat@.len() implies t0@.contains_key(#[trigger] flat@[l].0@)
                    && t0@[flat@[l].0@] == flat@[l].1@ by {
                    if l >= flatpre.len() {
                        let ka = flat@[l].0@;
                        assert(flat@[l] == bseq[l - flatpre.len()]);
                        lemma_pairs_lookup_at(bseq, ka, l - flatpre.len());
                        assert(spec_slot(K::key_hash(ka), cap0 as int) == m);
                        assert(table_lookup(t0.buckets@, cap0 as int, ka) == Some(
                            flat@[l].1@,
                        ));
                    }
                }
            }
        }
        // Rebuild at double the capacity.
        let mut nb: Vec<Vec<(K, V)>> = Vec::new();
        let mut i: usize = 0;
        while i < cap2
            invariant
                i == nb.len(),
                i <= cap2,
                forall|l: int| 0 <= l < i ==> #[trigger] nb[l]@.len() == 0,
                total_pairs(nb@) == 0,
            decreases cap2 - i,
        {
            let ghost before = nb@;
            nb.push(Vec::new());
            proof {
                assert(nb@.drop_last() =~= before);
            }
            i = i + 1;
        }
        proof {
            assert forall|ka: K::V|
                !(table_lookup(nb@, cap2 as int, ka) is Some) by {
                lemma_pairs_lookup_has(nb@[spec_slot(K::key_hash(ka), cap2 as int)]@, ka);
            }
        }
        while flat.len() > 0
            invariant
                nb.len() == cap2,
                cap2 == 2 * cap0,
                MIN_CAPACITY <= cap0,
                cap2 <= usize::MAX / 2,
                t0.wf(),
                t0.size <= t0.capacity,
                forall|bi: int, l: int|
                    0 <= bi < cap2 && 0 <= l < nb[bi]@.len() ==> spec_slot(
                        K::key_hash(#[trigger] nb[bi]@[l].0@),
                        cap2 as int,
                    ) == bi,
                forall|bi: int| 0 <= bi < cap2 ==> pairs_distinct(#[trigger] nb[bi]@),
                forall|ka: K::V|
                    (t0@.contains_key(ka) && !pairs_has(flat@, ka)) == (table_lookup(
                        nb@,
                        cap2 as int,
                        ka,
                    ) is Some),
                forall|ka: K::V|
                    table_lookup(nb@, cap2 as int, ka) is Some ==> table_lookup(
                        nb@,
                        cap2 as int,
                        ka,
                    ) == Some(t0@[ka]),
                forall|l: int|
                    0 <= l < flat@.len() ==> t0@.contains_key(#[trigger] flat@[l].0@)
                        && t0@[flat@[l].0@] == flat@[l].1@,
                pairs_distinct(flat@),
                total_pairs(nb@) + flat@.len() == t0.size,
            decreases flat.len(),
        {
            let ghost flatpre = flat@;
            let p = flat.pop().unwrap();
            let ghost ka = p.0@;
            let h = p.0.hash_key();
            let idx = (h % (cap2 as u64)) as usize;
            let ghost nbpre = nb@;
            let ghost bpre = nb@[idx as int]@;
            proof {
                assert(flatpre[flatpre.len() - 1].0@ == ka);
                assert(pairs_has(flatpre, ka));
                assert(t0@.contains_key(ka) && t0@[ka] == p.1@);
                assert(!(table_lookup(nbpre, cap2 as int, ka) is Some));
                lemma_pairs_lookup_has(bpre, ka);
                assert(!pairs_has(flat@, ka)) by {
                    if pairs_has(flat@, ka) {
                        let l = choose|l: int| 0 <= l < flat@.len() && flat@[l].0@ == ka;
                        assert(flatpre[l].0@ == ka);
                    }
                }
            }
            nb[idx].push(p);
            proof {
                assert(nb@[idx as int]@ =~= bpre.push(p));
                assert(nb@ =~= nbpre.update(idx as int, nb[idx as int]));
                lemma_total_pairs_update(nbpre, idx as int, nb[idx as int]);
                assert forall|bi: int, l: int|
                    0 <= bi < cap2 && 0 <= l < nb[bi]@.len() implies spec_slot(
                    K::key_hash(#[trigger] nb[bi]@[l].0@),
                    cap2 as int,
                ) == bi by {
                    if bi != idx as int {
                        assert(nb@[bi] == nbpre[bi]);
                    } else if l < bpre.len() {
                        assert(nb@[bi]@[l] == bpre[l]);
                    } else {
                        assert(nb@[bi]@[l] == p);
                    }
                }
                assert forall|bi: int|
                    0 <= bi < cap2 implies pairs_distinct(#[trigger] nb[bi]@) by {
                    if bi != idx as int {
                        assert(nb@[bi] == nbpre[bi]);
                    } else {
                        assert(!pairs_has(bpre, ka));
                        assert forall|j1: int, j2: int|
                            0 <= j1 < j2 < nb@[bi]@.len() implies #[trigger] nb@[bi]@[j1].0@
                            != #[trigger] nb@[bi]@[j2].0@ by {
                            if j2 == bpre.len() {
                                assert(nb@[bi]@[j1] == bpre[j1]);
                                assert(nb@[bi]@[j2] == p);
                            } else {
                                assert(nb@[bi]@[j1] == bpre[j1]);
                                assert(nb@[bi]@[j2] == bpre[j2]);
                            }
                        }
                    }
                }
                assert forall|k2: K::V| #[trigger]
                    table_lookup(nb@, cap2 as int, k2) == if k2 == ka {
                        Some(p.1@)
                    } else {
                        table_lookup(nbpre, cap2 as int, k2)
                    } by {
                    let home = spec_slot(K::key_hash(k2), cap2 as int);
                    if home == idx as int {
                        lemma_pairs_lookup_push(bpre, p, k2);
                        lemma_pairs_lookup_has(bpre, k2);
                    } else {
                        assert(nb@[home] == nbpre[home]);
                        if k2 == ka {
                            assert(spec_slot(K::key_hash(ka), cap2 as int) == idx as int);
                        }
                    }
                }
                assert forall|k2: K::V| #[trigger]
                    pairs_has(flat@, k2) == (pairs_has(flatpre, k2) && k2 != ka) by {
                    if pairs_has(flat@, k2) {
                        let l = choose|l: int| 0 <= l < flat@.len() && flat@[l].0@ == k2;
                        assert(flatpre[l].0@ == k2);
                        if k2 == ka {
                            assert(flatpre[l].0@ == flatpre[flatpre.len() - 1].0@);
                        }
                    }
                    if pairs_has(flatpre, k2) && k2 != ka {
                        let l = choose|l: int| 0 <= l < flatpre.len() && flatpre[l].0@ == k2;
                        assert(l < flat@.len() && flat@[l].0@ == k2);
                    }
                }
                assert forall|k2: K::V|
                    ((t0@.contains_key(k2) && !pairs_has(flat@, k2)) == (#[trigger] table_lookup(
                        nb@,
                        cap2 as int,
                        k2,
                    ) is Some)) && (table_lookup(nb@, cap2 as int, k2) is Some ==> table_lookup(
                        nb@,
                        cap2 as int,
                        k2,
                    ) == Some(t0@[k2])) by {
                    assert(table_lookup(nbpre, cap2 as int, k2) == table_lookup(
                        nbpre,
                        cap2 as int,
                        k2,
                    ));
                    assert(pairs_has(flatpre, k2) == pairs_has(flatpre, k2));
                    if k2 == ka {
                        assert(table_lookup(nb@, cap2 as int, k2) == Some(p.1@));
                        assert(t0@.contains_key(ka) && !pairs_has(flat@, ka));
                        assert(t0@[ka] == p.1@);
                    } else {
                        assert(table_lookup(nb@, cap2 as int, k2) == table_lookup(
                            nbpre,
                            cap2 as int,
                            k2,
                        ));
                        assert(pairs_has(flat@, k2) == pairs_has(flatpre, k2));
                    }
                }
            }
        }
        self.buckets = nb;
        self.capacity = cap2;
        proof {
            assert(is_pow2(cap2 as int));
            assert forall|i2: int| 0 <= i2 < self.buckets.len() implies self.bucket_wf(i2) by {}
            assert forall|ka: K::V| #[trigger]
                self@.contains_key(ka) == t0@.contains_key(ka) by {
                assert(!pairs_has(flat@, ka));
                assert(self@.contains_key(ka) == (table_lookup(
                    self.buckets@,
                    cap2 as int,
                    ka,
                ) is Some));
            }
            assert forall|ka: K::V| #[trigger]
                self@.contains_key(ka) implies self@[ka] == t0@[ka] by {
                assert(!pairs_has(flat@, ka));
            }
            assert(self@ =~= t0@);
        }
    }

    /// Insert `key` with `value`, overwriting the value of an existing
    /// `key` (upsert). When the live-key count has reached the configured
    /// share of the capacity the table first doubles its bucket array and
    /// rehashes every entry; an insert that would need to grow past the
    /// machine's limit is refused unchanged.
    pub fn insert(&mut self, key: K, value: V) -> (r: Result<(), HashMapError>)
        requires
            old(self).wf(),
        ensures
            final(self).wf(),
            match r {
                Ok(()) => final(self)@ == old(self)@.insert(key@, value@),
                Err(_) => final(self)@ == old(self)@,
            },
            (r is Err) == (old(self).spec_needs_resize() && !old(self).spec_can_grow()),
            r is Ok ==> final(self).spec_len() == old(self).spec_len() + (if old(
                self,
            )@.contains_key(key@) {
                0int
            } else {
                1int
            }),
            r is Err ==> *final(self) == *old(self),
            final(self).spec_threshold() == old(self).spec_threshold(),
            final(self).spec_capacity() >= old(self).spec_capacity(),
    {
        if self.needs_resize_now() {
            if self.capacity > usize::MAX / 4 {
                return Err(HashMapError::CapacityExhausted);
            }
            self.resize();
        }
        proof {
            assert(self.threshold_pct * self.capacity <= 100 * self.capacity)
                by (nonlinear_arith)
                requires
                    self.threshold_pct <= 100,
                    self.capacity >= 0,
            ;
            assert(self.size < self.capacity);
        }
        let ghost pre = *self;
        let ghost ka = key@;
        let ghost va = value@;
        let idx = self.slot_index(&key);
        proof {
            assert(pre.bucket_wf(idx as int));
            lemma_pairs_lookup_has(pre.buckets@[idx as int]@, ka);
        }
        let is_new = Self::bucket_insert(&mut self.buckets[idx], key, value);
        proof {
            lemma_total_pairs_update(pre.buckets@, idx as int, self.buckets[idx as int]);
        }
        if is_new {
            self.size = self.size + 1;
        }
        proof {
            assert forall|i: int| 0 <= i < self.buckets.len() implies self.bucket_wf(i) by {
                assert(pre.bucket_wf(i));
                if i != idx as int {
                    assert(self.buckets@[i] == pre.buckets@[i]);
                }
            }
            assert(self@ =~= pre@.insert(ka, va)) by {
                assert forall|k2: K::V| #[trigger]
                    table_lookup(self.buckets@, self.capacity as int, k2) == if k2 == ka {
                        Some(va)
                    } else {
                        table_lookup(pre.buckets@, pre.capacity as int, k2)
                    } by {
                    let home = spec_slot(K::key_hash(k2), self.capacity as int);
                    if home != idx as int {
                        assert(self.buckets@[home] == pre.buckets@[home]);
                    }
                }
            }
        }
        Ok(())
    }

    /// Remove `key` if it is present; removing an absent key is a no-op.
    /// Deletion never fails.
    pub fn delete(&mut self, key: K) -> (r: Result<(), HashMapError>)
        requires
            old(self).wf(),
        ensures
            final(self).wf(),
            r is Ok,
            final(self)@ == old(self)@.remove(key@),
            final(self).spec_len() == old(self).spec_len() - (if old(self)@.contains_key(key@) {
                1int
            } else {
                0int
            }),
            final(self).spec_threshold() == old(self).spec_threshold(),
            final(self).spec_capacity() == old(self).spec_capacity(),
    {
        let ghost pre = *self;
        let ghost ka = key@;
        let idx = self.slot_index(&key);
        proof {
            assert(pre.bucket_wf(idx as int));
            lemma_pairs_lookup_has(pre.buckets@[idx as int]@, ka);
            lemma_total_pairs_at(pre.buckets@, idx as int);
        }
        let removed = Self::bucket_remove(&mut self.buckets[idx], &key);
        proof {
            lemma_total_pairs_update(pre.buckets@, idx as int, self.buckets[idx as int]);
        }
        if removed {
            self.size = self.size - 1;
        }
        proof {
            assert forall|i: int| 0 <= i < self.buckets.len() implies self.bucket_wf(i) by {
                assert(pre.bucket_wf(i));
                if i != idx as int {
                    assert(self.buckets@[i] == pre.buckets@[i]);
                }
            }
            assert(self@ =~= pre@.remove(ka)) by {
                assert forall|k2: K::V| #[trigger]
                    table_lookup(self.buckets@, self.capacity as int, k2) == if k2 == ka {
                        None::<V::V>
                    } else {
                        table_lookup(pre.buckets@, pre.capacity as int, k2)
                    } by {
                    let home = spec_slot(K::key_hash(k2), self.capacity as int);
                    if home != idx as int {
                        assert(self.buckets@[home] == pre.buckets@[home]);
                    }
                }
            }
        }
        Ok(())
    }
}

} // verus!
