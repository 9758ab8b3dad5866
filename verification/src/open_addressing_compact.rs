use crate::common::initial_capacity;
use crate::common::is_pow2;
use crate::common::key_slot;
use crate::common::pairs_distinct;
use crate::common::pairs_has;
use crate::common::DEFAULT_LOAD_FACTOR_PCT;
use crate::common::MIN_CAPACITY;
use crate::errors::HashMapError;
use crate::probing::count_full;
use crate::probing::full_key;
use crate::probing::full_value;
use crate::probing::lemma_count_full_at;
use crate::probing::lemma_count_full_bounds;
use crate::probing::lemma_count_is_card;
use crate::probing::lemma_probe_absent;
use crate::probing::lemma_slots_delete;
use crate::probing::lemma_slots_map_at;
use crate::probing::lemma_slots_overwrite;
use crate::probing::lemma_slots_place;
use crate::probing::pair_in_suffix;
use crate::probing::path_clear;
use crate::probing::probe_dist;
use crate::probing::slot_home;
use crate::probing::slots_has;
use crate::probing::slots_map;
use crate::probing::slots_wf;
use crate::probing::step_idx;
use crate::probing::step_of;
use crate::probing::SlotModel;
use vstd::prelude::*;

pub use crate::keys::Key;
pub use crate::keys::Value;

verus! {

/// Two-bit status code: the slot has never held an entry.
pub const EMPTY: u8 = 0b00;

/// Two-bit status code: the slot held an entry that was deleted; probe
/// sequences step over it.
pub const DELETED: u8 = 0b01;

/// Two-bit status code: the slot holds a live entry.
pub const OCCUPIED: u8 = 0b11;

/// The two-bit field `sub` (0 to 3) of a packed status byte.
pub open spec fn byte_status(b: u8, sub: int) -> u8 {
    (b >> ((sub * 2) as u8)) & 3
}

proof fn lemma_status_bits(b: u8, s: u8, off: u8, off2: u8)
    requires
        off == 0 || off == 2 || off == 4 || off == 6,
        off2 == 0 || off2 == 2 || off2 == 4 || off2 == 6,
    ensures
        off2 == off ==> (((b & !(3u8 << off)) | ((s & 3) << off)) >> off2) & 3 == s & 3,
        off2 != off ==> (((b & !(3u8 << off)) | ((s & 3) << off)) >> off2) & 3 == (b >> off2)
            & 3,
{
    assert((off2 == off ==> (((b & !(3u8 << off)) | ((s & 3) << off)) >> off2) & 3 == s & 3)
        && (off2 != off ==> (((b & !(3u8 << off)) | ((s & 3) << off)) >> off2) & 3 == (b
        >> off2) & 3)) by (bit_vector)
        requires
            off == 0 || off == 2 || off == 4 || off == 6,
            off2 == 0 || off2 == 2 || off2 == 4 || off2 == 6,
    ;
}

proof fn lemma_zero_status(off: u8)
    requires
        off == 0 || off == 2 || off == 4 || off == 6,
    ensures
        ((0u8 >> off) & 3) == 0,
{
    assert(((0u8 >> off) & 3) == 0) by (bit_vector);
}

/// Memory-compact open-addressing hash table: the same linear probing with
/// tombstones as the plain open-addressing engine, but each slot's status
/// is two bits packed four-to-a-byte in a status array that runs parallel
/// to a flat entry array. Entries at empty or deleted indices hold stale or
/// absent pairs and are never read as live data; the status bits alone
/// decide what a slot means.
pub struct HashMap<K, V> where K: Key, V: Value {
    status_bits: Vec<u8>,
    entries: Vec<Option<(K, V)>>,
    capacity: usize,
    size: usize,
    threshold_pct: usize,
}

impl<K, V> HashMap<K, V> where K: Key, V: Value {
    /// The capacity of the table.
    pub closed spec fn spec_capacity(self) -> int {
        self.capacity as int
    }

    /// The two-bit status of slot `i`, as decoded from the packed bytes.
    pub closed spec fn spec_status(self, i: int) -> u8 {
        byte_status(self.status_bits@[i / 4], i % 4)
    }

    /// The status array has one two-bit field for each of the `capacity`
    /// slots: the shape that reading and writing statuses relies on.
    pub closed spec fn bits_wf(self) -> bool {
        &&& self.status_bits@.len() == (self.capacity + 3) / 4
        &&& self.capacity <= usize::MAX / 2
    }

    /// Everything but the status bits is unchanged between the two states.
    pub closed spec fn same_but_status(self, other: Self) -> bool {
        &&& self.entries@ == other.entries@
        &&& self.capacity == other.capacity
        &&& self.size == other.size
        &&& self.threshold_pct == other.threshold_pct
    }

    /// The slot array, read abstractly from the status bits and the entry
    /// array.
    pub closed spec fn slots(self) -> Seq<SlotModel<K::V, V::V>> {
        Seq::new(
            self.entries@.len(),
            |i: int|
                if self.spec_status(i) == OCCUPIED {
                    SlotModel::Full {
                        key: (self.entries@[i]->0).0@,
                        value: (self.entries@[i]->0).1@,
                    }
                } else if self.spec_status(i) == DELETED {
                    SlotModel::Tomb
                } else {
                    SlotModel::Vacant
                },
        )
    }

    /// Structural well-formedness: the status and entry arrays are
    /// index-aligned at `capacity`, every status decodes to a legal code,
    /// every occupied index holds a live pair, keys are unique, every live
    /// key is reachable along its probe sequence, and `size` counts the
    /// live keys.
    pub closed spec fn wf(self) -> bool {
        &&& self.bits_wf()
        &&& self.entries.len() == self.capacity
        &&& is_pow2(self.capacity as int)
        &&& self.capacity >= MIN_CAPACITY
        &&& 1 <= self.threshold_pct <= 100
        &&& forall|i: int|
            0 <= i < self.capacity ==> ((#[trigger] self.spec_status(i)) == EMPTY
                || self.spec_status(i) == DELETED || self.spec_status(i) == OCCUPIED)
        &&& forall|i: int|
            0 <= i < self.capacity && (#[trigger] self.spec_status(i)) == OCCUPIED
                ==> self.entries@[i] is Some
        &&& slots_wf::<K, V>(self.slots(), self.capacity as int)
        &&& self.size as int == count_full(self.slots())
        &&& self.size <= self.capacity
    }

    /// The abstract contents.
    pub closed spec fn as_map(self) -> Map<K::V, V::V> {
        slots_map::<K, V>(self.slots())
    }

    /// The count of live keys the table maintains.
    pub closed spec fn spec_len(self) -> int {
        self.size as int
    }

    /// The percentage of the capacity at which an insert grows the table.
    pub closed spec fn spec_threshold(self) -> int {
        self.threshold_pct as int
    }

    /// An insert at the current state would grow the table first.
    pub open spec fn spec_needs_resize(self) -> bool {
        100 * self.spec_len() >= self.spec_threshold() * self.spec_capacity()
    }

    /// The table still has room to double its slot array.
    pub open spec fn spec_can_grow(self) -> bool {
        self.spec_capacity() <= usize::MAX as int / 4
    }
}

impl<K, V> View for HashMap<K, V> where K: Key, V: Value {
    type V = Map<K::V, V::V>;

    open spec fn view(&self) -> Map<K::V, V::V> {
        self.as_map()
    }
}

impl<K, V> HashMap<K, V> where K: Key, V: Value {
    /// Read the two-bit status of slot `index` from the packed byte it
    /// shares with up to three neighbouring slots.
    pub fn get_status(&self, index: usize) -> (s: u8)
        requires
            self.bits_wf(),
            index < self.spec_capacity(),
        ensures
            s == self.spec_status(index as int),
    {
        let byte_idx = index / 4;
        let bit_offset: u8 = ((index % 4) * 2) as u8;
        (self.status_bits[byte_idx] >> bit_offset) & 0b11
    }

    /// Write the two-bit status of slot `index`: clear the two bits of its
    /// field in the shared byte, then set the new code. The status read
    /// back for every other slot — in particular the neighbours packed into
    /// the same byte — is unchanged.
    pub fn set_status(&mut self, index: usize, status: u8)
        requires
            old(self).bits_wf(),
            index < old(self).spec_capacity(),
        ensures
            final(self).bits_wf(),
            final(self).same_but_status(*old(self)),
            final(self).spec_status(index as int) == status & 3,
            forall|j: int|
                0 <= j < old(self).spec_capacity() && j != index ==> final(self).spec_status(j)
                    == old(self).spec_status(j),
    {
        let byte_idx = index / 4;
        let bit_offset: u8 = ((index % 4) * 2) as u8;
        let b = self.status_bits[byte_idx];
        let nb = (b & !(0b11u8 << bit_offset)) | ((status & 0b11) << bit_offset);
        self.status_bits.set(byte_idx, nb);
        proof {
            assert forall|j: int|
                0 <= j < old(self).spec_capacity() && j != index implies self.spec_status(j)
                == old(self).spec_status(j) by {
                if j / 4 == index as int / 4 {
                    assert(j % 4 != index as int % 4);
                    lemma_status_bits(b, status, bit_offset, ((j % 4) * 2) as u8);
                }
            }
            lemma_status_bits(b, status, bit_offset, bit_offset);
        }
    }

    /// An empty table with exactly `cap` slots.
    fn make_empty(cap: usize, threshold_pct: usize) -> (m: Self)
        requires
            is_pow2(cap as int),
            MIN_CAPACITY <= cap <= usize::MAX / 2,
            1 <= threshold_pct <= 100,
        ensures
            m.wf(),
            m@ == Map::<K::V, V::V>::empty(),
            m.capacity == cap,
            m.size == 0,
            m.threshold_pct == threshold_pct,
    {
        let status_size = (cap - 1) / 4 + 1;
        let mut status_bits: Vec<u8> = Vec::new();
        let mut i: usize = 0;
        while i < status_size
            invariant
                i == status_bits.len(),
                i <= status_size,
                forall|j: int| 0 <= j < i ==> #[trigger] status_bits@[j] == 0u8,
            decreases status_size - i,
        {
            status_bits.push(0);
            i = i + 1;
        }
        let mut entries: Vec<Option<(K, V)>> = Vec::new();
        let mut e: usize = 0;
        while e < cap
            invariant
                e == entries.len(),
                e <= cap,
            decreases cap - e,
        {
            entries.push(None);
            e = e + 1;
        }
        let m = HashMap { status_bits, entries, capacity: cap, size: 0, threshold_pct };
        proof {
            assert(status_size == (cap + 3) / 4);
            assert forall|i2: int| 0 <= i2 < cap implies #[trigger] m.spec_status(i2)
                == EMPTY by {
                lemma_zero_status(((i2 % 4) * 2) as u8);
            }
            assert forall|i2: int| 0 <= i2 < cap implies !((#[trigger] m.slots()[i2])
                is Full) by {}
            lemma_count_full_bounds(m.slots());
            assert(m@ =~= Map::<K::V, V::V>::empty());
        }
        m
    }

    /// Create an empty table with the default load-factor threshold. The
    /// capacity hint is rounded up to the next power of two, floor
    /// `MIN_CAPACITY`.
    pub fn new(capacity: usize) -> (m: Self)
        requires
            capacity <= usize::MAX / 4,
        ensures
            m.wf(),
            m@ == Map::<K::V, V::V>::empty(),
            MIN_CAPACITY <= m.spec_capacity(),
            capacity <= m.spec_capacity(),
            is_pow2(m.spec_capacity()),
            m.spec_capacity() == MIN_CAPACITY || m.spec_capacity() < 2 * capacity,
            m.spec_len() == 0,
            m.spec_threshold() == DEFAULT_LOAD_FACTOR_PCT as int,
            !m.spec_needs_resize(),
    {
        Self::with_threshold(capacity, DEFAULT_LOAD_FACTOR_PCT)
    }

    /// Create an empty table that grows once the live-key count reaches
    /// `threshold_pct` percent of the capacity.
    pub fn with_threshold(capacity: usize, threshold_pct: usize) -> (m: Self)
        requires
            capacity <= usize::MAX / 4,
            1 <= threshold_pct <= 100,
        ensures
            m.wf(),
            m@ == Map::<K::V, V::V>::empty(),
            MIN_CAPACITY <= m.spec_capacity(),
            capacity <= m.spec_capacity(),
            is_pow2(m.spec_capacity()),
            m.spec_capacity() == MIN_CAPACITY || m.spec_capacity() < 2 * capacity,
            m.spec_len() == 0,
            m.spec_threshold() == threshold_pct as int,
            !m.spec_needs_resize(),
    {
        let cap = initial_capacity(capacity);
        proof {
            assert(threshold_pct * cap >= 16) by (nonlinear_arith)
                requires
                    threshold_pct >= 1,
                    cap >= 16,
            ;
        }
        Self::make_empty(cap, threshold_pct)
    }

    /// The size the table maintains counts exactly the distinct live keys
    /// of its abstract contents: inserts of fresh keys, upserts, deletions
    /// and resizes never let the two drift apart.
    pub proof fn lemma_len_counts_keys(self)
        requires
            self.wf(),
        ensures
            self@.dom().finite(),
            self.spec_len() == self@.dom().len(),
    {
        lemma_count_is_card::<K, V>(self.slots());
    }

    /// Number of live keys in the table: the cardinality of the abstract
    /// contents.
    pub fn len(&self) -> (n: usize)
        requires
            self.wf(),
        ensures
            n as int == self.spec_len(),
            self@.dom().finite(),
            n as int == self@.dom().len(),
    {
        proof {
            self.lemma_len_counts_keys();
        }
        self.size
    }

    /// The load-factor check that decides whether an insert grows the table
    /// before it places its entry.
    fn needs_resize_now(&self) -> (b: bool)
        requires
            self.wf(),
        ensures
            b == self.spec_needs_resize(),
    {
        proof {
            assert((self.threshold_pct as u128) * (self.capacity as u128) < 0x7fffffffffffffffffffffffffffffff
                as u128) by (nonlinear_arith)
                requires
                    self.threshold_pct <= 100,
                    self.capacity <= 0xffffffffffffffffu128,
            ;
        }
        (self.size as u128) * 100 >= (self.threshold_pct as u128) * (self.capacity as u128)
    }

    /// Walk the probe sequence from `key`'s home slot. Returns the slot
    /// holding `key` if the walk finds it, and the first non-occupied slot
    /// the walk stepped over — the slot an insert of an absent `key` would
    /// use.
    fn probe(&self, key: &K) -> (r: (Option<usize>, Option<usize>))
        requires
            self.wf(),
        ensures
            match r.0 {
                Some(i) => i < self.capacity && self.slots()[i as int] is Full && full_key(
                    self.slots()[i as int],
                ) == key@,
                None => !slots_has::<K, V>(self.slots(), key@),
            },
            match r.1 {
                Some(f) => f < self.capacity && !(self.slots()[f as int] is Full) && path_clear(
                    self.slots(),
                    self.capacity as int,
                    slot_home::<K>(key@, self.capacity as int),
                    probe_dist(
                        self.capacity as int,
                        slot_home::<K>(key@, self.capacity as int),
                        f as int,
                    ),
                ),
                None => true,
            },
            (r.0 is None && r.1 is None) ==> forall|j: int|
                0 <= j < self.slots().len() ==> #[trigger] self.slots()[j] is Full,
    {
        let cap = self.capacity;
        let h = key_slot::<K>(key, cap);
        let ghost s = self.slots();
        let ghost capi = cap as int;
        let ghost hh = h as int;
        let mut ff: Option<usize> = None;
        let ghost mut dff: int = 0;
        let mut t: usize = 0;
        while t < cap
            invariant
                self.wf(),
                s == self.slots(),
                cap == self.capacity,
                capi == cap as int,
                h < cap,
                hh == h as int,
                hh == slot_home::<K>(key@, capi),
                t <= cap,
                forall|i: int|
                    0 <= i < t ==> !((#[trigger] s[step_idx(capi, hh, i)]) is Full && full_key(
                        s[step_idx(capi, hh, i)],
                    ) == key@),
                match ff {
                    Some(f) => 0 <= dff < t && f < cap && f as int == step_idx(capi, hh, dff)
                        && !(s[f as int] is Full) && (forall|i: int|
                        0 <= i < dff ==> (#[trigger] s[step_idx(capi, hh, i)]) is Full),
                    None => forall|i: int|
                        0 <= i < t ==> (#[trigger] s[step_idx(capi, hh, i)]) is Full,
                },
            decreases cap - t,
        {
            let idx = step_of(cap, h, t);
            let st = self.get_status(idx);
            if st == OCCUPIED {
                let hit = match &self.entries[idx] {
                    Some(p) => p.0.eq_key(key),
                    None => false,
                };
                if hit {
                    proof {
                        assert(s[idx as int] is Full && full_key(s[idx as int]) == key@);
                    }
                    return (Some(idx), ff);
                }
            } else if st == EMPTY {
                let ffr = match ff {
                    Some(f) => Some(f),
                    None => Some(idx),
                };
                proof {
                    if ff is None {
                        dff = t as int;
                    }
                    assert(s[idx as int] is Vacant);
                    lemma_probe_absent::<K, V>(s, capi, key@, t as int);
                }
                return (None, ffr);
            } else {
                proof {
                    assert(st == DELETED);
                }
                if ff.is_none() {
                    ff = Some(idx);
                    proof {
                        dff = t as int;
                    }
                }
            }
            t = t + 1;
        }
        proof {
            lemma_probe_absent::<K, V>(s, capi, key@, capi);
            if ff is None {
                assert forall|j: int| 0 <= j < s.len() implies #[trigger] s[j] is Full by {
                    let d = probe_dist(capi, hh, j);
                    assert(step_idx(capi, hh, d) == j);
                    assert(s[step_idx(capi, hh, d)] is Full);
                }
            }
        }
        (None, ff)
    }

    /// Look `key` up and hand back a copy of its stored value, or nothing
    /// when the key is absent. Lookups never fail.
    pub fn get(&self, key: K) -> (r: Result<Option<V>, HashMapError>)
        requires
            self.wf(),
        ensures
            match r {
                Ok(Some(v)) => self@.contains_key(key@) && v@ == self@[key@],
                Ok(None) => !self@.contains_key(key@),
                Err(_) => false,
            },
    {
        let (found, _) = self.probe(&key);
        match found {
            Some(i) => {
                proof {
                    lemma_slots_map_at::<K, V>(self.slots(), i as int);
                }
                match &self.entries[i] {
                    Some(p) => Ok(Some(p.1.clone_value())),
                    None => {
                        proof {
                            assert(false);
                        }
                        Ok(None)
                    },
                }
            },
            None => Ok(None),
        }
    }

    /// Place `key` without growing: overwrite the entry of the slot that
    /// already holds it, leaving status and size alone, or claim the first
    /// non-occupied slot of its probe sequence.
    fn insert_no_grow(&mut self, key: K, value: V)
        requires
            old(self).wf(),
            old(self).size < old(self).capacity,
        ensures
            final(self).wf(),
            final(self)@ == old(self)@.insert(key@, value@),
            final(self).capacity == old(self).capacity,
            final(self).threshold_pct == old(self).threshold_pct,
            final(self).size == old(self).size + (if old(self)@.contains_key(key@) {
                0int
            } else {
                1int
            }),
    {
        let ghost s = self.slots();
        let ghost capi = self.capacity as int;
        let (found, ff) = self.probe(&key);
        match found {
            Some(i) => {
                proof {
                    lemma_slots_map_at::<K, V>(s, i as int);
                    lemma_slots_overwrite::<K, V>(s, capi, i as int, value@);
                }
                self.entries.set(i, Some((key, value)));
                proof {
                    assert forall|j: int|
                        0 <= j < capi implies (#[trigger] self.spec_status(j)) == old(
                        self,
                    ).spec_status(j) by {}
                    assert forall|j: int|
                        0 <= j < capi && (#[trigger] self.spec_status(j)) == OCCUPIED
                        implies self.entries@[j] is Some by {
                        if j != i as int {
                            assert(self.entries@[j] == old(self).entries@[j]);
                        }
                    }
                    assert(self.slots() =~= s.update(
                        i as int,
                        SlotModel::Full { key: key@, value: value@ },
                    ));
                }
            },
            None => {
                match ff {
                    Some(f) => {
                        proof {
                            lemma_slots_place::<K, V>(s, capi, f as int, key@, value@);
                        }
                        self.entries.set(f, Some((key, value)));
                        proof {
                            assert(self.spec_status(f as int) != OCCUPIED);
                            assert forall|j: int|
                                0 <= j < capi && j != f implies #[trigger] self.slots()[j]
                                == s[j] by {}
                        }
                        let ghost mid2 = *self;
                        self.set_status(f, OCCUPIED);
                        self.size = self.size + 1;
                        proof {
                            assert(OCCUPIED & 3 == OCCUPIED) by (bit_vector);
                            assert forall|j: int|
                                0 <= j < capi && j != f implies #[trigger] self.slots()[j]
                                == s[j] by {
                                assert(self.spec_status(j) == mid2.spec_status(j));
                                assert(self.entries@[j] == mid2.entries@[j]);
                            }
                            assert forall|j: int|
                                0 <= j < capi implies ((#[trigger] self.spec_status(j))
                                == EMPTY || self.spec_status(j) == DELETED
                                || self.spec_status(j) == OCCUPIED) by {
                                if j != f as int {
                                    assert(self.spec_status(j) == mid2.spec_status(j));
                                    assert(mid2.spec_status(j) == old(self).spec_status(j));
                                }
                            }
                            assert forall|j: int|
                                0 <= j < capi && (#[trigger] self.spec_status(j)) == OCCUPIED
                                implies self.entries@[j] is Some by {
                                if j != f as int {
                                    assert(self.spec_status(j) == mid2.spec_status(j));
                                    assert(mid2.spec_status(j) == old(self).spec_status(j));
                                    assert(self.entries@[j] == old(self).entries@[j]);
                                }
                            }
                            assert(self.slots()[f as int] == (SlotModel::Full {
                                key: key@,
                                value: value@,
                            }));
                            assert(self.slots() =~= s.update(
                                f as int,
                                SlotModel::Full { key: key@, value: value@ },
                            ));
                        }
                    },
                    None => {
                        proof {
                            lemma_count_full_bounds(s);
                            assert(false);
                        }
                    },
                }
            },
        }
    }

    /// Insert `key` with `value`, overwriting the value of an existing
    /// `key` in place (upsert) without touching status or size. When the
    /// live-key count has reached the configured share of the capacity the
    /// table first doubles both arrays and rehashes every live entry —
    /// which also clears all tombstones; an insert that would need to grow
    /// past the machine's limit is refused unchanged.
    pub fn insert(&mut self, key: K, value: V) -> (r: Result<(), HashMapError>)
        requires
            old(self).wf(),
        ensures
            final(self).wf(),
            match r {
                Ok(()) => final(self)@ == old(self)@.insert(key@, value@),
                Err(_) => final(self)@ == old(self)@,
            },
            (r is Err) == (old(self).spec_needs_resize() && !old(self).spec_can_grow()),
            r is Ok ==> final(self).spec_len() == old(self).spec_len() + (if old(
                self,
            )@.contains_key(key@) {
                0int
            } else {
                1int
            }),
            r is Err ==> *final(self) == *old(self),
            final(self).spec_threshold() == old(self).spec_threshold(),
            final(self).spec_capacity() >= old(self).spec_capacity(),
    {
        if self.needs_resize_now() {
            if self.capacity > usize::MAX / 4 {
                return Err(HashMapError::CapacityExhausted);
            }
            self.resize();
        }
        proof {
            assert(self.threshold_pct * self.capacity <= 100 * self.capacity)
                by (nonlinear_arith)
                requires
                    self.threshold_pct <= 100,
                    self.capacity >= 0,
            ;
            assert(self.size < self.capacity);
        }
        self.insert_no_grow(key, value);
        Ok(())
    }

    /// Remove `key` if it is present, marking its slot deleted so that
    /// probe sequences running through it stay unbroken; the stale entry is
    /// never again read as live data. Removing an absent key is a no-op.
    /// Deletion never fails.
    pub fn delete(&mut self, key: K) -> (r: Result<(), HashMapError>)
        requires
            old(self).wf(),
        ensures
            final(self).wf(),
            r is Ok,
            final(self)@ == old(self)@.remove(key@),
            final(self).spec_len() == old(self).spec_len() - (if old(self)@.contains_key(key@) {
                1int
            } else {
                0int
            }),
            final(self).spec_threshold() == old(self).spec_threshold(),
            final(self).spec_capacity() == old(self).spec_capacity(),
    {
        let ghost s = self.slots();
        let ghost capi = self.capacity as int;
        let (found, _) = self.probe(&key);
        match found {
            Some(i) => {
                proof {
                    lemma_slots_map_at::<K, V>(s, i as int);
                    lemma_slots_delete::<K, V>(s, capi, i as int);
                    lemma_count_full_at(s, i as int);
                }
                let ghost mid = *self;
                self.set_status(i, DELETED);
                self.size = self.size - 1;
                proof {
                    assert(DELETED & 3 == DELETED) by (bit_vector);
                    assert forall|j: int|
                        0 <= j < capi && j != i implies #[trigger] self.slots()[j] == s[j] by {
                        assert(self.spec_status(j) == mid.spec_status(j));
                    }
                    assert forall|j: int|
                        0 <= j < capi implies ((#[trigger] self.spec_status(j)) == EMPTY
                        || self.spec_status(j) == DELETED || self.spec_status(j)
                        == OCCUPIED) by {
                        if j != i as int {
                            assert(self.spec_status(j) == mid.spec_status(j));
                        }
                    }
                    assert forall|j: int|
                        0 <= j < capi && (#[trigger] self.spec_status(j)) == OCCUPIED
                        implies self.entries@[j] is Some by {
                        if j != i as int {
                            assert(self.spec_status(j) == mid.spec_status(j));
                        }
                    }
                    assert(self.slots()[i as int] is Tomb);
                    assert(self.slots() =~= s.update(i as int, SlotModel::Tomb));
                }
                Ok(())
            },
            None => {
                proof {
                    assert(self@.remove(key@) =~= self@);
                }
                Ok(())
            },
        }
    }

    /// Double both arrays and rehash every live entry into them, dropping
    /// tombstones and stale entries. The abstract contents are unchanged;
    /// the old storage is discarded.
    #[verifier::rlimit(80)]
    fn resize(&mut self)
        requires
            old(self).wf(),
            old(self).spec_can_grow(),
        ensures
            final(self).wf(),
            final(self)@ == old(self)@,
            final(self).size == old(self).size,
            final(self).threshold_pct == old(self).threshold_pct,
            final(self).capacity == 2 * old(self).capacity,
            final(self).size < final(self).capacity,
    {
        let ghost t0 = *self;
        let ghost s0 = self.slots();
        let cap0 = self.capacity;
        // Gather the live pairs; the entry array shrinks to a prefix while
        // the status bits keep describing the old slots.
        let mut flat: Vec<(K, V)> = Vec::new();
        proof {
            assert(self.entries@ =~= t0.entries@.subrange(0, self.entries@.len() as int));
            assert(s0.subrange(0, s0.len() as int) =~= s0);
        }
        while self.entries.len() > 0
            invariant
                t0.wf(),
                s0 == t0.slots(),
                cap0 == t0.capacity,
                self.capacity == t0.capacity,
                self.size == t0.size,
                self.threshold_pct == t0.threshold_pct,
                self.status_bits@ == t0.status_bits@,
                self.entries@ =~= t0.entries@.subrange(0, self.entries@.len() as int),
                self.entries@.len() <= cap0,
                forall|j: int|
                    self.entries@.len() <= j < cap0 && (#[trigger] s0[j]) is Full ==> pairs_has(
                        flat@,
                        full_key(s0[j]),
                    ),
                forall|l: int|
                    0 <= l < flat@.len() ==> t0@.contains_key(#[trigger] flat@[l].0@)
                        && t0@[flat@[l].0@] == flat@[l].1@,
                forall|l: int|
                    0 <= l < flat@.len() ==> pair_in_suffix::<K, V>(
                        s0,
                        self.entries@.len() as int,
                        #[trigger] flat@[l],
                    ),
                pairs_distinct(flat@),
                flat@.len() + count_full(s0.subrange(0, self.entries@.len() as int))
                    == t0.size,
            decreases self.entries.len(),
        {
            let ghost preflat = flat@;
            let idx = self.entries.len() - 1;
            let st = self.get_status(idx);
            let e = self.entries.pop().unwrap();
            let ghost m = self.entries@.len() as int;
            proof {
                assert(s0.subrange(0, m + 1).drop_last() =~= s0.subrange(0, m));
                assert(t0.spec_status(m) == st);
                assert(e == t0.entries@[m]);
            }
            if st == OCCUPIED {
                let p = match e {
                    Some(p) => p,
                    None => {
                        proof {
                            assert(false);
                        }
                        unreached()
                    },
                };
                proof {
                    assert(s0[m] is Full && full_key(s0[m]) == p.0@ && full_value(s0[m])
                        == p.1@);
                    lemma_slots_map_at::<K, V>(s0, m);
                }
                flat.push(p);
                proof {
                    assert forall|j: int|
                        m <= j < cap0 && (#[trigger] s0[j]) is Full implies pairs_has(
                        flat@,
                        full_key(s0[j]),
                    ) by {
                        if j == m {
                            assert(flat@[flat@.len() - 1].0@ == full_key(s0[m]));
                        } else {
                            let l = choose|l: int|
                                0 <= l < preflat.len() && preflat[l].0@ == full_key(s0[j]);
                            assert(flat@[l].0@ == full_key(s0[j]));
                        }
                    }
                    assert forall|l: int|
                        0 <= l < flat@.len() implies pair_in_suffix::<K, V>(
                        s0,
                        m,
                        #[trigger] flat@[l],
                    ) by {
                        if l < preflat.len() {
                            assert(pair_in_suffix::<K, V>(s0, m + 1, preflat[l]));
                            let j = choose|j: int|
                                m + 1 <= j < s0.len() && (#[trigger] s0[j]) is Full && full_key(
                                    s0[j],
                                ) == preflat[l].0@;
                            assert(m <= j < s0.len() && s0[j] is Full && full_key(s0[j])
                                == flat@[l].0@);
                        } else {
                            assert(m <= m < s0.len() && s0[m] is Full && full_key(s0[m])
                                == flat@[l].0@);
                        }
                    }
                    assert forall|l1: int, l2: int|
                        0 <= l1 < l2 < flat@.len() implies #[trigger] flat@[l1].0@
                        != #[trigger] flat@[l2].0@ by {
                        if l2 == flat@.len() - 1 {
                            if flat@[l1].0@ == flat@[l2].0@ {
                                assert(pair_in_suffix::<K, V>(s0, m + 1, preflat[l1]));
                                let j = choose|j: int|
                                    m + 1 <= j < s0.len() && (#[trigger] s0[j]) is Full
                                        && full_key(s0[j]) == preflat[l1].0@;
                                assert(s0[j] is Full && s0[m] is Full && j != m && full_key(
                                    s0[j],
                                ) == full_key(s0[m]));
                                assert(false);
                            }
                        } else {
                            assert(preflat[l1].0@ != preflat[l2].0@);
                        }
                    }
                }
            } else {
                proof {
                    assert(!(s0[m] is Full));
                }
            }
        }
        // Rebuild at double the capacity, reinserting each live pair.
        let cap2 = cap0 * 2;
        let mut nt = Self::make_empty(cap2, self.threshold_pct);
        proof {
            assert(s0.subrange(0, 0) =~= Seq::<SlotModel<K::V, V::V>>::empty());
            assert(count_full(Seq::<SlotModel<K::V, V::V>>::empty()) == 0);
            assert forall|ka: K::V| #[trigger]
                t0@.contains_key(ka) == pairs_has(flat@, ka) by {
                if t0@.contains_key(ka) {
                    let j = choose|j: int|
                        0 <= j < s0.len() && (#[trigger] s0[j]) is Full && full_key(s0[j]) == ka;
                }
                if pairs_has(flat@, ka) {
                    let l = choose|l: int| 0 <= l < flat@.len() && flat@[l].0@ == ka;
                }
            }
        }
        while flat.len() > 0
            invariant
                t0.wf(),
                cap0 == t0.capacity,
                cap2 == 2 * cap0,
                nt.wf(),
                nt.capacity == cap2,
                nt.threshold_pct == t0.threshold_pct,
                forall|ka: K::V| #[trigger]
                    nt@.contains_key(ka) == (t0@.contains_key(ka) && !pairs_has(flat@, ka)),
                forall|ka: K::V| #[trigger] nt@.contains_key(ka) ==> nt@[ka] == t0@[ka],
                forall|l: int|
                    0 <= l < flat@.len() ==> t0@.contains_key(#[trigger] flat@[l].0@)
                        && t0@[flat@[l].0@] == flat@[l].1@,
                pairs_distinct(flat@),
                nt.size + flat@.len() == t0.size,
                t0.size <= t0.capacity,
            decreases flat.len(),
        {
            let ghost preflat = flat@;
            let p = flat.pop().unwrap();
            let (k, v) = p;
            let ghost ka = k@;
            proof {
                assert(preflat[preflat.len() - 1].0@ == ka);
                assert(pairs_has(preflat, ka));
                assert(!nt@.contains_key(ka));
                assert(nt.size < nt.capacity);
            }
            nt.insert_no_grow(k, v);
            proof {
                assert forall|k2: K::V| #[trigger]
                    pairs_has(flat@, k2) == (pairs_has(preflat, k2) && k2 != ka) by {
                    if pairs_has(flat@, k2) {
                        let l = choose|l: int| 0 <= l < flat@.len() && flat@[l].0@ == k2;
                        assert(preflat[l].0@ == k2);
                        if k2 == ka {
                            assert(preflat[l].0@ == preflat[preflat.len() - 1].0@);
                        }
                    }
                    if pairs_has(preflat, k2) && k2 != ka {
                        let l = choose|l: int| 0 <= l < preflat.len() && preflat[l].0@ == k2;
                        assert(l < flat@.len() && flat@[l].0@ == k2);
                    }
                }
            }
        }
        *self = nt;
        proof {
            assert forall|ka: K::V| #[trigger]
                self@.contains_key(ka) == t0@.contains_key(ka) by {
                assert(!pairs_has(flat@, ka));
            }
            assert forall|ka: K::V| #[trigger]
                self@.contains_key(ka) implies self@[ka] == t0@[ka] by {}
            assert(self@ =~= t0@);
        }
    }
}

} // verus!
