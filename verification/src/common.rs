use crate::keys::Key;
use crate::keys::Value;
use vstd::prelude::*;

verus! {

/// Percentage form of the load factor at which an insert grows the table.
pub const DEFAULT_LOAD_FACTOR_PCT: usize = 70;

/// The smallest capacity any table is created with.
pub const MIN_CAPACITY: usize = 16;

/// `c` is a power of two.
pub open spec fn is_pow2(c: int) -> bool
    decreases c,
{
    if c <= 0 {
        false
    } else if c == 1 {
        true
    } else {
        c % 2 == 0 && is_pow2(c / 2)
    }
}

/// The home slot of a key with hash `h` in a table of `cap` slots.
pub open spec fn spec_slot(h: u64, cap: int) -> int {
    h as int % cap
}

/// Some bucket pair has key abstraction `ka`.
pub open spec fn pairs_has<K: Key, V: Value>(b: Seq<(K, V)>, ka: K::V) -> bool {
    exists|j: int| 0 <= j < b.len() && b[j].0@ == ka
}

/// No two pairs of the bucket share a key abstraction.
pub open spec fn pairs_distinct<K: Key, V: Value>(b: Seq<(K, V)>) -> bool {
    forall|j1: int, j2: int| 0 <= j1 < j2 < b.len() ==> #[trigger] b[j1].0@ != #[trigger] b[j2].0@
}

/// The value carried by the first pair with key abstraction `ka`, if any.
pub open spec fn pairs_lookup<K: Key, V: Value>(b: Seq<(K, V)>, ka: K::V) -> Option<V::V>
    decreases b.len(),
{
    if b.len() == 0 {
        None
    } else if b[0].0@ == ka {
        Some(b[0].1@)
    } else {
        pairs_lookup(b.drop_first(), ka)
    }
}

pub(crate) proof fn lemma_pairs_lookup_has<K: Key, V: Value>(b: Seq<(K, V)>, ka: K::V)
    ensures
        (pairs_lookup(b, ka) is Some) == pairs_has(b, ka),
    decreases b.len(),
{
    if b.len() > 0 && b[0].0@ != ka {
        lemma_pairs_lookup_has(b.drop_first(), ka);
        assert(pairs_has(b.drop_first(), ka) ==> pairs_has(b, ka)) by {
            if pairs_has(b.drop_first(), ka) {
                let j = choose|j: int|
                    0 <= j < b.drop_first().len() && b.drop_first()[j].0@ == ka;
                assert(b[j + 1].0@ == ka);
            }
        }
        assert(pairs_has(b, ka) ==> pairs_has(b.drop_first(), ka)) by {
            if pairs_has(b, ka) {
                let j = choose|j: int| 0 <= j < b.len() && b[j].0@ == ka;
                assert(b.drop_first()[j - 1].0@ == ka);
            }
        }
    }
}

pub(crate) proof fn lemma_pairs_lookup_at<K: Key, V: Value>(b: Seq<(K, V)>, ka: K::V, j: int)
    requires
        pairs_distinct(b),
        0 <= j < b.len(),
        b[j].0@ == ka,
    ensures
        pairs_lookup(b, ka) == Some(b[j].1@),
    decreases j,
{
    if j > 0 {
        lemma_pairs_lookup_at(b.drop_first(), ka, j - 1);
    }
}

pub(crate) proof fn lemma_pairs_lookup_push<K: Key, V: Value>(b: Seq<(K, V)>, p: (K, V), ka: K::V)
    ensures
        pairs_lookup(b.push(p), ka) == if pairs_lookup(b, ka) is Some {
            pairs_lookup(b, ka)
        } else if p.0@ == ka {
            Some(p.1@)
        } else {
            None::<V::V>
        },
    decreases b.len(),
{
    if b.len() == 0 {
        assert(b.push(p)[0] == p);
        assert(b.push(p).drop_first() =~= Seq::<(K, V)>::empty());
        assert(pairs_lookup(Seq::<(K, V)>::empty(), ka) is None);
    } else {
        lemma_pairs_lookup_push(b.drop_first(), p, ka);
        assert(b.push(p)[0] == b[0]);
        assert(b.push(p).drop_first() =~= b.drop_first().push(p));
    }
}

pub(crate) proof fn lemma_pairs_lookup_update<K: Key, V: Value>(b: Seq<(K, V)>, j: int, p: (K, V), ka: K::V)
    requires
        pairs_distinct(b),
        0 <= j < b.len(),
        b[j].0@ == p.0@,
    ensures
        pairs_lookup(b.update(j, p), ka) == if ka == p.0@ {
            Some(p.1@)
        } else {
            pairs_lookup(b, ka)
        },
    decreases b.len(),
{
    if j == 0 {
        assert(b.update(0, p).drop_first() =~= b.drop_first());
    } else {
        lemma_pairs_lookup_update(b.drop_first(), j - 1, p, ka);
        assert(b.update(j, p).drop_first() =~= b.drop_first().update(j - 1, p));
    }
}

pub(crate) proof fn lemma_pairs_lookup_remove<K: Key, V: Value>(b: Seq<(K, V)>, j: int, ka: K::V)
    requires
        pairs_distinct(b),
        0 <= j < b.len(),
    ensures
        pairs_lookup(b.remove(j), ka) == if ka == b[j].0@ {
            None::<V::V>
        } else {
            pairs_lookup(b, ka)
        },
    decreases b.len(),
{
    if ka == b[j].0@ {
        lemma_pairs_lookup_has(b.remove(j), ka);
        assert(!pairs_has(b.remove(j), ka)) by {
            if pairs_has(b.remove(j), ka) {
                let l = choose|l: int| 0 <= l < b.remove(j).len() && b.remove(j)[l].0@ == ka;
                if l < j {
                    assert(b[l].0@ == ka);
                } else {
                    assert(b[l + 1].0@ == ka);
                }
            }
        }
    } else {
        if j == 0 {
            assert(b.remove(0) =~= b.drop_first());
        } else {
            lemma_pairs_lookup_remove(b.drop_first(), j - 1, ka);
            assert(b.remove(j).drop_first() =~= b.drop_first().remove(j - 1));
        }
    }
}

pub(crate) proof fn lemma_pairs_has_append<K: Key, V: Value>(x: Seq<(K, V)>, y: Seq<(K, V)>, ka: K::V)
    ensures
        pairs_has(x + y, ka) == (pairs_has(x, ka) || pairs_has(y, ka)),
{
    if pairs_has(x, ka) {
        let j = choose|j: int| 0 <= j < x.len() && x[j].0@ == ka;
        assert((x + y)[j].0@ == ka);
    }
    if pairs_has(y, ka) {
        let j = choose|j: int| 0 <= j < y.len() && y[j].0@ == ka;
        assert((x + y)[x.len() + j].0@ == ka);
    }
    if pairs_has(x + y, ka) {
        let j = choose|j: int| 0 <= j < (x + y).len() && (x + y)[j].0@ == ka;
        if j < x.len() {
            assert(x[j].0@ == ka);
        } else {
            assert(y[j - x.len()].0@ == ka);
        }
    }
}

/// The set of key abstractions the pair sequence holds.
pub open spec fn pairs_key_set<K: Key, V: Value>(b: Seq<(K, V)>) -> Set<K::V> {
    Set::new(|ka: K::V| pairs_has(b, ka))
}

/// A pair sequence with unique keys holds exactly one key per pair.
pub(crate) proof fn lemma_pairs_card<K: Key, V: Value>(b: Seq<(K, V)>)
    requires
        pairs_distinct(b),
    ensures
        pairs_key_set::<K, V>(b).finite(),
        pairs_key_set::<K, V>(b).len() == b.len(),
    decreases b.len(),
{
    if b.len() == 0 {
        assert(pairs_key_set::<K, V>(b) =~= Set::<K::V>::empty());
    } else {
        let b1 = b.drop_last();
        assert forall|j1: int, j2: int|
            0 <= j1 < j2 < b1.len() implies #[trigger] b1[j1].0@ != #[trigger] b1[j2].0@ by {
            assert(b1[j1] == b[j1] && b1[j2] == b[j2]);
        }
        lemma_pairs_card::<K, V>(b1);
        let ka = b.last().0@;
        assert(!pairs_has(b1, ka)) by {
            if pairs_has(b1, ka) {
                let j = choose|j: int| 0 <= j < b1.len() && b1[j].0@ == ka;
                assert(b[j].0@ == b[b.len() - 1].0@);
            }
        }
        assert(pairs_key_set::<K, V>(b) =~= pairs_key_set::<K, V>(b1).insert(ka)) by {
            assert forall|k2: K::V| #[trigger]
                pairs_has(b, k2) == (pairs_has(b1, k2) || k2 == ka) by {
                if pairs_has(b, k2) {
                    let j = choose|j: int| 0 <= j < b.len() && b[j].0@ == k2;
                    if j < b.len() - 1 {
                        assert(b1[j].0@ == k2);
                    }
                }
                if pairs_has(b1, k2) {
                    let j = choose|j: int| 0 <= j < b1.len() && b1[j].0@ == k2;
                    assert(b[j].0@ == k2);
                }
                if k2 == ka {
                    assert(b[b.len() - 1].0@ == k2);
                }
            }
        }
        vstd::set::axiom_set_insert_len(pairs_key_set::<K, V>(b1), ka);
    }
}

/// The home slot of `key` in a table of `cap` slots.
pub(crate) fn key_slot<K: Key>(key: &K, cap: usize) -> (i: usize)
    requires
        cap >= 1,
    ensures
        i as int == spec_slot(K::key_hash(key@), cap as int),
        i < cap,
{
    let h = key.hash_key();
    (h % (cap as u64)) as usize
}

/// The smallest power of two that is at least `MIN_CAPACITY` and at least
/// `hint`.
pub(crate) fn initial_capacity(hint: usize) -> (c: usize)
    requires
        hint <= usize::MAX / 4,
    ensures
        MIN_CAPACITY <= c <= usize::MAX / 2,
        c >= hint,
        is_pow2(c as int),
        c == MIN_CAPACITY || c < 2 * hint,
{
    let mut c: usize = MIN_CAPACITY;
    proof {
        reveal_with_fuel(is_pow2, 6);
    }
    while c < hint
        invariant
            MIN_CAPACITY <= c,
            is_pow2(c as int),
            c == MIN_CAPACITY || c < 2 * hint,
            hint <= usize::MAX / 4,
        decreases 2 * hint - c,
    {
        c = c * 2;
    }
    c
}

} // verus!
