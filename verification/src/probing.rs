use crate::common::spec_slot;
use crate::keys::Key;
use crate::keys::Value;
use vstd::prelude::*;

verus! {

/// Abstract reading of one open-addressing slot: vacant (never written or
/// cleared), a tombstone left by a deletion, or a live key/value pair.
/// Both probing engines are specified by mapping their storage onto a
/// sequence of these.
pub enum SlotModel<KA, VA> {
    Vacant,
    Tomb,
    Full { key: KA, value: VA },
}

/// The key held by a full slot.
pub open spec fn full_key<KA, VA>(s: SlotModel<KA, VA>) -> KA
    recommends
        s is Full,
{
    match s {
        SlotModel::Full { key, value } => key,
        _ => arbitrary(),
    }
}

/// The value held by a full slot.
pub open spec fn full_value<KA, VA>(s: SlotModel<KA, VA>) -> VA
    recommends
        s is Full,
{
    match s {
        SlotModel::Full { key, value } => value,
        _ => arbitrary(),
    }
}

/// The home slot of a key abstraction in a table of `cap` slots.
pub open spec fn slot_home<K: Key>(ka: K::V, cap: int) -> int {
    spec_slot(K::key_hash(ka), cap)
}

/// The slot reached after `t` forward steps from `h`, wrapping once at
/// `cap`. Meaningful for `0 <= h < cap` and `0 <= t < cap`.
pub open spec fn step_idx(cap: int, h: int, t: int) -> int {
    if h + t < cap {
        h + t
    } else {
        h + t - cap
    }
}

/// The number of forward steps from `from` to `to` in a cycle of `cap`.
pub open spec fn probe_dist(cap: int, from: int, to: int) -> int {
    if to >= from {
        to - from
    } else {
        to - from + cap
    }
}

/// The first `d` slots probed from `h` hold something: none of them is
/// vacant, so no search along this stretch ends early.
pub open spec fn path_clear<KA, VA>(s: Seq<SlotModel<KA, VA>>, cap: int, h: int, d: int) -> bool {
    forall|t: int| 0 <= t < d ==> !(#[trigger] s[step_idx(cap, h, t)] is Vacant)
}

/// No two full slots hold the same key abstraction.
pub open spec fn slots_distinct<K: Key, V: Value>(s: Seq<SlotModel<K::V, V::V>>) -> bool {
    forall|j1: int, j2: int|
        0 <= j1 < j2 < s.len() && #[trigger] s[j1] is Full && #[trigger] s[j2] is Full
            ==> full_key(s[j1]) != full_key(s[j2])
}

/// Every full slot is reachable from its key's home slot: the stretch of
/// the probe sequence leading up to it is free of vacant slots, so a search
/// for that key cannot stop before finding it.
pub open spec fn slots_reachable<K: Key, V: Value>(s: Seq<SlotModel<K::V, V::V>>, cap: int) -> bool {
    forall|j: int|
        0 <= j < s.len() && #[trigger] s[j] is Full ==> path_clear(
            s,
            cap,
            slot_home::<K>(full_key(s[j]), cap),
            probe_dist(cap, slot_home::<K>(full_key(s[j]), cap), j),
        )
}

/// Well-formedness of an open-addressing slot array.
pub open spec fn slots_wf<K: Key, V: Value>(s: Seq<SlotModel<K::V, V::V>>, cap: int) -> bool {
    &&& s.len() == cap
    &&& cap >= 1
    &&& slots_distinct::<K, V>(s)
    &&& slots_reachable::<K, V>(s, cap)
}

/// Some full slot holds the key abstraction `ka`.
pub open spec fn slots_has<K: Key, V: Value>(s: Seq<SlotModel<K::V, V::V>>, ka: K::V) -> bool {
    exists|j: int| 0 <= j < s.len() && #[trigger] s[j] is Full && full_key(s[j]) == ka
}

/// The value stored with `ka`. Well-defined when exactly one full slot
/// holds `ka`.
pub open spec fn slots_value<K: Key, V: Value>(s: Seq<SlotModel<K::V, V::V>>, ka: K::V) -> V::V {
    full_value(s[choose|j: int| 0 <= j < s.len() && #[trigger] s[j] is Full && full_key(s[j]) == ka])
}

/// The abstract map a slot array represents.
pub open spec fn slots_map<K: Key, V: Value>(s: Seq<SlotModel<K::V, V::V>>) -> Map<K::V, V::V> {
    Map::new(|ka: K::V| slots_has::<K, V>(s, ka), |ka: K::V| slots_value::<K, V>(s, ka))
}

/// Number of full slots.
pub open spec fn count_full<KA, VA>(s: Seq<SlotModel<KA, VA>>) -> int
    decreases s.len(),
{
    if s.len() == 0 {
        0
    } else {
        count_full(s.drop_last()) + if s.last() is Full {
            1int
        } else {
            0int
        }
    }
}

pub(crate) proof fn lemma_count_full_update<KA, VA>(
    s: Seq<SlotModel<KA, VA>>,
    p: int,
    x: SlotModel<KA, VA>,
)
    requires
        0 <= p < s.len(),
    ensures
        count_full(s.update(p, x)) == count_full(s) - (if s[p] is Full {
            1int
        } else {
            0int
        }) + (if x is Full {
            1int
        } else {
            0int
        }),
    decreases s.len(),
{
    if p == s.len() - 1 {
        assert(s.update(p, x).drop_last() =~= s.drop_last());
    } else {
        lemma_count_full_update(s.drop_last(), p, x);
        assert(s.update(p, x).drop_last() =~= s.drop_last().update(p, x));
    }
}

pub(crate) proof fn lemma_count_full_bounds<KA, VA>(s: Seq<SlotModel<KA, VA>>)
    ensures
        0 <= count_full(s) <= s.len(),
        (forall|j: int| 0 <= j < s.len() ==> #[trigger] s[j] is Full) ==> count_full(s)
            == s.len(),
        (forall|j: int| 0 <= j < s.len() ==> !(#[trigger] s[j] is Full)) ==> count_full(s) == 0,
    decreases s.len(),
{
    if s.len() > 0 {
        lemma_count_full_bounds(s.drop_last());
        assert forall|j: int| 0 <= j < s.drop_last().len() implies s.drop_last()[j]
            == s[j] by {}
    }
}

pub(crate) proof fn lemma_count_full_at<KA, VA>(s: Seq<SlotModel<KA, VA>>, j: int)
    requires
        0 <= j < s.len(),
        s[j] is Full,
    ensures
        count_full(s) >= 1,
    decreases s.len(),
{
    lemma_count_full_bounds(s.drop_last());
    if j < s.len() - 1 {
        lemma_count_full_at(s.drop_last(), j);
    }
}

/// A probe from `ka`'s home that has seen `t` slots, none holding `ka`,
/// and then finds a vacant slot (or has wrapped all the way around) proves
/// the key absent from the whole table.
pub(crate) proof fn lemma_probe_absent<K: Key, V: Value>(
    s: Seq<SlotModel<K::V, V::V>>,
    cap: int,
    ka: K::V,
    t: int,
)
    requires
        slots_wf::<K, V>(s, cap),
        0 <= t <= cap,
        0 <= slot_home::<K>(ka, cap) < cap,
        t < cap ==> s[step_idx(cap, slot_home::<K>(ka, cap), t)] is Vacant,
        forall|i: int|
            0 <= i < t ==> !(#[trigger] s[step_idx(cap, slot_home::<K>(ka, cap), i)] is Full
                && full_key(s[step_idx(cap, slot_home::<K>(ka, cap), i)]) == ka),
    ensures
        !slots_has::<K, V>(s, ka),
{
    let h = slot_home::<K>(ka, cap);
    if slots_has::<K, V>(s, ka) {
        let j = choose|j: int| 0 <= j < s.len() && #[trigger] s[j] is Full && full_key(s[j]) == ka;
        let d = probe_dist(cap, h, j);
        assert(step_idx(cap, h, d) == j);
        assert(0 <= d < cap);
        if d < t {
            assert(s[step_idx(cap, h, d)] is Full && full_key(s[step_idx(cap, h, d)]) == ka);
        } else {
            assert(path_clear(s, cap, h, d));
            assert(t < cap);
            assert(!(s[step_idx(cap, h, t)] is Vacant));
        }
    }
}

/// Each key sits in at most one slot, so the slot found by a probe gives
/// the map's value for that key.
pub(crate) proof fn lemma_slots_map_at<K: Key, V: Value>(
    s: Seq<SlotModel<K::V, V::V>>,
    j: int,
)
    requires
        slots_distinct::<K, V>(s),
        0 <= j < s.len(),
        s[j] is Full,
    ensures
        slots_map::<K, V>(s).contains_key(full_key(s[j])),
        slots_map::<K, V>(s)[full_key(s[j])] == full_value(s[j]),
{
    let ka = full_key(s[j]);
    assert(slots_has::<K, V>(s, ka));
    let j2 = choose|j2: int| 0 <= j2 < s.len() && #[trigger] s[j2] is Full && full_key(s[j2]) == ka;
    assert(j2 == j);
}

/// Overwriting the value of the full slot that already holds `ka` keeps
/// the array well-formed and updates the map at `ka` alone.
pub(crate) proof fn lemma_slots_overwrite<K: Key, V: Value>(
    s: Seq<SlotModel<K::V, V::V>>,
    cap: int,
    p: int,
    va: V::V,
)
    requires
        slots_wf::<K, V>(s, cap),
        0 <= p < cap,
        s[p] is Full,
    ensures
        slots_wf::<K, V>(s.update(p, SlotModel::Full { key: full_key(s[p]), value: va }), cap),
        slots_map::<K, V>(s.update(p, SlotModel::Full { key: full_key(s[p]), value: va }))
            == slots_map::<K, V>(s).insert(full_key(s[p]), va),
        count_full(s.update(p, SlotModel::Full { key: full_key(s[p]), value: va }))
            == count_full(s),
{
    let ka = full_key(s[p]);
    let s2 = s.update(p, SlotModel::Full { key: ka, value: va });
    lemma_count_full_update(s, p, SlotModel::Full { key: ka, value: va });
    assert forall|j: int|
        0 <= j < s2.len() && #[trigger] s2[j] is Full implies path_clear(
        s2,
        cap,
        slot_home::<K>(full_key(s2[j]), cap),
        probe_dist(cap, slot_home::<K>(full_key(s2[j]), cap), j),
    ) by {
        assert(s[j] is Full && full_key(s[j]) == full_key(s2[j]));
        let h = slot_home::<K>(full_key(s2[j]), cap);
        let d = probe_dist(cap, h, j);
        assert(path_clear(s, cap, h, d));
        assert forall|t: int| 0 <= t < d implies !(#[trigger] s2[step_idx(cap, h, t)]
            is Vacant) by {
            assert(!(s[step_idx(cap, h, t)] is Vacant));
        }
    }
    assert forall|ka2: K::V| #[trigger]
        slots_has::<K, V>(s2, ka2) == slots_has::<K, V>(s, ka2) by {
        if slots_has::<K, V>(s2, ka2) {
            let j = choose|j: int|
                0 <= j < s2.len() && #[trigger] s2[j] is Full && full_key(s2[j]) == ka2;
            assert(s[j] is Full && full_key(s[j]) == ka2);
        }
        if slots_has::<K, V>(s, ka2) {
            let j = choose|j: int|
                0 <= j < s.len() && #[trigger] s[j] is Full && full_key(s[j]) == ka2;
            assert(s2[j] is Full && full_key(s2[j]) == ka2);
        }
    }
    assert forall|ka2: K::V|
        slots_has::<K, V>(s2, ka2) implies #[trigger] slots_value::<K, V>(s2, ka2) == (if ka2
        == ka {
        va
    } else {
        slots_value::<K, V>(s, ka2)
    }) by {
        let j = choose|j: int|
            0 <= j < s2.len() && #[trigger] s2[j] is Full && full_key(s2[j]) == ka2;
        if ka2 == ka {
            assert(j == p);
        } else {
            assert(j != p);
            let j3 = choose|j3: int|
                0 <= j3 < s.len() && #[trigger] s[j3] is Full && full_key(s[j3]) == ka2;
            assert(j3 == j);
        }
    }
    assert(slots_map::<K, V>(s2) =~= slots_map::<K, V>(s).insert(ka, va));
}

/// Placing a fresh key in a non-full slot whose probe stretch from the
/// key's home is free of vacant slots keeps the array well-formed and adds
/// exactly that key to the map.
pub(crate) proof fn lemma_slots_place<K: Key, V: Value>(
    s: Seq<SlotModel<K::V, V::V>>,
    cap: int,
    p: int,
    ka: K::V,
    va: V::V,
)
    requires
        slots_wf::<K, V>(s, cap),
        0 <= p < cap,
        !(s[p] is Full),
        !slots_has::<K, V>(s, ka),
        0 <= slot_home::<K>(ka, cap) < cap,
        path_clear(s, cap, slot_home::<K>(ka, cap), probe_dist(cap, slot_home::<K>(ka, cap), p)),
    ensures
        slots_wf::<K, V>(s.update(p, SlotModel::Full { key: ka, value: va }), cap),
        slots_map::<K, V>(s.update(p, SlotModel::Full { key: ka, value: va }))
            == slots_map::<K, V>(s).insert(ka, va),
        count_full(s.update(p, SlotModel::Full { key: ka, value: va })) == count_full(s) + 1,
{
    let s2 = s.update(p, SlotModel::Full { key: ka, value: va });
    lemma_count_full_update(s, p, SlotModel::Full { key: ka, value: va });
    assert forall|j1: int, j2: int|
        0 <= j1 < j2 < s2.len() && #[trigger] s2[j1] is Full && #[trigger] s2[j2] is Full
        implies full_key(s2[j1]) != full_key(s2[j2]) by {
        if j1 != p && j2 != p {
            assert(s[j1] is Full && s[j2] is Full);
        } else if j1 == p {
            assert(s[j2] is Full && full_key(s[j2]) == full_key(s2[j2]));
            if full_key(s2[j2]) == ka {
                assert(slots_has::<K, V>(s, ka));
            }
        } else {
            assert(s[j1] is Full && full_key(s[j1]) == full_key(s2[j1]));
            if full_key(s2[j1]) == ka {
                assert(slots_has::<K, V>(s, ka));
            }
        }
    }
    assert forall|j: int|
        0 <= j < s2.len() && #[trigger] s2[j] is Full implies path_clear(
        s2,
        cap,
        slot_home::<K>(full_key(s2[j]), cap),
        probe_dist(cap, slot_home::<K>(full_key(s2[j]), cap), j),
    ) by {
        let h = slot_home::<K>(full_key(s2[j]), cap);
        let d = probe_dist(cap, h, j);
        if j == p {
            assert(full_key(s2[j]) == ka);
            assert(path_clear(s, cap, h, d));
        } else {
            assert(s[j] is Full && full_key(s[j]) == full_key(s2[j]));
            assert(path_clear(s, cap, h, d));
        }
        assert forall|t: int| 0 <= t < d implies !(#[trigger] s2[step_idx(cap, h, t)]
            is Vacant) by {
            assert(!(s[step_idx(cap, h, t)] is Vacant));
        }
    }
    assert forall|ka2: K::V| #[trigger]
        slots_has::<K, V>(s2, ka2) == (slots_has::<K, V>(s, ka2) || ka2 == ka) by {
        if slots_has::<K, V>(s2, ka2) {
            let j = choose|j: int|
                0 <= j < s2.len() && #[trigger] s2[j] is Full && full_key(s2[j]) == ka2;
            if j != p {
                assert(s[j] is Full && full_key(s[j]) == ka2);
            }
        }
        if slots_has::<K, V>(s, ka2) {
            let j = choose|j: int|
                0 <= j < s.len() && #[trigger] s[j] is Full && full_key(s[j]) == ka2;
            assert(j != p);
            assert(s2[j] is Full && full_key(s2[j]) == ka2);
        }
        if ka2 == ka {
            assert(s2[p] is Full && full_key(s2[p]) == ka);
        }
    }
    assert forall|ka2: K::V|
        slots_has::<K, V>(s2, ka2) implies #[trigger] slots_value::<K, V>(s2, ka2) == (if ka2
        == ka {
        va
    } else {
        slots_value::<K, V>(s, ka2)
    }) by {
        let j = choose|j: int|
            0 <= j < s2.len() && #[trigger] s2[j] is Full && full_key(s2[j]) == ka2;
        if ka2 == ka {
            if j != p {
                assert(s[j] is Full && full_key(s[j]) == ka);
                assert(slots_has::<K, V>(s, ka));
            }
        } else {
            assert(j != p);
            assert(s[j] is Full && full_key(s[j]) == ka2);
            let j3 = choose|j3: int|
                0 <= j3 < s.len() && #[trigger] s[j3] is Full && full_key(s[j3]) == ka2;
            assert(j3 == j);
        }
    }
    assert(slots_map::<K, V>(s2) =~= slots_map::<K, V>(s).insert(ka, va));
}

/// Turning the full slot that holds `ka` into a tombstone keeps the array
/// well-formed — a tombstone still holds probe stretches together — and
/// removes exactly `ka` from the map.
pub(crate) proof fn lemma_slots_delete<K: Key, V: Value>(
    s: Seq<SlotModel<K::V, V::V>>,
    cap: int,
    p: int,
)
    requires
        slots_wf::<K, V>(s, cap),
        0 <= p < cap,
        s[p] is Full,
    ensures
        slots_wf::<K, V>(s.update(p, SlotModel::Tomb), cap),
        slots_map::<K, V>(s.update(p, SlotModel::Tomb)) == slots_map::<K, V>(s).remove(
            full_key(s[p]),
        ),
        count_full(s.update(p, SlotModel::Tomb)) == count_full(s) - 1,
{
    let ka = full_key(s[p]);
    let s2 = s.update(p, SlotModel::Tomb);
    lemma_count_full_update(s, p, SlotModel::Tomb);
    assert forall|j: int|
        0 <= j < s2.len() && #[trigger] s2[j] is Full implies path_clear(
        s2,
        cap,
        slot_home::<K>(full_key(s2[j]), cap),
        probe_dist(cap, slot_home::<K>(full_key(s2[j]), cap), j),
    ) by {
        assert(j != p);
        assert(s[j] is Full && full_key(s[j]) == full_key(s2[j]));
        let h = slot_home::<K>(full_key(s2[j]), cap);
        let d = probe_dist(cap, h, j);
        assert(path_clear(s, cap, h, d));
        assert forall|t: int| 0 <= t < d implies !(#[trigger] s2[step_idx(cap, h, t)]
            is Vacant) by {
            assert(!(s[step_idx(cap, h, t)] is Vacant));
        }
    }
    assert forall|ka2: K::V| #[trigger]
        slots_has::<K, V>(s2, ka2) == (slots_has::<K, V>(s, ka2) && ka2 != ka) by {
        if slots_has::<K, V>(s2, ka2) {
            let j = choose|j: int|
                0 <= j < s2.len() && #[trigger] s2[j] is Full && full_key(s2[j]) == ka2;
            assert(j != p);
            assert(s[j] is Full && full_key(s[j]) == ka2);
            if ka2 == ka {
                assert(j != p && s[j] is Full && s[p] is Full && full_key(s[j]) == full_key(
                    s[p],
                ));
                assert(false);
            }
        }
        if slots_has::<K, V>(s, ka2) && ka2 != ka {
            let j = choose|j: int|
                0 <= j < s.len() && #[trigger] s[j] is Full && full_key(s[j]) == ka2;
            assert(j != p);
            assert(s2[j] is Full && full_key(s2[j]) == ka2);
        }
    }
    assert forall|ka2: K::V|
        slots_has::<K, V>(s2, ka2) implies #[trigger] slots_value::<K, V>(s2, ka2)
        == slots_value::<K, V>(s, ka2) by {
        let j = choose|j: int|
            0 <= j < s2.len() && #[trigger] s2[j] is Full && full_key(s2[j]) == ka2;
        assert(j != p);
        assert(s[j] is Full && full_key(s[j]) == ka2);
        let j3 = choose|j3: int|
            0 <= j3 < s.len() && #[trigger] s[j3] is Full && full_key(s[j3]) == ka2;
        assert(j3 == j);
    }
    assert(slots_map::<K, V>(s2) =~= slots_map::<K, V>(s).remove(ka));
}

/// A slot array with unique keys represents a map whose domain has
/// exactly one key per full slot.
pub(crate) proof fn lemma_count_is_card<K: Key, V: Value>(s: Seq<SlotModel<K::V, V::V>>)
    requires
        slots_distinct::<K, V>(s),
    ensures
        slots_map::<K, V>(s).dom().finite(),
        slots_map::<K, V>(s).dom().len() == count_full(s),
    decreases s.len(),
{
    if s.len() == 0 {
        assert(slots_map::<K, V>(s).dom() =~= Set::<K::V>::empty());
    } else {
        let s1 = s.drop_last();
        assert forall|j1: int, j2: int|
            0 <= j1 < j2 < s1.len() && (#[trigger] s1[j1]) is Full && (#[trigger] s1[j2])
                is Full implies full_key(s1[j1]) != full_key(s1[j2]) by {
            assert(s1[j1] == s[j1] && s1[j2] == s[j2]);
        }
        lemma_count_is_card::<K, V>(s1);
        if s.last() is Full {
            let ka = full_key(s.last());
            assert(!slots_has::<K, V>(s1, ka)) by {
                if slots_has::<K, V>(s1, ka) {
                    let j = choose|j: int|
                        0 <= j < s1.len() && (#[trigger] s1[j]) is Full && full_key(s1[j])
                            == ka;
                    assert(s[j] is Full && s[s.len() - 1] is Full && full_key(s[j]) == full_key(
                        s[s.len() - 1],
                    ));
                }
            }
            assert(slots_map::<K, V>(s).dom() =~= slots_map::<K, V>(s1).dom().insert(ka)) by {
                assert forall|k2: K::V| #[trigger]
                    slots_has::<K, V>(s, k2) == (slots_has::<K, V>(s1, k2) || k2 == ka) by {
                    if slots_has::<K, V>(s, k2) {
                        let j = choose|j: int|
                            0 <= j < s.len() && (#[trigger] s[j]) is Full && full_key(s[j])
                                == k2;
                        if j < s.len() - 1 {
                            assert(s1[j] is Full && full_key(s1[j]) == k2);
                        }
                    }
                    if slots_has::<K, V>(s1, k2) {
                        let j = choose|j: int|
                            0 <= j < s1.len() && (#[trigger] s1[j]) is Full && full_key(s1[j])
                                == k2;
                        assert(s[j] is Full && full_key(s[j]) == k2);
                    }
                    if k2 == ka {
                        assert(s[s.len() - 1] is Full && full_key(s[s.len() - 1]) == k2);
                    }
                }
            }
            vstd::set::axiom_set_insert_len(slots_map::<K, V>(s1).dom(), ka);
        } else {
            assert(slots_map::<K, V>(s).dom() =~= slots_map::<K, V>(s1).dom()) by {
                assert forall|k2: K::V| #[trigger]
                    slots_has::<K, V>(s, k2) == slots_has::<K, V>(s1, k2) by {
                    if slots_has::<K, V>(s, k2) {
                        let j = choose|j: int|
                            0 <= j < s.len() && (#[trigger] s[j]) is Full && full_key(s[j])
                                == k2;
                        assert(s1[j] is Full && full_key(s1[j]) == k2);
                    }
                    if slots_has::<K, V>(s1, k2) {
                        let j = choose|j: int|
                            0 <= j < s1.len() && (#[trigger] s1[j]) is Full && full_key(s1[j])
                                == k2;
                        assert(s[j] is Full && full_key(s[j]) == k2);
                    }
                }
            }
        }
    }
}

/// Some full slot with index at least `lo` holds the key of pair `p`.
pub open spec fn pair_in_suffix<K: Key, V: Value>(
    s: Seq<SlotModel<K::V, V::V>>,
    lo: int,
    p: (K, V),
) -> bool {
    exists|j: int| lo <= j < s.len() && (#[trigger] s[j]) is Full && full_key(s[j]) == p.0@
}

/// The slot reached after `t` forward steps from `h`, wrapping once.
pub(crate) fn step_of(cap: usize, h: usize, t: usize) -> (i: usize)
    requires
        h < cap,
        t < cap,
        cap <= usize::MAX / 2,
    ensures
        i as int == step_idx(cap as int, h as int, t as int),
        i < cap,
{
    let sum = h + t;
    if sum >= cap {
        sum - cap
    } else {
        sum
    }
}

} // verus!
