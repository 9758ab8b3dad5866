use crate::errors::HashMapError;
use crate::keys::Key;
use crate::keys::Value;
use vstd::prelude::*;
use vstd::string::StringExecFns;

verus! {

/// rand's thread-local generator, carried opaquely through the drivers.
#[verifier::external_type_specification]
#[verifier::external_body]
pub struct ExThreadRng(rand::rngs::ThreadRng);

/// The capability contract every table engine implements identically, so
/// that workload code is engine-agnostic: create, upsert, look up, delete,
/// each specified against the engine's abstract map.
pub trait HashMapBehavior<K: Key, V: Value>: Sized {
    /// The engine's structural invariant.
    spec fn inv(&self) -> bool;

    /// The abstract contents of the table.
    spec fn model(&self) -> Map<K::V, V::V>;

    /// Create an empty table from a capacity hint.
    fn new(capacity: usize) -> (m: Self)
        requires
            capacity <= usize::MAX / 4,
        ensures
            m.inv(),
            m.model() == Map::<K::V, V::V>::empty(),
    ;

    /// Upsert `key` with `value`; a failed insert leaves the table
    /// unchanged.
    fn insert(&mut self, key: K, value: V) -> (r: Result<(), HashMapError>)
        requires
            old(self).inv(),
        ensures
            final(self).inv(),
            match r {
                Ok(()) => final(self).model() == old(self).model().insert(key@, value@),
                Err(_) => final(self).model() == old(self).model(),
            },
    ;

    /// Look `key` up and hand back a copy of its stored value.
    fn get(&self, key: K) -> (r: Result<Option<V>, HashMapError>)
        requires
            self.inv(),
        ensures
            match r {
                Ok(Some(v)) => self.model().contains_key(key@) && v@ == self.model()[key@],
                Ok(None) => !self.model().contains_key(key@),
                Err(_) => false,
            },
    ;

    /// Remove `key` if present; removing an absent key is a no-op.
    fn delete(&mut self, key: K) -> (r: Result<(), HashMapError>)
        requires
            old(self).inv(),
        ensures
            final(self).inv(),
            r is Ok,
            final(self).model() == old(self).model().remove(key@),
    ;
}

impl<K: Key, V: Value> HashMapBehavior<K, V> for crate::chaining::HashMap<K, V> {
    open spec fn inv(&self) -> bool {
        self.wf()
    }

    open spec fn model(&self) -> Map<K::V, V::V> {
        self.as_map()
    }

    fn new(capacity: usize) -> Self {
        Self::new(capacity)
    }

    fn insert(&mut self, key: K, value: V) -> Result<(), HashMapError> {
        self.insert(key, value)
    }

    fn get(&self, key: K) -> Result<Option<V>, HashMapError> {
        self.get(key)
    }

    fn delete(&mut self, key: K) -> Result<(), HashMapError> {
        self.delete(key)
    }
}

impl<K: Key, V: Value> HashMapBehavior<K, V> for crate::open_addressing::HashMap<K, V> {
    open spec fn inv(&self) -> bool {
        self.wf()
    }

    open spec fn model(&self) -> Map<K::V, V::V> {
        self.as_map()
    }

    fn new(capacity: usize) -> Self {
        Self::new(capacity)
    }

    fn insert(&mut self, key: K, value: V) -> Result<(), HashMapError> {
        self.insert(key, value)
    }

    fn get(&self, key: K) -> Result<Option<V>, HashMapError> {
        self.get(key)
    }

    fn delete(&mut self, key: K) -> Result<(), HashMapError> {
        self.delete(key)
    }
}

impl<K: Key, V: Value> HashMapBehavior<K, V> for crate::open_addressing_compact::HashMap<K, V> {
    open spec fn inv(&self) -> bool {
        self.wf()
    }

    open spec fn model(&self) -> Map<K::V, V::V> {
        self.as_map()
    }

    fn new(capacity: usize) -> Self {
        Self::new(capacity)
    }

    fn insert(&mut self, key: K, value: V) -> Result<(), HashMapError> {
        self.insert(key, value)
    }

    fn get(&self, key: K) -> Result<Option<V>, HashMapError> {
        self.get(key)
    }

    fn delete(&mut self, key: K) -> Result<(), HashMapError> {
        self.delete(key)
    }
}

/// A monotone fill: `size` inserts of fresh keys carrying values of
/// `value_size` bytes.
pub struct LoadFactorWorkload {
    pub size: usize,
    pub value_size: usize,
}

/// The shape of the key stream a key-distribution workload drives a table
/// with.
#[derive(Clone)]
pub enum KeyPattern {
    Uniform,
    Clustered,
    Sequential,
}

/// A fill whose keys follow a chosen distribution.
pub struct KeyDistributionWorkload {
    pub size: usize,
    pub pattern: KeyPattern,
}

/// A mixed stream of reads, overwrites and deletes over a pre-populated
/// table. The delete share is what remains after reads and writes.
pub struct OperationMixWorkload {
    pub initial_size: usize,
    pub operations: usize,
    pub read_pct: u8,
    pub write_pct: u8,
}

/// Relies on std's `format!` to render the prefix followed by the decimal
/// index.
#[verifier::external_body]
fn keyed(prefix: &str, i: u64) -> String {
    format!("{}{}", prefix, i)
}

/// Relies on std's `format!` to render a cluster label followed by the
/// decimal index.
#[verifier::external_body]
fn cluster_key(cluster: u64, i: u64) -> String {
    format!("cluster_{}_{}", cluster, i)
}

/// Relies on std's `format!` to render the index in decimal, zero-padded
/// to twenty digits.
#[verifier::external_body]
fn padded_key(i: u64) -> String {
    format!("{:020}", i)
}

/// Relies on rand::thread_rng: a handle to the thread-local generator.
#[verifier::external_body]
fn fresh_rng() -> rand::rngs::ThreadRng {
    rand::thread_rng()
}

/// Relies on rand::Rng::gen: one draw from the generator. The value
/// depends on the generator's hidden state, so nothing is promised of it.
#[verifier::external_body]
fn next_u64(rng: &mut rand::rngs::ThreadRng) -> u64 {
    rand::Rng::gen::<u64>(rng)
}

/// A string of `n` repetitions of the letter `x`: the synthetic payload
/// the workloads store.
fn x_payload(n: usize) -> (s: String)
    ensures
        s@.len() == n,
{
    let mut s = String::new();
    let mut i: usize = 0;
    while i < n
        invariant
            i <= n,
            s@.len() == i,
        decreases n - i,
    {
        proof {
            reveal_strlit("x");
        }
        s.append("x");
        i = i + 1;
    }
    s
}

/// Drive a table of the chosen engine through a monotone fill, the pattern
/// used to watch the load-factor policy at work. The table is discarded;
/// the driver exists to be timed, not to compute.
pub fn run_load_factor_workload<M: HashMapBehavior<String, String>>(workload: &LoadFactorWorkload) {
    let mut map = M::new(16);
    let mut i: usize = 0;
    while i < workload.size
        invariant
            map.inv(),
        decreases workload.size - i,
    {
        let key = keyed("key_", i as u64);
        let value = x_payload(workload.value_size);
        let _ = map.insert(key, value);
        i = i + 1;
    }
}


/// Drive a table of the chosen engine through a fill whose keys follow the
/// chosen distribution: uniformly random labels, ten sequential clusters,
/// or zero-padded sequential labels. The table is discarded; the driver
/// exists to be timed, not to compute.
pub fn run_key_distribution_workload<M: HashMapBehavior<String, String>>(
    workload: &KeyDistributionWorkload,
)
    requires
        10 <= workload.size <= usize::MAX / 4,
{
    let mut map = M::new(workload.size);
    match workload.pattern {
        KeyPattern::Uniform => {
            let mut rng = fresh_rng();
            let mut i: usize = 0;
            while i < workload.size
                invariant
                    map.inv(),
                decreases workload.size - i,
            {
                let key = keyed("key_", next_u64(&mut rng));
                let _ = map.insert(key, "value".to_owned());
                i = i + 1;
            }
        },
        KeyPattern::Clustered => {
            let tenth = workload.size / 10;
            let mut i: usize = 0;
            while i < workload.size
                invariant
                    map.inv(),
                    tenth >= 1,
                decreases workload.size - i,
            {
                let cluster = i / tenth;
                let key = cluster_key(cluster as u64, i as u64);
                let _ = map.insert(key, "value".to_owned());
                i = i + 1;
            }
        },
        KeyPattern::Sequential => {
            let mut i: usize = 0;
            while i < workload.size
                invariant
                    map.inv(),
                decreases workload.size - i,
            {
                let key = padded_key(i as u64);
                let _ = map.insert(key, "value".to_owned());
                i = i + 1;
            }
        },
    }
}

/// Drive a pre-populated table of the chosen engine through a random
/// stream of reads, overwrites and deletes in the configured proportions.
/// The table is discarded; the driver exists to be timed, not to compute.
pub fn run_operation_mix_workload<M: HashMapBehavior<String, String>>(
    workload: &OperationMixWorkload,
)
    requires
        1 <= workload.initial_size <= usize::MAX / 4,
{
    let mut map = M::new(workload.initial_size);
    let mut i: usize = 0;
    while i < workload.initial_size
        invariant
            map.inv(),
        decreases workload.initial_size - i,
    {
        let _ = map.insert(keyed("key_", i as u64), "initial".to_owned());
        i = i + 1;
    }
    let mut rng = fresh_rng();
    let mut done: usize = 0;
    while done < workload.operations
        invariant
            map.inv(),
            workload.initial_size >= 1,
        decreases workload.operations - done,
    {
        let op = next_u64(&mut rng) % 100;
        let key_idx = next_u64(&mut rng) % (workload.initial_size as u64);
        if op < workload.read_pct as u64 {
            let _ = map.get(keyed("key_", key_idx));
        } else if op < workload.read_pct as u64 + workload.write_pct as u64 {
            let _ = map.insert(keyed("key_", key_idx), "updated".to_owned());
        } else {
            let _ = map.delete(keyed("key_", key_idx));
        }
        done = done + 1;
    }
}

} // verus!
