use vstd::prelude::*;

verus! {

/// Failure reported by a table operation.
///
/// The only recoverable failure the tables can report is exhaustion of the
/// slot space: an insert that would need to grow the table past the largest
/// capacity the machine can address. Lookups and deletions never fail; a
/// deletion of an absent key is a no-op, not an error.
#[derive(Debug, Clone, Copy, PartialEq, Eq, Structural)]
pub enum HashMapError {
    /// The table cannot grow any further, so the insert was refused and the
    /// table was left unchanged.
    CapacityExhausted,
}

} // verus!
