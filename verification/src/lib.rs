//! In-memory associative containers in three interchangeable engines —
//! separate chaining, open addressing with linear probing, and a
//! memory-compact open-addressing variant with bit-packed slot status — all
//! exposed through one shared capability contract (`new`, `insert`, `get`,
//! `delete`) and all specified against the abstract map they represent.

pub mod chaining;
pub mod common;
pub mod errors;
pub mod keys;
pub mod laws;
pub mod open_addressing;
pub mod open_addressing_compact;
pub mod probing;
pub mod workloads;
