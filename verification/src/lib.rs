//! Coin-weighted voting on shielded notes: the nullifier-range tree, the
//! note-commitment tree, the canonical ballot encoding, and the building and
//! validation of ballots, with contracts.

pub mod ballot;
pub mod builder;
pub mod bytes;
pub mod download;
pub mod election;
pub mod errors;
pub mod field;
pub mod hash;
pub mod path;
pub mod prevhash;
pub mod signature;
pub mod tally;
pub mod trees;
pub mod validate;
pub mod validation;
