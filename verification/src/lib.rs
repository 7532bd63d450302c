//! Ledger storage for a sequencer node: an ordered transaction log, a Merkle
//! accumulator over the transaction hashes, the state changes of each
//! transaction and the sequencer checkpoint, kept consistent behind one facade.

pub mod accumulator_store;
pub mod api;
pub mod digest;
pub mod error;
mod forest;
mod hash_index;
pub mod keys;
pub mod laws;
pub mod merkle;
pub mod messages;
pub mod meta_store;
pub mod state_store;
pub mod store;
pub mod transaction_store;
