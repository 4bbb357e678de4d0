//! A minimal light-client node that tracks a blockchain tip with a
//! Utreexo-style accumulator commitment instead of a full UTXO set.
//!
//! Incoming blocks arrive together with an accumulator proof and compact
//! leaf metadata; the library reconstructs the spent outputs, checks the
//! proof against the current roots, advances the chain state and scans the
//! block against a wallet of watched locking scripts.

pub mod bytesutil;
pub mod types;
pub mod hexcode;
pub mod digest;
pub mod accumulator;
pub mod codec;
pub mod script;
pub mod store;
pub mod procproof;
pub mod wallet;
pub mod chain;
pub mod node;
