//! Block metadata records for a validator network.
//!
//! A record captures the agreed-upon facts about one block: its id, the
//! proposer's timestamp, the votes cast on the previous block, and the
//! proposer's address. The record offers read accessors and a canonicalization
//! step that turns the vote mapping into a deterministic, key-sorted byte
//! encoding, so that every validator derives bit-identical state from the
//! same consensus decision.

pub mod account_address;
pub mod account_config;
pub mod block_metadata;
pub mod crypto;
pub mod event;
