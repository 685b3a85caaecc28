//! An identity-attestation bridge: a hub ledger commits issued attestations
//! into an append-only Merkle Mountain Range accumulator, spokes accept new
//! roots and membership claims against proofs, and a relay drives root
//! updates from hub to spokes in order.

pub mod arith;
pub mod attestation;
pub mod hashing;
pub mod mmr;
pub mod pallet;
pub mod spoke;
pub mod relay;
