//! An enumerable ledger of uniquely identified collectible tokens.
//!
//! The ledger keeps every token in a dense global registry and, at the same
//! time, in its current owner's dense registry, so that both can be listed by
//! position in constant time. Minting, transfer, sale and breeding all go
//! through the [`registry::Registry`] coordinator, which keeps the two views
//! consistent. Caller identity, value movement between accounts and the
//! entropy behind fresh identifiers are supplied by the host: operations take
//! them as plain arguments.

pub mod dna;
pub mod registry;
pub mod token;
