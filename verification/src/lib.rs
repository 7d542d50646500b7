//! Masked authenticated messages.
//!
//! A channel is a chain of messages on a public ledger. Each message is signed with a
//! one-time key, masked with a side key that its readers share, and carries the root
//! of the Merkle tree over the keys that sign the messages after it. Who knows the
//! root of a channel and its side key can unmask a message, check it against the root
//! and go on to the next root.
//!
//! * `trits` holds balanced-ternary numbers as slices of trits.
//! * `pascal` is the self-delimiting encoding of the numbers that frame a payload.
//! * `curl` is the sponge that hashes and masks, and the search for a nonce, as
//!   interfaces; `iss` the one-time signatures, as an interface.
//! * `mask` masks and unmasks with a sponge.
//! * `merkle` derives keys and computes sibling hashes and roots.
//! * `mam` lays a payload out, makes it and reads it.

pub mod errors;
pub mod trits;
pub mod pascal;
pub mod curl;
pub mod mask;
pub mod iss;
pub mod merkle;
pub mod mam;

pub use crate::errors::MamError;
pub use crate::mam::create;
pub use crate::mam::id;
pub use crate::mam::min_length;
pub use crate::mam::parse;
