//! Access control for secrets held in escrow: a testator registers a secret,
//! names the beneficiaries who may see it, and the beneficiaries vote to
//! release it once a quorum of them agrees.
pub mod address;
pub mod contract;
pub mod error;
mod ident;
pub mod index;
pub mod laws;
pub mod quorum;
pub mod secret;

pub use address::Address;
pub use contract::Contract;
pub use index::IndexEntry;
pub use error::SecretError;
pub use quorum::QuorumPolicy;
pub use secret::SecretInfo;
