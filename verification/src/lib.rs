//! A minimal single-node ledger: blocks are mined under a proof-of-work
//! difficulty ceiling and validated against a running set of unspent
//! transaction outputs before being appended to an append-only chain.
//!
//! Every acceptance decision is specified by `blockchain::validate_spec` and
//! proved: hash-chain integrity, temporal ordering, and double-spend-free
//! settlement. Rejection never mutates the chain. The digest itself comes
//! from an outside crate and enters the proofs only through the contract of
//! one trusted wrapper in `hashing`.

pub mod block;
pub mod blockchain;
pub mod hashing;
pub mod transaction;

pub use block::check_difficulty;
pub use block::difficulty_bytes_as_u128;
pub use block::Block;
pub use blockchain::BlockChain;
pub use blockchain::BlockValidationError;
pub use hashing::digest_of;
pub use hashing::hash_eq;
pub use hashing::make_zero_hash;
pub use hashing::zero_hash;
pub use transaction::Output;
pub use transaction::Transaction;
