//! A privacy-preserving value pool: depositors commit funds under a hidden
//! commitment derived from an amount and a secret, and later withdraw by
//! proving that a commitment they know is a member of the pool's Merkle
//! accumulator, while presenting a one-time nullifier that prevents the same
//! deposit from being withdrawn twice.

use vstd::prelude::*;

pub mod bytesutil;
pub mod hashing;
pub mod instructions;
pub mod merkle;
pub mod state;

verus! {

/// Errors that a pool operation can return.
#[derive(Clone, Copy, Debug, PartialEq, Eq, Structural)]
pub enum PoolError {
    /// Unrecognized opcode or malformed payload length.
    InvalidInstructionData,
    /// Insertion attempted while the tree already holds its full capacity of leaves.
    PoolFull,
    /// The nullifier was already marked as spent.
    AlreadySpent,
    /// The Merkle path does not resolve to the current root, or has the wrong length.
    ProofInvalid,
    /// The persisted buffer is too small, absent, or malformed.
    InvalidAccountData,
    /// The encoded state would exceed the destination buffer.
    StorageTooSmall,
}

} // verus!
