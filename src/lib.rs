//! Updatable vector commitments.
//!
//! Two backends share one set of operations (setup, commit, prove, verify,
//! commit update, proof update) and no data. The hash-tree backend binds an
//! ordered vector of byte strings to one SHA-256 root and proves a position
//! with its authentication path; a retained tree of all node hashes is
//! optional. The algebraic backend binds the vector to one point of the
//! BLS12-381 group G1 and proves a position with one more point. Both
//! refresh a commitment and the outstanding proofs after a change at one
//! position without going over the whole vector.

pub mod error;
pub mod hashing;
pub mod merkle_spec;
pub mod merkle;
pub mod merkle_laws;
pub mod merkle_tree;
pub mod pairings;
