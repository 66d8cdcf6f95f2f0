//! Gadgets of the circuit that proves the update of a storage sector: a bit
//! decomposer, a Merkle proof verifier, an apex tree verifier, a challenge bit
//! generator, a high-bit selector and a label updater.
//!
//! The gadgets append variables and constraints to a `bellperson` test
//! constraint system. Their contracts state which, and the laws state what the
//! constraints say of the assignments that satisfy them.

pub mod apex;
pub mod bits;
pub mod challenges;
pub mod field;
pub mod hash;
pub mod labels;
pub mod laws;
pub mod merkle;
pub mod selector;
pub mod semantics;
pub mod system;
pub mod update;

pub use apex::{apex_por, apex_root};
pub use bits::allocated_num_to_allocated_bits;
pub use challenges::gen_challenge_bits;
pub use merkle::por_no_challenge_input;
pub use selector::get_challenge_high_bits;
pub use update::label_r_new;
