//! Preprocessing phase of an "MPC in the head" proof system.
//!
//! The prover simulates a multi-party computation among a few players many
//! times over. Every repetition is committed to, a random oracle picks the
//! repetitions that stay hidden for the online phase, and the seeds of all
//! others are opened, so that a verifier can run them again.

#![allow(unused_imports)]

pub mod algebra;
pub mod consts;
pub mod crypto;
pub mod fs;
pub mod instruction;
pub mod preprocessing;
pub mod util;

pub use instruction::Instruction;
