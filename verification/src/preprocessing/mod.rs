//! The preprocessing phase and its proof.

pub mod commitments;
pub mod execution;
pub mod laws;
pub mod opening;
pub mod packing;
pub mod proving;
pub mod schedule;
pub mod shares;

pub use execution::PreprocessingExecution;
pub use packing::pack_branch;
pub use packing::pack_branches;
pub use proving::feed;
pub use proving::Output;
pub use proving::PreprocessingOutput;
pub use proving::Proof;
pub use proving::Run;
pub use schedule::Action;
pub use schedule::Schedule;
pub use shares::branch_permutation;
pub use shares::Player;
pub use shares::ShareGenerator;
pub use shares::SharesGenerator;
