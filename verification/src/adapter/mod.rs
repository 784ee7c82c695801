//! Layout-only adapters: serving one contract's layout from a checkpoint
//! written in another, without storing a second copy.

pub mod decide;
pub mod fits;
pub mod kernel;
pub mod laws;
pub mod message;
pub mod order;
pub mod permutes;
pub mod reasons;
pub mod run_laws;
pub mod runs;

pub use decide::{decide, Adapter, Decision, DerivedTensor, Reason};
pub use kernel::{invert_axes, permute_bytes, Transform};
pub use runs::{role_runs, AdapterError, SourceRun};
