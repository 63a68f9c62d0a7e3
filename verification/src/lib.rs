//! Backports commits along an ordered chain of branches.
//!
//! The chain runs from a junior head branch (index 0) down through
//! increasingly senior ancestor branches. Every commit between one branch's
//! tip and the next senior tip is collected, an edit step may reassign each
//! collected commit to a different seniority level, and every branch's
//! history is then rewritten so that each branch contains exactly its
//! assigned commits plus all changes merged forward from every more senior
//! branch.

pub mod backport;
pub mod backup;
pub mod chain;
pub mod edit;
pub mod engine;
pub mod error;
pub mod forks;
pub mod graph;
pub mod ids;
pub mod loader;
pub mod store;

pub use backport::BackportArgs;
pub use backport::backport;
pub use chain::ChainItem;
pub use edit::BackportCommit;
pub use edit::EditStrategy;
pub use edit::NoEdit;
pub use edit::ReassignEdits;
pub use error::Error;
pub use error::StoreOp;
