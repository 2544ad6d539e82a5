//! Block-graph state core of a multi-thread, slot-based consensus engine.
//!
//! The library maintains a DAG of blocks spread over `T` parallel threads,
//! tracks the incompatibility graph and the set of maximal cliques competing
//! for the canonical tip, identifies the blockclique, finalizes blocks, and
//! decides which blocks must be retained when pruning graph state.

pub mod alist;
pub mod export;
pub mod ids;
pub mod retention;
pub mod state;
pub mod status;
pub mod store;
pub mod timeslots;
pub mod worker;

pub use ids::{BlockId, Slot};
