//! Block lifecycle states, cliques, and the graph error taxonomy.

use vstd::prelude::*;

use crate::ids::{BlockId, Slot};
use crate::store::Block;

verus! {

/// A block integrated into the DAG.
///
/// `parents` holds one `(parent id, parent period)` per thread and is empty
/// exactly for genesis blocks; `children` holds one `(child id, child period)`
/// list per thread.
#[derive(Clone, Debug)]
pub struct ActiveBlock {
    pub slot: Slot,
    pub creator: u64,
    pub parents: Vec<(BlockId, u64)>,
    pub children: Vec<Vec<(BlockId, u64)>>,
    pub is_final: bool,
}

/// Why a block was permanently rejected.
#[derive(Clone, Copy, PartialEq, Eq, Structural, Debug)]
pub enum DiscardReason {
    Invalid,
    Stale,
    Final,
}

/// Lifecycle state of a known block id.
#[derive(Clone, Debug)]
pub enum BlockStatus {
    /// Received, not yet validated.
    Incoming(Block),
    /// Valid, but its slot lies in the future.
    WaitingForSlot(Block),
    /// Awaits the listed missing ancestors.
    WaitingForDependencies { block: Block, missing: Vec<BlockId> },
    /// Integrated into the DAG.
    Active { a_block: ActiveBlock },
    /// Permanently rejected; the body has been released.
    Discarded { slot: Slot, creator: u64, parents: Vec<BlockId>, reason: DiscardReason },
}

/// A maximal set of mutually compatible active blocks.
#[derive(Clone, Debug)]
pub struct Clique {
    pub block_ids: Vec<BlockId>,
    pub fitness: u64,
    pub is_blockclique: bool,
}

/// Answer of the status query.
#[derive(Clone, Copy, PartialEq, Eq, Structural, Debug)]
pub enum BlockGraphStatus {
    NotFound,
    Incoming,
    WaitingForSlot,
    WaitingForDependencies,
    Discarded,
    Final,
    ActiveInBlockclique,
    ActiveInAlternativeCliques,
}

/// Fatal graph errors.
#[derive(Clone, Copy, PartialEq, Eq, Structural, Debug)]
pub enum GraphError {
    /// The status table and the active subgraph disagree: the named id is
    /// referenced but not active. The graph is corrupt.
    ContainerInconsistency(BlockId),
    /// A body expected in the store is absent.
    MissingBlock(BlockId),
}

} // verus!
