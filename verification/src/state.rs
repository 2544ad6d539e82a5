//! The graph state: statuses, incompatibility graph, cliques, finals, tips.

use vstd::prelude::*;

use crate::alist::{aget, amap, ids_unique, keys_unique};
use crate::ids::{BlockId, Slot};
use crate::status::{ActiveBlock, BlockGraphStatus, BlockStatus, Clique};
use crate::store::BlockStore;

verus! {

/// Configuration of the graph core.
#[derive(Clone, Copy, PartialEq, Eq, Structural, Debug)]
pub struct GraphConfig {
    /// Number of parallel block threads.
    pub thread_count: u8,
    /// Slot period in milliseconds, total across threads.
    pub t0_millis: u64,
    /// Wall-clock anchor of slot `(0, 0)`.
    pub genesis_timestamp_millis: u64,
    /// Retention window, in per-thread periods.
    pub operation_validity_periods: u64,
}

/// The block-graph state.
#[derive(Clone, Debug)]
pub struct GraphState {
    /// Configuration.
    pub config: GraphConfig,
    /// Block bodies, one for every active block.
    pub storage: BlockStore,
    /// Block ids of genesis blocks, one per thread.
    pub genesis_hashes: Vec<BlockId>,
    /// Incompatibility graph: a block id and the ids it is incompatible with.
    pub gi_head: Vec<(BlockId, Vec<BlockId>)>,
    /// All the cliques.
    pub max_cliques: Vec<Clique>,
    /// Ids of active blocks.
    pub active_index: Vec<BlockId>,
    /// One `(block id, period)` per thread: the latest final block.
    pub latest_final_blocks_periods: Vec<(BlockId, u64)>,
    /// One `(block id, period)` per thread: the tips chosen for the next block.
    pub best_parents: Vec<(BlockId, u64)>,
    /// Every block we know about.
    pub block_statuses: Vec<(BlockId, BlockStatus)>,
}

impl GraphState {
    /// The status table as a map.
    pub open spec fn statuses(self) -> Map<BlockId, BlockStatus> {
        amap(self.block_statuses@)
    }

    pub open spec fn thread_count(self) -> int {
        self.config.thread_count as int
    }

    pub open spec fn is_active(self, id: BlockId) -> bool {
        self.statuses().dom().contains(id) && self.statuses()[id] is Active
    }

    /// The active block under an active id.
    pub open spec fn active_of(self, id: BlockId) -> ActiveBlock {
        self.statuses()[id]->Active_a_block
    }

    pub open spec fn is_final_active(self, id: BlockId) -> bool {
        self.is_active(id) && self.active_of(id).is_final
    }

    /// `b` is recorded as incompatible with `a` (under `a`'s key).
    pub open spec fn gi_incomp(self, a: BlockId, b: BlockId) -> bool {
        exists|i: int|
            0 <= i < self.gi_head@.len() && (#[trigger] self.gi_head@[i]).0 == a
                && self.gi_head@[i].1@.contains(b)
    }

    pub open spec fn is_blockclique_at(self, i: int) -> bool {
        self.max_cliques@[i].is_blockclique
    }

    pub open spec fn has_unique_blockclique(self) -> bool {
        (exists|i: int| 0 <= i < self.max_cliques@.len() && self.is_blockclique_at(i))
            && (forall|i: int, j: int|
            0 <= i < self.max_cliques@.len() && 0 <= j < self.max_cliques@.len()
                && self.is_blockclique_at(i) && self.is_blockclique_at(j) ==> i == j)
    }

    pub open spec fn blockclique_idx(self) -> int {
        choose|i: int| 0 <= i < self.max_cliques@.len() && self.is_blockclique_at(i)
    }

    /// The unique clique marked as the blockclique.
    pub open spec fn blockclique(self) -> Clique {
        self.max_cliques@[self.blockclique_idx()]
    }

    pub open spec fn in_blockclique(self, id: BlockId) -> bool {
        self.blockclique().block_ids@.contains(id)
    }

    // ---- invariant ----

    /// Containers are well-shaped: unique keys, per-thread vectors sized to
    /// the thread count.
    pub open spec fn wf_shape(self) -> bool {
        &&& self.config.thread_count >= 1
        &&& keys_unique(self.block_statuses@)
        &&& self.storage.wf()
        &&& ids_unique(self.active_index@)
        &&& keys_unique(self.gi_head@)
        &&& (forall|i: int|
            0 <= i < self.gi_head@.len() ==> ids_unique((#[trigger] self.gi_head@[i]).1@))
        &&& (forall|i: int|
            0 <= i < self.max_cliques@.len() ==> ids_unique(
                (#[trigger] self.max_cliques@[i]).block_ids@,
            ))
        &&& self.genesis_hashes@.len() == self.thread_count()
        &&& self.latest_final_blocks_periods@.len() == self.thread_count()
        &&& self.best_parents@.len() == self.thread_count()
    }

    /// `active_index` holds exactly the ids whose status is `Active`.
    pub open spec fn inv_active_index(self) -> bool {
        forall|id: BlockId| #[trigger] self.active_index@.contains(id) <==> self.is_active(id)
    }

    /// The incompatibility graph is symmetric.
    pub open spec fn inv_gi_symmetric(self) -> bool {
        forall|a: BlockId, b: BlockId| #[trigger] self.gi_incomp(a, b) ==> self.gi_incomp(b, a)
    }

    /// Keys and recorded partners of `gi_head` are non-final active blocks.
    pub open spec fn inv_gi_keys(self) -> bool {
        forall|i: int|
            0 <= i < self.gi_head@.len() ==> self.is_active((#[trigger] self.gi_head@[i]).0)
                && !self.active_of(self.gi_head@[i].0).is_final
    }

    /// Exactly one clique is the blockclique; its fitness is maximal; fitness
    /// counts the member blocks; members are active and pairwise compatible;
    /// every non-final active block belongs to at least one clique.
    pub open spec fn inv_cliques(self) -> bool {
        &&& self.has_unique_blockclique()
        &&& (forall|i: int|
            0 <= i < self.max_cliques@.len() ==> (#[trigger] self.max_cliques@[i]).fitness
                == self.max_cliques@[i].block_ids@.len())
        &&& (forall|i: int|
            0 <= i < self.max_cliques@.len() ==> self.blockclique().fitness
                >= (#[trigger] self.max_cliques@[i]).fitness)
        &&& (forall|i: int, id: BlockId|
            0 <= i < self.max_cliques@.len()
                && #[trigger] self.max_cliques@[i].block_ids@.contains(id) ==> self.is_active(id))
        &&& (forall|i: int, a: BlockId, b: BlockId|
            0 <= i < self.max_cliques@.len()
                && #[trigger] self.max_cliques@[i].block_ids@.contains(a)
                && #[trigger] self.max_cliques@[i].block_ids@.contains(b) && a != b
                ==> !self.gi_incomp(a, b))
        &&& (forall|id: BlockId|
            self.is_active(id) && !(#[trigger] self.active_of(id)).is_final ==> exists|i: int|
                0 <= i < self.max_cliques@.len()
                    && #[trigger] self.max_cliques@[i].block_ids@.contains(id))
    }

    /// Per thread, the latest final pointer names an active final block of
    /// that thread with the recorded period, and no active final block of the
    /// thread has a higher period.
    pub open spec fn inv_latest_final(self) -> bool {
        &&& (forall|t: int|
            0 <= t < self.thread_count() ==> {
                let id = (#[trigger] self.latest_final_blocks_periods@[t]).0;
                let p = self.latest_final_blocks_periods@[t].1;
                self.is_final_active(id) && self.active_of(id).slot == (Slot {
                    thread: t as u8,
                    period: p,
                })
            })
        &&& (forall|id: BlockId|
            #[trigger] self.is_final_active(id) ==> self.active_of(id).slot.period
                <= self.latest_final_blocks_periods@[self.active_of(id).slot.thread as int].1)
    }

    /// Per thread, the chosen parent is a non-final member of the blockclique
    /// of that thread, or falls back to the latest final block.
    pub open spec fn inv_best_parents(self) -> bool {
        forall|t: int|
            0 <= t < self.thread_count() ==> {
                let id = (#[trigger] self.best_parents@[t]).0;
                let p = self.best_parents@[t].1;
                (self.in_blockclique(id) && self.is_active(id) && !self.active_of(id).is_final
                    && self.active_of(id).slot == (Slot { thread: t as u8, period: p }))
                    || self.best_parents@[t] == self.latest_final_blocks_periods@[t]
            }
    }

    /// Structure of parent links: an active block sits in a real thread, has
    /// either no parents (genesis) or one per thread; the parent recorded for
    /// thread `t` lives in thread `t` with the recorded period, and the
    /// own-thread parent has a strictly smaller period.
    pub open spec fn inv_parents(self) -> bool {
        forall|id: BlockId|
            #[trigger] self.is_active(id) ==> {
                let ab = self.active_of(id);
                &&& ab.slot.thread < self.thread_count()
                &&& (ab.parents@.len() == 0 <==> self.genesis_hashes@.contains(id))
                &&& (ab.parents@.len() != 0 ==> ab.parents@.len() == self.thread_count())
                &&& (forall|t: int|
                    0 <= t < ab.parents@.len() ==> {
                        let pid = (#[trigger] ab.parents@[t]).0;
                        let pp = ab.parents@[t].1;
                        &&& (self.is_active(pid) ==> self.active_of(pid).slot == (Slot {
                            thread: t as u8,
                            period: pp,
                        }))
                        &&& (t == ab.slot.thread ==> pp < ab.slot.period)
                    })
            }
    }

    /// Genesis blocks are active, final, parentless, at period 0 of their
    /// thread.
    pub open spec fn inv_genesis(self) -> bool {
        forall|t: int|
            0 <= t < self.thread_count() ==> {
                let g = (#[trigger] self.genesis_hashes@[t]);
                self.is_final_active(g) && self.active_of(g).slot == (Slot {
                    thread: t as u8,
                    period: 0,
                }) && self.active_of(g).parents@.len() == 0
            }
    }

    /// Active parents of a final block are final themselves.
    pub open spec fn inv_final_parents(self) -> bool {
        forall|id: BlockId, t: int|
            self.is_final_active(id) && 0 <= t < (#[trigger] self.active_of(id)).parents@.len()
                && self.is_active(#[trigger] self.active_of(id).parents@[t].0) ==> self.active_of(
                self.active_of(id).parents@[t].0,
            ).is_final
    }

    /// A body resides in the store for every active block, agreeing with the
    /// active record, and for no discarded block.
    pub open spec fn inv_storage(self) -> bool {
        &&& (forall|id: BlockId|
            #[trigger] self.is_active(id) ==> self.storage.view_map().dom().contains(id) && {
                let b = self.storage.view_map()[id];
                &&& b.header.slot == self.active_of(id).slot
                &&& b.header.creator == self.active_of(id).creator
                &&& b.header.parents@ == self.active_of(id).parents@
            })
        &&& (forall|id: BlockId|
            self.statuses().dom().contains(id) && (#[trigger] self.statuses()[id]) is Discarded
                ==> !self.storage.view_map().dom().contains(id))
    }

    /// Every part of the invariant except the best-parent choice; what
    /// holds while the tips are being re-chosen.
    pub open spec fn inv_core(self) -> bool {
        &&& self.wf_shape()
        &&& self.inv_active_index()
        &&& self.inv_gi_symmetric()
        &&& self.inv_gi_keys()
        &&& self.inv_cliques()
        &&& self.inv_latest_final()
        &&& self.inv_parents()
        &&& self.inv_genesis()
        &&& self.inv_final_parents()
        &&& self.inv_storage()
    }

    /// The state invariant, holding between any two operations.
    pub open spec fn inv(self) -> bool {
        &&& self.inv_core()
        &&& self.inv_best_parents()
    }

    // ---- queries ----

    /// The active block under `block_id`, if its status is `Active`.
    pub fn get_full_active_block(&self, block_id: &BlockId) -> (r: Option<&ActiveBlock>)
        requires
            keys_unique(self.block_statuses@),
        ensures
            match r {
                Some(ab) => self.is_active(*block_id) && *ab == self.active_of(*block_id),
                None => !self.is_active(*block_id),
            },
    {
        match aget(&self.block_statuses, *block_id) {
            Some(BlockStatus::Active { a_block }) => Some(a_block),
            _ => None,
        }
    }

    /// What the status query answers for `id`.
    pub open spec fn graph_status_spec(self, id: BlockId) -> BlockGraphStatus {
        if !self.statuses().dom().contains(id) {
            BlockGraphStatus::NotFound
        } else {
            match self.statuses()[id] {
                BlockStatus::Incoming(_) => BlockGraphStatus::Incoming,
                BlockStatus::WaitingForSlot(_) => BlockGraphStatus::WaitingForSlot,
                BlockStatus::WaitingForDependencies { .. } => BlockGraphStatus::WaitingForDependencies,
                BlockStatus::Discarded { .. } => BlockGraphStatus::Discarded,
                BlockStatus::Active { a_block } => if a_block.is_final {
                    BlockGraphStatus::Final
                } else if self.in_blockclique(id) {
                    BlockGraphStatus::ActiveInBlockclique
                } else {
                    BlockGraphStatus::ActiveInAlternativeCliques
                },
            }
        }
    }

    /// Index of the blockclique in `max_cliques`.
    fn find_blockclique_index(&self) -> (r: usize)
        requires
            self.has_unique_blockclique(),
        ensures
            r == self.blockclique_idx(),
            0 <= r < self.max_cliques@.len(),
            self.max_cliques@[r as int] == self.blockclique(),
    {
        let mut i: usize = 0;
        while i < self.max_cliques.len()
            invariant
                self.has_unique_blockclique(),
                0 <= i <= self.max_cliques@.len(),
                forall|j: int| 0 <= j < i ==> !self.is_blockclique_at(j),
            decreases self.max_cliques@.len() - i,
        {
            if self.max_cliques[i].is_blockclique {
                proof {
                    assert(self.is_blockclique_at(i as int));
                    assert(exists|j: int|
                        0 <= j < self.max_cliques@.len() && self.is_blockclique_at(j));
                    let w = self.blockclique_idx();
                    assert(0 <= w < self.max_cliques@.len() && self.is_blockclique_at(w));
                    assert(w == i as int);
                }
                return i;
            }
            i += 1;
        }
        proof {
            let w = choose|i: int| 0 <= i < self.max_cliques@.len() && self.is_blockclique_at(i);
            assert(!self.is_blockclique_at(w));
            assert(false);
        }
        0
    }

    /// Resolve the lifecycle state of a block id for the query surface.
    pub fn get_block_status(&self, block_id: &BlockId) -> (r: BlockGraphStatus)
        requires
            keys_unique(self.block_statuses@),
            self.has_unique_blockclique(),
        ensures
            r == self.graph_status_spec(*block_id),
    {
        match aget(&self.block_statuses, *block_id) {
            None => BlockGraphStatus::NotFound,
            Some(BlockStatus::Active { a_block }) => {
                if a_block.is_final {
                    BlockGraphStatus::Final
                } else {
                    let bc = self.find_blockclique_index();
                    if crate::alist::idvec_contains(&self.max_cliques[bc].block_ids, *block_id) {
                        BlockGraphStatus::ActiveInBlockclique
                    } else {
                        BlockGraphStatus::ActiveInAlternativeCliques
                    }
                }
            },
            Some(BlockStatus::Discarded { .. }) => BlockGraphStatus::Discarded,
            Some(BlockStatus::Incoming(_)) => BlockGraphStatus::Incoming,
            Some(BlockStatus::WaitingForDependencies { .. }) => {
                BlockGraphStatus::WaitingForDependencies
            },
            Some(BlockStatus::WaitingForSlot(_)) => BlockGraphStatus::WaitingForSlot,
        }
    }

    /// First candidate from index `i` on that belongs to the blockclique.
    pub open spec fn first_in_clique_from(self, cands: Seq<BlockId>, i: int) -> Option<BlockId>
        decreases cands.len() - i when 0 <= i <= cands.len()
    {
        if i >= cands.len() {
            None
        } else if self.in_blockclique(cands[i]) {
            Some(cands[i])
        } else {
            self.first_in_clique_from(cands, i + 1)
        }
    }

    /// First candidate from index `i` on whose status is active and final.
    pub open spec fn first_final_from(self, cands: Seq<BlockId>, i: int) -> Option<BlockId>
        decreases cands.len() - i when 0 <= i <= cands.len()
    {
        if i >= cands.len() {
            None
        } else if self.is_final_active(cands[i]) {
            Some(cands[i])
        } else {
            self.first_final_from(cands, i + 1)
        }
    }

    /// What the block-at-slot query answers: among the stored blocks sitting
    /// at `slot`, the first one (in store order) in the blockclique, else the
    /// first finalized one, else nothing.
    pub open spec fn blockclique_block_at_slot_spec(self, slot: Slot) -> Option<BlockId> {
        let cands = crate::store::ids_at_slot(self.storage.blocks@, slot);
        if self.first_in_clique_from(cands, 0) is Some {
            self.first_in_clique_from(cands, 0)
        } else {
            self.first_final_from(cands, 0)
        }
    }

    /// The blockclique (or final) block id at a given slot, if any.
    pub fn get_blockclique_block_at_slot(&self, slot: &Slot) -> (r: Option<BlockId>)
        requires
            keys_unique(self.block_statuses@),
            self.storage.wf(),
            self.has_unique_blockclique(),
        ensures
            r == self.blockclique_block_at_slot_spec(*slot),
    {
        // List all blocks at this slot: a copy, so no store borrow outlives it.
        let blocks_at_slot = self.storage.blocks_at_slot(*slot);
        let ghost cands = blocks_at_slot@;

        // Search for the block in the blockclique.
        let bc = self.find_blockclique_index();
        let mut i: usize = 0;
        while i < blocks_at_slot.len()
            invariant
                self.has_unique_blockclique(),
                0 <= i <= cands.len(),
                blocks_at_slot@ == cands,
                cands == crate::store::ids_at_slot(self.storage.blocks@, *slot),
                0 <= bc < self.max_cliques@.len(),
                self.max_cliques@[bc as int] == self.blockclique(),
                self.first_in_clique_from(cands, 0) == self.first_in_clique_from(cands, i as int),
            decreases cands.len() - i,
        {
            if crate::alist::idvec_contains(&self.max_cliques[bc].block_ids, blocks_at_slot[i]) {
                return Some(blocks_at_slot[i]);
            }
            i += 1;
        }

        // Block not found in the blockclique: search in the final blocks.
        let mut j: usize = 0;
        while j < blocks_at_slot.len()
            invariant
                keys_unique(self.block_statuses@),
                0 <= j <= cands.len(),
                blocks_at_slot@ == cands,
                cands == crate::store::ids_at_slot(self.storage.blocks@, *slot),
                self.first_in_clique_from(cands, 0) is None,
                self.first_final_from(cands, 0) == self.first_final_from(cands, j as int),
            decreases cands.len() - j,
        {
            let found = match self.get_full_active_block(&blocks_at_slot[j]) {
                Some(ab) => ab.is_final,
                None => false,
            };
            if found {
                return Some(blocks_at_slot[j]);
            }
            j += 1;
        }
        None
    }

    /// Left-to-right scan of clique members, keeping the non-final member of
    /// `slot`'s thread with the highest period below `slot.period`.
    pub open spec fn latest_scan(
        self,
        members: Seq<BlockId>,
        i: int,
        best: (BlockId, u64),
        slot: Slot,
    ) -> (BlockId, u64)
        decreases members.len() - i when 0 <= i <= members.len()
    {
        if i >= members.len() {
            best
        } else {
            let id = members[i];
            let ab = self.active_of(id);
            let nb = if !ab.is_final && ab.slot.thread == slot.thread && ab.slot.period
                < slot.period && ab.slot.period > best.1 {
                (id, ab.slot.period)
            } else {
                best
            };
            self.latest_scan(members, i + 1, nb, slot)
        }
    }

    /// What the latest-block query answers: the latest final block of the
    /// slot's thread, superseded by any non-final blockclique member of that
    /// thread with a higher period still below `slot.period`.
    pub open spec fn latest_blockclique_block_at_slot_spec(self, slot: Slot) -> BlockId {
        self.latest_scan(
            self.blockclique().block_ids@,
            0,
            self.latest_final_blocks_periods@[slot.thread as int],
            slot,
        ).0
    }

    /// The latest blockclique (or final) block id at a given slot.
    ///
    /// Finalized members of the blockclique are filtered out of the scan.
    pub fn get_latest_blockclique_block_at_slot(&self, slot: &Slot) -> (r: BlockId)
        requires
            self.inv(),
            slot.thread < self.config.thread_count,
        ensures
            r == self.latest_blockclique_block_at_slot_spec(*slot),
    {
        let lf = self.latest_final_blocks_periods[slot.thread as usize];
        let mut best_block_id = lf.0;
        let mut best_block_period = lf.1;

        let bc = self.find_blockclique_index();
        let ghost members = self.max_cliques@[bc as int].block_ids@;
        let n = self.max_cliques[bc].block_ids.len();
        let mut i: usize = 0;
        while i < n
            invariant
                self.inv(),
                0 <= i <= n,
                n == members.len(),
                0 <= bc < self.max_cliques@.len(),
                self.max_cliques@[bc as int] == self.blockclique(),
                members == self.blockclique().block_ids@,
                self.latest_scan(members, 0, (lf.0, lf.1), *slot) == self.latest_scan(
                    members,
                    i as int,
                    (best_block_id, best_block_period),
                    *slot,
                ),
            decreases n - i,
        {
            let id = self.max_cliques[bc].block_ids[i];
            proof {
                assert(self.max_cliques@[bc as int].block_ids@.contains(members[i as int]));
            }
            match self.get_full_active_block(&id) {
                Some(a_block) => {
                    if !a_block.is_final && a_block.slot.thread == slot.thread
                        && a_block.slot.period < slot.period && a_block.slot.period
                        > best_block_period {
                        best_block_period = a_block.slot.period;
                        best_block_id = id;
                    }
                },
                None => {
                    proof {
                        assert(false);
                    }
                },
            }
            i += 1;
        }
        best_block_id
    }

    /// The scan keeps its accumulator when the slot sits at period 0: no
    /// period can be smaller.
    proof fn lemma_latest_scan_period_zero(
        self,
        members: Seq<BlockId>,
        i: int,
        best: (BlockId, u64),
        slot: Slot,
    )
        requires
            slot.period == 0,
            0 <= i <= members.len(),
        ensures
            self.latest_scan(members, i, best, slot) == best,
        decreases members.len() - i,
    {
        if i < members.len() {
            self.lemma_latest_scan_period_zero(members, i + 1, best, slot);
        }
    }

    /// At period 0 of any thread, the latest-block query answers the latest
    /// final block of that thread.
    pub proof fn lemma_latest_at_period_zero(self, slot: Slot)
        requires
            self.inv(),
            slot.thread < self.config.thread_count,
            slot.period == 0,
        ensures
            self.latest_blockclique_block_at_slot_spec(slot)
                == self.latest_final_blocks_periods@[slot.thread as int].0,
    {
        self.lemma_latest_scan_period_zero(
            self.blockclique().block_ids@,
            0,
            self.latest_final_blocks_periods@[slot.thread as int],
            slot,
        );
    }
}

/// Writing a non-active status under a previously non-active id preserves
/// the state invariant: the active subgraph, the cliques and the pointers
/// are untouched.
proof fn lemma_status_insert_preserves_inv(s1: GraphState, s2: GraphState, id: BlockId, st: BlockStatus)
    requires
        s1.inv(),
        !(st is Active),
        !s1.is_active(id),
        st is Discarded ==> !s1.storage.view_map().dom().contains(id),
        keys_unique(s2.block_statuses@),
        s2.statuses() == s1.statuses().insert(id, st),
        s2.config == s1.config,
        s2.storage == s1.storage,
        s2.genesis_hashes == s1.genesis_hashes,
        s2.gi_head == s1.gi_head,
        s2.max_cliques == s1.max_cliques,
        s2.active_index == s1.active_index,
        s2.latest_final_blocks_periods == s1.latest_final_blocks_periods,
        s2.best_parents == s1.best_parents,
    ensures
        s2.inv(),
        forall|x: BlockId| #[trigger] s2.is_active(x) <==> s1.is_active(x),
{
    assert forall|x: BlockId| #[trigger] s2.is_active(x) <==> s1.is_active(x) by {
        if x == id {
            assert(!(s2.statuses()[x] is Active));
        }
    }
    assert(forall|x: BlockId|
        s1.is_active(x) ==> #[trigger] s2.active_of(x) == s1.active_of(x));
    assert forall|x: BlockId|
        s2.statuses().dom().contains(x) && (#[trigger] s2.statuses()[x]) is Discarded
        implies !s2.storage.view_map().dom().contains(x) by {
        if x != id {
            assert(s1.statuses()[x] is Discarded);
        }
    }
    assert(s2.wf_shape());
    assert(s2.inv_active_index());
    assert(s2.inv_gi_symmetric()) by {
        assert(forall|a: BlockId, b: BlockId|
            #[trigger] s2.gi_incomp(a, b) <==> s1.gi_incomp(a, b));
    }
    assert(s2.inv_gi_keys());
    assert(s2.inv_cliques()) by {
        assert(forall|i: int|
            0 <= i < s2.max_cliques@.len() ==> #[trigger] s2.is_blockclique_at(i)
                == s1.is_blockclique_at(i));
        let w = s1.blockclique_idx();
        assert(0 <= w < s1.max_cliques@.len() && s1.is_blockclique_at(w));
        assert(s2.is_blockclique_at(w));
        assert(s2.has_unique_blockclique());
        assert(s2.blockclique_idx() == s1.blockclique_idx());
        assert(forall|a: BlockId, b: BlockId|
            #[trigger] s2.gi_incomp(a, b) <==> s1.gi_incomp(a, b));
    }
    assert(s2.inv_latest_final()) by {
        assert(forall|x: BlockId| #[trigger] s2.is_final_active(x) <==> s1.is_final_active(x));
    }
    assert(s2.inv_best_parents()) by {
        assert(s2.blockclique_idx() == s1.blockclique_idx()) by {
            let w = s1.blockclique_idx();
            assert(0 <= w < s1.max_cliques@.len() && s1.is_blockclique_at(w));
            assert(s2.is_blockclique_at(w));
            assert(forall|i: int|
                0 <= i < s2.max_cliques@.len() ==> #[trigger] s2.is_blockclique_at(i)
                    == s1.is_blockclique_at(i));
        }
    }
    assert(s2.inv_parents());
    assert(s2.inv_genesis());
    assert(s2.inv_final_parents());
    assert(s2.inv_storage());
}

impl GraphState {
    /// Record a status under `id`, shared body of the lifecycle transitions.
    fn set_status(&mut self, id: BlockId, st: BlockStatus)
        requires
            old(self).inv(),
            !(st is Active),
            !old(self).is_active(id),
            st is Discarded ==> !old(self).storage.view_map().dom().contains(id),
        ensures
            final(self).inv(),
            final(self).statuses() == old(self).statuses().insert(id, st),
            forall|x: BlockId| #[trigger] final(self).is_active(x) <==> old(self).is_active(x),
            final(self).config == old(self).config,
            final(self).storage == old(self).storage,
            final(self).genesis_hashes == old(self).genesis_hashes,
            final(self).gi_head == old(self).gi_head,
            final(self).max_cliques == old(self).max_cliques,
            final(self).active_index == old(self).active_index,
            final(self).latest_final_blocks_periods == old(self).latest_final_blocks_periods,
            final(self).best_parents == old(self).best_parents,
    {
        let ghost s1 = *self;
        let ghost st0 = st;
        crate::alist::ainsert(&mut self.block_statuses, id, st);
        proof {
            lemma_status_insert_preserves_inv(s1, *self, id, st0);
        }
    }

    /// A block was received and awaits validation: record it as `Incoming`.
    pub fn register_incoming(&mut self, id: BlockId, block: crate::store::Block)
        requires
            old(self).inv(),
            !old(self).statuses().dom().contains(id),
        ensures
            final(self).inv(),
            final(self).statuses() == old(self).statuses().insert(
                id,
                BlockStatus::Incoming(block),
            ),
            final(self).graph_status_spec(id) == BlockGraphStatus::Incoming,
    {
        self.set_status(id, BlockStatus::Incoming(block));
    }

    /// A valid block whose slot lies in the future waits for its slot.
    pub fn mark_waiting_for_slot(&mut self, id: BlockId, block: crate::store::Block)
        requires
            old(self).inv(),
            old(self).statuses().dom().contains(id),
            old(self).statuses()[id] is Incoming,
        ensures
            final(self).inv(),
            final(self).statuses() == old(self).statuses().insert(
                id,
                BlockStatus::WaitingForSlot(block),
            ),
            final(self).graph_status_spec(id) == BlockGraphStatus::WaitingForSlot,
    {
        self.set_status(id, BlockStatus::WaitingForSlot(block));
    }

    /// A block awaits the listed missing ancestors.
    pub fn mark_waiting_for_dependencies(
        &mut self,
        id: BlockId,
        block: crate::store::Block,
        missing: Vec<BlockId>,
    )
        requires
            old(self).inv(),
            old(self).statuses().dom().contains(id),
            old(self).statuses()[id] is Incoming,
        ensures
            final(self).inv(),
            final(self).statuses() == old(self).statuses().insert(
                id,
                BlockStatus::WaitingForDependencies { block, missing },
            ),
            final(self).graph_status_spec(id) == BlockGraphStatus::WaitingForDependencies,
    {
        self.set_status(id, BlockStatus::WaitingForDependencies { block, missing });
    }

    /// A waiting block becomes current again: its slot arrived, or its last
    /// missing ancestor did.
    pub fn requeue_as_incoming(&mut self, id: BlockId, block: crate::store::Block)
        requires
            old(self).inv(),
            old(self).statuses().dom().contains(id),
            old(self).statuses()[id] is WaitingForSlot || old(self).statuses()[id]
                is WaitingForDependencies,
        ensures
            final(self).inv(),
            final(self).statuses() == old(self).statuses().insert(
                id,
                BlockStatus::Incoming(block),
            ),
            final(self).graph_status_spec(id) == BlockGraphStatus::Incoming,
    {
        self.set_status(id, BlockStatus::Incoming(block));
    }

    /// Permanently reject a block that never became active; its body must
    /// already be out of the store.
    pub fn discard(
        &mut self,
        id: BlockId,
        slot: Slot,
        creator: u64,
        parents: Vec<BlockId>,
        reason: crate::status::DiscardReason,
    )
        requires
            old(self).inv(),
            !old(self).is_active(id),
            !old(self).storage.view_map().dom().contains(id),
        ensures
            final(self).inv(),
            final(self).statuses() == old(self).statuses().insert(
                id,
                BlockStatus::Discarded { slot, creator, parents, reason },
            ),
            final(self).graph_status_spec(id) == BlockGraphStatus::Discarded,
    {
        self.set_status(id, BlockStatus::Discarded { slot, creator, parents, reason });
    }

    // ---- the standing laws of the state ----

    /// `active_index` holds exactly the ids whose status is `Active`.
    pub proof fn lemma_active_index_consistent(self)
        requires
            self.inv(),
        ensures
            forall|id: BlockId| #[trigger] self.active_index@.contains(id) <==> self.is_active(id),
    {
    }

    /// The incompatibility graph is symmetric.
    pub proof fn lemma_gi_symmetric(self, a: BlockId, b: BlockId)
        requires
            self.inv(),
        ensures
            self.gi_incomp(a, b) ==> self.gi_incomp(b, a),
            self.gi_incomp(b, a) ==> self.gi_incomp(a, b),
    {
    }

    /// Exactly one clique is the blockclique, and its fitness is at least
    /// that of every other clique.
    pub proof fn lemma_unique_blockclique_max_fitness(self)
        requires
            self.inv(),
        ensures
            self.has_unique_blockclique(),
            forall|i: int|
                0 <= i < self.max_cliques@.len() ==> self.blockclique().fitness
                    >= (#[trigger] self.max_cliques@[i]).fitness,
    {
    }

    /// Per thread, the chosen parent is a non-final blockclique member of the
    /// thread, or the latest final block of the thread.
    pub proof fn lemma_best_parents_valid(self, t: int)
        requires
            self.inv(),
            0 <= t < self.thread_count(),
        ensures
            (self.in_blockclique(self.best_parents@[t].0) && self.is_active(
                self.best_parents@[t].0,
            ) && !self.active_of(self.best_parents@[t].0).is_final && self.active_of(
                self.best_parents@[t].0,
            ).slot == (Slot { thread: t as u8, period: self.best_parents@[t].1 }))
                || self.best_parents@[t] == self.latest_final_blocks_periods@[t],
    {
    }
}

impl GraphState {
    /// Initial state: one final genesis block per thread at period 0, a
    /// single empty blockclique, and the genesis blocks as latest finals and
    /// best parents.
    pub fn new(config: GraphConfig, genesis: &Vec<(BlockId, u64)>) -> (r: GraphState)
        requires
            config.thread_count >= 1,
            genesis@.len() == config.thread_count,
            forall|i: int, j: int|
                0 <= i < j < genesis@.len() ==> (#[trigger] genesis@[i]).0 != (
                #[trigger] genesis@[j]).0,
        ensures
            r.inv(),
            r.config == config,
            forall|t: int|
                0 <= t < genesis@.len() ==> (#[trigger] r.genesis_hashes@[t]) == genesis@[t].0
                    && r.latest_final_blocks_periods@[t] == (genesis@[t].0, 0u64)
                    && r.best_parents@[t] == (genesis@[t].0, 0u64),
            forall|id: BlockId|
                #[trigger] r.statuses().dom().contains(id) <==> exists|t: int|
                    0 <= t < genesis@.len() && (#[trigger] genesis@[t]).0 == id,
            forall|t: int|
                0 <= t < genesis@.len() ==> r.is_active((#[trigger] genesis@[t]).0) && {
                    let ab = r.active_of(genesis@[t].0);
                    &&& ab.slot == (Slot { thread: t as u8, period: 0 })
                    &&& ab.creator == genesis@[t].1
                    &&& ab.parents@.len() == 0
                    &&& ab.children@.len() == 0
                    &&& ab.is_final
                },
            r.gi_head@.len() == 0,
            r.max_cliques@.len() == 1,
            r.max_cliques@[0].block_ids@.len() == 0,
            r.max_cliques@[0].fitness == 0,
            r.max_cliques@[0].is_blockclique,
    {
        let mut statuses: Vec<(BlockId, BlockStatus)> = Vec::new();
        let mut store = BlockStore::new();
        let mut index: Vec<BlockId> = Vec::new();
        let mut hashes: Vec<BlockId> = Vec::new();
        let mut finals: Vec<(BlockId, u64)> = Vec::new();
        let mut parents: Vec<(BlockId, u64)> = Vec::new();

        let mut t: usize = 0;
        while t < genesis.len()
            invariant
                config.thread_count >= 1,
                genesis@.len() == config.thread_count,
                forall|i: int, j: int|
                    0 <= i < j < genesis@.len() ==> (#[trigger] genesis@[i]).0 != (
                    #[trigger] genesis@[j]).0,
                0 <= t <= genesis@.len(),
                statuses@.len() == t,
                index@.len() == t,
                hashes@.len() == t,
                finals@.len() == t,
                parents@.len() == t,
                store.wf(),
                forall|k: int|
                    0 <= k < t ==> (#[trigger] statuses@[k]).0 == genesis@[k].0
                        && statuses@[k].1 is Active && {
                        let ab = statuses@[k].1->Active_a_block;
                        &&& ab.slot == (Slot { thread: k as u8, period: 0 })
                        &&& ab.creator == genesis@[k].1
                        &&& ab.parents@.len() == 0
                        &&& ab.children@.len() == 0
                        &&& ab.is_final
                    },
                forall|k: int| 0 <= k < t ==> (#[trigger] index@[k]) == genesis@[k].0,
                forall|k: int| 0 <= k < t ==> (#[trigger] hashes@[k]) == genesis@[k].0,
                forall|k: int| 0 <= k < t ==> (#[trigger] finals@[k]) == (genesis@[k].0, 0u64),
                forall|k: int| 0 <= k < t ==> (#[trigger] parents@[k]) == (genesis@[k].0, 0u64),
                forall|id: BlockId|
                    #[trigger] store.view_map().dom().contains(id) ==> exists|k: int|
                        0 <= k < t && (#[trigger] genesis@[k]).0 == id,
                forall|k: int|
                    0 <= k < t ==> store.view_map().dom().contains((#[trigger] genesis@[k]).0)
                        && store.view_map()[genesis@[k].0] == (crate::store::Block {
                        header: crate::store::BlockHeader {
                            slot: Slot { thread: k as u8, period: 0 },
                            creator: genesis@[k].1,
                            parents: store.view_map()[genesis@[k].0].header.parents,
                        },
                    }) && store.view_map()[genesis@[k].0].header.parents@.len() == 0,
            decreases genesis@.len() - t,
        {
            let (gid, creator) = genesis[t];
            let slot = Slot { thread: t as u8, period: 0 };
            let ab = ActiveBlock {
                slot,
                creator,
                parents: Vec::new(),
                children: Vec::new(),
                is_final: true,
            };
            let body = crate::store::Block {
                header: crate::store::BlockHeader { slot, creator, parents: Vec::new() },
            };
            let ghost s0 = statuses@;
            statuses.push((gid, BlockStatus::Active { a_block: ab }));
            store.insert(gid, body);
            index.push(gid);
            hashes.push(gid);
            finals.push((gid, 0));
            parents.push((gid, 0));
            t += 1;
        }

        let mut cliques: Vec<Clique> = Vec::new();
        cliques.push(Clique { block_ids: Vec::new(), fitness: 0, is_blockclique: true });

        let r = GraphState {
            config,
            storage: store,
            genesis_hashes: hashes,
            gi_head: Vec::new(),
            max_cliques: cliques,
            active_index: index,
            latest_final_blocks_periods: finals,
            best_parents: parents,
            block_statuses: statuses,
        };
        proof {
            assert(keys_unique(r.block_statuses@)) by {
                assert(forall|k: int|
                    0 <= k < r.block_statuses@.len() ==> (#[trigger] r.block_statuses@[k]).0
                        == genesis@[k].0);
            }
            assert forall|id: BlockId| #[trigger] r.statuses().dom().contains(id) implies exists|
                k: int,
            | 0 <= k < genesis@.len() && (#[trigger] genesis@[k]).0 == id by {
                amap_dom_helper(r.block_statuses@, id);
                let k = choose|k: int|
                    0 <= k < r.block_statuses@.len() && (#[trigger] r.block_statuses@[k]).0 == id;
                assert(genesis@[k].0 == id);
            }
            assert forall|k: int| 0 <= k < genesis@.len() implies #[trigger] r.statuses().dom().contains(
                genesis@[k].0,
            ) && r.statuses()[genesis@[k].0] == r.block_statuses@[k].1 by {
                crate::alist::lemma_amap_index(r.block_statuses@, k);
            }
            assert forall|t2: int| 0 <= t2 < genesis@.len() implies r.is_active(
                (#[trigger] genesis@[t2]).0,
            ) && {
                let ab = r.active_of(genesis@[t2].0);
                &&& ab.slot == (Slot { thread: t2 as u8, period: 0 })
                &&& ab.creator == genesis@[t2].1
                &&& ab.parents@.len() == 0
                &&& ab.children@.len() == 0
                &&& ab.is_final
            } by {
                crate::alist::lemma_amap_index(r.block_statuses@, t2);
            }
            assert forall|id: BlockId| #[trigger] r.is_active(id) implies exists|k: int|
                0 <= k < genesis@.len() && (#[trigger] genesis@[k]).0 == id by {
                amap_dom_helper(r.block_statuses@, id);
            }
            assert(r.is_blockclique_at(0));
            assert(r.has_unique_blockclique());
            assert(r.blockclique_idx() == 0);
            assert(r.wf_shape());
            assert(r.inv_active_index()) by {
                assert forall|id: BlockId| #[trigger] r.active_index@.contains(id) implies
                    r.is_active(id) by {
                    let k = choose|k: int|
                        0 <= k < r.active_index@.len() && r.active_index@[k] == id;
                    crate::alist::lemma_amap_index(r.block_statuses@, k);
                }
                assert forall|id: BlockId| r.is_active(id) implies #[trigger] r.active_index@.contains(
                    id,
                ) by {
                    amap_dom_helper(r.block_statuses@, id);
                    let k = choose|k: int|
                        0 <= k < genesis@.len() && (#[trigger] genesis@[k]).0 == id;
                    assert(r.active_index@[k] == id);
                }
            }
            assert(r.inv_gi_symmetric());
            assert(r.inv_gi_keys());
            assert(r.inv_cliques());
            assert(r.inv_latest_final()) by {
                assert forall|t2: int| 0 <= t2 < r.thread_count() implies {
                    let id = (#[trigger] r.latest_final_blocks_periods@[t2]).0;
                    let p = r.latest_final_blocks_periods@[t2].1;
                    r.is_final_active(id) && r.active_of(id).slot == (Slot {
                        thread: t2 as u8,
                        period: p,
                    })
                } by {
                    assert(r.latest_final_blocks_periods@[t2] == (genesis@[t2].0, 0u64));
                    crate::alist::lemma_amap_index(r.block_statuses@, t2);
                }
                assert forall|id: BlockId| #[trigger] r.is_final_active(id) implies r.active_of(
                    id,
                ).slot.period <= r.latest_final_blocks_periods@[r.active_of(
                    id,
                ).slot.thread as int].1 by {
                    amap_dom_helper(r.block_statuses@, id);
                    let k = choose|k: int|
                        0 <= k < genesis@.len() && (#[trigger] genesis@[k]).0 == id;
                    crate::alist::lemma_amap_index(r.block_statuses@, k);
                    assert(r.latest_final_blocks_periods@[k] == (genesis@[k].0, 0u64));
                }
            }
            assert(r.inv_best_parents()) by {
                assert forall|t2: int| 0 <= t2 < r.thread_count() implies (
                #[trigger] r.best_parents@[t2]) == r.latest_final_blocks_periods@[t2] by {
                    assert(r.best_parents@[t2] == (genesis@[t2].0, 0u64));
                    assert(r.latest_final_blocks_periods@[t2] == (genesis@[t2].0, 0u64));
                }
            }
            assert(r.inv_parents()) by {
                assert forall|id: BlockId| #[trigger] r.is_active(id) implies {
                    let ab = r.active_of(id);
                    &&& ab.slot.thread < r.thread_count()
                    &&& (ab.parents@.len() == 0 <==> r.genesis_hashes@.contains(id))
                    &&& (ab.parents@.len() != 0 ==> ab.parents@.len() == r.thread_count())
                } by {
                    amap_dom_helper(r.block_statuses@, id);
                    let k = choose|k: int|
                        0 <= k < genesis@.len() && (#[trigger] genesis@[k]).0 == id;
                    crate::alist::lemma_amap_index(r.block_statuses@, k);
                    assert((#[trigger] r.genesis_hashes@[k]) == genesis@[k].0);
                    assert(r.genesis_hashes@[k] == id);
                }
            }
            assert(r.inv_genesis()) by {
                assert forall|k: int| 0 <= k < r.thread_count() implies {
                    let g = (#[trigger] r.genesis_hashes@[k]);
                    r.is_final_active(g) && r.active_of(g).slot == (Slot {
                        thread: k as u8,
                        period: 0,
                    }) && r.active_of(g).parents@.len() == 0
                } by {
                    assert((#[trigger] r.genesis_hashes@[k]) == genesis@[k].0);
                    crate::alist::lemma_amap_index(r.block_statuses@, k);
                }
            }
            assert(r.inv_final_parents()) by {
                assert forall|id: BlockId| #[trigger] r.is_active(id) implies r.active_of(
                    id,
                ).parents@.len() == 0 by {
                    amap_dom_helper(r.block_statuses@, id);
                    let k = choose|k: int|
                        0 <= k < genesis@.len() && (#[trigger] genesis@[k]).0 == id;
                    crate::alist::lemma_amap_index(r.block_statuses@, k);
                }
            }
            assert(r.inv_storage()) by {
                assert forall|id: BlockId| #[trigger] r.is_active(id) implies
                    r.storage.view_map().dom().contains(id) && {
                    let b = r.storage.view_map()[id];
                    &&& b.header.slot == r.active_of(id).slot
                    &&& b.header.creator == r.active_of(id).creator
                    &&& b.header.parents@ == r.active_of(id).parents@
                } by {
                    amap_dom_helper(r.block_statuses@, id);
                    let k = choose|k: int|
                        0 <= k < genesis@.len() && (#[trigger] genesis@[k]).0 == id;
                    crate::alist::lemma_amap_index(r.block_statuses@, k);
                    assert(r.storage.view_map()[id].header.parents@ =~= r.active_of(
                        id,
                    ).parents@);
                }
                assert forall|id: BlockId|
                    r.statuses().dom().contains(id) && (#[trigger] r.statuses()[id]) is Discarded
                    implies !r.storage.view_map().dom().contains(id) by {
                    amap_dom_helper(r.block_statuses@, id);
                    let k = choose|k: int|
                        0 <= k < genesis@.len() && (#[trigger] genesis@[k]).0 == id;
                    crate::alist::lemma_amap_index(r.block_statuses@, k);
                }
            }
        }
        r
    }
}

impl GraphState {
    /// A blockclique member that can serve as the tip of thread `t`.
    pub open spec fn bc_tip_candidate(self, m: BlockId, t: int) -> bool {
        &&& self.in_blockclique(m)
        &&& self.is_active(m)
        &&& !self.active_of(m).is_final
        &&& self.active_of(m).slot.thread as int == t
    }

    /// For each thread, pick the non-final blockclique member of highest
    /// period in that thread; when the thread has none, fall back to the
    /// latest final block. A tie between members of equal period keeps the
    /// earlier one in clique order.
    pub fn choose_best_parents(&mut self)
        requires
            old(self).inv_core(),
        ensures
            final(self).inv(),
            final(self).config == old(self).config,
            final(self).storage == old(self).storage,
            final(self).genesis_hashes == old(self).genesis_hashes,
            final(self).gi_head == old(self).gi_head,
            final(self).max_cliques == old(self).max_cliques,
            final(self).active_index == old(self).active_index,
            final(self).latest_final_blocks_periods == old(self).latest_final_blocks_periods,
            final(self).block_statuses == old(self).block_statuses,
            forall|t: int|
                0 <= t < old(self).thread_count() ==> {
                    let bp = (#[trigger] final(self).best_parents@[t]);
                    if exists|m: BlockId| old(self).bc_tip_candidate(m, t) {
                        &&& old(self).bc_tip_candidate(bp.0, t)
                        &&& old(self).active_of(bp.0).slot.period == bp.1
                        &&& (forall|m: BlockId|
                            #[trigger] old(self).bc_tip_candidate(m, t) ==> old(self).active_of(
                                m,
                            ).slot.period <= bp.1)
                    } else {
                        bp == old(self).latest_final_blocks_periods@[t]
                    }
                },
    {
        let ghost s0 = *self;
        let bc = self.find_blockclique_index();
        let ghost members = self.max_cliques@[bc as int].block_ids@;
        let tc = self.config.thread_count as usize;
        let mut new_bp: Vec<(BlockId, u64)> = Vec::new();
        let mut t: usize = 0;
        while t < tc
            invariant
                self.inv_core(),
                *self == s0,
                tc == self.thread_count(),
                0 <= bc < self.max_cliques@.len(),
                self.max_cliques@[bc as int] == self.blockclique(),
                members == self.blockclique().block_ids@,
                0 <= t <= tc,
                new_bp@.len() == t,
                forall|j: int|
                    0 <= j < t ==> {
                        let bp = (#[trigger] new_bp@[j]);
                        if exists|m: BlockId| s0.bc_tip_candidate(m, j) {
                            &&& s0.bc_tip_candidate(bp.0, j)
                            &&& s0.active_of(bp.0).slot.period == bp.1
                            &&& (forall|m: BlockId|
                                #[trigger] s0.bc_tip_candidate(m, j) ==> s0.active_of(
                                    m,
                                ).slot.period <= bp.1)
                        } else {
                            bp == s0.latest_final_blocks_periods@[j]
                        }
                    },
            decreases tc - t,
        {
            let n = self.max_cliques[bc].block_ids.len();
            let mut best: Option<(BlockId, u64)> = None;
            let mut i: usize = 0;
            while i < n
                invariant
                    self.inv_core(),
                    *self == s0,
                    0 <= bc < self.max_cliques@.len(),
                    self.max_cliques@[bc as int] == self.blockclique(),
                    members == self.blockclique().block_ids@,
                    n == members.len(),
                    0 <= t < tc,
                    tc == self.thread_count(),
                    0 <= i <= n,
                    match best {
                        Some(b) => {
                            &&& s0.bc_tip_candidate(b.0, t as int)
                            &&& s0.active_of(b.0).slot.period == b.1
                            &&& (forall|j: int|
                                0 <= j < i && s0.bc_tip_candidate(
                                    #[trigger] members[j],
                                    t as int,
                                ) ==> s0.active_of(members[j]).slot.period <= b.1)
                        },
                        None => forall|j: int|
                            0 <= j < i ==> !s0.bc_tip_candidate(#[trigger] members[j], t as int),
                    },
                decreases n - i,
            {
                let m = self.max_cliques[bc].block_ids[i];
                proof {
                    assert(self.max_cliques@[bc as int].block_ids@.contains(members[i as int]));
                }
                match self.get_full_active_block(&m) {
                    Some(ab) => {
                        if !ab.is_final && ab.slot.thread as usize == t {
                            let better = match best {
                                Some(b) => ab.slot.period > b.1,
                                None => true,
                            };
                            if better {
                                best = Some((m, ab.slot.period));
                            }
                        }
                    },
                    None => {
                        proof {
                            assert(false);
                        }
                    },
                }
                i += 1;
            }
            match best {
                Some(b) => {
                    proof {
                        assert forall|m: BlockId| #[trigger] s0.bc_tip_candidate(m, t as int)
                            implies s0.active_of(m).slot.period <= b.1 by {
                            let j = choose|j: int| 0 <= j < members.len() && members[j] == m;
                            assert(s0.bc_tip_candidate(members[j], t as int));
                        }
                    }
                    new_bp.push(b);
                },
                None => {
                    proof {
                        if exists|m: BlockId| s0.bc_tip_candidate(m, t as int) {
                            let m = choose|m: BlockId| s0.bc_tip_candidate(m, t as int);
                            let j = choose|j: int| 0 <= j < members.len() && members[j] == m;
                            assert(!s0.bc_tip_candidate(members[j], t as int));
                            assert(false);
                        }
                    }
                    new_bp.push(self.latest_final_blocks_periods[t]);
                },
            }
            t += 1;
        }
        self.best_parents = new_bp;
        proof {
            lemma_bp_change_preserves_core(s0, *self);
            assert(self.inv_best_parents()) by {
                assert forall|t2: int| 0 <= t2 < self.thread_count() implies {
                    let id = (#[trigger] self.best_parents@[t2]).0;
                    let p = self.best_parents@[t2].1;
                    (self.in_blockclique(id) && self.is_active(id) && !self.active_of(
                        id,
                    ).is_final && self.active_of(id).slot == (Slot {
                        thread: t2 as u8,
                        period: p,
                    })) || self.best_parents@[t2] == self.latest_final_blocks_periods@[t2]
                } by {
                    if exists|m: BlockId| s0.bc_tip_candidate(m, t2) {
                        assert(s0.bc_tip_candidate(self.best_parents@[t2].0, t2));
                    }
                }
            }
        }
    }
}

impl GraphState {
    /// Remove every occurrence of `id` from a duplicate-free id vector.
    fn remove_id(v: &Vec<BlockId>, id: BlockId) -> (r: Vec<BlockId>)
        requires
            ids_unique(v@),
        ensures
            ids_unique(r@),
            forall|x: BlockId| r@.contains(x) <==> v@.contains(x) && x != id,
    {
        let mut r: Vec<BlockId> = Vec::new();
        let mut i: usize = 0;
        while i < v.len()
            invariant
                ids_unique(v@),
                ids_unique(r@),
                0 <= i <= v@.len(),
                forall|x: BlockId| r@.contains(x) ==> v@.contains(x) && x != id,
                forall|j: int| 0 <= j < i && v@[j] != id ==> r@.contains(#[trigger] v@[j]),
            decreases v@.len() - i,
        {
            if v[i] != id {
                proof {
                    assert(v@.contains(v@[i as int]));
                }
                crate::alist::idvec_insert(&mut r, v[i]);
            }
            i += 1;
        }
        proof {
            assert forall|x: BlockId| v@.contains(x) && x != id implies r@.contains(x) by {
                let j = choose|j: int| 0 <= j < v@.len() && v@[j] == x;
                assert(r@.contains(v@[j]));
            }
        }
        r
    }

    /// What an entry of the rebuilt incompatibility graph says of a source
    /// entry: same key, same partners except the removed id.
    pub open spec fn gi_entry_matches(
        e: (BlockId, Vec<BlockId>),
        src: (BlockId, Vec<BlockId>),
        id: BlockId,
    ) -> bool {
        e.0 == src.0 && (forall|x: BlockId| e.1@.contains(x) <==> src.1@.contains(x) && x != id)
    }

    /// Drop the entry keyed by `id` and remove `id` from every partner list.
    fn remove_gi_entries(v: &Vec<(BlockId, Vec<BlockId>)>, id: BlockId) -> (r: Vec<
        (BlockId, Vec<BlockId>),
    >)
        requires
            keys_unique(v@),
            forall|j: int| 0 <= j < v@.len() ==> ids_unique((#[trigger] v@[j]).1@),
        ensures
            keys_unique(r@),
            forall|k: int| 0 <= k < r@.len() ==> ids_unique((#[trigger] r@[k]).1@),
            forall|k: int|
                0 <= k < r@.len() ==> (#[trigger] r@[k]).0 != id && exists|j: int|
                    0 <= j < v@.len() && Self::gi_entry_matches(r@[k], #[trigger] v@[j], id),
            forall|j: int|
                0 <= j < v@.len() && (#[trigger] v@[j]).0 != id ==> exists|k: int|
                    0 <= k < r@.len() && Self::gi_entry_matches(#[trigger] r@[k], v@[j], id),
    {
        let mut r: Vec<(BlockId, Vec<BlockId>)> = Vec::new();
        let mut i: usize = 0;
        while i < v.len()
            invariant
                keys_unique(v@),
                forall|j: int| 0 <= j < v@.len() ==> ids_unique((#[trigger] v@[j]).1@),
                0 <= i <= v@.len(),
                keys_unique(r@),
                forall|k: int| 0 <= k < r@.len() ==> ids_unique((#[trigger] r@[k]).1@),
                forall|k: int|
                    0 <= k < r@.len() ==> (#[trigger] r@[k]).0 != id && exists|j: int|
                        0 <= j < i && Self::gi_entry_matches(r@[k], #[trigger] v@[j], id),
                forall|j: int|
                    0 <= j < i && (#[trigger] v@[j]).0 != id ==> exists|k: int|
                        0 <= k < r@.len() && Self::gi_entry_matches(#[trigger] r@[k], v@[j], id),
            decreases v@.len() - i,
        {
            let key = v[i].0;
            if key != id {
                proof {
                    assert forall|k: int| 0 <= k < r@.len() implies (#[trigger] r@[k]).0
                        != key by {
                        let j = choose|j: int|
                            0 <= j < i && Self::gi_entry_matches(r@[k], #[trigger] v@[j], id);
                        assert(v@[j].0 != v@[i as int].0);
                    }
                }
                let filtered = Self::remove_id(&v[i].1, id);
                let ghost n0 = r@;
                r.push((key, filtered));
                proof {
                    assert(forall|k: int| 0 <= k < n0.len() ==> #[trigger] r@[k] == n0[k]);
                    assert(Self::gi_entry_matches(r@[n0.len() as int], v@[i as int], id));
                    assert forall|j: int|
                        0 <= j < i + 1 && (#[trigger] v@[j]).0 != id implies exists|k: int|
                        0 <= k < r@.len() && Self::gi_entry_matches(#[trigger] r@[k], v@[j], id) by {
                        if j == i as int {
                            assert(0 <= n0.len() < r@.len() && Self::gi_entry_matches(
                                r@[n0.len() as int],
                                v@[j],
                                id,
                            ));
                        } else {
                            let k = choose|k: int|
                                0 <= k < n0.len() && Self::gi_entry_matches(
                                    #[trigger] n0[k],
                                    v@[j],
                                    id,
                                );
                            assert(r@[k] == n0[k]);
                            assert(Self::gi_entry_matches(r@[k], v@[j], id));
                        }
                    }
                    assert forall|k: int| 0 <= k < r@.len() implies (#[trigger] r@[k]).0 != id
                        && exists|j: int|
                        0 <= j < i + 1 && Self::gi_entry_matches(r@[k], #[trigger] v@[j], id) by {
                        if k < n0.len() {
                            let j = choose|j: int|
                                0 <= j < i && Self::gi_entry_matches(n0[k], #[trigger] v@[j], id);
                            assert(r@[k] == n0[k]);
                            assert(Self::gi_entry_matches(r@[k], v@[j], id));
                        } else {
                            assert(Self::gi_entry_matches(r@[k], v@[i as int], id));
                        }
                    }
                }
            }
            i += 1;
        }
        r
    }

    /// Mark an active block final: set the flag, raise the thread's latest
    /// final pointer if this block's period is higher, remove the block from
    /// the incompatibility graph (a final block is compatible with every
    /// surviving one), and re-choose the best parents.
    ///
    /// Finality is applied bottom-up: the block's active parents must be
    /// final already.
    #[verifier::rlimit(60)]
    pub fn finalize(&mut self, block_id: BlockId)
        requires
            old(self).inv(),
            old(self).is_active(block_id),
            forall|t: int|
                0 <= t < old(self).active_of(block_id).parents@.len() && old(self).is_active(
                    (#[trigger] old(self).active_of(block_id).parents@[t]).0,
                ) ==> old(self).active_of(
                    old(self).active_of(block_id).parents@[t].0,
                ).is_final,
        ensures
            final(self).inv(),
            final(self).is_final_active(block_id),
            forall|x: BlockId| #[trigger] final(self).is_active(x) <==> old(self).is_active(x),
            forall|x: BlockId|
                #[trigger] old(self).is_final_active(x) ==> final(self).is_final_active(x),
            forall|a: BlockId, b: BlockId|
                #[trigger] final(self).gi_incomp(a, b) <==> (old(self).gi_incomp(a, b) && a
                    != block_id && b != block_id),
            forall|t: int|
                0 <= t < old(self).thread_count() ==> (
                #[trigger] final(self).latest_final_blocks_periods@[t]) == (if t == old(
                    self,
                ).active_of(block_id).slot.thread as int && old(self).active_of(
                    block_id,
                ).slot.period > old(self).latest_final_blocks_periods@[t].1 {
                    (block_id, old(self).active_of(block_id).slot.period)
                } else {
                    old(self).latest_final_blocks_periods@[t]
                }),
            forall|t: int|
                0 <= t < old(self).thread_count() ==> {
                    let bp = (#[trigger] final(self).best_parents@[t]);
                    if exists|m: BlockId|
                        #[trigger] old(self).bc_tip_candidate(m, t) && m != block_id {
                        &&& old(self).bc_tip_candidate(bp.0, t)
                        &&& bp.0 != block_id
                        &&& old(self).active_of(bp.0).slot.period == bp.1
                        &&& (forall|m: BlockId|
                            #[trigger] old(self).bc_tip_candidate(m, t) && m != block_id ==> old(
                                self,
                            ).active_of(m).slot.period <= bp.1)
                    } else {
                        bp == final(self).latest_final_blocks_periods@[t]
                    }
                },
    {
        let ghost s0 = *self;

        // Set the finality flag, keeping every other field of the record.
        let new_ab = match self.get_full_active_block(&block_id) {
            Some(ab) => ActiveBlock {
                slot: ab.slot,
                creator: ab.creator,
                parents: crate::export::clone_pairs(&ab.parents),
                children: crate::export::clone_children(&ab.children),
                is_final: true,
            },
            None => {
                proof {
                    assert(false);
                }
                return ;
            },
        };
        let slot = new_ab.slot;
        crate::alist::ainsert(
            &mut self.block_statuses,
            block_id,
            BlockStatus::Active { a_block: new_ab },
        );
        proof {
            assert forall|x: BlockId| #[trigger] self.is_active(x) <==> s0.is_active(x) by {}
            assert(forall|x: BlockId|
                x != block_id && s0.statuses().dom().contains(x) ==> #[trigger] self.statuses()[x]
                    == s0.statuses()[x]);
            assert(self.is_active(block_id));
            assert(self.active_of(block_id).slot == s0.active_of(block_id).slot);
            assert(self.active_of(block_id).parents@ == s0.active_of(block_id).parents@);
        }

        // Raise the latest final pointer of the block's thread if needed.
        let tid = slot.thread as usize;
        proof {
            assert(slot.thread < s0.config.thread_count);
        }
        if slot.period > self.latest_final_blocks_periods[tid].1 {
            self.latest_final_blocks_periods[tid] = (block_id, slot.period);
        }

        // Remove the block from the incompatibility graph, on both sides.
        let ghost g0 = self.gi_head@;
        let new_gi = Self::remove_gi_entries(&self.gi_head, block_id);
        self.gi_head = new_gi;
        let ghost s1 = *self;
        proof {
            assert forall|a: BlockId, b: BlockId| #[trigger] s1.gi_incomp(a, b) <==> (
            s0.gi_incomp(a, b) && a != block_id && b != block_id) by {
                if s1.gi_incomp(a, b) {
                    let k = choose|k: int|
                        0 <= k < s1.gi_head@.len() && (#[trigger] s1.gi_head@[k]).0 == a
                            && s1.gi_head@[k].1@.contains(b);
                    let j = choose|j: int|
                        0 <= j < g0.len() && Self::gi_entry_matches(
                            s1.gi_head@[k],
                            #[trigger] g0[j],
                            block_id,
                        );
                    assert(g0[j].1@.contains(b));
                    assert(s0.gi_incomp(a, b));
                }
                if s0.gi_incomp(a, b) && a != block_id && b != block_id {
                    let j = choose|j: int|
                        0 <= j < g0.len() && (#[trigger] g0[j]).0 == a && g0[j].1@.contains(b);
                    let k = choose|k: int|
                        0 <= k < s1.gi_head@.len() && Self::gi_entry_matches(
                            #[trigger] s1.gi_head@[k],
                            g0[j],
                            block_id,
                        );
                    assert(s1.gi_head@[k].1@.contains(b));
                }
            }
            assert forall|x: BlockId| #[trigger] s1.is_active(x) <==> s0.is_active(x) by {}
            assert(forall|x: BlockId|
                x != block_id && s0.is_active(x) ==> #[trigger] s1.active_of(x) == s0.active_of(
                    x,
                ));
            assert(s1.is_active(block_id) && s1.active_of(block_id).is_final);
            assert(s1.active_of(block_id).slot == s0.active_of(block_id).slot);
            assert(s1.active_of(block_id).parents@ == s0.active_of(block_id).parents@);
            assert(s1.active_of(block_id).creator == s0.active_of(block_id).creator);
            assert(forall|i2: int|
                0 <= i2 < s1.max_cliques@.len() ==> #[trigger] s1.is_blockclique_at(i2)
                    == s0.is_blockclique_at(i2));
            let w = s0.blockclique_idx();
            assert(0 <= w < s0.max_cliques@.len() && s0.is_blockclique_at(w));
            assert(s1.is_blockclique_at(w));
            assert(s1.has_unique_blockclique());
            assert(s1.blockclique_idx() == w);
            assert(s1.blockclique() == s0.blockclique());

            assert(s1.wf_shape());
            assert(s1.inv_active_index());
            assert(s1.inv_gi_symmetric());
            assert(s1.inv_gi_keys()) by {
                assert forall|k: int| 0 <= k < s1.gi_head@.len() implies s1.is_active(
                    (#[trigger] s1.gi_head@[k]).0,
                ) && !s1.active_of(s1.gi_head@[k].0).is_final by {
                    let j = choose|j: int|
                        0 <= j < g0.len() && Self::gi_entry_matches(
                            s1.gi_head@[k],
                            #[trigger] g0[j],
                            block_id,
                        );
                    assert(s0.is_active(g0[j].0) && !s0.active_of(g0[j].0).is_final);
                    assert(s1.gi_head@[k].0 != block_id);
                }
            }
            assert(s1.inv_cliques()) by {
                assert forall|id: BlockId|
                    s1.is_active(id) && !(#[trigger] s1.active_of(id)).is_final implies exists|
                        i2: int,
                    |
                        0 <= i2 < s1.max_cliques@.len()
                            && #[trigger] s1.max_cliques@[i2].block_ids@.contains(id) by {
                    assert(s0.is_active(id) && !s0.active_of(id).is_final);
                }
            }
            assert(s1.inv_latest_final()) by {
                assert forall|t: int| 0 <= t < s1.thread_count() implies {
                    let id = (#[trigger] s1.latest_final_blocks_periods@[t]).0;
                    let p = s1.latest_final_blocks_periods@[t].1;
                    s1.is_final_active(id) && s1.active_of(id).slot == (Slot {
                        thread: t as u8,
                        period: p,
                    })
                } by {
                    if t == tid as int && s1.latest_final_blocks_periods@[t].0 == block_id {
                    } else {
                        assert(s1.latest_final_blocks_periods@[t]
                            == s0.latest_final_blocks_periods@[t]);
                        assert(s0.is_final_active(s0.latest_final_blocks_periods@[t].0));
                    }
                }
                assert forall|id: BlockId| #[trigger] s1.is_final_active(id) implies s1.active_of(
                    id,
                ).slot.period <= s1.latest_final_blocks_periods@[s1.active_of(
                    id,
                ).slot.thread as int].1 by {
                    if id != block_id {
                        assert(s0.is_final_active(id));
                        assert(s1.latest_final_blocks_periods@[s0.active_of(id).slot.thread as int].1
                            >= s0.latest_final_blocks_periods@[s0.active_of(
                            id,
                        ).slot.thread as int].1);
                    }
                }
            }
            assert(s1.inv_parents()) by {
                assert forall|id: BlockId| #[trigger] s1.is_active(id) implies {
                    let ab = s1.active_of(id);
                    &&& ab.slot.thread < s1.thread_count()
                    &&& (ab.parents@.len() == 0 <==> s1.genesis_hashes@.contains(id))
                    &&& (ab.parents@.len() != 0 ==> ab.parents@.len() == s1.thread_count())
                    &&& (forall|t: int|
                        0 <= t < ab.parents@.len() ==> {
                            let pid = (#[trigger] ab.parents@[t]).0;
                            let pp = ab.parents@[t].1;
                            &&& (s1.is_active(pid) ==> s1.active_of(pid).slot == (Slot {
                                thread: t as u8,
                                period: pp,
                            }))
                            &&& (t == ab.slot.thread ==> pp < ab.slot.period)
                        })
                } by {
                    assert(s0.is_active(id));
                    assert(s1.active_of(id).parents@ == s0.active_of(id).parents@);
                    assert(s1.active_of(id).slot == s0.active_of(id).slot);
                    assert forall|t: int|
                        0 <= t < s1.active_of(id).parents@.len() implies {
                        let pid = (#[trigger] s1.active_of(id).parents@[t]).0;
                        let pp = s1.active_of(id).parents@[t].1;
                        &&& (s1.is_active(pid) ==> s1.active_of(pid).slot == (Slot {
                            thread: t as u8,
                            period: pp,
                        }))
                        &&& (t == s1.active_of(id).slot.thread ==> pp < s1.active_of(
                            id,
                        ).slot.period)
                    } by {
                        let pid = s0.active_of(id).parents@[t].0;
                        if s1.is_active(pid) {
                            assert(s0.is_active(pid));
                            assert(s1.active_of(pid).slot == s0.active_of(pid).slot);
                        }
                    }
                }
            }
            assert(s1.inv_genesis()) by {
                assert forall|t: int| 0 <= t < s1.thread_count() implies {
                    let g = (#[trigger] s1.genesis_hashes@[t]);
                    s1.is_final_active(g) && s1.active_of(g).slot == (Slot {
                        thread: t as u8,
                        period: 0,
                    }) && s1.active_of(g).parents@.len() == 0
                } by {
                    let g = s1.genesis_hashes@[t];
                    assert(s0.is_final_active(g));
                    if g != block_id {
                        assert(s1.active_of(g) == s0.active_of(g));
                    }
                }
            }
            assert(s1.inv_final_parents()) by {
                assert forall|id: BlockId, t: int|
                    s1.is_final_active(id) && 0 <= t < (
                    #[trigger] s1.active_of(id)).parents@.len() && s1.is_active(
                        #[trigger] s1.active_of(id).parents@[t].0,
                    ) implies s1.active_of(s1.active_of(id).parents@[t].0).is_final by {
                    let pid = s1.active_of(id).parents@[t].0;
                    assert(s0.is_active(pid));
                    if id == block_id {
                        assert(s0.active_of(block_id).parents@[t].0 == pid);
                        assert(s0.active_of(pid).is_final);
                    } else {
                        assert(s0.is_final_active(id));
                        assert(s0.active_of(id).parents@[t].0 == pid);
                        assert(s0.active_of(pid).is_final);
                    }
                    if pid != block_id {
                        assert(s1.active_of(pid) == s0.active_of(pid));
                    }
                }
            }
            assert(s1.inv_storage()) by {
                assert forall|id: BlockId| #[trigger] s1.is_active(id) implies
                    s1.storage.view_map().dom().contains(id) && {
                    let b = s1.storage.view_map()[id];
                    &&& b.header.slot == s1.active_of(id).slot
                    &&& b.header.creator == s1.active_of(id).creator
                    &&& b.header.parents@ == s1.active_of(id).parents@
                } by {
                    assert(s0.is_active(id));
                    assert(s1.active_of(id).slot == s0.active_of(id).slot);
                    assert(s1.active_of(id).creator == s0.active_of(id).creator);
                    assert(s1.active_of(id).parents@ == s0.active_of(id).parents@);
                }
                assert forall|id: BlockId|
                    s1.statuses().dom().contains(id) && (#[trigger] s1.statuses()[id])
                        is Discarded implies !s1.storage.view_map().dom().contains(id) by {
                    assert(id != block_id);
                    assert(s0.statuses()[id] is Discarded);
                }
            }
            assert(s1.inv_core());
        }

        // A finalized block may have been a chosen tip: re-choose.
        self.choose_best_parents();
        proof {
            assert forall|m: BlockId, t: int| #[trigger] s1.bc_tip_candidate(m, t) <==> (
            s0.bc_tip_candidate(m, t) && m != block_id) by {
                if s1.bc_tip_candidate(m, t) {
                    assert(m != block_id);
                    assert(s0.active_of(m) == s1.active_of(m));
                    assert(s0.in_blockclique(m));
                }
                if s0.bc_tip_candidate(m, t) && m != block_id {
                    assert(s1.active_of(m) == s0.active_of(m));
                    assert(s1.in_blockclique(m));
                }
            }
            assert forall|t: int| 0 <= t < s0.thread_count() implies {
                let bp = (#[trigger] self.best_parents@[t]);
                if exists|m: BlockId| #[trigger] s0.bc_tip_candidate(m, t) && m != block_id {
                    &&& s0.bc_tip_candidate(bp.0, t)
                    &&& bp.0 != block_id
                    &&& s0.active_of(bp.0).slot.period == bp.1
                    &&& (forall|m: BlockId|
                        #[trigger] s0.bc_tip_candidate(m, t) && m != block_id ==> s0.active_of(
                            m,
                        ).slot.period <= bp.1)
                } else {
                    bp == self.latest_final_blocks_periods@[t]
                }
            } by {
                if exists|m: BlockId| #[trigger] s0.bc_tip_candidate(m, t) && m != block_id {
                    let m0 = choose|m: BlockId|
                        #[trigger] s0.bc_tip_candidate(m, t) && m != block_id;
                    assert(s1.bc_tip_candidate(m0, t));
                    assert(exists|m: BlockId| s1.bc_tip_candidate(m, t));
                    let bp = self.best_parents@[t];
                    assert(s1.bc_tip_candidate(bp.0, t));
                    assert(s0.bc_tip_candidate(bp.0, t) && bp.0 != block_id);
                    assert(s0.active_of(bp.0) == s1.active_of(bp.0));
                    assert forall|m: BlockId|
                        #[trigger] s0.bc_tip_candidate(m, t) && m != block_id implies s0.active_of(
                        m,
                    ).slot.period <= bp.1 by {
                        assert(s1.bc_tip_candidate(m, t));
                        assert(s1.active_of(m) == s0.active_of(m));
                    }
                } else {
                    if exists|m: BlockId| s1.bc_tip_candidate(m, t) {
                        let m1 = choose|m: BlockId| s1.bc_tip_candidate(m, t);
                        assert(s0.bc_tip_candidate(m1, t) && m1 != block_id);
                        assert(false);
                    }
                    assert(self.best_parents@[t] == s1.latest_final_blocks_periods@[t]);
                }
            }
        }
    }
}

/// Replacing the best-parent vector alone leaves every other part of the
/// invariant standing, and the blockclique is the same clique.
proof fn lemma_bp_change_preserves_core(s1: GraphState, s2: GraphState)
    requires
        s1.inv_core(),
        s2.config == s1.config,
        s2.storage == s1.storage,
        s2.genesis_hashes == s1.genesis_hashes,
        s2.gi_head == s1.gi_head,
        s2.max_cliques == s1.max_cliques,
        s2.active_index == s1.active_index,
        s2.latest_final_blocks_periods == s1.latest_final_blocks_periods,
        s2.block_statuses == s1.block_statuses,
        s2.best_parents@.len() == s1.thread_count(),
    ensures
        s2.inv_core(),
        s2.blockclique() == s1.blockclique(),
        forall|id: BlockId| #[trigger] s2.in_blockclique(id) <==> s1.in_blockclique(id),
        forall|id: BlockId| #[trigger] s2.is_active(id) <==> s1.is_active(id),
        forall|id: BlockId| s1.is_active(id) ==> #[trigger] s2.active_of(id) == s1.active_of(id),
{
    assert(s2.statuses() == s1.statuses());
    assert(forall|id: BlockId| #[trigger] s2.is_active(id) <==> s1.is_active(id));
    assert(forall|id: BlockId|
        s1.is_active(id) ==> #[trigger] s2.active_of(id) == s1.active_of(id));
    assert(forall|i: int|
        0 <= i < s2.max_cliques@.len() ==> #[trigger] s2.is_blockclique_at(i)
            == s1.is_blockclique_at(i));
    let w = s1.blockclique_idx();
    assert(0 <= w < s1.max_cliques@.len() && s1.is_blockclique_at(w));
    assert(s2.is_blockclique_at(w));
    assert(s2.has_unique_blockclique());
    assert(s2.blockclique_idx() == w);
    assert(s2.blockclique() == s1.blockclique());
    assert(forall|a: BlockId, b: BlockId| #[trigger] s2.gi_incomp(a, b) <==> s1.gi_incomp(a, b));
    assert(s2.wf_shape());
    assert(s2.inv_active_index());
    assert(s2.inv_gi_symmetric());
    assert(s2.inv_gi_keys());
    assert(s2.inv_cliques());
    assert(s2.inv_latest_final()) by {
        assert(forall|x: BlockId| #[trigger] s2.is_final_active(x) <==> s1.is_final_active(x));
    }
    assert(s2.inv_parents());
    assert(s2.inv_genesis());
    assert(s2.inv_final_parents());
    assert(s2.inv_storage());
}

/// From a key of the status table to its entry index.
proof fn amap_dom_helper(s: Seq<(BlockId, BlockStatus)>, id: BlockId)
    ensures
        amap(s).dom().contains(id) ==> exists|k: int|
            0 <= k < s.len() && (#[trigger] s[k]).0 == id,
{
    crate::alist::lemma_amap_dom(s, id);
}

} // verus!
