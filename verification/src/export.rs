//! Exporting a slice of the graph, and rebuilding a state from an export.

use vstd::prelude::*;

use crate::alist::{amap, keys_unique};
use crate::ids::{slot_lt, BlockId, Slot};
use crate::state::GraphState;
use crate::status::{BlockStatus, Clique, DiscardReason, GraphError};

verus! {

/// Compact exported form of an active block.
#[derive(Clone, Debug)]
pub struct ExportCompiledBlock {
    pub header: crate::store::BlockHeader,
    /// One `(child id, child period)` list per thread.
    pub children: Vec<Vec<(BlockId, u64)>>,
    pub is_final: bool,
}

/// Shallow snapshot of the graph state over a slot range.
#[derive(Clone, Debug)]
pub struct BlockGraphExport {
    pub genesis_blocks: Vec<BlockId>,
    pub active_blocks: Vec<(BlockId, ExportCompiledBlock)>,
    pub discarded_blocks: Vec<(BlockId, (DiscardReason, (Slot, u64, Vec<BlockId>)))>,
    pub best_parents: Vec<(BlockId, u64)>,
    pub latest_final_blocks_periods: Vec<(BlockId, u64)>,
    pub gi_head: Vec<(BlockId, Vec<BlockId>)>,
    pub max_cliques: Vec<Clique>,
}

/// A slot lies in the exported range: at or after `start` (when given) and
/// strictly before `end` (when given).
pub open spec fn slot_in_range(s: Slot, start: Option<Slot>, end: Option<Slot>) -> bool {
    &&& (start matches Some(st) ==> !slot_lt(s, st))
    &&& (end matches Some(en) ==> slot_lt(s, en))
}

/// Executable range test.
pub fn slot_in_range_exec(s: &Slot, start: &Option<Slot>, end: &Option<Slot>) -> (r: bool)
    ensures
        r == slot_in_range(*s, *start, *end),
{
    if let Some(st) = start {
        if s.is_before(st) {
            return false;
        }
    }
    if let Some(en) = end {
        if !s.is_before(en) {
            return false;
        }
    }
    true
}

/// Copy a vector of block ids.
pub fn clone_id_vec(v: &Vec<BlockId>) -> (r: Vec<BlockId>)
    ensures
        r@ == v@,
{
    let mut r: Vec<BlockId> = Vec::new();
    let mut i: usize = 0;
    while i < v.len()
        invariant
            0 <= i <= v.len(),
            r@ == v@.subrange(0, i as int),
        decreases v.len() - i,
    {
        r.push(v[i]);
        proof {
            assert(r@ =~= v@.subrange(0, i + 1 as int));
        }
        i += 1;
    }
    proof {
        assert(r@ =~= v@);
    }
    r
}

/// Copy a vector of `(block id, period)` pairs.
pub fn clone_pairs(v: &Vec<(BlockId, u64)>) -> (r: Vec<(BlockId, u64)>)
    ensures
        r@ == v@,
{
    let mut r: Vec<(BlockId, u64)> = Vec::new();
    let mut i: usize = 0;
    while i < v.len()
        invariant
            0 <= i <= v.len(),
            r@ == v@.subrange(0, i as int),
        decreases v.len() - i,
    {
        r.push(v[i]);
        proof {
            assert(r@ =~= v@.subrange(0, i + 1 as int));
        }
        i += 1;
    }
    proof {
        assert(r@ =~= v@);
    }
    r
}

/// Copy per-thread children lists, element by element.
pub fn clone_children(v: &Vec<Vec<(BlockId, u64)>>) -> (r: Vec<Vec<(BlockId, u64)>>)
    ensures
        r@.len() == v@.len(),
        forall|t: int| 0 <= t < v@.len() ==> (#[trigger] r@[t])@ == v@[t]@,
{
    let mut r: Vec<Vec<(BlockId, u64)>> = Vec::new();
    let mut i: usize = 0;
    while i < v.len()
        invariant
            0 <= i <= v.len(),
            r@.len() == i,
            forall|t: int| 0 <= t < i ==> (#[trigger] r@[t])@ == v@[t]@,
        decreases v.len() - i,
    {
        r.push(clone_pairs(&v[i]));
        i += 1;
    }
    r
}

/// Copy the incompatibility graph entries.
pub fn clone_gi(v: &Vec<(BlockId, Vec<BlockId>)>) -> (r: Vec<(BlockId, Vec<BlockId>)>)
    ensures
        r@.len() == v@.len(),
        forall|i: int|
            0 <= i < v@.len() ==> (#[trigger] r@[i]).0 == v@[i].0 && r@[i].1@ == v@[i].1@,
{
    let mut r: Vec<(BlockId, Vec<BlockId>)> = Vec::new();
    let mut i: usize = 0;
    while i < v.len()
        invariant
            0 <= i <= v.len(),
            r@.len() == i,
            forall|j: int|
                0 <= j < i ==> (#[trigger] r@[j]).0 == v@[j].0 && r@[j].1@ == v@[j].1@,
        decreases v.len() - i,
    {
        let key = v[i].0;
        r.push((key, clone_id_vec(&v[i].1)));
        i += 1;
    }
    r
}

/// Copy the clique list.
pub fn clone_cliques(v: &Vec<Clique>) -> (r: Vec<Clique>)
    ensures
        r@.len() == v@.len(),
        forall|i: int|
            0 <= i < v@.len() ==> (#[trigger] r@[i]).block_ids@ == v@[i].block_ids@
                && r@[i].fitness == v@[i].fitness && r@[i].is_blockclique == v@[i].is_blockclique,
{
    let mut r: Vec<Clique> = Vec::new();
    let mut i: usize = 0;
    while i < v.len()
        invariant
            0 <= i <= v.len(),
            r@.len() == i,
            forall|j: int|
                0 <= j < i ==> (#[trigger] r@[j]).block_ids@ == v@[j].block_ids@
                    && r@[j].fitness == v@[j].fitness && r@[j].is_blockclique
                    == v@[j].is_blockclique,
        decreases v.len() - i,
    {
        let c = Clique {
            block_ids: clone_id_vec(&v[i].block_ids),
            fitness: v[i].fitness,
            is_blockclique: v[i].is_blockclique,
        };
        r.push(c);
        i += 1;
    }
    r
}

impl GraphState {
    /// What the export holds for an active block.
    pub open spec fn export_of_active(self, id: BlockId, e: ExportCompiledBlock) -> bool {
        &&& e.header.slot == self.active_of(id).slot
        &&& e.header.creator == self.active_of(id).creator
        &&& e.header.parents@ == self.active_of(id).parents@
        &&& e.children@.len() == self.active_of(id).children@.len()
        &&& (forall|t: int|
            0 <= t < e.children@.len() ==> (#[trigger] e.children@[t])@ == self.active_of(
                id,
            ).children@[t]@)
        &&& e.is_final == self.active_of(id).is_final
    }

    /// Status of a discarded block.
    pub open spec fn is_discarded(self, id: BlockId) -> bool {
        self.statuses().dom().contains(id) && self.statuses()[id] is Discarded
    }

    /// What the export holds for a discarded block.
    pub open spec fn export_of_discarded(
        self,
        id: BlockId,
        e: (DiscardReason, (Slot, u64, Vec<BlockId>)),
    ) -> bool {
        &&& e.0 == self.statuses()[id]->Discarded_reason
        &&& e.1.0 == self.statuses()[id]->Discarded_slot
        &&& e.1.1 == self.statuses()[id]->Discarded_creator
        &&& e.1.2@ == self.statuses()[id]->Discarded_parents@
    }

    /// The export mirrors the state over the given range.
    pub open spec fn export_matches(
        self,
        e: BlockGraphExport,
        slot_start: Option<Slot>,
        slot_end: Option<Slot>,
    ) -> bool {
        &&& e.genesis_blocks@ == self.genesis_hashes@
        &&& e.best_parents@ == self.best_parents@
        &&& e.latest_final_blocks_periods@ == self.latest_final_blocks_periods@
        &&& e.gi_head@.len() == self.gi_head@.len()
        &&& (forall|i: int|
            0 <= i < self.gi_head@.len() ==> (#[trigger] e.gi_head@[i]).0 == self.gi_head@[i].0
                && e.gi_head@[i].1@ == self.gi_head@[i].1@)
        &&& e.max_cliques@.len() == self.max_cliques@.len()
        &&& (forall|i: int|
            0 <= i < self.max_cliques@.len() ==> (#[trigger] e.max_cliques@[i]).block_ids@
                == self.max_cliques@[i].block_ids@ && e.max_cliques@[i].fitness
                == self.max_cliques@[i].fitness && e.max_cliques@[i].is_blockclique
                == self.max_cliques@[i].is_blockclique)
        &&& keys_unique(e.active_blocks@)
        &&& keys_unique(e.discarded_blocks@)
        &&& (forall|id: BlockId|
            #[trigger] amap(e.active_blocks@).dom().contains(id) <==> self.is_active(id)
                && slot_in_range(self.active_of(id).slot, slot_start, slot_end))
        &&& (forall|id: BlockId|
            #[trigger] amap(e.active_blocks@).dom().contains(id) ==> self.export_of_active(
                id,
                amap(e.active_blocks@)[id],
            ))
        &&& (forall|id: BlockId|
            #[trigger] amap(e.discarded_blocks@).dom().contains(id) <==> self.is_discarded(id)
                && slot_in_range(self.statuses()[id]->Discarded_slot, slot_start, slot_end))
        &&& (forall|id: BlockId|
            #[trigger] amap(e.discarded_blocks@).dom().contains(id) ==> self.export_of_discarded(
                id,
                amap(e.discarded_blocks@)[id],
            ))
    }

    /// Shallow snapshot of the graph over `[slot_start, slot_end)`, each
    /// bound independently optional. Under the state invariant every needed
    /// body is present, so the export always succeeds.
    pub fn extract_block_graph_part(
        &self,
        slot_start: Option<Slot>,
        slot_end: Option<Slot>,
    ) -> (r: Result<BlockGraphExport, GraphError>)
        requires
            self.inv(),
        ensures
            r is Ok,
            self.export_matches(r->Ok_0, slot_start, slot_end),
    {
        let mut actives: Vec<(BlockId, ExportCompiledBlock)> = Vec::new();
        let mut discardeds: Vec<(BlockId, (DiscardReason, (Slot, u64, Vec<BlockId>)))> =
            Vec::new();

        let mut i: usize = 0;
        while i < self.block_statuses.len()
            invariant
                self.inv(),
                0 <= i <= self.block_statuses@.len(),
                keys_unique(actives@),
                keys_unique(discardeds@),
                forall|k: int|
                    0 <= k < actives@.len() ==> exists|j: int|
                        0 <= j < i && (#[trigger] actives@[k]).0 == self.block_statuses@[j].0,
                forall|k: int|
                    0 <= k < discardeds@.len() ==> exists|j: int|
                        0 <= j < i && (#[trigger] discardeds@[k]).0 == self.block_statuses@[j].0,
                forall|id: BlockId|
                    #[trigger] amap(actives@).dom().contains(id) ==> self.is_active(id)
                        && slot_in_range(self.active_of(id).slot, slot_start, slot_end)
                        && self.export_of_active(id, amap(actives@)[id]),
                forall|j: int|
                    0 <= j < i && self.is_active((#[trigger] self.block_statuses@[j]).0)
                        && slot_in_range(
                        self.active_of(self.block_statuses@[j].0).slot,
                        slot_start,
                        slot_end,
                    ) ==> amap(actives@).dom().contains(self.block_statuses@[j].0),
                forall|id: BlockId|
                    #[trigger] amap(discardeds@).dom().contains(id) ==> self.is_discarded(id)
                        && slot_in_range(
                        self.statuses()[id]->Discarded_slot,
                        slot_start,
                        slot_end,
                    ) && self.export_of_discarded(id, amap(discardeds@)[id]),
                forall|j: int|
                    0 <= j < i && self.is_discarded((#[trigger] self.block_statuses@[j]).0)
                        && slot_in_range(
                        self.statuses()[self.block_statuses@[j].0]->Discarded_slot,
                        slot_start,
                        slot_end,
                    ) ==> amap(discardeds@).dom().contains(self.block_statuses@[j].0),
            decreases self.block_statuses@.len() - i,
        {
            let hash = self.block_statuses[i].0;
            proof {
                crate::alist::lemma_amap_index(self.block_statuses@, i as int);
            }
            match &self.block_statuses[i].1 {
                BlockStatus::Discarded { slot, creator, parents, reason } => {
                    if slot_in_range_exec(slot, &slot_start, &slot_end) {
                        let entry = (*reason, (*slot, *creator, clone_id_vec(parents)));
                        proof {
                            crate::alist::lemma_amap_dom(discardeds@, hash);
                            crate::alist::lemma_amap_push(discardeds@, hash, entry);
                        }
                        let ghost d0 = discardeds@;
                        discardeds.push((hash, entry));
                        proof {
                            assert(forall|k: int|
                                0 <= k < d0.len() ==> (#[trigger] d0[k]).0 != hash) by {
                                if exists|k: int| 0 <= k < d0.len() && (#[trigger] d0[k]).0
                                    == hash {
                                    let k = choose|k: int|
                                        0 <= k < d0.len() && (#[trigger] d0[k]).0 == hash;
                                    let j = choose|j: int|
                                        0 <= j < i && (#[trigger] d0[k]).0
                                            == self.block_statuses@[j].0;
                                    assert(false);
                                }
                            }
                            assert(keys_unique(discardeds@)) by {
                                assert(forall|k: int|
                                    0 <= k < d0.len() ==> #[trigger] discardeds@[k] == d0[k]);
                            }
                        }
                    }
                },
                BlockStatus::Active { a_block } => {
                    proof {
                        assert(self.is_active(hash));
                        assert(*a_block == self.active_of(hash));
                    }
                    if slot_in_range_exec(&a_block.slot, &slot_start, &slot_end) {
                        let header = match self.storage.get(hash) {
                            Some(b) => crate::store::BlockHeader {
                                slot: b.header.slot,
                                creator: b.header.creator,
                                parents: clone_pairs(&b.header.parents),
                            },
                            None => {
                                proof {
                                    assert(false);
                                }
                                return Err(GraphError::MissingBlock(hash));
                            },
                        };
                        let entry = ExportCompiledBlock {
                            header,
                            children: clone_children(&a_block.children),
                            is_final: a_block.is_final,
                        };
                        proof {
                            crate::alist::lemma_amap_dom(actives@, hash);
                            crate::alist::lemma_amap_push(actives@, hash, entry);
                        }
                        let ghost a0 = actives@;
                        actives.push((hash, entry));
                        proof {
                            assert(forall|k: int|
                                0 <= k < a0.len() ==> (#[trigger] a0[k]).0 != hash) by {
                                if exists|k: int| 0 <= k < a0.len() && (#[trigger] a0[k]).0
                                    == hash {
                                    let k = choose|k: int|
                                        0 <= k < a0.len() && (#[trigger] a0[k]).0 == hash;
                                    let j = choose|j: int|
                                        0 <= j < i && (#[trigger] a0[k]).0
                                            == self.block_statuses@[j].0;
                                    assert(false);
                                }
                            }
                            assert(keys_unique(actives@)) by {
                                assert(forall|k: int|
                                    0 <= k < a0.len() ==> #[trigger] actives@[k] == a0[k]);
                            }
                            assert(amap(actives@) == amap(a0).insert(hash, entry));
                            assert(self.export_of_active(hash, entry));
                        }
                    }
                },
                _ => {},
            }
            i += 1;
        }
        proof {
            assert forall|id: BlockId|
                self.is_active(id) && slot_in_range(
                    self.active_of(id).slot,
                    slot_start,
                    slot_end,
                ) implies #[trigger] amap(actives@).dom().contains(id) by {
                crate::alist::lemma_amap_dom(self.block_statuses@, id);
                let j = choose|j: int|
                    0 <= j < self.block_statuses@.len() && (#[trigger] self.block_statuses@[j]).0
                        == id;
                assert(amap(actives@).dom().contains(self.block_statuses@[j].0));
            }
            assert forall|id: BlockId|
                self.is_discarded(id) && slot_in_range(
                    self.statuses()[id]->Discarded_slot,
                    slot_start,
                    slot_end,
                ) implies #[trigger] amap(discardeds@).dom().contains(id) by {
                crate::alist::lemma_amap_dom(self.block_statuses@, id);
                let j = choose|j: int|
                    0 <= j < self.block_statuses@.len() && (#[trigger] self.block_statuses@[j]).0
                        == id;
                assert(amap(discardeds@).dom().contains(self.block_statuses@[j].0));
            }
        }
        Ok(
            BlockGraphExport {
                genesis_blocks: clone_id_vec(&self.genesis_hashes),
                active_blocks: actives,
                discarded_blocks: discardeds,
                best_parents: clone_pairs(&self.best_parents),
                latest_final_blocks_periods: clone_pairs(&self.latest_final_blocks_periods),
                gi_head: clone_gi(&self.gi_head),
                max_cliques: clone_cliques(&self.max_cliques),
            },
        )
    }
}

/// What a state rebuilt from an export holds.
pub open spec fn import_matches(s2: GraphState, e: BlockGraphExport, config: crate::state::GraphConfig) -> bool {
    &&& s2.config == config
    &&& keys_unique(s2.block_statuses@)
    &&& (forall|id: BlockId|
        #[trigger] s2.statuses().dom().contains(id) <==> amap(e.active_blocks@).dom().contains(id)
            || amap(e.discarded_blocks@).dom().contains(id))
    &&& (forall|id: BlockId|
        #[trigger] amap(e.active_blocks@).dom().contains(id) ==> s2.is_active(id) && {
            let ab = s2.active_of(id);
            let ex = amap(e.active_blocks@)[id];
            &&& ab.slot == ex.header.slot
            &&& ab.creator == ex.header.creator
            &&& ab.parents@ == ex.header.parents@
            &&& ab.children@.len() == ex.children@.len()
            &&& (forall|t: int|
                0 <= t < ab.children@.len() ==> (#[trigger] ab.children@[t])@ == ex.children@[t]@)
            &&& ab.is_final == ex.is_final
        })
    &&& (forall|id: BlockId|
        #[trigger] amap(e.discarded_blocks@).dom().contains(id) ==> !(s2.statuses()[id] is Active)
            && s2.statuses().dom().contains(id) && s2.statuses()[id] is Discarded && {
            let ex = amap(e.discarded_blocks@)[id];
            &&& s2.statuses()[id]->Discarded_reason == ex.0
            &&& s2.statuses()[id]->Discarded_slot == ex.1.0
            &&& s2.statuses()[id]->Discarded_creator == ex.1.1
            &&& s2.statuses()[id]->Discarded_parents@ == ex.1.2@
        })
    &&& s2.storage.wf()
    &&& (forall|id: BlockId|
        #[trigger] s2.storage.view_map().dom().contains(id) <==> amap(
            e.active_blocks@,
        ).dom().contains(id))
    &&& (forall|id: BlockId|
        #[trigger] amap(e.active_blocks@).dom().contains(id) ==> s2.storage.view_map()[id].header.slot
            == amap(e.active_blocks@)[id].header.slot && s2.storage.view_map()[id].header.creator
            == amap(e.active_blocks@)[id].header.creator
            && s2.storage.view_map()[id].header.parents@ == amap(
            e.active_blocks@,
        )[id].header.parents@)
    &&& s2.genesis_hashes@ == e.genesis_blocks@
    &&& s2.best_parents@ == e.best_parents@
    &&& s2.latest_final_blocks_periods@ == e.latest_final_blocks_periods@
    &&& s2.gi_head@.len() == e.gi_head@.len()
    &&& (forall|i: int|
        0 <= i < e.gi_head@.len() ==> (#[trigger] s2.gi_head@[i]).0 == e.gi_head@[i].0
            && s2.gi_head@[i].1@ == e.gi_head@[i].1@)
    &&& s2.max_cliques@.len() == e.max_cliques@.len()
    &&& (forall|i: int|
        0 <= i < e.max_cliques@.len() ==> (#[trigger] s2.max_cliques@[i]).block_ids@
            == e.max_cliques@[i].block_ids@ && s2.max_cliques@[i].fitness
            == e.max_cliques@[i].fitness && s2.max_cliques@[i].is_blockclique
            == e.max_cliques@[i].is_blockclique)
}

/// Rebuild a graph state from an exported snapshot.
///
/// The rebuilt state answers the read queries like the exporting one did, as
/// `lemma_export_round_trip` shows.
pub fn import_block_graph_part(e: &BlockGraphExport, config: crate::state::GraphConfig) -> (r:
    GraphState)
    requires
        keys_unique(e.active_blocks@),
        keys_unique(e.discarded_blocks@),
        forall|id: BlockId|
            #[trigger] amap(e.active_blocks@).dom().contains(id) ==> !amap(
                e.discarded_blocks@,
            ).dom().contains(id),
    ensures
        import_matches(r, *e, config),
{
    let mut statuses: Vec<(BlockId, BlockStatus)> = Vec::new();
    let mut store = crate::store::BlockStore::new();
    let mut index: Vec<BlockId> = Vec::new();

    let mut i: usize = 0;
    while i < e.active_blocks.len()
        invariant
            keys_unique(e.active_blocks@),
            keys_unique(e.discarded_blocks@),
            store.wf(),
            0 <= i <= e.active_blocks@.len(),
            statuses@.len() == i,
            forall|k: int| 0 <= k < i ==> (#[trigger] statuses@[k]).0 == e.active_blocks@[k].0,
            forall|k: int|
                0 <= k < i ==> (#[trigger] statuses@[k]).1 is Active && {
                    let ab = statuses@[k].1->Active_a_block;
                    let ex = e.active_blocks@[k].1;
                    &&& ab.slot == ex.header.slot
                    &&& ab.creator == ex.header.creator
                    &&& ab.parents@ == ex.header.parents@
                    &&& ab.children@.len() == ex.children@.len()
                    &&& (forall|t: int|
                        0 <= t < ab.children@.len() ==> (#[trigger] ab.children@[t])@
                            == ex.children@[t]@)
                    &&& ab.is_final == ex.is_final
                },
            forall|id: BlockId|
                #[trigger] store.view_map().dom().contains(id) ==> exists|k: int|
                    0 <= k < i && (#[trigger] e.active_blocks@[k]).0 == id,
            forall|k: int|
                0 <= k < i ==> store.view_map().dom().contains(
                    (#[trigger] e.active_blocks@[k]).0,
                ) && {
                    let b = store.view_map()[e.active_blocks@[k].0];
                    let ex = e.active_blocks@[k].1;
                    &&& b.header.slot == ex.header.slot
                    &&& b.header.creator == ex.header.creator
                    &&& b.header.parents@ == ex.header.parents@
                },
        decreases e.active_blocks@.len() - i,
    {
        let id = e.active_blocks[i].0;
        let ex = &e.active_blocks[i].1;
        let ab = crate::status::ActiveBlock {
            slot: ex.header.slot,
            creator: ex.header.creator,
            parents: clone_pairs(&ex.header.parents),
            children: clone_children(&ex.children),
            is_final: ex.is_final,
        };
        store.insert(
            id,
            crate::store::Block {
                header: crate::store::BlockHeader {
                    slot: ex.header.slot,
                    creator: ex.header.creator,
                    parents: clone_pairs(&ex.header.parents),
                },
            },
        );
        statuses.push((id, BlockStatus::Active { a_block: ab }));
        index.push(id);
        i += 1;
    }
    let ghost na = i as int;
    let mut j: usize = 0;
    while j < e.discarded_blocks.len()
        invariant
            keys_unique(e.active_blocks@),
            keys_unique(e.discarded_blocks@),
            store.wf(),
            na == e.active_blocks@.len(),
            0 <= j <= e.discarded_blocks@.len(),
            statuses@.len() == na + j,
            forall|k: int| 0 <= k < na ==> (#[trigger] statuses@[k]).0 == e.active_blocks@[k].0,
            forall|k: int|
                0 <= k < na ==> (#[trigger] statuses@[k]).1 is Active && {
                    let ab = statuses@[k].1->Active_a_block;
                    let ex = e.active_blocks@[k].1;
                    &&& ab.slot == ex.header.slot
                    &&& ab.creator == ex.header.creator
                    &&& ab.parents@ == ex.header.parents@
                    &&& ab.children@.len() == ex.children@.len()
                    &&& (forall|t: int|
                        0 <= t < ab.children@.len() ==> (#[trigger] ab.children@[t])@
                            == ex.children@[t]@)
                    &&& ab.is_final == ex.is_final
                },
            forall|k: int|
                0 <= k < j ==> (#[trigger] statuses@[na + k]).0 == e.discarded_blocks@[k].0,
            forall|k: int|
                0 <= k < j ==> (#[trigger] statuses@[na + k]).1 is Discarded && {
                    let st = statuses@[na + k].1;
                    let ex = e.discarded_blocks@[k].1;
                    &&& st->Discarded_reason == ex.0
                    &&& st->Discarded_slot == ex.1.0
                    &&& st->Discarded_creator == ex.1.1
                    &&& st->Discarded_parents@ == ex.1.2@
                },
        decreases e.discarded_blocks@.len() - j,
    {
        let id = e.discarded_blocks[j].0;
        let ex = &e.discarded_blocks[j].1;
        statuses.push(
            (
                id,
                BlockStatus::Discarded {
                    slot: ex.1.0,
                    creator: ex.1.1,
                    parents: clone_id_vec(&ex.1.2),
                    reason: ex.0,
                },
            ),
        );
        j += 1;
    }
    proof {
        assert(keys_unique(statuses@)) by {
            assert forall|x: int, y: int| 0 <= x < y < statuses@.len() implies (
            #[trigger] statuses@[x]).0 != (#[trigger] statuses@[y]).0 by {
                if x < na && y < na {
                    assert(statuses@[x].0 == e.active_blocks@[x].0);
                    assert(statuses@[y].0 == e.active_blocks@[y].0);
                    assert((#[trigger] e.active_blocks@[x]).0 != (#[trigger] e.active_blocks@[y]).0);
                } else if x < na && y >= na {
                    assert(statuses@[x].0 == e.active_blocks@[x].0);
                    assert(statuses@[na + (y - na)].0 == e.discarded_blocks@[y - na].0);
                    crate::alist::lemma_amap_index(e.active_blocks@, x);
                    crate::alist::lemma_amap_index(e.discarded_blocks@, y - na);
                } else {
                    assert(statuses@[na + (x - na)].0 == e.discarded_blocks@[x - na].0);
                    assert(statuses@[na + (y - na)].0 == e.discarded_blocks@[y - na].0);
                    assert((#[trigger] e.discarded_blocks@[x - na]).0 != (
                    #[trigger] e.discarded_blocks@[y - na]).0);
                }
            }
        }
    }
    let r = GraphState {
        config,
        storage: store,
        genesis_hashes: clone_id_vec(&e.genesis_blocks),
        gi_head: clone_gi(&e.gi_head),
        max_cliques: clone_cliques(&e.max_cliques),
        active_index: index,
        latest_final_blocks_periods: clone_pairs(&e.latest_final_blocks_periods),
        best_parents: clone_pairs(&e.best_parents),
        block_statuses: statuses,
    };
    proof {
        assert forall|id: BlockId| #[trigger] r.storage.view_map().dom().contains(id) implies
            amap(e.active_blocks@).dom().contains(id) by {
            let k = choose|k: int|
                0 <= k < e.active_blocks@.len() && (#[trigger] e.active_blocks@[k]).0 == id;
            crate::alist::lemma_amap_index(e.active_blocks@, k);
        }
        assert forall|id: BlockId| #[trigger] amap(e.active_blocks@).dom().contains(id) implies
            r.storage.view_map().dom().contains(id) && r.storage.view_map()[id].header.slot
            == amap(e.active_blocks@)[id].header.slot && r.storage.view_map()[id].header.creator
            == amap(e.active_blocks@)[id].header.creator
            && r.storage.view_map()[id].header.parents@ == amap(
            e.active_blocks@,
        )[id].header.parents@ by {
            crate::alist::lemma_amap_dom(e.active_blocks@, id);
            let k = choose|k: int|
                0 <= k < e.active_blocks@.len() && (#[trigger] e.active_blocks@[k]).0 == id;
            crate::alist::lemma_amap_index(e.active_blocks@, k);
        }
                assert forall|id: BlockId| #[trigger] r.statuses().dom().contains(id) implies amap(
            e.active_blocks@,
        ).dom().contains(id) || amap(e.discarded_blocks@).dom().contains(id) by {
            crate::alist::lemma_amap_dom(r.block_statuses@, id);
            let k = choose|k: int|
                0 <= k < r.block_statuses@.len() && (#[trigger] r.block_statuses@[k]).0 == id;
            if k < na {
                assert(r.block_statuses@[k].0 == e.active_blocks@[k].0);
                crate::alist::lemma_amap_index(e.active_blocks@, k);
            } else {
                assert(r.block_statuses@[na + (k - na)].0 == e.discarded_blocks@[k - na].0);
                crate::alist::lemma_amap_index(e.discarded_blocks@, k - na);
            }
        }
        assert forall|id: BlockId| amap(e.active_blocks@).dom().contains(id) implies
            #[trigger] r.statuses().dom().contains(id) by {
            crate::alist::lemma_amap_dom(e.active_blocks@, id);
            let k = choose|k: int|
                0 <= k < e.active_blocks@.len() && (#[trigger] e.active_blocks@[k]).0 == id;
            assert(r.block_statuses@[k].0 == id);
            crate::alist::lemma_amap_dom(r.block_statuses@, id);
        }
        assert forall|id: BlockId| amap(e.discarded_blocks@).dom().contains(id) implies
            #[trigger] r.statuses().dom().contains(id) by {
            crate::alist::lemma_amap_dom(e.discarded_blocks@, id);
            let k = choose|k: int|
                0 <= k < e.discarded_blocks@.len() && (#[trigger] e.discarded_blocks@[k]).0 == id;
            assert(r.block_statuses@[na + k].0 == id);
            crate::alist::lemma_amap_dom(r.block_statuses@, id);
        }
        assert forall|id: BlockId| amap(e.active_blocks@).dom().contains(id) implies
            r.statuses()[id] == r.block_statuses@[choose|k: int|
                0 <= k < e.active_blocks@.len() && (#[trigger] e.active_blocks@[k]).0 == id].1 by {
            crate::alist::lemma_amap_dom(e.active_blocks@, id);
            let k = choose|k: int|
                0 <= k < e.active_blocks@.len() && (#[trigger] e.active_blocks@[k]).0 == id;
            crate::alist::lemma_amap_index(r.block_statuses@, k);
        }
        assert forall|id: BlockId| #[trigger] amap(e.active_blocks@).dom().contains(id) implies
            r.is_active(id) by {
            crate::alist::lemma_amap_dom(e.active_blocks@, id);
            let k = choose|k: int|
                0 <= k < e.active_blocks@.len() && (#[trigger] e.active_blocks@[k]).0 == id;
            crate::alist::lemma_amap_index(r.block_statuses@, k);
        }
        assert forall|id: BlockId| #[trigger] amap(e.active_blocks@).dom().contains(id) implies {
            let ab = r.active_of(id);
            let ex = amap(e.active_blocks@)[id];
            &&& ab.slot == ex.header.slot
            &&& ab.creator == ex.header.creator
            &&& ab.parents@ == ex.header.parents@
            &&& ab.children@.len() == ex.children@.len()
            &&& (forall|t: int|
                0 <= t < ab.children@.len() ==> (#[trigger] ab.children@[t])@ == ex.children@[t]@)
            &&& ab.is_final == ex.is_final
        } by {
            crate::alist::lemma_amap_dom(e.active_blocks@, id);
            let k = choose|k: int|
                0 <= k < e.active_blocks@.len() && (#[trigger] e.active_blocks@[k]).0 == id;
            crate::alist::lemma_amap_index(r.block_statuses@, k);
            crate::alist::lemma_amap_index(e.active_blocks@, k);
        }
        assert forall|id: BlockId| #[trigger] amap(e.discarded_blocks@).dom().contains(id) implies
            !(r.statuses()[id] is Active) && r.statuses().dom().contains(id) && r.statuses()[id] is Discarded && {
            let ex = amap(e.discarded_blocks@)[id];
            &&& r.statuses()[id]->Discarded_reason == ex.0
            &&& r.statuses()[id]->Discarded_slot == ex.1.0
            &&& r.statuses()[id]->Discarded_creator == ex.1.1
            &&& r.statuses()[id]->Discarded_parents@ == ex.1.2@
        } by {
            crate::alist::lemma_amap_dom(e.discarded_blocks@, id);
            let k = choose|k: int|
                0 <= k < e.discarded_blocks@.len() && (#[trigger] e.discarded_blocks@[k]).0 == id;
            crate::alist::lemma_amap_index(r.block_statuses@, na + k);
            crate::alist::lemma_amap_index(e.discarded_blocks@, k);
        }
    }
    r
}

/// Scanning the same members over two states that agree on active blocks
/// gives the same result.
proof fn lemma_latest_scan_agree(
    s: GraphState,
    s2: GraphState,
    members: Seq<BlockId>,
    i: int,
    best: (BlockId, u64),
    slot: Slot,
)
    requires
        0 <= i <= members.len(),
        forall|j: int| 0 <= j < members.len() ==> s.is_active(#[trigger] members[j]),
        forall|id: BlockId| #[trigger] s2.is_active(id) <==> s.is_active(id),
        forall|id: BlockId|
            s.is_active(id) ==> (#[trigger] s2.active_of(id)).slot == s.active_of(id).slot
                && s2.active_of(id).is_final == s.active_of(id).is_final,
    ensures
        s2.latest_scan(members, i, best, slot) == s.latest_scan(members, i, best, slot),
    decreases members.len() - i,
{
    if i < members.len() {
        assert(s.is_active(members[i]));
        let ab = s.active_of(members[i]);
        let nb = if !ab.is_final && ab.slot.thread == slot.thread && ab.slot.period < slot.period
            && ab.slot.period > best.1 {
            (members[i], ab.slot.period)
        } else {
            best
        };
        lemma_latest_scan_agree(s, s2, members, i + 1, nb, slot);
    }
}

/// Round trip: a state rebuilt from a full export answers the status query
/// and the latest-blockclique query exactly as the exporting state does.
pub proof fn lemma_export_round_trip(
    s: GraphState,
    s2: GraphState,
    e: BlockGraphExport,
    config: crate::state::GraphConfig,
)
    requires
        s.inv(),
        forall|id: BlockId|
            #[trigger] s.statuses().dom().contains(id) ==> s.statuses()[id] is Active
                || s.statuses()[id] is Discarded,
        s.export_matches(e, None, None),
        import_matches(s2, e, config),
    ensures
        forall|id: BlockId| #[trigger] s2.graph_status_spec(id) == s.graph_status_spec(id),
        forall|slot: Slot|
            slot.thread < s.thread_count() ==> #[trigger] s2.latest_blockclique_block_at_slot_spec(
                slot,
            ) == s.latest_blockclique_block_at_slot_spec(slot),
{
    assert(forall|sl: Slot| slot_in_range(sl, None, None));
    assert forall|id: BlockId| #[trigger] s2.is_active(id) <==> s.is_active(id) by {
        if s2.is_active(id) {
            assert(s2.statuses().dom().contains(id));
            if amap(e.discarded_blocks@).dom().contains(id) {
                assert(s2.statuses()[id] is Discarded);
            }
            assert(amap(e.active_blocks@).dom().contains(id));
        }
        if s.is_active(id) {
            assert(amap(e.active_blocks@).dom().contains(id));
        }
    }
    assert forall|id: BlockId|
        s.is_active(id) implies (#[trigger] s2.active_of(id)).slot == s.active_of(id).slot
        && s2.active_of(id).is_final == s.active_of(id).is_final by {
        assert(amap(e.active_blocks@).dom().contains(id));
        assert(s.export_of_active(id, amap(e.active_blocks@)[id]));
    }
    assert forall|id: BlockId|
        #[trigger] s2.statuses().dom().contains(id) <==> s.statuses().dom().contains(id) by {
        if s2.statuses().dom().contains(id) {
            if amap(e.active_blocks@).dom().contains(id) {
                assert(s.is_active(id));
            } else {
                assert(s.is_discarded(id));
            }
        }
        if s.statuses().dom().contains(id) {
            if s.statuses()[id] is Active {
                assert(s.is_active(id));
                assert(amap(e.active_blocks@).dom().contains(id));
            } else {
                assert(s.is_discarded(id));
                assert(amap(e.discarded_blocks@).dom().contains(id));
            }
        }
    }
    // The blockclique is the same clique in both states.
    let i1 = s.blockclique_idx();
    assert(0 <= i1 < s.max_cliques@.len() && s.is_blockclique_at(i1));
    assert(s2.max_cliques@[i1].is_blockclique);
    assert(s2.is_blockclique_at(i1));
    assert forall|i: int, j: int|
        0 <= i < s2.max_cliques@.len() && 0 <= j < s2.max_cliques@.len() && s2.is_blockclique_at(i)
            && s2.is_blockclique_at(j) implies i == j by {
        assert(s.max_cliques@[i].is_blockclique && s.max_cliques@[j].is_blockclique);
        assert(s.is_blockclique_at(i) && s.is_blockclique_at(j));
    }
    assert(s2.has_unique_blockclique());
    let i2 = s2.blockclique_idx();
    assert(0 <= i2 < s2.max_cliques@.len() && s2.is_blockclique_at(i2));
    assert(i2 == i1);
    assert(s2.blockclique().block_ids@ == s.blockclique().block_ids@);
    // The status query agrees on every id.
    assert forall|id: BlockId| #[trigger] s2.graph_status_spec(id) == s.graph_status_spec(id) by {
        if s.statuses().dom().contains(id) {
            if s.statuses()[id] is Active {
                assert(s.is_active(id) && s2.is_active(id));
                assert(s2.in_blockclique(id) == s.in_blockclique(id));
            } else {
                assert(s.is_discarded(id));
                assert(amap(e.discarded_blocks@).dom().contains(id));
                assert(s2.statuses()[id] is Discarded);
            }
        }
    }
    // The latest-blockclique query agrees on every slot of a real thread.
    assert forall|slot: Slot|
        slot.thread < s.thread_count() implies #[trigger] s2.latest_blockclique_block_at_slot_spec(
        slot,
    ) == s.latest_blockclique_block_at_slot_spec(slot) by {
        let members = s.blockclique().block_ids@;
        assert forall|j: int| 0 <= j < members.len() implies s.is_active(
            #[trigger] members[j],
        ) by {
            assert(s.max_cliques@[i1].block_ids@.contains(members[j]));
        }
        assert(s2.latest_final_blocks_periods@[slot.thread as int]
            == s.latest_final_blocks_periods@[slot.thread as int]);
        lemma_latest_scan_agree(
            s,
            s2,
            members,
            0,
            s.latest_final_blocks_periods@[slot.thread as int],
            slot,
        );
    }
}

/// Round trip for the block-at-slot query. Under the protocol's expectation
/// that the store carries exactly the active bodies and at most one block
/// per slot, the rebuilt state answers the query identically: the candidate
/// lists on both sides hold the same single block, or none.
pub proof fn lemma_export_round_trip_at_slot(
    s: GraphState,
    s2: GraphState,
    e: BlockGraphExport,
    config: crate::state::GraphConfig,
    slot: Slot,
)
    requires
        s.inv(),
        forall|id: BlockId| #[trigger] s.storage.view_map().dom().contains(id) ==> s.is_active(id),
        forall|i: int, j: int|
            0 <= i < j < s.storage.blocks@.len() ==> (#[trigger] s.storage.blocks@[i]).1.header.slot
                != (#[trigger] s.storage.blocks@[j]).1.header.slot,
        s.export_matches(e, None, None),
        import_matches(s2, e, config),
    ensures
        s2.blockclique_block_at_slot_spec(slot) == s.blockclique_block_at_slot_spec(slot),
{
    assert(forall|sl: Slot| slot_in_range(sl, None, None));
    assert forall|id: BlockId| #[trigger] s2.is_active(id) <==> s.is_active(id) by {
        if s2.is_active(id) {
            if amap(e.discarded_blocks@).dom().contains(id) {
                assert(s2.statuses()[id] is Discarded);
            }
            assert(amap(e.active_blocks@).dom().contains(id));
        }
        if s.is_active(id) {
            assert(amap(e.active_blocks@).dom().contains(id));
        }
    }
    assert forall|id: BlockId|
        s.is_active(id) implies (#[trigger] s2.active_of(id)).slot == s.active_of(id).slot
        && s2.active_of(id).is_final == s.active_of(id).is_final by {
        assert(amap(e.active_blocks@).dom().contains(id));
        assert(s.export_of_active(id, amap(e.active_blocks@)[id]));
    }
    // The blockclique is the same clique in both states.
    let i1 = s.blockclique_idx();
    assert(0 <= i1 < s.max_cliques@.len() && s.is_blockclique_at(i1));
    assert(s2.is_blockclique_at(i1));
    assert forall|i: int, j: int|
        0 <= i < s2.max_cliques@.len() && 0 <= j < s2.max_cliques@.len() && s2.is_blockclique_at(i)
            && s2.is_blockclique_at(j) implies i == j by {
        assert(s.is_blockclique_at(i) && s.is_blockclique_at(j));
    }
    assert(s2.has_unique_blockclique());
    assert(s2.blockclique_idx() == i1);
    assert(s2.blockclique().block_ids@ == s.blockclique().block_ids@);

    // Both candidate lists hold exactly the ids of the active blocks sitting
    // at `slot`.
    let c1 = crate::store::ids_at_slot(s.storage.blocks@, slot);
    let c2 = crate::store::ids_at_slot(s2.storage.blocks@, slot);
    assert forall|x: BlockId| #[trigger] c1.contains(x) implies s.is_active(x) && s.active_of(
        x,
    ).slot == slot by {
        crate::store::lemma_ids_at_slot_member(s.storage.blocks@, slot, x);
        let i = choose|i: int|
            0 <= i < s.storage.blocks@.len() && (#[trigger] s.storage.blocks@[i]).0 == x
                && s.storage.blocks@[i].1.header.slot == slot;
        crate::alist::lemma_amap_index(s.storage.blocks@, i);
        assert(s.storage.view_map().dom().contains(x));
        assert(s.is_active(x));
        assert(s.storage.view_map()[x].header.slot == s.active_of(x).slot);
    }
    assert forall|x: BlockId|
        s.is_active(x) && (#[trigger] s.active_of(x)).slot == slot implies c1.contains(x) by {
        assert(s.storage.view_map().dom().contains(x));
        crate::alist::lemma_amap_dom(s.storage.blocks@, x);
        let i = choose|i: int|
            0 <= i < s.storage.blocks@.len() && (#[trigger] s.storage.blocks@[i]).0 == x;
        crate::alist::lemma_amap_index(s.storage.blocks@, i);
        assert(s.storage.blocks@[i].1.header.slot == slot);
        crate::store::lemma_ids_at_slot_complete(s.storage.blocks@, slot, i);
    }
    assert forall|x: BlockId| #[trigger] c2.contains(x) implies s.is_active(x) && s.active_of(
        x,
    ).slot == slot by {
        crate::store::lemma_ids_at_slot_member(s2.storage.blocks@, slot, x);
        let i = choose|i: int|
            0 <= i < s2.storage.blocks@.len() && (#[trigger] s2.storage.blocks@[i]).0 == x
                && s2.storage.blocks@[i].1.header.slot == slot;
        crate::alist::lemma_amap_index(s2.storage.blocks@, i);
        assert(s2.storage.view_map().dom().contains(x));
        assert(amap(e.active_blocks@).dom().contains(x));
        assert(s.is_active(x));
        assert(s2.storage.view_map()[x].header.slot == amap(e.active_blocks@)[x].header.slot);
        assert(s.export_of_active(x, amap(e.active_blocks@)[x]));
    }
    assert forall|x: BlockId|
        s.is_active(x) && (#[trigger] s.active_of(x)).slot == slot implies c2.contains(x) by {
        assert(amap(e.active_blocks@).dom().contains(x));
        assert(s2.storage.view_map().dom().contains(x));
        crate::alist::lemma_amap_dom(s2.storage.blocks@, x);
        let i = choose|i: int|
            0 <= i < s2.storage.blocks@.len() && (#[trigger] s2.storage.blocks@[i]).0 == x;
        crate::alist::lemma_amap_index(s2.storage.blocks@, i);
        assert(s.export_of_active(x, amap(e.active_blocks@)[x]));
        assert(s2.storage.blocks@[i].1.header.slot == slot);
        crate::store::lemma_ids_at_slot_complete(s2.storage.blocks@, slot, i);
    }

    // At most one candidate on either side.
    crate::store::lemma_ids_at_slot_unique(s.storage.blocks@, slot);
    crate::store::lemma_ids_at_slot_unique(s2.storage.blocks@, slot);
    assert(c1.len() <= 1) by {
        if c1.len() >= 2 {
            assert(c1.contains(c1[0]) && c1.contains(c1[1]));
            assert(c1[0] != c1[1]);
            crate::store::lemma_ids_at_slot_member(s.storage.blocks@, slot, c1[0]);
            let i0 = choose|i: int|
                0 <= i < s.storage.blocks@.len() && (#[trigger] s.storage.blocks@[i]).0 == c1[0]
                    && s.storage.blocks@[i].1.header.slot == slot;
            crate::store::lemma_ids_at_slot_member(s.storage.blocks@, slot, c1[1]);
            let j0 = choose|i: int|
                0 <= i < s.storage.blocks@.len() && (#[trigger] s.storage.blocks@[i]).0 == c1[1]
                    && s.storage.blocks@[i].1.header.slot == slot;
            assert(i0 != j0);
            assert(false);
        }
    }
    assert(c2.len() <= 1) by {
        if c2.len() >= 2 {
            assert(c2.contains(c2[0]) && c2.contains(c2[1]));
            assert(c2[0] != c2[1]);
            assert(c1.contains(c2[0]) && c1.contains(c2[1]));
            let k0 = choose|k: int| 0 <= k < c1.len() && c1[k] == c2[0];
            let k1 = choose|k: int| 0 <= k < c1.len() && c1[k] == c2[1];
            assert(k0 != k1);
            assert(false);
        }
    }

    // The lists are equal: both empty, or both the same single id.
    if c1.len() == 0 {
        assert(c2.len() == 0) by {
            if c2.len() > 0 {
                assert(c2.contains(c2[0]));
                assert(c1.contains(c2[0]));
                assert(false);
            }
        }
        assert(c1 =~= c2);
    } else {
        let x = c1[0];
        assert(c1.contains(x));
        assert(c2.contains(x));
        assert(c2.len() == 1);
        assert(c2[0] == x) by {
            let k = choose|k: int| 0 <= k < c2.len() && c2[k] == x;
        }
        assert(c1 =~= c2);
    }

    // Identical candidates, an identical blockclique and identical finality
    // flags give identical answers.
    if c1.len() == 0 {
        assert(s.first_in_clique_from(c1, 0) is None);
        assert(s2.first_in_clique_from(c2, 0) is None);
        assert(s.first_final_from(c1, 0) is None);
        assert(s2.first_final_from(c2, 0) is None);
    } else {
        let x = c1[0];
        assert(c1.contains(x));
        assert(s2.in_blockclique(x) == s.in_blockclique(x));
        assert(s2.is_final_active(x) == s.is_final_active(x));
        assert(s.first_in_clique_from(c1, 1) is None);
        assert(s2.first_in_clique_from(c2, 1) is None);
        assert(s.first_final_from(c1, 1) is None);
        assert(s2.first_final_from(c2, 1) is None);
        assert(s.first_in_clique_from(c1, 0) == s2.first_in_clique_from(c2, 0));
        assert(s.first_final_from(c1, 0) == s2.first_final_from(c2, 0));
    }
}

} // verus!
