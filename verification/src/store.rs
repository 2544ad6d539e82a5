//! Content-addressed block store.
//!
//! Maps a block id to the stored block body. The graph state owns one store;
//! bodies are present for every `Active` status and for no `Discarded` one.

use vstd::prelude::*;

use crate::alist::{acontains, aget, ainsert, amap, keys_unique};
use crate::ids::{BlockId, Slot};

verus! {

/// Header of a block: its slot, creator, and one `(parent id, parent period)`
/// per thread (empty for a genesis block).
#[derive(Clone, Debug)]
pub struct BlockHeader {
    pub slot: Slot,
    pub creator: u64,
    pub parents: Vec<(BlockId, u64)>,
}

/// A stored block body.
#[derive(Clone, Debug)]
pub struct Block {
    pub header: BlockHeader,
}

/// The block store: a map from block id to block body.
#[derive(Clone, Debug)]
pub struct BlockStore {
    pub blocks: Vec<(BlockId, Block)>,
}

/// The ids of the blocks of an association sequence whose header sits at
/// `slot`, in store order.
pub open spec fn ids_at_slot(s: Seq<(BlockId, Block)>, slot: Slot) -> Seq<BlockId>
    decreases s.len(),
{
    if s.len() == 0 {
        Seq::empty()
    } else {
        let rest = ids_at_slot(s.drop_last(), slot);
        if s.last().1.header.slot == slot {
            rest.push(s.last().0)
        } else {
            rest
        }
    }
}

/// Every id listed at a slot is a key of the sequence.
pub proof fn lemma_ids_at_slot_member(s: Seq<(BlockId, Block)>, slot: Slot, id: BlockId)
    requires
        ids_at_slot(s, slot).contains(id),
    ensures
        amap(s).dom().contains(id),
        exists|i: int|
            0 <= i < s.len() && (#[trigger] s[i]).0 == id && s[i].1.header.slot == slot,
    decreases s.len(),
{
    if s.len() > 0 {
        let rest = ids_at_slot(s.drop_last(), slot);
        if s.last().1.header.slot == slot && id == s.last().0 && !rest.contains(id) {
            assert(s[s.len() - 1].0 == id);
        } else {
            assert(rest.contains(id)) by {
                if s.last().1.header.slot == slot {
                    assert(ids_at_slot(s, slot) == rest.push(s.last().0));
                }
            }
            lemma_ids_at_slot_member(s.drop_last(), slot, id);
            let i = choose|i: int|
                0 <= i < s.drop_last().len() && (#[trigger] s.drop_last()[i]).0 == id
                    && s.drop_last()[i].1.header.slot == slot;
            assert(s[i].0 == id && s[i].1.header.slot == slot);
        }
        crate::alist::lemma_amap_dom(s, id);
    }
}

/// Every key sitting at `slot` is listed.
pub proof fn lemma_ids_at_slot_complete(s: Seq<(BlockId, Block)>, slot: Slot, i: int)
    requires
        0 <= i < s.len(),
        s[i].1.header.slot == slot,
    ensures
        ids_at_slot(s, slot).contains(s[i].0),
    decreases s.len(),
{
    if i == s.len() - 1 {
        assert(ids_at_slot(s, slot).last() == s[i].0);
    } else {
        lemma_ids_at_slot_complete(s.drop_last(), slot, i);
        let rest = ids_at_slot(s.drop_last(), slot);
        let j = choose|j: int| 0 <= j < rest.len() && rest[j] == s[i].0;
        if s.last().1.header.slot == slot {
            assert(ids_at_slot(s, slot)[j] == s[i].0);
        }
    }
}

/// Over unique keys, the listing at a slot repeats no id.
pub proof fn lemma_ids_at_slot_unique(s: Seq<(BlockId, Block)>, slot: Slot)
    requires
        keys_unique(s),
    ensures
        crate::alist::ids_unique(ids_at_slot(s, slot)),
    decreases s.len(),
{
    if s.len() > 0 {
        let t = s.drop_last();
        assert(keys_unique(t)) by {
            assert(forall|x: int, y: int|
                0 <= x < y < t.len() ==> (#[trigger] t[x]).0 != (#[trigger] t[y]).0) by {
                assert(forall|x: int, y: int|
                    0 <= x < y < s.len() ==> (#[trigger] s[x]).0 != (#[trigger] s[y]).0);
                assert(forall|x: int| 0 <= x < t.len() ==> #[trigger] t[x] == s[x]);
            }
        }
        lemma_ids_at_slot_unique(t, slot);
        if s.last().1.header.slot == slot {
            let rest = ids_at_slot(t, slot);
            assert forall|j: int| 0 <= j < rest.len() implies rest[j] != s.last().0 by {
                assert(rest.contains(rest[j]));
                lemma_ids_at_slot_member(t, slot, rest[j]);
                let i2 = choose|i2: int|
                    0 <= i2 < t.len() && (#[trigger] t[i2]).0 == rest[j] && t[i2].1.header.slot
                        == slot;
                assert(s[i2] == t[i2]);
                assert(s[i2].0 != s[s.len() - 1].0);
            }
            assert(crate::alist::ids_unique(rest.push(s.last().0))) by {
                let u = rest.push(s.last().0);
                assert(forall|x: int, y: int| 0 <= x < y < u.len() ==> u[x] != u[y]) by {
                    assert(forall|x: int| 0 <= x < rest.len() ==> #[trigger] u[x] == rest[x]);
                    assert(u[u.len() - 1] == s.last().0);
                }
            }
        }
    }
}

impl BlockStore {
    /// The mathematical content of the store.
    pub open spec fn view_map(self) -> Map<BlockId, Block> {
        amap(self.blocks@)
    }

    pub open spec fn wf(self) -> bool {
        keys_unique(self.blocks@)
    }

    pub fn new() -> (r: BlockStore)
        ensures
            r.wf(),
            r.view_map() == Map::<BlockId, Block>::empty(),
            r.blocks@.len() == 0,
    {
        BlockStore { blocks: Vec::new() }
    }

    /// Body of a block, if stored.
    pub fn get(&self, id: BlockId) -> (r: Option<&Block>)
        requires
            self.wf(),
        ensures
            match r {
                Some(b) => self.view_map().dom().contains(id) && *b == self.view_map()[id],
                None => !self.view_map().dom().contains(id),
            },
    {
        aget(&self.blocks, id)
    }

    /// Whether a body is stored for `id`.
    pub fn contains(&self, id: BlockId) -> (r: bool)
        requires
            self.wf(),
        ensures
            r == self.view_map().dom().contains(id),
    {
        acontains(&self.blocks, id)
    }

    /// Store a body, replacing any previous one under the same id.
    pub fn insert(&mut self, id: BlockId, block: Block)
        requires
            old(self).wf(),
        ensures
            final(self).wf(),
            final(self).view_map() == old(self).view_map().insert(id, block),
            forall|k: BlockId|
                #[trigger] final(self).view_map().dom().contains(k) <==> old(
                    self,
                ).view_map().dom().contains(k) || k == id,
    {
        ainsert(&mut self.blocks, id, block);
    }

    /// Ids of the stored blocks whose slot is `slot`, in store order.
    pub fn blocks_at_slot(&self, slot: Slot) -> (r: Vec<BlockId>)
        requires
            self.wf(),
        ensures
            r@ == ids_at_slot(self.blocks@, slot),
    {
        let mut out: Vec<BlockId> = Vec::new();
        let mut i: usize = 0;
        while i < self.blocks.len()
            invariant
                self.wf(),
                0 <= i <= self.blocks.len(),
                out@ == ids_at_slot(self.blocks@.subrange(0, i as int), slot),
            decreases self.blocks.len() - i,
        {
            proof {
                assert(self.blocks@.subrange(0, i + 1 as int).drop_last() =~= self.blocks@.subrange(
                    0,
                    i as int,
                ));
                assert(self.blocks@.subrange(0, i + 1 as int).last() == self.blocks@[i as int]);
            }
            if self.blocks[i].1.header.slot == slot {
                out.push(self.blocks[i].0);
            }
            i += 1;
        }
        proof {
            assert(self.blocks@.subrange(0, self.blocks@.len() as int) =~= self.blocks@);
        }
        out
    }
}

} // verus!
