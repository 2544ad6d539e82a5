//! Association vectors with unique keys, and duplicate-free id vectors.
//!
//! The graph state stores its maps as `Vec<(BlockId, V)>` with pairwise
//! distinct keys, and its sets as `Vec<BlockId>` without duplicates, so that
//! every iteration order is fixed by the data itself. Contracts speak of the
//! mathematical `Map` view built here.

use vstd::prelude::*;

use crate::ids::BlockId;

verus! {

/// Keys of an association sequence are pairwise distinct.
pub open spec fn keys_unique<V>(s: Seq<(BlockId, V)>) -> bool {
    forall|i: int, j: int| 0 <= i < j < s.len() ==> (#[trigger] s[i]).0 != (#[trigger] s[j]).0
}

/// The map view of an association sequence (later entries win, which is
/// irrelevant once keys are unique).
pub open spec fn amap<V>(s: Seq<(BlockId, V)>) -> Map<BlockId, V>
    decreases s.len(),
{
    if s.len() == 0 {
        Map::empty()
    } else {
        amap(s.drop_last()).insert(s.last().0, s.last().1)
    }
}

/// A key is in the map view exactly when some entry carries it.
pub proof fn lemma_amap_dom<V>(s: Seq<(BlockId, V)>, k: BlockId)
    ensures
        amap(s).dom().contains(k) <==> exists|i: int| 0 <= i < s.len() && (#[trigger] s[i]).0 == k,
    decreases s.len(),
{
    if s.len() > 0 {
        let t = s.drop_last();
        lemma_amap_dom(t, k);
        assert(forall|i: int| 0 <= i < t.len() ==> #[trigger] t[i] == s[i]);
        if amap(s).dom().contains(k) {
            if k == s.last().0 {
                assert(s[s.len() - 1].0 == k);
            } else {
                let i = choose|i: int| 0 <= i < t.len() && (#[trigger] t[i]).0 == k;
                assert(s[i].0 == k);
            }
        }
        if exists|i: int| 0 <= i < s.len() && (#[trigger] s[i]).0 == k {
            let i = choose|i: int| 0 <= i < s.len() && (#[trigger] s[i]).0 == k;
            if i < s.len() - 1 {
                assert(t[i].0 == k);
            }
        }
    }
}

/// Under unique keys, the entry at any index gives the map's value at its key.
pub proof fn lemma_amap_index<V>(s: Seq<(BlockId, V)>, i: int)
    requires
        keys_unique(s),
        0 <= i < s.len(),
    ensures
        amap(s).dom().contains(s[i].0),
        amap(s)[s[i].0] == s[i].1,
    decreases s.len(),
{
    if i == s.len() - 1 {
        assert(s[i] == s.last());
    } else {
        assert(keys_unique(s.drop_last())) by {
            assert(forall|x: int, y: int|
                0 <= x < y < s.drop_last().len() ==> (#[trigger] s.drop_last()[x]).0
                    != (#[trigger] s.drop_last()[y]).0) by {
                assert(forall|x: int, y: int|
                    0 <= x < y < s.len() - 1 ==> (#[trigger] s[x]).0 != (#[trigger] s[y]).0);
            }
        }
        lemma_amap_index(s.drop_last(), i);
        assert(s.drop_last()[i] == s[i]);
        assert(s[i].0 != s.last().0);
    }
}

/// Look a key up by linear scan.
pub fn aget<'a, V>(v: &'a Vec<(BlockId, V)>, id: BlockId) -> (r: Option<&'a V>)
    requires
        keys_unique(v@),
    ensures
        match r {
            Some(val) => amap(v@).dom().contains(id) && *val == amap(v@)[id],
            None => !amap(v@).dom().contains(id),
        },
{
    let mut i: usize = 0;
    while i < v.len()
        invariant
            keys_unique(v@),
            0 <= i <= v.len(),
            forall|j: int| 0 <= j < i ==> (#[trigger] v@[j]).0 != id,
        decreases v.len() - i,
    {
        if v[i].0 == id {
            proof {
                lemma_amap_index(v@, i as int);
            }
            return Some(&v[i].1);
        }
        i += 1;
    }
    proof {
        lemma_amap_dom(v@, id);
    }
    None
}

/// Whether a key is present.
pub fn acontains<V>(v: &Vec<(BlockId, V)>, id: BlockId) -> (r: bool)
    requires
        keys_unique(v@),
    ensures
        r == amap(v@).dom().contains(id),
{
    let mut i: usize = 0;
    while i < v.len()
        invariant
            keys_unique(v@),
            0 <= i <= v.len(),
            forall|j: int| 0 <= j < i ==> (#[trigger] v@[j]).0 != id,
        decreases v.len() - i,
    {
        if v[i].0 == id {
            proof {
                lemma_amap_index(v@, i as int);
            }
            return true;
        }
        i += 1;
    }
    proof {
        lemma_amap_dom(v@, id);
    }
    false
}

/// Appending a fresh key inserts it into the map view.
pub proof fn lemma_amap_push<V>(s: Seq<(BlockId, V)>, k: BlockId, val: V)
    ensures
        amap(s.push((k, val))) == amap(s).insert(k, val),
{
    assert(s.push((k, val)).drop_last() =~= s);
}

/// Insert a binding, replacing the previous value of the key if present.
pub fn ainsert<V>(v: &mut Vec<(BlockId, V)>, id: BlockId, val: V)
    requires
        keys_unique(old(v)@),
    ensures
        keys_unique(final(v)@),
        amap(final(v)@) == amap(old(v)@).insert(id, val),
        forall|k: BlockId|
            #[trigger] amap(final(v)@).dom().contains(k) <==> amap(old(v)@).dom().contains(k) || k
                == id,
{
    let ghost s0 = v@;
    let mut i: usize = 0;
    while i < v.len()
        invariant
            v@ == s0,
            s0 == old(v)@,
            keys_unique(s0),
            0 <= i <= v.len(),
            forall|j: int| 0 <= j < i ==> (#[trigger] s0[j]).0 != id,
        decreases v.len() - i,
    {
        if v[i].0 == id {
            v[i] = (id, val);
            proof {
                assert(v@ =~= s0.update(i as int, (s0[i as int].0, val)));
                lemma_amap_update(s0, i as int, val);
                assert(amap(v@) == amap(s0).insert(s0[i as int].0, val));
                assert(s0[i as int].0 == id);
                assert(amap(v@) == amap(s0).insert(id, val));
                assert(keys_unique(v@)) by {
                    assert(forall|j: int| 0 <= j < v@.len() ==> (#[trigger] v@[j]).0 == s0[j].0);
                }
                lemma_amap_index(s0, i as int);
                assert(forall|k: BlockId|
                    #[trigger] amap(v@).dom().contains(k) <==> amap(s0).dom().contains(k) || k
                        == id);
            }
            return ;
        }
        i += 1;
    }
    v.push((id, val));
    proof {
        lemma_amap_push(s0, id, val);
        assert(keys_unique(v@)) by {
            assert(forall|x: int, y: int|
                0 <= x < y < v@.len() ==> (#[trigger] v@[x]).0 != (#[trigger] v@[y]).0) by {
                assert(forall|x: int| 0 <= x < s0.len() ==> v@[x] == s0[x]);
                assert(v@[v@.len() - 1].0 == id);
            }
        }
    }
}

/// Updating the value at an index updates the map view at that entry's key.
pub proof fn lemma_amap_update<V>(s: Seq<(BlockId, V)>, i: int, val: V)
    requires
        keys_unique(s),
        0 <= i < s.len(),
    ensures
        amap(s.update(i, (s[i].0, val))) == amap(s).insert(s[i].0, val),
    decreases s.len(),
{
    let t = s.update(i, (s[i].0, val));
    if i == s.len() - 1 {
        assert(t.drop_last() =~= s.drop_last());
        assert(t.last() == (s[i].0, val));
    } else {
        assert(keys_unique(s.drop_last())) by {
            assert(forall|x: int, y: int|
                0 <= x < y < s.len() - 1 ==> (#[trigger] s[x]).0 != (#[trigger] s[y]).0);
        }
        lemma_amap_update(s.drop_last(), i, val);
        assert(t.drop_last() =~= s.drop_last().update(i, (s[i].0, val)));
        assert(t.last() == s.last());
        assert(s[i].0 != s.last().0);
        assert(amap(t) =~= amap(s).insert(s[i].0, val));
    }
}

/// Ids of a vector are pairwise distinct.
pub open spec fn ids_unique(s: Seq<BlockId>) -> bool {
    forall|i: int, j: int| 0 <= i < j < s.len() ==> s[i] != s[j]
}

/// Whether an id occurs in a vector.
pub fn idvec_contains(v: &Vec<BlockId>, id: BlockId) -> (r: bool)
    ensures
        r == v@.contains(id),
{
    let mut i: usize = 0;
    while i < v.len()
        invariant
            0 <= i <= v.len(),
            forall|j: int| 0 <= j < i ==> v@[j] != id,
        decreases v.len() - i,
    {
        if v[i] == id {
            return true;
        }
        i += 1;
    }
    false
}

/// Insert an id unless already present.
pub fn idvec_insert(v: &mut Vec<BlockId>, id: BlockId)
    requires
        ids_unique(old(v)@),
    ensures
        ids_unique(final(v)@),
        forall|k: BlockId| final(v)@.contains(k) <==> old(v)@.contains(k) || k == id,
{
    let ghost s0 = v@;
    if !idvec_contains(v, id) {
        v.push(id);
        proof {
            assert(forall|k: BlockId| v@.contains(k) <==> s0.contains(k) || k == id) by {
                assert(forall|j: int| 0 <= j < s0.len() ==> v@[j] == s0[j]);
                assert(v@[v@.len() - 1] == id);
                assert(forall|k: BlockId| s0.contains(k) ==> v@.contains(k)) by {
                    assert(forall|j: int| 0 <= j < s0.len() ==> v@[j] == s0[j]);
                }
            }
        }
    }
}

} // verus!
