//! The retention planner: which active blocks must be kept when pruning.

use vstd::prelude::*;

use crate::alist::{ids_unique, idvec_insert};
use crate::ids::BlockId;
use crate::state::GraphState;
use crate::status::GraphError;

verus! {

impl GraphState {
    /// `id` is one of the chosen best parents.
    pub open spec fn in_best_parents(self, id: BlockId) -> bool {
        exists|t: int|
            0 <= t < self.best_parents@.len() && (#[trigger] self.best_parents@[t]).0 == id
    }

    /// `id` is one of the latest final blocks.
    pub open spec fn in_latest_finals(self, id: BlockId) -> bool {
        exists|t: int|
            0 <= t < self.latest_final_blocks_periods@.len() && (
            #[trigger] self.latest_final_blocks_periods@[t]).0 == id
    }

    /// An active block is seeded when it is non-final, a best parent, or a
    /// latest final block.
    pub open spec fn seed_qualifies(self, id: BlockId) -> bool {
        self.is_active(id) && (!self.active_of(id).is_final || self.in_best_parents(id)
            || self.in_latest_finals(id))
    }

    /// `pid` is recorded as a parent of the active block `id`.
    pub open spec fn is_parent_of(self, pid: BlockId, id: BlockId) -> bool {
        self.is_active(id) && exists|t: int|
            0 <= t < self.active_of(id).parents@.len() && (#[trigger] self.active_of(
                id,
            ).parents@[t]).0 == pid
    }

    /// The seed of the retention set: qualifying actives, their parents, the
    /// best parents and the latest final blocks.
    pub open spec fn seed_set(self) -> Set<BlockId> {
        Set::new(
            |x: BlockId|
                self.seed_qualifies(x) || (exists|id: BlockId|
                    #[trigger] self.seed_qualifies(id) && self.is_parent_of(x, id))
                    || self.in_best_parents(x) || self.in_latest_finals(x),
        )
    }

    /// Fuel that surely outlasts a backward parent walk from `id`.
    pub open spec fn chain_fuel(self, id: BlockId) -> nat {
        if self.is_active(id) {
            (self.active_of(id).slot.period + 1) as nat
        } else {
            1
        }
    }

    /// Backward walk along thread-`thread` parents from `id`, inserting each
    /// traversed active block and stopping after the first block whose period
    /// falls below `stop` (that block is still kept), at a genesis block, or
    /// at a missing block.
    pub open spec fn walk_chain(
        self,
        id: BlockId,
        thread: int,
        stop: u64,
        fuel: nat,
    ) -> Set<BlockId>
        decreases fuel,
    {
        if fuel == 0 {
            Set::empty()
        } else if !self.is_active(id) {
            Set::empty()
        } else {
            let ab = self.active_of(id);
            let here = Set::empty().insert(id);
            if ab.slot.period < stop {
                here
            } else if ab.parents@.len() == 0 {
                here
            } else {
                here.union(self.walk_chain(ab.parents@[thread].0, thread, stop, (fuel - 1) as nat))
            }
        }
    }

    /// The finality-window chain from `id` backward in `thread`.
    pub open spec fn thread_chain(self, id: BlockId, thread: int, stop: u64) -> Set<BlockId> {
        self.walk_chain(id, thread, stop, self.chain_fuel(id))
    }

    /// Backward walk that stops just before a block whose period falls below
    /// `stop` (that block is not kept).
    pub open spec fn fill_walk(self, id: BlockId, thread: int, stop: u64, fuel: nat) -> Set<
        BlockId,
    >
        decreases fuel,
    {
        if fuel == 0 {
            Set::empty()
        } else if !self.is_active(id) {
            Set::empty()
        } else {
            let ab = self.active_of(id);
            if ab.slot.period < stop {
                Set::empty()
            } else {
                let here = Set::empty().insert(id);
                if ab.parents@.len() == 0 {
                    here
                } else {
                    here.union(
                        self.fill_walk(ab.parents@[thread].0, thread, stop, (fuel - 1) as nat),
                    )
                }
            }
        }
    }

    /// The fill chain from `id` backward in `thread`.
    pub open spec fn fill_chain(self, id: BlockId, thread: int, stop: u64) -> Set<BlockId> {
        self.fill_walk(id, thread, stop, self.chain_fuel(id))
    }

    /// Any fuel beyond the walk's own period bound gives the same chain.
    proof fn lemma_walk_fuel(self, id: BlockId, thread: int, stop: u64, f1: nat, f2: nat)
        requires
            self.inv(),
            0 <= thread < self.thread_count(),
            self.is_active(id) ==> self.active_of(id).slot.thread == thread,
            f1 >= self.chain_fuel(id),
            f2 >= self.chain_fuel(id),
        ensures
            self.walk_chain(id, thread, stop, f1) == self.walk_chain(id, thread, stop, f2),
            self.fill_walk(id, thread, stop, f1) == self.fill_walk(id, thread, stop, f2),
        decreases self.chain_fuel(id),
    {
        if self.is_active(id) {
            let ab = self.active_of(id);
            if ab.slot.period >= stop && ab.parents@.len() != 0 {
                let pid = ab.parents@[thread].0;
                assert(ab.parents@.len() == self.thread_count());
                assert(self.is_active(pid) ==> self.active_of(pid).slot.thread == thread
                    && self.active_of(pid).slot.period == ab.parents@[thread].1);
                assert(thread == ab.slot.thread as int ==> ab.parents@[thread].1
                    < ab.slot.period);
                assert(self.chain_fuel(pid) < self.chain_fuel(id));
                self.lemma_walk_fuel(pid, thread, stop, (f1 - 1) as nat, (f2 - 1) as nat);
                assert(self.walk_chain(id, thread, stop, f1) =~= self.walk_chain(
                    id,
                    thread,
                    stop,
                    f2,
                ));
                assert(self.fill_walk(id, thread, stop, f1) =~= self.fill_walk(
                    id,
                    thread,
                    stop,
                    f2,
                ));
            }
        }
    }

    /// One unfolding of `thread_chain` at an active, continuing block.
    proof fn lemma_thread_chain_step(self, id: BlockId, thread: int, stop: u64)
        requires
            self.inv(),
            0 <= thread < self.thread_count(),
            self.is_active(id),
            self.active_of(id).slot.thread == thread,
            self.active_of(id).slot.period >= stop,
            self.active_of(id).parents@.len() != 0,
        ensures
            self.thread_chain(id, thread, stop) == Set::empty().insert(id).union(
                self.thread_chain(self.active_of(id).parents@[thread].0, thread, stop),
            ),
    {
        let ab = self.active_of(id);
        let pid = ab.parents@[thread].0;
        assert(self.chain_fuel(pid) <= (self.chain_fuel(id) - 1) as nat);
        self.lemma_walk_fuel(
            pid,
            thread,
            stop,
            (self.chain_fuel(id) - 1) as nat,
            self.chain_fuel(pid),
        );
    }

    /// One unfolding of `fill_chain` at an active, continuing block.
    proof fn lemma_fill_chain_step(self, id: BlockId, thread: int, stop: u64)
        requires
            self.inv(),
            0 <= thread < self.thread_count(),
            self.is_active(id),
            self.active_of(id).slot.thread == thread,
            self.active_of(id).slot.period >= stop,
            self.active_of(id).parents@.len() != 0,
        ensures
            self.fill_chain(id, thread, stop) == Set::empty().insert(id).union(
                self.fill_chain(self.active_of(id).parents@[thread].0, thread, stop),
            ),
    {
        let ab = self.active_of(id);
        let pid = ab.parents@[thread].0;
        assert(self.chain_fuel(pid) <= (self.chain_fuel(id) - 1) as nat);
        self.lemma_walk_fuel(
            pid,
            thread,
            stop,
            (self.chain_fuel(id) - 1) as nat,
            self.chain_fuel(pid),
        );
    }

    /// A set together with the recorded parents of its active members.
    pub open spec fn with_parents(self, r: Set<BlockId>) -> Set<BlockId> {
        r.union(
            Set::new(
                |x: BlockId|
                    exists|id: BlockId| #[trigger] r.contains(id) && self.is_parent_of(x, id),
            ),
        )
    }

    /// Every member of the set is an active block.
    pub open spec fn all_active(self, r: Set<BlockId>) -> bool {
        forall|x: BlockId| #[trigger] r.contains(x) ==> self.is_active(x)
    }

    /// Period below which the finality window of thread `t` ends.
    pub open spec fn stop_of(self, t: int) -> u64 {
        let p = self.latest_final_blocks_periods@[t].1;
        if p >= self.config.operation_validity_periods {
            (p - self.config.operation_validity_periods) as u64
        } else {
            0
        }
    }

    /// Union of the per-thread finality-window chains.
    pub open spec fn windows_set(self) -> Set<BlockId> {
        Set::new(
            |x: BlockId|
                exists|t: int|
                    0 <= t < self.thread_count() && (#[trigger] self.thread_chain(
                        self.latest_final_blocks_periods@[t].0,
                        t,
                        self.stop_of(t),
                    )).contains(x),
        )
    }

    /// The retention set before the closure passes.
    pub open spec fn stage_one(self) -> Set<BlockId> {
        self.seed_set().union(self.windows_set())
    }

    /// `v` is the earliest retained period of thread `t` over the members of
    /// `r`, starting from the latest final period of `t`.
    pub open spec fn earliest_ok(self, r: Set<BlockId>, t: int, v: u64) -> bool {
        let init = self.latest_final_blocks_periods@[t].1;
        &&& v <= init
        &&& (forall|id: BlockId|
            #[trigger] r.contains(id) && self.is_active(id) && self.active_of(id).slot.thread as int
                == t ==> v <= self.active_of(id).slot.period)
        &&& (v == init || exists|id: BlockId|
            #[trigger] r.contains(id) && self.is_active(id) && self.active_of(id).slot.thread as int
                == t && self.active_of(id).slot.period == v)
    }

    /// The earliest retained period (unique, by `lemma_earliest_unique`).
    pub open spec fn earliest_of(self, r: Set<BlockId>, t: int) -> u64 {
        choose|v: u64| self.earliest_ok(r, t, v)
    }

    /// At most one value satisfies `earliest_ok`.
    pub proof fn lemma_earliest_unique(self, r: Set<BlockId>, t: int, v1: u64, v2: u64)
        requires
            self.earliest_ok(r, t, v1),
            self.earliest_ok(r, t, v2),
        ensures
            v1 == v2,
    {
        let init = self.latest_final_blocks_periods@[t].1;
        if v1 < v2 {
            assert(v1 != init);
            let id = choose|id: BlockId|
                #[trigger] r.contains(id) && self.is_active(id) && self.active_of(
                    id,
                ).slot.thread as int == t && self.active_of(id).slot.period == v1;
            assert(v2 <= self.active_of(id).slot.period);
            assert(false);
        }
        if v2 < v1 {
            assert(v2 != init);
            let id = choose|id: BlockId|
                #[trigger] r.contains(id) && self.is_active(id) && self.active_of(
                    id,
                ).slot.thread as int == t && self.active_of(id).slot.period == v2;
            assert(v1 <= self.active_of(id).slot.period);
            assert(false);
        }
    }

    /// Union of the per-thread fill chains down to the earliest retained
    /// periods of `r`.
    pub open spec fn fills_set(self, r: Set<BlockId>) -> Set<BlockId> {
        Set::new(
            |x: BlockId|
                exists|t: int|
                    0 <= t < self.thread_count() && (#[trigger] self.fill_chain(
                        self.latest_final_blocks_periods@[t].0,
                        t,
                        self.earliest_of(r, t),
                    )).contains(x),
        )
    }

    /// One closure pass: grow with parents, then fill each thread from its
    /// latest final block down to the earliest retained period.
    pub open spec fn pass_set(self, r: Set<BlockId>) -> Set<BlockId> {
        let wp = self.with_parents(r);
        wp.union(self.fills_set(wp))
    }

    /// The retention set: the seed and finality windows, closed by exactly
    /// two passes.
    pub open spec fn required_set(self) -> Set<BlockId> {
        self.pass_set(self.pass_set(self.stage_one()))
    }

    /// The planner succeeds exactly when every block reached by either pass
    /// is active.
    pub open spec fn required_ok(self) -> bool {
        &&& self.all_active(self.with_parents(self.stage_one()))
        &&& self.all_active(self.with_parents(self.pass_set(self.stage_one())))
    }

    /// Walk the finality window of one thread, inserting the traversed
    /// blocks.
    fn walk_retain(&self, cursor: BlockId, thread: usize, stop: u64, out: &mut Vec<BlockId>)
        requires
            self.inv(),
            thread < self.thread_count(),
            ids_unique(old(out)@),
            self.is_active(cursor) ==> self.active_of(cursor).slot.thread == thread,
        ensures
            ids_unique(final(out)@),
            forall|x: BlockId|
                final(out)@.contains(x) <==> old(out)@.contains(x) || self.thread_chain(
                    cursor,
                    thread as int,
                    stop,
                ).contains(x),
        decreases self.chain_fuel(cursor),
    {
        match self.get_full_active_block(&cursor) {
            None => {},
            Some(cb) => {
                idvec_insert(out, cursor);
                if cb.slot.period >= stop && cb.parents.len() > 0 {
                    let parent = cb.parents[thread].0;
                    proof {
                        assert(self.chain_fuel(parent) < self.chain_fuel(cursor));
                        self.lemma_thread_chain_step(cursor, thread as int, stop);
                    }
                    self.walk_retain(parent, thread, stop, out);
                }
            },
        }
    }

    /// Walk one thread back from its latest final block down to the earliest
    /// retained period, inserting the traversed blocks.
    fn fill_retain(&self, cursor: BlockId, thread: usize, stop: u64, out: &mut Vec<BlockId>)
        requires
            self.inv(),
            thread < self.thread_count(),
            ids_unique(old(out)@),
            self.is_active(cursor) ==> self.active_of(cursor).slot.thread == thread,
        ensures
            ids_unique(final(out)@),
            forall|x: BlockId|
                final(out)@.contains(x) <==> old(out)@.contains(x) || self.fill_chain(
                    cursor,
                    thread as int,
                    stop,
                ).contains(x),
        decreases self.chain_fuel(cursor),
    {
        match self.get_full_active_block(&cursor) {
            None => {},
            Some(cb) => {
                if cb.slot.period >= stop {
                    idvec_insert(out, cursor);
                    if cb.parents.len() > 0 {
                        let parent = cb.parents[thread].0;
                        proof {
                            assert(self.chain_fuel(parent) < self.chain_fuel(cursor));
                            self.lemma_fill_chain_step(cursor, thread as int, stop);
                        }
                        self.fill_retain(parent, thread, stop, out);
                    }
                }
            },
        }
    }

    /// Whether `id` is among the best parents.
    fn scan_best_parents(&self, id: BlockId) -> (r: bool)
        ensures
            r == self.in_best_parents(id),
    {
        let mut t: usize = 0;
        while t < self.best_parents.len()
            invariant
                0 <= t <= self.best_parents@.len(),
                forall|j: int| 0 <= j < t ==> (#[trigger] self.best_parents@[j]).0 != id,
            decreases self.best_parents@.len() - t,
        {
            if self.best_parents[t].0 == id {
                return true;
            }
            t += 1;
        }
        false
    }

    /// Whether `id` is among the latest final blocks.
    fn scan_latest_finals(&self, id: BlockId) -> (r: bool)
        ensures
            r == self.in_latest_finals(id),
    {
        let mut t: usize = 0;
        while t < self.latest_final_blocks_periods.len()
            invariant
                0 <= t <= self.latest_final_blocks_periods@.len(),
                forall|j: int|
                    0 <= j < t ==> (#[trigger] self.latest_final_blocks_periods@[j]).0 != id,
            decreases self.latest_final_blocks_periods@.len() - t,
        {
            if self.latest_final_blocks_periods[t].0 == id {
                return true;
            }
            t += 1;
        }
        false
    }


    /// One closure pass over the retention set.
    fn retention_pass(&self, retain: &mut Vec<BlockId>) -> (r: Result<(), GraphError>)
        requires
            self.inv(),
            ids_unique(old(retain)@),
        ensures
            ids_unique(final(retain)@),
            match r {
                Ok(_) => {
                    &&& self.all_active(self.with_parents(old(retain)@.to_set()))
                    &&& forall|x: BlockId|
                        final(retain)@.contains(x) ==> self.pass_set(
                            old(retain)@.to_set(),
                        ).contains(x)
                    &&& forall|x: BlockId|
                        self.pass_set(old(retain)@.to_set()).contains(x) ==> final(retain)@.contains(x)
                },
                Err(e) => {
                    &&& !self.all_active(self.with_parents(old(retain)@.to_set()))
                    &&& e matches GraphError::ContainerInconsistency(id) && !self.is_active(id)
                },
            },
    {
        let ghost r0 = old(retain)@.to_set();
        // Retain the parents of the selected blocks.
        let snapshot = retain.clone();
        proof {
            assert(snapshot@ == retain@);
        }
        let mut i: usize = 0;
        while i < snapshot.len()
            invariant
                self.inv(),
                r0 == old(retain)@.to_set(),
                snapshot@.to_set() == r0,
                ids_unique(retain@),
                0 <= i <= snapshot@.len(),
                forall|j: int| 0 <= j < i ==> self.is_active(#[trigger] snapshot@[j]),
                forall|x: BlockId|
                    retain@.contains(x) ==> r0.contains(x) || (exists|j: int|
                        0 <= j < i && self.is_parent_of(x, #[trigger] snapshot@[j])),
                forall|x: BlockId| r0.contains(x) ==> retain@.contains(x),
                forall|j: int, x: BlockId|
                    0 <= j < i && #[trigger] self.is_parent_of(x, snapshot@[j])
                        ==> retain@.contains(x),
            decreases snapshot@.len() - i,
        {
            let h = snapshot[i];
            proof {
                assert(snapshot@.to_set().contains(snapshot@[i as int]));
            }
            match self.get_full_active_block(&h) {
                None => {
                    proof {
                        assert(r0.contains(h));
                        assert(self.with_parents(r0).contains(h));
                    }
                    return Err(GraphError::ContainerInconsistency(h));
                },
                Some(ab) => {
                    let ghost before = retain@;
                    let mut t: usize = 0;
                    while t < ab.parents.len()
                        invariant
                            self.inv(),
                            self.is_active(h),
                            *ab == self.active_of(h),
                            ids_unique(retain@),
                            0 <= t <= ab.parents@.len(),
                            forall|x: BlockId|
                                retain@.contains(x) ==> before.contains(x) || (exists|u: int|
                                    0 <= u < t && (#[trigger] ab.parents@[u]).0 == x),
                            forall|x: BlockId| before.contains(x) ==> retain@.contains(x),
                            forall|u: int|
                                0 <= u < t ==> retain@.contains((#[trigger] ab.parents@[u]).0),
                        decreases ab.parents@.len() - t,
                    {
                        idvec_insert(retain, ab.parents[t].0);
                        t += 1;
                    }
                    proof {
                        assert forall|x: BlockId|
                            retain@.contains(x) implies before.contains(x) || self.is_parent_of(
                            x,
                            h,
                        ) by {
                            if !before.contains(x) {
                                let u = choose|u: int|
                                    0 <= u < ab.parents@.len() && (#[trigger] ab.parents@[u]).0
                                        == x;
                                assert(self.active_of(h).parents@[u].0 == x);
                            }
                        }
                        assert forall|x: BlockId| self.is_parent_of(x, h) implies retain@.contains(
                            x,
                        ) by {
                            let u = choose|u: int|
                                0 <= u < self.active_of(h).parents@.len() && (
                                #[trigger] self.active_of(h).parents@[u]).0 == x;
                            assert(retain@.contains(ab.parents@[u].0));
                        }
                    }
                },
            }
            i += 1;
        }
        let ghost wp = self.with_parents(r0);
        proof {
            assert(forall|x: BlockId| r0.contains(x) ==> self.is_active(x)) by {
                assert(forall|j: int|
                    0 <= j < snapshot@.len() ==> self.is_active(#[trigger] snapshot@[j]));
            }
            assert forall|x: BlockId| retain@.contains(x) implies wp.contains(x) by {
                if !r0.contains(x) {
                    let j = choose|j: int|
                        0 <= j < snapshot@.len() && self.is_parent_of(x, #[trigger] snapshot@[j]);
                    assert(r0.contains(snapshot@[j]));
                    assert(exists|id: BlockId|
                        #[trigger] r0.contains(id) && self.is_parent_of(x, id));
                }
            }
            assert forall|x: BlockId| wp.contains(x) implies retain@.contains(x) by {
                if !r0.contains(x) {
                    let id = choose|id: BlockId|
                        #[trigger] r0.contains(id) && self.is_parent_of(x, id);
                    let j = choose|j: int| 0 <= j < snapshot@.len() && snapshot@[j] == id;
                    assert(self.is_parent_of(x, snapshot@[j]));
                }
            }
        }
        // Find the earliest kept period in each thread; every member must be
        // active.
        let mut earliest: Vec<u64> = Vec::new();
        let mut t: usize = 0;
        while t < self.latest_final_blocks_periods.len()
            invariant
                0 <= t <= self.latest_final_blocks_periods@.len(),
                earliest@.len() == t,
                forall|j: int|
                    0 <= j < t ==> earliest@[j] == self.latest_final_blocks_periods@[j].1,
            decreases self.latest_final_blocks_periods@.len() - t,
        {
            earliest.push(self.latest_final_blocks_periods[t].1);
            t += 1;
        }
        let mut k: usize = 0;
        while k < retain.len()
            invariant
                self.inv(),
                r0 == old(retain)@.to_set(),
                wp == self.with_parents(r0),
                ids_unique(retain@),
                forall|x: BlockId| retain@.contains(x) ==> wp.contains(x),
                forall|x: BlockId| wp.contains(x) ==> retain@.contains(x),
                0 <= k <= retain@.len(),
                earliest@.len() == self.thread_count(),
                forall|j: int| 0 <= j < k ==> self.is_active(#[trigger] retain@[j]),
                forall|tt: int|
                    0 <= tt < self.thread_count() ==> (#[trigger] earliest@[tt])
                        <= self.latest_final_blocks_periods@[tt].1,
                forall|j: int, tt: int|
                    0 <= j < k && 0 <= tt < self.thread_count() && self.active_of(
                        #[trigger] retain@[j],
                    ).slot.thread as int == tt ==> (#[trigger] earliest@[tt]) <= self.active_of(
                        retain@[j],
                    ).slot.period,
                forall|tt: int|
                    0 <= tt < self.thread_count() ==> ((#[trigger] earliest@[tt])
                        == self.latest_final_blocks_periods@[tt].1 || exists|j: int|
                        0 <= j < k && self.is_active(#[trigger] retain@[j]) && self.active_of(
                            retain@[j],
                        ).slot.thread as int == tt && self.active_of(retain@[j]).slot.period
                            == earliest@[tt]),
            decreases retain@.len() - k,
        {
            let h = retain[k];
            match self.get_full_active_block(&h) {
                None => {
                    proof {
                        assert(retain@.contains(retain@[k as int]));
                        assert(wp.contains(h));
                    }
                    return Err(GraphError::ContainerInconsistency(h));
                },
                Some(ab) => {
                    let th = ab.slot.thread as usize;
                    proof {
                        assert(retain@.contains(retain@[k as int]));
                        assert(self.is_active(h) && self.active_of(h).slot.thread
                            < self.thread_count());
                    }
                    if ab.slot.period < earliest[th] {
                        earliest[th] = ab.slot.period;
                    }
                },
            }
            k += 1;
        }
        proof {
            assert forall|x: BlockId| wp.contains(x) implies self.is_active(x) by {
                assert(retain@.contains(x));
                let j = choose|j: int| 0 <= j < retain@.len() && retain@[j] == x;
                assert(self.is_active(retain@[j]));
            }
            assert forall|tt: int| 0 <= tt < self.thread_count() implies self.earliest_ok(
                wp,
                tt,
                #[trigger] earliest@[tt],
            ) by {
                assert forall|id: BlockId|
                    wp.contains(id) && self.is_active(id) && self.active_of(id).slot.thread as int
                        == tt implies earliest@[tt] <= self.active_of(id).slot.period by {
                    assert(retain@.contains(id));
                    let j = choose|j: int| 0 <= j < retain@.len() && retain@[j] == id;
                    assert(self.active_of(retain@[j]).slot.thread as int == tt);
                }
                if earliest@[tt] != self.latest_final_blocks_periods@[tt].1 {
                    let j = choose|j: int|
                        0 <= j < retain@.len() && self.is_active(#[trigger] retain@[j])
                            && self.active_of(retain@[j]).slot.thread as int == tt
                            && self.active_of(retain@[j]).slot.period == earliest@[tt];
                    assert(retain@.contains(retain@[j]));
                    assert(wp.contains(retain@[j]));
                }
            }
            assert forall|tt: int| 0 <= tt < self.thread_count() implies (#[trigger] earliest@[tt])
                == self.earliest_of(wp, tt) by {
                assert(self.earliest_ok(wp, tt, earliest@[tt]));
                assert(exists|v: u64| self.earliest_ok(wp, tt, v));
                self.lemma_earliest_unique(wp, tt, earliest@[tt], self.earliest_of(wp, tt));
            }
        }
        // Fill up from the latest final block back to the earliest kept
        // period in each thread.
        let tc = self.config.thread_count as usize;
        let mut ft: usize = 0;
        while ft < tc
            invariant
                self.inv(),
                r0 == old(retain)@.to_set(),
                wp == self.with_parents(r0),
                tc == self.thread_count(),
                ids_unique(retain@),
                earliest@.len() == self.thread_count(),
                forall|tt: int|
                    0 <= tt < self.thread_count() ==> (#[trigger] earliest@[tt])
                        == self.earliest_of(wp, tt),
                0 <= ft <= tc,
                forall|x: BlockId|
                    retain@.contains(x) ==> wp.contains(x) || (exists|tt: int|
                        0 <= tt < ft && (#[trigger] self.fill_chain(
                            self.latest_final_blocks_periods@[tt].0,
                            tt,
                            self.earliest_of(wp, tt),
                        )).contains(x)),
                forall|x: BlockId| wp.contains(x) ==> retain@.contains(x),
                forall|tt: int, x: BlockId|
                    0 <= tt < ft && #[trigger] self.fill_chain(
                        self.latest_final_blocks_periods@[tt].0,
                        tt,
                        self.earliest_of(wp, tt),
                    ).contains(x) ==> retain@.contains(x),
            decreases tc - ft,
        {
            let lf = self.latest_final_blocks_periods[ft];
            self.fill_retain(lf.0, ft, earliest[ft], retain);
            ft += 1;
        }
        proof {
            assert forall|x: BlockId| retain@.contains(x) implies self.pass_set(r0).contains(x) by {
                if !wp.contains(x) {
                    let tt = choose|tt: int|
                        0 <= tt < self.thread_count() && (#[trigger] self.fill_chain(
                            self.latest_final_blocks_periods@[tt].0,
                            tt,
                            self.earliest_of(wp, tt),
                        )).contains(x);
                    assert(self.fills_set(wp).contains(x));
                }
            }
            assert forall|x: BlockId| self.pass_set(r0).contains(x) implies retain@.contains(x) by {
                if !wp.contains(x) {
                    assert(self.fills_set(wp).contains(x));
                    let tt = choose|tt: int|
                        0 <= tt < self.thread_count() && (#[trigger] self.fill_chain(
                            self.latest_final_blocks_periods@[tt].0,
                            tt,
                            self.earliest_of(wp, tt),
                        )).contains(x);
                    assert(self.fill_chain(
                        self.latest_final_blocks_periods@[tt].0,
                        tt,
                        self.earliest_of(wp, tt),
                    ).contains(x));
                }
            }
        }
        Ok(())
    }

    /// The set of block ids that must be retained when pruning; every other
    /// active block may be dropped.
    ///
    /// Fails with `ContainerInconsistency` exactly when a block reached by a
    /// closure pass is not active: the graph is corrupt.
    pub fn list_required_active_blocks(&self) -> (r: Result<Vec<BlockId>, GraphError>)
        requires
            self.inv(),
        ensures
            match r {
                Ok(v) => {
                    &&& self.required_ok()
                    &&& ids_unique(v@)
                    &&& forall|x: BlockId| v@.contains(x) ==> self.required_set().contains(x)
                    &&& forall|x: BlockId| self.required_set().contains(x) ==> v@.contains(x)
                },
                Err(e) => {
                    &&& !self.required_ok()
                    &&& e matches GraphError::ContainerInconsistency(id) && !self.is_active(id)
                },
            },
    {
        let mut retain: Vec<BlockId> = Vec::new();

        // Retain all non-final active blocks, the current best parents, the
        // latest final blocks, and the parents of all of those.
        let mut i: usize = 0;
        while i < self.active_index.len()
            invariant
                self.inv(),
                ids_unique(retain@),
                0 <= i <= self.active_index@.len(),
                forall|x: BlockId| retain@.contains(x) ==> self.seed_set().contains(x),
                forall|j: int|
                    0 <= j < i && self.seed_qualifies(#[trigger] self.active_index@[j])
                        ==> retain@.contains(self.active_index@[j]),
                forall|j: int, x: BlockId|
                    0 <= j < i && self.seed_qualifies(self.active_index@[j])
                        && #[trigger] self.is_parent_of(x, self.active_index@[j])
                        ==> retain@.contains(x),
            decreases self.active_index@.len() - i,
        {
            let id = self.active_index[i];
            proof {
                assert(self.active_index@.contains(self.active_index@[i as int]));
            }
            match self.get_full_active_block(&id) {
                None => {
                    proof {
                        assert(false);
                    }
                },
                Some(ab) => {
                    let q = !ab.is_final || self.scan_best_parents(id) || self.scan_latest_finals(
                        id,
                    );
                    proof {
                        assert(q == self.seed_qualifies(id));
                    }
                    if q {
                        let ghost before = retain@;
                        let mut t: usize = 0;
                        while t < ab.parents.len()
                            invariant
                                self.inv(),
                                self.is_active(id),
                                self.seed_qualifies(id),
                                *ab == self.active_of(id),
                                ids_unique(retain@),
                                0 <= t <= ab.parents@.len(),
                                forall|x: BlockId|
                                    retain@.contains(x) ==> self.seed_set().contains(x),
                                forall|x: BlockId| before.contains(x) ==> retain@.contains(x),
                                forall|u: int|
                                    0 <= u < t ==> retain@.contains(
                                        (#[trigger] ab.parents@[u]).0,
                                    ),
                            decreases ab.parents@.len() - t,
                        {
                            proof {
                                assert(self.is_parent_of(ab.parents@[t as int].0, id));
                                assert(self.seed_set().contains(ab.parents@[t as int].0));
                            }
                            idvec_insert(&mut retain, ab.parents[t].0);
                            t += 1;
                        }
                        proof {
                            assert(self.seed_set().contains(id));
                        }
                        idvec_insert(&mut retain, id);
                        proof {
                            assert forall|x: BlockId| self.is_parent_of(
                                x,
                                self.active_index@[i as int],
                            ) implies retain@.contains(x) by {
                                let u = choose|u: int|
                                    0 <= u < self.active_of(id).parents@.len() && (
                                    #[trigger] self.active_of(id).parents@[u]).0 == x;
                                assert(retain@.contains(ab.parents@[u].0));
                            }
                        }
                    }
                },
            }
            i += 1;
        }

        // Retain the best parents and the latest final blocks themselves.
        let mut t: usize = 0;
        while t < self.best_parents.len()
            invariant
                self.inv(),
                ids_unique(retain@),
                0 <= t <= self.best_parents@.len(),
                forall|x: BlockId| retain@.contains(x) ==> self.seed_set().contains(x),
                forall|j: int|
                    0 <= j < self.active_index@.len() && self.seed_qualifies(
                        #[trigger] self.active_index@[j],
                    ) ==> retain@.contains(self.active_index@[j]),
                forall|j: int, x: BlockId|
                    0 <= j < self.active_index@.len() && self.seed_qualifies(
                        self.active_index@[j],
                    ) && #[trigger] self.is_parent_of(x, self.active_index@[j])
                        ==> retain@.contains(x),
                forall|j: int|
                    0 <= j < t ==> retain@.contains((#[trigger] self.best_parents@[j]).0),
            decreases self.best_parents@.len() - t,
        {
            proof {
                assert(self.in_best_parents(self.best_parents@[t as int].0));
                assert(self.seed_set().contains(self.best_parents@[t as int].0));
            }
            idvec_insert(&mut retain, self.best_parents[t].0);
            t += 1;
        }
        let mut t2: usize = 0;
        while t2 < self.latest_final_blocks_periods.len()
            invariant
                self.inv(),
                ids_unique(retain@),
                0 <= t2 <= self.latest_final_blocks_periods@.len(),
                forall|x: BlockId| retain@.contains(x) ==> self.seed_set().contains(x),
                forall|j: int|
                    0 <= j < self.active_index@.len() && self.seed_qualifies(
                        #[trigger] self.active_index@[j],
                    ) ==> retain@.contains(self.active_index@[j]),
                forall|j: int, x: BlockId|
                    0 <= j < self.active_index@.len() && self.seed_qualifies(
                        self.active_index@[j],
                    ) && #[trigger] self.is_parent_of(x, self.active_index@[j])
                        ==> retain@.contains(x),
                forall|j: int|
                    0 <= j < self.best_parents@.len() ==> retain@.contains(
                        (#[trigger] self.best_parents@[j]).0,
                    ),
                forall|j: int|
                    0 <= j < t2 ==> retain@.contains(
                        (#[trigger] self.latest_final_blocks_periods@[j]).0,
                    ),
            decreases self.latest_final_blocks_periods@.len() - t2,
        {
            proof {
                assert(self.in_latest_finals(self.latest_final_blocks_periods@[t2 as int].0));
                assert(self.seed_set().contains(self.latest_final_blocks_periods@[t2 as int].0));
            }
            idvec_insert(&mut retain, self.latest_final_blocks_periods[t2].0);
            t2 += 1;
        }
        proof {
            assert forall|x: BlockId| self.seed_set().contains(x) implies retain@.contains(x) by {
                if self.seed_qualifies(x) {
                    assert(self.active_index@.contains(x));
                    let j = choose|j: int|
                        0 <= j < self.active_index@.len() && self.active_index@[j] == x;
                    assert(retain@.contains(self.active_index@[j]));
                } else if exists|id: BlockId|
                    #[trigger] self.seed_qualifies(id) && self.is_parent_of(x, id) {
                    let id = choose|id: BlockId|
                        #[trigger] self.seed_qualifies(id) && self.is_parent_of(x, id);
                    assert(self.active_index@.contains(id));
                    let j = choose|j: int|
                        0 <= j < self.active_index@.len() && self.active_index@[j] == id;
                    assert(self.is_parent_of(x, self.active_index@[j]));
                } else if self.in_best_parents(x) {
                    let j = choose|j: int|
                        0 <= j < self.best_parents@.len() && (#[trigger] self.best_parents@[j]).0
                            == x;
                    assert(retain@.contains(self.best_parents@[j].0));
                } else {
                    let j = choose|j: int|
                        0 <= j < self.latest_final_blocks_periods@.len() && (
                        #[trigger] self.latest_final_blocks_periods@[j]).0 == x;
                    assert(retain@.contains(self.latest_final_blocks_periods@[j].0));
                }
            }
        }

        // Walk the finality window of each thread.
        let ovp = self.config.operation_validity_periods;
        let tc = self.config.thread_count as usize;
        let mut ft: usize = 0;
        while ft < tc
            invariant
                self.inv(),
                tc == self.thread_count(),
                ids_unique(retain@),
                0 <= ft <= tc,
                ovp == self.config.operation_validity_periods,
                forall|x: BlockId|
                    retain@.contains(x) ==> self.seed_set().contains(x) || (exists|tt: int|
                        0 <= tt < ft && #[trigger] self.thread_chain(
                            self.latest_final_blocks_periods@[tt].0,
                            tt,
                            self.stop_of(tt),
                        ).contains(x)),
                forall|x: BlockId| self.seed_set().contains(x) ==> retain@.contains(x),
                forall|tt: int, x: BlockId|
                    0 <= tt < ft && #[trigger] self.thread_chain(
                        self.latest_final_blocks_periods@[tt].0,
                        tt,
                        self.stop_of(tt),
                    ).contains(x) ==> retain@.contains(x),
            decreases tc - ft,
        {
            let lf = self.latest_final_blocks_periods[ft];
            let stop = if lf.1 >= ovp {
                lf.1 - ovp
            } else {
                0
            };
            proof {
                assert(stop == self.stop_of(ft as int));
            }
            self.walk_retain(lf.0, ft, stop, &mut retain);
            ft += 1;
        }
        proof {
            assert forall|x: BlockId|
                retain@.to_set().contains(x) == self.stage_one().contains(x) by {
                if retain@.to_set().contains(x) {
                    if !self.seed_set().contains(x) {
                        let tt = choose|tt: int|
                            0 <= tt < tc && #[trigger] self.thread_chain(
                                self.latest_final_blocks_periods@[tt].0,
                                tt,
                                self.stop_of(tt),
                            ).contains(x);
                        assert(self.windows_set().contains(x));
                    }
                    assert(self.stage_one().contains(x));
                }
                if self.stage_one().contains(x) {
                    if !self.seed_set().contains(x) {
                        assert(self.windows_set().contains(x));
                        let tt = choose|tt: int|
                            0 <= tt < self.thread_count() && #[trigger] self.thread_chain(
                                self.latest_final_blocks_periods@[tt].0,
                                tt,
                                self.stop_of(tt),
                            ).contains(x);
                        assert(retain@.contains(x));
                    }
                    assert(retain@.contains(x));
                }
            }
            assert(retain@.to_set() =~= self.stage_one());
        }

        // Grow with parents and fill thread holes, exactly twice.
        let ghost s1 = self.stage_one();
        match self.retention_pass(&mut retain) {
            Err(e) => {
                return Err(e);
            },
            Ok(_) => {},
        }
        proof {
            assert(retain@.to_set() =~= self.pass_set(s1)) by {
                assert forall|x: BlockId|
                    retain@.to_set().contains(x) == self.pass_set(s1).contains(x) by {
                    if retain@.to_set().contains(x) {
                        assert(retain@.contains(x));
                    }
                    if self.pass_set(s1).contains(x) {
                        assert(retain@.contains(x));
                    }
                }
            }
        }
        let ghost s2 = self.pass_set(s1);
        match self.retention_pass(&mut retain) {
            Err(e) => {
                return Err(e);
            },
            Ok(_) => {},
        }
        proof {
            assert forall|x: BlockId| retain@.contains(x) implies self.required_set().contains(
                x,
            ) by {}
            assert forall|x: BlockId| self.required_set().contains(x) implies retain@.contains(
                x,
            ) by {}
        }
        Ok(retain)
    }

    /// Everything seeded or swept by a finality window is retained: the
    /// closure passes only grow the set.
    pub proof fn lemma_stage_one_retained(self)
        ensures
            forall|x: BlockId|
                self.stage_one().contains(x) ==> #[trigger] self.required_set().contains(x),
    {
        assert forall|x: BlockId|
            self.stage_one().contains(x) implies #[trigger] self.required_set().contains(x) by {
            assert(self.with_parents(self.stage_one()).contains(x));
            assert(self.pass_set(self.stage_one()).contains(x));
            assert(self.with_parents(self.pass_set(self.stage_one())).contains(x));
        }
    }

    /// Every parent of a non-final active block is retained alongside it: a
    /// non-final active block is always seeded together with its parents.
    pub proof fn lemma_retention_parent_closed(self)
        requires
            self.inv(),
        ensures
            forall|id: BlockId, t: int|
                self.required_set().contains(id) && self.is_active(id) && !(
                #[trigger] self.active_of(id)).is_final && 0 <= t < self.active_of(
                    id,
                ).parents@.len() ==> self.required_set().contains(
                    #[trigger] self.active_of(id).parents@[t].0,
                ),
    {
        self.lemma_stage_one_retained();
        assert forall|id: BlockId, t: int|
            self.required_set().contains(id) && self.is_active(id) && !(
            #[trigger] self.active_of(id)).is_final && 0 <= t < self.active_of(id).parents@.len()
            implies self.required_set().contains(
            #[trigger] self.active_of(id).parents@[t].0,
        ) by {
            assert(self.seed_qualifies(id));
            let x = self.active_of(id).parents@[t].0;
            assert(self.is_parent_of(x, id));
            assert(self.seed_set().contains(x));
            assert(self.stage_one().contains(x));
        }
    }

    /// The planner is idempotent: two computations over one unchanged state
    /// list exactly the same block ids.
    pub proof fn lemma_retention_idempotent(self, r1: Seq<BlockId>, r2: Seq<BlockId>)
        requires
            forall|x: BlockId| r1.contains(x) ==> self.required_set().contains(x),
            forall|x: BlockId| self.required_set().contains(x) ==> r1.contains(x),
            forall|x: BlockId| r2.contains(x) ==> self.required_set().contains(x),
            forall|x: BlockId| self.required_set().contains(x) ==> r2.contains(x),
        ensures
            forall|x: BlockId| r1.contains(x) <==> r2.contains(x),
    {
        assert forall|x: BlockId| r1.contains(x) <==> r2.contains(x) by {
            if r1.contains(x) {
                assert(self.required_set().contains(x));
            }
            if r2.contains(x) {
                assert(self.required_set().contains(x));
            }
        }
    }

    /// With no validity window at all, retention still keeps every non-final
    /// active block, the best parents, the latest final blocks, and the
    /// parents of all of those.
    pub proof fn lemma_retention_floor(self)
        requires
            self.inv(),
            self.config.operation_validity_periods == 0,
        ensures
            forall|id: BlockId|
                self.is_active(id) && !(#[trigger] self.active_of(id)).is_final
                    ==> self.required_set().contains(id),
            forall|t: int|
                0 <= t < self.thread_count() ==> self.required_set().contains(
                    (#[trigger] self.best_parents@[t]).0,
                ),
            forall|t: int|
                0 <= t < self.thread_count() ==> self.required_set().contains(
                    (#[trigger] self.latest_final_blocks_periods@[t]).0,
                ),
            forall|id: BlockId, t: int|
                #[trigger] self.seed_qualifies(id) && 0 <= t < self.active_of(id).parents@.len()
                    ==> self.required_set().contains(#[trigger] self.active_of(id).parents@[t].0),
    {
        self.lemma_stage_one_retained();
        assert forall|id: BlockId|
            self.is_active(id) && !(#[trigger] self.active_of(id)).is_final
            implies self.required_set().contains(id) by {
            assert(self.seed_qualifies(id));
            assert(self.seed_set().contains(id));
            assert(self.stage_one().contains(id));
        }
        assert forall|t: int| 0 <= t < self.thread_count() implies self.required_set().contains(
            (#[trigger] self.best_parents@[t]).0,
        ) by {
            assert(self.in_best_parents(self.best_parents@[t].0));
            assert(self.seed_set().contains(self.best_parents@[t].0));
            assert(self.stage_one().contains(self.best_parents@[t].0));
        }
        assert forall|t: int| 0 <= t < self.thread_count() implies self.required_set().contains(
            (#[trigger] self.latest_final_blocks_periods@[t]).0,
        ) by {
            assert(self.in_latest_finals(self.latest_final_blocks_periods@[t].0));
            assert(self.seed_set().contains(self.latest_final_blocks_periods@[t].0));
            assert(self.stage_one().contains(self.latest_final_blocks_periods@[t].0));
        }
        assert forall|id: BlockId, t: int|
            #[trigger] self.seed_qualifies(id) && 0 <= t < self.active_of(id).parents@.len()
            implies self.required_set().contains(
            #[trigger] self.active_of(id).parents@[t].0,
        ) by {
            let x = self.active_of(id).parents@[t].0;
            assert(self.is_parent_of(x, id));
            assert(self.seed_set().contains(x));
            assert(self.stage_one().contains(x));
        }
    }

    /// With an unbounded validity window, retention keeps every active block
    /// reachable from a latest final block through its thread's parent walk.
    pub proof fn lemma_retention_unbounded(self)
        requires
            self.inv(),
            self.config.operation_validity_periods == u64::MAX,
        ensures
            forall|t: int, x: BlockId|
                0 <= t < self.thread_count() && #[trigger] self.thread_chain(
                    self.latest_final_blocks_periods@[t].0,
                    t,
                    0,
                ).contains(x) ==> self.required_set().contains(x),
    {
        self.lemma_stage_one_retained();
        assert forall|t: int, x: BlockId|
            0 <= t < self.thread_count() && #[trigger] self.thread_chain(
                self.latest_final_blocks_periods@[t].0,
                t,
                0,
            ).contains(x) implies self.required_set().contains(x) by {
            assert(self.stop_of(t) == 0);
            assert(self.windows_set().contains(x));
            assert(self.stage_one().contains(x));
        }
    }
}

} // verus!
