use block_graph_core::ids::{BlockId, Slot};
use block_graph_core::state::{GraphConfig, GraphState};
use block_graph_core::status::{ActiveBlock, BlockGraphStatus, BlockStatus};
use block_graph_core::store::{Block, BlockHeader};

fn cfg2(ovp: u64) -> GraphConfig {
    GraphConfig {
        thread_count: 2,
        t0_millis: 32,
        genesis_timestamp_millis: 0,
        operation_validity_periods: ovp,
    }
}

fn genesis_pairs() -> Vec<(BlockId, u64)> {
    vec![(BlockId(1), 0), (BlockId(2), 0)]
}

fn body(slot: Slot, creator: u64, parents: Vec<(BlockId, u64)>) -> Block {
    Block { header: BlockHeader { slot, creator, parents } }
}

/// Append an active block by hand, keeping every container in step.
fn push_active(s: &mut GraphState, id: BlockId, slot: Slot, parents: Vec<(BlockId, u64)>, in_clique: bool) {
    let ab = ActiveBlock {
        slot,
        creator: 7,
        parents: parents.clone(),
        children: vec![Vec::new(), Vec::new()],
        is_final: false,
    };
    s.block_statuses.push((id, BlockStatus::Active { a_block: ab }));
    s.storage.insert(id, body(slot, 7, parents));
    s.active_index.push(id);
    if in_clique {
        s.max_cliques[0].block_ids.push(id);
        s.max_cliques[0].fitness += 1;
    }
    s.best_parents[slot.thread as usize] = (id, slot.period);
}

fn finalize_by_hand(s: &mut GraphState, id: BlockId) {
    for entry in s.block_statuses.iter_mut() {
        if entry.0 == id {
            if let BlockStatus::Active { a_block } = &mut entry.1 {
                a_block.is_final = true;
                s.latest_final_blocks_periods[a_block.slot.thread as usize] =
                    (id, a_block.slot.period);
            }
        }
    }
}

#[test]
fn genesis_status_is_final() {
    let s = GraphState::new(cfg2(2), &genesis_pairs());
    assert_eq!(s.get_block_status(&BlockId(1)), BlockGraphStatus::Final);
    assert_eq!(s.get_block_status(&BlockId(2)), BlockGraphStatus::Final);
    assert_eq!(s.get_block_status(&BlockId(99)), BlockGraphStatus::NotFound);
}

#[test]
fn genesis_only_retention_lists_both_genesis_blocks() {
    let s = GraphState::new(cfg2(2), &genesis_pairs());
    let r = s.list_required_active_blocks().unwrap();
    let mut ids = r.clone();
    ids.sort_by_key(|b| b.0);
    assert_eq!(ids, vec![BlockId(1), BlockId(2)]);
}

#[test]
fn blockclique_block_at_slot_finds_appended_block() {
    let mut s = GraphState::new(cfg2(2), &genesis_pairs());
    let a = BlockId(10);
    push_active(
        &mut s,
        a,
        Slot { thread: 0, period: 1 },
        vec![(BlockId(1), 0), (BlockId(2), 0)],
        true,
    );
    assert_eq!(s.get_blockclique_block_at_slot(&Slot { thread: 0, period: 1 }), Some(a));
    assert_eq!(s.get_blockclique_block_at_slot(&Slot { thread: 1, period: 3 }), None);
    assert_eq!(s.get_block_status(&a), BlockGraphStatus::ActiveInBlockclique);
}

#[test]
fn latest_blockclique_block_in_thread_zero() {
    let mut s = GraphState::new(cfg2(2), &genesis_pairs());
    let a = BlockId(10);
    let b = BlockId(11);
    push_active(
        &mut s,
        a,
        Slot { thread: 0, period: 1 },
        vec![(BlockId(1), 0), (BlockId(2), 0)],
        true,
    );
    push_active(
        &mut s,
        b,
        Slot { thread: 1, period: 1 },
        vec![(a, 1), (BlockId(2), 0)],
        true,
    );
    assert_eq!(s.get_latest_blockclique_block_at_slot(&Slot { thread: 0, period: 5 }), a);
    assert_eq!(s.get_latest_blockclique_block_at_slot(&Slot { thread: 1, period: 5 }), b);
}

#[test]
fn latest_blockclique_block_at_period_zero_is_latest_final() {
    let mut s = GraphState::new(cfg2(2), &genesis_pairs());
    let a = BlockId(10);
    push_active(
        &mut s,
        a,
        Slot { thread: 0, period: 1 },
        vec![(BlockId(1), 0), (BlockId(2), 0)],
        true,
    );
    // At period 0 nothing can be earlier, so the latest final answers.
    assert_eq!(
        s.get_latest_blockclique_block_at_slot(&Slot { thread: 0, period: 0 }),
        BlockId(1)
    );
    assert_eq!(
        s.get_latest_blockclique_block_at_slot(&Slot { thread: 1, period: 0 }),
        BlockId(2)
    );
}

#[test]
fn retention_after_finalizing_keeps_final_best_parents_and_actives() {
    let mut s = GraphState::new(cfg2(2), &genesis_pairs());
    let a = BlockId(10);
    let b = BlockId(11);
    push_active(
        &mut s,
        a,
        Slot { thread: 0, period: 1 },
        vec![(BlockId(1), 0), (BlockId(2), 0)],
        true,
    );
    push_active(
        &mut s,
        b,
        Slot { thread: 1, period: 1 },
        vec![(a, 1), (BlockId(2), 0)],
        true,
    );
    finalize_by_hand(&mut s, a);
    let r = s.list_required_active_blocks().unwrap();
    assert!(r.contains(&a));
    assert!(r.contains(&b));
    assert!(r.contains(&BlockId(2)));
    assert!(r.contains(&BlockId(1)));
}

#[test]
fn active_index_tracks_active_statuses() {
    let mut s = GraphState::new(cfg2(2), &genesis_pairs());
    // The two genesis blocks are the active blocks, and only they.
    assert_eq!(s.active_index.len(), 2);
    assert!(s.active_index.contains(&BlockId(1)));
    assert!(s.active_index.contains(&BlockId(2)));
    // A lifecycle status does not touch the active index.
    s.register_incoming(BlockId(50), body(Slot { thread: 0, period: 9 }, 3, Vec::new()));
    assert_eq!(s.active_index.len(), 2);
    assert_eq!(s.get_block_status(&BlockId(50)), BlockGraphStatus::Incoming);
}

#[test]
fn gi_head_stays_symmetric() {
    let mut s = GraphState::new(cfg2(2), &genesis_pairs());
    let a = BlockId(10);
    let b = BlockId(11);
    push_active(
        &mut s,
        a,
        Slot { thread: 0, period: 1 },
        vec![(BlockId(1), 0), (BlockId(2), 0)],
        true,
    );
    push_active(
        &mut s,
        b,
        Slot { thread: 0, period: 2 },
        vec![(BlockId(1), 0), (BlockId(2), 0)],
        false,
    );
    // Record the incompatibility in both directions, as the invariant asks.
    s.gi_head.push((a, vec![b]));
    s.gi_head.push((b, vec![a]));
    let has = |x: BlockId, y: BlockId| {
        s.gi_head.iter().any(|(k, v)| *k == x && v.contains(&y))
    };
    assert!(has(a, b) == has(b, a));
}

#[test]
fn exactly_one_blockclique_with_maximal_fitness() {
    let mut s = GraphState::new(cfg2(2), &genesis_pairs());
    let a = BlockId(10);
    push_active(
        &mut s,
        a,
        Slot { thread: 0, period: 1 },
        vec![(BlockId(1), 0), (BlockId(2), 0)],
        true,
    );
    let marked: Vec<&block_graph_core::status::Clique> =
        s.max_cliques.iter().filter(|c| c.is_blockclique).collect();
    assert_eq!(marked.len(), 1);
    let best = marked[0].fitness;
    assert!(s.max_cliques.iter().all(|c| best >= c.fitness));
}

#[test]
fn best_parents_are_blockclique_members_or_latest_finals() {
    let mut s = GraphState::new(cfg2(2), &genesis_pairs());
    let a = BlockId(10);
    push_active(
        &mut s,
        a,
        Slot { thread: 0, period: 1 },
        vec![(BlockId(1), 0), (BlockId(2), 0)],
        true,
    );
    for t in 0..2usize {
        let bp = s.best_parents[t];
        let in_clique = s
            .max_cliques
            .iter()
            .find(|c| c.is_blockclique)
            .unwrap()
            .block_ids
            .contains(&bp.0);
        assert!(in_clique || bp == s.latest_final_blocks_periods[t]);
    }
}

#[test]
fn finalize_raises_latest_final_and_clears_incompatibilities() {
    let mut s = GraphState::new(cfg2(2), &genesis_pairs());
    let a = BlockId(10);
    let c = BlockId(12);
    push_active(
        &mut s,
        a,
        Slot { thread: 0, period: 1 },
        vec![(BlockId(1), 0), (BlockId(2), 0)],
        true,
    );
    // A competitor at the same slot, outside the blockclique, incompatible
    // with `a` (recorded symmetrically).
    push_active(
        &mut s,
        c,
        Slot { thread: 0, period: 1 },
        vec![(BlockId(1), 0), (BlockId(2), 0)],
        false,
    );
    s.best_parents[0] = (a, 1);
    s.max_cliques.push(block_graph_core::status::Clique {
        block_ids: vec![c],
        fitness: 1,
        is_blockclique: false,
    });
    s.gi_head.push((a, vec![c]));
    s.gi_head.push((c, vec![a]));

    s.finalize(a);

    assert_eq!(s.latest_final_blocks_periods[0], (a, 1));
    assert!(s.gi_head.iter().all(|(k, v)| *k != a && !v.contains(&a)));
    assert_eq!(s.get_block_status(&a), BlockGraphStatus::Final);
    // No non-final blockclique member is left in thread 0: the tip falls
    // back to the latest final block.
    assert_eq!(s.best_parents[0], (a, 1));
    assert_eq!(s.best_parents[1], (BlockId(2), 0));
}
