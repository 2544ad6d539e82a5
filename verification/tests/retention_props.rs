use block_graph_core::ids::{BlockId, Slot};
use block_graph_core::state::{GraphConfig, GraphState};
use block_graph_core::status::{ActiveBlock, BlockStatus, GraphError};
use block_graph_core::store::{Block, BlockHeader};

fn cfg2(ovp: u64) -> GraphConfig {
    GraphConfig {
        thread_count: 2,
        t0_millis: 32,
        genesis_timestamp_millis: 0,
        operation_validity_periods: ovp,
    }
}

fn genesis_pairs() -> Vec<(BlockId, u64)> {
    vec![(BlockId(1), 0), (BlockId(2), 0)]
}

fn push_active(s: &mut GraphState, id: BlockId, slot: Slot, parents: Vec<(BlockId, u64)>, is_final: bool) {
    let ab = ActiveBlock {
        slot,
        creator: 7,
        parents: parents.clone(),
        children: vec![Vec::new(), Vec::new()],
        is_final,
    };
    s.block_statuses.push((id, BlockStatus::Active { a_block: ab }));
    s.storage.insert(id, Block { header: BlockHeader { slot, creator: 7, parents } });
    s.active_index.push(id);
    if !is_final {
        s.max_cliques[0].block_ids.push(id);
        s.max_cliques[0].fitness += 1;
        s.best_parents[slot.thread as usize] = (id, slot.period);
    } else {
        s.latest_final_blocks_periods[slot.thread as usize] = (id, slot.period);
    }
}

/// A chain of finals in thread 0: genesis <- 20 <- 21 <- 22 (latest final),
/// plus a non-final tip 30.
fn chain_state(ovp: u64) -> GraphState {
    let mut s = GraphState::new(cfg2(ovp), &genesis_pairs());
    push_active(&mut s, BlockId(20), Slot { thread: 0, period: 1 },
        vec![(BlockId(1), 0), (BlockId(2), 0)], true);
    push_active(&mut s, BlockId(21), Slot { thread: 0, period: 2 },
        vec![(BlockId(20), 1), (BlockId(2), 0)], true);
    push_active(&mut s, BlockId(22), Slot { thread: 0, period: 3 },
        vec![(BlockId(21), 2), (BlockId(2), 0)], true);
    push_active(&mut s, BlockId(30), Slot { thread: 0, period: 4 },
        vec![(BlockId(22), 3), (BlockId(2), 0)], false);
    s
}

#[test]
fn retention_is_idempotent_without_mutation() {
    let s = chain_state(2);
    let mut r1 = s.list_required_active_blocks().unwrap();
    let mut r2 = s.list_required_active_blocks().unwrap();
    r1.sort_by_key(|b| b.0);
    r2.sort_by_key(|b| b.0);
    assert_eq!(r1, r2);
}

#[test]
fn parents_of_nonfinal_retained_blocks_are_retained() {
    let s = chain_state(2);
    let r = s.list_required_active_blocks().unwrap();
    for id in &r {
        if let Some(entry) = s.block_statuses.iter().find(|e| e.0 == *id) {
            if let BlockStatus::Active { a_block } = &entry.1 {
                if !a_block.is_final {
                    for (pid, _) in &a_block.parents {
                        assert!(r.contains(pid), "parent of a non-final retained block missing");
                    }
                }
            }
        }
    }
}

#[test]
fn zero_validity_window_still_keeps_the_floor() {
    let s = chain_state(0);
    let r = s.list_required_active_blocks().unwrap();
    // Non-final actives.
    assert!(r.contains(&BlockId(30)));
    // Best parents and latest finals.
    for t in 0..2usize {
        assert!(r.contains(&s.best_parents[t].0));
        assert!(r.contains(&s.latest_final_blocks_periods[t].0));
    }
    // Parents of the non-final tip.
    assert!(r.contains(&BlockId(22)));
    assert!(r.contains(&BlockId(2)));
}

#[test]
fn unbounded_validity_window_keeps_the_whole_final_chain() {
    let s = chain_state(u64::MAX);
    let r = s.list_required_active_blocks().unwrap();
    for id in [BlockId(1), BlockId(2), BlockId(20), BlockId(21), BlockId(22), BlockId(30)] {
        assert!(r.contains(&id), "chain block dropped under unbounded window");
    }
}

#[test]
fn closure_passes_pull_in_parents_of_window_blocks() {
    // With OVP = 0 the finality window itself only reaches back to period 2,
    // but the closure passes add the parents of every kept block and refill
    // each thread down to the earliest retained period.
    let s = chain_state(0);
    let r = s.list_required_active_blocks().unwrap();
    assert!(r.contains(&BlockId(22)));
    assert!(r.contains(&BlockId(21)));
    assert!(r.contains(&BlockId(20)));
    assert!(r.contains(&BlockId(1)));
}

#[test]
fn missing_parent_is_a_container_inconsistency() {
    let mut s = chain_state(2);
    // The tip claims a parent that the status table has never seen.
    let ghostly = BlockId(77);
    push_active(&mut s, BlockId(31), Slot { thread: 0, period: 5 },
        vec![(ghostly, 4), (BlockId(2), 0)], false);
    match s.list_required_active_blocks() {
        Err(GraphError::ContainerInconsistency(id)) => assert_eq!(id, ghostly),
        other => panic!("expected a container inconsistency, got {:?}", other),
    }
}
