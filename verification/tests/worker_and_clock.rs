use block_graph_core::ids::{BlockId, Slot};
use block_graph_core::state::{GraphConfig, GraphState};
use block_graph_core::status::BlockGraphStatus;
use block_graph_core::store::{Block, BlockHeader};
use block_graph_core::timeslots::{
    get_block_slot_timestamp_millis, get_current_latest_block_slot, get_next_block_slot,
};
use block_graph_core::worker::{
    decide_command, propagation_for_asked_block, propagation_for_created_block,
    propagation_for_received_block, CommandAction, ConsensusCommand, ConsensusConfig,
    ConsensusWorkerCore, NodeId, RandomSelector,
};

#[test]
fn next_slot_increments_thread_then_carries() {
    assert_eq!(get_next_block_slot(2, 0, 5), (1, 5));
    assert_eq!(get_next_block_slot(2, 1, 5), (0, 6));
    assert_eq!(get_next_block_slot(1, 0, 5), (0, 6));
}

#[test]
fn slot_timestamp_formula() {
    // step = 32 / 2 = 16 ms; slot (1, 3) has global index 7.
    assert_eq!(get_block_slot_timestamp_millis(2, 32, 1000, 1, 3), 1000 + 7 * 16);
    assert_eq!(get_block_slot_timestamp_millis(2, 32, 1000, 0, 0), 1000);
}

#[test]
fn current_slot_is_none_before_genesis() {
    assert_eq!(get_current_latest_block_slot(2, 32, 1000, 999), None);
    assert!(get_current_latest_block_slot(2, 32, 1000, 1000).is_some());
}

#[test]
fn current_slot_tracks_elapsed_time() {
    // 35 ms after genesis with a 16 ms step: index 2 = slot (0, 1).
    assert_eq!(get_current_latest_block_slot(2, 32, 1000, 1035), Some((0, 1)));
    assert_eq!(get_current_latest_block_slot(2, 32, 1000, 1016), Some((1, 0)));
}

#[test]
fn selector_is_deterministic_and_in_range() {
    let seed = vec![3u8, 1, 4, 1, 5];
    let sel = RandomSelector::new(&seed, 2, vec![1, 1, 1]);
    let a = sel.draw(0, 42);
    let b = sel.draw(0, 42);
    assert_eq!(a, b);
    assert!(a < 3);
    let sel2 = RandomSelector::new(&seed, 2, vec![1, 1, 1]);
    assert_eq!(sel2.draw(0, 42), a);
}

#[test]
fn single_node_always_draws_itself() {
    let sel = RandomSelector::new(&vec![0u8; 32], 2, vec![1]);
    for p in 0..8u64 {
        assert_eq!(sel.draw(0, p), 0);
        assert_eq!(sel.draw(1, p), 0);
    }
}

#[test]
fn slot_tick_creates_block_when_selector_draws_this_node() {
    let cfg = ConsensusConfig {
        thread_count: 2,
        t0_millis: 32,
        genesis_timestamp_millis: 0,
        current_node_index: 0,
        nodes: vec![NodeId(0)],
    };
    let mut core = ConsensusWorkerCore::new(cfg, 0);
    core.next_slot_thread = 0;
    core.next_slot_number = 2;
    let out = core.on_slot_tick();
    // One participant: the draw is always this node.
    assert_eq!(out.create_block_at, Some((0, 2)));
    assert_eq!((core.next_slot_thread, core.next_slot_number), (1, 2));
    // The rearmed timer points at the next slot's timestamp: index 5, step 16.
    assert_eq!(out.next_timer_millis, 5 * 16);
}

#[test]
fn command_decides_block_creation() {
    let act = decide_command(ConsensusCommand::CreateBlock(String::from("payload")));
    match act {
        CommandAction::CreateBlock(p) => assert_eq!(p, "payload"),
    }
}

#[test]
fn created_block_propagates_everywhere_when_acknowledged() {
    let p = propagation_for_created_block(true).unwrap();
    assert_eq!(p.exclude, None);
    assert_eq!(p.only_to, None);
    assert_eq!(propagation_for_created_block(false), None);
}

#[test]
fn received_block_propagates_excluding_its_source() {
    let src = NodeId(5);
    let p = propagation_for_received_block(src, true).unwrap();
    assert_eq!(p.exclude, Some(src));
    assert_eq!(p.only_to, None);
    assert_eq!(propagation_for_received_block(src, false), None);
}

#[test]
fn asked_block_goes_to_the_asker_only() {
    let asker = NodeId(9);
    let p = propagation_for_asked_block(asker, true).unwrap();
    assert_eq!(p.exclude, None);
    assert_eq!(p.only_to, Some(asker));
    assert_eq!(propagation_for_asked_block(asker, false), None);
}

#[test]
fn received_block_with_missing_parent_waits_and_is_not_propagated() {
    let cfg = GraphConfig {
        thread_count: 2,
        t0_millis: 32,
        genesis_timestamp_millis: 0,
        operation_validity_periods: 2,
    };
    let mut s = GraphState::new(cfg, &vec![(BlockId(1), 0), (BlockId(2), 0)]);
    let x = BlockId(60);
    let missing_parent = BlockId(61);
    let b = Block {
        header: BlockHeader {
            slot: Slot { thread: 0, period: 3 },
            creator: 4,
            parents: vec![(missing_parent, 2), (BlockId(2), 0)],
        },
    };
    s.register_incoming(x, b.clone());
    s.mark_waiting_for_dependencies(x, b, vec![missing_parent]);
    assert_eq!(s.get_block_status(&x), BlockGraphStatus::WaitingForDependencies);
    // The database did not acknowledge it, so nothing is propagated.
    assert_eq!(propagation_for_received_block(NodeId(3), false), None);
}

#[test]
fn lifecycle_waiting_for_slot_and_discard() {
    let cfg = GraphConfig {
        thread_count: 2,
        t0_millis: 32,
        genesis_timestamp_millis: 0,
        operation_validity_periods: 2,
    };
    let mut s = GraphState::new(cfg, &vec![(BlockId(1), 0), (BlockId(2), 0)]);
    let x = BlockId(70);
    let slot = Slot { thread: 1, period: 9 };
    let b = Block { header: BlockHeader { slot, creator: 4, parents: Vec::new() } };
    s.register_incoming(x, b.clone());
    s.mark_waiting_for_slot(x, b.clone());
    assert_eq!(s.get_block_status(&x), BlockGraphStatus::WaitingForSlot);
    s.requeue_as_incoming(x, b);
    assert_eq!(s.get_block_status(&x), BlockGraphStatus::Incoming);
    s.discard(x, slot, 4, Vec::new(), block_graph_core::status::DiscardReason::Invalid);
    assert_eq!(s.get_block_status(&x), BlockGraphStatus::Discarded);
}

#[test]
fn worker_core_starts_after_the_current_slot() {
    let cfg = ConsensusConfig {
        thread_count: 2,
        t0_millis: 32,
        genesis_timestamp_millis: 1000,
        current_node_index: 0,
        nodes: vec![NodeId(0)],
    };
    // Before genesis: start at the very first slot.
    let early = ConsensusWorkerCore::new(cfg.clone(), 999);
    assert_eq!((early.next_slot_thread, early.next_slot_number), (0, 0));
    // 35 ms past genesis with a 16 ms step: the current slot is (0, 1), so
    // the worker starts at the slot after it.
    let core = ConsensusWorkerCore::new(cfg, 1035);
    assert_eq!((core.next_slot_thread, core.next_slot_number), (1, 1));
    // The selector is seeded with 32 zero bytes and one unit weight per node.
    assert_eq!(core.selector.seed, vec![0u8; 32]);
    assert_eq!(core.selector.participants_weights, vec![1u64]);
}
