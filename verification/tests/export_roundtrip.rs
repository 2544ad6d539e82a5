use block_graph_core::export::import_block_graph_part;
use block_graph_core::ids::{BlockId, Slot};
use block_graph_core::state::{GraphConfig, GraphState};
use block_graph_core::status::{ActiveBlock, BlockStatus, DiscardReason};
use block_graph_core::store::{Block, BlockHeader};

fn cfg2() -> GraphConfig {
    GraphConfig {
        thread_count: 2,
        t0_millis: 32,
        genesis_timestamp_millis: 0,
        operation_validity_periods: 2,
    }
}

fn built_state() -> GraphState {
    let mut s = GraphState::new(cfg2(), &vec![(BlockId(1), 0), (BlockId(2), 0)]);
    let slot = Slot { thread: 0, period: 1 };
    let parents = vec![(BlockId(1), 0), (BlockId(2), 0)];
    let ab = ActiveBlock {
        slot,
        creator: 7,
        parents: parents.clone(),
        children: vec![Vec::new(), Vec::new()],
        is_final: false,
    };
    s.block_statuses.push((BlockId(10), BlockStatus::Active { a_block: ab }));
    s.storage.insert(BlockId(10), Block { header: BlockHeader { slot, creator: 7, parents } });
    s.active_index.push(BlockId(10));
    s.max_cliques[0].block_ids.push(BlockId(10));
    s.max_cliques[0].fitness += 1;
    s.best_parents[0] = (BlockId(10), 1);
    // A rejected block as well.
    s.block_statuses.push((
        BlockId(40),
        BlockStatus::Discarded {
            slot: Slot { thread: 1, period: 6 },
            creator: 9,
            parents: vec![BlockId(1)],
            reason: DiscardReason::Stale,
        },
    ));
    s
}

#[test]
fn full_export_reimport_answers_queries_identically() {
    let s = built_state();
    let e = s.extract_block_graph_part(None, None).unwrap();
    let s2 = import_block_graph_part(&e, s.config);
    for id in [BlockId(1), BlockId(2), BlockId(10), BlockId(40), BlockId(99)] {
        assert_eq!(s2.get_block_status(&id), s.get_block_status(&id));
    }
    for t in 0..2u8 {
        for p in 0..4u64 {
            let slot = Slot { thread: t, period: p };
            assert_eq!(
                s2.get_latest_blockclique_block_at_slot(&slot),
                s.get_latest_blockclique_block_at_slot(&slot)
            );
            assert_eq!(
                s2.get_blockclique_block_at_slot(&slot),
                s.get_blockclique_block_at_slot(&slot)
            );
        }
    }
}

#[test]
fn export_copies_the_shallow_fields() {
    let s = built_state();
    let e = s.extract_block_graph_part(None, None).unwrap();
    assert_eq!(e.genesis_blocks, vec![BlockId(1), BlockId(2)]);
    assert_eq!(e.best_parents, vec![(BlockId(10), 1), (BlockId(2), 0)]);
    assert_eq!(e.latest_final_blocks_periods, vec![(BlockId(1), 0), (BlockId(2), 0)]);
    assert_eq!(e.max_cliques.len(), 1);
    assert!(e.max_cliques[0].is_blockclique);
    assert_eq!(e.active_blocks.len(), 3);
    assert_eq!(e.discarded_blocks.len(), 1);
    assert_eq!(e.discarded_blocks[0].0, BlockId(40));
    assert_eq!(e.discarded_blocks[0].1 .0, DiscardReason::Stale);
}

#[test]
fn export_range_filters_by_slot() {
    let s = built_state();
    // Only period 1 and later: the genesis blocks and the discarded block at
    // period 6 fall on either side.
    let e = s
        .extract_block_graph_part(
            Some(Slot { thread: 0, period: 1 }),
            Some(Slot { thread: 0, period: 2 }),
        )
        .unwrap();
    assert_eq!(e.active_blocks.len(), 1);
    assert_eq!(e.active_blocks[0].0, BlockId(10));
    assert_eq!(e.discarded_blocks.len(), 0);
}

#[test]
fn exported_active_block_carries_header_and_finality() {
    let s = built_state();
    let e = s.extract_block_graph_part(None, None).unwrap();
    let entry = e.active_blocks.iter().find(|(id, _)| *id == BlockId(10)).unwrap();
    assert_eq!(entry.1.header.slot, Slot { thread: 0, period: 1 });
    assert_eq!(entry.1.header.creator, 7);
    assert_eq!(entry.1.header.parents, vec![(BlockId(1), 0), (BlockId(2), 0)]);
    assert!(!entry.1.is_final);
}
