//! Decision core of the consensus worker.
//!
//! The worker's event loop lives outside the library (it multiplexes a
//! command channel, a slot timer and a protocol collaborator); every decision
//! it takes is a function here, so each one carries a contract.

use vstd::prelude::*;

use crate::ids::BlockId;
use crate::store::Block;
use crate::timeslots::{
    clock_wf, get_block_slot_timestamp_millis, get_current_latest_block_slot,
    get_next_block_slot, next_slot_spec, slot_ts,
};

verus! {

/// Identity of a peer node.
#[derive(Clone, Copy, PartialEq, Eq, Structural, Hash, Debug)]
pub struct NodeId(pub u64);

/// Commands the worker accepts; closing the command channel is shutdown.
#[derive(Clone, Debug)]
pub enum ConsensusCommand {
    CreateBlock(String),
}

/// Events delivered by the protocol collaborator.
#[derive(Clone, Debug)]
pub enum ProtocolEventType {
    ReceivedBlock(Block),
    ReceivedTransaction(String),
    AskedBlock(BlockId),
}

/// How an accepted block is propagated: to everyone but `exclude`, or to
/// `only_to` alone.
#[derive(Clone, Copy, PartialEq, Eq, Structural, Debug)]
pub struct Propagation {
    pub exclude: Option<NodeId>,
    pub only_to: Option<NodeId>,
}

/// A locally created block that the database acknowledged is propagated with
/// no source and no destination restriction.
pub fn propagation_for_created_block(acknowledged: bool) -> (r: Option<Propagation>)
    ensures
        r == if acknowledged {
            Some(Propagation { exclude: None, only_to: None })
        } else {
            None::<Propagation>
        },
{
    if acknowledged {
        Some(Propagation { exclude: None, only_to: None })
    } else {
        None
    }
}

/// A received block that the database acknowledged is propagated to everyone
/// but its source; an ignored one is not propagated.
pub fn propagation_for_received_block(source: NodeId, acknowledged: bool) -> (r: Option<
    Propagation,
>)
    ensures
        r == if acknowledged {
            Some(Propagation { exclude: Some(source), only_to: None })
        } else {
            None::<Propagation>
        },
{
    if acknowledged {
        Some(Propagation { exclude: Some(source), only_to: None })
    } else {
        None
    }
}

/// A block somebody asked for is sent to the asker alone, when found.
pub fn propagation_for_asked_block(asker: NodeId, found: bool) -> (r: Option<Propagation>)
    ensures
        r == if found {
            Some(Propagation { exclude: None, only_to: Some(asker) })
        } else {
            None::<Propagation>
        },
{
    if found {
        Some(Propagation { exclude: None, only_to: Some(asker) })
    } else {
        None
    }
}

/// Copy a byte vector.
fn clone_bytes(v: &Vec<u8>) -> (r: Vec<u8>)
    ensures
        r@ == v@,
{
    let mut r: Vec<u8> = Vec::new();
    let mut i: usize = 0;
    while i < v.len()
        invariant
            0 <= i <= v.len(),
            r@ == v@.subrange(0, i as int),
        decreases v.len() - i,
    {
        r.push(v[i]);
        proof {
            assert(r@ =~= v@.subrange(0, i + 1 as int));
        }
        i += 1;
    }
    proof {
        assert(r@ =~= v@);
    }
    r
}

/// Sum of the participants' weights.
pub open spec fn sum_weights(w: Seq<u64>) -> int
    decreases w.len(),
{
    if w.len() == 0 {
        0
    } else {
        sum_weights(w.drop_last()) + w.last()
    }
}

/// The index whose cumulative weight interval contains `target`, scanning
/// from `i` with `acc` already accumulated.
pub open spec fn pick_index(w: Seq<u64>, target: int, i: int, acc: int) -> int
    decreases w.len() - i when 0 <= i <= w.len()
{
    if i >= w.len() {
        0
    } else if target < acc + w[i] {
        i
    } else {
        pick_index(w, target, i + 1, acc + w[i])
    }
}

/// Mix of the seed bytes from index `i`, kept below 2^32.
pub open spec fn seed_mix(s: Seq<u8>, i: int, acc: int) -> int
    decreases s.len() - i when 0 <= i <= s.len()
{
    if i >= s.len() {
        acc
    } else {
        seed_mix(s, i + 1, (acc * 33 + s[i]) % 0x100000000)
    }
}

/// Deterministic digest of `(seed, thread, period)`, below 2^32.
pub open spec fn draw_digest(seed: Seq<u8>, thread: u8, period: u64) -> int {
    let h0 = seed_mix(seed, 0, 5381);
    let h1 = (h0 * 1000003 + thread) % 0x100000000;
    let h2 = (h1 * 1000003 + period % 0x100000000) % 0x100000000;
    (h2 * 1000003 + period / 0x100000000) % 0x100000000
}

/// The node index drawn for `(thread, period)`: the digest reduced by the
/// total weight picks a cumulative-weight interval.
pub open spec fn draw_spec(seed: Seq<u8>, w: Seq<u64>, thread: u8, period: u64) -> int {
    pick_index(w, draw_digest(seed, thread, period) % sum_weights(w), 0, 0)
}

/// Sum of the weights from index `i` on.
pub open spec fn sum_suffix(w: Seq<u64>, i: int) -> int
    decreases w.len() - i when 0 <= i <= w.len()
{
    if i >= w.len() {
        0
    } else {
        w[i] + sum_suffix(w, i + 1)
    }
}

/// The two summations agree.
proof fn lemma_sum_suffix_total(w: Seq<u64>, i: int)
    requires
        0 <= i <= w.len(),
    ensures
        sum_suffix(w, i) == sum_weights(w) - sum_prefix(w, i),
    decreases w.len() - i,
{
    if i < w.len() {
        lemma_sum_suffix_total(w, i + 1);
        lemma_sum_prefix_step(w, i);
    } else {
        assert(w.subrange(0, i) =~= w);
    }
}

/// Sum of the weights before index `i`.
pub open spec fn sum_prefix(w: Seq<u64>, i: int) -> int {
    sum_weights(w.subrange(0, i))
}

proof fn lemma_sum_prefix_step(w: Seq<u64>, i: int)
    requires
        0 <= i < w.len(),
    ensures
        sum_prefix(w, i + 1) == sum_prefix(w, i) + w[i],
{
    assert(w.subrange(0, i + 1).drop_last() =~= w.subrange(0, i));
    assert(w.subrange(0, i + 1).last() == w[i]);
}

/// A deterministic selector: for each `(thread, period)` it draws a node
/// index, proportional to the participants' weights, from a digest of the
/// seed. The same seed, thread and period always give the same index.
#[derive(Clone, Debug)]
pub struct RandomSelector {
    pub seed: Vec<u8>,
    pub thread_count: u8,
    pub participants_weights: Vec<u64>,
}

impl RandomSelector {
    pub open spec fn wf(self) -> bool {
        0 < sum_weights(self.participants_weights@) <= u64::MAX
    }

    pub fn new(seed: &Vec<u8>, thread_count: u8, participants_weights: Vec<u64>) -> (r:
        RandomSelector)
        requires
            0 < sum_weights(participants_weights@) <= u64::MAX,
        ensures
            r.wf(),
            r.seed@ == seed@,
            r.thread_count == thread_count,
            r.participants_weights@ == participants_weights@,
    {
        RandomSelector { seed: clone_bytes(seed), thread_count, participants_weights }
    }

    /// Draw the creator index for a slot.
    pub fn draw(&self, thread: u8, period: u64) -> (r: u64)
        requires
            self.wf(),
        ensures
            r == draw_spec(self.seed@, self.participants_weights@, thread, period),
            r < self.participants_weights@.len(),
    {
        // Digest the seed, then the slot coordinates.
        let mut acc: u64 = 5381;
        let mut i: usize = 0;
        while i < self.seed.len()
            invariant
                0 <= i <= self.seed@.len(),
                0 <= acc < 0x100000000,
                seed_mix(self.seed@, 0, 5381) == seed_mix(self.seed@, i as int, acc as int),
            decreases self.seed@.len() - i,
        {
            acc = (acc * 33 + (self.seed[i] as u64)) % 0x100000000;
            i += 1;
        }
        let h1: u64 = (acc * 1000003 + (thread as u64)) % 0x100000000;
        let h2: u64 = (h1 * 1000003 + period % 0x100000000) % 0x100000000;
        let h3: u64 = (h2 * 1000003 + period / 0x100000000) % 0x100000000;

        // Total weight, then the cumulative pick.
        let mut total: u64 = 0;
        let mut j: usize = 0;
        while j < self.participants_weights.len()
            invariant
                0 <= j <= self.participants_weights@.len(),
                total == sum_prefix(self.participants_weights@, j as int),
                sum_weights(self.participants_weights@) <= u64::MAX,
                total <= sum_weights(self.participants_weights@),
            decreases self.participants_weights@.len() - j,
        {
            proof {
                lemma_sum_prefix_step(self.participants_weights@, j as int);
                lemma_sum_suffix_total(self.participants_weights@, j + 1);
                lemma_sum_suffix_nonneg(self.participants_weights@, j + 1);
            }
            total = total + self.participants_weights[j];
            j += 1;
        }
        proof {
            assert(self.participants_weights@.subrange(0, self.participants_weights@.len() as int)
                =~= self.participants_weights@);
        }
        let target: u64 = h3 % total;

        let mut k: usize = 0;
        let mut cum: u64 = 0;
        while k < self.participants_weights.len()
            invariant
                0 <= k <= self.participants_weights@.len(),
                self.wf(),
                total == sum_weights(self.participants_weights@),
                cum == sum_prefix(self.participants_weights@, k as int),
                cum <= target < total,
                target == draw_digest(self.seed@, thread, period) % sum_weights(
                    self.participants_weights@,
                ),
                pick_index(self.participants_weights@, target as int, 0, 0) == pick_index(
                    self.participants_weights@,
                    target as int,
                    k as int,
                    cum as int,
                ),
            decreases self.participants_weights@.len() - k,
        {
            proof {
                lemma_sum_suffix_total(self.participants_weights@, k as int);
                lemma_sum_suffix_nonneg(self.participants_weights@, k as int);
                if k as int == self.participants_weights@.len() {
                    assert(false);
                }
                lemma_sum_prefix_step(self.participants_weights@, k as int);
                lemma_sum_suffix_total(self.participants_weights@, k + 1);
                lemma_sum_suffix_nonneg(self.participants_weights@, k + 1);
            }
            let wk = self.participants_weights[k];
            if target < cum + wk {
                return k as u64;
            }
            cum = cum + wk;
            k += 1;
        }
        proof {
            lemma_sum_suffix_total(self.participants_weights@, k as int);
            lemma_sum_suffix_nonneg(self.participants_weights@, k as int);
            assert(false);
        }
        0
    }
}

proof fn lemma_sum_suffix_nonneg(w: Seq<u64>, i: int)
    requires
        0 <= i <= w.len(),
    ensures
        sum_suffix(w, i) >= 0,
    decreases w.len() - i,
{
    if i < w.len() {
        lemma_sum_suffix_nonneg(w, i + 1);
    }
}

/// Configuration the worker runs with.
#[derive(Clone, Debug)]
pub struct ConsensusConfig {
    pub thread_count: u8,
    pub t0_millis: u64,
    pub genesis_timestamp_millis: u64,
    pub current_node_index: u64,
    pub nodes: Vec<NodeId>,
}

/// What a slot tick decided.
#[derive(Clone, Copy, Debug)]
pub struct SlotTickOutcome {
    /// The slot to create a block at, when the selector drew this node.
    pub create_block_at: Option<(u8, u64)>,
    /// Wall-clock deadline to rearm the timer with: the next slot's
    /// timestamp.
    pub next_timer_millis: u64,
}

} // verus!

verus! {

/// The action a consensus command asks for.
#[derive(Clone, Debug)]
pub enum CommandAction {
    /// Create a block from the payload, admit it, and propagate it if the
    /// database acknowledged it.
    CreateBlock(String),
}

/// What a command decides; the caller performs the block-database and
/// protocol work.
pub fn decide_command(cmd: ConsensusCommand) -> (r: CommandAction)
    ensures
        cmd matches ConsensusCommand::CreateBlock(p) ==> (r matches CommandAction::CreateBlock(q)
            && q@ == p@),
{
    match cmd {
        ConsensusCommand::CreateBlock(payload) => CommandAction::CreateBlock(payload),
    }
}

/// Slot bookkeeping of the worker: everything its timer arm decides.
#[derive(Clone, Debug)]
pub struct ConsensusWorkerCore {
    pub cfg: ConsensusConfig,
    pub selector: RandomSelector,
    pub next_slot_thread: u8,
    pub next_slot_number: u64,
}

impl ConsensusWorkerCore {
    pub open spec fn wf(self) -> bool {
        &&& clock_wf(self.cfg.thread_count, self.cfg.t0_millis)
        &&& self.next_slot_thread < self.cfg.thread_count
        &&& self.selector.wf()
    }

    /// Set up the worker's slot state: the slot after the current one (or
    /// the very first slot, before genesis), and a selector seeded with 32
    /// zero bytes and one unit weight per participant.
    pub fn new(cfg: ConsensusConfig, now_millis: u64) -> (r: ConsensusWorkerCore)
        requires
            clock_wf(cfg.thread_count, cfg.t0_millis),
            cfg.nodes@.len() > 0,
            cfg.nodes@.len() <= u64::MAX,
            now_millis < u64::MAX,
        ensures
            r.wf(),
            r.cfg == cfg,
            r.selector.thread_count == cfg.thread_count,
            r.selector.seed@.len() == 32,
            forall|i: int| 0 <= i < 32 ==> r.selector.seed@[i] == 0u8,
            r.selector.participants_weights@.len() == cfg.nodes@.len(),
            forall|i: int|
                0 <= i < cfg.nodes@.len() ==> r.selector.participants_weights@[i] == 1u64,
            now_millis < cfg.genesis_timestamp_millis ==> r.next_slot_thread == 0
                && r.next_slot_number == 0,
            now_millis >= cfg.genesis_timestamp_millis ==> exists|th: u8, p: u64|
                th < cfg.thread_count && #[trigger] slot_ts(
                    cfg.thread_count,
                    cfg.t0_millis,
                    cfg.genesis_timestamp_millis,
                    th,
                    p,
                ) <= now_millis && now_millis < slot_ts(
                    cfg.thread_count,
                    cfg.t0_millis,
                    cfg.genesis_timestamp_millis,
                    th,
                    p,
                ) + cfg.t0_millis as int / cfg.thread_count as int && (
                r.next_slot_thread,
                r.next_slot_number,
                ) == next_slot_spec(cfg.thread_count, th, p),
    {
        let mut seed: Vec<u8> = Vec::new();
        let mut si: usize = 0;
        while si < 32
            invariant
                0 <= si <= 32,
                seed@.len() == si,
                forall|j: int| 0 <= j < si ==> seed@[j] == 0u8,
            decreases 32 - si,
        {
            seed.push(0u8);
            si += 1;
        }
        let mut participants_weights: Vec<u64> = Vec::new();
        let mut wi: usize = 0;
        while wi < cfg.nodes.len()
            invariant
                0 <= wi <= cfg.nodes@.len(),
                cfg.nodes@.len() <= u64::MAX,
                participants_weights@.len() == wi,
                forall|j: int| 0 <= j < wi ==> participants_weights@[j] == 1u64,
                sum_weights(participants_weights@) == wi,
            decreases cfg.nodes@.len() - wi,
        {
            let ghost w0 = participants_weights@;
            participants_weights.push(1u64);
            proof {
                assert(participants_weights@.drop_last() =~= w0);
            }
            wi += 1;
        }
        let selector = RandomSelector::new(&seed, cfg.thread_count, participants_weights);

        let current = get_current_latest_block_slot(
            cfg.thread_count,
            cfg.t0_millis,
            cfg.genesis_timestamp_millis,
            now_millis,
        );
        let (next_slot_thread, next_slot_number) = match current {
            None => (0u8, 0u64),
            Some((cur_thread, cur_period)) => {
                proof {
                    let step = cfg.t0_millis as int / cfg.thread_count as int;
                    assert(cur_period < u64::MAX) by (nonlinear_arith)
                        requires
                            step >= 1,
                            cfg.thread_count >= 1,
                            cur_period >= 0,
                            cfg.genesis_timestamp_millis + (cur_period * cfg.thread_count
                                + cur_thread) * step <= now_millis,
                            now_millis < u64::MAX,
                    ;
                }
                get_next_block_slot(cfg.thread_count, cur_thread, cur_period)
            },
        };
        proof {
            if now_millis >= cfg.genesis_timestamp_millis {
                let pair = current->Some_0;
                assert(pair.0 < cfg.thread_count && slot_ts(
                    cfg.thread_count,
                    cfg.t0_millis,
                    cfg.genesis_timestamp_millis,
                    pair.0,
                    pair.1,
                ) <= now_millis && now_millis < slot_ts(
                    cfg.thread_count,
                    cfg.t0_millis,
                    cfg.genesis_timestamp_millis,
                    pair.0,
                    pair.1,
                ) + cfg.t0_millis as int / cfg.thread_count as int && (
                next_slot_thread,
                next_slot_number,
                ) == next_slot_spec(cfg.thread_count, pair.0, pair.1));
            }
        }
        ConsensusWorkerCore { cfg, selector, next_slot_thread, next_slot_number }
    }

    /// One slot-timer firing: draw the slot's creator, decide whether this
    /// node creates a block, advance to the next slot, and compute the
    /// timer's new deadline.
    pub fn on_slot_tick(&mut self) -> (r: SlotTickOutcome)
        requires
            old(self).wf(),
            old(self).next_slot_number < u64::MAX,
            slot_ts(
                old(self).cfg.thread_count,
                old(self).cfg.t0_millis,
                old(self).cfg.genesis_timestamp_millis,
                next_slot_spec(
                    old(self).cfg.thread_count,
                    old(self).next_slot_thread,
                    old(self).next_slot_number,
                ).0,
                next_slot_spec(
                    old(self).cfg.thread_count,
                    old(self).next_slot_thread,
                    old(self).next_slot_number,
                ).1,
            ) <= u64::MAX,
        ensures
            final(self).wf(),
            final(self).cfg == old(self).cfg,
            final(self).selector == old(self).selector,
            (final(self).next_slot_thread, final(self).next_slot_number) == next_slot_spec(
                old(self).cfg.thread_count,
                old(self).next_slot_thread,
                old(self).next_slot_number,
            ),
            r.create_block_at == if draw_spec(
                old(self).selector.seed@,
                old(self).selector.participants_weights@,
                old(self).next_slot_thread,
                old(self).next_slot_number,
            ) == old(self).cfg.current_node_index {
                Some((old(self).next_slot_thread, old(self).next_slot_number))
            } else {
                None::<(u8, u64)>
            },
            r.next_timer_millis == slot_ts(
                old(self).cfg.thread_count,
                old(self).cfg.t0_millis,
                old(self).cfg.genesis_timestamp_millis,
                final(self).next_slot_thread,
                final(self).next_slot_number,
            ),
    {
        // Check if it is our turn to create a block.
        let creator = self.selector.draw(self.next_slot_thread, self.next_slot_number);
        let create = creator == self.cfg.current_node_index;
        let this_slot = (self.next_slot_thread, self.next_slot_number);

        // Advance to the next slot and rearm the timer.
        let (nt, np) = get_next_block_slot(
            self.cfg.thread_count,
            self.next_slot_thread,
            self.next_slot_number,
        );
        self.next_slot_thread = nt;
        self.next_slot_number = np;
        let next_timer_millis = get_block_slot_timestamp_millis(
            self.cfg.thread_count,
            self.cfg.t0_millis,
            self.cfg.genesis_timestamp_millis,
            nt,
            np,
        );
        SlotTickOutcome {
            create_block_at: if create {
                Some(this_slot)
            } else {
                None
            },
            next_timer_millis,
        }
    }
}

} // verus!
