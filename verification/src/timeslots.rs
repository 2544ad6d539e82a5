//! The slot clock: mapping wall-clock milliseconds to slots and back.

use vstd::prelude::*;

use crate::ids::{slot_lt, Slot};

verus! {

/// Timestamp of a slot, as an unbounded integer: the genesis anchor plus the
/// slot's global index times the per-thread step `t0 / T`.
pub open spec fn slot_ts(
    thread_count: u8,
    t0_millis: u64,
    genesis_timestamp_millis: u64,
    thread: u8,
    period: u64,
) -> int {
    genesis_timestamp_millis + (period * thread_count + thread) * (t0_millis as int
        / thread_count as int)
}

/// A usable clock configuration: at least one thread, and a slot period that
/// divides evenly into per-thread steps of at least one millisecond.
pub open spec fn clock_wf(thread_count: u8, t0_millis: u64) -> bool {
    &&& thread_count >= 1
    &&& t0_millis >= thread_count
    &&& t0_millis % (thread_count as u64) == 0
}

/// The per-thread step of a well-formed clock is at least one millisecond.
pub proof fn lemma_step_pos(thread_count: u8, t0_millis: u64)
    requires
        clock_wf(thread_count, t0_millis),
    ensures
        t0_millis as int / thread_count as int >= 1,
        t0_millis as int == thread_count as int * (t0_millis as int / thread_count as int),
{
    vstd::arithmetic::div_mod::lemma_fundamental_div_mod(t0_millis as int, thread_count as int);
    assert(t0_millis as int % thread_count as int == 0);
    assert(t0_millis as int == thread_count as int * (t0_millis as int / thread_count as int));
    assert(t0_millis as int / thread_count as int >= 1) by (nonlinear_arith)
        requires
            thread_count as int >= 1,
            t0_millis as int >= thread_count as int,
            t0_millis as int == thread_count as int * (t0_millis as int / thread_count as int),
    ;
}

/// The slot after `(thread, period)`: the next thread, carrying into the
/// next period.
pub open spec fn next_slot_spec(thread_count: u8, thread: u8, period: u64) -> (u8, u64) {
    if thread + 1 < thread_count {
        (((thread + 1) as u8), period)
    } else {
        (0u8, ((period + 1) as u64))
    }
}

/// Executable slot succession.
pub fn get_next_block_slot(thread_count: u8, thread: u8, period: u64) -> (r: (u8, u64))
    requires
        thread_count >= 1,
        thread < thread_count,
        period < u64::MAX,
    ensures
        r == next_slot_spec(thread_count, thread, period),
        slot_lt(Slot { thread, period }, Slot { thread: r.0, period: r.1 }),
{
    if thread + 1 < thread_count {
        (thread + 1, period)
    } else {
        (0, period + 1)
    }
}

/// Wall-clock timestamp of a slot, in milliseconds.
pub fn get_block_slot_timestamp_millis(
    thread_count: u8,
    t0_millis: u64,
    genesis_timestamp_millis: u64,
    thread: u8,
    period: u64,
) -> (r: u64)
    requires
        clock_wf(thread_count, t0_millis),
        thread < thread_count,
        slot_ts(thread_count, t0_millis, genesis_timestamp_millis, thread, period) <= u64::MAX,
    ensures
        r == slot_ts(thread_count, t0_millis, genesis_timestamp_millis, thread, period),
{
    let tc: u64 = thread_count as u64;
    let step: u64 = t0_millis / tc;
    proof {
        lemma_step_pos(thread_count, t0_millis);
        assert(step >= 1);
        assert(period * thread_count + thread <= (period * thread_count + thread) * step)
            by (nonlinear_arith)
            requires
                step >= 1,
                period >= 0,
                thread >= 0,
                thread_count >= 1,
        ;
        assert((period * thread_count + thread) * step <= u64::MAX - genesis_timestamp_millis);
    }
    let idx: u64 = period * tc + (thread as u64);
    let offset: u64 = idx * step;
    genesis_timestamp_millis + offset
}

/// Strict monotonicity: an earlier slot has a strictly earlier timestamp.
pub proof fn lemma_slot_timestamp_monotonic(
    thread_count: u8,
    t0_millis: u64,
    genesis_timestamp_millis: u64,
    s1: Slot,
    s2: Slot,
)
    requires
        clock_wf(thread_count, t0_millis),
        s1.thread < thread_count,
        s2.thread < thread_count,
        slot_lt(s1, s2),
    ensures
        slot_ts(thread_count, t0_millis, genesis_timestamp_millis, s1.thread, s1.period) < slot_ts(
            thread_count,
            t0_millis,
            genesis_timestamp_millis,
            s2.thread,
            s2.period,
        ),
{
    let step = t0_millis as int / thread_count as int;
    lemma_step_pos(thread_count, t0_millis);
    assert(step >= 1);
    let i1 = s1.period * thread_count + s1.thread;
    let i2 = s2.period * thread_count + s2.thread;
    assert(i1 < i2) by (nonlinear_arith)
        requires
            s1.thread < thread_count,
            s2.thread < thread_count,
            i1 == s1.period * thread_count + s1.thread,
            i2 == s2.period * thread_count + s2.thread,
            s1.period < s2.period || (s1.period == s2.period && s1.thread < s2.thread),
    ;
    assert(i1 * step < i2 * step) by (nonlinear_arith)
        requires
            i1 < i2,
            step >= 1,
    ;
}

/// The latest slot whose timestamp is not after `now_millis`, if the clock
/// has reached genesis.
pub fn get_current_latest_block_slot(
    thread_count: u8,
    t0_millis: u64,
    genesis_timestamp_millis: u64,
    now_millis: u64,
) -> (r: Option<(u8, u64)>)
    requires
        clock_wf(thread_count, t0_millis),
    ensures
        r is Some <==> now_millis >= genesis_timestamp_millis,
        r matches Some((th, p)) ==> th < thread_count && slot_ts(
            thread_count,
            t0_millis,
            genesis_timestamp_millis,
            th,
            p,
        ) <= now_millis && now_millis < slot_ts(
            thread_count,
            t0_millis,
            genesis_timestamp_millis,
            th,
            p,
        ) + t0_millis as int / thread_count as int,
{
    if now_millis < genesis_timestamp_millis {
        return None;
    }
    let tc: u64 = thread_count as u64;
    proof {
        lemma_step_pos(thread_count, t0_millis);
    }
    let step: u64 = t0_millis / tc;
    let elapsed: u64 = now_millis - genesis_timestamp_millis;
    let idx: u64 = elapsed / step;
    let th: u8 = (idx % tc) as u8;
    let p: u64 = idx / tc;
    proof {
        let st = step as int;
        let e = elapsed as int;
        vstd::arithmetic::div_mod::lemma_fundamental_div_mod(e, st);
        vstd::arithmetic::div_mod::lemma_mod_bound(e, st);
        vstd::arithmetic::div_mod::lemma_fundamental_div_mod(idx as int, tc as int);
        vstd::arithmetic::div_mod::lemma_mod_bound(idx as int, tc as int);
        assert(p * thread_count + th == idx) by (nonlinear_arith)
            requires
                p == idx as int / tc as int,
                th == idx as int % tc as int,
                tc == thread_count,
                tc >= 1,
                idx as int == tc as int * (idx as int / tc as int) + idx as int % tc as int,
        ;
        assert(idx * st <= e && e < (idx + 1) * st) by (nonlinear_arith)
            requires
                st >= 1,
                e >= 0,
                e == st * (e / st) + e % st,
                idx == e / st,
                0 <= e % st < st,
        ;
        assert((p * thread_count + th) * st == idx * st);
    }
    Some((th, p))
}

} // verus!
