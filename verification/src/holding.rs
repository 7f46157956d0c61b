//! That the engine holds traffic to its limits, whatever packets come.

use crate::engine::{
    asked, counted, direction_of, packet_owner, read_arrival, slot_or_full, step, turns_away,
    waited, wrapped_sum, Arrival, EngineView, LimiterView, SlotView, Verdict,
};
use crate::ports::PortPidMap;
use crate::rate::{burst, TOKENS_PER_BYTE};
use crate::rule::Direction;
use vstd::prelude::*;

verus! {

/// A packet, and the table of port owners that is current when it comes.
pub struct Event {
    pub arrival: Arrival,
    pub ports: PortPidMap,
}

/// The engine after a run of packets.
pub open spec fn engine_after(e: EngineView, l: LimiterView, run: Seq<Event>) -> EngineView
    decreases run.len(),
{
    if run.len() == 0 {
        e
    } else {
        let init = run.drop_last();
        step(
            engine_after(e, l, init),
            limiter_after(e, l, init),
            run.last().ports,
            run.last().arrival,
        ).engine
    }
}

/// The limiter after a run of packets.
pub open spec fn limiter_after(e: EngineView, l: LimiterView, run: Seq<Event>) -> LimiterView
    decreases run.len(),
{
    if run.len() == 0 {
        l
    } else {
        let init = run.drop_last();
        step(
            engine_after(e, l, init),
            limiter_after(e, l, init),
            run.last().ports,
            run.last().arrival,
        ).limiter
    }
}

/// Whether a packet is one of those that a limit is about: it can be read, goes in the direction,
/// and belongs to the process, or to any where none is named.
pub open spec fn concerns(
    e: EngineView,
    event: Event,
    pid: Option<u32>,
    direction: Direction,
) -> bool {
    match read_arrival(e, event.arrival) {
        Some(packet) => {
            &&& direction_of(event.arrival.outbound) == direction
            &&& pid matches Some(p) ==> packet_owner(event.ports, packet, event.arrival) == Some(p)
        },
        None => false,
    }
}

/// Payload bytes of a run that were let through.
pub open spec fn bytes_let_through(
    e: EngineView,
    l: LimiterView,
    run: Seq<Event>,
    pid: Option<u32>,
    direction: Direction,
) -> nat
    decreases run.len(),
{
    if run.len() == 0 {
        0
    } else {
        let init = run.drop_last();
        let before = engine_after(e, l, init);
        let last = run.last();
        let s = step(before, limiter_after(e, l, init), last.ports, last.arrival);
        bytes_let_through(e, l, init, pid, direction) + if s.verdict == Verdict::Send && concerns(
            before,
            last,
            pid,
            direction,
        ) {
            read_arrival(before, last.arrival)->0.payload_len as nat
        } else {
            0
        }
    }
}

/// Whether packets come from `start` on, none before the one in front of it.
pub open spec fn in_time(start: u64, run: Seq<Event>) -> bool {
    &&& forall|i: int| 0 <= i < run.len() ==> start <= (#[trigger] run[i]).arrival.now
    &&& forall|i: int, j: int|
        0 <= i <= j < run.len() ==> (#[trigger] run[i]).arrival.now <= (
        #[trigger] run[j]).arrival.now
}

/// When a run ends.
pub open spec fn end_of(start: u64, run: Seq<Event>) -> int {
    if run.len() == 0 {
        start as int
    } else {
        run.last().arrival.now as int
    }
}

/// What holds of a bucket while `passed` bytes were let through: what they cost and what is left
/// is no more than a full bucket and what the rate earned.
spec fn in_budget(slot: Option<SlotView>, rate: u64, start: u64, end: int, passed: nat) -> bool {
    match slot {
        None => passed == 0,
        Some(s) => {
            &&& 0 <= s.tokens <= burst(rate as int)
            &&& start <= s.at <= end
            &&& passed * TOKENS_PER_BYTE + s.tokens <= burst(rate as int) + rate * (s.at - start)
        },
    }
}

proof fn lemma_asked_in_budget(
    slot: Option<SlotView>,
    rate: u64,
    start: u64,
    end: int,
    passed: nat,
    bytes: nat,
    now: u64,
)
    requires
        in_budget(slot, rate, start, end, passed),
        start <= end <= now,
    ensures
        ({
            let s = slot_or_full(slot, rate, now);
            in_budget(
                Some(asked(s, rate, bytes, now)),
                rate,
                start,
                now as int,
                passed + if turns_away(s, rate, bytes, now) {
                    0
                } else {
                    bytes
                },
            )
        }),
{
    let s = slot_or_full(slot, rate, now);
    assert(burst(rate as int) >= 0) by (nonlinear_arith)
        requires
            burst(rate as int) == 2 * crate::rate::NANOS_PER_SEC * rate,
    ;
    let gap = waited(s, now);
    assert(rate * (now - start) == rate * (s.at - start) + rate * gap) by (nonlinear_arith)
        requires
            now - start == (s.at - start) + gap,
    ;
    assert(rate * (s.at - start) >= 0 && rate * gap >= 0) by (nonlinear_arith)
        requires
            s.at >= start,
            gap >= 0,
    ;
    assert((passed + bytes) * TOKENS_PER_BYTE == passed * TOKENS_PER_BYTE + bytes * TOKENS_PER_BYTE)
        by (nonlinear_arith);
    assert(bytes * TOKENS_PER_BYTE >= 0) by (nonlinear_arith);
    if slot is None {
        assert(passed * TOKENS_PER_BYTE == 0) by (nonlinear_arith)
            requires
                passed == 0,
        ;
    }
}

proof fn lemma_later_in_budget(
    slot: Option<SlotView>,
    rate: u64,
    start: u64,
    end: int,
    later: int,
    passed: nat,
)
    requires
        in_budget(slot, rate, start, end, passed),
        end <= later,
    ensures
        in_budget(slot, rate, start, later, passed),
{
}

proof fn lemma_in_budget_passes(
    slot: Option<SlotView>,
    rate: u64,
    start: u64,
    end: int,
    passed: nat,
)
    requires
        in_budget(slot, rate, start, end, passed),
        start <= end,
    ensures
        passed * TOKENS_PER_BYTE <= burst(rate as int) + rate * (end - start),
{
    match slot {
        None => {
            assert(passed * TOKENS_PER_BYTE == 0) by (nonlinear_arith)
                requires
                    passed == 0,
            ;
            assert(burst(rate as int) + rate * (end - start) >= 0) by (nonlinear_arith)
                requires
                    end >= start,
                    burst(rate as int) == 2 * crate::rate::NANOS_PER_SEC * rate,
            ;
        },
        Some(s) => {
            assert(rate * (s.at - start) <= rate * (end - start)) by (nonlinear_arith)
                requires
                    s.at <= end,
            ;
        },
    }
}

proof fn lemma_init_in_time(start: u64, run: Seq<Event>)
    requires
        in_time(start, run),
        run.len() > 0,
    ensures
        in_time(start, run.drop_last()),
        start <= end_of(start, run.drop_last()) <= run.last().arrival.now,
{
    let init = run.drop_last();
    assert forall|i: int| 0 <= i < init.len() implies start <= (#[trigger] init[i]).arrival.now by {
        assert(run[i] == init[i]);
    }
    assert forall|i: int, j: int| 0 <= i <= j < init.len() implies (
    #[trigger] init[i]).arrival.now <= (#[trigger] init[j]).arrival.now by {
        assert(run[i].arrival.now <= run[j].arrival.now);
    }
    assert(start <= run[run.len() - 1].arrival.now);
    if init.len() > 0 {
        assert(run[run.len() - 2].arrival.now <= run[run.len() - 1].arrival.now);
        assert(start <= run[run.len() - 2].arrival.now);
    }
}

/// Packets change neither the rules nor the IPv6 switch.
pub proof fn packets_leave_rules_alone(e: EngineView, l: LimiterView, run: Seq<Event>)
    ensures
        engine_after(e, l, run).rules == e.rules,
        engine_after(e, l, run).global_rule == e.global_rule,
        engine_after(e, l, run).ipv6_enabled == e.ipv6_enabled,
    decreases run.len(),
{
    if run.len() > 0 {
        packets_leave_rules_alone(e, l, run.drop_last());
    }
}

proof fn lemma_process_in_budget(
    e: EngineView,
    l: LimiterView,
    run: Seq<Event>,
    pid: u32,
    direction: Direction,
    rate: u64,
    start: u64,
)
    requires
        e.rules.contains_key(pid),
        e.rules[pid].effective(direction) == Some(rate),
        l.slot(pid, direction) is None,
        in_time(start, run),
    ensures
        in_budget(
            limiter_after(e, l, run).slot(pid, direction),
            rate,
            start,
            end_of(start, run),
            bytes_let_through(e, l, run, Some(pid), direction),
        ),
    decreases run.len(),
{
    if run.len() > 0 {
        let init = run.drop_last();
        lemma_init_in_time(start, run);
        lemma_process_in_budget(e, l, init, pid, direction, rate, start);
        packets_leave_rules_alone(e, l, init);
        let (before, held) = (engine_after(e, l, init), limiter_after(e, l, init));
        let (last, now) = (run.last(), run.last().arrival.now);
        let passed = bytes_let_through(e, l, init, Some(pid), direction);
        let end = end_of(start, init);
        lemma_later_in_budget(held.slot(pid, direction), rate, start, end, now as int, passed);
        if let Some(packet) = read_arrival(before, last.arrival) {
            lemma_asked_in_budget(
                held.slot(pid, direction),
                rate,
                start,
                end,
                passed,
                packet.payload_len as nat,
                now,
            );
        }
    }
}

/// A limit holds: whatever packets come while the rules stand, a process is let through no more
/// payload in a direction than two seconds' worth at once and its rate for as long as the run
/// takes.
pub proof fn process_stays_within_its_limit(
    e: EngineView,
    l: LimiterView,
    run: Seq<Event>,
    pid: u32,
    direction: Direction,
    rate: u64,
    start: u64,
)
    requires
        e.rules.contains_key(pid),
        e.rules[pid].effective(direction) == Some(rate),
        l.slot(pid, direction) is None,
        in_time(start, run),
    ensures
        bytes_let_through(e, l, run, Some(pid), direction) * TOKENS_PER_BYTE <= burst(rate as int)
            + rate * (end_of(start, run) - start),
{
    lemma_process_in_budget(e, l, run, pid, direction, rate, start);
    if run.len() > 0 {
        lemma_init_in_time(start, run);
    }
    lemma_in_budget_passes(
        limiter_after(e, l, run).slot(pid, direction),
        rate,
        start,
        end_of(start, run),
        bytes_let_through(e, l, run, Some(pid), direction),
    );
}

/// What one packet does to the bucket for all traffic in a direction.
proof fn lemma_global_slot_after(
    e: EngineView,
    l: LimiterView,
    event: Event,
    direction: Direction,
    rate: u64,
)
    requires
        e.global_rule.effective(direction) == Some(rate),
    ensures
        ({
            let s = step(e, l, event.ports, event.arrival);
            let now = event.arrival.now;
            let before = l.global_slot(direction);
            let after = s.limiter.global_slot(direction);
            if concerns(e, event, None, direction) && !e.global_rule.block_all {
                let bytes = read_arrival(e, event.arrival)->0.payload_len as nat;
                let slot = slot_or_full(before, rate, now);
                if bytes == 0 {
                    after == before
                } else {
                    &&& after == Some(asked(slot, rate, bytes, now))
                    &&& turns_away(slot, rate, bytes, now) ==> s.verdict == Verdict::Drop
                }
            } else {
                &&& after == before
                &&& concerns(e, event, None, direction) && s.verdict == Verdict::Send
                    ==> read_arrival(e, event.arrival)->0.payload_len == 0
            }
        }),
{
}

proof fn lemma_all_in_budget(
    e: EngineView,
    l: LimiterView,
    run: Seq<Event>,
    direction: Direction,
    rate: u64,
    start: u64,
) -> (spent: nat)
    requires
        e.global_rule.effective(direction) == Some(rate),
        l.global_slot(direction) is None,
        in_time(start, run),
    ensures
        bytes_let_through(e, l, run, None, direction) <= spent,
        in_budget(
            limiter_after(e, l, run).global_slot(direction),
            rate,
            start,
            end_of(start, run),
            spent,
        ),
    decreases run.len(),
{
    if run.len() == 0 {
        0
    } else {
        let init = run.drop_last();
        lemma_init_in_time(start, run);
        let spent = lemma_all_in_budget(e, l, init, direction, rate, start);
        packets_leave_rules_alone(e, l, init);
        let (before, held) = (engine_after(e, l, init), limiter_after(e, l, init));
        let (last, now) = (run.last(), run.last().arrival.now);
        let slot = held.global_slot(direction);
        let end = end_of(start, init);
        lemma_global_slot_after(before, held, last, direction, rate);
        lemma_later_in_budget(slot, rate, start, end, now as int, spent);
        if concerns(before, last, None, direction) && !e.global_rule.block_all {
            let bytes = read_arrival(before, last.arrival)->0.payload_len as nat;
            if bytes == 0 {
                spent
            } else {
                lemma_asked_in_budget(slot, rate, start, end, spent, bytes, now);
                if turns_away(slot_or_full(slot, rate, now), rate, bytes, now) {
                    spent
                } else {
                    spent + bytes
                }
            }
        } else {
            spent
        }
    }
}

/// The global limit holds: whatever packets come while the rules stand, no more payload passes in
/// a direction than two seconds' worth at once and the rate for as long as the run takes.
pub proof fn all_traffic_stays_within_the_limit(
    e: EngineView,
    l: LimiterView,
    run: Seq<Event>,
    direction: Direction,
    rate: u64,
    start: u64,
)
    requires
        e.global_rule.effective(direction) == Some(rate),
        l.global_slot(direction) is None,
        in_time(start, run),
    ensures
        bytes_let_through(e, l, run, None, direction) * TOKENS_PER_BYTE <= burst(rate as int)
            + rate * (end_of(start, run) - start),
{
    let spent = lemma_all_in_budget(e, l, run, direction, rate, start);
    let passed = bytes_let_through(e, l, run, None, direction);
    let slot = limiter_after(e, l, run).global_slot(direction);
    let end = end_of(start, run);
    if run.len() > 0 {
        lemma_init_in_time(start, run);
    }
    lemma_in_budget_passes(slot, rate, start, end, spent);
    assert(passed * TOKENS_PER_BYTE <= spent * TOKENS_PER_BYTE) by (nonlinear_arith)
        requires
            passed <= spent,
    ;
}

proof fn lemma_sums_wrap_together(a: u64, b: nat, c: nat)
    ensures
        wrapped_sum(wrapped_sum(a, b), c) == wrapped_sum(a, b + c),
        wrapped_sum(a, 0) == a,
{
}

/// What one packet adds to the counters of a direction.
proof fn lemma_counts_after(e: EngineView, l: LimiterView, event: Event, pid: u32, direction: Direction)
    ensures
        ({
            let s = step(e, l, event.ports, event.arrival);
            let bytes = |of: Option<u32>|
                if s.verdict == Verdict::Send && concerns(e, event, of, direction) {
                    read_arrival(e, event.arrival)->0.payload_len as nat
                } else {
                    0
                };
            &&& one_way(total_counts(s.engine), direction) == wrapped_sum(
                one_way(total_counts(e), direction),
                bytes(None),
            )
            &&& one_way(counted(s.engine.counters, pid), direction) == wrapped_sum(
                one_way(counted(e.counters, pid), direction),
                bytes(Some(pid)),
            )
        }),
{
    lemma_sums_wrap_together(one_way(total_counts(e), direction), 0, 0);
    lemma_sums_wrap_together(one_way(counted(e.counters, pid), direction), 0, 0);
}

/// One of two counters.
pub open spec fn one_way(c: (u64, u64), direction: Direction) -> u64 {
    match direction {
        Direction::Download => c.0,
        Direction::Upload => c.1,
    }
}

/// The counters of all traffic.
pub open spec fn total_counts(e: EngineView) -> (u64, u64) {
    (e.global_download, e.global_upload)
}

/// Counters track the payload that was let through, of all traffic and of every process, and
/// nothing else.
pub proof fn counters_track_what_passes(
    e: EngineView,
    l: LimiterView,
    run: Seq<Event>,
    pid: u32,
    direction: Direction,
)
    ensures
        one_way(total_counts(engine_after(e, l, run)), direction) == wrapped_sum(
            one_way(total_counts(e), direction),
            bytes_let_through(e, l, run, None, direction),
        ),
        one_way(counted(engine_after(e, l, run).counters, pid), direction) == wrapped_sum(
            one_way(counted(e.counters, pid), direction),
            bytes_let_through(e, l, run, Some(pid), direction),
        ),
    decreases run.len(),
{
    let all = one_way(total_counts(e), direction);
    let own = one_way(counted(e.counters, pid), direction);
    if run.len() == 0 {
        lemma_sums_wrap_together(all, 0, 0);
        lemma_sums_wrap_together(own, 0, 0);
    } else {
        let init = run.drop_last();
        counters_track_what_passes(e, l, init, pid, direction);
        let (before, held) = (engine_after(e, l, init), limiter_after(e, l, init));
        lemma_counts_after(before, held, run.last(), pid, direction);
        let (a, b) = (
            bytes_let_through(e, l, init, None, direction),
            bytes_let_through(e, l, init, Some(pid), direction),
        );
        lemma_sums_wrap_together(
            all,
            a,
            (bytes_let_through(e, l, run, None, direction) - a) as nat,
        );
        lemma_sums_wrap_together(
            own,
            b,
            (bytes_let_through(e, l, run, Some(pid), direction) - b) as nat,
        );
    }
}

} // verus!
