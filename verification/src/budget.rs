//! What a budget lets through: not only no more than it, but all that stays within it.

use crate::engine::{step, Arrival, EngineView, LimiterView, SlotView, Verdict};
use crate::packet::{read_packet, IpPacket};
use crate::ports::PortPidMap;
use crate::rule::{Direction, ProcessRule};
use vstd::prelude::*;

verus! {

/// Whether a bucket, held to `rate`, has `price` tokens at `now`: it never has more than two
/// seconds' worth, a bucket that was never asked has all of that, and any other has what was left
/// in it and what the rate earned since.
pub open spec fn within_budget(slot: Option<SlotView>, rate: u64, price: int, now: u64) -> bool {
    &&& price <= 2_000_000_000 * rate
    &&& slot matches Some(s) ==> price <= s.tokens + rate * (if now > s.at {
        now - s.at
    } else {
        0
    })
}

/// What a rule says of a packet that a bucket is to pay for.
pub open spec fn rule_lets_pass(
    rule: ProcessRule,
    direction: Direction,
    slot: Option<SlotView>,
    price: int,
    now: u64,
) -> bool {
    &&& !rule.block_all
    &&& price == 0 || (rule.effective(direction) matches Some(rate) ==> within_budget(
        slot,
        rate,
        price,
        now,
    ))
}

/// A limit drops just what exceeds it, in both directions: a packet passes where it is not blocked
/// and the bucket for all traffic, and that of its process, can pay for each byte of its payload,
/// and it is dropped everywhere else.
pub proof fn limits_drop_just_what_exceeds_them(
    e: EngineView,
    l: LimiterView,
    ports: PortPidMap,
    a: Arrival,
    packet: IpPacket,
)
    requires
        read_packet(a.bytes, a.is_ipv6) == Some(packet),
        a.is_ipv6 ==> e.ipv6_enabled,
    ensures
        ({
            let price = packet.payload_len * 3_000_000_000_000_000;
            let direction = if a.outbound {
                Direction::Upload
            } else {
                Direction::Download
            };
            let (all, own) = if a.outbound {
                (l.global_upload, l.uploads)
            } else {
                (l.global_download, l.downloads)
            };
            let port = if a.outbound {
                packet.source_port
            } else {
                packet.destination_port
            };
            let passes = step(e, l, ports, a).verdict == Verdict::Send;
            match ports.owner(packet.protocol, port, a.is_ipv6) {
                Some(pid) => {
                    let slot = if own.contains_key(pid) {
                        Some(own[pid])
                    } else {
                        None
                    };
                    passes == (rule_lets_pass(e.global_rule, direction, all, price, a.now) && (
                    e.rules.contains_key(pid) ==> rule_lets_pass(
                        e.rules[pid],
                        direction,
                        slot,
                        price,
                        a.now,
                    )))
                },
                None => passes == rule_lets_pass(e.global_rule, direction, all, price, a.now),
            }
        }),
{
    let now = a.now;
    let bytes = packet.payload_len as nat;
    let direction = if a.outbound {
        Direction::Upload
    } else {
        Direction::Download
    };
    if let Some(rate) = e.global_rule.effective(direction) {
        lemma_within_budget(l.global_slot(direction), rate, bytes, now);
    }
    let port = if a.outbound {
        packet.source_port
    } else {
        packet.destination_port
    };
    if let Some(pid) = ports.owner(packet.protocol, port, a.is_ipv6) {
        if let Some(rate) = e.rules[pid].effective(direction) {
            lemma_within_budget(l.slot(pid, direction), rate, bytes, now);
        }
    }
}

proof fn lemma_within_budget(slot: Option<SlotView>, rate: u64, bytes: nat, now: u64)
    ensures
        crate::engine::turns_away(crate::engine::slot_or_full(slot, rate, now), rate, bytes, now)
            == !within_budget(slot, rate, (bytes * 3_000_000_000_000_000) as int, now),
{
    assert(crate::rate::burst(rate as int) == 2_000_000_000 * rate) by (nonlinear_arith)
        requires
            crate::rate::burst(rate as int) == 2 * crate::rate::NANOS_PER_SEC * rate,
            crate::rate::NANOS_PER_SEC == 1_000_000_000,
    ;
    let s = crate::engine::slot_or_full(slot, rate, now);
    assert(rate * crate::engine::waited(s, now) >= 0) by (nonlinear_arith)
        requires
            crate::engine::waited(s, now) >= 0,
    ;
}

/// What a bucket holds at `now` when it is held to `rate`, before it pays for anything.
pub open spec fn held(slot: Option<SlotView>, rate: u64, now: u64) -> int {
    let full = 2_000_000_000 * rate;
    match slot {
        None => full,
        Some(s) => {
            let earned = rate * (if now > s.at {
                now - s.at
            } else {
                0
            });
            let left = if s.tokens < full {
                s.tokens
            } else {
                full
            };
            if left + earned < full {
                left + earned
            } else {
                full
            }
        },
    }
}

/// Whether `after` is a bucket that `before` turns into when it is asked at `now` for `price`
/// tokens: it holds what it held, less the price where it could pay it.
pub open spec fn paid(
    before: Option<SlotView>,
    after: Option<SlotView>,
    rate: u64,
    price: int,
    now: u64,
) -> bool {
    after matches Some(s) && s.at == now && s.rate == rate && s.tokens == held(before, rate, now)
        - if price <= held(before, rate, now) {
        price
    } else {
        0
    }
}

/// Every packet with payload that a limit is about is paid for, or found too dear, by the bucket
/// for all traffic, and, where that lets it pass, by the bucket of its process; no other bucket
/// changes.
pub proof fn buckets_are_charged_for_what_passes(
    e: EngineView,
    l: LimiterView,
    ports: PortPidMap,
    a: Arrival,
    packet: IpPacket,
    pid: u32,
    other: u32,
)
    requires
        read_packet(a.bytes, a.is_ipv6) == Some(packet),
        a.is_ipv6 ==> e.ipv6_enabled,
        packet.payload_len > 0,
        ports.owner(
            packet.protocol,
            if a.outbound {
                packet.source_port
            } else {
                packet.destination_port
            },
            a.is_ipv6,
        ) == Some(pid),
    ensures
        ({
            let price = packet.payload_len * 3_000_000_000_000_000;
            let after = step(e, l, ports, a).limiter;
            let direction = if a.outbound {
                Direction::Upload
            } else {
                Direction::Download
            };
            let (all, all_after, own, own_after) = if a.outbound {
                (l.global_upload, after.global_upload, l.uploads, after.uploads)
            } else {
                (l.global_download, after.global_download, l.downloads, after.downloads)
            };
            let slot = if own.contains_key(pid) {
                Some(own[pid])
            } else {
                None
            };
            let slot_after = if own_after.contains_key(pid) {
                Some(own_after[pid])
            } else {
                None
            };
            let g = e.global_rule;
            &&& !g.block_all && g.effective(direction) is Some ==> paid(
                all,
                all_after,
                g.effective(direction)->0,
                price,
                a.now,
            )
            &&& g.block_all || g.effective(direction) is None ==> all_after == all
            &&& rule_lets_pass(g, direction, all, price, a.now) && e.rules.contains_key(pid)
                && !e.rules[pid].block_all && e.rules[pid].effective(direction) is Some ==> paid(
                slot,
                slot_after,
                e.rules[pid].effective(direction)->0,
                price,
                a.now,
            )
            &&& !(rule_lets_pass(g, direction, all, price, a.now) && e.rules.contains_key(pid)
                && !e.rules[pid].block_all && e.rules[pid].effective(direction) is Some)
                ==> slot_after == slot
            &&& other != pid ==> own_after.contains_key(other) == own.contains_key(other) && (
            own.contains_key(other) ==> own_after[other] == own[other])
            &&& a.outbound ==> after.global_download == l.global_download && after.downloads
                == l.downloads
            &&& !a.outbound ==> after.global_upload == l.global_upload && after.uploads == l.uploads
        }),
{
    let now = a.now;
    let bytes = packet.payload_len as nat;
    let direction = if a.outbound {
        Direction::Upload
    } else {
        Direction::Download
    };
    if let Some(rate) = e.global_rule.effective(direction) {
        lemma_within_budget(l.global_slot(direction), rate, bytes, now);
        lemma_paid(l.global_slot(direction), rate, bytes, now);
    }
    if let Some(rate) = e.rules[pid].effective(direction) {
        lemma_within_budget(l.slot(pid, direction), rate, bytes, now);
        lemma_paid(l.slot(pid, direction), rate, bytes, now);
    }
}

proof fn lemma_paid(slot: Option<SlotView>, rate: u64, bytes: nat, now: u64)
    ensures
        paid(
            slot,
            Some(
                crate::engine::asked(
                    crate::engine::slot_or_full(slot, rate, now),
                    rate,
                    bytes,
                    now,
                ),
            ),
            rate,
            (bytes * 3_000_000_000_000_000) as int,
            now,
        ),
{
    assert(crate::rate::burst(rate as int) == 2_000_000_000 * rate) by (nonlinear_arith)
        requires
            crate::rate::burst(rate as int) == 2 * crate::rate::NANOS_PER_SEC * rate,
            crate::rate::NANOS_PER_SEC == 1_000_000_000,
    ;
    let s = crate::engine::slot_or_full(slot, rate, now);
    assert(rate * crate::engine::waited(s, now) >= 0) by (nonlinear_arith)
        requires
            crate::engine::waited(s, now) >= 0,
    ;
}

/// Traffic that no process is known for is charged to all traffic alone, and a packet without payload
/// to nothing.
pub proof fn only_known_processes_are_charged(
    e: EngineView,
    l: LimiterView,
    ports: PortPidMap,
    a: Arrival,
    packet: IpPacket,
)
    requires
        read_packet(a.bytes, a.is_ipv6) == Some(packet),
        a.is_ipv6 ==> e.ipv6_enabled,
    ensures
        ({
            let price = packet.payload_len * 3_000_000_000_000_000;
            let after = step(e, l, ports, a).limiter;
            let (direction, port, all, all_after) = if a.outbound {
                (Direction::Upload, packet.source_port, l.global_upload, after.global_upload)
            } else {
                (
                    Direction::Download,
                    packet.destination_port,
                    l.global_download,
                    after.global_download,
                )
            };
            let g = e.global_rule;
            &&& packet.payload_len == 0 ==> after == l
            &&& ports.owner(packet.protocol, port, a.is_ipv6) is None ==> {
                &&& after.downloads == l.downloads
                &&& after.uploads == l.uploads
                &&& a.outbound ==> after.global_download == l.global_download
                &&& !a.outbound ==> after.global_upload == l.global_upload
                &&& g.block_all || g.effective(direction) is None ==> all_after == all
                &&& packet.payload_len > 0 && !g.block_all && g.effective(direction) is Some
                    ==> paid(all, all_after, g.effective(direction)->0, price, a.now)
            }
        }),
{
    let bytes = packet.payload_len as nat;
    let direction = if a.outbound {
        Direction::Upload
    } else {
        Direction::Download
    };
    if let Some(rate) = e.global_rule.effective(direction) {
        lemma_paid(l.global_slot(direction), rate, bytes, a.now);
    }
}

/// Whether a count grew by `more`; it starts again from zero beyond the largest `u64`.
pub open spec fn grew(before: u64, after: u64, more: int) -> bool {
    after == before + more || after == before + more - 0x1_0000_0000_0000_0000
}

/// What is let through is counted the way it flows, once for all traffic and once for its process;
/// what is dropped is counted as a packet only, and what cannot be read, or is IPv6 while that is
/// switched off, passes uncounted but as a packet.
pub proof fn bytes_are_counted_where_they_flow(
    e: EngineView,
    l: LimiterView,
    ports: PortPidMap,
    a: Arrival,
    pid: u32,
)
    ensures
        ({
            let s = step(e, l, ports, a);
            let f = s.engine;
            let old_count = if e.counters.contains_key(pid) {
                e.counters[pid]
            } else {
                (0u64, 0u64)
            };
            let new_count = if f.counters.contains_key(pid) {
                f.counters[pid]
            } else {
                (0u64, 0u64)
            };
            &&& grew(e.packets_processed, f.packets_processed, 1)
            &&& f.rules == e.rules && f.global_rule == e.global_rule && f.ipv6_enabled
                == e.ipv6_enabled
            &&& s.verdict == Verdict::Drop ==> grew(e.packets_dropped, f.packets_dropped, 1)
                && f.counters == e.counters && f.global_download == e.global_download
                && f.global_upload == e.global_upload
            &&& s.verdict == Verdict::Send ==> f.packets_dropped == e.packets_dropped
            &&& (a.is_ipv6 && !e.ipv6_enabled) || read_packet(a.bytes, a.is_ipv6) is None
                ==> s.verdict == Verdict::Send && s.limiter == l && f.counters == e.counters
                && f.global_download == e.global_download && f.global_upload == e.global_upload
            &&& s.verdict == Verdict::Send && (a.is_ipv6 ==> e.ipv6_enabled) ==> (read_packet(
                a.bytes,
                a.is_ipv6,
            ) matches Some(packet) ==> {
                let n = packet.payload_len as int;
                let port = if a.outbound {
                    packet.source_port
                } else {
                    packet.destination_port
                };
                let own = ports.owner(packet.protocol, port, a.is_ipv6) == Some(pid);
                &&& a.outbound ==> grew(e.global_upload, f.global_upload, n) && f.global_download
                    == e.global_download
                &&& !a.outbound ==> grew(e.global_download, f.global_download, n)
                    && f.global_upload == e.global_upload
                &&& own && a.outbound ==> new_count.0 == old_count.0 && grew(
                    old_count.1,
                    new_count.1,
                    n,
                )
                &&& own && !a.outbound ==> grew(old_count.0, new_count.0, n) && new_count.1
                    == old_count.1
                &&& !own ==> f.counters.contains_key(pid) == e.counters.contains_key(pid)
                    && new_count == old_count
            })
        }),
{
    assert forall|x: u64, n: nat| n <= 0xffff_ffff_ffff_ffff implies grew(
        x,
        #[trigger] crate::engine::wrapped_sum(x, n),
        n as int,
    ) by {
        assert((x + n) % 0x1_0000_0000_0000_0000 == x + n || (x + n) % 0x1_0000_0000_0000_0000 == x
            + n - 0x1_0000_0000_0000_0000) by (nonlinear_arith)
            requires
                0 <= x + n < 2 * 0x1_0000_0000_0000_0000,
        ;
    }
}

} // verus!
