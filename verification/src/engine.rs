//! The engine: rules in force, what was counted, and the decision on every packet.

use crate::divert::{divert_message, WinDivertError};
use crate::packet::{read_packet, IpPacket};
use crate::ports::PortPidMap;
use crate::rate::{affords, after_request, burst, refilled, smaller, TokenBucket};
use crate::rule::{Direction, GlobalRule, ProcessRule};
use std::collections::HashMap;
use vstd::prelude::*;

verus! {

broadcast use vstd::std_specs::hash::group_hash_axioms;

/// Bytes that a packet buffer holds.
pub const BUF_SIZE: usize = 65_535;

/// Nanoseconds for which the table of port owners stays current.
pub const PORT_MAP_REFRESH: u64 = 1_500_000_000;

/// Which packets the interceptor hands over.
pub fn packet_filter() -> (r: &'static str)
    ensures
        r@ == "(ip or ipv6) and (tcp or udp)"@,
{
    "(ip or ipv6) and (tcp or udp)"
}

/// Why the engine did not start.
#[derive(Debug)]
pub enum EngineError {
    WinDivert(WinDivertError),
    AlreadyRunning,
}

/// What a failure says.
pub open spec fn engine_message(e: EngineError) -> Seq<char> {
    match e {
        EngineError::WinDivert(cause) => divert_message(cause),
        EngineError::AlreadyRunning => "engine is already running"@,
    }
}

impl EngineError {
    /// What went wrong, in words.
    pub fn message(&self) -> (r: String)
        ensures
            r@ == engine_message(*self),
    {
        match self {
            EngineError::WinDivert(cause) => cause.message(),
            EngineError::AlreadyRunning => String::from_str("engine is already running"),
        }
    }
}

/// A change to the rules in force.
#[derive(Debug)]
pub enum EngineCommand {
    UpdateRule(u32, ProcessRule),
    UpdateRuleForPids(Vec<u32>, ProcessRule),
    SetGlobalRule(GlobalRule),
    ClearRules,
}

/// [`EngineCommand`] with its list as a sequence.
pub enum CommandView {
    UpdateRule(u32, ProcessRule),
    UpdateRuleForPids(Seq<u32>, ProcessRule),
    SetGlobalRule(ProcessRule),
    ClearRules,
}

impl View for EngineCommand {
    type V = CommandView;

    open spec fn view(&self) -> CommandView {
        match self {
            EngineCommand::UpdateRule(pid, rule) => CommandView::UpdateRule(*pid, *rule),
            EngineCommand::UpdateRuleForPids(pids, rule) => CommandView::UpdateRuleForPids(
                pids@,
                *rule,
            ),
            EngineCommand::SetGlobalRule(rule) => CommandView::SetGlobalRule(*rule),
            EngineCommand::ClearRules => CommandView::ClearRules,
        }
    }
}

/// The commands in a list.
pub open spec fn command_views(v: Seq<EngineCommand>) -> Seq<CommandView> {
    v.map_values(|c: EngineCommand| c@)
}

/// What was counted since the last snapshot, and what was counted in all.
#[derive(Debug)]
pub struct EngineSnapshot {
    pub per_pid: HashMap<u32, (u64, u64)>,
    pub global_download_bytes: u64,
    pub global_upload_bytes: u64,
    pub packets_processed: u64,
    pub packets_dropped: u64,
    pub running: bool,
}

/// Rules in force and what was counted.
#[derive(Debug)]
pub struct NetworkEngine {
    rules: HashMap<u32, ProcessRule>,
    global_rule: GlobalRule,
    counters: HashMap<u32, (u64, u64)>,
    global_download: u64,
    global_upload: u64,
    packets_processed: u64,
    packets_dropped: u64,
    ipv6_enabled: bool,
}

/// A [`NetworkEngine`] with its tables as maps. Counters are pairs: bytes down, bytes up.
#[verifier::ext_equal]
pub struct EngineView {
    pub rules: Map<u32, ProcessRule>,
    pub global_rule: ProcessRule,
    pub counters: Map<u32, (u64, u64)>,
    pub global_download: u64,
    pub global_upload: u64,
    pub packets_processed: u64,
    pub packets_dropped: u64,
    pub ipv6_enabled: bool,
}

impl View for NetworkEngine {
    type V = EngineView;

    closed spec fn view(&self) -> EngineView {
        EngineView {
            rules: self.rules@,
            global_rule: self.global_rule,
            counters: self.counters@,
            global_download: self.global_download,
            global_upload: self.global_upload,
            packets_processed: self.packets_processed,
            packets_dropped: self.packets_dropped,
            ipv6_enabled: self.ipv6_enabled,
        }
    }
}

/// The rules after one of them is set: a rule that says nothing is taken out.
pub open spec fn with_rule(
    rules: Map<u32, ProcessRule>,
    pid: u32,
    rule: ProcessRule,
) -> Map<u32, ProcessRule> {
    if rule.any() {
        rules.insert(pid, rule)
    } else {
        rules.remove(pid)
    }
}

/// The rules after the same one is set for a list of processes.
pub open spec fn with_rule_for(
    rules: Map<u32, ProcessRule>,
    pids: Seq<u32>,
    rule: ProcessRule,
) -> Map<u32, ProcessRule>
    decreases pids.len(),
{
    if pids.len() == 0 {
        rules
    } else {
        with_rule(with_rule_for(rules, pids.drop_last(), rule), pids.last(), rule)
    }
}

/// The engine after a command.
pub open spec fn after_command(e: EngineView, command: CommandView) -> EngineView {
    match command {
        CommandView::UpdateRule(pid, rule) => EngineView {
            rules: with_rule(e.rules, pid, rule),
            ..e
        },
        CommandView::UpdateRuleForPids(pids, rule) => EngineView {
            rules: with_rule_for(e.rules, pids, rule),
            ..e
        },
        CommandView::SetGlobalRule(rule) => EngineView { global_rule: rule, ..e },
        CommandView::ClearRules => EngineView {
            rules: Map::empty(),
            global_rule: ProcessRule::none(),
            ..e
        },
    }
}

/// The engine after some commands, one after the other.
pub open spec fn after_commands(e: EngineView, commands: Seq<CommandView>) -> EngineView
    decreases commands.len(),
{
    if commands.len() == 0 {
        e
    } else {
        after_command(after_commands(e, commands.drop_last()), commands.last())
    }
}

/// The engine with nothing counted.
pub open spec fn without_counts(e: EngineView) -> EngineView {
    EngineView {
        counters: Map::empty(),
        global_download: 0,
        global_upload: 0,
        packets_processed: 0,
        packets_dropped: 0,
        ..e
    }
}

/// The engine after a snapshot: bytes are counted anew, packets go on being counted.
pub open spec fn after_snapshot(e: EngineView) -> EngineView {
    EngineView {
        counters: e.counters.map_values(|c: (u64, u64)| (0u64, 0u64)),
        global_download: 0,
        global_upload: 0,
        ..e
    }
}

/// What a snapshot says.
pub open spec fn is_snapshot(s: EngineSnapshot, e: EngineView, running: bool) -> bool {
    &&& s.per_pid@ == e.counters
    &&& s.global_download_bytes == e.global_download
    &&& s.global_upload_bytes == e.global_upload
    &&& s.packets_processed == e.packets_processed
    &&& s.packets_dropped == e.packets_dropped
    &&& s.running == running
}

impl NetworkEngine {
    /// An engine without rules.
    pub fn new(ipv6_enabled: bool) -> (r: Self)
        ensures
            r@ == (EngineView {
                rules: Map::empty(),
                global_rule: ProcessRule::none(),
                counters: Map::empty(),
                global_download: 0,
                global_upload: 0,
                packets_processed: 0,
                packets_dropped: 0,
                ipv6_enabled,
            }),
    {
        NetworkEngine {
            rules: HashMap::new(),
            global_rule: ProcessRule::default(),
            counters: HashMap::new(),
            global_download: 0,
            global_upload: 0,
            packets_processed: 0,
            packets_dropped: 0,
            ipv6_enabled,
        }
    }

    /// Whether IPv6 packets are looked at; where not, they pass.
    pub fn set_ipv6_enabled(&mut self, enabled: bool)
        ensures
            final(self)@ == (EngineView { ipv6_enabled: enabled, ..old(self)@ }),
    {
        self.ipv6_enabled = enabled;
    }

    /// Begins a run: not while one is on, and not where the interceptor did not open. Counting
    /// starts anew.
    pub fn start(&mut self, running: bool, opened: Result<(), WinDivertError>) -> (r: Result<
        (),
        EngineError,
    >)
        ensures
            match r {
                Ok(_) => !running && opened is Ok && final(self)@ == without_counts(old(self)@),
                Err(EngineError::AlreadyRunning) => running && final(self)@ == old(self)@,
                Err(EngineError::WinDivert(cause)) => !running && opened == Err::<(), _>(cause)
                    && final(self)@ == old(self)@,
            },
    {
        if running {
            return Err(EngineError::AlreadyRunning);
        }
        match opened {
            Err(cause) => Err(EngineError::WinDivert(cause)),
            Ok(_) => {
                self.reset_runtime_counters();
                Ok(())
            },
        }
    }

    fn reset_runtime_counters(&mut self)
        ensures
            final(self)@ == without_counts(old(self)@),
    {
        self.counters = HashMap::new();
        self.global_download = 0;
        self.global_upload = 0;
        self.packets_processed = 0;
        self.packets_dropped = 0;
    }

    /// Carries out a command.
    pub fn apply(&mut self, command: EngineCommand)
        ensures
            final(self)@ == after_command(old(self)@, command@),
    {
        match command {
            EngineCommand::UpdateRule(pid, rule) => self.update_rule(pid, rule),
            EngineCommand::UpdateRuleForPids(pids, rule) => {
                let mut i: usize = 0;
                assert(pids@.take(0) =~= Seq::<u32>::empty());
                while i < pids.len()
                    invariant
                        i <= pids@.len(),
                        self@ == (EngineView {
                            rules: with_rule_for(old(self)@.rules, pids@.take(i as int), rule),
                            ..old(self)@
                        }),
                    decreases pids@.len() - i,
                {
                    assert(pids@.take(i + 1).drop_last() =~= pids@.take(i as int));
                    self.update_rule(pids[i], rule);
                    i += 1;
                }
                assert(pids@.take(i as int) =~= pids@);
            },
            EngineCommand::SetGlobalRule(rule) => {
                self.global_rule = rule;
            },
            EngineCommand::ClearRules => {
                self.rules = HashMap::new();
                self.global_rule = ProcessRule::default();
            },
        }
    }

    fn update_rule(&mut self, pid: u32, rule: ProcessRule)
        ensures
            final(self)@ == (EngineView {
                rules: with_rule(old(self)@.rules, pid, rule),
                ..old(self)@
            }),
    {
        if rule.has_any_rule() {
            self.rules.insert(pid, rule);
        } else {
            self.rules.remove(&pid);
        }
    }

    /// The processes that have a rule, each once, in no particular order.
    pub fn active_rule_pids(&self) -> (r: Vec<u32>)
        ensures
            r@.no_duplicates(),
            r@.to_set() == self@.rules.dom(),
    {
        let mut out: Vec<u32> = Vec::new();
        let ghost all = vstd::std_specs::iter::IteratorSpec::remaining(
            &self.rules.keys(),
        ).unref();
        for k in it: self.rules.keys()
            invariant
                it.seq().unref() == all,
                out@ == all.take(it.index()),
        {
            out.push(*k);
        }
        assert(out@ =~= all);
        out
    }

    /// What was counted; bytes are counted anew from here.
    pub fn snapshot_and_reset(&mut self, running: bool) -> (r: EngineSnapshot)
        ensures
            is_snapshot(r, old(self)@, running),
            final(self)@ == after_snapshot(old(self)@),
    {
        let mut fresh: HashMap<u32, (u64, u64)> = HashMap::new();
        let ghost all = vstd::std_specs::iter::IteratorSpec::remaining(
            &self.counters.keys(),
        ).unref();
        for k in it: self.counters.keys()
            invariant
                it.seq().unref() == all,
                forall|pid: u32| #[trigger]
                    fresh@.contains_key(pid) <==> all.take(it.index()).contains(pid),
                forall|pid: u32| #[trigger] fresh@.contains_key(pid) ==> fresh@[pid] == (0u64, 0u64),
        {
            proof {
                let i = it.index();
                assert forall|pid: u32| all.take(i + 1).contains(pid) == (all.take(i).contains(pid)
                    || pid == *k) by {
                    assert(all.take(i + 1) =~= all.take(i).push(*k));
                    if all.take(i).contains(pid) {
                        let j = choose|j: int| 0 <= j < i && all.take(i)[j] == pid;
                        assert(all.take(i + 1)[j] == pid);
                    }
                    assert(all.take(i + 1)[i] == *k);
                }
            }
            fresh.insert(*k, (0u64, 0u64));
        }
        proof {
            assert(all.take(all.len() as int) =~= all);
            assert(all.to_set() =~= self.counters@.dom());
            assert forall|pid: u32| #[trigger]
                fresh@.contains_key(pid) == self.counters@.contains_key(pid) by {
                assert(all.contains(pid) == all.to_set().contains(pid));
            }
            assert(fresh@ =~= self.counters@.map_values(|c: (u64, u64)| (0u64, 0u64)));
        }
        std::mem::swap(&mut fresh, &mut self.counters);
        let down: u64 = self.global_download;
        let up: u64 = self.global_upload;
        self.global_download = 0;
        self.global_upload = 0;
        EngineSnapshot {
            per_pid: fresh,
            global_download_bytes: down,
            global_upload_bytes: up,
            packets_processed: self.packets_processed,
            packets_dropped: self.packets_dropped,
            running,
        }
    }
}

/// A token bucket and when it was last asked.
#[derive(Debug, Clone, Copy)]
pub struct BucketSlot {
    bucket: TokenBucket,
    at: u64,
}

/// A [`BucketSlot`]: its tokens, its rate, and when it was last asked, in nanoseconds.
pub struct SlotView {
    pub tokens: int,
    pub rate: int,
    pub at: int,
}

impl View for BucketSlot {
    type V = SlotView;

    closed spec fn view(&self) -> SlotView {
        SlotView { tokens: self.bucket.tokens(), rate: self.bucket.rate(), at: self.at as int }
    }
}

/// A full bucket, asked now.
pub open spec fn full_slot(rate: u64, now: u64) -> SlotView {
    SlotView { tokens: burst(rate as int), rate: rate as int, at: now as int }
}

/// Time since a bucket was last asked; none where the clock stands still or went back.
pub open spec fn waited(slot: SlotView, now: u64) -> int {
    if now >= slot.at {
        now - slot.at
    } else {
        0
    }
}

/// Whether a bucket turns away a packet that is held to `rate`.
pub open spec fn turns_away(slot: SlotView, rate: u64, bytes: nat, now: u64) -> bool {
    !affords(
        refilled(
            smaller(slot.tokens, burst(rate as int)),
            rate as int,
            waited(slot, now),
        ),
        bytes as int,
    )
}

/// A bucket after it was asked.
pub open spec fn asked(slot: SlotView, rate: u64, bytes: nat, now: u64) -> SlotView {
    SlotView {
        tokens: after_request(
            smaller(slot.tokens, burst(rate as int)),
            rate as int,
            bytes as int,
            waited(slot, now),
        ),
        rate: rate as int,
        at: now as int,
    }
}

impl BucketSlot {
    fn full(rate: u64, now: u64) -> (r: Self)
        ensures
            r@ == full_slot(rate, now),
    {
        BucketSlot { bucket: TokenBucket::new(rate), at: now }
    }
}

/// Asks a bucket, at a rate that may have changed, whether a packet is to be dropped.
fn consume_existing_bucket(slot: &mut BucketSlot, rate: u64, packet_len: usize, now: u64) -> (r:
    bool)
    ensures
        r == turns_away(old(slot)@, rate, packet_len as nat, now),
        final(slot)@ == asked(old(slot)@, rate, packet_len as nat, now),
{
    let elapsed: u64 = if now >= slot.at {
        now - slot.at
    } else {
        0
    };
    slot.at = now;
    slot.bucket.set_rate(rate);
    !slot.bucket.try_consume(packet_len, elapsed)
}

/// The bucket in a place that may still be empty: a new one is full.
pub open spec fn slot_or_full(slot: Option<SlotView>, rate: u64, now: u64) -> SlotView {
    match slot {
        Some(s) => s,
        None => full_slot(rate, now),
    }
}

pub open spec fn slot_view(slot: Option<BucketSlot>) -> Option<SlotView> {
    match slot {
        Some(s) => Some(s@),
        None => None,
    }
}

fn consume_bucket(slot: &mut Option<BucketSlot>, rate: u64, packet_len: usize, now: u64) -> (r:
    bool)
    ensures
        r == turns_away(
            slot_or_full(slot_view(*old(slot)), rate, now),
            rate,
            packet_len as nat,
            now,
        ),
        slot_view(*final(slot)) == Some(
            asked(slot_or_full(slot_view(*old(slot)), rate, now), rate, packet_len as nat, now),
        ),
{
    let mut current = match *slot {
        Some(s) => s,
        None => BucketSlot::full(rate, now),
    };
    let dropped = consume_existing_bucket(&mut current, rate, packet_len, now);
    *slot = Some(current);
    dropped
}

/// The buckets of a run: one for each direction of all traffic, and of each process.
#[derive(Debug)]
pub struct Limiter {
    downloads: HashMap<u32, BucketSlot>,
    uploads: HashMap<u32, BucketSlot>,
    global_download: Option<BucketSlot>,
    global_upload: Option<BucketSlot>,
}

/// A [`Limiter`] with its buckets as maps.
#[verifier::ext_equal]
pub struct LimiterView {
    pub downloads: Map<u32, SlotView>,
    pub uploads: Map<u32, SlotView>,
    pub global_download: Option<SlotView>,
    pub global_upload: Option<SlotView>,
}

pub open spec fn slots_in(m: Map<u32, BucketSlot>) -> Map<u32, SlotView> {
    m.map_values(|s: BucketSlot| s@)
}

impl View for Limiter {
    type V = LimiterView;

    closed spec fn view(&self) -> LimiterView {
        LimiterView {
            downloads: slots_in(self.downloads@),
            uploads: slots_in(self.uploads@),
            global_download: slot_view(self.global_download),
            global_upload: slot_view(self.global_upload),
        }
    }
}

impl LimiterView {
    /// The bucket for all traffic in one direction.
    pub open spec fn global_slot(self, direction: Direction) -> Option<SlotView> {
        match direction {
            Direction::Download => self.global_download,
            Direction::Upload => self.global_upload,
        }
    }

    /// The limiter with another bucket for all traffic in one direction.
    pub open spec fn with_global_slot(self, direction: Direction, slot: SlotView) -> LimiterView {
        match direction {
            Direction::Download => LimiterView { global_download: Some(slot), ..self },
            Direction::Upload => LimiterView { global_upload: Some(slot), ..self },
        }
    }

    /// The buckets of processes in one direction.
    pub open spec fn slots(self, direction: Direction) -> Map<u32, SlotView> {
        match direction {
            Direction::Download => self.downloads,
            Direction::Upload => self.uploads,
        }
    }

    /// The bucket of one process in one direction.
    pub open spec fn slot(self, pid: u32, direction: Direction) -> Option<SlotView> {
        if self.slots(direction).contains_key(pid) {
            Some(self.slots(direction)[pid])
        } else {
            None
        }
    }

    /// The limiter with another bucket of one process in one direction.
    pub open spec fn with_slot(self, pid: u32, direction: Direction, slot: SlotView) -> LimiterView {
        match direction {
            Direction::Download => LimiterView {
                downloads: self.downloads.insert(pid, slot),
                ..self
            },
            Direction::Upload => LimiterView { uploads: self.uploads.insert(pid, slot), ..self },
        }
    }
}

/// A decision: the limiter after it, and whether the packet is dropped.
#[verifier::ext_equal]
pub struct Decision {
    pub limiter: LimiterView,
    pub dropped: bool,
}

/// What the global rule does to a packet with `bytes` bytes of payload.
pub open spec fn global_decision(
    rule: ProcessRule,
    l: LimiterView,
    direction: Direction,
    bytes: nat,
    now: u64,
) -> Decision {
    if rule.block_all {
        Decision { limiter: l, dropped: true }
    } else if bytes == 0 {
        Decision { limiter: l, dropped: false }
    } else {
        match rule.effective(direction) {
            None => Decision { limiter: l, dropped: false },
            Some(rate) => {
                let slot = slot_or_full(l.global_slot(direction), rate, now);
                Decision {
                    limiter: l.with_global_slot(direction, asked(slot, rate, bytes, now)),
                    dropped: turns_away(slot, rate, bytes, now),
                }
            },
        }
    }
}

/// What the rules of processes do to a packet that belongs to `pid`.
pub open spec fn process_decision(
    rules: Map<u32, ProcessRule>,
    l: LimiterView,
    pid: Option<u32>,
    direction: Direction,
    bytes: nat,
    now: u64,
) -> Decision {
    match pid {
        Some(pid) => if rules.contains_key(pid) {
            let rule = rules[pid];
            if rule.block_all {
                Decision { limiter: l, dropped: true }
            } else if bytes == 0 {
                Decision { limiter: l, dropped: false }
            } else {
                match rule.effective(direction) {
                    None => Decision { limiter: l, dropped: false },
                    Some(rate) => {
                        let slot = slot_or_full(l.slot(pid, direction), rate, now);
                        Decision {
                            limiter: l.with_slot(pid, direction, asked(slot, rate, bytes, now)),
                            dropped: turns_away(slot, rate, bytes, now),
                        }
                    },
                }
            }
        } else {
            Decision { limiter: l, dropped: false }
        },
        None => Decision { limiter: l, dropped: false },
    }
}

/// What all rules do to a packet: the global rule first, the process's own only where the
/// global rule lets the packet pass.
pub open spec fn decision(
    e: EngineView,
    l: LimiterView,
    pid: Option<u32>,
    direction: Direction,
    bytes: nat,
    now: u64,
) -> Decision {
    let g = global_decision(e.global_rule, l, direction, bytes, now);
    if g.dropped {
        g
    } else {
        process_decision(e.rules, g.limiter, pid, direction, bytes, now)
    }
}

/// Whether the traffic of a process, or of none that is known, is blocked: by the global rule or
/// by the process's own.
pub open spec fn is_blocked(e: EngineView, pid: Option<u32>) -> bool {
    ||| e.global_rule.block_all
    ||| pid matches Some(p) && e.rules.contains_key(p) && e.rules[p].block_all
}

impl Limiter {
    /// No bucket yet.
    pub fn new() -> (r: Self)
        ensures
            r@ == (LimiterView {
                downloads: Map::empty(),
                uploads: Map::empty(),
                global_download: None,
                global_upload: None,
            }),
    {
        let r = Limiter {
            downloads: HashMap::new(),
            uploads: HashMap::new(),
            global_download: None,
            global_upload: None,
        };
        assert(r@.downloads =~= Map::empty());
        assert(r@.uploads =~= Map::empty());
        r
    }

    fn should_drop_global(
        &mut self,
        rule: &GlobalRule,
        direction: Direction,
        packet_len: usize,
        now: u64,
    ) -> (r: bool)
        ensures
            global_decision(*rule, old(self)@, direction, packet_len as nat, now) == (Decision {
                limiter: final(self)@,
                dropped: r,
            }),
    {
        if rule.block_all {
            return true;
        }
        if packet_len == 0 {
            return false;
        }
        match rule.effective_bps(direction) {
            None => false,
            Some(rate) => match direction {
                Direction::Download => consume_bucket(
                    &mut self.global_download,
                    rate,
                    packet_len,
                    now,
                ),
                Direction::Upload => consume_bucket(
                    &mut self.global_upload,
                    rate,
                    packet_len,
                    now,
                ),
            },
        }
    }

    fn should_drop_process(
        &mut self,
        rules: &HashMap<u32, ProcessRule>,
        pid: Option<u32>,
        direction: Direction,
        packet_len: usize,
        now: u64,
    ) -> (r: bool)
        ensures
            process_decision(rules@, old(self)@, pid, direction, packet_len as nat, now) == (
            Decision { limiter: final(self)@, dropped: r }),
    {
        let pid: u32 = match pid {
            Some(pid) => pid,
            None => {
                return false;
            },
        };
        let rule: ProcessRule = match rules.get(&pid) {
            Some(rule) => *rule,
            None => {
                return false;
            },
        };
        if rule.block_all {
            return true;
        }
        if packet_len == 0 {
            return false;
        }
        let rate: u64 = match rule.effective_bps(direction) {
            Some(rate) => rate,
            None => {
                return false;
            },
        };
        match direction {
            Direction::Download => consume_in(&mut self.downloads, pid, rate, packet_len, now),
            Direction::Upload => consume_in(&mut self.uploads, pid, rate, packet_len, now),
        }
    }
}

fn consume_in(
    slots: &mut HashMap<u32, BucketSlot>,
    pid: u32,
    rate: u64,
    packet_len: usize,
    now: u64,
) -> (r: bool)
    ensures
        ({
            let before = slots_in(old(slots)@);
            let known = if before.contains_key(pid) {
                Some(before[pid])
            } else {
                None
            };
            let slot = slot_or_full(known, rate, now);
            &&& r == turns_away(slot, rate, packet_len as nat, now)
            &&& slots_in(final(slots)@) == before.insert(
                pid,
                asked(slot, rate, packet_len as nat, now),
            )
        }),
{
    let mut current = match slots.get(&pid) {
        Some(s) => *s,
        None => BucketSlot::full(rate, now),
    };
    let dropped = consume_existing_bucket(&mut current, rate, packet_len, now);
    slots.insert(pid, current);
    assert(slots_in(slots@) =~= slots_in(old(slots)@).insert(pid, current@));
    dropped
}

/// What becomes of a packet.
#[derive(Debug, Clone, Copy, PartialEq, Eq, Structural)]
pub enum Verdict {
    Send,
    Drop,
}

/// A sum that starts again from zero beyond the largest `u64`.
pub open spec fn wrapped_sum(a: u64, b: nat) -> u64 {
    ((a + b) % 0x1_0000_0000_0000_0000) as u64
}

/// What a process has counted; nothing where it was never seen.
pub open spec fn counted(counters: Map<u32, (u64, u64)>, pid: u32) -> (u64, u64) {
    if counters.contains_key(pid) {
        counters[pid]
    } else {
        (0, 0)
    }
}

/// A counter pair with more bytes in one direction.
pub open spec fn count_more(c: (u64, u64), direction: Direction, bytes: nat) -> (u64, u64) {
    match direction {
        Direction::Download => (wrapped_sum(c.0, bytes), c.1),
        Direction::Upload => (c.0, wrapped_sum(c.1, bytes)),
    }
}

/// The engine after `bytes` bytes were let through for `pid`.
pub open spec fn with_bytes(
    e: EngineView,
    pid: Option<u32>,
    direction: Direction,
    bytes: nat,
) -> EngineView {
    if bytes == 0 {
        e
    } else {
        let all = count_more((e.global_download, e.global_upload), direction, bytes);
        EngineView {
            counters: match pid {
                Some(pid) => e.counters.insert(
                    pid,
                    count_more(counted(e.counters, pid), direction, bytes),
                ),
                None => e.counters,
            },
            global_download: all.0,
            global_upload: all.1,
            ..e
        }
    }
}

/// What one packet does.
#[verifier::ext_equal]
pub struct Step {
    pub engine: EngineView,
    pub limiter: LimiterView,
    pub verdict: Verdict,
}

/// A packet as it comes: its bytes, whether it leaves this machine, whether it is IPv6, and when
/// it came.
pub struct Arrival {
    pub bytes: Seq<u8>,
    pub outbound: bool,
    pub is_ipv6: bool,
    pub now: u64,
}

/// The direction of a packet.
pub open spec fn direction_of(outbound: bool) -> Direction {
    if outbound {
        Direction::Upload
    } else {
        Direction::Download
    }
}

/// What is known of a packet that is looked at: how it reads, and whose it is.
pub open spec fn read_arrival(e: EngineView, a: Arrival) -> Option<IpPacket> {
    if a.is_ipv6 && !e.ipv6_enabled {
        None
    } else {
        read_packet(a.bytes, a.is_ipv6)
    }
}

/// The process that a packet belongs to.
pub open spec fn packet_owner(ports: PortPidMap, packet: IpPacket, a: Arrival) -> Option<u32> {
    ports.owner(packet.protocol, packet.port(direction_of(a.outbound)), a.is_ipv6)
}

/// What one packet does: it is counted; one that is not looked at, or cannot be read, passes;
/// any other is put to the rules, and either dropped, or its payload counted and let through.
pub open spec fn step(e: EngineView, l: LimiterView, ports: PortPidMap, a: Arrival) -> Step {
    let seen = EngineView { packets_processed: wrapped_sum(e.packets_processed, 1), ..e };
    match read_arrival(e, a) {
        None => Step { engine: seen, limiter: l, verdict: Verdict::Send },
        Some(packet) => {
            let direction = direction_of(a.outbound);
            let pid = packet_owner(ports, packet, a);
            let d = decision(e, l, pid, direction, packet.payload_len as nat, a.now);
            if d.dropped {
                Step {
                    engine: EngineView {
                        packets_dropped: wrapped_sum(e.packets_dropped, 1),
                        ..seen
                    },
                    limiter: d.limiter,
                    verdict: Verdict::Drop,
                }
            } else {
                Step {
                    engine: with_bytes(seen, pid, direction, packet.payload_len as nat),
                    limiter: d.limiter,
                    verdict: Verdict::Send,
                }
            }
        },
    }
}

fn wrapping_sum(a: u64, b: u64) -> (r: u64)
    ensures
        r == wrapped_sum(a, b as nat),
{
    a.wrapping_add(b)
}

impl NetworkEngine {
    /// Whether the table of port owners, read at `last`, must be read again for a packet that
    /// came at `now`: the packet is looked at, and the table is out of date.
    pub fn refresh_due(&self, is_ipv6: bool, last: u64, now: u64) -> (r: bool)
        ensures
            r == ((self@.ipv6_enabled || !is_ipv6) && now - last >= PORT_MAP_REFRESH),
    {
        (self.ipv6_enabled || !is_ipv6) && now >= last && now - last >= PORT_MAP_REFRESH
    }

    /// Decides on one packet, counts it, and charges what it costs.
    pub fn handle_packet(
        &mut self,
        limiter: &mut Limiter,
        ports: &PortPidMap,
        bytes: &[u8],
        outbound: bool,
        is_ipv6: bool,
        now: u64,
    ) -> (r: Verdict)
        ensures
            step(
                old(self)@,
                old(limiter)@,
                *ports,
                (Arrival { bytes: bytes@, outbound, is_ipv6, now }),
            ) == (Step { engine: final(self)@, limiter: final(limiter)@, verdict: r }),
    {
        self.packets_processed = wrapping_sum(self.packets_processed, 1);
        if is_ipv6 && !self.ipv6_enabled {
            return Verdict::Send;
        }
        let direction = if outbound {
            Direction::Upload
        } else {
            Direction::Download
        };
        let packet = match IpPacket::parse(bytes, is_ipv6) {
            Some(packet) => packet,
            None => {
                return Verdict::Send;
            },
        };
        let pid = ports.pid_for(packet.protocol, packet.local_port(direction), is_ipv6);
        let charge_len: usize = packet.payload_len;
        if limiter.should_drop_global(&self.global_rule, direction, charge_len, now)
            || limiter.should_drop_process(&self.rules, pid, direction, charge_len, now) {
            self.packets_dropped = wrapping_sum(self.packets_dropped, 1);
            return Verdict::Drop;
        }
        if charge_len > 0 {
            self.count_bytes(pid, direction, charge_len as u64);
        }
        Verdict::Send
    }

    fn count_bytes(&mut self, pid: Option<u32>, direction: Direction, bytes: u64)
        requires
            bytes > 0,
        ensures
            final(self)@ == with_bytes(old(self)@, pid, direction, bytes as nat),
    {
        match pid {
            Some(pid) => {
                let (down, up) = match self.counters.get(&pid) {
                    Some(c) => *c,
                    None => (0u64, 0u64),
                };
                let counter = match direction {
                    Direction::Download => (wrapping_sum(down, bytes), up),
                    Direction::Upload => (down, wrapping_sum(up, bytes)),
                };
                self.counters.insert(pid, counter);
            },
            None => {},
        }
        match direction {
            Direction::Download => {
                self.global_download = wrapping_sum(self.global_download, bytes);
            },
            Direction::Upload => {
                self.global_upload = wrapping_sum(self.global_upload, bytes);
            },
        }
    }
}

/// Packets without payload, such as bare acknowledgements, pass unless their traffic is blocked,
/// cost nothing, and add nothing to what is counted but the packet itself.
pub proof fn empty_packets_are_free(
    e: EngineView,
    l: LimiterView,
    ports: PortPidMap,
    a: Arrival,
)
    requires
        read_arrival(e, a) matches Some(packet) && packet.payload_len == 0 && !is_blocked(
            e,
            packet_owner(ports, packet, a),
        ),
    ensures
        step(e, l, ports, a) == (Step {
            engine: EngineView { packets_processed: wrapped_sum(e.packets_processed, 1), ..e },
            limiter: l,
            verdict: Verdict::Send,
        }),
{
}

/// With IPv6 switched off, IPv6 packets pass unchanged and uncharged.
pub proof fn disabled_ipv6_passes(e: EngineView, l: LimiterView, ports: PortPidMap, a: Arrival)
    requires
        !e.ipv6_enabled,
        a.is_ipv6,
    ensures
        step(e, l, ports, a) == (Step {
            engine: EngineView { packets_processed: wrapped_sum(e.packets_processed, 1), ..e },
            limiter: l,
            verdict: Verdict::Send,
        }),
{
}

/// The global rule comes first: what it drops is put to no process's rule and spends none of a
/// process's budget.
pub proof fn global_rule_comes_first(
    e: EngineView,
    l: LimiterView,
    pid: Option<u32>,
    direction: Direction,
    bytes: nat,
    now: u64,
)
    requires
        global_decision(e.global_rule, l, direction, bytes, now).dropped,
    ensures
        decision(e, l, pid, direction, bytes, now).dropped,
        decision(e, l, pid, direction, bytes, now).limiter.downloads == l.downloads,
        decision(e, l, pid, direction, bytes, now).limiter.uploads == l.uploads,
{
}

/// Blocking drops every packet, in both directions and with or without payload: of all traffic by
/// the global rule, of one process by its own. No bucket of a process is charged for it.
pub proof fn blocked_traffic_is_dropped(
    e: EngineView,
    l: LimiterView,
    pid: Option<u32>,
    direction: Direction,
    bytes: nat,
    now: u64,
)
    requires
        is_blocked(e, pid),
    ensures
        decision(e, l, pid, direction, bytes, now).dropped,
        decision(e, l, pid, direction, bytes, now).limiter.downloads == l.downloads,
        decision(e, l, pid, direction, bytes, now).limiter.uploads == l.uploads,
{
}

/// Traffic that no rule limits in its direction passes and is charged to no bucket.
pub proof fn unlimited_traffic_passes(
    e: EngineView,
    l: LimiterView,
    pid: Option<u32>,
    direction: Direction,
    bytes: nat,
    now: u64,
)
    requires
        !e.global_rule.block_all,
        e.global_rule.effective(direction) is None,
        pid matches Some(p) ==> e.rules.contains_key(p) ==> !e.rules[p].block_all
            && e.rules[p].effective(direction) is None,
    ensures
        decision(e, l, pid, direction, bytes, now) == (Decision { limiter: l, dropped: false }),
{
}

/// Byte counters take in exactly the payload of packets that were let through: a dropped packet
/// adds nothing to them, and every packet adds one to those processed.
pub proof fn only_allowed_bytes_count(
    e: EngineView,
    l: LimiterView,
    ports: PortPidMap,
    a: Arrival,
)
    ensures
        ({
            let s = step(e, l, ports, a);
            &&& s.engine.packets_processed == wrapped_sum(e.packets_processed, 1)
            &&& s.engine.rules == e.rules
            &&& s.engine.global_rule == e.global_rule
            &&& s.verdict == Verdict::Drop ==> {
                &&& s.engine.counters == e.counters
                &&& s.engine.global_download == e.global_download
                &&& s.engine.global_upload == e.global_upload
                &&& s.engine.packets_dropped == wrapped_sum(e.packets_dropped, 1)
            }
            &&& s.verdict == Verdict::Send ==> s.engine.packets_dropped == e.packets_dropped
            &&& s.verdict == Verdict::Send ==> (read_arrival(e, a) matches Some(packet) ==> {
                let direction = direction_of(a.outbound);
                let bytes = packet.payload_len as nat;
                &&& (s.engine.global_download, s.engine.global_upload) == count_more(
                    (e.global_download, e.global_upload),
                    direction,
                    bytes,
                )
                &&& packet_owner(ports, packet, a) matches Some(pid) ==> counted(
                    s.engine.counters,
                    pid,
                ) == count_more(counted(e.counters, pid), direction, bytes)
            })
        }),
{
}

/// No packet touches another process's bucket or counter.
pub proof fn processes_are_limited_apart(
    e: EngineView,
    l: LimiterView,
    ports: PortPidMap,
    a: Arrival,
    other: u32,
)
    requires
        read_arrival(e, a) matches Some(packet) ==> packet_owner(ports, packet, a) != Some(other),
    ensures
        step(e, l, ports, a).limiter.slot(other, Direction::Download) == l.slot(
            other,
            Direction::Download,
        ),
        step(e, l, ports, a).limiter.slot(other, Direction::Upload) == l.slot(
            other,
            Direction::Upload,
        ),
        counted(step(e, l, ports, a).engine.counters, other) == counted(e.counters, other),
{
}

/// After the rules are cleared every packet passes.
pub proof fn cleared_rules_let_pass(e: EngineView, l: LimiterView, ports: PortPidMap, a: Arrival)
    ensures
        step(after_command(e, CommandView::ClearRules), l, ports, a).verdict == Verdict::Send,
{
}

/// The rules in force all say something, and stay so through every command.
pub proof fn empty_rules_are_not_kept(e: EngineView, command: CommandView, pid: u32)
    requires
        forall|p: u32| #[trigger] e.rules.contains_key(p) ==> e.rules[p].any(),
        after_command(e, command).rules.contains_key(pid),
    ensures
        after_command(e, command).rules[pid].any(),
{
    match command {
        CommandView::UpdateRuleForPids(pids, rule) => lemma_rules_kept(e.rules, pids, rule, pid),
        _ => {},
    }
}

proof fn lemma_rules_kept(rules: Map<u32, ProcessRule>, pids: Seq<u32>, rule: ProcessRule, pid: u32)
    requires
        forall|p: u32| #[trigger] rules.contains_key(p) ==> rules[p].any(),
        with_rule_for(rules, pids, rule).contains_key(pid),
    ensures
        with_rule_for(rules, pids, rule)[pid].any(),
    decreases pids.len(),
{
    if pids.len() > 0 {
        let init = with_rule_for(rules, pids.drop_last(), rule);
        if init.contains_key(pid) {
            lemma_rules_kept(rules, pids.drop_last(), rule, pid);
        }
    }
}

/// A rule set for a list of processes is the rule of each of them, and of no other.
pub proof fn rule_for_many_is_one_for_each(
    rules: Map<u32, ProcessRule>,
    pids: Seq<u32>,
    rule: ProcessRule,
    pid: u32,
)
    ensures
        pids.contains(pid) ==> with_rule_for(rules, pids, rule).contains_key(pid) == rule.any(),
        pids.contains(pid) && rule.any() ==> with_rule_for(rules, pids, rule)[pid] == rule,
        !pids.contains(pid) ==> with_rule_for(rules, pids, rule).contains_key(pid)
            == rules.contains_key(pid),
        !pids.contains(pid) && rules.contains_key(pid) ==> with_rule_for(rules, pids, rule)[pid]
            == rules[pid],
    decreases pids.len(),
{
    if pids.len() > 0 {
        let init = pids.drop_last();
        rule_for_many_is_one_for_each(rules, init, rule, pid);
        assert(pids.contains(pid) == (init.contains(pid) || pids.last() == pid)) by {
            if init.contains(pid) {
                let i = choose|i: int| 0 <= i < init.len() && init[i] == pid;
                assert(pids[i] == pid);
            }
            if pids.contains(pid) && pids.last() != pid {
                let i = choose|i: int| 0 <= i < pids.len() && pids[i] == pid;
                assert(init[i] == pid);
            }
            assert(pids[pids.len() - 1] == pids.last());
        }
    }
}

/// A second snapshot right after the first shows no bytes; rules and packet totals are untouched.
pub proof fn snapshots_start_counting_anew(e: EngineView)
    ensures
        forall|pid: u32| #[trigger]
            after_snapshot(e).counters.contains_key(pid) ==> after_snapshot(e).counters[pid] == (
            0u64,
            0u64,
            ),
        after_snapshot(e).counters.dom() == e.counters.dom(),
        after_snapshot(e).global_download == 0,
        after_snapshot(e).global_upload == 0,
        after_snapshot(after_snapshot(e)) == after_snapshot(e),
        after_snapshot(e).rules == e.rules,
        after_snapshot(e).packets_processed == e.packets_processed,
        after_snapshot(e).packets_dropped == e.packets_dropped,
{
    assert(after_snapshot(after_snapshot(e)) =~= after_snapshot(e));
}

} // verus!
