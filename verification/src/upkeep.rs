//! What happens to the state every second: samples, feedback, names, and the table.

use crate::engine::{CommandView, EngineView};
use crate::order::{ranks, sorted, sorting_keeps_items, sorting_orders};
use crate::rate::{adaptive_rate, last_of, mean};
use crate::rows::{
    group_speed, pid_order, table, KindView, ProcessInfo, RowView, SortColumn, SortDirection,
};
use crate::rule::{runtime, Direction, ProcessRule};
use crate::settings::SettingsView;
use crate::speed::SpeedUnit;
use crate::state::{
    after_feedback, fed_back, fingerprint, first_state, measured, name_edit, name_pass, pids_of,
    rebuild_edit, refresh_edit, rows_with_speeds, settings_of, status_text, stopped, ticked,
    told_all, told_feedback, with_table, History, StateView,
};
use crate::tcp::TcpConnection;
use crate::text::lowercase;
use vstd::prelude::*;

verus! {

/// The samples of a process so far; none where it was never followed.
pub open spec fn samples_of(m: Map<u32, History>, pid: u32) -> Seq<u64> {
    if m.contains_key(pid) {
        m[pid].samples
    } else {
        Seq::empty()
    }
}

/// The samples after one more second in which `bytes` bytes passed: the last five of them.
pub open spec fn one_more(samples: Seq<u64>, bytes: u64) -> Seq<u64> {
    last_of(
        samples.push(
            if bytes <= 6_148_914_691_236 {
                (bytes * 3_000_000) as u64
            } else {
                u64::MAX
            },
        ),
        5,
    )
}

/// Whether a history averages over five samples.
pub open spec fn of_five(h: History) -> bool {
    h.window == 5
}

/// A second of traffic gives every process that passed any, ever did, or has a rule one more
/// sample of what it passed each way, nothing where it passed none; its speeds are the averages of
/// the last five. The same holds of all traffic. Nothing else changes.
pub proof fn speeds_are_averages_of_five_seconds(
    s: StateView,
    counts: Map<u32, (u64, u64)>,
    download: u64,
    upload: u64,
    pid: u32,
)
    requires
        of_five(s.global_dl_history),
        of_five(s.global_ul_history),
        s.dl_history.contains_key(pid) ==> of_five(s.dl_history[pid]),
        s.ul_history.contains_key(pid) ==> of_five(s.ul_history[pid]),
    ensures
        ({
            let t = measured(s, counts, download, upload);
            let (dl, ul) = if counts.contains_key(pid) {
                counts[pid]
            } else {
                (0u64, 0u64)
            };
            let a = one_more(samples_of(s.dl_history, pid), dl);
            let b = one_more(samples_of(s.ul_history, pid), ul);
            let c = one_more(s.global_dl_history.samples, download);
            let d = one_more(s.global_ul_history.samples, upload);
            let followed = counts.contains_key(pid) || s.dl_history.contains_key(pid)
                || s.ul_history.contains_key(pid) || s.rules.contains_key(pid);
            &&& t.speeds.contains_key(pid) == followed
            &&& t.dl_history.contains_key(pid) == followed
            &&& t.ul_history.contains_key(pid) == followed
            &&& followed ==> {
                &&& t.dl_history[pid] == (History { samples: a, window: 5 })
                &&& t.ul_history[pid] == (History { samples: b, window: 5 })
                &&& t.speeds[pid].0 == mean(a)
                &&& t.speeds[pid].1 == mean(b)
            }
            &&& t.global_dl_history == (History { samples: c, window: 5 })
            &&& t.global_ul_history == (History { samples: d, window: 5 })
            &&& t.global_dl_bps == mean(c)
            &&& t.global_ul_bps == mean(d)
            &&& t == (StateView {
                dl_history: t.dl_history,
                ul_history: t.ul_history,
                speeds: t.speeds,
                global_dl_history: t.global_dl_history,
                global_ul_history: t.global_ul_history,
                global_dl_bps: t.global_dl_bps,
                global_ul_bps: t.global_ul_bps,
                ..s
            })
        }),
{
    let (dl, ul) = if counts.contains_key(pid) {
        counts[pid]
    } else {
        (0u64, 0u64)
    };
    crate::rate::speeds_are_in_proportion(dl);
    crate::rate::speeds_are_in_proportion(ul);
    crate::rate::speeds_are_in_proportion(0);
    crate::rate::speeds_are_in_proportion(download);
    crate::rate::speeds_are_in_proportion(upload);
    lemma_mean_fits(one_more(samples_of(s.dl_history, pid), dl));
    lemma_mean_fits(one_more(samples_of(s.ul_history, pid), ul));
    lemma_mean_fits(one_more(s.global_dl_history.samples, download));
    lemma_mean_fits(one_more(s.global_ul_history.samples, upload));
}

proof fn lemma_mean_fits(samples: Seq<u64>)
    ensures
        0 <= mean(samples) <= u64::MAX,
{
    if samples.len() > 0 {
        crate::rate::average_lies_between(samples, 0, u64::MAX);
    }
}

/// Feedback steers each rule that adapts, in each direction that it limits, by the speed measured
/// there, and leaves every other rate alone.
pub proof fn feedback_steers_by_what_was_measured(rule: ProcessRule, down: u64, up: u64)
    ensures
        ({
            let r = fed_back(rule, (down, up));
            &&& rule.adaptive && rule.limit_download && rule.download_kbps > 0
                ==> r.adjusted_dl_bps == adaptive_rate(
                rule.adjusted_dl_bps as int,
                down as int,
                rule.download_kbps * 3_072_000_000,
            )
            &&& rule.adaptive && rule.limit_upload && rule.upload_kbps > 0 ==> r.adjusted_ul_bps
                == adaptive_rate(
                rule.adjusted_ul_bps as int,
                up as int,
                rule.upload_kbps * 3_072_000_000,
            )
            &&& !(rule.adaptive && rule.limit_download && rule.download_kbps > 0)
                ==> r.adjusted_dl_bps == rule.adjusted_dl_bps
            &&& !(rule.adaptive && rule.limit_upload && rule.upload_kbps > 0)
                ==> r.adjusted_ul_bps == rule.adjusted_ul_bps
            &&& r == (ProcessRule {
                adjusted_dl_bps: r.adjusted_dl_bps,
                adjusted_ul_bps: r.adjusted_ul_bps,
                ..rule
            })
        }),
{
    lemma_steered_fits(rule.adjusted_dl_bps, down, rule.download_kbps);
    lemma_steered_fits(rule.adjusted_ul_bps, up, rule.upload_kbps);
    assert(rule.download_kbps * 1024 * crate::rule::BYTE_PER_SEC == rule.download_kbps
        * 3_072_000_000);
    assert(rule.upload_kbps * 1024 * crate::rule::BYTE_PER_SEC == rule.upload_kbps
        * 3_072_000_000);
}

proof fn lemma_steered_fits(current: u64, speed: u64, kibps: u32)
    ensures
        0 <= adaptive_rate(current as int, speed as int, kibps * 3_072_000_000) <= u64::MAX,
{
    let target = kibps * 3_072_000_000;
    if target > 0 {
        if current > 0 {
            crate::rate::adaptive_rate_is_brought_into_bounds(current as int, speed as int, target);
        } else {
            crate::rate::adaptive_rate_is_brought_into_bounds(target, speed as int, target);
        }
    }
}

/// Feedback gives each process's rule that process's speeds, and the rule for all traffic those of
/// all traffic; no rule comes or goes, and nothing else changes.
pub proof fn feedback_reaches_every_rule(s: StateView, pid: u32)
    ensures
        ({
            let t = after_feedback(s);
            let speeds = if s.speeds.contains_key(pid) {
                s.speeds[pid]
            } else {
                (0u64, 0u64)
            };
            &&& t.rules.contains_key(pid) == s.rules.contains_key(pid)
            &&& s.rules.contains_key(pid) ==> t.rules[pid] == fed_back(s.rules[pid], speeds)
            &&& t.global_rule == fed_back(s.global_rule, (s.global_dl_bps, s.global_ul_bps))
            &&& t == (StateView { rules: t.rules, global_rule: t.global_rule, ..s })
        }),
{
}

/// After feedback the engine has each rule that was steered, as it was steered, and every other
/// rule as it had it.
pub proof fn engine_hears_of_feedback(e: EngineView, s: StateView, pid: u32)
    ensures
        ({
            let f = told_feedback(e, s);
            let t = after_feedback(s);
            let limited = |r: ProcessRule|
                r.adaptive && ((r.limit_download && r.download_kbps > 0) || (r.limit_upload
                    && r.upload_kbps > 0));
            let heard = s.rules.contains_key(pid) && limited(s.rules[pid]);
            &&& heard ==> f.rules.contains_pair(pid, t.rules[pid])
            &&& !heard ==> f.rules.contains_key(pid) == e.rules.contains_key(pid) && (
            e.rules.contains_key(pid) ==> f.rules[pid] == e.rules[pid])
            &&& f.global_rule == if limited(s.global_rule) {
                t.global_rule
            } else {
                e.global_rule
            }
            &&& f == (EngineView { rules: f.rules, global_rule: f.global_rule, ..e })
        }),
{
}

/// Told all rules, the engine has each rule without its drafts, none where nothing is left of it,
/// and keeps what it knew of processes that have none.
pub proof fn engine_is_told_every_rule(e: EngineView, s: StateView, pid: u32)
    ensures
        ({
            let f = told_all(e, s);
            &&& s.rules.contains_key(pid) ==> crate::edits::has_rule(
                f.rules,
                pid,
                runtime(s.rules[pid]),
            )
            &&& !s.rules.contains_key(pid) ==> crate::edits::same_rule(f.rules, e.rules, pid)
            &&& f.global_rule == runtime(s.global_rule)
            &&& f == (EngineView { rules: f.rules, global_rule: f.global_rule, ..e })
        }),
{
}

/// Stopping forgets every adjusted rate and nothing else.
pub proof fn stopping_forgets_adjusted_rates(s: StateView, pid: u32)
    ensures
        ({
            let t = stopped(s);
            &&& t.rules.contains_key(pid) == s.rules.contains_key(pid)
            &&& s.rules.contains_key(pid) ==> t.rules[pid] == (ProcessRule {
                adjusted_dl_bps: 0,
                adjusted_ul_bps: 0,
                ..s.rules[pid]
            })
            &&& t.global_rule == (ProcessRule {
                adjusted_dl_bps: 0,
                adjusted_ul_bps: 0,
                ..s.global_rule
            })
            &&& t == (StateView { rules: t.rules, global_rule: t.global_rule, ..s })
        }),
{
}

/// A tick measures, and where the engine runs also steers, by what was just measured.
pub proof fn ticks_measure_and_steer(s: StateView, snapshot: crate::engine::EngineSnapshot)
    ensures
        ({
            let m = measured(
                s,
                snapshot.per_pid@,
                snapshot.global_download_bytes,
                snapshot.global_upload_bytes,
            );
            &&& snapshot.running ==> ticked(s, snapshot) == after_feedback(m)
            &&& !snapshot.running ==> ticked(s, snapshot) == m
        }),
{
}

/// Showing new speeds changes nothing but speeds: the first row shows those of all traffic, a
/// group's row those of its processes together, and a process's row its own.
pub proof fn rows_show_the_latest_speeds(s: StateView, rows: Seq<RowView>, i: int)
    requires
        0 <= i < rows.len(),
    ensures
        ({
            let r = rows_with_speeds(s, rows)[i];
            &&& rows_with_speeds(s, rows).len() == rows.len()
            &&& r == (RowView { dl_bps: r.dl_bps, ul_bps: r.ul_bps, ..rows[i] })
            &&& i == 0 ==> r.dl_bps == s.global_dl_bps && r.ul_bps == s.global_ul_bps
            &&& i > 0 ==> match rows[i].kind {
                KindView::Global => r == rows[i],
                KindView::Group { pids, .. } => r.dl_bps == group_speed(
                    pids,
                    s.speeds,
                    Direction::Download,
                ) && r.ul_bps == group_speed(pids, s.speeds, Direction::Upload),
                KindView::Child { pid, .. } => (r.dl_bps, r.ul_bps) == if s.speeds.contains_key(
                    pid,
                ) {
                    s.speeds[pid]
                } else {
                    (0u64, 0u64)
                },
            }
        }),
{
}

/// Building the table lists the processes by name, with the state's rules and open groups, and
/// shows the latest speeds; nothing else changes.
pub proof fn tables_are_listed_by_name(s: StateView, ps: Seq<ProcessInfo>)
    ensures
        with_table(s, ps) == (StateView {
            rows: rows_with_speeds(
                s,
                table(
                    ps,
                    s.expanded,
                    s.rules,
                    s.speeds,
                    s.global_rule,
                    SortColumn::Process,
                    SortDirection::Ascending,
                ),
            ),
            ..s
        }),
{
}

/// A table is built anew just where other processes run or other groups are open; else its rows
/// stay as they are but for the speeds. Either way processes have the rules of their names, and
/// what is told the engine is what the names call for.
pub proof fn tables_are_rebuilt_where_they_changed(
    s: StateView,
    connections: Seq<TcpConnection>,
    ps: Seq<ProcessInfo>,
    running: bool,
)
    ensures
        ({
            let named = name_edit(s, ps, running);
            let edit = refresh_edit(s, connections, ps, running);
            let t = edit.state;
            let anew = fingerprint(ps, s.expanded) != s.table_fingerprint;
            &&& edit.commands == named.commands
            &&& t.rules == named.state.rules
            &&& t.all_connections == connections
            &&& t.table_fingerprint == fingerprint(ps, s.expanded)
            &&& anew ==> t.rows == rows_with_speeds(
                s,
                table(
                    ps,
                    s.expanded,
                    t.rules,
                    s.speeds,
                    s.global_rule,
                    SortColumn::Process,
                    SortDirection::Ascending,
                ),
            )
            &&& !anew ==> t.rows == rows_with_speeds(s, s.rows)
            &&& t == (StateView {
                rules: t.rules,
                rows: t.rows,
                all_connections: t.all_connections,
                table_fingerprint: t.table_fingerprint,
                ..s
            })
        }),
        ({
            let edit = rebuild_edit(s, ps, running);
            let t = edit.state;
            &&& edit.commands == name_edit(s, ps, running).commands
            &&& t.rules == name_edit(s, ps, running).state.rules
            &&& t.table_fingerprint == fingerprint(ps, s.expanded)
            &&& t.rows == rows_with_speeds(
                s,
                table(
                    ps,
                    s.expanded,
                    t.rules,
                    s.speeds,
                    s.global_rule,
                    SortColumn::Process,
                    SortDirection::Ascending,
                ),
            )
            &&& t == (StateView {
                rules: t.rules,
                rows: t.rows,
                table_fingerprint: t.table_fingerprint,
                ..s
            })
        }),
{
    let linked = StateView { all_connections: connections, ..s };
    let named = name_edit(linked, ps, running).state;
    let t = table(
        ps,
        s.expanded,
        named.rules,
        s.speeds,
        s.global_rule,
        SortColumn::Process,
        SortDirection::Ascending,
    );
    assert(rows_with_speeds(named, t) =~= rows_with_speeds(s, t));
    assert(rows_with_speeds(name_edit(s, ps, running).state, t) =~= rows_with_speeds(s, t));
}

/// Lists of the same processes, in whatever order, give the same fingerprint.
pub proof fn fingerprints_do_not_mind_the_order(
    a: Seq<ProcessInfo>,
    b: Seq<ProcessInfo>,
    expanded: Set<Seq<char>>,
)
    requires
        pids_of(a).to_multiset() == pids_of(b).to_multiset(),
    ensures
        fingerprint(a, expanded) == fingerprint(b, expanded),
{
    let less = pid_order();
    let leq = |x: u32, y: u32| x <= y;
    assert(ranks(less));
    let (x, y) = (pids_of(a), pids_of(b));
    sorting_keeps_items(x, less);
    sorting_keeps_items(y, less);
    sorting_orders(x, less);
    sorting_orders(y, less);
    let (p, q) = (sorted(x, less), sorted(y, less));
    assert(vstd::relations::sorted_by(p, leq)) by {
        assert forall|i: int, j: int| 0 <= i < j < p.len() implies #[trigger] leq(p[i], p[j]) by {
            assert(!less(p[j], p[i]));
        }
    }
    assert(vstd::relations::sorted_by(q, leq)) by {
        assert forall|i: int, j: int| 0 <= i < j < q.len() implies #[trigger] leq(q[i], q[j]) by {
            assert(!less(q[j], q[i]));
        }
    }
    vstd::seq_lib::lemma_sorted_unique(p, q, leq);
}

/// A process whose name has no rule keeps the rule that it had, and an engine that does not run is
/// told nothing.
pub proof fn names_without_rules_change_nothing(
    s: StateView,
    ps: Seq<ProcessInfo>,
    running: bool,
    pid: u32,
)
    requires
        forall|i: int|
            0 <= i < ps.len() && (#[trigger] ps[i]).pid == pid ==> !s.name_rules.contains_key(
                lowercase(ps[i].name@),
            ),
    ensures
        crate::edits::same_rule(name_edit(s, ps, running).state.rules, s.rules, pid),
        name_edit(s, ps, running).state == (StateView {
            rules: name_edit(s, ps, running).state.rules,
            ..s
        }),
        !running ==> name_edit(s, ps, running).commands.len() == 0,
    decreases ps.len(),
{
    if ps.len() > 0 {
        let init = ps.drop_last();
        assert forall|i: int| 0 <= i < init.len() && (#[trigger] init[i]).pid == pid implies
            !s.name_rules.contains_key(lowercase(init[i].name@)) by {
            assert(init[i] == ps[i]);
        }
        names_without_rules_change_nothing(s, init, running, pid);
        assert(ps[ps.len() - 1] == ps.last());
    }
}

/// A running engine is told of a process just where its name has a rule and it had none, and then
/// it is told that rule without drafts.
pub proof fn engine_hears_of_new_processes(s: StateView, ps: Seq<ProcessInfo>, i: int)
    requires
        0 <= i < ps.len(),
        forall|j: int, k: int|
            0 <= j < k < ps.len() ==> (#[trigger] ps[j]).pid != (#[trigger] ps[k]).pid,
    ensures
        ({
            let told = name_edit(s, ps, true).commands;
            let named = s.name_rules.contains_key(lowercase(ps[i].name@));
            let rule = s.name_rules[lowercase(ps[i].name@)];
            &&& named && !s.rules.contains_key(ps[i].pid) ==> told.contains(
                CommandView::UpdateRule(ps[i].pid, runtime(rule)),
            )
            &&& !named || s.rules.contains_key(ps[i].pid) ==> forall|k: int|
                0 <= k < told.len() ==> !(#[trigger] told[k] matches CommandView::UpdateRule(
                    pid,
                    _,
                ) && pid == ps[i].pid)
        }),
{
    lemma_told_names(s, ps, i);
}

proof fn lemma_told_names(s: StateView, ps: Seq<ProcessInfo>, i: int)
    requires
        0 <= i < ps.len(),
        forall|j: int, k: int|
            0 <= j < k < ps.len() ==> (#[trigger] ps[j]).pid != (#[trigger] ps[k]).pid,
    ensures
        ({
            let told = name_pass(s.name_rules, s.rules, ps).commands;
            let named = s.name_rules.contains_key(lowercase(ps[i].name@));
            let rule = s.name_rules[lowercase(ps[i].name@)];
            &&& named && !s.rules.contains_key(ps[i].pid) ==> told.contains(
                CommandView::UpdateRule(ps[i].pid, runtime(rule)),
            )
            &&& !named || s.rules.contains_key(ps[i].pid) ==> forall|k: int|
                0 <= k < told.len() ==> !(#[trigger] told[k] matches CommandView::UpdateRule(
                    pid,
                    _,
                ) && pid == ps[i].pid)
        }),
    decreases ps.len(),
{
    let init = ps.drop_last();
    let before = name_pass(s.name_rules, s.rules, init);
    let after = name_pass(s.name_rules, s.rules, ps);
    let last = ps.last();
    assert(last == ps[ps.len() - 1]);
    assert forall|j: int, k: int| 0 <= j < k < init.len() implies (#[trigger] init[j]).pid != (
    #[trigger] init[k]).pid by {
        assert(ps[j].pid != ps[k].pid);
    }
    if i < ps.len() - 1 {
        assert(init[i] == ps[i]);
        assert(ps[i].pid != ps[ps.len() - 1].pid);
        lemma_told_names(s, init, i);
        let c = CommandView::UpdateRule(
            ps[i].pid,
            runtime(s.name_rules[lowercase(ps[i].name@)]),
        );
        if before.commands.contains(c) {
            let k = choose|k: int| 0 <= k < before.commands.len() && before.commands[k] == c;
            assert(after.commands[k] == c);
        }
    } else {
        lemma_untold(s, init, last.pid);
        if s.name_rules.contains_key(lowercase(last.name@)) && !s.rules.contains_key(last.pid) {
            assert(after.commands.last() == CommandView::UpdateRule(
                last.pid,
                runtime(s.name_rules[lowercase(last.name@)]),
            ));
            assert(after.commands[after.commands.len() - 1] == after.commands.last());
        }
    }
}

proof fn lemma_untold(s: StateView, ps: Seq<ProcessInfo>, pid: u32)
    requires
        forall|i: int| 0 <= i < ps.len() ==> (#[trigger] ps[i]).pid != pid,
    ensures
        name_pass(s.name_rules, s.rules, ps).rules.contains_key(pid) == s.rules.contains_key(pid),
        forall|k: int|
            0 <= k < name_pass(s.name_rules, s.rules, ps).commands.len() ==> !(
            #[trigger] name_pass(s.name_rules, s.rules, ps).commands[k] matches
                CommandView::UpdateRule(p, _) && p == pid),
    decreases ps.len(),
{
    if ps.len() > 0 {
        let init = ps.drop_last();
        assert forall|i: int| 0 <= i < init.len() implies (#[trigger] init[i]).pid != pid by {
            assert(init[i] == ps[i]);
        }
        lemma_untold(s, init, pid);
        assert(ps[ps.len() - 1] == ps.last());
        assert(ps.last().pid != pid);
    }
}

/// A program starts with the rules, open groups, units and IPv6 switch of its settings, and with
/// nothing measured, selected, searched for or shown; what it would keep then is what it read.
pub proof fn programs_start_from_their_settings(
    s: SettingsView,
    computer_name: Seq<char>,
    pid: u32,
)
    ensures
        ({
            let t = first_state(s, computer_name);
            let kept = settings_of(t);
            &&& t.expanded == s.expanded && kept.expanded == s.expanded
            &&& t.name_rules == s.name_rules && kept.name_rules == s.name_rules
            &&& t.global_rule == s.global_rule && kept.global_rule == s.global_rule
            &&& t.ipv6_enabled == s.ipv6_enabled && kept.ipv6_enabled == s.ipv6_enabled
            &&& (t.speed_unit == SpeedUnit::Bits) == s.speed_unit_bits && kept.speed_unit_bits
                == s.speed_unit_bits
            &&& t.computer_name == computer_name
            &&& !t.rules.contains_key(pid) && !t.speeds.contains_key(pid)
            &&& !t.dl_history.contains_key(pid) && !t.ul_history.contains_key(pid)
            &&& t.rows.len() == 0 && t.process_search.len() == 0 && t.all_connections.len() == 0
            &&& t.global_dl_history.samples.len() == 0 && t.global_ul_history.samples.len() == 0
            &&& of_five(t.global_dl_history) && of_five(t.global_ul_history)
            &&& t.global_dl_bps == 0 && t.global_ul_bps == 0
            &&& t.selected is None && t.last_row_click is None
            &&& t.suppress_table_refresh_until is None && !t.limit_editing
            &&& t.table_fingerprint.pids.len() == 0 && t.table_fingerprint.expanded.len() == 0
        }),
{
}

/// The status bar of a stopped engine says so; that of a running one shows both speeds with the
/// download in front, and how many packets were seen and dropped.
pub proof fn the_status_bar_shows_speeds_and_packets(
    s: StateView,
    snapshot: crate::engine::EngineSnapshot,
)
    ensures
        !snapshot.running ==> status_text(s, snapshot) == "Interceptor stopped"@,
        snapshot.running ==> status_text(s, snapshot) == "Interceptor running   v "@
            + crate::speed::speed_text(s.global_dl_bps as nat, s.speed_unit) + "   ^ "@
            + crate::speed::speed_text(s.global_ul_bps as nat, s.speed_unit)
            + "   |   Packets: "@ + crate::number::decimal(snapshot.packets_processed as nat)
            + "   Dropped: "@ + crate::number::decimal(snapshot.packets_dropped as nat),
{
}

} // verus!
