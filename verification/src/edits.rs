//! What commands, clicks and edits change, and what they leave alone.

use crate::engine::{
    after_command, after_commands, after_snapshot, is_snapshot, rule_for_many_is_one_for_each,
    without_counts, CommandView, EngineCommand, EngineSnapshot, EngineView,
};
use crate::rows::{KindView, RowView};
use crate::rule::{runtime, ProcessRule};
use crate::search::{hidden_answers, located, ProcessSearchLocate};
use crate::state::{
    is_double_click, limit_edit, paused, row_at, row_in_focus, row_selected, rule_edit, searched,
    selected_limit_edit, selected_switch_edit, selection_of, switch_edit, toggled, with_found,
    with_limit, with_switch, Edit, SelectionView, StateView,
};
use crate::text::{lowercase, trimmed};
use vstd::prelude::*;

verus! {

/// Whether a rule holds anything that the user set.
pub open spec fn is_set(rule: ProcessRule) -> bool {
    rule.block_all || rule.limit_download || rule.limit_upload || rule.adaptive
        || rule.download_kbps != 0 || rule.upload_kbps != 0
}

/// Whether `pid` has exactly the rule `rule` among `rules`: itself where it holds anything, and
/// none where it does not.
pub open spec fn has_rule(rules: Map<u32, ProcessRule>, pid: u32, rule: ProcessRule) -> bool {
    &&& rules.contains_key(pid) == is_set(rule)
    &&& is_set(rule) ==> rules[pid] == rule
}

/// Whether `pid` has the same rule, or none, among both.
pub open spec fn same_rule(
    a: Map<u32, ProcessRule>,
    b: Map<u32, ProcessRule>,
    pid: u32,
) -> bool {
    &&& a.contains_key(pid) == b.contains_key(pid)
    &&& a.contains_key(pid) ==> a[pid] == b[pid]
}

/// A command sets the rule of just the processes that it names, or the rule for all traffic, or
/// clears them all, and touches nothing else.
pub proof fn commands_change_only_what_they_name(
    e: EngineView,
    pid: u32,
    pids: Seq<u32>,
    rule: ProcessRule,
    other: u32,
)
    ensures
        ({
            let one = after_command(e, CommandView::UpdateRule(pid, rule));
            &&& has_rule(one.rules, pid, rule)
            &&& other != pid ==> same_rule(one.rules, e.rules, other)
            &&& one == EngineView { rules: one.rules, ..e }
        }),
        ({
            let many = after_command(e, CommandView::UpdateRuleForPids(pids, rule));
            &&& pids.contains(other) ==> has_rule(many.rules, other, rule)
            &&& !pids.contains(other) ==> same_rule(many.rules, e.rules, other)
            &&& many == EngineView { rules: many.rules, ..e }
        }),
        after_command(e, CommandView::SetGlobalRule(rule)) == (EngineView {
            global_rule: rule,
            ..e
        }),
        ({
            let none = after_command(e, CommandView::ClearRules);
            &&& !none.rules.contains_key(other)
            &&& !is_set(none.global_rule)
            &&& none.global_rule.adjusted_dl_bps == 0 && none.global_rule.adjusted_ul_bps == 0
            &&& none == EngineView { rules: none.rules, global_rule: none.global_rule, ..e }
        }),
{
    rule_for_many_is_one_for_each(e.rules, pids, rule, other);
}

/// Commands are carried out one after the other, each once.
pub proof fn commands_are_carried_out_in_turn(
    e: EngineView,
    a: Seq<CommandView>,
    b: Seq<CommandView>,
    c: CommandView,
)
    ensures
        after_commands(e, Seq::empty()) == e,
        after_commands(e, seq![c]) == after_command(e, c),
        after_commands(e, a + b) == after_commands(after_commands(e, a), b),
    decreases b.len(),
{
    let one = seq![c];
    assert(one.drop_last() =~= Seq::<CommandView>::empty());
    assert(after_commands(e, one.drop_last()) == e);
    if b.len() == 0 {
        assert(a + b =~= a);
    } else {
        assert((a + b).drop_last() =~= a + b.drop_last());
        commands_are_carried_out_in_turn(e, a, b.drop_last(), c);
    }
}

/// A snapshot tells what was counted, each count in its place, and counting bytes goes on from
/// nothing; a start forgets every count, and neither touches a rule.
pub proof fn snapshots_tell_what_was_counted(
    s: EngineSnapshot,
    e: EngineView,
    running: bool,
    pid: u32,
)
    requires
        is_snapshot(s, e, running),
    ensures
        s.per_pid@.contains_key(pid) == e.counters.contains_key(pid),
        s.per_pid@.contains_key(pid) ==> s.per_pid@[pid] == e.counters[pid],
        s.global_download_bytes == e.global_download,
        s.global_upload_bytes == e.global_upload,
        s.packets_processed == e.packets_processed,
        s.packets_dropped == e.packets_dropped,
        s.running == running,
        after_snapshot(e) == (EngineView {
            counters: after_snapshot(e).counters,
            global_download: 0,
            global_upload: 0,
            ..e
        }),
        ({
            let f = without_counts(e);
            &&& !f.counters.contains_key(pid)
            &&& f.global_download == 0 && f.global_upload == 0
            &&& f.packets_processed == 0 && f.packets_dropped == 0
            &&& f.rules == e.rules && f.global_rule == e.global_rule
            &&& f.ipv6_enabled == e.ipv6_enabled
        }),
{
}

proof fn lemma_names_of_switches()
    ensures
        "limit_dl"@ != "limit_ul"@,
        "limit_dl"@ != "block"@,
        "limit_dl"@ != "adaptive"@,
        "limit_ul"@ != "block"@,
        "limit_ul"@ != "adaptive"@,
        "block"@ != "adaptive"@,
        "dl"@ != "ul"@,
{
    reveal_strlit("limit_dl");
    reveal_strlit("limit_ul");
    reveal_strlit("block");
    reveal_strlit("adaptive");
    reveal_strlit("dl");
    reveal_strlit("ul");
    assert("limit_dl"@[6] != "limit_ul"@[6]);
    assert("limit_dl"@[0] != "block"@[0]);
    assert("limit_dl"@[0] != "adaptive"@[0]);
    assert("limit_ul"@[0] != "adaptive"@[0]);
    assert("limit_ul"@[0] != "block"@[0]);
    assert("block"@[0] != "adaptive"@[0]);
    assert("dl"@[0] != "ul"@[0]);
}

/// Each switch sets the one thing that it is named after; only that of adaptation, when it is put
/// off, also forgets the adjusted rates. Other names are no switches.
pub proof fn switches_set_one_thing(rule: ProcessRule, name: Seq<char>, value: bool)
    ensures
        with_switch(rule, "limit_dl"@, value) == Some(
            ProcessRule { limit_download: value, ..rule },
        ),
        with_switch(rule, "limit_ul"@, value) == Some(ProcessRule { limit_upload: value, ..rule }),
        with_switch(rule, "block"@, value) == Some(ProcessRule { block_all: value, ..rule }),
        with_switch(rule, "adaptive"@, true) == Some(ProcessRule { adaptive: true, ..rule }),
        with_switch(rule, "adaptive"@, false) == Some(
            ProcessRule { adaptive: false, adjusted_dl_bps: 0, adjusted_ul_bps: 0, ..rule },
        ),
        name != "limit_dl"@ && name != "limit_ul"@ && name != "block"@ && name != "adaptive"@
            ==> with_switch(rule, name, value) is None,
{
    lemma_names_of_switches();
}

/// A limit is set in the direction that is named, and nothing else is; other names are no
/// directions.
pub proof fn limits_are_set_one_way(rule: ProcessRule, name: Seq<char>, kibps: u32)
    ensures
        with_limit(rule, "dl"@, kibps) == Some(ProcessRule { download_kbps: kibps, ..rule }),
        with_limit(rule, "ul"@, kibps) == Some(ProcessRule { upload_kbps: kibps, ..rule }),
        name != "dl"@ && name != "ul"@ ==> with_limit(rule, name, kibps) is None,
{
    lemma_names_of_switches();
}

/// Giving a row a rule gives it to what the row stands for, and to nothing else: the row of all
/// traffic to all traffic, the row of a process to that process, the row of a group to each of its
/// processes and, for those to come, to its name. The engine is told the same, without drafts, in
/// one command.
pub proof fn rows_are_given_rules(
    s: StateView,
    kind: KindView,
    rule: ProcessRule,
    pid: u32,
    name: Seq<char>,
)
    ensures
        ({
            let edit = rule_edit(s, kind, Some(rule));
            let t = edit.state;
            let told = edit.commands;
            &&& told.len() == 1
            &&& match kind {
                KindView::Global => t == (StateView { global_rule: rule, ..s }) && told[0]
                    == CommandView::SetGlobalRule(runtime(rule)),
                KindView::Child { pid: own, .. } => {
                    &&& t == StateView { rules: t.rules, ..s }
                    &&& pid == own ==> has_rule(t.rules, pid, rule)
                    &&& pid != own ==> same_rule(t.rules, s.rules, pid)
                    &&& told[0] == CommandView::UpdateRule(own, runtime(rule))
                },
                KindView::Group { process_name, pids, .. } => {
                    &&& t == StateView { rules: t.rules, name_rules: t.name_rules, ..s }
                    &&& pids.contains(pid) ==> has_rule(t.rules, pid, rule)
                    &&& !pids.contains(pid) ==> same_rule(t.rules, s.rules, pid)
                    &&& name == lowercase(process_name) ==> t.name_rules.contains_key(name)
                        == is_set(rule) && (is_set(rule) ==> t.name_rules[name] == rule)
                    &&& name != lowercase(process_name) ==> t.name_rules.contains_key(name)
                        == s.name_rules.contains_key(name) && (s.name_rules.contains_key(name)
                        ==> t.name_rules[name] == s.name_rules[name])
                    &&& told[0] == CommandView::UpdateRuleForPids(pids, runtime(rule))
                },
            }
        }),
        rule_edit(s, kind, None) == (Edit { state: s, commands: Seq::empty() }),
{
    if let KindView::Group { pids, .. } = kind {
        rule_for_many_is_one_for_each(s.rules, pids, rule, pid);
    }
}

/// A switch or a limit of a row changes the rule that the row shows, selects the row, and, where a
/// limit was entered, holds the table still for two seconds. An index without a row, and a text
/// that is no limit, change nothing.
pub proof fn edits_go_to_the_row(
    s: StateView,
    row_index: i32,
    name: Seq<char>,
    value: bool,
    text: Seq<char>,
    now: u64,
)
    ensures
        row_index < 0 || row_index >= s.rows.len() ==> switch_edit(s, row_index, name, value) == (
        Edit { state: s, commands: Seq::empty() }) && limit_edit(s, row_index, name, text, now) == (
        Edit { state: s, commands: Seq::empty() }),
        0 <= row_index < s.rows.len() ==> {
            let row = s.rows[row_index as int];
            let chosen = StateView { selected: Some(selection_of(row.kind)), ..s };
            let until = if now + 2_000_000_000 <= u64::MAX {
                (now + 2_000_000_000) as u64
            } else {
                u64::MAX
            };
            &&& switch_edit(s, row_index, name, value) == rule_edit(
                chosen,
                row.kind,
                with_switch(row.rule, name, value),
            )
            &&& match crate::speed::limit_input(text, s.speed_unit) {
                Some(kibps) => limit_edit(s, row_index, name, text, now) == rule_edit(
                    StateView { suppress_table_refresh_until: Some(until), ..chosen },
                    row.kind,
                    with_limit(row.rule, name, kibps as u32),
                ),
                None => limit_edit(s, row_index, name, text, now) == (Edit {
                    state: s,
                    commands: Seq::empty(),
                }),
            }
        },
{
}

/// A row is what was selected: all traffic, a group by its name in lower case, or a process by its
/// number.
pub proof fn rows_are_selected_by_what_they_stand_for(kind: KindView)
    ensures
        match selection_of(kind) {
            SelectionView::Global => kind is Global,
            SelectionView::Group(name) => kind is Group && name == lowercase(
                kind->Group_process_name,
            ),
            SelectionView::Child(pid) => kind is Child && pid == kind->Child_pid,
        },
{
}

proof fn lemma_row_selected(rows: Seq<RowView>, sel: SelectionView, from: int, i: int)
    requires
        0 <= from <= i <= rows.len(),
        forall|j: int| from <= j < i ==> selection_of(#[trigger] rows[j].kind) != sel,
        i < rows.len() ==> selection_of(rows[i].kind) == sel,
    ensures
        row_selected(rows, Some(sel), from) == if i < rows.len() {
            Some(i)
        } else {
            None
        },
    decreases i - from,
{
    if from < i {
        assert(selection_of(rows[from].kind) != sel);
        lemma_row_selected(rows, sel, from + 1, i);
    }
}

/// The selected row is the first that is what was selected; edits of the selected row are edits of
/// that row, and without one nothing changes.
pub proof fn edits_go_to_the_selected_row(
    s: StateView,
    sel: SelectionView,
    i: int,
    name: Seq<char>,
    value: bool,
    text: Seq<char>,
    now: u64,
)
    requires
        s.selected == Some(sel),
        0 <= i <= s.rows.len(),
        forall|j: int| 0 <= j < i ==> selection_of(#[trigger] s.rows[j].kind) != sel,
        i < s.rows.len() ==> selection_of(s.rows[i].kind) == sel,
    ensures
        i < s.rows.len() ==> {
            let row = s.rows[i];
            let until = if now + 2_000_000_000 <= u64::MAX {
                (now + 2_000_000_000) as u64
            } else {
                u64::MAX
            };
            &&& row_selected(s.rows, s.selected, 0) == Some(i)
            &&& row_in_focus(s) == Some(row)
            &&& selected_switch_edit(s, name, value) == rule_edit(
                s,
                row.kind,
                with_switch(row.rule, name, value),
            )
            &&& match crate::speed::limit_input(text, s.speed_unit) {
                Some(kibps) => selected_limit_edit(s, name, text, now) == rule_edit(
                    StateView { suppress_table_refresh_until: Some(until), ..s },
                    row.kind,
                    with_limit(row.rule, name, kibps as u32),
                ),
                None => selected_limit_edit(s, name, text, now) == (Edit {
                    state: s,
                    commands: Seq::empty(),
                }),
            }
        },
        i == s.rows.len() ==> {
            &&& row_selected(s.rows, s.selected, 0) is None
            &&& row_in_focus(s) is None
            &&& selected_switch_edit(s, name, value) == (Edit {
                state: s,
                commands: Seq::empty(),
            })
            &&& selected_limit_edit(s, name, text, now) == (Edit {
                state: s,
                commands: Seq::empty(),
            })
        },
{
    lemma_row_selected(s.rows, sel, 0, i);
}

/// Without a selection no row is selected, and editing the selected row changes nothing.
pub proof fn nothing_selected_means_no_row(
    s: StateView,
    name: Seq<char>,
    value: bool,
    text: Seq<char>,
    now: u64,
)
    requires
        s.selected is None,
    ensures
        row_selected(s.rows, s.selected, 0) is None,
        row_in_focus(s) is None,
        selected_switch_edit(s, name, value) == (Edit { state: s, commands: Seq::empty() }),
        selected_limit_edit(s, name, text, now) == (Edit { state: s, commands: Seq::empty() }),
{
}

/// An index names the row at its place, counted from zero, and one beyond the table, or below
/// zero, names none.
pub proof fn indices_name_rows(rows: Seq<RowView>, row_index: i32)
    ensures
        0 <= row_index < rows.len() ==> row_at(rows, row_index) == Some(rows[row_index as int]),
        row_index < 0 || row_index >= rows.len() ==> row_at(rows, row_index) is None,
{
}

/// Two clicks make a double click where they fall on one row less than four tenths of a second
/// apart; the first click alone never does.
pub proof fn two_clicks_make_a_double_click(first: i32, second: i32, at: u64, now: u64)
    ensures
        is_double_click(Some((first, at)), second, now) == (first == second && now < at
            + 400_000_000),
        !is_double_click(None, second, now),
{
}

/// Entering a limit holds the table still for two seconds and does nothing else.
pub proof fn entering_a_limit_holds_the_table_still(s: StateView, now: u64)
    ensures
        paused(s, now) == (StateView {
            suppress_table_refresh_until: paused(s, now).suppress_table_refresh_until,
            ..s
        }),
        now <= u64::MAX - 2_000_000_000 ==> paused(s, now).suppress_table_refresh_until == Some(
            (now + 2_000_000_000) as u64,
        ),
        now > u64::MAX - 2_000_000_000 ==> paused(s, now).suppress_table_refresh_until == Some(
            u64::MAX,
        ),
{
}

/// Opening or closing a group changes which groups are open; closing one whose process is selected
/// selects the group, and any other selection stays. Rows that are no groups do nothing.
pub proof fn toggling_keeps_the_selection_in_sight(s: StateView, row_index: i32)
    ensures
        ({
            let t = toggled(s, row_index);
            &&& t == StateView { expanded: t.expanded, selected: t.selected, ..s }
            &&& row_at(s.rows, row_index) is None ==> t == s
            &&& row_at(s.rows, row_index) matches Some(row) ==> {
                &&& !(row.kind is Group) ==> t == s
                &&& row.kind is Group ==> {
                    let name = lowercase(row.kind->Group_process_name);
                    let pids = row.kind->Group_pids;
                    let hides = row.kind->expanded && pids.len() > 1 && (s.selected matches Some(
                        SelectionView::Child(pid),
                    ) && pids.contains(pid));
                    &&& hides ==> t.selected == Some(SelectionView::Group(name))
                    &&& !hides ==> t.selected == s.selected
                }
            }
        }),
{
}

/// A search is remembered. Where it leads to a row that row is selected; where closed groups answer
/// to it they are opened, and no group is ever closed by it.
pub proof fn searching_selects_or_opens(
    s: StateView,
    query: Seq<char>,
    found: ProcessSearchLocate,
    name: Seq<char>,
)
    ensures
        ({
            let t = searched(s, query);
            let r = located(s.rows, query, s.computer_name);
            let hidden = hidden_answers(s.rows, trimmed(query), s.computer_name);
            &&& t.process_search == query
            &&& t == (StateView {
                process_search: t.process_search,
                expanded: t.expanded,
                selected: t.selected,
                ..s
            })
            &&& r.needs_row_rebuild ==> t.selected == s.selected && t.expanded.contains(name) == (
            s.expanded.contains(name) || hidden.contains(name))
            &&& !r.needs_row_rebuild ==> t.expanded == s.expanded
            &&& !r.needs_row_rebuild ==> t.selected == match r.matched_row_index {
                Some(i) => Some(selection_of(s.rows[i as int].kind)),
                None => s.selected,
            }
        }),
        with_found(s, found) == (StateView {
            selected: match found.matched_row_index {
                Some(i) => Some(selection_of(s.rows[i as int].kind)),
                None => s.selected,
            },
            ..s
        }),
{
}

/// What is said of a command is said of what it holds.
pub proof fn commands_are_what_is_said_of_them(c: EngineCommand)
    ensures
        match c {
            EngineCommand::UpdateRule(pid, rule) => c@ == CommandView::UpdateRule(pid, rule),
            EngineCommand::UpdateRuleForPids(pids, rule) => c@ == CommandView::UpdateRuleForPids(
                pids@,
                rule,
            ),
            EngineCommand::SetGlobalRule(rule) => c@ == CommandView::SetGlobalRule(rule),
            EngineCommand::ClearRules => c@ == CommandView::ClearRules,
        },
{
}

} // verus!
