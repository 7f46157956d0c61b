//! How the state and the engine stay in step, and what editing means for traffic.

use crate::engine::{
    after_command, after_commands, rule_for_many_is_one_for_each, CommandView, EngineView,
};
use crate::rows::{rule_of, KindView, ProcessInfo};
use crate::rule::{runtime, runtime_rule_limits_alike, Direction, ProcessRule};
use crate::settings::{settings_in, settings_text};
use crate::state::{
    after_feedback, fed_back, first_state, name_edit, name_pass, row_at, row_rule_command,
    rule_edit, settings_of, toggled, told_all, told_feedback, with_limit, with_switch, StateView,
};
use crate::stored::{is_storable, saved_settings_load};
use crate::text::lowercase;
use vstd::prelude::*;

verus! {

/// Whether two rules do the same to traffic.
pub open spec fn limits_alike(a: ProcessRule, b: ProcessRule) -> bool {
    &&& a.block_all == b.block_all
    &&& a.effective(Direction::Download) == b.effective(Direction::Download)
    &&& a.effective(Direction::Upload) == b.effective(Direction::Upload)
}

/// Whether the engine does to all traffic, and to that of every process, what the state says.
pub open spec fn in_step(e: EngineView, s: StateView) -> bool {
    &&& limits_alike(e.global_rule, s.global_rule)
    &&& forall|p: u32| #[trigger] limits_alike(rule_of(e.rules, p), rule_of(s.rules, p))
}

/// A rule without its drafts does the same, and so does no rule where nothing is left of it.
proof fn lemma_runtime_alike(rule: ProcessRule)
    ensures
        limits_alike(runtime(rule), rule),
        !runtime(rule).any() ==> limits_alike(ProcessRule::none(), rule),
        !rule.any() ==> limits_alike(ProcessRule::none(), rule),
        !rule.any() ==> !runtime(rule).any(),
{
    runtime_rule_limits_alike(rule, Direction::Download);
    runtime_rule_limits_alike(rule, Direction::Upload);
}

/// Giving any row a rule keeps the engine in step.
pub proof fn edits_keep_in_step(
    e: EngineView,
    s: StateView,
    kind: KindView,
    rule: Option<ProcessRule>,
)
    requires
        in_step(e, s),
    ensures
        in_step(
            after_commands(e, rule_edit(s, kind, rule).commands),
            rule_edit(s, kind, rule).state,
        ),
{
    if let Some(rule) = rule {
        let edit = rule_edit(s, kind, Some(rule));
        let command = row_rule_command(kind, rule);
        assert(edit.commands.drop_last() =~= Seq::<CommandView>::empty());
        assert(after_commands(e, edit.commands.drop_last()) == e);
        assert(after_commands(e, edit.commands) == after_command(e, command));
        lemma_runtime_alike(rule);
        let after = after_command(e, command);
        assert forall|p: u32| #[trigger]
            limits_alike(rule_of(after.rules, p), rule_of(edit.state.rules, p)) by {
            assert(limits_alike(rule_of(e.rules, p), rule_of(s.rules, p)));
            match kind {
                KindView::Global => {},
                KindView::Group { pids, .. } => {
                    rule_for_many_is_one_for_each(e.rules, pids, runtime(rule), p);
                    rule_for_many_is_one_for_each(s.rules, pids, rule, p);
                },
                KindView::Child { .. } => {},
            }
        }
    } else {
        assert(after_commands(e, Seq::empty()) == e);
    }
}

/// An engine that knows of no process but those with rules is in step once it is told all rules.
pub proof fn starting_puts_in_step(e: EngineView, s: StateView)
    requires
        forall|p: u32| #[trigger] e.rules.contains_key(p) ==> s.rules.contains_key(p),
    ensures
        in_step(told_all(e, s), s),
{
    lemma_runtime_alike(s.global_rule);
    assert forall|p: u32| #[trigger]
        limits_alike(rule_of(told_all(e, s).rules, p), rule_of(s.rules, p)) by {
        if s.rules.contains_key(p) {
            lemma_runtime_alike(s.rules[p]);
        }
    }
}

/// Feedback keeps the engine in step.
pub proof fn feedback_keeps_in_step(e: EngineView, s: StateView)
    requires
        in_step(e, s),
    ensures
        in_step(told_feedback(e, s), after_feedback(s)),
{
    let (f, t) = (told_feedback(e, s), after_feedback(s));
    assert forall|p: u32| #[trigger] limits_alike(rule_of(f.rules, p), rule_of(t.rules, p)) by {
        assert(limits_alike(rule_of(e.rules, p), rule_of(s.rules, p)));
    }
}

/// A rule that does not adapt is left alone by feedback, and feedback changes nothing but the
/// adjusted rates.
pub proof fn feedback_only_adjusts(rule: ProcessRule, measured: (u64, u64))
    ensures
        !rule.adaptive ==> fed_back(rule, measured) == rule,
        fed_back(rule, measured) == (ProcessRule {
            adjusted_dl_bps: fed_back(rule, measured).adjusted_dl_bps,
            adjusted_ul_bps: fed_back(rule, measured).adjusted_ul_bps,
            ..rule
        }),
        fed_back(rule, measured).target(Direction::Download) == rule.target(Direction::Download),
        fed_back(rule, measured).target(Direction::Upload) == rule.target(Direction::Upload),
{
}

/// Entering a limit whose switch is off stores a draft: what is done to traffic stays the same.
pub proof fn entering_a_draft_limits_nothing(rule: ProcessRule, kibps: u32)
    ensures
        !rule.limit_download ==> limits_alike(
            runtime(with_limit(rule, "dl"@, kibps)->0),
            runtime(rule),
        ),
        !rule.limit_upload ==> limits_alike(
            runtime(with_limit(rule, "ul"@, kibps)->0),
            runtime(rule),
        ),
{
    reveal_strlit("dl");
    reveal_strlit("ul");
    assert("dl"@[0] != "ul"@[0]);
}

/// Switching on a limit that was entered holds traffic to it, where the rule does not adapt.
pub proof fn switching_on_applies_the_limit(rule: ProcessRule, kibps: u32)
    requires
        kibps > 0,
        !rule.adaptive,
    ensures
        ({
            let drafted = with_limit(rule, "dl"@, kibps)->0;
            let on = with_switch(drafted, "limit_dl"@, true)->0;
            runtime(on).effective(Direction::Download) == Some(
                (kibps * 1024 * crate::rule::BYTE_PER_SEC) as u64,
            )
        }),
        ({
            let drafted = with_limit(rule, "ul"@, kibps)->0;
            let on = with_switch(drafted, "limit_ul"@, true)->0;
            runtime(on).effective(Direction::Upload) == Some(
                (kibps * 1024 * crate::rule::BYTE_PER_SEC) as u64,
            )
        }),
{
    reveal_strlit("dl");
    reveal_strlit("ul");
    reveal_strlit("limit_dl");
    reveal_strlit("limit_ul");
    assert("dl"@[0] != "ul"@[0]);
    assert("limit_dl"@[6] != "limit_ul"@[6]);
}

/// Opening or closing a group's row flips it and touches no other group.
pub proof fn toggling_flips_one_group(s: StateView, row_index: i32, other: Seq<char>)
    requires
        row_at(s.rows, row_index) matches Some(row) && row.kind is Group,
    ensures
        ({
            let kind = row_at(s.rows, row_index)->0.kind;
            let key = lowercase(kind->Group_process_name);
            let after = toggled(s, row_index);
            &&& kind->Group_pids.len() > 1 ==> after.expanded.contains(key) == !kind->expanded
            &&& kind->Group_pids.len() <= 1 ==> after == s
            &&& other != key ==> after.expanded.contains(other) == s.expanded.contains(other)
        }),
{
}

/// Rules come back when matching processes appear: each process, listed once, has the rule kept
/// under its name.
pub proof fn name_rules_are_restored(s: StateView, ps: Seq<ProcessInfo>, running: bool, i: int)
    requires
        0 <= i < ps.len(),
        forall|j: int, k: int|
            0 <= j < k < ps.len() ==> (#[trigger] ps[j]).pid != (#[trigger] ps[k]).pid,
        s.name_rules.contains_key(lowercase(ps[i].name@)),
    ensures
        name_edit(s, ps, running).state.rules.contains_key(ps[i].pid),
        name_edit(s, ps, running).state.rules[ps[i].pid] == s.name_rules[lowercase(ps[i].name@)],
{
    lemma_named(s.name_rules, s.rules, ps, i);
}

proof fn lemma_named(
    name_rules: Map<Seq<char>, ProcessRule>,
    rules: Map<u32, ProcessRule>,
    ps: Seq<ProcessInfo>,
    i: int,
)
    requires
        0 <= i < ps.len(),
        forall|j: int, k: int|
            0 <= j < k < ps.len() ==> (#[trigger] ps[j]).pid != (#[trigger] ps[k]).pid,
        name_rules.contains_key(lowercase(ps[i].name@)),
    ensures
        name_pass(name_rules, rules, ps).rules.contains_key(ps[i].pid),
        name_pass(name_rules, rules, ps).rules[ps[i].pid] == name_rules[lowercase(ps[i].name@)],
    decreases ps.len(),
{
    if i < ps.len() - 1 {
        let init = ps.drop_last();
        assert(ps[i].pid != ps[ps.len() - 1].pid);
        assert(init[i] == ps[i]);
        assert forall|j: int, k: int| 0 <= j < k < init.len() implies (#[trigger] init[j]).pid != (
        #[trigger] init[k]).pid by {
            assert(ps[j].pid != ps[k].pid);
        }
        lemma_named(name_rules, rules, init, i);
    }
}

/// What a program keeps of its state it has again the next time: rules, expanded groups, units and
/// the IPv6 switch.
pub proof fn kept_state_returns(s: StateView, computer_name: Seq<char>)
    requires
        is_storable(settings_of(s)),
    ensures
        ({
            let again = first_state(settings_in(settings_text(settings_of(s))), computer_name);
            &&& again.expanded == s.expanded
            &&& again.name_rules == s.name_rules
            &&& again.global_rule == s.global_rule
            &&& again.speed_unit == s.speed_unit
            &&& again.ipv6_enabled == s.ipv6_enabled
        }),
{
    saved_settings_load(settings_of(s));
}

} // verus!
