//! What the process table shows, row by row.

use crate::rows::{
    first_rule, group_at, group_order, group_speed, groups_of, lemma_group_at_found, lowest,
    pid_order, rows_of_group, rows_of_groups, speed_of, table, table_groups, tidied, total_speed,
    GroupView, KindView, ProcessInfo, ProcessRow, RowKind, SortColumn, SortDirection,
};
use crate::rule::{Direction, ProcessRule};
use crate::text::{lowercase, text_less};
use vstd::prelude::*;

verus! {

/// The speeds of processes add up: nothing is counted twice, and nothing is left out.
pub proof fn speeds_of_groups_add_up(
    a: Seq<u32>,
    b: Seq<u32>,
    pid: u32,
    speeds: Map<u32, (u64, u64)>,
    direction: Direction,
)
    ensures
        group_speed(Seq::empty(), speeds, direction) == 0,
        speeds.contains_key(pid) ==> group_speed(seq![pid], speeds, Direction::Download)
            == speeds[pid].0 && group_speed(seq![pid], speeds, Direction::Upload) == speeds[pid].1,
        !speeds.contains_key(pid) ==> group_speed(seq![pid], speeds, direction) == 0,
        group_speed(a, speeds, direction) + group_speed(b, speeds, direction) <= u64::MAX
            ==> group_speed(a + b, speeds, direction) == group_speed(a, speeds, direction)
            + group_speed(b, speeds, direction),
        group_speed(a, speeds, direction) + group_speed(b, speeds, direction) > u64::MAX
            ==> group_speed(a + b, speeds, direction) == u64::MAX,
{
    lemma_total_speed_of_both(a, b, speeds, direction);
    let one = seq![pid];
    assert(one.drop_last() =~= Seq::empty());
    assert(one.last() == pid);
    assert(total_speed(one.drop_last(), speeds, Direction::Download) == 0);
    assert(total_speed(one.drop_last(), speeds, Direction::Upload) == 0);
    assert(total_speed(one, speeds, Direction::Download) == speed_of(
        speeds,
        pid,
        Direction::Download,
    ));
    assert(total_speed(one, speeds, Direction::Upload) == speed_of(speeds, pid, Direction::Upload));
    assert(total_speed(Seq::<u32>::empty(), speeds, direction) == 0);
}

proof fn lemma_total_speed_of_both(
    a: Seq<u32>,
    b: Seq<u32>,
    speeds: Map<u32, (u64, u64)>,
    direction: Direction,
)
    ensures
        total_speed(a + b, speeds, direction) == total_speed(a, speeds, direction) + total_speed(
            b,
            speeds,
            direction,
        ),
    decreases b.len(),
{
    if b.len() == 0 {
        assert(a + b =~= a);
    } else {
        lemma_total_speed_of_both(a, b.drop_last(), speeds, direction);
        assert((a + b).drop_last() =~= a + b.drop_last());
        assert((a + b).last() == b.last());
    }
}

/// Tells the processes that have the number `pid` and the name `key`, upper and lower case aside.
pub open spec fn listed_as(key: Seq<char>, pid: u32) -> spec_fn(ProcessInfo) -> bool {
    |p: ProcessInfo| p.pid == pid && lowercase(p.name@) == key
}

/// Whether `name` is the name of the first process that has it, upper and lower case aside.
pub open spec fn first_seen(ps: Seq<ProcessInfo>, name: Seq<char>) -> bool {
    exists|p: int|
        0 <= p < ps.len() && #[trigger] ps[p].name@ == name && forall|q: int|
            0 <= q < p ==> lowercase(#[trigger] ps[q].name@) != lowercase(name)
}

proof fn lemma_no_group(ps: Seq<ProcessInfo>, key: Seq<char>, pid: u32)
    requires
        group_at(groups_of(ps), key) == groups_of(ps).len(),
    ensures
        forall|q: int| 0 <= q < ps.len() ==> lowercase(#[trigger] ps[q].name@) != key,
        ps.filter(listed_as(key, pid)).len() == 0,
{
    let gs = groups_of(ps);
    assert forall|q: int| 0 <= q < ps.len() implies lowercase(#[trigger] ps[q].name@) != key by {
        if lowercase(ps[q].name@) == key {
            crate::rows::every_process_has_its_group(ps, q);
            let k = choose|k: int|
                0 <= k < gs.len() && #[trigger] crate::rows::holds(gs[k], ps[q].name@, ps[q].pid);
            lemma_group_at_found(gs, key);
            assert(lowercase(gs[k].name) == key);
        }
    }
    lemma_none_listed(ps, key, pid);
}

proof fn lemma_none_listed(ps: Seq<ProcessInfo>, key: Seq<char>, pid: u32)
    requires
        forall|q: int| 0 <= q < ps.len() ==> lowercase(#[trigger] ps[q].name@) != key,
    ensures
        ps.filter(listed_as(key, pid)).len() == 0,
    decreases ps.len(),
{
    reveal(Seq::filter);
    if ps.len() > 0 {
        let before = ps.drop_last();
        assert forall|q: int| 0 <= q < before.len() implies lowercase(#[trigger] before[q].name@)
            != key by {
            assert(before[q] == ps[q]);
        }
        lemma_none_listed(before, key, pid);
        assert(ps.last() == ps[ps.len() - 1]);
        assert(lowercase(ps[ps.len() - 1].name@) != key);
    }
}

/// A group has the name that was seen first, and lists each process number as often as processes
/// of its name do.
pub proof fn groups_count_their_processes(ps: Seq<ProcessInfo>, k: int, pid: u32)
    requires
        0 <= k < groups_of(ps).len(),
    ensures
        first_seen(ps, groups_of(ps)[k].name),
        groups_of(ps)[k].pids.len() > 0,
        groups_of(ps)[k].pids.to_multiset().count(pid) == ps.filter(
            listed_as(lowercase(groups_of(ps)[k].name), pid),
        ).len(),
    decreases ps.len(),
{
    broadcast use vstd::seq_lib::group_to_multiset_ensures;
    reveal(Seq::filter);
    let before = ps.drop_last();
    let gs = groups_of(before);
    let name = ps.last().name@;
    let number = ps.last().pid;
    let at = group_at(gs, lowercase(name)) as int;
    lemma_group_at_found(gs, lowercase(name));
    let after = groups_of(ps);
    let key = lowercase(after[k].name);
    let f = listed_as(key, pid);
    crate::rows::groups_are_distinct(ps);
    assert(ps.filter(f) == if f(ps.last()) {
        before.filter(f).push(ps.last())
    } else {
        before.filter(f)
    });
    if k < gs.len() {
        groups_count_their_processes(before, k, pid);
        assert(after[k].name == gs[k].name);
        let p = choose|p: int|
            0 <= p < before.len() && #[trigger] before[p].name@ == gs[k].name && forall|q: int|
                0 <= q < p ==> lowercase(#[trigger] before[q].name@) != lowercase(gs[k].name);
        assert(ps[p] == before[p]);
        assert forall|q: int| 0 <= q < p implies lowercase(#[trigger] ps[q].name@) != key by {
            assert(ps[q] == before[q]);
            assert(lowercase(before[q].name@) != lowercase(gs[k].name));
        }
        assert(ps[p].name@ == after[k].name);
        if k == at {
            assert(after[k].pids == gs[k].pids.push(number));
        } else {
            assert(after[k] == gs[k]);
            if lowercase(name) == key {
                assert(at <= k);
                assert(at < gs.len());
                assert(lowercase(after[at].name) == key);
                assert(false);
            }
        }
    } else {
        assert(k == gs.len() && at == gs.len());
        lemma_no_group(before, key, pid);
        assert(after[k].pids == seq![number]);
        assert(seq![number] =~= Seq::<u32>::empty().push(number));
        let p = ps.len() - 1;
        assert(ps[p].name@ == after[k].name);
        assert forall|q: int| 0 <= q < p implies lowercase(#[trigger] ps[q].name@) != key by {
            assert(ps[q] == before[q]);
            assert(lowercase(before[q].name@) != key);
        }
    }
}

/// How many rows stand in front of those of group `k`.
spec fn start(
    gs: Seq<GroupView>,
    expanded: Set<Seq<char>>,
    rules: Map<u32, ProcessRule>,
    speeds: Map<u32, (u64, u64)>,
    k: int,
) -> int {
    rows_of_groups(gs.take(k), expanded, rules, speeds).len() as int
}

proof fn lemma_start(
    gs: Seq<GroupView>,
    expanded: Set<Seq<char>>,
    rules: Map<u32, ProcessRule>,
    speeds: Map<u32, (u64, u64)>,
    k: int,
)
    requires
        0 <= k < gs.len(),
    ensures
        start(gs, expanded, rules, speeds, k + 1) == start(gs, expanded, rules, speeds, k)
            + rows_of_group(gs[k], expanded, rules, speeds).len(),
        start(gs, expanded, rules, speeds, 0) == 0,
        start(gs, expanded, rules, speeds, gs.len() as int) == rows_of_groups(
            gs,
            expanded,
            rules,
            speeds,
        ).len(),
{
    assert(gs.take(k + 1).drop_last() =~= gs.take(k));
    assert(gs.take(gs.len() as int) =~= gs);
}

proof fn lemma_starts_ascend(
    gs: Seq<GroupView>,
    expanded: Set<Seq<char>>,
    rules: Map<u32, ProcessRule>,
    speeds: Map<u32, (u64, u64)>,
    j: int,
    k: int,
)
    requires
        0 <= j < k <= gs.len(),
    ensures
        start(gs, expanded, rules, speeds, j) < start(gs, expanded, rules, speeds, k),
    decreases k - j,
{
    lemma_start(gs, expanded, rules, speeds, k - 1);
    if j < k - 1 {
        lemma_starts_ascend(gs, expanded, rules, speeds, j, k - 1);
    }
}

proof fn lemma_row_at(
    gs: Seq<GroupView>,
    expanded: Set<Seq<char>>,
    rules: Map<u32, ProcessRule>,
    speeds: Map<u32, (u64, u64)>,
    k: int,
    m: int,
)
    requires
        0 <= k < gs.len(),
        0 <= m < rows_of_group(gs[k], expanded, rules, speeds).len(),
    ensures
        0 <= start(gs, expanded, rules, speeds, k) + m < rows_of_groups(
            gs,
            expanded,
            rules,
            speeds,
        ).len(),
        rows_of_groups(gs, expanded, rules, speeds)[start(gs, expanded, rules, speeds, k) + m]
            == rows_of_group(gs[k], expanded, rules, speeds)[m],
    decreases gs.len(),
{
    let t = gs.drop_last();
    if k == gs.len() - 1 {
        assert(gs.take(k) =~= t);
    } else {
        assert(t.take(k) =~= gs.take(k));
        assert(t[k] == gs[k]);
        lemma_row_at(t, expanded, rules, speeds, k, m);
    }
}

/// The group that a row comes from, and the row's place among the rows of that group.
proof fn lemma_row_origin(
    gs: Seq<GroupView>,
    expanded: Set<Seq<char>>,
    rules: Map<u32, ProcessRule>,
    speeds: Map<u32, (u64, u64)>,
    i: int,
) -> (r: (int, int))
    requires
        0 <= i < rows_of_groups(gs, expanded, rules, speeds).len(),
    ensures
        0 <= r.0 < gs.len(),
        0 <= r.1 < rows_of_group(gs[r.0], expanded, rules, speeds).len(),
        i == start(gs, expanded, rules, speeds, r.0) + r.1,
        rows_of_groups(gs, expanded, rules, speeds)[i] == rows_of_group(
            gs[r.0],
            expanded,
            rules,
            speeds,
        )[r.1],
    decreases gs.len(),
{
    let t = gs.drop_last();
    let n = rows_of_groups(t, expanded, rules, speeds).len();
    if i < n {
        let (k, m) = lemma_row_origin(t, expanded, rules, speeds, i);
        assert(t.take(k) =~= gs.take(k));
        assert(t[k] == gs[k]);
        (k, m)
    } else {
        assert(gs.take(gs.len() - 1) =~= t);
        (gs.len() - 1, i - n)
    }
}

/// The group as it was found, of one that stands in the table.
proof fn lemma_group_origin(
    ps: Seq<ProcessInfo>,
    speeds: Map<u32, (u64, u64)>,
    column: SortColumn,
    direction: SortDirection,
    k: int,
) -> (j: int)
    requires
        0 <= k < table_groups(ps, speeds, column, direction).len(),
    ensures
        0 <= j < groups_of(ps).len(),
        table_groups(ps, speeds, column, direction)[k] == tidied(groups_of(ps)[j]),
{
    let gs = groups_of(ps).map_values(|g: GroupView| tidied(g));
    let t = table_groups(ps, speeds, column, direction);
    crate::order::sorting_keeps_membership(gs, group_order(speeds, column, direction), t[k]);
    assert(t.contains(t[k]));
    assert(gs.contains(t[k]));
    choose|j: int| 0 <= j < gs.len() && gs[j] == t[k]
}

proof fn lemma_first_rule(pids: Seq<u32>, rules: Map<u32, ProcessRule>, m: int)
    requires
        0 <= m <= pids.len(),
        forall|q: int| 0 <= q < m ==> !rules.contains_key(#[trigger] pids[q]),
    ensures
        m == pids.len() ==> first_rule(pids, rules) == ProcessRule::none(),
        m < pids.len() && rules.contains_key(pids[m]) ==> first_rule(pids, rules)
            == rules[pids[m]],
    decreases m,
{
    if m > 0 {
        let t = pids.drop_first();
        assert(!rules.contains_key(pids[0]));
        assert forall|q: int| 0 <= q < m - 1 implies !rules.contains_key(#[trigger] t[q]) by {
            assert(t[q] == pids[q + 1]);
        }
        lemma_first_rule(t, rules, m - 1);
        if m < pids.len() {
            assert(t[m - 1] == pids[m]);
        }
    }
}

proof fn lemma_tidied(g: GroupView, pid: u32)
    ensures
        tidied(g).name == g.name,
        tidied(g).pids.len() == g.pids.len(),
        tidied(g).pids.to_multiset().count(pid) == g.pids.to_multiset().count(pid),
        forall|a: int, b: int|
            0 <= a < b < tidied(g).pids.len() ==> #[trigger] tidied(g).pids[a]
                <= #[trigger] tidied(g).pids[b],
{
    let less = pid_order();
    assert(crate::order::ranks(less));
    crate::order::sorting_keeps_items(g.pids, less);
    crate::order::sorting_orders(g.pids, less);
    let r = tidied(g).pids;
    assert forall|a: int, b: int| 0 <= a < b < r.len() implies #[trigger] r[a] <= #[trigger] r[b] by {
        assert(!less(r[b], r[a]));
    }
}

/// A group's row stands for the processes of its name: it lists their numbers in ascending order,
/// each as often as there are such processes, under the name that was seen first; it shows their
/// speeds taken together, says whether it is open, and has the rule of the first process that has
/// one. Behind it stand, exactly where it is open and has more than one process, the rows of those
/// processes in the same order.
pub proof fn group_rows_stand_for_their_processes(
    ps: Seq<ProcessInfo>,
    expanded: Set<Seq<char>>,
    rules: Map<u32, ProcessRule>,
    speeds: Map<u32, (u64, u64)>,
    global_rule: ProcessRule,
    column: SortColumn,
    direction: SortDirection,
    i: int,
    name: Seq<char>,
    shown: Seq<char>,
    path: Seq<char>,
    pids: Seq<u32>,
    open: bool,
    pid: u32,
    m: int,
)
    requires
        0 <= i < table(ps, expanded, rules, speeds, global_rule, column, direction).len(),
        table(ps, expanded, rules, speeds, global_rule, column, direction)[i].kind == (
        KindView::Group {
            process_name: name,
            display_name: shown,
            exe_path: path,
            pids,
            expanded: open,
        }),
        0 <= m <= pids.len(),
        forall|q: int| 0 <= q < m ==> !rules.contains_key(#[trigger] pids[q]),
    ensures
        shown == name && path.len() == 0,
        first_seen(ps, name),
        pids.len() > 0,
        pids.to_multiset().count(pid) == ps.filter(listed_as(lowercase(name), pid)).len(),
        forall|a: int, b: int|
            0 <= a < b < pids.len() ==> #[trigger] pids[a] <= #[trigger] pids[b],
        open == expanded.contains(lowercase(name)),
        ({
            let t = table(ps, expanded, rules, speeds, global_rule, column, direction);
            &&& t[i].dl_bps == group_speed(pids, speeds, Direction::Download)
            &&& t[i].ul_bps == group_speed(pids, speeds, Direction::Upload)
            &&& m == pids.len() ==> t[i].rule == ProcessRule::none()
            &&& m < pids.len() && rules.contains_key(pids[m]) ==> t[i].rule == rules[pids[m]]
            &&& open && pids.len() > 1 ==> i + pids.len() < t.len() && forall|n: int|
                i < n <= i + pids.len() ==> #[trigger] t[n].kind == (KindView::Child {
                    process_name: name,
                    display_name: name,
                    exe_path: path,
                    pid: pids[n - i - 1],
                })
            &&& open && pids.len() > 1 && i + pids.len() + 1 < t.len() ==> t[i + pids.len()
                + 1].kind is Group
            &&& !(open && pids.len() > 1) && i + 1 < t.len() ==> t[i + 1].kind is Group
        }),
{
    let t = table(ps, expanded, rules, speeds, global_rule, column, direction);
    let gs = table_groups(ps, speeds, column, direction);
    let rows = rows_of_groups(gs, expanded, rules, speeds);
    assert(i > 0);
    assert(t[i] == rows[i - 1]);
    let (k, w) = lemma_row_origin(gs, expanded, rules, speeds, i - 1);
    let g = gs[k];
    let own = rows_of_group(g, expanded, rules, speeds);
    assert(w == 0);
    assert(own[0].kind == t[i].kind);
    let j = lemma_group_origin(ps, speeds, column, direction, k);
    lemma_tidied(groups_of(ps)[j], pid);
    groups_count_their_processes(ps, j, pid);
    lemma_first_rule(pids, rules, m);
    lemma_start(gs, expanded, rules, speeds, k);
    if open && pids.len() > 1 {
        lemma_row_at(gs, expanded, rules, speeds, k, pids.len() as int);
        assert forall|n: int| i < n <= i + pids.len() implies #[trigger] t[n].kind == (
        KindView::Child {
            process_name: name,
            display_name: name,
            exe_path: path,
            pid: pids[n - i - 1],
        }) by {
            lemma_row_at(gs, expanded, rules, speeds, k, n - i);
            assert(t[n] == rows[n - 1]);
            assert(own[n - i].kind->Child_exe_path =~= path);
        }
    }
    let next = i + own.len();
    if next < t.len() {
        assert(k + 1 < gs.len()) by {
            if k + 1 == gs.len() {
                assert(next - 1 == rows.len());
            }
        }
        lemma_row_at(gs, expanded, rules, speeds, k + 1, 0);
        assert(t[next] == rows[next - 1]);
    }
}

/// A process's row shows the speeds and the rule of that process.
pub proof fn process_rows_show_their_process(
    ps: Seq<ProcessInfo>,
    expanded: Set<Seq<char>>,
    rules: Map<u32, ProcessRule>,
    speeds: Map<u32, (u64, u64)>,
    global_rule: ProcessRule,
    column: SortColumn,
    direction: SortDirection,
    i: int,
    name: Seq<char>,
    shown: Seq<char>,
    path: Seq<char>,
    pid: u32,
)
    requires
        0 <= i < table(ps, expanded, rules, speeds, global_rule, column, direction).len(),
        table(ps, expanded, rules, speeds, global_rule, column, direction)[i].kind == (
        KindView::Child { process_name: name, display_name: shown, exe_path: path, pid }),
    ensures
        ps.filter(listed_as(lowercase(name), pid)).len() > 0,
        expanded.contains(lowercase(name)),
        ({
            let row = table(ps, expanded, rules, speeds, global_rule, column, direction)[i];
            &&& speeds.contains_key(pid) ==> (row.dl_bps, row.ul_bps) == speeds[pid]
            &&& !speeds.contains_key(pid) ==> row.dl_bps == 0 && row.ul_bps == 0
            &&& rules.contains_key(pid) ==> row.rule == rules[pid]
            &&& !rules.contains_key(pid) ==> row.rule == ProcessRule::none()
        }),
{
    broadcast use vstd::seq_lib::group_to_multiset_ensures;
    let t = table(ps, expanded, rules, speeds, global_rule, column, direction);
    let gs = table_groups(ps, speeds, column, direction);
    let rows = rows_of_groups(gs, expanded, rules, speeds);
    assert(t[i] == rows[i - 1]);
    let (k, w) = lemma_row_origin(gs, expanded, rules, speeds, i - 1);
    let g = gs[k];
    let own = rows_of_group(g, expanded, rules, speeds);
    assert(w > 0);
    assert(own[w].kind->Child_pid == g.pids[w - 1]);
    assert(g.pids.contains(pid));
    let j = lemma_group_origin(ps, speeds, column, direction, k);
    lemma_tidied(groups_of(ps)[j], pid);
    groups_count_their_processes(ps, j, pid);
}

/// Every process is listed in the row of a group of its name.
pub proof fn every_process_is_in_the_table(
    ps: Seq<ProcessInfo>,
    expanded: Set<Seq<char>>,
    rules: Map<u32, ProcessRule>,
    speeds: Map<u32, (u64, u64)>,
    global_rule: ProcessRule,
    column: SortColumn,
    direction: SortDirection,
    p: int,
) -> (i: int)
    requires
        0 <= p < ps.len(),
    ensures
        0 < i < table(ps, expanded, rules, speeds, global_rule, column, direction).len(),
        table(ps, expanded, rules, speeds, global_rule, column, direction)[i].kind matches
            KindView::Group { process_name, pids, .. } && lowercase(process_name) == lowercase(
            ps[p].name@,
        ) && pids.contains(ps[p].pid),
{
    broadcast use vstd::seq_lib::group_to_multiset_ensures;
    let found = groups_of(ps);
    let gs = table_groups(ps, speeds, column, direction);
    crate::rows::every_process_has_its_group(ps, p);
    let j = choose|j: int|
        0 <= j < found.len() && #[trigger] crate::rows::holds(found[j], ps[p].name@, ps[p].pid);
    let tidy = found.map_values(|g: GroupView| tidied(g));
    assert(tidy[j] == tidied(found[j]));
    assert(tidy.contains(tidied(found[j])));
    crate::order::sorting_keeps_membership(
        tidy,
        group_order(speeds, column, direction),
        tidied(found[j]),
    );
    let k = choose|k: int| 0 <= k < gs.len() && gs[k] == tidied(found[j]);
    lemma_tidied(found[j], ps[p].pid);
    assert(gs[k].pids.contains(ps[p].pid));
    lemma_row_at(gs, expanded, rules, speeds, k, 0);
    start(gs, expanded, rules, speeds, k) + 1
}

proof fn lemma_table_names_differ(
    ps: Seq<ProcessInfo>,
    speeds: Map<u32, (u64, u64)>,
    column: SortColumn,
    direction: SortDirection,
    j: int,
    k: int,
)
    requires
        0 <= j < k < table_groups(ps, speeds, column, direction).len(),
    ensures
        lowercase(table_groups(ps, speeds, column, direction)[j].name) != lowercase(
            table_groups(ps, speeds, column, direction)[k].name,
        ),
{
    broadcast use vstd::seq_lib::group_to_multiset_ensures;
    let found = groups_of(ps);
    let tidy = found.map_values(|g: GroupView| tidied(g));
    let gs = table_groups(ps, speeds, column, direction);
    crate::rows::groups_are_distinct(ps);
    crate::order::sorting_keeps_items(tidy, group_order(speeds, column, direction));
    assert(tidy.no_duplicates()) by {
        assert forall|a: int, b: int| 0 <= a < b < tidy.len() implies tidy[a] != tidy[b] by {
            assert(lowercase(found[a].name) != lowercase(found[b].name));
        }
    }
    tidy.lemma_multiset_has_no_duplicates();
    gs.lemma_multiset_has_no_duplicates_conv();
    let a = lemma_group_origin(ps, speeds, column, direction, j);
    let b = lemma_group_origin(ps, speeds, column, direction, k);
    assert(gs[j] != gs[k]);
    assert(a != b);
    assert(found[a].name == gs[j].name && found[b].name == gs[k].name);
    if a < b {
        assert(lowercase(found[a].name) != lowercase(found[b].name));
    } else {
        assert(lowercase(found[b].name) != lowercase(found[a].name));
    }
}

proof fn lemma_lowest(pids: Seq<u32>)
    requires
        pids.len() > 0,
        forall|a: int, b: int|
            0 <= a < b < pids.len() ==> #[trigger] pids[a] <= #[trigger] pids[b],
    ensures
        lowest(pids) == pids[0],
    decreases pids.len(),
{
    if pids.len() > 1 {
        lemma_lowest(pids.drop_last());
        assert(pids[0] <= pids[pids.len() - 1]);
    }
}

/// No name has two rows of groups, and those rows stand in the chosen order: by name, by the
/// lowest process number, or by a speed, rising or falling.
pub proof fn group_rows_are_in_the_chosen_order(
    ps: Seq<ProcessInfo>,
    expanded: Set<Seq<char>>,
    rules: Map<u32, ProcessRule>,
    speeds: Map<u32, (u64, u64)>,
    global_rule: ProcessRule,
    column: SortColumn,
    direction: SortDirection,
    i: int,
    j: int,
)
    requires
        0 <= i < j < table(ps, expanded, rules, speeds, global_rule, column, direction).len(),
        table(ps, expanded, rules, speeds, global_rule, column, direction)[i].kind is Group,
        table(ps, expanded, rules, speeds, global_rule, column, direction)[j].kind is Group,
    ensures
        ({
            let t = table(ps, expanded, rules, speeds, global_rule, column, direction);
            let (a, b) = match direction {
                SortDirection::Ascending => (t[i], t[j]),
                SortDirection::Descending => (t[j], t[i]),
            };
            let x = lowercase(a.kind->Group_process_name);
            let y = lowercase(b.kind->Group_process_name);
            &&& x != y
            &&& match column {
                SortColumn::Process => text_less(x, y),
                SortColumn::Pid => a.kind->Group_pids[0] <= b.kind->Group_pids[0],
                SortColumn::DownloadSpeed => a.dl_bps <= b.dl_bps,
                SortColumn::UploadSpeed => a.ul_bps <= b.ul_bps,
            }
        }),
{
    let t = table(ps, expanded, rules, speeds, global_rule, column, direction);
    let gs = table_groups(ps, speeds, column, direction);
    let rows = rows_of_groups(gs, expanded, rules, speeds);
    assert(i > 0);
    assert(t[i] == rows[i - 1] && t[j] == rows[j - 1]);
    let (k, v) = lemma_row_origin(gs, expanded, rules, speeds, i - 1);
    let (l, w) = lemma_row_origin(gs, expanded, rules, speeds, j - 1);
    assert(v == 0 && w == 0);
    if l < k {
        lemma_starts_ascend(gs, expanded, rules, speeds, l, k);
    }
    assert(k < l);
    lemma_table_names_differ(ps, speeds, column, direction, k, l);
    crate::rows::table_groups_are_sorted(ps, speeds, column, direction);
    let less = group_order(speeds, column, direction);
    assert(!less(gs[l], gs[k]));
    crate::text::text_order_is_total(lowercase(gs[k].name), lowercase(gs[l].name));
    let a = lemma_group_origin(ps, speeds, column, direction, k);
    let b = lemma_group_origin(ps, speeds, column, direction, l);
    groups_count_their_processes(ps, a, 0);
    groups_count_their_processes(ps, b, 0);
    lemma_tidied(groups_of(ps)[a], 0);
    lemma_tidied(groups_of(ps)[b], 0);
    lemma_lowest(gs[k].pids);
    lemma_lowest(gs[l].pids);
}

/// What is said of a row is said of the fields that bear its name.
pub proof fn rows_are_what_is_said_of_them(row: ProcessRow)
    ensures
        row@.dl_bps == row.dl_bps && row@.ul_bps == row.ul_bps && row@.rule == row.rule,
        row@.kind is Global == row.kind is Global,
        row@.kind is Group == row.kind is Group,
        row@.kind is Child == row.kind is Child,
        row.kind matches RowKind::Group { process_name, display_name, exe_path, pids, expanded }
            ==> row@.kind == (KindView::Group {
            process_name: process_name@,
            display_name: display_name@,
            exe_path: exe_path@,
            pids: pids@,
            expanded,
        }),
        row.kind matches RowKind::Child { process_name, display_name, exe_path, pid } ==> row@.kind
            == (KindView::Child {
            process_name: process_name@,
            display_name: display_name@,
            exe_path: exe_path@,
            pid,
        }),
{
}

} // verus!
