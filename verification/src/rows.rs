//! The process table: processes grouped by name, with their speeds and rules.

use crate::names::NameSet;
use crate::order::{sorted, sorting_through, stable_sort};
use crate::rate::smaller;
use crate::rule::{Direction, GlobalRule, ProcessRule};
use crate::text::{comes_before, lowercase, same_text, text_less, to_lowercase};
use std::collections::HashMap;
use vstd::prelude::*;

verus! {

broadcast use vstd::std_specs::hash::group_hash_axioms;

/// A running process.
#[derive(Debug, PartialEq, Eq)]
pub struct ProcessInfo {
    pub pid: u32,
    pub name: String,
}

impl Clone for ProcessInfo {
    fn clone(&self) -> (r: Self)
        ensures
            r == *self,
    {
        ProcessInfo { pid: self.pid, name: self.name.clone() }
    }
}

/// What a row of the table stands for.
#[derive(Debug)]
pub enum RowKind {
    Global,
    Group {
        process_name: String,
        display_name: String,
        exe_path: String,
        pids: Vec<u32>,
        expanded: bool,
    },
    Child { process_name: String, display_name: String, exe_path: String, pid: u32 },
}

/// [`RowKind`] with its texts as characters.
pub enum KindView {
    Global,
    Group {
        process_name: Seq<char>,
        display_name: Seq<char>,
        exe_path: Seq<char>,
        pids: Seq<u32>,
        expanded: bool,
    },
    Child { process_name: Seq<char>, display_name: Seq<char>, exe_path: Seq<char>, pid: u32 },
}

impl View for RowKind {
    type V = KindView;

    open spec fn view(&self) -> KindView {
        match self {
            RowKind::Global => KindView::Global,
            RowKind::Group { process_name, display_name, exe_path, pids, expanded } =>
                KindView::Group {
                process_name: process_name@,
                display_name: display_name@,
                exe_path: exe_path@,
                pids: pids@,
                expanded: *expanded,
            },
            RowKind::Child { process_name, display_name, exe_path, pid } => KindView::Child {
                process_name: process_name@,
                display_name: display_name@,
                exe_path: exe_path@,
                pid: *pid,
            },
        }
    }
}

/// A copy of a list of process numbers.
pub fn copy_pids(v: &Vec<u32>) -> (r: Vec<u32>)
    ensures
        r@ == v@,
{
    let mut out: Vec<u32> = Vec::new();
    let mut i: usize = 0;
    while i < v.len()
        invariant
            i <= v@.len(),
            out@ == v@.take(i as int),
        decreases v@.len() - i,
    {
        out.push(v[i]);
        i += 1;
    }
    assert(out@ =~= v@);
    out
}

impl Clone for RowKind {
    fn clone(&self) -> (r: Self)
        ensures
            r@ == self@,
    {
        match self {
            RowKind::Global => RowKind::Global,
            RowKind::Group { process_name, display_name, exe_path, pids, expanded } =>
                RowKind::Group {
                process_name: process_name.clone(),
                display_name: display_name.clone(),
                exe_path: exe_path.clone(),
                pids: copy_pids(pids),
                expanded: *expanded,
            },
            RowKind::Child { process_name, display_name, exe_path, pid } => RowKind::Child {
                process_name: process_name.clone(),
                display_name: display_name.clone(),
                exe_path: exe_path.clone(),
                pid: *pid,
            },
        }
    }
}

/// A row of the table.
#[derive(Debug)]
pub struct ProcessRow {
    pub kind: RowKind,
    pub dl_bps: u64,
    pub ul_bps: u64,
    pub rule: ProcessRule,
}

/// [`ProcessRow`] with its texts as characters.
pub struct RowView {
    pub kind: KindView,
    pub dl_bps: u64,
    pub ul_bps: u64,
    pub rule: ProcessRule,
}

impl View for ProcessRow {
    type V = RowView;

    open spec fn view(&self) -> RowView {
        RowView {
            kind: self.kind@,
            dl_bps: self.dl_bps,
            ul_bps: self.ul_bps,
            rule: self.rule,
        }
    }
}

impl Clone for ProcessRow {
    fn clone(&self) -> (r: Self)
        ensures
            r@ == self@,
    {
        ProcessRow {
            kind: self.kind.clone(),
            dl_bps: self.dl_bps,
            ul_bps: self.ul_bps,
            rule: self.rule,
        }
    }
}

/// The rows of a table.
pub open spec fn row_views(v: Seq<ProcessRow>) -> Seq<RowView> {
    v.map_values(|r: ProcessRow| r@)
}

/// The row for all traffic.
pub open spec fn global_row(rule: ProcessRule) -> RowView {
    RowView { kind: KindView::Global, dl_bps: 0, ul_bps: 0, rule }
}

impl ProcessRow {
    pub fn global(rule: GlobalRule) -> (r: Self)
        ensures
            r@ == global_row(rule),
    {
        ProcessRow { kind: RowKind::Global, dl_bps: 0, ul_bps: 0, rule }
    }
}

#[derive(Debug, Clone, Copy, PartialEq, Eq, Structural)]
pub enum SortColumn {
    Process,
    Pid,
    DownloadSpeed,
    UploadSpeed,
}

#[derive(Debug, Clone, Copy, PartialEq, Eq, Structural)]
pub enum SortDirection {
    Ascending,
    Descending,
}

/// Processes of one name: the name as first seen, and their numbers.
pub struct GroupView {
    pub name: Seq<char>,
    pub pids: Seq<u32>,
}

/// Position of the group whose name is `key` in lower case, or the length where there is
/// none.
pub open spec fn group_at(gs: Seq<GroupView>, key: Seq<char>) -> nat
    decreases gs.len(),
{
    if gs.len() == 0 || lowercase(gs[0].name) == key {
        0
    } else {
        1 + group_at(gs.drop_first(), key)
    }
}

/// `gs` with one more process.
pub open spec fn with_process(gs: Seq<GroupView>, name: Seq<char>, pid: u32) -> Seq<GroupView> {
    let i = group_at(gs, lowercase(name)) as int;
    if i < gs.len() {
        gs.update(i, GroupView { name: gs[i].name, pids: gs[i].pids.push(pid) })
    } else {
        gs.push(GroupView { name, pids: seq![pid] })
    }
}

/// Processes grouped by their names in lower case, in the order in which the names appear.
pub open spec fn groups_of(ps: Seq<ProcessInfo>) -> Seq<GroupView>
    decreases ps.len(),
{
    if ps.len() == 0 {
        Seq::empty()
    } else {
        with_process(groups_of(ps.drop_last()), ps.last().name@, ps.last().pid)
    }
}

pub open spec fn pid_order() -> spec_fn(u32, u32) -> bool {
    |a: u32, b: u32| a < b
}

/// The group with its process numbers in order.
pub open spec fn tidied(g: GroupView) -> GroupView {
    GroupView { name: g.name, pids: sorted(g.pids, pid_order()) }
}

pub type Speeds = HashMap<u32, (u64, u64)>;

/// The speeds of a process; both 0 where none were measured.
pub open spec fn speeds_of(speeds: Map<u32, (u64, u64)>, pid: u32) -> (u64, u64) {
    if speeds.contains_key(pid) {
        speeds[pid]
    } else {
        (0u64, 0u64)
    }
}

pub open spec fn speed_of(speeds: Map<u32, (u64, u64)>, pid: u32, direction: Direction) -> u64 {
    match direction {
        Direction::Download => speeds_of(speeds, pid).0,
        Direction::Upload => speeds_of(speeds, pid).1,
    }
}

/// The speeds of some processes taken together.
pub open spec fn total_speed(
    pids: Seq<u32>,
    speeds: Map<u32, (u64, u64)>,
    direction: Direction,
) -> nat
    decreases pids.len(),
{
    if pids.len() == 0 {
        0
    } else {
        total_speed(pids.drop_last(), speeds, direction) + speed_of(
            speeds,
            pids.last(),
            direction,
        ) as nat
    }
}

/// [`total_speed`], as far as a speed reaches.
pub open spec fn group_speed(
    pids: Seq<u32>,
    speeds: Map<u32, (u64, u64)>,
    direction: Direction,
) -> u64 {
    smaller(total_speed(pids, speeds, direction) as int, u64::MAX as int) as u64
}

/// The smallest process number; -1 of none.
pub open spec fn lowest(pids: Seq<u32>) -> int
    decreases pids.len(),
{
    if pids.len() == 0 {
        -1
    } else if pids.len() == 1 {
        pids[0] as int
    } else {
        smaller(lowest(pids.drop_last()), pids.last() as int)
    }
}

/// Whether group `a` comes before group `b` in ascending order.
pub open spec fn group_less(
    a: GroupView,
    b: GroupView,
    speeds: Map<u32, (u64, u64)>,
    column: SortColumn,
) -> bool {
    match column {
        SortColumn::Process => text_less(lowercase(a.name), lowercase(b.name)),
        SortColumn::Pid => lowest(a.pids) < lowest(b.pids),
        SortColumn::DownloadSpeed => group_speed(a.pids, speeds, Direction::Download)
            < group_speed(b.pids, speeds, Direction::Download),
        SortColumn::UploadSpeed => group_speed(a.pids, speeds, Direction::Upload) < group_speed(
            b.pids,
            speeds,
            Direction::Upload,
        ),
    }
}

/// The order of the groups in the table.
pub open spec fn group_order(
    speeds: Map<u32, (u64, u64)>,
    column: SortColumn,
    direction: SortDirection,
) -> spec_fn(GroupView, GroupView) -> bool {
    |a: GroupView, b: GroupView|
        match direction {
            SortDirection::Ascending => group_less(a, b, speeds, column),
            SortDirection::Descending => group_less(b, a, speeds, column),
        }
}

/// The rule of the first process that has one; no rule where none has.
pub open spec fn first_rule(pids: Seq<u32>, rules: Map<u32, ProcessRule>) -> ProcessRule
    decreases pids.len(),
{
    if pids.len() == 0 {
        ProcessRule::none()
    } else if rules.contains_key(pids[0]) {
        rules[pids[0]]
    } else {
        first_rule(pids.drop_first(), rules)
    }
}

/// The rule of a process; no rule where it has none.
pub open spec fn rule_of(rules: Map<u32, ProcessRule>, pid: u32) -> ProcessRule {
    if rules.contains_key(pid) {
        rules[pid]
    } else {
        ProcessRule::none()
    }
}

/// The row of a group.
pub open spec fn group_row(
    g: GroupView,
    expanded: bool,
    rules: Map<u32, ProcessRule>,
    speeds: Map<u32, (u64, u64)>,
) -> RowView {
    RowView {
        kind: KindView::Group {
            process_name: g.name,
            display_name: g.name,
            exe_path: Seq::empty(),
            pids: g.pids,
            expanded,
        },
        dl_bps: group_speed(g.pids, speeds, Direction::Download),
        ul_bps: group_speed(g.pids, speeds, Direction::Upload),
        rule: first_rule(g.pids, rules),
    }
}

/// The row of one process of a group.
pub open spec fn child_row(
    g: GroupView,
    pid: u32,
    rules: Map<u32, ProcessRule>,
    speeds: Map<u32, (u64, u64)>,
) -> RowView {
    RowView {
        kind: KindView::Child {
            process_name: g.name,
            display_name: g.name,
            exe_path: Seq::empty(),
            pid,
        },
        dl_bps: speeds_of(speeds, pid).0,
        ul_bps: speeds_of(speeds, pid).1,
        rule: rule_of(rules, pid),
    }
}

/// The rows of a group: its own, and behind it those of its processes where it is expanded
/// and has more than one.
pub open spec fn rows_of_group(
    g: GroupView,
    expanded: Set<Seq<char>>,
    rules: Map<u32, ProcessRule>,
    speeds: Map<u32, (u64, u64)>,
) -> Seq<RowView> {
    let open = expanded.contains(lowercase(g.name));
    seq![group_row(g, open, rules, speeds)] + if g.pids.len() > 1 && open {
        g.pids.map_values(|pid: u32| child_row(g, pid, rules, speeds))
    } else {
        Seq::empty()
    }
}

/// The rows of some groups.
pub open spec fn rows_of_groups(
    gs: Seq<GroupView>,
    expanded: Set<Seq<char>>,
    rules: Map<u32, ProcessRule>,
    speeds: Map<u32, (u64, u64)>,
) -> Seq<RowView>
    decreases gs.len(),
{
    if gs.len() == 0 {
        Seq::empty()
    } else {
        rows_of_groups(gs.drop_last(), expanded, rules, speeds) + rows_of_group(
            gs.last(),
            expanded,
            rules,
            speeds,
        )
    }
}

/// The groups in the order of the table.
pub open spec fn table_groups(
    ps: Seq<ProcessInfo>,
    speeds: Map<u32, (u64, u64)>,
    column: SortColumn,
    direction: SortDirection,
) -> Seq<GroupView> {
    sorted(
        groups_of(ps).map_values(|g: GroupView| tidied(g)),
        group_order(speeds, column, direction),
    )
}

/// The whole table: all traffic first, then the groups.
pub open spec fn table(
    ps: Seq<ProcessInfo>,
    expanded: Set<Seq<char>>,
    rules: Map<u32, ProcessRule>,
    speeds: Map<u32, (u64, u64)>,
    global_rule: ProcessRule,
    column: SortColumn,
    direction: SortDirection,
) -> Seq<RowView> {
    seq![global_row(global_rule)] + rows_of_groups(
        table_groups(ps, speeds, column, direction),
        expanded,
        rules,
        speeds,
    )
}

struct Group {
    name: String,
    pids: Vec<u32>,
}

impl View for Group {
    type V = GroupView;

    closed spec fn view(&self) -> GroupView {
        GroupView { name: self.name@, pids: self.pids@ }
    }
}

spec fn group_views(v: Seq<Group>) -> Seq<GroupView> {
    v.map_values(|g: Group| g@)
}

proof fn lemma_group_at(gs: Seq<GroupView>, key: Seq<char>, n: nat)
    requires
        n <= gs.len(),
        n < gs.len() ==> lowercase(gs[n as int].name) == key,
        forall|i: int| 0 <= i < n ==> lowercase(#[trigger] gs[i].name) != key,
    ensures
        group_at(gs, key) == n,
    decreases gs.len(),
{
    if n > 0 {
        let t = gs.drop_first();
        assert(lowercase(gs[0].name) != key);
        assert forall|i: int| 0 <= i < n - 1 implies lowercase(#[trigger] t[i].name) != key by {
            assert(t[i] == gs[i + 1]);
        }
        lemma_group_at(t, key, (n - 1) as nat);
    }
}

fn find_group(groups: &Vec<Group>, key: &str) -> (r: usize)
    ensures
        r == group_at(group_views(groups@), key@),
        r <= groups@.len(),
{
    let ghost views = group_views(groups@);
    let mut i: usize = 0;
    while i < groups.len()
        invariant
            i <= groups@.len(),
            views == group_views(groups@),
            forall|j: int| 0 <= j < i ==> lowercase(#[trigger] views[j].name) != key@,
        decreases groups@.len() - i,
    {
        let name = to_lowercase(groups[i].name.as_str());
        assert(views[i as int] == groups@[i as int]@);
        if same_text(name.as_str(), key) {
            proof {
                lemma_group_at(views, key@, i as nat);
            }
            return i;
        }
        i += 1;
    }
    proof {
        lemma_group_at(views, key@, i as nat);
    }
    i
}

fn group_processes(processes: &Vec<ProcessInfo>) -> (r: Vec<Group>)
    ensures
        group_views(r@) == groups_of(processes@),
{
    let mut groups: Vec<Group> = Vec::new();
    let mut i: usize = 0;
    assert(group_views(groups@) =~= groups_of(processes@.take(0)));
    while i < processes.len()
        invariant
            i <= processes@.len(),
            group_views(groups@) == groups_of(processes@.take(i as int)),
        decreases processes@.len() - i,
    {
        let ghost before = group_views(groups@);
        let ghost listed = groups@;
        let process = &processes[i];
        let key = to_lowercase(process.name.as_str());
        let at = find_group(&groups, key.as_str());
        if at < groups.len() {
            let mut g = groups.remove(at);
            g.pids.push(process.pid);
            groups.insert(at, g);
            assert(group_views(groups@) =~= with_process(before, process.name@, process.pid));
        } else {
            let mut pids: Vec<u32> = Vec::new();
            pids.push(process.pid);
            groups.push(Group { name: process.name.clone(), pids });
            assert(pids@ =~= seq![process.pid]);
            assert(group_views(groups@) =~= with_process(before, process.name@, process.pid));
        }
        assert(processes@.take(i + 1).drop_last() =~= processes@.take(i as int));
        i += 1;
    }
    assert(processes@.take(i as int) =~= processes@);
    groups
}

/// Process numbers in order.
pub(crate) fn sort_pids(pids: Vec<u32>) -> (r: Vec<u32>)
    ensures
        r@ == sorted(pids@, pid_order()),
{
    let before = |a: &u32, b: &u32| -> (c: bool)
        ensures
            c == (*a < *b),
        { *a < *b };
    stable_sort(pids, before, Ghost(pid_order()))
}

fn tidy_groups(groups: Vec<Group>) -> (r: Vec<Group>)
    ensures
        group_views(r@) == group_views(groups@).map_values(|g: GroupView| tidied(g)),
{
    let ghost goal = group_views(groups@).map_values(|g: GroupView| tidied(g));
    let ghost all = groups@;
    let mut rest = groups;
    let mut out: Vec<Group> = Vec::new();
    let ghost mut k: int = 0;
    assert(all.skip(0) =~= all);
    while rest.len() > 0
        invariant
            0 <= k <= all.len(),
            rest@ == all.skip(k),
            goal == group_views(all).map_values(|g: GroupView| tidied(g)),
            group_views(out@) == goal.take(k),
        decreases rest@.len(),
    {
        let ghost before = out@;
        let g = rest.remove(0);
        assert(g == all[k]);
        let pids = sort_pids(g.pids);
        out.push(Group { name: g.name, pids });
        proof {
            assert(goal[k] == tidied(all[k]@));
            assert(group_views(out@) =~= group_views(before).push(goal[k]));
            assert(all.skip(k).remove(0) =~= all.skip(k + 1));
            k = k + 1;
            assert(group_views(out@) =~= goal.take(k));
        }
    }
    assert(goal.take(k) =~= goal);
    out
}

proof fn lemma_total_speed_step(
    pids: Seq<u32>,
    i: int,
    speeds: Map<u32, (u64, u64)>,
    direction: Direction,
)
    requires
        0 <= i < pids.len(),
    ensures
        total_speed(pids.take(i + 1), speeds, direction) == total_speed(
            pids.take(i),
            speeds,
            direction,
        ) + speed_of(speeds, pids[i], direction),
{
    assert(pids.take(i + 1).drop_last() =~= pids.take(i));
}

fn speed_pair(speeds: &HashMap<u32, (u64, u64)>, pid: u32) -> (r: (u64, u64))
    ensures
        r == speeds_of(speeds@, pid),
{
    match speeds.get(&pid) {
        Some(p) => *p,
        None => (0u64, 0u64),
    }
}

/// The speed of some processes taken together.
pub fn sum_speed(
    pids: &Vec<u32>,
    speeds: &HashMap<u32, (u64, u64)>,
    direction: Direction,
) -> (r: u64)
    ensures
        r == group_speed(pids@, speeds@, direction),
{
    let mut sum: u64 = 0;
    let mut i: usize = 0;
    while i < pids.len()
        invariant
            i <= pids@.len(),
            sum == group_speed(pids@.take(i as int), speeds@, direction),
        decreases pids@.len() - i,
    {
        let (dl, ul) = speed_pair(speeds, pids[i]);
        let speed: u64 = match direction {
            Direction::Download => dl,
            Direction::Upload => ul,
        };
        proof {
            lemma_total_speed_step(pids@, i as int, speeds@, direction);
        }
        sum = if sum > u64::MAX - speed {
            u64::MAX
        } else {
            sum + speed
        };
        i += 1;
    }
    assert(pids@.take(i as int) =~= pids@);
    sum
}

fn lowest_pid(pids: &Vec<u32>) -> (r: i64)
    ensures
        r == lowest(pids@),
{
    if pids.len() == 0 {
        return -1;
    }
    let mut low: i64 = pids[0] as i64;
    let mut i: usize = 1;
    assert(lowest(pids@.take(1)) == pids@[0]);
    while i < pids.len()
        invariant
            1 <= i <= pids@.len(),
            low == lowest(pids@.take(i as int)),
        decreases pids@.len() - i,
    {
        assert(pids@.take(i + 1).drop_last() =~= pids@.take(i as int));
        let pid: i64 = pids[i] as i64;
        if pid < low {
            low = pid;
        }
        i += 1;
    }
    assert(pids@.take(i as int) =~= pids@);
    low
}

fn compare_groups(
    a: &Group,
    b: &Group,
    speeds: &HashMap<u32, (u64, u64)>,
    sort_column: SortColumn,
    sort_direction: SortDirection,
) -> (r: bool)
    ensures
        r == group_order(speeds@, sort_column, sort_direction)(a@, b@),
{
    match sort_direction {
        SortDirection::Ascending => group_before(a, b, speeds, sort_column),
        SortDirection::Descending => group_before(b, a, speeds, sort_column),
    }
}

fn group_before(
    a: &Group,
    b: &Group,
    speeds: &HashMap<u32, (u64, u64)>,
    sort_column: SortColumn,
) -> (r: bool)
    ensures
        r == group_less(a@, b@, speeds@, sort_column),
{
    match sort_column {
        SortColumn::Process => {
            let x = to_lowercase(a.name.as_str());
            let y = to_lowercase(b.name.as_str());
            comes_before(x.as_str(), y.as_str())
        },
        SortColumn::Pid => lowest_pid(&a.pids) < lowest_pid(&b.pids),
        SortColumn::DownloadSpeed => sum_speed(&a.pids, speeds, Direction::Download) < sum_speed(
            &b.pids,
            speeds,
            Direction::Download,
        ),
        SortColumn::UploadSpeed => sum_speed(&a.pids, speeds, Direction::Upload) < sum_speed(
            &b.pids,
            speeds,
            Direction::Upload,
        ),
    }
}

fn sort_groups(
    groups: Vec<Group>,
    speeds: &HashMap<u32, (u64, u64)>,
    sort_column: SortColumn,
    sort_direction: SortDirection,
) -> (r: Vec<Group>)
    ensures
        group_views(r@) == sorted(
            group_views(groups@),
            group_order(speeds@, sort_column, sort_direction),
        ),
{
    let ghost image = group_order(speeds@, sort_column, sort_direction);
    let ghost less = |a: Group, b: Group| image(a@, b@);
    let before = |a: &Group, b: &Group| -> (c: bool)
        ensures
            c == less(*a, *b),
        { compare_groups(a, b, speeds, sort_column, sort_direction) };
    let ghost input = groups@;
    let r = stable_sort(groups, before, Ghost(less));
    proof {
        sorting_through(input, |g: Group| g@, less, image);
    }
    r
}

fn first_existing_rule(pids: &Vec<u32>, rules: &HashMap<u32, ProcessRule>) -> (r: ProcessRule)
    ensures
        r == first_rule(pids@, rules@),
{
    let mut i: usize = 0;
    assert(pids@.skip(0) =~= pids@);
    while i < pids.len()
        invariant
            i <= pids@.len(),
            first_rule(pids@, rules@) == first_rule(pids@.skip(i as int), rules@),
        decreases pids@.len() - i,
    {
        assert(pids@.skip(i as int).drop_first() =~= pids@.skip(i + 1));
        match rules.get(&pids[i]) {
            Some(rule) => {
                return *rule;
            },
            None => {},
        }
        i += 1;
    }
    ProcessRule::default()
}

fn rule_for(rules: &HashMap<u32, ProcessRule>, pid: u32) -> (r: ProcessRule)
    ensures
        r == rule_of(rules@, pid),
{
    match rules.get(&pid) {
        Some(rule) => *rule,
        None => ProcessRule::default(),
    }
}

fn push_group_rows(
    rows: &mut Vec<ProcessRow>,
    group: &Group,
    expanded_names: &NameSet,
    rules: &HashMap<u32, ProcessRule>,
    speeds: &HashMap<u32, (u64, u64)>,
)
    ensures
        row_views(final(rows)@) == row_views(old(rows)@) + rows_of_group(
            group@,
            expanded_names@,
            rules@,
            speeds@,
        ),
{
    let ghost before = row_views(rows@);
    let key = to_lowercase(group.name.as_str());
    let expanded = expanded_names.contains(key.as_str());
    let rule = first_existing_rule(&group.pids, rules);
    rows.push(
        ProcessRow {
            kind: RowKind::Group {
                process_name: group.name.clone(),
                display_name: group.name.clone(),
                exe_path: String::new(),
                pids: copy_pids(&group.pids),
                expanded,
            },
            dl_bps: sum_speed(&group.pids, speeds, Direction::Download),
            ul_bps: sum_speed(&group.pids, speeds, Direction::Upload),
            rule,
        },
    );
    let ghost head = before.push(group_row(group@, expanded, rules@, speeds@));
    assert(row_views(rows@) =~= head);
    if group.pids.len() > 1 && expanded {
        let ghost kids = group@.pids.map_values(
            |pid: u32| child_row(group@, pid, rules@, speeds@),
        );
        let mut i: usize = 0;
        while i < group.pids.len()
            invariant
                i <= group.pids@.len(),
                kids == group@.pids.map_values(
                    |pid: u32| child_row(group@, pid, rules@, speeds@),
                ),
                row_views(rows@) == head + kids.take(i as int),
            decreases group.pids@.len() - i,
        {
            let ghost so_far = row_views(rows@);
            let pid: u32 = group.pids[i];
            let (dl_bps, ul_bps) = speed_pair(speeds, pid);
            rows.push(
                ProcessRow {
                    kind: RowKind::Child {
                        process_name: group.name.clone(),
                        display_name: group.name.clone(),
                        exe_path: String::new(),
                        pid,
                    },
                    dl_bps,
                    ul_bps,
                    rule: rule_for(rules, pid),
                },
            );
            assert(row_views(rows@) =~= so_far.push(kids[i as int]));
            assert(row_views(rows@) =~= head + kids.take(i + 1));
            i += 1;
        }
        assert(kids.take(i as int) =~= kids);
        assert(row_views(rows@) =~= before + rows_of_group(
            group@,
            expanded_names@,
            rules@,
            speeds@,
        ));
    } else {
        assert(row_views(rows@) =~= before + rows_of_group(
            group@,
            expanded_names@,
            rules@,
            speeds@,
        ));
    }
}

/// The process table. Display names and program paths are left at the process name and
/// empty; whoever knows them fills them in.
pub fn build_process_rows(
    processes: &Vec<ProcessInfo>,
    expanded_names: &NameSet,
    rules: &HashMap<u32, ProcessRule>,
    speeds: &HashMap<u32, (u64, u64)>,
    global_rule: GlobalRule,
    sort_column: SortColumn,
    sort_direction: SortDirection,
) -> (r: Vec<ProcessRow>)
    ensures
        row_views(r@) == table(
            processes@,
            expanded_names@,
            rules@,
            speeds@,
            global_rule,
            sort_column,
            sort_direction,
        ),
{
    let found = group_processes(processes);
    let tidy = tidy_groups(found);
    let groups = sort_groups(tidy, speeds, sort_column, sort_direction);
    let ghost order = group_views(groups@);
    let mut rows: Vec<ProcessRow> = Vec::new();
    rows.push(ProcessRow::global(global_rule));
    let ghost top = seq![global_row(global_rule)];
    let mut i: usize = 0;
    assert(row_views(rows@) =~= top + rows_of_groups(
        order.take(0),
        expanded_names@,
        rules@,
        speeds@,
    ));
    while i < groups.len()
        invariant
            i <= groups@.len(),
            order == group_views(groups@),
            row_views(rows@) == top + rows_of_groups(
                order.take(i as int),
                expanded_names@,
                rules@,
                speeds@,
            ),
        decreases groups@.len() - i,
    {
        push_group_rows(&mut rows, &groups[i], expanded_names, rules, speeds);
        proof {
            assert(order.take(i + 1).drop_last() =~= order.take(i as int));
            assert(order.take(i + 1).last() == groups@[i as int]@);
            assert(row_views(rows@) =~= top + rows_of_groups(
                order.take(i + 1),
                expanded_names@,
                rules@,
                speeds@,
            ));
        }
        i += 1;
    }
    assert(order.take(i as int) =~= order);
    rows
}

/// Whether a process numbered `pid` and named `name` stands in group `g`.
pub open spec fn holds(g: GroupView, name: Seq<char>, pid: u32) -> bool {
    lowercase(g.name) == lowercase(name) && g.pids.contains(pid)
}

pub(crate) proof fn lemma_group_at_found(gs: Seq<GroupView>, key: Seq<char>)
    ensures
        group_at(gs, key) <= gs.len(),
        group_at(gs, key) < gs.len() ==> lowercase(gs[group_at(gs, key) as int].name) == key,
        forall|i: int| 0 <= i < group_at(gs, key) ==> lowercase(#[trigger] gs[i].name) != key,
    decreases gs.len(),
{
    if gs.len() > 0 && lowercase(gs[0].name) != key {
        let t = gs.drop_first();
        lemma_group_at_found(t, key);
        assert forall|i: int| 0 <= i < group_at(gs, key) implies lowercase(#[trigger] gs[i].name)
            != key by {
            if i > 0 {
                assert(gs[i] == t[i - 1]);
            }
        }
        if group_at(gs, key) < gs.len() {
            assert(gs[group_at(gs, key) as int] == t[group_at(t, key) as int]);
        }
    }
}

/// No two groups have the same name, upper and lower case aside.
pub proof fn groups_are_distinct(ps: Seq<ProcessInfo>)
    ensures
        forall|i: int, j: int|
            #![trigger groups_of(ps)[i], groups_of(ps)[j]]
            0 <= i < j < groups_of(ps).len() ==> lowercase(groups_of(ps)[i].name) != lowercase(
                groups_of(ps)[j].name,
            ),
    decreases ps.len(),
{
    if ps.len() > 0 {
        let gs = groups_of(ps.drop_last());
        let name = ps.last().name@;
        groups_are_distinct(ps.drop_last());
        lemma_group_at_found(gs, lowercase(name));
        let after = groups_of(ps);
        assert forall|i: int, j: int|
            #![trigger after[i], after[j]]
            0 <= i < j < after.len() implies lowercase(after[i].name) != lowercase(
            after[j].name,
        ) by {
            if j < gs.len() {
                assert(after[i].name == gs[i].name);
                assert(after[j].name == gs[j].name);
                assert(lowercase(gs[i].name) != lowercase(gs[j].name));
            } else {
                assert(after[i] == gs[i]);
            }
        }
    }
}

/// Every process stands in the group of its name.
pub proof fn every_process_has_its_group(ps: Seq<ProcessInfo>, i: int)
    requires
        0 <= i < ps.len(),
    ensures
        exists|k: int|
            0 <= k < groups_of(ps).len() && #[trigger] holds(
                groups_of(ps)[k],
                ps[i].name@,
                ps[i].pid,
            ),
    decreases ps.len(),
{
    let before = ps.drop_last();
    let gs = groups_of(before);
    let name = ps.last().name@;
    let pid = ps.last().pid;
    let at = group_at(gs, lowercase(name)) as int;
    lemma_group_at_found(gs, lowercase(name));
    let after = groups_of(ps);
    if i == ps.len() - 1 {
        if at < gs.len() {
            let grown = gs[at].pids.push(pid);
            assert(grown[gs[at].pids.len() as int] == pid);
            assert(holds(after[at], name, pid));
        } else {
            assert(seq![pid][0] == pid);
            assert(holds(after[gs.len() as int], name, pid));
        }
    } else {
        every_process_has_its_group(before, i);
        assert(before[i] == ps[i]);
        let k = choose|k: int|
            0 <= k < gs.len() && #[trigger] holds(gs[k], before[i].name@, before[i].pid);
        let m = choose|m: int| 0 <= m < gs[k].pids.len() && gs[k].pids[m] == ps[i].pid;
        assert(after[k].pids[m] == ps[i].pid);
        assert(holds(after[k], ps[i].name@, ps[i].pid));
    }
}

/// A group holds only processes of its name, and at least one.
pub proof fn groups_hold_only_processes(ps: Seq<ProcessInfo>, k: int, m: int)
    requires
        0 <= k < groups_of(ps).len(),
        0 <= m < groups_of(ps)[k].pids.len(),
    ensures
        exists|i: int|
            0 <= i < ps.len() && #[trigger] ps[i].pid == groups_of(ps)[k].pids[m] && lowercase(
                ps[i].name@,
            ) == lowercase(groups_of(ps)[k].name),
    decreases ps.len(),
{
    let before = ps.drop_last();
    let gs = groups_of(before);
    let name = ps.last().name@;
    let at = group_at(gs, lowercase(name)) as int;
    lemma_group_at_found(gs, lowercase(name));
    let after = groups_of(ps);
    let is_new = if at < gs.len() {
        k == at && m == gs[at].pids.len()
    } else {
        k == gs.len()
    };
    if is_new {
        assert(ps[ps.len() - 1].pid == after[k].pids[m]);
    } else {
        groups_hold_only_processes(before, k, m);
        let i = choose|i: int|
            0 <= i < before.len() && #[trigger] before[i].pid == gs[k].pids[m] && lowercase(
                before[i].name@,
            ) == lowercase(gs[k].name);
        assert(ps[i] == before[i]);
        assert(ps[i].pid == after[k].pids[m]);
    }
}

/// The order of the table's groups ranks them.
pub proof fn group_order_ranks(
    speeds: Map<u32, (u64, u64)>,
    column: SortColumn,
    direction: SortDirection,
)
    ensures
        crate::order::ranks(group_order(speeds, column, direction)),
{
    let less = group_order(speeds, column, direction);
    assert forall|a: GroupView, b: GroupView| #[trigger] less(a, b) implies !less(b, a) by {
        crate::text::text_order_is_total(lowercase(a.name), lowercase(b.name));
    }
    assert forall|a: GroupView, b: GroupView, c: GroupView|
        #![trigger less(a, b), less(b, c)]
        !less(a, b) && !less(b, c) implies !less(a, c) by {
        if column == SortColumn::Process {
            let (x, y, z) = (lowercase(a.name), lowercase(b.name), lowercase(c.name));
            match direction {
                SortDirection::Ascending => lemma_not_before_is_transitive(x, y, z),
                SortDirection::Descending => lemma_not_before_is_transitive(z, y, x),
            }
        }
    }
}

proof fn lemma_not_before_is_transitive(a: Seq<char>, b: Seq<char>, c: Seq<char>)
    requires
        !text_less(a, b),
        !text_less(b, c),
    ensures
        !text_less(a, c),
{
    crate::text::text_order_is_total(a, b);
    crate::text::text_order_is_total(b, c);
    if text_less(a, c) && a != b && b != c {
        crate::text::text_order_is_transitive(b, a, c);
    }
}

/// The groups stand in the table in the chosen order, none lost and none added.
pub proof fn table_groups_are_sorted(
    ps: Seq<ProcessInfo>,
    speeds: Map<u32, (u64, u64)>,
    column: SortColumn,
    direction: SortDirection,
)
    ensures
        crate::order::in_order(
            table_groups(ps, speeds, column, direction),
            group_order(speeds, column, direction),
        ),
        table_groups(ps, speeds, column, direction).to_multiset() == groups_of(ps).map_values(
            |g: GroupView| tidied(g),
        ).to_multiset(),
{
    group_order_ranks(speeds, column, direction);
    let gs = groups_of(ps).map_values(|g: GroupView| tidied(g));
    crate::order::sorting_orders(gs, group_order(speeds, column, direction));
    crate::order::sorting_keeps_items(gs, group_order(speeds, column, direction));
}

/// The first row, and only the first, is that of all traffic.
pub proof fn only_first_row_is_global(
    ps: Seq<ProcessInfo>,
    expanded: Set<Seq<char>>,
    rules: Map<u32, ProcessRule>,
    speeds: Map<u32, (u64, u64)>,
    global_rule: ProcessRule,
    column: SortColumn,
    direction: SortDirection,
    i: int,
)
    requires
        0 <= i < table(ps, expanded, rules, speeds, global_rule, column, direction).len(),
    ensures
        table(ps, expanded, rules, speeds, global_rule, column, direction)[i].kind
            == KindView::Global <==> i == 0,
        table(ps, expanded, rules, speeds, global_rule, column, direction)[0] == global_row(
            global_rule,
        ),
{
    let gs = table_groups(ps, speeds, column, direction);
    if i > 0 {
        lemma_group_rows_are_not_global(gs, expanded, rules, speeds, i - 1);
    }
}

proof fn lemma_group_rows_are_not_global(
    gs: Seq<GroupView>,
    expanded: Set<Seq<char>>,
    rules: Map<u32, ProcessRule>,
    speeds: Map<u32, (u64, u64)>,
    i: int,
)
    requires
        0 <= i < rows_of_groups(gs, expanded, rules, speeds).len(),
    ensures
        rows_of_groups(gs, expanded, rules, speeds)[i].kind != KindView::Global,
    decreases gs.len(),
{
    let head = rows_of_groups(gs.drop_last(), expanded, rules, speeds);
    if i < head.len() {
        lemma_group_rows_are_not_global(gs.drop_last(), expanded, rules, speeds, i);
    }
}

} // verus!
