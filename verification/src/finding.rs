//! That a search comes to its end: expanding what it asks for is enough.

use crate::process::{described, ProcessDetails};
use crate::rows::{
    group_row, rows_of_group, rows_of_groups, table, table_groups, GroupView, KindView,
    ProcessInfo, RowView, SortColumn, SortDirection,
};
use crate::rule::ProcessRule;
use crate::search::{
    group_key, hidden_answers, is_hidden_answer, located, row_answers, search_texts,
};
use crate::state::{rows_with_speeds, searched, with_table, StateView};
use crate::text::{lowercase, trimmed};
use vstd::prelude::*;

verus! {

/// The rows of a table built for a state, with what is known of its processes.
pub open spec fn shown_rows(
    s: StateView,
    ps: Seq<ProcessInfo>,
    details: Map<u32, ProcessDetails>,
) -> Seq<RowView> {
    with_table(s, ps).rows.map_values(|row: RowView| described(row, details))
}

/// Whether two rows answer alike: they are of one kind, but for whether a group is expanded.
spec fn alike(a: RowView, b: RowView) -> bool {
    match (a.kind, b.kind) {
        (
            KindView::Group { process_name: n, display_name: d, pids: p, .. },
            KindView::Group { process_name: m, display_name: e, pids: q, .. },
        ) => n == m && d == e && p == q,
        _ => false,
    }
}

proof fn lemma_alike_answer(a: RowView, b: RowView, search: Seq<char>, computer_name: Seq<char>)
    requires
        alike(a, b),
    ensures
        row_answers(a, search, computer_name) == row_answers(b, search, computer_name),
        group_key(a) == group_key(b),
{
    assert(search_texts(a, computer_name) == search_texts(b, computer_name));
}

/// A group's row in a table is the row of one of its groups.
proof fn lemma_group_rows(
    gs: Seq<GroupView>,
    expanded: Set<Seq<char>>,
    rules: Map<u32, ProcessRule>,
    speeds: Map<u32, (u64, u64)>,
    i: int,
) -> (k: int)
    requires
        0 <= i < rows_of_groups(gs, expanded, rules, speeds).len(),
        rows_of_groups(gs, expanded, rules, speeds)[i].kind is Group,
    ensures
        0 <= k < gs.len(),
        rows_of_groups(gs, expanded, rules, speeds)[i] == group_row(
            gs[k],
            expanded.contains(lowercase(gs[k].name)),
            rules,
            speeds,
        ),
    decreases gs.len(),
{
    let init = gs.drop_last();
    let head = rows_of_groups(init, expanded, rules, speeds);
    let tail = rows_of_group(gs.last(), expanded, rules, speeds);
    if i < head.len() {
        let k = lemma_group_rows(init, expanded, rules, speeds, i);
        assert(gs[k] == init[k]);
        k
    } else {
        assert(rows_of_groups(gs, expanded, rules, speeds)[i] == tail[i - head.len()]);
        gs.len() - 1
    }
}

/// Every group of a table has its row.
proof fn lemma_row_of_group(
    gs: Seq<GroupView>,
    expanded: Set<Seq<char>>,
    rules: Map<u32, ProcessRule>,
    speeds: Map<u32, (u64, u64)>,
    k: int,
) -> (i: int)
    requires
        0 <= k < gs.len(),
    ensures
        0 <= i < rows_of_groups(gs, expanded, rules, speeds).len(),
        rows_of_groups(gs, expanded, rules, speeds)[i] == group_row(
            gs[k],
            expanded.contains(lowercase(gs[k].name)),
            rules,
            speeds,
        ),
    decreases gs.len(),
{
    let init = gs.drop_last();
    let head = rows_of_groups(init, expanded, rules, speeds);
    let tail = rows_of_group(gs.last(), expanded, rules, speeds);
    if k < init.len() {
        let i = lemma_row_of_group(init, expanded, rules, speeds, k);
        assert(rows_of_groups(gs, expanded, rules, speeds)[i] == head[i]);
        i
    } else {
        assert(rows_of_groups(gs, expanded, rules, speeds)[head.len() as int] == tail[0]);
        head.len() as int
    }
}

proof fn lemma_hidden_is_listed(
    rows: Seq<RowView>,
    search: Seq<char>,
    computer_name: Seq<char>,
    i: int,
)
    requires
        0 <= i < rows.len(),
        is_hidden_answer(rows[i], search, computer_name),
    ensures
        hidden_answers(rows, search, computer_name).contains(group_key(rows[i])),
    decreases rows.len(),
{
    if i < rows.len() - 1 {
        assert(rows.drop_last()[i] == rows[i]);
        lemma_hidden_is_listed(rows.drop_last(), search, computer_name, i);
    }
}

proof fn lemma_nothing_hidden(rows: Seq<RowView>, search: Seq<char>, computer_name: Seq<char>)
    requires
        forall|i: int|
            0 <= i < rows.len() ==> !is_hidden_answer(#[trigger] rows[i], search, computer_name),
    ensures
        hidden_answers(rows, search, computer_name) == Set::<Seq<char>>::empty(),
    decreases rows.len(),
{
    if rows.len() > 0 {
        let init = rows.drop_last();
        assert forall|i: int| 0 <= i < init.len() implies !is_hidden_answer(
            #[trigger] init[i],
            search,
            computer_name,
        ) by {
            assert(init[i] == rows[i]);
        }
        lemma_nothing_hidden(init, search, computer_name);
        assert(!is_hidden_answer(rows[rows.len() - 1], search, computer_name));
    }
}

/// The row of a group in a table shown for a state, and the group.
proof fn lemma_shown_group(
    s: StateView,
    ps: Seq<ProcessInfo>,
    details: Map<u32, ProcessDetails>,
    i: int,
) -> (k: int)
    requires
        0 <= i < shown_rows(s, ps, details).len(),
        shown_rows(s, ps, details)[i].kind is Group,
    ensures
        ({
            let gs = table_groups(ps, s.speeds, SortColumn::Process, SortDirection::Ascending);
            let open = s.expanded.contains(lowercase(gs[k].name));
            let plain = group_row(gs[k], open, s.rules, s.speeds);
            &&& 0 <= k < gs.len()
            &&& shown_rows(s, ps, details)[i].kind == described(plain, details).kind
        }),
{
    let gs = table_groups(ps, s.speeds, SortColumn::Process, SortDirection::Ascending);
    let rows = table(
        ps,
        s.expanded,
        s.rules,
        s.speeds,
        s.global_rule,
        SortColumn::Process,
        SortDirection::Ascending,
    );
    let body = rows_of_groups(gs, s.expanded, s.rules, s.speeds);
    let fresh = rows_with_speeds(s, rows);
    assert(with_table(s, ps).rows == fresh);
    assert(fresh[i].kind == rows[i].kind);
    assert(rows[i].kind is Group);
    assert(rows[i] == body[i - 1]);
    let k = lemma_group_rows(gs, s.expanded, s.rules, s.speeds, i - 1);
    k
}

proof fn lemma_group_shown(
    s: StateView,
    ps: Seq<ProcessInfo>,
    details: Map<u32, ProcessDetails>,
    k: int,
) -> (i: int)
    requires
        0 <= k < table_groups(ps, s.speeds, SortColumn::Process, SortDirection::Ascending).len(),
    ensures
        ({
            let gs = table_groups(ps, s.speeds, SortColumn::Process, SortDirection::Ascending);
            let open = s.expanded.contains(lowercase(gs[k].name));
            let plain = group_row(gs[k], open, s.rules, s.speeds);
            &&& 0 <= i < shown_rows(s, ps, details).len()
            &&& shown_rows(s, ps, details)[i].kind == described(plain, details).kind
        }),
{
    let gs = table_groups(ps, s.speeds, SortColumn::Process, SortDirection::Ascending);
    let rows = table(
        ps,
        s.expanded,
        s.rules,
        s.speeds,
        s.global_rule,
        SortColumn::Process,
        SortDirection::Ascending,
    );
    let body = rows_of_groups(gs, s.expanded, s.rules, s.speeds);
    let j = lemma_row_of_group(gs, s.expanded, s.rules, s.speeds, k);
    let fresh = rows_with_speeds(s, rows);
    assert(with_table(s, ps).rows == fresh);
    assert(rows[j + 1] == body[j]);
    assert(fresh[j + 1].kind == rows[j + 1].kind);
    j + 1
}

/// A search that asks for groups to be expanded asks for nothing more once the table was built
/// anew from the same processes.
pub proof fn searching_ends_after_one_rebuild(
    s: StateView,
    ps: Seq<ProcessInfo>,
    details: Map<u32, ProcessDetails>,
    query: Seq<char>,
)
    requires
        s.rows == shown_rows(s, ps, details),
        located(s.rows, query, s.computer_name).needs_row_rebuild,
    ensures
        !located(
            shown_rows(searched(s, query), ps, details),
            query,
            s.computer_name,
        ).needs_row_rebuild,
{
    let t = searched(s, query);
    let (wanted, name) = (trimmed(query), s.computer_name);
    let rows = shown_rows(t, ps, details);
    let gs = table_groups(ps, s.speeds, SortColumn::Process, SortDirection::Ascending);
    assert forall|i: int| 0 <= i < rows.len() implies !is_hidden_answer(
        #[trigger] rows[i],
        wanted,
        name,
    ) by {
        if is_hidden_answer(rows[i], wanted, name) {
            let k = lemma_shown_group(t, ps, details, i);
            let j = lemma_group_shown(s, ps, details, k);
            assert(alike(rows[i], s.rows[j]));
            lemma_alike_answer(rows[i], s.rows[j], wanted, name);
            assert(!t.expanded.contains(lowercase(gs[k].name)));
            assert(!s.expanded.contains(lowercase(gs[k].name)));
            assert(is_hidden_answer(s.rows[j], wanted, name));
            lemma_hidden_is_listed(s.rows, wanted, name, j);
        }
    }
    lemma_nothing_hidden(rows, wanted, name);
}

} // verus!
