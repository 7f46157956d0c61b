//! What the window shows of rows, connections, limits and rules.

use crate::number::decimal;
use crate::order::sorted;
use crate::rows::{KindView, RowView};
use crate::rule::ProcessRule;
use crate::speed::{limit_summary, limit_text, speed_text, SpeedUnit};
use crate::state::{row_in_focus, StateView};
use crate::tcp::{connection_order, connections_of_all, TcpConnection};
use crate::text::text_less;
use crate::views::{
    connection_count, connection_panel, count_where, global_note, heading, limit_cell, limit_field,
    limit_note, limits_traffic, pid_list, row_label, row_pid, row_pids, shown_connection,
    shown_row, sidebar_view, summary_view, tab_title, tray_pixels, ConnectionPanel, ConnectionRow,
    Sidebar, Summary, UiRow,
};
use vstd::prelude::*;

verus! {

/// A limit is shown where it is switched on and above zero; the field to edit it in also shows one
/// that is only drafted.
pub proof fn limits_are_shown_where_they_are_on(kibps: u32, unit: SpeedUnit)
    ensures
        limit_cell(false, kibps, unit) == "Off"@,
        limit_cell(true, 0, unit) == "Off"@,
        limit_note(false, kibps, unit) == "Off"@,
        limit_note(true, 0, unit) == "Off"@,
        limit_field(0, unit).len() == 0,
        kibps > 0 ==> {
            &&& limit_cell(true, kibps, unit) == limit_text(kibps as nat, unit)
            &&& limit_note(true, kibps, unit) == limit_summary(kibps as nat, unit)
            &&& limit_field(kibps, unit) == limit_text(kibps as nat, unit)
        },
{
}

/// The limits for all traffic are named with the download in front.
pub proof fn download_limits_come_first(rule: ProcessRule, unit: SpeedUnit)
    ensures
        global_note(rule, unit) == "DL "@ + limit_note(
            rule.limit_download,
            rule.download_kbps,
            unit,
        ) + " / UL "@ + limit_note(rule.limit_upload, rule.upload_kbps, unit),
{
}

/// A row shows each speed, limit and switch in its own place, and says what it stands for: the
/// machine, a program with the number of its processes where there are several, or a process.
pub proof fn rows_show_what_they_are(row: RowView, unit: SpeedUnit, computer_name: Seq<char>)
    ensures
        ({
            let r = shown_row(row, unit, computer_name);
            &&& r.dl_speed == speed_text(row.dl_bps as nat, unit)
            &&& r.ul_speed == speed_text(row.ul_bps as nat, unit)
            &&& r.limit_dl == row.rule.limit_download
            &&& r.limit_ul == row.rule.limit_upload
            &&& r.block == row.rule.block_all
            &&& r.adaptive == row.rule.adaptive
            &&& r.dl_limit == limit_cell(row.rule.limit_download, row.rule.download_kbps, unit)
            &&& r.ul_limit == limit_cell(row.rule.limit_upload, row.rule.upload_kbps, unit)
            &&& r.dl_limit_edit == limit_field(row.rule.download_kbps, unit)
            &&& r.ul_limit_edit == limit_field(row.rule.upload_kbps, unit)
            &&& match row.kind {
                KindView::Global => {
                    &&& r.process == computer_name && r.pid.len() == 0 && r.exe_path.len() == 0
                    &&& r.is_global && !r.is_group && r.depth == 0
                    &&& r.use_computer_icon && !r.show_icon
                    &&& !r.expandable && !r.expanded
                },
                KindView::Group { display_name, exe_path, pids, expanded, .. } => {
                    &&& pids.len() <= 1 ==> r.process == display_name
                    &&& pids.len() > 1 ==> r.process == display_name + " ("@ + decimal(pids.len())
                        + ")"@
                    &&& pids.len() == 1 ==> r.pid == decimal(pids[0] as nat)
                    &&& pids.len() != 1 ==> r.pid.len() == 0
                    &&& r.exe_path == exe_path
                    &&& !r.is_global && r.is_group && r.depth == 0
                    &&& !r.use_computer_icon && r.show_icon
                    &&& r.expandable == (pids.len() > 1) && r.expanded == expanded
                },
                KindView::Child { exe_path, pid, .. } => {
                    &&& r.process == "PID "@ + decimal(pid as nat)
                    &&& r.pid == decimal(pid as nat)
                    &&& r.exe_path == exe_path
                    &&& !r.is_global && !r.is_group && r.depth == 1
                    &&& !r.use_computer_icon && r.show_icon
                    &&& !r.expandable && !r.expanded
                },
            }
        }),
{
}

/// A row's label and number are those that it is shown with.
pub proof fn labels_and_numbers_are_shown(row: RowView, unit: SpeedUnit, computer_name: Seq<char>)
    ensures
        row_label(row.kind, computer_name) == shown_row(row, unit, computer_name).process,
        row_pid(row.kind) == shown_row(row, unit, computer_name).pid,
{
}

/// Process numbers are listed in order with a comma and a space between them; a dash stands for
/// none.
pub proof fn numbers_are_listed_in_order(a: Seq<u32>, b: Seq<u32>, pid: u32)
    requires
        a.len() > 0,
        b.len() > 0,
    ensures
        pid_list(Seq::empty()) == "-"@,
        pid_list(seq![pid]) == decimal(pid as nat),
        pid_list(a + b) == pid_list(a) + ", "@ + pid_list(b),
    decreases b.len(),
{
    assert((a + b).drop_last() =~= a + b.drop_last());
    assert((a + b).last() == b.last());
    if b.len() == 1 {
        assert(a + b.drop_last() =~= a);
    } else {
        let c = b.drop_last();
        numbers_are_listed_in_order(a, c, pid);
        assert(pid_list(a) + ", "@ + pid_list(b) =~= pid_list(a) + ", "@ + pid_list(c) + ", "@
            + decimal(b.last() as nat));
    }
}

/// A row stands for its processes: none in particular for all traffic.
pub proof fn rows_stand_for_processes(kind: KindView, pid: u32)
    ensures
        row_pids(kind).contains(pid) == match kind {
            KindView::Global => false,
            KindView::Group { pids, .. } => pids.contains(pid),
            KindView::Child { pid: own, .. } => pid == own,
        },
        kind matches KindView::Group { pids, .. } ==> row_pids(kind) == pids,
        kind is Child ==> row_pids(kind).len() == 1,
{
    if let KindView::Child { pid: own, .. } = kind {
        assert(row_pids(kind)[0] == own);
    }
}

/// How many connections there are is said in words of its own for none and for one, and with the two
/// hundred that are shown where there are more.
pub proof fn connections_are_counted_in_words(total: nat)
    ensures
        tab_title(0) == "Connections"@,
        total > 0 ==> tab_title(total) == "Connections ("@ + decimal(total) + ")"@,
        connection_count(0) == "No active TCP connections"@,
        connection_count(1) == decimal(1) + " TCP connection"@,
        1 < total <= 200 ==> connection_count(total) == decimal(total) + " TCP connections"@,
        total > 200 ==> connection_count(total) == "Showing "@ + decimal(200) + " of "@ + decimal(
            total,
        ) + " TCP connections"@,
{
}

/// A connection is shown by its other end and its state, and by its process where there may be
/// several; it can be closed where its state allows it and it is not IPv6.
pub proof fn connections_are_shown_by_their_other_end(c: TcpConnection)
    ensures
        ({
            let r = shown_connection(c, true);
            let q = shown_connection(c, false);
            &&& r.key == c.key && q.key == c.key
            &&& r.label == c.remote_label@ && q.label == c.remote_label@
            &&& r.detail == "PID "@ + decimal(c.pid as nat) + " \u{b7} "@ + c.state_label@
            &&& q.detail == c.state_label@
            &&& r.disconnectable == (c.disconnectable && !c.key.ipv6)
            &&& q.disconnectable == (c.disconnectable && !c.key.ipv6)
        }),
{
}

/// Connections are shown by the text of their other end, and those of one end by process number.
pub proof fn connections_are_shown_by_name(
    pids: Seq<u32>,
    all: Seq<TcpConnection>,
    i: int,
    j: int,
)
    requires
        0 <= i < j < sorted(connections_of_all(pids, all), connection_order()).len(),
    ensures
        ({
            let r = sorted(connections_of_all(pids, all), connection_order());
            ||| text_less(r[i].remote_label@, r[j].remote_label@)
            ||| r[i].remote_label@ == r[j].remote_label@ && r[i].pid <= r[j].pid
        }),
{
    let less = connection_order();
    let list = connections_of_all(pids, all);
    crate::tcp::connection_order_ranks();
    crate::order::sorting_orders(list, less);
    let r = sorted(list, less);
    assert(!less(r[j], r[i]));
    crate::text::text_order_is_total(r[i].remote_label@, r[j].remote_label@);
}

/// The panel shows the connections of a row's processes, the first two hundred of them in order,
/// counts all of them, and offers to close them where any can be closed. All traffic has none.
pub proof fn panels_show_the_connections_of_a_row(s: StateView, kind: KindView, i: int)
    ensures
        ({
            let p = connection_panel(s, kind);
            let pids = row_pids(kind);
            let all = sorted(connections_of_all(pids, s.all_connections), connection_order());
            &&& p.shown == !(kind is Global)
            &&& kind is Global ==> p.connections.len() == 0 && p.summary.len() == 0
                && !p.can_disconnect_all && p.tab_title == tab_title(0)
            &&& !(kind is Global) ==> {
                &&& p.summary == connection_count(all.len())
                &&& p.tab_title == tab_title(all.len())
                &&& p.connections.len() == if all.len() <= 200 {
                    all.len()
                } else {
                    200
                }
                &&& 0 <= i < p.connections.len() ==> p.connections[i] == shown_connection(
                    all[i],
                    pids.len() > 1,
                )
                &&& 0 <= i < all.len() && all[i].disconnectable && !all[i].key.ipv6
                    ==> p.can_disconnect_all
                &&& p.can_disconnect_all ==> exists|k: int|
                    0 <= k < all.len() && (#[trigger] all[k]).disconnectable && !all[k].key.ipv6
            }
        }),
{
    let p = connection_panel(s, kind);
    let pids = row_pids(kind);
    let all = sorted(connections_of_all(pids, s.all_connections), connection_order());
    if !(kind is Global) {
        if 0 <= i < all.len() && all[i].disconnectable && !all[i].key.ipv6 {
            assert(crate::views::can_disconnect(all[i]));
        }
        if p.can_disconnect_all {
            let k = choose|k: int|
                0 <= k < all.len() && crate::views::can_disconnect(#[trigger] all[k]);
            assert(all[k].disconnectable && !all[k].key.ipv6);
        }
    }
}

/// The sidebar is open where a row is selected, and then shows that row: what it is called, each of
/// its speeds, limits and switches in its own place, and its connections.
pub proof fn sidebars_show_the_selected_row(s: StateView)
    ensures
        row_in_focus(s) is None ==> !sidebar_view(s).open,
        row_in_focus(s) matches Some(row) ==> {
            let b = sidebar_view(s);
            &&& b.open
            &&& b.dl_speed == speed_text(row.dl_bps as nat, s.speed_unit)
            &&& b.ul_speed == speed_text(row.ul_bps as nat, s.speed_unit)
            &&& b.limit_dl == row.rule.limit_download
            &&& b.limit_ul == row.rule.limit_upload
            &&& b.dl_limit == limit_field(row.rule.download_kbps, s.speed_unit)
            &&& b.ul_limit == limit_field(row.rule.upload_kbps, s.speed_unit)
            &&& b.block == row.rule.block_all
            &&& b.adaptive == row.rule.adaptive
            &&& b.connections == connection_panel(s, row.kind)
            &&& match row.kind {
                KindView::Global => {
                    &&& b.title == s.computer_name && b.kind == "Computer"@
                    &&& b.pid == "-"@ && b.pids == "All traffic"@
                },
                KindView::Group { display_name, pids, .. } => {
                    &&& b.title == display_name && b.pids == pid_list(pids)
                    &&& pids.len() == 1 ==> b.kind == "Process"@ && b.pid == decimal(
                        pids[0] as nat,
                    )
                    &&& pids.len() > 1 ==> b.kind == "Process group"@ && b.pid == "-"@
                },
                KindView::Child { display_name, pid, .. } => {
                    &&& b.title == display_name && b.kind == "Process instance"@
                    &&& b.pid == decimal(pid as nat) && b.pids == decimal(pid as nat)
                },
            }
        },
{
}

/// A heading is what the sidebar says of its row.
pub proof fn headings_say_what_the_sidebar_says(s: StateView, row: RowView)
    requires
        row_in_focus(s) == Some(row),
    ensures
        ({
            let h = heading(row.kind, s.computer_name);
            let b = sidebar_view(s);
            b.title == h.title && b.kind == h.kind && b.pid == h.pid && b.pids == h.pids
        }),
{
}

/// Rules are counted one by one: a process more counts where its rule is of the kind asked for.
pub proof fn rules_are_counted_one_by_one(
    rules: Map<u32, ProcessRule>,
    wanted: spec_fn(ProcessRule) -> bool,
    pid: u32,
    rule: ProcessRule,
)
    requires
        rules.dom().finite(),
        !rules.contains_key(pid),
    ensures
        count_where(Map::empty(), wanted) == 0,
        count_where(rules.insert(pid, rule), wanted) == count_where(rules, wanted) + if wanted(
            rule,
        ) {
            1nat
        } else {
            0
        },
{
    let none = Map::<u32, ProcessRule>::empty();
    assert(none.dom().filter(|p: u32| wanted(none[p])) =~= Set::<u32>::empty());
    let more = rules.insert(pid, rule);
    let a = rules.dom().filter(|p: u32| wanted(rules[p]));
    let b = more.dom().filter(|p: u32| wanted(more[p]));
    assert(a.finite()) by {
        rules.dom().lemma_len_filter(|p: u32| wanted(rules[p]));
    }
    if wanted(rule) {
        assert(b =~= a.insert(pid));
    } else {
        assert(b =~= a);
    }
}

/// The summary shows both speeds with the download in front, the limits for all traffic, and how many
/// processes have a limit that is on; a block or an adaptation of all traffic counts among those of
/// processes.
pub proof fn summaries_count_every_rule(s: StateView)
    ensures
        ({
            let r = summary_view(s);
            let blocks = count_where(s.rules, |x: ProcessRule| x.block_all);
            let adapts = count_where(s.rules, |x: ProcessRule| x.adaptive);
            &&& r.throughput == "DL "@ + speed_text(s.global_dl_bps as nat, s.speed_unit)
                + " / UL "@ + speed_text(s.global_ul_bps as nat, s.speed_unit)
            &&& r.global_limit == global_note(s.global_rule, s.speed_unit)
            &&& r.process_limits == decimal(
                count_where(s.rules, |x: ProcessRule| limits_traffic(x)),
            )
            &&& s.global_rule.block_all ==> r.blocked == decimal(blocks + 1)
            &&& !s.global_rule.block_all ==> r.blocked == decimal(blocks)
            &&& s.global_rule.adaptive ==> r.adaptive == decimal(adapts + 1)
            &&& !s.global_rule.adaptive ==> r.adaptive == decimal(adapts)
        }),
{
}

/// A rule limits traffic where a limit above zero is switched on in either direction.
pub proof fn limits_that_are_on_count(rule: ProcessRule)
    ensures
        limits_traffic(rule) == ((rule.limit_download && rule.download_kbps > 0) || (
        rule.limit_upload && rule.upload_kbps > 0)),
{
}

/// The tray icon is a blue disc on nothing: a pixel is blue where its middle lies no more than fifteen
/// pixels from that of the icon, and clear anywhere else.
pub proof fn the_tray_icon_is_a_disc(n: nat, x: int, y: int)
    requires
        0 <= x < 32,
        0 <= y,
        32 * y + x < n,
    ensures
        tray_pixels(n).len() == 4 * n,
        ({
            let p = tray_pixels(n);
            let at = 4 * (32 * y + x);
            let inside = (2 * x - 31) * (2 * x - 31) + (2 * y - 31) * (2 * y - 31) <= 30 * 30;
            &&& inside ==> p[at] == 40 && p[at + 1] == 90 && p[at + 2] == 180 && p[at + 3] == 255
            &&& !inside ==> p[at] == 0 && p[at + 1] == 0 && p[at + 2] == 0 && p[at + 3] == 0
        }),
    decreases n,
{
    lemma_tray_len((n - 1) as nat);
    let k = 32 * y + x;
    if k < n - 1 {
        the_tray_icon_is_a_disc((n - 1) as nat, x, y);
    } else {
        assert(k % 32 == x && k / 32 == y);
    }
}

proof fn lemma_tray_len(n: nat)
    ensures
        tray_pixels(n).len() == 4 * n,
    decreases n,
{
    if n > 0 {
        lemma_tray_len((n - 1) as nat);
    }
}

/// What is said of a row, a connection, a panel, the sidebar and the summary is said of the texts and
/// switches that the window is given, each of the one that bears its name.
pub proof fn windows_are_given_what_is_said(
    row: UiRow,
    connection: ConnectionRow,
    panel: ConnectionPanel,
    bar: Sidebar,
    sum: Summary,
)
    ensures
        row@.process == row.process@ && row@.pid == row.pid@ && row@.exe_path == row.exe_path@,
        row@.show_icon == row.show_icon && row@.use_computer_icon == row.use_computer_icon,
        row@.expandable == row.expandable && row@.expanded == row.expanded,
        row@.dl_speed == row.dl_speed@ && row@.ul_speed == row.ul_speed@,
        row@.limit_dl == row.limit_dl && row@.limit_ul == row.limit_ul,
        row@.dl_limit == row.dl_limit@ && row@.ul_limit == row.ul_limit@,
        row@.dl_limit_edit == row.dl_limit_edit@ && row@.ul_limit_edit == row.ul_limit_edit@,
        row@.block == row.block && row@.adaptive == row.adaptive,
        row@.is_global == row.is_global && row@.is_group == row.is_group && row@.depth == row.depth,
        connection@.key == connection.key && connection@.label == connection.label@,
        connection@.detail == connection.detail@,
        connection@.disconnectable == connection.disconnectable,
        panel@.shown == panel.shown && panel@.summary == panel.summary@,
        panel@.tab_title == panel.tab_title@,
        panel@.can_disconnect_all == panel.can_disconnect_all,
        panel@.connections.len() == panel.connections@.len(),
        forall|i: int|
            0 <= i < panel.connections@.len() ==> #[trigger] panel@.connections[i]
                == panel.connections@[i]@,
        bar@.open == bar.open && bar@.title == bar.title@ && bar@.kind == bar.kind@,
        bar@.pid == bar.pid@ && bar@.pids == bar.pids@,
        bar@.dl_speed == bar.dl_speed@ && bar@.ul_speed == bar.ul_speed@,
        bar@.limit_dl == bar.limit_dl && bar@.limit_ul == bar.limit_ul,
        bar@.dl_limit == bar.dl_limit@ && bar@.ul_limit == bar.ul_limit@,
        bar@.block == bar.block && bar@.adaptive == bar.adaptive,
        bar@.connections == bar.connections@,
        sum@.throughput == sum.throughput@ && sum@.global_limit == sum.global_limit@,
        sum@.process_limits == sum.process_limits@,
        sum@.blocked == sum.blocked@ && sum@.adaptive == sum.adaptive@,
{
}

} // verus!
