//! What the window shows: rows, the sidebar, the summary and the tray icon.

use crate::engine::EngineError;
use crate::number::{decimal, format_u64};
use crate::order::sorted;
use crate::rows::{copy_pids, KindView, ProcessRow, RowKind, RowView};
use crate::rule::{Direction, GlobalRule, ProcessRule};
use crate::speed::{
    format_limit_kibps, format_limit_summary, format_speed, limit_summary, speed_text, SpeedUnit,
};
use crate::state::{row_in_focus, AppState, StateView, TickStatus};
use crate::tcp::{connection_order, connections_of_all, TcpConnection, TcpConnectionKey};
use std::collections::HashMap;
use vstd::prelude::*;

verus! {

broadcast use vstd::std_specs::hash::group_hash_axioms;

/// How many connections the sidebar shows at most.
pub const MAX_VISIBLE_CONNECTIONS: usize = 200;

/// A limit as it stands in a field to edit: empty where there is none.
pub open spec fn limit_field(kibps: u32, unit: SpeedUnit) -> Seq<char> {
    if kibps > 0 {
        crate::speed::limit_text(kibps as nat, unit)
    } else {
        Seq::empty()
    }
}

/// A limit as it is shown in the table: only where it is switched on.
pub open spec fn limit_cell(enabled: bool, kibps: u32, unit: SpeedUnit) -> Seq<char> {
    if enabled && kibps > 0 {
        crate::speed::limit_text(kibps as nat, unit)
    } else {
        "Off"@
    }
}

/// A limit as it is shown in the summary: only where it is switched on.
pub open spec fn limit_note(enabled: bool, kibps: u32, unit: SpeedUnit) -> Seq<char> {
    if enabled && kibps > 0 {
        limit_summary(kibps as nat, unit)
    } else {
        "Off"@
    }
}

/// Both limits of the global rule.
pub open spec fn global_note(rule: ProcessRule, unit: SpeedUnit) -> Seq<char> {
    "DL "@ + limit_note(rule.limit_download, rule.download_kbps, unit) + " / UL "@ + limit_note(
        rule.limit_upload,
        rule.upload_kbps,
        unit,
    )
}

/// A limit as it stands in a field to edit.
pub fn limit_text(kibps: u32, unit: SpeedUnit) -> (r: String)
    ensures
        r@ == limit_field(kibps, unit),
{
    if kibps > 0 {
        format_limit_kibps(kibps, unit)
    } else {
        String::new()
    }
}

/// A limit as it is shown in the table.
pub fn limit_display_text(enabled: bool, kibps: u32, unit: SpeedUnit) -> (r: String)
    ensures
        r@ == limit_cell(enabled, kibps, unit),
{
    if enabled && kibps > 0 {
        format_limit_kibps(kibps, unit)
    } else {
        String::from_str("Off")
    }
}

/// A limit as it is shown in the summary.
pub fn limit_summary_text(enabled: bool, kibps: u32, unit: SpeedUnit) -> (r: String)
    ensures
        r@ == limit_note(enabled, kibps, unit),
{
    if enabled && kibps > 0 {
        format_limit_summary(kibps, unit)
    } else {
        String::from_str("Off")
    }
}

/// Both limits of the global rule.
pub fn global_limit_summary(rule: &GlobalRule, unit: SpeedUnit) -> (r: String)
    ensures
        r@ == global_note(*rule, unit),
{
    let mut out = String::from_str("DL ");
    let dl = limit_summary_text(rule.limit_download, rule.download_kbps, unit);
    out.append(dl.as_str());
    out.append(" / UL ");
    let ul = limit_summary_text(rule.limit_upload, rule.upload_kbps, unit);
    out.append(ul.as_str());
    out
}

/// A row as the window shows it.
#[derive(Debug)]
pub struct UiRow {
    pub process: String,
    pub pid: String,
    pub exe_path: String,
    pub show_icon: bool,
    pub use_computer_icon: bool,
    pub expandable: bool,
    pub expanded: bool,
    pub dl_speed: String,
    pub ul_speed: String,
    pub limit_dl: bool,
    pub dl_limit: String,
    pub dl_limit_edit: String,
    pub limit_ul: bool,
    pub ul_limit: String,
    pub ul_limit_edit: String,
    pub block: bool,
    pub adaptive: bool,
    pub is_global: bool,
    pub is_group: bool,
    pub depth: i32,
}

/// [`UiRow`] with its texts as characters.
#[verifier::ext_equal]
pub struct UiRowView {
    pub process: Seq<char>,
    pub pid: Seq<char>,
    pub exe_path: Seq<char>,
    pub show_icon: bool,
    pub use_computer_icon: bool,
    pub expandable: bool,
    pub expanded: bool,
    pub dl_speed: Seq<char>,
    pub ul_speed: Seq<char>,
    pub limit_dl: bool,
    pub dl_limit: Seq<char>,
    pub dl_limit_edit: Seq<char>,
    pub limit_ul: bool,
    pub ul_limit: Seq<char>,
    pub ul_limit_edit: Seq<char>,
    pub block: bool,
    pub adaptive: bool,
    pub is_global: bool,
    pub is_group: bool,
    pub depth: i32,
}

impl View for UiRow {
    type V = UiRowView;

    open spec fn view(&self) -> UiRowView {
        UiRowView {
            process: self.process@,
            pid: self.pid@,
            exe_path: self.exe_path@,
            show_icon: self.show_icon,
            use_computer_icon: self.use_computer_icon,
            expandable: self.expandable,
            expanded: self.expanded,
            dl_speed: self.dl_speed@,
            ul_speed: self.ul_speed@,
            limit_dl: self.limit_dl,
            dl_limit: self.dl_limit@,
            dl_limit_edit: self.dl_limit_edit@,
            limit_ul: self.limit_ul,
            ul_limit: self.ul_limit@,
            ul_limit_edit: self.ul_limit_edit@,
            block: self.block,
            adaptive: self.adaptive,
            is_global: self.is_global,
            is_group: self.is_group,
            depth: self.depth,
        }
    }
}

/// What a row is called: the machine for all traffic, a group by its program and how many
/// processes it has, a process by its number.
pub open spec fn row_label(kind: KindView, computer_name: Seq<char>) -> Seq<char> {
    match kind {
        KindView::Global => computer_name,
        KindView::Group { display_name, pids, .. } => if pids.len() > 1 {
            display_name + " ("@ + decimal(pids.len()) + ")"@
        } else {
            display_name
        },
        KindView::Child { pid, .. } => "PID "@ + decimal(pid as nat),
    }
}

/// The process number that a row shows, where it stands for one process.
pub open spec fn row_pid(kind: KindView) -> Seq<char> {
    match kind {
        KindView::Global => Seq::empty(),
        KindView::Group { pids, .. } => if pids.len() == 1 {
            decimal(pids[0] as nat)
        } else {
            Seq::empty()
        },
        KindView::Child { pid, .. } => decimal(pid as nat),
    }
}

/// A row as the window shows it.
pub open spec fn shown_row(row: RowView, unit: SpeedUnit, computer_name: Seq<char>) -> UiRowView {
    UiRowView {
        process: row_label(row.kind, computer_name),
        pid: row_pid(row.kind),
        exe_path: match row.kind {
            KindView::Global => Seq::empty(),
            KindView::Group { exe_path, .. } => exe_path,
            KindView::Child { exe_path, .. } => exe_path,
        },
        show_icon: !(row.kind is Global),
        use_computer_icon: row.kind is Global,
        expandable: row.kind matches KindView::Group { pids, .. } && pids.len() > 1,
        expanded: row.kind matches KindView::Group { expanded, .. } && expanded,
        dl_speed: speed_text(row.dl_bps as nat, unit),
        ul_speed: speed_text(row.ul_bps as nat, unit),
        limit_dl: row.rule.limit_download,
        dl_limit: limit_cell(row.rule.limit_download, row.rule.download_kbps, unit),
        dl_limit_edit: limit_field(row.rule.download_kbps, unit),
        limit_ul: row.rule.limit_upload,
        ul_limit: limit_cell(row.rule.limit_upload, row.rule.upload_kbps, unit),
        ul_limit_edit: limit_field(row.rule.upload_kbps, unit),
        block: row.rule.block_all,
        adaptive: row.rule.adaptive,
        is_global: row.kind is Global,
        is_group: row.kind is Group,
        depth: if row.kind is Child {
            1
        } else {
            0
        },
    }
}

fn label_of(kind: &RowKind, computer_name: &str) -> (r: String)
    ensures
        r@ == row_label(kind@, computer_name@),
{
    match kind {
        RowKind::Global => String::from_str(computer_name),
        RowKind::Group { display_name, pids, .. } => {
            let mut out = display_name.clone();
            if pids.len() > 1 {
                out.append(" (");
                let count = format_u64(pids.len() as u64);
                out.append(count.as_str());
                out.append(")");
            }
            out
        },
        RowKind::Child { pid, .. } => {
            let mut out = String::from_str("PID ");
            let number = format_u64(*pid as u64);
            out.append(number.as_str());
            out
        },
    }
}

fn pid_of(kind: &RowKind) -> (r: String)
    ensures
        r@ == row_pid(kind@),
{
    match kind {
        RowKind::Global => String::new(),
        RowKind::Group { pids, .. } => if pids.len() == 1 {
            format_u64(pids[0] as u64)
        } else {
            String::new()
        },
        RowKind::Child { pid, .. } => format_u64(*pid as u64),
    }
}

/// A row as the window shows it.
pub fn to_ui_row(row: &ProcessRow, unit: SpeedUnit, computer_name: &str) -> (r: UiRow)
    ensures
        r@ == shown_row(row@, unit, computer_name@),
{
    let (is_global, is_group, is_child) = match &row.kind {
        RowKind::Global => (true, false, false),
        RowKind::Group { .. } => (false, true, false),
        RowKind::Child { .. } => (false, false, true),
    };
    let (expandable, expanded, exe_path) = match &row.kind {
        RowKind::Global => (false, false, String::new()),
        RowKind::Group { pids, expanded, exe_path, .. } => (
            pids.len() > 1,
            *expanded,
            exe_path.clone(),
        ),
        RowKind::Child { exe_path, .. } => (false, false, exe_path.clone()),
    };
    UiRow {
        process: label_of(&row.kind, computer_name),
        pid: pid_of(&row.kind),
        exe_path,
        show_icon: !is_global,
        use_computer_icon: is_global,
        expandable,
        expanded,
        dl_speed: format_speed(row.dl_bps, unit),
        ul_speed: format_speed(row.ul_bps, unit),
        limit_dl: row.rule.limit_download,
        dl_limit: limit_display_text(row.rule.limit_download, row.rule.download_kbps, unit),
        dl_limit_edit: limit_text(row.rule.download_kbps, unit),
        limit_ul: row.rule.limit_upload,
        ul_limit: limit_display_text(row.rule.limit_upload, row.rule.upload_kbps, unit),
        ul_limit_edit: limit_text(row.rule.upload_kbps, unit),
        block: row.rule.block_all,
        adaptive: row.rule.adaptive,
        is_global,
        is_group,
        depth: if is_child {
            1
        } else {
            0
        },
    }
}

/// Process numbers with commas between them; a dash of none.
pub open spec fn pid_list(pids: Seq<u32>) -> Seq<char>
    decreases pids.len(),
{
    if pids.len() == 0 {
        "-"@
    } else if pids.len() == 1 {
        decimal(pids[0] as nat)
    } else {
        pid_list(pids.drop_last()) + ", "@ + decimal(pids.last() as nat)
    }
}

/// Process numbers with commas between them; a dash of none.
pub fn join_pids(pids: &Vec<u32>) -> (r: String)
    ensures
        r@ == pid_list(pids@),
{
    if pids.len() == 0 {
        return String::from_str("-");
    }
    let mut out = format_u64(pids[0] as u64);
    let mut i: usize = 1;
    assert(out@ =~= pid_list(pids@.take(1)));
    while i < pids.len()
        invariant
            1 <= i <= pids@.len(),
            out@ == pid_list(pids@.take(i as int)),
        decreases pids@.len() - i,
    {
        assert(pids@.take(i + 1).drop_last() =~= pids@.take(i as int));
        out.append(", ");
        let number = format_u64(pids[i] as u64);
        out.append(number.as_str());
        i += 1;
    }
    assert(pids@.take(i as int) =~= pids@);
    out
}

/// The processes that a row stands for; of all traffic none in particular.
pub open spec fn row_pids(kind: KindView) -> Seq<u32> {
    match kind {
        KindView::Global => Seq::empty(),
        KindView::Group { pids, .. } => pids,
        KindView::Child { pid, .. } => seq![pid],
    }
}

/// The processes that a row stands for.
pub fn pids_for_row_kind(kind: &RowKind) -> (r: Vec<u32>)
    ensures
        r@ == row_pids(kind@),
{
    match kind {
        RowKind::Global => Vec::new(),
        RowKind::Group { pids, .. } => copy_pids(pids),
        RowKind::Child { pid, .. } => {
            let mut out: Vec<u32> = Vec::new();
            out.push(*pid);
            assert(out@ =~= seq![*pid]);
            out
        },
    }
}

/// The title of the sidebar's tab for connections.
pub open spec fn tab_title(total: nat) -> Seq<char> {
    if total == 0 {
        "Connections"@
    } else {
        "Connections ("@ + decimal(total) + ")"@
    }
}

/// The title of the sidebar's tab for connections.
pub fn connections_tab_title(total: usize) -> (r: String)
    ensures
        r@ == tab_title(total as nat),
{
    if total == 0 {
        return String::from_str("Connections");
    }
    let mut out = String::from_str("Connections (");
    let count = format_u64(total as u64);
    out.append(count.as_str());
    out.append(")");
    out
}

/// What the sidebar says of how many connections there are.
pub open spec fn connection_count(total: nat) -> Seq<char> {
    if total == 0 {
        "No active TCP connections"@
    } else if total > MAX_VISIBLE_CONNECTIONS {
        "Showing "@ + decimal(MAX_VISIBLE_CONNECTIONS as nat) + " of "@ + decimal(total)
            + " TCP connections"@
    } else if total == 1 {
        decimal(total) + " TCP connection"@
    } else {
        decimal(total) + " TCP connections"@
    }
}

/// What the sidebar says of how many connections there are.
pub fn connections_summary(total: usize) -> (r: String)
    ensures
        r@ == connection_count(total as nat),
{
    if total == 0 {
        return String::from_str("No active TCP connections");
    }
    let count = format_u64(total as u64);
    if total > MAX_VISIBLE_CONNECTIONS {
        let mut out = String::from_str("Showing ");
        let most = format_u64(MAX_VISIBLE_CONNECTIONS as u64);
        out.append(most.as_str());
        out.append(" of ");
        out.append(count.as_str());
        out.append(" TCP connections");
        return out;
    }
    let mut out = count;
    if total == 1 {
        out.append(" TCP connection");
    } else {
        out.append(" TCP connections");
    }
    out
}

/// A connection as the sidebar shows it.
#[derive(Debug)]
pub struct ConnectionRow {
    pub key: TcpConnectionKey,
    pub label: String,
    pub detail: String,
    pub disconnectable: bool,
}

/// [`ConnectionRow`] with its texts as characters.
pub struct ConnectionRowView {
    pub key: TcpConnectionKey,
    pub label: Seq<char>,
    pub detail: Seq<char>,
    pub disconnectable: bool,
}

impl View for ConnectionRow {
    type V = ConnectionRowView;

    open spec fn view(&self) -> ConnectionRowView {
        ConnectionRowView {
            key: self.key,
            label: self.label@,
            detail: self.detail@,
            disconnectable: self.disconnectable,
        }
    }
}

/// Whether a connection can be closed: its state allows it, and it is not IPv6.
pub open spec fn can_disconnect(c: TcpConnection) -> bool {
    c.disconnectable && !c.key.ipv6
}

/// A connection as the sidebar shows it; its process is named where there may be several.
pub open spec fn shown_connection(c: TcpConnection, show_pid: bool) -> ConnectionRowView {
    ConnectionRowView {
        key: c.key,
        label: c.remote_label@,
        detail: if show_pid {
            "PID "@ + decimal(c.pid as nat) + " \u{b7} "@ + c.state_label@
        } else {
            c.state_label@
        },
        disconnectable: can_disconnect(c),
    }
}

/// A connection as the sidebar shows it.
pub fn to_ui_connection_row(connection: &TcpConnection, show_pid: bool) -> (r: ConnectionRow)
    ensures
        r@ == shown_connection(*connection, show_pid),
{
    let detail = if show_pid {
        let mut out = String::from_str("PID ");
        let number = format_u64(connection.pid as u64);
        out.append(number.as_str());
        out.append(" \u{b7} ");
        out.append(connection.state_label.as_str());
        out
    } else {
        connection.state_label.clone()
    };
    ConnectionRow {
        key: connection.key,
        label: connection.remote_label.clone(),
        detail,
        disconnectable: connection.disconnectable && !connection.key.ipv6,
    }
}

/// What the sidebar shows of the selected row's connections.
#[derive(Debug)]
pub struct ConnectionPanel {
    pub shown: bool,
    pub summary: String,
    pub tab_title: String,
    pub can_disconnect_all: bool,
    pub connections: Vec<ConnectionRow>,
}

/// [`ConnectionPanel`] with its texts as characters.
#[verifier::ext_equal]
pub struct ConnectionPanelView {
    pub shown: bool,
    pub summary: Seq<char>,
    pub tab_title: Seq<char>,
    pub can_disconnect_all: bool,
    pub connections: Seq<ConnectionRowView>,
}

pub open spec fn connection_views(v: Seq<ConnectionRow>) -> Seq<ConnectionRowView> {
    v.map_values(|c: ConnectionRow| c@)
}

impl View for ConnectionPanel {
    type V = ConnectionPanelView;

    open spec fn view(&self) -> ConnectionPanelView {
        ConnectionPanelView {
            shown: self.shown,
            summary: self.summary@,
            tab_title: self.tab_title@,
            can_disconnect_all: self.can_disconnect_all,
            connections: connection_views(self.connections@),
        }
    }
}

/// No connections to show.
pub open spec fn no_connections() -> ConnectionPanelView {
    ConnectionPanelView {
        shown: false,
        summary: Seq::empty(),
        tab_title: "Connections"@,
        can_disconnect_all: false,
        connections: Seq::empty(),
    }
}

/// The connections of a row: the first ones of them, how many there are in all, and whether any
/// can be closed.
pub open spec fn connection_panel(s: StateView, kind: KindView) -> ConnectionPanelView {
    if kind is Global {
        no_connections()
    } else {
        let pids = row_pids(kind);
        let all = sorted(connections_of_all(pids, s.all_connections), connection_order());
        let visible = if all.len() > MAX_VISIBLE_CONNECTIONS {
            all.take(MAX_VISIBLE_CONNECTIONS as int)
        } else {
            all
        };
        ConnectionPanelView {
            shown: true,
            summary: connection_count(all.len()),
            tab_title: tab_title(all.len()),
            can_disconnect_all: exists|i: int|
                0 <= i < all.len() && can_disconnect(#[trigger] all[i]),
            connections: visible.map_values(
                |c: TcpConnection| shown_connection(c, pids.len() > 1),
            ),
        }
    }
}

/// What the sidebar shows of the selected row.
#[derive(Debug)]
pub struct Sidebar {
    pub open: bool,
    pub title: String,
    pub kind: String,
    pub pid: String,
    pub pids: String,
    pub dl_speed: String,
    pub ul_speed: String,
    pub limit_dl: bool,
    pub dl_limit: String,
    pub limit_ul: bool,
    pub ul_limit: String,
    pub block: bool,
    pub adaptive: bool,
    pub connections: ConnectionPanel,
}

/// [`Sidebar`] with its texts as characters.
#[verifier::ext_equal]
pub struct SidebarView {
    pub open: bool,
    pub title: Seq<char>,
    pub kind: Seq<char>,
    pub pid: Seq<char>,
    pub pids: Seq<char>,
    pub dl_speed: Seq<char>,
    pub ul_speed: Seq<char>,
    pub limit_dl: bool,
    pub dl_limit: Seq<char>,
    pub limit_ul: bool,
    pub ul_limit: Seq<char>,
    pub block: bool,
    pub adaptive: bool,
    pub connections: ConnectionPanelView,
}

impl View for Sidebar {
    type V = SidebarView;

    open spec fn view(&self) -> SidebarView {
        SidebarView {
            open: self.open,
            title: self.title@,
            kind: self.kind@,
            pid: self.pid@,
            pids: self.pids@,
            dl_speed: self.dl_speed@,
            ul_speed: self.ul_speed@,
            limit_dl: self.limit_dl,
            dl_limit: self.dl_limit@,
            limit_ul: self.limit_ul,
            ul_limit: self.ul_limit@,
            block: self.block,
            adaptive: self.adaptive,
            connections: self.connections@,
        }
    }
}

/// The heading of the sidebar: what the row is called, what it is, and its process numbers, one or
/// all.
pub struct Heading {
    pub title: Seq<char>,
    pub kind: Seq<char>,
    pub pid: Seq<char>,
    pub pids: Seq<char>,
}

pub open spec fn heading(kind: KindView, computer_name: Seq<char>) -> Heading {
    match kind {
        KindView::Global => Heading {
            title: computer_name,
            kind: "Computer"@,
            pid: "-"@,
            pids: "All traffic"@,
        },
        KindView::Group { display_name, pids, .. } => Heading {
            title: display_name,
            kind: if pids.len() > 1 {
                "Process group"@
            } else {
                "Process"@
            },
            pid: if pids.len() == 1 {
                decimal(pids[0] as nat)
            } else {
                "-"@
            },
            pids: pid_list(pids),
        },
        KindView::Child { display_name, pid, .. } => Heading {
            title: display_name,
            kind: "Process instance"@,
            pid: decimal(pid as nat),
            pids: decimal(pid as nat),
        },
    }
}

/// The sidebar: closed where no row is selected.
pub open spec fn sidebar_view(s: StateView) -> SidebarView {
    match row_in_focus(s) {
        None => SidebarView {
            open: false,
            title: Seq::empty(),
            kind: Seq::empty(),
            pid: Seq::empty(),
            pids: Seq::empty(),
            dl_speed: Seq::empty(),
            ul_speed: Seq::empty(),
            limit_dl: false,
            dl_limit: Seq::empty(),
            limit_ul: false,
            ul_limit: Seq::empty(),
            block: false,
            adaptive: false,
            connections: no_connections(),
        },
        Some(row) => {
            let h = heading(row.kind, s.computer_name);
            SidebarView {
                open: true,
                title: h.title,
                kind: h.kind,
                pid: h.pid,
                pids: h.pids,
                dl_speed: speed_text(row.dl_bps as nat, s.speed_unit),
                ul_speed: speed_text(row.ul_bps as nat, s.speed_unit),
                limit_dl: row.rule.limit_download,
                dl_limit: limit_field(row.rule.download_kbps, s.speed_unit),
                limit_ul: row.rule.limit_upload,
                ul_limit: limit_field(row.rule.upload_kbps, s.speed_unit),
                block: row.rule.block_all,
                adaptive: row.rule.adaptive,
                connections: connection_panel(s, row.kind),
            }
        },
    }
}

fn empty_panel() -> (r: ConnectionPanel)
    ensures
        r@ == no_connections(),
{
    let r = ConnectionPanel {
        shown: false,
        summary: String::new(),
        tab_title: String::from_str("Connections"),
        can_disconnect_all: false,
        connections: Vec::new(),
    };
    assert(r@ =~= no_connections());
    r
}

fn show_connections(state: &AppState, kind: &RowKind) -> (r: ConnectionPanel)
    ensures
        r@ == connection_panel(state@, kind@),
{
    match kind {
        RowKind::Global => {
            return empty_panel();
        },
        _ => {},
    }
    let pids = pids_for_row_kind(kind);
    let all = state.connections_for_pids(&pids);
    let total: usize = all.len();
    let show_pid = pids.len() > 1;
    let mut rows: Vec<ConnectionRow> = Vec::new();
    let mut closable = false;
    let mut i: usize = 0;
    let ghost most = if all@.len() > MAX_VISIBLE_CONNECTIONS {
        MAX_VISIBLE_CONNECTIONS as int
    } else {
        all@.len() as int
    };
    let ghost goal = all@.take(most).map_values(
        |c: TcpConnection| shown_connection(c, show_pid),
    );
    while i < all.len()
        invariant
            i <= all@.len(),
            most == if all@.len() > MAX_VISIBLE_CONNECTIONS {
                MAX_VISIBLE_CONNECTIONS as int
            } else {
                all@.len() as int
            },
            goal == all@.take(most).map_values(
                |c: TcpConnection| shown_connection(c, show_pid),
            ),
            connection_views(rows@) == goal.take(
                if i < most {
                    i as int
                } else {
                    most
                },
            ),
            closable == exists|j: int| 0 <= j < i && can_disconnect(#[trigger] all@[j]),
        decreases all@.len() - i,
    {
        if i < MAX_VISIBLE_CONNECTIONS {
            let ghost before = connection_views(rows@);
            rows.push(to_ui_connection_row(&all[i], show_pid));
            assert(connection_views(rows@) =~= before.push(goal[i as int]));
            assert(connection_views(rows@) =~= goal.take(i + 1));
        }
        if all[i].disconnectable && !all[i].key.ipv6 {
            assert(can_disconnect(all@[i as int]));
            closable = true;
        }
        i += 1;
    }
    let r = ConnectionPanel {
        shown: true,
        summary: connections_summary(total),
        tab_title: connections_tab_title(total),
        can_disconnect_all: closable,
        connections: rows,
    };
    proof {
        assert(goal.take(most) =~= goal);
        if all@.len() <= MAX_VISIBLE_CONNECTIONS {
            assert(all@.take(most) =~= all@);
        }
        assert(r@.connections =~= connection_panel(state@, kind@).connections);
    }
    r
}

fn no_selection() -> (r: Sidebar)
    ensures
        !r.open,
        r@.title == Seq::<char>::empty(),
        r@.kind == Seq::<char>::empty(),
        r@.pid == Seq::<char>::empty(),
        r@.pids == Seq::<char>::empty(),
        r@.dl_speed == Seq::<char>::empty(),
        r@.ul_speed == Seq::<char>::empty(),
        r@.dl_limit == Seq::<char>::empty(),
        r@.ul_limit == Seq::<char>::empty(),
        !r.limit_dl && !r.limit_ul && !r.block && !r.adaptive,
        r@.connections == no_connections(),
{
    Sidebar {
        open: false,
        title: String::new(),
        kind: String::new(),
        pid: String::new(),
        pids: String::new(),
        dl_speed: String::new(),
        ul_speed: String::new(),
        limit_dl: false,
        dl_limit: String::new(),
        limit_ul: false,
        ul_limit: String::new(),
        block: false,
        adaptive: false,
        connections: empty_panel(),
    }
}

/// What the sidebar shows.
pub fn sidebar(state: &AppState) -> (r: Sidebar)
    ensures
        r@ == sidebar_view(state@),
{
    let i: usize = match state.selected_row() {
        Some(i) => i,
        None => {
            return no_selection();
        },
    };
    let row = &state.rows[i];
    let (title, kind, pid, pids) = match &row.kind {
        RowKind::Global => (
            state.computer_name.clone(),
            String::from_str("Computer"),
            String::from_str("-"),
            String::from_str("All traffic"),
        ),
        RowKind::Group { display_name, pids, .. } => (
            display_name.clone(),
            if pids.len() > 1 {
                String::from_str("Process group")
            } else {
                String::from_str("Process")
            },
            if pids.len() == 1 {
                format_u64(pids[0] as u64)
            } else {
                String::from_str("-")
            },
            join_pids(pids),
        ),
        RowKind::Child { display_name, pid, .. } => (
            display_name.clone(),
            String::from_str("Process instance"),
            format_u64(*pid as u64),
            format_u64(*pid as u64),
        ),
    };
    Sidebar {
        open: true,
        title,
        kind,
        pid,
        pids,
        dl_speed: format_speed(row.dl_bps, state.speed_unit),
        ul_speed: format_speed(row.ul_bps, state.speed_unit),
        limit_dl: row.rule.limit_download,
        dl_limit: limit_text(row.rule.download_kbps, state.speed_unit),
        limit_ul: row.rule.limit_upload,
        ul_limit: limit_text(row.rule.upload_kbps, state.speed_unit),
        block: row.rule.block_all,
        adaptive: row.rule.adaptive,
        connections: show_connections(state, &row.kind),
    }
}

/// Whether a rule limits traffic in some direction.
pub open spec fn limits_traffic(rule: ProcessRule) -> bool {
    rule.target(Direction::Download) is Some || rule.target(Direction::Upload) is Some
}

/// How many processes have a rule of some kind.
pub open spec fn count_where(
    rules: Map<u32, ProcessRule>,
    wanted: spec_fn(ProcessRule) -> bool,
) -> nat {
    rules.dom().filter(|p: u32| wanted(rules[p])).len()
}

/// What the summary counts.
#[derive(Debug, Clone, Copy, PartialEq, Eq, Structural)]
pub struct RuleCounts {
    pub limited: usize,
    pub blocked: usize,
    pub adaptive: usize,
}

/// Counts the rules that limit, that block, and that are marked adaptive.
fn count_rules(rules: &HashMap<u32, ProcessRule>) -> (r: RuleCounts)
    ensures
        r.limited == count_where(rules@, |x: ProcessRule| limits_traffic(x)),
        r.blocked == count_where(rules@, |x: ProcessRule| x.block_all),
        r.adaptive == count_where(rules@, |x: ProcessRule| x.adaptive),
        r.blocked <= 0x1_0000_0000,
        r.adaptive <= 0x1_0000_0000,
{
    let mut counts = RuleCounts { limited: 0, blocked: 0, adaptive: 0 };
    let pids = crate::state::keys_of(rules);
    let ghost m = rules@;
    let mut i: usize = 0;
    proof {
        let nobody = pids@.take(0).to_set();
        assert(nobody =~= Set::<u32>::empty());
        assert(nobody.filter(|p: u32| limits_traffic(m[p])) =~= Set::<u32>::empty());
        assert(nobody.filter(|p: u32| m[p].block_all) =~= Set::<u32>::empty());
        assert(nobody.filter(|p: u32| m[p].adaptive) =~= Set::<u32>::empty());
    }
    while i < pids.len()
        invariant
            i <= pids@.len(),
            m == rules@,
            pids@.no_duplicates(),
            forall|k: u32| #[trigger] pids@.contains(k) <==> m.contains_key(k),
            counts.limited == pids@.take(i as int).to_set().filter(
                |p: u32| limits_traffic(m[p]),
            ).len(),
            counts.blocked == pids@.take(i as int).to_set().filter(|p: u32| m[p].block_all).len(),
            counts.adaptive == pids@.take(i as int).to_set().filter(|p: u32| m[p].adaptive).len(),
            counts.limited <= i,
            counts.blocked <= i,
            counts.adaptive <= i,
        decreases pids@.len() - i,
    {
        let pid: u32 = pids[i];
        assert(pids@.contains(pid));
        let rule: ProcessRule = match rules.get(&pid) {
            Some(rule) => *rule,
            None => ProcessRule::default(),
        };
        proof {
            lemma_filter_one_more(pids@, i as int, |p: u32| limits_traffic(m[p]));
            lemma_filter_one_more(pids@, i as int, |p: u32| m[p].block_all);
            lemma_filter_one_more(pids@, i as int, |p: u32| m[p].adaptive);
        }
        if rule.target_bps(Direction::Download).is_some() || rule.target_bps(
            Direction::Upload,
        ).is_some() {
            counts.limited = counts.limited + 1;
        }
        if rule.block_all {
            counts.blocked = counts.blocked + 1;
        }
        if rule.adaptive {
            counts.adaptive = counts.adaptive + 1;
        }
        i += 1;
    }
    proof {
        assert(pids@.take(i as int) =~= pids@);
        assert(pids@.to_set() =~= m.dom()) by {
            assert forall|k: u32| pids@.to_set().contains(k) == m.dom().contains(k) by {
                assert(pids@.contains(k) == m.contains_key(k));
            }
        }
        lemma_few_numbers(pids@);
        assert(m.dom().filter(|p: u32| limits_traffic(m[p])) =~= m.dom().filter(
            |p: u32| (|x: ProcessRule| limits_traffic(x))(m[p]),
        ));
        assert(m.dom().filter(|p: u32| m[p].block_all) =~= m.dom().filter(
            |p: u32| (|x: ProcessRule| x.block_all)(m[p]),
        ));
        assert(m.dom().filter(|p: u32| m[p].adaptive) =~= m.dom().filter(
            |p: u32| (|x: ProcessRule| x.adaptive)(m[p]),
        ));
    }
    counts
}

/// No list of `u32`s without repetition is longer than there are such numbers.
proof fn lemma_few_numbers(s: Seq<u32>)
    requires
        s.no_duplicates(),
    ensures
        s.len() <= 0x1_0000_0000,
{
    let wide = |x: u32| x as int;
    let numbers = vstd::set_lib::set_int_range(0, 0x1_0000_0000);
    s.unique_seq_to_set();
    vstd::set_lib::lemma_int_range(0, 0x1_0000_0000);
    vstd::set_lib::lemma_map_size(s.to_set(), s.to_set().map(wide), wide);
    vstd::set_lib::lemma_len_subset(s.to_set().map(wide), numbers);
}

proof fn lemma_filter_one_more(s: Seq<u32>, i: int, wanted: spec_fn(u32) -> bool)
    requires
        s.no_duplicates(),
        0 <= i < s.len(),
    ensures
        s.take(i + 1).to_set().filter(wanted).len() == s.take(i).to_set().filter(wanted).len()
            + if wanted(s[i]) {
            1nat
        } else {
            0
        },
        s.take(i).to_set().filter(wanted).finite(),
{
    let (a, b) = (s.take(i).to_set(), s.take(i + 1).to_set());
    assert forall|x: u32| #[trigger] b.contains(x) == (a.contains(x) || x == s[i]) by {
        let (u, v) = (s.take(i), s.take(i + 1));
        if u.contains(x) {
            let j = choose|j: int| 0 <= j < u.len() && u[j] == x;
            assert(v[j] == x);
        }
        if v.contains(x) && x != s[i] {
            let j = choose|j: int| 0 <= j < v.len() && v[j] == x;
            assert(u[j] == x);
        }
        assert(v[i] == s[i]);
    }
    assert(!a.contains(s[i])) by {
        if s.take(i).contains(s[i]) {
            let j = choose|j: int| 0 <= j < i && s.take(i)[j] == s[i];
            assert(s[j] == s[i]);
        }
    }
    if wanted(s[i]) {
        assert(b.filter(wanted) =~= a.filter(wanted).insert(s[i]));
    } else {
        assert(b.filter(wanted) =~= a.filter(wanted));
    }
}

/// What the summary panel says.
#[derive(Debug)]
pub struct Summary {
    pub throughput: String,
    pub global_limit: String,
    pub process_limits: String,
    pub blocked: String,
    pub adaptive: String,
}

/// [`Summary`] with its texts as characters.
#[verifier::ext_equal]
pub struct SummaryView {
    pub throughput: Seq<char>,
    pub global_limit: Seq<char>,
    pub process_limits: Seq<char>,
    pub blocked: Seq<char>,
    pub adaptive: Seq<char>,
}

impl View for Summary {
    type V = SummaryView;

    open spec fn view(&self) -> SummaryView {
        SummaryView {
            throughput: self.throughput@,
            global_limit: self.global_limit@,
            process_limits: self.process_limits@,
            blocked: self.blocked@,
            adaptive: self.adaptive@,
        }
    }
}

pub open spec fn one_if(b: bool) -> nat {
    if b {
        1
    } else {
        0
    }
}

/// What the summary panel says: speeds, the global limit, how many processes are limited, and how
/// many rules, the global one included, block or adapt.
pub open spec fn summary_view(s: StateView) -> SummaryView {
    SummaryView {
        throughput: "DL "@ + speed_text(s.global_dl_bps as nat, s.speed_unit) + " / UL "@
            + speed_text(s.global_ul_bps as nat, s.speed_unit),
        global_limit: global_note(s.global_rule, s.speed_unit),
        process_limits: decimal(count_where(s.rules, |x: ProcessRule| limits_traffic(x))),
        blocked: decimal(
            count_where(s.rules, |x: ProcessRule| x.block_all) + one_if(s.global_rule.block_all),
        ),
        adaptive: decimal(
            count_where(s.rules, |x: ProcessRule| x.adaptive) + one_if(s.global_rule.adaptive),
        ),
    }
}

/// What the summary panel says.
pub fn summary(state: &AppState) -> (r: Summary)
    ensures
        r@ == summary_view(state@),
{
    let counts = count_rules(&state.rules);
    let mut throughput = String::from_str("DL ");
    let dl = format_speed(state.global_dl_bps, state.speed_unit);
    throughput.append(dl.as_str());
    throughput.append(" / UL ");
    let ul = format_speed(state.global_ul_bps, state.speed_unit);
    throughput.append(ul.as_str());
    let blocked: u64 = counts.blocked as u64;
    let adaptive: u64 = counts.adaptive as u64;
    Summary {
        throughput,
        global_limit: global_limit_summary(&state.global_rule, state.speed_unit),
        process_limits: format_u64(counts.limited as u64),
        blocked: format_u64(
            if state.global_rule.block_all {
                blocked + 1
            } else {
                blocked
            },
        ),
        adaptive: format_u64(
            if state.global_rule.adaptive {
                adaptive + 1
            } else {
                adaptive
            },
        ),
    }
}

/// Width and height of the tray icon in pixels.
pub const TRAY_ICON_SIZE: usize = 32;

/// One pixel of the tray icon: blue inside a disc of radius 15 around the middle, clear outside.
/// Distances are counted in half pixels.
pub open spec fn tray_pixel(x: int, y: int) -> Seq<u8> {
    let (dx, dy) = (2 * x - 31, 2 * y - 31);
    if dx * dx + dy * dy <= 900 {
        seq![40u8, 90u8, 180u8, 255u8]
    } else {
        seq![0u8, 0u8, 0u8, 0u8]
    }
}

/// The first `n` pixels of the tray icon, row by row.
pub open spec fn tray_pixels(n: nat) -> Seq<u8>
    decreases n,
{
    if n == 0 {
        Seq::empty()
    } else {
        tray_pixels((n - 1) as nat) + tray_pixel((n - 1) % 32, (n - 1) / 32)
    }
}

/// The tray icon: red, green, blue and opacity of each pixel, row by row.
pub fn make_tray_icon() -> (r: Vec<u8>)
    ensures
        r@ == tray_pixels(1024),
        r@.len() == 4096,
{
    let mut out: Vec<u8> = Vec::new();
    let mut n: i32 = 0;
    while n < 1024
        invariant
            0 <= n <= 1024,
            out@ == tray_pixels(n as nat),
            out@.len() == 4 * n,
        decreases 1024 - n,
    {
        let ghost before = out@;
        let x: i32 = n % 32;
        let y: i32 = n / 32;
        let dx: i32 = 2 * x - 31;
        let dy: i32 = 2 * y - 31;
        assert(0 <= dx * dx <= 31 * 31) by (nonlinear_arith)
            requires
                -31 <= dx <= 31,
        ;
        assert(0 <= dy * dy <= 31 * 31) by (nonlinear_arith)
            requires
                -31 <= dy <= 31,
        ;
        if dx * dx + dy * dy <= 900 {
            out.push(40);
            out.push(90);
            out.push(180);
            out.push(255);
        } else {
            out.push(0);
            out.push(0);
            out.push(0);
            out.push(0);
        }
        assert(out@ =~= before + tray_pixel(x as int, y as int));
        n += 1;
    }
    out
}

/// What is shown once the engine was to start: without privileges it was not tried.
pub fn start_status(elevated: bool, started: &Result<(), EngineError>) -> (r: TickStatus)
    ensures
        r.running == (elevated && *started is Ok),
        r.text@ == if !elevated {
            "Administrator privileges are required to start the interceptor."@
        } else {
            match *started {
                Ok(_) => "Interceptor running"@,
                Err(cause) => crate::engine::engine_message(cause),
            }
        },
{
    if !elevated {
        return TickStatus {
            running: false,
            text: String::from_str(
                "Administrator privileges are required to start the interceptor.",
            ),
        };
    }
    match started {
        Ok(_) => TickStatus { running: true, text: String::from_str("Interceptor running") },
        Err(cause) => TickStatus { running: false, text: cause.message() },
    }
}

/// What closing the window does.
#[derive(Debug, Clone, Copy, PartialEq, Eq, Structural)]
pub enum CloseAction {
    /// The program goes on in the tray.
    HideToTray,
    /// The program ends.
    Quit,
}

/// What closing the window does: a running engine keeps the program in the tray.
pub fn close_action(running: bool) -> (r: CloseAction)
    ensures
        r == (if running {
            CloseAction::HideToTray
        } else {
            CloseAction::Quit
        }),
{
    if running {
        CloseAction::HideToTray
    } else {
        CloseAction::Quit
    }
}

} // verus!
