use std::collections::HashMap;

use flowbrake::engine::{EngineCommand, EngineSnapshot};
use flowbrake::process::ProcessDetails;
use flowbrake::rows::{ProcessInfo, RowKind};
use flowbrake::rule::{Direction, ProcessRule, BYTE_PER_SEC};
use flowbrake::settings::AppSettings;
use flowbrake::speed::SpeedUnit;
use flowbrake::state::{AppState, RowSelection, TableFingerprint};
use flowbrake::tcp::{Endpoint, IpAddress, TcpConnection, TcpConnectionKey};
use flowbrake::views::{sidebar, summary, to_ui_row};

const MS: u64 = 1_000_000;

fn bps(bytes_per_sec: u64) -> u64 {
    bytes_per_sec * BYTE_PER_SEC
}

fn processes() -> Vec<ProcessInfo> {
    [(2, "chrome"), (1, "Chrome"), (5, "curl")]
        .iter()
        .map(|(pid, name)| ProcessInfo {
            pid: *pid,
            name: name.to_string(),
        })
        .collect()
}

fn state() -> AppState {
    let mut settings = AppSettings::default();
    settings.speed_unit_bits = false;
    let mut state = AppState::new(settings, "PC".to_string());
    state.rebuild_rows(&processes(), false);
    state
}

fn snapshot(per_pid: &[(u32, (u64, u64))], running: bool) -> EngineSnapshot {
    EngineSnapshot {
        per_pid: per_pid.iter().copied().collect(),
        global_download_bytes: per_pid.iter().map(|(_, c)| c.0).sum(),
        global_upload_bytes: per_pid.iter().map(|(_, c)| c.1).sum(),
        packets_processed: 12,
        packets_dropped: 3,
        running,
    }
}

fn connection(pid: u32, label: &str, ipv6: bool) -> TcpConnection {
    let end = Endpoint {
        addr: IpAddress::V4([127, 0, 0, 1]),
        port: 80,
    };
    TcpConnection {
        key: TcpConnectionKey {
            ipv6,
            local: end,
            remote: end,
        },
        pid,
        remote_label: label.to_string(),
        state_label: "Established".to_string(),
        disconnectable: true,
    }
}

#[test]
fn table_shows_groups_in_order() {
    let state = state();
    assert_eq!(state.rows.len(), 3);
    assert!(matches!(&state.rows[1].kind, RowKind::Group { pids, .. } if pids == &vec![1, 2]));
    assert!(matches!(&state.rows[2].kind, RowKind::Group { pids, .. } if pids == &vec![5]));
    assert_eq!(state.selected_row_index(), -1);
}

#[test]
fn rows_are_selected_by_what_they_are() {
    let mut state = state();
    state.select_row(2);
    assert_eq!(state.selected_row_index(), 2);
    assert!(matches!(&state.selected, Some(RowSelection::Group(key)) if key == "curl"));
    state.select_row(-1);
    assert_eq!(state.selected_row_index(), -1);
    state.select_row(99);
    assert!(state.selected.is_none());
    state.select_row(0);
    assert_eq!(state.selected_row(), Some(0));
    state.clear_selection();
    assert_eq!(state.selected_row(), None);
}

#[test]
fn double_clicks_are_quick_and_on_one_row() {
    let mut state = state();
    assert!(!state.handle_row_click(1, 0));
    assert!(state.handle_row_click(1, 399 * MS));
    assert!(!state.handle_row_click(1, 500 * MS));
    assert!(!state.handle_row_click(1, 900 * MS));
    assert!(!state.handle_row_click(2, 901 * MS));
    assert!(state.handle_row_click(2, 902 * MS));
}

#[test]
fn groups_open_and_close() {
    let mut state = state();
    state.toggle_row_expanded(2);
    assert!(state.expanded.is_empty());
    state.toggle_row_expanded(1);
    assert!(state.expanded.contains("chrome"));
    state.rebuild_rows(&processes(), false);
    assert_eq!(state.rows.len(), 5);
    state.select_row(3);
    assert!(matches!(state.selected, Some(RowSelection::Child(2))));
    state.toggle_row_expanded(1);
    assert!(!state.expanded.contains("chrome"));
    assert!(matches!(&state.selected, Some(RowSelection::Group(key)) if key == "chrome"));
}

#[test]
fn drafts_are_kept_but_not_applied() {
    let mut state = state();
    let commands = state.edit_row_limit(1, "dl", "64", 0);
    assert_eq!(state.name_rules.get("chrome").unwrap().download_kbps, 64);
    assert_eq!(state.rules[&1].download_kbps, 64);
    assert!(matches!(
        &commands[..],
        [EngineCommand::UpdateRuleForPids(pids, rule)]
            if pids == &vec![1, 2] && !rule.has_any_rule()
    ));
    assert!(!state.can_refresh_table(1999 * MS));
    assert!(state.can_refresh_table(2000 * MS));

    state.rebuild_rows(&processes(), false);
    let commands = state.edit_selected_bool("limit_dl", true);
    assert!(matches!(
        &commands[..],
        [EngineCommand::UpdateRuleForPids(_, rule)]
            if rule.effective_bps(Direction::Download) == Some(bps(65_536))
    ));
}

#[test]
fn edits_that_make_no_sense_change_nothing() {
    let mut state = state();
    assert!(state.edit_row_limit(9, "dl", "64", 0).is_empty());
    assert!(state.edit_row_limit(1, "dl", "fast", 0).is_empty());
    assert!(state.edit_selected_limit("dl", "64", 0).is_empty());
    assert!(state.edit_selected_bool("block", true).is_empty());
    assert!(state.edit_bool(-1, "block", true).is_empty());
    assert!(state.selected.is_none());
    assert!(state.edit_bool(1, "colour", true).is_empty());
    assert!(state.selected.is_some());
    assert!(state.rules.is_empty());
}

#[test]
fn switches_reach_the_engine() {
    let mut state = state();
    let commands = state.edit_bool(0, "block", true);
    assert!(matches!(&commands[..], [EngineCommand::SetGlobalRule(rule)] if rule.block_all));
    assert!(state.global_rule.block_all);

    state.select_row(2);
    let commands = state.edit_selected_limit("ul", "10", 0);
    assert_eq!(commands.len(), 1);
    state.rebuild_rows(&processes(), false);
    state.edit_selected_bool("limit_ul", true);
    state.rebuild_rows(&processes(), false);
    state.edit_selected_bool("adaptive", true);
    state.rebuild_rows(&processes(), false);
    assert!(state.rules[&5].adaptive);
    state.edit_selected_bool("adaptive", false);
    assert!(!state.rules[&5].adaptive);
    state.rebuild_rows(&processes(), false);
    state.edit_selected_bool("limit_ul", false);
    state.rebuild_rows(&processes(), false);
    state.edit_selected_limit("ul", "", 0);
    assert!(!state.rules.contains_key(&5));
    assert_eq!(state.name_rules.get("curl"), None);
}

#[test]
fn editing_keeps_the_table_still() {
    let mut state = state();
    state.edit_row_limit(1, "ul", "5", 0);
    state.set_limit_editing(true);
    assert!(!state.can_refresh_table(u64::MAX));
    state.set_limit_editing(false);
    assert!(state.can_refresh_table(0));
}

#[test]
fn ticks_average_speeds() {
    let mut state = state();
    let (status, commands) = state.tick(&snapshot(&[(5, (1000, 10))], true));
    assert!(status.running);
    assert!(commands.is_empty());
    assert_eq!(
        status.text,
        "Interceptor running   v 1000 B/s   ^ 10 B/s   |   Packets: 12   Dropped: 3"
    );
    assert_eq!(state.speeds[&5], (bps(1000), bps(10)));
    let (status, _) = state.tick(&snapshot(&[], false));
    assert_eq!(status.text, "Interceptor stopped");
    assert_eq!(state.speeds[&5], (bps(500), bps(5)));
    assert_eq!(state.global_dl_bps, bps(500));
    for _ in 0..5 {
        state.tick(&snapshot(&[], false));
    }
    assert_eq!(state.speeds[&5], (0, 0));
}

#[test]
fn adaptive_rules_are_steered_while_running() {
    let mut state = state();
    state.rules.insert(
        5,
        ProcessRule {
            limit_download: true,
            download_kbps: 1,
            adaptive: true,
            ..Default::default()
        },
    );
    let (_, commands) = state.tick(&snapshot(&[(5, (2048, 0))], true));
    let adjusted = state.rules[&5].adjusted_dl_bps;
    assert!(adjusted > 0 && adjusted < bps(1024));
    assert!(matches!(
        &commands[..],
        [EngineCommand::UpdateRule(5, rule)] if rule.adjusted_dl_bps == adjusted
    ));
    let (_, commands) = state.tick(&snapshot(&[(5, (2048, 0))], false));
    assert!(commands.is_empty());
    state.stop();
    assert_eq!(state.rules[&5].adjusted_dl_bps, 0);
}

#[test]
fn the_global_rule_adapts_too() {
    let mut state = state();
    state.global_rule = ProcessRule {
        limit_download: true,
        download_kbps: 1,
        limit_upload: true,
        upload_kbps: 1,
        adaptive: true,
        ..Default::default()
    };
    let commands = state.run_adaptive_feedback();
    assert_eq!(commands.len(), 2);
    assert_eq!(state.global_rule.adjusted_dl_bps, bps(1024));
    assert_eq!(state.global_rule.adjusted_ul_bps, bps(1024));
}

#[test]
fn rules_return_with_their_processes() {
    let mut settings = AppSettings::default();
    let rule = ProcessRule {
        block_all: true,
        ..Default::default()
    };
    settings.name_rules.insert("chrome".to_string(), rule);
    let mut state = AppState::new(settings, "PC".to_string());
    let commands = state.apply_name_rules_from(&processes(), true);
    assert_eq!(commands.len(), 2);
    assert!(state.rules[&1].block_all && state.rules[&2].block_all);
    assert!(!state.rules.contains_key(&5));
    assert!(state.apply_name_rules_from(&processes(), true).is_empty());
}

#[test]
fn all_rules_are_pushed_without_drafts() {
    let mut state = state();
    state.edit_row_limit(1, "dl", "9", 0);
    state.edit_bool(2, "block", true);
    let commands = state.push_all_rules();
    assert_eq!(commands.len(), 4);
    assert!(matches!(commands[0], EngineCommand::SetGlobalRule(_)));
    for command in &commands[1..] {
        match command {
            EngineCommand::UpdateRule(pid, rule) => assert_eq!(rule.has_any_rule(), *pid == 5),
            _ => panic!("unexpected command"),
        }
    }
    let commands = state.full_exit();
    assert!(matches!(&commands[..], [EngineCommand::ClearRules]));
    assert!(state.rules.is_empty());
    assert!(!state.global_rule.has_any_rule());
}

#[test]
fn table_is_rebuilt_only_when_it_changes() {
    let mut state = state();
    let (rebuilt, _) = state.refresh_table(Vec::new(), &processes(), false);
    assert!(!rebuilt);
    let mut more = processes();
    more.push(ProcessInfo {
        pid: 8,
        name: "wget".to_string(),
    });
    let (rebuilt, _) = state.refresh_table(vec![connection(8, "x", false)], &more, false);
    assert!(rebuilt);
    assert_eq!(state.rows.len(), 4);
    assert_eq!(state.all_connections.len(), 1);
    let a = TableFingerprint::from_processes(&processes(), &state.expanded);
    let b = TableFingerprint::from_processes(&more, &state.expanded);
    assert!(a.is_same(&a));
    assert!(!a.is_same(&b));
}

#[test]
fn searches_expand_then_select() {
    let mut state = state();
    let locate = state.locate_process_search("CHRO");
    assert!(locate.needs_row_rebuild);
    assert!(state.expanded.contains("chrome"));
    state.rebuild_rows(&processes(), false);
    let locate = state.complete_process_search_locate();
    assert!(!locate.needs_row_rebuild);
    assert_eq!(locate.matched_row_index, Some(1));
    assert_eq!(locate.scroll_offset_px, 36);
    assert_eq!(state.selected_row_index(), 1);
    assert_eq!(state.locate_process_search("nothing").matched_row_index, None);
    assert_eq!(state.locate_process_search("curl").matched_row_index, Some(4));
}

#[test]
fn kept_preferences_return() {
    let mut state = state();
    state.toggle_row_expanded(1);
    state.edit_bool(2, "block", true);
    state.set_speed_unit(SpeedUnit::Bits);
    assert!(state.set_ipv6_enabled(false));
    assert!(!state.set_ipv6_enabled(false));
    let settings = AppSettings::load(&state.to_settings().save());
    let again = AppState::new(settings, "PC".to_string());
    assert!(again.expanded.contains("chrome"));
    assert!(again.name_rules.get("curl").unwrap().block_all);
    assert!(again.speed_unit.is_bits());
    assert!(!again.ipv6_enabled);
}

#[test]
fn rows_are_shown_with_their_details() {
    let mut state = state();
    let details = HashMap::from([(
        1,
        ProcessDetails {
            pid: 1,
            name: "chrome".to_string(),
            display_name: "Google Chrome".to_string(),
            exe_path: "C:\\chrome.exe".to_string(),
        },
    )]);
    state.describe_rows(&details);
    let row = to_ui_row(&state.rows[1], state.speed_unit, "PC");
    assert_eq!(row.process, "Google Chrome (2)");
    assert_eq!(row.pid, "");
    assert_eq!(row.exe_path, "C:\\chrome.exe");
    assert!(row.is_group && row.expandable && row.show_icon && !row.expanded);
    assert_eq!(row.dl_limit, "Off");
    assert_eq!(row.dl_limit_edit, "");
    assert_eq!(row.depth, 0);
    let machine = to_ui_row(&state.rows[0], state.speed_unit, "PC");
    assert_eq!(machine.process, "PC");
    assert!(machine.is_global && machine.use_computer_icon && !machine.show_icon);
    let curl = to_ui_row(&state.rows[2], state.speed_unit, "PC");
    assert_eq!(curl.process, "curl");
    assert_eq!(curl.pid, "5");
}

#[test]
fn sidebar_follows_the_selection() {
    let mut state = state();
    assert!(!sidebar(&state).open);
    state.refresh_connections(vec![
        connection(2, "b.example:443", false),
        connection(1, "a.example:443", true),
        connection(9, "0.example:443", false),
    ]);
    state.select_row(1);
    let shown = sidebar(&state);
    assert!(shown.open);
    assert_eq!(shown.title, "chrome");
    assert_eq!(shown.kind, "Process group");
    assert_eq!(shown.pid, "-");
    assert_eq!(shown.pids, "1, 2");
    assert_eq!(shown.connections.summary, "2 TCP connections");
    assert_eq!(shown.connections.tab_title, "Connections (2)");
    assert!(shown.connections.can_disconnect_all);
    assert_eq!(shown.connections.connections[0].label, "a.example:443");
    assert_eq!(
        shown.connections.connections[0].detail,
        "PID 1 \u{b7} Established"
    );
    assert!(!shown.connections.connections[0].disconnectable);
    assert!(shown.connections.connections[1].disconnectable);

    state.select_row(0);
    let shown = sidebar(&state);
    assert_eq!(shown.kind, "Computer");
    assert_eq!(shown.pids, "All traffic");
    assert!(!shown.connections.shown);
}

#[test]
fn summary_counts_rules() {
    let mut state = state();
    state.edit_bool(1, "block", true);
    state.edit_bool(0, "block", true);
    state.rules.insert(
        5,
        ProcessRule {
            limit_upload: true,
            upload_kbps: 3,
            adaptive: true,
            ..Default::default()
        },
    );
    state.global_rule.limit_download = true;
    state.global_rule.download_kbps = 50;
    let shown = summary(&state);
    assert_eq!(shown.throughput, "DL 0 B/s / UL 0 B/s");
    assert_eq!(shown.global_limit, "DL 50 KB/s / UL Off");
    assert_eq!(shown.process_limits, "1");
    assert_eq!(shown.blocked, "3");
    assert_eq!(shown.adaptive, "1");
}
