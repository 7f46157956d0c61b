use std::collections::HashMap;

use flowbrake::names::NameSet;
use flowbrake::rows::{
    build_process_rows, ProcessInfo, ProcessRow, RowKind, SortColumn, SortDirection,
};
use flowbrake::rule::{GlobalRule, ProcessRule, BYTE_PER_SEC};
use flowbrake::search::{
    find_first_matching_row_index, fuzzy_match, groups_to_expand_for_search, locate_in_rows,
    row_scroll_offset, row_search_texts,
};

fn bps(bytes_per_sec: u64) -> u64 {
    bytes_per_sec * BYTE_PER_SEC
}

fn names(list: &[&str]) -> NameSet {
    let mut set = NameSet::new();
    for name in list {
        set.insert(name.to_string());
    }
    set
}

fn chrome(pids: Vec<u32>) -> ProcessRow {
    ProcessRow {
        kind: RowKind::Group {
            process_name: "chrome.exe".to_string(),
            display_name: "Google Chrome".to_string(),
            exe_path: String::new(),
            pids,
            expanded: false,
        },
        dl_bps: 0,
        ul_bps: 0,
        rule: ProcessRule::default(),
    }
}

#[test]
fn process_rows_group_case_insensitively() {
    let processes = vec![
        ProcessInfo {
            pid: 2,
            name: "chrome".into(),
        },
        ProcessInfo {
            pid: 1,
            name: "Chrome".into(),
        },
        ProcessInfo {
            pid: 5,
            name: "curl".into(),
        },
    ];
    let expanded = names(&["chrome"]);
    let speeds = HashMap::from([
        (1, (bps(10), bps(1))),
        (2, (bps(20), bps(2))),
        (5, (bps(5), bps(50))),
    ]);

    let rows = build_process_rows(
        &processes,
        &expanded,
        &HashMap::new(),
        &speeds,
        GlobalRule::default(),
        SortColumn::Process,
        SortDirection::Ascending,
    );

    assert!(matches!(rows[0].kind, RowKind::Global));
    assert_eq!(rows.len(), 5);
    assert!(matches!(
        &rows[1].kind,
        RowKind::Group {
            process_name,
            pids,
            expanded: true,
            ..
        } if process_name == "chrome" && pids == &vec![1, 2]
    ));
    assert_eq!(rows[1].dl_bps, bps(30));
    assert_eq!(rows[1].ul_bps, bps(3));
}

#[test]
fn expanded_state_matches_lowercase_keys() {
    let processes = vec![
        ProcessInfo {
            pid: 1,
            name: "Chrome.exe".into(),
        },
        ProcessInfo {
            pid: 2,
            name: "chrome.exe".into(),
        },
    ];
    let expanded = names(&["chrome.exe"]);
    let speeds = HashMap::from([(1, (bps(10), bps(1))), (2, (bps(20), bps(2)))]);

    let rows = build_process_rows(
        &processes,
        &expanded,
        &HashMap::new(),
        &speeds,
        GlobalRule::default(),
        SortColumn::Process,
        SortDirection::Ascending,
    );

    assert!(matches!(
        &rows[1].kind,
        RowKind::Group { expanded: true, .. }
    ));
    assert_eq!(rows.len(), 4);
}

#[test]
fn names_group_beyond_ascii() {
    let processes = vec![
        ProcessInfo {
            pid: 1,
            name: "\u{c4}pfel".into(),
        },
        ProcessInfo {
            pid: 2,
            name: "\u{e4}PFEL".into(),
        },
    ];
    let rows = build_process_rows(
        &processes,
        &NameSet::new(),
        &HashMap::new(),
        &HashMap::new(),
        GlobalRule::default(),
        SortColumn::Process,
        SortDirection::Ascending,
    );
    assert_eq!(rows.len(), 2);
}

fn order_by(column: SortColumn, direction: SortDirection) -> Vec<String> {
    let process = |pid: u32, name: &str| ProcessInfo {
        pid,
        name: name.to_string(),
    };
    let processes = vec![
        process(9, "beta"),
        process(3, "Alpha"),
        process(7, "gamma"),
        process(4, "beta"),
    ];
    let speeds = HashMap::from([
        (9, (bps(1), bps(9))),
        (3, (bps(2), bps(3))),
        (7, (bps(5), bps(5))),
        (4, (bps(1), bps(1))),
    ]);
    let rules = HashMap::from([(
        9,
        ProcessRule {
            block_all: true,
            ..Default::default()
        },
    )]);
    let rows = build_process_rows(
        &processes,
        &NameSet::new(),
        &rules,
        &speeds,
        GlobalRule::default(),
        column,
        direction,
    );
    rows.iter()
        .skip(1)
        .map(|row| match &row.kind {
            RowKind::Group { process_name, .. } => {
                assert_eq!(row.rule.block_all, process_name == "beta");
                process_name.clone()
            }
            _ => unreachable!(),
        })
        .collect()
}

#[test]
fn groups_sort_by_every_column() {
    let up = SortDirection::Ascending;
    let down = SortDirection::Descending;
    assert_eq!(order_by(SortColumn::Process, up), ["Alpha", "beta", "gamma"]);
    assert_eq!(order_by(SortColumn::Process, down), ["gamma", "beta", "Alpha"]);
    assert_eq!(order_by(SortColumn::Pid, up), ["Alpha", "beta", "gamma"]);
    assert_eq!(order_by(SortColumn::DownloadSpeed, up), ["beta", "Alpha", "gamma"]);
    assert_eq!(order_by(SortColumn::DownloadSpeed, down), ["gamma", "beta", "Alpha"]);
    assert_eq!(order_by(SortColumn::UploadSpeed, up), ["Alpha", "gamma", "beta"]);
}

#[test]
fn fuzzy_match_is_case_insensitive_and_subsequence_based() {
    assert!(fuzzy_match("Google Chrome", "gochr"));
    assert!(fuzzy_match("Google Chrome", "CHROME"));
    assert!(!fuzzy_match("Google Chrome", "xyz"));
}

#[test]
fn find_first_matching_row_index_skips_global_row_when_possible() {
    let rows = vec![
        ProcessRow::global(GlobalRule::default()),
        chrome(vec![100]),
    ];

    assert_eq!(find_first_matching_row_index(&rows, "chrome", "PC"), Some(1));
}

#[test]
fn row_scroll_offset_accounts_for_global_row_height() {
    let rows = vec![
        ProcessRow::global(GlobalRule::default()),
        chrome(vec![100]),
    ];

    assert_eq!(row_scroll_offset(&rows, 1), 36);
}

#[test]
fn locate_in_rows_requests_rebuild_for_collapsed_group_match() {
    let rows = vec![
        ProcessRow::global(GlobalRule::default()),
        chrome(vec![100, 200]),
    ];

    let locate = locate_in_rows(&rows, "chrome", "PC");
    assert!(locate.needs_row_rebuild);
    assert_eq!(locate.matched_row_index, None);
}

#[test]
fn searches_need_every_character_in_order() {
    assert!(fuzzy_match("abc", ""));
    assert!(fuzzy_match("\u{c4}bc", "\u{e4}C"));
    assert!(!fuzzy_match("abc", "cb"));
    assert!(!fuzzy_match("abc", "aa"));
    assert!(!fuzzy_match("", "a"));
}

#[test]
fn the_machine_is_found_only_where_no_process_is() {
    let rows = vec![
        ProcessRow::global(GlobalRule::default()),
        chrome(vec![100]),
    ];
    assert_eq!(find_first_matching_row_index(&rows, "pc", "PC"), Some(0));
    assert_eq!(find_first_matching_row_index(&rows, "zzz", "PC"), None);
    assert_eq!(find_first_matching_row_index(&rows, "100", "PC"), Some(1));
    let located = locate_in_rows(&rows, " goo ", "PC");
    assert_eq!(located.matched_row_index, Some(1));
    assert_eq!(located.scroll_offset_px, 36);
    assert_eq!(locate_in_rows(&rows, "   ", "PC").matched_row_index, None);
    assert_eq!(row_scroll_offset(&rows, 9), 68);
}

#[test]
fn rows_answer_by_names_and_numbers() {
    let child = ProcessRow {
        kind: RowKind::Child {
            process_name: "curl".to_string(),
            display_name: "Curl".to_string(),
            exe_path: String::new(),
            pid: 12,
        },
        dl_bps: 0,
        ul_bps: 0,
        rule: ProcessRule::default(),
    };
    assert_eq!(row_search_texts(&child, "PC"), ["PID 12", "12", "Curl", "curl"]);
    assert_eq!(
        row_search_texts(&chrome(vec![5, 6]), "PC"),
        ["Google Chrome", "chrome.exe", "5", "6"]
    );
    let groups = groups_to_expand_for_search(&vec![chrome(vec![5, 6])], "6", "PC");
    assert!(groups.contains("chrome.exe"));
    let open = groups_to_expand_for_search(&vec![chrome(vec![5])], "5", "PC");
    assert!(open.is_empty());
}
