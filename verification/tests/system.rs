use std::path::Path;

use flowbrake::chrome::{
    drag_position, window_appearance, WindowAppearanceSync, CHROME_BORDER_COLOR, CORNERS_ROUND,
    CORNERS_SQUARE,
};
use flowbrake::elevation::{
    admin_required_message, join_args, relaunch_as_admin, runtime_dir, ElevationError,
    RelaunchResult,
};
use flowbrake::engine::EngineError;
use flowbrake::process::{
    bgra_to_rgba, friendly_display_name, list_running_pids, name_of_units, process_details,
    process_details_uncached, process_icon, process_name, version_subblock, ListStep,
    ProcessMetadataCache,
};
use flowbrake::tcp::{
    close_status, close_tcp_connection, close_tcp_connections_for_pid,
    close_tcp_connections_for_pids, closed_count, CloseTcpError, Endpoint, IpAddress,
    TcpConnection, TcpConnectionKey,
};
use flowbrake::views::{
    close_action, connections_summary, connections_tab_title, join_pids, limit_display_text,
    limit_text, make_tray_icon, start_status, CloseAction,
};
use flowbrake::speed::SpeedUnit;

#[test]
fn runtime_dir_points_next_to_executable() {
    let dir = runtime_dir(None);
    assert!(Path::new(&dir).is_absolute() || dir == ".");
    let dir = runtime_dir(Some("/opt/flowbrake".to_string()));
    assert!(Path::new(&dir).is_absolute() || dir == ".");
    assert_eq!(dir, "/opt/flowbrake");
}

#[test]
fn relaunches_are_judged_by_the_shell() {
    assert_eq!(relaunch_as_admin(true, 33), RelaunchResult::Started);
    assert_eq!(relaunch_as_admin(true, 1222), RelaunchResult::Started);
    assert_eq!(relaunch_as_admin(true, 1223), RelaunchResult::Cancelled);
    assert_eq!(relaunch_as_admin(true, 1224), RelaunchResult::Started);
    assert_eq!(
        relaunch_as_admin(true, 32),
        RelaunchResult::Failed(ElevationError::Failed(32))
    );
    assert_eq!(
        relaunch_as_admin(false, 1223),
        RelaunchResult::Failed(ElevationError::MissingExecutable)
    );
    assert_eq!(
        relaunch_as_admin(true, 5),
        RelaunchResult::Failed(ElevationError::Failed(5))
    );
    assert_eq!(
        relaunch_as_admin(false, 33),
        RelaunchResult::Failed(ElevationError::MissingExecutable)
    );
    assert_eq!(admin_required_message(RelaunchResult::Started), None);
    assert_eq!(
        admin_required_message(RelaunchResult::Cancelled).unwrap(),
        "FlowBrake needs administrator approval to intercept network traffic.\n\
         Please run it again and choose Yes on the UAC prompt."
    );
    assert_eq!(
        admin_required_message(relaunch_as_admin(true, 5)).unwrap(),
        "FlowBrake could not request administrator privileges.\n\
         failed to request administrator privileges (error 5)"
    );
    assert_eq!(
        ElevationError::MissingExecutable.message(),
        "current executable path is unavailable"
    );
    assert_eq!(
        ElevationError::Cancelled.message(),
        "administrator approval was cancelled"
    );
}

#[test]
fn arguments_are_joined_by_spaces() {
    assert_eq!(join_args(&Vec::new()), None);
    assert_eq!(join_args(&vec![String::new()]), None);
    assert_eq!(
        join_args(&vec!["--a".to_string(), "b".to_string()]),
        Some("--a b".to_string())
    );
}

#[test]
fn programs_are_named_by_their_files() {
    let name = |path: &str| process_name(path);
    assert_eq!(name("C:\\Apps\\Chrome.exe"), Some("Chrome".to_string()));
    assert_eq!(name("C:/Apps/my.tool.exe"), Some("my.tool".to_string()));
    assert_eq!(name("tool"), Some("tool".to_string()));
    assert_eq!(name(".hidden"), Some(".hidden".to_string()));
    assert_eq!(name("C:\\Apps\\"), Some("Apps".to_string()));
    assert_eq!(name("C:\\Apps\\.."), None);
    assert_eq!(name("C:\\"), None);
    assert_eq!(name(""), None);
    assert_eq!(name("C:\\Apps\\a.exe\\."), Some("a".to_string()));
    assert_eq!(name("\\\\server\\share"), None);
    assert_eq!(name("//server/share/"), None);
    assert_eq!(name("\\\\server\\share\\a.exe"), Some("a".to_string()));
    assert_eq!(name("\\\\server"), Some("server".to_string()));
    assert_eq!(name("\\\\.\\COM42"), None);
    assert_eq!(name("\\\\.\\COM42\\a.exe"), Some("a".to_string()));
    assert_eq!(name("\\\\?\\C:\\Apps\\a.exe"), Some("a".to_string()));
    assert_eq!(name("\\\\?\\C:"), None);
    assert_eq!(name("\\\\?\\C:a.exe"), None);
    assert_eq!(name("\\\\?\\C:\\x/y.exe"), Some("x/y".to_string()));
    assert_eq!(name("\\\\?\\C:\\a.exe\\."), None);
    assert_eq!(name("\\\\?\\pictures"), None);
    assert_eq!(name("\\\\?\\UNC\\server\\share"), None);
    assert_eq!(name("\\\\?\\UNC\\server\\share\\a.exe"), Some("a".to_string()));
    assert_eq!(name("\\\\?\\UNC\\server"), None);
}

#[test]
fn names_in_units_are_well_formed() {
    let units = |text: &str| text.encode_utf16().collect::<Vec<u16>>();
    assert_eq!(
        name_of_units(&units("C:\\Apps\\\u{1f980}.exe")),
        Some("\u{1f980}".to_string())
    );
    let mut folder = units("C:\\");
    folder.push(0xd800);
    folder.extend(units("\\\u{fffd}.exe"));
    assert_eq!(name_of_units(&folder), Some("\u{fffd}".to_string()));
    let mut lone = units("C:\\a");
    lone.push(0xdc00);
    lone.extend(units(".exe"));
    assert_eq!(name_of_units(&lone), None);
    let mut suffix = units("C:\\a.");
    suffix.push(0xd800);
    assert_eq!(name_of_units(&suffix), Some("a".to_string()));
    assert_eq!(name_of_units(&units("C:\\")), None);
}

#[test]
fn friendly_names_are_remembered() {
    let mut cache = ProcessMetadataCache::default();
    let first = process_details(7, "C:\\A.exe", Some("Alpha".to_string()), &mut cache).unwrap();
    assert_eq!(first.display_name, "Alpha");
    assert_eq!(first.name, "A");
    assert_eq!(first.exe_path, "C:\\A.exe");
    let again = process_details(8, "c:\\a.EXE", Some("Other".to_string()), &mut cache).unwrap();
    assert_eq!(again.display_name, "Alpha");
    assert_eq!(cache.remembered_name("C:\\a.exe"), Some("Alpha".to_string()));
    assert_eq!(cache.remembered_name("C:\\b.exe"), None);
    assert_eq!(
        cache.display_name_for_path("C:\\b.exe", Some(String::new()), "b"),
        "b"
    );
    assert_eq!(
        process_details_uncached(1, "C:\\z.exe", None).unwrap().display_name,
        "z"
    );
    assert!(process_details_uncached(1, "", None).is_none());
}

#[test]
fn descriptions_come_before_products() {
    let text = |s: &str| Some(s.to_string());
    assert_eq!(friendly_display_name(text(" Curl "), text("P")), text("Curl"));
    assert_eq!(friendly_display_name(None, text("P")), text("P"));
    assert_eq!(friendly_display_name(text("  "), text("P")), None);
    assert_eq!(friendly_display_name(None, None), None);
}

#[test]
fn process_lists_grow_until_they_fit() {
    assert!(matches!(
        list_running_pids(false, &vec![1, 2], 8),
        ListStep::Done(pids) if pids.is_empty()
    ));
    assert!(matches!(
        list_running_pids(true, &vec![1, 2], 8),
        ListStep::Grow(4)
    ));
    assert!(matches!(
        list_running_pids(true, &vec![0, 4, 9, 7], 12),
        ListStep::Done(pids) if pids == vec![4, 9]
    ));
}

#[test]
fn version_texts_are_found_by_language() {
    assert_eq!(
        version_subblock(&[0x09, 0x04, 0xb0, 0x04], "FileDescription"),
        Some("\\StringFileInfo\\04B00409\\FileDescription".to_string())
    );
    assert_eq!(version_subblock(&[1, 2, 3], "ProductName"), None);
}

#[test]
fn icons_are_turned_and_cut_out() {
    let pixels = vec![10, 20, 30, 0, 250, 250, 250, 0, 245, 255, 255, 9];
    assert_eq!(
        bgra_to_rgba(&pixels),
        vec![30, 20, 10, 255, 250, 250, 250, 0, 255, 255, 245, 255]
    );
    assert!(process_icon(0, &pixels).is_none());
    let icon = process_icon(16, &pixels).unwrap();
    assert_eq!((icon.width, icon.height), (16, 16));
    assert_eq!(icon.rgba.len(), pixels.len());
}

fn key(local: [u8; 4], remote: [u8; 4]) -> TcpConnectionKey {
    TcpConnectionKey {
        ipv6: false,
        local: Endpoint {
            addr: IpAddress::V4(local),
            port: 0x1234,
        },
        remote: Endpoint {
            addr: IpAddress::V4(remote),
            port: 443,
        },
    }
}

fn connection(pid: u32, disconnectable: bool) -> TcpConnection {
    TcpConnection {
        key: key([127, 0, 0, 1], [10, 0, 0, pid as u8]),
        pid,
        remote_label: String::new(),
        state_label: String::new(),
        disconnectable,
    }
}

#[test]
fn closing_rows_name_the_connection() {
    let row = close_tcp_connection(&key([127, 0, 0, 1], [1, 2, 3, 4])).unwrap();
    assert_eq!(row.state, 12);
    assert_eq!(row.local_addr, u32::from_le_bytes([127, 0, 0, 1]));
    assert_eq!(row.remote_addr, u32::from_le_bytes([1, 2, 3, 4]));
    assert_eq!(row.local_port, 0x3412);
    assert_eq!(row.remote_port, 0xbb01);

    let mut six = key([0; 4], [0; 4]);
    six.ipv6 = true;
    assert_eq!(close_tcp_connection(&six), Err(CloseTcpError::UnsupportedIpv6));
    let mut mixed = key([0; 4], [0; 4]);
    mixed.remote.addr = IpAddress::V6([0; 16]);
    assert_eq!(close_tcp_connection(&mixed), Err(CloseTcpError::UnsupportedIpv6));
}

#[test]
fn only_closable_connections_are_closed() {
    let all = vec![connection(1, true), connection(2, true), connection(1, false)];
    assert_eq!(close_tcp_connections_for_pid(1, &all).len(), 1);
    assert_eq!(close_tcp_connections_for_pids(&vec![1, 2, 3], &all).len(), 2);
    assert_eq!(closed_count(&vec![0, 5, 0, 87]), 2);
    assert_eq!(close_status(0), Ok(()));
    assert_eq!(close_status(5), Err(CloseTcpError::AccessDenied));
    assert_eq!(close_status(87), Err(CloseTcpError::OsError(87)));
    assert_eq!(CloseTcpError::AccessDenied.message(), "access denied");
    assert_eq!(
        CloseTcpError::UnsupportedIpv6.message(),
        "IPv6 TCP disconnect is not supported yet"
    );
    assert_eq!(CloseTcpError::OsError(87).message(), "Windows API error 87");
}

#[test]
fn frames_are_set_when_the_window_changes() {
    let mut sync = WindowAppearanceSync::new(false, 100, 50);
    assert!(!sync.sync_if_changed(false, 100, 50));
    assert!(sync.sync_if_changed(true, 100, 50));
    assert!(!sync.sync_if_changed(true, 100, 50));
    sync.force(true, 1, 2);
    assert_eq!(sync, WindowAppearanceSync::new(true, 1, 2));
    assert_eq!(window_appearance(true), (CORNERS_SQUARE, 0));
    assert_eq!(window_appearance(false), (CORNERS_ROUND, CHROME_BORDER_COLOR));
}

#[test]
fn drags_carry_the_pointer() {
    for (x, y) in [(0i32, 0i32), (5, 7), (-1, -2), (70_000, i32::MIN)] {
        let expected = ((y as u32) << 16) | (x as u32 & 0xffff);
        assert_eq!(drag_position(x, y), expected);
    }
}

#[test]
fn tray_icon_is_a_disc() {
    let rgba = make_tray_icon();
    assert_eq!(rgba.len(), 32 * 32 * 4);
    for y in 0..32usize {
        for x in 0..32usize {
            let dx = x as f32 - 15.5;
            let dy = y as f32 - 15.5;
            let inside = (dx * dx + dy * dy).sqrt() <= 15.0;
            let pixel = &rgba[(y * 32 + x) * 4..(y * 32 + x) * 4 + 4];
            let expected: [u8; 4] = if inside { [40, 90, 180, 255] } else { [0; 4] };
            assert_eq!(pixel, expected);
        }
    }
}

#[test]
fn lists_and_counts_read_well() {
    assert_eq!(join_pids(&vec![]), "-");
    assert_eq!(join_pids(&vec![3]), "3");
    assert_eq!(join_pids(&vec![3, 40, 5]), "3, 40, 5");
    assert_eq!(connections_tab_title(0), "Connections");
    assert_eq!(connections_tab_title(3), "Connections (3)");
    assert_eq!(connections_summary(0), "No active TCP connections");
    assert_eq!(connections_summary(1), "1 TCP connection");
    assert_eq!(connections_summary(200), "200 TCP connections");
    assert_eq!(connections_summary(201), "Showing 200 of 201 TCP connections");
    assert_eq!(limit_text(0, SpeedUnit::Bytes), "");
    assert_eq!(limit_text(5, SpeedUnit::Bytes), "5");
    assert_eq!(limit_display_text(false, 5, SpeedUnit::Bytes), "Off");
    assert_eq!(limit_display_text(true, 0, SpeedUnit::Bytes), "Off");
    assert_eq!(limit_display_text(true, 5, SpeedUnit::Bytes), "5");
}

#[test]
fn starting_and_closing_are_reported() {
    let started = start_status(true, &Ok(()));
    assert!(started.running);
    assert_eq!(started.text, "Interceptor running");
    let refused = start_status(true, &Err(EngineError::AlreadyRunning));
    assert!(!refused.running);
    assert_eq!(refused.text, "engine is already running");
    let denied = start_status(false, &Ok(()));
    assert!(!denied.running);
    assert_eq!(
        denied.text,
        "Administrator privileges are required to start the interceptor."
    );
    assert_eq!(close_action(true), CloseAction::HideToTray);
    assert_eq!(close_action(false), CloseAction::Quit);
}
