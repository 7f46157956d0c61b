use std::collections::{HashMap, HashSet};

use flowbrake::divert::{check_files, expected_paths, open_failure, WinDivertAddress, WinDivertError};
use flowbrake::engine::{
    packet_filter, EngineCommand, EngineError, Limiter, NetworkEngine, Verdict,
};
use flowbrake::packet::{IpPacket, Protocol};
use flowbrake::ports::{
    build_tcp_port_pid_map, build_udp_port_pid_map, get_network_processes, network_pids,
    parse_tcp6_owner_pid_table, parse_tcp_owner_pid_table, parse_udp6_owner_pid_table,
    parse_udp_owner_pid_table, table_buffer_len, PortPidMap, AF_INET, AF_INET6,
    ERROR_INSUFFICIENT_BUFFER,
};
use flowbrake::rule::{Direction, ProcessRule};

const SECOND: u64 = 1_000_000_000;

#[test]
fn parses_tcp_owner_pid_rows_like_csharp_offsets() {
    let mut table = vec![0u8; 4 + 24];
    table[0..4].copy_from_slice(&1u32.to_ne_bytes());
    table[4 + 8..4 + 12].copy_from_slice(&(8080u16.to_be() as u32).to_ne_bytes());
    table[4 + 20..4 + 24].copy_from_slice(&123u32.to_ne_bytes());

    let map = parse_tcp_owner_pid_table(&table);
    assert_eq!(map.get(&8080), Some(&123));
}

#[test]
fn parses_tcp6_owner_pid_rows() {
    let mut table = vec![0u8; 4 + 56];
    table[0..4].copy_from_slice(&1u32.to_ne_bytes());
    table[4 + 20..4 + 24].copy_from_slice(&(8443u16.to_be() as u32).to_ne_bytes());
    table[4 + 52..4 + 56].copy_from_slice(&456u32.to_ne_bytes());

    let map = parse_tcp6_owner_pid_table(&table);
    assert_eq!(map.get(&8443), Some(&456));
}

#[test]
fn parses_udp_owner_pid_rows_like_csharp_offsets() {
    let mut table = vec![0u8; 4 + 12];
    table[0..4].copy_from_slice(&1u32.to_ne_bytes());
    table[4 + 4..4 + 8].copy_from_slice(&(5353u16.to_be() as u32).to_ne_bytes());
    table[4 + 8..4 + 12].copy_from_slice(&456u32.to_ne_bytes());

    let map = parse_udp_owner_pid_table(&table);
    assert_eq!(map.get(&5353), Some(&456));
}

#[test]
fn parses_udp6_owner_pid_rows() {
    let mut table = vec![0u8; 4 + 28];
    table[0..4].copy_from_slice(&1u32.to_ne_bytes());
    table[4 + 20..4 + 24].copy_from_slice(&(5353u16.to_be() as u32).to_ne_bytes());
    table[4 + 24..4 + 28].copy_from_slice(&789u32.to_ne_bytes());

    let map = parse_udp6_owner_pid_table(&table);
    assert_eq!(map.get(&5353), Some(&789));
}

#[test]
fn port_pid_map_keeps_ipv4_and_ipv6_entries_separate() {
    let map = PortPidMap {
        tcp_v4: HashMap::from([(443, 100)]),
        tcp_v6: HashMap::from([(443, 200)]),
        ..PortPidMap::default()
    };

    assert_eq!(map.pid_for(Protocol::Tcp, 443, false), Some(100));
    assert_eq!(map.pid_for(Protocol::Tcp, 443, true), Some(200));
    assert_eq!(
        map.pids().into_iter().collect::<HashSet<_>>(),
        HashSet::from([100, 200])
    );
}

#[test]
fn parses_ipv4_tcp_ports() {
    let mut packet = vec![0u8; 40];
    packet[0] = 0x45;
    packet[2..4].copy_from_slice(&40u16.to_be_bytes());
    packet[9] = 6;
    packet[32] = 0x50;
    packet[20..22].copy_from_slice(&1234u16.to_be_bytes());
    packet[22..24].copy_from_slice(&443u16.to_be_bytes());

    let parsed = IpPacket::parse(&packet, false).unwrap();
    assert_eq!(parsed.protocol, Protocol::Tcp);
    assert_eq!(parsed.local_port(Direction::Upload), 1234);
    assert_eq!(parsed.local_port(Direction::Download), 443);
    assert_eq!(parsed.payload_len, 0);
}

#[test]
fn computes_udp_payload_len() {
    let mut packet = vec![0u8; 32];
    packet[0] = 0x45;
    packet[2..4].copy_from_slice(&32u16.to_be_bytes());
    packet[9] = 17;
    packet[20..22].copy_from_slice(&1234u16.to_be_bytes());
    packet[22..24].copy_from_slice(&53u16.to_be_bytes());

    let parsed = IpPacket::parse(&packet, false).unwrap();
    assert_eq!(parsed.protocol, Protocol::Udp);
    assert_eq!(parsed.payload_len, 4);
}

#[test]
fn rejects_non_tcp_udp_and_ipv6_version_mismatch() {
    let mut packet = vec![0u8; 40];
    packet[0] = 0x60;
    assert!(IpPacket::parse(&packet, false).is_none());

    packet[0] = 0x45;
    packet[2..4].copy_from_slice(&40u16.to_be_bytes());
    packet[9] = 1;
    assert!(IpPacket::parse(&packet, false).is_none());
}

#[test]
fn parses_ipv6_tcp_ports() {
    let mut packet = vec![0u8; 60];
    packet[0] = 0x60;
    packet[4..6].copy_from_slice(&20u16.to_be_bytes());
    packet[6] = 6;
    packet[52] = 0x50;
    packet[40..42].copy_from_slice(&4321u16.to_be_bytes());
    packet[42..44].copy_from_slice(&443u16.to_be_bytes());

    let parsed = IpPacket::parse(&packet, true).unwrap();
    assert_eq!(parsed.protocol, Protocol::Tcp);
    assert_eq!(parsed.local_port(Direction::Upload), 4321);
    assert_eq!(parsed.local_port(Direction::Download), 443);
    assert_eq!(parsed.payload_len, 0);
}

#[test]
fn parses_ipv6_udp_with_extension_header() {
    let mut packet = vec![0u8; 60];
    packet[0] = 0x60;
    packet[4..6].copy_from_slice(&20u16.to_be_bytes());
    packet[6] = 0;
    packet[40] = 17;
    packet[48..50].copy_from_slice(&2222u16.to_be_bytes());
    packet[50..52].copy_from_slice(&53u16.to_be_bytes());

    let parsed = IpPacket::parse(&packet, true).unwrap();
    assert_eq!(parsed.protocol, Protocol::Udp);
    assert_eq!(parsed.local_port(Direction::Upload), 2222);
    assert_eq!(parsed.payload_len, 4);
}

#[test]
fn windivert_address_layout_matches_csharp_size() {
    assert_eq!(std::mem::size_of::<WinDivertAddress>(), 80);
}

#[test]
fn expected_paths_are_next_to_executable() {
    let (dll, sys) = expected_paths("C:/tmp/app");
    assert!(dll.ends_with("WinDivert.dll"));
    assert!(sys.ends_with("WinDivert64.sys"));
    assert_eq!(dll, "C:/tmp/app\\WinDivert.dll");
    assert_eq!(expected_paths("C:\\").1, "C:\\WinDivert64.sys");
    assert_eq!(expected_paths("").0, "WinDivert.dll");
}

#[test]
fn address_flags_tell_direction_and_version() {
    let mut address = WinDivertAddress::default();
    assert!(!address.is_outbound());
    assert!(!address.is_ipv6());
    address.flags = 0x0002_0000;
    assert!(address.is_outbound());
    assert!(!address.is_ipv6());
    address.flags = 0x0010_0000;
    assert!(!address.is_outbound());
    assert!(address.is_ipv6());
}

#[test]
fn divert_failures_say_what_is_wrong() {
    assert!(check_files(true, true).is_ok());
    assert_eq!(
        check_files(false, false).unwrap_err().message(),
        "WinDivert.dll not found next to the executable."
    );
    assert_eq!(
        check_files(true, false).unwrap_err().message(),
        "WinDivert64.sys not found next to the executable."
    );
    assert_eq!(
        open_failure(5).message(),
        "Access denied. Run as Administrator."
    );
    assert_eq!(open_failure(2).message(), "WinDivert driver not found.");
    assert_eq!(
        open_failure(-7).message(),
        "WinDivert failed to open (error -7)."
    );
    assert_eq!(
        WinDivertError::Load("no such file".to_string()).message(),
        "failed to load WinDivert.dll: no such file"
    );
}

#[test]
fn short_or_overlong_packets_are_not_read() {
    assert!(IpPacket::parse(&[], false).is_none());
    assert!(IpPacket::parse(&[0x45; 23], false).is_none());
    assert!(IpPacket::parse(&[0x60; 39], true).is_none());
    let mut packet = udp_packet(1000, 53, 4);
    packet[3] = 200;
    assert!(IpPacket::parse(&packet, false).is_none());
}

#[test]
fn bytes_behind_a_packet_change_nothing() {
    let packet = udp_packet(1000, 53, 4);
    let read = IpPacket::parse(&packet, false).unwrap();
    let mut longer = packet.clone();
    longer.extend([1, 2, 3]);
    let again = IpPacket::parse(&longer, false).unwrap();
    assert_eq!(again.total_len, read.total_len);
    assert_eq!(again.payload_len, 4);
    assert_eq!(again.source_port, 1000);
}

#[test]
fn owners_are_given_once_for_each_port() {
    let map = PortPidMap {
        tcp_v4: HashMap::from([(1, 7), (2, 7), (3, 8)]),
        udp_v6: HashMap::from([(1, 7)]),
        ..PortPidMap::default()
    };
    let mut pids = map.pids();
    pids.sort();
    assert_eq!(pids, [7, 7, 7, 8]);
}

#[test]
fn truncated_tables_give_the_rows_they_hold() {
    let mut table = vec![0u8; 4 + 24];
    table[0..4].copy_from_slice(&9u32.to_le_bytes());
    table[4 + 8..4 + 10].copy_from_slice(&80u16.to_be_bytes());
    table[4 + 20..4 + 24].copy_from_slice(&5u32.to_le_bytes());
    let map = parse_tcp_owner_pid_table(&table);
    assert_eq!(map, HashMap::from([(80, 5)]));
    assert!(parse_tcp_owner_pid_table(&[1, 0]).is_empty());
}

#[test]
fn table_requests_follow_their_status() {
    assert_eq!(table_buffer_len(ERROR_INSUFFICIENT_BUFFER, 100), Some(100));
    assert_eq!(table_buffer_len(87, 100), None);
    let mut table = vec![0u8; 4 + 12];
    table[0..4].copy_from_slice(&1u32.to_le_bytes());
    table[4 + 4..4 + 6].copy_from_slice(&53u16.to_be_bytes());
    table[4 + 8..4 + 12].copy_from_slice(&7u32.to_le_bytes());
    assert_eq!(
        build_udp_port_pid_map(AF_INET, 0, &table),
        HashMap::from([(53, 7)])
    );
    assert!(build_udp_port_pid_map(AF_INET, 1, &table).is_empty());
    assert!(build_tcp_port_pid_map(AF_INET6, 0, &table).is_empty());
    assert!(build_tcp_port_pid_map(99, 0, &table).is_empty());
}

#[test]
fn ipv6_tables_are_left_out_when_switched_off() {
    let one = || HashMap::from([(1u16, 10u32)]);
    let on = PortPidMap::refresh(true, one(), one(), one(), one());
    let off = PortPidMap::refresh(false, one(), one(), one(), one());
    assert_eq!(on.pid_for(Protocol::Udp, 1, true), Some(10));
    assert_eq!(off.pid_for(Protocol::Udp, 1, true), None);
    assert_eq!(off.pid_for(Protocol::Udp, 1, false), Some(10));
}

#[test]
fn listed_processes_are_real_and_named() {
    let map = PortPidMap {
        tcp_v4: HashMap::from([(80, 3), (81, 3), (82, 0)]),
        ..PortPidMap::default()
    };
    let mut pids = network_pids(&map, &vec![9, 3, 0]);
    pids.sort();
    assert_eq!(pids, vec![3, 9]);

    let found = get_network_processes(vec![
        (4, Some("zed".to_string())),
        (5, None),
        (6, Some("Alpha".to_string())),
    ]);
    let names: Vec<String> = found.iter().map(|p| p.name.clone()).collect();
    assert_eq!(names, vec!["Alpha".to_string(), "zed".to_string()]);
}

fn udp_packet(source: u16, destination: u16, payload: usize) -> Vec<u8> {
    let total = 28 + payload;
    let mut packet = vec![0u8; total];
    packet[0] = 0x45;
    packet[2..4].copy_from_slice(&(total as u16).to_be_bytes());
    packet[9] = 17;
    packet[20..22].copy_from_slice(&source.to_be_bytes());
    packet[22..24].copy_from_slice(&destination.to_be_bytes());
    packet
}

fn ports() -> PortPidMap {
    PortPidMap {
        udp_v4: HashMap::from([(1000, 42), (2000, 43)]),
        ..PortPidMap::default()
    }
}

fn limited(kbps: u32) -> ProcessRule {
    ProcessRule {
        limit_upload: true,
        upload_kbps: kbps,
        ..Default::default()
    }
}

#[test]
fn unlimited_packets_pass_and_are_counted() {
    let mut engine = NetworkEngine::new(true);
    let mut limiter = Limiter::new();
    let packet = udp_packet(1000, 53, 100);
    let verdict = engine.handle_packet(&mut limiter, &ports(), &packet, true, false, 0);
    assert_eq!(verdict, Verdict::Send);
    let snapshot = engine.snapshot_and_reset(true);
    assert_eq!(snapshot.per_pid, HashMap::from([(42, (0, 100))]));
    assert_eq!(snapshot.global_upload_bytes, 100);
    assert_eq!(snapshot.global_download_bytes, 0);
    assert_eq!(snapshot.packets_processed, 1);
    assert_eq!(snapshot.packets_dropped, 0);
    assert!(snapshot.running);

    let again = engine.snapshot_and_reset(false);
    assert_eq!(again.per_pid, HashMap::from([(42, (0, 0))]));
    assert_eq!(again.global_upload_bytes, 0);
    assert_eq!(again.packets_processed, 1);
}

#[test]
fn blocked_processes_pass_nothing() {
    let mut engine = NetworkEngine::new(true);
    let mut limiter = Limiter::new();
    let rule = ProcessRule {
        block_all: true,
        ..Default::default()
    };
    engine.apply(EngineCommand::UpdateRule(42, rule));
    let full = udp_packet(1000, 53, 1);
    let empty = udp_packet(1000, 53, 0);
    let other = udp_packet(2000, 53, 1);
    assert_eq!(
        engine.handle_packet(&mut limiter, &ports(), &full, true, false, 0),
        Verdict::Drop
    );
    assert_eq!(
        engine.handle_packet(&mut limiter, &ports(), &empty, true, false, 0),
        Verdict::Drop
    );
    assert_eq!(
        engine.handle_packet(&mut limiter, &ports(), &other, true, false, 0),
        Verdict::Send
    );
    let snapshot = engine.snapshot_and_reset(true);
    assert_eq!(snapshot.packets_dropped, 2);
    assert_eq!(snapshot.per_pid, HashMap::from([(43, (0, 1))]));

    engine.apply(EngineCommand::SetGlobalRule(rule));
    let unowned = udp_packet(3000, 53, 0);
    assert_eq!(
        engine.handle_packet(&mut limiter, &ports(), &unowned, true, false, 0),
        Verdict::Drop
    );
}

#[test]
fn empty_packets_spend_nothing() {
    let mut engine = NetworkEngine::new(true);
    let mut limiter = Limiter::new();
    engine.apply(EngineCommand::UpdateRule(42, limited(1)));
    let full = udp_packet(1000, 53, 2048);
    let empty = udp_packet(1000, 53, 0);
    let mut send =
        |packet: &[u8]| engine.handle_packet(&mut limiter, &ports(), packet, true, false, 0);
    assert_eq!(send(&empty), Verdict::Send);
    assert_eq!(send(&full), Verdict::Send);
    assert_eq!(send(&full), Verdict::Drop);
    assert_eq!(send(&empty), Verdict::Send);
}

#[test]
fn limits_hold_a_process_to_its_rate() {
    let mut engine = NetworkEngine::new(true);
    let mut limiter = Limiter::new();
    engine.apply(EngineCommand::UpdateRuleForPids(vec![42], limited(1)));
    let packet = udp_packet(1000, 53, 1024);
    let mut send = |now: u64| engine.handle_packet(&mut limiter, &ports(), &packet, true, false, now);
    assert_eq!(send(0), Verdict::Send);
    assert_eq!(send(0), Verdict::Send);
    assert_eq!(send(0), Verdict::Drop);
    assert_eq!(send(SECOND - 1), Verdict::Drop);
    assert_eq!(send(SECOND), Verdict::Send);
    assert_eq!(send(SECOND), Verdict::Drop);
}

#[test]
fn global_rule_drops_before_a_process_is_charged() {
    let mut engine = NetworkEngine::new(true);
    let mut limiter = Limiter::new();
    engine.apply(EngineCommand::SetGlobalRule(limited(1)));
    engine.apply(EngineCommand::UpdateRule(42, limited(2)));
    let packet = udp_packet(1000, 53, 2048);
    assert_eq!(
        engine.handle_packet(&mut limiter, &ports(), &packet, true, false, 0),
        Verdict::Send
    );
    assert_eq!(
        engine.handle_packet(&mut limiter, &ports(), &packet, true, false, 0),
        Verdict::Drop
    );
    engine.apply(EngineCommand::SetGlobalRule(ProcessRule::default()));
    assert_eq!(
        engine.handle_packet(&mut limiter, &ports(), &packet, true, false, 0),
        Verdict::Send
    );
    assert_eq!(
        engine.handle_packet(&mut limiter, &ports(), &packet, true, false, 0),
        Verdict::Drop
    );
}

#[test]
fn switched_off_ipv6_passes() {
    let mut engine = NetworkEngine::new(false);
    let mut limiter = Limiter::new();
    let rule = ProcessRule {
        block_all: true,
        ..Default::default()
    };
    engine.apply(EngineCommand::SetGlobalRule(rule));
    let mut packet = vec![0u8; 50];
    packet[0] = 0x60;
    packet[5] = 10;
    packet[6] = 17;
    assert_eq!(
        engine.handle_packet(&mut limiter, &ports(), &packet, true, true, 0),
        Verdict::Send
    );
    engine.set_ipv6_enabled(true);
    assert_eq!(
        engine.handle_packet(&mut limiter, &ports(), &packet, true, true, 0),
        Verdict::Drop
    );
    assert_eq!(
        engine.handle_packet(&mut limiter, &ports(), &[1, 2, 3], true, true, 0),
        Verdict::Send
    );
}

#[test]
fn rules_come_and_go() {
    let mut engine = NetworkEngine::new(true);
    engine.apply(EngineCommand::UpdateRuleForPids(vec![1, 2, 3], limited(5)));
    engine.apply(EngineCommand::UpdateRule(2, ProcessRule::default()));
    let mut pids = engine.active_rule_pids();
    pids.sort();
    assert_eq!(pids, vec![1, 3]);
    engine.apply(EngineCommand::ClearRules);
    assert!(engine.active_rule_pids().is_empty());
}

#[test]
fn starting_is_refused_while_running_or_unopened() {
    let mut engine = NetworkEngine::new(true);
    let mut limiter = Limiter::new();
    let packet = udp_packet(1000, 53, 7);
    engine.handle_packet(&mut limiter, &ports(), &packet, true, false, 0);
    assert!(matches!(
        engine.start(true, Ok(())),
        Err(EngineError::AlreadyRunning)
    ));
    assert_eq!(
        EngineError::AlreadyRunning.message(),
        "engine is already running"
    );
    let refused = engine.start(false, Err(WinDivertError::MissingDll));
    assert_eq!(
        refused.unwrap_err().message(),
        "WinDivert.dll not found next to the executable."
    );
    assert_eq!(engine.snapshot_and_reset(false).packets_processed, 1);
    assert!(engine.start(false, Ok(())).is_ok());
    let snapshot = engine.snapshot_and_reset(true);
    assert_eq!(snapshot.packets_processed, 0);
    assert!(snapshot.per_pid.is_empty());
}

#[test]
fn port_tables_are_read_again_in_time() {
    let engine = NetworkEngine::new(false);
    assert!(!engine.refresh_due(false, 0, 1_499_999_999));
    assert!(engine.refresh_due(false, 0, 1_500_000_000));
    assert!(!engine.refresh_due(true, 0, 1_500_000_000));
    assert!(!engine.refresh_due(false, 10, 5));
    assert_eq!(packet_filter(), "(ip or ipv6) and (tcp or udp)");
}
