use flowbrake::rate::{
    bytes_to_speed, compute_adaptive_rate, RollingAverage, TokenBucket, IDLE_SPEED,
};
use flowbrake::rule::{runtime_rule, Direction, ProcessRule, BYTE_PER_SEC};
use flowbrake::speed::{
    format_limit_kibps, format_limit_summary, format_speed, parse_limit_input, SpeedUnit,
};

const SECOND: u64 = 1_000_000_000;

fn bps(bytes_per_sec: u64) -> u64 {
    bytes_per_sec * BYTE_PER_SEC
}

#[test]
fn rule_reports_only_meaningful_limits() {
    let mut rule = ProcessRule {
        limit_download: true,
        download_kbps: 0,
        ..Default::default()
    };
    assert!(rule.has_any_rule());
    assert_eq!(rule.target_bps(Direction::Download), None);

    rule.download_kbps = 128;
    assert!(rule.has_any_rule());
    assert_eq!(rule.target_bps(Direction::Download), Some(bps(131_072)));
    assert_eq!(rule.effective_bps(Direction::Download), Some(bps(131_072)));
}

#[test]
fn rule_preserves_draft_limit_value_without_enabling_limit() {
    let rule = ProcessRule {
        download_kbps: 128,
        ..Default::default()
    };
    assert!(rule.has_any_rule());
    assert_eq!(rule.target_bps(Direction::Download), None);
    assert_eq!(rule.effective_bps(Direction::Download), None);
}

#[test]
fn adaptive_rule_uses_adjusted_rate_when_available() {
    let rule = ProcessRule {
        limit_upload: true,
        upload_kbps: 100,
        adaptive: true,
        adjusted_ul_bps: bps(30_000),
        ..Default::default()
    };
    assert_eq!(rule.effective_bps(Direction::Upload), Some(bps(30_000)));
}

#[test]
fn token_bucket_allows_initial_burst_then_refill() {
    let mut bucket = TokenBucket::new(bps(100));
    assert!(bucket.try_consume(200, 0));
    assert!(!bucket.try_consume(1, 0));
    assert!(bucket.try_consume(50, SECOND / 2));
}

#[test]
fn token_bucket_rate_change_clamps_tokens() {
    let mut bucket = TokenBucket::new(bps(1000));
    bucket.set_rate(bps(100));
    assert!(bucket.try_consume(200, 0));
    assert!(!bucket.try_consume(1, 0));
}

#[test]
fn rolling_average_keeps_bounded_window() {
    let mut avg = RollingAverage::new(3);
    avg.push(bps(10));
    avg.push(bps(20));
    avg.push(bps(30));
    avg.push(bps(40));
    assert_eq!(avg.average(), bps(30));
}

#[test]
fn adaptive_rate_matches_csharp_controller_shape() {
    let target = bps(1000);
    assert_eq!(compute_adaptive_rate(0, 0, target), target);
    assert!(compute_adaptive_rate(target, bps(2000), target) < target);
    assert_eq!(compute_adaptive_rate(target, bps(800), target), target);
    assert_eq!(compute_adaptive_rate(bps(10), bps(10_000), target), bps(50));
}

#[test]
fn speed_format_matches_byte_display() {
    assert_eq!(format_speed(0, SpeedUnit::Bytes), "0 B/s");
    assert_eq!(format_speed(bps(512), SpeedUnit::Bytes), "512 B/s");
    assert_eq!(format_speed(bps(1536), SpeedUnit::Bytes), "1.5 KB/s");
    assert_eq!(
        format_speed(bps(2 * 1024 * 1024), SpeedUnit::Bytes),
        "2.00 MB/s"
    );
}

#[test]
fn speed_format_matches_isp_bit_display() {
    assert_eq!(format_speed(0, SpeedUnit::Bits), "0 b/s");
    assert_eq!(format_speed(bps(125), SpeedUnit::Bits), "1.0 Kb/s");
    assert_eq!(format_speed(bps(125_000), SpeedUnit::Bits), "1.00 Mb/s");
}

#[test]
fn limit_input_round_trips_between_units() {
    assert_eq!(parse_limit_input("128", SpeedUnit::Bytes), Some(128));
    assert_eq!(format_limit_kibps(128, SpeedUnit::Bytes), "128");
    assert_eq!(parse_limit_input("1049", SpeedUnit::Bits), Some(128));
    assert_eq!(format_limit_kibps(128, SpeedUnit::Bits), "1049");
}

#[test]
fn runtime_rule_ignores_draft_limit_values_until_checkbox_is_enabled() {
    let draft = ProcessRule {
        download_kbps: 128,
        upload_kbps: 64,
        ..Default::default()
    };

    let runtime = runtime_rule(&draft);
    assert_eq!(runtime.download_kbps, 0);
    assert_eq!(runtime.upload_kbps, 0);
    assert_eq!(runtime.target_bps(Direction::Download), None);
    assert_eq!(runtime.target_bps(Direction::Upload), None);
}

#[test]
fn runtime_rule_keeps_enabled_limit_values() {
    let draft = ProcessRule {
        limit_download: true,
        download_kbps: 128,
        upload_kbps: 64,
        ..Default::default()
    };

    let runtime = runtime_rule(&draft);
    assert_eq!(runtime.download_kbps, 128);
    assert_eq!(runtime.upload_kbps, 0);
    assert_eq!(runtime.target_bps(Direction::Download), Some(bps(131_072)));
    assert_eq!(runtime.target_bps(Direction::Upload), None);
}

#[test]
fn runtime_rule_drops_adaptation_without_a_limit() {
    let rule = ProcessRule {
        adaptive: true,
        adjusted_dl_bps: 5,
        adjusted_ul_bps: 6,
        block_all: true,
        ..Default::default()
    };
    let runtime = runtime_rule(&rule);
    assert!(!runtime.adaptive);
    assert!(runtime.block_all);
    assert_eq!(runtime.adjusted_dl_bps, 0);
    assert_eq!(runtime.adjusted_ul_bps, 0);
    assert_eq!(runtime_rule(&runtime), runtime);
}

#[test]
fn directions_tell_uploads() {
    assert!(Direction::Upload.is_upload());
    assert!(!Direction::Download.is_upload());
}

#[test]
fn bucket_passes_no_more_than_burst_and_rate() {
    let mut bucket = TokenBucket::new(bps(1000));
    let mut passed: u64 = 0;
    for _ in 0..100 {
        if bucket.try_consume(90, SECOND / 20) {
            passed += 90;
        }
    }
    assert!(passed <= 2000 + 5 * 1000);
    assert!(passed >= 2000 + 5 * 1000 - 180);
    assert_eq!(bucket.rate_bps(), bps(1000));
}

#[test]
fn empty_requests_cost_nothing() {
    let mut bucket = TokenBucket::new(bps(10));
    assert!(bucket.try_consume(20, 0));
    assert!(bucket.try_consume(0, 0));
    assert!(!bucket.try_consume(1, 0));
}

#[test]
fn idle_bucket_is_full_after_two_seconds() {
    let mut bucket = TokenBucket::new(bps(100));
    assert!(bucket.try_consume(200, 0));
    assert!(bucket.try_consume(200, 2 * SECOND));
    assert!(!bucket.try_consume(1, 0));
}

#[test]
fn averages_of_byte_counts_add_up() {
    let mut avg = RollingAverage::new(5);
    for bytes in [0, 0, 1] {
        avg.push(bytes_to_speed(bytes));
    }
    assert_eq!(avg.average() * 3, bps(1));
    assert_eq!(format_speed(avg.average() * 3, SpeedUnit::Bytes), "1 B/s");
}

#[test]
fn rolling_average_of_nothing_is_zero() {
    let mut avg = RollingAverage::new(0);
    assert_eq!(avg.average(), 0);
    avg.push(bps(7));
    avg.push(bps(9));
    assert_eq!(avg.average(), bps(9));
}

#[test]
fn adaptive_rate_steps() {
    let target = bps(1000);
    assert_eq!(compute_adaptive_rate(bps(500), IDLE_SPEED - 1, target), bps(500));
    assert_eq!(compute_adaptive_rate(bps(500), bps(500), target), bps(575));
    assert_eq!(compute_adaptive_rate(bps(500), bps(950), target), bps(525));
    assert_eq!(compute_adaptive_rate(bps(500), bps(1000), target), bps(500));
    assert_eq!(compute_adaptive_rate(bps(1000), bps(2000), target), bps(650));
    assert_eq!(compute_adaptive_rate(bps(5), 0, 0), 0);
}

#[test]
fn bytes_in_a_second_are_a_speed() {
    assert_eq!(bytes_to_speed(1), BYTE_PER_SEC);
    assert_eq!(bytes_to_speed(u64::MAX), u64::MAX);
}

#[test]
fn speeds_round_to_what_is_shown() {
    assert_eq!(format_speed(bps(1023), SpeedUnit::Bytes), "1023 B/s");
    assert_eq!(format_speed(bps(1024), SpeedUnit::Bytes), "1.0 KB/s");
    assert_eq!(format_speed(bps(1_500_000), SpeedUnit::Bytes), "1.43 MB/s");
    assert_eq!(format_speed(bps(1), SpeedUnit::Bits), "8 b/s");
    assert_eq!(format_speed(bps(1_562_500), SpeedUnit::Bits), "12.50 Mb/s");
}

fn shown_bytes(speed: f64) -> String {
    if speed < 1.0 {
        "0 B/s".to_string()
    } else if speed < 1024.0 {
        format!("{speed:.0} B/s")
    } else if speed / 1024.0 < 1024.0 {
        format!("{:.1} KB/s", speed / 1024.0)
    } else {
        format!("{:.2} MB/s", speed / 1024.0 / 1024.0)
    }
}

fn shown_bits(bits: f64) -> String {
    let kilo = bits / 1000.0;
    if bits < 1.0 {
        "0 b/s".to_string()
    } else if bits < 1000.0 {
        format!("{bits:.0} b/s")
    } else if kilo < 1000.0 {
        format!("{kilo:.1} Kb/s")
    } else {
        format!("{:.2} Mb/s", kilo / 1000.0)
    }
}

#[test]
fn speeds_show_as_doubles_do() {
    assert_eq!(format_speed(bps(525) / 4, SpeedUnit::Bits), "1.1 Kb/s");
    assert_eq!(format_speed(bps(126_875), SpeedUnit::Bits), "1.01 Mb/s");
    assert_eq!(format_speed(bps(5_376) / 5, SpeedUnit::Bytes), "1.1 KB/s");
    assert_eq!(format_speed(bps(5) / 2, SpeedUnit::Bytes), "2 B/s");
    let mut speeds: Vec<u64> = vec![0, 1, bps(1) / 8 - 1, bps(1) / 8, bps(1) - 1, bps(1)];
    for i in 0..20_000u64 {
        speeds.push(bps(i * 25) / 4);
        speeds.push(bps(i * 256) / 5);
        speeds.push(bps(i * 625));
        speeds.push(bps(i * 262_144) / 50);
        speeds.push(bps(i) / 3);
        speeds.push(i.wrapping_mul(0x9e37_79b9_7f4a_7c15) >> (i % 40));
    }
    for speed in speeds {
        let double = speed as f64 / BYTE_PER_SEC as f64;
        if speed < 1 << 53 {
            assert_eq!(format_speed(speed, SpeedUnit::Bytes), shown_bytes(double));
            assert_eq!(format_speed(speed, SpeedUnit::Bits), shown_bits(double * 8.0));
        }
    }
}

#[test]
fn limit_inputs_round_as_doubles_do() {
    assert_eq!(parse_limit_input("4100.096", SpeedUnit::Bits), Some(500));
    assert_eq!(parse_limit_input("4.096", SpeedUnit::Bits), Some(1));
    assert_eq!(
        parse_limit_input("4.09599999999999999999999999999", SpeedUnit::Bits),
        Some(1)
    );
    let mut inputs: Vec<String> = Vec::new();
    for i in 0..5_000u64 {
        let tie = 4096 + 8192 * i;
        inputs.push(format!("{}.{:03}", tie / 1000, tie % 1000));
        inputs.push(format!("{}.{:03}0000000000000000001", tie / 1000, tie % 1000));
        inputs.push(format!("{}.{:03}99999999999999999", (tie - 1) / 1000, (tie - 1) % 1000));
        inputs.push(format!("{}e-{}", i.wrapping_mul(0x9e37_79b9_7f4a_7c15), i % 25));
        inputs.push(format!("0.{}e{}", i * 7_919, i % 15));
    }
    for input in inputs {
        let kilobits: f64 = input.parse().unwrap();
        let kibps = (kilobits * 1000.0 / 8.0 / 1024.0).round();
        let expected = (0.0..=u32::MAX as f64)
            .contains(&kibps)
            .then_some(kibps as u32);
        assert_eq!(parse_limit_input(&input, SpeedUnit::Bits), expected);
    }
}

#[test]
fn limit_inputs_are_read_strictly() {
    assert_eq!(parse_limit_input("  ", SpeedUnit::Bytes), Some(0));
    assert_eq!(parse_limit_input(" 64 ", SpeedUnit::Bytes), Some(64));
    assert_eq!(parse_limit_input("+64", SpeedUnit::Bytes), Some(64));
    assert_eq!(parse_limit_input("6.4", SpeedUnit::Bytes), None);
    assert_eq!(parse_limit_input("-1", SpeedUnit::Bytes), None);
    assert_eq!(parse_limit_input("4294967296", SpeedUnit::Bytes), None);
    assert_eq!(parse_limit_input("8.192", SpeedUnit::Bits), Some(1));
    assert_eq!(parse_limit_input("1e3", SpeedUnit::Bits), Some(122));
    assert_eq!(parse_limit_input("inf", SpeedUnit::Bits), None);
    assert_eq!(parse_limit_input("nan", SpeedUnit::Bits), None);
    assert_eq!(parse_limit_input("-1000", SpeedUnit::Bits), None);
    assert_eq!(parse_limit_input("fast", SpeedUnit::Bits), None);
}

#[test]
fn limits_read_back_in_both_units() {
    for kibps in [1u32, 2, 7, 128, 999, 1000, 65_535, 4_000_000] {
        for unit in [SpeedUnit::Bytes, SpeedUnit::Bits] {
            let text = format_limit_kibps(kibps, unit);
            assert_eq!(parse_limit_input(&text, unit), Some(kibps));
        }
    }
}

#[test]
fn limit_summaries_name_their_unit() {
    assert_eq!(format_limit_summary(0, SpeedUnit::Bits), "Off");
    assert_eq!(format_limit_summary(128, SpeedUnit::Bytes), "128 KB/s");
    assert_eq!(format_limit_summary(128, SpeedUnit::Bits), "1.05 Mb/s");
    assert!(SpeedUnit::from_bits_mode(true).is_bits());
    assert!(!SpeedUnit::from_bits_mode(false).is_bits());
    assert!(SpeedUnit::default().is_bits());
}
