use flowbrake::names::{NameRules, NameSet};
use flowbrake::rule::ProcessRule;
use flowbrake::settings::{
    append_rule_lines, bool_text, parse_bool, parse_rule_fields, AppSettings, WindowPlacement,
    DEFAULT_WINDOW_HEIGHT, DEFAULT_WINDOW_WIDTH,
};

#[test]
fn defaults_to_isp_bit_units() {
    let settings = AppSettings::default();
    assert!(settings.speed_unit_bits);
    assert!(settings.ipv6_enabled);
    assert_eq!(settings.window_width, DEFAULT_WINDOW_WIDTH.to_string());
    assert_eq!(settings.window_height, DEFAULT_WINDOW_HEIGHT.to_string());
}

#[test]
fn parses_rule_fields() {
    let fields = vec![
        ("limit_download".to_string(), "true".to_string()),
        ("download_kbps".to_string(), "256".to_string()),
    ];
    let rule = parse_rule_fields(&fields);
    assert!(rule.limit_download);
    assert_eq!(rule.download_kbps, 256);
    assert_eq!(rule.adjusted_dl_bps, 0);
}

fn rule_fields(pairs: &[(&str, &str)]) -> ProcessRule {
    let fields: Vec<(String, String)> = pairs
        .iter()
        .map(|(field, value)| (field.to_string(), value.to_string()))
        .collect();
    parse_rule_fields(&fields)
}

#[test]
fn later_fields_win_and_bad_values_count_as_nothing() {
    let rule = rule_fields(&[
        ("block_all", "yes"),
        ("upload_kbps", "7"),
        ("upload_kbps", "many"),
        ("adaptive", "1"),
        ("limit_upload", "TRUE"),
        ("unknown", "true"),
    ]);
    assert!(rule.block_all);
    assert!(rule.adaptive);
    assert!(!rule.limit_upload);
    assert_eq!(rule.upload_kbps, 0);
    assert!(!rule_fields(&[]).has_any_rule());
}

#[test]
fn yes_is_said_in_three_ways() {
    for (word, meaning) in [
        ("1", true),
        ("true", true),
        ("yes", true),
        ("True", false),
        ("0", false),
        ("", false),
    ] {
        assert_eq!(parse_bool(&word.chars().collect()), meaning);
    }
    assert_eq!(bool_text(true), "true");
    assert_eq!(bool_text(false), "false");
}

#[test]
fn empty_rules_are_written_only_for_all_traffic() {
    let mut lines: Vec<String> = Vec::new();
    append_rule_lines(&mut lines, "rule.curl", &ProcessRule::default());
    assert!(lines.is_empty());
    append_rule_lines(&mut lines, "global", &ProcessRule::default());
    assert_eq!(
        lines,
        [
            "global.block_all=false",
            "global.limit_download=false",
            "global.download_kbps=0",
            "global.limit_upload=false",
            "global.upload_kbps=0",
            "global.adaptive=false",
        ]
    );
}

#[test]
fn first_settings_are_written_in_full() {
    let text = AppSettings::default().save();
    assert_eq!(
        text,
        "# FlowBrake settings\n\
         speed_unit_bits=true\n\
         ipv6_enabled=true\n\
         window_width=1180\n\
         window_height=700\n\
         window_x=-1\n\
         window_y=-1\n\
         window_maximized=false\n\
         global.block_all=false\n\
         global.limit_download=false\n\
         global.download_kbps=0\n\
         global.limit_upload=false\n\
         global.upload_kbps=0\n\
         global.adaptive=false\n"
    );
}

fn sample() -> AppSettings {
    let mut expanded = NameSet::new();
    expanded.insert("zeta.exe".to_string());
    expanded.insert("alpha".to_string());
    let mut name_rules = NameRules::new();
    name_rules.insert(
        "curl".to_string(),
        ProcessRule {
            limit_upload: true,
            upload_kbps: 12,
            ..Default::default()
        },
    );
    name_rules.insert(
        "browser".to_string(),
        ProcessRule {
            block_all: true,
            download_kbps: 99,
            ..Default::default()
        },
    );
    AppSettings {
        speed_unit_bits: false,
        ipv6_enabled: false,
        window_width: "1200.5".to_string(),
        window_height: "600".to_string(),
        window_x: "15".to_string(),
        window_y: "-2".to_string(),
        window_maximized: true,
        global_rule: ProcessRule {
            limit_download: true,
            download_kbps: 1024,
            adaptive: true,
            ..Default::default()
        },
        name_rules,
        expanded,
    }
}

#[test]
fn saved_settings_come_back() {
    let settings = sample();
    let text = settings.save();
    assert!(text.contains("\nexpanded=alpha,zeta.exe\n"));
    let browser = text.find("rule.browser.block_all=true").unwrap();
    let curl = text.find("rule.curl.upload_kbps=12").unwrap();
    assert!(browser < curl);

    let loaded = AppSettings::load(&text);
    assert!(!loaded.speed_unit_bits);
    assert!(!loaded.ipv6_enabled);
    assert_eq!(loaded.window_width, "1200.5");
    assert_eq!(loaded.window_height, "600");
    assert_eq!(loaded.window_x, "15");
    assert_eq!(loaded.window_y, "-2");
    assert!(loaded.window_maximized);
    assert_eq!(loaded.global_rule, settings.global_rule);
    assert_eq!(loaded.name_rules.get("curl"), settings.name_rules.get("curl"));
    assert_eq!(
        loaded.name_rules.get("browser"),
        settings.name_rules.get("browser")
    );
    assert_eq!(loaded.name_rules.sorted_names(), ["browser", "curl"]);
    assert_eq!(loaded.expanded.sorted_names(), ["alpha", "zeta.exe"]);
    assert_eq!(loaded.save(), text);
    assert_eq!(settings.clone().save(), text);
}

#[test]
fn loading_skips_what_it_cannot_read() {
    let loaded = AppSettings::load(
        "  # comment\r\n\
         no equals sign\r\n\
         speed_unit_bits = no \r\n\
         window_width=20\n\
         window_height=1e9\n\
         window_x=left\n\
         window_y= 12.25 \n\
         expanded= One , ,TWO\n\
         rule. Curl .block_all = yes\n\
         rule..block_all=yes\n\
         rule.nodot=yes\n\
         rule.idle.download_kbps=zero\n\
         rule.global.limit_upload=1\n\
         global.upload_kbps=5\n\
         mystery=1\n",
    );
    assert!(!loaded.speed_unit_bits);
    assert!(loaded.ipv6_enabled);
    assert_eq!(loaded.window_width, "900");
    assert_eq!(loaded.window_height, "10000");
    assert_eq!(loaded.window_x, "-1");
    assert_eq!(loaded.window_y, "12.25");
    assert_eq!(loaded.expanded.sorted_names(), ["one", "two"]);
    assert_eq!(loaded.name_rules.sorted_names(), ["curl", "global"]);
    assert!(loaded.name_rules.get("curl").unwrap().block_all);
    assert!(loaded.name_rules.get("global").unwrap().limit_upload);
    assert!(!loaded.global_rule.limit_upload);
    assert_eq!(loaded.global_rule.upload_kbps, 5);
}

#[test]
fn nothing_to_load_is_the_default() {
    assert_eq!(AppSettings::load("").save(), AppSettings::default().save());
}

#[test]
fn names_with_dots_are_kept() {
    let rule = ProcessRule {
        block_all: true,
        ..Default::default()
    };
    let mut settings = AppSettings::default();
    settings.name_rules.insert("chrome.exe".to_string(), rule);
    settings.name_rules.insert("my.old.tool".to_string(), rule);
    let loaded = AppSettings::load(&settings.save());
    assert_eq!(
        loaded.name_rules.sorted_names(),
        ["chrome.exe", "my.old.tool"]
    );
    assert_eq!(loaded.name_rules.get("chrome.exe"), Some(rule));
    assert_eq!(loaded.name_rules.get("my.old.tool"), Some(rule));
    assert_eq!(loaded.name_rules.get("chrome"), None);
}

#[test]
fn words_for_numbers_are_written_in_one_way() {
    let loaded = AppSettings::load("window_width=nan\nwindow_x=-Infinity\nwindow_y=INF\n");
    assert_eq!(loaded.window_width, f32::NAN.to_string());
    assert_eq!(loaded.window_x, f32::NEG_INFINITY.to_string());
    assert_eq!(loaded.window_y, f32::INFINITY.to_string());
}

#[test]
fn any_program_name_keeps_its_rule() {
    let rule = ProcessRule {
        limit_upload: true,
        upload_kbps: 7,
        ..Default::default()
    };
    let names = ["a,b", "a=b", "global", "rule.block_all=true", "x.block_all", "x="];
    let mut settings = AppSettings::default();
    settings.global_rule.block_all = true;
    for name in names {
        settings.name_rules.insert(name.to_string(), rule);
    }
    let loaded = AppSettings::load(&settings.save());
    assert_eq!(loaded.name_rules.sorted_names(), names);
    for name in names {
        assert_eq!(loaded.name_rules.get(name), Some(rule));
    }
    assert_eq!(loaded.global_rule, settings.global_rule);
}

#[test]
fn values_of_rules_end_with_their_line() {
    let loaded = AppSettings::load(
        "rule.x.block_all=true\n\
         rule.x.block_all=a=b\n\
         rule.y.block_all = true\n\
         rule.y.colour=red=blue\n",
    );
    assert_eq!(loaded.name_rules.sorted_names(), ["y"]);
}

#[test]
fn windows_are_captured_and_placed() {
    let mut settings = AppSettings::default();
    settings.capture_window(false, 100, 20_000, -5, 30);
    assert_eq!(settings.window_width, "900");
    assert_eq!(settings.window_height, "10000");
    assert_eq!(settings.window_x, "-5");
    assert_eq!(settings.window_y, "30");
    assert!(matches!(
        settings.apply_window(),
        WindowPlacement::Normal { width, height, position: None } if width == "900" && height == "10000"
    ));

    settings.capture_window(false, 1000, 800, 0, 7);
    assert!(matches!(
        settings.apply_window(),
        WindowPlacement::Normal { position: Some((x, y)), .. } if x == "0" && y == "7"
    ));

    settings.capture_window(true, 1, 1, 1, 1);
    assert!(settings.window_maximized);
    assert_eq!(settings.window_width, "1000");
    assert!(matches!(settings.apply_window(), WindowPlacement::Maximized));

    settings.window_maximized = false;
    settings.window_x = "-0.0".to_string();
    assert!(matches!(
        settings.apply_window(),
        WindowPlacement::Normal { position: Some(_), .. }
    ));
    settings.window_x = "-0.0001".to_string();
    assert!(matches!(
        settings.apply_window(),
        WindowPlacement::Normal { position: None, .. }
    ));
}
