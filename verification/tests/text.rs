use flowbrake::names::{NameRules, NameSet};
use flowbrake::number::{format_i32, format_u64, parse_decimal, parse_u32, DecimalKind};
use flowbrake::rule::ProcessRule;
use flowbrake::text::{
    chars_of, comes_before, is_whitespace, rsplit_once, same_text, split_all, split_once, string_of,
    trim,
};
use flowbrake::wide::{decode_units, utf16_null_terminated, wide_bytes_to_string};

fn chars(text: &str) -> Vec<char> {
    text.chars().collect()
}

#[test]
fn white_space_is_unicode_white_space() {
    for code in 0..=0x10_ffffu32 {
        if let Some(c) = char::from_u32(code) {
            assert_eq!(is_whitespace(c), c.is_whitespace());
        }
    }
}

#[test]
fn trimming_and_splitting_follow_str() {
    for text in ["", " ", " a b ", "\u{3000}x\t", "no", "\r\n line \r\n"] {
        assert_eq!(string_of(&trim(&chars_of(text))), text.trim());
    }
    for text in ["", "a", "a=b", "=b", "a=b=c", "="] {
        let ours = split_once(&chars(text), '=').map(|(a, b)| (string_of(&a), string_of(&b)));
        let std = text.split_once('=').map(|(a, b)| (a.to_string(), b.to_string()));
        assert_eq!(ours, std);
        let ours = rsplit_once(&chars(text), '=').map(|(a, b)| (string_of(&a), string_of(&b)));
        let std = text.rsplit_once('=').map(|(a, b)| (a.to_string(), b.to_string()));
        assert_eq!(ours, std);
        let pieces: Vec<String> = split_all(&chars(text), '=').iter().map(string_of).collect();
        assert_eq!(pieces, text.split('=').collect::<Vec<_>>());
    }
}

#[test]
fn text_order_is_the_order_of_strings() {
    let words = ["", "a", "B", "ab", "b", "\u{e9}", "\u{1f600}", "\u{ffff}"];
    for a in words {
        for b in words {
            assert_eq!(comes_before(a, b), a < b);
            assert_eq!(same_text(a, b), a == b);
        }
    }
}

#[test]
fn numbers_are_written_as_usual() {
    for n in [0u64, 9, 10, 1234, u64::MAX] {
        assert_eq!(format_u64(n), n.to_string());
    }
    for n in [0i32, -1, 7, i32::MIN, i32::MAX] {
        assert_eq!(format_i32(n), n.to_string());
    }
}

#[test]
fn whole_numbers_are_read_as_usual() {
    for text in ["", "0", "+5", "-0", "007", "4294967295", "4294967296", "1 ", "+", "x"] {
        assert_eq!(parse_u32(text), text.parse::<u32>().ok());
    }
}

#[test]
fn decimals_are_read_where_floats_are() {
    for text in [
        "", ".", "1", "1.", ".5", "+.5", "-2.25", "1e3", "1e", "1e+", "1E-2", "inf", "-INF",
        "Infinity", "nan", "NaN", "+nan", "0x1", "1_0", " 1", "1e400", "e5", "--1", "12.5e-1",
    ] {
        assert_eq!(parse_decimal(&chars(text)).is_some(), text.parse::<f64>().is_ok());
    }
    assert_eq!(
        parse_decimal(&chars("-12.3456")),
        Some((true, DecimalKind::Thousandths(12_345)))
    );
    assert_eq!(
        parse_decimal(&chars("1e400")),
        Some((false, DecimalKind::Thousandths(u64::MAX)))
    );
    assert_eq!(parse_decimal(&chars("inf")), Some((false, DecimalKind::Infinite)));
    assert_eq!(parse_decimal(&chars("-nan")), Some((true, DecimalKind::NotANumber)));
}

#[test]
fn name_sets_hold_each_name_once_and_in_order() {
    let mut set = NameSet::new();
    assert!(set.is_empty());
    for name in ["b", "a", "b", "c"] {
        set.insert(name.to_string());
    }
    assert!(set.contains("b"));
    assert!(!set.contains("B"));
    set.remove("c");
    set.remove("never");
    assert_eq!(set.sorted_names(), ["a", "b"]);
    assert_eq!(set.clone().sorted_names(), ["a", "b"]);
}

#[test]
fn name_rules_keep_the_last_rule() {
    let blocked = ProcessRule {
        block_all: true,
        ..Default::default()
    };
    let mut rules = NameRules::new();
    rules.insert("x".to_string(), ProcessRule::default());
    rules.insert("x".to_string(), blocked);
    rules.insert("a".to_string(), blocked);
    assert_eq!(rules.get("x"), Some(blocked));
    assert_eq!(rules.sorted_names(), ["a", "x"]);
    rules.remove("x");
    assert_eq!(rules.get("x"), None);
}

#[test]
fn wide_text_is_what_std_encodes() {
    for text in ["", "runas", "\u{e4}\u{1f600}z", "\u{ffff}\u{10000}\u{10ffff}"] {
        let mut expected: Vec<u16> = text.encode_utf16().collect();
        assert_eq!(decode_units(&expected), text);
        expected.push(0);
        assert_eq!(utf16_null_terminated(text), expected);
    }
    let broken = vec![0x41u16, 0xd83d, 0x42, 0xde00, 0xd800];
    assert_eq!(decode_units(&broken), String::from_utf16_lossy(&broken));
}

#[test]
fn wide_bytes_end_at_zero() {
    let bytes = |text: &str| -> Vec<u8> {
        text.encode_utf16().flat_map(|unit| unit.to_le_bytes()).collect()
    };
    assert_eq!(wide_bytes_to_string(&bytes("Curl\0rest")), Some("Curl".to_string()));
    assert_eq!(wide_bytes_to_string(&bytes("Curl")), Some("Curl".to_string()));
    assert_eq!(wide_bytes_to_string(&bytes("\0x")), None);
    assert_eq!(wide_bytes_to_string(&[65]), None);
    assert_eq!(wide_bytes_to_string(&[65, 0, 66]), Some("A".to_string()));
}
