//! Settings, and the `key=value` text in which they are kept.

use crate::names::{increasing, increasing_lists_agree, names_in, NameRules, NameSet};
use crate::number::{
    decimal, format_i32, format_u64, parse_decimal, parse_u32_chars, read_decimal, signed_decimal,
    whole_number, DecimalKind, Magnitude,
};
use crate::rule::ProcessRule;
use crate::text::{
    begins_with, chars_of, lowercase, rsplit_once, same_text, slice_of, spells, split,
    split_all, split_at_first, split_at_last, split_once, string_of, strip_prefix, texts,
    to_lowercase, trim, trimmed,
};
use vstd::prelude::*;

verus! {

/// Bounds of the window's size.
pub const MIN_WINDOW_WIDTH: u64 = 900;

pub const MIN_WINDOW_HEIGHT: u64 = 500;

pub const MAX_WINDOW_SIZE: u64 = 10_000;

pub const DEFAULT_WINDOW_WIDTH: u64 = 1180;

pub const DEFAULT_WINDOW_HEIGHT: u64 = 700;

/// What is kept between runs.
///
/// Sizes and positions of the window are numbers as they are written; they need not be whole.
#[derive(Debug)]
pub struct AppSettings {
    pub speed_unit_bits: bool,
    pub ipv6_enabled: bool,
    pub window_width: String,
    pub window_height: String,
    pub window_x: String,
    pub window_y: String,
    pub window_maximized: bool,
    pub global_rule: ProcessRule,
    pub name_rules: NameRules,
    pub expanded: NameSet,
}

/// [`AppSettings`] with texts as characters.
#[verifier::ext_equal]
pub struct SettingsView {
    pub speed_unit_bits: bool,
    pub ipv6_enabled: bool,
    pub window_width: Seq<char>,
    pub window_height: Seq<char>,
    pub window_x: Seq<char>,
    pub window_y: Seq<char>,
    pub window_maximized: bool,
    pub global_rule: ProcessRule,
    pub name_rules: Map<Seq<char>, ProcessRule>,
    pub expanded: Set<Seq<char>>,
}

impl View for AppSettings {
    type V = SettingsView;

    open spec fn view(&self) -> SettingsView {
        SettingsView {
            speed_unit_bits: self.speed_unit_bits,
            ipv6_enabled: self.ipv6_enabled,
            window_width: self.window_width@,
            window_height: self.window_height@,
            window_x: self.window_x@,
            window_y: self.window_y@,
            window_maximized: self.window_maximized,
            global_rule: self.global_rule,
            name_rules: self.name_rules@,
            expanded: self.expanded@,
        }
    }
}

/// The settings of a first run.
pub open spec fn default_settings() -> SettingsView {
    SettingsView {
        speed_unit_bits: true,
        ipv6_enabled: true,
        window_width: decimal(DEFAULT_WINDOW_WIDTH as nat),
        window_height: decimal(DEFAULT_WINDOW_HEIGHT as nat),
        window_x: "-1"@,
        window_y: "-1"@,
        window_maximized: false,
        global_rule: ProcessRule::none(),
        name_rules: Map::empty(),
        expanded: Set::empty(),
    }
}

impl Default for AppSettings {
    fn default() -> (r: Self)
        ensures
            r@ == default_settings(),
    {
        AppSettings {
            speed_unit_bits: true,
            ipv6_enabled: true,
            window_width: format_u64(DEFAULT_WINDOW_WIDTH),
            window_height: format_u64(DEFAULT_WINDOW_HEIGHT),
            window_x: String::from_str("-1"),
            window_y: String::from_str("-1"),
            window_maximized: false,
            global_rule: ProcessRule::default(),
            name_rules: NameRules::new(),
            expanded: NameSet::new(),
        }
    }
}

/// Whether a value says yes.
pub open spec fn truthy(value: Seq<char>) -> bool {
    value == "1"@ || value == "true"@ || value == "yes"@
}

/// Yes or no as it is written.
pub open spec fn bool_word(value: bool) -> Seq<char> {
    if value {
        "true"@
    } else {
        "false"@
    }
}

/// Whether a value says yes.
pub fn parse_bool(value: &Vec<char>) -> (r: bool)
    ensures
        r == truthy(value@),
{
    spells(value, "1") || spells(value, "true") || spells(value, "yes")
}

/// Yes or no as it is written.
pub fn bool_text(value: bool) -> (r: &'static str)
    ensures
        r@ == bool_word(value),
{
    if value {
        "true"
    } else {
        "false"
    }
}

/// A field of a rule and its value.
pub struct Field {
    pub field: Seq<char>,
    pub value: Seq<char>,
}

/// The fields in a list of pairs.
pub open spec fn fields_in(v: Seq<(String, String)>) -> Seq<Field> {
    v.map_values(|p: (String, String)| Field { field: p.0@, value: p.1@ })
}

/// The value given last for a field.
pub open spec fn last_value(fields: Seq<Field>, field: Seq<char>) -> Option<Seq<char>>
    decreases fields.len(),
{
    if fields.len() == 0 {
        None
    } else if fields.last().field == field {
        Some(fields.last().value)
    } else {
        last_value(fields.drop_last(), field)
    }
}

/// A switch: on only where the field was given and says yes.
pub open spec fn switch(fields: Seq<Field>, field: Seq<char>) -> bool {
    last_value(fields, field) matches Some(v) && truthy(v)
}

/// A number: 0 where the field was not given or is not one.
pub open spec fn amount(fields: Seq<Field>, field: Seq<char>) -> u32 {
    match last_value(fields, field) {
        Some(v) => match whole_number(v, u32::MAX as nat) {
            Some(n) => n as u32,
            None => 0,
        },
        None => 0,
    }
}

/// The rule that fields describe.
pub open spec fn rule_of_fields(fields: Seq<Field>) -> ProcessRule {
    ProcessRule {
        block_all: switch(fields, "block_all"@),
        limit_download: switch(fields, "limit_download"@),
        download_kbps: amount(fields, "download_kbps"@),
        limit_upload: switch(fields, "limit_upload"@),
        upload_kbps: amount(fields, "upload_kbps"@),
        adaptive: switch(fields, "adaptive"@),
        adjusted_dl_bps: 0,
        adjusted_ul_bps: 0,
    }
}

fn find_field(fields: &Vec<(String, String)>, field: &str) -> (r: Option<Vec<char>>)
    ensures
        match r {
            Some(v) => last_value(fields_in(fields@), field@) == Some(v@),
            None => last_value(fields_in(fields@), field@) is None,
        },
{
    let ghost all = fields_in(fields@);
    let mut i: usize = fields.len();
    assert(all.take(i as int) =~= all);
    while i > 0
        invariant
            i <= fields@.len(),
            all == fields_in(fields@),
            last_value(all, field@) == last_value(all.take(i as int), field@),
        decreases i,
    {
        assert(all.take(i as int).drop_last() =~= all.take(i - 1));
        assert(all[i - 1] == Field { field: fields@[i - 1].0@, value: fields@[i - 1].1@ });
        if same_text(fields[i - 1].0.as_str(), field) {
            return Some(chars_of(fields[i - 1].1.as_str()));
        }
        i -= 1;
    }
    None
}

fn read_switch(fields: &Vec<(String, String)>, field: &str) -> (r: bool)
    ensures
        r == switch(fields_in(fields@), field@),
{
    match find_field(fields, field) {
        Some(v) => parse_bool(&v),
        None => false,
    }
}

fn read_amount(fields: &Vec<(String, String)>, field: &str) -> (r: u32)
    ensures
        r == amount(fields_in(fields@), field@),
{
    match find_field(fields, field) {
        Some(v) => match parse_u32_chars(&v) {
            Some(n) => n,
            None => 0,
        },
        None => 0,
    }
}

/// The rule that fields describe; of a field given twice the later value counts.
pub fn parse_rule_fields(fields: &Vec<(String, String)>) -> (r: ProcessRule)
    ensures
        r == rule_of_fields(fields_in(fields@)),
{
    ProcessRule {
        block_all: read_switch(fields, "block_all"),
        limit_download: read_switch(fields, "limit_download"),
        download_kbps: read_amount(fields, "download_kbps"),
        limit_upload: read_switch(fields, "limit_upload"),
        upload_kbps: read_amount(fields, "upload_kbps"),
        adaptive: read_switch(fields, "adaptive"),
        adjusted_dl_bps: 0,
        adjusted_ul_bps: 0,
    }
}

/// One line about a rule: whose rule, which field, what value. The empty name, which no program
/// has, stands for all traffic.
pub struct Assignment {
    pub name: Seq<char>,
    pub field: Seq<char>,
    pub value: Seq<char>,
}

/// Settings while they are read: what is known so far, and the lines about rules.
#[verifier::ext_equal]
pub struct Reading {
    pub settings: SettingsView,
    pub rules: Seq<Assignment>,
}

/// The size that a width or height line sets: the number, brought between the bounds.
pub open spec fn window_size(value: Seq<char>, before: Seq<char>, low: u64) -> Seq<char> {
    match read_decimal(value) {
        None => before,
        Some((minus, Magnitude::NotANumber)) => "NaN"@,
        Some((minus, Magnitude::Infinite)) => if minus {
            decimal(low as nat)
        } else {
            decimal(MAX_WINDOW_SIZE as nat)
        },
        Some((minus, Magnitude::Thousandths(n))) => if minus || n < low * 1000 {
            decimal(low as nat)
        } else if n >= MAX_WINDOW_SIZE * 1000 {
            decimal(MAX_WINDOW_SIZE as nat)
        } else {
            value
        },
    }
}

/// The position that a line sets: the number, whatever it is.
pub open spec fn window_position(value: Seq<char>, before: Seq<char>) -> Seq<char> {
    match read_decimal(value) {
        None => before,
        Some((minus, Magnitude::NotANumber)) => "NaN"@,
        Some((minus, Magnitude::Infinite)) => if minus {
            "-inf"@
        } else {
            "inf"@
        },
        Some((minus, Magnitude::Thousandths(_))) => value,
    }
}

/// The names in a list of expanded groups: the pieces, in lower case, without white space
/// around them, empty ones left out.
pub open spec fn name_set(pieces: Seq<Seq<char>>) -> Set<Seq<char>>
    decreases pieces.len(),
{
    if pieces.len() == 0 {
        Set::empty()
    } else {
        let before = name_set(pieces.drop_last());
        let name = trimmed(pieces.last());
        if name.len() == 0 {
            before
        } else {
            before.insert(lowercase(name))
        }
    }
}

/// Whether a rule has a field of this name.
pub open spec fn is_rule_field(field: Seq<char>) -> bool {
    ||| field == "block_all"@
    ||| field == "limit_download"@
    ||| field == "download_kbps"@
    ||| field == "limit_upload"@
    ||| field == "upload_kbps"@
    ||| field == "adaptive"@
}

/// Whether a text ends with a dot and the name of a rule's field.
pub open spec fn ends_with_field(key: Seq<char>) -> bool {
    split_at_last(key, '.') matches Some((name, field)) && is_rule_field(trimmed(field))
}

/// A text before and after an equals sign: the last one among its first `n` characters that stands
/// behind the name of a rule's field.
pub open spec fn split_behind_field(s: Seq<char>, n: nat) -> Option<(Seq<char>, Seq<char>)>
    decreases n,
{
    if n == 0 {
        None
    } else if s[n - 1] == '=' && ends_with_field(s.take(n - 1)) {
        Some((s.take(n - 1), s.skip(n as int)))
    } else {
        split_behind_field(s, (n - 1) as nat)
    }
}

/// A line about one program's rule: the part of its key behind `rule.`, and its value. The field
/// is named behind the last dot, as a program's name may hold dots of its own.
pub open spec fn after_rule(r: Reading, rest: Seq<char>, value: Seq<char>) -> Reading {
    match split_at_last(rest, '.') {
        None => r,
        Some((n, f)) => {
            let name = lowercase(trimmed(n));
            if name.len() == 0 {
                r
            } else {
                Reading {
                    rules: r.rules.push(Assignment { name, field: trimmed(f), value }),
                    ..r
                }
            }
        },
    }
}

/// What one setting changes.
pub open spec fn after_setting(r: Reading, key: Seq<char>, value: Seq<char>) -> Reading {
    let s = r.settings;
    if key == "speed_unit_bits"@ {
        Reading { settings: SettingsView { speed_unit_bits: truthy(value), ..s }, ..r }
    } else if key == "ipv6_enabled"@ {
        Reading { settings: SettingsView { ipv6_enabled: truthy(value), ..s }, ..r }
    } else if key == "window_width"@ {
        let w = window_size(value, s.window_width, MIN_WINDOW_WIDTH);
        Reading { settings: SettingsView { window_width: w, ..s }, ..r }
    } else if key == "window_height"@ {
        let h = window_size(value, s.window_height, MIN_WINDOW_HEIGHT);
        Reading { settings: SettingsView { window_height: h, ..s }, ..r }
    } else if key == "window_x"@ {
        let x = window_position(value, s.window_x);
        Reading { settings: SettingsView { window_x: x, ..s }, ..r }
    } else if key == "window_y"@ {
        let y = window_position(value, s.window_y);
        Reading { settings: SettingsView { window_y: y, ..s }, ..r }
    } else if key == "window_maximized"@ {
        Reading { settings: SettingsView { window_maximized: truthy(value), ..s }, ..r }
    } else if key == "expanded"@ {
        Reading { settings: SettingsView { expanded: name_set(split(value, ',')), ..s }, ..r }
    } else if begins_with(key, "global."@) {
        let field = key.skip("global."@.len() as int);
        Reading { rules: r.rules.push(Assignment { name: Seq::empty(), field, value }), ..r }
    } else {
        r
    }
}

/// What one line changes: nothing where it is blank, a comment, or without an equals sign. One
/// about a program's rule is divided behind the field's name, as a program's name may hold equals
/// signs of its own; any other at the first equals sign.
pub open spec fn after_line(r: Reading, raw: Seq<char>) -> Reading {
    let line = trimmed(raw);
    if line.len() == 0 || line[0] == '#' {
        r
    } else if begins_with(line, "rule."@) {
        let rest = line.skip("rule."@.len() as int);
        match split_behind_field(rest, rest.len()) {
            None => r,
            Some((key, value)) => after_rule(r, key, trimmed(value)),
        }
    } else {
        match split_at_first(line, '=') {
            None => r,
            Some((key, value)) => after_setting(r, trimmed(key), trimmed(value)),
        }
    }
}

/// What lines change, one after the other.
pub open spec fn after_lines(r: Reading, lines: Seq<Seq<char>>) -> Reading
    decreases lines.len(),
{
    if lines.len() == 0 {
        r
    } else {
        after_line(after_lines(r, lines.drop_last()), lines.last())
    }
}

/// The fields given for one name.
pub open spec fn fields_for(rules: Seq<Assignment>, name: Seq<char>) -> Seq<Field>
    decreases rules.len(),
{
    if rules.len() == 0 {
        Seq::empty()
    } else {
        let before = fields_for(rules.drop_last(), name);
        let a = rules.last();
        if a.name == name {
            before.push(Field { field: a.field, value: a.value })
        } else {
            before
        }
    }
}

/// The rule given for one name.
pub open spec fn rule_for(rules: Seq<Assignment>, name: Seq<char>) -> ProcessRule {
    rule_of_fields(fields_for(rules, name))
}

/// Whether some line is about the rule of `name`.
pub open spec fn is_assigned(rules: Seq<Assignment>, name: Seq<char>) -> bool {
    exists|i: int| 0 <= i < rules.len() && #[trigger] rules[i].name == name
}

/// The rules by program that say anything.
pub open spec fn rules_by_name(rules: Seq<Assignment>) -> Map<Seq<char>, ProcessRule> {
    Map::new(
        |n: Seq<char>| is_assigned(rules, n) && n.len() > 0 && rule_for(rules, n).any(),
        |n: Seq<char>| rule_for(rules, n),
    )
}

/// The settings that a text holds.
pub open spec fn settings_in(contents: Seq<char>) -> SettingsView {
    let start = Reading { settings: default_settings(), rules: Seq::empty() };
    let r = after_lines(start, split(contents, '\n'));
    SettingsView {
        global_rule: rule_for(r.rules, Seq::empty()),
        name_rules: rules_by_name(r.rules),
        ..r.settings
    }
}

type Entry = (String, String, String);

struct Draft {
    settings: AppSettings,
    rules: Vec<Entry>,
}

spec fn assignments(v: Seq<Entry>) -> Seq<Assignment> {
    v.map_values(|e: Entry| Assignment { name: e.0@, field: e.1@, value: e.2@ })
}

impl View for Draft {
    type V = Reading;

    closed spec fn view(&self) -> Reading {
        Reading { settings: self.settings@, rules: assignments(self.rules@) }
    }
}

fn clamp_size(value: &Vec<char>, before: &String, low: u64) -> (r: String)
    requires
        low <= MAX_WINDOW_SIZE,
    ensures
        r@ == window_size(value@, before@, low),
{
    match parse_decimal(value) {
        None => before.clone(),
        Some((minus, kind)) => match kind {
            DecimalKind::NotANumber => String::from_str("NaN"),
            DecimalKind::Infinite => if minus {
                format_u64(low)
            } else {
                format_u64(MAX_WINDOW_SIZE)
            },
            DecimalKind::Thousandths(n) => if minus || n < low * 1000 {
                format_u64(low)
            } else if n >= MAX_WINDOW_SIZE * 1000 {
                format_u64(MAX_WINDOW_SIZE)
            } else {
                string_of(value)
            },
        },
    }
}

fn read_position(value: &Vec<char>, before: &String) -> (r: String)
    ensures
        r@ == window_position(value@, before@),
{
    match parse_decimal(value) {
        None => before.clone(),
        Some((minus, kind)) => match kind {
            DecimalKind::NotANumber => String::from_str("NaN"),
            DecimalKind::Infinite => if minus {
                String::from_str("-inf")
            } else {
                String::from_str("inf")
            },
            DecimalKind::Thousandths(_) => string_of(value),
        },
    }
}

fn read_names(value: &Vec<char>) -> (r: NameSet)
    ensures
        r@ == name_set(split(value@, ',')),
{
    let pieces = split_all(value, ',');
    let ghost all = texts(pieces@);
    let mut out = NameSet::new();
    let mut i: usize = 0;
    while i < pieces.len()
        invariant
            i <= pieces@.len(),
            all == texts(pieces@),
            out@ == name_set(all.take(i as int)),
        decreases pieces@.len() - i,
    {
        let name = trim(&pieces[i]);
        assert(all.take(i + 1).drop_last() =~= all.take(i as int));
        assert(all.take(i + 1).last() == pieces@[i as int]@);
        if name.len() > 0 {
            let plain = string_of(&name);
            out.insert(to_lowercase(plain.as_str()));
        }
        i += 1;
    }
    assert(all.take(i as int) =~= all);
    out
}

fn push_entry(rules: &mut Vec<Entry>, name: String, field: String, value: &Vec<char>)
    ensures
        assignments(final(rules)@) == assignments(old(rules)@).push(
            Assignment { name: name@, field: field@, value: value@ },
        ),
{
    let ghost before = assignments(rules@);
    let text = string_of(value);
    rules.push((name, field, text));
    assert(assignments(rules@) =~= before.push(
        Assignment { name: name@, field: field@, value: value@ },
    ));
}

fn apply_rule_line(rules: &mut Vec<Entry>, rest: &Vec<char>, value: &Vec<char>, Ghost(s): Ghost<SettingsView>)
    ensures
        assignments(final(rules)@) == after_rule(
            Reading { settings: s, rules: assignments(old(rules)@) },
            rest@,
            value@,
        ).rules,
        after_rule(Reading { settings: s, rules: assignments(old(rules)@) }, rest@, value@).settings
            == s,
{
    match rsplit_once(rest, '.') {
        None => {},
        Some((n, f)) => {
            let trimmed_name = trim(&n);
            let plain = string_of(&trimmed_name);
            let name = to_lowercase(plain.as_str());
            if !name.as_str().is_empty() {
                let field = trim(&f);
                let field_text = string_of(&field);
                push_entry(rules, name, field_text, value);
            }
        },
    }
}

fn apply_setting(d: &mut Draft, key: &Vec<char>, value: &Vec<char>)
    ensures
        final(d)@ == after_setting(old(d)@, key@, value@),
{
    if spells(key, "speed_unit_bits") {
        d.settings.speed_unit_bits = parse_bool(value);
    } else if spells(key, "ipv6_enabled") {
        d.settings.ipv6_enabled = parse_bool(value);
    } else if spells(key, "window_width") {
        d.settings.window_width = clamp_size(value, &d.settings.window_width, MIN_WINDOW_WIDTH);
    } else if spells(key, "window_height") {
        d.settings.window_height = clamp_size(value, &d.settings.window_height, MIN_WINDOW_HEIGHT);
    } else if spells(key, "window_x") {
        d.settings.window_x = read_position(value, &d.settings.window_x);
    } else if spells(key, "window_y") {
        d.settings.window_y = read_position(value, &d.settings.window_y);
    } else if spells(key, "window_maximized") {
        d.settings.window_maximized = parse_bool(value);
    } else if spells(key, "expanded") {
        d.settings.expanded = read_names(value);
    } else {
        match strip_prefix(key, "global.") {
            Some(field) => {
                let field_text = string_of(&field);
                let whole = String::new();
                assert(whole@ =~= Seq::<char>::empty());
                push_entry(&mut d.rules, whole, field_text, value);
            },
            None => {},
        }
    }
}

fn has_field(key: &Vec<char>) -> (r: bool)
    ensures
        r == ends_with_field(key@),
{
    match rsplit_once(key, '.') {
        None => false,
        Some((_, f)) => {
            let field = trim(&f);
            spells(&field, "block_all") || spells(&field, "limit_download") || spells(
                &field,
                "download_kbps",
            ) || spells(&field, "limit_upload") || spells(&field, "upload_kbps") || spells(
                &field,
                "adaptive",
            )
        },
    }
}

fn split_rule_line(rest: &Vec<char>) -> (r: Option<(Vec<char>, Vec<char>)>)
    ensures
        match r {
            Some(p) => split_behind_field(rest@, rest@.len()) == Some((p.0@, p.1@)),
            None => split_behind_field(rest@, rest@.len()) is None,
        },
{
    let mut n: usize = rest.len();
    while n > 0
        invariant
            n <= rest@.len(),
            split_behind_field(rest@, rest@.len()) == split_behind_field(rest@, n as nat),
        decreases n,
    {
        if rest[n - 1] == '=' {
            let key = slice_of(rest, 0, n - 1);
            assert(key@ =~= rest@.take(n - 1));
            if has_field(&key) {
                let value = slice_of(rest, n, rest.len());
                assert(value@ =~= rest@.skip(n as int));
                return Some((key, value));
            }
        }
        n -= 1;
    }
    None
}

fn apply_line(d: &mut Draft, raw: &Vec<char>)
    ensures
        final(d)@ == after_line(old(d)@, raw@),
{
    let line = trim(raw);
    if line.len() == 0 || line[0] == '#' {
        return;
    }
    if let Some(rest) = strip_prefix(&line, "rule.") {
        if let Some((key, value)) = split_rule_line(&rest) {
            let v = trim(&value);
            apply_rule_line(&mut d.rules, &key, &v, Ghost(d.settings@));
        }
        return;
    }
    match split_once(&line, '=') {
        None => {},
        Some((key, value)) => {
            let k = trim(&key);
            let v = trim(&value);
            apply_setting(d, &k, &v);
        },
    }
}

fn collect_fields(rules: &Vec<Entry>, name: &str) -> (r: Vec<(String, String)>)
    ensures
        fields_in(r@) == fields_for(assignments(rules@), name@),
{
    let ghost all = assignments(rules@);
    let mut out: Vec<(String, String)> = Vec::new();
    let mut i: usize = 0;
    assert(fields_in(out@) =~= fields_for(all.take(0), name@));
    while i < rules.len()
        invariant
            i <= rules@.len(),
            all == assignments(rules@),
            fields_in(out@) == fields_for(all.take(i as int), name@),
        decreases rules@.len() - i,
    {
        let ghost before = fields_in(out@);
        assert(all.take(i + 1).drop_last() =~= all.take(i as int));
        if same_text(rules[i].0.as_str(), name) {
            out.push((rules[i].1.clone(), rules[i].2.clone()));
            assert(fields_in(out@) =~= before.push(
                Field { field: rules@[i as int].1@, value: rules@[i as int].2@ },
            ));
        }
        i += 1;
    }
    assert(all.take(i as int) =~= all);
    out
}

fn collect_name_rules(rules: &Vec<Entry>) -> (r: NameRules)
    ensures
        r@ == rules_by_name(assignments(rules@)),
{
    let ghost all = assignments(rules@);
    let mut out = NameRules::new();
    let mut i: usize = 0;
    while i < rules.len()
        invariant
            i <= rules@.len(),
            all == assignments(rules@),
            forall|n: Seq<char>| #[trigger]
                out@.contains_key(n) <==> is_assigned(all.take(i as int), n) && n.len() > 0
                    && rule_for(all, n).any(),
            forall|n: Seq<char>| #[trigger]
                out@.contains_key(n) ==> out@[n] == rule_for(all, n),
        decreases rules@.len() - i,
    {
        let ghost name = rules@[i as int].0@;
        if !rules[i].0.as_str().is_empty() {
            let fields = collect_fields(rules, rules[i].0.as_str());
            let rule = parse_rule_fields(&fields);
            if rule.has_any_rule() {
                out.insert(rules[i].0.clone(), rule);
            }
        }
        proof {
            assert forall|n: Seq<char>| #[trigger]
                is_assigned(all.take(i + 1), n) == (is_assigned(all.take(i as int), n) || n
                    == name) by {
                let (s, t) = (all.take(i as int), all.take(i + 1));
                if is_assigned(s, n) {
                    let k = choose|k: int| 0 <= k < s.len() && #[trigger] s[k].name == n;
                    assert(t[k].name == n);
                }
                if n == name {
                    assert(t[i as int].name == n);
                }
                if is_assigned(t, n) && n != name {
                    let k = choose|k: int| 0 <= k < t.len() && #[trigger] t[k].name == n;
                    assert(s[k].name == n);
                }
            }
        }
        i += 1;
    }
    assert(all.take(i as int) =~= all);
    assert(out@ =~= rules_by_name(all));
    out
}

impl AppSettings {
    /// Reads settings from their text; what it does not say stays at its default.
    pub fn load(contents: &str) -> (r: Self)
        ensures
            r@ == settings_in(contents@),
    {
        let text = chars_of(contents);
        let lines = split_all(&text, '\n');
        let ghost all = texts(lines@);
        let ghost start = Reading { settings: default_settings(), rules: Seq::empty() };
        let mut d = Draft { settings: AppSettings::default(), rules: Vec::new() };
        assert(d@ =~= start);
        let mut i: usize = 0;
        while i < lines.len()
            invariant
                i <= lines@.len(),
                all == texts(lines@),
                d@ == after_lines(start, all.take(i as int)),
            decreases lines@.len() - i,
        {
            assert(all.take(i + 1).drop_last() =~= all.take(i as int));
            assert(all.take(i + 1).last() == lines@[i as int]@);
            apply_line(&mut d, &lines[i]);
            i += 1;
        }
        assert(all.take(i as int) =~= all);
        proof {
            reveal_strlit("");
            assert(""@ =~= Seq::<char>::empty());
        }
        let global_fields = collect_fields(&d.rules, "");
        let global_rule = parse_rule_fields(&global_fields);
        let name_rules = collect_name_rules(&d.rules);
        let mut settings = d.settings;
        settings.global_rule = global_rule;
        settings.name_rules = name_rules;
        settings
    }
}

/// The list of the names of a set, in order.
pub open spec fn in_alphabetical_order(names: Set<Seq<char>>) -> Seq<Seq<char>> {
    choose|l: Seq<Seq<char>>| increasing(l) && #[trigger] l.to_set() == names
}

/// A list in order that holds the names of a set is that set's list.
pub proof fn lemma_in_alphabetical_order(l: Seq<Seq<char>>)
    requires
        increasing(l),
    ensures
        in_alphabetical_order(l.to_set()) == l,
{
    let m = in_alphabetical_order(l.to_set());
    assert(increasing(m) && m.to_set() == l.to_set());
    increasing_lists_agree(m, l);
}

/// Texts with a comma between them.
pub open spec fn with_commas(names: Seq<Seq<char>>) -> Seq<char>
    decreases names.len(),
{
    if names.len() == 0 {
        Seq::empty()
    } else if names.len() == 1 {
        names[0]
    } else {
        with_commas(names.drop_last()).push(',') + names.last()
    }
}

/// One setting as it is written.
pub open spec fn setting_line(key: Seq<char>, value: Seq<char>) -> Seq<char> {
    key.push('=') + value
}

/// One field of a rule as it is written.
pub open spec fn rule_line(prefix: Seq<char>, field: Seq<char>, value: Seq<char>) -> Seq<char> {
    setting_line(prefix.push('.') + field, value)
}

/// The lines of a rule; a rule that says nothing has none, unless it is the global one.
pub open spec fn rule_lines(prefix: Seq<char>, rule: ProcessRule) -> Seq<Seq<char>> {
    if !rule.any() && prefix != "global"@ {
        Seq::empty()
    } else {
        seq![
            rule_line(prefix, "block_all"@, bool_word(rule.block_all)),
            rule_line(prefix, "limit_download"@, bool_word(rule.limit_download)),
            rule_line(prefix, "download_kbps"@, decimal(rule.download_kbps as nat)),
            rule_line(prefix, "limit_upload"@, bool_word(rule.limit_upload)),
            rule_line(prefix, "upload_kbps"@, decimal(rule.upload_kbps as nat)),
            rule_line(prefix, "adaptive"@, bool_word(rule.adaptive)),
        ]
    }
}

/// The lines of the rules of programs, in the order of a list of names.
pub open spec fn named_rule_lines(
    names: Seq<Seq<char>>,
    rules: Map<Seq<char>, ProcessRule>,
) -> Seq<Seq<char>>
    decreases names.len(),
{
    if names.len() == 0 {
        Seq::empty()
    } else {
        named_rule_lines(names.drop_last(), rules) + rule_lines(
            "rule."@ + names.last(),
            rules[names.last()],
        )
    }
}

/// The line that begins the text.
pub open spec fn title_line() -> Seq<char> {
    "# FlowBrake settings"@
}

/// The lines of everything but rules and expanded groups.
pub open spec fn plain_lines(s: SettingsView) -> Seq<Seq<char>> {
    seq![
        title_line(),
        setting_line("speed_unit_bits"@, bool_word(s.speed_unit_bits)),
        setting_line("ipv6_enabled"@, bool_word(s.ipv6_enabled)),
        setting_line("window_width"@, s.window_width),
        setting_line("window_height"@, s.window_height),
        setting_line("window_x"@, s.window_x),
        setting_line("window_y"@, s.window_y),
        setting_line("window_maximized"@, bool_word(s.window_maximized)),
    ]
}

/// The line of expanded groups, where there are any.
pub open spec fn expanded_lines(expanded: Set<Seq<char>>) -> Seq<Seq<char>> {
    if expanded == Set::<Seq<char>>::empty() {
        Seq::empty()
    } else {
        seq![setting_line("expanded"@, with_commas(in_alphabetical_order(expanded)))]
    }
}

/// All the lines.
pub open spec fn setting_lines(s: SettingsView) -> Seq<Seq<char>> {
    plain_lines(s) + expanded_lines(s.expanded) + rule_lines("global"@, s.global_rule)
        + named_rule_lines(in_alphabetical_order(s.name_rules.dom()), s.name_rules)
}

/// Lines, each ended.
pub open spec fn ended_lines(lines: Seq<Seq<char>>) -> Seq<char>
    decreases lines.len(),
{
    if lines.len() == 0 {
        Seq::empty()
    } else {
        (ended_lines(lines.drop_last()) + lines.last()).push('\n')
    }
}

/// The text that settings are kept in.
pub open spec fn settings_text(s: SettingsView) -> Seq<char> {
    ended_lines(setting_lines(s))
}

fn push_setting(lines: &mut Vec<String>, key: &str, value: &str)
    ensures
        names_in(final(lines)@) == names_in(old(lines)@).push(setting_line(key@, value@)),
{
    let ghost before = names_in(lines@);
    let mut line = String::from_str(key);
    line.push('=');
    line.append(value);
    lines.push(line);
    assert(names_in(lines@) =~= before.push(setting_line(key@, value@)));
}

fn push_field(lines: &mut Vec<String>, prefix: &str, field: &str, value: &str)
    ensures
        names_in(final(lines)@) == names_in(old(lines)@).push(rule_line(prefix@, field@, value@)),
{
    let mut key = String::from_str(prefix);
    key.push('.');
    key.append(field);
    push_setting(lines, key.as_str(), value);
}

/// Adds the lines of a rule; none for one that says nothing, unless it is the global one.
pub fn append_rule_lines(lines: &mut Vec<String>, prefix: &str, rule: &ProcessRule)
    ensures
        names_in(final(lines)@) == names_in(old(lines)@) + rule_lines(prefix@, *rule),
{
    let ghost before = names_in(lines@);
    if !rule.has_any_rule() && !same_text(prefix, "global") {
        assert(before + rule_lines(prefix@, *rule) =~= before);
        return;
    }
    push_field(lines, prefix, "block_all", bool_text(rule.block_all));
    push_field(lines, prefix, "limit_download", bool_text(rule.limit_download));
    let download = format_u64(rule.download_kbps as u64);
    push_field(lines, prefix, "download_kbps", download.as_str());
    push_field(lines, prefix, "limit_upload", bool_text(rule.limit_upload));
    let upload = format_u64(rule.upload_kbps as u64);
    push_field(lines, prefix, "upload_kbps", upload.as_str());
    push_field(lines, prefix, "adaptive", bool_text(rule.adaptive));
    assert(names_in(lines@) =~= before + rule_lines(prefix@, *rule));
}

fn join_with_commas(names: &Vec<String>) -> (r: String)
    ensures
        r@ == with_commas(names_in(names@)),
{
    let ghost all = names_in(names@);
    let mut out = String::new();
    let mut i: usize = 0;
    assert(out@ =~= with_commas(all.take(0)));
    while i < names.len()
        invariant
            i <= names@.len(),
            all == names_in(names@),
            out@ == with_commas(all.take(i as int)),
        decreases names@.len() - i,
    {
        assert(all.take(i + 1).drop_last() =~= all.take(i as int));
        assert(all.take(i + 1).last() == names@[i as int]@);
        if i > 0 {
            out.push(',');
        }
        out.append(names[i].as_str());
        assert(out@ =~= with_commas(all.take(i + 1)));
        i += 1;
    }
    assert(all.take(i as int) =~= all);
    out
}

fn end_lines(lines: &Vec<String>) -> (r: String)
    ensures
        r@ == ended_lines(names_in(lines@)),
{
    let ghost all = names_in(lines@);
    let mut out = String::new();
    let mut i: usize = 0;
    assert(out@ =~= ended_lines(all.take(0)));
    while i < lines.len()
        invariant
            i <= lines@.len(),
            all == names_in(lines@),
            out@ == ended_lines(all.take(i as int)),
        decreases lines@.len() - i,
    {
        assert(all.take(i + 1).drop_last() =~= all.take(i as int));
        assert(all.take(i + 1).last() == lines@[i as int]@);
        out.append(lines[i].as_str());
        out.push('\n');
        i += 1;
    }
    assert(all.take(i as int) =~= all);
    out
}

impl AppSettings {
    fn push_plain_lines(&self, lines: &mut Vec<String>)
        requires
            old(lines)@.len() == 0,
        ensures
            names_in(final(lines)@) == plain_lines(self@),
    {
        lines.push(String::from_str("# FlowBrake settings"));
        assert(names_in(lines@) =~= seq![title_line()]);
        push_setting(lines, "speed_unit_bits", bool_text(self.speed_unit_bits));
        push_setting(lines, "ipv6_enabled", bool_text(self.ipv6_enabled));
        push_setting(lines, "window_width", self.window_width.as_str());
        push_setting(lines, "window_height", self.window_height.as_str());
        push_setting(lines, "window_x", self.window_x.as_str());
        push_setting(lines, "window_y", self.window_y.as_str());
        push_setting(lines, "window_maximized", bool_text(self.window_maximized));
        assert(names_in(lines@) =~= plain_lines(self@));
    }

    fn push_expanded_line(&self, lines: &mut Vec<String>)
        ensures
            names_in(final(lines)@) == names_in(old(lines)@) + expanded_lines(self@.expanded),
    {
        let ghost before = names_in(lines@);
        if !self.expanded.is_empty() {
            let names = self.expanded.sorted_names();
            proof {
                lemma_in_alphabetical_order(names_in(names@));
            }
            let list = join_with_commas(&names);
            push_setting(lines, "expanded", list.as_str());
        }
        assert(names_in(lines@) =~= before + expanded_lines(self@.expanded));
    }

    fn push_named_rules(&self, lines: &mut Vec<String>)
        ensures
            names_in(final(lines)@) == names_in(old(lines)@) + named_rule_lines(
                in_alphabetical_order(self@.name_rules.dom()),
                self@.name_rules,
            ),
    {
        let ghost before = names_in(lines@);
        let ghost rules = self@.name_rules;
        let names = self.name_rules.sorted_names();
        let ghost all = names_in(names@);
        proof {
            lemma_in_alphabetical_order(all);
        }
        let mut i: usize = 0;
        assert(before + named_rule_lines(all.take(0), rules) =~= before);
        while i < names.len()
            invariant
                i <= names@.len(),
                all == names_in(names@),
                rules == self.name_rules@,
                all.to_set() == rules.dom(),
                names_in(lines@) == before + named_rule_lines(all.take(i as int), rules),
            decreases names@.len() - i,
        {
            assert(all.take(i + 1).drop_last() =~= all.take(i as int));
            assert(all.take(i + 1).last() == names@[i as int]@);
            assert(all.to_set().contains(all[i as int]));
            match self.name_rules.get(names[i].as_str()) {
                Some(rule) => {
                    let mut prefix = String::from_str("rule.");
                    prefix.append(names[i].as_str());
                    append_rule_lines(lines, prefix.as_str(), &rule);
                },
                None => {},
            }
            assert(names_in(lines@) =~= before + named_rule_lines(all.take(i + 1), rules));
            i += 1;
        }
        assert(all.take(i as int) =~= all);
    }

    /// Writes settings as text.
    pub fn save(&self) -> (r: String)
        ensures
            r@ == settings_text(self@),
    {
        let mut lines: Vec<String> = Vec::new();
        self.push_plain_lines(&mut lines);
        self.push_expanded_line(&mut lines);
        append_rule_lines(&mut lines, "global", &self.global_rule);
        self.push_named_rules(&mut lines);
        end_lines(&lines)
    }
}

/// A size in whole pixels, brought between the bounds.
pub open spec fn bounded_size(size: u32, low: u64) -> nat {
    if size < low {
        low as nat
    } else if size > MAX_WINDOW_SIZE {
        MAX_WINDOW_SIZE as nat
    } else {
        size as nat
    }
}

fn bound_size(size: u32, low: u64) -> (r: String)
    requires
        low <= MAX_WINDOW_SIZE,
    ensures
        r@ == decimal(bounded_size(size, low)),
{
    let wide = size as u64;
    if wide < low {
        format_u64(low)
    } else if wide > MAX_WINDOW_SIZE {
        format_u64(MAX_WINDOW_SIZE)
    } else {
        format_u64(wide)
    }
}

/// Whether a number is written that is zero or above.
pub open spec fn is_at_least_zero(text: Seq<char>) -> bool {
    match read_decimal(text) {
        None => false,
        Some((_, Magnitude::NotANumber)) => false,
        Some((minus, Magnitude::Infinite)) => !minus,
        Some((minus, Magnitude::Thousandths(_))) => !minus || writes_zero(text),
    }
}

/// Whether no digit but 0 stands before the exponent.
pub open spec fn writes_zero(text: Seq<char>) -> bool
    decreases text.len(),
{
    if text.len() == 0 || text[0] == 'e' || text[0] == 'E' {
        true
    } else if '1' <= text[0] <= '9' {
        false
    } else {
        writes_zero(text.drop_first())
    }
}

fn all_zero(text: &Vec<char>) -> (r: bool)
    ensures
        r == writes_zero(text@),
{
    let mut i: usize = 0;
    assert(text@.skip(0) =~= text@);
    while i < text.len()
        invariant
            i <= text@.len(),
            writes_zero(text@) == writes_zero(text@.skip(i as int)),
        decreases text@.len() - i,
    {
        assert(text@.skip(i as int).drop_first() =~= text@.skip(i + 1));
        let c = text[i];
        if c == 'e' || c == 'E' {
            return true;
        }
        if '1' <= c && c <= '9' {
            return false;
        }
        i += 1;
    }
    true
}

fn at_least_zero(text: &String) -> (r: bool)
    ensures
        r == is_at_least_zero(text@),
{
    let chars = chars_of(text.as_str());
    match parse_decimal(&chars) {
        None => false,
        Some((minus, kind)) => match kind {
            DecimalKind::NotANumber => false,
            DecimalKind::Infinite => !minus,
            DecimalKind::Thousandths(_) => !minus || all_zero(&chars),
        },
    }
}

/// Where a window goes when it is opened. Numbers are given as they are written.
#[derive(Debug)]
pub enum WindowPlacement {
    Maximized,
    Normal { width: String, height: String, position: Option<(String, String)> },
}

/// Whether a placement is what settings ask for: maximised, or of their size, brought between
/// the bounds, and at their position unless a coordinate of it is below zero.
pub open spec fn is_placement(p: WindowPlacement, s: SettingsView) -> bool {
    match p {
        WindowPlacement::Maximized => s.window_maximized,
        WindowPlacement::Normal { width, height, position } => {
            &&& !s.window_maximized
            &&& width@ == window_size(s.window_width, s.window_width, MIN_WINDOW_WIDTH)
            &&& height@ == window_size(s.window_height, s.window_height, MIN_WINDOW_HEIGHT)
            &&& match position {
                Some((x, y)) => {
                    &&& is_at_least_zero(s.window_x)
                    &&& is_at_least_zero(s.window_y)
                    &&& x@ == s.window_x
                    &&& y@ == s.window_y
                },
                None => !(is_at_least_zero(s.window_x) && is_at_least_zero(s.window_y)),
            }
        },
    }
}

impl AppSettings {
    /// Takes over where a window stands. Of a maximised one only that is kept.
    pub fn capture_window(&mut self, maximized: bool, width: u32, height: u32, x: i32, y: i32)
        ensures
            final(self)@ == (if maximized {
                SettingsView { window_maximized: true, ..old(self)@ }
            } else {
                SettingsView {
                    window_maximized: false,
                    window_width: decimal(bounded_size(width, MIN_WINDOW_WIDTH)),
                    window_height: decimal(bounded_size(height, MIN_WINDOW_HEIGHT)),
                    window_x: signed_decimal(x as int),
                    window_y: signed_decimal(y as int),
                    ..old(self)@
                }
            }),
    {
        self.window_maximized = maximized;
        if maximized {
            return;
        }
        self.window_width = bound_size(width, MIN_WINDOW_WIDTH);
        self.window_height = bound_size(height, MIN_WINDOW_HEIGHT);
        self.window_x = format_i32(x);
        self.window_y = format_i32(y);
    }

    /// Where a window goes by these settings.
    pub fn apply_window(&self) -> (r: WindowPlacement)
        ensures
            is_placement(r, self@),
    {
        if self.window_maximized {
            return WindowPlacement::Maximized;
        }
        let width_text = chars_of(self.window_width.as_str());
        let height_text = chars_of(self.window_height.as_str());
        let width = clamp_size(&width_text, &self.window_width, MIN_WINDOW_WIDTH);
        let height = clamp_size(&height_text, &self.window_height, MIN_WINDOW_HEIGHT);
        let position = if at_least_zero(&self.window_x) && at_least_zero(&self.window_y) {
            Some((self.window_x.clone(), self.window_y.clone()))
        } else {
            None
        };
        WindowPlacement::Normal { width, height, position }
    }
}

impl Clone for AppSettings {
    fn clone(&self) -> (r: Self)
        ensures
            r@ == self@,
    {
        AppSettings {
            speed_unit_bits: self.speed_unit_bits,
            ipv6_enabled: self.ipv6_enabled,
            window_width: self.window_width.clone(),
            window_height: self.window_height.clone(),
            window_x: self.window_x.clone(),
            window_y: self.window_y.clone(),
            window_maximized: self.window_maximized,
            global_rule: self.global_rule,
            name_rules: self.name_rules.clone(),
            expanded: self.expanded.clone(),
        }
    }
}

} // verus!
