//! What is read of settings that were written: the settings that were written.

use crate::names::increasing;
use crate::number::{
    ascii_lowercase, decimal, decimal_reads_back, is_digit, numbers_hold_no_space, read_decimal,
    read_decimal_of_digits, without_sign, whole_number_of_decimal, Magnitude,
};
use crate::rule::ProcessRule;
use crate::settings::{
    after_line, after_lines, after_setting, bool_word, bounded_size, default_settings, ended_lines,
    ends_with_field, expanded_lines, fields_for, in_alphabetical_order, is_assigned,
    is_at_least_zero, is_placement, is_rule_field, last_value, name_set, named_rule_lines, plain_lines, rule_line, rule_lines, rule_of_fields,
    rules_by_name, setting_line, setting_lines, settings_in, settings_text, split_behind_field,
    title_line, truthy, window_position, window_size, with_commas, writes_zero, Assignment, Field,
    Reading, SettingsView, WindowPlacement, DEFAULT_WINDOW_HEIGHT, DEFAULT_WINDOW_WIDTH, MAX_WINDOW_SIZE, MIN_WINDOW_HEIGHT,
    MIN_WINDOW_WIDTH,
};
use crate::text::{
    begins_with, first_of, is_space, lemma_end_of_last, lemma_first_of, lemma_first_of_unique,
    lemma_trimmed_fixed, lemma_trimmed_shape, lowercase, small_text_stays, split, split_at_first,
    split_at_last, text_less, text_order_is_total, text_order_is_transitive, trimmed,
};
use vstd::prelude::*;

verus! {

/// Whether `c` occurs nowhere in `s`.
pub open spec fn lacks(s: Seq<char>, c: char) -> bool {
    forall|i: int| 0 <= i < s.len() ==> #[trigger] s[i] != c
}

/// Splitting two texts joined by `c` gives the pieces of the one, then those of the other.
pub proof fn split_of_joined(a: Seq<char>, b: Seq<char>, c: char)
    ensures
        split(a.push(c) + b, c) == split(a, c) + split(b, c),
    decreases a.len(),
{
    let whole = a.push(c) + b;
    let n = first_of(a, c);
    lemma_first_of(a, c);
    assert forall|i: int| 0 <= i < n implies whole[i] != c by {
        assert(whole[i] == a[i]);
    }
    assert(whole[n as int] == c);
    lemma_first_of_unique(whole, c, n);
    assert(whole.take(n as int) =~= a.take(n as int));
    if n < a.len() {
        let rest = a.skip(n as int + 1);
        assert(whole.skip(n as int + 1) =~= rest.push(c) + b);
        split_of_joined(rest, b, c);
        assert(split(whole, c) =~= split(a, c) + split(b, c));
    } else {
        assert(a.take(n as int) =~= a);
        assert(whole.skip(n as int + 1) =~= b);
        assert(split(whole, c) =~= split(a, c) + split(b, c));
    }
}

proof fn lemma_split_whole(s: Seq<char>, c: char)
    requires
        lacks(s, c),
    ensures
        split(s, c) == seq![s],
{
    lemma_first_of_unique(s, c, s.len());
}

proof fn lemma_split_lines(lines: Seq<Seq<char>>, t: Seq<char>)
    requires
        forall|i: int| 0 <= i < lines.len() ==> lacks(#[trigger] lines[i], '\n'),
        lacks(t, '\n'),
    ensures
        split(ended_lines(lines) + t, '\n') == lines.push(t),
    decreases lines.len(),
{
    if lines.len() == 0 {
        assert(ended_lines(lines) + t =~= t);
        lemma_split_whole(t, '\n');
        assert(lines.push(t) =~= seq![t]);
    } else {
        let init = lines.drop_last();
        assert(lacks(lines[lines.len() - 1], '\n'));
        assert forall|i: int| 0 <= i < init.len() implies lacks(#[trigger] init[i], '\n') by {
            assert(lacks(lines[i], '\n'));
        }
        lemma_split_lines(init, lines.last());
        split_of_joined(ended_lines(init) + lines.last(), t, '\n');
        lemma_split_whole(t, '\n');
        assert(init.push(lines.last()) =~= lines);
        assert(lines + seq![t] =~= lines.push(t));
    }
}

proof fn lemma_split_commas(names: Seq<Seq<char>>)
    requires
        names.len() > 0,
        forall|i: int| 0 <= i < names.len() ==> lacks(#[trigger] names[i], ','),
    ensures
        split(with_commas(names), ',') == names,
    decreases names.len(),
{
    assert(lacks(names[names.len() - 1], ','));
    lemma_split_whole(names.last(), ',');
    if names.len() == 1 {
        assert(seq![names[0]] =~= names);
    } else {
        let init = names.drop_last();
        assert forall|i: int| 0 <= i < init.len() implies lacks(#[trigger] init[i], ',') by {
            assert(lacks(names[i], ','));
        }
        lemma_split_commas(init);
        split_of_joined(with_commas(init), names.last(), ',');
        assert(init + seq![names.last()] =~= names);
    }
}

/// Reading one more line comes after reading those before it.
proof fn lemma_after_push(r: Reading, lines: Seq<Seq<char>>, line: Seq<char>)
    ensures
        after_lines(r, lines.push(line)) == after_line(after_lines(r, lines), line),
{
    assert(lines.push(line).drop_last() =~= lines);
}

proof fn lemma_after_joined(r: Reading, a: Seq<Seq<char>>, b: Seq<Seq<char>>)
    ensures
        after_lines(r, a + b) == after_lines(after_lines(r, a), b),
    decreases b.len(),
{
    if b.len() == 0 {
        assert(a + b =~= a);
    } else {
        lemma_after_joined(r, a, b.drop_last());
        assert((a + b).drop_last() =~= a + b.drop_last());
    }
}

/// A key that a line can carry: it neither begins nor ends with white space, does not begin a
/// comment, and holds neither an equals sign nor a line break.
spec fn is_key(key: Seq<char>) -> bool {
    &&& key.len() > 0
    &&& !is_space(key[0])
    &&& !is_space(key.last())
    &&& key[0] != '#'
    &&& lacks(key, '=')
    &&& lacks(key, '\n')
}

/// A written line reads as the setting that it writes.
proof fn lemma_line_read(r: Reading, key: Seq<char>, value: Seq<char>)
    requires
        is_key(key),
        key[0] != 'r',
        value.len() > 0 ==> !is_space(value[0]) && !is_space(value.last()),
    ensures
        after_line(r, setting_line(key, value)) == after_setting(r, key, value),
{
    let line = setting_line(key, value);
    assert(line[0] == key[0]);
    reveal_strlit("rule.");
    assert(line.len() >= 5 ==> line.take(5)[0] == key[0]);
    if value.len() > 0 {
        assert(line.last() == value.last());
    } else {
        assert(line.last() == '=');
    }
    lemma_trimmed_fixed(line);
    assert(line[key.len() as int] == '=');
    assert forall|i: int| 0 <= i < key.len() implies line[i] != '=' by {
        assert(line[i] == key[i]);
    }
    lemma_first_of_unique(line, '=', key.len());
    assert(line.take(key.len() as int) =~= key);
    assert(line.skip(key.len() as int + 1) =~= value);
    lemma_trimmed_fixed(key);
    lemma_trimmed_fixed(value);
}

proof fn lemma_literals()
    ensures
        is_key("speed_unit_bits"@) && "speed_unit_bits"@[0] == 's',
        is_key("ipv6_enabled"@) && "ipv6_enabled"@[0] == 'i',
        is_key("window_width"@) && "window_width"@[0] == 'w' && "window_width"@.len() == 12,
        is_key("window_height"@) && "window_height"@[0] == 'w' && "window_height"@.len() == 13,
        is_key("window_x"@) && "window_x"@[0] == 'w' && "window_x"@.len() == 8,
        "window_x"@[7] == 'x',
        is_key("window_y"@) && "window_y"@[0] == 'w' && "window_y"@.len() == 8,
        "window_y"@[7] == 'y',
        is_key("window_maximized"@) && "window_maximized"@[0] == 'w',
        "window_maximized"@.len() == 16,
        is_key("expanded"@) && "expanded"@[0] == 'e',
{
    reveal_strlit("speed_unit_bits");
    reveal_strlit("ipv6_enabled");
    reveal_strlit("window_width");
    reveal_strlit("window_height");
    reveal_strlit("window_x");
    reveal_strlit("window_y");
    reveal_strlit("window_maximized");
    reveal_strlit("expanded");
}

proof fn lemma_bool_read(b: bool)
    ensures
        truthy(bool_word(b)) == b,
        bool_word(b).len() > 0,
        forall|i: int| 0 <= i < bool_word(b).len() ==> !is_space(#[trigger] bool_word(b)[i]),
        lacks(bool_word(b), '\n'),
        lacks(bool_word(b), '='),
{
    reveal_strlit("true");
    reveal_strlit("false");
    reveal_strlit("1");
    reveal_strlit("yes");
    if !b {
        assert("false"@[0] == 'f');
        assert("true"@[0] == 't');
        assert("1"@[0] == '1');
        assert("yes"@[0] == 'y');
    }
}

/// A window size that a line sets as it is written.
pub open spec fn is_window_size(text: Seq<char>, low: u64) -> bool {
    read_decimal(text) is Some && window_size(text, text, low) == text
}

/// A window position that a line sets as it is written.
pub open spec fn is_window_position(text: Seq<char>) -> bool {
    read_decimal(text) is Some && window_position(text, text) == text
}

/// The name of a group that a list of expanded groups can carry.
pub open spec fn is_listable(name: Seq<char>) -> bool {
    &&& name.len() > 0
    &&& trimmed(name) == name
    &&& lowercase(name) == name
    &&& lacks(name, ',')
    &&& lacks(name, '\n')
}

/// The name of a program whose rule can be kept.
pub open spec fn is_keepable(name: Seq<char>) -> bool {
    &&& name.len() > 0
    &&& trimmed(name) == name
    &&& lowercase(name) == name
    &&& lacks(name, '\n')
}

/// Settings with values that a text can hold, whatever their names: window sizes within bounds and
/// positions that are numbers, rules as they are drafted, and no rule that says nothing.
pub open spec fn has_storable_values(s: SettingsView) -> bool {
    &&& is_window_size(s.window_width, MIN_WINDOW_WIDTH)
    &&& is_window_size(s.window_height, MIN_WINDOW_HEIGHT)
    &&& is_window_position(s.window_x)
    &&& is_window_position(s.window_y)
    &&& s.global_rule.adjusted_dl_bps == 0
    &&& s.global_rule.adjusted_ul_bps == 0
    &&& s.name_rules.dom().finite()
    &&& forall|n: Seq<char>| #[trigger]
        s.name_rules.contains_key(n) ==> s.name_rules[n].any()
            && s.name_rules[n].adjusted_dl_bps == 0 && s.name_rules[n].adjusted_ul_bps == 0
    &&& s.expanded.finite()
}

/// Settings that a text can hold: such values, and names in lower case that hold none of the
/// marks which the text is divided by.
pub open spec fn is_storable(s: SettingsView) -> bool {
    &&& has_storable_values(s)
    &&& forall|n: Seq<char>| #[trigger] s.name_rules.contains_key(n) ==> is_keepable(n)
    &&& forall|n: Seq<char>| #[trigger] s.expanded.contains(n) ==> is_listable(n)
}

/// Settings without rules and expanded groups.
spec fn bare(s: SettingsView) -> SettingsView {
    SettingsView {
        global_rule: ProcessRule::none(),
        name_rules: Map::empty(),
        expanded: Set::empty(),
        ..s
    }
}

spec fn start() -> Reading {
    Reading { settings: default_settings(), rules: Seq::empty() }
}

proof fn lemma_read_units(r: Reading, v: Seq<char>)
    requires
        v.len() > 0,
        !is_space(v[0]),
        !is_space(v.last()),
    ensures
        after_line(r, setting_line("speed_unit_bits"@, v)) == (Reading {
            settings: SettingsView { speed_unit_bits: truthy(v), ..r.settings },
            ..r
        }),
{
    lemma_literals();
    lemma_line_read(r, "speed_unit_bits"@, v);
}

proof fn lemma_read_ipv6(r: Reading, v: Seq<char>)
    requires
        v.len() > 0,
        !is_space(v[0]),
        !is_space(v.last()),
    ensures
        after_line(r, setting_line("ipv6_enabled"@, v)) == (Reading {
            settings: SettingsView { ipv6_enabled: truthy(v), ..r.settings },
            ..r
        }),
{
    lemma_literals();
    lemma_line_read(r, "ipv6_enabled"@, v);
}

proof fn lemma_read_width(r: Reading, v: Seq<char>)
    requires
        v.len() > 0,
        !is_space(v[0]),
        !is_space(v.last()),
    ensures
        after_line(r, setting_line("window_width"@, v)) == (Reading {
            settings: SettingsView { window_width: window_size(v, r.settings.window_width, MIN_WINDOW_WIDTH), ..r.settings },
            ..r
        }),
{
    lemma_literals();
    lemma_line_read(r, "window_width"@, v);
}

proof fn lemma_read_height(r: Reading, v: Seq<char>)
    requires
        v.len() > 0,
        !is_space(v[0]),
        !is_space(v.last()),
    ensures
        after_line(r, setting_line("window_height"@, v)) == (Reading {
            settings: SettingsView { window_height: window_size(v, r.settings.window_height, MIN_WINDOW_HEIGHT), ..r.settings },
            ..r
        }),
{
    lemma_literals();
    lemma_line_read(r, "window_height"@, v);
}

proof fn lemma_read_x(r: Reading, v: Seq<char>)
    requires
        v.len() > 0,
        !is_space(v[0]),
        !is_space(v.last()),
    ensures
        after_line(r, setting_line("window_x"@, v)) == (Reading {
            settings: SettingsView { window_x: window_position(v, r.settings.window_x), ..r.settings },
            ..r
        }),
{
    lemma_literals();
    lemma_line_read(r, "window_x"@, v);
}

proof fn lemma_read_y(r: Reading, v: Seq<char>)
    requires
        v.len() > 0,
        !is_space(v[0]),
        !is_space(v.last()),
    ensures
        after_line(r, setting_line("window_y"@, v)) == (Reading {
            settings: SettingsView { window_y: window_position(v, r.settings.window_y), ..r.settings },
            ..r
        }),
{
    lemma_literals();
    lemma_line_read(r, "window_y"@, v);
}

proof fn lemma_read_maximized(r: Reading, v: Seq<char>)
    requires
        v.len() > 0,
        !is_space(v[0]),
        !is_space(v.last()),
    ensures
        after_line(r, setting_line("window_maximized"@, v)) == (Reading {
            settings: SettingsView { window_maximized: truthy(v), ..r.settings },
            ..r
        }),
{
    lemma_literals();
    lemma_line_read(r, "window_maximized"@, v);
}

proof fn lemma_read_expanded(r: Reading, v: Seq<char>)
    requires
        v.len() > 0,
        !is_space(v[0]),
        !is_space(v.last()),
    ensures
        after_line(r, setting_line("expanded"@, v)) == (Reading {
            settings: SettingsView { expanded: name_set(split(v, ',')), ..r.settings },
            ..r
        }),
{
    lemma_literals();
    lemma_line_read(r, "expanded"@, v);
}

proof fn lemma_read_title(r: Reading)
    ensures
        after_line(r, title_line()) == r,
        lacks(title_line(), '\n'),
{
    reveal_strlit("# FlowBrake settings");
    lemma_trimmed_fixed(title_line());
}

proof fn lemma_no_break(key: Seq<char>, value: Seq<char>)
    requires
        lacks(key, '\n'),
        lacks(value, '\n'),
    ensures
        lacks(setting_line(key, value), '\n'),
{
    let line = setting_line(key, value);
    assert forall|i: int| 0 <= i < line.len() implies #[trigger] line[i] != '\n' by {
        if i < key.len() {
            assert(line[i] == key[i]);
        } else if i > key.len() {
            assert(line[i] == value[i - key.len() - 1]);
        }
    }
}

proof fn lemma_plain_lines_unbroken(s: SettingsView)
    requires
        is_storable(s),
    ensures
        forall|i: int|
            0 <= i < plain_lines(s).len() ==> lacks(#[trigger] plain_lines(s)[i], '\n'),
{
    lemma_literals();
    lemma_read_title(start());
    lemma_bool_read(s.speed_unit_bits);
    lemma_bool_read(s.ipv6_enabled);
    lemma_bool_read(s.window_maximized);
    numbers_hold_no_space(s.window_width);
    numbers_hold_no_space(s.window_height);
    numbers_hold_no_space(s.window_x);
    numbers_hold_no_space(s.window_y);
    lemma_no_break("speed_unit_bits"@, bool_word(s.speed_unit_bits));
    lemma_no_break("ipv6_enabled"@, bool_word(s.ipv6_enabled));
    lemma_no_break("window_width"@, s.window_width);
    lemma_no_break("window_height"@, s.window_height);
    lemma_no_break("window_x"@, s.window_x);
    lemma_no_break("window_y"@, s.window_y);
    lemma_no_break("window_maximized"@, bool_word(s.window_maximized));
}

proof fn lemma_plain_lines(s: SettingsView)
    requires
        is_storable(s),
    ensures
        after_lines(start(), plain_lines(s)) == (Reading {
            settings: bare(s),
            rules: Seq::empty(),
        }),
{
    let all = plain_lines(s);
    let r0 = start();
    let l0 = Seq::<Seq<char>>::empty();
    lemma_after_push(r0, l0, all[0]);
    lemma_read_title(r0);
    let l1 = l0.push(all[0]);
    lemma_after_push(r0, l1, all[1]);
    lemma_bool_read(s.speed_unit_bits);
    let r1 = after_lines(r0, l1);
    lemma_read_units(r1, bool_word(s.speed_unit_bits));
    let l2 = l1.push(all[1]);
    lemma_after_push(r0, l2, all[2]);
    lemma_bool_read(s.ipv6_enabled);
    let r2 = after_lines(r0, l2);
    lemma_read_ipv6(r2, bool_word(s.ipv6_enabled));
    let l3 = l2.push(all[2]);
    lemma_after_push(r0, l3, all[3]);
    numbers_hold_no_space(s.window_width);
    let r3 = after_lines(r0, l3);
    lemma_read_width(r3, s.window_width);
    let l4 = l3.push(all[3]);
    lemma_after_push(r0, l4, all[4]);
    numbers_hold_no_space(s.window_height);
    let r4 = after_lines(r0, l4);
    lemma_read_height(r4, s.window_height);
    let l5 = l4.push(all[4]);
    lemma_after_push(r0, l5, all[5]);
    numbers_hold_no_space(s.window_x);
    let r5 = after_lines(r0, l5);
    lemma_read_x(r5, s.window_x);
    let l6 = l5.push(all[5]);
    lemma_after_push(r0, l6, all[6]);
    numbers_hold_no_space(s.window_y);
    let r6 = after_lines(r0, l6);
    lemma_read_y(r6, s.window_y);
    let l7 = l6.push(all[6]);
    lemma_after_push(r0, l7, all[7]);
    lemma_bool_read(s.window_maximized);
    let r7 = after_lines(r0, l7);
    lemma_read_maximized(r7, bool_word(s.window_maximized));
    let l8 = l7.push(all[7]);
    assert(l8 =~= all);
    assert(after_lines(r0, l8) =~= Reading { settings: bare(s), rules: Seq::empty() });
}

proof fn lemma_name_set(names: Seq<Seq<char>>)
    requires
        forall|i: int| 0 <= i < names.len() ==> is_listable(#[trigger] names[i]),
    ensures
        name_set(names) == names.to_set(),
    decreases names.len(),
{
    if names.len() == 0 {
        assert(names.to_set() =~= Set::<Seq<char>>::empty());
    } else {
        let init = names.drop_last();
        assert forall|i: int| 0 <= i < init.len() implies is_listable(#[trigger] init[i]) by {
            assert(is_listable(names[i]));
        }
        lemma_name_set(init);
        assert(is_listable(names[names.len() - 1]));
        assert forall|n: Seq<char>| names.to_set().contains(n) == init.to_set().insert(
            names.last(),
        ).contains(n) by {
            if names.contains(n) && n != names.last() {
                let i = choose|i: int| 0 <= i < names.len() && names[i] == n;
                assert(init[i] == n);
            }
            if init.contains(n) {
                let i = choose|i: int| 0 <= i < init.len() && init[i] == n;
                assert(names[i] == n);
            }
            assert(names.contains(names[names.len() - 1]));
        }
        assert(names.to_set() =~= init.to_set().insert(names.last()));
    }
}

proof fn lemma_joined_ends(names: Seq<Seq<char>>)
    requires
        names.len() > 0,
        forall|i: int| 0 <= i < names.len() ==> is_listable(#[trigger] names[i]),
    ensures
        with_commas(names).len() > 0,
        with_commas(names)[0] == names[0][0],
        with_commas(names).last() == names.last().last(),
        lacks(with_commas(names), '\n'),
    decreases names.len(),
{
    assert(is_listable(names[names.len() - 1]));
    if names.len() > 1 {
        let init = names.drop_last();
        assert forall|i: int| 0 <= i < init.len() implies is_listable(#[trigger] init[i]) by {
            assert(is_listable(names[i]));
        }
        lemma_joined_ends(init);
        let head = with_commas(init).push(',');
        let whole = head + names.last();
        assert forall|i: int| 0 <= i < whole.len() implies #[trigger] whole[i] != '\n' by {
            if i < with_commas(init).len() {
                assert(whole[i] == with_commas(init)[i]);
            } else if i >= head.len() {
                assert(whole[i] == names.last()[i - head.len()]);
            }
        }
    }
}

/// Every finite set of names has its list in order.
proof fn lemma_list_exists(names: Set<Seq<char>>)
    requires
        names.finite(),
    ensures
        increasing(in_alphabetical_order(names)),
        in_alphabetical_order(names).to_set() == names,
{
    let l = names.to_seq();
    names.lemma_to_seq_to_set_id();
    lemma_sorted_list(l);
    let m = choose|m: Seq<Seq<char>>| increasing(m) && #[trigger] m.to_set() == l.to_set();
    assert(increasing(m) && m.to_set() == names);
}

proof fn lemma_sorted_list(l: Seq<Seq<char>>)
    ensures
        exists|m: Seq<Seq<char>>| increasing(m) && #[trigger] m.to_set() == l.to_set(),
    decreases l.len(),
{
    if l.len() == 0 {
        let names = l.to_set();
        assert(increasing(l) && l.to_set() == names);
    } else {
        lemma_sorted_list(l.drop_last());
        let init = choose|m: Seq<Seq<char>>|
            increasing(m) && #[trigger] m.to_set() == l.drop_last().to_set();
        lemma_place(init, l.last());
        let m = choose|m: Seq<Seq<char>>|
            increasing(m) && #[trigger] m.to_set() == init.to_set().insert(l.last());
        assert forall|n: Seq<char>| l.to_set().contains(n) == l.drop_last().to_set().insert(
            l.last(),
        ).contains(n) by {
            if l.contains(n) && n != l.last() {
                let i = choose|i: int| 0 <= i < l.len() && l[i] == n;
                assert(l.drop_last()[i] == n);
            }
            if l.drop_last().contains(n) {
                let i = choose|i: int| 0 <= i < l.len() - 1 && l.drop_last()[i] == n;
                assert(l[i] == n);
            }
            assert(l.contains(l[l.len() - 1]));
        }
        assert(l.to_set() =~= l.drop_last().to_set().insert(l.last()));
        assert(increasing(m) && m.to_set() == l.to_set());
    }
}

/// A name can be put in its place in a list.
proof fn lemma_place(l: Seq<Seq<char>>, name: Seq<char>)
    requires
        increasing(l),
    ensures
        exists|m: Seq<Seq<char>>|
            increasing(m) && #[trigger] m.to_set() == l.to_set().insert(name),
    decreases l.len(),
{
    if l.len() == 0 {
        let m = seq![name];
        assert forall|n: Seq<char>| m.to_set().contains(n) == l.to_set().insert(name).contains(
            n,
        ) by {
            assert(m[0] == name);
        }
        assert(m.to_set() =~= l.to_set().insert(name));
        assert(increasing(m) && m.to_set() == l.to_set().insert(name));
    } else {
        text_order_is_total(l.last(), name);
        if l.contains(name) {
            assert(l.to_set().insert(name) =~= l.to_set());
            assert(increasing(l) && l.to_set() == l.to_set().insert(name));
        } else if text_less(l.last(), name) {
            let m = l.push(name);
            assert forall|i: int, j: int| 0 <= i < j < m.len() implies text_less(
                #[trigger] m[i],
                #[trigger] m[j],
            ) by {
                if j == l.len() && i < l.len() - 1 {
                    assert(text_less(l[i], l[l.len() - 1]));
                    text_order_is_transitive(l[i], l.last(), name);
                }
            }
            lemma_push_set(l, name);
            assert(increasing(m) && m.to_set() == l.to_set().insert(name));
        } else {
            assert(l.contains(l[l.len() - 1]));
            let init = l.drop_last();
            lemma_place(init, name);
            let k = choose|m: Seq<Seq<char>>|
                increasing(m) && #[trigger] m.to_set() == init.to_set().insert(name);
            let m = k.push(l.last());
            assert forall|i: int| 0 <= i < k.len() implies text_less(#[trigger] k[i], l.last()) by {
                assert(k.to_set().contains(k[i]));
                if k[i] != name {
                    assert(init.contains(k[i]));
                    let j = choose|j: int| 0 <= j < init.len() && init[j] == k[i];
                    assert(text_less(l[j], l[l.len() - 1]));
                }
            }
            assert(increasing(m));
            lemma_push_set(k, l.last());
            lemma_push_set(init, l.last());
            assert(init.push(l.last()) =~= l);
            assert(m.to_set() =~= l.to_set().insert(name));
            assert(increasing(m) && m.to_set() == l.to_set().insert(name));
        }
    }
}

proof fn lemma_push_set(l: Seq<Seq<char>>, name: Seq<char>)
    ensures
        l.push(name).to_set() == l.to_set().insert(name),
{
    let m = l.push(name);
    assert forall|n: Seq<char>| m.to_set().contains(n) == l.to_set().insert(name).contains(n) by {
        if l.contains(n) {
            let i = choose|i: int| 0 <= i < l.len() && l[i] == n;
            assert(m[i] == n);
        }
        if m.contains(n) && n != name {
            let i = choose|i: int| 0 <= i < m.len() && m[i] == n;
            assert(l[i] == n);
        }
        assert(m[l.len() as int] == name);
    }
    assert(m.to_set() =~= l.to_set().insert(name));
}

proof fn lemma_expanded_lines(r: Reading, expanded: Set<Seq<char>>)
    requires
        expanded.finite(),
        forall|n: Seq<char>| #[trigger] expanded.contains(n) ==> is_listable(n),
        r.settings.expanded == Set::<Seq<char>>::empty(),
    ensures
        after_lines(r, expanded_lines(expanded)) == (Reading {
            settings: SettingsView { expanded, ..r.settings },
            ..r
        }),
        forall|i: int|
            0 <= i < expanded_lines(expanded).len() ==> lacks(
                #[trigger] expanded_lines(expanded)[i],
                '\n',
            ),
{
    let lines = expanded_lines(expanded);
    if expanded == Set::<Seq<char>>::empty() {
        assert(after_lines(r, lines) == r);
    } else {
        let names = in_alphabetical_order(expanded);
        lemma_list_exists(expanded);
        assert(names.len() > 0) by {
            if names.len() == 0 {
                assert(names.to_set() =~= Set::<Seq<char>>::empty());
            }
        }
        assert forall|i: int| 0 <= i < names.len() implies is_listable(#[trigger] names[i]) by {
            assert(names.to_set().contains(names[i]));
        }
        let value = with_commas(names);
        lemma_joined_ends(names);
        assert(is_listable(names[0]) && is_listable(names[names.len() - 1]));
        lemma_trimmed_shape(names[0]);
        lemma_trimmed_shape(names.last());
        assert forall|i: int| 0 <= i < names.len() implies lacks(#[trigger] names[i], ',') by {
            assert(is_listable(names[i]));
        }
        lemma_split_commas(names);
        lemma_name_set(names);
        lemma_read_expanded(r, value);
        lemma_after_push(r, Seq::empty(), lines[0]);
        assert(Seq::<Seq<char>>::empty().push(lines[0]) =~= lines);
        lemma_literals();
        lemma_no_break("expanded"@, value);
    }
}

/// The fields that a rule is written with.
spec fn rule_fields(rule: ProcessRule) -> Seq<Field> {
    seq![
        Field { field: "block_all"@, value: bool_word(rule.block_all) },
        Field { field: "limit_download"@, value: bool_word(rule.limit_download) },
        Field { field: "download_kbps"@, value: decimal(rule.download_kbps as nat) },
        Field { field: "limit_upload"@, value: bool_word(rule.limit_upload) },
        Field { field: "upload_kbps"@, value: decimal(rule.upload_kbps as nat) },
        Field { field: "adaptive"@, value: bool_word(rule.adaptive) },
    ]
}

/// The same, each with the name that the rule is for.
spec fn rule_assignments(name: Seq<char>, rule: ProcessRule) -> Seq<Assignment> {
    rule_fields(rule).map_values(
        |f: Field| Assignment { name, field: f.field, value: f.value },
    )
}

proof fn lemma_field_names()
    ensures
        "block_all"@.len() == 9,
        "limit_download"@.len() == 14,
        "download_kbps"@.len() == 13,
        "limit_upload"@.len() == 12,
        "upload_kbps"@.len() == 11,
        "adaptive"@.len() == 8,
        is_key("block_all"@),
        is_key("limit_download"@),
        is_key("download_kbps"@),
        is_key("limit_upload"@),
        is_key("upload_kbps"@),
        is_key("adaptive"@),
        lacks("block_all"@, '.'),
        lacks("limit_download"@, '.'),
        lacks("download_kbps"@, '.'),
        lacks("limit_upload"@, '.'),
        lacks("upload_kbps"@, '.'),
        lacks("adaptive"@, '.'),
{
    reveal_strlit("block_all");
    reveal_strlit("limit_download");
    reveal_strlit("download_kbps");
    reveal_strlit("limit_upload");
    reveal_strlit("upload_kbps");
    reveal_strlit("adaptive");
}

/// A rule's fields describe that rule.
proof fn lemma_rule_of_fields(rule: ProcessRule)
    requires
        rule.adjusted_dl_bps == 0,
        rule.adjusted_ul_bps == 0,
    ensures
        rule_of_fields(rule_fields(rule)) == rule,
{
    let all = rule_fields(rule);
    lemma_field_names();
    lemma_bool_read(rule.block_all);
    lemma_bool_read(rule.limit_download);
    lemma_bool_read(rule.limit_upload);
    lemma_bool_read(rule.adaptive);
    whole_number_of_decimal(rule.download_kbps as nat, u32::MAX as nat);
    whole_number_of_decimal(rule.upload_kbps as nat, u32::MAX as nat);
    lemma_last_value(all, 0);
    lemma_last_value(all, 1);
    lemma_last_value(all, 2);
    lemma_last_value(all, 3);
    lemma_last_value(all, 4);
    lemma_last_value(all, 5);
}

/// Where no later field has the same name, a field's value is the last one.
proof fn lemma_last_value(fields: Seq<Field>, i: int)
    requires
        0 <= i < fields.len(),
        forall|j: int| i < j < fields.len() ==> (#[trigger] fields[j]).field != fields[i].field,
    ensures
        last_value(fields, fields[i].field) == Some(fields[i].value),
    decreases fields.len(),
{
    if i < fields.len() - 1 {
        let init = fields.drop_last();
        assert(fields[fields.len() - 1].field != fields[i].field);
        assert forall|j: int| i < j < init.len() implies (#[trigger] init[j]).field
            != init[i].field by {
            assert(fields[j].field != fields[i].field);
        }
        lemma_last_value(init, i);
    }
}

proof fn lemma_value_ends(rule: ProcessRule, i: int)
    requires
        0 <= i < 6,
    ensures
        rule_fields(rule)[i].value.len() > 0,
        !is_space(rule_fields(rule)[i].value[0]),
        !is_space(rule_fields(rule)[i].value.last()),
        lacks(rule_fields(rule)[i].value, '\n'),
        lacks(rule_fields(rule)[i].value, '='),
        is_key(rule_fields(rule)[i].field),
        is_rule_field(rule_fields(rule)[i].field),
        lacks(rule_fields(rule)[i].field, '.'),
{
    lemma_field_names();
    lemma_bool_read(rule.block_all);
    lemma_bool_read(rule.limit_download);
    lemma_bool_read(rule.limit_upload);
    lemma_bool_read(rule.adaptive);
    let v = rule_fields(rule)[i].value;
    if i == 2 {
        decimal_reads_back(rule.download_kbps as nat);
    } else if i == 4 {
        decimal_reads_back(rule.upload_kbps as nat);
    }
    if i == 2 || i == 4 {
        assert forall|j: int| 0 <= j < v.len() implies #[trigger] v[j] != '\n' && v[j] != '=' by {
            assert(is_digit(v[j]));
        }
        assert(is_digit(v[0]));
        assert(is_digit(v[v.len() - 1]));
    }
}

/// A line of the global rule.
proof fn lemma_read_global_field(r: Reading, field: Seq<char>, value: Seq<char>)
    requires
        is_key(field),
        value.len() > 0,
        !is_space(value[0]),
        !is_space(value.last()),
        lacks(value, '\n'),
    ensures
        after_line(r, rule_line("global"@, field, value)) == (Reading {
            rules: r.rules.push(Assignment { name: Seq::empty(), field, value }),
            ..r
        }),
        lacks(rule_line("global"@, field, value), '\n'),
{
    lemma_literals();
    reveal_strlit("global");
    reveal_strlit("global.");
    let prefix = "global"@.push('.');
    let key = prefix + field;
    assert(prefix =~= "global."@);
    assert(key.take(7) =~= "global."@);
    assert(key.skip(7) =~= field);
    assert(key[0] == 'g');
    assert(key.last() == field.last());
    assert forall|i: int| 0 <= i < key.len() implies #[trigger] key[i] != '=' && key[i] != '\n' by {
        if i >= 7 {
            assert(key[i] == field[i - 7]);
        } else {
            assert(key[i] == "global."@[i]);
        }
    }
    assert(is_key(key));
    lemma_line_read(r, key, value);
    lemma_no_break(key, value);
}

/// What stands behind `rule.` in a line of a program's rule divides into its name, field and value.
proof fn lemma_rule_line_divides(name: Seq<char>, field: Seq<char>, value: Seq<char>)
    requires
        is_key(field),
        is_rule_field(field),
        lacks(field, '.'),
        lacks(value, '='),
    ensures
        ({
            let key = name.push('.') + field;
            let whole = key.push('=') + value;
            &&& split_behind_field(whole, whole.len()) == Some((key, value))
            &&& split_at_last(key, '.') == Some((name, field))
            &&& trimmed(field) == field
        }),
{
    let key = name.push('.') + field;
    let whole = key.push('=') + value;
    assert forall|i: int| name.len() + 1 <= i < key.len() implies key[i] != '.' by {
        assert(key[i] == field[i - 1 - name.len()]);
    }
    assert(key[name.len() as int] == '.');
    lemma_end_of_last(key, '.', name.len() + 1);
    assert(key.take(name.len() as int) =~= name);
    assert(key.skip(name.len() as int + 1) =~= field);
    lemma_trimmed_fixed(field);
    assert(whole.take(key.len() as int) =~= key);
    assert(whole.skip(key.len() as int + 1) =~= value);
    assert forall|i: int| key.len() < i < whole.len() implies whole[i] != '=' by {
        assert(whole[i] == value[i - key.len() - 1]);
    }
    lemma_split_behind_field(whole, key.len(), whole.len());
}

/// A line of the rule of a program.
proof fn lemma_read_rule_field(r: Reading, name: Seq<char>, field: Seq<char>, value: Seq<char>)
    requires
        is_keepable(name),
        is_key(field),
        is_rule_field(field),
        lacks(field, '.'),
        value.len() > 0,
        !is_space(value[0]),
        !is_space(value.last()),
        lacks(value, '\n'),
        lacks(value, '='),
    ensures
        after_line(r, rule_line("rule."@ + name, field, value)) == (Reading {
            rules: r.rules.push(Assignment { name, field, value }),
            ..r
        }),
        lacks(rule_line("rule."@ + name, field, value), '\n'),
{
    let key = ("rule."@ + name).push('.') + field;
    let line = setting_line(key, value);
    assert(line == rule_line("rule."@ + name, field, value));
    assert(begins_with(line, "rule."@) && line[0] == 'r' && line.skip("rule."@.len() as int)
        == (name.push('.') + field).push('=') + value && lacks("rule."@, '\n')) by {
        reveal_strlit("rule.");
        assert(line.take(5) =~= "rule."@);
        assert(line.skip(5) =~= (name.push('.') + field).push('=') + value);
    }
    assert(line.last() == value.last());
    lemma_trimmed_fixed(line);
    lemma_trimmed_fixed(value);
    lemma_rule_line_divides(name, field, value);
    let k = "rule."@.len();
    assert forall|i: int| 0 <= i < key.len() implies #[trigger] key[i] != '\n' by {
        if i < k {
            assert(key[i] == "rule."@[i]);
        } else if i < k + name.len() {
            assert(key[i] == name[i - k]);
        } else if i > k + name.len() {
            assert(key[i] == field[i - k - 1 - name.len()]);
        }
    }
    lemma_no_break(key, value);
}

/// The last equals sign divides a line where it stands behind a field's name.
proof fn lemma_split_behind_field(s: Seq<char>, at: nat, n: nat)
    requires
        at < n <= s.len(),
        s[at as int] == '=',
        ends_with_field(s.take(at as int)),
        forall|i: int| at < i < n ==> s[i] != '=',
    ensures
        split_behind_field(s, n) == Some((s.take(at as int), s.skip(at as int + 1))),
    decreases n,
{
    if at + 1 < n {
        lemma_split_behind_field(s, at, (n - 1) as nat);
    }
}

/// The lines of a rule, read one after the other.
proof fn lemma_read_rule(r: Reading, prefix: Seq<char>, name: Seq<char>, rule: ProcessRule)
    requires
        prefix == "global"@ && name.len() == 0 || prefix == "rule."@ + name && is_keepable(name)
            && rule.any(),
    ensures
        after_lines(r, rule_lines(prefix, rule)) == (Reading {
            rules: r.rules + rule_assignments(name, rule),
            ..r
        }),
        forall|i: int|
            0 <= i < rule_lines(prefix, rule).len() ==> lacks(
                #[trigger] rule_lines(prefix, rule)[i],
                '\n',
            ),
{
    let lines = rule_lines(prefix, rule);
    let fields = rule_fields(rule);
    assert forall|i: int| 0 <= i < 6 implies #[trigger] lines[i] == rule_line(
        prefix,
        fields[i].field,
        fields[i].value,
    ) by {}
    assert forall|i: int| 0 <= i < 6 implies lacks(#[trigger] lines[i], '\n') by {
        lemma_value_ends(rule, i);
        if name.len() == 0 {
            assert(name =~= Seq::<char>::empty());
            lemma_read_global_field(r, fields[i].field, fields[i].value);
        } else {
            lemma_read_rule_field(r, name, fields[i].field, fields[i].value);
        }
    }
    lemma_read_fields(r, prefix, name, rule, 6);
    assert(lines.take(6) =~= lines);
    assert(rule_assignments(name, rule).take(6) =~= rule_assignments(name, rule));
}

proof fn lemma_read_fields(
    r: Reading,
    prefix: Seq<char>,
    name: Seq<char>,
    rule: ProcessRule,
    n: int,
)
    requires
        prefix == "global"@ && name.len() == 0 || prefix == "rule."@ + name && is_keepable(name)
            && rule.any(),
        0 <= n <= 6,
    ensures
        after_lines(r, rule_lines(prefix, rule).take(n)) == (Reading {
            rules: r.rules + rule_assignments(name, rule).take(n),
            ..r
        }),
    decreases n,
{
    let lines = rule_lines(prefix, rule);
    let fields = rule_fields(rule);
    let all = rule_assignments(name, rule);
    if n == 0 {
        assert(r.rules + all.take(0) =~= r.rules);
    } else {
        lemma_read_fields(r, prefix, name, rule, n - 1);
        let before = after_lines(r, lines.take(n - 1));
        let (field, value) = (fields[n - 1].field, fields[n - 1].value);
        assert(lines[n - 1] == rule_line(prefix, field, value));
        lemma_value_ends(rule, n - 1);
        if name.len() == 0 {
            assert(name =~= Seq::<char>::empty());
            lemma_read_global_field(before, field, value);
        } else {
            lemma_read_rule_field(before, name, field, value);
        }
        lemma_after_push(r, lines.take(n - 1), lines[n - 1]);
        assert(lines.take(n - 1).push(lines[n - 1]) =~= lines.take(n));
        assert(all[n - 1] == Assignment { name, field, value });
        assert((r.rules + all.take(n - 1)).push(all[n - 1]) =~= r.rules + all.take(n));
    }
}

/// The rules of programs, each with its name, in the order of a list.
spec fn all_assignments(
    names: Seq<Seq<char>>,
    rules: Map<Seq<char>, ProcessRule>,
) -> Seq<Assignment>
    decreases names.len(),
{
    if names.len() == 0 {
        Seq::empty()
    } else {
        all_assignments(names.drop_last(), rules) + rule_assignments(
            names.last(),
            rules[names.last()],
        )
    }
}

proof fn lemma_read_named_rules(
    r: Reading,
    names: Seq<Seq<char>>,
    rules: Map<Seq<char>, ProcessRule>,
)
    requires
        forall|i: int|
            0 <= i < names.len() ==> is_keepable(#[trigger] names[i]) && rules[names[i]].any(),
    ensures
        after_lines(r, named_rule_lines(names, rules)) == (Reading {
            rules: r.rules + all_assignments(names, rules),
            ..r
        }),
        forall|i: int|
            0 <= i < named_rule_lines(names, rules).len() ==> lacks(
                #[trigger] named_rule_lines(names, rules)[i],
                '\n',
            ),
    decreases names.len(),
{
    let lines = named_rule_lines(names, rules);
    if names.len() == 0 {
        assert(r.rules + all_assignments(names, rules) =~= r.rules);
    } else {
        let init = names.drop_last();
        assert forall|i: int| 0 <= i < init.len() implies is_keepable(#[trigger] init[i])
            && rules[init[i]].any() by {
            assert(is_keepable(names[i]) && rules[names[i]].any());
        }
        lemma_read_named_rules(r, init, rules);
        let before = after_lines(r, named_rule_lines(init, rules));
        let name = names.last();
        assert(is_keepable(names[names.len() - 1]) && rules[names[names.len() - 1]].any());
        lemma_read_rule(before, "rule."@ + name, name, rules[name]);
        lemma_after_joined(
            r,
            named_rule_lines(init, rules),
            rule_lines("rule."@ + name, rules[name]),
        );
        assert(before.rules + rule_assignments(name, rules[name]) =~= r.rules + all_assignments(
            names,
            rules,
        ));
        let k = named_rule_lines(init, rules).len();
        assert forall|i: int| 0 <= i < lines.len() implies lacks(#[trigger] lines[i], '\n') by {
            if i < k {
                assert(lacks(named_rule_lines(init, rules)[i], '\n'));
            } else {
                assert(lacks(rule_lines("rule."@ + name, rules[name])[i - k], '\n'));
            }
        }
    }
}

proof fn lemma_fields_joined(a: Seq<Assignment>, b: Seq<Assignment>, name: Seq<char>)
    ensures
        fields_for(a + b, name) == fields_for(a, name) + fields_for(b, name),
    decreases b.len(),
{
    if b.len() == 0 {
        assert(a + b =~= a);
        assert(fields_for(a, name) + fields_for(b, name) =~= fields_for(a, name));
    } else {
        lemma_fields_joined(a, b.drop_last(), name);
        assert((a + b).drop_last() =~= a + b.drop_last());
        assert(fields_for(a + b, name) =~= fields_for(a, name) + fields_for(b, name));
    }
}

/// The fields for one name among lines that are all for `m`.
proof fn lemma_fields_alike(a: Seq<Assignment>, m: Seq<char>, name: Seq<char>)
    requires
        forall|i: int| 0 <= i < a.len() ==> (#[trigger] a[i]).name == m,
    ensures
        fields_for(a, name) == if m == name {
            a.map_values(|x: Assignment| Field { field: x.field, value: x.value })
        } else {
            Seq::empty()
        },
    decreases a.len(),
{
    let f = |x: Assignment| Field { field: x.field, value: x.value };
    if a.len() == 0 {
        assert(a.map_values(f) =~= Seq::<Field>::empty());
    } else {
        assert forall|i: int| 0 <= i < a.drop_last().len() implies (
        #[trigger] a.drop_last()[i]).name == m by {
            assert(a[i].name == m);
        }
        lemma_fields_alike(a.drop_last(), m, name);
        assert(a[a.len() - 1].name == m);
        assert(a.map_values(f) =~= a.drop_last().map_values(f).push(f(a.last())));
    }
}

proof fn lemma_fields_of_rule(m: Seq<char>, rule: ProcessRule, name: Seq<char>)
    ensures
        fields_for(rule_assignments(m, rule), name) == if m == name {
            rule_fields(rule)
        } else {
            Seq::empty()
        },
{
    let a = rule_assignments(m, rule);
    lemma_fields_alike(a, m, name);
    assert(a.map_values(|x: Assignment| Field { field: x.field, value: x.value }) =~= rule_fields(
        rule,
    ));
}

proof fn lemma_fields_named(
    names: Seq<Seq<char>>,
    rules: Map<Seq<char>, ProcessRule>,
    name: Seq<char>,
)
    requires
        increasing(names),
    ensures
        fields_for(all_assignments(names, rules), name) == if names.contains(name) {
            rule_fields(rules[name])
        } else {
            Seq::empty()
        },
        is_assigned(all_assignments(names, rules), name) == names.contains(name),
    decreases names.len(),
{
    let a = all_assignments(names, rules);
    if names.len() > 0 {
        let init = names.drop_last();
        let (head, tail) = (
            all_assignments(init, rules),
            rule_assignments(names.last(), rules[names.last()]),
        );
        lemma_fields_named(init, rules, name);
        lemma_fields_of_rule(names.last(), rules[names.last()], name);
        lemma_fields_joined(head, tail, name);
        assert(names[names.len() - 1] == names.last());
        assert(names.contains(name) == (init.contains(name) || names.last() == name)) by {
            if init.contains(name) {
                let i = choose|i: int| 0 <= i < init.len() && init[i] == name;
                assert(names[i] == name);
            }
            if names.contains(name) && names.last() != name {
                let i = choose|i: int| 0 <= i < names.len() && names[i] == name;
                assert(init[i] == name);
            }
        }
        if names.last() == name && init.contains(name) {
            let i = choose|i: int| 0 <= i < init.len() && init[i] == name;
            assert(text_less(names[i], names[names.len() - 1]));
            text_order_is_total(name, name);
        }
        assert(fields_for(a, name) =~= if names.contains(name) {
            rule_fields(rules[name])
        } else {
            Seq::empty()
        });
        lemma_assigned_joined(head, tail, name);
        assert(is_assigned(tail, name) == (names.last() == name)) by {
            assert(tail[0].name == names.last());
        }
    } else {
        assert(!is_assigned(a, name));
    }
}

proof fn lemma_assigned_joined(a: Seq<Assignment>, b: Seq<Assignment>, name: Seq<char>)
    ensures
        is_assigned(a + b, name) == (is_assigned(a, name) || is_assigned(b, name)),
{
    let whole = a + b;
    if is_assigned(a, name) {
        let i = choose|i: int| 0 <= i < a.len() && #[trigger] a[i].name == name;
        assert(whole[i].name == name);
    }
    if is_assigned(b, name) {
        let i = choose|i: int| 0 <= i < b.len() && #[trigger] b[i].name == name;
        assert(whole[a.len() + i].name == name);
    }
    if is_assigned(whole, name) {
        let i = choose|i: int| 0 <= i < whole.len() && #[trigger] whole[i].name == name;
        if i < a.len() {
            assert(a[i].name == name);
        } else {
            assert(b[i - a.len()].name == name);
        }
    }
}

proof fn lemma_lines_read(s: SettingsView)
    requires
        is_storable(s),
    ensures
        after_lines(start(), split(settings_text(s), '\n')) == (Reading {
            settings: SettingsView { expanded: s.expanded, ..bare(s) },
            rules: rule_assignments(Seq::empty(), s.global_rule) + all_assignments(
                in_alphabetical_order(s.name_rules.dom()),
                s.name_rules,
            ),
        }),
{
    let a = plain_lines(s);
    let b = expanded_lines(s.expanded);
    let c = rule_lines("global"@, s.global_rule);
    let names = in_alphabetical_order(s.name_rules.dom());
    let d = named_rule_lines(names, s.name_rules);
    let r1 = Reading { settings: bare(s), rules: Seq::empty() };
    let r2 = Reading { settings: SettingsView { expanded: s.expanded, ..bare(s) }, ..r1 };
    lemma_plain_lines(s);
    lemma_plain_lines_unbroken(s);
    lemma_expanded_lines(r1, s.expanded);
    lemma_read_rule(r2, "global"@, Seq::empty(), s.global_rule);
    let r3 = after_lines(r2, c);
    lemma_list_exists(s.name_rules.dom());
    assert forall|i: int| 0 <= i < names.len() implies is_keepable(#[trigger] names[i])
        && s.name_rules[names[i]].any() by {
        assert(names.to_set().contains(names[i]));
        assert(s.name_rules.contains_key(names[i]));
    }
    lemma_read_named_rules(r3, names, s.name_rules);
    lemma_after_joined(start(), a, b);
    lemma_after_joined(start(), a + b, c);
    lemma_after_joined(start(), a + b + c, d);
    let lines = setting_lines(s);
    assert forall|i: int| 0 <= i < lines.len() implies lacks(#[trigger] lines[i], '\n') by {
        if i < a.len() {
            assert(lines[i] == a[i]);
        } else if i < a.len() + b.len() {
            assert(lines[i] == b[i - a.len()]);
        } else if i < a.len() + b.len() + c.len() {
            assert(lines[i] == c[i - a.len() - b.len()]);
        } else {
            assert(lines[i] == d[i - a.len() - b.len() - c.len()]);
        }
    }
    lemma_split_lines(lines, Seq::empty());
    assert(settings_text(s) + Seq::<char>::empty() =~= settings_text(s));
    lemma_after_push(start(), lines, Seq::empty());
    assert(trimmed(Seq::<char>::empty()).len() == 0);
    let g = rule_assignments(Seq::empty(), s.global_rule);
    assert(r2.rules + g =~= g);
}

/// Saving settings and loading the text gives the same settings back.
pub proof fn saved_settings_load(s: SettingsView)
    requires
        is_storable(s),
    ensures
        settings_in(settings_text(s)) == s,
{
    let names = in_alphabetical_order(s.name_rules.dom());
    let g = rule_assignments(Seq::empty(), s.global_rule);
    let n = all_assignments(names, s.name_rules);
    lemma_lines_read(s);
    lemma_list_exists(s.name_rules.dom());
    let all = g + n;
    let none = Seq::<char>::empty();
    lemma_fields_joined(g, n, none);
    lemma_fields_of_rule(none, s.global_rule, none);
    lemma_fields_named(names, s.name_rules, none);
    assert(!names.contains(none)) by {
        if names.contains(none) {
            assert(names.to_set().contains(none));
            assert(s.name_rules.contains_key(none));
        }
    }
    assert(fields_for(all, none) =~= rule_fields(s.global_rule));
    lemma_rule_of_fields(s.global_rule);
    let found = rules_by_name(all);
    assert forall|name: Seq<char>| #[trigger]
        found.contains_key(name) == s.name_rules.contains_key(name) && (found.contains_key(name)
            ==> found[name] == s.name_rules[name]) by {
        lemma_fields_joined(g, n, name);
        lemma_fields_of_rule(none, s.global_rule, name);
        lemma_fields_named(names, s.name_rules, name);
        lemma_assigned_joined(g, n, name);
        assert(names.to_set().contains(name) == names.contains(name));
        if name.len() == 0 {
            assert(name =~= none);
        } else {
            assert(is_assigned(g, name) == false);
            assert(fields_for(all, name) =~= fields_for(n, name));
            if names.contains(name) {
                assert(s.name_rules.contains_key(name));
                lemma_rule_of_fields(s.name_rules[name]);
            }
        }
    }
    assert(found =~= s.name_rules);
    assert(settings_in(settings_text(s)) =~= s);
}

/// A name in printable ASCII without capital letters, and without a space at either end.
pub open spec fn is_plain_name(name: Seq<char>) -> bool {
    &&& name.len() > 0
    &&& name[0] != ' '
    &&& name.last() != ' '
    &&& forall|i: int|
        0 <= i < name.len() ==> ' ' <= #[trigger] name[i] <= '~' && !('A' <= name[i] <= 'Z')
}

/// The rule under a plain name can be kept, and one without a comma can be listed.
pub proof fn plain_names_are_storable(name: Seq<char>)
    requires
        is_plain_name(name),
    ensures
        is_keepable(name),
        lacks(name, ',') ==> is_listable(name),
{
    small_text_stays(name);
    assert(' ' <= name[0] <= '~');
    assert(' ' <= name[name.len() - 1] <= '~');
    lemma_trimmed_fixed(name);
}

/// Settings whose programs and groups have plain names come back as they were saved: the speed
/// unit, the IPv6 switch, the window's place, the expanded groups, the global rule, and every
/// program's rule, drafts with them.
pub proof fn plainly_named_settings_load(s: SettingsView)
    requires
        has_storable_values(s),
        forall|n: Seq<char>| #[trigger] s.name_rules.contains_key(n) ==> is_plain_name(n),
        forall|n: Seq<char>| #[trigger]
            s.expanded.contains(n) ==> is_plain_name(n) && lacks(n, ','),
    ensures
        settings_in(settings_text(s)) == s,
{
    assert forall|n: Seq<char>| #[trigger] s.name_rules.contains_key(n) implies is_keepable(n) by {
        plain_names_are_storable(n);
    }
    assert forall|n: Seq<char>| #[trigger] s.expanded.contains(n) implies is_listable(n) by {
        plain_names_are_storable(n);
    }
    saved_settings_load(s);
}

/// Bringing a size between its bounds gives a size between its bounds.
proof fn lemma_window_size(value: Seq<char>, before: Seq<char>, low: u64)
    requires
        low < MAX_WINDOW_SIZE,
        is_window_size(before, low),
    ensures
        is_window_size(window_size(value, before, low), low),
{
    decimal_reads_back(low as nat);
    read_decimal_of_digits(decimal(low as nat));
    decimal_reads_back(MAX_WINDOW_SIZE as nat);
    read_decimal_of_digits(decimal(MAX_WINDOW_SIZE as nat));
    lemma_number_words();
}

/// The words for what is no number, and for what is beyond all numbers, read as what they say.
proof fn lemma_number_words()
    ensures
        read_decimal("NaN"@) == Some((false, Magnitude::NotANumber)),
        read_decimal("inf"@) == Some((false, Magnitude::Infinite)),
        read_decimal("-inf"@) == Some((true, Magnitude::Infinite)),
{
    reveal_strlit("NaN");
    reveal_strlit("nan");
    reveal_strlit("inf");
    reveal_strlit("-inf");
    reveal_strlit("infinity");
    assert(ascii_lowercase("NaN"@) =~= "nan"@);
    assert(ascii_lowercase("inf"@) =~= "inf"@);
    assert(without_sign("-inf"@) =~= "inf"@);
    assert("nan"@[0] == 'n' && "inf"@[0] == 'i' && "infinity"@.len() == 8);
}

spec fn is_bounded(s: SettingsView) -> bool {
    &&& is_window_size(s.window_width, MIN_WINDOW_WIDTH)
    &&& is_window_size(s.window_height, MIN_WINDOW_HEIGHT)
    &&& is_window_position(s.window_x)
    &&& is_window_position(s.window_y)
}

/// What one setting can do to the window's size and position.
proof fn lemma_setting_changes(r: Reading, key: Seq<char>, value: Seq<char>)
    ensures
        ({
            let s = r.settings;
            let t = after_setting(r, key, value).settings;
            &&& t.window_width == s.window_width || t.window_width == window_size(
                value,
                s.window_width,
                MIN_WINDOW_WIDTH,
            )
            &&& t.window_height == s.window_height || t.window_height == window_size(
                value,
                s.window_height,
                MIN_WINDOW_HEIGHT,
            )
            &&& t.window_x == s.window_x || t.window_x == window_position(value, s.window_x)
            &&& t.window_y == s.window_y || t.window_y == window_position(value, s.window_y)
        }),
{
}

proof fn lemma_setting_keeps_bounds(r: Reading, key: Seq<char>, value: Seq<char>)
    requires
        is_bounded(r.settings),
    ensures
        is_bounded(after_setting(r, key, value).settings),
{
    lemma_setting_changes(r, key, value);
    let s = r.settings;
    let t = after_setting(r, key, value).settings;
    lemma_number_words();
    assert(is_window_size(t.window_width, MIN_WINDOW_WIDTH)) by {
        lemma_window_size(value, s.window_width, MIN_WINDOW_WIDTH);
    }
    assert(is_window_size(t.window_height, MIN_WINDOW_HEIGHT)) by {
        lemma_window_size(value, s.window_height, MIN_WINDOW_HEIGHT);
    }
}

proof fn lemma_lines_keep_bounds(r: Reading, lines: Seq<Seq<char>>)
    requires
        is_bounded(r.settings),
    ensures
        is_bounded(after_lines(r, lines).settings),
    decreases lines.len(),
{
    if lines.len() > 0 {
        lemma_lines_keep_bounds(r, lines.drop_last());
        let before = after_lines(r, lines.drop_last());
        let line = trimmed(lines.last());
        if let Some((key, value)) = split_at_first(line, '=') {
            lemma_setting_keeps_bounds(before, trimmed(key), trimmed(value));
        }
    }
}

proof fn lemma_default_is_bounded()
    ensures
        is_bounded(default_settings()),
{
    decimal_reads_back(DEFAULT_WINDOW_WIDTH as nat);
    read_decimal_of_digits(decimal(DEFAULT_WINDOW_WIDTH as nat));
    decimal_reads_back(DEFAULT_WINDOW_HEIGHT as nat);
    read_decimal_of_digits(decimal(DEFAULT_WINDOW_HEIGHT as nat));
    assert(is_window_position("-1"@)) by {
        reveal_strlit("-1");
        reveal_strlit("inf");
        reveal_strlit("infinity");
        reveal_strlit("nan");
        let one = seq!['1'];
        assert(without_sign("-1"@) =~= one);
        read_decimal_of_digits(one);
        assert(without_sign(one) == one);
        assert(ascii_lowercase(one).len() == 1);
    }
}

/// Whatever the text, the window's size comes out within its bounds and its position as numbers;
/// no rule is kept that says nothing, nor one without a name.
pub proof fn loaded_settings_are_bounded(contents: Seq<char>)
    ensures
        is_window_size(settings_in(contents).window_width, MIN_WINDOW_WIDTH),
        is_window_size(settings_in(contents).window_height, MIN_WINDOW_HEIGHT),
        is_window_position(settings_in(contents).window_x),
        is_window_position(settings_in(contents).window_y),
        forall|n: Seq<char>| #[trigger]
            settings_in(contents).name_rules.contains_key(n) ==> n.len() > 0 && settings_in(
                contents,
            ).name_rules[n].any(),
{
    lemma_default_is_bounded();
    lemma_lines_keep_bounds(start(), split(contents, '\n'));
}

/// The first settings are storable, so saving and loading them gives them back.
pub proof fn default_settings_are_storable()
    ensures
        is_storable(default_settings()),
{
    lemma_default_is_bounded();
}

/// A text with one more line.
pub open spec fn with_line(contents: Seq<char>, line: Seq<char>) -> Seq<char> {
    contents.push('\n') + line
}

/// What a text's lines say.
spec fn reading_of(contents: Seq<char>) -> Reading {
    after_lines(start(), split(contents, '\n'))
}

proof fn lemma_one_line_more(contents: Seq<char>, line: Seq<char>)
    requires
        lacks(line, '\n'),
    ensures
        reading_of(with_line(contents, line)) == after_line(reading_of(contents), line),
{
    split_of_joined(contents, line, '\n');
    lemma_split_whole(line, '\n');
    let lines = split(contents, '\n');
    assert(lines + seq![line] =~= lines.push(line));
    lemma_after_push(start(), lines, line);
}

/// A value as a line carries it: something, without white space at its ends, on one line.
pub open spec fn is_value(v: Seq<char>) -> bool {
    &&& v.len() > 0
    &&& !is_space(v[0])
    &&& !is_space(v.last())
    &&& lacks(v, '\n')
}

/// Whether a value says yes, in one of three ways.
pub open spec fn says_yes(v: Seq<char>) -> bool {
    v == "1"@ || v == "true"@ || v == "yes"@
}

/// One more line sets the one thing that its key names, whatever was said of it before, and leaves
/// everything else as it was: yes or no for a switch, a size within its bounds, a position, or the
/// groups that are open.
pub proof fn one_line_more_sets_one_thing(contents: Seq<char>, v: Seq<char>)
    requires
        is_value(v),
    ensures
        ({
            let s = settings_in(contents);
            &&& settings_in(with_line(contents, "speed_unit_bits"@.push('=') + v)) == (
            SettingsView { speed_unit_bits: says_yes(v), ..s })
            &&& settings_in(with_line(contents, "ipv6_enabled"@.push('=') + v)) == (SettingsView {
                ipv6_enabled: says_yes(v),
                ..s
            })
            &&& settings_in(with_line(contents, "window_maximized"@.push('=') + v)) == (
            SettingsView { window_maximized: says_yes(v), ..s })
            &&& settings_in(with_line(contents, "window_width"@.push('=') + v)) == (SettingsView {
                window_width: window_size(v, s.window_width, 900),
                ..s
            })
            &&& settings_in(with_line(contents, "window_height"@.push('=') + v)) == (SettingsView {
                window_height: window_size(v, s.window_height, 500),
                ..s
            })
            &&& settings_in(with_line(contents, "window_x"@.push('=') + v)) == (SettingsView {
                window_x: window_position(v, s.window_x),
                ..s
            })
            &&& settings_in(with_line(contents, "window_y"@.push('=') + v)) == (SettingsView {
                window_y: window_position(v, s.window_y),
                ..s
            })
            &&& settings_in(with_line(contents, "expanded"@.push('=') + v)) == (SettingsView {
                expanded: name_set(split(v, ',')),
                ..s
            })
        }),
{
    let r = reading_of(contents);
    lemma_literals();
    lemma_no_break("speed_unit_bits"@, v);
    lemma_one_line_more(contents, setting_line("speed_unit_bits"@, v));
    lemma_read_units(r, v);
    lemma_no_break("ipv6_enabled"@, v);
    lemma_one_line_more(contents, setting_line("ipv6_enabled"@, v));
    lemma_read_ipv6(r, v);
    lemma_no_break("window_maximized"@, v);
    lemma_one_line_more(contents, setting_line("window_maximized"@, v));
    lemma_read_maximized(r, v);
    lemma_no_break("window_width"@, v);
    lemma_one_line_more(contents, setting_line("window_width"@, v));
    lemma_read_width(r, v);
    lemma_no_break("window_height"@, v);
    lemma_one_line_more(contents, setting_line("window_height"@, v));
    lemma_read_height(r, v);
    lemma_no_break("window_x"@, v);
    lemma_one_line_more(contents, setting_line("window_x"@, v));
    lemma_read_x(r, v);
    lemma_no_break("window_y"@, v);
    lemma_one_line_more(contents, setting_line("window_y"@, v));
    lemma_read_y(r, v);
    lemma_no_break("expanded"@, v);
    lemma_one_line_more(contents, setting_line("expanded"@, v));
    lemma_read_expanded(r, v);
}

proof fn lemma_trimmed_lacks(s: Seq<char>, c: char)
    requires
        lacks(s, c),
    ensures
        lacks(trimmed(s), c),
{
    let (a, b) = crate::wording::trimming_takes_only_white_space(s);
    let t = trimmed(s);
    assert forall|i: int| 0 <= i < t.len() implies #[trigger] t[i] != c by {
        assert(s[a.len() + i] == t[i]);
    }
}

proof fn lemma_no_field_split(s: Seq<char>, n: nat)
    requires
        lacks(s, '='),
        n <= s.len(),
    ensures
        split_behind_field(s, n) is None,
    decreases n,
{
    if n > 0 {
        assert(s[n - 1] != '=');
        lemma_no_field_split(s, (n - 1) as nat);
    }
}

/// A line that is blank, begins with a number sign, or holds no equals sign says nothing.
pub proof fn some_lines_say_nothing(contents: Seq<char>, line: Seq<char>)
    requires
        lacks(line, '\n'),
        trimmed(line).len() == 0 || trimmed(line)[0] == '#' || lacks(line, '='),
    ensures
        settings_in(with_line(contents, line)) == settings_in(contents),
{
    lemma_one_line_more(contents, line);
    let t = trimmed(line);
    if lacks(line, '=') && t.len() > 0 && t[0] != '#' {
        lemma_trimmed_lacks(line, '=');
        if begins_with(t, "rule."@) {
            let rest = t.skip("rule."@.len() as int);
            assert forall|i: int| 0 <= i < rest.len() implies #[trigger] rest[i] != '=' by {
                assert(rest[i] == t["rule."@.len() + i]);
            }
            lemma_no_field_split(rest, rest.len());
        } else {
            crate::wording::texts_divide_at_the_first(t, '=');
            assert(!t.contains('='));
            if let Some((a, b)) = split_at_first(t, '=') {
                assert(t[a.len() as int] == '=');
            }
        }
    }
}

/// A key that names nothing says nothing.
pub proof fn unknown_keys_say_nothing(contents: Seq<char>, key: Seq<char>, v: Seq<char>)
    requires
        is_value(key),
        key[0] != '#',
        key[0] != 'r',
        lacks(key, '='),
        is_value(v),
        key != "speed_unit_bits"@,
        key != "ipv6_enabled"@,
        key != "window_width"@,
        key != "window_height"@,
        key != "window_x"@,
        key != "window_y"@,
        key != "window_maximized"@,
        key != "expanded"@,
        !begins_with(key, "global."@),
    ensures
        settings_in(with_line(contents, key.push('=') + v)) == settings_in(contents),
{
    lemma_no_break(key, v);
    lemma_one_line_more(contents, setting_line(key, v));
    lemma_line_read(reading_of(contents), key, v);
}

/// A rule with one field given as it is written: yes or no for a switch, and for a limit the number,
/// or zero where it is none.
pub open spec fn with_field(rule: ProcessRule, field: Seq<char>, v: Seq<char>) -> ProcessRule {
    let n = match crate::number::whole_number(v, u32::MAX as nat) {
        Some(n) => n as u32,
        None => 0,
    };
    if field == "block_all"@ {
        ProcessRule { block_all: says_yes(v), ..rule }
    } else if field == "limit_download"@ {
        ProcessRule { limit_download: says_yes(v), ..rule }
    } else if field == "download_kbps"@ {
        ProcessRule { download_kbps: n, ..rule }
    } else if field == "limit_upload"@ {
        ProcessRule { limit_upload: says_yes(v), ..rule }
    } else if field == "upload_kbps"@ {
        ProcessRule { upload_kbps: n, ..rule }
    } else if field == "adaptive"@ {
        ProcessRule { adaptive: says_yes(v), ..rule }
    } else {
        rule
    }
}

/// One more field sets the one thing that it names, whatever was given for it before, and an unknown
/// one sets nothing; without any field a rule holds nothing.
pub proof fn one_field_more_sets_one_thing(fields: Seq<Field>, field: Seq<char>, v: Seq<char>)
    ensures
        rule_of_fields(fields.push(Field { field, value: v })) == with_field(
            rule_of_fields(fields),
            field,
            v,
        ),
        rule_of_fields(Seq::empty()) == ProcessRule::none(),
{
    let more = fields.push(Field { field, value: v });
    assert(more.drop_last() =~= fields);
    lemma_field_names();
    assert forall|f: Seq<char>| #[trigger] last_value(more, f) == if f == field {
        Some(v)
    } else {
        last_value(fields, f)
    } by {}
    assert("block_all"@ != "limit_download"@ && "block_all"@ != "download_kbps"@ && "block_all"@
        != "limit_upload"@ && "block_all"@ != "upload_kbps"@ && "block_all"@ != "adaptive"@);
    assert("limit_download"@ != "download_kbps"@ && "limit_download"@ != "limit_upload"@
        && "limit_download"@ != "upload_kbps"@ && "limit_download"@ != "adaptive"@);
    assert("download_kbps"@ != "limit_upload"@ && "download_kbps"@ != "upload_kbps"@
        && "download_kbps"@ != "adaptive"@);
    assert("limit_upload"@ != "upload_kbps"@ && "limit_upload"@ != "adaptive"@ && "upload_kbps"@
        != "adaptive"@);
}

/// Whether `a` and `b` say the same of every name but `name`.
spec fn alike_but_for(a: Seq<Assignment>, b: Seq<Assignment>, name: Seq<char>) -> bool {
    forall|n: Seq<char>|
        n != name ==> #[trigger] fields_for(a, n) == fields_for(b, n) && is_assigned(a, n)
            == is_assigned(b, n)
}

proof fn lemma_one_assignment_more(
    rules: Seq<Assignment>,
    name: Seq<char>,
    field: Seq<char>,
    v: Seq<char>,
)
    ensures
        ({
            let more = rules.push(Assignment { name, field, value: v });
            &&& alike_but_for(more, rules, name)
            &&& fields_for(more, name) == fields_for(rules, name).push(Field { field, value: v })
            &&& is_assigned(more, name)
        }),
{
    let a = Assignment { name, field, value: v };
    let more = rules.push(a);
    assert(more.drop_last() =~= rules);
    assert(more[rules.len() as int] == a);
    assert forall|n: Seq<char>| n != name implies #[trigger] fields_for(more, n) == fields_for(
        rules,
        n,
    ) && is_assigned(more, n) == is_assigned(rules, n) by {
        if is_assigned(rules, n) {
            let i = choose|i: int| 0 <= i < rules.len() && #[trigger] rules[i].name == n;
            assert(more[i].name == n);
        }
        if is_assigned(more, n) {
            let i = choose|i: int| 0 <= i < more.len() && #[trigger] more[i].name == n;
            assert(rules[i].name == n);
        }
    }
}

proof fn lemma_unassigned(rules: Seq<Assignment>, name: Seq<char>)
    requires
        !is_assigned(rules, name),
    ensures
        fields_for(rules, name).len() == 0,
    decreases rules.len(),
{
    if rules.len() > 0 {
        let init = rules.drop_last();
        assert(rules[rules.len() - 1].name != name);
        if is_assigned(init, name) {
            let i = choose|i: int| 0 <= i < init.len() && #[trigger] init[i].name == name;
            assert(rules[i].name == name);
        }
        lemma_unassigned(init, name);
    }
}

/// A line about the rule for all traffic sets the field that it names, and nothing else.
pub proof fn lines_set_fields_of_the_global_rule(
    contents: Seq<char>,
    field: Seq<char>,
    v: Seq<char>,
)
    requires
        is_rule_field(field),
        is_value(v),
    ensures
        settings_in(with_line(contents, ("global."@ + field).push('=') + v)) == (SettingsView {
            global_rule: with_field(settings_in(contents).global_rule, field, v),
            ..settings_in(contents)
        }),
{
    let r = reading_of(contents);
    let none = Seq::<char>::empty();
    lemma_field_names();
    lemma_read_global_field(r, field, v);
    let line = rule_line("global"@, field, v);
    assert(line =~= ("global."@ + field).push('=') + v) by {
        reveal_strlit("global");
        reveal_strlit("global.");
        assert("global"@.push('.') =~= "global."@);
    }
    lemma_one_line_more(contents, line);
    lemma_one_assignment_more(r.rules, none, field, v);
    one_field_more_sets_one_thing(fields_for(r.rules, none), field, v);
    let more = r.rules.push(Assignment { name: none, field, value: v });
    assert(rules_by_name(more) =~= rules_by_name(r.rules)) by {
        assert forall|n: Seq<char>| n.len() > 0 implies fields_for(more, n) == fields_for(
            r.rules,
            n,
        ) && is_assigned(more, n) == is_assigned(r.rules, n) by {
            assert(n != none);
        }
    }
}

/// A line about a program's rule sets the field that it names; the rule is kept where it then says
/// anything. Other programs' rules, and everything else, stay as they were.
pub proof fn lines_set_fields_of_named_rules(
    contents: Seq<char>,
    name: Seq<char>,
    field: Seq<char>,
    v: Seq<char>,
    other: Seq<char>,
)
    requires
        is_keepable(name),
        is_rule_field(field),
        is_value(v),
        lacks(v, '='),
    ensures
        ({
            let s = settings_in(contents);
            let t = settings_in(
                with_line(contents, (("rule."@ + name).push('.') + field).push('=') + v),
            );
            let before = if s.name_rules.contains_key(name) {
                s.name_rules[name]
            } else {
                ProcessRule::none()
            };
            let rule = with_field(before, field, v);
            &&& t == (SettingsView { name_rules: t.name_rules, ..s })
            &&& t.name_rules.contains_key(name) == rule.any()
            &&& rule.any() ==> t.name_rules[name] == rule
            &&& other != name ==> t.name_rules.contains_key(other) == s.name_rules.contains_key(
                other,
            ) && (s.name_rules.contains_key(other) ==> t.name_rules[other] == s.name_rules[other])
        }),
{
    let r = reading_of(contents);
    lemma_field_names();
    lemma_read_rule_field(r, name, field, v);
    let line = rule_line("rule."@ + name, field, v);
    lemma_one_line_more(contents, line);
    lemma_one_assignment_more(r.rules, name, field, v);
    one_field_more_sets_one_thing(fields_for(r.rules, name), field, v);
    let more = r.rules.push(Assignment { name, field, value: v });
    let none = Seq::<char>::empty();
    assert(none != name);
    assert(fields_for(more, none) == fields_for(r.rules, none));
    if !is_assigned(r.rules, name) {
        lemma_unassigned(r.rules, name);
        assert(fields_for(r.rules, name) =~= Seq::<Field>::empty());
    }
    if other != name {
        assert(fields_for(more, other) == fields_for(r.rules, other));
    }
}

/// The open groups in a list are its pieces, in lower case and without white space around them; empty
/// pieces are none.
pub proof fn pieces_name_open_groups(pieces: Seq<Seq<char>>, name: Seq<char>)
    ensures
        name_set(pieces).contains(name) == exists|i: int|
            0 <= i < pieces.len() && trimmed(#[trigger] pieces[i]).len() > 0 && lowercase(
                trimmed(pieces[i]),
            ) == name,
    decreases pieces.len(),
{
    if pieces.len() > 0 {
        let init = pieces.drop_last();
        pieces_name_open_groups(init, name);
        assert forall|i: int| 0 <= i < init.len() implies init[i] == #[trigger] pieces[i] by {}
        if name_set(init).contains(name) {
            let i = choose|i: int|
                0 <= i < init.len() && trimmed(#[trigger] init[i]).len() > 0 && lowercase(
                    trimmed(init[i]),
                ) == name;
            assert(pieces[i] == init[i]);
        }
        assert(pieces.last() == pieces[pieces.len() - 1]);
    }
}

/// A size in whole pixels is taken as it is written where it lies between the bounds, and else is
/// brought to the nearer bound; what is no number changes nothing. A position in whole pixels is
/// taken as it is written.
pub proof fn sizes_are_brought_between_bounds(v: Seq<char>, before: Seq<char>, low: u64)
    requires
        v.len() > 0,
        forall|i: int| 0 <= i < v.len() ==> is_digit(#[trigger] v[i]),
        low <= 10_000,
    ensures
        ({
            let n = crate::number::value_of(v);
            &&& n < low ==> window_size(v, before, low) == decimal(low as nat)
            &&& low <= n < 10_000 ==> window_size(v, before, low) == v
            &&& n >= 10_000 ==> window_size(v, before, low) == decimal(10_000)
        }),
        window_position(v, before) == v,
        read_decimal(before) is None ==> window_size(before, v, low) == v && window_position(
            before,
            v,
        ) == v,
{
    read_decimal_of_digits(v);
}

/// A first run shows bits, looks at IPv6, opens a window of 1180 by 700 pixels wherever the system
/// puts it, and has no rule and no open group.
pub proof fn first_runs_start_plainly(name: Seq<char>)
    ensures
        ({
            let s = default_settings();
            &&& s.speed_unit_bits && s.ipv6_enabled && !s.window_maximized
            &&& s.window_width == decimal(1180) && s.window_height == decimal(700)
            &&& s.window_x == "-1"@ && s.window_y == "-1"@
            &&& s.global_rule == ProcessRule::none()
            &&& !s.name_rules.contains_key(name) && !s.expanded.contains(name)
        }),
        settings_in(Seq::empty()) == default_settings(),
{
    let empty = Seq::<char>::empty();
    lemma_split_whole(empty, '\n');
    assert(split(empty, '\n') =~= Seq::<Seq<char>>::empty().push(empty));
    lemma_after_push(start(), Seq::empty(), empty);
    assert(after_lines(start(), Seq::empty()) == start());
    assert(trimmed(empty).len() == 0);
    one_field_more_sets_one_thing(Seq::empty(), empty, empty);
    assert(rules_by_name(Seq::empty()) =~= Map::<Seq<char>, ProcessRule>::empty());
}

proof fn lemma_writes_zero(v: Seq<char>)
    requires
        forall|i: int| 0 <= i < v.len() ==> is_digit(#[trigger] v[i]),
    ensures
        writes_zero(v) == (forall|i: int| 0 <= i < v.len() ==> #[trigger] v[i] == '0'),
    decreases v.len(),
{
    if v.len() > 0 {
        let t = v.drop_first();
        assert(is_digit(v[0]));
        assert forall|i: int| 0 <= i < t.len() implies is_digit(#[trigger] t[i]) by {
            assert(is_digit(v[i + 1]));
        }
        lemma_writes_zero(t);
        if writes_zero(v) {
            assert forall|i: int| 0 <= i < v.len() implies #[trigger] v[i] == '0' by {
                if i > 0 {
                    assert(t[i - 1] == '0');
                }
            }
        }
        if forall|i: int| 0 <= i < v.len() ==> #[trigger] v[i] == '0' {
            assert(v[0] == '0');
            assert forall|i: int| 0 <= i < t.len() implies #[trigger] t[i] == '0' by {
                assert(v[i + 1] == '0');
            }
        }
    }
}

/// A whole number lies at or above zero unless it has a minus sign and a digit other than zero.
pub proof fn signs_tell_what_lies_below_zero(v: Seq<char>)
    requires
        v.len() > 0,
        forall|i: int| 0 <= i < v.len() ==> is_digit(#[trigger] v[i]),
    ensures
        is_at_least_zero(v),
        is_at_least_zero(seq!['-'] + v) == (forall|i: int|
            0 <= i < v.len() ==> #[trigger] v[i] == '0'),
{
    let below = seq!['-'] + v;
    assert(is_digit(v[0]));
    read_decimal_of_digits(v);
    assert(without_sign(v) == v);
    assert(without_sign(below) =~= v);
    assert(below.drop_first() =~= v);
    lemma_writes_zero(v);
    assert(writes_zero(below) == writes_zero(v));
}

/// A window is placed as it was left: maximised where it was, and else in its size, brought between
/// the bounds, and at its position where neither coordinate lies below zero. What is left of it is
/// its size in whole pixels, brought between the same bounds.
pub proof fn windows_are_placed_as_they_were_left(p: WindowPlacement, s: SettingsView, size: u32)
    requires
        is_placement(p, s),
    ensures
        p is Maximized == s.window_maximized,
        p matches WindowPlacement::Normal { width, height, position } ==> {
            &&& width@ == window_size(s.window_width, s.window_width, 900)
            &&& height@ == window_size(s.window_height, s.window_height, 500)
            &&& position is Some == (is_at_least_zero(s.window_x) && is_at_least_zero(s.window_y))
            &&& position matches Some((x, y)) ==> x@ == s.window_x && y@ == s.window_y
        },
        size < 900 ==> bounded_size(size, 900) == 900,
        size < 500 ==> bounded_size(size, 500) == 500,
        900 <= size <= 10_000 ==> bounded_size(size, 900) == size,
        500 <= size <= 10_000 ==> bounded_size(size, 500) == size,
        size > 10_000 ==> bounded_size(size, 900) == 10_000 && bounded_size(size, 500) == 10_000,
{
}

/// What is said of settings is said of the fields that bear its name.
pub proof fn settings_are_what_is_said_of_them(s: crate::settings::AppSettings)
    ensures
        s@.speed_unit_bits == s.speed_unit_bits && s@.ipv6_enabled == s.ipv6_enabled,
        s@.window_width == s.window_width@ && s@.window_height == s.window_height@,
        s@.window_x == s.window_x@ && s@.window_y == s.window_y@,
        s@.window_maximized == s.window_maximized,
        s@.global_rule == s.global_rule,
        s@.name_rules == s.name_rules@,
        s@.expanded == s.expanded@,
{
}

} // verus!
