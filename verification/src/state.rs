//! The state of the program: the table, what is selected, the rules, and what was measured.

use crate::engine::{
    after_command, after_commands, command_views, with_rule, with_rule_for, CommandView, EngineCommand,
    EngineSnapshot, EngineView,
};
use crate::names::{names_in, NameRules, NameSet};
use crate::number::{decimal, format_u64};
use crate::order::{sorted, sorting_keeps_items};
use crate::process::{describe_rows, described, ProcessDetails};
use crate::rate::{
    adaptive_rate, bytes_to_speed, compute_adaptive_rate, last_of, mean, smaller, speed_of_bytes,
    RollingAverage,
};
use crate::rows::{
    build_process_rows, copy_pids, group_speed, pid_order, row_views, sort_pids, speeds_of,
    sum_speed, table, KindView, ProcessInfo, ProcessRow, RowKind, RowView, SortColumn,
    SortDirection,
};
use crate::rule::{runtime, runtime_rule, Direction, GlobalRule, ProcessRule};
use crate::search::{
    groups_to_expand_for_search, hidden_answers, locate_in_rows, located, ProcessSearchLocate,
};
use crate::settings::{
    default_settings, in_alphabetical_order, lemma_in_alphabetical_order, AppSettings,
    SettingsView,
};
use crate::speed::{format_speed, limit_input, parse_limit_input, speed_text, SpeedUnit};
use crate::tcp::{connection_order, connections_for_pids, connections_of_all, TcpConnection};
use crate::text::{chars_of, lowercase, same_text, string_of, to_lowercase, trim, trimmed};
use std::collections::HashMap;
use vstd::prelude::*;

verus! {

broadcast use vstd::std_specs::hash::group_hash_axioms;

/// Within this many nanoseconds a second click on a row makes a double click.
pub const DOUBLE_CLICK: u64 = 400_000_000;

/// For this many nanoseconds after a limit is entered the table is left as it is.
pub const EDIT_PAUSE: u64 = 2_000_000_000;

/// How many seconds of traffic a speed is averaged over.
pub const SPEED_WINDOW: usize = 5;

/// What is selected in the table: a group by its key, a process by its number.
#[derive(Debug)]
pub enum RowSelection {
    Global,
    Group(String),
    Child(u32),
}

/// [`RowSelection`] with its text as characters.
pub enum SelectionView {
    Global,
    Group(Seq<char>),
    Child(u32),
}

impl View for RowSelection {
    type V = SelectionView;

    open spec fn view(&self) -> SelectionView {
        match self {
            RowSelection::Global => SelectionView::Global,
            RowSelection::Group(key) => SelectionView::Group(key@),
            RowSelection::Child(pid) => SelectionView::Child(*pid),
        }
    }
}

/// The selection that a row is.
pub open spec fn selection_of(kind: KindView) -> SelectionView {
    match kind {
        KindView::Global => SelectionView::Global,
        KindView::Group { process_name, .. } => SelectionView::Group(lowercase(process_name)),
        KindView::Child { pid, .. } => SelectionView::Child(pid),
    }
}

pub open spec fn selection_view(s: Option<RowSelection>) -> Option<SelectionView> {
    match s {
        Some(x) => Some(x@),
        None => None,
    }
}

impl RowSelection {
    /// The selection that a row is.
    pub fn from_kind(kind: &RowKind) -> (r: Self)
        ensures
            r@ == selection_of(kind@),
    {
        match kind {
            RowKind::Global => RowSelection::Global,
            RowKind::Group { process_name, .. } => RowSelection::Group(
                to_lowercase(process_name.as_str()),
            ),
            RowKind::Child { pid, .. } => RowSelection::Child(*pid),
        }
    }

    /// Whether two selections are the same.
    pub fn is_same(&self, other: &RowSelection) -> (r: bool)
        ensures
            r == (self@ == other@),
    {
        match (self, other) {
            (RowSelection::Global, RowSelection::Global) => true,
            (RowSelection::Group(a), RowSelection::Group(b)) => same_text(a.as_str(), b.as_str()),
            (RowSelection::Child(a), RowSelection::Child(b)) => *a == *b,
            _ => false,
        }
    }
}

impl Clone for RowSelection {
    fn clone(&self) -> (r: Self)
        ensures
            r@ == self@,
    {
        match self {
            RowSelection::Global => RowSelection::Global,
            RowSelection::Group(key) => RowSelection::Group(key.clone()),
            RowSelection::Child(pid) => RowSelection::Child(*pid),
        }
    }
}

/// What decides which rows the table has: the processes and the expanded groups.
#[derive(Debug)]
pub struct TableFingerprint {
    pub pids: Vec<u32>,
    pub expanded: Vec<String>,
}

/// [`TableFingerprint`] with its texts as characters.
#[verifier::ext_equal]
pub struct FingerprintView {
    pub pids: Seq<u32>,
    pub expanded: Seq<Seq<char>>,
}

impl View for TableFingerprint {
    type V = FingerprintView;

    open spec fn view(&self) -> FingerprintView {
        FingerprintView { pids: self.pids@, expanded: names_in(self.expanded@) }
    }
}

/// The numbers of processes.
pub open spec fn pids_of(ps: Seq<ProcessInfo>) -> Seq<u32> {
    ps.map_values(|p: ProcessInfo| p.pid)
}

/// The fingerprint of a table: process numbers in order, expanded groups in order.
pub open spec fn fingerprint(ps: Seq<ProcessInfo>, expanded: Set<Seq<char>>) -> FingerprintView {
    FingerprintView {
        pids: sorted(pids_of(ps), pid_order()),
        expanded: in_alphabetical_order(expanded),
    }
}

impl TableFingerprint {
    pub fn from_processes(processes: &Vec<ProcessInfo>, expanded: &NameSet) -> (r: Self)
        ensures
            r@ == fingerprint(processes@, expanded@),
    {
        let mut pids: Vec<u32> = Vec::new();
        let mut i: usize = 0;
        while i < processes.len()
            invariant
                i <= processes@.len(),
                pids@ == pids_of(processes@).take(i as int),
            decreases processes@.len() - i,
        {
            pids.push(processes[i].pid);
            assert(pids@ =~= pids_of(processes@).take(i + 1));
            i += 1;
        }
        assert(pids@ =~= pids_of(processes@));
        let names = expanded.sorted_names();
        proof {
            lemma_in_alphabetical_order(names_in(names@));
        }
        TableFingerprint { pids: sort_pids(pids), expanded: names }
    }

    /// Whether two fingerprints are the same.
    pub fn is_same(&self, other: &TableFingerprint) -> (r: bool)
        ensures
            r == (self@ == other@),
    {
        same_pids(&self.pids, &other.pids) && same_names(&self.expanded, &other.expanded)
    }
}

fn same_pids(a: &Vec<u32>, b: &Vec<u32>) -> (r: bool)
    ensures
        r == (a@ == b@),
{
    if a.len() != b.len() {
        return false;
    }
    let mut i: usize = 0;
    while i < a.len()
        invariant
            i <= a@.len(),
            a@.len() == b@.len(),
            forall|j: int| 0 <= j < i ==> a@[j] == b@[j],
        decreases a@.len() - i,
    {
        if a[i] != b[i] {
            return false;
        }
        i += 1;
    }
    assert(a@ =~= b@);
    true
}

fn same_names(a: &Vec<String>, b: &Vec<String>) -> (r: bool)
    ensures
        r == (names_in(a@) == names_in(b@)),
{
    let ghost (x, y) = (names_in(a@), names_in(b@));
    if a.len() != b.len() {
        assert(x.len() != y.len());
        return false;
    }
    let mut i: usize = 0;
    while i < a.len()
        invariant
            i <= a@.len(),
            a@.len() == b@.len(),
            x == names_in(a@),
            y == names_in(b@),
            forall|j: int| 0 <= j < i ==> x[j] == y[j],
        decreases a@.len() - i,
    {
        assert(x[i as int] == a@[i as int]@ && y[i as int] == b@[i as int]@);
        if !same_text(a[i].as_str(), b[i].as_str()) {
            return false;
        }
        i += 1;
    }
    assert(x =~= y);
    true
}

/// Tables with the same fingerprint have the same processes, however often each is listed.
pub proof fn fingerprint_tells_processes(
    a: Seq<ProcessInfo>,
    b: Seq<ProcessInfo>,
    x: Set<Seq<char>>,
    y: Set<Seq<char>>,
)
    requires
        fingerprint(a, x) == fingerprint(b, y),
    ensures
        pids_of(a).to_multiset() == pids_of(b).to_multiset(),
        in_alphabetical_order(x) == in_alphabetical_order(y),
{
    sorting_keeps_items(pids_of(a), pid_order());
    sorting_keeps_items(pids_of(b), pid_order());
}

/// The samples that a speed is averaged over, and how many of them count.
#[verifier::ext_equal]
pub struct History {
    pub samples: Seq<u64>,
    pub window: int,
}

/// A history without samples.
pub open spec fn no_history() -> History {
    History { samples: Seq::empty(), window: SPEED_WINDOW as int }
}

/// A history with one more sample.
pub open spec fn with_sample(h: History, sample: u64) -> History {
    History { samples: last_of(h.samples.push(sample), h.window), window: h.window }
}

/// The speed that a history shows.
pub open spec fn shown_speed(h: History) -> u64 {
    mean(h.samples) as u64
}

pub open spec fn history_of(r: RollingAverage) -> History {
    History { samples: r.samples(), window: r.window() }
}

pub open spec fn histories(m: Map<u32, RollingAverage>) -> Map<u32, History> {
    m.map_values(|r: RollingAverage| history_of(r))
}

/// What the program knows and shows.
#[derive(Debug)]
pub struct AppState {
    pub expanded: NameSet,
    pub rules: HashMap<u32, ProcessRule>,
    pub name_rules: NameRules,
    pub global_rule: GlobalRule,
    pub rows: Vec<ProcessRow>,
    pub dl_history: HashMap<u32, RollingAverage>,
    pub ul_history: HashMap<u32, RollingAverage>,
    pub speeds: HashMap<u32, (u64, u64)>,
    pub global_dl_history: RollingAverage,
    pub global_ul_history: RollingAverage,
    pub global_dl_bps: u64,
    pub global_ul_bps: u64,
    pub suppress_table_refresh_until: Option<u64>,
    pub limit_editing: bool,
    pub selected: Option<RowSelection>,
    pub speed_unit: SpeedUnit,
    pub ipv6_enabled: bool,
    pub last_row_click: Option<(i32, u64)>,
    pub table_fingerprint: TableFingerprint,
    pub computer_name: String,
    pub process_search: String,
    pub all_connections: Vec<TcpConnection>,
}

/// [`AppState`] with its collections as sequences, sets and maps.
#[verifier::ext_equal]
pub struct StateView {
    pub expanded: Set<Seq<char>>,
    pub rules: Map<u32, ProcessRule>,
    pub name_rules: Map<Seq<char>, ProcessRule>,
    pub global_rule: ProcessRule,
    pub rows: Seq<RowView>,
    pub dl_history: Map<u32, History>,
    pub ul_history: Map<u32, History>,
    pub speeds: Map<u32, (u64, u64)>,
    pub global_dl_history: History,
    pub global_ul_history: History,
    pub global_dl_bps: u64,
    pub global_ul_bps: u64,
    pub suppress_table_refresh_until: Option<u64>,
    pub limit_editing: bool,
    pub selected: Option<SelectionView>,
    pub speed_unit: SpeedUnit,
    pub ipv6_enabled: bool,
    pub last_row_click: Option<(i32, u64)>,
    pub table_fingerprint: FingerprintView,
    pub computer_name: Seq<char>,
    pub process_search: Seq<char>,
    pub all_connections: Seq<TcpConnection>,
}

impl View for AppState {
    type V = StateView;

    open spec fn view(&self) -> StateView {
        StateView {
            expanded: self.expanded@,
            rules: self.rules@,
            name_rules: self.name_rules@,
            global_rule: self.global_rule,
            rows: row_views(self.rows@),
            dl_history: histories(self.dl_history@),
            ul_history: histories(self.ul_history@),
            speeds: self.speeds@,
            global_dl_history: history_of(self.global_dl_history),
            global_ul_history: history_of(self.global_ul_history),
            global_dl_bps: self.global_dl_bps,
            global_ul_bps: self.global_ul_bps,
            suppress_table_refresh_until: self.suppress_table_refresh_until,
            limit_editing: self.limit_editing,
            selected: selection_view(self.selected),
            speed_unit: self.speed_unit,
            ipv6_enabled: self.ipv6_enabled,
            last_row_click: self.last_row_click,
            table_fingerprint: self.table_fingerprint@,
            computer_name: self.computer_name@,
            process_search: self.process_search@,
            all_connections: self.all_connections@,
        }
    }
}

/// The state of a program that has just read its settings.
pub open spec fn first_state(s: SettingsView, computer_name: Seq<char>) -> StateView {
    StateView {
        expanded: s.expanded,
        rules: Map::empty(),
        name_rules: s.name_rules,
        global_rule: s.global_rule,
        rows: Seq::empty(),
        dl_history: Map::empty(),
        ul_history: Map::empty(),
        speeds: Map::empty(),
        global_dl_history: no_history(),
        global_ul_history: no_history(),
        global_dl_bps: 0,
        global_ul_bps: 0,
        suppress_table_refresh_until: None,
        limit_editing: false,
        selected: None,
        speed_unit: if s.speed_unit_bits {
            SpeedUnit::Bits
        } else {
            SpeedUnit::Bytes
        },
        ipv6_enabled: s.ipv6_enabled,
        last_row_click: None,
        table_fingerprint: FingerprintView { pids: Seq::empty(), expanded: Seq::empty() },
        computer_name,
        process_search: Seq::empty(),
        all_connections: Seq::empty(),
    }
}

/// The settings that a state leaves: everything but the window, which is as at first.
pub open spec fn settings_of(s: StateView) -> SettingsView {
    SettingsView {
        speed_unit_bits: s.speed_unit == SpeedUnit::Bits,
        ipv6_enabled: s.ipv6_enabled,
        global_rule: s.global_rule,
        name_rules: s.name_rules,
        expanded: s.expanded,
        ..default_settings()
    }
}

/// A row by an index that may point nowhere; negative ones do.
pub open spec fn row_at(rows: Seq<RowView>, row_index: i32) -> Option<RowView> {
    if 0 <= row_index < rows.len() {
        Some(rows[row_index as int])
    } else {
        None
    }
}

/// Position of the first row at or after `from` that is selected.
pub open spec fn row_selected(
    rows: Seq<RowView>,
    selected: Option<SelectionView>,
    from: int,
) -> Option<int>
    decreases rows.len() - from,
{
    match selected {
        None => None,
        Some(s) => if from < 0 || from >= rows.len() {
            None
        } else if selection_of(rows[from].kind) == s {
            Some(from)
        } else {
            row_selected(rows, selected, from + 1)
        },
    }
}

/// Whether a click at `now` follows the last one on the same row soon enough.
pub open spec fn is_double_click(last: Option<(i32, u64)>, row_index: i32, now: u64) -> bool {
    match last {
        Some((index, at)) => index == row_index && now - at < DOUBLE_CLICK,
        None => false,
    }
}

impl AppState {
    pub fn new(settings: AppSettings, computer_name: String) -> (r: Self)
        ensures
            r@ == first_state(settings@, computer_name@),
    {
        let r = AppState {
            expanded: settings.expanded,
            rules: HashMap::new(),
            name_rules: settings.name_rules,
            global_rule: settings.global_rule,
            rows: Vec::new(),
            dl_history: HashMap::new(),
            ul_history: HashMap::new(),
            speeds: HashMap::new(),
            global_dl_history: RollingAverage::new(SPEED_WINDOW),
            global_ul_history: RollingAverage::new(SPEED_WINDOW),
            global_dl_bps: 0,
            global_ul_bps: 0,
            suppress_table_refresh_until: None,
            limit_editing: false,
            selected: None,
            speed_unit: SpeedUnit::from_bits_mode(settings.speed_unit_bits),
            ipv6_enabled: settings.ipv6_enabled,
            last_row_click: None,
            table_fingerprint: TableFingerprint { pids: Vec::new(), expanded: Vec::new() },
            computer_name,
            process_search: String::new(),
            all_connections: Vec::new(),
        };
        assert(r@ =~= first_state(settings@, computer_name@));
        r
    }

    /// Takes over the list of connections.
    pub fn refresh_connections(&mut self, connections: Vec<TcpConnection>)
        ensures
            final(self)@ == (StateView { all_connections: connections@, ..old(self)@ }),
    {
        self.all_connections = connections;
    }

    /// The connections of some processes, in the order in which they are shown.
    pub fn connections_for_pids(&self, pids: &Vec<u32>) -> (r: Vec<TcpConnection>)
        ensures
            r@ == sorted(
                connections_of_all(pids@, self@.all_connections),
                connection_order(),
            ),
    {
        connections_for_pids(pids, &self.all_connections)
    }

    pub fn set_speed_unit(&mut self, unit: SpeedUnit)
        ensures
            final(self)@ == (StateView { speed_unit: unit, ..old(self)@ }),
    {
        self.speed_unit = unit;
    }

    /// The settings to keep.
    pub fn to_settings(&self) -> (r: AppSettings)
        ensures
            r@ == settings_of(self@),
    {
        let mut r = AppSettings::default();
        r.speed_unit_bits = self.speed_unit.is_bits();
        r.ipv6_enabled = self.ipv6_enabled;
        r.global_rule = self.global_rule;
        r.name_rules = self.name_rules.clone();
        r.expanded = self.expanded.clone();
        r
    }

    /// Switches IPv6 on or off; tells whether that changed anything.
    pub fn set_ipv6_enabled(&mut self, enabled: bool) -> (r: bool)
        ensures
            r == (old(self)@.ipv6_enabled != enabled),
            final(self)@ == (StateView { ipv6_enabled: enabled, ..old(self)@ }),
    {
        if self.ipv6_enabled == enabled {
            return false;
        }
        self.ipv6_enabled = enabled;
        true
    }

    /// Selects a row, or nothing where the index points nowhere.
    pub fn select_row(&mut self, row_index: i32)
        ensures
            final(self)@ == (StateView {
                selected: match row_at(old(self)@.rows, row_index) {
                    Some(row) => Some(selection_of(row.kind)),
                    None => None,
                },
                ..old(self)@
            }),
    {
        self.selected = match self.find_row(row_index) {
            Some(i) => Some(RowSelection::from_kind(&self.rows[i].kind)),
            None => None,
        };
    }

    fn find_row(&self, row_index: i32) -> (r: Option<usize>)
        ensures
            match r {
                Some(i) => i == row_index && i < self.rows@.len() && row_at(self@.rows, row_index)
                    == Some(self.rows@[i as int]@),
                None => row_at(self@.rows, row_index) is None,
            },
    {
        if row_index < 0 {
            return None;
        }
        let i: u32 = row_index as u32;
        let n: usize = self.rows.len();
        if (i as u64) < n as u64 {
            Some(i as usize)
        } else {
            None
        }
    }

    /// Takes a click on a row; tells whether it makes a double click.
    pub fn handle_row_click(&mut self, row_index: i32, now: u64) -> (r: bool)
        ensures
            r == is_double_click(old(self)@.last_row_click, row_index, now),
            final(self)@ == (StateView {
                last_row_click: if r {
                    None
                } else {
                    Some((row_index, now))
                },
                ..old(self)@
            }),
    {
        if let Some((index, at)) = self.last_row_click {
            if index == row_index && (now < at || now - at < DOUBLE_CLICK) {
                self.last_row_click = None;
                return true;
            }
        }
        self.last_row_click = Some((row_index, now));
        false
    }

    pub fn clear_selection(&mut self)
        ensures
            final(self)@ == (StateView { selected: None, ..old(self)@ }),
    {
        self.selected = None;
    }

    /// Begins or ends the editing of a limit; beginning lifts a pause of the table.
    pub fn set_limit_editing(&mut self, editing: bool)
        ensures
            final(self)@ == (StateView {
                limit_editing: editing,
                suppress_table_refresh_until: if editing {
                    None
                } else {
                    old(self)@.suppress_table_refresh_until
                },
                ..old(self)@
            }),
    {
        self.limit_editing = editing;
        if editing {
            self.suppress_table_refresh_until = None;
        }
    }

    /// Whether the table may be built anew: no limit is being edited, and no pause is on.
    pub fn can_refresh_table(&self, now: u64) -> (r: bool)
        ensures
            r == (!self@.limit_editing && match self@.suppress_table_refresh_until {
                Some(deadline) => now >= deadline,
                None => true,
            }),
    {
        !self.limit_editing && match self.suppress_table_refresh_until {
            Some(deadline) => now >= deadline,
            None => true,
        }
    }

    /// Where the selected row stands in the table.
    pub fn selected_row(&self) -> (r: Option<usize>)
        ensures
            match r {
                Some(i) => row_selected(self@.rows, self@.selected, 0) == Some(i as int) && i
                    < self.rows@.len(),
                None => row_selected(self@.rows, self@.selected, 0) is None,
            },
    {
        let ghost all = self@.rows;
        match &self.selected {
            None => None,
            Some(selected) => {
                let mut i: usize = 0;
                while i < self.rows.len()
                    invariant
                        i <= self.rows@.len(),
                        all == row_views(self.rows@),
                        self@.selected == Some(selected@),
                        row_selected(all, self@.selected, 0) == row_selected(
                            all,
                            self@.selected,
                            i as int,
                        ),
                    decreases self.rows@.len() - i,
                {
                    assert(all[i as int] == self.rows@[i as int]@);
                    let found = RowSelection::from_kind(&self.rows[i].kind);
                    if found.is_same(selected) {
                        return Some(i);
                    }
                    i += 1;
                }
                None
            },
        }
    }

    /// The same as an index for the table's model: -1 where no row is selected.
    pub fn selected_row_index(&self) -> (r: i32)
        ensures
            match row_selected(self@.rows, self@.selected, 0) {
                Some(i) => i <= i32::MAX ==> r == i,
                None => r == -1,
            },
    {
        match self.selected_row() {
            Some(i) => #[verifier::truncate]
            (i as i32),
            None => -1,
        }
    }
}

/// A rule with one switch set; the switches are known by their names. Switching adaptation off
/// forgets the adjusted rates.
pub open spec fn with_switch(rule: ProcessRule, field: Seq<char>, value: bool) -> Option<
    ProcessRule,
> {
    if field == "limit_dl"@ {
        Some(ProcessRule { limit_download: value, ..rule })
    } else if field == "limit_ul"@ {
        Some(ProcessRule { limit_upload: value, ..rule })
    } else if field == "block"@ {
        Some(ProcessRule { block_all: value, ..rule })
    } else if field == "adaptive"@ {
        Some(
            if value {
                ProcessRule { adaptive: true, ..rule }
            } else {
                ProcessRule { adaptive: false, adjusted_dl_bps: 0, adjusted_ul_bps: 0, ..rule }
            },
        )
    } else {
        None
    }
}

fn set_switch(rule: ProcessRule, field: &str, value: bool) -> (r: Option<ProcessRule>)
    ensures
        r == with_switch(rule, field@, value),
{
    let mut rule = rule;
    if same_text(field, "limit_dl") {
        rule.limit_download = value;
    } else if same_text(field, "limit_ul") {
        rule.limit_upload = value;
    } else if same_text(field, "block") {
        rule.block_all = value;
    } else if same_text(field, "adaptive") {
        rule.adaptive = value;
        if !value {
            rule.adjusted_dl_bps = 0;
            rule.adjusted_ul_bps = 0;
        }
    } else {
        return None;
    }
    Some(rule)
}

/// A rule with another limit; the directions are known by their names.
pub open spec fn with_limit(rule: ProcessRule, direction: Seq<char>, kibps: u32) -> Option<
    ProcessRule,
> {
    if direction == "dl"@ {
        Some(ProcessRule { download_kbps: kibps, ..rule })
    } else if direction == "ul"@ {
        Some(ProcessRule { upload_kbps: kibps, ..rule })
    } else {
        None
    }
}

fn set_limit(rule: ProcessRule, direction: &str, kibps: u32) -> (r: Option<ProcessRule>)
    ensures
        r == with_limit(rule, direction@, kibps),
{
    let mut rule = rule;
    if same_text(direction, "dl") {
        rule.download_kbps = kibps;
    } else if same_text(direction, "ul") {
        rule.upload_kbps = kibps;
    } else {
        return None;
    }
    Some(rule)
}

/// The rules by name after one of them is set: a rule that says nothing is taken out.
pub open spec fn with_name_rule(
    rules: Map<Seq<char>, ProcessRule>,
    key: Seq<char>,
    rule: ProcessRule,
) -> Map<Seq<char>, ProcessRule> {
    if rule.any() {
        rules.insert(key, rule)
    } else {
        rules.remove(key)
    }
}

/// The state after a row is given a rule: a group's rule is kept under its name and given to each
/// of its processes.
pub open spec fn with_row_rule(s: StateView, kind: KindView, rule: ProcessRule) -> StateView {
    match kind {
        KindView::Global => StateView { global_rule: rule, ..s },
        KindView::Group { process_name, pids, .. } => StateView {
            name_rules: with_name_rule(s.name_rules, lowercase(process_name), rule),
            rules: with_rule_for(s.rules, pids, rule),
            ..s
        },
        KindView::Child { pid, .. } => StateView { rules: with_rule(s.rules, pid, rule), ..s },
    }
}

/// What the engine is told when a row is given a rule: the rule without its drafts.
pub open spec fn row_rule_command(kind: KindView, rule: ProcessRule) -> CommandView {
    match kind {
        KindView::Global => CommandView::SetGlobalRule(runtime(rule)),
        KindView::Group { pids, .. } => CommandView::UpdateRuleForPids(pids, runtime(rule)),
        KindView::Child { pid, .. } => CommandView::UpdateRule(pid, runtime(rule)),
    }
}

/// A new state and what the engine is told.
#[verifier::ext_equal]
pub struct Edit {
    pub state: StateView,
    pub commands: Seq<CommandView>,
}

/// No change.
pub open spec fn no_edit(s: StateView) -> Edit {
    Edit { state: s, commands: Seq::empty() }
}

/// A row is given a rule, if there is one to give.
pub open spec fn rule_edit(s: StateView, kind: KindView, rule: Option<ProcessRule>) -> Edit {
    match rule {
        Some(rule) => Edit {
            state: with_row_rule(s, kind, rule),
            commands: seq![row_rule_command(kind, rule)],
        },
        None => no_edit(s),
    }
}

/// The selected row.
pub open spec fn row_in_focus(s: StateView) -> Option<RowView> {
    match row_selected(s.rows, s.selected, 0) {
        Some(i) => Some(s.rows[i]),
        None => None,
    }
}

/// The state with the table left as it is for a while.
pub open spec fn paused(s: StateView, now: u64) -> StateView {
    StateView {
        suppress_table_refresh_until: Some(smaller(now + EDIT_PAUSE, u64::MAX as int) as u64),
        ..s
    }
}

/// A switch of a row is set: the row is selected, and given the rule.
pub open spec fn switch_edit(s: StateView, row_index: i32, field: Seq<char>, value: bool) -> Edit {
    match row_at(s.rows, row_index) {
        Some(row) => rule_edit(
            StateView { selected: Some(selection_of(row.kind)), ..s },
            row.kind,
            with_switch(row.rule, field, value),
        ),
        None => no_edit(s),
    }
}

/// A limit of a row is entered: if it reads as one, the row is selected, the table pauses, and the
/// row is given the rule.
pub open spec fn limit_edit(
    s: StateView,
    row_index: i32,
    direction: Seq<char>,
    text: Seq<char>,
    now: u64,
) -> Edit {
    match (row_at(s.rows, row_index), limit_input(text, s.speed_unit)) {
        (Some(row), Some(kibps)) => rule_edit(
            paused(StateView { selected: Some(selection_of(row.kind)), ..s }, now),
            row.kind,
            with_limit(row.rule, direction, kibps as u32),
        ),
        _ => no_edit(s),
    }
}

/// A switch of the selected row is set.
pub open spec fn selected_switch_edit(s: StateView, field: Seq<char>, value: bool) -> Edit {
    match row_in_focus(s) {
        Some(row) => rule_edit(s, row.kind, with_switch(row.rule, field, value)),
        None => no_edit(s),
    }
}

/// A limit of the selected row is entered.
pub open spec fn selected_limit_edit(
    s: StateView,
    direction: Seq<char>,
    text: Seq<char>,
    now: u64,
) -> Edit {
    match (row_in_focus(s), limit_input(text, s.speed_unit)) {
        (Some(row), Some(kibps)) => rule_edit(
            paused(s, now),
            row.kind,
            with_limit(row.rule, direction, kibps as u32),
        ),
        _ => no_edit(s),
    }
}

/// A group's row is opened or closed. Closing one whose process is selected selects the group.
pub open spec fn toggled(s: StateView, row_index: i32) -> StateView {
    match row_at(s.rows, row_index) {
        Some(row) => match row.kind {
            KindView::Group { process_name, pids, expanded, .. } => {
                let key = lowercase(process_name);
                if pids.len() <= 1 {
                    s
                } else if expanded {
                    StateView {
                        expanded: s.expanded.remove(key),
                        selected: match s.selected {
                            Some(SelectionView::Child(pid)) => if pids.contains(pid) {
                                Some(SelectionView::Group(key))
                            } else {
                                s.selected
                            },
                            _ => s.selected,
                        },
                        ..s
                    }
                } else {
                    StateView { expanded: s.expanded.insert(key), ..s }
                }
            },
            _ => s,
        },
        None => s,
    }
}

fn has_pid(pids: &Vec<u32>, pid: u32) -> (r: bool)
    ensures
        r == pids@.contains(pid),
{
    let mut i: usize = 0;
    while i < pids.len()
        invariant
            i <= pids@.len(),
            forall|j: int| 0 <= j < i ==> pids@[j] != pid,
        decreases pids@.len() - i,
    {
        if pids[i] == pid {
            assert(pids@[i as int] == pid);
            return true;
        }
        i += 1;
    }
    false
}

impl AppState {
    /// Opens or closes a group's row.
    pub fn toggle_row_expanded(&mut self, row_index: i32)
        ensures
            final(self)@ == toggled(old(self)@, row_index),
    {
        let kind = match self.find_row(row_index) {
            Some(i) => self.rows[i].kind.clone(),
            None => {
                return;
            },
        };
        match kind {
            RowKind::Group { process_name, pids, expanded, .. } => {
                if pids.len() <= 1 {
                    return;
                }
                let key = to_lowercase(process_name.as_str());
                if expanded {
                    self.expanded.remove(key.as_str());
                    let inside = match &self.selected {
                        Some(RowSelection::Child(pid)) => has_pid(&pids, *pid),
                        _ => false,
                    };
                    if inside {
                        self.selected = Some(RowSelection::Group(key));
                    }
                } else {
                    self.expanded.insert(key);
                }
            },
            _ => {},
        }
    }

    fn update_pid_rule(&mut self, pid: u32, rule: ProcessRule)
        ensures
            final(self)@ == (StateView {
                rules: with_rule(old(self)@.rules, pid, rule),
                ..old(self)@
            }),
    {
        if rule.has_any_rule() {
            self.rules.insert(pid, rule);
        } else {
            self.rules.remove(&pid);
        }
    }

    /// Gives a row a rule; the result is what the engine is to be told.
    pub fn apply_rule_to_row(&mut self, kind: &RowKind, rule: ProcessRule) -> (r: Vec<
        EngineCommand,
    >)
        ensures
            final(self)@ == with_row_rule(old(self)@, kind@, rule),
            command_views(r@) == seq![row_rule_command(kind@, rule)],
    {
        let mut commands: Vec<EngineCommand> = Vec::new();
        let effective = runtime_rule(&rule);
        match kind {
            RowKind::Global => {
                self.global_rule = rule;
                commands.push(EngineCommand::SetGlobalRule(effective));
            },
            RowKind::Group { process_name, pids, .. } => {
                let key = to_lowercase(process_name.as_str());
                if rule.has_any_rule() {
                    self.name_rules.insert(key, rule);
                } else {
                    self.name_rules.remove(key.as_str());
                }
                let ghost before = self@;
                let mut i: usize = 0;
                assert(pids@.take(0) =~= Seq::<u32>::empty());
                while i < pids.len()
                    invariant
                        i <= pids@.len(),
                        self@ == (StateView {
                            rules: with_rule_for(before.rules, pids@.take(i as int), rule),
                            ..before
                        }),
                    decreases pids@.len() - i,
                {
                    assert(pids@.take(i + 1).drop_last() =~= pids@.take(i as int));
                    self.update_pid_rule(pids[i], rule);
                    i += 1;
                }
                assert(pids@.take(i as int) =~= pids@);
                commands.push(EngineCommand::UpdateRuleForPids(copy_pids(pids), effective));
            },
            RowKind::Child { pid, .. } => {
                self.update_pid_rule(*pid, rule);
                commands.push(EngineCommand::UpdateRule(*pid, effective));
            },
        }
        assert(command_views(commands@) =~= seq![row_rule_command(kind@, rule)]);
        commands
    }

    fn give_rule(&mut self, kind: &RowKind, rule: Option<ProcessRule>) -> (r: Vec<EngineCommand>)
        ensures
            rule_edit(old(self)@, kind@, rule) == (Edit {
                state: final(self)@,
                commands: command_views(r@),
            }),
    {
        match rule {
            Some(rule) => self.apply_rule_to_row(kind, rule),
            None => {
                let commands: Vec<EngineCommand> = Vec::new();
                assert(command_views(commands@) =~= Seq::<CommandView>::empty());
                commands
            },
        }
    }

    fn pause_table(&mut self, now: u64)
        ensures
            final(self)@ == paused(old(self)@, now),
    {
        self.suppress_table_refresh_until = Some(now.saturating_add(EDIT_PAUSE));
    }

    /// Sets a switch of a row.
    pub fn edit_bool(&mut self, row_index: i32, field: &str, value: bool) -> (r: Vec<EngineCommand>)
        ensures
            switch_edit(old(self)@, row_index, field@, value) == (Edit {
                state: final(self)@,
                commands: command_views(r@),
            }),
    {
        match self.find_row(row_index) {
            Some(i) => {
                let row = self.rows[i].clone();
                self.selected = Some(RowSelection::from_kind(&row.kind));
                let rule = set_switch(row.rule, field, value);
                self.give_rule(&row.kind, rule)
            },
            None => {
                let commands: Vec<EngineCommand> = Vec::new();
                assert(command_views(commands@) =~= Seq::<CommandView>::empty());
                commands
            },
        }
    }

    /// Sets a switch of the selected row.
    pub fn edit_selected_bool(&mut self, field: &str, value: bool) -> (r: Vec<EngineCommand>)
        ensures
            selected_switch_edit(old(self)@, field@, value) == (Edit {
                state: final(self)@,
                commands: command_views(r@),
            }),
    {
        match self.selected_row() {
            Some(i) => {
                let row = self.rows[i].clone();
                let rule = set_switch(row.rule, field, value);
                self.give_rule(&row.kind, rule)
            },
            None => {
                let commands: Vec<EngineCommand> = Vec::new();
                assert(command_views(commands@) =~= Seq::<CommandView>::empty());
                commands
            },
        }
    }

    /// Enters a limit for the selected row.
    pub fn edit_selected_limit(&mut self, direction: &str, text: &str, now: u64) -> (r: Vec<
        EngineCommand,
    >)
        ensures
            selected_limit_edit(old(self)@, direction@, text@, now) == (Edit {
                state: final(self)@,
                commands: command_views(r@),
            }),
    {
        if let Some(i) = self.selected_row() {
            if let Some(kibps) = parse_limit_input(text, self.speed_unit) {
                let row = self.rows[i].clone();
                self.pause_table(now);
                let rule = set_limit(row.rule, direction, kibps);
                return self.give_rule(&row.kind, rule);
            }
        }
        let commands: Vec<EngineCommand> = Vec::new();
        assert(command_views(commands@) =~= Seq::<CommandView>::empty());
        commands
    }

    /// Enters a limit for a row.
    pub fn edit_row_limit(&mut self, row_index: i32, direction: &str, text: &str, now: u64) -> (r:
        Vec<EngineCommand>)
        ensures
            limit_edit(old(self)@, row_index, direction@, text@, now) == (Edit {
                state: final(self)@,
                commands: command_views(r@),
            }),
    {
        if let Some(i) = self.find_row(row_index) {
            if let Some(kibps) = parse_limit_input(text, self.speed_unit) {
                let row = self.rows[i].clone();
                self.selected = Some(RowSelection::from_kind(&row.kind));
                self.pause_table(now);
                let rule = set_limit(row.rule, direction, kibps);
                return self.give_rule(&row.kind, rule);
            }
        }
        let commands: Vec<EngineCommand> = Vec::new();
        assert(command_views(commands@) =~= Seq::<CommandView>::empty());
        commands
    }
}

/// Rules of processes, and what the engine is told of them.
#[verifier::ext_equal]
pub struct NamePass {
    pub rules: Map<u32, ProcessRule>,
    pub commands: Seq<CommandView>,
}

/// Every process whose name has a rule is given it; the engine is told of those that had none.
pub open spec fn name_pass(
    name_rules: Map<Seq<char>, ProcessRule>,
    rules: Map<u32, ProcessRule>,
    ps: Seq<ProcessInfo>,
) -> NamePass
    decreases ps.len(),
{
    if ps.len() == 0 {
        NamePass { rules, commands: Seq::empty() }
    } else {
        let before = name_pass(name_rules, rules, ps.drop_last());
        let key = lowercase(ps.last().name@);
        let pid = ps.last().pid;
        if name_rules.contains_key(key) {
            NamePass {
                rules: before.rules.insert(pid, name_rules[key]),
                commands: if before.rules.contains_key(pid) {
                    before.commands
                } else {
                    before.commands.push(CommandView::UpdateRule(pid, runtime(name_rules[key])))
                },
            }
        } else {
            before
        }
    }
}

/// Rules by name are given to processes; a running engine is told.
pub open spec fn name_edit(s: StateView, ps: Seq<ProcessInfo>, running: bool) -> Edit {
    let pass = name_pass(s.name_rules, s.rules, ps);
    Edit {
        state: StateView { rules: pass.rules, ..s },
        commands: if running {
            pass.commands
        } else {
            Seq::empty()
        },
    }
}

/// A row with the speeds measured last; the first row shows those of all traffic.
pub open spec fn with_speeds(s: StateView, i: int, row: RowView) -> RowView {
    if i == 0 {
        RowView { dl_bps: s.global_dl_bps, ul_bps: s.global_ul_bps, ..row }
    } else {
        match row.kind {
            KindView::Global => row,
            KindView::Group { pids, .. } => RowView {
                dl_bps: group_speed(pids, s.speeds, Direction::Download),
                ul_bps: group_speed(pids, s.speeds, Direction::Upload),
                ..row
            },
            KindView::Child { pid, .. } => RowView {
                dl_bps: speeds_of(s.speeds, pid).0,
                ul_bps: speeds_of(s.speeds, pid).1,
                ..row
            },
        }
    }
}

/// Rows with the speeds measured last.
pub open spec fn rows_with_speeds(s: StateView, rows: Seq<RowView>) -> Seq<RowView> {
    Seq::new(rows.len(), |i: int| with_speeds(s, i, rows[i]))
}

/// The state with its table built from a list of processes.
pub open spec fn with_table(s: StateView, ps: Seq<ProcessInfo>) -> StateView {
    StateView {
        rows: rows_with_speeds(
            s,
            table(
                ps,
                s.expanded,
                s.rules,
                s.speeds,
                s.global_rule,
                SortColumn::Process,
                SortDirection::Ascending,
            ),
        ),
        ..s
    }
}

/// Rules by name are given out, the table is built, and its fingerprint taken.
pub open spec fn rebuild_edit(s: StateView, ps: Seq<ProcessInfo>, running: bool) -> Edit {
    let named = name_edit(s, ps, running);
    Edit {
        state: StateView {
            table_fingerprint: fingerprint(ps, s.expanded),
            ..with_table(named.state, ps)
        },
        commands: named.commands,
    }
}

/// The table once a second: built anew only where its fingerprint changed, else only its speeds.
pub open spec fn refresh_edit(
    s: StateView,
    connections: Seq<TcpConnection>,
    ps: Seq<ProcessInfo>,
    running: bool,
) -> Edit {
    let linked = StateView { all_connections: connections, ..s };
    if fingerprint(ps, s.expanded) != s.table_fingerprint {
        rebuild_edit(linked, ps, running)
    } else {
        let named = name_edit(linked, ps, running);
        Edit {
            state: StateView { rows: rows_with_speeds(s, s.rows), ..named.state },
            commands: named.commands,
        }
    }
}

impl AppState {
    /// Gives processes the rules kept under their names; the result is what the engine is to be
    /// told.
    pub fn apply_name_rules_from(&mut self, processes: &Vec<ProcessInfo>, running: bool) -> (r: Vec<
        EngineCommand,
    >)
        ensures
            name_edit(old(self)@, processes@, running) == (Edit {
                state: final(self)@,
                commands: command_views(r@),
            }),
    {
        let ghost start = self@;
        let mut commands: Vec<EngineCommand> = Vec::new();
        let mut i: usize = 0;
        assert(command_views(commands@) =~= Seq::<CommandView>::empty());
        while i < processes.len()
            invariant
                i <= processes@.len(),
                start == old(self)@,
                self@ == (StateView {
                    rules: name_pass(
                        start.name_rules,
                        start.rules,
                        processes@.take(i as int),
                    ).rules,
                    ..start
                }),
                command_views(commands@) == if running {
                    name_pass(start.name_rules, start.rules, processes@.take(i as int)).commands
                } else {
                    Seq::empty()
                },
            decreases processes@.len() - i,
        {
            assert(processes@.take(i + 1).drop_last() =~= processes@.take(i as int));
            let ghost told = command_views(commands@);
            let key = to_lowercase(processes[i].name.as_str());
            match self.name_rules.get(key.as_str()) {
                None => {},
                Some(rule) => {
                    let pid: u32 = processes[i].pid;
                    let former = self.rules.insert(pid, rule);
                    if running && former.is_none() {
                        commands.push(EngineCommand::UpdateRule(pid, runtime_rule(&rule)));
                        assert(command_views(commands@) =~= told.push(
                            CommandView::UpdateRule(pid, runtime(rule)),
                        ));
                    }
                },
            }
            i += 1;
        }
        assert(processes@.take(i as int) =~= processes@);
        commands
    }

    /// Shows the speeds measured last.
    pub fn refresh_row_speeds(&mut self)
        ensures
            final(self)@ == (StateView {
                rows: rows_with_speeds(old(self)@, old(self)@.rows),
                ..old(self)@
            }),
    {
        let ghost start = self@;
        let ghost n = self.rows@.len();
        let mut rows: Vec<ProcessRow> = Vec::new();
        std::mem::swap(&mut rows, &mut self.rows);
        let mut i: usize = 0;
        assert(row_views(rows@) == start.rows);
        let ghost goal = rows_with_speeds(start, start.rows);
        while i < rows.len()
            invariant
                i <= rows@.len(),
                rows@.len() == start.rows.len(),
                self.speeds@ == start.speeds,
                self.global_dl_bps == start.global_dl_bps,
                self.global_ul_bps == start.global_ul_bps,
                goal == rows_with_speeds(start, start.rows),
                forall|j: int| 0 <= j < i ==> #[trigger] rows@[j]@ == goal[j],
                forall|j: int| i <= j < rows@.len() ==> #[trigger] rows@[j]@ == start.rows[j],
            decreases rows@.len() - i,
        {
            let (dl, ul) = if i == 0 {
                (self.global_dl_bps, self.global_ul_bps)
            } else {
                match &rows[i].kind {
                    RowKind::Group { pids, .. } => (
                        sum_speed(pids, &self.speeds, Direction::Download),
                        sum_speed(pids, &self.speeds, Direction::Upload),
                    ),
                    RowKind::Child { pid, .. } => match self.speeds.get(pid) {
                        Some(pair) => *pair,
                        None => (0u64, 0u64),
                    },
                    RowKind::Global => (rows[i].dl_bps, rows[i].ul_bps),
                }
            };
            let mut row = rows[i].clone();
            row.dl_bps = dl;
            row.ul_bps = ul;
            assert(row@ == goal[i as int]);
            rows.set(i, row);
            i += 1;
        }
        assert(row_views(rows@) =~= goal);
        self.rows = rows;
    }

    /// Builds the table.
    pub fn rebuild_rows_from(&mut self, processes: &Vec<ProcessInfo>)
        ensures
            final(self)@ == with_table(old(self)@, processes@),
    {
        self.rows = build_process_rows(
            processes,
            &self.expanded,
            &self.rules,
            &self.speeds,
            self.global_rule,
            SortColumn::Process,
            SortDirection::Ascending,
        );
        self.refresh_row_speeds();
    }

    /// Gives the table's rows the names and paths of their programs, where they are known.
    pub fn describe_rows(&mut self, details: &HashMap<u32, ProcessDetails>)
        ensures
            final(self)@ == (StateView {
                rows: old(self)@.rows.map_values(|row: RowView| described(row, details@)),
                ..old(self)@
            }),
    {
        let rows = describe_rows(&self.rows, details);
        self.rows = rows;
    }

    /// Builds the table anew from what runs.
    pub fn rebuild_rows(&mut self, processes: &Vec<ProcessInfo>, running: bool) -> (r: Vec<
        EngineCommand,
    >)
        ensures
            rebuild_edit(old(self)@, processes@, running) == (Edit {
                state: final(self)@,
                commands: command_views(r@),
            }),
    {
        let commands = self.apply_name_rules_from(processes, running);
        self.rebuild_rows_from(processes);
        self.table_fingerprint = TableFingerprint::from_processes(processes, &self.expanded);
        commands
    }

    /// Brings the table up to date; tells whether it was built anew, and what the engine is to be
    /// told.
    pub fn refresh_table(
        &mut self,
        connections: Vec<TcpConnection>,
        processes: &Vec<ProcessInfo>,
        running: bool,
    ) -> (r: (bool, Vec<EngineCommand>))
        ensures
            refresh_edit(old(self)@, connections@, processes@, running) == (Edit {
                state: final(self)@,
                commands: command_views(r.1@),
            }),
            r.0 == (fingerprint(processes@, old(self)@.expanded) != old(self)@.table_fingerprint),
    {
        self.refresh_connections(connections);
        let fresh = TableFingerprint::from_processes(processes, &self.expanded);
        if fresh.is_same(&self.table_fingerprint) {
            let commands = self.apply_name_rules_from(processes, running);
            self.refresh_row_speeds();
            assert(self@.rows =~= rows_with_speeds(old(self)@, old(self)@.rows));
            (false, commands)
        } else {
            (true, self.rebuild_rows(processes, running))
        }
    }
}

/// The keys of a map, each once.
pub(crate) fn keys_of<V>(m: &HashMap<u32, V>) -> (r: Vec<u32>)
    ensures
        r@.no_duplicates(),
        forall|k: u32| #[trigger] r@.contains(k) <==> m@.contains_key(k),
{
    let mut out: Vec<u32> = Vec::new();
    let ghost all = vstd::std_specs::iter::IteratorSpec::remaining(&m.keys()).unref();
    for k in it: m.keys()
        invariant
            it.seq().unref() == all,
            out@ == all.take(it.index()),
    {
        out.push(*k);
    }
    assert(out@ =~= all);
    assert(out@.to_set() =~= m@.dom());
    assert forall|k: u32| #[trigger] out@.contains(k) <==> m@.contains_key(k) by {
        assert(out@.to_set().contains(k) <==> out@.contains(k));
    }
    out
}

proof fn lemma_one_more(s: Seq<u32>, i: int, x: u32)
    requires
        0 <= i < s.len(),
    ensures
        s.take(i + 1).contains(x) == (s.take(i).contains(x) || s[i] == x),
{
    let (a, b) = (s.take(i), s.take(i + 1));
    if a.contains(x) {
        let j = choose|j: int| 0 <= j < a.len() && a[j] == x;
        assert(b[j] == x);
    }
    if b.contains(x) && s[i] != x {
        let j = choose|j: int| 0 <= j < b.len() && b[j] == x;
        assert(a[j] == x);
    }
    assert(b[i] == s[i]);
}

/// A rule that has forgotten its adjusted rates.
pub open spec fn unadjusted(rule: ProcessRule) -> ProcessRule {
    ProcessRule { adjusted_dl_bps: 0, adjusted_ul_bps: 0, ..rule }
}

/// The state of a program whose engine has stopped: no rate is adjusted.
pub open spec fn stopped(s: StateView) -> StateView {
    StateView {
        rules: s.rules.map_values(|rule: ProcessRule| unadjusted(rule)),
        global_rule: unadjusted(s.global_rule),
        ..s
    }
}

/// What the engine knows once it is told all rules: of each process that has one, its rule
/// without drafts, if that says anything; of the others what it knew.
pub open spec fn told_rules(
    known: Map<u32, ProcessRule>,
    rules: Map<u32, ProcessRule>,
) -> Map<u32, ProcessRule> {
    Map::new(
        |p: u32|
            if rules.contains_key(p) {
                runtime(rules[p]).any()
            } else {
                known.contains_key(p)
            },
        |p: u32|
            if rules.contains_key(p) {
                runtime(rules[p])
            } else {
                known[p]
            },
    )
}

/// The engine once it is told all rules.
pub open spec fn told_all(e: EngineView, s: StateView) -> EngineView {
    EngineView {
        rules: told_rules(e.rules, s.rules),
        global_rule: runtime(s.global_rule),
        ..e
    }
}

proof fn lemma_after_one_more(e: EngineView, commands: Seq<CommandView>, c: CommandView)
    ensures
        after_commands(e, commands.push(c)) == after_command(after_commands(e, commands), c),
{
    assert(commands.push(c).drop_last() =~= commands);
}

/// What the engine is told: a command, in front of which stand others.
fn tell(commands: &mut Vec<EngineCommand>, command: EngineCommand)
    ensures
        command_views(final(commands)@) == command_views(old(commands)@).push(command@),
{
    let ghost before = command_views(commands@);
    commands.push(command);
    assert(command_views(commands@) =~= before.push(command@));
}

impl AppState {
    /// Forgets adjusted rates, the engine having stopped.
    pub fn stop(&mut self)
        ensures
            final(self)@ == stopped(old(self)@),
    {
        let keys = keys_of(&self.rules);
        let ghost before = self.rules@;
        let mut i: usize = 0;
        while i < keys.len()
            invariant
                i <= keys@.len(),
                before == old(self)@.rules,
                forall|k: u32| #[trigger] keys@.contains(k) <==> before.contains_key(k),
                self@ == (StateView { rules: self.rules@, ..old(self)@ }),
                self.rules@.dom() == before.dom(),
                forall|k: u32| #[trigger]
                    before.contains_key(k) ==> self.rules@[k] == if keys@.take(
                        i as int,
                    ).contains(k) {
                        unadjusted(before[k])
                    } else {
                        before[k]
                    },
            decreases keys@.len() - i,
        {
            let pid: u32 = keys[i];
            assert(keys@.contains(pid));
            proof {
                assert forall|k: u32| #[trigger]
                    keys@.take(i + 1).contains(k) == (keys@.take(i as int).contains(k) || k
                        == pid) by {
                    lemma_one_more(keys@, i as int, k);
                }
            }
            match self.rules.get(&pid) {
                Some(rule) => {
                    let mut rule: ProcessRule = *rule;
                    rule.adjusted_dl_bps = 0;
                    rule.adjusted_ul_bps = 0;
                    self.rules.insert(pid, rule);
                },
                None => {},
            }
            assert(self.rules@.dom() =~= before.dom());
            i += 1;
        }
        self.global_rule.adjusted_dl_bps = 0;
        self.global_rule.adjusted_ul_bps = 0;
        proof {
            assert(keys@.take(i as int) =~= keys@);
            assert(self.rules@ =~= before.map_values(|rule: ProcessRule| unadjusted(rule)));
        }
    }

    /// Forgets every rule, the program being about to end; the result is what the engine is to be
    /// told.
    pub fn full_exit(&mut self) -> (r: Vec<EngineCommand>)
        ensures
            final(self)@ == (StateView {
                rules: Map::empty(),
                global_rule: ProcessRule::none(),
                ..old(self)@
            }),
            command_views(r@) == seq![CommandView::ClearRules],
    {
        let mut commands: Vec<EngineCommand> = Vec::new();
        tell(&mut commands, EngineCommand::ClearRules);
        assert(command_views(commands@) =~= seq![CommandView::ClearRules]);
        self.rules = HashMap::new();
        self.global_rule = ProcessRule::default();
        self.stop();
        assert(self@.rules =~= Map::<u32, ProcessRule>::empty());
        commands
    }

    /// What an engine is told that is about to start: every rule.
    pub fn push_all_rules(&self) -> (r: Vec<EngineCommand>)
        ensures
            forall|e: EngineView| #[trigger]
                after_commands(e, command_views(r@)) == told_all(e, self@),
    {
        let mut commands: Vec<EngineCommand> = Vec::new();
        let ghost none = command_views(commands@);
        tell(&mut commands, EngineCommand::SetGlobalRule(runtime_rule(&self.global_rule)));
        let keys = keys_of(&self.rules);
        let ghost rules = self.rules@;
        let ghost global = runtime(self.global_rule);
        let mut i: usize = 0;
        proof {
            assert(none =~= Seq::<CommandView>::empty());
            assert forall|e: EngineView| #[trigger]
                after_commands(e, command_views(commands@)) == (EngineView {
                    rules: told_rules(e.rules, rules.restrict(keys@.take(0).to_set())),
                    global_rule: global,
                    ..e
                }) by {
                lemma_after_one_more(e, none, CommandView::SetGlobalRule(global));
                assert(rules.restrict(keys@.take(0).to_set()) =~= Map::<u32, ProcessRule>::empty());
                assert(told_rules(e.rules, Map::<u32, ProcessRule>::empty()) =~= e.rules);
            }
        }
        while i < keys.len()
            invariant
                i <= keys@.len(),
                rules == self.rules@,
                keys@.no_duplicates(),
                forall|k: u32| #[trigger] keys@.contains(k) <==> rules.contains_key(k),
                forall|e: EngineView| #[trigger]
                    after_commands(e, command_views(commands@)) == (EngineView {
                        rules: told_rules(e.rules, rules.restrict(keys@.take(i as int).to_set())),
                        global_rule: global,
                        ..e
                    }),
            decreases keys@.len() - i,
        {
            let pid: u32 = keys[i];
            assert(keys@.contains(pid));
            let rule: ProcessRule = match self.rules.get(&pid) {
                Some(rule) => *rule,
                None => ProcessRule::default(),
            };
            let ghost before = command_views(commands@);
            let effective = runtime_rule(&rule);
            tell(&mut commands, EngineCommand::UpdateRule(pid, effective));
            proof {
                let (done, more) = (
                    rules.restrict(keys@.take(i as int).to_set()),
                    rules.restrict(keys@.take(i + 1).to_set()),
                );
                assert forall|k: u32| #[trigger]
                    more.contains_key(k) == (done.contains_key(k) || k == pid) by {
                    lemma_one_more(keys@, i as int, k);
                }
                assert(!done.contains_key(pid)) by {
                    if keys@.take(i as int).contains(pid) {
                        let j = choose|j: int| 0 <= j < i && keys@.take(i as int)[j] == pid;
                        assert(keys@[j] == keys@[i as int]);
                    }
                }
                assert forall|e: EngineView| #[trigger]
                    after_commands(e, command_views(commands@)) == (EngineView {
                        rules: told_rules(e.rules, more),
                        global_rule: global,
                        ..e
                    }) by {
                    lemma_after_one_more(e, before, CommandView::UpdateRule(pid, effective));
                    assert(with_rule(told_rules(e.rules, done), pid, effective) =~= told_rules(
                        e.rules,
                        more,
                    ));
                }
            }
            i += 1;
        }
        proof {
            assert(rules.restrict(keys@.take(i as int).to_set()) =~= rules) by {
                assert(keys@.take(i as int) =~= keys@);
                assert forall|k: u32| rules.contains_key(k) implies keys@.to_set().contains(k) by {
                    assert(keys@.contains(k));
                }
            }
        }
        commands
    }
}

/// A rule whose rate in one direction was adjusted by what was measured; without a limit in that
/// direction nothing is adjusted.
pub open spec fn steered(rule: ProcessRule, direction: Direction, measured: u64) -> ProcessRule {
    match rule.target(direction) {
        Some(target) => rule.with_adjusted(
            direction,
            adaptive_rate(rule.adjusted(direction) as int, measured as int, target as int) as u64,
        ),
        None => rule,
    }
}

/// A rule whose rates were adjusted by what was measured, if it adapts.
pub open spec fn fed_back(rule: ProcessRule, measured: (u64, u64)) -> ProcessRule {
    if rule.adaptive {
        steered(
            steered(rule, Direction::Download, measured.0),
            Direction::Upload,
            measured.1,
        )
    } else {
        rule
    }
}

/// Whether feedback changes anything about a rule that the engine must hear of.
pub open spec fn is_steered(rule: ProcessRule) -> bool {
    rule.adaptive && (rule.target(Direction::Download) is Some || rule.target(
        Direction::Upload,
    ) is Some)
}

/// The state after feedback.
pub open spec fn after_feedback(s: StateView) -> StateView {
    StateView {
        global_rule: fed_back(s.global_rule, (s.global_dl_bps, s.global_ul_bps)),
        rules: Map::new(
            |p: u32| s.rules.contains_key(p),
            |p: u32| fed_back(s.rules[p], speeds_of(s.speeds, p)),
        ),
        ..s
    }
}

/// The engine once it is told what feedback changed.
pub open spec fn told_feedback(e: EngineView, s: StateView) -> EngineView {
    let after = after_feedback(s);
    EngineView {
        global_rule: if is_steered(s.global_rule) {
            after.global_rule
        } else {
            e.global_rule
        },
        rules: Map::new(
            |p: u32|
                e.rules.contains_key(p) || (s.rules.contains_key(p) && is_steered(s.rules[p])),
            |p: u32|
                if s.rules.contains_key(p) && is_steered(s.rules[p]) {
                    after.rules[p]
                } else {
                    e.rules[p]
                },
        ),
        ..e
    }
}

fn steer(rule: ProcessRule, direction: Direction, measured: u64) -> (r: (ProcessRule, bool))
    ensures
        r.0 == steered(rule, direction, measured),
        r.1 == (rule.target(direction) is Some),
{
    let mut rule = rule;
    match rule.target_bps(direction) {
        None => (rule, false),
        Some(target) => {
            let current: u64 = match direction {
                Direction::Download => rule.adjusted_dl_bps,
                Direction::Upload => rule.adjusted_ul_bps,
            };
            let adjusted = compute_adaptive_rate(current, measured, target);
            match direction {
                Direction::Download => {
                    rule.adjusted_dl_bps = adjusted;
                },
                Direction::Upload => {
                    rule.adjusted_ul_bps = adjusted;
                },
            }
            (rule, true)
        },
    }
}

/// The rules that feedback leaves while only some processes have had their turn.
spec fn partly_fed(s: StateView, done: Set<u32>) -> Map<u32, ProcessRule> {
    Map::new(
        |p: u32| s.rules.contains_key(p),
        |p: u32|
            if done.contains(p) {
                fed_back(s.rules[p], speeds_of(s.speeds, p))
            } else {
                s.rules[p]
            },
    )
}

/// What the engine was told while only some processes have had their turn.
spec fn partly_told(e: EngineView, s: StateView, done: Set<u32>) -> EngineView {
    EngineView {
        global_rule: told_feedback(e, s).global_rule,
        rules: Map::new(
            |p: u32|
                e.rules.contains_key(p) || (done.contains(p) && s.rules.contains_key(p)
                    && is_steered(s.rules[p])),
            |p: u32|
                if done.contains(p) && s.rules.contains_key(p) && is_steered(s.rules[p]) {
                    fed_back(s.rules[p], speeds_of(s.speeds, p))
                } else {
                    e.rules[p]
                },
        ),
        ..e
    }
}

impl AppState {
    fn adjust_global(
        &mut self,
        direction: Direction,
        measured_bps: u64,
        commands: &mut Vec<EngineCommand>,
    )
        ensures
            final(self)@ == (StateView {
                global_rule: steered(old(self)@.global_rule, direction, measured_bps),
                ..old(self)@
            }),
            command_views(final(commands)@) == if old(self)@.global_rule.target(
                direction,
            ) is Some {
                command_views(old(commands)@).push(
                    CommandView::SetGlobalRule(
                        steered(old(self)@.global_rule, direction, measured_bps),
                    ),
                )
            } else {
                command_views(old(commands)@)
            },
    {
        let (rule, changed) = steer(self.global_rule, direction, measured_bps);
        self.global_rule = rule;
        if changed {
            tell(commands, EngineCommand::SetGlobalRule(rule));
        }
    }

    fn adjust_pid(
        &mut self,
        pid: u32,
        direction: Direction,
        measured_bps: u64,
        commands: &mut Vec<EngineCommand>,
    )
        requires
            old(self)@.rules.contains_key(pid),
        ensures
            final(self)@ == (StateView {
                rules: old(self)@.rules.insert(
                    pid,
                    steered(old(self)@.rules[pid], direction, measured_bps),
                ),
                ..old(self)@
            }),
            command_views(final(commands)@) == if old(self)@.rules[pid].target(
                direction,
            ) is Some {
                command_views(old(commands)@).push(
                    CommandView::UpdateRule(
                        pid,
                        steered(old(self)@.rules[pid], direction, measured_bps),
                    ),
                )
            } else {
                command_views(old(commands)@)
            },
    {
        let rule: ProcessRule = match self.rules.get(&pid) {
            Some(rule) => *rule,
            None => ProcessRule::default(),
        };
        let (rule, changed) = steer(rule, direction, measured_bps);
        self.rules.insert(pid, rule);
        if changed {
            tell(commands, EngineCommand::UpdateRule(pid, rule));
        }
    }

    /// Adjusts the rates of rules that adapt; the result is what the engine is to be told.
    pub fn run_adaptive_feedback(&mut self) -> (r: Vec<EngineCommand>)
        ensures
            final(self)@ == after_feedback(old(self)@),
            forall|e: EngineView| #[trigger]
                after_commands(e, command_views(r@)) == told_feedback(e, old(self)@),
    {
        let ghost s = self@;
        let mut commands: Vec<EngineCommand> = Vec::new();
        let ghost none = command_views(commands@);
        assert(none =~= Seq::<CommandView>::empty());
        if self.global_rule.adaptive {
            let (dl, ul) = (self.global_dl_bps, self.global_ul_bps);
            self.adjust_global(Direction::Download, dl, &mut commands);
            let ghost one = command_views(commands@);
            self.adjust_global(Direction::Upload, ul, &mut commands);
            proof {
                let a = steered(s.global_rule, Direction::Download, dl);
                let b = steered(a, Direction::Upload, ul);
                assert forall|e: EngineView| #[trigger]
                    after_commands(e, command_views(commands@)) == (EngineView {
                        global_rule: told_feedback(e, s).global_rule,
                        ..e
                    }) by {
                    lemma_after_one_more(e, none, CommandView::SetGlobalRule(a));
                    lemma_after_one_more(e, one, CommandView::SetGlobalRule(b));
                }
            }
        }
        let keys = keys_of(&self.rules);
        let mut i: usize = 0;
        proof {
            let nobody = keys@.take(0).to_set();
            assert(partly_fed(s, nobody) =~= s.rules);
            assert forall|e: EngineView| #[trigger]
                after_commands(e, command_views(commands@)) == partly_told(e, s, nobody) by {
                assert(partly_told(e, s, nobody).rules =~= e.rules);
            }
        }
        while i < keys.len()
            invariant
                i <= keys@.len(),
                keys@.no_duplicates(),
                s == old(self)@,
                forall|k: u32| #[trigger] keys@.contains(k) <==> s.rules.contains_key(k),
                self@ == (StateView {
                    global_rule: fed_back(s.global_rule, (s.global_dl_bps, s.global_ul_bps)),
                    rules: partly_fed(s, keys@.take(i as int).to_set()),
                    ..s
                }),
                forall|e: EngineView| #[trigger]
                    after_commands(e, command_views(commands@)) == partly_told(
                        e,
                        s,
                        keys@.take(i as int).to_set(),
                    ),
            decreases keys@.len() - i,
        {
            let pid: u32 = keys[i];
            assert(keys@.contains(pid));
            let ghost (done, more) = (
                keys@.take(i as int).to_set(),
                keys@.take(i + 1).to_set(),
            );
            proof {
                assert forall|k: u32| #[trigger] more.contains(k) == (done.contains(k) || k == pid) by {
                    lemma_one_more(keys@, i as int, k);
                }
                assert(!done.contains(pid)) by {
                    if keys@.take(i as int).contains(pid) {
                        let j = choose|j: int| 0 <= j < i && keys@.take(i as int)[j] == pid;
                        assert(keys@[j] == keys@[i as int]);
                    }
                }
            }
            let rule: ProcessRule = match self.rules.get(&pid) {
                Some(rule) => *rule,
                None => ProcessRule::default(),
            };
            assert(rule == s.rules[pid]);
            if rule.adaptive {
                let (dl, ul) = match self.speeds.get(&pid) {
                    Some(pair) => *pair,
                    None => (0u64, 0u64),
                };
                let ghost zero = command_views(commands@);
                self.adjust_pid(pid, Direction::Download, dl, &mut commands);
                let ghost one = command_views(commands@);
                self.adjust_pid(pid, Direction::Upload, ul, &mut commands);
                proof {
                    let a = steered(rule, Direction::Download, dl);
                    let b = steered(a, Direction::Upload, ul);
                    assert(a.any() && b.any());
                    assert forall|e: EngineView| #[trigger]
                        after_commands(e, command_views(commands@)) == partly_told(e, s, more) by {
                        lemma_after_one_more(e, zero, CommandView::UpdateRule(pid, a));
                        lemma_after_one_more(e, one, CommandView::UpdateRule(pid, b));
                        let before = partly_told(e, s, done);
                        assert(after_commands(e, zero) == before);
                        if is_steered(rule) {
                            assert(before.rules.insert(pid, a).insert(pid, b)
                                =~= partly_told(e, s, more).rules);
                            assert(before.rules.insert(pid, b) =~= partly_told(e, s, more).rules);
                            assert(b == a || rule.target(Direction::Upload) is Some);
                        } else {
                            assert(before.rules =~= partly_told(e, s, more).rules);
                        }
                    }
                    assert(self@.rules =~= partly_fed(s, more));
                }
            } else {
                proof {
                    assert(self@.rules =~= partly_fed(s, more));
                    assert forall|e: EngineView| #[trigger]
                        after_commands(e, command_views(commands@)) == partly_told(e, s, more) by {
                        assert(partly_told(e, s, done).rules =~= partly_told(e, s, more).rules);
                    }
                }
            }
            i += 1;
        }
        proof {
            let all = keys@.take(i as int).to_set();
            assert(keys@.take(i as int) =~= keys@);
            assert forall|k: u32| all.contains(k) == s.rules.contains_key(k) by {
                assert(keys@.contains(k) == s.rules.contains_key(k));
            }
            assert(partly_fed(s, all) =~= after_feedback(s).rules);
            assert forall|e: EngineView| #[trigger]
                after_commands(e, command_views(commands@)) == told_feedback(e, s) by {
                assert(partly_told(e, s, all).rules =~= told_feedback(e, s).rules);
            }
        }
        commands
    }
}

/// What a tick reports: whether the engine runs, and what the status bar says.
#[derive(Debug)]
pub struct TickStatus {
    pub running: bool,
    pub text: String,
}

/// A history, or one without samples.
pub open spec fn history_or_none(m: Map<u32, History>, pid: u32) -> History {
    if m.contains_key(pid) {
        m[pid]
    } else {
        no_history()
    }
}

/// Whether a process is followed: it has passed traffic before or now, or has a rule.
pub open spec fn is_followed(s: StateView, counts: Map<u32, (u64, u64)>, pid: u32) -> bool {
    ||| counts.contains_key(pid)
    ||| s.dl_history.contains_key(pid)
    ||| s.ul_history.contains_key(pid)
    ||| s.rules.contains_key(pid)
}

/// The speed of a process in the last second; none where it passed no traffic.
pub open spec fn last_speed(counts: Map<u32, (u64, u64)>, pid: u32, direction: Direction) -> u64 {
    if counts.contains_key(pid) {
        match direction {
            Direction::Download => speed_of_bytes(counts[pid].0 as int) as u64,
            Direction::Upload => speed_of_bytes(counts[pid].1 as int) as u64,
        }
    } else {
        0
    }
}

/// A process's history after one more second.
pub open spec fn next_history(
    m: Map<u32, History>,
    counts: Map<u32, (u64, u64)>,
    pid: u32,
    direction: Direction,
) -> History {
    with_sample(history_or_none(m, pid), last_speed(counts, pid, direction))
}

/// The state after one more second of traffic: every process that is followed has one more
/// sample, and speeds are the averages.
pub open spec fn measured(
    s: StateView,
    counts: Map<u32, (u64, u64)>,
    download: u64,
    upload: u64,
) -> StateView {
    let dl = with_sample(s.global_dl_history, speed_of_bytes(download as int) as u64);
    let ul = with_sample(s.global_ul_history, speed_of_bytes(upload as int) as u64);
    StateView {
        dl_history: Map::new(
            |p: u32| is_followed(s, counts, p),
            |p: u32| next_history(s.dl_history, counts, p, Direction::Download),
        ),
        ul_history: Map::new(
            |p: u32| is_followed(s, counts, p),
            |p: u32| next_history(s.ul_history, counts, p, Direction::Upload),
        ),
        speeds: Map::new(
            |p: u32| is_followed(s, counts, p),
            |p: u32|
                (
                    shown_speed(next_history(s.dl_history, counts, p, Direction::Download)),
                    shown_speed(next_history(s.ul_history, counts, p, Direction::Upload)),
                ),
        ),
        global_dl_history: dl,
        global_ul_history: ul,
        global_dl_bps: shown_speed(dl),
        global_ul_bps: shown_speed(ul),
        ..s
    }
}

/// The state after a tick.
pub open spec fn ticked(s: StateView, snapshot: EngineSnapshot) -> StateView {
    let m = measured(
        s,
        snapshot.per_pid@,
        snapshot.global_download_bytes,
        snapshot.global_upload_bytes,
    );
    if snapshot.running {
        after_feedback(m)
    } else {
        m
    }
}

/// What the status bar says.
pub open spec fn status_text(s: StateView, snapshot: EngineSnapshot) -> Seq<char> {
    if snapshot.running {
        "Interceptor running   v "@ + speed_text(s.global_dl_bps as nat, s.speed_unit)
            + "   ^ "@ + speed_text(s.global_ul_bps as nat, s.speed_unit)
            + "   |   Packets: "@ + decimal(snapshot.packets_processed as nat)
            + "   Dropped: "@ + decimal(snapshot.packets_dropped as nat)
    } else {
        "Interceptor stopped"@
    }
}

proof fn lemma_shown_speed(h: History)
    ensures
        0 <= mean(h.samples) <= u64::MAX,
{
    crate::rate::lemma_total_bound(h.samples);
    let n = h.samples.len() as int;
    let t = crate::rate::total(h.samples) as int;
    if n > 0 {
        assert(0 <= t / n <= u64::MAX) by (nonlinear_arith)
            requires
                0 <= t <= n * u64::MAX,
                n > 0,
        ;
    }
}

/// Takes a history out of a map, adds a sample, and puts it back; the result is the average.
fn add_sample(m: &mut HashMap<u32, RollingAverage>, pid: u32, sample: u64) -> (r: u64)
    ensures
        histories(final(m)@) == histories(old(m)@).insert(
            pid,
            with_sample(history_or_none(histories(old(m)@), pid), sample),
        ),
        r == shown_speed(with_sample(history_or_none(histories(old(m)@), pid), sample)),
{
    let mut history = match m.remove(&pid) {
        Some(h) => h,
        None => RollingAverage::new(SPEED_WINDOW),
    };
    history.push(sample);
    let speed = history.average();
    proof {
        lemma_shown_speed(history_of(history));
    }
    m.insert(pid, history);
    assert(histories(m@) =~= histories(old(m)@).insert(
        pid,
        with_sample(history_or_none(histories(old(m)@), pid), sample),
    ));
    speed
}

/// Histories while only some processes have had their turn.
spec fn partly_sampled(
    m: Map<u32, History>,
    counts: Map<u32, (u64, u64)>,
    direction: Direction,
    done: Set<u32>,
) -> Map<u32, History> {
    Map::new(
        |p: u32| m.contains_key(p) || done.contains(p),
        |p: u32|
            if done.contains(p) {
                next_history(m, counts, p, direction)
            } else {
                m[p]
            },
    )
}

impl AppState {
    /// The processes that are followed; some may be listed more than once.
    fn followed_pids(&self, counts: &HashMap<u32, (u64, u64)>) -> (r: Vec<u32>)
        ensures
            forall|p: u32| #[trigger] r@.contains(p) <==> is_followed(self@, counts@, p),
    {
        let mut out = keys_of(counts);
        let dl = keys_of(&self.dl_history);
        let ul = keys_of(&self.ul_history);
        let ruled = keys_of(&self.rules);
        let ghost a = out@;
        push_pids(&mut out, &dl);
        push_pids(&mut out, &ul);
        push_pids(&mut out, &ruled);
        proof {
            assert forall|p: u32| #[trigger] out@.contains(p) <==> is_followed(
                self@,
                counts@,
                p,
            ) by {
                lemma_joined(a, dl@, p);
                lemma_joined(a + dl@, ul@, p);
                lemma_joined(a + dl@ + ul@, ruled@, p);
                assert(a.contains(p) == counts@.contains_key(p));
                assert(dl@.contains(p) == self.dl_history@.contains_key(p));
                assert(ul@.contains(p) == self.ul_history@.contains_key(p));
                assert(ruled@.contains(p) == self.rules@.contains_key(p));
            }
        }
        out
    }

    fn sample_processes(&mut self, counts: &HashMap<u32, (u64, u64)>)
        ensures
            ({
                let goal = measured(old(self)@, counts@, 0, 0);
                final(self)@ == (StateView {
                    dl_history: goal.dl_history,
                    ul_history: goal.ul_history,
                    speeds: goal.speeds,
                    ..old(self)@
                })
            }),
    {
        let ghost s = self@;
        let ghost goal = measured(s, counts@, 0, 0);
        let pids = self.followed_pids(counts);
        self.speeds = HashMap::new();
        let mut i: usize = 0;
        proof {
            let nobody = pids@.take(0).to_set();
            assert(partly_sampled(s.dl_history, counts@, Direction::Download, nobody)
                =~= s.dl_history);
            assert(partly_sampled(s.ul_history, counts@, Direction::Upload, nobody)
                =~= s.ul_history);
            assert(goal.speeds.restrict(nobody) =~= Map::<u32, (u64, u64)>::empty());
        }
        while i < pids.len()
            invariant
                i <= pids@.len(),
                s == old(self)@,
                goal == measured(s, counts@, 0, 0),
                forall|p: u32| #[trigger] pids@.contains(p) <==> is_followed(s, counts@, p),
                self@ == (StateView {
                    dl_history: partly_sampled(
                        s.dl_history,
                        counts@,
                        Direction::Download,
                        pids@.take(i as int).to_set(),
                    ),
                    ul_history: partly_sampled(
                        s.ul_history,
                        counts@,
                        Direction::Upload,
                        pids@.take(i as int).to_set(),
                    ),
                    speeds: goal.speeds.restrict(pids@.take(i as int).to_set()),
                    ..s
                }),
            decreases pids@.len() - i,
        {
            let pid: u32 = pids[i];
            assert(pids@.contains(pid));
            let ghost (done, more) = (
                pids@.take(i as int).to_set(),
                pids@.take(i + 1).to_set(),
            );
            proof {
                assert forall|k: u32| #[trigger] more.contains(k) == (done.contains(k) || k == pid) by {
                    lemma_one_more(pids@, i as int, k);
                }
            }
            if self.speeds.contains_key(&pid) {
                assert(done.contains(pid));
                assert(done =~= more);
            } else {
                assert(!done.contains(pid)) by {
                    assert(goal.speeds.contains_key(pid));
                }
                let (down, up) = match counts.get(&pid) {
                    Some(pair) => (bytes_to_speed(pair.0), bytes_to_speed(pair.1)),
                    None => (0u64, 0u64),
                };
                let dl = add_sample(&mut self.dl_history, pid, down);
                let ul = add_sample(&mut self.ul_history, pid, up);
                self.speeds.insert(pid, (dl, ul));
                proof {
                    assert(self@.dl_history =~= partly_sampled(
                        s.dl_history,
                        counts@,
                        Direction::Download,
                        more,
                    ));
                    assert(self@.ul_history =~= partly_sampled(
                        s.ul_history,
                        counts@,
                        Direction::Upload,
                        more,
                    ));
                    assert(self@.speeds =~= goal.speeds.restrict(more));
                }
            }
            i += 1;
        }
        proof {
            let all = pids@.take(i as int).to_set();
            assert(pids@.take(i as int) =~= pids@);
            assert forall|p: u32| all.contains(p) == is_followed(s, counts@, p) by {
                assert(pids@.contains(p) == is_followed(s, counts@, p));
            }
            assert(self@.dl_history =~= goal.dl_history);
            assert(self@.ul_history =~= goal.ul_history);
            assert(self@.speeds =~= goal.speeds);
        }
    }

    fn sample_all_traffic(&mut self, download: u64, upload: u64)
        ensures
            ({
                let goal = measured(old(self)@, Map::empty(), download, upload);
                final(self)@ == (StateView {
                    global_dl_history: goal.global_dl_history,
                    global_ul_history: goal.global_ul_history,
                    global_dl_bps: goal.global_dl_bps,
                    global_ul_bps: goal.global_ul_bps,
                    ..old(self)@
                })
            }),
    {
        self.global_dl_history.push(bytes_to_speed(download));
        self.global_ul_history.push(bytes_to_speed(upload));
        self.global_dl_bps = self.global_dl_history.average();
        self.global_ul_bps = self.global_ul_history.average();
        proof {
            lemma_shown_speed(history_of(self.global_dl_history));
            lemma_shown_speed(history_of(self.global_ul_history));
        }
    }

    /// Takes in a second's traffic: measures, and steers rules that adapt while the engine runs.
    /// The result is what the status bar says, and what the engine is to be told.
    pub fn tick(&mut self, snapshot: &EngineSnapshot) -> (r: (TickStatus, Vec<EngineCommand>))
        ensures
            final(self)@ == ticked(old(self)@, *snapshot),
            r.0.running == snapshot.running,
            r.0.text@ == status_text(final(self)@, *snapshot),
            forall|e: EngineView| #[trigger]
                after_commands(e, command_views(r.1@)) == if snapshot.running {
                    told_feedback(
                        e,
                        measured(
                            old(self)@,
                            snapshot.per_pid@,
                            snapshot.global_download_bytes,
                            snapshot.global_upload_bytes,
                        ),
                    )
                } else {
                    e
                },
    {
        self.sample_processes(&snapshot.per_pid);
        self.sample_all_traffic(snapshot.global_download_bytes, snapshot.global_upload_bytes);
        proof {
            let goal = measured(
                old(self)@,
                snapshot.per_pid@,
                snapshot.global_download_bytes,
                snapshot.global_upload_bytes,
            );
            assert(self@ =~= goal);
        }
        let commands = if snapshot.running {
            self.run_adaptive_feedback()
        } else {
            let none: Vec<EngineCommand> = Vec::new();
            assert(command_views(none@) =~= Seq::<CommandView>::empty());
            none
        };
        let text = if snapshot.running {
            let mut out = String::from_str("Interceptor running   v ");
            let dl = format_speed(self.global_dl_bps, self.speed_unit);
            out.append(dl.as_str());
            out.append("   ^ ");
            let ul = format_speed(self.global_ul_bps, self.speed_unit);
            out.append(ul.as_str());
            out.append("   |   Packets: ");
            let processed = format_u64(snapshot.packets_processed);
            out.append(processed.as_str());
            out.append("   Dropped: ");
            let dropped = format_u64(snapshot.packets_dropped);
            out.append(dropped.as_str());
            out
        } else {
            String::from_str("Interceptor stopped")
        };
        (TickStatus { running: snapshot.running, text }, commands)
    }
}

fn push_pids(out: &mut Vec<u32>, pids: &Vec<u32>)
    ensures
        final(out)@ == old(out)@ + pids@,
{
    let mut i: usize = 0;
    assert(out@ =~= old(out)@ + pids@.take(0));
    while i < pids.len()
        invariant
            i <= pids@.len(),
            out@ == old(out)@ + pids@.take(i as int),
        decreases pids@.len() - i,
    {
        out.push(pids[i]);
        assert(out@ =~= old(out)@ + pids@.take(i + 1));
        i += 1;
    }
    assert(pids@.take(i as int) =~= pids@);
}

proof fn lemma_joined(a: Seq<u32>, b: Seq<u32>, x: u32)
    ensures
        (a + b).contains(x) == (a.contains(x) || b.contains(x)),
{
    let whole = a + b;
    if a.contains(x) {
        let i = choose|i: int| 0 <= i < a.len() && a[i] == x;
        assert(whole[i] == x);
    }
    if b.contains(x) {
        let i = choose|i: int| 0 <= i < b.len() && b[i] == x;
        assert(whole[a.len() + i] == x);
    }
    if whole.contains(x) {
        let i = choose|i: int| 0 <= i < whole.len() && whole[i] == x;
        if i < a.len() {
            assert(a[i] == x);
        } else {
            assert(b[i - a.len()] == x);
        }
    }
}

/// The state with the found row selected.
pub open spec fn with_found(s: StateView, found: ProcessSearchLocate) -> StateView {
    match found.matched_row_index {
        Some(i) => StateView { selected: Some(selection_of(s.rows[i as int].kind)), ..s },
        None => s,
    }
}

/// The state after a search: where groups hide what was searched for they are expanded, else the
/// row that was found is selected.
pub open spec fn searched(s: StateView, query: Seq<char>) -> StateView {
    let asked = StateView { process_search: query, ..s };
    let found = located(s.rows, query, s.computer_name);
    if found.needs_row_rebuild {
        StateView {
            expanded: s.expanded.union(
                hidden_answers(s.rows, trimmed(query), s.computer_name),
            ),
            ..asked
        }
    } else {
        with_found(asked, found)
    }
}

fn add_names(set: &mut NameSet, more: &NameSet)
    ensures
        final(set)@ == old(set)@.union(more@),
{
    let names = more.sorted_names();
    let ghost all = names_in(names@);
    let mut i: usize = 0;
    assert(set@ =~= old(set)@.union(all.take(0).to_set()));
    while i < names.len()
        invariant
            i <= names@.len(),
            all == names_in(names@),
            set@ == old(set)@.union(all.take(i as int).to_set()),
        decreases names@.len() - i,
    {
        set.insert(names[i].clone());
        proof {
            let (a, b) = (all.take(i as int), all.take(i + 1));
            assert forall|n: Seq<char>| #[trigger]
                b.to_set().contains(n) == (a.to_set().contains(n) || n == all[i as int]) by {
                if a.contains(n) {
                    let j = choose|j: int| 0 <= j < a.len() && a[j] == n;
                    assert(b[j] == n);
                }
                if b.contains(n) && n != all[i as int] {
                    let j = choose|j: int| 0 <= j < b.len() && b[j] == n;
                    assert(a[j] == n);
                }
                assert(b[i as int] == all[i as int]);
            }
            assert(set@ =~= old(set)@.union(b.to_set()));
        }
        i += 1;
    }
    assert(all.take(i as int) =~= all);
}

impl AppState {
    /// Searches the table. Where groups must be expanded first, build the table anew and go on
    /// with [`AppState::complete_process_search_locate`].
    pub fn locate_process_search(&mut self, query: &str) -> (r: ProcessSearchLocate)
        ensures
            r == located(old(self)@.rows, query@, old(self)@.computer_name),
            final(self)@ == searched(old(self)@, query@),
    {
        self.process_search = String::from_str(query);
        let found = locate_in_rows(&self.rows, query, self.computer_name.as_str());
        if found.needs_row_rebuild {
            let text = chars_of(query);
            let wanted_chars = trim(&text);
            let wanted = string_of(&wanted_chars);
            let groups = groups_to_expand_for_search(
                &self.rows,
                wanted.as_str(),
                self.computer_name.as_str(),
            );
            add_names(&mut self.expanded, &groups);
            return found;
        }
        self.select_found(found);
        found
    }

    fn select_found(&mut self, found: ProcessSearchLocate)
        requires
            found.matched_row_index matches Some(i) ==> i < old(self).rows@.len(),
        ensures
            final(self)@ == with_found(old(self)@, found),
    {
        if let Some(i) = found.matched_row_index {
            assert(self@.rows[i as int] == self.rows@[i as int]@);
            self.selected = Some(RowSelection::from_kind(&self.rows[i].kind));
        }
    }

    /// Goes on with the search after the table was built anew.
    pub fn complete_process_search_locate(&mut self) -> (r: ProcessSearchLocate)
        ensures
            r == located(old(self)@.rows, old(self)@.process_search, old(self)@.computer_name),
            final(self)@ == with_found(old(self)@, r),
    {
        let found = locate_in_rows(
            &self.rows,
            self.process_search.as_str(),
            self.computer_name.as_str(),
        );
        self.select_found(found);
        found
    }
}

} // verus!
