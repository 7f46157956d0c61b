//! Finding a process in the table.

use crate::names::NameSet;
use crate::number::{decimal, format_u64};
use crate::rows::{row_views, KindView, ProcessRow, RowKind, RowView};
use crate::text::{chars_of, lowercase, string_of, to_lowercase, trim, trimmed};
use vstd::prelude::*;

verus! {

/// Where a search leads: the row that was found and how far down it lies, or that groups must
/// first be expanded and the table built again.
#[derive(Debug, Clone, Copy, PartialEq, Eq, Structural)]
pub struct ProcessSearchLocate {
    pub matched_row_index: Option<usize>,
    pub scroll_offset_px: u128,
    pub needs_row_rebuild: bool,
}

impl ProcessSearchLocate {
    /// Nothing was found.
    pub open spec fn nothing() -> ProcessSearchLocate {
        ProcessSearchLocate {
            matched_row_index: None,
            scroll_offset_px: 0,
            needs_row_rebuild: false,
        }
    }

    /// The table must be built again.
    pub open spec fn rebuild() -> ProcessSearchLocate {
        ProcessSearchLocate {
            matched_row_index: None,
            scroll_offset_px: 0,
            needs_row_rebuild: true,
        }
    }
}

impl Default for ProcessSearchLocate {
    fn default() -> (r: Self)
        ensures
            r == ProcessSearchLocate::nothing(),
    {
        ProcessSearchLocate {
            matched_row_index: None,
            scroll_offset_px: 0,
            needs_row_rebuild: false,
        }
    }
}

/// Whether `at` tells, from left to right, where in `s` the characters of `t` stand.
pub open spec fn picks_out(s: Seq<char>, t: Seq<char>, at: Seq<int>) -> bool {
    &&& at.len() == t.len()
    &&& forall|i: int| 0 <= i < at.len() ==> 0 <= #[trigger] at[i] < s.len() && s[at[i]] == t[i]
    &&& forall|i: int, j: int| 0 <= i < j < at.len() ==> #[trigger] at[i] < #[trigger] at[j]
}

/// Whether `t` is what remains of `s` when some characters are struck out.
pub open spec fn is_subsequence(s: Seq<char>, t: Seq<char>) -> bool {
    exists|at: Seq<int>| picks_out(s, t, at)
}

/// The same, found by taking each character as early as possible.
spec fn embeds(s: Seq<char>, t: Seq<char>) -> bool
    decreases s.len(),
{
    if t.len() == 0 {
        true
    } else if s.len() == 0 {
        false
    } else if s[0] == t[0] {
        embeds(s.drop_first(), t.drop_first())
    } else {
        embeds(s.drop_first(), t)
    }
}

proof fn lemma_embeds_found(s: Seq<char>, t: Seq<char>) -> (at: Seq<int>)
    requires
        embeds(s, t),
    ensures
        picks_out(s, t, at),
    decreases s.len(),
{
    if t.len() == 0 {
        let at = Seq::<int>::empty();
        assert(picks_out(s, t, at));
        at
    } else if s[0] == t[0] {
        let rest = lemma_embeds_found(s.drop_first(), t.drop_first());
        let at = seq![0int] + rest.map_values(|x: int| x + 1);
        assert forall|i: int| 0 <= i < at.len() implies 0 <= #[trigger] at[i] < s.len() && s[at[i]]
            == t[i] by {
            if i > 0 {
                assert(rest[i - 1] < s.drop_first().len());
                assert(s.drop_first()[rest[i - 1]] == t.drop_first()[i - 1]);
            }
        }
        assert forall|i: int, j: int| 0 <= i < j < at.len() implies #[trigger] at[i]
            < #[trigger] at[j] by {
            if i > 0 {
                assert(rest[i - 1] < rest[j - 1]);
            } else {
                assert(rest[j - 1] >= 0);
            }
        }
        at
    } else {
        let rest = lemma_embeds_found(s.drop_first(), t);
        let at = rest.map_values(|x: int| x + 1);
        assert forall|i: int| 0 <= i < at.len() implies 0 <= #[trigger] at[i] < s.len() && s[at[i]]
            == t[i] by {
            assert(rest[i] < s.drop_first().len());
            assert(s.drop_first()[rest[i]] == t[i]);
        }
        assert forall|i: int, j: int| 0 <= i < j < at.len() implies #[trigger] at[i]
            < #[trigger] at[j] by {
            assert(rest[i] < rest[j]);
        }
        at
    }
}

proof fn lemma_embeds_if(s: Seq<char>, t: Seq<char>, at: Seq<int>)
    requires
        picks_out(s, t, at),
    ensures
        embeds(s, t),
    decreases s.len(),
{
    if t.len() > 0 {
        assert(at[0] < s.len());
        let tail = s.drop_first();
        if s[0] == t[0] {
            let rest = at.drop_first().map_values(|x: int| x - 1);
            assert forall|i: int| 0 <= i < rest.len() implies 0 <= #[trigger] rest[i] < tail.len()
                && tail[rest[i]] == t.drop_first()[i] by {
                assert(at[0] < at[i + 1]);
                assert(s[at[i + 1]] == t[i + 1]);
            }
            assert forall|i: int, j: int| 0 <= i < j < rest.len() implies #[trigger] rest[i]
                < #[trigger] rest[j] by {
                assert(at[i + 1] < at[j + 1]);
            }
            lemma_embeds_if(tail, t.drop_first(), rest);
        } else {
            assert(at[0] > 0);
            let rest = at.map_values(|x: int| x - 1);
            assert forall|i: int| 0 <= i < rest.len() implies 0 <= #[trigger] rest[i] < tail.len()
                && tail[rest[i]] == t[i] by {
                assert(i > 0 ==> at[0] < at[i]);
                assert(s[at[i]] == t[i]);
            }
            assert forall|i: int, j: int| 0 <= i < j < rest.len() implies #[trigger] rest[i]
                < #[trigger] rest[j] by {
                assert(at[i] < at[j]);
            }
            lemma_embeds_if(tail, t, rest);
        }
    }
}

/// Taking each character as early as possible finds a subsequence wherever there is one.
proof fn lemma_embeds(s: Seq<char>, t: Seq<char>)
    ensures
        embeds(s, t) == is_subsequence(s, t),
{
    if embeds(s, t) {
        let at = lemma_embeds_found(s, t);
        assert(picks_out(s, t, at));
    }
    if is_subsequence(s, t) {
        let at = choose|at: Seq<int>| picks_out(s, t, at);
        lemma_embeds_if(s, t, at);
    }
}

fn contains_in_order(s: &Vec<char>, t: &Vec<char>) -> (r: bool)
    ensures
        r == is_subsequence(s@, t@),
{
    let mut i: usize = 0;
    let mut j: usize = 0;
    proof {
        lemma_embeds(s@, t@);
    }
    assert(s@.skip(0) =~= s@);
    assert(t@.skip(0) =~= t@);
    while j < t.len()
        invariant
            i <= s@.len(),
            j <= t@.len(),
            is_subsequence(s@, t@) == embeds(s@.skip(i as int), t@.skip(j as int)),
        decreases s@.len() - i,
    {
        if i == s.len() {
            return false;
        }
        assert(s@.skip(i as int).drop_first() =~= s@.skip(i + 1));
        assert(t@.skip(j as int).drop_first() =~= t@.skip(j + 1));
        if s[i] == t[j] {
            j += 1;
        }
        i += 1;
    }
    true
}

/// Whether a text answers to a search: the search's characters occur in it in order, whatever
/// stands between them and whatever their case.
pub open spec fn answers(haystack: Seq<char>, needle: Seq<char>) -> bool {
    needle.len() == 0 || is_subsequence(lowercase(haystack), lowercase(needle))
}

/// Whether `haystack` answers to the search `needle`.
pub fn fuzzy_match(haystack: &str, needle: &str) -> (r: bool)
    ensures
        r == answers(haystack@, needle@),
{
    if needle.is_empty() {
        return true;
    }
    let hay = to_lowercase(haystack);
    let search = to_lowercase(needle);
    let hay_chars = chars_of(hay.as_str());
    let search_chars = chars_of(search.as_str());
    contains_in_order(&hay_chars, &search_chars)
}

/// A text answers to every search for part of what it was found by, if case is nothing to it:
/// striking characters out of a search only finds more.
pub proof fn shorter_searches_find_more(s: Seq<char>, t: Seq<char>, u: Seq<char>)
    requires
        is_subsequence(s, t),
        is_subsequence(t, u),
    ensures
        is_subsequence(s, u),
{
    let a = choose|at: Seq<int>| picks_out(s, t, at);
    let b = choose|at: Seq<int>| picks_out(t, u, at);
    let c = Seq::new(b.len(), |i: int| a[b[i]]);
    assert forall|i: int| 0 <= i < c.len() implies 0 <= #[trigger] c[i] < s.len() && s[c[i]]
        == u[i] by {
        assert(0 <= b[i] < t.len());
        assert(0 <= a[b[i]] < s.len());
    }
    assert forall|i: int, j: int| 0 <= i < j < c.len() implies #[trigger] c[i] < #[trigger] c[j] by {
        assert(b[i] < b[j]);
        assert(0 <= b[i] && b[j] < t.len());
    }
    assert(picks_out(s, u, c));
}

/// What a row answers by: the table's machine for the row of all traffic, else its names and
/// the numbers of its processes.
pub open spec fn search_texts(row: RowView, computer_name: Seq<char>) -> Seq<Seq<char>> {
    match row.kind {
        KindView::Global => seq![computer_name],
        KindView::Group { process_name, display_name, pids, .. } => seq![
            display_name,
            process_name,
        ] + pids.map_values(|pid: u32| decimal(pid as nat)),
        KindView::Child { process_name, display_name, pid, .. } => seq![
            "PID "@ + decimal(pid as nat),
            decimal(pid as nat),
            display_name,
            process_name,
        ],
    }
}

/// Texts as characters.
pub open spec fn text_views(v: Seq<String>) -> Seq<Seq<char>> {
    v.map_values(|s: String| s@)
}

/// What a row answers by.
pub fn row_search_texts(row: &ProcessRow, computer_name: &str) -> (r: Vec<String>)
    ensures
        text_views(r@) == search_texts(row@, computer_name@),
{
    let mut out: Vec<String> = Vec::new();
    match &row.kind {
        RowKind::Global => {
            out.push(String::from_str(computer_name));
        },
        RowKind::Group { process_name, display_name, pids, .. } => {
            out.push(display_name.clone());
            out.push(process_name.clone());
            let ghost names = seq![display_name@, process_name@];
            let ghost numbers = pids@.map_values(|pid: u32| decimal(pid as nat));
            let mut i: usize = 0;
            assert(text_views(out@) =~= names + numbers.take(0));
            while i < pids.len()
                invariant
                    i <= pids@.len(),
                    numbers == pids@.map_values(|pid: u32| decimal(pid as nat)),
                    text_views(out@) == names + numbers.take(i as int),
                decreases pids@.len() - i,
            {
                let ghost before = out@;
                out.push(format_u64(pids[i] as u64));
                assert(text_views(out@) =~= text_views(before).push(numbers[i as int]));
                assert(text_views(out@) =~= names + numbers.take(i + 1));
                i += 1;
            }
            assert(numbers.take(i as int) =~= numbers);
        },
        RowKind::Child { process_name, display_name, pid, .. } => {
            let mut labelled = String::from_str("PID ");
            let number = format_u64(*pid as u64);
            labelled.append(number.as_str());
            out.push(labelled);
            out.push(number);
            out.push(display_name.clone());
            out.push(process_name.clone());
        },
    }
    assert(text_views(out@) =~= search_texts(row@, computer_name@));
    out
}

/// Whether a row answers to a search.
pub open spec fn row_answers(row: RowView, search: Seq<char>, computer_name: Seq<char>) -> bool {
    exists|i: int|
        0 <= i < search_texts(row, computer_name).len() && answers(
            #[trigger] search_texts(row, computer_name)[i],
            search,
        )
}

/// Whether a row answers to a search.
pub fn row_matches_search(row: &ProcessRow, search: &str, computer_name: &str) -> (r: bool)
    ensures
        r == row_answers(row@, search@, computer_name@),
{
    let values = row_search_texts(row, computer_name);
    let ghost all = search_texts(row@, computer_name@);
    let mut i: usize = 0;
    while i < values.len()
        invariant
            i <= values@.len(),
            all == search_texts(row@, computer_name@),
            text_views(values@) == all,
            forall|j: int| 0 <= j < i ==> !answers(#[trigger] all[j], search@),
        decreases values@.len() - i,
    {
        assert(all[i as int] == values@[i as int]@);
        if fuzzy_match(values[i].as_str(), search) {
            return true;
        }
        i += 1;
    }
    false
}

/// Whether a row is one of processes.
pub open spec fn is_process_row(row: RowView) -> bool {
    row.kind != KindView::Global
}

/// Position of the first row at or after `from` that answers, where the row of all traffic counts
/// only if `with_global`.
pub open spec fn first_answer(
    rows: Seq<RowView>,
    search: Seq<char>,
    computer_name: Seq<char>,
    with_global: bool,
    from: int,
) -> Option<int>
    decreases rows.len() - from,
{
    if from < 0 || from >= rows.len() {
        None
    } else if (with_global || is_process_row(rows[from])) && row_answers(
        rows[from],
        search,
        computer_name,
    ) {
        Some(from)
    } else {
        first_answer(rows, search, computer_name, with_global, from + 1)
    }
}

/// The row that a search finds: the first row of processes that answers, and only where none
/// does, any row.
pub open spec fn found_row(
    rows: Seq<RowView>,
    search: Seq<char>,
    computer_name: Seq<char>,
) -> Option<int> {
    match first_answer(rows, search, computer_name, false, 0) {
        Some(i) => Some(i),
        None => first_answer(rows, search, computer_name, true, 0),
    }
}

fn is_global(row: &ProcessRow) -> (r: bool)
    ensures
        r == !is_process_row(row@),
{
    match row.kind {
        RowKind::Global => true,
        _ => false,
    }
}

fn find_answer(
    rows: &Vec<ProcessRow>,
    search: &str,
    computer_name: &str,
    with_global: bool,
) -> (r: Option<usize>)
    ensures
        match r {
            Some(i) => first_answer(row_views(rows@), search@, computer_name@, with_global, 0)
                == Some(i as int) && i < rows@.len(),
            None => first_answer(
                row_views(rows@),
                search@,
                computer_name@,
                with_global,
                0,
            ) is None,
        },
{
    let ghost all = row_views(rows@);
    let mut i: usize = 0;
    while i < rows.len()
        invariant
            i <= rows@.len(),
            all == row_views(rows@),
            first_answer(all, search@, computer_name@, with_global, 0) == first_answer(
                all,
                search@,
                computer_name@,
                with_global,
                i as int,
            ),
        decreases rows@.len() - i,
    {
        assert(all[i as int] == rows@[i as int]@);
        if (with_global || !is_global(&rows[i])) && row_matches_search(
            &rows[i],
            search,
            computer_name,
        ) {
            return Some(i);
        }
        i += 1;
    }
    None
}

/// The row that a search finds.
pub fn find_first_matching_row_index(
    rows: &Vec<ProcessRow>,
    search: &str,
    computer_name: &str,
) -> (r: Option<usize>)
    ensures
        match r {
            Some(i) => found_row(row_views(rows@), search@, computer_name@) == Some(i as int) && i
                < rows@.len(),
            None => found_row(row_views(rows@), search@, computer_name@) is None,
        },
{
    match find_answer(rows, search, computer_name, false) {
        Some(i) => Some(i),
        None => find_answer(rows, search, computer_name, true),
    }
}

/// Height of a row in pixels.
pub open spec fn row_height(row: RowView) -> nat {
    if is_process_row(row) {
        32
    } else {
        36
    }
}

/// Height of rows taken together.
pub open spec fn height_of(rows: Seq<RowView>) -> nat
    decreases rows.len(),
{
    if rows.len() == 0 {
        0
    } else {
        height_of(rows.drop_last()) + row_height(rows.last())
    }
}

/// Height of a row in pixels.
pub fn row_height_px(row: &ProcessRow) -> (r: u128)
    ensures
        r == row_height(row@),
{
    if is_global(row) {
        36
    } else {
        32
    }
}

/// How far down a row lies: the height of those before it.
pub fn row_scroll_offset(rows: &Vec<ProcessRow>, index: usize) -> (r: u128)
    ensures
        r == height_of(
            row_views(rows@).take(
                if index <= rows@.len() {
                    index as int
                } else {
                    rows@.len() as int
                },
            ),
        ),
{
    let ghost all = row_views(rows@);
    let mut offset: u128 = 0;
    let mut i: usize = 0;
    while i < index && i < rows.len()
        invariant
            i <= rows@.len(),
            i <= index,
            all == row_views(rows@),
            offset == height_of(all.take(i as int)),
            offset <= 36 * i,
        decreases rows@.len() - i,
    {
        assert(all.take(i + 1).drop_last() =~= all.take(i as int));
        assert(all.take(i + 1).last() == rows@[i as int]@);
        offset = offset + row_height_px(&rows[i]);
        i += 1;
    }
    offset
}

/// Whether a row is a group of several processes that is not expanded and answers.
pub open spec fn is_hidden_answer(
    row: RowView,
    search: Seq<char>,
    computer_name: Seq<char>,
) -> bool {
    &&& row.kind matches KindView::Group { pids, expanded, .. } && !expanded && pids.len() > 1
    &&& row_answers(row, search, computer_name)
}

/// The key of a group's row: its name in lower case.
pub open spec fn group_key(row: RowView) -> Seq<char> {
    match row.kind {
        KindView::Group { process_name, .. } => lowercase(process_name),
        _ => Seq::empty(),
    }
}

/// The groups that a search expands.
pub open spec fn hidden_answers(
    rows: Seq<RowView>,
    search: Seq<char>,
    computer_name: Seq<char>,
) -> Set<Seq<char>>
    decreases rows.len(),
{
    if rows.len() == 0 {
        Set::empty()
    } else {
        let before = hidden_answers(rows.drop_last(), search, computer_name);
        if is_hidden_answer(rows.last(), search, computer_name) {
            before.insert(group_key(rows.last()))
        } else {
            before
        }
    }
}

/// The groups that a search expands.
pub fn groups_to_expand_for_search(
    rows: &Vec<ProcessRow>,
    search: &str,
    computer_name: &str,
) -> (r: NameSet)
    ensures
        r@ == hidden_answers(row_views(rows@), search@, computer_name@),
{
    let ghost all = row_views(rows@);
    let mut groups = NameSet::new();
    let mut i: usize = 0;
    while i < rows.len()
        invariant
            i <= rows@.len(),
            all == row_views(rows@),
            groups@ == hidden_answers(all.take(i as int), search@, computer_name@),
        decreases rows@.len() - i,
    {
        assert(all.take(i + 1).drop_last() =~= all.take(i as int));
        assert(all.take(i + 1).last() == rows@[i as int]@);
        match &rows[i].kind {
            RowKind::Group { process_name, pids, expanded, .. } => {
                if !*expanded && pids.len() > 1 && row_matches_search(
                    &rows[i],
                    search,
                    computer_name,
                ) {
                    groups.insert(to_lowercase(process_name.as_str()));
                }
            },
            _ => {},
        }
        i += 1;
    }
    assert(all.take(i as int) =~= all);
    groups
}

/// Where a search leads. A blank one leads nowhere; one that a group answers whose processes are
/// not shown asks for it to be expanded; any other leads to the row that it finds.
pub open spec fn located(
    rows: Seq<RowView>,
    search: Seq<char>,
    computer_name: Seq<char>,
) -> ProcessSearchLocate {
    let wanted = trimmed(search);
    if wanted.len() == 0 {
        ProcessSearchLocate::nothing()
    } else if hidden_answers(rows, wanted, computer_name) != Set::<Seq<char>>::empty() {
        ProcessSearchLocate::rebuild()
    } else {
        match found_row(rows, wanted, computer_name) {
            None => ProcessSearchLocate::nothing(),
            Some(i) => ProcessSearchLocate {
                matched_row_index: Some(i as usize),
                scroll_offset_px: height_of(rows.take(i)) as u128,
                needs_row_rebuild: false,
            },
        }
    }
}

/// Where a search leads.
pub fn locate_in_rows(rows: &Vec<ProcessRow>, search: &str, computer_name: &str) -> (r:
    ProcessSearchLocate)
    ensures
        r == located(row_views(rows@), search@, computer_name@),
        r.matched_row_index matches Some(i) ==> i < rows@.len(),
{
    let text = chars_of(search);
    let wanted_chars = trim(&text);
    if wanted_chars.len() == 0 {
        return ProcessSearchLocate::default();
    }
    let wanted = string_of(&wanted_chars);
    let groups = groups_to_expand_for_search(rows, wanted.as_str(), computer_name);
    if !groups.is_empty() {
        return ProcessSearchLocate {
            matched_row_index: None,
            scroll_offset_px: 0,
            needs_row_rebuild: true,
        };
    }
    match find_first_matching_row_index(rows, wanted.as_str(), computer_name) {
        None => ProcessSearchLocate::default(),
        Some(index) => ProcessSearchLocate {
            matched_row_index: Some(index),
            scroll_offset_px: row_scroll_offset(rows, index),
            needs_row_rebuild: false,
        },
    }
}

proof fn lemma_first_answer(
    rows: Seq<RowView>,
    search: Seq<char>,
    computer_name: Seq<char>,
    with_global: bool,
    from: int,
)
    requires
        0 <= from <= rows.len(),
    ensures
        match first_answer(rows, search, computer_name, with_global, from) {
            Some(i) => {
                &&& from <= i < rows.len()
                &&& with_global || is_process_row(rows[i])
                &&& row_answers(rows[i], search, computer_name)
                &&& forall|j: int|
                    from <= j < i && (with_global || is_process_row(rows[j])) ==> !row_answers(
                        #[trigger] rows[j],
                        search,
                        computer_name,
                    )
            },
            None => forall|j: int|
                from <= j < rows.len() && (with_global || is_process_row(rows[j])) ==> !row_answers(
                    #[trigger] rows[j],
                    search,
                    computer_name,
                ),
        },
    decreases rows.len() - from,
{
    if from < rows.len() {
        lemma_first_answer(rows, search, computer_name, with_global, from + 1);
    }
}

/// A search finds a row exactly where one answers; the row found answers, and the row of all
/// traffic is found only where no row of processes answers.
pub proof fn searches_find_what_answers(
    rows: Seq<RowView>,
    search: Seq<char>,
    computer_name: Seq<char>,
)
    ensures
        match found_row(rows, search, computer_name) {
            Some(i) => {
                &&& 0 <= i < rows.len()
                &&& row_answers(rows[i], search, computer_name)
                &&& !is_process_row(rows[i]) ==> forall|j: int|
                    0 <= j < rows.len() && is_process_row(rows[j]) ==> !row_answers(
                        #[trigger] rows[j],
                        search,
                        computer_name,
                    )
            },
            None => forall|j: int|
                0 <= j < rows.len() ==> !row_answers(#[trigger] rows[j], search, computer_name),
        },
{
    lemma_first_answer(rows, search, computer_name, false, 0);
    lemma_first_answer(rows, search, computer_name, true, 0);
}

/// A search is found letter by letter: each of its letters is looked for behind the one before it,
/// and what is left of the text when the search is used up does not matter.
pub proof fn searches_are_found_letter_by_letter(s: Seq<char>, t: Seq<char>)
    ensures
        t.len() == 0 ==> is_subsequence(s, t),
        t.len() > s.len() ==> !is_subsequence(s, t),
        s.len() > 0 && t.len() > 0 && s[0] == t[0] ==> is_subsequence(s, t) == is_subsequence(
            s.drop_first(),
            t.drop_first(),
        ),
        s.len() > 0 && t.len() > 0 && s[0] != t[0] ==> is_subsequence(s, t) == is_subsequence(
            s.drop_first(),
            t,
        ),
{
    lemma_embeds(s, t);
    lemma_longer_is_not_found(s, t);
    if s.len() > 0 && t.len() > 0 {
        lemma_embeds(s.drop_first(), t.drop_first());
        lemma_embeds(s.drop_first(), t);
    }
}

proof fn lemma_longer_is_not_found(s: Seq<char>, t: Seq<char>)
    ensures
        t.len() > s.len() ==> !embeds(s, t),
    decreases s.len(),
{
    if s.len() > 0 && t.len() > 0 {
        lemma_longer_is_not_found(s.drop_first(), t.drop_first());
        lemma_longer_is_not_found(s.drop_first(), t);
    }
}

/// A text answers to nothing in particular, to itself, and to whatever its letters in lower case
/// hold in order; the case of a search does not matter.
pub proof fn case_does_not_matter_to_searches(a: Seq<char>, b: Seq<char>, n: Seq<char>, m: Seq<char>)
    ensures
        answers(a, Seq::empty()),
        answers(a, a),
        n.len() > 0 ==> answers(a, n) == is_subsequence(lowercase(a), lowercase(n)),
        n.len() > 0 && m.len() > 0 && lowercase(n) == lowercase(m) && lowercase(a) == lowercase(b)
            ==> answers(a, n) == answers(b, m),
{
    let s = lowercase(a);
    assert(picks_out(s, s, Seq::new(s.len(), |i: int| i)));
}

/// The row of all traffic answers by the name of the machine; a group by its names and the numbers
/// of its processes; a process by its names and its number, with or without a label.
pub proof fn rows_answer_by_names_and_numbers(
    row: RowView,
    search: Seq<char>,
    computer_name: Seq<char>,
)
    ensures
        row_answers(row, search, computer_name) == match row.kind {
            KindView::Global => answers(computer_name, search),
            KindView::Group { process_name, display_name, pids, .. } => {
                ||| answers(display_name, search)
                ||| answers(process_name, search)
                ||| exists|k: int|
                    0 <= k < pids.len() && answers(decimal(#[trigger] pids[k] as nat), search)
            },
            KindView::Child { process_name, display_name, pid, .. } => {
                ||| answers(display_name, search)
                ||| answers(process_name, search)
                ||| answers(decimal(pid as nat), search)
                ||| answers("PID "@ + decimal(pid as nat), search)
            },
        },
{
    let all = search_texts(row, computer_name);
    match row.kind {
        KindView::Global => {
            assert(all[0] == computer_name);
        },
        KindView::Group { process_name, display_name, pids, .. } => {
            assert(all[0] == display_name && all[1] == process_name);
            assert forall|k: int| 0 <= k < pids.len() implies all[k + 2] == decimal(
                #[trigger] pids[k] as nat,
            ) by {}
            if row_answers(row, search, computer_name) {
                let i = choose|i: int| 0 <= i < all.len() && answers(#[trigger] all[i], search);
                if i > 1 {
                    assert(answers(decimal(pids[i - 2] as nat), search));
                }
            }
            if exists|k: int|
                0 <= k < pids.len() && answers(decimal(#[trigger] pids[k] as nat), search) {
                let k = choose|k: int|
                    0 <= k < pids.len() && answers(decimal(#[trigger] pids[k] as nat), search);
                assert(answers(all[k + 2], search));
            }
        },
        KindView::Child { process_name, display_name, pid, .. } => {
            assert(all[0] == "PID "@ + decimal(pid as nat) && all[1] == decimal(pid as nat));
            assert(all[2] == display_name && all[3] == process_name);
        },
    }
}

/// The row found is the first that could be: no row of processes before it answers, and where it is
/// the row of all traffic, none behind it does either.
pub proof fn searches_find_the_first(
    rows: Seq<RowView>,
    search: Seq<char>,
    computer_name: Seq<char>,
    j: int,
)
    requires
        0 <= j < rows.len(),
        row_answers(rows[j], search, computer_name),
    ensures
        found_row(rows, search, computer_name) matches Some(i) && {
            &&& 0 <= i < rows.len()
            &&& row_answers(rows[i], search, computer_name)
            &&& !(rows[j].kind is Global) ==> !(rows[i].kind is Global) && i <= j
            &&& rows[j].kind is Global && rows[i].kind is Global ==> i <= j
        },
{
    lemma_first_answer(rows, search, computer_name, false, 0);
    lemma_first_answer(rows, search, computer_name, true, 0);
}

/// The row of all traffic is 36 pixels high and any other 32, and heights add up.
pub proof fn heights_add_up(rows: Seq<RowView>, more: Seq<RowView>, row: RowView)
    ensures
        height_of(Seq::empty()) == 0,
        height_of(seq![row]) == if row.kind is Global {
            36nat
        } else {
            32nat
        },
        height_of(rows + more) == height_of(rows) + height_of(more),
    decreases more.len(),
{
    let one = seq![row];
    assert(one.drop_last() =~= Seq::<RowView>::empty());
    assert(height_of(one.drop_last()) == 0);
    if more.len() == 0 {
        assert(rows + more =~= rows);
    } else {
        assert((rows + more).drop_last() =~= rows + more.drop_last());
        heights_add_up(rows, more.drop_last(), row);
    }
}

/// Whether a row is that of the group `key`, is closed over several processes, and answers.
pub open spec fn is_closed_over(
    row: RowView,
    search: Seq<char>,
    computer_name: Seq<char>,
    key: Seq<char>,
) -> bool {
    &&& row.kind matches KindView::Group { process_name, pids, expanded, .. } && !expanded
        && pids.len() >= 2 && lowercase(process_name) == key
    &&& row_answers(row, search, computer_name)
}

/// A search expands just the groups of several processes that are closed and answer.
pub proof fn searches_expand_closed_groups(
    rows: Seq<RowView>,
    search: Seq<char>,
    computer_name: Seq<char>,
    key: Seq<char>,
)
    ensures
        hidden_answers(rows, search, computer_name).contains(key) == exists|i: int|
            0 <= i < rows.len() && #[trigger] is_closed_over(rows[i], search, computer_name, key),
    decreases rows.len(),
{
    if rows.len() > 0 {
        let init = rows.drop_last();
        searches_expand_closed_groups(init, search, computer_name, key);
        assert(rows.last() == rows[rows.len() - 1]);
        if hidden_answers(init, search, computer_name).contains(key) {
            let i = choose|i: int|
                0 <= i < init.len() && #[trigger] is_closed_over(
                    init[i],
                    search,
                    computer_name,
                    key,
                );
            assert(is_closed_over(rows[i], search, computer_name, key));
        }
        if exists|i: int|
            0 <= i < rows.len() && #[trigger] is_closed_over(rows[i], search, computer_name, key) {
            let i = choose|i: int|
                0 <= i < rows.len() && #[trigger] is_closed_over(
                    rows[i],
                    search,
                    computer_name,
                    key,
                );
            if i < init.len() {
                assert(is_closed_over(init[i], search, computer_name, key));
            }
        }
        if is_hidden_answer(rows.last(), search, computer_name) && group_key(rows.last()) == key {
            assert(is_closed_over(rows[rows.len() - 1], search, computer_name, key));
        }
    }
}

/// A blank search leads nowhere. Where a closed group answers, the table is to be built again; else
/// the search leads to the row found, as far down as the rows before it are high.
pub proof fn searches_lead_to_rows(rows: Seq<RowView>, search: Seq<char>, computer_name: Seq<char>)
    ensures
        ({
            let r = located(rows, search, computer_name);
            let wanted = trimmed(search);
            let closed = exists|key: Seq<char>|
                hidden_answers(rows, wanted, computer_name).contains(key);
            &&& wanted.len() == 0 ==> r.matched_row_index is None && r.scroll_offset_px == 0
                && !r.needs_row_rebuild
            &&& wanted.len() > 0 && closed ==> r.matched_row_index is None && r.scroll_offset_px
                == 0 && r.needs_row_rebuild
            &&& wanted.len() > 0 && !closed ==> !r.needs_row_rebuild && match found_row(
                rows,
                wanted,
                computer_name,
            ) {
                Some(i) => i <= usize::MAX && height_of(rows.take(i)) <= u128::MAX
                    ==> r.matched_row_index == Some(i as usize) && r.scroll_offset_px == height_of(
                    rows.take(i),
                ),
                None => r.matched_row_index is None && r.scroll_offset_px == 0,
            }
        }),
{
    let hidden = hidden_answers(rows, trimmed(search), computer_name);
    if hidden != Set::<Seq<char>>::empty() {
        assert(exists|key: Seq<char>| hidden.contains(key)) by {
            if forall|key: Seq<char>| !hidden.contains(key) {
                assert(hidden =~= Set::<Seq<char>>::empty());
            }
        }
    }
    searches_find_what_answers(rows, trimmed(search), computer_name);
}

} // verus!
