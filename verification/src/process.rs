//! What is known of running processes: names, icons and numbers.

use crate::number::{ascii_lowercase, to_ascii_lowercase};
use crate::rows::{row_views, KindView, ProcessRow, RowKind, RowView};
use crate::text::{
    begins_with, chars_of, find_from, first_of, same_text, slice_of, spells, split, split_all,
    string_of, strip_prefix, texts, trim, trimmed,
};
use crate::wide::{chars_marked, decode_marked};
use std::collections::HashMap;
use vstd::prelude::*;

verus! {

broadcast use vstd::std_specs::hash::group_hash_axioms;

/// Width and height of a process icon in pixels.
pub const ICON_SIZE: u32 = 16;

/// The key that a path is remembered by: case is nothing to it, as far as ASCII goes.
pub open spec fn path_key(path: Seq<char>) -> Seq<char> {
    ascii_lowercase(path)
}

/// The names in a list of paths and names; of two entries for one path the first counts.
pub open spec fn names_by_path(v: Seq<(String, String)>) -> Map<Seq<char>, Seq<char>>
    decreases v.len(),
{
    if v.len() == 0 {
        Map::empty()
    } else {
        let before = names_by_path(v.drop_last());
        if before.contains_key(v.last().0@) {
            before
        } else {
            before.insert(v.last().0@, v.last().1@)
        }
    }
}

/// Names of programs by path, so that each is looked up once.
#[derive(Debug)]
pub struct ProcessMetadataCache {
    display_names: Vec<(String, String)>,
}

impl View for ProcessMetadataCache {
    type V = Map<Seq<char>, Seq<char>>;

    closed spec fn view(&self) -> Map<Seq<char>, Seq<char>> {
        names_by_path(self.display_names@)
    }
}

impl Default for ProcessMetadataCache {
    fn default() -> (r: Self)
        ensures
            r@ == Map::<Seq<char>, Seq<char>>::empty(),
    {
        ProcessMetadataCache { display_names: Vec::new() }
    }
}

/// The name to show for a program that was looked up: a friendly one, else the fallback.
pub open spec fn name_or_fallback(friendly: Option<Seq<char>>, fallback: Seq<char>) -> Seq<char> {
    match friendly {
        Some(name) => if name.len() > 0 {
            name
        } else {
            fallback
        },
        None => fallback,
    }
}

/// The name that is shown for a path: the one remembered, else what a lookup found.
pub open spec fn shown_name(
    cache: Map<Seq<char>, Seq<char>>,
    path: Seq<char>,
    friendly: Option<Seq<char>>,
    fallback: Seq<char>,
) -> Seq<char> {
    if cache.contains_key(path_key(path)) {
        cache[path_key(path)]
    } else {
        name_or_fallback(friendly, fallback)
    }
}

/// What is remembered once a name was shown for a path.
pub open spec fn remembering(
    cache: Map<Seq<char>, Seq<char>>,
    path: Seq<char>,
    shown: Seq<char>,
) -> Map<Seq<char>, Seq<char>> {
    if cache.contains_key(path_key(path)) {
        cache
    } else {
        cache.insert(path_key(path), shown)
    }
}

pub open spec fn text_of(s: Option<String>) -> Option<Seq<char>> {
    match s {
        Some(t) => Some(t@),
        None => None,
    }
}

fn key_of(path: &str) -> (r: String)
    ensures
        r@ == path_key(path@),
{
    let chars = chars_of(path);
    let lower = to_ascii_lowercase(&chars);
    string_of(&lower)
}

impl ProcessMetadataCache {
    /// The name remembered for a path.
    pub fn remembered_name(&self, path: &str) -> (r: Option<String>)
        ensures
            match r {
                Some(name) => self@.contains_key(path_key(path@)) && name@ == self@[path_key(
                    path@,
                )],
                None => !self@.contains_key(path_key(path@)),
            },
    {
        let key = key_of(path);
        let ghost all = self.display_names@;
        let mut i: usize = 0;
        while i < self.display_names.len()
            invariant
                i <= self.display_names@.len(),
                all == self.display_names@,
                key@ == path_key(path@),
                !names_by_path(all.take(i as int)).contains_key(key@),
            decreases self.display_names@.len() - i,
        {
            assert(all.take(i + 1).drop_last() =~= all.take(i as int));
            if same_text(self.display_names[i].0.as_str(), key.as_str()) {
                proof {
                    lemma_names_grow(all, i + 1, key@);
                }
                return Some(self.display_names[i].1.clone());
            }
            i += 1;
        }
        assert(all.take(i as int) =~= all);
        None
    }

    /// The name to show for the program at a path: the one remembered, else what a lookup found,
    /// which is then remembered.
    pub fn display_name_for_path(
        &mut self,
        path: &str,
        friendly: Option<String>,
        fallback: &str,
    ) -> (r: String)
        ensures
            r@ == shown_name(old(self)@, path@, text_of(friendly), fallback@),
            final(self)@ == remembering(old(self)@, path@, r@),
    {
        match self.remembered_name(path) {
            Some(name) => name,
            None => {
                let name = match friendly {
                    Some(found) => if found.as_str().is_empty() {
                        String::from_str(fallback)
                    } else {
                        found
                    },
                    None => String::from_str(fallback),
                };
                let ghost before = self.display_names@;
                let key = key_of(path);
                self.display_names.push((key, name.clone()));
                assert(self.display_names@.drop_last() =~= before);
                name
            },
        }
    }
}

proof fn lemma_names_grow(all: Seq<(String, String)>, n: int, key: Seq<char>)
    requires
        0 <= n <= all.len(),
        names_by_path(all.take(n)).contains_key(key),
    ensures
        names_by_path(all).contains_key(key),
        names_by_path(all)[key] == names_by_path(all.take(n))[key],
    decreases all.len() - n,
{
    if n < all.len() {
        assert(all.take(n + 1).drop_last() =~= all.take(n));
        lemma_names_grow(all, n + 1, key);
    } else {
        assert(all.take(n) =~= all);
    }
}

/// A program's own name for itself: its description, else its product, without white space around
/// it; none where nothing is left.
pub open spec fn friendly_name(
    description: Option<Seq<char>>,
    product: Option<Seq<char>>,
) -> Option<Seq<char>> {
    let found = match description {
        Some(d) => Some(d),
        None => product,
    };
    match found {
        Some(text) => if trimmed(text).len() > 0 {
            Some(trimmed(text))
        } else {
            None
        },
        None => None,
    }
}

/// A program's own name for itself.
pub fn friendly_display_name(description: Option<String>, product: Option<String>) -> (r: Option<
    String,
>)
    ensures
        text_of(r) == friendly_name(text_of(description), text_of(product)),
{
    let found = match description {
        Some(d) => Some(d),
        None => product,
    };
    match found {
        None => None,
        Some(text) => {
            let chars = chars_of(text.as_str());
            let name = trim(&chars);
            if name.len() == 0 {
                None
            } else {
                Some(string_of(&name))
            }
        },
    }
}

/// What is known of a process.
#[derive(Debug, PartialEq, Eq)]
pub struct ProcessDetails {
    pub pid: u32,
    pub name: String,
    pub display_name: String,
    pub exe_path: String,
}

/// A path with one kind of separator.
pub open spec fn unified(path: Seq<char>) -> Seq<char> {
    path.map_values(
        |c: char|
            if c == '/' {
                '\\'
            } else {
                c
            },
    )
}

/// Whether a path begins with a drive.
pub open spec fn has_drive(path: Seq<char>) -> bool {
    path.len() >= 2 && path[1] == ':' && ('a' <= path[0] <= 'z' || 'A' <= path[0] <= 'Z')
}

/// Whether a path is taken as it is written: slashes and single dots mean nothing in it.
pub open spec fn is_verbatim(path: Seq<char>) -> bool {
    begins_with(path, "\\\\?\\"@)
}

/// How long the name of a share behind that of its server is, with the mark between them; 0 where
/// it is missing.
pub open spec fn share_len(place: Seq<char>) -> nat {
    let server = first_of(place, '\\');
    if server < place.len() && first_of(place.skip(server as int + 1), '\\') > 0 {
        1 + first_of(place.skip(server as int + 1), '\\')
    } else {
        0
    }
}

/// How much of a path says where its directories are, and is no directory itself: a drive, as in
/// `C:`; a share, as in `\\server\share`; a device, as in `\\.\COM42`; or what follows
/// `\\?\`, be it a drive, a share behind `UNC`, or any other name.
pub open spec fn prefix_len(path: Seq<char>) -> nat {
    let plain = unified(path);
    if is_verbatim(path) {
        let rest = path.skip(4);
        if begins_with(rest, "UNC\\"@) {
            8 + first_of(rest.skip(4), '\\') + share_len(rest.skip(4))
        } else if has_drive(rest) && (rest.len() == 2 || rest[2] == '\\' || rest[2] == '/') {
            6
        } else {
            4 + first_of(rest, '\\')
        }
    } else if begins_with(plain, "\\\\.\\"@) {
        4 + first_of(plain.skip(4), '\\')
    } else if begins_with(plain, "\\\\"@) {
        let place = plain.skip(2);
        if first_of(place, '\\') > 0 && share_len(place) > 0 {
            2 + first_of(place, '\\') + share_len(place)
        } else {
            0
        }
    } else if has_drive(path) {
        2
    } else {
        0
    }
}

/// The parts of a path behind its prefix.
pub open spec fn path_parts(path: Seq<char>) -> Seq<Seq<char>> {
    let rest = path.skip(prefix_len(path) as int);
    if is_verbatim(path) {
        split(rest, '\\')
    } else {
        split(unified(rest), '\\')
    }
}

/// The last part of a path that stands for something: empty parts do not, nor do single dots
/// unless the path is verbatim.
pub open spec fn last_part(parts: Seq<Seq<char>>, verbatim: bool) -> Seq<char>
    decreases parts.len(),
{
    if parts.len() == 0 {
        Seq::empty()
    } else if parts.last().len() == 0 || !verbatim && parts.last() == "."@ {
        last_part(parts.drop_last(), verbatim)
    } else {
        parts.last()
    }
}

/// Position of the last dot; 0 where there is none.
pub open spec fn last_dot(name: Seq<char>) -> nat
    decreases name.len(),
{
    if name.len() == 0 {
        0
    } else if name.last() == '.' {
        (name.len() - 1) as nat
    } else {
        last_dot(name.drop_last())
    }
}

/// A file's name without its last extension; a dot in front begins none.
pub open spec fn stem(name: Seq<char>) -> Seq<char> {
    if last_dot(name) > 0 {
        name.take(last_dot(name) as int)
    } else {
        name
    }
}

/// The name of the program in a file: the file's name without directories and extension; none
/// where the path names no file.
pub open spec fn program_name(path: Seq<char>) -> Option<Seq<char>> {
    let name = last_part(path_parts(path), is_verbatim(path));
    if name.len() == 0 || name == "."@ || name == ".."@ {
        None
    } else {
        Some(stem(name))
    }
}

fn unify(path: &Vec<char>) -> (r: Vec<char>)
    ensures
        r@ == unified(path@),
{
    let ghost goal = unified(path@);
    let mut out: Vec<char> = Vec::new();
    let mut i: usize = 0;
    while i < path.len()
        invariant
            i <= path@.len(),
            goal == unified(path@),
            out@ == goal.take(i as int),
        decreases path@.len() - i,
    {
        let c = path[i];
        out.push(
            if c == '/' {
                '\\'
            } else {
                c
            },
        );
        assert(out@ =~= goal.take(i + 1));
        i += 1;
    }
    assert(goal.take(i as int) =~= goal);
    out
}

fn starts_with_drive(path: &Vec<char>) -> (r: bool)
    ensures
        r == has_drive(path@),
{
    path.len() >= 2 && path[1] == ':' && (('a' <= path[0] && path[0] <= 'z') || ('A' <= path[0]
        && path[0] <= 'Z'))
}

/// The lengths of a server's name and of its share's.
fn server_and_share(place: &Vec<char>) -> (r: (usize, usize))
    ensures
        r.0 == first_of(place@, '\\'),
        r.1 == share_len(place@),
        r.0 + r.1 <= place@.len(),
{
    let server = find_from(place, 0, '\\');
    assert(place@.skip(0) =~= place@);
    if server == place.len() {
        return (server, 0);
    }
    let end = find_from(place, server + 1, '\\');
    if end > server + 1 {
        (server, end - server)
    } else {
        (server, 0)
    }
}

fn prefix_end(path: &Vec<char>) -> (r: usize)
    ensures
        r == prefix_len(path@),
        r <= path@.len(),
{
    proof {
        reveal_strlit("\\\\?\\");
        reveal_strlit("\\\\.\\");
        reveal_strlit("\\\\");
        reveal_strlit("UNC\\");
    }
    if let Some(rest) = strip_prefix(path, "\\\\?\\") {
        if let Some(place) = strip_prefix(&rest, "UNC\\") {
            let (server, share) = server_and_share(&place);
            assert(path@.len() == 8 + place@.len() && path.len() == path@.len());
            return 8 + server + share;
        }
        if starts_with_drive(&rest) && (rest.len() == 2 || rest[2] == '\\' || rest[2] == '/') {
            return 6;
        }
        assert(rest@.skip(0) =~= rest@);
        assert(path@.len() == 4 + rest@.len() && path.len() == path@.len());
        return 4 + find_from(&rest, 0, '\\');
    }
    let plain = unify(path);
    if let Some(device) = strip_prefix(&plain, "\\\\.\\") {
        assert(device@.skip(0) =~= device@);
        assert(path@.len() == 4 + device@.len() && path.len() == path@.len());
        return 4 + find_from(&device, 0, '\\');
    }
    if let Some(place) = strip_prefix(&plain, "\\\\") {
        let (server, share) = server_and_share(&place);
        assert(path@.len() == 2 + place@.len() && path.len() == path@.len());
        if server > 0 && share > 0 {
            return 2 + server + share;
        }
        return 0;
    }
    if starts_with_drive(path) {
        2
    } else {
        0
    }
}

fn stem_of(name: &Vec<char>) -> (r: String)
    ensures
        r@ == stem(name@),
{
    let mut i: usize = name.len();
    assert(name@.take(i as int) =~= name@);
    while i > 0
        invariant
            i <= name@.len(),
            last_dot(name@) == last_dot(name@.take(i as int)),
        decreases i,
    {
        assert(name@.take(i as int).drop_last() =~= name@.take(i - 1));
        if name[i - 1] == '.' {
            if i == 1 {
                return string_of(name);
            }
            let head = slice_of(name, 0, i - 1);
            assert(head@ =~= name@.take(i - 1));
            return string_of(&head);
        }
        i -= 1;
    }
    string_of(name)
}

/// The name of the program in a file.
pub fn process_name(exe_path: &str) -> (r: Option<String>)
    ensures
        text_of(r) == program_name(exe_path@),
{
    let path = chars_of(exe_path);
    let from = prefix_end(&path);
    let rest = slice_of(&path, from, path.len());
    assert(rest@ =~= path@.skip(from as int));
    let verbatim = strip_prefix(&path, "\\\\?\\").is_some();
    let parts = if verbatim {
        split_all(&rest, '\\')
    } else {
        split_all(&unify(&rest), '\\')
    };
    let ghost all = texts(parts@);
    let mut i: usize = parts.len();
    assert(all.take(i as int) =~= all);
    while i > 0
        invariant
            i <= parts@.len(),
            all == texts(parts@),
            last_part(all, verbatim) == last_part(all.take(i as int), verbatim),
            program_name(exe_path@) == (if last_part(all, verbatim).len() == 0 || last_part(
                all,
                verbatim,
            ) == "."@ || last_part(all, verbatim) == ".."@ {
                None
            } else {
                Some(stem(last_part(all, verbatim)))
            }),
        decreases i,
    {
        assert(all.take(i as int).drop_last() =~= all.take(i - 1));
        assert(all.take(i as int).last() == parts@[i - 1]@);
        if parts[i - 1].len() > 0 && (verbatim || !spells(&parts[i - 1], ".")) {
            if spells(&parts[i - 1], ".") || spells(&parts[i - 1], "..") {
                return None;
            }
            return Some(stem_of(&parts[i - 1]));
        }
        i -= 1;
    }
    None
}

/// The name of the program in a file whose path is given in the system's units; none where the name
/// itself is not well-formed, so that it would depend on what stands for a lone surrogate.
pub open spec fn name_in_units(path: Seq<u16>) -> Option<Seq<char>> {
    let name = program_name(chars_marked(path, '\u{fffd}'));
    if name == program_name(chars_marked(path, '\u{fffe}')) {
        name
    } else {
        None
    }
}

/// The name of the program in a file whose path is given in the system's units.
pub fn name_of_units(path: &Vec<u16>) -> (r: Option<String>)
    ensures
        text_of(r) == name_in_units(path@),
{
    let once = process_name(decode_marked(path, '\u{fffd}').as_str());
    let again = process_name(decode_marked(path, '\u{fffe}').as_str());
    match (once, again) {
        (Some(a), Some(b)) => if same_text(a.as_str(), b.as_str()) {
            Some(a)
        } else {
            None
        },
        _ => None,
    }
}

/// What is known of the process `pid` that runs the program at `exe_path`: nothing where the path
/// names no file. `friendly` is what a lookup of the program's own name found.
pub fn process_details(
    pid: u32,
    exe_path: &str,
    friendly: Option<String>,
    cache: &mut ProcessMetadataCache,
) -> (r: Option<ProcessDetails>)
    ensures
        match program_name(exe_path@) {
            None => r is None && final(cache)@ == old(cache)@,
            Some(name) => {
                let shown = shown_name(old(cache)@, exe_path@, text_of(friendly), name);
                &&& r matches Some(d)
                &&& d.pid == pid
                &&& d.name@ == name
                &&& d.display_name@ == shown
                &&& d.exe_path@ == exe_path@
                &&& final(cache)@ == remembering(old(cache)@, exe_path@, shown)
            },
        },
{
    match process_name(exe_path) {
        None => None,
        Some(name) => {
            let display_name = cache.display_name_for_path(exe_path, friendly, name.as_str());
            Some(ProcessDetails { pid, name, display_name, exe_path: String::from_str(exe_path) })
        },
    }
}

/// The same, with nothing remembered.
pub fn process_details_uncached(pid: u32, exe_path: &str, friendly: Option<String>) -> (r: Option<
    ProcessDetails,
>)
    ensures
        match program_name(exe_path@) {
            None => r is None,
            Some(name) => {
                &&& r matches Some(d)
                &&& d.pid == pid
                &&& d.name@ == name
                &&& d.display_name@ == name_or_fallback(text_of(friendly), name)
                &&& d.exe_path@ == exe_path@
            },
        },
{
    let mut cache = ProcessMetadataCache::default();
    process_details(pid, exe_path, friendly, &mut cache)
}

/// A name is looked up once: what was shown for a path is shown again, whatever a later lookup
/// would find and however the path is capitalised, and the other names stay.
pub proof fn remembered_names_stay(
    cache: Map<Seq<char>, Seq<char>>,
    path: Seq<char>,
    friendly: Option<Seq<char>>,
    fallback: Seq<char>,
    again: Seq<char>,
    later: Option<Seq<char>>,
    other_fallback: Seq<char>,
)
    ensures
        ({
            let shown = shown_name(cache, path, friendly, fallback);
            let after = remembering(cache, path, shown);
            &&& path_key(again) == path_key(path) ==> shown_name(
                after,
                again,
                later,
                other_fallback,
            ) == shown
            &&& path_key(again) != path_key(path) ==> shown_name(
                after,
                again,
                later,
                other_fallback,
            ) == shown_name(cache, again, later, other_fallback)
        }),
{
}

/// The positive numbers in a list.
pub open spec fn positive(v: Seq<u32>) -> Seq<u32>
    decreases v.len(),
{
    if v.len() == 0 {
        Seq::empty()
    } else {
        let before = positive(v.drop_last());
        if v.last() > 0 {
            before.push(v.last())
        } else {
            before
        }
    }
}

/// What follows from one attempt to list the running processes.
#[derive(Debug)]
pub enum ListStep {
    /// The list is complete.
    Done(Vec<u32>),
    /// The list may be cut off; a buffer of this many numbers is to be tried next.
    Grow(usize),
}

/// What follows from one attempt to list the running processes into a buffer: nothing is listed
/// where it failed; a buffer that was not filled holds them all, less the number 0; one that was
/// filled must be larger.
pub fn list_running_pids(ok: bool, buffer: &Vec<u32>, bytes_returned: u32) -> (r: ListStep)
    requires
        buffer@.len() <= usize::MAX / 2,
    ensures
        match r {
            ListStep::Done(pids) => if ok {
                bytes_returned / 4 < buffer@.len() && pids@ == positive(
                    buffer@.take(bytes_returned as int / 4),
                )
            } else {
                pids@ == Seq::<u32>::empty()
            },
            ListStep::Grow(len) => ok && bytes_returned / 4 >= buffer@.len() && len == 2
                * buffer@.len(),
        },
{
    let mut out: Vec<u32> = Vec::new();
    if !ok {
        return ListStep::Done(out);
    }
    let count: u32 = bytes_returned / 4;
    if count as u64 >= buffer.len() as u64 {
        return ListStep::Grow(buffer.len() * 2);
    }
    let n: usize = count as usize;
    let ghost listed = buffer@.take(n as int);
    let mut i: usize = 0;
    assert(listed.take(0) =~= Seq::<u32>::empty());
    while i < n
        invariant
            i <= n < buffer@.len(),
            listed == buffer@.take(n as int),
            out@ == positive(listed.take(i as int)),
        decreases n - i,
    {
        assert(listed.take(i + 1).drop_last() =~= listed.take(i as int));
        if buffer[i] > 0 {
            out.push(buffer[i]);
        }
        i += 1;
    }
    assert(listed.take(i as int) =~= listed);
    ListStep::Done(out)
}

/// A hexadecimal digit.
pub open spec fn hex_digit(d: int) -> char {
    if d < 10 {
        (48 + d) as char
    } else {
        (55 + d) as char
    }
}

/// A number in hexadecimal, `n` digits of it.
pub open spec fn hex(v: int, n: nat) -> Seq<char>
    decreases n,
{
    if n == 0 {
        Seq::empty()
    } else {
        hex(v / 16, (n - 1) as nat).push(hex_digit(v % 16))
    }
}

fn hex_digit_of(d: u8) -> (r: char)
    requires
        d < 16,
    ensures
        r == hex_digit(d as int),
{
    if d < 10 {
        (48 + d) as char
    } else {
        (55 + d) as char
    }
}

fn push_hex(out: &mut String, v: u32, n: u32)
    ensures
        final(out)@ == old(out)@ + hex(v as int, n as nat),
    decreases n,
{
    if n > 0 {
        push_hex(out, v / 16, n - 1);
        out.push(hex_digit_of((v % 16) as u8));
    }
    assert(out@ =~= old(out)@ + hex(v as int, n as nat));
}

/// The first language of a program's version texts, as its file names it: four bytes, the lowest
/// first.
pub open spec fn language(b: Seq<u8>) -> int {
    b[0] + 0x100 * b[1] + 0x1_0000 * b[2] + 0x100_0000 * b[3]
}

/// Where a version text stands in a program's file; nowhere where no language is given.
pub fn version_subblock(translation: &[u8], field: &str) -> (r: Option<String>)
    ensures
        match r {
            Some(text) => translation@.len() >= 4 && text@ == "\\StringFileInfo\\"@ + hex(
                language(translation@),
                8,
            ) + "\\"@ + field@,
            None => translation@.len() < 4,
        },
{
    if translation.len() < 4 {
        return None;
    }
    let lang: u32 = translation[0] as u32 + 0x100 * (translation[1] as u32) + 0x1_0000 * (
    translation[2] as u32) + 0x100_0000 * (translation[3] as u32);
    let mut out = String::from_str("\\StringFileInfo\\");
    push_hex(&mut out, lang, 8);
    out.append("\\");
    out.append(field);
    Some(out)
}

/// A pixel as the system draws it, blue first, with red first: opaque, unless it is nearly white
/// and so part of the paper that the icon was drawn on.
pub open spec fn turned(b: u8, g: u8, r: u8) -> Seq<u8> {
    seq![
        r,
        g,
        b,
        if r > 245 && g > 245 && b > 245 {
            0u8
        } else {
            255u8
        },
    ]
}

/// Pixels with red first; a rest of fewer than four bytes is kept.
pub open spec fn turned_pixels(p: Seq<u8>) -> Seq<u8>
    decreases p.len(),
{
    if p.len() < 4 {
        p
    } else {
        turned(p[0], p[1], p[2]) + turned_pixels(p.skip(4))
    }
}

/// Pixels as the system draws them, blue first, with red first.
pub fn bgra_to_rgba(pixels: &Vec<u8>) -> (r: Vec<u8>)
    ensures
        r@ == turned_pixels(pixels@),
        r@.len() == pixels@.len(),
{
    let mut out: Vec<u8> = Vec::new();
    let mut i: usize = 0;
    assert(pixels@.skip(0) =~= pixels@);
    assert(out@ + turned_pixels(pixels@.skip(0)) =~= turned_pixels(pixels@));
    while pixels.len() - i >= 4
        invariant
            i <= pixels@.len(),
            out@.len() == i,
            out@ + turned_pixels(pixels@.skip(i as int)) == turned_pixels(pixels@),
        decreases pixels@.len() - i,
    {
        let ghost before = out@;
        let ghost rest = pixels@.skip(i as int);
        let (blue, green, red) = (pixels[i], pixels[i + 1], pixels[i + 2]);
        out.push(red);
        out.push(green);
        out.push(blue);
        out.push(
            if red > 245 && green > 245 && blue > 245 {
                0
            } else {
                255
            },
        );
        assert(out@ =~= before + turned(blue, green, red));
        assert(rest.skip(4) =~= pixels@.skip(i + 4));
        assert(before + (turned(blue, green, red) + turned_pixels(pixels@.skip(i + 4)))
            =~= out@ + turned_pixels(pixels@.skip(i + 4)));
        i += 4;
    }
    let ghost head = out@;
    let ghost at = i as int;
    let ghost tail = pixels@.skip(at);
    assert(head + tail.take(0) =~= out@);
    while i < pixels.len()
        invariant
            0 <= at <= i <= pixels@.len(),
            tail == pixels@.skip(at),
            out@ == head + tail.take(i - at),
        decreases pixels@.len() - i,
    {
        out.push(pixels[i]);
        assert(out@ =~= head + tail.take(i + 1 - at));
        i += 1;
    }
    assert(tail.take(i - at) =~= tail);
    out
}

/// A process icon.
#[derive(Debug)]
pub struct ProcessIcon {
    pub width: u32,
    pub height: u32,
    pub rgba: Vec<u8>,
}

/// The icon in pixels that the system drew, if it drew any line.
pub fn process_icon(lines: i32, pixels: &Vec<u8>) -> (r: Option<ProcessIcon>)
    ensures
        match r {
            Some(icon) => lines != 0 && icon.width == ICON_SIZE && icon.height == ICON_SIZE
                && icon.rgba@ == turned_pixels(pixels@),
            None => lines == 0,
        },
{
    if lines == 0 {
        return None;
    }
    Some(ProcessIcon { width: ICON_SIZE, height: ICON_SIZE, rgba: bgra_to_rgba(pixels) })
}

/// What is known of a process, as characters.
pub struct DetailsView {
    pub display_name: Seq<char>,
    pub exe_path: Seq<char>,
}

pub open spec fn details_in(m: Map<u32, ProcessDetails>, pid: u32) -> Option<DetailsView> {
    if m.contains_key(pid) {
        Some(DetailsView { display_name: m[pid].display_name@, exe_path: m[pid].exe_path@ })
    } else {
        None
    }
}

/// A row with the name and path of its program, where they are known: of a group, those of its
/// first process.
pub open spec fn described(row: RowView, m: Map<u32, ProcessDetails>) -> RowView {
    match row.kind {
        KindView::Global => row,
        KindView::Group { process_name, pids, expanded, .. } => if pids.len() == 0 {
            row
        } else {
            match details_in(m, pids[0]) {
                Some(d) => RowView {
                    kind: KindView::Group {
                        process_name,
                        display_name: d.display_name,
                        exe_path: d.exe_path,
                        pids,
                        expanded,
                    },
                    ..row
                },
                None => row,
            }
        },
        KindView::Child { process_name, pid, .. } => match details_in(m, pid) {
            Some(d) => RowView {
                kind: KindView::Child {
                    process_name,
                    display_name: d.display_name,
                    exe_path: d.exe_path,
                    pid,
                },
                ..row
            },
            None => row,
        },
    }
}

fn describe_row(row: &ProcessRow, details: &HashMap<u32, ProcessDetails>) -> (r: ProcessRow)
    ensures
        r@ == described(row@, details@),
{
    let copy = row.clone();
    let ProcessRow { kind, dl_bps, ul_bps, rule } = copy;
    let kind = match kind {
        RowKind::Global => RowKind::Global,
        RowKind::Group { process_name, display_name, exe_path, pids, expanded } => {
            let found = if pids.len() > 0 {
                details.get(&pids[0])
            } else {
                None
            };
            match found {
                Some(d) => RowKind::Group {
                    process_name,
                    display_name: d.display_name.clone(),
                    exe_path: d.exe_path.clone(),
                    pids,
                    expanded,
                },
                None => RowKind::Group { process_name, display_name, exe_path, pids, expanded },
            }
        },
        RowKind::Child { process_name, display_name, exe_path, pid } => match details.get(&pid) {
            Some(d) => RowKind::Child {
                process_name,
                display_name: d.display_name.clone(),
                exe_path: d.exe_path.clone(),
                pid,
            },
            None => RowKind::Child { process_name, display_name, exe_path, pid },
        },
    };
    ProcessRow { kind, dl_bps, ul_bps, rule }
}

/// Gives rows the names and paths of their programs, where they are known.
pub fn describe_rows(rows: &Vec<ProcessRow>, details: &HashMap<u32, ProcessDetails>) -> (r: Vec<
    ProcessRow,
>)
    ensures
        row_views(r@) == row_views(rows@).map_values(|row: RowView| described(row, details@)),
{
    let ghost goal = row_views(rows@).map_values(|row: RowView| described(row, details@));
    let mut out: Vec<ProcessRow> = Vec::new();
    let mut i: usize = 0;
    while i < rows.len()
        invariant
            i <= rows@.len(),
            goal == row_views(rows@).map_values(|row: RowView| described(row, details@)),
            row_views(out@) == goal.take(i as int),
        decreases rows@.len() - i,
    {
        let ghost before = row_views(out@);
        out.push(describe_row(&rows[i], details));
        assert(row_views(out@) =~= before.push(goal[i as int]));
        assert(row_views(out@) =~= goal.take(i + 1));
        i += 1;
    }
    assert(row_views(out@) =~= goal);
    out
}

} // verus!
