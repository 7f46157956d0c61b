//! What programs are called, how they look, and which of them run.

use crate::number::ascii_lowercase;
use crate::process::{
    described, friendly_name, hex, is_verbatim, language, last_dot, last_part, name_in_units,
    name_or_fallback, names_by_path, path_key, positive, prefix_len, program_name, remembering,
    share_len, shown_name, stem, turned_pixels, unified, ProcessDetails,
};
use crate::rows::{KindView, RowView};
use crate::text::{first_of, lemma_first_of_unique, split, trimmed};
use crate::wide::{chars_in, chars_marked, units_of};
use vstd::prelude::*;

verus! {

/// A program calls itself by its description, or by its product where it has none, without the
/// white space around it; a blank one is no name, whatever the other says.
pub proof fn programs_name_themselves(
    description: Seq<char>,
    product: Option<Seq<char>>,
    name: Seq<char>,
)
    ensures
        trimmed(description).len() > 0 ==> friendly_name(Some(description), product) == Some(
            trimmed(description),
        ),
        trimmed(description).len() == 0 ==> friendly_name(Some(description), product) is None,
        trimmed(name).len() > 0 ==> friendly_name(None, Some(name)) == Some(trimmed(name)),
        trimmed(name).len() == 0 ==> friendly_name(None, Some(name)) is None,
        friendly_name(None, None) is None,
{
}

/// A program is shown by the name remembered for its path, in whatever case that is written, else
/// by the name that it has for itself, else by the fallback; what is shown is remembered, and no
/// other name with it.
pub proof fn programs_are_shown_by_name(
    cache: Map<Seq<char>, Seq<char>>,
    path: Seq<char>,
    friendly: Seq<char>,
    fallback: Seq<char>,
    shown: Seq<char>,
    other: Seq<char>,
)
    ensures
        ({
            let key = ascii_lowercase(path);
            let after = remembering(cache, path, shown);
            &&& path_key(path) == key
            &&& cache.contains_key(key) ==> shown_name(cache, path, Some(friendly), fallback)
                == cache[key] && shown_name(cache, path, None, fallback) == cache[key] && after
                == cache
            &&& !cache.contains_key(key) && friendly.len() > 0 ==> shown_name(
                cache,
                path,
                Some(friendly),
                fallback,
            ) == friendly
            &&& !cache.contains_key(key) ==> shown_name(cache, path, None, fallback) == fallback
                && shown_name(cache, path, Some(Seq::empty()), fallback) == fallback
                && after.contains_pair(key, shown)
            &&& other != key ==> after.contains_key(other) == cache.contains_key(other) && (
            cache.contains_key(other) ==> after[other] == cache[other])
        }),
        name_or_fallback(None, fallback) == fallback,
        name_or_fallback(Some(Seq::empty()), fallback) == fallback,
        friendly.len() > 0 ==> name_or_fallback(Some(friendly), fallback) == friendly,
{
}

/// Every path in a list has a name, the one that it was given first.
pub proof fn first_names_count(v: Seq<(String, String)>, i: int)
    requires
        0 <= i < v.len(),
        forall|j: int| 0 <= j < i ==> (#[trigger] v[j]).0@ != v[i].0@,
    ensures
        names_by_path(v).contains_pair(v[i].0@, v[i].1@),
    decreases v.len(),
{
    let t = v.drop_last();
    if i < v.len() - 1 {
        assert(t[i] == v[i]);
        assert forall|j: int| 0 <= j < i implies (#[trigger] t[j]).0@ != t[i].0@ by {
            assert(t[j] == v[j]);
        }
        first_names_count(t, i);
    } else {
        lemma_unlisted(t, v[i].0@);
    }
}

proof fn lemma_unlisted(v: Seq<(String, String)>, key: Seq<char>)
    requires
        forall|j: int| 0 <= j < v.len() ==> (#[trigger] v[j]).0@ != key,
    ensures
        !names_by_path(v).contains_key(key),
    decreases v.len(),
{
    if v.len() > 0 {
        let t = v.drop_last();
        assert forall|j: int| 0 <= j < t.len() implies (#[trigger] t[j]).0@ != key by {
            assert(t[j] == v[j]);
        }
        lemma_unlisted(t, key);
        assert(v[v.len() - 1] == v.last());
    }
}

/// Of a list of process numbers the zeros are left out, and nothing else; the rest stays in order.
pub proof fn zeros_are_no_processes(a: Seq<u32>, b: Seq<u32>, x: u32)
    ensures
        positive(Seq::empty()).len() == 0,
        positive(seq![x]) == if x == 0 {
            Seq::<u32>::empty()
        } else {
            seq![x]
        },
        positive(a + b) == positive(a) + positive(b),
    decreases b.len(),
{
    let one = seq![x];
    assert(one.drop_last() =~= Seq::<u32>::empty());
    assert(positive(one.drop_last()) =~= Seq::<u32>::empty());
    assert(positive(one) =~= if x == 0 {
        Seq::<u32>::empty()
    } else {
        seq![x]
    });
    if b.len() == 0 {
        assert(a + b =~= a);
        assert(positive(a) + positive(b) =~= positive(a));
    } else {
        assert((a + b).drop_last() =~= a + b.drop_last());
        zeros_are_no_processes(a, b.drop_last(), x);
        assert(positive(a + b) =~= positive(a) + positive(b));
    }
}

/// The letter or figure for a number below sixteen.
pub open spec fn hex_figure(d: int) -> char {
    "0123456789ABCDEF"@[d]
}

/// Numbers are written in hexadecimal with the highest figure first and as many figures as are asked
/// for.
pub proof fn hexadecimals_are_written_highest_first(v: int, d: int, n: nat)
    requires
        0 <= v,
        0 <= d < 16,
    ensures
        hex(v, 0).len() == 0,
        hex(v, n).len() == n,
        hex(16 * v + d, n + 1) == hex(v, n).push(hex_figure(d)),
    decreases n,
{
    reveal_strlit("0123456789ABCDEF");
    assert((16 * v + d) / 16 == v && (16 * v + d) % 16 == d);
    if n > 0 {
        assert(0 <= v / 16 && 0 <= v % 16 < 16 && v == 16 * (v / 16) + v % 16);
        hexadecimals_are_written_highest_first(v / 16, v % 16, (n - 1) as nat);
    }
}

/// The language of a program's texts is in the first four bytes, the lowest first.
pub proof fn languages_have_the_lowest_byte_first(b: Seq<u8>)
    requires
        b.len() >= 4,
    ensures
        language(b) % 256 == b[0],
        (language(b) / 256) % 256 == b[1],
        (language(b) / 65536) % 256 == b[2],
        language(b) / 16777216 == b[3],
{
}

/// Each pixel keeps its place and its colours, red and blue changing places; it is opaque unless it
/// is nearly white, and then it is clear. What is no whole pixel stays.
pub proof fn pixels_keep_their_place(p: Seq<u8>, k: int)
    requires
        0 <= k,
    ensures
        turned_pixels(p).len() == p.len(),
        4 * k + 4 <= p.len() ==> {
            let r = turned_pixels(p);
            &&& r[4 * k] == p[4 * k + 2]
            &&& r[4 * k + 1] == p[4 * k + 1]
            &&& r[4 * k + 2] == p[4 * k]
            &&& (p[4 * k] > 245 && p[4 * k + 1] > 245 && p[4 * k + 2] > 245) ==> r[4 * k + 3] == 0
            &&& !(p[4 * k] > 245 && p[4 * k + 1] > 245 && p[4 * k + 2] > 245) ==> r[4 * k + 3]
                == 255
        },
        p.len() < 4 ==> turned_pixels(p) == p,
    decreases p.len(),
{
    if p.len() >= 4 {
        let t = p.skip(4);
        if k > 0 {
            pixels_keep_their_place(t, k - 1);
            if 4 * k + 4 <= p.len() {
                let r = turned_pixels(p);
                let q = turned_pixels(t);
                assert(r[4 * k] == q[4 * (k - 1)]);
                assert(r[4 * k + 1] == q[4 * (k - 1) + 1]);
                assert(r[4 * k + 2] == q[4 * (k - 1) + 2]);
                assert(r[4 * k + 3] == q[4 * (k - 1) + 3]);
                assert(t[4 * (k - 1)] == p[4 * k]);
                assert(t[4 * (k - 1) + 1] == p[4 * k + 1]);
                assert(t[4 * (k - 1) + 2] == p[4 * k + 2]);
            }
        } else {
            pixels_keep_their_place(t, 0);
        }
    }
}

/// A row is given the name and path of its program where they are known: a process's row those of
/// the process, a group's row those of its first process. Nothing else of it changes.
pub proof fn rows_are_described_by_their_program(row: RowView, m: Map<u32, ProcessDetails>)
    ensures
        ({
            let r = described(row, m);
            &&& r.dl_bps == row.dl_bps && r.ul_bps == row.ul_bps && r.rule == row.rule
            &&& match row.kind {
                KindView::Global => r == row,
                KindView::Group { process_name, pids, expanded, .. } => {
                    &&& pids.len() == 0 || !m.contains_key(pids[0]) ==> r == row
                    &&& pids.len() > 0 && m.contains_key(pids[0]) ==> r.kind == (KindView::Group {
                        process_name,
                        display_name: m[pids[0]].display_name@,
                        exe_path: m[pids[0]].exe_path@,
                        pids,
                        expanded,
                    })
                },
                KindView::Child { process_name, pid, .. } => {
                    &&& !m.contains_key(pid) ==> r == row
                    &&& m.contains_key(pid) ==> r.kind == (KindView::Child {
                        process_name,
                        display_name: m[pid].display_name@,
                        exe_path: m[pid].exe_path@,
                        pid,
                    })
                },
            }
        }),
{
}

/// Whether a text is the name of a file: something, without separators, and neither dot nor dots.
pub open spec fn is_file_name(name: Seq<char>) -> bool {
    &&& name.len() > 0
    &&& !name.contains('\\')
    &&& !name.contains('/')
    &&& name != "."@
    &&& name != ".."@
}

proof fn lemma_unified(s: Seq<char>)
    requires
        !s.contains('/'),
    ensures
        unified(s) == s,
{
    assert forall|i: int| 0 <= i < s.len() implies unified(s)[i] == s[i] by {
        assert(s.contains(s[i]));
    }
    assert(unified(s) =~= s);
}

proof fn lemma_unsplit(s: Seq<char>, c: char)
    requires
        !s.contains(c),
    ensures
        split(s, c) == seq![s],
        first_of(s, c) == s.len(),
{
    assert forall|i: int| 0 <= i < s.len() implies s[i] != c by {
        assert(s.contains(s[i]));
    }
    lemma_first_of_unique(s, c, s.len());
}

proof fn lemma_last_parts(before: Seq<Seq<char>>, name: Seq<char>)
    requires
        is_file_name(name),
    ensures
        last_part(before.push(name), false) == name,
        last_part(before.push(name).push(Seq::empty()), false) == name,
{
    let parts = before.push(name);
    assert(parts.push(Seq::empty()).drop_last() =~= parts);
    assert(last_part(parts, false) == name);
}

proof fn lemma_named_by_rest(path: Seq<char>, lead: Seq<char>, name: Seq<char>)
    requires
        is_file_name(name),
        !is_verbatim(path),
        prefix_len(path) <= path.len(),
        path.skip(prefix_len(path) as int) == lead.push('\\') + name || path.skip(
            prefix_len(path) as int,
        ) == (lead.push('\\') + name).push('\\'),
    ensures
        program_name(path) == Some(stem(name)),
{
    let rest = path.skip(prefix_len(path) as int);
    let a = unified(lead);
    lemma_unified(name);
    lemma_unsplit(name, '\\');
    let short = lead.push('\\') + name;
    assert(unified(short) =~= a.push('\\') + name);
    crate::stored::split_of_joined(a, name, '\\');
    let parts = split(a, '\\').push(name);
    assert(split(unified(short), '\\') =~= parts);
    lemma_last_parts(split(a, '\\'), name);
    if rest != short {
        let none = Seq::<char>::empty();
        assert(unified(rest) =~= unified(short).push('\\') + none);
        crate::stored::split_of_joined(unified(short), none, '\\');
        lemma_unsplit(none, '\\');
        assert(split(unified(rest), '\\') =~= parts.push(none));
    }
}

/// A program on a drive is called by its file's name without the extension, whatever directories lead
/// to it, and with or without a separator behind it.
pub proof fn programs_on_drives_are_called_by_their_files(
    drive: char,
    dirs: Seq<char>,
    name: Seq<char>,
)
    requires
        'a' <= drive <= 'z' || 'A' <= drive <= 'Z',
        is_file_name(name),
    ensures
        program_name(seq![drive, ':'] + dirs.push('\\') + name) == Some(stem(name)),
        program_name((seq![drive, ':'] + dirs.push('\\') + name).push('\\')) == Some(stem(name)),
{
    reveal_strlit("\\\\?\\");
    reveal_strlit("\\\\.\\");
    reveal_strlit("\\\\");
    let short = seq![drive, ':'] + dirs.push('\\') + name;
    let long = short.push('\\');
    assert(short.take(4)[0] == drive && long.take(4)[0] == drive);
    assert(unified(short).take(4)[0] == drive && unified(long).take(4)[0] == drive);
    assert(unified(short).take(2)[0] == drive && unified(long).take(2)[0] == drive);
    assert("\\\\?\\"@[0] == '\\' && "\\\\.\\"@[0] == '\\' && "\\\\"@[0] == '\\');
    assert(prefix_len(short) == 2 && prefix_len(long) == 2);
    assert(short.skip(2) =~= dirs.push('\\') + name);
    assert(long.skip(2) =~= (dirs.push('\\') + name).push('\\'));
    lemma_named_by_rest(short, dirs, name);
    lemma_named_by_rest(long, dirs, name);
}

/// Server and share are no directories: a program behind them is called by its file's name.
pub proof fn programs_on_shares_are_called_by_their_files(
    server: Seq<char>,
    share: Seq<char>,
    dirs: Seq<char>,
    name: Seq<char>,
)
    requires
        is_file_name(server),
        is_file_name(share),
        server[0] != '?' && server[0] != '.',
        is_file_name(name),
        dirs.len() == 0 || dirs[0] == '\\',
    ensures
        program_name(
            seq!['\\', '\\'] + server.push('\\') + share + dirs.push('\\') + name,
        ) == Some(stem(name)),
{
    reveal_strlit("\\\\?\\");
    reveal_strlit("\\\\.\\");
    reveal_strlit("\\\\");
    let path = seq!['\\', '\\'] + server.push('\\') + share + dirs.push('\\') + name;
    let plain = unified(path);
    assert(server.contains(server[0]));
    assert(path[2] == server[0] && plain[2] == server[0]);
    assert(path.take(4)[2] == server[0] && plain.take(4)[2] == server[0]);
    assert("\\\\?\\"@[2] == '?' && "\\\\.\\"@[2] == '.');
    assert(plain.take(2) =~= "\\\\"@);
    let place = plain.skip(2);
    assert forall|i: int| 0 <= i < server.len() implies place[i] != '\\' by {
        assert(server.contains(server[i]));
        assert(place[i] == server[i]);
    }
    let s = server.len();
    assert(place[s as int] == '\\');
    lemma_first_of_unique(place, '\\', s);
    let after = place.skip(s as int + 1);
    assert forall|i: int| 0 <= i < share.len() implies after[i] != '\\' by {
        assert(share.contains(share[i]));
        assert(after[i] == share[i]);
    }
    assert(after[share.len() as int] == '\\');
    lemma_first_of_unique(after, '\\', share.len());
    assert(share_len(place) == 1 + share.len());
    assert(prefix_len(path) == 2 + s + 1 + share.len());
    assert(path.skip(prefix_len(path) as int) =~= dirs.push('\\') + name);
    lemma_named_by_rest(path, dirs, name);
}

/// An extension is what stands behind the last dot, unless nothing stands in front of that; without
/// one a name stays whole.
pub proof fn extensions_are_cut_off(base: Seq<char>, extension: Seq<char>)
    requires
        !extension.contains('.'),
    ensures
        base.len() > 0 ==> stem(base.push('.') + extension) == base,
        stem(seq!['.'] + extension) == seq!['.'] + extension,
        stem(extension) == extension,
{
    lemma_last_dot(base, extension);
    lemma_last_dot(Seq::empty(), extension);
    lemma_no_dot(extension);
    assert(Seq::<char>::empty().push('.') + extension =~= seq!['.'] + extension);
    let whole = base.push('.') + extension;
    assert(whole.take(base.len() as int) =~= base);
}

proof fn lemma_no_dot(s: Seq<char>)
    requires
        !s.contains('.'),
    ensures
        last_dot(s) == 0,
    decreases s.len(),
{
    if s.len() > 0 {
        assert(s.contains(s.last()));
        let t = s.drop_last();
        assert(!t.contains('.')) by {
            if t.contains('.') {
                let i = choose|i: int| 0 <= i < t.len() && t[i] == '.';
                assert(s[i] == '.');
            }
        }
        lemma_no_dot(t);
    }
}

proof fn lemma_last_dot(base: Seq<char>, extension: Seq<char>)
    requires
        !extension.contains('.'),
    ensures
        last_dot(base.push('.') + extension) == base.len(),
    decreases extension.len(),
{
    let whole = base.push('.') + extension;
    if extension.len() == 0 {
        assert(whole =~= base.push('.'));
    } else {
        let t = extension.drop_last();
        assert(extension.contains(extension.last()));
        assert(!t.contains('.')) by {
            if t.contains('.') {
                let i = choose|i: int| 0 <= i < t.len() && t[i] == '.';
                assert(extension[i] == '.');
            }
        }
        assert(whole.drop_last() =~= base.push('.') + t);
        assert(whole.last() == extension.last());
        lemma_last_dot(base, t);
    }
}

/// A path that can be written in units is named as it is spelled; one whose name cannot be read has
/// none, so that the same name is found whatever stands for what cannot be read.
pub proof fn paths_in_units_are_named_as_spelled(path: Seq<char>, units: Seq<u16>)
    ensures
        name_in_units(units_of(path)) == program_name(path),
        name_in_units(units) is Some ==> name_in_units(units) == program_name(chars_in(units)),
        name_in_units(units) is Some ==> name_in_units(units) == program_name(
            chars_marked(units, '\u{fffe}'),
        ),
        program_name(chars_in(units)) is None ==> name_in_units(units) is None,
{
    crate::wide::units_read_back_under_any_mark(path, '\u{fffd}');
    crate::wide::units_read_back_under_any_mark(path, '\u{fffe}');
}

} // verus!
