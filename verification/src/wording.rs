//! What taking texts and numbers apart, and putting them together, comes to.

use crate::divert::path_in;
use crate::elevation::with_spaces;
use crate::number::{ascii_lowercase, decimal, is_digit, signed_decimal, value_of, whole_number};
use crate::settings::{ended_lines, with_commas};
use crate::text::{
    begins_with, end_of_last, first_of, is_ascii_text, is_space, lemma_first_of, lowercase, split,
    split_at_first, split_at_last, trim_end, trim_start, trimmed,
};
use crate::wide::{before_zero, chars_in, chars_marked, units_in, units_of, units_of_char};
use vstd::prelude::*;

verus! {

/// Whether a text is all white space.
pub open spec fn is_blank(s: Seq<char>) -> bool {
    forall|i: int| 0 <= i < s.len() ==> is_space(#[trigger] s[i])
}

proof fn lemma_trim_start(s: Seq<char>) -> (n: int)
    ensures
        0 <= n <= s.len(),
        trim_start(s) == s.skip(n),
        is_blank(s.take(n)),
    decreases s.len(),
{
    if s.len() > 0 && is_space(s[0]) {
        let m = lemma_trim_start(s.drop_first());
        assert(s.drop_first().skip(m) =~= s.skip(m + 1));
        assert forall|i: int| 0 <= i < m + 1 implies is_space(#[trigger] s.take(m + 1)[i]) by {
            if i > 0 {
                assert(is_space(s.drop_first().take(m)[i - 1]));
            }
        }
        m + 1
    } else {
        assert(s.skip(0) =~= s);
        0
    }
}

proof fn lemma_trim_end(s: Seq<char>) -> (n: int)
    ensures
        0 <= n <= s.len(),
        trim_end(s) == s.take(n),
        is_blank(s.skip(n)),
    decreases s.len(),
{
    if s.len() > 0 && is_space(s.last()) {
        let t = s.drop_last();
        let n = lemma_trim_end(t);
        assert(t.take(n) =~= s.take(n));
        assert forall|i: int| 0 <= i < s.skip(n).len() implies is_space(
            #[trigger] s.skip(n)[i],
        ) by {
            if i < s.len() - 1 - n {
                assert(t.skip(n)[i] == s.skip(n)[i]);
                assert(is_space(t.skip(n)[i]));
            }
        }
        n
    } else {
        assert(s.take(s.len() as int) =~= s);
        s.len() as int
    }
}

/// Trimming takes white space off both ends, all of it, and nothing else.
pub proof fn trimming_takes_only_white_space(s: Seq<char>) -> (r: (Seq<char>, Seq<char>))
    ensures
        s == r.0 + trimmed(s) + r.1,
        is_blank(r.0),
        is_blank(r.1),
        trimmed(s).len() > 0 ==> !is_space(trimmed(s)[0]) && !is_space(trimmed(s).last()),
{
    crate::text::lemma_trimmed_shape(s);
    let n = lemma_trim_start(s);
    let t = s.skip(n);
    let m = lemma_trim_end(t);
    assert(s =~= s.take(n) + t.take(m) + t.skip(m));
    (s.take(n), t.skip(m))
}

/// A text is divided at the first of a character: nothing before it holds one, and nothing but that
/// character is lost. Where there is none it is not divided.
pub proof fn texts_divide_at_the_first(s: Seq<char>, c: char)
    ensures
        match split_at_first(s, c) {
            Some((a, b)) => s == a.push(c) + b && !a.contains(c),
            None => !s.contains(c),
        },
{
    lemma_first_of(s, c);
    let n = first_of(s, c) as int;
    if n < s.len() {
        assert(s =~= s.take(n).push(c) + s.skip(n + 1));
        assert(!s.take(n).contains(c));
    }
}

/// A text is divided at the last of a character: nothing behind it holds one, and nothing but that
/// character is lost. Where there is none it is not divided.
pub proof fn texts_divide_at_the_last(s: Seq<char>, c: char)
    ensures
        match split_at_last(s, c) {
            Some((a, b)) => s == a.push(c) + b && !b.contains(c),
            None => !s.contains(c),
        },
{
    lemma_end_of_last_found(s, c);
    let n = end_of_last(s, c) as int;
    if n > 0 {
        assert(s =~= s.take(n - 1).push(c) + s.skip(n));
        assert(!s.skip(n).contains(c));
    }
}

proof fn lemma_end_of_last_found(s: Seq<char>, c: char)
    ensures
        end_of_last(s, c) <= s.len(),
        end_of_last(s, c) > 0 ==> s[end_of_last(s, c) - 1] == c,
        forall|i: int| end_of_last(s, c) <= i < s.len() ==> s[i] != c,
    decreases s.len(),
{
    if s.len() > 0 && s.last() != c {
        lemma_end_of_last_found(s.drop_last(), c);
        assert forall|i: int| end_of_last(s, c) <= i < s.len() implies s[i] != c by {
            if i < s.len() - 1 {
                assert(s[i] == s.drop_last()[i]);
            }
        }
    }
}

/// A text falls into pieces just where the character stands: a piece holds none, two texts with one
/// between them fall into the pieces of both, and a text without any is one piece.
pub proof fn texts_fall_into_pieces(a: Seq<char>, b: Seq<char>, c: char, i: int)
    ensures
        split(a.push(c) + b, c) == split(a, c) + split(b, c),
        !a.contains(c) ==> split(a, c) == seq![a],
        0 <= i < split(a, c).len() ==> !split(a, c)[i].contains(c),
    decreases a.len(),
{
    crate::stored::split_of_joined(a, b, c);
    lemma_first_of(a, c);
    let n = first_of(a, c) as int;
    if n < a.len() {
        assert(a[n] == c);
        let rest = a.skip(n + 1);
        texts_fall_into_pieces(rest, b, c, i - 1);
        assert(!a.take(n).contains(c));
        if i > 0 && i < split(a, c).len() {
            assert(split(a, c)[i] == split(rest, c)[i - 1]);
        }
    } else {
        assert(!a.contains(c));
    }
}

/// A text begins with another where that and a rest make it up.
pub proof fn texts_begin_with_their_beginnings(s: Seq<char>, prefix: Seq<char>, rest: Seq<char>)
    ensures
        begins_with(prefix + rest, prefix),
        begins_with(s, prefix) ==> s == prefix + s.skip(prefix.len() as int),
{
    assert((prefix + rest).take(prefix.len() as int) =~= prefix);
    if begins_with(s, prefix) {
        assert(s =~= s.take(prefix.len() as int) + s.skip(prefix.len() as int));
    }
}

/// In lower case the letters A to Z of an ASCII text become a to z, and nothing else changes.
pub proof fn lower_case_changes_capitals_alone(s: Seq<char>, i: int)
    requires
        0 <= i < s.len(),
    ensures
        ascii_lowercase(s).len() == s.len(),
        'A' <= s[i] <= 'Z' ==> ascii_lowercase(s)[i] as int == s[i] as int + 32,
        !('A' <= s[i] <= 'Z') ==> ascii_lowercase(s)[i] == s[i],
        is_ascii_text(s) ==> lowercase(s) == ascii_lowercase(s),
{
}

/// Numbers are written with the digits 0 to 9, the highest first and never a needless zero, and
/// with a minus sign in front where they are below zero.
pub proof fn numbers_are_written_in_decimal(n: nat, k: nat)
    ensures
        n < 10 ==> decimal(n).len() == 1 && decimal(n)[0] as int == '0' as int + n,
        k < 10 && n > 0 ==> decimal(10 * n + k).len() == decimal(n).len() + 1 && decimal(10 * n + k)
            == decimal(n) + decimal(k),
        n > 0 ==> decimal(n)[0] != '0',
        signed_decimal(n as int) == decimal(n),
        n > 0 ==> signed_decimal(-n) == seq!['-'] + decimal(n),
    decreases n,
{
    if k < 10 && n > 0 {
        assert((10 * n + k) / 10 == n && (10 * n + k) % 10 == k);
        assert(decimal(10 * n + k) =~= decimal(n) + decimal(k));
    }
    if n >= 10 {
        numbers_are_written_in_decimal(n / 10, k);
        crate::number::decimal_reads_back(n / 10);
    }
}

/// Digits are read from left to right, each counting for ten times the one behind it.
pub proof fn digits_are_read_from_left_to_right(s: Seq<char>, c: char, max: nat)
    ensures
        value_of(Seq::empty()) == 0,
        is_digit(c) == ('0' as int <= c as int <= '9' as int),
        is_digit(c) ==> value_of(s.push(c)) == 10 * value_of(s) + (c as int - '0' as int),
        whole_number(s, max) matches Some(n) ==> n <= max,
        s.len() > 0 && (forall|i: int| 0 <= i < s.len() ==> '0' as int <= #[trigger] s[i] as int
            && s[i] as int <= '9' as int) && value_of(s) <= max ==> whole_number(s, max) == Some(
            value_of(s),
        ) && whole_number(seq!['+'] + s, max) == Some(value_of(s)),
        s.contains('-') || s.contains('.') || s.len() == 0 ==> whole_number(s, max) is None,
{
    assert(s.push(c).drop_last() =~= s);
    let plus = seq!['+'] + s;
    assert(plus.drop_first() =~= s);
    if s.len() > 0 && s[0] == '+' {
        let t = s.drop_first();
        if s.contains('-') {
            let i = choose|i: int| 0 <= i < s.len() && s[i] == '-';
            assert(t[i - 1] == '-');
        }
        if s.contains('.') {
            let i = choose|i: int| 0 <= i < s.len() && s[i] == '.';
            assert(t[i - 1] == '.');
        }
    }
}

/// A character below U+10000 is one unit, its own number; any other is a high and a low surrogate
/// that share its number out between them. Texts are written one character behind the other.
pub proof fn units_share_out_characters(a: Seq<char>, b: Seq<char>, c: char)
    ensures
        units_of(a + b) == units_of(a) + units_of(b),
        (c as int) < 0x1_0000 ==> units_of(seq![c]).len() == 1 && units_of(seq![c])[0] == c as int,
        c as int >= 0x1_0000 ==> {
            let u = units_of(seq![c]);
            &&& u.len() == 2
            &&& 0xD800 <= u[0] <= 0xDBFF
            &&& 0xDC00 <= u[1] <= 0xDFFF
            &&& (u[0] - 0xD800) * 0x400 + (u[1] - 0xDC00) + 0x1_0000 == c as int
        },
    decreases b.len(),
{
    let one = seq![c];
    assert(one.drop_last() =~= Seq::<char>::empty());
    assert(units_of(one.drop_last()) =~= Seq::<u16>::empty());
    assert(units_of(one) =~= units_of_char(c));
    if b.len() == 0 {
        assert(a + b =~= a);
        assert(units_of(a) + units_of(b) =~= units_of(a));
    } else {
        assert((a + b).drop_last() =~= a + b.drop_last());
        units_share_out_characters(a, b.drop_last(), c);
        assert(units_of(a) + units_of(b) =~= units_of(a) + units_of(b.drop_last())
            + units_of_char(b.last()));
    }
}

/// Units are read from left to right: a high surrogate with a low one behind it as the character
/// that they share out, either of them alone as the mark for what cannot be read, and any other
/// unit as the character of its number.
pub proof fn units_are_read_from_left_to_right(u: Seq<u16>, mark: char)
    requires
        u.len() > 0,
    ensures
        ({
            let high = 0xD800 <= u[0] <= 0xDBFF;
            let low = 0xDC00 <= u[0] <= 0xDFFF;
            let paired = high && u.len() > 1 && 0xDC00 <= u[1] <= 0xDFFF;
            let r = chars_marked(u, mark);
            &&& r.len() > 0
            &&& paired ==> r[0] as int == (u[0] - 0xD800) * 0x400 + (u[1] - 0xDC00) + 0x1_0000
                && r.drop_first() == chars_marked(u.skip(2), mark)
            &&& !paired && (high || low) ==> r[0] == mark && r.drop_first() == chars_marked(
                u.drop_first(),
                mark,
            )
            &&& !high && !low ==> r[0] as int == u[0] && r.drop_first() == chars_marked(
                u.drop_first(),
                mark,
            )
        }),
        chars_in(u) == chars_marked(u, '\u{fffd}'),
        chars_in(Seq::empty()).len() == 0,
{
    let r = chars_marked(u, mark);
    let high = 0xD800 <= u[0] <= 0xDBFF;
    let paired = high && u.len() > 1 && 0xDC00 <= u[1] <= 0xDFFF;
    if paired {
        assert(r.drop_first() =~= chars_marked(u.skip(2), mark));
        let v = (u[0] - 0xD800) * 0x400 + (u[1] - 0xDC00) + 0x1_0000;
        assert(0x1_0000 <= v <= 0x10_ffff);
    } else {
        assert(r.drop_first() =~= chars_marked(u.drop_first(), mark));
    }
}

/// Bytes make up units two by two, the lower byte first.
pub proof fn bytes_make_up_units(b: Seq<u8>, i: int)
    ensures
        units_in(b).len() * 2 <= b.len() < units_in(b).len() * 2 + 2,
        0 <= i < units_in(b).len() ==> units_in(b)[i] == b[2 * i] + 256 * b[2 * i + 1],
{
}

/// Units are read up to the first zero, which is not, nor is anything behind it.
pub proof fn units_end_at_the_first_zero(u: Seq<u16>)
    ensures
        before_zero(u).len() <= u.len(),
        before_zero(u) == u.take(before_zero(u).len() as int),
        forall|i: int| 0 <= i < before_zero(u).len() ==> #[trigger] u[i] != 0,
        before_zero(u).len() < u.len() ==> u[before_zero(u).len() as int] == 0,
    decreases u.len(),
{
    if u.len() > 0 && u[0] != 0 {
        let t = u.drop_first();
        units_end_at_the_first_zero(t);
        let n = before_zero(t).len() as int;
        assert(before_zero(u) =~= u.take(n + 1));
        assert forall|i: int| 0 <= i < n + 1 implies #[trigger] u[i] != 0 by {
            if i > 0 {
                assert(t[i - 1] != 0);
            }
        }
        if n < t.len() {
            assert(t[n] == u[n + 1]);
        }
    } else {
        assert(u.take(0) =~= before_zero(u));
    }
}

/// Arguments are joined by single spaces, names by single commas, in their order; one alone stays as
/// it is.
pub proof fn texts_are_joined_by_single_marks(a: Seq<Seq<char>>, b: Seq<Seq<char>>, x: Seq<char>)
    requires
        a.len() > 0,
        b.len() > 0,
    ensures
        with_spaces(Seq::empty()).len() == 0,
        with_spaces(seq![x]) == x,
        with_spaces(a + b) == with_spaces(a).push(' ') + with_spaces(b),
        with_commas(Seq::empty()).len() == 0,
        with_commas(seq![x]) == x,
        with_commas(a + b) == with_commas(a).push(',') + with_commas(b),
    decreases b.len(),
{
    assert((a + b).drop_last() =~= a + b.drop_last());
    assert((a + b).last() == b.last());
    if b.len() == 1 {
        assert(b.drop_last() =~= Seq::<Seq<char>>::empty());
        assert(a + b.drop_last() =~= a);
    } else {
        texts_are_joined_by_single_marks(a, b.drop_last(), x);
        let c = b.drop_last();
        assert(with_spaces(a).push(' ') + with_spaces(b) =~= (with_spaces(a).push(' ')
            + with_spaces(c)).push(' ') + b.last());
        assert(with_commas(a).push(',') + with_commas(b) =~= (with_commas(a).push(',')
            + with_commas(c)).push(',') + b.last());
    }
}

/// Lines stand one behind the other, each with a line break at its end.
pub proof fn lines_are_ended(a: Seq<Seq<char>>, b: Seq<Seq<char>>, x: Seq<char>)
    ensures
        ended_lines(Seq::empty()).len() == 0,
        ended_lines(seq![x]) == x.push('\n'),
        ended_lines(a + b) == ended_lines(a) + ended_lines(b),
    decreases b.len(),
{
    let one = seq![x];
    assert(one.drop_last() =~= Seq::<Seq<char>>::empty());
    assert(ended_lines(one.drop_last()) =~= Seq::<char>::empty());
    assert(ended_lines(one) =~= x.push('\n'));
    if b.len() == 0 {
        assert(a + b =~= a);
        assert(ended_lines(a) + ended_lines(b) =~= ended_lines(a));
    } else {
        assert((a + b).drop_last() =~= a + b.drop_last());
        lines_are_ended(a, b.drop_last(), x);
        assert(ended_lines(a) + ended_lines(b) =~= (ended_lines(a) + ended_lines(b.drop_last())
            + b.last()).push('\n'));
    }
}

/// A file's path is its directory's, a separator where none is there yet, and its name; in no
/// directory, and on a bare drive, it is not parted.
pub proof fn paths_lead_into_their_directory(dir: Seq<char>, file: Seq<char>)
    ensures
        path_in(Seq::empty(), file) == file,
        dir.len() > 0 && (dir.last() == '\\' || dir.last() == '/') ==> path_in(dir, file) == dir
            + file,
        dir.len() == 2 && dir[1] == ':' ==> path_in(dir, file) == dir + file,
        dir.len() > 0 && dir.last() != '\\' && dir.last() != '/' && !(dir.len() == 2 && dir[1]
            == ':') ==> path_in(dir, file) == dir + seq!['\\'] + file,
{
    assert(path_in(Seq::empty(), file) =~= file);
    assert(dir.push('\\') + file =~= dir + seq!['\\'] + file);
}

} // verus!
