//! Text as sequences of characters: trimming, splitting, comparing and joining.

use crate::number::ascii_lowercase;
use vstd::prelude::*;

verus! {

/// The `White_Space` property of Unicode.
pub open spec fn is_space(c: char) -> bool {
    ||| '\u{9}' <= c <= '\u{d}'
    ||| c == ' '
    ||| c == '\u{85}'
    ||| c == '\u{a0}'
    ||| c == '\u{1680}'
    ||| '\u{2000}' <= c <= '\u{200a}'
    ||| c == '\u{2028}'
    ||| c == '\u{2029}'
    ||| c == '\u{202f}'
    ||| c == '\u{205f}'
    ||| c == '\u{3000}'
}

/// Whether `c` is white space.
pub fn is_whitespace(c: char) -> (r: bool)
    ensures
        r == is_space(c),
{
    ('\u{9}' <= c && c <= '\u{d}') || c == ' ' || c == '\u{85}' || c == '\u{a0}' || c == '\u{1680}'
        || ('\u{2000}' <= c && c <= '\u{200a}') || c == '\u{2028}' || c == '\u{2029}' || c
        == '\u{202f}' || c == '\u{205f}' || c == '\u{3000}'
}

/// Appends one character to a string: `String::push`.
pub assume_specification[ String::push ](s: &mut String, c: char)
    ensures
        final(s)@ == old(s)@.push(c),
;

/// The characters of a string.
pub fn chars_of(s: &str) -> (r: Vec<char>)
    ensures
        r@ == s@,
{
    let mut out: Vec<char> = Vec::new();
    for c in it: s.chars()
        invariant
            out@ == it.seq().take(it.index() as int),
            it.seq() == s@,
    {
        out.push(c);
    }
    out
}

/// The string that a sequence of characters spells.
pub fn string_of(s: &Vec<char>) -> (r: String)
    ensures
        r@ == s@,
{
    let mut out = String::new();
    let mut i: usize = 0;
    while i < s.len()
        invariant
            i <= s.len(),
            out@ == s@.take(i as int),
        decreases s.len() - i,
    {
        out.push(s[i]);
        i += 1;
    }
    out
}

/// Whether a text holds ASCII characters alone.
pub open spec fn is_ascii_text(s: Seq<char>) -> bool {
    forall|i: int| 0 <= i < s.len() ==> #[trigger] s[i] <= '\u{7f}'
}

/// What `str::to_lowercase` returns for a text with other characters than ASCII.
pub uninterp spec fn unicode_lowercase(s: Seq<char>) -> Seq<char>;

/// Lower-case form of a text.
pub open spec fn lowercase(s: Seq<char>) -> Seq<char> {
    if is_ascii_text(s) {
        ascii_lowercase(s)
    } else {
        unicode_lowercase(s)
    }
}

/// `str::to_lowercase`: the result is a function of the characters alone. In ASCII text the
/// letters A to Z become a to z and all else stays; for any other text it is named
/// [`unicode_lowercase`], as Unicode's case tables are not restated here.
#[verifier::external_body]
pub(crate) fn to_lowercase(s: &str) -> (r: String)
    ensures
        is_ascii_text(s@) ==> r@ == ascii_lowercase(s@),
        !is_ascii_text(s@) ==> r@ == unicode_lowercase(s@),
{
    s.to_lowercase()
}

/// ASCII text without capital letters is its own lower-case form.
pub proof fn small_text_stays(s: Seq<char>)
    requires
        is_ascii_text(s),
        forall|i: int| 0 <= i < s.len() ==> !('A' <= #[trigger] s[i] <= 'Z'),
    ensures
        lowercase(s) == s,
{
    assert(ascii_lowercase(s) =~= s);
}

/// The characters from `from` up to `to`.
pub fn slice_of(s: &Vec<char>, from: usize, to: usize) -> (r: Vec<char>)
    requires
        from <= to <= s@.len(),
    ensures
        r@ == s@.subrange(from as int, to as int),
{
    let mut out: Vec<char> = Vec::new();
    let mut i: usize = from;
    while i < to
        invariant
            from <= i <= to <= s@.len(),
            out@ == s@.subrange(from as int, i as int),
        decreases to - i,
    {
        out.push(s[i]);
        i += 1;
    }
    out
}

/// Whether two character sequences are the same.
pub fn same_chars(a: &Vec<char>, b: &Vec<char>) -> (r: bool)
    ensures
        r == (a@ == b@),
{
    if a.len() != b.len() {
        return false;
    }
    let mut i: usize = 0;
    while i < a.len()
        invariant
            i <= a.len(),
            a.len() == b.len(),
            forall|j: int| 0 <= j < i ==> a@[j] == b@[j],
        decreases a.len() - i,
    {
        if a[i] != b[i] {
            return false;
        }
        i += 1;
    }
    assert(a@ =~= b@);
    true
}

/// Whether two strings spell the same text.
pub fn same_text(a: &str, b: &str) -> (r: bool)
    ensures
        r == (a@ == b@),
{
    let x = chars_of(a);
    let y = chars_of(b);
    same_chars(&x, &y)
}

/// `s` without its leading white space.
pub open spec fn trim_start(s: Seq<char>) -> Seq<char>
    decreases s.len(),
{
    if s.len() > 0 && is_space(s[0]) {
        trim_start(s.drop_first())
    } else {
        s
    }
}

/// `s` without its trailing white space.
pub open spec fn trim_end(s: Seq<char>) -> Seq<char>
    decreases s.len(),
{
    if s.len() > 0 && is_space(s.last()) {
        trim_end(s.drop_last())
    } else {
        s
    }
}

/// `s` without white space at either end.
pub open spec fn trimmed(s: Seq<char>) -> Seq<char> {
    trim_end(trim_start(s))
}

/// A text that neither begins nor ends with white space is its own trimmed form.
pub proof fn lemma_trimmed_fixed(s: Seq<char>)
    requires
        s.len() > 0 ==> !is_space(s[0]) && !is_space(s.last()),
    ensures
        trimmed(s) == s,
{
}

proof fn lemma_trim_start_shape(s: Seq<char>)
    ensures
        trim_start(s).len() > 0 ==> !is_space(trim_start(s)[0]),
    decreases s.len(),
{
    if s.len() > 0 && is_space(s[0]) {
        lemma_trim_start_shape(s.drop_first());
    }
}

proof fn lemma_trim_end_shape(s: Seq<char>)
    ensures
        trim_end(s).len() <= s.len(),
        trim_end(s) == s.take(trim_end(s).len() as int),
        trim_end(s).len() > 0 ==> !is_space(trim_end(s).last()),
    decreases s.len(),
{
    if s.len() > 0 && is_space(s.last()) {
        lemma_trim_end_shape(s.drop_last());
        assert(s.drop_last().take(trim_end(s).len() as int) =~= s.take(trim_end(s).len() as int));
    } else {
        assert(s.take(s.len() as int) =~= s);
    }
}

/// Trimmed text neither begins nor ends with white space, and trimming it again changes
/// nothing.
pub proof fn lemma_trimmed_shape(s: Seq<char>)
    ensures
        trimmed(s).len() > 0 ==> !is_space(trimmed(s)[0]) && !is_space(trimmed(s).last()),
        trimmed(trimmed(s)) == trimmed(s),
{
    lemma_trim_start_shape(s);
    lemma_trim_end_shape(trim_start(s));
    lemma_trimmed_fixed(trimmed(s));
}

/// `s` without white space at either end.
pub fn trim(s: &Vec<char>) -> (r: Vec<char>)
    ensures
        r@ == trimmed(s@),
{
    let mut from: usize = 0;
    assert(s@.skip(0) =~= s@);
    while from < s.len() && is_whitespace(s[from])
        invariant
            from <= s.len(),
            trim_start(s@) == trim_start(s@.skip(from as int)),
        decreases s.len() - from,
    {
        assert(s@.skip(from as int).drop_first() =~= s@.skip(from + 1));
        from += 1;
    }
    let mut to: usize = s.len();
    assert(s@.subrange(from as int, to as int) =~= s@.skip(from as int));
    while to > from && is_whitespace(s[to - 1])
        invariant
            from <= to <= s.len(),
            trimmed(s@) == trim_end(s@.subrange(from as int, to as int)),
        decreases to,
    {
        assert(s@.subrange(from as int, to as int).drop_last() =~= s@.subrange(
            from as int,
            to - 1,
        ));
        to -= 1;
    }
    slice_of(s, from, to)
}

/// Position of the first `c` in `s`, or the length of `s` where there is none.
pub open spec fn first_of(s: Seq<char>, c: char) -> nat
    decreases s.len(),
{
    if s.len() == 0 || s[0] == c {
        0
    } else {
        1 + first_of(s.drop_first(), c)
    }
}

/// [`first_of`] is a position of `c`, and no earlier one is.
pub proof fn lemma_first_of(s: Seq<char>, c: char)
    ensures
        first_of(s, c) <= s.len(),
        first_of(s, c) < s.len() ==> s[first_of(s, c) as int] == c,
        forall|i: int| 0 <= i < first_of(s, c) ==> s[i] != c,
    decreases s.len(),
{
    if s.len() > 0 && s[0] != c {
        lemma_first_of(s.drop_first(), c);
        assert forall|i: int| 0 <= i < first_of(s, c) implies s[i] != c by {
            if i > 0 {
                assert(s[i] == s.drop_first()[i - 1]);
            }
        }
    }
}

/// The only position with [`first_of`]'s properties is [`first_of`].
pub proof fn lemma_first_of_unique(s: Seq<char>, c: char, n: nat)
    requires
        n <= s.len(),
        n < s.len() ==> s[n as int] == c,
        forall|i: int| 0 <= i < n ==> s[i] != c,
    ensures
        first_of(s, c) == n,
{
    lemma_first_of(s, c);
    let m = first_of(s, c);
    if m < n {
        assert(s[m as int] == c);
    } else if n < m {
        assert(s[n as int] == c);
    }
}

/// Position of the first `c` at or after `from`, or the length where there is none.
pub fn find_from(s: &Vec<char>, from: usize, c: char) -> (r: usize)
    requires
        from <= s@.len(),
    ensures
        r == from + first_of(s@.skip(from as int), c),
        from <= r <= s@.len(),
{
    let mut i: usize = from;
    while i < s.len() && s[i] != c
        invariant
            from <= i <= s.len(),
            forall|j: int| from <= j < i ==> s@[j] != c,
        decreases s.len() - i,
    {
        i += 1;
    }
    proof {
        let t = s@.skip(from as int);
        assert forall|j: int| 0 <= j < i - from implies t[j] != c by {
            assert(t[j] == s@[from + j]);
        }
        lemma_first_of_unique(t, c, (i - from) as nat);
    }
    i
}

/// The text before and after the first `c`, where there is one.
pub open spec fn split_at_first(s: Seq<char>, c: char) -> Option<(Seq<char>, Seq<char>)> {
    let n = first_of(s, c);
    if n < s.len() {
        Some((s.take(n as int), s.skip(n as int + 1)))
    } else {
        None
    }
}

/// Splits at the first `c`.
pub fn split_once(s: &Vec<char>, c: char) -> (r: Option<(Vec<char>, Vec<char>)>)
    ensures
        match r {
            Some(p) => split_at_first(s@, c) == Some((p.0@, p.1@)),
            None => split_at_first(s@, c) is None,
        },
{
    let n = find_from(s, 0, c);
    assert(s@.skip(0) =~= s@);
    if n < s.len() {
        let a = slice_of(s, 0, n);
        let b = slice_of(s, n + 1, s.len());
        assert(a@ =~= s@.take(n as int));
        assert(b@ =~= s@.skip(n + 1));
        Some((a, b))
    } else {
        None
    }
}

/// Where the last `c` in `s` ends, or 0 where there is none.
pub open spec fn end_of_last(s: Seq<char>, c: char) -> nat
    decreases s.len(),
{
    if s.len() == 0 || s.last() == c {
        s.len()
    } else {
        end_of_last(s.drop_last(), c)
    }
}

/// A position right behind a `c`, with no later one in `s`, is [`end_of_last`].
pub proof fn lemma_end_of_last(s: Seq<char>, c: char, n: nat)
    requires
        n <= s.len(),
        n > 0 ==> s[n - 1] == c,
        forall|i: int| n <= i < s.len() ==> s[i] != c,
    ensures
        end_of_last(s, c) == n,
    decreases s.len(),
{
    if n < s.len() {
        assert(s.last() == s[s.len() - 1]);
        lemma_end_of_last(s.drop_last(), c, n);
    }
}

/// The text before and after the last `c`, where there is one.
pub open spec fn split_at_last(s: Seq<char>, c: char) -> Option<(Seq<char>, Seq<char>)> {
    let n = end_of_last(s, c);
    if n > 0 {
        Some((s.take(n - 1), s.skip(n as int)))
    } else {
        None
    }
}

/// Splits at the last `c`.
pub fn rsplit_once(s: &Vec<char>, c: char) -> (r: Option<(Vec<char>, Vec<char>)>)
    ensures
        match r {
            Some(p) => split_at_last(s@, c) == Some((p.0@, p.1@)),
            None => split_at_last(s@, c) is None,
        },
{
    let mut n: usize = s.len();
    while n > 0 && s[n - 1] != c
        invariant
            n <= s@.len(),
            forall|i: int| n <= i < s@.len() ==> s@[i] != c,
        decreases n,
    {
        n -= 1;
    }
    proof {
        lemma_end_of_last(s@, c, n as nat);
    }
    if n > 0 {
        let a = slice_of(s, 0, n - 1);
        let b = slice_of(s, n, s.len());
        assert(a@ =~= s@.take(n - 1));
        assert(b@ =~= s@.skip(n as int));
        Some((a, b))
    } else {
        None
    }
}

/// The pieces of `s` between its `c`s; always at least one.
pub open spec fn split(s: Seq<char>, c: char) -> Seq<Seq<char>>
    decreases s.len(),
{
    let n = first_of(s, c);
    if n < s.len() {
        seq![s.take(n as int)] + split(s.skip(n as int + 1), c)
    } else {
        seq![s]
    }
}

/// Texts as sequences of characters.
pub open spec fn texts(v: Seq<Vec<char>>) -> Seq<Seq<char>> {
    v.map_values(|x: Vec<char>| x@)
}

/// Splits at every `c`.
pub fn split_all(s: &Vec<char>, c: char) -> (r: Vec<Vec<char>>)
    ensures
        texts(r@) == split(s@, c),
{
    let mut out: Vec<Vec<char>> = Vec::new();
    let mut from: usize = 0;
    assert(s@.skip(0) =~= s@);
    assert(texts(out@) + split(s@.skip(0), c) =~= split(s@, c));
    loop
        invariant
            from <= s@.len(),
            texts(out@) + split(s@.skip(from as int), c) == split(s@, c),
        decreases s@.len() - from,
    {
        let n = find_from(s, from, c);
        let ghost rest = s@.skip(from as int);
        let piece = slice_of(s, from, n);
        let ghost before = out@;
        out.push(piece);
        assert(texts(out@) =~= texts(before) + seq![piece@]);
        if n == s.len() {
            assert(piece@ =~= rest);
            assert(split(rest, c) == seq![rest]);
            return out;
        }
        assert(piece@ =~= rest.take(n - from));
        assert(rest.skip(n - from + 1) =~= s@.skip(n + 1));
        assert(texts(before) + (seq![piece@] + split(s@.skip(n + 1), c)) =~= texts(out@) + split(
            s@.skip(n + 1),
            c,
        ));
        from = n + 1;
    }
}

/// Whether `s` begins with `prefix`.
pub open spec fn begins_with(s: Seq<char>, prefix: Seq<char>) -> bool {
    prefix.len() <= s.len() && s.take(prefix.len() as int) == prefix
}

/// `s` without `prefix`, where it begins with it.
pub fn strip_prefix(s: &Vec<char>, prefix: &str) -> (r: Option<Vec<char>>)
    ensures
        match r {
            Some(t) => begins_with(s@, prefix@) && t@ == s@.skip(prefix@.len() as int),
            None => !begins_with(s@, prefix@),
        },
{
    let p = chars_of(prefix);
    if p.len() > s.len() {
        return None;
    }
    let head = slice_of(s, 0, p.len());
    assert(head@ =~= s@.take(p@.len() as int));
    if same_chars(&head, &p) {
        let t = slice_of(s, p.len(), s.len());
        assert(t@ =~= s@.skip(p@.len() as int));
        Some(t)
    } else {
        None
    }
}

/// Whether the characters spell `word`.
pub fn spells(s: &Vec<char>, word: &str) -> (r: bool)
    ensures
        r == (s@ == word@),
{
    let w = chars_of(word);
    same_chars(s, &w)
}

/// Order of texts by code points, the first difference deciding; this is also their order
/// as UTF-8 bytes.
pub open spec fn text_less(a: Seq<char>, b: Seq<char>) -> bool
    decreases a.len(),
{
    if b.len() == 0 {
        false
    } else if a.len() == 0 {
        true
    } else if a[0] != b[0] {
        a[0] < b[0]
    } else {
        text_less(a.drop_first(), b.drop_first())
    }
}

/// Whether `a` comes before `b`.
pub fn comes_before(a: &str, b: &str) -> (r: bool)
    ensures
        r == text_less(a@, b@),
{
    let x = chars_of(a);
    let y = chars_of(b);
    let mut i: usize = 0;
    assert(x@.skip(0) =~= x@);
    assert(y@.skip(0) =~= y@);
    while i < x.len() && i < y.len()
        invariant
            i <= x.len(),
            i <= y.len(),
            x@ == a@,
            y@ == b@,
            text_less(x@, y@) == text_less(x@.skip(i as int), y@.skip(i as int)),
        decreases x.len() - i,
    {
        assert(x@.skip(i as int).drop_first() =~= x@.skip(i + 1));
        assert(y@.skip(i as int).drop_first() =~= y@.skip(i + 1));
        if x[i] != y[i] {
            return x[i] < y[i];
        }
        i += 1;
    }
    i < y.len()
}

/// A text comes before another where it has the smaller code point at the first place where they
/// differ, or where the other goes on behind it.
pub proof fn first_difference_orders_texts(a: Seq<char>, b: Seq<char>, n: int)
    requires
        0 <= n <= a.len(),
        n <= b.len(),
        forall|i: int| 0 <= i < n ==> a[i] == b[i],
    ensures
        n < a.len() && n < b.len() && a[n] != b[n] ==> text_less(a, b) == (a[n] < b[n]),
        n == a.len() ==> text_less(a, b) == (a.len() < b.len()),
        n == b.len() ==> !text_less(a, b),
    decreases n,
{
    if n > 0 {
        let (x, y) = (a.drop_first(), b.drop_first());
        assert(a[0] == b[0]);
        assert forall|i: int| 0 <= i < n - 1 implies x[i] == y[i] by {
            assert(a[i + 1] == b[i + 1]);
        }
        first_difference_orders_texts(x, y, n - 1);
    }
}

/// The order of texts is strict and total.
pub proof fn text_order_is_total(a: Seq<char>, b: Seq<char>)
    ensures
        !(text_less(a, b) && text_less(b, a)),
        text_less(a, b) || text_less(b, a) || a == b,
        !text_less(a, a),
    decreases a.len(),
{
    if a.len() > 0 {
        text_order_is_total(a.drop_first(), a.drop_first());
    }
    if a.len() > 0 && b.len() > 0 && a[0] == b[0] {
        text_order_is_total(a.drop_first(), b.drop_first());
        if a.drop_first() == b.drop_first() {
            assert(a =~= seq![a[0]] + a.drop_first());
            assert(b =~= seq![b[0]] + b.drop_first());
        }
    } else if a.len() == 0 && b.len() == 0 {
        assert(a =~= b);
    }
}

/// The order of texts is transitive.
pub proof fn text_order_is_transitive(a: Seq<char>, b: Seq<char>, c: Seq<char>)
    requires
        text_less(a, b),
        text_less(b, c),
    ensures
        text_less(a, c),
    decreases a.len(),
{
    if a.len() > 0 && b.len() > 0 && c.len() > 0 && a[0] == b[0] && b[0] == c[0] {
        text_order_is_transitive(a.drop_first(), b.drop_first(), c.drop_first());
    }
}

} // verus!
