//! Text in sixteen-bit units, as the system takes and gives it.

use crate::text::chars_of;
use vstd::prelude::*;

verus! {

/// `char::from_u32`: the character with a code point, which all numbers up to 0x10FFFF but the
/// surrogates from 0xD800 to 0xDFFF are.
pub assume_specification[ char::from_u32 ](i: u32) -> (r: Option<char>)
    ensures
        match r {
            Some(c) => c as u32 == i,
            None => 0xD800 <= i <= 0xDFFF || i > 0x10FFFF,
        },
;

/// The units of one character: itself, or two surrogates where it does not fit in one.
pub open spec fn units_of_char(c: char) -> Seq<u16> {
    let n = c as int;
    if n < 0x1_0000 {
        seq![n as u16]
    } else {
        seq![
            (0xD800 + (n - 0x1_0000) / 0x400) as u16,
            (0xDC00 + (n - 0x1_0000) % 0x400) as u16,
        ]
    }
}

/// The units of a text.
pub open spec fn units_of(s: Seq<char>) -> Seq<u16>
    decreases s.len(),
{
    if s.len() == 0 {
        Seq::empty()
    } else {
        units_of(s.drop_last()) + units_of_char(s.last())
    }
}

fn push_units(out: &mut Vec<u16>, c: char)
    ensures
        final(out)@ == old(out)@ + units_of_char(c),
{
    let n: u32 = c as u32;
    assert(n == c as int);
    if n < 0x1_0000 {
        out.push(n as u16);
    } else {
        out.push((0xD800 + (n - 0x1_0000) / 0x400) as u16);
        out.push((0xDC00 + (n - 0x1_0000) % 0x400) as u16);
    }
    assert(out@ =~= old(out)@ + units_of_char(c));
}

/// A text in units, ended by a zero.
pub fn utf16_null_terminated(text: &str) -> (r: Vec<u16>)
    ensures
        r@ == units_of(text@).push(0u16),
{
    let chars = chars_of(text);
    let mut out: Vec<u16> = Vec::new();
    let mut i: usize = 0;
    assert(out@ =~= units_of(chars@.take(0)));
    while i < chars.len()
        invariant
            i <= chars@.len(),
            out@ == units_of(chars@.take(i as int)),
        decreases chars@.len() - i,
    {
        assert(chars@.take(i + 1).drop_last() =~= chars@.take(i as int));
        push_units(&mut out, chars[i]);
        i += 1;
    }
    assert(chars@.take(i as int) =~= chars@);
    out.push(0);
    out
}

pub open spec fn is_high(u: u16) -> bool {
    0xD800 <= u <= 0xDBFF
}

pub open spec fn is_low(u: u16) -> bool {
    0xDC00 <= u <= 0xDFFF
}

/// The code point of two surrogates.
pub open spec fn pair_value(high: u16, low: u16) -> int {
    0x1_0000 + (high - 0xD800) * 0x400 + (low - 0xDC00)
}

/// The text that units spell; a surrogate that stands alone becomes `mark`.
pub open spec fn chars_marked(u: Seq<u16>, mark: char) -> Seq<char>
    decreases u.len(),
{
    if u.len() == 0 {
        Seq::empty()
    } else if is_high(u[0]) && u.len() > 1 && is_low(u[1]) {
        seq![pair_value(u[0], u[1]) as char] + chars_marked(u.skip(2), mark)
    } else if is_high(u[0]) || is_low(u[0]) {
        seq![mark] + chars_marked(u.drop_first(), mark)
    } else {
        seq![u[0] as char] + chars_marked(u.drop_first(), mark)
    }
}

/// The text that units spell; a surrogate that stands alone becomes U+FFFD.
pub open spec fn chars_in(u: Seq<u16>) -> Seq<char> {
    chars_marked(u, '\u{fffd}')
}

fn char_at(code: u32) -> (r: char)
    requires
        code < 0xD800 || 0xE000 <= code <= 0x10FFFF,
    ensures
        r as u32 == code,
{
    match char::from_u32(code) {
        Some(c) => c,
        None => '\u{fffd}',
    }
}

/// The text that units spell; a surrogate that stands alone becomes U+FFFD.
pub fn decode_units(units: &Vec<u16>) -> (r: String)
    ensures
        r@ == chars_in(units@),
{
    decode_marked(units, '\u{fffd}')
}

/// The text that units spell; a surrogate that stands alone becomes `mark`.
pub fn decode_marked(units: &Vec<u16>, mark: char) -> (r: String)
    ensures
        r@ == chars_marked(units@, mark),
{
    let mut out = String::new();
    let mut i: usize = 0;
    assert(units@.skip(0) =~= units@);
    assert(out@ + chars_marked(units@.skip(0), mark) =~= chars_marked(units@, mark));
    while i < units.len()
        invariant
            i <= units@.len(),
            out@ + chars_marked(units@.skip(i as int), mark) == chars_marked(units@, mark),
        decreases units@.len() - i,
    {
        let ghost rest = units@.skip(i as int);
        let ghost before = out@;
        let first = units[i];
        assert(rest.drop_first() =~= units@.skip(i + 1));
        if 0xD800 <= first && first <= 0xDBFF && i + 1 < units.len() && 0xDC00 <= units[i + 1]
            && units[i + 1] <= 0xDFFF {
            let second = units[i + 1];
            let code: u32 = 0x1_0000 + (first as u32 - 0xD800) * 0x400 + (second as u32 - 0xDC00);
            let c = char_at(code);
            out.push(c);
            assert(rest.skip(2) =~= units@.skip(i + 2));
            let ghost next = chars_marked(units@.skip(i + 2), mark);
            assert(before + (seq![c] + next) =~= out@ + next);
            i += 2;
        } else if 0xD800 <= first && first <= 0xDFFF {
            out.push(mark);
            let ghost next = chars_marked(units@.skip(i + 1), mark);
            assert(before + (seq![mark] + next) =~= out@ + next);
            i += 1;
        } else {
            let c = char_at(first as u32);
            out.push(c);
            let ghost next = chars_marked(units@.skip(i + 1), mark);
            assert(before + (seq![c] + next) =~= out@ + next);
            i += 1;
        }
    }
    assert(units@.skip(i as int) =~= Seq::<u16>::empty());
    assert(out@ + Seq::<char>::empty() =~= out@);
    out
}

/// The units in a run of bytes, two by two, the lower byte first; an odd byte at the end is left
/// out.
pub open spec fn units_in(b: Seq<u8>) -> Seq<u16> {
    Seq::new(b.len() / 2, |i: int| (b[2 * i] + 0x100 * b[2 * i + 1]) as u16)
}

/// Units up to the first zero.
pub open spec fn before_zero(u: Seq<u16>) -> Seq<u16>
    decreases u.len(),
{
    if u.len() == 0 || u[0] == 0 {
        Seq::empty()
    } else {
        seq![u[0]] + before_zero(u.drop_first())
    }
}

/// The text that a run of bytes holds up to its first zero unit; none where that is empty.
pub fn wide_bytes_to_string(bytes: &[u8]) -> (r: Option<String>)
    ensures
        ({
            let units = before_zero(units_in(bytes@));
            match r {
                Some(text) => units.len() > 0 && text@ == chars_in(units),
                None => units.len() == 0,
            }
        }),
{
    let total: usize = bytes.len();
    let n: usize = total / 2;
    let ghost all = units_in(bytes@);
    let mut units: Vec<u16> = Vec::new();
    let mut i: usize = 0;
    let mut ended = false;
    assert(all.skip(0) =~= all);
    assert(units@ + before_zero(all.skip(0)) =~= before_zero(all));
    while i < n && !ended
        invariant
            total == bytes@.len(),
            n == total / 2,
            all == units_in(bytes@),
            all.len() == n,
            i <= n,
            !ended ==> units@ + before_zero(all.skip(i as int)) == before_zero(all),
            ended ==> units@ == before_zero(all),
        decreases n - i, if ended { 0int } else { 1 },
    {
        let unit: u16 = bytes[2 * i] as u16 + 0x100 * (bytes[2 * i + 1] as u16);
        assert(all.skip(i as int)[0] == unit);
        let ghost before = units@;
        if unit == 0 {
            assert(units@ + Seq::<u16>::empty() =~= units@);
            ended = true;
        } else {
            units.push(unit);
            assert(all.skip(i as int).drop_first() =~= all.skip(i + 1));
            assert(before + (seq![unit] + before_zero(all.skip(i + 1))) =~= units@ + before_zero(
                all.skip(i + 1),
            ));
            i += 1;
        }
    }
    if !ended {
        assert(all.skip(i as int) =~= Seq::<u16>::empty());
        assert(units@ + Seq::<u16>::empty() =~= units@);
    }
    if units.len() == 0 {
        return None;
    }
    Some(decode_units(&units))
}

proof fn lemma_decode_char(c: char, rest: Seq<u16>)
    ensures
        chars_in(units_of_char(c) + rest) == seq![c] + chars_in(rest),
{
    let u = units_of_char(c) + rest;
    let n = c as int;
    if n < 0x1_0000 {
        assert(u.drop_first() =~= rest);
        assert(u[0] == n);
        assert(u[0] as char == c);
    } else {
        let (high, low) = (u[0], u[1]);
        assert(u.skip(2) =~= rest);
        assert(high == 0xD800 + (n - 0x1_0000) / 0x400);
        assert(low == 0xDC00 + (n - 0x1_0000) % 0x400);
        assert(pair_value(high, low) == n);
    }
}

proof fn lemma_units_front(s: Seq<char>)
    requires
        s.len() > 0,
    ensures
        units_of(s) == units_of_char(s[0]) + units_of(s.drop_first()),
    decreases s.len(),
{
    if s.len() == 1 {
        assert(s.drop_last() =~= Seq::<char>::empty());
        assert(s.drop_first() =~= Seq::<char>::empty());
        assert(units_of(s) =~= units_of_char(s[0]) + units_of(s.drop_first()));
    } else {
        lemma_units_front(s.drop_last());
        assert(s.drop_last().drop_first() =~= s.drop_first().drop_last());
        assert(units_of(s) =~= units_of_char(s[0]) + units_of(s.drop_first()));
    }
}

/// A text written in units reads as itself.
pub proof fn units_read_back(s: Seq<char>)
    ensures
        chars_in(units_of(s)) == s,
    decreases s.len(),
{
    if s.len() > 0 {
        lemma_units_front(s);
        lemma_decode_char(s[0], units_of(s.drop_first()));
        units_read_back(s.drop_first());
        assert(seq![s[0]] + s.drop_first() =~= s);
    } else {
        assert(chars_in(units_of(s)) =~= s);
    }
}

proof fn lemma_decode_marked(c: char, rest: Seq<u16>, mark: char)
    ensures
        chars_marked(units_of_char(c) + rest, mark) == seq![c] + chars_marked(rest, mark),
{
    let u = units_of_char(c) + rest;
    let n = c as int;
    if n < 0x1_0000 {
        assert(u.drop_first() =~= rest);
        assert(u[0] == n);
        assert(u[0] as char == c);
    } else {
        let (high, low) = (u[0], u[1]);
        assert(u.skip(2) =~= rest);
        assert(high == 0xD800 + (n - 0x1_0000) / 0x400);
        assert(low == 0xDC00 + (n - 0x1_0000) % 0x400);
        assert(pair_value(high, low) == n);
    }
}

/// A text written in units reads as itself, whatever would stand for what cannot be read.
pub proof fn units_read_back_under_any_mark(s: Seq<char>, mark: char)
    ensures
        chars_marked(units_of(s), mark) == s,
    decreases s.len(),
{
    if s.len() > 0 {
        lemma_units_front(s);
        lemma_decode_marked(s[0], units_of(s.drop_first()), mark);
        units_read_back_under_any_mark(s.drop_first(), mark);
        assert(seq![s[0]] + s.drop_first() =~= s);
    } else {
        assert(chars_marked(units_of(s), mark) =~= s);
    }
}

} // verus!
