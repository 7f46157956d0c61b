//! Numbers written out in decimal: reading and writing them.

use crate::text::{chars_of, slice_of, spells};
use vstd::prelude::*;

verus! {

pub open spec fn is_digit(c: char) -> bool {
    '0' <= c <= '9'
}

/// What a digit counts for.
pub open spec fn digit_value(c: char) -> nat {
    (c as int - '0' as int) as nat
}

/// The digit that counts for `d`.
pub open spec fn digit_char(d: nat) -> char {
    ('0' as int + d) as char
}

pub open spec fn all_digits(s: Seq<char>) -> bool {
    forall|i: int| 0 <= i < s.len() ==> is_digit(#[trigger] s[i])
}

/// The number that a row of digits writes.
pub open spec fn value_of(s: Seq<char>) -> nat
    decreases s.len(),
{
    if s.len() == 0 {
        0
    } else {
        value_of(s.drop_last()) * 10 + digit_value(s.last())
    }
}

/// `n` written with digits, without leading zeros.
pub open spec fn decimal(n: nat) -> Seq<char>
    decreases n,
{
    if n < 10 {
        seq![digit_char(n)]
    } else {
        decimal(n / 10).push(digit_char(n % 10))
    }
}

/// `n` written with digits, with a minus sign where it is negative.
pub open spec fn signed_decimal(n: int) -> Seq<char> {
    if n < 0 {
        seq!['-'] + decimal((-n) as nat)
    } else {
        decimal(n as nat)
    }
}

/// Writing a number and reading the digits gives the number back.
pub proof fn decimal_reads_back(n: nat)
    ensures
        value_of(decimal(n)) == n,
        all_digits(decimal(n)),
        decimal(n).len() > 0,
    decreases n,
{
    if n >= 10 {
        decimal_reads_back(n / 10);
        assert(decimal(n).drop_last() =~= decimal(n / 10));
    } else {
        assert(decimal(n).drop_last() =~= Seq::<char>::empty());
        assert(value_of(Seq::<char>::empty()) == 0);
    }
}

/// Two numbers that are written alike are the same.
pub proof fn decimal_is_injective(a: nat, b: nat)
    requires
        decimal(a) == decimal(b),
    ensures
        a == b,
{
    decimal_reads_back(a);
    decimal_reads_back(b);
}

fn is_digit_char(c: char) -> (r: bool)
    ensures
        r == is_digit(c),
{
    '0' <= c && c <= '9'
}

fn digit_number(c: char) -> (r: u64)
    requires
        is_digit(c),
    ensures
        r == digit_value(c),
        r < 10,
{
    (c as u64) - ('0' as u64)
}

fn number_digit(d: u64) -> (r: char)
    requires
        d < 10,
    ensures
        r == digit_char(d as nat),
{
    (48u8 + d as u8) as char
}

/// `n` in decimal.
pub fn format_u64(n: u64) -> (r: String)
    ensures
        r@ == decimal(n as nat),
{
    let mut rev: Vec<char> = Vec::new();
    let mut rest: u64 = n;
    assert(rev@.reverse() =~= Seq::<char>::empty());
    while rest >= 10
        invariant
            decimal(n as nat) == decimal(rest as nat) + rev@.reverse(),
        decreases rest,
    {
        let ghost before = rev@;
        let ghost was = rest as nat;
        rev.push(number_digit(rest % 10));
        assert(rev@.reverse() =~= seq![digit_char(was % 10)] + before.reverse());
        assert(decimal(was) == decimal(was / 10).push(digit_char(was % 10)));
        assert(decimal(was) + before.reverse() =~= decimal(was / 10) + rev@.reverse());
        rest = rest / 10;
    }
    let ghost before = rev@;
    rev.push(number_digit(rest));
    assert(rev@.reverse() =~= decimal(rest as nat) + before.reverse());
    let mut out = String::new();
    let mut i: usize = rev.len();
    while i > 0
        invariant
            i <= rev.len(),
            out@ == rev@.reverse().take(rev.len() - i),
            rev@.reverse() == decimal(n as nat),
        decreases i,
    {
        i -= 1;
        out.push(rev[i]);
        assert(rev@.reverse()[rev.len() - i - 1] == rev@[i as int]);
        assert(out@ =~= rev@.reverse().take(rev.len() - i));
    }
    assert(out@ =~= rev@.reverse());
    out
}

/// `n` in decimal, with its sign.
pub fn format_i32(n: i32) -> (r: String)
    ensures
        r@ == signed_decimal(n as int),
{
    if n < 0 {
        let mut out = String::new();
        out.push('-');
        let magnitude: u64 = (-(n as i64)) as u64;
        let digits = format_u64(magnitude);
        out.append(digits.as_str());
        assert(out@ =~= seq!['-'] + decimal(magnitude as nat));
        out
    } else {
        format_u64(n as u64)
    }
}

/// The smaller of two numbers.
pub open spec fn at_most(a: int, cap: int) -> int {
    if a < cap {
        a
    } else {
        cap
    }
}

/// The value of a row of digits, capped at `cap`.
fn capped_value(s: &Vec<char>, cap: u128) -> (r: u128)
    requires
        all_digits(s@),
        cap <= 0xffff_ffff_ffff_ffff_ffff_ffff_ffff,
    ensures
        r == at_most(value_of(s@) as int, cap as int),
{
    let mut acc: u128 = 0;
    let mut i: usize = 0;
    while i < s.len()
        invariant
            i <= s.len(),
            all_digits(s@),
            cap <= 0xffff_ffff_ffff_ffff_ffff_ffff_ffff,
            acc == at_most(value_of(s@.take(i as int)) as int, cap as int),
        decreases s.len() - i,
    {
        let d = digit_number(s[i]);
        let next: u128 = acc * 10 + d as u128;
        assert(s@.take(i + 1).drop_last() =~= s@.take(i as int));
        acc = if next < cap {
            next
        } else {
            cap
        };
        i += 1;
    }
    assert(s@.take(i as int) =~= s@);
    acc
}

fn only_digits(s: &Vec<char>) -> (r: bool)
    ensures
        r == all_digits(s@),
{
    let mut i: usize = 0;
    while i < s.len()
        invariant
            i <= s.len(),
            forall|j: int| 0 <= j < i ==> is_digit(#[trigger] s@[j]),
        decreases s.len() - i,
    {
        if !is_digit_char(s[i]) {
            return false;
        }
        i += 1;
    }
    true
}

/// `s` without a leading plus sign.
pub open spec fn without_plus(s: Seq<char>) -> Seq<char> {
    if s.len() > 0 && s[0] == '+' {
        s.drop_first()
    } else {
        s
    }
}

/// The whole number from 0 to `max` that `s` writes, if it writes one: digits, at least one,
/// after an optional plus sign.
pub open spec fn whole_number(s: Seq<char>, max: nat) -> Option<nat> {
    let digits = without_plus(s);
    if digits.len() > 0 && all_digits(digits) && value_of(digits) <= max {
        Some(value_of(digits))
    } else {
        None
    }
}

/// Reads a `u32` in decimal.
pub fn parse_u32_chars(s: &Vec<char>) -> (r: Option<u32>)
    ensures
        match r {
            Some(n) => whole_number(s@, u32::MAX as nat) == Some(n as nat),
            None => whole_number(s@, u32::MAX as nat) is None,
        },
{
    let from: usize = if s.len() > 0 && s[0] == '+' {
        1
    } else {
        0
    };
    let digits = slice_of(s, from, s.len());
    assert(digits@ =~= without_plus(s@));
    if digits.len() == 0 || !only_digits(&digits) {
        return None;
    }
    let n = capped_value(&digits, 0x1_0000_0000);
    if n < 0x1_0000_0000 {
        Some(n as u32)
    } else {
        None
    }
}

/// What a written `u32` reads back as.
pub proof fn whole_number_of_decimal(n: nat, max: nat)
    requires
        n <= max,
    ensures
        whole_number(decimal(n), max) == Some(n),
{
    decimal_reads_back(n);
    assert(is_digit(decimal(n)[0]));
}

/// Reads a `u32` in decimal.
pub fn parse_u32(value: &str) -> (r: Option<u32>)
    ensures
        match r {
            Some(n) => whole_number(value@, u32::MAX as nat) == Some(n as nat),
            None => whole_number(value@, u32::MAX as nat) is None,
        },
{
    let s = chars_of(value);
    parse_u32_chars(&s)
}

/// Ten to the power `k`.
pub open spec fn pow10(k: nat) -> nat
    decreases k,
{
    if k == 0 {
        1
    } else {
        10 * pow10((k - 1) as nat)
    }
}

proof fn lemma_pow10_grows(a: nat, b: nat)
    requires
        a <= b,
    ensures
        1 <= pow10(a) <= pow10(b),
    decreases b,
{
    if a < b {
        lemma_pow10_grows(a, (b - 1) as nat);
    } else if a > 0 {
        lemma_pow10_grows((a - 1) as nat, (b - 1) as nat);
    }
}

/// The whole part of the number whose digits are `digits` with the decimal point after the
/// first `point` of them, zeros filling what is missing.
pub open spec fn whole_part(digits: Seq<char>, point: int) -> nat {
    if point <= 0 {
        0
    } else if point <= digits.len() {
        value_of(digits.take(point))
    } else {
        value_of(digits) * pow10((point - digits.len()) as nat)
    }
}

/// [`whole_part`] does not depend on how far beyond the digits the point lies, once it is
/// out of the range of a `u64`.
proof fn lemma_far_point(digits: Seq<char>, point: int)
    requires
        point >= digits.len() + 20,
    ensures
        value_of(digits) == 0 ==> whole_part(digits, point) == 0,
        value_of(digits) > 0 ==> whole_part(digits, point) > u64::MAX,
{
    let k = (point - digits.len()) as nat;
    lemma_pow10_grows(20, k);
    assert(pow10(20) > u64::MAX) by {
        reveal_with_fuel(pow10, 21);
    }
    let v = value_of(digits);
    assert(v == 0 ==> v * pow10(k) == 0) by (nonlinear_arith);
    assert(v > 0 ==> v * pow10(k) >= pow10(k)) by (nonlinear_arith);
}

/// [`whole_part`], capped at the largest `u64`.
fn capped_whole_part(digits: &Vec<char>, point: i128) -> (r: u64)
    requires
        all_digits(digits@),
    ensures
        r == at_most(whole_part(digits@, point as int) as int, u64::MAX as int),
{
    let cap: u128 = u64::MAX as u128;
    if point <= 0 {
        return 0;
    }
    let len: i128 = digits.len() as i128;
    if point <= len {
        let head = slice_of(digits, 0, point as usize);
        assert(head@ =~= digits@.take(point as int));
        return capped_value(&head, cap) as u64;
    }
    let base = capped_value(digits, cap);
    if point >= len + 20 {
        proof {
            lemma_far_point(digits@, point as int);
        }
        return if base == 0 {
            0
        } else {
            u64::MAX
        };
    }
    let pad: i128 = point - len;
    let ghost v = value_of(digits@);
    let mut acc: u128 = base;
    let mut k: i128 = 0;
    assert(v * pow10(0) == v) by (nonlinear_arith)
        requires
            pow10(0) == 1,
    ;
    while k < pad
        invariant
            0 <= k <= pad,
            cap == u64::MAX,
            acc == at_most((v * pow10(k as nat)) as int, cap as int),
        decreases pad - k,
    {
        let next: u128 = acc * 10;
        assert(v * pow10((k + 1) as nat) == v * pow10(k as nat) * 10) by (nonlinear_arith)
            requires
                pow10((k + 1) as nat) == 10 * pow10(k as nat),
        ;
        acc = if next < cap {
            next
        } else {
            cap
        };
        k += 1;
    }
    acc as u64
}

/// How many digits `s` begins with.
pub open spec fn leading_digits(s: Seq<char>) -> nat
    decreases s.len(),
{
    if s.len() > 0 && is_digit(s[0]) {
        1 + leading_digits(s.drop_first())
    } else {
        0
    }
}

proof fn lemma_leading_digits(s: Seq<char>)
    ensures
        leading_digits(s) <= s.len(),
        all_digits(s.take(leading_digits(s) as int)),
        leading_digits(s) < s.len() ==> !is_digit(s[leading_digits(s) as int]),
    decreases s.len(),
{
    if s.len() > 0 && is_digit(s[0]) {
        let t = s.drop_first();
        lemma_leading_digits(t);
        let n = leading_digits(s);
        assert forall|i: int| 0 <= i < n implies is_digit(#[trigger] s.take(n as int)[i]) by {
            if i > 0 {
                assert(s[i] == t.take(n - 1)[i - 1]);
            }
        }
    }
}

/// A text of digits followed by something else has exactly those digits in front.
pub proof fn lemma_leading_digits_is(s: Seq<char>, n: nat)
    requires
        n <= s.len(),
        forall|i: int| 0 <= i < n ==> is_digit(#[trigger] s[i]),
        n < s.len() ==> !is_digit(s[n as int]),
    ensures
        leading_digits(s) == n,
{
    lemma_leading_digits(s);
    let m = leading_digits(s);
    if m < n {
        assert(is_digit(s[m as int]));
    } else if n < m {
        assert(is_digit(s.take(m as int)[n as int]));
    }
}

fn count_leading_digits(s: &Vec<char>, from: usize) -> (r: usize)
    requires
        from <= s@.len(),
    ensures
        r == leading_digits(s@.skip(from as int)),
        from + r <= s@.len(),
        all_digits(s@.subrange(from as int, from + r)),
{
    let mut i: usize = from;
    while i < s.len() && is_digit_char(s[i])
        invariant
            from <= i <= s.len(),
            forall|j: int| from <= j < i ==> is_digit(#[trigger] s@[j]),
        decreases s.len() - i,
    {
        i += 1;
    }
    proof {
        let t = s@.skip(from as int);
        assert forall|j: int| 0 <= j < i - from implies is_digit(#[trigger] t[j]) by {
            assert(t[j] == s@[from + j]);
        }
        lemma_leading_digits_is(t, (i - from) as nat);
    }
    i - from
}

pub open spec fn lower_char(c: char) -> char {
    if 'A' <= c <= 'Z' {
        (c as int + 32) as char
    } else {
        c
    }
}

/// `s` with the letters A to Z in lower case and everything else unchanged.
pub open spec fn ascii_lowercase(s: Seq<char>) -> Seq<char> {
    s.map_values(|c: char| lower_char(c))
}

/// Puts the letters A to Z in lower case.
pub fn to_ascii_lowercase(s: &Vec<char>) -> (r: Vec<char>)
    ensures
        r@ == ascii_lowercase(s@),
{
    let mut out: Vec<char> = Vec::new();
    let mut i: usize = 0;
    while i < s.len()
        invariant
            i <= s.len(),
            out@ == ascii_lowercase(s@.take(i as int)),
        decreases s.len() - i,
    {
        let c = s[i];
        let d = if 'A' <= c && c <= 'Z' {
            ((c as u8) + 32) as char
        } else {
            c
        };
        assert(d == lower_char(c));
        out.push(d);
        assert(out@ =~= ascii_lowercase(s@.take(i + 1)));
        i += 1;
    }
    assert(s@.take(i as int) =~= s@);
    out
}

/// `s` without a leading sign.
pub open spec fn without_sign(s: Seq<char>) -> Seq<char> {
    if s.len() > 0 && (s[0] == '+' || s[0] == '-') {
        s.drop_first()
    } else {
        s
    }
}

pub open spec fn has_minus(s: Seq<char>) -> bool {
    s.len() > 0 && s[0] == '-'
}

/// The exponent that follows the digits of a number: nothing, or `e` and a whole number.
pub open spec fn exponent_part(s: Seq<char>) -> Option<int> {
    if s.len() == 0 {
        Some(0)
    } else if s[0] == 'e' || s[0] == 'E' {
        let digits = without_sign(s.drop_first());
        if digits.len() > 0 && all_digits(digits) {
            Some(
                if has_minus(s.drop_first()) {
                    -(value_of(digits) as int)
                } else {
                    value_of(digits) as int
                },
            )
        } else {
            None
        }
    } else {
        None
    }
}

/// A decimal number without its sign: its digits, where its decimal point stands, and
/// whether it is one at all.
pub open spec fn decimal_parts(s: Seq<char>) -> Option<(Seq<char>, int)> {
    let n = leading_digits(s);
    let after = s.skip(n as int);
    let dotted = after.len() > 0 && after[0] == '.';
    let tail = if dotted {
        after.drop_first()
    } else {
        after
    };
    let k = if dotted {
        leading_digits(tail)
    } else {
        0
    };
    let rest = tail.skip(k as int);
    if n + k == 0 {
        None
    } else {
        match exponent_part(rest) {
            Some(e) => Some((s.take(n as int) + tail.take(k as int), n + e)),
            None => None,
        }
    }
}

/// A number with a decimal point, an exponent, or neither; its size in whole thousandths,
/// anything finer cut off.
pub enum Magnitude {
    NotANumber,
    Infinite,
    Thousandths(nat),
}

/// What a text reads as when taken for a decimal number: an optional sign, then `inf`,
/// `infinity` or `nan` in any case, or digits with at most one decimal point and an optional
/// exponent. The flag tells a minus sign.
pub open spec fn read_decimal(s: Seq<char>) -> Option<(bool, Magnitude)> {
    let body = without_sign(s);
    let word = ascii_lowercase(body);
    if word == "inf"@ || word == "infinity"@ {
        Some((has_minus(s), Magnitude::Infinite))
    } else if word == "nan"@ {
        Some((has_minus(s), Magnitude::NotANumber))
    } else {
        match decimal_parts(body) {
            Some(p) => Some((has_minus(s), Magnitude::Thousandths(whole_part(p.0, p.1 + 3)))),
            None => None,
        }
    }
}

/// What [`parse_decimal`] found.
#[derive(Debug, Clone, Copy, PartialEq, Eq, Structural)]
pub enum DecimalKind {
    NotANumber,
    Infinite,
    /// Whole thousandths, at most the largest `u64`.
    Thousandths(u64),
}

pub open spec fn kind_matches(k: DecimalKind, m: Magnitude) -> bool {
    match m {
        Magnitude::NotANumber => k == DecimalKind::NotANumber,
        Magnitude::Infinite => k == DecimalKind::Infinite,
        Magnitude::Thousandths(n) => k matches DecimalKind::Thousandths(t) && t == at_most(
            n as int,
            u64::MAX as int,
        ),
    }
}

/// Exponents beyond this size move the decimal point past any text that fits in memory.
const FAR: u128 = 0x1_0000_0000_0000_0000_0000;

fn parse_exponent(s: &Vec<char>, from: usize) -> (r: Option<i128>)
    requires
        from <= s@.len(),
    ensures
        match exponent_part(s@.skip(from as int)) {
            None => r is None,
            Some(e) => r matches Some(x) && x == (if e < 0 {
                -at_most(-e, FAR as int)
            } else {
                at_most(e, FAR as int)
            }),
        },
{
    let ghost rest = s@.skip(from as int);
    if from == s.len() {
        return Some(0);
    }
    if s[from] != 'e' && s[from] != 'E' {
        return None;
    }
    let start: usize = from + 1;
    let signed = start < s.len() && (s[start] == '+' || s[start] == '-');
    let minus = start < s.len() && s[start] == '-';
    let digits = slice_of(
        s,
        if signed {
            start + 1
        } else {
            start
        },
        s.len(),
    );
    assert(rest.drop_first() =~= s@.skip(start as int));
    assert(digits@ =~= without_sign(rest.drop_first()));
    if digits.len() == 0 || !only_digits(&digits) {
        return None;
    }
    let size = capped_value(&digits, FAR) as i128;
    Some(
        if minus {
            -size
        } else {
            size
        },
    )
}

/// Whether two places of a decimal point are one, or both lie far off on the same side of any text
/// that fits in memory.
spec fn same_point(a: int, b: int) -> bool {
    ||| a == b
    ||| a >= FAR && b >= FAR
    ||| a <= -1000 && b <= -1000
}

/// [`whole_part`] is the same for two such places, as far as a `u64` can tell.
proof fn lemma_same_point(digits: Seq<char>, a: int, b: int, more: int)
    requires
        digits.len() <= usize::MAX,
        same_point(a, b),
        0 <= more <= 3,
    ensures
        at_most(whole_part(digits, a + more) as int, u64::MAX as int) == at_most(
            whole_part(digits, b + more) as int,
            u64::MAX as int,
        ),
        fraction_part(digits, a) == fraction_part(digits, b),
{
    if a != b && a >= FAR {
        lemma_far_point(digits, a + more);
        lemma_far_point(digits, b + more);
    }
}

/// The digits behind the decimal point, where that stands behind at least one digit.
pub open spec fn fraction_part(digits: Seq<char>, point: int) -> Seq<char> {
    if 0 < point < digits.len() {
        digits.skip(point)
    } else {
        Seq::empty()
    }
}

/// The digits of a decimal number without its sign, and where its point stands, its exponent taken
/// in.
fn split_decimal(body: &Vec<char>) -> (r: Option<(Vec<char>, i128)>)
    ensures
        match decimal_parts(body@) {
            None => r is None,
            Some(p) => {
                &&& r matches Some(q)
                &&& q.0@ == p.0
                &&& all_digits(q.0@)
                &&& same_point(p.1, q.1 as int)
                &&& -2 * FAR <= q.1 <= 2 * FAR
            },
        },
{
    let n = count_leading_digits(body, 0);
    assert(body@.skip(0) =~= body@);
    let ghost after = body@.skip(n as int);
    let dotted = n < body.len() && body[n] == '.';
    let start: usize = if dotted {
        n + 1
    } else {
        n
    };
    let ghost tail = if dotted {
        after.drop_first()
    } else {
        after
    };
    assert(tail =~= body@.skip(start as int));
    let k: usize = if dotted {
        count_leading_digits(body, start)
    } else {
        0
    };
    assert(tail.skip(k as int) =~= body@.skip(start + k));
    if n == 0 && k == 0 {
        return None;
    }
    let exponent = parse_exponent(body, start + k);
    if exponent.is_none() {
        return None;
    }
    let x: i128 = exponent.unwrap();
    let ghost e = exponent_part(tail.skip(k as int))->0;
    let mut digits = slice_of(body, 0, n);
    let mut fraction = slice_of(body, start, start + k);
    assert(digits@ =~= body@.take(n as int));
    assert(fraction@ =~= tail.take(k as int));
    let ghost all = digits@ + fraction@;
    assert(decimal_parts(body@) == Some((all, n + e)));
    assert(all_digits(all));
    digits.append(&mut fraction);
    assert(digits@ =~= all);
    Some((digits, n as i128 + x))
}

/// A decimal number without its sign, in thousandths.
fn parse_decimal_body(body: &Vec<char>) -> (r: Option<u64>)
    ensures
        match decimal_parts(body@) {
            None => r is None,
            Some(p) => r matches Some(t) && t == at_most(
                whole_part(p.0, p.1 + 3) as int,
                u64::MAX as int,
            ),
        },
{
    match split_decimal(body) {
        None => None,
        Some((digits, point)) => {
            proof {
                let p = decimal_parts(body@)->0;
                assert(digits.len() == digits@.len());
                lemma_same_point(p.0, p.1, point as int, 3);
            }
            Some(capped_whole_part(&digits, point + 3))
        },
    }
}

/// A decimal number, whatever its sign: its whole part, and the digits behind its point.
pub fn whole_and_fraction(s: &Vec<char>) -> (r: Option<(u64, Vec<char>)>)
    ensures
        match decimal_parts(without_sign(s@)) {
            None => r is None,
            Some(p) => {
                &&& r matches Some(q)
                &&& q.0 == at_most(whole_part(p.0, p.1) as int, u64::MAX as int)
                &&& q.1@ == fraction_part(p.0, p.1)
                &&& all_digits(q.1@)
            },
        },
{
    let signed = s.len() > 0 && (s[0] == '+' || s[0] == '-');
    let body = slice_of(
        s,
        if signed {
            1
        } else {
            0
        },
        s.len(),
    );
    assert(body@ =~= without_sign(s@));
    match split_decimal(&body) {
        None => None,
        Some((digits, point)) => {
            let len: i128 = digits.len() as i128;
            proof {
                let p = decimal_parts(body@)->0;
                lemma_same_point(p.0, p.1, point as int, 0);
            }
            let whole = capped_whole_part(&digits, point);
            if 0 < point && point < len {
                let fraction = slice_of(&digits, point as usize, digits.len());
                assert(fraction@ =~= digits@.skip(point as int));
                Some((whole, fraction))
            } else {
                let none: Vec<char> = Vec::new();
                assert(none@ =~= Seq::<char>::empty());
                Some((whole, none))
            }
        },
    }
}

/// Reads a decimal number.
pub fn parse_decimal(s: &Vec<char>) -> (r: Option<(bool, DecimalKind)>)
    ensures
        match read_decimal(s@) {
            None => r is None,
            Some(p) => r matches Some(q) && q.0 == p.0 && kind_matches(q.1, p.1),
        },
{
    let signed = s.len() > 0 && (s[0] == '+' || s[0] == '-');
    let minus = s.len() > 0 && s[0] == '-';
    let body = slice_of(
        s,
        if signed {
            1
        } else {
            0
        },
        s.len(),
    );
    assert(body@ =~= without_sign(s@));
    let word = to_ascii_lowercase(&body);
    if spells(&word, "inf") || spells(&word, "infinity") {
        return Some((minus, DecimalKind::Infinite));
    }
    if spells(&word, "nan") {
        return Some((minus, DecimalKind::NotANumber));
    }
    match parse_decimal_body(&body) {
        None => None,
        Some(t) => Some((minus, DecimalKind::Thousandths(t))),
    }
}

/// A row of digits reads as the whole number that it writes.
pub proof fn read_decimal_of_digits(s: Seq<char>)
    requires
        s.len() > 0,
        all_digits(s),
    ensures
        read_decimal(s) == Some((false, Magnitude::Thousandths(value_of(s) * 1000))),
        decimal_parts(without_sign(s)) == Some((s, s.len() as int)),
        whole_part(s, s.len() as int) == value_of(s),
{
    assert(is_digit(s[0]));
    let word = ascii_lowercase(s);
    assert(word[0] == s[0]);
    reveal_strlit("inf");
    reveal_strlit("infinity");
    reveal_strlit("nan");
    lemma_leading_digits_is(s, s.len());
    assert(s.skip(s.len() as int) =~= Seq::<char>::empty());
    assert(s.take(s.len() as int) + Seq::<char>::empty().take(0) =~= s);
    assert(Seq::<char>::empty().skip(0) =~= Seq::<char>::empty());
    assert(decimal_parts(s) == Some((s, s.len() as int)));
    assert(pow10(3) == 1000) by {
        reveal_with_fuel(pow10, 4);
    }
}

/// No digit, sign, decimal point or exponent mark is white space, so no number holds any.
pub proof fn numbers_hold_no_space(s: Seq<char>)
    requires
        read_decimal(s) is Some,
    ensures
        s.len() > 0,
        forall|i: int| 0 <= i < s.len() ==> !crate::text::is_space(#[trigger] s[i]),
{
    let body = without_sign(s);
    let word = ascii_lowercase(body);
    reveal_strlit("inf");
    reveal_strlit("infinity");
    reveal_strlit("nan");
    assert(word.len() == body.len());
    if word == "inf"@ || word == "infinity"@ || word == "nan"@ {
        assert(forall|i: int| 0 <= i < word.len() ==> 'a' <= #[trigger] word[i] <= 'z');
        assert forall|i: int| 0 <= i < body.len() implies !crate::text::is_space(
            #[trigger] body[i],
        ) by {
            assert(word[i] == lower_char(body[i]));
        }
    } else {
        let n = leading_digits(body);
        lemma_leading_digits(body);
        let after = body.skip(n as int);
        let dotted = after.len() > 0 && after[0] == '.';
        let tail = if dotted {
            after.drop_first()
        } else {
            after
        };
        let k = if dotted {
            leading_digits(tail)
        } else {
            0
        };
        lemma_leading_digits(tail);
        let rest = tail.skip(k as int);
        let at = if dotted {
            n + 1 + k
        } else {
            n
        };
        assert(rest =~= body.skip(at as int));
        let digits = without_sign(rest.drop_first());
        assert forall|i: int| 0 <= i < body.len() implies !crate::text::is_space(
            #[trigger] body[i],
        ) by {
            if i < n {
                assert(is_digit(body.take(n as int)[i]));
            } else if i < at {
                if i > n {
                    assert(body[i] == tail.take(k as int)[i - n - 1]);
                    assert(is_digit(tail.take(k as int)[i - n - 1]));
                }
            } else if i > at {
                assert(rest.drop_first()[i - at - 1] == body[i]);
                if digits.len() == rest.drop_first().len() {
                    assert(digits == rest.drop_first());
                    assert(is_digit(digits[i - at - 1]));
                } else if i > at + 1 {
                    assert(digits[i - at - 2] == body[i]);
                    assert(is_digit(digits[i - at - 2]));
                }
            } else {
                assert(rest[0] == body[i]);
            }
        }
    }
    assert forall|i: int| 0 <= i < s.len() implies !crate::text::is_space(#[trigger] s[i]) by {
        if body.len() < s.len() {
            if i > 0 {
                assert(body[i - 1] == s[i]);
            }
        } else {
            assert(body == s);
        }
    }
}

proof fn lemma_digits_in_front(a: Seq<char>, rest: Seq<char>)
    requires
        all_digits(a),
        rest.len() > 0 ==> !is_digit(rest[0]),
    ensures
        leading_digits(a + rest) == a.len(),
    decreases a.len(),
{
    let whole = a + rest;
    if a.len() > 0 {
        let t = a.drop_first();
        assert(is_digit(a[0]));
        assert forall|i: int| 0 <= i < t.len() implies is_digit(#[trigger] t[i]) by {
            assert(is_digit(a[i + 1]));
        }
        lemma_digits_in_front(t, rest);
        assert(whole.drop_first() =~= t + rest);
    } else {
        assert(whole =~= rest);
    }
}

/// A decimal number counts as many thousandths as its digits write, when its point has moved three
/// places on, and a minus sign in front is told apart. Up to three digits stand behind the point
/// here.
pub proof fn decimals_count_thousandths(a: Seq<char>, b: Seq<char>)
    requires
        a.len() > 0,
        all_digits(a),
        all_digits(b),
        b.len() <= 3,
    ensures
        read_decimal(a + seq!['.'] + b) == Some(
            (false, Magnitude::Thousandths(value_of(a + b) * pow10((3 - b.len()) as nat))),
        ),
        read_decimal(seq!['-'] + (a + seq!['.'] + b)) == Some(
            (true, Magnitude::Thousandths(value_of(a + b) * pow10((3 - b.len()) as nat))),
        ),
        read_decimal(seq!['+'] + (a + seq!['.'] + b)) == Some(
            (false, Magnitude::Thousandths(value_of(a + b) * pow10((3 - b.len()) as nat))),
        ),
        pow10(0) == 1,
        pow10(1) == 10,
        pow10(2) == 100,
        pow10(3) == 1000,
{
    reveal_with_fuel(pow10, 4);
    reveal_strlit("inf");
    reveal_strlit("infinity");
    reveal_strlit("nan");
    let body = a + seq!['.'] + b;
    let point = seq!['.'] + b;
    let none = Seq::<char>::empty();
    assert(is_digit(a[0]) && body[0] == a[0]);
    assert(ascii_lowercase(body)[0] == a[0]);
    assert(body =~= a + point);
    lemma_digits_in_front(a, point);
    lemma_digits_in_front(b, none);
    assert(b + none =~= b);
    assert(body.skip(a.len() as int) =~= point);
    assert(point.drop_first() =~= b);
    assert(b.skip(b.len() as int) =~= none);
    assert(body.take(a.len() as int) =~= a);
    assert(b.take(b.len() as int) =~= b);
    let digits = a + b;
    assert(decimal_parts(body) == Some((digits, a.len() as int)));
    if b.len() == 3 {
        assert(digits.take(a.len() as int + 3) =~= digits);
        let n = value_of(digits);
        assert(n * pow10(0) == n) by (nonlinear_arith)
            requires
                pow10(0) == 1,
        ;
    }
    let (minus, plus) = (seq!['-'] + body, seq!['+'] + body);
    assert(minus.drop_first() =~= body && plus.drop_first() =~= body);
    assert(without_sign(body) == body);
}

} // verus!
