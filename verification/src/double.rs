//! Numbers in double precision, as pairs of whole numbers: a numerator, and a power of two below it.

use crate::number::{all_digits, digit_value, is_digit, pow10, value_of};
use vstd::arithmetic::div_mod::lemma_fundamental_div_mod_converse;
use vstd::prelude::*;

verus! {

/// Two to the power of 52: no double between this and its double has binary places.
pub const WIDE: u128 = 0x10_0000_0000_0000;

/// The whole number nearest to `n / d`; of two that are equally near, the even one.
pub open spec fn nearest_even(n: nat, d: nat) -> nat {
    let q = n / d;
    let twice = 2 * (n % d);
    if twice < d || (twice == d && q % 2 == 0) {
        q
    } else {
        q + 1
    }
}

/// `n / d`, doubled until it is at least [`WIDE`] and then rounded, over `p` doubled as often.
pub open spec fn widened(n: nat, d: nat, p: nat) -> (nat, nat)
    decreases 2 * (WIDE * d) - n,
{
    if n == 0 || n >= WIDE * d {
        (nearest_even(n, d), p)
    } else {
        widened(2 * n, d, 2 * p)
    }
}

/// The double nearest to `n / d`, which lies between 1 and twice [`WIDE`]; of two that are equally
/// near, the one with the even numerator.
pub open spec fn double_of(n: nat, d: nat) -> (nat, nat) {
    widened(n, d, 1)
}

/// A whole number is a double as it is.
pub proof fn whole_numbers_are_doubles(n: nat, d: nat)
    requires
        d > 0,
        n % d == 0,
    ensures
        double_of(n, d).0 == (n / d) * double_of(n, d).1,
        double_of(n, d).1 >= 1,
{
    lemma_widened_whole(n, d, 1);
}

proof fn lemma_widened_whole(n: nat, d: nat, p: nat)
    requires
        d > 0,
        n % d == 0,
        p >= 1,
    ensures
        widened(n, d, p).0 * p == (n / d) * widened(n, d, p).1,
        widened(n, d, p).1 >= 1,
    decreases 2 * (WIDE * d) - n,
{
    if n > 0 && n < WIDE * d {
        let q = n / d;
        assert(n == q * d) by (nonlinear_arith)
            requires
                q == n / d,
                n % d == 0,
                d > 0,
        ;
        assert(2 * n == (2 * q) * d) by (nonlinear_arith)
            requires
                n == q * d,
        ;
        lemma_fundamental_div_mod_converse(2 * n as int, d as int, 2 * q as int, 0);
        lemma_widened_whole(2 * n, d, 2 * p);
        let (a, b) = widened(2 * n, d, 2 * p);
        assert(a * p == q * b) by (nonlinear_arith)
            requires
                a * (2 * p) == (2 * q) * b,
        ;
    }
}

proof fn lemma_nearest_even_bound(n: nat, d: nat, most: nat)
    requires
        d > 0,
        n < most * d,
    ensures
        nearest_even(n, d) <= most,
        n >= d ==> nearest_even(n, d) >= 1,
{
    assert(n / d < most) by (nonlinear_arith)
        requires
            d > 0,
            n < most * d,
    ;
    assert(n >= d ==> n / d >= 1) by (nonlinear_arith)
        requires
            d > 0,
    ;
}

/// Rounds a quotient to the nearest whole number.
pub fn round_even(n: u128, d: u128) -> (r: u128)
    requires
        0 < d <= 0xff_ffff_ffff_ffff_ffff_ffff_ffff_ffff,
    ensures
        r == nearest_even(n as nat, d as nat),
        r <= n / d + 1,
{
    let q: u128 = n / d;
    let twice: u128 = 2 * (n % d);
    if twice < d || (twice == d && q % 2 == 0) {
        q
    } else {
        assert(q < u128::MAX) by (nonlinear_arith)
            requires
                q == n / d,
                n <= u128::MAX,
                d > 1,
        ;
        q + 1
    }
}

/// The double nearest to a quotient.
pub fn nearest_double(n: u128, d: u128) -> (r: (u128, u128))
    requires
        0 < d < 0x8000_0000_0000_0000,
        d <= n < 2 * (WIDE * d),
    ensures
        (r.0 as nat, r.1 as nat) == double_of(n as nat, d as nat),
        1 <= r.0 <= 2 * WIDE,
        1 <= r.1 < 2 * WIDE,
{
    let mut scaled: u128 = n;
    let mut p: u128 = 1;
    assert(WIDE * d <= 0x10_0000_0000_0000 * 0x8000_0000_0000_0000) by (nonlinear_arith)
        requires
            d < 0x8000_0000_0000_0000,
            WIDE == 0x10_0000_0000_0000,
    ;
    while scaled < WIDE * d
        invariant
            0 < d <= n,
            WIDE * d <= 0x10_0000_0000_0000 * 0x8000_0000_0000_0000,
            d <= scaled < 2 * (WIDE * d),
            scaled == n * p,
            1 <= p < 2 * WIDE,
            widened(n as nat, d as nat, 1) == widened(scaled as nat, d as nat, p as nat),
        decreases 2 * (WIDE * d) - scaled,
    {
        assert(p < WIDE) by (nonlinear_arith)
            requires
                n * p < WIDE * d,
                d <= n,
                p >= 0,
        ;
        assert(n * (2 * p) == 2 * (n * p)) by (nonlinear_arith);
        scaled = 2 * scaled;
        p = 2 * p;
    }
    proof {
        lemma_nearest_even_bound(scaled as nat, d as nat, 2 * WIDE as nat);
    }
    (round_even(scaled, d), p)
}

/// The number that a row of single digits writes.
spec fn worth(s: Seq<u8>) -> nat
    decreases s.len(),
{
    if s.len() == 0 {
        0
    } else {
        s[0] as nat * pow10((s.len() - 1) as nat) + worth(s.drop_first())
    }
}

spec fn single_digits(s: Seq<u8>) -> bool {
    forall|i: int| 0 <= i < s.len() ==> #[trigger] s[i] < 10
}

proof fn lemma_pow10_positive(k: nat)
    ensures
        pow10(k) >= 1,
    decreases k,
{
    if k > 0 {
        lemma_pow10_positive((k - 1) as nat);
    }
}

/// A row of digits and the row behind one more digit.
proof fn lemma_worth_from(s: Seq<u8>, i: int)
    requires
        0 <= i < s.len(),
    ensures
        worth(s.skip(i)) == s[i] as nat * pow10((s.len() - i - 1) as nat) + worth(s.skip(i + 1)),
        pow10((s.len() - i) as nat) == 10 * pow10((s.len() - i - 1) as nat),
{
    assert(s.skip(i).drop_first() =~= s.skip(i + 1));
}

proof fn lemma_worth_bound(s: Seq<u8>)
    requires
        single_digits(s),
    ensures
        worth(s) < pow10(s.len()),
    decreases s.len(),
{
    if s.len() > 0 {
        let rest = s.drop_first();
        assert forall|i: int| 0 <= i < rest.len() implies #[trigger] rest[i] < 10 by {
            assert(s[i + 1] < 10);
        }
        lemma_worth_bound(rest);
        let unit = pow10(rest.len());
        assert(s[0] < 10);
        assert(s[0] as nat * unit <= 9 * unit) by (nonlinear_arith)
            requires
                s[0] < 10,
        ;
    }
}

/// The first digit of a row counts for as many places as follow it.
proof fn lemma_value_from_front(s: Seq<char>)
    requires
        s.len() > 0,
    ensures
        value_of(s) == digit_value(s[0]) * pow10((s.len() - 1) as nat) + value_of(s.drop_first()),
    decreases s.len(),
{
    if s.len() == 1 {
        assert(s.drop_last() =~= Seq::<char>::empty());
        assert(s.drop_first() =~= Seq::<char>::empty());
        assert(value_of(Seq::<char>::empty()) == 0);
        assert(digit_value(s[0]) * pow10(0) == digit_value(s[0])) by (nonlinear_arith)
            requires
                pow10(0) == 1,
        ;
        assert(s.last() == s[0]);
    } else {
        let init = s.drop_last();
        lemma_value_from_front(init);
        assert(init.drop_first() =~= s.drop_first().drop_last());
        assert(s.drop_first().last() == s.last());
        let (first, unit) = (digit_value(s[0]), pow10((s.len() - 2) as nat));
        assert((first * unit) * 10 == first * (10 * unit)) by (nonlinear_arith);
    }
}

proof fn lemma_worth_is_value(v: Seq<u8>, s: Seq<char>)
    requires
        v.len() == s.len(),
        forall|i: int| 0 <= i < s.len() ==> v[i] == digit_value(#[trigger] s[i]),
    ensures
        worth(v) == value_of(s),
    decreases s.len(),
{
    if s.len() > 0 {
        lemma_value_from_front(s);
        let (w, t) = (v.drop_first(), s.drop_first());
        assert forall|i: int| 0 <= i < t.len() implies w[i] == digit_value(#[trigger] t[i]) by {
            assert(v[i + 1] == digit_value(s[i + 1]));
        }
        lemma_worth_is_value(w, t);
        assert(v[0] == digit_value(s[0]));
    }
}

fn digits_of(s: &Vec<char>) -> (r: Vec<u8>)
    requires
        all_digits(s@),
    ensures
        r@.len() == s@.len(),
        single_digits(r@),
        worth(r@) == value_of(s@),
{
    let mut out: Vec<u8> = Vec::new();
    let mut i: usize = 0;
    while i < s.len()
        invariant
            i <= s@.len(),
            all_digits(s@),
            out@.len() == i,
            single_digits(out@),
            forall|j: int| 0 <= j < i ==> out@[j] == digit_value(#[trigger] s@[j]),
        decreases s@.len() - i,
    {
        assert(is_digit(s@[i as int]));
        let c = s[i];
        out.push(c as u8 - 48);
        i += 1;
    }
    proof {
        lemma_worth_is_value(out@, s@);
    }
    out
}

/// Doubles a row of digits in its places; tells whether a one is carried in front of them.
fn twice(v: &mut Vec<u8>) -> (r: bool)
    requires
        single_digits(old(v)@),
    ensures
        final(v)@.len() == old(v)@.len(),
        single_digits(final(v)@),
        2 * worth(old(v)@) == worth(final(v)@) + if r {
            pow10(old(v)@.len())
        } else {
            0
        },
{
    let ghost before = v@;
    let mut carry: u8 = 0;
    let mut i: usize = v.len();
    assert(before.skip(i as int) =~= Seq::<u8>::empty());
    assert(v@.skip(i as int) =~= Seq::<u8>::empty());
    while i > 0
        invariant
            i <= v@.len(),
            v@.len() == before.len(),
            single_digits(before),
            single_digits(v@),
            carry <= 1,
            forall|j: int| 0 <= j < i ==> v@[j] == before[j],
            2 * worth(before.skip(i as int)) == worth(v@.skip(i as int)) + carry as nat * pow10(
                (before.len() - i) as nat,
            ),
        decreases i,
    {
        let ghost kept = v@;
        let ghost carried = carry;
        let at: usize = i - 1;
        assert(v@[at as int] < 10);
        let d: u8 = 2 * v[at] + carry;
        if d >= 10 {
            v.set(at, d - 10);
            carry = 1;
        } else {
            v.set(at, d);
            carry = 0;
        }
        proof {
            lemma_worth_from(before, at as int);
            lemma_worth_from(v@, at as int);
            assert(v@.skip(i as int) =~= kept.skip(i as int));
            let unit = pow10((before.len() - i) as nat);
            let (x, y) = (before[at as int] as int, v@[at as int] as int);
            let (a, b) = (carried as int, carry as int);
            assert(2 * (x * unit) + a * unit == y * unit + b * (10 * unit)) by (nonlinear_arith)
                requires
                    2 * x + a == y + 10 * b,
            ;
        }
        i = at;
    }
    proof {
        assert(before.skip(0) =~= before);
        assert(v@.skip(0) =~= v@);
    }
    carry == 1
}

fn is_zero(v: &Vec<u8>) -> (r: bool)
    ensures
        r == (worth(v@) == 0),
{
    let mut i: usize = v.len();
    assert(v@.skip(i as int) =~= Seq::<u8>::empty());
    while i > 0
        invariant
            i <= v@.len(),
            worth(v@.skip(i as int)) == 0,
        decreases i,
    {
        proof {
            lemma_worth_from(v@, i - 1);
            lemma_worth_at_least(v@, i - 1);
            lemma_pow10_positive((v@.len() - i) as nat);
            let (d, unit) = (v@[i - 1] as nat, pow10((v@.len() - i) as nat));
            assert(d == 0 ==> d * unit == 0) by (nonlinear_arith);
            assert(d > 0 && unit >= 1 ==> d * unit > 0) by (nonlinear_arith);
        }
        if v[i - 1] != 0 {
            return false;
        }
        i -= 1;
    }
    assert(v@.skip(0) =~= v@);
    true
}

/// A row of digits is worth no less than its end.
proof fn lemma_worth_at_least(s: Seq<u8>, i: int)
    requires
        0 <= i <= s.len(),
    ensures
        worth(s) >= worth(s.skip(i)),
    decreases i,
{
    if i == 0 {
        assert(s.skip(0) =~= s);
    } else {
        lemma_worth_at_least(s, i - 1);
        lemma_worth_from(s, i - 1);
    }
}

/// The double nearest to a number with digits behind its decimal point.
pub fn double_of_decimal(whole: u64, fraction: &Vec<char>) -> (r: (u128, u128))
    requires
        all_digits(fraction@),
        1 <= whole < 2 * WIDE,
    ensures
        (r.0 as nat, r.1 as nat) == double_of(
            whole as nat * pow10(fraction@.len()) + value_of(fraction@),
            pow10(fraction@.len()),
        ),
        1 <= r.0 <= 2 * WIDE,
        1 <= r.1 < 2 * WIDE,
        whole * r.1 <= r.0 <= (whole + 1) * r.1,
{
    let ghost d = pow10(fraction@.len());
    let ghost n = whole as nat * d + value_of(fraction@);
    let mut digits = digits_of(fraction);
    let mut w: u128 = whole as u128;
    let mut p: u128 = 1;
    proof {
        lemma_pow10_positive(fraction@.len());
    }
    while w < WIDE
        invariant
            d == pow10(digits@.len()),
            d >= 1,
            single_digits(digits@),
            1 <= whole,
            1 <= w,
            1 <= p,
            whole * p <= w < 2 * WIDE,
            w + 1 <= (whole + 1) * p,
            widened(n, d, 1) == widened((w * d + worth(digits@)) as nat, d, p as nat),
        decreases 2 * WIDE - w,
    {
        let ghost now = (w * d + worth(digits@)) as nat;
        proof {
            lemma_worth_bound(digits@);
            assert(0 < now < WIDE * d) by (nonlinear_arith)
                requires
                    now == w * d + worth(digits@),
                    worth(digits@) < d,
                    1 <= w,
                    w + 1 <= WIDE,
                    d >= 1,
            ;
            assert(p <= w) by (nonlinear_arith)
                requires
                    whole * p <= w,
                    whole >= 1,
                    p >= 1,
            ;
        }
        let ghost (x, rest, q) = (w, worth(digits@), p);
        let carry = twice(&mut digits);
        w = if carry {
            2 * w + 1
        } else {
            2 * w
        };
        p = 2 * p;
        proof {
            let c: int = if carry {
                1
            } else {
                0
            };
            assert(2 * now == w * d + worth(digits@)) by (nonlinear_arith)
                requires
                    now == x * d + rest,
                    w == 2 * x + c,
                    2 * rest == worth(digits@) + c * d,
            ;
            assert(whole * p == 2 * (whole * q)) by (nonlinear_arith)
                requires
                    p == 2 * q,
            ;
            assert((whole + 1) * p == 2 * ((whole + 1) * q)) by (nonlinear_arith)
                requires
                    p == 2 * q,
            ;
        }
    }
    let ghost rest = worth(digits@);
    let ghost now = (w * d + rest) as nat;
    proof {
        lemma_worth_bound(digits@);
        assert(now >= WIDE * d) by (nonlinear_arith)
            requires
                now == w * d + rest,
                w >= WIDE,
        ;
        lemma_fundamental_div_mod_converse(now as int, d as int, w as int, rest as int);
        assert(p <= w) by (nonlinear_arith)
            requires
                whole * p <= w,
                whole >= 1,
                p >= 1,
        ;
    }
    let half = twice(&mut digits);
    proof {
        lemma_worth_bound(digits@);
    }
    let nothing_more = is_zero(&digits);
    if !half || (nothing_more && w % 2 == 0) {
        (w, p)
    } else {
        (w + 1, p)
    }
}

} // verus!
