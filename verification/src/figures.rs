//! How near the figures that are shown and entered come to what they stand for.

use crate::double::{double_of, nearest_even, widened, whole_numbers_are_doubles, WIDE};
use crate::number::{
    all_digits, decimal, digit_char, fraction_part, pow10, read_decimal_of_digits, value_of,
    whole_number, without_sign,
};
use crate::speed::{
    kibibytes, kilobits, limit_input, limit_summary, limit_text, speed_text, SpeedUnit,
};
use crate::text::trimmed;
use vstd::prelude::*;

verus! {

/// A quotient is rounded to a whole number no more than half off, and halfway to the even one.
pub proof fn quotients_are_rounded_to_the_nearest(n: nat, d: nat)
    requires
        d > 0,
    ensures
        ({
            let q = nearest_even(n, d);
            &&& 2 * (q * d) <= 2 * n + d
            &&& 2 * n <= 2 * (q * d) + d
            &&& 2 * (q * d) == 2 * n + d || 2 * n == 2 * (q * d) + d ==> q % 2 == 0
        }),
{
    let f = n / d;
    let r = n % d;
    assert(n == f * d + r && r < d) by (nonlinear_arith)
        requires
            f == n / d,
            r == n % d,
            d > 0,
    ;
    assert((f + 1) * d == f * d + d) by (nonlinear_arith);
}

proof fn lemma_widened_close(n: nat, d: nat, p: nat)
    requires
        d > 0,
        p >= 1,
    ensures
        ({
            let (a, b) = widened(n, d, p);
            &&& 2 * (a * d * p) <= 2 * (n * b) + d * p
            &&& 2 * (n * b) <= 2 * (a * d * p) + d * p
            &&& b >= p
            &&& n > 0 ==> a >= WIDE
            &&& n < 2 * (WIDE * d) ==> a <= 2 * WIDE
        }),
    decreases 2 * (WIDE * d) - n,
{
    let (a, b) = widened(n, d, p);
    if n == 0 || n >= WIDE * d {
        quotients_are_rounded_to_the_nearest(n, d);
        assert(2 * (a * d * p) <= 2 * (n * p) + d * p) by (nonlinear_arith)
            requires
                2 * (a * d) <= 2 * n + d,
                p >= 1,
        ;
        assert(2 * (n * p) <= 2 * (a * d * p) + d * p) by (nonlinear_arith)
            requires
                2 * n <= 2 * (a * d) + d,
                p >= 1,
        ;
        if n > 0 {
            assert(n / d >= WIDE) by (nonlinear_arith)
                requires
                    n >= WIDE * d,
                    d > 0,
            ;
        }
        if n < 2 * (WIDE * d) {
            assert(n / d < 2 * WIDE) by (nonlinear_arith)
                requires
                    n < 2 * (WIDE * d),
                    d > 0,
            ;
        }
    } else {
        assert(2 * n <= 2 * (WIDE * d));
        lemma_widened_close(2 * n, d, 2 * p);
        assert(a * d * (2 * p) == 2 * (a * d * p)) by (nonlinear_arith);
        assert((2 * n) * b == 2 * (n * b)) by (nonlinear_arith);
        assert(d * (2 * p) == 2 * (d * p)) by (nonlinear_arith);
    }
}

/// A double differs from what it stands for by no more than half a unit in its last place, and has at
/// least 53 binary places.
pub proof fn doubles_are_near(n: nat, d: nat)
    requires
        d > 0,
    ensures
        ({
            let (a, b) = double_of(n, d);
            &&& 2 * (a * d) <= 2 * (n * b) + d
            &&& 2 * (n * b) <= 2 * (a * d) + d
            &&& b >= 1
            &&& n > 0 ==> a >= 0x10_0000_0000_0000
            &&& n < 0x20_0000_0000_0000 * d ==> a <= 0x20_0000_0000_0000
        }),
{
    lemma_widened_close(n, d, 1);
    let (a, b) = double_of(n, d);
    assert(a * d * 1 == a * d && d * 1 == d) by (nonlinear_arith);
    assert(2 * (WIDE * d) == 0x20_0000_0000_0000 * d) by (nonlinear_arith)
        requires
            WIDE == 0x10_0000_0000_0000,
    ;
}

/// A double on one side of a whole number stands for a number on that side of it.
proof fn lemma_side(s: nat, d: nat, a: nat, b: nat, k: nat)
    requires
        0 < d <= 3_000_000,
        0 < k <= 1_048_576,
        b >= 1,
        a >= 0x10_0000_0000_0000,
        2 * (a * d) <= 2 * (s * b) + d,
        2 * (s * b) <= 2 * (a * d) + d,
    ensures
        s < k * d ==> a < k * b,
        s >= k * d ==> a >= k * b,
        s < k * d ==> b > 3_000_000_000,
{
    if s >= k * d {
        assert(2 * (k * b) * d <= 2 * a * d + d) by (nonlinear_arith)
            requires
                s >= k * d,
                2 * (s * b) <= 2 * (a * d) + d,
                b >= 1,
        ;
        assert(2 * (k * b) <= 2 * a + 1) by (nonlinear_arith)
            requires
                2 * (k * b) * d <= 2 * a * d + d,
                d > 0,
        ;
    } else {
        assert(s * b <= (k * d - 1) * b) by (nonlinear_arith)
            requires
                s <= k * d - 1,
                b >= 1,
        ;
        assert((k * d - 1) * b == (k * b) * d - b) by (nonlinear_arith);
        assert(2 * (a * d) <= 2 * ((k * b) * d) - 2 * b + d);
        assert(2 * a <= 2 * (k * b) + 1) by (nonlinear_arith)
            requires
                2 * (a * d) <= 2 * ((k * b) * d) - 2 * b + d,
                b >= 1,
                d > 0,
        ;
        assert(k * b <= 1_048_576 * b) by (nonlinear_arith)
            requires
                k <= 1_048_576,
        ;
        assert(b > 3_000_000_000);
        if a >= k * b {
            assert(a * d >= (k * b) * d) by (nonlinear_arith)
                requires
                    a >= k * b,
                    d > 0,
            ;
            assert(2 * b <= d);
        }
    }
}

/// A rounded share of a double is the rounded share of what the double stands for, within a slack
/// that a large enough double leaves no room for.
proof fn lemma_rounded(s: nat, d: nat, a: nat, b: nat, v: nat, m: nat, k: nat)
    requires
        d == 3_000_000,
        b >= 1,
        0 < m <= 100,
        0 < k,
        2 * (a * d) <= 2 * (s * b) + d,
        2 * (s * b) <= 2 * (a * d) + d,
        v == nearest_even(m * a, k * b),
    ensures
        2 * (v * k * d) <= 2 * (m * s) + k * d + m * d,
        2 * (m * s) <= 2 * (v * k * d) + k * d + m * d,
        b > 3_000_000_000 ==> 2 * (v * k * d) <= 2 * (m * s) + k * d,
        b > 3_000_000_000 ==> 2 * (m * s) <= 2 * (v * k * d) + k * d,
{
    let kb = k * b;
    assert(kb > 0) by (nonlinear_arith)
        requires
            k > 0,
            b >= 1,
            kb == k * b,
    ;
    quotients_are_rounded_to_the_nearest(m * a, kb);
    let x = v * k * d;
    assert(v * kb * d == x * b) by (nonlinear_arith)
        requires
            kb == k * b,
            x == v * k * d,
    ;
    assert(kb * d == k * d * b) by (nonlinear_arith)
        requires
            kb == k * b,
    ;
    assert(m * a * d == m * (a * d)) by (nonlinear_arith);
    assert(m * (s * b) == m * s * b) by (nonlinear_arith);
    assert(2 * (v * kb * d) <= 2 * (m * a * d) + kb * d) by (nonlinear_arith)
        requires
            2 * (v * kb) <= 2 * (m * a) + kb,
            d > 0,
    ;
    assert(2 * (m * a * d) <= 2 * (v * kb * d) + kb * d) by (nonlinear_arith)
        requires
            2 * (m * a) <= 2 * (v * kb) + kb,
            d > 0,
    ;
    assert(2 * (m * (a * d)) <= 2 * (m * (s * b)) + m * d) by (nonlinear_arith)
        requires
            2 * (a * d) <= 2 * (s * b) + d,
            m > 0,
    ;
    assert(2 * (m * (s * b)) <= 2 * (m * (a * d)) + m * d) by (nonlinear_arith)
        requires
            2 * (s * b) <= 2 * (a * d) + d,
            m > 0,
    ;
    let y = m * s;
    let z = k * d;
    let w = m * d;
    assert(w <= 300_000_000);
    assert(2 * (x * b) <= 2 * (y * b) + z * b + w);
    assert(2 * (y * b) <= 2 * (x * b) + z * b + w);
    assert(2 * x <= 2 * y + z + w) by (nonlinear_arith)
        requires
            2 * (x * b) <= 2 * (y * b) + z * b + w,
            b >= 1,
            w >= 0,
    ;
    assert(2 * y <= 2 * x + z + w) by (nonlinear_arith)
        requires
            2 * (y * b) <= 2 * (x * b) + z * b + w,
            b >= 1,
            w >= 0,
    ;
    if b > 3_000_000_000 {
        assert(2 * x <= 2 * y + z) by (nonlinear_arith)
            requires
                2 * (x * b) <= 2 * (y * b) + z * b + w,
                b > w,
                w >= 0,
        ;
        assert(2 * y <= 2 * x + z) by (nonlinear_arith)
            requires
                2 * (y * b) <= 2 * (x * b) + z * b + w,
                b > w,
                w >= 0,
        ;
    }
}

/// In bytes a speed is shown to the nearest byte below 1024 of them, to the nearest tenth of a KiB
/// below 1024 of those, and beyond that to the nearest hundredth of a MiB, that last with a slack of
/// a ten-thousandth of it; less than one byte is shown as none.
pub proof fn speeds_in_bytes_are_shown_to_the_nearest(s: u64) -> (v: nat)
    ensures
        s < 3_000_000 ==> speed_text(s as nat, SpeedUnit::Bytes) == "0 B/s"@,
        3_000_000 <= s < 3_072_000_000 ==> {
            &&& speed_text(s as nat, SpeedUnit::Bytes) == decimal(v) + " B/s"@
            &&& -3_000_000 <= 2 * s - 6_000_000 * v <= 3_000_000
        },
        3_072_000_000 <= s < 3_145_728_000_000 ==> {
            &&& speed_text(s as nat, SpeedUnit::Bytes) == decimal(v / 10) + seq!['.'] + decimal(
                v % 10,
            ) + " KB/s"@
            &&& -3_072_000_000 <= 20 * s - 6_144_000_000 * v <= 3_072_000_000
        },
        3_145_728_000_000 <= s ==> {
            &&& speed_text(s as nat, SpeedUnit::Bytes) == decimal(v / 100) + seq!['.'] + decimal(
                v / 10 % 10,
            ) + decimal(v % 10) + " MB/s"@
            &&& -3_146_028_000_000 <= 200 * s - 6_291_456_000_000 * v <= 3_146_028_000_000
        },
{
    let d: nat = 3_000_000;
    let (a, b) = double_of(s as nat, d);
    doubles_are_near(s as nat, d);
    if s < 3_000_000 {
        0
    } else {
        lemma_side(s as nat, d, a, b, 1024);
        lemma_side(s as nat, d, a, b, 1_048_576);
        assert(1024 * (1024 * b) == 1_048_576 * b);
        if s < 3_072_000_000 {
            let v = nearest_even(a, b);
            assert(1 * a == a && 1 * b == b);
            lemma_rounded(s as nat, d, a, b, v, 1, 1);
            assert(v * 1 * d == 3_000_000 * v) by (nonlinear_arith)
                requires
                    d == 3_000_000,
            ;
            v
        } else if s < 3_145_728_000_000 {
            let v = nearest_even(10 * a, 1024 * b);
            lemma_rounded(s as nat, d, a, b, v, 10, 1024);
            assert(v * 1024 * d == 3_072_000_000 * v) by (nonlinear_arith)
                requires
                    d == 3_000_000,
            ;
            assert(seq!['.', digit_char(v % 10)] =~= seq!['.'] + decimal(v % 10));
            assert(speed_text(s as nat, SpeedUnit::Bytes) =~= decimal(v / 10) + seq!['.'] + decimal(
                v % 10,
            ) + " KB/s"@);
            v
        } else {
            let v = nearest_even(100 * a, 1_048_576 * b);
            lemma_rounded(s as nat, d, a, b, v, 100, 1_048_576);
            assert(v * 1_048_576 * d == 3_145_728_000_000 * v) by (nonlinear_arith)
                requires
                    d == 3_000_000,
            ;
            assert(seq!['.', digit_char((v / 10) % 10), digit_char(v % 10)] =~= seq!['.'] + decimal(
                v / 10 % 10,
            ) + decimal(v % 10));
            assert(speed_text(s as nat, SpeedUnit::Bytes) =~= decimal(v / 100) + seq!['.']
                + decimal(v / 10 % 10) + decimal(v % 10) + " MB/s"@);
            v
        }
    }
}

/// Whether `k / l` is `x / e`, give or take half of one in `l` and `t` in `2 * e`.
spec fn is_near(x: nat, e: nat, k: nat, l: nat, t: nat) -> bool {
    &&& l >= 1
    &&& 2 * (k * e) <= 2 * (x * l) + e + l * t
    &&& 2 * (x * l) <= 2 * (k * e) + e + l * t
}

/// A thousandth of what is near is near the thousandth.
proof fn lemma_thousandth(x: nat, e: nat, k: nat, l: nat, t: nat, c: nat)
    requires
        is_near(x, e, k, l, t),
        e > 0,
        e <= c * l,
    ensures
        is_near(
            x,
            1000 * e,
            double_of(k, 1000 * l).0,
            double_of(k, 1000 * l).1,
            t + c,
        ),
{
    let (m, q) = double_of(k, 1000 * l);
    doubles_are_near(k, 1000 * l);
    let me = m * (1000 * e);
    assert(m * (1000 * l) * e == me * l) by (nonlinear_arith)
        requires
            me == m * (1000 * e),
    ;
    assert(2 * (m * (1000 * l) * e) <= 2 * (k * q * e) + 1000 * l * e) by (nonlinear_arith)
        requires
            2 * (m * (1000 * l)) <= 2 * (k * q) + 1000 * l,
            e > 0,
    ;
    assert(2 * (k * q * e) <= 2 * (m * (1000 * l) * e) + 1000 * l * e) by (nonlinear_arith)
        requires
            2 * (k * q) <= 2 * (m * (1000 * l)) + 1000 * l,
            e > 0,
    ;
    assert(k * q * e == q * (k * e)) by (nonlinear_arith);
    assert(2 * (q * (k * e)) <= 2 * (q * (x * l)) + q * e + q * (l * t)) by (nonlinear_arith)
        requires
            2 * (k * e) <= 2 * (x * l) + e + l * t,
            q >= 1,
    ;
    assert(2 * (q * (x * l)) <= 2 * (q * (k * e)) + q * e + q * (l * t)) by (nonlinear_arith)
        requires
            2 * (x * l) <= 2 * (k * e) + e + l * t,
            q >= 1,
    ;
    assert(q * e <= q * (c * l)) by (nonlinear_arith)
        requires
            e <= c * l,
            q >= 1,
    ;
    let xq = x * q;
    let e2 = 1000 * e;
    let qt = q * (t + c);
    assert(q * (x * l) == xq * l) by (nonlinear_arith)
        requires
            xq == x * q,
    ;
    assert(q * (l * t) + q * (c * l) == qt * l) by (nonlinear_arith)
        requires
            qt == q * (t + c),
    ;
    assert(1000 * l * e == e2 * l) by (nonlinear_arith)
        requires
            e2 == 1000 * e,
    ;
    assert(2 * (me * l) <= 2 * (xq * l) + e2 * l + qt * l);
    assert(2 * (xq * l) <= 2 * (me * l) + e2 * l + qt * l);
    assert(2 * me <= 2 * xq + e2 + qt) by (nonlinear_arith)
        requires
            2 * (me * l) <= 2 * (xq * l) + e2 * l + qt * l,
            l >= 1,
    ;
    assert(2 * xq <= 2 * me + e2 + qt) by (nonlinear_arith)
        requires
            2 * (xq * l) <= 2 * (me * l) + e2 * l + qt * l,
            l >= 1,
    ;
}

/// What is near, times `m`, rounds to what is near.
proof fn lemma_rounds_near(x: nat, e: nat, k: nat, l: nat, t: nat, m: nat, g: nat)
    requires
        is_near(x, e, k, l, t),
        m > 0,
        e > 0,
        m * e <= g * l,
    ensures
        ({
            let v = nearest_even(m * k, l);
            &&& 2 * (v * e) <= 2 * (m * x) + e + m * t + g
            &&& 2 * (m * x) <= 2 * (v * e) + e + m * t + g
        }),
{
    let v = nearest_even(m * k, l);
    quotients_are_rounded_to_the_nearest(m * k, l);
    let ve = v * e;
    let mx = m * x;
    let mt = m * t;
    assert(2 * (ve * l) <= 2 * (m * (k * e)) + e * l) by (nonlinear_arith)
        requires
            2 * (v * l) <= 2 * (m * k) + l,
            ve == v * e,
            e > 0,
    ;
    assert(2 * (m * (k * e)) <= 2 * (ve * l) + e * l) by (nonlinear_arith)
        requires
            2 * (m * k) <= 2 * (v * l) + l,
            ve == v * e,
            e > 0,
    ;
    assert(2 * (m * (k * e)) <= 2 * (mx * l) + m * e + mt * l) by (nonlinear_arith)
        requires
            2 * (k * e) <= 2 * (x * l) + e + l * t,
            mx == m * x,
            mt == m * t,
            m > 0,
    ;
    assert(2 * (mx * l) <= 2 * (m * (k * e)) + m * e + mt * l) by (nonlinear_arith)
        requires
            2 * (x * l) <= 2 * (k * e) + e + l * t,
            mx == m * x,
            mt == m * t,
            m > 0,
    ;
    assert(2 * ve <= 2 * mx + e + mt + g) by (nonlinear_arith)
        requires
            2 * (ve * l) <= 2 * (mx * l) + g * l + mt * l + e * l,
            l >= 1,
    ;
    assert(2 * mx <= 2 * ve + e + mt + g) by (nonlinear_arith)
        requires
            2 * (mx * l) <= 2 * (ve * l) + g * l + mt * l + e * l,
            l >= 1,
    ;
}

/// A double of fewer than a million stands for a thousandth below a thousand, and one of a million or
/// more for one that is not.
proof fn lemma_side_of_a_million(x: nat, a: nat, b: nat)
    requires
        double_of(x, 3_000_000) == (a, b),
        3_000_000_000 <= x,
    ensures
        x < 3_000_000_000_000 ==> double_of(a, 1000 * b).0 < 1000 * double_of(a, 1000 * b).1,
        x >= 3_000_000_000_000 ==> double_of(a, 1000 * b).0 >= 1000 * double_of(a, 1000 * b).1,
{
    let d: nat = 3_000_000;
    let (k, l) = double_of(a, 1000 * b);
    doubles_are_near(x, d);
    doubles_are_near(a, 1000 * b);
    lemma_side(x, d, a, b, 1_000_000);
    assert(k * (1000 * b) == 1000 * (k * b)) by (nonlinear_arith);
    if x >= 3_000_000_000_000 {
        assert(a * l >= 1_000_000 * (b * l)) by (nonlinear_arith)
            requires
                a >= 1_000_000 * b,
        ;
        assert(2_000_000 * (b * l) <= 2000 * (k * b) + 1000 * b);
        assert(1000 * l <= k) by (nonlinear_arith)
            requires
                2_000_000 * (b * l) <= 2000 * (k * b) + 1000 * b,
                b >= 1,
        ;
    } else {
        assert(x * b <= 2_999_999_999_999 * b) by (nonlinear_arith)
            requires
                x <= 2_999_999_999_999,
        ;
        assert(6_000_000 * a <= 5_999_999_999_998 * b + 3_000_000);
        assert(a <= 1_000_000 * b - 900);
        assert(a * l <= (1_000_000 * b - 900) * l) by (nonlinear_arith)
            requires
                a <= 1_000_000 * b - 900,
        ;
        assert((1_000_000 * b - 900) * l == 1_000_000 * (b * l) - 900 * l) by (nonlinear_arith);
        assert(2000 * (k * b) <= 2_000_000 * (b * l) - 1800 * l + 1000 * b);
        if k >= 1000 * l {
            assert(k * b >= 1000 * (b * l)) by (nonlinear_arith)
                requires
                    k >= 1000 * l,
            ;
            assert(1800 * l <= 1000 * b);
            assert(2 * (a * l) >= 2000 * (k * b) - 1000 * b);
            assert(a * l >= 1_000_000 * (b * l) - 500 * b);
            assert(a >= 999_500 * b) by (nonlinear_arith)
                requires
                    a * l >= 1_000_000 * (b * l) - 500 * b,
                    l >= 1,
            ;
            assert(a <= 0x20_0000_0000_0000) by {
                assert(x < 0x20_0000_0000_0000 * d);
            }
            assert(b < 10_000_000_000);
            assert(k <= 0x20_0000_0000_0000 && k >= 0x10_0000_0000_0000) by {
                assert(a < 0x20_0000_0000_0000 * (1000 * b)) by (nonlinear_arith)
                    requires
                        a < 1_000_000 * b,
                        b >= 1,
                ;
            }
            assert(k * b >= 0x10_0000_0000_0000 * b) by (nonlinear_arith)
                requires
                    k >= 0x10_0000_0000_0000,
            ;
            assert(1_000_000 * (b * l) - 900 * l >= a * l);
            assert(2_000_000 * (b * l) >= 2000 * (k * b) - 1000 * b);
            assert(l >= 4_000_000_000_000) by (nonlinear_arith)
                requires
                    2_000_000 * (b * l) >= 2000 * (0x10_0000_0000_0000 * b) - 1000 * b,
                    b >= 1,
            ;
        }
    }
}

/// In bits a speed is shown to the nearest bit below 1000 of them, to the nearest tenth of a thousand
/// below 1000 of those, and beyond that to the nearest hundredth of a million, those with a slack of
/// less than a thousandth of it; less than one bit is shown as none.
pub proof fn speeds_in_bits_are_shown_to_the_nearest(s: u64) -> (v: nat)
    ensures
        8 * s < 3_000_000 ==> speed_text(s as nat, SpeedUnit::Bits) == "0 b/s"@,
        3_000_000 <= 8 * s < 3_000_000_000 ==> {
            &&& speed_text(s as nat, SpeedUnit::Bits) == decimal(v) + " b/s"@
            &&& -3_000_000 <= 16 * s - 6_000_000 * v <= 3_000_000
        },
        3_000_000_000 <= 8 * s < 3_000_000_000_000 ==> {
            &&& speed_text(s as nat, SpeedUnit::Bits) == decimal(v / 10) + seq!['.'] + decimal(
                v % 10,
            ) + " Kb/s"@
            &&& -3_000_000_011 <= 160 * s - 6_000_000_000 * v <= 3_000_000_011
        },
        3_000_000_000_000 <= 8 * s ==> {
            &&& speed_text(s as nat, SpeedUnit::Bits) == decimal(v / 100) + seq!['.'] + decimal(
                v / 10 % 10,
            ) + decimal(v % 10) + " Mb/s"@
            &&& -3_001_000_000_000 <= 1600 * s - 6_000_000_000_000 * v <= 3_001_000_000_000
        },
{
    let x: nat = 8 * s as nat;
    let d: nat = 3_000_000;
    let (a, b) = double_of(x, d);
    doubles_are_near(x, d);
    if x < 3_000_000 {
        0
    } else {
        lemma_side(x, d, a, b, 1000);
        let (k, l) = double_of(a, 1000 * b);
        assert(b * 0 == 0) by (nonlinear_arith);
        assert(is_near(x, d, a, b, 0));
        if x < 3_000_000_000 {
            let v = nearest_even(a, b);
            assert(1 * a == a && 1 * b == b);
            lemma_rounded(x, d, a, b, v, 1, 1);
            assert(v * 1 * d == 3_000_000 * v) by (nonlinear_arith)
                requires
                    d == 3_000_000,
            ;
            v
        } else {
            lemma_side_of_a_million(x, a, b);
            doubles_are_near(a, 1000 * b);
            lemma_side(x, d, a, b, 1_000_000);
            if x < 3_000_000_000_000 {
                let v = nearest_even(10 * k, l);
                lemma_thousandth(x, d, a, b, 0, 1);
                assert(l > 4_000_000_000_000);
                lemma_rounds_near(x, 1000 * d, k, l, 1, 10, 1);
                assert(v * (1000 * d) == 3_000_000_000 * v) by (nonlinear_arith)
                    requires
                        d == 3_000_000,
                ;
                assert(seq!['.', digit_char(v % 10)] =~= seq!['.'] + decimal(v % 10));
                assert(speed_text(s as nat, SpeedUnit::Bits) =~= decimal(v / 10) + seq!['.']
                    + decimal(v % 10) + " Kb/s"@);
                v
            } else {
                let (m, q) = double_of(k, 1000 * l);
                let v = nearest_even(100 * m, q);
                lemma_thousandth(x, d, a, b, 0, 3_000_000);
                lemma_large(x, 1000 * d, k, l, 3_000_000);
                lemma_thousandth(x, 1000 * d, k, l, 3_000_000, 300_000);
                doubles_are_near(k, 1000 * l);
                lemma_large(x, 1_000_000 * d, m, q, 3_300_000);
                lemma_rounds_near(x, 1_000_000 * d, m, q, 3_300_000, 100, 300_000_000);
                assert(v * (1_000_000 * d) == 3_000_000_000_000 * v) by (nonlinear_arith)
                    requires
                        d == 3_000_000,
                ;
                assert(seq!['.', digit_char((v / 10) % 10), digit_char(v % 10)] =~= seq!['.']
                    + decimal(v / 10 % 10) + decimal(v % 10));
                assert(speed_text(s as nat, SpeedUnit::Bits) =~= decimal(v / 100) + seq!['.']
                    + decimal(v / 10 % 10) + decimal(v % 10) + " Mb/s"@);
                v
            }
        }
    }
}

/// A double near what is not too large has a large denominator.
proof fn lemma_large(x: nat, e: nat, k: nat, l: nat, t: nat)
    requires
        is_near(x, e, k, l, t),
        e >= 3_000_000_000,
        x <= 0x8_0000_0000_0000_0000,
        t <= 3_300_000,
        k >= 0x10_0000_0000_0000,
    ensures
        l >= 10_000,
        e >= 3_000_000_000_000 ==> l >= 10_000_000,
{
    assert(k * e >= 0x10_0000_0000_0000 * e) by (nonlinear_arith)
        requires
            k >= 0x10_0000_0000_0000,
    ;
    assert(x * l <= 0x8_0000_0000_0000_0000 * l) by (nonlinear_arith)
        requires
            x <= 0x8_0000_0000_0000_0000,
    ;
    assert(l * t <= 3_300_000 * l) by (nonlinear_arith)
        requires
            t <= 3_300_000,
    ;
}

/// A limit stands in its field as the number of KiB that it is, or in bits as the nearest number of
/// kilobits, a KiB being 8.192 of them; in the summary with its unit, and none as off.
pub proof fn limits_stand_in_their_unit(kibps: u32)
    ensures
        limit_text(kibps as nat, SpeedUnit::Bytes) == decimal(kibps as nat),
        limit_text(kibps as nat, SpeedUnit::Bits) == decimal(kilobits(kibps as nat)),
        -500 <= 1000 * kilobits(kibps as nat) - 8192 * kibps <= 500,
        limit_summary(0, SpeedUnit::Bytes) == "Off"@,
        limit_summary(0, SpeedUnit::Bits) == "Off"@,
        kibps > 0 ==> limit_summary(kibps as nat, SpeedUnit::Bytes) == decimal(kibps as nat)
            + " KB/s"@,
        kibps > 0 ==> limit_summary(kibps as nat, SpeedUnit::Bits) == speed_text(
            (kibps * 3_072_000_000) as nat,
            SpeedUnit::Bits,
        ),
{
    assert(kibps * 1024 * 3_000_000 == kibps * 3_072_000_000);
}

/// A limit that is entered in KiB is the whole number that is written, where a limit can be that
/// large; white space around it does not matter, and nothing else is taken.
pub proof fn limits_in_bytes_are_whole_numbers(text: Seq<char>)
    ensures
        trimmed(text).len() == 0 ==> limit_input(text, SpeedUnit::Bytes) == Some(0nat),
        trimmed(text).len() > 0 ==> limit_input(text, SpeedUnit::Bytes) == whole_number(
            trimmed(text),
            0xffff_ffff,
        ),
{
}

/// A limit that is entered as whole kilobits is the nearest number of KiB, halves going up, where a
/// limit can be that large, and none where it cannot.
pub proof fn limits_in_bits_are_converted(text: Seq<char>) -> (k: nat)
    requires
        trimmed(text).len() > 0,
        all_digits(trimmed(text)),
    ensures
        ({
            let n = value_of(trimmed(text));
            &&& 8192 * (2 * k) <= 2000 * n + 8192 < 8192 * (2 * k + 2)
            &&& k <= u32::MAX ==> limit_input(text, SpeedUnit::Bits) == Some(k)
            &&& k > u32::MAX ==> limit_input(text, SpeedUnit::Bits) is None
        }),
{
    let t = trimmed(text);
    let n = value_of(t);
    let none = Seq::<char>::empty();
    read_decimal_of_digits(t);
    assert(crate::number::is_digit(t[0]));
    assert(without_sign(t) == t);
    assert(fraction_part(t, t.len() as int) =~= none);
    let k = (2000 * n + 8192) / 16384;
    assert(pow10(0) == 1);
    assert(value_of(none) == 0);
    assert(n * 1 + 0 == n);
    let (a, b) = double_of(n, 1);
    whole_numbers_are_doubles(n, 1);
    assert(a == n * b);
    assert(1000 * a == (1000 * n) * b) by (nonlinear_arith)
        requires
            a == n * b,
    ;
    assert((1000 * a) % b == 0 && (1000 * a) / b == 1000 * n) by (nonlinear_arith)
        requires
            1000 * a == (1000 * n) * b,
            b >= 1,
    ;
    let (c, e) = double_of(1000 * a, b);
    whole_numbers_are_doubles(1000 * a, b);
    assert(c == 1000 * n * e);
    assert(2 * c + 8192 * e == (2000 * n + 8192) * e) by (nonlinear_arith)
        requires
            c == 1000 * n * e,
    ;
    assert((2 * c + 8192 * e) / (16384 * e) == (2000 * n + 8192) / 16384) by (nonlinear_arith)
        requires
            2 * c + 8192 * e == (2000 * n + 8192) * e,
            e >= 1,
    ;
    assert(n == 0 ==> k == 0);
    assert(kibibytes(n, none) == k);
    k
}

} // verus!
