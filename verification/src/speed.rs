//! Speeds and limits as the user reads and writes them.

use crate::double::{
    double_of, double_of_decimal, nearest_double, nearest_even, round_even,
    whole_numbers_are_doubles, WIDE,
};
use crate::number::{
    all_digits, decimal, decimal_parts, decimal_reads_back, digit_char, format_u64, fraction_part,
    is_digit, parse_decimal, parse_u32_chars, pow10, read_decimal, read_decimal_of_digits,
    value_of, whole_and_fraction, whole_number, whole_number_of_decimal, whole_part, without_sign,
    DecimalKind, Magnitude,
};
use crate::rule::BYTE_PER_SEC;
use crate::text::{chars_of, lemma_trimmed_fixed, trim, trimmed};
use vstd::arithmetic::div_mod::lemma_fundamental_div_mod_converse;
use vstd::prelude::*;

verus! {

/// Whether speeds are shown in bits, as providers do, or in bytes.
#[derive(Debug, Clone, Copy, PartialEq, Eq, Structural)]
pub enum SpeedUnit {
    Bits,
    Bytes,
}

impl Default for SpeedUnit {
    fn default() -> (r: Self)
        ensures
            r == SpeedUnit::Bits,
    {
        SpeedUnit::Bits
    }
}

impl SpeedUnit {
    pub fn from_bits_mode(bits_mode: bool) -> (r: Self)
        ensures
            r == (if bits_mode {
                SpeedUnit::Bits
            } else {
                SpeedUnit::Bytes
            }),
    {
        if bits_mode {
            SpeedUnit::Bits
        } else {
            SpeedUnit::Bytes
        }
    }

    pub fn is_bits(self) -> (r: bool)
        ensures
            r == (self == SpeedUnit::Bits),
    {
        match self {
            SpeedUnit::Bits => true,
            SpeedUnit::Bytes => false,
        }
    }
}

/// `n / d` written with one digit after the decimal point.
pub open spec fn with_tenths(n: nat, d: nat) -> Seq<char> {
    let v = nearest_even(10 * n, d);
    decimal(v / 10) + seq!['.', digit_char(v % 10)]
}

/// `n / d` written with two digits after the decimal point.
pub open spec fn with_hundredths(n: nat, d: nat) -> Seq<char> {
    let v = nearest_even(100 * n, d);
    decimal(v / 100) + seq!['.', digit_char((v / 10) % 10), digit_char(v % 10)]
}

/// A speed as shown in bytes. It is taken as the nearest double.
pub open spec fn speed_in_bytes(speed: nat) -> Seq<char> {
    let b = double_of(speed, BYTE_PER_SEC as nat);
    if speed < BYTE_PER_SEC {
        "0 B/s"@
    } else if b.0 < 1024 * b.1 {
        decimal(nearest_even(b.0, b.1)) + " B/s"@
    } else if b.0 < 1024 * (1024 * b.1) {
        with_tenths(b.0, 1024 * b.1) + " KB/s"@
    } else {
        with_hundredths(b.0, 1024 * (1024 * b.1)) + " MB/s"@
    }
}

/// A speed as shown in bits; `bits` counts eight times as much as a speed. It is taken as the
/// nearest double, and so is each quotient of it.
pub open spec fn speed_in_bits(bits: nat) -> Seq<char> {
    let b = double_of(bits, BYTE_PER_SEC as nat);
    let kilo = double_of(b.0, 1000 * b.1);
    let mega = double_of(kilo.0, 1000 * kilo.1);
    if bits < BYTE_PER_SEC {
        "0 b/s"@
    } else if b.0 < 1000 * b.1 {
        decimal(nearest_even(b.0, b.1)) + " b/s"@
    } else if kilo.0 < 1000 * kilo.1 {
        with_tenths(kilo.0, kilo.1) + " Kb/s"@
    } else {
        with_hundredths(mega.0, mega.1) + " Mb/s"@
    }
}

/// A speed as shown to the user.
pub open spec fn speed_text(speed: nat, unit: SpeedUnit) -> Seq<char> {
    match unit {
        SpeedUnit::Bytes => speed_in_bytes(speed),
        SpeedUnit::Bits => speed_in_bits(8 * speed),
    }
}

fn push_digit(out: &mut String, d: u64)
    requires
        d < 10,
    ensures
        final(out)@ == old(out)@.push(digit_char(d as nat)),
{
    let text = format_u64(d);
    assert(decimal(d as nat) =~= seq![digit_char(d as nat)]);
    let ghost before = out@;
    out.append(text.as_str());
    assert(out@ =~= before.push(digit_char(d as nat)));
}

fn rounded_text(n: u128, d: u128, unit: &str) -> (r: String)
    requires
        0 < d <= 0xff_ffff_ffff_ffff_ffff_ffff_ffff_ffff,
        n <= 2 * WIDE,
    ensures
        r@ == decimal(nearest_even(n as nat, d as nat)) + unit@,
{
    let v = round_even(n, d);
    assert(n / d <= n) by (nonlinear_arith)
        requires
            d >= 1,
    ;
    let mut out = format_u64(v as u64);
    out.append(unit);
    out
}

fn tenths_text(n: u128, d: u128, unit: &str) -> (r: String)
    requires
        0 < d <= 0xff_ffff_ffff_ffff_ffff_ffff_ffff_ffff,
        n <= 2 * WIDE,
    ensures
        r@ == with_tenths(n as nat, d as nat) + unit@,
{
    let v = round_even(10 * n, d);
    assert(10 * n / d as int <= 10 * n) by (nonlinear_arith)
        requires
            d >= 1,
            n >= 0,
    ;
    let mut out = format_u64((v / 10) as u64);
    out.push('.');
    push_digit(&mut out, (v % 10) as u64);
    assert(out@ =~= with_tenths(n as nat, d as nat));
    out.append(unit);
    out
}

fn hundredths_text(n: u128, d: u128, unit: &str) -> (r: String)
    requires
        0 < d <= 0xff_ffff_ffff_ffff_ffff_ffff_ffff_ffff,
        n <= 2 * WIDE,
    ensures
        r@ == with_hundredths(n as nat, d as nat) + unit@,
{
    let v = round_even(100 * n, d);
    assert(100 * n / d as int <= 100 * n) by (nonlinear_arith)
        requires
            d >= 1,
            n >= 0,
    ;
    let mut out = format_u64((v / 100) as u64);
    out.push('.');
    push_digit(&mut out, ((v / 10) % 10) as u64);
    push_digit(&mut out, (v % 10) as u64);
    assert(out@ =~= with_hundredths(n as nat, d as nat));
    out.append(unit);
    out
}

/// A speed as shown to the user.
pub fn format_speed(bytes_per_sec: u64, unit: SpeedUnit) -> (r: String)
    ensures
        r@ == speed_text(bytes_per_sec as nat, unit),
{
    match unit {
        SpeedUnit::Bytes => format_speed_bytes(bytes_per_sec as u128),
        SpeedUnit::Bits => format_speed_bits(8 * bytes_per_sec as u128),
    }
}

fn format_speed_bytes(speed: u128) -> (r: String)
    requires
        speed <= u64::MAX,
    ensures
        r@ == speed_in_bytes(speed as nat),
{
    if speed < BYTE_PER_SEC as u128 {
        return String::from_str("0 B/s");
    }
    let (n, p) = nearest_double(speed, BYTE_PER_SEC as u128);
    if n < 1024 * p {
        return rounded_text(n, p, " B/s");
    }
    if n < 1024 * (1024 * p) {
        return tenths_text(n, 1024 * p, " KB/s");
    }
    hundredths_text(n, 1024 * (1024 * p), " MB/s")
}

fn format_speed_bits(bits: u128) -> (r: String)
    requires
        bits <= 8 * u64::MAX,
    ensures
        r@ == speed_in_bits(bits as nat),
{
    if bits < BYTE_PER_SEC as u128 {
        return String::from_str("0 b/s");
    }
    let (n, p) = nearest_double(bits, BYTE_PER_SEC as u128);
    if n < 1000 * p {
        return rounded_text(n, p, " b/s");
    }
    let (k, q) = nearest_double(n, 1000 * p);
    if k < 1000 * q {
        return tenths_text(k, q, " Kb/s");
    }
    let (m, r) = nearest_double(k, 1000 * q);
    hundredths_text(m, r, " Mb/s")
}

/// A limit of `kibps` KiB/s in kilobits per second: the whole number nearest to
/// `kibps * 1024 * 8 / 1000`.
pub open spec fn kilobits(kibps: nat) -> nat {
    (kibps * 2048 + 125) / 250
}

/// A limit as it stands in its input field.
pub open spec fn limit_text(kibps: nat, unit: SpeedUnit) -> Seq<char> {
    match unit {
        SpeedUnit::Bytes => decimal(kibps),
        SpeedUnit::Bits => decimal(kilobits(kibps)),
    }
}

pub fn format_limit_kibps(kibps: u32, unit: SpeedUnit) -> (r: String)
    ensures
        r@ == limit_text(kibps as nat, unit),
{
    match unit {
        SpeedUnit::Bytes => format_u64(kibps as u64),
        SpeedUnit::Bits => format_u64((kibps as u64 * 2048 + 125) / 250),
    }
}

/// A limit in kilobits per second, given by its whole part and the digits behind its point, in
/// KiB/s: the whole number nearest to a thousand of it over 8192, halves going up. The limit and
/// the thousand of it are taken as the nearest doubles; where it is below 1 nothing remains.
pub open spec fn kibibytes(whole: nat, fraction: Seq<char>) -> nat {
    let d = pow10(fraction.len());
    let kilobits = double_of(whole * d + value_of(fraction), d);
    let bits = double_of(1000 * kilobits.0, kilobits.1);
    if whole == 0 {
        0
    } else {
        (2 * bits.0 + 8192 * bits.1) / (16384 * bits.1)
    }
}

/// Kilobits per second beyond which no limit lies.
pub const NO_LIMIT_FROM: u64 = 0x10_0000_0000;

/// What a limit input means: nothing typed is no limit, in bytes a whole number of KiB/s, in
/// bits a decimal number of kilobits per second that is converted and must come out between
/// 0 and the largest `u32`.
pub open spec fn limit_input(text: Seq<char>, unit: SpeedUnit) -> Option<nat> {
    let t = trimmed(text);
    if t.len() == 0 {
        Some(0)
    } else {
        match unit {
            SpeedUnit::Bytes => whole_number(t, u32::MAX as nat),
            SpeedUnit::Bits => match read_decimal(t) {
                Some((minus, Magnitude::Thousandths(_))) => {
                    let (digits, point) = decimal_parts(without_sign(t))->0;
                    let whole = whole_part(digits, point);
                    let kibps = kibibytes(whole, fraction_part(digits, point));
                    if whole >= NO_LIMIT_FROM {
                        None
                    } else if kibps == 0 || (!minus && kibps <= u32::MAX) {
                        Some(kibps)
                    } else {
                        None
                    }
                },
                _ => None,
            },
        }
    }
}

fn convert_kilobits(whole: u64, fraction: &Vec<char>) -> (r: u128)
    requires
        all_digits(fraction@),
        whole < NO_LIMIT_FROM,
    ensures
        r == kibibytes(whole as nat, fraction@),
{
    if whole == 0 {
        return 0;
    }
    let (k, p) = double_of_decimal(whole, fraction);
    assert(p <= k && 1000 * k < 2 * (WIDE * p)) by (nonlinear_arith)
        requires
            whole * p <= k <= (whole + 1) * p,
            1 <= whole < 0x10_0000_0000,
            p >= 1,
            WIDE == 0x10_0000_0000_0000,
    ;
    let (b, q) = nearest_double(1000 * k, p);
    (2 * b + 8192 * q) / (16384 * q)
}

pub fn parse_limit_input(text: &str, unit: SpeedUnit) -> (r: Option<u32>)
    ensures
        match limit_input(text@, unit) {
            Some(n) => r matches Some(v) && v == n,
            None => r is None,
        },
{
    let all = chars_of(text);
    let t = trim(&all);
    if t.len() == 0 {
        return Some(0);
    }
    match unit {
        SpeedUnit::Bytes => parse_u32_chars(&t),
        SpeedUnit::Bits => {
            match parse_decimal(&t) {
                Some((minus, DecimalKind::Thousandths(_))) => {
                    let (whole, fraction) = match whole_and_fraction(&t) {
                        Some(q) => q,
                        None => {
                            return None;
                        },
                    };
                    if whole >= NO_LIMIT_FROM {
                        return None;
                    }
                    let kibps = convert_kilobits(whole, &fraction);
                    if kibps == 0 || (!minus && kibps <= u32::MAX as u128) {
                        Some(kibps as u32)
                    } else {
                        None
                    }
                },
                _ => None,
            }
        },
    }
}

/// A whole number of kilobits is converted without rounding on the way.
proof fn lemma_whole_kilobits(whole: nat)
    ensures
        kibibytes(whole, Seq::empty()) == (1000 * whole + 4096) / 8192,
{
    let none = Seq::<char>::empty();
    assert(pow10(0) == 1 && value_of(none) == 0);
    assert(whole * pow10(none.len()) + value_of(none) == whole) by (nonlinear_arith)
        requires
            pow10(none.len()) == 1,
            value_of(none) == 0,
    ;
    let k = double_of(whole, 1);
    whole_numbers_are_doubles(whole, 1);
    let n = 1000 * k.0;
    let q = 1000 * whole;
    assert(n == q * k.1) by (nonlinear_arith)
        requires
            n == 1000 * k.0,
            k.0 == whole * k.1,
            q == 1000 * whole,
    ;
    lemma_fundamental_div_mod_converse(n as int, k.1 as int, q as int, 0);
    whole_numbers_are_doubles(n, k.1);
    let b = double_of(n, k.1);
    let (top, up, rest) = (2 * q + 8192, (2 * q + 8192) / 16384, (2 * q + 8192) % 16384);
    assert(2 * b.0 + 8192 * b.1 == up * (16384 * b.1) + rest * b.1) by (nonlinear_arith)
        requires
            b.0 == q * b.1,
            2 * q + 8192 == up * 16384 + rest,
    ;
    assert(0 <= rest * b.1 < 16384 * b.1) by (nonlinear_arith)
        requires
            0 <= rest < 16384,
            b.1 >= 1,
    ;
    lemma_fundamental_div_mod_converse(
        (2 * b.0 + 8192 * b.1) as int,
        (16384 * b.1) as int,
        up as int,
        (rest * b.1) as int,
    );
}

/// What stands in a limit's input field reads back as that limit, in either unit.
pub proof fn limit_text_reads_back(kibps: nat, unit: SpeedUnit)
    requires
        kibps <= u32::MAX,
    ensures
        limit_input(limit_text(kibps, unit), unit) == Some(kibps),
{
    let shown = match unit {
        SpeedUnit::Bytes => kibps,
        SpeedUnit::Bits => kilobits(kibps),
    };
    let t = decimal(shown);
    decimal_reads_back(shown);
    assert(is_digit(t[0]));
    assert(is_digit(t[t.len() - 1]));
    lemma_trimmed_fixed(t);
    match unit {
        SpeedUnit::Bytes => {
            whole_number_of_decimal(kibps, u32::MAX as nat);
        },
        SpeedUnit::Bits => {
            read_decimal_of_digits(t);
            assert(fraction_part(t, t.len() as int) =~= Seq::<char>::empty());
            lemma_whole_kilobits(shown);
            assert((1000 * shown + 4096) / 8192 == kibps);
        },
    }
}

/// Nothing typed, or only white space, means no limit.
pub proof fn blank_input_is_no_limit(text: Seq<char>, unit: SpeedUnit)
    requires
        trimmed(text).len() == 0,
    ensures
        limit_input(text, unit) == Some(0nat),
{
}

/// A limit as the summary shows it.
pub open spec fn limit_summary(kibps: nat, unit: SpeedUnit) -> Seq<char> {
    if kibps == 0 {
        "Off"@
    } else {
        match unit {
            SpeedUnit::Bytes => decimal(kibps) + " KB/s"@,
            SpeedUnit::Bits => speed_text(kibps * 1024 * BYTE_PER_SEC as nat, SpeedUnit::Bits),
        }
    }
}

pub fn format_limit_summary(kibps: u32, unit: SpeedUnit) -> (r: String)
    ensures
        r@ == limit_summary(kibps as nat, unit),
{
    if kibps == 0 {
        return String::from_str("Off");
    }
    match unit {
        SpeedUnit::Bytes => {
            let mut out = format_u64(kibps as u64);
            out.append(" KB/s");
            out
        },
        SpeedUnit::Bits => format_speed(kibps as u64 * 1024 * BYTE_PER_SEC, SpeedUnit::Bits),
    }
}

} // verus!
