//! The token bucket that holds traffic to a rate, the rolling average that measures it, and
//! the controller that steers an adaptive limit.

use crate::rule::BYTE_PER_SEC;
use std::collections::VecDeque;
use vstd::prelude::*;

verus! {

/// Nanoseconds in a second.
pub const NANOS_PER_SEC: u64 = 1_000_000_000;

/// Tokens that one byte costs: what a rate of one byte per second earns in a second.
pub const TOKENS_PER_BYTE: u128 = 3_000_000_000_000_000;

/// How many bytes may pass: tokens come in at the rate, up to two seconds' worth, and every
/// byte that passes takes its share.
///
/// A token is what the smallest rate earns in a nanosecond.
#[derive(Debug, Clone, Copy, PartialEq, Eq, Structural)]
pub struct TokenBucket {
    tokens: u128,
    rate_bps: u64,
}

/// The most tokens that a bucket of rate `rate` holds.
pub open spec fn burst(rate: int) -> int {
    2 * NANOS_PER_SEC * rate
}

fn burst_tokens(rate: u64) -> (r: u128)
    ensures
        r == burst(rate as int),
{
    assert(burst(rate as int) == rate * 2_000_000_000) by (nonlinear_arith)
        requires
            NANOS_PER_SEC == 1_000_000_000,
    ;
    (rate as u128) * 2_000_000_000u128
}

pub open spec fn smaller(a: int, b: int) -> int {
    if a <= b {
        a
    } else {
        b
    }
}

pub open spec fn larger(a: int, b: int) -> int {
    if a >= b {
        a
    } else {
        b
    }
}

/// Tokens after `nanos` nanoseconds in which nothing passed.
pub open spec fn refilled(tokens: int, rate: int, nanos: int) -> int {
    smaller(tokens + rate * nanos, burst(rate))
}

/// Whether `bytes` bytes may pass.
pub open spec fn affords(tokens: int, bytes: int) -> bool {
    tokens >= bytes * TOKENS_PER_BYTE
}

/// Tokens after one request: the refill, less the price of what passed.
pub open spec fn after_request(tokens: int, rate: int, bytes: int, nanos: int) -> int {
    let t = refilled(tokens, rate, nanos);
    if affords(t, bytes) {
        t - bytes * TOKENS_PER_BYTE
    } else {
        t
    }
}

impl TokenBucket {
    /// Tokens in the bucket.
    pub closed spec fn tokens(self) -> int {
        self.tokens as int
    }

    /// The rate at which tokens come in.
    pub closed spec fn rate(self) -> int {
        self.rate_bps as int
    }

    /// A full bucket.
    pub fn new(rate_bps: u64) -> (r: Self)
        ensures
            r.rate() == rate_bps,
            r.tokens() == burst(rate_bps as int),
    {
        TokenBucket { tokens: burst_tokens(rate_bps), rate_bps }
    }

    pub fn rate_bps(&self) -> (r: u64)
        ensures
            r == self.rate(),
    {
        self.rate_bps
    }

    /// Changes the rate; tokens beyond what the new rate allows are lost.
    pub fn set_rate(&mut self, rate_bps: u64)
        ensures
            final(self).rate() == rate_bps,
            final(self).tokens() == smaller(old(self).tokens(), burst(rate_bps as int)),
    {
        self.rate_bps = rate_bps;
        let most: u128 = burst_tokens(rate_bps);
        if self.tokens > most {
            self.tokens = most;
        }
    }

    /// Lets `bytes` bytes pass if the bucket can pay for them, `elapsed_nanos` nanoseconds
    /// after the last request.
    pub fn try_consume(&mut self, bytes: usize, elapsed_nanos: u64) -> (r: bool)
        ensures
            final(self).rate() == old(self).rate(),
            r == affords(
                refilled(old(self).tokens(), old(self).rate(), elapsed_nanos as int),
                bytes as int,
            ),
            final(self).tokens() == after_request(
                old(self).tokens(),
                old(self).rate(),
                bytes as int,
                elapsed_nanos as int,
            ),
    {
        self.refill(elapsed_nanos);
        let price: u128 = bytes as u128 * TOKENS_PER_BYTE;
        if self.tokens >= price {
            self.tokens = self.tokens - price;
            true
        } else {
            false
        }
    }

    fn refill(&mut self, elapsed_nanos: u64)
        ensures
            final(self).rate() == old(self).rate(),
            final(self).tokens() == refilled(
                old(self).tokens(),
                old(self).rate(),
                elapsed_nanos as int,
            ),
    {
        let most: u128 = burst_tokens(self.rate_bps);
        let rate: u128 = self.rate_bps as u128;
        let time: u128 = elapsed_nanos as u128;
        assert(0 <= rate * time <= 0xffff_ffff_ffff_ffff * 0xffff_ffff_ffff_ffff)
            by (nonlinear_arith)
            requires
                rate <= 0xffff_ffff_ffff_ffff,
                time <= 0xffff_ffff_ffff_ffff,
        ;
        let earned: u128 = rate * time;
        if self.tokens >= most || most - self.tokens <= earned {
            self.tokens = most;
        } else {
            self.tokens = self.tokens + earned;
        }
    }
}

/// A request to the bucket: bytes that want to pass, and nanoseconds since the last one.
pub struct Request {
    pub bytes: nat,
    pub nanos: nat,
}

/// Tokens left after a run of requests.
pub open spec fn tokens_after(tokens: int, rate: int, run: Seq<Request>) -> int
    decreases run.len(),
{
    if run.len() == 0 {
        tokens
    } else {
        let before = tokens_after(tokens, rate, run.drop_last());
        after_request(before, rate, run.last().bytes as int, run.last().nanos as int)
    }
}

/// Bytes that passed in a run of requests.
pub open spec fn bytes_passed(tokens: int, rate: int, run: Seq<Request>) -> nat
    decreases run.len(),
{
    if run.len() == 0 {
        0
    } else {
        let before = tokens_after(tokens, rate, run.drop_last());
        let t = refilled(before, rate, run.last().nanos as int);
        bytes_passed(tokens, rate, run.drop_last()) + if affords(t, run.last().bytes as int) {
            run.last().bytes
        } else {
            0
        }
    }
}

/// Time that a run of requests took.
pub open spec fn time_taken(run: Seq<Request>) -> nat
    decreases run.len(),
{
    if run.len() == 0 {
        0
    } else {
        time_taken(run.drop_last()) + run.last().nanos
    }
}

/// The limit holds: whatever the requests are, no more passes than the tokens at the start
/// pay for, plus what the rate earns in the time that they take. The bucket never runs into
/// debt and, once filled to its burst or less, never beyond it.
pub proof fn bucket_holds_the_rate(tokens: int, rate: int, run: Seq<Request>)
    requires
        0 <= tokens <= burst(rate),
        rate >= 0,
    ensures
        bytes_passed(tokens, rate, run) * TOKENS_PER_BYTE + tokens_after(tokens, rate, run)
            <= tokens + rate * time_taken(run),
        bytes_passed(tokens, rate, run) * TOKENS_PER_BYTE <= burst(rate) + rate * time_taken(run),
        0 <= tokens_after(tokens, rate, run) <= burst(rate),
    decreases run.len(),
{
    if run.len() > 0 {
        let init = run.drop_last();
        let last = run.last();
        bucket_holds_the_rate(tokens, rate, init);
        assert(rate * time_taken(run) == rate * time_taken(init) + rate * last.nanos)
            by (nonlinear_arith)
            requires
                time_taken(run) == time_taken(init) + last.nanos,
        ;
        assert(rate * last.nanos >= 0) by (nonlinear_arith)
            requires
                rate >= 0,
        ;
    } else {
        assert(rate * 0 == 0);
    }
}

/// Nothing passes for free and nothing is charged for what does not pass: a request is let
/// through exactly when the refilled bucket holds its price, which is then taken, and a
/// request of no bytes always passes and costs nothing.
pub proof fn empty_requests_are_free(tokens: int, rate: int, nanos: nat)
    requires
        0 <= tokens,
        rate >= 0,
    ensures
        affords(refilled(tokens, rate, nanos as int), 0),
        after_request(tokens, rate, 0, nanos as int) == refilled(tokens, rate, nanos as int),
{
    assert(rate * nanos >= 0) by (nonlinear_arith)
        requires
            rate >= 0,
    ;
}

/// A bucket left alone for two seconds is full.
pub proof fn idle_bucket_fills(tokens: int, rate: int, nanos: int)
    requires
        0 <= tokens,
        0 <= rate,
        nanos >= 2 * NANOS_PER_SEC,
    ensures
        refilled(tokens, rate, nanos) == burst(rate),
{
    assert(rate * nanos >= 2 * NANOS_PER_SEC * rate) by (nonlinear_arith)
        requires
            rate >= 0,
            nanos >= 2 * NANOS_PER_SEC,
    ;
}

/// The average of the last few samples.
#[derive(Debug)]
pub struct RollingAverage {
    window: usize,
    samples: VecDeque<u64>,
}

pub open spec fn total(s: Seq<u64>) -> nat
    decreases s.len(),
{
    if s.len() == 0 {
        0
    } else {
        total(s.drop_last()) + s.last() as nat
    }
}

/// The last `n` of `s`, or all where there are fewer.
pub open spec fn last_of(s: Seq<u64>, n: int) -> Seq<u64> {
    if s.len() > n {
        s.skip(s.len() - n)
    } else {
        s
    }
}

/// The average of `s`, anything below a whole unit cut off; 0 of nothing.
pub open spec fn mean(s: Seq<u64>) -> int {
    if s.len() == 0 {
        0
    } else {
        total(s) as int / s.len() as int
    }
}

/// The sum of `s` lies between nothing and `s.len()` times the largest sample.
pub proof fn lemma_total_bound(s: Seq<u64>)
    ensures
        0 <= total(s) <= s.len() * u64::MAX,
    decreases s.len(),
{
    if s.len() > 0 {
        lemma_total_bound(s.drop_last());
    }
}

impl Clone for RollingAverage {
    fn clone(&self) -> (r: Self)
        ensures
            r.samples() == self.samples(),
            r.window() == self.window(),
    {
        let mut samples: VecDeque<u64> = VecDeque::new();
        let n: usize = self.samples.len();
        let mut i: usize = 0;
        while i < n
            invariant
                i <= n,
                n == self.samples@.len(),
                samples@ == self.samples@.take(i as int),
            decreases n - i,
        {
            samples.push_back(self.samples[i]);
            assert(samples@ =~= self.samples@.take(i + 1));
            i += 1;
        }
        assert(samples@ =~= self.samples@);
        RollingAverage { window: self.window, samples }
    }
}

impl RollingAverage {
    /// The samples that count, oldest first.
    pub closed spec fn samples(self) -> Seq<u64> {
        self.samples@
    }

    /// How many samples count.
    pub closed spec fn window(self) -> int {
        self.window as int
    }

    pub fn new(window: usize) -> (r: Self)
        ensures
            r.window() == larger(window as int, 1),
            r.samples() == Seq::<u64>::empty(),
    {
        RollingAverage {
            window: if window > 1 {
                window
            } else {
                1
            },
            samples: VecDeque::new(),
        }
    }

    pub fn push(&mut self, sample: u64)
        ensures
            final(self).window() == old(self).window(),
            final(self).samples() == last_of(old(self).samples().push(sample), old(self).window()),
    {
        let ghost all = old(self).samples().push(sample);
        self.samples.push_back(sample);
        assert(self.samples@ =~= all.skip(0));
        while self.samples.len() > self.window
            invariant
                self.window == old(self).window,
                self.samples@.len() <= all.len(),
                self.samples@ == all.skip(all.len() - self.samples@.len()),
                all.len() <= old(self).window() ==> self.samples@.len() == all.len(),
                all.len() > old(self).window() ==> self.samples@.len() >= old(self).window(),
            decreases self.samples@.len(),
        {
            let ghost before = self.samples@;
            let _ = self.samples.pop_front();
            assert(self.samples@ =~= before.skip(1));
            assert(self.samples@ =~= all.skip(all.len() - self.samples@.len()));
        }
        assert(all.skip(0) =~= all);
    }

    pub fn average(&self) -> (r: u64)
        ensures
            r == mean(self.samples()),
    {
        let n: usize = self.samples.len();
        if n == 0 {
            return 0;
        }
        let mut sum: u128 = 0;
        let mut i: usize = 0;
        while i < n
            invariant
                i <= n,
                n == self.samples@.len(),
                sum == total(self.samples@.take(i as int)),
            decreases n - i,
        {
            let ghost next = self.samples@.take(i + 1);
            proof {
                assert(next.drop_last() =~= self.samples@.take(i as int));
                lemma_total_bound(next);
                assert(next.len() * u64::MAX <= usize::MAX * u64::MAX) by (nonlinear_arith)
                    requires
                        next.len() <= usize::MAX,
                ;
            }
            sum = sum + self.samples[i] as u128;
            i += 1;
        }
        proof {
            assert(self.samples@.take(n as int) =~= self.samples@);
            lemma_total_bound(self.samples@);
            assert(sum / (n as u128) <= u64::MAX) by (nonlinear_arith)
                requires
                    sum <= n * u64::MAX,
                    n > 0,
            ;
        }
        (sum / n as u128) as u64
    }
}

/// An average lies between the smallest and the largest sample.
pub proof fn average_lies_between(s: Seq<u64>, low: u64, high: u64)
    requires
        s.len() > 0,
        forall|i: int| 0 <= i < s.len() ==> low <= #[trigger] s[i] <= high,
    ensures
        low <= mean(s) <= high,
{
    lemma_total_between(s, low, high);
    assert(low <= total(s) as int / s.len() as int <= high) by (nonlinear_arith)
        requires
            s.len() * low <= total(s) <= s.len() * high,
            s.len() > 0,
    ;
}

/// The average of up to six byte counts is exact: nothing is cut off it.
pub proof fn averages_of_byte_counts_are_exact(s: Seq<u64>)
    requires
        0 < s.len() <= 6,
        forall|i: int| 0 <= i < s.len() ==> #[trigger] s[i] % BYTE_PER_SEC == 0,
    ensures
        mean(s) * s.len() == total(s),
{
    lemma_total_of_byte_counts(s);
    let (t, n) = (total(s) as int, s.len() as int);
    assert(t % 3_000_000 == 0);
    if n == 1 {
    } else if n == 2 {
        assert(t / 2 * 2 == t);
    } else if n == 3 {
        assert(t / 3 * 3 == t);
    } else if n == 4 {
        assert(t / 4 * 4 == t);
    } else if n == 5 {
        assert(t / 5 * 5 == t);
    } else {
        assert(t / 6 * 6 == t);
    }
}

proof fn lemma_total_of_byte_counts(s: Seq<u64>)
    requires
        forall|i: int| 0 <= i < s.len() ==> #[trigger] s[i] % BYTE_PER_SEC == 0,
    ensures
        total(s) % BYTE_PER_SEC as nat == 0,
    decreases s.len(),
{
    if s.len() > 0 {
        let t = s.drop_last();
        assert forall|i: int| 0 <= i < t.len() implies #[trigger] t[i] % BYTE_PER_SEC == 0 by {
            assert(s[i] % BYTE_PER_SEC == 0);
        }
        lemma_total_of_byte_counts(t);
        assert(s[s.len() - 1] % BYTE_PER_SEC == 0);
    }
}

proof fn lemma_total_between(s: Seq<u64>, low: u64, high: u64)
    requires
        forall|i: int| 0 <= i < s.len() ==> low <= #[trigger] s[i] <= high,
    ensures
        s.len() * low <= total(s) <= s.len() * high,
    decreases s.len(),
{
    if s.len() > 0 {
        let t = s.drop_last();
        assert forall|i: int| 0 <= i < t.len() implies low <= #[trigger] t[i] <= high by {
            assert(t[i] == s[i]);
        }
        lemma_total_between(t, low, high);
        assert(low <= s[s.len() - 1] <= high);
        assert(s.len() * low == t.len() * low + low) by (nonlinear_arith)
            requires
                s.len() == t.len() + 1,
        ;
        assert(s.len() * high == t.len() * high + high) by (nonlinear_arith)
            requires
                s.len() == t.len() + 1,
        ;
    }
}

/// Below this speed the controller leaves the rate alone.
pub const IDLE_SPEED: u64 = 300_000_000;

/// The next rate of an adaptive limit that is to bring the measured speed to `target`: cut in
/// proportion when the speed is more than 2 % over it, raised by 15 % below nine tenths and
/// by 5 % below 98 % of it, and otherwise kept; a changed rate stays between a twentieth of
/// the target and the target.
pub open spec fn adaptive_rate(current: int, measured: int, target: int) -> int {
    let rate = if current <= 0 {
        target
    } else {
        current
    };
    if target <= 0 {
        0
    } else if measured < IDLE_SPEED {
        rate
    } else if measured * 100 > target * 102 {
        clamped(rate * (3 * measured + 7 * target) / (10 * measured), target)
    } else if measured * 100 < target * 90 {
        clamped(rate * 115 / 100, target)
    } else if measured * 100 < target * 98 {
        clamped(rate * 105 / 100, target)
    } else {
        rate
    }
}

/// `rate`, brought between a twentieth of `target` and `target`.
pub open spec fn clamped(rate: int, target: int) -> int {
    smaller(larger(rate, target / 20), target)
}

/// `c * a / b`, rounded down, without leaving 128 bits.
fn scaled(c: u64, a: u128, b: u128) -> (r: u128)
    requires
        0 < b,
        a <= b,
        b <= 0x10_0000_0000_0000_0000,
    ensures
        r == (c as int * a as int) / (b as int),
{
    let high: u128 = (c / 0x1_0000_0000) as u128;
    let low: u128 = (c % 0x1_0000_0000) as u128;
    assert(high * a <= 0x1_0000_0000 * 0x10_0000_0000_0000_0000) by (nonlinear_arith)
        requires
            high <= 0x1_0000_0000,
            a <= 0x10_0000_0000_0000_0000,
    ;
    assert(low * a <= 0x1_0000_0000 * 0x10_0000_0000_0000_0000) by (nonlinear_arith)
        requires
            low <= 0x1_0000_0000,
            a <= 0x10_0000_0000_0000_0000,
    ;
    let first: u128 = high * a;
    let q: u128 = first / b;
    let rem: u128 = first % b;
    assert(q <= high) by (nonlinear_arith)
        requires
            q as int == (high * a) / (b as int),
            a <= b,
            b > 0,
    ;
    let rest: u128 = rem * 0x1_0000_0000 + low * a;
    proof {
        let (ci, ai, bi) = (c as int, a as int, b as int);
        let (hi, lo, qi, ri) = (high as int, low as int, q as int, rem as int);
        assert(hi * ai == qi * bi + ri) by {
            vstd::arithmetic::div_mod::lemma_fundamental_div_mod(hi * ai, bi);
            assert(bi * qi == qi * bi) by (nonlinear_arith);
        }
        assert(ci * ai == qi * 0x1_0000_0000 * bi + rest) by (nonlinear_arith)
            requires
                ci == hi * 0x1_0000_0000 + lo,
                hi * ai == qi * bi + ri,
                rest == ri * 0x1_0000_0000 + lo * ai,
        ;
        vstd::arithmetic::div_mod::lemma_div_multiples_vanish_fancy(
            qi * 0x1_0000_0000 + rest as int / bi,
            rest as int % bi,
            bi,
        );
        vstd::arithmetic::div_mod::lemma_fundamental_div_mod(rest as int, bi);
        assert(ci * ai == bi * (qi * 0x1_0000_0000 + rest as int / bi) + rest as int % bi)
            by (nonlinear_arith)
            requires
                ci * ai == qi * 0x1_0000_0000 * bi + rest,
                rest as int == bi * (rest as int / bi) + rest as int % bi,
        ;
    }
    q * 0x1_0000_0000 + rest / b
}

/// [`clamped`] on machine numbers.
fn clamp_rate(rate: u128, target: u64) -> (r: u64)
    ensures
        r == clamped(rate as int, target as int),
{
    let low: u128 = (target / 20) as u128;
    let raised: u128 = if rate >= low {
        rate
    } else {
        low
    };
    if raised <= target as u128 {
        raised as u64
    } else {
        target
    }
}

pub fn compute_adaptive_rate(current_rate: u64, measured_avg: u64, target: u64) -> (r: u64)
    ensures
        r == adaptive_rate(current_rate as int, measured_avg as int, target as int),
{
    if target == 0 {
        return 0;
    }
    let rate: u64 = if current_rate == 0 {
        target
    } else {
        current_rate
    };
    if measured_avg < IDLE_SPEED {
        return rate;
    }
    let measured: u128 = measured_avg as u128;
    let goal: u128 = target as u128;
    let next: u128 = if measured * 100 > goal * 102 {
        scaled(rate, 3 * measured + 7 * goal, 10 * measured)
    } else if measured * 100 < goal * 90 {
        (rate as u128 * 115) / 100
    } else if measured * 100 < goal * 98 {
        (rate as u128 * 105) / 100
    } else {
        return rate;
    };
    clamp_rate(next, target)
}

/// An adaptive rate that lies between a twentieth of the target and the target stays there,
/// is not raised while the measured speed is over the target, and is not cut while the speed
/// is under it.
pub proof fn adaptive_rate_steers_to_target(current: int, measured: int, target: int)
    requires
        0 < target,
        target / 20 <= current <= target,
        0 < current,
    ensures
        target / 20 <= adaptive_rate(current, measured, target) <= target,
        measured * 100 > target * 102 ==> adaptive_rate(current, measured, target) <= current,
        measured * 100 < target * 98 ==> adaptive_rate(current, measured, target) >= current,
        measured < IDLE_SPEED ==> adaptive_rate(current, measured, target) == current,
{
    if measured >= IDLE_SPEED && measured * 100 > target * 102 {
        let a = 3 * measured + 7 * target;
        let b = 10 * measured;
        assert(current * a / b <= current) by (nonlinear_arith)
            requires
                0 < a <= b,
                0 < current,
        ;
    }
}

/// Where no rate was set yet, the controller starts from the target; without a target there
/// is no rate.
pub proof fn adaptive_rate_starts_at_target(measured: int, target: int)
    ensures
        target > 0 && measured < IDLE_SPEED ==> adaptive_rate(0, measured, target) == target,
        target > 0 ==> 0 <= adaptive_rate(0, measured, target) <= target,
        target <= 0 ==> adaptive_rate(0, measured, target) == 0,
{
}

/// The rate that letting `bytes` bytes pass in a second amounts to, as far as a rate reaches.
pub open spec fn speed_of_bytes(bytes: int) -> int {
    smaller(bytes * BYTE_PER_SEC, u64::MAX as int)
}

pub fn bytes_to_speed(bytes: u64) -> (r: u64)
    ensures
        r == speed_of_bytes(bytes as int),
{
    assert(bytes * BYTE_PER_SEC == bytes * 3_000_000) by (nonlinear_arith)
        requires
            BYTE_PER_SEC == 3_000_000,
    ;
    let wide: u128 = bytes as u128 * 3_000_000u128;
    if wide <= u64::MAX as u128 {
        wide as u64
    } else {
        u64::MAX
    }
}

/// A bucket lets pass just what it can pay for: no more than two seconds' worth at once, and no
/// more than was left in it and came in since; what passes is taken from it, and nothing else is.
pub proof fn buckets_pay_for_what_passes(tokens: int, rate: int, bytes: nat, nanos: nat)
    requires
        0 <= rate,
        0 <= tokens <= 2_000_000_000 * rate,
    ensures
        ({
            let price = bytes * 3_000_000_000_000_000;
            let passes = affords(refilled(tokens, rate, nanos as int), bytes as int);
            let left = after_request(tokens, rate, bytes as int, nanos as int);
            let unasked = after_request(tokens, rate, 0, nanos as int);
            &&& passes == (price <= 2_000_000_000 * rate && price <= tokens + rate * nanos)
            &&& left == unasked - if passes {
                price as int
            } else {
                0
            }
            &&& unasked <= 2_000_000_000 * rate
            &&& unasked <= tokens + rate * nanos
            &&& unasked == 2_000_000_000 * rate || unasked == tokens + rate * nanos
        }),
{
    assert(burst(rate) == 2_000_000_000 * rate) by (nonlinear_arith)
        requires
            burst(rate) == 2 * NANOS_PER_SEC * rate,
            NANOS_PER_SEC == 1_000_000_000,
    ;
    assert(rate * nanos >= 0) by (nonlinear_arith)
        requires
            rate >= 0,
    ;
}

/// The sum of two runs of samples is the sum of both, and that of one sample is the sample.
pub proof fn totals_add_up(a: Seq<u64>, b: Seq<u64>, x: u64)
    ensures
        total(a + b) == total(a) + total(b),
        total(seq![x]) == x,
    decreases b.len(),
{
    assert(seq![x].drop_last() =~= Seq::<u64>::empty());
    assert(total(Seq::<u64>::empty()) == 0);
    assert(total(seq![x]) == total(seq![x].drop_last()) + seq![x].last() as nat);
    if b.len() == 0 {
        assert(a + b =~= a);
    } else {
        totals_add_up(a, b.drop_last(), x);
        assert((a + b).drop_last() =~= a + b.drop_last());
    }
}

/// An average is the sum over the number of samples, with less than one unit cut off.
pub proof fn averages_share_the_sum(s: Seq<u64>)
    requires
        s.len() > 0,
    ensures
        mean(s) * s.len() <= total(s) < (mean(s) + 1) * s.len(),
{
    let (t, n) = (total(s) as int, s.len() as int);
    vstd::arithmetic::div_mod::lemma_fundamental_div_mod(t, n);
    assert(mean(s) * n <= t < (mean(s) + 1) * n) by (nonlinear_arith)
        requires
            t == n * mean(s) + t % n,
            0 <= t % n < n,
    ;
}

/// Only the newest samples count, and all of them, in the order in which they came.
pub proof fn newest_samples_count(s: Seq<u64>, n: nat)
    ensures
        last_of(s, n as int).len() <= n,
        last_of(s, n as int).len() == n || last_of(s, n as int) == s,
        forall|i: int|
            0 <= i < last_of(s, n as int).len() ==> #[trigger] last_of(s, n as int)[i] == s[s.len()
                - last_of(s, n as int).len() + i],
{
}

/// A count of bytes in a second is a speed in proportion, up to the largest that can be held.
pub proof fn speeds_are_in_proportion(bytes: u64)
    ensures
        bytes <= 6_148_914_691_236 ==> speed_of_bytes(bytes as int) == bytes * 3_000_000,
        bytes > 6_148_914_691_236 ==> speed_of_bytes(bytes as int) == u64::MAX,
{
}

/// Over the target the rate is cut in proportion: where it is not held at a twentieth of the
/// target, the next rate is three tenths of the current one and seven tenths of it in the
/// proportion of the target to the measured speed, and so strictly below it.
pub proof fn adaptive_rate_is_cut_over_the_target(current: int, measured: int, target: int)
    requires
        0 < target,
        300_000_000 <= measured,
        measured * 100 > target * 102,
        target / 20 < current <= target,
    ensures
        ({
            let next = adaptive_rate(current, measured, target);
            &&& next < current
            &&& next >= target / 20
            &&& next > target / 20 ==> 10 * measured * next <= current * (3 * measured + 7 * target)
            &&& current * (3 * measured + 7 * target) < 10 * measured * (next + 1)
        }),
{
    let a = 3 * measured + 7 * target;
    let b = 10 * measured;
    let n = current * a / b;
    vstd::arithmetic::div_mod::lemma_fundamental_div_mod(current * a, b);
    assert(b * n <= current * a < b * (n + 1)) by (nonlinear_arith)
        requires
            current * a == b * n + (current * a) % b,
            0 <= (current * a) % b < b,
    ;
    assert(n < current) by (nonlinear_arith)
        requires
            b * n <= current * a,
            0 < a < b,
            0 < current,
    ;
    let next = adaptive_rate(current, measured, target);
    if next > n {
        assert(b * (n + 1) <= b * (next + 1)) by (nonlinear_arith)
            requires
                n <= next,
                b > 0,
        ;
    }
}

/// Under the target the rate is raised, by 15 % below nine tenths of it and by 5 % below 98 %, but
/// never beyond the target; anywhere else near the target, and while hardly anything is measured,
/// it is left alone.
pub proof fn adaptive_rate_is_raised_under_the_target(current: int, measured: int, target: int)
    requires
        0 < target,
        target / 20 <= current <= target,
        0 < current,
    ensures
        ({
            let next = adaptive_rate(current, measured, target);
            &&& 300_000_000 <= measured && measured * 100 < target * 90 ==> {
                ||| next == target && 115 * current >= 100 * target
                ||| 100 * next <= 115 * current < 100 * (next + 1)
            }
            &&& 300_000_000 <= measured && target * 90 <= measured * 100 < target * 98 ==> {
                ||| next == target && 105 * current >= 100 * target
                ||| 100 * next <= 105 * current < 100 * (next + 1)
            }
            &&& target * 98 <= measured * 100 <= target * 102 ==> next == current
            &&& measured < 300_000_000 ==> next == current
        }),
{
}

/// Wherever the rate stood: over the target the next one is what the proportion gives, and under it
/// what the raise gives, each cut off to a whole unit and brought between a twentieth of the target
/// and the target; anywhere else it is left where it stood, and one that was never set stands at
/// the target.
pub proof fn adaptive_rate_is_brought_into_bounds(current: int, measured: int, target: int)
    requires
        0 < target,
        0 < current,
    ensures
        ({
            let next = adaptive_rate(current, measured, target);
            let over = measured * 100 > target * 102;
            let far_under = measured * 100 < target * 90;
            let under = measured * 100 < target * 98;
            &&& measured < 300_000_000 ==> next == current
            &&& !over && !under ==> next == current
            &&& measured >= 300_000_000 && (over || under) ==> target / 20 <= next <= target
            &&& measured >= 300_000_000 && over ==> {
                &&& next > target / 20 ==> 10 * measured * next <= current * (3 * measured + 7
                    * target)
                &&& next < target ==> current * (3 * measured + 7 * target) < 10 * measured * (next
                    + 1)
            }
            &&& measured >= 300_000_000 && far_under ==> {
                &&& next > target / 20 ==> 100 * next <= 115 * current
                &&& next < target ==> 115 * current < 100 * (next + 1)
            }
            &&& measured >= 300_000_000 && under && !far_under ==> {
                &&& next > target / 20 ==> 100 * next <= 105 * current
                &&& next < target ==> 105 * current < 100 * (next + 1)
            }
        }),
        adaptive_rate(0, measured, target) == adaptive_rate(target, measured, target),
        adaptive_rate(-current, measured, target) == adaptive_rate(target, measured, target),
        adaptive_rate(current, measured, 0) == 0,
        adaptive_rate(current, measured, -target) == 0,
{
    if measured >= 300_000_000 {
        let x = current * (3 * measured + 7 * target);
        let d = 10 * measured;
        let q = x / d;
        assert(d * q <= x < d * (q + 1)) by (nonlinear_arith)
            requires
                q == x / d,
                d > 0,
        ;
        let next = adaptive_rate(current, measured, target);
        assert(next < q ==> d * (next + 1) <= d * q) by (nonlinear_arith)
            requires
                d > 0,
        ;
        assert(next > q ==> d * (q + 1) <= d * next) by (nonlinear_arith)
            requires
                d > 0,
        ;
        assert(next <= q ==> d * next <= d * q) by (nonlinear_arith)
            requires
                d > 0,
        ;
        assert(next >= q ==> d * (q + 1) <= d * (next + 1)) by (nonlinear_arith)
            requires
                d > 0,
        ;
    }
}

} // verus!
