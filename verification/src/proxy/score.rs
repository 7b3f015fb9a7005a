//! The score of a proxy server.

use vstd::prelude::*;

verus! {

/// How many of the last `k` binary digits of a number are ones.
pub open spec fn ones(n: nat, k: nat) -> nat
    decreases k,
{
    if k == 0 {
        0
    } else {
        n % 2 + ones(n / 2, (k - 1) as nat)
    }
}

/// No more digits are ones than there are digits.
pub proof fn lemma_ones_bound(n: nat, k: nat)
    ensures
        ones(n, k) <= k,
    decreases k,
{
    if k > 0 {
        lemma_ones_bound(n / 2, (k - 1) as nat);
    }
}

/// Counts the ones among the last `k` binary digits.
pub fn count_ones(n: u64, k: u8) -> (r: u8)
    ensures
        r == ones(n as nat, k as nat),
        r <= k,
    decreases k,
{
    if k == 0 {
        0
    } else {
        ((n % 2) as u8) + count_ones(n / 2, k - 1)
    }
}

/// The history with one more entry, the newest last; the oldest entry is lost.
pub open spec fn shifted(history: u64, newest: bool) -> u64 {
    ((history % 0x8000_0000_0000_0000) * 2 + if newest {
        1int
    } else {
        0int
    }) as u64
}

/// Adds an entry to a history.
pub fn shift(history: u64, newest: bool) -> (r: u64)
    ensures
        r == shifted(history, newest),
{
    (history % 0x8000_0000_0000_0000) * 2 + if newest {
        1
    } else {
        0
    }
}

/// A new entry counts where it is a one, and the other entries move on.
pub proof fn lemma_shift_counts(history: u64, newest: bool, k: nat)
    requires
        k < 64,
    ensures
        ones(shifted(history, newest) as nat, k + 1) == ones(history as nat, k) + if newest {
            1nat
        } else {
            0nat
        },
{
    let h = shifted(history, newest) as nat;
    let low = history % 0x8000_0000_0000_0000;
    assert(h / 2 == low);
    lemma_ones_of_low_digits(history as nat, k, 63);
    assert(crate::net::power(2, 63) == 0x8000_0000_0000_0000) by {
        lemma_power_63();
    }
}

proof fn lemma_power_63()
    ensures
        crate::net::power(2, 63) == 0x8000_0000_0000_0000,
{
    reveal_with_fuel(crate::net::power, 22);
    assert(crate::net::power(2, 21) == 0x20_0000);
    lemma_power_step(21);
    lemma_power_step(42);
}

proof fn lemma_power_step(n: nat)
    ensures
        crate::net::power(2, n + 21) == crate::net::power(2, n) * 0x20_0000,
{
    reveal_with_fuel(crate::net::power, 22);
}

proof fn lemma_ones_of_low_digits(n: nat, k: nat, m: nat)
    requires
        k <= m,
    ensures
        ones(n % crate::net::power(2, m), k) == ones(n, k),
    decreases k,
{
    lemma_power_positive(m);
    if k > 0 {
        let p = crate::net::power(2, (m - 1) as nat);
        lemma_ones_of_low_digits(n / 2, (k - 1) as nat, (m - 1) as nat);
        lemma_power_positive((m - 1) as nat);
        assert((n % (p * 2)) / 2 == (n / 2) % p && (n % (p * 2)) % 2 == n % 2) by {
            vstd::arithmetic::div_mod::lemma_fundamental_div_mod(n as int, (p * 2) as int);
            let q = n / (p * 2);
            let r = n % (p * 2);
            assert(n == (p * 2) * q + r);
            assert((p * 2) * q == 2 * (p * q)) by (nonlinear_arith);
            assert(n / 2 == p * q + r / 2);
            assert(r / 2 < p);
            vstd::arithmetic::div_mod::lemma_fundamental_div_mod_converse(
                (n / 2) as int,
                p as int,
                q as int,
                (r / 2) as int,
            );
        }
        let x = n % crate::net::power(2, m);
        assert(crate::net::power(2, m) == p * 2);
        assert(x / 2 == (n / 2) % p);
        assert(ones(x, k) == x % 2 + ones(x / 2, (k - 1) as nat));
    }
}

proof fn lemma_power_positive(m: nat)
    ensures
        crate::net::power(2, m) > 0,
    decreases m,
{
    if m > 0 {
        lemma_power_positive((m - 1) as nat);
    }
}

/// The power of two by which a number must be divided to have no more than 24
/// binary digits before the point.
pub open spec fn unit(n: nat) -> nat
    decreases n,
{
    if n < 0x100_0000 {
        1
    } else {
        2 * unit(n / 2)
    }
}

/// A number rounded to 24 binary digits, to the even one of two that are
/// equally near.
pub open spec fn rounded(n: nat) -> nat {
    let u = unit(n);
    let q = n / u;
    let r = n % u;
    if 2 * r > u || (2 * r == u && q % 2 == 1) {
        (q + 1) * u
    } else {
        q * u
    }
}

/// The error rate of a history in sixty-fourths: the lower one of those of the
/// last 16 and the last 64 connections.
pub open spec fn error_rate(history: u64) -> nat {
    let a = 4 * ones(history as nat, 16);
    let b = ones(history as nat, 64);
    if a < b {
        a
    } else {
        b
    }
}

/// What is added to a score without its sign: ten times the score, times the
/// error rate, where each product has 24 binary digits.
pub open spec fn penalty_size(size: nat, rate: nat) -> nat {
    let product = rounded(rounded(rounded(size) * rate) * 10);
    (product + 32) / 64
}

/// What is added to a score for the errors of the past.
pub open spec fn penalty(score: int, rate: nat) -> int {
    if score >= 0 {
        let p = penalty_size(score as nat, rate) as int;
        if p > i32::MAX {
            i32::MAX as int
        } else {
            p
        }
    } else {
        let p = -(penalty_size((-score) as nat, rate) as int);
        if p < i32::MIN {
            i32::MIN as int
        } else {
            p
        }
    }
}

/// The quotient without its fraction.
pub open spec fn quotient(a: int, b: int) -> int {
    if a >= 0 {
        a / b
    } else {
        -((-a) / b)
    }
}

/// Whether a number is one of 32 bits.
pub open spec fn fits(n: int) -> bool {
    i32::MIN <= n <= i32::MAX
}

/// The moving average: a score that is worse than the last one weighs more.
pub open spec fn average(last: int, score: int) -> int {
    if score < last {
        quotient(last * 9 + score, 10)
    } else {
        quotient(last * 8 + score * 2, 10)
    }
}

/// The next score, from the last one, what was measured, and the error rate;
/// none where a number on the way has more than 32 bits.
pub open spec fn next_average(last: int, measured: int, rate: nat) -> Option<i32> {
    let score = measured + penalty(measured, rate);
    if !fits(last) || !fits(measured) || !fits(score) {
        None
    } else if score < last {
        if fits(last * 9) && fits(last * 9 + score) {
            Some(average(last, score) as i32)
        } else {
            None
        }
    } else if fits(last * 8) && fits(score * 2) && fits(last * 8 + score * 2) {
        Some(average(last, score) as i32)
    } else {
        None
    }
}

proof fn lemma_unit(n: nat)
    ensures
        unit(n) >= 1,
        n >= 0x100_0000 ==> unit(n) * 0x80_0000 <= n,
        n < 0x100_0000 ==> unit(n) == 1,
        n < 0x100_0000 * unit(n),
    decreases n,
{
    if n >= 0x100_0000 {
        lemma_unit(n / 2);
    }
}

fn find_unit(n: u64) -> (u: u64)
    requires
        n < 0x1_0000_0000_0000,
    ensures
        u == unit(n as nat),
    decreases n,
{
    proof {
        lemma_unit((n / 2) as nat);
    }
    if n < 0x100_0000 {
        1
    } else {
        2 * find_unit(n / 2)
    }
}

proof fn lemma_rounded_bound(n: nat)
    ensures
        rounded(n) <= 2 * n + 1,
{
    lemma_unit(n);
    let u = unit(n);
    let q = n / u;
    let r = n % u;
    assert(n == u * q + r) by {
        vstd::arithmetic::div_mod::lemma_fundamental_div_mod(n as int, u as int);
    }
    assert((q + 1) * u == q * u + u) by (nonlinear_arith);
    assert(q * u == u * q) by (nonlinear_arith);
    assert(q * u <= n);
    if 2 * r > u || (2 * r == u && q % 2 == 1) {
        // Half of the unit is no more than what is left over.
        assert(u <= 2 * r);
        assert(r <= n);
    }
}

fn round_number(n: u64) -> (r: u64)
    requires
        n < 0x1_0000_0000_0000,
    ensures
        r == rounded(n as nat),
        r <= 2 * n + 1,
{
    proof {
        lemma_unit(n as nat);
        lemma_rounded_bound(n as nat);
    }
    let u = find_unit(n);
    let q = n / u;
    let r = n % u;
    proof {
        assert(n == u * q + r) by {
            vstd::arithmetic::div_mod::lemma_fundamental_div_mod(n as int, u as int);
        }
        assert(q <= n) by (nonlinear_arith)
            requires
                n == u * q + r,
                u >= 1,
                r >= 0,
        ;
        assert((q + 1) * u == q * u + u) by (nonlinear_arith);
        assert(q * u == u * q) by (nonlinear_arith);
    }
    if 2 * r > u || (2 * r == u && q % 2 == 1) {
        (q + 1) * u
    } else {
        q * u
    }
}

fn size_of_penalty(size: u64, rate: u8) -> (r: u64)
    requires
        size <= 0x8000_0000,
        rate <= 64,
    ensures
        r == penalty_size(size as nat, rate as nat),
{
    let a = round_number(size);
    assert(a * rate <= 0x1_0000_0001 * 64) by (nonlinear_arith)
        requires
            a <= 0x1_0000_0001,
            rate <= 64,
    ;
    let b = round_number(a * (rate as u64));
    let c = round_number(b * 10);
    (c + 32) / 64
}

/// What is added to a score for the errors of the past.
pub fn penalty_of(score: i32, rate: u8) -> (r: i32)
    requires
        rate <= 64,
    ensures
        r == penalty(score as int, rate as nat),
{
    if score >= 0 {
        let p = size_of_penalty(score as u64, rate);
        if p > i32::MAX as u64 {
            i32::MAX
        } else {
            p as i32
        }
    } else {
        let p = size_of_penalty((-(score as i64)) as u64, rate);
        if p > 0x8000_0000 {
            i32::MIN
        } else {
            (-(p as i64)) as i32
        }
    }
}

/// The error rate of a history in sixty-fourths.
pub fn error_rate_of(history: u64) -> (r: u8)
    ensures
        r == error_rate(history),
        r <= 64,
{
    let a = 4 * count_ones(history, 16);
    let b = count_ones(history, 64);
    if a < b {
        a
    } else {
        b
    }
}

fn divide(a: i64, b: i64) -> (r: i64)
    requires
        b > 0,
        i64::MIN < a,
    ensures
        r == quotient(a as int, b as int),
{
    if a >= 0 {
        a / b
    } else {
        let m = -a;
        assert(0 <= m / b <= m) by (nonlinear_arith)
            requires
                m >= 0,
                b > 0,
        ;
        -(m / b)
    }
}

fn in_range(n: i64) -> (r: bool)
    ensures
        r == fits(n as int),
{
    i32::MIN as i64 <= n && n <= i32::MAX as i64
}

/// The next score.
pub fn next_average_of(last: i64, measured: i64, rate: u8) -> (r: Option<i32>)
    requires
        rate <= 64,
    ensures
        r == next_average(last as int, measured as int, rate as nat),
{
    if !in_range(last) || !in_range(measured) {
        return None;
    }
    let score = measured + (penalty_of(measured as i32, rate) as i64);
    if !in_range(score) {
        return None;
    }
    if score < last {
        if in_range(last * 9) && in_range(last * 9 + score) {
            let r = divide(last * 9 + score, 10);
            proof {
                lemma_tenth_fits(last * 9 + score);
            }
            Some(r as i32)
        } else {
            None
        }
    } else if in_range(last * 8) && in_range(score * 2) && in_range(last * 8 + score * 2) {
        let r = divide(last * 8 + score * 2, 10);
        proof {
            lemma_tenth_fits(last * 8 + score * 2);
        }
        Some(r as i32)
    } else {
        None
    }
}

proof fn lemma_tenth_fits(n: int)
    requires
        fits(n),
    ensures
        fits(quotient(n, 10)),
{
}

/// The moving average lies between the last score and the new one.
pub proof fn lemma_average_between(last: int, score: int)
    ensures
        score < last ==> score <= average(last, score) <= last,
        last <= score ==> last <= average(last, score) <= score,
{
}

/// Without errors nothing is added.
pub proof fn lemma_no_errors_no_penalty(score: int)
    ensures
        penalty(score, 0) == 0,
{
    lemma_rounded_zero();
    let size = if score >= 0 {
        score as nat
    } else {
        (-score) as nat
    };
    assert(rounded(size) * 0 == 0);
}

proof fn lemma_units_grow(n: nat, m: nat)
    requires
        n <= m,
    ensures
        unit(n) == unit(m) || 2 * unit(n) <= unit(m),
    decreases m,
{
    if m >= 0x100_0000 {
        lemma_unit(m / 2);
        if n >= 0x100_0000 {
            lemma_units_grow(n / 2, m / 2);
        }
    }
}

/// What rounding gives lies in between: no less than the whole units and no more
/// than one unit further.
proof fn lemma_rounded_range(n: nat)
    ensures
        (n / unit(n)) * unit(n) <= rounded(n) <= (n / unit(n) + 1) * unit(n),
        n / unit(n) < 0x100_0000,
        unit(n) > 1 ==> n / unit(n) >= 0x80_0000,
        unit(n) >= 1,
        n == unit(n) * (n / unit(n)) + n % unit(n),
        n % unit(n) < unit(n),
{
    lemma_unit(n);
    let u = unit(n);
    let q = n / u;
    let r = n % u;
    vstd::arithmetic::div_mod::lemma_fundamental_div_mod(n as int, u as int);
    vstd::arithmetic::div_mod::lemma_mod_bound(n as int, u as int);
    assert(q < 0x100_0000) by (nonlinear_arith)
        requires
            n == u * q + r,
            n < 0x100_0000 * u,
            r >= 0,
            u >= 1,
    ;
    if u > 1 {
        assert(q >= 0x80_0000) by (nonlinear_arith)
            requires
                n == u * q + r,
                u * 0x80_0000 <= n,
                r < u,
                u >= 1,
        ;
    }
    assert((q + 1) * u == q * u + u) by (nonlinear_arith);
}

/// Rounding keeps the order of numbers.
proof fn lemma_rounded_grows(n: nat, m: nat)
    requires
        n <= m,
    ensures
        rounded(n) <= rounded(m),
{
    lemma_units_grow(n, m);
    lemma_rounded_range(n);
    lemma_rounded_range(m);
    let u = unit(n);
    let v = unit(m);
    let a = n / u;
    let b = m / v;
    if u == v {
        assert(a <= b) by (nonlinear_arith)
            requires
                n == u * a + n % u,
                m == u * b + m % u,
                n <= m,
                n % u < u,
                m % u < u,
                u >= 1,
                n % u >= 0,
        ;
        if a < b {
            assert((a + 1) * u <= b * u) by (nonlinear_arith)
                requires
                    a < b,
                    u >= 1,
            ;
        } else {
            assert(a * u <= (a + 1) * u) by (nonlinear_arith)
                requires
                    u >= 1,
            ;
        }
    } else {
        assert((a + 1) * u <= b * v) by (nonlinear_arith)
            requires
                a < 0x100_0000,
                b >= 0x80_0000,
                2 * u <= v,
                u >= 1,
        ;
    }
}

proof fn lemma_penalty_grows(size: nat, rate: nat, larger: nat, higher: nat)
    requires
        size <= larger,
        rate <= higher,
    ensures
        penalty_size(size, rate) <= penalty_size(larger, higher),
{
    let a = rounded(size);
    let b = rounded(larger);
    lemma_rounded_grows(size, larger);
    assert(a * rate <= b * higher) by (nonlinear_arith)
        requires
            a <= b,
            rate <= higher,
    ;
    lemma_rounded_grows(a * rate, b * higher);
    lemma_rounded_grows(rounded(a * rate) * 10, rounded(b * higher) * 10);
}

/// Of two servers with the same score, the one that answers later or has more
/// errors does not get the better score.
pub proof fn lemma_worse_server_gets_no_better_score(
    last: int,
    measured: int,
    rate: nat,
    later: int,
    higher: nat,
)
    requires
        0 <= measured <= later,
        rate <= higher,
    ensures
        next_average(last, measured, rate) matches Some(a) ==> (next_average(
            last,
            later,
            higher,
        ) matches Some(b) ==> a <= b),
{
    lemma_penalty_grows(measured as nat, rate, later as nat, higher);
}

proof fn lemma_rounded_zero()
    ensures
        rounded(0) == 0,
{
    assert(unit(0) == 1);
}

/// A score that is worse by some amount moves the average by a fifth of it, and
/// one that is better by a tenth.
pub proof fn lemma_worse_weighs_twice(last: int, k: int)
    requires
        k >= 0,
    ensures
        average(last, last + 10 * k) == last + 2 * k,
        average(last, last - 10 * k) == last - k,
{
}

/// The error rate in sixty-fourths is the lower one of those of the last 16 and
/// of the last 64 connections. Once no connection of the last 16 failed it is
/// zero, and while none but the newest one did it is one of 64.
pub proof fn lemma_error_rate_is_lower(history: u64)
    ensures
        error_rate(history) <= 4 * ones(history as nat, 16),
        error_rate(history) <= ones(history as nat, 64),
        error_rate(history) == 4 * ones(history as nat, 16) || error_rate(history) == ones(
            history as nat,
            64,
        ),
        error_rate(history) <= 64,
        history == 0 ==> error_rate(history) == 0,
        history % 0x1_0000 == 0 ==> error_rate(history) == 0,
        history == 1 ==> error_rate(history) == 1,
{
    lemma_ones_bound(history as nat, 64);
    if history % 0x1_0000 == 0 {
        assert(crate::net::power(2, 16) == 0x1_0000) by {
            reveal_with_fuel(crate::net::power, 17);
        }
        lemma_no_ones(history as nat, 16, history as nat / 0x1_0000);
    }
    if history == 1 {
        lemma_no_ones(0, 63, 0);
        lemma_no_ones(0, 15, 0);
    }
}

proof fn lemma_no_ones(n: nat, k: nat, q: nat)
    requires
        n == q * crate::net::power(2, k),
    ensures
        ones(n, k) == 0,
    decreases k,
{
    if k > 0 {
        let p = crate::net::power(2, (k - 1) as nat);
        assert(q * (p * 2) == (q * p) * 2) by (nonlinear_arith);
        lemma_no_ones(n / 2, (k - 1) as nat, q);
    }
}

/// As long as the numbers are small, a score grows by ten times the error rate,
/// rounded to the nearest number.
pub proof fn lemma_penalty_of_small_scores(score: int, rate: nat)
    requires
        0 <= score,
        rate <= 64,
        score * rate * 10 < 0x100_0000,
        score < 0x100_0000,
        score * rate < 0x100_0000,
    ensures
        penalty(score, rate) == (score * rate * 10 + 32) / 64,
        penalty(-score, rate) == -((score * rate * 10 + 32) / 64),
{
    let size = score as nat;
    lemma_small_is_exact(size);
    let product = (size * rate) as nat;
    assert(size * rate >= 0) by (nonlinear_arith)
        requires
            size >= 0,
            rate >= 0,
    ;
    lemma_small_is_exact(product);
    lemma_small_is_exact((product * 10) as nat);
    if score == 0 {
        assert(product == 0) by (nonlinear_arith)
            requires
                size == 0,
                product == size * rate,
        ;
    }
}

proof fn lemma_small_is_exact(n: nat)
    requires
        n < 0x100_0000,
    ensures
        rounded(n) == n,
{
    assert(unit(n) == 1);
    assert(n / 1 == n && n % 1 == 0);
}

/// A server that answers as before and does not fail keeps its score.
pub proof fn lemma_steady_score(score: i32)
    requires
        -200_000_000 <= score <= 200_000_000,
    ensures
        next_average(score as int, score as int, 0) == Some(score),
{
    lemma_no_errors_no_penalty(score as int);
    lemma_average_between(score as int, score as int);
}

/// Rounding goes to the nearest number with 24 binary digits, and to the even
/// one where two are equally near. Twice a large number is rounded to twice as
/// much.
pub proof fn lemma_rounding(n: nat)
    ensures
        n < 0x100_0000 ==> rounded(n) == n,
        0x100_0000 <= n < 0x200_0000 ==> rounded(n) % 2 == 0 && n - 1 <= rounded(n) <= n + 1 && (n
            % 2 == 1 ==> rounded(n) % 4 == 0),
        0x80_0000 <= n ==> rounded(2 * n) == 2 * rounded(n),
        2 * n <= 2 * rounded(n) + unit(n) && 2 * rounded(n) <= 2 * n + unit(n),
{
    lemma_unit(n);
    if n < 0x100_0000 {
        lemma_small_is_exact(n);
    }
    if 0x100_0000 <= n < 0x200_0000 {
        assert(unit(n / 2) == 1);
        assert(unit(n) == 2);
    }
    let u = unit(n);
    assert(u > 0);
    let q = n / u;
    let r = n % u;
    vstd::arithmetic::div_mod::lemma_fundamental_div_mod(n as int, u as int);
    assert(n == u * q + r);
    assert((q + 1) * u == q * u + u) by (nonlinear_arith);
    assert(u * q == q * u) by (nonlinear_arith);
    assert(r < u) by {
        vstd::arithmetic::div_mod::lemma_mod_bound(n as int, u as int);
    }
    if 0x80_0000 <= n {
        assert(2 * n / 2 == n);
        assert(unit(2 * n) == 2 * u);
        assert(2 * n == (2 * u) * q + 2 * r) by (nonlinear_arith)
            requires
                n == u * q + r,
        ;
        vstd::arithmetic::div_mod::lemma_fundamental_div_mod_converse(
            (2 * n) as int,
            (2 * u) as int,
            q as int,
            (2 * r) as int,
        );
        assert((2 * n) / (2 * u) == q && (2 * n) % (2 * u) == 2 * r);
        assert((q + 1) * (2 * u) == 2 * ((q + 1) * u)) by (nonlinear_arith);
        assert(q * (2 * u) == 2 * (q * u)) by (nonlinear_arith);
    }
}

/// There is a score exactly where each number on the way to it has no more than
/// 32 bits.
pub proof fn lemma_scores_of_32_bits(last: int, measured: int)
    requires
        fits(last),
        fits(measured),
    ensures
        measured < last ==> (next_average(last, measured, 0) is Some <==> fits(last * 9) && fits(
            last * 9 + measured,
        )),
        measured >= last ==> (next_average(last, measured, 0) is Some <==> fits(last * 8) && fits(
            measured * 2,
        ) && fits(last * 8 + measured * 2)),
{
    lemma_no_errors_no_penalty(measured);
}

} // verus!
