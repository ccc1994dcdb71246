//! The proleptic Gregorian calendar as mathematical functions, together with
//! the arithmetic lemmas that the epoch decoder's proof rests on.
//!
//! All counts are days: `days_before_year(y)` is the (possibly negative)
//! number of days from 1970-01-01 to `y`-01-01, so that a date `(y, m, d)`
//! sits `days_before_year(y) + days_before_month(y, m) + (d - 1)` days after
//! the Unix epoch.

use vstd::prelude::*;
use vstd::arithmetic::div_mod::{
    lemma_fundamental_div_mod, lemma_fundamental_div_mod_converse_div,
    lemma_fundamental_div_mod_converse_mod,
};

verus! {

/// A year has 366 days exactly when it is divisible by 4 and not by 100,
/// unless it is also divisible by 400.
pub open spec fn is_leap_year(y: int) -> bool {
    y % 4 == 0 && (y % 100 != 0 || y % 400 == 0)
}

/// 1 for a leap year, 0 otherwise.
pub open spec fn leap_of(y: int) -> int {
    if is_leap_year(y) {
        1
    } else {
        0
    }
}

/// Length in days of month `m` (1 = January .. 12 = December) of year `y`.
pub open spec fn days_in_month_of(y: int, m: int) -> int {
    if m == 1 {
        31
    } else if m == 2 {
        28 + leap_of(y)
    } else if m == 3 {
        31
    } else if m == 4 {
        30
    } else if m == 5 {
        31
    } else if m == 6 {
        30
    } else if m == 7 {
        31
    } else if m == 8 {
        31
    } else if m == 9 {
        30
    } else if m == 10 {
        31
    } else if m == 11 {
        30
    } else {
        31
    }
}

/// Days from `y`-01-01 to `y`-`m`-01.
pub open spec fn days_before_month(y: int, m: int) -> int
    decreases m,
{
    if m <= 1 {
        0
    } else {
        days_before_month(y, m - 1) + days_in_month_of(y, m - 1)
    }
}

/// `leap_count_upto(b) - leap_count_upto(a)` counts the leap years `y` with
/// `a <= y < b` (for `a <= b`).
pub open spec fn leap_count_upto(y: int) -> int {
    (y - 1) / 4 - (y - 1) / 100 + (y - 1) / 400
}

/// Days from 1970-01-01 to `y`-01-01; negative for years before 1970.
pub open spec fn days_before_year(y: int) -> int {
    365 * (y - 1970) + leap_count_upto(y) - leap_count_upto(1970)
}

/// Days from 1970-01-01 to the date `(y, m, d)`.
pub open spec fn epoch_days_of(y: int, m: int, d: int) -> int {
    days_before_year(y) + days_before_month(y, m) + (d - 1)
}

/// Days from 2000-03-01 to March 1 of the year `2000 + n`.
pub open spec fn march_days(n: int) -> int {
    365 * n + n / 4 - n / 100 + n / 400
}

/// Euclidean division and remainder from an explicit witness: if
/// `x == q * d + r` with `r` in range, then `q` and `r` are the quotient and
/// the remainder.
pub proof fn lemma_div_mod_witness(x: int, d: int, q: int, r: int)
    requires
        d > 0,
        0 <= r < d,
        x == q * d + r,
    ensures
        x / d == q,
        x % d == r,
{
    lemma_fundamental_div_mod_converse_div(x, d, q, r);
    lemma_fundamental_div_mod_converse_mod(x, d, q, r);
}

/// Dividing one step earlier lowers the quotient exactly on multiples:
/// `x / d == (x - 1) / d + 1` when `d` divides `x`, and the two quotients
/// agree otherwise.
pub proof fn lemma_div_step(x: int, d: int)
    requires
        d > 0,
    ensures
        x / d == (x - 1) / d + (if x % d == 0 {
            1int
        } else {
            0int
        }),
{
    lemma_fundamental_div_mod(x, d);
    let q = x / d;
    let r = x % d;
    if r == 0 {
        assert(x - 1 == (q - 1) * d + (d - 1)) by (nonlinear_arith)
            requires
                x == d * q + r && r == 0,
        ;
        lemma_div_mod_witness(x - 1, d, q - 1, d - 1);
    } else {
        assert(x - 1 == q * d + (r - 1)) by (nonlinear_arith)
            requires
                x == d * q + r,
        ;
        lemma_div_mod_witness(x - 1, d, q, r - 1);
    }
}

/// Shifting the dividend by a multiple of the divisor shifts the quotient by
/// the multiplier.
pub proof fn lemma_div_shift(x: int, d: int, k: int)
    requires
        d > 0,
    ensures
        (x + k * d) / d == x / d + k,
        (x + k * d) % d == x % d,
{
    lemma_fundamental_div_mod(x, d);
    assert(x + k * d == (x / d + k) * d + x % d) by (nonlinear_arith)
        requires
            x == d * (x / d) + x % d,
    ;
    lemma_div_mod_witness(x + k * d, d, x / d + k, x % d);
}

/// One more calendar year adds 365 days, or 366 across a leap year.
pub proof fn lemma_year_bridge(y: int)
    ensures
        days_before_year(y + 1) == days_before_year(y) + 365 + leap_of(y),
{
    lemma_div_step(y, 4);
    lemma_div_step(y, 100);
    lemma_div_step(y, 400);
    if y % 100 == 0 {
        lemma_mod_mult_factor(y, 25, 4);
    }
    if y % 400 == 0 {
        lemma_mod_mult_factor(y, 4, 100);
    }
}

/// If `a * b` divides `x` evenly then so does `b`.
proof fn lemma_mod_mult_factor(x: int, a: int, b: int)
    requires
        a > 0,
        b > 0,
        x % (a * b) == 0,
    ensures
        x % b == 0,
{
    assert(a * b > 0) by (nonlinear_arith)
        requires
            a > 0 && b > 0,
    ;
    lemma_fundamental_div_mod(x, a * b);
    let q = x / (a * b);
    assert(x == (q * a) * b) by (nonlinear_arith)
        requires
            x == (a * b) * q,
    ;
    lemma_div_mod_witness(x, b, q * a, 0);
}

/// `days_before_year` never decreases as the year grows.
pub proof fn lemma_days_before_year_monotone(y1: int, y2: int)
    requires
        y1 <= y2,
    ensures
        days_before_year(y1) <= days_before_year(y2),
    decreases y2 - y1,
{
    if y1 < y2 {
        lemma_year_bridge(y2 - 1);
        lemma_days_before_year_monotone(y1, y2 - 1);
    }
}

/// The running day totals of the twelve months, unfolded.
pub proof fn lemma_days_before_month_values(y: int)
    ensures
        days_before_month(y, 1) == 0,
        days_before_month(y, 2) == 31,
        days_before_month(y, 3) == 59 + leap_of(y),
        days_before_month(y, 4) == 90 + leap_of(y),
        days_before_month(y, 5) == 120 + leap_of(y),
        days_before_month(y, 6) == 151 + leap_of(y),
        days_before_month(y, 7) == 181 + leap_of(y),
        days_before_month(y, 8) == 212 + leap_of(y),
        days_before_month(y, 9) == 243 + leap_of(y),
        days_before_month(y, 10) == 273 + leap_of(y),
        days_before_month(y, 11) == 304 + leap_of(y),
        days_before_month(y, 12) == 334 + leap_of(y),
        days_before_month(y, 13) == 365 + leap_of(y),
{
    reveal_with_fuel(days_before_month, 14);
}

/// Splitting a count of March-based years into 400-, 100-, 4- and 1-year
/// cycles splits the day count into 146097-, 36524-, 1461- and 365-day
/// blocks, as long as the three smaller counts are capped below the next
/// cycle.
pub proof fn lemma_year_split(qc: int, c: int, q: int, ry: int)
    ensures
        0 <= c <= 3 && 0 <= q <= 24 && 0 <= ry <= 3 ==> march_days(
            400 * qc + 100 * c + 4 * q + ry,
        ) == 146097 * qc + 36524 * c + 1461 * q + 365 * ry,
{
    if 0 <= c <= 3 && 0 <= q <= 24 && 0 <= ry <= 3 {
        let y = 400 * qc + 100 * c + 4 * q + ry;
        lemma_div_mod_witness(y, 400, qc, 100 * c + 4 * q + ry);
        lemma_div_mod_witness(y, 100, 4 * qc + c, 4 * q + ry);
        lemma_div_mod_witness(y, 4, 100 * qc + 25 * c + q, ry);
    }
}

/// Ties the civil year count to the March-based cycle count: March 1 of the
/// year `2000 + n` falls `march_days(n)` days after 2000-03-01, which itself
/// is 11017 days past the Unix epoch.
pub proof fn lemma_march_anchor(n: int)
    ensures
        days_before_year(2000 + n) + 59 + leap_of(2000 + n) == 11017 + march_days(n),
{
    lemma_div_shift(n - 1, 4, 500);
    lemma_div_shift(n - 1, 100, 20);
    lemma_div_shift(n - 1, 400, 5);
    lemma_div_step(n, 4);
    lemma_div_step(n, 100);
    lemma_div_step(n, 400);
    lemma_div_shift(n, 4, 500);
    lemma_div_shift(n, 100, 20);
    lemma_div_shift(n, 400, 5);
    if n % 100 == 0 {
        lemma_mod_mult_factor(n, 25, 4);
    }
    if n % 400 == 0 {
        lemma_mod_mult_factor(n, 4, 100);
    }
    lemma_div_mod_witness(1969, 4, 492, 1);
    lemma_div_mod_witness(1969, 100, 19, 69);
    lemma_div_mod_witness(1969, 400, 4, 369);
    assert((2000 + n) % 4 == n % 4 && (2000 + n) % 100 == n % 100 && (2000 + n) % 400 == n
        % 400) by {
        assert(n + 500 * 4 == 2000 + n && n + 20 * 100 == 2000 + n && n + 5 * 400 == 2000 + n);
    }
}

/// The decomposition caps put a 366th day in a March-based year only when
/// the civil year holding its February is a leap year.
pub proof fn lemma_feb29(qc: int, c: int, q: int)
    requires
        0 <= c <= 3,
        0 <= q <= 24,
        q == 24 ==> c == 3,
    ensures
        is_leap_year(2001 + 400 * qc + 100 * c + 4 * q + 3),
{
    let y = 2004 + 400 * qc + 100 * c + 4 * q;
    lemma_div_mod_witness(y, 4, 501 + 100 * qc + 25 * c + q, 0);
    if q < 24 {
        lemma_div_mod_witness(y, 100, 20 + 4 * qc + c, 4 + 4 * q);
    } else {
        lemma_div_mod_witness(y, 400, 6 + qc, 0);
    }
}

/// A valid date of year `y` falls on or after `y`-01-01 and strictly before
/// `(y + 1)`-01-01.
pub proof fn lemma_epoch_days_bounds(y: int, m: int, d: int)
    requires
        1 <= m <= 12,
        1 <= d <= days_in_month_of(y, m),
    ensures
        days_before_year(y) <= epoch_days_of(y, m, d),
        epoch_days_of(y, m, d) < days_before_year(y + 1),
{
    lemma_days_before_month_values(y);
    lemma_year_bridge(y);
}

} // verus!
