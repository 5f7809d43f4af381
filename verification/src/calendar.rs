//! The Gregorian calendar, carried on before and after its time.
use vstd::prelude::*;

verus! {

/// Whether a year has a 29th of February.
pub open spec fn is_leap(y: int) -> bool {
    y % 4 == 0 && (y % 100 != 0 || y % 400 == 0)
}

/// The days of a month.
pub open spec fn days_in_month(y: int, m: int) -> int {
    if m == 2 {
        if is_leap(y) {
            29
        } else {
            28
        }
    } else if m == 4 || m == 6 || m == 9 || m == 11 {
        30
    } else {
        31
    }
}

/// The days of a year before a month.
pub open spec fn days_before_month(y: int, m: int) -> int
    decreases m,
{
    if m <= 1 {
        0
    } else {
        days_before_month(y, m - 1) + days_in_month(y, m - 1)
    }
}

/// The days from the first day of year 1 to the first day of year `y`: 365 for
/// each year, and one more for each leap year.
pub open spec fn days_before_year(y: int) -> int {
    365 * (y - 1) + (y - 1) / 4 - (y - 1) / 100 + (y - 1) / 400
}

/// Whether there is such a day.
pub open spec fn valid_date(y: int, m: int, d: int) -> bool {
    1 <= m <= 12 && 1 <= d <= days_in_month(y, m)
}

/// The days from the first day of 1970 to a day.
pub open spec fn day_number(y: int, m: int, d: int) -> int {
    days_before_year(y) - days_before_year(1970) + days_before_month(y, m) + d - 1
}

/// Whether `t`, as year, month and day, is the day with number `n`.
pub open spec fn is_date(t: (int, int, int), n: int) -> bool {
    valid_date(t.0, t.1, t.2) && day_number(t.0, t.1, t.2) == n
}

/// The day with number `n`, as year, month and day.
pub open spec fn date_of(n: int) -> (int, int, int) {
    choose|t: (int, int, int)| is_date(t, n)
}

/// A number of 64 bits as a signed number.
pub open spec fn as_signed(n: u64) -> int {
    if n <= i64::MAX {
        n as int
    } else {
        n - 0x1_0000_0000_0000_0000
    }
}

/// The days from the first of March of year 0 to the first day of 1970.
pub const EPOCH_SHIFT: i64 = 719468;

/// Each year is as long as it should be, and so are its months together.
pub proof fn law_year_length(y: int)
    ensures
        days_before_year(y + 1) - days_before_year(y) == if is_leap(y) {
            366int
        } else {
            365
        },
        days_before_month(y, 12) + days_in_month(y, 12) == days_before_year(y + 1)
            - days_before_year(y),
{
    lemma_step(y, 4);
    lemma_step(y, 100);
    lemma_step(y, 400);
    lemma_multiples(y);
    lemma_months_sum(y);
}

proof fn lemma_months_sum(y: int)
    ensures
        days_before_month(y, 12) + days_in_month(y, 12) == if is_leap(y) {
            366int
        } else {
            365
        },
{
    reveal_with_fuel(days_before_month, 13);
}

proof fn lemma_multiples(y: int)
    ensures
        y % 400 == 0 ==> y % 100 == 0,
        y % 100 == 0 ==> y % 4 == 0,
{
}

proof fn lemma_step(y: int, n: int)
    requires
        n == 4 || n == 100 || n == 400,
    ensures
        y / n - (y - 1) / n == if y % n == 0 {
            1int
        } else {
            0
        },
{
    if n == 4 {
        assert(y / 4 - (y - 1) / 4 == if y % 4 == 0 {
            1int
        } else {
            0
        });
    } else if n == 100 {
        assert(y / 100 - (y - 1) / 100 == if y % 100 == 0 {
            1int
        } else {
            0
        });
    } else {
        assert(y / 400 - (y - 1) / 400 == if y % 400 == 0 {
            1int
        } else {
            0
        });
    }
}

/// The days of a year that begins in March, before its month `mp` counted from
/// March.
spec fn march_start(mp: int) -> int {
    (153 * mp + 2) / 5
}

/// What the parts of a year that begins in March say of the calendar: the first
/// of March of year `y` is 59 or 60 days into it, and the months from March on
/// begin where `march_start` says.
proof fn lemma_months(y: int)
    ensures
        days_before_month(y, 3) == if is_leap(y) {
            60int
        } else {
            59
        },
        forall|m: int|
            3 <= m <= 12 ==> #[trigger] days_before_month(y, m) == days_before_month(y, 3)
                + march_start(m - 3),
        days_before_month(y, 1) == 0,
        days_before_month(y, 2) == 31,
        march_start(10) == 306,
        march_start(11) == 337,
        days_before_year(y + 1) - days_before_year(y) == days_before_month(y, 3) + 306,
{
    law_year_length(y);
    reveal_with_fuel(days_before_month, 13);
}

/// A day given by its number in a year that begins in the March of year `y`.
proof fn lemma_march_day(y: int, doy: int, mp: int)
    requires
        0 <= mp <= 11,
        march_start(mp) <= doy,
        mp < 11 ==> doy < march_start(mp + 1),
        mp == 11 ==> doy < 337 + days_in_month(y + 1, 2),
    ensures
        ({
            let m = if mp < 10 {
                mp + 3
            } else {
                mp - 9
            };
            let d = doy - march_start(mp) + 1;
            let year = if m <= 2 {
                y + 1
            } else {
                y
            };
            &&& valid_date(year, m, d)
            &&& day_number(year, m, d) == day_number(y, 3, 1) + doy
        }),
{
    lemma_months(y);
    lemma_months(y + 1);
    let m = if mp < 10 {
        mp + 3
    } else {
        mp - 9
    };
    let d = doy - march_start(mp) + 1;
    if mp < 10 {
        assert(days_before_month(y, m) == days_before_month(y, 3) + march_start(mp));
    }
}

proof fn lemma_quotients(era: int, c: int, q: int, k: int)
    requires
        0 <= c <= 3,
        0 <= q <= 24,
        0 <= k <= 3,
    ensures
        ({
            let y = 400 * era + 100 * c + 4 * q + k;
            &&& y / 4 == 100 * era + 25 * c + q
            &&& y % 4 == k
            &&& y / 100 == 4 * era + c
            &&& y % 100 == 4 * q + k
            &&& y / 400 == era
            &&& y % 400 == 100 * c + 4 * q + k
        }),
{
}

/// Days from the first of March of year 0, cut into eras of 400 years,
/// centuries, spans of four years, years and days.
proof fn lemma_cut(era: int, c: int, q: int, k: int)
    requires
        0 <= c <= 3,
        0 <= q <= 24,
        0 <= k <= 3,
    ensures
        ({
            let y = 400 * era + 100 * c + 4 * q + k;
            &&& day_number(y, 3, 1) == 146097 * era + 36524 * c + 1461 * q + 365 * k - 719468
            &&& is_leap(y + 1) <==> k == 3 && (q != 24 || c == 3)
        }),
{
    let y = 400 * era + 100 * c + 4 * q + k;
    lemma_months(y);
    law_year_length(y);
    lemma_quotients(era, c, q, k);
    // The first of March is 306 days before the next year begins.
    assert(days_before_year(y + 1) == 365 * y + y / 4 - y / 100 + y / 400);
    assert(days_before_year(1970) == 719162);
    assert(day_number(y, 3, 1) == days_before_year(y + 1) - 306 - 719162);
    lemma_next_leap(era, c, q, k);
}

proof fn lemma_next_leap(era: int, c: int, q: int, k: int)
    requires
        0 <= c <= 3,
        0 <= q <= 24,
        0 <= k <= 3,
    ensures
        is_leap(400 * era + 100 * c + 4 * q + k + 1) <==> k == 3 && (q != 24 || c == 3),
{
    let y = 400 * era + 100 * c + 4 * q + k;
    if k < 3 {
        lemma_quotients(era, c, q, k + 1);
    } else if q < 24 {
        lemma_quotients(era, c, q + 1, 0);
    } else if c < 3 {
        lemma_quotients(era, c + 1, 0, 0);
    } else {
        lemma_quotients(era + 1, 0, 0, 0);
    }
}

/// The parts of a day in an era of 400 years: century, span of four years, year
/// and day, where the last part of each is cut short or carries a leap day.
fn cut_era(doe: i64) -> (r: (i64, i64, i64, i64))
    requires
        0 <= doe < 146097,
    ensures
        0 <= r.0 <= 3,
        0 <= r.1 <= 24,
        0 <= r.2 <= 3,
        doe == 36524 * r.0 + 1461 * r.1 + 365 * r.2 + r.3,
        0 <= r.3 <= 365,
        r.3 == 365 ==> r.2 == 3 && (r.1 != 24 || r.0 == 3),
{
    let c: i64 = if doe / 36524 < 3 {
        doe / 36524
    } else {
        3
    };
    let doc: i64 = doe - 36524 * c;
    assert(0 <= doc <= 36524 && (doc == 36524 ==> c == 3));
    let q: i64 = doc / 1461;
    let doq: i64 = doc - 1461 * q;
    assert(0 <= q <= 24);
    assert(0 <= doq <= 1460 && (doq == 1460 && q == 24 ==> doc == 36524));
    let k: i64 = if doq / 365 < 3 {
        doq / 365
    } else {
        3
    };
    let doy: i64 = doq - 365 * k;
    (c, q, k, doy)
}

/// The month and day of a day in a year that begins in March.
fn cut_year(doy: i64) -> (r: (i64, i64))
    requires
        0 <= doy <= 365,
    ensures
        0 <= r.0 <= 11,
        r.1 == doy - march_start(r.0 as int) + 1,
        march_start(r.0 as int) <= doy,
        r.0 < 11 ==> doy < march_start(r.0 + 1),
{
    let mp: i64 = (5 * doy + 2) / 153;
    let d: i64 = doy - (153 * mp + 2) / 5 + 1;
    (mp, d)
}

/// The day that is `days` days after the first day of 1970, as year, month and
/// day. The number of days is taken as a signed number, and a year below zero
/// is wrapped.
pub fn days_to_ymd(days: u64) -> (r: (u64, u64, u64))
    requires
        as_signed(days) + EPOCH_SHIFT <= i64::MAX,
    ensures
        is_date(date_of(as_signed(days)), as_signed(days)),
        r.0 == date_of(as_signed(days)).0 % 0x1_0000_0000_0000_0000,
        r.1 == date_of(as_signed(days)).1,
        r.2 == date_of(as_signed(days)).2,
{
    assert(days as i64 == as_signed(days)) by {
        assert(days <= 0x7fff_ffff_ffff_ffff ==> days as i64 == days) by (bit_vector);
        assert(days > 0x7fff_ffff_ffff_ffff ==> days as i64 == days - 0x1_0000_0000_0000_0000)
            by (bit_vector);
    }
    let z: i64 = #[verifier::truncate]
    (days as i64) + EPOCH_SHIFT;
    let (era, doe): (i64, i64) = divide(z);
    let (c, q, k, doy): (i64, i64, i64, i64) = cut_era(doe);
    let (mp, d): (i64, i64) = cut_year(doy);
    let y: i64 = 400 * era + 100 * c + 4 * q + k;
    let m: i64 = if mp < 10 {
        mp + 3
    } else {
        mp - 9
    };
    let year: i64 = if m <= 2 {
        y + 1
    } else {
        y
    };
    proof {
        lemma_cut(era as int, c as int, q as int, k as int);
        lemma_march_day(y as int, doy as int, mp as int);
        let t = (year as int, m as int, d as int);
        assert(is_date(t, as_signed(days)));
        let u = date_of(as_signed(days));
        law_day_number_unique(t.0, t.1, t.2, u.0, u.1, u.2);
        lemma_wrap(year);
    }
    (
        #[verifier::truncate]
        (year as u64),
        m as u64,
        d as u64,
    )
}

proof fn lemma_wrap(y: i64)
    ensures
        y as u64 == y as int % 0x1_0000_0000_0000_0000,
{
    assert(y >= 0 ==> y as u64 == y) by (bit_vector);
    assert(y < 0 ==> y as u64 == y + 0x1_0000_0000_0000_0000) by (bit_vector);
}

/// Days cut into eras of 400 years, and the days left over.
fn divide(z: i64) -> (r: (i64, i64))
    ensures
        z == 146097 * r.0 + r.1,
        0 <= r.1 < 146097,
        -64000000000000 <= r.0 <= 64000000000000,
{
    let q: i64 = z / 146097;
    let rest: i64 = z % 146097;
    if rest < 0 {
        (q - 1, rest + 146097)
    } else {
        (q, rest)
    }
}

/// The day after a day has the next number, so that numbers are never shared.
pub proof fn law_day_number_unique(y1: int, m1: int, d1: int, y2: int, m2: int, d2: int)
    requires
        valid_date(y1, m1, d1),
        valid_date(y2, m2, d2),
        day_number(y1, m1, d1) == day_number(y2, m2, d2),
    ensures
        y1 == y2 && m1 == m2 && d1 == d2,
{
    lemma_day_in_year(y1, m1, d1);
    lemma_day_in_year(y2, m2, d2);
    if y1 < y2 {
        lemma_years_grow(y1 + 1, y2);
    } else if y2 < y1 {
        lemma_years_grow(y2 + 1, y1);
    }
    if m1 < m2 {
        lemma_months_grow(y1, m1 + 1, m2);
    } else if m2 < m1 {
        lemma_months_grow(y1, m2 + 1, m1);
    }
}

proof fn lemma_day_in_year(y: int, m: int, d: int)
    requires
        valid_date(y, m, d),
    ensures
        days_before_year(y) <= day_number(y, m, d) + days_before_year(1970) < days_before_year(
            y + 1,
        ),
{
    law_year_length(y);
    lemma_months_grow(y, 1, m);
    lemma_months_grow(y, m + 1, 13);
    assert(days_before_month(y, 13) == days_before_month(y, 12) + days_in_month(y, 12));
    assert(days_before_month(y, m + 1) == days_before_month(y, m) + days_in_month(y, m));
}

/// The year of a day from 1970 on, and a bound on it.
pub proof fn lemma_year_range(t: (int, int, int), n: int)
    requires
        is_date(t, n),
        0 <= n,
    ensures
        1970 <= t.0 <= n + 719163,
{
    lemma_day_in_year(t.0, t.1, t.2);
    if t.0 < 1970 {
        lemma_years_grow(t.0 + 1, 1970);
    }
    assert(days_before_year(1970) == 719162);
    let p = t.0 - 1;
    assert(p / 4 >= p / 100);
    assert(365 * p <= days_before_year(t.0));
}

proof fn lemma_months_grow(y: int, a: int, b: int)
    requires
        1 <= a <= b,
    ensures
        days_before_month(y, a) <= days_before_month(y, b),
    decreases b - a,
{
    if a < b {
        lemma_months_grow(y, a, b - 1);
    }
}

proof fn lemma_years_grow(a: int, b: int)
    requires
        a <= b,
    ensures
        days_before_year(a) <= days_before_year(b),
    decreases b - a,
{
    if a < b {
        lemma_years_grow(a, b - 1);
        law_year_length(b - 1);
    }
}

/// A year is a leap year where four divides it, but for the centuries, of which it is
/// every fourth.
pub proof fn law_leap_years(n: int)
    ensures
        is_leap(400 * n),
        !is_leap(400 * n + 100) && !is_leap(400 * n + 200) && !is_leap(400 * n + 300),
        n % 25 != 0 ==> is_leap(4 * n),
        n % 4 != 0 ==> !is_leap(n),
{
}

/// How many days each month has.
pub proof fn law_month_lengths(y: int, m: int)
    requires
        1 <= m <= 12,
    ensures
        days_in_month(y, m) == 31 <==> m == 1 || m == 3 || m == 5 || m == 7 || m == 8 || m == 10
            || m == 12,
        days_in_month(y, m) == 30 <==> m == 4 || m == 6 || m == 9 || m == 11,
        days_in_month(y, m) == 29 <==> m == 2 && is_leap(y),
        days_in_month(y, m) == 28 <==> m == 2 && !is_leap(y),
{
}

/// Days are counted on from the first of January of 1970: the next day of a month, the
/// first of the next month behind the last of a month, and the first of the next year
/// behind the last of December each have the next number.
pub proof fn law_day_numbers(y: int, m: int, d: int)
    requires
        1 <= m,
    ensures
        day_number(1970, 1, 1) == 0,
        day_number(y, m, d + 1) == day_number(y, m, d) + 1,
        m < 12 ==> day_number(y, m + 1, 1) == day_number(y, m, days_in_month(y, m)) + 1,
        day_number(y + 1, 1, 1) == day_number(y, 12, 31) + 1,
{
    law_year_length(y);
    assert(days_before_month(y, 13) == days_before_month(y, 12) + days_in_month(y, 12));
    assert(days_before_month(y, m + 1) == days_before_month(y, m) + days_in_month(y, m));
}

/// The day with the number of a day is that day.
pub proof fn law_date_of(y: int, m: int, d: int)
    requires
        valid_date(y, m, d),
    ensures
        date_of(day_number(y, m, d)) == (y, m, d),
{
    let n = day_number(y, m, d);
    assert(is_date((y, m, d), n));
    let t = date_of(n);
    assert(is_date(t, n));
    law_day_number_unique(t.0, t.1, t.2, y, m, d);
}

/// A number of 64 bits stands for itself below the half of their range, and from there
/// on for a negative number.
pub proof fn law_signed(n: u64)
    ensures
        n < 9223372036854775808 ==> as_signed(n) == n,
        n >= 9223372036854775808 ==> as_signed(n) == n - 18446744073709551616,
{
}

} // verus!
