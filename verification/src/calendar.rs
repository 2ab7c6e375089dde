use vstd::prelude::*;
use vstd::arithmetic::div_mod::lemma_fundamental_div_mod_converse;

verus! {

/// Leap years of the proleptic Gregorian calendar.
pub open spec fn is_leap_year(y: int) -> bool {
    y % 4 == 0 && (y % 100 != 0 || y % 400 == 0)
}

/// The number of days of month `m` (1 to 12) of year `y`.
pub open spec fn days_in_month(y: int, m: int) -> int {
    if m == 2 {
        if is_leap_year(y) {
            29
        } else {
            28
        }
    } else if m == 4 || m == 6 || m == 9 || m == 11 {
        30
    } else {
        31
    }
}

/// `y-m-d` names a day of the proleptic Gregorian calendar.
pub open spec fn is_valid_date(y: int, m: int, d: int) -> bool {
    1 <= m <= 12 && 1 <= d <= days_in_month(y, m)
}

/// The number of leap years among the years `1..=n`, for `n >= 0`.
pub open spec fn leap_years_through(n: int) -> int {
    n / 4 - n / 100 + n / 400
}

/// Days from 1 January 1970 to 1 January of year `y`.
pub open spec fn days_before_year(y: int) -> int {
    365 * (y - 1970) + leap_years_through(y - 1) - leap_years_through(1969)
}

/// Days from 1 January to the first day of month `m` in year `y`.
pub open spec fn days_before_month(y: int, m: int) -> int
    decreases m,
{
    if m <= 1 {
        0
    } else {
        days_before_month(y, m - 1) + days_in_month(y, m - 1)
    }
}

/// Days from 1 January 1970 to the given date.
pub open spec fn epoch_day(y: int, m: int, d: int) -> int {
    days_before_year(y) + days_before_month(y, m) + d - 1
}

pub(crate) proof fn lemma_div(x: int, d: int, q: int)
    requires
        d > 0,
        q * d <= x < q * d + d,
    ensures
        x / d == q,
        x % d == x - q * d,
{
    lemma_fundamental_div_mod_converse(x, d, q, x - q * d);
}

/// Length of the year of an era that starts on 1 March of year `y` of the
/// era (it holds the end of February of year `y + 1`).
spec fn march_year_len(y: int) -> int {
    if is_leap_year(y + 1) {
        366
    } else {
        365
    }
}

/// Day `doe` of a 400-year era that starts on 1 March falls in year `yoe` of
/// the era, on day `doy` of that year.
proof fn lemma_year_of_era(doe: int)
    requires
        0 <= doe < 146097,
    ensures
        ({
            let yoe = (doe - doe / 1460 + doe / 36524 - doe / 146096) / 365;
            let doy = doe - (365 * yoe + yoe / 4 - yoe / 100);
            &&& 0 <= yoe < 400
            &&& 0 <= doy < march_year_len(yoe)
        }),
{
    if doe == 146096 {
        lemma_div(doe, 1460, 100);
        lemma_div(doe, 36524, 4);
        lemma_div(doe, 146096, 1);
        lemma_div(145999, 365, 399);
        lemma_div(399, 4, 99);
        lemma_div(399, 100, 3);
        lemma_div(400, 4, 100);
        lemma_div(400, 100, 4);
        lemma_div(400, 400, 1);
    } else {
        let c = doe / 36524;
        lemma_div(doe, 36524, c);
        assert(0 <= c <= 3) by {
            if c >= 4 {
                assert(c * 36524 >= 146096);
            }
        }
        let b = doe - 36524 * c;
        let q = b / 1461;
        lemma_div(b, 1461, q);
        assert(0 <= q <= 24) by {
            if q >= 25 {
                assert(q * 1461 >= 36525);
            }
        }
        let t = b - 1461 * q;
        let s = if t >= 1095 {
            3
        } else {
            t / 365
        };
        if t < 1095 {
            lemma_div(t, 365, t / 365);
            assert(0 <= t / 365 <= 2) by {
                if t / 365 >= 3 {
                    assert((t / 365) * 365 >= 1095);
                }
            }
        }
        let u = t - 365 * s;
        assert(0 <= u <= 365);
        assert(q == 24 ==> t <= 1459);
        let y = 100 * c + 4 * q + s;
        assert(doe == 36524 * c + 1461 * q + 365 * s + u);
        let r = 24 * c + q + 365 * s + u;
        let e1: int = if r >= 1460 {
            1
        } else {
            0
        };
        lemma_div(doe, 1460, 25 * c + q + e1);
        lemma_div(doe, 36524, c);
        lemma_div(doe, 146096, 0);
        lemma_div(y, 4, 25 * c + q);
        lemma_div(y, 100, c);
        assert(u == 365 ==> e1 == 1);
        assert(u == 0 ==> e1 == 0);
        let f = doe - doe / 1460 + doe / 36524 - doe / 146096;
        assert(f == 365 * y + u - e1);
        lemma_div(f, 365, y);
        assert(doe - (365 * y + y / 4 - y / 100) == u);
        if u == 365 {
            assert(t == 1460);
            assert(s == 3);
            assert(q <= 23);
            let yy = y + 1;
            assert(yy == 100 * c + 4 * (q + 1));
            lemma_div(yy, 4, 25 * c + q + 1);
            lemma_div(yy, 100, c);
        }
    }
}

/// Days from 1 March to the first day of the `mp`-th month counted from
/// March (0 for March, 10 for January, 11 for February).
spec fn march_month_start(mp: int) -> int {
    if mp == 0 {
        0
    } else if mp == 1 {
        31
    } else if mp == 2 {
        61
    } else if mp == 3 {
        92
    } else if mp == 4 {
        122
    } else if mp == 5 {
        153
    } else if mp == 6 {
        184
    } else if mp == 7 {
        214
    } else if mp == 8 {
        245
    } else if mp == 9 {
        275
    } else if mp == 10 {
        306
    } else {
        337
    }
}

proof fn lemma_month_of_year(doy: int)
    requires
        0 <= doy < 366,
    ensures
        ({
            let mp = (5 * doy + 2) / 153;
            &&& 0 <= mp <= 11
            &&& (153 * mp + 2) / 5 == march_month_start(mp)
            &&& march_month_start(mp) <= doy
            &&& mp < 11 ==> doy < march_month_start(mp + 1)
        }),
{
    let mp = (5 * doy + 2) / 153;
    lemma_div(5 * doy + 2, 153, mp);
    assert(0 <= mp <= 11) by {
        if mp >= 12 {
            assert(mp * 153 >= 1836);
        }
    }
    if mp == 0 {
        lemma_div(2, 5, 0);
    } else if mp == 1 {
        lemma_div(155, 5, 31);
    } else if mp == 2 {
        lemma_div(308, 5, 61);
    } else if mp == 3 {
        lemma_div(461, 5, 92);
    } else if mp == 4 {
        lemma_div(614, 5, 122);
    } else if mp == 5 {
        lemma_div(767, 5, 153);
    } else if mp == 6 {
        lemma_div(920, 5, 184);
    } else if mp == 7 {
        lemma_div(1073, 5, 214);
    } else if mp == 8 {
        lemma_div(1226, 5, 245);
    } else if mp == 9 {
        lemma_div(1379, 5, 275);
    } else if mp == 10 {
        lemma_div(1532, 5, 306);
    } else {
        lemma_div(1685, 5, 337);
    }
}

/// The leap years through `y` are those through `y - 1`, plus `y` if it is one.
proof fn lemma_leap_years_step(y: int)
    ensures
        leap_years_through(y) == leap_years_through(y - 1) + if is_leap_year(y) {
            1int
        } else {
            0int
        },
{
    lemma_div(y, 4, y / 4);
    lemma_div(y, 100, y / 100);
    lemma_div(y, 400, y / 400);
    vstd::arithmetic::div_mod::lemma_fundamental_div_mod(y, 4);
    vstd::arithmetic::div_mod::lemma_fundamental_div_mod(y, 100);
    vstd::arithmetic::div_mod::lemma_fundamental_div_mod(y, 400);
    if y % 4 == 0 {
        lemma_div(y - 1, 4, y / 4 - 1);
    } else {
        lemma_div(y - 1, 4, y / 4);
    }
    if y % 100 == 0 {
        lemma_div(y - 1, 100, y / 100 - 1);
    } else {
        lemma_div(y - 1, 100, y / 100);
    }
    if y % 400 == 0 {
        lemma_div(y - 1, 400, y / 400 - 1);
    } else {
        lemma_div(y - 1, 400, y / 400);
    }
    if y % 400 == 0 {
        assert(y % 100 == 0) by {
            lemma_div(y, 100, 4 * (y / 400));
        }
        assert(y % 4 == 0) by {
            lemma_div(y, 4, 100 * (y / 400));
        }
    }
    if y % 100 == 0 {
        assert(y % 4 == 0) by {
            lemma_div(y, 4, 25 * (y / 100));
        }
    }
}

proof fn lemma_days_before_month(y: int, m: int)
    requires
        1 <= m <= 12,
    ensures
        days_before_month(y, m) == (if m == 1 {
            0int
        } else if m == 2 {
            31int
        } else {
            59 + (if is_leap_year(y) {
                1int
            } else {
                0int
            }) + march_month_start(m - 3)
        }),
{
    reveal_with_fuel(days_before_month, 13);
}

/// The year `era * 400 + yoe` of the proleptic calendar starts its March on
/// the day that the era arithmetic gives.
proof fn lemma_march_start(era: int, yoe: int)
    requires
        0 <= yoe < 400,
    ensures
        ({
            let y0 = era * 400 + yoe;
            365 * y0 + leap_years_through(y0) == era * 146097 + (365 * yoe + yoe / 4 - yoe / 100)
        }),
{
    let y0 = era * 400 + yoe;
    lemma_div(yoe, 4, yoe / 4);
    lemma_div(yoe, 100, yoe / 100);
    vstd::arithmetic::div_mod::lemma_fundamental_div_mod(yoe, 4);
    vstd::arithmetic::div_mod::lemma_fundamental_div_mod(yoe, 100);
    lemma_div(y0, 4, era * 100 + yoe / 4);
    lemma_div(y0, 100, era * 4 + yoe / 100);
    lemma_div(y0, 400, era);
}

/// `(400 * era + k)` is a leap year exactly when `k` is.
proof fn lemma_leap_shift(era: int, k: int)
    requires
        0 <= k <= 400,
    ensures
        is_leap_year(era * 400 + k) == is_leap_year(k),
{
    let y = era * 400 + k;
    lemma_div(k, 4, k / 4);
    lemma_div(k, 100, k / 100);
    lemma_div(k, 400, k / 400);
    vstd::arithmetic::div_mod::lemma_fundamental_div_mod(k, 4);
    vstd::arithmetic::div_mod::lemma_fundamental_div_mod(k, 100);
    vstd::arithmetic::div_mod::lemma_fundamental_div_mod(k, 400);
    lemma_div(y, 4, era * 100 + k / 4);
    lemma_div(y, 100, era * 4 + k / 100);
    lemma_div(y, 400, era + k / 400);
}

proof fn lemma_leap_years_1969()
    ensures
        leap_years_through(1969) == 477,
{
    lemma_div(1969, 4, 492);
    lemma_div(1969, 100, 19);
    lemma_div(1969, 400, 4);
}

proof fn lemma_next_year(y: int)
    ensures
        days_before_year(y + 1) == days_before_year(y) + if is_leap_year(y) {
            366int
        } else {
            365int
        },
{
    lemma_leap_years_step(y);
}

proof fn lemma_years_increase(y1: int, y2: int)
    requires
        y1 < y2,
    ensures
        days_before_year(y1) + 365 <= days_before_year(y2),
    decreases y2 - y1,
{
    lemma_next_year(y1);
    if y1 + 1 < y2 {
        lemma_years_increase(y1 + 1, y2);
    }
}

/// A valid date falls inside its year.
proof fn lemma_date_in_year(y: int, m: int, d: int)
    requires
        is_valid_date(y, m, d),
    ensures
        days_before_year(y) <= epoch_day(y, m, d) < days_before_year(y + 1),
{
    lemma_next_year(y);
    lemma_days_before_month(y, m);
}

/// Each count of days since the epoch is one date: two valid dates with the
/// same count are the same date.
pub proof fn lemma_epoch_day_injective(y1: int, m1: int, d1: int, y2: int, m2: int, d2: int)
    requires
        is_valid_date(y1, m1, d1),
        is_valid_date(y2, m2, d2),
        epoch_day(y1, m1, d1) == epoch_day(y2, m2, d2),
    ensures
        y1 == y2,
        m1 == m2,
        d1 == d2,
{
    lemma_date_in_year(y1, m1, d1);
    lemma_date_in_year(y2, m2, d2);
    assert(y1 == y2) by {
        if y1 < y2 {
            if y1 + 1 < y2 {
                lemma_years_increase(y1 + 1, y2);
            }
        }
        if y2 < y1 {
            if y2 + 1 < y1 {
                lemma_years_increase(y2 + 1, y1);
            }
        }
    }
    lemma_days_before_month(y1, m1);
    lemma_days_before_month(y2, m2);
}

/// A month ends no later than any later month of the year starts.
proof fn lemma_months_increase(y: int, m1: int, m2: int)
    requires
        1 <= m1 < m2,
    ensures
        days_before_month(y, m1) + days_in_month(y, m1) <= days_before_month(y, m2),
    decreases m2 - m1,
{
    if m2 - 1 > m1 {
        lemma_months_increase(y, m1, m2 - 1);
    }
}

/// Later dates have larger day counts: a valid date that comes before
/// another in (year, month, day) order has the smaller count.
pub proof fn lemma_epoch_day_increasing(y1: int, m1: int, d1: int, y2: int, m2: int, d2: int)
    requires
        is_valid_date(y1, m1, d1),
        is_valid_date(y2, m2, d2),
        y1 < y2 || (y1 == y2 && m1 < m2) || (y1 == y2 && m1 == m2 && d1 < d2),
    ensures
        epoch_day(y1, m1, d1) < epoch_day(y2, m2, d2),
{
    if y1 < y2 {
        lemma_date_in_year(y1, m1, d1);
        lemma_date_in_year(y2, m2, d2);
        if y1 + 1 < y2 {
            lemma_years_increase(y1 + 1, y2);
        }
    } else if m1 < m2 {
        lemma_months_increase(y1, m1, m2);
    }
}

/// A day from 1 January 1970 up to 31 December 9999 has a four-digit year.
pub proof fn lemma_year_in_range(y: int, m: int, d: int)
    requires
        is_valid_date(y, m, d),
        0 <= epoch_day(y, m, d) < 2932897,
    ensures
        1970 <= y <= 9999,
{
    lemma_date_in_year(y, m, d);
    lemma_leap_years_1969();
    lemma_div(9999, 4, 2499);
    lemma_div(9999, 100, 99);
    lemma_div(9999, 400, 24);
    assert(days_before_year(10000) == 2932897);
    assert(days_before_year(1970) == 0);
    if y < 1969 {
        lemma_years_increase(y + 1, 1970);
    }
    if y > 10000 {
        lemma_years_increase(10000, y);
    }
}

/// Turns a count of days since 1 January 1970 (negative before it) into a
/// year, month and day of the proleptic Gregorian calendar.
pub fn civil_from_days(days: i64) -> (r: (i64, i64, i64))
    requires
        days <= i64::MAX - 719468,
    ensures
        is_valid_date(r.0 as int, r.1 as int, r.2 as int),
        epoch_day(r.0 as int, r.1 as int, r.2 as int) == days,
        days >= 0 ==> r.0 >= 1970,
{
    let z = days + 719468;
    let era = if z >= 0 {
        z
    } else {
        z - 146096
    } / 146097;
    assert(era * 146097 <= z < era * 146097 + 146097) by {
        if z >= 0 {
            lemma_div(z as int, 146097, z as int / 146097);
        } else {
            let n = 146096 - z as int;
            lemma_div(n, 146097, n / 146097);
            assert(era == -(n / 146097));
        }
    }
    proof {
        lemma_div(z as int, 146097, era as int);
    }
    let doe = (z - era * 146097) as u64;
    proof {
        lemma_year_of_era(doe as int);
    }
    let yoe = (doe - doe / 1460 + doe / 36524 - doe / 146096) / 365;
    let y = yoe as i64 + era * 400;
    let doy = doe - (365 * yoe + yoe / 4 - yoe / 100);
    proof {
        lemma_month_of_year(doy as int);
    }
    let mp = (5 * doy + 2) / 153;
    let d = doy - (153 * mp + 2) / 5 + 1;
    let m = if mp < 10 {
        mp + 3
    } else {
        mp - 9
    };
    let y = if m <= 2 {
        y + 1
    } else {
        y
    };
    proof {
        let y0 = era as int * 400 + yoe as int;
        lemma_march_start(era as int, yoe as int);
        lemma_leap_years_1969();
        lemma_leap_shift(era as int, yoe as int + 1);
        lemma_days_before_month(y as int, m as int);
        if mp < 10 {
            lemma_leap_shift(era as int, yoe as int);
            lemma_leap_years_step(y0);
            assert(y as int == y0);
        } else {
            lemma_leap_years_step(y0 + 1);
            assert(y as int == y0 + 1);
        }
        if days >= 0 && y < 1970 {
            lemma_date_in_year(y as int, m as int, d as int);
            if y + 1 < 1970 {
                lemma_years_increase(y as int + 1, 1970);
            }
            assert(days_before_year(1970) == 0);
        }
    }
    (y, m as i64, d as i64)
}

} // verus!
