//! Civil date-time conversion: a Unix timestamp plus a signed UTC offset
//! becomes a proleptic-Gregorian calendar tuple, rendered as a fixed-width
//! sortable string that prefixes every task folder name.

use crate::text::{
    dec_of, lemma_dec_pad_orders, lemma_lex_le_common_prefix, lemma_lex_lt_prefix, lex_le,
    pad_zeros, pow10, u64_to_dec_pad,
};
use vstd::prelude::*;
use vstd::arithmetic::div_mod::{
    lemma_fundamental_div_mod_converse,
    lemma_div_is_ordered, lemma_fundamental_div_mod, lemma_hoist_over_denominator,
};

verus! {

/// Largest supported shifted second count (roughly two billion years), so
/// that the computed year always fits in the `i32` field.
pub const MAX_CIVIL_SECS: u64 = 63_072_000_000_000_000;

/// Seconds from 0000-03-01 to 1970-01-01.
pub const EPOCH_SECOND_SHIFT: u64 = 62_162_035_200;

pub struct DateTime {
    pub year: i32,
    pub month: u8,
    pub day: u8,
    pub hour: u8,
    pub minute: u8,
    pub second: u8,
}

/// The standard days-since-epoch to civil date decomposition (era,
/// year-of-era, day-of-year with a March-1 epoch shift), applied to a count
/// of seconds relative to the Unix epoch. All divisions are Euclidean, as
/// in the executable code. Returns (year, month, day, hour, minute, second).
pub open spec fn civil_of(ts: int) -> (int, int, int, int, int, int) {
    let days = ts / 86400 + 719468;
    let secs = ts % 86400;
    let era = days / 146097;
    let doe = days - era * 146097;
    let yoe = (doe - doe / 1460 + doe / 36524 - doe / 146096) / 365;
    let y = yoe + era * 400;
    let doy = doe - (365 * yoe + yoe / 4 - yoe / 100);
    let mp = (5 * doy + 2) / 153;
    let d = doy - (153 * mp + 2) / 5 + 1;
    let m = if mp < 10 {
        mp + 3
    } else {
        mp - 9
    };
    let year = if m <= 2 {
        y + 1
    } else {
        y
    };
    (year, m, d, secs / 3600, (secs % 3600) / 60, secs % 60)
}

/// Within one 400-year era, the year-of-era stays below 400 and the
/// day-of-year count (March-first based) stays within a single year.
proof fn lemma_era_decomposition_bounds(doe: int)
    requires
        0 <= doe < 146097,
    ensures
        ({
            let yoe = (doe - doe / 1460 + doe / 36524 - doe / 146096) / 365;
            let doy = doe - (365 * yoe + yoe / 4 - yoe / 100);
            0 <= yoe <= 399 && 0 <= doy <= 365
        }),
{
}

/// Splitting a day-of-year into month and day-of-month lands in the
/// calendar ranges.
proof fn lemma_month_day_bounds(doy: int)
    requires
        0 <= doy <= 365,
    ensures
        ({
            let mp = (5 * doy + 2) / 153;
            let d = doy - (153 * mp + 2) / 5 + 1;
            0 <= mp <= 11 && (153 * mp + 2) / 5 <= doy && 1 <= d <= 31
        }),
{
}

impl DateTime {
    /// Converts a Unix timestamp adjusted by a signed offset into a civil
    /// calendar tuple, using the closed-form proleptic-Gregorian algorithm
    /// with floored division, so that instants before a day boundary
    /// resolve to the correct prior day.
    pub fn new(timestamp: u64, offset: i32) -> (r: DateTime)
        requires
            timestamp + offset <= MAX_CIVIL_SECS,
        ensures
            ({
                let (y, m, d, h, mi, s) = civil_of(timestamp + offset);
                &&& r.year == y
                &&& r.month == m
                &&& r.day == d
                &&& r.hour == h
                &&& r.minute == mi
                &&& r.second == s
            }),
            1 <= r.month <= 12,
            1 <= r.day <= 31,
            r.hour <= 23,
            r.minute <= 59,
            r.second <= 59,
    {
        let ghost ts: int = timestamp + offset;
        // Work on seconds since 0000-03-01, which are non-negative for every
        // u64 timestamp and i32 offset.
        let shifted: u64 = if offset >= 0 {
            timestamp + EPOCH_SECOND_SHIFT + (offset as u64)
        } else {
            timestamp + EPOCH_SECOND_SHIFT - ((-(offset as i64)) as u64)
        };
        proof {
            assert(shifted == ts + EPOCH_SECOND_SHIFT);
            lemma_hoist_over_denominator(ts, 719468, 86400);
        }
        let days: u64 = shifted / 86400;
        let secs: u64 = shifted % 86400;
        proof {
            assert(days == ts / 86400 + 719468);
            lemma_fundamental_div_mod(ts, 86400);
            lemma_fundamental_div_mod(shifted as int, 86400);
            assert(secs == ts % 86400);
            lemma_div_is_ordered(
                shifted as int,
                MAX_CIVIL_SECS + EPOCH_SECOND_SHIFT,
                86400,
            );
            assert(days <= 730_000_719_468);
            lemma_div_is_ordered(days as int, 730_000_719_468, 146097);
            assert(4_996_685 * 146097 + 31023 == 730_000_719_468int);
            lemma_fundamental_div_mod_converse(730_000_719_468, 146097, 4_996_685, 31023);
            assert(days / 146097 <= 4_996_685);
        }
        let era: u64 = days / 146097;
        let doe: u64 = days % 146097;
        proof {
            lemma_fundamental_div_mod(days as int, 146097);
            lemma_era_decomposition_bounds(doe as int);
        }
        let adj: u64 = doe - doe / 1460 + doe / 36524 - doe / 146096;
        let yoe: u64 = adj / 365;
        let leap_days: u64 = 365 * yoe + yoe / 4 - yoe / 100;
        let doy: u64 = doe - leap_days;
        proof {
            lemma_month_day_bounds(doy as int);
        }
        let mp: u64 = (5 * doy + 2) / 153;
        let day: u64 = doy - (153 * mp + 2) / 5 + 1;
        let month: u64 = if mp < 10 {
            mp + 3
        } else {
            mp - 9
        };
        let y: u64 = yoe + era * 400;
        let year: u64 = if month <= 2 {
            y + 1
        } else {
            y
        };
        DateTime {
            year: year as i32,
            month: month as u8,
            day: day as u8,
            hour: (secs / 3600) as u8,
            minute: ((secs % 3600) / 60) as u8,
            second: (secs % 60) as u8,
        }
    }

    /// Renders the date as `YYYYMMDD-HHMMSS` with zero-padded fixed widths,
    /// the sortable prefix of every task folder name.
    pub fn format(&self) -> (r: String)
        ensures
            r@ == format_spec(*self),
    {
        let mut s: String;
        if self.year >= 0 {
            s = u64_to_dec_pad(self.year as u64, 4);
        } else {
            s = String::new();
            proof {
                reveal_strlit("-");
            }
            s.append("-");
            let mag = (-(self.year as i64)) as u64;
            let rest = u64_to_dec_pad(mag, 3);
            s.append(rest.as_str());
        }
        let month = u64_to_dec_pad(self.month as u64, 2);
        s.append(month.as_str());
        let day = u64_to_dec_pad(self.day as u64, 2);
        s.append(day.as_str());
        proof {
            reveal_strlit("-");
        }
        s.append("-");
        let hour = u64_to_dec_pad(self.hour as u64, 2);
        s.append(hour.as_str());
        let minute = u64_to_dec_pad(self.minute as u64, 2);
        s.append(minute.as_str());
        let second = u64_to_dec_pad(self.second as u64, 2);
        s.append(second.as_str());
        proof {
            assert(s@ =~= format_spec(*self));
        }
        s
    }
}

/// A signed year rendered to at least four characters, zeros between the
/// sign and the digits, matching Rust's `{:04}` formatting.
pub open spec fn fmt_year(y: int) -> Seq<char> {
    if y >= 0 {
        pad_zeros(dec_of(y), 4)
    } else {
        seq!['-'] + pad_zeros(dec_of(-y), 3)
    }
}

/// The `YYYYMMDD-HHMMSS` rendering of a date-time value.
pub open spec fn format_spec(dt: DateTime) -> Seq<char> {
    fmt_year(dt.year as int) + pad_zeros(dec_of(dt.month as int), 2) + pad_zeros(
        dec_of(dt.day as int),
        2,
    ) + seq!['-'] + pad_zeros(dec_of(dt.hour as int), 2) + pad_zeros(dec_of(dt.minute as int), 2)
        + pad_zeros(dec_of(dt.second as int), 2)
}

/// Field order on date-time values: year first, then month, day, hour,
/// minute and second.
pub open spec fn dt_le(a: DateTime, b: DateTime) -> bool {
    if a.year != b.year {
        a.year < b.year
    } else if a.month != b.month {
        a.month < b.month
    } else if a.day != b.day {
        a.day < b.day
    } else if a.hour != b.hour {
        a.hour < b.hour
    } else if a.minute != b.minute {
        a.minute < b.minute
    } else {
        a.second <= b.second
    }
}

/// Law: the civil conversion is monotone. Of two instants in the supported
/// range, the earlier one never yields a later calendar tuple, compared
/// field by field from the year down to the second.
#[verifier::rlimit(100)]
pub proof fn lemma_civil_monotone(ts1: int, ts2: int)
    requires
        -0x8000_0000 <= ts1 <= ts2 <= MAX_CIVIL_SECS,
    ensures
        ({
            let (y1, m1, d1, h1, mi1, s1) = civil_of(ts1);
            let (y2, m2, d2, h2, mi2, s2) = civil_of(ts2);
            ||| y1 < y2
            ||| (y1 == y2 && (m1 < m2 || (m1 == m2 && (d1 < d2 || (d1 == d2 && (h1 < h2 || (h1
                == h2 && (mi1 < mi2 || (mi1 == mi2 && s1 <= s2)))))))))
        }),
{
    let days1 = ts1 / 86400 + 719468;
    let days2 = ts2 / 86400 + 719468;
    lemma_div_is_ordered(ts1, ts2, 86400);
    lemma_div_is_ordered(-0x8000_0000, ts1, 86400);
    assert(days1 >= 0);
    let era1 = days1 / 146097;
    let era2 = days2 / 146097;
    lemma_div_is_ordered(days1, days2, 146097);
    let doe1 = days1 - era1 * 146097;
    let doe2 = days2 - era2 * 146097;
    lemma_fundamental_div_mod(days1, 146097);
    lemma_fundamental_div_mod(days2, 146097);
    lemma_era_decomposition_bounds(doe1);
    lemma_era_decomposition_bounds(doe2);
    let adj1 = doe1 - doe1 / 1460 + doe1 / 36524 - doe1 / 146096;
    let adj2 = doe2 - doe2 / 1460 + doe2 / 36524 - doe2 / 146096;
    let yoe1 = adj1 / 365;
    let yoe2 = adj2 / 365;
    let doy1 = doe1 - (365 * yoe1 + yoe1 / 4 - yoe1 / 100);
    let doy2 = doe2 - (365 * yoe2 + yoe2 / 4 - yoe2 / 100);
    lemma_month_day_bounds(doy1);
    lemma_month_day_bounds(doy2);
    if era1 == era2 && doe1 < doe2 {
        lemma_same_era_monotone(doe1, doe2);
    }
    if days1 == days2 {
        lemma_fundamental_div_mod(ts1, 86400);
        lemma_fundamental_div_mod(ts2, 86400);
    }
}

/// Within one era, a later day-of-era never yields an earlier pair of
/// year-of-era and day-of-year.
proof fn lemma_same_era_monotone(doe1: int, doe2: int)
    requires
        0 <= doe1 <= doe2 < 146097,
    ensures
        ({
            let yoe1 = (doe1 - doe1 / 1460 + doe1 / 36524 - doe1 / 146096) / 365;
            let yoe2 = (doe2 - doe2 / 1460 + doe2 / 36524 - doe2 / 146096) / 365;
            let doy1 = doe1 - (365 * yoe1 + yoe1 / 4 - yoe1 / 100);
            let doy2 = doe2 - (365 * yoe2 + yoe2 / 4 - yoe2 / 100);
            yoe1 < yoe2 || (yoe1 == yoe2 && doy1 <= doy2)
        }),
{
}

/// The last second of year 9999, the upper end of the four-digit range.
pub const LAST_FOUR_DIGIT_SEC: i64 = 253_402_300_799;

/// In the four-digit-year range every calendar field lands in its width:
/// the year in 0 to 9999 and the other fields in their clock ranges.
#[verifier::rlimit(100)]
pub proof fn lemma_civil_field_bounds(ts: int)
    requires
        -0x8000_0000 <= ts <= LAST_FOUR_DIGIT_SEC,
    ensures
        ({
            let (y, m, d, h, mi, s) = civil_of(ts);
            &&& 0 <= y <= 9999
            &&& 1 <= m <= 12
            &&& 1 <= d <= 31
            &&& 0 <= h <= 23
            &&& 0 <= mi <= 59
            &&& 0 <= s <= 59
        }),
{
    let days = ts / 86400 + 719468;
    lemma_div_is_ordered(-0x8000_0000, ts, 86400);
    lemma_div_is_ordered(ts, LAST_FOUR_DIGIT_SEC as int, 86400);
    assert(2_932_896 * 86400 + 86399 == 253_402_300_799int);
    lemma_fundamental_div_mod_converse(253_402_300_799, 86400, 2_932_896, 86399);
    assert(days >= 0);
    assert(days <= 3_652_364);
    let era = days / 146097;
    let doe = days - era * 146097;
    lemma_fundamental_div_mod(days, 146097);
    lemma_div_is_ordered(days, 3_652_364, 146097);
    assert(24 * 146097 + 146036 == 3_652_364int);
    lemma_fundamental_div_mod_converse(3_652_364, 146097, 24, 146036);
    assert(era <= 24);
    lemma_era_decomposition_bounds(doe);
    let adj = doe - doe / 1460 + doe / 36524 - doe / 146096;
    let yoe = adj / 365;
    let doy = doe - (365 * yoe + yoe / 4 - yoe / 100);
    lemma_month_day_bounds(doy);
    lemma_fundamental_div_mod(ts, 86400);
    lemma_fundamental_div_mod(adj, 365);
    // A year of 10000 would ask for a January or February day past the last
    // supported day-of-era.
    if era == 24 && yoe == 399 && (5 * doy + 2) / 153 >= 10 {
        lemma_fundamental_div_mod(5 * doy + 2, 153);
        assert(doy >= 306);
        assert(doe >= 146037);
        assert(days > 3_652_364);
    }
}

/// The time-of-day half of the rendering sorts as the clock fields sort.
#[verifier::rlimit(100)]
proof fn lemma_format_time_sorts(a: DateTime, b: DateTime)
    requires
        a.hour <= 23 && b.hour <= 23,
        a.minute <= 59 && b.minute <= 59,
        a.second <= 59 && b.second <= 59,
        a.hour < b.hour || (a.hour == b.hour && (a.minute < b.minute || (a.minute == b.minute
            && a.second <= b.second))),
    ensures
        ({
            let ha = pad_zeros(dec_of(a.hour as int), 2);
            let hb = pad_zeros(dec_of(b.hour as int), 2);
            let mia = pad_zeros(dec_of(a.minute as int), 2);
            let mib = pad_zeros(dec_of(b.minute as int), 2);
            let sa = pad_zeros(dec_of(a.second as int), 2);
            let sb = pad_zeros(dec_of(b.second as int), 2);
            lex_le(ha + (mia + sa), hb + (mib + sb))
        }),
{
    assert(pow10(0) == 1);
    assert(pow10(1) == 10);
    assert(pow10(2) == 100);
    let ha = pad_zeros(dec_of(a.hour as int), 2);
    let hb = pad_zeros(dec_of(b.hour as int), 2);
    let mia = pad_zeros(dec_of(a.minute as int), 2);
    let mib = pad_zeros(dec_of(b.minute as int), 2);
    let sa = pad_zeros(dec_of(a.second as int), 2);
    let sb = pad_zeros(dec_of(b.second as int), 2);
    if a.hour != b.hour {
        lemma_dec_pad_orders(a.hour as int, b.hour as int, 2);
        lemma_lex_lt_prefix(ha, hb, mia + sa, mib + sb);
    } else {
        assert(ha == hb);
        lemma_lex_le_common_prefix(ha, mia + sa, mib + sb);
        if a.minute != b.minute {
            lemma_dec_pad_orders(a.minute as int, b.minute as int, 2);
            lemma_lex_lt_prefix(mia, mib, sa, sb);
        } else {
            assert(mia == mib);
            lemma_lex_le_common_prefix(mia, sa, sb);
            lemma_dec_pad_orders(a.second as int, b.second as int, 2);
        }
    }
}

/// Law: for calendar values with four-digit years, the fixed-width
/// rendering sorts lexicographically exactly as the fields sort
/// chronologically, which keeps folder names in creation order.
#[verifier::rlimit(100)]
pub proof fn lemma_format_sorts(a: DateTime, b: DateTime)
    requires
        0 <= a.year < 10000,
        0 <= b.year < 10000,
        a.month <= 12 && b.month <= 12,
        a.day <= 31 && b.day <= 31,
        a.hour <= 23 && b.hour <= 23,
        a.minute <= 59 && b.minute <= 59,
        a.second <= 59 && b.second <= 59,
        dt_le(a, b),
    ensures
        lex_le(format_spec(a), format_spec(b)),
{
    assert(pow10(0) == 1);
    assert(pow10(1) == 10);
    assert(pow10(2) == 100);
    assert(pow10(3) == 1000);
    assert(pow10(4) == 10000);
    let ya = pad_zeros(dec_of(a.year as int), 4);
    let yb = pad_zeros(dec_of(b.year as int), 4);
    let ma = pad_zeros(dec_of(a.month as int), 2);
    let mb = pad_zeros(dec_of(b.month as int), 2);
    let da = pad_zeros(dec_of(a.day as int), 2);
    let db = pad_zeros(dec_of(b.day as int), 2);
    let ha = pad_zeros(dec_of(a.hour as int), 2);
    let hb = pad_zeros(dec_of(b.hour as int), 2);
    let mia = pad_zeros(dec_of(a.minute as int), 2);
    let mib = pad_zeros(dec_of(b.minute as int), 2);
    let sa = pad_zeros(dec_of(a.second as int), 2);
    let sb = pad_zeros(dec_of(b.second as int), 2);
    let dash = seq!['-'];
    assert(format_spec(a) =~= ya + (ma + (da + (dash + (ha + (mia + sa))))));
    assert(format_spec(b) =~= yb + (mb + (db + (dash + (hb + (mib + sb))))));
    if a.year != b.year {
        lemma_dec_pad_orders(a.year as int, b.year as int, 4);
        lemma_lex_lt_prefix(
            ya,
            yb,
            ma + (da + (dash + (ha + (mia + sa)))),
            mb + (db + (dash + (hb + (mib + sb)))),
        );
    } else {
        assert(ya == yb);
        lemma_lex_le_common_prefix(
            ya,
            ma + (da + (dash + (ha + (mia + sa)))),
            mb + (db + (dash + (hb + (mib + sb)))),
        );
        if a.month != b.month {
            lemma_dec_pad_orders(a.month as int, b.month as int, 2);
            lemma_lex_lt_prefix(ma, mb, da + (dash + (ha + (mia + sa))), db + (dash + (hb + (mib
                + sb))));
        } else {
            assert(ma == mb);
            lemma_lex_le_common_prefix(ma, da + (dash + (ha + (mia + sa))), db + (dash + (hb + (
            mib + sb))));
            if a.day != b.day {
                lemma_dec_pad_orders(a.day as int, b.day as int, 2);
                lemma_lex_lt_prefix(da, db, dash + (ha + (mia + sa)), dash + (hb + (mib + sb)));
            } else {
                assert(da == db);
                lemma_lex_le_common_prefix(da, dash + (ha + (mia + sa)), dash + (hb + (mib + sb)));
                lemma_lex_le_common_prefix(dash, ha + (mia + sa), hb + (mib + sb));
                lemma_format_time_sorts(a, b);
            }
        }
    }
}

} // verus!
