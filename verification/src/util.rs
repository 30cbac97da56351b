//! Small shared helpers: content hashes and the RFC 3339 clock format.

use vstd::prelude::*;
use vstd::utf8::encode_utf8;

use crate::text::{push_zero_padded, zero_padded};

verus! {

/// FNV-1a over bytes, 32 bits wide: each byte is folded in by exclusive or
/// and a multiplication by the FNV prime.
pub open spec fn fnv32(data: Seq<u8>) -> u32
    decreases data.len(),
{
    if data.len() == 0 {
        0x811c9dc5
    } else {
        (fnv32(data.drop_last()) ^ (data.last() as u32)).wrapping_mul(0x0100_0193)
    }
}

/// FNV-1a over bytes, 64 bits wide, continued from an earlier hash.
pub open spec fn fnv64_from(hash: u64, data: Seq<u8>) -> u64
    decreases data.len(),
{
    if data.len() == 0 {
        hash
    } else {
        (fnv64_from(hash, data.drop_last()) ^ (data.last() as u64)).wrapping_mul(0x0100_0000_01b3)
    }
}

/// FNV-1a over bytes, 64 bits wide.
pub open spec fn fnv64(data: Seq<u8>) -> u64 {
    fnv64_from(0xcbf2_9ce4_8422_2325, data)
}

/// Hashing in two pieces is hashing the whole.
pub proof fn fnv64_continues(hash: u64, a: Seq<u8>, b: Seq<u8>)
    ensures
        fnv64_from(fnv64_from(hash, a), b) == fnv64_from(hash, a + b),
    decreases b.len(),
{
    if b.len() == 0 {
        assert(a + b =~= a);
    } else {
        fnv64_continues(hash, a, b.drop_last());
        assert((a + b).drop_last() =~= a + b.drop_last());
    }
}

/// FNV-1a 32-bit hash, used for stable content-addressed row keys.
pub fn fnv1a32(data: &str) -> (r: u32)
    ensures
        r == fnv32(encode_utf8(data@)),
{
    let bytes: &[u8] = data.as_bytes();
    let mut hash: u32 = 0x811c9dc5;
    let mut i: usize = 0;
    while i < bytes.len()
        invariant
            i <= bytes.len(),
            hash == fnv32(bytes@.take(i as int)),
        decreases bytes.len() - i,
    {
        assert(bytes@.take(i + 1).drop_last() =~= bytes@.take(i as int));
        hash = (hash ^ (bytes[i] as u32)).wrapping_mul(0x0100_0193);
        i += 1;
    }
    assert(bytes@.take(bytes@.len() as int) =~= bytes@);
    hash
}

/// Continues a 64-bit FNV-1a hash over more bytes.
pub fn fnv1a64_from(start: u64, data: &[u8]) -> (r: u64)
    ensures
        r == fnv64_from(start, data@),
{
    let mut hash: u64 = start;
    let mut i: usize = 0;
    while i < data.len()
        invariant
            i <= data.len(),
            hash == fnv64_from(start, data@.take(i as int)),
        decreases data.len() - i,
    {
        assert(data@.take(i + 1).drop_last() =~= data@.take(i as int));
        hash = (hash ^ (data[i] as u64)).wrapping_mul(0x0100_0000_01b3);
        i += 1;
    }
    assert(data@.take(data@.len() as int) =~= data@);
    hash
}

/// FNV-1a 64-bit hash, used for change signatures in the watch controller.
pub fn fnv1a64(data: &[u8]) -> (r: u64)
    ensures
        r == fnv64(data@),
{
    fnv1a64_from(0xcbf2_9ce4_8422_2325, data)
}

// ------------------------------------------------------------ calendar dates

/// Whether the Gregorian year `y` has a 29 February.
pub open spec fn leap(y: int) -> bool {
    y % 4 == 0 && (y % 100 != 0 || y % 400 == 0)
}

/// Leap years from year 1 up to and with year `y`.
pub open spec fn leaps_through(y: int) -> int {
    y / 4 - y / 100 + y / 400
}

/// Days of month `m` of year `y`.
pub open spec fn days_in_month(y: int, m: int) -> int {
    if m == 2 {
        if leap(y) {
            29
        } else {
            28
        }
    } else if m == 4 || m == 6 || m == 9 || m == 11 {
        30
    } else {
        31
    }
}

/// Days of year `y` before its month `m`.
pub open spec fn days_before_month(y: int, m: int) -> int
    decreases m,
{
    if m <= 1 {
        0
    } else {
        days_before_month(y, m - 1) + days_in_month(y, m - 1)
    }
}

/// Days from 1 January 1970 to the given date.
pub open spec fn days_from_civil(y: int, m: int, d: int) -> int {
    365 * (y - 1970) + leaps_through(y - 1) - leaps_through(1969) + days_before_month(y, m) + d - 1
}

/// Whether the numbers name a date of the Gregorian calendar.
pub open spec fn valid_date(y: int, m: int, d: int) -> bool {
    1 <= m <= 12 && 1 <= d <= days_in_month(y, m)
}

proof fn lemma_month_starts(y: int)
    ensures
        days_before_month(y, 1) == 0,
        days_before_month(y, 2) == 31,
        ({
            let f: int = if leap(y) {
                60
            } else {
                59
            };
            &&& days_before_month(y, 3) == f
            &&& days_before_month(y, 4) == f + 31
            &&& days_before_month(y, 5) == f + 61
            &&& days_before_month(y, 6) == f + 92
            &&& days_before_month(y, 7) == f + 122
            &&& days_before_month(y, 8) == f + 153
            &&& days_before_month(y, 9) == f + 184
            &&& days_before_month(y, 10) == f + 214
            &&& days_before_month(y, 11) == f + 245
            &&& days_before_month(y, 12) == f + 275
        }),
{
    reveal_with_fuel(days_before_month, 13);
}

/// Where a leap year closes, the count of leap years steps up by one.
proof fn lemma_leaps_step(y: int)
    ensures
        leaps_through(y) == leaps_through(y - 1) + if leap(y) {
            1int
        } else {
            0
        },
{
}

/// The year of a 400-year era in which its day `doe` falls, counting years
/// from March, and the day of that year.
proof fn lemma_year_of_era(doe: int, yoe: int, doy: int)
    requires
        0 <= doe < 146_097,
        yoe == (doe - doe / 1460 + doe / 36_524 - doe / 146_096) / 365,
        doy == doe - (365 * yoe + yoe / 4 - yoe / 100),
    ensures
        0 <= yoe <= 399,
        0 <= doy <= 365,
        doy == 365 ==> (yoe + 1) % 4 == 0 && ((yoe + 1) % 100 != 0 || yoe == 399),
{
}

/// Quotients and remainders of a year by those of its place in its era.
proof fn lemma_year_in_era(era: int, yoe: int)
    ensures
        (yoe + era * 400) / 4 == yoe / 4 + 100 * era,
        (yoe + era * 400) / 100 == yoe / 100 + 4 * era,
        (yoe + era * 400) / 400 == yoe / 400 + era,
        (yoe + era * 400) % 4 == yoe % 4,
        (yoe + era * 400) % 100 == yoe % 100,
        (yoe + era * 400) % 400 == yoe % 400,
{
    vstd::arithmetic::div_mod::lemma_hoist_over_denominator(yoe, 100 * era, 4);
    vstd::arithmetic::div_mod::lemma_hoist_over_denominator(yoe, 4 * era, 100);
    vstd::arithmetic::div_mod::lemma_hoist_over_denominator(yoe, era, 400);
    vstd::arithmetic::div_mod::lemma_mod_multiples_vanish(100 * era, yoe, 4);
    vstd::arithmetic::div_mod::lemma_mod_multiples_vanish(4 * era, yoe, 100);
    vstd::arithmetic::div_mod::lemma_mod_multiples_vanish(era, yoe, 400);
}

/// Leap years up to a year given by its era and its place in the era.
proof fn lemma_leaps_of_era(era: int, yoe: int)
    requires
        0 <= yoe <= 399,
    ensures
        leaps_through(yoe + era * 400) == yoe / 4 - yoe / 100 + 97 * era,
        (yoe + 1) % 4 == 0 && ((yoe + 1) % 100 != 0 || yoe == 399) ==> leap(yoe + era * 400 + 1),
{
    lemma_year_in_era(era, yoe);
    lemma_year_in_era(era, yoe + 1);
    assert(yoe / 400 == 0);
}

/// The date of day `doy` of the year that starts on 1 March of year `y`.
proof fn lemma_month_of_day(y: int, doy: int, mp: int, d: int, m: int, year: int)
    requires
        0 <= doy <= 365,
        doy == 365 ==> leap(y + 1),
        mp == (5 * doy + 2) / 153,
        d == doy - (153 * mp + 2) / 5 + 1,
        m == if mp < 10 {
            mp + 3
        } else {
            mp - 9
        },
        year == if m <= 2 {
            y + 1
        } else {
            y
        },
    ensures
        valid_date(year, m, d),
        days_from_civil(year, m, d) == 365 * (y - 1970) + leaps_through(y) - 477 + 59 + doy,
{
    lemma_month_starts(year);
    lemma_leaps_step(y);
    assert(leaps_through(1969) == 477);
    assert(0 <= mp <= 11);
    if mp == 0 {
    } else if mp == 1 {
    } else if mp == 2 {
    } else if mp == 3 {
    } else if mp == 4 {
    } else if mp == 5 {
    } else if mp == 6 {
    } else if mp == 7 {
    } else if mp == 8 {
    } else if mp == 9 {
    } else if mp == 10 {
    } else {
    }
}

/// Convert days since the Unix epoch to a (year, month, day) civil date.
/// Years are counted from March, in eras of 400 of them.
fn civil_from_days(z: i64) -> (r: (i64, u32, u32))
    requires
        -200_000_000_000_000 <= z <= 200_000_000_000_000,
    ensures
        valid_date(r.0 as int, r.1 as int, r.2 as int),
        days_from_civil(r.0 as int, r.1 as int, r.2 as int) == z,
        -1_000_000_000_000 <= r.0 <= 1_000_000_000_000,
{
    let z: i64 = z + 719_468;
    let era: i64 = match z.checked_div_euclid(146_097) {
        Some(q) => q,
        None => 0,
    };
    let doe: i64 = z - era * 146_097;
    let yoe: i64 = (doe - doe / 1460 + doe / 36_524 - doe / 146_096) / 365;
    let doy: i64 = doe - (365 * yoe + yoe / 4 - yoe / 100);
    proof {
        lemma_year_of_era(doe as int, yoe as int, doy as int);
        lemma_leaps_of_era(era as int, yoe as int);
    }
    let y: i64 = yoe + era * 400;
    let mp: i64 = (5 * doy + 2) / 153;
    let d: u32 = (doy - (153 * mp + 2) / 5 + 1) as u32;
    let m: u32 = if mp < 10 {
        (mp + 3) as u32
    } else {
        (mp - 9) as u32
    };
    let year: i64 = if m <= 2 {
        y + 1
    } else {
        y
    };
    proof {
        lemma_month_of_day(y as int, doy as int, mp as int, d as int, m as int, year as int);
    }
    (year, m, d)
}

/// A year in at least four characters, the sign of a negative one included.
pub open spec fn year_text(y: int) -> Seq<char> {
    if y >= 0 {
        zero_padded(y as nat, 4)
    } else {
        seq!['-'] + zero_padded((-y) as nat, 3)
    }
}

/// A date and a time of day in the RFC 3339 form, in UTC.
pub open spec fn rfc3339_text(y: int, m: int, d: int, second_of_day: int) -> Seq<char> {
    year_text(y) + seq!['-'] + zero_padded(m as nat, 2) + seq!['-'] + zero_padded(d as nat, 2)
        + seq!['T'] + zero_padded((second_of_day / 3600) as nat, 2) + seq![':'] + zero_padded(
        (second_of_day % 3600 / 60) as nat,
        2,
    ) + seq![':'] + zero_padded((second_of_day % 60) as nat, 2) + seq!['Z']
}

/// Whether a text writes a Unix timestamp: the date that many days from the
/// epoch, and the time of that day.
pub open spec fn is_timestamp(text: Seq<char>, unix_secs: i64) -> bool {
    exists|y: int, m: int, d: int|
        {
            &&& valid_date(y, m, d)
            &&& #[trigger] days_from_civil(y, m, d) == unix_secs as int / 86_400
            &&& text == rfc3339_text(y, m, d, unix_secs as int % 86_400)
        }
}

/// Format a Unix timestamp (seconds) as an RFC 3339 UTC string, e.g.
/// "2026-09-06T12:34:56Z".
pub fn format_rfc3339_utc(unix_secs: i64) -> (r: String)
    ensures
        is_timestamp(r@, unix_secs),
{
    let days: i64 = match unix_secs.checked_div_euclid(86_400) {
        Some(q) => q,
        None => 0,
    };
    let secs_of_day: u64 = match unix_secs.checked_rem_euclid(86_400) {
        Some(q) => q as u64,
        None => 0,
    };
    let (year, month, day): (i64, u32, u32) = civil_from_days(days);
    let mut out: String = String::new();
    if year >= 0 {
        push_zero_padded(&mut out, year as u64, 4);
    } else {
        out.push('-');
        push_zero_padded(&mut out, (-year) as u64, 3);
    }
    assert(out@ =~= year_text(year as int));
    out.push('-');
    push_zero_padded(&mut out, month as u64, 2);
    out.push('-');
    push_zero_padded(&mut out, day as u64, 2);
    out.push('T');
    push_zero_padded(&mut out, secs_of_day / 3600, 2);
    out.push(':');
    push_zero_padded(&mut out, secs_of_day % 3600 / 60, 2);
    out.push(':');
    push_zero_padded(&mut out, secs_of_day % 60, 2);
    out.push('Z');
    assert(out@ =~= rfc3339_text(
        year as int,
        month as int,
        day as int,
        unix_secs as int % 86_400,
    ));
    assert(days_from_civil(year as int, month as int, day as int) == unix_secs as int / 86_400);
    out
}

// ---------------------------------------------------------------------- laws

/// The months before one and the month itself make up the months before a
/// later one, at most.
proof fn lemma_months_grow(y: int, a: int, b: int)
    requires
        1 <= a < b,
    ensures
        days_before_month(y, a) + days_in_month(y, a) <= days_before_month(y, b),
    decreases b,
{
    if a < b - 1 {
        lemma_months_grow(y, a, b - 1);
    }
}

/// A year has 365 days, and one more where it is a leap year.
proof fn lemma_days_of_year(y: int)
    ensures
        days_before_month(y, 13) == 365 + if leap(y) {
            1int
        } else {
            0
        },
{
    reveal_with_fuel(days_before_month, 14);
}

/// Every date of a year comes before the next year starts.
proof fn lemma_date_before_next_year(y: int, m: int, d: int)
    requires
        valid_date(y, m, d),
    ensures
        days_from_civil(y, 1, 1) <= days_from_civil(y, m, d) < days_from_civil(y + 1, 1, 1),
{
    lemma_months_grow(y, m, 13);
    lemma_days_of_year(y);
    lemma_leaps_step(y);
    if m > 1 {
        lemma_months_grow(y, 1, m);
    }
}

proof fn lemma_years_grow(a: int, b: int)
    requires
        a <= b,
    ensures
        days_from_civil(a, 1, 1) <= days_from_civil(b, 1, 1),
    decreases b - a,
{
    if a < b {
        lemma_years_grow(a, b - 1);
        lemma_date_before_next_year(b - 1, 1, 1);
    }
}

/// Two dates on the same day are the same date, so a timestamp is written in
/// one way only.
pub proof fn dates_are_unique(y1: int, m1: int, d1: int, y2: int, m2: int, d2: int)
    requires
        valid_date(y1, m1, d1),
        valid_date(y2, m2, d2),
        days_from_civil(y1, m1, d1) == days_from_civil(y2, m2, d2),
    ensures
        y1 == y2 && m1 == m2 && d1 == d2,
{
    lemma_date_before_next_year(y1, m1, d1);
    lemma_date_before_next_year(y2, m2, d2);
    if y1 < y2 {
        lemma_years_grow(y1 + 1, y2);
    } else if y2 < y1 {
        lemma_years_grow(y2 + 1, y1);
    } else if m1 < m2 {
        lemma_months_grow(y1, m1, m2);
    } else if m2 < m1 {
        lemma_months_grow(y1, m2, m1);
    }
}

} // verus!
