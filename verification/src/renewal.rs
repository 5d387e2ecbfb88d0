//! The subscription renewal date: the next occurrence of the billing
//! day-of-month, clamped to the length of short months.
use vstd::prelude::*;
use crate::text::padded_digits;

verus! {

/// Smallest year the date library represents.
pub const MIN_YEAR: i32 = -262143;

/// Largest year the date library represents.
pub const MAX_YEAR: i32 = 262142;

/// Proleptic Gregorian leap year.
pub open spec fn is_leap(y: int) -> bool {
    y % 4 == 0 && (y % 100 != 0 || y % 400 == 0)
}

/// Number of days in month `m` (1..=12) of year `y`.
pub open spec fn month_days(y: int, m: int) -> int {
    if m == 2 {
        if is_leap(y) {
            29
        } else {
            28
        }
    } else if m == 4 || m == 6 || m == 9 || m == 11 {
        30
    } else {
        31
    }
}

/// A calendar date the date library can represent.
pub open spec fn valid_date(y: int, m: int, d: int) -> bool {
    &&& MIN_YEAR <= y <= MAX_YEAR
    &&& 1 <= m <= 12
    &&& 1 <= d <= month_days(y, m)
}

/// Months counted from year 0, January.
pub open spec fn month_index(y: int, m: int) -> int {
    y * 12 + (m - 1)
}

/// The months that the length of month `(y, m)` can be computed for: the first of
/// the following month must be representable too.
pub open spec fn month_ok(y: int, m: int) -> bool {
    &&& MIN_YEAR <= y
    &&& 1 <= m <= 12
    &&& month_index(y, m) < month_index(MAX_YEAR as int, 12)
}

/// Number of days in month `m` of year `y`.
pub fn days_in_month(y: i32, m: u32) -> (r: u32)
    requires
        month_ok(y as int, m as int),
    ensures
        r == month_days(y as int, m as int),
{
    // Shift by a multiple of 400 so the remainders are taken of a non-negative number.
    let t: u64 = (y as i64 + 400_000) as u64;
    proof {
        let yi = y as int;
        assert(t as int == yi + 1000 * 400);
        vstd::arithmetic::div_mod::lemma_mod_multiples_vanish(100000int, yi, 4);
        vstd::arithmetic::div_mod::lemma_mod_multiples_vanish(4000int, yi, 100);
        vstd::arithmetic::div_mod::lemma_mod_multiples_vanish(1000int, yi, 400);
    }
    let leap = t % 4 == 0 && (t % 100 != 0 || t % 400 == 0);
    if m == 2 {
        if leap {
            29
        } else {
            28
        }
    } else if m == 4 || m == 6 || m == 9 || m == 11 {
        30
    } else {
        31
    }
}

/// Whether a date is representable, as `NaiveDate::from_ymd_opt` decides it.
fn date_exists(y: i32, m: u32, d: u32) -> (r: bool)
    requires
        month_ok(y as int, m as int),
    ensures
        r == valid_date(y as int, m as int, d as int),
{
    y <= MAX_YEAR && d >= 1 && d <= days_in_month(y, m)
}

/// The date text `format("%Y-%m-%d")` gives for a date.
pub uninterp spec fn ymd_text(y: int, m: int, d: int) -> Seq<char>;

/// `NaiveDate::from_ymd_opt(y, m, d)` then `format("%Y-%m-%d")`: the date
/// library's ISO date text. Its documentation fixes the layout for years
/// 0..=9999 (year zero-padded to four digits, month and day to two); outside
/// that range it adds a sign, which is left unsaid here.
#[verifier::external_body]
fn format_ymd(y: i32, m: u32, d: u32) -> (r: String)
    requires
        valid_date(y as int, m as int, d as int),
    ensures
        r@ == ymd_text(y as int, m as int, d as int),
        0 <= y <= 9999 ==> r@ == padded_digits(y as nat, 4) + seq!['-'] + padded_digits(m as nat, 2)
            + seq!['-'] + padded_digits(d as nat, 2),
{
    chrono::NaiveDate::from_ymd_opt(y, m, d).unwrap().format("%Y-%m-%d").to_string()
}

/// The month `i` months after `(y, m)`.
pub open spec fn month_after(y: int, m: int, i: int) -> (int, int) {
    (y + (m - 1 + i) / 12, (m - 1 + i) % 12 + 1)
}

/// `(a.0, a.1, a.2)` is on or before `(b.0, b.1, b.2)`.
pub open spec fn date_le(a: (int, int, int), b: (int, int, int)) -> bool {
    ||| a.0 < b.0
    ||| a.0 == b.0 && a.1 < b.1
    ||| a.0 == b.0 && a.1 == b.1 && a.2 <= b.2
}

/// The billing date in the `i`-th month from today's: the billing day, or the
/// month's last day when the month is shorter.
pub open spec fn candidate(day: int, ty: int, tm: int, i: int) -> (int, int, int) {
    let (y, m) = month_after(ty, tm, i);
    (y, m, if day <= month_days(y, m) { day } else { month_days(y, m) })
}

/// The `i`-th candidate exists and is not before today.
pub open spec fn hit(day: int, ty: int, tm: int, td: int, i: int) -> bool {
    let c = candidate(day, ty, tm, i);
    valid_date(c.0, c.1, c.2) && date_le((ty, tm, td), c)
}

/// The first of the fourteen months scanned, from the `i`-th on, whose
/// candidate is a hit; today when none is.
pub open spec fn renewal_from(day: int, ty: int, tm: int, td: int, i: nat) -> (int, int, int)
    decreases 14 - i,
{
    if i >= 14 {
        (ty, tm, td)
    } else if hit(day, ty, tm, td, i as int) {
        candidate(day, ty, tm, i as int)
    } else {
        renewal_from(day, ty, tm, td, i + 1)
    }
}

/// The next renewal date for billing day `day`, seen from today `(ty, tm, td)`.
pub open spec fn renewal_date(day: int, ty: int, tm: int, td: int) -> (int, int, int) {
    renewal_from(day, ty, tm, td, 0)
}

/// How many months the scan looks at, counting from the `i`-th.
pub open spec fn months_scanned_from(day: int, ty: int, tm: int, td: int, i: nat) -> nat
    decreases 14 - i,
{
    if i >= 14 {
        0
    } else if hit(day, ty, tm, td, i as int) {
        1
    } else {
        1 + months_scanned_from(day, ty, tm, td, i + 1)
    }
}

/// The scan stays within the months whose length the date library can compute.
pub open spec fn renewal_scan_ok(day: int, ty: int, tm: int, td: int) -> bool {
    month_index(ty, tm) + months_scanned_from(day, ty, tm, td, 0) <= month_index(MAX_YEAR as int, 12)
}

proof fn lemma_month_after_step(y: int, m: int, i: int)
    requires
        1 <= m <= 12,
        i >= 0,
    ensures
        ({
            let (y1, m1) = month_after(y, m, i);
            let (y2, m2) = month_after(y, m, i + 1);
            &&& 1 <= m1 <= 12
            &&& month_index(y1, m1) == month_index(y, m) + i
            &&& (m1 == 12 ==> y2 == y1 + 1 && m2 == 1)
            &&& (m1 < 12 ==> y2 == y1 && m2 == m1 + 1)
        }),
{
    let a = m - 1 + i;
    vstd::arithmetic::div_mod::lemma_fundamental_div_mod(a, 12);
    vstd::arithmetic::div_mod::lemma_fundamental_div_mod(a + 1, 12);
    vstd::arithmetic::div_mod::lemma_mod_bound(a, 12);
    vstd::arithmetic::div_mod::lemma_mod_bound(a + 1, 12);
    if a % 12 == 11 {
        vstd::arithmetic::div_mod::lemma_fundamental_div_mod_converse(a + 1, 12, a / 12 + 1, 0);
    } else {
        vstd::arithmetic::div_mod::lemma_fundamental_div_mod_converse(a + 1, 12, a / 12, a % 12 + 1);
    }
}

proof fn lemma_scan_count(day: int, ty: int, tm: int, td: int, i: nat)
    requires
        i <= 14,
    ensures
        months_scanned_from(day, ty, tm, td, i) <= 14 - i,
        i < 14 ==> months_scanned_from(day, ty, tm, td, i) >= 1,
        i < 14 && !hit(day, ty, tm, td, i as int) ==> months_scanned_from(day, ty, tm, td, i) == 1
            + months_scanned_from(day, ty, tm, td, i + 1),
    decreases 14 - i,
{
    if i < 14 {
        lemma_scan_count(day, ty, tm, td, i + 1);
    }
}


/// For a billing day of 1 or more, the renewal date is the billing day of this
/// month when that is still ahead (or today), else the billing day of next
/// month; the day is clamped to the month's length, and the date is never
/// before today.
pub proof fn lemma_renewal_is_next_billing_day(day: int, ty: int, tm: int, td: int)
    requires
        day >= 1,
        valid_date(ty, tm, td),
        !(ty == MAX_YEAR && tm == 12),
    ensures
        ({
            let c = renewal_date(day, ty, tm, td);
            let this_month = candidate(day, ty, tm, 0);
            &&& valid_date(c.0, c.1, c.2)
            &&& date_le((ty, tm, td), c)
            &&& c.2 == (if day <= month_days(c.0, c.1) { day } else { month_days(c.0, c.1) })
            &&& (date_le((ty, tm, td), this_month) ==> c == this_month)
            &&& (!date_le((ty, tm, td), this_month) ==> (c.0, c.1) == month_after(ty, tm, 1))
        }),
{
    lemma_month_after_step(ty, tm, 0);
    lemma_month_after_step(ty, tm, 1);
    assert(month_after(ty, tm, 0) == (ty, tm)) by {
        vstd::arithmetic::div_mod::lemma_small_mod((tm - 1) as nat, 12);
        vstd::arithmetic::div_mod::lemma_fundamental_div_mod(tm - 1, 12);
    }
    reveal_with_fuel(renewal_from, 3);
}

/// The next renewal date for billing day-of-month `day`, as `YYYY-MM-DD`,
/// seen from today `(ty, tm, td)`: the billing day in this month or a later
/// one, clamped to the month's last day; today when no month qualifies.
pub fn next_renewal(day: u32, ty: i32, tm: u32, td: u32) -> (r: String)
    requires
        valid_date(ty as int, tm as int, td as int),
        renewal_scan_ok(day as int, ty as int, tm as int, td as int),
    ensures
        ({
            let c = renewal_date(day as int, ty as int, tm as int, td as int);
            &&& r@ == ymd_text(c.0, c.1, c.2)
            &&& 0 <= c.0 <= 9999 ==> r@ == padded_digits(c.0 as nat, 4) + seq!['-'] + padded_digits(c.1 as nat, 2)
                + seq!['-'] + padded_digits(c.2 as nat, 2)
        }),
{
    let mut y = ty;
    let mut m = tm;
    let mut i: u32 = 0;
    proof {
        lemma_scan_count(day as int, ty as int, tm as int, td as int, 0);
    }
    while i < 14
        invariant
            valid_date(ty as int, tm as int, td as int),
            renewal_scan_ok(day as int, ty as int, tm as int, td as int),
            0 <= i <= 14,
            (y as int, m as int) == month_after(ty as int, tm as int, i as int),
            1 <= m <= 12,
            MIN_YEAR <= y,
            month_index(y as int, m as int) == month_index(ty as int, tm as int) + i,
            month_index(ty as int, tm as int) + i + months_scanned_from(day as int, ty as int, tm as int, td as int, i as nat)
                <= month_index(MAX_YEAR as int, 12),
            renewal_date(day as int, ty as int, tm as int, td as int) == renewal_from(
                day as int,
                ty as int,
                tm as int,
                td as int,
                i as nat,
            ),
        decreases 14 - i,
    {
        proof {
            lemma_scan_count(day as int, ty as int, tm as int, td as int, i as nat);
            lemma_month_after_step(ty as int, tm as int, i as int);
        }
        let dim = days_in_month(y, m);
        let d = if day <= dim { day } else { dim };
        if date_exists(y, m, d) {
            let later = y > ty || (y == ty && m > tm) || (y == ty && m == tm && d >= td);
            if later {
                return format_ymd(y, m, d);
            }
        }
        proof {
            lemma_scan_count(day as int, ty as int, tm as int, td as int, (i + 1) as nat);
        }
        if m == 12 {
            m = 1;
            y = y + 1;
        } else {
            m = m + 1;
        }
        i += 1;
    }
    format_ymd(ty, tm, td)
}

/// [`next_renewal`] for any billing day seen from a representable date:
/// `None` when the months the scan would look at run past the last month whose
/// length the date library can compute.
pub fn checked_next_renewal(day: u32, ty: i32, tm: u32, td: u32) -> (r: Option<String>)
    requires
        valid_date(ty as int, tm as int, td as int),
    ensures
        r is None <==> !renewal_scan_ok(day as int, ty as int, tm as int, td as int),
        r matches Some(s) ==> ({
            let c = renewal_date(day as int, ty as int, tm as int, td as int);
            &&& s@ == ymd_text(c.0, c.1, c.2)
            &&& 0 <= c.0 <= 9999 ==> s@ == padded_digits(c.0 as nat, 4) + seq!['-'] + padded_digits(c.1 as nat, 2)
                + seq!['-'] + padded_digits(c.2 as nat, 2)
        }),
{
    let mut y = ty;
    let mut m = tm;
    let mut i: u32 = 0;
    while i < 14
        invariant
            valid_date(ty as int, tm as int, td as int),
            0 <= i <= 14,
            (y as int, m as int) == month_after(ty as int, tm as int, i as int),
            1 <= m <= 12,
            MIN_YEAR <= y,
            month_index(y as int, m as int) == month_index(ty as int, tm as int) + i,
            month_index(ty as int, tm as int) + i <= month_index(MAX_YEAR as int, 12),
            months_scanned_from(day as int, ty as int, tm as int, td as int, 0) == i + months_scanned_from(
                day as int,
                ty as int,
                tm as int,
                td as int,
                i as nat,
            ),
        decreases 14 - i,
    {
        proof {
            lemma_scan_count(day as int, ty as int, tm as int, td as int, i as nat);
            lemma_month_after_step(ty as int, tm as int, i as int);
        }
        if !(y < MAX_YEAR || (y == MAX_YEAR && m < 12)) {
            return None;
        }
        let dim = days_in_month(y, m);
        let d = if day <= dim { day } else { dim };
        if date_exists(y, m, d) {
            let later = y > ty || (y == ty && m > tm) || (y == ty && m == tm && d >= td);
            if later {
                proof {
                    assert(hit(day as int, ty as int, tm as int, td as int, i as int));
                }
                return Some(next_renewal(day, ty, tm, td));
            }
        }
        proof {
            assert(!hit(day as int, ty as int, tm as int, td as int, i as int));
        }
        if m == 12 {
            m = 1;
            y = y + 1;
        } else {
            m = m + 1;
        }
        i += 1;
    }
    proof {
        lemma_scan_count(day as int, ty as int, tm as int, td as int, 14);
    }
    Some(next_renewal(day, ty, tm, td))
}

/// The Gregorian month lengths: January, March, May, July, August, October and
/// December have 31 days; April, June, September and November 30; February 29
/// in a leap year and 28 otherwise. A year is a leap year when divisible by 4,
/// except century years not divisible by 400; so a year has 365 or 366 days.
pub proof fn lemma_month_lengths(y: int)
    ensures
        month_days(y, 1) == 31,
        month_days(y, 2) == (if is_leap(y) { 29int } else { 28int }),
        month_days(y, 3) == 31,
        month_days(y, 4) == 30,
        month_days(y, 5) == 31,
        month_days(y, 6) == 30,
        month_days(y, 7) == 31,
        month_days(y, 8) == 31,
        month_days(y, 9) == 30,
        month_days(y, 10) == 31,
        month_days(y, 11) == 30,
        month_days(y, 12) == 31,
        is_leap(y) == (y % 400 == 0 || (y % 4 == 0 && y % 100 != 0)),
        month_days(y, 1) + month_days(y, 2) + month_days(y, 3) + month_days(y, 4) + month_days(y, 5) + month_days(
            y,
            6,
        ) + month_days(y, 7) + month_days(y, 8) + month_days(y, 9) + month_days(y, 10) + month_days(y, 11)
            + month_days(y, 12) == (if is_leap(y) { 366int } else { 365int }),
{
    assert(y % 400 == 0 ==> y % 4 == 0 && y % 100 == 0) by {
        vstd::arithmetic::div_mod::lemma_mod_mod(y, 100, 4);
        vstd::arithmetic::div_mod::lemma_mod_mod(y, 4, 100);
    }
}

} // verus!
