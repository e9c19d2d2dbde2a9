//! Dates of the proleptic Gregorian calendar, counted in days.
use crate::text;
use crate::text::{digit, push_decimal};
use vstd::prelude::*;

verus! {

/// Whether a year has a 29th of February.
pub open spec fn leap(y: int) -> bool {
    y % 4 == 0 && (y % 100 != 0 || y % 400 == 0)
}

/// Days of a month.
pub open spec fn month_days(y: int, m: int) -> int {
    if m == 2 {
        if leap(y) {
            29
        } else {
            28
        }
    } else if m == 4 || m == 6 || m == 9 || m == 11 {
        30
    } else {
        31
    }
}

/// Whether there is such a date.
pub open spec fn valid_date(y: int, m: int, d: int) -> bool {
    1 <= m <= 12 && 1 <= d <= month_days(y, m)
}

/// Days of the months before a month of a year.
pub open spec fn days_before_month(y: int, m: int) -> int
    decreases m,
{
    if m <= 1 {
        0
    } else {
        days_before_month(y, m - 1) + month_days(y, m - 1)
    }
}

/// Days from the first of January of the year 1 to that of a year.
pub open spec fn days_before_year(y: int) -> int {
    365 * (y - 1) + (y - 1) / 4 - (y - 1) / 100 + (y - 1) / 400
}

/// Days from the first of January 1970 to a date.
pub open spec fn day_number(y: int, m: int, d: int) -> int {
    days_before_year(y) + days_before_month(y, m) + d - 1 - 719_162
}

/// A year has 365 days, and one more where it is a leap year.
pub proof fn law_year_length(y: int)
    ensures
        days_before_year(y + 1) == days_before_year(y) + if leap(y) {
            366int
        } else {
            365
        },
{
    lemma_quotient_steps(y, 4);
    lemma_quotient_steps(y, 100);
    lemma_quotient_steps(y, 400);
    vstd::arithmetic::div_mod::lemma_mod_mod(y, 100, 4);
    vstd::arithmetic::div_mod::lemma_mod_mod(y, 4, 25);
}

/// A quotient grows by one exactly at the multiples of the divisor.
proof fn lemma_quotient_steps(y: int, k: int)
    requires
        k > 1,
    ensures
        y / k == (y - 1) / k + if y % k == 0 {
            1int
        } else {
            0
        },
{
    let q = y / k;
    let r = y % k;
    vstd::arithmetic::div_mod::lemma_fundamental_div_mod(y, k);
    vstd::arithmetic::div_mod::lemma_mod_bound(y, k);
    if r == 0 {
        assert(k * (q - 1) == k * q - k) by (nonlinear_arith);
        assert((q - 1) * k == k * (q - 1)) by (nonlinear_arith);
        vstd::arithmetic::div_mod::lemma_fundamental_div_mod_converse(y - 1, k, q - 1, k - 1);
    } else {
        assert(q * k == k * q) by (nonlinear_arith);
        vstd::arithmetic::div_mod::lemma_fundamental_div_mod_converse(y - 1, k, q, r - 1);
    }
}

proof fn lemma_months(y: int)
    ensures
        days_before_month(y, 1) == 0,
        days_before_month(y, 2) == 31,
        ({
            let f = if leap(y) {
                1int
            } else {
                0
            };
            &&& days_before_month(y, 3) == 59 + f
            &&& days_before_month(y, 4) == 90 + f
            &&& days_before_month(y, 5) == 120 + f
            &&& days_before_month(y, 6) == 151 + f
            &&& days_before_month(y, 7) == 181 + f
            &&& days_before_month(y, 8) == 212 + f
            &&& days_before_month(y, 9) == 243 + f
            &&& days_before_month(y, 10) == 273 + f
            &&& days_before_month(y, 11) == 304 + f
            &&& days_before_month(y, 12) == 334 + f
        }),
{
    reveal_with_fuel(days_before_month, 13);
}

/// A date in order: years, then months, then days.
pub open spec fn before(a: (int, int, int), b: (int, int, int)) -> bool {
    a.0 < b.0 || (a.0 == b.0 && (a.1 < b.1 || (a.1 == b.1 && a.2 < b.2)))
}

proof fn lemma_years_grow(x: int, y: int)
    requires
        x <= y,
    ensures
        days_before_year(y) - days_before_year(x) >= 365 * (y - x),
    decreases y - x,
{
    if x < y {
        lemma_years_grow(x, y - 1);
        law_year_length(y - 1);
    }
}

proof fn lemma_day_of_year(y: int, m: int, d: int)
    requires
        valid_date(y, m, d),
    ensures
        0 <= days_before_month(y, m) + d - 1 < if leap(y) {
            366int
        } else {
            365
        },
{
    lemma_months(y);
    assert(m == 1 || m == 2 || m == 3 || m == 4 || m == 5 || m == 6 || m == 7 || m == 8 || m == 9
        || m == 10 || m == 11 || m == 12);
}

/// A later date has a greater number, so a number belongs to one date only.
pub proof fn law_dates_are_in_order(a: (int, int, int), b: (int, int, int))
    requires
        valid_date(a.0, a.1, a.2),
        valid_date(b.0, b.1, b.2),
        before(a, b),
    ensures
        day_number(a.0, a.1, a.2) < day_number(b.0, b.1, b.2),
{
    lemma_day_of_year(a.0, a.1, a.2);
    lemma_day_of_year(b.0, b.1, b.2);
    if a.0 < b.0 {
        law_year_length(a.0);
        lemma_years_grow(a.0 + 1, b.0);
    } else if a.1 < b.1 {
        lemma_months(a.0);
        let m = a.1;
        let n = b.1;
        assert(m == 1 || m == 2 || m == 3 || m == 4 || m == 5 || m == 6 || m == 7 || m == 8 || m
            == 9 || m == 10 || m == 11 || m == 12);
        assert(n == 1 || n == 2 || n == 3 || n == 4 || n == 5 || n == 6 || n == 7 || n == 8 || n
            == 9 || n == 10 || n == 11 || n == 12);
    }
}

/// A date, by year, month and day.
#[derive(Debug, Clone, Copy, PartialEq, Eq, Structural)]
pub struct Date {
    pub y: i64,
    pub m: i64,
    pub d: i64,
}

/// The year of a March-based 400-year era that day `doe` of the era lies in.
proof fn lemma_year_of_era(doe: int, yoe: int)
    requires
        0 <= doe < 146_097,
        yoe == (doe - doe / 1460 + doe / 36_524 - doe / 146_096) / 365,
    ensures
        0 <= yoe < 400,
        0 <= doe - (365 * yoe + yoe / 4 - yoe / 100) <= 365,
        doe - (365 * yoe + yoe / 4 - yoe / 100) == 365 ==> leap(yoe + 1),
{
}

/// Days from the first of March of year `yoe` of era `era` to a date, for the
/// years on either side of the new year.
proof fn lemma_march_year(era: int, yoe: int)
    requires
        0 <= yoe < 400,
    ensures
        ({
            let y = yoe + era * 400;
            let march = era * 146_097 + 365 * yoe + yoe / 4 - yoe / 100;
            &&& days_before_year(y) + if leap(y) {
                60int
            } else {
                59
            } == march - 306
            &&& days_before_year(y + 1) == march
        }),
        leap(yoe + era * 400 + 1) == leap(yoe + 1),
{
    let y = yoe + era * 400;
    lemma_era_shift(era, yoe);
    lemma_era_shift(era, yoe + 1);
    assert(days_before_year(y + 1) == 365 * y + y / 4 - y / 100 + y / 400);
    law_year_length(y);
}

/// A whole number of eras changes neither the leap year rule nor the count of
/// leap years, but for those of the eras themselves.
proof fn lemma_era_shift(era: int, y: int)
    ensures
        (y + era * 400) / 4 == y / 4 + era * 100,
        (y + era * 400) / 100 == y / 100 + era * 4,
        (y + era * 400) / 400 == y / 400 + era,
        leap(y + era * 400) == leap(y),
{
    vstd::arithmetic::div_mod::lemma_hoist_over_denominator(y, era * 100, 4);
    vstd::arithmetic::div_mod::lemma_hoist_over_denominator(y, era * 4, 100);
    vstd::arithmetic::div_mod::lemma_hoist_over_denominator(y, era, 400);
    vstd::arithmetic::div_mod::lemma_mod_multiples_vanish(era * 100, y, 4);
    vstd::arithmetic::div_mod::lemma_mod_multiples_vanish(era * 4, y, 100);
    vstd::arithmetic::div_mod::lemma_mod_multiples_vanish(era, y, 400);
}

/// Day `doy` of a March-based year is day `d` of its month `mp`.
proof fn lemma_march_month(doy: int, mp: int, d: int)
    requires
        0 <= doy <= 365,
        mp == (5 * doy + 2) / 153,
        d == doy - (153 * mp + 2) / 5 + 1,
    ensures
        0 <= mp <= 11,
        1 <= d <= 31,
        mp == 1 || mp == 3 || mp == 6 || mp == 8 ==> d <= 30,
        mp == 11 ==> d <= 29 && (d == 29 ==> doy == 365),
        doy - d + 1 == march_start(mp),
{
    assert(mp == 0 || mp == 1 || mp == 2 || mp == 3 || mp == 4 || mp == 5 || mp == 6 || mp == 7
        || mp == 8 || mp == 9 || mp == 10 || mp == 11);
}

spec fn march_start(mp: int) -> int {
    if mp == 0 {
        0
    } else if mp == 1 {
        31
    } else if mp == 2 {
        61
    } else if mp == 3 {
        92
    } else if mp == 4 {
        122
    } else if mp == 5 {
        153
    } else if mp == 6 {
        184
    } else if mp == 7 {
        214
    } else if mp == 8 {
        245
    } else if mp == 9 {
        275
    } else if mp == 10 {
        306
    } else {
        337
    }
}

/// The date of a day number.
pub fn date_of(days: i64) -> (r: Date)
    requires
        -200_000_000_000_000 <= days <= 200_000_000_000_000,
    ensures
        valid_date(r.y as int, r.m as int, r.d as int),
        day_number(r.y as int, r.m as int, r.d as int) == days,
        -2_000_000_000_000 <= r.y <= 2_000_000_000_000,
{
    // A March-based year puts the leap day at the end.
    let z: i64 = days + 719_468;
    let era: i64 = floor_div(z, 146_097);
    let doe: i64 = z - era * 146_097;
    let yoe: i64 = (doe - doe / 1460 + doe / 36_524 - doe / 146_096) / 365;
    proof {
        lemma_year_of_era(doe as int, yoe as int);
    }
    let doy: i64 = doe - (365 * yoe + yoe / 4 - yoe / 100);
    let mp: i64 = (5 * doy + 2) / 153;
    let d: i64 = doy - (153 * mp + 2) / 5 + 1;
    proof {
        lemma_march_month(doy as int, mp as int, d as int);
        lemma_march_year(era as int, yoe as int);
    }
    let m: i64 = if mp < 10 {
        mp + 3
    } else {
        mp - 9
    };
    let base: i64 = yoe + era * 400;
    let y: i64 = if m <= 2 {
        base + 1
    } else {
        base
    };
    proof {
        lemma_months(y as int);
        assert(mp == 0 || mp == 1 || mp == 2 || mp == 3 || mp == 4 || mp == 5 || mp == 6 || mp
            == 7 || mp == 8 || mp == 9 || mp == 10 || mp == 11);
    }
    Date { y, m, d }
}

/// The quotient rounded down, for a positive divisor.
pub fn floor_div(a: i64, b: i64) -> (q: i64)
    requires
        b > 0,
    ensures
        q == a as int / b as int,
{
    proof {
        assert(a as int / b as int <= a && a >= 0 || a as int / b as int >= a && a < 0 && a as int
            / b as int <= 0) by (nonlinear_arith)
            requires
                b >= 1,
        ;
    }
    match a.checked_div_euclid(b) {
        Some(q) => q,
        None => 0,
    }
}

/// The remainder that goes with the quotient rounded down.
pub fn floor_rem(a: i64, b: i64) -> (r: i64)
    requires
        b > 0,
    ensures
        r == a as int % b as int,
{
    match a.checked_rem_euclid(b) {
        Some(r) => r,
        None => 0,
    }
}

/// A number in decimal with zeros in front, at least `width` characters wide.
pub open spec fn zero_padded(n: nat, width: nat) -> Seq<char> {
    let t = text::decimal(n);
    if t.len() >= width {
        t
    } else {
        Seq::new((width - t.len()) as nat, |i: int| '0') + t
    }
}

/// A year in at least four characters, the sign among them.
pub open spec fn year_text(y: int) -> Seq<char> {
    if y < 0 {
        seq!['-'] + zero_padded((-y) as nat, 3)
    } else {
        zero_padded(y as nat, 4)
    }
}

/// Two digits.
pub open spec fn two_digits(n: int) -> Seq<char> {
    seq![text::digit_char(n / 10), text::digit_char(n % 10)]
}

/// A date and a second of its day as RFC 3339 writes them, in UTC.
pub open spec fn timestamp(y: int, m: int, d: int, secs: int) -> Seq<char> {
    year_text(y) + seq!['-'] + two_digits(m) + seq!['-'] + two_digits(d) + seq!['T'] + two_digits(
        secs / 3600,
    ) + seq![':'] + two_digits((secs % 3600) / 60) + seq![':'] + two_digits(secs % 60) + seq!['Z']
}

/// Decimal digits of a number.
pub open spec fn decimal_len(n: nat) -> nat
    decreases n,
{
    if n < 10 {
        1
    } else {
        1 + decimal_len(n / 10)
    }
}

proof fn lemma_decimal_len(n: nat)
    ensures
        text::decimal(n).len() == decimal_len(n),
    decreases n,
{
    if n >= 10 {
        lemma_decimal_len(n / 10);
    }
}

fn push_padded(s: &mut String, n: u64, width: u8)
    requires
        width <= 4,
    ensures
        final(s)@ == old(s)@ + zero_padded(n as nat, width as nat),
{
    let len: u8 = if n < 10 {
        1
    } else if n < 100 {
        2
    } else if n < 1000 {
        3
    } else {
        4
    };
    proof {
        lemma_decimal_len(n as nat);
        reveal_with_fuel(decimal_len, 4);
    }
    let mut k: u8 = len;
    let ghost start = s@;
    while k < width
        invariant
            len <= k,
            k <= width || k == len,
            s@ == start + Seq::new((k - len) as nat, |i: int| '0'),
        decreases width - k,
    {
        s.push('0');
        k += 1;
        assert(s@ =~= start + Seq::new((k - len) as nat, |i: int| '0'));
    }
    let ghost padding = s@;
    push_decimal(s, n);
    assert(s@ =~= start + zero_padded(n as nat, width as nat));
}

fn push_two(s: &mut String, n: i64)
    requires
        0 <= n < 100,
    ensures
        final(s)@ == old(s)@ + two_digits(n as int),
{
    let ghost start = s@;
    s.push(digit((n / 10) as u8));
    s.push(digit((n % 10) as u8));
    assert(s@ =~= start + two_digits(n as int));
}

/// Append a date and a second of its day as RFC 3339 writes them.
pub fn push_timestamp(s: &mut String, date: Date, secs: i64)
    requires
        -2_000_000_000_000 <= date.y <= 2_000_000_000_000,
        1 <= date.m <= 12,
        1 <= date.d <= 31,
        0 <= secs < 86_400,
    ensures
        final(s)@ == old(s)@ + timestamp(
            date.y as int,
            date.m as int,
            date.d as int,
            secs as int,
        ),
{
    let ghost start = s@;
    if date.y < 0 {
        s.push('-');
        push_padded(s, (-date.y) as u64, 3);
    } else {
        push_padded(s, date.y as u64, 4);
    }
    assert(s@ =~= start + year_text(date.y as int));
    s.push('-');
    push_two(s, date.m);
    s.push('-');
    push_two(s, date.d);
    s.push('T');
    push_two(s, secs / 3600);
    s.push(':');
    push_two(s, (secs % 3600) / 60);
    s.push(':');
    push_two(s, secs % 60);
    s.push('Z');
    assert(s@ =~= start + timestamp(
        date.y as int,
        date.m as int,
        date.d as int,
        secs as int,
    ));
}

/// Whether a text comes before another in the order of its characters.
pub open spec fn sorts_before(s: Seq<char>, t: Seq<char>) -> bool {
    exists|k: int|
        {
            &&& 0 <= k < s.len()
            &&& k < t.len()
            &&& #[trigger] (s[k] as u32) < (t[k] as u32)
            &&& s.take(k) == t.take(k)
        }
}

/// The twenty characters of a timestamp.
#[verifier::opaque]
spec fn spelled(y: int, m: int, d: int, secs: int) -> Seq<char> {
    seq![
        text::digit_char(y / 1000),
        text::digit_char(y / 100 % 10),
        text::digit_char(y / 10 % 10),
        text::digit_char(y % 10),
        '-',
        text::digit_char(m / 10),
        text::digit_char(m % 10),
        '-',
        text::digit_char(d / 10),
        text::digit_char(d % 10),
        'T',
        text::digit_char(secs / 3600 / 10),
        text::digit_char(secs / 3600 % 10),
        ':',
        text::digit_char(secs % 3600 / 60 / 10),
        text::digit_char(secs % 3600 / 60 % 10),
        ':',
        text::digit_char(secs % 60 / 10),
        text::digit_char(secs % 60 % 10),
        'Z',
    ]
}

proof fn lemma_year_digits(y: int)
    requires
        0 <= y <= 9999,
    ensures
        year_text(y) == seq![
            text::digit_char(y / 1000),
            text::digit_char(y / 100 % 10),
            text::digit_char(y / 10 % 10),
            text::digit_char(y % 10),
        ],
{
    let n = y as nat;
    reveal_with_fuel(text::decimal, 5);
    let four = seq![
        text::digit_char(y / 1000),
        text::digit_char(y / 100 % 10),
        text::digit_char(y / 10 % 10),
        text::digit_char(y % 10),
    ];
    assert(n / 10 / 10 == n / 100 && n / 10 / 10 / 10 == n / 1000);
    assert(text::digit_char(0) == '0');
    assert(year_text(y) =~= four);
}

/// A timestamp of the years 0 to 9999 is twenty characters long.
pub proof fn law_timestamps_are_twenty_long(y: int, m: int, d: int, secs: int)
    requires
        0 <= y <= 9999,
        valid_date(y, m, d),
        0 <= secs < 86_400,
    ensures
        timestamp(y, m, d, secs).len() == 20,
{
    lemma_spelled(y, m, d, secs);
}

proof fn lemma_spelled(y: int, m: int, d: int, secs: int)
    requires
        0 <= y <= 9999,
    ensures
        timestamp(y, m, d, secs) == spelled(y, m, d, secs),
        spelled(y, m, d, secs).len() == 20,
{
    reveal(spelled);
    lemma_year_digits(y);
    assert(timestamp(y, m, d, secs) =~= spelled(y, m, d, secs));
}

/// The first place at which two numbers of two digits differ, where the first is
/// smaller: its digit is smaller there.
proof fn lemma_two(m: int, n: int)
    requires
        0 <= m < n < 100,
    ensures
        0 <= m / 10 <= n / 10 < 10,
        0 <= m % 10 < 10,
        0 <= n % 10 < 10,
        m / 10 == n / 10 ==> m % 10 < n % 10,
{
}

/// Where two numbers of two digits stand in two texts, and the texts agree
/// before that, the one with the smaller number sorts first.
proof fn lemma_sorts_at(s: Seq<char>, t: Seq<char>, at: int, m: int, n: int)
    requires
        0 <= at,
        at + 2 <= s.len(),
        at + 2 <= t.len(),
        s.take(at) == t.take(at),
        0 <= m < n < 100,
        s[at] == text::digit_char(m / 10) && s[at + 1] == text::digit_char(m % 10),
        t[at] == text::digit_char(n / 10) && t[at + 1] == text::digit_char(n % 10),
    ensures
        sorts_before(s, t),
{
    lemma_two(m, n);
    if m / 10 < n / 10 {
        assert((s[at] as u32) < (t[at] as u32));
    } else {
        assert((s[at + 1] as u32) < (t[at + 1] as u32));
        assert(s.take(at + 1) =~= s.take(at).push(s[at]));
        assert(t.take(at + 1) =~= t.take(at).push(t[at]));
    }
}

/// The four digits of a year are those of its century and of the year in it.
proof fn lemma_century(x: int)
    requires
        0 <= x <= 9999,
    ensures
        0 <= x / 100 < 100,
        0 <= x % 100 < 100,
        x == 100 * (x / 100) + x % 100,
        x / 1000 == x / 100 / 10,
        x / 10 % 10 == x % 100 / 10,
        x % 10 == x % 100 % 10,
{
}

/// A later second of a day is a later hour, or a later minute of the same hour,
/// or a later second of the same minute.
proof fn lemma_clock(p: int, q: int)
    requires
        0 <= p < q < 86_400,
    ensures
        0 <= p / 3600 <= q / 3600 < 24,
        0 <= p % 3600 / 60 < 60,
        0 <= q % 3600 / 60 < 60,
        0 <= p % 60 < 60,
        0 <= q % 60 < 60,
        p / 3600 == q / 3600 ==> p % 3600 / 60 <= q % 3600 / 60,
        p / 3600 == q / 3600 && p % 3600 / 60 == q % 3600 / 60 ==> p % 60 < q % 60,
{
}

proof fn lemma_clocks_sort(a: (int, int, int), p: int, q: int)
    requires
        0 <= p < q < 86_400,
    ensures
        sorts_before(spelled(a.0, a.1, a.2, p), spelled(a.0, a.1, a.2, q)),
{
    reveal(spelled);
    lemma_clock(p, q);
    let s = spelled(a.0, a.1, a.2, p);
    let t = spelled(a.0, a.1, a.2, q);
    if p / 3600 < q / 3600 {
        assert(s.take(11) =~= t.take(11));
        lemma_sorts_at(s, t, 11, p / 3600, q / 3600);
    } else if p % 3600 / 60 < q % 3600 / 60 {
        assert(s.take(14) =~= t.take(14));
        lemma_sorts_at(s, t, 14, p % 3600 / 60, q % 3600 / 60);
    } else {
        assert(s.take(17) =~= t.take(17));
        lemma_sorts_at(s, t, 17, p % 60, q % 60);
    }
}

proof fn lemma_years_decide(a: (int, int, int), p: int, b: (int, int, int), q: int)
    requires
        0 <= a.0 < b.0 <= 9999,
    ensures
        sorts_before(spelled(a.0, a.1, a.2, p), spelled(b.0, b.1, b.2, q)),
{
    reveal(spelled);
    lemma_century(a.0);
    lemma_century(b.0);
    let s = spelled(a.0, a.1, a.2, p);
    let t = spelled(b.0, b.1, b.2, q);
    let (x, y) = (a.0 / 100, b.0 / 100);
    if x < y {
        assert(s.take(0) =~= t.take(0));
        lemma_sorts_at(s, t, 0, x, y);
    } else {
        assert(s.take(2) =~= t.take(2));
        lemma_sorts_at(s, t, 2, a.0 % 100, b.0 % 100);
    }
}

proof fn lemma_months_decide(a: (int, int, int), p: int, b: (int, int, int), q: int)
    requires
        a.0 == b.0,
        0 <= a.1 < b.1 < 100,
    ensures
        sorts_before(spelled(a.0, a.1, a.2, p), spelled(b.0, b.1, b.2, q)),
{
    reveal(spelled);
    let s = spelled(a.0, a.1, a.2, p);
    let t = spelled(b.0, b.1, b.2, q);
    assert(s.take(5) =~= t.take(5));
    lemma_sorts_at(s, t, 5, a.1, b.1);
}

proof fn lemma_days_decide(a: (int, int, int), p: int, b: (int, int, int), q: int)
    requires
        a.0 == b.0,
        a.1 == b.1,
        0 <= a.2 < b.2 < 100,
    ensures
        sorts_before(spelled(a.0, a.1, a.2, p), spelled(b.0, b.1, b.2, q)),
{
    reveal(spelled);
    let s = spelled(a.0, a.1, a.2, p);
    let t = spelled(b.0, b.1, b.2, q);
    assert(s.take(8) =~= t.take(8));
    lemma_sorts_at(s, t, 8, a.2, b.2);
}

/// Timestamps of the years 0 to 9999 sort as their times do: by date, and on one
/// date by the second.
pub proof fn law_timestamps_sort_by_time(
    a: (int, int, int),
    p: int,
    b: (int, int, int),
    q: int,
)
    requires
        0 <= a.0 <= 9999,
        0 <= b.0 <= 9999,
        valid_date(a.0, a.1, a.2),
        valid_date(b.0, b.1, b.2),
        0 <= p < 86_400,
        0 <= q < 86_400,
        before(a, b) || (a == b && p < q),
    ensures
        sorts_before(timestamp(a.0, a.1, a.2, p), timestamp(b.0, b.1, b.2, q)),
{
    lemma_spelled(a.0, a.1, a.2, p);
    lemma_spelled(b.0, b.1, b.2, q);
    if a.0 < b.0 {
        lemma_years_decide(a, p, b, q);
    } else if a.1 < b.1 {
        lemma_months_decide(a, p, b, q);
    } else if a.2 < b.2 {
        lemma_days_decide(a, p, b, q);
    } else {
        lemma_clocks_sort(a, p, q);
    }
}

/// The years 0 to 9999 are the days from one number to another.
pub proof fn law_four_digit_years(y: int, m: int, d: int)
    requires
        valid_date(y, m, d),
    ensures
        0 <= y <= 9999 <==> -719_528 <= day_number(y, m, d) <= 2_932_896,
{
    lemma_months(0);
    lemma_months(9999);
    assert(day_number(0, 1, 1) == -719_528);
    assert(day_number(9999, 12, 31) == 2_932_896);
    if y < 0 {
        law_dates_are_in_order((y, m, d), (0, 1, 1));
    } else if y > 9999 {
        law_dates_are_in_order((9999, 12, 31), (y, m, d));
    } else {
        if (y, m, d) != (0int, 1int, 1int) {
            law_dates_are_in_order((0, 1, 1), (y, m, d));
        }
        if (y, m, d) != (9999int, 12int, 31int) {
            law_dates_are_in_order((y, m, d), (9999, 12, 31));
        }
    }
}

/// The number that two digits of a text stand for.
pub open spec fn pair_at(s: Seq<char>, i: int) -> int {
    10 * (s[i] as int - '0' as int) + (s[i + 1] as int - '0' as int)
}

/// A timestamp of the years 0 to 9999 reads back: century, year, month, day,
/// hour, minute and second stand in it in this order, with their separators.
pub proof fn law_timestamps_read_back(y: int, m: int, d: int, secs: int)
    requires
        0 <= y <= 9999,
        valid_date(y, m, d),
        0 <= secs < 86_400,
    ensures
        ({
            let t = timestamp(y, m, d, secs);
            let minutes = 60 * pair_at(t, 11) + pair_at(t, 14);
            &&& 100 * pair_at(t, 0) + pair_at(t, 2) == y
            &&& pair_at(t, 5) == m
            &&& pair_at(t, 8) == d
            &&& 60 * minutes + pair_at(t, 17) == secs
            &&& pair_at(t, 14) < 60 && pair_at(t, 17) < 60
            &&& t[4] == '-' && t[7] == '-' && t[10] == 'T'
            &&& t[13] == ':' && t[16] == ':' && t[19] == 'Z'
        }),
{
    let t = timestamp(y, m, d, secs);
    lemma_spelled(y, m, d, secs);
    reveal(spelled);
    assert(pair_at(t, 0) == y / 100) by {
        lemma_pair_reads_back(y / 100);
        assert(y / 1000 == y / 100 / 10);
    }
    assert(pair_at(t, 2) == y % 100) by {
        lemma_pair_reads_back(y % 100);
        lemma_low_digits(y);
    }
    assert(pair_at(t, 5) == m) by {
        lemma_pair_reads_back(m);
    }
    assert(pair_at(t, 8) == d) by {
        lemma_pair_reads_back(d);
    }
    assert(pair_at(t, 11) == secs / 3600) by {
        lemma_pair_reads_back(secs / 3600);
    }
    assert(pair_at(t, 14) == secs % 3600 / 60) by {
        lemma_pair_reads_back(secs % 3600 / 60);
    }
    assert(pair_at(t, 17) == secs % 60) by {
        lemma_pair_reads_back(secs % 60);
    }
    lemma_clock_reads_back(secs);
}

proof fn lemma_low_digits(y: int)
    requires
        0 <= y,
    ensures
        y / 10 % 10 == y % 100 / 10,
        y % 10 == y % 100 % 10,
{
    let a = y / 100;
    let b = y % 100;
    assert(y == 100 * a + b);
    assert(y / 10 == 10 * a + b / 10);
    assert(y % 10 == b % 10);
}

proof fn lemma_clock_reads_back(secs: int)
    requires
        0 <= secs,
    ensures
        60 * (60 * (secs / 3600) + secs % 3600 / 60) + secs % 60 == secs,
{
    let a = secs / 3600;
    let b = secs % 3600;
    assert(secs == 3600 * a + b);
    assert(secs % 60 == b % 60);
    assert(b == 60 * (b / 60) + b % 60);
}

proof fn lemma_pair_reads_back(n: int)
    requires
        0 <= n < 100,
    ensures
        10 * (text::digit_char(n / 10) as int - '0' as int) + (text::digit_char(n % 10) as int
            - '0' as int) == n,
{
    assert(text::digit_char(n / 10) as int == 0x30 + n / 10);
    assert(text::digit_char(n % 10) as int == 0x30 + n % 10);
}

} // verus!
