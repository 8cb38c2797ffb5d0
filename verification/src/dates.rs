//! Calendar dates: reading `YYYY-MM-DD`, the proleptic Gregorian day count,
//! and how long ago a session was, as the tree picker shows it.
use vstd::prelude::*;
use chrono::Datelike;
use crate::text::{chars_of, string_of_range, before_char, after_char, find_char};
use crate::numfmt::{decimal, decimal_string};

verus! {

broadcast use vstd::string::group_string_axioms;

/// The value of a run of decimal digits.
pub open spec fn digits_value(s: Seq<char>) -> int
    decreases s.len(),
{
    if s.len() == 0 {
        0
    } else {
        digits_value(s.drop_last()) * 10 + (s.last() as int - '0' as int)
    }
}

pub open spec fn all_digits(s: Seq<char>) -> bool {
    forall|i: int| 0 <= i < s.len() ==> '0' <= #[trigger] s[i] <= '9'
}

/// What `str::parse::<i32>` gives for `s`: an optional sign, then at least
/// one digit, in range.
pub open spec fn parsed_i32(s: Seq<char>) -> Option<int> {
    let neg = s.len() > 0 && s[0] == '-';
    let body = if s.len() > 0 && (s[0] == '+' || s[0] == '-') {
        s.skip(1)
    } else {
        s
    };
    let v = if neg {
        -digits_value(body)
    } else {
        digits_value(body)
    };
    if body.len() > 0 && all_digits(body) && i32::MIN <= v <= i32::MAX {
        Some(v)
    } else {
        None
    }
}

/// What `str::parse::<u32>` gives for `s`: an optional plus sign, then at
/// least one digit, in range.
pub open spec fn parsed_u32(s: Seq<char>) -> Option<int> {
    let body = if s.len() > 0 && s[0] == '+' {
        s.skip(1)
    } else {
        s
    };
    if body.len() > 0 && all_digits(body) && digits_value(body) <= u32::MAX {
        Some(digits_value(body))
    } else {
        None
    }
}

proof fn lemma_digits_grow(s: Seq<char>, k: int)
    requires
        0 <= k <= s.len(),
        all_digits(s),
    ensures
        0 <= digits_value(s.take(k)) <= digits_value(s),
    decreases s.len() - k,
{
    if k < s.len() {
        lemma_digits_grow(s, k + 1);
        assert(s.take(k + 1).drop_last() =~= s.take(k));
        assert(s.take(k + 1).last() == s[k]);
        lemma_digits_nonneg(s.take(k));
    } else {
        assert(s.take(k) =~= s);
        lemma_digits_nonneg(s);
    }
}

proof fn lemma_digits_nonneg(s: Seq<char>)
    requires
        all_digits(s),
    ensures
        digits_value(s) >= 0,
    decreases s.len(),
{
    if s.len() > 0 {
        assert(all_digits(s.drop_last())) by {
            assert forall|i: int| 0 <= i < s.drop_last().len() implies '0' <= #[trigger] s.drop_last()[i] <= '9' by {
                assert(s.drop_last()[i] == s[i]);
            }
        }
        lemma_digits_nonneg(s.drop_last());
    }
}

/// The value of the digits of `v[from..]` when they are all digits and the
/// value is at most `limit`; `None` otherwise.
fn digits_upto(v: &Vec<char>, from: usize, limit: u64) -> (r: Option<u64>)
    requires
        from <= v.len(),
        limit <= 0x1_0000_0000,
    ensures
        r is Some <==> (all_digits(v@.skip(from as int)) && digits_value(v@.skip(from as int)) <= limit),
        r is Some ==> r.unwrap() == digits_value(v@.skip(from as int)),
{
    let ghost body = v@.skip(from as int);
    let mut acc: u64 = 0;
    let mut i: usize = from;
    while i < v.len()
        invariant
            from <= i <= v.len(),
            limit <= 0x1_0000_0000,
            body == v@.skip(from as int),
            all_digits(body.take(i - from)),
            acc == digits_value(body.take(i - from)),
            acc <= limit,
        decreases v.len() - i,
    {
        let c = v[i];
        proof {
            assert(body[i - from] == c);
        }
        if c < '0' || c > '9' {
            return None;
        }
        let d = (c as u64) - ('0' as u64);
        proof {
            assert(body.take(i - from + 1).drop_last() =~= body.take(i - from));
            assert(body.take(i - from + 1).last() == c);
            assert(all_digits(body.take(i - from + 1))) by {
                assert forall|j: int| 0 <= j < body.take(i - from + 1).len() implies '0' <= #[trigger] body.take(i - from + 1)[j] <= '9' by {
                    if j < i - from {
                        assert(body.take(i - from + 1)[j] == body.take(i - from)[j]);
                    }
                }
            }
        }
        let next = acc * 10 + d;
        if next > limit {
            proof {
                if all_digits(body) {
                    lemma_digits_grow(body, i - from + 1);
                }
            }
            return None;
        }
        acc = next;
        i = i + 1;
    }
    proof {
        assert(body.take(i - from) =~= body);
    }
    Some(acc)
}

/// `str::parse::<i32>` of `s`.
pub fn parse_i32(s: &str) -> (r: Option<i32>)
    ensures
        r is Some <==> parsed_i32(s@) is Some,
        r is Some ==> r.unwrap() == parsed_i32(s@).unwrap(),
{
    let v = chars_of(s);
    let neg = v.len() > 0 && v[0] == '-';
    let from: usize = if v.len() > 0 && (v[0] == '+' || v[0] == '-') { 1 } else { 0 };
    if from == v.len() {
        proof {
            assert(v@.skip(from as int).len() == 0);
        }
        return None;
    }
    let limit: u64 = if neg { 0x8000_0000 } else { 0x7fff_ffff };
    let got = digits_upto(&v, from, limit);
    proof {
        let body = v@.skip(from as int);
        assert(from == 1 ==> body =~= v@.skip(1));
        assert(from == 0 ==> body =~= v@);
        if all_digits(body) {
            lemma_digits_nonneg(body);
        }
    }
    match got {
        Some(x) => {
            if neg {
                if x == 0x8000_0000 {
                    Some(i32::MIN)
                } else {
                    Some(-(x as i32))
                }
            } else {
                Some(x as i32)
            }
        },
        None => None,
    }
}

/// `str::parse::<u32>` of `s`.
pub fn parse_u32(s: &str) -> (r: Option<u32>)
    ensures
        r is Some <==> parsed_u32(s@) is Some,
        r is Some ==> r.unwrap() == parsed_u32(s@).unwrap(),
{
    let v = chars_of(s);
    let from: usize = if v.len() > 0 && v[0] == '+' { 1 } else { 0 };
    if from == v.len() {
        proof {
            assert(v@.skip(from as int).len() == 0);
        }
        return None;
    }
    let got = digits_upto(&v, from, 0xffff_ffff);
    proof {
        let body = v@.skip(from as int);
        assert(from == 1 ==> body =~= v@.skip(1));
        assert(from == 0 ==> body =~= v@);
    }
    match got {
        Some(x) => Some(x as u32),
        None => None,
    }
}

pub open spec fn is_leap(y: int) -> bool {
    (y % 4 == 0 && y % 100 != 0) || y % 400 == 0
}

pub open spec fn month_days(y: int, m: int) -> int {
    if m == 2 {
        if is_leap(y) {
            29
        } else {
            28
        }
    } else if m == 4 || m == 6 || m == 9 || m == 11 {
        30
    } else {
        31
    }
}

/// The days of the months before month `m` of year `y`.
pub open spec fn days_before_month(y: int, m: int) -> int
    decreases m,
{
    if m <= 1 {
        0
    } else {
        days_before_month(y, m - 1) + month_days(y, m - 1)
    }
}

/// Whether `chrono::NaiveDate::from_ymd_opt(y, m, d)` gives a date: the year
/// within chrono's range, the month and the day within the calendar.
pub open spec fn valid_ymd(y: int, m: int, d: int) -> bool {
    -262143 <= y <= 262142 && 1 <= m <= 12 && 1 <= d <= month_days(y, m)
}

/// The proleptic Gregorian day number of a date, 1 January of year 1 being
/// day 1 (`NaiveDate::num_days_from_ce`).
pub open spec fn day_number(y: int, m: int, d: int) -> int {
    let p = y - 1;
    365 * p + p / 4 - p / 100 + p / 400 + days_before_month(y, m) + d
}

/// Runs `chrono::NaiveDate::from_ymd_opt` and, for a date, its
/// `num_days_from_ce`. Trusted: chrono makes a date exactly from a valid
/// proleptic Gregorian year, month and day within its year range
/// (-262143..=262142), and numbers it from 1 January of year 1 as day 1.
#[verifier::external_body]
fn naive_day_number(y: i32, m: u32, d: u32) -> (r: Option<i32>)
    ensures
        r is Some <==> valid_ymd(y as int, m as int, d as int),
        r is Some ==> r.unwrap() == day_number(y as int, m as int, d as int),
{
    let date = chrono::NaiveDate::from_ymd_opt(y, m, d)?;
    Some(date.num_days_from_ce())
}

/// The day number of a date, if it is one.
pub fn days_from_ce(y: i32, m: u32, d: u32) -> (r: Option<i64>)
    ensures
        r is Some <==> valid_ymd(y as int, m as int, d as int),
        r is Some ==> r.unwrap() == day_number(y as int, m as int, d as int),
        r is Some ==> i32::MIN <= r.unwrap() <= i32::MAX,
{
    match naive_day_number(y, m, d) {
        Some(n) => Some(n as i64),
        None => None,
    }
}

/// The three fields of a date written with exactly two dashes.
pub open spec fn date_fields(s: Seq<char>) -> Option<(Seq<char>, Seq<char>, Seq<char>)> {
    match after_char(s, '-') {
        None => None,
        Some(r1) => match after_char(r1, '-') {
            None => None,
            Some(r2) => if after_char(r2, '-') is None {
                Some((before_char(s, '-'), before_char(r1, '-'), r2))
            } else {
                None
            },
        },
    }
}

/// Minutes since midnight of a clock time `HH:MM` (hours below 24, minutes
/// below 60); `None` for anything else.
pub open spec fn clock_minutes(t: Seq<char>) -> Option<int> {
    match after_char(t, ':') {
        None => None,
        Some(mm) => match (parsed_u32(before_char(t, ':')), parsed_u32(mm)) {
            (Some(h), Some(m)) => if h < 24 && m < 60 {
                Some(h * 60 + m)
            } else {
                None
            },
            _ => None,
        },
    }
}

/// The age of a session from today: whole hours when at least one hour has
/// passed since its clock time `time`, seen from minute `now` of the day;
/// else "today".
pub open spec fn same_day_age(time: Seq<char>, now: int) -> Seq<char> {
    match clock_minutes(time) {
        Some(t) => if now - t >= 60 {
            decimal(((now - t) / 60) as nat) + seq!['h']
        } else {
            seq!['t', 'o', 'd', 'a', 'y']
        },
        None => seq!['t', 'o', 'd', 'a', 'y'],
    }
}

/// How long ago `date` (at clock time `time`) was, seen from day number
/// `today` at minute `now` of the day: whole hours on the same day once an
/// hour has passed, else "today"; days below thirty; else whole thirty-day
/// months; "--" for what is not a date. A date after today reads "today".
pub open spec fn age_text(date: Seq<char>, time: Seq<char>, today: int, now: int) -> Seq<char> {
    match date_fields(date) {
        None => seq!['-', '-'],
        Some(f) => {
            let y = match parsed_i32(f.0) {
                Some(v) => v,
                None => 0,
            };
            let m = match parsed_u32(f.1) {
                Some(v) => v,
                None => 1,
            };
            let d = match parsed_u32(f.2) {
                Some(v) => v,
                None => 1,
            };
            if !valid_ymd(y, m, d) {
                seq!['-', '-']
            } else {
                let diff = today - day_number(y, m, d);
                let days = if diff < 0 {
                    0
                } else {
                    diff
                };
                if diff == 0 {
                    same_day_age(time, now)
                } else if days == 0 {
                    seq!['t', 'o', 'd', 'a', 'y']
                } else if days < 30 {
                    decimal(days as nat) + seq!['d']
                } else {
                    decimal((days / 30) as nat) + seq!['m', 'o']
                }
            }
        },
    }
}

/// The same-day age of a session at clock time `time`, at minute `now`.
pub fn same_day_text(time: &str, now: u32) -> (r: String)
    requires
        now < 1440,
    ensures
        r@ == same_day_age(time@, now as int),
{
    proof {
        reveal_strlit("today");
        assert("today"@ =~= seq!['t', 'o', 'd', 'a', 'y']);
    }
    let v = chars_of(time);
    let i = match find_char(&v, ':') {
        None => {
            return String::from_str("today");
        },
        Some(i) => i,
    };
    let hs = string_of_range(&v, 0, i);
    let ms = string_of_range(&v, i + 1, v.len());
    let h = match parse_u32(hs.as_str()) {
        Some(x) => x,
        None => {
            return String::from_str("today");
        },
    };
    let m = match parse_u32(ms.as_str()) {
        Some(x) => x,
        None => {
            return String::from_str("today");
        },
    };
    if h >= 24 || m >= 60 {
        return String::from_str("today");
    }
    let t = h * 60 + m;
    if now >= t && now - t >= 60 {
        let mut s = decimal_string(((now - t) / 60) as u128);
        s.push('h');
        s
    } else {
        String::from_str("today")
    }
}

/// How long ago a session's date and clock time were, given today's day
/// number and the minute of the day now.
pub fn relative_time(date: &str, time: &str, today: i32, now: u32) -> (r: String)
    requires
        now < 1440,
    ensures
        r@ == age_text(date@, time@, today as int, now as int),
{
    proof {
        reveal_strlit("--");
        reveal_strlit("today");
        assert("--"@ =~= seq!['-', '-']);
        assert("today"@ =~= seq!['t', 'o', 'd', 'a', 'y']);
    }
    let v = chars_of(date);
    let i1 = match find_char(&v, '-') {
        None => {
            return String::from_str("--");
        },
        Some(i) => i,
    };
    let r1 = string_of_range(&v, i1 + 1, v.len());
    let v1 = chars_of(r1.as_str());
    let i2 = match find_char(&v1, '-') {
        None => {
            return String::from_str("--");
        },
        Some(i) => i,
    };
    let r2 = string_of_range(&v1, i2 + 1, v1.len());
    let v2 = chars_of(r2.as_str());
    if find_char(&v2, '-').is_some() {
        return String::from_str("--");
    }
    let a = string_of_range(&v, 0, i1);
    let b = string_of_range(&v1, 0, i2);
    let y = match parse_i32(a.as_str()) {
        Some(x) => x,
        None => 0,
    };
    let m = match parse_u32(b.as_str()) {
        Some(x) => x,
        None => 1,
    };
    let d = match parse_u32(r2.as_str()) {
        Some(x) => x,
        None => 1,
    };
    match days_from_ce(y, m, d) {
        None => String::from_str("--"),
        Some(n) => {
            let diff = (today as i64) - n;
            let days: i64 = if diff < 0 { 0 } else { diff };
            if diff == 0 {
                same_day_text(time, now)
            } else if days == 0 {
                String::from_str("today")
            } else if days < 30 {
                let mut s = decimal_string(days as u128);
                s.push('d');
                s
            } else {
                let mut s = decimal_string((days / 30) as u128);
                s.push('m');
                s.push('o');
                s
            }
        },
    }
}

proof fn lemma_div_step(y: int, k: int)
    requires
        k > 0,
    ensures
        y / k - (y - 1) / k == (if y % k == 0 {
            1int
        } else {
            0int
        }),
{
    let q = (y - 1) / k;
    let r = (y - 1) % k;
    vstd::arithmetic::div_mod::lemma_fundamental_div_mod(y - 1, k);
    vstd::arithmetic::div_mod::lemma_mod_bound(y - 1, k);
    if r + 1 == k {
        assert(y == (q + 1) * k + 0) by (nonlinear_arith)
            requires
                y - 1 == k * q + r,
                r + 1 == k;
        vstd::arithmetic::div_mod::lemma_fundamental_div_mod_converse(y, k, q + 1, 0);
    } else {
        assert(y == q * k + (r + 1)) by (nonlinear_arith)
            requires
                y - 1 == k * q + r;
        vstd::arithmetic::div_mod::lemma_fundamental_div_mod_converse(y, k, q, r + 1);
    }
}

/// Consecutive days of the calendar have consecutive day numbers: within a
/// month, from the last day of a month to the first of the next, and from
/// the last day of a year to the first of the next.
pub proof fn law_next_day(y: int, m: int, d: int)
    requires
        valid_ymd(y, m, d),
    ensures
        d < month_days(y, m) ==> valid_ymd(y, m, d + 1) && day_number(y, m, d + 1) == day_number(y, m, d) + 1,
        d == month_days(y, m) && m < 12 ==> valid_ymd(y, m + 1, 1) && day_number(y, m + 1, 1) == day_number(y, m, d)
            + 1,
        d == month_days(y, m) && m == 12 && y < 262142 ==> valid_ymd(y + 1, 1, 1) && day_number(y + 1, 1, 1)
            == day_number(y, m, d) + 1,
{
    if d == month_days(y, m) && m == 12 && y < 262142 {
        reveal_with_fuel(days_before_month, 13);
        lemma_div_step(y, 4);
        lemma_div_step(y, 100);
        lemma_div_step(y, 400);
        assert(days_before_month(y + 1, 1) == 0);
    }
}

/// The day number of the first of January of year `y`.
pub open spec fn year_start(y: int) -> int {
    day_number(y, 1, 1)
}

fn year_start_exec(y: i64) -> (r: i64)
    requires
        -262143 <= y <= 262143,
    ensures
        r == year_start(y as int),
        -0x1000_0000 <= r <= 0x1000_0000,
{
    let p = (y - 1 + 280000) as u64;
    proof {
        vstd::arithmetic::div_mod::lemma_fundamental_div_mod_converse(y - 1, 4, p as int / 4 - 70000, p as int % 4);
        vstd::arithmetic::div_mod::lemma_fundamental_div_mod_converse(
            y - 1,
            100,
            p as int / 100 - 2800,
            p as int % 100,
        );
        vstd::arithmetic::div_mod::lemma_fundamental_div_mod_converse(
            y - 1,
            400,
            p as int / 400 - 700,
            p as int % 400,
        );
    }
    let q4 = (p / 4) as i64 - 70000;
    let q100 = (p / 100) as i64 - 2800;
    let q400 = (p / 400) as i64 - 700;
    365 * (y - 1) + q4 - q100 + q400 + 1
}

proof fn lemma_year_length(y: int)
    requires
        -262143 <= y < 262142,
    ensures
        year_start(y + 1) == year_start(y) + days_before_month(y, 12) + 31,
{
    reveal_with_fuel(days_before_month, 13);
    assert(valid_ymd(y, 12, 31));
    law_next_day(y, 12, 31);
}

/// Runs `chrono::NaiveDate::from_num_days_from_ce_opt` and reads the date's
/// year, month and day. Trusted: chrono has a date for exactly the day
/// numbers of its range (1 January -262143 to 31 December 262142), and that
/// date is the valid proleptic Gregorian date with this day number.
#[verifier::external_body]
fn naive_ymd(n: i32) -> (r: Option<(i32, u32, u32)>)
    ensures
        r is Some <==> year_start(-262143) <= n < year_start(262142) + 365,
        r matches Some(t) ==> valid_ymd(t.0 as int, t.1 as int, t.2 as int) && day_number(
            t.0 as int,
            t.1 as int,
            t.2 as int,
        ) == n,
{
    let date = chrono::NaiveDate::from_num_days_from_ce_opt(n)?;
    Some((date.year(), date.month(), date.day()))
}

/// The date of day number `n`: the year, month and day whose day number it is.
pub fn ymd_of(n: i64) -> (r: (i32, u32, u32))
    requires
        year_start(-262143) <= n < year_start(262142) + 365,
    ensures
        valid_ymd(r.0 as int, r.1 as int, r.2 as int),
        day_number(r.0 as int, r.1 as int, r.2 as int) == n,
{
    proof {
        lemma_calendar_bounds();
    }
    match naive_ymd(n as i32) {
        Some(t) => t,
        None => {
            proof {
                assert(false);
            }
            (1, 1, 1)
        },
    }
}

/// The calendar's day numbers fit in an `i32`.
proof fn lemma_calendar_bounds()
    ensures
        -0x1000_0000 < year_start(-262143),
        year_start(262142) + 365 < 0x1000_0000,
{
}

/// A number zero-padded to `w` digits.
pub open spec fn zero_pad(s: Seq<char>, w: nat) -> Seq<char> {
    if s.len() >= w {
        s
    } else {
        Seq::new((w - s.len()) as nat, |i: int| '0') + s
    }
}

/// A year as `%Y` writes it: four digits at least, with a sign outside
/// 0..=9999.
pub open spec fn year_text(y: int) -> Seq<char> {
    if 0 <= y <= 9999 {
        zero_pad(decimal(y as nat), 4)
    } else if y < 0 {
        seq!['-'] + zero_pad(decimal((-y) as nat), 4)
    } else {
        seq!['+'] + zero_pad(decimal(y as nat), 4)
    }
}

/// A date as `%Y-%m-%d` writes it.
pub open spec fn date_text(y: int, m: nat, d: nat) -> Seq<char> {
    year_text(y) + seq!['-'] + zero_pad(decimal(m), 2) + seq!['-'] + zero_pad(decimal(d), 2)
}

/// Runs `chrono::NaiveDate::from_ymd_opt` and writes the date with
/// `format("%Y-%m-%d")`. Trusted: chrono makes exactly the valid dates of its
/// range, and `%Y` writes the year with at least four digits and a sign
/// outside 0..=9999, `%m` and `%d` two digits each.
#[verifier::external_body]
fn naive_date_text(y: i32, m: u32, d: u32) -> (r: Option<String>)
    ensures
        r is Some <==> valid_ymd(y as int, m as int, d as int),
        r matches Some(t) ==> t@ == date_text(y as int, m as nat, d as nat),
{
    let date = chrono::NaiveDate::from_ymd_opt(y, m, d)?;
    Some(date.format("%Y-%m-%d").to_string())
}

/// A date as `%Y-%m-%d` writes it.
pub fn date_string(y: i32, m: u32, d: u32) -> (r: String)
    requires
        valid_ymd(y as int, m as int, d as int),
    ensures
        r@ == date_text(y as int, m as nat, d as nat),
{
    match naive_date_text(y, m, d) {
        Some(t) => t,
        None => {
            proof {
                assert(false);
            }
            String::new()
        },
    }
}

/// The weekday of day number `n`, Sunday being 0 (day 1 was a Monday).
pub open spec fn weekday_of(n: int) -> int {
    n % 7
}

/// Runs `chrono::NaiveDate::from_num_days_from_ce_opt` and reads the
/// date's weekday as `num_days_from_sunday`. Trusted: chrono has a date for
/// exactly the day numbers of its range, and its weekday counts on from day
/// 1, a Monday.
#[verifier::external_body]
fn naive_weekday(n: i32) -> (r: Option<u32>)
    ensures
        r is Some <==> year_start(-262143) <= n < year_start(262142) + 365,
        r matches Some(w) ==> w == weekday_of(n as int),
{
    let date = chrono::NaiveDate::from_num_days_from_ce_opt(n)?;
    Some(date.weekday().num_days_from_sunday())
}

/// The weekday of day number `n`, Sunday being 0.
pub fn weekday_from_sunday(n: i64) -> (r: u32)
    requires
        year_start(-262143) <= n < year_start(262142) + 365,
    ensures
        r == weekday_of(n as int),
        r < 7,
{
    proof {
        lemma_calendar_bounds();
    }
    match naive_weekday(n as i32) {
        Some(w) => w,
        None => {
            proof {
                assert(false);
            }
            0
        },
    }
}

proof fn lemma_within_year(y: int, m: int, d: int)
    requires
        valid_ymd(y, m, d),
    ensures
        year_start(y) <= day_number(y, m, d) <= year_start(y) - 1 + days_before_month(y, 12) + 31,
{
    reveal_with_fuel(days_before_month, 13);
}

proof fn lemma_years_ordered(y1: int, y2: int)
    requires
        -262143 <= y1 < y2 <= 262142,
    ensures
        year_start(y1) - 1 + days_before_month(y1, 12) + 31 < year_start(y2),
    decreases y2 - y1,
{
    lemma_year_length(y1);
    if y1 + 1 < y2 {
        lemma_years_ordered(y1 + 1, y2);
        reveal_with_fuel(days_before_month, 13);
    }
}

/// Distinct dates have distinct day numbers.
pub proof fn law_day_numbers_distinct(y1: int, m1: int, d1: int, y2: int, m2: int, d2: int)
    requires
        valid_ymd(y1, m1, d1),
        valid_ymd(y2, m2, d2),
        day_number(y1, m1, d1) == day_number(y2, m2, d2),
    ensures
        y1 == y2 && m1 == m2 && d1 == d2,
{
    lemma_within_year(y1, m1, d1);
    lemma_within_year(y2, m2, d2);
    if y1 < y2 {
        lemma_years_ordered(y1, y2);
    } else if y2 < y1 {
        lemma_years_ordered(y2, y1);
    }
    reveal_with_fuel(days_before_month, 13);
}

/// The date numbered `n`, for a day number of a date.
pub open spec fn ymd_at(n: int) -> (int, int, int) {
    choose|t: (int, int, int)| valid_ymd(t.0, t.1, t.2) && day_number(t.0, t.1, t.2) == n
}

/// The `%Y-%m-%d` text of the date numbered `n`.
pub open spec fn day_text(n: int) -> Seq<char> {
    date_text(ymd_at(n).0, ymd_at(n).1 as nat, ymd_at(n).2 as nat)
}

/// The date of day number `n`, as text.
pub fn day_string(n: i64) -> (r: String)
    requires
        year_start(-262143) <= n < year_start(262142) + 365,
    ensures
        r@ == day_text(n as int),
{
    let (y, m, d) = ymd_of(n);
    proof {
        let t = (y as int, m as int, d as int);
        assert(valid_ymd(t.0, t.1, t.2) && day_number(t.0, t.1, t.2) == n);
        let c = ymd_at(n as int);
        law_day_numbers_distinct(t.0, t.1, t.2, c.0, c.1, c.2);
    }
    date_string(y, m, d)
}

/// The dates of the days numbered `first` to `last`, in order.
pub fn dates_between(first: i64, last: i64) -> (r: Vec<String>)
    requires
        year_start(-262143) <= first,
        last < year_start(262142) + 365,
    ensures
        r@.len() == (if first <= last {
            last - first + 1
        } else {
            0
        }),
        forall|k: int| 0 <= k < r@.len() ==> #[trigger] r@[k]@ == day_text(first + k),
{
    let mut r: Vec<String> = Vec::new();
    if first > last {
        return r;
    }
    let mut n = first;
    while n <= last
        invariant
            year_start(-262143) <= first <= n,
            first <= last + 1,
            n <= last + 1,
            last < year_start(262142) + 365,
            r@.len() == n - first,
            forall|k: int| 0 <= k < r@.len() ==> #[trigger] r@[k]@ == day_text(first + k),
        decreases last + 1 - n,
    {
        let t = day_string(n);
        r.push(t);
        n = n + 1;
    }
    r
}

/// Whether `n` numbers a date of the calendar's range.
pub fn in_calendar(n: i64) -> (r: bool)
    ensures
        r == (year_start(-262143) <= n < year_start(262142) + 365),
{
    year_start_exec(-262143) <= n && n < year_start_exec(262142) + 365
}

} // verus!

