//! The calendar model: proleptic Gregorian dates as plain year/month/day
//! values, day-number and Unix-timestamp arithmetic, and the date parsers
//! used for query bounds, page-title dates, and wiki-native timestamps.

use vstd::prelude::*;

use crate::chars::{chars_of, digit, digit_val, is_digit, is_space, lower_char, space, to_lower};
use crate::error::Error;

verus! {

/// A calendar date in the proleptic Gregorian calendar.
#[derive(Clone, Copy, Debug, PartialEq, Eq, Structural)]
pub struct Date {
    pub year: i32,
    pub month: u8,
    pub day: u8,
}

pub open spec fn is_leap_year(y: int) -> bool {
    (y % 4 == 0 && y % 100 != 0) || y % 400 == 0
}

pub open spec fn days_in_month(y: int, m: int) -> int {
    if m == 2 {
        if is_leap_year(y) {
            29
        } else {
            28
        }
    } else if m == 4 || m == 6 || m == 9 || m == 11 {
        30
    } else {
        31
    }
}

/// The years this core works over: four-digit years, wide enough for every
/// date its parsers accept.
pub open spec fn year_supported(y: int) -> bool {
    1000 <= y <= 9999
}

pub open spec fn date_valid(d: Date) -> bool {
    &&& 1 <= d.month <= 12
    &&& 1 <= d.day <= days_in_month(d.year as int, d.month as int)
}

pub open spec fn year_length(y: int) -> int {
    if is_leap_year(y) {
        366
    } else {
        365
    }
}

/// Days from 1970-01-01 to the first day of year `y` (negative before 1970).
pub open spec fn days_before_year(y: int) -> int
    decreases (if y >= 1970 {
        y - 1970
    } else {
        1970 - y
    }),
{
    if y > 1970 {
        days_before_year(y - 1) + year_length(y - 1)
    } else if y < 1970 {
        days_before_year(y + 1) - year_length(y)
    } else {
        0
    }
}

pub open spec fn days_before_month(y: int, m: int) -> int
    decreases m,
{
    if m <= 1 {
        0
    } else {
        days_before_month(y, m - 1) + days_in_month(y, m - 1)
    }
}

/// Days since 1970-01-01.
pub open spec fn spec_day_number(d: Date) -> int {
    days_before_year(d.year as int) + days_before_month(d.year as int, d.month as int) + d.day - 1
}

/// Midnight UTC of the date, in Unix seconds.
pub open spec fn spec_date_timestamp(d: Date) -> int {
    spec_day_number(d) * 86400
}

fn leap_year(y: i32) -> (r: bool)
    requires
        y >= 1,
    ensures
        r == is_leap_year(y as int),
{
    (y % 4 == 0 && y % 100 != 0) || y % 400 == 0
}

fn month_length(y: i32, m: u8) -> (r: u8)
    requires
        y >= 1,
    ensures
        r as int == days_in_month(y as int, m as int),
{
    if m == 2 {
        if leap_year(y) {
            29
        } else {
            28
        }
    } else if m == 4 || m == 6 || m == 9 || m == 11 {
        30
    } else {
        31
    }
}

pub fn check_date(d: Date) -> (r: bool)
    requires
        d.year >= 1,
    ensures
        r == date_valid(d),
{
    1 <= d.month && d.month <= 12 && 1 <= d.day && d.day <= month_length(d.year, d.month)
}

/// Days since 1970-01-01, computed by summing year and month lengths.
pub fn day_number(d: Date) -> (r: i64)
    requires
        date_valid(d),
        year_supported(d.year as int),
    ensures
        r as int == spec_day_number(d),
        -400_000 <= r <= 3_000_000,
{
    let mut days: i64 = 0;
    if d.year >= 1970 {
        let mut y: i32 = 1970;
        while y < d.year
            invariant
                1970 <= y <= d.year <= 9999,
                days == days_before_year(y as int),
                0 <= days <= 366 * (y - 1970),
            decreases d.year - y,
        {
            days = days + if leap_year(y) {
                366
            } else {
                365
            };
            y = y + 1;
        }
    } else {
        let mut y: i32 = 1970;
        while y > d.year
            invariant
                1000 <= d.year <= y <= 1970,
                days == days_before_year(y as int),
                -366 * (1970 - y) <= days <= 0,
            decreases y - d.year,
        {
            y = y - 1;
            days = days - if leap_year(y) {
                366
            } else {
                365
            };
        }
    }
    let mut md: i64 = 0;
    let mut m: u8 = 1;
    while m < d.month
        invariant
            1 <= m <= d.month <= 12,
            1000 <= d.year <= 9999,
            md == days_before_month(d.year as int, m as int),
            0 <= md <= 31 * (m - 1),
        decreases d.month - m,
    {
        md = md + month_length(d.year, m) as i64;
        m = m + 1;
    }
    days + md + d.day as i64 - 1
}

/// Midnight UTC of the date, in Unix seconds.
pub fn date_timestamp(d: Date) -> (r: i64)
    requires
        date_valid(d),
        year_supported(d.year as int),
    ensures
        r as int == spec_date_timestamp(d),
        -40_000_000_000 <= r <= 260_000_000_000,
{
    day_number(d) * 86400
}

// ---- scanning helpers ----

/// Length of the run of decimal digits starting at `i`.
pub open spec fn digit_run_len(s: Seq<char>, i: int) -> int
    decreases s.len() - i when 0 <= i <= s.len()
{
    if i < s.len() && is_digit(s[i]) {
        1 + digit_run_len(s, i + 1)
    } else {
        0
    }
}

/// Value of the `n` digits starting at `i`.
pub open spec fn num_val(s: Seq<char>, i: int, n: int) -> int
    decreases n,
{
    if n <= 0 {
        0
    } else {
        num_val(s, i, n - 1) * 10 + digit_val(s[i + n - 1])
    }
}

pub open spec fn pow10(n: int) -> int
    decreases n,
{
    if n <= 0 {
        1
    } else {
        10 * pow10(n - 1)
    }
}

proof fn lemma_digit_run_nonneg(s: Seq<char>, i: int)
    requires
        0 <= i <= s.len(),
    ensures
        0 <= digit_run_len(s, i) <= s.len() - i,
    decreases s.len() - i,
{
    if i < s.len() && is_digit(s[i]) {
        lemma_digit_run_nonneg(s, i + 1);
    }
}

proof fn lemma_digit_run(s: Seq<char>, i: int, n: int)
    requires
        0 <= i,
        i + n <= s.len(),
        0 <= n,
        forall|k: int| i <= k < i + n ==> is_digit(#[trigger] s[k]),
    ensures
        digit_run_len(s, i) >= n,
        i + n == s.len() || !is_digit(s[i + n]) ==> digit_run_len(s, i) == n,
    decreases n,
{
    if n > 0 {
        assert(is_digit(s[i]));
        lemma_digit_run(s, i + 1, n - 1);
    } else {
        lemma_digit_run_nonneg(s, i);
    }
}

proof fn lemma_num_val_bound(s: Seq<char>, i: int, n: int)
    requires
        0 <= i,
        i + n <= s.len(),
        0 <= n,
        forall|k: int| i <= k < i + n ==> is_digit(#[trigger] s[k]),
    ensures
        0 <= num_val(s, i, n) < pow10(n),
    decreases n,
{
    if n > 0 {
        lemma_num_val_bound(s, i, n - 1);
        assert(is_digit(s[i + n - 1]));
        assert(0 <= digit_val(s[i + n - 1]) < 10);
    }
}

proof fn lemma_pow10_pos(n: int)
    ensures
        pow10(n) >= 1,
    decreases (if n >= 0 {
        n
    } else {
        0
    }),
{
    if n > 0 {
        lemma_pow10_pos(n - 1);
    }
}

proof fn lemma_pow10_le(a: int, b: int)
    requires
        a <= b,
    ensures
        pow10(a) <= pow10(b),
        pow10(a) >= 1,
    decreases b - a,
{
    lemma_pow10_pos(a);
    if a < b {
        lemma_pow10_le(a, b - 1);
        lemma_pow10_pos(b - 1);
    }
}

proof fn lemma_pow10_small()
    ensures
        pow10(1) == 10,
        pow10(2) == 100,
        pow10(4) == 10000,
{
    reveal_with_fuel(pow10, 5);
}

/// Reads up to `cap` decimal digits starting at `i`, returning how many were
/// read (the digit run, capped) and their value.
fn scan_number(v: &Vec<char>, i: usize, cap: usize) -> (r: (usize, u32))
    requires
        i <= v@.len(),
        1 <= cap <= 8,
    ensures
        r.0 == vstd::math::min(cap as int, digit_run_len(v@, i as int)),
        r.1 as int == num_val(v@, i as int, r.0 as int),
        (r.1 as int) < pow10(r.0 as int),
        i + r.0 <= v@.len(),
{
    proof {
        lemma_digit_run_nonneg(v@, i as int);
    }
    let mut n: usize = 0;
    let mut val: u32 = 0;
    while n < cap && n < v.len() - i && digit(v[i + n])
        invariant
            0 <= n <= cap <= 8,
            i + n <= v@.len(),
            forall|k: int| i <= k < i + n ==> is_digit(#[trigger] v@[k]),
            val as int == num_val(v@, i as int, n as int),
            val < 100_000_000,
        decreases cap - n,
    {
        proof {
            lemma_num_val_bound(v@, i as int, n as int + 1);
            lemma_pow10_le(n as int + 1, 8);
            reveal_with_fuel(pow10, 9);
            assert(pow10(8) == 100_000_000);
        }
        val = val * 10 + (v[i + n] as u32 - 48);
        n = n + 1;
    }
    proof {
        lemma_digit_run(v@, i as int, n as int);
        if n < cap && (i + n == v@.len() || !is_digit(v@[i as int + n])) {
            assert(digit_run_len(v@, i as int) == n);
        }
        lemma_num_val_bound(v@, i as int, n as int);
    }
    (n, val)
}

/// First position at or after `i` that is not ASCII whitespace.
pub open spec fn skip_ws_spec(s: Seq<char>, i: int) -> int
    decreases s.len() - i when 0 <= i <= s.len()
{
    if i < s.len() && is_space(s[i]) {
        skip_ws_spec(s, i + 1)
    } else {
        i
    }
}

fn skip_ws(v: &Vec<char>, i: usize) -> (r: usize)
    requires
        i <= v@.len(),
    ensures
        r == skip_ws_spec(v@, i as int),
        i <= r <= v@.len(),
{
    let mut k: usize = i;
    while k < v.len() && space(v[k])
        invariant
            i <= k <= v@.len(),
            skip_ws_spec(v@, i as int) == skip_ws_spec(v@, k as int),
        decreases v@.len() - k,
    {
        k = k + 1;
    }
    k
}

// ---- month names ----

/// Month number of a three-letter English month abbreviation, compared
/// case-insensitively; 0 if the three characters are no such abbreviation.
pub open spec fn month_num(a0: char, b0: char, c0: char) -> int {
    let a = lower_char(a0);
    let b = lower_char(b0);
    let c = lower_char(c0);
    if a == 'j' && b == 'a' && c == 'n' {
        1
    } else if a == 'f' && b == 'e' && c == 'b' {
        2
    } else if a == 'm' && b == 'a' && c == 'r' {
        3
    } else if a == 'a' && b == 'p' && c == 'r' {
        4
    } else if a == 'm' && b == 'a' && c == 'y' {
        5
    } else if a == 'j' && b == 'u' && c == 'n' {
        6
    } else if a == 'j' && b == 'u' && c == 'l' {
        7
    } else if a == 'a' && b == 'u' && c == 'g' {
        8
    } else if a == 's' && b == 'e' && c == 'p' {
        9
    } else if a == 'o' && b == 'c' && c == 't' {
        10
    } else if a == 'n' && b == 'o' && c == 'v' {
        11
    } else if a == 'd' && b == 'e' && c == 'c' {
        12
    } else {
        0
    }
}

fn month_abbrev(a0: char, b0: char, c0: char) -> (r: u8)
    ensures
        r as int == month_num(a0, b0, c0),
{
    let a = to_lower(a0);
    let b = to_lower(b0);
    let c = to_lower(c0);
    if a == 'j' && b == 'a' && c == 'n' {
        1
    } else if a == 'f' && b == 'e' && c == 'b' {
        2
    } else if a == 'm' && b == 'a' && c == 'r' {
        3
    } else if a == 'a' && b == 'p' && c == 'r' {
        4
    } else if a == 'm' && b == 'a' && c == 'y' {
        5
    } else if a == 'j' && b == 'u' && c == 'n' {
        6
    } else if a == 'j' && b == 'u' && c == 'l' {
        7
    } else if a == 'a' && b == 'u' && c == 'g' {
        8
    } else if a == 's' && b == 'e' && c == 'p' {
        9
    } else if a == 'o' && b == 'c' && c == 't' {
        10
    } else if a == 'n' && b == 'o' && c == 'v' {
        11
    } else if a == 'd' && b == 'e' && c == 'c' {
        12
    } else {
        0
    }
}

// ---- title-date formats ----
// Prefix parses: text may follow what a format matched. A year is a maximal
// run of exactly four digits.

/// Four-digit year at `i`: the digit run there has length exactly four.
pub open spec fn spec_year4(s: Seq<char>, i: int) -> Option<int> {
    if 0 <= i <= s.len() && digit_run_len(s, i) == 4 {
        Some(num_val(s, i, 4))
    } else {
        None
    }
}

/// `Jan 1, 2023` and `Jan 01, 2023`: month abbreviation, day, comma, year.
pub open spec fn spec_fmt_month_day_year(s: Seq<char>) -> Option<Date> {
    if s.len() < 3 {
        None
    } else {
        let m = month_num(s[0], s[1], s[2]);
        if m == 0 {
            None
        } else {
            let i = skip_ws_spec(s, 3);
            let dn = vstd::math::min(2, digit_run_len(s, i));
            if dn == 0 {
                None
            } else {
                let day = num_val(s, i, dn);
                let j = i + dn;
                if j < s.len() && s[j] == ',' {
                    let k = skip_ws_spec(s, j + 1);
                    match spec_year4(s, k) {
                        Some(y) => Some(
                            Date { year: y as i32, month: m as u8, day: day as u8 },
                        ),
                        None => None,
                    }
                } else {
                    None
                }
            }
        }
    }
}

/// Year, a literal, month, the same literal again or a second one, day:
/// covers `2023-01-02` and `2023年01月02日`.
pub open spec fn spec_fmt_ymd(s: Seq<char>, sep1: char, sep2: char, tail: Option<char>) -> Option<
    Date,
> {
    match spec_year4(s, 0) {
        None => None,
        Some(y) => {
            if 4 < s.len() && s[4] == sep1 {
                let mn = vstd::math::min(2, digit_run_len(s, 5));
                if mn == 0 {
                    None
                } else {
                    let m = num_val(s, 5, mn);
                    let j = 5 + mn;
                    if j < s.len() && s[j] == sep2 {
                        let dn = vstd::math::min(2, digit_run_len(s, j + 1));
                        if dn == 0 {
                            None
                        } else {
                            let d = num_val(s, j + 1, dn);
                            let k = j + 1 + dn;
                            match tail {
                                None => Some(
                                    Date { year: y as i32, month: m as u8, day: d as u8 },
                                ),
                                Some(t) => if k < s.len() && s[k] == t {
                                    Some(Date { year: y as i32, month: m as u8, day: d as u8 })
                                } else {
                                    None
                                },
                            }
                        }
                    } else {
                        None
                    }
                }
            } else {
                None
            }
        },
    }
}

/// `2023-01`: year, separator, month; the day defaults to 1.
pub open spec fn spec_fmt_year_month(s: Seq<char>) -> Option<Date> {
    match spec_year4(s, 0) {
        None => None,
        Some(y) => {
            if 4 < s.len() && s[4] == '-' {
                let mn = vstd::math::min(2, digit_run_len(s, 5));
                if mn == 0 {
                    None
                } else {
                    Some(Date { year: y as i32, month: num_val(s, 5, mn) as u8, day: 1 })
                }
            } else {
                None
            }
        },
    }
}

/// `2023 Jan`: year, whitespace, month abbreviation; the day defaults to 1.
pub open spec fn spec_fmt_year_month_name(s: Seq<char>) -> Option<Date> {
    match spec_year4(s, 0) {
        None => None,
        Some(y) => {
            let i = skip_ws_spec(s, 4);
            if i + 3 <= s.len() {
                let m = month_num(s[i], s[i + 1], s[i + 2]);
                if m == 0 {
                    None
                } else {
                    Some(Date { year: y as i32, month: m as u8, day: 1 })
                }
            } else {
                None
            }
        },
    }
}

/// `2023`: a bare year; month and day default to 1.
pub open spec fn spec_fmt_year(s: Seq<char>) -> Option<Date> {
    match spec_year4(s, 0) {
        None => None,
        Some(y) => Some(Date { year: y as i32, month: 1, day: 1 }),
    }
}

/// A format hit counts only if the year lies in the supported title-date
/// window and the date is real; otherwise the next format gets its turn.
pub open spec fn spec_accept(od: Option<Date>) -> Option<Date> {
    match od {
        Some(d) => if 1678 <= d.year <= 2262 && date_valid(d) {
            Some(d)
        } else {
            None
        },
        None => None,
    }
}

/// Underscores read as spaces, as in wiki page titles.
pub open spec fn spec_underscores_to_spaces(s: Seq<char>) -> Seq<char> {
    s.map_values(
        |c: char|
            if c == '_' {
                ' '
            } else {
                c
            },
    )
}

/// The date a page title carries, if any: the first of the supported formats
/// that matches a prefix of the title (underscores read as spaces) and names
/// a real date in the supported window.
pub open spec fn spec_title_date(s: Seq<char>) -> Option<Date> {
    let t = spec_underscores_to_spaces(s);
    if spec_accept(spec_fmt_month_day_year(t)) is Some {
        spec_accept(spec_fmt_month_day_year(t))
    } else if spec_accept(spec_fmt_ymd(t, '-', '-', None)) is Some {
        spec_accept(spec_fmt_ymd(t, '-', '-', None))
    } else if spec_accept(spec_fmt_ymd(t, '年', '月', Some('日'))) is Some {
        spec_accept(spec_fmt_ymd(t, '年', '月', Some('日')))
    } else if spec_accept(spec_fmt_year_month(t)) is Some {
        spec_accept(spec_fmt_year_month(t))
    } else if spec_accept(spec_fmt_year_month_name(t)) is Some {
        spec_accept(spec_fmt_year_month_name(t))
    } else if spec_accept(spec_fmt_year(t)) is Some {
        spec_accept(spec_fmt_year(t))
    } else {
        None
    }
}

/// The optional calendar date parsed from a page title.
#[derive(Clone, Debug, PartialEq)]
pub struct TitleDate(pub Option<Date>);

impl TitleDate {
    /// Any date held is real and within the supported year window.
    pub open spec fn wf(self) -> bool {
        match self.0 {
            Some(d) => date_valid(d) && year_supported(d.year as int),
            None => true,
        }
    }

    /// Tries each supported title-date format in turn; a title that carries
    /// no recognizable date yields `TitleDate(None)`, never an error.
    pub fn parse(s: &str) -> (r: TitleDate)
        ensures
            r.0 == spec_title_date(s@),
            r.wf(),
    {
        let v = chars_of(s);
        let mut t: Vec<char> = Vec::new();
        let mut k: usize = 0;
        while k < v.len()
            invariant
                0 <= k <= v@.len(),
                t@.len() == k,
                forall|j: int|
                    0 <= j < k ==> t@[j] == (if v@[j] == '_' {
                        ' '
                    } else {
                        v@[j]
                    }),
            decreases v@.len() - k,
        {
            let c = v[k];
            t.push(if c == '_' {
                ' '
            } else {
                c
            });
            k = k + 1;
        }
        proof {
            assert(t@ =~= spec_underscores_to_spaces(s@));
        }

        let r1 = accept(fmt_month_day_year(&t));
        if r1.is_some() {
            return TitleDate(r1);
        }
        let r2 = accept(fmt_ymd(&t, '-', '-', None));
        if r2.is_some() {
            return TitleDate(r2);
        }
        let r3 = accept(fmt_ymd(&t, '年', '月', Some('日')));
        if r3.is_some() {
            return TitleDate(r3);
        }
        let r4 = accept(fmt_year_month(&t));
        if r4.is_some() {
            return TitleDate(r4);
        }
        let r5 = accept(fmt_year_month_name(&t));
        if r5.is_some() {
            return TitleDate(r5);
        }
        let r6 = accept(fmt_year(&t));
        TitleDate(r6)
    }

    /// Midnight UTC of the carried date, in Unix seconds.
    pub fn timestamp(&self) -> (r: Option<i64>)
        requires
            self.wf(),
        ensures
            match self.0 {
                Some(d) => r matches Some(t) && t as int == spec_date_timestamp(d),
                None => r is None,
            },
    {
        match self.0 {
            Some(d) => Some(date_timestamp(d)),
            None => None,
        }
    }
}

fn accept(od: Option<Date>) -> (r: Option<Date>)
    ensures
        r == spec_accept(od),
        r matches Some(d) ==> date_valid(d) && year_supported(d.year as int),
{
    match od {
        Some(d) => {
            if 1678 <= d.year && d.year <= 2262 && check_date(d) {
                Some(d)
            } else {
                None
            }
        },
        None => None,
    }
}

fn year4(v: &Vec<char>, i: usize) -> (r: Option<u32>)
    requires
        i <= v@.len(),
    ensures
        match r {
            Some(y) => spec_year4(v@, i as int) == Some(y as int) && y < 10000 && i + 4
                <= v@.len(),
            None => spec_year4(v@, i as int) is None,
        },
{
    let (n, val) = scan_number(v, i, 5);
    if n == 4 {
        proof {
            lemma_pow10_small();
        }
        Some(val)
    } else {
        None
    }
}

fn fmt_month_day_year(v: &Vec<char>) -> (r: Option<Date>)
    ensures
        r == spec_fmt_month_day_year(v@),
{
    if v.len() < 3 {
        return None;
    }
    let m = month_abbrev(v[0], v[1], v[2]);
    if m == 0 {
        return None;
    }
    let i = skip_ws(v, 3);
    let (dn, day) = scan_number(v, i, 2);
    if dn == 0 {
        return None;
    }
    let j = i + dn;
    if j < v.len() && v[j] == ',' {
        let k = skip_ws(v, j + 1);
        match year4(v, k) {
            Some(y) => Some(Date { year: y as i32, month: m, day: day as u8 }),
            None => None,
        }
    } else {
        None
    }
}

fn fmt_ymd(v: &Vec<char>, sep1: char, sep2: char, tail: Option<char>) -> (r: Option<Date>)
    ensures
        r == spec_fmt_ymd(v@, sep1, sep2, tail),
{
    let y = match year4(v, 0) {
        Some(y) => y,
        None => {
            return None;
        },
    };
    if !(4 < v.len() && v[4] == sep1) {
        return None;
    }
    let (mn, m) = scan_number(v, 5, 2);
    if mn == 0 {
        return None;
    }
    let j = 5 + mn;
    if !(j < v.len() && v[j] == sep2) {
        return None;
    }
    let (dn, d) = scan_number(v, j + 1, 2);
    if dn == 0 {
        return None;
    }
    let k = j + 1 + dn;
    match tail {
        None => Some(Date { year: y as i32, month: m as u8, day: d as u8 }),
        Some(t) => {
            if k < v.len() && v[k] == t {
                Some(Date { year: y as i32, month: m as u8, day: d as u8 })
            } else {
                None
            }
        },
    }
}

fn fmt_year_month(v: &Vec<char>) -> (r: Option<Date>)
    ensures
        r == spec_fmt_year_month(v@),
{
    let y = match year4(v, 0) {
        Some(y) => y,
        None => {
            return None;
        },
    };
    if !(4 < v.len() && v[4] == '-') {
        return None;
    }
    let (mn, m) = scan_number(v, 5, 2);
    if mn == 0 {
        return None;
    }
    Some(Date { year: y as i32, month: m as u8, day: 1 })
}

fn fmt_year_month_name(v: &Vec<char>) -> (r: Option<Date>)
    ensures
        r == spec_fmt_year_month_name(v@),
{
    let y = match year4(v, 0) {
        Some(y) => y,
        None => {
            return None;
        },
    };
    let i = skip_ws(v, 4);
    if v.len() - i >= 3 {
        let m = month_abbrev(v[i], v[i + 1], v[i + 2]);
        if m == 0 {
            None
        } else {
            Some(Date { year: y as i32, month: m, day: 1 })
        }
    } else {
        None
    }
}

fn fmt_year(v: &Vec<char>) -> (r: Option<Date>)
    ensures
        r == spec_fmt_year(v@),
{
    match year4(v, 0) {
        Some(y) => Some(Date { year: y as i32, month: 1, day: 1 }),
        None => None,
    }
}

// ---- strict query-bound dates ----

/// A query date bound `YYYY-MM-DD`, the whole string: a four-digit year in
/// 1700..=2200, one- or two-digit month and day, naming a real date; its
/// value is midnight UTC in Unix seconds.
pub open spec fn spec_parse_date(s: Seq<char>) -> Option<int> {
    match spec_fmt_ymd(s, '-', '-', None) {
        None => None,
        Some(d) => {
            let mn = vstd::math::min(2, digit_run_len(s, 5));
            let j = 5 + mn;
            let dn = vstd::math::min(2, digit_run_len(s, j + 1));
            if j + 1 + dn == s.len() && 1700 <= d.year <= 2200 && date_valid(d) {
                Some(spec_date_timestamp(d))
            } else {
                None
            }
        },
    }
}

/// Parses a `YYYY-MM-DD` query bound; anything else, the empty string
/// included, is an `InvalidDate` error carrying the input.
pub fn parse_date(s: &str) -> (r: Result<i64, Error>)
    ensures
        match r {
            Ok(t) => spec_parse_date(s@) == Some(t as int),
            Err(e) => spec_parse_date(s@) is None && (e matches Error::InvalidDate(m)
                && m@ == s@),
        },
{
    let v = chars_of(s);
    let d = match fmt_ymd(&v, '-', '-', None) {
        Some(d) => d,
        None => {
            return Err(Error::InvalidDate(s.to_owned()));
        },
    };
    let (mn, _m) = scan_number(&v, 5, 2);
    let j = 5 + mn;
    let (dn, _d) = scan_number(&v, j + 1, 2);
    if j + 1 + dn == v.len() && 1700 <= d.year && d.year <= 2200 && check_date(d) {
        Ok(date_timestamp(d))
    } else {
        Err(Error::InvalidDate(s.to_owned()))
    }
}

// ---- wiki-native timestamps ----

/// A wiki-native `YYYYMMDDHHMMSS` timestamp: fourteen digits naming a real
/// date in the supported year window and a real time of day; its value in
/// Unix seconds.
pub open spec fn spec_parse_wiki_timestamp(s: Seq<char>) -> Option<int> {
    if s.len() == 14 && digit_run_len(s, 0) == 14 {
        let y = num_val(s, 0, 4);
        let mo = num_val(s, 4, 2);
        let d = num_val(s, 6, 2);
        let h = num_val(s, 8, 2);
        let mi = num_val(s, 10, 2);
        let se = num_val(s, 12, 2);
        let date = Date { year: y as i32, month: mo as u8, day: d as u8 };
        if year_supported(y) && date_valid(date) && h < 24 && mi < 60 && se < 60 {
            Some(spec_date_timestamp(date) + h * 3600 + mi * 60 + se)
        } else {
            None
        }
    } else {
        None
    }
}

/// A point in time from the wiki's native storage, in Unix seconds.
#[derive(Clone, Copy, Debug, PartialEq, Eq, Structural)]
pub struct WikiTimestamp(pub i64);

impl WikiTimestamp {
    /// Parses a `YYYYMMDDHHMMSS` wiki timestamp; anything else is an
    /// `InvalidDate` error carrying the input.
    pub fn parse(s: &str) -> (r: Result<WikiTimestamp, Error>)
        ensures
            match r {
                Ok(w) => spec_parse_wiki_timestamp(s@) == Some(w.0 as int),
                Err(e) => spec_parse_wiki_timestamp(s@) is None && (e
                    matches Error::InvalidDate(m) && m@ == s@),
            },
    {
        let v = chars_of(s);
        if v.len() != 14 {
            return Err(Error::InvalidDate(s.to_owned()));
        }
        let (rn, _all) = scan_number(&v, 0, 8);
        if rn != 8 {
            return Err(Error::InvalidDate(s.to_owned()));
        }
        let (rn2, _all2) = scan_number(&v, 8, 6);
        if rn2 != 6 {
            proof {
                if digit_run_len(v@, 0) == 14 {
                    lemma_digit_run_concat(v@, 0, 14, 0);
                    lemma_digit_run(v@, 8, 6);
                }
            }
            return Err(Error::InvalidDate(s.to_owned()));
        }
        proof {
            lemma_pow10_small();
            lemma_digit_run_concat(v@, 0, 8, 0);
            lemma_digit_run_concat(v@, 8, 6, 0);
            lemma_digit_run(v@, 0, 14);
            lemma_digit_run(v@, 4, 2);
            lemma_digit_run(v@, 6, 2);
            lemma_digit_run(v@, 8, 2);
            lemma_digit_run(v@, 10, 2);
            lemma_digit_run(v@, 12, 2);
        }
        let (_n1, y) = scan_number(&v, 0, 4);
        let (_n2, mo) = scan_number(&v, 4, 2);
        let (_n3, d) = scan_number(&v, 6, 2);
        let (_n4, h) = scan_number(&v, 8, 2);
        let (_n5, mi) = scan_number(&v, 10, 2);
        let (_n6, se) = scan_number(&v, 12, 2);
        let date = Date { year: y as i32, month: mo as u8, day: d as u8 };
        if 1000 <= y && y <= 9999 && check_date(date) && h < 24 && mi < 60 && se < 60 {
            Ok(WikiTimestamp(date_timestamp(date) + h as i64 * 3600 + mi as i64 * 60 + se as i64))
        } else {
            Err(Error::InvalidDate(s.to_owned()))
        }
    }

    pub fn timestamp(&self) -> (r: i64)
        ensures
            r == self.0,
    {
        self.0
    }
}

/// A digit run of length `a + b` at `i` contains a run of at least `a`
/// digits at `i` and at least `b` at `i + a`.
proof fn lemma_digit_run_concat(s: Seq<char>, i: int, a: int, b: int)
    requires
        0 <= i,
        0 <= a,
        0 <= b,
        i + a + b <= s.len(),
        digit_run_len(s, i) >= a + b,
    ensures
        forall|k: int| i <= k < i + a + b ==> is_digit(#[trigger] s[k]),
    decreases a + b,
{
    if a + b > 0 {
        assert(is_digit(s[i]));
        lemma_digit_run_concat(s, i + 1, if a > 0 {
            a - 1
        } else {
            0
        }, if a > 0 {
            b
        } else {
            b - 1
        });
    }
}

} // verus!
