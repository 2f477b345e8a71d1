//! The calendar renderer: proleptic Gregorian date arithmetic, month and
//! year validation, and the 8-row, 22-column month grid.

use vstd::prelude::*;
use crate::textfmt::{
    dec_digits, dec_int, to_decimal, to_decimal_signed, pad_left_spec, pad_left,
    pad_right_spec, pad_right, center_spec, center, spaces, space_string, join_spec,
    join_strings, lower_of, to_lower,
};

verus! {

/// A calendar date as plain values.
#[derive(Clone, Copy, Debug)]
pub struct Date {
    pub year: i32,
    pub month: u32,
    pub day: u32,
}

/// A Gregorian leap year.
pub open spec fn is_leap(y: int) -> bool {
    y % 4 == 0 && (y % 100 != 0 || y % 400 == 0)
}

/// Days in one month of one year.
pub open spec fn days_in_month(y: int, m: int) -> int {
    if m == 2 {
        if is_leap(y) { 29 } else { 28 }
    } else if m == 4 || m == 6 || m == 9 || m == 11 {
        30
    } else {
        31
    }
}

/// Days of year `y` that lie before month `m`.
pub open spec fn days_before_month(y: int, m: int) -> int
    decreases m,
{
    if m <= 1 {
        0
    } else {
        days_before_month(y, m - 1) + days_in_month(y, m - 1)
    }
}

/// Days before the first of January of year `y`, counted from the first
/// of January of year one, proleptic Gregorian.
pub open spec fn days_before_year(y: int) -> int {
    365 * (y - 1) + (y - 1) / 4 - (y - 1) / 100 + (y - 1) / 400
}

/// Days between the first of January of year one (day zero, a Monday) and
/// the given date.
pub open spec fn day_number(y: int, m: int, d: int) -> int {
    days_before_year(y) + days_before_month(y, m) + (d - 1)
}

/// Weekday counted from Sunday as one through Saturday as seven.
pub open spec fn weekday_from_sunday(y: int, m: int, d: int) -> int {
    (day_number(y, m, d) + 1) % 7 + 1
}

/// The last day of a month: its day count.
pub fn last_day_in_month(year: i32, month: u32) -> (r: u32)
    requires
        1 <= year <= 9999,
        1 <= month <= 12,
    ensures
        r == days_in_month(year as int, month as int),
{
    if month == 2 {
        let leap = year % 4 == 0 && (year % 100 != 0 || year % 400 == 0);
        if leap { 29 } else { 28 }
    } else if month == 4 || month == 6 || month == 9 || month == 11 {
        30
    } else {
        31
    }
}

/// The weekday of the first of the month, counted from Sunday as one.
pub fn first_weekday(year: i32, month: u32) -> (r: u32)
    requires
        1 <= year <= 9999,
        1 <= month <= 12,
    ensures
        r == weekday_from_sunday(year as int, month as int, 1),
        1 <= r <= 7,
{
    let y: u64 = (year as u64) - 1;
    let mut before: u64 = 365 * y + y / 4 - y / 100 + y / 400;
    proof {
        assert(y / 100 <= y / 4) by {
            vstd::arithmetic::div_mod::lemma_div_is_ordered_by_denominator(y as int, 4, 100);
        };
        assert(before == days_before_year(year as int));
    }
    let mut m: u32 = 1;
    while m < month
        invariant
            1 <= m <= month,
            month <= 12,
            1 <= year <= 9999,
            before == days_before_year(year as int) + days_before_month(year as int, m as int),
            before <= 3_660_000 + 31 * (m - 1),
        decreases month - m,
    {
        before = before + last_day_in_month(year, m) as u64;
        m = m + 1;
    }
    let wd = ((before + 1) % 7 + 1) as u32;
    proof {
        assert(before == day_number(year as int, month as int, 1));
        assert((before + 1) as int % 7 == (day_number(year as int, month as int, 1) + 1) % 7);
    }
    wd
}

/// The message for a year outside one through 9999.
pub open spec fn year_msg(y: int) -> Seq<char> {
    "year \""@ + dec_int(y) + "\" not in the range 1 through 9999"@
}

/// Accept a year between one and 9999.
pub fn parse_year(year: i32) -> (r: Result<i32, String>)
    ensures
        r is Ok <==> 1 <= year <= 9999,
        r is Ok ==> r->Ok_0 == year,
        r is Err ==> r->Err_0@ == year_msg(year as int),
{
    if 1 <= year && year <= 9999 {
        Ok(year)
    } else {
        let mut m = "year \"".to_owned();
        let d = to_decimal_signed(year);
        m.append(d.as_str());
        m.append("\" not in the range 1 through 9999");
        proof {
            assert(m@ =~= year_msg(year as int));
        }
        Err(m)
    }
}

/// The English month names.
pub open spec fn month_name_spec(m: int) -> Seq<char> {
    if m == 1 { "January"@ }
    else if m == 2 { "February"@ }
    else if m == 3 { "March"@ }
    else if m == 4 { "April"@ }
    else if m == 5 { "May"@ }
    else if m == 6 { "June"@ }
    else if m == 7 { "July"@ }
    else if m == 8 { "August"@ }
    else if m == 9 { "September"@ }
    else if m == 10 { "October"@ }
    else if m == 11 { "November"@ }
    else { "December"@ }
}

/// The English month names in lowercase, for prefix matching.
pub open spec fn month_lower_spec(m: int) -> Seq<char> {
    if m == 1 { "january"@ }
    else if m == 2 { "february"@ }
    else if m == 3 { "march"@ }
    else if m == 4 { "april"@ }
    else if m == 5 { "may"@ }
    else if m == 6 { "june"@ }
    else if m == 7 { "july"@ }
    else if m == 8 { "august"@ }
    else if m == 9 { "september"@ }
    else if m == 10 { "october"@ }
    else if m == 11 { "november"@ }
    else { "december"@ }
}

/// The name of a month.
pub fn month_name(m: u32) -> (r: &'static str)
    requires
        1 <= m <= 12,
    ensures
        r@ == month_name_spec(m as int),
{
    match m {
        1 => "January",
        2 => "February",
        3 => "March",
        4 => "April",
        5 => "May",
        6 => "June",
        7 => "July",
        8 => "August",
        9 => "September",
        10 => "October",
        11 => "November",
        _ => "December",
    }
}

/// The lowercase name of a month.
fn month_name_lower(m: u32) -> (r: &'static str)
    requires
        1 <= m <= 12,
    ensures
        r@ == month_lower_spec(m as int),
{
    match m {
        1 => "january",
        2 => "february",
        3 => "march",
        4 => "april",
        5 => "may",
        6 => "june",
        7 => "july",
        8 => "august",
        9 => "september",
        10 => "october",
        11 => "november",
        _ => "december",
    }
}

/// `p` is a prefix of `s`.
pub open spec fn is_prefix(p: Seq<char>, s: Seq<char>) -> bool {
    p.len() <= s.len() && p == s.subrange(0, p.len() as int)
}

/// Whether `p` begins `s`.
pub fn is_prefix_exec(p: &str, s: &str) -> (r: bool)
    ensures
        r == is_prefix(p@, s@),
{
    let np = p.unicode_len();
    let ns = s.unicode_len();
    if np > ns {
        return false;
    }
    let mut i: usize = 0;
    while i < np
        invariant
            np == p@.len(),
            ns == s@.len(),
            np <= ns,
            i <= np,
            forall|j: int| 0 <= j < i ==> p@[j] == s@[j],
        decreases np - i,
    {
        if p.get_char(i) != s.get_char(i) {
            proof {
                assert(p@[i as int] != s@.subrange(0, np as int)[i as int]);
            }
            return false;
        }
        i = i + 1;
    }
    proof {
        assert(p@ =~= s@.subrange(0, np as int));
    }
    true
}

/// How many month names the lowered input begins, among months one
/// through `m`.
pub open spec fn prefix_matches(lower: Seq<char>, m: int) -> int
    decreases m,
{
    if m <= 0 {
        0
    } else {
        prefix_matches(lower, m - 1) + if is_prefix(lower, month_lower_spec(m)) { 1int } else { 0int }
    }
}

/// The last month among one through `m` whose name the lowered input
/// begins, or zero.
pub open spec fn last_prefix_match(lower: Seq<char>, m: int) -> int
    decreases m,
{
    if m <= 0 {
        0
    } else if is_prefix(lower, month_lower_spec(m)) {
        m
    } else {
        last_prefix_match(lower, m - 1)
    }
}

/// The numeric shape the month argument may take: an optional plus sign,
/// then decimal digits whose value fits the machine's 32-bit range.
pub open spec fn u32_shape(s: Seq<char>) -> bool {
    let t = if s.len() > 0 && s[0] == '+' { s.skip(1) } else { s };
    t.len() > 0 && crate::pos::all_digits(t) && crate::pos::dec_value(t) <= u32::MAX as nat
}

/// The numeric value of such an argument.
pub open spec fn u32_value(s: Seq<char>) -> nat {
    let t = if s.len() > 0 && s[0] == '+' { s.skip(1) } else { s };
    crate::pos::dec_value(t)
}

/// The message for a numeric month outside one through twelve.
pub open spec fn month_range_msg(v: nat) -> Seq<char> {
    "month \""@ + dec_digits(v) + "\" not in the range 1 through 12"@
}

/// The message for a name that begins no month name, or more than one.
pub open spec fn month_name_msg(s: Seq<char>) -> Seq<char> {
    "invalid month name \""@ + s + "\""@
}

/// Parse a decimal unsigned argument with an optional plus sign.
fn parse_u32_arg(s: &str) -> (r: Option<u32>)
    ensures
        r is Some <==> u32_shape(s@),
        r is Some ==> r->0 == u32_value(s@),
{
    let n = s.unicode_len();
    let start: usize = if n > 0 && s.get_char(0) == '+' { 1 } else { 0 };
    let ghost t = if s@.len() > 0 && s@[0] == '+' { s@.skip(1) } else { s@ };
    if start >= n {
        proof {
            assert(t.len() == 0);
        }
        return None;
    }
    let mut i: usize = start;
    let mut v: u64 = 0;
    while i < n
        invariant
            n == s@.len(),
            start <= i <= n,
            start == if s@.len() > 0 && s@[0] == '+' { 1int } else { 0int },
            t == (if s@.len() > 0 && s@[0] == '+' { s@.skip(1) } else { s@ }),
            t.len() == n - start,
            forall|j: int| 0 <= j < t.len() ==> t[j] == s@[j + start],
            crate::pos::all_digits(t.take(i - start)),
            v as nat == crate::pos::dec_value(t.take(i - start)),
            v <= u32::MAX as u64,
        decreases n - i,
    {
        let c = s.get_char(i);
        let cv = c as u32;
        if cv < 48 || cv > 57 {
            proof {
                assert(t[i - start] == s@[i as int]);
                assert(!crate::pos::is_digit(t[i - start]));
                assert(!crate::pos::all_digits(t));
            }
            return None;
        }
        let d: u64 = (cv - 48) as u64;
        proof {
            assert(t.take(i - start + 1).drop_last() =~= t.take(i - start));
            assert(t.take(i - start + 1).last() == t[i - start]);
            assert(t[i - start] == s@[i as int]);
            assert(crate::pos::dec_value(t.take(i - start + 1)) == (v as nat) * 10 + (d as nat));
        }
        if v > (u32::MAX as u64 - d) / 10 {
            proof {
                vstd::arithmetic::div_mod::lemma_fundamental_div_mod(
                    u32::MAX as int - d as int, 10);
                vstd::arithmetic::div_mod::lemma_mod_division_less_than_divisor(
                    u32::MAX as int - d as int, 10);
                assert((v as int) * 10 + d as int > u32::MAX as int);
                lemma_dec_value_grows(t, i - start + 1);
                assert(crate::pos::dec_value(t) > u32::MAX as nat);
            }
            return None;
        }
        proof {
            vstd::arithmetic::div_mod::lemma_fundamental_div_mod(u32::MAX as int - d as int, 10);
            vstd::arithmetic::div_mod::lemma_mod_division_less_than_divisor(
                u32::MAX as int - d as int, 10);
            assert((v as int) * 10 + d as int <= u32::MAX as int);
        }
        v = v * 10 + d;
        i = i + 1;
        assert(crate::pos::all_digits(t.take(i - start)));
    }
    proof {
        assert(t.take(n - start) =~= t);
    }
    Some(v as u32)
}

/// At most one match can come from each month name.
proof fn lemma_prefix_matches_bound(lower: Seq<char>, m: int)
    requires
        m >= 0,
    ensures
        0 <= prefix_matches(lower, m) <= m,
    decreases m,
{
    if m > 0 {
        lemma_prefix_matches_bound(lower, m - 1);
    }
}

/// A digit prefix never exceeds the whole value.
proof fn lemma_dec_value_grows(s: Seq<char>, i: int)
    requires
        0 <= i <= s.len(),
    ensures
        crate::pos::dec_value(s.take(i)) <= crate::pos::dec_value(s),
    decreases s.len() - i,
{
    if i < s.len() {
        assert(s.take(i + 1).drop_last() =~= s.take(i));
        assert(crate::pos::dec_value(s.take(i + 1))
            == crate::pos::dec_value(s.take(i)) * 10 + crate::pos::digit_val(s.take(i + 1).last()));
        lemma_dec_value_grows(s, i + 1);
    } else {
        assert(s.take(i) =~= s);
    }
}

/// Parse a month: a number one through twelve, or a case-insensitive
/// prefix of exactly one English month name.
pub fn parse_month(month: String) -> (r: Result<u32, String>)
    ensures
        u32_shape(month@) && 1 <= u32_value(month@) <= 12
            ==> r == Ok::<u32, String>(u32_value(month@) as u32),
        u32_shape(month@) && !(1 <= u32_value(month@) <= 12)
            ==> r is Err && r->Err_0@ == month_range_msg(u32_value(month@)),
        !u32_shape(month@) && prefix_matches(lower_of(month@), 12) == 1
            ==> r == Ok::<u32, String>(last_prefix_match(lower_of(month@), 12) as u32),
        !u32_shape(month@) && prefix_matches(lower_of(month@), 12) != 1
            ==> r is Err && r->Err_0@ == month_name_msg(month@),
{
    match parse_u32_arg(month.as_str()) {
        Some(v) => {
            if 1 <= v && v <= 12 {
                Ok(v)
            } else {
                let mut m = "month \"".to_owned();
                let d = to_decimal(v as u64);
                m.append(d.as_str());
                m.append("\" not in the range 1 through 12");
                proof {
                    assert(m@ =~= month_range_msg(u32_value(month@)));
                }
                Err(m)
            }
        },
        None => {
            let lower = to_lower(month.as_str());
            let mut count: u32 = 0;
            let mut found: u32 = 0;
            let mut m: u32 = 1;
            while m <= 12
                invariant
                    1 <= m <= 13,
                    lower@ == lower_of(month@),
                    count as int == prefix_matches(lower@, m as int - 1),
                    found as int == if count > 0 { last_prefix_match(lower@, m as int - 1) } else { 0int },
                    count > 0 ==> 1 <= found <= 12,
                    last_prefix_match(lower@, m as int - 1) > 0 ==> count > 0,
                decreases 13 - m,
            {
                proof {
                    lemma_prefix_matches_bound(lower@, m as int - 1);
                }
                if is_prefix_exec(lower.as_str(), month_name_lower(m)) {
                    count = count + 1;
                    found = m;
                }
                m = m + 1;
            }
            if count == 1 {
                Ok(found)
            } else {
                let mut e = "invalid month name \"".to_owned();
                e.append(month.as_str());
                e.append("\"");
                proof {
                    assert(e@ =~= month_name_msg(month@));
                }
                Err(e)
            }
        },
    }
}

/// A day cell highlighted as today: terminal reverse video around it.
pub open spec fn highlight_spec(s: Seq<char>) -> Seq<char> {
    "\u{1b}[7m"@ + s + "\u{1b}[0m"@
}

/// Relies on ansi_term's `Style::paint` with the reverse property: it
/// writes the reverse-video prefix, the text, and the reset suffix.
#[verifier::external_body]
fn reverse_video(s: &str) -> (r: String)
    ensures
        r@ == highlight_spec(s@),
{
    ansi_term::Style::new().reverse().paint(s).to_string()
}

/// Whether the rendered cell is today.
pub open spec fn is_today_spec(today: Option<Date>, y: int, m: int, d: int) -> bool {
    today is Some && today->0.day == d && today->0.month == m && today->0.year == y
}

/// One day cell: the day right-aligned in two columns, highlighted when
/// it is today.
pub open spec fn cell_spec(y: int, m: int, d: int, today: Option<Date>) -> Seq<char> {
    let base = pad_left_spec(dec_digits(d as nat), 2);
    if is_today_spec(today, y, m, d) {
        highlight_spec(base)
    } else {
        base
    }
}

/// Blank cells before day one: one for each weekday before the first.
pub open spec fn month_blanks(y: int, m: int) -> int {
    weekday_from_sunday(y, m, 1) - 1
}

/// All cells of the month grid: leading blanks, then the days.
pub open spec fn month_cells(y: int, m: int, today: Option<Date>) -> Seq<Seq<char>> {
    Seq::new((month_blanks(y, m) + days_in_month(y, m)) as nat,
        |i: int| if i < month_blanks(y, m) {
            "  "@
        } else {
            cell_spec(y, m, i - month_blanks(y, m) + 1, today)
        })
}

/// How many week rows the month needs.
pub open spec fn month_weeks(y: int, m: int) -> int {
    (month_cells(y, m, Option::None).len() + 6) as int / 7
}

/// Whether the rendered month holds today's highlighted cell at all.
pub open spec fn month_has_today(y: int, m: int, today: Option<Date>) -> bool {
    today is Some && today->0.year == y && today->0.month == m
        && 1 <= today->0.day <= days_in_month(y, m)
}

/// The cell index of today in the grid.
pub open spec fn today_pos(y: int, m: int, today: Option<Date>) -> int {
    month_blanks(y, m) + today->0.day - 1
}

/// Whether week `w` holds today's highlighted cell.
pub open spec fn week_has_today(y: int, m: int, today: Option<Date>, w: int) -> bool {
    month_has_today(y, m, today)
        && 7 * w <= today_pos(y, m, today) < 7 * w + 7
}

/// One week row: up to seven cells joined by single spaces, left-aligned
/// in twenty visible columns, then two trailing spaces. The styling
/// characters of today's cell are excluded from the width, so the week
/// holding today pads to twenty visible plus the eight invisible ones.
pub open spec fn week_row_spec(y: int, m: int, today: Option<Date>, w: int) -> Seq<char> {
    let cells = month_cells(y, m, today);
    let hi = if 7 * w + 7 <= cells.len() { 7 * w + 7 } else { cells.len() as int };
    let width: nat = if week_has_today(y, m, today, w) { 28 } else { 20 };
    pad_right_spec(join_spec(cells.subrange(7 * w, hi), " "@), width) + "  "@
}

/// The title: the month name, with the year when it is printed.
pub open spec fn month_title(y: int, m: int, print_year: bool) -> Seq<char> {
    if print_year {
        month_name_spec(m) + " "@ + dec_digits(y as nat)
    } else {
        month_name_spec(m)
    }
}

/// The whole month grid: a centred title row, the weekday header, the
/// week rows, and blank rows padding the block to eight.
pub open spec fn format_month_spec(y: int, m: int, print_year: bool, today: Option<Date>)
    -> Seq<Seq<char>> {
    Seq::new(8, |r: int|
        if r == 0 {
            center_spec(month_title(y, m, print_year), 20) + "  "@
        } else if r == 1 {
            "Su Mo Tu We Th Fr Sa  "@
        } else if r - 2 < month_weeks(y, m) {
            week_row_spec(y, m, today, r - 2)
        } else {
            spaces(22)
        })
}

/// Dividing the cell count by weeks: row `w` exists exactly when its
/// first cell does.
proof fn lemma_week_count(n: int, w: int)
    requires
        0 <= n,
        0 <= w,
    ensures
        (7 * w < n) <==> (w < (n + 6) / 7),
{
    vstd::arithmetic::div_mod::lemma_fundamental_div_mod(n + 6, 7);
}

/// Render one month as its eight 22-column rows.
pub fn format_month(year: i32, month: u32, print_year: bool, today: Option<Date>)
    -> (r: Vec<String>)
    requires
        1 <= year <= 9999,
        1 <= month <= 12,
    ensures
        r.deep_view() == format_month_spec(year as int, month as int, print_year, today),
{
    let ghost spec_rows = format_month_spec(year as int, month as int, print_year, today);
    let ghost cells_v = month_cells(year as int, month as int, today);
    let wd = first_weekday(year, month);
    let blanks = wd - 1;
    let last = last_day_in_month(year, month);

    let mut cells: Vec<String> = Vec::new();
    let mut k: u32 = 0;
    while k < blanks
        invariant
            k <= blanks,
            blanks == month_blanks(year as int, month as int),
            blanks <= 6,
            cells_v == month_cells(year as int, month as int, today),
            cells.deep_view() =~= cells_v.take(k as int),
        decreases blanks - k,
    {
        let ghost prev = cells.deep_view();
        cells.push("  ".to_owned());
        proof {
            assert(prev.len() == k);
            assert(cells@.len() == prev.len() + 1);
            assert(cells_v[k as int] == "  "@);
            assert(cells.deep_view() =~= cells_v.take(k + 1));
        }
        k = k + 1;
    }
    let mut d: u32 = 1;
    while d <= last
        invariant
            1 <= d <= last + 1,
            last == days_in_month(year as int, month as int),
            blanks == month_blanks(year as int, month as int),
            blanks <= 6,
            1 <= year <= 9999,
            1 <= month <= 12,
            cells_v == month_cells(year as int, month as int, today),
            cells.deep_view() =~= cells_v.take(blanks + d - 1),
        decreases last + 1 - d,
    {
        let base = pad_left(to_decimal(d as u64).as_str(), 2);
        let is_today = match today {
            Option::Some(t) => t.day == d && t.month == month && t.year == year,
            Option::None => false,
        };
        let cell = if is_today { reverse_video(base.as_str()) } else { base };
        let ghost prev = cells.deep_view();
        let ghost cv = cell@;
        cells.push(cell);
        proof {
            assert(prev.len() == blanks + d - 1);
            assert(cells@.len() == prev.len() + 1);
            assert(cv == cell_spec(year as int, month as int, d as int, today));
            assert(cells_v[blanks + d - 1] == cell_spec(year as int, month as int, d as int, today));
            assert(cells.deep_view() =~= cells_v.take(blanks + d));
        }
        d = d + 1;
    }
    proof {
        assert(cells.deep_view() =~= cells_v);
    }

    let mut rows: Vec<String> = Vec::new();
    let title = if print_year {
        let mut t = month_name(month).to_owned();
        t.append(" ");
        let ys = to_decimal(year as u64);
        t.append(ys.as_str());
        proof {
            assert(t@ =~= month_title(year as int, month as int, print_year));
        }
        t
    } else {
        month_name(month).to_owned()
    };
    let mut first_row = center(title.as_str(), 20);
    first_row.append("  ");
    let ghost frv = first_row@;
    rows.push(first_row);
    rows.push("Su Mo Tu We Th Fr Sa  ".to_owned());
    proof {
        assert(rows@.len() == 2);
        assert(rows.deep_view()[0] == frv);
        assert(frv == spec_rows[0]);
        assert(rows.deep_view()[1] == "Su Mo Tu We Th Fr Sa  "@);
        assert(rows.deep_view() =~= spec_rows.take(2));
    }

    let ncells = cells.len();
    let mut w: usize = 0;
    while 7 * w < ncells
        invariant
            ncells == cells_v.len(),
            ncells <= 43,
            cells.deep_view() == cells_v,
            cells_v == month_cells(year as int, month as int, today),
            spec_rows == format_month_spec(year as int, month as int, print_year, today),
            blanks == month_blanks(year as int, month as int),
            blanks <= 6,
            last == days_in_month(year as int, month as int),
            1 <= year <= 9999,
            1 <= month <= 12,
            w <= month_weeks(year as int, month as int),
            rows@.len() == 2 + w,
            rows.deep_view() =~= spec_rows.take(2 + w),
        decreases 43 - 7 * w,
    {
        proof {
            lemma_week_count(ncells as int, w as int);
            assert(w < month_weeks(year as int, month as int));
        }
        let hi = if 7 * w + 7 <= ncells { 7 * w + 7 } else { ncells };
        let mut week: Vec<String> = Vec::new();
        let mut t: usize = 7 * w;
        while t < hi
            invariant
                7 * w <= t <= hi,
                hi == if 7 * w + 7 <= ncells { 7 * w + 7 } else { ncells as int },
                hi <= ncells,
                ncells == cells_v.len(),
                cells.deep_view() == cells_v,
                week.deep_view() =~= cells_v.subrange(7 * w, t as int),
            decreases hi - t,
        {
            let ghost prev = week.deep_view();
            week.push(cells[t].clone());
            proof {
                assert(prev.len() == t - 7 * w);
                assert(week@.len() == prev.len() + 1);
                assert(cells@[t as int]@ == cells_v[t as int]);
                assert(cells_v.subrange(7 * w, t + 1)
                    =~= cells_v.subrange(7 * w, t as int).push(cells_v[t as int]));
                assert(week.deep_view() =~= cells_v.subrange(7 * w, t + 1));
            }
            t = t + 1;
        }
        let hl_here = match today {
            Option::Some(t) => t.year == year && t.month == month && 1 <= t.day && t.day <= last
                && 7 * w <= (blanks + t.day - 1) as usize
                && ((blanks + t.day - 1) as usize) < 7 * w + 7,
            Option::None => false,
        };
        proof {
            assert(hl_here == week_has_today(year as int, month as int, today, w as int));
        }
        let width: usize = if hl_here { 28 } else { 20 };
        let joined = join_strings(&week, " ");
        let mut line = pad_right(joined.as_str(), width);
        line.append("  ");
        let ghost lv = line@;
        let ghost prev_rows = rows.deep_view();
        rows.push(line);
        proof {
            assert(prev_rows.len() == 2 + w);
            assert(rows@.len() == prev_rows.len() + 1);
            assert(lv == week_row_spec(year as int, month as int, today, w as int));
            assert(spec_rows[2 + w] == week_row_spec(year as int, month as int, today, w as int));
            assert(rows.deep_view() =~= spec_rows.take(2 + w + 1));
        }
        w = w + 1;
    }
    proof {
        lemma_week_count(ncells as int, w as int);
        assert(w >= month_weeks(year as int, month as int));
        assert(w == month_weeks(year as int, month as int));
    }
    while rows.len() < 8
        invariant
            2 + month_weeks(year as int, month as int) <= rows@.len() <= 8,
            spec_rows == format_month_spec(year as int, month as int, print_year, today),
            rows.deep_view() =~= spec_rows.take(rows@.len() as int),
        decreases 8 - rows@.len(),
    {
        let ghost prev_rows = rows.deep_view();
        let blank = space_string(22);
        rows.push(blank);
        proof {
            assert(rows@.len() == prev_rows.len() + 1);
            assert(spec_rows[prev_rows.len() as int] == spaces(22));
            assert(rows.deep_view() =~= spec_rows.take(rows@.len() as int));
        }
    }
    proof {
        assert(spec_rows.take(8) =~= spec_rows);
    }
    rows
}

/// Powers of ten.
pub open spec fn pow10(k: nat) -> nat
    decreases k,
{
    if k == 0 {
        1
    } else {
        10 * pow10((k - 1) as nat)
    }
}

/// A number below the `k`-th power of ten has at most `k` digits.
proof fn lemma_dec_digits_len(n: nat, k: nat)
    requires
        k >= 1,
        n < pow10(k),
    ensures
        dec_digits(n).len() >= 1,
        dec_digits(n).len() <= k,
    decreases k,
{
    if n >= 10 {
        assert(pow10(k) == 10 * pow10((k - 1) as nat));
        assert(k >= 2) by {
            if k == 1 {
                assert(pow10(1nat) == 10);
            }
        }
        assert(n / 10 < pow10((k - 1) as nat)) by {
            vstd::arithmetic::div_mod::lemma_fundamental_div_mod(n as int, 10);
            vstd::arithmetic::div_mod::lemma_mod_division_less_than_divisor(n as int, 10);
        }
        lemma_dec_digits_len(n / 10, (k - 1) as nat);
    }
}

/// Joining `k` two-column cells with single spaces takes `3k - 1`
/// columns.
proof fn lemma_join_cells_len(parts: Seq<Seq<char>>, sep: Seq<char>)
    requires
        parts.len() >= 1,
        sep.len() == 1,
        forall|i: int| 0 <= i < parts.len() ==> (#[trigger] parts[i]).len() == 2,
    ensures
        join_spec(parts, sep).len() == 3 * parts.len() - 1,
    decreases parts.len(),
{
    if parts.len() == 1 {
        assert(join_spec(parts, sep) == parts[0]);
    } else {
        assert forall|i: int| 0 <= i < parts.skip(1).len() implies
            (#[trigger] parts.skip(1)[i]).len() == 2 by {
            assert(parts.skip(1)[i] == parts[i + 1]);
        }
        lemma_join_cells_len(parts.skip(1), sep);
        assert(join_spec(parts, sep) == parts[0] + sep + join_spec(parts.skip(1), sep));
    }
}

/// Joining `k` two-column cells, one of which carries the ten-column
/// highlighted form, takes `3k + 7` columns.
proof fn lemma_join_cells_len_highlighted(parts: Seq<Seq<char>>, sep: Seq<char>, t: int)
    requires
        parts.len() >= 1,
        sep.len() == 1,
        0 <= t < parts.len(),
        forall|i: int| 0 <= i < parts.len() && i != t ==> (#[trigger] parts[i]).len() == 2,
        parts[t].len() == 10,
    ensures
        join_spec(parts, sep).len() == 3 * parts.len() + 7,
    decreases parts.len(),
{
    if parts.len() == 1 {
        assert(join_spec(parts, sep) == parts[0]);
    } else if t == 0 {
        assert forall|i: int| 0 <= i < parts.skip(1).len() implies
            (#[trigger] parts.skip(1)[i]).len() == 2 by {
            assert(parts.skip(1)[i] == parts[i + 1]);
        }
        lemma_join_cells_len(parts.skip(1), sep);
        assert(join_spec(parts, sep) == parts[0] + sep + join_spec(parts.skip(1), sep));
    } else {
        assert forall|i: int| 0 <= i < parts.skip(1).len() && i != t - 1 implies
            (#[trigger] parts.skip(1)[i]).len() == 2 by {
            assert(parts.skip(1)[i] == parts[i + 1]);
        }
        assert(parts.skip(1)[t - 1] == parts[t]);
        lemma_join_cells_len_highlighted(parts.skip(1), sep, t - 1);
        assert(join_spec(parts, sep) == parts[0] + sep + join_spec(parts.skip(1), sep));
    }
}

/// The month grid is exactly eight rows, each exactly 22 visible
/// columns wide, for every month of every year the calendar accepts: the
/// row holding today's highlighted cell carries the eight invisible
/// styling characters on top of its 22 visible columns, and every other
/// row is exactly 22 characters.
pub proof fn lemma_month_grid_dimensions(y: int, m: int, print_year: bool, today: Option<Date>)
    requires
        1 <= y <= 9999,
        1 <= m <= 12,
    ensures
        format_month_spec(y, m, print_year, today).len() == 8,
        forall|r: int| 0 <= r < 8 ==> (#[trigger] format_month_spec(y, m, print_year, today)[r]).len()
            == 22 + if month_has_today(y, m, today) && r == 2 + today_pos(y, m, today) / 7 {
                8int
            } else {
                0int
            },
{
    let rows = format_month_spec(y, m, print_year, today);
    let cells = month_cells(y, m, today);
    let blanks = month_blanks(y, m);
    let ndays = days_in_month(y, m);
    let pos = today_pos(y, m, today);
    assert(0 <= blanks <= 6);
    assert(28 <= ndays <= 31);
    reveal_strlit("  ");
    reveal_strlit(" ");
    reveal_strlit("Su Mo Tu We Th Fr Sa  ");
    reveal_strlit("\u{1b}[7m");
    reveal_strlit("\u{1b}[0m");
    reveal_strlit("January");
    reveal_strlit("February");
    reveal_strlit("March");
    reveal_strlit("April");
    reveal_strlit("May");
    reveal_strlit("June");
    reveal_strlit("July");
    reveal_strlit("August");
    reveal_strlit("September");
    reveal_strlit("October");
    reveal_strlit("November");
    reveal_strlit("December");
    assert(month_name_spec(m).len() <= 9);
    assert(pow10(0nat) == 1);
    assert(pow10(1nat) == 10);
    assert(pow10(2nat) == 100);
    assert(pow10(3nat) == 1000);
    assert(pow10(4nat) == 10000);
    lemma_dec_digits_len(y as nat, 4);
    assert(month_title(y, m, print_year).len() <= 14);
    if month_has_today(y, m, today) {
        assert(0 <= pos < cells.len());
        assert(cells[pos] == cell_spec(y, m, today->0.day as int, today));
        assert(is_today_spec(today, y, m, today->0.day as int));
        assert(cells[pos].len() == 10) by {
            lemma_dec_digits_len(today->0.day as nat, 2);
        }
        vstd::arithmetic::div_mod::lemma_fundamental_div_mod(pos, 7);
        vstd::arithmetic::div_mod::lemma_mod_division_less_than_divisor(pos, 7);
        assert(7 * (pos / 7) <= pos < 7 * (pos / 7) + 7);
    }
    assert forall|i: int| 0 <= i < cells.len()
        && !(month_has_today(y, m, today) && i == pos) implies
        (#[trigger] cells[i]).len() == 2 by {
        if i >= blanks {
            assert(cells[i] == cell_spec(y, m, i - blanks + 1, today));
            assert(!is_today_spec(today, y, m, i - blanks + 1));
            lemma_dec_digits_len((i - blanks + 1) as nat, 2);
        }
    }
    assert forall|r: int| 0 <= r < 8 implies (#[trigger] rows[r]).len()
        == 22 + if month_has_today(y, m, today) && r == 2 + pos / 7 { 8int } else { 0int } by {
        if r == 0 {
            assert(rows[0] == center_spec(month_title(y, m, print_year), 20) + "  "@);
        } else if r == 1 {
        } else if r - 2 < month_weeks(y, m) {
            let w = r - 2;
            lemma_week_count(cells.len() as int, w);
            assert(7 * w < cells.len());
            let hi = if 7 * w + 7 <= cells.len() { 7 * w + 7 } else { cells.len() as int };
            let week = cells.subrange(7 * w, hi);
            assert(1 <= week.len() <= 7);
            assert(rows[r] == week_row_spec(y, m, today, w));
            if week_has_today(y, m, today, w) {
                assert(r == 2 + pos / 7) by {
                    vstd::arithmetic::div_mod::lemma_fundamental_div_mod(pos, 7);
                    vstd::arithmetic::div_mod::lemma_mod_division_less_than_divisor(pos, 7);
                }
                assert(pos < hi);
                assert forall|i: int| 0 <= i < week.len() && i != pos - 7 * w implies
                    (#[trigger] week[i]).len() == 2 by {
                    assert(week[i] == cells[7 * w + i]);
                    assert(7 * w + i != pos);
                }
                assert(week[pos - 7 * w] == cells[pos]);
                lemma_join_cells_len_highlighted(week, " "@, pos - 7 * w);
                assert(join_spec(week, " "@).len() == 3 * week.len() + 7 <= 28);
            } else {
                assert forall|i: int| 0 <= i < week.len() implies
                    (#[trigger] week[i]).len() == 2 by {
                    assert(week[i] == cells[7 * w + i]);
                    if month_has_today(y, m, today) {
                        assert(7 * w + i != pos);
                    }
                }
                lemma_join_cells_len(week, " "@);
                assert(join_spec(week, " "@).len() <= 20);
                if month_has_today(y, m, today) && r == 2 + pos / 7 {
                    vstd::arithmetic::div_mod::lemma_fundamental_div_mod(pos, 7);
                    vstd::arithmetic::div_mod::lemma_mod_division_less_than_divisor(pos, 7);
                    assert(week_has_today(y, m, today, w));
                }
            }
        } else {
            assert(rows[r] == spaces(22));
            if month_has_today(y, m, today) && r == 2 + pos / 7 {
                vstd::arithmetic::div_mod::lemma_fundamental_div_mod(pos, 7);
                vstd::arithmetic::div_mod::lemma_mod_division_less_than_divisor(pos, 7);
                lemma_week_count(cells.len() as int, pos / 7);
                assert(false);
            }
        }
    }
}

/// One band of the year view: three months side by side, row by row.
pub open spec fn band_rows(y: int, band: int, today: Option<Date>) -> Seq<Seq<char>> {
    Seq::new(8, |r: int|
        format_month_spec(y, 3 * band + 1, false, today)[r]
            + format_month_spec(y, 3 * band + 2, false, today)[r]
            + format_month_spec(y, 3 * band + 3, false, today)[r])
}

/// The whole-year view: the year centred over 32 columns, then four
/// bands of three months, a blank line between bands.
pub open spec fn format_year_spec(y: int, today: Option<Date>) -> Seq<Seq<char>> {
    seq![center_spec(dec_digits(y as nat), 32)]
        + band_rows(y, 0, today) + seq![Seq::<char>::empty()]
        + band_rows(y, 1, today) + seq![Seq::<char>::empty()]
        + band_rows(y, 2, today) + seq![Seq::<char>::empty()]
        + band_rows(y, 3, today)
}

/// Render a whole year.
#[verifier::rlimit(100)]
pub fn format_year(year: i32, today: Option<Date>) -> (r: Vec<String>)
    requires
        1 <= year <= 9999,
    ensures
        r.deep_view() == format_year_spec(year as int, today),
{
    let ghost goal = format_year_spec(year as int, today);
    let mut out: Vec<String> = Vec::new();
    let head = center(to_decimal(year as u64).as_str(), 32);
    let ghost hv = head@;
    out.push(head);
    proof {
        assert(out.deep_view() =~= seq![hv]);
        assert(goal[0] == center_spec(dec_digits(year as nat), 32));
        assert(goal.len() == 36);
    }
    let mut band: u32 = 0;
    while band < 4
        invariant
            band <= 4,
            1 <= year <= 9999,
            goal == format_year_spec(year as int, today),
            goal.len() == 36,
            out@.len() == 1 + 9 * band - (if band == 4 { 1int } else { 0int }),
            out.deep_view() =~= goal.take(out@.len() as int),
        decreases 4 - band,
    {
        let m1 = format_month(year, 3 * band + 1, false, today);
        let m2 = format_month(year, 3 * band + 2, false, today);
        let m3 = format_month(year, 3 * band + 3, false, today);
        let mut r: usize = 0;
        while r < 8
            invariant
                r <= 8,
                band < 4,
                goal == format_year_spec(year as int, today),
                goal.len() == 36,
                m1.deep_view() == format_month_spec(year as int, 3 * band + 1, false, today),
                m2.deep_view() == format_month_spec(year as int, 3 * band + 2, false, today),
                m3.deep_view() == format_month_spec(year as int, 3 * band + 3, false, today),
                out@.len() == 1 + 9 * band + r,
                out.deep_view() =~= goal.take(out@.len() as int),
            decreases 8 - r,
        {
            proof {
                assert(m1.deep_view().len() == 8);
                assert(m2.deep_view().len() == 8);
                assert(m3.deep_view().len() == 8);
                assert(m1@.len() == 8);
                assert(m2@.len() == 8);
                assert(m3@.len() == 8);
                assert(m1@[r as int]@ == m1.deep_view()[r as int]);
                assert(m2@[r as int]@ == m2.deep_view()[r as int]);
                assert(m3@[r as int]@ == m3.deep_view()[r as int]);
            }
            let mut line = m1[r].clone();
            line.append(m2[r].as_str());
            line.append(m3[r].as_str());
            let ghost lv = line@;
            let ghost prev = out.deep_view();
            out.push(line);
            proof {
                assert(out@.len() == prev.len() + 1);
                assert(lv == band_rows(year as int, band as int, today)[r as int]);
                assert(goal[prev.len() as int]
                    == band_rows(year as int, band as int, today)[r as int]);
                assert(out.deep_view() =~= goal.take(out@.len() as int));
            }
            r = r + 1;
        }
        if band < 3 {
            let ghost prev = out.deep_view();
            out.push(String::new());
            proof {
                assert(out@.len() == prev.len() + 1);
                assert(goal[prev.len() as int] == Seq::<char>::empty());
                assert(out.deep_view() =~= goal.take(out@.len() as int));
            }
        }
        band = band + 1;
    }
    proof {
        assert(goal.take(36) =~= goal);
    }
    out
}

} // verus!
