//! Calendar dates of the proleptic Gregorian calendar, in the range that
//! `chrono::NaiveDate` represents, with the day arithmetic and the
//! `YYYY-MM-DD` rendering that query history needs.

use vstd::prelude::*;

use crate::text::{decimal, decimal_chars, push_all};

verus! {

/// The first year that a date can have.
pub const MIN_YEAR: i32 = -262143;

/// The last year that a date can have.
pub const MAX_YEAR: i32 = 262142;

/// Whether a year is a leap year.
pub open spec fn is_leap(y: int) -> bool {
    (y % 4 == 0 && y % 100 != 0) || y % 400 == 0
}

/// The number of days in month `m` of year `y`.
pub open spec fn days_in_month(y: int, m: int) -> int {
    if m == 2 {
        if is_leap(y) {
            29
        } else {
            28
        }
    } else if m == 4 || m == 6 || m == 9 || m == 11 {
        30
    } else {
        31
    }
}

/// Whether `(y, m, d)` is a date in the representable range.
pub open spec fn is_valid_ymd(y: int, m: int, d: int) -> bool {
    &&& MIN_YEAR <= y <= MAX_YEAR
    &&& 1 <= m <= 12
    &&& 1 <= d <= days_in_month(y, m)
}

/// Days in the years before year `y`, counted from year 1.
pub open spec fn days_before_year(y: int) -> int {
    365 * (y - 1) + (y - 1) / 4 - (y - 1) / 100 + (y - 1) / 400
}

/// Days in the months of year `y` before month `m`.
pub open spec fn days_before_month(y: int, m: int) -> int
    decreases m,
{
    if m <= 1 {
        0
    } else {
        days_before_month(y, m - 1) + days_in_month(y, m - 1)
    }
}

/// The day number of a date: consecutive dates have consecutive numbers.
pub open spec fn day_number(ymd: (int, int, int)) -> int {
    days_before_year(ymd.0) + days_before_month(ymd.0, ymd.1) + ymd.2
}

/// `a` comes before `b` in the calendar.
pub open spec fn ymd_before(a: (int, int, int), b: (int, int, int)) -> bool {
    a.0 < b.0 || (a.0 == b.0 && (a.1 < b.1 || (a.1 == b.1 && a.2 < b.2)))
}

/// The date before `(y, m, d)`.
pub open spec fn previous_ymd(ymd: (int, int, int)) -> (int, int, int) {
    if ymd.2 > 1 {
        (ymd.0, ymd.1, ymd.2 - 1)
    } else if ymd.1 > 1 {
        (ymd.0, ymd.1 - 1, days_in_month(ymd.0, ymd.1 - 1))
    } else {
        (ymd.0 - 1, 12, 31)
    }
}

/// A calendar date.
#[derive(Debug, Clone, Copy, PartialEq, Eq, Hash)]
pub struct Date {
    year: i32,
    month: u32,
    day: u32,
}

impl View for Date {
    type V = (int, int, int);

    closed spec fn view(&self) -> (int, int, int) {
        (self.year as int, self.month as int, self.day as int)
    }
}

proof fn lemma_days_before_year_step(y: int)
    ensures
        days_before_year(y + 1) == days_before_year(y) + if is_leap(y) {
            366int
        } else {
            365int
        },
{
    assert(days_before_year(y + 1) == days_before_year(y) + if is_leap(y) {
        366int
    } else {
        365int
    }) by (nonlinear_arith);
}

proof fn lemma_days_before_december(y: int)
    ensures
        days_before_month(y, 12) + 31 == if is_leap(y) {
            366int
        } else {
            365int
        },
{
    reveal_with_fuel(days_before_month, 12);
}

proof fn lemma_days_before_month_mono(y: int, m1: int, m2: int)
    requires
        1 <= m1 < m2 <= 13,
    ensures
        days_before_month(y, m1) + days_in_month(y, m1) <= days_before_month(y, m2),
    decreases m2 - m1,
{
    if m2 > m1 + 1 {
        lemma_days_before_month_mono(y, m1, m2 - 1);
    }
}

proof fn lemma_days_before_year_mono(y1: int, y2: int)
    requires
        y1 < y2,
    ensures
        days_before_year(y1) + if is_leap(y1) {
            366int
        } else {
            365int
        } <= days_before_year(y2),
    decreases y2 - y1,
{
    lemma_days_before_year_step(y1);
    if y2 > y1 + 1 {
        lemma_days_before_year_mono(y1 + 1, y2);
        lemma_days_before_year_step(y1 + 1);
    }
}

/// For valid dates, calendar order is day-number order.
pub proof fn lemma_before_day_number(a: (int, int, int), b: (int, int, int))
    requires
        is_valid_ymd(a.0, a.1, a.2),
        is_valid_ymd(b.0, b.1, b.2),
        ymd_before(a, b),
    ensures
        day_number(a) < day_number(b),
{
    if a.0 < b.0 {
        lemma_days_before_month_mono(a.0, a.1, 13);
        reveal_with_fuel(days_before_month, 13);
        lemma_days_before_december(a.0);
        lemma_days_before_year_mono(a.0, b.0);
        assert(days_before_month(a.0, 13) == days_before_month(a.0, 12) + 31);
        assert(days_before_month(b.0, b.1) >= 0) by {
            lemma_days_before_month_nonneg(b.0, b.1);
        }
    } else if a.1 < b.1 {
        lemma_days_before_month_mono(a.0, a.1, b.1);
    }
}

proof fn lemma_days_before_month_nonneg(y: int, m: int)
    ensures
        days_before_month(y, m) >= 0,
    decreases m,
{
    if m > 1 {
        lemma_days_before_month_nonneg(y, m - 1);
    }
}

/// Distinct valid dates have distinct day numbers.
pub proof fn lemma_day_number_injective(a: (int, int, int), b: (int, int, int))
    requires
        is_valid_ymd(a.0, a.1, a.2),
        is_valid_ymd(b.0, b.1, b.2),
        day_number(a) == day_number(b),
    ensures
        a == b,
{
    if ymd_before(a, b) {
        lemma_before_day_number(a, b);
    } else if ymd_before(b, a) {
        lemma_before_day_number(b, a);
    }
}

/// The day number of the first representable date.
pub open spec fn first_day_number() -> int {
    day_number((MIN_YEAR as int, 1int, 1int))
}

/// No valid date comes before the first representable one.
pub proof fn lemma_first_day_is_first(a: (int, int, int))
    requires
        is_valid_ymd(a.0, a.1, a.2),
    ensures
        first_day_number() <= day_number(a),
        first_day_number() == day_number(a) ==> a == (MIN_YEAR as int, 1int, 1int),
{
    let first = (MIN_YEAR as int, 1int, 1int);
    if a != first {
        assert(ymd_before(first, a));
        lemma_before_day_number(first, a);
    }
}

/// The date before a valid date is one day earlier and valid, unless the
/// date is the first representable one.
pub proof fn lemma_previous_ymd(a: (int, int, int))
    requires
        is_valid_ymd(a.0, a.1, a.2),
        a != (MIN_YEAR as int, 1int, 1int),
    ensures
        is_valid_ymd(previous_ymd(a).0, previous_ymd(a).1, previous_ymd(a).2),
        day_number(previous_ymd(a)) == day_number(a) - 1,
{
    if a.2 == 1 && a.1 == 1 {
        lemma_days_before_year_step(a.0 - 1);
        lemma_days_before_december(a.0 - 1);
    }
}

impl Date {
    /// The date with the given year, month and day, if there is one.
    pub fn from_ymd(year: i32, month: u32, day: u32) -> (r: Option<Date>)
        ensures
            r is Some <==> is_valid_ymd(year as int, month as int, day as int),
            r matches Some(d) ==> d@ == (year as int, month as int, day as int),
    {
        if year < MIN_YEAR || year > MAX_YEAR || month < 1 || month > 12 || day < 1 {
            return None;
        }
        if day > Self::month_length(year, month) {
            return None;
        }
        Some(Date { year, month, day })
    }

    /// The date with the given year, month and day, which must form one.
    pub fn from_valid_ymd(year: i32, month: u32, day: u32) -> (r: Date)
        requires
            is_valid_ymd(year as int, month as int, day as int),
        ensures
            r@ == (year as int, month as int, day as int),
    {
        Date { year, month, day }
    }

    fn month_length(year: i32, month: u32) -> (r: u32)
        requires
            1 <= month <= 12,
            MIN_YEAR <= year <= MAX_YEAR,
        ensures
            r == days_in_month(year as int, month as int),
    {
        if month == 2 {
            let shifted = (year as i64 + 400000) as u64;
            let leap = (shifted % 4 == 0 && shifted % 100 != 0) || shifted % 400 == 0;
            assert(shifted as int == year as int + 400000);
            assert(leap == is_leap(year as int)) by (nonlinear_arith)
                requires
                    shifted as int == year as int + 400000,
                    leap == ((shifted % 4 == 0 && shifted % 100 != 0) || shifted % 400 == 0),
            ;
            if leap {
                29
            } else {
                28
            }
        } else if month == 4 || month == 6 || month == 9 || month == 11 {
            30
        } else {
            31
        }
    }

    /// The date is a valid calendar date; every `Date` is one.
    #[verifier::type_invariant]
    pub closed spec fn valid(self) -> bool {
        is_valid_ymd(self.year as int, self.month as int, self.day as int)
    }

    /// What `valid` means.
    pub proof fn lemma_valid(self)
        requires
            self.valid(),
        ensures
            is_valid_ymd(self@.0, self@.1, self@.2),
    {
    }

    /// The year.
    pub fn year(&self) -> (r: i32)
        ensures
            r == self@.0,
    {
        self.year
    }

    /// The month, from 1 to 12.
    pub fn month(&self) -> (r: u32)
        ensures
            r == self@.1,
    {
        self.month
    }

    /// The day of the month, from 1.
    pub fn day(&self) -> (r: u32)
        ensures
            r == self@.2,
    {
        self.day
    }

    /// The previous date, or `None` for the first representable date.
    pub fn pred(&self) -> (r: Option<Date>)
        ensures
            r is None <==> self@ == (MIN_YEAR as int, 1int, 1int),
            r matches Some(p) ==> p@ == previous_ymd(self@) && day_number(p@) == day_number(self@)
                - 1,
    {
        proof {
            use_type_invariant(self);
        }
        if self.day > 1 {
            proof {
                lemma_previous_ymd(self@);
            }
            Some(Date { year: self.year, month: self.month, day: self.day - 1 })
        } else if self.month > 1 {
            proof {
                lemma_previous_ymd(self@);
            }
            let m = self.month - 1;
            Some(Date { year: self.year, month: m, day: Self::month_length(self.year, m) })
        } else if self.year > MIN_YEAR {
            proof {
                lemma_previous_ymd(self@);
            }
            Some(Date { year: self.year - 1, month: 12, day: 31 })
        } else {
            None
        }
    }

    /// Whether this date comes before `other`.
    pub fn is_before(&self, other: &Date) -> (r: bool)
        ensures
            r == ymd_before(self@, other@),
    {
        self.year < other.year || (self.year == other.year && (self.month < other.month || (
        self.month == other.month && self.day < other.day)))
    }

    /// Whether this date is `other`.
    pub fn same_day(&self, other: &Date) -> (r: bool)
        ensures
            r == (self@ == other@),
    {
        self.year == other.year && self.month == other.month && self.day == other.day
    }
}


/// `s` padded on the left with zeros to at least `width` characters.
pub open spec fn zero_pad(s: Seq<char>, width: nat) -> Seq<char> {
    if s.len() >= width {
        s
    } else {
        Seq::new((width - s.len()) as nat, |i: int| '0') + s
    }
}

/// The year as `%Y` renders it: four digits at least, with a sign outside
/// the years 0 to 9999.
pub open spec fn year_text(y: int) -> Seq<char> {
    if 0 <= y <= 9999 {
        zero_pad(decimal(y as nat), 4)
    } else if y < 0 {
        seq!['-'] + zero_pad(decimal((-y) as nat), 4)
    } else {
        seq!['+'] + zero_pad(decimal(y as nat), 4)
    }
}

/// A date as `YYYY-MM-DD`.
pub open spec fn date_text(ymd: (int, int, int)) -> Seq<char> {
    year_text(ymd.0) + seq!['-'] + zero_pad(decimal(ymd.1 as nat), 2) + seq!['-'] + zero_pad(
        decimal(ymd.2 as nat),
        2,
    )
}

fn zero_padded(n: usize, width: usize) -> (r: Vec<char>)
    requires
        width <= 4,
    ensures
        r@ == zero_pad(decimal(n as nat), width as nat),
{
    let digits = decimal_chars(n);
    if digits.len() >= width {
        return digits;
    }
    let mut r: Vec<char> = Vec::new();
    let fill = width - digits.len();
    for i in 0..fill
        invariant
            r@ == Seq::new(i as nat, |k: int| '0'),
    {
        r.push('0');
        assert(r@ =~= Seq::new((i + 1) as nat, |k: int| '0'));
    }
    push_all(&mut r, &digits);
    r
}

impl Date {
    /// The date as `YYYY-MM-DD`, the way `chrono` renders `%Y-%m-%d`.
    pub fn format_ymd(&self) -> (r: Vec<char>)
        ensures
            r@ == date_text(self@),
    {
        proof {
            use_type_invariant(self);
        }
        let y = self.year;
        let mut r: Vec<char> = Vec::new();
        if 0 <= y && y <= 9999 {
            r = zero_padded(y as usize, 4);
        } else if y < 0 {
            r.push('-');
            push_all(&mut r, &zero_padded((-(y as i64)) as usize, 4));
        } else {
            r.push('+');
            push_all(&mut r, &zero_padded(y as usize, 4));
        }
        assert(r@ == year_text(self@.0));
        r.push('-');
        push_all(&mut r, &zero_padded(self.month as usize, 2));
        r.push('-');
        push_all(&mut r, &zero_padded(self.day as usize, 2));
        r
    }
}

} // verus!
