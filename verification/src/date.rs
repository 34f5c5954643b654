//! Calendar dates without a time of day, and their order.

use vstd::prelude::*;

use crate::text::{push_zero_padded, zero_padded};

verus! {

/// The earliest year a [`CanonicalDate`] can hold.
pub const MIN_YEAR: i32 = -262143;

/// The latest year a [`CanonicalDate`] can hold.
pub const MAX_YEAR: i32 = 262142;

/// Whether `year` has a 29th of February in the proleptic Gregorian calendar.
pub open spec fn is_leap_year(year: int) -> bool {
    year % 4 == 0 && (year % 100 != 0 || year % 400 == 0)
}

/// The number of days of `month` in `year`; 0 where `month` is no month.
pub open spec fn days_in_month(year: int, month: int) -> int {
    if month == 2 {
        if is_leap_year(year) {
            29
        } else {
            28
        }
    } else if month == 4 || month == 6 || month == 9 || month == 11 {
        30
    } else if 1 <= month <= 12 {
        31
    } else {
        0
    }
}

/// How a year is written: with four digits or more, and with its sign where
/// it lies before the year 0 or after the year 9999.
pub open spec fn year_text(year: int) -> Seq<char> {
    if year < 0 {
        seq!['-'] + zero_padded((-year) as nat, 4)
    } else if year > 9999 {
        seq!['+'] + zero_padded(year as nat, 4)
    } else {
        zero_padded(year as nat, 4)
    }
}

/// A day of the proleptic Gregorian calendar: year, month and day of the month.
#[derive(Clone, Copy, PartialEq, Eq, Structural, Debug)]
pub struct CanonicalDate {
    pub year: i32,
    pub month: u32,
    pub day: u32,
}

impl CanonicalDate {
    /// The date exists in the calendar and its year is in range.
    pub open spec fn is_valid(self) -> bool {
        &&& MIN_YEAR <= self.year <= MAX_YEAR
        &&& 1 <= self.month <= 12
        &&& 1 <= self.day <= days_in_month(self.year as int, self.month as int)
    }

    /// `self` is a strictly earlier day than `other`.
    pub open spec fn earlier_than(self, other: CanonicalDate) -> bool {
        ||| self.year < other.year
        ||| self.year == other.year && self.month < other.month
        ||| self.year == other.year && self.month == other.month && self.day < other.day
    }

    /// The date that stands for "no date could be read": the first day of 1980.
    pub open spec fn spec_sentinel() -> CanonicalDate {
        CanonicalDate { year: 1980, month: 1, day: 1 }
    }

    /// The date that stands for "no date could be read".
    #[verifier::when_used_as_spec(spec_sentinel)]
    pub fn sentinel() -> (date: CanonicalDate)
        ensures
            date == Self::spec_sentinel(),
            date.is_valid(),
    {
        CanonicalDate { year: 1980, month: 1, day: 1 }
    }

    /// The date of the given year, month and day, if there is such a day.
    pub fn new(year: i32, month: u32, day: u32) -> (date: Option<CanonicalDate>)
        ensures
            date is Some <==> (CanonicalDate { year, month, day }).is_valid(),
            date is Some ==> date->0 == (CanonicalDate { year, month, day }),
    {
        if year < MIN_YEAR || year > MAX_YEAR || month < 1 || month > 12 || day < 1 {
            return None;
        }
        let leap: bool = year % 4 == 0 && (year % 100 != 0 || year % 400 == 0);
        let last: u32 = if month == 2 {
            if leap {
                29
            } else {
                28
            }
        } else if month == 4 || month == 6 || month == 9 || month == 11 {
            30
        } else {
            31
        };
        if day <= last {
            Some(CanonicalDate { year, month, day })
        } else {
            None
        }
    }

    /// The date as year, month and day with hyphens between them, the month
    /// and the day with two digits: `2023-03-10`.
    pub open spec fn iso_text(self) -> Seq<char> {
        year_text(self.year as int) + seq!['-'] + zero_padded(self.month as nat, 2) + seq!['-']
            + zero_padded(self.day as nat, 2)
    }

    /// Writes the date as year, month and day with hyphens between them.
    pub fn to_iso_text(&self) -> (text: String)
        ensures
            text@ == self.iso_text(),
    {
        let mut text = String::new();
        if self.year < 0 {
            text.push('-');
            let size: u32 = (0 - self.year as i64) as u32;
            push_zero_padded(&mut text, size, 4);
        } else {
            if self.year > 9999 {
                text.push('+');
            }
            push_zero_padded(&mut text, self.year as u32, 4);
        }
        text.push('-');
        push_zero_padded(&mut text, self.month, 2);
        text.push('-');
        push_zero_padded(&mut text, self.day, 2);
        proof {
            assert(text@ =~= self.iso_text());
        }
        text
    }

    /// Whether this date is the sentinel.
    pub fn is_sentinel(&self) -> (answer: bool)
        ensures
            answer == (*self == Self::spec_sentinel()),
    {
        self.year == 1980 && self.month == 1 && self.day == 1
    }

    /// Whether this date is a strictly earlier day than `other`.
    pub fn precedes(&self, other: &CanonicalDate) -> (answer: bool)
        ensures
            answer == self.earlier_than(*other),
    {
        self.year < other.year || (self.year == other.year && (self.month < other.month || (
        self.month == other.month && self.day < other.day)))
    }
}

/// Two dates are always comparable: one is earlier, or they are the same day, or
/// the other is earlier, and never two of these at once.
pub proof fn lemma_dates_totally_ordered(a: CanonicalDate, b: CanonicalDate)
    ensures
        a.earlier_than(b) || a == b || b.earlier_than(a),
        !(a.earlier_than(b) && b.earlier_than(a)),
        !a.earlier_than(a),
{
}

/// "Earlier than" passes along a chain of dates.
pub proof fn lemma_earlier_transitive(a: CanonicalDate, b: CanonicalDate, c: CanonicalDate)
    requires
        a.earlier_than(b),
        b.earlier_than(c),
    ensures
        a.earlier_than(c),
{
}

} // verus!
