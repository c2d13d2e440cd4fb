//! Plain calendar dates.
//!
//! A date is a year, month and day triple with the usual Gregorian validity
//! rules.  The library orders dates by a single integer key, steps to the
//! previous calendar day, and renders the `dd/mm` and `yyyy-mm-dd` forms the
//! reports use.

use crate::text::{digit_char, digit_to_str};
use vstd::prelude::*;
use vstd::string::StringExecFns;

verus! {

/// A calendar date.  Valid values satisfy [`Date::valid`].
#[derive(Clone, Copy, Debug, PartialEq, Eq, Structural, Hash)]
pub struct Date {
    pub year: u32,
    pub month: u32,
    pub day: u32,
}

/// Whether `y` is a Gregorian leap year.
pub open spec fn is_leap_year(y: int) -> bool {
    (y % 4 == 0 && y % 100 != 0) || y % 400 == 0
}

/// The number of days in month `m` of year `y`.
pub open spec fn days_in_month(y: int, m: int) -> int {
    if m == 2 {
        if is_leap_year(y) {
            29
        } else {
            28
        }
    } else if m == 4 || m == 6 || m == 9 || m == 11 {
        30
    } else {
        31
    }
}

/// Executable leap-year test.
pub fn leap_year(y: u32) -> (r: bool)
    ensures
        r == is_leap_year(y as int),
{
    (y % 4 == 0 && y % 100 != 0) || y % 400 == 0
}

/// Executable days-in-month.
pub fn month_length(y: u32, m: u32) -> (r: u32)
    ensures
        r == days_in_month(y as int, m as int),
{
    if m == 2 {
        if leap_year(y) {
            29
        } else {
            28
        }
    } else if m == 4 || m == 6 || m == 9 || m == 11 {
        30
    } else {
        31
    }
}

impl Date {
    /// A well-formed calendar date in the years 1 through 9999.
    pub open spec fn valid(self) -> bool {
        &&& 1 <= self.year <= 9999
        &&& 1 <= self.month <= 12
        &&& 1 <= self.day <= days_in_month(self.year as int, self.month as int)
    }

    /// A single integer that orders dates chronologically: the fields packed
    /// most significant first, each in its own 32-bit lane, so that the key
    /// order is exactly the lexicographic (year, month, day) order.
    pub open spec fn key(self) -> int {
        self.year * 0x10000000000000000 + self.month * 0x100000000 + self.day
    }

    /// Builds a date; `None` when the triple is not a calendar date.
    pub fn from_ymd(year: u32, month: u32, day: u32) -> (r: Option<Date>)
        ensures
            (Date { year, month, day }).valid() <==> r == Some(Date { year, month, day }),
            !(Date { year, month, day }).valid() <==> r is None,
    {
        if 1 <= year && year <= 9999 && 1 <= month && month <= 12 && 1 <= day && day
            <= month_length(year, month) {
            Some(Date { year, month, day })
        } else {
            None
        }
    }

    /// `self` is strictly before `other`.
    pub fn lt(&self, other: &Date) -> (r: bool)
        ensures
            r == (self.key() < other.key()),
    {
        self.year < other.year || (self.year == other.year && (self.month < other.month || (
        self.month == other.month && self.day < other.day)))
    }

    /// `self` is on or before `other`.
    pub fn le(&self, other: &Date) -> (r: bool)
        ensures
            r == (self.key() <= other.key()),
    {
        !other.lt(self)
    }

    /// The previous calendar day; the first representable date is its own
    /// predecessor, an explicit floor for synthetic lower bounds.
    pub fn pred_saturating(&self) -> (r: Date)
        requires
            self.valid(),
        ensures
            r == self.pred_saturating_spec(),
            r.valid(),
            r.key() <= self.key(),
            self != (Date { year: 1, month: 1, day: 1 }) ==> r.key() < self.key(),
    {
        if self.day > 1 {
            Date { year: self.year, month: self.month, day: self.day - 1 }
        } else if self.month > 1 {
            Date {
                year: self.year,
                month: self.month - 1,
                day: month_length(self.year, self.month - 1),
            }
        } else if self.year > 1 {
            Date { year: self.year - 1, month: 12, day: 31 }
        } else {
            Date { year: 1, month: 1, day: 1 }
        }
    }

    /// What [`Date::pred_saturating`] returns.
    pub open spec fn pred_saturating_spec(self) -> Date {
        if self.day > 1 {
            Date { year: self.year, month: self.month, day: (self.day - 1) as u32 }
        } else if self.month > 1 {
            Date {
                year: self.year,
                month: (self.month - 1) as u32,
                day: days_in_month(self.year as int, self.month - 1) as u32,
            }
        } else if self.year > 1 {
            Date { year: (self.year - 1) as u32, month: 12, day: 31 }
        } else {
            Date { year: 1, month: 1, day: 1 }
        }
    }

    /// Distinct dates have distinct keys: the key loses nothing.
    pub proof fn lemma_key_injective(a: Date, b: Date)
        ensures
            a.key() == b.key() ==> a == b,
    {
        if a.key() == b.key() {
            assert(a.month * 0x100000000 + a.day < 0x10000000000000000);
            assert(b.month * 0x100000000 + b.day < 0x10000000000000000);
            assert(a.year == b.year);
            assert(a.month == b.month);
            assert(a.day == b.day);
        }
    }

    /// The `dd/mm` rendering, zero-padded.
    pub open spec fn dd_mm_view(self) -> Seq<char> {
        two_digits_view(self.day as int) + seq!['/'] + two_digits_view(self.month as int)
    }

    /// Renders the date as `dd/mm`.
    pub fn format_dd_mm(&self) -> (r: String)
        requires
            self.valid(),
        ensures
            r@ == self.dd_mm_view(),
    {
        let mut s = two_digits_string(self.day);
        s.append("/");
        s.append(two_digits_string(self.month).as_str());
        proof {
            reveal_strlit("/");
            assert(s@ =~= self.dd_mm_view());
        }
        s
    }

    /// The `yyyy-mm-dd` rendering, zero-padded.
    pub open spec fn iso_view(self) -> Seq<char> {
        four_digits_view(self.year as int) + seq!['-'] + two_digits_view(self.month as int)
            + seq!['-'] + two_digits_view(self.day as int)
    }

    /// Renders the date as `yyyy-mm-dd`.
    pub fn format_iso(&self) -> (r: String)
        requires
            self.valid(),
        ensures
            r@ == self.iso_view(),
    {
        let mut s = four_digits_string(self.year);
        s.append("-");
        s.append(two_digits_string(self.month).as_str());
        s.append("-");
        s.append(two_digits_string(self.day).as_str());
        proof {
            reveal_strlit("-");
            assert(s@ =~= self.iso_view());
        }
        s
    }
}

/// Two decimal digits, zero-padded (for values below 100).
pub open spec fn two_digits_view(n: int) -> Seq<char> {
    seq![digit_char(n / 10), digit_char(n % 10)]
}

/// Four decimal digits, zero-padded (for values below 10000).
pub open spec fn four_digits_view(n: int) -> Seq<char> {
    seq![
        digit_char(n / 1000),
        digit_char((n / 100) % 10),
        digit_char((n / 10) % 10),
        digit_char(n % 10),
    ]
}

/// Renders `n` as exactly two digits, zero-padded.
pub fn two_digits_string(n: u32) -> (r: String)
    requires
        n < 100,
    ensures
        r@ == two_digits_view(n as int),
{
    let mut s = digit_to_str((n / 10) as u64).to_owned();
    s.append(digit_to_str((n % 10) as u64));
    proof {
        assert(s@ =~= two_digits_view(n as int));
    }
    s
}

/// Renders `n` as exactly four digits, zero-padded.
pub fn four_digits_string(n: u32) -> (r: String)
    requires
        n < 10000,
    ensures
        r@ == four_digits_view(n as int),
{
    let mut s = digit_to_str((n / 1000) as u64).to_owned();
    s.append(digit_to_str(((n / 100) % 10) as u64));
    s.append(digit_to_str(((n / 10) % 10) as u64));
    s.append(digit_to_str((n % 10) as u64));
    proof {
        assert(s@ =~= four_digits_view(n as int));
    }
    s
}

} // verus!
