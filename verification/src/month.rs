//! Calendar months.
//!
//! A `Month` is a year and month pair.  It bounds the trips of a month-mode
//! report through `first_of` and `last_of`, renders its human name, and is
//! parsed from the year and month route parameters.

use crate::date::{days_in_month, month_length, Date};
use crate::text::{all_digits, dec_val, dec_view, parse_u32, u64_to_string};
use vstd::prelude::*;
use vstd::string::StringExecFns;

verus! {

/// A calendar month.  Valid values satisfy [`Month::valid`].
#[derive(Clone, Copy, Debug, PartialEq, Eq, Structural, Hash)]
pub struct Month {
    pub year: u32,
    pub month: u32,
}

impl Month {
    /// A month of a year the library represents.
    pub open spec fn valid(self) -> bool {
        &&& 1 <= self.year <= 9999
        &&& 1 <= self.month <= 12
    }

    /// A single integer that orders months chronologically: the fields
    /// packed most significant first, each in its own 32-bit lane, so the
    /// key order is exactly the lexicographic (year, month) order.
    pub open spec fn key(self) -> int {
        self.year * 0x100000000 + self.month
    }

    /// Distinct months have distinct keys.
    pub proof fn lemma_key_injective(a: Month, b: Month)
        ensures
            a.key() == b.key() ==> a == b,
    {
    }

    /// A later date never belongs to an earlier month.
    pub proof fn lemma_of_date_monotone(a: Date, b: Date)
        ensures
            a.key() <= b.key() ==> Month::of_date_spec(a).key() <= Month::of_date_spec(b).key(),
    {
        if a.key() <= b.key() && Month::of_date_spec(a).key() > Month::of_date_spec(b).key() {
            assert(a.year * 0x100000000 + a.month >= b.year * 0x100000000 + b.month + 1);
            assert(a.year * 0x10000000000000000 + a.month * 0x100000000 >= b.year
                * 0x10000000000000000 + b.month * 0x100000000 + 0x100000000) by {
                assert((a.year * 0x100000000 + a.month) * 0x100000000 >= (b.year * 0x100000000
                    + b.month + 1) * 0x100000000) by (nonlinear_arith)
                    requires
                        a.year * 0x100000000 + a.month >= b.year * 0x100000000 + b.month + 1,
                ;
            }
            assert(a.day < 0x100000000);
            assert(false);
        }
    }

    /// Builds the pair; validity is checked where the month is used.
    pub fn new(year: u32, month: u32) -> (r: Month)
        ensures
            r == (Month { year, month }),
    {
        Month { year, month }
    }

    /// The first calendar day of the month.
    pub fn first_of(&self) -> (r: Date)
        requires
            self.valid(),
        ensures
            r == (Date { year: self.year, month: self.month, day: 1 }),
            r.valid(),
    {
        Date { year: self.year, month: self.month, day: 1 }
    }

    /// The last calendar day of the month; the day count follows the
    /// Gregorian rules, so a December value rolls over to the new year's eve.
    pub fn last_of(&self) -> (r: Date)
        requires
            self.valid(),
        ensures
            r == (Date {
                year: self.year,
                month: self.month,
                day: days_in_month(self.year as int, self.month as int) as u32,
            }),
            r.valid(),
    {
        Date { year: self.year, month: self.month, day: month_length(self.year, self.month) }
    }

    /// Parses the year and month route parameters.  Succeeds exactly when
    /// both are non-empty digit strings whose values fit in a `u32`; the
    /// pair's calendar validity is the caller's separate check.
    pub fn from_params(y: &str, m: &str) -> (r: Option<Month>)
        ensures
            (y@.len() > 0 && all_digits(y@) && dec_val(y@) <= u32::MAX && m@.len() > 0
                && all_digits(m@) && dec_val(m@) <= u32::MAX) ==> r == Some(
                Month { year: dec_val(y@) as u32, month: dec_val(m@) as u32 },
            ),
            !(y@.len() > 0 && all_digits(y@) && dec_val(y@) <= u32::MAX && m@.len() > 0
                && all_digits(m@) && dec_val(m@) <= u32::MAX) ==> r is None,
    {
        match (parse_u32(y), parse_u32(m)) {
            (Some(year), Some(month)) => Some(Month { year, month }),
            _ => None,
        }
    }

    /// The month's name in the report locale.
    pub open spec fn name_view(self) -> Seq<char> {
        let m = self.month as int;
        if m == 1 {
            "januari"@
        } else if m == 2 {
            "februari"@
        } else if m == 3 {
            "mars"@
        } else if m == 4 {
            "april"@
        } else if m == 5 {
            "maj"@
        } else if m == 6 {
            "juni"@
        } else if m == 7 {
            "juli"@
        } else if m == 8 {
            "augusti"@
        } else if m == 9 {
            "september"@
        } else if m == 10 {
            "oktober"@
        } else if m == 11 {
            "november"@
        } else {
            "december"@
        }
    }

    /// The month's name in the report locale.
    pub fn human_month_name(&self) -> (r: &'static str)
        requires
            1 <= self.month <= 12,
        ensures
            r@ == self.name_view(),
    {
        match self.month {
            1 => "januari",
            2 => "februari",
            3 => "mars",
            4 => "april",
            5 => "maj",
            6 => "juni",
            7 => "juli",
            8 => "augusti",
            9 => "september",
            10 => "oktober",
            11 => "november",
            _ => "december",
        }
    }

    /// The heading rendering: name, a space, then the year.
    pub open spec fn human_view(self) -> Seq<char> {
        self.name_view() + seq![' '] + dec_view(self.year as int)
    }

    /// Renders the month heading, e.g. "december 2024".
    pub fn fmt_human(&self) -> (r: String)
        requires
            self.valid(),
        ensures
            r@ == self.human_view(),
    {
        let mut s = self.human_month_name().to_owned();
        s.append(" ");
        s.append(u64_to_string(self.year as u64).as_str());
        proof {
            reveal_strlit(" ");
            assert(s@ =~= self.human_view());
        }
        s
    }

    /// The month before the one `today` falls in; the first representable
    /// month is its own predecessor.
    pub open spec fn prev_month_spec(today: Date) -> Month {
        if today.month > 1 {
            Month { year: today.year, month: (today.month - 1) as u32 }
        } else if today.year > 1 {
            Month { year: (today.year - 1) as u32, month: 12 }
        } else {
            Month { year: 1, month: 1 }
        }
    }

    /// The month before the one `today` falls in.
    pub fn prev_month(today: Date) -> (r: Month)
        requires
            today.valid(),
        ensures
            r == Month::prev_month_spec(today),
            r.valid(),
    {
        if today.month > 1 {
            Month { year: today.year, month: today.month - 1 }
        } else if today.year > 1 {
            Month { year: today.year - 1, month: 12 }
        } else {
            Month { year: 1, month: 1 }
        }
    }

    /// Settles a report's month from its route parameters: the parsed pair
    /// when both are digit strings forming a calendar month, otherwise the
    /// previous calendar month — never the current, known-incomplete one.
    pub fn report_month(y: &str, m: &str, today: Date) -> (r: Month)
        requires
            today.valid(),
        ensures
            ({
                let sound = y@.len() > 0 && all_digits(y@) && 1 <= dec_val(y@) <= 9999
                    && m@.len() > 0 && all_digits(m@) && 1 <= dec_val(m@) <= 12;
                &&& sound ==> r == (Month {
                    year: dec_val(y@) as u32,
                    month: dec_val(m@) as u32,
                })
                &&& !sound ==> r == Month::prev_month_spec(today)
            }),
            r.valid(),
    {
        if let Some(month) = Month::from_params(y, m) {
            if 1 <= month.year && month.year <= 9999 && 1 <= month.month && month.month <= 12 {
                proof {
                    crate::text::lemma_dec_val_nonneg(y@);
                    crate::text::lemma_dec_val_nonneg(m@);
                }
                return month;
            }
            proof {
                crate::text::lemma_dec_val_nonneg(y@);
                crate::text::lemma_dec_val_nonneg(m@);
            }
        }
        Month::prev_month(today)
    }

    /// The month a date belongs to.
    pub open spec fn of_date_spec(d: Date) -> Month {
        Month { year: d.year, month: d.month }
    }

    /// The month a date belongs to.
    pub fn of_date(d: &Date) -> (r: Month)
        ensures
            r == Month::of_date_spec(*d),
    {
        Month { year: d.year, month: d.month }
    }
}

} // verus!
