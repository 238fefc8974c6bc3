//! Project dates whose month and day may be unknown.

use core::cmp::Ordering;
use vstd::prelude::*;
use vstd::string::StringExecFns;

use crate::text::{decimal, decimal_string};

verus! {

/// A calendar date whose month and day may be unknown.
#[derive(Clone, Copy, Debug, PartialEq, Eq, Structural)]
pub struct Date {
    pub year: u16,
    pub month: Option<u16>,
    pub day: Option<u16>,
}

/// Order of two numbers.
pub open spec fn num_order(a: int, b: int) -> Ordering {
    if a < b {
        Ordering::Less
    } else if a > b {
        Ordering::Greater
    } else {
        Ordering::Equal
    }
}

/// Order of two optional parts of equal rank: a known part sorts after an
/// unknown one.
pub open spec fn known_order(a: bool, b: bool) -> Ordering {
    if a && !b {
        Ordering::Greater
    } else if !a && b {
        Ordering::Less
    } else {
        Ordering::Equal
    }
}

/// The chronological order of dates: by year, then month, then day. A date
/// with a part known sorts after one without it; days count only when both
/// months are known and equal.
pub open spec fn date_order(a: Date, b: Date) -> Ordering {
    if a.year != b.year {
        num_order(a.year as int, b.year as int)
    } else {
        match (a.month, b.month) {
            (Some(am), Some(bm)) => if am != bm {
                num_order(am as int, bm as int)
            } else {
                match (a.day, b.day) {
                    (Some(ad), Some(bd)) => num_order(ad as int, bd as int),
                    _ => known_order(a.day is Some, b.day is Some),
                }
            },
            _ => known_order(a.month is Some, b.month is Some),
        }
    }
}

/// The three-letter lower-case name of month `m`, or nothing outside 1..=12.
pub open spec fn month_abbrev(m: int) -> Seq<char> {
    if m == 1 {
        "jan"@
    } else if m == 2 {
        "feb"@
    } else if m == 3 {
        "mar"@
    } else if m == 4 {
        "apr"@
    } else if m == 5 {
        "may"@
    } else if m == 6 {
        "jun"@
    } else if m == 7 {
        "jul"@
    } else if m == 8 {
        "aug"@
    } else if m == 9 {
        "sep"@
    } else if m == 10 {
        "oct"@
    } else if m == 11 {
        "nov"@
    } else if m == 12 {
        "dec"@
    } else {
        Seq::empty()
    }
}

/// The date written as "day mon year", leaving out unknown parts.
pub open spec fn date_text(d: Date) -> Seq<char> {
    let day_part = match d.day {
        Some(x) => decimal(x as nat) + " "@,
        None => Seq::empty(),
    };
    let month_part = match d.month {
        Some(m) => month_abbrev(m as int) + " "@,
        None => Seq::empty(),
    };
    day_part + month_part + decimal(d.year as nat)
}

fn order_of(a: u16, b: u16) -> (r: Ordering)
    ensures
        r == num_order(a as int, b as int),
{
    if a < b {
        Ordering::Less
    } else if a > b {
        Ordering::Greater
    } else {
        Ordering::Equal
    }
}

fn order_of_known(a: bool, b: bool) -> (r: Ordering)
    ensures
        r == known_order(a, b),
{
    if a && !b {
        Ordering::Greater
    } else if !a && b {
        Ordering::Less
    } else {
        Ordering::Equal
    }
}

fn month_name(m: u16) -> (r: &'static str)
    ensures
        r@ == month_abbrev(m as int),
{
    if m == 1 {
        "jan"
    } else if m == 2 {
        "feb"
    } else if m == 3 {
        "mar"
    } else if m == 4 {
        "apr"
    } else if m == 5 {
        "may"
    } else if m == 6 {
        "jun"
    } else if m == 7 {
        "jul"
    } else if m == 8 {
        "aug"
    } else if m == 9 {
        "sep"
    } else if m == 10 {
        "oct"
    } else if m == 11 {
        "nov"
    } else if m == 12 {
        "dec"
    } else {
        proof {
            reveal_strlit("");
        }
        ""
    }
}

impl Date {
    /// Compares two dates chronologically.
    pub fn compare(&self, other: &Date) -> (r: Ordering)
        ensures
            r == date_order(*self, *other),
    {
        if self.year != other.year {
            return order_of(self.year, other.year);
        }
        match (self.month, other.month) {
            (Some(am), Some(bm)) => {
                if am != bm {
                    order_of(am, bm)
                } else {
                    match (self.day, other.day) {
                        (Some(ad), Some(bd)) => order_of(ad, bd),
                        _ => order_of_known(self.day.is_some(), other.day.is_some()),
                    }
                }
            },
            _ => order_of_known(self.month.is_some(), other.month.is_some()),
        }
    }

    /// The date as text, such as "5 mar 2021", "mar 2021" or "2021".
    pub fn to_string(&self) -> (r: String)
        ensures
            r@ == date_text(*self),
    {
        let mut out = String::new();
        if let Some(d) = self.day {
            out.append(decimal_string(d as u64).as_str());
            out.append(" ");
        }
        if let Some(m) = self.month {
            out.append(month_name(m));
            out.append(" ");
        }
        out.append(decimal_string(self.year as u64).as_str());
        assert(out@ =~= date_text(*self));
        out
    }
}

impl PartialOrd for Date {
    fn partial_cmp(&self, other: &Date) -> (r: Option<Ordering>) {
        Some(self.compare(other))
    }
}

impl vstd::std_specs::cmp::PartialOrdSpecImpl for Date {
    open spec fn obeys_partial_cmp_spec() -> bool {
        true
    }

    open spec fn partial_cmp_spec(&self, other: &Date) -> Option<Ordering> {
        Some(date_order(*self, *other))
    }
}

} // verus!
