use vstd::prelude::*;

verus! {

/// A year is a leap year when it is divisible by 4, except for century years
/// that are not divisible by 400.
pub open spec fn leap_year(year: nat) -> bool {
    (year % 4 == 0 && year % 100 != 0) || year % 400 == 0
}

pub fn is_leap_year(year: u64) -> (r: bool)
    ensures
        r == leap_year(year as nat),
{
    let d4 = year % 4 == 0;
    let d100 = year % 100 == 0;
    let d400 = year % 400 == 0;
    d4 && !d100 || d400
}

} // verus!
