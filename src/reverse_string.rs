use vstd::prelude::*;

use crate::text::{chars_of, push_chars};

verus! {

/// The characters of `input` in reverse order.
pub fn reverse(input: &str) -> (r: String)
    ensures
        r@ == input@.reverse(),
{
    let s = chars_of(input);
    let len = s.len();
    let mut t: Vec<char> = Vec::new();
    let mut i: usize = 0;
    while i < len
        invariant
            len == s@.len(),
            i <= len,
            t@.len() == i,
            forall|j: int| 0 <= j < i ==> t@[j] == s@[len - 1 - j],
        decreases len - i,
    {
        t.push(s[len - i - 1]);
        i = i + 1;
    }
    let mut r = String::new();
    push_chars(&mut r, &t);
    assert(r@ =~= input@.reverse());
    r
}

/// Division truncating toward zero, by a positive divisor.
pub open spec fn trunc_div(a: int, b: int) -> int {
    if a >= 0 {
        a / b
    } else {
        -((-a) / b)
    }
}

/// The remainder of `trunc_div`; it has the sign of `a`.
pub open spec fn trunc_rem(a: int, b: int) -> int {
    if a >= 0 {
        a % b
    } else {
        -((-a) % b)
    }
}

/// A time of day kept as hours and minutes. Adding minutes carries whole hours
/// into the hours and keeps the rest, sign included, as the minutes.
#[derive(Debug)]
pub struct Clock {
    hours: i32,
    minutes: i32,
}

impl Clock {
    pub closed spec fn hours_spec(&self) -> int {
        self.hours as int
    }

    pub closed spec fn minutes_spec(&self) -> int {
        self.minutes as int
    }

    pub fn new(hours: i32, minutes: i32) -> (r: Self)
        ensures
            r.hours_spec() == hours,
            r.minutes_spec() == minutes,
    {
        Self { hours, minutes }
    }

    pub fn add_minutes(&self, minutes: i32) -> (r: Self)
        requires
            i32::MIN <= self.minutes_spec() + minutes <= i32::MAX,
            i32::MIN <= self.hours_spec() + trunc_div(self.minutes_spec() + minutes, 60)
                <= i32::MAX,
        ensures
            r.minutes_spec() == trunc_rem(self.minutes_spec() + minutes, 60),
            r.hours_spec() == trunc_rem(
                self.hours_spec() + trunc_div(self.minutes_spec() + minutes, 60),
                24,
            ),
    {
        let total = self.minutes + minutes;
        let dif_hours = total.checked_div(60).unwrap();
        let rest = total.checked_rem(60).unwrap();
        let hours = (self.hours + dif_hours).checked_rem(24).unwrap();
        Clock::new(hours, rest)
    }

    /// The hours brought into `0..24`, with the minutes as `add_minutes(0)` leaves them.
    pub open spec fn shown(&self) -> (int, int) {
        (
            trunc_rem(self.hours_spec() + trunc_div(self.minutes_spec(), 60), 24) % 24,
            trunc_rem(self.minutes_spec(), 60),
        )
    }

    /// What `shown` describes, computed wide enough that nothing overflows.
    fn settled(&self) -> (r: (i64, i64))
        ensures
            (r.0 as int, r.1 as int) == self.shown(),
    {
        let m = self.minutes as i64;
        let dif_hours = m.checked_div(60).unwrap();
        let rest = m.checked_rem(60).unwrap();
        let hours = (self.hours as i64 + dif_hours).checked_rem(24).unwrap();
        ((hours + 24).checked_rem(24).unwrap(), rest)
    }
}

impl PartialEq for Clock {
    fn eq(&self, other: &Clock) -> (r: bool)
        ensures
            r == (self.shown() == other.shown()),
    {
        let (h1, m1) = self.settled();
        let (h2, m2) = other.settled();
        h1 == h2 && m1 == m2
    }
}

impl vstd::std_specs::cmp::PartialEqSpecImpl for Clock {
    open spec fn obeys_eq_spec() -> bool {
        true
    }

    open spec fn eq_spec(&self, other: &Clock) -> bool {
        self.shown() == other.shown()
    }
}

impl Eq for Clock {}

} // verus!
