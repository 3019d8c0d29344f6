use vstd::prelude::*;

use crate::text::{digit_char, push_char};

verus! {

/// The minute of the day, `0..1440`, that `hours` and `minutes` past midnight stand for.
pub open spec fn minute_of_day(hours: int, minutes: int) -> int {
    (hours * 60 + minutes) % 1440
}

/// A time of day, held as hours and minutes that may lie outside their usual
/// ranges; two clocks that show the same time are equal.
#[derive(Debug)]
pub struct Clock {
    hours: i32,
    minutes: i32,
}

impl Clock {
    pub closed spec fn hours_spec(&self) -> int {
        self.hours as int
    }

    pub closed spec fn minutes_spec(&self) -> int {
        self.minutes as int
    }

    /// The minute of the day this clock shows.
    pub open spec fn shown(&self) -> int {
        minute_of_day(self.hours_spec(), self.minutes_spec())
    }

    pub fn new(hours: i32, minutes: i32) -> (r: Self)
        ensures
            r.hours_spec() == hours,
            r.minutes_spec() == minutes,
    {
        Self { hours, minutes }
    }

    /// The clock `minutes` later (earlier, if negative).
    pub fn add_minutes(&self, minutes: i32) -> (r: Self)
        requires
            i32::MIN <= self.minutes_spec() + minutes <= i32::MAX,
        ensures
            r.hours_spec() == self.hours_spec(),
            r.minutes_spec() == self.minutes_spec() + minutes,
            r.shown() == minute_of_day(self.hours_spec(), self.minutes_spec() + minutes),
    {
        Clock::new(self.hours, self.minutes + minutes)
    }

    /// The hour (`0..24`) and minute (`0..60`) shown.
    fn normalize(&self) -> (r: (i32, i32))
        ensures
            r.0 == self.shown() / 60,
            r.1 == self.shown() % 60,
            0 <= r.0 < 24,
            0 <= r.1 < 60,
    {
        let t: i64 = (self.hours as i64) * 60 + (self.minutes as i64);
        let u: u64 = (t + 144_000_000_000) as u64;
        let d: u64 = u % 1440;
        assert(d == (self.hours * 60 + self.minutes) % 1440) by {
            assert((t + 144_000_000_000) % 1440 == t % 1440);
        }
        ((d / 60) as i32, (d % 60) as i32)
    }

    /// The time shown as `HH:MM`.
    pub fn to_string(&self) -> (r: String)
        ensures
            r@ == seq![
                digit_char((self.shown() / 600) as nat),
                digit_char((self.shown() / 60 % 10) as nat),
                ':',
                digit_char((self.shown() % 60 / 10) as nat),
                digit_char((self.shown() % 10) as nat),
            ],
    {
        let (h, m) = self.normalize();
        let mut s = String::new();
        push_char(&mut s, ((h / 10) as u8 + 48u8) as char);
        push_char(&mut s, ((h % 10) as u8 + 48u8) as char);
        push_char(&mut s, ':');
        push_char(&mut s, ((m / 10) as u8 + 48u8) as char);
        push_char(&mut s, ((m % 10) as u8 + 48u8) as char);
        assert(s@ =~= seq![
            digit_char((self.shown() / 600) as nat),
            digit_char((self.shown() / 60 % 10) as nat),
            ':',
            digit_char((self.shown() % 60 / 10) as nat),
            digit_char((self.shown() % 10) as nat),
        ]);
        s
    }
}

impl PartialEq for Clock {
    fn eq(&self, other: &Clock) -> (r: bool)
        ensures
            r == (self.shown() == other.shown()),
    {
        let (h1, m1) = self.normalize();
        let (h2, m2) = other.normalize();
        h1 == h2 && m1 == m2
    }
}

impl vstd::std_specs::cmp::PartialEqSpecImpl for Clock {
    open spec fn obeys_eq_spec() -> bool {
        true
    }

    open spec fn eq_spec(&self, other: &Clock) -> bool {
        self.shown() == other.shown()
    }
}

impl Eq for Clock {}

} // verus!
