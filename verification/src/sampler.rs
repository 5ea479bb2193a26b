//! The random-date sampler: three nested uniform draws (year, then month,
//! then day) whose bounds depend on the current date. The distribution is
//! deliberately lumpy — it favours early months of the first and the current
//! year — and February is always given 28 days for the day draw; both quirks
//! are part of the sampler's behaviour, not accidents.

use vstd::prelude::*;

use crate::date::{spec_days_in_month, CalendarDate};
use crate::url::in_comic_range;

verus! {

/// A supplier of uniformly distributed integers within caller-given
/// inclusive bounds. Passed explicitly so that draws are seedable and
/// deterministic under test.
pub trait RandomSource {
    /// Draw an integer from the inclusive range `[lo, hi]`.
    fn pick(&mut self, lo: u32, hi: u32) -> (r: u32)
        requires
            lo <= hi,
        ensures
            lo <= r <= hi,
    ;
}

/// Operating-system-seeded randomness; every draw consumes fresh entropy.
pub struct EntropySource;

/// Relies on rand::random_range: the draw lies within `lo..=hi`, and the
/// range is non-empty, so the call does not panic.
#[verifier::external_body]
fn draw_uniform(lo: u32, hi: u32) -> (r: u32)
    requires
        lo <= hi,
    ensures
        lo <= r <= hi,
{
    rand::random_range(lo..=hi)
}

impl RandomSource for EntropySource {
    fn pick(&mut self, lo: u32, hi: u32) -> (r: u32) {
        draw_uniform(lo, hi)
    }
}

/// A small deterministic linear-congruential source for reproducible draws.
pub struct Lcg {
    pub state: u32,
}

impl Lcg {
    pub fn new(seed: u32) -> (r: Lcg)
        ensures
            r.state == seed,
    {
        Lcg { state: seed }
    }
}

impl RandomSource for Lcg {
    fn pick(&mut self, lo: u32, hi: u32) -> (r: u32) {
        let next = ((self.state as u64 * 1103515245 + 12345) % 0x8000_0000) as u32;
        self.state = next;
        let span = hi - lo;
        if span == u32::MAX {
            next
        } else {
            lo + next % (span + 1)
        }
    }
}

/// Day count per month for the day draw: a fixed table that never gives
/// February more than 28 days, and 31 for anything that is not a month.
pub open spec fn spec_month_len(m: int) -> int {
    if m == 2 {
        28
    } else if m == 4 || m == 6 || m == 9 || m == 11 {
        30
    } else {
        31
    }
}

/// Executable counterpart of `spec_month_len`.
pub fn get_month_len(month: u32) -> (n: u32)
    ensures
        n == spec_month_len(month as int),
{
    match month {
        1 => 31,
        2 => 28,
        3 => 31,
        4 => 30,
        5 => 31,
        6 => 30,
        7 => 31,
        8 => 31,
        9 => 30,
        10 => 31,
        11 => 30,
        12 => 31,
        _ => 31,
    }
}

/// The day draw for the current year is bounded by today's day-of-month
/// whatever month was drawn, so today's day-of-month must fit every month
/// up to today's; otherwise the draws could name an impossible day.
pub open spec fn sample_safe(today: CalendarDate) -> bool {
    forall|m: int|
        1 <= m <= today.month ==> today.day as int <= spec_days_in_month(today.year as int, m)
}

/// Draw a pseudo-random date that the resolver accepts against the same
/// `today`, for every possible outcome of the draws.
pub fn sample_random_date<R: RandomSource>(today: CalendarDate, rng: &mut R) -> (d: CalendarDate)
    requires
        today.wf(),
        today.year >= 1979,
        sample_safe(today),
    ensures
        d.wf(),
        in_comic_range(d, today),
        1978 <= d.year <= today.year,
        d.year == 1978 ==> d.month >= 6 && (d.month == 6 ==> d.day >= 19),
        d.year == today.year ==> d.month <= today.month && d.day <= today.day,
        d.year != today.year ==> d.day as int <= spec_month_len(d.month as int),
{
    let year = rng.pick(1978, today.year);
    let month = if year == 1978 {
        rng.pick(6, 12)
    } else if year == today.year {
        rng.pick(1, today.month)
    } else {
        rng.pick(1, 12)
    };
    let day = if year == 1978 {
        if month == 6 {
            rng.pick(19, 30)
        } else {
            rng.pick(1, get_month_len(month))
        }
    } else if year == today.year {
        rng.pick(1, today.day)
    } else {
        rng.pick(1, get_month_len(month))
    };
    let d = CalendarDate { year, month, day };
    proof {
        assert(spec_month_len(month as int) <= spec_days_in_month(year as int, month as int));
        if year == today.year {
            assert(today.day as int <= spec_days_in_month(today.year as int, month as int));
        }
    }
    d
}

/// The fixed joke dates behind the "tomorrow" command, one of three
/// hardcoded past days, drawn uniformly.
pub fn tomorrow_joke_date<R: RandomSource>(rng: &mut R) -> (d: CalendarDate)
    ensures
        d.wf(),
        d == (CalendarDate { year: 2017, month: 8, day: 7 }) || d == (CalendarDate {
            year: 2015,
            month: 1,
            day: 8,
        }) || d == (CalendarDate { year: 1998, month: 11, day: 14 }),
{
    let i = rng.pick(0, 2);
    if i == 0 {
        CalendarDate { year: 2017, month: 8, day: 7 }
    } else if i == 1 {
        CalendarDate { year: 2015, month: 1, day: 8 }
    } else {
        CalendarDate { year: 1998, month: 11, day: 14 }
    }
}

} // verus!
