//! Mapping a calendar date to the comic's content URL, validated against
//! the publication range: from the first strip, 1978-06-19, through today.

use vstd::prelude::*;

use crate::date::{four_digits, push_four_digits, push_two_digits, two_digits, CalendarDate};

verus! {

/// A syntactically valid date outside the publication range.
#[derive(Clone, Copy, PartialEq, Eq, Structural, Debug)]
pub struct OutOfRange;

/// The first publication day, 1978-06-19 (itself a valid request).
pub open spec fn spec_earliest() -> CalendarDate {
    CalendarDate { year: 1978, month: 6, day: 19 }
}

/// The earliest publication day as a value.
pub fn earliest() -> (d: CalendarDate)
    ensures
        d == spec_earliest(),
        d.wf(),
{
    CalendarDate { year: 1978, month: 6, day: 19 }
}

/// A date is in the publication range when it is neither before the first
/// strip nor after the caller-supplied current date.
pub open spec fn in_comic_range(date: CalendarDate, today: CalendarDate) -> bool {
    spec_earliest().key() <= date.key() <= today.key()
}

/// The full content URL for a date:
/// `https://d1ejxu6vysztl5.cloudfront.net/comics/garfield/{year}/{year}-{month:02}-{day:02}.gif?format=png`.
pub open spec fn url_view(date: CalendarDate) -> Seq<char> {
    "https://d1ejxu6vysztl5.cloudfront.net/comics/garfield/"@ + four_digits(date.year as int)
        + "/"@ + four_digits(date.year as int) + "-"@ + two_digits(date.month as int) + "-"@
        + two_digits(date.day as int) + ".gif?format=png"@
}

/// Resolve a date against the caller-supplied current date: the content URL
/// when the date is in range, `OutOfRange` otherwise. Pure and deterministic.
pub fn resolve(date: CalendarDate, today: CalendarDate) -> (r: Result<String, OutOfRange>)
    requires
        date.wf(),
        today.wf(),
    ensures
        r is Ok <==> in_comic_range(date, today),
        r matches Ok(url) ==> url@ == url_view(date),
        r matches Err(e) ==> e == OutOfRange && !in_comic_range(date, today),
{
    let early = earliest();
    if !date.is_before(&early) && !today.is_before(&date) {
        let mut s = String::new();
        s.append("https://d1ejxu6vysztl5.cloudfront.net/comics/garfield/");
        push_four_digits(&mut s, date.year);
        s.append("/");
        push_four_digits(&mut s, date.year);
        s.append("-");
        push_two_digits(&mut s, date.month);
        s.append("-");
        push_two_digits(&mut s, date.day);
        s.append(".gif?format=png");
        proof {
            assert(s@ =~= url_view(date));
        }
        Ok(s)
    } else {
        Err(OutOfRange)
    }
}

} // verus!
