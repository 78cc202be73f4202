//! Durations as text: whole hours, then minutes past the hour.
use vstd::prelude::*;

use crate::text::{decimal, push_decimal, string_from_chars};
use crate::time::{trunc_div, Duration, NANOS_PER_SEC};

verus! {

/// Whole minutes of a span of nanoseconds, rounded toward zero.
pub open spec fn whole_minutes(nanos: int) -> int {
    trunc_div(trunc_div(nanos, NANOS_PER_SEC as int), 60)
}

/// Whole hours of a span of nanoseconds, rounded toward zero.
pub open spec fn whole_hours(nanos: int) -> int {
    trunc_div(trunc_div(nanos, NANOS_PER_SEC as int), 3600)
}

/// A number below 100 with at least two digits, padded with a leading zero.
pub open spec fn two_digits(n: nat) -> Seq<char> {
    if n < 10 {
        seq!['0'] + decimal(n)
    } else {
        decimal(n)
    }
}

/// The text of a duration: `"<h>h "` when it lasts a whole hour or more, then
/// the minutes past the hour with two digits and `"m"`, or `"0m"` when it
/// lasts less than a minute (or is negative).
pub open spec fn duration_text(nanos: int) -> Seq<char> {
    let hours = whole_hours(nanos);
    let minutes = whole_minutes(nanos);
    (if hours > 0 {
        decimal(hours as nat) + seq!['h', ' ']
    } else {
        Seq::empty()
    }) + (if minutes > 0 {
        two_digits((minutes % 60) as nat) + seq!['m']
    } else {
        seq!['0', 'm']
    })
}

/// The text of a duration, as characters.
pub fn duration_chars(duration: &Duration) -> (v: Vec<char>)
    ensures
        v@ == duration_text(duration.nanos()),
{
    let mut v: Vec<char> = Vec::new();
    let hours = duration.num_hours();
    let minutes = duration.num_minutes();
    if hours > 0 {
        push_decimal(&mut v, hours as u64);
        v.push('h');
        v.push(' ');
    }
    let ghost front = v@;
    if minutes > 0 {
        let m = minutes % 60;
        if m < 10 {
            v.push('0');
        }
        push_decimal(&mut v, m as u64);
        v.push('m');
        proof {
            if m < 10 {
                assert(v@ =~= front + (seq!['0'] + decimal(m as nat)) + seq!['m']);
            } else {
                assert(v@ =~= front + decimal(m as nat) + seq!['m']);
            }
        }
    } else {
        v.push('0');
        v.push('m');
        assert(v@ =~= front + seq!['0', 'm']);
    }
    v
}

/// The text of a duration, e.g. `"2h 05m"`, `"45m"` or `"0m"`.
pub fn format_duration(duration: &Duration) -> (s: String)
    ensures
        s@ == duration_text(duration.nanos()),
{
    let v = duration_chars(duration);
    string_from_chars(&v)
}

} // verus!
