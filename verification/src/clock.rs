//! Times of day as plain seconds since midnight, with the arithmetic and the
//! clock-text parsing the pollers need.

use vstd::prelude::*;

verus! {

/// Seconds in one civil day; every time-of-day value lies strictly below it.
pub const SECONDS_PER_DAY: u32 = 86400;

/// Whether `t` is a valid time of day in seconds since midnight.
pub open spec fn is_time_of_day(t: u32) -> bool {
    t < 86400
}

/// Whether `c` is an ASCII decimal digit.
pub open spec fn is_digit(c: char) -> bool {
    48 <= c as u32 && c as u32 <= 57
}

/// The numeric value of an ASCII decimal digit.
pub open spec fn digit_val(c: char) -> int {
    c as u32 - 48
}

/// Whether `s` has the shape `HH:MM` with a valid hour and minute.
pub open spec fn is_clock_text(s: Seq<char>) -> bool {
    &&& s.len() == 5
    &&& is_digit(s[0]) && is_digit(s[1])
    &&& s[2] as u32 == 58
    &&& is_digit(s[3]) && is_digit(s[4])
    &&& digit_val(s[0]) * 10 + digit_val(s[1]) < 24
    &&& digit_val(s[3]) * 10 + digit_val(s[4]) < 60
}

/// The time of day denoted by a `HH:MM` clock text, in seconds since midnight.
pub open spec fn clock_text_value(s: Seq<char>) -> int {
    (digit_val(s[0]) * 10 + digit_val(s[1])) * 3600 + (digit_val(s[3]) * 10 + digit_val(s[4])) * 60
}

/// Parses a `HH:MM` clock text into seconds since midnight; rejects every
/// other shape, hours above 23 and minutes above 59.
pub fn parse_clock_text(s: &str) -> (r: Option<u32>)
    ensures
        is_clock_text(s@) ==> r == Some(clock_text_value(s@) as u32),
        !is_clock_text(s@) ==> r is None,
        r is Some ==> is_time_of_day(r->0),
{
    if s.unicode_len() != 5 {
        return None;
    }
    let c0 = s.get_char(0);
    let c1 = s.get_char(1);
    let c2 = s.get_char(2);
    let c3 = s.get_char(3);
    let c4 = s.get_char(4);
    if !(c2 as u32 == 58) {
        return None;
    }
    if !(48 <= c0 as u32 && c0 as u32 <= 57) || !(48 <= c1 as u32 && c1 as u32 <= 57) {
        return None;
    }
    if !(48 <= c3 as u32 && c3 as u32 <= 57) || !(48 <= c4 as u32 && c4 as u32 <= 57) {
        return None;
    }
    let hours: u32 = (c0 as u32 - 48) * 10 + (c1 as u32 - 48);
    let minutes: u32 = (c3 as u32 - 48) * 10 + (c4 as u32 - 48);
    if hours >= 24 || minutes >= 60 {
        return None;
    }
    Some(hours * 3600 + minutes * 60)
}

/// The time of day reached `off` seconds after (or, when negative, before)
/// the time of day `t`, wrapping around midnight.
pub open spec fn spec_time_plus_offset(t: u32, off: i32) -> u32 {
    (((t + off) % 86400)) as u32
}

/// Adds a signed offset in seconds to a time of day, wrapping around
/// midnight in either direction.
pub fn time_plus_offset(t: u32, off: i32) -> (r: u32)
    requires
        is_time_of_day(t),
    ensures
        r == spec_time_plus_offset(t, off),
        is_time_of_day(r),
{
    let s: i64 = t as i64 + off as i64 + 2147558400i64;
    let m: i64 = s % 86400;
    proof {
        vstd::arithmetic::div_mod::lemma_mod_multiples_vanish(24856, t + off, 86400);
        assert(s == 86400 * 24856 + (t + off));
    }
    m as u32
}

/// Relies on `chrono::Local::now` and `chrono::Timelike::num_seconds_from_midnight`:
/// the number of non-leap seconds since midnight local time, always below 86400.
#[verifier::external_body]
fn local_seconds_of_day() -> (t: u32)
    ensures
        t < 86400,
{
    chrono::Timelike::num_seconds_from_midnight(&chrono::Local::now().time())
}

/// The current local wall-clock time of day, in seconds since midnight.
pub fn current_time_of_day() -> (t: u32)
    ensures
        is_time_of_day(t),
{
    local_seconds_of_day()
}

} // verus!
