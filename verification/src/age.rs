//! How old a spot is.
use crate::clock::{
    clock_of, datetime_of, minutes, minutes_between, parse_clock, parse_datetime, utc_now, Moment,
};
use crate::digits::{decimal, decimal_text};
use crate::text::{same_text, trim, trimmed};
use vstd::prelude::*;
use vstd::utf8::{decode_utf8, encode_utf8, encode_utf8_decode_utf8, is_char_boundary};

verus! {

/// The age of a spot of which no time is known.
pub const UNKNOWN_AGE: i64 = 999;

/// The first 19 bytes of a text, which hold a date and a time of day without a fraction.
pub open spec fn head(t: Seq<char>) -> Seq<char> {
    let bytes = encode_utf8(t);
    if bytes.len() > 19 {
        decode_utf8(bytes.subrange(0, 19))
    } else {
        t
    }
}

/// A date and time of day, with or without what follows the seconds.
pub open spec fn full_time(t: Seq<char>) -> Option<(i64, u32)> {
    match datetime_of(t, "%Y-%m-%dT%H:%M:%S"@) {
        Some(m) => Some(m),
        None => datetime_of(head(t), "%Y-%m-%dT%H:%M:%S"@),
    }
}

/// The start of the day.
pub open spec fn midnight(now: Moment) -> int {
    now.secs - now.time_of_day()
}

/// The age that a time of day stands for: today's, or yesterday's if that is more than ten minutes
/// ahead.
pub open spec fn age_today(secs: u32, nanos: u32, now: Moment) -> int {
    let mins = minutes(now, Moment { secs: (midnight(now) + secs) as i64, nanos });
    if mins < -10 {
        mins + 1440
    } else {
        mins
    }
}

/// The text can be looked at as far as its age needs: its first 19 bytes do not end within a
/// character, unless that part is not needed.
pub open spec fn readable(text: Seq<char>) -> bool {
    let t = trim(text);
    let bytes = encode_utf8(t);
    ||| t.len() == 0
    ||| t == "-"@
    ||| datetime_of(t, "%Y-%m-%dT%H:%M:%S"@) is Some
    ||| bytes.len() <= 19
    ||| is_char_boundary(bytes, 19)
}

/// The age in minutes at a given moment of what was read: a date and time, or else a time of day.
pub open spec fn age_from(full: Option<(i64, u32)>, clock: Option<(u32, u32)>, now: Moment) -> int {
    match (full, clock) {
        (Some((secs, nanos)), _) => minutes(now, Moment { secs, nanos }),
        (None, Some((secs, nanos))) => age_today(secs, nanos, now),
        (None, None) => UNKNOWN_AGE as int,
    }
}

/// The time of day in a text of four or five bytes.
pub open spec fn day_time(t: Seq<char>) -> Option<(u32, u32)> {
    if 4 <= encode_utf8(t).len() <= 5 {
        clock_of(t, "%H:%M"@)
    } else {
        None
    }
}

/// The age in minutes at a given moment.
pub open spec fn age_at(text: Seq<char>, now: Moment) -> int {
    let t = trim(text);
    if t.len() == 0 || t == "-"@ {
        UNKNOWN_AGE as int
    } else {
        age_from(full_time(t), day_time(t), now)
    }
}

/// The age in minutes at the moment `now` of what was read: a date and time, or else a time of day.
pub fn age_of_parts(full: Option<(i64, u32)>, clock: Option<(u32, u32)>, now: Moment) -> (r: i64)
    requires
        now.valid(),
        now.secs >= 0,
        full matches Some((secs, nanos)) ==> (Moment { secs, nanos }).valid(),
        clock matches Some((secs, nanos)) ==> secs < 86_400 && nanos < 1_000_000_000,
    ensures
        r == age_from(full, clock, now),
{
    if let Some((secs, nanos)) = full {
        return minutes_between(now, Moment { secs, nanos });
    }
    match clock {
        Some((secs, nanos)) => {
            let day: i64 = now.secs - now.secs % 86_400;
            let mins: i64 = minutes_between(now, Moment { secs: day + secs as i64, nanos });
            if mins < -10 {
                mins + 1440
            } else {
                mins
            }
        },
        None => UNKNOWN_AGE,
    }
}

/// Whether the age of a text can be told.
pub fn is_readable(text: &str) -> (r: bool)
    ensures
        r == readable(text@),
{
    let t = trimmed(text);
    if t.is_empty() || same_text(t, "-") {
        return true;
    }
    if parse_datetime(t, "%Y-%m-%dT%H:%M:%S").is_some() {
        return true;
    }
    let n = t.as_bytes().len();
    n <= 19 || t.is_char_boundary(19)
}

/// The age in minutes of a spot with that time, at the moment `now`.
pub fn spot_age_minutes_at(time_str: &str, now: Moment) -> (r: i64)
    requires
        readable(time_str@),
        now.valid(),
        now.secs >= 0,
    ensures
        r == age_at(time_str@, now),
{
    let t = trimmed(time_str);
    if t.is_empty() || same_text(t, "-") {
        return UNKNOWN_AGE;
    }
    let whole = parse_datetime(t, "%Y-%m-%dT%H:%M:%S");
    if whole.is_some() {
        return age_of_parts(whole, None, now);
    }
    let n = t.as_bytes().len();
    let first = if n > 19 {
        let (front, _) = t.split_at(19);
        proof {
            encode_utf8_decode_utf8(front@);
        }
        front
    } else {
        t
    };
    assert(first@ == head(t@));
    let cut = parse_datetime(first, "%Y-%m-%dT%H:%M:%S");
    let clock = if n >= 4 && n <= 5 {
        parse_clock(t, "%H:%M")
    } else {
        None
    };
    age_of_parts(cut, clock, now)
}

/// The age in minutes of a spot with that time; `None` where it cannot be told.
pub fn spot_age_minutes(time_str: &str) -> (r: Option<i64>)
    ensures
        r is Some <==> readable(time_str@),
        r matches Some(mins) ==> exists|now: Moment|
            now.valid() && now.secs >= 0 && mins == #[trigger] age_at(time_str@, now),
        trim(time_str@).len() == 0 || trim(time_str@) == "-"@ ==> r == Some(UNKNOWN_AGE),
{
    if !is_readable(time_str) {
        return None;
    }
    let now = utc_now();
    let mins: i64 = spot_age_minutes_at(time_str, now);
    Some(mins)
}

/// An age as it is shown: `now`, `5m`, `1h5m`, or `??` where it is not known.
pub open spec fn age_text(mins: int) -> Seq<char> {
    if mins >= 999 || mins < 0 {
        "??"@
    } else if mins < 1 {
        "now"@
    } else if mins < 60 {
        decimal(mins as nat) + "m"@
    } else {
        decimal((mins / 60) as nat) + "h"@ + decimal((mins % 60) as nat) + "m"@
    }
}

/// An age as it is shown.
pub fn show_age(mins: i64) -> (r: String)
    ensures
        r@ == age_text(mins as int),
{
    if mins >= 999 || mins < 0 {
        return "??".to_owned();
    }
    if mins < 1 {
        "now".to_owned()
    } else if mins < 60 {
        let mut s = decimal_text(mins as u64);
        s.append("m");
        s
    } else {
        let mut s = decimal_text((mins / 60) as u64);
        s.append("h");
        let m = decimal_text((mins % 60) as u64);
        s.append(m.as_str());
        s.append("m");
        s
    }
}

/// The age of a spot with that time, as it is shown; `None` where it cannot be told.
pub fn spot_age_str(time_str: &str) -> (r: Option<String>)
    ensures
        r is Some <==> readable(time_str@),
        r matches Some(s) ==> exists|now: Moment|
            now.valid() && now.secs >= 0 && s@ == age_text(#[trigger] age_at(time_str@, now)),
        trim(time_str@).len() == 0 || trim(time_str@) == "-"@ ==> (r matches Some(s) && s@ == "??"@),
{
    match spot_age_minutes(time_str) {
        Some(mins) => Some(show_age(mins)),
        None => None,
    }
}

} // verus!
