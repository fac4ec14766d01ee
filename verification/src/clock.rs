//! Points in time, by way of chrono.
use crate::digits::two_digits;
use vstd::prelude::*;

verus! {

/// A point in time: whole seconds since the start of 1970 in UTC, and nanoseconds. During a leap
/// second the nanoseconds go on past a full second.
#[derive(Clone, Copy)]
pub struct Moment {
    pub secs: i64,
    pub nanos: u32,
}

impl Moment {
    /// The moments that chrono can represent.
    pub open spec fn valid(self) -> bool {
        &&& -8334601228800 <= self.secs <= 8210266876799
        &&& self.nanos < 2_000_000_000
        &&& self.nanos >= 1_000_000_000 ==> self.secs % 60 == 59
    }

    /// Seconds since midnight.
    pub open spec fn time_of_day(self) -> int {
        self.secs as int % 86_400
    }
}

/// `a` divided by `b`, without the fraction.
pub open spec fn quotient(a: int, b: int) -> int {
    if a >= 0 {
        a / b
    } else {
        -((-a) / b)
    }
}

/// The nanoseconds from `earlier` to `later`. A leap second under way at the one that is earlier
/// in its day is counted.
pub open spec fn nanos_between(later: Moment, earlier: Moment) -> int {
    let leap = if later.time_of_day() > earlier.time_of_day() && earlier.nanos >= 1_000_000_000 {
        1int
    } else if later.time_of_day() < earlier.time_of_day() && later.nanos >= 1_000_000_000 {
        -1int
    } else {
        0int
    };
    (later.secs - earlier.secs + leap) * 1_000_000_000 + (later.nanos - earlier.nanos)
}

/// The full minutes from `earlier` to `later`, negative where `later` comes first.
pub open spec fn minutes(later: Moment, earlier: Moment) -> int {
    quotient(nanos_between(later, earlier), 60_000_000_000)
}

/// `chrono::Utc::now`: the time of the machine's clock. Where that clock stands before 1970 it does
/// not return.
#[verifier::external_body]
pub(crate) fn utc_now() -> (r: Moment)
    ensures
        r.valid(),
        r.secs >= 0,
        r.nanos < 1_000_000_000,
{
    let now = chrono::Utc::now();
    Moment { secs: now.timestamp(), nanos: now.timestamp_subsec_nanos() }
}

/// What `chrono::NaiveDateTime::parse_from_str` reads from a text, as seconds since the start of
/// 1970 and nanoseconds.
pub uninterp spec fn datetime_of(text: Seq<char>, format: Seq<char>) -> Option<(i64, u32)>;

/// `chrono::NaiveDateTime::parse_from_str`, the result taken as a time in UTC. What it reads
/// depends on the text and the format alone, and is a moment that chrono can represent.
#[verifier::external_body]
pub(crate) fn parse_datetime(text: &str, format: &str) -> (r: Option<(i64, u32)>)
    ensures
        r == datetime_of(text@, format@),
        r matches Some((secs, nanos)) ==> (Moment { secs, nanos }).valid(),
{
    match chrono::NaiveDateTime::parse_from_str(text, format) {
        Ok(t) => Some((t.and_utc().timestamp(), t.and_utc().timestamp_subsec_nanos())),
        Err(_) => None,
    }
}

/// What `chrono::NaiveTime::parse_from_str` reads from a text, as seconds since midnight and
/// nanoseconds.
pub uninterp spec fn clock_of(text: Seq<char>, format: Seq<char>) -> Option<(u32, u32)>;

/// Two digits, a colon and two digits, for a time of day.
pub open spec fn hour_and_minute(hour: nat, minute: nat) -> Seq<char> {
    two_digits(hour) + seq![':'] + two_digits(minute)
}

/// `chrono::NaiveTime::parse_from_str`. What it reads depends on the text and the format alone. With
/// the format `%H:%M` there are no nanoseconds, and a time of day written with two digits for the
/// hour and two for the minute is read as it stands.
#[verifier::external_body]
pub(crate) fn parse_clock(text: &str, format: &str) -> (r: Option<(u32, u32)>)
    ensures
        r == clock_of(text@, format@),
        r matches Some((secs, nanos)) ==> secs < 86_400 && nanos < 2_000_000_000,
        format@ == "%H:%M"@ ==> (r matches Some((secs, nanos)) ==> nanos == 0),
        format@ == "%H:%M"@ ==> forall|h: nat, m: nat|
            h < 24 && m < 60 && text@ == #[trigger] hour_and_minute(h, m) ==> r == Some(
                (((h * 60 + m) * 60) as u32, 0u32),
            ),
{
    match chrono::NaiveTime::parse_from_str(text, format) {
        Ok(t) => Some((
            chrono::Timelike::num_seconds_from_midnight(&t),
            chrono::Timelike::nanosecond(&t),
        )),
        Err(_) => None,
    }
}

/// `DateTime<Utc> - DateTime<Utc>` and `TimeDelta::num_minutes`: the full minutes between two
/// moments.
#[verifier::external_body]
pub(crate) fn minutes_between(later: Moment, earlier: Moment) -> (r: i64)
    requires
        later.valid(),
        earlier.valid(),
    ensures
        r == minutes(later, earlier),
{
    let a = chrono::DateTime::from_timestamp(later.secs, later.nanos).unwrap();
    let b = chrono::DateTime::from_timestamp(earlier.secs, earlier.nanos).unwrap();
    (a - b).num_minutes()
}

/// What `chrono::DateTime<Utc>::format` writes.
pub uninterp spec fn formatted(secs: i64, nanos: u32, format: Seq<char>) -> Seq<char>;

/// `chrono::DateTime<Utc>::format`. What it writes depends on the moment and the format alone; for
/// `%H:%M` it is the hour and the minute with two digits each. It is asked only for the two formats
/// that it is known to write.
#[verifier::external_body]
pub(crate) fn format_utc(t: Moment, format: &str) -> (r: String)
    requires
        t.valid(),
        format@ == "%Y/%m/%d"@ || format@ == "%H:%M"@,
    ensures
        r@ == formatted(t.secs, t.nanos, format@),
        format@ == "%H:%M"@ ==> r@ == hour_and_minute(
            (t.time_of_day() / 3600) as nat,
            (t.time_of_day() / 60 % 60) as nat,
        ),
{
    let t = chrono::DateTime::from_timestamp(t.secs, t.nanos).unwrap();
    t.format(format).to_string()
}

/// Between two moments that lie `k` full minutes and some seconds apart, both outside a leap second,
/// there are `k` minutes.
pub proof fn law_minutes(later: Moment, earlier: Moment, k: int)
    requires
        later.nanos < 1_000_000_000,
        earlier.nanos < 1_000_000_000,
        0 <= k,
        0 <= (later.secs - earlier.secs - 60 * k) * 1_000_000_000 + (later.nanos - earlier.nanos) < 60_000_000_000,
    ensures
        minutes(later, earlier) == k,
{
    let rest = (later.secs - earlier.secs - 60 * k) * 1_000_000_000 + (later.nanos - earlier.nanos);
    assert(nanos_between(later, earlier) == 60_000_000_000 * k + rest);
    vstd::arithmetic::div_mod::lemma_fundamental_div_mod_converse(
        nanos_between(later, earlier),
        60_000_000_000,
        k,
        rest,
    );
}

} // verus!
