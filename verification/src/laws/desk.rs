//! What holds of the desk: the clock, the selected row, what is shown and what is said.
use crate::age::{age_at, age_from, age_text, age_today, day_time, full_time, head, midnight, readable};
use crate::app::{
    is_due, logged_text, row_keys, seconds_since, skipped_text, tuned_text, PotaHunterApp, StatusLine, StatusText,
};
use crate::clock::{clock_of, datetime_of, minutes, nanos_between, quotient, Moment};
use crate::digits::decimal;
use crate::dxline::lemma_encode_ascii_prefix;
use crate::grid::{cell_in, cell_of, distance_text, is_letter};
use crate::hunter::{is_new_one, same_fetch, Session};
use crate::number::Number;
use crate::select::{first_row, is_workable, row_after, Selection, SelectionText};
use crate::spot::{opt_text, EntryText, SpotEntry, SpotText, SpotType};
use crate::state::AppState;
use crate::text::{trim, uppercase};
use crate::view::{
    band_rgb, call_text, location_text, reference_page, short_comment, shows_new, shows_not_heard, status_meaning,
    tint_of,
};
use vstd::arithmetic::div_mod::{lemma_fundamental_div_mod, lemma_fundamental_div_mod_converse};
use vstd::prelude::*;
use vstd::utf8::{encode_utf8, encode_utf8_decode_utf8, is_char_boundary};

verus! {

/// A time of day stands for today's, where that has been or is at most ten full minutes ahead, and else
/// for yesterday's.
pub proof fn law_time_of_day(secs: u32, now: Moment)
    requires
        now.valid(),
        now.secs >= 0,
        now.nanos == 0,
        secs < 86_400,
    ensures
        ({
            let d = now.secs as int % 86_400 - secs;
            &&& d >= 0 ==> age_today(secs, 0, now) == d / 60
            &&& -660 < d < 0 ==> age_today(secs, 0, now) == -((-d) / 60)
            &&& d <= -660 ==> age_today(secs, 0, now) == 1440 - (-d) / 60
            &&& -10 <= age_today(secs, 0, now) < 1440
        }),
{
    let d = now.secs as int % 86_400 - secs;
    let then = Moment { secs: (midnight(now) + secs) as i64, nanos: 0 };
    assert(midnight(now) == now.secs - now.secs as int % 86_400);
    assert(then.secs == midnight(now) + secs);
    assert(nanos_between(now, then) == d * 1_000_000_000);
    let e = if d >= 0 { d } else { -d };
    lemma_fundamental_div_mod(e, 60);
    lemma_fundamental_div_mod_converse(
        e * 1_000_000_000,
        60_000_000_000,
        e / 60,
        (e % 60) * 1_000_000_000,
    );
    assert(minutes(now, then) == if d >= 0 { e / 60 } else { -(e / 60) });
}

/// Minutes are full minutes, and count backwards as they count forwards.
pub proof fn law_minutes_both_ways(a: Moment, b: Moment)
    requires
        a.nanos < 1_000_000_000,
        b.nanos < 1_000_000_000,
    ensures
        nanos_between(a, b) == (a.secs - b.secs) * 1_000_000_000 + (a.nanos - b.nanos),
        minutes(a, b) == -minutes(b, a),
        a.secs >= b.secs && a.nanos >= b.nanos ==> minutes(a, b) * 60_000_000_000 <= nanos_between(a, b) < (minutes(
            a,
            b,
        ) + 1) * 60_000_000_000,
        quotient(nanos_between(a, b), 60_000_000_000) == minutes(a, b),
{
    let n = nanos_between(a, b);
    assert(nanos_between(b, a) == -n);
    lemma_fundamental_div_mod(n, 60_000_000_000);
}

/// A date and a time count before a mere time of day; without either the age is not known.
pub proof fn law_age(secs: i64, nanos: u32, clock: Option<(u32, u32)>, day: u32, frac: u32, now: Moment)
    ensures
        age_from(Some((secs, nanos)), clock, now) == minutes(now, Moment { secs, nanos }),
        age_from(None, Some((day, frac)), now) == age_today(day, frac, now),
        age_from(None, None, now) == 999,
{
}

/// A spot without a time is of an age that is not known; of any other the time counts as it is read,
/// without the white space around it.
pub proof fn law_age_of_text(text: Seq<char>, now: Moment)
    ensures
        trim(text).len() == 0 || trim(text) == "-"@ ==> age_at(text, now) == 999,
        trim(text).len() > 0 && trim(text) != "-"@ ==> age_at(text, now) == age_from(
            full_time(trim(text)),
            day_time(trim(text)),
            now,
        ),
{
}

/// A date and a time are read whole, or else up to the seconds; a time of day is four or five bytes.
pub proof fn law_times_read(t: Seq<char>)
    ensures
        datetime_of(t, "%Y-%m-%dT%H:%M:%S"@) is Some ==> full_time(t) == datetime_of(t, "%Y-%m-%dT%H:%M:%S"@),
        datetime_of(t, "%Y-%m-%dT%H:%M:%S"@) is None ==> full_time(t) == datetime_of(head(t), "%Y-%m-%dT%H:%M:%S"@),
        4 <= encode_utf8(t).len() <= 5 ==> day_time(t) == clock_of(t, "%H:%M"@),
        encode_utf8(t).len() < 4 || encode_utf8(t).len() > 5 ==> day_time(t) is None,
        encode_utf8(t).len() <= 19 ==> head(t) == t,
{
}

/// The age of a text can be told unless, white space apart, it is more than nineteen bytes long, is read
/// as no date and time, and has a character across the end of the nineteenth.
pub proof fn law_readable(text: Seq<char>)
    ensures
        ({
            let t = trim(text);
            readable(text) <==> t.len() == 0 || t == "-"@ || encode_utf8(t).len() <= 19 || is_char_boundary(
                encode_utf8(t),
                19,
            ) || datetime_of(t, "%Y-%m-%dT%H:%M:%S"@) is Some
        }),
{
}

proof fn lemma_encode_parts(a: Seq<char>, b: Seq<char>)
    ensures
        encode_utf8(a + b) == encode_utf8(a) + encode_utf8(b),
    decreases a.len(),
{
    if a.len() == 0 {
        assert(a + b =~= b);
        assert(encode_utf8(a) + encode_utf8(b) =~= encode_utf8(b));
    } else {
        lemma_encode_parts(a.drop_first(), b);
        assert((a + b).drop_first() =~= a.drop_first() + b);
        assert((a + b)[0] == a[0]);
        assert(encode_utf8(a + b) =~= encode_utf8(a) + encode_utf8(b));
    }
}

/// Of a date and a time with more behind them, the date and the time alone are read again.
pub proof fn law_head(a: Seq<char>, b: Seq<char>)
    requires
        a.len() == 19,
        forall|i: int| 0 <= i < a.len() ==> (#[trigger] a[i]) as u32 <= 0x7f,
    ensures
        head(a + b) == a,
{
    lemma_encode_ascii_prefix(a, 19);
    assert(a.skip(19) =~= Seq::<char>::empty());
    assert(encode_utf8(Seq::<char>::empty()).len() == 0);
    lemma_encode_parts(a, b);
    encode_utf8_decode_utf8(a);
    assert((encode_utf8(a) + encode_utf8(b)).subrange(0, 19) =~= encode_utf8(a));
    if encode_utf8(b).len() == 0 {
        if b.len() > 0 {
            assert(encode_utf8(b).len() > 0);
        }
        assert(a + b =~= a);
    }
}

/// An age is shown in minutes, or in hours and minutes; what is not known, or still to come, is shown
/// as such.
pub proof fn law_age_shown(mins: int, h: nat, m: nat)
    requires
        m < 60,
    ensures
        mins < 0 || mins >= 999 ==> age_text(mins) == "??"@,
        age_text(0) == "now"@,
        m > 0 ==> age_text(m as int) == decimal(m) + seq!['m'],
        h > 0 && 60 * h + m < 999 ==> age_text((60 * h + m) as int) == decimal(h) + seq!['h'] + decimal(m) + seq!['m'],
{
    reveal_strlit("m");
    reveal_strlit("h");
    assert("m"@ =~= seq!['m']);
    assert("h"@ =~= seq!['h']);
    lemma_fundamental_div_mod_converse((60 * h + m) as int, 60, h as int, m as int);
}

/// The selection holds its fields as they stand.
pub proof fn law_selection_contents(s: Selection)
    ensures
        s@.key == opt_text(s.key),
        s@.row == s.row,
        s@.scroll == s.scroll,
{
}

/// The first row with a key is the first that has it, if any has.
pub proof fn law_first_row(keys: Seq<Seq<char>>, key: Seq<char>)
    requires
        keys.len() <= usize::MAX,
    ensures
        match first_row(keys, key) {
            Some(i) => i < keys.len() && keys[i as int] == key && forall|j: int|
                0 <= j < i ==> #[trigger] keys[j] != key,
            None => !keys.contains(key),
        },
    decreases keys.len(),
{
    if keys.len() > 0 {
        let front = keys.drop_last();
        law_first_row(front, key);
        match first_row(front, key) {
            Some(i) => {
                assert(front[i as int] == keys[i as int]);
                assert forall|j: int| 0 <= j < i implies #[trigger] keys[j] != key by {
                    assert(front[j] == keys[j]);
                }
            },
            None => {
                assert forall|j: int| 0 <= j < front.len() implies #[trigger] keys[j] != key by {
                    assert(front[j] == keys[j]);
                    assert(front.contains(front[j]));
                }
            },
        }
    }
}

/// The selection moves one row at a time, takes the key of the row it comes to, and asks for that row
/// to be brought into sight; at either end it stays.
pub proof fn law_moves(s: SelectionText, keys: Seq<Seq<char>>)
    requires
        keys.len() <= usize::MAX,
        s.row matches Some(i) ==> i < keys.len(),
    ensures
        ({
            let down = s.moved_down(keys);
            let up = s.moved_up(keys);
            match s.row {
                Some(i) => {
                    &&& i + 1 < keys.len() ==> down.row == Some((i + 1) as usize) && down.key == Some(keys[i + 1])
                        && down.scroll
                    &&& i + 1 == keys.len() ==> down == s
                    &&& i > 0 ==> up.row == Some((i - 1) as usize) && up.key == Some(keys[i - 1]) && up.scroll
                    &&& i == 0 ==> up == s
                },
                None => {
                    &&& keys.len() > 0 ==> down.row == Some(0usize) && down.key == Some(keys[0]) && down.scroll
                    &&& keys.len() == 0 ==> down == s
                    &&& up == s
                },
            }
        }),
        s.holds(keys) <==> (s.row matches Some(i) && s.key == Some(keys[i as int])),
{
}

/// A row is selected with its key, and brought into sight.
pub proof fn law_selected(s: SelectionText, keys: Seq<Seq<char>>, row: usize)
    requires
        row < keys.len() <= usize::MAX,
    ensures
        s.at(keys, row).holds(keys),
        s.at(keys, row).row == Some(row),
        s.at(keys, row).key == Some(keys[row as int]),
        s.at(keys, row).scroll,
        s.anchored(keys).scroll == s.scroll,
        s.key matches Some(k) ==> !s.holds(keys) ==> s.anchored(keys).row == first_row(keys, k),
{
}

/// A spot can be worked that is not hunted, was not marked as not heard, and is on the air; the rows
/// are gone through in a circle.
pub proof fn law_workable(e: EntryText, row: int, k: int, count: int)
    requires
        0 <= row < count,
        0 <= k < count,
    ensures
        is_workable(e) <==> !e.hunted && !e.not_heard && !e.is_qrt,
        row_after(row, k, count) == (row + k) % count,
{
    if row + k < count {
        lemma_fundamental_div_mod_converse(row + k, count, 0, row + k);
    } else {
        lemma_fundamental_div_mod_converse(row + k, count, 1, row + k - count);
    }
}

/// A row is tinted by the first of these that holds: the radio was tuned to it last, it is a new one,
/// it is selected, it is hunted, it was not heard, it went off the air.
pub proof fn law_tint(e: EntryText, tuned: bool, selected: bool)
    ensures
        shows_new(e) <==> (e.atno_status matches Some(s) && is_new_one(s)),
        shows_not_heard(e) <==> e.not_heard && !e.is_qrt,
        tuned <==> tint_of(e, tuned, selected) is LastTuned,
        !tuned && shows_new(e) <==> tint_of(e, tuned, selected) is NewOne,
        !tuned && !shows_new(e) && selected <==> tint_of(e, tuned, selected) is Selected,
        !tuned && !shows_new(e) && !selected && e.hunted <==> tint_of(e, tuned, selected) is Hunted,
        !tuned && !shows_new(e) && !selected && !e.hunted && e.not_heard && !e.is_qrt <==> tint_of(
            e,
            tuned,
            selected,
        ) is NotHeard,
        !tuned && !shows_new(e) && !selected && !e.hunted && e.is_qrt <==> tint_of(e, tuned, selected) is Qrt,
{
}

/// A call is shown as it is, with a word behind it where it is a new one that was not marked as not
/// heard, and a mark where it went off the air.
pub proof fn law_call_shown(e: EntryText)
    ensures
        e.spot.activator.is_prefix_of(call_text(e)),
        ({
            let new = shows_new(e) && !(e.not_heard && !e.is_qrt);
            let call = e.spot.activator;
            &&& !new && !e.is_qrt ==> call_text(e) == call
            &&& new && !e.is_qrt ==> call_text(e) == call + " NEW!"@
            &&& !new && e.is_qrt ==> call_text(e) == call + " [QRT]"@
            &&& new && e.is_qrt ==> call_text(e) == call + " NEW!"@ + " [QRT]"@
        }),
{
    let call = e.spot.activator;
    let t = call_text(e);
    assert(t.subrange(0, call.len() as int) =~= call);
}

/// A location is shown as it is, or as a dash, with a mark behind it where the spot was not heard.
pub proof fn law_location_shown(e: EntryText)
    ensures
        ({
            let place = match e.spot.location_desc {
                Some(l) => l,
                None => "-"@,
            };
            &&& e.not_heard && !e.is_qrt ==> location_text(e) == place + " [NH]"@
            &&& !(e.not_heard && !e.is_qrt) ==> location_text(e) == place
        }),
{
}

/// A comment is never shown longer than 28 characters; one that is no longer is shown whole, and of
/// any other the first 26 characters and a sign that there is more.
pub proof fn law_comment_shown(s: Seq<char>)
    ensures
        short_comment(s).len() <= 28,
        s.len() <= 28 ==> short_comment(s) == s,
        s.len() > 28 ==> short_comment(s) == s.subrange(0, 26) + seq!['…'],
{
    reveal_strlit("…");
    assert("…"@ =~= seq!['…']);
    assert(s.len() > 28 ==> s.take(26) =~= s.subrange(0, 26));
}

/// What each status of the log means.
pub proof fn law_status_meanings(s: Seq<char>)
    ensures
        status_meaning("ATNO"@) == "All-Time New One!"@,
        status_meaning("OW"@) == "Worked (not confirmed on any band)"@,
        status_meaning("OC"@) == "Confirmed on another band/mode"@,
        status_meaning("OWBMW"@) == "Worked on this band/mode (not confirmed)"@,
        status_meaning("OCBMW"@) == "Confirmed on other band, worked this band/mode"@,
        status_meaning("BMC"@) == "Confirmed on this band and mode"@,
        status_meaning("ERR"@) == "Lookup error"@,
        s != "ATNO"@ && s != "OW"@ && s != "OC"@ && s != "OWBMW"@ && s != "OCBMW"@ && s != "BMC"@ && s != "ERR"@
            ==> status_meaning(s) == "Checking..."@,
{
    reveal_strlit("ATNO");
    reveal_strlit("OW");
    reveal_strlit("OC");
    reveal_strlit("OWBMW");
    reveal_strlit("OCBMW");
    reveal_strlit("BMC");
    reveal_strlit("ERR");
    assert("OW"@[1] == 'W' && "OC"@[1] == 'C' && "OWBMW"@[1] == 'W' && "OCBMW"@[1] == 'C');
    assert("BMC"@[0] == 'B' && "ERR"@[0] == 'E' && "ATNO"@[0] == 'A');
    assert("OW"@.len() == 2 && "OC"@.len() == 2 && "OWBMW"@.len() == 5 && "OCBMW"@.len() == 5 && "ATNO"@.len() == 4);
}

/// The colour of each band, on a dark ground and on a light one.
pub proof fn law_band_colours(dark: bool)
    ensures
        band_rgb("160m"@, dark) == if dark { (210u8, 100u8, 100u8) } else { (160u8, 60u8, 60u8) },
        band_rgb("80m"@, dark) == if dark { (210u8, 150u8, 80u8) } else { (160u8, 100u8, 40u8) },
        band_rgb("60m"@, dark) == if dark { (210u8, 200u8, 80u8) } else { (150u8, 140u8, 30u8) },
        band_rgb("40m"@, dark) == if dark { (80u8, 200u8, 100u8) } else { (40u8, 130u8, 60u8) },
        band_rgb("30m"@, dark) == if dark { (80u8, 200u8, 180u8) } else { (40u8, 130u8, 130u8) },
        band_rgb("20m"@, dark) == if dark { (80u8, 160u8, 230u8) } else { (40u8, 100u8, 180u8) },
        band_rgb("17m"@, dark) == if dark { (120u8, 120u8, 230u8) } else { (80u8, 80u8, 180u8) },
        band_rgb("15m"@, dark) == if dark { (180u8, 100u8, 230u8) } else { (130u8, 60u8, 180u8) },
        band_rgb("12m"@, dark) == if dark { (220u8, 100u8, 220u8) } else { (170u8, 60u8, 170u8) },
        band_rgb("10m"@, dark) == if dark { (230u8, 100u8, 160u8) } else { (180u8, 60u8, 110u8) },
        band_rgb("6m"@, dark) == if dark { (230u8, 120u8, 100u8) } else { (180u8, 80u8, 60u8) },
        band_rgb("2m"@, dark) == if dark { (210u8, 210u8, 100u8) } else { (160u8, 160u8, 60u8) },
        band_rgb("??"@, dark) == (160u8, 160u8, 160u8),
{
    reveal_strlit("160m");
    reveal_strlit("80m");
    reveal_strlit("60m");
    reveal_strlit("40m");
    reveal_strlit("30m");
    reveal_strlit("20m");
    reveal_strlit("17m");
    reveal_strlit("15m");
    reveal_strlit("12m");
    reveal_strlit("10m");
    reveal_strlit("6m");
    reveal_strlit("2m");
    reveal_strlit("??");
    assert("80m"@[0] == '8' && "60m"@[0] == '6' && "40m"@[0] == '4' && "30m"@[0] == '3' && "20m"@[0] == '2');
    assert("17m"@[1] == '7' && "15m"@[1] == '5' && "12m"@[1] == '2' && "10m"@[1] == '0' && "17m"@[0] == '1');
    assert("15m"@[0] == '1' && "12m"@[0] == '1' && "10m"@[0] == '1');
    assert("160m"@.len() == 4 && "80m"@.len() == 3 && "60m"@.len() == 3 && "40m"@.len() == 3 && "30m"@.len() == 3);
    assert("20m"@.len() == 3 && "17m"@.len() == 3 && "15m"@.len() == 3 && "12m"@.len() == 3 && "10m"@.len() == 3);
    assert("6m"@.len() == 2 && "2m"@.len() == 2 && "??"@.len() == 2);
    assert("6m"@[0] == '6' && "2m"@[0] == '2' && "??"@[0] == '?');
}

/// The page of a reference is that of its programme and ends in the reference; there is none without
/// a reference, and none for the cluster.
pub proof fn law_reference_page(s: SpotText, t: SpotType)
    ensures
        s.reference.len() == 0 || t is Dx <==> reference_page(s, t) is None,
        s.reference.len() > 0 && t is Pota ==> reference_page(s, t) == Some(
            ("Open on POTA.app"@, "https://pota.app/#/park/"@ + s.reference),
        ),
        s.reference.len() > 0 && t is Sota ==> reference_page(s, t) == Some(
            ("Open on SOTAdata"@, "https://www.sotadata.org.uk/en/summit/"@ + s.reference),
        ),
        s.reference.len() > 0 && t is Wwff ==> reference_page(s, t) == Some(
            ("Open on WWFF Spotline"@, "https://spots.wwff.co/references/direct?wwff="@ + s.reference),
        ),
{
}

/// What is said of a spot names it as it stands.
pub proof fn law_said(s: SpotText)
    ensures
        tuned_text(s) == "Tuned to "@ + s.activator + " on "@ + s.frequency + " kHz"@,
        skipped_text(s) == "NH → tuned to "@ + s.activator + " on "@ + s.frequency + " kHz"@,
        logged_text(s, true) == "Logged "@ + s.activator,
        logged_text(s, false) == "Logged "@ + s.activator + " to AC Log"@,
{
}

/// The line of messages holds its fields as they stand; a message replaces the one before.
pub proof fn law_line_contents(l: StatusLine, s: StatusText, text: Seq<char>)
    ensures
        l@.text == l.text@ && l@.snapshot == l.snapshot@ && l@.changed_at == l.changed_at,
        s.showing(text).text == text,
        s.showing(text).snapshot == s.snapshot,
        s.showing(text).changed_at == s.changed_at,
{
}

/// A message that was seen before goes when five seconds have passed since then, and no sooner; an
/// empty line stays empty.
pub proof fn law_line_ticks(s: StatusText, now: u64)
    ensures
        s.text == s.snapshot && s.text.len() > 0 ==> match s.changed_at {
            Some(t) => if now - t >= 5_000_000_000 {
                s.after_tick(now).text.len() == 0 && s.after_tick(now).changed_at is None
            } else {
                s.after_tick(now) == s
            },
            None => s.after_tick(now) == s,
        },
        s.text.len() == 0 ==> s.after_tick(now).text.len() == 0,
        s.text != s.snapshot && s.text.len() > 0 ==> s.after_tick(now).text == s.text && s.after_tick(now).changed_at
            == Some(now) && s.after_tick(now).snapshot == s.text,
{
}

/// The spots are due when there were none yet, or when more than the interval has passed.
pub proof fn law_due(t: u64, secs: u32, now: u64)
    ensures
        is_due(None, secs, now),
        is_due(Some(t), secs, now) <==> now - t > secs * 1_000_000_000,
        now < t ==> seconds_since(t, now) == 0,
        now >= t ==> seconds_since(t, now) * 1_000_000_000 <= now - t < (seconds_since(t, now) + 1) * 1_000_000_000,
{
    lemma_fundamental_div_mod(now - t, 1_000_000_000);
}

/// What is kept of the application is what its user has set.
pub proof fn law_kept_settings(a: PotaHunterApp)
    ensures
        a.settings().n3fjp_host == a.n3fjp_host@ && a.settings().n3fjp_port == a.n3fjp_port@,
        a.settings().dx_callsign == a.dx_callsign@ && a.settings().dx_nodes == a.dx_nodes@,
        a.settings().dx_auto_start == a.dx_auto_start && a.settings().auto_refresh == a.auto_refresh,
        a.settings().refresh_interval_secs == a.refresh_interval_secs,
        a.settings().my_grid == a.my_grid@ && a.settings().dark_mode == a.dark_mode,
        a.settings().hide_dupes == a.filters.hide_dupes && a.settings().hide_qrt == a.filters.hide_qrt,
        a.settings().max_age_mins == a.filters.max_age_mins,
{
}

/// What stays the same is the same in every part.
pub proof fn law_same(a: PotaHunterApp, b: PotaHunterApp, s: AppState, t: AppState, x: Session, y: Session)
    ensures
        a.same_view(&b) ==> a.filters == b.filters && a.settings() == b.settings() && a.menu_open == b.menu_open
            && a.show_settings == b.show_settings && a.show_filters == b.show_filters && a.search_focus_requested
            == b.search_focus_requested,
        same_fetch(s, t) ==> s.last_fetch == t.last_fetch && s.fetch_error == t.fetch_error && s.is_fetching
            == t.is_fetching,
        x.same_caches(&y) ==> x.dxcc_cache == y.dxcc_cache && x.atno_cache == y.atno_cache && x.atno_alert_count
            == y.atno_alert_count,
{
}

/// The keys of rows are those of their entries, row by row.
pub proof fn law_row_keys(rows: Seq<(usize, SpotEntry)>, i: int)
    ensures
        row_keys(rows).len() == rows.len(),
        0 <= i < rows.len() ==> row_keys(rows)[i] == rows[i].1@.key(),
{
}

/// A grid square lies by its letters in fields of twenty degrees by ten, and by its digits in squares
/// of two degrees by one, from the west and from the south; all of them lie on the globe.
pub proof fn law_square(g: Seq<char>)
    requires
        g.len() >= 4,
        'A' <= g[0] <= 'R',
        'A' <= g[1] <= 'R',
        '0' <= g[2] <= '9',
        '0' <= g[3] <= '9',
    ensures
        cell_in(g) matches Some(c) && {
            &&& c.lon == -180 + 20 * (g[0] as int - 'A' as int) + 2 * (g[2] as int - '0' as int)
            &&& c.lat == -90 + 10 * (g[1] as int - 'A' as int) + (g[3] as int - '0' as int)
            &&& -180 <= c.lon < 180
            &&& -90 <= c.lat < 90
            &&& g.len() < 6 ==> c.part is None
            &&& g.len() >= 6 && 'A' <= g[4] <= 'X' && 'A' <= g[5] <= 'X' ==> (c.part matches Some((east, north))
                && east == g[4] as int - 'A' as int && north == g[5] as int - 'A' as int && 0 <= east < 24 && 0 <= north
                < 24)
            &&& g.len() >= 6 && !(is_letter(g[4]) && is_letter(g[5])) ==> c.part is None
        },
{
}

/// A text names a square in letters of either case; one that is too short, or does not start with two
/// letters up to R, names none.
pub proof fn law_no_square(grid: Seq<char>)
    ensures
        cell_of(grid) == cell_in(uppercase(grid)),
        ({
            let g = uppercase(grid);
            cell_of(grid) is None <==> g.len() < 4 || !('A' <= g[0] <= 'R') || !('A' <= g[1] <= 'R')
        }),
        forall|c: char| #[trigger] is_letter(c) <==> 'a' <= c <= 'z' || 'A' <= c <= 'Z',
{
}

/// A distance is shown in whole miles, and a bearing in whole degrees.
pub proof fn law_distance_shown(miles: Number, degrees: Number)
    ensures
        distance_text(miles, degrees) == miles.fixed(0) + seq!['m', 'i', ' '] + degrees.fixed(0) + seq!['°'],
{
    reveal_strlit("mi ");
    reveal_strlit("°");
    assert("mi "@ =~= seq!['m', 'i', ' ']);
    assert("°"@ =~= seq!['°']);
}

} // verus!
