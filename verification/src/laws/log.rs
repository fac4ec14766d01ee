//! What holds of the log: what its commands say, what is heard of it, and what it answers.
use crate::band::{band_of_text, mhz_text};
use crate::clock::{formatted, Moment};
use crate::listener::{
    calls_in, drained, is_enter_event, lemma_find_shifts, lemma_rest_shorter, next_record, RecordStep,
};
use crate::lookup::{cache_key, Finding, LookupBatch, Wanted, WantedText};
use crate::n3fjp::{
    atno_in, atno_text, band_number, change_freq_text, contest_mode, contest_mode_of, country_in,
    country_text, in_progress_text, is_digital, is_status, is_voice, log_band, log_mode, log_mode_of,
    log_text, log_text_at, qso_fields,
};
use crate::spot::SpotText;
use crate::text::{
    contains, find_from, lemma_find_at, lemma_find_found, lemma_find_none, occurs_at, strip_end, trim,
    upper_ascii, uppercase,
};
use crate::xml::{close_tag, law_tag_read_back, open_tag, tag_value};
use vstd::prelude::*;

verus! {

/// The text holds no angle bracket that opens.
pub open spec fn plain(t: Seq<char>) -> bool {
    forall|i: int| 0 <= i < t.len() ==> #[trigger] t[i] != '<'
}

/// The name of a tag in capitals.
pub open spec fn is_name(t: Seq<char>) -> bool {
    &&& t.len() > 0
    &&& forall|i: int| 0 <= i < t.len() ==> 'A' <= #[trigger] t[i] <= 'Z'
}

/// An opening tag.
pub open spec fn mark(t: Seq<char>) -> Seq<char> {
    seq!['<'] + t + seq!['>']
}

/// A value between its tags.
pub open spec fn tagged(t: Seq<char>, value: Seq<char>) -> Seq<char> {
    mark(t) + value + mark(seq!['/'] + t)
}

/// Without the opening tag, or without the closing tag behind it, there is no value. Tags may be written
/// in letters of either case.
pub proof fn law_no_tag(record: Seq<char>, tag: Seq<char>)
    requires
        is_name(tag),
    ensures
        !contains(upper_ascii(record), mark(tag)) ==> tag_value(record, tag) is None,
        !contains(upper_ascii(record), mark(seq!['/'] + tag)) ==> tag_value(record, tag) is None,
        tag_value(record, tag) is None ==> tag_value(upper_ascii(record), tag) is None,
        tag_value(record, tag) matches Some(v) ==> tag_value(upper_ascii(record), tag) == Some(upper_ascii(v)),
{
    let z = upper_ascii(record);
    assert(upper_ascii(tag) =~= tag);
    assert(open_tag(tag) =~= mark(tag));
    assert(close_tag(tag) =~= mark(seq!['/'] + tag));
    assert(upper_ascii(z) =~= z);
    lemma_find_found(z, open_tag(tag), 0);
    if let Some(i) = find_from(z, open_tag(tag), 0) {
        assert(occurs_at(z, open_tag(tag), i));
        let from = i + open_tag(tag).len();
        lemma_find_found(z, close_tag(tag), from);
        if let Some(j) = find_from(z, close_tag(tag), from) {
            assert(occurs_at(z, close_tag(tag), j));
            assert(z.subrange(from, j) =~= upper_ascii(record.subrange(from, j)));
        }
    }
}

/// Values between their tags, one after the other.
pub open spec fn fields(f: Seq<(Seq<char>, Seq<char>)>) -> Seq<char>
    decreases f.len(),
{
    if f.len() == 0 {
        Seq::empty()
    } else {
        tagged(f[0].0, f[0].1) + fields(f.drop_first())
    }
}

proof fn lemma_tag_after(x: Seq<char>, rest: Seq<char>, tag: Seq<char>)
    requires
        forall|j: int| 0 <= j < x.len() ==> !occurs_at(upper_ascii(x + rest), open_tag(tag), j),
    ensures
        tag_value(x + rest, tag) == tag_value(rest, tag),
{
    let z = upper_ascii(x + rest);
    let o = open_tag(tag);
    let n = x.len() as int;
    lemma_find_shifts(x, rest, o, 0);
    lemma_find_found(z, o, n);
    match find_from(z, o, n) {
        Some(i) => lemma_find_at(z, o, 0, i),
        None => lemma_find_none(z, o, 0),
    }
    let y = upper_ascii(rest);
    lemma_find_found(y, o, 0);
    if let Some(i) = find_from(y, o, 0) {
        lemma_find_shifts(x, rest, close_tag(tag), i + o.len());
        lemma_find_found(y, close_tag(tag), i + o.len());
        if let Some(j) = find_from(y, close_tag(tag), i + o.len()) {
            let from = i + o.len();
            assert((x + rest).subrange(n + from, n + j) =~= rest.subrange(from, j));
        }
    }
}

/// A value without a bracket is passed over.
proof fn lemma_skip_value(v: Seq<char>, rest: Seq<char>, tag: Seq<char>)
    requires
        plain(v),
    ensures
        tag_value(v + rest, tag) == tag_value(rest, tag),
{
    let z = upper_ascii(v + rest);
    let o = open_tag(tag);
    assert forall|j: int| 0 <= j < v.len() implies !occurs_at(z, o, j) by {
        if occurs_at(z, o, j) {
            assert(z.subrange(j, j + o.len())[0] == o[0]);
            assert((v + rest)[j] == v[j]);
            assert(v[j] != '<');
        }
    }
    lemma_tag_after(v, rest, tag);
}

/// Another tag is passed over.
proof fn lemma_skip_mark(t: Seq<char>, rest: Seq<char>, tag: Seq<char>)
    requires
        is_name(tag),
        t != tag,
        forall|i: int| 0 <= i < t.len() ==> 'A' <= #[trigger] t[i] <= 'Z' || t[i] == '/',
    ensures
        tag_value(mark(t) + rest, tag) == tag_value(rest, tag),
{
    let x = mark(t);
    let r = x + rest;
    let z = upper_ascii(r);
    let o = open_tag(tag);
    assert(upper_ascii(tag) =~= tag);
    assert forall|j: int| 0 <= j < x.len() implies !occurs_at(z, o, j) by {
        if occurs_at(z, o, j) {
            let part = z.subrange(j, j + o.len());
            assert(part == o);
            assert(part[0] == '<');
            assert(r[j] == x[j]);
            if j > 0 && j <= t.len() {
                assert(x[j] == t[j - 1]);
            }
            assert(j == 0);
            let n = tag.len() as int;
            let m = t.len() as int;
            if m < n {
                assert(part[m + 1] == z[m + 1]);
                assert(o[m + 1] == tag[m]);
                assert(r[m + 1] == '>');
            } else if m > n {
                assert(part[n + 1] == z[n + 1]);
                assert(o[n + 1] == '>');
                assert(r[n + 1] == t[n]);
            } else {
                assert forall|i: int| 0 <= i < n implies t[i] == tag[i] by {
                    assert(part[i + 1] == z[i + 1]);
                    assert(o[i + 1] == tag[i]);
                    assert(r[i + 1] == t[i]);
                }
                assert(t =~= tag);
            }
        }
    }
    lemma_tag_after(x, rest, tag);
}

/// A value is read from between its tags.
proof fn lemma_here(tag: Seq<char>, value: Seq<char>, rest: Seq<char>)
    requires
        is_name(tag),
        plain(value),
    ensures
        tag_value(tagged(tag, value) + rest, tag) == Some(value),
{
    let none = Seq::<char>::empty();
    let a = upper_ascii(none + seq!['<'] + tag);
    assert(!contains(a, open_tag(tag))) by {
        if contains(a, open_tag(tag)) {
            let i = choose|i: int| occurs_at(a, open_tag(tag), i);
        }
    }
    let b = upper_ascii(value + seq!['<', '/'] + tag);
    assert(!contains(b, close_tag(tag))) by {
        if contains(b, close_tag(tag)) {
            let i = choose|i: int| occurs_at(b, close_tag(tag), i);
            assert(b.subrange(i, i + close_tag(tag).len())[0] == '<');
            if i < value.len() {
                assert(value[i] != '<');
            }
        }
    }
    law_tag_read_back(none, tag, value, rest);
    assert(tagged(tag, value) + rest =~= none + seq!['<'] + tag + seq!['>'] + value + seq!['<', '/'] + tag + seq!['>']
        + rest);
}

/// Another value and its tags are passed over.
proof fn lemma_skip_field(t: Seq<char>, value: Seq<char>, rest: Seq<char>, tag: Seq<char>)
    requires
        is_name(tag),
        is_name(t),
        t != tag,
        plain(value),
    ensures
        tag_value(tagged(t, value) + rest, tag) == tag_value(rest, tag),
{
    let end = seq!['/'] + t;
    assert(end != tag) by {
        assert(end[0] == '/');
        assert('A' <= tag[0] <= 'Z');
    }
    assert forall|i: int| 0 <= i < end.len() implies 'A' <= #[trigger] end[i] <= 'Z' || end[i] == '/' by {
        if i > 0 {
            assert(end[i] == t[i - 1]);
        }
    }
    assert(tagged(t, value) + rest =~= mark(t) + (value + (mark(end) + rest)));
    lemma_skip_mark(t, value + (mark(end) + rest), tag);
    lemma_skip_value(value, mark(end) + rest, tag);
    lemma_skip_mark(end, rest, tag);
}

/// Each of several values is read from between its own tags, whatever the others are.
pub proof fn law_fields_read_back(f: Seq<(Seq<char>, Seq<char>)>, tail: Seq<char>, i: int)
    requires
        0 <= i < f.len(),
        forall|k: int| 0 <= k < f.len() ==> is_name((#[trigger] f[k]).0) && plain(f[k].1),
        forall|k: int| 0 <= k < i ==> (#[trigger] f[k]).0 != f[i].0,
    ensures
        tag_value(fields(f) + tail, f[i].0) == Some(f[i].1),
    decreases i,
{
    let rest = f.drop_first();
    assert(is_name(f[0].0) && plain(f[0].1) && is_name(f[i].0));
    assert(fields(f) + tail =~= tagged(f[0].0, f[0].1) + (fields(rest) + tail));
    if i == 0 {
        lemma_here(f[0].0, f[0].1, fields(rest) + tail);
    } else {
        assert(f[0].0 != f[i].0);
        lemma_skip_field(f[0].0, f[0].1, fields(rest) + tail, f[i].0);
        assert(rest[i - 1] == f[i]);
        assert forall|k: int| 0 <= k < rest.len() implies is_name((#[trigger] rest[k]).0) && plain(rest[k].1) by {
            assert(rest[k] == f[k + 1]);
        }
        assert forall|k: int| 0 <= k < i - 1 implies (#[trigger] rest[k]).0 != rest[i - 1].0 by {
            assert(rest[k] == f[k + 1]);
        }
        law_fields_read_back(rest, tail, i - 1);
    }
}

/// The same behind the two tags with which a command starts.
proof fn lemma_command(c: Seq<char>, f: Seq<(Seq<char>, Seq<char>)>, tail: Seq<char>, i: int)
    requires
        is_name(c),
        0 <= i < f.len(),
        forall|k: int| 0 <= k < f.len() ==> is_name((#[trigger] f[k]).0) && plain(f[k].1),
        forall|k: int| 0 <= k < i ==> (#[trigger] f[k]).0 != f[i].0,
        c != f[i].0,
        "CMD"@ != f[i].0,
    ensures
        tag_value(mark("CMD"@) + mark(c) + (fields(f) + tail), f[i].0) == Some(f[i].1),
{
    reveal_strlit("CMD");
    let t = f[i].0;
    let rest = fields(f) + tail;
    assert(is_name(t));
    assert(mark("CMD"@) + mark(c) + rest =~= mark("CMD"@) + (mark(c) + rest));
    lemma_skip_mark("CMD"@, mark(c) + rest, t);
    lemma_skip_mark(c, rest, t);
    law_fields_read_back(f, tail, i);
}

proof fn lemma_names()
    ensures
        is_name("CALL"@) && is_name("BAND"@) && is_name("MODE"@) && is_name("FREQ"@) && is_name("RSTR"@) && is_name(
            "RSTS"@,
        ) && is_name("DATE"@) && is_name("TIMEON"@),
        "CMD"@.len() == 3,
        "CALL"@[0] == 'C' && "BAND"@[0] == 'B' && "MODE"@[0] == 'M' && "FREQ"@[0] == 'F' && "DATE"@[0] == 'D'
            && "TIMEON"@[0] == 'T' && "RSTR"@[0] == 'R' && "RSTS"@[0] == 'R' && "RSTR"@[3] == 'R' && "RSTS"@[3] == 'S',
        "CALL"@.len() == 4 && "BAND"@.len() == 4 && "MODE"@.len() == 4 && "FREQ"@.len() == 4 && "DATE"@.len() == 4
            && "TIMEON"@.len() == 6 && "RSTR"@.len() == 4 && "RSTS"@.len() == 4,
        is_name("UPDATEANDLOG"@) && "UPDATEANDLOG"@.len() == 12,
        is_name("QSOINPROGRESS"@) && "QSOINPROGRESS"@.len() == 13,
        is_name("CHANGEFREQ"@) && "CHANGEFREQ"@.len() == 10,
        is_name("COUNTRYLISTLOOKUP"@) && "COUNTRYLISTLOOKUP"@.len() == 17,
        is_name("ATNO"@) && "ATNO"@.len() == 4 && "ATNO"@[0] == 'A',
        is_name("VALUE"@) && "VALUE"@.len() == 5,
        is_name("COUNTRYWORKED"@) && "COUNTRYWORKED"@.len() == 13,
{
    reveal_strlit("CALL");
    reveal_strlit("BAND");
    reveal_strlit("MODE");
    reveal_strlit("FREQ");
    reveal_strlit("RSTR");
    reveal_strlit("RSTS");
    reveal_strlit("DATE");
    reveal_strlit("TIMEON");
    reveal_strlit("CMD");
    reveal_strlit("UPDATEANDLOG");
    reveal_strlit("QSOINPROGRESS");
    reveal_strlit("CHANGEFREQ");
    reveal_strlit("COUNTRYLISTLOOKUP");
    reveal_strlit("ATNO");
    reveal_strlit("VALUE");
    reveal_strlit("COUNTRYWORKED");
}

spec fn contact(spot: SpotText) -> Seq<(Seq<char>, Seq<char>)> {
    seq![
        ("CALL"@, spot.activator),
        ("BAND"@, log_band(spot.frequency)),
        ("MODE"@, log_mode(spot.mode)),
        ("FREQ"@, mhz_text(spot.frequency)),
    ]
}

proof fn lemma_fields_of(f: Seq<(Seq<char>, Seq<char>)>)
    requires
        f.len() > 0,
    ensures
        fields(f) == tagged(f[0].0, f[0].1) + fields(f.drop_first()),
{
}

proof fn lemma_contact(spot: SpotText)
    ensures
        fields(contact(spot)) == qso_fields(spot),
{
    let f = contact(spot);
    let f1 = f.drop_first();
    let f2 = f1.drop_first();
    let f3 = f2.drop_first();
    let f4 = f3.drop_first();
    assert(f1[0] == f[1] && f2[0] == f[2] && f3[0] == f[3] && f4.len() == 0);
    lemma_fields_of(f);
    lemma_fields_of(f1);
    lemma_fields_of(f2);
    lemma_fields_of(f3);
    reveal_strlit("CALL");
    reveal_strlit("BAND");
    reveal_strlit("MODE");
    reveal_strlit("FREQ");
    reveal_strlit("<CALL>");
    reveal_strlit("</CALL><BAND>");
    reveal_strlit("</BAND><MODE>");
    reveal_strlit("</MODE><FREQ>");
    reveal_strlit("</FREQ>");
    assert("<CALL>"@ =~= mark("CALL"@));
    assert("</CALL><BAND>"@ =~= mark(seq!['/'] + "CALL"@) + mark("BAND"@));
    assert("</BAND><MODE>"@ =~= mark(seq!['/'] + "BAND"@) + mark("MODE"@));
    assert("</MODE><FREQ>"@ =~= mark(seq!['/'] + "MODE"@) + mark("FREQ"@));
    assert("</FREQ>"@ =~= mark(seq!['/'] + "FREQ"@));
    assert(fields(f) =~= qso_fields(spot));
}

/// What is told of the spot holds no tags.
pub open spec fn can_be_said(spot: SpotText) -> bool {
    plain(spot.activator) && plain(log_band(spot.frequency)) && plain(log_mode(spot.mode)) && plain(
        mhz_text(spot.frequency),
    )
}

/// What a command says of a spot: who is called, on which band, in which mode, on which frequency.
pub open spec fn says(command: Seq<char>, spot: SpotText) -> bool {
    &&& tag_value(command, "CALL"@) == Some(spot.activator)
    &&& tag_value(command, "BAND"@) == Some(band_number(band_of_text(spot.frequency)))
    &&& tag_value(command, "MODE"@) == Some(log_mode(spot.mode))
    &&& tag_value(command, "FREQ"@) == Some(mhz_text(spot.frequency))
}

/// The command that fills in the log's entry fields says all of the spot.
pub proof fn law_tune_command(spot: SpotText)
    requires
        can_be_said(spot),
    ensures
        says(in_progress_text(spot), spot),
        "<CMD><QSOINPROGRESS>"@.is_prefix_of(in_progress_text(spot)),
        "</CMD>"@.is_suffix_of(in_progress_text(spot)),
{
    lemma_names();
    lemma_contact(spot);
    let f = contact(spot);
    let c = "QSOINPROGRESS"@;
    reveal_strlit("QSOINPROGRESS");
    reveal_strlit("CMD");
    reveal_strlit("<CMD><QSOINPROGRESS>");
    assert("<CMD><QSOINPROGRESS>"@ =~= mark("CMD"@) + mark(c));
    let t = in_progress_text(spot);
    assert(t =~= mark("CMD"@) + mark(c) + (fields(f) + "</CMD>"@));
    lemma_command(c, f, "</CMD>"@, 0);
    lemma_command(c, f, "</CMD>"@, 1);
    lemma_command(c, f, "</CMD>"@, 2);
    lemma_command(c, f, "</CMD>"@, 3);
    lemma_ends("<CMD><QSOINPROGRESS>"@, qso_fields(spot), "</CMD>"@);
}

proof fn lemma_ends(a: Seq<char>, b: Seq<char>, c: Seq<char>)
    ensures
        a.is_prefix_of(a + b + c),
        c.is_suffix_of(a + b + c),
{
    let t = a + b + c;
    assert(t.subrange(0, a.len() as int) =~= a);
    assert(t.subrange(t.len() - c.len(), t.len() as int) =~= c);
}

/// The command that logs a contact says all of the spot, and the date and the time that were given.
pub proof fn law_log_command(spot: SpotText, date: Seq<char>, time_on: Seq<char>)
    requires
        can_be_said(spot),
        plain(date),
        plain(time_on),
    ensures
        says(log_text(spot, date, time_on), spot),
        tag_value(log_text(spot, date, time_on), "DATE"@) == Some(date),
        tag_value(log_text(spot, date, time_on), "TIMEON"@) == Some(time_on),
        tag_value(log_text(spot, date, time_on), "RSTR"@) == Some("599"@),
        tag_value(log_text(spot, date, time_on), "RSTS"@) == Some("599"@),
        "<CMD><UPDATEANDLOG>"@.is_prefix_of(log_text(spot, date, time_on)),
        "</CMD>"@.is_suffix_of(log_text(spot, date, time_on)),
{
    lemma_names();
    lemma_contact(spot);
    reveal_strlit("599");
    let g = seq![("RSTR"@, "599"@), ("RSTS"@, "599"@), ("DATE"@, date), ("TIMEON"@, time_on)];
    let f = contact(spot) + g;
    lemma_log_fields(date, time_on);
    lemma_fields_add(contact(spot), g);
    let c = "UPDATEANDLOG"@;
    reveal_strlit("UPDATEANDLOG");
    reveal_strlit("CMD");
    reveal_strlit("<CMD><UPDATEANDLOG>");
    assert("<CMD><UPDATEANDLOG>"@ =~= mark("CMD"@) + mark(c));
    let t = log_text(spot, date, time_on);
    let rest = "<RSTR>599</RSTR><RSTS>599</RSTS><DATE>"@ + date + "</DATE><TIMEON>"@ + time_on + "</TIMEON></CMD>"@;
    assert(t =~= mark("CMD"@) + mark(c) + (qso_fields(spot) + rest));
    assert(qso_fields(spot) + rest =~= fields(f) + "</CMD>"@);
    assert(f[0] == contact(spot)[0] && f[1] == contact(spot)[1] && f[2] == contact(spot)[2] && f[3] == contact(
        spot,
    )[3]);
    assert(f[4] == g[0] && f[5] == g[1] && f[6] == g[2] && f[7] == g[3]);
    assert forall|k: int| 0 <= k < f.len() implies is_name((#[trigger] f[k]).0) && plain(f[k].1) by {
        assert(f.len() == 8);
    }
    assert(forall|i: int, k: int| 0 <= k < i < 8 ==> (#[trigger] f[k]).0 != (#[trigger] f[i]).0);
    lemma_command(c, f, "</CMD>"@, 0);
    lemma_command(c, f, "</CMD>"@, 1);
    lemma_command(c, f, "</CMD>"@, 2);
    lemma_command(c, f, "</CMD>"@, 3);
    lemma_command(c, f, "</CMD>"@, 4);
    lemma_command(c, f, "</CMD>"@, 5);
    lemma_command(c, f, "</CMD>"@, 6);
    lemma_command(c, f, "</CMD>"@, 7);
    lemma_ends("<CMD><UPDATEANDLOG>"@, fields(f), "</CMD>"@);
    assert(t =~= "<CMD><UPDATEANDLOG>"@ + fields(f) + "</CMD>"@);
}

proof fn lemma_log_fields(date: Seq<char>, time_on: Seq<char>)
    ensures
        fields(seq![("RSTR"@, "599"@), ("RSTS"@, "599"@), ("DATE"@, date), ("TIMEON"@, time_on)]) + "</CMD>"@
            == "<RSTR>599</RSTR><RSTS>599</RSTS><DATE>"@ + date + "</DATE><TIMEON>"@ + time_on + "</TIMEON></CMD>"@,
{
    let f = seq![("RSTR"@, "599"@), ("RSTS"@, "599"@), ("DATE"@, date), ("TIMEON"@, time_on)];
    let f1 = f.drop_first();
    let f2 = f1.drop_first();
    let f3 = f2.drop_first();
    let f4 = f3.drop_first();
    assert(f1[0] == f[1] && f2[0] == f[2] && f3[0] == f[3] && f4.len() == 0);
    lemma_fields_of(f);
    lemma_fields_of(f1);
    lemma_fields_of(f2);
    lemma_fields_of(f3);
    reveal_strlit("RSTR");
    reveal_strlit("RSTS");
    reveal_strlit("DATE");
    reveal_strlit("TIMEON");
    reveal_strlit("599");
    reveal_strlit("<RSTR>599</RSTR><RSTS>599</RSTS><DATE>");
    reveal_strlit("</DATE><TIMEON>");
    reveal_strlit("</TIMEON></CMD>");
    reveal_strlit("</CMD>");
    assert("<RSTR>599</RSTR><RSTS>599</RSTS><DATE>"@ =~= tagged("RSTR"@, "599"@) + tagged("RSTS"@, "599"@) + mark(
        "DATE"@,
    ));
    assert("</DATE><TIMEON>"@ =~= mark(seq!['/'] + "DATE"@) + mark("TIMEON"@));
    assert("</TIMEON></CMD>"@ =~= mark(seq!['/'] + "TIMEON"@) + "</CMD>"@);
    assert(fields(f) + "</CMD>"@ =~= "<RSTR>599</RSTR><RSTS>599</RSTS><DATE>"@ + date + "</DATE><TIMEON>"@ + time_on
        + "</TIMEON></CMD>"@);
}

proof fn lemma_fields_add(f: Seq<(Seq<char>, Seq<char>)>, g: Seq<(Seq<char>, Seq<char>)>)
    ensures
        fields(f + g) == fields(f) + fields(g),
    decreases f.len(),
{
    if f.len() == 0 {
        assert(f + g =~= g);
        assert(fields(f) + fields(g) =~= fields(g));
    } else {
        lemma_fields_add(f.drop_first(), g);
        assert((f + g).drop_first() =~= f.drop_first() + g);
        assert((f + g)[0] == f[0]);
        assert(fields(f + g) =~= fields(f) + fields(g));
    }
}

/// What is logged is what was tuned to: the two commands say the same of a spot, whenever it is logged.
pub proof fn law_log_as_tuned(spot: SpotText, now: Moment)
    requires
        can_be_said(spot),
        plain(formatted(now.secs, now.nanos, "%Y/%m/%d"@)),
        plain(formatted(now.secs, now.nanos, "%H:%M"@)),
    ensures
        ({
            let log = log_text_at(spot, now);
            let tune = in_progress_text(spot);
            &&& tag_value(log, "CALL"@) == tag_value(tune, "CALL"@)
            &&& tag_value(log, "BAND"@) == tag_value(tune, "BAND"@)
            &&& tag_value(log, "MODE"@) == tag_value(tune, "MODE"@)
            &&& tag_value(log, "FREQ"@) == tag_value(tune, "FREQ"@)
            &&& tag_value(log, "DATE"@) == Some(formatted(now.secs, now.nanos, "%Y/%m/%d"@))
            &&& tag_value(log, "TIMEON"@) == Some(formatted(now.secs, now.nanos, "%H:%M"@))
        }),
{
    law_tune_command(spot);
    law_log_command(spot, formatted(now.secs, now.nanos, "%Y/%m/%d"@), formatted(now.secs, now.nanos, "%H:%M"@));
}

/// The command that tunes the radio gives the frequency.
pub proof fn law_frequency_command(freq: Seq<char>)
    requires
        plain(freq),
    ensures
        tag_value(change_freq_text(freq), "VALUE"@) == Some(freq),
        "<CMD><CHANGEFREQ>"@.is_prefix_of(change_freq_text(freq)),
        "</CMD>"@.is_suffix_of(change_freq_text(freq)),
{
    lemma_names();
    let f = seq![("VALUE"@, freq)];
    let c = "CHANGEFREQ"@;
    assert(f.drop_first().len() == 0);
    lemma_fields_of(f);
    reveal_strlit("VALUE");
    reveal_strlit("CHANGEFREQ");
    reveal_strlit("CMD");
    reveal_strlit("<CMD><CHANGEFREQ>");
    reveal_strlit("<CMD><CHANGEFREQ><VALUE>");
    reveal_strlit("</VALUE></CMD>");
    reveal_strlit("</CMD>");
    assert("<CMD><CHANGEFREQ>"@ =~= mark("CMD"@) + mark(c));
    assert("<CMD><CHANGEFREQ><VALUE>"@ =~= mark("CMD"@) + mark(c) + mark("VALUE"@));
    assert("</VALUE></CMD>"@ =~= mark(seq!['/'] + "VALUE"@) + "</CMD>"@);
    assert(change_freq_text(freq) =~= mark("CMD"@) + mark(c) + (fields(f) + "</CMD>"@));
    lemma_command(c, f, "</CMD>"@, 0);
    lemma_ends("<CMD><CHANGEFREQ>"@, fields(f), "</CMD>"@);
    assert(change_freq_text(freq) =~= "<CMD><CHANGEFREQ>"@ + fields(f) + "</CMD>"@);
}

/// The question for a country names the call.
pub proof fn law_country_question(call: Seq<char>)
    requires
        plain(call),
    ensures
        tag_value(country_text(call), "CALL"@) == Some(call),
        "<CMD><COUNTRYLISTLOOKUP>"@.is_prefix_of(country_text(call)),
        "</CMD>"@.is_suffix_of(country_text(call)),
{
    lemma_names();
    let f = seq![("CALL"@, call)];
    let c = "COUNTRYLISTLOOKUP"@;
    assert(f.drop_first().len() == 0);
    lemma_fields_of(f);
    reveal_strlit("CALL");
    reveal_strlit("COUNTRYLISTLOOKUP");
    reveal_strlit("CMD");
    reveal_strlit("<CMD><COUNTRYLISTLOOKUP>");
    reveal_strlit("<CMD><COUNTRYLISTLOOKUP><CALL>");
    reveal_strlit("</CALL></CMD>");
    reveal_strlit("</CMD>");
    assert("<CMD><COUNTRYLISTLOOKUP>"@ =~= mark("CMD"@) + mark(c));
    assert("<CMD><COUNTRYLISTLOOKUP><CALL>"@ =~= mark("CMD"@) + mark(c) + mark("CALL"@));
    assert("</CALL></CMD>"@ =~= mark(seq!['/'] + "CALL"@) + "</CMD>"@);
    assert(country_text(call) =~= mark("CMD"@) + mark(c) + (fields(f) + "</CMD>"@));
    lemma_command(c, f, "</CMD>"@, 0);
    lemma_ends("<CMD><COUNTRYLISTLOOKUP>"@, fields(f), "</CMD>"@);
    assert(country_text(call) =~= "<CMD><COUNTRYLISTLOOKUP>"@ + fields(f) + "</CMD>"@);
}

/// The question whether a country is wanted names the country, the number of the band and the class of
/// the mode.
pub proof fn law_atno_question(country: Seq<char>, band: Seq<char>, mode: Seq<char>)
    requires
        plain(country),
        plain(band_number(band)),
        plain(contest_mode(mode)),
    ensures
        tag_value(atno_text(country, band, mode), "COUNTRYWORKED"@) == Some(country),
        tag_value(atno_text(country, band, mode), "BAND"@) == Some(band_number(band)),
        tag_value(atno_text(country, band, mode), "MODE"@) == Some(contest_mode(mode)),
        "<CMD><ATNO>"@.is_prefix_of(atno_text(country, band, mode)),
        "</CMD>"@.is_suffix_of(atno_text(country, band, mode)),
{
    lemma_names();
    let f = seq![("BAND"@, band_number(band)), ("MODE"@, contest_mode(mode)), ("COUNTRYWORKED"@, country)];
    let f1 = f.drop_first();
    let f2 = f1.drop_first();
    let c = "ATNO"@;
    assert(f1[0] == f[1] && f2[0] == f[2] && f2.drop_first().len() == 0);
    lemma_fields_of(f);
    lemma_fields_of(f1);
    lemma_fields_of(f2);
    reveal_strlit("BAND");
    reveal_strlit("MODE");
    reveal_strlit("COUNTRYWORKED");
    reveal_strlit("ATNO");
    reveal_strlit("CMD");
    reveal_strlit("<CMD><ATNO>");
    reveal_strlit("<CMD><ATNO><BAND>");
    reveal_strlit("</BAND><MODE>");
    reveal_strlit("</MODE><COUNTRYWORKED>");
    reveal_strlit("</COUNTRYWORKED></CMD>");
    reveal_strlit("</CMD>");
    assert("<CMD><ATNO>"@ =~= mark("CMD"@) + mark(c));
    assert("<CMD><ATNO><BAND>"@ =~= mark("CMD"@) + mark(c) + mark("BAND"@));
    assert("</BAND><MODE>"@ =~= mark(seq!['/'] + "BAND"@) + mark("MODE"@));
    assert("</MODE><COUNTRYWORKED>"@ =~= mark(seq!['/'] + "MODE"@) + mark("COUNTRYWORKED"@));
    assert("</COUNTRYWORKED></CMD>"@ =~= mark(seq!['/'] + "COUNTRYWORKED"@) + "</CMD>"@);
    assert(atno_text(country, band, mode) =~= mark("CMD"@) + mark(c) + (fields(f) + "</CMD>"@));
    lemma_command(c, f, "</CMD>"@, 0);
    lemma_command(c, f, "</CMD>"@, 1);
    lemma_command(c, f, "</CMD>"@, 2);
    lemma_ends("<CMD><ATNO>"@, fields(f), "</CMD>"@);
    assert(atno_text(country, band, mode) =~= "<CMD><ATNO>"@ + fields(f) + "</CMD>"@);
}

/// Voice modes are logged as SSB and count as phone, Morse code is itself in both, the data modes that
/// the log knows are logged as FT8, and any other mode by its own name; all but voice and Morse code
/// count as digital.
pub proof fn law_modes(mode: Seq<char>)
    ensures
        ({
            let m = uppercase(mode);
            let phone = m == "SSB"@ || m == "USB"@ || m == "LSB"@ || m == "AM"@ || m == "FM"@;
            let data = m == "FT8"@ || m == "FT4"@ || m == "RTTY"@ || m == "PSK31"@ || m == "PSK63"@ || m == "JS8"@ || m
                == "DIGITALVOICE"@ || m == "OLIVIA"@ || m == "MFSK"@;
            &&& phone ==> log_mode(mode) == "SSB"@ && contest_mode(mode) == "PH"@
            &&& m == "CW"@ ==> log_mode(mode) == "CW"@ && contest_mode(mode) == "CW"@
            &&& data ==> log_mode(mode) == "FT8"@ && contest_mode(mode) == "DIG"@
            &&& !phone && m != "CW"@ && !data ==> log_mode(mode) == m && contest_mode(mode) == "DIG"@
            &&& log_mode(mode) == log_mode_of(m) && contest_mode(mode) == contest_mode_of(m)
            &&& is_voice(m) <==> phone
            &&& is_digital(m) <==> data
        }),
{
    reveal_strlit("CW");
    reveal_strlit("SSB");
    reveal_strlit("USB");
    reveal_strlit("LSB");
    reveal_strlit("AM");
    reveal_strlit("FM");
    reveal_strlit("FT8");
    reveal_strlit("FT4");
    reveal_strlit("RTTY");
    reveal_strlit("PSK31");
    reveal_strlit("PSK63");
    reveal_strlit("JS8");
    reveal_strlit("DIGITALVOICE");
    reveal_strlit("OLIVIA");
    reveal_strlit("MFSK");
    assert("CW"@[0] == 'C' && "SSB"@[0] == 'S' && "USB"@[0] == 'U' && "LSB"@[0] == 'L' && "AM"@[0] == 'A');
    assert("FM"@[1] == 'M' && "FT8"@[2] == '8' && "FT4"@[2] == '4' && "JS8"@[0] == 'J' && "SSB"@[2] == 'B');
}

/// A band is sent as its number, without the unit; what has none is sent as it is.
pub proof fn law_band_number(t: Seq<char>)
    requires
        t.len() > 0 ==> t.last() != 'm' && t.last() != 'c',
    ensures
        band_number(t + seq!['m']) == t,
        band_number(t + seq!['c', 'm']) == t,
        band_number(t) == t,
{
    let one = t + seq!['m'];
    let two = t + seq!['c', 'm'];
    assert(one.drop_last() =~= t);
    assert(two.take(two.len() - 2) =~= t);
    assert(strip_end(t, 'm') == t);
    assert(strip_end(one, 'm') == t);
}

/// The log is told the number of the band that the frequency lies in.
pub proof fn law_log_band(frequency: Seq<char>)
    ensures
        log_band(frequency) == band_number(band_of_text(frequency)),
{
}

/// A record that does not tell that a contact was entered adds no call. One that does adds the call
/// that it names, without the white space around it and in uppercase, unless nothing is left of it.
pub proof fn law_heard_calls(record: Seq<char>)
    ensures
        !contains(upper_ascii(record), "<ENTEREVENT>"@) ==> calls_in(record).len() == 0,
        contains(upper_ascii(record), "<ENTEREVENT>"@) ==> match tag_value(record, "CALL"@) {
            Some(v) => if uppercase(trim(v)).len() > 0 {
                calls_in(record) == seq![uppercase(trim(v))]
            } else {
                calls_in(record).len() == 0
            },
            None => calls_in(record).len() == 0,
        },
        is_enter_event(record) <==> contains(upper_ascii(record), "<ENTEREVENT>"@),
{
}

/// A contact that was entered is heard: in a record with the event before the call, exactly that call
/// is.
pub proof fn law_entered_call(before: Seq<char>, call: Seq<char>, after: Seq<char>)
    requires
        contains(upper_ascii(before), "<ENTEREVENT>"@),
        !contains(upper_ascii(before + "<CALL"@), "<CALL>"@),
        plain(call),
        uppercase(trim(call)).len() > 0,
    ensures
        calls_in(before + "<CALL>"@ + call + "</CALL>"@ + after) == seq![uppercase(trim(call))],
{
    reveal_strlit("<CALL");
    reveal_strlit("<CALL>");
    reveal_strlit("</CALL>");
    reveal_strlit("CALL");
    let tag = "CALL"@;
    let record = before + "<CALL>"@ + call + "</CALL>"@ + after;
    lemma_names();
    assert(upper_ascii(tag) =~= tag);
    assert(before + "<CALL"@ =~= before + seq!['<'] + tag);
    assert("<CALL>"@ =~= open_tag(tag));
    let b = upper_ascii(call + seq!['<', '/'] + tag);
    assert(!contains(b, close_tag(tag))) by {
        if contains(b, close_tag(tag)) {
            let i = choose|i: int| occurs_at(b, close_tag(tag), i);
            assert(b.subrange(i, i + close_tag(tag).len())[0] == '<');
            if i < call.len() {
                assert(call[i] != '<');
            }
        }
    }
    law_tag_read_back(before, tag, call, after);
    assert(record =~= before + seq!['<'] + tag + seq!['>'] + call + seq!['<', '/'] + tag + seq!['>'] + after);
    let i = choose|i: int| occurs_at(upper_ascii(before), "<ENTEREVENT>"@, i);
    let n = "<ENTEREVENT>"@.len();
    assert(upper_ascii(record).subrange(i, i + n) =~= upper_ascii(before).subrange(i, i + n));
    assert(occurs_at(upper_ascii(record), "<ENTEREVENT>"@, i));
}

/// A record stands between its marks, in letters of either case; what stands before the first mark is
/// dropped, and what follows is read in turn.
pub proof fn law_record(junk: Seq<char>, start: Seq<char>, record: Seq<char>, end: Seq<char>, rest: Seq<char>)
    requires
        upper_ascii(start) == "<CMD>"@,
        upper_ascii(end) == "</CMD>"@,
        !contains(upper_ascii(junk + start.drop_last()), "<CMD>"@),
        !contains(upper_ascii(record + end.drop_last()), "</CMD>"@),
    ensures
        next_record(junk + start + record + end + rest) == (RecordStep::Record { record, rest }),
        drained(junk + start + record + end + rest).0 == drained(rest).0,
        drained(junk + start + record + end + rest).1 == calls_in(record) + drained(rest).1,
{
    reveal_strlit("<CMD>");
    reveal_strlit("</CMD>");
    let b = junk + start + record + end + rest;
    let z = upper_ascii(b);
    let s = junk.len() as int;
    let from = s + 5;
    let e = from + record.len();
    assert(start.len() == upper_ascii(start).len() && end.len() == upper_ascii(end).len());
    assert(z.subrange(s, s + 5) =~= upper_ascii(start));
    assert(z.subrange(e, e + 6) =~= upper_ascii(end));
    let first = upper_ascii(junk + start.drop_last());
    assert forall|j: int| 0 <= j < s implies !occurs_at(z, "<CMD>"@, j) by {
        if occurs_at(z, "<CMD>"@, j) {
            assert(first.subrange(j, j + 5) =~= z.subrange(j, j + 5));
            assert(occurs_at(first, "<CMD>"@, j));
        }
    }
    lemma_find_at(z, "<CMD>"@, 0, s);
    let second = upper_ascii(record + end.drop_last());
    assert forall|j: int| from <= j < e implies !occurs_at(z, "</CMD>"@, j) by {
        if occurs_at(z, "</CMD>"@, j) {
            assert(second.subrange(j - from, j - from + 6) =~= z.subrange(j, j + 6));
            assert(occurs_at(second, "</CMD>"@, j - from));
        }
    }
    lemma_find_at(z, "</CMD>"@, from, e);
    assert(b.subrange(from, e) =~= record);
    assert(b.skip(e + 6) =~= rest);
}

/// Text without the mark that starts a record is dropped; text with it, but without the mark that ends
/// one, waits for more.
pub proof fn law_no_record(b: Seq<char>)
    ensures
        !contains(upper_ascii(b), "<CMD>"@) ==> drained(b).0.len() == 0 && drained(b).1.len() == 0,
        contains(upper_ascii(b), "<CMD>"@) && !contains(upper_ascii(b), "</CMD>"@) ==> drained(b).0 == b && drained(
            b,
        ).1.len() == 0,
{
    let z = upper_ascii(b);
    lemma_find_found(z, "<CMD>"@, 0);
    match find_from(z, "<CMD>"@, 0) {
        Some(s) => {
            lemma_find_found(z, "</CMD>"@, s + 5);
            assert(occurs_at(z, "<CMD>"@, s));
            if let Some(e) = find_from(z, "</CMD>"@, s + 5) {
                assert(occurs_at(z, "</CMD>"@, e));
            }
        },
        None => {},
    }
}

/// Text that nowhere tells that a contact was entered adds no call, however it is cut into records.
pub proof fn law_nothing_entered(b: Seq<char>)
    requires
        !contains(upper_ascii(b), "<ENTEREVENT>"@),
    ensures
        drained(b).1.len() == 0,
    decreases b.len(),
{
    if let RecordStep::Record { record, rest } = next_record(b) {
        lemma_rest_shorter(b);
        let z = upper_ascii(b);
        let n = "<ENTEREVENT>"@.len();
        lemma_find_found(z, "<CMD>"@, 0);
        let s = find_from(z, "<CMD>"@, 0)->0 + 5;
        reveal_strlit("<CMD>");
        reveal_strlit("</CMD>");
        lemma_find_found(z, "</CMD>"@, s);
        let e = find_from(z, "</CMD>"@, s)->0 + 6;
        if contains(upper_ascii(record), "<ENTEREVENT>"@) {
            let i = choose|i: int| occurs_at(upper_ascii(record), "<ENTEREVENT>"@, i);
            assert(upper_ascii(record).subrange(i, i + n) =~= z.subrange(s + i, s + i + n));
            assert(occurs_at(z, "<ENTEREVENT>"@, s + i));
        }
        if contains(upper_ascii(rest), "<ENTEREVENT>"@) {
            let i = choose|i: int| occurs_at(upper_ascii(rest), "<ENTEREVENT>"@, i);
            assert(upper_ascii(rest).subrange(i, i + n) =~= z.subrange(e + i, e + i + n));
            assert(occurs_at(z, "<ENTEREVENT>"@, e + i));
        }
        law_heard_calls(record);
        law_nothing_entered(rest);
    }
}

/// The log's answer is what it says between the tags of the country or of the value; it can say six
/// things of a country.
pub proof fn law_answers(reply: Seq<char>, value: Seq<char>)
    ensures
        tag_value(reply, "COUNTRY"@) matches Some(c) ==> country_in(reply) == c,
        tag_value(reply, "COUNTRY"@) is None ==> country_in(reply).len() == 0,
        tag_value(reply, "VALUE"@) matches Some(c) ==> atno_in(reply) == c,
        tag_value(reply, "VALUE"@) is None ==> atno_in(reply).len() == 0,
        is_status(value) <==> value == "ATNO"@ || value == "OW"@ || value == "OC"@ || value == "OWBMW"@ || value
            == "OCBMW"@ || value == "BMC"@,
{
}

/// The key of a finding is the call, the band and the mode with bars between them, so that it tells
/// them apart where no call and no band holds a bar.
pub proof fn law_cache_key(w: WantedText, x: WantedText, country: Seq<char>, status: Seq<char>)
    ensures
        w.key() == w.call + seq!['|'] + w.band + seq!['|'] + w.mode,
        cache_key(w.call, w.band, w.mode) == w.key(),
        w.finding(country, status).cache_key == w.key(),
        w.finding(country, status).call == w.call,
        w.finding(country, status).country == country,
        w.finding(country, status).status == status,
        w.key() == x.key() && !w.call.contains('|') && !x.call.contains('|') && !w.band.contains('|')
            && !x.band.contains('|') ==> w == x,
{
    reveal_strlit("|");
    assert("|"@ =~= seq!['|']);
    if w.key() == x.key() && !w.call.contains('|') && !x.call.contains('|') && !w.band.contains('|')
        && !x.band.contains('|') {
        let a = w.band + seq!['|'] + w.mode;
        let b = x.band + seq!['|'] + x.mode;
        assert(w.key() =~= w.call + seq!['|'] + a);
        assert(x.key() =~= x.call + seq!['|'] + b);
        crate::laws::texts::law_before(w.call, '|', a);
        crate::laws::texts::law_before(x.call, '|', b);
        assert((w.call + seq!['|'] + a).skip(w.call.len() as int + 1) =~= a);
        assert((x.call + seq!['|'] + b).skip(x.call.len() as int + 1) =~= b);
        crate::laws::texts::law_before(w.band, '|', w.mode);
        crate::laws::texts::law_before(x.band, '|', x.mode);
        assert(a.skip(w.band.len() as int + 1) =~= w.mode);
        assert(b.skip(x.band.len() as int + 1) =~= x.mode);
        assert(w =~= x);
    }
}

/// Questions and answers are their fields as they stand; a batch is at the first question without an
/// answer.
pub proof fn law_batch_contents(w: Wanted, f: Finding, batch: LookupBatch)
    ensures
        w@.call == w.call@ && w@.band == w.band@ && w@.mode == w.mode@,
        f@.cache_key == f.cache_key@ && f@.call == f.call@ && f@.country == f.country@ && f@.status == f.status@,
        batch.answered() == batch.findings@.len(),
        batch.answered() < batch.items@.len() ==> batch.item() == batch.items@[batch.findings@.len() as int]@,
{
}

/// An answer to a question is added behind the answers before it, and tells of that question.
pub proof fn law_answer_added(a: LookupBatch, b: LookupBatch, country: Seq<char>, status: Seq<char>)
    requires
        b.wf(),
        b.answered() < b.items@.len(),
        a.same_items(&b),
        a.answers(&b, country, status),
    ensures
        a.findings@.len() == b.findings@.len() + 1,
        forall|i: int| 0 <= i < b.findings@.len() ==> #[trigger] a.findings@[i] == b.findings@[i],
        a.findings@.last()@.call == b.items@[b.findings@.len() as int]@.call,
        a.findings@.last()@.country == country,
        a.findings@.last()@.status == status,
        a.countries@ == b.countries@,
        a.items == b.items,
{
    assert forall|i: int| 0 <= i < b.findings@.len() implies #[trigger] a.findings@[i] == b.findings@[i] by {
        assert(a.findings@.drop_last()[i] == b.findings@[i]);
    }
}

} // verus!
