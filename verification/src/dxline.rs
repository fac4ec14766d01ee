//! Lines of a DX cluster.
use crate::band::{guess_mode_from_comment_and_freq, guessed_mode};
use crate::reading::{is_digit, number_of, read_number};
use crate::spot::{if_any, non_empty, opt_text, PotaSpot, SpotText};
use crate::text::{
    chars_of, find_either, index_of, join, joined, lemma_index_at, split_words, string_of, texts,
    trim, trimmed, upper_text, uppercase, words, words_and_rest, is_space,
};
use vstd::prelude::*;
use vstd::utf8::{
    decode_utf8, encode_utf8, encode_utf8_decode_utf8, encode_utf8_valid_utf8, is_ascii_chars,
    is_ascii_chars_encode_utf8, is_char_boundary, is_char_boundary_iff_not_is_continuation_byte,
    is_char_boundary_start_end_of_seq,
};

verus! {

/// Four digits and a `Z`: a time of day in UTC.
pub open spec fn is_zulu(t: Seq<char>) -> bool {
    t.len() == 5 && t[4] == 'Z' && is_digit(t[0]) && is_digit(t[1]) && is_digit(t[2]) && is_digit(t[3])
}

/// The time of day with a colon after the hour.
pub open spec fn zulu_time(t: Seq<char>) -> Seq<char> {
    t.subrange(0, 2) + seq![':'] + t.subrange(2, 4)
}

/// A text in angle brackets.
pub open spec fn is_bracketed(t: Seq<char>) -> bool {
    t.len() > 0 && t[0] == '<' && t.last() == '>'
}

pub open spec fn is_ascii_letter(c: char) -> bool {
    ('a' <= c && c <= 'z') || ('A' <= c && c <= 'Z')
}

/// A text like `15-Mar-2025`: a hyphen, a letter, more than eight bytes.
pub open spec fn has_month_name(t: Seq<char>) -> bool {
    &&& t.contains('-')
    &&& encode_utf8(t).len() > 8
    &&& exists|i: int| 0 <= i < t.len() && is_ascii_letter(#[trigger] t[i])
}

/// A text like `2025-03-15`: four digits, two and two, with hyphens between them.
pub open spec fn is_numeric_date(t: Seq<char>) -> bool {
    &&& t.len() == 10
    &&& t[4] == '-' && t[7] == '-'
    &&& is_digit(t[0]) && is_digit(t[1]) && is_digit(t[2]) && is_digit(t[3])
    &&& is_digit(t[5]) && is_digit(t[6]) && is_digit(t[8]) && is_digit(t[9])
}

/// A date, with its month by name or by number.
pub open spec fn is_date_like(t: Seq<char>) -> bool {
    has_month_name(t) || is_numeric_date(t)
}

/// A spot of the cluster.
pub open spec fn dx_spot(
    freq: Seq<char>,
    call: Seq<char>,
    time: Option<Seq<char>>,
    spotter: Option<Seq<char>>,
    comment: Seq<char>,
) -> SpotText {
    SpotText {
        spot_id: None,
        activator: call,
        frequency: freq,
        mode: guessed_mode(comment, freq),
        reference: Seq::empty(),
        park_name: None,
        spot_time: time,
        spotter,
        comments: non_empty(comment),
        source: Some("DXCluster"@),
        name: None,
        location_desc: None,
        grid4: None,
        grid6: None,
    }
}

/// What follows the first six bytes of a line.
pub open spec fn after_six(line: Seq<char>) -> Seq<char> {
    let bytes = encode_utf8(line);
    decode_utf8(bytes.subrange(6, bytes.len() as int))
}

/// The words after the first colon of `SPOTTER: FREQ CALL COMMENT TIME`.
pub open spec fn live_words(rest: Seq<char>) -> Seq<Seq<char>> {
    words(rest.skip(index_of(rest, ':') + 1))
}

/// There is something to read before the time that ends the line: it does not stand where the
/// call should stand.
pub open spec fn live_sound(rest: Seq<char>) -> bool {
    index_of(rest, ':') < rest.len() && live_words(rest).len() == 2 && number_of(live_words(rest)[0]) is Some
        ==> !is_zulu(live_words(rest)[1])
}

/// The spot in `SPOTTER: FREQ CALL COMMENT TIME`, where the comment and the time may be missing.
pub open spec fn live_spot(rest: Seq<char>) -> Option<SpotText> {
    let colon = index_of(rest, ':');
    let tokens = live_words(rest);
    if colon >= rest.len() || tokens.len() < 2 || number_of(tokens[0]) is None {
        None
    } else {
        let timed = is_zulu(tokens.last());
        let end = if timed {
            tokens.len() - 1
        } else {
            tokens.len() as int
        };
        let time = if timed {
            Some(zulu_time(tokens.last()))
        } else {
            None
        };
        Some(dx_spot(tokens[0], tokens[1], time, Some(trim(rest.take(colon))), join(tokens.subrange(2, end))))
    }
}

/// The first time among the words.
pub open spec fn first_zulu(tokens: Seq<Seq<char>>) -> Option<Seq<char>>
    decreases tokens.len(),
{
    if tokens.len() == 0 {
        None
    } else if is_zulu(tokens[0]) {
        Some(zulu_time(tokens[0]))
    } else {
        first_zulu(tokens.drop_first())
    }
}

/// A word that belongs to the comment: no spotter, no time, no date.
pub open spec fn is_comment_word(t: Seq<char>) -> bool {
    !is_bracketed(t) && !is_zulu(t) && !is_date_like(t)
}

/// The spot in `FREQ CALL DATE TIME COMMENT <SPOTTER>`.
pub open spec fn history_spot(line: Seq<char>) -> Option<SpotText> {
    let tokens = words(line);
    if tokens.len() < 3 || number_of(tokens[0]) is None {
        None
    } else {
        let last = tokens.last();
        let spotter = if is_bracketed(last) {
            Some(last.subrange(1, last.len() - 1))
        } else {
            None
        };
        let comment = join(tokens.skip(2).filter(|t: Seq<char>| is_comment_word(t)));
        Some(dx_spot(tokens[0], tokens[1], first_zulu(tokens.skip(2)), spotter, comment))
    }
}

/// The line is one of those that are sent as spots come in.
pub open spec fn is_live(line: Seq<char>) -> bool {
    "DX DE "@.is_prefix_of(uppercase(line))
}

/// The line can be read: where it starts like a live spot, its first six bytes end with a
/// character, and no time stands in place of the call.
pub open spec fn sound_line(line: Seq<char>) -> bool {
    is_live(trim(line)) ==> is_char_boundary(encode_utf8(trim(line)), 6) && live_sound(after_six(trim(line)))
}

/// The spot in a line of either form.
pub open spec fn line_spot(line: Seq<char>) -> Option<SpotText> {
    if is_live(trim(line)) {
        live_spot(after_six(trim(line)))
    } else {
        history_spot(trim(line))
    }
}

/// The contents of a spot that may be missing.
pub open spec fn opt_spot(o: Option<PotaSpot>) -> Option<SpotText> {
    match o {
        Some(s) => Some(s@),
        None => None,
    }
}

fn digit(c: char) -> (r: bool)
    ensures
        r == is_digit(c),
{
    '0' <= c && c <= '9'
}

fn zulu(t: &str) -> (r: bool)
    ensures
        r == is_zulu(t@),
{
    let v = chars_of(t);
    v.len() == 5 && v[4] == 'Z' && digit(v[0]) && digit(v[1]) && digit(v[2]) && digit(v[3])
}

fn zulu_text(t: &str) -> (r: String)
    requires
        is_zulu(t@),
    ensures
        r@ == zulu_time(t@),
{
    let v = chars_of(t);
    let mut s = string_of(&v, 0, 2);
    s.push(':');
    let m = string_of(&v, 2, 4);
    s.append(m.as_str());
    proof {
        assert(s@ =~= zulu_time(t@));
    }
    s
}

fn bracketed(t: &str) -> (r: bool)
    ensures
        r == is_bracketed(t@),
{
    let v = chars_of(t);
    v.len() > 0 && v[0] == '<' && v[v.len() - 1] == '>'
}

fn date_like(t: &str) -> (r: bool)
    ensures
        r == is_date_like(t@),
{
    let v = chars_of(t);
    if v.len() == 10 && v[4] == '-' && v[7] == '-' && digit(v[0]) && digit(v[1]) && digit(v[2]) && digit(v[3])
        && digit(v[5]) && digit(v[6]) && digit(v[8]) && digit(v[9]) {
        return true;
    }
    let mut hyphen = false;
    let mut letter = false;
    let mut i: usize = 0;
    while i < v.len()
        invariant
            i <= v@.len(),
            hyphen == v@.take(i as int).contains('-'),
            letter == exists|j: int| 0 <= j < i && is_ascii_letter(#[trigger] v@[j]),
        decreases v@.len() - i,
    {
        let c = v[i];
        proof {
            let now = v@.take(i as int);
            let next = v@.take(i + 1);
            assert(next =~= now.push(c));
            assert(now.contains('-') ==> next.contains('-')) by {
                if now.contains('-') {
                    let k = choose|k: int| 0 <= k < now.len() && now[k] == '-';
                    assert(next[k] == '-');
                }
            }
            assert(c == '-' ==> next.contains('-')) by {
                assert(next[i as int] == c);
            }
        }
        if c == '-' {
            hyphen = true;
        }
        if (c >= 'a' && c <= 'z') || (c >= 'A' && c <= 'Z') {
            letter = true;
            proof {
                assert(is_ascii_letter(v@[i as int]));
            }
        }
        i += 1;
    }
    proof {
        assert(v@.take(v@.len() as int) =~= v@);
    }
    hyphen && t.as_bytes().len() > 8 && letter
}

fn make_spot(freq: &String, call: &String, time: Option<String>, spotter: Option<String>, comment: String) -> (r:
    PotaSpot)
    ensures
        r@ == dx_spot(freq@, call@, opt_text(time), opt_text(spotter), comment@),
{
    let mode = guess_mode_from_comment_and_freq(comment.as_str(), freq.as_str());
    let r = PotaSpot {
        spot_id: None,
        activator: call.clone(),
        frequency: freq.clone(),
        mode,
        reference: String::new(),
        park_name: None,
        spot_time: time,
        spotter,
        comments: if_any(&comment),
        source: Some("DXCluster".to_owned()),
        name: None,
        location_desc: None,
        grid4: None,
        grid6: None,
    };
    proof {
        assert(r.reference@ =~= Seq::<char>::empty());
    }
    r
}

/// The words from `from` to `to`.
fn some_words(v: &Vec<String>, from: usize, to: usize) -> (r: Vec<String>)
    requires
        from <= to <= v@.len(),
    ensures
        texts(r@) == texts(v@).subrange(from as int, to as int),
{
    let mut r: Vec<String> = Vec::new();
    let mut i: usize = from;
    while i < to
        invariant
            from <= i <= to <= v@.len(),
            r@.len() == i - from,
            forall|j: int| 0 <= j < r@.len() ==> (#[trigger] r@[j])@ == v@[from + j]@,
        decreases to - i,
    {
        r.push(v[i].clone());
        i += 1;
    }
    proof {
        assert(texts(r@) =~= texts(v@).subrange(from as int, to as int));
    }
    r
}

/// What follows the first six bytes of a line.
fn skip_six<'a>(line: &'a str) -> (r: &'a str)
    requires
        is_char_boundary(encode_utf8(line@), 6),
    ensures
        r@ == after_six(line@),
{
    let (_, rest) = line.split_at(6);
    proof {
        encode_utf8_decode_utf8(rest@);
    }
    rest
}

/// The part before the first colon, trimmed, and the words after it.
fn live_parts(rest: &str) -> (r: Option<(String, Vec<String>)>)
    ensures
        r is Some <==> index_of(rest@, ':') < rest@.len(),
        r matches Some((spotter, tokens)) ==> spotter@ == trim(rest@.take(index_of(rest@, ':'))) && texts(tokens@)
            == live_words(rest@),
{
    let v = chars_of(rest);
    let colon = find_either(&v, 0, v.len(), ':', ':');
    proof {
        assert(v@.subrange(0, v@.len() as int) =~= v@);
    }
    if colon >= v.len() {
        return None;
    }
    let front = string_of(&v, 0, colon);
    let back = string_of(&v, colon + 1, v.len());
    proof {
        assert(front@ =~= rest@.take(colon as int));
        assert(back@ =~= rest@.skip(colon + 1));
    }
    Some((trimmed(front.as_str()).to_owned(), split_words(back.as_str())))
}

/// A line of the form `DX de W3LPL:     14195.0  5B4AHL       CW 15 dB          1523Z`.
pub fn parse_dx_live_format(line: &str) -> (r: Option<PotaSpot>)
    requires
        is_char_boundary(encode_utf8(line@), 6),
        live_sound(after_six(line@)),
    ensures
        opt_spot(r) == live_spot(after_six(line@)),
        r matches Some(s) ==> {
            let rest = after_six(line@);
            let w = words(rest.skip(index_of(rest, ':') + 1));
            s.frequency@ == w[0] && s.activator@ == w[1]
        },
{
    let rest = skip_six(line);
    let (spotter, tokens) = match live_parts(rest) {
        Some(parts) => parts,
        None => {
            return None;
        },
    };
    let n = tokens.len();
    let ghost all = live_words(rest@);
    if n < 2 {
        return None;
    }
    proof {
        assert(texts(tokens@)[0] == tokens@[0]@);
        assert(texts(tokens@)[1] == tokens@[1]@);
        assert(texts(tokens@).last() == tokens@[n - 1]@);
    }
    if read_number(tokens[0].as_str()).is_none() {
        return None;
    }
    let timed = zulu(tokens[n - 1].as_str());
    let time = if timed {
        Some(zulu_text(tokens[n - 1].as_str()))
    } else {
        None
    };
    let end = if timed {
        n - 1
    } else {
        n
    };
    let comment_words = some_words(&tokens, 2, end);
    let comment = joined(&comment_words);
    Some(make_spot(&tokens[0], &tokens[1], time, Some(spotter), comment))
}

fn find_time(tokens: &Vec<String>, from: usize) -> (r: Option<String>)
    requires
        from <= tokens@.len(),
    ensures
        opt_text(r) == first_zulu(texts(tokens@).skip(from as int)),
{
    let mut i: usize = from;
    while i < tokens.len()
        invariant
            from <= i <= tokens@.len(),
            first_zulu(texts(tokens@).skip(from as int)) == first_zulu(texts(tokens@).skip(i as int)),
        decreases tokens@.len() - i,
    {
        proof {
            let rest = texts(tokens@).skip(i as int);
            assert(rest[0] == tokens@[i as int]@);
            assert(rest.drop_first() =~= texts(tokens@).skip(i + 1));
        }
        if zulu(tokens[i].as_str()) {
            return Some(zulu_text(tokens[i].as_str()));
        }
        i += 1;
    }
    None
}

/// The words of the comment, from `from` on.
fn comment_of(tokens: &Vec<String>, from: usize) -> (r: Vec<String>)
    requires
        from <= tokens@.len(),
    ensures
        texts(r@) == texts(tokens@).skip(from as int).filter(|t: Seq<char>| is_comment_word(t)),
{
    let mut r: Vec<String> = Vec::new();
    let mut i: usize = from;
    let ghost all = texts(tokens@).skip(from as int);
    let ghost keep = |t: Seq<char>| is_comment_word(t);
    proof {
        reveal(Seq::filter);
        assert(texts(r@) =~= Seq::<Seq<char>>::empty());
        assert(all.take(0) =~= Seq::<Seq<char>>::empty());
    }
    while i < tokens.len()
        invariant
            from <= i <= tokens@.len(),
            all == texts(tokens@).skip(from as int),
            keep == (|t: Seq<char>| is_comment_word(t)),
            texts(r@) == all.take(i - from).filter(keep),
        decreases tokens@.len() - i,
    {
        let t = tokens[i].as_str();
        let ghost done = r@;
        proof {
            reveal(Seq::filter);
            let next = all.take(i - from + 1);
            assert(next.drop_last() =~= all.take(i - from));
            assert(next.last() == t@);
        }
        if !bracketed(t) && !zulu(t) && !date_like(t) {
            r.push(tokens[i].clone());
            proof {
                assert(texts(r@) =~= texts(done).push(t@));
            }
        }
        i += 1;
    }
    proof {
        assert(all.take(all.len() as int) =~= all);
    }
    r
}

/// A line of the form `14195.0  5B4AHL  15-Mar-2025 1523Z  CW 15 dB  <W3LPL>`.
pub fn parse_dx_history_format(line: &str) -> (r: Option<PotaSpot>)
    ensures
        opt_spot(r) == history_spot(line@),
        r matches Some(s) ==> s.frequency@ == words(line@)[0] && s.activator@ == words(line@)[1],
{
    let tokens = split_words(line);
    let n = tokens.len();
    if n < 3 {
        return None;
    }
    proof {
        assert(texts(tokens@)[0] == tokens@[0]@);
        assert(texts(tokens@)[1] == tokens@[1]@);
        assert(texts(tokens@).last() == tokens@[n - 1]@);
    }
    if read_number(tokens[0].as_str()).is_none() {
        return None;
    }
    let last = tokens[n - 1].as_str();
    let spotter = if bracketed(last) {
        let v = chars_of(last);
        Some(string_of(&v, 1, v.len() - 1))
    } else {
        None
    };
    let time = find_time(&tokens, 2);
    let comment_words = comment_of(&tokens, 2);
    let comment = joined(&comment_words);
    Some(make_spot(&tokens[0], &tokens[1], time, spotter, comment))
}

fn live(line: &str) -> (r: bool)
    ensures
        r == is_live(line@),
{
    let upper = upper_text(line);
    let v = chars_of(upper.as_str());
    proof {
        reveal_strlit("DX DE ");
    }
    let r = v.len() >= 6 && v[0] == 'D' && v[1] == 'X' && v[2] == ' ' && v[3] == 'D' && v[4] == 'E' && v[5] == ' ';
    proof {
        let p = "DX DE "@;
        assert(p.len() == 6);
        assert(p[0] == 'D' && p[1] == 'X' && p[2] == ' ' && p[3] == 'D' && p[4] == 'E' && p[5] == ' ');
        if r {
            assert(p =~= v@.subrange(0, 6));
        }
        if p.is_prefix_of(v@) {
            assert(p == v@.subrange(0, 6));
            assert(v@.subrange(0, 6)[0] == v@[0] && v@.subrange(0, 6)[1] == v@[1] && v@.subrange(0, 6)[2] == v@[2]
                && v@.subrange(0, 6)[3] == v@[3] && v@.subrange(0, 6)[4] == v@[4] && v@.subrange(0, 6)[5] == v@[5]);
        }
    }
    r
}

/// Whether a line can be read.
pub fn is_sound_line(line: &str) -> (r: bool)
    ensures
        r == sound_line(line@),
{
    let line = trimmed(line);
    if !live(line) {
        return true;
    }
    if !line.is_char_boundary(6) {
        return false;
    }
    match live_parts(skip_six(line)) {
        Some((_, tokens)) => {
            if tokens.len() != 2 {
                return true;
            }
            proof {
                assert(texts(tokens@)[0] == tokens@[0]@);
                assert(texts(tokens@)[1] == tokens@[1]@);
            }
            read_number(tokens[0].as_str()).is_none() || !zulu(tokens[1].as_str())
        },
        None => true,
    }
}

/// The spot in a line of the cluster, in either of its forms.
pub fn parse_dx_spot_line(line: &str) -> (r: Option<PotaSpot>)
    requires
        sound_line(line@),
    ensures
        opt_spot(r) == line_spot(line@),
{
    let line = trimmed(line);
    if live(line) {
        return parse_dx_live_format(line);
    }
    parse_dx_history_format(line)
}

/// A text that can stand as one word of a line.
pub open spec fn is_word(t: Seq<char>) -> bool {
    t.len() > 0 && forall|i: int| 0 <= i < t.len() ==> !is_space(#[trigger] t[i])
}

proof fn lemma_words_append(a: Seq<char>, b: Seq<char>)
    requires
        words_and_rest(a).1.len() == 0,
    ensures
        words_and_rest(a + b).0 == words_and_rest(a).0 + words_and_rest(b).0,
        words_and_rest(a + b).1 == words_and_rest(b).1,
    decreases b.len(),
{
    if b.len() == 0 {
        assert(a + b =~= a);
        assert(words_and_rest(a).1 =~= Seq::empty());
        assert(words_and_rest(a).0 + Seq::<Seq<char>>::empty() =~= words_and_rest(a).0);
    } else {
        let front = b.drop_last();
        lemma_words_append(a, front);
        assert((a + b).drop_last() =~= a + front);
        assert((a + b).last() == b.last());
        let x = words_and_rest(a).0;
        let (done, rest) = words_and_rest(front);
        assert((x + done).push(rest) =~= x + done.push(rest));
    }
}

proof fn lemma_word_alone(t: Seq<char>)
    requires
        forall|i: int| 0 <= i < t.len() ==> !is_space(#[trigger] t[i]),
    ensures
        words_and_rest(t) == (Seq::<Seq<char>>::empty(), t),
    decreases t.len(),
{
    if t.len() == 0 {
        assert(t =~= Seq::empty());
    } else {
        let front = t.drop_last();
        assert forall|i: int| 0 <= i < front.len() implies !is_space(#[trigger] front[i]) by {
            assert(front[i] == t[i]);
        }
        lemma_word_alone(front);
        assert(!is_space(t[t.len() - 1]));
        assert(front.push(t.last()) =~= t);
    }
}

proof fn lemma_words_join(parts: Seq<Seq<char>>)
    requires
        parts.len() > 0,
        forall|i: int| 0 <= i < parts.len() ==> is_word(#[trigger] parts[i]),
    ensures
        words_and_rest(join(parts)) == (parts.drop_last(), parts.last()),
    decreases parts.len(),
{
    if parts.len() == 1 {
        lemma_word_alone(parts[0]);
        assert(parts.drop_last() =~= Seq::empty());
    } else {
        let front = parts.drop_last();
        assert forall|i: int| 0 <= i < front.len() implies is_word(#[trigger] front[i]) by {
            assert(front[i] == parts[i]);
        }
        lemma_words_join(front);
        let s = join(front).push(' ');
        assert(s.drop_last() =~= join(front));
        assert(s.last() == ' ');
        assert(front.last() == parts[parts.len() - 2]);
        assert(is_word(front.last()));
        assert(front.drop_last().push(front.last()) =~= front);
        assert(words_and_rest(s) == (front, Seq::<char>::empty()));
        assert(is_word(parts.last()));
        lemma_word_alone(parts.last());
        lemma_words_append(s, parts.last());
        assert(s + parts.last() =~= join(front) + seq![' '] + parts.last());
        assert(front + Seq::<Seq<char>>::empty() =~= front);
    }
}

/// The words of joined words are those words.
pub proof fn law_words_of_join(parts: Seq<Seq<char>>)
    requires
        forall|i: int| 0 <= i < parts.len() ==> is_word(#[trigger] parts[i]),
    ensures
        words(join(parts)) == parts,
{
    if parts.len() == 0 {
        assert(words(join(parts)) =~= parts);
    } else {
        lemma_words_join(parts);
        assert(is_word(parts[parts.len() - 1]));
        assert(parts.drop_last().push(parts.last()) =~= parts);
    }
}

/// What is read from a live spot is what was written in it, however wide the gaps between the words.
pub proof fn law_live_spot_read_back(
    spotter: Seq<char>,
    tail: Seq<char>,
    freq: Seq<char>,
    call: Seq<char>,
    comment: Seq<Seq<char>>,
    time: Seq<char>,
)
    requires
        !spotter.contains(':'),
        words(tail) == seq![freq, call] + comment + seq![time],
        number_of(freq) is Some,
        is_zulu(time),
    ensures
        live_sound(spotter + seq![':'] + tail),
        live_spot(spotter + seq![':'] + tail) == Some(
            dx_spot(freq, call, Some(zulu_time(time)), Some(trim(spotter)), join(comment)),
        ),
{
    let rest = spotter + seq![':'] + tail;
    let parts = seq![freq, call] + comment + seq![time];
    let colon = spotter.len() as int;
    assert forall|j: int| 0 <= j < colon implies rest[j] != ':' by {
        assert(rest[j] == spotter[j]);
        assert(spotter.contains(spotter[j]));
    }
    assert(rest[colon] == ':');
    lemma_index_at(rest, ':', ':', colon);
    assert(rest.take(colon) =~= spotter);
    assert(rest.skip(colon + 1) =~= tail);
    assert(live_words(rest) == parts);
    assert(parts.last() == time);
    assert(parts.subrange(2, parts.len() - 1) =~= comment);
}

/// A live spot need not give a time. Without one, all words after the call are its comment.
pub proof fn law_untimed_spot_read_back(
    spotter: Seq<char>,
    tail: Seq<char>,
    freq: Seq<char>,
    call: Seq<char>,
    comment: Seq<Seq<char>>,
)
    requires
        !spotter.contains(':'),
        words(tail) == seq![freq, call] + comment,
        number_of(freq) is Some,
        !is_zulu((seq![freq, call] + comment).last()),
    ensures
        live_sound(spotter + seq![':'] + tail),
        live_spot(spotter + seq![':'] + tail) == Some(
            dx_spot(freq, call, None, Some(trim(spotter)), join(comment)),
        ),
{
    let rest = spotter + seq![':'] + tail;
    let parts = seq![freq, call] + comment;
    let colon = spotter.len() as int;
    assert forall|j: int| 0 <= j < colon implies rest[j] != ':' by {
        assert(rest[j] == spotter[j]);
        assert(spotter.contains(spotter[j]));
    }
    assert(rest[colon] == ':');
    lemma_index_at(rest, ':', ':', colon);
    assert(rest.take(colon) =~= spotter);
    assert(rest.skip(colon + 1) =~= tail);
    assert(live_words(rest) == parts);
    assert(parts.subrange(2, parts.len() as int) =~= comment);
}

proof fn lemma_encode_ascii_first(s: Seq<char>)
    requires
        s.len() > 0,
        s[0] as u32 <= 0x7f,
    ensures
        encode_utf8(s).len() == 1 + encode_utf8(s.drop_first()).len(),
        encode_utf8(s).skip(1) == encode_utf8(s.drop_first()),
{
    assert(vstd::utf8::encode_scalar(s[0] as u32).len() == 1);
    assert(encode_utf8(s).skip(1) =~= encode_utf8(s.drop_first()));
}

pub proof fn lemma_encode_ascii_prefix(s: Seq<char>, n: nat)
    requires
        n <= s.len(),
        forall|i: int| 0 <= i < n ==> (#[trigger] s[i]) as u32 <= 0x7f,
    ensures
        encode_utf8(s).len() == n + encode_utf8(s.skip(n as int)).len(),
        encode_utf8(s).skip(n as int) == encode_utf8(s.skip(n as int)),
    decreases n,
{
    if n == 0 {
        assert(s.skip(0) =~= s);
        assert(encode_utf8(s).skip(0) =~= encode_utf8(s));
    } else {
        assert(s[0] as u32 <= 0x7f);
        lemma_encode_ascii_first(s);
        let rest = s.drop_first();
        assert forall|i: int| 0 <= i < n - 1 implies (#[trigger] rest[i]) as u32 <= 0x7f by {
            assert(rest[i] == s[i + 1]);
        }
        lemma_encode_ascii_prefix(rest, (n - 1) as nat);
        assert(rest.skip(n - 1) =~= s.skip(n as int));
        assert(encode_utf8(s).skip(1).skip(n - 1) =~= encode_utf8(s).skip(n as int));
    }
}

proof fn lemma_boundary_after_ascii(s: Seq<char>, n: nat)
    requires
        n <= s.len(),
        forall|i: int| 0 <= i < n ==> (#[trigger] s[i]) as u32 <= 0x7f,
    ensures
        is_char_boundary(encode_utf8(s), n as int),
{
    lemma_encode_ascii_prefix(s, n);
    let bytes = encode_utf8(s);
    let rest = s.skip(n as int);
    encode_utf8_valid_utf8(s);
    encode_utf8_valid_utf8(rest);
    if bytes.len() == n {
        is_char_boundary_start_end_of_seq(bytes);
    } else {
        let part = encode_utf8(rest);
        assert(part.len() > 0);
        is_char_boundary_start_end_of_seq(part);
        is_char_boundary_iff_not_is_continuation_byte(part, 0);
        assert(part[0] == bytes.skip(n as int)[0]);
        is_char_boundary_iff_not_is_continuation_byte(bytes, n as int);
    }
}

/// A line that starts with `DX de` and a space can be cut after it, and is read by what follows.
pub proof fn law_live_line(rest: Seq<char>)
    requires
        trim("DX de "@ + rest) == "DX de "@ + rest,
        is_live("DX de "@ + rest),
    ensures
        sound_line("DX de "@ + rest) == live_sound(rest),
        line_spot("DX de "@ + rest) == live_spot(rest),
{
    reveal_strlit("DX de ");
    let line = "DX de "@ + rest;
    lemma_encode_ascii_prefix(line, 6);
    assert(line.skip(6) =~= rest);
    let bytes = encode_utf8(line);
    assert(bytes.subrange(6, bytes.len() as int) =~= bytes.skip(6));
    encode_utf8_decode_utf8(rest);
    lemma_boundary_after_ascii(line, 6);
}

proof fn lemma_filter_all(parts: Seq<Seq<char>>, keep: spec_fn(Seq<char>) -> bool)
    requires
        forall|i: int| 0 <= i < parts.len() ==> keep(#[trigger] parts[i]),
    ensures
        parts.filter(keep) == parts,
    decreases parts.len(),
{
    reveal(Seq::filter);
    if parts.len() > 0 {
        let front = parts.drop_last();
        assert forall|i: int| 0 <= i < front.len() implies keep(#[trigger] front[i]) by {
            assert(front[i] == parts[i]);
        }
        lemma_filter_all(front, keep);
        assert(keep(parts[parts.len() - 1]));
        assert(front.push(parts.last()) =~= parts);
    } else {
        assert(parts.filter(keep) =~= parts);
    }
}

proof fn lemma_date_is_no_time(t: Seq<char>)
    requires
        is_date_like(t),
    ensures
        !is_zulu(t),
{
    if is_zulu(t) {
        assert(is_ascii_chars(t));
        is_ascii_chars_encode_utf8(t);
    }
}

/// What is read from a listed spot is what was written in it, however wide the gaps between the
/// words.
pub proof fn law_history_spot_read_back(
    line: Seq<char>,
    freq: Seq<char>,
    call: Seq<char>,
    date: Seq<char>,
    time: Seq<char>,
    comment: Seq<Seq<char>>,
    spotter: Seq<char>,
)
    requires
        words(line) == seq![freq, call] + (seq![date, time] + comment + seq![seq!['<'] + spotter + seq!['>']]),
        number_of(freq) is Some,
        is_date_like(date),
        is_zulu(time),
        forall|i: int| 0 <= i < comment.len() ==> is_comment_word(#[trigger] comment[i]),
    ensures
        history_spot(line) == Some(
            dx_spot(freq, call, Some(zulu_time(time)), Some(spotter), join(comment)),
        ),
{
    lemma_date_is_no_time(date);
    let name = seq!['<'] + spotter + seq!['>'];
    let tail = seq![date, time] + comment + seq![name];
    let parts = seq![freq, call] + tail;
    assert(parts.last() == name);
    assert(is_bracketed(name));
    assert(name.subrange(1, name.len() - 1) =~= spotter);
    assert(parts.skip(2) =~= tail);
    assert(tail[0] == date && tail.drop_first()[0] == time);
    reveal_with_fuel(first_zulu, 2);
    assert(first_zulu(tail) == Some(zulu_time(time)));
    let keep = |t: Seq<char>| is_comment_word(t);
    Seq::filter_distributes_over_add(seq![date, time] + comment, seq![name], keep);
    Seq::filter_distributes_over_add(seq![date, time], comment, keep);
    lemma_filter_all(comment, keep);
    assert(seq![date, time].filter(keep) =~= Seq::empty()) by {
        reveal_with_fuel(Seq::filter, 3);
        let two = seq![date, time];
        assert(two.drop_last() =~= seq![date]);
        assert(two.drop_last().drop_last() =~= Seq::empty());
        assert(two.last() == time);
        assert(!keep(time));
        assert(!keep(date));
    }
    assert(seq![name].filter(keep) =~= Seq::empty()) by {
        reveal_with_fuel(Seq::filter, 2);
        assert(seq![name].drop_last() =~= Seq::empty());
        assert(!keep(name));
    }
    assert(tail.filter(keep) =~= comment);
}

} // verus!
