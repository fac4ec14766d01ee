//! What holds of the DX cluster: its lines, its nodes, its cache and the link to it.
use crate::band::guessed_mode;
use crate::digits::decimal;
use crate::dxcluster::{cached_texts, fresh, is_fresh, last_index_of, node_of, node_texts, nodes_in, DxCachedSpot};
use crate::dxline::{
    after_six, history_spot, is_live, lemma_encode_ascii_prefix, line_spot, live_spot, opt_spot,
    sound_line,
};
use crate::dxlink::{
    address_text, cached, connecting_text, fresh_only, spots_in, with_new, DxLink,
};
use crate::laws::texts::{law_before, law_words_are_words};
use crate::reading::{number_of, port_of};
use crate::spot::{PotaSpot, SpotText};
use crate::text::{join, strip_end, trim, words};
use vstd::prelude::*;
use vstd::utf8::{encode_utf8, encode_utf8_decode_utf8};

verus! {

/// Four digits and a `Z`.
pub open spec fn is_time(t: Seq<char>) -> bool {
    t.len() == 5 && t[4] == 'Z' && forall|i: int| 0 <= i < 4 ==> '0' <= #[trigger] t[i] <= '9'
}

/// A word in angle brackets.
pub open spec fn in_brackets(t: Seq<char>) -> bool {
    t.len() >= 2 && t[0] == '<' && t[t.len() - 1] == '>'
}

/// A date: `dddd-dd-dd`, or more than eight bytes with a hyphen and a letter among them.
pub open spec fn is_date(t: Seq<char>) -> bool {
    ||| t.len() == 10 && forall|i: int|
        0 <= i < 10 ==> if i == 4 || i == 7 {
            #[trigger] t[i] == '-'
        } else {
            '0' <= t[i] <= '9'
        }
    ||| encode_utf8(t).len() > 8 && (exists|i: int| 0 <= i < t.len() && #[trigger] t[i] == '-') && exists|i: int|
        0 <= i < t.len() && ('a' <= #[trigger] t[i] <= 'z' || 'A' <= t[i] <= 'Z')
}

/// The call of a spot is the second word, and its frequency the first one, character for character;
/// what the cluster does not tell of a spot is left open.
pub open spec fn is_cluster_spot(s: SpotText, w: Seq<Seq<char>>) -> bool {
    &&& s.frequency == w[0]
    &&& s.activator == w[1]
    &&& s.source == Some("DXCluster"@)
    &&& s.reference.len() == 0
    &&& s.spot_id is None && s.park_name is None && s.name is None && s.location_desc is None
    &&& s.grid4 is None && s.grid6 is None
}

/// The words are the comment, and the mode is the one that they name or the frequency suggests.
pub open spec fn is_comment(s: SpotText, c: Seq<Seq<char>>) -> bool {
    &&& c.len() == 0 ==> s.comments is None
    &&& c.len() > 0 ==> s.comments == Some(join(c))
    &&& s.mode == guessed_mode(join(c), s.frequency)
}

proof fn lemma_join_some(c: Seq<Seq<char>>)
    requires
        forall|i: int| 0 <= i < c.len() ==> (#[trigger] c[i]).len() > 0,
    ensures
        join(c).len() > 0 <==> c.len() > 0,
    decreases c.len(),
{
    if c.len() > 1 {
        let d = c.drop_last();
        assert forall|i: int| 0 <= i < d.len() implies (#[trigger] d[i]).len() > 0 by {
            assert(d[i] == c[i]);
        }
        lemma_join_some(d);
    } else if c.len() == 1 {
        assert(c[0].len() > 0);
    }
}

/// A live line tells, after the colon, first the frequency, then the call, then a comment, and last the
/// time, which may be missing; before the colon, the spotter. It holds a spot exactly when there are two
/// words after the colon and the first is a number.
pub proof fn law_live_fields(spotter: Seq<char>, tail: Seq<char>)
    requires
        !spotter.contains(':'),
    ensures
        ({
            let w = words(tail);
            match live_spot(spotter + seq![':'] + tail) {
                Some(s) => {
                    &&& w.len() >= 2 && number_of(w[0]) is Some
                    &&& is_cluster_spot(s, w)
                    &&& s.spotter == Some(trim(spotter))
                    &&& !is_time(w.last()) ==> s.spot_time is None && is_comment(s, w.skip(2))
                    &&& is_time(w.last()) && w.len() > 2 ==> {
                        let t = w.last();
                        s.spot_time == Some(seq![t[0], t[1], ':', t[2], t[3]]) && is_comment(
                            s,
                            w.subrange(2, w.len() - 1),
                        )
                    }
                },
                None => w.len() < 2 || number_of(w[0]) is None,
            }
        }),
        live_spot(spotter) is None,
{
    law_before(spotter, ':', tail);
    let rest = spotter + seq![':'] + tail;
    let w = words(tail);
    assert(rest.skip(spotter.len() as int + 1) =~= tail);
    assert(rest.take(spotter.len() as int) =~= spotter);
    assert forall|i: int| 0 <= i < w.len() implies (#[trigger] w[i]).len() > 0 by {
        law_words_are_words(tail, i);
    }
    if w.len() >= 2 {
        let t = w.last();
        assert(w.subrange(2, w.len() as int) =~= w.skip(2));
        assert forall|i: int| 0 <= i < w.skip(2).len() implies (#[trigger] w.skip(2)[i]).len() > 0 by {
            assert(w.skip(2)[i] == w[i + 2]);
        }
        lemma_join_some(w.skip(2));
        if w.len() > 2 {
            let c = w.subrange(2, w.len() - 1);
            assert forall|i: int| 0 <= i < c.len() implies (#[trigger] c[i]).len() > 0 by {
                assert(c[i] == w[i + 2]);
            }
            lemma_join_some(c);
        }
        assert(is_time(t) == crate::dxline::is_zulu(t));
        if is_time(t) {
            assert(t.subrange(0, 2) + seq![':'] + t.subrange(2, 4) =~= seq![t[0], t[1], ':', t[2], t[3]]);
        }
    }
}

proof fn lemma_first_time(w: Seq<Seq<char>>, i: int)
    requires
        0 <= i < w.len(),
        is_time(w[i]),
        forall|j: int| 0 <= j < i ==> !is_time(#[trigger] w[j]),
    ensures
        ({
            let t = w[i];
            crate::dxline::first_zulu(w) == Some(seq![t[0], t[1], ':', t[2], t[3]])
        }),
    decreases i,
{
    let t = w[0];
    assert(is_time(t) == crate::dxline::is_zulu(t));
    if i == 0 {
        assert(t.subrange(0, 2) + seq![':'] + t.subrange(2, 4) =~= seq![t[0], t[1], ':', t[2], t[3]]);
    } else {
        assert(!is_time(w[0]));
        let rest = w.drop_first();
        assert forall|j: int| 0 <= j < i - 1 implies !is_time(#[trigger] rest[j]) by {
            assert(rest[j] == w[j + 1]);
        }
        lemma_first_time(rest, i - 1);
    }
}

proof fn lemma_no_time(w: Seq<Seq<char>>)
    requires
        forall|j: int| 0 <= j < w.len() ==> !is_time(#[trigger] w[j]),
    ensures
        crate::dxline::first_zulu(w) is None,
    decreases w.len(),
{
    if w.len() > 0 {
        assert(!is_time(w[0]));
        assert(is_time(w[0]) == crate::dxline::is_zulu(w[0]));
        let rest = w.drop_first();
        assert forall|j: int| 0 <= j < rest.len() implies !is_time(#[trigger] rest[j]) by {
            assert(rest[j] == w[j + 1]);
        }
        lemma_no_time(rest);
    }
}

/// A listed line tells first the frequency, then the call, then date, time, comment and spotter in
/// whatever order, the spotter last. It holds a spot exactly when it has three words and the first is a
/// number.
pub proof fn law_history_fields(line: Seq<char>)
    ensures
        ({
            let w = words(line);
            match history_spot(line) {
                Some(s) => {
                    &&& w.len() >= 3 && number_of(w[0]) is Some
                    &&& is_cluster_spot(s, w)
                    &&& in_brackets(w.last()) ==> s.spotter == Some(w.last().subrange(1, w.last().len() - 1))
                    &&& !in_brackets(w.last()) ==> s.spotter is None
                    &&& is_comment(
                        s,
                        w.skip(2).filter(|t: Seq<char>| !in_brackets(t) && !is_time(t) && !is_date(t)),
                    )
                },
                None => w.len() < 3 || number_of(w[0]) is None,
            }
        }),
{
    let w = words(line);
    let mine = |t: Seq<char>| !in_brackets(t) && !is_time(t) && !is_date(t);
    let theirs = |t: Seq<char>| crate::dxline::is_comment_word(t);
    assert forall|t: Seq<char>| #[trigger] mine(t) == theirs(t) by {
        lemma_comment_word(t);
    }
    assert(mine =~= theirs);
    let c = w.skip(2).filter(mine);
    if w.len() >= 3 {
        broadcast use vstd::seq_lib::group_filter_ensures;

        assert forall|i: int| 0 <= i < c.len() implies (#[trigger] c[i]).len() > 0 by {
            assert(w.skip(2).contains(c[i])) by {
                assert(c.contains(c[i]));
                w.skip(2).lemma_filter_contains_rev(mine, c[i]);
            }
            let k = choose|k: int| 0 <= k < w.skip(2).len() && w.skip(2)[k] == c[i];
            assert(w.skip(2)[k] == w[k + 2]);
            law_words_are_words(line, k + 2);
        }
        lemma_join_some(c);
        lemma_comment_word(w.last());
    }
}

/// The time of a listed line is the first word that is one, after the call.
pub proof fn law_history_time(line: Seq<char>, i: int)
    requires
        history_spot(line) is Some,
        2 <= i < words(line).len(),
        forall|j: int| 2 <= j < i ==> !is_time(#[trigger] words(line)[j]),
    ensures
        is_time(words(line)[i]) ==> {
            let t = words(line)[i];
            history_spot(line)->0.spot_time == Some(seq![t[0], t[1], ':', t[2], t[3]])
        },
        i == words(line).len() - 1 && !is_time(words(line)[i]) ==> history_spot(line)->0.spot_time is None,
{
    let w = words(line).skip(2);
    assert forall|j: int| 0 <= j < i - 2 implies !is_time(#[trigger] w[j]) by {
        assert(w[j] == words(line)[j + 2]);
    }
    assert(w[i - 2] == words(line)[i]);
    if is_time(w[i - 2]) {
        lemma_first_time(w, i - 2);
    } else if i == words(line).len() - 1 {
        assert forall|j: int| 0 <= j < w.len() implies !is_time(#[trigger] w[j]) by {}
        lemma_no_time(w);
    }
}

proof fn lemma_comment_word(t: Seq<char>)
    ensures
        crate::dxline::is_zulu(t) == is_time(t),
        crate::dxline::is_bracketed(t) == in_brackets(t),
        crate::dxline::is_date_like(t) == is_date(t),
{
    if t.len() == 1 {
        assert(t[0] == t.last());
    }
    if crate::dxline::has_month_name(t) {
        let i = choose|i: int| 0 <= i < t.len() && t[i] == '-';
        assert(t[i] == '-');
        let j = choose|j: int| 0 <= j < t.len() && crate::dxline::is_ascii_letter(#[trigger] t[j]);
        assert('a' <= t[j] <= 'z' || 'A' <= t[j] <= 'Z');
    }
    if exists|i: int| 0 <= i < t.len() && ('a' <= #[trigger] t[i] <= 'z' || 'A' <= t[i] <= 'Z') {
        let j = choose|j: int| 0 <= j < t.len() && ('a' <= #[trigger] t[j] <= 'z' || 'A' <= t[j] <= 'Z');
        assert(crate::dxline::is_ascii_letter(t[j]));
    }
    if t.len() == 10 {
        let mine = forall|i: int|
            0 <= i < 10 ==> if i == 4 || i == 7 {
                #[trigger] t[i] == '-'
            } else {
                '0' <= t[i] <= '9'
            };
        if mine {
            assert(t[0] == t[0] && t[1] == t[1] && t[2] == t[2] && t[3] == t[3] && t[4] == '-');
            assert('0' <= t[5] <= '9' && '0' <= t[6] <= '9' && t[7] == '-' && '0' <= t[8] <= '9' && '0' <= t[9] <= '9');
            assert(crate::dxline::is_numeric_date(t));
        }
    }
}

/// A line, without the white space around it, is a live one where it starts with `DX DE ` in letters of
/// either case; what follows those six characters is then read. Any other is read as a listed one.
pub proof fn law_line(line: Seq<char>)
    ensures
        ({
            let t = trim(line);
            let starts = uppercase_starts(t);
            &&& !starts ==> sound_line(line) && line_spot(line) == history_spot(t)
            &&& starts && t.len() >= 6 && (forall|i: int| 0 <= i < 6 ==> (#[trigger] t[i]) as u32 <= 0x7f)
                ==> line_spot(line) == live_spot(t.skip(6))
        }),
{
    let t = trim(line);
    reveal_strlit("DX DE ");
    let u = crate::text::uppercase(t);
    if is_live(t) {
        assert(u.take(6) =~= "DX DE "@);
    }
    if uppercase_starts(t) {
        assert("DX DE "@.is_prefix_of(u)) by {
            assert(u.subrange(0, 6) =~= u.take(6));
        }
    }
    if t.len() >= 6 && (forall|i: int| 0 <= i < 6 ==> (#[trigger] t[i]) as u32 <= 0x7f) {
        lemma_encode_ascii_prefix(t, 6);
        let bytes = encode_utf8(t);
        assert(bytes.subrange(6, bytes.len() as int) =~= bytes.skip(6));
        encode_utf8_decode_utf8(t.skip(6));
        assert(after_six(t) == t.skip(6));
    }
}

/// The uppercase form of a text starts with `DX DE `.
pub open spec fn uppercase_starts(t: Seq<char>) -> bool {
    crate::text::uppercase(t).len() >= 6 && crate::text::uppercase(t).take(6) == "DX DE "@
}

/// A spot that was read is itself.
pub proof fn law_opt_spot(s: PotaSpot)
    ensures
        opt_spot(Some(s)) == Some(s@),
        opt_spot(None) is None,
{
}

/// A node is what stands before the last colon, with the port that stands after it; without one, or
/// where what stands there is no port, the port is 23.
pub proof fn law_node(host: Seq<char>, port: Seq<char>)
    requires
        !port.contains(':'),
    ensures
        node_of(host + seq![':'] + port).0 == host,
        port_of(port) matches Some(p) ==> node_of(host + seq![':'] + port).1 == p,
        port_of(port) is None ==> node_of(host + seq![':'] + port).1 == 23,
        node_of(port) == (port, 23u16),
{
    let t = host + seq![':'] + port;
    lemma_last_index(host, port);
    assert(t.take(host.len() as int) =~= host);
    assert(t.skip(host.len() as int + 1) =~= port);
    lemma_no_colon(port);
}

proof fn lemma_no_colon(s: Seq<char>)
    requires
        !s.contains(':'),
    ensures
        last_index_of(s, ':') == -1,
    decreases s.len(),
{
    if s.len() > 0 {
        assert(s.contains(s[s.len() - 1]));
        let front = s.drop_last();
        assert forall|i: int| 0 <= i < front.len() implies front[i] != ':' by {
            assert(s.contains(s[i]));
        }
        lemma_no_colon(front);
    }
}

proof fn lemma_last_index(host: Seq<char>, port: Seq<char>)
    requires
        !port.contains(':'),
    ensures
        last_index_of(host + seq![':'] + port, ':') == host.len(),
    decreases port.len(),
{
    let t = host + seq![':'] + port;
    if port.len() == 0 {
        assert(t.last() == ':');
    } else {
        assert(port.contains(port[port.len() - 1]));
        let front = port.drop_last();
        assert forall|i: int| 0 <= i < front.len() implies front[i] != ':' by {
            assert(port.contains(port[i]));
        }
        lemma_last_index(host, front);
        assert(t.drop_last() =~= host + seq![':'] + front);
        assert(t.last() == port.last());
    }
}

/// Each line names one node, in order; a blank line names none.
pub proof fn law_nodes(lines: Seq<Seq<char>>, line: Seq<char>)
    ensures
        nodes_in(Seq::empty()).len() == 0,
        trim(line).len() == 0 ==> nodes_in(lines.push(line)) == nodes_in(lines),
        trim(line).len() > 0 ==> nodes_in(lines.push(line)) == nodes_in(lines).push(node_of(trim(line))),
{
    assert(lines.push(line).drop_last() =~= lines);
}

/// A list of nodes is those nodes, each in its place.
pub proof fn law_node_texts(v: Seq<(String, u16)>, i: int)
    requires
        0 <= i < v.len(),
    ensures
        node_texts(v).len() == v.len(),
        node_texts(v)[i] == (v[i].0@, v[i].1),
{
}

/// A spot is kept for 15 minutes from when it came in.
pub proof fn law_fifteen_minutes(spots: Seq<DxCachedSpot>, now: u64, s: DxCachedSpot)
    ensures
        fresh(spots, now).contains(s) <==> spots.contains(s) && now < s.received_at + 15 * 60 * 1_000_000_000,
        fresh(spots, now).len() <= spots.len(),
{
    crate::dxcluster::law_prune_keeps_fresh(spots, now, s);
    assert(is_fresh(s, now) <==> now < s.received_at + 15 * 60 * 1_000_000_000);
    spots.lemma_filter_len(|s: DxCachedSpot| is_fresh(s, now));
}

/// What is kept stays in the order in which it came.
pub proof fn law_kept_in_order(spots: Seq<DxCachedSpot>, s: DxCachedSpot, now: u64)
    ensures
        now < s.received_at + 15 * 60 * 1_000_000_000 ==> fresh(spots.push(s), now) == fresh(spots, now).push(s),
        now >= s.received_at + 15 * 60 * 1_000_000_000 ==> fresh(spots.push(s), now) == fresh(spots, now),
        fresh(Seq::empty(), now).len() == 0,
{
    reveal(Seq::filter);
    assert(spots.push(s).drop_last() =~= spots);
}

/// The spots of the cache are those of its entries, each in its place.
pub proof fn law_cached(v: Seq<DxCachedSpot>, i: int)
    requires
        0 <= i < v.len(),
    ensures
        cached_texts(v).len() == v.len(),
        cached_texts(v)[i] == v[i].spot@,
        cached(v).len() == v.len(),
        cached(v)[i] == (v[i].spot@, v[i].received_at),
{
}

/// Of the spots of a link, too, what came in within 15 minutes is kept, in order; new ones come last,
/// with the moment at which they came.
pub proof fn law_link_cache(v: Seq<(SpotText, u64)>, s: SpotText, at: u64, spots: Seq<SpotText>, now: u64)
    ensures
        now < at + 15 * 60 * 1_000_000_000 ==> fresh_only(v.push((s, at)), now) == fresh_only(v, now).push((s, at)),
        now >= at + 15 * 60 * 1_000_000_000 ==> fresh_only(v.push((s, at)), now) == fresh_only(v, now),
        fresh_only(Seq::empty(), now).len() == 0,
        with_new(v, Seq::empty(), now) == v,
        with_new(v, spots.push(s), now) == with_new(v, spots, now).push((s, now)),
{
    reveal(Seq::filter);
    assert(v.push((s, at)).drop_last() =~= v);
    assert(with_new(v, Seq::empty(), now) =~= v);
    assert(with_new(v, spots.push(s), now) =~= with_new(v, spots, now).push((s, now)));
}

/// Each line that was received adds the spot that it holds, if it holds one, without the carriage
/// returns at its end; the first that cannot be read ends the reading.
pub proof fn law_spots_in(lines: Seq<Seq<char>>, line: Seq<char>)
    ensures
        spots_in(Seq::empty()) == (Seq::<SpotText>::empty(), false),
        spots_in(lines).1 ==> spots_in(lines.push(line)) == spots_in(lines),
        !spots_in(lines).1 && !sound_line(strip_end(line, '\r')) ==> spots_in(lines.push(line)) == (
            spots_in(lines).0,
            true,
        ),
        !spots_in(lines).1 && sound_line(strip_end(line, '\r')) ==> !spots_in(lines.push(line)).1,
        !spots_in(lines).1 && sound_line(strip_end(line, '\r')) ==> match line_spot(strip_end(line, '\r')) {
            Some(s) => spots_in(lines.push(line)).0 == spots_in(lines).0.push(s),
            None => spots_in(lines.push(line)).0 == spots_in(lines).0,
        },
{
    assert(lines.push(line).drop_last() =~= lines);
}

/// A live line without a colon can be read.
pub proof fn law_sound(rest: Seq<char>)
    requires
        trim("DX de "@ + rest) == "DX de "@ + rest,
        is_live("DX de "@ + rest),
        !rest.contains(':'),
    ensures
        sound_line("DX de "@ + rest),
{
    crate::dxline::law_live_line(rest);
    law_before(rest, ':', rest);
}

/// With a colon, what follows the start of a live line can be read unless behind the colon stand a
/// frequency and, in place of a call, a time, and no more.
pub proof fn law_sound_call(spotter: Seq<char>, tail: Seq<char>)
    requires
        !spotter.contains(':'),
    ensures
        crate::dxline::live_sound(spotter + seq![':'] + tail) <==> !(words(tail).len() == 2 && number_of(words(tail)[0])
            is Some && is_time(words(tail)[1])),
{
    law_before(spotter, ':', tail);
    let rest = spotter + seq![':'] + tail;
    assert(rest.skip(spotter.len() as int + 1) =~= tail);
    if words(tail).len() == 2 {
        lemma_comment_word(words(tail)[1]);
    }
}

/// The node after one is the next in the list; after the last comes the first.
pub proof fn law_next_node(link: DxLink)
    requires
        link.wf(),
    ensures
        link.node + 1 < link.nodes@.len() ==> link.next_node() == link.node + 1,
        link.node + 1 == link.nodes@.len() ==> link.next_node() == 0,
{
    let n = link.nodes@.len() as int;
    if link.node + 1 < n {
        vstd::arithmetic::div_mod::lemma_small_mod((link.node + 1) as nat, n as nat);
    } else {
        vstd::arithmetic::div_mod::lemma_mod_self_0(n);
    }
}

/// A link names the node that it is at, and a status that it tries that node by its number.
pub proof fn law_addresses(link: DxLink, host: Seq<char>, port: u16, number: nat, count: nat)
    requires
        link.wf(),
    ensures
        link.address() == link.nodes@[link.node as int].0@ + seq![':'] + decimal(link.nodes@[link.node as int].1 as nat),
        address_text((host, port)) == host + seq![':'] + decimal(port as nat),
        connecting_text(host, number, count) == "Connecting to "@ + host + " ("@ + decimal(number) + "/"@ + decimal(
            count,
        ) + ")..."@,
{
    reveal_strlit(":");
    assert(":"@ =~= seq![':']);
}

/// The first spots are shown once, more than four seconds after the login.
pub proof fn law_first_batch(link: DxLink, now: u64)
    ensures
        link.batch_over(now) <==> !link.initial_done && now > link.opened_at + 4 * 1_000_000_000,
{
}

/// What stays of a link is the same in every part.
pub proof fn law_link_stays(a: DxLink, b: DxLink)
    ensures
        a.same_setup(&b) <==> a.nodes == b.nodes && a.callsign == b.callsign,
        a.same_hearing(&b) <==> a.line == b.line && a.initial_done == b.initial_done && a.opened_at == b.opened_at,
        a.wf() <==> a.node < a.nodes@.len(),
{
}

} // verus!
