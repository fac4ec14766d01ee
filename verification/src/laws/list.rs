//! What holds of the list of spots: what enters it, what is shown of it, and what is marked in it.
use crate::age::{age_at, readable};
use crate::band::band_of_text;
use crate::clock::Moment;
use crate::filter::{
    call_of, cleared, column_order, frequency_of, grid_of, is_newest, newest_only, places,
    text_order, time_of, within_limit, Filters, FiltersText, SortColumn, TypeSet,
};
use crate::hunter::{
    after_calls, asked, atno_after, caught_keys, caught_text, dxcc_after, entry_cache_key,
    finding_texts, first_questions, hunted_by_key, is_caught, is_new_one, last_caught, map_texts,
    new_ones, not_heard_by_key, questions, wanted_texts, with_hunted, with_lookup, with_not_heard,
};
use crate::keyset::toggled;
use crate::lookup::{Finding, FindingText, Wanted, WantedText};
use crate::options::{bands_in, countries_in, lists, modes_in};
use crate::reading::number_of;
use crate::settings::{first_settings, Settings};
use crate::spot::{key_of, text_or_empty, EntryText, PotaSpot, SotaSpot, SpotEntry, SpotText, SpotType, WwffSpot};
use crate::state::{
    add_error, entry_texts, error_of, new_entries, new_entry, pota_part, sota_part, wwff_part,
};
use crate::text::{before, contains, text_less, uppercase};
use vstd::arithmetic::power2::pow2;
use vstd::prelude::*;

verus! {

/// Every filter lets everything pass.
pub open spec fn all_open(f: FiltersText) -> bool {
    &&& forall|b: Seq<char>| !(#[trigger] f.bands.contains(b))
    &&& forall|m: Seq<char>| !(#[trigger] f.modes.contains(m))
    &&& !f.types.pota && !f.types.sota && !f.types.dx && !f.types.wwff
    &&& f.country == "All"@
    &&& f.callsign.len() == 0
    &&& !f.hide_hunted
    &&& !f.hide_qrt
    &&& f.max_age_mins <= 0
}

proof fn lemma_open(f: FiltersText)
    requires
        all_open(f),
    ensures
        f.bands == Set::<Seq<char>>::empty(),
        f.modes == Set::<Seq<char>>::empty(),
{
    assert(f.bands =~= Set::<Seq<char>>::empty());
    assert(f.modes =~= Set::<Seq<char>>::empty());
}

/// The contents of the filters are their fields as they stand.
pub proof fn law_filters_contents(f: Filters)
    ensures
        f@.bands == f.bands@ && f@.modes == f.modes@ && f@.types == f.types,
        f@.country == f.country@ && f@.callsign == f.callsign@,
        f@.hide_hunted == f.hide_hunted && f@.hide_dupes == f.hide_dupes && f@.hide_qrt == f.hide_qrt,
        f@.max_age_mins == f.max_age_mins,
        f@.sort_column == f.sort_column && f@.sort_ascending == f.sort_ascending,
{
}

/// A set of types holds each type or not, and is empty when it holds none.
pub proof fn law_type_set(s: TypeSet)
    ensures
        s.has(SpotType::Pota) == s.pota,
        s.has(SpotType::Sota) == s.sota,
        s.has(SpotType::Dx) == s.dx,
        s.has(SpotType::Wwff) == s.wwff,
        s.none() <==> forall|t: SpotType| !#[trigger] s.has(t),
{
    if forall|t: SpotType| !#[trigger] s.has(t) {
        assert(!s.has(SpotType::Pota) && !s.has(SpotType::Sota) && !s.has(SpotType::Dx) && !s.has(SpotType::Wwff));
    }
}

/// Filters that are cleared are open but for the age that is given; duplicates and the order stay.
pub proof fn law_cleared(f: FiltersText, mins: i64)
    ensures
        all_open(cleared(f, 0)),
        cleared(f, mins) == (FiltersText { max_age_mins: mins, ..cleared(f, 0) }),
        cleared(f, mins).hide_dupes == f.hide_dupes,
        cleared(f, mins).sort_column == f.sort_column,
        cleared(f, mins).sort_ascending == f.sort_ascending,
{
}

/// Open filters let every entry pass.
pub proof fn law_open_filters(f: FiltersText, e: EntryText, now: Moment)
    requires
        all_open(f),
    ensures
        f.passes(e, now),
{
    lemma_open(f);
}

/// With one type chosen, exactly the entries of that type pass, whichever it is; with several, those
/// of any of them.
pub proof fn law_types(f: FiltersText, types: TypeSet, t: SpotType, e: EntryText, now: Moment)
    requires
        all_open(f),
        types.has(t),
    ensures
        (FiltersText { types, ..f }).passes(e, now) <==> types.has(e.spot_type),
        (forall|u: SpotType| #[trigger] types.has(u) == (u == t)) ==> ((FiltersText { types, ..f }).passes(e, now)
            <==> e.spot_type == t),
        e.spot_type is Pota ==> ((FiltersText { types, ..f }).passes(e, now) <==> types.pota),
        e.spot_type is Sota ==> ((FiltersText { types, ..f }).passes(e, now) <==> types.sota),
        e.spot_type is Dx ==> ((FiltersText { types, ..f }).passes(e, now) <==> types.dx),
        e.spot_type is Wwff ==> ((FiltersText { types, ..f }).passes(e, now) <==> types.wwff),
{
    lemma_open(f);
}

/// With one band chosen, exactly the entries on that band pass; with several, those on any of them.
pub proof fn law_chosen_bands(f: FiltersText, bands: Set<Seq<char>>, b: Seq<char>, e: EntryText, now: Moment)
    requires
        all_open(f),
        bands.contains(b),
    ensures
        (FiltersText { bands, ..f }).passes(e, now) <==> bands.contains(e.band),
        (FiltersText { bands: set![b], ..f }).passes(e, now) <==> e.band == b,
{
    lemma_open(f);
    assert(set![b].contains(b));
}

/// With one mode chosen, exactly the entries in that mode pass, however they write it; with several,
/// those in any of them.
pub proof fn law_chosen_modes(f: FiltersText, modes: Set<Seq<char>>, m: Seq<char>, e: EntryText, now: Moment)
    requires
        all_open(f),
        modes.contains(m),
    ensures
        (FiltersText { modes, ..f }).passes(e, now) <==> modes.contains(uppercase(e.spot.mode)),
        (FiltersText { modes: set![m], ..f }).passes(e, now) <==> uppercase(e.spot.mode) == m,
{
    lemma_open(f);
    assert(set![m].contains(m));
}

/// With a country chosen, exactly the entries of that country pass.
pub proof fn law_chosen_country(f: FiltersText, country: Seq<char>, e: EntryText, now: Moment)
    requires
        all_open(f),
        country != "All"@,
    ensures
        (FiltersText { country, ..f }).passes(e, now) <==> e.country == country,
{
    lemma_open(f);
}

/// With a text to search for, exactly the entries pass that have it in the call, the reference or the
/// name of the park, in letters of either case.
pub proof fn law_search(f: FiltersText, callsign: Seq<char>, e: EntryText, now: Moment)
    requires
        all_open(f),
        callsign.len() > 0,
    ensures
        ({
            let t = uppercase(callsign);
            (FiltersText { callsign, ..f }).passes(e, now) <==> contains(uppercase(e.spot.activator), t) || contains(
                uppercase(e.spot.reference),
                t,
            ) || contains(uppercase(e.spot.park()), t)
        }),
{
    lemma_open(f);
}

/// To hide the hunted spots hides those, and to hide those that went off the air hides those.
pub proof fn law_hidden(f: FiltersText, e: EntryText, now: Moment)
    requires
        all_open(f),
    ensures
        (FiltersText { hide_hunted: true, ..f }).passes(e, now) <==> !e.hunted,
        (FiltersText { hide_qrt: true, ..f }).passes(e, now) <==> !e.is_qrt,
        (FiltersText { hide_hunted: true, hide_qrt: true, ..f }).passes(e, now) <==> !e.hunted && !e.is_qrt,
        (FiltersText { hide_dupes: true, ..f }).passes(e, now),
{
    lemma_open(f);
}

/// With a limit on age, exactly the entries pass that are not older, and those whose age is beyond all
/// measure.
pub proof fn law_age_limit(f: FiltersText, mins: i64, e: EntryText, now: Moment)
    requires
        all_open(f),
        mins > 0,
    ensures
        ({
            let age = match e.spot.spot_time {
                Some(t) => age_at(t, now),
                None => age_at(Seq::empty(), now),
            };
            (FiltersText { max_age_mins: mins, ..f }).passes(e, now) <==> age <= mins || age >= 999
        }),
        within_limit(mins, age_at(time_of(e), now)) <==> (FiltersText { max_age_mins: mins, ..f }).passes(e, now),
{
    lemma_open(f);
}

/// Without a limit on age any list can be shown. With one, a list can be shown exactly when the time of
/// every entry that passes the other filters can be read.
pub proof fn law_can_show(f: FiltersText, o: FiltersText, entries: Seq<EntryText>, now: Moment)
    requires
        o == (FiltersText { max_age_mins: 0, ..f }),
    ensures
        f.max_age_mins <= 0 ==> f.can_show(entries),
        f.max_age_mins > 0 ==> (f.can_show(entries) <==> forall|i: int|
            0 <= i < entries.len() && o.passes(#[trigger] entries[i], now) ==> readable(
                text_or_empty(entries[i].spot.spot_time),
            )),
{
    if f.max_age_mins > 0 {
        assert forall|i: int| 0 <= i < entries.len() implies (f.can_tell(#[trigger] entries[i]) <==> (o.passes(
            entries[i],
            now,
        ) ==> readable(text_or_empty(entries[i].spot.spot_time)))) by {}
    }
}

/// An entry passes all filters when it passes each one of them alone.
pub proof fn law_each_filter(f: FiltersText, o: FiltersText, e: EntryText, now: Moment)
    requires
        all_open(o),
    ensures
        f.passes(e, now) <==> {
            &&& (FiltersText { types: f.types, ..o }).passes(e, now)
            &&& (FiltersText { bands: f.bands, ..o }).passes(e, now)
            &&& (FiltersText { modes: f.modes, ..o }).passes(e, now)
            &&& (FiltersText { country: f.country, ..o }).passes(e, now)
            &&& (FiltersText { callsign: f.callsign, ..o }).passes(e, now)
            &&& (FiltersText { hide_hunted: f.hide_hunted, ..o }).passes(e, now)
            &&& (FiltersText { hide_qrt: f.hide_qrt, ..o }).passes(e, now)
            &&& (FiltersText { max_age_mins: f.max_age_mins, ..o }).passes(e, now)
        },
{
    lemma_open(o);
}

/// Texts are ordered as texts: -1, 0 or 1.
pub proof fn law_text_order(a: Seq<char>, b: Seq<char>)
    ensures
        text_order(a, b) == -1 <==> text_less(a, b),
        text_order(a, b) == 0 <==> a == b,
        -1 <= text_order(a, b) <= 1,
{
    crate::text::lemma_less_irreflexive(a);
}

/// Each column is ordered by what stands in it.
pub proof fn law_columns(a: EntryText, b: EntryText)
    ensures
        column_order(SortColumn::Type, a, b) == text_order(a.spot_type.name(), b.spot_type.name()),
        column_order(SortColumn::Activator, a, b) == text_order(a.spot.activator, b.spot.activator),
        column_order(SortColumn::Mode, a, b) == text_order(a.spot.mode, b.spot.mode),
        column_order(SortColumn::Band, a, b) == text_order(a.band, b.band),
        column_order(SortColumn::Reference, a, b) == text_order(a.spot.reference, b.spot.reference),
        column_order(SortColumn::Park, a, b) == text_order(a.spot.park(), b.spot.park()),
        column_order(SortColumn::Location, a, b) == text_order(a.country, b.country),
        column_order(SortColumn::Comment, a, b) == text_order(
            text_or_empty(a.spot.comments),
            text_or_empty(b.spot.comments),
        ),
        column_order(SortColumn::Distance, a, b) == text_order(grid_of(a.spot), grid_of(b.spot)),
        column_order(SortColumn::SpotTime, a, b) == text_order(
            text_or_empty(a.spot.spot_time),
            text_or_empty(b.spot.spot_time),
        ),
        a.spot.grid6 matches Some(g) ==> grid_of(a.spot) == g,
        a.spot.grid6 is None ==> grid_of(a.spot) == text_or_empty(a.spot.grid4),
{
}

/// Frequencies are ordered as numbers, one that cannot be read as zero; a frequency that is read as
/// not a number comes neither before nor after any other.
pub proof fn law_frequency_column(a: EntryText, b: EntryText)
    ensures
        number_of(a.spot.frequency) matches Some(n) ==> frequency_of(a) == n,
        number_of(a.spot.frequency) is None ==> frequency_of(a).position() == 0 && frequency_of(a) !is Nan,
        frequency_of(a) is Nan || frequency_of(b) is Nan ==> column_order(SortColumn::Frequency, a, b) == 0,
        frequency_of(a) !is Nan && frequency_of(b) !is Nan ==> {
            let x = frequency_of(a).position();
            let y = frequency_of(b).position();
            &&& column_order(SortColumn::Frequency, a, b) < 0 <==> x < y
            &&& column_order(SortColumn::Frequency, a, b) == 0 <==> x == y
            &&& column_order(SortColumn::Frequency, a, b) > 0 <==> x > y
        },
{
    let unit = pow2(0) as int;
    assert(0 * unit == 0) by (nonlinear_arith);
    if number_of(a.spot.frequency) is None {
        assert(frequency_of(a).units() == 0 * pow2(0));
    }
}

/// Upwards what is less in the column comes first, downwards what is more; among equals the newer one
/// comes first, and among equally new ones the lesser call.
pub proof fn law_shown_order(f: FiltersText, a: EntryText, b: EntryText)
    ensures
        ({
            let c = column_order(f.sort_column, a, b);
            let x = text_or_empty(a.spot.spot_time);
            let y = text_or_empty(b.spot.spot_time);
            &&& f.sort_ascending && c != 0 ==> (f.order(a, b) < 0 <==> c < 0)
            &&& !f.sort_ascending && c != 0 ==> (f.order(a, b) < 0 <==> c > 0)
            &&& c == 0 && text_less(y, x) ==> f.order(a, b) < 0
            &&& c == 0 && text_less(x, y) ==> f.order(a, b) > 0
            &&& c == 0 && x == y && text_less(a.spot.activator, b.spot.activator) ==> f.order(a, b) < 0
            &&& c == 0 && x == y && text_less(b.spot.activator, a.spot.activator) ==> f.order(a, b) > 0
            &&& c == 0 && x == y && a.spot.activator == b.spot.activator ==> f.order(a, b) == 0
        }),
{
    let x = text_or_empty(a.spot.spot_time);
    let y = text_or_empty(b.spot.spot_time);
    crate::filter::lemma_text_order(x, y, x);
    crate::filter::lemma_text_order(a.spot.activator, b.spot.activator, a.spot.activator);
    crate::text::lemma_less_irreflexive(a.spot.activator);
    crate::text::lemma_less_irreflexive(x);
    crate::text::lemma_less_irreflexive(y);
}

/// With duplicates shown, exactly the entries that pass are shown, each one once, and each one before
/// those that come after it; equal ones as they stand in the list.
pub proof fn law_shown(f: FiltersText, entries: Seq<EntryText>, now: Moment, shown: Seq<int>, k: int, l: int)
    requires
        f.is_view(entries, now, shown),
        !f.hide_dupes,
    ensures
        forall|i: int| #[trigger] shown.contains(i) <==> 0 <= i < entries.len() && f.passes(entries[i], now),
        shown.no_duplicates(),
        f.is_orderly(entries, now) && 0 <= k < l < shown.len() ==> f.order(entries[shown[k]], entries[shown[l]]) < 0 || (
        f.order(entries[shown[k]], entries[shown[l]]) == 0 && shown[k] < shown[l]),
{
    let rows = choose|rows: Seq<int>| #[trigger]
        f.is_sorted_view(entries, now, rows) && shown == if f.hide_dupes {
            newest_only(entries, rows, rows.len() as int)
        } else {
            rows
        };
    assert(shown == rows);
    assert forall|i: int| #[trigger] shown.contains(i) <==> 0 <= i < entries.len() && f.passes(entries[i], now) by {
        if shown.contains(i) {
            let j = choose|j: int| 0 <= j < rows.len() && rows[j] == i;
            assert(0 <= rows[j] < entries.len());
        }
    }
}

/// Of the rows of one call, in letters of either case, the newest is kept; of equally new ones the
/// first. The rows that are kept stay in their order.
pub proof fn law_newest(entries: Seq<EntryText>, rows: Seq<int>, n: int, k: int)
    requires
        0 <= k < n <= rows.len(),
        rows.no_duplicates(),
    ensures
        newest_only(entries, rows, n).contains(rows[k]) <==> forall|l: int|
            0 <= l < rows.len() && l != k && uppercase(entries[#[trigger] rows[l]].spot.activator) == uppercase(
                entries[rows[k]].spot.activator,
            ) ==> text_less(
                text_or_empty(entries[rows[l]].spot.spot_time),
                text_or_empty(entries[rows[k]].spot.spot_time),
            ) || (text_or_empty(entries[rows[l]].spot.spot_time) == text_or_empty(entries[rows[k]].spot.spot_time) && k
                < l),
    decreases n,
{
    lemma_kept(entries, rows, n, k);
}

proof fn lemma_kept(entries: Seq<EntryText>, rows: Seq<int>, n: int, k: int)
    requires
        0 <= k < n <= rows.len(),
        rows.no_duplicates(),
    ensures
        newest_only(entries, rows, n).contains(rows[k]) <==> is_newest(entries, rows, k),
    decreases n,
{
    let front = newest_only(entries, rows, n - 1);
    let all = newest_only(entries, rows, n);
    if is_newest(entries, rows, n - 1) {
        assert(all == front.push(rows[n - 1]));
        assert(all[front.len() as int] == rows[n - 1]);
    }
    if k == n - 1 {
        if front.contains(rows[k]) {
            lemma_kept_from(entries, rows, n - 1, rows[k]);
        }
        if all.contains(rows[k]) && !is_newest(entries, rows, k) {
            assert(all == front);
        }
    } else {
        lemma_kept(entries, rows, n - 1, k);
        if front.contains(rows[k]) {
            let j = choose|j: int| 0 <= j < front.len() && front[j] == rows[k];
            assert(all[j] == rows[k]);
        }
        if all.contains(rows[k]) {
            let j = choose|j: int| 0 <= j < all.len() && all[j] == rows[k];
            assert(rows[k] != rows[n - 1]);
            assert(front[j] == rows[k]);
        }
    }
}

proof fn lemma_kept_from(entries: Seq<EntryText>, rows: Seq<int>, n: int, row: int)
    requires
        0 <= n <= rows.len(),
        newest_only(entries, rows, n).contains(row),
    ensures
        exists|k: int| 0 <= k < n && rows[k] == row,
    decreases n,
{
    if n > 0 {
        let front = newest_only(entries, rows, n - 1);
        let all = newest_only(entries, rows, n);
        let j = choose|j: int| 0 <= j < all.len() && all[j] == row;
        if j < front.len() {
            assert(front[j] == row);
            lemma_kept_from(entries, rows, n - 1, row);
        } else {
            assert(rows[n - 1] == row);
        }
    }
}

/// A row that is shown passes; with duplicates hidden, no entry of its call that passes is newer.
pub proof fn law_calls_shown(f: FiltersText, entries: Seq<EntryText>, now: Moment, shown: Seq<int>, i: int)
    requires
        f.is_view(entries, now, shown),
        shown.contains(i),
    ensures
        0 <= i < entries.len(),
        f.passes(entries[i], now),
        f.hide_dupes ==> forall|j: int|
            0 <= j < entries.len() && j != i && f.passes(#[trigger] entries[j], now) && uppercase(
                entries[j].spot.activator,
            ) == uppercase(entries[i].spot.activator) ==> !text_less(
                text_or_empty(entries[i].spot.spot_time),
                text_or_empty(entries[j].spot.spot_time),
            ),
{
    let rows = choose|rows: Seq<int>| #[trigger]
        f.is_sorted_view(entries, now, rows) && shown == if f.hide_dupes {
            newest_only(entries, rows, rows.len() as int)
        } else {
            rows
        };
    if f.hide_dupes {
        lemma_kept_from(entries, rows, rows.len() as int, i);
    }
    let k = choose|k: int| 0 <= k < rows.len() && rows[k] == i;
    assert(f.passes(entries[rows[k]], now));
    if f.hide_dupes {
        law_newest(entries, rows, rows.len() as int, k);
        assert forall|j: int|
            0 <= j < entries.len() && j != i && f.passes(#[trigger] entries[j], now) && uppercase(
                entries[j].spot.activator,
            ) == uppercase(entries[i].spot.activator) implies !text_less(
            text_or_empty(entries[i].spot.spot_time),
            text_or_empty(entries[j].spot.spot_time),
        ) by {
            assert(rows.contains(j));
            let l = choose|l: int| 0 <= l < rows.len() && rows[l] == j;
            assert(entries[rows[l]] == entries[j]);
            let a = text_or_empty(entries[i].spot.spot_time);
            let b = text_or_empty(entries[j].spot.spot_time);
            crate::filter::lemma_text_order(a, b, a);
            crate::text::lemma_less_irreflexive(a);
        }
    }
}

/// The call of an entry is its activator in uppercase, its time what the spot tells; the places of
/// rows and the contents of a list are taken one by one.
pub proof fn law_contents(e: EntryText, v: Seq<(usize, SpotEntry)>, list: Seq<SpotEntry>, k: int)
    ensures
        call_of(e) == uppercase(e.spot.activator),
        time_of(e) == text_or_empty(e.spot.spot_time),
        places(v).len() == v.len(),
        0 <= k < v.len() ==> places(v)[k] == v[k].0,
        entry_texts(list).len() == list.len(),
        0 <= k < list.len() ==> entry_texts(list)[k] == list[k]@,
{
}

/// Spots enter the list one for one, in their order and as they are, whatever their source: on the
/// band of their frequency; marked as off the air exactly when their comment says so in letters of
/// either case; marked as hunted and as not heard by their key; with nothing known from the log. The
/// country is the location up to the first hyphen; a spot of the cluster has none.
pub proof fn law_entered(
    spots: Seq<SpotText>,
    t: SpotType,
    hunted: Set<Seq<char>>,
    not_heard: Set<Seq<char>>,
    i: int,
)
    requires
        0 <= i < spots.len(),
    ensures
        new_entries(spots, t, hunted, not_heard).len() == spots.len(),
        ({
            let e = new_entries(spots, t, hunted, not_heard)[i];
            &&& e.spot == spots[i]
            &&& e.spot_type == t
            &&& e.is_qrt <==> contains(uppercase(text_or_empty(e.spot.comments)), "QRT"@)
            &&& e.band == band_of_text(e.spot.frequency)
            &&& t is Dx ==> e.country.len() == 0
            &&& t !is Dx ==> (e.spot.location_desc matches Some(place) ==> e.country == before(place, '-'))
            &&& t !is Dx && e.spot.location_desc is None ==> e.country.len() == 0
            &&& e.hunted <==> hunted.contains(key_of(t, e.spot.activator, e.spot.reference))
            &&& e.not_heard <==> not_heard.contains(key_of(t, e.spot.activator, e.spot.reference))
            &&& e.dxcc_country is None
            &&& e.atno_status is None
        }),
        new_entry(spots[i], t, hunted, not_heard) == new_entries(spots, t, hunted, not_heard)[i],
{
}

/// A source that answered gives its spots, one for one; a source that failed gives none, and its error.
pub proof fn law_sources(
    pota: Result<Vec<PotaSpot>, String>,
    sota: Result<Vec<SotaSpot>, String>,
    wwff: Result<Vec<WwffSpot>, String>,
    i: int,
)
    ensures
        pota matches Ok(v) ==> pota_part(pota).len() == v@.len() && (0 <= i < v@.len() ==> pota_part(pota)[i]
            == v@[i]@),
        sota matches Ok(v) ==> sota_part(sota).len() == v@.len() && (0 <= i < v@.len() ==> sota_part(sota)[i]
            == v@[i].as_spot()),
        wwff matches Ok(v) ==> wwff_part(wwff).len() == v@.len() && (0 <= i < v@.len() ==> wwff_part(wwff)[i]
            == v@[i].as_spot()),
        pota is Err ==> pota_part(pota).len() == 0,
        sota is Err ==> sota_part(sota).len() == 0,
        wwff is Err ==> wwff_part(wwff).len() == 0,
        sota is Ok ==> error_of(sota) is None,
        sota matches Err(e) ==> error_of(sota) == Some(e@),
{
}

/// Errors are told one after the other, each with its source before it.
pub proof fn law_errors(b: Seq<char>, label: Seq<char>, e: Seq<char>)
    ensures
        add_error(None, label, None) is None,
        add_error(Some(b), label, None) == Some(b),
        add_error(None, label, Some(e)) == Some(label + seq![':', ' '] + e),
        add_error(Some(b), label, Some(e)) == Some(b + seq![' ', '|', ' '] + label + seq![':', ' '] + e),
{
    reveal_strlit(": ");
    reveal_strlit(" | ");
    assert(": "@ =~= seq![':', ' ']);
    assert(" | "@ =~= seq![' ', '|', ' ']);
}

/// To mark by key sets the mark on every entry with that key, and touches nothing else.
pub proof fn law_marked_by_key(entries: Seq<EntryText>, key: Seq<char>, on: bool, i: int)
    requires
        0 <= i < entries.len(),
    ensures
        hunted_by_key(entries, key, on).len() == entries.len(),
        not_heard_by_key(entries, key, on).len() == entries.len(),
        ({
            let e = entries[i];
            let h = hunted_by_key(entries, key, on)[i];
            let n = not_heard_by_key(entries, key, on)[i];
            &&& h == (EntryText { hunted: h.hunted, ..e })
            &&& n == (EntryText { not_heard: n.not_heard, ..e })
            &&& h.hunted == if key_of(e.spot_type, e.spot.activator, e.spot.reference) == key {
                on
            } else {
                e.hunted
            }
            &&& n.not_heard == if key_of(e.spot_type, e.spot.activator, e.spot.reference) == key {
                on
            } else {
                e.not_heard
            }
        }),
        with_hunted(entries[i], on) == (EntryText { hunted: on, ..entries[i] }),
        with_not_heard(entries[i], on) == (EntryText { not_heard: on, ..entries[i] }),
{
}

/// A key that is toggled changes sides, and no other does.
pub proof fn law_toggled(s: Set<Seq<char>>, key: Seq<char>, other: Seq<char>)
    ensures
        toggled(s, key).contains(key) <==> !s.contains(key),
        other != key ==> (toggled(s, key).contains(other) <==> s.contains(other)),
{
}

/// A logged call catches the entries of that call, in letters of either case, that are not hunted yet,
/// and no others.
pub proof fn law_caught(entries: Seq<EntryText>, call: Seq<char>, n: int, key: Seq<char>)
    requires
        0 <= n <= entries.len(),
    ensures
        caught_keys(entries, call, n).contains(key) <==> exists|i: int|
            0 <= i < n && uppercase((#[trigger] entries[i]).spot.activator) == uppercase(call) && !entries[i].hunted
                && entries[i].key() == key,
        last_caught(entries, call, n) is None <==> forall|i: int|
            0 <= i < n ==> uppercase((#[trigger] entries[i]).spot.activator) != uppercase(call) || entries[i].hunted,
    decreases n,
{
    if n > 0 {
        law_caught(entries, call, n - 1, key);
        let e = entries[n - 1];
        assert(is_caught(e, call) <==> uppercase(e.spot.activator) == uppercase(call) && !e.hunted);
        if caught_keys(entries, call, n - 1).contains(key) {
            let i = choose|i: int|
                0 <= i < n - 1 && uppercase((#[trigger] entries[i]).spot.activator) == uppercase(call)
                    && !entries[i].hunted && entries[i].key() == key;
            assert(0 <= i < n && entries[i].key() == key);
        }
    }
}

/// Of the entries that a logged call catches, the last one is told of.
pub proof fn law_told(entries: Seq<EntryText>, call: Seq<char>, n: int, i: int)
    requires
        0 <= i < n <= entries.len(),
        uppercase(entries[i].spot.activator) == uppercase(call),
        !entries[i].hunted,
        forall|j: int|
            i < j < n ==> uppercase((#[trigger] entries[j]).spot.activator) != uppercase(call) || entries[j].hunted,
    ensures
        last_caught(entries, call, n) == Some(
            "✅ Auto-hunted "@ + entries[i].spot.activator + seq![' ', '('] + entries[i].spot.reference + seq![')'],
        ),
        last_caught(entries, call, n) == Some(caught_text(entries[i])),
    decreases n,
{
    reveal_strlit(" (");
    reveal_strlit(")");
    assert(" ("@ =~= seq![' ', '(']);
    assert(")"@ =~= seq![')']);
    if i < n - 1 {
        assert(!is_caught(entries[n - 1], call));
        law_told(entries, call, n - 1, i);
    }
}

/// Calls that were logged mark only keys of entries of those calls.
pub proof fn law_only_logged(entries: Seq<EntryText>, hunted: Set<Seq<char>>, calls: Seq<Seq<char>>, key: Seq<char>)
    requires
        after_calls(entries, hunted, calls).1.contains(key),
        !hunted.contains(key),
    ensures
        exists|i: int, c: int|
            0 <= i < entries.len() && 0 <= c < calls.len() && uppercase((#[trigger] entries[i]).spot.activator)
                == uppercase(#[trigger] calls[c]) && entries[i].key() == key,
    decreases calls.len(),
{
    if calls.len() > 0 {
        let front = calls.drop_last();
        let (list, keys, said) = after_calls(entries, hunted, front);
        let call = calls.last();
        if keys.contains(key) {
            law_only_logged(entries, hunted, front, key);
            let (i, c) = choose|i: int, c: int|
                0 <= i < entries.len() && 0 <= c < front.len() && uppercase((#[trigger] entries[i]).spot.activator)
                    == uppercase(#[trigger] front[c]) && entries[i].key() == key;
            assert(calls[c] == front[c]);
        } else {
            law_caught(list, call, list.len() as int, key);
            let i = choose|i: int|
                0 <= i < list.len() && uppercase((#[trigger] list[i]).spot.activator) == uppercase(call)
                    && !list[i].hunted && list[i].key() == key;
            lemma_same_spots(entries, hunted, front, i);
            assert(entries[i].key() == key);
            assert(calls[calls.len() - 1] == call);
        }
    }
}

proof fn lemma_same_spots(entries: Seq<EntryText>, hunted: Set<Seq<char>>, calls: Seq<Seq<char>>, i: int)
    ensures
        after_calls(entries, hunted, calls).0.len() == entries.len(),
        0 <= i < entries.len() ==> after_calls(entries, hunted, calls).0[i].spot == entries[i].spot && after_calls(
            entries,
            hunted,
            calls,
        ).0[i].spot_type == entries[i].spot_type,
    decreases calls.len(),
{
    if calls.len() > 0 {
        lemma_same_spots(entries, hunted, calls.drop_last(), i);
    }
}

/// What the log says of a call on a band in a mode is kept under these three; the later word counts.
/// A country is kept under the call, where the log names one.
pub proof fn law_kept_findings(
    atno: Map<Seq<char>, Seq<char>>,
    dxcc: Map<Seq<char>, Seq<char>>,
    findings: Seq<FindingText>,
    f: FindingText,
    other: Seq<char>,
)
    ensures
        atno_after(atno, Seq::empty()) == atno,
        dxcc_after(dxcc, Seq::empty()) == dxcc,
        ({
            let a = atno_after(atno, findings);
            let b = atno_after(atno, findings.push(f));
            &&& b.contains_key(f.cache_key) && b[f.cache_key] == f.status
            &&& other != f.cache_key ==> (b.contains_key(other) <==> a.contains_key(other)) && (a.contains_key(other)
                ==> b[other] == a[other])
        }),
        ({
            let a = dxcc_after(dxcc, findings);
            let b = dxcc_after(dxcc, findings.push(f));
            &&& f.country.len() > 0 ==> b.contains_key(f.call) && b[f.call] == f.country
            &&& f.country.len() == 0 ==> b == a
            &&& other != f.call ==> (b.contains_key(other) <==> a.contains_key(other)) && (a.contains_key(other)
                ==> b[other] == a[other])
        }),
{
    assert(findings.push(f).drop_last() =~= findings);
    assert(findings.push(f).last() == f);
}

/// The log's word reaches an entry as it stands, with the country of its call where one is known; an
/// entry of which the log said nothing stays as it is, and nothing else of any entry changes.
pub proof fn law_looked_up(e: EntryText, atno: Map<Seq<char>, Seq<char>>, dxcc: Map<Seq<char>, Seq<char>>)
    ensures
        entry_cache_key(e) == e.spot.activator + seq!['|'] + e.band + seq!['|'] + uppercase(e.spot.mode),
        ({
            let r = with_lookup(e, atno, dxcc);
            let key = entry_cache_key(e);
            &&& r == (EntryText { atno_status: r.atno_status, dxcc_country: r.dxcc_country, ..e })
            &&& atno.contains_key(key) ==> r.atno_status == Some(atno[key])
            &&& atno.contains_key(key) && dxcc.contains_key(e.spot.activator) ==> r.dxcc_country == Some(
                dxcc[e.spot.activator],
            )
            &&& atno.contains_key(key) && !dxcc.contains_key(e.spot.activator) ==> r.dxcc_country == e.dxcc_country
            &&& !atno.contains_key(key) ==> r == e
        }),
{
    reveal_strlit("|");
    assert("|"@ =~= seq!['|']);
}

/// Three of the log's words tell of a new one; as many entries are counted as the log says one of them
/// of.
pub proof fn law_new_ones(entries: Seq<EntryText>, atno: Map<Seq<char>, Seq<char>>, n: int, status: Seq<char>)
    requires
        0 <= n < entries.len(),
    ensures
        is_new_one(status) <==> status == "ATNO"@ || status == "OC"@ || status == "OW"@,
        new_ones(entries, atno, 0) == 0,
        ({
            let key = entry_cache_key(entries[n]);
            new_ones(entries, atno, n + 1) == if atno.contains_key(key) && is_new_one(atno[key]) {
                new_ones(entries, atno, n) + 1
            } else {
                new_ones(entries, atno, n)
            }
        }),
{
}

/// An entry with a call of which nothing is known is asked about; and only such entries are, each with
/// its call, its band and its mode.
pub proof fn law_questions(entries: Seq<EntryText>, known: Set<Seq<char>>, n: int, i: int)
    requires
        0 <= n <= entries.len(),
    ensures
        0 <= i < n && entries[i].atno_status is None && entries[i].spot.activator.len() > 0 && !known.contains(
            entry_cache_key(entries[i]),
        ) ==> asked(questions(entries, known, n), entry_cache_key(entries[i])),
        0 <= i < questions(entries, known, n).len() ==> exists|j: int|
            0 <= j < n && questions(entries, known, n)[i].call == (#[trigger] entries[j]).spot.activator && questions(
                entries,
                known,
                n,
            )[i].band == entries[j].band && questions(entries, known, n)[i].mode == uppercase(entries[j].spot.mode)
                && entries[j].atno_status is None && entries[j].spot.activator.len() > 0,
    decreases n,
{
    if n > 0 {
        law_questions(entries, known, n - 1, i);
        let front = questions(entries, known, n - 1);
        let all = questions(entries, known, n);
        let e = entries[n - 1];
        let key = entry_cache_key(e);
        if all != front {
            assert(all[front.len() as int].key() == key);
            assert(asked(all, key));
        }
        if 0 <= i < n - 1 && asked(front, entry_cache_key(entries[i])) {
            let j = choose|j: int| 0 <= j < front.len() && (#[trigger] front[j]).key() == entry_cache_key(entries[i]);
            assert(all[j].key() == entry_cache_key(entries[i]));
        }
        if 0 <= i < front.len() {
            assert(all[i] == front[i]);
        } else if i == front.len() && i < all.len() {
            assert(all[i].call == e.spot.activator);
            assert(entries[n - 1] == e);
        }
    }
}

/// No more than twenty questions are asked at once: the first ones.
pub proof fn law_first_questions(v: Seq<WantedText>)
    ensures
        v.len() <= 20 ==> first_questions(v) == v,
        v.len() > 20 ==> first_questions(v).len() == 20 && first_questions(v).is_prefix_of(v),
{
    if v.len() > 20 {
        assert(first_questions(v) =~= v.subrange(0, 20));
    }
}

/// What is kept of texts, questions and findings is what they hold.
pub proof fn law_kept_texts(m: Map<Seq<char>, String>, k: Seq<char>, v: Seq<Finding>, w: Seq<Wanted>, i: int)
    ensures
        map_texts(m).contains_key(k) <==> m.contains_key(k),
        m.contains_key(k) ==> map_texts(m)[k] == m[k]@,
        finding_texts(v).len() == v.len(),
        0 <= i < v.len() ==> finding_texts(v)[i] == v[i]@,
        wanted_texts(w).len() == w.len(),
        0 <= i < w.len() ==> wanted_texts(w)[i] == w[i]@,
{
}

/// Every band that is known, every mode in uppercase and every country of the list can be chosen.
pub proof fn law_choices(entries: Seq<EntryText>, i: int)
    requires
        0 <= i < entries.len(),
    ensures
        bands_in(entries).contains(entries[i].band) <==> entries[i].band.len() > 0 && entries[i].band != "??"@,
        entries[i].spot.mode.len() > 0 ==> modes_in(entries).contains(uppercase(entries[i].spot.mode)),
        countries_in(entries).contains(entries[i].country) <==> entries[i].country.len() > 0,
{
}

/// Nothing can be chosen that is not in the list.
pub proof fn law_no_other_choices(entries: Seq<EntryText>, t: Seq<char>)
    ensures
        bands_in(entries).contains(t) ==> exists|i: int| 0 <= i < entries.len() && (#[trigger] entries[i]).band == t,
        modes_in(entries).contains(t) ==> exists|i: int|
            0 <= i < entries.len() && uppercase((#[trigger] entries[i]).spot.mode) == t && entries[i].spot.mode.len()
                > 0,
        countries_in(entries).contains(t) ==> exists|i: int|
            0 <= i < entries.len() && (#[trigger] entries[i]).country == t,
{
}

/// What can be chosen stands in order, each one once.
pub proof fn law_choices_in_order(v: Seq<Seq<char>>, s: Set<Seq<char>>, i: int, j: int)
    requires
        lists(v, s),
        0 <= i < j < v.len(),
    ensures
        text_less(v[i], v[j]),
        s.contains(v[i]),
        forall|t: Seq<char>| #[trigger] s.contains(t) ==> v.contains(t),
{
    assert(v.contains(v[i]));
}

/// The settings hold their fields as they stand.
pub proof fn law_settings_contents(s: Settings)
    ensures
        s@.n3fjp_host == s.n3fjp_host@ && s@.n3fjp_port == s.n3fjp_port@,
        s@.dx_callsign == s.dx_callsign@ && s@.dx_nodes == s.dx_nodes@ && s@.my_grid == s.my_grid@,
        s@.dx_auto_start == s.dx_auto_start && s@.auto_refresh == s.auto_refresh,
        s@.refresh_interval_secs == s.refresh_interval_secs,
        s@.dark_mode == s.dark_mode && s@.hide_dupes == s.hide_dupes && s@.hide_qrt == s.hide_qrt,
        s@.max_age_mins == s.max_age_mins,
{
}

/// The first session reaches a log on the same machine and three nodes, refreshes every two minutes,
/// and shows the spots of a quarter of an hour.
pub proof fn law_first_settings()
    ensures
        first_settings().n3fjp_host == "127.0.0.1"@,
        first_settings().n3fjp_port == "1100"@,
        first_settings().dx_callsign.len() == 0,
        first_settings().my_grid.len() == 0,
        first_settings().dx_nodes == "ve7cc.net:23"@ + seq!['\n'] + "dxc.nc7j.com:7300"@ + seq!['\n']
            + "gb7mbc.net:8000"@,
        first_settings().refresh_interval_secs == 2 * 60,
        first_settings().auto_refresh && first_settings().dark_mode,
        !first_settings().dx_auto_start && !first_settings().hide_dupes && !first_settings().hide_qrt,
        first_settings().max_age_mins == 15,
{
    reveal_strlit("ve7cc.net:23\ndxc.nc7j.com:7300\ngb7mbc.net:8000");
    reveal_strlit("ve7cc.net:23");
    reveal_strlit("dxc.nc7j.com:7300");
    reveal_strlit("gb7mbc.net:8000");
    assert(first_settings().dx_nodes =~= "ve7cc.net:23"@ + seq!['\n'] + "dxc.nc7j.com:7300"@ + seq!['\n']
        + "gb7mbc.net:8000"@);
}

} // verus!
