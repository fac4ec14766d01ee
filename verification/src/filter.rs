//! Which spots are shown, and in what order.
use crate::age::{age_at, is_readable, readable, spot_age_minutes_at};
use crate::clock::{utc_now, Moment};
use crate::keyset::KeySet;
use crate::laws::list::law_calls_shown;
use crate::number::Number;
use crate::reading::{number_of, read_number};
use crate::spot::{or_empty, text_or_empty, EntryText, SpotEntry, SpotText, SpotType};
use crate::state::{entry_texts, AppState};
use crate::text::{
    chars_of, contains, has_text, lemma_less_irreflexive, lemma_less_total, lemma_less_transitive,
    same_text, text_less, upper_text, uppercase,
};
use vstd::prelude::*;

verus! {

/// What the list can be sorted by.
#[derive(Clone, Copy, PartialEq, Eq, Structural)]
pub enum SortColumn {
    Type,
    Activator,
    Frequency,
    Mode,
    Band,
    Reference,
    Park,
    Location,
    Comment,
    Distance,
    SpotTime,
}

/// A set of spot types.
#[derive(Clone, Copy, PartialEq, Eq, Structural)]
pub struct TypeSet {
    pub pota: bool,
    pub sota: bool,
    pub dx: bool,
    pub wwff: bool,
}

impl TypeSet {
    pub open spec fn has(self, t: SpotType) -> bool {
        match t {
            SpotType::Pota => self.pota,
            SpotType::Sota => self.sota,
            SpotType::Dx => self.dx,
            SpotType::Wwff => self.wwff,
        }
    }

    pub open spec fn none(self) -> bool {
        !self.pota && !self.sota && !self.dx && !self.wwff
    }

    pub fn new() -> (r: TypeSet)
        ensures
            r.none(),
    {
        TypeSet { pota: false, sota: false, dx: false, wwff: false }
    }

    pub fn contains(&self, t: SpotType) -> (r: bool)
        ensures
            r == self.has(t),
    {
        match t {
            SpotType::Pota => self.pota,
            SpotType::Sota => self.sota,
            SpotType::Dx => self.dx,
            SpotType::Wwff => self.wwff,
        }
    }

    pub fn is_empty(&self) -> (r: bool)
        ensures
            r == self.none(),
    {
        !self.pota && !self.sota && !self.dx && !self.wwff
    }

    /// Adds the type if it is not there, else takes it out.
    pub fn toggle(&mut self, t: SpotType)
        ensures
            forall|u: SpotType| #[trigger]
                final(self).has(u) == if u == t {
                    !old(self).has(u)
                } else {
                    old(self).has(u)
                },
    {
        match t {
            SpotType::Pota => {
                self.pota = !self.pota;
            },
            SpotType::Sota => {
                self.sota = !self.sota;
            },
            SpotType::Dx => {
                self.dx = !self.dx;
            },
            SpotType::Wwff => {
                self.wwff = !self.wwff;
            },
        }
    }

    /// Leaves the one type alone in the set.
    pub fn set_only(&mut self, t: SpotType)
        ensures
            forall|u: SpotType| #[trigger] final(self).has(u) == (u == t),
    {
        *self = TypeSet::new();
        self.toggle(t);
    }

    pub fn clear(&mut self)
        ensures
            final(self).none(),
    {
        *self = TypeSet::new();
    }
}

/// What the user wants to see.
pub struct Filters {
    pub bands: KeySet,
    pub modes: KeySet,
    pub types: TypeSet,
    pub country: String,
    pub callsign: String,
    pub hide_hunted: bool,
    pub hide_dupes: bool,
    pub hide_qrt: bool,
    /// Zero for no limit.
    pub max_age_mins: i64,
    pub sort_column: SortColumn,
    pub sort_ascending: bool,
}

/// The contents of [`Filters`].
#[verifier::ext_equal]
pub struct FiltersText {
    pub bands: Set<Seq<char>>,
    pub modes: Set<Seq<char>>,
    pub types: TypeSet,
    pub country: Seq<char>,
    pub callsign: Seq<char>,
    pub hide_hunted: bool,
    pub hide_dupes: bool,
    pub hide_qrt: bool,
    pub max_age_mins: i64,
    pub sort_column: SortColumn,
    pub sort_ascending: bool,
}

impl View for Filters {
    type V = FiltersText;

    open spec fn view(&self) -> FiltersText {
        FiltersText {
            bands: self.bands@,
            modes: self.modes@,
            types: self.types,
            country: self.country@,
            callsign: self.callsign@,
            hide_hunted: self.hide_hunted,
            hide_dupes: self.hide_dupes,
            hide_qrt: self.hide_qrt,
            max_age_mins: self.max_age_mins,
            sort_column: self.sort_column,
            sort_ascending: self.sort_ascending,
        }
    }
}

/// The time of a spot, or no text where it has none.
pub open spec fn time_of(e: EntryText) -> Seq<char> {
    text_or_empty(e.spot.spot_time)
}

/// An age is within a limit, zero being none; an age that is not known, or beyond all measure, always
/// is.
pub open spec fn within_limit(max_age_mins: i64, age: int) -> bool {
    max_age_mins > 0 ==> !(max_age_mins < age < 999)
}

impl FiltersText {
    /// The entry passes every filter but the one on age. An empty set of bands, modes or types lets
    /// everything pass.
    pub open spec fn passes_first(self, e: EntryText) -> bool {
        &&& self.types.none() || self.types.has(e.spot_type)
        &&& self.bands == Set::<Seq<char>>::empty() || self.bands.contains(e.band)
        &&& self.modes == Set::<Seq<char>>::empty() || self.modes.contains(uppercase(e.spot.mode))
        &&& self.country == "All"@ || e.country == self.country
        &&& self.callsign.len() == 0 || contains(uppercase(e.spot.activator), uppercase(self.callsign)) || contains(
            uppercase(e.spot.reference),
            uppercase(self.callsign),
        ) || contains(uppercase(e.spot.park()), uppercase(self.callsign))
        &&& !(self.hide_hunted && e.hunted)
        &&& !(self.hide_qrt && e.is_qrt)
    }

    /// The entry is not too old.
    pub open spec fn young_enough(self, e: EntryText, now: Moment) -> bool {
        self.max_age_mins > 0 ==> within_limit(self.max_age_mins, age_at(time_of(e), now))
    }

    pub open spec fn passes(self, e: EntryText, now: Moment) -> bool {
        self.passes_first(e) && self.young_enough(e, now)
    }

    /// The age of the entry can be told, if it is asked for.
    pub open spec fn can_tell(self, e: EntryText) -> bool {
        self.passes_first(e) && self.max_age_mins > 0 ==> readable(time_of(e))
    }

    /// The list can be shown: the ages that are asked for can be told.
    pub open spec fn can_show(self, entries: Seq<EntryText>) -> bool {
        forall|i: int| 0 <= i < entries.len() ==> self.can_tell(#[trigger] entries[i])
    }
}

/// -1, 0 or 1: the first text comes before the second, is the same, or comes after it.
pub open spec fn text_order(a: Seq<char>, b: Seq<char>) -> int {
    if text_less(a, b) {
        -1
    } else if a == b {
        0
    } else {
        1
    }
}

/// The order of whole numbers.
pub open spec fn number_order(a: int, b: int) -> int {
    if a < b {
        -1
    } else if a == b {
        0
    } else {
        1
    }
}

/// The frequency of an entry; zero where it cannot be read.
pub open spec fn frequency_of(e: EntryText) -> Number {
    match number_of(e.spot.frequency) {
        Some(n) => n,
        None => Number::Finite { negative: false, m: 0, shift: 0 },
    }
}

/// The order of frequencies; one that was read as not a number counts as equal to every other.
pub open spec fn frequency_order(a: Number, b: Number) -> int {
    if a is Nan || b is Nan {
        0
    } else {
        number_order(a.position(), b.position())
    }
}

/// The grid square of an entry, the finer one first.
pub open spec fn grid_of(s: SpotText) -> Seq<char> {
    match s.grid6 {
        Some(g) => g,
        None => text_or_empty(s.grid4),
    }
}

/// The text by which a column is sorted.
pub open spec fn column_text(column: SortColumn, e: EntryText) -> Seq<char> {
    match column {
        SortColumn::Type => e.spot_type.name(),
        SortColumn::Activator => e.spot.activator,
        SortColumn::Frequency => Seq::empty(),
        SortColumn::Mode => e.spot.mode,
        SortColumn::Band => e.band,
        SortColumn::Reference => e.spot.reference,
        SortColumn::Park => e.spot.park(),
        SortColumn::Location => e.country,
        SortColumn::Comment => text_or_empty(e.spot.comments),
        SortColumn::Distance => grid_of(e.spot),
        SortColumn::SpotTime => time_of(e),
    }
}

/// The order of two entries by one column, upwards.
pub open spec fn column_order(column: SortColumn, a: EntryText, b: EntryText) -> int {
    if column == SortColumn::Frequency {
        frequency_order(frequency_of(a), frequency_of(b))
    } else {
        text_order(column_text(column, a), column_text(column, b))
    }
}

impl FiltersText {
    /// The order in which two entries are shown: by the column, upwards or downwards; then the newer
    /// time first; then by the activator.
    pub open spec fn order(self, a: EntryText, b: EntryText) -> int {
        let by_column = if self.sort_ascending {
            column_order(self.sort_column, a, b)
        } else {
            -column_order(self.sort_column, a, b)
        };
        if by_column != 0 {
            by_column
        } else if text_order(time_of(b), time_of(a)) != 0 {
            text_order(time_of(b), time_of(a))
        } else {
            text_order(a.spot.activator, b.spot.activator)
        }
    }

    /// Of the entries `i` and `j` of a list, `i` is shown first; equal ones stay as they stand.
    pub open spec fn shown_before(self, entries: Seq<EntryText>, i: int, j: int) -> bool {
        self.order(entries[i], entries[j]) < 0 || (self.order(entries[i], entries[j]) == 0 && i < j)
    }

    /// There is an order of the entries that pass: what comes before what comes before a third comes
    /// before the third. Only a frequency that was read as not a number can be in the way of that.
    pub open spec fn is_orderly(self, entries: Seq<EntryText>, now: Moment) -> bool {
        self.sort_column == SortColumn::Frequency ==> forall|i: int, j: int, k: int|
            0 <= i < entries.len() && 0 <= j < entries.len() && 0 <= k < entries.len() && self.passes(entries[i], now)
                && self.passes(entries[j], now) && self.passes(entries[k], now) && #[trigger] self.order(
                entries[i],
                entries[j],
            ) <= 0 && #[trigger] self.order(entries[j], entries[k]) <= 0 ==> self.order(entries[i], entries[k]) <= 0
    }

    /// The rows are those entries of the list that pass, each one once; in order, where there is one.
    pub open spec fn is_sorted_view(self, entries: Seq<EntryText>, now: Moment, rows: Seq<int>) -> bool {
        &&& forall|k: int| 0 <= k < rows.len() ==> 0 <= #[trigger] rows[k] < entries.len() && self.passes(
            entries[rows[k]],
            now,
        )
        &&& forall|i: int| 0 <= i < entries.len() && #[trigger] self.passes(entries[i], now) ==> rows.contains(i)
        &&& rows.no_duplicates()
        &&& self.is_orderly(entries, now) ==> forall|k: int, l: int|
            0 <= k < l < rows.len() ==> self.shown_before(entries, #[trigger] rows[k], #[trigger] rows[l])
    }
}

/// The call under which spots count as the same.
pub open spec fn call_of(e: EntryText) -> Seq<char> {
    uppercase(e.spot.activator)
}

/// The row `k` is the newest of its call; of equally new ones it is the first.
pub open spec fn is_newest(entries: Seq<EntryText>, rows: Seq<int>, k: int) -> bool {
    forall|l: int|
        0 <= l < rows.len() && l != k && call_of(entries[#[trigger] rows[l]]) == call_of(entries[rows[k]])
            ==> text_less(time_of(entries[rows[l]]), time_of(entries[rows[k]])) || (time_of(entries[rows[l]])
            == time_of(entries[rows[k]]) && k < l)
}

/// The rows without the older ones of each call.
pub open spec fn newest_only(entries: Seq<EntryText>, rows: Seq<int>, upto: int) -> Seq<int>
    decreases upto,
{
    if upto <= 0 {
        Seq::empty()
    } else {
        let front = newest_only(entries, rows, upto - 1);
        if is_newest(entries, rows, upto - 1) {
            front.push(rows[upto - 1])
        } else {
            front
        }
    }
}

impl FiltersText {
    /// The rows that are shown.
    pub open spec fn is_view(self, entries: Seq<EntryText>, now: Moment, shown: Seq<int>) -> bool {
        exists|rows: Seq<int>| #[trigger]
            self.is_sorted_view(entries, now, rows) && shown == if self.hide_dupes {
                newest_only(entries, rows, rows.len() as int)
            } else {
                rows
            }
    }
}

/// The places of shown rows in the list.
pub open spec fn places(v: Seq<(usize, SpotEntry)>) -> Seq<int> {
    Seq::new(v.len(), |k: int| v[k].0 as int)
}

pub proof fn lemma_text_order(a: Seq<char>, b: Seq<char>, c: Seq<char>)
    ensures
        text_order(a, a) == 0,
        text_order(a, b) == -text_order(b, a),
        text_order(a, b) == 0 ==> text_order(a, c) == text_order(b, c) && text_order(c, a) == text_order(c, b),
        text_order(a, b) < 0 && text_order(b, c) <= 0 ==> text_order(a, c) < 0,
        text_order(a, b) <= 0 && text_order(b, c) < 0 ==> text_order(a, c) < 0,
        text_order(a, b) <= 0 && text_order(b, c) <= 0 ==> text_order(a, c) <= 0,
{
    lemma_less_irreflexive(a);
    lemma_less_irreflexive(b);
    lemma_less_irreflexive(c);
    lemma_less_total(a, b);
    lemma_less_total(b, c);
    lemma_less_total(a, c);
    if text_less(a, b) && text_less(b, c) {
        lemma_less_transitive(a, b, c);
    }
}

proof fn lemma_column_order(column: SortColumn, a: EntryText, b: EntryText, c: EntryText)
    requires
        column == SortColumn::Frequency ==> frequency_of(a) !is Nan && frequency_of(b) !is Nan && frequency_of(
            c,
        ) !is Nan,
    ensures
        column_order(column, a, b) == 0 ==> column_order(column, a, c) == column_order(column, b, c),
        column_order(column, b, c) == 0 ==> column_order(column, a, b) == column_order(column, a, c),
        column_order(column, a, b) < 0 && column_order(column, b, c) < 0 ==> column_order(column, a, c) < 0,
        column_order(column, a, b) > 0 && column_order(column, b, c) > 0 ==> column_order(column, a, c) > 0,
{
    lemma_text_order(column_text(column, a), column_text(column, b), column_text(column, c));
    lemma_text_order(column_text(column, c), column_text(column, b), column_text(column, a));
    lemma_text_order(column_text(column, b), column_text(column, c), column_text(column, a));
    lemma_text_order(column_text(column, a), column_text(column, c), column_text(column, b));
}

/// Of two entries, one comes before the other exactly when the other comes after it.
pub proof fn law_order_both_ways(f: FiltersText, a: EntryText, b: EntryText)
    ensures
        f.order(a, a) == 0,
        f.order(a, b) == -f.order(b, a),
{
    let column = f.sort_column;
    lemma_text_order(column_text(column, a), column_text(column, b), column_text(column, a));
    lemma_text_order(time_of(a), time_of(b), time_of(a));
    lemma_text_order(a.spot.activator, b.spot.activator, a.spot.activator);
}

/// Without frequencies that are not numbers, the order of entries is a total one, up to entries that
/// are alike in all that counts.
pub proof fn law_order(f: FiltersText, a: EntryText, b: EntryText, c: EntryText)
    requires
        f.sort_column == SortColumn::Frequency ==> frequency_of(a) !is Nan && frequency_of(b) !is Nan && frequency_of(
            c,
        ) !is Nan,
    ensures
        f.order(a, b) <= 0 && f.order(b, c) <= 0 ==> f.order(a, c) <= 0,
        f.order(a, b) < 0 && f.order(b, c) <= 0 ==> f.order(a, c) < 0,
        f.order(a, b) <= 0 && f.order(b, c) < 0 ==> f.order(a, c) < 0,
{
    lemma_column_order(f.sort_column, a, b, c);
    lemma_text_order(time_of(a), time_of(b), time_of(c));
    lemma_text_order(time_of(c), time_of(b), time_of(a));
    lemma_text_order(a.spot.activator, b.spot.activator, c.spot.activator);
}

/// A list is orderly unless it is sorted by frequency and one that passes was read as not a number.
pub proof fn law_orderly(f: FiltersText, entries: Seq<EntryText>, now: Moment)
    requires
        f.sort_column == SortColumn::Frequency ==> forall|i: int|
            0 <= i < entries.len() && f.passes(#[trigger] entries[i], now) ==> frequency_of(entries[i]) !is Nan,
    ensures
        f.is_orderly(entries, now),
{
    assert forall|i: int, j: int, k: int|
        0 <= i < entries.len() && 0 <= j < entries.len() && 0 <= k < entries.len() && f.passes(entries[i], now)
            && f.passes(entries[j], now) && f.passes(entries[k], now) && #[trigger] f.order(entries[i], entries[j]) <= 0
            && #[trigger] f.order(entries[j], entries[k]) <= 0 implies f.order(entries[i], entries[k]) <= 0 by {
        law_order(f, entries[i], entries[j], entries[k]);
    }
}

/// In an orderly list, what comes before comes before.
proof fn lemma_orderly(f: FiltersText, entries: Seq<EntryText>, now: Moment, i: int, j: int, k: int)
    requires
        f.is_orderly(entries, now),
        0 <= i < entries.len(),
        0 <= j < entries.len(),
        0 <= k < entries.len(),
        f.passes(entries[i], now),
        f.passes(entries[j], now),
        f.passes(entries[k], now),
    ensures
        f.order(entries[i], entries[j]) <= 0 && f.order(entries[j], entries[k]) <= 0 ==> f.order(
            entries[i],
            entries[k],
        ) <= 0,
        f.order(entries[i], entries[j]) < 0 && f.order(entries[j], entries[k]) <= 0 ==> f.order(
            entries[i],
            entries[k],
        ) < 0,
{
    law_order_both_ways(f, entries[i], entries[j]);
    law_order_both_ways(f, entries[i], entries[k]);
    if f.sort_column != SortColumn::Frequency {
        law_order(f, entries[i], entries[j], entries[k]);
    } else if f.order(entries[k], entries[i]) <= 0 && f.order(entries[j], entries[k]) <= 0 {
        assert(f.order(entries[j], entries[i]) <= 0);
    }
}

/// Which of two texts comes first.
fn order_texts(a: &str, b: &str) -> (r: i8)
    ensures
        r as int == text_order(a@, b@),
{
    let v = chars_of(a);
    let w = chars_of(b);
    let mut i: usize = 0;
    proof {
        assert(v@.skip(0) =~= v@);
        assert(w@.skip(0) =~= w@);
    }
    while i < v.len() && i < w.len()
        invariant
            i <= v@.len(),
            i <= w@.len(),
            v@ == a@,
            w@ == b@,
            text_less(a@, b@) == text_less(v@.skip(i as int), w@.skip(i as int)),
            forall|j: int| 0 <= j < i ==> #[trigger] v@[j] == w@[j],
        decreases v@.len() - i,
    {
        if v[i] != w[i] {
            return if v[i] < w[i] {
                -1
            } else {
                1
            };
        }
        proof {
            assert(v@.skip(i as int).drop_first() =~= v@.skip(i + 1));
            assert(w@.skip(i as int).drop_first() =~= w@.skip(i + 1));
        }
        i += 1;
    }
    if i < w.len() {
        -1
    } else if i < v.len() {
        1
    } else {
        proof {
            assert(v@ =~= w@);
        }
        0
    }
}

/// The text by which a column is sorted.
fn text_in_column<'a>(column: SortColumn, e: &'a SpotEntry) -> (r: &'a str)
    requires
        column != SortColumn::Frequency,
    ensures
        r@ == column_text(column, e@),
{
    match column {
        SortColumn::Type => e.spot_type.label(),
        SortColumn::Activator => e.spot.activator.as_str(),
        SortColumn::Frequency => "",
        SortColumn::Mode => e.spot.mode.as_str(),
        SortColumn::Band => e.band.as_str(),
        SortColumn::Reference => e.spot.reference.as_str(),
        SortColumn::Park => e.spot.display_park_name(),
        SortColumn::Location => e.country.as_str(),
        SortColumn::Comment => or_empty(&e.spot.comments),
        SortColumn::Distance => match &e.spot.grid6 {
            Some(g) => g.as_str(),
            None => or_empty(&e.spot.grid4),
        },
        SortColumn::SpotTime => or_empty(&e.spot.spot_time),
    }
}

fn read_frequency(e: &SpotEntry) -> (r: Number)
    ensures
        r == frequency_of(e@),
        r.wf(),
{
    proof {
        crate::number::lemma_two_powers();
    }
    match read_number(e.spot.frequency.as_str()) {
        Some(n) => n,
        None => Number::Finite { negative: false, m: 0, shift: 0 },
    }
}

/// Whether an age is within a limit.
pub fn is_within_limit(max_age_mins: i64, age: i64) -> (r: bool)
    ensures
        r == within_limit(max_age_mins, age as int),
{
    !(max_age_mins > 0 && age > max_age_mins && age < 999)
}

impl Filters {
    /// Whether an entry passes every filter but the one on age.
    fn lets_pass(&self, e: &SpotEntry) -> (r: bool)
        ensures
            r == self@.passes_first(e@),
    {
        if !self.types.is_empty() && !self.types.contains(e.spot_type) {
            return false;
        }
        if !self.bands.is_empty() && !self.bands.contains(e.band.as_str()) {
            return false;
        }
        if !self.modes.is_empty() {
            let mode = upper_text(e.spot.mode.as_str());
            if !self.modes.contains(mode.as_str()) {
                return false;
            }
        }
        if !same_text(self.country.as_str(), "All") && !same_text(e.country.as_str(), self.country.as_str()) {
            return false;
        }
        if !self.callsign.as_str().is_empty() {
            let search = upper_text(self.callsign.as_str());
            let activator = upper_text(e.spot.activator.as_str());
            let reference = upper_text(e.spot.reference.as_str());
            let park = upper_text(e.spot.display_park_name());
            if !has_text(activator.as_str(), search.as_str()) && !has_text(reference.as_str(), search.as_str())
                && !has_text(park.as_str(), search.as_str()) {
                return false;
            }
        }
        !(self.hide_hunted && e.hunted) && !(self.hide_qrt && e.is_qrt)
    }

    /// Whether an entry whose age can be told, if it is asked for, passes all filters.
    fn lets_pass_at(&self, e: &SpotEntry, now: Moment) -> (r: bool)
        requires
            self@.can_tell(e@),
            now.valid(),
            now.secs >= 0,
        ensures
            r == self@.passes(e@, now),
    {
        if !self.lets_pass(e) {
            return false;
        }
        if self.max_age_mins > 0 {
            let age: i64 = spot_age_minutes_at(or_empty(&e.spot.spot_time), now);
            return is_within_limit(self.max_age_mins, age);
        }
        true
    }

    /// Whether the list can be shown.
    pub fn can_show(&self, state: &AppState) -> (r: bool)
        ensures
            r == self@.can_show(state.entries()),
    {
        let mut i: usize = 0;
        let ghost all = state.entries();
        while i < state.spots.len()
            invariant
                i <= state.spots@.len(),
                all == state.entries(),
                forall|j: int| 0 <= j < i ==> self@.can_tell(#[trigger] all[j]),
            decreases state.spots@.len() - i,
        {
            let e = &state.spots[i];
            assert(all[i as int] == e@);
            if self.max_age_mins > 0 && self.lets_pass(e) && !is_readable(or_empty(&e.spot.spot_time)) {
                return false;
            }
            i += 1;
        }
        true
    }

    /// Which of two entries is shown first; their frequencies are given.
    fn order_entries(&self, a: &SpotEntry, fa: &Number, b: &SpotEntry, fb: &Number) -> (r: i8)
        requires
            self.sort_column == SortColumn::Frequency ==> *fa == frequency_of(a@) && *fb == frequency_of(b@),
            fa.wf(),
            fb.wf(),
        ensures
            r as int == self@.order(a@, b@),
    {
        let by_column: i8 = if self.sort_column == SortColumn::Frequency {
            match (fa, fb) {
                (Number::Nan, _) => 0,
                (_, Number::Nan) => 0,
                _ => if fa.is_less(fb) {
                    -1
                } else if fb.is_less(fa) {
                    1
                } else {
                    0
                },
            }
        } else {
            order_texts(text_in_column(self.sort_column, a), text_in_column(self.sort_column, b))
        };
        let directed: i8 = if self.sort_ascending {
            by_column
        } else {
            -by_column
        };
        if directed != 0 {
            return directed;
        }
        let by_time: i8 = order_texts(or_empty(&b.spot.spot_time), or_empty(&a.spot.spot_time));
        if by_time != 0 {
            return by_time;
        }
        order_texts(a.spot.activator.as_str(), b.spot.activator.as_str())
    }

    /// The frequencies of all entries, where they are needed.
    fn frequencies(&self, spots: &Vec<SpotEntry>) -> (r: Vec<Number>)
        ensures
            r@.len() == spots@.len(),
            forall|i: int| 0 <= i < r@.len() ==> (#[trigger] r@[i]).wf(),
            self.sort_column == SortColumn::Frequency ==> forall|i: int|
                0 <= i < r@.len() ==> #[trigger] r@[i] == frequency_of(spots@[i]@),
    {
        let mut r: Vec<Number> = Vec::new();
        let mut i: usize = 0;
        while i < spots.len()
            invariant
                i <= spots@.len(),
                r@.len() == i,
                forall|j: int| 0 <= j < i ==> (#[trigger] r@[j]).wf(),
                self.sort_column == SortColumn::Frequency ==> forall|j: int|
                    0 <= j < i ==> #[trigger] r@[j] == frequency_of(spots@[j]@),
            decreases spots@.len() - i,
        {
            if self.sort_column == SortColumn::Frequency {
                r.push(read_frequency(&spots[i]));
            } else {
                r.push(Number::Nan);
            }
            i += 1;
        }
        r
    }

    /// Where the entry `new`, which comes after all others in the list, goes among the rows.
    fn place_for(
        &self,
        spots: &Vec<SpotEntry>,
        freqs: &Vec<Number>,
        rows: &Vec<usize>,
        new: usize,
        Ghost(now): Ghost<Moment>,
    ) -> (r: usize)
        requires
            freqs@.len() == spots@.len(),
            new < spots@.len(),
            self@.passes(entry_texts(spots@)[new as int], now),
            forall|k: int|
                0 <= k < rows@.len() ==> #[trigger] rows@[k] < new && self@.passes(
                    entry_texts(spots@)[rows@[k] as int],
                    now,
                ),
            forall|i: int| 0 <= i < freqs@.len() ==> (#[trigger] freqs@[i]).wf(),
            self.sort_column == SortColumn::Frequency ==> forall|i: int|
                0 <= i < freqs@.len() ==> #[trigger] freqs@[i] == frequency_of(spots@[i]@),
            self@.is_orderly(entry_texts(spots@), now) ==> self@.in_order(entry_texts(spots@), rows@),
        ensures
            r <= rows@.len(),
            self@.is_orderly(entry_texts(spots@), now) ==> self@.fits_at(entry_texts(spots@), rows@, r as int, new as int),
    {
        let mut low: usize = 0;
        let mut high: usize = rows.len();
        let ghost all = entry_texts(spots@);
        let ghost orderly = self@.is_orderly(all, now);
        while low < high
            invariant
                low <= high <= rows@.len(),
                freqs@.len() == spots@.len(),
                new < spots@.len(),
                all == entry_texts(spots@),
                orderly == self@.is_orderly(all, now),
                self@.passes(all[new as int], now),
                forall|k: int|
                    0 <= k < rows@.len() ==> #[trigger] rows@[k] < new && self@.passes(all[rows@[k] as int], now),
                forall|i: int| 0 <= i < freqs@.len() ==> (#[trigger] freqs@[i]).wf(),
                self.sort_column == SortColumn::Frequency ==> forall|i: int|
                    0 <= i < freqs@.len() ==> #[trigger] freqs@[i] == frequency_of(spots@[i]@),
                orderly ==> self@.in_order(all, rows@),
                orderly ==> forall|k: int|
                    0 <= k < low ==> self@.order(all[#[trigger] rows@[k] as int], all[new as int]) <= 0,
                orderly ==> forall|k: int|
                    high <= k < rows@.len() ==> self@.order(all[new as int], all[#[trigger] rows@[k] as int]) < 0,
            decreases high - low,
        {
            let mid: usize = low + (high - low) / 2;
            let row = rows[mid];
            let o: i8 = self.order_entries(&spots[new], &freqs[new], &spots[row], &freqs[row]);
            proof {
                assert(all[new as int] == spots@[new as int]@);
                assert(all[row as int] == spots@[row as int]@);
                law_order_both_ways(self@, all[row as int], all[row as int]);
            }
            if o < 0 {
                proof {
                    if orderly {
                        assert forall|k: int| mid <= k < rows@.len() implies self@.order(
                            all[new as int],
                            all[#[trigger] rows@[k] as int],
                        ) < 0 by {
                            assert(rows@[mid as int] == row);
                            lemma_orderly(self@, all, now, new as int, row as int, rows@[k] as int);
                        }
                    }
                }
                high = mid;
            } else {
                proof {
                    if orderly {
                        law_order_both_ways(self@, all[row as int], all[new as int]);
                        assert forall|k: int| 0 <= k < mid + 1 implies self@.order(
                            all[#[trigger] rows@[k] as int],
                            all[new as int],
                        ) <= 0 by {
                            assert(rows@[mid as int] == row);
                            lemma_orderly(self@, all, now, rows@[k] as int, row as int, new as int);
                        }
                    }
                }
                low = mid + 1;
            }
        }
        low
    }
}

impl FiltersText {
    /// No row comes before one that stands above it.
    spec fn in_order(self, entries: Seq<EntryText>, rows: Seq<usize>) -> bool {
        forall|k: int, l: int|
            0 <= k < l < rows.len() ==> self.order(
                entries[#[trigger] rows[k] as int],
                entries[#[trigger] rows[l] as int],
            ) <= 0
    }

    /// An entry fits in at a place among the rows: behind all that it does not come before.
    spec fn fits_at(self, entries: Seq<EntryText>, rows: Seq<usize>, place: int, new: int) -> bool {
        &&& forall|k: int| 0 <= k < place ==> self.order(entries[#[trigger] rows[k] as int], entries[new]) <= 0
        &&& forall|k: int|
            place <= k < rows.len() ==> self.order(entries[new], entries[#[trigger] rows[k] as int]) < 0
    }
}

/// Places in a list as whole numbers.
pub open spec fn as_ints(v: Seq<usize>) -> Seq<int> {
    Seq::new(v.len(), |k: int| v[k] as int)
}

proof fn lemma_insert_row(f: FiltersText, entries: Seq<EntryText>, rows: Seq<usize>, p: int, new: usize)
    requires
        0 <= p <= rows.len(),
        new < entries.len(),
        forall|k: int| 0 <= k < rows.len() ==> #[trigger] rows[k] < new,
        forall|k: int, l: int|
            0 <= k < l < rows.len() ==> f.shown_before(
                entries,
                #[trigger] rows[k] as int,
                #[trigger] rows[l] as int,
            ),
        f.fits_at(entries, rows, p, new as int),
    ensures
        forall|k: int, l: int|
            0 <= k < l < rows.len() + 1 ==> f.shown_before(
                entries,
                #[trigger] rows.insert(p, new)[k] as int,
                #[trigger] rows.insert(p, new)[l] as int,
            ),
{
    let next = rows.insert(p, new);
    assert forall|k: int, l: int| 0 <= k < l < rows.len() + 1 implies f.shown_before(
        entries,
        #[trigger] next[k] as int,
        #[trigger] next[l] as int,
    ) by {
        if k < p && l < p {
            assert(next[k] == rows[k] && next[l] == rows[l]);
        } else if k < p && l == p {
            assert(next[k] == rows[k] && next[l] == new);
        } else if k < p {
            assert(next[k] == rows[k] && next[l] == rows[l - 1]);
        } else if k == p {
            assert(next[k] == new && next[l] == rows[l - 1]);
        } else {
            assert(next[k] == rows[k - 1] && next[l] == rows[l - 1]);
        }
    }
}

impl Filters {
    /// The places of the entries that pass, in order where there is one.
    fn sorted_rows(&self, state: &AppState, now: Moment) -> (r: Vec<usize>)
        requires
            self@.can_show(state.entries()),
            now.valid(),
            now.secs >= 0,
        ensures
            self@.is_sorted_view(state.entries(), now, as_ints(r@)),
    {
        let mut rows: Vec<usize> = Vec::new();
        let freqs = self.frequencies(&state.spots);
        let ghost all = state.entries();
        let ghost orderly = self@.is_orderly(all, now);
        let mut i: usize = 0;
        while i < state.spots.len()
            invariant
                i <= state.spots@.len(),
                all == state.entries(),
                self@.can_show(all),
                now.valid(),
                now.secs >= 0,
                freqs@.len() == state.spots@.len(),
                forall|j: int| 0 <= j < freqs@.len() ==> (#[trigger] freqs@[j]).wf(),
                self.sort_column == SortColumn::Frequency ==> forall|j: int|
                    0 <= j < freqs@.len() ==> #[trigger] freqs@[j] == frequency_of(state.spots@[j]@),
                forall|k: int| 0 <= k < rows@.len() ==> #[trigger] rows@[k] < i && self@.passes(all[rows@[k] as int], now),
                forall|j: int| 0 <= j < i && #[trigger] self@.passes(all[j], now) ==> rows@.contains(j as usize),
                rows@.no_duplicates(),
                orderly == self@.is_orderly(all, now),
                orderly ==> forall|k: int, l: int|
                    0 <= k < l < rows@.len() ==> self@.shown_before(
                        all,
                        #[trigger] rows@[k] as int,
                        #[trigger] rows@[l] as int,
                    ),
            decreases state.spots@.len() - i,
        {
            let e = &state.spots[i];
            assert(all[i as int] == e@);
            if self.lets_pass_at(e, now) {
                let p = self.place_for(&state.spots, &freqs, &rows, i, Ghost(now));
                let ghost before = rows@;
                proof {
                    if orderly {
                        lemma_insert_row(self@, all, before, p as int, i);
                    }
                }
                rows.insert(p, i);
                proof {
                    assert forall|k: int| 0 <= k < rows@.len() implies #[trigger] rows@[k] < i + 1 && self@.passes(
                        all[rows@[k] as int],
                        now,
                    ) by {
                        if k < p {
                            assert(rows@[k] == before[k]);
                        } else if k > p {
                            assert(rows@[k] == before[k - 1]);
                        }
                    }
                    assert forall|k: int, l: int| 0 <= k < l < rows@.len() implies rows@[k] != rows@[l] by {
                        if k < p {
                            assert(rows@[k] == before[k]);
                        } else if k > p {
                            assert(rows@[k] == before[k - 1]);
                        }
                        if l < p {
                            assert(rows@[l] == before[l]);
                        } else if l > p {
                            assert(rows@[l] == before[l - 1]);
                        }
                    }
                    assert forall|j: int| 0 <= j < i + 1 && #[trigger] self@.passes(all[j], now) implies rows@.contains(
                        j as usize,
                    ) by {
                        if j < i {
                            let k = choose|k: int| 0 <= k < before.len() && before[k] == j as usize;
                            if k < p {
                                assert(rows@[k] == j as usize);
                            } else {
                                assert(rows@[k + 1] == j as usize);
                            }
                        } else {
                            assert(rows@[p as int] == j as usize);
                        }
                    }
                }
            }
            i += 1;
        }
        proof {
            let r = as_ints(rows@);
            assert forall|j: int| 0 <= j < all.len() && #[trigger] self@.passes(all[j], now) implies r.contains(j) by {
                let k = choose|k: int| 0 <= k < rows@.len() && rows@[k] == j as usize;
                assert(r[k] == j);
            }
            if orderly {
                assert forall|k: int, l: int| 0 <= k < l < r.len() implies self@.shown_before(
                    all,
                    #[trigger] r[k],
                    #[trigger] r[l],
                ) by {
                    assert(r[k] == rows@[k] as int && r[l] == rows@[l] as int);
                }
            }
        }
        rows
    }
}

/// Whether the row `k` is the newest of its call.
fn newest(state: &AppState, rows: &Vec<usize>, calls: &Vec<String>, k: usize) -> (r: bool)
    requires
        k < rows@.len(),
        calls@.len() == rows@.len(),
        forall|l: int| 0 <= l < rows@.len() ==> #[trigger] rows@[l] < state.spots@.len(),
        forall|l: int|
            0 <= l < rows@.len() ==> (#[trigger] calls@[l])@ == call_of(state.spots@[rows@[l] as int]@),
    ensures
        r == is_newest(state.entries(), as_ints(rows@), k as int),
{
    let mut l: usize = 0;
    let ghost all = state.entries();
    let ghost ints = as_ints(rows@);
    let time = or_empty(&state.spots[rows[k]].spot.spot_time);
    assert(time@ == time_of(all[ints[k as int]]));
    while l < rows.len()
        invariant
            l <= rows@.len(),
            k < rows@.len(),
            calls@.len() == rows@.len(),
            forall|l: int| 0 <= l < rows@.len() ==> #[trigger] rows@[l] < state.spots@.len(),
            forall|l: int|
                0 <= l < rows@.len() ==> (#[trigger] calls@[l])@ == call_of(state.spots@[rows@[l] as int]@),
            all == state.entries(),
            ints == as_ints(rows@),
            time@ == time_of(all[ints[k as int]]),
            forall|m: int|
                0 <= m < l && m != k && call_of(all[#[trigger] ints[m]]) == call_of(all[ints[k as int]]) ==> text_less(
                    time_of(all[ints[m]]),
                    time_of(all[ints[k as int]]),
                ) || (time_of(all[ints[m]]) == time_of(all[ints[k as int]]) && k < m),
        decreases rows@.len() - l,
    {
        if l != k && same_text(calls[l].as_str(), calls[k].as_str()) {
            let other = or_empty(&state.spots[rows[l]].spot.spot_time);
            let o: i8 = order_texts(other, time);
            proof {
                assert(calls@[l as int]@ == call_of(all[ints[l as int]]));
                assert(calls@[k as int]@ == call_of(all[ints[k as int]]));
                assert(other@ == time_of(all[ints[l as int]]));
                lemma_less_irreflexive(time@);
                lemma_less_total(other@, time@);
            }
            if o > 0 || (o == 0 && l < k) {
                return false;
            }
        } else {
            proof {
                assert(calls@[l as int]@ == call_of(all[ints[l as int]]));
                assert(calls@[k as int]@ == call_of(all[ints[k as int]]));
            }
        }
        l += 1;
    }
    true
}

impl Filters {
    /// The entries that are shown at the moment `now`, each with its place in the list.
    pub fn filtered_spots_at(&self, state: &AppState, now: Moment) -> (r: Vec<(usize, SpotEntry)>)
        requires
            self@.can_show(state.entries()),
            now.valid(),
            now.secs >= 0,
        ensures
            self@.is_view(state.entries(), now, places(r@)),
            forall|k: int|
                0 <= k < r@.len() ==> (#[trigger] r@[k]).0 < state.spots@.len() && r@[k].1 == state.spots@[r@[k].0 as int],
            forall|k: int|
                0 <= k < r@.len() ==> {
                    let e = (#[trigger] r@[k]).1;
                    &&& self.types.none() || self.types.has(e.spot_type)
                    &&& self.hide_hunted ==> !e.hunted
                    &&& self.hide_qrt ==> !e.is_qrt
                },
    {
        let rows = self.sorted_rows(state, now);
        let ghost all = state.entries();
        let ghost ints = as_ints(rows@);
        proof {
            assert forall|k: int| 0 <= k < rows@.len() implies #[trigger] rows@[k] < state.spots@.len() by {
                assert(0 <= ints[k] < all.len());
            }
        }
        let mut calls: Vec<String> = Vec::new();
        let mut i: usize = 0;
        while i < rows.len()
            invariant
                i <= rows@.len(),
                calls@.len() == i,
                forall|l: int| 0 <= l < rows@.len() ==> #[trigger] rows@[l] < state.spots@.len(),
                forall|l: int|
                    0 <= l < i ==> (#[trigger] calls@[l])@ == call_of(state.spots@[rows@[l] as int]@),
            decreases rows@.len() - i,
        {
            calls.push(upper_text(state.spots[rows[i]].spot.activator.as_str()));
            i += 1;
        }
        let mut r: Vec<(usize, SpotEntry)> = Vec::new();
        let mut k: usize = 0;
        proof {
            assert(places(r@) =~= ints.take(0));
            assert(places(r@) =~= newest_only(all, ints, 0));
        }
        while k < rows.len()
            invariant
                k <= rows@.len(),
                calls@.len() == rows@.len(),
                all == state.entries(),
                ints == as_ints(rows@),
                forall|l: int| 0 <= l < rows@.len() ==> #[trigger] rows@[l] < state.spots@.len(),
                forall|l: int|
                    0 <= l < rows@.len() ==> (#[trigger] calls@[l])@ == call_of(state.spots@[rows@[l] as int]@),
                places(r@) == if self.hide_dupes {
                    newest_only(all, ints, k as int)
                } else {
                    ints.take(k as int)
                },
                forall|j: int|
                    0 <= j < r@.len() ==> (#[trigger] r@[j]).0 < state.spots@.len() && r@[j].1
                        == state.spots@[r@[j].0 as int],
            decreases rows@.len() - k,
        {
            if !self.hide_dupes || newest(state, &rows, &calls, k) {
                let ghost before = r@;
                r.push((rows[k], state.spots[rows[k]].clone()));
                proof {
                    assert(places(r@) =~= places(before).push(ints[k as int]));
                    assert(ints.take(k + 1) =~= ints.take(k as int).push(ints[k as int]));
                }
            }
            k += 1;
        }
        proof {
            assert(ints.take(ints.len() as int) =~= ints);
            assert(self@.is_view(all, now, places(r@)));
            assert forall|k: int| 0 <= k < r@.len() implies self@.passes((#[trigger] r@[k]).1@, now) by {
                assert(places(r@)[k] == r@[k].0);
                assert(places(r@).contains(r@[k].0 as int));
                law_calls_shown(self@, all, now, places(r@), r@[k].0 as int);
            }
        }
        r
    }

    /// The entries that are shown now, each with its place in the list; `None` where the list cannot
    /// be shown.
    pub fn get_filtered_spots(&self, state: &AppState) -> (r: Option<Vec<(usize, SpotEntry)>>)
        ensures
            r is Some <==> self@.can_show(state.entries()),
            r matches Some(v) ==> exists|now: Moment|
                #[trigger] now.valid() && now.secs >= 0 && self@.is_view(state.entries(), now, places(v@)),
            r matches Some(v) ==> forall|k: int|
                0 <= k < v@.len() ==> (#[trigger] v@[k]).0 < state.spots@.len() && v@[k].1
                    == state.spots@[v@[k].0 as int],
    {
        if self.can_show(state) {
            let now = utc_now();
            Some(self.filtered_spots_at(state, now))
        } else {
            None
        }
    }

    /// Sorts by the column, or turns the order round where it is sorted by it already.
    pub fn toggle_sort(&mut self, col: SortColumn)
        ensures
            final(self)@ == (FiltersText {
                sort_column: col,
                sort_ascending: if old(self).sort_column == col {
                    !old(self).sort_ascending
                } else {
                    true
                },
                ..old(self)@
            }),
    {
        if self.sort_column == col {
            self.sort_ascending = !self.sort_ascending;
        } else {
            self.sort_column = col;
            self.sort_ascending = true;
        }
    }

    /// The mark in a column's head.
    pub fn sort_indicator(&self, col: SortColumn) -> (r: &'static str)
        ensures
            r@ == if self.sort_column != col {
                ""@
            } else if self.sort_ascending {
                " ▲"@
            } else {
                " ▼"@
            },
    {
        if self.sort_column == col {
            if self.sort_ascending {
                " ▲"
            } else {
                " ▼"
            }
        } else {
            ""
        }
    }

    /// Lets everything pass but what is older than `max_age_mins`. Duplicates and the order stay as
    /// they are.
    pub fn clear(&mut self, max_age_mins: i64)
        ensures
            final(self)@ == cleared(old(self)@, max_age_mins),
    {
        self.bands.clear();
        self.modes.clear();
        self.types.clear();
        self.country = "All".to_owned();
        self.callsign = String::new();
        self.hide_hunted = false;
        self.hide_qrt = false;
        self.max_age_mins = max_age_mins;
        proof {
            assert(self.callsign@ =~= Seq::<char>::empty());
        }
    }
}

/// The filters when they are cleared.
pub open spec fn cleared(f: FiltersText, max_age_mins: i64) -> FiltersText {
    FiltersText {
        bands: Set::empty(),
        modes: Set::empty(),
        types: TypeSet { pota: false, sota: false, dx: false, wwff: false },
        country: "All"@,
        callsign: Seq::empty(),
        hide_hunted: false,
        hide_qrt: false,
        max_age_mins,
        ..f
    }
}

/// Cleared filters without a limit on age let every entry pass.
pub proof fn law_cleared_lets_all_pass(f: FiltersText, e: EntryText, now: Moment)
    ensures
        cleared(f, 0).passes(e, now),
{
}

} // verus!
