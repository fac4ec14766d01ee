//! The session: what was hunted, what was not heard, and what the log says of the spots.
use crate::keyset::{toggled, KeySet};
use crate::lookup::{cache_key, make_cache_key, Finding, FindingText, Wanted, WantedText};
use crate::spot::{opt_text, EntryText, SpotEntry, SpotText, SpotType};
use crate::state::{entry_texts, new_entries, AppState};
use crate::text::{same_text, texts, upper_text, uppercase};
use vstd::hash_map::StringHashMap;
use vstd::prelude::*;

verus! {

/// How many spots are asked about at once.
pub const LOOKUP_LIMIT: usize = 20;

/// What is known for this session alone.
pub struct Session {
    pub hunted_set: KeySet,
    pub not_heard_set: KeySet,
    /// The countries that the log has named, by call.
    pub dxcc_cache: StringHashMap<String>,
    /// What the log said, by call, band and mode.
    pub atno_cache: StringHashMap<String>,
    /// How many spots are new ones.
    pub atno_alert_count: usize,
}

/// The texts of a map.
pub open spec fn map_texts(m: Map<Seq<char>, String>) -> Map<Seq<char>, Seq<char>> {
    Map::new(|k: Seq<char>| m.contains_key(k), |k: Seq<char>| m[k]@)
}

/// An entry with its mark as hunted set.
pub open spec fn with_hunted(e: EntryText, hunted: bool) -> EntryText {
    EntryText { hunted, ..e }
}

/// An entry with its mark as not heard set.
pub open spec fn with_not_heard(e: EntryText, not_heard: bool) -> EntryText {
    EntryText { not_heard, ..e }
}

/// The list with the mark as hunted set on every entry with that key.
pub open spec fn hunted_by_key(entries: Seq<EntryText>, key: Seq<char>, hunted: bool) -> Seq<EntryText> {
    Seq::new(
        entries.len(),
        |i: int| if entries[i].key() == key {
            with_hunted(entries[i], hunted)
        } else {
            entries[i]
        },
    )
}

/// The list with the mark as not heard set on every entry with that key.
pub open spec fn not_heard_by_key(entries: Seq<EntryText>, key: Seq<char>, not_heard: bool) -> Seq<EntryText> {
    Seq::new(
        entries.len(),
        |i: int| if entries[i].key() == key {
            with_not_heard(entries[i], not_heard)
        } else {
            entries[i]
        },
    )
}

fn mark_hunted(spots: &mut Vec<SpotEntry>, key: &str, hunted: bool)
    ensures
        entry_texts(final(spots)@) == hunted_by_key(entry_texts(old(spots)@), key@, hunted),
{
    let ghost before = entry_texts(spots@);
    let ghost after = hunted_by_key(before, key@, hunted);
    let mut i: usize = 0;
    while i < spots.len()
        invariant
            i <= spots@.len(),
            spots@.len() == before.len(),
            after == hunted_by_key(before, key@, hunted),
            forall|j: int| 0 <= j < i ==> (#[trigger] spots@[j])@ == after[j],
            forall|j: int| i <= j < before.len() ==> (#[trigger] spots@[j])@ == before[j],
        decreases spots@.len() - i,
    {
        let own = spots[i].spot_key();
        if same_text(own.as_str(), key) {
            spots[i].hunted = hunted;
        }
        i += 1;
    }
    proof {
        assert(entry_texts(spots@) =~= after);
    }
}

fn mark_not_heard(spots: &mut Vec<SpotEntry>, key: &str, not_heard: bool)
    ensures
        entry_texts(final(spots)@) == not_heard_by_key(entry_texts(old(spots)@), key@, not_heard),
{
    let ghost before = entry_texts(spots@);
    let ghost after = not_heard_by_key(before, key@, not_heard);
    let mut i: usize = 0;
    while i < spots.len()
        invariant
            i <= spots@.len(),
            spots@.len() == before.len(),
            after == not_heard_by_key(before, key@, not_heard),
            forall|j: int| 0 <= j < i ==> (#[trigger] spots@[j])@ == after[j],
            forall|j: int| i <= j < before.len() ==> (#[trigger] spots@[j])@ == before[j],
        decreases spots@.len() - i,
    {
        let own = spots[i].spot_key();
        if same_text(own.as_str(), key) {
            spots[i].not_heard = not_heard;
        }
        i += 1;
    }
    proof {
        assert(entry_texts(spots@) =~= after);
    }
}

/// Nothing of the state but the entries has changed.
pub open spec fn same_fetch(a: AppState, b: AppState) -> bool {
    a.last_fetch == b.last_fetch && a.fetch_error == b.fetch_error && a.is_fetching == b.is_fetching
}

impl Session {
    pub fn new() -> (r: Session)
        ensures
            r.hunted_set@ == Set::<Seq<char>>::empty(),
            r.not_heard_set@ == Set::<Seq<char>>::empty(),
            r.dxcc_cache@ == Map::<Seq<char>, String>::empty(),
            r.atno_cache@ == Map::<Seq<char>, String>::empty(),
            r.atno_alert_count == 0,
    {
        Session {
            hunted_set: KeySet::new(),
            not_heard_set: KeySet::new(),
            dxcc_cache: StringHashMap::new(),
            atno_cache: StringHashMap::new(),
            atno_alert_count: 0,
        }
    }

    /// The caches and the count have not changed.
    pub open spec fn same_caches(&self, other: &Session) -> bool {
        self.dxcc_cache == other.dxcc_cache && self.atno_cache == other.atno_cache && self.atno_alert_count
            == other.atno_alert_count
    }

    /// Marks a spot as hunted, or takes the mark back. Tells which.
    pub fn toggle_hunted(&mut self, state: &mut AppState, key: &str) -> (r: bool)
        ensures
            r == !old(self).hunted_set@.contains(key@),
            final(self).hunted_set@ == toggled(old(self).hunted_set@, key@),
            final(self).not_heard_set == old(self).not_heard_set,
            final(self).same_caches(old(self)),
            final(state).entries() == hunted_by_key(old(state).entries(), key@, r),
            same_fetch(*final(state), *old(state)),
    {
        let on = self.hunted_set.toggle(key);
        mark_hunted(&mut state.spots, key, on);
        on
    }

    /// Marks a spot as not heard, or takes the mark back. Tells which.
    pub fn toggle_not_heard(&mut self, state: &mut AppState, key: &str) -> (r: bool)
        ensures
            r == !old(self).not_heard_set@.contains(key@),
            final(self).not_heard_set@ == toggled(old(self).not_heard_set@, key@),
            final(self).hunted_set == old(self).hunted_set,
            final(self).same_caches(old(self)),
            final(state).entries() == not_heard_by_key(old(state).entries(), key@, r),
            same_fetch(*final(state), *old(state)),
    {
        let on = self.not_heard_set.toggle(key);
        mark_not_heard(&mut state.spots, key, on);
        on
    }

    /// A spot was logged: it counts as hunted.
    pub fn note_logged(&mut self, state: &mut AppState, key: &str)
        ensures
            final(self).hunted_set@ == old(self).hunted_set@.insert(key@),
            final(self).not_heard_set == old(self).not_heard_set,
            final(self).same_caches(old(self)),
            final(state).entries() == hunted_by_key(old(state).entries(), key@, true),
            same_fetch(*final(state), *old(state)),
    {
        let _ = self.hunted_set.insert(key.to_owned());
        mark_hunted(&mut state.spots, key, true);
    }

    /// Forgets what was hunted and what was not heard.
    pub fn clear_hunted(&mut self, state: &mut AppState)
        ensures
            final(self).hunted_set@ == Set::<Seq<char>>::empty(),
            final(self).not_heard_set@ == Set::<Seq<char>>::empty(),
            final(self).same_caches(old(self)),
            final(state).entries() == Seq::new(
                old(state).entries().len(),
                |i: int| with_not_heard(with_hunted(old(state).entries()[i], false), false),
            ),
            same_fetch(*final(state), *old(state)),
    {
        self.hunted_set.clear();
        self.not_heard_set.clear();
        let ghost before = state.entries();
        let mut i: usize = 0;
        while i < state.spots.len()
            invariant
                i <= state.spots@.len(),
                state.spots@.len() == before.len(),
                same_fetch(*state, *old(state)),
                forall|j: int|
                    0 <= j < i ==> (#[trigger] state.spots@[j])@ == with_not_heard(
                        with_hunted(before[j], false),
                        false,
                    ),
                forall|j: int| i <= j < before.len() ==> (#[trigger] state.spots@[j])@ == before[j],
            decreases state.spots@.len() - i,
        {
            state.spots[i].hunted = false;
            state.spots[i].not_heard = false;
            i += 1;
        }
        proof {
            assert(state.entries() =~= Seq::new(
                before.len(),
                |i: int| with_not_heard(with_hunted(before[i], false), false),
            ));
        }
    }
}

/// The entry is a spot of the call that is not marked as hunted yet.
pub open spec fn is_caught(e: EntryText, call: Seq<char>) -> bool {
    uppercase(e.spot.activator) == uppercase(call) && !e.hunted
}

/// The list after a call was logged.
pub open spec fn after_call(entries: Seq<EntryText>, call: Seq<char>) -> Seq<EntryText> {
    Seq::new(
        entries.len(),
        |i: int| if is_caught(entries[i], call) {
            with_hunted(entries[i], true)
        } else {
            entries[i]
        },
    )
}

/// The keys of the first `n` entries that a logged call marks.
pub open spec fn caught_keys(entries: Seq<EntryText>, call: Seq<char>, n: int) -> Set<Seq<char>>
    decreases n,
{
    if n <= 0 {
        Set::empty()
    } else if is_caught(entries[n - 1], call) {
        caught_keys(entries, call, n - 1).insert(entries[n - 1].key())
    } else {
        caught_keys(entries, call, n - 1)
    }
}

/// What is said of an entry that was marked.
pub open spec fn caught_text(e: EntryText) -> Seq<char> {
    "✅ Auto-hunted "@ + e.spot.activator + " ("@ + e.spot.reference + ")"@
}

/// What is said last of the first `n` entries that a logged call marks.
pub open spec fn last_caught(entries: Seq<EntryText>, call: Seq<char>, n: int) -> Option<Seq<char>>
    decreases n,
{
    if n <= 0 {
        None
    } else if is_caught(entries[n - 1], call) {
        Some(caught_text(entries[n - 1]))
    } else {
        last_caught(entries, call, n - 1)
    }
}

/// The list, the hunted keys and what was said last, after calls were logged.
pub open spec fn after_calls(entries: Seq<EntryText>, hunted: Set<Seq<char>>, calls: Seq<Seq<char>>) -> (
    Seq<EntryText>,
    Set<Seq<char>>,
    Option<Seq<char>>,
)
    decreases calls.len(),
{
    if calls.len() == 0 {
        (entries, hunted, None)
    } else {
        let (list, keys, said) = after_calls(entries, hunted, calls.drop_last());
        let call = calls.last();
        let n = list.len() as int;
        (
            after_call(list, call),
            keys.union(caught_keys(list, call, n)),
            match last_caught(list, call, n) {
                Some(t) => Some(t),
                None => said,
            },
        )
    }
}

fn say_caught(e: &SpotEntry) -> (r: String)
    ensures
        r@ == caught_text(e@),
{
    let mut r = "✅ Auto-hunted ".to_owned();
    r.append(e.spot.activator.as_str());
    r.append(" (");
    r.append(e.spot.reference.as_str());
    r.append(")");
    r
}

impl Session {
    /// One call was logged: its spots are marked. Gives what is said of the last one.
    fn process_call(&mut self, state: &mut AppState, call: &str) -> (r: Option<String>)
        ensures
            final(state).entries() == after_call(old(state).entries(), call@),
            final(self).hunted_set@ == old(self).hunted_set@.union(
                caught_keys(old(state).entries(), call@, old(state).entries().len() as int),
            ),
            opt_text(r) == last_caught(old(state).entries(), call@, old(state).entries().len() as int),
            final(self).not_heard_set == old(self).not_heard_set,
            final(self).same_caches(old(self)),
            same_fetch(*final(state), *old(state)),
    {
        let upper = upper_text(call);
        let ghost before = state.entries();
        let ghost keys = self.hunted_set@;
        let mut said: Option<String> = None;
        let mut i: usize = 0;
        proof {
            assert(keys.union(caught_keys(before, call@, 0)) =~= keys);
        }
        while i < state.spots.len()
            invariant
                i <= state.spots@.len(),
                state.spots@.len() == before.len(),
                upper@ == uppercase(call@),
                forall|j: int|
                    0 <= j < i ==> (#[trigger] state.spots@[j])@ == after_call(before, call@)[j],
                forall|j: int| i <= j < before.len() ==> (#[trigger] state.spots@[j])@ == before[j],
                self.hunted_set@ == keys.union(caught_keys(before, call@, i as int)),
                opt_text(said) == last_caught(before, call@, i as int),
                self.not_heard_set == old(self).not_heard_set,
                self.same_caches(old(self)),
                same_fetch(*state, *old(state)),
            decreases state.spots@.len() - i,
        {
            let e = &state.spots[i];
            let activator = upper_text(e.spot.activator.as_str());
            assert(before[i as int] == e@);
            if same_text(activator.as_str(), upper.as_str()) && !e.hunted {
                let key = e.spot_key();
                said = Some(say_caught(e));
                let ghost k = key@;
                let _ = self.hunted_set.insert(key);
                state.spots[i].hunted = true;
                proof {
                    assert(keys.union(caught_keys(before, call@, i + 1)) =~= keys.union(
                        caught_keys(before, call@, i as int),
                    ).insert(k));
                    assert(state.spots@[i as int]@ == after_call(before, call@)[i as int]);
                }
            }
            i += 1;
        }
        proof {
            assert(state.entries() =~= after_call(before, call@));
        }
        said
    }

    /// Calls were logged: their spots are marked as hunted. Gives what is said of the last one.
    pub fn process_logged_calls(&mut self, state: &mut AppState, calls: &Vec<String>) -> (r: Option<String>)
        ensures
            (final(state).entries(), final(self).hunted_set@, opt_text(r)) == after_calls(
                old(state).entries(),
                old(self).hunted_set@,
                texts(calls@),
            ),
            final(self).not_heard_set == old(self).not_heard_set,
            final(self).same_caches(old(self)),
            same_fetch(*final(state), *old(state)),
    {
        let ghost before = state.entries();
        let ghost keys = self.hunted_set@;
        let ghost all = texts(calls@);
        let mut said: Option<String> = None;
        let mut i: usize = 0;
        proof {
            assert(all.take(0).len() == 0);
        }
        while i < calls.len()
            invariant
                i <= calls@.len(),
                all == texts(calls@),
                (state.entries(), self.hunted_set@, opt_text(said)) == after_calls(before, keys, all.take(i as int)),
                self.not_heard_set == old(self).not_heard_set,
                self.same_caches(old(self)),
                same_fetch(*state, *old(state)),
            decreases calls@.len() - i,
        {
            proof {
                let next = all.take(i + 1);
                assert(next.drop_last() =~= all.take(i as int));
                assert(next.last() == calls@[i as int]@);
            }
            if let Some(t) = self.process_call(state, calls[i].as_str()) {
                said = Some(t);
            }
            i += 1;
        }
        proof {
            assert(all.take(all.len() as int) =~= all);
        }
        said
    }
}

/// When calls were logged, exactly those entries are hunted that were so before or belong to one
/// of them; nothing else of an entry has changed; and the key of each entry that was newly marked
/// is among the hunted ones, from which none was taken.
pub proof fn law_logged_calls(entries: Seq<EntryText>, hunted: Set<Seq<char>>, calls: Seq<Seq<char>>, i: int)
    requires
        0 <= i < entries.len(),
    ensures
        ({
            let (list, keys, said) = after_calls(entries, hunted, calls);
            &&& list.len() == entries.len()
            &&& list[i] == with_hunted(entries[i], list[i].hunted)
            &&& list[i].hunted == (entries[i].hunted || exists|c: int|
                0 <= c < calls.len() && uppercase(entries[i].spot.activator) == uppercase(#[trigger] calls[c]))
            &&& list[i].hunted && !entries[i].hunted ==> keys.contains(entries[i].key())
            &&& hunted.subset_of(keys)
        }),
    decreases calls.len(),
{
    if calls.len() > 0 {
        let front = calls.drop_last();
        law_logged_calls(entries, hunted, front, i);
        let (list, keys, said) = after_calls(entries, hunted, front);
        let call = calls.last();
        let e = entries[i];
        if is_caught(list[i], call) {
            lemma_caught(list, call, list.len() as int, i);
            assert(uppercase(e.spot.activator) == uppercase(calls[calls.len() - 1]));
        }
        assert(forall|c: int| 0 <= c < front.len() ==> #[trigger] front[c] == calls[c]);
        if exists|c: int| 0 <= c < front.len() && uppercase(e.spot.activator) == uppercase(#[trigger] front[c]) {
            let c = choose|c: int|
                0 <= c < front.len() && uppercase(e.spot.activator) == uppercase(#[trigger] front[c]);
            assert(calls[c] == front[c]);
        }
        if exists|c: int| 0 <= c < calls.len() && uppercase(e.spot.activator) == uppercase(#[trigger] calls[c]) {
            let c = choose|c: int|
                0 <= c < calls.len() && uppercase(e.spot.activator) == uppercase(#[trigger] calls[c]);
            if c < front.len() {
                assert(front[c] == calls[c]);
            }
        }
    }
}

proof fn lemma_caught(entries: Seq<EntryText>, call: Seq<char>, n: int, i: int)
    requires
        0 <= i < n <= entries.len(),
        is_caught(entries[i], call),
    ensures
        caught_keys(entries, call, n).contains(entries[i].key()),
    decreases n,
{
    if i < n - 1 {
        lemma_caught(entries, call, n - 1, i);
    }
}

/// The marks of the entries are those of their keys.
pub open spec fn in_step(entries: Seq<EntryText>, hunted: Set<Seq<char>>, not_heard: Set<Seq<char>>) -> bool {
    forall|i: int|
        0 <= i < entries.len() ==> (#[trigger] entries[i]).hunted == hunted.contains(entries[i].key())
            && entries[i].not_heard == not_heard.contains(entries[i].key())
}

/// Entries with the same key have the same activator.
pub open spec fn keys_tell_activators(entries: Seq<EntryText>) -> bool {
    forall|i: int, j: int|
        0 <= i < entries.len() && 0 <= j < entries.len() && (#[trigger] entries[i]).key() == (
        #[trigger] entries[j]).key() ==> entries[i].spot.activator == entries[j].spot.activator
}

/// The marks stay in step with the keys when one is toggled, or when a spot was logged.
pub proof fn law_marks_in_step(
    entries: Seq<EntryText>,
    hunted: Set<Seq<char>>,
    not_heard: Set<Seq<char>>,
    key: Seq<char>,
)
    requires
        in_step(entries, hunted, not_heard),
    ensures
        in_step(hunted_by_key(entries, key, !hunted.contains(key)), toggled(hunted, key), not_heard),
        in_step(not_heard_by_key(entries, key, !not_heard.contains(key)), hunted, toggled(not_heard, key)),
        in_step(hunted_by_key(entries, key, true), hunted.insert(key), not_heard),
{
    let a = hunted_by_key(entries, key, !hunted.contains(key));
    assert forall|i: int| 0 <= i < a.len() implies (#[trigger] a[i]).hunted == toggled(hunted, key).contains(a[i].key())
        && a[i].not_heard == not_heard.contains(a[i].key()) by {
        assert(entries[i].key() == a[i].key());
    }
    let b = not_heard_by_key(entries, key, !not_heard.contains(key));
    assert forall|i: int| 0 <= i < b.len() implies (#[trigger] b[i]).hunted == hunted.contains(b[i].key())
        && b[i].not_heard == toggled(not_heard, key).contains(b[i].key()) by {
        assert(entries[i].key() == b[i].key());
    }
    let c = hunted_by_key(entries, key, true);
    assert forall|i: int| 0 <= i < c.len() implies (#[trigger] c[i]).hunted == hunted.insert(key).contains(c[i].key())
        && c[i].not_heard == not_heard.contains(c[i].key()) by {
        assert(entries[i].key() == c[i].key());
    }
}

/// The marks stay in step with the keys when calls were logged, as long as no two activators share a
/// key.
pub proof fn law_logged_in_step(
    entries: Seq<EntryText>,
    hunted: Set<Seq<char>>,
    not_heard: Set<Seq<char>>,
    calls: Seq<Seq<char>>,
)
    requires
        in_step(entries, hunted, not_heard),
        keys_tell_activators(entries),
    ensures
        ({
            let (list, keys, said) = after_calls(entries, hunted, calls);
            in_step(list, keys, not_heard) && keys_tell_activators(list) && list.len() == entries.len()
        }),
    decreases calls.len(),
{
    if calls.len() > 0 {
        law_logged_in_step(entries, hunted, not_heard, calls.drop_last());
        let (list, keys, said) = after_calls(entries, hunted, calls.drop_last());
        let call = calls.last();
        let n = list.len() as int;
        let next = after_call(list, call);
        let more = keys.union(caught_keys(list, call, n));
        assert forall|i: int| 0 <= i < next.len() implies (#[trigger] next[i]).hunted == more.contains(next[i].key())
            && next[i].not_heard == not_heard.contains(next[i].key()) by {
            assert(list[i].key() == next[i].key());
            if is_caught(list[i], call) {
                lemma_caught(list, call, n, i);
            } else if caught_keys(list, call, n).contains(list[i].key()) {
                let j = lemma_caught_by(list, call, n, list[i].key());
                assert(list[j].key() == list[i].key());
            }
        }
        assert forall|i: int, j: int|
            0 <= i < next.len() && 0 <= j < next.len() && (#[trigger] next[i]).key() == (
            #[trigger] next[j]).key() implies next[i].spot.activator == next[j].spot.activator by {
            assert(list[i].key() == next[i].key());
            assert(list[j].key() == next[j].key());
        }
    }
}

proof fn lemma_caught_by(entries: Seq<EntryText>, call: Seq<char>, n: int, key: Seq<char>) -> (j: int)
    requires
        n <= entries.len(),
        caught_keys(entries, call, n).contains(key),
    ensures
        0 <= j < n,
        is_caught(entries[j], call),
        entries[j].key() == key,
    decreases n,
{
    if is_caught(entries[n - 1], call) && entries[n - 1].key() == key {
        n - 1
    } else {
        lemma_caught_by(entries, call, n - 1, key)
    }
}

/// A new list is in step with the keys that it was made with.
pub proof fn law_fetched_in_step(
    spots: Seq<SpotText>,
    spot_type: SpotType,
    hunted: Set<Seq<char>>,
    not_heard: Set<Seq<char>>,
    rest: Seq<EntryText>,
)
    requires
        in_step(rest, hunted, not_heard),
    ensures
        in_step(new_entries(spots, spot_type, hunted, not_heard), hunted, not_heard),
        in_step(rest + new_entries(spots, spot_type, hunted, not_heard), hunted, not_heard),
{
    let more = new_entries(spots, spot_type, hunted, not_heard);
    let all = rest + more;
    assert forall|i: int| 0 <= i < all.len() implies (#[trigger] all[i]).hunted == hunted.contains(all[i].key())
        && all[i].not_heard == not_heard.contains(all[i].key()) by {
        if i < rest.len() {
            assert(all[i] == rest[i]);
        } else {
            assert(all[i] == more[i - rest.len()]);
        }
    }
}

/// Where the marks are in step with the keys, to toggle one twice changes nothing.
pub proof fn law_hunt_twice(
    entries: Seq<EntryText>,
    hunted: Set<Seq<char>>,
    not_heard: Set<Seq<char>>,
    key: Seq<char>,
)
    requires
        in_step(entries, hunted, not_heard),
    ensures
        ({
            let once = hunted_by_key(entries, key, !hunted.contains(key));
            let keys = toggled(hunted, key);
            &&& toggled(keys, key) == hunted
            &&& hunted_by_key(once, key, !keys.contains(key)) == entries
        }),
        ({
            let once = not_heard_by_key(entries, key, !not_heard.contains(key));
            let keys = toggled(not_heard, key);
            &&& toggled(keys, key) == not_heard
            &&& not_heard_by_key(once, key, !keys.contains(key)) == entries
        }),
{
    let once = hunted_by_key(entries, key, !hunted.contains(key));
    let keys = toggled(hunted, key);
    assert(toggled(keys, key) =~= hunted);
    assert forall|i: int| 0 <= i < entries.len() implies hunted_by_key(once, key, !keys.contains(key))[i]
        == entries[i] by {
        assert(once[i].key() == entries[i].key());
    }
    assert(hunted_by_key(once, key, !keys.contains(key)) =~= entries);
    let once = not_heard_by_key(entries, key, !not_heard.contains(key));
    let keys = toggled(not_heard, key);
    assert(toggled(keys, key) =~= not_heard);
    assert forall|i: int| 0 <= i < entries.len() implies not_heard_by_key(once, key, !keys.contains(key))[i]
        == entries[i] by {
        assert(once[i].key() == entries[i].key());
    }
    assert(not_heard_by_key(once, key, !keys.contains(key)) =~= entries);
}

/// The findings of a batch.
pub open spec fn finding_texts(v: Seq<Finding>) -> Seq<FindingText> {
    Seq::new(v.len(), |i: int| v[i]@)
}

/// What the log said, with the findings added.
pub open spec fn atno_after(cache: Map<Seq<char>, Seq<char>>, findings: Seq<FindingText>) -> Map<Seq<char>, Seq<char>>
    decreases findings.len(),
{
    if findings.len() == 0 {
        cache
    } else {
        atno_after(cache, findings.drop_last()).insert(findings.last().cache_key, findings.last().status)
    }
}

/// The countries, with those of the findings added.
pub open spec fn dxcc_after(cache: Map<Seq<char>, Seq<char>>, findings: Seq<FindingText>) -> Map<Seq<char>, Seq<char>>
    decreases findings.len(),
{
    if findings.len() == 0 {
        cache
    } else {
        let front = dxcc_after(cache, findings.drop_last());
        if findings.last().country.len() > 0 {
            front.insert(findings.last().call, findings.last().country)
        } else {
            front
        }
    }
}

/// The key under which the log's word on an entry is kept.
pub open spec fn entry_cache_key(e: EntryText) -> Seq<char> {
    cache_key(e.spot.activator, e.band, uppercase(e.spot.mode))
}

/// The status tells of something new.
pub open spec fn is_new_one(status: Seq<char>) -> bool {
    status == "ATNO"@ || status == "OC"@ || status == "OW"@
}

/// An entry with what the log said of it.
pub open spec fn with_lookup(
    e: EntryText,
    atno: Map<Seq<char>, Seq<char>>,
    dxcc: Map<Seq<char>, Seq<char>>,
) -> EntryText {
    if atno.contains_key(entry_cache_key(e)) {
        EntryText {
            atno_status: Some(atno[entry_cache_key(e)]),
            dxcc_country: if dxcc.contains_key(e.spot.activator) {
                Some(dxcc[e.spot.activator])
            } else {
                e.dxcc_country
            },
            ..e
        }
    } else {
        e
    }
}

/// How many of the first `n` entries are new ones.
pub open spec fn new_ones(entries: Seq<EntryText>, atno: Map<Seq<char>, Seq<char>>, n: int) -> nat
    decreases n,
{
    if n <= 0 {
        0
    } else {
        let e = entries[n - 1];
        new_ones(entries, atno, n - 1) + if atno.contains_key(entry_cache_key(e)) && is_new_one(
            atno[entry_cache_key(e)],
        ) {
            1nat
        } else {
            0nat
        }
    }
}

proof fn lemma_new_ones_bound(entries: Seq<EntryText>, atno: Map<Seq<char>, Seq<char>>, n: int)
    ensures
        n >= 0 ==> new_ones(entries, atno, n) <= n,
        n < 0 ==> new_ones(entries, atno, n) == 0,
    decreases n,
{
    if n > 0 {
        lemma_new_ones_bound(entries, atno, n - 1);
    }
}

/// Whether a status tells of something new.
pub fn new_one(status: &str) -> (r: bool)
    ensures
        r == is_new_one(status@),
{
    same_text(status, "ATNO") || same_text(status, "OC") || same_text(status, "OW")
}

impl Session {
    /// Keeps what the log said.
    fn keep_findings(&mut self, findings: &Vec<Finding>)
        ensures
            map_texts(final(self).atno_cache@) == atno_after(
                map_texts(old(self).atno_cache@),
                finding_texts(findings@),
            ),
            map_texts(final(self).dxcc_cache@) == dxcc_after(
                map_texts(old(self).dxcc_cache@),
                finding_texts(findings@),
            ),
            final(self).hunted_set == old(self).hunted_set,
            final(self).not_heard_set == old(self).not_heard_set,
            final(self).atno_alert_count == old(self).atno_alert_count,
    {
        let ghost all = finding_texts(findings@);
        let mut i: usize = 0;
        proof {
            assert(all.take(0).len() == 0);
        }
        while i < findings.len()
            invariant
                i <= findings@.len(),
                all == finding_texts(findings@),
                map_texts(self.atno_cache@) == atno_after(map_texts(old(self).atno_cache@), all.take(i as int)),
                map_texts(self.dxcc_cache@) == dxcc_after(map_texts(old(self).dxcc_cache@), all.take(i as int)),
                self.hunted_set == old(self).hunted_set,
                self.not_heard_set == old(self).not_heard_set,
                self.atno_alert_count == old(self).atno_alert_count,
            decreases findings@.len() - i,
        {
            let f = &findings[i];
            proof {
                let next = all.take(i + 1);
                assert(next.drop_last() =~= all.take(i as int));
                assert(next.last() == f@);
            }
            if !f.country.as_str().is_empty() {
                let ghost before = self.dxcc_cache@;
                self.dxcc_cache.insert(f.call.clone(), f.country.clone());
                proof {
                    assert(map_texts(self.dxcc_cache@) =~= map_texts(before).insert(f.call@, f.country@));
                }
            }
            let ghost before = self.atno_cache@;
            self.atno_cache.insert(f.cache_key.clone(), f.status.clone());
            proof {
                assert(map_texts(self.atno_cache@) =~= map_texts(before).insert(f.cache_key@, f.status@));
            }
            i += 1;
        }
        proof {
            assert(all.take(all.len() as int) =~= all);
        }
    }

    /// Keeps what the log said, brings it to every entry that it is about, and counts the new ones.
    pub fn apply_dxcc_results(&mut self, state: &mut AppState, findings: &Vec<Finding>)
        ensures
            ({
                let atno = atno_after(map_texts(old(self).atno_cache@), finding_texts(findings@));
                let dxcc = dxcc_after(map_texts(old(self).dxcc_cache@), finding_texts(findings@));
                let before = old(state).entries();
                &&& map_texts(final(self).atno_cache@) == atno
                &&& map_texts(final(self).dxcc_cache@) == dxcc
                &&& final(state).entries() == Seq::new(before.len(), |i: int| with_lookup(before[i], atno, dxcc))
                &&& final(self).atno_alert_count == new_ones(before, atno, before.len() as int)
            }),
            final(self).hunted_set == old(self).hunted_set,
            final(self).not_heard_set == old(self).not_heard_set,
            same_fetch(*final(state), *old(state)),
    {
        self.keep_findings(findings);
        let ghost atno = map_texts(self.atno_cache@);
        let ghost dxcc = map_texts(self.dxcc_cache@);
        let ghost before = state.entries();
        let mut count: usize = 0;
        let mut i: usize = 0;
        let n: usize = state.spots.len();
        while i < n
            invariant
                i <= n,
                n == state.spots@.len(),
                n == before.len(),
                atno == map_texts(self.atno_cache@),
                dxcc == map_texts(self.dxcc_cache@),
                count == new_ones(before, atno, i as int),
                forall|j: int|
                    0 <= j < i ==> (#[trigger] state.spots@[j])@ == with_lookup(before[j], atno, dxcc),
                forall|j: int| i <= j < before.len() ==> (#[trigger] state.spots@[j])@ == before[j],
                same_fetch(*state, *old(state)),
            decreases n - i,
        {
            let e = &state.spots[i];
            assert(before[i as int] == e@);
            let mode = upper_text(e.spot.mode.as_str());
            let key = make_cache_key(e.spot.activator.as_str(), e.band.as_str(), mode.as_str());
            if let Some(status) = self.atno_cache.get(key.as_str()) {
                let text = status.clone();
                let country = match self.dxcc_cache.get(e.spot.activator.as_str()) {
                    Some(c) => Some(c.clone()),
                    None => None,
                };
                proof {
                    lemma_new_ones_bound(before, atno, i as int);
                }
                if new_one(status.as_str()) {
                    count += 1;
                }
                if country.is_some() {
                    state.spots[i].dxcc_country = country;
                }
                state.spots[i].atno_status = Some(text);
            }
            i += 1;
        }
        self.atno_alert_count = count;
        proof {
            assert(state.entries() =~= Seq::new(before.len(), |i: int| with_lookup(before[i], atno, dxcc)));
        }
    }
}

/// The questions that the first `n` entries give rise to: those of which the log was not asked yet,
/// each one once.
pub open spec fn questions(entries: Seq<EntryText>, known: Set<Seq<char>>, n: int) -> Seq<WantedText>
    decreases n,
{
    if n <= 0 {
        Seq::empty()
    } else {
        let front = questions(entries, known, n - 1);
        let e = entries[n - 1];
        if e.atno_status is None && e.spot.activator.len() > 0 && !known.contains(entry_cache_key(e)) && !asked(
            front,
            entry_cache_key(e),
        ) {
            front.push(WantedText { call: e.spot.activator, band: e.band, mode: uppercase(e.spot.mode) })
        } else {
            front
        }
    }
}

/// One of the questions has that key.
pub open spec fn asked(v: Seq<WantedText>, key: Seq<char>) -> bool {
    exists|i: int| 0 <= i < v.len() && (#[trigger] v[i]).key() == key
}

/// The contents of questions.
pub open spec fn wanted_texts(v: Seq<Wanted>) -> Seq<WantedText> {
    Seq::new(v.len(), |i: int| v[i]@)
}

/// The first of the questions, as many as are asked at once.
pub open spec fn first_questions(v: Seq<WantedText>) -> Seq<WantedText> {
    if v.len() > LOOKUP_LIMIT {
        v.take(LOOKUP_LIMIT as int)
    } else {
        v
    }
}

impl Session {
    /// What the log is to be asked next.
    pub fn queue_dxcc_lookups(&self, state: &AppState) -> (r: Vec<Wanted>)
        ensures
            wanted_texts(r@) == first_questions(
                questions(state.entries(), self.atno_cache@.dom(), state.entries().len() as int),
            ),
    {
        let ghost all = state.entries();
        let ghost known = self.atno_cache@.dom();
        let mut pending: Vec<Wanted> = Vec::new();
        let mut seen = KeySet::new();
        let mut i: usize = 0;
        proof {
            assert(wanted_texts(pending@) =~= Seq::<WantedText>::empty());
        }
        while i < state.spots.len()
            invariant
                i <= state.spots@.len(),
                all == state.entries(),
                known == self.atno_cache@.dom(),
                wanted_texts(pending@) == questions(all, known, i as int),
                forall|k: Seq<char>| #[trigger] seen@.contains(k) <==> asked(wanted_texts(pending@), k),
            decreases state.spots@.len() - i,
        {
            let e = &state.spots[i];
            assert(all[i as int] == e@);
            if e.atno_status.is_none() && !e.spot.activator.as_str().is_empty() {
                let call = e.spot.activator.clone();
                let band = e.band.clone();
                let mode = upper_text(e.spot.mode.as_str());
                let key = make_cache_key(call.as_str(), band.as_str(), mode.as_str());
                let ghost k = key@;
                let ghost before = wanted_texts(pending@);
                let ghost seen_before = seen@;
                if !self.atno_cache.contains_key(key.as_str()) {
                    let fresh = seen.insert(key);
                    if fresh {
                        let w = Wanted { call, band, mode };
                        let ghost text = w@;
                        pending.push(w);
                        proof {
                            assert(wanted_texts(pending@) =~= before.push(text));
                            assert(text.key() == k);
                            assert forall|x: Seq<char>| #[trigger] seen@.contains(x) <==> asked(
                                wanted_texts(pending@),
                                x,
                            ) by {
                                let after = wanted_texts(pending@);
                                if asked(before, x) {
                                    let j = choose|j: int| 0 <= j < before.len() && (#[trigger] before[j]).key() == x;
                                    assert(after[j].key() == x);
                                }
                                if asked(after, x) {
                                    let j = choose|j: int| 0 <= j < after.len() && (#[trigger] after[j]).key() == x;
                                    if j < before.len() {
                                        assert(before[j].key() == x);
                                    }
                                }
                                assert(after[before.len() as int].key() == k);
                                assert(seen_before.contains(x) <==> asked(before, x));
                            }
                        }
                    } else {
                        proof {
                            assert(seen@ =~= seen_before);
                        }
                    }
                }
            }
            i += 1;
        }
        if pending.len() > LOOKUP_LIMIT {
            let ghost whole = pending@;
            pending.truncate(LOOKUP_LIMIT);
            proof {
                assert(wanted_texts(pending@) =~= wanted_texts(whole).take(LOOKUP_LIMIT as int));
            }
        }
        pending
    }
}

/// No question is asked twice in a batch, and none to which the answer is known.
pub proof fn law_questions_fresh(entries: Seq<EntryText>, known: Set<Seq<char>>, n: int)
    requires
        0 <= n <= entries.len(),
    ensures
        ({
            let v = questions(entries, known, n);
            &&& forall|i: int| 0 <= i < v.len() ==> !known.contains((#[trigger] v[i]).key())
            &&& forall|i: int, j: int|
                0 <= i < j < v.len() ==> (#[trigger] v[i]).key() != (#[trigger] v[j]).key()
        }),
    decreases n,
{
    if n > 0 {
        law_questions_fresh(entries, known, n - 1);
        let front = questions(entries, known, n - 1);
        let v = questions(entries, known, n);
        assert forall|i: int, j: int|
            0 <= i < j < v.len() implies (#[trigger] v[i]).key() != (#[trigger] v[j]).key() by {
            assert(v[i] == front[i]);
            if j < front.len() {
                assert(v[j] == front[j]);
            } else {
                assert(!asked(front, v[j].key()));
            }
        }
        assert forall|i: int| 0 <= i < v.len() implies !known.contains((#[trigger] v[i]).key()) by {
            if i < front.len() {
                assert(v[i] == front[i]);
            }
        }
    }
}

/// What the log said leaves the marks in step with the keys.
pub proof fn law_lookups_in_step(
    entries: Seq<EntryText>,
    hunted: Set<Seq<char>>,
    not_heard: Set<Seq<char>>,
    atno: Map<Seq<char>, Seq<char>>,
    dxcc: Map<Seq<char>, Seq<char>>,
)
    requires
        in_step(entries, hunted, not_heard),
    ensures
        in_step(Seq::new(entries.len(), |i: int| with_lookup(entries[i], atno, dxcc)), hunted, not_heard),
{
    let after = Seq::new(entries.len(), |i: int| with_lookup(entries[i], atno, dxcc));
    assert forall|i: int| 0 <= i < after.len() implies (#[trigger] after[i]).hunted == hunted.contains(after[i].key())
        && after[i].not_heard == not_heard.contains(after[i].key()) by {
        assert(entries[i].key() == after[i].key());
    }
}

/// When everything is forgotten, no mark is left, and the marks are in step with the keys.
pub proof fn law_cleared_in_step(entries: Seq<EntryText>)
    ensures
        in_step(
            Seq::new(entries.len(), |i: int| with_not_heard(with_hunted(entries[i], false), false)),
            Set::empty(),
            Set::empty(),
        ),
{
}

/// What the log said of a call on a band in a mode reaches every entry that it is about, wherever
/// it stands and whenever it came, and is not asked for again.
pub proof fn law_known_is_not_asked(
    entries: Seq<EntryText>,
    atno: Map<Seq<char>, Seq<char>>,
    dxcc: Map<Seq<char>, Seq<char>>,
    i: int,
)
    requires
        0 <= i < entries.len(),
        atno.contains_key(entry_cache_key(entries[i])),
    ensures
        with_lookup(entries[i], atno, dxcc).atno_status == Some(atno[entry_cache_key(entries[i])]),
        !asked(questions(entries, atno.dom(), entries.len() as int), entry_cache_key(entries[i])),
{
    law_questions_fresh(entries, atno.dom(), entries.len() as int);
}

} // verus!
