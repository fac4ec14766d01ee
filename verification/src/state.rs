//! The list of spots and how it is brought up to date.
use crate::band::{band_of_text, freq_to_band, location_to_country};
use crate::keyset::KeySet;
use crate::spot::{
    key_of, make_spot_key, opt_text, or_empty, spot_texts, text_or_empty, EntryText, PotaSpot,
    SotaSpot, SpotEntry, SpotText, SpotType, WwffSpot,
};
use crate::text::{before, contains, has_text, upper_text, uppercase};
use vstd::prelude::*;

verus! {

/// The spots, and what is known of the last fetch.
pub struct AppState {
    pub spots: Vec<SpotEntry>,
    /// When the last fetch ended, in nanoseconds since a fixed start.
    pub last_fetch: Option<u64>,
    pub fetch_error: Option<String>,
    pub is_fetching: bool,
}

/// The contents of entries.
pub open spec fn entry_texts(v: Seq<SpotEntry>) -> Seq<EntryText> {
    Seq::new(v.len(), |i: int| v[i]@)
}

/// A spot as it enters the list.
pub open spec fn new_entry(
    spot: SpotText,
    spot_type: SpotType,
    hunted: Set<Seq<char>>,
    not_heard: Set<Seq<char>>,
) -> EntryText {
    let key = key_of(spot_type, spot.activator, spot.reference);
    EntryText {
        spot,
        spot_type,
        band: band_of_text(spot.frequency),
        country: if spot_type is Dx {
            Seq::empty()
        } else {
            before(text_or_empty(spot.location_desc), '-')
        },
        hunted: hunted.contains(key),
        is_qrt: contains(uppercase(text_or_empty(spot.comments)), "QRT"@),
        not_heard: not_heard.contains(key),
        dxcc_country: None,
        atno_status: None,
    }
}

/// Spots as they enter the list.
pub open spec fn new_entries(
    spots: Seq<SpotText>,
    spot_type: SpotType,
    hunted: Set<Seq<char>>,
    not_heard: Set<Seq<char>>,
) -> Seq<EntryText> {
    Seq::new(spots.len(), |i: int| new_entry(spots[i], spot_type, hunted, not_heard))
}

/// The spots of a source in the common form; none where it failed.
pub open spec fn pota_part(r: Result<Vec<PotaSpot>, String>) -> Seq<SpotText> {
    match r {
        Ok(v) => spot_texts(v@),
        Err(_) => Seq::empty(),
    }
}

pub open spec fn sota_part(r: Result<Vec<SotaSpot>, String>) -> Seq<SpotText> {
    match r {
        Ok(v) => Seq::new(v@.len(), |i: int| v@[i].as_spot()),
        Err(_) => Seq::empty(),
    }
}

pub open spec fn wwff_part(r: Result<Vec<WwffSpot>, String>) -> Seq<SpotText> {
    match r {
        Ok(v) => Seq::new(v@.len(), |i: int| v@[i].as_spot()),
        Err(_) => Seq::empty(),
    }
}

/// The error of a source added to those before it.
pub open spec fn add_error(before: Option<Seq<char>>, label: Seq<char>, error: Option<Seq<char>>) -> Option<Seq<char>> {
    match (before, error) {
        (_, None) => before,
        (None, Some(e)) => Some(label + ": "@ + e),
        (Some(b), Some(e)) => Some(b + " | "@ + label + ": "@ + e),
    }
}

/// The error of a result.
pub open spec fn error_of<T>(r: Result<T, String>) -> Option<Seq<char>> {
    match r {
        Ok(_) => None,
        Err(e) => Some(e@),
    }
}

fn make_entry(spot: PotaSpot, spot_type: SpotType, hunted: &KeySet, not_heard: &KeySet) -> (r: SpotEntry)
    ensures
        r@ == new_entry(spot@, spot_type, hunted@, not_heard@),
{
    let band = freq_to_band(spot.frequency.as_str());
    let key = make_spot_key(spot_type, spot.activator.as_str(), spot.reference.as_str());
    let hunted_flag = hunted.contains(key.as_str());
    let not_heard_flag = not_heard.contains(key.as_str());
    let country = if spot_type == SpotType::Dx {
        let empty = String::new();
        proof {
            assert(empty@ =~= Seq::<char>::empty());
        }
        empty
    } else {
        location_to_country(or_empty(&spot.location_desc))
    };
    let upper = upper_text(or_empty(&spot.comments));
    let is_qrt = has_text(upper.as_str(), "QRT");
    SpotEntry {
        spot,
        spot_type,
        band,
        country,
        hunted: hunted_flag,
        is_qrt,
        not_heard: not_heard_flag,
        dxcc_country: None,
        atno_status: None,
    }
}

fn add_entries(
    all: &mut Vec<SpotEntry>,
    spots: &Vec<PotaSpot>,
    spot_type: SpotType,
    hunted: &KeySet,
    not_heard: &KeySet,
)
    ensures
        entry_texts(final(all)@) == entry_texts(old(all)@) + new_entries(
            spot_texts(spots@),
            spot_type,
            hunted@,
            not_heard@,
        ),
{
    let ghost start = entry_texts(all@);
    let ghost added = new_entries(spot_texts(spots@), spot_type, hunted@, not_heard@);
    let mut i: usize = 0;
    proof {
        assert(start + added.take(0) =~= start);
    }
    while i < spots.len()
        invariant
            i <= spots@.len(),
            added == new_entries(spot_texts(spots@), spot_type, hunted@, not_heard@),
            entry_texts(all@) == start + added.take(i as int),
        decreases spots@.len() - i,
    {
        let ghost before = all@;
        let entry = make_entry(spots[i].clone(), spot_type, hunted, not_heard);
        all.push(entry);
        proof {
            assert(entry@ == added[i as int]);
            assert(entry_texts(all@) =~= entry_texts(before).push(entry@));
            assert(start + added.take(i + 1) =~= (start + added.take(i as int)).push(added[i as int]));
        }
        i += 1;
    }
    proof {
        assert(added.take(added.len() as int) =~= added);
    }
}

fn sota_in_common_form(v: &Vec<SotaSpot>) -> (r: Vec<PotaSpot>)
    ensures
        spot_texts(r@) == Seq::new(v@.len(), |i: int| v@[i].as_spot()),
{
    let mut r: Vec<PotaSpot> = Vec::new();
    let mut i: usize = 0;
    while i < v.len()
        invariant
            i <= v@.len(),
            r@.len() == i,
            forall|j: int| 0 <= j < i ==> (#[trigger] r@[j])@ == v@[j].as_spot(),
        decreases v@.len() - i,
    {
        r.push(v[i].to_pota_spot());
        i += 1;
    }
    proof {
        assert(spot_texts(r@) =~= Seq::new(v@.len(), |i: int| v@[i].as_spot()));
    }
    r
}

fn wwff_in_common_form(v: &Vec<WwffSpot>) -> (r: Vec<PotaSpot>)
    requires
        forall|i: int| 0 <= i < v@.len() ==> (#[trigger] v@[i]).frequency_khz.wf(),
    ensures
        spot_texts(r@) == Seq::new(v@.len(), |i: int| v@[i].as_spot()),
{
    let mut r: Vec<PotaSpot> = Vec::new();
    let mut i: usize = 0;
    while i < v.len()
        invariant
            forall|i: int| 0 <= i < v@.len() ==> (#[trigger] v@[i]).frequency_khz.wf(),
            i <= v@.len(),
            r@.len() == i,
            forall|j: int| 0 <= j < i ==> (#[trigger] r@[j])@ == v@[j].as_spot(),
        decreases v@.len() - i,
    {
        r.push(v[i].to_pota_spot());
        i += 1;
    }
    proof {
        assert(spot_texts(r@) =~= Seq::new(v@.len(), |i: int| v@[i].as_spot()));
    }
    r
}

fn note_error(before: Option<String>, label: &str, error: &String) -> (r: Option<String>)
    ensures
        opt_text(r) == add_error(opt_text(before), label@, Some(error@)),
{
    let mut text = match before {
        Some(mut b) => {
            b.append(" | ");
            b.append(label);
            b
        },
        None => label.to_owned(),
    };
    text.append(": ");
    text.append(error.as_str());
    Some(text)
}

impl AppState {
    pub fn new() -> (r: AppState)
        ensures
            r.spots@.len() == 0,
            r.last_fetch is None,
            r.fetch_error is None,
            !r.is_fetching,
    {
        AppState { spots: Vec::new(), last_fetch: None, fetch_error: None, is_fetching: false }
    }

    /// The contents of the list.
    pub open spec fn entries(&self) -> Seq<EntryText> {
        entry_texts(self.spots@)
    }

    /// Starts a fetch, unless one is under way. Tells whether one was started.
    pub fn trigger_fetch(&mut self) -> (r: bool)
        ensures
            r == !old(self).is_fetching,
            final(self).is_fetching,
            final(self).spots == old(self).spots,
            final(self).last_fetch == old(self).last_fetch,
            final(self).fetch_error == if old(self).is_fetching {
                old(self).fetch_error
            } else {
                None
            },
    {
        if self.is_fetching {
            return false;
        }
        self.is_fetching = true;
        self.fetch_error = None;
        true
    }

    /// Ends a fetch at the moment `now`: the new list holds the spots of every source that answered,
    /// POTA first, then SOTA, WWFF and the DX cluster. The errors of the others are noted, unless
    /// there are any spots.
    pub fn finish_fetch(
        &mut self,
        pota: Result<Vec<PotaSpot>, String>,
        sota: Result<Vec<SotaSpot>, String>,
        wwff: Result<Vec<WwffSpot>, String>,
        dx: Vec<PotaSpot>,
        hunted: &KeySet,
        not_heard: &KeySet,
        now: u64,
    )
        requires
            wwff matches Ok(v) ==> forall|i: int| 0 <= i < v@.len() ==> (#[trigger] v@[i]).frequency_khz.wf(),
        ensures
            !final(self).is_fetching,
            final(self).last_fetch == Some(now),
            final(self).entries() == new_entries(pota_part(pota), SpotType::Pota, hunted@, not_heard@) + new_entries(
                sota_part(sota),
                SpotType::Sota,
                hunted@,
                not_heard@,
            ) + new_entries(wwff_part(wwff), SpotType::Wwff, hunted@, not_heard@) + new_entries(
                spot_texts(dx@),
                SpotType::Dx,
                hunted@,
                not_heard@,
            ),
            final(self).entries().len() == pota_part(pota).len() + sota_part(sota).len() + wwff_part(wwff).len()
                + dx@.len(),
            forall|i: int|
                0 <= i < final(self).entries().len() ==> {
                    let e = #[trigger] final(self).entries()[i];
                    &&& e.is_qrt <==> contains(uppercase(text_or_empty(e.spot.comments)), "QRT"@)
                    &&& e.band == band_of_text(e.spot.frequency)
                    &&& e.hunted <==> hunted@.contains(e.key())
                    &&& e.not_heard <==> not_heard@.contains(e.key())
                },
            opt_text(final(self).fetch_error) == if final(self).entries().len() > 0 {
                None
            } else {
                let first = match pota {
                    Ok(_) => opt_text(old(self).fetch_error),
                    Err(e) => Some("POTA"@ + ": "@ + e@),
                };
                add_error(add_error(first, "SOTA"@, error_of(sota)), "WWFF"@, error_of(wwff))
            },
    {
        self.is_fetching = false;
        self.last_fetch = Some(now);
        let mut all: Vec<SpotEntry> = Vec::new();
        let mut error = match &self.fetch_error {
            Some(e) => Some(e.clone()),
            None => None,
        };
        let ghost none = Seq::<SpotText>::empty();
        proof {
            assert(entry_texts(all@) =~= Seq::<EntryText>::empty());
            assert(new_entries(none, SpotType::Pota, hunted@, not_heard@) =~= Seq::<EntryText>::empty());
            assert(new_entries(none, SpotType::Sota, hunted@, not_heard@) =~= Seq::<EntryText>::empty());
            assert(new_entries(none, SpotType::Wwff, hunted@, not_heard@) =~= Seq::<EntryText>::empty());
        }
        let ghost first_part = new_entries(pota_part(pota), SpotType::Pota, hunted@, not_heard@);
        match &pota {
            Ok(spots) => {
                add_entries(&mut all, spots, SpotType::Pota, hunted, not_heard);
            },
            Err(e) => {
                error = note_error(None, "POTA", e);
            },
        }
        proof {
            assert(entry_texts(all@) =~= first_part);
        }
        let ghost second_part = new_entries(sota_part(sota), SpotType::Sota, hunted@, not_heard@);
        match &sota {
            Ok(spots) => {
                let common = sota_in_common_form(spots);
                add_entries(&mut all, &common, SpotType::Sota, hunted, not_heard);
            },
            Err(e) => {
                error = note_error(error, "SOTA", e);
            },
        }
        proof {
            assert(entry_texts(all@) =~= first_part + second_part);
        }
        let ghost third_part = new_entries(wwff_part(wwff), SpotType::Wwff, hunted@, not_heard@);
        match &wwff {
            Ok(spots) => {
                let common = wwff_in_common_form(spots);
                add_entries(&mut all, &common, SpotType::Wwff, hunted, not_heard);
            },
            Err(e) => {
                error = note_error(error, "WWFF", e);
            },
        }
        proof {
            assert(entry_texts(all@) =~= first_part + second_part + third_part);
        }
        add_entries(&mut all, &dx, SpotType::Dx, hunted, not_heard);
        self.spots = all;
        proof {
            let fourth_part = new_entries(spot_texts(dx@), SpotType::Dx, hunted@, not_heard@);
            let list = self.entries();
            assert(list == first_part + second_part + third_part + fourth_part);
            let a = first_part.len();
            let b = a + second_part.len();
            let c = b + third_part.len();
            assert forall|i: int| 0 <= i < list.len() implies {
                let e = #[trigger] list[i];
                &&& e.is_qrt <==> contains(uppercase(text_or_empty(e.spot.comments)), "QRT"@)
                &&& e.band == band_of_text(e.spot.frequency)
                &&& e.hunted <==> hunted@.contains(e.key())
                &&& e.not_heard <==> not_heard@.contains(e.key())
            } by {
                if i < a {
                    assert(list[i] == first_part[i]);
                } else if i < b {
                    assert(list[i] == second_part[i - a]);
                } else if i < c {
                    assert(list[i] == third_part[i - b]);
                } else {
                    assert(list[i] == fourth_part[i - c]);
                }
            }
        }
        if self.spots.len() > 0 {
            error = None;
        }
        self.fetch_error = error;
    }
}

} // verus!
