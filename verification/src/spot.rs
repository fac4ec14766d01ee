//! Spots: who is on the air, where, and on which frequency.
use crate::number::Number;
use crate::reading::{number_of, read_number};
use crate::text::{
    before, chars_of, find_either, index_of, lemma_index_at, string_of, text_before, trim, trimmed,
};
use vstd::prelude::*;

verus! {

/// The text of an optional string.
pub open spec fn opt_text(o: Option<String>) -> Option<Seq<char>> {
    match o {
        Some(s) => Some(s@),
        None => None,
    }
}

/// A spot in the form that all sources are brought to; the frequency is in kilohertz.
pub struct PotaSpot {
    pub spot_id: Option<u64>,
    pub activator: String,
    pub frequency: String,
    pub mode: String,
    pub reference: String,
    pub park_name: Option<String>,
    pub spot_time: Option<String>,
    pub spotter: Option<String>,
    pub comments: Option<String>,
    pub source: Option<String>,
    pub name: Option<String>,
    pub location_desc: Option<String>,
    pub grid4: Option<String>,
    pub grid6: Option<String>,
}

/// The contents of a [`PotaSpot`].
#[verifier::ext_equal]
pub struct SpotText {
    pub spot_id: Option<u64>,
    pub activator: Seq<char>,
    pub frequency: Seq<char>,
    pub mode: Seq<char>,
    pub reference: Seq<char>,
    pub park_name: Option<Seq<char>>,
    pub spot_time: Option<Seq<char>>,
    pub spotter: Option<Seq<char>>,
    pub comments: Option<Seq<char>>,
    pub source: Option<Seq<char>>,
    pub name: Option<Seq<char>>,
    pub location_desc: Option<Seq<char>>,
    pub grid4: Option<Seq<char>>,
    pub grid6: Option<Seq<char>>,
}

impl View for PotaSpot {
    type V = SpotText;

    open spec fn view(&self) -> SpotText {
        SpotText {
            spot_id: self.spot_id,
            activator: self.activator@,
            frequency: self.frequency@,
            mode: self.mode@,
            reference: self.reference@,
            park_name: opt_text(self.park_name),
            spot_time: opt_text(self.spot_time),
            spotter: opt_text(self.spotter),
            comments: opt_text(self.comments),
            source: opt_text(self.source),
            name: opt_text(self.name),
            location_desc: opt_text(self.location_desc),
            grid4: opt_text(self.grid4),
            grid6: opt_text(self.grid6),
        }
    }
}

/// The contents of spots.
pub open spec fn spot_texts(v: Seq<PotaSpot>) -> Seq<SpotText> {
    Seq::new(v.len(), |i: int| v[i]@)
}

fn copy_text(o: &Option<String>) -> (r: Option<String>)
    ensures
        r == *o,
{
    match o {
        Some(s) => Some(s.clone()),
        None => None,
    }
}

/// The text of an optional string, or no text at all.
pub open spec fn text_or_empty(o: Option<Seq<char>>) -> Seq<char> {
    match o {
        Some(s) => s,
        None => Seq::empty(),
    }
}

pub fn or_empty(o: &Option<String>) -> (r: &str)
    ensures
        r@ == text_or_empty(opt_text(*o)),
{
    match o {
        Some(s) => s.as_str(),
        None => {
            proof {
                reveal_strlit("");
            }
            assert(""@ =~= Seq::<char>::empty());
            ""
        },
    }
}

impl Clone for PotaSpot {
    fn clone(&self) -> (r: Self)
        ensures
            r == *self,
    {
        PotaSpot {
            spot_id: self.spot_id,
            activator: self.activator.clone(),
            frequency: self.frequency.clone(),
            mode: self.mode.clone(),
            reference: self.reference.clone(),
            park_name: copy_text(&self.park_name),
            spot_time: copy_text(&self.spot_time),
            spotter: copy_text(&self.spotter),
            comments: copy_text(&self.comments),
            source: copy_text(&self.source),
            name: copy_text(&self.name),
            location_desc: copy_text(&self.location_desc),
            grid4: copy_text(&self.grid4),
            grid6: copy_text(&self.grid6),
        }
    }
}

impl SpotText {
    /// The park name to show: the park's name, else the name, else the reference, else a dash.
    pub open spec fn park(self) -> Seq<char> {
        if trim(text_or_empty(self.park_name)).len() > 0 {
            trim(text_or_empty(self.park_name))
        } else if trim(text_or_empty(self.name)).len() > 0 {
            trim(text_or_empty(self.name))
        } else if self.reference.len() > 0 {
            self.reference
        } else {
            "-"@
        }
    }
}

impl PotaSpot {
    /// The best park name that there is.
    pub fn display_park_name(&self) -> (r: &str)
        ensures
            r@ == self@.park(),
    {
        proof {
            assert(trim(Seq::<char>::empty()).len() == 0);
        }
        if let Some(pn) = &self.park_name {
            let t = trimmed(pn.as_str());
            if !t.is_empty() {
                return t;
            }
        }
        if let Some(n) = &self.name {
            let t = trimmed(n.as_str());
            if !t.is_empty() {
                return t;
            }
        }
        if !self.reference.as_str().is_empty() {
            return self.reference.as_str();
        }
        "-"
    }
}

/// A spot of Summits on the Air; the frequency is in megahertz.
pub struct SotaSpot {
    pub activator_callsign: String,
    pub frequency: String,
    pub mode: String,
    pub summit_code: String,
    pub summit_details: Option<String>,
    pub time_stamp: Option<String>,
    pub comments: Option<String>,
    pub callsign: Option<String>,
}

/// A frequency in megahertz, written in kilohertz with one decimal; a text that is no number, or
/// a number from a thousand on, stays as it is.
pub open spec fn khz_text(s: Seq<char>) -> Seq<char> {
    match number_of(s) {
        Some(n) => if n.below(1000) {
            n.thousandfold().fixed(1)
        } else {
            s
        },
        None => s,
    }
}

impl SotaSpot {
    /// The spot in the common form.
    pub open spec fn as_spot(&self) -> SpotText {
        SpotText {
            spot_id: None,
            activator: self.activator_callsign@,
            frequency: khz_text(self.frequency@),
            mode: self.mode@,
            reference: self.summit_code@,
            park_name: opt_text(self.summit_details),
            spot_time: opt_text(self.time_stamp),
            spotter: opt_text(self.callsign),
            comments: opt_text(self.comments),
            source: Some("SOTA"@),
            name: opt_text(self.summit_details),
            location_desc: Some(before(self.summit_code@, '/')),
            grid4: None,
            grid6: None,
        }
    }

    pub fn to_pota_spot(&self) -> (r: PotaSpot)
        ensures
            r@ == self.as_spot(),
    {
        let freq_khz = match read_number(self.frequency.as_str()) {
            Some(n) => if n.is_below(1000) {
                n.times_thousand().fixed_text(1)
            } else {
                self.frequency.clone()
            },
            None => self.frequency.clone(),
        };
        let loc = text_before(self.summit_code.as_str(), '/');
        PotaSpot {
            spot_id: None,
            activator: self.activator_callsign.clone(),
            frequency: freq_khz,
            mode: self.mode.clone(),
            reference: self.summit_code.clone(),
            park_name: copy_text(&self.summit_details),
            spot_time: copy_text(&self.time_stamp),
            spotter: copy_text(&self.callsign),
            comments: copy_text(&self.comments),
            source: Some("SOTA".to_owned()),
            name: copy_text(&self.summit_details),
            location_desc: Some(loc),
            grid4: None,
            grid6: None,
        }
    }
}

/// A spot of World Wide Flora and Fauna; the frequency is in kilohertz.
pub struct WwffSpot {
    pub id: Option<u64>,
    pub activator: String,
    pub frequency_khz: Number,
    pub mode: String,
    pub reference: String,
    pub reference_name: String,
    pub remarks: String,
    pub spotter: String,
    pub spot_time_formatted: Option<String>,
}

/// The first space of a time becomes the `T` between date and time of day.
pub open spec fn with_t(s: Seq<char>) -> Seq<char> {
    if index_of(s, ' ') < s.len() {
        s.update(index_of(s, ' '), 'T')
    } else {
        s
    }
}

fn time_with_t(s: &str) -> (r: String)
    ensures
        r@ == with_t(s@),
{
    let mut v = chars_of(s);
    let n = v.len();
    let i = find_either(&v, 0, n, ' ', ' ');
    proof {
        assert(v@.subrange(0, n as int) =~= v@);
    }
    if i < n {
        v.set(i, 'T');
    }
    proof {
        assert(v@.subrange(0, n as int) =~= v@);
    }
    string_of(&v, 0, n)
}

/// A text, if there is any.
pub open spec fn non_empty(s: Seq<char>) -> Option<Seq<char>> {
    if s.len() == 0 {
        None
    } else {
        Some(s)
    }
}

pub fn if_any(s: &String) -> (r: Option<String>)
    ensures
        opt_text(r) == non_empty(s@),
{
    if s.as_str().is_empty() {
        None
    } else {
        Some(s.clone())
    }
}

impl WwffSpot {
    /// The spot in the common form.
    pub open spec fn as_spot(&self) -> SpotText {
        SpotText {
            spot_id: self.id,
            activator: self.activator@,
            frequency: self.frequency_khz.fixed(1),
            mode: self.mode@,
            reference: self.reference@,
            park_name: Some(self.reference_name@),
            spot_time: match self.spot_time_formatted {
                Some(t) => Some(with_t(t@)),
                None => None,
            },
            spotter: non_empty(self.spotter@),
            comments: non_empty(self.remarks@),
            source: Some("WWFF"@),
            name: Some(self.reference_name@),
            location_desc: Some(before(self.reference@, '-')),
            grid4: None,
            grid6: None,
        }
    }

    pub fn to_pota_spot(&self) -> (r: PotaSpot)
        requires
            self.frequency_khz.wf(),
        ensures
            r@ == self.as_spot(),
    {
        let spot_time = match &self.spot_time_formatted {
            Some(t) => Some(time_with_t(t.as_str())),
            None => None,
        };
        PotaSpot {
            spot_id: self.id,
            activator: self.activator.clone(),
            frequency: self.frequency_khz.fixed_text(1),
            mode: self.mode.clone(),
            reference: self.reference.clone(),
            park_name: Some(self.reference_name.clone()),
            spot_time,
            spotter: if_any(&self.spotter),
            comments: if_any(&self.remarks),
            source: Some("WWFF".to_owned()),
            name: Some(self.reference_name.clone()),
            location_desc: Some(text_before(self.reference.as_str(), '-')),
            grid4: None,
            grid6: None,
        }
    }
}

/// Where a spot comes from.
#[derive(Debug, Clone, Copy, PartialEq, Eq, Hash, Structural)]
pub enum SpotType {
    Pota,
    Sota,
    Dx,
    Wwff,
}

impl SpotType {
    pub open spec fn name(self) -> Seq<char> {
        match self {
            SpotType::Pota => "POTA"@,
            SpotType::Sota => "SOTA"@,
            SpotType::Dx => "DX"@,
            SpotType::Wwff => "WWFF"@,
        }
    }

    pub fn label(&self) -> (r: &'static str)
        ensures
            r@ == self.name(),
    {
        match self {
            SpotType::Pota => "POTA",
            SpotType::Sota => "SOTA",
            SpotType::Dx => "DX",
            SpotType::Wwff => "WWFF",
        }
    }
}

/// A spot with what is known of it.
pub struct SpotEntry {
    pub spot: PotaSpot,
    pub spot_type: SpotType,
    pub band: String,
    pub country: String,
    pub hunted: bool,
    pub is_qrt: bool,
    pub not_heard: bool,
    pub dxcc_country: Option<String>,
    /// What the log says of the country: `ATNO`, `OW`, `OC`, `OWBMW`, `OCBMW` or `BMC`.
    pub atno_status: Option<String>,
}

/// The contents of a [`SpotEntry`].
#[verifier::ext_equal]
pub struct EntryText {
    pub spot: SpotText,
    pub spot_type: SpotType,
    pub band: Seq<char>,
    pub country: Seq<char>,
    pub hunted: bool,
    pub is_qrt: bool,
    pub not_heard: bool,
    pub dxcc_country: Option<Seq<char>>,
    pub atno_status: Option<Seq<char>>,
}

impl View for SpotEntry {
    type V = EntryText;

    open spec fn view(&self) -> EntryText {
        EntryText {
            spot: self.spot@,
            spot_type: self.spot_type,
            band: self.band@,
            country: self.country@,
            hunted: self.hunted,
            is_qrt: self.is_qrt,
            not_heard: self.not_heard,
            dxcc_country: opt_text(self.dxcc_country),
            atno_status: opt_text(self.atno_status),
        }
    }
}

impl Clone for SpotEntry {
    fn clone(&self) -> (r: Self)
        ensures
            r == *self,
    {
        SpotEntry {
            spot: self.spot.clone(),
            spot_type: self.spot_type,
            band: self.band.clone(),
            country: self.country.clone(),
            hunted: self.hunted,
            is_qrt: self.is_qrt,
            not_heard: self.not_heard,
            dxcc_country: copy_text(&self.dxcc_country),
            atno_status: copy_text(&self.atno_status),
        }
    }
}

/// The key by which a spot is tracked: the activator and the reference; for the DX cluster, which
/// has no references, the activator alone.
pub open spec fn key_of(spot_type: SpotType, activator: Seq<char>, reference: Seq<char>) -> Seq<char> {
    match spot_type {
        SpotType::Dx => "DX-"@ + activator,
        _ => activator + "-"@ + reference,
    }
}

impl EntryText {
    pub open spec fn key(self) -> Seq<char> {
        key_of(self.spot_type, self.spot.activator, self.spot.reference)
    }
}

/// The key of a spot.
pub fn make_spot_key(spot_type: SpotType, activator: &str, reference: &str) -> (r: String)
    ensures
        r@ == key_of(spot_type, activator@, reference@),
{
    match spot_type {
        SpotType::Dx => {
            let mut key = "DX-".to_owned();
            key.append(activator);
            key
        },
        _ => {
            let mut key = activator.to_owned();
            key.append("-");
            key.append(reference);
            key
        },
    }
}

impl SpotEntry {
    pub fn spot_key(&self) -> (r: String)
        ensures
            r@ == self@.key(),
    {
        make_spot_key(self.spot_type, self.spot.activator.as_str(), self.spot.reference.as_str())
    }
}

/// One activator at two references is two spots; on the DX cluster it is one.
pub proof fn law_key_tells_references_apart(spot_type: SpotType, activator: Seq<char>, a: Seq<char>, b: Seq<char>)
    ensures
        spot_type is Dx ==> key_of(spot_type, activator, a) == key_of(spot_type, activator, b),
        spot_type !is Dx && a != b ==> key_of(spot_type, activator, a) != key_of(spot_type, activator, b),
{
    if spot_type !is Dx {
        let front = activator + "-"@;
        let p = key_of(spot_type, activator, a);
        let q = key_of(spot_type, activator, b);
        assert(p.skip(front.len() as int) =~= a);
        assert(q.skip(front.len() as int) =~= b);
    }
}

/// Two activators on the DX cluster are two spots, and so are two activators at one reference.
pub proof fn law_key_tells_activators_apart(spot_type: SpotType, a: Seq<char>, b: Seq<char>, reference: Seq<char>)
    requires
        a != b,
    ensures
        key_of(spot_type, a, reference) != key_of(spot_type, b, reference),
{
    let p = key_of(spot_type, a, reference);
    let q = key_of(spot_type, b, reference);
    if spot_type is Dx {
        let front = "DX-"@;
        assert(p.skip(front.len() as int) =~= a);
        assert(q.skip(front.len() as int) =~= b);
    } else {
        let tail = "-"@ + reference;
        assert(p =~= a + tail);
        assert(q =~= b + tail);
        assert(p.take(p.len() - tail.len()) =~= a);
        assert(q.take(q.len() - tail.len()) =~= b);
    }
}

/// Away from the DX cluster, a key tells both the activator and the reference, as long as no
/// activator holds a hyphen.
pub proof fn law_key_identifies(
    one: SpotType,
    other: SpotType,
    a: Seq<char>,
    b: Seq<char>,
    r: Seq<char>,
    s: Seq<char>,
)
    requires
        one !is Dx,
        other !is Dx,
        !a.contains('-'),
        !b.contains('-'),
        key_of(one, a, r) == key_of(other, b, s),
    ensures
        a == b,
        r == s,
{
    reveal_strlit("-");
    let k = key_of(one, a, r);
    assert forall|j: int| 0 <= j < a.len() implies k[j] != '-' by {
        assert(k[j] == a[j]);
        assert(a.contains(a[j]));
    }
    assert(k[a.len() as int] == '-');
    lemma_index_at(k, '-', '-', a.len() as int);
    let l = key_of(other, b, s);
    assert forall|j: int| 0 <= j < b.len() implies l[j] != '-' by {
        assert(l[j] == b[j]);
        assert(b.contains(b[j]));
    }
    assert(l[b.len() as int] == '-');
    lemma_index_at(l, '-', '-', b.len() as int);
    assert(k.take(a.len() as int) =~= a);
    assert(l.take(b.len() as int) =~= b);
    assert(k.skip(a.len() as int + 1) =~= r);
    assert(l.skip(b.len() as int + 1) =~= s);
}

} // verus!
