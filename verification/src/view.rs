//! How spots are shown.
use crate::hunter::{is_new_one, new_one};
use crate::spot::{or_empty, text_or_empty, EntryText, PotaSpot, SpotEntry, SpotText, SpotType};
use crate::text::{chars_of, same_text, string_of};
use vstd::prelude::*;

verus! {

/// What the background of a row tells.
#[derive(Clone, Copy, PartialEq, Eq, Structural)]
pub enum RowTint {
    LastTuned,
    NewOne,
    Selected,
    Hunted,
    NotHeard,
    Qrt,
    Plain,
}

/// The log calls the spot a new one.
pub open spec fn shows_new(e: EntryText) -> bool {
    e.atno_status matches Some(s) && is_new_one(s)
}

/// The spot was not heard, and is not known to have closed down.
pub open spec fn shows_not_heard(e: EntryText) -> bool {
    e.not_heard && !e.is_qrt
}

/// The background of a row: the first of these that holds.
pub open spec fn tint_of(e: EntryText, last_tuned: bool, selected: bool) -> RowTint {
    if last_tuned {
        RowTint::LastTuned
    } else if shows_new(e) {
        RowTint::NewOne
    } else if selected {
        RowTint::Selected
    } else if e.hunted {
        RowTint::Hunted
    } else if shows_not_heard(e) {
        RowTint::NotHeard
    } else if e.is_qrt {
        RowTint::Qrt
    } else {
        RowTint::Plain
    }
}

/// Whether the log calls the spot a new one.
pub fn is_new_spot(e: &SpotEntry) -> (r: bool)
    ensures
        r == shows_new(e@),
{
    match &e.atno_status {
        Some(s) => new_one(s.as_str()),
        None => false,
    }
}

pub fn row_tint(e: &SpotEntry, last_tuned: bool, selected: bool) -> (r: RowTint)
    ensures
        r == tint_of(e@, last_tuned, selected),
{
    if last_tuned {
        RowTint::LastTuned
    } else if is_new_spot(e) {
        RowTint::NewOne
    } else if selected {
        RowTint::Selected
    } else if e.hunted {
        RowTint::Hunted
    } else if e.not_heard && !e.is_qrt {
        RowTint::NotHeard
    } else if e.is_qrt {
        RowTint::Qrt
    } else {
        RowTint::Plain
    }
}

/// The call as it is shown.
pub open spec fn call_text(e: EntryText) -> Seq<char> {
    let call = if shows_new(e) && !shows_not_heard(e) {
        e.spot.activator + " NEW!"@
    } else {
        e.spot.activator
    };
    if e.is_qrt {
        call + " [QRT]"@
    } else {
        call
    }
}

pub fn call_display(e: &SpotEntry) -> (r: String)
    ensures
        r@ == call_text(e@),
{
    let mut r = e.spot.activator.clone();
    if is_new_spot(e) && !(e.not_heard && !e.is_qrt) {
        r.append(" NEW!");
    }
    if e.is_qrt {
        r.append(" [QRT]");
    }
    r
}

/// What a status of the log means.
pub open spec fn status_meaning(status: Seq<char>) -> Seq<char> {
    if status == "ATNO"@ {
        "All-Time New One!"@
    } else if status == "OW"@ {
        "Worked (not confirmed on any band)"@
    } else if status == "OC"@ {
        "Confirmed on another band/mode"@
    } else if status == "OWBMW"@ {
        "Worked on this band/mode (not confirmed)"@
    } else if status == "OCBMW"@ {
        "Confirmed on other band, worked this band/mode"@
    } else if status == "BMC"@ {
        "Confirmed on this band and mode"@
    } else if status == "ERR"@ {
        "Lookup error"@
    } else {
        "Checking..."@
    }
}

fn meaning(status: &str) -> (r: &'static str)
    ensures
        r@ == status_meaning(status@),
{
    if same_text(status, "ATNO") {
        "All-Time New One!"
    } else if same_text(status, "OW") {
        "Worked (not confirmed on any band)"
    } else if same_text(status, "OC") {
        "Confirmed on another band/mode"
    } else if same_text(status, "OWBMW") {
        "Worked on this band/mode (not confirmed)"
    } else if same_text(status, "OCBMW") {
        "Confirmed on other band, worked this band/mode"
    } else if same_text(status, "BMC") {
        "Confirmed on this band and mode"
    } else if same_text(status, "ERR") {
        "Lookup error"
    } else {
        "Checking..."
    }
}

/// The country and what the log says of it.
pub fn dxcc_tip(e: &SpotEntry) -> (r: String)
    ensures
        r@ == (match e@.dxcc_country {
            Some(c) => c,
            None => "Unknown"@,
        }) + "\n"@ + status_meaning(
            match e@.atno_status {
                Some(s) => s,
                None => "..."@,
            },
        ),
{
    let mut r = match &e.dxcc_country {
        Some(c) => c.clone(),
        None => "Unknown".to_owned(),
    };
    r.append("\n");
    let status = match &e.atno_status {
        Some(s) => s.as_str(),
        None => "...",
    };
    r.append(meaning(status));
    r
}

/// The location as it is shown.
pub open spec fn location_text(e: EntryText) -> Seq<char> {
    let location = match e.spot.location_desc {
        Some(l) => l,
        None => "-"@,
    };
    if shows_not_heard(e) {
        location + " [NH]"@
    } else {
        location
    }
}

pub fn location_display(e: &SpotEntry) -> (r: String)
    ensures
        r@ == location_text(e@),
{
    let mut r = match &e.spot.location_desc {
        Some(l) => l.clone(),
        None => "-".to_owned(),
    };
    if e.not_heard && !e.is_qrt {
        r.append(" [NH]");
    }
    r
}

/// A comment as it is shown: one of more than 28 characters is cut after 26.
pub open spec fn short_comment(s: Seq<char>) -> Seq<char> {
    if s.len() > 28 {
        s.take(26) + "…"@
    } else {
        s
    }
}

pub fn comment_display(e: &SpotEntry) -> (r: String)
    ensures
        r@ == short_comment(text_or_empty(e@.spot.comments)),
{
    let comment = or_empty(&e.spot.comments);
    let v = chars_of(comment);
    if v.len() > 28 {
        let mut r = string_of(&v, 0, 26);
        r.append("…");
        proof {
            assert(v@.subrange(0, 26) =~= v@.take(26));
        }
        r
    } else {
        comment.to_owned()
    }
}

/// How old a spot looks.
#[derive(Clone, Copy, PartialEq, Eq, Structural)]
pub enum AgeShade {
    Fresh,
    Aging,
    Stale,
}

/// Under 15 minutes, up to 30, or more.
pub fn age_shade(mins: i64) -> (r: AgeShade)
    ensures
        r == if mins > 30 {
            AgeShade::Stale
        } else if mins >= 15 {
            AgeShade::Aging
        } else {
            AgeShade::Fresh
        },
{
    if mins > 30 {
        AgeShade::Stale
    } else if mins >= 15 {
        AgeShade::Aging
    } else {
        AgeShade::Fresh
    }
}

/// Red, green and blue.
pub type Rgb = (u8, u8, u8);

/// The colour of a band, on a dark ground and on a light one.
pub open spec fn band_rgb(band: Seq<char>, dark: bool) -> Rgb {
    if band == "160m"@ {
        if dark { (210, 100, 100) } else { (160, 60, 60) }
    } else if band == "80m"@ {
        if dark { (210, 150, 80) } else { (160, 100, 40) }
    } else if band == "60m"@ {
        if dark { (210, 200, 80) } else { (150, 140, 30) }
    } else if band == "40m"@ {
        if dark { (80, 200, 100) } else { (40, 130, 60) }
    } else if band == "30m"@ {
        if dark { (80, 200, 180) } else { (40, 130, 130) }
    } else if band == "20m"@ {
        if dark { (80, 160, 230) } else { (40, 100, 180) }
    } else if band == "17m"@ {
        if dark { (120, 120, 230) } else { (80, 80, 180) }
    } else if band == "15m"@ {
        if dark { (180, 100, 230) } else { (130, 60, 180) }
    } else if band == "12m"@ {
        if dark { (220, 100, 220) } else { (170, 60, 170) }
    } else if band == "10m"@ {
        if dark { (230, 100, 160) } else { (180, 60, 110) }
    } else if band == "6m"@ {
        if dark { (230, 120, 100) } else { (180, 80, 60) }
    } else if band == "2m"@ {
        if dark { (210, 210, 100) } else { (160, 160, 60) }
    } else {
        (160, 160, 160)
    }
}

pub fn band_color(band: &str, dark: bool) -> (r: Rgb)
    ensures
        r == band_rgb(band@, dark),
{
    if same_text(band, "160m") {
        if dark { (210, 100, 100) } else { (160, 60, 60) }
    } else if same_text(band, "80m") {
        if dark { (210, 150, 80) } else { (160, 100, 40) }
    } else if same_text(band, "60m") {
        if dark { (210, 200, 80) } else { (150, 140, 30) }
    } else if same_text(band, "40m") {
        if dark { (80, 200, 100) } else { (40, 130, 60) }
    } else if same_text(band, "30m") {
        if dark { (80, 200, 180) } else { (40, 130, 130) }
    } else if same_text(band, "20m") {
        if dark { (80, 160, 230) } else { (40, 100, 180) }
    } else if same_text(band, "17m") {
        if dark { (120, 120, 230) } else { (80, 80, 180) }
    } else if same_text(band, "15m") {
        if dark { (180, 100, 230) } else { (130, 60, 180) }
    } else if same_text(band, "12m") {
        if dark { (220, 100, 220) } else { (170, 60, 170) }
    } else if same_text(band, "10m") {
        if dark { (230, 100, 160) } else { (180, 60, 110) }
    } else if same_text(band, "6m") {
        if dark { (230, 120, 100) } else { (180, 80, 60) }
    } else if same_text(band, "2m") {
        if dark { (210, 210, 100) } else { (160, 160, 60) }
    } else {
        (160, 160, 160)
    }
}

/// The colour of a spot's source, on a dark ground and on a light one.
pub fn type_color(t: SpotType, dark: bool) -> (r: Rgb)
    ensures
        r == match (t, dark) {
            (SpotType::Pota, true) => (80u8, 210u8, 80u8),
            (SpotType::Sota, true) => (230u8, 160u8, 40u8),
            (SpotType::Dx, true) => (100u8, 170u8, 255u8),
            (SpotType::Wwff, true) => (40u8, 220u8, 210u8),
            (SpotType::Pota, false) => (20u8, 140u8, 20u8),
            (SpotType::Sota, false) => (180u8, 100u8, 0u8),
            (SpotType::Dx, false) => (40u8, 80u8, 200u8),
            (SpotType::Wwff, false) => (0u8, 150u8, 150u8),
        },
{
    match (t, dark) {
        (SpotType::Pota, true) => (80, 210, 80),
        (SpotType::Sota, true) => (230, 160, 40),
        (SpotType::Dx, true) => (100, 170, 255),
        (SpotType::Wwff, true) => (40, 220, 210),
        (SpotType::Pota, false) => (20, 140, 20),
        (SpotType::Sota, false) => (180, 100, 0),
        (SpotType::Dx, false) => (40, 80, 200),
        (SpotType::Wwff, false) => (0, 150, 150),
    }
}

fn link(site: &str, name: &str) -> (r: String)
    ensures
        r@ == site@ + name@,
{
    let mut r = site.to_owned();
    r.append(name);
    r
}

/// Where a call is looked up on QRZ.com.
pub fn qrz_url(spot: &PotaSpot) -> (r: String)
    ensures
        r@ == "https://www.qrz.com/db/"@ + spot@.activator,
{
    link("https://www.qrz.com/db/", spot.activator.as_str())
}

/// Where a call is looked up on HamQTH.
pub fn hamqth_url(spot: &PotaSpot) -> (r: String)
    ensures
        r@ == "https://www.hamqth.com/"@ + spot@.activator,
{
    link("https://www.hamqth.com/", spot.activator.as_str())
}

/// The page of a spot's reference with its programme; a spot without a reference has none, and the
/// DX cluster has no pages.
pub open spec fn reference_page(spot: SpotText, t: SpotType) -> Option<(Seq<char>, Seq<char>)> {
    if spot.reference.len() == 0 {
        None
    } else {
        match t {
            SpotType::Pota => Some(("Open on POTA.app"@, "https://pota.app/#/park/"@ + spot.reference)),
            SpotType::Sota => Some(
                ("Open on SOTAdata"@, "https://www.sotadata.org.uk/en/summit/"@ + spot.reference),
            ),
            SpotType::Wwff => Some(
                ("Open on WWFF Spotline"@, "https://spots.wwff.co/references/direct?wwff="@ + spot.reference),
            ),
            SpotType::Dx => None,
        }
    }
}

/// What to offer for a spot's reference, and where it leads.
pub fn reference_url(spot: &PotaSpot, t: SpotType) -> (r: Option<(&'static str, String)>)
    ensures
        match r {
            Some((label, url)) => reference_page(spot@, t) == Some((label@, url@)),
            None => reference_page(spot@, t) is None,
        },
{
    if spot.reference.as_str().is_empty() {
        return None;
    }
    match t {
        SpotType::Pota => Some(("Open on POTA.app", link("https://pota.app/#/park/", spot.reference.as_str()))),
        SpotType::Sota => Some(
            ("Open on SOTAdata", link("https://www.sotadata.org.uk/en/summit/", spot.reference.as_str())),
        ),
        SpotType::Wwff => Some(
            (
                "Open on WWFF Spotline",
                link("https://spots.wwff.co/references/direct?wwff=", spot.reference.as_str()),
            ),
        ),
        SpotType::Dx => None,
    }
}

/// The grid square of a spot, the finer one first; no text where it has none.
pub fn spot_grid(spot: &PotaSpot) -> (r: &str)
    ensures
        r@ == crate::filter::grid_of(spot@),
{
    match &spot.grid6 {
        Some(g) => g.as_str(),
        None => or_empty(&spot.grid4),
    }
}

} // verus!
