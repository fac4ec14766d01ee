//! Bands, frequencies and modes.
use crate::number::Number;
use crate::reading::{number_of, read_number};
use crate::text::{before, contains, has_text, text_before, upper_text, uppercase};
use vstd::prelude::*;

verus! {

/// The amateur band that holds a frequency in whole kilohertz.
pub open spec fn band_name(khz: nat) -> Seq<char> {
    if 1800 <= khz <= 2000 {
        "160m"@
    } else if 3500 <= khz <= 4000 {
        "80m"@
    } else if 5330 <= khz <= 5410 {
        "60m"@
    } else if 7000 <= khz <= 7300 {
        "40m"@
    } else if 10100 <= khz <= 10150 {
        "30m"@
    } else if 14000 <= khz <= 14350 {
        "20m"@
    } else if 18068 <= khz <= 18168 {
        "17m"@
    } else if 21000 <= khz <= 21450 {
        "15m"@
    } else if 24890 <= khz <= 24990 {
        "12m"@
    } else if 28000 <= khz <= 29700 {
        "10m"@
    } else if 50000 <= khz <= 54000 {
        "6m"@
    } else if 144000 <= khz <= 148000 {
        "2m"@
    } else if 420000 <= khz <= 450000 {
        "70cm"@
    } else {
        "??"@
    }
}

/// A frequency in kilohertz: what is less than a thousand is taken as megahertz.
pub open spec fn in_khz(n: Number) -> Number {
    if n.below(1000) {
        n.thousandfold()
    } else {
        n
    }
}

/// The band of a frequency in kilohertz or megahertz.
pub open spec fn band_of(n: Number) -> Seq<char> {
    band_name(in_khz(n).truncated())
}

/// The band of a written frequency.
pub open spec fn band_of_text(s: Seq<char>) -> Seq<char> {
    match number_of(s) {
        Some(n) => band_of(n),
        None => "??"@,
    }
}

/// A frequency and its thousandfold, where the first counts as megahertz and the second as
/// kilohertz, lie in the same band.
pub proof fn law_mhz_and_khz_share_band(n: Number)
    requires
        n.below(1000),
        !n.thousandfold().below(1000),
    ensures
        band_of(n) == band_of(n.thousandfold()),
{
}

/// The band of a frequency: `160m` to `70cm`, or `??`.
pub fn freq_to_band(freq_str: &str) -> (r: String)
    ensures
        r@ == band_of_text(freq_str@),
{
    let n = match read_number(freq_str) {
        Some(n) => n,
        None => {
            return "??".to_owned();
        },
    };
    let khz = if n.is_below(1000) {
        n.times_thousand()
    } else {
        n
    };
    let f: u64 = khz.truncate();
    let name = if 1800 <= f && f <= 2000 {
        "160m"
    } else if 3500 <= f && f <= 4000 {
        "80m"
    } else if 5330 <= f && f <= 5410 {
        "60m"
    } else if 7000 <= f && f <= 7300 {
        "40m"
    } else if 10100 <= f && f <= 10150 {
        "30m"
    } else if 14000 <= f && f <= 14350 {
        "20m"
    } else if 18068 <= f && f <= 18168 {
        "17m"
    } else if 21000 <= f && f <= 21450 {
        "15m"
    } else if 24890 <= f && f <= 24990 {
        "12m"
    } else if 28000 <= f && f <= 29700 {
        "10m"
    } else if 50000 <= f && f <= 54000 {
        "6m"
    } else if 144000 <= f && f <= 148000 {
        "2m"
    } else if 420000 <= f && f <= 450000 {
        "70cm"
    } else {
        "??"
    };
    name.to_owned()
}

/// The country part of a location: `US` of `US-FL`.
pub fn location_to_country(loc: &str) -> (r: String)
    ensures
        r@ == before(loc@, '-'),
{
    text_before(loc, '-')
}

/// A written frequency in megahertz with four decimals; a text that is no number stays as it is.
pub open spec fn mhz_text(s: Seq<char>) -> Seq<char> {
    match number_of(s) {
        Some(n) => if n.above(1000) {
            n.thousandth().fixed(4)
        } else {
            n.fixed(4)
        },
        None => s,
    }
}

/// The frequency in megahertz: what is more than a thousand is taken as kilohertz.
pub fn freq_to_mhz(freq_str: &str) -> (r: String)
    ensures
        r@ == mhz_text(freq_str@),
{
    match read_number(freq_str) {
        Some(n) => if n.is_above(1000) {
            n.over_thousand().fixed_text(4)
        } else {
            n.fixed_text(4)
        },
        None => freq_str.to_owned(),
    }
}

/// The frequency lies in the lower part of a band, where Morse code is sent.
pub open spec fn in_cw_segment(n: Number) -> bool {
    ||| !n.below(1800) && n.below(1840)
    ||| !n.below(3500) && n.below(3600)
    ||| !n.below(7000) && n.below(7040)
    ||| !n.below(10100) && n.below(10130)
    ||| !n.below(14000) && n.below(14070)
    ||| !n.below(18068) && n.below(18095)
    ||| !n.below(21000) && n.below(21070)
    ||| !n.below(24890) && n.below(24915)
    ||| !n.below(28000) && n.below(28070)
}

/// The mode that a comment in uppercase names, or else the one that the frequency suggests.
pub open spec fn mode_in(upper: Seq<char>, freq: Seq<char>) -> Seq<char> {
    if contains(upper, "FT8"@) {
        "FT8"@
    } else if contains(upper, "FT4"@) {
        "FT4"@
    } else if contains(upper, "RTTY"@) {
        "RTTY"@
    } else if contains(upper, "PSK"@) {
        "PSK"@
    } else if contains(upper, "CW"@) || contains(upper, "WPM"@) {
        "CW"@
    } else if contains(upper, "SSB"@) {
        "SSB"@
    } else {
        match number_of(freq) {
            Some(n) => if in_cw_segment(n) {
                "CW"@
            } else {
                "SSB"@
            },
            None => "SSB"@,
        }
    }
}

/// The mode that a comment names, or else the one that the frequency suggests.
pub open spec fn guessed_mode(comment: Seq<char>, freq: Seq<char>) -> Seq<char> {
    mode_in(uppercase(comment), freq)
}

fn lies_in(n: &Number, low: u64, high: u64) -> (r: bool)
    requires
        n.wf(),
        0 < low < u64::MAX,
        0 < high < u64::MAX,
    ensures
        r == (!n.below(low as nat) && n.below(high as nat)),
{
    !n.is_below(low) && n.is_below(high)
}

/// The mode that a comment in uppercase names, or else the one that the frequency suggests.
pub fn mode_named(upper: &str, freq_str: &str) -> (r: &'static str)
    ensures
        r@ == mode_in(upper@, freq_str@),
{
    if has_text(upper, "FT8") {
        "FT8"
    } else if has_text(upper, "FT4") {
        "FT4"
    } else if has_text(upper, "RTTY") {
        "RTTY"
    } else if has_text(upper, "PSK") {
        "PSK"
    } else if has_text(upper, "CW") || has_text(upper, "WPM") {
        "CW"
    } else if has_text(upper, "SSB") {
        "SSB"
    } else {
        match read_number(freq_str) {
            Some(n) => if lies_in(&n, 1800, 1840) || lies_in(&n, 3500, 3600) || lies_in(&n, 7000, 7040)
                || lies_in(&n, 10100, 10130) || lies_in(&n, 14000, 14070) || lies_in(&n, 18068, 18095)
                || lies_in(&n, 21000, 21070) || lies_in(&n, 24890, 24915) || lies_in(&n, 28000, 28070) {
                "CW"
            } else {
                "SSB"
            },
            None => "SSB",
        }
    }
}

/// The mode of a spot: the one that its comment names, or else the one that its frequency suggests.
pub fn guess_mode_from_comment_and_freq(comment: &str, freq_str: &str) -> (r: String)
    ensures
        r@ == guessed_mode(comment@, freq_str@),
{
    let upper = upper_text(comment);
    mode_named(upper.as_str(), freq_str).to_owned()
}

} // verus!
