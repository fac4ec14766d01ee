//! What holds of spots: what each source tells, and what bands, modes and keys make of it.
use crate::band::{band_name, band_of, band_of_text, guessed_mode, in_cw_segment, mhz_text, mode_in};
use crate::laws::texts::law_before;
use crate::number::Number;
use crate::reading::number_of;
use crate::spot::{
    key_of, khz_text, non_empty, opt_text, spot_texts, text_or_empty, with_t, EntryText, PotaSpot,
    SotaSpot, SpotEntry, SpotText, SpotType, WwffSpot,
};
use crate::text::{before, contains, trim, uppercase};
use vstd::arithmetic::power2::pow2;
use vstd::prelude::*;

verus! {

/// The text of an optional string is that of the string, if there is one.
pub proof fn law_opt_text(s: String, t: Seq<char>)
    ensures
        opt_text(Some(s)) == Some(s@),
        opt_text(None) is None,
        text_or_empty(Some(t)) == t,
        text_or_empty(None).len() == 0,
        t.len() > 0 ==> non_empty(t) == Some(t),
        t.len() == 0 ==> non_empty(t) is None,
{
}

/// The contents of a spot are its fields as they stand.
pub proof fn law_spot_contents(p: PotaSpot, v: Seq<PotaSpot>, i: int)
    ensures
        p@.spot_id == p.spot_id,
        p@.activator == p.activator@,
        p@.frequency == p.frequency@,
        p@.mode == p.mode@,
        p@.reference == p.reference@,
        p@.park_name == opt_text(p.park_name),
        p@.spot_time == opt_text(p.spot_time),
        p@.spotter == opt_text(p.spotter),
        p@.comments == opt_text(p.comments),
        p@.source == opt_text(p.source),
        p@.name == opt_text(p.name),
        p@.location_desc == opt_text(p.location_desc),
        p@.grid4 == opt_text(p.grid4),
        p@.grid6 == opt_text(p.grid6),
        spot_texts(v).len() == v.len(),
        0 <= i < v.len() ==> spot_texts(v)[i] == v[i]@,
{
}

/// The contents of an entry are its fields as they stand.
pub proof fn law_entry_contents(e: SpotEntry)
    ensures
        e@.spot == e.spot@,
        e@.spot_type == e.spot_type,
        e@.band == e.band@,
        e@.country == e.country@,
        e@.hunted == e.hunted,
        e@.is_qrt == e.is_qrt,
        e@.not_heard == e.not_heard,
        e@.dxcc_country == opt_text(e.dxcc_country),
        e@.atno_status == opt_text(e.atno_status),
{
}

/// A summit spot keeps what it tells: who, in which mode, at which summit, when, by whom, with which
/// comment. Its location is the association, the part of the summit's code before the slash.
pub proof fn law_summit_spot(s: SotaSpot)
    ensures
        s.as_spot().activator == s.activator_callsign@,
        s.as_spot().mode == s.mode@,
        s.as_spot().reference == s.summit_code@,
        s.as_spot().park_name == opt_text(s.summit_details),
        s.as_spot().name == opt_text(s.summit_details),
        s.as_spot().spot_time == opt_text(s.time_stamp),
        s.as_spot().spotter == opt_text(s.callsign),
        s.as_spot().comments == opt_text(s.comments),
        s.as_spot().source == Some("SOTA"@),
        s.as_spot().location_desc == Some(before(s.summit_code@, '/')),
        s.as_spot().spot_id is None,
        s.as_spot().grid4 is None,
        s.as_spot().grid6 is None,
        number_of(s.frequency@) is None ==> s.as_spot().frequency == s.frequency@,
        number_of(s.frequency@) matches Some(n) ==> n.below(1000) ==> s.as_spot().frequency == n.thousandfold().fixed(1),
        number_of(s.frequency@) matches Some(n) ==> !n.below(1000) ==> s.as_spot().frequency == s.frequency@,
{
}

/// The band of a summit spot is that of the frequency which was given in megahertz.
pub proof fn law_summit_frequency(s: Seq<char>, t: Seq<char>)
    requires
        number_of(s) matches Some(n) && n.below(1000),
        number_of(t) == number_of(s),
    ensures
        khz_text(s) == khz_text(t),
{
}

/// A flora spot keeps what it tells: who, in which mode, at which reference, and, where there are any,
/// by whom and with which remarks. Its location is the part of the reference before the hyphen; its
/// frequency is written with one decimal.
pub proof fn law_flora_spot(s: WwffSpot)
    ensures
        s.as_spot().spot_id == s.id,
        s.as_spot().activator == s.activator@,
        s.as_spot().frequency == s.frequency_khz.fixed(1),
        s.as_spot().mode == s.mode@,
        s.as_spot().reference == s.reference@,
        s.as_spot().park_name == Some(s.reference_name@),
        s.as_spot().name == Some(s.reference_name@),
        s.spotter@.len() > 0 ==> s.as_spot().spotter == Some(s.spotter@),
        s.spotter@.len() == 0 ==> s.as_spot().spotter is None,
        s.remarks@.len() > 0 ==> s.as_spot().comments == Some(s.remarks@),
        s.remarks@.len() == 0 ==> s.as_spot().comments is None,
        s.as_spot().source == Some("WWFF"@),
        s.as_spot().location_desc == Some(before(s.reference@, '-')),
        s.as_spot().grid4 is None,
        s.as_spot().grid6 is None,
        s.spot_time_formatted is None ==> s.as_spot().spot_time is None,
        s.spot_time_formatted matches Some(t) ==> s.as_spot().spot_time == Some(with_t(t@)),
{
}

/// The first blank of a time becomes a `T`, and nothing else changes.
pub proof fn law_with_t(a: Seq<char>, b: Seq<char>)
    requires
        !a.contains(' '),
    ensures
        with_t(a + seq![' '] + b) == a + seq!['T'] + b,
        with_t(a) == a,
{
    law_before(a, ' ', b);
    assert(with_t(a + seq![' '] + b) =~= a + seq!['T'] + b);
}

/// The name of a park is the first that there is: the park's name, the name, the reference, a dash; of
/// the names without the white space around them.
pub proof fn law_park(s: SpotText)
    ensures
        s.park_name matches Some(p) ==> trim(p).len() > 0 ==> s.park() == trim(p),
        trim(text_or_empty(s.park_name)).len() == 0 ==> (s.name matches Some(p) ==> trim(p).len() > 0 ==> s.park()
            == trim(p)),
        trim(text_or_empty(s.park_name)).len() == 0 && trim(text_or_empty(s.name)).len() == 0 && s.reference.len() > 0
            ==> s.park() == s.reference,
        trim(text_or_empty(s.park_name)).len() == 0 && trim(text_or_empty(s.name)).len() == 0 && s.reference.len() == 0
            ==> s.park() == "-"@,
{
}

/// The key of a spot is its activator and its reference with a hyphen between them; on the DX cluster,
/// its activator after `DX-`.
pub proof fn law_key(t: SpotType, activator: Seq<char>, reference: Seq<char>, e: EntryText)
    ensures
        t !is Dx ==> key_of(t, activator, reference) == activator + seq!['-'] + reference,
        t is Dx ==> key_of(t, activator, reference) == seq!['D', 'X', '-'] + activator,
        e.key() == key_of(e.spot_type, e.spot.activator, e.spot.reference),
{
    reveal_strlit("-");
    reveal_strlit("DX-");
    assert("-"@ =~= seq!['-']);
    assert("DX-"@ =~= seq!['D', 'X', '-']);
}

/// Each source has its name.
pub proof fn law_source_names()
    ensures
        SpotType::Pota.name() == "POTA"@,
        SpotType::Sota.name() == "SOTA"@,
        SpotType::Dx.name() == "DX"@,
        SpotType::Wwff.name() == "WWFF"@,
{
}

/// The bands, from their lowest whole kilohertz to their highest.
pub proof fn law_bands(khz: nat)
    ensures
        1800 <= khz <= 2000 ==> band_name(khz) == "160m"@,
        3500 <= khz <= 4000 ==> band_name(khz) == "80m"@,
        5330 <= khz <= 5410 ==> band_name(khz) == "60m"@,
        7000 <= khz <= 7300 ==> band_name(khz) == "40m"@,
        10100 <= khz <= 10150 ==> band_name(khz) == "30m"@,
        14000 <= khz <= 14350 ==> band_name(khz) == "20m"@,
        18068 <= khz <= 18168 ==> band_name(khz) == "17m"@,
        21000 <= khz <= 21450 ==> band_name(khz) == "15m"@,
        24890 <= khz <= 24990 ==> band_name(khz) == "12m"@,
        28000 <= khz <= 29700 ==> band_name(khz) == "10m"@,
        50000 <= khz <= 54000 ==> band_name(khz) == "6m"@,
        144000 <= khz <= 148000 ==> band_name(khz) == "2m"@,
        420000 <= khz <= 450000 ==> band_name(khz) == "70cm"@,
        khz < 1800 || 2000 < khz < 3500 || 4000 < khz < 5330 || 5410 < khz < 7000 || 7300 < khz < 10100 || 10150 < khz
            < 14000 || 14350 < khz < 18068 || 18168 < khz < 21000 || 21450 < khz < 24890 || 24990 < khz < 28000 || 29700
            < khz < 50000 || 54000 < khz < 144000 || 148000 < khz < 420000 || khz > 450000 ==> band_name(khz) == "??"@,
{
}

/// A value is compared with a whole number by where it stands; what is not a number is neither below nor
/// above anything.
pub proof fn law_compare(n: Number, k: nat)
    ensures
        n is Nan ==> !n.below(k) && !n.above(k),
        n !is Nan ==> (n.below(k) <==> n.position() < k * pow2(1074)),
        n !is Nan ==> (n.above(k) <==> n.position() > k * pow2(1074)),
        n matches Number::Finite { negative, m, shift } ==> n.position() == if negative {
            -(m * pow2(shift as nat))
        } else {
            m * pow2(shift as nat)
        },
{
}

/// The band of a frequency from a thousand on is that of its whole kilohertz.
pub proof fn law_band_of_kilohertz(s: Seq<char>, n: Number, khz: nat)
    requires
        number_of(s) == Some(n),
        n !is Nan,
        1000 <= khz <= u64::MAX,
        khz * pow2(1074) <= n.position() < (khz + 1) * pow2(1074),
    ensures
        band_of_text(s) == band_name(khz),
        band_of(n) == band_name(khz),
{
    vstd::arithmetic::power2::lemma_pow2_pos(1074);
    let u = pow2(1074) as int;
    let p = n.position();
    assert(p >= 1000 * u && p > 0) by (nonlinear_arith)
        requires
            khz * u <= p,
            khz >= 1000,
            u > 0,
    ;
    assert((khz + 1) * u == khz * u + u) by (nonlinear_arith);
    assert(khz * u == u * khz) by (nonlinear_arith);
    assert(p / u == khz) by {
        vstd::arithmetic::div_mod::lemma_fundamental_div_mod_converse(p, u, khz as int, p - khz * u);
    }
}

/// A frequency under a thousand counts as megahertz: its band is that of a thousand times as many
/// kilohertz. What is no number has no band.
pub proof fn law_band_of_megahertz(s: Seq<char>, t: Seq<char>, n: Number)
    requires
        number_of(s) == Some(n),
        n.below(1000),
        !n.thousandfold().below(1000),
        number_of(t) == Some(n.thousandfold()),
    ensures
        band_of_text(s) == band_of_text(t),
{
}

/// What is no number has no band, and is left as it is.
pub proof fn law_no_number(s: Seq<char>)
    requires
        number_of(s) is None,
    ensures
        band_of_text(s) == "??"@,
        mhz_text(s) == s,
        khz_text(s) == s,
{
}

/// A frequency up to a thousand is written as it is, with four decimals; a greater one is written as a
/// thousandth of it is.
pub proof fn law_megahertz(s: Seq<char>, t: Seq<char>, n: Number)
    requires
        number_of(s) == Some(n),
    ensures
        !n.above(1000) ==> mhz_text(s) == n.fixed(4),
        n.above(1000) && number_of(t) == Some(n.thousandth()) && !n.thousandth().above(1000) ==> mhz_text(s)
            == mhz_text(t),
        n.above(1000) ==> mhz_text(s) == n.thousandth().fixed(4),
{
}

/// Where the comment names a mode, that is the mode; where it names several, the first of FT8, FT4,
/// RTTY, PSK, CW (or words per minute) and SSB.
pub proof fn law_named_mode(comment: Seq<char>, freq: Seq<char>)
    ensures
        ({
            let c = uppercase(comment);
            let data = contains(c, "FT8"@) || contains(c, "FT4"@) || contains(c, "RTTY"@) || contains(c, "PSK"@);
            let morse = contains(c, "CW"@) || contains(c, "WPM"@);
            &&& contains(c, "FT8"@) ==> guessed_mode(comment, freq) == "FT8"@
            &&& !contains(c, "FT8"@) && contains(c, "FT4"@) ==> guessed_mode(comment, freq) == "FT4"@
            &&& !contains(c, "FT8"@) && !contains(c, "FT4"@) && contains(c, "RTTY"@) ==> guessed_mode(comment, freq)
                == "RTTY"@
            &&& !contains(c, "FT8"@) && !contains(c, "FT4"@) && !contains(c, "RTTY"@) && contains(c, "PSK"@)
                ==> guessed_mode(comment, freq) == "PSK"@
            &&& !data && morse ==> guessed_mode(comment, freq) == "CW"@
            &&& !data && !morse && contains(c, "SSB"@) ==> guessed_mode(comment, freq) == "SSB"@
            &&& guessed_mode(comment, freq) == mode_in(c, freq)
        }),
{
}

/// Where the comment names none, it is Morse code in the lower part of each band and voice elsewhere.
pub proof fn law_mode_by_frequency(comment: Seq<char>, freq: Seq<char>)
    requires
        forall|m: Seq<char>|
            m == "FT8"@ || m == "FT4"@ || m == "RTTY"@ || m == "PSK"@ || m == "CW"@ || m == "WPM"@ || m == "SSB"@
                ==> !#[trigger] contains(uppercase(comment), m),
    ensures
        number_of(freq) is None ==> guessed_mode(comment, freq) == "SSB"@,
        number_of(freq) matches Some(n) ==> n is Nan ==> guessed_mode(comment, freq) == "SSB"@,
        number_of(freq) matches Some(n) ==> n !is Nan ==> {
            let p = n.position();
            let u = pow2(1074) as int;
            let low = 1800 * u <= p < 1840 * u || 3500 * u <= p < 3600 * u || 7000 * u <= p < 7040 * u || 10100 * u <= p
                < 10130 * u || 14000 * u <= p < 14070 * u || 18068 * u <= p < 18095 * u || 21000 * u <= p < 21070 * u
                || 24890 * u <= p < 24915 * u || 28000 * u <= p < 28070 * u;
            &&& low ==> guessed_mode(comment, freq) == "CW"@
            &&& !low ==> guessed_mode(comment, freq) == "SSB"@
            &&& low <==> in_cw_segment(n)
        },
{
}

} // verus!
