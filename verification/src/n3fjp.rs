//! The commands and records of N3FJP's Amateur Contact Log.
use crate::band::{band_of_text, freq_to_band, freq_to_mhz, mhz_text};
use crate::clock::{format_utc, formatted, utc_now, Moment};
use crate::digits::{decimal, decimal_text};
use crate::laws::log::{
    can_be_said, law_atno_question, law_country_question, law_frequency_command, law_log_command,
    law_tune_command, plain, says,
};
use crate::spot::{text_or_empty, PotaSpot, SpotText};
use crate::text::{chars_of, same_text, strip_end, stripped_end, upper_text, uppercase};
use crate::xml::{parse_xml_tag, tag_value};
use vstd::prelude::*;

verus! {

/// Where the log listens.
pub struct N3fjpClient {
    pub host: String,
    pub port: u16,
}

/// The modes that are sent by voice.
pub open spec fn is_voice(upper: Seq<char>) -> bool {
    upper == "SSB"@ || upper == "USB"@ || upper == "LSB"@ || upper == "AM"@ || upper == "FM"@
}

/// The modes that are logged as `FT8`.
pub open spec fn is_digital(upper: Seq<char>) -> bool {
    upper == "FT8"@ || upper == "FT4"@ || upper == "RTTY"@ || upper == "PSK31"@ || upper == "PSK63"@ || upper
        == "JS8"@ || upper == "DIGITALVOICE"@ || upper == "OLIVIA"@ || upper == "MFSK"@
}

/// A mode in uppercase as the log takes it.
pub open spec fn log_mode_of(upper: Seq<char>) -> Seq<char> {
    if is_voice(upper) {
        "SSB"@
    } else if upper == "CW"@ {
        "CW"@
    } else if is_digital(upper) {
        "FT8"@
    } else {
        upper
    }
}

/// The mode as the log takes it.
pub open spec fn log_mode(mode: Seq<char>) -> Seq<char> {
    log_mode_of(uppercase(mode))
}

/// The class of a mode in uppercase in the log's contests.
pub open spec fn contest_mode_of(upper: Seq<char>) -> Seq<char> {
    if is_voice(upper) {
        "PH"@
    } else if upper == "CW"@ {
        "CW"@
    } else {
        "DIG"@
    }
}

/// The class of a mode in the log's contests.
pub open spec fn contest_mode(mode: Seq<char>) -> Seq<char> {
    contest_mode_of(uppercase(mode))
}

/// A band as the log takes it: its number, without the unit.
pub open spec fn band_number(band: Seq<char>) -> Seq<char> {
    if band.len() >= 2 && band.last() == 'm' && band[band.len() - 2] == 'c' {
        band.take(band.len() - 2)
    } else {
        strip_end(band, 'm')
    }
}

/// The band of a frequency as the log takes it.
pub open spec fn log_band(frequency: Seq<char>) -> Seq<char> {
    band_number(band_of_text(frequency))
}

pub open spec fn change_freq_text(freq_mhz: Seq<char>) -> Seq<char> {
    "<CMD><CHANGEFREQ><VALUE>"@ + freq_mhz + "</VALUE></CMD>"@
}

/// Call, band, mode and frequency of a spot, each in its tag.
pub open spec fn qso_fields(spot: SpotText) -> Seq<char> {
    "<CALL>"@ + spot.activator + "</CALL><BAND>"@ + log_band(spot.frequency) + "</BAND><MODE>"@ + log_mode(spot.mode)
        + "</MODE><FREQ>"@ + mhz_text(spot.frequency) + "</FREQ>"@
}

pub open spec fn in_progress_text(spot: SpotText) -> Seq<char> {
    "<CMD><QSOINPROGRESS>"@ + qso_fields(spot) + "</CMD>"@
}

pub open spec fn log_text(spot: SpotText, date: Seq<char>, time_on: Seq<char>) -> Seq<char> {
    "<CMD><UPDATEANDLOG>"@ + qso_fields(spot) + "<RSTR>599</RSTR><RSTS>599</RSTS><DATE>"@ + date
        + "</DATE><TIMEON>"@ + time_on + "</TIMEON></CMD>"@
}

/// The command that logs a contact made at a moment.
pub open spec fn log_text_at(spot: SpotText, now: Moment) -> Seq<char> {
    log_text(
        spot,
        formatted(now.secs, now.nanos, "%Y/%m/%d"@),
        formatted(now.secs, now.nanos, "%H:%M"@),
    )
}

pub open spec fn country_text(call: Seq<char>) -> Seq<char> {
    "<CMD><COUNTRYLISTLOOKUP><CALL>"@ + call + "</CALL></CMD>"@
}

pub open spec fn atno_text(country: Seq<char>, band: Seq<char>, mode: Seq<char>) -> Seq<char> {
    "<CMD><ATNO><BAND>"@ + band_number(band) + "</BAND><MODE>"@ + contest_mode(mode)
        + "</MODE><COUNTRYWORKED>"@ + country + "</COUNTRYWORKED></CMD>"@
}

fn voice(upper: &str) -> (r: bool)
    ensures
        r == is_voice(upper@),
{
    same_text(upper, "SSB") || same_text(upper, "USB") || same_text(upper, "LSB") || same_text(upper, "AM")
        || same_text(upper, "FM")
}

fn digital(upper: &str) -> (r: bool)
    ensures
        r == is_digital(upper@),
{
    same_text(upper, "FT8") || same_text(upper, "FT4") || same_text(upper, "RTTY") || same_text(upper, "PSK31")
        || same_text(upper, "PSK63") || same_text(upper, "JS8") || same_text(upper, "DIGITALVOICE") || same_text(
        upper,
        "OLIVIA",
    ) || same_text(upper, "MFSK")
}

/// A mode in uppercase as the log takes it.
pub fn mode_for_log<'a>(upper: &'a str) -> (r: &'a str)
    ensures
        r@ == log_mode_of(upper@),
{
    if voice(upper) {
        "SSB"
    } else if same_text(upper, "CW") {
        "CW"
    } else if digital(upper) {
        "FT8"
    } else {
        upper
    }
}

/// The class of a mode in uppercase in the log's contests.
pub fn mode_for_contest(upper: &str) -> (r: &'static str)
    ensures
        r@ == contest_mode_of(upper@),
{
    if voice(upper) {
        "PH"
    } else if same_text(upper, "CW") {
        "CW"
    } else {
        "DIG"
    }
}

/// A band as the log takes it.
pub fn number_of_band<'a>(band: &'a str) -> (r: &'a str)
    ensures
        r@ == band_number(band@),
{
    let v = chars_of(band);
    let n: usize = v.len();
    if n >= 2 && v[n - 1] == 'm' && v[n - 2] == 'c' {
        proof {
            assert(band@.subrange(0, n - 2) =~= band@.take(n - 2));
        }
        band.substring_char(0, n - 2)
    } else {
        stripped_end(band, 'm')
    }
}

fn append_fields(cmd: &mut String, spot: &PotaSpot)
    ensures
        final(cmd)@ == old(cmd)@ + qso_fields(spot@),
{
    let ghost start = cmd@;
    let freq_mhz = freq_to_mhz(spot.frequency.as_str());
    let band = freq_to_band(spot.frequency.as_str());
    let upper = upper_text(spot.mode.as_str());
    cmd.append("<CALL>");
    cmd.append(spot.activator.as_str());
    cmd.append("</CALL><BAND>");
    cmd.append(number_of_band(band.as_str()));
    cmd.append("</BAND><MODE>");
    cmd.append(mode_for_log(upper.as_str()));
    cmd.append("</MODE><FREQ>");
    cmd.append(freq_mhz.as_str());
    cmd.append("</FREQ>");
    proof {
        assert(cmd@ =~= start + qso_fields(spot@));
    }
}

/// The country in the log's answer; no text where it holds none.
pub open spec fn country_in(reply: Seq<char>) -> Seq<char> {
    text_or_empty(tag_value(reply, "COUNTRY"@))
}

/// The text in the log's answer that should be a status; no text where it holds none.
pub open spec fn atno_in(reply: Seq<char>) -> Seq<char> {
    text_or_empty(tag_value(reply, "VALUE"@))
}

/// What the log can say of a country on a band in a mode.
pub open spec fn is_status(value: Seq<char>) -> bool {
    value == "ATNO"@ || value == "OW"@ || value == "OC"@ || value == "OWBMW"@ || value == "OCBMW"@ || value == "BMC"@
}

/// Whether the log can say that of a country.
pub fn known_status(value: &str) -> (r: bool)
    ensures
        r == is_status(value@),
{
    same_text(value, "ATNO") || same_text(value, "OW") || same_text(value, "OC") || same_text(value, "OWBMW")
        || same_text(value, "OCBMW") || same_text(value, "BMC")
}

fn tag_or_empty(reply: &str, tag: &str) -> (r: String)
    ensures
        r@ == text_or_empty(tag_value(reply@, tag@)),
{
    match parse_xml_tag(reply, tag) {
        Some(v) => v,
        None => {
            let r = String::new();
            proof {
                assert(r@ =~= Seq::<char>::empty());
            }
            r
        },
    }
}

impl N3fjpClient {
    pub fn new(host: &str, port: u16) -> (r: Self)
        ensures
            r.host@ == host@,
            r.port == port,
    {
        N3fjpClient { host: host.to_owned(), port }
    }

    /// Host and port, with a colon between them.
    pub fn address(&self) -> (r: String)
        ensures
            r@ == self.host@ + ":"@ + decimal(self.port as nat),
    {
        let mut r = self.host.clone();
        r.append(":");
        let port = decimal_text(self.port as u64);
        r.append(port.as_str());
        r
    }

    /// The command that tunes the radio.
    pub fn change_freq(&self, freq_mhz: &str) -> (r: String)
        ensures
            r@ == change_freq_text(freq_mhz@),
            plain(freq_mhz@) ==> tag_value(r@, "VALUE"@) == Some(freq_mhz@),
    {
        proof {
            if plain(freq_mhz@) {
                law_frequency_command(freq_mhz@);
            }
        }
        let mut cmd = "<CMD><CHANGEFREQ><VALUE>".to_owned();
        cmd.append(freq_mhz);
        cmd.append("</VALUE></CMD>");
        cmd
    }

    /// The two commands that bring a spot into the log's entry fields and tune the radio to it. The
    /// second is sent when the first was taken.
    pub fn tune_to_spot(&self, spot: &PotaSpot) -> (r: (String, String))
        ensures
            r.0@ == in_progress_text(spot@),
            r.1@ == change_freq_text(mhz_text(spot@.frequency)),
            can_be_said(spot@) ==> says(r.0@, spot@),
            can_be_said(spot@) ==> tag_value(r.1@, "VALUE"@) == tag_value(r.0@, "FREQ"@),
    {
        proof {
            if can_be_said(spot@) {
                law_tune_command(spot@);
                law_frequency_command(mhz_text(spot@.frequency));
            }
        }
        let mut cmd = "<CMD><QSOINPROGRESS>".to_owned();
        append_fields(&mut cmd, spot);
        cmd.append("</CMD>");
        let freq_mhz = freq_to_mhz(spot.frequency.as_str());
        (cmd, self.change_freq(freq_mhz.as_str()))
    }

    /// The command that logs a contact made on that date at that time.
    pub fn log_command(&self, spot: &PotaSpot, date: &str, time_on: &str) -> (r: String)
        ensures
            r@ == log_text(spot@, date@, time_on@),
            can_be_said(spot@) && plain(date@) && plain(time_on@) ==> says(r@, spot@) && tag_value(r@, "DATE"@) == Some(
                date@,
            ) && tag_value(r@, "TIMEON"@) == Some(time_on@),
    {
        proof {
            if can_be_said(spot@) && plain(date@) && plain(time_on@) {
                law_log_command(spot@, date@, time_on@);
            }
        }
        let mut cmd = "<CMD><UPDATEANDLOG>".to_owned();
        append_fields(&mut cmd, spot);
        cmd.append("<RSTR>599</RSTR><RSTS>599</RSTS><DATE>");
        cmd.append(date);
        cmd.append("</DATE><TIMEON>");
        cmd.append(time_on);
        cmd.append("</TIMEON></CMD>");
        cmd
    }

    /// The command that logs a contact made at the moment `now`.
    pub fn log_qso_at(&self, spot: &PotaSpot, now: Moment) -> (r: String)
        requires
            now.valid(),
        ensures
            r@ == log_text_at(spot@, now),
    {
        let date = format_utc(now, "%Y/%m/%d");
        let time_on = format_utc(now, "%H:%M");
        self.log_command(spot, date.as_str(), time_on.as_str())
    }

    /// The command that logs a contact made now.
    pub fn log_qso(&self, spot: &PotaSpot) -> (r: String)
        ensures
            exists|now: Moment| now.valid() && now.secs >= 0 && r@ == #[trigger] log_text_at(spot@, now),
    {
        let now = utc_now();
        self.log_qso_at(spot, now)
    }

    /// The question for the country of a call.
    pub fn country_lookup(&self, call: &str) -> (r: String)
        ensures
            r@ == country_text(call@),
            plain(call@) ==> tag_value(r@, "CALL"@) == Some(call@),
    {
        proof {
            if plain(call@) {
                law_country_question(call@);
            }
        }
        let mut cmd = "<CMD><COUNTRYLISTLOOKUP><CALL>".to_owned();
        cmd.append(call);
        cmd.append("</CALL></CMD>");
        cmd
    }

    /// The country and its number in the log's answer.
    pub fn country_found(&self, reply: &str) -> (r: Result<(String, String), String>)
        ensures
            match r {
                Ok((country, dxcc)) => country@.len() > 0 && country@ == country_in(reply@) && dxcc@ == text_or_empty(
                    tag_value(reply@, "DXCC"@),
                ),
                Err(e) => country_in(reply@).len() == 0 && e@ == "Country not found"@,
            },
    {
        let country = tag_or_empty(reply, "COUNTRY");
        let dxcc = tag_or_empty(reply, "DXCC");
        if country.as_str().is_empty() {
            Err("Country not found".to_owned())
        } else {
            Ok((country, dxcc))
        }
    }

    /// The question whether a country is wanted on a band in a mode.
    pub fn check_atno(&self, country: &str, band: &str, mode: &str) -> (r: String)
        ensures
            r@ == atno_text(country@, band@, mode@),
            plain(country@) && plain(band_number(band@)) && plain(contest_mode(mode@)) ==> tag_value(
                r@,
                "COUNTRYWORKED"@,
            ) == Some(country@) && tag_value(r@, "BAND"@) == Some(band_number(band@)) && tag_value(r@, "MODE"@) == Some(
                contest_mode(mode@),
            ),
    {
        proof {
            if plain(country@) && plain(band_number(band@)) && plain(contest_mode(mode@)) {
                law_atno_question(country@, band@, mode@);
            }
        }
        let upper = upper_text(mode);
        let mut cmd = "<CMD><ATNO><BAND>".to_owned();
        cmd.append(number_of_band(band));
        cmd.append("</BAND><MODE>");
        cmd.append(mode_for_contest(upper.as_str()));
        cmd.append("</MODE><COUNTRYWORKED>");
        cmd.append(country);
        cmd.append("</COUNTRYWORKED></CMD>");
        cmd
    }

    /// The status in the log's answer: one of those that it can give.
    pub fn atno_found(&self, reply: &str) -> (r: Result<String, String>)
        ensures
            match r {
                Ok(status) => is_status(atno_in(reply@)) && status@ == atno_in(reply@),
                Err(e) => !is_status(atno_in(reply@)) && e@ == "No ATNO response"@,
            },
    {
        let value = tag_or_empty(reply, "VALUE");
        if known_status(value.as_str()) {
            Ok(value)
        } else {
            Err("No ATNO response".to_owned())
        }
    }
}

} // verus!
