use basecamp::clock::Moment;
use basecamp::listener::{drain_records, subscribe_command, Listener, ListenerAction, ListenerEvent};
use basecamp::lookup::{LookupBatch, LookupStep, Wanted};
use basecamp::n3fjp::{mode_for_contest, mode_for_log, number_of_band, N3fjpClient};
use basecamp::spot::PotaSpot;
use basecamp::xml::parse_xml_tag;

fn spot(call: &str, freq: &str, mode: &str) -> PotaSpot {
    PotaSpot {
        spot_id: None,
        activator: call.to_string(),
        frequency: freq.to_string(),
        mode: mode.to_string(),
        reference: "K-0001".to_string(),
        park_name: None,
        spot_time: None,
        spotter: None,
        comments: None,
        source: None,
        name: None,
        location_desc: None,
        grid4: None,
        grid6: None,
    }
}

#[test]
fn tags_are_read() {
    assert_eq!(parse_xml_tag("<CALL>W1AW</CALL><BAND>20</BAND>", "CALL").as_deref(), Some("W1AW"));
    assert_eq!(parse_xml_tag("<CALL>W1AW</CALL><BAND>20</BAND>", "band").as_deref(), Some("20"));
    assert_eq!(parse_xml_tag("x<call>w1aw</Call>", "CALL").as_deref(), Some("w1aw"));
    assert_eq!(parse_xml_tag("<CALL></CALL>", "CALL").as_deref(), Some(""));
    assert_eq!(parse_xml_tag("<CALL>W1AW", "CALL"), None);
    assert_eq!(parse_xml_tag("</CALL><CALL>", "CALL"), None);
    assert_eq!(parse_xml_tag("", "CALL"), None);
    assert_eq!(parse_xml_tag("é<NAME>Zoë</NAME>", "NAME").as_deref(), Some("Zoë"));
}

#[test]
fn other_letters_do_not_shift_a_tag() {
    // In uppercase these letters take fewer bytes, or more
    assert_eq!(parse_xml_tag("ı<CALL>W1AW</CALL>", "CALL").as_deref(), Some("W1AW"));
    assert_eq!(parse_xml_tag("ıßŉ<call>\u{800}</call>", "CALL").as_deref(), Some("\u{800}"));
}

#[test]
fn commands_are_written() {
    let c = N3fjpClient::new("127.0.0.1", 1100);
    assert_eq!(c.address(), "127.0.0.1:1100");
    assert_eq!(c.change_freq("14.2500"), "<CMD><CHANGEFREQ><VALUE>14.2500</VALUE></CMD>");
    let (fill, tune) = c.tune_to_spot(&spot("W1AW", "14250", "usb"));
    assert_eq!(
        fill,
        "<CMD><QSOINPROGRESS><CALL>W1AW</CALL><BAND>20</BAND><MODE>SSB</MODE><FREQ>14.2500</FREQ></CMD>"
    );
    assert_eq!(tune, "<CMD><CHANGEFREQ><VALUE>14.2500</VALUE></CMD>");
    for (mode, logged) in [("FT4", "FT8"), ("cw", "CW"), ("Olivia", "FT8"), ("sstv", "SSTV"), ("AM", "SSB"), ("", "")] {
        let (fill, _) = c.tune_to_spot(&spot("A", "432.1", mode));
        assert!(fill.contains(&format!("<BAND>70</BAND><MODE>{}</MODE><FREQ>432.1000</FREQ>", logged)));
    }
    assert_eq!(c.country_lookup("JA1ABC"), "<CMD><COUNTRYLISTLOOKUP><CALL>JA1ABC</CALL></CMD>");
    for (mode, class) in [("ssb", "PH"), ("CW", "CW"), ("FT8", "DIG"), ("", "DIG")] {
        assert_eq!(
            c.check_atno("Japan", "20m", mode),
            format!("<CMD><ATNO><BAND>20</BAND><MODE>{}</MODE><COUNTRYWORKED>Japan</COUNTRYWORKED></CMD>", class)
        );
    }
}

#[test]
fn contacts_are_logged_with_date_and_time() {
    let c = N3fjpClient::new("h", 1);
    let now = Moment { secs: 1_742_135_400, nanos: 5 };
    assert_eq!(
        c.log_qso_at(&spot("W1AW", "7030", "CW"), now),
        "<CMD><UPDATEANDLOG><CALL>W1AW</CALL><BAND>40</BAND><MODE>CW</MODE><FREQ>7.0300</FREQ>\
         <RSTR>599</RSTR><RSTS>599</RSTS><DATE>2025/03/16</DATE><TIMEON>14:30</TIMEON></CMD>"
    );
    let text = c.log_qso(&spot("W1AW", "7030", "CW"));
    assert!(text.contains(&format!("<DATE>{}", chrono::Utc::now().format("%Y/"))));
    assert!(text.ends_with("</TIMEON></CMD>"));
}

#[test]
fn answers_are_read() {
    let c = N3fjpClient::new("h", 1);
    assert_eq!(
        c.country_found("<CMD><COUNTRY>Japan</COUNTRY><DXCC>339</DXCC></CMD>"),
        Ok(("Japan".to_string(), "339".to_string()))
    );
    assert_eq!(c.country_found("<COUNTRY>Japan</COUNTRY>"), Ok(("Japan".to_string(), String::new())));
    assert_eq!(c.country_found("<COUNTRY></COUNTRY>"), Err("Country not found".to_string()));
    assert_eq!(c.country_found(""), Err("Country not found".to_string()));
    assert_eq!(c.atno_found("<VALUE>ATNO</VALUE>"), Ok("ATNO".to_string()));
    for status in ["ATNO", "OW", "OC", "OWBMW", "OCBMW", "BMC"] {
        assert_eq!(c.atno_found(&format!("<VALUE>{}</VALUE>", status)), Ok(status.to_string()));
    }
    for reply in ["<VALUE>", "<VALUE></VALUE>", "<VALUE>FOO</VALUE>", "<VALUE>atno</VALUE>", "ATNO"] {
        assert_eq!(c.atno_found(reply), Err("No ATNO response".to_string()));
    }
}

#[test]
fn records_are_taken_from_the_buffer() {
    let mut b = "junk<CMD><ENTEREVENT><CALL> w1aw </CALL></CMD><cmd><TAB><CALL>X</CALL></cmd><CMD><ENTEREVENT><CALL>K5".to_string();
    assert_eq!(drain_records(&mut b), vec!["W1AW".to_string()]);
    assert_eq!(b, "<CMD><ENTEREVENT><CALL>K5");
    b.push_str("ABC</CALL></CMD><CMD><ENTEREVENT><CALL>  </CALL></CMD>rest");
    assert_eq!(drain_records(&mut b), vec!["K5ABC".to_string()]);
    assert_eq!(b, "");
    let mut b = "<CMD><ENTEREVENT>nothing</CMD>".to_string();
    assert!(drain_records(&mut b).is_empty());
    let mut b = "<CMD><ENTEREVENT><CALL>A1A</CALL></CMD><CMD>ı<ENTEREVENT><CALL>\u{800}</CALL>x</CMD>".to_string();
    assert_eq!(drain_records(&mut b), vec!["A1A".to_string(), "\u{800}".to_string()]);
}

#[test]
fn the_listener_follows_the_link() {
    assert_eq!(subscribe_command(), "<CMD><CALLTABENTEREVENTS><VALUE>TRUE</VALUE></CMD>");
    let mut l = Listener::new();
    assert!(l.running && !l.connected);
    let (calls, action) = l.on_event(ListenerEvent::Opened);
    assert!(calls.is_empty() && action == ListenerAction::Read && l.connected);
    let (calls, action) = l.on_event(ListenerEvent::Received("<CMD><ENTEREVENT><CALL>a".to_string()));
    assert!(calls.is_empty() && action == ListenerAction::Read);
    let (calls, _) = l.on_event(ListenerEvent::Idle);
    assert!(calls.is_empty() && l.connected);
    let (calls, _) = l.on_event(ListenerEvent::Received("1a</CALL></CMD>".to_string()));
    assert_eq!(calls, ["A1A"]);
    let (calls, action) = l.on_event(ListenerEvent::Received("ı<CMD>é</CMD>".to_string()));
    assert!(calls.is_empty() && action == ListenerAction::Read);
    let (_, action) = l.on_event(ListenerEvent::Ended);
    assert!(action == ListenerAction::Finish && !l.connected && !l.running);
    let mut l = Listener::new();
    let (_, action) = l.on_event(ListenerEvent::NotOpened);
    assert!(action == ListenerAction::Finish && !l.running);
    let mut l = Listener::new();
    l.on_event(ListenerEvent::Opened);
    let (_, action) = l.on_event(ListenerEvent::Stopped);
    assert!(action == ListenerAction::Finish && !l.connected);
}

fn wanted(call: &str, band: &str, mode: &str) -> Wanted {
    Wanted { call: call.to_string(), band: band.to_string(), mode: mode.to_string() }
}

#[test]
fn a_batch_asks_for_each_spot_in_turn() {
    let items = vec![wanted("JA1A", "20m", "CW"), wanted("JA1A", "40m", "SSB"), wanted("XX", "20m", "FT8"), wanted("DL1", "20m", "CW")];
    let mut b = LookupBatch::new(N3fjpClient::new("h", 1), items);
    match b.step() {
        LookupStep::Country(cmd) => assert_eq!(cmd, "<CMD><COUNTRYLISTLOOKUP><CALL>JA1A</CALL></CMD>"),
        _ => panic!(),
    }
    b.take_country(Ok("<COUNTRY>Japan</COUNTRY>".to_string()));
    match b.step() {
        LookupStep::Atno(cmd) => assert!(cmd.contains("<BAND>20</BAND><MODE>CW</MODE><COUNTRYWORKED>Japan<")),
        _ => panic!(),
    }
    b.take_atno(Ok("<VALUE>ATNO</VALUE>".to_string()));
    assert!(matches!(b.step(), LookupStep::Atno(_)));
    b.take_atno(Ok("<VALUE>FOO</VALUE>".to_string()));
    assert!(matches!(b.step(), LookupStep::Country(_)));
    b.take_country(Ok("nothing".to_string()));
    assert!(matches!(b.step(), LookupStep::Country(_)));
    b.take_country(Ok("<COUNTRY>Germany</COUNTRY>".to_string()));
    b.take_atno(Err("Connection failed".to_string()));
    assert!(matches!(b.step(), LookupStep::Done));
    let found: Vec<(&str, &str, &str, &str)> = b
        .findings
        .iter()
        .map(|f| (f.cache_key.as_str(), f.call.as_str(), f.country.as_str(), f.status.as_str()))
        .collect();
    assert_eq!(
        found,
        [
            ("JA1A|20m|CW", "JA1A", "Japan", "ATNO"),
            ("JA1A|40m|SSB", "JA1A", "Japan", "ERR"),
            ("XX|20m|FT8", "XX", "", "ERR"),
            ("DL1|20m|CW", "DL1", "Germany", "ERR"),
        ]
    );
    let mut b = LookupBatch::new(N3fjpClient::new("h", 1), vec![wanted("A", "b", "c")]);
    b.take_country(Err("x".to_string()));
    assert!(matches!(b.step(), LookupStep::Done));
}

#[test]
fn modes_are_put_in_classes() {
    for voice in ["SSB", "USB", "LSB", "AM", "FM"] {
        assert_eq!((mode_for_log(voice), mode_for_contest(voice)), ("SSB", "PH"));
    }
    assert_eq!((mode_for_log("CW"), mode_for_contest("CW")), ("CW", "CW"));
    for digital in ["FT8", "FT4", "RTTY", "PSK31", "PSK63", "JS8", "DIGITALVOICE", "OLIVIA", "MFSK"] {
        assert_eq!((mode_for_log(digital), mode_for_contest(digital)), ("FT8", "DIG"));
    }
    assert_eq!((mode_for_log("SSTV"), mode_for_contest("SSTV")), ("SSTV", "DIG"));
    assert_eq!((mode_for_log("usb"), mode_for_contest("usb")), ("usb", "DIG"));
}

#[test]
fn a_contact_is_logged_with_its_date_and_time() {
    let client = N3fjpClient::new("127.0.0.1", 1100);
    assert_eq!(
        client.log_command(&spot("W1AW", "7030", "cw"), "2025/03/16", "14:30"),
        "<CMD><UPDATEANDLOG><CALL>W1AW</CALL><BAND>40</BAND><MODE>CW</MODE><FREQ>7.0300</FREQ>\
         <RSTR>599</RSTR><RSTS>599</RSTS><DATE>2025/03/16</DATE><TIMEON>14:30</TIMEON></CMD>"
    );
}

#[test]
fn a_tag_is_read_back_among_others() {
    let record = "<CMD><COUNTRYLISTLOOKUPRESPONSE><CALL>JA1A</CALL><Country>Japan <JA></COUNTRY><DXCC>339</DXCC>";
    assert_eq!(parse_xml_tag(record, "COUNTRY").as_deref(), Some("Japan <JA>"));
    assert_eq!(parse_xml_tag(record, "dxcc").as_deref(), Some("339"));
}

#[test]
fn bands_are_logged_by_number() {
    let numbers: Vec<&str> = ["160m", "20m", "6m", "70cm", "??", ""].iter().map(|b| number_of_band(b)).collect();
    assert_eq!(numbers, ["160", "20", "6", "70", "??", ""]);
}

#[test]
fn records_do_not_depend_on_how_they_are_cut() {
    let text = "<CMD><ENTEREVENT><CALL>a1a</CALL></CMD>noise<cmd><ENTEREVENT><CALL>B2B</CALL></cmd><CMD>";
    let mut whole = text.to_string();
    let calls = drain_records(&mut whole);
    assert_eq!(calls, ["A1A", "B2B"]);
    for cut in 0..=text.len() {
        let mut b = text[..cut].to_string();
        let mut got = drain_records(&mut b);
        b.push_str(&text[cut..]);
        got.extend(drain_records(&mut b));
        // A cut within the mark that starts a record loses that record
        let torn = (1..5).any(|k| text[..cut].to_uppercase().ends_with(&"<CMD>"[..k]) && text[cut - k..].to_uppercase().starts_with("<CMD>"));
        if !torn {
            assert_eq!((got, b), (calls.clone(), whole.clone()), "{}", cut);
        }
    }
}
