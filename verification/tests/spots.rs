use basecamp::band::{freq_to_band, freq_to_mhz, guess_mode_from_comment_and_freq, location_to_country, mode_named};
use basecamp::grid::{distance_bearing, grid_cell, upper_cell};
use basecamp::number::Number;
use basecamp::spot::{make_spot_key, PotaSpot, SotaSpot, SpotEntry, SpotType, WwffSpot};

fn spot() -> PotaSpot {
    PotaSpot {
        spot_id: None,
        activator: "W1AW".to_string(),
        frequency: "14250".to_string(),
        mode: "SSB".to_string(),
        reference: "K-0001".to_string(),
        park_name: None,
        spot_time: None,
        spotter: None,
        comments: None,
        source: None,
        name: None,
        location_desc: None,
        grid4: None,
        grid6: None,
    }
}

#[test]
fn bands_are_found_by_frequency() {
    for (freq, band) in [
        ("1800", "160m"), ("2000.9", "160m"), ("2001", "??"), ("3500", "80m"), ("5330", "60m"), ("5411", "??"),
        ("7074.5", "40m"), ("10100", "30m"), ("14074.0", "20m"), ("14350.99", "20m"), ("18068", "17m"), ("18067.9", "??"),
        ("21450", "15m"), ("24990", "12m"), ("29700", "10m"), ("50313", "6m"), ("146520", "2m"), ("432100", "70cm"),
        ("450001", "??"), ("14.074", "20m"), ("7.2", "40m"), ("999.9", "??"), ("432.1", "70cm"), ("", "??"), ("abc", "??"),
        ("NaN", "??"), ("inf", "??"), ("-14074", "??"), ("1e4", "??"), ("1.4074e4", "20m"),
    ] {
        assert_eq!(freq_to_band(freq), band, "{}", freq);
    }
}

#[test]
fn megahertz_and_kilohertz_share_the_band() {
    for (mhz, khz) in [("14.074", "14074"), ("7.0305", "7030.5"), ("50.313", "50313"), ("1.85", "1850")] {
        assert_eq!(freq_to_band(mhz), freq_to_band(khz));
        assert_eq!(freq_to_mhz(mhz), freq_to_mhz(khz));
    }
}

#[test]
fn frequencies_are_written_in_megahertz() {
    assert_eq!(freq_to_mhz("14250"), "14.2500");
    assert_eq!(freq_to_mhz("14074.05"), format!("{:.4}", 14074.05f64 / 1000.0));
    assert_eq!(freq_to_mhz("14.074"), "14.0740");
    assert_eq!(freq_to_mhz("1000"), "1000.0000");
    assert_eq!(freq_to_mhz("1000.1"), "1.0001");
    assert_eq!(freq_to_mhz("QSY"), "QSY");
}

#[test]
fn countries_are_taken_from_locations() {
    assert_eq!(location_to_country("US-FL"), "US");
    assert_eq!(location_to_country("VE-ON"), "VE");
    assert_eq!(location_to_country("JA"), "JA");
    assert_eq!(location_to_country(""), "");
    assert_eq!(location_to_country("-X"), "");
}

#[test]
fn modes_are_guessed() {
    for (comment, freq, mode) in [
        ("ft8 -12", "14074", "FT8"), ("FT4", "14080", "FT4"), ("rtty test", "14085", "RTTY"), ("psk31", "14070", "PSK"),
        ("CW 15 dB 26 WPM CQ", "14195.0", "CW"), ("20 wpm", "14200", "CW"), ("ssb loud", "14000", "SSB"),
        ("FT8 CW", "7000", "FT8"), ("", "14069.9", "CW"), ("", "14070", "SSB"), ("", "14000", "CW"), ("", "13999.9", "SSB"),
        ("", "7039", "CW"), ("", "28070", "SSB"), ("", "24914.9", "CW"), ("", "x", "SSB"), ("", "NaN", "SSB"),
        ("", "14.020", "SSB"), ("", "3599", "CW"), ("", "10129", "CW"), ("", "18095", "SSB"), ("", "21069.999", "CW"),
        ("", "1839", "CW"),
    ] {
        assert_eq!(guess_mode_from_comment_and_freq(comment, freq), mode, "{} {}", comment, freq);
    }
}

#[test]
fn park_names_fall_back() {
    let mut s = spot();
    assert_eq!(s.display_park_name(), "K-0001");
    s.name = Some("  Name ".to_string());
    assert_eq!(s.display_park_name(), "Name");
    s.park_name = Some("   ".to_string());
    assert_eq!(s.display_park_name(), "Name");
    s.park_name = Some(" Acadia ".to_string());
    assert_eq!(s.display_park_name(), "Acadia");
    s.park_name = None;
    s.name = Some("".to_string());
    s.reference = String::new();
    assert_eq!(s.display_park_name(), "-");
}

#[test]
fn summit_spots_take_the_common_form() {
    let sota = SotaSpot {
        activator_callsign: "K7ABC".to_string(),
        frequency: "14.062".to_string(),
        mode: "CW".to_string(),
        summit_code: "W7I/SI-153".to_string(),
        summit_details: Some("Peak, 2000m".to_string()),
        time_stamp: Some("2025-03-16T14:23:00".to_string()),
        comments: Some("qrt soon".to_string()),
        callsign: Some("N0CALL".to_string()),
    };
    let s = sota.to_pota_spot();
    assert_eq!(s.frequency, "14062.0");
    assert_eq!(s.activator, "K7ABC");
    assert_eq!(s.reference, "W7I/SI-153");
    assert_eq!(s.location_desc.as_deref(), Some("W7I"));
    assert_eq!(s.park_name.as_deref(), Some("Peak, 2000m"));
    assert_eq!(s.name.as_deref(), Some("Peak, 2000m"));
    assert_eq!(s.spotter.as_deref(), Some("N0CALL"));
    assert_eq!(s.source.as_deref(), Some("SOTA"));
    assert_eq!(s.spot_time.as_deref(), Some("2025-03-16T14:23:00"));
    for (mhz, khz) in [("14062", "14062"), ("7.0325", "7032.5"), ("144.3", "144300.0"), ("x", "x"), ("NaN", "NaN"), ("-1", "-1000.0")] {
        let t = SotaSpot { frequency: mhz.to_string(), summit_code: "NONE".to_string(), ..SotaSpot {
            activator_callsign: String::new(), frequency: String::new(), mode: String::new(), summit_code: String::new(),
            summit_details: None, time_stamp: None, comments: None, callsign: None } };
        assert_eq!(t.to_pota_spot().frequency, khz);
        assert_eq!(t.to_pota_spot().location_desc.as_deref(), Some("NONE"));
    }
}

#[test]
fn flora_spots_take_the_common_form() {
    let wwff = WwffSpot {
        id: Some(17),
        activator: "VK3XYZ".to_string(),
        frequency_khz: Number::from_bits(7059.5f64.to_bits()),
        mode: "SSB".to_string(),
        reference: "VKFF-1925".to_string(),
        reference_name: "Some Park".to_string(),
        remarks: String::new(),
        spotter: "VK2A".to_string(),
        spot_time_formatted: Some("2026-05-01 00:46:50 x".to_string()),
    };
    let s = wwff.to_pota_spot();
    assert_eq!(s.spot_id, Some(17));
    assert_eq!(s.frequency, "7059.5");
    assert_eq!(s.location_desc.as_deref(), Some("VKFF"));
    assert_eq!(s.spot_time.as_deref(), Some("2026-05-01T00:46:50 x"));
    assert_eq!(s.comments, None);
    assert_eq!(s.spotter.as_deref(), Some("VK2A"));
    assert_eq!(s.source.as_deref(), Some("WWFF"));
    assert_eq!(s.park_name.as_deref(), Some("Some Park"));
}

#[test]
fn keys_tell_spots_apart() {
    assert_eq!(make_spot_key(SpotType::Pota, "W1AW", "K-0001"), "W1AW-K-0001");
    assert_eq!(make_spot_key(SpotType::Dx, "W1AW", "anything"), "DX-W1AW");
    assert_ne!(make_spot_key(SpotType::Sota, "A", "1"), make_spot_key(SpotType::Sota, "A", "2"));
    assert_ne!(make_spot_key(SpotType::Wwff, "A", "1"), make_spot_key(SpotType::Wwff, "B", "1"));
    let e = SpotEntry {
        spot: spot(),
        spot_type: SpotType::Wwff,
        band: String::new(),
        country: String::new(),
        hunted: false,
        is_qrt: false,
        not_heard: false,
        dxcc_country: None,
        atno_status: None,
    };
    assert_eq!(e.spot_key(), "W1AW-K-0001");
    assert_eq!(e.clone().spot.frequency, "14250");
}

#[test]
fn a_key_tells_activator_and_reference() {
    let calls = ["W1AW", "W1A", "K5ABC/P"];
    let references = ["K-0001", "0001", "", "W7I/SI-153"];
    let mut seen: Vec<String> = Vec::new();
    for call in calls {
        for reference in references {
            let key = make_spot_key(SpotType::Pota, call, reference);
            assert!(!seen.contains(&key));
            seen.push(key);
        }
    }
    assert_eq!(make_spot_key(SpotType::Pota, "A-B", "C"), make_spot_key(SpotType::Pota, "A", "B-C"));
}

#[test]
fn types_have_labels() {
    assert_eq!(SpotType::Pota.label(), "POTA");
    assert_eq!(SpotType::Sota.label(), "SOTA");
    assert_eq!(SpotType::Dx.label(), "DX");
    assert_eq!(SpotType::Wwff.label(), "WWFF");
}

#[test]
fn grid_squares_are_read() {
    let c = grid_cell("EM75").unwrap();
    assert_eq!((c.lat, c.lon, c.part), (35, -86, None));
    let c = grid_cell("fn31pr").unwrap();
    assert_eq!((c.lat, c.lon, c.part), (41, -74, Some((15, 17))));
    let c = grid_cell("FN31p1").unwrap();
    assert_eq!(c.part, None);
    let c = upper_cell("FN31PR").unwrap();
    assert_eq!((c.lat, c.lon, c.part), (41, -74, Some((15, 17))));
    assert!(upper_cell("fn31").is_none());
    assert!(grid_cell("").is_none());
    assert!(grid_cell("FN3").is_none());
    assert!(grid_cell("SN31").is_none());
    assert!(grid_cell("F131").is_none());
    let c = grid_cell("AAXX").unwrap();
    assert_eq!((c.lat, c.lon), (-90 + ('X' as i32 - '0' as i32), -180 + 2 * ('X' as i32 - '0' as i32)));
}

#[test]
fn distances_are_shown() {
    let miles = Number::from_bits(1234.5f64.to_bits());
    let degrees = Number::from_bits(359.6f64.to_bits());
    assert_eq!(distance_bearing("EM75", "FN31", miles, degrees).as_deref(), Some("1234mi 360°"));
    assert_eq!(distance_bearing("EM75", "", miles, degrees), None);
    assert_eq!(distance_bearing("99", "FN31", miles, degrees), None);
}

#[test]
fn modes_are_named_in_uppercase() {
    assert_eq!(mode_named("TNX FT8 CQ", "14030"), "FT8");
    assert_eq!(mode_named("tnx ft8", "14030"), "CW");
    assert_eq!(mode_named("", "14070"), "SSB");
    assert_eq!(mode_named("", "no number"), "SSB");
}

#[test]
fn megahertz_are_not_divided_again() {
    for s in [
        "14074", "14.074", "1000", "1000.00004", "1000.1", "1000000", "999999.99", "7.00005", "-14074", "-0.00001",
        "-1e300", "-123456789012.34567", "-549755813887.99995", "nan", "-inf", "inf", "no number", "",
    ] {
        let once = freq_to_mhz(s);
        assert_eq!(freq_to_mhz(&once), once, "{}", s);
    }
    assert_eq!(freq_to_mhz(&freq_to_mhz("2000000")), "2.0000");
}
