use basecamp::dxcluster::{parse_nodes, DxCachedSpot, DxClusterState};
use basecamp::dxline::{is_sound_line, parse_dx_history_format, parse_dx_live_format, parse_dx_spot_line};
use basecamp::dxlink::DxLink;

const MINUTE: u64 = 60_000_000_000;
const SECOND: u64 = 1_000_000_000;

#[test]
fn live_lines_are_read() {
    let line = "DX de W3LPL:     14195.0  5B4AHL       CW 15 dB 26 WPM CQ          1523Z";
    let s = parse_dx_spot_line(line).unwrap();
    assert_eq!(s.activator, "5B4AHL");
    assert_eq!(s.frequency, "14195.0");
    assert_eq!(s.mode, "CW");
    assert_eq!(s.reference, "");
    assert_eq!(s.spotter.as_deref(), Some("W3LPL"));
    assert_eq!(s.spot_time.as_deref(), Some("15:23"));
    assert_eq!(s.comments.as_deref(), Some("CW 15 dB 26 WPM CQ"));
    assert_eq!(s.source.as_deref(), Some("DXCluster"));
    assert_eq!(s.location_desc, None);
    let s = parse_dx_spot_line("  dx de K1A: 7005 DL1ABC \r").unwrap();
    assert_eq!((s.mode.as_str(), s.spot_time, s.comments), ("CW", None, None));
    let s = parse_dx_live_format("DX de K1A : 7074 DL1ABC FT8 -10 dB").unwrap();
    assert_eq!((s.spotter.as_deref(), s.comments.as_deref()), (Some("K1A"), Some("FT8 -10 dB")));
}

#[test]
fn a_live_spot_is_read_back() {
    let line = format!("DX de {}: {}", "EA8/ON4UN-#", ["21074.1", "ZL1A", "hello", "world", "0007Z"].join(" "));
    let s = parse_dx_spot_line(&line).unwrap();
    assert_eq!(s.spotter.as_deref(), Some("EA8/ON4UN-#"));
    assert_eq!((s.frequency.as_str(), s.activator.as_str()), ("21074.1", "ZL1A"));
    assert_eq!(s.comments.as_deref(), Some("hello world"));
    assert_eq!(s.spot_time.as_deref(), Some("00:07"));
}

#[test]
fn history_lines_are_read() {
    let line = "14195.0  5B4AHL       15-Mar-2025 1523Z  CW 15 dB 26 WPM CQ        <W3LPL>";
    let s = parse_dx_spot_line(line).unwrap();
    assert_eq!(s.activator, "5B4AHL");
    assert_eq!(s.frequency, "14195.0");
    assert_eq!(s.mode, "CW");
    assert_eq!(s.spotter.as_deref(), Some("W3LPL"));
    assert_eq!(s.spot_time.as_deref(), Some("15:23"));
    assert_eq!(s.comments.as_deref(), Some("CW 15 dB 26 WPM CQ"));
    let s = parse_dx_history_format("7074 JA1ABC up-2 1-Jan-24 QSX-up-2kHz").unwrap();
    assert_eq!(s.comments.as_deref(), Some("up-2 1-Jan-24"));
    assert_eq!((s.spot_time, s.spotter), (None, None));
    let s = parse_dx_history_format("7074 JA1ABC <A> 0001Z 0002Z x").unwrap();
    assert_eq!((s.spot_time.as_deref(), s.comments.as_deref(), s.spotter), (Some("00:01"), Some("x"), None));
    let s = parse_dx_history_format("7074 JA1ABC <>").unwrap();
    assert_eq!((s.spotter.as_deref(), s.comments), (Some(""), None));
}

#[test]
fn other_lines_hold_no_spot() {
    for line in [
        "", "login:", "DX de W3LPL 14195.0 5B4AHL", "DX de W3LPL: 14195.0", "DX de W3LPL: abc 5B4AHL x",
        "Hello K1A, this is a node", "14195.0 5B4AHL", "WWV de X : SFI=100", "DX de",
    ] {
        assert!(is_sound_line(line));
        assert!(parse_dx_spot_line(line).is_none(), "{:?}", line);
    }
}

#[test]
fn a_time_in_place_of_the_call_cannot_be_read() {
    assert!(!is_sound_line("DX de W3LPL: 14195.0 1523Z"));
    assert!(is_sound_line("DX de W3LPL: 14195.0 K1A 1523Z"));
    assert!(is_sound_line("DX de W3LPL: freq 1523Z"));
    assert!(is_sound_line("DX de W3LPL: 14195.0 1523z"));
}

#[test]
fn nodes_are_read() {
    let nodes = parse_nodes("ve7cc.net:23\n\n  dxc.nc7j.com:7300\r\nhost\n::1:9\nbad:99999\n:5");
    let expected: Vec<(String, u16)> = [
        ("ve7cc.net", 23), ("dxc.nc7j.com", 7300), ("host", 23), ("::1", 9), ("bad", 23), ("", 5),
    ].iter().map(|(h, p)| (h.to_string(), *p)).collect();
    assert_eq!(nodes, expected);
    assert!(parse_nodes(" \n\t\n").is_empty());
}

fn cached(call: &str, at: u64) -> DxCachedSpot {
    let line = format!("DX de W3LPL: 14195.0 {} x", call);
    DxCachedSpot { spot: parse_dx_spot_line(&line).unwrap(), received_at: at }
}

fn calls(st: &DxClusterState) -> Vec<String> {
    st.cached_spots.iter().map(|c| c.spot.activator.clone()).collect()
}

#[test]
fn old_spots_are_dropped_in_order() {
    let mut st = DxClusterState::new();
    assert_eq!(st.status, "Not started");
    for (call, at) in [("A1A", 10 * MINUTE), ("B1B", 2 * MINUTE), ("C1C", 12 * MINUTE), ("D1D", 5 * MINUTE)] {
        st.cached_spots.push(cached(call, at));
    }
    st.prune(14 * MINUTE);
    assert_eq!(calls(&st).len(), 4);
    st.prune(17 * MINUTE);
    assert_eq!(calls(&st), ["A1A", "C1C", "D1D"]);
    st.prune(17 * MINUTE);
    assert_eq!(calls(&st), ["A1A", "C1C", "D1D"]);
    let spots = st.get_dx_cache_spots(20 * MINUTE);
    assert_eq!(spots.iter().map(|s| s.activator.as_str()).collect::<Vec<_>>(), ["A1A", "C1C"]);
    st.prune(27 * MINUTE);
    assert!(calls(&st).is_empty());
}

fn nodes() -> Vec<(String, u16)> {
    vec![("one".to_string(), 23), ("two".to_string(), 7300), ("three".to_string(), 8000)]
}

#[test]
fn a_link_needs_a_call_and_a_node() {
    let mut st = DxClusterState::new();
    st.connected = true;
    assert!(DxLink::start(nodes(), "  ".to_string(), &mut st).is_none());
    assert_eq!((st.status.as_str(), st.connected), ("No callsign configured", false));
    assert!(DxLink::start(Vec::new(), "K1A".to_string(), &mut st).is_none());
    assert_eq!(st.status, "No nodes configured");
    let mut st = DxClusterState::new();
    assert!(!st.can_start(&Vec::new()));
    assert_eq!(st.status, "No nodes configured");
    assert!(st.can_start(&nodes()));
}

#[test]
fn nodes_come_round() {
    let mut st = DxClusterState::new();
    let mut link = DxLink::start(nodes(), " K1A ".to_string(), &mut st).unwrap();
    assert_eq!(link.begin(&mut st, true).as_deref(), Some("one:23"));
    assert_eq!(st.status, "Connecting to one:23 (1/3)...");
    link.not_resolved(&mut st, "no such host");
    assert_eq!(st.status, "DNS failed one:23: no such host - trying next node...");
    assert_eq!(link.begin(&mut st, true).as_deref(), Some("two:7300"));
    link.attempt_failed(&mut st, "refused");
    assert_eq!(st.status, "Failed two:7300: refused - trying next...");
    link.not_connected(&mut st);
    assert_eq!(st.status, "Failed two:7300 - moving to next node...");
    assert_eq!(link.begin(&mut st, true).as_deref(), Some("three:8000"));
    assert_eq!(st.status, "Connecting to three:8000 (3/3)...");
    assert_eq!(link.login(), "K1A\r\n");
    assert_eq!(link.request(), "sh/dx 50\r\n");
    link.login_failed(&mut st);
    assert_eq!(st.status, "Login failed on three:8000 - trying next...");
    assert_eq!(link.begin(&mut st, true).as_deref(), Some("one:23"));
    link.logged_in(&mut st, 0);
    assert!(st.connected);
    link.closed(&mut st, true);
    assert_eq!((st.status.as_str(), st.connected), ("Disconnected from one:23 - trying next node...", false));
    link.logged_in(&mut st, 0);
    link.read_failed(&mut st, "reset", false);
    assert_eq!(st.status, "Connection lost to two:7300: reset - trying next node...");
    assert_eq!(link.node, 1);
    assert_eq!(link.begin(&mut st, false), None);
    assert_eq!((st.status.as_str(), st.connected), ("Stopped", false));
}

#[test]
fn received_text_is_cut_into_lines() {
    let mut st = DxClusterState::new();
    let mut link = DxLink::start(nodes(), "K1A".to_string(), &mut st).unwrap();
    link.logged_in(&mut st, 100 * SECOND);
    assert_eq!(st.status, "Connected to one:23 (fetching recent spots)");
    assert!(link.received(&mut st, "Welcome\r\nDX de W3LPL: 14195.0 5B4", 101 * SECOND));
    assert!(st.cached_spots.is_empty());
    assert_eq!(link.line, "DX de W3LPL: 14195.0 5B4");
    assert!(link.received(&mut st, "AHL x\r\n7074 JA1ABC y <K1B>\r\n", 104 * SECOND));
    assert_eq!(calls(&st), ["5B4AHL", "JA1ABC"]);
    assert_eq!(st.cached_spots[0].received_at, 104 * SECOND);
    assert!(!st.needs_refresh);
    assert!(link.received(&mut st, "", 104 * SECOND + 1));
    assert!(st.needs_refresh);
    assert_eq!(st.status, "Connected to one:23");
    st.needs_refresh = false;
    assert!(link.received(&mut st, "DX de A: 7000 B1B z\n", 104 * SECOND + 16 * MINUTE));
    assert_eq!(calls(&st), ["B1B"]);
    assert!(!st.needs_refresh);
}

#[test]
fn a_line_that_cannot_be_read_ends_the_reading() {
    let mut st = DxClusterState::new();
    let mut link = DxLink::start(nodes(), "K1A".to_string(), &mut st).unwrap();
    link.logged_in(&mut st, 0);
    assert!(!link.received(&mut st, "DX de A: 7000 B1B z\nDX de A: 7000 1523Z\nDX de A: 7000 C1C z\n", 10 * SECOND));
    assert_eq!(calls(&st), ["B1B"]);
    assert!(!st.needs_refresh);
}

#[test]
fn lines_do_not_depend_on_how_the_text_is_cut() {
    let text = "hello\r\nDX de A: 7000 B1B z\nDX de A: 7001 C1C z\n\nDX de A: 7002 D1";
    let mut results = Vec::new();
    for cut in 0..=text.len() {
        let mut st = DxClusterState::new();
        let mut link = DxLink::start(nodes(), "K1A".to_string(), &mut st).unwrap();
        link.logged_in(&mut st, 0);
        assert!(link.received(&mut st, &text[..cut], SECOND));
        assert!(link.received(&mut st, &text[cut..], SECOND));
        results.push((calls(&st), link.line.clone()));
    }
    assert!(results.iter().all(|r| r.0 == ["B1B", "C1C"] && r.1 == "DX de A: 7002 D1"));
}

#[test]
fn a_live_spot_need_not_give_a_time() {
    let s = parse_dx_spot_line("DX de W3LPL:  7005.0   5B4AHL   up   2 ").unwrap();
    assert_eq!((s.spot_time.as_deref(), s.comments.as_deref()), (None, Some("up 2")));
    assert_eq!((s.spotter.as_deref(), s.mode.as_str()), (Some("W3LPL"), "CW"));
}

#[test]
fn dates_by_number_are_no_part_of_the_comment() {
    let s = parse_dx_history_format("14215.0  N1ABC       2026-01-15 1830Z  SSB <W1AW>").unwrap();
    assert_eq!((s.frequency.as_str(), s.activator.as_str(), s.mode.as_str()), ("14215.0", "N1ABC", "SSB"));
    assert_eq!((s.spot_time.as_deref(), s.spotter.as_deref()), (Some("18:30"), Some("W1AW")));
    assert_eq!(s.comments.as_deref(), Some("SSB"));
    let s = parse_dx_history_format("14215.0 N1ABC 2026-01-1 12345-67-8 2026-01-150 1830Z <W1AW>").unwrap();
    assert_eq!(s.comments.as_deref(), Some("2026-01-1 12345-67-8 2026-01-150"));
}
