use basecamp::app::{elapsed_secs, keys_of, take_refresh, PotaHunterApp, StatusLine};
use basecamp::dxcluster::DxClusterState;
use basecamp::keys::{KeyActions, Keys};
use basecamp::keyset::KeySet;
use basecamp::select::{next_workable, Selection};
use basecamp::settings::Settings;
use basecamp::spot::{PotaSpot, SpotEntry, SpotType};
use basecamp::state::AppState;
use basecamp::view::{
    age_shade, band_color, call_display, comment_display, dxcc_tip, hamqth_url, location_display, qrz_url, reference_url,
    row_tint, spot_grid, type_color, AgeShade, RowTint,
};

const SECOND: u64 = 1_000_000_000;

fn spot(call: &str) -> PotaSpot {
    PotaSpot {
        spot_id: None,
        activator: call.to_string(),
        frequency: "14250".to_string(),
        mode: "SSB".to_string(),
        reference: "K-0001".to_string(),
        park_name: None,
        spot_time: None,
        spotter: None,
        comments: None,
        source: None,
        name: None,
        location_desc: Some("US-FL".to_string()),
        grid4: None,
        grid6: None,
    }
}

fn entry(call: &str) -> SpotEntry {
    SpotEntry {
        spot: spot(call),
        spot_type: SpotType::Pota,
        band: "20m".to_string(),
        country: "US".to_string(),
        hunted: false,
        is_qrt: false,
        not_heard: false,
        dxcc_country: None,
        atno_status: None,
    }
}

fn app() -> PotaHunterApp {
    PotaHunterApp::with_settings(Settings::default())
}

fn keys(k: &[&str]) -> Vec<String> {
    k.iter().map(|s| s.to_string()).collect()
}

#[test]
fn first_settings() {
    let s = Settings::default();
    assert_eq!((s.n3fjp_host.as_str(), s.n3fjp_port.as_str()), ("127.0.0.1", "1100"));
    assert_eq!(s.dx_nodes, "ve7cc.net:23\ndxc.nc7j.com:7300\ngb7mbc.net:8000");
    assert_eq!((s.auto_refresh, s.refresh_interval_secs, s.max_age_mins), (true, 120, 15));
    assert!(s.dark_mode && !s.hide_dupes && !s.hide_qrt && !s.dx_auto_start);
    assert!(s.dx_callsign.is_empty() && s.my_grid.is_empty());
}

#[test]
fn settings_survive_the_session() {
    let mut a = app();
    a.dx_callsign = "K1A".to_string();
    a.my_grid = "EM75".to_string();
    a.filters.hide_qrt = true;
    a.filters.max_age_mins = 60;
    a.refresh_interval_secs = 15;
    let b = PotaHunterApp::with_settings(a.current_settings());
    assert_eq!(b.dx_callsign, "K1A");
    assert_eq!(b.my_grid, "EM75");
    assert!(b.filters.hide_qrt);
    assert_eq!((b.filters.max_age_mins, b.refresh_interval_secs), (60, 15));
}

#[test]
fn the_log_is_where_the_settings_say() {
    let mut a = app();
    assert_eq!(a.client().address(), "127.0.0.1:1100");
    a.n3fjp_port = "2345".to_string();
    assert_eq!(a.log_port(), 2345);
    a.n3fjp_port = "70000".to_string();
    assert_eq!(a.log_port(), 1100);
    assert_eq!(a.parse_dx_nodes().len(), 3);
    assert!(!a.starts_cluster());
    a.dx_auto_start = true;
    a.dx_callsign = " ".to_string();
    assert!(!a.starts_cluster());
    a.dx_callsign = "K1A".to_string();
    assert!(a.starts_cluster());
}

#[test]
fn messages_go_away() {
    let mut s = StatusLine::new();
    s.tick(1);
    s.say("Tuned".to_string());
    s.tick(10 * SECOND);
    assert_eq!(s.changed_at, Some(10 * SECOND));
    s.tick(15 * SECOND - 1);
    assert_eq!(s.text, "Tuned");
    s.tick(15 * SECOND);
    assert_eq!((s.text.as_str(), s.changed_at), ("", None));
    s.say("A".to_string());
    s.tick(20 * SECOND);
    s.say("B".to_string());
    s.tick(24 * SECOND);
    s.tick(28 * SECOND);
    assert_eq!(s.text, "B");
    s.tick(29 * SECOND);
    assert_eq!(s.text, "");
}

#[test]
fn spots_are_fetched_again_in_time() {
    let mut a = app();
    let mut state = AppState::new();
    assert!(a.should_refresh(&state, 0));
    assert_eq!(a.countdown(&state, 0), Some(120));
    state.last_fetch = Some(50 * SECOND);
    assert!(!a.should_refresh(&state, 170 * SECOND));
    assert!(a.should_refresh(&state, 170 * SECOND + 1));
    assert!(!a.should_refresh(&state, 10));
    assert_eq!(a.countdown(&state, 60 * SECOND + 5), Some(110));
    assert_eq!(a.countdown(&state, 500 * SECOND), Some(0));
    assert_eq!(elapsed_secs(50 * SECOND, 60 * SECOND - 1), 9);
    assert_eq!(elapsed_secs(50 * SECOND, 40 * SECOND), 0);
    state.is_fetching = true;
    assert_eq!(a.countdown(&state, 60 * SECOND), None);
    a.auto_refresh = false;
    assert!(!a.should_refresh(&state, 900 * SECOND));
}

#[test]
fn the_sign_for_a_refresh_waits_for_the_fetch() {
    let mut dx = DxClusterState::new();
    let mut state = AppState::new();
    assert!(!take_refresh(&mut dx, &state));
    dx.needs_refresh = true;
    state.is_fetching = true;
    assert!(!take_refresh(&mut dx, &state));
    assert!(dx.needs_refresh);
    state.is_fetching = false;
    assert!(take_refresh(&mut dx, &state));
    assert!(!dx.needs_refresh);
}

#[test]
fn escape_closes_one_thing_at_a_time() {
    let mut a = app();
    a.menu_open = true;
    a.show_settings = true;
    a.filters.callsign = "w1".to_string();
    a.escape();
    assert!(!a.menu_open && a.show_settings);
    a.escape();
    assert!(!a.show_settings && a.filters.callsign == "w1");
    a.escape();
    assert_eq!(a.filters.callsign, "");
    a.show_filters = false;
    a.ask_search();
    assert!(a.show_filters && a.search_focus_requested);
}

#[test]
fn the_selection_survives_reordering() {
    let mut s = Selection::new();
    s.down(&keys(&[]));
    assert_eq!(s.row, None);
    s.down(&keys(&["a", "b", "b"]));
    assert_eq!((s.row, s.key.as_deref(), s.scroll), (Some(0), Some("a"), true));
    s.down(&keys(&["a", "b", "b"]));
    s.down(&keys(&["a", "b", "b"]));
    assert_eq!((s.row, s.key.as_deref()), (Some(2), Some("b")));
    s.down(&keys(&["a", "b", "b"]));
    assert_eq!(s.row, Some(2));
    s.anchor(&keys(&["a", "b", "b"]));
    assert_eq!(s.row, Some(2));
    s.anchor(&keys(&["x", "b", "y", "b"]));
    assert_eq!(s.row, Some(1));
    s.up(&keys(&["x", "b", "y", "b"]));
    s.up(&keys(&["x", "b", "y", "b"]));
    assert_eq!((s.row, s.key.as_deref()), (Some(0), Some("x")));
    s.anchor(&keys(&["b"]));
    assert_eq!((s.row, s.key.as_deref()), (None, Some("x")));
    s.anchor(&keys(&["b", "x"]));
    assert_eq!(s.row, Some(1));
    s.pick("b", 0);
    assert_eq!((s.row, s.key.as_deref()), (Some(0), Some("b")));
    s.key = None;
    s.anchor(&keys(&["b"]));
    assert_eq!(s.row, None);
}

#[test]
fn down_and_up_lead_back() {
    let k = keys(&["a", "b", "c"]);
    let mut s = Selection::new();
    s.go_to(&k, 1);
    s.down(&k);
    s.up(&k);
    assert_eq!((s.row, s.key.as_deref()), (Some(1), Some("b")));
}

fn rows(n: usize) -> Vec<(usize, SpotEntry)> {
    (0..n).map(|i| (i, entry(&format!("K{}A", i)))).collect()
}

#[test]
fn the_next_workable_row_is_found_round_the_list() {
    let mut r = rows(4);
    assert_eq!(next_workable(&r, 1), Some(2));
    r[2].1.hunted = true;
    r[3].1.is_qrt = true;
    assert_eq!(next_workable(&r, 1), Some(0));
    r[0].1.not_heard = true;
    assert_eq!(next_workable(&r, 1), None);
    assert_eq!(next_workable(&rows(1), 0), None);
}

#[test]
fn unheard_spots_are_skipped() {
    let mut a = app();
    let mut state = AppState::new();
    state.trigger_fetch();
    let none = KeySet::new();
    let mut two = spot("K1A");
    two.reference = "K-0002".to_string();
    state.finish_fetch(Ok(vec![spot("W1AW"), two]), Ok(vec![]), Ok(vec![]), vec![], &none, &none, 0);
    let r: Vec<(usize, SpotEntry)> = vec![(1, state.spots[1].clone()), (0, state.spots[0].clone())];
    assert_eq!(keys_of(&r), ["K1A-K-0002", "W1AW-K-0001"]);
    assert_eq!(a.skip_not_heard(&mut state, &r, 0), Some(1));
    assert!(state.spots[1].not_heard && !state.spots[0].not_heard);
    assert_eq!((a.selection.row, a.selection.key.as_deref()), (Some(1), Some("W1AW-K-0001")));
    a.note_skipped(&r[1].1.spot, "W1AW-K-0001", true);
    assert_eq!(a.status.text, "NH → tuned to W1AW on 14250 kHz");
    assert_eq!(a.last_tuned_key.as_deref(), Some("W1AW-K-0001"));
    a.note_skipped(&r[0].1.spot, "x", false);
    assert_eq!(a.status.text, "NH → K1A (N3FJP not connected)");
    assert_eq!(a.skip_not_heard(&mut state, &r, 0), None);
    assert!(!state.spots[1].not_heard);
    let mut r = r;
    r[1].1.hunted = true;
    assert_eq!(a.skip_not_heard(&mut state, &r, 0), None);
    assert_eq!(a.status.text, "NH marked — no more workable spots");
}

#[test]
fn outcomes_are_told() {
    let mut a = app();
    let mut state = AppState::new();
    a.note_tuned(&spot("W1AW"), "W1AW-K-0001", Ok(String::new()));
    assert_eq!(a.status.text, "Tuned to W1AW on 14250 kHz");
    assert_eq!(a.last_tuned_key.as_deref(), Some("W1AW-K-0001"));
    a.note_tuned(&spot("K1A"), "k", Err("Connection failed: x".to_string()));
    assert_eq!(a.status.text, "Tune failed: Connection failed: x");
    assert_eq!(a.last_tuned_key.as_deref(), Some("W1AW-K-0001"));
    a.note_logged(&mut state, &spot("W1AW"), "W1AW-K-0001", Ok(String::new()), false);
    assert_eq!(a.status.text, "Logged W1AW to AC Log");
    a.note_logged(&mut state, &spot("W1AW"), "W1AW-K-0001", Ok(String::new()), true);
    assert_eq!(a.status.text, "Logged W1AW");
    assert!(a.session.hunted_set.contains("W1AW-K-0001"));
    a.note_logged(&mut state, &spot("K1A"), "K1A-K-0001", Err("y".to_string()), false);
    assert_eq!(a.status.text, "Log failed: y");
    assert!(!a.session.hunted_set.contains("K1A-K-0001"));
}

#[test]
fn rows_are_tinted() {
    let mut e = entry("A");
    assert!(row_tint(&e, false, false) == RowTint::Plain);
    e.is_qrt = true;
    assert!(row_tint(&e, false, false) == RowTint::Qrt);
    e.not_heard = true;
    assert!(row_tint(&e, false, false) == RowTint::Qrt);
    e.is_qrt = false;
    assert!(row_tint(&e, false, false) == RowTint::NotHeard);
    e.hunted = true;
    assert!(row_tint(&e, false, false) == RowTint::Hunted);
    assert!(row_tint(&e, false, true) == RowTint::Selected);
    e.atno_status = Some("OC".to_string());
    assert!(row_tint(&e, false, true) == RowTint::NewOne);
    assert!(row_tint(&e, true, true) == RowTint::LastTuned);
    e.atno_status = Some("BMC".to_string());
    assert!(row_tint(&e, false, false) == RowTint::Hunted);
}

#[test]
fn cells_are_written() {
    let mut e = entry("A1A");
    assert_eq!(call_display(&e), "A1A");
    assert_eq!(location_display(&e), "US-FL");
    assert_eq!(dxcc_tip(&e), "Unknown\nChecking...");
    e.atno_status = Some("ATNO".to_string());
    e.dxcc_country = Some("Japan".to_string());
    assert_eq!(call_display(&e), "A1A NEW!");
    assert_eq!(dxcc_tip(&e), "Japan\nAll-Time New One!");
    e.is_qrt = true;
    assert_eq!(call_display(&e), "A1A NEW! [QRT]");
    e.is_qrt = false;
    e.not_heard = true;
    assert_eq!(call_display(&e), "A1A");
    assert_eq!(location_display(&e), "US-FL [NH]");
    e.spot.location_desc = None;
    assert_eq!(location_display(&e), "- [NH]");
    for (status, text) in [
        ("OW", "Worked (not confirmed on any band)"), ("OC", "Confirmed on another band/mode"),
        ("OWBMW", "Worked on this band/mode (not confirmed)"), ("OCBMW", "Confirmed on other band, worked this band/mode"),
        ("BMC", "Confirmed on this band and mode"), ("ERR", "Lookup error"), ("?", "Checking..."),
    ] {
        e.atno_status = Some(status.to_string());
        assert_eq!(dxcc_tip(&e), format!("Japan\n{}", text));
    }
    assert_eq!(comment_display(&e), "");
    e.spot.comments = Some("ä".repeat(28));
    assert_eq!(comment_display(&e), "ä".repeat(28));
    e.spot.comments = Some("ä".repeat(29));
    assert_eq!(comment_display(&e), format!("{}…", "ä".repeat(26)));
}

#[test]
fn ages_and_bands_have_colours() {
    for (mins, shade) in [(-3, AgeShade::Fresh), (14, AgeShade::Fresh), (15, AgeShade::Aging), (30, AgeShade::Aging), (31, AgeShade::Stale), (999, AgeShade::Stale)] {
        assert!(age_shade(mins) == shade);
    }
    assert_eq!(band_color("20m", true), (80, 160, 230));
    assert_eq!(band_color("20m", false), (40, 100, 180));
    assert_eq!(band_color("70cm", true), (160, 160, 160));
    assert_eq!(type_color(SpotType::Dx, true), (100, 170, 255));
    assert_eq!(type_color(SpotType::Wwff, false), (0, 150, 150));
}

#[test]
fn pages_are_linked() {
    let s = spot("W1AW");
    assert_eq!(qrz_url(&s), "https://www.qrz.com/db/W1AW");
    assert_eq!(hamqth_url(&s), "https://www.hamqth.com/W1AW");
    assert_eq!(reference_url(&s, SpotType::Pota), Some(("Open on POTA.app", "https://pota.app/#/park/K-0001".to_string())));
    assert_eq!(reference_url(&s, SpotType::Sota), Some(("Open on SOTAdata", "https://www.sotadata.org.uk/en/summit/K-0001".to_string())));
    assert_eq!(
        reference_url(&s, SpotType::Wwff),
        Some(("Open on WWFF Spotline", "https://spots.wwff.co/references/direct?wwff=K-0001".to_string()))
    );
    assert_eq!(reference_url(&s, SpotType::Dx), None);
    let mut bare = spot("W1AW");
    bare.reference = String::new();
    assert_eq!(reference_url(&bare, SpotType::Pota), None);
    assert_eq!(spot_grid(&bare), "");
    bare.grid4 = Some("FN31".to_string());
    assert_eq!(spot_grid(&bare), "FN31");
    bare.grid6 = Some("FN31pr".to_string());
    assert_eq!(spot_grid(&bare), "FN31pr");
}

#[test]
fn letters_do_nothing_while_the_user_types() {
    let all = Keys { down: true, up: true, enter: true, slash: true, escape: true, r: true, h: true, l: true, n: true };
    let everything = KeyActions {
        down: true,
        up: true,
        take_arrows: true,
        tune: true,
        search: true,
        close: true,
        refresh: true,
        hunt: true,
        log: true,
        not_heard: true,
    };
    assert!(all.actions(false) == everything);
    let typed = KeyActions {
        take_arrows: false,
        search: false,
        refresh: false,
        hunt: false,
        log: false,
        not_heard: false,
        ..everything
    };
    assert!(all.actions(true) == typed);
    let h = Keys { down: false, up: false, enter: false, slash: false, escape: false, r: false, l: false, n: false, ..all };
    let a = h.actions(false);
    assert!(a.hunt && !a.log && !a.refresh && !a.not_heard && !a.take_arrows && !a.tune);
}

#[test]
fn a_session_starts_without_a_message() {
    let a = app();
    assert_eq!((a.status.text.as_str(), a.status.snapshot.as_str(), a.status.changed_at), ("", "", None));
}
