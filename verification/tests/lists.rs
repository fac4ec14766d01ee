use basecamp::app::PotaHunterApp;
use basecamp::clock::Moment;
use basecamp::filter::{is_within_limit, Filters, SortColumn};
use basecamp::hunter::Session;
use basecamp::keyset::KeySet;
use basecamp::lookup::Finding;
use basecamp::number::Number;
use basecamp::options::rebuild_filter_options;
use basecamp::settings::Settings;
use basecamp::spot::{PotaSpot, SotaSpot, SpotEntry, SpotType, WwffSpot};
use basecamp::state::AppState;

/// 2025-03-16T14:30:00Z
const NOW: Moment = Moment { secs: 1_742_135_400, nanos: 0 };

fn spot(call: &str, freq: &str, mode: &str, reference: &str, time: &str) -> PotaSpot {
    PotaSpot {
        spot_id: None,
        activator: call.to_string(),
        frequency: freq.to_string(),
        mode: mode.to_string(),
        reference: reference.to_string(),
        park_name: None,
        spot_time: if time.is_empty() { None } else { Some(time.to_string()) },
        spotter: None,
        comments: None,
        source: None,
        name: None,
        location_desc: Some("US-FL".to_string()),
        grid4: None,
        grid6: None,
    }
}

fn fetched(spots: Vec<PotaSpot>) -> AppState {
    let mut state = AppState::new();
    assert!(state.trigger_fetch());
    let none = KeySet::new();
    state.finish_fetch(Ok(spots), Ok(Vec::new()), Ok(Vec::new()), Vec::new(), &none, &none, 7);
    state
}

fn filters() -> Filters {
    let mut f = PotaHunterApp::with_settings(Settings::default()).filters;
    f.max_age_mins = 0;
    f
}

fn shown(f: &Filters, state: &AppState) -> Vec<String> {
    assert!(f.can_show(state));
    f.filtered_spots_at(state, NOW).iter().map(|(i, e)| {
        assert_eq!(state.spots[*i].spot.activator, e.spot.activator);
        format!("{}@{}", e.spot.activator, e.spot.reference)
    }).collect()
}

#[test]
fn a_fetch_starts_once() {
    let mut state = AppState::new();
    state.fetch_error = Some("old".to_string());
    assert!(state.trigger_fetch());
    assert!(state.is_fetching);
    assert_eq!(state.fetch_error, None);
    state.fetch_error = Some("kept".to_string());
    assert!(!state.trigger_fetch());
    assert_eq!(state.fetch_error.as_deref(), Some("kept"));
}

#[test]
fn sources_are_merged() {
    let mut state = AppState::new();
    state.trigger_fetch();
    let mut hunted = KeySet::new();
    hunted.insert("K7ABC-W7I/SI-153".to_string());
    hunted.insert("DX-JA1A".to_string());
    let mut unheard = KeySet::new();
    unheard.insert("W1AW-K-0001".to_string());
    let sota = SotaSpot {
        activator_callsign: "K7ABC".to_string(),
        frequency: "14.062".to_string(),
        mode: "cw".to_string(),
        summit_code: "W7I/SI-153".to_string(),
        summit_details: None,
        time_stamp: None,
        comments: Some("Going qrt".to_string()),
        callsign: None,
    };
    let wwff = WwffSpot {
        id: None,
        activator: "VK3A".to_string(),
        frequency_khz: Number::from_bits(7059.5f64.to_bits()),
        mode: "SSB".to_string(),
        reference: "VKFF-1925".to_string(),
        reference_name: String::new(),
        remarks: String::new(),
        spotter: String::new(),
        spot_time_formatted: None,
    };
    let mut dx = spot("JA1A", "21074", "FT8", "", "");
    dx.comments = Some("QRT".to_string());
    state.finish_fetch(
        Ok(vec![spot("W1AW", "14250", "SSB", "K-0001", "")]),
        Ok(vec![sota]),
        Ok(vec![wwff]),
        vec![dx],
        &hunted,
        &unheard,
        99,
    );
    assert!(!state.is_fetching);
    assert_eq!(state.last_fetch, Some(99));
    let rows: Vec<(&str, &str, &str, &str, bool, bool, bool)> = state
        .spots
        .iter()
        .map(|e| (e.spot_type.label(), e.spot.activator.as_str(), e.band.as_str(), e.country.as_str(), e.hunted, e.is_qrt, e.not_heard))
        .collect();
    assert_eq!(
        rows,
        [
            ("POTA", "W1AW", "20m", "US", false, false, true),
            ("SOTA", "K7ABC", "20m", "W7I", true, true, false),
            ("WWFF", "VK3A", "40m", "VKFF", false, false, false),
            ("DX", "JA1A", "15m", "", true, true, false),
        ]
    );
}

#[test]
fn errors_are_collected_unless_there_are_spots() {
    let none = KeySet::new();
    let mut state = AppState::new();
    state.trigger_fetch();
    state.finish_fetch(Err("a".to_string()), Err("b".to_string()), Err("c".to_string()), Vec::new(), &none, &none, 1);
    assert_eq!(state.fetch_error.as_deref(), Some("POTA: a | SOTA: b | WWFF: c"));
    state.trigger_fetch();
    state.finish_fetch(Ok(Vec::new()), Ok(Vec::new()), Err("c".to_string()), Vec::new(), &none, &none, 1);
    assert_eq!(state.fetch_error.as_deref(), Some("WWFF: c"));
    state.trigger_fetch();
    state.finish_fetch(Err("a".to_string()), Ok(Vec::new()), Err("c".to_string()), Vec::new(), &none, &none, 1);
    assert_eq!(state.fetch_error.as_deref(), Some("POTA: a | WWFF: c"));
    state.trigger_fetch();
    state.finish_fetch(Err("a".to_string()), Err("b".to_string()), Err("c".to_string()), vec![spot("A", "7000", "", "", "")], &none, &none, 1);
    assert_eq!(state.fetch_error, None);
    assert_eq!(state.spots.len(), 1);
}

#[test]
fn options_are_sorted_and_distinct() {
    let mut state = fetched(vec![
        spot("A", "14250", "ssb", "", ""),
        spot("B", "7030", "CW", "", ""),
        spot("C", "14000", "SSB", "", ""),
        spot("D", "x", "", "", ""),
    ]);
    state.spots[1].country = "VE".to_string();
    state.spots[2].country = String::new();
    let o = rebuild_filter_options(&state);
    assert_eq!(o.bands, ["20m", "40m"]);
    assert_eq!(o.modes, ["CW", "SSB"]);
    assert_eq!(o.countries, ["All", "US", "VE"]);
    let o = rebuild_filter_options(&AppState::new());
    assert_eq!(o.countries, ["All"]);
    assert!(o.bands.is_empty());
}

#[test]
fn filters_let_pass_what_is_wanted() {
    let mut state = fetched(vec![
        spot("W1AW", "14250", "SSB", "K-0001", "14:29"),
        spot("K5ABC", "7030", "CW", "K-0045", "14:00"),
        spot("N0X", "7074", "FT8", "K-0099", "13:00"),
    ]);
    state.spots[1].hunted = true;
    state.spots[2].is_qrt = true;
    state.spots[2].spot.park_name = Some("Grand Teton".to_string());
    let all = ["W1AW@K-0001", "K5ABC@K-0045", "N0X@K-0099"];
    let mut f = filters();
    assert_eq!(shown(&f, &state), all);
    f.bands.insert("40m".to_string());
    assert_eq!(shown(&f, &state), all[1..]);
    f.modes.insert("CW".to_string());
    assert_eq!(shown(&f, &state), all[1..2]);
    f.clear(0);
    f.types.toggle(SpotType::Dx);
    assert!(shown(&f, &state).is_empty());
    f.types.set_only(SpotType::Pota);
    assert_eq!(shown(&f, &state), all);
    f.types.toggle(SpotType::Pota);
    assert!(f.types.is_empty());
    f.country = "VE".to_string();
    assert!(shown(&f, &state).is_empty());
    f.country = "US".to_string();
    assert_eq!(shown(&f, &state), all);
    for (search, n) in [("w1", 1), ("k-00", 3), ("TETON", 1), ("zzz", 0), ("abc", 1)] {
        f.callsign = search.to_string();
        assert_eq!(shown(&f, &state).len(), n, "{}", search);
    }
    f.clear(0);
    f.hide_hunted = true;
    f.hide_qrt = true;
    assert_eq!(shown(&f, &state), all[..1]);
    f.clear(0);
    assert_eq!(shown(&f, &state), all);
    f.clear(15);
    assert_eq!(shown(&f, &state), all[..1]);
    f.max_age_mins = 30;
    assert_eq!(shown(&f, &state), all[..2]);
    state.spots[2].spot.spot_time = None;
    assert_eq!(shown(&f, &state), all);
}

#[test]
fn rows_are_sorted() {
    let mut state = fetched(vec![
        spot("B", "7030", "CW", "R3", "2025-03-16T14:00:00"),
        spot("A", "14250", "SSB", "R1", "2025-03-16T14:10:00"),
        spot("C", "bad", "CW", "R2", "2025-03-16T14:20:00"),
        spot("A", "3.5e3", "AM", "R4", "2025-03-16T14:20:00"),
    ]);
    state.spots[0].spot.grid6 = Some("EM75".to_string());
    state.spots[1].spot.grid4 = Some("FN31".to_string());
    state.spots[0].spot.comments = Some("zz".to_string());
    state.spots[3].spot.park_name = Some("Alpha".to_string());
    state.spots[2].country = "AA".to_string();
    state.spots[1].spot_type = SpotType::Dx;
    let mut f = filters();
    let mut by = |column: SortColumn, up: bool| {
        f.sort_column = column;
        f.sort_ascending = up;
        shown(&f, &state).iter().map(|s| s[s.len() - 2..].to_string()).collect::<Vec<_>>().join(" ")
    };
    assert_eq!(by(SortColumn::SpotTime, false), "R4 R2 R1 R3");
    assert_eq!(by(SortColumn::SpotTime, true), "R3 R1 R4 R2");
    assert_eq!(by(SortColumn::Activator, true), "R4 R1 R3 R2");
    assert_eq!(by(SortColumn::Activator, false), "R2 R3 R4 R1");
    assert_eq!(by(SortColumn::Frequency, true), "R2 R4 R3 R1");
    assert_eq!(by(SortColumn::Frequency, false), "R1 R3 R4 R2");
    assert_eq!(by(SortColumn::Mode, true), "R4 R2 R3 R1");
    assert_eq!(by(SortColumn::Reference, true), "R1 R2 R3 R4");
    assert_eq!(by(SortColumn::Park, true), "R4 R1 R2 R3");
    assert_eq!(by(SortColumn::Location, true), "R2 R4 R1 R3");
    assert_eq!(by(SortColumn::Comment, false), "R3 R4 R2 R1");
    assert_eq!(by(SortColumn::Distance, false), "R1 R3 R4 R2");
    assert_eq!(by(SortColumn::Band, true), "R1 R3 R4 R2");
    assert_eq!(by(SortColumn::Type, true), "R1 R4 R2 R3");
}

#[test]
fn equal_rows_stay_as_they_stand() {
    let state = fetched(vec![spot("A", "1", "", "X", ""), spot("A", "2", "", "Y", ""), spot("A", "3", "", "Z", "")]);
    let mut f = filters();
    for up in [true, false] {
        f.sort_ascending = up;
        assert_eq!(shown(&f, &state), ["A@X", "A@Y", "A@Z"]);
    }
}

#[test]
fn the_order_does_not_depend_on_the_list() {
    let spots = [
        spot("C", "7030", "CW", "1", "14:00"),
        spot("A", "7030", "CW", "2", "14:00"),
        spot("B", "7030", "CW", "3", "14:05"),
    ];
    let mut f = filters();
    f.sort_column = SortColumn::Frequency;
    let one = shown(&f, &fetched(vec![spots[0].clone(), spots[1].clone(), spots[2].clone()]));
    let two = shown(&f, &fetched(vec![spots[2].clone(), spots[0].clone(), spots[1].clone()]));
    assert_eq!(one, two);
    assert_eq!(one, ["B@3", "A@2", "C@1"]);
}

#[test]
fn duplicates_give_way_to_the_newest() {
    let state = fetched(vec![
        spot("W1AW", "14250", "SSB", "old", "14:00"),
        spot("w1aw", "7030", "CW", "new", "14:20"),
        spot("K1A", "7030", "CW", "only", "13:00"),
        spot("W1AW", "3500", "CW", "same", "14:20"),
    ]);
    let mut f = filters();
    f.hide_dupes = true;
    f.sort_column = SortColumn::Frequency;
    f.sort_ascending = true;
    assert_eq!(shown(&f, &state), ["W1AW@same", "K1A@only"]);
    f.sort_ascending = false;
    assert_eq!(shown(&f, &state), ["w1aw@new", "K1A@only"]);
    f.bands.insert("20m".to_string());
    assert_eq!(shown(&f, &state), ["W1AW@old"]);
}

#[test]
fn a_list_that_cannot_be_shown_is_noticed() {
    let state = fetched(vec![spot("A", "14250", "CW", "", "2025-03-16T14:23:0€€")]);
    let mut f = filters();
    assert!(f.can_show(&state));
    f.max_age_mins = 15;
    assert!(!f.can_show(&state));
    assert!(f.get_filtered_spots(&state).is_none());
    f.bands.insert("40m".to_string());
    assert_eq!(f.get_filtered_spots(&state).map(|v| v.len()), Some(0));
    f.clear(0);
    assert_eq!(f.get_filtered_spots(&state).map(|v| v.len()), Some(1));
}

#[test]
fn frequencies_that_cannot_be_read_count_as_zero() {
    let state = fetched(vec![spot("A", "7000", "", "1", ""), spot("B", "?", "", "2", ""), spot("C", "-1", "", "3", "")]);
    let mut f = filters();
    f.sort_column = SortColumn::Frequency;
    f.sort_ascending = true;
    assert_eq!(shown(&f, &state), ["C@3", "B@2", "A@1"]);
}

#[test]
fn a_frequency_that_is_not_a_number_leaves_the_order_to_the_time() {
    let mut f = filters();
    f.sort_column = SortColumn::Frequency;
    for ascending in [true, false] {
        f.sort_ascending = ascending;
        let newer = fetched(vec![spot("A", "5", "", "1", "10:00"), spot("B", "nan", "", "2", "11:00")]);
        assert_eq!(shown(&f, &newer), ["B@2", "A@1"]);
        let older = fetched(vec![spot("B", "nan", "", "2", "09:00"), spot("A", "5", "", "1", "10:00")]);
        assert_eq!(shown(&f, &older), ["A@1", "B@2"]);
        let same = fetched(vec![spot("B", "nan", "", "2", "10:00"), spot("A", "-5", "", "1", "10:00")]);
        assert_eq!(shown(&f, &same), ["A@1", "B@2"]);
    }
    f.sort_ascending = true;
    let three = fetched(vec![spot("A", "7000", "", "1", "1"), spot("B", "NaN", "", "2", "3"), spot("C", "-1", "", "3", "2")]);
    assert_eq!(shown(&f, &three), ["B@2", "C@3", "A@1"]);
    // Each of these comes before the next, and the last before the first: all are shown
    let round = fetched(vec![spot("A", "7000", "", "1", "3"), spot("B", "NaN", "", "2", "2"), spot("C", "-1", "", "3", "1")]);
    let mut rows = shown(&f, &round);
    rows.sort();
    assert_eq!(rows, ["A@1", "B@2", "C@3"]);
}

#[test]
fn the_stored_order_does_not_matter() {
    let spots = [
        spot("W1A", "7030", "CW", "1", "10:00"),
        spot("w1a", "14030", "SSB", "2", "11:00"),
        spot("K2B", "7030", "FT8", "3", "10:30"),
        spot("K2B", "21000", "CW", "4", "09:00"),
    ];
    let mut f = filters();
    for dupes in [false, true] {
        f.hide_dupes = dupes;
        for column in [SortColumn::Frequency, SortColumn::SpotTime, SortColumn::Mode, SortColumn::Activator] {
            f.sort_column = column;
            let first = shown(&f, &fetched(spots.to_vec()));
            assert_eq!(first.len(), if dupes { 2 } else { 4 });
            for i in 0..24 {
                let mut rest: Vec<PotaSpot> = spots.to_vec();
                let mut mixed: Vec<PotaSpot> = Vec::new();
                for (size, step) in [(4, 6), (3, 2), (2, 1), (1, 1)] {
                    mixed.push(rest.remove(i / step % size));
                }
                assert_eq!(shown(&f, &fetched(mixed)), first);
            }
        }
    }
}

#[test]
fn columns_are_toggled() {
    let mut f = filters();
    assert!(f.sort_column == SortColumn::SpotTime && !f.sort_ascending);
    assert_eq!(f.sort_indicator(SortColumn::SpotTime), " ▼");
    f.toggle_sort(SortColumn::SpotTime);
    assert_eq!(f.sort_indicator(SortColumn::SpotTime), " ▲");
    f.toggle_sort(SortColumn::Band);
    assert!(f.sort_column == SortColumn::Band && f.sort_ascending);
    assert_eq!(f.sort_indicator(SortColumn::SpotTime), "");
    f.toggle_sort(SortColumn::Band);
    assert!(!f.sort_ascending);
}

#[test]
fn logged_calls_mark_their_spots() {
    let mut state = fetched(vec![
        spot("W1AW", "14250", "SSB", "K-0001", ""),
        spot("w1aw", "7030", "CW", "K-0002", ""),
        spot("K1A", "7030", "CW", "K-0003", ""),
    ]);
    state.spots[1].spot_type = SpotType::Dx;
    let mut s = Session::new();
    let said = s.process_logged_calls(&mut state, &vec!["w1Aw".to_string(), "NOBODY".to_string()]);
    assert_eq!(said.as_deref(), Some("✅ Auto-hunted w1aw (K-0002)"));
    assert_eq!(state.spots.iter().map(|e| e.hunted).collect::<Vec<_>>(), [true, true, false]);
    assert!(s.hunted_set.contains("W1AW-K-0001"));
    assert!(s.hunted_set.contains("DX-w1aw"));
    assert_eq!(s.hunted_set.len(), 2);
    assert_eq!(s.process_logged_calls(&mut state, &vec!["W1AW".to_string()]), None);
    assert_eq!(s.process_logged_calls(&mut state, &vec![]), None);
}

#[test]
fn marks_are_set_and_taken_back() {
    let mut state = fetched(vec![spot("W1AW", "14250", "SSB", "K-0001", "")]);
    let mut s = Session::new();
    assert!(s.toggle_hunted(&mut state, "W1AW-K-0001"));
    assert!(state.spots[0].hunted && s.hunted_set.contains("W1AW-K-0001"));
    assert!(!s.toggle_hunted(&mut state, "W1AW-K-0001"));
    assert!(!state.spots[0].hunted && s.hunted_set.is_empty());
    assert!(s.toggle_not_heard(&mut state, "other"));
    assert!(!state.spots[0].not_heard && s.not_heard_set.contains("other"));
    assert!(s.toggle_not_heard(&mut state, "W1AW-K-0001"));
    assert!(state.spots[0].not_heard);
    s.note_logged(&mut state, "W1AW-K-0001");
    assert!(state.spots[0].hunted);
    state.spots[0].not_heard = true;
    s.clear_hunted(&mut state);
    assert!(!state.spots[0].hunted && !state.spots[0].not_heard);
    assert!(s.hunted_set.is_empty() && s.not_heard_set.is_empty());
}

#[test]
fn marks_follow_the_keys() {
    let mut state = fetched(vec![
        spot("JA1A", "14030", "CW", "", ""),
        spot("JA1A", "7030", "CW", "", ""),
        spot("W1AW", "7030", "CW", "", ""),
    ]);
    for e in state.spots.iter_mut() {
        e.spot_type = SpotType::Dx;
    }
    let mut s = Session::new();
    let in_step = |state: &AppState, s: &Session| {
        state.spots.iter().all(|e| {
            e.hunted == s.hunted_set.contains(&e.spot_key()) && e.not_heard == s.not_heard_set.contains(&e.spot_key())
        })
    };
    s.toggle_hunted(&mut state, "DX-JA1A");
    assert!(state.spots[0].hunted && state.spots[1].hunted && !state.spots[2].hunted);
    assert!(in_step(&state, &s));
    s.toggle_not_heard(&mut state, "DX-W1AW");
    assert!(in_step(&state, &s));
    s.process_logged_calls(&mut state, &vec!["w1aw".to_string()]);
    assert!(in_step(&state, &s));
    s.toggle_hunted(&mut state, "DX-JA1A");
    s.note_logged(&mut state, "DX-JA1A");
    assert!(in_step(&state, &s));
    assert_eq!(s.hunted_set.len(), 2);
}

fn finding(key: &str, call: &str, country: &str, status: &str) -> Finding {
    Finding { cache_key: key.to_string(), call: call.to_string(), country: country.to_string(), status: status.to_string() }
}

#[test]
fn findings_reach_every_spot_they_are_about() {
    let mut state = fetched(vec![
        spot("JA1A", "14030", "cw", "1", ""),
        spot("JA1A", "14030", "CW", "2", ""),
        spot("JA1A", "7030", "CW", "3", ""),
        spot("DL1", "7030", "CW", "4", ""),
    ]);
    let mut s = Session::new();
    let asked: Vec<String> = s.queue_dxcc_lookups(&state).iter().map(|w| format!("{} {} {}", w.call, w.band, w.mode)).collect();
    assert_eq!(asked, ["JA1A 20m CW", "JA1A 40m CW", "DL1 40m CW"]);
    let key = state.spots[1].spot_key();
    assert!(s.toggle_hunted(&mut state, &key));
    s.apply_dxcc_results(&mut state, &vec![
        finding("JA1A|20m|CW", "JA1A", "Japan", "ATNO"),
        finding("DL1|40m|CW", "DL1", "", "ERR"),
    ]);
    let got: Vec<(Option<&str>, Option<&str>)> =
        state.spots.iter().map(|e| (e.atno_status.as_deref(), e.dxcc_country.as_deref())).collect();
    assert_eq!(got, [(Some("ATNO"), Some("Japan")), (Some("ATNO"), Some("Japan")), (None, None), (Some("ERR"), None)]);
    assert_eq!(s.atno_alert_count, 2);
    assert_eq!(state.spots.iter().map(|e| e.hunted).collect::<Vec<bool>>(), [false, true, false, false]);
    s.clear_hunted(&mut state);
    assert!(state.spots.iter().all(|e| !e.hunted && !e.not_heard));
    let mut fresh = fetched(vec![spot("JA1A", "14031", "Cw", "9", ""), spot("", "1", "", "", "")]);
    assert!(s.queue_dxcc_lookups(&fresh).is_empty());
    s.apply_dxcc_results(&mut fresh, &vec![]);
    assert_eq!(fresh.spots[0].atno_status.as_deref(), Some("ATNO"));
    assert_eq!(s.atno_alert_count, 1);
    let many: Vec<PotaSpot> = (0..30).map(|i| spot(&format!("K{}A", i), "7030", "CW", "", "")).collect();
    let asked = Session::new().queue_dxcc_lookups(&fetched(many));
    assert_eq!(asked.len(), 20);
    assert_eq!(asked[19].call, "K19A");
}

#[test]
fn entries_are_copied_whole() {
    let state = fetched(vec![spot("A", "7030", "CW", "R", "x")]);
    let e: SpotEntry = state.spots[0].clone();
    assert_eq!(e.spot_key(), state.spots[0].spot_key());
    assert_eq!(e.spot.spot_time.as_deref(), Some("x"));
}

#[test]
fn ages_are_held_against_the_limit() {
    assert!(is_within_limit(15, 15));
    assert!(!is_within_limit(15, 16));
    assert!(!is_within_limit(15, 998));
    assert!(is_within_limit(15, 999));
    assert!(is_within_limit(15, 5000));
    assert!(is_within_limit(15, -3));
    assert!(is_within_limit(0, 16));
}
