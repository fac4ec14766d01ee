//! The application: its settings, its filters and what the user does with the list.
use crate::dxcluster::{node_texts, nodes_in, parse_nodes, DxClusterState};
use crate::filter::{Filters, FiltersText, SortColumn, TypeSet};
use crate::hunter::{hunted_by_key, not_heard_by_key, same_fetch, Session};
use crate::keyset::{toggled, KeySet};
use crate::n3fjp::N3fjpClient;
use crate::reading::{port_of, read_port};
use crate::select::{is_workable, next_workable, row_after, Selection, SelectionText};
use crate::settings::{Settings, SettingsText};
use crate::spot::{opt_text, PotaSpot, SpotEntry, SpotText};
use crate::state::AppState;
use crate::text::{pieces, same_text, texts, trim, trimmed};
use vstd::prelude::*;

verus! {

/// One second in nanoseconds.
pub const SECOND: u64 = 1_000_000_000;

/// The log's port where the settings name none that is one.
pub const LOG_PORT: u16 = 1100;

/// A message that goes away by itself. Times are in nanoseconds since a fixed start.
pub struct StatusLine {
    pub text: String,
    /// The text when it was looked at last.
    pub snapshot: String,
    pub changed_at: Option<u64>,
}

/// The contents of a [`StatusLine`].
#[verifier::ext_equal]
pub struct StatusText {
    pub text: Seq<char>,
    pub snapshot: Seq<char>,
    pub changed_at: Option<u64>,
}

impl View for StatusLine {
    type V = StatusText;

    open spec fn view(&self) -> StatusText {
        StatusText { text: self.text@, snapshot: self.snapshot@, changed_at: self.changed_at }
    }
}

impl StatusText {
    /// The line with another message.
    pub open spec fn showing(self, text: Seq<char>) -> StatusText {
        StatusText { text, ..self }
    }

    /// The line once it was noted that the text has changed.
    pub open spec fn noticed(self, now: u64) -> StatusText {
        if self.text == self.snapshot {
            self
        } else {
            StatusText {
                text: self.text,
                snapshot: self.text,
                changed_at: if self.text.len() > 0 {
                    Some(now)
                } else {
                    self.changed_at
                },
            }
        }
    }

    /// The message has stood for five seconds.
    pub open spec fn is_over(self, now: u64) -> bool {
        self.text.len() > 0 && (self.changed_at matches Some(t) && t + 5 * SECOND <= now)
    }

    /// The line at the moment `now`.
    pub open spec fn after_tick(self, now: u64) -> StatusText {
        let s = self.noticed(now);
        if s.is_over(now) {
            StatusText { text: Seq::empty(), snapshot: Seq::empty(), changed_at: None }
        } else {
            s
        }
    }
}

impl StatusLine {
    pub fn new() -> (r: StatusLine)
        ensures
            r@ == (StatusText { text: Seq::empty(), snapshot: Seq::empty(), changed_at: None }),
    {
        let r = StatusLine { text: String::new(), snapshot: String::new(), changed_at: None };
        proof {
            assert(r@ =~= (StatusText { text: Seq::empty(), snapshot: Seq::empty(), changed_at: None }));
        }
        r
    }

    /// Shows a message.
    pub fn say(&mut self, text: String)
        ensures
            final(self)@ == old(self)@.showing(text@),
    {
        self.text = text;
    }

    /// Lets time pass.
    pub fn tick(&mut self, now: u64)
        ensures
            final(self)@ == old(self)@.after_tick(now),
    {
        if !same_text(self.text.as_str(), self.snapshot.as_str()) {
            self.snapshot = self.text.clone();
            if !self.text.as_str().is_empty() {
                self.changed_at = Some(now);
            }
        }
        if let Some(t) = self.changed_at {
            if !self.text.as_str().is_empty() && now >= 5 * SECOND && now - 5 * SECOND >= t {
                *self = StatusLine::new();
            }
        }
    }
}

/// A message that was noted stays for five seconds, and is gone after that.
pub proof fn law_message_goes_away(s: StatusText, first: u64, later: u64)
    requires
        s.text.len() > 0,
        s.text != s.snapshot,
        first <= later,
    ensures
        s.after_tick(first).text == s.text,
        later < first + 5 * SECOND ==> s.after_tick(first).after_tick(later).text == s.text,
        later >= first + 5 * SECOND ==> s.after_tick(first).after_tick(later).text.len() == 0,
{
}

/// More than the interval has passed since the last fetch, or there was none.
pub open spec fn is_due(last_fetch: Option<u64>, interval_secs: u32, now: u64) -> bool {
    match last_fetch {
        Some(t) => now > t + interval_secs * SECOND,
        None => true,
    }
}

/// The full seconds since a moment; none where it is still to come.
pub open spec fn seconds_since(t: u64, now: u64) -> nat {
    if now >= t {
        ((now - t) / SECOND as int) as nat
    } else {
        0
    }
}

pub fn elapsed_secs(t: u64, now: u64) -> (r: u64)
    ensures
        r == seconds_since(t, now),
{
    if now >= t {
        (now - t) / SECOND
    } else {
        0
    }
}

/// The application.
pub struct PotaHunterApp {
    pub n3fjp_host: String,
    pub n3fjp_port: String,
    pub status: StatusLine,
    pub dx_callsign: String,
    pub dx_nodes: String,
    pub dx_auto_start: bool,
    pub filters: Filters,
    pub auto_refresh: bool,
    pub refresh_interval_secs: u32,
    pub session: Session,
    /// The key of the spot that the radio was tuned to last.
    pub last_tuned_key: Option<String>,
    pub my_grid: String,
    pub dark_mode: bool,
    pub selection: Selection,
    pub show_settings: bool,
    pub show_filters: bool,
    pub search_focus_requested: bool,
    pub menu_open: bool,
}

impl PotaHunterApp {
    /// The settings that are kept.
    pub open spec fn settings(&self) -> SettingsText {
        SettingsText {
            n3fjp_host: self.n3fjp_host@,
            n3fjp_port: self.n3fjp_port@,
            dx_callsign: self.dx_callsign@,
            dx_nodes: self.dx_nodes@,
            dx_auto_start: self.dx_auto_start,
            auto_refresh: self.auto_refresh,
            refresh_interval_secs: self.refresh_interval_secs,
            my_grid: self.my_grid@,
            dark_mode: self.dark_mode,
            hide_dupes: self.filters.hide_dupes,
            hide_qrt: self.filters.hide_qrt,
            max_age_mins: self.filters.max_age_mins,
        }
    }

    /// The application at the start of a session.
    pub fn with_settings(s: Settings) -> (r: PotaHunterApp)
        ensures
            r.settings() == s@,
            r.filters@ == (FiltersText {
                bands: Set::empty(),
                modes: Set::empty(),
                types: TypeSet { pota: false, sota: false, dx: false, wwff: false },
                country: "All"@,
                callsign: Seq::empty(),
                hide_hunted: false,
                hide_dupes: s.hide_dupes,
                hide_qrt: s.hide_qrt,
                max_age_mins: s.max_age_mins,
                sort_column: SortColumn::SpotTime,
                sort_ascending: false,
            }),
            r.status@ == (StatusText { text: Seq::empty(), snapshot: Seq::empty(), changed_at: None }),
            r.session.hunted_set@ == Set::<Seq<char>>::empty(),
            r.session.not_heard_set@ == Set::<Seq<char>>::empty(),
            r.session.dxcc_cache@ == Map::<Seq<char>, String>::empty(),
            r.session.atno_cache@ == Map::<Seq<char>, String>::empty(),
            r.session.atno_alert_count == 0,
            r.last_tuned_key is None,
            r.selection@ == (SelectionText { key: None, row: None, scroll: false }),
            !r.show_settings,
            r.show_filters,
            !r.search_focus_requested,
            !r.menu_open,
    {
        let filters = Filters {
            bands: KeySet::new(),
            modes: KeySet::new(),
            types: TypeSet::new(),
            country: "All".to_owned(),
            callsign: String::new(),
            hide_hunted: false,
            hide_dupes: s.hide_dupes,
            hide_qrt: s.hide_qrt,
            max_age_mins: s.max_age_mins,
            sort_column: SortColumn::SpotTime,
            sort_ascending: false,
        };
        proof {
            assert(filters.callsign@ =~= Seq::<char>::empty());
        }
        PotaHunterApp {
            n3fjp_host: s.n3fjp_host,
            n3fjp_port: s.n3fjp_port,
            status: StatusLine::new(),
            dx_callsign: s.dx_callsign,
            dx_nodes: s.dx_nodes,
            dx_auto_start: s.dx_auto_start,
            filters,
            auto_refresh: s.auto_refresh,
            refresh_interval_secs: s.refresh_interval_secs,
            session: Session::new(),
            last_tuned_key: None,
            my_grid: s.my_grid,
            dark_mode: s.dark_mode,
            selection: Selection::new(),
            show_settings: false,
            show_filters: true,
            search_focus_requested: false,
            menu_open: false,
        }
    }

    /// The settings to keep.
    pub fn current_settings(&self) -> (r: Settings)
        ensures
            r@ == self.settings(),
    {
        Settings {
            n3fjp_host: self.n3fjp_host.clone(),
            n3fjp_port: self.n3fjp_port.clone(),
            dx_callsign: self.dx_callsign.clone(),
            dx_nodes: self.dx_nodes.clone(),
            dx_auto_start: self.dx_auto_start,
            auto_refresh: self.auto_refresh,
            refresh_interval_secs: self.refresh_interval_secs,
            my_grid: self.my_grid.clone(),
            dark_mode: self.dark_mode,
            hide_dupes: self.filters.hide_dupes,
            hide_qrt: self.filters.hide_qrt,
            max_age_mins: self.filters.max_age_mins,
        }
    }

    /// The port of the log.
    pub fn log_port(&self) -> (r: u16)
        ensures
            r == match port_of(self.n3fjp_port@) {
                Some(p) => p,
                None => LOG_PORT,
            },
            port_of(self.n3fjp_port@) is None ==> r == 1100,
    {
        match read_port(self.n3fjp_port.as_str()) {
            Some(p) => p,
            None => LOG_PORT,
        }
    }

    /// The log, as the settings name it.
    pub fn client(&self) -> (r: N3fjpClient)
        ensures
            r.host@ == self.n3fjp_host@,
            r.port == match port_of(self.n3fjp_port@) {
                Some(p) => p,
                None => LOG_PORT,
            },
    {
        N3fjpClient::new(self.n3fjp_host.as_str(), self.log_port())
    }

    /// The nodes of the cluster.
    pub fn parse_dx_nodes(&self) -> (r: Vec<(String, u16)>)
        ensures
            node_texts(r@) == nodes_in(pieces(self.dx_nodes@, '\n')),
    {
        parse_nodes(self.dx_nodes.as_str())
    }

    /// Whether the cluster is to be started with the session.
    pub fn starts_cluster(&self) -> (r: bool)
        ensures
            r == (self.dx_auto_start && trim(self.dx_callsign@).len() > 0),
    {
        self.dx_auto_start && !trimmed(self.dx_callsign.as_str()).is_empty()
    }

    /// Whether the spots are to be fetched again.
    pub fn should_refresh(&self, state: &AppState, now: u64) -> (r: bool)
        ensures
            r == (self.auto_refresh && is_due(state.last_fetch, self.refresh_interval_secs, now)),
    {
        if !self.auto_refresh {
            return false;
        }
        match state.last_fetch {
            Some(t) => now > t && now - t > self.refresh_interval_secs as u64 * SECOND,
            None => true,
        }
    }

    /// The seconds until the spots are fetched again; `None` where they are not, or are being
    /// fetched.
    pub fn countdown(&self, state: &AppState, now: u64) -> (r: Option<u64>)
        ensures
            ({
                let elapsed = match state.last_fetch {
                    Some(t) => seconds_since(t, now),
                    None => 0,
                };
                match r {
                    Some(left) => {
                        &&& !state.is_fetching && self.auto_refresh && self.refresh_interval_secs > 0
                        &&& left == if elapsed < self.refresh_interval_secs {
                            self.refresh_interval_secs - elapsed
                        } else {
                            0
                        }
                    },
                    None => state.is_fetching || !self.auto_refresh || self.refresh_interval_secs == 0,
                }
            }),
            r matches Some(left) ==> left <= self.refresh_interval_secs,
            r matches Some(left) ==> left > 0 && state.last_fetch is Some ==> !is_due(
                state.last_fetch,
                self.refresh_interval_secs,
                now,
            ),
    {
        if state.is_fetching || !self.auto_refresh || self.refresh_interval_secs == 0 {
            return None;
        }
        let elapsed: u64 = match state.last_fetch {
            Some(t) => elapsed_secs(t, now),
            None => 0,
        };
        let interval: u64 = self.refresh_interval_secs as u64;
        if elapsed < interval {
            Some(interval - elapsed)
        } else {
            Some(0)
        }
    }

    /// The user pressed the key that closes things: the menu, else the settings, else the search is
    /// cleared.
    pub fn escape(&mut self)
        ensures
            final(self).menu_open == false,
            final(self).show_settings == (old(self).show_settings && old(self).menu_open),
            final(self).filters@ == if old(self).menu_open || old(self).show_settings {
                old(self).filters@
            } else {
                (FiltersText { callsign: Seq::empty(), ..old(self).filters@ })
            },
            final(self).settings() == old(self).settings(),
            final(self).selection == old(self).selection,
            final(self).session == old(self).session,
            final(self).show_filters == old(self).show_filters,
            final(self).search_focus_requested == old(self).search_focus_requested,
            final(self).status == old(self).status,
            final(self).last_tuned_key == old(self).last_tuned_key,
    {
        if self.menu_open {
            self.menu_open = false;
        } else if self.show_settings {
            self.show_settings = false;
        } else {
            self.filters.callsign = String::new();
            proof {
                assert(self.filters.callsign@ =~= Seq::<char>::empty());
            }
        }
    }

    /// The user asked for the search, which stands among the filters.
    pub fn ask_search(&mut self)
        ensures
            final(self).search_focus_requested,
            final(self).show_filters,
            final(self).filters == old(self).filters,
            final(self).settings() == old(self).settings(),
            final(self).selection == old(self).selection,
            final(self).session == old(self).session,
            final(self).menu_open == old(self).menu_open,
            final(self).show_settings == old(self).show_settings,
            final(self).status == old(self).status,
            final(self).last_tuned_key == old(self).last_tuned_key,
    {
        self.search_focus_requested = true;
        self.show_filters = true;
    }
}

/// The first spots of the cluster are ready: they are to be fetched, unless a fetch is under way; the
/// sign for it stands until one can start. Tells whether it is to start.
pub fn take_refresh(dx: &mut DxClusterState, state: &AppState) -> (r: bool)
    ensures
        r == (old(dx).needs_refresh && !state.is_fetching),
        final(dx).needs_refresh == (old(dx).needs_refresh && state.is_fetching),
        final(dx).cached_spots == old(dx).cached_spots,
        final(dx).connected == old(dx).connected,
        final(dx).status == old(dx).status,
{
    if dx.needs_refresh && !state.is_fetching {
        dx.needs_refresh = false;
        return true;
    }
    false
}

/// What is said when the radio was tuned.
pub open spec fn tuned_text(s: SpotText) -> Seq<char> {
    "Tuned to "@ + s.activator + " on "@ + s.frequency + " kHz"@
}

/// What is said when a spot was logged.
pub open spec fn logged_text(s: SpotText, brief: bool) -> Seq<char> {
    if brief {
        "Logged "@ + s.activator
    } else {
        "Logged "@ + s.activator + " to AC Log"@
    }
}

/// What is said when the radio was tuned to the spot after one that was not heard.
pub open spec fn skipped_text(s: SpotText) -> Seq<char> {
    "NH → tuned to "@ + s.activator + " on "@ + s.frequency + " kHz"@
}

impl PotaHunterApp {
    /// Nothing has changed but the message, the last tuned spot and what is named in addition.
    pub open spec fn same_view(&self, other: &PotaHunterApp) -> bool {
        &&& self.filters == other.filters
        &&& self.settings() == other.settings()
        &&& self.show_settings == other.show_settings
        &&& self.show_filters == other.show_filters
        &&& self.search_focus_requested == other.search_focus_requested
        &&& self.menu_open == other.menu_open
    }

    /// The radio was tuned to a spot, or was not.
    pub fn note_tuned(&mut self, spot: &PotaSpot, key: &str, outcome: Result<String, String>)
        ensures
            final(self).same_view(old(self)),
            final(self).session == old(self).session,
            final(self).selection == old(self).selection,
            match outcome {
                Ok(_) => {
                    &&& final(self).status@ == old(self).status@.showing(tuned_text(spot@))
                    &&& opt_text(final(self).last_tuned_key) == Some(key@)
                },
                Err(e) => {
                    &&& final(self).status@ == old(self).status@.showing("Tune failed: "@ + e@)
                    &&& final(self).last_tuned_key == old(self).last_tuned_key
                },
            },
    {
        match outcome {
            Ok(_) => {
                let mut t = "Tuned to ".to_owned();
                t.append(spot.activator.as_str());
                t.append(" on ");
                t.append(spot.frequency.as_str());
                t.append(" kHz");
                self.status.say(t);
                self.last_tuned_key = Some(key.to_owned());
            },
            Err(e) => {
                let mut t = "Tune failed: ".to_owned();
                t.append(e.as_str());
                self.status.say(t);
            },
        }
    }

    /// A spot was logged, or was not.
    pub fn note_logged(
        &mut self,
        state: &mut AppState,
        spot: &PotaSpot,
        key: &str,
        outcome: Result<String, String>,
        brief: bool,
    )
        ensures
            final(self).same_view(old(self)),
            final(self).selection == old(self).selection,
            final(self).last_tuned_key == old(self).last_tuned_key,
            final(self).session.not_heard_set == old(self).session.not_heard_set,
            final(self).session.same_caches(&old(self).session),
            same_fetch(*final(state), *old(state)),
            match outcome {
                Ok(_) => {
                    &&& final(self).status@ == old(self).status@.showing(logged_text(spot@, brief))
                    &&& final(self).session.hunted_set@ == old(self).session.hunted_set@.insert(key@)
                    &&& final(state).entries() == hunted_by_key(old(state).entries(), key@, true)
                },
                Err(e) => {
                    &&& final(self).status@ == old(self).status@.showing("Log failed: "@ + e@)
                    &&& final(self).session.hunted_set == old(self).session.hunted_set
                    &&& final(state).entries() == old(state).entries()
                },
            },
    {
        match outcome {
            Ok(_) => {
                let mut t = "Logged ".to_owned();
                t.append(spot.activator.as_str());
                if !brief {
                    t.append(" to AC Log");
                }
                self.status.say(t);
                self.session.note_logged(state, key);
            },
            Err(e) => {
                let mut t = "Log failed: ".to_owned();
                t.append(e.as_str());
                self.status.say(t);
            },
        }
    }

    /// The spot in the row `row` was not heard, or was after all. When it is newly marked, the next
    /// row that can still be worked is selected, round the list; it is given, and the radio is to be
    /// tuned to it.
    pub fn skip_not_heard(&mut self, state: &mut AppState, rows: &Vec<(usize, SpotEntry)>, row: usize) -> (r: Option<
        usize,
    >)
        requires
            row < rows@.len(),
        ensures
            final(self).same_view(old(self)),
            final(self).last_tuned_key == old(self).last_tuned_key,
            final(self).session.hunted_set == old(self).session.hunted_set,
            final(self).session.same_caches(&old(self).session),
            same_fetch(*final(state), *old(state)),
            ({
                let key = rows@[row as int].1@.key();
                let n = rows@.len() as int;
                let marked = !old(self).session.not_heard_set@.contains(key);
                &&& final(self).session.not_heard_set@ == toggled(old(self).session.not_heard_set@, key)
                &&& final(state).entries() == not_heard_by_key(old(state).entries(), key, marked)
                &&& match r {
                    Some(i) => {
                        &&& marked
                        &&& exists|k: int|
                            #![trigger row_after(row as int, k, n)]
                            0 < k < n && i == row_after(row as int, k, n) && is_workable(rows@[i as int].1@)
                                && forall|m: int|
                                0 < m < k ==> !is_workable(rows@[#[trigger] row_after(row as int, m, n)].1@)
                        &&& final(self).selection@ == (SelectionText {
                            key: Some(rows@[i as int].1@.key()),
                            row: Some(i),
                            scroll: true,
                        })
                        &&& final(self).status == old(self).status
                    },
                    None => {
                        &&& final(self).selection == old(self).selection
                        &&& marked ==> final(self).status@ == old(self).status@.showing(
                            "NH marked — no more workable spots"@,
                        )
                        &&& marked ==> forall|m: int|
                            0 < m < n ==> !is_workable(rows@[#[trigger] row_after(row as int, m, n)].1@)
                        &&& !marked ==> final(self).status == old(self).status
                    },
                }
            }),
    {
        let key = rows[row].1.spot_key();
        let marked = self.session.toggle_not_heard(state, key.as_str());
        if !marked {
            return None;
        }
        match next_workable(rows, row) {
            Some(i) => {
                self.selection = Selection { key: Some(rows[i].1.spot_key()), row: Some(i), scroll: true };
                Some(i)
            },
            None => {
                self.status.say("NH marked — no more workable spots".to_owned());
                None
            },
        }
    }

    /// The radio was tuned to the spot after one that was not heard, or was not.
    pub fn note_skipped(&mut self, spot: &PotaSpot, key: &str, tuned: bool)
        ensures
            final(self).same_view(old(self)),
            final(self).session == old(self).session,
            final(self).selection == old(self).selection,
            tuned ==> final(self).status@ == old(self).status@.showing(skipped_text(spot@)),
            tuned ==> opt_text(final(self).last_tuned_key) == Some(key@),
            !tuned ==> final(self).status@ == old(self).status@.showing(
                "NH → "@ + spot@.activator + " (N3FJP not connected)"@,
            ),
            !tuned ==> final(self).last_tuned_key == old(self).last_tuned_key,
    {
        if tuned {
            let mut t = "NH → tuned to ".to_owned();
            t.append(spot.activator.as_str());
            t.append(" on ");
            t.append(spot.frequency.as_str());
            t.append(" kHz");
            self.status.say(t);
            self.last_tuned_key = Some(key.to_owned());
        } else {
            let mut t = "NH → ".to_owned();
            t.append(spot.activator.as_str());
            t.append(" (N3FJP not connected)");
            self.status.say(t);
        }
    }
}

/// The keys of shown rows.
pub open spec fn row_keys(rows: Seq<(usize, SpotEntry)>) -> Seq<Seq<char>> {
    Seq::new(rows.len(), |i: int| rows[i].1@.key())
}

/// The keys of shown rows.
pub fn keys_of(rows: &Vec<(usize, SpotEntry)>) -> (r: Vec<String>)
    ensures
        texts(r@) == row_keys(rows@),
{
    let mut r: Vec<String> = Vec::new();
    let mut i: usize = 0;
    while i < rows.len()
        invariant
            i <= rows@.len(),
            r@.len() == i,
            forall|j: int| 0 <= j < i ==> (#[trigger] r@[j])@ == rows@[j].1@.key(),
        decreases rows@.len() - i,
    {
        r.push(rows[i].1.spot_key());
        i += 1;
    }
    proof {
        assert(texts(r@) =~= row_keys(rows@));
    }
    r
}

} // verus!
