//! What is kept from one session to the next.
use vstd::prelude::*;

verus! {

/// The settings that are kept.
pub struct Settings {
    pub n3fjp_host: String,
    pub n3fjp_port: String,
    pub dx_callsign: String,
    /// One `host:port` on each line.
    pub dx_nodes: String,
    pub dx_auto_start: bool,
    pub auto_refresh: bool,
    pub refresh_interval_secs: u32,
    pub my_grid: String,
    pub dark_mode: bool,
    pub hide_dupes: bool,
    pub hide_qrt: bool,
    /// Zero for no limit.
    pub max_age_mins: i64,
}

/// The contents of [`Settings`].
#[verifier::ext_equal]
pub struct SettingsText {
    pub n3fjp_host: Seq<char>,
    pub n3fjp_port: Seq<char>,
    pub dx_callsign: Seq<char>,
    pub dx_nodes: Seq<char>,
    pub dx_auto_start: bool,
    pub auto_refresh: bool,
    pub refresh_interval_secs: u32,
    pub my_grid: Seq<char>,
    pub dark_mode: bool,
    pub hide_dupes: bool,
    pub hide_qrt: bool,
    pub max_age_mins: i64,
}

impl View for Settings {
    type V = SettingsText;

    open spec fn view(&self) -> SettingsText {
        SettingsText {
            n3fjp_host: self.n3fjp_host@,
            n3fjp_port: self.n3fjp_port@,
            dx_callsign: self.dx_callsign@,
            dx_nodes: self.dx_nodes@,
            dx_auto_start: self.dx_auto_start,
            auto_refresh: self.auto_refresh,
            refresh_interval_secs: self.refresh_interval_secs,
            my_grid: self.my_grid@,
            dark_mode: self.dark_mode,
            hide_dupes: self.hide_dupes,
            hide_qrt: self.hide_qrt,
            max_age_mins: self.max_age_mins,
        }
    }
}

/// The settings of a first session.
pub open spec fn first_settings() -> SettingsText {
    SettingsText {
        n3fjp_host: "127.0.0.1"@,
        n3fjp_port: "1100"@,
        dx_callsign: Seq::empty(),
        dx_nodes: "ve7cc.net:23\ndxc.nc7j.com:7300\ngb7mbc.net:8000"@,
        dx_auto_start: false,
        auto_refresh: true,
        refresh_interval_secs: 120,
        my_grid: Seq::empty(),
        dark_mode: true,
        hide_dupes: false,
        hide_qrt: false,
        max_age_mins: 15,
    }
}

impl Default for Settings {
    fn default() -> (r: Self)
        ensures
            r@ == first_settings(),
    {
        let r = Settings {
            n3fjp_host: "127.0.0.1".to_owned(),
            n3fjp_port: "1100".to_owned(),
            dx_callsign: String::new(),
            dx_nodes: "ve7cc.net:23\ndxc.nc7j.com:7300\ngb7mbc.net:8000".to_owned(),
            dx_auto_start: false,
            auto_refresh: true,
            refresh_interval_secs: 120,
            my_grid: String::new(),
            dark_mode: true,
            hide_dupes: false,
            hide_qrt: false,
            max_age_mins: 15,
        };
        proof {
            assert(r.dx_callsign@ =~= Seq::<char>::empty());
            assert(r.my_grid@ =~= Seq::<char>::empty());
        }
        r
    }
}

} // verus!
