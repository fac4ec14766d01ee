//! Spot browsing for amateur radio: the rules behind the table of POTA, SOTA, WWFF and DX spots.
pub mod text;
pub mod digits;
pub mod number;
pub mod reading;
pub mod band;
pub mod settled;
pub mod spot;
pub mod clock;
pub mod age;
pub mod dxline;
pub mod xml;
pub mod n3fjp;
pub mod listener;
pub mod lookup;
pub mod dxcluster;
pub mod dxlink;
pub mod keyset;
pub mod settings;
pub mod state;
pub mod filter;
pub mod order;
pub mod options;
pub mod grid;
pub mod hunter;
pub mod select;
pub mod keys;
pub mod view;
pub mod app;
pub mod laws;
