//! What the keys do.
use vstd::prelude::*;

verus! {

/// The keys that were pressed, the letters without a modifier.
#[derive(Clone, Copy, PartialEq, Eq, Structural)]
pub struct Keys {
    pub down: bool,
    pub up: bool,
    pub enter: bool,
    pub slash: bool,
    pub escape: bool,
    pub r: bool,
    pub h: bool,
    pub l: bool,
    pub n: bool,
}

/// What is to be done.
#[derive(Clone, Copy, PartialEq, Eq, Structural)]
pub struct KeyActions {
    /// Select the next row.
    pub down: bool,
    /// Select the row before.
    pub up: bool,
    /// Keep the arrow keys from scrolling as well.
    pub take_arrows: bool,
    /// Tune the radio to the selected spot.
    pub tune: bool,
    /// Go to the search.
    pub search: bool,
    /// Close what is open, or clear the search.
    pub close: bool,
    /// Fetch the spots.
    pub refresh: bool,
    /// Mark the selected spot as hunted, or take the mark back.
    pub hunt: bool,
    /// Log the selected spot.
    pub log: bool,
    /// Mark the selected spot as not heard, and go on to the next.
    pub not_heard: bool,
}

impl KeyActions {
    /// Something is done that a letter asks for.
    pub open spec fn by_letter(self) -> bool {
        self.refresh || self.hunt || self.log || self.not_heard
    }
}

impl Keys {
    /// What the keys do. While the user is typing in a text field, letters and the slash are part of
    /// the text and do nothing else.
    pub fn actions(&self, typing: bool) -> (r: KeyActions)
        ensures
            typing ==> !r.by_letter() && !r.search && !r.take_arrows,
            r == (KeyActions {
                down: self.down,
                up: self.up,
                take_arrows: (self.down || self.up) && !typing,
                tune: self.enter,
                search: self.slash && !typing,
                close: self.escape,
                refresh: self.r && !typing,
                hunt: self.h && !typing,
                log: self.l && !typing,
                not_heard: self.n && !typing,
            }),
    {
        KeyActions {
            down: self.down,
            up: self.up,
            take_arrows: (self.down || self.up) && !typing,
            tune: self.enter,
            search: self.slash && !typing,
            close: self.escape,
            refresh: self.r && !typing,
            hunt: self.h && !typing,
            log: self.l && !typing,
            not_heard: self.n && !typing,
        }
    }
}

} // verus!
