//! The selected row, and moving it.
use crate::spot::{opt_text, EntryText, SpotEntry};
use crate::text::{same_text, texts};
use vstd::prelude::*;

verus! {

/// The selected spot, by its key, and the row that shows it. Two rows may show spots with the same
/// key; the row tells them apart.
pub struct Selection {
    pub key: Option<String>,
    pub row: Option<usize>,
    /// The row is to be brought into sight.
    pub scroll: bool,
}

/// The contents of a [`Selection`].
#[verifier::ext_equal]
pub struct SelectionText {
    pub key: Option<Seq<char>>,
    pub row: Option<usize>,
    pub scroll: bool,
}

impl View for Selection {
    type V = SelectionText;

    open spec fn view(&self) -> SelectionText {
        SelectionText { key: opt_text(self.key), row: self.row, scroll: self.scroll }
    }
}

/// The first row with that key.
pub open spec fn first_row(keys: Seq<Seq<char>>, key: Seq<char>) -> Option<usize>
    decreases keys.len(),
{
    if keys.len() == 0 {
        None
    } else {
        match first_row(keys.drop_last(), key) {
            Some(i) => Some(i),
            None => if keys.last() == key {
                Some((keys.len() - 1) as usize)
            } else {
                None
            },
        }
    }
}

impl SelectionText {
    /// The row still shows the spot.
    pub open spec fn holds(self, keys: Seq<Seq<char>>) -> bool {
        self.row is Some && self.row->0 < keys.len() && self.key == Some(keys[self.row->0 as int])
    }

    /// The selection brought to a list that may have changed: the row stays where it still shows
    /// the spot; else it is the first row that does.
    pub open spec fn anchored(self, keys: Seq<Seq<char>>) -> SelectionText {
        if self.holds(keys) {
            self
        } else {
            SelectionText {
                row: match self.key {
                    Some(k) => first_row(keys, k),
                    None => None,
                },
                ..self
            }
        }
    }

    /// The selection set to a row.
    pub open spec fn at(self, keys: Seq<Seq<char>>, row: usize) -> SelectionText {
        SelectionText { key: Some(keys[row as int]), row: Some(row), scroll: true }
    }

    /// One row down; the first row where none is selected.
    pub open spec fn moved_down(self, keys: Seq<Seq<char>>) -> SelectionText {
        match self.row {
            None => if keys.len() > 0 {
                self.at(keys, 0)
            } else {
                self
            },
            Some(i) => if i + 1 < keys.len() {
                self.at(keys, (i + 1) as usize)
            } else {
                self
            },
        }
    }

    /// One row up.
    pub open spec fn moved_up(self, keys: Seq<Seq<char>>) -> SelectionText {
        match self.row {
            Some(i) => if i > 0 {
                self.at(keys, (i - 1) as usize)
            } else {
                self
            },
            None => self,
        }
    }
}

fn position(keys: &Vec<String>, key: &str) -> (r: Option<usize>)
    ensures
        r == first_row(texts(keys@), key@),
        r matches Some(i) ==> i < keys@.len() && keys@[i as int]@ == key@,
{
    let ghost all = texts(keys@);
    let mut i: usize = 0;
    proof {
        assert(all.take(0).len() == 0);
    }
    while i < keys.len()
        invariant
            i <= keys@.len(),
            all == texts(keys@),
            first_row(all.take(i as int), key@) is None,
        decreases keys@.len() - i,
    {
        proof {
            let next = all.take(i + 1);
            assert(next.drop_last() =~= all.take(i as int));
            assert(next.last() == keys@[i as int]@);
        }
        if same_text(keys[i].as_str(), key) {
            proof {
                lemma_first_row(all, key@, i + 1);
            }
            return Some(i);
        }
        i += 1;
    }
    proof {
        assert(all.take(all.len() as int) =~= all);
    }
    None
}

proof fn lemma_first_row(keys: Seq<Seq<char>>, key: Seq<char>, n: int)
    requires
        0 <= n <= keys.len(),
        first_row(keys.take(n), key) is Some,
    ensures
        first_row(keys, key) == first_row(keys.take(n), key),
    decreases keys.len(),
{
    if n < keys.len() {
        let front = keys.drop_last();
        assert(front.take(n) =~= keys.take(n));
        lemma_first_row(front, key, n);
    } else {
        assert(keys.take(n) =~= keys);
    }
}

impl Selection {
    pub fn new() -> (r: Selection)
        ensures
            r@ == (SelectionText { key: None, row: None, scroll: false }),
    {
        Selection { key: None, row: None, scroll: false }
    }

    /// Brings the selection to a list that may have changed.
    pub fn anchor(&mut self, keys: &Vec<String>)
        ensures
            final(self)@ == old(self)@.anchored(texts(keys@)),
            final(self).row matches Some(i) ==> i < keys@.len(),
    {
        let row = match &self.key {
            None => None,
            Some(k) => {
                let mut held = false;
                if let Some(i) = self.row {
                    if i < keys.len() && same_text(keys[i].as_str(), k.as_str()) {
                        held = true;
                    }
                }
                if held {
                    self.row
                } else {
                    position(keys, k.as_str())
                }
            },
        };
        self.row = row;
    }

    /// Selects a row.
    pub fn go_to(&mut self, keys: &Vec<String>, row: usize)
        requires
            row < keys@.len(),
        ensures
            final(self)@ == old(self)@.at(texts(keys@), row),
    {
        self.key = Some(keys[row].clone());
        self.row = Some(row);
        self.scroll = true;
    }

    /// Selects a row that is in sight.
    pub fn pick(&mut self, key: &str, row: usize)
        ensures
            final(self)@ == (SelectionText { key: Some(key@), row: Some(row), scroll: old(self).scroll }),
    {
        self.key = Some(key.to_owned());
        self.row = Some(row);
    }

    pub fn down(&mut self, keys: &Vec<String>)
        requires
            old(self).row matches Some(i) ==> i < keys@.len(),
        ensures
            final(self)@ == old(self)@.moved_down(texts(keys@)),
            final(self).row matches Some(i) ==> i < keys@.len(),
    {
        match self.row {
            None => {
                if keys.len() > 0 {
                    self.go_to(keys, 0);
                }
            },
            Some(i) => {
                let n: usize = keys.len();
                if i < n - 1 {
                    self.go_to(keys, i + 1);
                }
            },
        }
    }

    pub fn up(&mut self, keys: &Vec<String>)
        requires
            old(self).row matches Some(i) ==> i < keys@.len(),
        ensures
            final(self)@ == old(self)@.moved_up(texts(keys@)),
            final(self).row matches Some(i) ==> i < keys@.len(),
    {
        if let Some(i) = self.row {
            if i > 0 {
                self.go_to(keys, i - 1);
            }
        }
    }
}

proof fn lemma_first_row_found(keys: Seq<Seq<char>>, key: Seq<char>)
    requires
        keys.len() <= usize::MAX,
    ensures
        match first_row(keys, key) {
            Some(i) => i < keys.len() && keys[i as int] == key && forall|j: int|
                0 <= j < i ==> #[trigger] keys[j] != key,
            None => !keys.contains(key),
        },
    decreases keys.len(),
{
    if keys.len() > 0 {
        let front = keys.drop_last();
        lemma_first_row_found(front, key);
        match first_row(front, key) {
            Some(i) => {
                assert(front[i as int] == keys[i as int]);
                assert forall|j: int| 0 <= j < i implies #[trigger] keys[j] != key by {
                    assert(front[j] == keys[j]);
                }
            },
            None => {
                assert forall|j: int| 0 <= j < front.len() implies #[trigger] keys[j] != key by {
                    assert(front[j] == keys[j]);
                    assert(front.contains(front[j]));
                }
            },
        }
    }
}

/// However a list is reordered, the selected spot stays selected as long as it is shown: the row
/// that is selected then shows it. Where it is not shown any more, no row is selected.
pub proof fn law_selection_survives(s: SelectionText, keys: Seq<Seq<char>>)
    requires
        keys.len() <= usize::MAX,
    ensures
        s.anchored(keys).key == s.key,
        s.key matches Some(k) && keys.contains(k) ==> s.anchored(keys).holds(keys),
        s.key matches Some(k) && !keys.contains(k) ==> s.anchored(keys).row is None,
        s.key is None ==> s.anchored(keys).row is None,
        s.holds(keys) ==> s.anchored(keys) == s,
{
    if let Some(k) = s.key {
        lemma_first_row_found(keys, k);
        if s.holds(keys) {
            assert(keys.contains(keys[s.row->0 as int]));
        }
    }
}

/// Down and then up again leads back to the row.
pub proof fn law_down_and_up(s: SelectionText, keys: Seq<Seq<char>>)
    requires
        s.holds(keys),
        s.row->0 + 1 < keys.len() <= usize::MAX,
    ensures
        s.moved_down(keys).moved_up(keys).row == s.row,
        s.moved_down(keys).moved_up(keys).key == s.key,
{
}

/// The spot can still be worked.
pub open spec fn is_workable(e: EntryText) -> bool {
    !e.hunted && !e.not_heard && !e.is_qrt
}

/// The row that comes `k` rows after `row`, the first one following the last.
pub open spec fn row_after(row: int, k: int, count: int) -> int {
    if row + k < count {
        row + k
    } else {
        row + k - count
    }
}

/// The next row after `row` that can still be worked, round the list, but for the row itself.
pub fn next_workable(rows: &Vec<(usize, SpotEntry)>, row: usize) -> (r: Option<usize>)
    requires
        row < rows@.len(),
    ensures
        match r {
            Some(i) => exists|k: int|
                #![trigger row_after(row as int, k, rows@.len() as int)]
                0 < k < rows@.len() && i == row_after(row as int, k, rows@.len() as int) && is_workable(
                    rows@[i as int].1@,
                ) && forall|m: int|
                    0 < m < k ==> !is_workable(
                        rows@[#[trigger] row_after(row as int, m, rows@.len() as int)].1@,
                    ),
            None => forall|m: int|
                0 < m < rows@.len() ==> !is_workable(
                    rows@[#[trigger] row_after(row as int, m, rows@.len() as int)].1@,
                ),
        },
{
    let n: usize = rows.len();
    let mut i: usize = row;
    let mut k: usize = 1;
    while k < n
        invariant
            row < n,
            n == rows@.len(),
            0 < k <= n,
            i == row_after(row as int, k - 1, n as int),
            i < n,
            forall|m: int| 0 < m < k ==> !is_workable(rows@[#[trigger] row_after(row as int, m, n as int)].1@),
        decreases n - k,
    {
        if i + 1 == n {
            i = 0;
        } else {
            i += 1;
        }
        assert(i == row_after(row as int, k as int, n as int));
        let e = &rows[i].1;
        if !e.hunted && !e.not_heard && !e.is_qrt {
            return Some(i);
        }
        k += 1;
    }
    None
}

} // verus!
