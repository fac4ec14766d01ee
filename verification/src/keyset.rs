//! Sets of texts.
use crate::text::{same_text, texts};
use vstd::prelude::*;

verus! {

/// A set of texts, each held once, in the order in which they came in.
pub struct KeySet {
    keys: Vec<String>,
}

impl View for KeySet {
    type V = Set<Seq<char>>;

    closed spec fn view(&self) -> Set<Seq<char>> {
        texts(self.keys@).to_set()
    }
}

impl KeySet {
    /// No text is held twice.
    #[verifier::type_invariant]
    spec fn distinct(&self) -> bool {
        texts(self.keys@).no_duplicates()
    }

    pub fn new() -> (r: KeySet)
        ensures
            r@ == Set::<Seq<char>>::empty(),
    {
        let r = KeySet { keys: Vec::new() };
        proof {
            assert(texts(r.keys@).to_set() =~= Set::<Seq<char>>::empty());
        }
        r
    }

    /// Where the text is held; the number of texts where it is not.
    fn find(&self, key: &str) -> (r: usize)
        ensures
            r <= self.keys@.len(),
            r < self.keys@.len() ==> self.keys@[r as int]@ == key@,
            r == self.keys@.len() ==> !self@.contains(key@),
            r < self.keys@.len() ==> self@.contains(key@),
    {
        let mut i: usize = 0;
        while i < self.keys.len()
            invariant
                i <= self.keys@.len(),
                forall|j: int| 0 <= j < i ==> (#[trigger] self.keys@[j])@ != key@,
            decreases self.keys@.len() - i,
        {
            if same_text(self.keys[i].as_str(), key) {
                proof {
                    assert(texts(self.keys@)[i as int] == key@);
                }
                return i;
            }
            i += 1;
        }
        proof {
            assert forall|j: int| 0 <= j < self.keys@.len() implies texts(self.keys@)[j] != key@ by {
                assert(self.keys@[j]@ != key@);
            }
        }
        i
    }

    pub fn contains(&self, key: &str) -> (r: bool)
        ensures
            r == self@.contains(key@),
    {
        self.find(key) < self.keys.len()
    }

    /// How many texts there are.
    pub fn len(&self) -> (r: usize)
        ensures
            r == self@.len(),
            self@.finite(),
    {
        proof {
            use_type_invariant(self);
            texts(self.keys@).unique_seq_to_set();
        }
        self.keys.len()
    }

    pub fn is_empty(&self) -> (r: bool)
        ensures
            r == (self@ == Set::<Seq<char>>::empty()),
    {
        let r = self.keys.len() == 0;
        proof {
            if r {
                assert(self@ =~= Set::<Seq<char>>::empty());
            } else {
                assert(self@.contains(texts(self.keys@)[0]));
            }
        }
        r
    }

    /// Adds a text. Tells whether it is new.
    pub fn insert(&mut self, key: String) -> (r: bool)
        ensures
            final(self)@ == old(self)@.insert(key@),
            r == !old(self)@.contains(key@),
    {
        proof {
            use_type_invariant(&*self);
        }
        let ghost before = self.keys@;
        if self.contains(key.as_str()) {
            proof {
                assert(self@ =~= old(self)@.insert(key@));
            }
            return false;
        }
        let ghost k = key@;
        let mut keys: Vec<String> = Vec::new();
        std::mem::swap(&mut keys, &mut self.keys);
        keys.push(key);
        proof {
            assert(texts(keys@) =~= texts(before).push(k));
            lemma_set_push(texts(before), k);
            assert(!texts(before).to_set().contains(k));
            assert(texts(keys@).no_duplicates());
        }
        self.keys = keys;
        true
    }

    /// Takes a text out.
    pub fn remove(&mut self, key: &str)
        ensures
            final(self)@ == old(self)@.remove(key@),
    {
        proof {
            use_type_invariant(&*self);
        }
        let i = self.find(key);
        if i < self.keys.len() {
            let ghost before = self.keys@;
            let mut keys: Vec<String> = Vec::new();
            std::mem::swap(&mut keys, &mut self.keys);
            let _ = keys.remove(i);
            proof {
                assert(texts(keys@) =~= texts(before).remove(i as int));
                lemma_set_remove(texts(before), i as int);
            }
            self.keys = keys;
        } else {
            proof {
                assert(self@ =~= old(self)@.remove(key@));
            }
        }
    }

    pub fn clear(&mut self)
        ensures
            final(self)@ == Set::<Seq<char>>::empty(),
    {
        *self = KeySet::new();
    }

    /// Adds the text if it is not there, else takes it out. Tells whether it is there now.
    pub fn toggle(&mut self, key: &str) -> (r: bool)
        ensures
            r == !old(self)@.contains(key@),
            final(self)@ == toggled(old(self)@, key@),
    {
        if self.contains(key) {
            self.remove(key);
            false
        } else {
            let _ = self.insert(key.to_owned());
            true
        }
    }

    /// Leaves the one text alone in the set.
    pub fn set_only(&mut self, key: &str)
        ensures
            final(self)@ == set![key@],
    {
        self.clear();
        let _ = self.insert(key.to_owned());
    }
}

/// The set with the text added or taken out.
pub open spec fn toggled(s: Set<Seq<char>>, key: Seq<char>) -> Set<Seq<char>> {
    if s.contains(key) {
        s.remove(key)
    } else {
        s.insert(key)
    }
}

/// To toggle a text twice changes nothing.
pub proof fn law_toggle_twice(s: Set<Seq<char>>, key: Seq<char>)
    ensures
        toggled(toggled(s, key), key) == s,
{
    assert(toggled(toggled(s, key), key) =~= s);
}

impl Clone for KeySet {
    fn clone(&self) -> (r: Self)
        ensures
            r@ == self@,
    {
        proof {
            use_type_invariant(self);
        }
        let keys = self.keys.clone();
        proof {
            assert(texts(keys@) =~= texts(self.keys@));
        }
        KeySet { keys }
    }
}

proof fn lemma_set_push(s: Seq<Seq<char>>, k: Seq<char>)
    ensures
        s.push(k).to_set() == s.to_set().insert(k),
{
    let t = s.push(k);
    assert forall|x: Seq<char>| t.to_set().contains(x) == s.to_set().insert(k).contains(x) by {
        if t.contains(x) {
            let i = choose|i: int| 0 <= i < t.len() && t[i] == x;
            if i < s.len() {
                assert(s[i] == x);
            }
        }
        if s.contains(x) {
            let i = choose|i: int| 0 <= i < s.len() && s[i] == x;
            assert(t[i] == x);
        }
        assert(t[s.len() as int] == k);
    }
    assert(t.to_set() =~= s.to_set().insert(k));
}

proof fn lemma_set_remove(s: Seq<Seq<char>>, i: int)
    requires
        0 <= i < s.len(),
        s.no_duplicates(),
    ensures
        s.remove(i).to_set() == s.to_set().remove(s[i]),
        s.remove(i).no_duplicates(),
{
    let t = s.remove(i);
    assert forall|x: Seq<char>| t.to_set().contains(x) == s.to_set().remove(s[i]).contains(x) by {
        if t.contains(x) {
            let j = choose|j: int| 0 <= j < t.len() && t[j] == x;
            if j < i {
                assert(s[j] == x);
            } else {
                assert(s[j + 1] == x);
            }
        }
        if s.contains(x) && x != s[i] {
            let j = choose|j: int| 0 <= j < s.len() && s[j] == x;
            if j < i {
                assert(t[j] == x);
            } else {
                assert(t[j - 1] == x);
            }
        }
    }
    assert(t.to_set() =~= s.to_set().remove(s[i]));
}

} // verus!
