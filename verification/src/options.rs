//! What there is to choose from in the filters.
use crate::spot::EntryText;
use crate::state::AppState;
use crate::text::{
    lemma_less_irreflexive, lemma_less_total, lemma_less_transitive, less, same_text, text_less,
    texts, upper_text, uppercase,
};
use vstd::prelude::*;

verus! {

/// The bands, modes and countries of the spots.
pub struct FilterOptions {
    pub bands: Vec<String>,
    pub modes: Vec<String>,
    pub countries: Vec<String>,
}

/// Each text comes before the next.
pub open spec fn is_sorted(v: Seq<Seq<char>>) -> bool {
    forall|i: int, j: int| 0 <= i < j < v.len() ==> text_less(#[trigger] v[i], #[trigger] v[j])
}

/// The texts are in order, each one once, and are those of the set.
pub open spec fn lists(v: Seq<Seq<char>>, s: Set<Seq<char>>) -> bool {
    is_sorted(v) && forall|t: Seq<char>| #[trigger] v.contains(t) <==> s.contains(t)
}

/// The bands of the spots, as far as they are known.
pub open spec fn bands_in(entries: Seq<EntryText>) -> Set<Seq<char>> {
    Set::new(
        |b: Seq<char>|
            b.len() > 0 && b != "??"@ && exists|i: int| 0 <= i < entries.len() && (#[trigger] entries[i]).band == b,
    )
}

/// The modes of the spots, in uppercase.
pub open spec fn modes_in(entries: Seq<EntryText>) -> Set<Seq<char>> {
    Set::new(
        |m: Seq<char>|
            exists|i: int|
                0 <= i < entries.len() && (#[trigger] entries[i]).spot.mode.len() > 0 && uppercase(entries[i].spot.mode)
                    == m,
    )
}

/// The countries of the spots.
pub open spec fn countries_in(entries: Seq<EntryText>) -> Set<Seq<char>> {
    Set::new(
        |c: Seq<char>| c.len() > 0 && exists|i: int| 0 <= i < entries.len() && (#[trigger] entries[i]).country == c,
    )
}

/// Puts a text in its place, unless it is there.
fn put(v: &mut Vec<String>, t: &str)
    requires
        is_sorted(texts(old(v)@)),
    ensures
        is_sorted(texts(final(v)@)),
        forall|x: Seq<char>|
            #[trigger] texts(final(v)@).contains(x) <==> texts(old(v)@).contains(x) || x == t@,
{
    let ghost before = texts(v@);
    let mut i: usize = 0;
    while i < v.len() && less(v[i].as_str(), t)
        invariant
            i <= v@.len(),
            before == texts(v@),
            forall|j: int| 0 <= j < i ==> text_less(#[trigger] before[j], t@),
        decreases v@.len() - i,
    {
        proof {
            assert(before[i as int] == v@[i as int]@);
        }
        i += 1;
    }
    if i < v.len() && same_text(v[i].as_str(), t) {
        proof {
            assert(before[i as int] == t@);
            assert(before.contains(t@));
        }
        return;
    }
    let ghost rest = v@;
    v.insert(i, t.to_owned());
    let ghost after = texts(v@);
    proof {
        assert(after =~= before.insert(i as int, t@));
        assert forall|j: int| i <= j < before.len() implies text_less(t@, #[trigger] before[j]) by {
            assert(before[i as int] == rest[i as int]@);
            lemma_less_total(t@, before[i as int]);
            if j > i {
                assert(text_less(before[i as int], before[j]));
                lemma_less_transitive(t@, before[i as int], before[j]);
            }
        }
        assert forall|a: int, b: int| 0 <= a < b < after.len() implies text_less(
            #[trigger] after[a],
            #[trigger] after[b],
        ) by {
            if a < i && b < i {
                assert(after[a] == before[a] && after[b] == before[b]);
            } else if a < i && b == i {
                assert(after[a] == before[a] && after[b] == t@);
            } else if a < i {
                assert(after[a] == before[a] && after[b] == before[b - 1]);
            } else if a == i {
                assert(after[a] == t@ && after[b] == before[b - 1]);
            } else {
                assert(after[a] == before[a - 1] && after[b] == before[b - 1]);
            }
        }
        assert forall|x: Seq<char>| #[trigger] after.contains(x) <==> before.contains(x) || x == t@ by {
            if after.contains(x) {
                let k = choose|k: int| 0 <= k < after.len() && after[k] == x;
                if k < i {
                    assert(before[k] == x);
                } else if k > i {
                    assert(before[k - 1] == x);
                }
            }
            if before.contains(x) {
                let k = choose|k: int| 0 <= k < before.len() && before[k] == x;
                if k < i {
                    assert(after[k] == x);
                } else {
                    assert(after[k + 1] == x);
                }
            }
            assert(after[i as int] == t@);
        }
    }
}

/// The first `n` of the entries.
spec fn first(entries: Seq<EntryText>, n: int) -> Seq<EntryText> {
    entries.take(n)
}

proof fn lemma_one_more(entries: Seq<EntryText>, n: int)
    requires
        0 <= n < entries.len(),
    ensures
        forall|b: Seq<char>|
            #[trigger] bands_in(first(entries, n + 1)).contains(b) <==> (bands_in(first(entries, n)).contains(b) || (b
                == entries[n].band && b.len() > 0 && b != "??"@)),
        forall|m: Seq<char>|
            #[trigger] modes_in(first(entries, n + 1)).contains(m) <==> (modes_in(first(entries, n)).contains(m) || (m
                == uppercase(entries[n].spot.mode) && entries[n].spot.mode.len() > 0)),
        forall|c: Seq<char>|
            #[trigger] countries_in(first(entries, n + 1)).contains(c) <==> (countries_in(first(entries, n)).contains(c)
                || (c == entries[n].country && c.len() > 0)),
{
    let a = first(entries, n);
    let b = first(entries, n + 1);
    assert(b[n] == entries[n]);
    assert forall|i: int| 0 <= i < n implies a[i] == b[i] by {}
    assert forall|x: Seq<char>|
        #[trigger] bands_in(b).contains(x) <==> (bands_in(a).contains(x) || (x == entries[n].band && x.len() > 0 && x
            != "??"@)) by {
        if bands_in(b).contains(x) {
            let i = choose|i: int| 0 <= i < b.len() && (#[trigger] b[i]).band == x;
            if i < n {
                assert(a[i].band == x);
            }
        }
        if bands_in(a).contains(x) {
            let i = choose|i: int| 0 <= i < a.len() && (#[trigger] a[i]).band == x;
            assert(b[i].band == x);
        }
    }
    assert forall|x: Seq<char>|
        #[trigger] modes_in(b).contains(x) <==> (modes_in(a).contains(x) || (x == uppercase(entries[n].spot.mode)
            && entries[n].spot.mode.len() > 0)) by {
        if modes_in(b).contains(x) {
            let i = choose|i: int|
                0 <= i < b.len() && (#[trigger] b[i]).spot.mode.len() > 0 && uppercase(b[i].spot.mode) == x;
            if i < n {
                assert(a[i].spot.mode.len() > 0 && uppercase(a[i].spot.mode) == x);
            }
        }
        if modes_in(a).contains(x) {
            let i = choose|i: int|
                0 <= i < a.len() && (#[trigger] a[i]).spot.mode.len() > 0 && uppercase(a[i].spot.mode) == x;
            assert(b[i].spot.mode.len() > 0 && uppercase(b[i].spot.mode) == x);
        }
    }
    assert forall|x: Seq<char>|
        #[trigger] countries_in(b).contains(x) <==> (countries_in(a).contains(x) || (x == entries[n].country && x.len()
            > 0)) by {
        if countries_in(b).contains(x) {
            let i = choose|i: int| 0 <= i < b.len() && (#[trigger] b[i]).country == x;
            if i < n {
                assert(a[i].country == x);
            }
        }
        if countries_in(a).contains(x) {
            let i = choose|i: int| 0 <= i < a.len() && (#[trigger] a[i]).country == x;
            assert(b[i].country == x);
        }
    }
}

/// What there is to choose from: the bands, modes and countries of the spots, each in order, and
/// before the countries the choice of all.
pub fn rebuild_filter_options(state: &AppState) -> (r: FilterOptions)
    ensures
        lists(texts(r.bands@), bands_in(state.entries())),
        lists(texts(r.modes@), modes_in(state.entries())),
        r.countries@.len() > 0,
        texts(r.countries@)[0] == "All"@,
        lists(texts(r.countries@).skip(1), countries_in(state.entries())),
{
    let mut bands: Vec<String> = Vec::new();
    let mut modes: Vec<String> = Vec::new();
    let mut countries: Vec<String> = Vec::new();
    let ghost all = state.entries();
    let mut i: usize = 0;
    while i < state.spots.len()
        invariant
            i <= state.spots@.len(),
            all == state.entries(),
            lists(texts(bands@), bands_in(first(all, i as int))),
            lists(texts(modes@), modes_in(first(all, i as int))),
            lists(texts(countries@), countries_in(first(all, i as int))),
        decreases state.spots@.len() - i,
    {
        let e = &state.spots[i];
        proof {
            assert(all[i as int] == e@);
            lemma_one_more(all, i as int);
        }
        if !e.band.as_str().is_empty() && !same_text(e.band.as_str(), "??") {
            put(&mut bands, e.band.as_str());
        }
        if !e.spot.mode.as_str().is_empty() {
            let mode = upper_text(e.spot.mode.as_str());
            put(&mut modes, mode.as_str());
        }
        if !e.country.as_str().is_empty() {
            put(&mut countries, e.country.as_str());
        }
        i += 1;
    }
    proof {
        assert(first(all, all.len() as int) =~= all);
    }
    let ghost inner = texts(countries@);
    countries.insert(0, "All".to_owned());
    proof {
        assert(texts(countries@)[0] == "All"@);
        assert(texts(countries@).skip(1) =~= inner);
    }
    FilterOptions { bands, modes, countries }
}

/// A list of options is decided by what it lists.
pub proof fn law_options_unique(a: Seq<Seq<char>>, b: Seq<Seq<char>>, s: Set<Seq<char>>)
    requires
        lists(a, s),
        lists(b, s),
    ensures
        a == b,
    decreases a.len(),
{
    assert forall|t: Seq<char>| a.contains(t) <==> b.contains(t) by {
        assert(s.contains(t) <==> a.contains(t));
        assert(s.contains(t) <==> b.contains(t));
    }
    lemma_same_lists(a, b);
}

proof fn lemma_same_lists(a: Seq<Seq<char>>, b: Seq<Seq<char>>)
    requires
        is_sorted(a),
        is_sorted(b),
        forall|t: Seq<char>| a.contains(t) <==> b.contains(t),
    ensures
        a == b,
    decreases a.len(),
{
    if a.len() == 0 {
        if b.len() > 0 {
            assert(b.contains(b[0]));
            assert(a.contains(b[0]));
        }
        assert(a =~= b);
    } else {
        assert(a.contains(a[0]));
        assert(b.contains(a[0]));
        assert(b.contains(b[0]));
        assert(a.contains(b[0]));
        let m = choose|m: int| 0 <= m < b.len() && b[m] == a[0];
        let n = choose|n: int| 0 <= n < a.len() && a[n] == b[0];
        lemma_less_total(a[0], b[0]);
        lemma_less_irreflexive(a[0]);
        lemma_less_irreflexive(b[0]);
        if m > 0 {
            assert(text_less(b[0], b[m]));
            if n > 0 {
                assert(text_less(a[0], a[n]));
            }
        }
        let a2 = a.drop_first();
        let b2 = b.drop_first();
        assert forall|i: int, j: int| 0 <= i < j < a2.len() implies text_less(#[trigger] a2[i], #[trigger] a2[j]) by {
            assert(text_less(a[i + 1], a[j + 1]));
        }
        assert forall|i: int, j: int| 0 <= i < j < b2.len() implies text_less(#[trigger] b2[i], #[trigger] b2[j]) by {
            assert(text_less(b[i + 1], b[j + 1]));
        }
        assert forall|t: Seq<char>| a2.contains(t) <==> b2.contains(t) by {
            if a2.contains(t) {
                let k = choose|k: int| 0 <= k < a2.len() && a2[k] == t;
                assert(a[k + 1] == t);
                assert(a.contains(t));
                assert(text_less(a[0], a[k + 1]));
                let l = choose|l: int| 0 <= l < b.len() && b[l] == t;
                assert(b2[l - 1] == t);
            }
            if b2.contains(t) {
                let k = choose|k: int| 0 <= k < b2.len() && b2[k] == t;
                assert(b[k + 1] == t);
                assert(b.contains(t));
                assert(text_less(b[0], b[k + 1]));
                let l = choose|l: int| 0 <= l < a.len() && a[l] == t;
                assert(a2[l - 1] == t);
            }
        }
        lemma_same_lists(a2, b2);
        assert(a =~= seq![a[0]] + a2);
        assert(b =~= seq![b[0]] + b2);
    }
}

} // verus!
