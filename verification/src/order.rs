//! What holds of the list that is shown.
use crate::clock::Moment;
use crate::filter::{call_of, is_newest, law_order_both_ways, newest_only, time_of, FiltersText};
use crate::spot::EntryText;
use crate::text::{lemma_less_irreflexive, lemma_less_total, lemma_less_transitive, text_less};
use vstd::prelude::*;
use vstd::seq_lib::{to_multiset_contains, to_multiset_remove};

verus! {

/// No two entries are each shown before the other, and none before itself.
proof fn lemma_not_both(f: FiltersText, entries: Seq<EntryText>, i: int, j: int)
    ensures
        !(f.shown_before(entries, i, j) && f.shown_before(entries, j, i)),
        !f.shown_before(entries, i, i),
{
    law_order_both_ways(f, entries[i], entries[j]);
}

proof fn lemma_sorted_same(f: FiltersText, entries: Seq<EntryText>, a: Seq<int>, b: Seq<int>)
    requires
        forall|k: int, l: int| 0 <= k < l < a.len() ==> f.shown_before(entries, #[trigger] a[k], #[trigger] a[l]),
        forall|k: int, l: int| 0 <= k < l < b.len() ==> f.shown_before(entries, #[trigger] b[k], #[trigger] b[l]),
        forall|x: int| a.contains(x) <==> b.contains(x),
    ensures
        a == b,
    decreases a.len(),
{
    if a.len() == 0 {
        if b.len() > 0 {
            assert(b.contains(b[0]));
            assert(a.contains(b[0]));
        }
        assert(a =~= b);
    } else {
        assert(a.contains(a[0]));
        assert(b.contains(a[0]));
        assert(b.contains(b[0]));
        assert(a.contains(b[0]));
        let m = choose|m: int| 0 <= m < b.len() && b[m] == a[0];
        let n = choose|n: int| 0 <= n < a.len() && a[n] == b[0];
        lemma_not_both(f, entries, a[0], b[0]);
        lemma_not_both(f, entries, b[0], b[0]);
        if m > 0 {
            assert(f.shown_before(entries, b[0], b[m]));
            if n > 0 {
                assert(f.shown_before(entries, a[0], a[n]));
            }
        }
        let a2 = a.drop_first();
        let b2 = b.drop_first();
        assert forall|k: int, l: int| 0 <= k < l < a2.len() implies f.shown_before(
            entries,
            #[trigger] a2[k],
            #[trigger] a2[l],
        ) by {
            assert(f.shown_before(entries, a[k + 1], a[l + 1]));
        }
        assert forall|k: int, l: int| 0 <= k < l < b2.len() implies f.shown_before(
            entries,
            #[trigger] b2[k],
            #[trigger] b2[l],
        ) by {
            assert(f.shown_before(entries, b[k + 1], b[l + 1]));
        }
        assert forall|x: int| a2.contains(x) <==> b2.contains(x) by {
            if a2.contains(x) {
                let k = choose|k: int| 0 <= k < a2.len() && a2[k] == x;
                assert(a[k + 1] == x);
                assert(a.contains(x));
                assert(f.shown_before(entries, a[0], a[k + 1]));
                lemma_not_both(f, entries, a[0], a[0]);
                let l = choose|l: int| 0 <= l < b.len() && b[l] == x;
                assert(l > 0);
                assert(b2[l - 1] == x);
            }
            if b2.contains(x) {
                let k = choose|k: int| 0 <= k < b2.len() && b2[k] == x;
                assert(b[k + 1] == x);
                assert(b.contains(x));
                assert(f.shown_before(entries, b[0], b[k + 1]));
                lemma_not_both(f, entries, b[0], b[0]);
                let l = choose|l: int| 0 <= l < a.len() && a[l] == x;
                assert(l > 0);
                assert(a2[l - 1] == x);
            }
        }
        lemma_sorted_same(f, entries, a2, b2);
        assert(a =~= seq![a[0]] + a2);
        assert(b =~= seq![b[0]] + b2);
    }
}

/// There is but one list that can be shown, where there is an order: the filters, the entries and the
/// moment decide it.
pub proof fn law_one_view(f: FiltersText, entries: Seq<EntryText>, now: Moment, a: Seq<int>, b: Seq<int>)
    requires
        f.is_orderly(entries, now),
        f.is_view(entries, now, a),
        f.is_view(entries, now, b),
    ensures
        a == b,
{
    let shown = |rows: Seq<int>| if f.hide_dupes {
        newest_only(entries, rows, rows.len() as int)
    } else {
        rows
    };
    let x = choose|rows: Seq<int>| #[trigger] f.is_sorted_view(entries, now, rows) && a == shown(rows);
    let y = choose|rows: Seq<int>| #[trigger] f.is_sorted_view(entries, now, rows) && b == shown(rows);
    assert(f.is_sorted_view(entries, now, x) && a == shown(x));
    assert(f.is_sorted_view(entries, now, y) && b == shown(y));
    assert forall|i: int| x.contains(i) <==> y.contains(i) by {
        if x.contains(i) {
            let k = choose|k: int| 0 <= k < x.len() && x[k] == i;
            assert(f.passes(entries[x[k]], now));
        }
        if y.contains(i) {
            let k = choose|k: int| 0 <= k < y.len() && y[k] == i;
            assert(f.passes(entries[y[k]], now));
        }
    }
    lemma_sorted_same(f, entries, x, y);
}

/// Where two entries stand in the list matters for their order only if they are alike in all that
/// counts: else it is the same in every list that holds both.
pub proof fn law_order_ignores_places(
    f: FiltersText,
    one: Seq<EntryText>,
    other: Seq<EntryText>,
    i: int,
    j: int,
    k: int,
    l: int,
)
    requires
        one[i] == other[k],
        one[j] == other[l],
        f.order(one[i], one[j]) != 0,
    ensures
        f.shown_before(one, i, j) == f.shown_before(other, k, l),
{
}

/// The entries at some places of a list.
pub open spec fn entries_at(entries: Seq<EntryText>, rows: Seq<int>) -> Seq<EntryText> {
    Seq::new(rows.len(), |k: int| entries[rows[k]])
}

/// No two of the entries that pass are alike in all that counts for their order.
pub open spec fn all_differ(f: FiltersText, entries: Seq<EntryText>, now: Moment) -> bool {
    forall|i: int, j: int|
        0 <= i < j < entries.len() && f.passes(entries[i], now) && f.passes(entries[j], now) ==> #[trigger] f.order(
            entries[i],
            entries[j],
        ) != 0
}

/// What occurs at two places occurs twice.
proof fn lemma_twice(s: Seq<EntryText>, i: int, j: int)
    requires
        0 <= i < j < s.len(),
        s[i] == s[j],
    ensures
        s.to_multiset().count(s[i]) >= 2,
{
    broadcast use vstd::multiset::group_multiset_axioms;

    let t = s.remove(j);
    assert(t[i] == s[i]);
    assert(s.contains(s[i]));
    to_multiset_contains(t, s[i]);
    to_multiset_contains(s, s[i]);
    to_multiset_remove(s, j);
}

/// What occurs twice occurs at two places.
proof fn lemma_two_places(s: Seq<EntryText>, x: EntryText) -> (r: (int, int))
    requires
        s.to_multiset().count(x) >= 2,
    ensures
        0 <= r.0 < r.1 < s.len(),
        s[r.0] == x,
        s[r.1] == x,
{
    broadcast use vstd::multiset::group_multiset_axioms;

    to_multiset_contains(s, x);
    let i = choose|i: int| 0 <= i < s.len() && s[i] == x;
    let t = s.remove(i);
    to_multiset_remove(s, i);
    to_multiset_contains(t, x);
    let j = choose|j: int| 0 <= j < t.len() && t[j] == x;
    if j < i {
        (j, i)
    } else {
        (i, j + 1)
    }
}

/// In whatever order the same entries are stored, they have the same order where all differ.
proof fn lemma_reordered(f: FiltersText, one: Seq<EntryText>, other: Seq<EntryText>, now: Moment)
    requires
        one.to_multiset() == other.to_multiset(),
        f.is_orderly(one, now),
        all_differ(f, one, now),
    ensures
        forall|e: EntryText| one.contains(e) <==> other.contains(e),
        f.is_orderly(other, now),
        all_differ(f, other, now),
{
    assert forall|e: EntryText| one.contains(e) <==> other.contains(e) by {
        to_multiset_contains(one, e);
        to_multiset_contains(other, e);
    }
    assert forall|i: int, j: int, k: int|
        f.sort_column == crate::filter::SortColumn::Frequency && 0 <= i < other.len() && 0 <= j < other.len() && 0 <= k
            < other.len() && f.passes(other[i], now) && f.passes(
            other[j],
            now,
        ) && f.passes(other[k], now) && #[trigger] f.order(other[i], other[j]) <= 0 && #[trigger] f.order(
            other[j],
            other[k],
        ) <= 0 implies f.order(other[i], other[k]) <= 0 by {
        assert(other.contains(other[i]) && other.contains(other[j]) && other.contains(other[k]));
        let x = choose|x: int| 0 <= x < one.len() && one[x] == other[i];
        let y = choose|y: int| 0 <= y < one.len() && one[y] == other[j];
        let z = choose|z: int| 0 <= z < one.len() && one[z] == other[k];
        assert(f.order(one[x], one[y]) <= 0 && f.order(one[y], one[z]) <= 0);
    }
    assert forall|i: int, j: int|
        0 <= i < j < other.len() && f.passes(other[i], now) && f.passes(other[j], now) implies #[trigger] f.order(
        other[i],
        other[j],
    ) != 0 by {
        law_order_both_ways(f, other[i], other[j]);
        if other[i] == other[j] {
            lemma_twice(other, i, j);
            let (x, y) = lemma_two_places(one, other[i]);
            assert(f.order(one[x], one[y]) != 0);
        } else {
            assert(other.contains(other[i]) && other.contains(other[j]));
            let x = choose|x: int| 0 <= x < one.len() && one[x] == other[i];
            let y = choose|y: int| 0 <= y < one.len() && one[y] == other[j];
            if x < y {
                assert(f.order(one[x], one[y]) != 0);
            } else {
                assert(f.order(one[y], one[x]) != 0);
            }
        }
    }
}

/// Each entry comes before those that follow.
spec fn strictly_sorted(f: FiltersText, v: Seq<EntryText>) -> bool {
    forall|k: int, l: int| 0 <= k < l < v.len() ==> f.order(#[trigger] v[k], #[trigger] v[l]) < 0
}

proof fn lemma_strictly_same(f: FiltersText, a: Seq<EntryText>, b: Seq<EntryText>)
    requires
        strictly_sorted(f, a),
        strictly_sorted(f, b),
        forall|e: EntryText| a.contains(e) <==> b.contains(e),
    ensures
        a == b,
    decreases a.len(),
{
    if a.len() == 0 {
        if b.len() > 0 {
            assert(b.contains(b[0]));
        }
        assert(a =~= b);
    } else {
        assert(a.contains(a[0]));
        assert(b.contains(a[0]));
        let m = choose|m: int| 0 <= m < b.len() && b[m] == a[0];
        assert(b.contains(b[0]));
        let n = choose|n: int| 0 <= n < a.len() && a[n] == b[0];
        law_order_both_ways(f, a[0], b[0]);
        if m > 0 {
            assert(f.order(b[0], b[m]) < 0);
            if n > 0 {
                assert(f.order(a[0], a[n]) < 0);
            }
        }
        assert(a[0] == b[0]);
        let a2 = a.drop_first();
        let b2 = b.drop_first();
        assert forall|k: int, l: int| 0 <= k < l < a2.len() implies f.order(#[trigger] a2[k], #[trigger] a2[l]) < 0 by {
            assert(f.order(a[k + 1], a[l + 1]) < 0);
        }
        assert forall|k: int, l: int| 0 <= k < l < b2.len() implies f.order(#[trigger] b2[k], #[trigger] b2[l]) < 0 by {
            assert(f.order(b[k + 1], b[l + 1]) < 0);
        }
        assert forall|e: EntryText| a2.contains(e) <==> b2.contains(e) by {
            if a2.contains(e) {
                let k = choose|k: int| 0 <= k < a2.len() && a2[k] == e;
                assert(f.order(a[0], a[k + 1]) < 0);
                assert(a.contains(a[k + 1]));
                let l = choose|l: int| 0 <= l < b.len() && b[l] == e;
                assert(l > 0);
                assert(b2[l - 1] == e);
            }
            if b2.contains(e) {
                let k = choose|k: int| 0 <= k < b2.len() && b2[k] == e;
                assert(f.order(b[0], b[k + 1]) < 0);
                assert(b.contains(b[k + 1]));
                let l = choose|l: int| 0 <= l < a.len() && a[l] == e;
                assert(l > 0);
                assert(a2[l - 1] == e);
            }
        }
        lemma_strictly_same(f, a2, b2);
        assert(a =~= seq![a[0]] + a2);
        assert(b =~= seq![b[0]] + b2);
    }
}

/// The rows of a list in which all differ are strictly sorted, and are the entries that pass.
proof fn lemma_rows_strict(f: FiltersText, entries: Seq<EntryText>, now: Moment, rows: Seq<int>)
    requires
        f.is_sorted_view(entries, now, rows),
        f.is_orderly(entries, now),
        all_differ(f, entries, now),
    ensures
        strictly_sorted(f, entries_at(entries, rows)),
        forall|e: EntryText| entries_at(entries, rows).contains(e) <==> entries.contains(e) && f.passes(e, now),
{
    let v = entries_at(entries, rows);
    assert forall|k: int, l: int| 0 <= k < l < v.len() implies f.order(#[trigger] v[k], #[trigger] v[l]) < 0 by {
        let i = rows[k];
        let j = rows[l];
        assert(f.shown_before(entries, rows[k], rows[l]));
        assert(i != j);
        law_order_both_ways(f, entries[i], entries[j]);
        if i < j {
            assert(f.order(entries[i], entries[j]) != 0);
        } else {
            assert(f.order(entries[j], entries[i]) != 0);
        }
    }
    assert forall|e: EntryText| v.contains(e) <==> entries.contains(e) && f.passes(e, now) by {
        if v.contains(e) {
            let k = choose|k: int| 0 <= k < v.len() && v[k] == e;
            assert(f.passes(entries[rows[k]], now));
            assert(entries.contains(entries[rows[k]]));
        }
        if entries.contains(e) && f.passes(e, now) {
            let i = choose|i: int| 0 <= i < entries.len() && entries[i] == e;
            assert(rows.contains(i));
            let k = choose|k: int| 0 <= k < rows.len() && rows[k] == i;
            assert(v[k] == e);
        }
    }
}

/// Which rows are the newest of their calls depends on the entries in them alone.
proof fn lemma_newest_alike(one: Seq<EntryText>, a: Seq<int>, other: Seq<EntryText>, b: Seq<int>, upto: int)
    requires
        entries_at(one, a) == entries_at(other, b),
        0 <= upto <= a.len(),
    ensures
        entries_at(one, newest_only(one, a, upto)) == entries_at(other, newest_only(other, b, upto)),
    decreases upto,
{
    let v = entries_at(one, a);
    assert(a.len() == v.len() && b.len() == entries_at(other, b).len());
    assert forall|k: int| 0 <= k < a.len() implies one[#[trigger] a[k]] == other[b[k]] by {
        assert(v[k] == entries_at(other, b)[k]);
    }
    if upto <= 0 {
        assert(entries_at(one, newest_only(one, a, upto)) =~= entries_at(other, newest_only(other, b, upto)));
    } else {
        lemma_newest_alike(one, a, other, b, upto - 1);
        let k = upto - 1;
        assert(is_newest(one, a, k) == is_newest(other, b, k)) by {
            assert forall|l: int| 0 <= l < a.len() implies one[#[trigger] a[l]] == other[b[l]] by {}
            assert forall|l: int| 0 <= l < b.len() implies other[#[trigger] b[l]] == one[a[l]] by {}
        }
        let x = newest_only(one, a, k);
        let y = newest_only(other, b, k);
        if is_newest(one, a, k) {
            assert(entries_at(one, x.push(a[k])) =~= entries_at(one, x).push(one[a[k]]));
            assert(entries_at(other, y.push(b[k])) =~= entries_at(other, y).push(other[b[k]]));
        }
    }
}

/// The list that is shown does not depend on the order in which the entries are stored: where two lists
/// hold the same entries, and no two of those that pass are alike in all that counts, the same entries
/// are shown for both, in the same order.
pub proof fn law_stored_order_does_not_matter(
    f: FiltersText,
    one: Seq<EntryText>,
    other: Seq<EntryText>,
    now: Moment,
    a: Seq<int>,
    b: Seq<int>,
)
    requires
        one.to_multiset() == other.to_multiset(),
        f.is_orderly(one, now),
        all_differ(f, one, now),
        f.is_view(one, now, a),
        f.is_view(other, now, b),
    ensures
        entries_at(one, a) == entries_at(other, b),
{
    lemma_reordered(f, one, other, now);
    let x = choose|rows: Seq<int>| #[trigger]
        f.is_sorted_view(one, now, rows) && a == if f.hide_dupes {
            newest_only(one, rows, rows.len() as int)
        } else {
            rows
        };
    let y = choose|rows: Seq<int>| #[trigger]
        f.is_sorted_view(other, now, rows) && b == if f.hide_dupes {
            newest_only(other, rows, rows.len() as int)
        } else {
            rows
        };
    lemma_rows_strict(f, one, now, x);
    lemma_rows_strict(f, other, now, y);
    assert forall|e: EntryText| entries_at(one, x).contains(e) <==> entries_at(other, y).contains(e) by {
        assert(one.contains(e) <==> other.contains(e));
    }
    lemma_strictly_same(f, entries_at(one, x), entries_at(other, y));
    assert(x.len() == entries_at(one, x).len() && y.len() == entries_at(other, y).len());
    lemma_newest_alike(one, x, other, y, x.len() as int);
}

/// To turn the order round turns round what the column decides, and leaves the rest.
pub proof fn law_turned_round(f: FiltersText, a: EntryText, b: EntryText)
    ensures
        ({
            let g = FiltersText { sort_ascending: !f.sort_ascending, ..f };
            crate::filter::column_order(f.sort_column, a, b) != 0 ==> g.order(a, b) == -f.order(a, b)
        }),
        ({
            let g = FiltersText { sort_ascending: !f.sort_ascending, ..f };
            crate::filter::column_order(f.sort_column, a, b) == 0 ==> g.order(a, b) == f.order(a, b)
        }),
{
}

/// Every row that is kept is the newest of its call.
proof fn lemma_kept_is_newest(entries: Seq<EntryText>, rows: Seq<int>, upto: int, a: int) -> (k: int)
    requires
        0 <= upto <= rows.len(),
        0 <= a < newest_only(entries, rows, upto).len(),
    ensures
        0 <= k < upto,
        is_newest(entries, rows, k),
        newest_only(entries, rows, upto)[a] == rows[k],
        newest_only(entries, rows, k).len() == a,
    decreases upto,
{
    let front = newest_only(entries, rows, upto - 1);
    if a < front.len() {
        lemma_kept_is_newest(entries, rows, upto - 1, a)
    } else {
        upto - 1
    }
}

proof fn lemma_newest_is_kept(entries: Seq<EntryText>, rows: Seq<int>, upto: int, k: int)
    requires
        0 <= k < upto <= rows.len(),
        is_newest(entries, rows, k),
    ensures
        newest_only(entries, rows, upto).contains(rows[k]),
    decreases upto,
{
    let front = newest_only(entries, rows, upto - 1);
    let whole = newest_only(entries, rows, upto);
    if k == upto - 1 {
        assert(whole[front.len() as int] == rows[k]);
    } else {
        lemma_newest_is_kept(entries, rows, upto - 1, k);
        let i = choose|i: int| 0 <= i < front.len() && front[i] == rows[k];
        assert(whole[i] == rows[k]);
    }
}

/// The row `k` is the newest of its call among the first `upto`.
spec fn newest_among(entries: Seq<EntryText>, rows: Seq<int>, upto: int, k: int) -> bool {
    forall|l: int|
        0 <= l < upto && l != k && call_of(entries[#[trigger] rows[l]]) == call_of(entries[rows[k]]) ==> text_less(
            time_of(entries[rows[l]]),
            time_of(entries[rows[k]]),
        ) || (time_of(entries[rows[l]]) == time_of(entries[rows[k]]) && k < l)
}

proof fn lemma_some_newest(entries: Seq<EntryText>, rows: Seq<int>, upto: int, i: int) -> (k: int)
    requires
        0 <= i < upto <= rows.len(),
    ensures
        0 <= k < upto,
        call_of(entries[rows[k]]) == call_of(entries[rows[i]]),
        newest_among(entries, rows, upto, k),
    decreases upto,
{
    let call = call_of(entries[rows[i]]);
    let last = upto - 1;
    if call_of(entries[rows[last]]) != call {
        lemma_some_newest(entries, rows, last, i)
    } else if forall|l: int| 0 <= l < last ==> call_of(entries[#[trigger] rows[l]]) != call {
        last
    } else {
        let j = choose|l: int| 0 <= l < last && call_of(entries[#[trigger] rows[l]]) == call;
        let k = lemma_some_newest(entries, rows, last, j);
        let s = time_of(entries[rows[k]]);
        let t = time_of(entries[rows[last]]);
        lemma_less_total(s, t);
        if text_less(s, t) {
            assert forall|l: int|
                0 <= l < upto && l != last && call_of(entries[#[trigger] rows[l]]) == call_of(
                    entries[rows[last]],
                ) implies text_less(time_of(entries[rows[l]]), t) || (time_of(entries[rows[l]]) == t && last < l) by {
                if l != k {
                    if text_less(time_of(entries[rows[l]]), s) {
                        lemma_less_transitive(time_of(entries[rows[l]]), s, t);
                    }
                }
            }
            last
        } else {
            k
        }
    }
}

/// Without duplicates, each call that passes has one row: that of its newest spot.
pub proof fn law_one_row_per_call(entries: Seq<EntryText>, rows: Seq<int>)
    ensures
        ({
            let shown = newest_only(entries, rows, rows.len() as int);
            &&& forall|a: int, b: int|
                0 <= a < b < shown.len() ==> call_of(entries[#[trigger] shown[a]]) != call_of(
                    entries[#[trigger] shown[b]],
                )
            &&& forall|i: int|
                0 <= i < rows.len() ==> exists|a: int|
                    0 <= a < shown.len() && call_of(entries[#[trigger] shown[a]]) == call_of(
                        entries[#[trigger] rows[i]],
                    ) && !text_less(time_of(entries[shown[a]]), time_of(entries[rows[i]]))
        }),
{
    let n = rows.len() as int;
    let shown = newest_only(entries, rows, n);
    assert forall|a: int, b: int| 0 <= a < b < shown.len() implies call_of(entries[#[trigger] shown[a]]) != call_of(
        entries[#[trigger] shown[b]],
    ) by {
        let k = lemma_kept_is_newest(entries, rows, n, a);
        let l = lemma_kept_is_newest(entries, rows, n, b);
        assert(k != l);
        if call_of(entries[rows[k]]) == call_of(entries[rows[l]]) {
            let s = time_of(entries[rows[k]]);
            let t = time_of(entries[rows[l]]);
            lemma_less_irreflexive(s);
            lemma_less_total(s, t);
        }
    }
    assert forall|i: int| 0 <= i < rows.len() implies exists|a: int|
        0 <= a < shown.len() && call_of(entries[#[trigger] shown[a]]) == call_of(entries[#[trigger] rows[i]])
            && !text_less(time_of(entries[shown[a]]), time_of(entries[rows[i]])) by {
        let k = lemma_some_newest(entries, rows, n, i);
        assert(is_newest(entries, rows, k));
        lemma_newest_is_kept(entries, rows, n, k);
        let a = choose|a: int| 0 <= a < shown.len() && shown[a] == rows[k];
        assert(call_of(entries[shown[a]]) == call_of(entries[rows[i]]));
        let s = time_of(entries[rows[k]]);
        let t = time_of(entries[rows[i]]);
        lemma_less_irreflexive(s);
        lemma_less_total(s, t);
        assert(!text_less(s, t)) by {
            if i != k {
                assert(text_less(t, s) || t == s);
            }
        }
    }
}

} // verus!
