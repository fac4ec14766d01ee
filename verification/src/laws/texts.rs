//! What holds of texts: how they are cut up, put together, searched and ordered.
use crate::dxline::is_word;
use crate::text::{
    before, contains, find_from, index_of, is_space, join, law_pieces_in_parts, lemma_find_found,
    lemma_index_found, lemma_less_irreflexive, occurs_at, pieces, strip_end, text_less, texts, trim,
    trim_end, trim_start, upper_ascii, words, words_and_rest,
};
use vstd::prelude::*;

verus! {

/// A text holds another exactly when it is made of something, that text and something more.
pub proof fn law_contains(hay: Seq<char>, needle: Seq<char>)
    ensures
        contains(hay, needle) <==> exists|a: Seq<char>, b: Seq<char>| hay == #[trigger] (a + needle + b),
{
    if contains(hay, needle) {
        let i = choose|i: int| occurs_at(hay, needle, i);
        let a = hay.take(i);
        let b = hay.skip(i + needle.len());
        let middle = hay.subrange(i, i + needle.len());
        assert(hay =~= a + middle + b);
    }
    if exists|a: Seq<char>, b: Seq<char>| hay == #[trigger] (a + needle + b) {
        let (a, b) = choose|a: Seq<char>, b: Seq<char>| hay == #[trigger] (a + needle + b);
        assert(hay.subrange(a.len() as int, (a.len() + needle.len()) as int) =~= needle);
        assert(occurs_at(hay, needle, a.len() as int));
    }
}

/// A text is found where it first stands: there, and nowhere before. Where it is not found, it stands
/// nowhere.
pub proof fn law_find(hay: Seq<char>, needle: Seq<char>, from: int)
    requires
        from >= 0,
    ensures
        match find_from(hay, needle, from) {
            Some(i) => {
                &&& from <= i && i + needle.len() <= hay.len()
                &&& hay.subrange(i, i + needle.len()) == needle
                &&& forall|j: int| from <= j < i ==> #[trigger] hay.subrange(j, j + needle.len()) != needle
            },
            None => forall|j: int|
                from <= j && j + needle.len() <= hay.len() ==> #[trigger] hay.subrange(j, j + needle.len()) != needle,
        },
{
    lemma_find_found(hay, needle, from);
    match find_from(hay, needle, from) {
        Some(i) => {
            assert forall|j: int| from <= j < i implies #[trigger] hay.subrange(j, j + needle.len()) != needle by {
                assert(!occurs_at(hay, needle, j));
            }
        },
        None => {
            assert forall|j: int| from <= j && j + needle.len() <= hay.len() implies #[trigger] hay.subrange(
                j,
                j + needle.len(),
            ) != needle by {
                assert(!occurs_at(hay, needle, j));
            }
        },
    }
}

/// Among the ASCII characters, white space is the blank and the five from the tab to the carriage
/// return.
pub proof fn law_ascii_space(c: char)
    requires
        c as u32 <= 0x7f,
    ensures
        is_space(c) <==> c == ' ' || '\t' <= c <= '\r',
{
}

/// Beyond ASCII, white space is the next line, the spaces of the various widths, and the separators of
/// lines and paragraphs.
pub proof fn law_wide_space(c: char)
    requires
        c as u32 > 0x7f,
    ensures
        is_space(c) <==> c == '\u{85}' || c == '\u{a0}' || c == '\u{1680}' || '\u{2000}' <= c <= '\u{200a}' || c
            == '\u{2028}' || c == '\u{2029}' || c == '\u{202f}' || c == '\u{205f}' || c == '\u{3000}',
{
}

proof fn lemma_trim_start(s: Seq<char>) -> (k: int)
    ensures
        0 <= k <= s.len(),
        trim_start(s) == s.skip(k),
        forall|i: int| 0 <= i < k ==> is_space(#[trigger] s[i]),
        k < s.len() ==> !is_space(s[k]),
    decreases s.len(),
{
    if s.len() > 0 && is_space(s[0]) {
        let k = lemma_trim_start(s.drop_first()) + 1;
        assert(s.drop_first().skip(k - 1) =~= s.skip(k));
        assert forall|i: int| 0 <= i < k implies is_space(#[trigger] s[i]) by {
            if i > 0 {
                assert(s.drop_first()[i - 1] == s[i]);
            }
        }
        k
    } else {
        assert(s.skip(0) =~= s);
        0
    }
}

proof fn lemma_trim_end(s: Seq<char>) -> (k: int)
    ensures
        0 <= k <= s.len(),
        trim_end(s) == s.take(k),
        forall|i: int| k <= i < s.len() ==> is_space(#[trigger] s[i]),
        k > 0 ==> !is_space(s[k - 1]),
    decreases s.len(),
{
    if s.len() > 0 && is_space(s.last()) {
        let front = s.drop_last();
        let k = lemma_trim_end(front);
        assert(front.take(k) =~= s.take(k));
        assert forall|i: int| k <= i < s.len() implies is_space(#[trigger] s[i]) by {
            if i < front.len() {
                assert(front[i] == s[i]);
            }
        }
        k
    } else {
        assert(s.take(s.len() as int) =~= s);
        s.len() as int
    }
}

/// White space at both ends goes, and nothing else does: whatever blanks stand around a text that
/// neither starts nor ends with one, the text is what is left.
pub proof fn law_trim(a: Seq<char>, t: Seq<char>, b: Seq<char>)
    requires
        forall|i: int| 0 <= i < a.len() ==> is_space(#[trigger] a[i]),
        forall|i: int| 0 <= i < b.len() ==> is_space(#[trigger] b[i]),
        t.len() > 0 ==> !is_space(t[0]) && !is_space(t.last()),
    ensures
        trim(a + t + b) == t,
{
    let s = a + t + b;
    let k = lemma_trim_start(s);
    let u = s.skip(k);
    let l = lemma_trim_end(u);
    assert(trim(s) == u.take(l));
    if t.len() == 0 {
        assert forall|i: int| 0 <= i < s.len() implies is_space(#[trigger] s[i]) by {
            if i < a.len() {
                assert(s[i] == a[i]);
            } else {
                assert(s[i] == b[i - a.len()]);
            }
        }
        assert(k == s.len());
        assert(trim(s) =~= t);
    } else {
        let n = a.len() as int;
        assert(s[n] == t[0]);
        if k > n {
            assert(is_space(s[n]));
        }
        if k < n {
            assert(s[k] == a[k]);
        }
        assert(k == n);
        let m = t.len() as int;
        assert(u =~= t + b);
        if l < m {
            assert(is_space(u[m - 1]));
            assert(u[m - 1] == t.last());
        }
        if l > m {
            assert(u[l - 1] == b[l - 1 - m]);
        }
        assert(u.take(m) =~= t);
    }
}

proof fn lemma_words_of_rest(s: Seq<char>, b: Seq<char>)
    requires
        words_and_rest(s).1.len() == 0,
    ensures
        words_and_rest(s + b).0 == words_and_rest(s).0 + words_and_rest(b).0,
        words_and_rest(s + b).1 == words_and_rest(b).1,
    decreases b.len(),
{
    if b.len() == 0 {
        assert(s + b =~= s);
        assert(words_and_rest(s).1 =~= Seq::empty());
        assert(words_and_rest(s).0 + Seq::<Seq<char>>::empty() =~= words_and_rest(s).0);
    } else {
        let front = b.drop_last();
        lemma_words_of_rest(s, front);
        assert((s + b).drop_last() =~= s + front);
        assert((s + b).last() == b.last());
        let x = words_and_rest(s).0;
        let (done, rest) = words_and_rest(front);
        assert((x + done).push(rest) =~= x + done.push(rest));
    }
}

/// White space parts words, wherever it stands.
pub proof fn law_space_parts_words(a: Seq<char>, c: char, b: Seq<char>)
    requires
        is_space(c),
    ensures
        words(a + seq![c] + b) == words(a) + words(b),
{
    let s = a + seq![c];
    assert(s.drop_last() =~= a);
    assert(s.last() == c);
    assert(words_and_rest(s) == (words(a), Seq::<char>::empty()));
    lemma_words_of_rest(s, b);
    let (done, rest) = words_and_rest(b);
    assert((words(a) + done).push(rest) =~= words(a) + done.push(rest));
}

/// A text without white space is one word, and no text is none.
pub proof fn law_one_word(t: Seq<char>)
    requires
        forall|i: int| 0 <= i < t.len() ==> !is_space(#[trigger] t[i]),
    ensures
        words(t) == if t.len() > 0 {
            seq![t]
        } else {
            Seq::<Seq<char>>::empty()
        },
{
    lemma_alone(t);
    assert(Seq::<Seq<char>>::empty().push(t) =~= seq![t]);
}

proof fn lemma_alone(t: Seq<char>)
    requires
        forall|i: int| 0 <= i < t.len() ==> !is_space(#[trigger] t[i]),
    ensures
        words_and_rest(t) == (Seq::<Seq<char>>::empty(), t),
    decreases t.len(),
{
    if t.len() == 0 {
        assert(t =~= Seq::empty());
    } else {
        let front = t.drop_last();
        assert forall|i: int| 0 <= i < front.len() implies !is_space(#[trigger] front[i]) by {
            assert(front[i] == t[i]);
        }
        lemma_alone(front);
        assert(!is_space(t[t.len() - 1]));
        assert(front.push(t.last()) =~= t);
    }
}

/// Every word of a text is one: it is not empty, and holds no white space.
pub proof fn law_words_are_words(s: Seq<char>, i: int)
    requires
        0 <= i < words(s).len(),
    ensures
        words(s)[i].len() > 0,
        forall|j: int| 0 <= j < words(s)[i].len() ==> !is_space(#[trigger] words(s)[i][j]),
{
    lemma_words_clean(s);
    let (done, rest) = words_and_rest(s);
    if i < done.len() {
        assert(is_word(done[i]));
    }
}

proof fn lemma_words_clean(s: Seq<char>)
    ensures
        forall|i: int| 0 <= i < words_and_rest(s).0.len() ==> is_word(#[trigger] words_and_rest(s).0[i]),
        forall|j: int| 0 <= j < words_and_rest(s).1.len() ==> !is_space(#[trigger] words_and_rest(s).1[j]),
    decreases s.len(),
{
    if s.len() > 0 {
        lemma_words_clean(s.drop_last());
        let (done, rest) = words_and_rest(s.drop_last());
        let (done2, rest2) = words_and_rest(s);
        assert forall|i: int| 0 <= i < done2.len() implies is_word(#[trigger] done2[i]) by {
            if i < done.len() {
                assert(done2[i] == done[i]);
            }
        }
        assert forall|j: int| 0 <= j < rest2.len() implies !is_space(#[trigger] rest2[j]) by {
            if j < rest.len() {
                assert(rest2[j] == rest[j]);
            }
        }
    }
}

/// Texts are joined with one blank between each two.
pub proof fn law_join(parts: Seq<Seq<char>>, x: Seq<char>)
    ensures
        join(Seq::empty()) == Seq::<char>::empty(),
        join(seq![x]) == x,
        parts.len() > 0 ==> join(parts.push(x)) == join(parts) + seq![' '] + x,
{
    assert(parts.push(x).drop_last() =~= parts);
}

/// A text is cut at a character: what stands before the first one is a piece, and what follows it is
/// cut in turn. Without the character, it is one piece.
pub proof fn law_pieces(a: Seq<char>, c: char, b: Seq<char>)
    requires
        !a.contains(c),
    ensures
        pieces(a, c) == seq![a],
        pieces(a + seq![c] + b, c) == seq![a] + pieces(b, c),
{
    lemma_one_piece(a, c);
    let s = a + seq![c];
    assert(s.drop_last() =~= a);
    assert(s.last() == c);
    assert(pieces(s, c) =~= seq![a, Seq::<char>::empty()]);
    law_pieces_in_parts(s, b, c);
    assert(pieces(s, c).drop_last() =~= seq![a]);
    assert(Seq::<char>::empty() + b =~= b);
}

proof fn lemma_one_piece(s: Seq<char>, c: char)
    requires
        !s.contains(c),
    ensures
        pieces(s, c) == seq![s],
    decreases s.len(),
{
    if s.len() == 0 {
        assert(s =~= Seq::empty());
    } else {
        let front = s.drop_last();
        assert forall|i: int| 0 <= i < front.len() implies front[i] != c by {
            assert(s.contains(s[i]));
        }
        lemma_one_piece(front, c);
        assert(s.contains(s[s.len() - 1]));
        assert(front.push(s.last()) =~= s);
        assert(seq![front].drop_last().push(front.push(s.last())) =~= seq![s]);
    }
}

/// What stands before a character is what stands before the first one; without it, the whole text.
pub proof fn law_before(a: Seq<char>, c: char, b: Seq<char>)
    requires
        !a.contains(c),
    ensures
        before(a, c) == a,
        before(a + seq![c] + b, c) == a,
        index_of(a, c) == a.len(),
        index_of(a + seq![c] + b, c) == a.len(),
{
    let s = a + seq![c] + b;
    lemma_index_found(s, c, c);
    lemma_index_found(a, c, c);
    let i = index_of(s, c);
    let j = index_of(a, c);
    if j < a.len() {
        assert(a.contains(a[j]));
    }
    assert(s[a.len() as int] == c);
    if i < a.len() {
        assert(s[i] == a[i]);
        assert(a.contains(a[i]));
    }
    assert(i == a.len());
    assert(s.take(i) =~= a);
    assert(a.take(j) =~= a);
}

/// All of a character at the end of a text goes, and nothing else does.
pub proof fn law_strip_end(t: Seq<char>, c: char, n: nat)
    requires
        t.len() > 0 ==> t.last() != c,
    ensures
        strip_end(t + Seq::new(n, |i: int| c), c) == t,
    decreases n,
{
    let s = t + Seq::new(n, |i: int| c);
    if n == 0 {
        assert(s =~= t);
    } else {
        law_strip_end(t, c, (n - 1) as nat);
        assert(s.drop_last() =~= t + Seq::new((n - 1) as nat, |i: int| c));
    }
}

/// Texts are ordered by their first difference; one that goes on comes after one that ends.
pub proof fn law_less(p: Seq<char>, x: char, a: Seq<char>, y: char, b: Seq<char>)
    ensures
        x != y ==> (text_less(p + seq![x] + a, p + seq![y] + b) <==> (x as u32) < (y as u32)),
        text_less(p, p + seq![x] + a),
        !text_less(p, p),
        !text_less(p + seq![x] + a, p),
    decreases p.len(),
{
    lemma_less_irreflexive(p);
    if p.len() > 0 {
        let q = p.drop_first();
        law_less(q, x, a, y, b);
        assert((p + seq![x] + a).drop_first() =~= q + seq![x] + a);
        assert((p + seq![y] + b).drop_first() =~= q + seq![y] + b);
    }
}

/// The ASCII letters become capitals, and nothing else changes: not in length, not in place.
pub proof fn law_upper(s: Seq<char>, i: int)
    requires
        0 <= i < s.len(),
    ensures
        upper_ascii(s).len() == s.len(),
        'a' <= s[i] <= 'z' ==> upper_ascii(s)[i] as int == s[i] as int - 'a' as int + 'A' as int,
        !('a' <= s[i] <= 'z') ==> upper_ascii(s)[i] == s[i],
{
}

/// The texts of strings are those strings, each in its place.
pub proof fn law_texts(v: Seq<String>, i: int)
    requires
        0 <= i < v.len(),
    ensures
        texts(v).len() == v.len(),
        texts(v)[i] == v[i]@,
{
}

} // verus!
