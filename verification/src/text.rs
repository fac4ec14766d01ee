//! Text as sequences of characters.
use vstd::prelude::*;
use vstd::utf8::{encode_utf8, encode_utf8_decode_utf8, is_ascii_chars};

verus! {

/// `String::push`: appends one character.
pub assume_specification[ String::push ](s: &mut String, c: char)
    ensures
        final(s)@ == old(s)@.push(c),
;

/// Whether two texts are the same.
pub fn same_text(a: &str, b: &str) -> (r: bool)
    ensures
        r == (a@ == b@),
{
    let x = a.as_bytes();
    let y = b.as_bytes();
    if x.len() != y.len() {
        return false;
    }
    let mut i: usize = 0;
    while i < x.len()
        invariant
            i <= x@.len(),
            x@.len() == y@.len(),
            x@ == encode_utf8(a@),
            y@ == encode_utf8(b@),
            forall|j: int| 0 <= j < i ==> #[trigger] x@[j] == y@[j],
        decreases x@.len() - i,
    {
        if x[i] != y[i] {
            return false;
        }
        i += 1;
    }
    proof {
        assert(x@ =~= y@);
        encode_utf8_decode_utf8(a@);
        encode_utf8_decode_utf8(b@);
    }
    true
}

/// What `str::to_uppercase` makes of a text.
pub uninterp spec fn uppercase(s: Seq<char>) -> Seq<char>;

/// The uppercase form of an ASCII character.
pub open spec fn ascii_upper(c: char) -> char {
    if 'a' <= c && c <= 'z' {
        ((c as u32 - 32) as u32) as char
    } else {
        c
    }
}

/// A text with its ASCII letters in uppercase.
pub open spec fn upper_ascii(s: Seq<char>) -> Seq<char> {
    s.map_values(|c: char| ascii_upper(c))
}

/// `str::to_uppercase`: the uppercase form by Unicode's mapping, which depends on the text alone.
/// An ASCII text is mapped letter by letter.
#[verifier::external_body]
fn to_upper(s: &str) -> (r: String)
    ensures
        r@ == uppercase(s@),
        is_ascii_chars(s@) ==> r@ == upper_ascii(s@),
{
    s.to_uppercase()
}

/// The uppercase form of a text.
pub fn upper_text(s: &str) -> (r: String)
    ensures
        r@ == uppercase(s@),
        is_ascii_chars(s@) ==> r@ == upper_ascii(s@),
{
    to_upper(s)
}

/// The characters of a string slice, in order.
pub fn chars_of(s: &str) -> (v: Vec<char>)
    ensures
        v@ == s@,
{
    let mut v: Vec<char> = Vec::new();
    for c in it: s.chars()
        invariant
            v@ == it.seq().take(it.index()),
            it.seq() == s@,
    {
        v.push(c);
        assert(it.seq().take(it.index() + 1) == it.seq().take(it.index()).push(c));
    }
    assert(s@.take(s@.len() as int) == s@);
    v
}

/// The characters of a string slice, the ASCII letters among them in uppercase.
pub fn upper_chars(s: &str) -> (v: Vec<char>)
    ensures
        v@ == upper_ascii(s@),
{
    let all = chars_of(s);
    let mut v: Vec<char> = Vec::new();
    let mut i: usize = 0;
    while i < all.len()
        invariant
            i <= all@.len(),
            v@ == upper_ascii(all@.take(i as int)),
        decreases all@.len() - i,
    {
        let c = all[i];
        let up = if 'a' <= c && c <= 'z' {
            ((c as u8) - 32) as char
        } else {
            c
        };
        v.push(up);
        proof {
            assert(upper_ascii(all@.take(i + 1)) =~= upper_ascii(all@.take(i as int)).push(ascii_upper(c)));
        }
        i += 1;
    }
    proof {
        assert(all@.take(all@.len() as int) =~= all@);
    }
    v
}

/// The string made of `v[from]`, ..., `v[to - 1]`.
pub fn string_of(v: &Vec<char>, from: usize, to: usize) -> (r: String)
    requires
        from <= to <= v@.len(),
    ensures
        r@ == v@.subrange(from as int, to as int),
{
    let mut r = String::new();
    let mut i: usize = from;
    while i < to
        invariant
            from <= i <= to <= v@.len(),
            r@ == v@.subrange(from as int, i as int),
        decreases to - i,
    {
        r.push(v[i]);
        assert(v@.subrange(from as int, i + 1) == v@.subrange(from as int, i as int).push(v@[i as int]));
        i += 1;
    }
    r
}

/// The characters that Unicode counts as white space.
pub open spec fn is_space(c: char) -> bool {
    let n = c as u32;
    9 <= n <= 13 || n == 32 || n == 0x85 || n == 0xA0 || n == 0x1680 || 0x2000 <= n <= 0x200A || n
        == 0x2028 || n == 0x2029 || n == 0x202F || n == 0x205F || n == 0x3000
}

pub fn space(c: char) -> (r: bool)
    ensures
        r == is_space(c),
{
    let n: u32 = c as u32;
    (9 <= n && n <= 13) || n == 32 || n == 0x85 || n == 0xA0 || n == 0x1680 || (0x2000 <= n && n
        <= 0x200A) || n == 0x2028 || n == 0x2029 || n == 0x202F || n == 0x205F || n == 0x3000
}

/// Without the white space at the start.
pub open spec fn trim_start(s: Seq<char>) -> Seq<char>
    decreases s.len(),
{
    if s.len() > 0 && is_space(s[0]) {
        trim_start(s.drop_first())
    } else {
        s
    }
}

/// Without the white space at the end.
pub open spec fn trim_end(s: Seq<char>) -> Seq<char>
    decreases s.len(),
{
    if s.len() > 0 && is_space(s.last()) {
        trim_end(s.drop_last())
    } else {
        s
    }
}

/// Without the white space at both ends.
pub open spec fn trim(s: Seq<char>) -> Seq<char> {
    trim_end(trim_start(s))
}

proof fn lemma_trim_start_at(s: Seq<char>, k: int)
    requires
        0 <= k <= s.len(),
        forall|i: int| 0 <= i < k ==> is_space(#[trigger] s[i]),
        k < s.len() ==> !is_space(s[k]),
    ensures
        trim_start(s) == s.skip(k),
    decreases s.len(),
{
    if k == 0 {
        assert(s.skip(0) =~= s);
    } else {
        let rest = s.drop_first();
        assert(is_space(s[0]));
        assert forall|i: int| 0 <= i < k - 1 implies is_space(#[trigger] rest[i]) by {
            assert(rest[i] == s[i + 1]);
        }
        lemma_trim_start_at(rest, k - 1);
        assert(rest.skip(k - 1) =~= s.skip(k));
    }
}

proof fn lemma_trim_end_at(s: Seq<char>, k: int)
    requires
        0 <= k <= s.len(),
        forall|i: int| k <= i < s.len() ==> is_space(#[trigger] s[i]),
        k > 0 ==> !is_space(s[k - 1]),
    ensures
        trim_end(s) == s.take(k),
    decreases s.len(),
{
    if k == s.len() {
        assert(s.take(k) =~= s);
    } else {
        let rest = s.drop_last();
        assert(is_space(s[s.len() - 1]));
        lemma_trim_end_at(rest, k);
        assert(rest.take(k) =~= s.take(k));
    }
}

/// `str::trim`.
pub fn trimmed<'a>(s: &'a str) -> (r: &'a str)
    ensures
        r@ == trim(s@),
{
    let v = chars_of(s);
    let mut from: usize = 0;
    while from < v.len() && space(v[from])
        invariant
            from <= v@.len(),
            forall|i: int| 0 <= i < from ==> is_space(#[trigger] v@[i]),
        decreases v@.len() - from,
    {
        from += 1;
    }
    let mut to: usize = v.len();
    while to > from && space(v[to - 1])
        invariant
            from <= to <= v@.len(),
            forall|i: int| to <= i < v@.len() ==> is_space(#[trigger] v@[i]),
        decreases to,
    {
        to -= 1;
    }
    proof {
        lemma_trim_start_at(v@, from as int);
        let t = v@.skip(from as int);
        assert forall|i: int| to - from <= i < t.len() implies is_space(#[trigger] t[i]) by {
            assert(t[i] == v@[i + from]);
        }
        lemma_trim_end_at(t, to - from);
        assert(t.take(to - from) =~= v@.subrange(from as int, to as int));
    }
    s.substring_char(from, to)
}

/// Without the `c`s at the end.
pub open spec fn strip_end(s: Seq<char>, c: char) -> Seq<char>
    decreases s.len(),
{
    if s.len() > 0 && s.last() == c {
        strip_end(s.drop_last(), c)
    } else {
        s
    }
}

/// `str::trim_end_matches` with a character.
pub fn stripped_end<'a>(s: &'a str, c: char) -> (r: &'a str)
    ensures
        r@ == strip_end(s@, c),
{
    let v = chars_of(s);
    let mut to: usize = v.len();
    proof {
        assert(v@.take(to as int) =~= v@);
    }
    while to > 0 && v[to - 1] == c
        invariant
            to <= v@.len(),
            strip_end(v@, c) == strip_end(v@.take(to as int), c),
        decreases to,
    {
        proof {
            assert(v@.take(to as int).drop_last() =~= v@.take(to - 1));
        }
        to -= 1;
    }
    proof {
        assert(v@.take(to as int) =~= v@.subrange(0, to as int));
    }
    s.substring_char(0, to)
}

/// `needle` stands in `hay` at `i`.
pub open spec fn occurs_at<T>(hay: Seq<T>, needle: Seq<T>, i: int) -> bool {
    0 <= i && i + needle.len() <= hay.len() && hay.subrange(i, i + needle.len()) == needle
}

/// `needle` stands somewhere in `hay`.
pub open spec fn contains<T>(hay: Seq<T>, needle: Seq<T>) -> bool {
    exists|i: int| occurs_at(hay, needle, i)
}

/// Where `needle` first stands in `hay`, at `from` or after it.
pub open spec fn find_from<T>(hay: Seq<T>, needle: Seq<T>, from: int) -> Option<int>
    decreases hay.len() + 1 - from,
{
    if from < 0 || from + needle.len() > hay.len() {
        None
    } else if occurs_at(hay, needle, from) {
        Some(from)
    } else {
        find_from(hay, needle, from + 1)
    }
}

pub proof fn lemma_find_none<T>(hay: Seq<T>, needle: Seq<T>, from: int)
    requires
        from >= 0,
        forall|j: int| from <= j ==> !occurs_at(hay, needle, j),
    ensures
        find_from(hay, needle, from) is None,
    decreases hay.len() + 1 - from,
{
    if from + needle.len() <= hay.len() {
        lemma_find_none(hay, needle, from + 1);
    }
}

pub proof fn lemma_find_at<T>(hay: Seq<T>, needle: Seq<T>, from: int, i: int)
    requires
        0 <= from <= i,
        forall|j: int| from <= j < i ==> !occurs_at(hay, needle, j),
        occurs_at(hay, needle, i),
    ensures
        find_from(hay, needle, from) == Some(i),
    decreases i - from,
{
    if from < i {
        lemma_find_at(hay, needle, from + 1, i);
    }
}

pub proof fn lemma_find_found<T>(hay: Seq<T>, needle: Seq<T>, from: int)
    requires
        from >= 0,
    ensures
        find_from(hay, needle, from) matches Some(i) ==> from <= i && occurs_at(hay, needle, i) && forall|j: int|
            from <= j < i ==> !occurs_at(hay, needle, j),
        find_from(hay, needle, from) is None ==> forall|j: int| from <= j ==> !occurs_at(hay, needle, j),
    decreases hay.len() + 1 - from,
{
    if from + needle.len() <= hay.len() && !occurs_at(hay, needle, from) {
        lemma_find_found(hay, needle, from + 1);
    }
}

/// Whether `needle` stands in `hay` at `i`.
fn stands_at(hay: &Vec<char>, needle: &Vec<char>, i: usize) -> (r: bool)
    requires
        i + needle@.len() <= hay@.len(),
    ensures
        r == occurs_at(hay@, needle@, i as int),
{
    let mut j: usize = 0;
    let ghost part = hay@.subrange(i as int, i + needle@.len());
    while j < needle.len()
        invariant
            j <= needle@.len(),
            i + needle@.len() <= hay.len(),
            part == hay@.subrange(i as int, i + needle@.len()),
            forall|k: int| 0 <= k < j ==> part[k] == #[trigger] needle@[k],
        decreases needle@.len() - j,
    {
        if hay[i + j] != needle[j] {
            proof {
                assert(part[j as int] != needle@[j as int]);
            }
            return false;
        }
        j += 1;
    }
    proof {
        assert(part =~= needle@);
    }
    true
}

/// Where `needle` first stands in `hay`, at `from` or after it.
pub fn find_chars(hay: &Vec<char>, needle: &Vec<char>, from: usize) -> (r: Option<usize>)
    ensures
        match find_from(hay@, needle@, from as int) {
            Some(i) => r == Some(i as usize) && i <= usize::MAX,
            None => r is None,
        },
{
    let h = hay.len();
    let n = needle.len();
    if n > h || from > h - n {
        return None;
    }
    let mut i: usize = from;
    while i < h - n
        invariant
            h == hay@.len(),
            n == needle@.len(),
            n <= h,
            from <= i <= h - n,
            forall|j: int| from <= j < i ==> !occurs_at(hay@, needle@, j),
        decreases h - i,
    {
        if stands_at(hay, needle, i) {
            proof {
                lemma_find_at(hay@, needle@, from as int, i as int);
            }
            return Some(i);
        }
        i += 1;
    }
    if stands_at(hay, needle, i) {
        proof {
            lemma_find_at(hay@, needle@, from as int, i as int);
        }
        Some(i)
    } else {
        proof {
            lemma_find_none(hay@, needle@, from as int);
        }
        None
    }
}

/// `str::contains`.
pub fn has_text(hay: &str, needle: &str) -> (r: bool)
    ensures
        r == contains(hay@, needle@),
{
    let h = chars_of(hay);
    let n = chars_of(needle);
    proof {
        lemma_find_found(h@, n@, 0);
    }
    find_chars(&h, &n, 0).is_some()
}

/// Where the first `a` or `b` stands; the length of the text where there is none.
pub open spec fn index_of_either(s: Seq<char>, a: char, b: char) -> int
    decreases s.len(),
{
    if s.len() == 0 || s[0] == a || s[0] == b {
        0
    } else {
        1 + index_of_either(s.drop_first(), a, b)
    }
}

/// Where the first `c` stands; the length of the text where there is none.
pub open spec fn index_of(s: Seq<char>, c: char) -> int {
    index_of_either(s, c, c)
}

pub proof fn lemma_index_at(s: Seq<char>, a: char, b: char, i: int)
    requires
        0 <= i <= s.len(),
        forall|j: int| 0 <= j < i ==> s[j] != a && s[j] != b,
        i < s.len() ==> s[i] == a || s[i] == b,
    ensures
        index_of_either(s, a, b) == i,
    decreases s.len(),
{
    if i > 0 {
        assert(s[0] != a && s[0] != b);
        assert forall|j: int| 0 <= j < i - 1 implies s.drop_first()[j] != a && s.drop_first()[j] != b by {
            assert(s.drop_first()[j] == s[j + 1]);
        }
        lemma_index_at(s.drop_first(), a, b, i - 1);
    }
}

pub proof fn lemma_index_found(s: Seq<char>, a: char, b: char)
    ensures
        0 <= index_of_either(s, a, b) <= s.len(),
        forall|j: int|
            0 <= j < index_of_either(s, a, b) ==> #[trigger] s[j] != a && s[j] != b,
        index_of_either(s, a, b) < s.len() ==> s[index_of_either(s, a, b)] == a || s[index_of_either(s, a, b)]
            == b,
    decreases s.len(),
{
    if s.len() > 0 && s[0] != a && s[0] != b {
        let rest = s.drop_first();
        lemma_index_found(rest, a, b);
        assert forall|j: int| 0 <= j < index_of_either(s, a, b) implies #[trigger] s[j] != a && s[j] != b by {
            if j > 0 {
                assert(rest[j - 1] == s[j]);
            }
        }
    }
}

/// The first `a` or `b` at `from` or after it, before `to`; `to` where there is none.
pub fn find_either(v: &Vec<char>, from: usize, to: usize, a: char, b: char) -> (r: usize)
    requires
        from <= to <= v@.len(),
    ensures
        from <= r <= to,
        r - from == index_of_either(v@.subrange(from as int, to as int), a, b),
{
    let mut i: usize = from;
    let ghost part = v@.subrange(from as int, to as int);
    while i < to
        invariant
            from <= i <= to <= v@.len(),
            part == v@.subrange(from as int, to as int),
            forall|j: int| 0 <= j < i - from ==> part[j] != a && part[j] != b,
        decreases to - i,
    {
        if v[i] == a || v[i] == b {
            proof {
                lemma_index_at(part, a, b, i - from);
            }
            return i;
        }
        i += 1;
    }
    proof {
        lemma_index_at(part, a, b, to - from);
    }
    to
}

/// What stands before the first `c`; the whole text where there is none.
pub open spec fn before(s: Seq<char>, c: char) -> Seq<char> {
    s.take(index_of(s, c))
}

pub fn text_before(s: &str, c: char) -> (r: String)
    ensures
        r@ == before(s@, c),
{
    let v = chars_of(s);
    let n = find_either(&v, 0, v.len(), c, c);
    proof {
        assert(v@.subrange(0, v@.len() as int) =~= v@);
        assert(v@.subrange(0, n as int) =~= v@.take(n as int));
    }
    string_of(&v, 0, n)
}

/// The order of texts by their characters' code points, the first difference deciding.
pub open spec fn text_less(a: Seq<char>, b: Seq<char>) -> bool
    decreases a.len(),
{
    if b.len() == 0 {
        false
    } else if a.len() == 0 {
        true
    } else if a[0] != b[0] {
        a[0] < b[0]
    } else {
        text_less(a.drop_first(), b.drop_first())
    }
}

/// No text comes before itself.
pub proof fn lemma_less_irreflexive(a: Seq<char>)
    ensures
        !text_less(a, a),
    decreases a.len(),
{
    if a.len() > 0 {
        lemma_less_irreflexive(a.drop_first());
    }
}

/// Of two texts, one comes before the other unless they are equal.
pub proof fn lemma_less_total(a: Seq<char>, b: Seq<char>)
    ensures
        text_less(a, b) || text_less(b, a) || a == b,
        !(text_less(a, b) && text_less(b, a)),
    decreases a.len(),
{
    if a.len() == 0 && b.len() == 0 {
        assert(a =~= b);
    }
    if a.len() > 0 && b.len() > 0 {
        lemma_less_total(a.drop_first(), b.drop_first());
        if a[0] == b[0] && a.drop_first() == b.drop_first() {
            assert(a =~= seq![a[0]] + a.drop_first());
            assert(b =~= seq![b[0]] + b.drop_first());
        }
    }
}

pub proof fn lemma_less_transitive(a: Seq<char>, b: Seq<char>, c: Seq<char>)
    requires
        text_less(a, b),
        text_less(b, c),
    ensures
        text_less(a, c),
    decreases a.len(),
{
    if a.len() > 0 && b.len() > 0 && c.len() > 0 && a[0] == b[0] && b[0] == c[0] {
        lemma_less_transitive(a.drop_first(), b.drop_first(), c.drop_first());
    }
}

/// `<` on string slices.
pub fn less(a: &str, b: &str) -> (r: bool)
    ensures
        r == text_less(a@, b@),
{
    let v = chars_of(a);
    let w = chars_of(b);
    let mut i: usize = 0;
    proof {
        assert(v@.skip(0) =~= v@);
        assert(w@.skip(0) =~= w@);
    }
    while i < v.len() && i < w.len()
        invariant
            i <= v@.len(),
            i <= w@.len(),
            v@ == a@,
            w@ == b@,
            text_less(a@, b@) == text_less(v@.skip(i as int), w@.skip(i as int)),
        decreases v@.len() - i,
    {
        if v[i] != w[i] {
            return v[i] < w[i];
        }
        proof {
            assert(v@.skip(i as int).drop_first() =~= v@.skip(i + 1));
            assert(w@.skip(i as int).drop_first() =~= w@.skip(i + 1));
        }
        i += 1;
    }
    i < w.len()
}

/// The texts of strings.
pub open spec fn texts(v: Seq<String>) -> Seq<Seq<char>> {
    Seq::new(v.len(), |i: int| v[i]@)
}

/// The words read so far, and the letters of the word that is not ended.
pub open spec fn words_and_rest(s: Seq<char>) -> (Seq<Seq<char>>, Seq<char>)
    decreases s.len(),
{
    if s.len() == 0 {
        (Seq::empty(), Seq::empty())
    } else {
        let (done, rest) = words_and_rest(s.drop_last());
        if !is_space(s.last()) {
            (done, rest.push(s.last()))
        } else if rest.len() > 0 {
            (done.push(rest), Seq::empty())
        } else {
            (done, rest)
        }
    }
}

/// The longest parts of a text without white space in them, in order.
pub open spec fn words(s: Seq<char>) -> Seq<Seq<char>> {
    let (done, rest) = words_and_rest(s);
    if rest.len() > 0 {
        done.push(rest)
    } else {
        done
    }
}

/// `str::split_whitespace`.
pub fn split_words(s: &str) -> (r: Vec<String>)
    ensures
        texts(r@) == words(s@),
{
    let v = chars_of(s);
    let mut r: Vec<String> = Vec::new();
    let mut rest = String::new();
    let mut i: usize = 0;
    let mut open = false;
    proof {
        assert(texts(r@) =~= Seq::<Seq<char>>::empty());
        assert(rest@ =~= Seq::<char>::empty());
        assert(v@.take(0).len() == 0);
    }
    while i < v.len()
        invariant
            i <= v@.len(),
            v@ == s@,
            words_and_rest(v@.take(i as int)) == (texts(r@), rest@),
            open == (rest@.len() > 0),
        decreases v@.len() - i,
    {
        let c = v[i];
        proof {
            let next = v@.take(i + 1);
            assert(next.drop_last() =~= v@.take(i as int));
            assert(next.last() == c);
        }
        if !space(c) {
            rest.push(c);
            open = true;
        } else if open {
            let ghost done = r@;
            let ghost word = rest@;
            r.push(rest);
            proof {
                assert(texts(r@) =~= texts(done).push(word));
            }
            rest = String::new();
            proof {
                assert(rest@ =~= Seq::<char>::empty());
            }
            open = false;
        }
        i += 1;
    }
    proof {
        assert(v@.take(v@.len() as int) =~= v@);
    }
    if open {
        let ghost done = r@;
        let ghost word = rest@;
        r.push(rest);
        proof {
            assert(texts(r@) =~= texts(done).push(word));
        }
    }
    r
}

/// The texts with one space between each two.
pub open spec fn join(parts: Seq<Seq<char>>) -> Seq<char>
    decreases parts.len(),
{
    if parts.len() == 0 {
        Seq::empty()
    } else if parts.len() == 1 {
        parts[0]
    } else {
        join(parts.drop_last()) + seq![' '] + parts.last()
    }
}

/// `join(" ")` of strings.
pub fn joined(v: &Vec<String>) -> (r: String)
    ensures
        r@ == join(texts(v@)),
{
    let mut r = String::new();
    let mut i: usize = 0;
    proof {
        assert(r@ =~= Seq::<char>::empty());
    }
    while i < v.len()
        invariant
            i <= v@.len(),
            r@ == join(texts(v@.take(i as int))),
        decreases v@.len() - i,
    {
        proof {
            let next = texts(v@.take(i + 1));
            assert(next.drop_last() =~= texts(v@.take(i as int)));
            assert(next.last() == v@[i as int]@);
        }
        let ghost start = r@;
        if i > 0 {
            r.push(' ');
        }
        r.append(v[i].as_str());
        proof {
            if i > 0 {
                assert(r@ =~= start + seq![' '] + v@[i as int]@);
            } else {
                assert(r@ =~= v@[0]@);
            }
        }
        i += 1;
    }
    proof {
        assert(v@.take(v@.len() as int) =~= v@);
    }
    r
}

/// The parts of a text between the `c`s, one more than there are `c`s.
pub open spec fn pieces(s: Seq<char>, c: char) -> Seq<Seq<char>>
    decreases s.len(),
{
    if s.len() == 0 {
        seq![Seq::empty()]
    } else {
        let front = pieces(s.drop_last(), c);
        if s.last() == c {
            front.push(Seq::empty())
        } else {
            front.drop_last().push(front.last().push(s.last()))
        }
    }
}

pub proof fn lemma_pieces_some(s: Seq<char>, c: char)
    ensures
        pieces(s, c).len() > 0,
    decreases s.len(),
{
    if s.len() > 0 {
        lemma_pieces_some(s.drop_last(), c);
    }
}

/// `str::split` with a character.
pub fn split_at_char(s: &str, c: char) -> (r: Vec<String>)
    ensures
        texts(r@) == pieces(s@, c),
{
    let v = chars_of(s);
    let mut r: Vec<String> = Vec::new();
    let mut rest = String::new();
    let mut i: usize = 0;
    proof {
        assert(texts(r@).push(rest@) =~= seq![Seq::<char>::empty()]);
        assert(v@.take(0).len() == 0);
    }
    while i < v.len()
        invariant
            i <= v@.len(),
            v@ == s@,
            pieces(v@.take(i as int), c) == texts(r@).push(rest@),
        decreases v@.len() - i,
    {
        let x = v[i];
        proof {
            let next = v@.take(i + 1);
            assert(next.drop_last() =~= v@.take(i as int));
            assert(next.last() == x);
            let front = texts(r@).push(rest@);
            assert(front.drop_last() =~= texts(r@));
            assert(front.last() == rest@);
        }
        let ghost done = r@;
        let ghost word = rest@;
        if x == c {
            r.push(rest);
            rest = String::new();
            proof {
                assert(rest@ =~= Seq::<char>::empty());
                assert(texts(r@) =~= texts(done).push(word));
            }
        } else {
            rest.push(x);
        }
        i += 1;
    }
    let ghost done = r@;
    let ghost word = rest@;
    r.push(rest);
    proof {
        assert(v@.take(v@.len() as int) =~= v@);
        assert(texts(r@) =~= texts(done).push(word));
    }
    r
}

/// However a text is cut in two, its pieces come out the same: the pieces of the first part but for
/// the last, and then those of the last one with the second part behind it.
pub proof fn law_pieces_in_parts(s: Seq<char>, t: Seq<char>, c: char)
    ensures
        pieces(s + t, c) == pieces(s, c).drop_last() + pieces(pieces(s, c).last() + t, c),
    decreases t.len(),
{
    lemma_pieces_some(s, c);
    let front = pieces(s, c).drop_last();
    let rest = pieces(s, c).last();
    if t.len() == 0 {
        assert(s + t =~= s);
        assert(rest + t =~= rest);
        lemma_no_separator(s, c);
        lemma_one_piece(rest, c);
        assert(front + seq![rest] =~= pieces(s, c));
    } else {
        let u = t.drop_last();
        law_pieces_in_parts(s, u, c);
        assert((s + t).drop_last() =~= s + u);
        assert((rest + t).drop_last() =~= rest + u);
        assert((s + t).last() == t.last());
        assert((rest + t).last() == t.last());
        let inner = pieces(rest + u, c);
        lemma_pieces_some(rest + u, c);
        if t.last() == c {
            assert((front + inner).push(Seq::<char>::empty()) =~= front + inner.push(Seq::<char>::empty()));
        } else {
            assert((front + inner).last() == inner.last());
            assert((front + inner).drop_last().push(inner.last().push(t.last())) =~= front + inner.drop_last().push(
                inner.last().push(t.last()),
            ));
        }
    }
}

proof fn lemma_no_separator(s: Seq<char>, c: char)
    ensures
        !pieces(s, c).last().contains(c),
    decreases s.len(),
{
    if s.len() > 0 {
        let front = pieces(s.drop_last(), c);
        lemma_pieces_some(s.drop_last(), c);
        lemma_no_separator(s.drop_last(), c);
        if s.last() != c {
            let last = front.last().push(s.last());
            assert(pieces(s, c).last() == last);
            assert forall|i: int| 0 <= i < last.len() implies last[i] != c by {
                if i < front.last().len() {
                    assert(front.last().contains(front.last()[i]));
                }
            }
        }
    }
}

proof fn lemma_one_piece(s: Seq<char>, c: char)
    requires
        !s.contains(c),
    ensures
        pieces(s, c) == seq![s],
    decreases s.len(),
{
    if s.len() == 0 {
        assert(s =~= Seq::empty());
    } else {
        let front = s.drop_last();
        assert forall|i: int| 0 <= i < front.len() implies front[i] != c by {
            assert(s.contains(s[i]));
        }
        lemma_one_piece(front, c);
        assert(s.contains(s[s.len() - 1]));
        assert(front.push(s.last()) =~= s);
        assert(seq![front].drop_last().push(front.push(s.last())) =~= seq![s]);
    }
}

} // verus!
