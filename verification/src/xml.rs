//! Tags in the records of the log.
//!
//! A tag may be written in letters of either case.
use crate::text::{
    chars_of, contains, find_chars, find_from, lemma_find_at, lemma_find_found, occurs_at, string_of,
    upper_ascii, upper_chars,
};
use vstd::prelude::*;

verus! {

pub open spec fn open_tag(tag: Seq<char>) -> Seq<char> {
    seq!['<'] + upper_ascii(tag) + seq!['>']
}

pub open spec fn close_tag(tag: Seq<char>) -> Seq<char> {
    seq!['<', '/'] + upper_ascii(tag) + seq!['>']
}

/// From where to where the value of a tag stands: between the first opening tag and the next closing
/// tag.
pub open spec fn tag_range(record: Seq<char>, tag: Seq<char>) -> Option<(int, int)> {
    let upper = upper_ascii(record);
    let opening = open_tag(tag);
    match find_from(upper, opening, 0) {
        Some(i) => match find_from(upper, close_tag(tag), i + opening.len()) {
            Some(j) => Some((i + opening.len(), j)),
            None => None,
        },
        None => None,
    }
}

/// What stands between the tags.
pub open spec fn tag_value(record: Seq<char>, tag: Seq<char>) -> Option<Seq<char>> {
    match tag_range(record, tag) {
        Some((from, to)) => Some(record.subrange(from, to)),
        None => None,
    }
}

fn tag_chars(tag: &str, closing: bool) -> (r: Vec<char>)
    ensures
        r@ == if closing {
            close_tag(tag@)
        } else {
            open_tag(tag@)
        },
{
    let mut r: Vec<char> = Vec::new();
    r.push('<');
    if closing {
        r.push('/');
    }
    let mut name = upper_chars(tag);
    r.append(&mut name);
    r.push('>');
    proof {
        if closing {
            assert(r@ =~= close_tag(tag@));
        } else {
            assert(r@ =~= open_tag(tag@));
        }
    }
    r
}

/// The value of a tag: `W1AW` for `CALL` in `<CALL>W1AW</CALL><BAND>20</BAND>`.
pub fn parse_xml_tag(record: &str, tag: &str) -> (r: Option<String>)
    ensures
        crate::spot::opt_text(r) == tag_value(record@, tag@),
{
    let upper = upper_chars(record);
    let opening = tag_chars(tag, false);
    let closing = tag_chars(tag, true);
    proof {
        lemma_find_found(upper@, opening@, 0);
    }
    match find_chars(&upper, &opening, 0) {
        Some(i) => {
            let total: usize = upper.len();
            assert(i + opening@.len() <= total);
            let from: usize = i + opening.len();
            proof {
                lemma_find_found(upper@, closing@, from as int);
            }
            match find_chars(&upper, &closing, from) {
                Some(j) => {
                    let v = chars_of(record);
                    Some(string_of(&v, from, j))
                },
                None => None,
            }
        },
        None => None,
    }
}

/// What was written between a tag and its closing is read back, whatever follows: as long as the
/// opening tag does not stand there earlier, nor the closing tag within what was written.
pub proof fn law_tag_read_back(before: Seq<char>, tag: Seq<char>, value: Seq<char>, after: Seq<char>)
    requires
        !contains(upper_ascii(before + seq!['<'] + tag), open_tag(tag)),
        !contains(upper_ascii(value + seq!['<', '/'] + tag), close_tag(tag)),
    ensures
        tag_value(
            before + seq!['<'] + tag + seq!['>'] + value + seq!['<', '/'] + tag + seq!['>'] + after,
            tag,
        ) == Some(value),
{
    let record = before + seq!['<'] + tag + seq!['>'] + value + seq!['<', '/'] + tag + seq!['>'] + after;
    let upper = upper_ascii(record);
    let opening = open_tag(tag);
    let closing = close_tag(tag);
    let i = before.len() as int;
    let from = i + opening.len();
    let to = from + value.len();
    assert(upper.subrange(i, i + opening.len()) =~= opening);
    assert(upper.subrange(to, to + closing.len()) =~= closing);
    let first = upper_ascii(before + seq!['<'] + tag);
    assert(upper.take(first.len() as int) =~= first);
    assert forall|j: int| 0 <= j < i implies !occurs_at(upper, opening, j) by {
        if occurs_at(upper, opening, j) {
            assert(first.subrange(j, j + opening.len()) =~= upper.subrange(j, j + opening.len()));
            assert(occurs_at(first, opening, j));
        }
    }
    lemma_find_at(upper, opening, 0, i);
    let second = upper_ascii(value + seq!['<', '/'] + tag);
    assert(upper.subrange(from, from + second.len()) =~= second);
    assert forall|j: int| from <= j < to implies !occurs_at(upper, closing, j) by {
        if occurs_at(upper, closing, j) {
            assert(second.subrange(j - from, j - from + closing.len()) =~= upper.subrange(j, j + closing.len()));
            assert(occurs_at(second, closing, j - from));
        }
    }
    lemma_find_at(upper, closing, from, to);
    assert(record.subrange(from, to) =~= value);
}

} // verus!
