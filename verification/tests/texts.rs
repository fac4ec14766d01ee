use basecamp::keyset::KeySet;
use basecamp::text::{
    find_either, has_text, joined, less, same_text, space, split_at_char, split_words, stripped_end,
    text_before, trimmed, upper_text,
};

#[test]
fn white_space_is_that_of_unicode() {
    for n in 0..=0x10FFFFu32 {
        if let Some(c) = char::from_u32(n) {
            assert_eq!(space(c), c.is_whitespace(), "{:x}", n);
        }
    }
}

#[test]
fn ends_are_trimmed() {
    for s in ["", " ", "  a b\t", "\u{3000}x\u{a0}", "x", "\r\n x \n"] {
        assert_eq!(trimmed(s), s.trim());
    }
    assert_eq!(stripped_end("70cm", 'm'), "70c");
    assert_eq!(stripped_end("mmm", 'm'), "");
    assert_eq!(stripped_end("20m", 'm'), "20");
    assert_eq!(stripped_end("??", 'm'), "??");
}

#[test]
fn texts_are_found_in_texts() {
    for (h, n) in [("abc", "bc"), ("abc", ""), ("", ""), ("", "a"), ("aab", "ab"), ("aaa", "aaaa"), ("äöü", "ö")] {
        assert_eq!(has_text(h, n), h.contains(n));
    }
    let v: Vec<char> = "a:b:c".chars().collect();
    assert_eq!(find_either(&v, 0, 5, ':', ':'), 1);
    assert_eq!(find_either(&v, 2, 5, ':', ':'), 3);
    assert_eq!(find_either(&v, 4, 5, ':', ':'), 5);
    assert_eq!(text_before("US-FL", '-'), "US");
    assert_eq!(text_before("US", '-'), "US");
}

#[test]
fn words_and_pieces_are_split() {
    for s in ["", "  ", "a", " a  b\tc ", "a\u{2003}b"] {
        let ours = split_words(s);
        let theirs: Vec<String> = s.split_whitespace().map(|w| w.to_string()).collect();
        assert_eq!(ours, theirs);
        assert_eq!(joined(&ours), theirs.join(" "));
    }
    for s in ["", "\n", "a\nb", "a\n\nb\n", "abc"] {
        let theirs: Vec<String> = s.split('\n').map(|w| w.to_string()).collect();
        assert_eq!(split_at_char(s, '\n'), theirs);
    }
}

#[test]
fn joined_words_are_those_words() {
    let parts: Vec<String> = ["CW", "15", "dB"].iter().map(|s| s.to_string()).collect();
    assert_eq!(split_words(&joined(&parts)), parts);
}

#[test]
fn texts_are_ordered_as_strings_are() {
    let all = ["", "a", "A", "aa", "ab", "b", "é", "€", "\u{10000}", "\u{ffff}", "10m", "2m", "K4A", "K4AB"];
    for a in all {
        for b in all {
            assert_eq!(less(a, b), a < b, "{:?} {:?}", a, b);
        }
    }
}

#[test]
fn a_set_holds_each_text_once() {
    let mut s = KeySet::new();
    assert!(s.is_empty());
    assert!(s.insert("20m".to_string()));
    assert!(!s.insert("20m".to_string()));
    assert!(s.insert("40m".to_string()));
    assert_eq!(s.len(), 2);
    assert!(s.contains("40m"));
    let copy = s.clone();
    s.remove("20m");
    s.remove("80m");
    assert!(!s.contains("20m"));
    assert_eq!(s.len(), 1);
    assert!(copy.contains("20m"));
    s.set_only("6m");
    assert!(s.contains("6m") && !s.contains("40m"));
    s.clear();
    assert!(s.is_empty());
}

#[test]
fn toggling_twice_changes_nothing() {
    let mut s = KeySet::new();
    s.insert("W1AW-K-0001".to_string());
    assert!(s.toggle("K5ABC-K-0045"));
    assert!(!s.toggle("K5ABC-K-0045"));
    assert!(!s.toggle("W1AW-K-0001"));
    assert!(s.toggle("W1AW-K-0001"));
    assert!(s.contains("W1AW-K-0001"));
    assert_eq!(s.len(), 1);
}

#[test]
fn texts_are_put_in_uppercase() {
    assert_eq!(upper_text("w1aw/p-7 [x]"), "W1AW/P-7 [X]");
    assert_eq!(upper_text("straße"), "STRASSE");
    assert_eq!(upper_text(""), "");
}

#[test]
fn equal_texts_are_the_same() {
    let texts = ["", "a", "A", "ab", "é", "e\u{301}"];
    for a in texts {
        for b in texts {
            assert_eq!(same_text(a, b), a == b);
        }
    }
}
