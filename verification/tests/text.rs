use words::distance::char_distance;
use words::text::{chars_of, join_words, push_range, same_chars, split_words};

fn strings(words: &[&str]) -> Vec<String> {
    words.iter().map(|w| w.to_string()).collect()
}

#[test]
fn chars_of_counts_characters_not_bytes() {
    assert_eq!(chars_of("a\u{f1}o"), vec!['a', '\u{f1}', 'o']);
    assert_eq!(chars_of(""), Vec::<char>::new());
}

#[test]
fn push_range_appends_a_part() {
    let v = chars_of("remember");
    let mut s = "x".to_string();
    push_range(&mut s, &v, 2, 5);
    assert_eq!(s, "xmem");
    push_range(&mut s, &v, 3, 3);
    assert_eq!(s, "xmem");
    push_range(&mut s, &v, 0, 8);
    assert_eq!(s, "xmemremember");
}

#[test]
fn same_chars_compares_texts() {
    assert!(same_chars(&chars_of("cat"), &chars_of("cat")));
    assert!(!same_chars(&chars_of("cat"), &chars_of("cab")));
    assert!(!same_chars(&chars_of("cat"), &chars_of("cats")));
    assert!(same_chars(&chars_of(""), &chars_of("")));
}

#[test]
fn split_words_drops_every_space() {
    assert_eq!(split_words(&chars_of("tree house")), strings(&["tree", "house"]));
    assert_eq!(split_words(&chars_of("  tree \t\n house ")), strings(&["tree", "house"]));
    assert_eq!(split_words(&chars_of("a\u{a0}b\u{3000}c")), strings(&["a", "b", "c"]));
    assert_eq!(split_words(&chars_of("treehouse")), strings(&["treehouse"]));
    assert_eq!(split_words(&chars_of("")), Vec::<String>::new());
    assert_eq!(split_words(&chars_of(" \t ")), Vec::<String>::new());
}

#[test]
fn split_words_agrees_with_split_whitespace() {
    for text in ["", " ", "a", " a", "a ", "a b", "a  b", " a\tb \u{2003}c\u{85}d  ", "\u{f1}u \u{e1}"] {
        let expected: Vec<String> = text.split_whitespace().map(|w| w.to_string()).collect();
        assert_eq!(split_words(&chars_of(text)), expected, "{:?}", text);
    }
}

#[test]
fn join_words_puts_one_space_between() {
    assert_eq!(join_words(&strings(&["tree", "house"])), "tree house");
    assert_eq!(join_words(&strings(&["a", "b", "c"])), "a b c");
    assert_eq!(join_words(&strings(&["treehouse"])), "treehouse");
    assert_eq!(join_words(&strings(&[])), "");
}

#[test]
fn joined_words_split_into_the_same_words() {
    let words = strings(&["re", "member", "\u{f1}u"]);
    assert_eq!(split_words(&chars_of(&join_words(&words))), words);
}

#[test]
fn char_distance_is_the_number_of_edits() {
    assert_eq!(char_distance("kitten", "sitting"), 3);
    assert_eq!(char_distance("", ""), 0);
    assert_eq!(char_distance("", "abc"), 3);
    assert_eq!(char_distance("abc", ""), 3);
    assert_eq!(char_distance("cat", "cat"), 0);
    assert_eq!(char_distance("cat", "bat"), 1);
    assert_eq!(char_distance("cat", "cats"), 1);
    assert_eq!(char_distance("cat", "at"), 1);
    assert_eq!(char_distance("ab", "ba"), 2);
    assert_eq!(char_distance("remember", "not"), 8);
    // characters, not bytes
    assert_eq!(char_distance("a\u{f1}o", "ano"), 1);
}

#[test]
fn char_distance_is_the_same_both_ways_and_consistent() {
    let words = ["", "cat", "bat", "bit", "treehouse", "tree house", "remember"];
    for a in words {
        for b in words {
            assert_eq!(char_distance(a, b), char_distance(b, a));
            for c in words {
                assert!(char_distance(a, c) <= char_distance(a, b) + char_distance(b, c));
            }
        }
    }
}
