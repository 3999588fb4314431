use words::{EnglishWordList, EspanolPalabras, WordSearch, ALPHABET};

fn list_of(words: &[&str]) -> EnglishWordList {
    EnglishWordList::new(words.iter().map(|w| w.to_string()).collect())
}

fn has(list: &[String], word: &str) -> bool {
    list.iter().any(|a| a == word)
}

#[test]
fn test_insert_if_new() {
    let dictionary = list_of(&["tree", "house"]);
    let words = WordSearch::new(String::new(), String::new(), &dictionary);
    let mut out = Vec::<String>::new();
    let w = "tree house".to_owned();
    words.insert_if_new(&mut out, w, &"treehouse".to_owned());
    println!("{:?}", &out);
    assert!(out.iter().find(|a| *a == &"tree house".to_owned()).is_some());
}

#[test]
fn test_adjacent_words() {
    let dictionary = list_of(&["rata", "ratwa", "rat"]);
    let words = WordSearch::new(String::new(), String::new(), &dictionary);
    let w = "rata";
    let adjacent = words.adjacent_words(&w.to_owned(), 1);
    println!("{:?}", adjacent);
    // Ensure insertion works
    assert!(adjacent.iter().find(|a| *a == &"ratwa".to_owned()).is_some());
    // Ensure deletion works
    assert!(adjacent.iter().find(|a| *a == &"rat".to_owned()).is_some());
}

#[test]
fn test_inserts_space() {
    let dictionary = list_of(&["tree", "house"]);
    let words = WordSearch::new(String::new(), String::new(), &dictionary);
    let w = "treehouse";
    let adjacent = words.adjacent_words(&w.to_owned(), 1);
    println!("{:?}", adjacent);
    // Ensure insertion works
    assert!(adjacent.iter().find(|a| *a == &"tree house".to_owned()).is_some());
}

#[test]
fn test_deletes_space() {
    let dictionary = list_of(&["remember", "re", "member"]);
    let words = WordSearch::new(String::new(), String::new(), &dictionary);
    let w = "re member";
    let adjacent = words.adjacent_words(&w.to_owned(), 1);
    println!("{:?}", adjacent);
    // Ensure deletion works
    assert!(adjacent.iter().find(|a| *a == &"remember".to_owned()).is_some());
}

#[test]
fn neighbours_are_the_same_for_any_number_of_workers() {
    let dictionary = list_of(&["cat", "bat", "cot", "cast", "at", "act", "ca", "t", "c"]);
    let words = WordSearch::new(String::new(), String::new(), &dictionary);
    let mut expected = vec!["bat", "cot", "cast", "at", "act", "ca", "ca t", "c at", "c t"];
    expected.sort();
    for threads in [0usize, 1, 2, 3, 4, 8, 100] {
        let mut adjacent = words.adjacent_words("cat", threads);
        adjacent.sort();
        assert_eq!(adjacent, expected, "with {} workers", threads);
    }
}

#[test]
fn no_neighbour_twice() {
    let dictionary = list_of(&["a", "aa", "aaa"]);
    let words = WordSearch::new(String::new(), String::new(), &dictionary);
    let mut adjacent = words.adjacent_words("aa", 2);
    adjacent.sort();
    assert_eq!(adjacent, vec!["a", "a a", "aaa"]);
    assert!(!has(&adjacent, "aa"));
}

#[test]
fn splits_a_word_in_two() {
    let dictionary = list_of(&["tree", "house"]);
    let words = WordSearch::new(String::new(), String::new(), &dictionary);
    let adjacent = words.adjacent_words("treehouse", 4);
    assert_eq!(adjacent, vec!["tree house"]);
}

#[test]
fn joins_two_words() {
    let dictionary = list_of(&["remember"]);
    let words = WordSearch::new(String::new(), String::new(), &dictionary);
    let adjacent = words.adjacent_words("re member", 4);
    assert_eq!(adjacent, vec!["remember"]);
}

#[test]
fn every_kind_of_edit() {
    let dictionary = list_of(&["scat", "at", "act", "cot", "cart"]);
    let words = WordSearch::new(String::new(), String::new(), &dictionary);
    let mut adjacent = words.adjacent_words("cat", 2);
    adjacent.sort();
    // a letter before, a removal, an exchange, a replacement, an insertion
    assert_eq!(adjacent, vec!["act", "at", "cart", "cot", "scat"]);
}

#[test]
fn exchange_is_with_the_character_before() {
    let dictionary = list_of(&["ba", "ab"]);
    let words = WordSearch::new(String::new(), String::new(), &dictionary);
    assert_eq!(words.adjacent_words("ab", 1), vec!["ba"]);
    assert_eq!(words.adjacent_words("ba", 1), vec!["ab"]);
}

#[test]
fn the_target_is_no_neighbour_of_itself() {
    // A space before or behind the word gives the word back once it is
    // normalized, and a letter replaced by itself gives the word as it is.
    let dictionary = list_of(&["cat"]);
    let words = WordSearch::new(String::new(), String::new(), &dictionary);
    assert!(words.adjacent_words("cat", 3).is_empty());
}

#[test]
fn the_empty_target_has_only_the_first_phase() {
    let dictionary = list_of(&["a", "o", "y", "no"]);
    let words = WordSearch::new(String::new(), String::new(), &dictionary);
    for threads in [0usize, 1, 4] {
        let mut adjacent = words.adjacent_words("", threads);
        adjacent.sort();
        assert_eq!(adjacent, vec!["a", "o", "y"]);
    }
}

#[test]
fn letters_outside_ascii_are_single_positions() {
    let dictionary = list_of(&["a\u{f1}o", "ano", "a\u{f1}os", "ao"]);
    let words = WordSearch::new(String::new(), String::new(), &dictionary);
    let mut adjacent = words.adjacent_words("a\u{f1}o", 2);
    adjacent.sort();
    assert_eq!(adjacent, vec!["ano", "ao", "a\u{f1}os"]);
    let mut back = words.adjacent_words("ano", 2);
    back.sort();
    assert_eq!(back, vec!["ao", "a\u{f1}o"]);
}

#[test]
fn neighbours_twice_are_the_same_set() {
    let dictionary = list_of(&["cat", "bat", "cot", "cast", "at", "act", "ca", "t", "c"]);
    let words = WordSearch::new(String::new(), String::new(), &dictionary);
    let mut once = words.adjacent_words("cat", 4);
    let mut again = words.adjacent_words("cat", 4);
    once.sort();
    again.sort();
    assert_eq!(once, again);
}

#[test]
fn neighbours_differ_from_the_target_and_hold_only_words() {
    let known = ["cat", "bat", "cot", "cast", "at", "act", "ca", "t", "c", "a"];
    let dictionary = list_of(&known);
    let words = WordSearch::new(String::new(), String::new(), &dictionary);
    for target in ["cat", "c at", "at", "a", " cat ", "zz"] {
        for neighbour in words.adjacent_words(target, 2) {
            assert_ne!(neighbour, target);
            for part in neighbour.split_whitespace() {
                assert!(known.contains(&part), "{:?} of {:?}", part, target);
            }
        }
    }
}

#[test]
fn no_words_no_neighbours() {
    let empty = list_of(&[]);
    let words = WordSearch::new(String::new(), String::new(), &empty);
    for target in ["", "a", " ", "  ", "a ", "cat", "tree house", "ab", "a b"] {
        for threads in [1usize, 2] {
            assert!(words.adjacent_words(target, threads).is_empty(), "{:?}", target);
        }
    }
    let deaf = EspanolPalabras::new(|_first: &str, _second: &str| "x".to_string());
    let asked = WordSearch::new("a".to_owned(), "b".to_owned(), &deaf);
    for target in ["", "a", " ", "cat", "tree house"] {
        assert!(asked.adjacent_words(target, 2).is_empty(), "{:?}", target);
        assert!(asked.neighbors(&target.to_owned()).is_empty(), "{:?}", target);
    }
}

#[test]
fn a_neighbour_has_a_word() {
    // Removing the only letter, or writing a space in its place, leaves
    // nothing that could be a word, whether or not the list holds the empty
    // word.
    let with_empty = list_of(&["", "a", "b"]);
    let words = WordSearch::new(String::new(), String::new(), &with_empty);
    assert_eq!(words.adjacent_words("a", 1), vec!["b"]);
    let mut of_space = words.adjacent_words(" ", 1);
    of_space.sort();
    assert_eq!(of_space, vec!["a", "b"]);
    let mut of_empty = words.adjacent_words("", 1);
    of_empty.sort();
    assert_eq!(of_empty, vec!["a", "b"]);
    let without = list_of(&["cat"]);
    let words = WordSearch::new(String::new(), String::new(), &without);
    assert!(words.adjacent_words("a", 1).is_empty());
    assert!(words.adjacent_words("c", 1).is_empty());
}

#[test]
fn insert_if_new_normalizes_and_filters() {
    let dictionary = list_of(&["tree", "house"]);
    let words = WordSearch::new(String::new(), String::new(), &dictionary);
    let mut out = Vec::<String>::new();
    words.insert_if_new(&mut out, "  tree \t house ".to_owned(), "treehouse");
    assert_eq!(out, vec!["tree house"]);
    // the candidate is the target
    words.insert_if_new(&mut out, "tree".to_owned(), "tree");
    // the candidate is the target once normalized
    words.insert_if_new(&mut out, " tree".to_owned(), "tree");
    // a part is no word
    words.insert_if_new(&mut out, "tree mouse".to_owned(), "tree house");
    // the candidate has no word
    words.insert_if_new(&mut out, String::new(), "a");
    words.insert_if_new(&mut out, " \t ".to_owned(), "a");
    assert_eq!(out, vec!["tree house"]);
    words.insert_if_new(&mut out, "house".to_owned(), "mouse");
    assert_eq!(out, vec!["tree house", "house"]);
}

#[test]
fn insert_if_new_and_clear_empties_the_word() {
    let dictionary = list_of(&["tree"]);
    let words = WordSearch::new(String::new(), String::new(), &dictionary);
    let mut out = Vec::<String>::new();
    let mut word = "tree".to_owned();
    words.insert_if_new_and_clear(&mut out, &mut word, "free");
    assert_eq!(out, vec!["tree"]);
    assert_eq!(word, "");
    let mut word = "three".to_owned();
    words.insert_if_new_and_clear(&mut out, &mut word, "tree");
    assert_eq!(out, vec!["tree"]);
    assert_eq!(word, "");
}

#[test]
fn the_alphabet_ends_in_the_space() {
    assert_eq!(ALPHABET.chars().count(), 37);
    assert_eq!(ALPHABET.chars().last(), Some(' '));
}

#[test]
fn search_knows_its_ends() {
    let dictionary = list_of(&["cat"]);
    let search = WordSearch::new("cat".to_owned(), "dog".to_owned(), &dictionary);
    assert_eq!(search.start(), "cat");
    assert!(search.is_end(&"dog".to_owned()));
    assert!(!search.is_end(&"cat".to_owned()));
    let same = WordSearch::new("cat".to_owned(), "cat".to_owned(), &dictionary);
    assert!(same.is_end(&same.start()));
}

#[test]
fn edges_cost_one() {
    let dictionary = list_of(&["cat", "bat", "cot"]);
    let search = WordSearch::new("cat".to_owned(), "dog".to_owned(), &dictionary);
    let mut edges = search.neighbors(&"cat".to_owned());
    edges.sort();
    assert_eq!(edges, vec![("bat".to_owned(), 1), ("cot".to_owned(), 1)]);
}

#[test]
fn heuristic_counts_edits_to_the_end() {
    let dictionary = list_of(&[]);
    let search = WordSearch::new("kitten".to_owned(), "sitting".to_owned(), &dictionary);
    assert_eq!(search.heuristic(&"kitten".to_owned()), 3);
    assert_eq!(search.heuristic(&"sitting".to_owned()), 0);
    assert_eq!(search.heuristic(&"".to_owned()), 7);
    assert_eq!(search.heuristic(&"sittin".to_owned()), 1);
    // an exchange of neighbours counts as two replacements
    assert_eq!(search.heuristic(&"sittign".to_owned()), 2);
}

#[test]
fn another_alphabet_writes_other_letters() {
    let dictionary = list_of(&["cot", "bat", "at", "coat", "cat o"]);
    let search = WordSearch::new(String::new(), String::new(), &dictionary).with_alphabet("o");
    let mut adjacent = search.adjacent_words("cat", 2);
    adjacent.sort();
    assert_eq!(adjacent, vec!["at", "coat", "cot"]);
    let spaced = WordSearch::new(String::new(), String::new(), &dictionary).with_alphabet("");
    assert_eq!(spaced.adjacent_words("cat", 2), vec!["at"]);
}

#[test]
fn edges_are_the_same_on_any_number_of_workers() {
    let dictionary = list_of(&["cat", "bat", "cot", "at", "act"]);
    let mut expected = vec![
        ("act".to_owned(), 1),
        ("at".to_owned(), 1),
        ("bat".to_owned(), 1),
        ("cot".to_owned(), 1),
    ];
    expected.sort();
    for workers in [0usize, 1, 2, 9] {
        let search = WordSearch::new("cat".to_owned(), "dog".to_owned(), &dictionary)
            .with_workers(workers);
        let mut edges = search.neighbors(&"cat".to_owned());
        edges.sort();
        assert_eq!(edges, expected);
        assert_eq!(search.start(), "cat");
        assert!(search.is_end(&"dog".to_owned()));
    }
}

#[test]
fn neighbours_are_normalized() {
    let dictionary = list_of(&["a", "b", "ab", "c"]);
    let words = WordSearch::new(String::new(), String::new(), &dictionary);
    for target in ["ab", "a b", " a  b ", "a\tb", "abc"] {
        let adjacent = words.adjacent_words(target, 2);
        assert!(!adjacent.is_empty(), "{:?}", target);
        for neighbour in adjacent {
            let parts: Vec<&str> = neighbour.split_whitespace().collect();
            assert_eq!(neighbour, parts.join(" "), "of {:?}", target);
        }
    }
}
