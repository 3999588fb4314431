use words::{EnglishWordList, EspanolPalabras, WordList, ASPELL, WORDS_PATH};

fn lines(words: &[&str]) -> Vec<String> {
    words.iter().map(|w| w.to_string()).collect()
}

fn only_hola(first: &str, second: &str) -> String {
    assert_eq!(second, "aspell --lang=es list");
    if first == "echo hola" {
        String::new()
    } else {
        format!("{}\n", &first["echo ".len()..])
    }
}

#[test]
fn finds_the_words_of_its_lines() {
    let list = EnglishWordList::new(lines(&["cat", "bat"]));
    assert!(list.find_word("cat"));
    assert!(list.find_word("bat"));
    assert!(!list.find_word("ca"));
    assert!(!list.find_word("cat "));
    assert!(!list.find_word(""));
}

#[test]
fn holds_its_lines_in_lower_case() {
    let list = EnglishWordList::new(lines(&["Cat", "BAT", "\u{d1}U"]));
    assert!(list.find_word("cat"));
    assert!(list.find_word("bat"));
    assert!(list.find_word("\u{f1}u"));
    assert!(!list.find_word("Cat"));
    assert!(!list.find_word("BAT"));
}

#[test]
fn an_empty_line_is_the_empty_word() {
    let list = EnglishWordList::new(lines(&["cat", "", "bat"]));
    assert!(list.find_word(""));
    let none = EnglishWordList::new(lines(&[]));
    assert!(!none.find_word(""));
    assert!(!none.find_word("cat"));
}

#[test]
fn a_word_twice_is_a_word() {
    let list = EnglishWordList::new(lines(&["cat", "cat", "Cat"]));
    assert!(list.find_word("cat"));
}

#[test]
fn the_speller_accepts_what_it_says_nothing_of() {
    let list = EspanolPalabras::new(only_hola);
    assert!(list.find_word("hola"));
    assert!(!list.find_word("holaa"));
    assert!(!list.find_word(""));
    assert!(list.find_word("hola"));
}

#[test]
fn the_speller_is_asked_in_spanish() {
    assert_eq!(ASPELL, "aspell --lang=es list");
    assert_eq!(WORDS_PATH, "./data/es_large");
}
