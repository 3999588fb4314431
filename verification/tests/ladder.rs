use std::collections::VecDeque;
use std::vec::IntoIter;

use astar::SearchProblem;
use words::distance::char_distance;
use words::{EnglishWordList, EspanolPalabras, WordList, WordSearch};

struct Ladder<'a, WL: WordList>(WordSearch<'a, WL>);

impl<'a, WL: WordList> SearchProblem for Ladder<'a, WL> {
    type Node = String;
    type Cost = i32;
    type Iter = IntoIter<(String, i32)>;

    fn start(&self) -> String {
        self.0.start()
    }

    fn is_end(&self, node: &String) -> bool {
        self.0.is_end(node)
    }

    fn heuristic(&self, node: &String) -> i32 {
        self.0.heuristic(node)
    }

    fn neighbors(&mut self, node: &String) -> IntoIter<(String, i32)> {
        self.0.neighbors(node).into_iter()
    }
}

fn list_of(words: &[&str]) -> EnglishWordList {
    EnglishWordList::new(words.iter().map(|w| w.to_string()).collect())
}

fn solve<WL: WordList>(start: &str, end: &str, words: &WL) -> Option<VecDeque<String>> {
    let mut search = Ladder(WordSearch::new(start.to_owned(), end.to_owned(), words));
    astar::astar(&mut search)
}

fn nothing_is_a_word(_first: &str, _second: &str) -> String {
    "misspelled\n".to_string()
}

#[test]
fn test_path() {
    let inner_path = vec!["we", "not"];

    let words = list_of(&["we", "wet", "net", "not"]);

    for a in inner_path.windows(2) {
        let mut search = Ladder(WordSearch::new(a[0].to_owned(), a[1].to_owned(), &words));
        let path = astar::astar(&mut search).unwrap();
        println!("{}", a[0]);
        for word in path {
            println!("{}", word)
        }
    }
}

#[test]
fn test_mult_words() {
    let start = "remember";
    let end = "not";
    let words = list_of(&[
        "remember", "re", "member", "e", "nember", "nomber", "nomer", "noter", "note", "not",
    ]);
    let mut search = Ladder(WordSearch::new(start.to_owned(), end.to_owned(), &words));
    match astar::astar(&mut search) {
        Some(path) => {
            for word in &path {
                println!("{}", word);
            }
            assert_eq!(path.len(), 10);
        }
        None => {
            panic!("Could not resolve path");
        }
    }
}

#[test]
fn ladder_from_cat_to_bit() {
    let words = list_of(&["cat", "bat", "bad", "bed", "bid", "bit"]);
    let path = solve("cat", "bit", &words).expect("a ladder joins the two");
    let path: Vec<String> = path.into_iter().collect();
    assert_eq!(path.first().map(|w| w.as_str()), Some("cat"));
    assert_eq!(path.last().map(|w| w.as_str()), Some("bit"));
    for step in path.windows(2) {
        assert_eq!(char_distance(&step[0], &step[1]), 1);
        assert!(words.find_word(&step[1]));
    }
    // `bit` is two edits away from `cat`, and `bat` is one replacement away
    // from each of them: no ladder is shorter.
    assert_eq!(path, vec!["cat", "bat", "bit"]);
}

#[test]
fn ladder_the_long_way_round() {
    let words = list_of(&["cat", "cot", "cog", "dog", "bat"]);
    let path = solve("cat", "dog", &words).expect("a ladder joins the two");
    let path: Vec<String> = path.into_iter().collect();
    assert_eq!(path, vec!["cat", "cot", "cog", "dog"]);
}

#[test]
fn ladder_through_a_split() {
    let words = list_of(&["treehouse", "tree", "house", "mouse"]);
    let path = solve("treehouse", "tree mouse", &words).expect("a ladder joins the two");
    let path: Vec<String> = path.into_iter().collect();
    assert_eq!(path, vec!["treehouse", "tree house", "tree mouse"]);
}

#[test]
fn a_word_reaches_itself() {
    let words = list_of(&["cat", "bat"]);
    for word in ["cat", "zzz", "", "two words"] {
        let path = solve(word, word, &words).expect("a word reaches itself");
        assert_eq!(path.len(), 1);
        assert_eq!(path[0], word);
    }
}

#[test]
fn no_ladder_between_unknown_words() {
    let words = list_of(&["cat", "bat", "bad", "bed", "bid", "bit"]);
    assert!(solve("zzz", "www", &words).is_none());
}

#[test]
fn no_ladder_out_of_reach() {
    let words = list_of(&["cat", "bat", "dog", "dig"]);
    assert!(solve("cat", "dog", &words).is_none());
}

#[test]
fn no_ladder_without_words() {
    let empty = list_of(&[]);
    let deaf = EspanolPalabras::new(nothing_is_a_word);
    let ends = [
        ("cat", "bat"),
        ("", "a"),
        ("a", ""),
        ("a", "b"),
        (" ", ""),
        ("treehouse", "tree house"),
    ];
    for (start, end) in ends {
        assert!(solve(start, end, &empty).is_none(), "{:?} to {:?}", start, end);
        assert!(solve(start, end, &deaf).is_none(), "{:?} to {:?}", start, end);
    }
}

#[test]
fn the_estimate_is_no_more_than_what_is_left() {
    let words = list_of(&["cat", "cot", "cog", "dog", "bat", "at", "a", "do"]);
    for (start, end) in [("cat", "dog"), ("bat", "cog"), ("a", "dog"), ("at", "do")] {
        let search = WordSearch::new(start.to_owned(), end.to_owned(), &words);
        let path = solve(start, end, &words).expect("a ladder joins the two");
        let steps = path.len() - 1;
        for (done, node) in path.iter().enumerate() {
            assert!(search.heuristic(node) as usize <= steps - done, "{} of {:?}", node, path);
        }
    }
}

#[test]
fn ends_of_a_search_in_other_alphabets() {
    let words = list_of(&["cat", "cot", "cut"]);
    let narrow = Ladder(
        WordSearch::new("cat".to_owned(), "cut".to_owned(), &words).with_alphabet("ou"),
    );
    assert_eq!(narrow.start(), "cat");
    assert!(narrow.is_end(&"cut".to_owned()));
    let mut narrow = narrow;
    let path: Vec<String> = astar::astar(&mut narrow).expect("one replacement").into_iter().collect();
    assert_eq!(path, vec!["cat", "cut"]);
    let mut none = Ladder(
        WordSearch::new("cat".to_owned(), "cut".to_owned(), &words).with_alphabet("xyz"),
    );
    assert!(astar::astar(&mut none).is_none());
}
