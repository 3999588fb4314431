//! Dictionary oracles.

use vstd::prelude::*;
use vstd::hash_set::StringHashSet;
use vstd::string::StringExecFns;

verus! {

/// A dictionary oracle: it answers whether a token is a valid word, and gives
/// the same answer for the same token every time.
pub trait WordList: Sync {
    /// Whether the list holds `word`.
    spec fn has_word(&self, word: Seq<char>) -> bool;

    /// Whether `target` is a valid word.
    fn find_word(&self, target: &str) -> (found: bool)
        ensures
            found == self.has_word(target@),
    ;
}

/// What `str::to_lowercase` makes of a text.
pub uninterp spec fn lowercase(s: Seq<char>) -> Seq<char>;

/// `str::to_lowercase` gives the lowercase equivalent of a string slice as a
/// new string.
pub assume_specification[ str::to_lowercase ](s: &str) -> (lower: String)
    ensures
        lower@ == lowercase(s@),
;

/// Where the word list is looked for when no path to one is given.
pub const WORDS_PATH: &'static str = "./data/es_large";

/// A word list held in memory.
pub struct EnglishWordList {
    words: StringHashSet,
}

impl View for EnglishWordList {
    type V = Set<Seq<char>>;

    /// The words of the list.
    closed spec fn view(&self) -> Set<Seq<char>> {
        self.words@
    }
}

impl EnglishWordList {
    /// The list of the given lines, each in lower case. An empty line is the
    /// empty word.
    pub fn new(lines: Vec<String>) -> (list: EnglishWordList)
        ensures
            forall|w: Seq<char>|
                list@.contains(w) <==> exists|i: int|
                    0 <= i < lines.len() && w == lowercase(#[trigger] lines@[i]@),
    {
        let mut words = StringHashSet::new();
        let mut i: usize = 0;
        while i < lines.len()
            invariant
                i <= lines.len(),
                forall|w: Seq<char>|
                    words@.contains(w) <==> exists|j: int|
                        0 <= j < i && w == lowercase(#[trigger] lines@[j]@),
            decreases lines.len() - i,
        {
            words.insert(lines[i].as_str().to_lowercase());
            i += 1;
        }
        EnglishWordList { words }
    }
}

impl WordList for EnglishWordList {
    /// The list holds the words of its view.
    open spec fn has_word(&self, word: Seq<char>) -> bool {
        self@.contains(word)
    }

    /// Whether `target`, as it is written, is among the words.
    fn find_word(&self, target: &str) -> (found: bool) {
        self.words.contains(target)
    }
}

/// The command that lists the misspelled words among those it reads.
pub const ASPELL: &'static str = "aspell --lang=es list";

/// The command that writes `target` out for the spelling program to read.
pub open spec fn echo_of(target: Seq<char>) -> Seq<char> {
    "echo "@ + target
}

/// `run` can be asked about any pipeline of two commands, and whether what
/// it gives back is empty depends on the two commands alone.
pub open spec fn is_steady<R: Fn(&str, &str) -> String>(run: R) -> bool {
    &&& forall|first: &str, second: &str| call_requires(run, (first, second))
    &&& forall|f1: &str, s1: &str, o1: String, f2: &str, s2: &str, o2: String|
        f1@ == f2@ && s1@ == s2@ && #[trigger] call_ensures(run, (f1, s1), o1)
            && #[trigger] call_ensures(run, (f2, s2), o2) ==> (o1@.len() == 0) == (o2@.len()
            == 0)
}

/// The word list of an outside spelling program. The program runs as the
/// second stage of a pipeline, reads a token and writes out the words among
/// it that it takes to be misspelled: a token is a word where it writes
/// nothing. `run` runs the pipeline and gives back what it wrote.
pub struct EspanolPalabras<R: Fn(&str, &str) -> String + Sync> {
    run: R,
}

impl<R: Fn(&str, &str) -> String + Sync> EspanolPalabras<R> {
    /// The function that runs the pipeline answers steadily.
    #[verifier::type_invariant]
    spec fn steady(self) -> bool {
        is_steady(self.run)
    }

    /// The function that runs the pipeline.
    pub closed spec fn runner(&self) -> R {
        self.run
    }

    /// The word list that asks `run`, which is to answer the same question
    /// the same way every time.
    pub fn new(run: R) -> (list: Self)
        requires
            is_steady(run),
        ensures
            list.runner() == run,
    {
        EspanolPalabras { run }
    }

    /// The list holds a word where the pipeline that is run for it may write
    /// nothing. Through this a caller that knows what its function gives
    /// back learns what `find_word` answers.
    pub proof fn lemma_has_word(&self, word: Seq<char>)
        ensures
            self.has_word(word) <==> exists|first: &str, second: &str, output: String|
                first@ == echo_of(word) && second@ == ASPELL@ && #[trigger] call_ensures(
                    self.runner(),
                    (first, second),
                    output,
                ) && output@.len() == 0,
    {
    }
}

impl<R: Fn(&str, &str) -> String + Sync> WordList for EspanolPalabras<R> {
    /// Whether the pipeline that is run for `word` may write nothing:
    /// `lemma_has_word` says so to a caller.
    closed spec fn has_word(&self, word: Seq<char>) -> bool {
        exists|first: &str, second: &str, output: String|
            first@ == echo_of(word) && second@ == ASPELL@ && #[trigger] call_ensures(
                self.runner(),
                (first, second),
                output,
            ) && output@.len() == 0
    }

    /// Runs the pipeline for `target`, and answers whether it wrote nothing.
    fn find_word(&self, target: &str) -> (found: bool) {
        proof {
            use_type_invariant(self);
        }
        let mut first = String::from_str("echo ");
        first.append(target);
        let asked = first.as_str();
        let output = (self.run)(asked, ASPELL);
        assert(call_ensures(self.runner(), (asked, ASPELL), output));
        output.as_str().is_empty()
    }
}

} // verus!
