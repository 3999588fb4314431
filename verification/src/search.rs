//! The search problem of a word ladder: its nodes are tokens, and the
//! neighbours of a token are the valid tokens one edit away from it.

use vstd::prelude::*;
use crate::distance::{char_distance, distance};
use crate::edits::{
    candidates, delete, edits_at, edits_between, insertions, is_candidate,
    lemma_candidates_contains, lemma_edits_between_split, prepends, substitutions, swap, swaps,
};
use crate::shards::{is_plan, plan_shards, Shard};
use crate::text::{
    chars_of, distinct, join_words, lemma_normalize_keeps_tokens, lemma_texts_push, normalize,
    push_range, same_chars, split_words, texts, tokens,
};
use crate::word_list::WordList;

verus! {

/// The letters that an edit may write, the space among them: writing a space
/// splits a word in two.
pub const ALPHABET: &'static str = "aáàbcdeéèfghiíìjklmnñoópqrstuúùvwxyz ";

/// The distance as an estimate that fits the cost of a search: itself, or
/// the greatest cost where it is greater.
pub open spec fn estimate(d: nat) -> int {
    if d <= i32::MAX {
        d as int
    } else {
        i32::MAX as int
    }
}

/// The tokens that a list of edges leads to.
pub open spec fn edge_targets(edges: Seq<(String, i32)>) -> Seq<Seq<char>> {
    Seq::new(edges.len(), |j: int| edges[j].0@)
}

/// The number of workers on which `neighbors` runs the second phase unless
/// the search is told otherwise.
pub const WORKERS: usize = 4;

/// A start word, an end word, the word list that says which tokens are valid
/// on the way, the alphabet of the edits, and the number of workers that look
/// for the neighbours of a token.
pub struct WordSearch<'a, WL: WordList> {
    start: String,
    end: String,
    words: &'a WL,
    alphabet: Vec<char>,
    workers: usize,
}

impl<'a, WL: WordList> WordSearch<'a, WL> {
    /// The word that the search starts from.
    pub closed spec fn start_view(&self) -> Seq<char> {
        self.start@
    }

    /// The word that the search is to reach.
    pub closed spec fn end_view(&self) -> Seq<char> {
        self.end@
    }

    /// The letters that an edit may write.
    pub closed spec fn alphabet(&self) -> Seq<char> {
        self.alphabet@
    }

    /// The number of workers on which `neighbors` runs the second phase.
    pub closed spec fn workers(&self) -> usize {
        self.workers
    }

    /// Whether the word list of this search holds `word`.
    pub closed spec fn knows(&self, word: Seq<char>) -> bool {
        self.words.has_word(word)
    }

    /// Whether the candidate `cand` of `target` is kept: it differs from
    /// `target`, as written and once normalized, it has a word, and the word
    /// list holds each of its words.
    pub open spec fn admits(&self, cand: Seq<char>, target: Seq<char>) -> bool {
        &&& cand != target
        &&& normalize(cand) != target
        &&& tokens(cand).len() > 0
        &&& forall|k: int| 0 <= k < tokens(cand).len() ==> self.knows(#[trigger] tokens(cand)[k])
    }

    /// `n` is a neighbour of `target`: some candidate of `target` is kept,
    /// and `n` is that candidate, normalized.
    pub open spec fn is_neighbor(&self, target: Seq<char>, n: Seq<char>) -> bool {
        exists|c: Seq<char>|
            #[trigger] is_candidate(self.alphabet(), target, c) && self.admits(c, target) && n
                == normalize(c)
    }

    /// `list` holds the neighbours of `target`, each once, and nothing else.
    pub open spec fn is_neighbor_list(&self, target: Seq<char>, list: Seq<Seq<char>>) -> bool {
        &&& list.no_duplicates()
        &&& forall|n: Seq<char>| list.contains(n) <==> self.is_neighbor(target, n)
    }

    /// `path` is a ladder: each of its tokens is a neighbour of the token
    /// before it.
    pub open spec fn is_ladder(&self, path: Seq<Seq<char>>) -> bool {
        forall|i: int|
            0 <= i < path.len() - 1 ==> self.is_neighbor(#[trigger] path[i], path[i + 1])
    }

    /// `path` solves the search: it is a ladder that leads from the start
    /// word to the end word.
    pub open spec fn is_solution(&self, path: Seq<Seq<char>>) -> bool {
        &&& path.len() >= 1
        &&& path[0] == self.start_view()
        &&& path.last() == self.end_view()
        &&& self.is_ladder(path)
    }

    /// The search from `start` to `end` over `words`, with the alphabet
    /// `ALPHABET` and `WORKERS` workers.
    pub fn new(start: String, end: String, words: &'a WL) -> (search: Self)
        ensures
            search.start_view() == start@,
            search.end_view() == end@,
            search.alphabet() == ALPHABET@,
            search.workers() == WORKERS,
            forall|w: Seq<char>| search.knows(w) == words.has_word(w),
    {
        WordSearch { start, end, words, alphabet: chars_of(ALPHABET), workers: WORKERS }
    }

    /// The same search with the letters of `alphabet` for its edits.
    pub fn with_alphabet(self, alphabet: &str) -> (search: Self)
        ensures
            search.alphabet() == alphabet@,
            search.start_view() == self.start_view(),
            search.end_view() == self.end_view(),
            search.workers() == self.workers(),
            forall|w: Seq<char>| search.knows(w) == self.knows(w),
    {
        WordSearch {
            start: self.start,
            end: self.end,
            words: self.words,
            alphabet: chars_of(alphabet),
            workers: self.workers,
        }
    }

    /// The same search with `workers` workers for `neighbors`.
    pub fn with_workers(self, workers: usize) -> (search: Self)
        ensures
            search.workers() == workers,
            search.start_view() == self.start_view(),
            search.end_view() == self.end_view(),
            search.alphabet() == self.alphabet(),
            forall|w: Seq<char>| search.knows(w) == self.knows(w),
    {
        WordSearch {
            start: self.start,
            end: self.end,
            words: self.words,
            alphabet: self.alphabet,
            workers,
        }
    }

    /// The node that the search starts from.
    pub fn start(&self) -> (node: String)
        ensures
            node@ == self.start_view(),
    {
        self.start.clone()
    }

    /// Whether `node` is the goal of the search.
    pub fn is_end(&self, node: &String) -> (b: bool)
        ensures
            b == (node@ == self.end_view()),
    {
        self.end == *node
    }

    /// The estimate of what is left from `node` to the end: the least number
    /// of single-character edits between the two.
    pub fn heuristic(&self, node: &String) -> (h: i32)
        ensures
            h == estimate(distance(self.end_view(), node@)),
    {
        let d = char_distance(self.end.as_str(), node.as_str());
        if d > 0x7fff_ffff {
            0x7fff_ffff
        } else {
            d as i32
        }
    }

    /// The edges that leave `node`: one to each of its neighbours, each at
    /// the cost of one; none where the word list holds no word.
    pub fn neighbors(&self, node: &String) -> (edges: Vec<(String, i32)>)
        ensures
            self.is_neighbor_list(node@, edge_targets(edges@)),
            forall|j: int| 0 <= j < edges.len() ==> (#[trigger] edges@[j]).1 == 1,
            (forall|w: Seq<char>| !self.knows(w)) ==> edges.len() == 0,
    {
        let adj = self.adjacent_words(node.as_str(), self.workers);
        let mut edges: Vec<(String, i32)> = Vec::new();
        let mut k: usize = 0;
        while k < adj.len()
            invariant
                k <= adj.len(),
                edges.len() == k,
                forall|j: int| 0 <= j < k ==> (#[trigger] edges@[j]).0@ == adj@[j]@,
                forall|j: int| 0 <= j < k ==> (#[trigger] edges@[j]).1 == 1,
            decreases adj.len() - k,
        {
            edges.push((adj[k].clone(), 1i32));
            k += 1;
        }
        assert(edge_targets(edges@) =~= texts(adj@));
        edges
    }

    /// The neighbours of `target`: the valid tokens that one edit makes of
    /// it, each once, in no particular order. Each has a word, and the word
    /// list holds every word of it. The second phase runs on
    /// `threads` workers; none stands for one, and there are never more
    /// workers than positions.
    pub fn adjacent_words(&self, target: &str, threads: usize) -> (out: Vec<String>)
        ensures
            self.is_neighbor_list(target@, texts(out@)),
            forall|j: int|
                0 <= j < out.len() ==> (#[trigger] texts(out@)[j]) != target@ && tokens(
                    texts(out@)[j],
                ).len() > 0,
            forall|j: int, k: int|
                0 <= j < out.len() && 0 <= k < tokens(texts(out@)[j]).len() ==> self.knows(
                    #[trigger] tokens(texts(out@)[j])[k],
                ),
            (forall|w: Seq<char>| !self.knows(w)) ==> out.len() == 0,
    {
        let target_chars = chars_of(target);
        let n = target_chars.len();
        let ghost ab = self.alphabet();
        let mut found: Vec<String> = Vec::new();
        self.prepend_phase(&mut found, target, &target_chars);
        if n > 0 {
            self.positional_phase(&mut found, target, n, threads);
        } else {
            assert(self.harvest(prepends(ab, target@), target@) + self.harvest(
                edits_between(ab, target@, 0, 0),
                target@,
            ) =~= self.harvest(prepends(ab, target@), target@));
        }
        proof {
            self.lemma_harvest_concat(
                prepends(ab, target@),
                edits_between(ab, target@, 0, n as int),
                target@,
            );
        }
        let out = distinct(&found);
        proof {
            assert forall|m: Seq<char>| texts(out@).contains(m) <==> self.is_neighbor(
                target@,
                m,
            ) by {
                self.lemma_harvest_is_neighbors(target@, m);
            }
            assert forall|j: int| 0 <= j < out.len() implies (#[trigger] texts(out@)[j])
                != target@ && tokens(texts(out@)[j]).len() > 0 && forall|k: int|
                0 <= k < tokens(texts(out@)[j]).len() ==> self.knows(
                    #[trigger] tokens(texts(out@)[j])[k],
                ) by {
                assert(texts(out@).contains(texts(out@)[j]));
                self.lemma_neighbor_valid(target@, texts(out@)[j]);
            }
            if out.len() > 0 {
                assert(self.knows(tokens(texts(out@)[0])[0]));
            }
        }
        out
    }

    /// Adds `word` to `out`, normalized, if it is a valid neighbour of
    /// `target`.
    pub fn insert_if_new(&self, out: &mut Vec<String>, word: String, target: &str)
        ensures
            texts(final(out)@) == texts(old(out)@) + self.harvest_one(word@, target@),
    {
        let word_chars = chars_of(word.as_str());
        let target_chars = chars_of(target);
        if same_chars(&word_chars, &target_chars) {
            return ;
        }
        let all_words = split_words(&word_chars);
        if all_words.len() == 0 {
            return ;
        }
        let mut k: usize = 0;
        while k < all_words.len()
            invariant
                k <= all_words.len(),
                out@ == old(out)@,
                texts(all_words@) == tokens(word@),
                forall|j: int| 0 <= j < k ==> self.knows(#[trigger] tokens(word@)[j]),
            decreases all_words.len() - k,
        {
            if !self.words.find_word(all_words[k].as_str()) {
                assert(!self.knows(tokens(word@)[k as int]));
                return ;
            }
            k += 1;
        }
        let joined = join_words(&all_words);
        let joined_chars = chars_of(joined.as_str());
        if same_chars(&joined_chars, &target_chars) {
            return ;
        }
        proof {
            lemma_texts_push(out@, joined);
        }
        out.push(joined);
    }

    /// Adds `word` to `out` as `insert_if_new` does, and empties `word` for
    /// the next candidate.
    pub fn insert_if_new_and_clear(&self, out: &mut Vec<String>, word: &mut String, target: &str)
        ensures
            texts(final(out)@) == texts(old(out)@) + self.harvest_one(old(word)@, target@),
            final(word)@ == Seq::<char>::empty(),
    {
        self.insert_if_new(out, word.clone(), target);
        word.clear();
    }

    /// First phase: a letter of the alphabet written before the target.
    fn prepend_phase(&self, out: &mut Vec<String>, target: &str, target_chars: &Vec<char>)
        requires
            target_chars@ == target@,
        ensures
            texts(final(out)@) == texts(old(out)@) + self.harvest(
                prepends(self.alphabet(), target@),
                target@,
            ),
    {
        let ghost cands = prepends(self.alphabet(), target@);
        let mut insertion = String::new();
        let mut k: usize = 0;
        while k < self.alphabet.len()
            invariant
                k <= self.alphabet.len(),
                target_chars@ == target@,
                cands == prepends(self.alphabet(), target@),
                insertion@ == Seq::<char>::empty(),
                texts(out@) == texts(old(out)@) + self.harvest(cands.take(k as int), target@),
            decreases self.alphabet.len() - k,
        {
            insertion.push(self.alphabet[k]);
            push_range(&mut insertion, target_chars, 0, target_chars.len());
            proof {
                assert(insertion@ =~= cands[k as int]);
                assert(cands.take(k + 1) =~= cands.take(k as int).push(cands[k as int]));
                self.lemma_harvest_push(cands.take(k as int), cands[k as int], target@);
            }
            self.insert_if_new_and_clear(out, &mut insertion, target);
            k += 1;
        }
        assert(cands.take(self.alphabet.len() as int) =~= cands);
    }

    /// Second phase: the edits at every position of the target, the
    /// positions divided among the workers of a pool, and what the workers
    /// found put together in the order of the positions.
    fn positional_phase(&self, out: &mut Vec<String>, target: &str, n: usize, threads: usize)
        requires
            n == target@.len(),
            n >= 1,
        ensures
            texts(final(out)@) == texts(old(out)@) + self.harvest(
                edits_between(self.alphabet(), target@, 0, n as int),
                target@,
            ),
    {
        let workers = if threads == 0 {
            1
        } else if threads > n {
            n
        } else {
            threads
        };
        let ghost ab = self.alphabet();
        let ghost base = texts(out@);
        let mut shards = plan_shards(n, workers);
        let ghost plan = shards@;
        self.fill_on_pool(target, workers, &mut shards);
        let mut k: usize = 0;
        let mut done: Ghost<int> = Ghost(0);
        while k < shards.len()
            invariant
                k <= shards.len(),
                shards.len() == plan.len(),
                is_plan(plan, n as int),
                ab == self.alphabet(),
                0 <= done@ <= n,
                k < shards.len() ==> plan[k as int].lo == done@,
                k == shards.len() ==> done@ == n,
                forall|j: int|
                    k <= j < shards.len() ==> self.shard_filled(
                        target@,
                        plan[j],
                        #[trigger] shards@[j],
                    ),
                texts(out@) == base + self.harvest(edits_between(ab, target@, 0, done@), target@),
            decreases shards.len() - k,
        {
            let ghost lo = plan[k as int].lo as int;
            let ghost hi = plan[k as int].hi as int;
            let ghost part = self.harvest(edits_between(ab, target@, lo, hi), target@);
            let ghost before = out@;
            let mut found = Vec::new();
            std::mem::swap(&mut found, &mut shards[k].found);
            out.append(&mut found);
            proof {
                assert(texts(out@) =~= texts(before) + part);
                lemma_edits_between_split(ab, target@, 0, lo, hi);
                self.lemma_harvest_concat(
                    edits_between(ab, target@, 0, lo),
                    edits_between(ab, target@, lo, hi),
                    target@,
                );
                assert(texts(out@) =~= base + self.harvest(
                    edits_between(ab, target@, 0, hi),
                    target@,
                ));
                done@ = hi;
            }
            k += 1;
        }
    }

    /// `simple_parallel::Pool::new` starts `workers` worker threads, and
    /// `Pool::for_` executes its function once on each element that the
    /// iterator gives, on those threads, and returns when all are done; a
    /// pool without a worker would execute nothing. The function here is
    /// `fill_shard`, so each shard comes back filled.
    #[verifier::external_body]
    fn fill_on_pool(&self, target: &str, workers: usize, shards: &mut Vec<Shard>)
        requires
            workers >= 1,
            forall|k: int|
                0 <= k < old(shards).len() ==> (#[trigger] old(shards)@[k]).lo <= old(
                    shards,
                )@[k].hi <= target@.len(),
        ensures
            final(shards).len() == old(shards).len(),
            forall|k: int|
                0 <= k < old(shards).len() ==> self.shard_filled(
                    target@,
                    old(shards)@[k],
                    #[trigger] final(shards)@[k],
                ),
    {
        let mut pool = simple_parallel::Pool::new(workers);
        pool.for_(shards.iter_mut(), |shard| self.fill_shard(target, shard));
    }

    /// Second phase, for one shard: the edits at each of its positions.
    fn fill_shard(&self, target: &str, shard: &mut Shard)
        requires
            old(shard).lo <= old(shard).hi <= target@.len(),
        ensures
            self.shard_filled(target@, *old(shard), *final(shard)),
    {
        let target_chars = chars_of(target);
        let ghost ab = self.alphabet();
        let ghost base = texts(shard.found@);
        let mut i: usize = shard.lo;
        assert(base + self.harvest(edits_between(ab, target@, shard.lo as int, i as int), target@)
            =~= base);
        while i < shard.hi
            invariant
                shard.lo == old(shard).lo,
                shard.hi == old(shard).hi,
                shard.lo <= i <= shard.hi <= target@.len(),
                target_chars@ == target@,
                ab == self.alphabet(),
                base == texts(old(shard).found@),
                texts(shard.found@) == base + self.harvest(
                    edits_between(ab, target@, shard.lo as int, i as int),
                    target@,
                ),
            decreases shard.hi - i,
        {
            let ghost sofar = edits_between(ab, target@, shard.lo as int, i as int);
            let ghost here = edits_at(ab, target@, i as int);
            self.edit_position(&mut shard.found, target, &target_chars, i);
            proof {
                self.lemma_harvest_concat(sofar, here, target@);
            }
            i += 1;
        }
    }

    /// Second phase, at one position: the removal, the exchange with the
    /// character before it, the replacements and the insertions behind it.
    fn edit_position(
        &self,
        out: &mut Vec<String>,
        target: &str,
        target_chars: &Vec<char>,
        i: usize,
    )
        requires
            target_chars@ == target@,
            i < target_chars.len(),
        ensures
            texts(final(out)@) == texts(old(out)@) + self.harvest(
                edits_at(self.alphabet(), target@, i as int),
                target@,
            ),
    {
        let ghost ab = self.alphabet();
        let ghost base = texts(out@);
        let ghost removal = seq![delete(target@, i as int)];
        let ghost exchange = swaps(target@, i as int);
        let ghost replaced = substitutions(ab, target@, i as int);
        let ghost inserted = insertions(ab, target@, i as int);
        proof {
            self.lemma_harvest_single(delete(target@, i as int), target@);
            self.lemma_harvest_concat(removal, exchange, target@);
            self.lemma_harvest_concat(removal + exchange, replaced, target@);
            self.lemma_harvest_concat(removal + exchange + replaced, inserted, target@);
        }
        self.try_removal(out, target, target_chars, i);
        if i >= 1 {
            proof {
                self.lemma_harvest_single(swap(target@, i as int), target@);
            }
            self.try_exchange(out, target, target_chars, i);
        }
        self.try_replacements(out, target, target_chars, i);
        self.try_insertions(out, target, target_chars, i);
        assert(texts(out@) =~= base + (self.harvest(removal, target@) + self.harvest(
            exchange,
            target@,
        ) + self.harvest(replaced, target@) + self.harvest(inserted, target@)));
    }

    /// The target without the character at position `i`.
    fn try_removal(&self, out: &mut Vec<String>, target: &str, target_chars: &Vec<char>, i: usize)
        requires
            target_chars@ == target@,
            i < target_chars.len(),
        ensures
            texts(final(out)@) == texts(old(out)@) + self.harvest_one(
                delete(target@, i as int),
                target@,
            ),
    {
        let mut t = String::new();
        push_range(&mut t, target_chars, 0, i);
        push_range(&mut t, target_chars, i + 1, target_chars.len());
        self.insert_if_new_and_clear(out, &mut t, target);
    }

    /// The target with the characters at positions `i - 1` and `i`
    /// exchanged.
    fn try_exchange(&self, out: &mut Vec<String>, target: &str, target_chars: &Vec<char>, i: usize)
        requires
            target_chars@ == target@,
            1 <= i < target_chars.len(),
        ensures
            texts(final(out)@) == texts(old(out)@) + self.harvest_one(
                swap(target@, i as int),
                target@,
            ),
    {
        let mut t = String::new();
        push_range(&mut t, target_chars, 0, i - 1);
        t.push(target_chars[i]);
        t.push(target_chars[i - 1]);
        push_range(&mut t, target_chars, i + 1, target_chars.len());
        assert(t@ =~= swap(target@, i as int));
        self.insert_if_new_and_clear(out, &mut t, target);
    }

    /// The target with each letter of the alphabet in turn in place of the
    /// character at position `i`.
    fn try_replacements(
        &self,
        out: &mut Vec<String>,
        target: &str,
        target_chars: &Vec<char>,
        i: usize,
    )
        requires
            target_chars@ == target@,
            i < target_chars.len(),
        ensures
            texts(final(out)@) == texts(old(out)@) + self.harvest(
                substitutions(self.alphabet(), target@, i as int),
                target@,
            ),
    {
        let ghost cands = substitutions(self.alphabet(), target@, i as int);
        let mut t = String::new();
        let mut k: usize = 0;
        while k < self.alphabet.len()
            invariant
                k <= self.alphabet.len(),
                target_chars@ == target@,
                i < target_chars.len(),
                cands == substitutions(self.alphabet(), target@, i as int),
                t@ == Seq::<char>::empty(),
                texts(out@) == texts(old(out)@) + self.harvest(cands.take(k as int), target@),
            decreases self.alphabet.len() - k,
        {
            push_range(&mut t, target_chars, 0, i);
            t.push(self.alphabet[k]);
            push_range(&mut t, target_chars, i + 1, target_chars.len());
            proof {
                assert(t@ =~= cands[k as int]);
                assert(cands.take(k + 1) =~= cands.take(k as int).push(cands[k as int]));
                self.lemma_harvest_push(cands.take(k as int), cands[k as int], target@);
            }
            self.insert_if_new_and_clear(out, &mut t, target);
            k += 1;
        }
        assert(cands.take(self.alphabet.len() as int) =~= cands);
    }

    /// The target with each letter of the alphabet in turn written right
    /// behind position `i`.
    fn try_insertions(
        &self,
        out: &mut Vec<String>,
        target: &str,
        target_chars: &Vec<char>,
        i: usize,
    )
        requires
            target_chars@ == target@,
            i < target_chars.len(),
        ensures
            texts(final(out)@) == texts(old(out)@) + self.harvest(
                insertions(self.alphabet(), target@, i as int),
                target@,
            ),
    {
        let ghost cands = insertions(self.alphabet(), target@, i as int);
        let mut t = String::new();
        let mut k: usize = 0;
        while k < self.alphabet.len()
            invariant
                k <= self.alphabet.len(),
                target_chars@ == target@,
                i < target_chars.len(),
                cands == insertions(self.alphabet(), target@, i as int),
                t@ == Seq::<char>::empty(),
                texts(out@) == texts(old(out)@) + self.harvest(cands.take(k as int), target@),
            decreases self.alphabet.len() - k,
        {
            push_range(&mut t, target_chars, 0, i + 1);
            t.push(self.alphabet[k]);
            push_range(&mut t, target_chars, i + 1, target_chars.len());
            proof {
                assert(cands.take(k + 1) =~= cands.take(k as int).push(cands[k as int]));
                self.lemma_harvest_push(cands.take(k as int), cands[k as int], target@);
            }
            self.insert_if_new_and_clear(out, &mut t, target);
            k += 1;
        }
        assert(cands.take(self.alphabet.len() as int) =~= cands);
    }

    /// What one candidate adds to a list of neighbours: itself, normalized,
    /// if it is kept, and nothing otherwise.
    pub open spec fn harvest_one(&self, cand: Seq<char>, target: Seq<char>) -> Seq<Seq<char>> {
        if self.admits(cand, target) {
            seq![normalize(cand)]
        } else {
            Seq::empty()
        }
    }

    /// What a list of candidates adds to a list of neighbours, in order.
    pub open spec fn harvest(&self, cands: Seq<Seq<char>>, target: Seq<char>) -> Seq<Seq<char>>
        decreases cands.len(),
    {
        if cands.len() == 0 {
            Seq::empty()
        } else {
            self.harvest(cands.drop_last(), target) + self.harvest_one(cands.last(), target)
        }
    }

    /// The shard `after` is the shard `before` with the neighbours of its
    /// positions added to what it had found.
    spec fn shard_filled(&self, target: Seq<char>, before: Shard, after: Shard) -> bool {
        &&& after.lo == before.lo
        &&& after.hi == before.hi
        &&& texts(after.found@) == texts(before.found@) + self.harvest(
            edits_between(self.alphabet(), target, before.lo as int, before.hi as int),
            target,
        )
    }

    /// One more candidate at the end of a list adds what it alone adds.
    pub proof fn lemma_harvest_push(&self, cands: Seq<Seq<char>>, c: Seq<char>, target: Seq<char>)
        ensures
            self.harvest(cands.push(c), target) == self.harvest(cands, target) + self.harvest_one(
                c,
                target,
            ),
    {
        assert(cands.push(c).drop_last() =~= cands);
    }

    /// A list of one candidate adds what that candidate adds.
    pub proof fn lemma_harvest_single(&self, c: Seq<char>, target: Seq<char>)
        ensures
            self.harvest(seq![c], target) == self.harvest_one(c, target),
    {
        self.lemma_harvest_push(Seq::empty(), c, target);
        assert(Seq::<Seq<char>>::empty() + self.harvest_one(c, target) =~= self.harvest_one(
            c,
            target,
        ));
    }

    /// Two lists of candidates, one behind the other, add what each adds.
    pub proof fn lemma_harvest_concat(
        &self,
        a: Seq<Seq<char>>,
        b: Seq<Seq<char>>,
        target: Seq<char>,
    )
        ensures
            self.harvest(a + b, target) == self.harvest(a, target) + self.harvest(b, target),
        decreases b.len(),
    {
        if b.len() == 0 {
            assert(self.harvest(a, target) + Seq::<Seq<char>>::empty() =~= self.harvest(
                a,
                target,
            ));
        } else {
            self.lemma_harvest_concat(a, b.drop_last(), target);
            assert((a + b).drop_last() =~= a + b.drop_last());
            assert(self.harvest(a, target) + (self.harvest(b.drop_last(), target)
                + self.harvest_one(b.last(), target)) =~= (self.harvest(a, target) + self.harvest(
                b.drop_last(),
                target,
            )) + self.harvest_one(b.last(), target));
        }
    }

    /// What a list of candidates adds holds the kept candidates, normalized,
    /// and nothing else.
    pub proof fn lemma_harvest_contains(
        &self,
        cands: Seq<Seq<char>>,
        target: Seq<char>,
        n: Seq<char>,
    )
        ensures
            self.harvest(cands, target).contains(n) <==> exists|j: int|
                0 <= j < cands.len() && self.admits(#[trigger] cands[j], target) && n
                    == normalize(cands[j]),
        decreases cands.len(),
    {
        if cands.len() > 0 {
            let init = cands.drop_last();
            let last = cands.last();
            self.lemma_harvest_contains(init, target, n);
            vstd::seq_lib::lemma_seq_concat_contains_all_elements(
                self.harvest(init, target),
                self.harvest_one(last, target),
                n,
            );
            if self.harvest(init, target).contains(n) {
                let j = choose|j: int|
                    0 <= j < init.len() && self.admits(#[trigger] init[j], target) && n
                        == normalize(init[j]);
                assert(cands[j] == init[j]);
            }
            if exists|j: int|
                0 <= j < cands.len() && self.admits(#[trigger] cands[j], target) && n
                    == normalize(cands[j]) {
                let j = choose|j: int|
                    0 <= j < cands.len() && self.admits(#[trigger] cands[j], target) && n
                        == normalize(cands[j]);
                if j < cands.len() - 1 {
                    assert(init[j] == cands[j]);
                } else {
                    assert(self.harvest_one(last, target)[0] == n);
                }
            }
        }
    }

    /// What all candidates of `target` add holds the neighbours of `target`,
    /// and nothing else.
    pub proof fn lemma_harvest_is_neighbors(&self, target: Seq<char>, n: Seq<char>)
        ensures
            self.harvest(candidates(self.alphabet(), target), target).contains(n)
                <==> self.is_neighbor(target, n),
    {
        let cands = candidates(self.alphabet(), target);
        self.lemma_harvest_contains(cands, target, n);
        if self.harvest(cands, target).contains(n) {
            let j = choose|j: int|
                0 <= j < cands.len() && self.admits(#[trigger] cands[j], target) && n
                    == normalize(cands[j]);
            lemma_candidates_contains(self.alphabet(), target, cands[j]);
        }
        if self.is_neighbor(target, n) {
            let c = choose|c: Seq<char>|
                #[trigger] is_candidate(self.alphabet(), target, c) && self.admits(c, target) && n
                    == normalize(c);
            lemma_candidates_contains(self.alphabet(), target, c);
        }
    }

    /// A neighbour differs from its target, it is normalized, it has a word,
    /// and the word list holds each of its words.
    pub proof fn lemma_neighbor_valid(&self, target: Seq<char>, n: Seq<char>)
        requires
            self.is_neighbor(target, n),
        ensures
            n != target,
            normalize(n) == n,
            tokens(n).len() > 0,
            forall|k: int| 0 <= k < tokens(n).len() ==> self.knows(#[trigger] tokens(n)[k]),
    {
        let c = choose|c: Seq<char>|
            #[trigger] is_candidate(self.alphabet(), target, c) && self.admits(c, target) && n
                == normalize(c);
        lemma_normalize_keeps_tokens(c);
    }
}

} // verus!
