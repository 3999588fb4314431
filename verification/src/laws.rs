//! What holds of every search, whatever its words.

use vstd::prelude::*;
use crate::distance::{
    distance, lemma_distance_admissible, lemma_distance_symmetric, lemma_distance_triangle,
    lemma_one_edit_symmetric, links, one_edit,
};
use crate::edits::{is_candidate, prepend, swap};
use crate::search::{estimate, WordSearch};
use crate::text::{normalize, tokens};
use crate::word_list::WordList;

verus! {

/// A candidate that is no exchange of two neighbours is one insertion,
/// removal or replacement of a character away from its target.
pub proof fn lemma_candidate_one_edit(ab: Seq<char>, t: Seq<char>, c: Seq<char>)
    requires
        is_candidate(ab, t, c),
        !(exists|i: int| 1 <= i < t.len() && c == #[trigger] swap(t, i)),
    ensures
        one_edit(t, c),
{
    if exists|k: int| 0 <= k < ab.len() && c == #[trigger] prepend(t, ab[k]) {
        let k = choose|k: int| 0 <= k < ab.len() && c == #[trigger] prepend(t, ab[k]);
        assert(c =~= t.insert(0, ab[k]));
    }
}

impl<'a, WL: WordList> WordSearch<'a, WL> {
    /// `b` is a neighbour of `a` by a plain edit: a candidate of `a` that is
    /// no exchange of two neighbours, that is kept, and that is `b` as it
    /// stands, before it is normalized.
    pub open spec fn plain_step(&self, a: Seq<char>, b: Seq<char>) -> bool {
        &&& is_candidate(self.alphabet(), a, b)
        &&& self.admits(b, a)
        &&& normalize(b) == b
        &&& !(exists|i: int| 1 <= i < a.len() && b == #[trigger] swap(a, i))
    }

    /// A plain step is a step of a ladder, and a single insertion, removal
    /// or replacement of a character.
    pub proof fn lemma_plain_step(&self, a: Seq<char>, b: Seq<char>)
        requires
            self.plain_step(a, b),
        ensures
            self.is_neighbor(a, b),
            one_edit(a, b),
    {
        lemma_candidate_one_edit(self.alphabet(), a, b);
    }

    /// The estimate is admissible on ladders of plain steps: it is no more
    /// than the number of steps of any such ladder from `node` to the end
    /// word.
    pub proof fn lemma_heuristic_admissible_on_ladders(
        &self,
        node: Seq<char>,
        path: Seq<Seq<char>>,
    )
        requires
            path.len() >= 1,
            path[0] == node,
            path.last() == self.end_view(),
            forall|i: int|
                0 <= i < path.len() - 1 ==> self.plain_step(#[trigger] path[i], path[i + 1]),
        ensures
            self.is_ladder(path),
            estimate(distance(self.end_view(), node)) <= path.len() - 1,
    {
        assert forall|i: int| 0 <= i < path.len() - 1 implies self.is_neighbor(
            #[trigger] path[i],
            path[i + 1],
        ) && one_edit(path[i], path[i + 1]) by {
            self.lemma_plain_step(path[i], path[i + 1]);
        }
        self.lemma_heuristic_admissible(node, path);
    }

    /// A search whose start word is its end word is solved by the path that
    /// holds that word alone.
    pub proof fn lemma_reaches_itself(&self)
        requires
            self.start_view() == self.end_view(),
        ensures
            self.is_solution(seq![self.start_view()]),
    {
    }

    /// The estimate is admissible: it is no more than the number of steps of
    /// any chain of single-character insertions, removals and replacements
    /// that leads from `node` to the end word.
    pub proof fn lemma_heuristic_admissible(&self, node: Seq<char>, path: Seq<Seq<char>>)
        requires
            links(path, node, self.end_view()),
        ensures
            estimate(distance(self.end_view(), node)) <= path.len() - 1,
    {
        lemma_distance_symmetric(self.end_view(), node);
        lemma_distance_admissible(node, self.end_view(), path);
    }

    /// The estimate is consistent: one insertion, removal or replacement
    /// of a character lowers it by one at most.
    pub proof fn lemma_heuristic_consistent(&self, a: Seq<char>, b: Seq<char>)
        requires
            one_edit(a, b),
        ensures
            estimate(distance(self.end_view(), a)) <= estimate(distance(self.end_view(), b)) + 1,
    {
        lemma_one_edit_symmetric(a, b);
        assert(links(seq![b, a], b, a));
        lemma_distance_admissible(b, a, seq![b, a]);
        lemma_distance_triangle(self.end_view(), b, a);
    }

    /// Two lists of the neighbours of one target hold the same tokens, and
    /// as many.
    pub proof fn lemma_neighbor_lists_agree(
        &self,
        target: Seq<char>,
        one: Seq<Seq<char>>,
        other: Seq<Seq<char>>,
    )
        requires
            self.is_neighbor_list(target, one),
            self.is_neighbor_list(target, other),
        ensures
            one.to_set() == other.to_set(),
            one.len() == other.len(),
    {
        one.unique_seq_to_set();
        other.unique_seq_to_set();
    }

    /// Where the word list holds no word at all, no token has a neighbour.
    pub proof fn lemma_no_words_no_neighbors(&self, target: Seq<char>, n: Seq<char>)
        requires
            forall|w: Seq<char>| !self.knows(w),
        ensures
            !self.is_neighbor(target, n),
    {
        if self.is_neighbor(target, n) {
            let c = choose|c: Seq<char>|
                #[trigger] is_candidate(self.alphabet(), target, c) && self.admits(c, target) && n
                    == normalize(c);
            assert(self.knows(tokens(c)[0]));
        }
    }

    /// Where the word list holds no word at all, the list of the neighbours
    /// of any token is empty.
    pub proof fn lemma_no_words_empty_list(&self, target: Seq<char>, list: Seq<Seq<char>>)
        requires
            forall|w: Seq<char>| !self.knows(w),
            self.is_neighbor_list(target, list),
        ensures
            list.len() == 0,
    {
        if list.len() > 0 {
            assert(list.contains(list[0]));
            self.lemma_no_words_no_neighbors(target, list[0]);
        }
    }

    /// Where the word list holds no word at all, only the path of one token
    /// is a ladder: a search whose ends differ has no solution.
    pub proof fn lemma_no_words_no_solution(&self, path: Seq<Seq<char>>)
        requires
            forall|w: Seq<char>| !self.knows(w),
            self.start_view() != self.end_view(),
        ensures
            !self.is_solution(path),
    {
        if self.is_solution(path) {
            assert(path.len() >= 2);
            assert(self.is_neighbor(path[0], path[1]));
            self.lemma_no_words_no_neighbors(path[0], path[1]);
        }
    }
}

} // verus!
