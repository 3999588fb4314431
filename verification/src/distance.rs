//! The distance between two texts, counted in edits of one character.

use vstd::prelude::*;

verus! {

/// `b` is `a` after one character was inserted, removed or replaced.
pub open spec fn one_edit(a: Seq<char>, b: Seq<char>) -> bool {
    ||| exists|i: int, c: char| 0 <= i <= a.len() && b == #[trigger] a.insert(i, c)
    ||| exists|i: int| 0 <= i < a.len() && b == #[trigger] a.remove(i)
    ||| exists|i: int, c: char| 0 <= i < a.len() && b == #[trigger] a.update(i, c)
}

/// Each text of `path` is one edit away from the text before it.
pub open spec fn edit_chain(path: Seq<Seq<char>>) -> bool {
    forall|i: int| 0 <= i < path.len() - 1 ==> one_edit(#[trigger] path[i], path[i + 1])
}

/// `path` leads from `a` to `b` by single edits.
pub open spec fn links(path: Seq<Seq<char>>, a: Seq<char>, b: Seq<char>) -> bool {
    &&& path.len() >= 1
    &&& path[0] == a
    &&& path.last() == b
    &&& edit_chain(path)
}

/// `n` edits are enough to turn `a` into `b`.
pub open spec fn within(a: Seq<char>, b: Seq<char>, n: nat) -> bool {
    exists|path: Seq<Seq<char>>| #[trigger] links(path, a, b) && path.len() == n + 1
}

/// `d` edits turn `a` into `b`, and no fewer do.
pub open spec fn is_distance(a: Seq<char>, b: Seq<char>, d: nat) -> bool {
    &&& within(a, b, d)
    &&& forall|m: nat| m < d ==> !within(a, b, m)
}

/// The least number of insertions, removals and replacements of one
/// character that turn `a` into `b`.
pub open spec fn distance(a: Seq<char>, b: Seq<char>) -> nat {
    choose|d: nat| is_distance(a, b, d)
}

/// `edit_distance::edit_distance` counts the single-character insertions,
/// removals and replacements that are necessary to change its first
/// argument into its second, character by character. That is the number
/// that the classic recurrence gives: `lemma_distance_is_recurrence`.
#[verifier::external_body]
fn levenshtein(a: &str, b: &str) -> (d: usize)
    ensures
        is_distance(a@, b@, d as nat),
{
    edit_distance::edit_distance(a, b)
}

/// The least number of single-character edits between two strings.
pub fn char_distance(a: &str, b: &str) -> (d: usize)
    ensures
        d == distance(a@, b@),
{
    let d = levenshtein(a, b);
    proof {
        lemma_distance_unique(a@, b@, d as nat);
    }
    d
}

/// At most one number is the distance between two texts.
pub proof fn lemma_distance_unique(a: Seq<char>, b: Seq<char>, d: nat)
    requires
        is_distance(a, b, d),
    ensures
        distance(a, b) == d,
{
    let e = distance(a, b);
    assert(is_distance(a, b, e));
}

/// Where some number of edits is enough, a least such number exists, and it
/// is the distance.
pub proof fn lemma_distance_least(a: Seq<char>, b: Seq<char>, n: nat)
    requires
        within(a, b, n),
    ensures
        is_distance(a, b, distance(a, b)),
        distance(a, b) <= n,
    decreases n,
{
    if exists|m: nat| m < n && within(a, b, m) {
        let m = choose|m: nat| m < n && within(a, b, m);
        lemma_distance_least(a, b, m);
    } else {
        lemma_distance_unique(a, b, n);
    }
}

/// Two chains of edits, the second starting where the first ends, make one.
pub proof fn lemma_within_add(a: Seq<char>, b: Seq<char>, c: Seq<char>, n: nat, m: nat)
    requires
        within(a, b, n),
        within(b, c, m),
    ensures
        within(a, c, n + m),
{
    let p = choose|p: Seq<Seq<char>>| #[trigger] links(p, a, b) && p.len() == n + 1;
    let q = choose|q: Seq<Seq<char>>| #[trigger] links(q, b, c) && q.len() == m + 1;
    let r = p + q.drop_first();
    assert forall|i: int| 0 <= i < r.len() - 1 implies one_edit(#[trigger] r[i], r[i + 1]) by {
        if i < p.len() - 1 {
            assert(one_edit(p[i], p[i + 1]));
        } else {
            let j = i - (p.len() - 1);
            assert(one_edit(q[j], q[j + 1]));
        }
    }
    assert(links(r, a, c));
}

/// Every text is reached from the empty text by writing its characters.
pub proof fn lemma_within_from_empty(b: Seq<char>)
    ensures
        within(Seq::empty(), b, b.len()),
    decreases b.len(),
{
    if b.len() == 0 {
        let p = seq![b];
        assert(b =~= Seq::<char>::empty());
        assert(links(p, Seq::empty(), b));
    } else {
        let init = b.drop_last();
        lemma_within_from_empty(init);
        assert(b =~= init.insert(init.len() as int, b.last()));
        let p = seq![init, b];
        assert(links(p, init, b));
        lemma_within_add(Seq::empty(), init, b, init.len(), 1);
    }
}

/// Every text is emptied by removing its characters.
pub proof fn lemma_within_to_empty(a: Seq<char>)
    ensures
        within(a, Seq::empty(), a.len()),
    decreases a.len(),
{
    if a.len() == 0 {
        let p = seq![a];
        assert(a =~= Seq::<char>::empty());
        assert(links(p, a, Seq::empty()));
    } else {
        let init = a.drop_last();
        lemma_within_to_empty(init);
        assert(init =~= a.remove(a.len() - 1));
        let p = seq![a, init];
        assert(links(p, a, init));
        lemma_within_add(a, init, Seq::empty(), 1, init.len());
    }
}

/// Any two texts have a distance, and it is no more than their lengths
/// together.
pub proof fn lemma_distance_exists(a: Seq<char>, b: Seq<char>)
    ensures
        is_distance(a, b, distance(a, b)),
        distance(a, b) <= a.len() + b.len(),
{
    lemma_within_to_empty(a);
    lemma_within_from_empty(b);
    lemma_within_add(a, Seq::empty(), b, a.len(), b.len());
    lemma_distance_least(a, b, a.len() + b.len());
}

/// What one edit does, one edit undoes.
pub proof fn lemma_one_edit_symmetric(a: Seq<char>, b: Seq<char>)
    requires
        one_edit(a, b),
    ensures
        one_edit(b, a),
{
    if exists|i: int, c: char| 0 <= i <= a.len() && b == #[trigger] a.insert(i, c) {
        let (i, c) = choose|i: int, c: char| 0 <= i <= a.len() && b == #[trigger] a.insert(i, c);
        assert(a =~= b.remove(i));
    } else if exists|i: int| 0 <= i < a.len() && b == #[trigger] a.remove(i) {
        let i = choose|i: int| 0 <= i < a.len() && b == #[trigger] a.remove(i);
        assert(a =~= b.insert(i, a[i]));
    } else {
        let (i, c) = choose|i: int, c: char| 0 <= i < a.len() && b == #[trigger] a.update(i, c);
        assert(a =~= b.update(i, a[i]));
    }
}

/// A chain of edits read backwards is a chain of edits.
pub proof fn lemma_within_symmetric(a: Seq<char>, b: Seq<char>, n: nat)
    requires
        within(a, b, n),
    ensures
        within(b, a, n),
{
    let p = choose|p: Seq<Seq<char>>| #[trigger] links(p, a, b) && p.len() == n + 1;
    let r = p.reverse();
    assert forall|i: int| 0 <= i < r.len() - 1 implies one_edit(#[trigger] r[i], r[i + 1]) by {
        let j = p.len() - 2 - i;
        lemma_one_edit_symmetric(p[j], p[j + 1]);
    }
    assert(links(r, b, a));
}

/// The distance is the same in both directions.
pub proof fn lemma_distance_symmetric(a: Seq<char>, b: Seq<char>)
    ensures
        distance(a, b) == distance(b, a),
{
    lemma_distance_exists(a, b);
    lemma_distance_exists(b, a);
    lemma_within_symmetric(a, b, distance(a, b));
    lemma_within_symmetric(b, a, distance(b, a));
    lemma_distance_least(b, a, distance(a, b));
    lemma_distance_least(a, b, distance(b, a));
}

/// The distance never overestimates: it is no more than the number of steps
/// of any chain of single-character insertions, removals and replacements
/// that leads from `a` to `b`.
pub proof fn lemma_distance_admissible(a: Seq<char>, b: Seq<char>, path: Seq<Seq<char>>)
    requires
        links(path, a, b),
    ensures
        distance(a, b) <= path.len() - 1,
{
    let n = (path.len() - 1) as nat;
    lemma_distance_least(a, b, n);
}

/// A text is at distance zero from itself.
pub proof fn lemma_distance_self(a: Seq<char>)
    ensures
        distance(a, a) == 0,
{
    lemma_distance_admissible(a, a, seq![a]);
}

/// The distance is consistent: going by way of a third text is never
/// shorter.
pub proof fn lemma_distance_triangle(a: Seq<char>, b: Seq<char>, c: Seq<char>)
    ensures
        distance(a, c) <= distance(a, b) + distance(b, c),
{
    lemma_distance_exists(a, b);
    lemma_distance_exists(b, c);
    lemma_within_add(a, b, c, distance(a, b), distance(b, c));
    lemma_distance_least(a, c, distance(a, b) + distance(b, c));
}

} // verus!
