//! The distance between two texts, computed row by row: the classic
//! recurrence, and the proof that it gives the distance.

use vstd::prelude::*;
use crate::distance::{
    distance, edit_chain, is_distance, lemma_distance_unique, lemma_within_add,
    lemma_within_from_empty, lemma_within_to_empty, links, one_edit, within,
};

verus! {

/// The least of three numbers.
pub open spec fn min3(x: nat, y: nat, z: nat) -> nat {
    if x <= y && x <= z {
        x
    } else if y <= z {
        y
    } else {
        z
    }
}

/// What the last characters of two texts cost: nothing where they are the
/// same, one replacement where they differ.
pub open spec fn last_cost(a: Seq<char>, b: Seq<char>) -> nat {
    if a.last() == b.last() {
        0
    } else {
        1
    }
}

/// The distance by the classic recurrence: an empty text is as far from
/// another as that one is long; otherwise the last character of `a` is
/// removed, or the last character of `b` is written, or the one becomes the
/// other, whichever is cheapest.
pub open spec fn recurrence(a: Seq<char>, b: Seq<char>) -> nat
    decreases a.len() + b.len(),
{
    if a.len() == 0 {
        b.len()
    } else if b.len() == 0 {
        a.len()
    } else {
        min3(
            recurrence(a.drop_last(), b) + 1,
            recurrence(a, b.drop_last()) + 1,
            recurrence(a.drop_last(), b.drop_last()) + last_cost(a, b),
        )
    }
}

/// The recurrence grows by one at most where `a` gets one character more at
/// its end.
proof fn lemma_step_a(a: Seq<char>, b: Seq<char>)
    requires
        a.len() > 0,
    ensures
        recurrence(a, b) <= recurrence(a.drop_last(), b) + 1,
{
}

/// The recurrence grows by one at most where `b` gets one character more at
/// its end.
proof fn lemma_step_b(a: Seq<char>, b: Seq<char>)
    requires
        b.len() > 0,
    ensures
        recurrence(a, b) <= recurrence(a, b.drop_last()) + 1,
{
}

/// The recurrence grows by one at most where both texts get one character
/// more at their ends.
proof fn lemma_step_both(a: Seq<char>, b: Seq<char>)
    requires
        a.len() > 0,
        b.len() > 0,
    ensures
        recurrence(a, b) <= recurrence(a.drop_last(), b.drop_last()) + 1,
{
}

/// Removing a character of `a` lowers the recurrence by one at most.
proof fn lemma_remove_bound(a: Seq<char>, i: int, b: Seq<char>)
    requires
        0 <= i < a.len(),
    ensures
        recurrence(a, b) <= recurrence(a.remove(i), b) + 1,
    decreases a.len() + b.len(),
{
    let a2 = a.remove(i);
    if i == a.len() - 1 {
        lemma_step_a(a, b);
    } else if b.len() > 0 {
        let u = a.drop_last();
        let v = b.drop_last();
        assert(a2.drop_last() =~= u.remove(i));
        lemma_remove_bound(u, i, b);
        lemma_remove_bound(a, i, v);
        lemma_remove_bound(u, i, v);
    }
}

/// Writing a character into `a` lowers the recurrence by one at most.
proof fn lemma_insert_bound(a: Seq<char>, i: int, c: char, b: Seq<char>)
    requires
        0 <= i <= a.len(),
    ensures
        recurrence(a, b) <= recurrence(a.insert(i, c), b) + 1,
    decreases a.len() + b.len(),
{
    let a2 = a.insert(i, c);
    if b.len() > 0 && i == a.len() {
        let v = b.drop_last();
        assert(a2.drop_last() =~= a);
        lemma_insert_bound(a, i, c, v);
        lemma_step_b(a, b);
    } else if b.len() > 0 {
        let u = a.drop_last();
        let v = b.drop_last();
        assert(a2.drop_last() =~= u.insert(i, c));
        lemma_insert_bound(u, i, c, b);
        lemma_insert_bound(a, i, c, v);
        lemma_insert_bound(u, i, c, v);
    }
}

/// Replacing a character of `a` lowers the recurrence by one at most.
proof fn lemma_update_bound(a: Seq<char>, i: int, c: char, b: Seq<char>)
    requires
        0 <= i < a.len(),
    ensures
        recurrence(a, b) <= recurrence(a.update(i, c), b) + 1,
    decreases a.len() + b.len(),
{
    let a2 = a.update(i, c);
    if b.len() > 0 && i == a.len() - 1 {
        let u = a.drop_last();
        let v = b.drop_last();
        assert(a2.drop_last() =~= u);
        lemma_update_bound(a, i, c, v);
        lemma_step_a(a, b);
        lemma_step_b(a, b);
        lemma_step_both(a, b);
    } else if b.len() > 0 {
        let u = a.drop_last();
        let v = b.drop_last();
        assert(a2.drop_last() =~= u.update(i, c));
        lemma_update_bound(u, i, c, b);
        lemma_update_bound(a, i, c, v);
        lemma_update_bound(u, i, c, v);
    }
}

/// One edit of `a` lowers the recurrence by one at most.
proof fn lemma_edit_bound(a: Seq<char>, a2: Seq<char>, b: Seq<char>)
    requires
        one_edit(a, a2),
    ensures
        recurrence(a, b) <= recurrence(a2, b) + 1,
{
    if exists|i: int, c: char| 0 <= i <= a.len() && a2 == #[trigger] a.insert(i, c) {
        let (i, c) = choose|i: int, c: char| 0 <= i <= a.len() && a2 == #[trigger] a.insert(i, c);
        lemma_insert_bound(a, i, c, b);
    } else if exists|i: int| 0 <= i < a.len() && a2 == #[trigger] a.remove(i) {
        let i = choose|i: int| 0 <= i < a.len() && a2 == #[trigger] a.remove(i);
        lemma_remove_bound(a, i, b);
    } else {
        let (i, c) = choose|i: int, c: char| 0 <= i < a.len() && a2 == #[trigger] a.update(i, c);
        lemma_update_bound(a, i, c, b);
    }
}

/// The recurrence of a text with itself is zero.
proof fn lemma_recurrence_self(a: Seq<char>)
    ensures
        recurrence(a, a) == 0,
    decreases a.len(),
{
    if a.len() > 0 {
        lemma_recurrence_self(a.drop_last());
    }
}

/// The recurrence is no more than the number of steps of any chain of edits
/// between the two texts.
proof fn lemma_recurrence_below(path: Seq<Seq<char>>, a: Seq<char>, b: Seq<char>)
    requires
        links(path, a, b),
    ensures
        recurrence(a, b) <= path.len() - 1,
    decreases path.len(),
{
    if path.len() == 1 {
        lemma_recurrence_self(a);
    } else {
        let rest = path.drop_first();
        assert(edit_chain(rest)) by {
            assert forall|i: int| 0 <= i < rest.len() - 1 implies one_edit(
                #[trigger] rest[i],
                rest[i + 1],
            ) by {
                assert(one_edit(path[i + 1], path[i + 2]));
            }
        }
        lemma_recurrence_below(rest, path[1], b);
        lemma_edit_bound(a, path[1], b);
    }
}

/// An edit stays an edit where both texts get the same character more at
/// their ends.
proof fn lemma_one_edit_push(a: Seq<char>, b: Seq<char>, x: char)
    requires
        one_edit(a, b),
    ensures
        one_edit(a.push(x), b.push(x)),
{
    if exists|i: int, c: char| 0 <= i <= a.len() && b == #[trigger] a.insert(i, c) {
        let (i, c) = choose|i: int, c: char| 0 <= i <= a.len() && b == #[trigger] a.insert(i, c);
        assert(b.push(x) =~= a.push(x).insert(i, c));
    } else if exists|i: int| 0 <= i < a.len() && b == #[trigger] a.remove(i) {
        let i = choose|i: int| 0 <= i < a.len() && b == #[trigger] a.remove(i);
        assert(b.push(x) =~= a.push(x).remove(i));
    } else {
        let (i, c) = choose|i: int, c: char| 0 <= i < a.len() && b == #[trigger] a.update(i, c);
        assert(b.push(x) =~= a.push(x).update(i, c));
    }
}

/// A chain of edits stays one where every text gets the same character more
/// at its end.
proof fn lemma_within_push(a: Seq<char>, b: Seq<char>, n: nat, x: char)
    requires
        within(a, b, n),
    ensures
        within(a.push(x), b.push(x), n),
{
    let p = choose|p: Seq<Seq<char>>| #[trigger] links(p, a, b) && p.len() == n + 1;
    let q = Seq::new(p.len(), |i: int| p[i].push(x));
    assert forall|i: int| 0 <= i < q.len() - 1 implies one_edit(#[trigger] q[i], q[i + 1]) by {
        lemma_one_edit_push(p[i], p[i + 1], x);
    }
    assert(links(q, a.push(x), b.push(x)));
}

/// One edit is a chain of one step.
proof fn lemma_within_one(a: Seq<char>, b: Seq<char>)
    requires
        one_edit(a, b),
    ensures
        within(a, b, 1),
{
    assert(links(seq![a, b], a, b));
}

/// Removing the last character is one edit.
proof fn lemma_within_remove_last(a: Seq<char>)
    requires
        a.len() > 0,
    ensures
        within(a, a.drop_last(), 1),
{
    assert(a.drop_last() =~= a.remove(a.len() - 1));
    lemma_within_one(a, a.drop_last());
}

/// Writing the last character is one edit.
proof fn lemma_within_write_last(b: Seq<char>)
    requires
        b.len() > 0,
    ensures
        within(b.drop_last(), b, 1),
{
    let v = b.drop_last();
    assert(b =~= v.insert(v.len() as int, b.last()));
    lemma_within_one(v, b);
}

/// Replacing the last character is one edit.
proof fn lemma_within_replace_last(v: Seq<char>, x: char, y: char)
    ensures
        within(v.push(x), v.push(y), 1),
{
    let w = v.push(x);
    assert(v.push(y) =~= w.update(w.len() - 1, y));
    lemma_within_one(w, v.push(y));
}

/// Where the last characters of both texts are set aside, what is enough for
/// the rest and the cost of the last characters are enough for the whole.
proof fn lemma_within_last(a: Seq<char>, b: Seq<char>, n: nat)
    requires
        a.len() > 0,
        b.len() > 0,
        within(a.drop_last(), b.drop_last(), n),
    ensures
        within(a, b, n + last_cost(a, b)),
{
    let u = a.drop_last();
    let v = b.drop_last();
    lemma_within_push(u, v, n, a.last());
    assert(u.push(a.last()) =~= a);
    assert(v.push(b.last()) =~= b);
    if a.last() != b.last() {
        lemma_within_replace_last(v, a.last(), b.last());
        lemma_within_add(a, v.push(a.last()), b, n, 1);
    }
}

/// As many edits as the recurrence counts are enough.
proof fn lemma_recurrence_enough(a: Seq<char>, b: Seq<char>)
    ensures
        within(a, b, recurrence(a, b)),
    decreases a.len() + b.len(),
{
    if a.len() == 0 {
        assert(a =~= Seq::<char>::empty());
        lemma_within_from_empty(b);
    } else if b.len() == 0 {
        assert(b =~= Seq::<char>::empty());
        lemma_within_to_empty(a);
    } else {
        let u = a.drop_last();
        let v = b.drop_last();
        let m = recurrence(a, b);
        if m == recurrence(u, b) + 1 {
            lemma_within_remove_last(a);
            lemma_recurrence_enough(u, b);
            lemma_within_add(a, u, b, 1, recurrence(u, b));
        } else if m == recurrence(a, v) + 1 {
            lemma_within_write_last(b);
            lemma_recurrence_enough(a, v);
            lemma_within_add(a, v, b, recurrence(a, v), 1);
        } else {
            lemma_recurrence_enough(u, v);
            lemma_within_last(a, b, recurrence(u, v));
        }
    }
}

/// The classic recurrence gives the distance: the least number of
/// single-character insertions, removals and replacements between two texts.
pub proof fn lemma_distance_is_recurrence(a: Seq<char>, b: Seq<char>)
    ensures
        distance(a, b) == recurrence(a, b),
{
    let r = recurrence(a, b);
    lemma_recurrence_enough(a, b);
    assert forall|m: nat| m < r implies !within(a, b, m) by {
        if within(a, b, m) {
            let p = choose|p: Seq<Seq<char>>| #[trigger] links(p, a, b) && p.len() == m + 1;
            lemma_recurrence_below(p, a, b);
        }
    }
    lemma_distance_unique(a, b, r);
}

/// Two different characters and the same two exchanged are two edits apart,
/// though an exchange is one step of a ladder: there the distance is more
/// than the steps that are left.
pub proof fn lemma_exchange_is_two_apart(x: char, y: char)
    requires
        x != y,
    ensures
        distance(seq![x, y], seq![y, x]) == 2,
{
    let a = seq![x, y];
    let b = seq![y, x];
    let e = Seq::<char>::empty();
    lemma_distance_is_recurrence(a, b);
    assert(a.drop_last() =~= seq![x]);
    assert(b.drop_last() =~= seq![y]);
    assert(seq![x].drop_last() =~= e);
    assert(seq![y].drop_last() =~= e);
    assert(recurrence(e, e) == 0);
    assert(recurrence(e, seq![y]) == 1);
    assert(recurrence(seq![x], e) == 1);
    assert(recurrence(e, b) == 2);
    assert(recurrence(a, e) == 2);
    assert(recurrence(seq![x], seq![y]) == 1);
    assert(recurrence(seq![x], b) == 1);
    assert(recurrence(a, seq![y]) == 1);
    assert(recurrence(a, b) == 2);
}

} // verus!
