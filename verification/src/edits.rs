//! The single edits of a token, and the candidates that they produce.

use vstd::prelude::*;

verus! {

/// `t` with the letter `a` written before it.
pub open spec fn prepend(t: Seq<char>, a: char) -> Seq<char> {
    seq![a] + t
}

/// `t` without the character at position `i`.
pub open spec fn delete(t: Seq<char>, i: int) -> Seq<char> {
    t.remove(i)
}

/// `t` with the characters at positions `i - 1` and `i` exchanged.
pub open spec fn swap(t: Seq<char>, i: int) -> Seq<char> {
    t.update(i - 1, t[i]).update(i, t[i - 1])
}

/// `t` with the letter `a` in place of the character at position `i`.
pub open spec fn substitute(t: Seq<char>, i: int, a: char) -> Seq<char> {
    t.update(i, a)
}

/// `t` with the letter `a` written right behind position `i`.
pub open spec fn insert_after(t: Seq<char>, i: int, a: char) -> Seq<char> {
    t.insert(i + 1, a)
}

/// `c` is what one edit makes of `t`: a letter of the alphabet `ab` written
/// before it, one character removed, two neighbours exchanged, one character
/// replaced by a letter, or a letter written behind one of its characters.
pub open spec fn is_candidate(ab: Seq<char>, t: Seq<char>, c: Seq<char>) -> bool {
    ||| exists|k: int| 0 <= k < ab.len() && c == #[trigger] prepend(t, ab[k])
    ||| exists|i: int| 0 <= i < t.len() && c == #[trigger] delete(t, i)
    ||| exists|i: int| 1 <= i < t.len() && c == #[trigger] swap(t, i)
    ||| exists|i: int, k: int|
        0 <= i < t.len() && 0 <= k < ab.len() && c == #[trigger] substitute(t, i, ab[k])
    ||| exists|i: int, k: int|
        0 <= i < t.len() && 0 <= k < ab.len() && c == #[trigger] insert_after(t, i, ab[k])
}

/// The candidates that writing a letter before `t` gives, in the order of the
/// alphabet.
pub open spec fn prepends(ab: Seq<char>, t: Seq<char>) -> Seq<Seq<char>> {
    Seq::new(ab.len(), |k: int| prepend(t, ab[k]))
}

/// The exchange at position `i`, where there is one.
pub open spec fn swaps(t: Seq<char>, i: int) -> Seq<Seq<char>> {
    if i >= 1 {
        seq![swap(t, i)]
    } else {
        Seq::empty()
    }
}

/// The candidates that replacing the character at position `i` gives.
pub open spec fn substitutions(ab: Seq<char>, t: Seq<char>, i: int) -> Seq<Seq<char>> {
    Seq::new(ab.len(), |k: int| substitute(t, i, ab[k]))
}

/// The candidates that writing a letter behind position `i` gives.
pub open spec fn insertions(ab: Seq<char>, t: Seq<char>, i: int) -> Seq<Seq<char>> {
    Seq::new(ab.len(), |k: int| insert_after(t, i, ab[k]))
}

/// The candidates of position `i`: the removal, the exchange, the
/// replacements, the insertions.
pub open spec fn edits_at(ab: Seq<char>, t: Seq<char>, i: int) -> Seq<Seq<char>> {
    seq![delete(t, i)] + swaps(t, i) + substitutions(ab, t, i) + insertions(ab, t, i)
}

/// The candidates of the positions from `lo` up to, not including, `hi`.
pub open spec fn edits_between(ab: Seq<char>, t: Seq<char>, lo: int, hi: int) -> Seq<Seq<char>>
    decreases hi - lo,
{
    if hi <= lo {
        Seq::empty()
    } else {
        edits_between(ab, t, lo, hi - 1) + edits_at(ab, t, hi - 1)
    }
}

/// Every candidate of `t`, those of the first phase before those of the
/// positions.
pub open spec fn candidates(ab: Seq<char>, t: Seq<char>) -> Seq<Seq<char>> {
    prepends(ab, t) + edits_between(ab, t, 0, t.len() as int)
}

/// The candidates of a position are what the four edits at it give.
pub proof fn lemma_edits_at_contains(ab: Seq<char>, t: Seq<char>, i: int, c: Seq<char>)
    ensures
        edits_at(ab, t, i).contains(c) <==> {
            ||| c == delete(t, i)
            ||| i >= 1 && c == swap(t, i)
            ||| exists|k: int| 0 <= k < ab.len() && c == #[trigger] substitute(t, i, ab[k])
            ||| exists|k: int| 0 <= k < ab.len() && c == #[trigger] insert_after(t, i, ab[k])
        },
{
    let d = seq![delete(t, i)];
    let w = swaps(t, i);
    let s = substitutions(ab, t, i);
    let n = insertions(ab, t, i);
    let all = edits_at(ab, t, i);
    if all.contains(c) {
        let j = choose|j: int| 0 <= j < all.len() && all[j] == c;
        if 1 + w.len() <= j < 1 + w.len() + s.len() {
            assert(c == substitute(t, i, ab[j - 1 - w.len()]));
        } else if 1 + w.len() + s.len() <= j {
            assert(c == insert_after(t, i, ab[j - 1 - w.len() - s.len()]));
        }
    }
    if c == delete(t, i) {
        assert(all[0] == c);
    }
    if i >= 1 && c == swap(t, i) {
        assert(all[1] == c);
    }
    if exists|k: int| 0 <= k < ab.len() && c == #[trigger] substitute(t, i, ab[k]) {
        let k = choose|k: int| 0 <= k < ab.len() && c == #[trigger] substitute(t, i, ab[k]);
        assert(all[1 + w.len() + k] == c);
    }
    if exists|k: int| 0 <= k < ab.len() && c == #[trigger] insert_after(t, i, ab[k]) {
        let k = choose|k: int| 0 <= k < ab.len() && c == #[trigger] insert_after(t, i, ab[k]);
        assert(all[1 + w.len() + s.len() + k] == c);
    }
}

/// The candidates of a range of positions are those of its positions.
pub proof fn lemma_edits_between_contains(
    ab: Seq<char>,
    t: Seq<char>,
    lo: int,
    hi: int,
    c: Seq<char>,
)
    ensures
        edits_between(ab, t, lo, hi).contains(c) <==> exists|i: int|
            lo <= i < hi && #[trigger] edits_at(ab, t, i).contains(c),
    decreases hi - lo,
{
    if hi > lo {
        let init = edits_between(ab, t, lo, hi - 1);
        let last = edits_at(ab, t, hi - 1);
        lemma_edits_between_contains(ab, t, lo, hi - 1, c);
        vstd::seq_lib::lemma_seq_concat_contains_all_elements(init, last, c);
    }
}

/// Two neighbouring ranges of positions make one.
pub proof fn lemma_edits_between_split(ab: Seq<char>, t: Seq<char>, lo: int, mid: int, hi: int)
    requires
        lo <= mid <= hi,
    ensures
        edits_between(ab, t, lo, mid) + edits_between(ab, t, mid, hi) == edits_between(
            ab,
            t,
            lo,
            hi,
        ),
    decreases hi - mid,
{
    if hi == mid {
        assert(edits_between(ab, t, lo, mid) + Seq::<Seq<char>>::empty() =~= edits_between(
            ab,
            t,
            lo,
            mid,
        ));
    } else {
        lemma_edits_between_split(ab, t, lo, mid, hi - 1);
        assert(edits_between(ab, t, lo, mid) + (edits_between(ab, t, mid, hi - 1) + edits_at(
            ab,
            t,
            hi - 1,
        )) =~= (edits_between(ab, t, lo, mid) + edits_between(ab, t, mid, hi - 1)) + edits_at(
            ab,
            t,
            hi - 1,
        ));
    }
}

/// The list of candidates holds what `is_candidate` describes, and nothing
/// else.
pub proof fn lemma_candidates_contains(ab: Seq<char>, t: Seq<char>, c: Seq<char>)
    ensures
        candidates(ab, t).contains(c) <==> is_candidate(ab, t, c),
{
    let pre = prepends(ab, t);
    let pos = edits_between(ab, t, 0, t.len() as int);
    vstd::seq_lib::lemma_seq_concat_contains_all_elements(pre, pos, c);
    lemma_edits_between_contains(ab, t, 0, t.len() as int, c);
    if pre.contains(c) {
        let k = choose|k: int| 0 <= k < pre.len() && pre[k] == c;
        assert(c == prepend(t, ab[k]));
    }
    if pos.contains(c) {
        let i = choose|i: int| 0 <= i < t.len() && #[trigger] edits_at(ab, t, i).contains(c);
        lemma_edits_at_contains(ab, t, i, c);
    }
    if is_candidate(ab, t, c) {
        if exists|k: int| 0 <= k < ab.len() && c == #[trigger] prepend(t, ab[k]) {
            let k = choose|k: int| 0 <= k < ab.len() && c == #[trigger] prepend(t, ab[k]);
            assert(pre[k] == c);
        } else if exists|i: int| 0 <= i < t.len() && c == #[trigger] delete(t, i) {
            let i = choose|i: int| 0 <= i < t.len() && c == #[trigger] delete(t, i);
            lemma_edits_at_contains(ab, t, i, c);
        } else if exists|i: int| 1 <= i < t.len() && c == #[trigger] swap(t, i) {
            let i = choose|i: int| 1 <= i < t.len() && c == #[trigger] swap(t, i);
            lemma_edits_at_contains(ab, t, i, c);
        } else if exists|i: int, k: int|
            0 <= i < t.len() && 0 <= k < ab.len() && c == #[trigger] substitute(t, i, ab[k]) {
            let (i, k) = choose|i: int, k: int|
                0 <= i < t.len() && 0 <= k < ab.len() && c == #[trigger] substitute(t, i, ab[k]);
            lemma_edits_at_contains(ab, t, i, c);
        } else {
            let (i, k) = choose|i: int, k: int|
                0 <= i < t.len() && 0 <= k < ab.len() && c == #[trigger] insert_after(t, i, ab[k]);
            lemma_edits_at_contains(ab, t, i, c);
        }
    }
}

} // verus!
