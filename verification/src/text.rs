//! Characters, words and the spaces between them.

use vstd::prelude::*;
use vstd::hash_set::StringHashSet;
use vstd::string::StringExecFns;

verus! {

/// Whether `char::is_whitespace` holds of a character other than the plain
/// space: membership in Unicode's White_Space property.
pub uninterp spec fn unicode_white_space(c: char) -> bool;

/// A character that separates the words of a token.
pub open spec fn is_space(c: char) -> bool {
    c == ' ' || unicode_white_space(c)
}

/// `char::is_whitespace` tells whether a character has the White_Space
/// property, which the plain space has.
pub assume_specification[ char::is_whitespace ](c: char) -> (b: bool)
    ensures
        b == (c == ' ' || unicode_white_space(c)),
;

/// `String::push` appends one character.
pub assume_specification[ String::push ](s: &mut String, c: char)
    ensures
        final(s)@ == old(s)@.push(c),
;

/// `String::clear` removes every character.
pub assume_specification[ String::clear ](s: &mut String)
    ensures
        final(s)@ == Seq::<char>::empty(),
;

/// What a list of strings says, string by string.
pub open spec fn texts(v: Seq<String>) -> Seq<Seq<char>> {
    Seq::new(v.len(), |i: int| v[i]@)
}

/// A word: at least one character, and no space among them.
pub open spec fn is_word(w: Seq<char>) -> bool {
    w.len() > 0 && forall|j: int| 0 <= j < w.len() ==> !is_space(#[trigger] w[j])
}

/// The words of `s`: its maximal runs of characters that are not spaces, in
/// the order in which they stand.
pub open spec fn tokens(s: Seq<char>) -> Seq<Seq<char>>
    decreases s.len(),
{
    if s.len() == 0 {
        Seq::empty()
    } else {
        let before = tokens(s.drop_last());
        let c = s.last();
        if is_space(c) {
            before
        } else if s.len() >= 2 && !is_space(s[s.len() - 2]) {
            before.drop_last().push(before.last().push(c))
        } else {
            before.push(seq![c])
        }
    }
}

/// The words written one after another with a single plain space between
/// neighbours.
pub open spec fn join(words: Seq<Seq<char>>) -> Seq<char>
    decreases words.len(),
{
    if words.len() == 0 {
        Seq::empty()
    } else if words.len() == 1 {
        words[0]
    } else {
        join(words.drop_last()) + seq![' '] + words.last()
    }
}

/// `s` with every run of spaces between two words replaced by one plain
/// space, and the spaces at both ends removed.
pub open spec fn normalize(s: Seq<char>) -> Seq<char> {
    join(tokens(s))
}

/// A string more at the end of a list is a text more at the end of what the
/// list says.
pub proof fn lemma_texts_push(v: Seq<String>, s: String)
    ensures
        texts(v.push(s)) == texts(v).push(s@),
{
}

/// A text that ends in a character that is no space has a last word.
pub proof fn lemma_tokens_last_open(s: Seq<char>)
    requires
        s.len() > 0,
        !is_space(s.last()),
    ensures
        tokens(s).len() > 0,
    decreases s.len(),
{
    if s.len() >= 2 && !is_space(s[s.len() - 2]) {
        lemma_tokens_last_open(s.drop_last());
    }
}

/// Every token is a word.
pub proof fn lemma_tokens_are_words(s: Seq<char>)
    ensures
        forall|k: int| 0 <= k < tokens(s).len() ==> is_word(#[trigger] tokens(s)[k]),
    decreases s.len(),
{
    if s.len() > 0 {
        let init = s.drop_last();
        lemma_tokens_are_words(init);
        if !is_space(s.last()) && s.len() >= 2 && !is_space(s[s.len() - 2]) {
            lemma_tokens_last_open(init);
        }
    }
}

/// A word written behind a text that does not end inside a word is that
/// text's next token.
pub proof fn lemma_tokens_append_word(x: Seq<char>, w: Seq<char>)
    requires
        is_word(w),
        x.len() == 0 || is_space(x.last()),
    ensures
        tokens(x + w) == tokens(x).push(w),
    decreases w.len(),
{
    let s = x + w;
    let c = w.last();
    if w.len() == 1 {
        assert(s.drop_last() =~= x);
        assert(w =~= seq![c]);
    } else {
        let v = w.drop_last();
        assert(is_word(v));
        lemma_tokens_append_word(x, v);
        assert(s.drop_last() =~= x + v);
        assert(v.push(c) =~= w);
    }
}

/// Splitting what `join` wrote gives the words back.
pub proof fn lemma_tokens_of_join(words: Seq<Seq<char>>)
    requires
        forall|k: int| 0 <= k < words.len() ==> is_word(#[trigger] words[k]),
    ensures
        tokens(join(words)) == words,
    decreases words.len(),
{
    if words.len() == 1 {
        lemma_tokens_append_word(Seq::empty(), words[0]);
    } else if words.len() > 1 {
        let init = words.drop_last();
        lemma_tokens_of_join(init);
        let x = join(init) + seq![' '];
        assert(x.drop_last() =~= join(init));
        lemma_tokens_append_word(x, words.last());
    }
}

/// Normalizing a text changes none of its words.
pub proof fn lemma_normalize_keeps_tokens(s: Seq<char>)
    ensures
        tokens(normalize(s)) == tokens(s),
{
    lemma_tokens_are_words(s);
    lemma_tokens_of_join(tokens(s));
}

/// A normalized text stays as it is when it is normalized again.
pub proof fn lemma_normalize_idempotent(s: Seq<char>)
    ensures
        normalize(normalize(s)) == normalize(s),
{
    lemma_normalize_keeps_tokens(s);
}

/// The characters of a string, one by one.
pub fn chars_of(s: &str) -> (v: Vec<char>)
    ensures
        v@ == s@,
{
    let mut v: Vec<char> = Vec::new();
    for c in it: s.chars()
        invariant
            v@ == it.seq().take(it.index()),
            it.seq() == s@,
    {
        v.push(c);
    }
    v
}

/// Appends the characters `v[from..to]` to `s`.
pub fn push_range(s: &mut String, v: &Vec<char>, from: usize, to: usize)
    requires
        from <= to <= v.len(),
    ensures
        final(s)@ == old(s)@ + v@.subrange(from as int, to as int),
{
    let mut i: usize = from;
    while i < to
        invariant
            from <= i <= to <= v.len(),
            s@ == old(s)@ + v@.subrange(from as int, i as int),
        decreases to - i,
    {
        s.push(v[i]);
        i += 1;
    }
}

/// Whether two lists of characters are the same text.
pub fn same_chars(a: &Vec<char>, b: &Vec<char>) -> (same: bool)
    ensures
        same == (a@ == b@),
{
    if a.len() != b.len() {
        return false;
    }
    let mut i: usize = 0;
    while i < a.len()
        invariant
            i <= a.len() == b.len(),
            a@.take(i as int) == b@.take(i as int),
        decreases a.len() - i,
    {
        if a[i] != b[i] {
            return false;
        }
        i += 1;
    }
    assert(a@ =~= a@.take(a.len() as int));
    assert(b@ =~= b@.take(b.len() as int));
    true
}

/// Splits a text into its words.
pub fn split_words(s: &Vec<char>) -> (words: Vec<String>)
    ensures
        texts(words@) == tokens(s@),
{
    let mut words: Vec<String> = Vec::new();
    let mut cur = String::new();
    let mut in_word = false;
    let mut i: usize = 0;
    while i < s.len()
        invariant
            i <= s.len(),
            in_word <==> (i > 0 && !is_space(s@[i - 1])),
            in_word ==> texts(words@).push(cur@) == tokens(s@.take(i as int)),
            !in_word ==> texts(words@) == tokens(s@.take(i as int)) && cur@.len() == 0,
        decreases s.len() - i,
    {
        let c = s[i];
        let ghost prefix = s@.take(i + 1);
        assert(prefix.drop_last() =~= s@.take(i as int));
        if c.is_whitespace() {
            if in_word {
                proof {
                    lemma_texts_push(words@, cur);
                }
                words.push(cur);
                cur = String::new();
                in_word = false;
            }
        } else {
            proof {
                if !in_word {
                    assert(cur@.push(c) =~= seq![c]);
                }
            }
            cur.push(c);
            in_word = true;
        }
        i += 1;
    }
    assert(s@.take(s.len() as int) =~= s@);
    if in_word {
        proof {
            lemma_texts_push(words@, cur);
        }
        words.push(cur);
    }
    words
}

/// Writes the words one after another, a single plain space between
/// neighbours.
pub fn join_words(words: &Vec<String>) -> (s: String)
    ensures
        s@ == join(texts(words@)),
{
    let mut s = String::new();
    let mut i: usize = 0;
    while i < words.len()
        invariant
            i <= words.len(),
            s@ == join(texts(words@).take(i as int)),
        decreases words.len() - i,
    {
        let ghost done = texts(words@).take(i as int);
        let ghost next = texts(words@).take(i + 1);
        assert(next.drop_last() =~= done);
        if i > 0 {
            s.push(' ');
        }
        s.append(words[i].as_str());
        i += 1;
    }
    assert(texts(words@).take(words.len() as int) =~= texts(words@));
    s
}

/// A list with one text more at its end holds that text and what it held
/// before.
proof fn lemma_push_contains(list: Seq<Seq<char>>, last: Seq<char>, n: Seq<char>)
    ensures
        list.push(last).contains(n) <==> list.contains(n) || n == last,
{
    if list.contains(n) {
        let j = choose|j: int| 0 <= j < list.len() && list[j] == n;
        assert(list.push(last)[j] == n);
    }
    if n == last {
        assert(list.push(last)[list.len() as int] == n);
    }
}

/// The strings of `list`, each once, in the order in which they first occur.
pub(crate) fn distinct(list: &Vec<String>) -> (out: Vec<String>)
    ensures
        texts(out@).no_duplicates(),
        forall|n: Seq<char>| texts(out@).contains(n) <==> texts(list@).contains(n),
{
    let mut out: Vec<String> = Vec::new();
    let mut seen = StringHashSet::new();
    let mut k: usize = 0;
    while k < list.len()
        invariant
            k <= list.len(),
            texts(out@).no_duplicates(),
            forall|n: Seq<char>| seen@.contains(n) <==> texts(out@).contains(n),
            forall|n: Seq<char>| texts(out@).contains(n) <==> texts(list@).take(k as int).contains(n),
        decreases list.len() - k,
    {
        let s = list[k].clone();
        let ghost before = texts(out@);
        let ghost read = texts(list@).take(k as int);
        assert(texts(list@).take(k + 1) =~= read.push(s@));
        if seen.insert(s.clone()) {
            proof {
                lemma_texts_push(out@, s);
            }
            out.push(s);
        }
        assert forall|n: Seq<char>| seen@.contains(n) <==> texts(out@).contains(n) by {
            lemma_push_contains(before, s@, n);
        }
        assert forall|n: Seq<char>| texts(out@).contains(n) <==> texts(list@).take(
            k + 1,
        ).contains(n) by {
            lemma_push_contains(before, s@, n);
            lemma_push_contains(read, s@, n);
        }
        k += 1;
    }
    assert(texts(list@).take(list.len() as int) =~= texts(list@));
    out
}

} // verus!
