//! The order of words by their characters, and counting a word's occurrences.
use vstd::prelude::*;

verus! {

/// `a` comes before `b` in dictionary order of their code points, the order
/// in which `str` values compare (code-point order is byte order in UTF-8).
pub open spec fn lex_lt(a: Seq<char>, b: Seq<char>) -> bool
    decreases a.len(),
{
    if a.len() == 0 {
        b.len() > 0
    } else if b.len() == 0 {
        false
    } else if a[0] != b[0] {
        a[0] < b[0]
    } else {
        lex_lt(a.drop_first(), b.drop_first())
    }
}

/// How many times `w` occurs in `words`.
pub open spec fn occurrences(words: Seq<Seq<char>>, w: Seq<char>) -> nat
    decreases words.len(),
{
    if words.len() == 0 {
        0
    } else {
        occurrences(words.drop_last(), w) + if words.last() == w {
            1nat
        } else {
            0nat
        }
    }
}

/// Dictionary order, step by step: the empty word comes before every other
/// word; of two words, the one whose first character has the smaller code
/// point comes first, and with equal first characters the rest decides.
pub proof fn lemma_lex_steps(x: char, y: char, a: Seq<char>, b: Seq<char>)
    ensures
        lex_lt(Seq::empty(), seq![y] + b),
        !lex_lt(seq![x] + a, Seq::empty()),
        lex_lt(seq![x] + a, seq![y] + b) <==> ((x as u32) < (y as u32) || (x == y && lex_lt(a, b))),
{
    let xa = seq![x] + a;
    let yb = seq![y] + b;
    assert(xa[0] == x && yb[0] == y);
    assert(xa.drop_first() =~= a);
    assert(yb.drop_first() =~= b);
    if x != y {
        assert((x as u32) != (y as u32)) by {
            if (x as u32) == (y as u32) {
                assert(x == y);
            }
        }
    }
}

/// No word comes before itself.
pub proof fn lemma_lex_irreflexive(a: Seq<char>)
    ensures
        !lex_lt(a, a),
    decreases a.len(),
{
    if a.len() > 0 {
        lemma_lex_irreflexive(a.drop_first());
    }
}

/// Of two different words, one comes before the other, and not both ways.
pub proof fn lemma_lex_total(a: Seq<char>, b: Seq<char>)
    ensures
        a != b ==> lex_lt(a, b) || lex_lt(b, a),
        !(lex_lt(a, b) && lex_lt(b, a)),
    decreases a.len(),
{
    if a.len() > 0 && b.len() > 0 && a[0] == b[0] {
        lemma_lex_total(a.drop_first(), b.drop_first());
        if a != b {
            assert(a =~= seq![a[0]] + a.drop_first());
            assert(b =~= seq![b[0]] + b.drop_first());
        }
    }
    if a.len() > 0 && b.len() > 0 && a[0] != b[0] {
        assert(a[0] != b[0]);
    }
    if a.len() == 0 && b.len() == 0 {
        assert(a =~= b);
    }
}

/// The order is transitive.
pub proof fn lemma_lex_transitive(a: Seq<char>, b: Seq<char>, c: Seq<char>)
    requires
        lex_lt(a, b),
        lex_lt(b, c),
    ensures
        lex_lt(a, c),
    decreases a.len(),
{
    if a.len() > 0 && b.len() > 0 && c.len() > 0 && a[0] == b[0] && b[0] == c[0] {
        lemma_lex_transitive(a.drop_first(), b.drop_first(), c.drop_first());
    }
}

/// Words that agree on their first `i` characters compare as what follows.
proof fn lemma_lex_skip(a: Seq<char>, b: Seq<char>, i: int)
    requires
        0 <= i <= a.len(),
        i <= b.len(),
        a.take(i) == b.take(i),
    ensures
        lex_lt(a, b) == lex_lt(a.skip(i), b.skip(i)),
    decreases i,
{
    if i == 0 {
        assert(a.skip(0) =~= a);
        assert(b.skip(0) =~= b);
    } else {
        assert(a[0] == a.take(i)[0]);
        assert(b[0] == b.take(i)[0]);
        assert(a.drop_first().take(i - 1) =~= a.take(i).drop_first());
        assert(b.drop_first().take(i - 1) =~= b.take(i).drop_first());
        lemma_lex_skip(a.drop_first(), b.drop_first(), i - 1);
        assert(a.drop_first().skip(i - 1) =~= a.skip(i));
        assert(b.drop_first().skip(i - 1) =~= b.skip(i));
    }
}

/// Compares two words in dictionary order of their code points: negative when
/// `a` comes first, zero when they are equal, positive when `b` comes first.
pub fn compare_words(a: &Vec<char>, b: &Vec<char>) -> (r: i8)
    ensures
        (r < 0) == lex_lt(a@, b@),
        (r == 0) == (a@ == b@),
        (r > 0) == lex_lt(b@, a@),
{
    let mut i: usize = 0;
    while i < a.len() && i < b.len() && a[i] == b[i]
        invariant
            i <= a.len(),
            i <= b.len(),
            a@.take(i as int) == b@.take(i as int),
        decreases a.len() - i,
    {
        assert(a@.take(i + 1) =~= a@.take(i as int).push(a@[i as int]));
        assert(b@.take(i + 1) =~= b@.take(i as int).push(b@[i as int]));
        i = i + 1;
    }
    proof {
        lemma_lex_skip(a@, b@, i as int);
        lemma_lex_skip(b@, a@, i as int);
        lemma_lex_irreflexive(a@);
        lemma_lex_total(a@, b@);
    }
    if i == a.len() && i == b.len() {
        assert(a@ =~= a@.take(i as int));
        assert(b@ =~= b@.take(i as int));
        0
    } else if i == a.len() {
        assert(a@.skip(i as int).len() == 0);
        -1
    } else if i == b.len() {
        assert(b@.skip(i as int).len() == 0);
        1
    } else {
        assert(a@.skip(i as int)[0] == a@[i as int]);
        assert(b@.skip(i as int)[0] == b@[i as int]);
        if a[i] < b[i] {
            -1
        } else {
            1
        }
    }
}

/// A word that occurs in `words` stands at some index of it.
pub proof fn lemma_occurs_at(words: Seq<Seq<char>>, w: Seq<char>)
    requires
        occurrences(words, w) > 0,
    ensures
        exists|j: int| 0 <= j < words.len() && words[j] == w,
    decreases words.len(),
{
    if words.last() == w {
        assert(words[words.len() - 1] == w);
    } else {
        lemma_occurs_at(words.drop_last(), w);
        let j = choose|j: int| 0 <= j < words.drop_last().len() && words.drop_last()[j] == w;
        assert(words[j] == w);
    }
}

} // verus!
