//! Term frequencies of a cut paper.
use vstd::prelude::*;
use crate::order::{
    compare_words, lemma_lex_irreflexive, lemma_lex_total, lemma_lex_transitive, lemma_occurs_at,
    lex_lt, occurrences,
};
use crate::segment::texts;
use crate::text::chars_of;

verus! {

/// One word of a paper and how many times it occurs there.
#[derive(Debug, PartialEq, Eq)]
pub struct TermFreq {
    pub name: String,
    pub tf: usize,
}

/// `names` in strictly increasing dictionary order.
pub open spec fn strictly_sorted(names: Seq<Seq<char>>) -> bool {
    forall|i: int, j: int| 0 <= i < j < names.len() ==> lex_lt(#[trigger] names[i], #[trigger] names[j])
}

/// The names of `tfs`.
pub open spec fn tf_names(tfs: Seq<TermFreq>) -> Seq<Seq<char>> {
    tfs.map_values(|t: TermFreq| t.name@)
}

/// `tfs` is the term-frequency table of `words`: each word once, in
/// dictionary order, with the number of times it occurs; every word listed.
pub open spec fn is_tf_table(tfs: Seq<TermFreq>, words: Seq<Seq<char>>) -> bool {
    &&& strictly_sorted(tf_names(tfs))
    &&& forall|i: int|
        0 <= i < tfs.len() ==> #[trigger] tfs[i].tf == occurrences(words, tfs[i].name@) && tfs[i].tf
            > 0
    &&& forall|j: int| 0 <= j < words.len() ==> tf_names(tfs).contains(#[trigger] words[j])
}

/// Adding one word to a list counts it once more for itself and never for another.
proof fn lemma_occurrences_push(words: Seq<Seq<char>>, w: Seq<char>, s: Seq<char>)
    ensures
        occurrences(words.push(w), s) == occurrences(words, s) + if w == s {
            1nat
        } else {
            0nat
        },
{
    assert(words.push(w).drop_last() =~= words);
}

/// A word occurs at most as many times as there are words.
proof fn lemma_occurrences_bound(words: Seq<Seq<char>>, w: Seq<char>)
    ensures
        occurrences(words, w) <= words.len(),
    decreases words.len(),
{
    if words.len() > 0 {
        lemma_occurrences_bound(words.drop_last(), w);
    }
}

/// The sum of the counts in `tfs`.
pub open spec fn total_tf(tfs: Seq<TermFreq>) -> int
    decreases tfs.len(),
{
    if tfs.len() == 0 {
        0
    } else {
        total_tf(tfs.drop_last()) + tfs.last().tf
    }
}

/// The number of times the words `names` occur in `words`, summed.
spec fn sum_occurrences(names: Seq<Seq<char>>, words: Seq<Seq<char>>) -> int
    decreases names.len(),
{
    if names.len() == 0 {
        0
    } else {
        sum_occurrences(names.drop_last(), words) + occurrences(words, names.last())
    }
}

/// How many entries of `names` are `w`.
spec fn hits(names: Seq<Seq<char>>, w: Seq<char>) -> int
    decreases names.len(),
{
    if names.len() == 0 {
        0
    } else {
        hits(names.drop_last(), w) + if names.last() == w {
            1int
        } else {
            0int
        }
    }
}

proof fn lemma_sum_occurrences_push(names: Seq<Seq<char>>, words: Seq<Seq<char>>, w: Seq<char>)
    ensures
        sum_occurrences(names, words.push(w)) == sum_occurrences(names, words) + hits(names, w),
    decreases names.len(),
{
    if names.len() > 0 {
        lemma_sum_occurrences_push(names.drop_last(), words, w);
        lemma_occurrences_push(words, w, names.last());
    }
}

proof fn lemma_hits_one(names: Seq<Seq<char>>, w: Seq<char>)
    requires
        forall|i: int, j: int| 0 <= i < j < names.len() ==> #[trigger] names[i] != #[trigger] names[j],
    ensures
        hits(names, w) == if names.contains(w) {
            1int
        } else {
            0int
        },
    decreases names.len(),
{
    if names.len() > 0 {
        let rest = names.drop_last();
        lemma_hits_one(rest, w);
        if names.contains(w) {
            let k = choose|k: int| 0 <= k < names.len() && names[k] == w;
            if k < rest.len() {
                assert(rest[k] == w);
                assert(names[k] != names[names.len() - 1]);
            }
        }
        if rest.contains(w) {
            let k = choose|k: int| 0 <= k < rest.len() && rest[k] == w;
            assert(names[k] == w);
            assert(names[k] != names[names.len() - 1]);
        }
        if names.last() == w {
            assert(names[names.len() - 1] == w);
        }
    }
}

/// Distinct names that cover every word account for all the words.
proof fn lemma_sum_covering(names: Seq<Seq<char>>, words: Seq<Seq<char>>)
    requires
        forall|i: int, j: int| 0 <= i < j < names.len() ==> #[trigger] names[i] != #[trigger] names[j],
        forall|j: int| 0 <= j < words.len() ==> names.contains(#[trigger] words[j]),
    ensures
        sum_occurrences(names, words) == words.len(),
    decreases words.len(),
{
    if words.len() == 0 {
        lemma_sum_empty(names, words);
    } else {
        let rest = words.drop_last();
        assert forall|j: int| 0 <= j < rest.len() implies names.contains(#[trigger] rest[j]) by {
            assert(words[j] == rest[j]);
        }
        lemma_sum_covering(names, rest);
        assert(rest.push(words.last()) =~= words);
        lemma_sum_occurrences_push(names, rest, words.last());
        assert(names.contains(words[words.len() - 1]));
        lemma_hits_one(names, words.last());
    }
}

proof fn lemma_sum_empty(names: Seq<Seq<char>>, words: Seq<Seq<char>>)
    requires
        words.len() == 0,
    ensures
        sum_occurrences(names, words) == 0,
    decreases names.len(),
{
    if names.len() > 0 {
        lemma_sum_empty(names.drop_last(), words);
    }
}

proof fn lemma_total_is_sum(tfs: Seq<TermFreq>, words: Seq<Seq<char>>)
    requires
        forall|i: int| 0 <= i < tfs.len() ==> #[trigger] tfs[i].tf == occurrences(words, tfs[i].name@),
    ensures
        total_tf(tfs) == sum_occurrences(tf_names(tfs), words),
    decreases tfs.len(),
{
    if tfs.len() > 0 {
        let rest = tfs.drop_last();
        assert forall|i: int| 0 <= i < rest.len() implies #[trigger] rest[i].tf == occurrences(
            words,
            rest[i].name@,
        ) by {
            assert(rest[i] == tfs[i]);
        }
        lemma_total_is_sum(rest, words);
        assert(tf_names(tfs).drop_last() =~= tf_names(rest));
        assert(tfs[tfs.len() - 1].tf == occurrences(words, tfs.last().name@));
    }
}

/// The counts of a term-frequency table add up to the number of words.
pub proof fn lemma_tf_total(tfs: Seq<TermFreq>, words: Seq<Seq<char>>)
    requires
        is_tf_table(tfs, words),
    ensures
        total_tf(tfs) == words.len(),
{
    let names = tf_names(tfs);
    assert forall|i: int, j: int| 0 <= i < j < names.len() implies #[trigger] names[i]
        != #[trigger] names[j] by {
        assert(lex_lt(names[i], names[j]));
        lemma_lex_irreflexive(names[i]);
    }
    lemma_sum_covering(names, words);
    lemma_total_is_sum(tfs, words);
}

/// Two strictly sorted lists with the same elements are the same list.
proof fn lemma_sorted_unique(a: Seq<Seq<char>>, b: Seq<Seq<char>>)
    requires
        strictly_sorted(a),
        strictly_sorted(b),
        forall|x: Seq<char>| a.contains(x) <==> b.contains(x),
    ensures
        a == b,
    decreases a.len() + b.len(),
{
    if a.len() == 0 {
        if b.len() > 0 {
            assert(b.contains(b[0]));
        }
        assert(a =~= b);
    } else if b.len() == 0 {
        assert(a.contains(a[0]));
    } else {
        assert(a.contains(a[0]));
        assert(b.contains(b[0]));
        let j = choose|j: int| 0 <= j < a.len() && a[j] == b[0];
        let k = choose|k: int| 0 <= k < b.len() && b[k] == a[0];
        if k > 0 {
            assert(lex_lt(b[0], b[k]));
            if j > 0 {
                assert(lex_lt(a[0], a[j]));
                lemma_lex_total(a[0], b[0]);
            } else {
                lemma_lex_irreflexive(a[0]);
            }
        }
        assert(k == 0);
        let a1 = a.drop_first();
        let b1 = b.drop_first();
        assert forall|x: Seq<char>| a1.contains(x) <==> b1.contains(x) by {
            if a1.contains(x) {
                let i = choose|i: int| 0 <= i < a1.len() && a1[i] == x;
                assert(a[i + 1] == x);
                assert(lex_lt(a[0], a[i + 1]));
                lemma_lex_irreflexive(x);
                assert(b.contains(x));
                let m = choose|m: int| 0 <= m < b.len() && b[m] == x;
                assert(m != 0);
                assert(b1[m - 1] == x);
            }
            if b1.contains(x) {
                let i = choose|i: int| 0 <= i < b1.len() && b1[i] == x;
                assert(b[i + 1] == x);
                assert(lex_lt(b[0], b[i + 1]));
                lemma_lex_irreflexive(x);
                assert(a.contains(x));
                let m = choose|m: int| 0 <= m < a.len() && a[m] == x;
                assert(m != 0);
                assert(a1[m - 1] == x);
            }
        }
        assert forall|i: int, j: int| 0 <= i < j < a1.len() implies lex_lt(#[trigger] a1[i], #[trigger] a1[j]) by {
            assert(lex_lt(a[i + 1], a[j + 1]));
        }
        assert forall|i: int, j: int| 0 <= i < j < b1.len() implies lex_lt(#[trigger] b1[i], #[trigger] b1[j]) by {
            assert(lex_lt(b[i + 1], b[j + 1]));
        }
        lemma_sorted_unique(a1, b1);
        assert(a =~= seq![a[0]] + a1);
        assert(b =~= seq![b[0]] + b1);
    }
}

/// The term-frequency table depends only on how often each word occurs: word
/// lists in which every word occurs equally often, in whatever order, have the
/// same table.
pub proof fn lemma_tf_table_unique(
    t1: Seq<TermFreq>,
    w1: Seq<Seq<char>>,
    t2: Seq<TermFreq>,
    w2: Seq<Seq<char>>,
)
    requires
        is_tf_table(t1, w1),
        is_tf_table(t2, w2),
        forall|s: Seq<char>| occurrences(w1, s) == occurrences(w2, s),
    ensures
        tf_names(t1) == tf_names(t2),
        forall|i: int| 0 <= i < t1.len() ==> #[trigger] t1[i].tf == t2[i].tf,
{
    let n1 = tf_names(t1);
    let n2 = tf_names(t2);
    assert forall|x: Seq<char>| n1.contains(x) <==> n2.contains(x) by {
        if n1.contains(x) {
            let i = choose|i: int| 0 <= i < n1.len() && n1[i] == x;
            assert(t1[i].tf > 0);
            lemma_occurs_at(w2, x);
            let j = choose|j: int| 0 <= j < w2.len() && w2[j] == x;
            assert(n2.contains(w2[j]));
        }
        if n2.contains(x) {
            let i = choose|i: int| 0 <= i < n2.len() && n2[i] == x;
            assert(t2[i].tf > 0);
            lemma_occurs_at(w1, x);
            let j = choose|j: int| 0 <= j < w1.len() && w1[j] == x;
            assert(n1.contains(w1[j]));
        }
    }
    lemma_sorted_unique(n1, n2);
    assert forall|i: int| 0 <= i < t1.len() implies #[trigger] t1[i].tf == t2[i].tf by {
        assert(n1[i] == n2[i]);
    }
}

/// A table built from sorted keys that count their words and cover them all
/// is the term-frequency table of the words.
proof fn lemma_table(r: Seq<TermFreq>, keys: Seq<Seq<char>>, counts: Seq<usize>, words: Seq<Seq<char>>)
    requires
        r.len() == keys.len() == counts.len(),
        forall|m: int| 0 <= m < r.len() ==> (#[trigger] r[m]).name@ == keys[m] && r[m].tf == counts[m],
        forall|a: int, b: int| 0 <= a < b < keys.len() ==> lex_lt(#[trigger] keys[a], #[trigger] keys[b]),
        forall|m: int| 0 <= m < keys.len() ==> #[trigger] counts[m] == occurrences(words, keys[m]) && counts[m] > 0,
        forall|j: int| 0 <= j < words.len() ==> keys.contains(#[trigger] words[j]),
    ensures
        is_tf_table(r, words),
{
    assert(tf_names(r) =~= keys) by {
        assert forall|m: int| 0 <= m < r.len() implies tf_names(r)[m] == keys[m] by {
            assert(r[m].name@ == keys[m]);
        }
    }
    assert(strictly_sorted(keys));
    assert(strictly_sorted(tf_names(r)));
    assert forall|m: int| 0 <= m < r.len() implies #[trigger] r[m].tf == occurrences(words, r[m].name@) && r[m].tf > 0 by {
        assert(r[m].name@ == keys[m]);
        assert(counts[m] == occurrences(words, keys[m]));
    }
    assert forall|j: int| 0 <= j < words.len() implies tf_names(r).contains(#[trigger] words[j]) by {
        assert(keys.contains(words[j]));
        let m = choose|m: int| 0 <= m < keys.len() && keys[m] == words[j];
        assert(tf_names(r)[m] == words[j]);
    }
}

/// The word `w`, `n` times.
pub open spec fn repeated(w: Seq<char>, n: nat) -> Seq<Seq<char>> {
    Seq::new(n, |i: int| w)
}

/// Each word of `tfs`, repeated as many times as it is counted, in the
/// order of the table.
pub open spec fn expand(tfs: Seq<TermFreq>) -> Seq<Seq<char>>
    decreases tfs.len(),
{
    if tfs.len() == 0 {
        Seq::empty()
    } else {
        expand(tfs.drop_last()) + repeated(tfs.last().name@, tfs.last().tf as nat)
    }
}

/// `words` in (not strictly) increasing dictionary order.
pub open spec fn sorted_words(words: Seq<Seq<char>>) -> bool {
    forall|i: int, j: int|
        0 <= i < j < words.len() ==> #[trigger] words[i] == #[trigger] words[j] || lex_lt(
            words[i],
            words[j],
        )
}

proof fn lemma_occurrences_concat(a: Seq<Seq<char>>, b: Seq<Seq<char>>, s: Seq<char>)
    ensures
        occurrences(a + b, s) == occurrences(a, s) + occurrences(b, s),
    decreases b.len(),
{
    if b.len() == 0 {
        assert(a + b =~= a);
    } else {
        lemma_occurrences_concat(a, b.drop_last(), s);
        assert((a + b).drop_last() =~= a + b.drop_last());
        assert((a + b).last() == b.last());
    }
}

proof fn lemma_occurrences_repeated(w: Seq<char>, n: nat, s: Seq<char>)
    ensures
        occurrences(repeated(w, n), s) == if w == s {
            n
        } else {
            0
        },
    decreases n,
{
    if n > 0 {
        lemma_occurrences_repeated(w, (n - 1) as nat, s);
        assert(repeated(w, n).drop_last() =~= repeated(w, (n - 1) as nat));
    }
}

/// Every word of the expansion is a word of the table.
proof fn lemma_expand_members(tfs: Seq<TermFreq>)
    ensures
        forall|k: int| 0 <= k < expand(tfs).len() ==> tf_names(tfs).contains(#[trigger] expand(tfs)[k]),
    decreases tfs.len(),
{
    if tfs.len() > 0 {
        let rest = tfs.drop_last();
        lemma_expand_members(rest);
        let e = expand(tfs);
        let er = expand(rest);
        assert forall|k: int| 0 <= k < e.len() implies tf_names(tfs).contains(#[trigger] e[k]) by {
            if k < er.len() {
                assert(e[k] == er[k]);
                let m = choose|m: int| 0 <= m < tf_names(rest).len() && tf_names(rest)[m] == er[k];
                assert(tf_names(tfs)[m] == er[k]);
            } else {
                assert(e[k] == tfs.last().name@);
                assert(tf_names(tfs)[tfs.len() - 1] == tfs.last().name@);
            }
        }
    }
}

/// In the expansion of a table whose names are distinct, each name occurs as
/// many times as it is counted, and no other word occurs.
proof fn lemma_expand_occurrences(tfs: Seq<TermFreq>)
    requires
        forall|i: int, j: int|
            0 <= i < j < tfs.len() ==> #[trigger] tf_names(tfs)[i] != #[trigger] tf_names(tfs)[j],
    ensures
        forall|i: int| 0 <= i < tfs.len() ==> occurrences(expand(tfs), #[trigger] tfs[i].name@) == tfs[i].tf,
        forall|s: Seq<char>| !tf_names(tfs).contains(s) ==> #[trigger] occurrences(expand(tfs), s) == 0,
    decreases tfs.len(),
{
    if tfs.len() > 0 {
        let rest = tfs.drop_last();
        let last = tfs.last();
        assert forall|i: int, j: int| 0 <= i < j < rest.len() implies #[trigger] tf_names(rest)[i]
            != #[trigger] tf_names(rest)[j] by {
            assert(tf_names(tfs)[i] != tf_names(tfs)[j]);
        }
        lemma_expand_occurrences(rest);
        assert forall|i: int| 0 <= i < tfs.len() implies occurrences(expand(tfs), #[trigger] tfs[i].name@)
            == tfs[i].tf by {
            let s = tfs[i].name@;
            lemma_occurrences_concat(expand(rest), repeated(last.name@, last.tf as nat), s);
            lemma_occurrences_repeated(last.name@, last.tf as nat, s);
            if i < rest.len() {
                assert(rest[i] == tfs[i]);
                assert(tf_names(tfs)[i] != tf_names(tfs)[tfs.len() - 1]);
            } else {
                if tf_names(rest).contains(s) {
                    let m = choose|m: int| 0 <= m < tf_names(rest).len() && tf_names(rest)[m] == s;
                    assert(tf_names(tfs)[m] != tf_names(tfs)[tfs.len() - 1]);
                }
            }
        }
        assert forall|s: Seq<char>| !tf_names(tfs).contains(s) implies #[trigger] occurrences(
            expand(tfs),
            s,
        ) == 0 by {
            lemma_occurrences_concat(expand(rest), repeated(last.name@, last.tf as nat), s);
            lemma_occurrences_repeated(last.name@, last.tf as nat, s);
            if tf_names(rest).contains(s) {
                let m = choose|m: int| 0 <= m < tf_names(rest).len() && tf_names(rest)[m] == s;
                assert(tf_names(tfs)[m] == s);
            }
            assert(tf_names(tfs)[tfs.len() - 1] == last.name@);
        }
    }
}

/// The expansion of a strictly sorted table is sorted.
proof fn lemma_expand_sorted(tfs: Seq<TermFreq>)
    requires
        strictly_sorted(tf_names(tfs)),
    ensures
        sorted_words(expand(tfs)),
    decreases tfs.len(),
{
    if tfs.len() > 0 {
        let rest = tfs.drop_last();
        let last = tfs.last();
        assert forall|a: int, b: int| 0 <= a < b < tf_names(rest).len() implies lex_lt(
            #[trigger] tf_names(rest)[a],
            #[trigger] tf_names(rest)[b],
        ) by {
            assert(lex_lt(tf_names(tfs)[a], tf_names(tfs)[b]));
        }
        lemma_expand_sorted(rest);
        lemma_expand_members(rest);
        let e = expand(tfs);
        let er = expand(rest);
        assert forall|i: int, j: int| 0 <= i < j < e.len() implies #[trigger] e[i] == #[trigger] e[j]
            || lex_lt(e[i], e[j]) by {
            if j < er.len() {
                assert(e[i] == er[i] && e[j] == er[j]);
            } else if i >= er.len() {
                assert(e[i] == last.name@ && e[j] == last.name@);
            } else {
                assert(e[i] == er[i]);
                assert(e[j] == last.name@);
                assert(tf_names(rest).contains(er[i]));
                let m = choose|m: int| 0 <= m < tf_names(rest).len() && tf_names(rest)[m] == er[i];
                assert(lex_lt(tf_names(tfs)[m], tf_names(tfs)[tfs.len() - 1]));
            }
        }
    }
}

/// Writing each word of a term-frequency table out as many times as it is
/// counted gives the words sorted: in dictionary order, each word as often as
/// in the paper; and that list has the same table.
pub proof fn lemma_tf_expand(tfs: Seq<TermFreq>, words: Seq<Seq<char>>)
    requires
        is_tf_table(tfs, words),
    ensures
        sorted_words(expand(tfs)),
        forall|s: Seq<char>| #[trigger] occurrences(expand(tfs), s) == occurrences(words, s),
        is_tf_table(tfs, expand(tfs)),
{
    let names = tf_names(tfs);
    assert forall|i: int, j: int| 0 <= i < j < tfs.len() implies #[trigger] names[i]
        != #[trigger] names[j] by {
        assert(lex_lt(names[i], names[j]));
        lemma_lex_irreflexive(names[i]);
    }
    lemma_expand_occurrences(tfs);
    lemma_expand_sorted(tfs);
    lemma_expand_members(tfs);
    let e = expand(tfs);
    assert forall|s: Seq<char>| #[trigger] occurrences(e, s) == occurrences(words, s) by {
        if names.contains(s) {
            let m = choose|m: int| 0 <= m < names.len() && names[m] == s;
            assert(occurrences(e, tfs[m].name@) == tfs[m].tf);
            assert(tfs[m].tf == occurrences(words, tfs[m].name@));
        } else {
            assert(occurrences(e, s) == 0);
            if occurrences(words, s) > 0 {
                lemma_occurs_at(words, s);
                let j = choose|j: int| 0 <= j < words.len() && words[j] == s;
                assert(names.contains(words[j]));
            }
        }
    }
    assert forall|i: int| 0 <= i < tfs.len() implies #[trigger] tfs[i].tf == occurrences(e, tfs[i].name@)
        && tfs[i].tf > 0 by {
        assert(occurrences(e, tfs[i].name@) == tfs[i].tf);
    }
}

/// Cutting the written-out words again gives the same table back.
pub proof fn lemma_tf_roundtrip(tfs: Seq<TermFreq>, words: Seq<Seq<char>>, again: Seq<TermFreq>)
    requires
        is_tf_table(tfs, words),
        is_tf_table(again, expand(tfs)),
    ensures
        tf_names(again) == tf_names(tfs),
        forall|i: int| 0 <= i < again.len() ==> #[trigger] again[i].tf == tfs[i].tf,
{
    lemma_tf_expand(tfs, words);
    lemma_tf_table_unique(again, expand(tfs), tfs, expand(tfs));
}

/// The term-frequency table of the cut paper `sep_text`: the distinct words in
/// dictionary order, each with the number of times it occurs.
#[verifier::spinoff_prover]
pub fn get_tf_array(sep_text: &[&str]) -> (r: Vec<TermFreq>)
    ensures
        is_tf_table(r@, texts(sep_text@)),
{
    let ghost words = texts(sep_text@);
    let mut keys: Vec<Vec<char>> = Vec::new();
    let mut names: Vec<&str> = Vec::new();
    let mut counts: Vec<usize> = Vec::new();
    let mut k: usize = 0;
    while k < sep_text.len()
        invariant
            k <= sep_text.len(),
            words == texts(sep_text@),
            keys.len() == names.len() == counts.len(),
            counts.len() <= k,
            forall|i: int| 0 <= i < keys.len() ==> #[trigger] keys@[i]@ == names@[i]@,
            forall|i: int, j: int|
                0 <= i < j < keys.len() ==> lex_lt(#[trigger] keys@[i]@, #[trigger] keys@[j]@),
            forall|i: int|
                0 <= i < keys.len() ==> #[trigger] counts@[i] == occurrences(
                    words.take(k as int),
                    keys@[i]@,
                ) && counts@[i] > 0,
            forall|j: int|
                0 <= j < k ==> exists|i: int|
                    0 <= i < keys.len() && #[trigger] keys@[i]@ == #[trigger] words[j],
        decreases sep_text.len() - k,
    {
        let w = sep_text[k];
        let key = chars_of(w);
        let ghost old_keys = keys@;
        let ghost prefix = words.take(k as int);
        assert(words.take(k + 1) =~= prefix.push(key@));
        let mut p: usize = 0;
        let mut found = false;
        while p < keys.len()
            invariant_except_break
                !found,
            invariant
                p <= keys.len(),
                forall|i: int| 0 <= i < p ==> lex_lt(#[trigger] keys@[i]@, key@),
            ensures
                p <= keys.len(),
                forall|i: int| 0 <= i < p ==> lex_lt(#[trigger] keys@[i]@, key@),
                found ==> p < keys.len() && keys@[p as int]@ == key@,
                !found && p < keys.len() ==> lex_lt(key@, keys@[p as int]@),
            decreases keys.len() - p,
        {
            let c = compare_words(&keys[p], &key);
            if c == 0 {
                found = true;
                break;
            }
            if c > 0 {
                break;
            }
            p = p + 1;
        }
        if found {
            proof {
                assert forall|i: int| 0 <= i < keys.len() implies #[trigger] counts@[i] + (if i
                    == p {
                    1int
                } else {
                    0int
                }) == occurrences(words.take(k + 1), keys@[i]@) by {
                    lemma_occurrences_push(prefix, key@, keys@[i]@);
                    if i != p {
                        if i < p {
                            lemma_lex_total(keys@[i]@, keys@[p as int]@);
                        } else {
                            lemma_lex_total(keys@[p as int]@, keys@[i]@);
                        }
                    }
                }
            }
            proof {
                lemma_occurrences_bound(prefix, key@);
            }
            let c = counts[p];
            counts.set(p, c + 1);
            proof {
                assert forall|j: int| 0 <= j < k + 1 implies exists|i: int|
                    0 <= i < keys.len() && #[trigger] keys@[i]@ == #[trigger] words[j] by {
                    if j == k {
                        assert(keys@[p as int]@ == words[j]);
                    }
                }
            }
        } else {
            proof {
                // `w` has not been seen before: no key equals it.
                lemma_lex_irreflexive(key@);
                assert forall|i: int| 0 <= i < keys.len() implies #[trigger] keys@[i]@ != key@ by {
                    if i > p {
                        lemma_lex_transitive(key@, keys@[p as int]@, keys@[i]@);
                    }
                }
                if occurrences(prefix, key@) > 0 {
                    lemma_occurs_at(prefix, key@);
                    let j = choose|j: int| 0 <= j < prefix.len() && prefix[j] == key@;
                    assert(words[j] == key@);
                    let i = choose|i: int| 0 <= i < keys.len() && #[trigger] keys@[i]@ == #[trigger] words[j];
                    assert(keys@[i]@ == key@);
                }
            }
            keys.insert(p, key);
            names.insert(p, w);
            counts.insert(p, 1);
            proof {
                assert forall|i: int| 0 <= i < keys.len() implies #[trigger] keys@[i]@ == names@[i]@ by {
                    if i > p {
                        assert(keys@[i] == old_keys[i - 1]);
                    }
                }
                assert forall|i: int, j: int|
                    0 <= i < j < keys.len() implies lex_lt(#[trigger] keys@[i]@, #[trigger] keys@[j]@) by {
                    if i < p && j == p {
                    } else if i == p && j > p {
                        if j - 1 > p {
                            lemma_lex_transitive(key@, old_keys[p as int]@, old_keys[j - 1]@);
                        }
                    } else if i < p && j > p {
                        assert(lex_lt(old_keys[i]@, old_keys[j - 1]@));
                    } else if i > p {
                        assert(lex_lt(old_keys[i - 1]@, old_keys[j - 1]@));
                    }
                }
                assert forall|i: int|
                    0 <= i < keys.len() implies #[trigger] counts@[i] == occurrences(
                        words.take(k + 1),
                        keys@[i]@,
                    ) && counts@[i] > 0 by {
                    lemma_occurrences_push(prefix, key@, keys@[i]@);
                    if i < p {
                        assert(keys@[i]@ != key@);
                    } else if i > p {
                        assert(keys@[i] == old_keys[i - 1]);
                        assert(old_keys[i - 1]@ != key@);
                    }
                }
                assert forall|j: int| 0 <= j < k + 1 implies exists|i: int|
                    0 <= i < keys.len() && #[trigger] keys@[i]@ == #[trigger] words[j] by {
                    if j == k {
                        assert(keys@[p as int]@ == words[j]);
                    } else {
                        let i = choose|i: int|
                            0 <= i < old_keys.len() && #[trigger] old_keys[i]@ == #[trigger] words[j];
                        if i < p {
                            assert(keys@[i] == old_keys[i]);
                        } else {
                            assert(keys@[i + 1] == old_keys[i]);
                        }
                    }
                }
            }
        }
        k = k + 1;
    }
    assert(words.take(sep_text.len() as int) =~= words);
    let ghost key_views = keys@.map_values(|k: Vec<char>| k@);
    assert forall|m: int| 0 <= m < keys.len() implies #[trigger] counts@[m] == occurrences(words, key_views[m]) && counts@[m] > 0 by {
        assert(key_views[m] == keys@[m]@);
    }
    assert forall|j: int| 0 <= j < words.len() implies key_views.contains(#[trigger] words[j]) by {
        let m = choose|m: int| 0 <= m < keys.len() && #[trigger] keys@[m]@ == #[trigger] words[j];
        assert(key_views[m] == words[j]);
    }
    assert forall|a: int, b: int| 0 <= a < b < key_views.len() implies lex_lt(#[trigger] key_views[a], #[trigger] key_views[b]) by {
        assert(lex_lt(keys@[a]@, keys@[b]@));
    }
    let mut r: Vec<TermFreq> = Vec::new();
    let mut i: usize = 0;
    while i < names.len()
        invariant
            i <= names.len(),
            keys.len() == names.len() == counts.len(),
            r.len() == i,
            forall|m: int| 0 <= m < i ==> (#[trigger] r@[m]).name@ == keys@[m]@ && r@[m].tf == counts@[m],
            forall|m: int| 0 <= m < keys.len() ==> #[trigger] keys@[m]@ == names@[m]@,
            key_views == keys@.map_values(|k: Vec<char>| k@),
        decreases names.len() - i,
    {
        r.push(TermFreq { name: names[i].to_owned(), tf: counts[i] });
        i = i + 1;
    }
    proof {
        lemma_table(r@, key_views, counts@, words);
    }
    r
}

} // verus!
