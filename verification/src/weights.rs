//! Which term frequency and which frequency count go into each tf-idf weight.
use vstd::prelude::*;
use crate::features::{find_first, lemma_find_first, lemma_find_first_at, FeatureName};
use crate::tf::TermFreq;

verus! {

/// A term-frequency table as (word, count) pairs.
pub open spec fn tf_view(paper: Seq<TermFreq>) -> Seq<(Seq<char>, int)> {
    paper.map_values(|t: TermFreq| (t.name@, t.tf as int))
}

/// The weight input of the feature name `name` (count `df`) for a paper
/// with term frequencies `paper`: the term frequency of the first entry of the
/// paper for `name`, with `df`; none when the paper lacks the word.
pub open spec fn weight_input(paper: Seq<(Seq<char>, int)>, name: Seq<char>, df: i64) -> Option<
    (usize, i64),
> {
    let f = find_first(paper, name);
    if f < paper.len() {
        Some((paper[f].1 as usize, df))
    } else {
        None
    }
}

/// A feature name gets an input exactly when the paper has an entry whose
/// word is the name, whole; the input is the first such entry's count with the
/// name's count.
pub proof fn lemma_weight_input_exact(paper: Seq<TermFreq>, name: Seq<char>, df: i64)
    ensures
        weight_input(tf_view(paper), name, df) is Some <==> exists|j: int|
            0 <= j < paper.len() && #[trigger] paper[j].name@ == name,
        weight_input(tf_view(paper), name, df) is Some ==> exists|j: int|
            #![trigger paper[j]]
            0 <= j < paper.len() && paper[j].name@ == name && weight_input(tf_view(paper), name, df)
                == Some((paper[j].tf, df)) && forall|k: int| 0 <= k < j ==> paper[k].name@ != name,
{
    let pv = tf_view(paper);
    lemma_find_first(pv, name);
    let f = find_first(pv, name);
    if f < pv.len() {
        assert(paper[f].name@ == pv[f].0);
        assert forall|k: int| 0 <= k < f implies paper[k].name@ != name by {
            assert(pv[k].0 == paper[k].name@);
        }
    }
    assert forall|j: int| 0 <= j < paper.len() && #[trigger] paper[j].name@ == name implies f < pv.len() by {
        if f >= pv.len() {
            assert(pv[j].0 == paper[j].name@);
        }
    }
}

/// For each feature name, in order, the term frequency of that word in
/// `paper` and the name's frequency count, or `None` where the paper lacks the
/// word: the inputs of the paper's tf-idf vector.
pub fn weight_inputs(paper: &[TermFreq], names: &[FeatureName]) -> (r: Vec<Option<(usize, i64)>>)
    ensures
        r.len() == names.len(),
        forall|i: int|
            0 <= i < names.len() ==> #[trigger] r@[i] == weight_input(
                tf_view(paper@),
                names@[i].name@,
                names@[i].df,
            ),
        forall|i: int|
            0 <= i < names.len() ==> ((#[trigger] r@[i]) is Some <==> exists|j: int|
                0 <= j < paper.len() && #[trigger] paper@[j].name@ == names@[i].name@),
        forall|i: int|
            0 <= i < names.len() && (#[trigger] r@[i]) is Some ==> r@[i].unwrap().1 == names@[i].df
                && exists|j: int|
                #![trigger paper@[j]]
                0 <= j < paper.len() && paper@[j].name@ == names@[i].name@ && paper@[j].tf
                    == r@[i].unwrap().0 && forall|k: int| 0 <= k < j ==> paper@[k].name@
                    != names@[i].name@,
{
    let ghost pv = tf_view(paper@);
    let mut r: Vec<Option<(usize, i64)>> = Vec::new();
    let mut i: usize = 0;
    while i < names.len()
        invariant
            i <= names.len(),
            r.len() == i,
            pv == tf_view(paper@),
            forall|m: int|
                0 <= m < i ==> #[trigger] r@[m] == weight_input(pv, names@[m].name@, names@[m].df),
        decreases names.len() - i,
    {
        let mut j: usize = 0;
        let mut found = false;
        while j < paper.len()
            invariant_except_break
                !found,
            invariant
                j <= paper.len(),
                i < names.len(),
                pv == tf_view(paper@),
                forall|x: int| 0 <= x < j ==> #[trigger] pv[x].0 != names@[i as int].name@,
            ensures
                j <= paper.len(),
                forall|x: int| 0 <= x < j ==> #[trigger] pv[x].0 != names@[i as int].name@,
                found ==> j < paper.len() && pv[j as int].0 == names@[i as int].name@,
                !found ==> j == paper.len(),
            decreases paper.len() - j,
        {
            if paper[j].name == names[i].name {
                found = true;
                break;
            }
            j = j + 1;
        }
        proof {
            lemma_find_first_at(pv, names@[i as int].name@, j as int);
        }
        if found {
            r.push(Some((paper[j].tf, names[i].df)));
        } else {
            r.push(None);
        }
        i = i + 1;
    }
    proof {
        assert forall|i: int| 0 <= i < names.len() implies ((#[trigger] r@[i]) is Some <==> exists|j: int|
            0 <= j < paper.len() && #[trigger] paper@[j].name@ == names@[i].name@) by {
            lemma_weight_input_exact(paper@, names@[i].name@, names@[i].df);
        }
        assert forall|i: int|
            0 <= i < names.len() && (#[trigger] r@[i]) is Some implies r@[i].unwrap().1 == names@[i].df
                && exists|j: int|
                #![trigger paper@[j]]
                0 <= j < paper.len() && paper@[j].name@ == names@[i].name@ && paper@[j].tf
                    == r@[i].unwrap().0 && forall|k: int| 0 <= k < j ==> paper@[k].name@
                    != names@[i].name@ by {
            lemma_weight_input_exact(paper@, names@[i].name@, names@[i].df);
        }
    }
    r
}

} // verus!
