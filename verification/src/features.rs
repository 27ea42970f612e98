//! The feature names: every word seen, with its frequency count, and the
//! changes that adding a paper makes to them.
use vstd::prelude::*;
use crate::order::occurrences;
use crate::segment::texts;

verus! {

/// A feature name: a word and its frequency count `df`.
#[derive(Debug, PartialEq, Eq)]
pub struct FeatureName {
    pub name: String,
    pub df: i64,
}

/// A change to the stored feature names.
#[derive(Debug, PartialEq, Eq)]
pub enum FeatureAction {
    /// Set the count of the stored name `name` to `df`.
    Update { name: String, df: i64 },
    /// Store the new name `name` with count `df`.
    Add { name: String, df: i64 },
}

/// What a [`FeatureAction`] does, over plain values.
pub enum FeatureChange {
    Update { name: Seq<char>, df: int },
    Add { name: Seq<char>, df: int },
}

/// A list of feature names as (word, count) pairs.
pub open spec fn name_view(names: Seq<FeatureName>) -> Seq<(Seq<char>, int)> {
    names.map_values(|n: FeatureName| (n.name@, n.df as int))
}

/// What a feature action does.
pub open spec fn change_of(a: FeatureAction) -> FeatureChange {
    match a {
        FeatureAction::Update { name, df } => FeatureChange::Update { name: name@, df: df as int },
        FeatureAction::Add { name, df } => FeatureChange::Add { name: name@, df: df as int },
    }
}

/// What a list of feature actions does.
pub open spec fn changes_of(actions: Seq<FeatureAction>) -> Seq<FeatureChange> {
    actions.map_values(|a: FeatureAction| change_of(a))
}

/// The index of the first entry of `names` for the word `w`, or the length of
/// `names` if there is none.
pub open spec fn find_first(names: Seq<(Seq<char>, int)>, w: Seq<char>) -> int
    decreases names.len(),
{
    if names.len() == 0 {
        0
    } else if names[0].0 == w {
        0
    } else {
        1 + find_first(names.drop_first(), w)
    }
}

/// The count that `names` gives the word `w`: that of its first entry for
/// `w`, or 0 if it has none.
pub open spec fn df_of(names: Seq<(Seq<char>, int)>, w: Seq<char>) -> int {
    let i = find_first(names, w);
    if i < names.len() {
        names[i].1
    } else {
        0
    }
}

/// One occurrence of the word `w`: the first entry for `w` counts one more,
/// or, with no entry, `w` is added with count 1.
pub open spec fn step(names: Seq<(Seq<char>, int)>, w: Seq<char>) -> (
    Seq<(Seq<char>, int)>,
    FeatureChange,
) {
    let i = find_first(names, w);
    if i < names.len() {
        (names.update(i, (w, names[i].1 + 1)), FeatureChange::Update { name: w, df: names[i].1 + 1 })
    } else {
        (names.push((w, 1)), FeatureChange::Add { name: w, df: 1 })
    }
}

/// The names after the occurrences `words`, one after another, and the
/// changes made on the way, in order.
pub open spec fn plan(names: Seq<(Seq<char>, int)>, words: Seq<Seq<char>>) -> (
    Seq<(Seq<char>, int)>,
    Seq<FeatureChange>,
)
    decreases words.len(),
{
    if words.len() == 0 {
        (names, Seq::empty())
    } else {
        let (before, changes) = plan(names, words.drop_last());
        let (after, change) = step(before, words.last());
        (after, changes.push(change))
    }
}

/// No count overflows while `words` are counted into `names`.
pub open spec fn counts_fit(names: Seq<(Seq<char>, int)>, words: Seq<Seq<char>>) -> bool {
    forall|s: Seq<char>| df_of(names, s) + occurrences(words, s) <= i64::MAX
}

/// `find_first` finds the first entry for its word, if there is one.
pub proof fn lemma_find_first(names: Seq<(Seq<char>, int)>, w: Seq<char>)
    ensures
        0 <= find_first(names, w) <= names.len(),
        find_first(names, w) < names.len() ==> names[find_first(names, w)].0 == w,
        forall|j: int| 0 <= j < find_first(names, w) ==> #[trigger] names[j].0 != w,
    decreases names.len(),
{
    if names.len() > 0 && names[0].0 != w {
        lemma_find_first(names.drop_first(), w);
        assert forall|j: int| 0 <= j < find_first(names, w) implies #[trigger] names[j].0 != w by {
            if j > 0 {
                assert(names[j] == names.drop_first()[j - 1]);
            }
        }
    }
}

/// An index whose entry is for `w`, with none for `w` before it, is where `find_first` looks.
pub proof fn lemma_find_first_at(names: Seq<(Seq<char>, int)>, w: Seq<char>, i: int)
    requires
        0 <= i <= names.len(),
        i < names.len() ==> names[i].0 == w,
        forall|j: int| 0 <= j < i ==> #[trigger] names[j].0 != w,
    ensures
        find_first(names, w) == i,
{
    lemma_find_first(names, w);
    let f = find_first(names, w);
    if f < i {
        assert(names[f].0 != w);
    }
    if i < f {
        assert(names[i].0 != w);
    }
}

/// One occurrence of `w` counts one more for `w` and nothing for any other word.
pub proof fn lemma_step_df(names: Seq<(Seq<char>, int)>, w: Seq<char>, s: Seq<char>)
    ensures
        df_of(step(names, w).0, s) == df_of(names, s) + if w == s {
            1int
        } else {
            0int
        },
{
    lemma_find_first(names, w);
    lemma_find_first(names, s);
    let i = find_first(names, w);
    let after = step(names, w).0;
    let f = find_first(names, s);
    if i < names.len() {
        assert forall|j: int| 0 <= j < f implies #[trigger] after[j].0 != s by {
            assert(names[j].0 != s);
        }
        lemma_find_first_at(after, s, f);
    } else if w == s {
        assert forall|j: int| 0 <= j < names.len() implies #[trigger] after[j].0 != s by {
            assert(names[j].0 != s);
        }
        lemma_find_first_at(after, s, names.len() as int);
    } else {
        assert forall|j: int| 0 <= j < f implies #[trigger] after[j].0 != s by {
            assert(names[j].0 != s);
        }
        if f == names.len() {
            assert(after[f].0 != s);
            assert forall|j: int| 0 <= j < after.len() implies #[trigger] after[j].0 != s by {
                if j < f {
                    assert(names[j].0 != s);
                }
            }
            lemma_find_first_at(after, s, after.len() as int);
        } else {
            lemma_find_first_at(after, s, f);
        }
    }
}

/// The count of each word after counting `words` into `names` is its count
/// before plus the number of times it occurs in `words`.
pub proof fn lemma_plan_df(names: Seq<(Seq<char>, int)>, words: Seq<Seq<char>>, s: Seq<char>)
    ensures
        df_of(plan(names, words).0, s) == df_of(names, s) + occurrences(words, s),
    decreases words.len(),
{
    if words.len() > 0 {
        lemma_plan_df(names, words.drop_last(), s);
        lemma_step_df(plan(names, words.drop_last()).0, words.last(), s);
    }
}

/// A word occurs no more often in a prefix than in the whole.
proof fn lemma_occurrences_prefix(words: Seq<Seq<char>>, k: int, s: Seq<char>)
    requires
        0 <= k <= words.len(),
    ensures
        occurrences(words.take(k), s) <= occurrences(words, s),
    decreases words.len() - k,
{
    if k < words.len() {
        lemma_occurrences_prefix(words, k + 1, s);
        assert(words.take(k + 1).drop_last() =~= words.take(k));
    } else {
        assert(words.take(k) =~= words);
    }
}

/// No two entries of `names` are for the same word.
pub open spec fn distinct_names(names: Seq<(Seq<char>, int)>) -> bool {
    forall|i: int, j: int| 0 <= i < j < names.len() ==> #[trigger] names[i].0 != #[trigger] names[j].0
}

/// The word that a change is about.
pub open spec fn change_name(c: FeatureChange) -> Seq<char> {
    match c {
        FeatureChange::Update { name, .. } => name,
        FeatureChange::Add { name, .. } => name,
    }
}

/// Feature names without repeats keep none after a paper is counted into them.
pub proof fn lemma_plan_distinct(names: Seq<(Seq<char>, int)>, words: Seq<Seq<char>>)
    requires
        distinct_names(names),
    ensures
        distinct_names(plan(names, words).0),
    decreases words.len(),
{
    if words.len() > 0 {
        lemma_plan_distinct(names, words.drop_last());
        let before = plan(names, words.drop_last()).0;
        let w = words.last();
        lemma_find_first(before, w);
        let after = plan(names, words).0;
        assert forall|i: int, j: int| 0 <= i < j < after.len() implies #[trigger] after[i].0
            != #[trigger] after[j].0 by {
            if j == before.len() {
                assert(before[i].0 != w);
            } else {
                assert(before[i].0 != before[j].0);
            }
        }
    }
}

/// Counting a paper keeps every stored name at its place, and adds only words
/// of the paper that were not stored.
pub proof fn lemma_plan_keeps_names(names: Seq<(Seq<char>, int)>, words: Seq<Seq<char>>)
    ensures
        plan(names, words).0.len() >= names.len(),
        forall|i: int| 0 <= i < names.len() ==> (#[trigger] plan(names, words).0[i]).0 == names[i].0,
        forall|i: int|
            names.len() <= i < plan(names, words).0.len() ==> words.contains(
                (#[trigger] plan(names, words).0[i]).0,
            ) && df_of(names, plan(names, words).0[i].0) == 0,
    decreases words.len(),
{
    if words.len() > 0 {
        let rest = words.drop_last();
        lemma_plan_keeps_names(names, rest);
        let before = plan(names, rest).0;
        let w = words.last();
        lemma_find_first(before, w);
        let after = plan(names, words).0;
        assert forall|i: int| names.len() <= i < after.len() implies words.contains(
            (#[trigger] after[i]).0,
        ) && df_of(names, after[i].0) == 0 by {
            if i < before.len() {
                let k = choose|k: int| 0 <= k < rest.len() && rest[k] == before[i].0;
                assert(words[k] == rest[k]);
                assert(after[i].0 == before[i].0);
            } else {
                assert(words[words.len() - 1] == w);
                // `w` had no entry at all, so none among the stored names.
                lemma_find_first(names, w);
                if find_first(names, w) < names.len() {
                    assert(before[find_first(names, w)].0 == w);
                }
                assert(after[i].0 == w);
            }
        }
    }
}

/// Counting one paper gives one change per word, in order, each about that word.
pub proof fn lemma_plan_changes(names: Seq<(Seq<char>, int)>, words: Seq<Seq<char>>)
    ensures
        plan(names, words).1.len() == words.len(),
        forall|k: int| 0 <= k < words.len() ==> change_name(#[trigger] plan(names, words).1[k]) == words[k],
    decreases words.len(),
{
    if words.len() > 0 {
        lemma_plan_changes(names, words.drop_last());
    }
}

/// Counting two papers one after the other is counting their words together:
/// the names end the same, and the changes of the second follow those of the first.
pub proof fn lemma_plan_append(
    names: Seq<(Seq<char>, int)>,
    first: Seq<Seq<char>>,
    second: Seq<Seq<char>>,
)
    ensures
        plan(names, first + second) == (
            plan(plan(names, first).0, second).0,
            plan(names, first).1 + plan(plan(names, first).0, second).1,
        ),
    decreases second.len(),
{
    if second.len() == 0 {
        assert(first + second =~= first);
        assert(plan(names, first).1 + Seq::<FeatureChange>::empty() =~= plan(names, first).1);
    } else {
        lemma_plan_append(names, first, second.drop_last());
        assert((first + second).drop_last() =~= first + second.drop_last());
        assert((first + second).last() == second.last());
        let mid = plan(names, first);
        let tail = plan(mid.0, second.drop_last());
        let (after, change) = step(tail.0, second.last());
        assert(mid.1 + tail.1.push(change) =~= (mid.1 + tail.1).push(change));
    }
}

/// A count cut short after its first `k` words leaves the names as counting
/// just those words does, after the changes issued for them, which are the
/// first `k` changes; so names without repeats keep none then either.
pub proof fn lemma_plan_prefix(names: Seq<(Seq<char>, int)>, words: Seq<Seq<char>>, k: int)
    requires
        0 <= k <= words.len(),
    ensures
        plan(names, words).1.take(k) == plan(names, words.take(k)).1,
        distinct_names(names) ==> distinct_names(plan(names, words.take(k)).0),
{
    let first = words.take(k);
    let second = words.skip(k);
    assert(first + second =~= words);
    lemma_plan_append(names, first, second);
    lemma_plan_changes(names, first);
    let head = plan(names, first).1;
    let tail = plan(plan(names, first).0, second).1;
    assert((head + tail).take(k) =~= head);
    if distinct_names(names) {
        lemma_plan_distinct(names, first);
    }
}

/// Counts the cut paper `sep_text` into the stored feature names `names`,
/// word by word: the first entry for the word counts one more, or the word is
/// added with count 1. Returns the changes to store, in order.
#[verifier::spinoff_prover]
pub fn update_feature_names(sep_text: &[&str], names: &mut Vec<FeatureName>) -> (actions: Vec<
    FeatureAction,
>)
    requires
        counts_fit(name_view(old(names)@), texts(sep_text@)),
    ensures
        (name_view(final(names)@), changes_of(actions@)) == plan(
            name_view(old(names)@),
            texts(sep_text@),
        ),
{
    let ghost start = name_view(names@);
    let ghost words = texts(sep_text@);
    let mut actions: Vec<FeatureAction> = Vec::new();
    let mut k: usize = 0;
    while k < sep_text.len()
        invariant
            k <= sep_text.len(),
            words == texts(sep_text@),
            counts_fit(start, words),
            (name_view(names@), changes_of(actions@)) == plan(start, words.take(k as int)),
        decreases sep_text.len() - k,
    {
        let ghost before = name_view(names@);
        let w: String = sep_text[k].to_owned();
        assert(words.take(k + 1).drop_last() =~= words.take(k as int));
        assert(words.take(k + 1).last() == w@);
        let mut i: usize = 0;
        let mut found = false;
        while i < names.len()
            invariant_except_break
                !found,
            invariant
                i <= names.len(),
                before == name_view(names@),
                forall|j: int| 0 <= j < i ==> #[trigger] before[j].0 != w@,
            ensures
                i <= names.len(),
                forall|j: int| 0 <= j < i ==> #[trigger] before[j].0 != w@,
                found ==> i < names.len() && before[i as int].0 == w@,
                !found ==> i == names.len(),
            decreases names.len() - i,
        {
            if names[i].name == w {
                found = true;
                break;
            }
            i = i + 1;
        }
        proof {
            lemma_find_first_at(before, w@, i as int);
            lemma_plan_df(start, words.take(k as int), w@);
            lemma_plan_df(start, words.take(k + 1), w@);
            lemma_occurrences_prefix(words, k + 1, w@);
        }
        if found {
            let df = names[i].df + 1;
            let name = names[i].name.clone();
            names.set(i, FeatureName { name, df });
            actions.push(FeatureAction::Update { name: w, df });
            assert(name_view(names@) =~= before.update(i as int, (w@, df as int)));
        } else {
            names.push(FeatureName { name: w.clone(), df: 1 });
            actions.push(FeatureAction::Add { name: w, df: 1 });
            assert(name_view(names@) =~= before.push((w@, 1int)));
        }
        assert(changes_of(actions@) =~= plan(start, words.take(k as int)).1.push(
            step(before, w@).1,
        ));
        k = k + 1;
    }
    assert(words.take(sep_text.len() as int) =~= words);
    actions
}

} // verus!
