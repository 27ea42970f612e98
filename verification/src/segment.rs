//! Cutting text into words with jieba, and dropping the stop words.
use vstd::prelude::*;
use vstd::hash_set::StringHashSet;
use jieba_rs::Jieba;

verus! {

/// The jieba word segmenter, carried through unchanged.
#[verifier::external_type_specification]
#[verifier::external_body]
pub struct ExJieba(Jieba);

/// The characters of `words`, one word after another.
pub open spec fn joined(words: Seq<Seq<char>>) -> Seq<char>
    decreases words.len(),
{
    if words.len() == 0 {
        Seq::empty()
    } else {
        joined(words.drop_last()) + words.last()
    }
}

/// The text of each word in `words`.
pub open spec fn texts(words: Seq<&str>) -> Seq<Seq<char>> {
    words.map_values(|w: &str| w@)
}

/// Whether `word` stays once the stop words `stop` are dropped.
pub open spec fn kept(stop: Set<Seq<char>>, word: &str) -> bool {
    !stop.contains(word@)
}

/// `words` without the stop words `stop`, in their order.
pub open spec fn kept_words(words: Seq<&str>, stop: Set<Seq<char>>) -> Seq<&str> {
    words.filter(|w: &str| kept(stop, w))
}

/// A character of jieba's word class: the CJK ideograph ranges, ASCII letters
/// and digits, and `+ # & . _ % -`. Runs of these are what jieba looks up in
/// its dictionary; every other character is cut off on its own.
pub open spec fn is_word_char(c: char) -> bool {
    let v = c as u32;
    ||| 0x3400 <= v <= 0x4DBF
    ||| 0x4E00 <= v <= 0x9FFF
    ||| 0xF900 <= v <= 0xFAFF
    ||| 0x20000 <= v <= 0x2A6DF
    ||| 0x2A700 <= v <= 0x2B73F
    ||| 0x2B740 <= v <= 0x2B81F
    ||| 0x2B820 <= v <= 0x2CEAF
    ||| 0x2CEB0 <= v <= 0x2EBEF
    ||| 0x2F800 <= v <= 0x2FA1F
    ||| 'a' <= c <= 'z'
    ||| 'A' <= c <= 'Z'
    ||| '0' <= c <= '9'
    ||| c == '+' || c == '#' || c == '&' || c == '.' || c == '_' || c == '%' || c == '-'
}

/// A word as jieba cuts one: not empty, and either made only of word-class
/// characters (a piece of one run of them), or a single character, or a
/// carriage return with its line feed.
pub open spec fn is_jieba_word(w: Seq<char>) -> bool {
    &&& w.len() > 0
    &&& {
        ||| forall|i: int| 0 <= i < w.len() ==> is_word_char(#[trigger] w[i])
        ||| w.len() == 1
        ||| w == seq!['\r', '\n']
    }
}

/// The words that the segmenter `jieba` cuts `text` into, without the hidden
/// Markov model: a function of the segmenter (its dictionary) and the text.
pub uninterp spec fn jieba_words(jieba: Jieba, text: Seq<char>) -> Seq<Seq<char>>;

/// `Jieba::cut` without the hidden Markov model: splits `text` into words
/// by the segmenter's dictionary. The contract names the words, as a function
/// of the segmenter and the text, and states that they spell `text` again and
/// that each is a word as jieba cuts one: a character outside the word class
/// stands alone (a carriage return keeps its line feed), and no word mixes
/// word-class characters with others. Where a run of word-class characters is
/// cut, which the dictionary decides, is left to the name.
#[verifier::external_body]
fn jieba_cut<'a>(jieba: &Jieba, text: &'a str) -> (words: Vec<&'a str>)
    ensures
        texts(words@) == jieba_words(*jieba, text@),
        joined(texts(words@)) == text@,
        forall|i: int| 0 <= i < words.len() ==> is_jieba_word(#[trigger] words@[i]@),
{
    jieba.cut(text, false)
}

/// Whether the word `w` is not one of the stop words `stop`.
pub open spec fn not_stop_word(stop: Set<Seq<char>>, w: Seq<char>) -> bool {
    !stop.contains(w)
}

/// The words `words` without the stop words `stop`, in their order.
pub open spec fn drop_stop_words(words: Seq<Seq<char>>, stop: Set<Seq<char>>) -> Seq<Seq<char>> {
    words.filter(|w: Seq<char>| not_stop_word(stop, w))
}

/// Dropping stop words from a list with one more word: a stop word adds
/// nothing, any other word is kept at the end; an empty list stays empty.
pub proof fn lemma_drop_stop_words_push(words: Seq<Seq<char>>, w: Seq<char>, stop: Set<Seq<char>>)
    ensures
        drop_stop_words(Seq::empty(), stop) == Seq::<Seq<char>>::empty(),
        drop_stop_words(words.push(w), stop) == if stop.contains(w) {
            drop_stop_words(words, stop)
        } else {
            drop_stop_words(words, stop).push(w)
        },
{
    words.lemma_filter_push(w, |w: Seq<char>| not_stop_word(stop, w));
    reveal(Seq::filter);
}

/// Dropping stop words from slices drops them from the slices' texts.
pub proof fn lemma_texts_kept(words: Seq<&str>, stop: Set<Seq<char>>)
    ensures
        texts(kept_words(words, stop)) == drop_stop_words(texts(words), stop),
    decreases words.len(),
{
    if words.len() > 0 {
        let rest = words.drop_last();
        let w = words.last();
        lemma_texts_kept(rest, stop);
        assert(rest.push(w) =~= words);
        rest.lemma_filter_push(w, |w: &str| kept(stop, w));
        assert(texts(rest).push(w@) =~= texts(words));
        texts(rest).lemma_filter_push(w@, |w: Seq<char>| not_stop_word(stop, w));
        assert(texts(rest.filter(|w: &str| kept(stop, w)).push(w)) =~= texts(
            rest.filter(|w: &str| kept(stop, w)),
        ).push(w@));
    } else {
        reveal(Seq::filter);
        assert(texts(words) =~= Seq::<Seq<char>>::empty());
        assert(texts(kept_words(words, stop)) =~= Seq::<Seq<char>>::empty());
    }
}

/// More stop words drop more: with stop words `more` that include `fewer`,
/// the words kept are those kept with `fewer`, filtered further; so they are a
/// subsequence of them.
pub proof fn lemma_more_stop_words(
    words: Seq<Seq<char>>,
    fewer: Set<Seq<char>>,
    more: Set<Seq<char>>,
)
    requires
        fewer.subset_of(more),
    ensures
        drop_stop_words(drop_stop_words(words, fewer), more) == drop_stop_words(words, more),
    decreases words.len(),
{
    if words.len() > 0 {
        let rest = words.drop_last();
        let w = words.last();
        lemma_more_stop_words(rest, fewer, more);
        assert(rest.push(w) =~= words);
        rest.lemma_filter_push(w, |w: Seq<char>| not_stop_word(fewer, w));
        rest.lemma_filter_push(w, |w: Seq<char>| not_stop_word(more, w));
        drop_stop_words(rest, fewer).lemma_filter_push(w, |w: Seq<char>| not_stop_word(more, w));
    } else {
        reveal(Seq::filter);
    }
}

/// With no stop words, every word is kept.
pub proof fn lemma_no_stop_words(words: Seq<Seq<char>>)
    ensures
        drop_stop_words(words, Set::empty()) == words,
    decreases words.len(),
{
    if words.len() > 0 {
        let rest = words.drop_last();
        lemma_no_stop_words(rest);
        assert(rest.push(words.last()) =~= words);
        rest.lemma_filter_push(words.last(), |w: Seq<char>| not_stop_word(Set::empty(), w));
    } else {
        reveal(Seq::filter);
    }
}

/// No stop word survives: every word kept is not a stop word, and every word
/// of the input that is not a stop word is kept.
pub proof fn lemma_stop_words_dropped(words: Seq<&str>, stop: Set<Seq<char>>)
    ensures
        forall|i: int|
            0 <= i < kept_words(words, stop).len() ==> !stop.contains(
                (#[trigger] kept_words(words, stop)[i])@,
            ),
        forall|i: int|
            0 <= i < words.len() && !stop.contains(words[i]@) ==> kept_words(words, stop).contains(#[trigger] words[i]),
{
    assert forall|i: int| 0 <= i < kept_words(words, stop).len() implies !stop.contains(
        (#[trigger] kept_words(words, stop)[i])@,
    ) by {
        words.lemma_filter_pred(|w: &str| kept(stop, w), i);
    }
    assert forall|i: int| 0 <= i < words.len() && !stop.contains(words[i]@) implies kept_words(words, stop).contains(#[trigger] words[i]) by {
        words.lemma_filter_contains(|w: &str| kept(stop, w), i);
    }
}

/// `words` without the stop words, in their order.
pub fn remove_stop_words<'a>(words: &Vec<&'a str>, stop_words: &StringHashSet) -> (r: Vec<&'a str>)
    ensures
        r@ == kept_words(words@, stop_words@),
{
    let mut r: Vec<&'a str> = Vec::new();
    let mut i: usize = 0;
    while i < words.len()
        invariant
            i <= words.len(),
            r@ == words@.take(i as int).filter(|w: &str| kept(stop_words@, w)),
        decreases words.len() - i,
    {
        let w = words[i];
        proof {
            assert(words@.take(i as int).push(w) =~= words@.take(i + 1));
            words@.take(i as int).lemma_filter_push(w, |w: &str| kept(stop_words@, w));
        }
        if !stop_words.contains(w) {
            r.push(w);
        }
        i = i + 1;
    }
    assert(words@.take(words.len() as int) =~= words@);
    r
}

/// Cuts `text` into words with `jieba` and drops the stop words: the words
/// that jieba cuts `text` into, in order, without the stop words. Jieba's
/// words spell `text` exactly and each is a word as jieba cuts one.
pub fn cut<'a>(text: &'a str, jieba: &Jieba, stop_words: &StringHashSet) -> (r: Vec<&'a str>)
    ensures
        texts(r@) == drop_stop_words(jieba_words(*jieba, text@), stop_words@),
        joined(jieba_words(*jieba, text@)) == text@,
        forall|i: int|
            0 <= i < jieba_words(*jieba, text@).len() ==> is_jieba_word(
                #[trigger] jieba_words(*jieba, text@)[i],
            ),
        forall|i: int| 0 <= i < r.len() ==> is_jieba_word(#[trigger] r@[i]@),
{
    let words = jieba_cut(jieba, text);
    let r = remove_stop_words(&words, stop_words);
    proof {
        lemma_texts_kept(words@, stop_words@);
        assert forall|i: int| 0 <= i < jieba_words(*jieba, text@).len() implies is_jieba_word(
            #[trigger] jieba_words(*jieba, text@)[i],
        ) by {
            assert(texts(words@)[i] == words@[i]@);
        }
        assert forall|i: int| 0 <= i < r.len() implies is_jieba_word(#[trigger] r@[i]@) by {
            lemma_filter_member(words@, |w: &str| kept(stop_words@, w), i);
        }
    }
    r
}

/// An element of a filtered sequence stands in the sequence.
proof fn lemma_filter_member<A>(s: Seq<A>, pred: spec_fn(A) -> bool, i: int)
    requires
        0 <= i < s.filter(pred).len(),
    ensures
        s.contains(s.filter(pred)[i]),
    decreases s.len(),
{
    reveal(Seq::filter);
    if s.len() > 0 {
        let rest = s.drop_last();
        if pred(s.last()) && i == rest.filter(pred).len() {
            assert(s[s.len() - 1] == s.last());
        } else {
            lemma_filter_member(rest, pred, i);
            let k = choose|k: int| 0 <= k < rest.len() && rest[k] == rest.filter(pred)[i];
            assert(s[k] == rest[k]);
        }
    }
}

} // verus!
