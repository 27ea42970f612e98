//! A paper as it is scored and stored: its words and its term-frequency table.
use vstd::prelude::*;
use jieba_rs::Jieba;
use crate::check::SharedData;
use crate::order::occurrences;
use crate::segment::{cut, drop_stop_words, jieba_words, texts};
use crate::text::{remove_whitespace, without_white_space};
use crate::tf::{
    get_tf_array, is_tf_table, lemma_tf_table_unique, lemma_tf_total, tf_names, total_tf, TermFreq,
};

verus! {

/// A paper's words, once cut and without stop words, and its term-frequency table.
pub struct PaperAnalysis {
    pub sep_text: Vec<String>,
    pub tf_array: Vec<TermFreq>,
}

/// The text of each string.
pub open spec fn strings(words: Seq<String>) -> Seq<Seq<char>> {
    words.map_values(|w: String| w@)
}

/// The words of the paper `text`: its white space removed, cut by `jieba`,
/// and without the stop words `stop`.
pub open spec fn paper_words(jieba: Jieba, text: Seq<char>, stop: Set<Seq<char>>) -> Seq<Seq<char>> {
    drop_stop_words(jieba_words(jieba, without_white_space(text)), stop)
}

/// Removes the white space of the paper `text`, cuts it into words with the
/// shared segmenter, drops the shared stop words, and counts the words.
pub fn analyze_paper(text: &str, shared: &SharedData) -> (r: PaperAnalysis)
    ensures
        strings(r.sep_text@) == paper_words(shared.jieba, text@, shared.stop_words@),
        strings(r.sep_text@) == drop_stop_words(
            jieba_words(shared.jieba, without_white_space(text@)),
            shared.stop_words@,
        ),
        is_tf_table(r.tf_array@, strings(r.sep_text@)),
        total_tf(r.tf_array@) == r.sep_text.len(),
{
    let trimmed = remove_whitespace(text);
    let sep = cut(trimmed.as_str(), &shared.jieba, &shared.stop_words);
    let tf_array = get_tf_array(sep.as_slice());
    let mut sep_text: Vec<String> = Vec::new();
    let mut i: usize = 0;
    while i < sep.len()
        invariant
            i <= sep.len(),
            sep_text.len() == i,
            strings(sep_text@) == texts(sep@).take(i as int),
        decreases sep.len() - i,
    {
        let ghost before = sep_text@;
        sep_text.push(sep[i].to_owned());
        assert forall|k: int| 0 <= k < i + 1 implies #[trigger] strings(sep_text@)[k] == texts(
            sep@,
        ).take(i + 1)[k] by {
            if k < i {
                assert(sep_text@[k] == before[k]);
                assert(strings(before)[k] == texts(sep@).take(i as int)[k]);
            }
        }
        assert(strings(sep_text@) =~= texts(sep@).take(i + 1));
        i = i + 1;
    }
    assert(texts(sep@).take(sep.len() as int) =~= texts(sep@));
    proof {
        lemma_tf_total(tf_array@, strings(sep_text@));
    }
    PaperAnalysis { sep_text, tf_array }
}

/// Papers whose texts differ only in white space have the same words and
/// the same term-frequency table.
pub proof fn lemma_white_space_ignored(
    jieba: Jieba,
    stop: Set<Seq<char>>,
    text1: Seq<char>,
    text2: Seq<char>,
    table1: Seq<TermFreq>,
    table2: Seq<TermFreq>,
)
    requires
        without_white_space(text1) == without_white_space(text2),
        is_tf_table(table1, paper_words(jieba, text1, stop)),
        is_tf_table(table2, paper_words(jieba, text2, stop)),
    ensures
        paper_words(jieba, text1, stop) == paper_words(jieba, text2, stop),
        tf_names(table1) == tf_names(table2),
        forall|i: int| 0 <= i < table1.len() ==> #[trigger] table1[i].tf == table2[i].tf,
{
    let words = paper_words(jieba, text1, stop);
    assert(forall|s: Seq<char>| occurrences(words, s) == occurrences(paper_words(jieba, text2, stop), s));
    lemma_tf_table_unique(table1, words, table2, paper_words(jieba, text2, stop));
}

} // verus!
