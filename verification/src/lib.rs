//! Paper plagiarism checking: a paper's text is cut into words, its term
//! frequencies are counted into the stored feature names, and it is ranked
//! against the stored papers by the similarity of their tf-idf vectors.
mod check;
mod features;
mod order;
mod paper;
mod ranking;
mod segment;
mod text;
mod tf;
mod weights;

pub use check::{
    bad_request_message, check_step, decision_of, duplicate_message, duplicate_paper_message,
    failure, lemma_duplicate_refused, lemma_first_step, lemma_reply_messages, lemma_score_when_free,
    lemma_store_after_score, next_decision,
    not_found_message, success_message, CheckAction, CheckDecision, CheckEvent, ReqData,
    SharedData, STATUS_BAD_REQUEST, STATUS_INTERNAL_SERVER_ERROR, STATUS_OK,
};
pub use features::{
    change_name, change_of, changes_of, counts_fit, df_of, distinct_names, find_first,
    lemma_find_first, lemma_find_first_at, lemma_plan_append, lemma_plan_changes, lemma_plan_df,
    lemma_plan_distinct, lemma_plan_keeps_names, lemma_plan_prefix, lemma_step_df, name_view, plan, step,
    update_feature_names, FeatureAction, FeatureChange, FeatureName,
};
pub use order::{
    compare_words, lemma_lex_irreflexive, lemma_lex_steps, lemma_lex_total, lemma_lex_transitive, lemma_occurs_at,
    lex_lt, occurrences,
};
pub use paper::{analyze_paper, lemma_white_space_ignored, paper_words, strings, PaperAnalysis};
pub use ranking::{
    is_top, lemma_others, lemma_top_raw, other_papers, others, ranks_before, top_ranked, unranked, TOP_COUNT,
};
pub use segment::{
    cut, drop_stop_words, lemma_drop_stop_words_push, is_jieba_word, is_word_char, jieba_words, joined, kept, kept_words,
    lemma_more_stop_words, lemma_no_stop_words, lemma_stop_words_dropped, lemma_texts_kept,
    not_stop_word, remove_stop_words, texts,
};
pub use text::{
    chars_of, is_white_space, is_whitespace, lemma_no_white_space_left, lemma_remove_white_space_push,
    lemma_removed_are_code_points, lemma_split_joined, lemma_split_push,
    lemma_white_space_code_points, white_space_code_points,
    lemma_remove_white_space_idempotent, lemma_split_words, not_white_space, remove_whitespace,
    scan_words, split_whitespace, stop_words, stop_words_of, string_of, utf8_lossy,
    without_white_space,
};
pub use tf::{
    expand, get_tf_array, is_tf_table, lemma_tf_expand, lemma_tf_roundtrip, lemma_tf_table_unique,
    lemma_tf_total, repeated, sorted_words, strictly_sorted, tf_names, total_tf, TermFreq,
};
pub use weights::{lemma_weight_input_exact, tf_view, weight_input, weight_inputs};
