use plagiarism_detector::{
    analyze_paper, bad_request_message, check_step, compare_words, cut, duplicate_paper_message, get_tf_array,
    is_whitespace, not_found_message, other_papers, remove_stop_words, remove_whitespace,
    stop_words, stop_words_of, string_of, top_ranked, update_feature_names, weight_inputs,
    CheckAction, CheckEvent, FeatureAction, FeatureName, ReqData, SharedData, TermFreq, STATUS_BAD_REQUEST,
    STATUS_INTERNAL_SERVER_ERROR, STATUS_OK,
};

fn tf(name: &str, n: usize) -> TermFreq {
    TermFreq { name: name.to_string(), tf: n }
}

fn feature(name: &str, df: i64) -> FeatureName {
    FeatureName { name: name.to_string(), df }
}

fn req(id: &str, write: bool) -> ReqData {
    ReqData { id: id.to_string(), text: "文本".to_string(), write }
}

#[test]
fn whitespace_is_the_unicode_white_space_property() {
    for c in [' ', '\t', '\n', '\r', '\u{0B}', '\u{0C}', '\u{85}', '\u{A0}', '\u{1680}', '\u{2000}', '\u{200A}', '\u{2028}', '\u{2029}', '\u{202F}', '\u{205F}', '\u{3000}'] {
        assert!(is_whitespace(c), "{:?}", c);
        assert_eq!(is_whitespace(c), c.is_whitespace());
    }
    for c in ['a', '中', '\u{200B}', '\u{FEFF}', '，', '\u{0}', '\u{1F46A}'] {
        assert!(!is_whitespace(c), "{:?}", c);
        assert_eq!(is_whitespace(c), c.is_whitespace());
    }
}

#[test]
fn remove_whitespace_drops_every_white_space_character() {
    assert_eq!(
        remove_whitespace("基于 jieba 分词，tf-idf 算法求相似度   ！（*@1=-+!9）"),
        "基于jieba分词，tf-idf算法求相似度！（*@1=-+!9）"
    );
    assert_eq!(remove_whitespace(" \t\n\u{3000}"), "");
    assert_eq!(remove_whitespace(""), "");
    let once = remove_whitespace("a b\u{3000}c");
    assert_eq!(remove_whitespace(&once), once);
}

#[test]
fn string_of_keeps_characters() {
    assert_eq!(string_of(&vec!['论', '文', '1']), "论文1");
    assert_eq!(string_of(&vec![]), "");
}

#[test]
fn stop_words_are_the_white_space_separated_words() {
    let sw = stop_words("的  了\n一个\t是 \r\n".as_bytes());
    assert_eq!(sw.len(), 4);
    for w in ["的", "了", "一个", "是"] {
        assert!(sw.contains(w), "{}", w);
    }
    assert!(!sw.contains(""));
    assert!(!sw.contains("一"));
    let repeated = stop_words_of("a a b");
    assert_eq!(repeated.len(), 2);
    assert_eq!(stop_words(b"").len(), 0);
    assert_eq!(stop_words(b"  \n ").len(), 0);
}

#[test]
fn stop_words_replace_invalid_bytes() {
    let sw = stop_words(b"a\xffb c");
    assert_eq!(sw.len(), 2);
    assert!(sw.contains("a\u{FFFD}b"));
    assert!(sw.contains("c"));
}

#[test]
fn cut_uses_jieba_and_drops_stop_words() {
    let jieba = jieba_rs::Jieba::new();
    let none = stop_words(b"");
    assert_eq!(cut("我们中出了一个叛徒", &jieba, &none), vec!["我们", "中", "出", "了", "一个", "叛徒"]);
    let sw = stop_words("了 一个".as_bytes());
    assert_eq!(cut("我们中出了一个叛徒", &jieba, &sw), vec!["我们", "中", "出", "叛徒"]);
    assert_eq!(cut("abc网球拍卖会def", &jieba, &none), vec!["abc", "网球", "拍卖会", "def"]);
    assert_eq!(cut("", &jieba, &none), Vec::<&str>::new());
}

#[test]
fn cut_words_spell_the_text() {
    let jieba = jieba_rs::Jieba::new();
    let none = stop_words(b"");
    let text = remove_whitespace("他来到了网易杭研大厦， 市民田-女士急匆匆 abc123");
    let words = cut(&text, &jieba, &none);
    assert_eq!(words.concat(), text);
}

#[test]
fn remove_stop_words_keeps_order() {
    let sw = stop_words(b"x y");
    assert_eq!(remove_stop_words(&vec!["a", "x", "b", "y", "a", "x"], &sw), vec!["a", "b", "a"]);
    assert_eq!(remove_stop_words(&vec!["x"], &sw), Vec::<&str>::new());
}

#[test]
fn compare_words_is_code_point_order() {
    let v = |s: &str| s.chars().collect::<Vec<char>>();
    assert!(compare_words(&v("a"), &v("b")) < 0);
    assert!(compare_words(&v("ab"), &v("a")) > 0);
    assert_eq!(compare_words(&v("中文"), &v("中文")), 0);
    assert!(compare_words(&v(""), &v("a")) < 0);
    assert!(compare_words(&v("Z"), &v("a")) < 0);
    assert!(compare_words(&v("中"), &v("出")) < 0);
    for (a, b) in [("a", "b"), ("中", "出"), ("ab", "a"), ("é", "z"), ("\u{FFFF}", "\u{10000}")] {
        let c = compare_words(&v(a), &v(b));
        assert_eq!(c.signum() as i32, a.cmp(b) as i32);
    }
}

#[test]
fn tf_array_counts_each_word_in_sorted_order() {
    assert_eq!(
        get_tf_array(&["b", "a", "b", "c", "a", "b"]),
        vec![tf("a", 2), tf("b", 3), tf("c", 1)]
    );
    assert_eq!(get_tf_array(&["abc", "a", "ab", "a"]), vec![tf("a", 2), tf("ab", 1), tf("abc", 1)]);
    assert_eq!(get_tf_array(&["出", "中", "出", "叛徒"]), vec![tf("中", 1), tf("出", 2), tf("叛徒", 1)]);
    assert_eq!(get_tf_array(&[]), Vec::<TermFreq>::new());
}

#[test]
fn tf_array_matches_sorting_and_counting_runs() {
    let words = ["论文", "查重", "jieba", "论文", "Rust", "分词", "查重", "论文", "1", "Z", "a"];
    let mut sorted = words.to_vec();
    sorted.sort();
    let mut expected: Vec<TermFreq> = vec![];
    for w in sorted {
        match expected.last_mut() {
            Some(last) if last.name == w => last.tf += 1,
            _ => expected.push(tf(w, 1)),
        }
    }
    let table = get_tf_array(&words);
    assert_eq!(table, expected);
    assert_eq!(table.iter().map(|t| t.tf).sum::<usize>(), words.len());
}

#[test]
fn update_feature_names_counts_every_occurrence() {
    let mut names = vec![feature("a", 3), feature("b", 1)];
    let actions = update_feature_names(&["b", "c", "b", "c", "d"], &mut names);
    assert_eq!(
        actions,
        vec![
            FeatureAction::Update { name: "b".to_string(), df: 2 },
            FeatureAction::Add { name: "c".to_string(), df: 1 },
            FeatureAction::Update { name: "b".to_string(), df: 3 },
            FeatureAction::Update { name: "c".to_string(), df: 2 },
            FeatureAction::Add { name: "d".to_string(), df: 1 },
        ]
    );
    assert_eq!(names, vec![feature("a", 3), feature("b", 3), feature("c", 2), feature("d", 1)]);
}

#[test]
fn update_feature_names_updates_the_first_entry() {
    let mut names = vec![feature("x", 5), feature("x", 9)];
    let actions = update_feature_names(&["x"], &mut names);
    assert_eq!(actions, vec![FeatureAction::Update { name: "x".to_string(), df: 6 }]);
    assert_eq!(names, vec![feature("x", 6), feature("x", 9)]);
    let mut empty: Vec<FeatureName> = vec![];
    assert_eq!(update_feature_names(&[], &mut empty), vec![]);
    assert!(empty.is_empty());
}

#[test]
fn two_papers_in_a_row_count_like_one() {
    let mut a = vec![feature("p", 1)];
    let mut first = update_feature_names(&["p", "q"], &mut a);
    first.extend(update_feature_names(&["q", "r", "p"], &mut a));
    let mut b = vec![feature("p", 1)];
    let both = update_feature_names(&["p", "q", "q", "r", "p"], &mut b);
    assert_eq!(a, b);
    assert_eq!(first, both);
}

#[test]
fn weight_inputs_pair_term_and_feature_counts() {
    let paper = vec![tf("a", 2), tf("c", 5)];
    let names = vec![feature("c", 7), feature("b", 1), feature("a", 4)];
    assert_eq!(weight_inputs(&paper, &names), vec![Some((5, 7)), None, Some((2, 4))]);
    assert_eq!(weight_inputs(&paper, &[]), vec![]);
    assert_eq!(weight_inputs(&[], &names), vec![None, None, None]);
}

#[test]
fn other_papers_leaves_out_the_paper_itself() {
    let pids = vec!["1".to_string(), "2".to_string(), "3".to_string(), "2".to_string()];
    assert_eq!(other_papers("2", &pids), vec![0, 2]);
    assert_eq!(other_papers("9", &pids), vec![0, 1, 2, 3]);
    assert_eq!(other_papers("1", &[]), vec![]);
}

#[test]
fn top_ranked_takes_the_five_largest_keys_stably() {
    assert_eq!(top_ranked(&[5, 9, 9, -1, 7, 3, 9]), vec![1, 2, 6, 4, 0]);
    assert_eq!(top_ranked(&[1, 2]), vec![1, 0]);
    assert_eq!(top_ranked(&[]), vec![]);
    assert_eq!(top_ranked(&[i64::MIN, 0, i64::MIN]), vec![1, 0, 2]);
    assert_eq!(top_ranked(&[4, 4, 4, 4, 4, 4]), vec![0, 1, 2, 3, 4]);
}

#[test]
fn check_write_looks_up_scores_then_stores() {
    let r = req("7", true);
    assert_eq!(check_step(&r, CheckEvent::Received), CheckAction::LookUpPaper);
    assert_eq!(check_step(&r, CheckEvent::PaperLookup(Ok(false))), CheckAction::Score);
    assert_eq!(check_step(&r, CheckEvent::Scored(Ok(()))), CheckAction::StorePaper);
    assert_eq!(check_step(&r, CheckEvent::PaperStored(Ok(()))), CheckAction::CountNames);
    assert_eq!(
        check_step(&r, CheckEvent::NamesCounted(Ok(()))),
        CheckAction::Reply { status: STATUS_OK, msg: "加入成功".to_string(), with_similarity: true }
    );
}

#[test]
fn check_refuses_a_stored_id() {
    let r = req("7", true);
    assert_eq!(
        check_step(&r, CheckEvent::PaperLookup(Ok(true))),
        CheckAction::Reply {
            status: STATUS_BAD_REQUEST,
            msg: "论文'7'已存在".to_string(),
            with_similarity: false
        }
    );
    assert_eq!(STATUS_BAD_REQUEST, 400);
}

#[test]
fn check_query_only_reads() {
    let r = req("7", false);
    assert_eq!(check_step(&r, CheckEvent::Received), CheckAction::Score);
    assert_eq!(
        check_step(&r, CheckEvent::Scored(Ok(()))),
        CheckAction::Reply { status: 200, msg: "查询成功".to_string(), with_similarity: true }
    );
}

#[test]
fn check_reports_store_errors() {
    let r = req("7", true);
    let fail = |m: &str| CheckAction::Reply {
        status: STATUS_INTERNAL_SERVER_ERROR,
        msg: m.to_string(),
        with_similarity: false,
    };
    assert_eq!(check_step(&r, CheckEvent::PaperLookup(Err("db down".to_string()))), fail("db down"));
    assert_eq!(check_step(&r, CheckEvent::Scored(Err("a".to_string()))), fail("a"));
    assert_eq!(check_step(&r, CheckEvent::PaperStored(Err("b".to_string()))), fail("b"));
    assert_eq!(check_step(&r, CheckEvent::NamesCounted(Err("lost".to_string()))), fail("lost"));
    assert_eq!(STATUS_INTERNAL_SERVER_ERROR, 500);
}

#[test]
fn analyze_paper_ignores_white_space() {
    let shared = SharedData { jieba: jieba_rs::Jieba::new(), stop_words: stop_words("了 一个".as_bytes()) };
    let a = analyze_paper("我们中出了一个叛徒", &shared);
    assert_eq!(a.sep_text, vec!["我们", "中", "出", "叛徒"]);
    assert_eq!(a.tf_array, get_tf_array(&["我们", "中", "出", "叛徒"]));
    let b = analyze_paper(" 我们中出\t了一 个叛徒\n", &shared);
    assert_eq!(a.sep_text, b.sep_text);
    assert_eq!(a.tf_array, b.tf_array);
}

#[test]
fn cut_with_more_stop_words_keeps_a_subsequence() {
    let jieba = jieba_rs::Jieba::new();
    let text = "他来到了网易杭研大厦";
    let none = stop_words(b"");
    assert_eq!(cut(text, &jieba, &none), jieba.cut(text, false));
    let fewer = cut(text, &jieba, &stop_words("了".as_bytes()));
    let more = cut(text, &jieba, &stop_words("了 来到".as_bytes()));
    let filtered: Vec<&str> = fewer.iter().copied().filter(|w| *w != "来到").collect();
    assert_eq!(more, filtered);
    assert_eq!(cut(text, &jieba, &none), cut(text, &jieba, &none));
}

#[test]
fn messages() {
    assert_eq!(duplicate_paper_message("论文1"), "论文'论文1'已存在");
    assert_eq!(not_found_message("/x"), "'/x'不存在");
    assert_eq!(bad_request_message(), "调用有误");
}

#[test]
fn tf_array_ignores_word_order() {
    let a = get_tf_array(&["x", "y", "x", "z"]);
    let b = get_tf_array(&["z", "x", "y", "x"]);
    assert_eq!(a, b);
    assert_eq!(a, vec![tf("x", 2), tf("y", 1), tf("z", 1)]);
}

#[test]
fn stored_names_keep_their_places() {
    let mut names = vec![feature("m", 1), feature("k", 2)];
    update_feature_names(&["z", "k", "a"], &mut names);
    assert_eq!(names[0].name, "m");
    assert_eq!(names[1], feature("k", 3));
    assert_eq!(names[2], feature("z", 1));
    assert_eq!(names[3], feature("a", 1));
}

fn word_char(c: char) -> bool {
    let v = c as u32;
    (0x3400..=0x4DBF).contains(&v)
        || (0x4E00..=0x9FFF).contains(&v)
        || (0xF900..=0xFAFF).contains(&v)
        || (0x20000..=0x2A6DF).contains(&v)
        || (0x2A700..=0x2EBEF).contains(&v)
        || (0x2F800..=0x2FA1F).contains(&v)
        || c.is_ascii_alphanumeric()
        || "+#&._%-".contains(c)
}

#[test]
fn cut_leaves_other_characters_alone() {
    let jieba = jieba_rs::Jieba::new();
    let none = stop_words(b"");
    assert_eq!(cut("a,b\r\nc", &jieba, &none), vec!["a", ",", "b", "\r\n", "c"]);
    let text = "我们（中出）了，一个叛徒！abc-1.5%网球拍卖会\t😀";
    for w in cut(text, &jieba, &none) {
        assert!(!w.is_empty());
        assert!(w.chars().all(word_char) || w.chars().count() == 1 || w == "\r\n", "{:?}", w);
    }
}

#[test]
fn written_out_table_is_the_sorted_words() {
    let words = ["论文", "b", "a", "论文", "b", "论文"];
    let table = get_tf_array(&words);
    let mut expanded: Vec<&str> = vec![];
    for t in &table {
        for _ in 0..t.tf {
            expanded.push(t.name.as_str());
        }
    }
    let mut sorted = words.to_vec();
    sorted.sort();
    assert_eq!(expanded, sorted);
    assert_eq!(get_tf_array(&expanded), table);
}

#[test]
fn counts_beyond_i32_fit_in_the_feature_names() {
    let mut names = vec![feature("w", 3_000_000_000)];
    let actions = update_feature_names(&["w"], &mut names);
    assert_eq!(actions, vec![FeatureAction::Update { name: "w".to_string(), df: 3_000_000_001 }]);
}
