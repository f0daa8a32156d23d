use rsou::dict::{
    add_encoded, append_line, bytes_of_line, can_load, can_take, check_synonym_group,
    check_synonym_group_in_file, check_synonym_group_in_text, check_user_word, cut_loose,
    decode_file, entries, expand, keep_searchable, load, load_synonyms, load_user_words, lookup,
    parse_synonyms, parse_user_words, synonyms_path, template_for, term_problem, user_words_path,
    DictReport, Dictionary, FileReport, Problem, Segmenter, Source, Synonyms, UserWord,
    MAX_ENTRIES, SYNONYMS_FILE, USER_WORDS_FILE,
};

fn owned(values: &[&str]) -> Vec<String> {
    values.iter().map(|value| (*value).to_owned()).collect()
}

fn map_of(groups: &[&[&str]]) -> Synonyms {
    Synonyms::of(groups.iter().map(|group| owned(group)).collect())
}

fn file(text: &str) -> Source {
    Source::Bytes(text.as_bytes().to_vec())
}

fn gb18030(text: &str) -> Vec<u8> {
    let (bytes, _, had_errors) = encoding_rs::GB18030.encode(text);
    assert!(!had_errors);
    bytes.into_owned()
}

fn append(bytes: &Vec<u8>, line: &str) -> Result<Vec<u8>, String> {
    let mut whole = bytes.clone();
    whole.extend(append_line(bytes, line).unwrap()?);
    Ok(whole)
}

#[test]
fn lookup_returns_whole_group_and_is_case_insensitive() {
    let map = map_of(&[&["电脑", "计算机", "PC"], &["文档", "文件"]]);
    assert_eq!(lookup(&map, "电脑"), ["电脑", "计算机", "PC"]);
    assert_eq!(lookup(&map, "pc"), ["电脑", "计算机", "PC"]);
    assert_eq!(lookup(&map, "PC"), ["电脑", "计算机", "PC"]);
    assert_eq!(lookup(&map, "计算机"), ["电脑", "计算机", "PC"]);
    assert_eq!(lookup(&map, "无关词"), ["无关词"]);
}

#[test]
fn groups_parse_one_group_per_line() {
    let source = file("# 注释\n\n电脑 计算机 pc\n文档 文件\n计算机 台式机\n");
    let (groups, report) = load_synonyms(&source, &synonyms_path("/d"));
    assert_eq!(groups, vec![vec!["电脑", "计算机", "pc"], vec!["文档", "文件"]]);
    assert_eq!(report.loaded, 2);
    assert_eq!(report.terms, 5);
    assert!(report.problems.iter().any(|p| p.line == 5));
}

#[test]
fn synonym_problems_are_reported_with_line_numbers() {
    let source = file("只有一个词\n带星号 a*b 词\n有效 组\n电 脑 电 脑\n");
    let (groups, report) = load_synonyms(&source, &synonyms_path("/d"));
    assert_eq!(groups, vec![vec!["有效", "组"]]);
    let lines: Vec<usize> = report.problems.iter().map(|p| p.line).collect();
    assert_eq!(lines, [1, 2, 4]);
}

#[test]
fn missing_files_are_not_an_error() {
    let (groups, report) = load_synonyms(&Source::Missing, &synonyms_path("/d"));
    assert!(groups.is_empty());
    assert!(report.missing);
    assert!(!report.problems_truncated);
    assert!(report.problems.is_empty());
}

#[test]
fn user_words_parse_optional_frequency_and_tag() {
    let source = file("# 注释\n深度学习\n向量数据库 2000\n知识图谱 3000 nz\n坏词频 abc\n");
    let (words, report) = load_user_words(&source, &user_words_path("/d"));
    assert_eq!(words.len(), 3);
    assert_eq!(words[0].word, "深度学习");
    assert_eq!(words[0].freq, None, "省略词频应交给 suggest_freq 推断");
    assert_eq!(words[0].tag, None);
    assert_eq!(words[1].freq, Some(2000));
    assert_eq!(words[2].tag.as_deref(), Some("nz"));
    assert!(report.problems.iter().any(|p| p.line == 5));
}

#[test]
fn gb18030_dictionary_is_decoded() {
    let source = Source::Bytes(gb18030("电脑 计算机 微机\n"));
    let (groups, report) = load_synonyms(&source, &synonyms_path("/d"));
    assert_eq!(groups, vec![vec!["电脑", "计算机", "微机"]], "{report:?}");
}

#[test]
fn quick_add_validation_matches_the_file_parser() {
    assert!(check_user_word("深度学习").is_ok());
    assert!(check_user_word("电脑 1").is_ok());
    assert_eq!(check_user_word("电脑 0").unwrap_err(), "词频必须为正整数");
    assert!(check_user_word("向量数据库 2000 nz").is_ok());
    assert!(check_user_word("坏 词频").is_err());
    assert!(check_user_word("带星号 a*b").is_err());
    assert!(check_synonym_group("电脑 计算机").is_ok());
    assert!(check_synonym_group("只有一个词").is_err());
}

#[test]
fn user_words_with_zero_frequency_are_reported_and_skipped() {
    let source = file("# 用户词\n电脑 0\n深度学习\n向量数据库 1 nz\n");
    let (words, report) = load_user_words(&source, &user_words_path("/d"));
    assert_eq!(report.loaded, 2);
    assert_eq!(report.problems.len(), 1);
    assert_eq!(report.problems[0].line, 2);
    assert_eq!(report.problems[0].message, "词频必须为正整数");
    assert_eq!(words[0].word, "深度学习");
    assert_eq!(words[0].freq, None);
    assert_eq!(words[1].word, "向量数据库");
    assert_eq!(words[1].freq, Some(1));
}

#[test]
fn quick_add_checks_current_file_before_writing() {
    assert!(check_synonym_group_in_file(&Source::Missing, "电脑 计算机").is_ok());
    let original = gb18030("电脑 计算机 PC");
    for line in ["电脑 微机", "pc 主机"] {
        let error = check_synonym_group_in_file(&Source::Bytes(original.clone()), line).unwrap_err();
        assert!(error.contains("已在第 1 行出现过"), "{error}");
    }
    assert!(check_synonym_group_in_file(&Source::Bytes(original.clone()), "文档 文件").is_ok());
    let appended = append(&original, "文档 文件").unwrap();
    assert_eq!(load_synonyms(&Source::Bytes(appended), "/d").1.loaded, 2);
    assert!(check_synonym_group_in_file(&file("文档 文件\n"), "电脑 微机").is_ok());
    assert!(check_synonym_group_in_file(&Source::Failed("是目录".to_owned()), "电脑 微机").is_err());
}

#[test]
fn invalid_group_near_capacity_does_not_hide_later_valid_group() {
    let mut text = String::new();
    for index in 0..(MAX_ENTRIES / 2 - 1) {
        text.push_str(&format!("a{index} b{index}\n"));
    }
    text.push_str("* 无效 词组\n");
    assert!(check_synonym_group_in_file(&file(&text), "文档 文件").is_ok());
    text.push_str("文档 文件\n");
    let (groups, report) = load_synonyms(&file(&text), "/d");
    assert_eq!(report.terms, MAX_ENTRIES);
    assert_eq!(groups.last().unwrap(), &["文档", "文件"]);
    assert_eq!(report.problems.len(), 1);
    assert!(report.problems[0].message.contains("不能包含"));
    assert!(check_synonym_group_in_file(&file(&text), "电脑 计算机").is_err());
}

#[test]
fn append_line_creates_template_and_keeps_a_clean_break() {
    let template = template_for(SYNONYMS_FILE).as_bytes().to_vec();
    let text = String::from_utf8(append(&template, "电脑 计算机").unwrap()).unwrap();
    assert!(text.starts_with('#'));
    assert!(text.trim_end().ends_with("电脑 计算机"));
    let appended = append(&"文档 文件".as_bytes().to_vec(), "电脑 计算机").unwrap();
    assert_eq!(String::from_utf8(appended).unwrap(), "文档 文件\n电脑 计算机\n");
}

#[test]
fn append_line_preserves_gb18030_synonyms() {
    for ending in ["", "\n", "\r\n"] {
        let bytes = gb18030(&format!("电脑 计算机{ending}"));
        let once = append(&bytes, "文档 文件").unwrap();
        let twice = append(&once, "𠀀 生僻字").unwrap();
        assert!(twice.starts_with(&bytes));
        let (groups, report) = load_synonyms(&Source::Bytes(twice), "/d");
        assert!(report.problems.is_empty(), "{report:?}");
        assert_eq!(report.loaded, 3);
        let map = Synonyms::of(groups);
        assert_eq!(lookup(&map, "文档"), vec!["文档", "文件"]);
        assert_eq!(lookup(&map, "𠀀"), vec!["𠀀", "生僻字"]);
        assert_eq!(lookup(&map, "电脑"), vec!["电脑", "计算机"]);
    }
}

#[test]
fn append_line_preserves_gb18030_user_words() {
    let bytes = append(&gb18030("深度学习 100 nz"), "向量数据库 2000 nz").unwrap();
    let (words, report) = load_user_words(&Source::Bytes(bytes), "/d");
    assert!(report.problems.is_empty(), "{report:?}");
    assert_eq!(words.len(), 2);
    assert_eq!(words[0].word, "深度学习");
    assert_eq!(words[1].word, "向量数据库");
    assert_eq!(words[1].freq, Some(2000));
    assert_eq!(words[1].tag.as_deref(), Some("nz"));
}

#[test]
fn append_line_rejects_unencodable_terms_without_changing_file() {
    let bytes = gb18030("电脑 计算机");
    for line in ["文档 文件\u{e5e5}", "文档 文件\u{e843}"] {
        let error = append(&bytes, line).unwrap_err();
        assert!(error.contains(encoding_rs::GB18030.name()), "{error}");
    }
}

fn word(text: &str) -> UserWord {
    UserWord { word: text.to_owned(), freq: None, tag: None }
}

#[test]
fn omitted_frequency_still_joins_the_user_word() {
    let segmenter = Segmenter::build(&vec![word("深度检索")]);
    let words = cut_loose(&segmenter, "深度检索功能");
    assert!(words.iter().any(|w| w == "深度检索"), "{words:?}");
}

#[test]
fn user_word_already_in_default_dict_keeps_segmentation() {
    let plain = Segmenter::build(&vec![]);
    let with_user = Segmenter::build(&vec![word("电脑")]);
    for text in ["电脑的配置", "笔记本电脑", "电脑"] {
        assert_eq!(
            cut_loose(&with_user, text),
            cut_loose(&plain, text),
            "「{text}」的分词结果不应被改变"
        );
    }
}

#[test]
fn rejected_zero_frequency_keeps_default_segmentation() {
    let (user_words, report) = parse_user_words("电脑 0", USER_WORDS_FILE);
    assert_eq!(report.problems.len(), 1);
    let with_user = Segmenter::build(&user_words);
    assert_eq!(cut_loose(&with_user, "电脑的配置"), ["电脑", "的", "配置"]);
}

#[test]
fn parts_without_tokens_are_dropped() {
    assert_eq!(keep_searchable(&owned(&["文", "、", "", "a"])), ["文", "a"]);
    let segmenter = Segmenter::build(&vec![]);
    assert_eq!(cut_loose(&segmenter, "电脑、配置"), ["电脑", "配置"]);
}

#[test]
fn heavy_and_long_words_cannot_be_loaded() {
    assert!(can_load(&vec![word("电脑")]));
    let heavy = |text: &str| UserWord { word: text.to_owned(), freq: Some(usize::MAX), tag: None };
    assert!(!can_load(&vec![heavy("甲"), heavy("乙")]));
    let half = |text: &str, freq| UserWord { word: text.to_owned(), freq: Some(freq), tag: None };
    let limit = usize::MAX / 2;
    assert!(can_load(&vec![half("甲", limit)]));
    assert!(!can_load(&vec![half("甲", limit + 1)]));
    assert!(can_load(&vec![half("甲", limit - 3), half("乙", 3)]));
    assert!(!can_load(&vec![half("甲", limit - 3), word("乙")]));
    let segmenter = Segmenter::build(&vec![half("甲乙", limit / 2), word("乙丙甲乙")]);
    assert_eq!(cut_loose(&segmenter, "甲乙"), ["甲乙"]);
    assert!(can_load(&vec![word(&"文".repeat(64))]));
    assert!(!can_load(&vec![word(&"文".repeat(65))]));
}

#[test]
fn own_words_with_frequency_are_joined() {
    let heavy = UserWord {
        word: "文档管理系统".to_owned(),
        freq: Some(1_000_000),
        tag: Some("nz".to_owned()),
    };
    let plain = Segmenter::build(&vec![]);
    assert!(cut_loose(&plain, "文档管理系统").len() > 1);
    let segmenter = Segmenter::build(&vec![heavy]);
    assert_eq!(cut_loose(&segmenter, "文档管理系统"), ["文档管理系统"]);
}

#[test]
fn dictionary_expands_terms() {
    let dictionary = Dictionary::build(&vec![], vec![owned(&["电脑", "PC"])]);
    assert_eq!(expand(&dictionary, "pc"), ["电脑", "PC"]);
    assert_eq!(expand(&Dictionary::empty(), "pc"), ["pc"]);
}

#[test]
fn later_groups_take_words_over() {
    let map = map_of(&[&["a", "b"], &["B", "c"]]);
    assert_eq!(lookup(&map, "b"), ["B", "c"]);
    assert_eq!(lookup(&map, "a"), ["a", "b"]);
}

#[test]
fn entries_skip_comments_and_blank_lines() {
    assert_eq!(
        entries("# x\r\n\n  a b \n#\nc"),
        vec![(3, "a b".to_owned()), (5, "c".to_owned())]
    );
}

#[test]
fn terms_are_checked() {
    assert!(term_problem("电脑").is_none());
    assert!(term_problem("a*").unwrap().contains("不能包含"));
    assert!(term_problem("a\"").unwrap().contains("不能包含"));
    assert!(term_problem(&"文".repeat(65)).is_some());
    assert!(term_problem(&"文".repeat(64)).is_none());
    assert!(term_problem("、").is_some());
}

#[test]
fn groups_have_at_most_thirty_two_members() {
    let members: Vec<String> = (0..33).map(|i| format!("w{i}")).collect();
    assert!(check_synonym_group(&members.join(" ")).is_err());
    assert!(check_synonym_group(&members[..32].join(" ")).is_ok());
}

#[test]
fn only_the_first_problems_are_listed() {
    let (words, report) = parse_user_words(&"a* \n".repeat(7), "w");
    assert!(words.is_empty());
    assert_eq!(report.problems.len(), 5);
    assert!(report.problems_truncated);
    let (_, report) = parse_user_words(&"a* \n".repeat(5), "w");
    assert_eq!(report.problems.len(), 5);
    assert!(!report.problems_truncated);
}

#[test]
fn user_words_beyond_the_limit_are_not_loaded() {
    let text: String = (0..=MAX_ENTRIES).map(|i| format!("w{i}\n")).collect();
    let (words, report) = parse_user_words(&text, "w");
    assert_eq!(words.len(), MAX_ENTRIES);
    assert_eq!(report.problems.len(), 1);
}

#[test]
fn problems_name_their_line() {
    let problem = Problem { line: 3, message: "坏".to_owned() };
    assert_eq!(problem.text(), "第 3 行:坏");
    let problem = Problem { line: 0, message: "坏".to_owned() };
    assert_eq!(problem.text(), "坏");
}

#[test]
fn reports_are_summed_up() {
    assert!(DictReport::default().is_empty());
    assert!(!DictReport::default().has_problems());
    let loaded = load("/d", &file("深度学习\n"), &file("电脑 计算机\n"));
    assert_eq!(loaded.words.len(), 1);
    assert_eq!(loaded.groups, vec![vec!["电脑", "计算机"]]);
    assert!(!loaded.report.has_problems());
    assert!(!loaded.report.is_empty());
    assert!(!loaded.report.summary().is_empty());
    let failed = load("/d", &Source::Failed("拒绝访问".to_owned()), &Source::Missing);
    assert!(failed.report.has_problems());
    assert!(failed.report.user_words.problems[0].message.contains("拒绝访问"));
    let mut report = FileReport::new("/d/x");
    report.push_problem(2, "坏".to_owned());
    assert_eq!(report.problems.len(), 1);
    assert_eq!(report.path, "/d/x");
}

#[test]
fn dictionary_files_lie_in_the_data_directory() {
    assert_eq!(user_words_path("/d"), "/d/user_dict.txt");
    assert_eq!(synonyms_path("/d/"), "/d/synonyms.txt");
    assert!(template_for(USER_WORDS_FILE) != template_for(SYNONYMS_FILE));
}

#[test]
fn added_line_is_read_back() {
    let bytes = append(&"a b".as_bytes().to_vec(), "c d").unwrap();
    assert_eq!(decode_file(&bytes), "a b\nc d\n");
    assert_eq!(decode_file(&"\u{feff}a".as_bytes().to_vec()), "a");
    assert_eq!(append_line(&vec![97], "  "), Some(Ok(vec![])));
    assert_eq!(bytes_of_line(&vec![97, 10], &[98]), vec![98, 10]);
    assert_eq!(bytes_of_line(&vec![], &[98]), vec![10, 98, 10]);
    let encoded = vec![98u8];
    assert_eq!(add_encoded(&vec![97], "b", &encoded, false), Ok(vec![10, 98, 10]));
    assert!(add_encoded(&vec![97], "c", &encoded, false).is_err());
    assert!(add_encoded(&vec![0xff], "b", &encoded, true).is_err());
    assert_eq!(check_synonym_group_in_text("a b\n", "c d"), Ok(()));
    assert!(check_synonym_group_in_text("a b\n", "b c").is_err());
    let (groups, _) = parse_synonyms("a b\na c\n", "s");
    assert_eq!(groups, vec![vec!["a", "b"]]);
}

#[test]
fn checked_lines_are_loaded() {
    for text in ["", "a b", "a b\n", "\u{feff}", "\u{feff}a b\n# x"] {
        let bytes = text.as_bytes().to_vec();
        let before = load_synonyms(&Source::Bytes(bytes.clone()), "s").0;
        assert!(check_synonym_group_in_file(&Source::Bytes(bytes.clone()), " c d ").is_ok());
        let after = load_synonyms(&Source::Bytes(append(&bytes, " c d ").unwrap()), "s").0;
        assert_eq!(after[..before.len()], before[..]);
        assert_eq!(after[before.len()..], [owned(&["c", "d"])]);
        let before = load_user_words(&Source::Bytes(bytes.clone()), "w").0;
        assert!(check_user_word("词 5").is_ok());
        let after = load_user_words(&Source::Bytes(append(&bytes, "词 5").unwrap()), "w").0;
        assert_eq!(after.len(), before.len() + 1);
        assert_eq!(after.last().unwrap().freq, Some(5));
    }
}

#[test]
fn words_are_taken_up_to_a_frequency() {
    let word = |word: String, freq| UserWord { word, freq, tag: None };
    assert!(can_take(&word("公文号".to_owned(), None)));
    assert!(can_take(&word("公文号".to_owned(), Some(usize::MAX / 20_000))));
    assert!(!can_take(&word("公文号".to_owned(), Some(usize::MAX / 20_000 + 1))));
    assert!(can_take(&word("文".repeat(64), Some(3))));
    assert!(!can_take(&word("文".repeat(65), Some(3))));
}

#[test]
fn reports_account_for_every_line() {
    let text = "# 注释\n电脑 计算机 PC\n孤单\n\n文档 文件\n电脑 主机\n";
    let (groups, report) = parse_synonyms(text, "/d/s.txt");
    let members: usize = groups.iter().map(Vec::len).sum();
    assert_eq!((report.loaded, report.terms), (2, 5));
    assert_eq!(report.terms, members);
    let lines: Vec<usize> = report.problems.iter().map(|problem| problem.line).collect();
    assert_eq!(lines, [3, 6]);
    assert_eq!(report.loaded + report.problems.len(), entries(text).len());

    let (words, report) = parse_user_words("电脑 3\n*\n文档 x\n", "/d/u.txt");
    let lines: Vec<usize> = report.problems.iter().map(|problem| problem.line).collect();
    assert_eq!(lines, [2, 3]);
    assert_eq!((words.len(), report.terms), (1, 1));
}
