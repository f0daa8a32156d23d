use rsou::dict::{Dictionary, Segmenter, Synonyms};
use rsou::query::{
    apply_field, compile, compile_variants, compile_with, cut_loose, quote, tokenize, Accumulator,
    Field, Node, Parser, Scope, Token, MAX_QUERY_CHARS,
};

fn owned(values: &[&str]) -> Vec<String> {
    values.iter().map(|value| (*value).to_owned()).collect()
}

fn full() -> Dictionary {
    Dictionary::build(&vec![], vec![])
}

fn plain() -> Synonyms {
    Synonyms::of(vec![])
}

fn test_groups() -> Synonyms {
    Synonyms::of(vec![owned(&["电脑", "计算机", "PC"]), owned(&["文档", "文件"])])
}

#[test]
fn compile_table() {
    let dictionary = full();
    let cases: &[(&str, Scope, bool, Option<&str>)] = &[
        ("文档", Scope::All, false, Some("\"文档\"")),
        ("文档 管理", Scope::All, false, Some("(\"文档\" AND \"管理\")")),
        ("\"公文 号\"", Scope::All, false, Some("\"公文 号\"")),
        ("title:合同 -草稿", Scope::All, false, Some("(title:\"合同\" NOT \"草稿\")")),
        ("a OR b", Scope::All, false, Some("(\"a\" OR \"b\")")),
        ("content:(x y)", Scope::All, false, Some("(content:\"x\" AND content:\"y\")")),
        ("title:x", Scope::Content, false, Some("title:\"x\"")),
        ("x", Scope::Title, false, Some("title:\"x\"")),
        ("x", Scope::Content, false, Some("content:\"x\"")),
        ("a AND NOT b", Scope::All, false, Some("(\"a\" NOT \"b\")")),
        ("NOT a b", Scope::All, false, Some("(\"b\" NOT \"a\")")),
        ("a NOT (b OR c)", Scope::All, false, Some("(\"a\" NOT (\"b\" OR \"c\"))")),
        ("  文档  ", Scope::All, false, Some("\"文档\"")),
        ("A4", Scope::All, false, Some("\"A4\"")),
        ("", Scope::All, false, None),
        ("   ", Scope::All, false, None),
        ("文档*", Scope::All, false, None),
        ("-草稿", Scope::All, false, None),
        ("NOT a", Scope::All, false, None),
        ("\"未闭合", Scope::All, false, None),
        ("\"\"", Scope::All, false, None),
        ("foo:x", Scope::All, false, None),
        ("a OR", Scope::All, false, None),
        ("a b)", Scope::All, false, None),
        ("a OR -b", Scope::All, false, None),
    ];
    for (input, scope, loose, expected) in cases {
        let result = compile(input, *scope, *loose, &dictionary);
        match expected {
            Some(expr) => assert_eq!(
                result.map(|q| q.match_expr).as_deref().ok(),
                Some(*expr),
                "输入 {input:?}"
            ),
            None => assert!(
                result.is_err(),
                "输入 {input:?} 应报语法错误,实际得到 {:?}",
                result.map(|q| q.match_expr)
            ),
        }
    }
}

#[test]
fn nested_fields_are_rejected() {
    let dictionary = full();
    for input in [
        "title:(content:合同)",
        "content:(title:合同)",
        "title:(title:合同)",
        "content:(content:\"合同\")",
        "title:(合同 OR (发票 content:草稿))",
        "title:(合同 -content:草稿)",
        "title:(content:(合同 OR 发票))",
        "title:content:合同",
    ] {
        for scope in [Scope::All, Scope::Title, Scope::Content] {
            for loose in [false, true] {
                let error = compile(input, scope, loose, &dictionary).unwrap_err();
                assert!(error.0.contains("不能再次指定字段"), "{input}: {}", error.message());
            }
        }
    }
}

#[test]
fn nested_negations_are_rejected() {
    let dictionary = Dictionary::empty();
    for input in [
        "合同 - -文档",
        "合同 NOT NOT 文档",
        "--电脑",
        "合同 -(文档 -草稿)",
        "合同 NOT (文档 NOT 草稿)",
        "合同 -((文档 OR (-草稿)))",
        "合同 -(-文档 -草稿)",
    ] {
        let error = compile(input, Scope::All, false, &dictionary).unwrap_err();
        assert!(error.0.contains("不支持双否定或嵌套排除"), "{input}: {}", error.message());
    }
}

#[test]
fn literals_follow_positive_order_and_dedup() {
    let query = compile("文档 管理 文档 -草稿", Scope::All, false, &Dictionary::empty()).unwrap();
    assert_eq!(query.literals, ["文档", "管理"]);
}

#[test]
fn error_messages_are_chinese() {
    let dictionary = full();
    for (input, hint) in [
        ("\"未闭合", "引号没有闭合"),
        ("文档*", "词语包含不支持的查询字符"),
        ("foo:x", "未知字段"),
        ("title:-合同", "缺少词语、短语或括号条件"),
        ("title:-(合同 OR 发票)", "缺少词语、短语或括号条件"),
        ("", "查询不能为空"),
        ("-草稿", "查询必须包含至少一个正向条件"),
        ("a OR -b", "OR 的每个分支都必须包含正向条件"),
    ] {
        let error = compile(input, Scope::All, false, &dictionary).unwrap_err();
        assert!(error.0.contains(hint), "{input:?} → {}", error.message());
        assert!(error.message().starts_with("搜索语法错误:"));
    }
}

#[test]
fn overlong_query_rejected() {
    let input = "文".repeat(MAX_QUERY_CHARS + 1);
    let error = compile(&input, Scope::All, false, &Dictionary::empty()).unwrap_err();
    assert!(error.0.contains("查询过长"));
}

#[test]
fn longest_query_is_accepted() {
    let input = "文".repeat(MAX_QUERY_CHARS);
    assert!(compile(&input, Scope::All, false, &Dictionary::empty()).is_ok());
}

#[test]
fn loose_mode_cuts_terms_and_collects_segments() {
    let dictionary = full();
    let query = compile("文档管理系统", Scope::All, true, &dictionary).unwrap();
    assert!(query.literals.len() >= 2, "literals: {:?}", query.literals);
    for piece in &query.literals {
        assert!(query.match_expr.contains(&format!("\"{piece}\"")));
    }
    assert!(query.match_expr.contains(" AND "));
    let exact = compile("文档管理系统", Scope::All, false, &dictionary).unwrap();
    assert_eq!(exact.match_expr, "\"文档管理系统\"");
}

#[test]
fn tokenless_terms_are_errors_even_in_boolean_conditions() {
    let dictionary = full();
    for input in ["、！", "🙂", "合同 、", "合同 OR 🙂", "合同 -🙂"] {
        for loose in [false, true] {
            let error = compile(input, Scope::All, loose, &dictionary).unwrap_err();
            assert!(
                error.0.contains("普通词不包含可检索的文字或数字"),
                "{input}: {}",
                error.message()
            );
        }
    }
    for input in ["文*档", "合同*"] {
        assert!(compile(input, Scope::All, true, &dictionary).is_err());
    }
    let phrase = compile("\"、！\"", Scope::All, true, &dictionary).unwrap();
    assert_eq!(phrase.match_expr, "\"、！\"");
}

#[test]
fn loose_without_jieba_keeps_exact_semantics() {
    let dictionary = Dictionary::empty();
    for input in ["文、档", "文🙂档", "A4", "\"文、档\""] {
        let loose = compile(input, Scope::All, true, &dictionary).unwrap();
        let exact = compile(input, Scope::All, false, &dictionary).unwrap();
        assert_eq!(loose.match_expr, exact.match_expr);
        assert_eq!(loose.literals, exact.literals);
    }
}

#[test]
fn synonyms_expand_terms_into_or_groups() {
    let query = compile_with("电脑", Scope::All, None, &test_groups()).unwrap();
    assert_eq!(query.match_expr, "(\"电脑\" OR \"计算机\" OR \"PC\")");
    assert_eq!(query.literals, ["电脑", "计算机", "PC"]);
}

#[test]
fn synonyms_apply_in_exact_mode_and_leave_plain_terms_alone() {
    assert_eq!(
        compile_with("文件", Scope::All, None, &test_groups()).unwrap().match_expr,
        "(\"文档\" OR \"文件\")"
    );
    let plain = compile_with("合同", Scope::All, None, &test_groups()).unwrap();
    assert_eq!(plain.match_expr, "\"合同\"");
    assert_eq!(plain.literals, ["合同"]);
}

#[test]
fn quoted_phrases_expand_too() {
    assert_eq!(
        compile_with("\"文档\"", Scope::All, None, &test_groups()).unwrap().match_expr,
        "(\"文档\" OR \"文件\")"
    );
    assert_eq!(
        compile_with("\"文档 管理\"", Scope::All, None, &test_groups()).unwrap().match_expr,
        "\"文档 管理\""
    );
}

#[test]
fn exclusions_do_not_expand_synonyms() {
    let query = compile_with("文档 -电脑", Scope::All, None, &test_groups()).unwrap();
    assert_eq!(query.match_expr, "((\"文档\" OR \"文件\") NOT \"电脑\")");
    assert_eq!(query.literals, ["文档", "文件"]);
}

#[test]
fn synonym_expansion_is_capped() {
    let input = vec!["电脑"; 40].join(" ");
    let error = compile_with(&input, Scope::All, None, &test_groups()).unwrap_err();
    assert!(error.0.contains("同义词展开后条件过多"), "{}", error.message());
    assert!(compile_with("电脑 合同", Scope::All, None, &test_groups()).is_ok());
}

#[test]
fn expansion_may_use_the_whole_allowance() {
    // Each term adds two variants; the allowance is 64.
    let input = vec!["电脑"; 32].join(" ");
    assert!(compile_with(&input, Scope::All, None, &test_groups()).is_ok());
    let input = vec!["电脑"; 33].join(" ");
    assert!(compile_with(&input, Scope::All, None, &test_groups()).is_err());
}

#[test]
fn grouping_of_and_is_irrelevant() {
    for input in ["a b c", "(a b) c", "a (b c)", "(a AND (b AND c))"] {
        let query = compile_with(input, Scope::All, None, &plain()).unwrap();
        assert_eq!(query.match_expr, "((\"a\" AND \"b\") AND \"c\")", "{input}");
        assert_eq!(query.literals, ["a", "b", "c"]);
    }
}

#[test]
fn exclusions_may_stand_anywhere() {
    for input in ["-b a", "a -b", "NOT b a", "a (-b)"] {
        let query = compile_with(input, Scope::All, None, &plain()).unwrap();
        assert_eq!(query.match_expr, "(\"a\" NOT \"b\")", "{input}");
        assert_eq!(query.literals, ["a"]);
    }
}

#[test]
fn named_field_wins_over_scope() {
    let query = compile_with("content:x", Scope::Title, None, &plain()).unwrap();
    assert_eq!(query.match_expr, "content:\"x\"");
    let query = compile_with("content:x y", Scope::Title, None, &plain()).unwrap();
    assert_eq!(query.match_expr, "(content:\"x\" AND title:\"y\")");
}

#[test]
fn keywords_are_told_by_any_case() {
    for input in ["a or b", "a Or b", "a OR b"] {
        let query = compile_with(input, Scope::All, None, &plain()).unwrap();
        assert_eq!(query.match_expr, "(\"a\" OR \"b\")");
    }
    for input in ["a and b", "a AND b"] {
        let query = compile_with(input, Scope::All, None, &plain()).unwrap();
        assert_eq!(query.match_expr, "(\"a\" AND \"b\")");
    }
    let query = compile_with("a not b", Scope::All, None, &plain()).unwrap();
    assert_eq!(query.match_expr, "(\"a\" NOT \"b\")");
}

#[test]
fn only_ascii_letters_spell_keywords() {
    for c in '\u{80}'..=char::MAX {
        assert!(!c.to_uppercase().all(|upper| ['A', 'N', 'D', 'O', 'R', 'T'].contains(&upper)), "{c}");
    }
}

#[test]
fn every_syntax_error_has_its_input() {
    for (input, message) in [
        ("", "查询不能为空"),
        ("'a", "引号没有闭合"),
        ("''", "短语不能为空"),
        ("a )", "存在无法识别的尾部条件"),
        ("-a", "查询必须包含至少一个正向条件"),
        ("(a", "条件不完整"),
        ("(a ,", "括号不匹配"),
        ("a OR", "缺少词语、短语或括号条件"),
        ("title:", "缺少词语、短语或括号条件"),
        ("foo:x", "未知字段“foo”"),
        ("title:content:x", "字段条件内不能再次指定字段，请将字段条件移到分组外"),
        ("title:(content:x)", "字段分组内不能再次指定字段，请将字段条件移到分组外"),
        ("a - -b", "不支持双否定或嵌套排除"),
        ("a OR -b", "OR 的每个分支都必须包含正向条件"),
        ("a*", "词语包含不支持的查询字符"),
        ("'a\"'", "词语包含不支持的查询字符"),
        ("、", "普通词不包含可检索的文字或数字"),
    ] {
        let error = compile_with(input, Scope::All, None, &plain()).unwrap_err();
        assert_eq!(error.0, message, "{input}");
        assert_eq!(error.message(), format!("搜索语法错误:{message}"));
    }
}

#[test]
fn tokens_of_a_query() {
    let tokens = tokenize("title:合同 -(a OR \"b c\"), 12 not a-b").unwrap();
    let shapes: Vec<String> = tokens.iter().map(|token| format!("{token:?}")).collect();
    assert_eq!(
        shapes,
        [
            "Word(\"title\")",
            "Colon",
            "Word(\"合同\")",
            "Minus",
            "LParen",
            "Word(\"a\")",
            "Or",
            "Phrase(\"b c\")",
            "RParen",
            "Comma",
            "Number(\"12\")",
            "Not",
            "Word(\"a\")",
            "Minus",
            "Word(\"b\")",
        ]
    );
    assert!(matches!(tokens[5], Token::Word(_)));
}

#[test]
fn parser_reads_and_before_or() {
    let tokens = tokenize("a b OR c").unwrap();
    let node = Parser { tokens: &tokens }.parse().unwrap();
    let Node::Or(left, right) = node else { panic!("OR binds last") };
    assert!(matches!(*left, Node::And(..)));
    assert!(right.has_positive());
    assert!(left.validate_negation(true).is_ok());
}

#[test]
fn field_reaches_every_leaf() {
    let leaf = |text: &str| Node::Phrase { text: text.to_owned(), field: None };
    let node = Node::And(Box::new(leaf("a")), Box::new(Node::Not(Box::new(leaf("b")))));
    let node = apply_field(node, Field::Title).unwrap();
    let shown = format!("{node:?}");
    assert_eq!(shown.matches("field: Some(Title)").count(), 2);
    assert!(apply_field(node, Field::Content).is_err());
}

#[test]
fn literals_are_gathered_once() {
    let mut accumulator = Accumulator::new();
    accumulator.push_literal("文档");
    accumulator.push_literal("管理");
    accumulator.push_literal("文档");
    assert_eq!(accumulator.literals, ["文档", "管理"]);
}

#[test]
fn variants_are_quoted_and_joined() {
    assert_eq!(quote("a").unwrap(), "\"a\"");
    assert!(quote("a\"b").is_err());
    assert!(quote("a*").is_err());
    assert!(quote("").is_err());
    assert_eq!(compile_variants(&owned(&["a"])).unwrap(), "\"a\"");
    assert_eq!(compile_variants(&owned(&["a", "b"])).unwrap(), "(\"a\" OR \"b\")");
}

#[test]
fn loose_terms_are_split_where_words_are_known() {
    assert_eq!(cut_loose(None, "文、档"), ["文、档"]);
    let segmenter = Segmenter::build(&vec![]);
    assert_eq!(cut_loose(Some(&segmenter), "文、档"), ["文", "档"]);
}

#[test]
fn literals_stand_in_the_expression() {
    for input in ["电脑 文件", "a OR \"b c\"", "content:(文档 -草稿) x"] {
        let query = compile_with(input, Scope::All, None, &test_groups()).unwrap();
        assert!(!query.literals.is_empty());
        for literal in &query.literals {
            assert!(query.match_expr.contains(&format!("\"{literal}\"")), "{input}");
        }
    }
}

#[test]
fn exclusions_stand_for_themselves() {
    let query = compile_with("合同 -电脑 -(文件 OR 草稿)", Scope::All, None, &test_groups()).unwrap();
    assert_eq!(query.match_expr, "((\"合同\" NOT \"电脑\") NOT (\"文件\" OR \"草稿\"))");
    assert_eq!(query.literals, ["合同"]);
}

#[test]
fn spellings_of_operators_ask_for_the_same() {
    let dictionary = full();
    for scope in [Scope::All, Scope::Title, Scope::Content] {
        for loose in [false, true] {
            let of = |input: &str| {
                compile(input, scope, loose, &dictionary).map(|q| (q.match_expr, q.literals)).unwrap()
            };
            for input in ["合同 AND 文档管理", "合同 and 文档管理", "  合同   文档管理 "] {
                assert_eq!(of(input), of("合同 文档管理"), "{input}");
            }
            for input in ["合同 NOT 草稿", "合同 not 草稿", "合同 AND NOT 草稿", "合同 AND -草稿"] {
                assert_eq!(of(input), of("合同 -草稿"), "{input}");
            }
            assert_eq!(of("合同 or 2024"), of("合同 OR 2024"));
        }
    }
}

#[test]
fn literals_come_in_the_order_of_appearance() {
    let of = |input: &str| compile_with(input, Scope::All, None, &test_groups()).unwrap().literals;
    assert_eq!(of("b 文件 a b PC"), ["b", "文档", "文件", "a", "电脑", "计算机", "PC"]);
    for input in ["b a", "a OR b", "(a OR b) 文件", "title:a"] {
        for word in ["草稿", "文档", "2024"] {
            assert_eq!(of(&format!("{input} -{word}")), of(input), "{input} {word}");
        }
    }
}
