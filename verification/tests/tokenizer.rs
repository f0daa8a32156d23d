use rsou::tokenize::{
    accepts_exact_literal, has_tokens, token_spans, token_spans_marked, RsouTokenizer,
};

#[test]
fn token_spans_preserve_source_ranges() {
    let text = "A4 foo中文，文、档 😀";
    let tokens = token_spans(text);
    let values: Vec<_> = tokens.iter().map(|token| token.text.as_str()).collect();
    assert_eq!(values, ["a", "4", "foo", "中", "文", "文", "档"]);
    for token in tokens {
        assert_eq!(text[token.range.clone()].to_ascii_lowercase(), token.text);
        assert!(token.range.end <= text.len());
    }
}

#[test]
fn letters_and_digits_form_separate_runs() {
    let tokens = token_spans("ab12CD");
    let parts: Vec<_> = tokens.iter().map(|t| (t.text.as_str(), t.range.start, t.range.end)).collect();
    assert_eq!(parts, [("ab", 0, 2), ("12", 2, 4), ("cd", 4, 6)]);
}

#[test]
fn tokens_do_not_overlap() {
    let tokens = token_spans("合同 A4-b5，第12条 x");
    for pair in tokens.windows(2) {
        assert!(pair[0].range.end <= pair[1].range.start);
    }
}

#[test]
fn marks_decide_beyond_ascii() {
    let text = "文a、";
    let none = token_spans_marked(text, &vec![false, false, false]);
    assert_eq!(none.len(), 1);
    assert_eq!(none[0].text, "a");
    let all = token_spans_marked(text, &vec![true, false, true]);
    let values: Vec<_> = all.iter().map(|t| t.text.as_str()).collect();
    assert_eq!(values, ["文", "a", "、"]);
}

#[test]
fn alphanumeric_characters_are_told_from_others() {
    assert!(has_tokens("文"));
    assert!(has_tokens("é"));
    assert!(!has_tokens("、！"));
    assert!(!has_tokens("😀"));
    assert!(!has_tokens(""));
}

#[test]
fn tokenizer_accepts_known_modes_only() {
    assert!(RsouTokenizer::new(&vec![]).is_ok());
    assert!(RsouTokenizer::new(&vec!["0".to_owned(), "1".to_owned()]).is_ok());
    let error = match RsouTokenizer::new(&vec!["0".to_owned(), "2".to_owned()]) {
        Ok(_) => panic!("mode 2 must be refused"),
        Err(error) => error,
    };
    assert_eq!(error, "rsou tokenizer accepts only mode 0 or 1");
}

#[test]
fn tokenizer_reads_utf8_only() {
    let tokenizer = match RsouTokenizer::new(&vec!["0".to_owned()]) {
        Ok(tokenizer) => tokenizer,
        Err(error) => panic!("{}", error),
    };
    let tokens = tokenizer.tokenize("文b".as_bytes()).unwrap();
    assert_eq!(tokens.len(), 2);
    assert_eq!(tokens[1].range, 3..4);
    assert!(tokenizer.tokenize(&[0xff, 0xfe]).is_none());
}

#[test]
fn exact_literals_are_substrings() {
    assert!(!accepts_exact_literal("文、档", "文档"));
    assert!(accepts_exact_literal("合同编号 A4", "合同"));
    assert!(accepts_exact_literal("abc", ""));
    assert!(!accepts_exact_literal("", "a"));
}

#[test]
fn tokens_hold_letters_and_digits() {
    let text = "合同 A4-b5，第１２条 ½x_y";
    let tokens = token_spans(text);
    for (offset, c) in text.char_indices() {
        let covered = tokens.iter().any(|t| t.range.start <= offset && offset < t.range.end);
        let indexed = if c.is_ascii() { c.is_ascii_alphanumeric() } else { c.is_alphanumeric() };
        assert_eq!(covered, indexed, "{c}");
    }
}
