use rsou::chunk::{chunk_document, split_long_block, CHUNK_MAX_CHARS};
use rsou::text::{Block, PlainText};

const SENTENCE_ENDS: &[char] = &['。', '!', '?', ';', '；', '\n'];

/// Blocks with two line feeds between them.
fn plain_of(blocks: &[(&str, Option<u8>)]) -> PlainText {
    let mut plain = PlainText::default();
    for (text, heading_level) in blocks {
        if !plain.text.is_empty() {
            plain.text.push_str("\n\n");
        }
        let start = plain.text.len();
        plain.text.push_str(text);
        plain.blocks.push(Block { start, end: plain.text.len(), heading_level: *heading_level });
    }
    plain
}

fn blocks_of(piece_chars: usize, pieces: usize) -> PlainText {
    let mut plain = PlainText::default();
    for i in 0..pieces {
        if !plain.text.is_empty() {
            plain.text.push_str("\n\n");
        }
        let start = plain.text.len();
        plain.text.push_str(&"文".repeat(piece_chars));
        plain.text.push_str(&format!("{i}"));
        plain.blocks.push(Block { start, end: plain.text.len(), heading_level: None });
    }
    plain
}

#[test]
fn empty_plain_yields_no_chunks() {
    assert!(chunk_document("标题", &PlainText::default()).is_empty());
}

#[test]
fn blocks_merge_until_max_then_split() {
    let plain = blocks_of(299, 4);
    let chunks = chunk_document("标题", &plain);
    assert_eq!(chunks.len(), 2);
    assert_eq!(chunks[0].start, plain.blocks[0].start);
    assert_eq!(chunks[0].end, plain.blocks[2].end);
    assert_eq!(chunks[1].start, plain.blocks[3].start);
    let mut prev_end = 0;
    for chunk in &chunks {
        assert!(chunk.start >= prev_end);
        prev_end = chunk.end;
    }
}

#[test]
fn heading_below_min_merges_into_current() {
    let plain = PlainText {
        text: "短正文\n\n二级标题\n\n后续内容".to_owned(),
        blocks: vec![
            Block { start: 0, end: 9, heading_level: None },
            Block { start: 11, end: 23, heading_level: Some(2) },
            Block { start: 25, end: 37, heading_level: None },
        ],
    };
    let chunks = chunk_document("文档", &plain);
    assert_eq!(chunks.len(), 1);
    assert_eq!(chunks[0].end, 37);
}

#[test]
fn heading_after_min_seals_and_updates_context() {
    let body = "文".repeat(450);
    let plain = PlainText {
        text: format!("{body}\n\n新章节\n\n后文"),
        blocks: vec![
            Block { start: 0, end: body.len(), heading_level: None },
            Block { start: body.len() + 2, end: body.len() + 11, heading_level: Some(1) },
            Block { start: body.len() + 13, end: body.len() + 19, heading_level: None },
        ],
    };
    let chunks = chunk_document("文档", &plain);
    assert_eq!(chunks.len(), 2);
    assert_eq!(chunks[0].context_header, "文档");
    assert_eq!(chunks[1].context_header, "文档 › 新章节");
}

#[test]
fn document_title_is_not_repeated_in_context() {
    let plain = plain_of(&[
        ("采购合同管理办法", Some(1)),
        ("正文。", None),
        ("付款条款", Some(2)),
        ("后文。", None),
    ]);
    let chunks = chunk_document("采购合同管理办法", &plain);
    assert_eq!(chunks.len(), 1);
    assert_eq!(chunks[0].context_header, "采购合同管理办法");
}

#[test]
fn meaningful_section_path_is_kept_after_title() {
    let first = "第一章正文。".repeat(120);
    let plain = plain_of(&[
        ("采购合同管理办法", Some(1)),
        (first.as_str(), None),
        ("付款条款", Some(2)),
        ("这里出现合同。", None),
    ]);
    let chunks = chunk_document("采购合同管理办法", &plain);
    assert!(chunks.len() >= 2, "第一章应已封口: {}", chunks.len());
    assert_eq!(chunks[0].context_header, "采购合同管理办法");
    assert_eq!(chunks[1].context_header, "采购合同管理办法 › 付款条款");
}

#[test]
fn nested_heading_stack_pops_shallower() {
    let plain = plain_of(&[
        ("一", Some(1)),
        ("正文", None),
        ("一点一", Some(2)),
        ("正文", None),
        ("一点二", Some(2)),
        ("正文", None),
        ("二", Some(1)),
        ("正文", None),
    ]);
    let chunks = chunk_document("文档", &plain);
    assert_eq!(chunks.len(), 1);
}

#[test]
fn overlong_block_splits_without_losing_chars() {
    let mut body = "文".repeat(600);
    body.push('。');
    body.push_str(&"字".repeat(600));
    body.push('。');
    body.push_str(&"词".repeat(800));
    let plain = PlainText {
        text: body.clone(),
        blocks: vec![Block { start: 0, end: body.len(), heading_level: None }],
    };
    let chunks = chunk_document("标题", &plain);
    assert!(chunks.len() >= 3, "应切成多段: {}", chunks.len());
    let mut reassembled = String::new();
    for chunk in &chunks {
        reassembled.push_str(&plain.text[chunk.start..chunk.end]);
    }
    assert_eq!(reassembled, body);
    for chunk in &chunks[..chunks.len() - 1] {
        let piece = &plain.text[chunk.start..chunk.end];
        assert!(piece.chars().count() <= CHUNK_MAX_CHARS);
        assert!(SENTENCE_ENDS.contains(&piece.chars().last().unwrap()));
    }
}

#[test]
fn huge_single_block_splits_in_linear_time() {
    let body = "文".repeat(2_000_000);
    let plain = PlainText {
        text: body.clone(),
        blocks: vec![Block { start: 0, end: body.len(), heading_level: None }],
    };
    let chunks = chunk_document("", &plain);
    let mut prev_end = 0;
    for chunk in &chunks {
        let piece = &plain.text[chunk.start..chunk.end];
        assert!(piece.chars().count() <= CHUNK_MAX_CHARS);
        assert_eq!(chunk.start, prev_end, "相邻块应首尾相接");
        prev_end = chunk.end;
    }
    assert_eq!(prev_end, plain.text.len(), "分块并集应覆盖整个块");
}

#[test]
fn overlong_block_without_punctuation_hard_cuts() {
    let body = "文".repeat(2000);
    let plain = PlainText {
        text: body.clone(),
        blocks: vec![Block { start: 0, end: body.len(), heading_level: None }],
    };
    let chunks = chunk_document("标题", &plain);
    assert_eq!(chunks.len(), 3);
    let mut reassembled = String::new();
    for chunk in &chunks {
        assert!(plain.text.is_char_boundary(chunk.start));
        reassembled.push_str(&plain.text[chunk.start..chunk.end]);
    }
    assert_eq!(reassembled, body);
}

#[test]
fn pieces_end_behind_the_last_sentence_end() {
    let text = format!("{}。{}", "a".repeat(899), "b".repeat(10));
    // The first 900 characters end with the sentence end itself.
    assert_eq!(split_long_block(&text, 7), vec![(7, 7 + 899 + 3), (7 + 902, 7 + 912)]);
    let text = format!("{}!{}", "a".repeat(10), "b".repeat(900));
    assert_eq!(split_long_block(&text, 0), vec![(0, 11), (11, 911)]);
    assert_eq!(split_long_block("短", 5), vec![(5, 8)]);
    assert!(split_long_block("", 5).is_empty());
}

#[test]
fn chunks_are_numbered_and_cover_blocks() {
    let long = "长".repeat(1000);
    let plain = plain_of(&[("甲", Some(1)), (long.as_str(), None), ("乙", None), ("丙", Some(2))]);
    let chunks = chunk_document("", &plain);
    for (index, chunk) in chunks.iter().enumerate() {
        assert_eq!(chunk.index, index);
    }
    for block in &plain.blocks {
        for byte in block.start..block.end {
            assert!(chunks.iter().any(|c| c.start <= byte && byte < c.end));
        }
    }
    assert_eq!(chunks[0].context_header, "甲");
}

#[test]
fn block_text_is_the_part_of_the_text() {
    let plain = plain_of(&[("标题", Some(1)), ("正文", None)]);
    assert_eq!(plain.block_text(&plain.blocks[1]), "正文");
}
