use rsou::preview::{
    find_document, hit_offset, mtime_label, preview_hit_offsets, preview_window, scope_label,
    segments, Preview, PreviewSpanCache, PREVIEW_MAX_BYTES, PREVIEW_WINDOW_BYTES,
};
use rsou::query::{CompiledQuery, Scope};
use rsou::repo::DocumentRow;
use rsou::search::{DocumentHit, Hit, SearchResponse, Span};

#[test]
fn preview_window_short_text_returns_whole() {
    let text = "短文本,不超过上限。";
    assert_eq!(preview_window(text, 0), (text, 0));
    assert_eq!(preview_window(text, usize::MAX), (text, 0));
}

#[test]
fn preview_window_centers_on_anchor() {
    let text = "a".repeat(PREVIEW_MAX_BYTES + 4 * PREVIEW_WINDOW_BYTES);
    let anchor = text.len() / 2 + 123;
    let (window, base) = preview_window(&text, anchor);
    assert!(base > 0);
    assert!(base <= anchor);
    assert!(anchor <= base + window.len());
    assert!(window.len() <= 2 * PREVIEW_WINDOW_BYTES);
}

#[test]
fn preview_window_same_anchor_is_stable() {
    let text = "a".repeat(PREVIEW_MAX_BYTES + 4 * PREVIEW_WINDOW_BYTES);
    let anchor = text.len() / 2;
    assert_eq!(preview_window(&text, anchor), preview_window(&text, anchor));
}

#[test]
fn preview_window_stays_on_char_boundaries() {
    let text = "文".repeat(PREVIEW_MAX_BYTES + 4 * PREVIEW_WINDOW_BYTES);
    let anchor = text.len() / 2 + 1;
    let (window, base) = preview_window(&text, anchor);
    assert!(text.is_char_boundary(base));
    assert!(text.is_char_boundary(base + window.len()));
    assert!(base <= anchor);
    assert!(anchor <= base + window.len());
}

fn doc(id: i64) -> DocumentHit {
    DocumentHit {
        group_id: id,
        document: DocumentRow {
            id,
            path: format!("/doc{id}.txt"),
            file_name: format!("doc{id}.txt"),
            title: String::new(),
            ext: "txt".to_owned(),
            file_type: "text".to_owned(),
            file_size: 1,
            file_mtime_ms: 0,
            parse_status: "parsed".to_owned(),
            parse_error_code: None,
            parse_error_message: None,
            text_length: 1,
            chunk_count: 1,
            indexed_at: None,
            source_root: None,
            updated_at: 0,
        },
        title_highlights: Vec::new(),
        hits: Vec::new(),
        total_hits: 0,
        best_rank: 0,
    }
}

fn response(ids: &[i64]) -> SearchResponse {
    SearchResponse {
        documents: ids.iter().map(|&id| doc(id)).collect(),
        total_hits: 0,
        total_documents: ids.len(),
        total_groups: ids.len(),
        compiled: CompiledQuery { match_expr: String::new(), literals: Vec::new() },
    }
}

#[test]
fn result_without_previewed_doc_clears_preview() {
    let mut preview = Preview::new();
    preview.take_result(&response(&[1, 2]));
    preview.doc_id = Some(1);
    preview.text = Some("第一篇的原文".to_owned());
    preview.hit_index = 1;
    preview.anchor = 5;
    preview.pending_scroll = Some(5);
    preview.spans_cache = Some(PreviewSpanCache {
        preview_gen: 0,
        base: 0,
        window_len: 1,
        literals: Vec::new(),
        spans: Vec::new(),
    });
    preview.take_result(&response(&[]));
    assert!(preview.doc_id.is_none(), "预览不应停留在已不在结果集的文档");
    assert!(preview.text.is_none());
    assert_eq!(preview.hit_index, 0);
    assert_eq!(preview.anchor, 0);
    assert!(preview.pending_scroll.is_none());
    assert!(preview.spans_cache.is_none());
}

#[test]
fn result_keeping_previewed_doc_keeps_preview() {
    let mut preview = Preview::new();
    preview.take_result(&response(&[1, 2]));
    preview.doc_id = Some(2);
    preview.text = Some("原文".to_owned());
    let old_gen = preview.generation;
    preview.take_result(&response(&[2, 3]));
    assert_eq!(preview.doc_id, Some(2));
    assert_eq!(preview.text.as_deref(), Some("原文"));
    assert_eq!(preview.generation, old_gen);
}

#[test]
fn selected_duplicate_is_remembered_and_disappearing_location_clears_preview() {
    let mut preview = Preview::new();
    let mut grouped = response(&[1, 2, 3]);
    grouped.documents[1].group_id = 1;
    grouped.total_groups = 2;
    preview.take_result(&grouped);
    preview.doc_id = Some(2);
    preview.text = Some("副本的正文".to_owned());
    assert!(!preview.focus(Some(&grouped), 2, 0, 6));
    assert_eq!(preview.location(1), Some(2));
    assert_eq!(preview.pending_scroll, Some(6));

    preview.doc_id = Some(3);
    preview.focus(Some(&grouped), 3, 0, 0);
    assert_eq!(preview.location(1), Some(2), "查看别组不丢失位置选择");

    preview.doc_id = Some(2);
    preview.popup_group = Some(1);
    preview.take_result(&response(&[1, 3]));
    assert!(preview.doc_id.is_none(), "代表位置仍存在也不能保留已消失副本的预览");
    assert!(preview.text.is_none());
    assert!(preview.locations.is_empty());
    assert!(preview.popup_group.is_none());
}

#[test]
fn only_the_text_that_was_asked_for_last_is_taken() {
    let mut preview = Preview::new();
    let result = response(&[1, 2]);
    assert!(preview.focus(Some(&result), 1, 0, 0));
    let first = preview.start_load();
    assert!(preview.loading);
    assert!(preview.focus(Some(&result), 2, 0, 0));
    let second = preview.start_load();
    preview.take_text(first, 1, Some("旧".to_owned()));
    assert!(preview.text.is_none());
    preview.take_text(second, 2, Some("新".to_owned()));
    assert_eq!(preview.text.as_deref(), Some("新"));
    assert!(!preview.loading);
    preview.clear();
    assert!(preview.doc_id.is_none() && preview.text.is_none());
}

#[test]
fn segments_make_up_the_text() {
    let text = "文档管理文档";
    let spans = vec![Span { start: 100, end: 106 }, Span { start: 112, end: 118 }];
    let parts = segments(text, 100, &spans);
    let shown: Vec<(&str, bool)> =
        parts.iter().map(|s| (&text[s.start..s.end], s.marked)).collect();
    assert_eq!(shown, [("文档", true), ("管理", false), ("文档", true)]);
    let whole: String = parts.iter().map(|s| &text[s.start..s.end]).collect();
    assert_eq!(whole, text);
    let parts = segments(text, 100, &vec![Span { start: 90, end: 103 }, Span { start: 300, end: 306 }]);
    let shown: Vec<(&str, bool)> =
        parts.iter().map(|s| (&text[s.start..s.end], s.marked)).collect();
    assert_eq!(shown, [("文", true), ("档管理文档", false)]);
    assert!(segments("", 0, &vec![]).is_empty());
}

#[test]
fn hits_are_placed_in_the_document() {
    let mut found = doc(1);
    found.hits.push(Hit {
        start_offset: 10,
        end_offset: 20,
        content: String::new(),
        context_header: String::new(),
        highlights: vec![Span { start: 3, end: 5 }],
    });
    found.hits.push(Hit {
        start_offset: 30,
        end_offset: 40,
        content: String::new(),
        context_header: String::new(),
        highlights: vec![],
    });
    assert_eq!(hit_offset(&found.hits[0]), 13);
    assert_eq!(preview_hit_offsets(&found), [13, 30]);
    assert_eq!(find_document(&vec![doc(4), found], 1), Some(1));
    assert_eq!(find_document(&vec![doc(4)], 1), None);
}

#[test]
fn choices_have_labels() {
    let labels = [scope_label(Scope::All), scope_label(Scope::Title), scope_label(Scope::Content)];
    assert!(labels[0] != labels[1] && labels[1] != labels[2]);
    assert!(mtime_label(None) != mtime_label(Some(7)));
}

#[test]
fn windows_start_near_their_anchor() {
    let text = "文".repeat(PREVIEW_MAX_BYTES);
    for anchor in [0, 5, PREVIEW_WINDOW_BYTES + 1, 3_000_001, text.len(), usize::MAX] {
        let (window, base) = preview_window(&text, anchor);
        assert!(base + PREVIEW_WINDOW_BYTES + 4 > anchor.min(text.len()));
        assert!(window.len() <= 2 * PREVIEW_WINDOW_BYTES + 8);
    }
}

#[test]
fn windows_end_near_their_anchor() {
    let text = "文".repeat(PREVIEW_MAX_BYTES);
    for anchor in [0, PREVIEW_WINDOW_BYTES + 1, text.len() / 2 + 1, text.len() / 2 + 2] {
        let (window, base) = preview_window(&text, anchor);
        let end = base + window.len();
        let high = anchor + PREVIEW_WINDOW_BYTES;
        assert!(high <= end && end < high + 4, "{anchor} {end}");
    }
    let (window, base) = preview_window(&text, text.len() - 3);
    assert_eq!(base + window.len(), text.len());
}
