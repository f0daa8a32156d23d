use rsou::import::ImportOptions;
use rsou::library::Page;
use rsou::preview::Preview;
use rsou::query::CompiledQuery;
use rsou::repo::DocumentRow;
use rsou::screen::{
    first_hit_offset, folders_note, hit_batch, import_options, line_to_show, maintain_step,
    preview_lines, refresh_due, rescan_options, shown_document, shown_title, status_label,
    without_document, without_folder, MaintainKind,
};
use rsou::search::{DocumentHit, Hit, SearchResponse, Span};

fn row(id: i64, source_root: Option<&str>) -> DocumentRow {
    DocumentRow {
        id,
        path: format!("/d/{id}.txt"),
        file_name: format!("{id}.txt"),
        title: String::new(),
        ext: "txt".to_owned(),
        file_type: "text".to_owned(),
        file_size: 1,
        file_mtime_ms: 0,
        parse_status: "parsed".to_owned(),
        parse_error_code: None,
        parse_error_message: None,
        text_length: 1,
        chunk_count: 1,
        indexed_at: None,
        source_root: source_root.map(str::to_owned),
        updated_at: 0,
    }
}

fn found(group_id: i64, id: i64) -> DocumentHit {
    DocumentHit {
        group_id,
        document: row(id, None),
        title_highlights: vec![],
        hits: vec![],
        total_hits: 0,
        best_rank: 0,
    }
}

fn hit(start: usize, highlight: Option<usize>) -> Hit {
    Hit {
        start_offset: start,
        end_offset: start + 10,
        content: String::new(),
        context_header: String::new(),
        highlights: highlight.map(|start| Span { start, end: start + 1 }).into_iter().collect(),
    }
}

fn result() -> SearchResponse {
    SearchResponse {
        documents: vec![found(1, 1), found(1, 2), found(3, 3)],
        total_hits: 0,
        total_documents: 3,
        total_groups: 2,
        compiled: CompiledQuery { match_expr: String::new(), literals: vec![] },
    }
}

#[test]
fn lines_make_up_the_text() {
    for text in ["", "\n", "文\nb\n\nc", "a\n"] {
        let lines = preview_lines(text);
        let parts: Vec<&str> = lines.iter().map(|l| &text[l.0..l.1]).collect();
        let expected: Vec<&str> = text.split('\n').collect();
        assert_eq!(parts, expected);
        assert_eq!(parts.join("\n"), text);
    }
}

#[test]
fn targets_are_on_their_lines() {
    let text = "文\nb\n\nc";
    let lines = preview_lines(text);
    for target in 0..=text.len() {
        let line = lines[line_to_show(&lines, target).unwrap()];
        assert!(line.0 <= target && target <= line.1);
    }
    assert_eq!(line_to_show(&lines, text.len() + 1), None);
}

#[test]
fn highlighted_ranges_are_made_once() {
    let mut preview = Preview::new();
    let literals = vec!["文".to_owned()];
    preview.refresh_spans("a文", 5, literals.clone());
    let spans = preview.spans_cache.as_ref().unwrap().spans.clone();
    assert_eq!(spans, [Span { start: 1, end: 4 }]);
    // A part of the same size is taken for the same one.
    preview.refresh_spans("文a", 5, literals.clone());
    assert_eq!(preview.spans_cache.as_ref().unwrap().spans, spans);
    preview.refresh_spans("文a", 6, literals);
    assert_eq!(preview.spans_cache.as_ref().unwrap().spans, [Span { start: 0, end: 3 }]);
    preview.refresh_spans("文a", 6, vec!["a".to_owned()]);
    assert_eq!(preview.spans_cache.as_ref().unwrap().spans, [Span { start: 3, end: 4 }]);
}

#[test]
fn scrolling_is_done_once() {
    let mut preview = Preview::new();
    preview.pending_scroll = Some(4);
    preview.scrolled();
    assert_eq!(preview.pending_scroll, None);
}

#[test]
fn picked_documents_stand_for_their_groups() {
    let result = result();
    let mut preview = Preview::new();
    assert_eq!(shown_document(&result, &preview, 0), 0);
    preview.focus(Some(&result), 2, 0, 0);
    assert_eq!(shown_document(&result, &preview, 0), 1);
    assert_eq!(shown_document(&result, &preview, 2), 2);
    preview.locations = vec![(1, 9)];
    assert_eq!(shown_document(&result, &preview, 0), 0);
}

#[test]
fn first_fragments_are_found() {
    let mut document = found(1, 1);
    assert_eq!(first_hit_offset(&document), 0);
    document.hits = vec![hit(30, Some(2)), hit(10, Some(4)), hit(20, None)];
    assert_eq!(first_hit_offset(&document), 14);
}

#[test]
fn batches_stay_in_range() {
    assert_eq!(hit_batch(1, 3), 1);
    assert_eq!(hit_batch(5, 3), 2);
    assert_eq!(hit_batch(5, 0), 0);
}

#[test]
fn documents_without_title_show_their_name() {
    let mut document = row(1, None);
    assert_eq!(shown_title(&document), "1.txt");
    document.title = "题".to_owned();
    assert_eq!(shown_title(&document), "题");
}

#[test]
fn work_belongs_to_pages() {
    assert!(Page::Library.in_flight(true, false, false));
    assert!(Page::Search.in_flight(false, true, false));
    assert!(Page::Settings.in_flight(false, false, true));
    assert!(!Page::Settings.in_flight(true, true, false));
}

#[test]
fn clearing_is_confirmed() {
    assert_eq!(maintain_step(false, Some(MaintainKind::Clear), false, false), (true, None));
    assert_eq!(maintain_step(true, None, true, false), (false, Some(MaintainKind::Clear)));
    assert_eq!(maintain_step(true, None, false, true), (false, None));
    assert_eq!(
        maintain_step(true, Some(MaintainKind::Check), false, false),
        (true, Some(MaintainKind::Check))
    );
}

#[test]
fn imports_have_their_options() {
    let forced = ImportOptions { force: true, preserve_source_root: true, ..ImportOptions::default() };
    assert_eq!(import_options(true, forced.max_file_bytes), forced);
    assert_eq!(import_options(false, 100 * 1024 * 1024), ImportOptions::default());
    let rescan = rescan_options(5);
    assert!(!rescan.force && rescan.skip_unchanged_failed && rescan.preserve_source_root);
    assert_eq!(rescan.max_file_bytes, 5);
}

#[test]
fn lists_are_read_at_most_once_a_second() {
    assert!(refresh_due(true, false, true, Some(0)));
    assert!(refresh_due(false, true, false, None));
    assert!(refresh_due(false, true, false, Some(1000)));
    assert!(!refresh_due(false, true, false, Some(999)));
    assert!(!refresh_due(false, true, true, None));
    assert!(!refresh_due(false, false, false, None));
}

#[test]
fn removed_documents_leave_the_list() {
    let rows = || vec![row(1, Some("/a")), row(2, None), row(3, Some("/ab")), row(4, Some("/a"))];
    let ids = |rows: Vec<DocumentRow>| rows.iter().map(|r| r.id).collect::<Vec<_>>();
    assert_eq!(ids(without_folder(rows(), "/a")), [2, 3]);
    assert_eq!(ids(without_document(rows(), 3)), [1, 2, 4]);
    assert_eq!(ids(without_document(rows(), 9)), [1, 2, 3, 4]);
}

#[test]
fn empty_lists_of_folders_have_a_note() {
    assert_eq!(folders_note(true), "正在读取列表…");
    assert!(folders_note(false).starts_with("还没有添加过文件夹"));
}

#[test]
fn the_top_tells_the_state() {
    assert_eq!(status_label(Some("坏了"), true, 1, 2, 3), "索引不可用: 坏了");
    assert_eq!(status_label(None, true, 1, 20, 3), "导入中 1/20");
    assert_eq!(status_label(None, false, 1, 2, 30), "文档 30 篇");
}
