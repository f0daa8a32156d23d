use rsou::import::{FileOutcome, ImportEvent};
use rsou::library::{
    can_import, confirm_step, file_name_matches, files_note, import_notice, question_of,
    result_summary, search_request, standalone_document_indices, visible_folders, ConfirmStep,
    ImportProgress, ListRefresh, Page, PendingConfirm, MAX_RECENT_FAILURES,
};
use rsou::query::Scope;
use rsou::repo::{DocumentRow, FolderGroup, ImportCounts};

fn row(id: i64, name: &str, source_root: Option<&str>) -> DocumentRow {
    DocumentRow {
        id,
        path: format!("/{name}"),
        file_name: name.to_owned(),
        title: String::new(),
        ext: "txt".to_owned(),
        file_type: "text".to_owned(),
        file_size: 1,
        file_mtime_ms: 0,
        parse_status: "parsed".to_owned(),
        parse_error_code: None,
        parse_error_message: None,
        text_length: 1,
        chunk_count: 1,
        indexed_at: Some(0),
        source_root: source_root.map(str::to_owned),
        updated_at: 0,
    }
}

fn group(root: &str, names: &[&str]) -> FolderGroup {
    FolderGroup {
        root: root.to_owned(),
        documents: names
            .iter()
            .enumerate()
            .map(|(i, name)| row(i as i64 + 1, name, Some(root)))
            .collect(),
    }
}

#[test]
fn files_tab_lists_only_standalone_documents() {
    let docs = vec![
        row(1, "文件夹里的.txt", Some("/a")),
        row(2, "单独加的.txt", None),
        row(3, "另一个文件夹里的.txt", Some("/b")),
    ];
    let files = standalone_document_indices(&docs, "");
    assert_eq!(files, vec![1], "只应列出 source_root 为空的文档");
    let names: Vec<&str> = files.iter().map(|i| docs[*i].file_name.as_str()).collect();
    assert_eq!(names, ["单独加的.txt"]);
}

#[test]
fn files_tab_stays_correct_under_filter() {
    let docs = vec![
        row(1, "合同甲.txt", Some("/a")),
        row(2, "合同乙.txt", None),
        row(3, "合同丙.txt", None),
        row(4, "无关.txt", None),
    ];
    let files = standalone_document_indices(&docs, "合同");
    let names: Vec<&str> = files.iter().map(|i| docs[*i].file_name.as_str()).collect();
    assert_eq!(names, ["合同乙.txt", "合同丙.txt"]);
}

#[test]
fn files_tab_is_empty_when_library_only_has_folders() {
    let docs = vec![row(1, "a.txt", Some("/a")), row(2, "b.txt", Some("/a"))];
    assert!(standalone_document_indices(&docs, "").is_empty());
    assert_eq!(docs.iter().filter(|d| d.source_root.is_some()).count(), 2);
}

#[test]
fn visible_indices_are_not_affected_by_row_order() {
    let docs = vec![row(1, "x.txt", Some("/a")), row(2, "y.txt", None)];
    let files = standalone_document_indices(&docs, "");
    assert_eq!(files, vec![1]);
    assert_eq!(docs[files[0]].file_name, "y.txt");
}

#[test]
fn matched_counts_only_matching_documents() {
    let g = group("/d", &["合同甲.docx", "合同乙.docx", "无关.pdf"]);
    assert_eq!(g.matched(""), 3, "空过滤词应全命中");
    assert_eq!(g.matched("合同"), 2);
    assert_eq!(g.matched("无关"), 1);
    assert_eq!(g.matched("没有这个"), 0);
}

#[test]
fn file_name_matches_is_case_insensitive_and_empty_means_all() {
    assert!(file_name_matches("Report.DOCX", "report"));
    assert!(file_name_matches("任何名字", ""));
    assert!(!file_name_matches("a.txt", "b"));
}

#[test]
fn folders_without_matches_are_hidden() {
    let groups = vec![group("/a", &["合同.txt"]), group("/b", &["无关.txt"]), group("/c", &["合同.md"])];
    assert_eq!(visible_folders(&groups, "合同"), [0, 2]);
    assert_eq!(visible_folders(&groups, ""), [0, 1, 2]);
    assert!(visible_folders(&groups, "合同.pdf").is_empty());
}

#[test]
fn progress_follows_events() {
    let mut progress = ImportProgress::default();
    assert!(progress.take_event(ImportEvent::Scanned { total: 3 }, "").is_none());
    assert_eq!(progress.counts.total, 3);
    let counts = ImportCounts { total: 3, processed: 1, ok: 0, failed: 1, skipped: 0 };
    let failed = ImportEvent::FileDone {
        path: "/d/a.txt".to_owned(),
        outcome: FileOutcome::Failed { code: "IO".to_owned(), message: "坏".to_owned() },
        counts,
    };
    assert!(progress.take_event(failed, "a.txt").is_none());
    assert_eq!(progress.recent_failures, [("a.txt".to_owned(), "坏".to_owned())]);
    assert_eq!(progress.current_path.as_deref(), Some("/d/a.txt"));
    let counts = ImportCounts { total: 3, processed: 3, ok: 1, failed: 1, skipped: 1 };
    let notice = progress.take_event(ImportEvent::Finished { run_id: 1, counts, cancelled: false }, "");
    assert_eq!(notice.as_deref(), Some("导入完成:成功 1、失败 1、跳过 1(共 3)"));
    assert_eq!(import_notice(&counts, true), "导入已取消:处理 3/3 个文件");
}

#[test]
fn only_the_last_failures_are_kept() {
    let mut progress = ImportProgress::default();
    for i in 0..MAX_RECENT_FAILURES + 2 {
        let outcome = FileOutcome::Failed { code: "IO".to_owned(), message: format!("{i}") };
        let counts = ImportCounts::default();
        progress.take_event(ImportEvent::FileDone { path: "/p".to_owned(), outcome, counts }, "p");
    }
    assert_eq!(progress.recent_failures.len(), MAX_RECENT_FAILURES);
    let last = &progress.recent_failures[MAX_RECENT_FAILURES - 1].1;
    assert_eq!(last, &format!("{}", MAX_RECENT_FAILURES + 1));
}

#[test]
fn removal_is_asked_for() {
    let folder = PendingConfirm::RemoveFolder { root: "/a".to_owned(), doc_count: 2 };
    let question = question_of(&folder);
    assert_eq!(question.title, "移除文件夹");
    assert!(question.body.contains("/a"));
    assert_eq!(question.confirm_label, "确认移除(2 篇)");
    let document = PendingConfirm::RemoveDocument { id: 1, label: "a.txt".to_owned() };
    assert!(question_of(&document).body.contains("「a.txt」"));
    assert_eq!(confirm_step(true, false, false), ConfirmStep::Remove);
    assert_eq!(confirm_step(false, true, false), ConfirmStep::Drop);
    assert_eq!(confirm_step(false, false, false), ConfirmStep::Wait);
}

#[test]
fn notes_on_empty_lists() {
    assert_eq!(files_note(0, 0, true, true, false), Some("正在读取文档列表…"));
    assert!(files_note(0, 0, false, true, false).unwrap().starts_with("资料库为空"));
    assert!(files_note(2, 0, false, true, false).unwrap().starts_with("没有单独添加的文件"));
    assert_eq!(files_note(2, 1, false, true, false), None);
}

#[test]
fn requests_are_made_of_what_was_entered() {
    assert!(search_request("  ", Scope::All, true, vec![], None, 0, "").is_none());
    let day = 86_400_000;
    let request =
        search_request(" 合同 ", Scope::Title, false, vec!["pdf".to_owned()], Some(7), 10 * day, " /a ")
            .unwrap();
    assert_eq!(request.query, "合同");
    assert_eq!(request.scope, Scope::Title);
    assert!(request.loose);
    assert_eq!(request.filters.mtime_from_ms, Some(3 * day));
    assert_eq!(request.filters.mtime_to_ms, None);
    assert_eq!(request.filters.path_prefix.as_deref(), Some("/a"));
}

#[test]
fn results_are_summed_up() {
    assert_eq!(
        result_summary(1, 2, 1, 2, "3.0"),
        "展示 1 组结果，共 2 个文件位置 · 耗时 3.0 ms"
    );
    assert!(result_summary(1, 2, 5, 9, "3.0").contains("FTS 候选 5 组、9 个位置"));
}

#[test]
fn lists_are_read_once_at_a_time() {
    let mut refresh = ListRefresh::new();
    let first = refresh.request().unwrap();
    assert!(refresh.request().is_none());
    let landing = refresh.landed(first);
    assert!(landing.again);
    let second = refresh.request().unwrap();
    let landing = refresh.landed(second);
    assert!(landing.show && !landing.again);
    let third = refresh.request().unwrap();
    refresh.invalidate();
    assert!(!refresh.landed(third).show);
    refresh.request().unwrap();
    refresh.not_started();
    assert!(refresh.request().is_some());
}

#[test]
fn imports_need_input_and_quiet() {
    assert!(can_import(false, false, 1, true));
    assert!(!can_import(true, false, 1, true));
    assert!(!can_import(false, true, 1, true));
    assert!(!can_import(false, false, 0, true));
    assert!(!can_import(false, false, 1, false));
}

#[test]
fn pages_have_titles() {
    assert_eq!(Page::Library.title(), "资料库");
    assert_eq!(Page::Search.title(), "搜索");
    assert_eq!(Page::Settings.title(), "设置");
    assert!(Page::Search.description().contains("关键词"));
}
