use rsou::maintain::{
    db_file_bytes, index_stats, integrity_report, needs_fts_rebuild, Rebuild, PROGRESS_STEP,
};
use rsou::repo::stats;

#[test]
fn needs_rebuild_where_marked_or_empty() {
    assert!(!needs_fts_rebuild(None, true, false));
    assert!(!needs_fts_rebuild(None, false, true));
    assert!(needs_fts_rebuild(Some("1"), false, true));
    assert!(!needs_fts_rebuild(Some("0"), false, true));
    assert!(needs_fts_rebuild(None, true, true));
}

#[test]
fn reports_name_what_was_found() {
    let fine = integrity_report(&vec!["ok".to_owned()], None, 0, 0);
    assert!(fine.is_consistent());
    assert_eq!(fine.summary(), "索引一致:SQLite 结构与全文索引自检正常,行数对齐");
    let missing = integrity_report(&vec!["ok".to_owned()], None, 1, 0);
    assert!(!missing.is_consistent());
    assert_eq!(
        missing.summary(),
        "索引不一致:1 篇文档没有索引行;建议执行「重建全文索引」"
    );
    let all = integrity_report(
        &vec!["坏页".to_owned(), "ok".to_owned(), "坏树".to_owned()],
        Some("损坏".to_owned()),
        1,
        2,
    );
    assert_eq!(
        all.summary(),
        "索引不一致:SQLite 结构异常(坏页;坏树),全文索引自检失败(损坏),1 篇文档没有索引行,2 条索引行找不到文档;建议执行「重建全文索引」"
    );
}

#[test]
fn rebuilding_goes_on_until_all_documents_are_in() {
    let mut rebuild = Rebuild::start(501);
    let mut calls = Vec::new();
    let mut more = true;
    while more {
        let batch = PROGRESS_STEP.min(rebuild.total - rebuild.processed);
        let last = 1000 + rebuild.processed as i64;
        more = rebuild.advance(last, batch);
        assert_eq!(rebuild.last_id, last);
        calls.push((rebuild.processed, rebuild.total));
    }
    assert_eq!(calls, vec![(500, 501), (501, 501)]);
}

#[test]
fn sizes_are_added_up() {
    assert_eq!(db_file_bytes(1, 2, 3), 6);
    let s = index_stats(&stats(3, 2, 4), 2, 6, 9);
    assert_eq!((s.documents, s.failed, s.fts_rows, s.db_bytes, s.text_bytes), (3, 1, 2, 6, 9));
}
