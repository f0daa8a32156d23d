use rsou::library::standalone_document_indices;
use rsou::parse::FileType;
use rsou::repo::{
    forgets_run, group_by_source_root, history_cutoff, max_file_bytes, max_file_mb, millis_of,
    now_ms, placeholders, save_markdown_enabled, stats, warnings_to_json, DocumentRow, FileMeta,
};

fn row(id: i64, path: &str, source_root: Option<&str>) -> DocumentRow {
    DocumentRow {
        id,
        path: path.to_owned(),
        file_name: path.rsplit('/').next().unwrap().to_owned(),
        title: "标题".to_owned(),
        ext: "txt".to_owned(),
        file_type: "text".to_owned(),
        file_size: 1,
        file_mtime_ms: 0,
        parse_status: "parsed".to_owned(),
        parse_error_code: None,
        parse_error_message: None,
        text_length: 1,
        chunk_count: 1,
        indexed_at: Some(0),
        source_root: source_root.map(str::to_owned),
        updated_at: 0,
    }
}

#[test]
fn history_retention_uses_finish_time() {
    let now = 200 * 86_400_000;
    let cutoff = now - 90 * 86_400_000;
    assert_eq!(history_cutoff(now), cutoff);
    let cases = [
        ("done", 1, Some(cutoff - 1), true),
        ("failed", 1, Some(cutoff - 1), true),
        ("cancelled", 1, Some(cutoff - 1), true),
        ("done", 1, Some(cutoff), false),
        ("failed", 1, Some(cutoff + 1), false),
        ("cancelled", 1, Some(now), false),
        ("running", 1, None, false),
        ("done", cutoff - 1, None, true),
        ("done", cutoff, None, false),
    ];
    let mut forgotten = 0;
    for (status, started, finished, expired) in cases {
        assert_eq!(forgets_run(status, finished, started, now), expired, "{status} {finished:?}");
        forgotten += expired as usize;
    }
    assert_eq!(forgotten, 4);
}

#[test]
fn documents_are_grouped_by_folder() {
    let grouped = group_by_source_root(vec![
        ("/a".to_owned(), row(1, "/a/1.txt", Some("/a"))),
        ("/a".to_owned(), row(2, "/a/2.txt", Some("/a"))),
        ("/b".to_owned(), row(3, "/b/3.txt", Some("/b"))),
    ]);
    assert_eq!(grouped.len(), 2, "应有两个来源文件夹");
    assert_eq!(grouped[0].root, "/a");
    assert_eq!(grouped[0].documents.len(), 2);
    assert_eq!(grouped[1].root, "/b");
    assert_eq!(grouped[1].documents.len(), 1);
    assert!(group_by_source_root(vec![]).is_empty());
}

#[test]
fn times_are_milliseconds() {
    assert_eq!(millis_of(None), 0);
    assert_eq!(millis_of(Some(5)), 5);
    assert_eq!(millis_of(Some(u64::MAX as u128)), -1);
    // Some day between 2020 and 2100.
    let now = now_ms();
    assert!(1_577_836_800_000 < now && now < 4_102_444_800_000);
}

#[test]
fn metadata_of_files() {
    let meta = FileMeta::of("/d/a.b.DOCX", "/e/a.b.DOCX", Some("a.b.DOCX"), Some("DOCX"), 7, Some(9))
        .unwrap();
    assert_eq!(meta.file_type, FileType::Word);
    assert_eq!(meta.ext, "docx");
    assert_eq!(meta.file_mtime_ms, 9);
    assert_eq!(meta.canonical_path, "/e/a.b.DOCX");
    assert_eq!(meta.stem(), "a.b");
    assert!(FileMeta::of("/d/a.exe", "/d/a.exe", Some("a.exe"), Some("exe"), 7, None).is_none());
    let bare = FileMeta::of("/d/.txt", "/d/.txt", Some(".txt"), None, 7, None);
    assert!(bare.is_none());
}

#[test]
fn settings_are_read() {
    assert!(!save_markdown_enabled(None));
    assert!(save_markdown_enabled(Some(" 1 ")));
    assert!(!save_markdown_enabled(Some("true")));
    assert_eq!(max_file_mb(None), 100);
    assert_eq!(max_file_mb(Some("7")), 7);
    assert_eq!(max_file_mb(Some("0")), 100);
    assert_eq!(max_file_mb(Some("x")), 100);
    assert_eq!(max_file_mb(Some("2048")), 2048);
    assert_eq!(max_file_mb(Some("2049")), 100);
    assert_eq!(max_file_bytes(Some("3")), 3 * 1024 * 1024);
}

#[test]
fn warnings_are_a_json_list() {
    assert_eq!(warnings_to_json(&vec![]), "[]");
    let list = vec!["a\"b\\".to_owned(), "\n\t\u{1}文".to_owned()];
    assert_eq!(warnings_to_json(&list), "[\"a\\\"b\\\\\",\"\\u000a\\u0009\\u0001文\"]");
}

#[test]
fn statements_have_placeholders() {
    assert_eq!(placeholders(3), "?,?,?");
    assert_eq!(placeholders(1), "?");
    assert_eq!(placeholders(0), "");
}

#[test]
fn failed_documents_are_the_rest() {
    let s = stats(5, 3, 9);
    assert_eq!((s.documents, s.parsed, s.failed, s.chunks), (5, 3, 2, 9));
}

#[test]
fn source_root_groups_and_standalone_are_separated() {
    let documents = vec![
        row(1, "/a/1.txt", Some("/a")),
        row(2, "/a/2.txt", Some("/a")),
        row(3, "/b/3.txt", Some("/b")),
        row(4, "/loose.txt", None),
    ];

    let standalone: Vec<&DocumentRow> = standalone_document_indices(&documents, "")
        .into_iter()
        .map(|i| &documents[i])
        .collect();
    assert_eq!(standalone.len(), 1);
    assert_eq!(standalone[0].file_name, "loose.txt");
    assert_eq!(standalone[0].source_root, None);

    let mut rows: Vec<(String, DocumentRow)> = documents
        .into_iter()
        .filter_map(|document| Some((document.source_root.clone()?, document)))
        .collect();
    rows.sort_by(|a, b| a.0.cmp(&b.0));
    let grouped = group_by_source_root(rows);
    assert_eq!(grouped.len(), 2, "应有两个来源文件夹");
    assert_eq!(grouped[0].root, "/a");
    assert_eq!(grouped[0].documents.len(), 2);
    assert_eq!(grouped[1].root, "/b");
    assert_eq!(grouped[1].documents.len(), 1);
}
