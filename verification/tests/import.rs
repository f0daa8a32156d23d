use rsou::import::{
    build_document, classify_inputs, content_hash, count_batch, count_outcome, dummy_meta, ending,
    failed_outcome, finish_file, hex_of_bytes, is_dotted, is_folder_import, item_of, scan_entry, scan_entry_as,
    skip_unchanged, skip_unread, source_root_of, start_file, stored_size, EntryKind, Existing,
    FileOutcome, FileResult, FileStep, ImportOptions, MetaReading, ScanAction,
};
use rsou::parse::{FileType, ParseError, ParseErrorCode, Parsed};
use rsou::repo::{FileMeta, ImportCounts};
use rsou::text::{Block, PlainText};

fn meta(path: &str, size: u64, mtime: i64) -> FileMeta {
    FileMeta {
        path: path.to_owned(),
        canonical_path: path.to_owned(),
        file_name: path.rsplit('/').next().unwrap().to_owned(),
        ext: "txt".to_owned(),
        file_type: FileType::Text,
        file_size: size,
        file_mtime_ms: mtime,
        source_root: None,
    }
}

fn existing(parsed: bool, hash: &str) -> Existing {
    Existing {
        id: 7,
        file_size: 6,
        file_mtime_ms: 9,
        content_hash: hash.to_owned(),
        parsed,
        source_root: Some("/a".to_owned()),
    }
}

#[test]
fn hashes_are_those_of_sha256() {
    assert_eq!(
        content_hash(&[]),
        "e3b0c44298fc1c149afbf4c8996fb92427ae41e4649b934ca495991b7852b855"
    );
    assert_eq!(
        content_hash("abc".as_bytes()),
        "ba7816bf8f01cfea414140de5dae2223b00361a396177a9cb410ff61f20015ad"
    );
    assert_eq!(hex_of_bytes(&vec![0, 255, 16]), "00ff10");
}

#[test]
fn scanning_skips_hidden_and_system_entries() {
    assert_eq!(scan_entry(EntryKind::Directory, Some("docs"), "/d/docs"), ScanAction::Descend);
    for name in [".git", "node_modules", "$RECYCLE.BIN", "System Volume Information"] {
        let action = scan_entry(EntryKind::Directory, Some(name), &format!("/d/{name}"));
        assert_eq!(action, ScanAction::Ignore);
    }
    assert_eq!(scan_entry(EntryKind::File, Some("a.txt"), "/d/a.txt"), ScanAction::Take);
    assert_eq!(scan_entry(EntryKind::File, Some("a.exe"), "/d/a.exe"), ScanAction::Ignore);
    assert_eq!(scan_entry(EntryKind::Other, Some("a.txt"), "/d/a.txt"), ScanAction::Ignore);
    assert!(is_dotted(".a") && !is_dotted("a"));
}

#[test]
fn one_directory_is_a_folder_import() {
    let one = vec!["/a".to_owned()];
    let two = vec!["/a".to_owned(), "/b".to_owned()];
    assert_eq!(classify_inputs(&one, true), ("folder", Some("/a".to_owned())));
    assert_eq!(classify_inputs(&one, false), ("files", None));
    assert_eq!(classify_inputs(&two, true), ("files", None));
    assert!(is_folder_import(&one, true) && !is_folder_import(&two, true));
}

#[test]
fn unchanged_files_are_skipped() {
    let options = ImportOptions::default();
    let same = meta("/a/1.txt", 6, 9);
    assert_eq!(skip_unread(&options, Some(&existing(true, "h")), &same), Some(7));
    assert_eq!(skip_unread(&options, None, &same), None);
    assert_eq!(skip_unread(&options, Some(&existing(true, "h")), &meta("/a/1.txt", 7, 9)), None);
    assert_eq!(skip_unread(&options, Some(&existing(true, "h")), &meta("/a/1.txt", 6, 8)), None);
    assert_eq!(skip_unchanged(&options, Some(&existing(true, "h")), "h"), Some(7));
    assert_eq!(skip_unchanged(&options, Some(&existing(true, "h")), "g"), None);
}

#[test]
fn forced_and_failed_files_are_read_again() {
    let same = meta("/a/1.txt", 6, 9);
    let forced = ImportOptions { force: true, ..ImportOptions::default() };
    assert_eq!(skip_unread(&forced, Some(&existing(true, "h")), &same), None);
    assert_eq!(skip_unchanged(&forced, Some(&existing(true, "h")), "h"), None);
    let options = ImportOptions::default();
    assert_eq!(skip_unread(&options, Some(&existing(false, "h")), &same), None);
    let quiet = ImportOptions { skip_unchanged_failed: true, ..ImportOptions::default() };
    assert_eq!(skip_unread(&quiet, Some(&existing(false, "h")), &same), Some(7));
}

#[test]
fn source_roots_are_kept_where_asked() {
    let keep = ImportOptions { preserve_source_root: true, ..ImportOptions::default() };
    let plain = ImportOptions { preserve_source_root: false, ..ImportOptions::default() };
    let prior = existing(true, "h");
    assert_eq!(source_root_of(&keep, None, Some(&prior)).as_deref(), Some("/a"));
    assert_eq!(source_root_of(&plain, None, Some(&prior)), None);
    assert_eq!(source_root_of(&keep, Some("/b"), Some(&prior)).as_deref(), Some("/b"));
    assert_eq!(source_root_of(&keep, None, None), None);
}

#[test]
fn files_go_from_metadata_to_results() {
    let options = ImportOptions::default();
    let found = || MetaReading::Found(meta("/a/1.txt", 6, 9));
    let step = start_file("/a/1.txt", Some("1.txt"), &options, None, found(), None);
    let FileStep::Read(taken) = step else { panic!("the file has to be read") };
    let read = finish_file("/a/1.txt", taken, &options, None, Ok("正文".as_bytes().to_vec()));
    let FileResult::Done { hash, result, .. } = read else { panic!("the file is new") };
    assert_eq!(hash, content_hash("正文".as_bytes()));
    assert!(result.unwrap().markdown.contains("正文"));

    let prior = existing(true, "h");
    let step = start_file("/a/1.txt", Some("1.txt"), &options, None, found(), Some(&prior));
    assert!(matches!(
        step,
        FileStep::Finish(FileResult::Skipped { document_id: 7, touch: false, .. })
    ));
    let same = existing(true, &content_hash("正文".as_bytes()));
    let read = finish_file(
        "/a/1.txt",
        meta("/a/1.txt", 1, 1),
        &options,
        Some(&same),
        Ok("正文".as_bytes().to_vec()),
    );
    assert!(matches!(read, FileResult::Skipped { document_id: 7, touch: true, .. }));
}

#[test]
fn unreadable_files_have_results_too() {
    let options = ImportOptions::default();
    let step = start_file("/a/x.exe", Some("x.exe"), &options, None, MetaReading::NotADocument, None);
    let FileStep::Finish(FileResult::Done { result, .. }) = step else { panic!("no document") };
    assert_eq!(result.unwrap_err().code, ParseErrorCode::Unsupported);
    let failed = MetaReading::Failed("拒绝".to_owned());
    let step = start_file("/a/x.txt", Some("x.txt"), &options, None, failed, None);
    let FileStep::Finish(FileResult::Done { meta, result, .. }) = step else { panic!("unreadable") };
    assert_eq!(result.unwrap_err().code, ParseErrorCode::Io);
    assert_eq!(meta.file_name, "x.txt");
    let error = ParseError::new(ParseErrorCode::Io, "坏", "x");
    let read = finish_file("/a/1.txt", dummy_meta("/a/1.txt", Some("1.txt"), None), &options, None, Err(error));
    assert!(matches!(read, FileResult::Done { result: Err(_), .. }));
}

#[test]
fn documents_are_divided() {
    let parsed = Parsed {
        markdown: "# 题\n\n文".to_owned(),
        warnings: vec!["w".to_owned()],
        parser_name: "text",
        parser_version: "text.v1",
    };
    let plain = PlainText {
        text: "题\n\n文".to_owned(),
        blocks: vec![
            Block { start: 0, end: 3, heading_level: Some(1) },
            Block { start: 5, end: 8, heading_level: None },
        ],
    };
    let document = build_document(parsed, plain, "题".to_owned());
    assert_eq!(document.chunks.len(), 1);
    assert_eq!((document.chunks[0].start, document.chunks[0].end), (0, 8));
    assert_eq!(document.warnings, ["w"]);
    assert_eq!(document.title, "题");
}

#[test]
fn counts_balance() {
    let counts = ImportCounts { total: 3, ..ImportCounts::default() };
    let outcomes = vec![
        FileOutcome::Stored { document_id: 1 },
        FileOutcome::Failed { code: "IO".to_owned(), message: "坏".to_owned() },
        FileOutcome::Skipped,
    ];
    let all = count_batch(&counts, &outcomes);
    assert_eq!(all[0].processed, 1);
    assert_eq!(all[1].processed, 2);
    let last = all[2];
    assert_eq!((last.ok, last.failed, last.skipped, last.processed), (1, 1, 1, 3));
    assert_eq!(count_outcome(&counts, &outcomes[2]).skipped, 1);
}

#[test]
fn outcomes_become_items() {
    assert_eq!(item_of(&FileOutcome::Stored { document_id: 1 }), ("ok", None, None));
    assert_eq!(item_of(&FileOutcome::Skipped), ("skipped", None, None));
    let error = ParseError::new(ParseErrorCode::Io, "坏", "x");
    let failed = failed_outcome(&error);
    assert_eq!(item_of(&failed), ("failed", Some("IO".to_owned()), Some("坏(x)".to_owned())));
}

#[test]
fn runs_end_in_one_of_three_ways() {
    assert_eq!(ending(None, false).status, "done");
    let cancelled = ending(None, true);
    assert_eq!((cancelled.status, cancelled.cancelled), ("cancelled", true));
    let failed = ending(Some("坏".to_owned()), true);
    assert_eq!((failed.status, failed.message.as_deref()), ("failed", Some("坏")));
}

#[test]
fn sizes_are_stored_as_signed_numbers() {
    assert_eq!(stored_size(5), 5);
    assert_eq!(stored_size(u64::MAX), u64::MAX as i64);
}

#[test]
fn entries_are_taken_by_their_extension() {
    assert_eq!(scan_entry(EntryKind::File, Some("合同:终稿.docx"), "/d/合同:终稿.docx"), ScanAction::Take);
    assert_eq!(scan_entry_as(EntryKind::File, Some("a.DOCX"), Some("DOCX")), ScanAction::Take);
    assert_eq!(scan_entry_as(EntryKind::File, Some("a.exe"), Some("exe")), ScanAction::Ignore);
    assert_eq!(scan_entry_as(EntryKind::File, Some("a"), None), ScanAction::Ignore);
    assert_eq!(scan_entry_as(EntryKind::Directory, Some("a.exe"), Some("exe")), ScanAction::Descend);
    assert_eq!(scan_entry_as(EntryKind::Directory, Some(".git"), None), ScanAction::Ignore);
}
