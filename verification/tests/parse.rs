use anydoc::ConvertError;
use rsou::fixtures::{docx_fixture, scanned_pdf_fixture, text_pdf_fixture, xlsx_fixture};
use rsou::parse::{
    check_size, explain, file_type_as, file_type_of, file_type_of_extension, finish_conversion, finish_text,
    io_error, map_convert_error, parse_anydoc, parse_anydoc_as, parse_bytes, parse_bytes_as, parse_file, parse_text, supported_extensions,
    Failure, FileType, ParseError, ParseErrorCode,
};
use rsou::paths::{extension_of_name, stem_of};

#[test]
fn every_listed_extension_has_a_type() {
    for ext in supported_extensions() {
        let by_extension = file_type_of_extension(ext).unwrap();
        assert_eq!(file_type_of(&format!("/d/名.{ext}")), Some(by_extension));
        assert_eq!(file_type_of_extension(&ext.to_uppercase()), Some(by_extension));
    }
    assert_eq!(supported_extensions().len(), 23);
    assert_eq!(file_type_of("/d/a.exe"), None);
    assert_eq!(file_type_of("/d/txt"), None);
    assert_eq!(file_type_of("/d/.txt"), None);
    assert_eq!(file_type_of("/d.txt/a"), None);
    assert_eq!(file_type_of("/d/a.b.Md"), Some(FileType::Text));
}

#[test]
fn types_have_names() {
    for (file_type, name, label) in [
        (FileType::Word, "word", "Word"),
        (FileType::Excel, "excel", "Excel"),
        (FileType::Ppt, "ppt", "PPT"),
        (FileType::Pdf, "pdf", "PDF"),
        (FileType::Text, "text", "文本"),
        (FileType::Epub, "epub", "电子书"),
    ] {
        assert_eq!(file_type.as_str(), name);
        assert_eq!(file_type.label(), label);
    }
}

#[test]
fn text_is_decoded() {
    let parsed = parse_text("\u{feff}正文\r\n第二行".as_bytes()).unwrap();
    assert!(!parsed.markdown.starts_with('\u{feff}'));
    assert!(parsed.markdown.contains("正文"));
    assert!(parsed.warnings.is_empty());
    assert_eq!(parsed.parser_name, "text");
    let (bytes, _, _) = encoding_rs::GB18030.encode("电脑 计算机");
    let parsed = parse_text(&bytes).unwrap();
    assert!(parsed.markdown.contains("电脑 计算机"));
    assert_eq!(parsed.warnings, ["按 GB18030 解码"]);
}

#[test]
fn empty_text_is_an_error() {
    for bytes in ["", "  \n\t", "\u{feff}"] {
        let error = parse_text(bytes.as_bytes()).unwrap_err();
        assert_eq!(error.code, ParseErrorCode::Empty);
    }
    assert_eq!(finish_text(" ", vec![]).unwrap_err().message, "文本文件为空或没有可用内容");
}

#[test]
fn documents_are_converted() {
    let parsed = parse_bytes("/d/a.docx", &docx_fixture()).unwrap();
    assert!(parsed.markdown.contains("阶段零文档"));
    assert_eq!(parsed.parser_name, "anydoc");
    let parsed = parse_bytes("/d/a.xlsx", &xlsx_fixture()).unwrap();
    assert!(parsed.markdown.contains("阶段零表格"));
    let parsed = parse_anydoc("/d/a.pdf", &text_pdf_fixture()).unwrap();
    assert!(parsed.markdown.contains("stage zero pdf text"));
    let parsed = parse_bytes("/d/a.txt", "正文".as_bytes()).unwrap();
    assert_eq!(parsed.parser_name, "text");
}

#[test]
fn failures_of_conversions() {
    let error = parse_bytes("/d/a.pdf", &scanned_pdf_fixture()).unwrap_err();
    assert_eq!(error.code, ParseErrorCode::NeedsOcr);
    assert_eq!(error.message, "该 PDF 没有可提取文本,需要 OCR,本版本不支持");
    let error = parse_bytes("/d/a.exe", "x".as_bytes()).unwrap_err();
    assert_eq!(error.code, ParseErrorCode::Unsupported);
    assert_eq!(error.detail, "扩展名不支持: /d/a.exe");
    let error = parse_anydoc("/d/a.zzz", "x".as_bytes()).unwrap_err();
    assert_eq!(error.detail, "内容与扩展名均无法判定格式: /d/a.zzz");
    let error = map_convert_error(&ConvertError::NeedsOcr { pages: vec![1, 3], page_count: 4 });
    assert_eq!(error.detail, "[1, 3]/4 页需要 OCR");
    assert_eq!(error.detail, format!("{:?}/{} 页需要 OCR", vec![1, 3], 4));
    let error =
        map_convert_error(&ConvertError::NeedsOcr { pages: vec![1, u32::MAX], page_count: 3 });
    assert_eq!(error.detail, "[1, 4294967295]/3 页需要 OCR");
    let error = map_convert_error(&ConvertError::Encrypted);
    assert_eq!(error.code, ParseErrorCode::Encrypted);
    assert_eq!(error.detail, ConvertError::Encrypted.to_string());
}

#[test]
fn failures_are_explained() {
    for (failure, code, detail) in [
        (Failure::Unsupported("x".to_owned()), ParseErrorCode::Unsupported, "x"),
        (Failure::Encrypted("x".to_owned()), ParseErrorCode::Encrypted, "x"),
        (
            Failure::Malformed { part: Some("p".to_owned()), detail: "x".to_owned() },
            ParseErrorCode::Malformed,
            "p: x",
        ),
        (Failure::Malformed { part: None, detail: "x".to_owned() }, ParseErrorCode::Malformed, "x"),
        (Failure::MissingPart("p".to_owned()), ParseErrorCode::Malformed, "缺少 p"),
        (
            Failure::ResourceLimit { limit: "l".to_owned(), detail: "x".to_owned() },
            ParseErrorCode::ResourceLimit,
            "l: x",
        ),
        (Failure::NeedsOcr { pages: vec![2], page_count: 9 }, ParseErrorCode::NeedsOcr, "[2]/9 页需要 OCR"),
        (Failure::Io("x".to_owned()), ParseErrorCode::Io, "x"),
        (Failure::Other("x".to_owned()), ParseErrorCode::Malformed, "x"),
    ] {
        let error = explain(failure);
        assert_eq!(error.code, code);
        assert_eq!(error.detail, detail);
    }
    assert_eq!(finish_conversion(Ok(" \n".to_owned())).unwrap_err().code, ParseErrorCode::Empty);
    assert!(finish_conversion(Ok("文".to_owned())).is_ok());
    assert!(finish_conversion(Err(Failure::Io("x".to_owned()))).is_err());
}

#[test]
fn errors_are_written_with_their_details() {
    assert_eq!(ParseError::new(ParseErrorCode::Io, "坏", "x").text(), "坏(x)");
    assert_eq!(ParseError::new(ParseErrorCode::Io, "坏", "").text(), "坏");
    for (code, name) in [
        (ParseErrorCode::Unsupported, "UNSUPPORTED"),
        (ParseErrorCode::Encrypted, "ENCRYPTED"),
        (ParseErrorCode::Malformed, "MALFORMED"),
        (ParseErrorCode::ResourceLimit, "RESOURCE_LIMIT"),
        (ParseErrorCode::NeedsOcr, "NEEDS_OCR"),
        (ParseErrorCode::Io, "IO"),
        (ParseErrorCode::TooLarge, "TOO_LARGE"),
        (ParseErrorCode::Empty, "EMPTY"),
    ] {
        assert_eq!(code.as_str(), name);
    }
}

#[test]
fn large_files_are_refused() {
    let max = 3 * 1024 * 1024;
    assert!(check_size(max, max).is_ok());
    let error = check_size(max + 1, max).unwrap_err();
    assert_eq!(error.code, ParseErrorCode::TooLarge);
    assert_eq!(error.message, "文件超过 3 MB 上限");
    assert_eq!(error.detail, "3145729 字节");
    assert_eq!(io_error("/d/a", "拒绝").detail, "/d/a: 拒绝");
}

#[test]
fn names_are_split_at_the_last_dot() {
    assert_eq!(extension_of_name("a.b.c").as_deref(), Some("c"));
    assert_eq!(extension_of_name(".c"), None);
    assert_eq!(extension_of_name("a."), Some(String::new()));
    assert_eq!(stem_of("a.b.c"), "a.b");
    assert_eq!(stem_of(".c"), "");
    assert_eq!(stem_of("c"), "c");
    for name in ["a.b.c", ".c", "a.", "a", "..a", "文.docx"] {
        let path = std::path::Path::new(name);
        let ext = path.extension().map(|e| e.to_str().unwrap().to_owned());
        assert_eq!(extension_of_name(name), ext, "{name}");
    }
}

#[test]
fn files_are_read_and_handed_back() {
    let bytes = "正文".as_bytes().to_vec();
    let (parsed, same) = parse_file("/d/a.txt", Ok(bytes.clone())).unwrap();
    assert!(parsed.markdown.contains("正文"));
    assert_eq!(same, bytes);
    let error = parse_file("/d/a.txt", Err(io_error("/d/a.txt", "拒绝"))).unwrap_err();
    assert_eq!(error.detail, "/d/a.txt: 拒绝");
    assert!(parse_file("/d/a.exe", Ok(bytes)).is_err());
}

#[test]
fn extensions_decide_however_the_path_is_written() {
    for path in ["C:\\docs\\a.DOCX", "/d/合同:终稿.docx", "//server/share/a.docx", "a.docx/"] {
        assert_eq!(file_type_of(path), Some(FileType::Word), "{path}");
    }
    assert_eq!(file_type_as(Some("DOCX")), Some(FileType::Word));
    assert_eq!(file_type_as(Some("exe")), None);
    assert_eq!(file_type_as(None), None);
}

#[test]
fn bytes_are_parsed_by_the_extension_that_was_read() {
    let text = parse_bytes_as(Some("txt"), "C:\\d\\a.txt", "正文".as_bytes()).unwrap();
    assert_eq!(text.markdown, "正文");
    let refused = parse_bytes_as(Some("exe"), "/d/a.exe", "正文".as_bytes()).unwrap_err();
    assert_eq!(refused.code, ParseErrorCode::Unsupported);
    let unnamed = parse_bytes_as(None, "/d/a", "正文".as_bytes()).unwrap_err();
    assert_eq!(unnamed.message, parse_bytes("/d/a", "正文".as_bytes()).unwrap_err().message);
    let docx = docx_fixture();
    let by_bytes = parse_anydoc_as(None, "/d/无扩展名", &docx).unwrap();
    let by_extension = parse_anydoc_as(Some("docx"), "/d/a.docx", &docx).unwrap();
    assert_eq!(by_bytes.markdown, by_extension.markdown);
    let unknown = parse_anydoc_as(None, "/d/a", "正文".as_bytes()).unwrap_err();
    assert_eq!(unknown.code, ParseErrorCode::Unsupported);
}
