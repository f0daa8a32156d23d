use anydoc::{to_markdown_bytes, ConvertError, Format};
use rsou::fixtures::{
    docx_fixture, pdf_from_objects, scanned_pdf_fixture, text_pdf_fixture, xlsx_fixture,
    zip_package,
};

#[test]
fn docx_fixture_is_converted() {
    let markdown = to_markdown_bytes(&docx_fixture(), Format::Docx).unwrap();
    assert!(markdown.contains("阶段零文档"));
    assert!(markdown.contains("anydoc docx"));
}

#[test]
fn xlsx_fixture_is_converted() {
    let markdown = to_markdown_bytes(&xlsx_fixture(), Format::Excel).unwrap();
    assert!(markdown.contains("阶段零表格"));
    assert!(markdown.contains("42"));
}

#[test]
fn text_pdf_fixture_is_converted() {
    let markdown = to_markdown_bytes(&text_pdf_fixture(), Format::Pdf).unwrap();
    assert!(markdown.contains("stage zero pdf text"));
}

#[test]
fn scanned_pdf_fixture_is_reported_as_needing_ocr() {
    let error = to_markdown_bytes(&scanned_pdf_fixture(), Format::Pdf).unwrap_err();
    assert_eq!(error.code(), "needsOcr");
    assert!(matches!(error, ConvertError::NeedsOcr { .. }));
}

#[test]
fn packages_hold_their_parts() {
    let bytes = zip_package(&vec![("a.txt", "甲"), ("b/c.txt", "")]);
    let mut archive = zip::ZipArchive::new(std::io::Cursor::new(bytes)).unwrap();
    assert_eq!(archive.len(), 2);
    let first = std::io::read_to_string(archive.by_index(0).unwrap()).unwrap();
    assert_eq!(first, "甲");
    assert_eq!(archive.by_index(1).unwrap().name().unwrap(), "b/c.txt");
}

#[test]
fn offsets_point_at_objects() {
    let pdf = pdf_from_objects(&vec!["<<>>".as_bytes().to_vec(), "<< /A 1 >>".as_bytes().to_vec()]);
    let text = String::from_utf8_lossy(&pdf).into_owned();
    let table = text.find("xref\n").unwrap();
    let rows: Vec<&str> = text[table..].lines().collect();
    assert_eq!(rows[1], "0 3");
    for number in 1..=2usize {
        let offset: usize = rows[2 + number][..10].parse().unwrap();
        assert!(pdf[offset..].starts_with(format!("{number} 0 obj\n").as_bytes()));
    }
    let start = text.find("startxref\n").unwrap();
    let stated: usize = text[start..].lines().nth(1).unwrap().parse().unwrap();
    assert_eq!(&pdf[stated..stated + 4], "xref".as_bytes());
}
