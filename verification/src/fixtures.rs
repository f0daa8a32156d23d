//! Tiny documents of every kind that conversion is tried on.

use std::io::{Cursor, Write};

use vstd::prelude::*;
use vstd::utf8::*;
use zip::write::{SimpleFileOptions, ZipWriter};
use zip::CompressionMethod;

use crate::text::{byte_len, decimal, decimal_of, lemma_offset_monotonic};
use crate::time::{pad, padded};

verus! {

/// The content types of the document.
pub const DOCX_TYPES: &'static str = "<?xml version=\"1.0\" encoding=\"UTF-8\"?>\n<Types xmlns=\"http://schemas.openxmlformats.org/package/2006/content-types\">\n  <Default Extension=\"rels\" ContentType=\"application/vnd.openxmlformats-package.relationships+xml\"/>\n  <Default Extension=\"xml\" ContentType=\"application/xml\"/>\n  <Override PartName=\"/word/document.xml\" ContentType=\"application/vnd.openxmlformats-officedocument.wordprocessingml.document.main+xml\"/>\n</Types>";

/// What the document starts from.
pub const DOCX_RELS: &'static str = "<?xml version=\"1.0\" encoding=\"UTF-8\"?>\n<Relationships xmlns=\"http://schemas.openxmlformats.org/package/2006/relationships\">\n  <Relationship Id=\"rId1\" Type=\"http://schemas.openxmlformats.org/officeDocument/2006/relationships/officeDocument\" Target=\"word/document.xml\"/>\n</Relationships>";

/// A heading and a paragraph.
pub const DOCX_DOCUMENT: &'static str = "<?xml version=\"1.0\" encoding=\"UTF-8\" standalone=\"yes\"?>\n<w:document xmlns:w=\"http://schemas.openxmlformats.org/wordprocessingml/2006/main\">\n  <w:body>\n    <w:p><w:pPr><w:pStyle w:val=\"Heading1\"/></w:pPr><w:r><w:t>阶段零文档</w:t></w:r></w:p>\n    <w:p><w:r><w:t>anydoc docx 编译与解析验证。</w:t></w:r></w:p>\n  </w:body>\n</w:document>";

/// The content types of the workbook.
pub const XLSX_TYPES: &'static str = "<?xml version=\"1.0\" encoding=\"UTF-8\"?>\n<Types xmlns=\"http://schemas.openxmlformats.org/package/2006/content-types\">\n  <Default Extension=\"rels\" ContentType=\"application/vnd.openxmlformats-package.relationships+xml\"/>\n  <Default Extension=\"xml\" ContentType=\"application/xml\"/>\n  <Override PartName=\"/xl/workbook.xml\" ContentType=\"application/vnd.openxmlformats-officedocument.spreadsheetml.sheet.main+xml\"/>\n  <Override PartName=\"/xl/worksheets/sheet1.xml\" ContentType=\"application/vnd.openxmlformats-officedocument.spreadsheetml.worksheet+xml\"/>\n</Types>";

/// What the workbook starts from.
pub const XLSX_RELS: &'static str = "<?xml version=\"1.0\" encoding=\"UTF-8\"?>\n<Relationships xmlns=\"http://schemas.openxmlformats.org/package/2006/relationships\">\n  <Relationship Id=\"rId1\" Type=\"http://schemas.openxmlformats.org/officeDocument/2006/relationships/officeDocument\" Target=\"xl/workbook.xml\"/>\n</Relationships>";

/// The sheets of the workbook.
pub const XLSX_WORKBOOK: &'static str = "<?xml version=\"1.0\" encoding=\"UTF-8\"?>\n<workbook xmlns=\"http://schemas.openxmlformats.org/spreadsheetml/2006/main\" xmlns:r=\"http://schemas.openxmlformats.org/officeDocument/2006/relationships\">\n  <sheets><sheet name=\"验证表\" sheetId=\"1\" r:id=\"rId1\"/></sheets>\n</workbook>";

/// Where the sheets are.
pub const XLSX_WORKBOOK_RELS: &'static str = "<?xml version=\"1.0\" encoding=\"UTF-8\"?>\n<Relationships xmlns=\"http://schemas.openxmlformats.org/package/2006/relationships\">\n  <Relationship Id=\"rId1\" Type=\"http://schemas.openxmlformats.org/officeDocument/2006/relationships/worksheet\" Target=\"worksheets/sheet1.xml\"/>\n</Relationships>";

/// One row with a text and a number.
pub const XLSX_SHEET: &'static str = "<?xml version=\"1.0\" encoding=\"UTF-8\"?>\n<worksheet xmlns=\"http://schemas.openxmlformats.org/spreadsheetml/2006/main\">\n  <sheetData>\n    <row r=\"1\"><c r=\"A1\" t=\"inlineStr\"><is><t>阶段零表格</t></is></c><c r=\"B1\"><v>42</v></c></row>\n  </sheetData>\n</worksheet>";

/// A ZIP archive that is being written.
#[verifier::external_body]
pub struct Package {
    writer: ZipWriter<Cursor<Vec<u8>>>,
}

/// The files that were written into an archive: names and contents.
pub uninterp spec fn package_parts(package: Package) -> Seq<(Seq<char>, Seq<char>)>;

/// The files that are read from the bytes of a ZIP archive: names and contents.
pub uninterp spec fn archive_parts(bytes: Seq<u8>) -> Seq<(Seq<char>, Seq<char>)>;

/// `ZipWriter::new`: an archive without files.
#[verifier::external_body]
fn new_package() -> (package: Package)
    ensures
        package_parts(package) == Seq::<(Seq<char>, Seq<char>)>::empty(),
{
    Package { writer: ZipWriter::new(Cursor::new(Vec::new())) }
}

/// What a file takes up in an archive at most: its name twice, its contents, which
/// compression may make longer by an eighth, and two headers.
pub open spec fn part_size(part: (Seq<char>, Seq<char>)) -> int {
    2 * byte_len(part.0) + byte_len(part.1) + byte_len(part.1) / 8 + 400
}

/// What files take up in an archive at most.
pub open spec fn package_size(parts: Seq<(Seq<char>, Seq<char>)>) -> int
    decreases parts.len(),
{
    if parts.len() == 0 {
        0
    } else {
        package_size(parts.drop_last()) + part_size(parts.last())
    }
}

/// The longest name of a file, in bytes: with its header it takes less than 64 KiB.
pub const MAX_PART_NAME: usize = 65_504;

/// The files can be written into one archive: their names differ and are short
/// enough, and the archive keeps to the limits of the format, which has 32 bits for
/// places and 16 bits for numbers, and to the memory.
pub open spec fn packable(parts: Seq<(Seq<char>, Seq<char>)>) -> bool {
    &&& parts.len() <= 0xffff
    &&& package_size(parts) <= 0xffff_0000
    &&& package_size(parts) <= usize::MAX / 4
    &&& forall|i: int| 0 <= i < parts.len() ==> byte_len((#[trigger] parts[i]).0) <= MAX_PART_NAME
    &&& forall|i: int, j: int|
        0 <= i < j < parts.len() ==> (#[trigger] parts[i]).0 != (#[trigger] parts[j]).0
}

/// `ZipWriter::start_file`: a compressed file without contents behind the
/// others.
#[verifier::external_body]
fn start_part(package: &mut Package, path: &str)
    requires
        packable(package_parts(*old(package)).push((path@, Seq::empty()))),
    ensures
        package_parts(*final(package)) == package_parts(*old(package)).push((path@, Seq::empty())),
{
    let options = SimpleFileOptions::default().compression_method(CompressionMethod::Deflated);
    package.writer.start_file(path, options).expect("start ZIP part");
}

/// The files with more contents of the last one.
pub open spec fn extended(parts: Seq<(Seq<char>, Seq<char>)>, contents: Seq<char>) -> Seq<
    (Seq<char>, Seq<char>),
> {
    parts.drop_last().push((parts.last().0, parts.last().1 + contents))
}

/// `Write::write_all` of `ZipWriter`: the contents are added to the file that
/// was started last.
#[verifier::external_body]
fn write_part(package: &mut Package, contents: &str)
    requires
        package_parts(*old(package)).len() > 0,
        packable(extended(package_parts(*old(package)), contents@)),
    ensures
        package_parts(*final(package)) == extended(package_parts(*old(package)), contents@),
{
    package.writer.write_all(contents.as_bytes()).expect("write ZIP part");
}

/// `ZipWriter::finish`: the bytes of the archive. What was written into it is
/// read from them. The bytes themselves hold the time and the platform that
/// they were written at, so nothing more is said of them.
#[verifier::external_body]
fn finish_package(package: Package) -> (bytes: Vec<u8>)
    ensures
        archive_parts(bytes@) == package_parts(package),
{
    package.writer.finish().expect("finish ZIP package").into_inner()
}

/// Names and contents, without the representation.
pub open spec fn part_views(parts: Seq<(&str, &str)>) -> Seq<(Seq<char>, Seq<char>)> {
    parts.map_values(|p: (&str, &str)| (p.0@, p.1@))
}

proof fn lemma_packable_start(parts: Seq<(Seq<char>, Seq<char>)>, n: int)
    requires
        packable(parts),
        0 <= n <= parts.len(),
    ensures
        packable(parts.take(n)),
    decreases parts.len() - n,
{
    if n < parts.len() {
        lemma_packable_start(parts, n + 1);
        let more = parts.take(n + 1);
        assert(more.drop_last() =~= parts.take(n));
        lemma_offset_monotonic(more.last().0, 0, more.last().0.len() as int);
        lemma_offset_monotonic(more.last().1, 0, more.last().1.len() as int);
        assert forall|i: int| 0 <= i < n implies byte_len((#[trigger] parts.take(n)[i]).0)
            <= MAX_PART_NAME by {
            assert(parts.take(n)[i] == parts[i]);
        }
        assert forall|i: int, j: int| 0 <= i < j < n implies (#[trigger] parts.take(n)[i]).0 != (
        #[trigger] parts.take(n)[j]).0 by {
            assert(parts.take(n)[i] == parts[i] && parts.take(n)[j] == parts[j]);
        }
    } else {
        assert(parts.take(n) =~= parts);
    }
}

proof fn lemma_packable_empty(
    parts: Seq<(Seq<char>, Seq<char>)>,
    path: Seq<char>,
    contents: Seq<char>,
)
    requires
        packable(parts.push((path, contents))),
    ensures
        packable(parts.push((path, Seq::empty()))),
{
    let full = parts.push((path, contents));
    let bare = parts.push((path, Seq::empty()));
    lemma_offset_monotonic(contents, 0, contents.len() as int);
    assert(full.drop_last() =~= parts);
    assert(bare.drop_last() =~= parts);
    assert forall|i: int| 0 <= i < bare.len() implies byte_len((#[trigger] bare[i]).0)
        <= MAX_PART_NAME by {
        assert(bare[i].0 == full[i].0);
    }
    assert forall|i: int, j: int| 0 <= i < j < bare.len() implies (#[trigger] bare[i]).0 != (
    #[trigger] bare[j]).0 by {
        assert(bare[i].0 == full[i].0 && bare[j].0 == full[j].0);
    }
}

/// Makes a ZIP archive of files.
pub fn zip_package(parts: &Vec<(&str, &str)>) -> (bytes: Vec<u8>)
    requires
        packable(part_views(parts@)),
    ensures
        archive_parts(bytes@) == part_views(parts@),
{
    let ghost all = part_views(parts@);
    let mut package = new_package();
    let mut i: usize = 0;
    assert(all.take(0) =~= Seq::empty());
    while i < parts.len()
        invariant
            i <= parts@.len(),
            all == part_views(parts@),
            packable(all),
            package_parts(package) == all.take(i as int),
        decreases parts@.len() - i,
    {
        let (path, contents) = parts[i];
        let ghost done = all.take(i as int);
        proof {
            lemma_packable_start(all, i + 1);
            assert(all.take(i + 1) =~= done.push((path@, contents@)));
            lemma_packable_empty(done, path@, contents@);
        }
        start_part(&mut package, path);
        proof {
            let started = done.push((path@, Seq::empty()));
            assert(started.drop_last() =~= done);
            assert(Seq::<char>::empty() + contents@ =~= contents@);
        }
        write_part(&mut package, contents);
        i += 1;
    }
    assert(all.take(i as int) =~= all);
    finish_package(package)
}

/// The files of a document with a heading and a paragraph.
pub open spec fn docx_parts() -> Seq<(Seq<char>, Seq<char>)> {
    seq![
        ("[Content_Types].xml"@, DOCX_TYPES@),
        ("_rels/.rels"@, DOCX_RELS@),
        ("word/document.xml"@, DOCX_DOCUMENT@),
    ]
}

/// The files of a workbook with one sheet.
pub open spec fn xlsx_parts() -> Seq<(Seq<char>, Seq<char>)> {
    seq![
        ("[Content_Types].xml"@, XLSX_TYPES@),
        ("_rels/.rels"@, XLSX_RELS@),
        ("xl/workbook.xml"@, XLSX_WORKBOOK@),
        ("xl/_rels/workbook.xml.rels"@, XLSX_WORKBOOK_RELS@),
        ("xl/worksheets/sheet1.xml"@, XLSX_SHEET@),
    ]
}

proof fn lemma_docx_types_size()
    ensures
        DOCX_TYPES@.len() == 423,
{
    reveal_strlit("<?xml version=\"1.0\" encoding=\"UTF-8\"?>\n<Types xmlns=\"http://schemas.openxmlformats.org/package/2006/content-types\">\n  <Default Extension=\"rels\" ContentType=\"application/vnd.openxmlformats-package.relationships+xml\"/>\n  <Default Extension=\"xml\" ContentType=\"application/xml\"/>\n  <Override PartName=\"/word/document.xml\" ContentType=\"application/vnd.openxmlformats-officedocument.wordprocessingml.document.main+xml\"/>\n</Types>");
}

proof fn lemma_docx_rels_size()
    ensures
        DOCX_RELS@.len() == 285,
{
    reveal_strlit("<?xml version=\"1.0\" encoding=\"UTF-8\"?>\n<Relationships xmlns=\"http://schemas.openxmlformats.org/package/2006/relationships\">\n  <Relationship Id=\"rId1\" Type=\"http://schemas.openxmlformats.org/officeDocument/2006/relationships/officeDocument\" Target=\"word/document.xml\"/>\n</Relationships>");
}

proof fn lemma_docx_document_size()
    ensures
        DOCX_DOCUMENT@.len() == 320,
{
    reveal_strlit("<?xml version=\"1.0\" encoding=\"UTF-8\" standalone=\"yes\"?>\n<w:document xmlns:w=\"http://schemas.openxmlformats.org/wordprocessingml/2006/main\">\n  <w:body>\n    <w:p><w:pPr><w:pStyle w:val=\"Heading1\"/></w:pPr><w:r><w:t>阶段零文档</w:t></w:r></w:p>\n    <w:p><w:r><w:t>anydoc docx 编译与解析验证。</w:t></w:r></w:p>\n  </w:body>\n</w:document>");
}

proof fn lemma_xlsx_types_size()
    ensures
        XLSX_TYPES@.len() == 554,
{
    reveal_strlit("<?xml version=\"1.0\" encoding=\"UTF-8\"?>\n<Types xmlns=\"http://schemas.openxmlformats.org/package/2006/content-types\">\n  <Default Extension=\"rels\" ContentType=\"application/vnd.openxmlformats-package.relationships+xml\"/>\n  <Default Extension=\"xml\" ContentType=\"application/xml\"/>\n  <Override PartName=\"/xl/workbook.xml\" ContentType=\"application/vnd.openxmlformats-officedocument.spreadsheetml.sheet.main+xml\"/>\n  <Override PartName=\"/xl/worksheets/sheet1.xml\" ContentType=\"application/vnd.openxmlformats-officedocument.spreadsheetml.worksheet+xml\"/>\n</Types>");
}

proof fn lemma_xlsx_rels_size()
    ensures
        XLSX_RELS@.len() == 283,
{
    reveal_strlit("<?xml version=\"1.0\" encoding=\"UTF-8\"?>\n<Relationships xmlns=\"http://schemas.openxmlformats.org/package/2006/relationships\">\n  <Relationship Id=\"rId1\" Type=\"http://schemas.openxmlformats.org/officeDocument/2006/relationships/officeDocument\" Target=\"xl/workbook.xml\"/>\n</Relationships>");
}

proof fn lemma_xlsx_workbook_size()
    ensures
        XLSX_WORKBOOK@.len() == 268,
{
    reveal_strlit("<?xml version=\"1.0\" encoding=\"UTF-8\"?>\n<workbook xmlns=\"http://schemas.openxmlformats.org/spreadsheetml/2006/main\" xmlns:r=\"http://schemas.openxmlformats.org/officeDocument/2006/relationships\">\n  <sheets><sheet name=\"验证表\" sheetId=\"1\" r:id=\"rId1\"/></sheets>\n</workbook>");
}

proof fn lemma_xlsx_workbook_rels_size()
    ensures
        XLSX_WORKBOOK_RELS@.len() == 284,
{
    reveal_strlit("<?xml version=\"1.0\" encoding=\"UTF-8\"?>\n<Relationships xmlns=\"http://schemas.openxmlformats.org/package/2006/relationships\">\n  <Relationship Id=\"rId1\" Type=\"http://schemas.openxmlformats.org/officeDocument/2006/relationships/worksheet\" Target=\"worksheets/sheet1.xml\"/>\n</Relationships>");
}

proof fn lemma_xlsx_sheet_size()
    ensures
        XLSX_SHEET@.len() == 252,
{
    reveal_strlit("<?xml version=\"1.0\" encoding=\"UTF-8\"?>\n<worksheet xmlns=\"http://schemas.openxmlformats.org/spreadsheetml/2006/main\">\n  <sheetData>\n    <row r=\"1\"><c r=\"A1\" t=\"inlineStr\"><is><t>阶段零表格</t></is></c><c r=\"B1\"><v>42</v></c></row>\n  </sheetData>\n</worksheet>");
}

proof fn lemma_docx_parts()
    ensures
        packable(docx_parts()),
{
    let all = docx_parts();
    reveal_strlit("[Content_Types].xml");
    lemma_offset_monotonic("[Content_Types].xml"@, 0, "[Content_Types].xml"@.len() as int);
    lemma_docx_types_size();
    lemma_offset_monotonic(DOCX_TYPES@, 0, DOCX_TYPES@.len() as int);
    reveal_strlit("_rels/.rels");
    lemma_offset_monotonic("_rels/.rels"@, 0, "_rels/.rels"@.len() as int);
    lemma_docx_rels_size();
    lemma_offset_monotonic(DOCX_RELS@, 0, DOCX_RELS@.len() as int);
    reveal_strlit("word/document.xml");
    lemma_offset_monotonic("word/document.xml"@, 0, "word/document.xml"@.len() as int);
    lemma_docx_document_size();
    lemma_offset_monotonic(DOCX_DOCUMENT@, 0, DOCX_DOCUMENT@.len() as int);
    reveal_with_fuel(package_size, 7);
}

proof fn lemma_xlsx_parts()
    ensures
        packable(xlsx_parts()),
{
    let all = xlsx_parts();
    reveal_strlit("[Content_Types].xml");
    lemma_offset_monotonic("[Content_Types].xml"@, 0, "[Content_Types].xml"@.len() as int);
    lemma_xlsx_types_size();
    lemma_offset_monotonic(XLSX_TYPES@, 0, XLSX_TYPES@.len() as int);
    reveal_strlit("_rels/.rels");
    lemma_offset_monotonic("_rels/.rels"@, 0, "_rels/.rels"@.len() as int);
    lemma_xlsx_rels_size();
    lemma_offset_monotonic(XLSX_RELS@, 0, XLSX_RELS@.len() as int);
    reveal_strlit("xl/workbook.xml");
    lemma_offset_monotonic("xl/workbook.xml"@, 0, "xl/workbook.xml"@.len() as int);
    lemma_xlsx_workbook_size();
    lemma_offset_monotonic(XLSX_WORKBOOK@, 0, XLSX_WORKBOOK@.len() as int);
    reveal_strlit("xl/_rels/workbook.xml.rels");
    lemma_offset_monotonic("xl/_rels/workbook.xml.rels"@, 0, "xl/_rels/workbook.xml.rels"@.len() as int);
    lemma_xlsx_workbook_rels_size();
    lemma_offset_monotonic(XLSX_WORKBOOK_RELS@, 0, XLSX_WORKBOOK_RELS@.len() as int);
    reveal_strlit("xl/worksheets/sheet1.xml");
    lemma_offset_monotonic("xl/worksheets/sheet1.xml"@, 0, "xl/worksheets/sheet1.xml"@.len() as int);
    lemma_xlsx_sheet_size();
    lemma_offset_monotonic(XLSX_SHEET@, 0, XLSX_SHEET@.len() as int);
    reveal_with_fuel(package_size, 7);
}

/// A word processing document with one heading and one paragraph.
pub fn docx_fixture() -> (bytes: Vec<u8>)
    ensures
        archive_parts(bytes@) == docx_parts(),
{
    let parts: Vec<(&str, &str)> = vec![
        ("[Content_Types].xml", DOCX_TYPES),
        ("_rels/.rels", DOCX_RELS),
        ("word/document.xml", DOCX_DOCUMENT),
    ];
    proof {
        assert(part_views(parts@) =~= docx_parts());
        lemma_docx_parts();
    }
    zip_package(&parts)
}

/// A spreadsheet with one row.
pub fn xlsx_fixture() -> (bytes: Vec<u8>)
    ensures
        archive_parts(bytes@) == xlsx_parts(),
{
    let parts: Vec<(&str, &str)> = vec![
        ("[Content_Types].xml", XLSX_TYPES),
        ("_rels/.rels", XLSX_RELS),
        ("xl/workbook.xml", XLSX_WORKBOOK),
        ("xl/_rels/workbook.xml.rels", XLSX_WORKBOOK_RELS),
        ("xl/worksheets/sheet1.xml", XLSX_SHEET),
    ];
    proof {
        assert(part_views(parts@) =~= xlsx_parts());
        lemma_xlsx_parts();
    }
    zip_package(&parts)
}

/// The bytes of a text in ASCII.
pub open spec fn ascii_bytes(s: Seq<char>) -> Seq<u8> {
    encode_utf8(s)
}

fn append_text(bytes: &mut Vec<u8>, text: &str)
    ensures
        final(bytes)@ == old(bytes)@ + ascii_bytes(text@),
{
    let part = text.as_bytes();
    append_bytes(bytes, part);
}

fn append_bytes(bytes: &mut Vec<u8>, part: &[u8])
    ensures
        final(bytes)@ == old(bytes)@ + part@,
{
    let ghost start = bytes@;
    let mut i: usize = 0;
    assert(start + part@.take(0) =~= start);
    while i < part.len()
        invariant
            i <= part@.len(),
            bytes@ == start + part@.take(i as int),
        decreases part@.len() - i,
    {
        bytes.push(part[i]);
        i += 1;
        assert(bytes@ =~= start + part@.take(i as int));
    }
    assert(part@.take(i as int) =~= part@);
}

/// What a PDF file starts with.
pub open spec fn pdf_header() -> Seq<u8> {
    ascii_bytes("%PDF-1.4\n%"@) + seq![0xe2u8, 0xe3u8, 0xcfu8, 0xd3u8] + ascii_bytes("\n"@)
}

/// The object with a number.
pub open spec fn pdf_object(number: nat, object: Seq<u8>) -> Seq<u8> {
    ascii_bytes(decimal(number)) + ascii_bytes(" 0 obj\n"@) + object + ascii_bytes("\nendobj\n"@)
}

/// The file up to its `n`-th object.
pub open spec fn pdf_body(objects: Seq<Seq<u8>>, n: int) -> Seq<u8>
    decreases n,
{
    if n <= 0 {
        pdf_header()
    } else {
        pdf_body(objects, n - 1) + pdf_object(n as nat, objects[n - 1])
    }
}

/// The entry of the table of offsets for an object.
pub open spec fn pdf_entry(offset: nat) -> Seq<u8> {
    ascii_bytes(padded(decimal(offset), 10)) + ascii_bytes(" 00000 n \n"@)
}

/// The entries of the table of offsets for the first `n` objects.
pub open spec fn pdf_entries(objects: Seq<Seq<u8>>, n: int) -> Seq<u8>
    decreases n,
{
    if n <= 0 {
        Seq::empty()
    } else {
        pdf_entries(objects, n - 1) + pdf_entry(pdf_body(objects, n - 1).len())
    }
}

/// A PDF file made of objects, with the table of their offsets.
pub open spec fn pdf_file(objects: Seq<Seq<u8>>) -> Seq<u8> {
    let n = objects.len() as int;
    let count = decimal((n + 1) as nat);
    pdf_body(objects, n) + ascii_bytes("xref\n0 "@) + ascii_bytes(count) + ascii_bytes(
        "\n0000000000 65535 f \n"@,
    ) + pdf_entries(objects, n) + ascii_bytes("trailer\n<< /Size "@) + ascii_bytes(count)
        + ascii_bytes(" /Root 1 0 R >>\nstartxref\n"@) + ascii_bytes(
        decimal(pdf_body(objects, n).len()),
    ) + ascii_bytes("\n%%EOF\n"@)
}

/// What a list of objects holds.
pub open spec fn object_views(objects: Seq<Vec<u8>>) -> Seq<Seq<u8>> {
    objects.map_values(|o: Vec<u8>| o@)
}

/// Makes a PDF file of objects.
pub fn pdf_from_objects(objects: &Vec<Vec<u8>>) -> (pdf: Vec<u8>)
    requires
        objects@.len() < usize::MAX,
    ensures
        pdf@ == pdf_file(object_views(objects@)),
{
    let ghost all = object_views(objects@);
    let total = objects.len();
    let mut pdf: Vec<u8> = Vec::new();
    append_text(&mut pdf, "%PDF-1.4\n%");
    pdf.push(0xe2);
    pdf.push(0xe3);
    pdf.push(0xcf);
    pdf.push(0xd3);
    append_text(&mut pdf, "\n");
    assert(pdf@ =~= pdf_header());
    let mut offsets: Vec<usize> = Vec::new();
    let mut i: usize = 0;
    while i < total
        invariant
            i <= total == objects@.len(),
            total < usize::MAX,
            all == object_views(objects@),
            pdf@ == pdf_body(all, i as int),
            offsets@.len() == i,
            forall|k: int| 0 <= k < i ==> #[trigger] offsets@[k] == pdf_body(all, k).len(),
        decreases total - i,
    {
        offsets.push(pdf.len());
        let ghost before = pdf@;
        let number = decimal_of(i as u64 + 1);
        append_text(&mut pdf, number.as_str());
        append_text(&mut pdf, " 0 obj\n");
        append_bytes(&mut pdf, objects[i].as_slice());
        append_text(&mut pdf, "\nendobj\n");
        assert(all[i as int] == objects@[i as int]@);
        assert(pdf@ =~= before + pdf_object((i + 1) as nat, all[i as int]));
        i += 1;
    }
    let start = pdf.len();
    let count = decimal_of(total as u64 + 1);
    append_text(&mut pdf, "xref\n0 ");
    append_text(&mut pdf, count.as_str());
    append_text(&mut pdf, "\n0000000000 65535 f \n");
    let ghost head = pdf@;
    let mut i: usize = 0;
    assert(head + pdf_entries(all, 0) =~= head);
    while i < total
        invariant
            i <= total,
            offsets@.len() == total,
            forall|k: int| 0 <= k < total ==> #[trigger] offsets@[k] == pdf_body(all, k).len(),
            pdf@ == head + pdf_entries(all, i as int),
        decreases total - i,
    {
        let ghost before = pdf@;
        let entry = pad(offsets[i] as u64, 10);
        append_text(&mut pdf, entry.as_str());
        append_text(&mut pdf, " 00000 n \n");
        assert(pdf@ =~= before + pdf_entry(pdf_body(all, i as int).len()));
        i += 1;
        assert(pdf@ =~= head + pdf_entries(all, i as int));
    }
    let place = decimal_of(start as u64);
    append_text(&mut pdf, "trailer\n<< /Size ");
    append_text(&mut pdf, count.as_str());
    append_text(&mut pdf, " /Root 1 0 R >>\nstartxref\n");
    append_text(&mut pdf, place.as_str());
    append_text(&mut pdf, "\n%%EOF\n");
    assert(pdf@ =~= pdf_file(all));
    pdf
}

proof fn lemma_body_is_prefix(objects: Seq<Seq<u8>>, i: int, n: int)
    requires
        0 <= i <= n,
    ensures
        pdf_body(objects, i).len() <= pdf_body(objects, n).len(),
        pdf_body(objects, n).subrange(0, pdf_body(objects, i).len() as int) == pdf_body(objects, i),
    decreases n - i,
{
    if i < n {
        lemma_body_is_prefix(objects, i, n - 1);
        let a = pdf_body(objects, i);
        let b = pdf_body(objects, n - 1);
        let c = pdf_body(objects, n);
        assert(c == b + pdf_object(n as nat, objects[n - 1]));
        assert(c.subrange(0, a.len() as int) =~= b.subrange(0, a.len() as int));
    } else {
        assert(pdf_body(objects, n).subrange(0, pdf_body(objects, i).len() as int) =~= pdf_body(
            objects,
            i,
        ));
    }
}

/// The offset that the table lists for an object is where the object stands in
/// the file.
pub proof fn law_offsets_point_at_objects(objects: Seq<Seq<u8>>, i: int)
    requires
        0 <= i < objects.len(),
    ensures
        ({
            let start = pdf_body(objects, i).len() as int;
            let object = pdf_object((i + 1) as nat, objects[i]);
            &&& start + object.len() <= pdf_file(objects).len()
            &&& pdf_file(objects).subrange(start, start + object.len()) == object
        }),
{
    let n = objects.len() as int;
    let body = pdf_body(objects, n);
    let file = pdf_file(objects);
    let before = pdf_body(objects, i);
    let after = pdf_body(objects, i + 1);
    let object = pdf_object((i + 1) as nat, objects[i]);
    lemma_body_is_prefix(objects, i + 1, n);
    assert(after == before + object);
    assert(file.subrange(0, body.len() as int) =~= body);
    assert(file.subrange(0, after.len() as int) =~= body.subrange(0, after.len() as int));
    let start = before.len() as int;
    let end = start + object.len();
    assert forall|k: int| start <= k < end implies #[trigger] file[k] == after[k] by {
        assert(file.subrange(0, after.len() as int)[k] == after[k]);
    }
    assert(file.subrange(start, end) =~= after.subrange(start, end));
    assert(after.subrange(start, end) =~= object);
}

/// A stream with its length.
pub open spec fn pdf_stream(head: Seq<char>, data: Seq<u8>) -> Seq<u8> {
    ascii_bytes(head) + ascii_bytes(decimal(data.len())) + ascii_bytes(" >>\nstream\n"@) + data
        + ascii_bytes("\nendstream"@)
}

fn stream_of(head: &str, data: &[u8]) -> (r: Vec<u8>)
    ensures
        r@ == pdf_stream(head@, data@),
{
    let mut r: Vec<u8> = Vec::new();
    let length = decimal_of(data.len() as u64);
    append_text(&mut r, head);
    append_text(&mut r, length.as_str());
    append_text(&mut r, " >>\nstream\n");
    append_bytes(&mut r, data);
    append_text(&mut r, "\nendstream");
    assert(r@ =~= pdf_stream(head@, data@));
    r
}

fn bytes_of(text: &str) -> (r: Vec<u8>)
    ensures
        r@ == ascii_bytes(text@),
{
    let mut r: Vec<u8> = Vec::new();
    append_text(&mut r, text);
    assert(r@ =~= ascii_bytes(text@));
    r
}

/// The objects of a page with one line of text.
pub open spec fn text_pdf_objects() -> Seq<Seq<u8>> {
    seq![
        ascii_bytes("<< /Type /Catalog /Pages 2 0 R >>"@),
        ascii_bytes("<< /Type /Pages /Kids [3 0 R] /Count 1 >>"@),
        ascii_bytes(
            "<< /Type /Page /Parent 2 0 R /MediaBox [0 0 300 300] /Resources << /Font << /F1 5 0 R >> >> /Contents 4 0 R >>"@,
        ),
        pdf_stream(
            "<< /Length "@,
            ascii_bytes("BT /F1 18 Tf 50 200 Td (stage zero pdf text) Tj ET"@),
        ),
        ascii_bytes("<< /Type /Font /Subtype /Type1 /BaseFont /Helvetica >>"@),
    ]
}

/// A PDF file of one page with one line of text.
pub fn text_pdf_fixture() -> (pdf: Vec<u8>)
    ensures
        pdf@ == pdf_file(text_pdf_objects()),
{
    let line = "BT /F1 18 Tf 50 200 Td (stage zero pdf text) Tj ET";
    let mut objects: Vec<Vec<u8>> = Vec::new();
    objects.push(bytes_of("<< /Type /Catalog /Pages 2 0 R >>"));
    objects.push(bytes_of("<< /Type /Pages /Kids [3 0 R] /Count 1 >>"));
    objects.push(
        bytes_of(
            "<< /Type /Page /Parent 2 0 R /MediaBox [0 0 300 300] /Resources << /Font << /F1 5 0 R >> >> /Contents 4 0 R >>",
        ),
    );
    objects.push(stream_of("<< /Length ", line.as_bytes()));
    objects.push(bytes_of("<< /Type /Font /Subtype /Type1 /BaseFont /Helvetica >>"));
    assert(object_views(objects@) =~= text_pdf_objects());
    pdf_from_objects(&objects)
}

/// The objects of a page with nothing but an image.
pub open spec fn scanned_pdf_objects() -> Seq<Seq<u8>> {
    seq![
        ascii_bytes("<< /Type /Catalog /Pages 2 0 R >>"@),
        ascii_bytes("<< /Type /Pages /Kids [3 0 R] /Count 1 >>"@),
        ascii_bytes(
            "<< /Type /Page /Parent 2 0 R /MediaBox [0 0 300 300] /Resources << /XObject << /Im1 5 0 R >> >> /Contents 4 0 R >>"@,
        ),
        pdf_stream("<< /Length "@, ascii_bytes("q 200 0 0 200 50 50 cm /Im1 Do Q"@)),
        pdf_stream(
            "<< /Type /XObject /Subtype /Image /Width 1 /Height 1 /ColorSpace /DeviceRGB /BitsPerComponent 8 /Length "@,
            seq![220u8, 220u8, 220u8],
        ),
    ]
}

/// A PDF file of one page with nothing but an image, as a scanner makes it.
pub fn scanned_pdf_fixture() -> (pdf: Vec<u8>)
    ensures
        pdf@ == pdf_file(scanned_pdf_objects()),
{
    let picture = "q 200 0 0 200 50 50 cm /Im1 Do Q";
    let mut pixel: Vec<u8> = Vec::new();
    pixel.push(220);
    pixel.push(220);
    pixel.push(220);
    assert(pixel@ =~= seq![220u8, 220u8, 220u8]);
    let mut objects: Vec<Vec<u8>> = Vec::new();
    objects.push(bytes_of("<< /Type /Catalog /Pages 2 0 R >>"));
    objects.push(bytes_of("<< /Type /Pages /Kids [3 0 R] /Count 1 >>"));
    objects.push(
        bytes_of(
            "<< /Type /Page /Parent 2 0 R /MediaBox [0 0 300 300] /Resources << /XObject << /Im1 5 0 R >> >> /Contents 4 0 R >>",
        ),
    );
    objects.push(stream_of("<< /Length ", picture.as_bytes()));
    objects.push(
        stream_of(
            "<< /Type /XObject /Subtype /Image /Width 1 /Height 1 /ColorSpace /DeviceRGB /BitsPerComponent 8 /Length ",
            pixel.as_slice(),
        ),
    );
    assert(object_views(objects@) =~= scanned_pdf_objects());
    pdf_from_objects(&objects)
}

} // verus!
