//! Turning files into text: which files are documents, how plain text is read,
//! and what the user is told where a document cannot be converted.

use anydoc::{ConvertError, Format};
use vstd::prelude::*;
use vstd::string::StringExecFns;
use vstd::utf8::*;

use crate::paths::{extension_in, extension_of, option_str, reads_extension, settled};
use crate::text::{
    chars_of, decimal, decimal_of, decode, join, joined, lowered, same, texts, to_lowered, trim,
    trimmed,
};

verus! {

/// The kinds of documents.
#[derive(Debug, Clone, Copy, PartialEq, Eq, Structural)]
pub enum FileType {
    Word,
    Excel,
    Ppt,
    Pdf,
    Text,
    Epub,
}

/// The name of a kind of documents in the index.
pub open spec fn kind_name(t: FileType) -> Seq<char> {
    match t {
        FileType::Word => "word"@,
        FileType::Excel => "excel"@,
        FileType::Ppt => "ppt"@,
        FileType::Pdf => "pdf"@,
        FileType::Text => "text"@,
        FileType::Epub => "epub"@,
    }
}

/// The name of a kind of documents on screen.
pub open spec fn kind_title(t: FileType) -> Seq<char> {
    match t {
        FileType::Word => "Word"@,
        FileType::Excel => "Excel"@,
        FileType::Ppt => "PPT"@,
        FileType::Pdf => "PDF"@,
        FileType::Text => "文本"@,
        FileType::Epub => "电子书"@,
    }
}

impl FileType {
    /// The name in the index.
    pub fn as_str(&self) -> (s: &'static str)
        ensures
            s@ == kind_name(*self),
    {
        match self {
            FileType::Word => "word",
            FileType::Excel => "excel",
            FileType::Ppt => "ppt",
            FileType::Pdf => "pdf",
            FileType::Text => "text",
            FileType::Epub => "epub",
        }
    }

    /// The name on screen.
    pub fn label(&self) -> (s: &'static str)
        ensures
            s@ == kind_title(*self),
    {
        match self {
            FileType::Word => "Word",
            FileType::Excel => "Excel",
            FileType::Ppt => "PPT",
            FileType::Pdf => "PDF",
            FileType::Text => "文本",
            FileType::Epub => "电子书",
        }
    }
}

/// The extensions of one kind of documents.
pub open spec fn extensions(t: FileType) -> Seq<Seq<char>> {
    match t {
        FileType::Word => seq!["doc"@, "docx"@, "docm"@, "odt"@, "rtf"@],
        FileType::Excel => seq!["xls"@, "xlsx"@, "xlsm"@, "xlsb"@, "ods"@, "csv"@],
        FileType::Ppt => seq![
            "ppt"@,
            "pps"@,
            "pot"@,
            "pptx"@,
            "pptm"@,
            "ppsx"@,
            "ppsm"@,
            "odp"@,
        ],
        FileType::Pdf => seq!["pdf"@],
        FileType::Text => seq!["txt"@, "md"@],
        FileType::Epub => seq!["epub"@],
    }
}

/// All extensions of documents.
pub open spec fn all_extensions() -> Seq<Seq<char>> {
    extensions(FileType::Word) + extensions(FileType::Excel) + extensions(FileType::Ppt)
        + extensions(FileType::Pdf) + extensions(FileType::Text) + extensions(FileType::Epub)
}

/// What a list of string slices holds.
pub open spec fn str_texts(v: Seq<&'static str>) -> Seq<Seq<char>> {
    v.map_values(|s: &'static str| s@)
}

/// All extensions of documents, in lower case and without the dot.
pub fn supported_extensions() -> (v: Vec<&'static str>)
    ensures
        str_texts(v@) == all_extensions(),
{
    let v: Vec<&'static str> = vec![
        "doc", "docx", "docm", "odt", "rtf", "xls", "xlsx", "xlsm", "xlsb", "ods", "csv", "ppt", "pps",
        "pot", "pptx", "pptm", "ppsx", "ppsm", "odp", "pdf", "txt", "md", "epub",
    ];
    assert(str_texts(v@) =~= all_extensions());
    v
}

/// The kind of documents that an extension in lower case belongs to.
pub open spec fn type_of_extension(ext: Seq<char>) -> Option<FileType> {
    if extensions(FileType::Word).contains(ext) {
        Some(FileType::Word)
    } else if extensions(FileType::Excel).contains(ext) {
        Some(FileType::Excel)
    } else if extensions(FileType::Ppt).contains(ext) {
        Some(FileType::Ppt)
    } else if extensions(FileType::Pdf).contains(ext) {
        Some(FileType::Pdf)
    } else if extensions(FileType::Text).contains(ext) {
        Some(FileType::Text)
    } else if extensions(FileType::Epub).contains(ext) {
        Some(FileType::Epub)
    } else {
        None
    }
}

/// The kind of documents that an extension belongs to, whatever its case.
pub fn file_type_of_extension(ext: &str) -> (r: Option<FileType>)
    ensures
        r == type_of_extension(lowered(ext@)),
{
    let ext = to_lowered(ext);
    let e = ext.as_str();
    proof {
        let w = extensions(FileType::Word);
        assert(w[0] == "doc"@ && w[1] == "docx"@ && w[2] == "docm"@ && w[3] == "odt"@ && w[4]
            == "rtf"@);
        let x = extensions(FileType::Excel);
        assert(x[0] == "xls"@ && x[1] == "xlsx"@ && x[2] == "xlsm"@ && x[3] == "xlsb"@ && x[4]
            == "ods"@ && x[5] == "csv"@);
        let p = extensions(FileType::Ppt);
        assert(p[0] == "ppt"@ && p[1] == "pps"@ && p[2] == "pot"@ && p[3] == "pptx"@ && p[4]
            == "pptm"@ && p[5] == "ppsx"@ && p[6] == "ppsm"@ && p[7] == "odp"@);
        assert(extensions(FileType::Pdf)[0] == "pdf"@);
        assert(extensions(FileType::Text)[0] == "txt"@ && extensions(FileType::Text)[1] == "md"@);
        assert(extensions(FileType::Epub)[0] == "epub"@);
    }
    if same(e, "doc") || same(e, "docx") || same(e, "docm") || same(e, "odt") || same(e, "rtf") {
        Some(FileType::Word)
    } else if same(e, "xls") || same(e, "xlsx") || same(e, "xlsm") || same(e, "xlsb") || same(
        e,
        "ods",
    ) || same(e, "csv") {
        Some(FileType::Excel)
    } else if same(e, "ppt") || same(e, "pps") || same(e, "pot") || same(e, "pptx") || same(
        e,
        "pptm",
    ) || same(e, "ppsx") || same(e, "ppsm") || same(e, "odp") {
        Some(FileType::Ppt)
    } else if same(e, "pdf") {
        Some(FileType::Pdf)
    } else if same(e, "txt") || same(e, "md") {
        Some(FileType::Text)
    } else if same(e, "epub") {
        Some(FileType::Epub)
    } else {
        None
    }
}

/// The kind of documents that an optional extension belongs to.
pub open spec fn type_of(ext: Option<Seq<char>>) -> Option<FileType> {
    match ext {
        Some(ext) => type_of_extension(lowered(ext)),
        None => None,
    }
}

/// The kind of document that an extension names; `None` where there is none or
/// where it belongs to no document.
pub fn file_type_as(ext: Option<&str>) -> (r: Option<FileType>)
    ensures
        r == type_of(option_str(ext)),
{
    match ext {
        Some(ext) => file_type_of_extension(ext),
        None => None,
    }
}

/// The kind of document that a path names; `None` where it is no document. It
/// goes by the extension alone, whatever the case of ASCII letters.
pub fn file_type_of(path: &str) -> (r: Option<FileType>)
    ensures
        settled(path@) ==> r == type_of(extension_in(path@)),
        exists|ext: Option<Seq<char>>| #[trigger]
            reads_extension(path@, ext) && r == type_of(ext),
{
    match extension_of(path) {
        Some(ext) => {
            assert(reads_extension(path@, Some(ext@)));
            file_type_as(Some(ext.as_str()))
        },
        None => {
            assert(reads_extension(path@, None));
            file_type_as(None)
        },
    }
}

/// A file is a document exactly when its extension is among those listed.
pub proof fn law_listed_extensions_are_supported(ext: Seq<char>)
    ensures
        type_of_extension(ext) is Some <==> all_extensions().contains(ext),
{
    let a = extensions(FileType::Word);
    let b = extensions(FileType::Excel);
    let c = extensions(FileType::Ppt);
    let d = extensions(FileType::Pdf);
    let e = extensions(FileType::Text);
    let f = extensions(FileType::Epub);
    let all = all_extensions();
    if a.contains(ext) {
        let i = choose|i: int| 0 <= i < a.len() && a[i] == ext;
        assert(all[i] == ext);
    } else if b.contains(ext) {
        let i = choose|i: int| 0 <= i < b.len() && b[i] == ext;
        assert(all[a.len() + i] == ext);
    } else if c.contains(ext) {
        let i = choose|i: int| 0 <= i < c.len() && c[i] == ext;
        assert(all[a.len() + b.len() + i] == ext);
    } else if d.contains(ext) {
        let i = choose|i: int| 0 <= i < d.len() && d[i] == ext;
        assert(all[a.len() + b.len() + c.len() + i] == ext);
    } else if e.contains(ext) {
        let i = choose|i: int| 0 <= i < e.len() && e[i] == ext;
        assert(all[a.len() + b.len() + c.len() + d.len() + i] == ext);
    } else if f.contains(ext) {
        let i = choose|i: int| 0 <= i < f.len() && f[i] == ext;
        assert(all[a.len() + b.len() + c.len() + d.len() + e.len() + i] == ext);
    }
    if all.contains(ext) {
        let i = choose|i: int| 0 <= i < all.len() && all[i] == ext;
        let ab = a.len() + b.len();
        let abc = ab + c.len();
        let abcd = abc + d.len();
        let abcde = abcd + e.len();
        if i < a.len() {
            assert(a[i] == ext);
        } else if i < ab {
            assert(b[i - a.len()] == ext);
        } else if i < abc {
            assert(c[i - ab] == ext);
        } else if i < abcd {
            assert(d[i - abc] == ext);
        } else if i < abcde {
            assert(e[i - abcd] == ext);
        } else {
            assert(f[i - abcde] == ext);
        }
    }
}

/// Why a document was not taken in.
#[derive(Debug, Clone, Copy, PartialEq, Eq, Structural)]
pub enum ParseErrorCode {
    Unsupported,
    Encrypted,
    Malformed,
    ResourceLimit,
    NeedsOcr,
    Io,
    TooLarge,
    Empty,
}

/// The name of an error in the index.
pub open spec fn code_name(code: ParseErrorCode) -> Seq<char> {
    match code {
        ParseErrorCode::Unsupported => "UNSUPPORTED"@,
        ParseErrorCode::Encrypted => "ENCRYPTED"@,
        ParseErrorCode::Malformed => "MALFORMED"@,
        ParseErrorCode::ResourceLimit => "RESOURCE_LIMIT"@,
        ParseErrorCode::NeedsOcr => "NEEDS_OCR"@,
        ParseErrorCode::Io => "IO"@,
        ParseErrorCode::TooLarge => "TOO_LARGE"@,
        ParseErrorCode::Empty => "EMPTY"@,
    }
}

impl ParseErrorCode {
    /// The name in the index.
    pub fn as_str(&self) -> (s: &'static str)
        ensures
            s@ == code_name(*self),
    {
        match self {
            ParseErrorCode::Unsupported => "UNSUPPORTED",
            ParseErrorCode::Encrypted => "ENCRYPTED",
            ParseErrorCode::Malformed => "MALFORMED",
            ParseErrorCode::ResourceLimit => "RESOURCE_LIMIT",
            ParseErrorCode::NeedsOcr => "NEEDS_OCR",
            ParseErrorCode::Io => "IO",
            ParseErrorCode::TooLarge => "TOO_LARGE",
            ParseErrorCode::Empty => "EMPTY",
        }
    }
}

/// Why a document was not taken in: what the user is told, and the technical
/// details, which may be empty.
#[derive(Debug)]
pub struct ParseError {
    pub code: ParseErrorCode,
    pub message: String,
    pub detail: String,
}

/// What an error says.
pub struct ErrorView {
    pub code: ParseErrorCode,
    pub message: Seq<char>,
    pub detail: Seq<char>,
}

impl View for ParseError {
    type V = ErrorView;

    open spec fn view(&self) -> ErrorView {
        ErrorView { code: self.code, message: self.message@, detail: self.detail@ }
    }
}

impl ParseError {
    pub fn new(code: ParseErrorCode, message: &str, detail: &str) -> (e: Self)
        ensures
            e@ == (ErrorView { code, message: message@, detail: detail@ }),
    {
        ParseError { code, message: message.to_owned(), detail: detail.to_owned() }
    }

    /// The error as it is shown.
    pub fn text(&self) -> (s: String)
        ensures
            s@ == if self.detail@.len() == 0 {
                self.message@
            } else {
                self.message@ + "("@ + self.detail@ + ")"@
            },
    {
        let mut s = self.message.clone();
        if !self.detail.as_str().is_empty() {
            s.append("(");
            s.append(self.detail.as_str());
            s.append(")");
        }
        s
    }
}

/// A document in Markdown, with warnings.
#[derive(Debug)]
pub struct Parsed {
    pub markdown: String,
    pub warnings: Vec<String>,
    pub parser_name: &'static str,
    pub parser_version: &'static str,
}

/// What a document holds.
pub struct ParsedView {
    pub markdown: Seq<char>,
    pub warnings: Seq<Seq<char>>,
    pub parser_name: Seq<char>,
    pub parser_version: Seq<char>,
}

impl View for Parsed {
    type V = ParsedView;

    open spec fn view(&self) -> ParsedView {
        ParsedView {
            markdown: self.markdown@,
            warnings: texts(self.warnings@),
            parser_name: self.parser_name@,
            parser_version: self.parser_version@,
        }
    }
}

/// The result of reading a document, without the representation.
pub open spec fn parsing(r: Result<Parsed, ParseError>) -> Result<ParsedView, ErrorView> {
    match r {
        Ok(parsed) => Ok(parsed@),
        Err(e) => Err(e@),
    }
}

/// Most bytes that a decoder can make room for.
pub open spec fn decodable(n: int) -> bool {
    n <= usize::MAX / 16
}

/// The text that `encoding_rs::GB18030` decodes from bytes.
pub uninterp spec fn gb18030_text(bytes: Seq<u8>) -> Seq<char>;

/// `Encoding::decode` of GB18030. The text depends on the bytes alone. Sizes
/// for which no buffer can be computed are left out.
#[verifier::external_body]
pub(crate) fn decode_gb18030(bytes: &[u8]) -> (text: String)
    requires
        decodable(bytes@.len() as int),
    ensures
        text@ == gb18030_text(bytes@),
{
    encoding_rs::GB18030.decode(bytes).0.into_owned()
}

/// The bytes without a byte order mark in front.
pub open spec fn unmarked(bytes: Seq<u8>) -> Seq<u8> {
    if bytes.len() >= 3 && bytes[0] == 0xef && bytes[1] == 0xbb && bytes[2] == 0xbf {
        bytes.subrange(3, bytes.len() as int)
    } else {
        bytes
    }
}

/// Index of the first character that is no byte order mark.
pub open spec fn skip_marks(s: Seq<char>, i: int) -> int
    decreases s.len() - i,
{
    if 0 <= i < s.len() && s[i] == '\u{FEFF}' {
        skip_marks(s, i + 1)
    } else {
        i
    }
}

/// The text from the `i`-th character on, with line feeds as the only line
/// ends.
pub open spec fn line_feeds(s: Seq<char>, i: int) -> Seq<char>
    decreases s.len() - i,
{
    if i < 0 || i >= s.len() {
        Seq::empty()
    } else if s[i] == '\r' {
        if i + 1 < s.len() && s[i + 1] == '\n' {
            seq!['\n'] + line_feeds(s, i + 2)
        } else {
            seq!['\n'] + line_feeds(s, i + 1)
        }
    } else {
        seq![s[i]] + line_feeds(s, i + 1)
    }
}

/// A text without byte order marks in front, with line feeds as line ends.
pub open spec fn normalized(s: Seq<char>) -> Seq<char> {
    line_feeds(s, skip_marks(s, 0))
}

fn normalize(text: &str) -> (r: String)
    ensures
        r@ == normalized(text@),
{
    let chars = chars_of(text);
    let ghost s = text@;
    let total = chars.len();
    let mut i: usize = 0;
    while i < total && chars[i] == '\u{FEFF}'
        invariant
            total == chars@.len(),
            s == chars@,
            i <= total,
            skip_marks(s, 0) == skip_marks(s, i as int),
        decreases total - i,
    {
        i += 1;
    }
    let ghost start = i as int;
    let mut r = String::new();
    assert(r@ + line_feeds(s, start) =~= line_feeds(s, start));
    while i < total
        invariant
            total == chars@.len(),
            s == chars@,
            i <= total,
            r@ + line_feeds(s, i as int) == line_feeds(s, start),
        decreases total - i,
    {
        let c = chars[i];
        let next = if c == '\r' && i + 1 < total && chars[i + 1] == '\n' {
            i + 2
        } else {
            i + 1
        };
        let c = if c == '\r' {
            '\n'
        } else {
            c
        };
        let ghost before = r@;
        let ghost rest = line_feeds(s, next as int);
        assert(before + (seq![c] + rest) =~= before.push(c) + rest);
        r.push(c);
        i = next;
    }
    assert(r@ + Seq::<char>::empty() =~= r@);
    r
}

/// A plain text as a document; a text of white space alone is refused.
pub open spec fn text_document(text: Seq<char>, warnings: Seq<Seq<char>>) -> Result<
    ParsedView,
    ErrorView,
> {
    let markdown = normalized(text);
    if trimmed(markdown).len() == 0 {
        Err(
            ErrorView {
                code: ParseErrorCode::Empty,
                message: "文本文件为空或没有可用内容"@,
                detail: ""@,
            },
        )
    } else {
        Ok(
            ParsedView {
                markdown,
                warnings,
                parser_name: "text"@,
                parser_version: "text.v1"@,
            },
        )
    }
}

/// Makes a document of a decoded text.
pub fn finish_text(text: &str, warnings: Vec<String>) -> (r: Result<Parsed, ParseError>)
    ensures
        parsing(r) == text_document(text@, texts(warnings@)),
{
    let markdown = normalize(text);
    if trim(markdown.as_str()).as_str().is_empty() {
        return Err(
            ParseError::new(
                ParseErrorCode::Empty,
                "文本文件为空或没有可用内容",
                "",
            ),
        );
    }
    Ok(Parsed { markdown, warnings, parser_name: "text", parser_version: "text.v1" })
}

/// What a file of plain text holds: UTF-8, otherwise GB18030 with a warning.
pub open spec fn text_file(bytes: Seq<u8>) -> Result<ParsedView, ErrorView> {
    let body = unmarked(bytes);
    if valid_utf8(body) {
        text_document(decode_utf8(body), Seq::empty())
    } else {
        text_document(gb18030_text(body), seq!["按 GB18030 解码"@])
    }
}

/// Reads a file of plain text: without a byte order mark, as UTF-8 where it is
/// valid and as GB18030 otherwise, with line feeds as line ends.
pub fn parse_text(bytes: &[u8]) -> (r: Result<Parsed, ParseError>)
    requires
        decodable(bytes@.len() as int),
    ensures
        parsing(r) == text_file(bytes@),
{
    let mut body: Vec<u8> = Vec::new();
    let mut i: usize = if bytes.len() >= 3 && bytes[0] == 0xef && bytes[1] == 0xbb && bytes[2]
        == 0xbf {
        3
    } else {
        0
    };
    let ghost start = i as int;
    let total = bytes.len();
    while i < total
        invariant
            total == bytes@.len(),
            0 <= start <= i <= total,
            body@ == bytes@.subrange(start, i as int),
        decreases total - i,
    {
        body.push(bytes[i]);
        i += 1;
        assert(body@ =~= bytes@.subrange(start, i as int));
    }
    assert(body@ =~= unmarked(bytes@));
    let mut warnings: Vec<String> = Vec::new();
    assert(texts(warnings@) =~= Seq::empty());
    match decode(body.as_slice()) {
        Some(text) => finish_text(text.as_str(), warnings),
        None => {
            warnings.push("按 GB18030 解码".to_owned());
            assert(texts(warnings@) =~= seq!["按 GB18030 解码"@]);
            let text = decode_gb18030(body.as_slice());
            finish_text(text.as_str(), warnings)
        },
    }
}

#[verifier::external_type_specification]
#[verifier::external_body]
pub struct ExFormat(Format);

#[verifier::external_type_specification]
#[verifier::external_body]
pub struct ExConvertError(ConvertError);

/// The format that `Format::from_bytes` makes out in a file.
pub uninterp spec fn sniffed(bytes: Seq<u8>) -> Option<Format>;

/// `Format::from_bytes`: the answer depends on the bytes alone. It looks into
/// archives and compound files; nothing is said of whether the readers of those
/// can panic on damaged ones.
pub assume_specification[ Format::from_bytes ](bytes: &[u8]) -> (r: Option<Format>)
    ensures
        r == sniffed(bytes@),
;

/// The format that `Format::from_extension` knows an extension of.
pub uninterp spec fn format_named(ext: Seq<char>) -> Option<Format>;

/// The extensions that `Format::from_extension` knows.
pub open spec fn format_extensions() -> Seq<Seq<char>> {
    extensions(FileType::Word) + extensions(FileType::Excel) + extensions(FileType::Ppt)
        + extensions(FileType::Pdf) + extensions(FileType::Epub)
}

/// `Format::from_extension`: the answer depends on the extension alone, and
/// there is one for each of the listed extensions, in whatever case.
pub assume_specification[ Format::from_extension ](ext: &str) -> (r: Option<Format>)
    ensures
        r == format_named(ext@),
        r is Some <==> format_extensions().contains(lowered(ext@)),
;

/// The converter may come to this text or this error for a document in a format.
pub uninterp spec fn converts(
    bytes: Seq<u8>,
    format: Format,
    outcome: Result<Seq<char>, ConvertError>,
) -> bool;

/// `anydoc::to_markdown_bytes` with the format given: one of its outcomes for
/// these bytes and this format. Which one it is may depend on the order in which
/// its hash maps are walked, so nothing more is said; nor of whether the readers
/// below it can panic on damaged documents.
#[verifier::external_body]
fn convert(bytes: &[u8], format: Format) -> (r: Result<String, ConvertError>)
    ensures
        converts(
            bytes@,
            format,
            match r {
                Ok(markdown) => Ok(markdown@),
                Err(error) => Err(error),
            },
        ),
{
    anydoc::to_markdown_bytes(bytes, Some(format))
}

/// Why a conversion failed.
#[derive(Debug)]
pub enum Failure {
    Unsupported(String),
    /// The document is encrypted, in the converter's words.
    Encrypted(String),
    Malformed { part: Option<String>, detail: String },
    MissingPart(String),
    ResourceLimit { limit: String, detail: String },
    NeedsOcr { pages: Vec<u32>, page_count: u32 },
    Io(String),
    /// Any other failure, in the converter's words.
    Other(String),
}

/// The failure has what an error of the converter holds.
pub uninterp spec fn tells(error: ConvertError, failure: Failure) -> bool;

/// Copies the fields of `anydoc::ConvertError` into a type of this library, one
/// variant each. An encrypted document and variants without a counterpart are
/// kept as the text that the error displays; no other error is displayed. Nothing
/// more is said of the result: the error is opaque here.
#[verifier::external_body]
fn failure_of(error: &ConvertError) -> (r: Failure)
    ensures
        tells(*error, r),
{
    match error {
        ConvertError::Unsupported(what) => Failure::Unsupported(what.clone()),
        ConvertError::Encrypted => Failure::Encrypted(error.to_string()),
        ConvertError::Malformed { part, detail } =>
            Failure::Malformed { part: part.clone(), detail: detail.clone() },
        ConvertError::MissingPart { part } => Failure::MissingPart(part.clone()),
        ConvertError::ResourceLimit { limit, detail } =>
            Failure::ResourceLimit { limit: (*limit).to_owned(), detail: detail.clone() },
        ConvertError::NeedsOcr { pages, page_count } =>
            Failure::NeedsOcr { pages: pages.clone(), page_count: *page_count },
        ConvertError::Io(e) => Failure::Io(e.to_string()),
        _ => Failure::Other(error.to_string()),
    }
}

/// Numbers in decimal.
pub open spec fn decimals(pages: Seq<u32>) -> Seq<Seq<char>> {
    pages.map_values(|n: u32| decimal(n as nat))
}

/// What the user is told of a failed conversion.
pub open spec fn explained(failure: Failure) -> ErrorView {
    match failure {
        Failure::Unsupported(what) => ErrorView {
            code: ParseErrorCode::Unsupported,
            message: "无法识别的格式,或该格式无法转换(例如纯图片 PDF)"@,
            detail: what@,
        },
        Failure::Encrypted(text) => ErrorView {
            code: ParseErrorCode::Encrypted,
            message: "文件已加密或受密码保护"@,
            detail: text@,
        },
        Failure::Malformed { part, detail } => ErrorView {
            code: ParseErrorCode::Malformed,
            message: "文件结构损坏,或缺少必要组成部件"@,
            detail: match part {
                Some(part) => part@ + ": "@ + detail@,
                None => detail@,
            },
        },
        Failure::MissingPart(part) => ErrorView {
            code: ParseErrorCode::Malformed,
            message: "文件结构损坏,或缺少必要组成部件"@,
            detail: "缺少 "@ + part@,
        },
        Failure::ResourceLimit { limit, detail } => ErrorView {
            code: ParseErrorCode::ResourceLimit,
            message: "文件超出安全上限(解压体积/节点数/表格格数)"@,
            detail: limit@ + ": "@ + detail@,
        },
        Failure::NeedsOcr { pages, page_count } => ErrorView {
            code: ParseErrorCode::NeedsOcr,
            message: "该 PDF 没有可提取文本,需要 OCR,本版本不支持"@,
            detail: "["@ + joined(decimals(pages@), ", "@) + "]/"@ + decimal(page_count as nat)
                + " 页需要 OCR"@,
        },
        Failure::Io(text) => ErrorView {
            code: ParseErrorCode::Io,
            message: "无法读取文件(权限/占用/路径失效)"@,
            detail: text@,
        },
        Failure::Other(text) => ErrorView {
            code: ParseErrorCode::Malformed,
            message: "文件结构损坏,或缺少必要组成部件"@,
            detail: text@,
        },
    }
}

fn decimals_of(pages: &Vec<u32>) -> (parts: Vec<String>)
    ensures
        texts(parts@) == decimals(pages@),
{
    let mut parts: Vec<String> = Vec::new();
    let mut i: usize = 0;
    while i < pages.len()
        invariant
            i <= pages@.len(),
            texts(parts@) == decimals(pages@).take(i as int),
        decreases pages@.len() - i,
    {
        let ghost before = parts@;
        parts.push(decimal_of(pages[i] as u64));
        i += 1;
        assert(texts(parts@) =~= texts(before).push(decimal(pages@[i - 1] as nat)));
        assert(texts(parts@) =~= decimals(pages@).take(i as int));
    }
    assert(texts(parts@) =~= decimals(pages@));
    parts
}

/// What the user is told of a failed conversion.
pub fn explain(failure: Failure) -> (e: ParseError)
    ensures
        e@ == explained(failure),
{
    match failure {
        Failure::Unsupported(what) => ParseError {
            code: ParseErrorCode::Unsupported,
            message: "无法识别的格式,或该格式无法转换(例如纯图片 PDF)".to_owned(),
            detail: what,
        },
        Failure::Encrypted(text) => ParseError {
            code: ParseErrorCode::Encrypted,
            message: "文件已加密或受密码保护".to_owned(),
            detail: text,
        },
        Failure::Malformed { part, detail } => {
            let detail = match part {
                Some(part) => part.concat(": ").concat(detail.as_str()),
                None => detail,
            };
            ParseError {
                code: ParseErrorCode::Malformed,
                message: "文件结构损坏,或缺少必要组成部件".to_owned(),
                detail,
            }
        },
        Failure::MissingPart(part) => ParseError {
            code: ParseErrorCode::Malformed,
            message: "文件结构损坏,或缺少必要组成部件".to_owned(),
            detail: "缺少 ".to_owned().concat(part.as_str()),
        },
        Failure::ResourceLimit { limit, detail } => ParseError {
            code: ParseErrorCode::ResourceLimit,
            message: "文件超出安全上限(解压体积/节点数/表格格数)".to_owned(),
            detail: limit.concat(": ").concat(detail.as_str()),
        },
        Failure::NeedsOcr { pages, page_count } => {
            let list = join(&decimals_of(&pages), ", ");
            let count = decimal_of(page_count as u64);
            let mut detail = "[".to_owned();
            detail.append(list.as_str());
            detail.append("]/");
            detail.append(count.as_str());
            detail.append(" 页需要 OCR");
            ParseError {
                code: ParseErrorCode::NeedsOcr,
                message: "该 PDF 没有可提取文本,需要 OCR,本版本不支持".to_owned(),
                detail,
            }
        },
        Failure::Io(text) => ParseError {
            code: ParseErrorCode::Io,
            message: "无法读取文件(权限/占用/路径失效)".to_owned(),
            detail: text,
        },
        Failure::Other(text) => ParseError {
            code: ParseErrorCode::Malformed,
            message: "文件结构损坏,或缺少必要组成部件".to_owned(),
            detail: text,
        },
    }
}

/// What the user is told of an error of the converter.
pub fn map_convert_error(error: &ConvertError) -> (e: ParseError)
    ensures
        exists|failure: Failure| #[trigger] tells(*error, failure) && e@ == explained(failure),
{
    let failure = failure_of(error);
    explain(failure)
}

/// A converted document; one without text is refused.
pub open spec fn converted_document(converted: Result<String, Failure>) -> Result<
    ParsedView,
    ErrorView,
> {
    match converted {
        Err(failure) => Err(explained(failure)),
        Ok(markdown) => if trimmed(markdown@).len() == 0 {
            Err(
                ErrorView {
                    code: ParseErrorCode::Empty,
                    message: "文档没有可提取的文本"@,
                    detail: ""@,
                },
            )
        } else {
            Ok(
                ParsedView {
                    markdown: markdown@,
                    warnings: Seq::empty(),
                    parser_name: "anydoc"@,
                    parser_version: "0.2.4"@,
                },
            )
        },
    }
}

/// Makes a document of what the converter returned.
pub fn finish_conversion(converted: Result<String, Failure>) -> (r: Result<Parsed, ParseError>)
    ensures
        parsing(r) == converted_document(converted),
{
    match converted {
        Err(failure) => Err(explain(failure)),
        Ok(markdown) => {
            if trim(markdown.as_str()).as_str().is_empty() {
                return Err(
                    ParseError::new(ParseErrorCode::Empty, "文档没有可提取的文本", ""),
                );
            }
            let warnings: Vec<String> = Vec::new();
            assert(texts(warnings@) =~= Seq::empty());
            Ok(Parsed { markdown, warnings, parser_name: "anydoc", parser_version: "0.2.4" })
        },
    }
}

/// The error for a file that neither its content nor its extension tells the
/// format of.
pub open spec fn unknown_format(path: Seq<char>) -> ErrorView {
    ErrorView {
        code: ParseErrorCode::Unsupported,
        message: "无法识别的格式,或该格式无法转换(例如纯图片 PDF)"@,
        detail: "内容与扩展名均无法判定格式: "@ + path,
    }
}

/// The converter may come to this in a document in a format.
pub open spec fn outcome(bytes: Seq<u8>, format: Format, converted: Result<String, Failure>) -> bool {
    match converted {
        Ok(markdown) => converts(bytes, format, Ok(markdown@)),
        Err(failure) => exists|error: ConvertError|
            converts(bytes, format, Err(error)) && #[trigger] tells(error, failure),
    }
}

/// The document was read from these bytes, in this format.
pub open spec fn read_as(
    bytes: Seq<u8>,
    format: Format,
    document: Result<ParsedView, ErrorView>,
) -> bool {
    exists|converted: Result<String, Failure>| #[trigger]
        outcome(bytes, format, converted) && document == converted_document(converted)
}

/// The format of a document: what its content tells, otherwise what an extension
/// does.
pub open spec fn format_of(ext: Option<Seq<char>>, bytes: Seq<u8>) -> Option<Format> {
    match sniffed(bytes) {
        Some(format) => Some(format),
        None => match ext {
            Some(ext) => format_named(ext),
            None => None,
        },
    }
}

/// The extension names a format of the converter.
pub open spec fn names_format(ext: Option<Seq<char>>) -> bool {
    ext is Some && format_extensions().contains(lowered(ext->0))
}

/// What converting bytes under an extension may come to.
pub open spec fn converts_as(
    ext: Option<Seq<char>>,
    path: Seq<char>,
    bytes: Seq<u8>,
    document: Result<ParsedView, ErrorView>,
) -> bool {
    &&& sniffed(bytes) is None ==> (format_of(ext, bytes) is Some <==> names_format(ext))
    &&& match format_of(ext, bytes) {
        Some(format) => read_as(bytes, format, document),
        None => document == Err::<ParsedView, ErrorView>(unknown_format(path)),
    }
}

/// Converts a document with an extension. The content tells its format,
/// otherwise the extension does. The path is only shown.
pub fn parse_anydoc_as(ext: Option<&str>, path: &str, bytes: &[u8]) -> (r: Result<
    Parsed,
    ParseError,
>)
    ensures
        converts_as(option_str(ext), path@, bytes@, parsing(r)),
{
    let format = match Format::from_bytes(bytes) {
        Some(format) => Some(format),
        None => match ext {
            Some(ext) => Format::from_extension(ext),
            None => None,
        },
    };
    match format {
        None => Err(
            ParseError {
                code: ParseErrorCode::Unsupported,
                message: "无法识别的格式,或该格式无法转换(例如纯图片 PDF)".to_owned(),
                detail: "内容与扩展名均无法判定格式: ".to_owned().concat(path),
            },
        ),
        Some(format) => {
            let converted = match convert(bytes, format) {
                Ok(markdown) => Ok(markdown),
                Err(error) => Err(failure_of(&error)),
            };
            let r = finish_conversion(converted);
            assert(outcome(bytes@, format, converted));
            assert(read_as(bytes@, format, parsing(r)));
            r
        },
    }
}

/// Converts a document. The content tells its format, otherwise the extension
/// does.
pub fn parse_anydoc(path: &str, bytes: &[u8]) -> (r: Result<Parsed, ParseError>)
    ensures
        settled(path@) ==> converts_as(extension_in(path@), path@, bytes@, parsing(r)),
        exists|ext: Option<Seq<char>>| #[trigger]
            reads_extension(path@, ext) && converts_as(ext, path@, bytes@, parsing(r)),
{
    match extension_of(path) {
        Some(ext) => {
            assert(reads_extension(path@, Some(ext@)));
            parse_anydoc_as(Some(ext.as_str()), path, bytes)
        },
        None => {
            assert(reads_extension(path@, None));
            parse_anydoc_as(None, path, bytes)
        },
    }
}

/// Every kind of document that is not plain text has a format of the
/// converter.
pub proof fn law_documents_have_formats(ext: Seq<char>)
    ensures
        format_extensions().contains(ext) <==> type_of_extension(ext) is Some && type_of_extension(
            ext,
        ) != Some(FileType::Text),
{
    let a = extensions(FileType::Word);
    let b = extensions(FileType::Excel);
    let c = extensions(FileType::Ppt);
    let d = extensions(FileType::Pdf);
    let f = extensions(FileType::Epub);
    let all = format_extensions();
    let ab = a.len() + b.len();
    let abc = ab + c.len();
    let abcd = abc + d.len();
    if a.contains(ext) {
        let i = choose|i: int| 0 <= i < a.len() && a[i] == ext;
        assert(all[i] == ext);
    } else if b.contains(ext) {
        let i = choose|i: int| 0 <= i < b.len() && b[i] == ext;
        assert(all[a.len() + i] == ext);
    } else if c.contains(ext) {
        let i = choose|i: int| 0 <= i < c.len() && c[i] == ext;
        assert(all[ab + i] == ext);
    } else if d.contains(ext) {
        let i = choose|i: int| 0 <= i < d.len() && d[i] == ext;
        assert(all[abc + i] == ext);
    } else if f.contains(ext) {
        let i = choose|i: int| 0 <= i < f.len() && f[i] == ext;
        assert(all[abcd + i] == ext);
    }
    if all.contains(ext) {
        let i = choose|i: int| 0 <= i < all.len() && all[i] == ext;
        if i < a.len() {
            assert(a[i] == ext);
        } else if i < ab {
            assert(b[i - a.len()] == ext);
        } else if i < abc {
            assert(c[i - ab] == ext);
        } else if i < abcd {
            assert(d[i - abc] == ext);
        } else {
            assert(f[i - abcd] == ext);
        }
        if extensions(FileType::Text).contains(ext) {
            let t = extensions(FileType::Text);
            let j = choose|j: int| 0 <= j < t.len() && t[j] == ext;
            reveal_strlit("txt");
            reveal_strlit("md");
            reveal_strlit("pdf");
            reveal_strlit("epub");
            assert(ext[0] == 't' || ext[0] == 'm');
            assert(d[0][0] == 'p');
            assert(f[0][0] == 'e');
        }
    }
}

/// What reading bytes under an extension comes to.
pub open spec fn parses_as(
    ext: Option<Seq<char>>,
    path: Seq<char>,
    bytes: Seq<u8>,
    document: Result<ParsedView, ErrorView>,
) -> bool {
    match type_of(ext) {
        Some(FileType::Text) => document == text_file(bytes),
        Some(_) => format_of(ext, bytes) is Some && read_as(
            bytes,
            format_of(ext, bytes)->0,
            document,
        ),
        None => document == Err::<ParsedView, ErrorView>(unsupported(path)),
    }
}

/// What reading bytes under a path comes to: it goes by the extension that the
/// platform reads, which all platforms agree on where the path is settled.
pub open spec fn parses_to(
    path: Seq<char>,
    bytes: Seq<u8>,
    document: Result<ParsedView, ErrorView>,
) -> bool {
    &&& settled(path) ==> parses_as(extension_in(path), path, bytes, document)
    &&& exists|ext: Option<Seq<char>>| #[trigger]
        reads_extension(path, ext) && parses_as(ext, path, bytes, document)
}

/// Reads a document with an extension of which the bytes are given. The path is
/// only shown.
pub fn parse_bytes_as(ext: Option<&str>, path: &str, bytes: &[u8]) -> (r: Result<
    Parsed,
    ParseError,
>)
    requires
        decodable(bytes@.len() as int),
    ensures
        parses_as(option_str(ext), path@, bytes@, parsing(r)),
{
    match file_type_as(ext) {
        Some(FileType::Text) => parse_text(bytes),
        Some(_) => {
            proof {
                law_documents_have_formats(lowered(option_str(ext)->0));
            }
            parse_anydoc_as(ext, path, bytes)
        },
        None => Err(
            ParseError {
                code: ParseErrorCode::Unsupported,
                message: "无法识别的格式,或该格式无法转换(例如纯图片 PDF)".to_owned(),
                detail: "扩展名不支持: ".to_owned().concat(path),
            },
        ),
    }
}

/// Reads a document of which the bytes are given; the path tells the kind.
pub fn parse_bytes(path: &str, bytes: &[u8]) -> (r: Result<Parsed, ParseError>)
    requires
        decodable(bytes@.len() as int),
    ensures
        parses_to(path@, bytes@, parsing(r)),
{
    match extension_of(path) {
        Some(ext) => {
            assert(reads_extension(path@, Some(ext@)));
            parse_bytes_as(Some(ext.as_str()), path, bytes)
        },
        None => {
            assert(reads_extension(path@, None));
            parse_bytes_as(None, path, bytes)
        },
    }
}

/// Reads a document from what came of reading its file. The bytes are handed
/// back, since they are hashed too.
pub fn parse_file(path: &str, read: Result<Vec<u8>, ParseError>) -> (r: Result<
    (Parsed, Vec<u8>),
    ParseError,
>)
    requires
        read is Ok ==> decodable(read->Ok_0@.len() as int),
    ensures
        match read {
            Err(error) => r == Err::<(Parsed, Vec<u8>), ParseError>(error),
            Ok(bytes) => {
                &&& parses_to(
                    path@,
                    bytes@,
                    match r {
                        Ok((parsed, _)) => Ok(parsed@),
                        Err(error) => Err(error@),
                    },
                )
                &&& r is Ok ==> (r->Ok_0).1 == bytes
            },
        },
{
    match read {
        Err(error) => Err(error),
        Ok(bytes) => match parse_bytes(path, bytes.as_slice()) {
            Ok(parsed) => Ok((parsed, bytes)),
            Err(error) => Err(error),
        },
    }
}

/// The error for a file that is no document.
pub open spec fn unsupported(path: Seq<char>) -> ErrorView {
    ErrorView {
        code: ParseErrorCode::Unsupported,
        message: "无法识别的格式,或该格式无法转换(例如纯图片 PDF)"@,
        detail: "扩展名不支持: "@ + path,
    }
}

/// Refuses a file that is too large to be read.
pub fn check_size(size: u64, max_bytes: u64) -> (r: Result<(), ParseError>)
    ensures
        r is Ok <==> size <= max_bytes,
        r is Err ==> r->Err_0@ == (ErrorView {
            code: ParseErrorCode::TooLarge,
            message: "文件超过 "@ + decimal((max_bytes / 1048576) as nat) + " MB 上限"@,
            detail: decimal(size as nat) + " 字节"@,
        }),
{
    if size <= max_bytes {
        return Ok(());
    }
    let limit = decimal_of(max_bytes / 1048576);
    Err(
        ParseError {
            code: ParseErrorCode::TooLarge,
            message: "文件超过 ".to_owned().concat(limit.as_str()).concat(" MB 上限"),
            detail: decimal_of(size).concat(" 字节"),
        },
    )
}

/// The error for a file that could not be read.
pub fn io_error(path: &str, reason: &str) -> (e: ParseError)
    ensures
        e@ == (ErrorView {
            code: ParseErrorCode::Io,
            message: "无法读取文件(权限/占用/路径失效)"@,
            detail: path@ + ": "@ + reason@,
        }),
{
    ParseError {
        code: ParseErrorCode::Io,
        message: "无法读取文件(权限/占用/路径失效)".to_owned(),
        detail: path.to_owned().concat(": ").concat(reason),
    }
}

} // verus!
