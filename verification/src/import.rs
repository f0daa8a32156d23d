//! Decisions of an import: which files are taken in, which of them can be
//! skipped, and what the import as a whole came to.

use sha2::{Digest, Sha256};
use vstd::prelude::*;

use crate::chunk::{chunk_document, chunk_views, chunks_of};
use crate::parse::{
    code_name, decodable, file_type_as, parse_bytes, parses_to, parsing, type_of, unsupported,
    ErrorView, FileType, ParseError, ParseErrorCode, Parsed, ParsedView,
};
use crate::paths::{
    extension_in, extension_of, option_str, option_text, reads_extension, settled,
};
use crate::repo::{hex_digit, FileMeta, ImportCounts, ParsedDocument};
use crate::text::{same, PlainText};

verus! {

/// How an import goes about its files.
#[derive(Debug, Clone, Copy, PartialEq, Eq, Structural)]
pub struct ImportOptions {
    /// Largest size of a file in bytes.
    pub max_file_bytes: u64,
    /// Files are read again although they did not change.
    pub force: bool,
    /// Files that failed before and did not change are skipped too.
    pub skip_unchanged_failed: bool,
    /// A single file stays with the folder that it was added with.
    pub preserve_source_root: bool,
}

impl Default for ImportOptions {
    fn default() -> (options: Self)
        ensures
            options == (ImportOptions {
                max_file_bytes: 104857600,
                force: false,
                skip_unchanged_failed: false,
                preserve_source_root: false,
            }),
    {
        ImportOptions {
            max_file_bytes: 104857600,
            force: false,
            skip_unchanged_failed: false,
            preserve_source_root: false,
        }
    }
}

/// What came of a file.
#[derive(Debug)]
pub enum FileOutcome {
    Stored { document_id: i64 },
    Failed { code: String, message: String },
    Skipped,
}

/// What an import tells while it goes on.
#[derive(Debug)]
pub enum ImportEvent {
    /// The number of files is known.
    Scanned { total: usize },
    /// A file is done.
    FileDone { path: String, outcome: FileOutcome, counts: ImportCounts },
    /// The import has ended or was cancelled.
    Finished { run_id: i64, counts: ImportCounts, cancelled: bool },
}

/// Kinds of entries of the file system; links are not followed.
#[derive(Debug, Clone, Copy, PartialEq, Eq, Structural)]
pub enum EntryKind {
    Directory,
    File,
    Other,
}

/// What a scan does with an entry.
#[derive(Debug, Clone, Copy, PartialEq, Eq, Structural)]
pub enum ScanAction {
    Ignore,
    /// The entries of the directory are gone through.
    Descend,
    /// The file is imported.
    Take,
}

/// A directory that is not gone through.
pub open spec fn shunned(name: Seq<char>) -> bool {
    (name.len() > 0 && name[0] == '.') || name == "node_modules"@ || name == "$RECYCLE.BIN"@ || name
        == "System Volume Information"@
}

/// Whether a name starts with a dot.
pub fn is_dotted(name: &str) -> (r: bool)
    ensures
        r == (name@.len() > 0 && name@[0] == '.'),
{
    let chars = crate::text::chars_of(name);
    chars.len() > 0 && chars[0] == '.'
}

/// What a scan does with an entry that has an extension.
pub open spec fn scans_as(kind: EntryKind, name: Option<Seq<char>>, ext: Option<Seq<char>>) -> ScanAction {
    match kind {
        EntryKind::Directory => if name is Some && shunned(name->0) {
            ScanAction::Ignore
        } else {
            ScanAction::Descend
        },
        EntryKind::File => if type_of(ext) is Some {
            ScanAction::Take
        } else {
            ScanAction::Ignore
        },
        EntryKind::Other => ScanAction::Ignore,
    }
}

/// What a scan does with an entry, given the kind of document that its extension
/// names: directories are gone through unless their name says otherwise, and
/// files are taken where they are documents.
pub fn scan_entry_as(kind: EntryKind, name: Option<&str>, ext: Option<&str>) -> (action: ScanAction)
    ensures
        action == scans_as(kind, option_str(name), option_str(ext)),
{
    match kind {
        EntryKind::Directory => {
            let skip = match name {
                Some(name) => is_dotted(name) || same(name, "node_modules") || same(
                    name,
                    "$RECYCLE.BIN",
                ) || same(name, "System Volume Information"),
                None => false,
            };
            if skip {
                ScanAction::Ignore
            } else {
                ScanAction::Descend
            }
        },
        EntryKind::File => if file_type_as(ext).is_some() {
            ScanAction::Take
        } else {
            ScanAction::Ignore
        },
        EntryKind::Other => ScanAction::Ignore,
    }
}

/// What a scan does with an entry. Whether a file is a document goes by the
/// extension of its path.
pub fn scan_entry(kind: EntryKind, name: Option<&str>, path: &str) -> (action: ScanAction)
    ensures
        settled(path@) || kind != EntryKind::File ==> action == scans_as(
            kind,
            option_str(name),
            extension_in(path@),
        ),
        exists|ext: Option<Seq<char>>| #[trigger]
            reads_extension(path@, ext) && action == scans_as(kind, option_str(name), ext),
{
    match extension_of(path) {
        Some(ext) => {
            assert(reads_extension(path@, Some(ext@)));
            scan_entry_as(kind, name, Some(ext.as_str()))
        },
        None => {
            assert(reads_extension(path@, None));
            scan_entry_as(kind, name, None)
        },
    }
}

/// Whether an import is one of a folder: a single directory was given.
pub fn is_folder_import(inputs: &Vec<String>, first_is_dir: bool) -> (r: bool)
    ensures
        r == (inputs@.len() == 1 && first_is_dir),
{
    inputs.len() == 1 && first_is_dir
}

/// The name of the kind of an import, and the folder where it is one.
pub fn classify_inputs(inputs: &Vec<String>, first_is_dir: bool) -> (r: (&'static str, Option<String>))
    ensures
        inputs@.len() == 1 && first_is_dir ==> r.0@ == "folder"@ && option_text(r.1) == Some(
            inputs@[0]@,
        ),
        !(inputs@.len() == 1 && first_is_dir) ==> r.0@ == "files"@ && r.1 is None,
{
    if is_folder_import(inputs, first_is_dir) {
        ("folder", Some(inputs[0].clone()))
    } else {
        ("files", None)
    }
}

/// What the index holds of a file already.
#[derive(Debug)]
pub struct Existing {
    pub id: i64,
    pub file_size: i64,
    pub file_mtime_ms: i64,
    pub content_hash: String,
    pub parsed: bool,
    pub source_root: Option<String>,
}

/// The folder that a file belongs to: the one that is being added, otherwise
/// the one it belonged to before where that is to be kept.
pub open spec fn root_of(
    options: ImportOptions,
    given: Option<Seq<char>>,
    prior: Option<Existing>,
) -> Option<Seq<char>> {
    if given is Some {
        given
    } else if options.preserve_source_root && prior is Some {
        option_text(prior->0.source_root)
    } else {
        None
    }
}

/// What an optional reference refers to.
pub open spec fn option_ref(prior: Option<&Existing>) -> Option<Existing> {
    match prior {
        Some(prior) => Some(*prior),
        None => None,
    }
}

/// The folder that a file belongs to.
pub fn source_root_of(
    options: &ImportOptions,
    given: Option<&str>,
    prior: Option<&Existing>,
) -> (r: Option<String>)
    ensures
        option_text(r) == root_of(*options, option_str(given), option_ref(prior)),
{
    match given {
        Some(root) => Some(root.to_owned()),
        None => {
            if !options.preserve_source_root {
                return None;
            }
            match prior {
                Some(prior) => match &prior.source_root {
                    Some(root) => Some(root.clone()),
                    None => None,
                },
                None => None,
            }
        },
    }
}

/// A size as it is stored: in 64 bits with a sign.
pub open spec fn size_stored(n: u64) -> int {
    if n < 0x8000_0000_0000_0000 {
        n as int
    } else {
        n - 0x1_0000_0000_0000_0000
    }
}

/// A size as it is stored: in 64 bits with a sign.
pub fn stored_size(n: u64) -> (r: i64)
    ensures
        r == size_stored(n),
{
    if n < 0x8000_0000_0000_0000 {
        n as i64
    } else {
        ((n as i128) - 0x1_0000_0000_0000_0000) as i64
    }
}

/// What the index holds of a file may stand for it: nothing is forced, and the
/// file was read before, or failures count as well.
pub open spec fn may_skip(options: ImportOptions, prior: Option<Existing>) -> bool {
    !options.force && prior is Some && (prior->0.parsed || options.skip_unchanged_failed)
}

/// The document that stands for a file whose size and time did not change.
pub open spec fn same_file(options: ImportOptions, prior: Option<Existing>, meta: FileMeta) -> Option<
    i64,
> {
    if may_skip(options, prior) && prior->0.file_size == size_stored(meta.file_size)
        && prior->0.file_mtime_ms == meta.file_mtime_ms {
        Some(prior->0.id)
    } else {
        None
    }
}

/// The document that stands for a file whose content did not change.
pub open spec fn same_content(
    options: ImportOptions,
    prior: Option<Existing>,
    hash: Seq<char>,
) -> Option<i64> {
    if may_skip(options, prior) && prior->0.content_hash@ == hash {
        Some(prior->0.id)
    } else {
        None
    }
}

/// The document that stands for a file whose size and time did not change, so
/// that the file need not be read.
pub fn skip_unread(options: &ImportOptions, prior: Option<&Existing>, meta: &FileMeta) -> (r: Option<
    i64,
>)
    ensures
        r == same_file(*options, option_ref(prior), *meta),
        r is Some ==> prior is Some && !options.force && prior->0.file_mtime_ms
            == meta.file_mtime_ms && (meta.file_size <= i64::MAX ==> prior->0.file_size
            == meta.file_size),
{
    match prior {
        Some(prior) => if !options.force && (prior.parsed || options.skip_unchanged_failed)
            && prior.file_size == stored_size(meta.file_size) && prior.file_mtime_ms
            == meta.file_mtime_ms {
            Some(prior.id)
        } else {
            None
        },
        None => None,
    }
}

/// The document that stands for a file whose content did not change, so that
/// only its size and time are brought up to date.
pub fn skip_unchanged(options: &ImportOptions, prior: Option<&Existing>, hash: &str) -> (r: Option<
    i64,
>)
    ensures
        r == same_content(*options, option_ref(prior), hash@),
        r is Some ==> prior is Some && !options.force && prior->0.content_hash@ == hash@,
{
    match prior {
        Some(prior) => if !options.force && (prior.parsed || options.skip_unchanged_failed) && same(
            prior.content_hash.as_str(),
            hash,
        ) {
            Some(prior.id)
        } else {
            None
        },
        None => None,
    }
}

/// The SHA-256 digest of bytes.
pub uninterp spec fn sha256(bytes: Seq<u8>) -> Seq<u8>;

/// `Sha256::digest`: 32 bytes that depend on the input alone.
#[verifier::external_body]
fn digest(bytes: &[u8]) -> (r: Vec<u8>)
    ensures
        r@ == sha256(bytes@),
        r@.len() == 32,
{
    Sha256::digest(bytes).to_vec()
}

/// Bytes in hexadecimal digits.
pub open spec fn hex_text(bytes: Seq<u8>) -> Seq<char>
    decreases bytes.len(),
{
    if bytes.len() == 0 {
        Seq::empty()
    } else {
        hex_text(bytes.drop_last()).push(hex_digit((bytes.last() / 16) as int)).push(
            hex_digit((bytes.last() % 16) as int),
        )
    }
}

/// Bytes in hexadecimal digits.
pub fn hex_of_bytes(bytes: &Vec<u8>) -> (s: String)
    ensures
        s@ == hex_text(bytes@),
{
    let mut s = String::new();
    let mut i: usize = 0;
    assert(bytes@.take(0) =~= Seq::empty());
    while i < bytes.len()
        invariant
            i <= bytes@.len(),
            s@ == hex_text(bytes@.take(i as int)),
        decreases bytes@.len() - i,
    {
        assert(bytes@.take(i + 1).drop_last() =~= bytes@.take(i as int));
        s.push(nibble(bytes[i] / 16));
        s.push(nibble(bytes[i] % 16));
        i += 1;
    }
    assert(bytes@.take(i as int) =~= bytes@);
    s
}

fn nibble(n: u8) -> (c: char)
    requires
        n < 16,
    ensures
        c == hex_digit(n as int),
{
    if n < 10 {
        (48u8 + n) as char
    } else {
        (87u8 + n) as char
    }
}

/// The hash by which a content is known again.
pub fn content_hash(bytes: &[u8]) -> (s: String)
    ensures
        s@ == hex_text(sha256(bytes@)),
        s@.len() == 64,
{
    let d = digest(bytes);
    proof {
        lemma_hex_length(d@);
    }
    hex_of_bytes(&d)
}

proof fn lemma_hex_length(bytes: Seq<u8>)
    ensures
        hex_text(bytes).len() == 2 * bytes.len(),
    decreases bytes.len(),
{
    if bytes.len() > 0 {
        lemma_hex_length(bytes.drop_last());
    }
}

/// What reading the metadata of a file came to.
#[derive(Debug)]
pub enum MetaReading {
    Found(FileMeta),
    /// The file is no document any more.
    NotADocument,
    /// The metadata could not be read, with the reason.
    Failed(String),
}

/// What the work on a file came to.
#[derive(Debug)]
pub enum FileResult {
    /// The file did not change; `touch` tells that its size and time have to be
    /// brought up to date.
    Skipped { meta: FileMeta, document_id: i64, touch: bool },
    Done { meta: FileMeta, hash: String, result: Result<Parsed, ParseError> },
}

/// What has to be done with a file next.
#[derive(Debug)]
pub enum FileStep {
    /// Nothing more.
    Finish(FileResult),
    /// The file has to be read.
    Read(FileMeta),
}

/// Stands for the metadata of a file that they could not be read of.
pub fn dummy_meta(path: &str, file_name: Option<&str>, source_root: Option<String>) -> (meta: FileMeta)
    ensures
        meta.path@ == path@,
        meta.canonical_path@ == path@,
        meta.file_name@ == match file_name {
            Some(name) => name@,
            None => path@,
        },
        meta.ext@ == Seq::<char>::empty(),
        meta.file_type == FileType::Text,
        meta.file_size == 0,
        meta.file_mtime_ms == 0,
        meta.source_root == source_root,
{
    FileMeta {
        path: path.to_owned(),
        canonical_path: path.to_owned(),
        file_name: match file_name {
            Some(name) => name.to_owned(),
            None => path.to_owned(),
        },
        ext: String::new(),
        file_type: FileType::Text,
        file_size: 0,
        file_mtime_ms: 0,
        source_root,
    }
}

/// The error for a file whose metadata could not be read.
pub open spec fn meta_error(path: Seq<char>, reading: MetaReading) -> ErrorView {
    match reading {
        MetaReading::Failed(reason) => ErrorView {
            code: ParseErrorCode::Io,
            message: "无法读取文件(权限/占用/路径失效)"@,
            detail: reason@,
        },
        _ => unsupported(path),
    }
}

/// The metadata with a folder.
pub open spec fn with_root(meta: FileMeta, root: Option<Seq<char>>, r: FileMeta) -> bool {
    &&& r.path == meta.path
    &&& r.canonical_path == meta.canonical_path
    &&& r.file_name == meta.file_name
    &&& r.ext == meta.ext
    &&& r.file_type == meta.file_type
    &&& r.file_size == meta.file_size
    &&& r.file_mtime_ms == meta.file_mtime_ms
    &&& option_text(r.source_root) == root
}

/// Begins the work on a file. A file without metadata has failed; one whose
/// size and time did not change is skipped; any other has to be read.
pub fn start_file(
    path: &str,
    file_name: Option<&str>,
    options: &ImportOptions,
    source_root: Option<String>,
    reading: MetaReading,
    prior: Option<&Existing>,
) -> (step: FileStep)
    ensures
        match reading {
            MetaReading::Found(meta) => match same_file(*options, option_ref(prior), meta) {
                Some(id) => step matches FileStep::Finish(
                    FileResult::Skipped { meta: m, document_id, touch },
                ) && with_root(meta, option_text(source_root), m) && document_id == id && !touch,
                None => step matches FileStep::Read(m) && with_root(
                    meta,
                    option_text(source_root),
                    m,
                ),
            },
            _ => step matches FileStep::Finish(FileResult::Done { meta, hash, result }) && meta.path@
                == path@ && meta.canonical_path@ == path@ && meta.file_name@ == (match file_name {
                Some(name) => name@,
                None => path@,
            }) && meta.source_root == source_root && hash@.len() == 0 && parsing(result) == Err::<
                ParsedView,
                ErrorView,
            >(meta_error(path@, reading)),
        },
        step matches FileStep::Finish(FileResult::Skipped { meta, document_id, touch }) ==> !touch
            && !options.force && prior is Some && prior->0.id == document_id
            && prior->0.file_mtime_ms == meta.file_mtime_ms && (meta.file_size <= i64::MAX
            ==> prior->0.file_size == meta.file_size),
{
    match reading {
        MetaReading::Found(mut meta) => {
            let skip = skip_unread(options, prior, &meta);
            meta.source_root = source_root;
            match skip {
                Some(document_id) => FileStep::Finish(
                    FileResult::Skipped { meta, document_id, touch: false },
                ),
                None => FileStep::Read(meta),
            }
        },
        MetaReading::NotADocument => FileStep::Finish(
            FileResult::Done {
                meta: dummy_meta(path, file_name, source_root),
                hash: String::new(),
                result: Err(
                    ParseError {
                        code: ParseErrorCode::Unsupported,
                        message: "无法识别的格式,或该格式无法转换(例如纯图片 PDF)".to_owned(),
                        detail: crate::text::join_two("扩展名不支持: ", path),
                    },
                ),
            },
        ),
        MetaReading::Failed(reason) => FileStep::Finish(
            FileResult::Done {
                meta: dummy_meta(path, file_name, source_root),
                hash: String::new(),
                result: Err(
                    ParseError {
                        code: ParseErrorCode::Io,
                        message: "无法读取文件(权限/占用/路径失效)".to_owned(),
                        detail: reason,
                    },
                ),
            },
        ),
    }
}

/// Ends the work on a file that was read. One that could not be read has
/// failed; one whose content did not change is skipped and only brought up to
/// date; any other is parsed.
pub fn finish_file(
    path: &str,
    meta: FileMeta,
    options: &ImportOptions,
    prior: Option<&Existing>,
    read: Result<Vec<u8>, ParseError>,
) -> (r: FileResult)
    requires
        read is Ok ==> decodable(read->Ok_0@.len() as int),
    ensures
        match read {
            Err(error) => r matches FileResult::Done { meta: m, hash, result } && m == meta
                && hash@.len() == 0 && result == Err::<Parsed, ParseError>(error),
            Ok(bytes) => match same_content(
                *options,
                option_ref(prior),
                hex_text(sha256(bytes@)),
            ) {
                Some(id) => r matches FileResult::Skipped { meta: m, document_id, touch } && m
                    == meta && document_id == id && touch,
                None => r matches FileResult::Done { meta: m, hash, result } && m == meta && hash@
                    == hex_text(sha256(bytes@)) && parses_to(path@, bytes@, parsing(result)),
            },
        },
        r matches FileResult::Skipped { document_id, touch, .. } ==> touch && !options.force
            && read is Ok && prior is Some && prior->0.id == document_id
            && prior->0.content_hash@ == hex_text(sha256(read->Ok_0@)),
{
    match read {
        Err(error) => FileResult::Done { meta, hash: String::new(), result: Err(error) },
        Ok(bytes) => {
            let hash = content_hash(bytes.as_slice());
            match skip_unchanged(options, prior, hash.as_str()) {
                Some(document_id) => FileResult::Skipped { meta, document_id, touch: true },
                None => {
                    let result = parse_bytes(path, bytes.as_slice());
                    FileResult::Done { meta, hash, result }
                },
            }
        },
    }
}

/// Makes a document for the index: the plain text with its title is divided
/// into fragments.
pub fn build_document(parsed: Parsed, plain: PlainText, title: String) -> (document: ParsedDocument)
    requires
        plain.wf(),
    ensures
        document.title == title,
        document.markdown == parsed.markdown,
        document.plain == plain,
        chunk_views(document.chunks@) == chunks_of(title@, plain.text@, plain.blocks@),
        document.warnings == parsed.warnings,
        document.parser_name == parsed.parser_name,
        document.parser_version == parsed.parser_version,
{
    let chunks = chunk_document(title.as_str(), &plain);
    ParsedDocument {
        title,
        markdown: parsed.markdown,
        plain,
        chunks,
        warnings: parsed.warnings,
        parser_name: parsed.parser_name,
        parser_version: parsed.parser_version,
    }
}

/// Most files that are written to the index at once.
pub const WRITE_BATCH_MAX: usize = 64;

/// Every file that was done is counted once.
pub open spec fn balanced(counts: ImportCounts) -> bool {
    counts.processed == counts.ok + counts.failed + counts.skipped
}

/// The counts with one more file.
pub open spec fn counted(counts: ImportCounts, outcome: FileOutcome) -> ImportCounts {
    match outcome {
        FileOutcome::Stored { .. } => ImportCounts {
            processed: (counts.processed + 1) as usize,
            ok: (counts.ok + 1) as usize,
            ..counts
        },
        FileOutcome::Failed { .. } => ImportCounts {
            processed: (counts.processed + 1) as usize,
            failed: (counts.failed + 1) as usize,
            ..counts
        },
        FileOutcome::Skipped => ImportCounts {
            processed: (counts.processed + 1) as usize,
            skipped: (counts.skipped + 1) as usize,
            ..counts
        },
    }
}

/// Counts one more file.
pub fn count_outcome(counts: &ImportCounts, outcome: &FileOutcome) -> (r: ImportCounts)
    requires
        balanced(*counts),
        counts.processed < usize::MAX,
    ensures
        r == counted(*counts, *outcome),
        balanced(r),
{
    let mut r = *counts;
    match outcome {
        FileOutcome::Stored { .. } => {
            r.ok = r.ok + 1;
        },
        FileOutcome::Failed { .. } => {
            r.failed = r.failed + 1;
        },
        FileOutcome::Skipped => {
            r.skipped = r.skipped + 1;
        },
    }
    r.processed = r.processed + 1;
    r
}

/// The counts after each of a batch of files, one behind the other.
pub open spec fn counted_all(counts: ImportCounts, outcomes: Seq<FileOutcome>) -> ImportCounts
    decreases outcomes.len(),
{
    if outcomes.len() == 0 {
        counts
    } else {
        counted(counted_all(counts, outcomes.drop_last()), outcomes.last())
    }
}

/// Counts a batch of files and gives the counts after each of them.
pub fn count_batch(counts: &ImportCounts, outcomes: &Vec<FileOutcome>) -> (r: Vec<ImportCounts>)
    requires
        balanced(*counts),
        counts.processed + outcomes@.len() <= usize::MAX,
    ensures
        r@.len() == outcomes@.len(),
        forall|i: int|
            0 <= i < r@.len() ==> #[trigger] r@[i] == counted_all(*counts, outcomes@.take(i + 1))
                && balanced(r@[i]),
{
    let mut r: Vec<ImportCounts> = Vec::new();
    let mut current = *counts;
    let mut i: usize = 0;
    assert(outcomes@.take(0) =~= Seq::empty());
    while i < outcomes.len()
        invariant
            i <= outcomes@.len(),
            r@.len() == i,
            balanced(current),
            current == counted_all(*counts, outcomes@.take(i as int)),
            current.processed == counts.processed + i,
            counts.processed + outcomes@.len() <= usize::MAX,
            forall|k: int|
                0 <= k < i ==> #[trigger] r@[k] == counted_all(*counts, outcomes@.take(k + 1))
                    && balanced(r@[k]),
        decreases outcomes@.len() - i,
    {
        assert(outcomes@.take(i + 1).drop_last() =~= outcomes@.take(i as int));
        current = count_outcome(&current, &outcomes[i]);
        r.push(current);
        i += 1;
    }
    r
}

/// What is recorded of a file: its status, and the code and message of its
/// error.
pub fn item_of(outcome: &FileOutcome) -> (r: (&'static str, Option<String>, Option<String>))
    ensures
        match *outcome {
            FileOutcome::Stored { .. } => r.0@ == "ok"@ && r.1 is None && r.2 is None,
            FileOutcome::Skipped => r.0@ == "skipped"@ && r.1 is None && r.2 is None,
            FileOutcome::Failed { code, message } => r.0@ == "failed"@ && option_text(r.1) == Some(
                code@,
            ) && option_text(r.2) == Some(message@),
        },
{
    match outcome {
        FileOutcome::Stored { .. } => ("ok", None, None),
        FileOutcome::Skipped => ("skipped", None, None),
        FileOutcome::Failed { code, message } => (
            "failed",
            Some(code.clone()),
            Some(message.clone()),
        ),
    }
}

/// The outcome of a file that failed.
pub fn failed_outcome(error: &ParseError) -> (outcome: FileOutcome)
    ensures
        outcome matches FileOutcome::Failed { code, message } && code@ == code_name(error.code)
            && message@ == (if error.detail@.len() == 0 {
            error.message@
        } else {
            error.message@ + "("@ + error.detail@ + ")"@
        }),
{
    FileOutcome::Failed { code: error.code.as_str().to_owned(), message: error.text() }
}

/// How an import ended.
#[derive(Debug)]
pub struct Ending {
    pub status: &'static str,
    pub message: Option<String>,
    pub cancelled: bool,
}

/// How an import ended: it failed where the index could not be written, and was
/// cancelled where that was asked for.
pub fn ending(error: Option<String>, cancel: bool) -> (r: Ending)
    ensures
        r.message == error,
        r.cancelled == (cancel && error is None),
        r.status@ == if error is Some {
            "failed"@
        } else if cancel {
            "cancelled"@
        } else {
            "done"@
        },
{
    if error.is_some() {
        Ending { status: "failed", message: error, cancelled: false }
    } else if cancel {
        Ending { status: "cancelled", message: None, cancelled: true }
    } else {
        Ending { status: "done", message: None, cancelled: false }
    }
}

/// A file that is forced is never skipped.
pub proof fn law_forced_files_are_read(
    options: ImportOptions,
    prior: Option<Existing>,
    meta: FileMeta,
    hash: Seq<char>,
)
    requires
        options.force,
    ensures
        same_file(options, prior, meta) is None,
        same_content(options, prior, hash) is None,
{
}

/// A file that failed before is tried again, unless failures that did not
/// change are to be skipped.
pub proof fn law_failures_are_retried(
    options: ImportOptions,
    prior: Existing,
    meta: FileMeta,
    hash: Seq<char>,
)
    requires
        !prior.parsed,
        !options.skip_unchanged_failed,
    ensures
        same_file(options, Some(prior), meta) is None,
        same_content(options, Some(prior), hash) is None,
{
}

/// Counting keeps the total and counts every file once.
pub proof fn law_counts_balance(counts: ImportCounts, outcomes: Seq<FileOutcome>)
    requires
        balanced(counts),
        counts.processed + outcomes.len() <= usize::MAX,
    ensures
        balanced(counted_all(counts, outcomes)),
        counted_all(counts, outcomes).processed == counts.processed + outcomes.len(),
        counted_all(counts, outcomes).total == counts.total,
    decreases outcomes.len(),
{
    if outcomes.len() > 0 {
        law_counts_balance(counts, outcomes.drop_last());
    }
}

} // verus!
