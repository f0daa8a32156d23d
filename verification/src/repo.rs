//! Records of the index: documents, files to be imported, and settings.

use vstd::prelude::*;
use vstd::string::StringExecFns;

use crate::chunk::Chunk;
use crate::parse::{file_type_of, type_of, FileType};
use crate::paths::{extension_in, reads_extension, settled, stem, stem_of};
use crate::text::{
    chars_of, join, joined, lowered, number, parse_number, same, texts, to_lowered, trim, trimmed,
    PlainText,
};

verus! {

/// `SystemTime::elapsed` of the start of 1970, in milliseconds; `None` where the
/// clock is behind it. Nothing is said of the time.
#[verifier::external_body]
fn since_epoch() -> (r: Option<u128>) {
    std::time::UNIX_EPOCH.elapsed().ok().map(|d| d.as_millis())
}

/// The low 64 bits of a number, as a signed number.
pub open spec fn low_bits(n: u128) -> int {
    let low = n as int % 0x1_0000_0000_0000_0000;
    if low < 0x8000_0000_0000_0000 {
        low
    } else {
        low - 0x1_0000_0000_0000_0000
    }
}

/// A time as milliseconds; times before 1970 count as its start.
pub open spec fn clock_millis(elapsed: Option<u128>) -> int {
    match elapsed {
        Some(n) => low_bits(n),
        None => 0,
    }
}

/// A time as milliseconds; times before 1970 count as its start.
pub fn millis_of(elapsed: Option<u128>) -> (ms: i64)
    ensures
        ms == clock_millis(elapsed),
{
    match elapsed {
        Some(n) => {
            let low = (n % 0x1_0000_0000_0000_0000) as u64;
            if low < 0x8000_0000_0000_0000 {
                low as i64
            } else {
                ((low as i128) - 0x1_0000_0000_0000_0000) as i64
            }
        },
        None => 0,
    }
}

/// The current time in milliseconds since the start of 1970.
pub fn now_ms() -> (ms: i64)
    ensures
        exists|elapsed: Option<u128>| ms == #[trigger] clock_millis(elapsed),
{
    let elapsed = since_epoch();
    millis_of(elapsed)
}

/// A document of the index.
#[derive(Debug, Clone)]
pub struct DocumentRow {
    pub id: i64,
    pub path: String,
    pub file_name: String,
    pub title: String,
    pub ext: String,
    pub file_type: String,
    pub file_size: i64,
    pub file_mtime_ms: i64,
    pub parse_status: String,
    pub parse_error_code: Option<String>,
    pub parse_error_message: Option<String>,
    pub text_length: i64,
    pub chunk_count: i64,
    pub indexed_at: Option<i64>,
    /// The folder that the document was added with; `None` where it was added
    /// by itself.
    pub source_root: Option<String>,
    pub updated_at: i64,
}

/// A file that may be imported.
#[derive(Debug, Clone)]
pub struct FileMeta {
    /// The absolute path.
    pub path: String,
    /// The path with all links resolved, by which a file is known again.
    pub canonical_path: String,
    pub file_name: String,
    pub ext: String,
    pub file_type: FileType,
    pub file_size: u64,
    pub file_mtime_ms: i64,
    /// The folder that is being added; `None` where the file is added by
    /// itself.
    pub source_root: Option<String>,
}

/// The kind of a document, where the file is one.
pub open spec fn kind_of(meta: Option<FileMeta>) -> Option<FileType> {
    match meta {
        Some(meta) => Some(meta.file_type),
        None => None,
    }
}

impl FileMeta {
    /// What is known of a file; `None` where it is no document. The time of the
    /// last change is given in milliseconds since the start of 1970 where it is
    /// known and not before that.
    pub fn of(
        path: &str,
        canonical_path: &str,
        file_name: Option<&str>,
        ext: Option<&str>,
        size: u64,
        modified: Option<u128>,
    ) -> (r: Option<FileMeta>)
        ensures
            settled(path@) ==> kind_of(r) == type_of(extension_in(path@)),
            exists|read: Option<Seq<char>>| #[trigger]
                reads_extension(path@, read) && kind_of(r) == type_of(read),
            r is Some ==> {
                let meta = r->0;
                &&& meta.path@ == path@
                &&& meta.canonical_path@ == canonical_path@
                &&& meta.file_name@ == (match file_name {
                    Some(name) => name@,
                    None => Seq::empty(),
                })
                &&& meta.ext@ == (match ext {
                    Some(ext) => lowered(ext@),
                    None => Seq::empty(),
                })
                &&& meta.file_size == size
                &&& meta.file_mtime_ms == clock_millis(modified)
                &&& meta.source_root is None
            },
    {
        match file_type_of(path) {
            None => None,
            Some(file_type) => Some(
                FileMeta {
                    path: path.to_owned(),
                    canonical_path: canonical_path.to_owned(),
                    file_name: match file_name {
                        Some(name) => name.to_owned(),
                        None => String::new(),
                    },
                    ext: match ext {
                        Some(ext) => to_lowered(ext),
                        None => String::new(),
                    },
                    file_type,
                    file_size: size,
                    file_mtime_ms: millis_of(modified),
                    source_root: None,
                },
            ),
        }
    }

    /// The file name without its extension.
    pub fn stem(&self) -> (s: String)
        ensures
            s@ == stem(self.file_name@),
    {
        stem_of(self.file_name.as_str())
    }
}

/// A document that was read and divided into fragments.
#[derive(Debug)]
pub struct ParsedDocument {
    pub title: String,
    pub markdown: String,
    pub plain: PlainText,
    pub chunks: Vec<Chunk>,
    pub warnings: Vec<String>,
    pub parser_name: &'static str,
    pub parser_version: &'static str,
}

/// Progress of an import.
#[derive(Debug, Clone, Copy, PartialEq, Eq, Structural)]
pub struct ImportCounts {
    pub total: usize,
    pub processed: usize,
    pub ok: usize,
    pub failed: usize,
    pub skipped: usize,
}

impl Default for ImportCounts {
    fn default() -> (counts: Self)
        ensures
            counts == (ImportCounts { total: 0, processed: 0, ok: 0, failed: 0, skipped: 0 }),
    {
        ImportCounts { total: 0, processed: 0, ok: 0, failed: 0, skipped: 0 }
    }
}

/// Numbers about the index.
#[derive(Debug, Clone, Copy, PartialEq, Eq, Structural)]
pub struct Stats {
    pub documents: i64,
    pub parsed: i64,
    pub failed: i64,
    pub chunks: i64,
}

/// Documents that were not parsed have failed.
pub fn stats(documents: i64, parsed: i64, chunks: i64) -> (s: Stats)
    requires
        i64::MIN <= documents - parsed <= i64::MAX,
    ensures
        s == (Stats { documents, parsed, failed: (documents - parsed) as i64, chunks }),
{
    Stats { documents, parsed, failed: documents - parsed, chunks }
}

/// Days that the history of finished imports is kept.
pub const IMPORT_HISTORY_RETENTION_DAYS: i64 = 90;

/// The time before which finished imports are forgotten.
pub fn history_cutoff(now_ms: i64) -> (cutoff: i64)
    ensures
        cutoff == if now_ms - 90 * 86_400_000 < i64::MIN {
            i64::MIN as int
        } else {
            now_ms - 90 * 86_400_000
        },
{
    let kept: i64 = IMPORT_HISTORY_RETENTION_DAYS * 86_400_000;
    if now_ms < i64::MIN + kept {
        i64::MIN
    } else {
        now_ms - kept
    }
}

/// An import that ended at the given time, or began then where its end is not
/// known, is forgotten. One that is still running is not, nor is one that
/// ended exactly when the time to keep it began.
pub fn forgets_run(status: &str, finished_at: Option<i64>, started_at: i64, now_ms: i64) -> (r: bool)
    ensures
        r == ((status@ == "done"@ || status@ == "failed"@ || status@ == "cancelled"@) && (
        match finished_at {
            Some(t) => t as int,
            None => started_at as int,
        }) < now_ms - 90 * 86_400_000),
{
    let ended = match finished_at {
        Some(t) => t,
        None => started_at,
    };
    let over = same(status, "done") || same(status, "failed") || same(status, "cancelled");
    over && ended < history_cutoff(now_ms)
}

/// Size in megabytes beyond which a file is not imported unless the settings
/// say so.
pub const DEFAULT_MAX_FILE_MB: u64 = 100;

/// Largest size in megabytes that can be set.
pub const MAX_FILE_MB_LIMIT: u64 = 2048;

/// The Markdown of documents is not kept unless the settings say so.
pub const DEFAULT_SAVE_MARKDOWN: bool = false;

/// Whether the Markdown of documents is kept, by the value of the setting.
pub fn save_markdown_enabled(value: Option<&str>) -> (r: bool)
    ensures
        r == match value {
            Some(value) => trimmed(value@) == "1"@,
            None => DEFAULT_SAVE_MARKDOWN,
        },
{
    match value {
        Some(value) => same(trim(value).as_str(), "1"),
        None => DEFAULT_SAVE_MARKDOWN,
    }
}

/// The size in megabytes that a setting stands for.
pub open spec fn file_megabytes(value: Option<&str>) -> int {
    match value {
        Some(value) => match number(trimmed(value@)) {
            Some(n) => if 1 <= n <= MAX_FILE_MB_LIMIT {
                n
            } else {
                DEFAULT_MAX_FILE_MB as int
            },
            None => DEFAULT_MAX_FILE_MB as int,
        },
        None => DEFAULT_MAX_FILE_MB as int,
    }
}

/// The size in megabytes beyond which a file is not imported, by the value of
/// the setting. What is missing or out of range stands for the default.
pub fn max_file_mb(value: Option<&str>) -> (mb: u64)
    ensures
        mb == file_megabytes(value),
        1 <= mb <= MAX_FILE_MB_LIMIT,
{
    let mut mb: u64 = DEFAULT_MAX_FILE_MB;
    if let Some(text) = value {
        if let Some(n) = parse_number(trim(text).as_str()) {
            if 1 <= n && n <= MAX_FILE_MB_LIMIT {
                mb = n;
            }
        }
    }
    mb
}

/// The size in bytes beyond which a file is not imported, by the value of the
/// setting.
pub fn max_file_bytes(value: Option<&str>) -> (n: u64)
    ensures
        n == file_megabytes(value) * 1048576,
{
    max_file_mb(value) * 1048576
}

/// A hexadecimal digit.
pub open spec fn hex_digit(n: int) -> char {
    if n < 10 {
        ('0' as u32 + n) as char
    } else {
        ('a' as u32 + n - 10) as char
    }
}

/// A character inside a JSON string.
pub open spec fn json_char(c: char) -> Seq<char> {
    if c == '"' {
        seq!['\\', '"']
    } else if c == '\\' {
        seq!['\\', '\\']
    } else if (c as u32) < 32 {
        seq!['\\', 'u', '0', '0', hex_digit((c as u32 / 16) as int), hex_digit((c as u32 % 16) as int)]
    } else {
        seq![c]
    }
}

/// A text inside a JSON string.
pub open spec fn json_chars(s: Seq<char>) -> Seq<char>
    decreases s.len(),
{
    if s.len() == 0 {
        Seq::empty()
    } else {
        json_chars(s.drop_last()) + json_char(s.last())
    }
}

/// Texts as JSON strings.
pub open spec fn json_strings(list: Seq<Seq<char>>) -> Seq<Seq<char>> {
    list.map_values(|s: Seq<char>| "\""@ + json_chars(s) + "\""@)
}

/// Texts as a JSON array.
pub open spec fn json_array(list: Seq<Seq<char>>) -> Seq<char> {
    "["@ + joined(json_strings(list), ","@) + "]"@
}

fn hex_of(n: u32) -> (c: char)
    requires
        n < 16,
    ensures
        c == hex_digit(n as int),
{
    if n < 10 {
        (48u8 + n as u8) as char
    } else {
        (87u8 + n as u8) as char
    }
}

fn json_string(text: &str) -> (s: String)
    ensures
        s@ == "\""@ + json_chars(text@) + "\""@,
{
    let chars = chars_of(text);
    let mut s = "\"".to_owned();
    let mut i: usize = 0;
    proof {
        assert(chars@.take(0) =~= Seq::empty());
        assert(s@ =~= "\""@ + json_chars(chars@.take(0)));
    }
    while i < chars.len()
        invariant
            i <= chars@.len(),
            s@ == "\""@ + json_chars(chars@.take(i as int)),
        decreases chars@.len() - i,
    {
        let ghost before = s@;
        let c = chars[i];
        assert(chars@.take(i + 1).drop_last() =~= chars@.take(i as int));
        if c == '"' {
            s.push('\\');
            s.push('"');
        } else if c == '\\' {
            s.push('\\');
            s.push('\\');
        } else if (c as u32) < 32 {
            s.push('\\');
            s.push('u');
            s.push('0');
            s.push('0');
            s.push(hex_of(c as u32 / 16));
            s.push(hex_of(c as u32 % 16));
        } else {
            s.push(c);
        }
        i += 1;
        assert(s@ =~= before + json_char(c));
        assert(s@ =~= "\""@ + json_chars(chars@.take(i as int)));
    }
    assert(chars@.take(i as int) =~= chars@);
    s.append("\"");
    s
}

/// Warnings as a JSON array of strings.
pub fn warnings_to_json(warnings: &Vec<String>) -> (s: String)
    ensures
        s@ == json_array(texts(warnings@)),
{
    let mut parts: Vec<String> = Vec::new();
    let ghost all = texts(warnings@);
    let mut i: usize = 0;
    while i < warnings.len()
        invariant
            i <= warnings@.len(),
            all == texts(warnings@),
            texts(parts@) == json_strings(all).take(i as int),
        decreases warnings@.len() - i,
    {
        let ghost before = parts@;
        parts.push(json_string(warnings[i].as_str()));
        i += 1;
        assert(texts(parts@) =~= texts(before).push(
            "\""@ + json_chars(warnings@[i - 1]@) + "\""@,
        ));
        assert(texts(parts@) =~= json_strings(all).take(i as int));
    }
    assert(texts(parts@) =~= json_strings(all));
    let body = join(&parts, ",");
    let mut s = "[".to_owned();
    s.append(body.as_str());
    s.append("]");
    s
}

/// No character of a JSON string ends it or is a control character.
pub proof fn law_json_text_is_escaped(s: Seq<char>, i: int)
    requires
        0 <= i < json_chars(s).len(),
    ensures
        json_chars(s)[i] as u32 >= 32,
        json_chars(s)[i] == '"' ==> i > 0 && json_chars(s)[i - 1] == '\\',
    decreases s.len(),
{
    let head = json_chars(s.drop_last());
    let tail = json_char(s.last());
    assert(json_chars(s) == head + tail);
    if i < head.len() {
        law_json_text_is_escaped(s.drop_last(), i);
        assert(json_chars(s)[i] == head[i]);
        if i > 0 {
            assert(json_chars(s)[i - 1] == head[i - 1]);
        }
    } else {
        assert(json_chars(s)[i] == tail[i - head.len()]);
        let c = s.last();
        if (c as u32) < 32 {
            assert(hex_digit((c as u32 / 16) as int) as u32 >= 48);
            assert(hex_digit((c as u32 % 16) as int) as u32 >= 48);
            assert(hex_digit((c as u32 / 16) as int) != '"');
            assert(hex_digit((c as u32 % 16) as int) != '"');
        }
        if tail.len() == 2 && i - head.len() == 1 {
            assert(json_chars(s)[i - 1] == tail[0]);
        }
    }
}

/// Documents of one folder.
#[derive(Debug)]
pub struct FolderGroup {
    pub root: String,
    pub documents: Vec<DocumentRow>,
}

/// What folders hold: the root and the documents of each.
pub open spec fn folder_views(folders: Seq<FolderGroup>) -> Seq<(Seq<char>, Seq<DocumentRow>)> {
    folders.map_values(|f: FolderGroup| (f.root@, f.documents@))
}

/// Neighbours with the same root gathered into folders, in the same order.
pub open spec fn grouped(rows: Seq<(String, DocumentRow)>) -> Seq<(Seq<char>, Seq<DocumentRow>)>
    decreases rows.len(),
{
    if rows.len() == 0 {
        Seq::empty()
    } else {
        let before = grouped(rows.drop_last());
        let (root, document) = rows.last();
        if before.len() > 0 && before.last().0 == root@ {
            before.drop_last().push((root@, before.last().1.push(document)))
        } else {
            before.push((root@, seq![document]))
        }
    }
}

/// Gathers documents that were added with folders. The rows come ordered by
/// folder, so that those of one folder are neighbours.
pub fn group_by_source_root(rows: Vec<(String, DocumentRow)>) -> (folders: Vec<FolderGroup>)
    ensures
        folder_views(folders@) == grouped(rows@),
{
    let ghost all = rows@;
    let mut rows = rows;
    let mut pending: Vec<(String, DocumentRow)> = Vec::new();
    while rows.len() > 0
        invariant
            rows@ + pending@.reverse() =~= all,
        decreases rows@.len(),
    {
        let ghost before = rows@;
        let ghost done = pending@;
        match rows.pop() {
            Some(row) => {
                pending.push(row);
                assert(pending@.reverse() =~= seq![row] + done.reverse());
                assert(before =~= rows@.push(row));
            },
            None => {},
        }
    }
    assert(pending@.reverse() =~= all);
    let mut folders: Vec<FolderGroup> = Vec::new();
    let ghost mut n: int = 0;
    proof {
        assert(folder_views(folders@) =~= Seq::empty());
        assert(all.take(0) =~= Seq::empty());
        assert(pending@.reverse() =~= all.skip(0));
    }
    while pending.len() > 0
        invariant
            0 <= n <= all.len(),
            pending@.reverse() == all.skip(n),
            folder_views(folders@) == grouped(all.take(n)),
        decreases pending@.len(),
    {
        let ghost before = pending@;
        match pending.pop() {
            Some((root, document)) => {
                proof {
                    assert(before.reverse().len() == all.skip(n).len());
                    assert(before.reverse()[0] == before.last());
                    assert(all.skip(n)[0] == all[n]);
                    assert(all[n] == (root, document));
                    assert forall|i: int| 0 <= i < pending@.len() implies pending@.reverse()[i]
                        == all.skip(n + 1)[i] by {
                        assert(before.reverse()[i + 1] == all.skip(n)[i + 1]);
                    }
                    assert(pending@.reverse() =~= all.skip(n + 1));
                    assert(all.take(n + 1).drop_last() =~= all.take(n));
                    assert(all.take(n + 1).last() == all[n]);
                    n = n + 1;
                }
                let ghost list = folder_views(folders@);
                let count = folders.len();
                assert(list.len() == count);
                if count > 0 && same(folders[count - 1].root.as_str(), root.as_str()) {
                    match folders.pop() {
                        Some(mut last) => {
                            assert(list.last() == (last.root@, last.documents@));
                            last.documents.push(document);
                            folders.push(last);
                            assert(folder_views(folders@) =~= list.drop_last().push(
                                (last.root@, last.documents@),
                            ));
                        },
                        None => {},
                    }
                } else {
                    proof {
                        if count > 0 {
                            assert(list.last() == (
                                folders@[count - 1].root@,
                                folders@[count - 1].documents@,
                            ));
                        }
                    }
                    let mut documents: Vec<DocumentRow> = Vec::new();
                    documents.push(document);
                    assert(documents@ =~= seq![document]);
                    let folder = FolderGroup { root, documents };
                    folders.push(folder);
                    assert(folder_views(folders@) =~= list.push((root@, documents@)));
                }
            },
            None => {},
        }
    }
    assert(all.take(n) =~= all);
    folders
}

/// The documents of all folders, one folder behind the other.
pub open spec fn ungrouped(folders: Seq<(Seq<char>, Seq<DocumentRow>)>) -> Seq<DocumentRow>
    decreases folders.len(),
{
    if folders.len() == 0 {
        Seq::empty()
    } else {
        ungrouped(folders.drop_last()) + folders.last().1
    }
}

/// Gathering documents into folders neither loses nor moves any of them, and
/// neighbouring folders differ.
pub proof fn law_grouping_keeps_documents(rows: Seq<(String, DocumentRow)>)
    ensures
        ungrouped(grouped(rows)) == rows.map_values(|r: (String, DocumentRow)| r.1),
        forall|i: int|
            0 <= i < grouped(rows).len() - 1 ==> (#[trigger] grouped(rows)[i]).0 != grouped(
                rows,
            )[i + 1].0,
        forall|i: int| 0 <= i < grouped(rows).len() ==> (#[trigger] grouped(rows)[i]).1.len() > 0,
    decreases rows.len(),
{
    let documents = rows.map_values(|r: (String, DocumentRow)| r.1);
    if rows.len() == 0 {
        assert(documents =~= Seq::empty());
    } else {
        let init = rows.drop_last();
        law_grouping_keeps_documents(init);
        let before = grouped(init);
        let after = grouped(rows);
        let (root, document) = rows.last();
        let earlier = init.map_values(|r: (String, DocumentRow)| r.1);
        assert(documents =~= earlier.push(document));
        if before.len() > 0 && before.last().0 == root@ {
            let last = (root@, before.last().1.push(document));
            assert(after == before.drop_last().push(last));
            assert(after.drop_last() =~= before.drop_last());
            assert(ungrouped(after) =~= ungrouped(before).push(document));
            assert forall|i: int| 0 <= i < after.len() - 1 implies (#[trigger] after[i]).0
                != after[i + 1].0 by {
                assert(after[i] == before[i]);
                assert(after[i + 1].0 == before[i + 1].0);
            }
        } else {
            assert(after == before.push((root@, seq![document])));
            assert(after.drop_last() =~= before);
            assert(ungrouped(after) =~= ungrouped(before).push(document));
            assert forall|i: int| 0 <= i < after.len() - 1 implies (#[trigger] after[i]).0
                != after[i + 1].0 by {
                assert(after[i] == before[i]);
                if i + 1 < before.len() {
                    assert(after[i + 1] == before[i + 1]);
                } else {
                    assert(before[i] == before.last());
                }
            }
        }
    }
}

/// Number of documents that are read from the index at once.
pub const BATCH_IDS: usize = 500;

/// Question marks for a number of parameters.
pub open spec fn marks(n: nat) -> Seq<Seq<char>> {
    Seq::new(n, |i: int| "?"@)
}

/// Question marks for a number of parameters, separated by commas.
pub fn placeholders(n: usize) -> (s: String)
    ensures
        s@ == joined(marks(n as nat), ","@),
{
    let mut parts: Vec<String> = Vec::new();
    let mut i: usize = 0;
    while i < n
        invariant
            i <= n,
            texts(parts@) == marks(i as nat),
        decreases n - i,
    {
        let ghost before = parts@;
        parts.push("?".to_owned());
        i += 1;
        assert(texts(parts@) =~= texts(before).push("?"@));
        assert(texts(parts@) =~= marks(i as nat));
    }
    assert(n == 0 ==> texts(parts@) =~= marks(0));
    join(&parts, ",")
}

} // verus!
