//! What holds of every import: which files are read, which are taken for known, and
//! how they are counted.

use vstd::prelude::*;

use crate::import::{
    counted_all, hex_text, root_of, same_content, same_file, scans_as, size_stored, EntryKind,
    Existing, FileOutcome, ImportOptions, ScanAction,
};
use crate::parse::{
    extensions, format_of, parses_as, sniffed, text_file, type_of, unsupported, ErrorView, FileType,
    ParsedView,
};
use crate::repo::{FileMeta, ImportCounts};
use crate::text::{lower, lowered};
use crate::token_laws::{same_but_for_case, same_letter};

verus! {

/// A file is skipped without being read only if the index holds it with the size and
/// the time that it has, it was not to be read in any case, and it was read well
/// before or failures count too. The document of the index stands for it.
pub proof fn law_skipped_files_are_unchanged(
    options: ImportOptions,
    prior: Option<Existing>,
    meta: FileMeta,
)
    requires
        same_file(options, prior, meta) is Some,
    ensures
        prior is Some,
        same_file(options, prior, meta) == Some(prior->0.id),
        prior->0.file_mtime_ms == meta.file_mtime_ms,
        meta.file_size <= i64::MAX ==> prior->0.file_size == meta.file_size,
        meta.file_size > i64::MAX ==> prior->0.file_size + 0x1_0000_0000_0000_0000
            == meta.file_size,
        !options.force,
        prior->0.parsed || options.skip_unchanged_failed,
{
}

/// A file is read again whenever its size or its time is another than before.
pub proof fn law_changed_files_are_read(
    options: ImportOptions,
    prior: Existing,
    meta: FileMeta,
)
    requires
        meta.file_size <= i64::MAX,
        prior.file_size != meta.file_size || prior.file_mtime_ms != meta.file_mtime_ms,
    ensures
        same_file(options, Some(prior), meta) is None,
{
}

/// A file that the index knows nothing of is always read and parsed.
pub proof fn law_new_files_are_read(options: ImportOptions, meta: FileMeta, hash: Seq<char>)
    ensures
        same_file(options, None, meta) is None,
        same_content(options, None, hash) is None,
{
}

/// A file that was read well and has the size and the time that were stored of it is
/// not read again, unless that is forced.
pub proof fn law_unchanged_files_are_skipped(
    options: ImportOptions,
    prior: Existing,
    meta: FileMeta,
)
    requires
        !options.force,
        prior.parsed || options.skip_unchanged_failed,
        prior.file_mtime_ms == meta.file_mtime_ms,
        prior.file_size == size_stored(meta.file_size),
    ensures
        same_file(options, Some(prior), meta) == Some(prior.id),
{
}

/// Sizes that differ are stored as numbers that differ, and a size that a signed
/// number can hold is stored as it is.
pub proof fn law_sizes_are_told_apart(a: u64, b: u64)
    ensures
        a <= i64::MAX ==> size_stored(a) == a,
        i64::MIN <= size_stored(a) <= i64::MAX,
        a != b ==> size_stored(a) != size_stored(b),
{
}

/// A file that was read is only taken for known if its content has the hash that was
/// stored; and then it is, unless it was to be parsed in any case or failed before.
pub proof fn law_same_hash_means_known(
    options: ImportOptions,
    prior: Existing,
    hash: Seq<char>,
)
    ensures
        same_content(options, Some(prior), hash) is Some <==> {
            &&& prior.content_hash@ == hash
            &&& !options.force
            &&& prior.parsed || options.skip_unchanged_failed
        },
        same_content(options, Some(prior), hash) is Some ==> same_content(
            options,
            Some(prior),
            hash,
        ) == Some(prior.id),
{
}

/// The number that a digit of a hash stands for.
pub open spec fn nibble_value(c: char) -> int {
    if '0' <= c && c <= '9' {
        c as u32 - 48
    } else if 'a' <= c && c <= 'f' {
        c as u32 - 87
    } else {
        -1
    }
}

/// Each byte is written as two digits, the upper half first.
pub proof fn law_hex_digits_give_the_bytes(bytes: Seq<u8>, i: int)
    requires
        0 <= i < bytes.len(),
    ensures
        hex_text(bytes).len() == 2 * bytes.len(),
        ({
            let high = nibble_value(hex_text(bytes)[2 * i]);
            let low = nibble_value(hex_text(bytes)[2 * i + 1]);
            &&& 0 <= high < 16
            &&& 0 <= low < 16
            &&& 16 * high + low == bytes[i]
        }),
    decreases bytes.len(),
{
    let init = bytes.drop_last();
    let n = init.len() as int;
    lemma_hex_len(init);
    if i < n {
        law_hex_digits_give_the_bytes(init, i);
        assert(hex_text(bytes)[2 * i] == hex_text(init)[2 * i]);
        assert(hex_text(bytes)[2 * i + 1] == hex_text(init)[2 * i + 1]);
    } else {
        let b = bytes.last() as int;
        assert(b == 16 * (b / 16) + b % 16);
    }
}

proof fn lemma_hex_len(bytes: Seq<u8>)
    ensures
        hex_text(bytes).len() == 2 * bytes.len(),
    decreases bytes.len(),
{
    if bytes.len() > 0 {
        lemma_hex_len(bytes.drop_last());
    }
}

/// Digests that differ are written differently.
pub proof fn law_hashes_are_told_apart(a: Seq<u8>, b: Seq<u8>)
    requires
        hex_text(a) == hex_text(b),
    ensures
        a == b,
{
    lemma_hex_len(a);
    lemma_hex_len(b);
    assert forall|i: int| 0 <= i < a.len() implies a[i] == b[i] by {
        law_hex_digits_give_the_bytes(a, i);
        law_hex_digits_give_the_bytes(b, i);
    }
    assert(a =~= b);
}

/// Files that were stored.
pub open spec fn stored_in(outcomes: Seq<FileOutcome>) -> nat {
    outcomes.filter(|o: FileOutcome| o is Stored).len()
}

/// Files that failed.
pub open spec fn failed_in(outcomes: Seq<FileOutcome>) -> nat {
    outcomes.filter(|o: FileOutcome| o is Failed).len()
}

/// Files that were skipped.
pub open spec fn skipped_in(outcomes: Seq<FileOutcome>) -> nat {
    outcomes.filter(|o: FileOutcome| o is Skipped).len()
}

/// Every file is counted under what came of it, and under nothing else.
pub proof fn law_files_are_counted_by_outcome(counts: ImportCounts, outcomes: Seq<FileOutcome>)
    requires
        counts.ok + outcomes.len() <= usize::MAX,
        counts.failed + outcomes.len() <= usize::MAX,
        counts.skipped + outcomes.len() <= usize::MAX,
        counts.processed + outcomes.len() <= usize::MAX,
    ensures
        counted_all(counts, outcomes).ok == counts.ok + stored_in(outcomes),
        counted_all(counts, outcomes).failed == counts.failed + failed_in(outcomes),
        counted_all(counts, outcomes).skipped == counts.skipped + skipped_in(outcomes),
        counted_all(counts, outcomes).processed == counts.processed + outcomes.len(),
        counted_all(counts, outcomes).total == counts.total,
        stored_in(outcomes) <= outcomes.len(),
        failed_in(outcomes) <= outcomes.len(),
        skipped_in(outcomes) <= outcomes.len(),
    decreases outcomes.len(),
{
    reveal(Seq::filter);
    if outcomes.len() > 0 {
        law_files_are_counted_by_outcome(counts, outcomes.drop_last());
    }
}

/// A folder that is added becomes the folder of its files. A file that is added
/// alone belongs to none, unless the folder that it had is to be kept.
pub proof fn law_folders_of_files(
    options: ImportOptions,
    given: Option<Seq<char>>,
    prior: Option<Existing>,
)
    ensures
        given is Some ==> root_of(options, given, prior) == given,
        given is None && !options.preserve_source_root ==> root_of(options, given, prior) is None,
        given is None && prior is None ==> root_of(options, given, prior) is None,
        given is None && options.preserve_source_root && prior is Some ==> (root_of(
            options,
            given,
            prior,
        ) is Some <==> prior->0.source_root is Some),
        given is None && options.preserve_source_root && prior is Some
            && prior->0.source_root is Some ==> root_of(options, given, prior)->0
            == prior->0.source_root->0@,
{
}

/// The extension is this word, whatever the case of its letters.
pub open spec fn reads(ext: Seq<char>, word: Seq<char>) -> bool {
    same_but_for_case(ext, word)
}

proof fn lemma_reads(ext: Seq<char>, word: Seq<char>)
    requires
        forall|i: int| 0 <= i < word.len() ==> 'a' <= #[trigger] word[i] && word[i] <= 'z',
    ensures
        reads(ext, word) <==> lowered(ext) == word,
{
    if reads(ext, word) {
        assert forall|i: int| 0 <= i < word.len() implies lowered(ext)[i] == word[i] by {
            assert('a' <= word[i] && word[i] <= 'z');
            assert(same_letter(ext[i], word[i]));
            if ext[i] != word[i] {
                assert(lower(ext[i]) as u32 == word[i] as u32);
            }
        }
        assert(lowered(ext) =~= word);
    }
    if lowered(ext) == word {
        assert(lowered(ext).len() == ext.len());
        assert forall|i: int| 0 <= i < ext.len() implies same_letter(
            #[trigger] ext[i],
            word[i],
        ) by {
            assert(lowered(ext)[i] == lower(ext[i]));
            if 'A' <= ext[i] && ext[i] <= 'Z' {
                assert(word[i] as u32 == ext[i] as u32 + 32);
            }
        }
    }
}

/// An extension of a word processor.
pub open spec fn word_extension(ext: Seq<char>) -> bool {
    reads(ext, "doc"@) || reads(ext, "docx"@) || reads(ext, "docm"@) || reads(ext, "odt"@) || reads(
        ext,
        "rtf"@,
    )
}

/// An extension of tables.
pub open spec fn table_extension(ext: Seq<char>) -> bool {
    reads(ext, "xls"@) || reads(ext, "xlsx"@) || reads(ext, "xlsm"@) || reads(ext, "xlsb"@) || reads(
        ext,
        "ods"@,
    ) || reads(ext, "csv"@)
}

/// An extension of slides.
pub open spec fn slide_extension(ext: Seq<char>) -> bool {
    reads(ext, "ppt"@) || reads(ext, "pps"@) || reads(ext, "pot"@) || reads(ext, "pptx"@) || reads(
        ext,
        "pptm"@,
    ) || reads(ext, "ppsx"@) || reads(ext, "ppsm"@) || reads(ext, "odp"@)
}

proof fn lemma_word_extension(ext: Seq<char>)
    ensures
        word_extension(ext) <==> extensions(FileType::Word).contains(lowered(ext)),
        word_extension(ext) ==> lowered(ext)[0] == 'd' || lowered(ext)[0] == 'o' || lowered(ext)[0]
            == 'r',
        word_extension(ext) ==> lowered(ext).len() >= 3,
        word_extension(ext) && lowered(ext)[0] == 'o' ==> lowered(ext)[2] == 't',
{
    reveal_strlit("doc");
    reveal_strlit("docx");
    reveal_strlit("docm");
    reveal_strlit("odt");
    reveal_strlit("rtf");
    lemma_reads(ext, "doc"@);
    lemma_reads(ext, "docx"@);
    lemma_reads(ext, "docm"@);
    lemma_reads(ext, "odt"@);
    lemma_reads(ext, "rtf"@);
    let w = extensions(FileType::Word);
    assert(w[0] == "doc"@ && w[1] == "docx"@ && w[2] == "docm"@ && w[3] == "odt"@ && w[4] == "rtf"@);
}

proof fn lemma_table_extension(ext: Seq<char>)
    ensures
        table_extension(ext) <==> extensions(FileType::Excel).contains(lowered(ext)),
        table_extension(ext) ==> lowered(ext)[0] == 'x' || lowered(ext)[0] == 'o' || lowered(ext)[0]
            == 'c',
        table_extension(ext) ==> lowered(ext).len() >= 3,
        table_extension(ext) && lowered(ext)[0] == 'o' ==> lowered(ext)[2] == 's',
{
    reveal_strlit("xls");
    reveal_strlit("xlsx");
    reveal_strlit("xlsm");
    reveal_strlit("xlsb");
    reveal_strlit("ods");
    reveal_strlit("csv");
    lemma_reads(ext, "xls"@);
    lemma_reads(ext, "xlsx"@);
    lemma_reads(ext, "xlsm"@);
    lemma_reads(ext, "xlsb"@);
    lemma_reads(ext, "ods"@);
    lemma_reads(ext, "csv"@);
    let w = extensions(FileType::Excel);
    assert(w[0] == "xls"@ && w[1] == "xlsx"@ && w[2] == "xlsm"@ && w[3] == "xlsb"@ && w[4]
        == "ods"@ && w[5] == "csv"@);
}

proof fn lemma_slide_extension(ext: Seq<char>)
    ensures
        slide_extension(ext) <==> extensions(FileType::Ppt).contains(lowered(ext)),
        slide_extension(ext) ==> lowered(ext)[0] == 'p' || lowered(ext)[0] == 'o',
        slide_extension(ext) ==> lowered(ext).len() >= 3,
        slide_extension(ext) && lowered(ext)[0] == 'o' ==> lowered(ext)[2] == 'p',
        slide_extension(ext) && lowered(ext)[0] == 'p' ==> lowered(ext)[1] != 'd',
{
    reveal_strlit("ppt");
    reveal_strlit("pps");
    reveal_strlit("pot");
    reveal_strlit("pptx");
    reveal_strlit("pptm");
    reveal_strlit("ppsx");
    reveal_strlit("ppsm");
    reveal_strlit("odp");
    lemma_reads(ext, "ppt"@);
    lemma_reads(ext, "pps"@);
    lemma_reads(ext, "pot"@);
    lemma_reads(ext, "pptx"@);
    lemma_reads(ext, "pptm"@);
    lemma_reads(ext, "ppsx"@);
    lemma_reads(ext, "ppsm"@);
    lemma_reads(ext, "odp"@);
    let w = extensions(FileType::Ppt);
    assert(w[0] == "ppt"@ && w[1] == "pps"@ && w[2] == "pot"@ && w[3] == "pptx"@ && w[4]
        == "pptm"@ && w[5] == "ppsx"@ && w[6] == "ppsm"@ && w[7] == "odp"@);
}

/// The extension tells the kind of a document, whatever its case.
pub proof fn law_kinds_go_by_extension(ext: Seq<char>)
    ensures
        type_of(Some(ext)) == Some(FileType::Word) <==> word_extension(ext),
        type_of(Some(ext)) == Some(FileType::Excel) <==> table_extension(ext),
        type_of(Some(ext)) == Some(FileType::Ppt) <==> slide_extension(ext),
        type_of(Some(ext)) == Some(FileType::Pdf) <==> reads(ext, "pdf"@),
        type_of(Some(ext)) == Some(FileType::Text) <==> reads(ext, "txt"@) || reads(ext, "md"@),
        type_of(Some(ext)) == Some(FileType::Epub) <==> reads(ext, "epub"@),
        type_of(None) is None,
{
    lemma_word_extension(ext);
    lemma_table_extension(ext);
    lemma_slide_extension(ext);
    reveal_strlit("pdf");
    reveal_strlit("txt");
    reveal_strlit("md");
    reveal_strlit("epub");
    lemma_reads(ext, "pdf"@);
    lemma_reads(ext, "txt"@);
    lemma_reads(ext, "md"@);
    lemma_reads(ext, "epub"@);
    assert("pdf"@[0] == 'p' && "pdf"@[1] == 'd' && "txt"@[0] == 't' && "md"@[0] == 'm' && "epub"@[0]
        == 'e');
    assert(extensions(FileType::Pdf)[0] == "pdf"@);
    assert(extensions(FileType::Text)[0] == "txt"@);
    assert(extensions(FileType::Text)[1] == "md"@);
    assert(extensions(FileType::Epub)[0] == "epub"@);
}

/// A scan takes the files that are documents, goes through directories, and leaves
/// out hidden directories, those of packages and those of the system.
pub proof fn law_what_a_scan_takes(name: Option<Seq<char>>, ext: Option<Seq<char>>)
    ensures
        scans_as(EntryKind::File, name, ext) == ScanAction::Take <==> type_of(ext) is Some,
        scans_as(EntryKind::File, name, ext) != ScanAction::Descend,
        scans_as(EntryKind::Other, name, ext) == ScanAction::Ignore,
        scans_as(EntryKind::Directory, name, ext) == ScanAction::Ignore <==> name is Some && ((
        name->0.len() > 0 && name->0[0] == '.') || name->0 == "node_modules"@ || name->0
            == "$RECYCLE.BIN"@ || name->0 == "System Volume Information"@),
        scans_as(EntryKind::Directory, name, ext) != ScanAction::Take,
{
}

/// Plain text is read as such whatever it holds. The content of any other document
/// tells its format before the extension does, and a file that is no document is
/// refused.
pub proof fn law_how_documents_are_read(
    ext: Option<Seq<char>>,
    path: Seq<char>,
    bytes: Seq<u8>,
    document: Result<ParsedView, ErrorView>,
)
    requires
        parses_as(ext, path, bytes, document),
    ensures
        ext is Some && (reads(ext->0, "txt"@) || reads(ext->0, "md"@)) ==> document
            == text_file(bytes),
        ext is None ==> document == Err::<ParsedView, ErrorView>(unsupported(path)),
        sniffed(bytes) is Some ==> format_of(ext, bytes) == sniffed(bytes),
{
    if ext is Some {
        law_kinds_go_by_extension(ext->0);
    }
}

} // verus!
