//! What holds of stored paths, of dialogs, of warnings as they are stored, and of
//! files that cannot be read.

use vstd::prelude::*;
use vstd::utf8::*;

use crate::cli::marked_up_to;
use crate::file_dialog::{directory_rows, entry_from, FileDialog, Purpose};
use crate::filebrowser::{shown_entries, Entry};
use crate::line_laws::{blank, law_trimmed};
use crate::locate::Span;
use crate::normalize::{after_changes, change_of, planned, ChangeView, RowView};
use crate::parse::{
    converted_document, explained, gb18030_text, text_document, text_file, ErrorView, Failure,
    ParseErrorCode, ParsedView,
};
use crate::repo::{hex_digit, json_char, json_chars};
use crate::text::{byte_len, slice};

verus! {

/// The changes are those of the documents, in their order.
pub open spec fn changes_among(
    rows: Seq<RowView>,
    plain: Seq<(Seq<char>, Seq<char>)>,
    i: int,
) -> Seq<ChangeView>
    decreases rows.len() - i,
{
    if i < 0 || i >= rows.len() {
        Seq::empty()
    } else {
        (if exists|j: int| 0 <= j < i && (#[trigger] plain[j]).0 == plain[i].0 {
            seq![ChangeView::DropDuplicate { id: rows[i].id }]
        } else if plain[i].0 == rows[i].path && plain[i].1 == rows[i].canonical_path {
            Seq::empty()
        } else {
            seq![
                ChangeView::Rewrite {
                    id: rows[i].id,
                    path: plain[i].0,
                    canonical_path: plain[i].1,
                },
            ]
        }) + changes_among(rows, plain, i + 1)
    }
}

proof fn lemma_changes(
    rows: Seq<RowView>,
    plain: Seq<(Seq<char>, Seq<char>)>,
    i: int,
)
    requires
        plain.len() == rows.len(),
        0 <= i <= rows.len(),
    ensures
        planned(rows, plain, rows.len() as int) == planned(rows, plain, i) + changes_among(
            rows,
            plain,
            i,
        ),
    decreases rows.len() - i,
{
    let before = planned(rows, plain, i);
    if i < rows.len() {
        lemma_changes(rows, plain, i + 1);
        let rest = changes_among(rows, plain, i + 1);
        match change_of(rows, plain, i) {
            Some(change) => {
                assert(before.push(change) + rest =~= before + (seq![change] + rest));
            },
            None => {
                assert(Seq::<ChangeView>::empty() + rest =~= rest);
            },
        }
    } else {
        assert(before + changes_among(rows, plain, i) =~= before);
    }
}

/// Each document whose path an earlier one has in plain form is dropped; each other one
/// of which either path is not in plain form is rewritten to both plain forms; and
/// nothing else is done.
pub proof fn law_what_is_done_to_stored_paths(
    rows: Seq<RowView>,
    plain: Seq<(Seq<char>, Seq<char>)>,
)
    requires
        plain.len() == rows.len(),
    ensures
        planned(rows, plain, rows.len() as int) == changes_among(rows, plain, 0),
{
    lemma_changes(rows, plain, 0);
    assert(planned(rows, plain, 0) + changes_among(rows, plain, 0) =~= changes_among(
        rows,
        plain,
        0,
    ));
}

/// A document that stays has both its paths in plain form afterwards.
pub proof fn law_kept_documents_have_plain_paths(
    rows: Seq<RowView>,
    plain: Seq<(Seq<char>, Seq<char>)>,
    n: int,
    i: int,
)
    requires
        plain.len() == rows.len(),
        0 <= i < n <= rows.len(),
        forall|j: int| 0 <= j < i ==> (#[trigger] plain[j]).0 != plain[i].0,
    ensures
        after_changes(rows, plain, n).contains(
            (RowView { id: rows[i].id, path: plain[i].0, canonical_path: plain[i].1 }),
        ),
    decreases n,
{
    let row = RowView { id: rows[i].id, path: plain[i].0, canonical_path: plain[i].1 };
    let before = after_changes(rows, plain, n - 1);
    let after = after_changes(rows, plain, n);
    if i < n - 1 {
        law_kept_documents_have_plain_paths(rows, plain, n - 1, i);
        let k = choose|k: int| 0 <= k < before.len() && before[k] == row;
        assert(after[k] == row);
    } else {
        assert(after[before.len() as int] == row);
    }
}

proof fn lemma_directory_rows(entries: Seq<Entry>, rows: Seq<int>)
    ensures
        directory_rows(entries, rows) == rows.filter(|i: int| entries[i].is_dir),
    decreases rows.len(),
{
    reveal(Seq::filter);
    if rows.len() > 0 {
        lemma_directory_rows(entries, rows.drop_last());
    } else {
        assert(directory_rows(entries, rows) =~= rows.filter(|i: int| entries[i].is_dir));
    }
}

/// A dialog lists the directory above, where there is one, and then what the filter lets
/// through; where a folder is picked, the directories alone.
pub proof fn law_dialogs_list_what_can_be_picked(dialog: FileDialog)
    ensures
        ({
            let shown = shown_entries(
                dialog.entries@,
                dialog.show_hidden,
                dialog.query@,
                dialog.filters@[dialog.filter_idx as int].exts@,
                dialog.entries@.len() as int,
            );
            let own = if dialog.purpose == Purpose::PickFolder {
                shown.filter(|i: int| dialog.entries@[i].is_dir)
            } else {
                shown
            };
            &&& dialog.parent is Some ==> dialog.rows() == seq![usize::MAX as int] + own
            &&& dialog.parent is None ==> dialog.rows() == own
        }),
{
    let shown = shown_entries(
        dialog.entries@,
        dialog.show_hidden,
        dialog.query@,
        dialog.filters@[dialog.filter_idx as int].exts@,
        dialog.entries@.len() as int,
    );
    lemma_directory_rows(dialog.entries@, shown);
    if dialog.parent is None {
        assert(Seq::<int>::empty() + shown =~= shown);
        let own = shown.filter(|i: int| dialog.entries@[i].is_dir);
        assert(Seq::<int>::empty() + own =~= own);
    }
}

proof fn lemma_entry_from(entries: Seq<Entry>, path: Seq<char>, i: int)
    requires
        0 <= i,
    ensures
        match entry_from(entries, path, i) {
            Some(k) => i <= k < entries.len() && entries[k].path@ == path && forall|m: int|
                i <= m < k ==> (#[trigger] entries[m]).path@ != path,
            None => forall|m: int| i <= m < entries.len() ==> (#[trigger] entries[m]).path@ != path,
        },
    decreases entries.len() - i,
{
    if i < entries.len() && entries[i].path@ != path {
        lemma_entry_from(entries, path, i + 1);
    }
}

/// What is selected is the entry with that path, or the directory above; a path that is
/// neither is no selection.
pub proof fn law_selections_are_listed(dialog: FileDialog)
    ensures
        dialog.selected is None ==> dialog.selection() is None,
        dialog.selection() is Some ==> dialog.selected is Some && (dialog.selection()->0).0
            == dialog.selected->0@,
        dialog.selection() is Some ==> (exists|i: int|
            0 <= i < dialog.entries@.len() && (#[trigger] dialog.entries@[i]).path@
                == dialog.selected->0@ && dialog.entries@[i].is_dir == (dialog.selection()->0).1) || (
        dialog.parent is Some && dialog.parent->0.path@ == dialog.selected->0@
            && dialog.parent->0.is_dir == (dialog.selection()->0).1),
        dialog.selected is Some && (exists|i: int|
            0 <= i < dialog.entries@.len() && (#[trigger] dialog.entries@[i]).path@
                == dialog.selected->0@) ==> dialog.selection() is Some,
{
    if dialog.selected is Some {
        lemma_entry_from(dialog.entries@, dialog.selected->0@, 0);
    }
}

/// The value of a hexadecimal digit.
pub open spec fn hex_value(c: char) -> int {
    if '0' <= c && c <= '9' {
        c as u32 - 48
    } else {
        c as u32 - 87
    }
}

/// What the inside of a JSON string stands for.
pub open spec fn json_meaning(t: Seq<char>) -> Seq<char>
    decreases t.len(),
{
    if t.len() == 0 {
        Seq::empty()
    } else if t[0] == '\\' && t.len() >= 6 && t[1] == 'u' {
        seq![
            (4096 * hex_value(t[2]) + 256 * hex_value(t[3]) + 16 * hex_value(t[4]) + hex_value(
                t[5],
            )) as char,
        ] + json_meaning(t.skip(6))
    } else if t[0] == '\\' && t.len() >= 2 {
        seq![t[1]] + json_meaning(t.skip(2))
    } else {
        seq![t[0]] + json_meaning(t.skip(1))
    }
}

proof fn lemma_json_front(s: Seq<char>)
    requires
        s.len() > 0,
    ensures
        json_chars(s) == json_char(s[0]) + json_chars(s.skip(1)),
    decreases s.len(),
{
    if s.len() == 1 {
        assert(s.drop_last() =~= Seq::empty());
        assert(s.skip(1) =~= Seq::empty());
        assert(json_chars(s) =~= json_char(s[0]) + json_chars(s.skip(1)));
    } else {
        let init = s.drop_last();
        lemma_json_front(init);
        assert(init.skip(1) =~= s.skip(1).drop_last());
        assert(s.skip(1).last() == s.last());
        assert(json_chars(s) =~= json_char(s[0]) + json_chars(s.skip(1)));
    }
}

/// A text in a JSON string stands for itself.
pub proof fn law_json_strings_are_read_back(s: Seq<char>)
    ensures
        json_meaning(json_chars(s)) == s,
    decreases s.len(),
{
    if s.len() == 0 {
        assert(json_meaning(json_chars(s)) =~= s);
    } else {
        let rest = s.skip(1);
        let c = s[0];
        lemma_json_front(s);
        law_json_strings_are_read_back(rest);
        let t = json_chars(s);
        let tail = json_chars(rest);
        if c == '"' || c == '\\' {
            assert(t[0] == '\\' && t[1] == c);
            assert(t.skip(2) =~= tail);
        } else if (c as u32) < 32 {
            let n = c as u32 as int;
            assert(t[0] == '\\' && t[1] == 'u' && t[2] == '0' && t[3] == '0');
            assert(t[4] == hex_digit(n / 16) && t[5] == hex_digit(n % 16));
            assert(hex_value(hex_digit(n / 16)) == n / 16);
            assert(hex_value(hex_digit(n % 16)) == n % 16);
            assert(t.skip(6) =~= tail);
            assert(4096 * hex_value(t[2]) + 256 * hex_value(t[3]) + 16 * hex_value(t[4])
                + hex_value(t[5]) == n);
            vstd::utf8::char_u32_cast(c, c as u32);
            assert((n as char) == c);
        } else {
            assert(t[0] == c);
            assert(t.skip(1) =~= tail);
        }
        assert(seq![c] + rest =~= s);
    }
}

/// A file that is not valid UTF-8 is read as GB18030, and that is noted.
pub proof fn law_other_files_are_read_as_gb18030(bytes: Seq<u8>)
    requires
        !valid_utf8(bytes),
        !(bytes.len() >= 3 && bytes[0] == 0xef && bytes[1] == 0xbb && bytes[2] == 0xbf),
    ensures
        text_file(bytes) == text_document(gb18030_text(bytes), seq!["按 GB18030 解码"@]),
{
}

/// The failure of a conversion is stored under its own code, and a document without text
/// under that of empty ones.
pub proof fn law_failures_have_their_codes(failure: Failure)
    ensures
        explained(failure).code == match failure {
            Failure::Unsupported(_) => ParseErrorCode::Unsupported,
            Failure::Encrypted(_) => ParseErrorCode::Encrypted,
            Failure::Malformed { .. } => ParseErrorCode::Malformed,
            Failure::MissingPart(_) => ParseErrorCode::Malformed,
            Failure::ResourceLimit { .. } => ParseErrorCode::ResourceLimit,
            Failure::NeedsOcr { .. } => ParseErrorCode::NeedsOcr,
            Failure::Io(_) => ParseErrorCode::Io,
            Failure::Other(_) => ParseErrorCode::Malformed,
        },
        converted_document(Err(failure)) == Err::<ParsedView, ErrorView>(explained(failure)),
{
}

/// A document that was converted is kept as it is, unless it has nothing but white
/// space.
pub proof fn law_converted_documents_are_kept(markdown: String)
    ensures
        (exists|i: int| 0 <= i < markdown@.len() && !blank(#[trigger] markdown@[i]))
            ==> (converted_document(Ok(markdown)) matches Ok(parsed) && parsed.markdown == markdown@
            && parsed.warnings.len() == 0),
        (forall|i: int| 0 <= i < markdown@.len() ==> blank(#[trigger] markdown@[i]))
            ==> (converted_document(Ok(markdown)) matches Err(e) && e.code == ParseErrorCode::Empty),
{
    let (i, j) = law_trimmed(markdown@);
    if i < j {
        assert(!blank(markdown@[i]));
    } else {
        assert forall|k: int| 0 <= k < markdown@.len() implies blank(#[trigger] markdown@[k]) by {}
    }
}

/// The marks of a fragment stand right before and right behind what is highlighted.
pub proof fn law_marks_stand_around_spans(content: Seq<char>, spans: Seq<Span>, span: Span)
    ensures
        ({
            let m = marked_up_to(content, spans);
            let n = marked_up_to(content, spans.push(span));
            if m.position <= span.start && span.end <= byte_len(content) {
                &&& n.text == m.text + slice(content, m.position, span.start as int) + seq!['【']
                    + slice(content, span.start as int, span.end as int) + seq!['】']
                &&& n.position == span.end
            } else {
                n == m
            }
        }),
{
    reveal_strlit("【");
    reveal_strlit("】");
    assert("【"@ =~= seq!['【']);
    assert("】"@ =~= seq!['】']);
    assert(spans.push(span).drop_last() =~= spans);
}

/// A text that is taken in keeps the warnings of its reading, and tells what read it.
pub proof fn law_texts_tell_what_read_them(text: Seq<char>, warnings: Seq<Seq<char>>)
    ensures
        text_document(text, warnings) is Ok ==> {
            &&& text_document(text, warnings)->Ok_0.warnings == warnings
            &&& text_document(text, warnings)->Ok_0.parser_name == seq!['t', 'e', 'x', 't']
            &&& text_document(text, warnings)->Ok_0.parser_version == seq![
                't',
                'e',
                'x',
                't',
                '.',
                'v',
                '1',
            ]
        },
        text_document(text, warnings) is Err ==> text_document(text, warnings)->Err_0.code
            == ParseErrorCode::Empty,
{
    reveal_strlit("text");
    reveal_strlit("text.v1");
    assert("text"@ =~= seq!['t', 'e', 'x', 't']);
    assert("text.v1"@ =~= seq!['t', 'e', 'x', 't', '.', 'v', '1']);
}

} // verus!
