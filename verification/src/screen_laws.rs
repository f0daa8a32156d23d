//! What the lists and the preview of the window show, and how settings are read.

use vstd::prelude::*;

use crate::filebrowser::unicode_lower;
use crate::library::{days_ago, last_failures, open_folders, passes, passing};
use crate::locate::Span;
use crate::maintain::{complaints, IntegrityReport};
use crate::number_laws::law_numbers_are_read_back;
use crate::paths::option_text;
use crate::entry_laws::lemma_line_stops;
use crate::line_laws::{only_feeds, written};
use crate::preview::{
    document_from, law_window_has_its_anchor, law_window_keeps_near_its_anchor, pieces_of,
    segments_of, window_range, Segment,
};
use crate::repo::{clock_millis, file_megabytes, grouped, DocumentRow, FolderGroup};
use crate::screen::{line_reaching, lines_from, member_from, others, outside, shown_of};
use crate::search::DocumentHit;
use crate::text::{
    byte_len, contains, decimal, lemma_offset_subrange, number, occurs_at, offset, trimmed,
};

verus! {

/// A byte of the text is in a piece that is highlighted.
pub open spec fn marked_at(segments: Seq<Segment>, b: int) -> bool {
    exists|i: int|
        0 <= i < segments.len() && (#[trigger] segments[i]).marked && segments[i].start <= b
            < segments[i].end
}

/// A byte of the document is in one of the spans.
pub open spec fn spanned(spans: Seq<Span>, b: int) -> bool {
    exists|i: int| 0 <= i < spans.len() && (#[trigger] spans[i]).start <= b < spans[i].end
}

proof fn lemma_marked_with(segments: Seq<Segment>, next: Segment, b: int)
    ensures
        marked_at(segments.push(next), b) <==> marked_at(segments, b) || (next.marked && next.start
            <= b < next.end),
{
    let all = segments.push(next);
    if marked_at(segments, b) {
        let i = choose|i: int|
            0 <= i < segments.len() && (#[trigger] segments[i]).marked && segments[i].start <= b
                < segments[i].end;
        assert(all[i] == segments[i]);
    }
    if marked_at(all, b) {
        let i = choose|i: int|
            0 <= i < all.len() && (#[trigger] all[i]).marked && all[i].start <= b < all[i].end;
        if i < segments.len() {
            assert(segments[i] == all[i]);
        }
    }
    if next.marked && next.start <= b < next.end {
        assert(all[segments.len() as int] == next);
    }
}

proof fn lemma_marked(base: int, total: int, spans: Seq<Span>, b: int)
    requires
        0 <= base,
        0 <= b < total,
        base + total <= usize::MAX,
    ensures
        marked_at(pieces_of(base, total, spans).segments, b) <==> spanned(spans, base + b),
        0 <= pieces_of(base, total, spans).reach <= total,
    decreases spans.len(),
{
    if spans.len() > 0 {
        let init = spans.drop_last();
        let span = spans.last();
        lemma_marked(base, total, init, b);
        let before = pieces_of(base, total, init);
        if spanned(init, base + b) {
            let i = choose|i: int|
                0 <= i < init.len() && (#[trigger] init[i]).start <= base + b < init[i].end;
            assert(spans[i] == init[i]);
        }
        if spanned(spans, base + b) {
            let i = choose|i: int|
                0 <= i < spans.len() && (#[trigger] spans[i]).start <= base + b < spans[i].end;
            if i < init.len() {
                assert(init[i] == spans[i]);
            }
        }
        assert(spans[spans.len() - 1] == span);
        if !(span.end <= base || span.start >= base + total) {
            let start = if span.start > base {
                span.start - base
            } else {
                0
            };
            let end = if span.end < base + total {
                span.end - base
            } else {
                total
            };
            let gap = Segment { start: before.reach as usize, end: start as usize, marked: false };
            let piece = Segment { start: start as usize, end: end as usize, marked: true };
            let plain = if start > before.reach {
                before.segments.push(gap)
            } else {
                before.segments
            };
            lemma_marked_with(before.segments, gap, b);
            lemma_marked_with(plain, piece, b);
        }
    }
}

/// A byte of the text that is shown is highlighted exactly when one of the spans of the
/// document has it.
pub proof fn law_spans_are_highlighted(base: int, total: int, spans: Seq<Span>, b: int)
    requires
        0 <= base,
        0 <= b < total,
        base + total <= usize::MAX,
    ensures
        marked_at(segments_of(base, total, spans), b) <==> spanned(spans, base + b),
{
    lemma_marked(base, total, spans, b);
    let pieces = pieces_of(base, total, spans);
    lemma_marked_with(
        pieces.segments,
        Segment { start: pieces.reach as usize, end: total as usize, marked: false },
        b,
    );
}

/// Everything that the database says but `ok` is a complaint, in its order.
pub proof fn law_complaints(messages: Seq<Seq<char>>)
    ensures
        complaints(messages) == messages.filter(|m: Seq<char>| m != seq!['o', 'k']),
    decreases messages.len(),
{
    reveal(Seq::filter);
    reveal_strlit("ok");
    assert("ok"@ =~= seq!['o', 'k']);
    if messages.len() > 0 {
        law_complaints(messages.drop_last());
    } else {
        assert(complaints(messages) =~= messages.filter(|m: Seq<char>| m != seq!['o', 'k']));
    }
}

/// A limit on the size of files that was set from 1 to 2048 megabytes is used; without
/// one, or with any other, it is 100.
pub proof fn law_size_limits(value: &str, n: nat)
    requires
        n <= u64::MAX,
        trimmed(value@) == decimal(n),
    ensures
        1 <= n <= 2048 ==> file_megabytes(Some(value)) == n,
        !(1 <= n <= 2048) ==> file_megabytes(Some(value)) == 100,
        file_megabytes(None) == 100,
{
    law_numbers_are_read_back(n);
}

/// What is no number is no limit on the size of files.
pub proof fn law_other_size_limits(value: &str)
    requires
        number(trimmed(value@)) is None,
    ensures
        file_megabytes(Some(value)) == 100,
{
}

/// Milliseconds are kept as they are, as far as the clock is not before 1970 and they
/// can be stored.
pub proof fn law_clocks_are_read(n: u128)
    requires
        n <= i64::MAX,
    ensures
        clock_millis(Some(n)) == n,
        clock_millis(None) == 0,
{
}

/// A filter by days reaches back as many full days.
pub proof fn law_days_reach_back(now_ms: i64, days: u64)
    requires
        0 <= now_ms,
        days <= 100_000_000,
    ensures
        days_ago(now_ms, days) == now_ms - 86_400_000 * days,
{
}

/// The root that a document was added with.
pub open spec fn with_root(
    folders: Seq<(Seq<char>, Seq<DocumentRow>)>,
    root: Seq<char>,
    document: DocumentRow,
) -> bool {
    exists|g: int|
        0 <= g < folders.len() && (#[trigger] folders[g]).0 == root && folders[g].1.contains(
            document,
        )
}

/// Every document is listed under the folder that it was added with.
pub proof fn law_documents_stand_under_their_folder(
    rows: Seq<(String, DocumentRow)>,
    i: int,
)
    requires
        0 <= i < rows.len(),
    ensures
        with_root(grouped(rows), rows[i].0@, rows[i].1),
    decreases rows.len(),
{
    let init = rows.drop_last();
    let before = grouped(init);
    let after = grouped(rows);
    let (root, document) = rows.last();
    if i < init.len() {
        law_documents_stand_under_their_folder(init, i);
        assert(init[i] == rows[i]);
        let g = choose|g: int|
            0 <= g < before.len() && (#[trigger] before[g]).0 == rows[i].0@
                && before[g].1.contains(rows[i].1);
        if g < after.len() - 1 || after.len() > before.len() {
            assert(after[g] == before[g]);
        } else {
            let list = before[g].1;
            let k = choose|k: int| 0 <= k < list.len() && list[k] == rows[i].1;
            assert(after[g].1[k] == rows[i].1);
        }
    } else {
        let last = after.len() - 1;
        let list = after[last].1;
        assert(list[list.len() - 1] == document);
        assert(after[last].0 == root@);
    }
}

/// A folder lists the documents that were added with it, and no others.
pub proof fn law_folders_list_their_own(
    rows: Seq<(String, DocumentRow)>,
    g: int,
    k: int,
)
    requires
        0 <= g < grouped(rows).len(),
        0 <= k < grouped(rows)[g].1.len(),
    ensures
        exists|i: int|
            0 <= i < rows.len() && (#[trigger] rows[i]).0@ == grouped(rows)[g].0 && rows[i].1
                == grouped(rows)[g].1[k],
    decreases rows.len(),
{
    if rows.len() > 0 {
        let init = rows.drop_last();
        let before = grouped(init);
        let after = grouped(rows);
        let n = rows.len() - 1;
        let last = after.len() - 1;
        if g == last && k == after[last].1.len() - 1 {
            assert(rows[n] == rows.last());
            assert(rows[n].0@ == after[g].0 && rows[n].1 == after[g].1[k]);
        } else {
            assert(g < before.len());
            assert(before[g].0 == after[g].0 && k < before[g].1.len() && before[g].1[k]
                == after[g].1[k]);
            law_folders_list_their_own(init, g, k);
            let i = choose|i: int|
                0 <= i < init.len() && (#[trigger] init[i]).0@ == before[g].0 && init[i].1
                    == before[g].1[k];
            assert(rows[i] == init[i]);
        }
    }
}

/// A file passes a filter that is empty or that its name has in it, in lower case.
pub proof fn law_names_pass(file_name: Seq<char>, filter: Seq<char>)
    ensures
        filter.len() == 0 ==> passes(file_name, filter),
        filter.len() > 0 ==> (passes(file_name, filter) <==> exists|k: int|
            0 <= k && k + filter.len() <= unicode_lower(file_name).len() && #[trigger] unicode_lower(
                file_name,
            ).subrange(k, k + filter.len()) == filter),
{
    let name = unicode_lower(file_name);
    if passes(file_name, filter) && filter.len() > 0 {
        let k = choose|k: int| occurs_at(name, filter, k);
        assert(name.subrange(k, k + filter.len()) == filter);
    }
    if exists|k: int|
        0 <= k && k + filter.len() <= name.len() && #[trigger] name.subrange(k, k + filter.len())
            == filter {
        let k = choose|k: int|
            0 <= k && k + filter.len() <= name.len() && #[trigger] name.subrange(
                k,
                k + filter.len(),
            ) == filter;
        assert(occurs_at(name, filter, k));
    }
}

/// The number of documents that pass is the number of those that do.
pub proof fn law_passing_documents_are_counted(documents: Seq<DocumentRow>, filter: Seq<char>)
    ensures
        passing(documents, filter) == documents.filter(
            |d: DocumentRow| passes(d.file_name@, filter),
        ).len(),
    decreases documents.len(),
{
    reveal(Seq::filter);
    if documents.len() > 0 {
        law_passing_documents_are_counted(documents.drop_last(), filter);
    }
}

proof fn lemma_open_below(groups: Seq<FolderGroup>, filter: Seq<char>, n: int)
    requires
        0 <= n <= groups.len(),
    ensures
        forall|k: int|
            0 <= k < open_folders(groups, filter, n).len() ==> 0 <= #[trigger] open_folders(
                groups,
                filter,
                n,
            )[k] < n,
        forall|j: int, k: int|
            0 <= j < k < open_folders(groups, filter, n).len() ==> #[trigger] open_folders(
                groups,
                filter,
                n,
            )[j] < #[trigger] open_folders(groups, filter, n)[k],
    decreases n,
{
    if n > 0 {
        lemma_open_below(groups, filter, n - 1);
        let before = open_folders(groups, filter, n - 1);
        let after = open_folders(groups, filter, n);
        assert forall|j: int, k: int| 0 <= j < k < after.len() implies #[trigger] after[j]
            < #[trigger] after[k] by {
            assert(after[j] == before[j]);
            if k < before.len() {
                assert(after[k] == before[k]);
            }
        }
    }
}

/// A folder is shown exactly when there is no filter or one of its documents passes.
pub proof fn law_folders_with_matches_are_shown(
    groups: Seq<FolderGroup>,
    filter: Seq<char>,
    n: int,
    i: int,
)
    requires
        0 <= i < n <= groups.len(),
    ensures
        open_folders(groups, filter, n).contains(i) <==> filter.len() == 0 || exists|k: int|
            0 <= k < groups[i].documents@.len() && passes(
                (#[trigger] groups[i].documents@[k]).file_name@,
                filter,
            ),
    decreases n,
{
    let before = open_folders(groups, filter, n - 1);
    let after = open_folders(groups, filter, n);
    lemma_open_below(groups, filter, n - 1);
    if i < n - 1 {
        law_folders_with_matches_are_shown(groups, filter, n - 1, i);
        if before.contains(i) {
            let k = choose|k: int| 0 <= k < before.len() && before[k] == i;
            assert(after[k] == i);
        }
        if after.contains(i) {
            let k = choose|k: int| 0 <= k < after.len() && after[k] == i;
            assert(before[k] == i);
        }
    } else {
        lemma_passing(groups[i].documents@, filter);
        if filter.len() == 0 || passing(groups[i].documents@, filter) > 0 {
            assert(after[before.len() as int] == i);
        } else if after.contains(i) {
            let k = choose|k: int| 0 <= k < before.len() && before[k] == i;
            assert(before[k] < n - 1);
        }
    }
}

proof fn lemma_passing(documents: Seq<DocumentRow>, filter: Seq<char>)
    ensures
        passing(documents, filter) > 0 <==> exists|k: int|
            0 <= k < documents.len() && passes((#[trigger] documents[k]).file_name@, filter),
    decreases documents.len(),
{
    if documents.len() > 0 {
        let init = documents.drop_last();
        lemma_passing(init, filter);
        if passing(init, filter) > 0 {
            let k = choose|k: int|
                0 <= k < init.len() && passes((#[trigger] init[k]).file_name@, filter);
            assert(documents[k] == init[k]);
        }
        if exists|k: int|
            0 <= k < documents.len() && passes((#[trigger] documents[k]).file_name@, filter) {
            let k = choose|k: int|
                0 <= k < documents.len() && passes((#[trigger] documents[k]).file_name@, filter);
            if k < init.len() {
                assert(init[k] == documents[k]);
            }
        }
        assert(documents[documents.len() - 1] == documents.last());
    }
}

/// Of the failures of an import the last twenty are kept, in their order.
pub proof fn law_last_failures_are_kept(v: Seq<(Seq<char>, Seq<char>)>)
    ensures
        v.len() <= 20 ==> last_failures(v) == v,
        v.len() > 20 ==> last_failures(v).len() == 20 && forall|i: int|
            0 <= i < 20 ==> #[trigger] last_failures(v)[i] == v[v.len() - 20 + i],
{
}

/// A folder that is removed takes the documents with it that were added with it, and
/// no others; a document that is removed leaves all others as they are.
pub proof fn law_removing_leaves_the_others(
    documents: Seq<DocumentRow>,
    root: Seq<char>,
    id: i64,
)
    ensures
        outside(documents, root) == documents.filter(
            |d: DocumentRow| !(d.source_root is Some && d.source_root->0@ == root),
        ),
        others(documents, id) == documents.filter(|d: DocumentRow| d.id != id),
    decreases documents.len(),
{
    reveal(Seq::filter);
    if documents.len() > 0 {
        law_removing_leaves_the_others(documents.drop_last(), root, id);
        assert((option_text(documents.last().source_root) == Some(root)) <==> (
        documents.last().source_root is Some && documents.last().source_root->0@ == root));
    } else {
        assert(outside(documents, root) =~= documents.filter(
            |d: DocumentRow| !(d.source_root is Some && d.source_root->0@ == root),
        ));
        assert(others(documents, id) =~= documents.filter(|d: DocumentRow| d.id != id));
    }
}

/// A document is found by its id: the first one that has it.
pub proof fn law_documents_are_found_by_id(documents: Seq<DocumentHit>, id: i64, i: int)
    requires
        0 <= i,
    ensures
        match document_from(documents, id, i) {
            Some(k) => i <= k < documents.len() && documents[k].document.id == id && forall|m: int|
                i <= m < k ==> (#[trigger] documents[m]).document.id != id,
            None => forall|m: int|
                i <= m < documents.len() ==> (#[trigger] documents[m]).document.id != id,
        },
    decreases documents.len() - i,
{
    if i < documents.len() && documents[i].document.id != id {
        law_documents_are_found_by_id(documents, id, i + 1);
    }
}

proof fn lemma_member(documents: Seq<DocumentHit>, group: i64, id: i64, i: int)
    requires
        0 <= i,
    ensures
        match member_from(documents, group, id, i) {
            Some(k) => i <= k < documents.len() && documents[k].document.id == id
                && documents[k].group_id == group,
            None => forall|m: int|
                i <= m < documents.len() ==> !((#[trigger] documents[m]).document.id == id
                    && documents[m].group_id == group),
        },
    decreases documents.len() - i,
{
    if i < documents.len() && !(documents[i].group_id == group && documents[i].document.id == id) {
        lemma_member(documents, group, id, i + 1);
    }
}

/// Of a group the document is shown that was picked, as long as it is in the group;
/// otherwise the one that stands for the group.
pub proof fn law_picked_documents_are_shown(
    documents: Seq<DocumentHit>,
    locations: Seq<(i64, i64)>,
    representative: int,
    k: int,
)
    requires
        0 <= representative < documents.len(),
        0 <= k < documents.len(),
        documents[k].group_id == documents[representative].group_id,
        crate::preview::choice(locations, documents[k].group_id) == Some(documents[k].document.id),
    ensures
        ({
            let shown = shown_of(documents, locations, representative);
            &&& 0 <= shown < documents.len()
            &&& documents[shown].document.id == documents[k].document.id
            &&& documents[shown].group_id == documents[k].group_id
        }),
{
    lemma_member(documents, documents[k].group_id, documents[k].document.id, 0);
}

/// Where nothing was picked of a group, the document that stands for it is shown.
pub proof fn law_representatives_are_shown(
    documents: Seq<DocumentHit>,
    locations: Seq<(i64, i64)>,
    representative: int,
)
    requires
        0 <= representative < documents.len(),
        forall|i: int|
            0 <= i < locations.len() ==> (#[trigger] locations[i]).0
                != documents[representative].group_id,
    ensures
        shown_of(documents, locations, representative) == representative,
{
    lemma_no_choice(locations, documents[representative].group_id);
}

proof fn lemma_no_choice(locations: Seq<(i64, i64)>, group: i64)
    requires
        forall|i: int| 0 <= i < locations.len() ==> (#[trigger] locations[i]).0 != group,
    ensures
        crate::preview::choice(locations, group) is None,
    decreases locations.len(),
{
    if locations.len() > 0 {
        let rest = locations.drop_first();
        assert(locations[0].0 != group);
        assert forall|i: int| 0 <= i < rest.len() implies (#[trigger] rest[i]).0 != group by {
            assert(rest[i] == locations[i + 1]);
        }
        lemma_no_choice(rest, group);
    }
}

/// The line that is shown is the first one that ends at an offset or behind it.
pub proof fn law_lines_reach_the_offset(lines: Seq<(int, int)>, target: int, i: int)
    requires
        0 <= i,
    ensures
        match line_reaching(lines, target, i) {
            Some(k) => i <= k < lines.len() && lines[k].1 >= target && forall|m: int|
                i <= m < k ==> (#[trigger] lines[m]).1 < target,
            None => forall|m: int| i <= m < lines.len() ==> (#[trigger] lines[m]).1 < target,
        },
    decreases lines.len() - i,
{
    if i < lines.len() && lines[i].1 < target {
        law_lines_reach_the_offset(lines, target, i + 1);
    }
}

/// The ranges of the lines from the `k`-th on, of which the first starts at an offset.
pub open spec fn ranges_of(lines: Seq<Seq<char>>, k: int, start: int) -> Seq<(int, int)>
    decreases lines.len() - k,
{
    if k < 0 || k >= lines.len() {
        Seq::empty()
    } else {
        let end = start + byte_len(lines[k]);
        seq![(start, end)] + ranges_of(lines, k + 1, end + 1)
    }
}

proof fn lemma_ranges(s: Seq<char>, i: int, lines: Seq<Seq<char>>, k: int)
    requires
        forall|m: int| 0 <= m < lines.len() ==> !(#[trigger] lines[m]).contains('\n'),
        0 <= k < lines.len(),
        0 <= i <= s.len(),
        s.skip(i) == written(lines, only_feeds(lines), k),
    ensures
        lines_from(s, i) == ranges_of(lines, k, offset(s, i)),
    decreases lines.len() - k,
{
    let line = lines[k];
    let feeds = only_feeds(lines);
    let rest = s.skip(i);
    let j = i + line.len();
    if k < lines.len() - 1 {
        assert(feeds[k] == seq!['\n']);
        assert(rest == line + seq!['\n'] + written(lines, feeds, k + 1));
    }
    assert(line.len() <= rest.len());
    assert forall|m: int| i <= m < j implies #[trigger] s[m] != '\n' by {
        assert(s[m] == rest[m - i]);
        assert(rest[m - i] == line[m - i]);
        assert(line.contains(line[m - i]));
    }
    assert(s.subrange(i, j) =~= line) by {
        assert(s.subrange(i, j) =~= rest.subrange(0, line.len() as int));
    }
    lemma_offset_subrange(s, i, j, j - i);
    assert(offset(s, j) == offset(s, i) + byte_len(line));
    if k == lines.len() - 1 {
        assert(j == s.len());
        lemma_line_stops(s, i, j);
        assert(lines_from(s, j + 1) =~= Seq::empty());
        assert(ranges_of(lines, k + 1, offset(s, j) + 1) =~= Seq::empty());
    } else {
        assert(s[j] == '\n') by {
            assert(rest[line.len() as int] == '\n');
        }
        lemma_line_stops(s, i, j);
        assert(s.skip(j + 1) =~= written(lines, feeds, k + 1)) by {
            assert(s.skip(j + 1) =~= rest.skip(1int + line.len()));
        }
        lemma_ranges(s, j + 1, lines, k + 1);
        assert(offset(s, j + 1) == offset(s, j) + 1);
    }
}

/// The lines of a preview are the lines of the text, with one byte between two of them
/// for the line feed.
pub proof fn law_preview_lines_are_the_lines(lines: Seq<Seq<char>>)
    requires
        lines.len() > 0,
        forall|m: int| 0 <= m < lines.len() ==> !(#[trigger] lines[m]).contains('\n'),
    ensures
        lines_from(written(lines, only_feeds(lines), 0), 0) == ranges_of(lines, 0, 0),
{
    let s = written(lines, only_feeds(lines), 0);
    assert(s.skip(0) =~= s);
    lemma_ranges(s, 0, lines, 0);
}

/// A text of two megabytes at most is shown whole.
pub proof fn law_short_texts_are_shown_whole(s: Seq<char>, anchor: int)
    requires
        byte_len(s) <= 2 * 1024 * 1024,
    ensures
        window_range(s, anchor) == (0int, byte_len(s)),
{
}

/// A longer text is shown around an offset, a hundred kilobytes on either side.
pub proof fn law_long_texts_are_shown_in_part(s: Seq<char>, anchor: int)
    requires
        byte_len(s) > 2 * 1024 * 1024,
        0 <= anchor <= byte_len(s),
    ensures
        ({
            let (start, end) = window_range(s, anchor);
            &&& start <= anchor <= end
            &&& end - start <= 2 * 100 * 1024 + 6
            &&& anchor - start >= 100 * 1024 || start == 0
            &&& end - anchor >= 100 * 1024 || end == byte_len(s)
        }),
{
    law_window_has_its_anchor(s, anchor);
    law_window_keeps_near_its_anchor(s, anchor);
}

/// The index is in order exactly when neither the database nor the full-text table
/// complains, every document has its row and every row its document.
pub proof fn law_what_is_in_order(report: IntegrityReport)
    ensures
        report.consistent() <==> {
            &&& report.sqlite_ok
            &&& report.fts_ok
            &&& report.missing_in_fts == 0
            &&& report.orphan_in_fts == 0
        },
{
}

} // verus!
