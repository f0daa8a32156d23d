//! What the pages show: the lines of a preview, the document that stands for a
//! group, and what comes of the buttons.

use vstd::prelude::*;
use vstd::string::StringExecFns;

use crate::import::ImportOptions;
use crate::library::Page;
use crate::locate::{locate_literals, span_views, spans_in};
use crate::paths::option_text;
use crate::preview::{choice, hit_offset, hit_place, Preview, PreviewSpanCache};
use crate::repo::DocumentRow;
use crate::search::{DocumentHit, SearchResponse};
use crate::text::{
    byte_len, char_width, chars_of, decimal, decimal_of, lemma_line_end, lemma_offset_monotonic, len_of, line_end,
    offset, same, texts,
};

verus! {

/// Byte ranges of the lines from the character `i` on, which starts a line. The
/// line feeds between them belong to none.
pub open spec fn lines_from(s: Seq<char>, i: int) -> Seq<(int, int)>
    decreases s.len() + 1 - i, via lines_from_decreases
{
    if i < 0 || i > s.len() {
        Seq::empty()
    } else {
        let end = line_end(s, i);
        seq![(offset(s, i), offset(s, end))] + lines_from(s, end + 1)
    }
}

#[via_fn]
proof fn lines_from_decreases(s: Seq<char>, i: int) {
    if 0 <= i <= s.len() {
        lemma_line_end(s, i);
    }
}

/// Byte ranges without the representation.
pub open spec fn range_views(ranges: Seq<(usize, usize)>) -> Seq<(int, int)> {
    ranges.map_values(|r: (usize, usize)| (r.0 as int, r.1 as int))
}

/// The byte ranges of the lines of a text.
pub fn preview_lines(text: &str) -> (lines: Vec<(usize, usize)>)
    ensures
        range_views(lines@) == lines_from(text@, 0),
{
    let ghost s = text@;
    let chars = chars_of(text);
    let total = len_of(text);
    let mut lines: Vec<(usize, usize)> = Vec::new();
    let mut start: usize = 0;
    let mut at: usize = 0;
    let mut i: usize = 0;
    let ghost mut first: int = 0;
    proof {
        lemma_offset_monotonic(s, 0, s.len() as int);
        assert(range_views(lines@) =~= Seq::empty());
        assert(range_views(lines@) + lines_from(s, 0) =~= lines_from(s, 0));
    }
    while i < chars.len()
        invariant
            s == text@,
            chars@ == s,
            total == byte_len(s),
            i <= s.len(),
            0 <= first <= i,
            start == offset(s, first),
            at == offset(s, i as int),
            at <= total,
            line_end(s, first) == line_end(s, i as int),
            range_views(lines@) + lines_from(s, first) == lines_from(s, 0),
        decreases s.len() - i,
    {
        proof {
            lemma_offset_monotonic(s, i + 1, s.len() as int);
        }
        let width = char_width(chars[i]);
        if chars[i] == '\n' {
            let ghost before = range_views(lines@);
            lines.push((start, at));
            proof {
                assert(range_views(lines@) =~= before.push((start as int, at as int)));
                assert(lines_from(s, first) =~= seq![(start as int, at as int)] + lines_from(
                    s,
                    i + 1,
                ));
                assert(range_views(lines@) + lines_from(s, i + 1) =~= before + lines_from(
                    s,
                    first,
                ));
                first = i + 1;
            }
            start = at + width;
        }
        at = at + width;
        i += 1;
    }
    let ghost before = range_views(lines@);
    lines.push((start, at));
    proof {
        assert(range_views(lines@) =~= before.push((start as int, at as int)));
        assert(line_end(s, s.len() as int) == s.len());
        assert(lines_from(s, (s.len() + 1) as int) =~= Seq::empty());
        assert(lines_from(s, first) =~= seq![(start as int, at as int)]);
        assert(range_views(lines@) =~= before + lines_from(s, first));
    }
    lines
}

/// The first line from the `i`-th on that reaches an offset.
pub open spec fn line_reaching(lines: Seq<(int, int)>, target: int, i: int) -> Option<int>
    decreases lines.len() - i,
{
    if i < 0 || i >= lines.len() {
        None
    } else if lines[i].1 >= target {
        Some(i)
    } else {
        line_reaching(lines, target, i + 1)
    }
}

/// The line that has to be scrolled to for an offset to be seen; `None` where
/// the offset lies behind the text.
pub fn line_to_show(lines: &Vec<(usize, usize)>, target: usize) -> (r: Option<usize>)
    ensures
        (match r {
            Some(i) => Some(i as int),
            None => None,
        }) == line_reaching(range_views(lines@), target as int, 0),
{
    let ghost all = range_views(lines@);
    let mut i: usize = 0;
    while i < lines.len()
        invariant
            i <= lines@.len(),
            all == range_views(lines@),
            line_reaching(all, target as int, i as int) == line_reaching(all, target as int, 0),
        decreases lines@.len() - i,
    {
        assert(all[i as int] == (lines@[i as int].0 as int, lines@[i as int].1 as int));
        if lines[i].1 >= target {
            return Some(i);
        }
        i += 1;
    }
    None
}

/// Lines that follow each other with one byte between them, from `start` to
/// `end`.
pub open spec fn lines_follow(lines: Seq<(int, int)>, start: int, end: int) -> bool {
    &&& lines.len() > 0
    &&& lines[0].0 == start
    &&& lines.last().1 == end
    &&& forall|i: int| 0 <= i < lines.len() ==> (#[trigger] lines[i]).0 <= lines[i].1
    &&& forall|i: int|
        0 <= i < lines.len() - 1 ==> (#[trigger] lines[i]).1 + 1 == lines[i + 1].0
}

proof fn lemma_lines_follow(s: Seq<char>, i: int)
    requires
        0 <= i <= s.len(),
    ensures
        lines_follow(lines_from(s, i), offset(s, i), byte_len(s)),
    decreases s.len() + 1 - i,
{
    lemma_line_end(s, i);
    let end = line_end(s, i);
    lemma_offset_monotonic(s, i, end);
    let all = lines_from(s, i);
    let head = (offset(s, i), offset(s, end));
    if end < s.len() {
        lemma_line_feed(s, i);
        lemma_lines_follow(s, end + 1);
        let rest = lines_from(s, end + 1);
        assert(all =~= seq![head] + rest);
        assert(offset(s, end + 1) == offset(s, end) + 1);
        assert(all.last() == rest.last());
        assert forall|k: int| 0 <= k < all.len() implies (#[trigger] all[k]).0 <= all[k].1 by {
            if k > 0 {
                assert(all[k] == rest[k - 1]);
            }
        }
        assert forall|k: int| 0 <= k < all.len() - 1 implies (#[trigger] all[k]).1 + 1 == all[k
            + 1].0 by {
            assert(all[k + 1] == rest[k]);
            if k > 0 {
                assert(all[k] == rest[k - 1]);
            }
        }
    } else {
        assert(lines_from(s, end + 1) =~= Seq::empty());
        assert(all =~= seq![head]);
    }
}

proof fn lemma_line_feed(s: Seq<char>, i: int)
    requires
        0 <= i <= s.len(),
        line_end(s, i) < s.len(),
    ensures
        s[line_end(s, i)] == '\n',
    decreases s.len() - i,
{
    if s[i] != '\n' {
        lemma_line_feed(s, i + 1);
    }
}

/// The lines of a text lie one behind the other, with a line feed between
/// neighbours, and make up all of it.
pub proof fn law_lines_make_up_the_text(s: Seq<char>)
    ensures
        lines_follow(lines_from(s, 0), 0, byte_len(s)),
{
    lemma_lines_follow(s, 0);
}

/// An offset of a text lies on the line that is scrolled to for it.
pub proof fn law_target_is_on_its_line(s: Seq<char>, target: int)
    requires
        0 <= target <= byte_len(s),
    ensures
        line_reaching(lines_from(s, 0), target, 0) is Some,
        ({
            let line = lines_from(s, 0)[line_reaching(lines_from(s, 0), target, 0)->0];
            line.0 <= target <= line.1
        }),
{
    lemma_lines_follow(s, 0);
    lemma_reaching(lines_from(s, 0), byte_len(s), target, 0);
}

proof fn lemma_reaching(lines: Seq<(int, int)>, end: int, target: int, i: int)
    requires
        lines_follow(lines, 0, end),
        0 <= target <= end,
        0 <= i < lines.len(),
        lines[i].0 <= target,
    ensures
        line_reaching(lines, target, i) is Some,
        ({
            let k = line_reaching(lines, target, i)->0;
            i <= k < lines.len() && lines[k].0 <= target <= lines[k].1
        }),
    decreases lines.len() - i,
{
    if lines[i].1 < target {
        assert(i < lines.len() - 1);
        assert(lines[i].1 + 1 == lines[i + 1].0);
        lemma_reaching(lines, end, target, i + 1);
    }
}

fn same_texts(left: &Vec<String>, right: &Vec<String>) -> (r: bool)
    ensures
        r == (texts(left@) == texts(right@)),
{
    if left.len() != right.len() {
        assert(texts(left@).len() != texts(right@).len());
        return false;
    }
    let mut i: usize = 0;
    while i < left.len()
        invariant
            i <= left@.len(),
            left@.len() == right@.len(),
            forall|k: int| 0 <= k < i ==> (#[trigger] left@[k])@ == right@[k]@,
        decreases left@.len() - i,
    {
        if !same(left[i].as_str(), right[i].as_str()) {
            assert(texts(left@)[i as int] != texts(right@)[i as int]);
            return false;
        }
        i += 1;
    }
    assert(texts(left@) =~= texts(right@));
    true
}

/// The highlighted ranges were made for this part of a text and these literals.
pub open spec fn fits(
    cache: Option<PreviewSpanCache>,
    generation: u64,
    base: int,
    length: int,
    literals: Seq<Seq<char>>,
) -> bool {
    cache is Some && {
        let c = cache->0;
        c.preview_gen == generation && c.base == base && c.window_len == length && texts(
            c.literals@,
        ) == literals
    }
}

impl Preview {
    /// Brings the highlighted ranges of the part that is shown up to date. They
    /// are kept where the text, the part and the literals are the same.
    pub fn refresh_spans(&mut self, window: &str, base: usize, literals: Vec<String>)
        ensures
            final(self).doc_id == old(self).doc_id,
            final(self).text == old(self).text,
            final(self).hit_index == old(self).hit_index,
            final(self).anchor == old(self).anchor,
            final(self).pending_scroll == old(self).pending_scroll,
            final(self).generation == old(self).generation,
            final(self).loading == old(self).loading,
            final(self).locations == old(self).locations,
            final(self).popup_group == old(self).popup_group,
            fits(
                final(self).spans_cache,
                old(self).generation,
                base as int,
                byte_len(window@),
                texts(literals@),
            ),
            if fits(
                old(self).spans_cache,
                old(self).generation,
                base as int,
                byte_len(window@),
                texts(literals@),
            ) {
                final(self).spans_cache == old(self).spans_cache
            } else {
                span_views((final(self).spans_cache->0).spans@) == spans_in(window@, literals@)
            },
    {
        let length = len_of(window);
        let kept = match &self.spans_cache {
            Some(cache) => cache.preview_gen == self.generation && cache.base == base
                && cache.window_len == length && same_texts(&cache.literals, &literals),
            None => false,
        };
        if !kept {
            let spans = locate_literals(window, &literals);
            self.spans_cache = Some(
                PreviewSpanCache {
                    preview_gen: self.generation,
                    base,
                    window_len: length,
                    literals,
                    spans,
                },
            );
        }
    }

    /// The text was scrolled to where it had to be.
    pub fn scrolled(&mut self)
        ensures
            *final(self) == (Preview { pending_scroll: None, ..*old(self) }),
    {
        self.pending_scroll = None;
    }
}

/// The first document from the `i`-th on that belongs to a group and has an id.
pub open spec fn member_from(documents: Seq<DocumentHit>, group: i64, id: i64, i: int) -> Option<int>
    decreases documents.len() - i,
{
    if i < 0 || i >= documents.len() {
        None
    } else if documents[i].group_id == group && documents[i].document.id == id {
        Some(i)
    } else {
        member_from(documents, group, id, i + 1)
    }
}

/// The document that is shown for the group of another one: the one that was
/// picked, where the result has it, else that other one.
pub open spec fn shown_of(
    documents: Seq<DocumentHit>,
    locations: Seq<(i64, i64)>,
    representative: int,
) -> int {
    let group = documents[representative].group_id;
    match choice(locations, group) {
        Some(id) => match member_from(documents, group, id, 0) {
            Some(i) => i,
            None => representative,
        },
        None => representative,
    }
}

/// The index of the document that is shown for the group of another one.
pub fn shown_document(result: &SearchResponse, preview: &Preview, representative: usize) -> (r:
    usize)
    requires
        representative < result.documents@.len(),
    ensures
        r == shown_of(result.documents@, preview.locations@, representative as int),
        r < result.documents@.len(),
        result.documents@[r as int].group_id == result.documents@[representative as int].group_id,
{
    let group = result.documents[representative].group_id;
    match preview.location(group) {
        None => representative,
        Some(id) => {
            let mut i: usize = 0;
            while i < result.documents.len()
                invariant
                    i <= result.documents@.len(),
                    representative < result.documents@.len(),
                    group == result.documents@[representative as int].group_id,
                    choice(preview.locations@, group) == Some(id),
                    member_from(result.documents@, group, id, i as int) == member_from(
                        result.documents@,
                        group,
                        id,
                        0,
                    ),
                decreases result.documents@.len() - i,
            {
                if result.documents[i].group_id == group && result.documents[i].document.id == id {
                    return i;
                }
                i += 1;
            }
            representative
        },
    }
}

/// Where the first fragment of a document is scrolled to; the start where there
/// is none.
pub fn first_hit_offset(doc_hit: &DocumentHit) -> (n: usize)
    requires
        forall|i: int|
            0 <= i < doc_hit.hits@.len() ==> hit_place(#[trigger] doc_hit.hits@[i]) <= usize::MAX,
    ensures
        doc_hit.hits@.len() == 0 ==> n == 0,
        doc_hit.hits@.len() > 0 ==> exists|i: int|
            0 <= i < doc_hit.hits@.len() && hit_place(#[trigger] doc_hit.hits@[i]) == n,
        forall|i: int| 0 <= i < doc_hit.hits@.len() ==> n <= hit_place(#[trigger] doc_hit.hits@[i]),
{
    let mut n: usize = 0;
    let mut i: usize = 0;
    while i < doc_hit.hits.len()
        invariant
            i <= doc_hit.hits@.len(),
            forall|k: int|
                0 <= k < doc_hit.hits@.len() ==> hit_place(#[trigger] doc_hit.hits@[k])
                    <= usize::MAX,
            i == 0 ==> n == 0,
            i > 0 ==> exists|k: int| 0 <= k < i && hit_place(#[trigger] doc_hit.hits@[k]) == n,
            forall|k: int| 0 <= k < i ==> n <= hit_place(#[trigger] doc_hit.hits@[k]),
        decreases doc_hit.hits@.len() - i,
    {
        let place = hit_offset(&doc_hit.hits[i]);
        if i == 0 || place < n {
            n = place;
            assert(hit_place(doc_hit.hits@[i as int]) == n);
        }
        i += 1;
    }
    n
}

/// The fragment that is shown of so many.
pub fn hit_batch(hit_index: usize, count: usize) -> (n: usize)
    ensures
        n == if hit_index < count {
            hit_index as int
        } else if count > 0 {
            count - 1
        } else {
            0
        },
{
    if hit_index < count {
        hit_index
    } else if count > 0 {
        count - 1
    } else {
        0
    }
}

/// The name that a document is listed under: its title where it has one.
pub fn shown_title(document: &DocumentRow) -> (s: &str)
    ensures
        s@ == if document.title@.len() == 0 {
            document.file_name@
        } else {
            document.title@
        },
{
    if document.title.as_str().is_empty() {
        document.file_name.as_str()
    } else {
        document.title.as_str()
    }
}

impl Page {
    /// Whether work goes on in the background for a page.
    pub fn in_flight(self, importing: bool, searching: bool, maintaining: bool) -> (r: bool)
        ensures
            r == match self {
                Page::Library => importing,
                Page::Search => searching,
                Page::Settings => maintaining,
            },
    {
        match self {
            Page::Library => importing,
            Page::Search => searching,
            Page::Settings => maintaining,
        }
    }
}

/// Upkeep of the index.
#[derive(Debug, Clone, Copy, PartialEq, Eq, Structural)]
pub enum MaintainKind {
    Check,
    Rebuild,
    Optimize,
    Clear,
}

/// What comes of the buttons for upkeep: whether clearing is still to be
/// confirmed, and what is started. Clearing is only started once it was
/// confirmed.
pub fn maintain_step(
    confirming: bool,
    pressed: Option<MaintainKind>,
    confirm: bool,
    cancel: bool,
) -> (r: (bool, Option<MaintainKind>))
    ensures
        r == if confirm {
            (false, Some(MaintainKind::Clear))
        } else if cancel {
            (false, None)
        } else {
            match pressed {
                Some(kind) => if kind == MaintainKind::Clear {
                    (true, None)
                } else {
                    (confirming, Some(kind))
                },
                None => (confirming, None),
            }
        },
        r.1 == Some(MaintainKind::Clear) ==> confirm,
{
    if confirm {
        (false, Some(MaintainKind::Clear))
    } else if cancel {
        (false, None)
    } else {
        match pressed {
            Some(MaintainKind::Clear) => (true, None),
            Some(kind) => (confirming, Some(kind)),
            None => (confirming, None),
        }
    }
}

/// The options of an import that was asked for. A forced one reads files again
/// and leaves them with their folders.
pub fn import_options(force: bool, max_file_bytes: u64) -> (options: ImportOptions)
    ensures
        options == (ImportOptions {
            max_file_bytes,
            force,
            skip_unchanged_failed: false,
            preserve_source_root: force,
        }),
{
    ImportOptions { max_file_bytes, force, skip_unchanged_failed: false, preserve_source_root: force }
}

/// The options of an import that only takes in what changed.
pub fn rescan_options(max_file_bytes: u64) -> (options: ImportOptions)
    ensures
        options == (ImportOptions {
            max_file_bytes,
            force: false,
            skip_unchanged_failed: true,
            preserve_source_root: true,
        }),
{
    ImportOptions {
        max_file_bytes,
        force: false,
        skip_unchanged_failed: true,
        preserve_source_root: true,
    }
}

/// Whether the list of documents is read again while an import goes on: at its
/// end, and before that at most once a second.
pub fn refresh_due(finished: bool, changed: bool, reading: bool, since_ms: Option<u128>) -> (r: bool)
    ensures
        r == (finished || (changed && !reading && (since_ms is None || since_ms->0 >= 1000))),
{
    finished || (changed && !reading && match since_ms {
        Some(ms) => ms >= 1000,
        None => true,
    })
}

/// The documents that were not added with a folder.
pub open spec fn outside(documents: Seq<DocumentRow>, root: Seq<char>) -> Seq<DocumentRow>
    decreases documents.len(),
{
    if documents.len() == 0 {
        Seq::empty()
    } else if option_text(documents.last().source_root) == Some(root) {
        outside(documents.drop_last(), root)
    } else {
        outside(documents.drop_last(), root).push(documents.last())
    }
}

/// The documents but for the one with an id.
pub open spec fn others(documents: Seq<DocumentRow>, id: i64) -> Seq<DocumentRow>
    decreases documents.len(),
{
    if documents.len() == 0 {
        Seq::empty()
    } else if documents.last().id == id {
        others(documents.drop_last(), id)
    } else {
        others(documents.drop_last(), id).push(documents.last())
    }
}

fn turned(documents: Vec<DocumentRow>) -> (r: Vec<DocumentRow>)
    ensures
        r@ == documents@.reverse(),
{
    let ghost all = documents@;
    let mut rest = documents;
    let mut r: Vec<DocumentRow> = Vec::new();
    while rest.len() > 0
        invariant
            rest@.len() + r@.len() == all.len(),
            rest@ == all.take(rest@.len() as int),
            forall|k: int| 0 <= k < r@.len() ==> #[trigger] r@[k] == all[all.len() - 1 - k],
        decreases rest@.len(),
    {
        if let Some(document) = rest.pop() {
            r.push(document);
            assert(rest@ =~= all.take(rest@.len() as int));
        }
    }
    assert(r@ =~= all.reverse());
    r
}

/// Leaves out the documents that were added with a folder.
pub fn without_folder(documents: Vec<DocumentRow>, root: &str) -> (r: Vec<DocumentRow>)
    ensures
        r@ == outside(documents@, root@),
{
    let ghost all = documents@;
    let mut rest = documents;
    let mut kept: Vec<DocumentRow> = Vec::new();
    assert(outside(rest@, root@) + kept@.reverse() =~= outside(all, root@));
    while rest.len() > 0
        invariant
            outside(rest@, root@) + kept@.reverse() == outside(all, root@),
        decreases rest@.len(),
    {
        let ghost before = rest@;
        let ghost list = kept@;
        if let Some(document) = rest.pop() {
            assert(before.drop_last() =~= rest@ && before.last() == document);
            let inside = match &document.source_root {
                Some(folder) => same(folder.as_str(), root),
                None => false,
            };
            if !inside {
                kept.push(document);
                assert(kept@.reverse() =~= seq![document] + list.reverse());
                assert(outside(rest@, root@) + kept@.reverse() =~= outside(before, root@)
                    + list.reverse());
            }
        }
    }
    assert(kept@.reverse() =~= outside(all, root@));
    turned(kept)
}

/// Leaves out the document with an id.
pub fn without_document(documents: Vec<DocumentRow>, id: i64) -> (r: Vec<DocumentRow>)
    ensures
        r@ == others(documents@, id),
{
    let ghost all = documents@;
    let mut rest = documents;
    let mut kept: Vec<DocumentRow> = Vec::new();
    assert(others(rest@, id) + kept@.reverse() =~= others(all, id));
    while rest.len() > 0
        invariant
            others(rest@, id) + kept@.reverse() == others(all, id),
        decreases rest@.len(),
    {
        let ghost before = rest@;
        let ghost list = kept@;
        if let Some(document) = rest.pop() {
            assert(before.drop_last() =~= rest@ && before.last() == document);
            if document.id != id {
                kept.push(document);
                assert(kept@.reverse() =~= seq![document] + list.reverse());
                assert(others(rest@, id) + kept@.reverse() =~= others(before, id)
                    + list.reverse());
            }
        }
    }
    assert(kept@.reverse() =~= others(all, id));
    turned(kept)
}

/// The note in place of an empty list of folders.
pub fn folders_note(loading: bool) -> (s: &'static str)
    ensures
        s@ == if loading {
            "正在读取列表…"@
        } else {
            "还没有添加过文件夹。点上方「添加文件夹」,导入后可在这里展开查看。"@
        },
{
    if loading {
        "正在读取列表…"
    } else {
        "还没有添加过文件夹。点上方「添加文件夹」,导入后可在这里展开查看。"
    }
}

/// What the top of the window tells: why there is no index, how far an import has
/// come, else how many documents there are.
pub fn status_label(
    db_error: Option<&str>,
    importing: bool,
    processed: usize,
    total: usize,
    documents: usize,
) -> (s: String)
    ensures
        s@ == match db_error {
            Some(error) => "索引不可用: "@ + error@,
            None => if importing {
                "导入中 "@ + decimal(processed as nat) + "/"@ + decimal(total as nat)
            } else {
                "文档 "@ + decimal(documents as nat) + " 篇"@
            },
        },
{
    match db_error {
        Some(error) => "索引不可用: ".to_owned().concat(error),
        None => if importing {
            let done = decimal_of(processed as u64);
            let all = decimal_of(total as u64);
            "导入中 ".to_owned().concat(done.as_str()).concat("/").concat(all.as_str())
        } else {
            let count = decimal_of(documents as u64);
            "文档 ".to_owned().concat(count.as_str()).concat(" 篇")
        },
    }
}

} // verus!
