//! Searching: locating literals, cutting out what is shown of a document, and
//! ranking groups of documents with the same content.

use vstd::prelude::*;
use vstd::string::StringExecFns;

use crate::dict::Dictionary;
use crate::query::{answer, compile, scope_field, CompiledQuery, QueryError, Scope, Setting};
use crate::locate::spans_in;
use crate::paths::option_text;
use crate::repo::{marks, placeholders, DocumentRow};
use crate::search_laws::law_shown_groups_are_led;
use crate::text::{
    byte_len, chars_of, decimal, decimal_of, is_boundary, joined, len_of, occurs_at, on_boundary,
    same, slice, slice_of, stands_at, string_of, texts,
};

pub use crate::locate::{locate_literals, span_views, Span};

verus! {

/// Most fragments that are shown of one document unless the request says so.
pub const DEFAULT_MAX_FRAGMENTS: usize = 20;

/// A fragment of a document that is shown.
#[derive(Debug)]
pub struct Hit {
    /// Where the fragment starts in the document's text.
    pub start_offset: usize,
    pub end_offset: usize,
    /// What the text holds there.
    pub content: String,
    /// The headings that lead to the fragment.
    pub context_header: String,
    /// Highlighted ranges of the fragment.
    pub highlights: Vec<Span>,
}

/// What a fragment shows.
pub struct HitView {
    pub start: int,
    pub end: int,
    pub content: Seq<char>,
    pub header: Seq<char>,
    pub highlights: Seq<(int, int)>,
}

impl View for Hit {
    type V = HitView;

    open spec fn view(&self) -> HitView {
        HitView {
            start: self.start_offset as int,
            end: self.end_offset as int,
            content: self.content@,
            header: self.context_header@,
            highlights: span_views(self.highlights@),
        }
    }
}

/// What a list of fragments shows.
pub open spec fn hit_views(hits: Seq<Hit>) -> Seq<HitView> {
    hits.map_values(|hit: Hit| hit@)
}

/// Blocks of a document with the headings that lead to them.
pub open spec fn bound_views(bounds: Seq<(usize, usize, String)>) -> Seq<(int, int, Seq<char>)> {
    bounds.map_values(|b: (usize, usize, String)| (b.0 as int, b.1 as int, b.2@))
}

/// The blocks follow each other without overlap.
pub open spec fn in_order(bounds: Seq<(int, int, Seq<char>)>) -> bool {
    &&& forall|i: int| 0 <= i < bounds.len() ==> (#[trigger] bounds[i]).0 <= bounds[i].1
    &&& forall|i: int, j: int|
        0 <= i < j < bounds.len() ==> (#[trigger] bounds[i]).1 <= (#[trigger] bounds[j]).0
}

/// The starts of the spans rise, and so do their ends.
pub open spec fn rising(spans: Seq<(int, int)>) -> bool {
    &&& forall|i: int| 0 <= i < spans.len() ==> (#[trigger] spans[i]).0 <= spans[i].1
    &&& forall|i: int, j: int|
        0 <= i < j < spans.len() ==> {
            &&& (#[trigger] spans[i]).0 <= (#[trigger] spans[j]).0
            &&& spans[i].1 <= spans[j].1
        }
}

/// The first block from the `i`-th on that has a byte; the last block where
/// none has it.
pub open spec fn block_from(bounds: Seq<(int, int, Seq<char>)>, byte: int, i: int) -> int
    decreases bounds.len() - i,
{
    if i < 0 || i >= bounds.len() {
        bounds.len() - 1
    } else if bounds[i].0 <= byte < bounds[i].1 {
        i
    } else {
        block_from(bounds, byte, i + 1)
    }
}

/// The block that has a byte; the last block where none has it.
pub open spec fn block_at(bounds: Seq<(int, int, Seq<char>)>, byte: int) -> int {
    block_from(bounds, byte, 0)
}

/// The blocks that a span reaches from and to.
pub open spec fn blocks_of(bounds: Seq<(int, int, Seq<char>)>, span: (int, int)) -> (int, int) {
    let first = block_at(bounds, span.0);
    let last = block_at(
        bounds,
        if span.1 > 0 {
            span.1 - 1
        } else {
            0
        },
    );
    (
        first,
        if last > first {
            last
        } else {
            first
        },
    )
}

/// Ranges of blocks, one for each fragment. Spans that share a block are shown
/// in one fragment; a span that crosses blocks joins them.
pub open spec fn block_groups(
    bounds: Seq<(int, int, Seq<char>)>,
    spans: Seq<(int, int)>,
) -> Seq<(int, int)>
    decreases spans.len(),
{
    if spans.len() == 0 {
        Seq::empty()
    } else {
        let before = block_groups(bounds, spans.drop_last());
        let (first, last) = blocks_of(bounds, spans.last());
        if before.len() > 0 && first <= before.last().1 {
            before.drop_last().push(
                (
                    before.last().0,
                    if last > before.last().1 {
                        last
                    } else {
                        before.last().1
                    },
                ),
            )
        } else {
            before.push((first, last))
        }
    }
}

/// The spans inside a range, counted from its start.
pub open spec fn inside(spans: Seq<(int, int)>, start: int, end: int) -> Seq<(int, int)>
    decreases spans.len(),
{
    if spans.len() == 0 {
        Seq::empty()
    } else {
        let before = inside(spans.drop_last(), start, end);
        let span = spans.last();
        if start <= span.0 && span.1 <= end {
            before.push((span.0 - start, span.1 - start))
        } else {
            before
        }
    }
}

/// The headings of blocks that have any.
pub open spec fn header_set(bounds: Seq<(int, int, Seq<char>)>) -> Set<Seq<char>>
    decreases bounds.len(),
{
    if bounds.len() == 0 {
        Set::empty()
    } else if bounds.last().2.len() == 0 {
        header_set(bounds.drop_last())
    } else {
        header_set(bounds.drop_last()).insert(bounds.last().2)
    }
}

/// Index of the first place where `part` stands.
pub open spec fn first_place(s: Seq<char>, part: Seq<char>) -> Option<int> {
    crate::locate::next_match(s, part, 0)
}

/// The headings without the document's title in front.
pub open spec fn untitled(header: Seq<char>, title: Seq<char>) -> Seq<char> {
    match first_place(header, " › "@) {
        Some(k) => if header.subrange(0, k) == title {
            header.subrange(k + " › "@.len(), header.len() as int)
        } else {
            header
        },
        None => header,
    }
}

/// The headings that are shown with a fragment. Those that only repeat the
/// document's title are left out.
pub open spec fn shown_header(header: Seq<char>, count: int, title: Seq<char>) -> Seq<char> {
    if count == 0 || header.len() == 0 {
        Seq::empty()
    } else if untitled(header, title) == title {
        Seq::empty()
    } else {
        untitled(header, title)
    }
}

/// How many different headings count: none where there is just one.
pub open spec fn header_count(bounds: Seq<(int, int, Seq<char>)>) -> int {
    let n = header_set(bounds).len() as int;
    if n <= 1 {
        0
    } else {
        n
    }
}

/// The fragment made of a range of blocks; `None` where that is no part of the
/// text.
pub open spec fn fragment(
    content: Seq<char>,
    spans: Seq<(int, int)>,
    bounds: Seq<(int, int, Seq<char>)>,
    title: Seq<char>,
    group: (int, int),
) -> Option<HitView> {
    let start = bounds[group.0].0;
    let end = bounds[group.1].1;
    if start <= end && on_boundary(content, start) && on_boundary(content, end) {
        Some(
            HitView {
                start,
                end,
                content: slice(content, start, end),
                header: shown_header(bounds[group.0].2, header_count(bounds), title),
                highlights: inside(spans, start, end),
            },
        )
    } else {
        None
    }
}

/// The first fragments, up to the limit.
pub open spec fn fragments_in(
    content: Seq<char>,
    spans: Seq<(int, int)>,
    bounds: Seq<(int, int, Seq<char>)>,
    title: Seq<char>,
    groups: Seq<(int, int)>,
    limit: int,
) -> Seq<HitView>
    decreases groups.len(),
{
    if groups.len() == 0 {
        Seq::empty()
    } else {
        let before = fragments_in(content, spans, bounds, title, groups.drop_last(), limit);
        if before.len() >= limit {
            before
        } else {
            match fragment(content, spans, bounds, title, groups.last()) {
                Some(hit) => before.push(hit),
                None => before,
            }
        }
    }
}

/// The fragments that are shown of a document. Without blocks the whole text
/// is one.
pub open spec fn fragments_of(
    content: Seq<char>,
    spans: Seq<(int, int)>,
    bounds: Seq<(int, int, Seq<char>)>,
    title: Seq<char>,
    limit: int,
) -> Seq<HitView> {
    let blocks = if bounds.len() == 0 {
        seq![(0int, byte_len(content), Seq::<char>::empty())]
    } else {
        bounds
    };
    fragments_in(content, spans, blocks, title, block_groups(blocks, spans), limit)
}

proof fn lemma_first_fragments(
    content: Seq<char>,
    spans: Seq<(int, int)>,
    bounds: Seq<(int, int, Seq<char>)>,
    title: Seq<char>,
    groups: Seq<(int, int)>,
    limit: int,
    most: int,
)
    requires
        0 <= limit <= most,
    ensures
        ({
            let few = fragments_in(content, spans, bounds, title, groups, limit);
            let many = fragments_in(content, spans, bounds, title, groups, most);
            &&& few.len() <= limit
            &&& few == if many.len() <= limit {
                many
            } else {
                many.take(limit)
            }
        }),
    decreases groups.len(),
{
    if groups.len() > 0 {
        let init = groups.drop_last();
        lemma_first_fragments(content, spans, bounds, title, init, limit, most);
        let few = fragments_in(content, spans, bounds, title, init, limit);
        let many = fragments_in(content, spans, bounds, title, init, most);
        let after = fragments_in(content, spans, bounds, title, groups, most);
        if many.len() >= limit {
            assert(after.take(limit) =~= many.take(limit));
            assert(many.take(many.len() as int) =~= many);
        }
    }
}

/// A limit leaves the first fragments: with a higher one, the same fragments
/// come first.
pub proof fn law_limit_keeps_the_first(
    content: Seq<char>,
    spans: Seq<(int, int)>,
    bounds: Seq<(int, int, Seq<char>)>,
    title: Seq<char>,
    limit: int,
    most: int,
)
    requires
        0 <= limit <= most,
    ensures
        ({
            let few = fragments_of(content, spans, bounds, title, limit);
            let many = fragments_of(content, spans, bounds, title, most);
            &&& few.len() <= limit
            &&& few == if many.len() <= limit {
                many
            } else {
                many.take(limit)
            }
        }),
{
    let blocks = if bounds.len() == 0 {
        seq![(0int, byte_len(content), Seq::<char>::empty())]
    } else {
        bounds
    };
    lemma_first_fragments(
        content,
        spans,
        blocks,
        title,
        block_groups(blocks, spans),
        limit,
        most,
    );
}

/// Number of different headings among blocks that have any.
fn distinct_header_count(bounds: &Vec<(usize, usize, String)>) -> (n: usize)
    ensures
        n == header_set(bound_views(bounds@)).len(),
{
    let ghost all = bound_views(bounds@);
    let mut seen: Vec<String> = Vec::new();
    let mut i: usize = 0;
    assert(texts(seen@).to_set() =~= Set::empty());
    while i < bounds.len()
        invariant
            i <= bounds@.len(),
            all == bound_views(bounds@),
            texts(seen@).no_duplicates(),
            texts(seen@).to_set() == header_set(all.take(i as int)),
        decreases bounds@.len() - i,
    {
        let ghost list = texts(seen@);
        let ghost header = bounds@[i as int].2@;
        proof {
            assert(all.take(i + 1).drop_last() =~= all.take(i as int));
            assert(all.take(i + 1).last().2 == header);
        }
        if !bounds[i].2.as_str().is_empty() {
            let mut k: usize = 0;
            let mut found = false;
            while k < seen.len() && !found
                invariant
                    k <= seen@.len(),
                    list == texts(seen@),
                    i < bounds@.len(),
                    header == bounds@[i as int].2@,
                    found ==> list.contains(header),
                    !found ==> forall|m: int| 0 <= m < k ==> #[trigger] list[m] != header,
                decreases seen@.len() - k, if found {
                    0int
                } else {
                    1int
                },
            {
                if same(seen[k].as_str(), bounds[i].2.as_str()) {
                    assert(list[k as int] == header);
                    found = true;
                } else {
                    k += 1;
                }
            }
            if found {
                assert(list.to_set().contains(header));
                assert(header_set(all.take(i + 1)) =~= list.to_set());
            } else {
                seen.push(bounds[i].2.clone());
                assert(texts(seen@) =~= list.push(header));
                assert(list.push(header).to_set() =~= list.to_set().insert(header)) by {
                    assert forall|x: Seq<char>| list.push(header).to_set().contains(
                        x,
                    ) == list.to_set().insert(header).contains(x) by {
                        if list.contains(x) {
                            let m = choose|m: int| 0 <= m < list.len() && list[m] == x;
                            assert(list.push(header)[m] == x);
                        }
                        assert(list.push(header)[list.len() as int] == header);
                    }
                }
            }
        }
        i += 1;
    }
    proof {
        assert(all.take(i as int) =~= all);
        texts(seen@).unique_seq_to_set();
    }
    seen.len()
}

/// The headings that are shown with a fragment.
///
/// The title of the document is shown above all fragments, so a heading path
/// that starts with it goes without; where nothing else is left there is no
/// heading to show.
fn fragment_header(header: &str, count: usize, document_title: &str) -> (s: String)
    ensures
        s@ == shown_header(header@, count as int, document_title@),
{
    if count == 0 || header.is_empty() {
        return String::new();
    }
    let chars = chars_of(header);
    let mark = chars_of(" › ");
    let total = chars.len();
    let mut k: usize = 0;
    while k < total && !stands_at(&chars, &mark, k)
        invariant
            total == chars@.len(),
            k <= total,
            crate::locate::next_match(chars@, mark@, k as int) == first_place(chars@, mark@),
        decreases total - k,
    {
        k += 1;
    }
    proof {
        reveal_strlit(" › ");
        if k == total {
            assert(!occurs_at(chars@, mark@, k as int));
            assert(crate::locate::next_match(chars@, mark@, k + 1) is None);
        }
    }
    let rest = if k < total {
        let first = string_of(&chars, 0, k);
        if same(first.as_str(), document_title) {
            string_of(&chars, k + mark.len(), total)
        } else {
            header.to_owned()
        }
    } else {
        header.to_owned()
    };
    assert(rest@ == untitled(header@, document_title@));
    if same(rest.as_str(), document_title) {
        String::new()
    } else {
        rest
    }
}

proof fn lemma_block_from(bounds: Seq<(int, int, Seq<char>)>, byte: int, i: int, c: int)
    requires
        in_order(bounds),
        0 <= i <= c <= bounds.len(),
        forall|k: int| 0 <= k < c ==> (#[trigger] bounds[k]).1 <= byte,
        c < bounds.len() ==> bounds[c].1 > byte,
    ensures
        block_from(bounds, byte, i) == if c < bounds.len() && bounds[c].0 <= byte {
            c
        } else {
            bounds.len() - 1
        },
    decreases c - i,
{
    if i < c {
        lemma_block_from(bounds, byte, i + 1, c);
    } else if c < bounds.len() && bounds[c].0 > byte {
        lemma_none_behind(bounds, byte, c, c);
    }
}

proof fn lemma_none_behind(bounds: Seq<(int, int, Seq<char>)>, byte: int, c: int, i: int)
    requires
        in_order(bounds),
        0 <= c <= i <= bounds.len(),
        c < bounds.len(),
        bounds[c].1 > byte,
        bounds[c].0 > byte,
    ensures
        block_from(bounds, byte, i) == bounds.len() - 1,
    decreases bounds.len() - i,
{
    if i < bounds.len() {
        lemma_none_behind(bounds, byte, c, i + 1);
    }
}

/// The block that has a byte, and the first block that ends behind it. Blocks
/// before the cursor end before the byte.
fn block_of(bounds: &Vec<(usize, usize, String)>, byte: usize, cursor: usize) -> (r: (usize, usize))
    requires
        bounds@.len() > 0,
        in_order(bound_views(bounds@)),
        cursor <= bounds@.len(),
        forall|k: int| 0 <= k < cursor ==> (#[trigger] bounds@[k]).1 <= byte,
    ensures
        r.0 == block_at(bound_views(bounds@), byte as int),
        r.0 < bounds@.len(),
        r.1 <= bounds@.len(),
        forall|k: int| 0 <= k < r.1 ==> (#[trigger] bounds@[k]).1 <= byte,
{
    let mut c: usize = cursor;
    while c < bounds.len() && bounds[c].1 <= byte
        invariant
            c <= bounds@.len(),
            forall|k: int| 0 <= k < c ==> (#[trigger] bounds@[k]).1 <= byte,
        decreases bounds@.len() - c,
    {
        c += 1;
    }
    proof {
        let all = bound_views(bounds@);
        assert forall|k: int| 0 <= k < c implies (#[trigger] all[k]).1 <= byte by {
            assert(bounds@[k].1 <= byte);
        }
        if c < bounds@.len() {
            assert(all[c as int].1 == bounds@[c as int].1);
        }
        lemma_block_from(all, byte as int, 0, c as int);
    }
    if c < bounds.len() && bounds[c].0 <= byte {
        (c, c)
    } else {
        (bounds.len() - 1, c)
    }
}

/// Ranges of blocks, without the representation.
pub open spec fn pair_views(groups: Seq<(usize, usize)>) -> Seq<(int, int)> {
    groups.map_values(|g: (usize, usize)| (g.0 as int, g.1 as int))
}

/// The ranges of blocks follow each other and are among `n` blocks.
pub open spec fn groups_rise(groups: Seq<(int, int)>, n: int) -> bool {
    &&& forall|i: int| 0 <= i < groups.len() ==> 0 <= (#[trigger] groups[i]).0 <= groups[i].1 < n
    &&& forall|i: int, j: int|
        0 <= i < j < groups.len() ==> (#[trigger] groups[i]).1 < (#[trigger] groups[j]).0
}

/// Ranges of blocks, one for each fragment.
fn group_blocks(bounds: &Vec<(usize, usize, String)>, spans: &Vec<Span>) -> (groups: Vec<
    (usize, usize),
>)
    requires
        bounds@.len() > 0,
        in_order(bound_views(bounds@)),
        rising(span_views(spans@)),
    ensures
        pair_views(groups@) == block_groups(bound_views(bounds@), span_views(spans@)),
        groups_rise(pair_views(groups@), bounds@.len() as int),
{
    let ghost blocks = bound_views(bounds@);
    let ghost all = span_views(spans@);
    let mut groups: Vec<(usize, usize)> = Vec::new();
    let mut start_block: usize = 0;
    let mut end_block: usize = 0;
    let mut i: usize = 0;
    assert(pair_views(groups@) =~= Seq::empty());
    while i < spans.len()
        invariant
            i <= spans@.len(),
            blocks == bound_views(bounds@),
            all == span_views(spans@),
            bounds@.len() > 0,
            in_order(blocks),
            rising(all),
            start_block <= bounds@.len(),
            end_block <= bounds@.len(),
            i > 0 ==> forall|k: int|
                0 <= k < start_block ==> (#[trigger] bounds@[k]).1 <= spans@[i - 1].start,
            i > 0 ==> forall|k: int|
                0 <= k < end_block ==> (#[trigger] bounds@[k]).1 <= (if spans@[i - 1].end > 0 {
                    spans@[i - 1].end - 1
                } else {
                    0
                }),
            i == 0 ==> start_block == 0 && end_block == 0,
            pair_views(groups@) == block_groups(blocks, all.take(i as int)),
            groups_rise(pair_views(groups@), bounds@.len() as int),
        decreases spans@.len() - i,
    {
        let span = spans[i];
        proof {
            assert(all[i as int] == (span.start as int, span.end as int));
            if i > 0 {
                assert(all[i - 1] == (spans@[i - 1].start as int, spans@[i - 1].end as int));
                assert(all[i - 1].0 <= all[i as int].0);
                assert(all[i - 1].1 <= all[i as int].1);
            }
            assert(all.take(i + 1).drop_last() =~= all.take(i as int));
            assert(all.take(i + 1).last() == all[i as int]);
        }
        let (first, next_start) = block_of(bounds, span.start, start_block);
        start_block = next_start;
        let last_byte = if span.end > 0 {
            span.end - 1
        } else {
            0
        };
        let (reach, next_end) = block_of(bounds, last_byte, end_block);
        end_block = next_end;
        let last = if reach > first {
            reach
        } else {
            first
        };
        let ghost before = pair_views(groups@);
        assert(before.len() == groups@.len());
        assert(blocks_of(blocks, all[i as int]) == (first as int, last as int));
        let n = groups.len();
        if n > 0 && first <= groups[n - 1].1 {
            let (from, to) = groups[n - 1];
            assert(before.last() == (from as int, to as int));
            let to = if last > to {
                last
            } else {
                to
            };
            groups.pop();
            groups.push((from, to));
            assert(pair_views(groups@) =~= before.drop_last().push((from as int, to as int)));
        } else {
            proof {
                if n > 0 {
                    assert(before.last() == (
                        groups@[n - 1].0 as int,
                        groups@[n - 1].1 as int,
                    ));
                }
            }
            groups.push((first, last));
            assert(pair_views(groups@) =~= before.push((first as int, last as int)));
        }
        i += 1;
    }
    assert(all.take(i as int) =~= all);
    groups
}

proof fn lemma_inside_none(spans: Seq<(int, int)>, start: int, end: int, n: int)
    requires
        0 <= n <= spans.len(),
        forall|i: int| 0 <= i < n ==> (#[trigger] spans[i]).0 < start,
    ensures
        inside(spans.take(n), start, end) == Seq::<(int, int)>::empty(),
    decreases n,
{
    if n > 0 {
        assert(spans.take(n).drop_last() =~= spans.take(n - 1));
        lemma_inside_none(spans, start, end, n - 1);
    }
}

proof fn lemma_inside_rest(spans: Seq<(int, int)>, start: int, end: int, n: int, m: int)
    requires
        0 <= n <= m <= spans.len(),
        forall|i: int| n <= i < m ==> (#[trigger] spans[i]).1 > end,
    ensures
        inside(spans.take(m), start, end) == inside(spans.take(n), start, end),
    decreases m - n,
{
    if n < m {
        assert(spans.take(m).drop_last() =~= spans.take(m - 1));
        lemma_inside_rest(spans, start, end, n, m - 1);
    }
}

/// Cuts out what is shown of a document.
///
/// The spans rise and lie in the content; the blocks follow each other. Spans
/// in the same block are shown in one fragment, those in different blocks in
/// different ones. A span that crosses the border of a block joins the blocks
/// on both sides, so that it is shown as a whole.
pub fn group_into_fragments(
    content: &str,
    spans: &Vec<Span>,
    bounds: &Vec<(usize, usize, String)>,
    document_title: &str,
    limit: usize,
) -> (hits: Vec<Hit>)
    requires
        in_order(bound_views(bounds@)),
        rising(span_views(spans@)),
    ensures
        hit_views(hits@) == fragments_of(
            content@,
            span_views(spans@),
            bound_views(bounds@),
            document_title@,
            limit as int,
        ),
{
    if bounds.len() == 0 {
        let mut whole: Vec<(usize, usize, String)> = Vec::new();
        whole.push((0, len_of(content), String::new()));
        assert(bound_views(whole@) =~= seq![(0int, byte_len(content@), Seq::<char>::empty())]);
        proof {
            crate::text::lemma_offset_monotonic(content@, 0, content@.len() as int);
        }
        return cut_fragments(content, spans, &whole, document_title, limit);
    }
    cut_fragments(content, spans, bounds, document_title, limit)
}

fn cut_fragments(
    content: &str,
    spans: &Vec<Span>,
    bounds: &Vec<(usize, usize, String)>,
    document_title: &str,
    limit: usize,
) -> (hits: Vec<Hit>)
    requires
        bounds@.len() > 0,
        in_order(bound_views(bounds@)),
        rising(span_views(spans@)),
    ensures
        hit_views(hits@) == fragments_in(
            content@,
            span_views(spans@),
            bound_views(bounds@),
            document_title@,
            block_groups(bound_views(bounds@), span_views(spans@)),
            limit as int,
        ),
{
    let ghost blocks = bound_views(bounds@);
    let ghost all = span_views(spans@);
    let ghost s = content@;
    let groups = group_blocks(bounds, spans);
    let ghost ranges = pair_views(groups@);
    let count = distinct_header_count(bounds);
    let count = if count <= 1 {
        0
    } else {
        count
    };
    let mut hits: Vec<Hit> = Vec::new();
    let mut from: usize = 0;
    let mut to: usize = 0;
    let mut g: usize = 0;
    assert(hit_views(hits@) =~= Seq::empty());
    while g < groups.len() && hits.len() < limit
        invariant
            g <= groups@.len(),
            blocks == bound_views(bounds@),
            all == span_views(spans@),
            s == content@,
            ranges == pair_views(groups@),
            groups_rise(ranges, bounds@.len() as int),
            in_order(blocks),
            rising(all),
            count == header_count(blocks),
            from <= spans@.len(),
            to <= spans@.len(),
            g == 0 ==> from == 0 && to == 0,
            g > 0 ==> forall|k: int|
                0 <= k < from ==> (#[trigger] all[k]).0 < blocks[ranges[g - 1].0].0,
            g > 0 ==> forall|k: int|
                0 <= k < to ==> (#[trigger] all[k]).1 <= blocks[ranges[g - 1].1].1,
            hit_views(hits@) == fragments_in(
                s,
                all,
                blocks,
                document_title@,
                ranges.take(g as int),
                limit as int,
            ),
        decreases groups@.len() - g,
    {
        let (first, last) = groups[g];
        let start = bounds[first].0;
        let end = bounds[last].1;
        proof {
            assert(ranges[g as int] == (first as int, last as int));
            assert(blocks[first as int].0 == start);
            assert(blocks[last as int].1 == end);
            assert(ranges.take(g + 1).drop_last() =~= ranges.take(g as int));
            assert(ranges.take(g + 1).last() == ranges[g as int]);
            assert(hit_views(hits@).len() == hits@.len());
            if g > 0 {
                let a = ranges[g - 1];
                let b = ranges[g as int];
                assert(a.1 < b.0);
                assert(blocks[a.0].0 <= blocks[a.1].1) by {
                    assert(blocks[a.0].0 <= blocks[a.0].1);
                    if a.0 < a.1 {
                        assert(blocks[a.0].1 <= blocks[a.1].0);
                        assert(blocks[a.1].0 <= blocks[a.1].1);
                    }
                }
                assert(blocks[a.1].1 <= blocks[b.0].0);
                assert(blocks[a.1].1 <= blocks[b.1].1) by {
                    assert(blocks[a.1].1 <= blocks[b.1].0);
                    assert(blocks[b.1].0 <= blocks[b.1].1);
                }
            }
        }
        if start <= end && is_boundary(content, start) && is_boundary(content, end) {
            while from < spans.len() && spans[from].start < start
                invariant
                    from <= spans@.len(),
                    all == span_views(spans@),
                    forall|k: int| 0 <= k < from ==> (#[trigger] all[k]).0 < start,
                decreases spans@.len() - from,
            {
                assert(all[from as int].0 == spans@[from as int].start);
                from += 1;
            }
            while to < spans.len() && spans[to].end <= end
                invariant
                    to <= spans@.len(),
                    all == span_views(spans@),
                    forall|k: int| 0 <= k < to ==> (#[trigger] all[k]).1 <= end,
                decreases spans@.len() - to,
            {
                assert(all[to as int].1 == spans@[to as int].end);
                to += 1;
            }
            let mut highlights: Vec<Span> = Vec::new();
            let mut i: usize = from;
            proof {
                lemma_inside_none(all, start as int, end as int, from as int);
                assert(span_views(highlights@) =~= Seq::empty());
            }
            while i < to
                invariant
                    from <= i,
                    i <= to || i == from,
                    from <= spans@.len(),
                    to <= spans@.len(),
                    all == span_views(spans@),
                    rising(all),
                    forall|k: int| 0 <= k < to ==> (#[trigger] all[k]).1 <= end,
                    from < spans@.len() ==> all[from as int].0 >= start,
                    span_views(highlights@) == inside(
                        all.take(i as int),
                        start as int,
                        end as int,
                    ),
                decreases to - i,
            {
                let span = spans[i];
                proof {
                    assert(all[i as int] == (span.start as int, span.end as int));
                    assert(all[from as int].0 <= all[i as int].0);
                    assert(all.take(i + 1).drop_last() =~= all.take(i as int));
                }
                let ghost before = span_views(highlights@);
                highlights.push(Span { start: span.start - start, end: span.end - start });
                assert(span_views(highlights@) =~= before.push(
                    (span.start - start, span.end - start),
                ));
                i += 1;
            }
            proof {
                assert forall|k: int| i <= k < all.len() implies (#[trigger] all[k]).1 > end by {
                    assert(to < spans@.len());
                    assert(all[to as int].1 == spans@[to as int].end);
                    assert(all[to as int].1 <= all[k].1);
                }
                lemma_inside_rest(all, start as int, end as int, i as int, all.len() as int);
                assert(all.take(all.len() as int) =~= all);
            }
            let hit = Hit {
                start_offset: start,
                end_offset: end,
                content: slice_of(content, start, end).to_owned(),
                context_header: fragment_header(bounds[first].2.as_str(), count, document_title),
                highlights,
            };
            let ghost shown = hit_views(hits@);
            hits.push(hit);
            proof {
                assert(hit_views(hits@) =~= shown.push(hit@));
                assert(fragment(s, all, blocks, document_title@, ranges[g as int]) == Some(hit@));
            }
        }
        g += 1;
    }
    proof {
        lemma_full(s, all, blocks, document_title@, ranges, limit as int, g as int);
        assert(hit_views(hits@).len() == hits@.len());
        assert(ranges.take(ranges.len() as int) =~= ranges);
    }
    hits
}

proof fn lemma_full(
    content: Seq<char>,
    spans: Seq<(int, int)>,
    bounds: Seq<(int, int, Seq<char>)>,
    title: Seq<char>,
    groups: Seq<(int, int)>,
    limit: int,
    g: int,
)
    requires
        0 <= g <= groups.len(),
        g == groups.len() || fragments_in(
            content,
            spans,
            bounds,
            title,
            groups.take(g),
            limit,
        ).len() >= limit,
    ensures
        fragments_in(content, spans, bounds, title, groups, limit) == fragments_in(
            content,
            spans,
            bounds,
            title,
            groups.take(g),
            limit,
        ),
    decreases groups.len() - g,
{
    if g < groups.len() {
        assert(groups.take(g + 1).drop_last() =~= groups.take(g));
        lemma_full(content, spans, bounds, title, groups, limit, g + 1);
    } else {
        assert(groups.take(g) =~= groups);
    }
}

/// What search results are limited to.
#[derive(Debug)]
pub struct Filters {
    /// The kinds of documents; none stands for all.
    pub file_types: Vec<String>,
    pub mtime_from_ms: Option<i64>,
    pub mtime_to_ms: Option<i64>,
    /// What the paths of documents start with.
    pub path_prefix: Option<String>,
}

impl Default for Filters {
    fn default() -> (filters: Self)
        ensures
            filters.file_types@.len() == 0,
            filters.mtime_from_ms is None,
            filters.mtime_to_ms is None,
            filters.path_prefix is None,
    {
        Filters {
            file_types: Vec::new(),
            mtime_from_ms: None,
            mtime_to_ms: None,
            path_prefix: None,
        }
    }
}

/// All that a search is given.
#[derive(Debug)]
pub struct SearchRequest {
    pub query: String,
    pub scope: Scope,
    /// Words are split into parts that all have to be present.
    pub loose: bool,
    pub filters: Filters,
    /// Most groups of documents with the same content that are shown.
    pub max_documents: usize,
    /// Most fragments that are shown of each document.
    pub max_fragments_per_document: usize,
}

impl Default for SearchRequest {
    fn default() -> (request: Self)
        ensures
            request.query@ == Seq::<char>::empty(),
            request.scope == Scope::All,
            !request.loose,
            request.filters.file_types@.len() == 0,
            request.filters.mtime_from_ms is None,
            request.filters.mtime_to_ms is None,
            request.filters.path_prefix is None,
            request.max_documents == 100,
            request.max_fragments_per_document == DEFAULT_MAX_FRAGMENTS,
    {
        SearchRequest {
            query: String::new(),
            scope: Scope::All,
            loose: false,
            filters: Filters::default(),
            max_documents: 100,
            max_fragments_per_document: DEFAULT_MAX_FRAGMENTS,
        }
    }
}

/// Most groups of documents that are looked at more closely.
pub const MAX_CANDIDATES: usize = 200;

/// A value that is handed to the index together with a statement.
#[derive(Debug)]
pub enum Param {
    Text(String),
    Integer(i64),
}

/// What a value holds.
pub enum ParamView {
    Text(Seq<char>),
    Integer(int),
}

impl View for Param {
    type V = ParamView;

    open spec fn view(&self) -> ParamView {
        match self {
            Param::Text(s) => ParamView::Text(s@),
            Param::Integer(n) => ParamView::Integer(*n as int),
        }
    }
}

/// What a list of values holds.
pub open spec fn param_views(params: Seq<Param>) -> Seq<ParamView> {
    params.map_values(|p: Param| p@)
}

/// A character of a pattern that stands for itself.
pub open spec fn like_char(c: char) -> Seq<char> {
    if c == '\\' || c == '%' || c == '_' {
        seq!['\\', c]
    } else {
        seq![c]
    }
}

/// A text as a pattern that matches it alone.
pub open spec fn like_text(s: Seq<char>) -> Seq<char>
    decreases s.len(),
{
    if s.len() == 0 {
        Seq::empty()
    } else {
        like_text(s.drop_last()) + like_char(s.last())
    }
}

/// Escapes the characters that stand for others in a pattern.
pub fn escape_like(value: &str) -> (s: String)
    ensures
        s@ == like_text(value@),
{
    let chars = chars_of(value);
    let mut s = String::new();
    let mut i: usize = 0;
    assert(chars@.take(0) =~= Seq::empty());
    while i < chars.len()
        invariant
            i <= chars@.len(),
            s@ == like_text(chars@.take(i as int)),
        decreases chars@.len() - i,
    {
        let ghost before = s@;
        let c = chars[i];
        assert(chars@.take(i + 1).drop_last() =~= chars@.take(i as int));
        if c == '\\' || c == '%' || c == '_' {
            s.push('\\');
        }
        s.push(c);
        i += 1;
        assert(s@ =~= before + like_char(c));
    }
    assert(chars@.take(i as int) =~= chars@);
    s
}

/// The patterns for a path prefix: the prefix itself, and the same behind
/// `\\?\` unless it starts with that.
pub open spec fn path_patterns(prefix: Seq<char>) -> Seq<Seq<char>> {
    let own = like_text(prefix) + "%"@;
    if occurs_at(prefix, "\\\\?\\"@, 0) {
        seq![own]
    } else {
        seq![own, like_text("\\\\?\\"@ + prefix) + "%"@]
    }
}

/// The conditions of filters behind the full-text condition.
pub open spec fn filter_sql(filters: Filters) -> Seq<char> {
    (if filters.file_types@.len() > 0 {
        " AND d.file_type IN ("@ + joined(marks(filters.file_types@.len()), ","@) + ")"@
    } else {
        ""@
    }) + (if filters.mtime_from_ms is Some {
        " AND d.file_mtime_ms >= ?"@
    } else {
        ""@
    }) + (if filters.mtime_to_ms is Some {
        " AND d.file_mtime_ms <= ?"@
    } else {
        ""@
    }) + (match filters.path_prefix {
        Some(prefix) => " AND ("@ + joined(
            Seq::new(path_patterns(prefix@).len(), |i: int| "d.path LIKE ? ESCAPE '\\'"@),
            " OR "@,
        ) + ")"@,
        None => ""@,
    })
}

/// The values of filters in the order of their conditions.
pub open spec fn filter_params(filters: Filters) -> Seq<ParamView> {
    filters.file_types@.map_values(|t: String| ParamView::Text(t@)) + (
    match filters.mtime_from_ms {
        Some(t) => seq![ParamView::Integer(t as int)],
        None => Seq::empty(),
    }) + (match filters.mtime_to_ms {
        Some(t) => seq![ParamView::Integer(t as int)],
        None => Seq::empty(),
    }) + (match filters.path_prefix {
        Some(prefix) => path_patterns(prefix@).map_values(|p: Seq<char>| ParamView::Text(p)),
        None => Seq::empty(),
    })
}

fn push_param(params: &mut Vec<Param>, value: Param)
    ensures
        param_views(final(params)@) == param_views(old(params)@).push(value@),
{
    let ghost before = params@;
    params.push(value);
    assert(param_views(params@) =~= param_views(before).push(value@));
}

/// Makes the conditions and values of filters.
pub fn filter_conditions(filters: &Filters) -> (r: (String, Vec<Param>))
    ensures
        r.0@ == filter_sql(*filters),
        param_views(r.1@) == filter_params(*filters),
{
    let mut sql = String::new();
    let mut params: Vec<Param> = Vec::new();
    let ghost types = filters.file_types@.map_values(|t: String| ParamView::Text(t@));
    let mut i: usize = 0;
    assert(param_views(params@) =~= types.take(0));
    while i < filters.file_types.len()
        invariant
            i <= filters.file_types@.len(),
            types == filters.file_types@.map_values(|t: String| ParamView::Text(t@)),
            param_views(params@) == types.take(i as int),
        decreases filters.file_types@.len() - i,
    {
        push_param(&mut params, Param::Text(filters.file_types[i].clone()));
        i += 1;
        assert(param_views(params@) =~= types.take(i as int));
    }
    assert(param_views(params@) =~= types);
    if filters.file_types.len() > 0 {
        let list = placeholders(filters.file_types.len());
        sql.append(" AND d.file_type IN (");
        sql.append(list.as_str());
        sql.append(")");
    } else {
        sql.append("");
    }
    let ghost sql_types = sql@;
    assert(sql_types =~= if filters.file_types@.len() > 0 {
        " AND d.file_type IN ("@ + joined(marks(filters.file_types@.len()), ","@) + ")"@
    } else {
        ""@
    });
    let ghost from = match filters.mtime_from_ms {
        Some(t) => seq![ParamView::Integer(t as int)],
        None => Seq::<ParamView>::empty(),
    };
    match filters.mtime_from_ms {
        Some(t) => {
            sql.append(" AND d.file_mtime_ms >= ?");
            push_param(&mut params, Param::Integer(t));
        },
        None => {
            sql.append("");
        },
    }
    assert(param_views(params@) =~= types + from);
    let ghost to = match filters.mtime_to_ms {
        Some(t) => seq![ParamView::Integer(t as int)],
        None => Seq::<ParamView>::empty(),
    };
    match filters.mtime_to_ms {
        Some(t) => {
            sql.append(" AND d.file_mtime_ms <= ?");
            push_param(&mut params, Param::Integer(t));
        },
        None => {
            sql.append("");
        },
    }
    assert(param_views(params@) =~= types + from + to);
    match &filters.path_prefix {
        Some(prefix) => {
            let own = escape_like(prefix.as_str()).concat("%");
            let mark = chars_of("\\\\?\\");
            let verbatim = stands_at(&chars_of(prefix.as_str()), &mark, 0);
            let condition = "d.path LIKE ? ESCAPE '\\'";
            sql.append(" AND (");
            let ghost patterns = path_patterns(prefix@);
            let ghost conditions = Seq::new(patterns.len(), |i: int| condition@);
            let ghost before = param_views(params@);
            push_param(&mut params, Param::Text(own));
            if verbatim {
                sql.append(condition);
                proof {
                    assert(conditions =~= seq![condition@]);
                    assert(joined(conditions, " OR "@) == condition@);
                    assert(param_views(params@) =~= before + patterns.map_values(
                        |p: Seq<char>| ParamView::Text(p),
                    ));
                }
            } else {
                let both = "\\\\?\\".to_owned().concat(prefix.as_str());
                let other = escape_like(both.as_str()).concat("%");
                push_param(&mut params, Param::Text(other));
                let ghost start = sql@;
                sql.append(condition);
                sql.append(" OR ");
                sql.append(condition);
                proof {
                    assert(conditions.drop_last() =~= seq![condition@]);
                    assert(joined(conditions.drop_last(), " OR "@) == condition@);
                    assert(joined(conditions, " OR "@) == condition@ + " OR "@ + condition@);
                    assert(sql@ =~= start + joined(conditions, " OR "@));
                    assert(param_views(params@) =~= before + patterns.map_values(
                        |p: Seq<char>| ParamView::Text(p),
                    ));
                }
            }
            sql.append(")");
            assert(conditions =~= Seq::new(
                patterns.len(),
                |i: int| "d.path LIKE ? ESCAPE '\\'"@,
            ));
        },
        None => {
            sql.append("");
            assert(param_views(params@) =~= filter_params(*filters));
        },
    }
    assert(sql@ =~= filter_sql(*filters));
    assert(param_views(params@) =~= filter_params(*filters));
    (sql, params)
}

/// What the index is asked for a search: how many documents and groups there
/// are, and the best of them.
#[derive(Debug)]
pub struct SearchPlan {
    pub compiled: CompiledQuery,
    pub count_sql: String,
    pub candidate_sql: String,
    pub params: Vec<Param>,
}

/// The tables that are searched.
pub open spec fn from_sql() -> Seq<char> {
    "FROM documents_fts JOIN documents d ON d.id = documents_fts.rowid"@
}

/// What documents with the same content have in common. Those without a valid
/// hash stand alone.
pub open spec fn group_key_sql() -> Seq<char> {
    "CASE WHEN length(d.content_hash) = 64 AND d.content_hash NOT GLOB '*[^0-9a-fA-F]*' THEN lower(d.content_hash) ELSE 'id:' || d.id END"@
}

/// The conditions of a search.
pub open spec fn where_sql(filters: Filters) -> Seq<char> {
    "WHERE documents_fts MATCH ?"@ + filter_sql(filters)
}

/// The statement that counts documents and groups.
pub open spec fn count_sql(filters: Filters) -> Seq<char> {
    "SELECT COUNT(*), COUNT(DISTINCT "@ + group_key_sql() + ") "@ + from_sql() + " "@ + where_sql(
        filters,
    )
}

/// The statement that reads the best groups with all their documents.
pub open spec fn candidate_sql(filters: Filters, limit: int) -> Seq<char> {
    "WITH matches AS MATERIALIZED (SELECT d.id, documents_fts.rank AS score, "@ + group_key_sql()
        + " AS group_key "@ + from_sql() + " "@ + where_sql(filters)
        + " AND rank MATCH 'bm25(5.0, 1.0)'), selected_groups AS (SELECT group_key, MIN(score) AS best_rank, MIN(id) AS first_id FROM matches GROUP BY group_key ORDER BY best_rank, first_id LIMIT "@
        + decimal(limit as nat)
        + ") SELECT m.id, m.score, m.group_key FROM matches m JOIN selected_groups g ON g.group_key = m.group_key ORDER BY g.best_rank, g.first_id, m.score, m.id"@
}

/// The setting that a request is compiled with.
pub open spec fn request_setting(request: SearchRequest, dictionary: Dictionary) -> Setting {
    Setting {
        groups: dictionary.synonyms@,
        cut: if request.loose && dictionary.segmenter is Some {
            Some(dictionary.segmenter->0@)
        } else {
            None
        },
        field: scope_field(request.scope),
    }
}

/// Makes out what the index is asked for a search, or what is wrong with the
/// query.
pub fn plan_search(request: &SearchRequest, dictionary: &Dictionary) -> (r: Result<
    SearchPlan,
    QueryError,
>)
    ensures
        match r {
            Err(e) => answer(request_setting(*request, *dictionary), request.query@) == Err::<
                (Seq<char>, Seq<Seq<char>>),
                Seq<char>,
            >(e.0@),
            Ok(plan) => {
                &&& answer(request_setting(*request, *dictionary), request.query@) == Ok::<
                    (Seq<char>, Seq<Seq<char>>),
                    Seq<char>,
                >((plan.compiled.match_expr@, texts(plan.compiled.literals@)))
                &&& plan.count_sql@ == count_sql(request.filters)
                &&& plan.candidate_sql@ == candidate_sql(
                    request.filters,
                    if request.max_documents == 0 {
                        0
                    } else {
                        MAX_CANDIDATES as int
                    },
                )
                &&& param_views(plan.params@) == seq![
                    ParamView::Text(plan.compiled.match_expr@),
                ] + filter_params(request.filters)
            },
        },
{
    let compiled = match compile(request.query.as_str(), request.scope, request.loose, dictionary) {
        Err(e) => return Err(e),
        Ok(compiled) => compiled,
    };
    let (conditions, mut values) = filter_conditions(&request.filters);
    let mut params: Vec<Param> = Vec::new();
    push_param(&mut params, Param::Text(compiled.match_expr.clone()));
    let ghost first = params@;
    let ghost tail = values@;
    params.append(&mut values);
    proof {
        assert(params@ =~= first + tail);
        assert(param_views(first) =~= seq![ParamView::Text(compiled.match_expr@)]);
        assert(param_views(params@) =~= param_views(first) + param_views(tail));
    }
    let from = "FROM documents_fts JOIN documents d ON d.id = documents_fts.rowid";
    let key = "CASE WHEN length(d.content_hash) = 64 AND d.content_hash NOT GLOB '*[^0-9a-fA-F]*' THEN lower(d.content_hash) ELSE 'id:' || d.id END";
    let condition = "WHERE documents_fts MATCH ?".to_owned().concat(conditions.as_str());
    let mut count = "SELECT COUNT(*), COUNT(DISTINCT ".to_owned();
    count.append(key);
    count.append(") ");
    count.append(from);
    count.append(" ");
    count.append(condition.as_str());
    let limit: u64 = if request.max_documents == 0 {
        0
    } else {
        MAX_CANDIDATES as u64
    };
    let limit = decimal_of(limit);
    let mut candidates =
        "WITH matches AS MATERIALIZED (SELECT d.id, documents_fts.rank AS score, ".to_owned();
    candidates.append(key);
    candidates.append(" AS group_key ");
    candidates.append(from);
    candidates.append(" ");
    candidates.append(condition.as_str());
    candidates.append(
        " AND rank MATCH 'bm25(5.0, 1.0)'), selected_groups AS (SELECT group_key, MIN(score) AS best_rank, MIN(id) AS first_id FROM matches GROUP BY group_key ORDER BY best_rank, first_id LIMIT ",
    );
    candidates.append(limit.as_str());
    candidates.append(
        ") SELECT m.id, m.score, m.group_key FROM matches m JOIN selected_groups g ON g.group_key = m.group_key ORDER BY g.best_rank, g.first_id, m.score, m.id",
    );
    Ok(SearchPlan { compiled, count_sql: count, candidate_sql: candidates, params })
}

/// A document that was found.
#[derive(Debug)]
pub struct DocumentHit {
    /// The document that stands for all with the same content.
    pub group_id: i64,
    pub document: DocumentRow,
    /// Highlighted ranges of the title.
    pub title_highlights: Vec<Span>,
    /// The fragments that are shown, in the order of the text.
    pub hits: Vec<Hit>,
    /// All fragments of the document, also those beyond the limit.
    pub total_hits: usize,
    /// How well the document matches: the smaller the better.
    pub best_rank: i64,
}

/// Where literals stand in a document.
#[derive(Debug)]
pub struct Located {
    pub content: Vec<Span>,
    pub title: Vec<Span>,
}

/// Looks for the literals in a candidate; `None` where they are neither in the
/// text nor in the title, although the index matched.
pub fn examine(content: &str, title: &str, literals: &Vec<String>) -> (r: Option<Located>)
    ensures
        r is None <==> spans_in(content@, literals@).len() == 0 && spans_in(
            title@,
            literals@,
        ).len() == 0,
        r is Some ==> span_views((r->0).content@) == spans_in(content@, literals@) && span_views(
            (r->0).title@,
        ) == spans_in(title@, literals@),
{
    let found = Located {
        content: locate_literals(content, literals),
        title: locate_literals(title, literals),
    };
    proof {
        assert(span_views(found.content@).len() == found.content@.len());
        assert(span_views(found.title@).len() == found.title@.len());
    }
    if found.content.len() == 0 && found.title.len() == 0 {
        None
    } else {
        Some(found)
    }
}

/// Whether blocks follow each other without overlap.
pub fn bounds_in_order(bounds: &Vec<(usize, usize, String)>) -> (r: bool)
    ensures
        r == in_order(bound_views(bounds@)),
{
    let ghost all = bound_views(bounds@);
    let mut i: usize = 0;
    while i < bounds.len()
        invariant
            i <= bounds@.len(),
            all == bound_views(bounds@),
            forall|k: int| 0 <= k < i ==> (#[trigger] all[k]).0 <= all[k].1,
            forall|j: int, k: int|
                0 <= j < k < i ==> (#[trigger] all[j]).1 <= (#[trigger] all[k]).0,
        decreases bounds@.len() - i,
    {
        assert(all[i as int] == (
            bounds@[i as int].0 as int,
            bounds@[i as int].1 as int,
            bounds@[i as int].2@,
        ));
        if bounds[i].0 > bounds[i].1 {
            return false;
        }
        if i > 0 {
            assert(all[i - 1].1 == bounds@[i - 1].1);
            if bounds[i - 1].1 > bounds[i].0 {
                assert(!(all[i - 1].1 <= all[i as int].0));
                return false;
            }
            assert forall|j: int| 0 <= j < i implies (#[trigger] all[j]).1 <= all[i as int].0 by {
                if j < i - 1 {
                    assert(all[j].1 <= all[i - 1].0);
                    assert(all[i - 1].0 <= all[i - 1].1);
                }
            }
        }
        i += 1;
    }
    true
}

/// What ranking reads of a document: the group, the document and the rank.
pub struct Standing {
    pub group: int,
    pub id: int,
    pub rank: int,
}

/// What ranking reads of documents.
pub open spec fn standings(documents: Seq<DocumentHit>) -> Seq<Standing> {
    documents.map_values(
        |d: DocumentHit|
            Standing {
                group: d.group_id as int,
                id: d.document.id as int,
                rank: d.best_rank as int,
            },
    )
}

/// Some document stands for a group.
pub open spec fn represented(all: Seq<Standing>, group: int) -> bool {
    exists|i: int| 0 <= i < all.len() && (#[trigger] all[i]).id == group && all[i].group == group
}

/// Every document belongs to a group that a document stands for, and no
/// document is listed twice.
pub open spec fn well_grouped(all: Seq<Standing>) -> bool {
    &&& forall|i: int| 0 <= i < all.len() ==> represented(all, (#[trigger] all[i]).group)
    &&& forall|i: int, j: int|
        0 <= i < j < all.len() ==> (#[trigger] all[i]).id != (#[trigger] all[j]).id
}

/// The document that stands for the group of the `i`-th one comes no later.
pub open spec fn has_leader(all: Seq<Standing>, i: int) -> bool {
    exists|j: int|
        0 <= j <= i && (#[trigger] all[j]).id == all[i].group && all[j].group == all[i].group
}

/// The document that stands for a group comes before the others of the group.
pub open spec fn led(all: Seq<Standing>) -> bool {
    forall|i: int| 0 <= i < all.len() ==> #[trigger] has_leader(all, i)
}

/// The documents of a group follow each other.
pub open spec fn side_by_side(all: Seq<Standing>) -> bool {
    forall|i: int, j: int, k: int|
        0 <= i < j < k < all.len() && (#[trigger] all[i]).group == (#[trigger] all[k]).group ==> (
        #[trigger] all[j]).group == all[i].group
}

/// Documents gathered while candidates are gone through group by group.
pub struct Gathering {
    key: Option<String>,
    representative: Option<i64>,
    documents: Vec<DocumentHit>,
}

impl Gathering {
    /// What the candidates of the current group have in common.
    pub closed spec fn key(&self) -> Option<Seq<char>> {
        option_text(self.key)
    }

    /// The document that stands for the current group.
    pub closed spec fn representative(&self) -> Option<i64> {
        self.representative
    }

    /// The documents found so far.
    pub closed spec fn documents(&self) -> Seq<DocumentHit> {
        self.documents@
    }

    #[verifier::type_invariant]
    spec fn inv(self) -> bool {
        &&& well_grouped(standings(self.documents@))
        &&& led(standings(self.documents@))
        &&& self.representative is Some ==> represented(
            standings(self.documents@),
            self.representative->0 as int,
        )
    }

    pub fn new() -> (gathering: Self)
        ensures
            gathering.key() is None,
            gathering.representative() is None,
            gathering.documents().len() == 0,
    {
        Gathering { key: None, representative: None, documents: Vec::new() }
    }

    /// Goes on to a candidate with this key. A key other than the last one
    /// starts a group.
    pub fn enter(&mut self, key: &str)
        ensures
            final(self).documents() == old(self).documents(),
            final(self).key() == Some(key@),
            final(self).representative() == if old(self).key() == Some(key@) {
                old(self).representative()
            } else {
                None
            },
    {
        proof {
            use_type_invariant(&*self);
        }
        let known = match &self.key {
            Some(current) => same(current.as_str(), key),
            None => false,
        };
        if !known {
            self.key = Some(key.to_owned());
            self.representative = None;
        }
    }

    fn holds(&self, id: i64) -> (r: bool)
        ensures
            r <==> exists|i: int|
                0 <= i < self.documents().len() && (#[trigger] self.documents()[i]).document.id
                    == id,
    {
        let mut i: usize = 0;
        while i < self.documents.len()
            invariant
                i <= self.documents@.len(),
                forall|k: int|
                    0 <= k < i ==> (#[trigger] self.documents@[k]).document.id != id,
            decreases self.documents@.len() - i,
        {
            if self.documents[i].document.id == id {
                assert(self.documents()[i as int].document.id == id);
                return true;
            }
            i += 1;
        }
        false
    }

    /// Takes in a candidate in which literals were found. The first one of a
    /// group stands for it. A document that was taken in before is passed over.
    pub fn accept(
        &mut self,
        document: DocumentRow,
        rank: i64,
        content: &str,
        located: Located,
        bounds: &Vec<(usize, usize, String)>,
        max_fragments: usize,
    )
        requires
            in_order(bound_views(bounds@)),
            rising(span_views(located.content@)),
        ensures
            final(self).key() == old(self).key(),
            ({
                let known = exists|i: int|
                    0 <= i < old(self).documents().len() && (#[trigger] old(
                        self,
                    ).documents()[i]).document.id == document.id;
                if known {
                    &&& final(self).documents() == old(self).documents()
                    &&& final(self).representative() == old(self).representative()
                } else {
                    let group = match old(self).representative() {
                        Some(group) => group,
                        None => document.id,
                    };
                    let added = final(self).documents().last();
                    &&& final(self).documents() == old(self).documents().push(added)
                    &&& final(self).representative() == Some(group)
                    &&& added.group_id == group
                    &&& added.document == document
                    &&& added.best_rank == rank
                    &&& added.title_highlights == located.title
                    &&& added.total_hits == fragments_of(
                        content@,
                        span_views(located.content@),
                        bound_views(bounds@),
                        document.title@,
                        usize::MAX as int,
                    ).len()
                    &&& hit_views(added.hits@) == fragments_of(
                        content@,
                        span_views(located.content@),
                        bound_views(bounds@),
                        document.title@,
                        max_fragments as int,
                    )
                }
            }),
    {
        proof {
            use_type_invariant(&*self);
        }
        if self.holds(document.id) {
            return ;
        }
        let ghost before = standings(self.documents@);
        let ghost list = self.documents@;
        let group = match self.representative {
            Some(group) => group,
            None => document.id,
        };
        let mut hits = group_into_fragments(
            content,
            &located.content,
            bounds,
            document.title.as_str(),
            usize::MAX,
        );
        let total_hits = hits.len();
        let ghost every = hits@;
        hits.truncate(max_fragments);
        proof {
            law_limit_keeps_the_first(
                content@,
                span_views(located.content@),
                bound_views(bounds@),
                document.title@,
                max_fragments as int,
                usize::MAX as int,
            );
            assert(hit_views(every).len() == every.len());
            if max_fragments <= every.len() {
                assert(hit_views(hits@) =~= hit_views(every).take(max_fragments as int));
            }
        }
        let added = DocumentHit {
            group_id: group,
            document,
            title_highlights: located.title,
            hits,
            total_hits,
            best_rank: rank,
        };
        let ghost standing = Standing {
            group: group as int,
            id: added.document.id as int,
            rank: rank as int,
        };
        proof {
            let after = before.push(standing);
            assert forall|i: int| 0 <= i < before.len() implies (#[trigger] before[i]).id
                != standing.id by {
                assert(before[i].id == list[i].document.id);
                assert(self.documents()[i].document.id != added.document.id);
            }
            assert forall|g: int| represented(before, g) implies represented(after, g) by {
                let i = choose|i: int|
                    0 <= i < before.len() && (#[trigger] before[i]).id == g && before[i].group == g;
                assert(after[i] == before[i]);
            }
            assert(represented(after, group as int)) by {
                if self.representative is None {
                    assert(after[before.len() as int] == standing);
                }
            }
            assert forall|i: int| 0 <= i < after.len() implies represented(
                after,
                (#[trigger] after[i]).group,
            ) by {
                if i < before.len() {
                    assert(after[i] == before[i]);
                }
            }
            assert(well_grouped(after));
            assert forall|i: int| 0 <= i < after.len() implies #[trigger] has_leader(after, i) by {
                if i < before.len() {
                    assert(has_leader(before, i));
                    let j = choose|j: int|
                        0 <= j <= i && (#[trigger] before[j]).id == before[i].group
                            && before[j].group == before[i].group;
                    assert(after[j] == before[j] && after[i] == before[i]);
                } else {
                    assert(after[i] == standing);
                    assert(represented(after, group as int));
                }
            }
            assert(standings(list.push(added)) =~= after);
        }
        self.representative = None;
        let mut documents: Vec<DocumentHit> = Vec::new();
        core::mem::swap(&mut documents, &mut self.documents);
        documents.push(added);
        self.documents = documents;
        self.representative = Some(group);
    }
}

/// The rank of the document that stands for a group.
pub open spec fn group_rank(all: Seq<Standing>, group: int) -> int
    decreases all.len(),
{
    if all.len() == 0 {
        0
    } else if all[0].id == group && all[0].group == group {
        all[0].rank
    } else {
        group_rank(all.drop_first(), group)
    }
}

/// One group comes before another: by the rank of the document that stands for
/// it, then by that document.
pub open spec fn ahead(rank: int, group: int, other_rank: int, other: int) -> bool {
    rank < other_rank || (rank == other_rank && group < other)
}

/// Number of groups that come before a group with this rank.
pub open spec fn groups_ahead(all: Seq<Standing>, rank: int, group: int) -> nat
    decreases all.len(),
{
    if all.len() == 0 {
        0
    } else {
        let last = all.last();
        groups_ahead(all.drop_last(), rank, group) + if last.id == last.group && ahead(
            last.rank,
            last.id,
            rank,
            group,
        ) {
            1nat
        } else {
            0
        }
    }
}

/// The place of the group that the `i`-th document belongs to.
pub open spec fn place(all: Seq<Standing>, i: int) -> nat {
    groups_ahead(all, group_rank(all, all[i].group), all[i].group)
}

/// Those of the first `n` documents whose group has the place `p`.
pub open spec fn members_at(all: Seq<Standing>, p: int, n: int) -> Seq<int>
    decreases n,
{
    if n <= 0 {
        Seq::empty()
    } else if place(all, n - 1) == p {
        members_at(all, p, n - 1).push(n - 1)
    } else {
        members_at(all, p, n - 1)
    }
}

/// The documents of the first `n` groups, in the order of the groups.
pub open spec fn ranked(all: Seq<Standing>, n: int) -> Seq<int>
    decreases n,
{
    if n <= 0 {
        Seq::empty()
    } else {
        ranked(all, n - 1) + members_at(all, n - 1, all.len() as int)
    }
}

/// The documents that are shown when there is room for `limit` groups.
pub open spec fn shown_order(all: Seq<Standing>, limit: int) -> Seq<int> {
    ranked(
        all,
        if limit < all.len() {
            limit
        } else {
            all.len() as int
        },
    )
}

/// What ranking reads of the documents that are shown, in their order.
pub open spec fn shown_standings(all: Seq<Standing>, limit: int) -> Seq<Standing> {
    shown_order(all, limit).map_values(|i: int| all[i])
}

/// Documents picked out by their indices.
pub open spec fn picked(documents: Seq<DocumentHit>, order: Seq<int>) -> Seq<DocumentHit> {
    order.map_values(|i: int| documents[i])
}

/// Number of fragments of documents that stand for their groups.
pub open spec fn fragment_total(documents: Seq<DocumentHit>) -> int
    decreases documents.len(),
{
    if documents.len() == 0 {
        0
    } else {
        let last = documents.last();
        fragment_total(documents.drop_last()) + if last.group_id == last.document.id {
            last.hits@.len() as int
        } else {
            0
        }
    }
}

fn rank_of_group(documents: &Vec<DocumentHit>, group: i64) -> (rank: i64)
    ensures
        rank == group_rank(standings(documents@), group as int),
{
    let ghost all = standings(documents@);
    let mut i: usize = 0;
    assert(all.skip(0) =~= all);
    while i < documents.len()
        invariant
            i <= documents@.len(),
            all == standings(documents@),
            group_rank(all.skip(i as int), group as int) == group_rank(all, group as int),
        decreases documents@.len() - i,
    {
        assert(all.skip(i as int)[0] == all[i as int]);
        assert(all.skip(i as int).drop_first() =~= all.skip(i + 1));
        if documents[i].document.id == group && documents[i].group_id == group {
            return documents[i].best_rank;
        }
        i += 1;
    }
    0
}

fn count_ahead(documents: &Vec<DocumentHit>, rank: i64, group: i64) -> (n: usize)
    ensures
        n == groups_ahead(standings(documents@), rank as int, group as int),
        n <= documents@.len(),
{
    let ghost all = standings(documents@);
    let mut n: usize = 0;
    let mut i: usize = 0;
    assert(all.take(0) =~= Seq::empty());
    while i < documents.len()
        invariant
            n <= i <= documents@.len(),
            all == standings(documents@),
            n == groups_ahead(all.take(i as int), rank as int, group as int),
        decreases documents@.len() - i,
    {
        assert(all.take(i + 1).drop_last() =~= all.take(i as int));
        assert(all.take(i + 1).last() == all[i as int]);
        let d = &documents[i];
        let id = d.document.id;
        if id == d.group_id && (d.best_rank < rank || (d.best_rank == rank && id < group)) {
            n += 1;
        }
        i += 1;
    }
    assert(all.take(i as int) =~= all);
    n
}

/// Indices without the representation.
pub open spec fn index_views(order: Seq<usize>) -> Seq<int> {
    order.map_values(|i: usize| i as int)
}

/// The indices of the documents that are shown, group by group.
fn order_of(documents: &Vec<DocumentHit>, limit: usize) -> (order: Vec<usize>)
    ensures
        index_views(order@) == shown_order(standings(documents@), limit as int),
        order@.no_duplicates(),
        forall|k: int| 0 <= k < order@.len() ==> #[trigger] order@[k] < documents@.len(),
{
    let ghost all = standings(documents@);
    let total = documents.len();
    let mut places: Vec<usize> = Vec::new();
    let mut i: usize = 0;
    while i < total
        invariant
            i <= total == documents@.len(),
            all == standings(documents@),
            places@.len() == i,
            forall|k: int| 0 <= k < i ==> #[trigger] places@[k] == place(all, k),
        decreases total - i,
    {
        assert(all[i as int].group == documents@[i as int].group_id);
        let group = documents[i].group_id;
        let rank = rank_of_group(documents, group);
        places.push(count_ahead(documents, rank, group));
        i += 1;
    }
    let rounds = if limit < total {
        limit
    } else {
        total
    };
    let mut order: Vec<usize> = Vec::new();
    let mut p: usize = 0;
    assert(index_views(order@) =~= Seq::empty());
    while p < rounds
        invariant
            p <= rounds,
            total == documents@.len() == places@.len(),
            all == standings(documents@),
            forall|k: int| 0 <= k < total ==> #[trigger] places@[k] == place(all, k),
            index_views(order@) == ranked(all, p as int),
            order@.no_duplicates(),
            forall|k: int|
                0 <= k < order@.len() ==> #[trigger] order@[k] < total && places@[order@[k] as int] < p,
        decreases rounds - p,
    {
        let ghost before = index_views(order@);
        let mut i: usize = 0;
        assert(before + members_at(all, p as int, 0) =~= before);
        while i < total
            invariant
                i <= total,
                p < rounds,
                total == documents@.len() == places@.len(),
                all == standings(documents@),
                forall|k: int| 0 <= k < total ==> #[trigger] places@[k] == place(all, k),
                index_views(order@) == before + members_at(all, p as int, i as int),
                order@.no_duplicates(),
                forall|k: int|
                    0 <= k < order@.len() ==> #[trigger] order@[k] < total && (
                    places@[order@[k] as int] < p || (places@[order@[k] as int] == p && order@[k]
                        < i)),
            decreases total - i,
        {
            assert(places@[i as int] == place(all, i as int));
            if places[i] == p {
                let ghost list = order@;
                order.push(i);
                assert(index_views(order@) =~= index_views(list).push(i as int));
                assert(index_views(order@) =~= before + members_at(all, p as int, i + 1));
            }
            i += 1;
        }
        p += 1;
    }
    order
}

/// Puts the documents that were found into the order in which they are shown:
/// the best groups, up to the limit, with all documents of each. The document that
/// stands for a group comes first in it. Also counts the fragments of the documents
/// that stand for those groups.
pub fn finish(gathering: Gathering, max_documents: usize) -> (r: (Vec<DocumentHit>, usize))
    ensures
        r.0@ == picked(
            gathering.documents(),
            shown_order(standings(gathering.documents()), max_documents as int),
        ),
        r.1 == if fragment_total(r.0@) <= usize::MAX {
            fragment_total(r.0@)
        } else {
            usize::MAX as int
        },
        well_grouped(standings(r.0@)),
        led(standings(r.0@)),
        side_by_side(standings(r.0@)),
{
    proof {
        use_type_invariant(&gathering);
    }
    let ghost all = gathering.documents();
    let order = order_of(&gathering.documents, max_documents);
    let mut source = gathering.documents;
    let mut pool: Vec<Option<DocumentHit>> = Vec::new();
    while source.len() > 0
        invariant
            source@.len() + pool@.len() == all.len(),
            source@ == all.take(source@.len() as int),
            forall|k: int|
                0 <= k < pool@.len() ==> #[trigger] pool@[k] == Some(all[all.len() - 1 - k]),
        decreases source@.len(),
    {
        let ghost n = source@.len();
        match source.pop() {
            Some(document) => {
                assert(document == all[n - 1]);
                pool.push(Some(document));
            },
            None => {},
        }
    }
    let total = pool.len();
    let mut shown: Vec<DocumentHit> = Vec::new();
    let mut fragments: usize = 0;
    let mut i: usize = 0;
    assert(shown@ =~= picked(all, index_views(order@).take(0)));
    while i < order.len()
        invariant
            i <= order@.len(),
            total == pool@.len() == all.len(),
            order@.no_duplicates(),
            forall|k: int| 0 <= k < order@.len() ==> #[trigger] order@[k] < total,
            forall|k: int|
                i <= k < order@.len() ==> #[trigger] pool@[total - 1 - order@[k]] == Some(
                    all[order@[k] as int],
                ),
            shown@ == picked(all, index_views(order@).take(i as int)),
            fragments == if fragment_total(shown@) <= usize::MAX {
                fragment_total(shown@)
            } else {
                usize::MAX as int
            },
            fragment_total(shown@) >= 0,
        decreases order@.len() - i,
    {
        let k = order[i];
        let ghost before = shown@;
        let ghost slots = pool@;
        let slot = total - 1 - k;
        let mut taken: Option<DocumentHit> = None;
        assert(pool@[total - 1 - order@[i as int]] == Some(all[order@[i as int] as int]));
        core::mem::swap(&mut taken, &mut pool[slot]);
        match taken {
            Some(document) => {
                assert(document == all[k as int]);
                if document.group_id == document.document.id {
                    fragments = fragments.saturating_add(document.hits.len());
                }
                shown.push(document);
                assert(shown@.drop_last() =~= before);
                assert(index_views(order@).take(i + 1) =~= index_views(order@).take(i as int).push(
                    k as int,
                ));
                assert(shown@ =~= picked(all, index_views(order@).take(i + 1)));
            },
            None => {
                assert(false);
            },
        }
        i += 1;
        assert forall|m: int| i <= m < order@.len() implies #[trigger] pool@[total - 1 - order@[m]]
            == Some(all[order@[m] as int]) by {
            assert(order@[m] != order@[i - 1]);
            assert(slots[total - 1 - order@[m]] == Some(all[order@[m] as int]));
        }
    }
    assert(index_views(order@).take(i as int) =~= index_views(order@));
    proof {
        let limit = max_documents as int;
        let found = standings(all);
        law_shown_groups_are_led(found, limit);
        assert(standings(shown@) =~= shown_standings(found, limit)) by {
            let list = shown_order(found, limit);
            assert forall|k: int| 0 <= k < list.len() implies standings(shown@)[k]
                == shown_standings(found, limit)[k] by {
                assert(0 <= list[k] < found.len());
                assert(shown@[k] == all[list[k]]);
            }
        }
    }
    (shown, fragments)
}

/// What a search came to.
#[derive(Debug)]
pub struct SearchResponse {
    /// The documents of the groups that are shown, group by group.
    pub documents: Vec<DocumentHit>,
    /// Fragments of the documents that stand for those groups.
    pub total_hits: usize,
    /// Documents that the index matched.
    pub total_documents: usize,
    /// Groups of documents with the same content that the index matched.
    pub total_groups: usize,
    pub compiled: CompiledQuery,
}

/// Those of the first `n` documents that stand for their groups.
pub open spec fn standing_ones(documents: Seq<DocumentHit>, n: int) -> Seq<int>
    decreases n,
{
    if n <= 0 {
        Seq::empty()
    } else if documents[n - 1].document.id == documents[n - 1].group_id {
        standing_ones(documents, n - 1).push(n - 1)
    } else {
        standing_ones(documents, n - 1)
    }
}

/// Those of the first `n` documents that belong to a group.
pub open spec fn members_of(documents: Seq<DocumentHit>, group: i64, n: int) -> Seq<int>
    decreases n,
{
    if n <= 0 {
        Seq::empty()
    } else if documents[n - 1].group_id == group {
        members_of(documents, group, n - 1).push(n - 1)
    } else {
        members_of(documents, group, n - 1)
    }
}

impl SearchResponse {
    /// The indices of the documents that stand for their groups.
    pub fn representatives(&self) -> (r: Vec<usize>)
        ensures
            index_views(r@) == standing_ones(self.documents@, self.documents@.len() as int),
    {
        let mut r: Vec<usize> = Vec::new();
        let mut i: usize = 0;
        assert(index_views(r@) =~= Seq::empty());
        while i < self.documents.len()
            invariant
                i <= self.documents@.len(),
                index_views(r@) == standing_ones(self.documents@, i as int),
            decreases self.documents@.len() - i,
        {
            if self.documents[i].document.id == self.documents[i].group_id {
                let ghost before = index_views(r@);
                r.push(i);
                assert(index_views(r@) =~= before.push(i as int));
            }
            i += 1;
        }
        r
    }

    /// The indices of the documents of a group.
    pub fn locations(&self, group_id: i64) -> (r: Vec<usize>)
        ensures
            index_views(r@) == members_of(
                self.documents@,
                group_id,
                self.documents@.len() as int,
            ),
    {
        let mut r: Vec<usize> = Vec::new();
        let mut i: usize = 0;
        assert(index_views(r@) =~= Seq::empty());
        while i < self.documents.len()
            invariant
                i <= self.documents@.len(),
                index_views(r@) == members_of(self.documents@, group_id, i as int),
            decreases self.documents@.len() - i,
        {
            if self.documents[i].group_id == group_id {
                let ghost before = index_views(r@);
                r.push(i);
                assert(index_views(r@) =~= before.push(i as int));
            }
            i += 1;
        }
        r
    }
}

} // verus!
