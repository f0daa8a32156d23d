//! What is shown next to the search results: the part of a document around a
//! hit, its highlighted pieces, and the state of the preview.

use vstd::prelude::*;

use crate::query::Scope;
use crate::search::{DocumentHit, Hit, SearchResponse, Span};
use crate::text::{
    byte_len, is_boundary, lemma_char_at, lemma_offset_monotonic, len_of, offset, on_boundary,
    slice, slice_of,
};

verus! {

/// Texts up to this many bytes are shown as a whole.
pub const PREVIEW_MAX_BYTES: usize = 2_097_152;

/// Bytes that are shown of longer texts on either side of a hit.
pub const PREVIEW_WINDOW_BYTES: usize = 102_400;

/// The last character boundary up to `b`.
pub open spec fn boundary_before(s: Seq<char>, b: int) -> int
    decreases b,
{
    if b <= 0 {
        0
    } else if on_boundary(s, b) {
        b
    } else {
        boundary_before(s, b - 1)
    }
}

/// The first character boundary from `b` on.
pub open spec fn boundary_after(s: Seq<char>, b: int) -> int
    decreases byte_len(s) - b,
{
    if b >= byte_len(s) {
        byte_len(s)
    } else if on_boundary(s, b) {
        b
    } else {
        boundary_after(s, b + 1)
    }
}

/// The byte range that is shown around an offset.
pub open spec fn window_range(s: Seq<char>, anchor: int) -> (int, int) {
    let total = byte_len(s);
    if total <= PREVIEW_MAX_BYTES {
        (0, total)
    } else {
        let center = if anchor < total {
            anchor
        } else {
            total
        };
        (
            boundary_before(s, center - PREVIEW_WINDOW_BYTES),
            boundary_after(s, center + PREVIEW_WINDOW_BYTES),
        )
    }
}

proof fn lemma_ends_are_boundaries(s: Seq<char>)
    ensures
        on_boundary(s, 0),
        on_boundary(s, byte_len(s)),
        byte_len(s) >= 0,
{
    lemma_char_at(s, 0);
    lemma_char_at(s, s.len() as int);
    lemma_offset_monotonic(s, 0, s.len() as int);
}

proof fn lemma_boundary_before(s: Seq<char>, b: int)
    ensures
        on_boundary(s, boundary_before(s, b)),
        0 <= boundary_before(s, b),
        b >= 0 ==> boundary_before(s, b) <= b,
    decreases b,
{
    lemma_ends_are_boundaries(s);
    if b > 0 && !on_boundary(s, b) {
        lemma_boundary_before(s, b - 1);
    }
}

proof fn lemma_boundary_after(s: Seq<char>, b: int)
    ensures
        on_boundary(s, boundary_after(s, b)),
        boundary_after(s, b) <= byte_len(s),
        b <= byte_len(s) ==> b <= boundary_after(s, b),
    decreases byte_len(s) - b,
{
    lemma_ends_are_boundaries(s);
    if b < byte_len(s) && !on_boundary(s, b) {
        lemma_boundary_after(s, b + 1);
    }
}

/// The part of a text that is shown around an offset, and where it starts. Long
/// texts are cut down to a window whose ends lie on character boundaries.
pub fn preview_window(text: &str, anchor: usize) -> (r: (&str, usize))
    ensures
        ({
            let (start, end) = window_range(text@, anchor as int);
            r.0@ == slice(text@, start, end) && r.1 == start
        }),
{
    let ghost s = text@;
    let total = len_of(text);
    if total <= PREVIEW_MAX_BYTES {
        proof {
            lemma_ends_are_boundaries(s);
            lemma_char_at(s, 0);
            lemma_char_at(s, s.len() as int);
            assert(slice(s, 0, byte_len(s)) =~= s);
        }
        return (text, 0);
    }
    let center = if anchor < total {
        anchor
    } else {
        total
    };
    let mut start: usize = if center > PREVIEW_WINDOW_BYTES {
        center - PREVIEW_WINDOW_BYTES
    } else {
        0
    };
    while start > 0 && !is_boundary(text, start)
        invariant
            s == text@,
            start <= center,
            boundary_before(s, start as int) == boundary_before(s, center - PREVIEW_WINDOW_BYTES),
        decreases start,
    {
        start -= 1;
    }
    let mut end: usize = if total - center > PREVIEW_WINDOW_BYTES {
        center + PREVIEW_WINDOW_BYTES
    } else {
        total
    };
    while end < total && !is_boundary(text, end)
        invariant
            s == text@,
            total == byte_len(s),
            center <= end <= total,
            boundary_after(s, end as int) == boundary_after(s, center + PREVIEW_WINDOW_BYTES),
        decreases total - end,
    {
        end += 1;
    }
    proof {
        lemma_boundary_before(s, start as int);
        lemma_boundary_after(s, end as int);
    }
    (slice_of(text, start, end), start)
}

/// The window lies on character boundaries and has the offset that it was made
/// for.
pub proof fn law_window_has_its_anchor(s: Seq<char>, anchor: int)
    requires
        0 <= anchor <= byte_len(s),
    ensures
        ({
            let (start, end) = window_range(s, anchor);
            &&& 0 <= start <= anchor <= end <= byte_len(s)
            &&& on_boundary(s, start)
            &&& on_boundary(s, end)
        }),
{
    lemma_ends_are_boundaries(s);
    lemma_boundary_before(s, anchor - PREVIEW_WINDOW_BYTES);
    lemma_boundary_after(s, anchor + PREVIEW_WINDOW_BYTES);
}

proof fn lemma_before_is_near(s: Seq<char>, b: int)
    requires
        b <= byte_len(s),
    ensures
        boundary_before(s, b) > b - 4,
{
    if b > 0 {
        lemma_near(s, b, s.len() as int);
    }
}

/// Some boundary is less than four bytes before `b`.
proof fn lemma_near(s: Seq<char>, b: int, k: int)
    requires
        0 <= k <= s.len(),
        0 <= b <= offset(s, k),
    ensures
        boundary_before(s, b) > b - 4,
    decreases k,
{
    if k == 0 {
    } else if b <= offset(s, k - 1) {
        lemma_near(s, b, k - 1);
    } else {
        let a = offset(s, k - 1);
        lemma_char_at(s, k - 1);
        lemma_char_at(s, k);
        lemma_offset_monotonic(s, 0, k - 1);
        lemma_step_down(s, b, a);
    }
}

proof fn lemma_step_down(s: Seq<char>, b: int, a: int)
    requires
        0 <= a <= b,
        on_boundary(s, a),
    ensures
        a <= boundary_before(s, b),
    decreases b - a,
{
    if a < b && !on_boundary(s, b) {
        lemma_step_down(s, b - 1, a);
    }
}

/// Some boundary is less than four bytes behind `b`.
proof fn lemma_after_is_near(s: Seq<char>, b: int, k: int)
    requires
        0 <= k <= s.len(),
        0 <= b <= offset(s, k),
    ensures
        boundary_after(s, b) < b + 4,
    decreases k,
{
    lemma_ends_are_boundaries(s);
    if k == 0 {
        lemma_char_at(s, 0);
    } else if b <= offset(s, k - 1) {
        lemma_after_is_near(s, b, k - 1);
    } else {
        lemma_char_at(s, k - 1);
        lemma_char_at(s, k);
        lemma_offset_monotonic(s, k, s.len() as int);
        lemma_step_up(s, b, offset(s, k));
    }
}

proof fn lemma_step_up(s: Seq<char>, b: int, c: int)
    requires
        b <= c <= byte_len(s),
        on_boundary(s, c),
    ensures
        boundary_after(s, b) <= c,
    decreases c - b,
{
    if b < c && !on_boundary(s, b) {
        lemma_step_up(s, b + 1, c);
    }
}

/// A window of a long text reaches as far as it may on either side of the offset,
/// to the end of the text at most, and no further than to the end of a character
/// that is cut through.
pub proof fn law_window_keeps_near_its_anchor(s: Seq<char>, anchor: int)
    requires
        byte_len(s) > PREVIEW_MAX_BYTES,
        0 <= anchor <= byte_len(s),
    ensures
        ({
            let (start, end) = window_range(s, anchor);
            let low = anchor - PREVIEW_WINDOW_BYTES;
            let high = anchor + PREVIEW_WINDOW_BYTES;
            &&& if low <= 0 {
                start == 0
            } else {
                low - 4 < start <= low
            }
            &&& if high >= byte_len(s) {
                end == byte_len(s)
            } else {
                high <= end < high + 4
            }
        }),
{
    let low = anchor - PREVIEW_WINDOW_BYTES;
    let high = anchor + PREVIEW_WINDOW_BYTES;
    lemma_boundary_before(s, low);
    lemma_boundary_after(s, high);
    lemma_before_is_near(s, low);
    if high < byte_len(s) {
        lemma_after_is_near(s, high, s.len() as int);
    }
}

/// A piece of a text that is shown: its byte range, and whether it is
/// highlighted.
#[derive(Debug, Clone, Copy, PartialEq, Eq, Structural)]
pub struct Segment {
    pub start: usize,
    pub end: usize,
    pub marked: bool,
}

/// Pieces of a text and how far they reach.
pub struct Pieces {
    pub segments: Seq<Segment>,
    pub reach: int,
}

/// The pieces with one more span. A span is cut off at the ends of the text,
/// which starts at `base` and has `total` bytes.
pub open spec fn with_span(pieces: Pieces, base: int, total: int, span: Span) -> Pieces {
    if span.end <= base || span.start >= base + total {
        pieces
    } else {
        let start = if span.start > base {
            span.start - base
        } else {
            0
        };
        let end = if span.end < base + total {
            span.end - base
        } else {
            total
        };
        let plain = if start > pieces.reach {
            pieces.segments.push(
                Segment { start: pieces.reach as usize, end: start as usize, marked: false },
            )
        } else {
            pieces.segments
        };
        Pieces {
            segments: if end > start {
                plain.push(Segment { start: start as usize, end: end as usize, marked: true })
            } else {
                plain
            },
            reach: if end > pieces.reach {
                end
            } else {
                pieces.reach
            },
        }
    }
}

/// The pieces up to the last span.
pub open spec fn pieces_of(base: int, total: int, spans: Seq<Span>) -> Pieces
    decreases spans.len(),
{
    if spans.len() == 0 {
        Pieces { segments: Seq::empty(), reach: 0 }
    } else {
        with_span(pieces_of(base, total, spans.drop_last()), base, total, spans.last())
    }
}

/// The pieces of a text of `total` bytes that starts at `base`.
pub open spec fn segments_of(base: int, total: int, spans: Seq<Span>) -> Seq<Segment> {
    let pieces = pieces_of(base, total, spans);
    if pieces.reach < total {
        pieces.segments.push(
            Segment { start: pieces.reach as usize, end: total as usize, marked: false },
        )
    } else {
        pieces.segments
    }
}

/// Divides a text that starts at `base` of a document into highlighted and
/// other pieces. The spans are ranges of the document.
pub fn segments(text: &str, base: usize, spans: &Vec<Span>) -> (r: Vec<Segment>)
    requires
        base + byte_len(text@) <= usize::MAX,
    ensures
        r@ == segments_of(base as int, byte_len(text@), spans@),
{
    let total = len_of(text);
    let limit = base + total;
    let mut r: Vec<Segment> = Vec::new();
    let mut reach: usize = 0;
    let mut i: usize = 0;
    assert(spans@.take(0) =~= Seq::empty());
    while i < spans.len()
        invariant
            i <= spans@.len(),
            limit == base + total,
            reach <= total,
            r@ == pieces_of(base as int, total as int, spans@.take(i as int)).segments,
            reach == pieces_of(base as int, total as int, spans@.take(i as int)).reach,
        decreases spans@.len() - i,
    {
        assert(spans@.take(i + 1).drop_last() =~= spans@.take(i as int));
        let span = spans[i];
        if span.end > base && span.start < limit {
            let start = if span.start > base {
                span.start - base
            } else {
                0
            };
            let end = if span.end < limit {
                span.end - base
            } else {
                total
            };
            if start > reach {
                r.push(Segment { start: reach, end: start, marked: false });
            }
            if end > start {
                r.push(Segment { start, end, marked: true });
            }
            if end > reach {
                reach = end;
            }
        }
        i += 1;
    }
    assert(spans@.take(i as int) =~= spans@);
    if reach < total {
        r.push(Segment { start: reach, end: total, marked: false });
    }
    r
}

/// Pieces that follow each other from the start of a text to `reach`.
pub open spec fn chained_segments(segments: Seq<Segment>, reach: int) -> bool {
    &&& segments.len() == 0 ==> reach == 0
    &&& segments.len() > 0 ==> segments[0].start == 0 && segments.last().end == reach
    &&& forall|i: int| 0 <= i < segments.len() ==> (#[trigger] segments[i]).start < segments[i].end
    &&& forall|i: int|
        0 <= i < segments.len() - 1 ==> (#[trigger] segments[i]).end == segments[i + 1].start
}

/// The spans are not empty and do not overlap.
pub open spec fn disjoint(spans: Seq<Span>) -> bool {
    &&& forall|i: int| 0 <= i < spans.len() ==> (#[trigger] spans[i]).start < spans[i].end
    &&& forall|i: int, j: int|
        0 <= i < j < spans.len() ==> (#[trigger] spans[i]).end <= (#[trigger] spans[j]).start
}

proof fn lemma_pieces_chain(base: int, total: int, spans: Seq<Span>)
    requires
        0 <= base,
        0 <= total,
        base + total <= usize::MAX,
        disjoint(spans),
    ensures
        ({
            let pieces = pieces_of(base, total, spans);
            &&& chained_segments(pieces.segments, pieces.reach)
            &&& 0 <= pieces.reach <= total
            &&& pieces.reach > 0 ==> spans.len() > 0 && pieces.reach + base <= spans.last().end
        }),
    decreases spans.len(),
{
    if spans.len() > 0 {
        let init = spans.drop_last();
        assert(disjoint(init)) by {
            assert forall|i: int| 0 <= i < init.len() implies (#[trigger] init[i]).start
                < init[i].end by {
                assert(init[i] == spans[i]);
            }
            assert forall|i: int, j: int| 0 <= i < j < init.len() implies (#[trigger] init[i]).end
                <= (#[trigger] init[j]).start by {
                assert(init[i] == spans[i] && init[j] == spans[j]);
            }
        }
        lemma_pieces_chain(base, total, init);
        let before = pieces_of(base, total, init);
        let span = spans.last();
        if init.len() > 0 {
            assert(init.last() == spans[spans.len() - 2]);
            assert(spans[spans.len() - 2].end <= spans[spans.len() - 1].start);
        }
        if !(span.end <= base || span.start >= base + total) {
            let start = if span.start > base {
                span.start - base
            } else {
                0
            };
            assert(before.reach <= start);
        }
    }
}

/// The pieces of a text lie one behind the other and make up all of it, so that
/// nothing is shown twice or left out.
pub proof fn law_segments_make_up_the_text(base: int, total: int, spans: Seq<Span>)
    requires
        0 <= base,
        0 <= total,
        base + total <= usize::MAX,
        disjoint(spans),
    ensures
        chained_segments(segments_of(base, total, spans), total),
{
    lemma_pieces_chain(base, total, spans);
}

/// Where a fragment is scrolled to: its first highlighted range.
pub open spec fn hit_place(hit: Hit) -> int {
    hit.start_offset + if hit.highlights@.len() > 0 {
        hit.highlights@[0].start as int
    } else {
        0
    }
}

/// Where a fragment is scrolled to.
pub fn hit_offset(hit: &Hit) -> (n: usize)
    requires
        hit_place(*hit) <= usize::MAX,
    ensures
        n == hit_place(*hit),
{
    if hit.highlights.len() > 0 {
        hit.start_offset + hit.highlights[0].start
    } else {
        hit.start_offset
    }
}

/// Numbers in rising order.
pub open spec fn ascending(v: Seq<usize>) -> bool {
    forall|i: int, j: int| 0 <= i < j < v.len() ==> #[trigger] v[i] <= #[trigger] v[j]
}

/// Where the fragments of a document are scrolled to.
pub open spec fn hit_places(hits: Seq<Hit>) -> Seq<usize> {
    hits.map_values(|hit: Hit| hit_place(hit) as usize)
}

/// Where the fragments of a document are scrolled to, in the order of the text.
pub fn preview_hit_offsets(doc_hit: &DocumentHit) -> (r: Vec<usize>)
    requires
        forall|i: int|
            0 <= i < doc_hit.hits@.len() ==> hit_place(#[trigger] doc_hit.hits@[i]) <= usize::MAX,
    ensures
        ascending(r@),
        r@.to_multiset() == hit_places(doc_hit.hits@).to_multiset(),
{
    let ghost all = hit_places(doc_hit.hits@);
    let mut r: Vec<usize> = Vec::new();
    let mut i: usize = 0;
    assert(all.take(0) =~= Seq::empty());
    assert(r@ =~= all.take(0));
    while i < doc_hit.hits.len()
        invariant
            i <= doc_hit.hits@.len(),
            all == hit_places(doc_hit.hits@),
            forall|k: int|
                0 <= k < doc_hit.hits@.len() ==> hit_place(#[trigger] doc_hit.hits@[k])
                    <= usize::MAX,
            ascending(r@),
            r@.to_multiset() == all.take(i as int).to_multiset(),
        decreases doc_hit.hits@.len() - i,
    {
        let n = hit_offset(&doc_hit.hits[i]);
        let ghost before = r@;
        let mut p: usize = r.len();
        while p > 0 && r[p - 1] > n
            invariant
                p <= r@.len(),
                ascending(r@),
                forall|k: int| p <= k < r@.len() ==> #[trigger] r@[k] > n,
            decreases p,
        {
            p -= 1;
        }
        r.insert(p, n);
        proof {
            assert(all.take(i + 1) =~= all.take(i as int).push(n));
            all.take(i as int).to_multiset_ensures();
            before.to_multiset_ensures();
            lemma_insert_multiset(before, p as int, n);
            assert forall|a: int, b: int| 0 <= a < b < r@.len() implies #[trigger] r@[a]
                <= #[trigger] r@[b] by {
                let x = if a < p {
                    before[a]
                } else if a == p {
                    n
                } else {
                    before[a - 1]
                };
                let y = if b < p {
                    before[b]
                } else if b == p {
                    n
                } else {
                    before[b - 1]
                };
                assert(r@[a] == x && r@[b] == y);
                if b == p && a < p {
                    assert(before[a] <= before[p - 1]);
                }
            }
        }
        i += 1;
    }
    assert(all.take(i as int) =~= all);
    r
}

proof fn lemma_insert_multiset(v: Seq<usize>, p: int, n: usize)
    requires
        0 <= p <= v.len(),
    ensures
        v.insert(p, n).to_multiset() == v.to_multiset().insert(n),
{
    v.to_multiset_ensures();
    v.insert_ensures(p, n);
    let head = v.take(p);
    let tail = v.skip(p);
    assert(v =~= head + tail);
    assert(v.insert(p, n) =~= head.push(n) + tail);
    head.to_multiset_ensures();
    vstd::seq_lib::lemma_multiset_commutative(head, tail);
    vstd::seq_lib::lemma_multiset_commutative(head.push(n), tail);
    assert(v.insert(p, n).to_multiset() =~= v.to_multiset().insert(n));
}

/// The name of a scope on screen.
pub fn scope_label(scope: Scope) -> (s: &'static str)
    ensures
        s@ == match scope {
            Scope::All => "全部"@,
            Scope::Title => "标题"@,
            Scope::Content => "正文"@,
        },
{
    match scope {
        Scope::All => "全部",
        Scope::Title => "标题",
        Scope::Content => "正文",
    }
}

/// The name of a range of days on screen.
pub fn mtime_label(days: Option<u64>) -> (s: &'static str)
    ensures
        s@ == match days {
            None => "全部时间"@,
            Some(n) => if n == 7 {
                "最近 7 天"@
            } else if n == 30 {
                "最近 30 天"@
            } else if n == 365 {
                "最近一年"@
            } else {
                "自定义"@
            },
        },
{
    match days {
        None => "全部时间",
        Some(n) => if n == 7 {
            "最近 7 天"
        } else if n == 30 {
            "最近 30 天"
        } else if n == 365 {
            "最近一年"
        } else {
            "自定义"
        },
    }
}

/// Highlighted ranges of the part of a document that is shown, with what they
/// were made from.
#[derive(Debug)]
pub struct PreviewSpanCache {
    pub preview_gen: u64,
    pub base: usize,
    pub window_len: usize,
    pub literals: Vec<String>,
    pub spans: Vec<Span>,
}

/// The state of the preview.
#[derive(Debug)]
pub struct Preview {
    /// The document that is shown.
    pub doc_id: Option<i64>,
    /// Its text once it is loaded.
    pub text: Option<String>,
    /// The fragment that is shown.
    pub hit_index: usize,
    /// The offset around which long texts are shown.
    pub anchor: usize,
    /// The offset that is still to be scrolled to.
    pub pending_scroll: Option<usize>,
    /// Tells texts that were asked for before from the current one.
    pub generation: u64,
    pub loading: bool,
    pub spans_cache: Option<PreviewSpanCache>,
    /// The document that was picked of each group.
    pub locations: Vec<(i64, i64)>,
    /// The group whose documents are listed.
    pub popup_group: Option<i64>,
}

/// The index of the first document from the `i`-th on with an id.
pub open spec fn document_from(documents: Seq<DocumentHit>, id: i64, i: int) -> Option<int>
    decreases documents.len() - i,
{
    if i < 0 || i >= documents.len() {
        None
    } else if documents[i].document.id == id {
        Some(i)
    } else {
        document_from(documents, id, i + 1)
    }
}

/// Finds a document by its id.
pub fn find_document(documents: &Vec<DocumentHit>, id: i64) -> (r: Option<usize>)
    ensures
        (match r {
            Some(i) => Some(i as int),
            None => None,
        }) == document_from(documents@, id, 0),
        r is Some ==> r->0 < documents@.len() && documents@[r->0 as int].document.id == id,
{
    let mut i: usize = 0;
    while i < documents.len()
        invariant
            i <= documents@.len(),
            document_from(documents@, id, i as int) == document_from(documents@, id, 0),
        decreases documents@.len() - i,
    {
        if documents[i].document.id == id {
            return Some(i);
        }
        i += 1;
    }
    None
}

/// The choices with one for a group, in place of the one before.
pub open spec fn chosen(locations: Seq<(i64, i64)>, group: i64, id: i64) -> Seq<(i64, i64)>
    decreases locations.len(),
{
    if locations.len() == 0 {
        seq![(group, id)]
    } else if locations[0].0 == group {
        seq![(group, id)] + locations.drop_first()
    } else {
        seq![locations[0]] + chosen(locations.drop_first(), group, id)
    }
}

/// The document that was picked of a group.
pub open spec fn choice(locations: Seq<(i64, i64)>, group: i64) -> Option<i64>
    decreases locations.len(),
{
    if locations.len() == 0 {
        None
    } else if locations[0].0 == group {
        Some(locations[0].1)
    } else {
        choice(locations.drop_first(), group)
    }
}

fn choose_location(locations: &mut Vec<(i64, i64)>, group: i64, id: i64)
    ensures
        final(locations)@ == chosen(old(locations)@, group, id),
{
    let ghost all = locations@;
    let mut i: usize = 0;
    assert(all.take(0) + chosen(all.skip(0), group, id) =~= chosen(all, group, id)) by {
        assert(all.skip(0) =~= all);
    }
    while i < locations.len()
        invariant
            i <= all.len(),
            locations@ == all,
            all == old(locations)@,
            all.take(i as int) + chosen(all.skip(i as int), group, id) == chosen(all, group, id),
        decreases all.len() - i,
    {
        proof {
            assert(all.skip(i as int)[0] == all[i as int]);
            assert(all.skip(i as int).drop_first() =~= all.skip(i + 1));
        }
        if locations[i].0 == group {
            locations.set(i, (group, id));
            assert(locations@ =~= all.take(i as int) + (seq![(group, id)] + all.skip(i + 1)));
            return ;
        }
        assert(all.take(i + 1) + chosen(all.skip(i + 1), group, id) =~= all.take(i as int) + (seq![
            all[i as int],
        ] + chosen(all.skip(i + 1), group, id)));
        i += 1;
    }
    locations.push((group, id));
    assert(all.skip(i as int) =~= Seq::empty());
    assert(locations@ =~= all.take(i as int) + seq![(group, id)]);
}

/// The next number, starting over behind the largest.
pub open spec fn next_generation(n: u64) -> u64 {
    if n == u64::MAX {
        0
    } else {
        (n + 1) as u64
    }
}

impl Preview {
    /// Nothing is shown.
    pub fn new() -> (p: Self)
        ensures
            p.doc_id is None,
            p.text is None,
            p.hit_index == 0,
            p.anchor == 0,
            p.pending_scroll is None,
            p.generation == 0,
            !p.loading,
            p.spans_cache is None,
            p.locations@.len() == 0,
            p.popup_group is None,
    {
        Preview {
            doc_id: None,
            text: None,
            hit_index: 0,
            anchor: 0,
            pending_scroll: None,
            generation: 0,
            loading: false,
            spans_cache: None,
            locations: Vec::new(),
            popup_group: None,
        }
    }

    /// The document that was picked of a group.
    pub fn location(&self, group: i64) -> (r: Option<i64>)
        ensures
            r == choice(self.locations@, group),
    {
        let ghost all = self.locations@;
        let mut i: usize = 0;
        assert(all.skip(0) =~= all);
        while i < self.locations.len()
            invariant
                i <= all.len(),
                all == self.locations@,
                choice(all.skip(i as int), group) == choice(all, group),
            decreases all.len() - i,
        {
            assert(all.skip(i as int)[0] == all[i as int]);
            assert(all.skip(i as int).drop_first() =~= all.skip(i + 1));
            if self.locations[i].0 == group {
                return Some(self.locations[i].1);
            }
            i += 1;
        }
        None
    }

    /// Turns to a fragment of a document. The document is remembered as the one
    /// that was picked of its group. Tells whether its text has to be loaded.
    pub fn focus(
        &mut self,
        result: Option<&SearchResponse>,
        document_id: i64,
        hit_index: usize,
        byte_offset: usize,
    ) -> (load: bool)
        ensures
            load == (old(self).doc_id != Some(document_id) || old(self).text is None),
            final(self).doc_id == Some(document_id),
            final(self).text == if load {
                None
            } else {
                old(self).text
            },
            final(self).hit_index == hit_index,
            final(self).anchor == byte_offset,
            final(self).pending_scroll == Some(byte_offset),
            final(self).generation == old(self).generation,
            final(self).loading == old(self).loading,
            final(self).spans_cache == old(self).spans_cache,
            ({
                let found = match result {
                    Some(result) => document_from(result.documents@, document_id, 0),
                    None => None,
                };
                match found {
                    Some(i) => {
                        let group = result->0.documents@[i].group_id;
                        &&& final(self).locations@ == chosen(
                            old(self).locations@,
                            group,
                            document_id,
                        )
                        &&& final(self).popup_group == if old(self).popup_group == Some(group) {
                            Some(group)
                        } else {
                            None
                        }
                    },
                    None => {
                        &&& final(self).locations@ == old(self).locations@
                        &&& final(self).popup_group == old(self).popup_group
                    },
                }
            }),
    {
        if let Some(result) = result {
            if let Some(i) = find_document(&result.documents, document_id) {
                let group = result.documents[i].group_id;
                choose_location(&mut self.locations, group, document_id);
                let listed = match self.popup_group {
                    Some(g) => g == group,
                    None => false,
                };
                if !listed {
                    self.popup_group = None;
                }
            }
        }
        self.hit_index = hit_index;
        self.pending_scroll = Some(byte_offset);
        self.anchor = byte_offset;
        let shown = match self.doc_id {
            Some(id) => id == document_id,
            None => false,
        };
        if !shown || self.text.is_none() {
            self.doc_id = Some(document_id);
            self.text = None;
            true
        } else {
            false
        }
    }

    /// The text of the document is being loaded. Gives the number by which the
    /// text is told from others when it comes.
    pub fn start_load(&mut self) -> (generation: u64)
        ensures
            generation == next_generation(old(self).generation),
            *final(self) == (Preview { generation, loading: true, ..*old(self) }),
    {
        self.generation = if self.generation == u64::MAX {
            0
        } else {
            self.generation + 1
        };
        self.loading = true;
        self.generation
    }

    /// Shows nothing any more. A text that is still to come is not wanted.
    pub fn clear(&mut self)
        ensures
            final(self).doc_id is None,
            final(self).text is None,
            final(self).hit_index == 0,
            final(self).anchor == 0,
            final(self).pending_scroll is None,
            final(self).spans_cache is None,
            final(self).popup_group is None,
            !final(self).loading,
            final(self).generation == next_generation(old(self).generation),
            final(self).locations@ == old(self).locations@,
    {
        self.popup_group = None;
        self.doc_id = None;
        self.hit_index = 0;
        self.anchor = 0;
        self.pending_scroll = None;
        self.spans_cache = None;
        self.generation = if self.generation == u64::MAX {
            0
        } else {
            self.generation + 1
        };
        self.loading = false;
        self.text = None;
    }

    /// Takes in a new search result. The document that is shown stays where it
    /// is in the result, and is then the one that is picked of its group;
    /// otherwise nothing is shown any more.
    pub fn take_result(&mut self, result: &SearchResponse)
        ensures
            final(self).popup_group is None,
            ({
                let found = match old(self).doc_id {
                    Some(id) => document_from(result.documents@, id, 0),
                    None => None,
                };
                match found {
                    Some(i) => {
                        &&& final(self).locations@ == seq![
                            (result.documents@[i].group_id, old(self).doc_id->0),
                        ]
                        &&& final(self).doc_id == old(self).doc_id
                        &&& final(self).text == old(self).text
                        &&& final(self).hit_index == old(self).hit_index
                        &&& final(self).anchor == old(self).anchor
                        &&& final(self).pending_scroll == old(self).pending_scroll
                        &&& final(self).generation == old(self).generation
                        &&& final(self).loading == old(self).loading
                        &&& final(self).spans_cache == old(self).spans_cache
                    },
                    None => {
                        &&& final(self).locations@.len() == 0
                        &&& final(self).doc_id is None
                        &&& final(self).text is None
                        &&& final(self).hit_index == 0
                        &&& final(self).anchor == 0
                        &&& final(self).pending_scroll is None
                        &&& final(self).spans_cache is None
                        &&& !final(self).loading
                        &&& final(self).generation == next_generation(old(self).generation)
                    },
                }
            }),
    {
        self.locations = Vec::new();
        self.popup_group = None;
        let found = match self.doc_id {
            Some(id) => match find_document(&result.documents, id) {
                Some(i) => Some((result.documents[i].group_id, id)),
                None => None,
            },
            None => None,
        };
        match found {
            Some((group, id)) => {
                self.locations.push((group, id));
                assert(self.locations@ =~= seq![(group, id)]);
            },
            None => {
                self.clear();
            },
        }
    }

    /// Takes in a text that was loaded, unless another one was asked for since.
    pub fn take_text(&mut self, generation: u64, document_id: i64, text: Option<String>)
        ensures
            *final(self) == if generation != old(self).generation {
                *old(self)
            } else if old(self).doc_id == Some(document_id) && text is Some {
                Preview { loading: false, text, ..*old(self) }
            } else {
                Preview { loading: false, ..*old(self) }
            },
    {
        if generation != self.generation {
            return ;
        }
        self.loading = false;
        let shown = match self.doc_id {
            Some(id) => id == document_id,
            None => false,
        };
        if shown && text.is_some() {
            self.text = text;
        }
    }
}

/// What was picked of a group is what is found for it, and picks of other
/// groups stay.
pub proof fn law_choices_are_remembered(
    locations: Seq<(i64, i64)>,
    group: i64,
    id: i64,
    other: i64,
)
    ensures
        choice(chosen(locations, group, id), group) == Some(id),
        other != group ==> choice(chosen(locations, group, id), other) == choice(locations, other),
    decreases locations.len(),
{
    if locations.len() == 0 {
        let none = Seq::<(i64, i64)>::empty();
        assert(seq![(group, id)].drop_first() =~= none);
        assert(choice(none, other) is None);
    } else if locations[0].0 == group {
        let after = seq![(group, id)] + locations.drop_first();
        assert(after.drop_first() =~= locations.drop_first());
    } else {
        law_choices_are_remembered(locations.drop_first(), group, id, other);
        let rest = chosen(locations.drop_first(), group, id);
        let after = seq![locations[0]] + rest;
        assert(after.drop_first() =~= rest);
    }
}

} // verus!
