//! What holds of the fragments of every document: each span is shown once, and
//! which spans are shown together.

use vstd::prelude::*;

use crate::cli::sliceable;
use crate::locate::{law_spans_are_apart, spans_in};
use crate::preview::hit_place;
use crate::search::{
    block_at, block_from, block_groups, blocks_of, fragment, fragments_in, fragments_of,
    groups_rise, in_order, inside, span_views, Hit, HitView,
};
use crate::search_laws::{has_byte, law_highlights_come_from_spans, lemma_block_has};
use crate::text::{
    byte_len, char_at, lemma_char_at, lemma_offset_monotonic, lemma_offset_subrange,
    on_boundary, slice,
};

verus! {

/// Blocks and spans as a document has them: the blocks follow each other between
/// character boundaries, so do the spans, none of them is empty, and the first
/// and the last byte of every span are in some block.
pub open spec fn divided(
    content: Seq<char>,
    spans: Seq<(int, int)>,
    bounds: Seq<(int, int, Seq<char>)>,
) -> bool {
    &&& bounds.len() > 0
    &&& in_order(bounds)
    &&& forall|i: int|
        0 <= i < bounds.len() ==> {
            &&& (#[trigger] bounds[i]).0 < bounds[i].1
            &&& on_boundary(content, bounds[i].0)
            &&& on_boundary(content, bounds[i].1)
        }
    &&& forall|i: int|
        0 <= i < spans.len() ==> {
            &&& 0 <= (#[trigger] spans[i]).0 < spans[i].1
            &&& has_byte(bounds, spans[i].0)
            &&& has_byte(bounds, spans[i].1 - 1)
        }
    &&& forall|i: int, j: int|
        0 <= i < j < spans.len() ==> (#[trigger] spans[i]).1 <= (#[trigger] spans[j]).0
}

/// The first block that a span touches.
pub open spec fn first_block(
    spans: Seq<(int, int)>,
    bounds: Seq<(int, int, Seq<char>)>,
    i: int,
) -> int {
    blocks_of(bounds, spans[i]).0
}

/// The last block that a span touches.
pub open spec fn last_block(
    spans: Seq<(int, int)>,
    bounds: Seq<(int, int, Seq<char>)>,
    i: int,
) -> int {
    blocks_of(bounds, spans[i]).1
}

/// The number of the fragment that a span is shown in.
pub open spec fn place_of(
    spans: Seq<(int, int)>,
    bounds: Seq<(int, int, Seq<char>)>,
    i: int,
) -> int {
    block_groups(bounds, spans.take(i + 1)).len() - 1
}

/// From one span to another, each touches a block that the one before it touches
/// or that is before it.
pub open spec fn linked(
    spans: Seq<(int, int)>,
    bounds: Seq<(int, int, Seq<char>)>,
    i: int,
    j: int,
) -> bool {
    forall|k: int|
        i <= k < j ==> first_block(spans, bounds, k + 1) <= #[trigger] last_block(spans, bounds, k)
}

proof fn lemma_touched(
    content: Seq<char>,
    spans: Seq<(int, int)>,
    bounds: Seq<(int, int, Seq<char>)>,
    i: int,
)
    requires
        divided(content, spans, bounds),
        0 <= i < spans.len(),
    ensures
        ({
            let f = first_block(spans, bounds, i);
            let l = last_block(spans, bounds, i);
            &&& 0 <= f <= l < bounds.len()
            &&& bounds[f].0 <= spans[i].0 < bounds[f].1
            &&& bounds[l].0 < spans[i].1 <= bounds[l].1
        }),
{
    let a = spans[i].0;
    let b = spans[i].1 - 1;
    lemma_block_has(bounds, a, 0);
    lemma_block_has(bounds, b, 0);
    let f = block_at(bounds, a);
    let l = block_at(bounds, b);
    if l < f {
        assert(bounds[l].1 <= bounds[f].0);
    }
}

proof fn lemma_touched_rise(
    content: Seq<char>,
    spans: Seq<(int, int)>,
    bounds: Seq<(int, int, Seq<char>)>,
    i: int,
    j: int,
)
    requires
        divided(content, spans, bounds),
        0 <= i <= j < spans.len(),
    ensures
        first_block(spans, bounds, i) <= first_block(spans, bounds, j),
        last_block(spans, bounds, i) <= last_block(spans, bounds, j),
{
    if i < j {
        lemma_touched(content, spans, bounds, i);
        lemma_touched(content, spans, bounds, j);
        assert(spans[i].1 <= spans[j].0);
        let fi = first_block(spans, bounds, i);
        let fj = first_block(spans, bounds, j);
        let li = last_block(spans, bounds, i);
        let lj = last_block(spans, bounds, j);
        if fj < fi {
            assert(bounds[fj].1 <= bounds[fi].0);
        }
        if lj < li {
            assert(bounds[lj].1 <= bounds[li].0);
        }
    }
}

/// How the groups of the first `n` spans come about.
proof fn lemma_last_group(
    content: Seq<char>,
    spans: Seq<(int, int)>,
    bounds: Seq<(int, int, Seq<char>)>,
    n: int,
)
    requires
        divided(content, spans, bounds),
        0 < n <= spans.len(),
    ensures
        ({
            let groups = block_groups(bounds, spans.take(n));
            &&& groups.len() > 0
            &&& groups.last().1 == last_block(spans, bounds, n - 1)
            &&& groups.last().0 <= first_block(spans, bounds, n - 1)
            &&& groups_rise(groups, bounds.len() as int)
        }),
        n > 1 ==> {
            let before = block_groups(bounds, spans.take(n - 1));
            let groups = block_groups(bounds, spans.take(n));
            let f = first_block(spans, bounds, n - 1);
            let l = last_block(spans, bounds, n - 1);
            groups == if f <= last_block(spans, bounds, n - 2) {
                before.drop_last().push((before.last().0, l))
            } else {
                before.push((f, l))
            }
        },
        n == 1 ==> block_groups(bounds, spans.take(n)) == seq![
            (first_block(spans, bounds, 0), last_block(spans, bounds, 0)),
        ],
    decreases n,
{
    let groups = block_groups(bounds, spans.take(n));
    assert(spans.take(n).drop_last() =~= spans.take(n - 1));
    assert(spans.take(n).last() == spans[n - 1]);
    lemma_touched(content, spans, bounds, n - 1);
    let f = first_block(spans, bounds, n - 1);
    let l = last_block(spans, bounds, n - 1);
    if n == 1 {
        assert(spans.take(0) =~= Seq::empty());
        assert(block_groups(bounds, spans.take(0)) =~= Seq::empty());
        assert(groups =~= seq![(f, l)]);
    } else {
        lemma_last_group(content, spans, bounds, n - 1);
        lemma_touched_rise(content, spans, bounds, n - 2, n - 1);
        let before = block_groups(bounds, spans.take(n - 1));
        assert forall|g: int| 0 <= g < groups.len() implies {
            &&& 0 <= (#[trigger] groups[g]).0 <= groups[g].1 < bounds.len()
        } by {
            if g < before.len() {
                assert(0 <= before[g].0 <= before[g].1 < bounds.len());
            }
        }
        assert forall|g: int, h: int| 0 <= g < h < groups.len() implies (#[trigger] groups[g]).1 < (
        #[trigger] groups[h]).0 by {
            if h < before.len() {
                assert(before[g].1 < before[h].0);
            } else {
                assert(before[g].1 <= before.last().1) by {
                    if g < before.len() - 1 {
                        assert(before[g].1 < before[before.len() - 1].0);
                        assert(before[before.len() - 1].0 <= before[before.len() - 1].1);
                    }
                }
            }
        }
    }
}

/// The group of a span has all the blocks that it touches.
proof fn lemma_placed(
    content: Seq<char>,
    spans: Seq<(int, int)>,
    bounds: Seq<(int, int, Seq<char>)>,
    i: int,
    n: int,
)
    requires
        divided(content, spans, bounds),
        0 <= i < n <= spans.len(),
    ensures
        ({
            let groups = block_groups(bounds, spans.take(n));
            let g = place_of(spans, bounds, i);
            &&& 0 <= g < groups.len()
            &&& groups[g].0 <= first_block(spans, bounds, i)
            &&& last_block(spans, bounds, i) <= groups[g].1
        }),
    decreases n,
{
    lemma_last_group(content, spans, bounds, n);
    if n > i + 1 {
        lemma_last_group(content, spans, bounds, n - 1);
        lemma_placed(content, spans, bounds, i, n - 1);
        lemma_touched_rise(content, spans, bounds, n - 2, n - 1);
        let before = block_groups(bounds, spans.take(n - 1));
        let groups = block_groups(bounds, spans.take(n));
        let g = place_of(spans, bounds, i);
        if g < before.len() - 1 {
            assert(groups[g] == before[g]);
        }
    }
}

proof fn lemma_places_rise(
    content: Seq<char>,
    spans: Seq<(int, int)>,
    bounds: Seq<(int, int, Seq<char>)>,
    i: int,
    j: int,
)
    requires
        divided(content, spans, bounds),
        0 <= i <= j < spans.len(),
    ensures
        place_of(spans, bounds, i) <= place_of(spans, bounds, j),
        place_of(spans, bounds, i) == place_of(spans, bounds, j) <==> linked(spans, bounds, i, j),
        place_of(spans, bounds, j) <= place_of(spans, bounds, i) + (j - i),
    decreases j - i,
{
    if i < j {
        lemma_places_rise(content, spans, bounds, i, j - 1);
        lemma_last_group(content, spans, bounds, j + 1);
        lemma_last_group(content, spans, bounds, j);
        if linked(spans, bounds, i, j) {
            assert(linked(spans, bounds, i, j - 1));
            assert(first_block(spans, bounds, j - 1 + 1) <= last_block(spans, bounds, j - 1));
        }
    }
}

/// The fragment of a group, where no limit is reached.
proof fn lemma_all_fragments(
    content: Seq<char>,
    spans: Seq<(int, int)>,
    bounds: Seq<(int, int, Seq<char>)>,
    title: Seq<char>,
    groups: Seq<(int, int)>,
    most: int,
)
    requires
        divided(content, spans, bounds),
        groups_rise(groups, bounds.len() as int),
        groups.len() <= most,
    ensures
        ({
            let hits = fragments_in(content, spans, bounds, title, groups, most);
            &&& hits.len() == groups.len()
            &&& forall|g: int|
                0 <= g < groups.len() ==> Some(#[trigger] hits[g]) == fragment(
                    content,
                    spans,
                    bounds,
                    title,
                    groups[g],
                )
        }),
    decreases groups.len(),
{
    if groups.len() > 0 {
        let init = groups.drop_last();
        assert(groups_rise(init, bounds.len() as int)) by {
            assert forall|g: int| 0 <= g < init.len() implies {
                &&& 0 <= (#[trigger] init[g]).0 <= init[g].1 < bounds.len()
            } by {
                assert(init[g] == groups[g]);
            }
            assert forall|g: int, h: int| 0 <= g < h < init.len() implies (#[trigger] init[g]).1 < (
            #[trigger] init[h]).0 by {
                assert(init[g] == groups[g] && init[h] == groups[h]);
            }
        }
        lemma_all_fragments(content, spans, bounds, title, init, most);
        let last = groups.last();
        assert(last == groups[groups.len() - 1]);
        assert(bounds[last.0].0 < bounds[last.1].1) by {
            assert(bounds[last.0].0 < bounds[last.0].1);
            if last.0 < last.1 {
                assert(bounds[last.0].1 <= bounds[last.1].0);
                assert(bounds[last.1].0 < bounds[last.1].1);
            }
        }
        let hits = fragments_in(content, spans, bounds, title, groups, most);
        let before = fragments_in(content, spans, bounds, title, init, most);
        assert forall|g: int| 0 <= g < groups.len() implies Some(#[trigger] hits[g]) == fragment(
            content,
            spans,
            bounds,
            title,
            groups[g],
        ) by {
            if g < init.len() {
                assert(hits[g] == before[g]);
                assert(init[g] == groups[g]);
            }
        }
    }
}

/// A span is inside the range of a fragment exactly when it is placed there.
proof fn lemma_inside_its_place(
    content: Seq<char>,
    spans: Seq<(int, int)>,
    bounds: Seq<(int, int, Seq<char>)>,
    i: int,
    g: int,
)
    requires
        divided(content, spans, bounds),
        0 <= i < spans.len(),
        0 <= g < block_groups(bounds, spans).len(),
    ensures
        ({
            let group = block_groups(bounds, spans)[g];
            (bounds[group.0].0 <= spans[i].0 && spans[i].1 <= bounds[group.1].1) <==> g == place_of(
                spans,
                bounds,
                i,
            )
        }),
{
    let n = spans.len() as int;
    assert(spans.take(n) =~= spans);
    lemma_placed(content, spans, bounds, i, n);
    lemma_last_group(content, spans, bounds, n);
    lemma_touched(content, spans, bounds, i);
    let groups = block_groups(bounds, spans);
    let p = place_of(spans, bounds, i);
    let f = first_block(spans, bounds, i);
    let l = last_block(spans, bounds, i);
    assert(bounds[groups[p].0].0 <= bounds[f].0) by {
        if groups[p].0 < f {
            assert(bounds[groups[p].0].1 <= bounds[f].0);
        }
    }
    assert(bounds[l].1 <= bounds[groups[p].1].1) by {
        if l < groups[p].1 {
            assert(bounds[l].1 <= bounds[groups[p].1].0);
        }
    }
    if g < p {
        assert(groups[g].1 < groups[p].0);
        assert(bounds[groups[g].1].1 <= bounds[groups[p].0].0);
    } else if p < g {
        assert(groups[p].1 < groups[g].0);
        assert(bounds[groups[p].1].1 <= bounds[groups[g].0].0);
    }
}

/// The first of the spans from the `i`-th on that is placed in a fragment or
/// behind it.
spec fn first_placed(
    spans: Seq<(int, int)>,
    bounds: Seq<(int, int, Seq<char>)>,
    g: int,
    i: int,
) -> int
    decreases spans.len() - i,
{
    if i >= spans.len() || place_of(spans, bounds, i) >= g {
        i
    } else {
        first_placed(spans, bounds, g, i + 1)
    }
}

proof fn lemma_first_placed(
    content: Seq<char>,
    spans: Seq<(int, int)>,
    bounds: Seq<(int, int, Seq<char>)>,
    g: int,
    i: int,
)
    requires
        divided(content, spans, bounds),
        0 <= i <= spans.len(),
    ensures
        ({
            let c = first_placed(spans, bounds, g, i);
            &&& i <= c <= spans.len()
            &&& forall|k: int| i <= k < c ==> #[trigger] place_of(spans, bounds, k) < g
            &&& forall|k: int| c <= k < spans.len() ==> #[trigger] place_of(spans, bounds, k) >= g
        }),
    decreases spans.len() - i,
{
    if i < spans.len() {
        if place_of(spans, bounds, i) >= g {
            assert forall|k: int| i <= k < spans.len() implies #[trigger] place_of(spans, bounds, k)
                >= g by {
                lemma_places_rise(content, spans, bounds, i, k);
            }
        } else {
            lemma_first_placed(content, spans, bounds, g, i + 1);
        }
    }
}

/// Ranges moved by a number of bytes.
pub open spec fn moved(spans: Seq<(int, int)>, by: int) -> Seq<(int, int)> {
    spans.map_values(|s: (int, int)| (s.0 + by, s.1 + by))
}

/// The highlighted ranges of fragments, one fragment behind the other, as ranges
/// of the document.
pub open spec fn all_highlights(hits: Seq<HitView>) -> Seq<(int, int)>
    decreases hits.len(),
{
    if hits.len() == 0 {
        Seq::empty()
    } else {
        all_highlights(hits.drop_last()) + moved(hits.last().highlights, hits.last().start)
    }
}

/// Spans of which a stretch is inside a range.
proof fn lemma_inside_stretch(spans: Seq<(int, int)>, start: int, end: int, a: int, b: int)
    requires
        0 <= a <= b <= spans.len(),
        forall|i: int|
            0 <= i < spans.len() ==> ((start <= (#[trigger] spans[i]).0 && spans[i].1 <= end) <==> a
                <= i < b),
    ensures
        moved(inside(spans, start, end), start) == spans.subrange(a, b),
    decreases spans.len(),
{
    if spans.len() == 0 {
        assert(moved(inside(spans, start, end), start) =~= spans.subrange(a, b));
    } else {
        let init = spans.drop_last();
        let n = spans.len() as int;
        assert forall|i: int| 0 <= i < init.len() implies ((start <= (#[trigger] init[i]).0
            && init[i].1 <= end) <==> a <= i < b) by {
            assert(init[i] == spans[i]);
        }
        assert(spans[n - 1] == spans.last());
        if a == n {
            assert forall|i: int| 0 <= i < init.len() implies ((start <= (#[trigger] init[i]).0
                && init[i].1 <= end) <==> n - 1 <= i < n - 1) by {
            }
            lemma_inside_stretch(init, start, end, n - 1, n - 1);
            assert(moved(inside(spans, start, end), start) =~= spans.subrange(a, b));
        } else if b == n {
            assert forall|i: int| 0 <= i < init.len() implies ((start <= (#[trigger] init[i]).0
                && init[i].1 <= end) <==> a <= i < n - 1) by {
            }
            lemma_inside_stretch(init, start, end, a, n - 1);
            let before = inside(init, start, end);
            let span = spans.last();
            assert(moved(inside(spans, start, end), start) =~= moved(before, start).push(span));
            assert(spans.subrange(a, b) =~= init.subrange(a, n - 1).push(span));
        } else {
            lemma_inside_stretch(init, start, end, a, b);
            assert(spans.subrange(a, b) =~= init.subrange(a, b));
        }
    }
}

/// The fragments of a document that has blocks, all of them.
pub open spec fn every_fragment(
    content: Seq<char>,
    spans: Seq<(int, int)>,
    bounds: Seq<(int, int, Seq<char>)>,
    title: Seq<char>,
) -> Seq<HitView> {
    fragments_of(content, spans, bounds, title, spans.len() as int)
}

proof fn lemma_every_fragment(
    content: Seq<char>,
    spans: Seq<(int, int)>,
    bounds: Seq<(int, int, Seq<char>)>,
    title: Seq<char>,
)
    requires
        divided(content, spans, bounds),
    ensures
        ({
            let groups = block_groups(bounds, spans);
            let hits = every_fragment(content, spans, bounds, title);
            &&& hits.len() == groups.len() <= spans.len()
            &&& groups_rise(groups, bounds.len() as int)
            &&& forall|g: int|
                0 <= g < groups.len() ==> Some(#[trigger] hits[g]) == fragment(
                    content,
                    spans,
                    bounds,
                    title,
                    groups[g],
                )
        }),
{
    let n = spans.len() as int;
    let groups = block_groups(bounds, spans);
    assert(spans.take(n) =~= spans);
    if n > 0 {
        lemma_last_group(content, spans, bounds, n);
        lemma_places_rise(content, spans, bounds, 0, n - 1);
        lemma_last_group(content, spans, bounds, 1);
    }
    lemma_all_fragments(content, spans, bounds, title, groups, n);
}

/// A higher limit than the number of spans shows no more fragments.
pub proof fn law_every_fragment_is_shown(
    content: Seq<char>,
    spans: Seq<(int, int)>,
    bounds: Seq<(int, int, Seq<char>)>,
    title: Seq<char>,
    limit: int,
)
    requires
        divided(content, spans, bounds),
        spans.len() <= limit,
    ensures
        fragments_of(content, spans, bounds, title, limit) == every_fragment(
            content,
            spans,
            bounds,
            title,
        ),
{
    lemma_every_fragment(content, spans, bounds, title);
    lemma_all_fragments(content, spans, bounds, title, block_groups(bounds, spans), limit);
    assert(fragments_of(content, spans, bounds, title, limit) =~= every_fragment(
        content,
        spans,
        bounds,
        title,
    )) by {
        let a = fragments_of(content, spans, bounds, title, limit);
        let b = every_fragment(content, spans, bounds, title);
        assert forall|g: int| 0 <= g < a.len() implies a[g] == b[g] by {
            assert(Some(a[g]) == Some(b[g]));
        }
    }
}

/// The fragments come in the order of the text, do not overlap, and show what the
/// text holds there.
pub proof fn law_fragments_are_ordered(
    content: Seq<char>,
    spans: Seq<(int, int)>,
    bounds: Seq<(int, int, Seq<char>)>,
    title: Seq<char>,
)
    requires
        divided(content, spans, bounds),
    ensures
        ({
            let hits = every_fragment(content, spans, bounds, title);
            &&& forall|g: int|
                0 <= g < hits.len() ==> {
                    &&& (#[trigger] hits[g]).start < hits[g].end
                    &&& hits[g].content == slice(content, hits[g].start, hits[g].end)
                }
            &&& forall|g: int, h: int|
                0 <= g < h < hits.len() ==> (#[trigger] hits[g]).end <= (#[trigger] hits[h]).start
        }),
{
    lemma_every_fragment(content, spans, bounds, title);
    let groups = block_groups(bounds, spans);
    let hits = every_fragment(content, spans, bounds, title);
    assert forall|g: int| 0 <= g < hits.len() implies {
        &&& (#[trigger] hits[g]).start < hits[g].end
        &&& hits[g].content == slice(content, hits[g].start, hits[g].end)
    } by {
        let group = groups[g];
        assert(bounds[group.0].0 < bounds[group.0].1);
        if group.0 < group.1 {
            assert(bounds[group.0].1 <= bounds[group.1].0);
            assert(bounds[group.1].0 < bounds[group.1].1);
        }
    }
    assert forall|g: int, h: int| 0 <= g < h < hits.len() implies (#[trigger] hits[g]).end <= (
    #[trigger] hits[h]).start by {
        assert(groups[g].1 < groups[h].0);
        assert(bounds[groups[g].1].1 <= bounds[groups[h].0].0);
    }
}

/// The highlighted ranges of all fragments are the spans, in order, each of them
/// once.
pub proof fn law_every_span_is_shown_once(
    content: Seq<char>,
    spans: Seq<(int, int)>,
    bounds: Seq<(int, int, Seq<char>)>,
    title: Seq<char>,
)
    requires
        divided(content, spans, bounds),
    ensures
        all_highlights(every_fragment(content, spans, bounds, title)) == spans,
{
    let hits = every_fragment(content, spans, bounds, title);
    let n = spans.len() as int;
    lemma_every_fragment(content, spans, bounds, title);
    lemma_shown_up_to(content, spans, bounds, title, hits.len() as int);
    assert(hits.take(hits.len() as int) =~= hits);
    lemma_first_placed(content, spans, bounds, hits.len() as int, 0);
    let c = first_placed(spans, bounds, hits.len() as int, 0);
    if c < n {
        assert(spans.take(n) =~= spans);
        lemma_placed(content, spans, bounds, c, n);
        assert(place_of(spans, bounds, c) >= hits.len());
    }
    assert(spans.take(c) =~= spans);
}

proof fn lemma_shown_up_to(
    content: Seq<char>,
    spans: Seq<(int, int)>,
    bounds: Seq<(int, int, Seq<char>)>,
    title: Seq<char>,
    g: int,
)
    requires
        divided(content, spans, bounds),
        0 <= g <= every_fragment(content, spans, bounds, title).len(),
    ensures
        all_highlights(every_fragment(content, spans, bounds, title).take(g)) == spans.take(
            first_placed(spans, bounds, g, 0),
        ),
    decreases g,
{
    let hits = every_fragment(content, spans, bounds, title);
    let groups = block_groups(bounds, spans);
    lemma_every_fragment(content, spans, bounds, title);
    lemma_first_placed(content, spans, bounds, g, 0);
    let b = first_placed(spans, bounds, g, 0);
    if g == 0 {
        if b > 0 {
            lemma_placed(content, spans, bounds, 0, spans.len() as int);
            assert(place_of(spans, bounds, 0) < 0);
        }
        assert(hits.take(0) =~= Seq::empty());
        assert(spans.take(0) =~= Seq::empty());
    } else {
        lemma_shown_up_to(content, spans, bounds, title, g - 1);
        lemma_first_placed(content, spans, bounds, g - 1, 0);
        let a = first_placed(spans, bounds, g - 1, 0);
        if b < a {
            assert(place_of(spans, bounds, b) < g - 1);
        }
        let hit = hits[g - 1];
        let group = groups[g - 1];
        assert(hits.take(g).drop_last() =~= hits.take(g - 1));
        assert(hits.take(g).last() == hit);
        assert forall|i: int| 0 <= i < spans.len() implies ((hit.start <= (#[trigger] spans[i]).0
            && spans[i].1 <= hit.end) <==> a <= i < b) by {
            lemma_inside_its_place(content, spans, bounds, i, g - 1);
            let p = place_of(spans, bounds, i);
            if i < a {
                assert(p < g - 1);
            } else {
                assert(p >= g - 1);
            }
            if i < b {
                assert(p < g);
            } else {
                assert(p >= g);
            }
        }
        lemma_inside_stretch(spans, hit.start, hit.end, a, b);
        assert(spans.take(a) + spans.subrange(a, b) =~= spans.take(b));
    }
}

/// The fragment highlights a span.
pub open spec fn shows(hit: HitView, span: (int, int)) -> bool {
    hit.highlights.contains((span.0 - hit.start, span.1 - hit.start))
}

proof fn lemma_inside_contains(spans: Seq<(int, int)>, start: int, end: int, i: int)
    requires
        0 <= i < spans.len(),
        start <= spans[i].0,
        spans[i].1 <= end,
    ensures
        inside(spans, start, end).contains((spans[i].0 - start, spans[i].1 - start)),
    decreases spans.len(),
{
    let init = spans.drop_last();
    let before = inside(init, start, end);
    let all = inside(spans, start, end);
    if i < init.len() {
        lemma_inside_contains(init, start, end, i);
        let k = choose|k: int|
            0 <= k < before.len() && before[k] == (spans[i].0 - start, spans[i].1 - start);
        assert(all[k] == before[k]);
    } else {
        assert(all[all.len() - 1] == (spans[i].0 - start, spans[i].1 - start));
    }
}

/// A fragment highlights a span exactly when the span is placed there.
proof fn lemma_shows(
    content: Seq<char>,
    spans: Seq<(int, int)>,
    bounds: Seq<(int, int, Seq<char>)>,
    title: Seq<char>,
    i: int,
    g: int,
)
    requires
        divided(content, spans, bounds),
        0 <= i < spans.len(),
        0 <= g < every_fragment(content, spans, bounds, title).len(),
    ensures
        shows(every_fragment(content, spans, bounds, title)[g], spans[i]) <==> g == place_of(
            spans,
            bounds,
            i,
        ),
{
    lemma_every_fragment(content, spans, bounds, title);
    lemma_inside_its_place(content, spans, bounds, i, g);
    let hit = every_fragment(content, spans, bounds, title)[g];
    if g == place_of(spans, bounds, i) {
        lemma_inside_contains(spans, hit.start, hit.end, i);
    }
    if shows(hit, spans[i]) {
        let h = (spans[i].0 - hit.start, spans[i].1 - hit.start);
        let k = choose|k: int| 0 <= k < hit.highlights.len() && hit.highlights[k] == h;
        law_highlights_come_from_spans(spans, hit.start, hit.end, k);
    }
}

/// Two spans are shown in one fragment exactly when every span between them
/// touches a block that the one before it touches or reaches past. So spans that
/// touch a block in common are shown together, and spans in separate blocks are
/// not unless others join them.
pub proof fn law_spans_share_a_fragment(
    content: Seq<char>,
    spans: Seq<(int, int)>,
    bounds: Seq<(int, int, Seq<char>)>,
    title: Seq<char>,
    i: int,
    j: int,
)
    requires
        divided(content, spans, bounds),
        0 <= i < j < spans.len(),
    ensures
        ({
            let hits = every_fragment(content, spans, bounds, title);
            (exists|g: int|
                0 <= g < hits.len() && #[trigger] shows(hits[g], spans[i]) && shows(
                    hits[g],
                    spans[j],
                )) <==> linked(spans, bounds, i, j)
        }),
        first_block(spans, bounds, j) <= last_block(spans, bounds, i) ==> linked(
            spans,
            bounds,
            i,
            j,
        ),
{
    let hits = every_fragment(content, spans, bounds, title);
    let n = spans.len() as int;
    assert(spans.take(n) =~= spans);
    lemma_every_fragment(content, spans, bounds, title);
    lemma_places_rise(content, spans, bounds, i, j);
    lemma_placed(content, spans, bounds, i, n);
    let p = place_of(spans, bounds, i);
    if linked(spans, bounds, i, j) {
        lemma_shows(content, spans, bounds, title, i, p);
        lemma_shows(content, spans, bounds, title, j, p);
        assert(shows(hits[p], spans[i]) && shows(hits[p], spans[j]));
    }
    if exists|g: int|
        0 <= g < hits.len() && #[trigger] shows(hits[g], spans[i]) && shows(hits[g], spans[j]) {
        let g = choose|g: int|
            0 <= g < hits.len() && #[trigger] shows(hits[g], spans[i]) && shows(hits[g], spans[j]);
        lemma_shows(content, spans, bounds, title, i, g);
        lemma_shows(content, spans, bounds, title, j, g);
    }
    if first_block(spans, bounds, j) <= last_block(spans, bounds, i) {
        assert forall|k: int| i <= k < j implies first_block(spans, bounds, k + 1)
            <= #[trigger] last_block(spans, bounds, k) by {
            lemma_touched_rise(content, spans, bounds, k + 1, j);
            lemma_touched_rise(content, spans, bounds, i, k);
        }
    }
}

proof fn lemma_fragments_from(
    content: Seq<char>,
    spans: Seq<(int, int)>,
    bounds: Seq<(int, int, Seq<char>)>,
    title: Seq<char>,
    groups: Seq<(int, int)>,
    limit: int,
    k: int,
)
    requires
        0 <= k < fragments_in(content, spans, bounds, title, groups, limit).len(),
    ensures
        exists|g: int|
            0 <= g < groups.len() && Some(
                fragments_in(content, spans, bounds, title, groups, limit)[k],
            ) == fragment(content, spans, bounds, title, #[trigger] groups[g]),
    decreases groups.len(),
{
    let init = groups.drop_last();
    let before = fragments_in(content, spans, bounds, title, init, limit);
    let hits = fragments_in(content, spans, bounds, title, groups, limit);
    if k < before.len() {
        lemma_fragments_from(content, spans, bounds, title, init, limit, k);
        let g = choose|g: int|
            0 <= g < init.len() && Some(before[k]) == fragment(
                content,
                spans,
                bounds,
                title,
                #[trigger] init[g],
            );
        assert(groups[g] == init[g]);
        assert(hits[k] == before[k]);
    } else {
        assert(groups[groups.len() - 1] == groups.last());
    }
}

/// Boundaries of a text are boundaries of a part that has them.
proof fn lemma_boundary_in_part(s: Seq<char>, start: int, end: int, b: int)
    requires
        on_boundary(s, start),
        on_boundary(s, end),
        on_boundary(s, b),
        start <= b <= end,
    ensures
        on_boundary(slice(s, start, end), b - start),
        byte_len(slice(s, start, end)) == end - start,
{
    let i = char_at(s, start);
    let j = char_at(s, end);
    let k = char_at(s, b);
    lemma_char_at(s, i);
    lemma_char_at(s, j);
    lemma_char_at(s, k);
    if k < i {
        lemma_offset_monotonic(s, k, i);
    }
    if j < k {
        lemma_offset_monotonic(s, j, k);
    }
    lemma_offset_subrange(s, i, j, k - i);
    lemma_offset_subrange(s, i, j, j - i);
    lemma_char_at(slice(s, start, end), k - i);
}

/// The fragments of a search can be marked and scrolled to: their highlighted
/// ranges lie on character boundaries, and what they are scrolled to is in the
/// text.
pub proof fn law_fragments_can_be_shown(
    content: Seq<char>,
    literals: Seq<String>,
    bounds: Seq<(int, int, Seq<char>)>,
    title: Seq<char>,
    limit: int,
    k: int,
    hit: Hit,
)
    requires
        0 <= k < fragments_of(content, spans_in(content, literals), bounds, title, limit).len(),
        hit@ == fragments_of(content, spans_in(content, literals), bounds, title, limit)[k],
    ensures
        sliceable(hit.content@, hit.highlights@),
        hit_place(hit) <= byte_len(content),
{
    let spans = spans_in(content, literals);
    let blocks = if bounds.len() == 0 {
        seq![(0int, byte_len(content), Seq::<char>::empty())]
    } else {
        bounds
    };
    let groups = block_groups(blocks, spans);
    lemma_fragments_from(content, spans, blocks, title, groups, limit, k);
    law_spans_are_apart(content, literals);
    let (start, end) = (hit@.start, hit@.end);
    let shown = inside(spans, start, end);
    assert(hit@.highlights == shown);
    lemma_boundary_in_part(content, start, end, start);
    assert forall|i: int| 0 <= i < hit.highlights@.len() implies {
        &&& (#[trigger] hit.highlights@[i]).start <= hit.highlights@[i].end
        &&& on_boundary(hit.content@, hit.highlights@[i].start as int)
        &&& on_boundary(hit.content@, hit.highlights@[i].end as int)
        &&& start + hit.highlights@[i].start <= byte_len(content)
    } by {
        let h = shown[i];
        assert(span_views(hit.highlights@)[i] == h);
        assert(h == (hit.highlights@[i].start as int, hit.highlights@[i].end as int));
        law_highlights_come_from_spans(spans, start, end, i);
        let m = choose|m: int| 0 <= m < spans.len() && spans[m] == (h.0 + start, h.1 + start);
        assert(spans[m].0 < spans[m].1);
        lemma_boundary_in_part(content, start, end, spans[m].0);
        lemma_boundary_in_part(content, start, end, spans[m].1);
    }
    let last = char_at(content, end);
    lemma_char_at(content, last);
    lemma_offset_monotonic(content, last, content.len() as int);
}

proof fn lemma_block_of(bounds: Seq<(int, int, Seq<char>)>, byte: int, i: int)
    requires
        0 <= i <= bounds.len(),
    ensures
        ({
            let k = block_from(bounds, byte, i);
            ||| i <= k < bounds.len() && bounds[k].0 <= byte < bounds[k].1
            ||| k == bounds.len() - 1 && forall|m: int|
                i <= m < bounds.len() ==> !((#[trigger] bounds[m]).0 <= byte < bounds[m].1)
        }),
    decreases bounds.len() - i,
{
    if i < bounds.len() && !(bounds[i].0 <= byte < bounds[i].1) {
        lemma_block_of(bounds, byte, i + 1);
    }
}

/// A byte belongs to the block that has it, and to the last one where none has it.
pub proof fn law_bytes_belong_to_blocks(bounds: Seq<(int, int, Seq<char>)>, byte: int)
    requires
        bounds.len() > 0,
    ensures
        ({
            let k = block_at(bounds, byte);
            &&& 0 <= k < bounds.len()
            &&& has_byte(bounds, byte) ==> bounds[k].0 <= byte < bounds[k].1
            &&& !has_byte(bounds, byte) ==> k == bounds.len() - 1
        }),
{
    lemma_block_of(bounds, byte, 0);
}

} // verus!
