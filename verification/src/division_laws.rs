//! How every document is divided: which blocks a fragment gathers, and where a long
//! block is cut.

use vstd::prelude::*;

use crate::chunk::{
    chunks_of, context, cut_before, fragments, piece_end, pieces_from, progress, sealed, step,
    ChunkView, Progress,
};
use crate::text::{
    block_fits, block_part, byte_len, char_at, lemma_offset_monotonic, lemma_offset_subrange,
    offset, Block,
};

verus! {

/// Characters of the blocks from `a` up to `b`.
pub open spec fn chars_in(text: Seq<char>, blocks: Seq<Block>, a: int, b: int) -> int
    decreases b - a,
{
    if b <= a {
        0
    } else {
        chars_in(text, blocks, a, b - 1) + block_part(text, blocks[b - 1]).len()
    }
}

/// The block `k` joins the blocks from `a` on that stand before it: a heading as
/// long as these have fewer than 400 characters, a paragraph as long as it makes no
/// more than 900 with them.
pub open spec fn may_join(text: Seq<char>, blocks: Seq<Block>, a: int, k: int) -> bool {
    if blocks[k].heading_level is Some {
        chars_in(text, blocks, a, k) < 400
    } else {
        chars_in(text, blocks, a, k + 1) <= 900
    }
}

/// A paragraph that is too long for one fragment.
pub open spec fn is_long(text: Seq<char>, block: Block) -> bool {
    block.heading_level is None && block_part(text, block).len() > 900
}

/// The range has the blocks from `a` up to `b`, none of which is too long, and each
/// of which may join those before it.
pub open spec fn gathers(
    text: Seq<char>,
    blocks: Seq<Block>,
    start: int,
    end: int,
    a: int,
    b: int,
) -> bool {
    &&& 0 <= a < b <= blocks.len()
    &&& start == blocks[a].start
    &&& end == blocks[b - 1].end
    &&& forall|k: int| a <= k < b ==> !is_long(text, #[trigger] blocks[k])
    &&& forall|k: int| a < k < b ==> #[trigger] may_join(text, blocks, a, k)
}

/// A fragment of the blocks from `a` up to `b`. It is not closed before it has to
/// be: the next block may not join it.
pub open spec fn whole_blocks(
    text: Seq<char>,
    blocks: Seq<Block>,
    start: int,
    end: int,
    a: int,
    b: int,
) -> bool {
    &&& gathers(text, blocks, start, end, a, b)
    &&& b < blocks.len() ==> !may_join(text, blocks, a, b)
}

/// A character that ends a sentence or a line.
pub open spec fn ends_sentence(c: char) -> bool {
    c == '。' || c == '!' || c == '?' || c == ';' || c == '；' || c == '\n'
}

/// The characters from `a` up to `b` are a piece of a text. What is left of the text
/// is a piece if it has no more than 900 characters. Otherwise a piece ends behind
/// the last sentence end among its first 900 characters; where there is none it has
/// all of them.
pub open spec fn cut_at(s: Seq<char>, a: int, b: int) -> bool {
    &&& 0 <= a < b <= s.len()
    &&& if s.len() - a <= 900 {
        b == s.len()
    } else {
        ||| {
            &&& b <= a + 900
            &&& ends_sentence(s[b - 1])
            &&& forall|k: int| b <= k < a + 900 ==> !ends_sentence(#[trigger] s[k])
        }
        ||| {
            &&& b == a + 900
            &&& forall|k: int| a <= k < a + 900 ==> !ends_sentence(#[trigger] s[k])
        }
    }
}

/// The range is a piece of a text that starts at `base`.
pub open spec fn piece_of(s: Seq<char>, base: int, start: int, end: int) -> bool {
    exists|a: int, b: int| #[trigger]
        cut_at(s, a, b) && start == base + offset(s, a) && end == base + offset(s, b)
}

proof fn lemma_cut(s: Seq<char>, from: int, to: int)
    requires
        0 <= from <= to <= from + 900,
        from + 900 < s.len(),
        forall|k: int| to <= k < from + 900 ==> !ends_sentence(#[trigger] s[k]),
    ensures
        cut_at(s, from, cut_before(s, from, to)),
    decreases to - from,
{
    if to > from && !ends_sentence(s[to - 1]) {
        lemma_cut(s, from, to - 1);
    }
}

proof fn lemma_piece(s: Seq<char>, from: int)
    requires
        0 <= from < s.len(),
    ensures
        cut_at(s, from, piece_end(s, from)),
{
    if s.len() - from > 900 {
        lemma_cut(s, from, from + 900);
    }
}

/// The ranges are pieces that follow each other from one offset to another.
pub open spec fn in_pieces(s: Seq<char>, base: int, cuts: Seq<(int, int)>, from: int) -> bool {
    &&& cuts.len() > 0
    &&& cuts[0].0 == base + offset(s, from)
    &&& cuts.last().1 == base + byte_len(s)
    &&& forall|i: int| 0 <= i < cuts.len() ==> piece_of(s, base, (#[trigger] cuts[i]).0, cuts[i].1)
    &&& forall|i: int| 0 < i < cuts.len() ==> (#[trigger] cuts[i]).0 == cuts[i - 1].1
}

proof fn lemma_pieces(s: Seq<char>, base: int, from: int)
    requires
        0 <= from < s.len(),
    ensures
        in_pieces(s, base, pieces_from(s, base, from), from),
    decreases s.len() - from,
{
    let to = piece_end(s, from);
    lemma_piece(s, from);
    let all = pieces_from(s, base, from);
    let rest = pieces_from(s, base, to);
    let first = (base + offset(s, from), base + offset(s, to));
    assert(all == seq![first] + rest);
    assert(piece_of(s, base, first.0, first.1));
    if to < s.len() {
        lemma_pieces(s, base, to);
        assert(all.last() == rest.last());
    } else {
        assert(rest =~= Seq::empty());
    }
    assert forall|i: int| 0 <= i < all.len() implies piece_of(
        s,
        base,
        (#[trigger] all[i]).0,
        all[i].1,
    ) by {
        if i > 0 {
            assert(all[i] == rest[i - 1]);
        }
    }
    assert forall|i: int| 0 < i < all.len() implies (#[trigger] all[i]).0 == all[i - 1].1 by {
        assert(all[i] == rest[i - 1]);
        if i > 1 {
            assert(all[i - 1] == rest[i - 2]);
        }
    }
}

/// A long block is cut behind the last sentence end that leaves no more than 900
/// characters, and the pieces follow each other from its start to its end.
pub proof fn law_long_blocks_are_cut_at_sentences(s: Seq<char>, base: int)
    requires
        s.len() > 0,
    ensures
        in_pieces(s, base, pieces_from(s, base, 0), 0),
{
    lemma_pieces(s, base, 0);
}

/// The fragment is made of the blocks from `a` up to `b`, or is a piece of the block
/// `a`.
pub open spec fn made_of(
    text: Seq<char>,
    blocks: Seq<Block>,
    chunk: ChunkView,
    a: int,
    b: int,
) -> bool {
    ||| whole_blocks(text, blocks, chunk.start, chunk.end, a, b)
    ||| {
        &&& 0 <= a < blocks.len()
        &&& b == a + 1
        &&& is_long(text, blocks[a])
        &&& piece_of(
            block_part(text, blocks[a]),
            blocks[a].start as int,
            chunk.start,
            chunk.end,
        )
    }
}

/// The second fragment follows the first: it goes on with the block behind those of
/// the first, or with the rest of the block that the first is a piece of.
pub open spec fn follows(
    text: Seq<char>,
    blocks: Seq<Block>,
    first: ChunkView,
    second: ChunkView,
    x: (int, int),
    y: (int, int),
) -> bool {
    ||| x == y && second.start == first.end && first.end < blocks[x.0].end
    ||| y.0 == x.1 && first.end == blocks[x.1 - 1].end && second.start == blocks[y.0].start
}

/// The fragments divide the first `n` blocks; `spots` tells which blocks each of them
/// is made of.
pub open spec fn divides(
    text: Seq<char>,
    blocks: Seq<Block>,
    chunks: Seq<ChunkView>,
    spots: Seq<(int, int)>,
    n: int,
) -> bool {
    &&& spots.len() == chunks.len()
    &&& n == 0 <==> chunks.len() == 0
    &&& forall|i: int|
        0 <= i < chunks.len() ==> made_of(
            text,
            blocks,
            #[trigger] chunks[i],
            spots[i].0,
            spots[i].1,
        )
    &&& forall|i: int|
        0 < i < chunks.len() ==> follows(
            text,
            blocks,
            chunks[i - 1],
            #[trigger] chunks[i],
            spots[i - 1],
            spots[i],
        )
    &&& chunks.len() > 0 ==> {
        &&& spots[0].0 == 0
        &&& chunks[0].start == blocks[0].start
        &&& spots.last().1 == n
        &&& chunks.last().end == blocks[n - 1].end
    }
}

/// A division and an open fragment behind it.
spec fn under_way(
    text: Seq<char>,
    blocks: Seq<Block>,
    p: Progress,
    spots: Seq<(int, int)>,
    a: int,
    m: int,
) -> bool {
    &&& 0 <= a <= m <= blocks.len()
    &&& divides(text, blocks, p.chunks, spots, a)
    &&& match p.pending {
        None => a == m,
        Some(draft) => {
            &&& gathers(text, blocks, draft.start, draft.end, a, m)
            &&& draft.chars == chars_in(text, blocks, a, m)
        },
    }
}

proof fn lemma_chars(text: Seq<char>, blocks: Seq<Block>, a: int, b: int)
    ensures
        chars_in(text, blocks, a, b) >= 0,
    decreases b - a,
{
    if b > a {
        lemma_chars(text, blocks, a, b - 1);
    }
}

/// One more fragment behind a division.
proof fn lemma_one_more(
    text: Seq<char>,
    blocks: Seq<Block>,
    chunks: Seq<ChunkView>,
    spots: Seq<(int, int)>,
    n: int,
    chunk: ChunkView,
    spot: (int, int),
)
    requires
        divides(text, blocks, chunks, spots, n),
        0 <= n < blocks.len(),
        made_of(text, blocks, chunk, spot.0, spot.1),
        chunk.end == blocks[spot.1 - 1].end,
        spot.0 == n,
        chunk.start == blocks[n].start,
        spot.1 > 0,
    ensures
        divides(text, blocks, chunks.push(chunk), spots.push(spot), spot.1),
{
    let all = chunks.push(chunk);
    let list = spots.push(spot);
    let last = chunks.len() as int;
    assert forall|i: int| 0 <= i < all.len() implies made_of(
        text,
        blocks,
        #[trigger] all[i],
        list[i].0,
        list[i].1,
    ) by {
        if i < last {
            assert(all[i] == chunks[i] && list[i] == spots[i]);
        }
    }
    assert forall|i: int| 0 < i < all.len() implies follows(
        text,
        blocks,
        all[i - 1],
        #[trigger] all[i],
        list[i - 1],
        list[i],
    ) by {
        assert(all[i - 1] == chunks[i - 1] && list[i - 1] == spots[i - 1]);
        if i < last {
            assert(all[i] == chunks[i] && list[i] == spots[i]);
        } else {
            assert(chunks[i - 1] == chunks.last() && spots[i - 1] == spots.last());
        }
    }
    if last > 0 {
        assert(list[0] == spots[0] && all[0] == chunks[0]);
    }
}

proof fn lemma_long(
    text: Seq<char>,
    blocks: Seq<Block>,
    chunks: Seq<ChunkView>,
    spots: Seq<(int, int)>,
    n: int,
    path: Seq<char>,
)
    requires
        divides(text, blocks, chunks, spots, n),
        0 <= n < blocks.len(),
        block_fits(text, blocks[n]),
        is_long(text, blocks[n]),
    ensures
        ({
            let part = block_part(text, blocks[n]);
            let cuts = pieces_from(part, blocks[n].start as int, 0);
            let new = fragments(path, cuts, chunks.len() as int);
            divides(
                text,
                blocks,
                chunks + new,
                spots + Seq::new(cuts.len(), |i: int| (n, n + 1)),
                n + 1,
            )
        }),
{
    let block = blocks[n];
    let part = block_part(text, block);
    let base = block.start as int;
    let cuts = pieces_from(part, base, 0);
    let new = fragments(path, cuts, chunks.len() as int);
    let all = chunks + new;
    let list = spots + Seq::new(cuts.len(), |i: int| (n, n + 1));
    let count = chunks.len() as int;
    lemma_pieces(part, base, 0);
    let a0 = char_at(text, block.start as int);
    let b0 = char_at(text, block.end as int);
    if b0 < a0 {
        lemma_offset_monotonic(text, b0, a0);
    }
    lemma_offset_subrange(text, a0, b0, b0 - a0);
    assert(base + byte_len(part) == block.end);
    assert forall|i: int| 0 <= i < all.len() implies made_of(
        text,
        blocks,
        #[trigger] all[i],
        list[i].0,
        list[i].1,
    ) by {
        if i < count {
            assert(all[i] == chunks[i] && list[i] == spots[i]);
        } else {
            assert(all[i] == new[i - count]);
            assert(piece_of(part, base, cuts[i - count].0, cuts[i - count].1));
            assert(list[i] == (n, n + 1));
        }
    }
    assert forall|i: int| 0 < i < all.len() implies follows(
        text,
        blocks,
        all[i - 1],
        #[trigger] all[i],
        list[i - 1],
        list[i],
    ) by {
        if i < count {
            assert(all[i] == chunks[i] && list[i] == spots[i]);
            assert(all[i - 1] == chunks[i - 1] && list[i - 1] == spots[i - 1]);
        } else {
            let k = i - count;
            assert(all[i] == new[k]);
            assert(list[i] == (n, n + 1));
            if k == 0 {
                assert(all[i - 1] == chunks.last() && list[i - 1] == spots.last());
            } else {
                assert(all[i - 1] == new[k - 1]);
                assert(list[i - 1] == (n, n + 1));
                assert(cuts[k].0 == cuts[k - 1].1);
                assert(piece_of(part, base, cuts[k].0, cuts[k].1));
                let (a, b) = choose|a: int, b: int| #[trigger]
                    cut_at(part, a, b) && cuts[k].0 == base + offset(part, a) && cuts[k].1 == base
                        + offset(part, b);
                lemma_offset_monotonic(part, a, part.len() as int);
            }
        }
    }
    if count > 0 {
        assert(list[0] == spots[0] && all[0] == chunks[0]);
    } else {
        assert(all[0] == new[0] && list[0] == (n, n + 1));
    }
    let last = cuts.len() - 1;
    assert(all.last() == new[last]);
    assert(list.last() == (n, n + 1));
}

/// The open fragment is closed because the block `m` may not join it, or because
/// there is none.
proof fn lemma_close(
    text: Seq<char>,
    blocks: Seq<Block>,
    p: Progress,
    spots: Seq<(int, int)>,
    a: int,
    m: int,
) -> (r: Seq<(int, int)>)
    requires
        under_way(text, blocks, p, spots, a, m),
        p.pending is Some && m < blocks.len() ==> !may_join(text, blocks, a, m),
    ensures
        under_way(text, blocks, sealed(p), r, m, m),
        sealed(p).pending is None,
{
    match p.pending {
        None => spots,
        Some(draft) => {
            let chunk = ChunkView {
                index: p.chunks.len() as int,
                context: draft.context,
                start: draft.start,
                end: draft.end,
            };
            lemma_one_more(text, blocks, p.chunks, spots, a, chunk, (a, m));
            spots.push((a, m))
        },
    }
}

proof fn lemma_step_long(
    title: Seq<char>,
    text: Seq<char>,
    blocks: Seq<Block>,
    p: Progress,
    spots: Seq<(int, int)>,
    a: int,
    k: int,
) -> (r: Seq<(int, int)>)
    requires
        under_way(text, blocks, p, spots, a, k),
        0 <= k < blocks.len(),
        block_fits(text, blocks[k]),
        is_long(text, blocks[k]),
    ensures
        under_way(text, blocks, step(title, text, p, blocks[k]), r, k + 1, k + 1),
{
    let block = blocks[k];
    let part = block_part(text, block);
    lemma_chars(text, blocks, a, k);
    assert(chars_in(text, blocks, a, k + 1) == chars_in(text, blocks, a, k) + part.len());
    let list = lemma_close(text, blocks, p, spots, a, k);
    let q = sealed(p);
    let path = context(title, q.stack);
    lemma_long(text, blocks, q.chunks, list, k, path);
    let cuts = pieces_from(part, block.start as int, 0);
    list + Seq::new(cuts.len(), |i: int| (k, k + 1))
}

proof fn lemma_step_join(
    title: Seq<char>,
    text: Seq<char>,
    blocks: Seq<Block>,
    p: Progress,
    spots: Seq<(int, int)>,
    a: int,
    k: int,
)
    requires
        under_way(text, blocks, p, spots, a, k),
        0 <= k < blocks.len(),
        !is_long(text, blocks[k]),
        p.pending is Some,
        may_join(text, blocks, a, k),
    ensures
        under_way(text, blocks, step(title, text, p, blocks[k]), spots, a, k + 1),
{
    let r = step(title, text, p, blocks[k]);
    let draft = p.pending->0;
    assert(chars_in(text, blocks, a, k + 1) == draft.chars + block_part(text, blocks[k]).len());
    assert(r.chunks == p.chunks);
    assert(r.pending->0.start == draft.start);
    assert forall|j: int| a < j < k + 1 implies #[trigger] may_join(text, blocks, a, j) by {}
    assert(gathers(text, blocks, r.pending->0.start, r.pending->0.end, a, k + 1));
}

proof fn lemma_step_new(
    title: Seq<char>,
    text: Seq<char>,
    blocks: Seq<Block>,
    p: Progress,
    spots: Seq<(int, int)>,
    a: int,
    k: int,
) -> (r: Seq<(int, int)>)
    requires
        under_way(text, blocks, p, spots, a, k),
        0 <= k < blocks.len(),
        !is_long(text, blocks[k]),
        p.pending is Some ==> !may_join(text, blocks, a, k),
    ensures
        under_way(text, blocks, step(title, text, p, blocks[k]), r, k, k + 1),
{
    let part = block_part(text, blocks[k]);
    let list = lemma_close(text, blocks, p, spots, a, k);
    let r = step(title, text, p, blocks[k]);
    assert(chars_in(text, blocks, a, k + 1) == chars_in(text, blocks, a, k) + part.len());
    assert(r.chunks == sealed(p).chunks);
    assert(chars_in(text, blocks, k, k) == 0);
    assert(chars_in(text, blocks, k, k + 1) == part.len());
    assert(gathers(text, blocks, r.pending->0.start, r.pending->0.end, k, k + 1));
    list
}

proof fn lemma_division(title: Seq<char>, text: Seq<char>, blocks: Seq<Block>, m: int) -> (r: (
    Seq<(int, int)>,
    int,
))
    requires
        0 <= m <= blocks.len(),
        forall|i: int| 0 <= i < blocks.len() ==> block_fits(text, #[trigger] blocks[i]),
    ensures
        under_way(text, blocks, progress(title, text, blocks.take(m)), r.0, r.1, m),
    decreases m,
{
    if m == 0 {
        assert(blocks.take(0) =~= Seq::empty());
        (Seq::empty(), 0)
    } else {
        let k = m - 1;
        let (spots, a) = lemma_division(title, text, blocks, k);
        assert(blocks.take(m).drop_last() =~= blocks.take(k));
        assert(blocks.take(m).last() == blocks[k]);
        let p = progress(title, text, blocks.take(k));
        if is_long(text, blocks[k]) {
            (lemma_step_long(title, text, blocks, p, spots, a, k), m)
        } else if p.pending is Some && may_join(text, blocks, a, k) {
            lemma_step_join(title, text, blocks, p, spots, a, k);
            (spots, a)
        } else {
            (lemma_step_new(title, text, blocks, p, spots, a, k), k)
        }
    }
}

/// The fragments of a document divide its blocks, one behind the other. A fragment
/// takes in blocks as long as they may join it, and is closed no earlier; a
/// paragraph that is too long for one fragment is cut into pieces.
pub proof fn law_fragments_divide_the_blocks(title: Seq<char>, text: Seq<char>, blocks: Seq<Block>)
    requires
        forall|i: int| 0 <= i < blocks.len() ==> block_fits(text, #[trigger] blocks[i]),
    ensures
        exists|spots: Seq<(int, int)>|
            divides(text, blocks, chunks_of(title, text, blocks), spots, blocks.len() as int),
{
    let n = blocks.len() as int;
    let (spots, a) = lemma_division(title, text, blocks, n);
    assert(blocks.take(n) =~= blocks);
    let p = progress(title, text, blocks);
    let all = lemma_close(text, blocks, p, spots, a, n);
    assert(divides(text, blocks, chunks_of(title, text, blocks), all, n));
}

} // verus!
