//! What holds of the fragments of every document.

use vstd::prelude::*;

use crate::chunk::{
    chunks_of, cut_before, fragments, grown, piece_end, pieces_from, progress, sealed, sentence_end,
    step, ChunkView, Progress, CHUNK_MAX_CHARS,
};
use crate::text::{
    block_fits, block_part, byte_len, char_at, lemma_char_at, lemma_offset_monotonic,
    lemma_offset_subrange, offset, on_boundary, Block,
};

verus! {

proof fn lemma_cut_before_bounds(s: Seq<char>, from: int, to: int)
    requires
        to <= from + CHUNK_MAX_CHARS,
    ensures
        from < cut_before(s, from, to) <= from + CHUNK_MAX_CHARS,
        cut_before(s, from, to) < from + CHUNK_MAX_CHARS ==> sentence_end(
            s[cut_before(s, from, to) - 1],
        ),
    decreases to - from,
{
    if to > from && !sentence_end(s[to - 1]) {
        lemma_cut_before_bounds(s, from, to - 1);
    }
}

/// The piece is made of the characters from `a` up to `b`: at most a full
/// piece, and a full one unless it ends the text or a sentence.
pub open spec fn good_piece(s: Seq<char>, base: int, piece: (int, int), a: int, b: int) -> bool {
    &&& 0 <= a < b <= s.len()
    &&& b - a <= CHUNK_MAX_CHARS
    &&& b == s.len() || b - a == CHUNK_MAX_CHARS || sentence_end(s[b - 1])
    &&& piece == (base + offset(s, a), base + offset(s, b))
}

/// The range is a piece of the text.
pub open spec fn is_piece(s: Seq<char>, base: int, piece: (int, int)) -> bool {
    exists|a: int, b: int| good_piece(s, base, piece, a, b)
}

/// The first piece from a character on, and those behind it.
proof fn lemma_first_piece(s: Seq<char>, base: int, from: int)
    requires
        0 <= from < s.len(),
    ensures
        ({
            let to = piece_end(s, from);
            let first = (base + offset(s, from), base + offset(s, to));
            &&& from < to <= s.len()
            &&& pieces_from(s, base, from) == seq![first] + pieces_from(s, base, to)
            &&& is_piece(s, base, first)
        }),
{
    let to = piece_end(s, from);
    let first = (base + offset(s, from), base + offset(s, to));
    lemma_cut_before_bounds(s, from, from + CHUNK_MAX_CHARS);
    assert(good_piece(s, base, first, from, to));
}

proof fn lemma_pieces_follow(s: Seq<char>, base: int, from: int)
    requires
        0 <= from < s.len(),
    ensures
        ({
            let all = pieces_from(s, base, from);
            &&& all.len() > 0
            &&& all[0].0 == base + offset(s, from)
            &&& all.last().1 == base + byte_len(s)
            &&& forall|i: int| 0 <= i < all.len() - 1 ==> (#[trigger] all[i]).1 == all[i + 1].0
        }),
    decreases s.len() - from,
{
    let to = piece_end(s, from);
    lemma_first_piece(s, base, from);
    let all = pieces_from(s, base, from);
    let rest = pieces_from(s, base, to);
    if to < s.len() {
        lemma_pieces_follow(s, base, to);
        assert(all.last() == rest.last());
        assert forall|i: int| 0 <= i < all.len() - 1 implies (#[trigger] all[i]).1 == all[i + 1].0 by {
            assert(all[i + 1] == rest[i]);
            if i > 0 {
                assert(all[i] == rest[i - 1]);
                assert(rest[i - 1].1 == rest[i].0);
            }
        }
    } else {
        assert(rest =~= Seq::empty());
    }
}

proof fn lemma_pieces_good(s: Seq<char>, base: int, from: int, i: int)
    requires
        0 <= from < s.len(),
        0 <= i < pieces_from(s, base, from).len(),
    ensures
        is_piece(s, base, pieces_from(s, base, from)[i]),
    decreases s.len() - from,
{
    let to = piece_end(s, from);
    lemma_first_piece(s, base, from);
    let rest = pieces_from(s, base, to);
    if i > 0 {
        assert(pieces_from(s, base, from)[i] == rest[i - 1]);
        if to == s.len() {
            assert(rest =~= Seq::empty());
        }
        lemma_pieces_good(s, base, to, i - 1);
    }
}

/// The pieces of a long block follow each other without a gap from its start
/// to its end, so that no character is lost.
pub proof fn law_pieces_lose_nothing(s: Seq<char>, base: int)
    requires
        s.len() > 0,
    ensures
        ({
            let all = pieces_from(s, base, 0);
            &&& all.len() > 0
            &&& all[0].0 == base
            &&& all.last().1 == base + byte_len(s)
            &&& forall|i: int| 0 <= i < all.len() - 1 ==> (#[trigger] all[i]).1 == all[i + 1].0
        }),
{
    lemma_pieces_follow(s, base, 0);
}

/// Each piece of a long block has 900 characters at most, and fewer only where
/// it ends a sentence or the block.
pub proof fn law_pieces_end_sentences(s: Seq<char>, base: int, i: int)
    requires
        0 <= i < pieces_from(s, base, 0).len(),
    ensures
        is_piece(s, base, pieces_from(s, base, 0)[i]),
{
    if s.len() > 0 {
        lemma_pieces_good(s, base, 0, i);
    }
}

/// The blocks name parts of the text, one behind the other.
pub open spec fn ordered(text: Seq<char>, blocks: Seq<Block>) -> bool {
    &&& forall|i: int| 0 <= i < blocks.len() ==> block_fits(text, #[trigger] blocks[i])
    &&& forall|i: int, j: int|
        0 <= i < j < blocks.len() ==> (#[trigger] blocks[i]).end <= (#[trigger] blocks[j]).start
}

/// A range of the text between character boundaries.
pub open spec fn proper(text: Seq<char>, start: int, end: int) -> bool {
    start <= end && on_boundary(text, start) && on_boundary(text, end)
}

/// Fragments that are numbered, lie on character boundaries, do not overlap
/// and end before `limit`.
pub open spec fn tidy(text: Seq<char>, chunks: Seq<ChunkView>, limit: int) -> bool {
    &&& forall|i: int|
        0 <= i < chunks.len() ==> {
            &&& (#[trigger] chunks[i]).index == i
            &&& proper(text, chunks[i].start, chunks[i].end)
            &&& chunks[i].end <= limit
        }
    &&& forall|i: int, j: int|
        0 <= i < j < chunks.len() ==> (#[trigger] chunks[i]).end <= (#[trigger] chunks[j]).start
}

spec fn tidy_progress(text: Seq<char>, p: Progress, limit: int) -> bool {
    match p.pending {
        None => tidy(text, p.chunks, limit),
        Some(draft) => {
            &&& tidy(text, p.chunks, draft.start)
            &&& proper(text, draft.start, draft.end)
            &&& draft.end <= limit
        },
    }
}

/// Some fragment has the byte `b` of the text.
pub open spec fn covered(chunks: Seq<ChunkView>, b: int) -> bool {
    exists|i: int| 0 <= i < chunks.len() && (#[trigger] chunks[i]).start <= b < chunks[i].end
}

spec fn covered_progress(p: Progress, b: int) -> bool {
    ||| covered(p.chunks, b)
    ||| p.pending is Some && p.pending->0.start <= b < p.pending->0.end
}

proof fn lemma_sealed(text: Seq<char>, p: Progress, limit: int)
    requires
        tidy_progress(text, p, limit),
    ensures
        tidy_progress(text, sealed(p), limit),
        sealed(p).pending is None,
        forall|b: int| covered_progress(p, b) ==> #[trigger] covered_progress(sealed(p), b),
{
    let q = sealed(p);
    if let Some(draft) = p.pending {
        assert forall|b: int| covered_progress(p, b) implies #[trigger] covered_progress(q, b) by {
            if covered(p.chunks, b) {
                let i = choose|i: int|
                    0 <= i < p.chunks.len() && (#[trigger] p.chunks[i]).start <= b
                        < p.chunks[i].end;
                assert(q.chunks[i] == p.chunks[i]);
            } else {
                assert(q.chunks[p.chunks.len() as int].start <= b);
            }
        }
    }
}

proof fn lemma_grown(
    title: Seq<char>,
    text: Seq<char>,
    p: Progress,
    block: Block,
    count: int,
    limit: int,
)
    requires
        tidy_progress(text, p, limit),
        block_fits(text, block),
        limit <= block.start,
    ensures
        tidy_progress(text, grown(title, p, block, count), block.end as int),
        forall|b: int|
            covered_progress(p, b) || block.start <= b < block.end ==> #[trigger] covered_progress(
                grown(title, p, block, count),
                b,
            ),
{
    let q = grown(title, p, block, count);
    if p.pending is None {
        assert(tidy(text, q.chunks, block.start as int));
    }
}

proof fn lemma_step(title: Seq<char>, text: Seq<char>, p: Progress, block: Block, limit: int)
    requires
        tidy_progress(text, p, limit),
        block_fits(text, block),
        limit <= block.start,
    ensures
        tidy_progress(text, step(title, text, p, block), block.end as int),
        forall|b: int|
            covered_progress(p, b) || block.start <= b < block.end ==> #[trigger] covered_progress(
                step(title, text, p, block),
                b,
            ),
{
    let part = block_part(text, block);
    let count = part.len() as int;
    let r = step(title, text, p, block);
    lemma_sealed(text, p, limit);
    match block.heading_level {
        Some(level) => {
            let q = if p.pending is Some && p.pending->0.chars >= crate::chunk::CHUNK_MIN_CHARS {
                sealed(p)
            } else {
                p
            };
            let q2 = Progress { stack: crate::chunk::above(q.stack, level).push((level, part)), ..q };
            assert(forall|b: int| covered_progress(q, b) == #[trigger] covered_progress(q2, b));
            lemma_grown(title, text, q2, block, count, limit);
            assert forall|b: int|
                covered_progress(p, b) || block.start <= b
                    < block.end implies #[trigger] covered_progress(r, b) by {
                assert(covered_progress(p, b) ==> covered_progress(sealed(p), b));
                assert(covered_progress(p, b) ==> covered_progress(q2, b));
            }
        },
        None => if count > CHUNK_MAX_CHARS {
            let q = sealed(p);
            let base = block.start as int;
            let cuts = pieces_from(part, base, 0);
            lemma_pieces_follow(part, base, 0);
            let a0 = char_at(text, block.start as int);
            let b0 = char_at(text, block.end as int);
            if b0 < a0 {
                lemma_offset_monotonic(text, b0, a0);
            }
            lemma_offset_subrange(text, a0, b0, b0 - a0);
            assert(base + byte_len(part) == block.end);
            let n = q.chunks.len() as int;
            let path = crate::chunk::context(title, q.stack);
            let new = fragments(path, cuts, n);
            assert(r.chunks == q.chunks + new);
            assert forall|i: int| 0 <= i < cuts.len() implies {
                &&& proper(text, (#[trigger] cuts[i]).0, cuts[i].1)
                &&& base <= cuts[i].0 < cuts[i].1 <= block.end
            } by {
                lemma_pieces_good(part, base, 0, i);
                let (a, b) = choose|a: int, b: int| good_piece(part, base, cuts[i], a, b);
                assert(good_piece(part, base, cuts[i], a, b));
                lemma_offset_subrange(text, a0, b0, a);
                lemma_offset_subrange(text, a0, b0, b);
                lemma_offset_monotonic(part, 0, a);
                lemma_offset_monotonic(part, a, b);
                lemma_offset_monotonic(part, b, part.len() as int);
                lemma_char_at(text, a0 + a);
                lemma_char_at(text, a0 + b);
            }
            lemma_cuts_ordered(cuts);
            assert forall|i: int, j: int| 0 <= i < j < r.chunks.len() implies (
            #[trigger] r.chunks[i]).end <= (#[trigger] r.chunks[j]).start by {
                if j >= n {
                    assert(r.chunks[j] == new[j - n]);
                    let cut = cuts[j - n];
                    if i >= n {
                        assert(r.chunks[i] == new[i - n]);
                    } else {
                        assert(r.chunks[i] == q.chunks[i]);
                    }
                } else {
                    assert(r.chunks[i] == q.chunks[i]);
                    assert(r.chunks[j] == q.chunks[j]);
                }
            }
            assert forall|i: int| 0 <= i < r.chunks.len() implies {
                &&& (#[trigger] r.chunks[i]).index == i
                &&& proper(text, r.chunks[i].start, r.chunks[i].end)
                &&& r.chunks[i].end <= block.end
            } by {
                if i >= n {
                    assert(r.chunks[i] == new[i - n]);
                    let cut = cuts[i - n];
                } else {
                    assert(r.chunks[i] == q.chunks[i]);
                }
            }
            assert forall|b: int|
                covered_progress(p, b) || block.start <= b
                    < block.end implies #[trigger] covered_progress(r, b) by {
                if covered_progress(p, b) {
                    assert(covered_progress(q, b));
                    let i = choose|i: int|
                        0 <= i < q.chunks.len() && (#[trigger] q.chunks[i]).start <= b
                            < q.chunks[i].end;
                    assert(r.chunks[i] == q.chunks[i]);
                } else {
                    lemma_cuts_cover(cuts, b);
                    let k = choose|k: int| 0 <= k < cuts.len() && (#[trigger] cuts[k]).0 <= b < cuts[k].1;
                    assert(r.chunks[n + k] == new[k]);
                }
            }
        } else {
            let q = if p.pending is Some && p.pending->0.chars + count > CHUNK_MAX_CHARS {
                sealed(p)
            } else {
                p
            };
            lemma_grown(title, text, q, block, count, limit);
            assert forall|b: int|
                covered_progress(p, b) || block.start <= b
                    < block.end implies #[trigger] covered_progress(r, b) by {
                assert(covered_progress(p, b) ==> covered_progress(sealed(p), b));
                assert(covered_progress(p, b) ==> covered_progress(q, b));
            }
        },
    }
}

proof fn lemma_cuts_ordered(cuts: Seq<(int, int)>)
    requires
        forall|i: int| 0 <= i < cuts.len() - 1 ==> (#[trigger] cuts[i]).1 == cuts[i + 1].0,
        forall|i: int| 0 <= i < cuts.len() ==> (#[trigger] cuts[i]).0 < cuts[i].1,
    ensures
        forall|i: int, j: int|
            0 <= i < j < cuts.len() ==> (#[trigger] cuts[i]).1 <= (#[trigger] cuts[j]).0,
    decreases cuts.len(),
{
    if cuts.len() > 1 {
        let init = cuts.drop_last();
        assert forall|i: int| 0 <= i < init.len() - 1 implies (#[trigger] init[i]).1 == init[i
            + 1].0 by {
            assert(init[i] == cuts[i]);
        }
        assert forall|i: int| 0 <= i < init.len() implies (#[trigger] init[i]).0 < init[i].1 by {
            assert(init[i] == cuts[i]);
        }
        lemma_cuts_ordered(init);
        assert forall|i: int, j: int| 0 <= i < j < cuts.len() implies (#[trigger] cuts[i]).1 <= (
        #[trigger] cuts[j]).0 by {
            assert(init[i] == cuts[i]);
            if j < init.len() {
                assert(init[j] == cuts[j]);
            } else {
                let k = cuts.len() - 2;
                assert(cuts[k].1 == cuts[k + 1].0);
                assert(init[k] == cuts[k]);
            }
        }
    }
}

proof fn lemma_cuts_cover(cuts: Seq<(int, int)>, b: int)
    requires
        cuts.len() > 0,
        forall|i: int| 0 <= i < cuts.len() - 1 ==> (#[trigger] cuts[i]).1 == cuts[i + 1].0,
        cuts[0].0 <= b < cuts.last().1,
    ensures
        exists|k: int| 0 <= k < cuts.len() && (#[trigger] cuts[k]).0 <= b < cuts[k].1,
    decreases cuts.len(),
{
    let last = cuts.len() - 1;
    if cuts[last].0 <= b {
        assert(cuts[last].0 <= b < cuts[last].1);
    } else {
        let init = cuts.drop_last();
        assert(cuts[last - 1].1 == cuts[last].0);
        assert forall|i: int| 0 <= i < init.len() - 1 implies (#[trigger] init[i]).1 == init[i
            + 1].0 by {
            assert(init[i] == cuts[i]);
        }
        lemma_cuts_cover(init, b);
        let k = choose|k: int| 0 <= k < init.len() && (#[trigger] init[k]).0 <= b < init[k].1;
        assert(cuts[k] == init[k]);
    }
}

proof fn lemma_progress(title: Seq<char>, text: Seq<char>, blocks: Seq<Block>)
    requires
        ordered(text, blocks),
    ensures
        tidy_progress(
            text,
            progress(title, text, blocks),
            if blocks.len() == 0 {
                0
            } else {
                blocks.last().end as int
            },
        ),
        forall|i: int, b: int|
            0 <= i < blocks.len() && (#[trigger] blocks[i]).start <= b < blocks[i].end
                ==> #[trigger] covered_progress(progress(title, text, blocks), b),
    decreases blocks.len(),
{
    if blocks.len() > 0 {
        let init = blocks.drop_last();
        assert forall|i: int| 0 <= i < init.len() implies block_fits(text, #[trigger] init[i]) by {
            assert(init[i] == blocks[i]);
        }
        assert forall|i: int, j: int| 0 <= i < j < init.len() implies (#[trigger] init[i]).end <= (
        #[trigger] init[j]).start by {
            assert(init[i] == blocks[i] && init[j] == blocks[j]);
        }
        lemma_progress(title, text, init);
        let limit = if init.len() == 0 {
            0
        } else {
            init.last().end as int
        };
        if init.len() > 0 {
            assert(init.last() == blocks[blocks.len() - 2]);
            assert(blocks[blocks.len() - 2].end <= blocks[blocks.len() - 1].start);
        }
        let p = progress(title, text, init);
        lemma_step(title, text, p, blocks.last(), limit);
        assert forall|i: int, b: int|
            0 <= i < blocks.len() && (#[trigger] blocks[i]).start <= b
                < blocks[i].end implies #[trigger] covered_progress(
            progress(title, text, blocks),
            b,
        ) by {
            if i < init.len() {
                assert(init[i] == blocks[i]);
                assert(covered_progress(p, b));
            }
        }
    }
}

/// Fragments are numbered from zero, lie on character boundaries, and follow
/// each other without overlap.
pub proof fn law_chunks_are_ordered(title: Seq<char>, text: Seq<char>, blocks: Seq<Block>)
    requires
        ordered(text, blocks),
    ensures
        tidy(
            text,
            chunks_of(title, text, blocks),
            if blocks.len() == 0 {
                0
            } else {
                blocks.last().end as int
            },
        ),
{
    lemma_progress(title, text, blocks);
    let limit = if blocks.len() == 0 {
        0
    } else {
        blocks.last().end as int
    };
    lemma_sealed(text, progress(title, text, blocks), limit);
}

/// The fragments cover every block.
pub proof fn law_chunks_cover_blocks(
    title: Seq<char>,
    text: Seq<char>,
    blocks: Seq<Block>,
    i: int,
    b: int,
)
    requires
        ordered(text, blocks),
        0 <= i < blocks.len(),
        blocks[i].start <= b < blocks[i].end,
    ensures
        covered(chunks_of(title, text, blocks), b),
{
    lemma_progress(title, text, blocks);
    let p = progress(title, text, blocks);
    lemma_sealed(text, p, blocks.last().end as int);
    assert(covered_progress(p, b));
    assert(covered_progress(sealed(p), b));
}

} // verus!
