//! Which headings a fragment is shown under.

use vstd::prelude::*;

use crate::chunk::{
    above, chunks_of, context, context_parts, fragments, pieces_from, progress, sealed, step,
    Progress, CHUNK_MAX_CHARS,
};
use crate::chunk_laws::{good_piece, law_pieces_end_sentences, ordered};
use crate::text::{
    block_fits, block_part, byte_len, char_at, joined, lemma_offset_monotonic,
    lemma_offset_subrange, Block,
};

verus! {

/// The heading `j` leads to the block `n`: it stands at or before it, and no
/// heading of the same rank or a higher one comes between.
pub open spec fn leads(blocks: Seq<Block>, j: int, n: int) -> bool {
    &&& 0 <= j <= n < blocks.len()
    &&& blocks[j].heading_level is Some
    &&& forall|k: int|
        j < k <= n && (#[trigger] blocks[k]).heading_level is Some
            ==> blocks[k].heading_level->0 > blocks[j].heading_level->0
}

/// These are the headings that lead to the block `n`, in the order of the document.
pub open spec fn leading(blocks: Seq<Block>, n: int, path: Seq<int>) -> bool {
    &&& forall|i: int| 0 <= i < path.len() ==> leads(blocks, #[trigger] path[i], n)
    &&& forall|i: int, j: int| 0 <= i < j < path.len() ==> path[i] < path[j]
    &&& forall|j: int| #[trigger] leads(blocks, j, n) ==> path.contains(j)
}

/// The title, unless it is empty, and the texts of headings.
pub open spec fn names(
    title: Seq<char>,
    text: Seq<char>,
    blocks: Seq<Block>,
    path: Seq<int>,
) -> Seq<Seq<char>> {
    (if title.len() == 0 {
        Seq::empty()
    } else {
        seq![title]
    }) + Seq::new(path.len(), |i: int| block_part(text, blocks[path[i]]))
}

/// Names with an arrow between them; one that repeats the one before it is left
/// out.
pub open spec fn arrowed(list: Seq<Seq<char>>) -> Seq<char>
    decreases list.len(),
{
    if list.len() == 0 {
        Seq::empty()
    } else if list.len() == 1 {
        list[0]
    } else if list[list.len() - 1] == list[list.len() - 2] {
        arrowed(list.drop_last())
    } else {
        arrowed(list.drop_last()) + seq![' ', '›', ' '] + list.last()
    }
}

/// The path is that of the headings that lead to the block `n`.
pub open spec fn under_headings(
    title: Seq<char>,
    text: Seq<char>,
    blocks: Seq<Block>,
    n: int,
    shown: Seq<char>,
) -> bool {
    exists|path: Seq<int>| #[trigger]
        leading(blocks, n, path) && shown == arrowed(names(title, text, blocks, path))
}

/// A heading never stands under an earlier one of its own level or of a lower
/// rank: the levels of the headings that lead to a block rise.
pub proof fn law_levels_rise(blocks: Seq<Block>, n: int, path: Seq<int>, i: int, j: int)
    requires
        leading(blocks, n, path),
        0 <= i < j < path.len(),
    ensures
        blocks[path[i]].heading_level->0 < blocks[path[j]].heading_level->0,
{
    assert(leads(blocks, path[i], n) && leads(blocks, path[j], n));
    assert(path[i] < path[j]);
}

/// The stack holds these headings.
spec fn stacked(
    text: Seq<char>,
    blocks: Seq<Block>,
    path: Seq<int>,
    stack: Seq<(u8, Seq<char>)>,
) -> bool {
    &&& stack.len() == path.len()
    &&& forall|i: int|
        0 <= i < path.len() ==> #[trigger] stack[i] == (
            blocks[path[i]].heading_level->0,
            block_part(text, blocks[path[i]]),
        )
}

/// No heading at all, before the first block.
spec fn leading_upto(blocks: Seq<Block>, path: Seq<int>) -> bool {
    if blocks.len() == 0 {
        path.len() == 0
    } else {
        leading(blocks, blocks.len() - 1, path)
    }
}

proof fn lemma_leads_later(blocks: Seq<Block>, j: int)
    requires
        blocks.len() > 1,
    ensures
        ({
            let n = blocks.len() - 1;
            j < n ==> (leads(blocks, j, n) <==> leads(blocks.drop_last(), j, n - 1) && (
            blocks[n].heading_level is None || blocks[n].heading_level->0
                > blocks[j].heading_level->0))
        }),
{
    let n = blocks.len() - 1;
    let init = blocks.drop_last();
    if 0 <= j < n {
        assert(init[j] == blocks[j]);
        if leads(blocks, j, n) {
            assert forall|k: int|
                j < k <= n - 1 && (#[trigger] init[k]).heading_level is Some implies init[k].heading_level->0
                > init[j].heading_level->0 by {
                assert(init[k] == blocks[k]);
            }
        }
        if leads(init, j, n - 1) && (blocks[n].heading_level is None || blocks[n].heading_level->0
            > blocks[j].heading_level->0) {
            assert forall|k: int|
                j < k <= n && (#[trigger] blocks[k]).heading_level is Some implies blocks[k].heading_level->0
                > blocks[j].heading_level->0 by {
                if k < n {
                    assert(init[k] == blocks[k]);
                }
            }
        }
    }
}

/// How many of the headings of a path have a higher rank than a level.
spec fn kept(blocks: Seq<Block>, path: Seq<int>, level: u8) -> int
    decreases path.len(),
{
    if path.len() == 0 {
        0
    } else if blocks[path.last()].heading_level->0 < level {
        path.len() as int
    } else {
        kept(blocks, path.drop_last(), level)
    }
}

proof fn lemma_kept(
    text: Seq<char>,
    blocks: Seq<Block>,
    n: int,
    path: Seq<int>,
    full: Seq<int>,
    stack: Seq<(u8, Seq<char>)>,
    level: u8,
)
    requires
        leading(blocks, n, full),
        path.len() <= full.len(),
        path == full.take(path.len() as int),
        stacked(text, blocks, path, stack),
        forall|i: int|
            path.len() <= i < full.len() ==> blocks[#[trigger] full[i]].heading_level->0 >= level,
    ensures
        ({
            let m = kept(blocks, path, level);
            &&& 0 <= m <= path.len()
            &&& above(stack, level) == stack.take(m)
            &&& forall|i: int|
                0 <= i < full.len() ==> (i < m <==> blocks[#[trigger] full[i]].heading_level->0
                    < level)
        }),
    decreases path.len(),
{
    let m = kept(blocks, path, level);
    if path.len() > 0 {
        let last = path.len() - 1;
        assert(path[last] == full[last]);
        assert(stack[last].0 == blocks[full[last]].heading_level->0);
        if blocks[path.last()].heading_level->0 < level {
            assert(stack.take(m) =~= stack);
            assert forall|i: int| 0 <= i < full.len() implies (i < m
                <==> blocks[#[trigger] full[i]].heading_level->0 < level) by {
                if i < last {
                    law_levels_rise(blocks, n, full, i, last);
                }
            }
        } else {
            let less = path.drop_last();
            assert(less =~= full.take(less.len() as int));
            assert forall|i: int| 0 <= i < less.len() implies #[trigger] stack.drop_last()[i] == (
                blocks[less[i]].heading_level->0,
                block_part(text, blocks[less[i]]),
            ) by {
                assert(stack[i] == (
                    blocks[path[i]].heading_level->0,
                    block_part(text, blocks[path[i]]),
                ));
            }
            lemma_kept(text, blocks, n, less, full, stack.drop_last(), level);
            assert(stack.drop_last().take(m) =~= stack.take(m));
        }
    } else {
        assert(stack.take(0) =~= stack);
    }
}

/// What the path becomes with one more block.
spec fn path_with(blocks: Seq<Block>, path: Seq<int>) -> Seq<int> {
    let n = blocks.len() - 1;
    match blocks[n].heading_level {
        Some(level) => path.take(kept(blocks, path, level)).push(n),
        None => path,
    }
}

proof fn lemma_path_with(
    text: Seq<char>,
    blocks: Seq<Block>,
    path: Seq<int>,
    stack: Seq<(u8, Seq<char>)>,
)
    requires
        blocks.len() > 0,
        leading_upto(blocks.drop_last(), path),
        stacked(text, blocks.drop_last(), path, stack),
    ensures
        leading(blocks, blocks.len() - 1, path_with(blocks, path)),
        stacked(
            text,
            blocks,
            path_with(blocks, path),
            match blocks.last().heading_level {
                Some(level) => above(stack, level).push((level, block_part(text, blocks.last()))),
                None => stack,
            },
        ),
{
    let n = blocks.len() - 1;
    let init = blocks.drop_last();
    let next = path_with(blocks, path);
    assert forall|i: int| 0 <= i < path.len() implies 0 <= #[trigger] path[i] < n && init[path[i]]
        == blocks[path[i]] by {
        assert(leads(init, path[i], n - 1));
    }
    assert(stacked(text, blocks, path, stack)) by {
        assert forall|i: int| 0 <= i < path.len() implies #[trigger] stack[i] == (
            blocks[path[i]].heading_level->0,
            block_part(text, blocks[path[i]]),
        ) by {
            assert(init[path[i]] == blocks[path[i]]);
        }
    }
    match blocks[n].heading_level {
        Some(level) => {
            let m = kept(blocks, path, level);
            if init.len() > 0 {
                // The levels are the same in both lists of blocks.
                assert(path.take(path.len() as int) =~= path);
                lemma_kept(text, init, n - 1, path, path, stack, level);
                lemma_kept_same(init, blocks, path, level);
            } else {
                assert(path =~= Seq::empty());
                assert(stack =~= Seq::empty());
                assert(stack.take(0) =~= stack);
            }
            assert(next == path.take(m).push(n));
            assert(above(stack, level) == stack.take(m));
            assert forall|i: int| 0 <= i < next.len() implies leads(blocks, #[trigger] next[i], n) by {
                if i < m {
                    assert(next[i] == path[i]);
                    assert(leads(init, path[i], n - 1));
                    lemma_leads_later(blocks, path[i]);
                    assert(init[path[i]] == blocks[path[i]]);
                }
            }
            assert forall|i: int, j: int| 0 <= i < j < next.len() implies next[i] < next[j] by {
                assert(next[i] == path[i]);
                if j < m {
                    assert(next[j] == path[j]);
                }
            }
            assert forall|j: int| #[trigger] leads(blocks, j, n) implies next.contains(j) by {
                if j == n {
                    assert(next[m] == n);
                } else {
                    lemma_leads_later(blocks, j);
                    assert(leads(init, j, n - 1));
                    let i = choose|i: int| 0 <= i < path.len() && path[i] == j;
                    assert(init[path[i]] == blocks[path[i]]);
                    assert(i < m);
                    assert(next[i] == j);
                }
            }
            let after = stack.take(m).push((level, block_part(text, blocks.last())));
            assert forall|i: int| 0 <= i < next.len() implies #[trigger] after[i] == (
                blocks[next[i]].heading_level->0,
                block_part(text, blocks[next[i]]),
            ) by {
                if i < m {
                    assert(next[i] == path[i]);
                    assert(stack[i] == (
                        blocks[path[i]].heading_level->0,
                        block_part(text, blocks[path[i]]),
                    ));
                }
            }
        },
        None => {
            assert forall|i: int| 0 <= i < path.len() implies leads(blocks, #[trigger] path[i], n) by {
                assert(leads(init, path[i], n - 1));
                lemma_leads_later(blocks, path[i]);
            }
            assert forall|j: int| #[trigger] leads(blocks, j, n) implies path.contains(j) by {
                if j < n {
                    lemma_leads_later(blocks, j);
                    assert(leads(init, j, n - 1));
                }
            }
        },
    }
}

proof fn lemma_kept_same(init: Seq<Block>, blocks: Seq<Block>, path: Seq<int>, level: u8)
    requires
        forall|i: int| 0 <= i < path.len() ==> init[#[trigger] path[i]] == blocks[path[i]],
    ensures
        kept(init, path, level) == kept(blocks, path, level),
    decreases path.len(),
{
    if path.len() > 0 {
        assert(path.last() == path[path.len() - 1]);
        let less = path.drop_last();
        assert forall|i: int| 0 <= i < less.len() implies init[#[trigger] less[i]]
            == blocks[less[i]] by {
            assert(less[i] == path[i]);
        }
        lemma_kept_same(init, blocks, less, level);
    }
}

proof fn lemma_context(
    title: Seq<char>,
    text: Seq<char>,
    blocks: Seq<Block>,
    path: Seq<int>,
    stack: Seq<(u8, Seq<char>)>,
)
    requires
        stacked(text, blocks, path, stack),
    ensures
        ({
            let list = names(title, text, blocks, path);
            let parts = context_parts(title, stack);
            &&& joined(parts, " › "@) == arrowed(list)
            &&& parts.len() == 0 <==> list.len() == 0
            &&& list.len() > 0 ==> parts.last() == list.last()
        }),
    decreases path.len(),
{
    reveal_strlit(" › ");
    let arrow = seq![' ', '›', ' '];
    assert(" › "@ =~= arrow);
    let list = names(title, text, blocks, path);
    let parts = context_parts(title, stack);
    if path.len() == 0 {
        assert(stack =~= Seq::empty());
        if title.len() == 0 {
            assert(list =~= Seq::empty());
        } else {
            assert(list =~= seq![title]);
        }
    } else {
        let less = path.drop_last();
        let below = stack.drop_last();
        let last = path.len() - 1;
        let name = block_part(text, blocks[path[last]]);
        assert forall|i: int| 0 <= i < less.len() implies #[trigger] below[i] == (
            blocks[less[i]].heading_level->0,
            block_part(text, blocks[less[i]]),
        ) by {
            assert(stack[i] == (
                blocks[path[i]].heading_level->0,
                block_part(text, blocks[path[i]]),
            ));
        }
        lemma_context(title, text, blocks, less, below);
        let shorter = names(title, text, blocks, less);
        assert(list =~= shorter.push(name));
        assert(list.drop_last() =~= shorter);
        assert(stack.last().1 == name) by {
            assert(stack[last] == (blocks[path[last]].heading_level->0, name));
        }
        let before = context_parts(title, below);
        if shorter.len() > 0 {
            assert(list[list.len() - 2] == shorter.last());
            if before.last() != name {
                assert(parts == before.push(name));
                assert(parts.drop_last() =~= before);
            }
        } else {
            assert(parts =~= seq![name]);
            assert(list =~= seq![name]);
        }
    }
}

/// A fragment starts at a block, or in it, and is shown under the headings that
/// lead to that block.
pub open spec fn placed(
    title: Seq<char>,
    text: Seq<char>,
    blocks: Seq<Block>,
    n: int,
    start: int,
    shown: Seq<char>,
) -> bool {
    &&& 0 <= n < blocks.len()
    &&& blocks[n].start <= start
    &&& start == blocks[n].start || start < blocks[n].end
    &&& under_headings(title, text, blocks, n, shown)
}

/// What starts there and is shown so has its place.
pub open spec fn has_place(
    title: Seq<char>,
    text: Seq<char>,
    blocks: Seq<Block>,
    start: int,
    shown: Seq<char>,
) -> bool {
    exists|n: int| placed(title, text, blocks, n, start, shown)
}

/// Each of the fragments has its place.
spec fn all_placed(title: Seq<char>, text: Seq<char>, blocks: Seq<Block>, p: Progress) -> bool {
    &&& forall|i: int|
        0 <= i < p.chunks.len() ==> has_place(
            title,
            text,
            blocks,
            (#[trigger] p.chunks[i]).start,
            p.chunks[i].context,
        )
    &&& p.pending is Some ==> has_place(
        title,
        text,
        blocks,
        p.pending->0.start,
        p.pending->0.context,
    )
}

/// The headings that lead to a block do not depend on what follows it.
proof fn lemma_placed_stays(
    title: Seq<char>,
    text: Seq<char>,
    blocks: Seq<Block>,
    n: int,
    start: int,
    shown: Seq<char>,
)
    requires
        blocks.len() > 0,
        placed(title, text, blocks.drop_last(), n, start, shown),
    ensures
        placed(title, text, blocks, n, start, shown),
{
    let init = blocks.drop_last();
    let path = choose|path: Seq<int>| #[trigger]
        leading(init, n, path) && shown == arrowed(names(title, text, init, path));
    assert forall|j: int| 0 <= j <= n implies #[trigger] blocks[j] == init[j] by {}
    assert forall|j: int| leads(init, j, n) == #[trigger] leads(blocks, j, n) by {
        if 0 <= j <= n {
            assert(blocks[j] == init[j]);
            if leads(init, j, n) {
                assert forall|k: int|
                    j < k <= n && (#[trigger] blocks[k]).heading_level is Some implies blocks[k].heading_level->0
                    > blocks[j].heading_level->0 by {
                    assert(blocks[k] == init[k]);
                }
            }
            if leads(blocks, j, n) {
                assert forall|k: int|
                    j < k <= n && (#[trigger] init[k]).heading_level is Some implies init[k].heading_level->0
                    > init[j].heading_level->0 by {
                    assert(blocks[k] == init[k]);
                }
            }
        }
    }
    assert(leading(blocks, n, path)) by {
        assert forall|i: int| 0 <= i < path.len() implies leads(blocks, #[trigger] path[i], n) by {
            assert(leads(init, path[i], n));
        }
        assert forall|j: int| #[trigger] leads(blocks, j, n) implies path.contains(j) by {
            assert(leads(init, j, n));
        }
    }
    assert(names(title, text, init, path) =~= names(title, text, blocks, path)) by {
        assert forall|i: int| 0 <= i < path.len() implies block_part(text, init[path[i]])
            == block_part(text, blocks[path[i]]) by {
            assert(leads(init, path[i], n));
            assert(blocks[path[i]] == init[path[i]]);
        }
    }
}

proof fn lemma_headings(title: Seq<char>, text: Seq<char>, blocks: Seq<Block>) -> (path: Seq<int>)
    requires
        forall|i: int| 0 <= i < blocks.len() ==> block_fits(text, #[trigger] blocks[i]),
    ensures
        leading_upto(blocks, path),
        stacked(text, blocks, path, progress(title, text, blocks).stack),
        all_placed(title, text, blocks, progress(title, text, blocks)),
    decreases blocks.len(),
{
    if blocks.len() == 0 {
        Seq::empty()
    } else {
        let init = blocks.drop_last();
        let block = blocks.last();
        let n = blocks.len() - 1;
        assert forall|i: int| 0 <= i < init.len() implies block_fits(text, #[trigger] init[i]) by {
            assert(init[i] == blocks[i]);
        }
        let path = lemma_headings(title, text, init);
        let p = progress(title, text, init);
        let r = step(title, text, p, block);
        let next = path_with(blocks, path);
        lemma_path_with(text, blocks, path, p.stack);
        assert(r == progress(title, text, blocks));
        assert(r.stack == match block.heading_level {
            Some(level) => above(p.stack, level).push((level, block_part(text, block))),
            None => p.stack,
        });
        lemma_context(title, text, blocks, next, r.stack);
        let here = context(title, r.stack);
        assert(under_headings(title, text, blocks, n, here)) by {
            assert(leading(blocks, n, next));
        }
        assert(placed(title, text, blocks, n, block.start as int, here));
        // What was placed before stays placed.
        assert forall|i: int| 0 <= i < p.chunks.len() implies has_place(
                title,
                text,
                blocks,
                (#[trigger] p.chunks[i]).start,
                p.chunks[i].context,
            ) by {
            assert(has_place(title, text, init, p.chunks[i].start, p.chunks[i].context));
            let m = choose|m: int|
                placed(title, text, init, m, p.chunks[i].start, p.chunks[i].context);
            lemma_placed_stays(title, text, blocks, m, p.chunks[i].start, p.chunks[i].context);
        }
        if p.pending is Some {
            let d = p.pending->0;
            let m = choose|m: int| placed(title, text, init, m, d.start, d.context);
            lemma_placed_stays(title, text, blocks, m, d.start, d.context);
        }
        assert(all_placed(title, text, blocks, p));
        let q = sealed(p);
        assert(all_placed(title, text, blocks, q)) by {
            assert forall|i: int| 0 <= i < q.chunks.len() implies has_place(
                title,
                text,
                blocks,
                (#[trigger] q.chunks[i]).start,
                    q.chunks[i].context,
                ) by {
                if i < p.chunks.len() {
                    assert(q.chunks[i] == p.chunks[i]);
                } else {
                    assert(q.chunks[i].start == p.pending->0.start);
                }
            }
        }
        let part = block_part(text, block);
        if block.heading_level is None && part.len() > CHUNK_MAX_CHARS {
            let base = block.start as int;
            let cuts = pieces_from(part, base, 0);
            let count = q.chunks.len() as int;
            let new = fragments(here, cuts, count);
            assert(r.chunks == q.chunks + new);
            assert forall|i: int| 0 <= i < r.chunks.len() implies has_place(
                title,
                text,
                blocks,
                (#[trigger] r.chunks[i]).start,
                    r.chunks[i].context,
                ) by {
                if i < count {
                    assert(r.chunks[i] == q.chunks[i]);
                } else {
                    let k = i - count;
                    assert(r.chunks[i] == new[k]);
                    law_pieces_end_sentences(part, base, k);
                    let (a, b) = choose|a: int, b: int| good_piece(part, base, cuts[k], a, b);
                    assert(good_piece(part, base, cuts[k], a, b));
                    lemma_offset_monotonic(part, 0, a);
                    lemma_offset_monotonic(part, a, part.len() as int);
                    assert(block_fits(text, blocks[n]));
                    let a0 = char_at(text, block.start as int);
                    let b0 = char_at(text, block.end as int);
                    if b0 < a0 {
                        lemma_offset_monotonic(text, b0, a0);
                    }
                    lemma_offset_subrange(text, a0, b0, b0 - a0);
                    assert(base + byte_len(part) == block.end);
                    assert(placed(title, text, blocks, n, new[k].start, new[k].context));
                }
            }
        } else {
            assert(r.pending is Some);
            assert(r.chunks == p.chunks || r.chunks == q.chunks);
            if r.pending->0.start == block.start && r.pending->0.context == here {
                assert(placed(title, text, blocks, n, block.start as int, here));
            }
            assert(has_place(title, text, blocks, r.pending->0.start, r.pending->0.context));
        }
        next
    }
}

/// Every fragment is shown under the title and the headings that lead to the block
/// it starts with: for each rank the last heading before it, unless one of a
/// higher rank came since.
pub proof fn law_fragments_stand_under_their_headings(
    title: Seq<char>,
    text: Seq<char>,
    blocks: Seq<Block>,
    i: int,
)
    requires
        ordered(text, blocks),
        0 <= i < chunks_of(title, text, blocks).len(),
    ensures
        has_place(
            title,
            text,
            blocks,
            chunks_of(title, text, blocks)[i].start,
            chunks_of(title, text, blocks)[i].context,
        ),
{
    let path = lemma_headings(title, text, blocks);
    let p = progress(title, text, blocks);
    let all = chunks_of(title, text, blocks);
    if i < p.chunks.len() {
        assert(all[i] == p.chunks[i]);
    } else {
        assert(all[i].start == p.pending->0.start && all[i].context == p.pending->0.context);
    }
}

} // verus!
