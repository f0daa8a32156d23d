//! Splits a document into fragments of 400 to 900 characters, aware of its
//! headings.

use vstd::prelude::*;

use crate::text::{
    block_fits, block_part, byte_len, char_at, char_width, chars_of, join, joined,
    lemma_offset_monotonic, lemma_offset_subrange, offset, same, texts, Block, PlainText,
};

verus! {

/// A fragment is not closed before a heading while it has fewer characters.
pub const CHUNK_MIN_CHARS: usize = 400;

/// Blocks are not merged beyond this many characters.
pub const CHUNK_MAX_CHARS: usize = 900;

/// A fragment; `start` and `end` are byte offsets into the document's text.
#[derive(Debug, PartialEq, Eq)]
pub struct Chunk {
    pub index: usize,
    /// The headings that lead to the fragment, from the document's title on.
    pub context_header: String,
    pub start: usize,
    pub end: usize,
}

/// What a fragment holds.
pub struct ChunkView {
    pub index: int,
    pub context: Seq<char>,
    pub start: int,
    pub end: int,
}

impl View for Chunk {
    type V = ChunkView;

    open spec fn view(&self) -> ChunkView {
        ChunkView {
            index: self.index as int,
            context: self.context_header@,
            start: self.start as int,
            end: self.end as int,
        }
    }
}

impl Clone for Chunk {
    fn clone(&self) -> (copy: Self)
        ensures
            copy@ == self@,
    {
        Chunk {
            index: self.index,
            context_header: self.context_header.clone(),
            start: self.start,
            end: self.end,
        }
    }
}

/// What a list of fragments holds.
pub open spec fn chunk_views(chunks: Seq<Chunk>) -> Seq<ChunkView> {
    chunks.map_values(|chunk: Chunk| chunk@)
}

/// A character behind which a long block may be cut.
pub open spec fn sentence_end(c: char) -> bool {
    c == '。' || c == '!' || c == '?' || c == ';' || c == '；' || c == '\n'
}

fn is_sentence_end(c: char) -> (r: bool)
    ensures
        r == sentence_end(c),
{
    c == '。' || c == '!' || c == '?' || c == ';' || c == '；' || c == '\n'
}

/// Index behind the last sentence end among the characters from `from` up to
/// `to`; where there is none, the length of a full piece behind `from`.
pub open spec fn cut_before(s: Seq<char>, from: int, to: int) -> int
    decreases to - from,
{
    if to <= from {
        from + CHUNK_MAX_CHARS
    } else if sentence_end(s[to - 1]) {
        to
    } else {
        cut_before(s, from, to - 1)
    }
}

/// Where the piece that starts at `from` ends.
pub open spec fn piece_end(s: Seq<char>, from: int) -> int {
    if s.len() - from > CHUNK_MAX_CHARS {
        cut_before(s, from, from + CHUNK_MAX_CHARS)
    } else {
        s.len() as int
    }
}

proof fn lemma_cut_before(s: Seq<char>, from: int, to: int)
    requires
        to <= from + CHUNK_MAX_CHARS,
    ensures
        from < cut_before(s, from, to) <= from + CHUNK_MAX_CHARS,
    decreases to - from,
{
    if to > from && !sentence_end(s[to - 1]) {
        lemma_cut_before(s, from, to - 1);
    }
}

proof fn lemma_piece_end(s: Seq<char>, from: int)
    requires
        0 <= from < s.len(),
    ensures
        from < piece_end(s, from) <= s.len(),
        piece_end(s, from) <= from + CHUNK_MAX_CHARS,
{
    lemma_cut_before(s, from, from + CHUNK_MAX_CHARS);
}

/// The pieces of a block from the character `from` on, as byte ranges that
/// start at `base`.
pub open spec fn pieces_from(s: Seq<char>, base: int, from: int) -> Seq<(int, int)>
    decreases s.len() - from,
    via pieces_from_decreases
{
    if from < 0 || from >= s.len() {
        Seq::empty()
    } else {
        seq![(base + offset(s, from), base + offset(s, piece_end(s, from)))] + pieces_from(
            s,
            base,
            piece_end(s, from),
        )
    }
}

#[via_fn]
proof fn pieces_from_decreases(s: Seq<char>, base: int, from: int) {
    if 0 <= from < s.len() {
        lemma_piece_end(s, from);
    }
}

/// Byte ranges without the representation.
pub open spec fn ranges(pieces: Seq<(usize, usize)>) -> Seq<(int, int)> {
    pieces.map_values(|p: (usize, usize)| (p.0 as int, p.1 as int))
}

/// Splits a long block into pieces of at most 900 characters, and returns the
/// byte range of each.
///
/// A piece ends behind the last sentence end among its first 900 characters;
/// where there is none it takes all of them. Nothing is lost: the last piece
/// may be short.
pub fn split_long_block(text: &str, base: usize) -> (pieces: Vec<(usize, usize)>)
    requires
        base + byte_len(text@) <= usize::MAX,
    ensures
        ranges(pieces@) == pieces_from(text@, base as int, 0),
{
    let chars = chars_of(text);
    let ghost s = text@;
    let total = chars.len();
    let mut pieces: Vec<(usize, usize)> = Vec::new();
    let mut from: usize = 0;
    let mut start: usize = base;
    assert(ranges(pieces@) + pieces_from(s, base as int, 0) =~= pieces_from(s, base as int, 0));
    while from < total
        invariant
            chars@ == s,
            total == s.len(),
            base + byte_len(s) <= usize::MAX,
            from <= total,
            start == base + offset(s, from as int),
            ranges(pieces@) + pieces_from(s, base as int, from as int) == pieces_from(
                s,
                base as int,
                0,
            ),
        decreases total - from,
    {
        proof {
            lemma_piece_end(s, from as int);
        }
        let mut to: usize = total;
        if total - from > CHUNK_MAX_CHARS {
            to = from + CHUNK_MAX_CHARS;
            while to > from && !is_sentence_end(chars[to - 1])
                invariant
                    chars@ == s,
                    total == s.len(),
                    from <= to <= from + CHUNK_MAX_CHARS < total,
                    cut_before(s, from as int, to as int) == cut_before(
                        s,
                        from as int,
                        from + CHUNK_MAX_CHARS,
                    ),
                decreases to - from,
            {
                to -= 1;
            }
            if to == from {
                to = from + CHUNK_MAX_CHARS;
            }
        }
        assert(to == piece_end(s, from as int));
        let first = start;
        let mut i: usize = from;
        while i < to
            invariant
                chars@ == s,
                from <= i <= to <= s.len(),
                base + byte_len(s) <= usize::MAX,
                start == base + offset(s, i as int),
            decreases to - i,
        {
            proof {
                lemma_offset_monotonic(s, i + 1, s.len() as int);
            }
            start = start + char_width(chars[i]);
            i += 1;
        }
        let ghost before = ranges(pieces@);
        let ghost rest = pieces_from(s, base as int, to as int);
        pieces.push((first, start));
        proof {
            let piece = (first as int, start as int);
            assert(ranges(pieces@) =~= before.push(piece));
            assert(before + (seq![piece] + rest) =~= before.push(piece) + rest);
        }
        from = to;
    }
    assert(ranges(pieces@) + Seq::<(int, int)>::empty() =~= ranges(pieces@));
    pieces
}

/// A heading that leads to what follows it.
pub struct Heading {
    pub level: u8,
    pub text: String,
}

/// What a list of headings holds.
pub open spec fn headings(stack: Seq<Heading>) -> Seq<(u8, Seq<char>)> {
    stack.map_values(|h: Heading| (h.level, h.text@))
}

/// The title and the headings, without neighbours that are the same.
pub open spec fn context_parts(title: Seq<char>, stack: Seq<(u8, Seq<char>)>) -> Seq<Seq<char>>
    decreases stack.len(),
{
    if stack.len() == 0 {
        if title.len() == 0 {
            Seq::empty()
        } else {
            seq![title]
        }
    } else {
        let before = context_parts(title, stack.drop_last());
        if before.len() > 0 && before.last() == stack.last().1 {
            before
        } else {
            before.push(stack.last().1)
        }
    }
}

/// The path of headings that a fragment is shown under.
pub open spec fn context(title: Seq<char>, stack: Seq<(u8, Seq<char>)>) -> Seq<char> {
    joined(context_parts(title, stack), " › "@)
}

/// The path of headings that a fragment is shown under.
fn context_of(title: &str, stack: &Vec<Heading>) -> (s: String)
    ensures
        s@ == context(title@, headings(stack@)),
{
    let ghost all = headings(stack@);
    let mut parts: Vec<String> = Vec::new();
    if !title.is_empty() {
        parts.push(title.to_owned());
    }
    assert(texts(parts@) =~= context_parts(title@, all.take(0)));
    let mut i: usize = 0;
    while i < stack.len()
        invariant
            i <= stack@.len(),
            all == headings(stack@),
            texts(parts@) == context_parts(title@, all.take(i as int)),
        decreases stack@.len() - i,
    {
        proof {
            assert(all.take(i + 1).drop_last() =~= all.take(i as int));
            assert(all.take(i + 1).last() == (stack@[i as int].level, stack@[i as int].text@));
            assert(texts(parts@).len() == parts@.len());
        }
        let repeated = parts.len() > 0 && same(
            parts[parts.len() - 1].as_str(),
            stack[i].text.as_str(),
        );
        if !repeated {
            let ghost before = parts@;
            parts.push(stack[i].text.clone());
            assert(texts(parts@) =~= texts(before).push(stack@[i as int].text@));
        }
        i += 1;
    }
    assert(all.take(i as int) =~= all);
    join(&parts, " › ")
}

/// A fragment that blocks are still being added to.
pub struct Draft {
    pub chars: int,
    pub start: int,
    pub end: int,
    pub context: Seq<char>,
}

/// How far the division of a document has come.
pub struct Progress {
    pub chunks: Seq<ChunkView>,
    pub stack: Seq<(u8, Seq<char>)>,
    pub pending: Option<Draft>,
}

/// The headings that stay when one of the given level follows.
pub open spec fn above(stack: Seq<(u8, Seq<char>)>, level: u8) -> Seq<(u8, Seq<char>)>
    decreases stack.len(),
{
    if stack.len() > 0 && stack.last().0 >= level {
        above(stack.drop_last(), level)
    } else {
        stack
    }
}

/// The open fragment is closed, if there is one.
pub open spec fn sealed(p: Progress) -> Progress {
    match p.pending {
        None => p,
        Some(draft) => Progress {
            chunks: p.chunks.push(
                ChunkView {
                    index: p.chunks.len() as int,
                    context: draft.context,
                    start: draft.start,
                    end: draft.end,
                },
            ),
            pending: None,
            ..p
        },
    }
}

/// A block is added to the open fragment, or to a new one.
pub open spec fn grown(title: Seq<char>, p: Progress, block: Block, count: int) -> Progress {
    let draft = match p.pending {
        Some(draft) => draft,
        None => Draft {
            chars: 0,
            start: block.start as int,
            end: block.start as int,
            context: context(title, p.stack),
        },
    };
    Progress {
        pending: Some(Draft { chars: draft.chars + count, end: block.end as int, ..draft }),
        ..p
    }
}

/// Fragments under one heading path, one for each range.
pub open spec fn fragments(path: Seq<char>, ranges: Seq<(int, int)>, first: int) -> Seq<ChunkView> {
    Seq::new(
        ranges.len(),
        |i: int|
            ChunkView { index: first + i, context: path, start: ranges[i].0, end: ranges[i].1 },
    )
}

/// One more block.
pub open spec fn step(title: Seq<char>, text: Seq<char>, p: Progress, block: Block) -> Progress {
    let part = block_part(text, block);
    let count = part.len() as int;
    match block.heading_level {
        Some(level) => {
            let q = if p.pending is Some && p.pending->0.chars >= CHUNK_MIN_CHARS {
                sealed(p)
            } else {
                p
            };
            grown(
                title,
                Progress { stack: above(q.stack, level).push((level, part)), ..q },
                block,
                count,
            )
        },
        None => if count > CHUNK_MAX_CHARS {
            let q = sealed(p);
            Progress {
                chunks: q.chunks + fragments(
                    context(title, q.stack),
                    pieces_from(part, block.start as int, 0),
                    q.chunks.len() as int,
                ),
                ..q
            }
        } else {
            let q = if p.pending is Some && p.pending->0.chars + count > CHUNK_MAX_CHARS {
                sealed(p)
            } else {
                p
            };
            grown(title, q, block, count)
        },
    }
}

/// The division after the first blocks.
pub open spec fn progress(title: Seq<char>, text: Seq<char>, blocks: Seq<Block>) -> Progress
    decreases blocks.len(),
{
    if blocks.len() == 0 {
        Progress { chunks: Seq::empty(), stack: Seq::empty(), pending: None }
    } else {
        step(title, text, progress(title, text, blocks.drop_last()), blocks.last())
    }
}

/// The fragments of a document.
pub open spec fn chunks_of(title: Seq<char>, text: Seq<char>, blocks: Seq<Block>) -> Seq<ChunkView> {
    sealed(progress(title, text, blocks)).chunks
}

/// A fragment that blocks are still being added to. The count stops at the
/// largest number there is.
struct Pending {
    chars: usize,
    start: usize,
    end: usize,
    context: String,
}

spec fn draft_of(pending: Option<Pending>, chars: int) -> Option<Draft> {
    match pending {
        None => None,
        Some(p) => Some(
            Draft { chars, start: p.start as int, end: p.end as int, context: p.context@ },
        ),
    }
}

/// The state of the division is the one that the model has.
spec fn shows(
    p: Progress,
    chunks: Seq<Chunk>,
    stack: Seq<Heading>,
    pending: Option<Pending>,
) -> bool {
    &&& p.chunks == chunk_views(chunks)
    &&& p.stack == headings(stack)
    &&& p.pending is Some <==> pending is Some
    &&& p.pending is Some ==> {
        &&& p.pending == draft_of(pending, p.pending->0.chars)
        &&& p.pending->0.chars >= 0
        &&& pending->0.chars == if p.pending->0.chars <= usize::MAX {
            p.pending->0.chars
        } else {
            usize::MAX as int
        }
    }
}

fn seal(chunks: &mut Vec<Chunk>, pending: Option<Pending>)
    ensures
        forall|p: Progress, stack: Seq<Heading>|
            #[trigger] shows(p, old(chunks)@, stack, pending) ==> shows(
                sealed(p),
                final(chunks)@,
                stack,
                None,
            ),
{
    let ghost before = chunks@;
    if let Some(p) = pending {
        chunks.push(
            Chunk { index: chunks.len(), context_header: p.context, start: p.start, end: p.end },
        );
        assert(chunk_views(chunks@) =~= chunk_views(before).push(chunks@.last()@));
    }
}

fn grow(
    title: &str,
    stack: &Vec<Heading>,
    pending: Option<Pending>,
    block: &Block,
    count: usize,
) -> (r: Option<Pending>)
    ensures
        forall|p: Progress, chunks: Seq<Chunk>|
            #[trigger] shows(p, chunks, stack@, pending) ==> shows(
                grown(title@, p, *block, count as int),
                chunks,
                stack@,
                r,
            ),
{
    let draft = match pending {
        Some(draft) => draft,
        None => Pending {
            chars: 0,
            start: block.start,
            end: block.start,
            context: context_of(title, stack),
        },
    };
    Some(
        Pending {
            chars: draft.chars.saturating_add(count),
            start: draft.start,
            end: block.end,
            context: draft.context,
        },
    )
}

/// Divides a document into fragments.
///
/// Blocks are merged up to 900 characters. A heading starts a new fragment
/// once the open one has 400; before that it joins it. A block that is longer
/// by itself is split at sentence ends.
pub fn chunk_document(title: &str, plain: &PlainText) -> (chunks: Vec<Chunk>)
    requires
        plain.wf(),
    ensures
        chunk_views(chunks@) == chunks_of(title@, plain.text@, plain.blocks@),
{
    let ghost text = plain.text@;
    let ghost blocks = plain.blocks@;
    let mut chunks: Vec<Chunk> = Vec::new();
    let mut stack: Vec<Heading> = Vec::new();
    let mut pending: Option<Pending> = None;
    let mut i: usize = 0;
    proof {
        assert(chunk_views(chunks@) =~= Seq::empty());
        assert(headings(stack@) =~= Seq::empty());
        assert(blocks.take(0) =~= Seq::empty());
    }
    while i < plain.blocks.len()
        invariant
            i <= blocks.len(),
            plain.wf(),
            text == plain.text@,
            blocks == plain.blocks@,
            shows(progress(title@, text, blocks.take(i as int)), chunks@, stack@, pending),
        decreases blocks.len() - i,
    {
        let block = plain.blocks[i];
        let ghost p = progress(title@, text, blocks.take(i as int));
        proof {
            assert(block_fits(text, blocks[i as int]));
            assert(blocks.take(i + 1).drop_last() =~= blocks.take(i as int));
            assert(blocks.take(i + 1).last() == block);
        }
        let part = plain.block_text(&block);
        let chars = chars_of(part);
        let count = chars.len();
        match block.heading_level {
            Some(level) => {
                let full = match &pending {
                    Some(draft) => draft.chars >= CHUNK_MIN_CHARS,
                    None => false,
                };
                let ghost q = if full {
                    sealed(p)
                } else {
                    p
                };
                if full {
                    seal(&mut chunks, pending);
                    pending = None;
                }
                assert(shows(q, chunks@, stack@, pending));
                let ghost kept = q.stack;
                while stack.len() > 0 && stack[stack.len() - 1].level >= level
                    invariant
                        above(headings(stack@), level) == above(kept, level),
                    decreases stack@.len(),
                {
                    let ghost before = headings(stack@);
                    assert(before.last() == (stack@.last().level, stack@.last().text@));
                    stack.pop();
                    assert(headings(stack@) =~= before.drop_last());
                }
                let ghost before = headings(stack@);
                proof {
                    if stack@.len() > 0 {
                        assert(before.last() == (stack@.last().level, stack@.last().text@));
                    }
                    assert(before == above(kept, level));
                }
                stack.push(Heading { level, text: part.to_owned() });
                assert(headings(stack@) =~= before.push((level, part@)));
                let ghost q = Progress { stack: above(kept, level).push((level, part@)), ..q };
                assert(shows(q, chunks@, stack@, pending));
                pending = grow(title, &stack, pending, &block, count);
            },
            None => {
                if count > CHUNK_MAX_CHARS {
                    seal(&mut chunks, pending);
                    pending = None;
                    let ghost q = sealed(p);
                    assert(shows(q, chunks@, stack@, pending));
                    let path = context_of(title, &stack);
                    proof {
                        let a = char_at(text, block.start as int);
                        let b = char_at(text, block.end as int);
                        if b < a {
                            lemma_offset_monotonic(text, b, a);
                        }
                        lemma_offset_subrange(text, a, b, b - a);
                    }
                    let pieces = split_long_block(part, block.start);
                    let ghost cuts = ranges(pieces@);
                    let ghost first = q.chunks.len() as int;
                    let ghost all = fragments(path@, cuts, first);
                    let mut k: usize = 0;
                    assert(q.chunks + all.take(0) =~= q.chunks);
                    while k < pieces.len()
                        invariant
                            k <= pieces@.len(),
                            cuts == ranges(pieces@),
                            first == q.chunks.len(),
                            all == fragments(path@, cuts, first),
                            chunk_views(chunks@) == q.chunks + all.take(k as int),
                        decreases pieces@.len() - k,
                    {
                        let (start, end) = pieces[k];
                        let ghost before = chunk_views(chunks@);
                        assert(before.len() == chunks@.len());
                        chunks.push(
                            Chunk { index: chunks.len(), context_header: path.clone(), start, end },
                        );
                        proof {
                            assert(chunk_views(chunks@) =~= before.push(chunks@.last()@));
                            assert(all.take(k + 1) =~= all.take(k as int).push(all[k as int]));
                            assert(all[k as int] == chunks@.last()@);
                            assert(chunk_views(chunks@) =~= q.chunks + all.take(k + 1));
                        }
                        k += 1;
                    }
                    assert(all.take(k as int) =~= all);
                } else {
                    let full = match &pending {
                        Some(draft) => draft.chars.saturating_add(count) > CHUNK_MAX_CHARS,
                        None => false,
                    };
                    let ghost q = if full {
                        sealed(p)
                    } else {
                        p
                    };
                    if full {
                        seal(&mut chunks, pending);
                        pending = None;
                    }
                    assert(shows(q, chunks@, stack@, pending));
                    pending = grow(title, &stack, pending, &block, count);
                }
            },
        }
        i += 1;
    }
    assert(blocks.take(i as int) =~= blocks);
    seal(&mut chunks, pending);
    assert(shows(sealed(progress(title@, text, blocks)), chunks@, stack@, None));
    chunks
}

} // verus!
