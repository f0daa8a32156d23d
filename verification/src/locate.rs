//! Finds the literals of a query in a text.

use vstd::prelude::*;

use crate::text::{
    byte_len, char_width, chars_of, is_space, lemma_char_at, lemma_offset_monotonic, lower, lowered,
    occurs_at, offset, on_boundary, space, stands_at, to_lower,
};

verus! {

/// A range of bytes.
#[derive(Debug, Clone, Copy, PartialEq, Eq, Structural)]
pub struct Span {
    pub start: usize,
    pub end: usize,
}

/// Index of the first place at `from` or behind it where `part` stands.
pub open spec fn next_match(s: Seq<char>, part: Seq<char>, from: int) -> Option<int>
    decreases s.len() + 1 - from,
{
    if from < 0 || from > s.len() {
        None
    } else if occurs_at(s, part, from) {
        Some(from)
    } else {
        next_match(s, part, from + 1)
    }
}

/// The `k`-th character belongs to one of the matches that are found from left
/// to right, starting at `from`, without overlap.
pub open spec fn matched(s: Seq<char>, part: Seq<char>, from: int, k: int) -> bool
    decreases s.len() - from,
    via matched_decreases
{
    match next_match(s, part, from) {
        None => false,
        Some(j) => part.len() > 0 && (j <= k < j + part.len() || matched(s, part, j + part.len(), k)),
    }
}

#[via_fn]
proof fn matched_decreases(s: Seq<char>, part: Seq<char>, from: int, k: int) {
    lemma_next_match(s, part, from);
}

proof fn lemma_next_match(s: Seq<char>, part: Seq<char>, from: int)
    ensures
        match next_match(s, part, from) {
            None => true,
            Some(j) => from <= j && occurs_at(s, part, j),
        },
    decreases s.len() + 1 - from,
{
    if 0 <= from <= s.len() && !occurs_at(s, part, from) {
        lemma_next_match(s, part, from + 1);
    }
}

/// The characters that are not white space.
pub open spec fn squeezed(s: Seq<char>) -> Seq<char>
    decreases s.len(),
{
    if s.len() == 0 {
        Seq::empty()
    } else if space(s.last()) {
        squeezed(s.drop_last())
    } else {
        squeezed(s.drop_last()).push(s.last())
    }
}

/// Where a match of the characters of `part` from the `j`-th on ends that
/// starts at the `i`-th character of the text and passes over white space.
/// ASCII letters match in either case.
pub open spec fn spaced_end(s: Seq<char>, i: int, part: Seq<char>, j: int) -> Option<int>
    decreases s.len() - i,
{
    if j >= part.len() {
        Some(i)
    } else if i < 0 || i >= s.len() {
        None
    } else if space(s[i]) {
        spaced_end(s, i + 1, part, j)
    } else if lower(s[i]) == lower(part[j]) {
        spaced_end(s, i + 1, part, j + 1)
    } else {
        None
    }
}

/// The first match at `from` or behind it that may have white space inside.
pub open spec fn spaced_match(s: Seq<char>, part: Seq<char>, from: int) -> Option<(int, int)>
    decreases s.len() - from,
{
    if from < 0 || from >= s.len() {
        None
    } else if !space(s[from]) && spaced_end(s, from, part, 0) is Some {
        Some((from, spaced_end(s, from, part, 0)->0))
    } else {
        spaced_match(s, part, from + 1)
    }
}

/// The `k`-th character of the text is part of a place where the literal
/// stands: one of the matches without overlap, or the first match that may
/// have white space inside.
pub open spec fn literal_at(s: Seq<char>, literal: Seq<char>, k: int) -> bool {
    ||| literal.len() > 0 && matched(lowered(s), lowered(literal), 0, k)
    ||| {
        let part = squeezed(literal);
        part.len() > 0 && match spaced_match(s, part, 0) {
            Some((a, b)) => a <= k < b,
            None => false,
        }
    }
}

/// Some literal stands at the `k`-th character.
pub open spec fn located(s: Seq<char>, literals: Seq<String>, k: int) -> bool {
    exists|i: int| 0 <= i < literals.len() && #[trigger] literal_at(s, literals[i]@, k)
}

/// For each character whether a literal stands there.
pub open spec fn located_marks(s: Seq<char>, literals: Seq<String>) -> Seq<bool> {
    Seq::new(s.len(), |k: int| located(s, literals, k))
}

/// Where the run of marks that holds the `k`-th one ends.
pub open spec fn marked_end(marks: Seq<bool>, k: int) -> int
    decreases marks.len() - k,
{
    if 0 <= k < marks.len() && marks[k] {
        marked_end(marks, k + 1)
    } else {
        k
    }
}

/// The byte ranges of the runs of marked characters from the `k`-th on.
pub open spec fn runs_from(s: Seq<char>, marks: Seq<bool>, k: int) -> Seq<(int, int)>
    decreases marks.len() - k,
    via runs_from_decreases
{
    if k < 0 || k >= marks.len() {
        Seq::empty()
    } else if marks[k] {
        let end = marked_end(marks, k);
        seq![(offset(s, k), offset(s, end))] + runs_from(s, marks, end)
    } else {
        runs_from(s, marks, k + 1)
    }
}

#[via_fn]
proof fn runs_from_decreases(s: Seq<char>, marks: Seq<bool>, k: int) {
    if 0 <= k < marks.len() {
        lemma_marked_end(marks, k);
    }
}

proof fn lemma_marked_end(marks: Seq<bool>, k: int)
    requires
        0 <= k <= marks.len(),
    ensures
        k <= marked_end(marks, k) <= marks.len(),
        k < marks.len() && marks[k] ==> k < marked_end(marks, k),
        forall|i: int| k <= i < marked_end(marks, k) ==> marks[i],
        marked_end(marks, k) < marks.len() ==> !marks[marked_end(marks, k)],
    decreases marks.len() - k,
{
    if k < marks.len() && marks[k] {
        lemma_marked_end(marks, k + 1);
    }
}

/// The byte ranges of the literals in a text.
pub open spec fn spans_in(s: Seq<char>, literals: Seq<String>) -> Seq<(int, int)> {
    runs_from(s, located_marks(s, literals), 0)
}

/// Spans without the representation.
pub open spec fn span_views(spans: Seq<Span>) -> Seq<(int, int)> {
    spans.map_values(|span: Span| (span.start as int, span.end as int))
}

/// The characters in lower case as far as they are ASCII letters.
fn lowered_chars(chars: &Vec<char>) -> (r: Vec<char>)
    ensures
        r@ == lowered(chars@),
{
    let mut r: Vec<char> = Vec::new();
    let mut i: usize = 0;
    while i < chars.len()
        invariant
            i <= chars@.len(),
            r@ == lowered(chars@).take(i as int),
        decreases chars@.len() - i,
    {
        r.push(to_lower(chars[i]));
        i += 1;
        assert(r@ =~= lowered(chars@).take(i as int));
    }
    assert(r@ =~= lowered(chars@));
    r
}

/// The characters that are not white space.
fn squeezed_chars(chars: &Vec<char>) -> (r: Vec<char>)
    ensures
        r@ == squeezed(chars@),
{
    let mut r: Vec<char> = Vec::new();
    let mut i: usize = 0;
    while i < chars.len()
        invariant
            i <= chars@.len(),
            r@ == squeezed(chars@.take(i as int)),
        decreases chars@.len() - i,
    {
        assert(chars@.take(i + 1).drop_last() =~= chars@.take(i as int));
        if !is_space(chars[i]) {
            r.push(chars[i]);
        }
        i += 1;
    }
    assert(chars@.take(i as int) =~= chars@);
    r
}

fn mark(marks: &mut Vec<bool>, from: usize, to: usize)
    requires
        from <= to <= old(marks)@.len(),
    ensures
        final(marks)@.len() == old(marks)@.len(),
        forall|k: int|
            0 <= k < old(marks)@.len() ==> #[trigger] final(marks)@[k] == (old(marks)@[k] || from <= k
                < to),
{
    let mut i: usize = from;
    while i < to
        invariant
            from <= i <= to <= old(marks)@.len(),
            marks@.len() == old(marks)@.len(),
            forall|k: int|
                0 <= k < old(marks)@.len() ==> #[trigger] marks@[k] == (old(marks)@[k] || from <= k
                    < i),
        decreases to - i,
    {
        marks.set(i, true);
        i += 1;
    }
}

/// The `k`-th character is marked, or will be by the matches from `from` on.
spec fn shown(marks: Seq<bool>, s: Seq<char>, part: Seq<char>, from: int, k: int) -> bool {
    marks[k] || matched(s, part, from, k)
}

/// Marks the matches of `part` in `s` that are found from left to right
/// without overlap.
fn mark_matches(s: &Vec<char>, part: &Vec<char>, marks: &mut Vec<bool>)
    requires
        part@.len() > 0,
        old(marks)@.len() == s@.len(),
    ensures
        final(marks)@.len() == old(marks)@.len(),
        forall|k: int|
            0 <= k < s@.len() ==> #[trigger] final(marks)@[k] == (old(marks)@[k] || matched(
                s@,
                part@,
                0,
                k,
            )),
{
    let total = s.len();
    let ghost goal = marks@;
    let mut from: usize = 0;
    while from < total
        invariant
            total == s@.len(),
            from <= total,
            part@.len() > 0,
            goal == old(marks)@,
            marks@.len() == s@.len() == goal.len(),
            forall|k: int|
                0 <= k < s@.len() ==> #[trigger] shown(marks@, s@, part@, from as int, k) == shown(
                    goal,
                    s@,
                    part@,
                    0,
                    k,
                ),
        decreases total - from,
    {
        let ghost before = marks@;
        let mut to: usize = from + 1;
        if stands_at(s, part, from) {
            to = from + part.len();
            mark(marks, from, to);
        }
        assert forall|k: int| 0 <= k < s@.len() implies #[trigger] shown(
            marks@,
            s@,
            part@,
            to as int,
            k,
        ) == shown(goal, s@, part@, 0, k) by {
            assert(shown(before, s@, part@, from as int, k) == shown(goal, s@, part@, 0, k));
            if occurs_at(s@, part@, from as int) {
                assert(marks@[k] == (before[k] || from <= k < to));
            } else {
                assert(next_match(s@, part@, from as int) == next_match(s@, part@, to as int));
            }
            assert(matched(s@, part@, from as int, k) == ((occurs_at(s@, part@, from as int)
                && from <= k < to) || matched(s@, part@, to as int, k)));
        }
        from = to;
    }
    assert forall|k: int| 0 <= k < s@.len() implies #[trigger] marks@[k] == (old(marks)@[k]
        || matched(s@, part@, 0, k)) by {
        assert(shown(marks@, s@, part@, from as int, k) == shown(goal, s@, part@, 0, k));
        assert(!occurs_at(s@, part@, from as int));
        assert(next_match(s@, part@, from + 1) is None);
        assert(next_match(s@, part@, from as int) is None);
    }
}

/// Finds the first place where the characters of `part` follow each other with
/// nothing but white space between them. ASCII letters match in either case.
fn scan_ignoring_whitespace(s: &Vec<char>, part: &Vec<char>) -> (r: Option<(usize, usize)>)
    ensures
        (match r {
            Some((a, b)) => Some((a as int, b as int)),
            None => None,
        }) == spaced_match(s@, part@, 0),
        r is Some ==> (r->0).0 <= (r->0).1 <= s@.len(),
{
    let total = s.len();
    let mut from: usize = 0;
    while from < total
        invariant
            total == s@.len(),
            from <= total,
            spaced_match(s@, part@, from as int) == spaced_match(s@, part@, 0),
        decreases total - from,
    {
        if !is_space(s[from]) {
            let mut i: usize = from;
            let mut j: usize = 0;
            let mut failed = false;
            while !failed && i < total && j < part.len()
                invariant
                    total == s@.len(),
                    from <= i <= total,
                    j <= part@.len(),
                    failed ==> spaced_end(s@, from as int, part@, 0) is None,
                    !failed ==> spaced_end(s@, from as int, part@, 0) == spaced_end(
                        s@,
                        i as int,
                        part@,
                        j as int,
                    ),
                decreases total - i, if failed {
                    0int
                } else {
                    1int
                },
            {
                if is_space(s[i]) {
                    i += 1;
                } else if to_lower(s[i]) == to_lower(part[j]) {
                    i += 1;
                    j += 1;
                } else {
                    failed = true;
                }
            }
            if !failed && j == part.len() {
                return Some((from, i));
            }
        }
        from += 1;
    }
    None
}

/// Finds all literals in a text, whatever the case of ASCII letters, and
/// merges ranges that overlap or touch.
///
/// Punctuation counts, so `文档` is not found in `文、档`. White space does
/// not, so `文档` is found in `文 档`.
pub fn locate_literals(text: &str, literals: &Vec<String>) -> (spans: Vec<Span>)
    ensures
        span_views(spans@) == spans_in(text@, literals@),
{
    let chars = chars_of(text);
    let ghost s = text@;
    let hay = lowered_chars(&chars);
    let total = chars.len();
    let mut marks: Vec<bool> = Vec::new();
    let mut i: usize = 0;
    while i < total
        invariant
            i <= total,
            marks@.len() == i,
            forall|k: int| 0 <= k < i ==> !#[trigger] marks@[k],
        decreases total - i,
    {
        marks.push(false);
        i += 1;
    }
    let mut n: usize = 0;
    while n < literals.len()
        invariant
            n <= literals@.len(),
            chars@ == s,
            hay@ == lowered(s),
            total == s.len(),
            marks@.len() == s.len(),
            forall|k: int|
                0 <= k < s.len() ==> #[trigger] marks@[k] == located(
                    s,
                    literals@.take(n as int),
                    k,
                ),
        decreases literals@.len() - n,
    {
        let literal = chars_of(literals[n].as_str());
        let ghost before = marks@;
        let ghost word = literals@[n as int]@;
        if literal.len() > 0 {
            let needle = lowered_chars(&literal);
            mark_matches(&hay, &needle, &mut marks);
        }
        let ghost direct = marks@;
        let solid = squeezed_chars(&literal);
        if solid.len() > 0 {
            if let Some((a, b)) = scan_ignoring_whitespace(&chars, &solid) {
                mark(&mut marks, a, b);
            }
        }
        assert forall|k: int| 0 <= k < s.len() implies #[trigger] marks@[k] == located(
            s,
            literals@.take(n + 1),
            k,
        ) by {
            assert(direct[k] == (before[k] || (word.len() > 0 && matched(
                lowered(s),
                lowered(word),
                0,
                k,
            ))));
            assert(marks@[k] == (before[k] || literal_at(s, word, k)));
            let old_list = literals@.take(n as int);
            let new_list = literals@.take(n + 1);
            if located(s, old_list, k) {
                let m = choose|m: int|
                    0 <= m < old_list.len() && #[trigger] literal_at(s, old_list[m]@, k);
                assert(new_list[m] == old_list[m]);
                assert(literal_at(s, new_list[m]@, k));
            }
            if literal_at(s, word, k) {
                assert(new_list[n as int] == literals@[n as int]);
                assert(literal_at(s, new_list[n as int]@, k));
            }
            if located(s, new_list, k) {
                let m = choose|m: int|
                    0 <= m < new_list.len() && #[trigger] literal_at(s, new_list[m]@, k);
                if m < n {
                    assert(new_list[m] == old_list[m]);
                    assert(literal_at(s, old_list[m]@, k));
                }
            }
        }
        n += 1;
    }
    assert(literals@.take(n as int) =~= literals@);
    assert(marks@ =~= located_marks(s, literals@));
    marked_spans(&chars, &marks)
}

/// The byte ranges of the runs of marked characters.
fn marked_spans(chars: &Vec<char>, marks: &Vec<bool>) -> (spans: Vec<Span>)
    requires
        chars@.len() == marks@.len(),
        byte_len(chars@) <= usize::MAX,
    ensures
        span_views(spans@) == runs_from(chars@, marks@, 0),
{
    let ghost s = chars@;
    let total = chars.len();
    let mut spans: Vec<Span> = Vec::new();
    let mut k: usize = 0;
    let mut position: usize = 0;
    assert(span_views(spans@) + runs_from(s, marks@, 0) =~= runs_from(s, marks@, 0));
    while k < total
        invariant
            s == chars@,
            total == s.len() == marks@.len(),
            k <= total,
            byte_len(s) <= usize::MAX,
            position == offset(s, k as int),
            span_views(spans@) + runs_from(s, marks@, k as int) == runs_from(s, marks@, 0),
        decreases total - k,
    {
        let first = k;
        let start = position;
        let is_marked = marks[k];
        proof {
            lemma_offset_monotonic(s, k + 1, s.len() as int);
        }
        position = position + char_width(chars[k]);
        k += 1;
        if is_marked {
            while k < total && marks[k]
                invariant
                    s == chars@,
                    total == s.len() == marks@.len(),
                    first < k <= total,
                    byte_len(s) <= usize::MAX,
                    position == offset(s, k as int),
                    marked_end(marks@, first as int) == marked_end(marks@, k as int),
                decreases total - k,
            {
                proof {
                    lemma_offset_monotonic(s, k + 1, s.len() as int);
                }
                position = position + char_width(chars[k]);
                k += 1;
            }
            let ghost before = span_views(spans@);
            let ghost rest = runs_from(s, marks@, k as int);
            spans.push(Span { start, end: position });
            proof {
                let run = (start as int, position as int);
                assert(span_views(spans@) =~= before.push(run));
                assert(before + (seq![run] + rest) =~= before.push(run) + rest);
            }
        }
    }
    assert(span_views(spans@) + Seq::<(int, int)>::empty() =~= span_views(spans@));
    spans
}

/// The ranges lie on character boundaries, are not empty, and are apart from
/// each other.
pub open spec fn apart(s: Seq<char>, spans: Seq<(int, int)>) -> bool {
    &&& forall|i: int|
        0 <= i < spans.len() ==> {
            &&& 0 <= (#[trigger] spans[i]).0 < spans[i].1 <= byte_len(s)
            &&& on_boundary(s, spans[i].0)
            &&& on_boundary(s, spans[i].1)
        }
    &&& forall|i: int, j: int|
        0 <= i < j < spans.len() ==> (#[trigger] spans[i]).1 < (#[trigger] spans[j]).0
}

/// One of the ranges has the byte `b`.
pub open spec fn highlighted(spans: Seq<(int, int)>, b: int) -> bool {
    exists|i: int| 0 <= i < spans.len() && (#[trigger] spans[i]).0 <= b < spans[i].1
}

proof fn lemma_runs(s: Seq<char>, marks: Seq<bool>, k: int)
    requires
        s.len() == marks.len(),
        0 <= k <= s.len(),
    ensures
        apart(s, runs_from(s, marks, k)),
        forall|i: int|
            0 <= i < runs_from(s, marks, k).len() ==> offset(s, k) <= (#[trigger] runs_from(
                s,
                marks,
                k,
            )[i]).0,
        forall|m: int|
            k <= m < s.len() ==> (marks[m] <==> highlighted(
                runs_from(s, marks, k),
                #[trigger] offset(s, m),
            )),
    decreases s.len() - k,
{
    if k < s.len() {
        lemma_marked_end(marks, k);
        let all = runs_from(s, marks, k);
        if marks[k] {
            let end = marked_end(marks, k);
            let rest = runs_from(s, marks, end);
            lemma_runs(s, marks, end);
            let run = (offset(s, k), offset(s, end));
            assert(all == seq![run] + rest);
            lemma_offset_monotonic(s, 0, k);
            lemma_offset_monotonic(s, k, end);
            lemma_offset_monotonic(s, end, s.len() as int);
            lemma_char_at(s, k);
            lemma_char_at(s, end);
            assert(all[0] == run);
            assert forall|i: int| 0 <= i < rest.len() implies offset(s, end) < (
            #[trigger] rest[i]).0 by {
                if end < s.len() {
                    lemma_runs(s, marks, end + 1);
                    assert(rest == runs_from(s, marks, end + 1));
                    lemma_offset_monotonic(s, end, end + 1);
                }
            }
            assert forall|i: int| 0 <= i < all.len() implies {
                &&& 0 <= (#[trigger] all[i]).0 < all[i].1 <= byte_len(s)
                &&& on_boundary(s, all[i].0)
                &&& on_boundary(s, all[i].1)
                &&& offset(s, k) <= all[i].0
            } by {
                if i > 0 {
                    assert(all[i] == rest[i - 1]);
                }
            }
            assert forall|i: int, j: int| 0 <= i < j < all.len() implies (#[trigger] all[i]).1 < (
            #[trigger] all[j]).0 by {
                assert(all[j] == rest[j - 1]);
                if i > 0 {
                    assert(all[i] == rest[i - 1]);
                }
            }
            assert forall|m: int| k <= m < s.len() implies (marks[m] <==> highlighted(
                all,
                #[trigger] offset(s, m),
            )) by {
                if m < end {
                    lemma_offset_monotonic(s, k, m);
                    lemma_offset_monotonic(s, m, end);
                    assert(all[0].0 <= offset(s, m) < all[0].1);
                } else {
                    lemma_offset_monotonic(s, end, m);
                    if highlighted(rest, offset(s, m)) {
                        let i = choose|i: int|
                            0 <= i < rest.len() && (#[trigger] rest[i]).0 <= offset(s, m)
                                < rest[i].1;
                        assert(all[i + 1] == rest[i]);
                    }
                    if highlighted(all, offset(s, m)) {
                        let i = choose|i: int|
                            0 <= i < all.len() && (#[trigger] all[i]).0 <= offset(s, m)
                                < all[i].1;
                        assert(all[i] == rest[i - 1]);
                    }
                }
            }
        } else {
            lemma_runs(s, marks, k + 1);
            lemma_offset_monotonic(s, k, k + 1);
            assert(!highlighted(all, offset(s, k)));
        }
    }
}

/// Highlighted ranges lie on character boundaries, come in order and neither
/// overlap nor touch.
pub proof fn law_spans_are_apart(s: Seq<char>, literals: Seq<String>)
    ensures
        apart(s, spans_in(s, literals)),
{
    lemma_runs(s, located_marks(s, literals), 0);
}

/// A character is highlighted exactly where a literal stands.
pub proof fn law_spans_show_literals(s: Seq<char>, literals: Seq<String>, k: int)
    requires
        0 <= k < s.len(),
    ensures
        highlighted(spans_in(s, literals), offset(s, k)) <==> located(s, literals, k),
{
    lemma_runs(s, located_marks(s, literals), 0);
    assert(located_marks(s, literals)[k] == located(s, literals, k));
}

} // verus!
