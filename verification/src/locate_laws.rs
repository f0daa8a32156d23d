//! What it takes for a literal to be found.

use vstd::prelude::*;

use crate::locate::{
    highlighted, law_spans_show_literals, literal_at, located, located_marks, matched,
    next_match, runs_from, spaced_end, spaced_match, spans_in, squeezed,
};
use crate::text::{contains, lower, lowered, occurs_at, offset, space};

verus! {

proof fn lemma_squeezed_concat(a: Seq<char>, b: Seq<char>)
    ensures
        squeezed(a + b) == squeezed(a) + squeezed(b),
    decreases b.len(),
{
    if b.len() == 0 {
        assert(a + b =~= a);
        assert(squeezed(b) =~= Seq::empty());
        assert(squeezed(a) + squeezed(b) =~= squeezed(a));
    } else {
        lemma_squeezed_concat(a, b.drop_last());
        assert((a + b).drop_last() =~= a + b.drop_last());
        assert(squeezed(a + b) =~= squeezed(a) + squeezed(b));
    }
}

/// What is left of a text from a character on when white space is left out.
proof fn lemma_squeezed_from(s: Seq<char>, i: int)
    requires
        0 <= i < s.len(),
    ensures
        squeezed(s.skip(i)) == if space(s[i]) {
            squeezed(s.skip(i + 1))
        } else {
            seq![s[i]] + squeezed(s.skip(i + 1))
        },
{
    let head = seq![s[i]];
    assert(s.skip(i) =~= head + s.skip(i + 1));
    lemma_squeezed_concat(head, s.skip(i + 1));
    assert(head.drop_last() =~= Seq::empty());
    assert(squeezed(head.drop_last()) =~= Seq::empty());
    assert(squeezed(head) =~= if space(s[i]) {
        Seq::empty()
    } else {
        head
    });
    assert(Seq::<char>::empty() + squeezed(s.skip(i + 1)) =~= squeezed(s.skip(i + 1)));
}

proof fn lemma_spaced_end(s: Seq<char>, i: int, part: Seq<char>, j: int)
    requires
        0 <= i <= s.len(),
        0 <= j <= part.len(),
    ensures
        spaced_end(s, i, part, j) is Some <==> occurs_at(
            lowered(squeezed(s.skip(i))),
            lowered(part.skip(j)),
            0,
        ),
        spaced_end(s, i, part, j) is Some ==> i + part.len() - j <= spaced_end(s, i, part, j)->0
            <= s.len(),
    decreases s.len() - i,
{
    let rest = lowered(squeezed(s.skip(i)));
    let wanted = lowered(part.skip(j));
    if j == part.len() {
        assert(rest.subrange(0, 0) =~= wanted);
    } else if i == s.len() {
        assert(s.skip(i) =~= Seq::empty());
    } else {
        lemma_squeezed_from(s, i);
        if space(s[i]) {
            lemma_spaced_end(s, i + 1, part, j);
        } else {
            lemma_spaced_end(s, i + 1, part, j + 1);
            let tail = lowered(squeezed(s.skip(i + 1)));
            let more = lowered(part.skip(j + 1));
            assert(rest =~= seq![lower(s[i])] + tail);
            assert(wanted =~= seq![lower(part[j])] + more);
            if occurs_at(rest, wanted, 0) {
                assert(rest.subrange(0, wanted.len() as int)[0] == wanted[0]);
                assert(tail.subrange(0, more.len() as int) =~= rest.subrange(
                    0,
                    wanted.len() as int,
                ).skip(1));
                assert(wanted.skip(1) =~= more);
            }
            if lower(s[i]) == lower(part[j]) && occurs_at(tail, more, 0) {
                assert(rest.subrange(0, wanted.len() as int) =~= seq![lower(s[i])]
                    + tail.subrange(0, more.len() as int));
            }
        }
    }
}

proof fn lemma_spaced_match(s: Seq<char>, part: Seq<char>, from: int)
    requires
        0 <= from <= s.len(),
        part.len() > 0,
    ensures
        spaced_match(s, part, from) is Some <==> contains(
            lowered(squeezed(s.skip(from))),
            lowered(part),
        ),
        spaced_match(s, part, from) is Some ==> {
            let (a, b) = spaced_match(s, part, from)->0;
            from <= a < b <= s.len()
        },
    decreases s.len() - from,
{
    let rest = lowered(squeezed(s.skip(from)));
    let wanted = lowered(part);
    assert(part.skip(0) =~= part);
    if from == s.len() {
        assert(s.skip(from) =~= Seq::empty());
    } else {
        lemma_spaced_match(s, part, from + 1);
        lemma_squeezed_from(s, from);
        lemma_spaced_end(s, from, part, 0);
        if !space(s[from]) {
            let tail = lowered(squeezed(s.skip(from + 1)));
            assert(rest =~= seq![lower(s[from])] + tail);
            if contains(tail, wanted) {
                let k = choose|k: int| occurs_at(tail, wanted, k);
                assert(rest.subrange(k + 1, k + 1 + wanted.len()) =~= tail.subrange(
                    k,
                    k + wanted.len(),
                ));
                assert(occurs_at(rest, wanted, k + 1));
            }
            if contains(rest, wanted) {
                let k = choose|k: int| occurs_at(rest, wanted, k);
                if k > 0 {
                    assert(tail.subrange(k - 1, k - 1 + wanted.len()) =~= rest.subrange(
                        k,
                        k + wanted.len(),
                    ));
                    assert(occurs_at(tail, wanted, k - 1));
                }
            }
        }
    }
}

proof fn lemma_next_match_found(s: Seq<char>, part: Seq<char>, from: int)
    requires
        0 <= from,
    ensures
        match next_match(s, part, from) {
            Some(j) => from <= j && occurs_at(s, part, j) && forall|m: int|
                from <= m < j ==> !#[trigger] occurs_at(s, part, m),
            None => forall|m: int| from <= m ==> !#[trigger] occurs_at(s, part, m),
        },
    decreases s.len() + 1 - from,
{
    if from <= s.len() && !occurs_at(s, part, from) {
        lemma_next_match_found(s, part, from + 1);
    }
}

/// A character that belongs to a match belongs to a place where the part
/// stands.
proof fn lemma_matched_occurs(s: Seq<char>, part: Seq<char>, from: int, k: int) -> (j: int)
    requires
        0 <= from,
        matched(s, part, from, k),
    ensures
        occurs_at(s, part, j),
        j <= k < j + part.len(),
    decreases s.len() - from,
{
    lemma_next_match_found(s, part, from);
    let first = next_match(s, part, from)->0;
    if first <= k < first + part.len() {
        first
    } else {
        lemma_matched_occurs(s, part, first + part.len(), k)
    }
}

/// Some character of every place where a part stands belongs to a match.
proof fn lemma_occurrence_matched(s: Seq<char>, part: Seq<char>, from: int, j: int) -> (k: int)
    requires
        0 <= from <= j,
        part.len() > 0,
        occurs_at(s, part, j),
    ensures
        j <= k < j + part.len(),
        matched(s, part, from, k),
    decreases s.len() - from,
{
    lemma_next_match_found(s, part, from);
    let first = next_match(s, part, from)->0;
    if first == j {
        j
    } else if first + part.len() > j {
        j
    } else {
        lemma_occurrence_matched(s, part, first + part.len(), j)
    }
}

proof fn lemma_space_lower(c: char)
    ensures
        space(lower(c)) == space(c),
{
}

proof fn lemma_squeezed_lowered(s: Seq<char>)
    ensures
        lowered(squeezed(s)) == squeezed(lowered(s)),
    decreases s.len(),
{
    if s.len() == 0 {
        assert(lowered(squeezed(s)) =~= squeezed(lowered(s)));
    } else {
        lemma_squeezed_lowered(s.drop_last());
        lemma_space_lower(s.last());
        assert(lowered(s).drop_last() =~= lowered(s.drop_last()));
        assert(lowered(squeezed(s)) =~= squeezed(lowered(s)));
    }
}

/// What stands in a text still stands there when white space is left out of
/// both.
proof fn lemma_squeezed_contains(s: Seq<char>, part: Seq<char>)
    requires
        contains(lowered(s), lowered(part)),
    ensures
        contains(lowered(squeezed(s)), lowered(squeezed(part))),
{
    let t = lowered(s);
    let p = lowered(part);
    let j = choose|j: int| occurs_at(t, p, j);
    let front = t.take(j);
    let back = t.skip(j + p.len());
    assert(t =~= front + p + back);
    lemma_squeezed_concat(front + p, back);
    lemma_squeezed_concat(front, p);
    lemma_squeezed_lowered(s);
    lemma_squeezed_lowered(part);
    let all = squeezed(t);
    let k = squeezed(front).len() as int;
    assert(all.subrange(k, k + squeezed(p).len()) =~= squeezed(p));
    assert(occurs_at(all, squeezed(p), k));
}

/// The literal stands in a text: whatever the case of ASCII letters, and with
/// white space left out of both. A literal of white space alone stands where
/// the text has it.
pub open spec fn stands_in(s: Seq<char>, literal: Seq<char>) -> bool {
    if squeezed(literal).len() > 0 {
        contains(lowered(squeezed(s)), lowered(squeezed(literal)))
    } else {
        literal.len() > 0 && contains(lowered(s), lowered(literal))
    }
}

proof fn lemma_literal_found(s: Seq<char>, literal: Seq<char>)
    ensures
        stands_in(s, literal) <==> exists|k: int|
            0 <= k < s.len() && #[trigger] literal_at(s, literal, k),
{
    let part = squeezed(literal);
    let t = lowered(s);
    let p = lowered(literal);
    assert(s.skip(0) =~= s);
    if part.len() > 0 {
        lemma_spaced_match(s, part, 0);
        if spaced_match(s, part, 0) is Some {
            let (a, b) = spaced_match(s, part, 0)->0;
            assert(literal_at(s, literal, a));
        }
    }
    if stands_in(s, literal) && part.len() == 0 {
        let j = choose|j: int| occurs_at(t, p, j);
        let k = lemma_occurrence_matched(t, p, 0, j);
        assert(literal_at(s, literal, k));
    }
    if exists|k: int| 0 <= k < s.len() && #[trigger] literal_at(s, literal, k) {
        let k = choose|k: int| 0 <= k < s.len() && #[trigger] literal_at(s, literal, k);
        if literal.len() > 0 && matched(t, p, 0, k) {
            let j = lemma_matched_occurs(t, p, 0, k);
            assert(contains(t, p));
            if part.len() > 0 {
                lemma_squeezed_contains(s, literal);
            }
        }
    }
}

proof fn lemma_runs_exist(s: Seq<char>, marks: Seq<bool>, k: int)
    requires
        0 <= k <= marks.len(),
    ensures
        runs_from(s, marks, k).len() > 0 <==> exists|m: int|
            k <= m < marks.len() && #[trigger] marks[m],
    decreases marks.len() - k,
{
    if k < marks.len() && !marks[k] {
        lemma_runs_exist(s, marks, k + 1);
        if exists|m: int| k <= m < marks.len() && #[trigger] marks[m] {
            let m = choose|m: int| k <= m < marks.len() && #[trigger] marks[m];
            assert(k + 1 <= m < marks.len() && marks[m]);
        }
    } else if k < marks.len() {
        assert(marks[k]);
    }
}

/// Something is found in a text exactly when one of the literals stands there,
/// whatever the case of ASCII letters and white space aside. Punctuation counts,
/// so a text in which only other signs separate the characters of a literal is
/// told from one that has it.
pub proof fn law_found_where_a_literal_stands(s: Seq<char>, literals: Seq<String>)
    ensures
        spans_in(s, literals).len() > 0 <==> exists|i: int|
            0 <= i < literals.len() && stands_in(s, (#[trigger] literals[i])@),
{
    let marks = located_marks(s, literals);
    lemma_runs_exist(s, marks, 0);
    if spans_in(s, literals).len() > 0 {
        let k = choose|k: int| 0 <= k < marks.len() && #[trigger] marks[k];
        assert(located(s, literals, k));
        let i = choose|i: int| 0 <= i < literals.len() && #[trigger] literal_at(s, literals[i]@, k);
        lemma_literal_found(s, literals[i]@);
    }
    if exists|i: int| 0 <= i < literals.len() && stands_in(s, (#[trigger] literals[i])@) {
        let i = choose|i: int| 0 <= i < literals.len() && stands_in(s, (#[trigger] literals[i])@);
        lemma_literal_found(s, literals[i]@);
        let k = choose|k: int| 0 <= k < s.len() && #[trigger] literal_at(s, literals[i]@, k);
        assert(located(s, literals, k));
        assert(marks[k]);
    }
}

/// Wherever a literal stands as it is, whatever the case of ASCII letters, some
/// of its characters are highlighted.
pub proof fn law_occurrences_are_highlighted(
    s: Seq<char>,
    literals: Seq<String>,
    i: int,
    j: int,
) -> (k: int)
    requires
        0 <= i < literals.len(),
        literals[i]@.len() > 0,
        occurs_at(lowered(s), lowered(literals[i]@), j),
    ensures
        j <= k < j + literals[i]@.len(),
        highlighted(spans_in(s, literals), offset(s, k)),
{
    let k = lemma_occurrence_matched(lowered(s), lowered(literals[i]@), 0, j);
    assert(literal_at(s, literals[i]@, k));
    assert(located(s, literals, k));
    law_spans_show_literals(s, literals, k);
    k
}

} // verus!
