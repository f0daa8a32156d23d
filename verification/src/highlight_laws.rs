//! Which characters of every text are highlighted.

use vstd::prelude::*;

use crate::line_laws::blank;
use crate::locate::{
    highlighted, law_spans_show_literals, literal_at, located, matched, next_match, spaced_end,
    spaced_match, spans_in, squeezed,
};
use crate::text::{lower, lowered, occurs_at, offset, space};
use crate::token_laws::{same_but_for_case, same_letter};

verus! {

/// The literal stands at the `j`-th character, whatever the case of ASCII letters.
pub open spec fn stands_here(s: Seq<char>, literal: Seq<char>, j: int) -> bool {
    &&& 0 <= j
    &&& j + literal.len() <= s.len()
    &&& forall|m: int| 0 <= m < literal.len() ==> same_letter(s[j + m], #[trigger] literal[m])
}

/// These are the places from `from` on that are counted when the text is gone through
/// from left to right and places that overlap one before them are passed over.
pub open spec fn counted_places(
    s: Seq<char>,
    literal: Seq<char>,
    from: int,
    starts: Seq<int>,
) -> bool {
    &&& forall|i: int|
        0 <= i < starts.len() ==> from <= #[trigger] starts[i] && stands_here(s, literal, starts[i])
    &&& forall|i: int, j: int|
        0 <= i < j < starts.len() ==> #[trigger] starts[i] + literal.len() <= #[trigger] starts[j]
    &&& forall|j: int|
        from <= j && #[trigger] stands_here(s, literal, j) ==> in_a_place(
            starts,
            literal.len() as int,
            j,
        )
}

/// One of the places has the `k`-th character.
#[verifier::opaque]
pub open spec fn in_a_place(starts: Seq<int>, n: int, k: int) -> bool {
    exists|i: int| 0 <= i < starts.len() && (#[trigger] starts[i]) <= k < starts[i] + n
}

/// The characters that are no white space.
pub open spec fn dense(s: Seq<char>) -> Seq<char> {
    s.filter(|c: char| !blank(c))
}

/// The literal stands from `a` up to `b` when white space is left out of both.
pub open spec fn stands_loosely(s: Seq<char>, literal: Seq<char>, a: int, b: int) -> bool {
    &&& 0 <= a < b <= s.len()
    &&& !blank(s[a])
    &&& !blank(s[b - 1])
    &&& same_but_for_case(dense(s.subrange(a, b)), dense(literal))
}

/// The first place where the literal stands when white space is left out.
pub open spec fn first_loosely(s: Seq<char>, literal: Seq<char>, a: int, b: int) -> bool {
    &&& stands_loosely(s, literal, a, b)
    &&& forall|c: int, d: int| c < a ==> !#[trigger] stands_loosely(s, literal, c, d)
}

/// The `k`-th character is shown because of the literal.
pub open spec fn shown_for(s: Seq<char>, literal: Seq<char>, k: int) -> bool {
    ||| literal.len() > 0 && exists|starts: Seq<int>| #[trigger]
        counted_places(s, literal, 0, starts) && in_a_place(starts, literal.len() as int, k)
    ||| exists|a: int, b: int| #[trigger] first_loosely(s, literal, a, b) && a <= k < b
}

proof fn lemma_same(a: char, b: char)
    ensures
        same_letter(a, b) <==> lower(a) == lower(b),
{
    if lower(a) == lower(b) && a != b {
        if 'A' <= a && a <= 'Z' {
            assert(lower(a) as u32 == a as u32 + 32);
        }
        if 'A' <= b && b <= 'Z' {
            assert(lower(b) as u32 == b as u32 + 32);
        }
    }
    if same_letter(a, b) && a != b {
        if 'A' <= a && a <= 'Z' && b as u32 == a as u32 + 32 {
            assert(lower(a) as u32 == b as u32);
        } else {
            assert(lower(b) as u32 == a as u32);
        }
    }
}

proof fn lemma_same_texts(a: Seq<char>, b: Seq<char>)
    ensures
        same_but_for_case(a, b) <==> lowered(a) == lowered(b),
{
    if same_but_for_case(a, b) {
        assert forall|i: int| 0 <= i < a.len() implies lowered(a)[i] == lowered(b)[i] by {
            lemma_same(a[i], b[i]);
            assert(same_letter(a[i], b[i]));
        }
        assert(lowered(a) =~= lowered(b));
    }
    if lowered(a) == lowered(b) {
        assert(lowered(a).len() == a.len() && lowered(b).len() == b.len());
        assert forall|i: int| 0 <= i < a.len() implies same_letter(#[trigger] a[i], b[i]) by {
            lemma_same(a[i], b[i]);
            assert(lowered(a)[i] == lower(a[i]) && lowered(b)[i] == lower(b[i]));
        }
    }
}

proof fn lemma_stands(s: Seq<char>, literal: Seq<char>, j: int)
    ensures
        stands_here(s, literal, j) <==> occurs_at(lowered(s), lowered(literal), j),
{
    if 0 <= j && j + literal.len() <= s.len() {
        let part = s.subrange(j, j + literal.len());
        lemma_same_texts(part, literal);
        assert(lowered(part) =~= lowered(s).subrange(j, j + literal.len()));
        if stands_here(s, literal, j) {
            assert forall|i: int| 0 <= i < part.len() implies same_letter(
                #[trigger] part[i],
                literal[i],
            ) by {}
        }
        if same_but_for_case(part, literal) {
            assert forall|m: int| 0 <= m < literal.len() implies same_letter(
                s[j + m],
                #[trigger] literal[m],
            ) by {
                assert(same_letter(part[m], literal[m]));
            }
        }
    }
}

proof fn lemma_next(s: Seq<char>, literal: Seq<char>, from: int)
    requires
        0 <= from,
    ensures
        match next_match(lowered(s), lowered(literal), from) {
            Some(j) => from <= j && stands_here(s, literal, j) && forall|m: int|
                from <= m < j ==> !#[trigger] stands_here(s, literal, m),
            None => forall|m: int| from <= m ==> !#[trigger] stands_here(s, literal, m),
        },
    decreases s.len() + 1 - from,
{
    lemma_stands(s, literal, from);
    if from <= s.len() && !stands_here(s, literal, from) {
        lemma_next(s, literal, from + 1);
    }
}

proof fn lemma_in_place(starts: Seq<int>, n: int, k: int, i: int)
    requires
        0 <= i < starts.len(),
        starts[i] <= k < starts[i] + n,
    ensures
        in_a_place(starts, n, k),
{
    reveal(in_a_place);
}

proof fn lemma_which_place(starts: Seq<int>, n: int, k: int) -> (i: int)
    requires
        in_a_place(starts, n, k),
    ensures
        0 <= i < starts.len(),
        starts[i] <= k < starts[i] + n,
{
    reveal(in_a_place);
    choose|i: int| 0 <= i < starts.len() && (#[trigger] starts[i]) <= k < starts[i] + n
}

/// The places that are counted.
proof fn lemma_places(s: Seq<char>, literal: Seq<char>, from: int) -> (starts: Seq<int>)
    requires
        0 <= from,
        literal.len() > 0,
    ensures
        counted_places(s, literal, from, starts),
    decreases s.len() + 1 - from,
{
    lemma_next(s, literal, from);
    let n = literal.len() as int;
    match next_match(lowered(s), lowered(literal), from) {
        None => Seq::empty(),
        Some(j) => {
            let rest = lemma_places(s, literal, j + n);
            let starts = seq![j] + rest;
            assert forall|i: int| 0 <= i < starts.len() implies from <= #[trigger] starts[i]
                && stands_here(s, literal, starts[i]) by {
                if i > 0 {
                    assert(starts[i] == rest[i - 1]);
                }
            }
            assert forall|i: int, k: int| 0 <= i < k < starts.len() implies #[trigger] starts[i]
                + literal.len() <= #[trigger] starts[k] by {
                assert(starts[k] == rest[k - 1]);
                if i > 0 {
                    assert(starts[i] == rest[i - 1]);
                }
            }
            assert forall|m: int| from <= m && #[trigger] stands_here(
                s,
                literal,
                m,
            ) implies in_a_place(starts, literal.len() as int, m) by {
                if m < j + n {
                    assert(starts[0] == j);
                    lemma_in_place(starts, n, m, 0);
                } else {
                    let i = lemma_which_place(rest, n, m);
                    assert(starts[i + 1] == rest[i]);
                    lemma_in_place(starts, n, m, i + 1);
                }
            }
            starts
        },
    }
}

/// The first of the places is the first one where the literal stands, and the others
/// are counted behind it.
proof fn lemma_counted_rest(
    s: Seq<char>,
    literal: Seq<char>,
    from: int,
    starts: Seq<int>,
    j: int,
)
    requires
        0 <= from <= j,
        literal.len() > 0,
        counted_places(s, literal, from, starts),
        stands_here(s, literal, j),
        forall|m: int| from <= m < j ==> !#[trigger] stands_here(s, literal, m),
    ensures
        starts.len() > 0,
        starts[0] == j,
        counted_places(s, literal, j + literal.len(), starts.skip(1)),
{
    let n = literal.len() as int;
    let i = lemma_which_place(starts, n, j);
    assert(stands_here(s, literal, starts[i]));
    assert(stands_here(s, literal, starts[0]));
    assert(starts[0] == j);
    let rest = starts.skip(1);
    assert forall|m: int| 0 <= m < rest.len() implies j + n <= #[trigger] rest[m] && stands_here(
        s,
        literal,
        rest[m],
    ) by {
        assert(rest[m] == starts[m + 1]);
        assert(starts[0] + literal.len() <= starts[m + 1]);
    }
    assert forall|i: int, m: int| 0 <= i < m < rest.len() implies #[trigger] rest[i]
        + literal.len() <= #[trigger] rest[m] by {
        assert(rest[m] == starts[m + 1] && rest[i] == starts[i + 1]);
    }
    assert forall|m: int| j + n <= m && #[trigger] stands_here(s, literal, m) implies in_a_place(
        rest,
        literal.len() as int,
        m,
    ) by {
        let i = lemma_which_place(starts, n, m);
        assert(i > 0);
        assert(rest[i - 1] == starts[i]);
        lemma_in_place(rest, n, m, i - 1);
    }
}

proof fn lemma_in_rest(starts: Seq<int>, n: int, k: int)
    requires
        starts.len() > 0,
    ensures
        in_a_place(starts, n, k) <==> starts[0] <= k < starts[0] + n || in_a_place(
            starts.skip(1),
            n,
            k,
        ),
{
    let rest = starts.skip(1);
    if in_a_place(rest, n, k) {
        let i = lemma_which_place(rest, n, k);
        assert(starts[i + 1] == rest[i]);
        lemma_in_place(starts, n, k, i + 1);
    }
    if in_a_place(starts, n, k) {
        let i = lemma_which_place(starts, n, k);
        if i > 0 {
            assert(rest[i - 1] == starts[i]);
            lemma_in_place(rest, n, k, i - 1);
        }
    }
    if starts[0] <= k < starts[0] + n {
        lemma_in_place(starts, n, k, 0);
    }
}

proof fn lemma_matched(s: Seq<char>, literal: Seq<char>, from: int, starts: Seq<int>, k: int)
    requires
        0 <= from,
        literal.len() > 0,
        counted_places(s, literal, from, starts),
    ensures
        matched(lowered(s), lowered(literal), from, k) <==> in_a_place(
            starts,
            literal.len() as int,
            k,
        ),
    decreases starts.len(),
{
    let n = literal.len() as int;
    lemma_next(s, literal, from);
    match next_match(lowered(s), lowered(literal), from) {
        None => {
            if starts.len() > 0 {
                assert(stands_here(s, literal, starts[0]));
            }
            if in_a_place(starts, n, k) {
                let i = lemma_which_place(starts, n, k);
            }
        },
        Some(j) => {
            lemma_counted_rest(s, literal, from, starts, j);
            lemma_matched(s, literal, j + n, starts.skip(1), k);
            lemma_in_rest(starts, n, k);
        },
    }
}

proof fn lemma_dense(s: Seq<char>)
    ensures
        squeezed(s) == dense(s),
    decreases s.len(),
{
    reveal(Seq::filter);
    if s.len() > 0 {
        lemma_dense(s.drop_last());
        assert(blank(s.last()) == space(s.last()));
    }
}

proof fn lemma_squeezed_front(s: Seq<char>)
    requires
        s.len() > 0,
    ensures
        squeezed(s) == if space(s[0]) {
            squeezed(s.skip(1))
        } else {
            seq![s[0]] + squeezed(s.skip(1))
        },
    decreases s.len(),
{
    if s.len() == 1 {
        assert(s.drop_last() =~= Seq::empty());
        assert(s.skip(1) =~= Seq::empty());
        assert(squeezed(s.skip(1)) =~= Seq::empty());
        assert(squeezed(s.drop_last()) =~= Seq::empty());
        if !space(s[0]) {
            assert(squeezed(s) =~= seq![s[0]] + squeezed(s.skip(1)));
        }
    } else {
        lemma_squeezed_front(s.drop_last());
        assert(s.drop_last().skip(1) =~= s.skip(1).drop_last());
        assert(s.skip(1).last() == s.last());
        if !space(s[0]) {
            assert(squeezed(s) =~= seq![s[0]] + squeezed(s.skip(1)));
        }
    }
}

/// A match with white space inside, from the `i`-th character and the `j`-th of the
/// part on.
proof fn lemma_ends(s: Seq<char>, i: int, part: Seq<char>, j: int, b: int)
    requires
        0 <= i <= s.len(),
        0 <= j < part.len(),
        forall|m: int| 0 <= m < part.len() ==> !space(#[trigger] part[m]),
    ensures
        spaced_end(s, i, part, j) == Some(b) <==> {
            &&& i < b <= s.len()
            &&& !space(s[b - 1])
            &&& lowered(squeezed(s.subrange(i, b))) == lowered(part.skip(j))
        },
    decreases s.len() - i,
{
    let wanted = lowered(part.skip(j));
    assert(wanted.len() > 0);
    if i == s.len() {
    } else {
        let c = s[i];
        let more = lowered(part.skip(j + 1));
        assert(wanted =~= seq![lower(part[j])] + more);
        if i < b <= s.len() {
            let here = s.subrange(i, b);
            lemma_squeezed_front(here);
            assert(here.skip(1) =~= s.subrange(i + 1, b));
            let rest = squeezed(s.subrange(i + 1, b));
            if space(c) {
                if b > i + 1 {
                } else {
                    assert(s[b - 1] == c);
                }
                lemma_ends(s, i + 1, part, j, b);
            } else {
                let all = lowered(squeezed(here));
                assert(all =~= seq![lower(c)] + lowered(rest));
                if all == wanted {
                    assert(all[0] == wanted[0]);
                    assert(all.skip(1) =~= lowered(rest));
                    assert(wanted.skip(1) =~= more);
                }
                if j + 1 < part.len() {
                    lemma_ends(s, i + 1, part, j + 1, b);
                    if b == i + 1 {
                        assert(s.subrange(i + 1, b) =~= Seq::empty());
                        assert(squeezed(s.subrange(i + 1, b)) =~= Seq::empty());
                        assert(all.len() == 1);
                        assert(more.len() > 0);
                    }
                } else {
                    assert(more =~= Seq::empty());
                    assert(spaced_end(s, i + 1, part, j + 1) == Some(i + 1));
                    if all == wanted && b > i + 1 && !space(s[b - 1]) {
                        // The last character would be left over.
                        assert(s.subrange(i + 1, b).last() == s[b - 1]);
                        lemma_squeezed_some(s.subrange(i + 1, b));
                    }
                    if b == i + 1 {
                        assert(s.subrange(i + 1, b) =~= Seq::empty());
                        assert(squeezed(s.subrange(i + 1, b)) =~= Seq::empty());
                        assert(lowered(rest) =~= Seq::empty());
                        if lower(c) == lower(part[j]) {
                            assert(all =~= wanted);
                        }
                    }
                }
            }
        } else {
            if space(c) {
                lemma_ends(s, i + 1, part, j, b);
            } else if j + 1 < part.len() {
                lemma_ends(s, i + 1, part, j + 1, b);
            }
        }
    }
}

proof fn lemma_squeezed_some(s: Seq<char>)
    requires
        s.len() > 0,
        !space(s.last()),
    ensures
        squeezed(s).len() > 0,
{
}

proof fn lemma_squeezed_dense(s: Seq<char>)
    ensures
        forall|m: int| 0 <= m < squeezed(s).len() ==> !space(#[trigger] squeezed(s)[m]),
    decreases s.len(),
{
    if s.len() > 0 {
        lemma_squeezed_dense(s.drop_last());
        let before = squeezed(s.drop_last());
        let all = squeezed(s);
        assert forall|m: int| 0 <= m < all.len() implies !space(#[trigger] all[m]) by {
            if m < before.len() {
                assert(all[m] == before[m]);
            }
        }
    }
}

proof fn lemma_loosely(s: Seq<char>, literal: Seq<char>, a: int, b: int)
    requires
        0 <= a < s.len(),
        squeezed(literal).len() > 0,
    ensures
        stands_loosely(s, literal, a, b) <==> !space(s[a]) && spaced_end(
            s,
            a,
            squeezed(literal),
            0,
        ) == Some(b),
{
    let part = squeezed(literal);
    lemma_squeezed_dense(literal);
    lemma_ends(s, a, part, 0, b);
    assert(part.skip(0) =~= part);
    lemma_dense(literal);
    assert(blank(s[a]) == space(s[a]));
    if a < b <= s.len() {
        lemma_dense(s.subrange(a, b));
        lemma_same_texts(dense(s.subrange(a, b)), dense(literal));
        assert(blank(s[b - 1]) == space(s[b - 1]));
    }
}

proof fn lemma_first(s: Seq<char>, literal: Seq<char>, from: int)
    requires
        0 <= from <= s.len(),
        squeezed(literal).len() > 0,
        forall|c: int, d: int| c < from ==> !#[trigger] stands_loosely(s, literal, c, d),
    ensures
        match spaced_match(s, squeezed(literal), from) {
            Some((a, b)) => first_loosely(s, literal, a, b),
            None => forall|a: int, b: int| !#[trigger] stands_loosely(s, literal, a, b),
        },
    decreases s.len() - from,
{
    if from < s.len() {
        let part = squeezed(literal);
        if !space(s[from]) && spaced_end(s, from, part, 0) is Some {
            lemma_loosely(s, literal, from, spaced_end(s, from, part, 0)->0);
        } else {
            assert forall|c: int, d: int| c < from + 1 implies !#[trigger] stands_loosely(
                s,
                literal,
                c,
                d,
            ) by {
                if c == from {
                    lemma_loosely(s, literal, c, d);
                }
            }
            lemma_first(s, literal, from + 1);
        }
    } else {
        assert forall|a: int, b: int| !#[trigger] stands_loosely(s, literal, a, b) by {
            if stands_loosely(s, literal, a, b) {
                assert(a < from);
            }
        }
    }
}

/// The `k`-th character is in a place that is counted.
spec fn in_counted(s: Seq<char>, literal: Seq<char>, k: int) -> bool {
    exists|starts: Seq<int>| #[trigger]
        counted_places(s, literal, 0, starts) && in_a_place(starts, literal.len() as int, k)
}

/// The `k`-th character is in the first place that white space is left out of.
spec fn in_first(s: Seq<char>, literal: Seq<char>, k: int) -> bool {
    exists|a: int, b: int| #[trigger] first_loosely(s, literal, a, b) && a <= k < b
}

proof fn lemma_counted(s: Seq<char>, literal: Seq<char>, k: int)
    requires
        literal.len() > 0,
    ensures
        matched(lowered(s), lowered(literal), 0, k) <==> in_counted(s, literal, k),
{
    let starts = lemma_places(s, literal, 0);
    lemma_matched(s, literal, 0, starts, k);
    if in_counted(s, literal, k) {
        let other = choose|other: Seq<int>| #[trigger]
            counted_places(s, literal, 0, other) && in_a_place(other, literal.len() as int, k);
        lemma_matched(s, literal, 0, other, k);
    }
}

proof fn lemma_in_first(s: Seq<char>, literal: Seq<char>, k: int)
    ensures
        in_first(s, literal, k) <==> squeezed(literal).len() > 0 && match spaced_match(
            s,
            squeezed(literal),
            0,
        ) {
            Some((a, b)) => a <= k < b,
            None => false,
        },
{
    let part = squeezed(literal);
    if part.len() > 0 {
        assert forall|c: int, d: int| c < 0 implies !#[trigger] stands_loosely(
            s,
            literal,
            c,
            d,
        ) by {}
        lemma_first(s, literal, 0);
        if let Some((a, b)) = spaced_match(s, part, 0) {
            assert(first_loosely(s, literal, a, b));
            if in_first(s, literal, k) {
                let (c, d) = choose|c: int, d: int| #[trigger]
                    first_loosely(s, literal, c, d) && c <= k < d;
                assert(stands_loosely(s, literal, c, d) && stands_loosely(s, literal, a, b));
                assert(a == c);
                lemma_loosely(s, literal, a, b);
                lemma_loosely(s, literal, a, d);
            }
        }
    } else {
        assert forall|a: int, b: int| !#[trigger] stands_loosely(s, literal, a, b) by {
            if stands_loosely(s, literal, a, b) {
                lemma_dense(literal);
                let here = s.subrange(a, b);
                lemma_dense(here);
                assert(here.last() == s[b - 1]);
                assert(blank(s[b - 1]) == space(s[b - 1]));
                lemma_squeezed_some(here);
            }
        }
    }
}

proof fn lemma_literal(s: Seq<char>, literal: Seq<char>, k: int)
    ensures
        literal_at(s, literal, k) <==> shown_for(s, literal, k),
{
    if literal.len() > 0 {
        lemma_counted(s, literal, k);
    }
    lemma_in_first(s, literal, k);
    assert(shown_for(s, literal, k) <==> (literal.len() > 0 && in_counted(s, literal, k))
        || in_first(s, literal, k));
}

/// A character is highlighted exactly if it is in one of the places where a literal
/// stands, whatever the case of ASCII letters, those left out that overlap one before
/// them; or in the first place where the literal stands when white space is left out.
pub proof fn law_what_is_highlighted(s: Seq<char>, literals: Seq<String>, k: int)
    requires
        0 <= k < s.len(),
    ensures
        highlighted(spans_in(s, literals), offset(s, k)) <==> exists|i: int|
            0 <= i < literals.len() && shown_for(s, (#[trigger] literals[i])@, k),
{
    law_spans_show_literals(s, literals, k);
    if located(s, literals, k) {
        let i = choose|i: int| 0 <= i < literals.len() && #[trigger] literal_at(s, literals[i]@, k);
        lemma_literal(s, literals[i]@, k);
    }
    if exists|i: int| 0 <= i < literals.len() && shown_for(s, (#[trigger] literals[i])@, k) {
        let i = choose|i: int| 0 <= i < literals.len() && shown_for(s, (#[trigger] literals[i])@, k);
        lemma_literal(s, literals[i]@, k);
        assert(literal_at(s, literals[i]@, k));
    }
}

} // verus!
