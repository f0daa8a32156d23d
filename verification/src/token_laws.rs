//! What the tokens of every text are: the longest runs of letters, the longest
//! runs of digits, and single characters beyond ASCII.

use vstd::prelude::*;

use crate::text::{
    ascii, byte_len, digit, lemma_offset_concat, lemma_offset_monotonic, lemma_offset_prefix, letter,
    lower, offset,
};
use crate::tokenize::{
    covered, indexed, marks_of, run_end, searchable, token, tokens, tokens_from, TokenView,
};

verus! {

/// One of the 52 letters of ASCII.
pub open spec fn latin(c: char) -> bool {
    ('a' <= c && c <= 'z') || ('A' <= c && c <= 'Z')
}

/// One of the ten digits of ASCII.
pub open spec fn numeral(c: char) -> bool {
    '0' <= c && c <= '9'
}

/// The same character, or the same letter of ASCII in the other case.
pub open spec fn same_letter(a: char, b: char) -> bool {
    ||| a == b
    ||| 'A' <= a && a <= 'Z' && b as u32 == a as u32 + 32
    ||| 'A' <= b && b <= 'Z' && a as u32 == b as u32 + 32
}

/// The token has the characters from `from` up to `to` of the text, with the
/// letters of ASCII in lower case.
pub open spec fn spells(s: Seq<char>, t: TokenView, from: int, to: int) -> bool {
    &&& 0 <= from < to <= s.len()
    &&& t.start == offset(s, from)
    &&& t.end == offset(s, to)
    &&& t.text.len() == to - from
    &&& forall|i: int|
        0 <= i < t.text.len() ==> same_letter(#[trigger] t.text[i], s[from + i]) && !('A'
            <= t.text[i] && t.text[i] <= 'Z')
}

/// A run of letters, a run of digits, or one character beyond ASCII that is
/// marked.
pub open spec fn of_one_kind(s: Seq<char>, marks: Seq<bool>, from: int, to: int) -> bool {
    ||| forall|i: int| from <= i < to ==> latin(#[trigger] s[i])
    ||| forall|i: int| from <= i < to ==> numeral(#[trigger] s[i])
    ||| to == from + 1 && s[from] as u32 >= 0x80 && marks[from]
}

/// The characters from `from` up to `to` are a token that `k` is the number of.
pub open spec fn is_token(s: Seq<char>, marks: Seq<bool>, k: int, from: int, to: int) -> bool {
    &&& 0 <= k < tokens(s, marks).len()
    &&& spells(s, tokens(s, marks)[k], from, to)
}

proof fn lemma_run(s: Seq<char>, i: int)
    requires
        0 <= i < s.len(),
    ensures
        i < run_end(s, i) <= s.len(),
        latin(s[i]) ==> forall|k: int| i <= k < run_end(s, i) ==> latin(#[trigger] s[k]),
        numeral(s[i]) ==> forall|k: int| i <= k < run_end(s, i) ==> numeral(#[trigger] s[k]),
        !latin(s[i]) && !numeral(s[i]) ==> run_end(s, i) == i + 1,
        run_end(s, i) < s.len() && latin(s[run_end(s, i) - 1]) ==> !latin(s[run_end(s, i)]),
        run_end(s, i) < s.len() && numeral(s[run_end(s, i) - 1]) ==> !numeral(s[run_end(s, i)]),
    decreases s.len() - i,
{
    if i + 1 < s.len() {
        lemma_run(s, i + 1);
    }
}

proof fn lemma_token_spells(s: Seq<char>, from: int, to: int)
    requires
        0 <= from < to <= s.len(),
    ensures
        spells(s, token(s, from, to), from, to),
{
    let t = token(s, from, to);
    assert forall|i: int| 0 <= i < t.text.len() implies same_letter(
        #[trigger] t.text[i],
        s[from + i],
    ) && !('A' <= t.text[i] && t.text[i] <= 'Z') by {
        assert(s.subrange(from, to)[i] == s[from + i]);
    }
}

proof fn lemma_tokens_of_kind(s: Seq<char>, marks: Seq<bool>, i: int, k: int)
    requires
        marks.len() == s.len(),
        0 <= i <= s.len(),
        0 <= k < tokens_from(s, marks, i).len(),
    ensures
        exists|from: int, to: int|
            i <= from && spells(s, tokens_from(s, marks, i)[k], from, to) && #[trigger] of_one_kind(
                s,
                marks,
                from,
                to,
            ),
    decreases s.len() - i,
{
    if i < s.len() {
        lemma_run(s, i);
        let next = if indexed(s, marks, i) {
            run_end(s, i)
        } else {
            i + 1
        };
        let rest = tokens_from(s, marks, next);
        if indexed(s, marks, i) && k == 0 {
            lemma_token_spells(s, i, next);
            assert(of_one_kind(s, marks, i, next));
        } else {
            let m = if indexed(s, marks, i) {
                k - 1
            } else {
                k
            };
            lemma_tokens_of_kind(s, marks, next, m);
            assert(tokens_from(s, marks, i)[k] == rest[m]);
        }
    }
}

/// Every token is a run of letters, a run of digits, or one marked character
/// beyond ASCII, spelled in lower case.
pub proof fn law_tokens_are_of_one_kind(s: Seq<char>, marks: Seq<bool>, k: int)
    requires
        marks.len() == s.len(),
        0 <= k < tokens(s, marks).len(),
    ensures
        exists|from: int, to: int|
            is_token(s, marks, k, from, to) && #[trigger] of_one_kind(s, marks, from, to),
{
    lemma_tokens_of_kind(s, marks, 0, k);
}

/// Two neighbours are in one token.
pub open spec fn together(all: Seq<TokenView>, a: int, b: int) -> bool {
    exists|i: int| 0 <= i < all.len() && (#[trigger] all[i]).start <= a && b < all[i].end
}

proof fn lemma_neighbours(s: Seq<char>, marks: Seq<bool>, i: int, k: int)
    requires
        marks.len() == s.len(),
        0 <= i <= k,
        k + 1 < s.len(),
        (latin(s[k]) && latin(s[k + 1])) || (numeral(s[k]) && numeral(s[k + 1])),
    ensures
        together(tokens_from(s, marks, i), offset(s, k), offset(s, k + 1)),
    decreases s.len() - i,
{
    lemma_run(s, i);
    let all = tokens_from(s, marks, i);
    if indexed(s, marks, i) {
        let end = run_end(s, i);
        let rest = tokens_from(s, marks, end);
        assert(all[0] == token(s, i, end));
        if k + 1 < end {
            lemma_offset_monotonic(s, i, k);
            lemma_offset_monotonic(s, k + 1, end);
            assert(all[0].start <= offset(s, k) && offset(s, k + 1) < all[0].end);
        } else if k + 1 == end {
            assert(false);
        } else {
            lemma_neighbours(s, marks, end, k);
            let m = choose|m: int|
                0 <= m < rest.len() && (#[trigger] rest[m]).start <= offset(s, k) && offset(
                    s,
                    k + 1,
                ) < rest[m].end;
            assert(all[m + 1] == rest[m]);
        }
    } else {
        assert(i != k);
        lemma_neighbours(s, marks, i + 1, k);
    }
}

/// Two neighbouring letters of ASCII are always in one token, whatever their case,
/// and so are two neighbouring digits.
pub proof fn law_runs_are_not_cut(s: Seq<char>, marks: Seq<bool>, k: int)
    requires
        marks.len() == s.len(),
        0 <= k,
        k + 1 < s.len(),
        (latin(s[k]) && latin(s[k + 1])) || (numeral(s[k]) && numeral(s[k + 1])),
    ensures
        together(tokens(s, marks), offset(s, k), offset(s, k + 1)),
{
    lemma_neighbours(s, marks, 0, k);
}

proof fn lemma_covered(s: Seq<char>, marks: Seq<bool>, k: int)
    requires
        marks.len() == s.len(),
        0 <= k < s.len(),
    ensures
        covered(tokens(s, marks), offset(s, k)) <==> latin(s[k]) || numeral(s[k]) || (s[k] as u32
            >= 0x80 && marks[k]),
{
    crate::tokenize::law_tokens_hold_letters_and_digits(s, marks, k);
}

/// A character is in some token exactly when it is a letter or a digit of ASCII, or
/// a marked character beyond ASCII.
pub proof fn law_what_tokens_hold(s: Seq<char>, marks: Seq<bool>, k: int)
    requires
        marks.len() == s.len(),
        0 <= k < s.len(),
    ensures
        (exists|i: int|
            0 <= i < tokens(s, marks).len() && (#[trigger] tokens(s, marks)[i]).start <= offset(s, k)
                < tokens(s, marks)[i].end) <==> latin(s[k]) || numeral(s[k]) || (s[k] as u32 >= 0x80
            && marks[k]),
{
    lemma_covered(s, marks, k);
}

/// The two texts differ in the case of letters of ASCII alone.
pub open spec fn same_but_for_case(a: Seq<char>, b: Seq<char>) -> bool {
    &&& a.len() == b.len()
    &&& forall|i: int| 0 <= i < a.len() ==> same_letter(#[trigger] a[i], b[i])
}

proof fn lemma_same_letter(a: char, b: char)
    requires
        same_letter(a, b),
    ensures
        latin(a) == latin(b),
        numeral(a) == numeral(b),
        letter(a) == letter(b),
        digit(a) == digit(b),
        ascii(a) == ascii(b),
        lower(a) == lower(b),
{
    if a != b {
        if 'A' <= a && a <= 'Z' && b as u32 == a as u32 + 32 {
            assert(lower(a) as u32 == b as u32);
        } else {
            assert(lower(b) as u32 == a as u32);
        }
    }
}

proof fn lemma_case_offset(a: Seq<char>, b: Seq<char>, k: int)
    requires
        same_but_for_case(a, b),
        0 <= k <= a.len(),
    ensures
        offset(a, k) == offset(b, k),
    decreases k,
{
    if k > 0 {
        lemma_case_offset(a, b, k - 1);
        assert(same_letter(a[k - 1], b[k - 1]));
    }
}

proof fn lemma_case_run(a: Seq<char>, b: Seq<char>, i: int)
    requires
        same_but_for_case(a, b),
        0 <= i < a.len(),
    ensures
        run_end(a, i) == run_end(b, i),
        i < run_end(a, i) <= a.len(),
    decreases a.len() - i,
{
    lemma_same_letter(a[i], b[i]);
    if i + 1 < a.len() {
        lemma_same_letter(a[i + 1], b[i + 1]);
        lemma_case_run(a, b, i + 1);
    }
}

proof fn lemma_case_tokens(a: Seq<char>, b: Seq<char>, marks: Seq<bool>, i: int)
    requires
        same_but_for_case(a, b),
        0 <= i <= a.len(),
    ensures
        tokens_from(a, marks, i) == tokens_from(b, marks, i),
    decreases a.len() - i,
{
    if i < a.len() {
        lemma_same_letter(a[i], b[i]);
        lemma_case_run(a, b, i);
        if indexed(a, marks, i) {
            let end = run_end(a, i);
            lemma_case_tokens(a, b, marks, end);
            lemma_case_offset(a, b, i);
            lemma_case_offset(a, b, end);
            let x = token(a, i, end).text;
            let y = token(b, i, end).text;
            assert(x =~= y) by {
                assert forall|j: int| 0 <= j < x.len() implies x[j] == y[j] by {
                    lemma_same_letter(a[i + j], b[i + j]);
                    assert(a.subrange(i, end)[j] == a[i + j] && b.subrange(i, end)[j] == b[i + j]);
                }
            }
        } else {
            lemma_case_tokens(a, b, marks, i + 1);
        }
    }
}

/// Texts that differ in the case of letters of ASCII alone have the same tokens.
pub proof fn law_case_makes_no_difference(a: Seq<char>, b: Seq<char>, marks: Seq<bool>)
    requires
        same_but_for_case(a, b),
        marks.len() == a.len(),
    ensures
        tokens(a, marks) == tokens(b, marks),
{
    lemma_case_tokens(a, b, marks, 0);
}

/// A token that is a number of bytes further back.
pub open spec fn moved(all: Seq<TokenView>, by: int) -> Seq<TokenView> {
    all.map_values(
        |t: TokenView| TokenView { text: t.text, start: t.start + by, end: t.end + by },
    )
}

/// A character that is in no token, whatever its mark.
pub open spec fn parts_tokens(c: char) -> bool {
    (c as u32) < 0x80 && !latin(c) && !numeral(c)
}

proof fn lemma_run_before(a: Seq<char>, b: Seq<char>, i: int)
    requires
        0 <= i < a.len(),
        b.len() > 0,
        parts_tokens(b[0]),
    ensures
        run_end(a + b, i) == run_end(a, i),
        i < run_end(a, i) <= a.len(),
    decreases a.len() - i,
{
    assert((a + b)[i] == a[i]);
    if i + 1 < a.len() {
        assert((a + b)[i + 1] == a[i + 1]);
        lemma_run_before(a, b, i + 1);
    } else {
        assert((a + b)[i + 1] == b[0]);
    }
}

proof fn lemma_run_behind(a: Seq<char>, b: Seq<char>, i: int)
    requires
        0 <= i < b.len(),
    ensures
        run_end(a + b, a.len() + i) == a.len() + run_end(b, i),
        i < run_end(b, i) <= b.len(),
    decreases b.len() - i,
{
    assert((a + b)[a.len() + i] == b[i]);
    if i + 1 < b.len() {
        assert((a + b)[a.len() + i + 1] == b[i + 1]);
        lemma_run_behind(a, b, i + 1);
    }
}

proof fn lemma_tokens_behind(a: Seq<char>, b: Seq<char>, m: Seq<bool>, n: Seq<bool>, i: int)
    requires
        m.len() == a.len(),
        n.len() == b.len(),
        0 <= i <= b.len(),
    ensures
        tokens_from(a + b, m + n, a.len() + i) == moved(tokens_from(b, n, i), byte_len(a)),
    decreases b.len() - i,
{
    let all = a + b;
    let at = a.len() + i;
    if i < b.len() {
        assert(all[at] == b[i]);
        assert((m + n)[at] == n[i]);
        lemma_run_behind(a, b, i);
        if indexed(b, n, i) {
            let end = run_end(b, i);
            lemma_tokens_behind(a, b, m, n, end);
            lemma_offset_concat(a, b, i);
            lemma_offset_concat(a, b, end);
            assert(all.subrange(at, a.len() + end) =~= b.subrange(i, end));
            let rest = tokens_from(b, n, end);
            assert(moved(seq![token(b, i, end)] + rest, byte_len(a)) =~= seq![
                token(all, at, a.len() + end),
            ] + moved(rest, byte_len(a)));
        } else {
            lemma_tokens_behind(a, b, m, n, i + 1);
        }
    } else {
        assert(moved(tokens_from(b, n, i), byte_len(a)) =~= Seq::empty());
    }
}

proof fn lemma_tokens_before(a: Seq<char>, b: Seq<char>, m: Seq<bool>, n: Seq<bool>, i: int)
    requires
        m.len() == a.len(),
        n.len() == b.len(),
        0 <= i <= a.len(),
        b.len() > 0,
        parts_tokens(b[0]),
    ensures
        tokens_from(a + b, m + n, i) == tokens_from(a, m, i) + moved(
            tokens_from(b, n, 0),
            byte_len(a),
        ),
    decreases a.len() - i,
{
    let all = a + b;
    let tail = moved(tokens_from(b, n, 0), byte_len(a));
    if i < a.len() {
        assert(all[i] == a[i]);
        assert((m + n)[i] == m[i]);
        lemma_run_before(a, b, i);
        if indexed(a, m, i) {
            let end = run_end(a, i);
            lemma_tokens_before(a, b, m, n, end);
            lemma_offset_prefix(all, a, i);
            lemma_offset_prefix(all, a, end);
            assert(all.subrange(i, end) =~= a.subrange(i, end));
            let rest = tokens_from(a, m, end);
            assert(seq![token(a, i, end)] + (rest + tail) =~= (seq![token(a, i, end)] + rest)
                + tail);
        } else {
            lemma_tokens_before(a, b, m, n, i + 1);
        }
    } else {
        lemma_tokens_behind(a, b, m, n, 0);
        assert(tokens_from(a, m, i) + tail =~= tail);
    }
}

/// White space and punctuation of ASCII part a text: it has the tokens of what
/// stands before them and of what stands behind.
pub proof fn law_separators_part_tokens(
    a: Seq<char>,
    c: char,
    b: Seq<char>,
    m: Seq<bool>,
    mark: bool,
    n: Seq<bool>,
)
    requires
        m.len() == a.len(),
        n.len() == b.len(),
        parts_tokens(c),
    ensures
        tokens(a + seq![c] + b, m + seq![mark] + n) == tokens(a, m) + moved(
            tokens(b, n),
            byte_len(a) + 1,
        ),
{
    let tail = seq![c] + b;
    let tail_marks = seq![mark] + n;
    assert(a + seq![c] + b =~= a + tail);
    assert(m + seq![mark] + n =~= m + tail_marks);
    lemma_tokens_before(a, tail, m, tail_marks, 0);
    assert(!indexed(tail, tail_marks, 0));
    assert(tokens_from(tail, tail_marks, 0) == tokens_from(tail, tail_marks, 1));
    lemma_tokens_behind(seq![c], b, seq![mark], n, 0);
    assert(byte_len(seq![c]) == 1) by {
        reveal_with_fuel(offset, 2);
    }
    assert(moved(moved(tokens(b, n), 1), byte_len(a)) =~= moved(tokens(b, n), byte_len(a) + 1));
}

/// A text can be searched for exactly when it has a token.
pub proof fn law_searchable_texts_have_tokens(s: Seq<char>)
    ensures
        searchable(s) <==> tokens(s, marks_of(s)).len() > 0,
        (exists|i: int| 0 <= i < s.len() && (latin(#[trigger] s[i]) || numeral(s[i])))
            ==> searchable(s),
        (forall|i: int| 0 <= i < s.len() ==> parts_tokens(#[trigger] s[i])) ==> !searchable(s),
{
    let marks = marks_of(s);
    if searchable(s) {
        let i = choose|i: int| 0 <= i < s.len() && #[trigger] indexed(s, marks, i);
        lemma_covered(s, marks, i);
    }
    if tokens(s, marks).len() > 0 {
        law_tokens_are_of_one_kind(s, marks, 0);
        let (from, to) = choose|from: int, to: int|
            is_token(s, marks, 0, from, to) && #[trigger] of_one_kind(s, marks, from, to);
        assert(latin(s[from]) || numeral(s[from]) || (s[from] as u32 >= 0x80 && marks[from]));
        assert(indexed(s, marks, from));
    }
    if exists|i: int| 0 <= i < s.len() && (latin(#[trigger] s[i]) || numeral(s[i])) {
        let i = choose|i: int| 0 <= i < s.len() && (latin(#[trigger] s[i]) || numeral(s[i]));
        assert(indexed(s, marks, i));
    }
}

} // verus!
