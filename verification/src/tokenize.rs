//! Splits a text into the words that the index is made of.

use std::ops::Range;

use vstd::prelude::*;
use vstd::utf8::*;

use crate::text::{
    ascii, byte_len, char_width, chars_of, contains, contains_chars, decode, digit, is_digit,
    is_letter, lemma_char_at, lemma_offset_monotonic, letter, lowered, lowered_of, offset,
    on_boundary, same, slice,
};

verus! {

/// A token and its byte range in the original UTF-8 string.
#[derive(Debug, PartialEq, Eq)]
pub struct TokenSpan {
    pub text: String,
    pub range: Range<usize>,
}

/// What a token span holds.
pub struct TokenView {
    pub text: Seq<char>,
    pub start: int,
    pub end: int,
}

impl View for TokenSpan {
    type V = TokenView;

    open spec fn view(&self) -> TokenView {
        TokenView {
            text: self.text@,
            start: self.range.start as int,
            end: self.range.end as int,
        }
    }
}

impl Clone for TokenSpan {
    fn clone(&self) -> (copy: Self)
        ensures
            copy@ == self@,
    {
        TokenSpan { text: self.text.clone(), range: self.range.start..self.range.end }
    }
}

/// What a list of token spans holds.
pub open spec fn token_views(spans: Seq<TokenSpan>) -> Seq<TokenView> {
    spans.map_values(|span: TokenSpan| span@)
}

/// The answer of `char::is_alphanumeric`, which goes by the Unicode tables.
pub uninterp spec fn alphanumeric(c: char) -> bool;

/// `char::is_alphanumeric`: the answer depends on the character alone.
pub assume_specification[ char::is_alphanumeric ](c: char) -> (r: bool)
    ensures
        r == alphanumeric(c),
;

/// `alphanumeric` on every character of a text.
pub open spec fn marks_of(s: Seq<char>) -> Seq<bool> {
    s.map_values(|c: char| alphanumeric(c))
}

/// The `i`-th character belongs to a token. Beyond ASCII the mark decides.
pub open spec fn indexed(s: Seq<char>, marks: Seq<bool>, i: int) -> bool {
    letter(s[i]) || digit(s[i]) || (!ascii(s[i]) && marks[i])
}

/// Two neighbours belong to the same token: ASCII letters form runs, and so
/// do ASCII digits.
pub open spec fn joins(a: char, b: char) -> bool {
    (letter(a) && letter(b)) || (digit(a) && digit(b))
}

/// Where the run of joined characters that holds the `i`-th one ends.
pub open spec fn run_end(s: Seq<char>, i: int) -> int
    decreases s.len() - i,
{
    if 0 <= i && i + 1 < s.len() && joins(s[i], s[i + 1]) {
        run_end(s, i + 1)
    } else {
        i + 1
    }
}

/// The token made of the characters from one index up to another.
pub open spec fn token(s: Seq<char>, from: int, to: int) -> TokenView {
    TokenView {
        text: lowered(s.subrange(from, to)),
        start: offset(s, from),
        end: offset(s, to),
    }
}

/// The tokens that start at the `i`-th character or behind it.
pub open spec fn tokens_from(s: Seq<char>, marks: Seq<bool>, i: int) -> Seq<TokenView>
    decreases s.len() - i,
    via tokens_from_decreases
{
    if i < 0 || i >= s.len() {
        Seq::empty()
    } else if indexed(s, marks, i) {
        seq![token(s, i, run_end(s, i))] + tokens_from(s, marks, run_end(s, i))
    } else {
        tokens_from(s, marks, i + 1)
    }
}

#[via_fn]
proof fn tokens_from_decreases(s: Seq<char>, marks: Seq<bool>, i: int) {
    if 0 <= i < s.len() {
        lemma_run_end(s, i);
    }
}

proof fn lemma_run_end(s: Seq<char>, i: int)
    requires
        0 <= i < s.len(),
    ensures
        i < run_end(s, i) <= s.len(),
    decreases s.len() - i,
{
    if i + 1 < s.len() && joins(s[i], s[i + 1]) {
        lemma_run_end(s, i + 1);
    }
}

/// The tokens of a text.
pub open spec fn tokens(s: Seq<char>, marks: Seq<bool>) -> Seq<TokenView> {
    tokens_from(s, marks, 0)
}

/// Return the token sequence of a text.
///
/// ASCII letters and digits form separate runs, ASCII runs are normalized to
/// lower case, Unicode alphanumeric characters are indexed one code point at
/// a time, and punctuation and whitespace are separators. The source range
/// always refers to the original string rather than a normalized copy.
pub fn token_spans(text: &str) -> (spans: Vec<TokenSpan>)
    ensures
        token_views(spans@) == tokens(text@, marks_of(text@)),
{
    let chars = chars_of(text);
    let mut marks: Vec<bool> = Vec::new();
    let mut i: usize = 0;
    while i < chars.len()
        invariant
            i <= chars@.len(),
            marks@ == marks_of(chars@).take(i as int),
        decreases chars@.len() - i,
    {
        marks.push(chars[i].is_alphanumeric());
        i += 1;
        assert(marks@ =~= marks_of(chars@).take(i as int));
    }
    assert(marks@ =~= marks_of(chars@));
    token_spans_marked(text, &marks)
}

/// Return the token sequence of a text, given for each of its characters
/// whether it is alphanumeric.
pub fn token_spans_marked(text: &str, marks: &Vec<bool>) -> (spans: Vec<TokenSpan>)
    requires
        marks@.len() == text@.len(),
    ensures
        token_views(spans@) == tokens(text@, marks@),
{
    let chars = chars_of(text);
    let ghost s = text@;
    let mut spans: Vec<TokenSpan> = Vec::new();
    let mut i: usize = 0;
    let mut position: usize = 0;
    assert(token_views(spans@) =~= Seq::empty());
    assert(token_views(spans@) + tokens_from(s, marks@, 0) =~= tokens(s, marks@));
    while i < chars.len()
        invariant
            chars@ == s,
            marks@.len() == s.len(),
            i <= s.len(),
            position == offset(s, i as int),
            byte_len(s) <= usize::MAX,
            token_views(spans@) + tokens_from(s, marks@, i as int) == tokens(s, marks@),
        decreases s.len() - i,
    {
        let c = chars[i];
        let from = i;
        let start = position;
        proof {
            lemma_offset_monotonic(s, i + 1, s.len() as int);
        }
        position = position + char_width(c);
        i += 1;
        if is_letter(c) || is_digit(c) || ((c as u32) >= 0x80 && marks[from]) {
            while i < chars.len() && ((is_letter(chars[i - 1]) && is_letter(chars[i])) || (
            is_digit(chars[i - 1]) && is_digit(chars[i])))
                invariant
                    chars@ == s,
                    from < i <= s.len(),
                    position == offset(s, i as int),
                    byte_len(s) <= usize::MAX,
                    run_end(s, from as int) == run_end(s, i - 1),
                decreases s.len() - i,
            {
                proof {
                    lemma_offset_monotonic(s, i + 1, s.len() as int);
                }
                position = position + char_width(chars[i]);
                i += 1;
            }
            let span = TokenSpan { text: lowered_of(&chars, from, i), range: start..position };
            let ghost before = token_views(spans@);
            let ghost rest = tokens_from(s, marks@, i as int);
            spans.push(span);
            assert(token_views(spans@) =~= before.push(span@));
            assert(span@ == token(s, from as int, i as int));
            assert(tokens_from(s, marks@, from as int) == seq![span@] + rest);
            assert(before.push(span@) + rest =~= before + (seq![span@] + rest));
        }
    }
    assert(token_views(spans@) + Seq::<TokenView>::empty() =~= token_views(spans@));
    spans
}

/// Some character of the text belongs to a token.
pub open spec fn searchable(s: Seq<char>) -> bool {
    exists|i: int| 0 <= i < s.len() && #[trigger] indexed(s, marks_of(s), i)
}

/// Whether the index makes any token of a text.
pub fn has_tokens(text: &str) -> (r: bool)
    ensures
        r == searchable(text@),
{
    let spans = token_spans(text);
    proof {
        lemma_tokens_of_rest(text@, marks_of(text@), 0);
        assert(spans@.len() == tokens(text@, marks_of(text@)).len());
    }
    spans.len() > 0
}

proof fn lemma_tokens_of_rest(s: Seq<char>, marks: Seq<bool>, i: int)
    requires
        0 <= i <= s.len(),
    ensures
        tokens_from(s, marks, i).len() > 0 <==> exists|k: int|
            i <= k < s.len() && #[trigger] indexed(s, marks, k),
    decreases s.len() - i,
{
    if i < s.len() && !indexed(s, marks, i) {
        lemma_tokens_of_rest(s, marks, i + 1);
    }
}

/// A token names the characters from `from` up to `to` of the text.
pub open spec fn token_of(s: Seq<char>, t: TokenView, from: int, to: int) -> bool {
    0 <= from < to <= s.len() && t == token(s, from, to)
}

proof fn lemma_tokens_in_order(s: Seq<char>, marks: Seq<bool>, i: int)
    requires
        0 <= i <= s.len(),
    ensures
        forall|k: int|
            0 <= k < tokens_from(s, marks, i).len() ==> {
                let t = #[trigger] tokens_from(s, marks, i)[k];
                &&& offset(s, i) <= t.start < t.end <= byte_len(s)
                &&& exists|from: int, to: int| #[trigger] token_of(s, t, from, to)
            },
        forall|j: int, k: int|
            0 <= j < k < tokens_from(s, marks, i).len() ==> (#[trigger] tokens_from(
                s,
                marks,
                i,
            )[j]).end <= (#[trigger] tokens_from(s, marks, i)[k]).start,
    decreases s.len() - i,
{
    if i < s.len() {
        lemma_run_end(s, i);
        let next = if indexed(s, marks, i) {
            run_end(s, i)
        } else {
            i + 1
        };
        lemma_tokens_in_order(s, marks, next);
        lemma_offset_monotonic(s, i, next);
        lemma_offset_monotonic(s, next, s.len() as int);
        if indexed(s, marks, i) {
            let first = token(s, i, next);
            let rest = tokens_from(s, marks, next);
            let all = tokens_from(s, marks, i);
            assert(all == seq![first] + rest);
            assert(token_of(s, first, i, next));
            assert(all[0] == first);
            assert forall|k: int| 0 <= k < all.len() implies {
                let t = #[trigger] all[k];
                &&& offset(s, i) <= t.start < t.end <= byte_len(s)
                &&& exists|from: int, to: int| #[trigger] token_of(s, t, from, to)
            } by {
                if k > 0 {
                    assert(all[k] == rest[k - 1]);
                }
            }
            assert forall|j: int, k: int| 0 <= j < k < all.len() implies (#[trigger] all[j]).end
                <= (#[trigger] all[k]).start by {
                assert(all[k] == rest[k - 1]);
                if j > 0 {
                    assert(all[j] == rest[j - 1]);
                }
            }
        }
    }
}

/// Every token range lies on character boundaries of the source, and what the
/// source holds there is the token's text up to the case of ASCII letters.
pub proof fn law_ranges_refer_to_source(s: Seq<char>, marks: Seq<bool>, k: int)
    requires
        marks.len() == s.len(),
        0 <= k < tokens(s, marks).len(),
    ensures
        ({
            let t = tokens(s, marks)[k];
            &&& 0 <= t.start < t.end <= byte_len(s)
            &&& on_boundary(s, t.start)
            &&& on_boundary(s, t.end)
            &&& t.text == lowered(slice(s, t.start, t.end))
        }),
{
    lemma_tokens_in_order(s, marks, 0);
    let t = tokens(s, marks)[k];
    let (from, to) = choose|from: int, to: int| #[trigger] token_of(s, t, from, to);
    assert(token_of(s, t, from, to));
    lemma_char_at(s, from);
    lemma_char_at(s, to);
}

/// One of the tokens has the byte `b` of the source.
pub open spec fn covered(tokens: Seq<TokenView>, b: int) -> bool {
    exists|i: int| 0 <= i < tokens.len() && (#[trigger] tokens[i]).start <= b < tokens[i].end
}

proof fn lemma_run_indexed(s: Seq<char>, marks: Seq<bool>, i: int, k: int)
    requires
        0 <= i < s.len(),
        indexed(s, marks, i),
        i <= k < run_end(s, i),
    ensures
        indexed(s, marks, k),
    decreases s.len() - i,
{
    if i < k {
        lemma_run_indexed(s, marks, i + 1, k);
    }
}

proof fn lemma_tokens_cover(s: Seq<char>, marks: Seq<bool>, i: int, k: int)
    requires
        0 <= i <= k < s.len(),
    ensures
        indexed(s, marks, k) <==> covered(tokens_from(s, marks, i), offset(s, k)),
    decreases s.len() - i,
{
    lemma_run_end(s, i);
    let all = tokens_from(s, marks, i);
    let b = offset(s, k);
    if indexed(s, marks, i) {
        let end = run_end(s, i);
        let rest = tokens_from(s, marks, end);
        assert(all == seq![token(s, i, end)] + rest);
        assert(all[0] == token(s, i, end));
        if k < end {
            lemma_run_indexed(s, marks, i, k);
            lemma_offset_monotonic(s, i, k);
            lemma_offset_monotonic(s, k, end);
            assert(all[0].start <= b < all[0].end);
        } else {
            lemma_tokens_cover(s, marks, end, k);
            lemma_offset_monotonic(s, end, k);
            if covered(rest, b) {
                let m = choose|m: int|
                    0 <= m < rest.len() && (#[trigger] rest[m]).start <= b < rest[m].end;
                assert(all[m + 1] == rest[m]);
            }
            if covered(all, b) {
                let m = choose|m: int|
                    0 <= m < all.len() && (#[trigger] all[m]).start <= b < all[m].end;
                assert(all[m] == rest[m - 1]);
            }
        }
    } else if i < k {
        lemma_tokens_cover(s, marks, i + 1, k);
    } else if covered(all, b) {
        let m = choose|m: int| 0 <= m < all.len() && (#[trigger] all[m]).start <= b < all[m].end;
        lemma_tokens_in_order(s, marks, i + 1);
        lemma_offset_monotonic(s, i, i + 1);
        assert(offset(s, i + 1) <= tokens_from(s, marks, i + 1)[m].start);
    }
}

/// A character of the source is in a token exactly when it is a letter or a
/// digit; what separates tokens is in none.
pub proof fn law_tokens_hold_letters_and_digits(s: Seq<char>, marks: Seq<bool>, k: int)
    requires
        marks.len() == s.len(),
        0 <= k < s.len(),
    ensures
        covered(tokens(s, marks), offset(s, k)) <==> indexed(s, marks, k),
{
    lemma_tokens_cover(s, marks, 0, k);
}

/// Tokens come in the order of the source and do not overlap.
pub proof fn law_tokens_are_disjoint(s: Seq<char>, marks: Seq<bool>, j: int, k: int)
    requires
        marks.len() == s.len(),
        0 <= j < k < tokens(s, marks).len(),
    ensures
        tokens(s, marks)[j].end <= tokens(s, marks)[k].start,
{
    lemma_tokens_in_order(s, marks, 0);
}

/// The tokenizer registered under the `rsou` name.
pub struct RsouTokenizer;

impl RsouTokenizer {
    /// Makes a tokenizer from the arguments of its registration. Mode `0` is
    /// the only one in use; `1` is accepted ahead of a later mode.
    pub fn new(args: &Vec<String>) -> (r: Result<Self, String>)
        ensures
            r is Ok <==> forall|i: int|
                0 <= i < args@.len() ==> #[trigger] args@[i]@ == "0"@ || args@[i]@ == "1"@,
            r is Err ==> r->Err_0@ == "rsou tokenizer accepts only mode 0 or 1"@,
    {
        let mut i: usize = 0;
        while i < args.len()
            invariant
                i <= args@.len(),
                forall|k: int| 0 <= k < i ==> #[trigger] args@[k]@ == "0"@ || args@[k]@ == "1"@,
            decreases args@.len() - i,
        {
            if !same(args[i].as_str(), "0") && !same(args[i].as_str(), "1") {
                return Err("rsou tokenizer accepts only mode 0 or 1".to_owned());
            }
            i += 1;
        }
        Ok(RsouTokenizer)
    }

    /// The tokens of a text given as bytes; `None` where the bytes are not
    /// UTF-8.
    pub fn tokenize(&self, text: &[u8]) -> (r: Option<Vec<TokenSpan>>)
        ensures
            r is Some <==> valid_utf8(text@),
            r is Some ==> token_views(r->0@) == tokens(
                decode_utf8(text@),
                marks_of(decode_utf8(text@)),
            ),
    {
        match decode(text) {
            Some(text) => Some(token_spans(text.as_str())),
            None => None,
        }
    }
}

/// The second-stage guard for a character tokenizer: index positions ignore
/// punctuation, so `文、档` can satisfy the phrase query `"文档"`. A highlight
/// is kept only where the source contains the requested literal.
pub fn accepts_exact_literal(source: &str, literal: &str) -> (r: bool)
    ensures
        r == contains(source@, literal@),
{
    let source = chars_of(source);
    let literal = chars_of(literal);
    contains_chars(&source, &literal)
}

} // verus!
