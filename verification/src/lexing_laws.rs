//! How every query is taken apart into tokens: tokens that are written down are found
//! again.

use vstd::prelude::*;

use crate::grammar_laws::{all_numerals, asks, field_word, sensible, shown, Style};
use crate::line_laws::blank;
use crate::query::{
    answer, compile_tree, keyword, lex_from, next_mark, prefixed, symbol, word_end, word_lexeme,
    Field, Found, Lexeme, Setting, Tree,
};
use crate::spelling_laws::{lemma_blank, lemma_word, unbroken, written};
use crate::text::{digit, lower, lowered, space};
use crate::token_laws::{same_but_for_case, same_letter};

verus! {

/// A character that no word has: white space, a quotation mark, a dash, or a mark of
/// the query language.
pub open spec fn stops_word(c: char) -> bool {
    blank(c) || c == '(' || c == ')' || c == ':' || c == ',' || c == '\'' || c == '"' || c == '-'
}

/// Characters that make one word.
pub open spec fn one_word(text: Seq<char>) -> bool {
    &&& text.len() > 0
    &&& forall|i: int| 0 <= i < text.len() ==> !stops_word(#[trigger] text[i])
}

/// A word that is an operator, whatever its case.
pub open spec fn operator(text: Seq<char>) -> bool {
    ||| same_but_for_case(text, seq!['a', 'n', 'd'])
    ||| same_but_for_case(text, seq!['o', 'r'])
    ||| same_but_for_case(text, seq!['n', 'o', 't'])
}

/// The text writes a token.
pub open spec fn writes(text: Seq<char>, token: Lexeme) -> bool {
    match token {
        Lexeme::Word(word) => text == word && one_word(word) && !all_numerals(word) && !operator(
            word,
        ),
        Lexeme::Number(word) => text == word && word.len() > 0 && all_numerals(word),
        Lexeme::Phrase(phrase) => {
            &&& phrase.len() > 0
            &&& (text == seq!['"'] + phrase + seq!['"'] && !phrase.contains('"')) || (text == seq![
                '\'',
            ] + phrase + seq!['\''] && !phrase.contains('\''))
        },
        Lexeme::And => same_but_for_case(text, seq!['a', 'n', 'd']),
        Lexeme::Or => same_but_for_case(text, seq!['o', 'r']),
        Lexeme::Not => same_but_for_case(text, seq!['n', 'o', 't']),
        Lexeme::LParen => text == seq!['('],
        Lexeme::RParen => text == seq![')'],
        Lexeme::Colon => text == seq![':'],
        Lexeme::Comma => text == seq![','],
        Lexeme::Minus => text == seq!['-'],
    }
}

/// A token that is written as a word.
pub open spec fn wordlike(token: Lexeme) -> bool {
    token is Word || token is Number || token == Lexeme::And || token == Lexeme::Or || token
        == Lexeme::Not
}

/// The texts write the tokens. There is white space or nothing before, between and
/// behind them, but always some between two words.
pub open spec fn writes_all(
    words: Seq<Seq<char>>,
    gaps: Seq<Seq<char>>,
    tokens: Seq<Lexeme>,
) -> bool {
    &&& words.len() == tokens.len()
    &&& gaps.len() == words.len() + 1
    &&& forall|i: int| 0 <= i < words.len() ==> writes(#[trigger] words[i], tokens[i])
    &&& forall|i: int, k: int|
        0 <= i < gaps.len() && 0 <= k < gaps[i].len() ==> blank(#[trigger] gaps[i][k])
    &&& forall|i: int|
        0 < i < words.len() && wordlike(tokens[i - 1]) && wordlike(tokens[i]) ==> (
        #[trigger] gaps[i]).len() > 0
}

proof fn lemma_blank_is_space(c: char)
    ensures
        blank(c) == space(c),
        stops_word(c) == word_end(c),
{
}

proof fn lemma_small(text: Seq<char>, name: Seq<char>, upper: Seq<char>)
    requires
        name == lowered(upper),
        forall|i: int| 0 <= i < upper.len() ==> 'A' <= #[trigger] upper[i] && upper[i] <= 'Z',
    ensures
        same_but_for_case(text, name) <==> keyword(text, upper),
        same_but_for_case(text, name) ==> one_word(text) || text.len() == 0,
        same_but_for_case(text, name) && text.len() > 0 ==> !digit(text[0]),
{
    if same_but_for_case(text, name) {
        assert forall|i: int| 0 <= i < text.len() implies lowered(text)[i] == lowered(upper)[i]
            && !stops_word(#[trigger] text[i]) && !digit(text[i]) by {
            assert('A' <= upper[i] && upper[i] <= 'Z');
            assert(same_letter(text[i], name[i]));
            assert(lower(upper[i]) == name[i]);
            assert(name[i] as u32 == upper[i] as u32 + 32);
            if text[i] != name[i] {
                assert(lower(text[i]) as u32 == name[i] as u32);
            }
        }
        assert(lowered(text) =~= lowered(upper));
    }
    if keyword(text, upper) {
        assert(lowered(text).len() == text.len() && lowered(upper).len() == upper.len());
        assert forall|i: int| 0 <= i < text.len() implies same_letter(
            #[trigger] text[i],
            name[i],
        ) by {
            assert('A' <= upper[i] && upper[i] <= 'Z');
            assert(lowered(text)[i] == lower(text[i]) && lowered(upper)[i] == lower(upper[i]));
            assert(lower(upper[i]) == name[i]);
            if 'A' <= text[i] && text[i] <= 'Z' {
                assert(lower(text[i]) as u32 == text[i] as u32 + 32);
            }
        }
    }
}

proof fn lemma_wordlike(text: Seq<char>, token: Lexeme)
    requires
        writes(text, token),
        wordlike(token),
    ensures
        unbroken(text),
        word_lexeme(text) == token,
{
    reveal_strlit("AND");
    reveal_strlit("OR");
    reveal_strlit("NOT");
    let and = seq!['a', 'n', 'd'];
    let or = seq!['o', 'r'];
    let not = seq!['n', 'o', 't'];
    assert(lowered("AND"@) =~= and);
    assert(lowered("OR"@) =~= or);
    assert(lowered("NOT"@) =~= not);
    lemma_small(text, and, "AND"@);
    lemma_small(text, or, "OR"@);
    lemma_small(text, not, "NOT"@);
    if token == Lexeme::Or || token == Lexeme::Not {
        if same_but_for_case(text, and) {
            assert(same_letter(text[0], 'a'));
            assert(same_letter(text[0], token_first(token)));
        }
    }
    if token == Lexeme::Not {
        assert(text.len() == 3);
    }
    assert forall|i: int| 0 <= i < text.len() implies !word_end(#[trigger] text[i]) by {
        lemma_blank_is_space(text[i]);
        match token {
            Lexeme::Number(word) => {
                assert('0' <= word[i] && word[i] <= '9');
            },
            _ => {
                assert(!stops_word(text[i]));
            },
        }
    }
    if all_numerals(text) {
        assert forall|i: int| 0 <= i < text.len() implies digit(#[trigger] text[i]) by {
            assert('0' <= text[i] && text[i] <= '9');
        }
    } else {
        let i = choose|i: int|
            0 <= i < text.len() && !('0' <= #[trigger] text[i] && text[i] <= '9');
        assert(!digit(text[i]));
    }
    match token {
        Lexeme::And | Lexeme::Or | Lexeme::Not => {
            assert(text.len() > 0);
            assert(!('0' <= text[0] && text[0] <= '9'));
            assert(!all_numerals(text));
        },
        _ => {},
    }
}

/// The first letter of an operator.
spec fn token_first(token: Lexeme) -> char {
    match token {
        Lexeme::And => 'a',
        Lexeme::Or => 'o',
        _ => 'n',
    }
}

proof fn lemma_quote_ends(s: Seq<char>, i: int, j: int, mark: char)
    requires
        0 <= i <= j < s.len(),
        s[j] == mark,
        forall|k: int| i <= k < j ==> #[trigger] s[k] != mark,
    ensures
        next_mark(s, i, mark) == j,
    decreases j - i,
{
    if i < j {
        lemma_quote_ends(s, i + 1, j, mark);
    }
}

/// A token at a place of a text.
proof fn lemma_token(s: Seq<char>, i: int, text: Seq<char>, token: Lexeme)
    requires
        writes(text, token),
        0 <= i,
        i + text.len() <= s.len(),
        s.subrange(i, i + text.len()) == text,
        wordlike(token) ==> i + text.len() == s.len() || word_end(s[i + text.len()]),
    ensures
        text.len() > 0,
        lex_from(s, i) == prefixed(seq![token], lex_from(s, i + text.len())),
{
    let part = s.subrange(i, i + text.len());
    if wordlike(token) {
        lemma_wordlike(text, token);
        lemma_word(s, i, text);
    } else {
        assert(text.len() > 0);
        assert(s[i] == text[0]) by {
            assert(part[0] == s[i]);
        }
        match token {
            Lexeme::Phrase(phrase) => {
                let mark = text[0];
                assert(mark == '"' || mark == '\'');
                let end = i + 1 + phrase.len();
                assert(text =~= seq![mark] + phrase + seq![mark]);
                assert(s[end] == mark) by {
                    assert(part[1int + phrase.len()] == s[end]);
                }
                assert forall|k: int| i + 1 <= k < end implies #[trigger] s[k] != mark by {
                    assert(part[k - i] == s[k]);
                    assert(text[k - i] == phrase[k - i - 1]);
                    assert(phrase.contains(phrase[k - i - 1]));
                }
                lemma_quote_ends(s, i + 1, end, mark);
                assert(s.subrange(i + 1, end) =~= phrase) by {
                    assert forall|k: int| 0 <= k < phrase.len() implies s.subrange(i + 1, end)[k]
                        == phrase[k] by {
                        assert(part[k + 1] == s[i + 1 + k]);
                        assert(text[k + 1] == phrase[k]);
                    }
                }
                assert(symbol(s[i]) is None && !space(s[i]));
            },
            _ => {
                assert(symbol(s[i]) == Some(token));
                assert(!space(s[i]));
            },
        }
    }
}

proof fn lemma_found_again(
    s: Seq<char>,
    i: int,
    words: Seq<Seq<char>>,
    gaps: Seq<Seq<char>>,
    tokens: Seq<Lexeme>,
)
    requires
        writes_all(words, gaps, tokens),
        0 <= i <= s.len(),
        s.skip(i) == written(words, gaps),
    ensures
        lex_from(s, i) == Ok::<Seq<Lexeme>, Seq<char>>(tokens),
    decreases words.len(),
{
    let gap = gaps[0];
    let rest = s.skip(i);
    let j = i + gap.len();
    assert forall|k: int| 0 <= k < gap.len() implies space(#[trigger] gap[k]) by {
        assert(blank(gaps[0][k]));
        lemma_blank_is_space(gap[k]);
    }
    if words.len() == 0 {
        assert(s.subrange(i, j) =~= rest);
        lemma_blank(s, i, j);
        assert(tokens =~= Seq::empty());
    } else {
        let word = words[0];
        let token = tokens[0];
        let tail = written(words.skip(1), gaps.skip(1));
        let k = j + word.len();
        assert(writes(word, token));
        assert(rest.len() == gap.len() + word.len() + tail.len());
        assert(s.subrange(i, j) =~= gap) by {
            assert(s.subrange(i, j) =~= rest.subrange(0, gap.len() as int));
        }
        lemma_blank(s, i, j);
        assert(s.subrange(j, k) =~= word) by {
            assert(s.subrange(j, k) =~= rest.subrange(
                gap.len() as int,
                (gap.len() + word.len()) as int,
            ));
        }
        assert(s.skip(k) =~= tail) by {
            assert(s.skip(k) =~= rest.skip((gap.len() + word.len()) as int));
        }
        lemma_less(words, gaps, tokens);
        lemma_found_again(s, k, words.skip(1), gaps.skip(1), tokens.skip(1));
        if wordlike(token) && k < s.len() {
            lemma_behind_word(words, gaps, tokens);
            assert(s[k] == tail[0]);
        }
        lemma_token(s, j, word, token);
        assert(seq![token] + tokens.skip(1) =~= tokens);
    }
}

proof fn lemma_less(words: Seq<Seq<char>>, gaps: Seq<Seq<char>>, tokens: Seq<Lexeme>)
    requires
        writes_all(words, gaps, tokens),
        words.len() > 0,
    ensures
        writes_all(words.skip(1), gaps.skip(1), tokens.skip(1)),
{
    let a = words.skip(1);
    let b = gaps.skip(1);
    let c = tokens.skip(1);
    assert forall|i: int| 0 <= i < a.len() implies writes(#[trigger] a[i], c[i]) by {
        assert(a[i] == words[i + 1] && c[i] == tokens[i + 1]);
    }
    assert forall|i: int, k: int| 0 <= i < b.len() && 0 <= k < b[i].len() implies blank(
        #[trigger] b[i][k],
    ) by {
        assert(b[i] == gaps[i + 1]);
        assert(blank(gaps[i + 1][k]));
    }
    assert forall|i: int| 0 < i < a.len() && wordlike(c[i - 1]) && wordlike(c[i]) implies (
    #[trigger] b[i]).len() > 0 by {
        assert(b[i] == gaps[i + 1] && c[i] == tokens[i + 1] && c[i - 1] == tokens[i]);
    }
}

/// What stands behind the first token, if that is a word, ends it.
proof fn lemma_behind_word(words: Seq<Seq<char>>, gaps: Seq<Seq<char>>, tokens: Seq<Lexeme>)
    requires
        writes_all(words, gaps, tokens),
        words.len() > 0,
        wordlike(tokens[0]),
        written(words.skip(1), gaps.skip(1)).len() > 0,
    ensures
        word_end(written(words.skip(1), gaps.skip(1))[0]),
{
    let tail = written(words.skip(1), gaps.skip(1));
    let next = gaps[1];
    assert(gaps.skip(1)[0] == next);
    if words.len() > 1 {
        assert(words.skip(1)[0] == words[1]);
        let more = written(words.skip(1).skip(1), gaps.skip(1).skip(1));
        assert(tail == next + words[1] + more);
        if next.len() > 0 {
            assert(tail[0] == next[0]);
        } else {
            assert(!wordlike(tokens[1]));
            assert(writes(words[1], tokens[1]));
            assert(words[1].len() > 0);
            assert(tail[0] == words[1][0]);
        }
    } else {
        assert(tail == next);
    }
    if next.len() > 0 {
        assert(blank(gaps[1][0]));
        lemma_blank_is_space(next[0]);
    }
}

/// Tokens that are written down are found again, whatever white space there is, the
/// case of operators, and which quotation marks there are around a phrase.
pub proof fn law_tokens_are_found_again(
    words: Seq<Seq<char>>,
    gaps: Seq<Seq<char>>,
    tokens: Seq<Lexeme>,
)
    requires
        writes_all(words, gaps, tokens),
    ensures
        lex_from(written(words, gaps), 0) == Ok::<Seq<Lexeme>, Seq<char>>(tokens),
{
    let s = written(words, gaps);
    assert(s.skip(0) =~= s);
    lemma_found_again(s, 0, words, gaps, tokens);
}

/// A query that writes a condition asks for that condition.
pub proof fn law_queries_ask_for_what_they_write(
    setting: Setting,
    tree: Tree,
    style: Style,
    words: Seq<Seq<char>>,
    gaps: Seq<Seq<char>>,
)
    requires
        sensible(tree),
        asks(tree),
        writes_all(words, gaps, shown(tree, 0, style)),
        written(words, gaps).len() <= 500,
    ensures
        answer(setting, written(words, gaps)) == match compile_tree(
            setting,
            tree,
            true,
            Found { literals: Seq::empty(), extra: 0 },
        ) {
            Ok((expression, found)) => Ok((expression, found.literals)),
            Err(message) => Err(message),
        },
{
    law_tokens_are_found_again(words, gaps, shown(tree, 0, style));
    crate::grammar_laws::law_conditions_are_read_back(tree, style);
}

/// A query of more than 500 characters is refused.
pub proof fn law_long_queries_are_refused(setting: Setting, input: Seq<char>)
    requires
        input.len() > 500,
    ensures
        answer(setting, input) == Err::<(Seq<char>, Seq<Seq<char>>), Seq<char>>("查询过长"@),
{
}

proof fn lemma_field_word(field: Field)
    ensures
        writes(field_word(field), Lexeme::Word(field_word(field))),
{
    let w = field_word(field);
    assert forall|i: int| 0 <= i < w.len() implies !stops_word(#[trigger] w[i]) by {}
    assert(!('0' <= w[0] && w[0] <= '9'));
    assert(!all_numerals(w));
    assert(w.len() > 3);
}

/// The query that looks for a text in a field, with the field in front.
pub open spec fn in_a_field(field: Field, text: Seq<char>) -> Seq<char> {
    field_word(field) + seq![':'] + text
}

/// `title:x` is one token for the field, a colon, and the token that `x` is.
pub proof fn law_field_queries_have_three_tokens(field: Field, text: Seq<char>, token: Lexeme)
    requires
        writes(text, token),
    ensures
        lex_from(in_a_field(field, text), 0) == Ok::<Seq<Lexeme>, Seq<char>>(
            seq![Lexeme::Word(field_word(field)), Lexeme::Colon, token],
        ),
{
    let name = field_word(field);
    let none = Seq::<char>::empty();
    let words = seq![name, seq![':'], text];
    let gaps = seq![none, none, none, none];
    let tokens = seq![Lexeme::Word(name), Lexeme::Colon, token];
    lemma_field_word(field);
    assert(writes_all(words, gaps, tokens));
    law_tokens_are_found_again(words, gaps, tokens);
    reveal_with_fuel(written, 4);
    assert(words.skip(1) =~= seq![seq![':'], text]);
    assert(words.skip(1).skip(1) =~= seq![text]);
    assert(words.skip(1).skip(1).skip(1) =~= Seq::empty());
    assert(gaps.skip(1) =~= seq![none, none, none]);
    assert(gaps.skip(1).skip(1) =~= seq![none, none]);
    assert(gaps.skip(1).skip(1).skip(1) =~= seq![none]);
    assert(written(words, gaps) =~= in_a_field(field, text));
}

proof fn lemma_no_mark(s: Seq<char>, i: int, mark: char)
    requires
        0 <= i <= s.len(),
        forall|k: int| i <= k < s.len() ==> #[trigger] s[k] != mark,
    ensures
        next_mark(s, i, mark) == s.len(),
    decreases s.len() - i,
{
    if i < s.len() {
        lemma_no_mark(s, i + 1, mark);
    }
}

/// A phrase that is not closed is refused, and so is one with nothing in it.
pub proof fn law_phrases_are_closed_and_not_empty(mark: char, rest: Seq<char>)
    requires
        mark == '"' || mark == '\'',
    ensures
        !rest.contains(mark) ==> lex_from(seq![mark] + rest, 0) is Err,
        lex_from(seq![mark, mark] + rest, 0) is Err,
{
    let open = seq![mark] + rest;
    let empty = seq![mark, mark] + rest;
    assert(!space(mark));
    assert(symbol(mark) is None);
    if !rest.contains(mark) {
        assert forall|k: int| 1 <= k < open.len() implies #[trigger] open[k] != mark by {
            assert(open[k] == rest[k - 1]);
            assert(rest.contains(rest[k - 1]));
        }
        lemma_no_mark(open, 1, mark);
        assert(open[0] == mark);
    }
    assert(empty[0] == mark && empty[1] == mark);
    assert(next_mark(empty, 1, mark) == 1);
}

} // verus!
