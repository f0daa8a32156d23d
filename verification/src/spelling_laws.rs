//! How a query can be written: its operators, and what stands between its words.

use vstd::prelude::*;

use crate::query::{
    answer, keyword, lex_from, negation_problem, next_end, positive, prefixed, read_and_rest,
    read_or, read_or_rest, read_primary, read_query, read_unary, symbol, word_end, word_lexeme,
    Lexeme, Setting, Tree, MAX_QUERY_CHARS,
};
use crate::text::{digit, lower, lowered, space};

verus! {

/// A word that is no operator.
pub open spec fn plain_word(word: Seq<char>) -> bool {
    &&& unbroken(word)
    &&& !keyword(word, "AND"@)
    &&& !keyword(word, "OR"@)
    &&& !keyword(word, "NOT"@)
}

/// A word or an operator that is written like one.
pub open spec fn unbroken(word: Seq<char>) -> bool {
    &&& word.len() > 0
    &&& forall|i: int| 0 <= i < word.len() ==> !word_end(#[trigger] word[i])
}

/// White space, or nothing.
pub open spec fn blank(gap: Seq<char>) -> bool {
    forall|i: int| 0 <= i < gap.len() ==> space(#[trigger] gap[i])
}

/// The words with the gaps before, between and behind them.
pub open spec fn written(words: Seq<Seq<char>>, gaps: Seq<Seq<char>>) -> Seq<char>
    decreases words.len(),
{
    if words.len() == 0 {
        gaps[0]
    } else {
        gaps[0] + words[0] + written(words.skip(1), gaps.skip(1))
    }
}

/// The gaps are white space, and there is some between two words.
pub open spec fn set_apart(words: Seq<Seq<char>>, gaps: Seq<Seq<char>>) -> bool {
    &&& gaps.len() == words.len() + 1
    &&& forall|i: int| 0 <= i < gaps.len() ==> blank(#[trigger] gaps[i])
    &&& forall|i: int|
        0 <= i < words.len() ==> unbroken(#[trigger] words[i]) || words[i] == "-"@
    &&& forall|i: int|
        0 < i < words.len() && unbroken(words[i - 1]) && unbroken(words[i]) ==> (
        #[trigger] gaps[i]).len() > 0
}

/// What a word or a dash stands for.
pub open spec fn stands_for(word: Seq<char>) -> Lexeme {
    if word == "-"@ {
        Lexeme::Minus
    } else {
        word_lexeme(word)
    }
}

/// A query of these words, not too long to be accepted.
pub open spec fn spells(input: Seq<char>, words: Seq<Seq<char>>) -> bool {
    &&& input.len() <= MAX_QUERY_CHARS
    &&& exists|gaps: Seq<Seq<char>>| #[trigger]
        set_apart(words, gaps) && input == written(words, gaps)
}

/// White space between tokens is passed over.
pub proof fn lemma_blank(s: Seq<char>, i: int, j: int)
    requires
        0 <= i <= j <= s.len(),
        blank(s.subrange(i, j)),
    ensures
        lex_from(s, i) == lex_from(s, j),
    decreases j - i,
{
    if i < j {
        assert(space(s[i])) by {
            assert(s.subrange(i, j)[0] == s[i]);
        }
        assert(blank(s.subrange(i + 1, j))) by {
            assert forall|k: int| 0 <= k < s.subrange(i + 1, j).len() implies space(
                #[trigger] s.subrange(i + 1, j)[k],
            ) by {
                assert(s.subrange(i + 1, j)[k] == s.subrange(i, j)[k + 1]);
            }
        }
        lemma_blank(s, i + 1, j);
    }
}

proof fn lemma_word_ends(s: Seq<char>, i: int, j: int)
    requires
        0 <= i <= j <= s.len(),
        forall|k: int| i <= k < j ==> !word_end(#[trigger] s[k]),
        j == s.len() || word_end(s[j]),
    ensures
        next_end(s, i) == j,
    decreases j - i,
{
    if i < j {
        lemma_word_ends(s, i + 1, j);
    }
}

/// The word that stands at a place of a text.
pub proof fn lemma_word(s: Seq<char>, i: int, word: Seq<char>)
    requires
        unbroken(word),
        0 <= i,
        i + word.len() <= s.len(),
        s.subrange(i, i + word.len()) == word,
        i + word.len() == s.len() || word_end(s[i + word.len()]),
    ensures
        lex_from(s, i) == prefixed(seq![word_lexeme(word)], lex_from(s, i + word.len())),
{
    assert forall|k: int| i <= k < i + word.len() implies !word_end(#[trigger] s[k]) by {
        assert(s[k] == word[k - i]);
    }
    lemma_word_ends(s, i, i + word.len());
    assert(!word_end(s[i]));
}

/// The words of a text, wherever the text begins.
proof fn lemma_written(s: Seq<char>, i: int, words: Seq<Seq<char>>, gaps: Seq<Seq<char>>)
    requires
        set_apart(words, gaps),
        0 <= i <= s.len(),
        s.skip(i) == written(words, gaps),
    ensures
        lex_from(s, i) == Ok::<Seq<Lexeme>, Seq<char>>(
            words.map_values(|word: Seq<char>| stands_for(word)),
        ),
    decreases words.len(),
{
    reveal_strlit("-");
    let all = words.map_values(|word: Seq<char>| stands_for(word));
    let gap = gaps[0];
    let rest = s.skip(i);
    let j = i + gap.len();
    assert(blank(gap));
    if words.len() == 0 {
        assert(s.subrange(i, j) =~= rest);
        lemma_blank(s, i, j);
        assert(all =~= Seq::empty());
        assert(j == s.len());
    } else {
        let word = words[0];
        let tail = written(words.skip(1), gaps.skip(1));
        let k = j + word.len();
        assert(rest.len() == gap.len() + word.len() + tail.len());
        assert(s.subrange(i, j) =~= gap) by {
            assert(s.subrange(i, j) =~= rest.subrange(0, gap.len() as int));
        }
        lemma_blank(s, i, j);
        assert(s.subrange(j, k) =~= word) by {
            assert(s.subrange(j, k) =~= rest.subrange(
                gap.len() as int,
                (gap.len() + word.len()) as int,
            ));
        }
        assert(s.skip(k) =~= tail) by {
            assert(s.skip(k) =~= rest.skip((gap.len() + word.len()) as int));
        }
        assert(set_apart(words.skip(1), gaps.skip(1))) by {
            let less = words.skip(1);
            let fewer = gaps.skip(1);
            assert forall|n: int| 0 <= n < fewer.len() implies blank(#[trigger] fewer[n]) by {
                assert(fewer[n] == gaps[n + 1]);
            }
            assert forall|n: int| 0 <= n < less.len() implies unbroken(#[trigger] less[n])
                || less[n] == "-"@ by {
                assert(less[n] == words[n + 1]);
            }
            assert forall|n: int|
                0 < n < less.len() && unbroken(less[n - 1]) && unbroken(less[n]) implies (
            #[trigger] fewer[n]).len() > 0 by {
                assert(fewer[n] == gaps[n + 1]);
                assert(less[n] == words[n + 1]);
                assert(less[n - 1] == words[n]);
            }
        }
        lemma_written(s, k, words.skip(1), gaps.skip(1));
        assert(all =~= seq![stands_for(word)] + words.skip(1).map_values(
            |word: Seq<char>| stands_for(word),
        ));
        if unbroken(word) {
            if word == "-"@ {
                assert(word_end(word[0]));
            }
            if k < s.len() {
                assert(word_end(s[k])) by {
                    assert(s[k] == tail[0]);
                    let next = gaps[1];
                    assert(gaps.skip(1)[0] == next);
                    assert(blank(next));
                    if next.len() > 0 {
                        assert(tail[0] == next[0]) by {
                            if words.len() > 1 {
                                assert(tail == next + words.skip(1)[0] + written(
                                    words.skip(1).skip(1),
                                    gaps.skip(1).skip(1),
                                ));
                            }
                        }
                        assert(space(next[0]));
                    } else {
                        assert(words.len() > 1);
                        assert(words.skip(1)[0] == words[1]);
                        assert(!unbroken(words[1]));
                        assert(words[1] == "-"@);
                        assert(tail == next + words[1] + written(
                            words.skip(1).skip(1),
                            gaps.skip(1).skip(1),
                        ));
                        assert(tail[0] == words[1][0]);
                    }
                }
            }
            lemma_word(s, j, word);
        } else {
            assert(s[j] == word[0]);
            assert(symbol(s[j]) == Some(Lexeme::Minus));
        }
    }
}

proof fn lemma_spelled(input: Seq<char>, words: Seq<Seq<char>>)
    requires
        spells(input, words),
    ensures
        lex_from(input, 0) == Ok::<Seq<Lexeme>, Seq<char>>(
            words.map_values(|word: Seq<char>| stands_for(word)),
        ),
{
    let gaps = choose|gaps: Seq<Seq<char>>| #[trigger]
        set_apart(words, gaps) && input == written(words, gaps);
    assert(input.skip(0) =~= input);
    lemma_written(input, 0, words, gaps);
}

proof fn lemma_lower_letter(c: char, name: char)
    requires
        lower(c) == lower(name),
        'A' <= name <= 'Z',
    ensures
        !word_end(c),
        !digit(c),
{
    if 'A' <= c <= 'Z' {
    } else {
        assert(c == (name as u32 + 32) as char);
        assert(c as u32 == name as u32 + 32);
    }
}

/// An operator that is written like a word.
pub proof fn lemma_operator(word: Seq<char>)
    ensures
        keyword(word, "AND"@) ==> unbroken(word) && stands_for(word) == Lexeme::And,
        keyword(word, "OR"@) ==> unbroken(word) && stands_for(word) == Lexeme::Or,
        keyword(word, "NOT"@) ==> unbroken(word) && stands_for(word) == Lexeme::Not,
        plain_word(word) ==> stands_for(word) == Lexeme::Word(word) || stands_for(word)
            == Lexeme::Number(word),
        !unbroken("-"@),
        stands_for("-"@) == Lexeme::Minus,
{
    reveal_strlit("AND");
    reveal_strlit("OR");
    reveal_strlit("NOT");
    reveal_strlit("-");
    assert(word_end("-"@[0]));
    if unbroken(word) {
        assert(!word_end(word[0]));
    }
    let names = seq!["AND"@, "OR"@, "NOT"@];
    assert forall|n: int| 0 <= n < 3 && keyword(word, #[trigger] names[n]) implies unbroken(word)
        && !digit(word[0]) by {
        let name = names[n];
        assert(lowered(word).len() == lowered(name).len());
        assert forall|i: int| 0 <= i < word.len() implies !word_end(#[trigger] word[i]) && !digit(
            word[i],
        ) by {
            assert(lowered(word)[i] == lower(word[i]));
            assert(lowered(name)[i] == lower(name[i]));
            lemma_lower_letter(word[i], name[i]);
        }
    }
    assert(names[0] == "AND"@ && names[1] == "OR"@ && names[2] == "NOT"@);
    if keyword(word, "NOT"@) {
        assert(lowered(word)[0] == lower('N'));
        assert(lowered("AND"@)[0] == lower('A'));
    }
    assert(lowered("AND"@).len() == 3 && lowered("OR"@).len() == 2 && lowered("NOT"@).len() == 3);
}

/// The condition that a word states.
pub open spec fn term(word: Seq<char>) -> Tree {
    Tree::Term { text: word, field: None }
}

proof fn lemma_reads_pair(t: Seq<Lexeme>, x: Seq<char>, y: Seq<char>, n: int)
    requires
        t.len() == n + 2,
        0 <= n <= 2,
        t[0] == Lexeme::Word(x) || t[0] == Lexeme::Number(x),
        t[n + 1] == Lexeme::Word(y) || t[n + 1] == Lexeme::Number(y),
    ensures
        n == 0 || (n == 1 && t[1] == Lexeme::And) ==> read_or(t, 0) == Ok::<
            (Tree, int),
            Seq<char>,
        >((Tree::And(Box::new(term(x)), Box::new(term(y))), t.len() as int)),
        (n == 1 && (t[1] == Lexeme::Minus || t[1] == Lexeme::Not)) || (n == 2 && t[1]
            == Lexeme::And && (t[2] == Lexeme::Minus || t[2] == Lexeme::Not)) ==> read_or(t, 0)
            == Ok::<(Tree, int), Seq<char>>(
            (
                Tree::And(Box::new(term(x)), Box::new(Tree::Not(Box::new(term(y))))),
                t.len() as int,
            ),
        ),
        n == 1 && t[1] == Lexeme::Or ==> read_or(t, 0) == Ok::<(Tree, int), Seq<char>>(
            (Tree::Or(Box::new(term(x)), Box::new(term(y))), t.len() as int),
        ),
{
    reveal_with_fuel(read_unary, 3);
    reveal_with_fuel(read_and_rest, 3);
    reveal_with_fuel(read_or_rest, 3);
    let end = t.len() as int;
    assert(read_primary(t, n + 1, None) == Ok::<(Tree, int), Seq<char>>((term(y), end)));
    assert(read_unary(t, n + 1) == Ok::<(Tree, int), Seq<char>>((term(y), end)));
    if n == 0 || t[1] != Lexeme::Colon {
        assert(read_primary(t, 0, None) == Ok::<(Tree, int), Seq<char>>((term(x), 1)));
        assert(read_unary(t, 0) == Ok::<(Tree, int), Seq<char>>((term(x), 1)));
    }
}

/// The words of a query that asks for both `x` and `y`.
pub open spec fn both(words: Seq<Seq<char>>, x: Seq<char>, y: Seq<char>) -> bool {
    ||| words == seq![x, y]
    ||| exists|and: Seq<char>| #[trigger] keyword(and, "AND"@) && words == seq![x, and, y]
}

/// The words of a query that asks for `x` without `y`.
pub open spec fn without(words: Seq<Seq<char>>, x: Seq<char>, y: Seq<char>) -> bool {
    ||| words == seq![x, "-"@, y]
    ||| exists|not: Seq<char>| #[trigger] keyword(not, "NOT"@) && words == seq![x, not, y]
    ||| exists|and: Seq<char>| #[trigger] keyword(and, "AND"@) && words == seq![x, and, "-"@, y]
    ||| exists|and: Seq<char>, not: Seq<char>| #[trigger]
        keyword(and, "AND"@) && #[trigger] keyword(not, "NOT"@) && words == seq![x, and, not, y]
}

/// The words of a query that asks for `x` or `y`.
pub open spec fn either(words: Seq<Seq<char>>, x: Seq<char>, y: Seq<char>) -> bool {
    exists|or: Seq<char>| #[trigger] keyword(or, "OR"@) && words == seq![x, or, y]
}

proof fn lemma_reads_spelling(input: Seq<char>, words: Seq<Seq<char>>, x: Seq<char>, y: Seq<char>)
    requires
        spells(input, words),
        plain_word(x),
        plain_word(y),
    ensures
        both(words, x, y) ==> lex_from(input, 0) is Ok && read_query(lex_from(input, 0)->Ok_0)
            == Ok::<Tree, Seq<char>>(Tree::And(Box::new(term(x)), Box::new(term(y)))),
        without(words, x, y) ==> lex_from(input, 0) is Ok && read_query(lex_from(input, 0)->Ok_0)
            == Ok::<Tree, Seq<char>>(
            Tree::And(Box::new(term(x)), Box::new(Tree::Not(Box::new(term(y))))),
        ),
        either(words, x, y) ==> lex_from(input, 0) is Ok && read_query(lex_from(input, 0)->Ok_0)
            == Ok::<Tree, Seq<char>>(Tree::Or(Box::new(term(x)), Box::new(term(y)))),
{
    lemma_spelled(input, words);
    let t = words.map_values(|word: Seq<char>| stands_for(word));
    assert forall|i: int| 0 <= i < words.len() implies #[trigger] t[i] == stands_for(words[i]) by {}
    assert forall|word: Seq<char>| true implies {
        &&& #[trigger] keyword(word, "AND"@) ==> stands_for(word) == Lexeme::And
        &&& keyword(word, "OR"@) ==> stands_for(word) == Lexeme::Or
        &&& keyword(word, "NOT"@) ==> stands_for(word) == Lexeme::Not
    } by {
        lemma_operator(word);
    }
    lemma_operator(x);
    lemma_operator(y);
    if both(words, x, y) || without(words, x, y) || either(words, x, y) {
        if words.len() == 3 {
            lemma_operator(words[1]);
        }
        if words.len() == 4 {
            lemma_operator(words[1]);
            lemma_operator(words[2]);
        }
        lemma_reads_pair(t, x, y, words.len() - 2);
        reveal_with_fuel(negation_problem, 4);
        reveal_with_fuel(positive, 4);
    }
}

/// AND can be left out, its case makes no difference, and neither does how much
/// white space there is.
pub proof fn law_spelling_of_and(
    setting: Setting,
    x: Seq<char>,
    y: Seq<char>,
    a: Seq<char>,
    b: Seq<char>,
    words: Seq<Seq<char>>,
    others: Seq<Seq<char>>,
)
    requires
        plain_word(x),
        plain_word(y),
        spells(a, words),
        spells(b, others),
        both(words, x, y),
        both(others, x, y),
    ensures
        answer(setting, a) == answer(setting, b),
{
    lemma_reads_spelling(a, words, x, y);
    lemma_reads_spelling(b, others, x, y);
}

/// A dash and NOT, in whatever case, exclude alike, and an AND in front of them
/// makes no difference.
pub proof fn law_spelling_of_not(
    setting: Setting,
    x: Seq<char>,
    y: Seq<char>,
    a: Seq<char>,
    b: Seq<char>,
    words: Seq<Seq<char>>,
    others: Seq<Seq<char>>,
)
    requires
        plain_word(x),
        plain_word(y),
        spells(a, words),
        spells(b, others),
        without(words, x, y),
        without(others, x, y),
    ensures
        answer(setting, a) == answer(setting, b),
{
    lemma_reads_spelling(a, words, x, y);
    lemma_reads_spelling(b, others, x, y);
}

/// The case of OR makes no difference.
pub proof fn law_spelling_of_or(
    setting: Setting,
    x: Seq<char>,
    y: Seq<char>,
    a: Seq<char>,
    b: Seq<char>,
    words: Seq<Seq<char>>,
    others: Seq<Seq<char>>,
)
    requires
        plain_word(x),
        plain_word(y),
        spells(a, words),
        spells(b, others),
        either(words, x, y),
        either(others, x, y),
    ensures
        answer(setting, a) == answer(setting, b),
{
    lemma_reads_spelling(a, words, x, y);
    lemma_reads_spelling(b, others, x, y);
}

/// The text of two words is a spelling of them.
proof fn lemma_spells_two(
    x: Seq<char>,
    y: Seq<char>,
    lead: Seq<char>,
    gap: Seq<char>,
    trail: Seq<char>,
)
    requires
        unbroken(x),
        unbroken(y),
        blank(lead),
        blank(gap),
        blank(trail),
        gap.len() > 0,
        (lead + x + gap + y + trail).len() <= MAX_QUERY_CHARS,
    ensures
        spells(lead + x + gap + y + trail, seq![x, y]),
{
    let words = seq![x, y];
    let gaps = seq![lead, gap, trail];
    reveal_with_fuel(written, 3);
    assert(words.skip(1) =~= seq![y]);
    assert(words.skip(1).skip(1) =~= Seq::empty());
    assert(gaps.skip(1) =~= seq![gap, trail]);
    assert(gaps.skip(1).skip(1) =~= seq![trail]);
    assert(lead + x + gap + y + trail =~= written(words, gaps));
    assert(set_apart(words, gaps));
}

/// The text of two words with something between them is a spelling of the three.
proof fn lemma_spells_three(x: Seq<char>, m: Seq<char>, y: Seq<char>, gap: Seq<char>)
    requires
        unbroken(x),
        unbroken(m) || m == "-"@,
        unbroken(y),
        blank(gap),
        unbroken(m) ==> gap.len() > 0,
        (x + " "@ + m + gap + y).len() <= MAX_QUERY_CHARS,
    ensures
        spells(x + " "@ + m + gap + y, seq![x, m, y]),
{
    reveal_strlit(" ");
    let words = seq![x, m, y];
    let none = Seq::<char>::empty();
    let gaps = seq![none, " "@, gap, none];
    reveal_with_fuel(written, 4);
    assert(words.skip(1) =~= seq![m, y]);
    assert(words.skip(1).skip(1) =~= seq![y]);
    assert(words.skip(1).skip(1).skip(1) =~= Seq::empty());
    assert(gaps.skip(1) =~= seq![" "@, gap, none]);
    assert(gaps.skip(1).skip(1) =~= seq![gap, none]);
    assert(gaps.skip(1).skip(1).skip(1) =~= seq![none]);
    assert(x + " "@ + m + gap + y =~= written(words, gaps));
    assert(set_apart(words, gaps));
}

/// The text of two words with AND and something more between them is a spelling
/// of the four.
proof fn lemma_spells_four(x: Seq<char>, m: Seq<char>, y: Seq<char>, gap: Seq<char>)
    requires
        unbroken(x),
        unbroken(m) || m == "-"@,
        unbroken(y),
        blank(gap),
        unbroken(m) ==> gap.len() > 0,
        (x + " AND "@ + m + gap + y).len() <= MAX_QUERY_CHARS,
    ensures
        spells(x + " AND "@ + m + gap + y, seq![x, "AND"@, m, y]),
{
    reveal_strlit(" ");
    reveal_strlit("AND");
    reveal_strlit(" AND ");
    let and = "AND"@;
    lemma_operator(and);
    let words = seq![x, and, m, y];
    let none = Seq::<char>::empty();
    let gaps = seq![none, " "@, " "@, gap, none];
    reveal_with_fuel(written, 5);
    assert(words.skip(1) =~= seq![and, m, y]);
    assert(words.skip(1).skip(1) =~= seq![m, y]);
    assert(words.skip(1).skip(1).skip(1) =~= seq![y]);
    assert(words.skip(1).skip(1).skip(1).skip(1) =~= Seq::empty());
    assert(gaps.skip(1) =~= seq![" "@, " "@, gap, none]);
    assert(gaps.skip(1).skip(1) =~= seq![" "@, gap, none]);
    assert(gaps.skip(1).skip(1).skip(1) =~= seq![gap, none]);
    assert(gaps.skip(1).skip(1).skip(1).skip(1) =~= seq![none]);
    assert(" AND "@ =~= " "@ + and + " "@);
    assert(x + " AND "@ + m + gap + y =~= written(words, gaps));
    assert(set_apart(words, gaps));
}

/// `x y`, `x AND y` and `x and y` ask for the same, and so does white space around
/// and between the words.
pub proof fn law_both_words(setting: Setting, x: Seq<char>, y: Seq<char>)
    requires
        plain_word(x),
        plain_word(y),
        x.len() + y.len() + 6 <= MAX_QUERY_CHARS,
    ensures
        answer(setting, x + " AND "@ + y) == answer(setting, x + " "@ + y),
        answer(setting, x + " and "@ + y) == answer(setting, x + " "@ + y),
        answer(setting, "  "@ + x + "   "@ + y + " "@) == answer(setting, x + " "@ + y),
{
    reveal_strlit(" ");
    reveal_strlit("  ");
    reveal_strlit("   ");
    reveal_strlit("AND");
    reveal_strlit("and");
    reveal_strlit(" AND ");
    reveal_strlit(" and ");
    let none = Seq::<char>::empty();
    assert(lowered("and"@) =~= lowered("AND"@));
    lemma_operator("AND"@);
    lemma_operator("and"@);
    assert(none + x + " "@ + y + none =~= x + " "@ + y);
    lemma_spells_two(x, y, none, " "@, none);
    lemma_spells_two(x, y, "  "@, "   "@, " "@);
    lemma_spells_three(x, "AND"@, y, " "@);
    lemma_spells_three(x, "and"@, y, " "@);
    assert(x + " "@ + "AND"@ + " "@ + y =~= x + " AND "@ + y);
    assert(x + " "@ + "and"@ + " "@ + y =~= x + " and "@ + y);
    let plain = seq![x, y];
    let upper = seq![x, "AND"@, y];
    let small = seq![x, "and"@, y];
    assert(keyword("AND"@, "AND"@) && keyword("and"@, "AND"@));
    assert(both(upper, x, y) && both(small, x, y));
    law_spelling_of_and(setting, x, y, x + " AND "@ + y, x + " "@ + y, upper, plain);
    law_spelling_of_and(setting, x, y, x + " and "@ + y, x + " "@ + y, small, plain);
    let wide = "  "@ + x + "   "@ + y + " "@;
    law_spelling_of_and(setting, x, y, wide, x + " "@ + y, plain, plain);
}

/// A dash between two words is a spelling of an exclusion.
proof fn lemma_dash(x: Seq<char>, y: Seq<char>)
    requires
        plain_word(x),
        plain_word(y),
        x.len() + y.len() + 9 <= MAX_QUERY_CHARS,
    ensures
        spells(x + " -"@ + y, seq![x, "-"@, y]),
        without(seq![x, "-"@, y], x, y),
        spells(x + " AND -"@ + y, seq![x, "AND"@, "-"@, y]),
        without(seq![x, "AND"@, "-"@, y], x, y),
{
    reveal_strlit(" ");
    reveal_strlit("-");
    reveal_strlit(" -");
    reveal_strlit(" AND ");
    reveal_strlit(" AND -");
    let none = Seq::<char>::empty();
    lemma_operator("-"@);
    lemma_spells_three(x, "-"@, y, none);
    assert(x + " "@ + "-"@ + none + y =~= x + " -"@ + y);
    lemma_spells_four(x, "-"@, y, none);
    assert(x + " AND "@ + "-"@ + none + y =~= x + " AND -"@ + y);
    assert(keyword("AND"@, "AND"@));
}

/// NOT between two words is a spelling of an exclusion, in either case.
proof fn lemma_not(x: Seq<char>, y: Seq<char>)
    requires
        plain_word(x),
        plain_word(y),
        x.len() + y.len() + 9 <= MAX_QUERY_CHARS,
    ensures
        spells(x + " NOT "@ + y, seq![x, "NOT"@, y]),
        without(seq![x, "NOT"@, y], x, y),
        spells(x + " not "@ + y, seq![x, "not"@, y]),
        without(seq![x, "not"@, y], x, y),
{
    reveal_strlit(" ");
    reveal_strlit("NOT");
    reveal_strlit("not");
    reveal_strlit(" NOT ");
    reveal_strlit(" not ");
    assert(lowered("not"@) =~= lowered("NOT"@));
    lemma_operator("NOT"@);
    lemma_operator("not"@);
    lemma_spells_three(x, "NOT"@, y, " "@);
    assert(x + " "@ + "NOT"@ + " "@ + y =~= x + " NOT "@ + y);
    lemma_spells_three(x, "not"@, y, " "@);
    assert(x + " "@ + "not"@ + " "@ + y =~= x + " not "@ + y);
    assert(keyword("NOT"@, "NOT"@) && keyword("not"@, "NOT"@));
}

/// AND NOT between two words is a spelling of an exclusion.
proof fn lemma_and_not(x: Seq<char>, y: Seq<char>)
    requires
        plain_word(x),
        plain_word(y),
        x.len() + y.len() + 9 <= MAX_QUERY_CHARS,
    ensures
        spells(x + " AND NOT "@ + y, seq![x, "AND"@, "NOT"@, y]),
        without(seq![x, "AND"@, "NOT"@, y], x, y),
{
    reveal_strlit(" ");
    reveal_strlit("NOT");
    reveal_strlit(" AND ");
    reveal_strlit(" AND NOT ");
    lemma_operator("NOT"@);
    lemma_spells_four(x, "NOT"@, y, " "@);
    assert(x + " AND "@ + "NOT"@ + " "@ + y =~= x + " AND NOT "@ + y);
    assert(keyword("NOT"@, "NOT"@) && keyword("AND"@, "AND"@));
}

/// `x -y`, `x NOT y`, `x not y`, `x AND NOT y` and `x AND -y` ask for the same.
pub proof fn law_first_word_without_the_second(setting: Setting, x: Seq<char>, y: Seq<char>)
    requires
        plain_word(x),
        plain_word(y),
        x.len() + y.len() + 9 <= MAX_QUERY_CHARS,
    ensures
        answer(setting, x + " NOT "@ + y) == answer(setting, x + " -"@ + y),
        answer(setting, x + " not "@ + y) == answer(setting, x + " -"@ + y),
        answer(setting, x + " AND NOT "@ + y) == answer(setting, x + " -"@ + y),
        answer(setting, x + " AND -"@ + y) == answer(setting, x + " -"@ + y),
{
    let dash = x + " -"@ + y;
    let plain = seq![x, "-"@, y];
    let upper = seq![x, "NOT"@, y];
    let small = seq![x, "not"@, y];
    let long = seq![x, "AND"@, "NOT"@, y];
    let mixed = seq![x, "AND"@, "-"@, y];
    lemma_dash(x, y);
    lemma_not(x, y);
    lemma_and_not(x, y);
    law_spelling_of_not(setting, x, y, x + " NOT "@ + y, dash, upper, plain);
    law_spelling_of_not(setting, x, y, x + " not "@ + y, dash, small, plain);
    law_spelling_of_not(setting, x, y, x + " AND NOT "@ + y, dash, long, plain);
    law_spelling_of_not(setting, x, y, x + " AND -"@ + y, dash, mixed, plain);
}

/// `x OR y` and `x or y` ask for the same.
pub proof fn law_either_word(setting: Setting, x: Seq<char>, y: Seq<char>)
    requires
        plain_word(x),
        plain_word(y),
        x.len() + y.len() + 4 <= MAX_QUERY_CHARS,
    ensures
        answer(setting, x + " or "@ + y) == answer(setting, x + " OR "@ + y),
{
    reveal_strlit(" ");
    reveal_strlit("OR");
    reveal_strlit("or");
    reveal_strlit(" OR ");
    reveal_strlit(" or ");
    assert(lowered("or"@) =~= lowered("OR"@));
    lemma_operator("OR"@);
    lemma_operator("or"@);
    assert(x + " "@ + "OR"@ + " "@ + y =~= x + " OR "@ + y);
    assert(x + " "@ + "or"@ + " "@ + y =~= x + " or "@ + y);
    lemma_spells_three(x, "OR"@, y, " "@);
    lemma_spells_three(x, "or"@, y, " "@);
    let upper = seq![x, "OR"@, y];
    let small = seq![x, "or"@, y];
    assert(keyword("OR"@, "OR"@) && keyword("or"@, "OR"@));
    assert(either(upper, x, y) && either(small, x, y));
    law_spelling_of_or(setting, x, y, x + " or "@ + y, x + " OR "@ + y, small, upper);
}

} // verus!
