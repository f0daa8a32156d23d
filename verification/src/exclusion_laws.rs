//! What an exclusion behind a query changes.

use vstd::prelude::*;

use crate::literal_laws::{law_literals_in_order_of_appearance, mentioned};
use crate::query::{
    answer, lex_from, next_end, next_mark, prefixed, read_and, read_and_rest, read_or,
    read_or_rest, read_primary, read_unary, starts_condition, symbol, word_end, word_lexeme, Field,
    Lexeme, Setting, Tree,
};
use crate::spelling_laws::{lemma_operator, lemma_word, plain_word, term};
use crate::text::space;

verus! {

/// A query with a word behind it that is excluded.
pub open spec fn with_exclusion(input: Seq<char>, word: Seq<char>) -> Seq<char> {
    input + " -"@ + word
}

proof fn lemma_mark_stays(s: Seq<char>, more: Seq<char>, i: int, mark: char)
    requires
        0 <= i <= s.len(),
        next_mark(s, i, mark) < s.len(),
    ensures
        next_mark(s + more, i, mark) == next_mark(s, i, mark),
        i <= next_mark(s, i, mark),
    decreases s.len() - i,
{
    if i < s.len() {
        assert((s + more)[i] == s[i]);
        if s[i] != mark {
            lemma_mark_stays(s, more, i + 1, mark);
        }
    }
}

proof fn lemma_end_stays(s: Seq<char>, more: Seq<char>, i: int)
    requires
        0 <= i <= s.len(),
        more.len() > 0,
        word_end(more[0]),
    ensures
        next_end(s + more, i) == next_end(s, i),
        i <= next_end(s, i) <= s.len(),
        i < s.len() && !word_end(s[i]) ==> i < next_end(s, i),
    decreases s.len() - i,
{
    if i < s.len() {
        assert((s + more)[i] == s[i]);
        if !word_end(s[i]) {
            lemma_end_stays(s, more, i + 1);
        }
    } else {
        assert((s + more)[i] == more[0]);
    }
}

/// The tokens of a text stay as they are where more text follows behind a blank.
proof fn lemma_tokens_stay(s: Seq<char>, more: Seq<char>, i: int)
    requires
        0 <= i <= s.len(),
        more.len() > 0,
        space(more[0]),
        lex_from(s, i) is Ok,
    ensures
        lex_from(s + more, i) == prefixed(
            lex_from(s, i)->Ok_0,
            lex_from(s + more, s.len() as int),
        ),
    decreases s.len() - i,
{
    let all = s + more;
    let rest = lex_from(all, s.len() as int);
    if i == s.len() {
        if let Ok(tail) = rest {
            assert(Seq::<Lexeme>::empty() + tail =~= tail);
        }
    } else {
        assert(all[i] == s[i]);
        if space(s[i]) {
            lemma_tokens_stay(s, more, i + 1);
        } else if symbol(s[i]) is Some {
            lemma_tokens_stay(s, more, i + 1);
            lemma_prefixed_twice(seq![symbol(s[i])->0], lex_from(s, i + 1)->Ok_0, rest);
        } else if s[i] == '\'' || s[i] == '"' {
            lemma_mark_stays(s, more, i + 1, s[i]);
            let end = next_mark(s, i + 1, s[i]);
            lemma_tokens_stay(s, more, end + 1);
            assert(all.subrange(i + 1, end) =~= s.subrange(i + 1, end));
            lemma_prefixed_twice(
                seq![Lexeme::Phrase(s.subrange(i + 1, end))],
                lex_from(s, end + 1)->Ok_0,
                rest,
            );
        } else {
            lemma_end_stays(s, more, i);
            let end = next_end(s, i);
            lemma_tokens_stay(s, more, end);
            assert(all.subrange(i, end) =~= s.subrange(i, end));
            lemma_prefixed_twice(
                seq![word_lexeme(s.subrange(i, end))],
                lex_from(s, end)->Ok_0,
                rest,
            );
        }
    }
}

proof fn lemma_prefixed_twice(
    a: Seq<Lexeme>,
    b: Seq<Lexeme>,
    rest: Result<Seq<Lexeme>, Seq<char>>,
)
    ensures
        prefixed(a, prefixed(b, rest)) == prefixed(a + b, rest),
{
    if let Ok(tail) = rest {
        assert(a + (b + tail) =~= (a + b) + tail);
    }
}

proof fn lemma_excluded_tokens(input: Seq<char>, word: Seq<char>)
    requires
        plain_word(word),
        lex_from(input, 0) is Ok,
    ensures
        lex_from(with_exclusion(input, word), 0) == Ok::<Seq<Lexeme>, Seq<char>>(
            lex_from(input, 0)->Ok_0 + seq![Lexeme::Minus, word_lexeme(word)],
        ),
{
    reveal_strlit(" -");
    let all = with_exclusion(input, word);
    let more = " -"@ + word;
    let n = input.len() as int;
    assert(all =~= input + more);
    assert(space(more[0]));
    lemma_tokens_stay(input, more, 0);
    assert(all[n] == ' ');
    assert(all[n + 1] == '-');
    assert(all.subrange(n + 2, n + 2 + word.len()) =~= word);
    lemma_word(all, n + 2, word);
    assert(lex_from(all, all.len() as int) == Ok::<Seq<Lexeme>, Seq<char>>(Seq::empty()));
    assert(seq![word_lexeme(word)] + Seq::<Lexeme>::empty() =~= seq![word_lexeme(word)]);
    assert(seq![Lexeme::Minus] + seq![word_lexeme(word)] =~= seq![
        Lexeme::Minus,
        word_lexeme(word),
    ]);
    assert(lex_from(all, n + 1) == prefixed(seq![Lexeme::Minus], lex_from(all, n + 2)));
    assert(lex_from(all, n) == lex_from(all, n + 1));
}

/// A word that is excluded, as tokens.
spec fn excluded(t: Seq<Lexeme>, word: Seq<char>) -> bool {
    &&& t.len() == 2
    &&& t[0] == Lexeme::Minus
    &&& t[1] == Lexeme::Word(word) || t[1] == Lexeme::Number(word)
}

/// The condition with the exclusion behind it.
spec fn narrowed(tree: Tree, word: Seq<char>) -> Tree {
    Tree::And(Box::new(tree), Box::new(Tree::Not(Box::new(term(word)))))
}

proof fn lemma_primary_stays(
    t: Seq<Lexeme>,
    more: Seq<Lexeme>,
    word: Seq<char>,
    setting: Setting,
    i: int,
    field: Option<Field>,
)
    requires
        excluded(more, word),
        0 <= i <= t.len(),
        read_primary(t, i, field) is Ok,
    ensures
        i < read_primary(t, i, field)->Ok_0.1 <= t.len(),
        read_primary(t + more, i, field) == read_primary(t, i, field),
    decreases t.len() - i, 1int,
{
    let all = t + more;
    assert(all[i] == t[i]);
    if i + 1 < t.len() {
        assert(all[i + 1] == t[i + 1]);
    } else {
        assert(all[i + 1] == more[0]);
    }
    if t[i] is Word && i + 1 < t.len() && t[i + 1] == Lexeme::Colon {
        let name = t[i]->Word_0;
        if name == "title"@ {
            lemma_primary_stays(t, more, word, setting, i + 2, Some(Field::Title));
        } else {
            lemma_primary_stays(t, more, word, setting, i + 2, Some(Field::Content));
        }
    } else if t[i] == Lexeme::LParen {
        lemma_or_grows(t, more, word, setting, i + 1);
        let j = read_or(t, i + 1)->Ok_0.1;
        assert(all[j] == t[j]);
    }
}

proof fn lemma_unary_stays(
    t: Seq<Lexeme>,
    more: Seq<Lexeme>,
    word: Seq<char>,
    setting: Setting,
    i: int,
)
    requires
        excluded(more, word),
        0 <= i <= t.len(),
        read_unary(t, i) is Ok,
    ensures
        i < read_unary(t, i)->Ok_0.1 <= t.len(),
        read_unary(t + more, i) == read_unary(t, i),
    decreases t.len() - i, 2int,
{
    if i < t.len() && (t[i] == Lexeme::Minus || t[i] == Lexeme::Not) {
        assert((t + more)[i] == t[i]);
        lemma_unary_stays(t, more, word, setting, i + 1);
    } else {
        lemma_primary_stays(t, more, word, setting, i, None);
        assert((t + more)[i] == t[i]);
    }
}

proof fn lemma_exclusion_read(t: Seq<Lexeme>, more: Seq<Lexeme>, word: Seq<char>, left: Tree)
    requires
        excluded(more, word),
    ensures
        read_and_rest(t + more, left, t.len() as int) == Ok::<(Tree, int), Seq<char>>(
            (narrowed(left, word), t.len() as int + 2),
        ),
{
    let all = t + more;
    let n = t.len() as int;
    assert(all[n] == more[0] && all[n + 1] == more[1]);
    assert(read_primary(all, n + 1, None) == Ok::<(Tree, int), Seq<char>>((term(word), n + 2)));
    assert(read_unary(all, n + 1) == Ok::<(Tree, int), Seq<char>>((term(word), n + 2)));
    assert(read_unary(all, n) == Ok::<(Tree, int), Seq<char>>(
        (Tree::Not(Box::new(term(word))), n + 2),
    ));
    assert(read_and_rest(all, narrowed(left, word), n + 2) == Ok::<(Tree, int), Seq<char>>(
        (narrowed(left, word), n + 2),
    ));
}

proof fn lemma_and_rest_grows(
    t: Seq<Lexeme>,
    more: Seq<Lexeme>,
    word: Seq<char>,
    setting: Setting,
    left: Tree,
    i: int,
)
    requires
        excluded(more, word),
        0 <= i <= t.len(),
        read_and_rest(t, left, i) is Ok,
    ensures
        ({
            let (tree, j) = read_and_rest(t, left, i)->Ok_0;
            &&& i <= j <= t.len()
            &&& j < t.len() ==> read_and_rest(t + more, left, i) == read_and_rest(t, left, i)
            &&& j == t.len() ==> read_and_rest(t + more, left, i) == Ok::<(Tree, int), Seq<char>>(
                (narrowed(tree, word), t.len() as int + 2),
            )
        }),
    decreases t.len() - i, 3int,
{
    let all = t + more;
    if i == t.len() {
        lemma_exclusion_read(t, more, word, left);
    } else {
        assert(all[i] == t[i]);
        if t[i] == Lexeme::And || t[i] == Lexeme::Not {
            if read_unary(t, i + 1) is Ok {
                lemma_unary_stays(t, more, word, setting, i + 1);
                let (child, j) = read_unary(t, i + 1)->Ok_0;
                let right = if t[i] == Lexeme::Not {
                    Tree::Not(Box::new(child))
                } else {
                    child
                };
                let next = Tree::And(Box::new(left), Box::new(right));
                lemma_and_rest_grows(t, more, word, setting, next, j);
            }
        } else if starts_condition(t, i) {
            if read_unary(t, i) is Ok {
                lemma_unary_stays(t, more, word, setting, i);
                let (right, j) = read_unary(t, i)->Ok_0;
                let next = Tree::And(Box::new(left), Box::new(right));
                lemma_and_rest_grows(t, more, word, setting, next, j);
            }
        }
    }
}

proof fn lemma_and_grows(
    t: Seq<Lexeme>,
    more: Seq<Lexeme>,
    word: Seq<char>,
    setting: Setting,
    i: int,
)
    requires
        excluded(more, word),
        0 <= i <= t.len(),
        read_and(t, i) is Ok,
    ensures
        ({
            let (tree, j) = read_and(t, i)->Ok_0;
            &&& i < j <= t.len()
            &&& j < t.len() ==> read_and(t + more, i) == read_and(t, i)
            &&& j == t.len() ==> read_and(t + more, i) == Ok::<(Tree, int), Seq<char>>(
                (narrowed(tree, word), t.len() as int + 2),
            )
        }),
    decreases t.len() - i, 4int,
{
    if read_unary(t, i) is Ok {
        lemma_unary_stays(t, more, word, setting, i);
        let (first, j) = read_unary(t, i)->Ok_0;
        lemma_and_rest_grows(t, more, word, setting, first, j);
    }
}

/// The longer reading takes everything and mentions the same.
spec fn mentions_same(
    setting: Setting,
    tree: Tree,
    longer: Result<(Tree, int), Seq<char>>,
    end: int,
) -> bool {
    &&& longer is Ok
    &&& longer->Ok_0.1 == end
    &&& mentioned(setting, longer->Ok_0.0) == mentioned(setting, tree)
}

proof fn lemma_narrowed_mentions(setting: Setting, tree: Tree, word: Seq<char>)
    ensures
        mentioned(setting, narrowed(tree, word)) == mentioned(setting, tree),
{
    let exclusion = Tree::Not(Box::new(term(word)));
    assert(mentioned(setting, exclusion) =~= Seq::empty());
    assert(mentioned(setting, tree) + mentioned(setting, exclusion) =~= mentioned(setting, tree));
}

proof fn lemma_or_rest_grows(
    t: Seq<Lexeme>,
    more: Seq<Lexeme>,
    word: Seq<char>,
    setting: Setting,
    left: Tree,
    i: int,
)
    requires
        excluded(more, word),
        0 <= i < t.len(),
        read_or_rest(t, left, i) is Ok,
    ensures
        ({
            let (tree, j) = read_or_rest(t, left, i)->Ok_0;
            &&& i <= j <= t.len()
            &&& j < t.len() ==> read_or_rest(t + more, left, i) == read_or_rest(t, left, i)
            &&& j == t.len() ==> mentions_same(
                setting,
                tree,
                read_or_rest(t + more, left, i),
                t.len() as int + 2,
            )
        }),
    decreases t.len() - i, 5int,
{
    let all = t + more;
    assert(all[i] == t[i]);
    if t[i] == Lexeme::Or {
        if read_and(t, i + 1) is Ok {
            lemma_and_grows(t, more, word, setting, i + 1);
            let (next, j) = read_and(t, i + 1)->Ok_0;
            let both = Tree::Or(Box::new(left), Box::new(next));
            if j < t.len() {
                lemma_or_rest_grows(t, more, word, setting, both, j);
            } else {
                lemma_narrowed_mentions(setting, next, word);
                let longer = Tree::Or(Box::new(left), Box::new(narrowed(next, word)));
                assert(read_or_rest(t, both, j) == Ok::<(Tree, int), Seq<char>>((both, j)));
                assert(read_or_rest(all, longer, j + 2) == Ok::<(Tree, int), Seq<char>>(
                    (longer, j + 2),
                ));
            }
        }
    }
}

proof fn lemma_or_grows(
    t: Seq<Lexeme>,
    more: Seq<Lexeme>,
    word: Seq<char>,
    setting: Setting,
    i: int,
)
    requires
        excluded(more, word),
        0 <= i <= t.len(),
        read_or(t, i) is Ok,
    ensures
        ({
            let (tree, j) = read_or(t, i)->Ok_0;
            &&& i < j <= t.len()
            &&& j < t.len() ==> read_or(t + more, i) == read_or(t, i)
            &&& j == t.len() ==> mentions_same(
                setting,
                tree,
                read_or(t + more, i),
                t.len() as int + 2,
            )
        }),
    decreases t.len() - i, 6int,
{
    if read_and(t, i) is Ok {
        lemma_and_grows(t, more, word, setting, i);
        let (first, j) = read_and(t, i)->Ok_0;
        if j < t.len() {
            lemma_or_rest_grows(t, more, word, setting, first, j);
        } else {
            lemma_narrowed_mentions(setting, first, word);
            let longer = narrowed(first, word);
            assert(read_or_rest(t, first, j) == Ok::<(Tree, int), Seq<char>>((first, j)));
            assert(read_or_rest(t + more, longer, j + 2) == Ok::<(Tree, int), Seq<char>>(
                (longer, j + 2),
            ));
        }
    }
}

/// An exclusion behind a query never changes its literals.
pub proof fn law_exclusions_add_no_literals(setting: Setting, input: Seq<char>, word: Seq<char>)
    requires
        plain_word(word),
        answer(setting, input) is Ok,
        answer(setting, with_exclusion(input, word)) is Ok,
    ensures
        answer(setting, with_exclusion(input, word))->Ok_0.1 == answer(setting, input)->Ok_0.1,
{
    let t = lex_from(input, 0)->Ok_0;
    let more = seq![Lexeme::Minus, word_lexeme(word)];
    lemma_excluded_tokens(input, word);
    lemma_operator(word);
    reveal_strlit("-");
    if word == "-"@ {
        assert(word_end(word[0]));
    }
    lemma_or_grows(t, more, word, setting, 0);
    law_literals_in_order_of_appearance(setting, input);
    law_literals_in_order_of_appearance(setting, with_exclusion(input, word));
}

} // verus!
