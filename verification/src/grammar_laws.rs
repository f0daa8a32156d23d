//! How every query is read: a condition that is written down in tokens is read back
//! as it was.

use vstd::prelude::*;

use crate::query::{
    fielded, names_field, negation_problem, positive, read_and, read_and_rest, read_or,
    read_or_rest, read_primary, read_query, read_unary, starts_condition, Field, Lexeme, Tree,
};

verus! {

/// The name of a field in a query.
pub open spec fn field_word(field: Field) -> Seq<char> {
    match field {
        Field::Title => seq!['t', 'i', 't', 'l', 'e'],
        Field::Content => seq!['c', 'o', 'n', 't', 'e', 'n', 't'],
    }
}

/// Digits alone.
pub open spec fn all_numerals(text: Seq<char>) -> bool {
    forall|i: int| 0 <= i < text.len() ==> '0' <= #[trigger] text[i] && text[i] <= '9'
}

/// A word as a token.
pub open spec fn word_of(text: Seq<char>) -> Lexeme {
    if all_numerals(text) {
        Lexeme::Number(text)
    } else {
        Lexeme::Word(text)
    }
}

/// A token, with the field that it is looked for in.
pub open spec fn with_field(field: Option<Field>, token: Lexeme) -> Seq<Lexeme> {
    match field {
        None => seq![token],
        Some(field) => seq![Lexeme::Word(field_word(field)), Lexeme::Colon, token],
    }
}

/// How a query is written.
pub struct Style {
    /// AND is written out.
    pub and: bool,
    /// Exclusions are written as NOT, not as a dash.
    pub not: bool,
    /// Every condition that is made of others stands in parentheses, also where
    /// these are not needed.
    pub full: bool,
}

/// A condition as tokens. OR binds least, then AND, then exclusion; what binds less
/// than its place asks for stands in parentheses. The places are: 0 for a whole
/// query, 1 for a side of OR, 2 for a side of AND, 3 for what is named.
pub open spec fn shown(tree: Tree, place: int, style: Style) -> Seq<Lexeme>
    decreases tree,
{
    let (own, tokens) = match tree {
        Tree::Or(left, right) => (
            0int,
            shown(*left, 0, style) + seq![Lexeme::Or] + shown(*right, 1, style),
        ),
        Tree::And(left, right) => (
            1int,
            shown(*left, 1, style) + (if style.and {
                seq![Lexeme::And]
            } else {
                Seq::empty()
            }) + shown(*right, 2, style),
        ),
        Tree::Not(child) => (
            2int,
            seq![
                if style.not {
                    Lexeme::Not
                } else {
                    Lexeme::Minus
                },
            ] + shown(*child, 2, style),
        ),
        Tree::Term { text, field } => (3int, with_field(field, word_of(text))),
        Tree::Phrase { text, field } => (3int, with_field(field, Lexeme::Phrase(text))),
    };
    if own >= place && !(style.full && own < 3 && place > 0) {
        tokens
    } else {
        seq![Lexeme::LParen] + tokens + seq![Lexeme::RParen]
    }
}

/// The tokens stand at a place of a list.
spec fn at(t: Seq<Lexeme>, i: int, part: Seq<Lexeme>) -> bool {
    0 <= i && i + part.len() <= t.len() && t.subrange(i, i + part.len()) == part
}

proof fn lemma_at(t: Seq<Lexeme>, i: int, a: Seq<Lexeme>, b: Seq<Lexeme>)
    requires
        at(t, i, a + b),
    ensures
        at(t, i, a),
        at(t, i + a.len(), b),
{
    let all = t.subrange(i, i + (a + b).len());
    assert(t.subrange(i, i + a.len()) =~= all.subrange(0, a.len() as int));
    assert(all.subrange(0, a.len() as int) =~= a);
    assert(t.subrange(i + a.len(), i + a.len() + b.len()) =~= all.subrange(
        a.len() as int,
        (a.len() + b.len()) as int,
    ));
    assert(all.subrange(a.len() as int, (a.len() + b.len()) as int) =~= b);
}

proof fn lemma_at_one(t: Seq<Lexeme>, i: int, token: Lexeme)
    requires
        at(t, i, seq![token]),
    ensures
        0 <= i < t.len(),
        t[i] == token,
{
    assert(t.subrange(i, i + 1)[0] == token);
}

/// Nothing that follows belongs to conditions joined by AND.
spec fn ends_and(t: Seq<Lexeme>, i: int) -> bool {
    i >= t.len() || t[i] == Lexeme::Or || t[i] == Lexeme::RParen
}

proof fn lemma_leaf(
    t: Seq<Lexeme>,
    i: int,
    field: Option<Field>,
    token: Lexeme,
)
    requires
        at(t, i, with_field(field, token)),
        token is Word || token is Number || token is Phrase,
        ({
            let j = i + with_field(field, token).len();
            j >= t.len() || t[j] != Lexeme::Colon
        }),
    ensures
        ({
            let j = i + with_field(field, token).len();
            read_unary(t, i) == Ok::<(Tree, int), Seq<char>>(
                (
                    match token {
                        Lexeme::Word(text) => Tree::Term { text, field },
                        Lexeme::Number(text) => Tree::Term { text, field },
                        Lexeme::Phrase(text) => Tree::Phrase { text, field },
                        _ => arbitrary(),
                    },
                    j,
                ),
            )
        }),
{
    reveal_strlit("title");
    reveal_strlit("content");
    match field {
        None => {
            lemma_at_one(t, i, token);
        },
        Some(f) => {
            let name = Lexeme::Word(field_word(f));
            assert(with_field(field, token) =~= seq![name] + (seq![Lexeme::Colon] + seq![token]));
            lemma_at(t, i, seq![name], seq![Lexeme::Colon] + seq![token]);
            lemma_at(t, i + 1, seq![Lexeme::Colon], seq![token]);
            lemma_at_one(t, i, name);
            lemma_at_one(t, i + 1, Lexeme::Colon);
            lemma_at_one(t, i + 2, token);
            assert(field_word(Field::Title) =~= "title"@);
            assert(field_word(Field::Content) =~= "content"@);
            assert("title"@.len() != "content"@.len());
            assert(read_primary(t, i, None) == read_primary(t, i + 2, field));
        },
    }
}

/// What is read at a place of these tokens: the condition, with nothing left of it.
spec fn reads_at(t: Seq<Lexeme>, i: int, tree: Tree, place: int, n: int) -> bool {
    if place >= 2 {
        read_unary(t, i) == Ok::<(Tree, int), Seq<char>>((tree, i + n))
    } else if place == 1 {
        read_and(t, i) == read_and_rest(t, tree, i + n)
    } else {
        read_or(t, i) == read_or_rest(t, tree, i + n)
    }
}

/// What may follow at a place.
spec fn ends_at(t: Seq<Lexeme>, i: int, place: int) -> bool {
    if place >= 1 {
        i >= t.len() || t[i] != Lexeme::Colon
    } else {
        ends_and(t, i)
    }
}

proof fn lemma_shown_some(tree: Tree, place: int, style: Style)
    ensures
        shown(tree, place, style).len() > 0,
    decreases tree,
{
    match tree {
        Tree::Or(left, right) => {
            lemma_shown_some(*left, 0, style);
        },
        Tree::And(left, right) => {
            lemma_shown_some(*left, 1, style);
        },
        _ => {},
    }
}

/// The first token of a condition can start one.
proof fn lemma_shown_start(tree: Tree, place: int, style: Style)
    ensures
        shown(tree, place, style).len() > 0,
        ({
            let first = shown(tree, place, style)[0];
            ||| first is Word
            ||| first is Number
            ||| first is Phrase
            ||| first == Lexeme::LParen
            ||| first == Lexeme::Minus && !style.not && tree is Not
            ||| first == Lexeme::Not && style.not && tree is Not
            ||| (first == Lexeme::Minus || first == Lexeme::Not) && place < 2 && !(tree is Not)
        }),
        ({
            let first = shown(tree, place, style)[0];
            first == Lexeme::Not ==> style.not
        }),
    decreases tree,
{
    match tree {
        Tree::Or(left, right) => {
            lemma_shown_start(*left, 0, style);
        },
        Tree::And(left, right) => {
            lemma_shown_start(*left, 1, style);
        },
        _ => {},
    }
}

/// From a reading at one place to that at a place that binds less.
proof fn lemma_looser(t: Seq<Lexeme>, i: int, tree: Tree, own: int, place: int, n: int)
    requires
        0 <= place <= own,
        0 < n,
        0 <= i,
        i + n <= t.len(),
        reads_at(t, i, tree, own, n),
        place == 0 && own >= 1 ==> ends_and(t, i + n),
    ensures
        reads_at(t, i, tree, place, n),
{
    if own >= 2 && place < 2 {
        assert(read_and(t, i) == read_and_rest(t, tree, i + n));
    }
    if own >= 1 && place == 0 {
        assert(read_and_rest(t, tree, i + n) == Ok::<(Tree, int), Seq<char>>((tree, i + n)));
        assert(read_or(t, i) == read_or_rest(t, tree, i + n));
    }
}

proof fn lemma_group(t: Seq<Lexeme>, i: int, tree: Tree, tokens: Seq<Lexeme>)
    requires
        at(t, i, seq![Lexeme::LParen] + tokens + seq![Lexeme::RParen]),
        tokens.len() > 0,
        reads_at(t, i + 1, tree, 0, tokens.len() as int),
    ensures
        read_unary(t, i) == Ok::<(Tree, int), Seq<char>>((tree, i + tokens.len() + 2)),
        read_or(t, i + 1) == Ok::<(Tree, int), Seq<char>>((tree, i + 1 + tokens.len())),
{
    let n = tokens.len() as int;
    assert(seq![Lexeme::LParen] + tokens + seq![Lexeme::RParen] =~= seq![Lexeme::LParen] + (tokens
        + seq![Lexeme::RParen]));
    lemma_at(t, i, seq![Lexeme::LParen], tokens + seq![Lexeme::RParen]);
    lemma_at_one(t, i, Lexeme::LParen);
    lemma_at(t, i + 1, tokens, seq![Lexeme::RParen]);
    lemma_at_one(t, i + 1 + n, Lexeme::RParen);
    assert(read_or_rest(t, tree, i + 1 + n) == Ok::<(Tree, int), Seq<char>>((tree, i + 1 + n)));
    assert(read_primary(t, i, None) == Ok::<(Tree, int), Seq<char>>((tree, i + n + 2)));
}

/// The tokens of a condition, without parentheses around it, and their place.
spec fn bare(tree: Tree, style: Style) -> (int, Seq<Lexeme>) {
    match tree {
        Tree::Or(left, right) => (
            0int,
            shown(*left, 0, style) + seq![Lexeme::Or] + shown(*right, 1, style),
        ),
        Tree::And(left, right) => (
            1int,
            shown(*left, 1, style) + (if style.and {
                seq![Lexeme::And]
            } else {
                Seq::empty()
            }) + shown(*right, 2, style),
        ),
        Tree::Not(child) => (
            2int,
            seq![
                if style.not {
                    Lexeme::Not
                } else {
                    Lexeme::Minus
                },
            ] + shown(*child, 2, style),
        ),
        Tree::Term { text, field } => (3int, with_field(field, word_of(text))),
        Tree::Phrase { text, field } => (3int, with_field(field, Lexeme::Phrase(text))),
    }
}

proof fn lemma_bare(t: Seq<Lexeme>, i: int, tree: Tree, style: Style)
    requires
        at(t, i, bare(tree, style).1),
        ends_at(t, i + bare(tree, style).1.len(), bare(tree, style).0),
    ensures
        reads_at(t, i, tree, bare(tree, style).0, bare(tree, style).1.len() as int),
    decreases tree, 0int,
{
    let (own, tokens) = bare(tree, style);
    match tree {
        Tree::Or(left, right) => {
            let a = shown(*left, 0, style);
            let b = shown(*right, 1, style);
            assert(tokens =~= a + (seq![Lexeme::Or] + b));
            lemma_at(t, i, a, seq![Lexeme::Or] + b);
            let j = i + a.len();
            lemma_at(t, j, seq![Lexeme::Or], b);
            lemma_at_one(t, j, Lexeme::Or);
            lemma_shown_some(*left, 0, style);
            lemma_shown_some(*right, 1, style);
            lemma_shown(t, i, *left, 0, style);
            lemma_shown(t, j + 1, *right, 1, style);
            let end = j + 1 + b.len();
            assert(i + tokens.len() == end);
            assert(read_and_rest(t, *right, end) == Ok::<(Tree, int), Seq<char>>((*right, end)));
            assert(read_or_rest(t, *left, j) == read_or_rest(t, tree, end));
        },
        Tree::And(left, right) => {
            let a = shown(*left, 1, style);
            let b = shown(*right, 2, style);
            let j = i + a.len();
            lemma_shown_start(*left, 1, style);
            lemma_shown_start(*right, 2, style);
            if style.and {
                assert(tokens =~= a + (seq![Lexeme::And] + b));
                lemma_at(t, i, a, seq![Lexeme::And] + b);
                lemma_at(t, j, seq![Lexeme::And], b);
                lemma_at_one(t, j, Lexeme::And);
                lemma_shown(t, i, *left, 1, style);
                lemma_shown(t, j + 1, *right, 2, style);
                let end = j + 1 + b.len();
                assert(read_and_rest(t, *left, j) == read_and_rest(t, tree, end));
            } else {
                assert(tokens =~= a + b);
                lemma_at(t, i, a, b);
                assert(t[j] == b[0]) by {
                    assert(t.subrange(j, j + b.len())[0] == t[j]);
                }
                lemma_shown(t, i, *left, 1, style);
                lemma_shown(t, j, *right, 2, style);
                let end = j + b.len();
                if t[j] == Lexeme::Not {
                    // The exclusion is taken apart: first NOT, then what it excludes.
                    let other = *right;
                    assert(other is Not);
                    let child = *other->Not_0;
                    assert(read_unary(t, j) == Ok::<(Tree, int), Seq<char>>((other, end)));
                    assert(read_unary(t, j + 1) == Ok::<(Tree, int), Seq<char>>((child, end)));
                    lemma_shown_some(child, 2, style);
                    assert(j + 1 < end);
                    assert(read_and_rest(t, *left, j) == read_and_rest(t, tree, end));
                } else {
                    assert(starts_condition(t, j));
                    assert(read_and_rest(t, *left, j) == read_and_rest(t, tree, end));
                }
            }
        },
        Tree::Not(child) => {
            let mark = if style.not {
                Lexeme::Not
            } else {
                Lexeme::Minus
            };
            let b = shown(*child, 2, style);
            lemma_at(t, i, seq![mark], b);
            lemma_at_one(t, i, mark);
            lemma_shown(t, i + 1, *child, 2, style);
            lemma_shown_some(*child, 2, style);
        },
        Tree::Term { text, field } => {
            lemma_leaf(t, i, field, word_of(text));
        },
        Tree::Phrase { text, field } => {
            lemma_leaf(t, i, field, Lexeme::Phrase(text));
        },
    }
}

proof fn lemma_shown(t: Seq<Lexeme>, i: int, tree: Tree, place: int, style: Style)
    requires
        at(t, i, shown(tree, place, style)),
        ends_at(t, i + shown(tree, place, style).len(), place),
        0 <= place <= 3,
    ensures
        reads_at(t, i, tree, place, shown(tree, place, style).len() as int),
    decreases tree, 1int,
{
    let (own, tokens) = bare(tree, style);
    let all = shown(tree, place, style);
    lemma_shown_some(tree, place, style);
    if own >= place && !(style.full && own < 3 && place > 0) {
        assert(all == tokens);
        assert(ends_at(t, i + tokens.len(), own));
        lemma_bare(t, i, tree, style);
        lemma_looser(t, i, tree, own, place, tokens.len() as int);
    } else {
        assert(all == seq![Lexeme::LParen] + tokens + seq![Lexeme::RParen]);
        lemma_shown_some(tree, 0, style);
        assert(shown(tree, 0, style) == tokens);
        assert(all =~= seq![Lexeme::LParen] + (tokens + seq![Lexeme::RParen]));
        lemma_at(t, i, seq![Lexeme::LParen], tokens + seq![Lexeme::RParen]);
        lemma_at(t, i + 1, tokens, seq![Lexeme::RParen]);
        lemma_at_one(t, i + 1 + tokens.len(), Lexeme::RParen);
        assert(ends_at(t, i + 1 + tokens.len(), own));
        lemma_bare(t, i + 1, tree, style);
        lemma_looser(t, i + 1, tree, own, 0, tokens.len() as int);
        lemma_group(t, i, tree, tokens);
        lemma_looser(t, i, tree, 2, if place < 2 {
            place
        } else {
            2
        }, all.len() as int);
    }
}

/// Something is asked for that is to be present.
pub open spec fn asks(tree: Tree) -> bool
    decreases tree,
{
    match tree {
        Tree::Not(_) => false,
        Tree::And(left, right) => asks(*left) || asks(*right),
        Tree::Or(left, right) => asks(*left) || asks(*right),
        _ => true,
    }
}

/// Nothing is excluded.
pub open spec fn excludes_nothing(tree: Tree) -> bool
    decreases tree,
{
    match tree {
        Tree::Not(_) => false,
        Tree::And(left, right) => excludes_nothing(*left) && excludes_nothing(*right),
        Tree::Or(left, right) => excludes_nothing(*left) && excludes_nothing(*right),
        _ => true,
    }
}

/// What is excluded excludes nothing itself, and each side of an OR asks for
/// something.
pub open spec fn sensible(tree: Tree) -> bool
    decreases tree,
{
    match tree {
        Tree::Not(child) => sensible(*child) && excludes_nothing(*child),
        Tree::And(left, right) => sensible(*left) && sensible(*right),
        Tree::Or(left, right) => {
            &&& sensible(*left)
            &&& sensible(*right)
            &&& asks(*left)
            &&& asks(*right)
        },
        _ => true,
    }
}

proof fn lemma_asks(tree: Tree)
    ensures
        positive(tree) == asks(tree),
    decreases tree,
{
    match tree {
        Tree::And(left, right) => {
            lemma_asks(*left);
            lemma_asks(*right);
        },
        Tree::Or(left, right) => {
            lemma_asks(*left);
            lemma_asks(*right);
        },
        _ => {},
    }
}

proof fn lemma_sensible(tree: Tree, excluded: bool)
    ensures
        negation_problem(tree, excluded) is None <==> sensible(tree) && (excluded
            ==> excludes_nothing(tree)),
    decreases tree,
{
    match tree {
        Tree::Not(child) => {
            lemma_sensible(*child, true);
        },
        Tree::And(left, right) => {
            lemma_sensible(*left, excluded);
            lemma_sensible(*right, excluded);
        },
        Tree::Or(left, right) => {
            lemma_sensible(*left, excluded);
            lemma_sensible(*right, excluded);
            lemma_asks(*left);
            lemma_asks(*right);
        },
        _ => {},
    }
}

/// A condition that is written down in tokens is read back as it was, however it is
/// written: AND or nothing, NOT or a dash, with the parentheses that are needed or
/// with all of them. It is refused where it makes no sense.
pub proof fn law_conditions_are_read_back(tree: Tree, style: Style)
    ensures
        sensible(tree) && asks(tree) ==> read_query(shown(tree, 0, style)) == Ok::<Tree, Seq<char>>(
            tree,
        ),
        !(sensible(tree) && asks(tree)) ==> read_query(shown(tree, 0, style)) is Err,
{
    let t = shown(tree, 0, style);
    let n = t.len() as int;
    lemma_shown_some(tree, 0, style);
    assert(t.subrange(0, n) =~= t);
    lemma_shown(t, 0, tree, 0, style);
    assert(read_or_rest(t, tree, n) == Ok::<(Tree, int), Seq<char>>((tree, n)));
    lemma_sensible(tree, false);
    lemma_asks(tree);
}

/// The condition with a field named at each of its words and phrases.
pub open spec fn spread(tree: Tree, f: Field) -> Tree
    decreases tree,
{
    match tree {
        Tree::Not(child) => Tree::Not(Box::new(spread(*child, f))),
        Tree::And(left, right) => Tree::And(
            Box::new(spread(*left, f)),
            Box::new(spread(*right, f)),
        ),
        Tree::Or(left, right) => Tree::Or(Box::new(spread(*left, f)), Box::new(spread(*right, f))),
        Tree::Term { text, .. } => Tree::Term { text, field: Some(f) },
        Tree::Phrase { text, .. } => Tree::Phrase { text, field: Some(f) },
    }
}

/// No word or phrase names a field.
pub open spec fn fieldless(tree: Tree) -> bool
    decreases tree,
{
    match tree {
        Tree::Not(child) => fieldless(*child),
        Tree::And(left, right) => fieldless(*left) && fieldless(*right),
        Tree::Or(left, right) => fieldless(*left) && fieldless(*right),
        Tree::Term { field, .. } => field is None,
        Tree::Phrase { field, .. } => field is None,
    }
}

proof fn lemma_spread(tree: Tree, f: Field)
    ensures
        fielded(tree, f) == spread(tree, f),
        names_field(tree) == !fieldless(tree),
        sensible(spread(tree, f)) == sensible(tree),
        asks(spread(tree, f)) == asks(tree),
        excludes_nothing(spread(tree, f)) == excludes_nothing(tree),
    decreases tree,
{
    match tree {
        Tree::Not(child) => {
            lemma_spread(*child, f);
        },
        Tree::And(left, right) => {
            lemma_spread(*left, f);
            lemma_spread(*right, f);
        },
        Tree::Or(left, right) => {
            lemma_spread(*left, f);
            lemma_spread(*right, f);
        },
        _ => {},
    }
}

proof fn lemma_field_group(t: Seq<Lexeme>, tree: Tree, f: Field)
    requires
        t.len() > 4,
        t[0] == Lexeme::Word(field_word(f)),
        t[1] == Lexeme::Colon,
        t[2] == Lexeme::LParen,
        read_or(t, 3) == Ok::<(Tree, int), Seq<char>>((tree, t.len() - 1)),
        t[t.len() - 1] == Lexeme::RParen,
        !names_field(tree),
    ensures
        read_or(t, 0) == Ok::<(Tree, int), Seq<char>>((fielded(tree, f), t.len() as int)),
{
    reveal_strlit("title");
    reveal_strlit("content");
    let n = t.len() as int;
    assert(field_word(Field::Title) =~= "title"@);
    assert(field_word(Field::Content) =~= "content"@);
    assert("title"@.len() != "content"@.len());
    let all = fielded(tree, f);
    assert(read_primary(t, 2, Some(f)) == Ok::<(Tree, int), Seq<char>>((all, n)));
    assert(read_primary(t, 0, None) == read_primary(t, 2, Some(f)));
    assert(read_unary(t, 0) == Ok::<(Tree, int), Seq<char>>((all, n)));
    assert(read_and(t, 0) == Ok::<(Tree, int), Seq<char>>((all, n)));
}

/// A field in front of parentheses is the field of everything in them: the query
/// reads as if the field were named at each word and phrase.
pub proof fn law_fields_reach_into_groups(tree: Tree, f: Field, style: Style)
    requires
        fieldless(tree),
        sensible(tree),
        asks(tree),
    ensures
        ({
            let t = seq![Lexeme::Word(field_word(f)), Lexeme::Colon, Lexeme::LParen] + shown(
                tree,
                0,
                style,
            ) + seq![Lexeme::RParen];
            read_query(t) == Ok::<Tree, Seq<char>>(spread(tree, f)) && read_query(t) == read_query(
                shown(spread(tree, f), 0, style),
            )
        }),
{
    let name = Lexeme::Word(field_word(f));
    let body = shown(tree, 0, style);
    let t = seq![name, Lexeme::Colon, Lexeme::LParen] + body + seq![Lexeme::RParen];
    let n = t.len() as int;
    assert(t.subrange(3, 3int + body.len()) =~= body);
    assert(t[n - 1] == Lexeme::RParen);
    lemma_shown_some(tree, 0, style);
    lemma_shown(t, 3, tree, 0, style);
    assert(read_or_rest(t, tree, n - 1) == Ok::<(Tree, int), Seq<char>>((tree, n - 1)));
    lemma_spread(tree, f);
    lemma_field_group(t, tree, f);
    let all = spread(tree, f);
    lemma_sensible(all, false);
    lemma_asks(all);
    law_conditions_are_read_back(all, style);
}

/// A field in front of a word, a number or a phrase is the field of that one.
pub proof fn law_fields_are_kept(token: Lexeme, text: Seq<char>, f: Field)
    requires
        token == Lexeme::Word(text) || token == Lexeme::Number(text) || token == Lexeme::Phrase(text),
    ensures
        ({
            let t = seq![Lexeme::Word(field_word(f)), Lexeme::Colon, token];
            read_query(t) == Ok::<Tree, Seq<char>>(
                if token is Phrase {
                    Tree::Phrase { text, field: Some(f) }
                } else {
                    Tree::Term { text, field: Some(f) }
                },
            )
        }),
{
    let t = with_field(Some(f), token);
    assert(t.subrange(0, 3) =~= t);
    lemma_leaf(t, 0, Some(f), token);
    let tree = if token is Phrase {
        Tree::Phrase { text, field: Some(f) }
    } else {
        Tree::Term { text, field: Some(f) }
    };
    assert(read_and(t, 0) == Ok::<(Tree, int), Seq<char>>((tree, 3)));
    assert(read_or(t, 0) == Ok::<(Tree, int), Seq<char>>((tree, 3)));
    lemma_sensible(tree, false);
    lemma_asks(tree);
}

/// A query that names another field is refused.
pub proof fn law_other_fields_are_refused(name: Seq<char>, rest: Seq<Lexeme>)
    requires
        name != field_word(Field::Title),
        name != field_word(Field::Content),
    ensures
        read_query(seq![Lexeme::Word(name), Lexeme::Colon] + rest) is Err,
{
    reveal_strlit("title");
    reveal_strlit("content");
    assert(field_word(Field::Title) =~= "title"@);
    assert(field_word(Field::Content) =~= "content"@);
    let t = seq![Lexeme::Word(name), Lexeme::Colon] + rest;
    assert(t[0] == Lexeme::Word(name) && t[1] == Lexeme::Colon);
    assert(read_primary(t, 0, None) is Err);
    assert(read_unary(t, 0) is Err);
    assert(read_and(t, 0) is Err);
    assert(read_or(t, 0) is Err);
}

/// A query without tokens is refused.
pub proof fn law_empty_queries_are_refused()
    ensures
        read_query(Seq::empty()) is Err,
{
}

} // verus!
