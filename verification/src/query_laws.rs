//! What holds of every query.

use vstd::prelude::*;

use crate::query::{
    all_quoted, answer, combined, compile_absent, compile_each, compile_parts, compile_present,
    compile_text, compile_tree, fielded, filled, in_field, lex_from, names_field, negation_problem,
    noted, pieces_of, positive, prefix, quoted, read_or, read_primary, read_query, variants, Field,
    Found, Lexeme, Setting, Tree,
};
use crate::text::{contains, joined, occurs_at};

verus! {

proof fn lemma_noted_distinct(list: Seq<Seq<char>>, items: Seq<Seq<char>>)
    requires
        list.no_duplicates(),
    ensures
        noted(list, items).no_duplicates(),
    decreases items.len(),
{
    if items.len() > 0 {
        lemma_noted_distinct(list, items.drop_last());
    }
}

proof fn lemma_each_distinct(
    setting: Setting,
    pieces: Seq<Seq<char>>,
    positive: bool,
    found: Found,
)
    requires
        found.literals.no_duplicates(),
    ensures
        compile_each(setting, pieces, positive, found) is Ok ==> compile_each(
            setting,
            pieces,
            positive,
            found,
        )->Ok_0.1.literals.no_duplicates(),
    decreases pieces.len(),
{
    if pieces.len() > 0 {
        lemma_each_distinct(setting, pieces.drop_last(), positive, found);
        let before = compile_each(setting, pieces.drop_last(), positive, found);
        if before is Ok {
            lemma_noted_distinct(
                before->Ok_0.1.literals,
                variants(setting, pieces.last(), positive),
            );
        }
    }
}

proof fn lemma_tree_distinct(setting: Setting, tree: Tree, positive: bool, found: Found)
    requires
        found.literals.no_duplicates(),
    ensures
        compile_tree(setting, tree, positive, found) is Ok ==> compile_tree(
            setting,
            tree,
            positive,
            found,
        )->Ok_0.1.literals.no_duplicates(),
    decreases tree, 0int,
{
    match tree {
        Tree::Not(_) => {},
        Tree::And(left, right) => {
            lemma_present_distinct(setting, *left, positive, None, found);
            if let Ok((before, found)) = compile_present(setting, *left, positive, None, found) {
                lemma_present_distinct(setting, *right, positive, before, found);
                if let Ok((Some(expression), found)) = compile_present(
                    setting,
                    *right,
                    positive,
                    before,
                    found,
                ) {
                    lemma_absent_distinct(setting, *left, expression, found);
                    if let Ok((expression, found)) = compile_absent(
                        setting,
                        *left,
                        expression,
                        found,
                    ) {
                        lemma_absent_distinct(setting, *right, expression, found);
                    }
                }
            }
        },
        Tree::Or(left, right) => {
            lemma_tree_distinct(setting, *left, positive, found);
            if let Ok((_, found)) = compile_tree(setting, *left, positive, found) {
                lemma_tree_distinct(setting, *right, positive, found);
            }
        },
        Tree::Phrase { text, field } => {
            lemma_noted_distinct(found.literals, variants(setting, text, positive));
        },
        Tree::Term { text, field } => {
            lemma_each_distinct(setting, filled(pieces_of(setting, text)), positive, found);
        },
    }
}

proof fn lemma_present_distinct(
    setting: Setting,
    tree: Tree,
    positive: bool,
    before: Option<Seq<char>>,
    found: Found,
)
    requires
        found.literals.no_duplicates(),
    ensures
        compile_present(setting, tree, positive, before, found) is Ok ==> compile_present(
            setting,
            tree,
            positive,
            before,
            found,
        )->Ok_0.1.literals.no_duplicates(),
    decreases tree, 1int,
{
    match tree {
        Tree::And(left, right) => {
            lemma_present_distinct(setting, *left, positive, before, found);
            if let Ok((before, found)) = compile_present(setting, *left, positive, before, found) {
                lemma_present_distinct(setting, *right, positive, before, found);
            }
        },
        Tree::Not(_) => {},
        _ => {
            lemma_tree_distinct(setting, tree, positive, found);
        },
    }
}

proof fn lemma_absent_distinct(setting: Setting, tree: Tree, before: Seq<char>, found: Found)
    requires
        found.literals.no_duplicates(),
    ensures
        compile_absent(setting, tree, before, found) is Ok ==> compile_absent(
            setting,
            tree,
            before,
            found,
        )->Ok_0.1.literals.no_duplicates(),
    decreases tree, 1int,
{
    match tree {
        Tree::And(left, right) => {
            lemma_absent_distinct(setting, *left, before, found);
            if let Ok((before, found)) = compile_absent(setting, *left, before, found) {
                lemma_absent_distinct(setting, *right, before, found);
            }
        },
        Tree::Not(child) => {
            lemma_tree_distinct(setting, *child, false, found);
        },
        _ => {},
    }
}

/// No literal of a query is listed twice.
pub proof fn law_literals_are_distinct(setting: Setting, input: Seq<char>)
    ensures
        answer(setting, input) is Ok ==> answer(setting, input)->Ok_0.1.no_duplicates(),
{
    let none = Found { literals: Seq::empty(), extra: 0 };
    if let Ok(t) = lex_from(input, 0) {
        if let Ok(tree) = read_query(t) {
            lemma_tree_distinct(setting, tree, true, none);
        }
    }
}

/// The setting without any synonyms.
pub open spec fn without_synonyms(setting: Setting) -> Setting {
    Setting { groups: Seq::empty(), ..setting }
}

proof fn lemma_each_excluded(setting: Setting, pieces: Seq<Seq<char>>, found: Found)
    ensures
        ({
            let r = compile_each(setting, pieces, false, found);
            &&& r is Ok ==> r->Ok_0.1 == found
            &&& r == compile_each(without_synonyms(setting), pieces, false, found)
        }),
    decreases pieces.len(),
{
    if pieces.len() > 0 {
        lemma_each_excluded(setting, pieces.drop_last(), found);
    }
}

proof fn lemma_present_excluded(
    setting: Setting,
    tree: Tree,
    before: Option<Seq<char>>,
    found: Found,
)
    ensures
        ({
            let r = compile_present(setting, tree, false, before, found);
            &&& r is Ok ==> r->Ok_0.1 == found
            &&& r == compile_present(without_synonyms(setting), tree, false, before, found)
        }),
    decreases tree, 1int,
{
    match tree {
        Tree::And(left, right) => {
            lemma_present_excluded(setting, *left, before, found);
            if let Ok((before, found)) = compile_present(setting, *left, false, before, found) {
                lemma_present_excluded(setting, *right, before, found);
            }
        },
        Tree::Not(_) => {},
        _ => {
            law_exclusions_stand_for_themselves(setting, tree, found);
        },
    }
}

proof fn lemma_absent_excluded(setting: Setting, tree: Tree, before: Seq<char>, found: Found)
    ensures
        ({
            let r = compile_absent(setting, tree, before, found);
            &&& r is Ok ==> r->Ok_0.1 == found
            &&& r == compile_absent(without_synonyms(setting), tree, before, found)
        }),
    decreases tree, 1int,
{
    match tree {
        Tree::And(left, right) => {
            lemma_absent_excluded(setting, *left, before, found);
            if let Ok((before, found)) = compile_absent(setting, *left, before, found) {
                lemma_absent_excluded(setting, *right, before, found);
            }
        },
        Tree::Not(child) => {
            law_exclusions_stand_for_themselves(setting, *child, found);
        },
        _ => {},
    }
}

/// An excluded condition gives no literals, counts nothing against the limit
/// on synonyms, and is compiled as if there were no synonyms.
pub proof fn law_exclusions_stand_for_themselves(setting: Setting, tree: Tree, found: Found)
    ensures
        ({
            let r = compile_tree(setting, tree, false, found);
            &&& r is Ok ==> r->Ok_0.1 == found
            &&& r == compile_tree(without_synonyms(setting), tree, false, found)
        }),
    decreases tree, 0int,
{
    match tree {
        Tree::Not(_) => {},
        Tree::And(left, right) => {
            lemma_present_excluded(setting, *left, None, found);
            if let Ok((before, found)) = compile_present(setting, *left, false, None, found) {
                lemma_present_excluded(setting, *right, before, found);
                if let Ok((Some(expression), found)) = compile_present(
                    setting,
                    *right,
                    false,
                    before,
                    found,
                ) {
                    lemma_absent_excluded(setting, *left, expression, found);
                    if let Ok((expression, found)) = compile_absent(
                        setting,
                        *left,
                        expression,
                        found,
                    ) {
                        lemma_absent_excluded(setting, *right, expression, found);
                    }
                }
            }
        },
        Tree::Or(left, right) => {
            law_exclusions_stand_for_themselves(setting, *left, found);
            if let Ok((_, found)) = compile_tree(setting, *left, false, found) {
                law_exclusions_stand_for_themselves(setting, *right, found);
            }
        },
        Tree::Phrase { text, field } => {},
        Tree::Term { text, field } => {
            lemma_each_excluded(setting, filled(pieces_of(setting, text)), found);
        },
    }
}

proof fn lemma_present_of_and(
    setting: Setting,
    a: Tree,
    b: Tree,
    positive: bool,
    before: Option<Seq<char>>,
    found: Found,
)
    ensures
        compile_present(setting, Tree::And(Box::new(a), Box::new(b)), positive, before, found)
            == match compile_present(setting, a, positive, before, found) {
            Err(message) => Err(message),
            Ok((before, found)) => compile_present(setting, b, positive, before, found),
        },
{
}

proof fn lemma_absent_of_and(setting: Setting, a: Tree, b: Tree, before: Seq<char>, found: Found)
    ensures
        compile_absent(setting, Tree::And(Box::new(a), Box::new(b)), before, found)
            == match compile_absent(setting, a, before, found) {
            Err(message) => Err(message),
            Ok((before, found)) => compile_absent(setting, b, before, found),
        },
{
}

/// How conditions joined by AND are grouped makes no difference.
pub proof fn law_grouping_of_and_is_irrelevant(
    setting: Setting,
    a: Tree,
    b: Tree,
    c: Tree,
    positive: bool,
    found: Found,
)
    ensures
        compile_tree(
            setting,
            Tree::And(Box::new(Tree::And(Box::new(a), Box::new(b))), Box::new(c)),
            positive,
            found,
        ) == compile_tree(
            setting,
            Tree::And(Box::new(a), Box::new(Tree::And(Box::new(b), Box::new(c)))),
            positive,
            found,
        ),
{
    lemma_present_of_and(setting, a, b, positive, None, found);
    if let Ok((one, after_a)) = compile_present(setting, a, positive, None, found) {
        lemma_present_of_and(setting, b, c, positive, one, after_a);
        if let Ok((two, after_b)) = compile_present(setting, b, positive, one, after_a) {
            if let Ok((Some(all), after_c)) = compile_present(setting, c, positive, two, after_b) {
                lemma_absent_of_and(setting, a, b, all, after_c);
                if let Ok((less, without_a)) = compile_absent(setting, a, all, after_c) {
                    lemma_absent_of_and(setting, b, c, less, without_a);
                }
            }
        }
    }
}

/// Exclusions can stand in front of the conditions that they are joined with
/// or behind them.
pub proof fn law_exclusions_can_stand_first(
    setting: Setting,
    a: Tree,
    b: Tree,
    positive: bool,
    found: Found,
)
    requires
        !(a is And) && !(a is Not),
    ensures
        compile_tree(
            setting,
            Tree::And(Box::new(Tree::Not(Box::new(b))), Box::new(a)),
            positive,
            found,
        ) == compile_tree(
            setting,
            Tree::And(Box::new(a), Box::new(Tree::Not(Box::new(b)))),
            positive,
            found,
        ),
{
    let excluded = Tree::Not(Box::new(b));
    assert(compile_present(setting, excluded, positive, None, found) == Ok::<
        (Option<Seq<char>>, Found),
        Seq<char>,
    >((None, found)));
    if let Ok((one, after_a)) = compile_present(setting, a, positive, None, found) {
        assert(compile_present(setting, excluded, positive, one, after_a) == Ok::<
            (Option<Seq<char>>, Found),
            Seq<char>,
        >((one, after_a)));
        if let Some(expression) = one {
            assert(compile_absent(setting, a, expression, after_a) == Ok::<
                (Seq<char>, Found),
                Seq<char>,
            >((expression, after_a)));
            if let Ok((less, rest)) = compile_absent(setting, excluded, expression, after_a) {
                assert(compile_absent(setting, a, less, rest) == Ok::<
                    (Seq<char>, Found),
                    Seq<char>,
                >((less, rest)));
            }
        }
    }
}

/// Some condition inside the tree is excluded.
pub open spec fn excludes(tree: Tree) -> bool
    decreases tree,
{
    match tree {
        Tree::Not(_) => true,
        Tree::And(left, right) => excludes(*left) || excludes(*right),
        Tree::Or(left, right) => excludes(*left) || excludes(*right),
        _ => false,
    }
}

/// No excluded condition has exclusions of its own, and both sides of every OR
/// have a positive condition.
pub open spec fn plain_exclusions(tree: Tree) -> bool
    decreases tree,
{
    match tree {
        Tree::Not(child) => !excludes(*child) && plain_exclusions(*child),
        Tree::And(left, right) => plain_exclusions(*left) && plain_exclusions(*right),
        Tree::Or(left, right) => {
            &&& plain_exclusions(*left)
            &&& plain_exclusions(*right)
            &&& positive(*left)
            &&& positive(*right)
        },
        _ => true,
    }
}

proof fn lemma_negation(tree: Tree, excluded: bool)
    ensures
        negation_problem(tree, excluded) is None <==> plain_exclusions(tree) && (excluded
            ==> !excludes(tree)),
    decreases tree,
{
    match tree {
        Tree::Not(child) => {
            lemma_negation(*child, true);
        },
        Tree::And(left, right) => {
            lemma_negation(*left, excluded);
            lemma_negation(*right, excluded);
        },
        Tree::Or(left, right) => {
            lemma_negation(*left, excluded);
            lemma_negation(*right, excluded);
        },
        _ => {},
    }
}

/// A query is accepted exactly when all its tokens form one condition that is
/// positive as a whole and whose exclusions are not nested.
pub proof fn law_accepted_queries(t: Seq<Lexeme>)
    ensures
        read_query(t) is Ok <==> {
            &&& t.len() > 0
            &&& read_or(t, 0) is Ok
            &&& read_or(t, 0)->Ok_0.1 >= t.len()
            &&& plain_exclusions(read_or(t, 0)->Ok_0.0)
            &&& positive(read_or(t, 0)->Ok_0.0)
        },
        read_query(t) is Ok ==> read_query(t)->Ok_0 == read_or(t, 0)->Ok_0.0,
{
    if read_or(t, 0) is Ok {
        lemma_negation(read_or(t, 0)->Ok_0.0, false);
    }
}

/// A field in front of a group that names a field itself is refused.
pub proof fn law_nested_fields_are_refused(t: Seq<Lexeme>, i: int, field: Field)
    requires
        0 <= i < t.len(),
        t[i] == Lexeme::LParen,
        read_or(t, i + 1) is Ok,
        names_field(read_or(t, i + 1)->Ok_0.0),
    ensures
        read_primary(t, i, Some(field)) is Err,
{
}

/// A field in front of a group stands on every word and phrase of it, so that
/// the default field plays no part.
pub proof fn law_named_field_wins(
    setting: Setting,
    other: Option<Field>,
    tree: Tree,
    field: Field,
    positive: bool,
    found: Found,
)
    ensures
        compile_tree(setting, fielded(tree, field), positive, found) == compile_tree(
            Setting { field: other, ..setting },
            fielded(tree, field),
            positive,
            found,
        ),
    decreases tree, 0int,
{
    let changed = Setting { field: other, ..setting };
    match tree {
        Tree::Not(_) => {},
        Tree::And(left, right) => {
            lemma_named_field_present(setting, other, *left, field, positive, None, found);
            let first = compile_present(setting, fielded(*left, field), positive, None, found);
            if let Ok((before, found)) = first {
                lemma_named_field_present(setting, other, *right, field, positive, before, found);
                if let Ok((Some(expression), found)) = compile_present(
                    setting,
                    fielded(*right, field),
                    positive,
                    before,
                    found,
                ) {
                    lemma_named_field_absent(setting, other, *left, field, expression, found);
                    if let Ok((expression, found)) = compile_absent(
                        setting,
                        fielded(*left, field),
                        expression,
                        found,
                    ) {
                        lemma_named_field_absent(setting, other, *right, field, expression, found);
                    }
                }
            }
        },
        Tree::Or(left, right) => {
            law_named_field_wins(setting, other, *left, field, positive, found);
            if let Ok((_, found)) = compile_tree(setting, fielded(*left, field), positive, found) {
                law_named_field_wins(setting, other, *right, field, positive, found);
            }
        },
        Tree::Phrase { text, .. } => {},
        Tree::Term { text, .. } => {
            lemma_each_ignores_field(
                setting,
                other,
                filled(pieces_of(setting, text)),
                positive,
                found,
            );
        },
    }
}

proof fn lemma_each_ignores_field(
    setting: Setting,
    other: Option<Field>,
    pieces: Seq<Seq<char>>,
    positive: bool,
    found: Found,
)
    ensures
        compile_each(setting, pieces, positive, found) == compile_each(
            Setting { field: other, ..setting },
            pieces,
            positive,
            found,
        ),
    decreases pieces.len(),
{
    if pieces.len() > 0 {
        lemma_each_ignores_field(setting, other, pieces.drop_last(), positive, found);
    }
}

proof fn lemma_named_field_present(
    setting: Setting,
    other: Option<Field>,
    tree: Tree,
    field: Field,
    positive: bool,
    before: Option<Seq<char>>,
    found: Found,
)
    ensures
        compile_present(setting, fielded(tree, field), positive, before, found) == compile_present(
            Setting { field: other, ..setting },
            fielded(tree, field),
            positive,
            before,
            found,
        ),
    decreases tree, 1int,
{
    match tree {
        Tree::And(left, right) => {
            lemma_named_field_present(setting, other, *left, field, positive, before, found);
            if let Ok((before, found)) = compile_present(
                setting,
                fielded(*left, field),
                positive,
                before,
                found,
            ) {
                lemma_named_field_present(setting, other, *right, field, positive, before, found);
            }
        },
        Tree::Not(_) => {},
        _ => {
            law_named_field_wins(setting, other, tree, field, positive, found);
        },
    }
}

proof fn lemma_named_field_absent(
    setting: Setting,
    other: Option<Field>,
    tree: Tree,
    field: Field,
    before: Seq<char>,
    found: Found,
)
    ensures
        compile_absent(setting, fielded(tree, field), before, found) == compile_absent(
            Setting { field: other, ..setting },
            fielded(tree, field),
            before,
            found,
        ),
    decreases tree, 1int,
{
    match tree {
        Tree::And(left, right) => {
            lemma_named_field_absent(setting, other, *left, field, before, found);
            if let Ok((before, found)) = compile_absent(
                setting,
                fielded(*left, field),
                before,
                found,
            ) {
                lemma_named_field_absent(setting, other, *right, field, before, found);
            }
        },
        Tree::Not(child) => {
            law_named_field_wins(setting, other, *child, field, false, found);
        },
        _ => {},
    }
}

proof fn lemma_contains_inside(a: Seq<char>, before: Seq<char>, after: Seq<char>, part: Seq<char>)
    requires
        contains(a, part),
    ensures
        contains(before + a + after, part),
{
    let k = choose|k: int| occurs_at(a, part, k);
    let whole = before + a + after;
    let m = before.len() + k;
    assert(whole.subrange(m, m + part.len()) =~= a.subrange(k, k + part.len()));
    assert(occurs_at(whole, part, m));
}

proof fn lemma_contains_itself(a: Seq<char>)
    ensures
        contains(a, a),
{
    assert(a.subrange(0, a.len() as int) =~= a);
    assert(occurs_at(a, a, 0));
}

proof fn lemma_joined_contains(parts: Seq<Seq<char>>, separator: Seq<char>, i: int, part: Seq<char>)
    requires
        0 <= i < parts.len(),
        contains(parts[i], part),
    ensures
        contains(joined(parts, separator), part),
    decreases parts.len(),
{
    let empty = Seq::<char>::empty();
    if parts.len() > 1 {
        let init = joined(parts.drop_last(), separator);
        if i == parts.len() - 1 {
            lemma_contains_inside(parts.last(), init + separator, empty, part);
            assert(init + separator + parts.last() + empty =~= joined(parts, separator));
        } else {
            lemma_joined_contains(parts.drop_last(), separator, i, part);
            lemma_contains_inside(init, empty, separator + parts.last(), part);
            assert(empty + init + (separator + parts.last()) =~= joined(parts, separator));
        }
    }
}

proof fn lemma_noted_from(list: Seq<Seq<char>>, items: Seq<Seq<char>>)
    ensures
        forall|i: int|
            0 <= i < noted(list, items).len() ==> list.contains(#[trigger] noted(list, items)[i])
                || items.contains(noted(list, items)[i]),
    decreases items.len(),
{
    if items.len() == 0 {
        assert forall|i: int| 0 <= i < list.len() implies list.contains(#[trigger] list[i]) by {}
    } else {
        let init = items.drop_last();
        lemma_noted_from(list, init);
        let before = noted(list, init);
        let after = noted(list, items);
        assert forall|i: int| 0 <= i < after.len() implies list.contains(#[trigger] after[i])
            || items.contains(after[i]) by {
            if i < before.len() {
                assert(after[i] == before[i]);
                if init.contains(before[i]) {
                    let k = choose|k: int| 0 <= k < init.len() && init[k] == before[i];
                    assert(items[k] == before[i]);
                }
            } else {
                assert(items[items.len() - 1] == after[i]);
            }
        }
    }
}

/// Every literal was found before, or stands between quotation marks in the
/// expression.
spec fn shown_in(found: Found, expression: Seq<char>, next: Found) -> bool {
    forall|i: int|
        0 <= i < next.literals.len() ==> found.literals.contains(#[trigger] next.literals[i])
            || contains(expression, quoted(next.literals[i]))
}

proof fn lemma_text_shown(setting: Setting, text: Seq<char>, positive: bool, found: Found)
    ensures
        compile_text(setting, text, positive, found) matches Ok((e, f)) ==> shown_in(found, e, f),
{
    if let Ok((e, f)) = compile_text(setting, text, positive, found) {
        let all = variants(setting, text, positive);
        if positive {
            lemma_noted_from(found.literals, all);
        }
        assert forall|i: int| 0 <= i < f.literals.len() implies found.literals.contains(
            #[trigger] f.literals[i],
        ) || contains(e, quoted(f.literals[i])) by {
            let literal = f.literals[i];
            if positive {
                assert(noted(found.literals, all)[i] == literal);
                if !found.literals.contains(literal) {
                    let k = choose|k: int| 0 <= k < all.len() && all[k] == literal;
                    lemma_contains_itself(quoted(literal));
                    if all.len() > 1 {
                        let parts = all_quoted(all);
                        assert(parts[k] == quoted(literal));
                        lemma_joined_contains(parts, " OR "@, k, quoted(literal));
                        lemma_contains_inside(
                            joined(parts, " OR "@),
                            "("@,
                            ")"@,
                            quoted(literal),
                        );
                    }
                }
            } else {
                assert(found.literals[i] == literal);
            }
        }
    }
}

/// One of the expressions has the text.
spec fn some_has(es: Seq<Seq<char>>, part: Seq<char>) -> bool {
    exists|k: int| 0 <= k < es.len() && contains(#[trigger] es[k], part)
}

/// Every literal was found before, or stands between quotation marks in one of
/// the expressions.
spec fn shown_in_some(found: Found, es: Seq<Seq<char>>, next: Found) -> bool {
    forall|i: int|
        0 <= i < next.literals.len() ==> found.literals.contains(#[trigger] next.literals[i])
            || some_has(es, quoted(next.literals[i]))
}

proof fn lemma_each_shown(setting: Setting, pieces: Seq<Seq<char>>, positive: bool, found: Found)
    ensures
        compile_each(setting, pieces, positive, found) matches Ok((es, f)) ==> es.len()
            == pieces.len() && shown_in_some(found, es, f),
    decreases pieces.len(),
{
    if pieces.len() == 0 {
        assert forall|i: int| 0 <= i < found.literals.len() implies found.literals.contains(
            #[trigger] found.literals[i],
        ) by {}
    } else {
        let init = pieces.drop_last();
        lemma_each_shown(setting, init, positive, found);
        if let Ok((before, mid)) = compile_each(setting, init, positive, found) {
            lemma_text_shown(setting, pieces.last(), positive, mid);
            if let Ok((e, f)) = compile_text(setting, pieces.last(), positive, mid) {
                let es = before.push(e);
                assert forall|i: int| 0 <= i < f.literals.len() implies found.literals.contains(
                    #[trigger] f.literals[i],
                ) || some_has(es, quoted(f.literals[i])) by {
                    let literal = f.literals[i];
                    if mid.literals.contains(literal) {
                        let m = choose|m: int|
                            0 <= m < mid.literals.len() && mid.literals[m] == literal;
                        assert(found.literals.contains(mid.literals[m]) || some_has(
                            before,
                            quoted(mid.literals[m]),
                        ));
                        if !found.literals.contains(literal) {
                            let k = choose|k: int|
                                0 <= k < before.len() && contains(
                                    #[trigger] before[k],
                                    quoted(literal),
                                );
                            assert(es[k] == before[k]);
                        }
                    } else {
                        assert(es[es.len() - 1] == e);
                    }
                }
            }
        }
    }
}

proof fn lemma_in_field_shown(
    setting: Setting,
    field: Option<Field>,
    found: Found,
    e: Seq<char>,
    f: Found,
)
    requires
        shown_in(found, e, f),
    ensures
        ({
            let r = in_field(setting, field, Ok::<(Seq<char>, Found), Seq<char>>((e, f)));
            shown_in(found, r->Ok_0.0, r->Ok_0.1)
        }),
{
    let r = in_field(setting, field, Ok::<(Seq<char>, Found), Seq<char>>((e, f)));
    let whole = r->Ok_0.0;
    let p = prefix(
        if field is Some {
            field
        } else {
            setting.field
        },
    );
    let empty = Seq::<char>::empty();
    assert forall|i: int| 0 <= i < f.literals.len() implies found.literals.contains(
        #[trigger] f.literals[i],
    ) || contains(whole, quoted(f.literals[i])) by {
        if !found.literals.contains(f.literals[i]) {
            lemma_contains_inside(e, p, empty, quoted(f.literals[i]));
            assert(p + e + empty =~= whole);
        }
    }
}

/// Both expressions stay visible in their combination.
proof fn lemma_combined_shown(
    left: Seq<char>,
    operator: Seq<char>,
    right: Seq<char>,
    part: Seq<char>,
)
    requires
        contains(left, part) || contains(right, part),
    ensures
        contains(combined(left, operator, right), part),
{
    let whole = combined(left, operator, right);
    if contains(left, part) {
        lemma_contains_inside(left, "("@, operator + right + ")"@, part);
        assert("("@ + left + (operator + right + ")"@) =~= whole);
    } else {
        lemma_contains_inside(right, "("@ + left + operator, ")"@, part);
        assert("("@ + left + operator + right + ")"@ =~= whole);
    }
}

/// What was shown before a step and what the step shows.
proof fn lemma_shown_step(
    found: Found,
    a: Seq<char>,
    mid: Found,
    b: Seq<char>,
    next: Found,
    whole: Seq<char>,
)
    requires
        shown_in(found, a, mid),
        shown_in(mid, b, next),
        forall|part: Seq<char>|
            contains(a, part) || contains(b, part) ==> #[trigger] contains(whole, part),
    ensures
        shown_in(found, whole, next),
{
    assert forall|i: int| 0 <= i < next.literals.len() implies found.literals.contains(
        #[trigger] next.literals[i],
    ) || contains(whole, quoted(next.literals[i])) by {
        let literal = next.literals[i];
        if mid.literals.contains(literal) {
            let m = choose|m: int| 0 <= m < mid.literals.len() && mid.literals[m] == literal;
            assert(found.literals.contains(mid.literals[m]) || contains(
                a,
                quoted(mid.literals[m]),
            ));
        }
        assert(contains(a, quoted(literal)) || contains(b, quoted(literal)) ==> contains(
            whole,
            quoted(literal),
        ));
    }
}

proof fn lemma_tree_shown(setting: Setting, tree: Tree, positive: bool, found: Found)
    ensures
        compile_tree(setting, tree, positive, found) matches Ok((e, f)) ==> shown_in(found, e, f),
    decreases tree, 0int,
{
    match tree {
        Tree::Not(_) => {},
        Tree::And(left, right) => {
            lemma_present_shown(setting, *left, positive, None, found, found);
            if let Ok((before, after_left)) = compile_present(
                setting,
                *left,
                positive,
                None,
                found,
            ) {
                lemma_present_shown(setting, *right, positive, before, after_left, found);
                if let Ok((Some(all), after_right)) = compile_present(
                    setting,
                    *right,
                    positive,
                    before,
                    after_left,
                ) {
                    lemma_absent_shown(setting, *left, all, after_right);
                    if let Ok((less, f)) = compile_absent(setting, *left, all, after_right) {
                        lemma_absent_shown(setting, *right, less, f);
                        if let Ok((least, last)) = compile_absent(setting, *right, less, f) {
                            assert forall|i: int|
                                0 <= i < last.literals.len() implies found.literals.contains(
                                #[trigger] last.literals[i],
                            ) || contains(least, quoted(last.literals[i])) by {
                                assert(after_right.literals[i] == last.literals[i]);
                                let q = quoted(last.literals[i]);
                                assert(contains(all, q) ==> contains(less, q));
                                assert(contains(less, q) ==> contains(least, q));
                            }
                        }
                    }
                }
            }
        },
        Tree::Or(left, right) => {
            lemma_tree_shown(setting, *left, positive, found);
            if let Ok((a, mid)) = compile_tree(setting, *left, positive, found) {
                lemma_tree_shown(setting, *right, positive, mid);
                if let Ok((b, next)) = compile_tree(setting, *right, positive, mid) {
                    let whole = combined(a, " OR "@, b);
                    assert forall|part: Seq<char>|
                        contains(a, part) || contains(b, part) implies #[trigger] contains(
                        whole,
                        part,
                    ) by {
                        lemma_combined_shown(a, " OR "@, b, part);
                    }
                    lemma_shown_step(found, a, mid, b, next, whole);
                }
            }
        },
        Tree::Phrase { text, field } => {
            lemma_text_shown(setting, text, positive, found);
            if let Ok((e, f)) = compile_text(setting, text, positive, found) {
                lemma_in_field_shown(setting, field, found, e, f);
            }
        },
        Tree::Term { text, field } => {
            let pieces = filled(pieces_of(setting, text));
            lemma_each_shown(setting, pieces, positive, found);
            if let Ok((es, f)) = compile_each(setting, pieces, positive, found) {
                if let Ok((e, g)) = compile_parts(
                    setting,
                    pieces_of(setting, text),
                    positive,
                    found,
                ) {
                    assert forall|i: int| 0 <= i < f.literals.len() implies found.literals.contains(
                        #[trigger] f.literals[i],
                    ) || contains(e, quoted(f.literals[i])) by {
                        let q = quoted(f.literals[i]);
                        if !found.literals.contains(f.literals[i]) {
                            assert(some_has(es, q));
                            let k = choose|k: int| 0 <= k < es.len() && contains(#[trigger] es[k], q);
                            if es.len() > 1 {
                                lemma_joined_contains(es, " AND "@, k, q);
                                lemma_contains_inside(joined(es, " AND "@), "("@, ")"@, q);
                            }
                        }
                    }
                    lemma_in_field_shown(setting, field, found, e, g);
                }
            }
        },
    }
}

proof fn lemma_present_shown(
    setting: Setting,
    tree: Tree,
    positive: bool,
    before: Option<Seq<char>>,
    found: Found,
    start: Found,
)
    requires
        match before {
            Some(e) => shown_in(start, e, found),
            None => found == start,
        },
    ensures
        compile_present(setting, tree, positive, before, found) matches Ok((after, f)) ==> match after {
            Some(e) => shown_in(start, e, f),
            None => f == start && before is None,
        },
    decreases tree, 1int,
{
    match tree {
        Tree::And(left, right) => {
            lemma_present_shown(setting, *left, positive, before, found, start);
            if let Ok((mid, f)) = compile_present(setting, *left, positive, before, found) {
                lemma_present_shown(setting, *right, positive, mid, f, start);
            }
        },
        Tree::Not(_) => {},
        _ => {
            lemma_tree_shown(setting, tree, positive, found);
            if let Ok((next, f)) = compile_tree(setting, tree, positive, found) {
                if let Some(e) = before {
                    let whole = combined(e, " AND "@, next);
                    assert forall|part: Seq<char>|
                        contains(e, part) || contains(next, part) implies #[trigger] contains(
                        whole,
                        part,
                    ) by {
                        lemma_combined_shown(e, " AND "@, next, part);
                    }
                    lemma_shown_step(start, e, found, next, f, whole);
                }
            }
        },
    }
}

proof fn lemma_absent_shown(setting: Setting, tree: Tree, before: Seq<char>, found: Found)
    ensures
        compile_absent(setting, tree, before, found) matches Ok((after, f)) ==> f == found
            && forall|part: Seq<char>| contains(before, part) ==> #[trigger] contains(after, part),
    decreases tree, 1int,
{
    match tree {
        Tree::And(left, right) => {
            lemma_absent_shown(setting, *left, before, found);
            if let Ok((mid, f)) = compile_absent(setting, *left, before, found) {
                lemma_absent_shown(setting, *right, mid, f);
                if let Ok((after, g)) = compile_absent(setting, *right, mid, f) {
                    assert forall|part: Seq<char>| contains(before, part) implies #[trigger] contains(
                        after,
                        part,
                    ) by {
                        assert(contains(mid, part));
                    }
                }
            }
        },
        Tree::Not(child) => {
            law_exclusions_stand_for_themselves(setting, *child, found);
            if let Ok((next, f)) = compile_tree(setting, *child, false, found) {
                assert forall|part: Seq<char>| contains(before, part) implies #[trigger] contains(
                    combined(before, " NOT "@, next),
                    part,
                ) by {
                    lemma_combined_shown(before, " NOT "@, next, part);
                }
            }
        },
        _ => {},
    }
}

/// Every literal of a query stands between quotation marks in its expression.
pub proof fn law_literals_stand_in_expression(setting: Setting, input: Seq<char>, i: int)
    requires
        answer(setting, input) is Ok,
        0 <= i < answer(setting, input)->Ok_0.1.len(),
    ensures
        contains(
            answer(setting, input)->Ok_0.0,
            quoted(answer(setting, input)->Ok_0.1[i]),
        ),
{
    let none = Found { literals: Seq::empty(), extra: 0 };
    let tree = read_query(lex_from(input, 0)->Ok_0)->Ok_0;
    lemma_tree_shown(setting, tree, true, none);
    let (e, f) = compile_tree(setting, tree, true, none)->Ok_0;
    let literal = f.literals[i];
    assert(!none.literals.contains(literal));
}

/// What is said of a condition that only excludes.
spec fn only_excludes() -> Seq<char> {
    "排除条件必须与正向条件组合"@
}

proof fn lemma_other_messages()
    ensures
        "词语包含不支持的查询字符"@ != only_excludes(),
        "同义词展开后条件过多,请精简词典"@ != only_excludes(),
        "普通词不包含可检索的文字或数字"@ != only_excludes(),
{
    reveal_strlit("排除条件必须与正向条件组合");
    reveal_strlit("词语包含不支持的查询字符");
    reveal_strlit("同义词展开后条件过多,请精简词典");
    reveal_strlit("普通词不包含可检索的文字或数字");
    assert("词语包含不支持的查询字符"@[0] == '词');
    assert("同义词展开后条件过多,请精简词典"@[0] == '同');
    assert("普通词不包含可检索的文字或数字"@[0] == '普');
    assert(only_excludes()[0] == '排');
}

proof fn lemma_each_message(setting: Setting, pieces: Seq<Seq<char>>, positive: bool, found: Found)
    ensures
        compile_each(setting, pieces, positive, found) matches Err(m) ==> m != only_excludes(),
    decreases pieces.len(),
{
    lemma_other_messages();
    if pieces.len() > 0 {
        lemma_each_message(setting, pieces.drop_last(), positive, found);
    }
}

proof fn lemma_tree_message(setting: Setting, tree: Tree, p: bool, found: Found)
    requires
        plain_exclusions(tree),
        positive(tree),
    ensures
        compile_tree(setting, tree, p, found) matches Err(m) ==> m != only_excludes(),
    decreases tree, 0int,
{
    lemma_other_messages();
    match tree {
        Tree::Not(_) => {},
        Tree::And(left, right) => {
            lemma_present_message(setting, *left, p, None, found);
            if let Ok((before, f)) = compile_present(setting, *left, p, None, found) {
                lemma_present_message(setting, *right, p, before, f);
                if let Ok((Some(e), g)) = compile_present(setting, *right, p, before, f) {
                    lemma_absent_message(setting, *left, e, g);
                    if let Ok((less, h)) = compile_absent(setting, *left, e, g) {
                        lemma_absent_message(setting, *right, less, h);
                    }
                }
            }
        },
        Tree::Or(left, right) => {
            lemma_tree_message(setting, *left, p, found);
            if let Ok((_, f)) = compile_tree(setting, *left, p, found) {
                lemma_tree_message(setting, *right, p, f);
            }
        },
        Tree::Phrase { text, field } => {},
        Tree::Term { text, field } => {
            lemma_each_message(setting, filled(pieces_of(setting, text)), p, found);
        },
    }
}

proof fn lemma_present_message(
    setting: Setting,
    tree: Tree,
    p: bool,
    before: Option<Seq<char>>,
    found: Found,
)
    requires
        plain_exclusions(tree),
    ensures
        match compile_present(setting, tree, p, before, found) {
            Err(m) => m != only_excludes(),
            Ok((after, _)) => before is Some || positive(tree) ==> after is Some,
        },
    decreases tree, 1int,
{
    match tree {
        Tree::And(left, right) => {
            lemma_present_message(setting, *left, p, before, found);
            if let Ok((mid, f)) = compile_present(setting, *left, p, before, found) {
                lemma_present_message(setting, *right, p, mid, f);
            }
        },
        Tree::Not(_) => {},
        _ => {
            lemma_tree_message(setting, tree, p, found);
        },
    }
}

proof fn lemma_absent_message(setting: Setting, tree: Tree, before: Seq<char>, found: Found)
    requires
        plain_exclusions(tree),
    ensures
        compile_absent(setting, tree, before, found) matches Err(m) ==> m != only_excludes(),
    decreases tree, 1int,
{
    match tree {
        Tree::And(left, right) => {
            lemma_absent_message(setting, *left, before, found);
            if let Ok((mid, f)) = compile_absent(setting, *left, before, found) {
                lemma_absent_message(setting, *right, mid, f);
            }
        },
        Tree::Not(child) => {
            lemma_plain_is_positive(*child);
            lemma_tree_message(setting, *child, false, found);
        },
        _ => {},
    }
}

proof fn lemma_plain_is_positive(tree: Tree)
    requires
        !excludes(tree),
    ensures
        positive(tree),
    decreases tree,
{
    match tree {
        Tree::And(left, right) => {
            lemma_plain_is_positive(*left);
        },
        Tree::Or(left, right) => {
            lemma_plain_is_positive(*left);
        },
        _ => {},
    }
}

/// A query that was accepted never fails for want of a positive condition: what
/// can still be wrong with it are its words.
pub proof fn law_accepted_queries_are_positive(setting: Setting, t: Seq<Lexeme>, found: Found)
    requires
        read_query(t) is Ok,
    ensures
        compile_tree(setting, read_query(t)->Ok_0, true, found) matches Err(message) ==> message
            != "排除条件必须与正向条件组合"@,
{
    law_accepted_queries(t);
    lemma_tree_message(setting, read_query(t)->Ok_0, true, found);
}

} // verus!
