//! What the expression of every query finds: the documents that the query asks for.

use vstd::prelude::*;

use crate::dict::{cut_words, expansion, lemma_expansion_has_members, searchable_parts};
use crate::grammar_laws::{asks, excludes_nothing, field_word, sensible};
use crate::lexing_laws::{in_a_field, law_field_queries_have_three_tokens, writes};
use crate::literal_laws::{law_literals_in_order_of_appearance, mentioned, parts_mentioned};
use crate::query::{
    all_quoted, answer, compile_absent, compile_each, compile_parts, compile_present,
    compile_text, compile_tree, filled, lex_from, noted, one_of, pieces_of, prefix, quotable,
    read_query, variants, Field, Found, Lexeme, Setting, Tree,
};
use crate::text::joined;
use crate::tokenize::searchable;

verus! {

/// A document, as far as a search goes: whether it has a text in a field, or
/// anywhere.
pub type Finds = spec_fn(Option<Field>, Seq<char>) -> bool;

/// A condition of the index.
pub enum Clause {
    /// Each of the parts is in the field, in one of its forms.
    Leaf { field: Option<Field>, parts: Seq<Seq<Seq<char>>> },
    Both(Box<Clause>, Box<Clause>),
    Either(Box<Clause>, Box<Clause>),
    Without(Box<Clause>, Box<Clause>),
}

/// Texts with another one between two of them.
pub open spec fn between(list: Seq<Seq<char>>, mark: Seq<char>) -> Seq<char>
    decreases list.len(),
{
    if list.len() == 0 {
        Seq::empty()
    } else if list.len() == 1 {
        list[0]
    } else {
        between(list.drop_last(), mark) + mark + list.last()
    }
}

/// A text between double quotation marks.
pub open spec fn in_quotes(text: Seq<char>) -> Seq<char> {
    seq!['"'] + text + seq!['"']
}

/// One of the forms of a part.
pub open spec fn some_form(forms: Seq<Seq<char>>) -> Seq<char> {
    if forms.len() == 1 {
        in_quotes(forms[0])
    } else {
        seq!['('] + between(
            forms.map_values(|form: Seq<char>| in_quotes(form)),
            seq![' ', 'O', 'R', ' '],
        ) + seq![')']
    }
}

/// All of the parts.
pub open spec fn every_part(parts: Seq<Seq<Seq<char>>>) -> Seq<char> {
    if parts.len() == 1 {
        some_form(parts[0])
    } else {
        seq!['('] + between(
            parts.map_values(|forms: Seq<Seq<char>>| some_form(forms)),
            seq![' ', 'A', 'N', 'D', ' '],
        ) + seq![')']
    }
}

/// The name of a field with a colon, or nothing.
pub open spec fn field_mark(field: Option<Field>) -> Seq<char> {
    match field {
        None => Seq::empty(),
        Some(field) => field_word(field) + seq![':'],
    }
}

/// How a condition of the index is written.
pub open spec fn spelled(clause: Clause) -> Seq<char>
    decreases clause,
{
    match clause {
        Clause::Leaf { field, parts } => field_mark(field) + every_part(parts),
        Clause::Both(a, b) => seq!['('] + spelled(*a) + seq![' ', 'A', 'N', 'D', ' '] + spelled(*b)
            + seq![')'],
        Clause::Either(a, b) => seq!['('] + spelled(*a) + seq![' ', 'O', 'R', ' '] + spelled(*b)
            + seq![')'],
        Clause::Without(a, b) => seq!['('] + spelled(*a) + seq![' ', 'N', 'O', 'T', ' '] + spelled(
            *b,
        ) + seq![')'],
    }
}

/// The document has one of the forms in the field.
pub open spec fn has_form(finds: Finds, field: Option<Field>, forms: Seq<Seq<char>>) -> bool {
    exists|k: int| 0 <= k < forms.len() && finds(field, #[trigger] forms[k])
}

/// The document has each of the parts in the field.
pub open spec fn has_parts(
    finds: Finds,
    field: Option<Field>,
    parts: Seq<Seq<Seq<char>>>,
) -> bool {
    forall|i: int| 0 <= i < parts.len() ==> has_form(finds, field, #[trigger] parts[i])
}

/// The document meets a condition of the index.
pub open spec fn holds(clause: Clause, finds: Finds) -> bool
    decreases clause,
{
    match clause {
        Clause::Leaf { field, parts } => has_parts(finds, field, parts),
        Clause::Both(a, b) => holds(*a, finds) && holds(*b, finds),
        Clause::Either(a, b) => holds(*a, finds) || holds(*b, finds),
        Clause::Without(a, b) => holds(*a, finds) && !holds(*b, finds),
    }
}

/// What a text is looked for as: its synonyms as well, unless it is excluded.
pub open spec fn forms_of(setting: Setting, text: Seq<char>, asked: bool) -> Seq<Seq<char>> {
    if asked {
        expansion(setting.groups, text)
    } else {
        seq![text]
    }
}

/// What a word is split into: those of its parts that the index knows of, or the
/// word as it is.
pub open spec fn split(setting: Setting, text: Seq<char>) -> Seq<Seq<char>> {
    match setting.cut {
        None => seq![text],
        Some(words) => cut_words(words, text).filter(|part: Seq<char>| searchable(part)),
    }
}

/// The field that a word or phrase is looked for in: the one that it names, or that
/// of the query as a whole.
pub open spec fn sought_in(setting: Setting, field: Option<Field>) -> Option<Field> {
    match field {
        Some(field) => Some(field),
        None => setting.field,
    }
}

/// The document is what a query asks for.
pub open spec fn wanted(setting: Setting, tree: Tree, asked: bool, finds: Finds) -> bool
    decreases tree,
{
    match tree {
        Tree::Term { text, field } => {
            let parts = split(setting, text);
            forall|i: int|
                0 <= i < parts.len() ==> has_form(
                    finds,
                    sought_in(setting, field),
                    forms_of(setting, #[trigger] parts[i], asked),
                )
        },
        Tree::Phrase { text, field } => has_form(
            finds,
            sought_in(setting, field),
            forms_of(setting, text, asked),
        ),
        Tree::And(left, right) => wanted(setting, *left, asked, finds) && wanted(
            setting,
            *right,
            asked,
            finds,
        ),
        Tree::Or(left, right) => wanted(setting, *left, asked, finds) || wanted(
            setting,
            *right,
            asked,
            finds,
        ),
        Tree::Not(child) => !wanted(setting, *child, false, finds),
    }
}

/// The expression is that of a condition of the index which the documents meet that
/// the query asks for, and no others.
pub open spec fn finds_wanted(
    setting: Setting,
    tree: Tree,
    asked: bool,
    expression: Seq<char>,
    clause: Clause,
) -> bool {
    &&& spelled(clause) == expression
    &&& forall|finds: Finds|
        holds(clause, finds) == #[trigger] wanted(setting, tree, asked, finds)
}

proof fn lemma_joined(list: Seq<Seq<char>>, mark: Seq<char>)
    ensures
        joined(list, mark) == between(list, mark),
    decreases list.len(),
{
    if list.len() > 1 {
        lemma_joined(list.drop_last(), mark);
    }
}

proof fn lemma_marks()
    ensures
        "\""@ == seq!['"'],
        "("@ == seq!['('],
        ")"@ == seq![')'],
        " OR "@ == seq![' ', 'O', 'R', ' '],
        " AND "@ == seq![' ', 'A', 'N', 'D', ' '],
        " NOT "@ == seq![' ', 'N', 'O', 'T', ' '],
{
    reveal_strlit("\"");
    reveal_strlit("(");
    reveal_strlit(")");
    reveal_strlit(" OR ");
    reveal_strlit(" AND ");
    reveal_strlit(" NOT ");
    assert("\""@ =~= seq!['"']);
    assert("("@ =~= seq!['(']);
    assert(")"@ =~= seq![')']);
    assert(" OR "@ =~= seq![' ', 'O', 'R', ' ']);
    assert(" AND "@ =~= seq![' ', 'A', 'N', 'D', ' ']);
    assert(" NOT "@ =~= seq![' ', 'N', 'O', 'T', ' ']);
}

proof fn lemma_prefix(field: Option<Field>)
    ensures
        prefix(field) == field_mark(field),
{
    reveal_strlit("title:");
    reveal_strlit("content:");
    reveal_strlit("");
    assert("title:"@ =~= field_word(Field::Title) + seq![':']);
    assert("content:"@ =~= field_word(Field::Content) + seq![':']);
    assert(""@ =~= Seq::empty());
}

proof fn lemma_one_of(forms: Seq<Seq<char>>)
    requires
        one_of(forms) is Ok,
    ensures
        one_of(forms)->Ok_0 == some_form(forms),
{
    lemma_marks();
    let list = forms.map_values(|form: Seq<char>| in_quotes(form));
    assert(all_quoted(forms) =~= list);
    lemma_joined(list, " OR "@);
}

proof fn lemma_split(setting: Setting, text: Seq<char>)
    requires
        searchable(text),
    ensures
        filled(pieces_of(setting, text)) == split(setting, text),
{
    match setting.cut {
        None => {
            let one = seq![text];
            assert(text.len() > 0);
            assert(one.drop_last() =~= Seq::empty());
            reveal_with_fuel(filled, 2);
            assert(filled(one) =~= one);
        },
        Some(words) => {
            lemma_searchable_parts(cut_words(words, text));
        },
    }
}

proof fn lemma_searchable_parts(parts: Seq<Seq<char>>)
    ensures
        searchable_parts(parts) == parts.filter(|part: Seq<char>| searchable(part)),
        filled(searchable_parts(parts)) == searchable_parts(parts),
    decreases parts.len(),
{
    reveal(Seq::filter);
    if parts.len() > 0 {
        let init = parts.drop_last();
        lemma_searchable_parts(init);
        if searchable(parts.last()) {
            let before = searchable_parts(init);
            let all = before.push(parts.last());
            assert(parts.last().len() > 0);
            assert(all.drop_last() =~= before);
        }
    }
}

/// The forms of each of the parts of a word.
spec fn forms_of_all(setting: Setting, parts: Seq<Seq<char>>, asked: bool) -> Seq<Seq<Seq<char>>> {
    parts.map_values(|part: Seq<char>| forms_of(setting, part, asked))
}

proof fn lemma_each(setting: Setting, parts: Seq<Seq<char>>, asked: bool, found: Found)
    requires
        compile_each(setting, parts, asked, found) is Ok,
    ensures
        compile_each(setting, parts, asked, found)->Ok_0.0 == forms_of_all(
            setting,
            parts,
            asked,
        ).map_values(|forms: Seq<Seq<char>>| some_form(forms)),
    decreases parts.len(),
{
    let list = forms_of_all(setting, parts, asked);
    let all = list.map_values(|forms: Seq<Seq<char>>| some_form(forms));
    if parts.len() == 0 {
        assert(all =~= Seq::empty());
    } else {
        lemma_each(setting, parts.drop_last(), asked, found);
        let forms = forms_of(setting, parts.last(), asked);
        lemma_one_of(forms);
        let less = forms_of_all(setting, parts.drop_last(), asked);
        assert(list =~= less.push(forms));
        assert(all =~= less.map_values(|forms: Seq<Seq<char>>| some_form(forms)).push(
            some_form(forms),
        ));
    }
}

proof fn lemma_term(
    setting: Setting,
    text: Seq<char>,
    field: Option<Field>,
    asked: bool,
    found: Found,
) -> (clause: Clause)
    requires
        compile_tree(setting, Tree::Term { text, field }, asked, found) is Ok,
    ensures
        finds_wanted(
            setting,
            Tree::Term { text, field },
            asked,
            compile_tree(setting, Tree::Term { text, field }, asked, found)->Ok_0.0,
            clause,
        ),
{
    let tree = Tree::Term { text, field };
    lemma_split(setting, text);
    lemma_marks();
    let parts = split(setting, text);
    lemma_each(setting, parts, asked, found);
    let list = forms_of_all(setting, parts, asked);
    let all = list.map_values(|forms: Seq<Seq<char>>| some_form(forms));
    let place = sought_in(setting, field);
    lemma_prefix(place);
    lemma_joined(all, " AND "@);
    let clause = Clause::Leaf { field: place, parts: list };
    assert(all.len() == parts.len());
    if parts.len() == 1 {
        assert(all[0] == some_form(list[0]));
    }
    assert(compile_parts(setting, pieces_of(setting, text), asked, found)->Ok_0.0 == every_part(
        list,
    ));
    assert forall|finds: Finds| holds(clause, finds) == #[trigger] wanted(
        setting,
        tree,
        asked,
        finds,
    ) by {
        if holds(clause, finds) {
            assert forall|i: int| 0 <= i < parts.len() implies has_form(
                finds,
                place,
                forms_of(setting, #[trigger] parts[i], asked),
            ) by {
                assert(has_form(finds, place, list[i]));
            }
        }
        if wanted(setting, tree, asked, finds) {
            assert forall|i: int| 0 <= i < list.len() implies has_form(
                finds,
                place,
                #[trigger] list[i],
            ) by {
                assert(has_form(finds, place, forms_of(setting, parts[i], asked)));
            }
        }
    }
    clause
}

proof fn lemma_phrase(
    setting: Setting,
    text: Seq<char>,
    field: Option<Field>,
    asked: bool,
    found: Found,
) -> (clause: Clause)
    requires
        compile_tree(setting, Tree::Phrase { text, field }, asked, found) is Ok,
    ensures
        finds_wanted(
            setting,
            Tree::Phrase { text, field },
            asked,
            compile_tree(setting, Tree::Phrase { text, field }, asked, found)->Ok_0.0,
            clause,
        ),
{
    let tree = Tree::Phrase { text, field };
    let forms = forms_of(setting, text, asked);
    let list = seq![forms];
    let place = sought_in(setting, field);
    lemma_one_of(forms);
    lemma_prefix(place);
    let clause = Clause::Leaf { field: place, parts: list };
    assert(every_part(list) == some_form(forms));
    assert forall|finds: Finds| holds(clause, finds) == #[trigger] wanted(
        setting,
        tree,
        asked,
        finds,
    ) by {
        if holds(clause, finds) {
            assert(has_form(finds, place, list[0]));
        }
    }
    clause
}

/// What conditions joined by AND ask for, exclusions left out.
spec fn wanted_present(setting: Setting, tree: Tree, asked: bool, finds: Finds) -> bool
    decreases tree,
{
    match tree {
        Tree::And(left, right) => wanted_present(setting, *left, asked, finds) && wanted_present(
            setting,
            *right,
            asked,
            finds,
        ),
        Tree::Not(_) => true,
        _ => wanted(setting, tree, asked, finds),
    }
}

/// What conditions joined by AND exclude is not there.
spec fn wanted_absent(setting: Setting, tree: Tree, finds: Finds) -> bool
    decreases tree,
{
    match tree {
        Tree::And(left, right) => wanted_absent(setting, *left, finds) && wanted_absent(
            setting,
            *right,
            finds,
        ),
        Tree::Not(child) => !wanted(setting, *child, false, finds),
        _ => true,
    }
}

proof fn lemma_present_and_absent(setting: Setting, tree: Tree, asked: bool, finds: Finds)
    ensures
        wanted(setting, tree, asked, finds) <==> wanted_present(setting, tree, asked, finds)
            && wanted_absent(setting, tree, finds),
    decreases tree,
{
    match tree {
        Tree::And(left, right) => {
            lemma_present_and_absent(setting, *left, asked, finds);
            lemma_present_and_absent(setting, *right, asked, finds);
        },
        _ => {},
    }
}

/// An optional condition of the index.
spec fn holds_too(clause: Option<Clause>, finds: Finds) -> bool {
    clause is Some ==> holds(clause->0, finds)
}

/// An optional condition is written so.
spec fn spells_too(clause: Option<Clause>, expression: Option<Seq<char>>) -> bool {
    match clause {
        None => expression is None,
        Some(clause) => expression == Some(spelled(clause)),
    }
}

/// The second condition holds where the first does and what is asked for is there.
spec fn adds_present(
    setting: Setting,
    tree: Tree,
    asked: bool,
    clause: Option<Clause>,
    r: Option<Clause>,
) -> bool {
    forall|finds: Finds| #[trigger]
        holds_too(r, finds) == (wanted_present(setting, tree, asked, finds) && holds_too(
            clause,
            finds,
        ))
}

proof fn lemma_present(
    setting: Setting,
    tree: Tree,
    asked: bool,
    before: Option<Seq<char>>,
    clause: Option<Clause>,
    found: Found,
) -> (r: Option<Clause>)
    requires
        compile_present(setting, tree, asked, before, found) is Ok,
        spells_too(clause, before),
    ensures
        spells_too(r, compile_present(setting, tree, asked, before, found)->Ok_0.0),
        adds_present(setting, tree, asked, clause, r),
    decreases tree, 1int,
{
    match tree {
        Tree::And(left, right) => {
            let (first, mid) = compile_present(setting, *left, asked, before, found)->Ok_0;
            let a = lemma_present(setting, *left, asked, before, clause, found);
            let b = lemma_present(setting, *right, asked, first, a, mid);
            assert(adds_present(setting, tree, asked, clause, b)) by {
                assert forall|finds: Finds| #[trigger] holds_too(b, finds) == (wanted_present(
                    setting,
                    tree,
                    asked,
                    finds,
                ) && holds_too(clause, finds)) by {
                    assert(holds_too(a, finds) == (wanted_present(setting, *left, asked, finds)
                        && holds_too(clause, finds)));
                }
            }
            b
        },
        Tree::Not(_) => clause,
        _ => {
            let next = lemma_tree(setting, tree, asked, found);
            lemma_marks();
            match clause {
                None => {
                    assert forall|finds: Finds| #[trigger] holds_too(Some(next), finds) == (
                    wanted_present(setting, tree, asked, finds) && holds_too(
                        clause,
                        finds,
                    )) by {
                        assert(holds(next, finds) == wanted(setting, tree, asked, finds));
                    }
                    Some(next)
                },
                Some(c) => {
                    let both = Clause::Both(Box::new(c), Box::new(next));
                    assert forall|finds: Finds| #[trigger] holds_too(Some(both), finds) == (
                    wanted_present(setting, tree, asked, finds) && holds_too(
                        clause,
                        finds,
                    )) by {
                        assert(holds(next, finds) == wanted(setting, tree, asked, finds));
                    }
                    Some(both)
                },
            }
        },
    }
}

proof fn lemma_absent(
    setting: Setting,
    tree: Tree,
    before: Seq<char>,
    clause: Clause,
    found: Found,
) -> (r: Clause)
    requires
        compile_absent(setting, tree, before, found) is Ok,
        spelled(clause) == before,
    ensures
        spelled(r) == compile_absent(setting, tree, before, found)->Ok_0.0,
        forall|finds: Finds|
            holds(r, finds) == (#[trigger] wanted_absent(setting, tree, finds) && holds(
                clause,
                finds,
            )),
    decreases tree, 1int,
{
    match tree {
        Tree::And(left, right) => {
            let (first, mid) = compile_absent(setting, *left, before, found)->Ok_0;
            let a = lemma_absent(setting, *left, before, clause, found);
            let b = lemma_absent(setting, *right, first, a, mid);
            assert forall|finds: Finds| holds(b, finds) == (#[trigger] wanted_absent(
                setting,
                tree,
                finds,
            ) && holds(clause, finds)) by {
                assert(holds(b, finds) == (wanted_absent(setting, *right, finds) && holds(
                    a,
                    finds,
                )));
                assert(holds(a, finds) == (wanted_absent(setting, *left, finds) && holds(
                    clause,
                    finds,
                )));
            }
            b
        },
        Tree::Not(child) => {
            let next = lemma_tree(setting, *child, false, found);
            lemma_marks();
            let r = Clause::Without(Box::new(clause), Box::new(next));
            assert forall|finds: Finds| holds(r, finds) == (#[trigger] wanted_absent(
                setting,
                tree,
                finds,
            ) && holds(clause, finds)) by {
                assert(holds(next, finds) == wanted(setting, *child, false, finds));
            }
            r
        },
        _ => clause,
    }
}

proof fn lemma_tree(setting: Setting, tree: Tree, asked: bool, found: Found) -> (clause: Clause)
    requires
        compile_tree(setting, tree, asked, found) is Ok,
    ensures
        finds_wanted(
            setting,
            tree,
            asked,
            compile_tree(setting, tree, asked, found)->Ok_0.0,
            clause,
        ),
    decreases tree, 0int,
{
    match tree {
        Tree::Term { text, field } => lemma_term(setting, text, field, asked, found),
        Tree::Phrase { text, field } => lemma_phrase(setting, text, field, asked, found),
        Tree::Or(left, right) => {
            let (_, mid) = compile_tree(setting, *left, asked, found)->Ok_0;
            let a = lemma_tree(setting, *left, asked, found);
            let b = lemma_tree(setting, *right, asked, mid);
            lemma_marks();
            let r = Clause::Either(Box::new(a), Box::new(b));
            assert forall|finds: Finds| holds(r, finds) == #[trigger] wanted(
                setting,
                tree,
                asked,
                finds,
            ) by {
                assert(holds(a, finds) == wanted(setting, *left, asked, finds));
                assert(holds(b, finds) == wanted(setting, *right, asked, finds));
            }
            r
        },
        Tree::And(left, right) => {
            let (before, f1) = compile_present(setting, *left, asked, None, found)->Ok_0;
            let (expression, f2) = compile_present(setting, *right, asked, before, f1)->Ok_0;
            let (less, f3) = compile_absent(setting, *left, expression->0, f2)->Ok_0;
            let a = lemma_present(setting, *left, asked, None, None, found);
            let b = lemma_present(setting, *right, asked, before, a, f1);
            let c = lemma_absent(setting, *left, expression->0, b->0, f2);
            let d = lemma_absent(setting, *right, less, c, f3);
            assert forall|finds: Finds| holds(d, finds) == #[trigger] wanted(
                setting,
                tree,
                asked,
                finds,
            ) by {
                lemma_present_and_absent(setting, *left, asked, finds);
                lemma_present_and_absent(setting, *right, asked, finds);
                assert(holds(d, finds) == (wanted_absent(setting, *right, finds) && holds(
                    c,
                    finds,
                )));
                assert(holds(c, finds) == (wanted_absent(setting, *left, finds) && holds(
                    b->0,
                    finds,
                )));
                assert(holds_too(b, finds) == (wanted_present(setting, *right, asked, finds)
                    && holds_too(a, finds)));
                assert(holds_too(a, finds) == (wanted_present(setting, *left, asked, finds)
                    && holds_too(None, finds)));
            }
            d
        },
        Tree::Not(_) => arbitrary(),
    }
}

/// The expression of a query is met by the documents that the query asks for, and by
/// no others: words and phrases are looked for in the fields that are named, AND, OR
/// and NOT mean what they say, and synonyms count for what is asked for alone.
pub proof fn law_expressions_find_what_is_asked_for(setting: Setting, input: Seq<char>)
    requires
        answer(setting, input) is Ok,
    ensures
        ({
            let tree = read_query(lex_from(input, 0)->Ok_0)->Ok_0;
            exists|clause: Clause| #[trigger]
                finds_wanted(setting, tree, true, answer(setting, input)->Ok_0.0, clause)
        }),
{
    let tree = read_query(lex_from(input, 0)->Ok_0)->Ok_0;
    let clause = lemma_tree(setting, tree, true, Found { literals: Seq::empty(), extra: 0 });
    assert(finds_wanted(setting, tree, true, answer(setting, input)->Ok_0.0, clause));
}

/// A word or phrase of the query is looked for as this text.
pub open spec fn looks_for(setting: Setting, tree: Tree, text: Seq<char>) -> bool
    decreases tree,
{
    match tree {
        Tree::Term { text: word, .. } => exists|i: int|
            0 <= i < split(setting, word).len() && expansion(
                setting.groups,
                #[trigger] split(setting, word)[i],
            ).contains(text),
        Tree::Phrase { text: phrase, .. } => expansion(setting.groups, phrase).contains(text),
        Tree::And(left, right) => looks_for(setting, *left, text) || looks_for(
            setting,
            *right,
            text,
        ),
        Tree::Or(left, right) => looks_for(setting, *left, text) || looks_for(setting, *right, text),
        Tree::Not(_) => false,
    }
}

proof fn lemma_noted_holds(list: Seq<Seq<char>>, items: Seq<Seq<char>>, text: Seq<char>)
    ensures
        noted(list, items).contains(text) <==> list.contains(text) || items.contains(text),
    decreases items.len(),
{
    if items.len() > 0 {
        let init = items.drop_last();
        let last = items.last();
        lemma_noted_holds(list, init, text);
        let before = noted(list, init);
        if items.contains(text) {
            let k = choose|k: int| 0 <= k < items.len() && items[k] == text;
            if k < init.len() {
                assert(init[k] == text);
            }
        }
        if init.contains(text) {
            let k = choose|k: int| 0 <= k < init.len() && init[k] == text;
            assert(items[k] == text);
        }
        assert(items[items.len() - 1] == last);
        let after = noted(list, items);
        if before.contains(text) {
            let k = choose|k: int| 0 <= k < before.len() && before[k] == text;
            assert(after[k] == text);
        }
        if after.contains(text) && !before.contains(text) {
            let k = choose|k: int| 0 <= k < after.len() && after[k] == text;
            if k < before.len() {
                assert(before[k] == text);
            }
        }
        if text == last && !before.contains(last) {
            assert(after[before.len() as int] == last);
        }
    }
}

proof fn lemma_in_sum(a: Seq<Seq<char>>, b: Seq<Seq<char>>, text: Seq<char>)
    ensures
        (a + b).contains(text) <==> a.contains(text) || b.contains(text),
{
    let all = a + b;
    if all.contains(text) {
        let k = choose|k: int| 0 <= k < all.len() && all[k] == text;
        if k < a.len() {
            assert(a[k] == text);
        } else {
            assert(b[k - a.len()] == text);
        }
    }
    if a.contains(text) {
        let k = choose|k: int| 0 <= k < a.len() && a[k] == text;
        assert(all[k] == text);
    }
    if b.contains(text) {
        let k = choose|k: int| 0 <= k < b.len() && b[k] == text;
        assert(all[a.len() + k] == text);
    }
}

proof fn lemma_parts_hold(setting: Setting, parts: Seq<Seq<char>>, text: Seq<char>)
    ensures
        parts_mentioned(setting, parts).contains(text) <==> exists|i: int|
            0 <= i < parts.len() && expansion(setting.groups, #[trigger] parts[i]).contains(text),
    decreases parts.len(),
{
    if parts.len() > 0 {
        let init = parts.drop_last();
        let last = parts.len() - 1;
        lemma_parts_hold(setting, init, text);
        lemma_in_sum(
            parts_mentioned(setting, init),
            variants(setting, parts.last(), true),
            text,
        );
        if parts_mentioned(setting, init).contains(text) {
            let i = choose|i: int|
                0 <= i < init.len() && expansion(setting.groups, #[trigger] init[i]).contains(text);
            assert(parts[i] == init[i]);
        }
        if exists|i: int|
            0 <= i < parts.len() && expansion(setting.groups, #[trigger] parts[i]).contains(text) {
            let i = choose|i: int|
                0 <= i < parts.len() && expansion(setting.groups, #[trigger] parts[i]).contains(
                    text,
                );
            if i < last {
                assert(init[i] == parts[i]);
            }
        }
        assert(parts[last] == parts.last());
    }
}

/// Every word of the query can be searched for.
spec fn all_searchable(tree: Tree) -> bool
    decreases tree,
{
    match tree {
        Tree::Term { text, .. } => searchable(text),
        Tree::Phrase { .. } => true,
        Tree::And(left, right) => all_searchable(*left) && all_searchable(*right),
        Tree::Or(left, right) => all_searchable(*left) && all_searchable(*right),
        Tree::Not(_) => true,
    }
}

proof fn lemma_compiled_searchable(setting: Setting, tree: Tree, asked: bool, found: Found)
    requires
        compile_tree(setting, tree, asked, found) is Ok,
    ensures
        all_searchable(tree),
    decreases tree, 0int,
{
    match tree {
        Tree::Or(left, right) => {
            lemma_compiled_searchable(setting, *left, asked, found);
            let (_, mid) = compile_tree(setting, *left, asked, found)->Ok_0;
            lemma_compiled_searchable(setting, *right, asked, mid);
        },
        Tree::And(left, right) => {
            lemma_present_searchable(setting, *left, asked, None, found);
            let (before, mid) = compile_present(setting, *left, asked, None, found)->Ok_0;
            lemma_present_searchable(setting, *right, asked, before, mid);
        },
        _ => {},
    }
}

proof fn lemma_present_searchable(
    setting: Setting,
    tree: Tree,
    asked: bool,
    before: Option<Seq<char>>,
    found: Found,
)
    requires
        compile_present(setting, tree, asked, before, found) is Ok,
    ensures
        all_searchable(tree),
    decreases tree, 1int,
{
    match tree {
        Tree::And(left, right) => {
            lemma_present_searchable(setting, *left, asked, before, found);
            let (next, mid) = compile_present(setting, *left, asked, before, found)->Ok_0;
            lemma_present_searchable(setting, *right, asked, next, mid);
        },
        Tree::Not(_) => {},
        _ => {
            lemma_compiled_searchable(setting, tree, asked, found);
        },
    }
}

proof fn lemma_mentioned_holds(setting: Setting, tree: Tree, text: Seq<char>)
    requires
        all_searchable(tree),
    ensures
        mentioned(setting, tree).contains(text) <==> looks_for(setting, tree, text),
    decreases tree,
{
    match tree {
        Tree::Term { text: word, .. } => {
            lemma_split(setting, word);
            lemma_parts_hold(setting, split(setting, word), text);
        },
        Tree::And(left, right) => {
            lemma_mentioned_holds(setting, *left, text);
            lemma_mentioned_holds(setting, *right, text);
            lemma_in_sum(mentioned(setting, *left), mentioned(setting, *right), text);
        },
        Tree::Or(left, right) => {
            lemma_mentioned_holds(setting, *left, text);
            lemma_mentioned_holds(setting, *right, text);
            lemma_in_sum(mentioned(setting, *left), mentioned(setting, *right), text);
        },
        _ => {},
    }
}

/// The literals of a query are the texts that its words and phrases are looked for
/// as, what is excluded left out.
pub proof fn law_literals_are_what_is_looked_for(
    setting: Setting,
    input: Seq<char>,
    text: Seq<char>,
)
    requires
        answer(setting, input) is Ok,
    ensures
        ({
            let tree = read_query(lex_from(input, 0)->Ok_0)->Ok_0;
            answer(setting, input)->Ok_0.1.contains(text) <==> looks_for(setting, tree, text)
        }),
{
    let tree = read_query(lex_from(input, 0)->Ok_0)->Ok_0;
    law_literals_in_order_of_appearance(setting, input);
    lemma_compiled_searchable(setting, tree, true, Found { literals: Seq::empty(), extra: 0 });
    lemma_mentioned_holds(setting, tree, text);
    lemma_noted_holds(Seq::empty(), mentioned(setting, tree), text);
}

/// No synonyms, and words that are kept whole.
pub open spec fn exact(field: Option<Field>) -> Setting {
    Setting { groups: Seq::empty(), cut: None, field }
}

/// A word or phrase that can be looked for.
pub open spec fn can_be_found(token: Lexeme) -> bool {
    match token {
        Lexeme::Word(text) => searchable(text) && !text.contains('*'),
        Lexeme::Number(text) => searchable(text),
        Lexeme::Phrase(text) => text.len() > 0 && !text.contains('*') && !text.contains('"'),
        _ => false,
    }
}

/// What a word or phrase is.
pub open spec fn text_of(token: Lexeme) -> Seq<char> {
    match token {
        Lexeme::Word(text) => text,
        Lexeme::Number(text) => text,
        Lexeme::Phrase(text) => text,
        _ => Seq::empty(),
    }
}

/// A query for one word, number or phrase in a field is met by what has it in that
/// field, whatever kind of token it is and whatever the field of the query as a
/// whole.
pub proof fn law_one_word_in_a_field(
    scope: Option<Field>,
    field: Field,
    written: Seq<char>,
    token: Lexeme,
)
    requires
        writes(written, token),
        can_be_found(token),
        written.len() <= 490,
    ensures
        answer(exact(scope), in_a_field(field, written)) == Ok::<
            (Seq<char>, Seq<Seq<char>>),
            Seq<char>,
        >((field_word(field) + seq![':'] + in_quotes(text_of(token)), seq![text_of(token)])),
{
    let text = text_of(token);
    let setting = exact(scope);
    let none = Found { literals: Seq::empty(), extra: 0 };
    law_field_queries_have_three_tokens(field, written, token);
    crate::grammar_laws::law_fields_are_kept(token, text, field);
    lemma_leaf_compiles(setting, token, Some(field));
    lemma_prefix(Some(field));
}

/// The condition of one token.
spec fn leaf_of(token: Lexeme, field: Option<Field>) -> Tree {
    if token is Phrase {
        Tree::Phrase { text: text_of(token), field }
    } else {
        Tree::Term { text: text_of(token), field }
    }
}

proof fn lemma_leaf_compiles(setting: Setting, token: Lexeme, field: Option<Field>)
    requires
        setting.groups.len() == 0,
        setting.cut is None,
        can_be_found(token),
        token is Word ==> !text_of(token).contains('"'),
        token is Number ==> crate::grammar_laws::all_numerals(text_of(token)),
    ensures
        ({
            let none = Found { literals: Seq::empty(), extra: 0 };
            let made = compile_tree(setting, leaf_of(token, field), true, none);
            &&& made is Ok
            &&& made->Ok_0.0 == field_mark(sought_in(setting, field)) + in_quotes(text_of(token))
            &&& made->Ok_0.1.literals == seq![text_of(token)]
        }),
{
    let text = text_of(token);
    let none = Found { literals: Seq::empty(), extra: 0 };
    assert(expansion(setting.groups, text) == seq![text]) by {
        assert(crate::dict::group_of(setting.groups, crate::text::lowered(text)) is None);
    }
    if token is Number {
        assert forall|i: int| 0 <= i < text.len() implies text[i] != '*' && text[i] != '"' by {
            assert('0' <= text[i] && text[i] <= '9');
        }
    }
    assert(text.len() > 0);
    let forms = seq![text];
    assert(quotable(text));
    assert(one_of(forms) is Ok) by {
        assert forall|i: int| 0 <= i < forms.len() implies quotable(#[trigger] forms[i]) by {}
    }
    lemma_one_of(forms);
    lemma_prefix(sought_in(setting, field));
    assert(noted(Seq::empty(), forms) == seq![text]) by {
        reveal_with_fuel(noted, 2);
        assert(forms.drop_last() =~= Seq::empty());
        assert(Seq::<Seq<char>>::empty().push(text) =~= seq![text]);
    }
    let made = compile_text(setting, text, true, none);
    assert(made is Ok);
    assert(made->Ok_0.0 == in_quotes(text));
    if !(token is Phrase) {
        lemma_split(setting, text);
        assert(forms.drop_last() =~= Seq::empty());
        reveal_with_fuel(compile_each, 2);
        assert(Seq::<Seq<char>>::empty().push(in_quotes(text)) =~= seq![in_quotes(text)]);
    }
}

/// A query for one word, number or phrase is met by what has it in the field of the
/// query as a whole.
pub proof fn law_one_word(scope: Option<Field>, written: Seq<char>, token: Lexeme)
    requires
        writes(written, token),
        can_be_found(token),
        written.len() <= 500,
    ensures
        answer(exact(scope), written) == Ok::<(Seq<char>, Seq<Seq<char>>), Seq<char>>(
            (field_mark(scope) + in_quotes(text_of(token)), seq![text_of(token)]),
        ),
{
    let none = Seq::<char>::empty();
    let words = seq![written];
    let gaps = seq![none, none];
    let tokens = seq![token];
    assert(crate::lexing_laws::writes_all(words, gaps, tokens));
    crate::lexing_laws::law_tokens_are_found_again(words, gaps, tokens);
    reveal_with_fuel(crate::spelling_laws::written, 2);
    assert(words.skip(1) =~= Seq::empty());
    assert(gaps.skip(1) =~= seq![none]);
    assert(crate::spelling_laws::written(words, gaps) =~= written);
    let tree = leaf_of(token, None);
    let style = crate::grammar_laws::Style { and: false, not: false, full: false };
    assert(crate::grammar_laws::shown(tree, 0, style) =~= tokens);
    crate::grammar_laws::law_conditions_are_read_back(tree, style);
    lemma_leaf_compiles(exact(scope), token, None);
}

/// The forms of a word or phrase can stand in the expression.
pub open spec fn can_be_quoted(forms: Seq<Seq<char>>) -> bool {
    forall|i: int|
        0 <= i < forms.len() ==> (#[trigger] forms[i]).len() > 0 && !forms[i].contains('"')
            && !forms[i].contains('*')
}

/// Every word and phrase of the query can be looked for.
pub open spec fn can_be_looked_for(setting: Setting, tree: Tree, asked: bool) -> bool
    decreases tree,
{
    match tree {
        Tree::Term { text, .. } => {
            &&& !text.contains('*')
            &&& !text.contains('"')
            &&& searchable(text)
            &&& split(setting, text).len() > 0
            &&& forall|i: int|
                0 <= i < split(setting, text).len() ==> can_be_quoted(
                    forms_of(setting, #[trigger] split(setting, text)[i], asked),
                )
        },
        Tree::Phrase { text, .. } => can_be_quoted(forms_of(setting, text, asked)),
        Tree::And(left, right) => can_be_looked_for(setting, *left, asked) && can_be_looked_for(
            setting,
            *right,
            asked,
        ),
        Tree::Or(left, right) => can_be_looked_for(setting, *left, asked) && can_be_looked_for(
            setting,
            *right,
            asked,
        ),
        Tree::Not(child) => can_be_looked_for(setting, *child, false),
    }
}

/// How many forms there are beyond one for each part.
pub open spec fn more_forms(setting: Setting, parts: Seq<Seq<char>>, asked: bool) -> int
    decreases parts.len(),
{
    if parts.len() == 0 {
        0
    } else {
        more_forms(setting, parts.drop_last(), asked) + forms_of(
            setting,
            parts.last(),
            asked,
        ).len() - 1
    }
}

/// How many forms synonyms add to a query.
pub open spec fn added_forms(setting: Setting, tree: Tree, asked: bool) -> int
    decreases tree,
{
    match tree {
        Tree::Term { text, .. } => more_forms(setting, split(setting, text), asked),
        Tree::Phrase { text, .. } => forms_of(setting, text, asked).len() - 1,
        Tree::And(left, right) => added_forms(setting, *left, asked) + added_forms(
            setting,
            *right,
            asked,
        ),
        Tree::Or(left, right) => added_forms(setting, *left, asked) + added_forms(
            setting,
            *right,
            asked,
        ),
        Tree::Not(child) => added_forms(setting, *child, false),
    }
}

proof fn lemma_forms(setting: Setting, text: Seq<char>, asked: bool)
    ensures
        forms_of(setting, text, asked).len() >= 1,
        one_of(forms_of(setting, text, asked)) is Ok <==> can_be_quoted(
            forms_of(setting, text, asked),
        ),
        variants(setting, text, asked) == forms_of(setting, text, asked),
{
    lemma_expansion_has_members(setting.groups, text);
    let forms = forms_of(setting, text, asked);
    if can_be_quoted(forms) {
        assert forall|i: int| 0 <= i < forms.len() implies quotable(#[trigger] forms[i]) by {}
    }
    if !can_be_quoted(forms) {
        let i = choose|i: int|
            0 <= i < forms.len() && !((#[trigger] forms[i]).len() > 0 && !forms[i].contains('"')
                && !forms[i].contains('*'));
        assert(!quotable(forms[i]));
    }
}

proof fn lemma_more_forms(setting: Setting, parts: Seq<Seq<char>>, asked: bool)
    ensures
        more_forms(setting, parts, asked) >= 0,
    decreases parts.len(),
{
    if parts.len() > 0 {
        lemma_more_forms(setting, parts.drop_last(), asked);
        lemma_forms(setting, parts.last(), asked);
    }
}

proof fn lemma_added_forms(setting: Setting, tree: Tree, asked: bool)
    ensures
        added_forms(setting, tree, asked) >= 0,
    decreases tree,
{
    match tree {
        Tree::Term { text, .. } => {
            lemma_more_forms(setting, split(setting, text), asked);
        },
        Tree::Phrase { text, .. } => {
            lemma_forms(setting, text, asked);
        },
        Tree::And(left, right) => {
            lemma_added_forms(setting, *left, asked);
            lemma_added_forms(setting, *right, asked);
        },
        Tree::Or(left, right) => {
            lemma_added_forms(setting, *left, asked);
            lemma_added_forms(setting, *right, asked);
        },
        Tree::Not(child) => {
            lemma_added_forms(setting, *child, false);
        },
    }
}

proof fn lemma_each_made(setting: Setting, parts: Seq<Seq<char>>, asked: bool, found: Found)
    requires
        found.extra <= 64,
    ensures
        compile_each(setting, parts, asked, found) is Ok <==> (forall|i: int|
            0 <= i < parts.len() ==> can_be_quoted(forms_of(setting, #[trigger] parts[i], asked)))
            && found.extra + more_forms(setting, parts, asked) <= 64,
        compile_each(setting, parts, asked, found) is Ok ==> compile_each(
            setting,
            parts,
            asked,
            found,
        )->Ok_0.1.extra == found.extra + more_forms(setting, parts, asked) && compile_each(
            setting,
            parts,
            asked,
            found,
        )->Ok_0.0.len() == parts.len(),
    decreases parts.len(),
{
    if parts.len() > 0 {
        let init = parts.drop_last();
        let last = parts.len() - 1;
        lemma_each_made(setting, init, asked, found);
        lemma_forms(setting, parts.last(), asked);
        lemma_more_forms(setting, init, asked);
        assert(parts[last] == parts.last());
        if forall|i: int|
            0 <= i < parts.len() ==> can_be_quoted(forms_of(setting, #[trigger] parts[i], asked)) {
            assert forall|i: int| 0 <= i < init.len() implies can_be_quoted(
                forms_of(setting, #[trigger] init[i], asked),
            ) by {
                assert(init[i] == parts[i]);
            }
        }
        if compile_each(setting, parts, asked, found) is Ok {
            assert forall|i: int| 0 <= i < parts.len() implies can_be_quoted(
                forms_of(setting, #[trigger] parts[i], asked),
            ) by {
                if i < last {
                    assert(init[i] == parts[i]);
                }
            }
        }
    }
}

/// What is asked for of conditions joined by AND.
spec fn present_forms(setting: Setting, tree: Tree, asked: bool) -> int
    decreases tree,
{
    match tree {
        Tree::And(left, right) => present_forms(setting, *left, asked) + present_forms(
            setting,
            *right,
            asked,
        ),
        Tree::Not(_) => 0,
        _ => added_forms(setting, tree, asked),
    }
}

/// What is excluded of conditions joined by AND.
spec fn absent_forms(setting: Setting, tree: Tree) -> int
    decreases tree,
{
    match tree {
        Tree::And(left, right) => absent_forms(setting, *left) + absent_forms(setting, *right),
        Tree::Not(child) => added_forms(setting, *child, false),
        _ => 0,
    }
}

spec fn present_fine(setting: Setting, tree: Tree, asked: bool) -> bool
    decreases tree,
{
    match tree {
        Tree::And(left, right) => present_fine(setting, *left, asked) && present_fine(
            setting,
            *right,
            asked,
        ),
        Tree::Not(_) => true,
        _ => can_be_looked_for(setting, tree, asked),
    }
}

spec fn absent_fine(setting: Setting, tree: Tree) -> bool
    decreases tree,
{
    match tree {
        Tree::And(left, right) => absent_fine(setting, *left) && absent_fine(setting, *right),
        Tree::Not(child) => can_be_looked_for(setting, *child, false),
        _ => true,
    }
}

proof fn lemma_two_passes(setting: Setting, tree: Tree, asked: bool)
    ensures
        added_forms(setting, tree, asked) == present_forms(setting, tree, asked) + absent_forms(
            setting,
            tree,
        ),
        can_be_looked_for(setting, tree, asked) <==> present_fine(setting, tree, asked)
            && absent_fine(setting, tree),
        present_forms(setting, tree, asked) >= 0,
        absent_forms(setting, tree) >= 0,
    decreases tree,
{
    lemma_added_forms(setting, tree, asked);
    match tree {
        Tree::And(left, right) => {
            lemma_two_passes(setting, *left, asked);
            lemma_two_passes(setting, *right, asked);
        },
        Tree::Not(child) => {
            lemma_added_forms(setting, *child, false);
        },
        _ => {},
    }
}

proof fn lemma_excludes_nothing_asks(tree: Tree)
    requires
        excludes_nothing(tree),
    ensures
        asks(tree),
    decreases tree,
{
    match tree {
        Tree::And(left, right) => {
            lemma_excludes_nothing_asks(*left);
        },
        Tree::Or(left, right) => {
            lemma_excludes_nothing_asks(*left);
        },
        _ => {},
    }
}

proof fn lemma_present_made(
    setting: Setting,
    tree: Tree,
    asked: bool,
    before: Option<Seq<char>>,
    found: Found,
)
    requires
        sensible(tree),
        found.extra <= 64,
    ensures
        ({
            let made = compile_present(setting, tree, asked, before, found);
            &&& made is Ok <==> present_fine(setting, tree, asked) && found.extra + present_forms(
                setting,
                tree,
                asked,
            ) <= 64
            &&& made is Ok ==> made->Ok_0.1.extra == found.extra + present_forms(
                setting,
                tree,
                asked,
            )
            &&& made is Ok ==> (made->Ok_0.0 is Some <==> before is Some || asks(tree))
        }),
    decreases tree, 1int,
{
    match tree {
        Tree::And(left, right) => {
            lemma_two_passes(setting, *left, asked);
            lemma_two_passes(setting, *right, asked);
            lemma_present_made(setting, *left, asked, before, found);
            if let Ok((next, mid)) = compile_present(setting, *left, asked, before, found) {
                lemma_present_made(setting, *right, asked, next, mid);
            }
        },
        Tree::Not(_) => {},
        _ => {
            lemma_made(setting, tree, asked, found);
        },
    }
}

proof fn lemma_absent_made(setting: Setting, tree: Tree, before: Seq<char>, found: Found)
    requires
        sensible(tree),
        found.extra <= 64,
    ensures
        ({
            let made = compile_absent(setting, tree, before, found);
            &&& made is Ok <==> absent_fine(setting, tree) && found.extra + absent_forms(
                setting,
                tree,
            ) <= 64
            &&& made is Ok ==> made->Ok_0.1.extra == found.extra + absent_forms(setting, tree)
        }),
    decreases tree, 1int,
{
    match tree {
        Tree::And(left, right) => {
            lemma_two_passes(setting, *left, false);
            lemma_two_passes(setting, *right, false);
            lemma_absent_made(setting, *left, before, found);
            if let Ok((next, mid)) = compile_absent(setting, *left, before, found) {
                lemma_absent_made(setting, *right, next, mid);
            }
        },
        Tree::Not(child) => {
            lemma_excludes_nothing_asks(*child);
            lemma_made(setting, *child, false, found);
        },
        _ => {},
    }
}

proof fn lemma_made(setting: Setting, tree: Tree, asked: bool, found: Found)
    requires
        sensible(tree),
        asks(tree),
        found.extra <= 64,
    ensures
        ({
            let made = compile_tree(setting, tree, asked, found);
            &&& made is Ok <==> can_be_looked_for(setting, tree, asked) && found.extra + added_forms(
                setting,
                tree,
                asked,
            ) <= 64
            &&& made is Ok ==> made->Ok_0.1.extra == found.extra + added_forms(setting, tree, asked)
        }),
    decreases tree, 0int,
{
    match tree {
        Tree::Term { text, field } => {
            if !text.contains('*') && !text.contains('"') && searchable(text) {
                lemma_split(setting, text);
                lemma_each_made(setting, split(setting, text), asked, found);
            }
        },
        Tree::Phrase { text, field } => {
            lemma_forms(setting, text, asked);
        },
        Tree::Or(left, right) => {
            lemma_added_forms(setting, *right, asked);
            lemma_made(setting, *left, asked, found);
            if let Ok((_, mid)) = compile_tree(setting, *left, asked, found) {
                lemma_made(setting, *right, asked, mid);
            }
        },
        Tree::And(left, right) => {
            lemma_two_passes(setting, *left, asked);
            lemma_two_passes(setting, *right, asked);
            lemma_two_passes(setting, tree, asked);
            lemma_present_made(setting, *left, asked, None, found);
            if let Ok((before, f1)) = compile_present(setting, *left, asked, None, found) {
                lemma_present_made(setting, *right, asked, before, f1);
                if let Ok((Some(e), f2)) = compile_present(setting, *right, asked, before, f1) {
                    lemma_absent_made(setting, *left, e, f2);
                    if let Ok((less, f3)) = compile_absent(setting, *left, e, f2) {
                        lemma_absent_made(setting, *right, less, f3);
                    }
                }
            }
        },
        Tree::Not(_) => {},
    }
}

/// A condition that makes sense is turned into an expression exactly when each of its
/// words and phrases can be looked for, and synonyms add 64 forms at most.
pub proof fn law_which_conditions_are_searched(setting: Setting, tree: Tree)
    requires
        sensible(tree),
        asks(tree),
    ensures
        compile_tree(setting, tree, true, Found { literals: Seq::empty(), extra: 0 }) is Ok
            <==> can_be_looked_for(setting, tree, true) && added_forms(setting, tree, true) <= 64,
{
    lemma_made(setting, tree, true, Found { literals: Seq::empty(), extra: 0 });
}

} // verus!
