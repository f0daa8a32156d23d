//! Which literals a query has: those of its positive conditions, in the order in
//! which they first appear.

use vstd::prelude::*;

use crate::dict::lemma_expansion_has_members;
use crate::query::{
    answer, compile_absent, compile_each, compile_present, compile_text, compile_tree, filled,
    lex_from, noted, pieces_of, read_query, variants, Found, Setting, Tree,
};

verus! {

/// What the parts of a word are searched as, one part behind the other.
pub open spec fn parts_mentioned(setting: Setting, parts: Seq<Seq<char>>) -> Seq<Seq<char>>
    decreases parts.len(),
{
    if parts.len() == 0 {
        Seq::empty()
    } else {
        parts_mentioned(setting, parts.drop_last()) + variants(setting, parts.last(), true)
    }
}

/// What the positive conditions of a query are searched as, from left to right.
pub open spec fn mentioned(setting: Setting, tree: Tree) -> Seq<Seq<char>>
    decreases tree,
{
    match tree {
        Tree::Not(_) => Seq::empty(),
        Tree::And(left, right) => mentioned(setting, *left) + mentioned(setting, *right),
        Tree::Or(left, right) => mentioned(setting, *left) + mentioned(setting, *right),
        Tree::Phrase { text, .. } => variants(setting, text, true),
        Tree::Term { text, .. } => parts_mentioned(setting, filled(pieces_of(setting, text))),
    }
}

proof fn lemma_noted_twice(list: Seq<Seq<char>>, a: Seq<Seq<char>>, b: Seq<Seq<char>>)
    ensures
        noted(noted(list, a), b) == noted(list, a + b),
    decreases b.len(),
{
    if b.len() == 0 {
        assert(a + b =~= a);
    } else {
        lemma_noted_twice(list, a, b.drop_last());
        assert((a + b).drop_last() =~= a + b.drop_last());
        assert((a + b).last() == b.last());
    }
}

proof fn lemma_noted_grows(list: Seq<Seq<char>>, items: Seq<Seq<char>>)
    ensures
        items.len() > 0 ==> noted(list, items).len() > 0,
    decreases items.len(),
{
    if items.len() > 1 {
        lemma_noted_grows(list, items.drop_last());
    }
}

/// The literals after a condition was compiled.
spec fn with_mentioned(
    found: Found,
    items: Seq<Seq<char>>,
    positive: bool,
    next: Found,
) -> bool {
    next.literals == if positive {
        noted(found.literals, items)
    } else {
        found.literals
    }
}

proof fn lemma_each_mentioned(
    setting: Setting,
    pieces: Seq<Seq<char>>,
    positive: bool,
    found: Found,
)
    ensures
        compile_each(setting, pieces, positive, found) is Ok ==> with_mentioned(
            found,
            parts_mentioned(setting, pieces),
            positive,
            compile_each(setting, pieces, positive, found)->Ok_0.1,
        ),
    decreases pieces.len(),
{
    if pieces.len() > 0 {
        lemma_each_mentioned(setting, pieces.drop_last(), positive, found);
        lemma_noted_twice(
            found.literals,
            parts_mentioned(setting, pieces.drop_last()),
            variants(setting, pieces.last(), true),
        );
    }
}

proof fn lemma_parts_mentioned(setting: Setting, parts: Seq<Seq<char>>)
    ensures
        parts.len() > 0 ==> parts_mentioned(setting, parts).len() > 0,
{
    if parts.len() > 0 {
        lemma_expansion_has_members(setting.groups, parts.last());
    }
}

proof fn lemma_tree_mentioned(setting: Setting, tree: Tree, positive: bool, found: Found)
    ensures
        compile_tree(setting, tree, positive, found) is Ok ==> {
            &&& with_mentioned(
                found,
                mentioned(setting, tree),
                positive,
                compile_tree(setting, tree, positive, found)->Ok_0.1,
            )
            &&& mentioned(setting, tree).len() > 0
        },
    decreases tree, 0int,
{
    match tree {
        Tree::Not(_) => {},
        Tree::And(left, right) => {
            let a = mentioned(setting, *left);
            let b = mentioned(setting, *right);
            lemma_noted_twice(found.literals, a, b);
            lemma_present_mentioned(setting, *left, positive, None, found);
            if let Ok((before, found)) = compile_present(setting, *left, positive, None, found) {
                lemma_present_mentioned(setting, *right, positive, before, found);
                if let Ok((Some(expression), found)) = compile_present(
                    setting,
                    *right,
                    positive,
                    before,
                    found,
                ) {
                    lemma_absent_mentioned(setting, *left, expression, found);
                    if let Ok((expression, found)) = compile_absent(
                        setting,
                        *left,
                        expression,
                        found,
                    ) {
                        lemma_absent_mentioned(setting, *right, expression, found);
                    }
                }
            }
        },
        Tree::Or(left, right) => {
            let a = mentioned(setting, *left);
            let b = mentioned(setting, *right);
            lemma_noted_twice(found.literals, a, b);
            lemma_tree_mentioned(setting, *left, positive, found);
            if let Ok((_, found)) = compile_tree(setting, *left, positive, found) {
                lemma_tree_mentioned(setting, *right, positive, found);
            }
        },
        Tree::Phrase { text, field } => {
            lemma_expansion_has_members(setting.groups, text);
            assert(compile_text(setting, text, positive, found) is Ok ==> with_mentioned(
                found,
                mentioned(setting, tree),
                positive,
                compile_text(setting, text, positive, found)->Ok_0.1,
            ));
        },
        Tree::Term { text, field } => {
            let parts = filled(pieces_of(setting, text));
            lemma_parts_mentioned(setting, parts);
            lemma_each_mentioned(setting, parts, positive, found);
        },
    }
}

proof fn lemma_present_mentioned(
    setting: Setting,
    tree: Tree,
    positive: bool,
    before: Option<Seq<char>>,
    found: Found,
)
    ensures
        compile_present(setting, tree, positive, before, found) is Ok ==> {
            let (after, next) = compile_present(setting, tree, positive, before, found)->Ok_0;
            &&& with_mentioned(found, mentioned(setting, tree), positive, next)
            &&& before is None && after is Some ==> mentioned(setting, tree).len() > 0
        },
    decreases tree, 1int,
{
    match tree {
        Tree::And(left, right) => {
            let a = mentioned(setting, *left);
            let b = mentioned(setting, *right);
            lemma_noted_twice(found.literals, a, b);
            lemma_present_mentioned(setting, *left, positive, before, found);
            if let Ok((before, found)) = compile_present(setting, *left, positive, before, found) {
                lemma_present_mentioned(setting, *right, positive, before, found);
            }
        },
        Tree::Not(_) => {},
        _ => {
            lemma_tree_mentioned(setting, tree, positive, found);
        },
    }
}

proof fn lemma_absent_mentioned(setting: Setting, tree: Tree, before: Seq<char>, found: Found)
    ensures
        compile_absent(setting, tree, before, found) is Ok ==> compile_absent(
            setting,
            tree,
            before,
            found,
        )->Ok_0.1.literals == found.literals,
    decreases tree, 1int,
{
    match tree {
        Tree::And(left, right) => {
            lemma_absent_mentioned(setting, *left, before, found);
            if let Ok((before, found)) = compile_absent(setting, *left, before, found) {
                lemma_absent_mentioned(setting, *right, before, found);
            }
        },
        Tree::Not(child) => {
            lemma_tree_mentioned(setting, *child, false, found);
        },
        _ => {},
    }
}

/// The literals of a query that is accepted are what its positive conditions are
/// searched as, in the order of first appearance, and there is at least one.
pub proof fn law_literals_in_order_of_appearance(setting: Setting, input: Seq<char>)
    requires
        answer(setting, input) is Ok,
    ensures
        ({
            let tree = read_query(lex_from(input, 0)->Ok_0)->Ok_0;
            let literals = answer(setting, input)->Ok_0.1;
            &&& literals == noted(Seq::empty(), mentioned(setting, tree))
            &&& literals.len() > 0
        }),
{
    let tree = read_query(lex_from(input, 0)->Ok_0)->Ok_0;
    lemma_tree_mentioned(setting, tree, true, Found { literals: Seq::empty(), extra: 0 });
    lemma_noted_grows(Seq::empty(), mentioned(setting, tree));
}

} // verus!
