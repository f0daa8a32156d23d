//! The query language: lexing and recursive descent into an expression for
//! the full-text index.
//!
//! - White space separates; `( ) : , -` are tokens of their own; `'` and `"`
//!   enclose phrases.
//! - A word ends at white space or at one of `():,'"-`; a word of ASCII digits
//!   is a number; AND, OR and NOT are recognised in any case.
//! - `title:` and `content:` are field prefixes; neighbours are joined by AND.
//! - Inside a group with a field no other field can be named.
//! - `-x` and `NOT x` exclude; exclusions cannot be nested, both sides of OR
//!   need a positive condition, and so does the query as a whole.
//! - Words and phrases with `*` or `"` are refused, and so are queries that are
//!   too long.

use vstd::prelude::*;
use vstd::string::StringExecFns;

use crate::dict;
use crate::dict::{
    cut_words, expansion, lemma_expansion_has_members, lookup, searchable_parts, Dictionary,
    Segmenter, Synonyms, MAX_EXTRA_VARIANTS,
};
use crate::text::{
    byte_len, chars_of, digit, holds_char, is_digit, is_space, join, joined, lemma_offset_monotonic,
    lowered, same, space, string_of, texts,
};
use crate::tokenize::{has_tokens, searchable};

verus! {

/// The field that is searched where the query names none.
#[derive(Debug, Clone, Copy, PartialEq, Eq, Structural)]
pub enum Scope {
    All,
    Title,
    Content,
}

/// Most characters of a query.
pub const MAX_QUERY_CHARS: usize = 500;

/// A compiled query: the expression for the index, and the literals of all
/// positive conditions, each once, in the order of appearance.
#[derive(Debug)]
pub struct CompiledQuery {
    pub match_expr: String,
    pub literals: Vec<String>,
}

/// What is wrong with a query.
#[derive(Debug)]
pub struct QueryError(pub String);

impl QueryError {
    /// The message as it is shown.
    pub fn message(&self) -> (s: String)
        ensures
            s@ == "搜索语法错误:"@ + self.0@,
    {
        let mut s = "搜索语法错误:".to_owned();
        s.append(self.0.as_str());
        s
    }
}

fn syntax(message: &str) -> (e: QueryError)
    ensures
        e.0@ == message@,
{
    QueryError(message.to_owned())
}

/// A field of the index.
#[derive(Debug, Clone, Copy, PartialEq, Eq, Structural)]
pub enum Field {
    Title,
    Content,
}

/// A token of the query language.
#[derive(Debug)]
pub enum Token {
    Word(String),
    Phrase(String),
    And,
    Or,
    Not,
    LParen,
    RParen,
    Colon,
    Comma,
    Minus,
    Number(String),
}

/// What a token holds.
pub enum Lexeme {
    Word(Seq<char>),
    Phrase(Seq<char>),
    And,
    Or,
    Not,
    LParen,
    RParen,
    Colon,
    Comma,
    Minus,
    Number(Seq<char>),
}

impl View for Token {
    type V = Lexeme;

    open spec fn view(&self) -> Lexeme {
        match self {
            Token::Word(v) => Lexeme::Word(v@),
            Token::Phrase(v) => Lexeme::Phrase(v@),
            Token::And => Lexeme::And,
            Token::Or => Lexeme::Or,
            Token::Not => Lexeme::Not,
            Token::LParen => Lexeme::LParen,
            Token::RParen => Lexeme::RParen,
            Token::Colon => Lexeme::Colon,
            Token::Comma => Lexeme::Comma,
            Token::Minus => Lexeme::Minus,
            Token::Number(v) => Lexeme::Number(v@),
        }
    }
}

pub open spec fn lexemes(tokens: Seq<Token>) -> Seq<Lexeme> {
    tokens.map_values(|token: Token| token@)
}

/// A character at which a word ends.
pub open spec fn word_end(c: char) -> bool {
    space(c) || c == '(' || c == ')' || c == ':' || c == ',' || c == '\'' || c == '"' || c == '-'
}

fn is_word_end(c: char) -> (r: bool)
    ensures
        r == word_end(c),
{
    is_space(c) || c == '(' || c == ')' || c == ':' || c == ',' || c == '\'' || c == '"' || c == '-'
}

/// Index of the first `mark` at `i` or behind it; the length where there is none.
pub open spec fn next_mark(s: Seq<char>, i: int, mark: char) -> int
    decreases s.len() - i,
{
    if i < 0 || i >= s.len() || s[i] == mark {
        i
    } else {
        next_mark(s, i + 1, mark)
    }
}

/// Index of the first character at `i` or behind it at which a word ends.
pub open spec fn next_end(s: Seq<char>, i: int) -> int
    decreases s.len() - i,
{
    if i < 0 || i >= s.len() || word_end(s[i]) {
        i
    } else {
        next_end(s, i + 1)
    }
}

/// The same word, whatever the case of its ASCII letters.
pub open spec fn keyword(word: Seq<char>, name: Seq<char>) -> bool {
    lowered(word) == lowered(name)
}

/// The token that a word stands for.
pub open spec fn word_lexeme(word: Seq<char>) -> Lexeme {
    if forall|i: int| 0 <= i < word.len() ==> digit(#[trigger] word[i]) {
        Lexeme::Number(word)
    } else if keyword(word, "AND"@) {
        Lexeme::And
    } else if keyword(word, "OR"@) {
        Lexeme::Or
    } else if keyword(word, "NOT"@) {
        Lexeme::Not
    } else {
        Lexeme::Word(word)
    }
}

/// The token that a single character stands for.
pub open spec fn symbol(c: char) -> Option<Lexeme> {
    if c == '(' {
        Some(Lexeme::LParen)
    } else if c == ')' {
        Some(Lexeme::RParen)
    } else if c == ':' {
        Some(Lexeme::Colon)
    } else if c == ',' {
        Some(Lexeme::Comma)
    } else if c == '-' {
        Some(Lexeme::Minus)
    } else {
        None
    }
}

/// Tokens in front of a lexing result.
pub open spec fn prefixed(
    head: Seq<Lexeme>,
    rest: Result<Seq<Lexeme>, Seq<char>>,
) -> Result<Seq<Lexeme>, Seq<char>> {
    match rest {
        Ok(tail) => Ok(head + tail),
        Err(message) => Err(message),
    }
}

/// The tokens from the `i`-th character on, or what is wrong there.
pub open spec fn lex_from(s: Seq<char>, i: int) -> Result<Seq<Lexeme>, Seq<char>>
    decreases s.len() - i,
    via lex_from_decreases
{
    if i < 0 || i >= s.len() {
        Ok(Seq::empty())
    } else if space(s[i]) {
        lex_from(s, i + 1)
    } else if symbol(s[i]) is Some {
        prefixed(seq![symbol(s[i])->0], lex_from(s, i + 1))
    } else if s[i] == '\'' || s[i] == '"' {
        let end = next_mark(s, i + 1, s[i]);
        if end >= s.len() {
            Err("引号没有闭合"@)
        } else if end == i + 1 {
            Err("短语不能为空"@)
        } else {
            prefixed(seq![Lexeme::Phrase(s.subrange(i + 1, end))], lex_from(s, end + 1))
        }
    } else {
        let end = next_end(s, i);
        prefixed(seq![word_lexeme(s.subrange(i, end))], lex_from(s, end))
    }
}

#[via_fn]
proof fn lex_from_decreases(s: Seq<char>, i: int) {
    if 0 <= i < s.len() {
        lemma_next_mark(s, i + 1, s[i]);
        lemma_next_end(s, i);
    }
}

proof fn lemma_next_mark(s: Seq<char>, i: int, mark: char)
    requires
        0 <= i <= s.len(),
    ensures
        i <= next_mark(s, i, mark) <= s.len(),
    decreases s.len() - i,
{
    if i < s.len() && s[i] != mark {
        lemma_next_mark(s, i + 1, mark);
    }
}

proof fn lemma_next_end(s: Seq<char>, i: int)
    requires
        0 <= i <= s.len(),
    ensures
        i <= next_end(s, i) <= s.len(),
        i < s.len() && !word_end(s[i]) ==> i < next_end(s, i),
    decreases s.len() - i,
{
    if i < s.len() && !word_end(s[i]) {
        lemma_next_end(s, i + 1);
    }
}

/// The result of lexing, without the representation.
pub open spec fn lexed(r: Result<Vec<Token>, QueryError>) -> Result<Seq<Lexeme>, Seq<char>> {
    match r {
        Ok(tokens) => Ok(lexemes(tokens@)),
        Err(e) => Err(e.0@),
    }
}

fn is_keyword(word: &String, name: &str) -> (r: bool)
    ensures
        r == keyword(word@, name@),
{
    let word = crate::text::to_lowered(word.as_str());
    let name = crate::text::to_lowered(name);
    same(word.as_str(), name.as_str())
}

fn word_token(word: String) -> (token: Token)
    ensures
        token@ == word_lexeme(word@),
{
    let chars = chars_of(word.as_str());
    let mut digits = true;
    let mut i: usize = 0;
    while i < chars.len()
        invariant
            i <= chars@.len(),
            digits <==> forall|k: int| 0 <= k < i ==> digit(#[trigger] chars@[k]),
        decreases chars@.len() - i,
    {
        digits = digits && is_digit(chars[i]);
        i += 1;
    }
    if digits {
        Token::Number(word)
    } else if is_keyword(&word, "AND") {
        Token::And
    } else if is_keyword(&word, "OR") {
        Token::Or
    } else if is_keyword(&word, "NOT") {
        Token::Not
    } else {
        Token::Word(word)
    }
}

fn symbol_token(c: char) -> (token: Option<Token>)
    ensures
        (match token {
            Some(token) => Some(token@),
            None => None,
        }) == symbol(c),
{
    if c == '(' {
        Some(Token::LParen)
    } else if c == ')' {
        Some(Token::RParen)
    } else if c == ':' {
        Some(Token::Colon)
    } else if c == ',' {
        Some(Token::Comma)
    } else if c == '-' {
        Some(Token::Minus)
    } else {
        None
    }
}

proof fn lemma_prefixed(head: Seq<Lexeme>, next: Lexeme, rest: Result<Seq<Lexeme>, Seq<char>>)
    ensures
        prefixed(head, prefixed(seq![next], rest)) == prefixed(head.push(next), rest),
{
    if rest is Ok {
        assert(head + (seq![next] + rest->Ok_0) =~= head.push(next) + rest->Ok_0);
    }
}

/// Splits a query into tokens.
pub fn tokenize(input: &str) -> (r: Result<Vec<Token>, QueryError>)
    ensures
        lexed(r) == lex_from(input@, 0),
{
    let chars = chars_of(input);
    let ghost s = input@;
    let mut tokens: Vec<Token> = Vec::new();
    let mut i: usize = 0;
    proof {
        assert(lexemes(tokens@) =~= Seq::empty());
        if lex_from(s, 0) is Ok {
            assert(Seq::<Lexeme>::empty() + lex_from(s, 0)->Ok_0 =~= lex_from(s, 0)->Ok_0);
        }
    }
    while i < chars.len()
        invariant
            chars@ == s,
            s == input@,
            i <= s.len(),
            prefixed(lexemes(tokens@), lex_from(s, i as int)) == lex_from(s, 0),
        decreases s.len() - i,
    {
        let c = chars[i];
        let start = i;
        let ghost before = lexemes(tokens@);
        if is_space(c) {
            i += 1;
            continue ;
        }
        if let Some(token) = symbol_token(c) {
            i += 1;
            proof {
                lemma_prefixed(before, token@, lex_from(s, i as int));
            }
            tokens.push(token);
            assert(lexemes(tokens@) =~= before.push(tokens@.last()@));
            continue ;
        }
        if c == '\'' || c == '"' {
            i += 1;
            while i < chars.len() && chars[i] != c
                invariant
                    chars@ == s,
                    start < i <= s.len(),
                    next_mark(s, start + 1, c) == next_mark(s, i as int, c),
                decreases s.len() - i,
            {
                i += 1;
            }
            if i >= chars.len() {
                return Err(syntax("引号没有闭合"));
            }
            if i == start + 1 {
                return Err(syntax("短语不能为空"));
            }
            let token = Token::Phrase(string_of(&chars, start + 1, i));
            i += 1;
            proof {
                lemma_prefixed(before, token@, lex_from(s, i as int));
            }
            tokens.push(token);
            assert(lexemes(tokens@) =~= before.push(tokens@.last()@));
            continue ;
        }
        while i < chars.len() && !is_word_end(chars[i])
            invariant
                chars@ == s,
                start <= i <= s.len(),
                next_end(s, start as int) == next_end(s, i as int),
            decreases s.len() - i,
        {
            i += 1;
        }
        proof {
            lemma_next_end(s, start as int);
        }
        let token = word_token(string_of(&chars, start, i));
        proof {
            lemma_prefixed(before, token@, lex_from(s, i as int));
        }
        tokens.push(token);
        assert(lexemes(tokens@) =~= before.push(tokens@.last()@));
    }
    assert(lexemes(tokens@) + Seq::<Lexeme>::empty() =~= lexemes(tokens@));
    Ok(tokens)
}

/// A condition of a query.
#[derive(Debug)]
pub enum Node {
    Term { text: String, field: Option<Field> },
    Phrase { text: String, field: Option<Field> },
    And(Box<Node>, Box<Node>),
    Or(Box<Node>, Box<Node>),
    Not(Box<Node>),
}

/// What a condition says.
pub enum Tree {
    Term { text: Seq<char>, field: Option<Field> },
    Phrase { text: Seq<char>, field: Option<Field> },
    And(Box<Tree>, Box<Tree>),
    Or(Box<Tree>, Box<Tree>),
    Not(Box<Tree>),
}

/// What a condition says, without the representation.
pub open spec fn tree_of(node: Node) -> Tree
    decreases node,
{
    match node {
        Node::Term { text, field } => Tree::Term { text: text@, field },
        Node::Phrase { text, field } => Tree::Phrase { text: text@, field },
        Node::And(left, right) => Tree::And(Box::new(tree_of(*left)), Box::new(tree_of(*right))),
        Node::Or(left, right) => Tree::Or(Box::new(tree_of(*left)), Box::new(tree_of(*right))),
        Node::Not(child) => Tree::Not(Box::new(tree_of(*child))),
    }
}

impl View for Node {
    type V = Tree;

    open spec fn view(&self) -> Tree {
        tree_of(*self)
    }
}

/// A condition is met by something that is present.
pub open spec fn positive(tree: Tree) -> bool
    decreases tree,
{
    match tree {
        Tree::Not(_) => false,
        Tree::Term { .. } | Tree::Phrase { .. } => true,
        Tree::And(left, right) => positive(*left) || positive(*right),
        Tree::Or(left, right) => positive(*left) || positive(*right),
    }
}

/// What is wrong with the exclusions of a condition, read from left to right.
/// `excluded` tells that the condition is itself excluded.
pub open spec fn negation_problem(tree: Tree, excluded: bool) -> Option<Seq<char>>
    decreases tree,
{
    match tree {
        Tree::Not(child) => if excluded {
            Some("不支持双否定或嵌套排除"@)
        } else {
            negation_problem(*child, true)
        },
        Tree::And(left, right) => match negation_problem(*left, excluded) {
            Some(message) => Some(message),
            None => negation_problem(*right, excluded),
        },
        Tree::Or(left, right) => match negation_problem(*left, excluded) {
            Some(message) => Some(message),
            None => match negation_problem(*right, excluded) {
                Some(message) => Some(message),
                None => if positive(*left) && positive(*right) {
                    None
                } else {
                    Some("OR 的每个分支都必须包含正向条件"@)
                },
            },
        },
        Tree::Term { .. } | Tree::Phrase { .. } => None,
    }
}

/// Some word or phrase of the condition names a field.
pub open spec fn names_field(tree: Tree) -> bool
    decreases tree,
{
    match tree {
        Tree::Term { field, .. } => field is Some,
        Tree::Phrase { field, .. } => field is Some,
        Tree::And(left, right) => names_field(*left) || names_field(*right),
        Tree::Or(left, right) => names_field(*left) || names_field(*right),
        Tree::Not(child) => names_field(*child),
    }
}

/// The condition with the field on all its words and phrases.
pub open spec fn fielded(tree: Tree, field: Field) -> Tree
    decreases tree,
{
    match tree {
        Tree::Term { text, .. } => Tree::Term { text, field: Some(field) },
        Tree::Phrase { text, .. } => Tree::Phrase { text, field: Some(field) },
        Tree::And(left, right) => Tree::And(
            Box::new(fielded(*left, field)),
            Box::new(fielded(*right, field)),
        ),
        Tree::Or(left, right) => Tree::Or(
            Box::new(fielded(*left, field)),
            Box::new(fielded(*right, field)),
        ),
        Tree::Not(child) => Tree::Not(Box::new(fielded(*child, field))),
    }
}

/// No word or phrase has more than `n` characters.
pub open spec fn within(tree: Tree, n: int) -> bool
    decreases tree,
{
    match tree {
        Tree::Term { text, .. } => text.len() <= n,
        Tree::Phrase { text, .. } => text.len() <= n,
        Tree::And(left, right) => within(*left, n) && within(*right, n),
        Tree::Or(left, right) => within(*left, n) && within(*right, n),
        Tree::Not(child) => within(*child, n),
    }
}

impl Node {
    /// Rejects nested exclusions, and OR with a side that only excludes.
    pub fn validate_negation(&self, excluded: bool) -> (r: Result<(), QueryError>)
        ensures
            (match r {
                Ok(_) => None,
                Err(e) => Some(e.0@),
            }) == negation_problem(self@, excluded),
        decreases self,
    {
        match self {
            Node::Not(child) => if excluded {
                Err(syntax("不支持双否定或嵌套排除"))
            } else {
                child.validate_negation(true)
            },
            Node::And(left, right) => match left.validate_negation(excluded) {
                Err(e) => Err(e),
                Ok(_) => right.validate_negation(excluded),
            },
            Node::Or(left, right) => match left.validate_negation(excluded) {
                Err(e) => Err(e),
                Ok(_) => match right.validate_negation(excluded) {
                    Err(e) => Err(e),
                    Ok(_) => if left.has_positive() && right.has_positive() {
                        Ok(())
                    } else {
                        Err(syntax("OR 的每个分支都必须包含正向条件"))
                    },
                },
            },
            Node::Term { .. } | Node::Phrase { .. } => Ok(()),
        }
    }

    /// Whether the condition is met by something that is present.
    pub fn has_positive(&self) -> (r: bool)
        ensures
            r == positive(self@),
        decreases self,
    {
        match self {
            Node::Not(_) => false,
            Node::Term { .. } | Node::Phrase { .. } => true,
            Node::And(left, right) => left.has_positive() || right.has_positive(),
            Node::Or(left, right) => left.has_positive() || right.has_positive(),
        }
    }
}

/// `field:(...)` puts the field on all words and phrases of the group, and is
/// refused where one of them has a field already.
pub fn apply_field(node: Node, field: Field) -> (r: Result<Node, QueryError>)
    ensures
        r is Ok <==> !names_field(node@),
        r is Ok ==> r->Ok_0@ == fielded(node@, field),
        r is Err ==> r->Err_0.0@
            == "字段分组内不能再次指定字段，请将字段条件移到分组外"@,
    decreases node,
{
    match node {
        Node::Term { text, field: own } => if own.is_some() {
            Err(syntax("字段分组内不能再次指定字段，请将字段条件移到分组外"))
        } else {
            Ok(Node::Term { text, field: Some(field) })
        },
        Node::Phrase { text, field: own } => if own.is_some() {
            Err(syntax("字段分组内不能再次指定字段，请将字段条件移到分组外"))
        } else {
            Ok(Node::Phrase { text, field: Some(field) })
        },
        Node::Not(child) => match apply_field(*child, field) {
            Err(e) => Err(e),
            Ok(child) => Ok(Node::Not(Box::new(child))),
        },
        Node::And(left, right) => match apply_field(*left, field) {
            Err(e) => Err(e),
            Ok(left) => match apply_field(*right, field) {
                Err(e) => Err(e),
                Ok(right) => Ok(Node::And(Box::new(left), Box::new(right))),
            },
        },
        Node::Or(left, right) => match apply_field(*left, field) {
            Err(e) => Err(e),
            Ok(left) => match apply_field(*right, field) {
                Err(e) => Err(e),
                Ok(right) => Ok(Node::Or(Box::new(left), Box::new(right))),
            },
        },
    }
}

/// A condition and the index of the token behind it, or what is wrong.
pub type Reading = Result<(Tree, int), Seq<char>>;

/// What follows a condition that was read from the `i`-th token on: the
/// reading as it is where it failed. A condition takes at least one token.
pub open spec fn took(reading: Reading, i: int, t: Seq<Lexeme>) -> bool {
    reading is Ok && i < reading->Ok_0.1 <= t.len()
}

/// The `i`-th token can start a condition without an operator in front.
pub open spec fn starts_condition(t: Seq<Lexeme>, i: int) -> bool {
    t[i] is Word || t[i] is Number || t[i] is Phrase || t[i] == Lexeme::LParen || t[i]
        == Lexeme::Minus
}

/// Conditions joined by OR, which binds least.
pub open spec fn read_or(t: Seq<Lexeme>, i: int) -> Reading
    decreases t.len() - i, 6int,
{
    let first = read_and(t, i);
    if took(first, i, t) {
        read_or_rest(t, first->Ok_0.0, first->Ok_0.1)
    } else {
        first
    }
}

/// Further alternatives behind `left`.
pub open spec fn read_or_rest(t: Seq<Lexeme>, left: Tree, i: int) -> Reading
    decreases t.len() - i, 5int,
{
    if 0 <= i < t.len() && t[i] == Lexeme::Or {
        let next = read_and(t, i + 1);
        if took(next, i + 1, t) {
            read_or_rest(t, Tree::Or(Box::new(left), Box::new(next->Ok_0.0)), next->Ok_0.1)
        } else {
            next
        }
    } else {
        Ok((left, i))
    }
}

/// Conditions joined by AND, written or not, or by NOT.
pub open spec fn read_and(t: Seq<Lexeme>, i: int) -> Reading
    decreases t.len() - i, 4int,
{
    let first = read_unary(t, i);
    if took(first, i, t) {
        read_and_rest(t, first->Ok_0.0, first->Ok_0.1)
    } else {
        first
    }
}

/// Further conditions that have to hold together with `left`.
pub open spec fn read_and_rest(t: Seq<Lexeme>, left: Tree, i: int) -> Reading
    decreases t.len() - i, 3int,
{
    if 0 <= i < t.len() && (t[i] == Lexeme::And || t[i] == Lexeme::Not) {
        let next = read_unary(t, i + 1);
        if took(next, i + 1, t) {
            let right = if t[i] == Lexeme::Not {
                Tree::Not(Box::new(next->Ok_0.0))
            } else {
                next->Ok_0.0
            };
            read_and_rest(t, Tree::And(Box::new(left), Box::new(right)), next->Ok_0.1)
        } else {
            next
        }
    } else if 0 <= i < t.len() && starts_condition(t, i) {
        let next = read_unary(t, i);
        if took(next, i, t) {
            read_and_rest(t, Tree::And(Box::new(left), Box::new(next->Ok_0.0)), next->Ok_0.1)
        } else {
            next
        }
    } else {
        Ok((left, i))
    }
}

/// A condition with the exclusions in front of it.
pub open spec fn read_unary(t: Seq<Lexeme>, i: int) -> Reading
    decreases t.len() - i, 2int,
{
    if 0 <= i < t.len() && (t[i] == Lexeme::Minus || t[i] == Lexeme::Not) {
        match read_unary(t, i + 1) {
            Ok((child, j)) => Ok((Tree::Not(Box::new(child)), j)),
            Err(message) => Err(message),
        }
    } else {
        read_primary(t, i, None)
    }
}

/// A word, a phrase or a group, with the field that was named in front of it.
pub open spec fn read_primary(t: Seq<Lexeme>, i: int, field: Option<Field>) -> Reading
    decreases t.len() - i, 1int,
{
    if i < 0 || i >= t.len() {
        Err("缺少词语、短语或括号条件"@)
    } else if t[i] is Word && i + 1 < t.len() && t[i + 1] == Lexeme::Colon {
        let name = t[i]->Word_0;
        if name != "title"@ && name != "content"@ {
            Err("未知字段“"@ + name + "”"@)
        } else if field is Some {
            Err("字段条件内不能再次指定字段，请将字段条件移到分组外"@)
        } else if name == "title"@ {
            read_primary(t, i + 2, Some(Field::Title))
        } else {
            read_primary(t, i + 2, Some(Field::Content))
        }
    } else {
        match t[i] {
            Lexeme::Word(text) => Ok((Tree::Term { text, field }, i + 1)),
            Lexeme::Number(text) => Ok((Tree::Term { text, field }, i + 1)),
            Lexeme::Phrase(text) => Ok((Tree::Phrase { text, field }, i + 1)),
            Lexeme::LParen => match read_or(t, i + 1) {
                Err(message) => Err(message),
                Ok((group, j)) => if j >= t.len() {
                    Err("条件不完整"@)
                } else if t[j] != Lexeme::RParen {
                    Err("括号不匹配"@)
                } else {
                    match field {
                        None => Ok((group, j + 1)),
                        Some(field) => if names_field(group) {
                            Err("字段分组内不能再次指定字段，请将字段条件移到分组外"@)
                        } else {
                            Ok((fielded(group, field), j + 1))
                        },
                    }
                },
            },
            _ => Err("缺少词语、短语或括号条件"@),
        }
    }
}

/// The condition that a whole query states, or what is wrong with it.
pub open spec fn read_query(t: Seq<Lexeme>) -> Result<Tree, Seq<char>> {
    if t.len() == 0 {
        Err("查询不能为空"@)
    } else {
        match read_or(t, 0) {
            Err(message) => Err(message),
            Ok((tree, i)) => if i < t.len() {
                Err("存在无法识别的尾部条件"@)
            } else {
                match negation_problem(tree, false) {
                    Some(message) => Err(message),
                    None => if positive(tree) {
                        Ok(tree)
                    } else {
                        Err("查询必须包含至少一个正向条件"@)
                    },
                }
            },
        }
    }
}

/// The result of reading a condition, without the representation.
pub open spec fn reading(r: Result<(Node, usize), QueryError>) -> Reading {
    match r {
        Ok((node, i)) => Ok((node@, i as int)),
        Err(e) => Err(e.0@),
    }
}

/// No token holds more than `n` characters.
pub open spec fn tokens_within(t: Seq<Lexeme>, n: int) -> bool {
    forall|i: int|
        #![trigger t[i]]
        0 <= i < t.len() ==> match t[i] {
            Lexeme::Word(text) => text.len() <= n,
            Lexeme::Number(text) => text.len() <= n,
            Lexeme::Phrase(text) => text.len() <= n,
            _ => true,
        }
}

/// What every reading has: it moves on, and its words come from the tokens.
spec fn sound(r: Result<(Node, usize), QueryError>, i: int, t: Seq<Lexeme>) -> bool {
    match r {
        Ok((node, j)) => i < j <= t.len() && (tokens_within(t, MAX_QUERY_CHARS as int)
            ==> within(node@, MAX_QUERY_CHARS as int)),
        Err(_) => true,
    }
}

proof fn lemma_fielded_within(tree: Tree, field: Field, n: int)
    ensures
        within(fielded(tree, field), n) == within(tree, n),
    decreases tree,
{
    match tree {
        Tree::Not(child) => lemma_fielded_within(*child, field, n),
        Tree::And(left, right) => {
            lemma_fielded_within(*left, field, n);
            lemma_fielded_within(*right, field, n);
        },
        Tree::Or(left, right) => {
            lemma_fielded_within(*left, field, n);
            lemma_fielded_within(*right, field, n);
        },
        _ => {},
    }
}

/// Reads conditions from a list of tokens.
pub struct Parser<'a> {
    pub tokens: &'a Vec<Token>,
}

impl<'a> Parser<'a> {
    /// The query as a whole.
    pub fn parse(&self) -> (r: Result<Node, QueryError>)
        ensures
            (match r {
                Ok(node) => Ok(node@),
                Err(e) => Err(e.0@),
            }) == read_query(lexemes(self.tokens@)),
            r is Ok && tokens_within(lexemes(self.tokens@), MAX_QUERY_CHARS as int) ==> within(
                r->Ok_0@,
                MAX_QUERY_CHARS as int,
            ),
    {
        if self.tokens.len() == 0 {
            return Err(syntax("查询不能为空"));
        }
        match self.parse_or(0) {
            Err(e) => Err(e),
            Ok((node, i)) => {
                if i < self.tokens.len() {
                    return Err(syntax("存在无法识别的尾部条件"));
                }
                match node.validate_negation(false) {
                    Err(e) => Err(e),
                    Ok(_) => if node.has_positive() {
                        Ok(node)
                    } else {
                        Err(syntax("查询必须包含至少一个正向条件"))
                    },
                }
            },
        }
    }

    fn parse_or(&self, index: usize) -> (r: Result<(Node, usize), QueryError>)
        requires
            index <= self.tokens@.len(),
        ensures
            reading(r) == read_or(lexemes(self.tokens@), index as int),
            sound(r, index as int, lexemes(self.tokens@)),
        decreases self.tokens@.len() - index, 6int,
    {
        let ghost t = lexemes(self.tokens@);
        let (mut left, mut i) = match self.parse_and(index) {
            Err(e) => return Err(e),
            Ok((node, i)) => (node, i),
        };
        while i < self.tokens.len() && matches!(self.tokens[i], Token::Or)
            invariant
                t == lexemes(self.tokens@),
                index < i <= t.len(),
                read_or_rest(t, left@, i as int) == read_or(t, index as int),
                tokens_within(t, MAX_QUERY_CHARS as int) ==> within(
                    left@,
                    MAX_QUERY_CHARS as int,
                ),
            decreases t.len() - i,
        {
            assert(t[i as int] == self.tokens@[i as int]@);
            match self.parse_and(i + 1) {
                Err(e) => return Err(e),
                Ok((node, next)) => {
                    left = Node::Or(Box::new(left), Box::new(node));
                    i = next;
                },
            }
        }
        proof {
            if i < t.len() {
                assert(t[i as int] == self.tokens@[i as int]@);
            }
        }
        Ok((left, i))
    }

    fn parse_and(&self, index: usize) -> (r: Result<(Node, usize), QueryError>)
        requires
            index <= self.tokens@.len(),
        ensures
            reading(r) == read_and(lexemes(self.tokens@), index as int),
            sound(r, index as int, lexemes(self.tokens@)),
        decreases self.tokens@.len() - index, 4int,
    {
        let ghost t = lexemes(self.tokens@);
        let (mut left, mut i) = match self.parse_unary(index) {
            Err(e) => return Err(e),
            Ok((node, i)) => (node, i),
        };
        while i < self.tokens.len()
            invariant
                t == lexemes(self.tokens@),
                index < i <= t.len(),
                read_and_rest(t, left@, i as int) == read_and(t, index as int),
                tokens_within(t, MAX_QUERY_CHARS as int) ==> within(
                    left@,
                    MAX_QUERY_CHARS as int,
                ),
            decreases t.len() - i,
        {
            assert(t[i as int] == self.tokens@[i as int]@);
            let excluded = matches!(self.tokens[i], Token::Not);
            let joined = excluded || matches!(self.tokens[i], Token::And);
            if !joined && !starts_primary(&self.tokens[i]) {
                return Ok((left, i));
            }
            let start = if joined {
                i + 1
            } else {
                i
            };
            match self.parse_unary(start) {
                Err(e) => return Err(e),
                Ok((node, next)) => {
                    let ghost tree = node@;
                    let right = if excluded {
                        Node::Not(Box::new(node))
                    } else {
                        node
                    };
                    assert(right@ == if excluded {
                        Tree::Not(Box::new(tree))
                    } else {
                        tree
                    });
                    assert(within(tree, MAX_QUERY_CHARS as int) ==> within(
                        right@,
                        MAX_QUERY_CHARS as int,
                    ));
                    left = Node::And(Box::new(left), Box::new(right));
                    i = next;
                },
            }
        }
        Ok((left, i))
    }

    fn parse_unary(&self, index: usize) -> (r: Result<(Node, usize), QueryError>)
        requires
            index <= self.tokens@.len(),
        ensures
            reading(r) == read_unary(lexemes(self.tokens@), index as int),
            sound(r, index as int, lexemes(self.tokens@)),
        decreases self.tokens@.len() - index, 2int,
    {
        let ghost t = lexemes(self.tokens@);
        if index < self.tokens.len() {
            assert(t[index as int] == self.tokens@[index as int]@);
            if matches!(self.tokens[index], Token::Minus) || matches!(self.tokens[index], Token::Not) {
                return match self.parse_unary(index + 1) {
                    Err(e) => Err(e),
                    Ok((node, i)) => Ok((Node::Not(Box::new(node)), i)),
                };
            }
        }
        self.parse_primary(index, None)
    }

    fn parse_primary(&self, index: usize, field: Option<Field>) -> (r: Result<
        (Node, usize),
        QueryError,
    >)
        requires
            index <= self.tokens@.len(),
        ensures
            reading(r) == read_primary(lexemes(self.tokens@), index as int, field),
            sound(r, index as int, lexemes(self.tokens@)),
        decreases self.tokens@.len() - index, 1int,
    {
        let ghost t = lexemes(self.tokens@);
        if index >= self.tokens.len() {
            return Err(syntax("缺少词语、短语或括号条件"));
        }
        assert(t[index as int] == self.tokens@[index as int]@);
        if index + 1 < self.tokens.len() && matches!(self.tokens[index + 1], Token::Colon) {
            assert(t[index + 1] == self.tokens@[index + 1]@);
            if let Token::Word(name) = &self.tokens[index] {
                let title = same(name.as_str(), "title");
                if !title && !same(name.as_str(), "content") {
                    let mut message = "未知字段“".to_owned();
                    message.append(name.as_str());
                    message.append("”");
                    return Err(QueryError(message));
                }
                if field.is_some() {
                    return Err(syntax("字段条件内不能再次指定字段，请将字段条件移到分组外"));
                }
                let field = if title {
                    Field::Title
                } else {
                    Field::Content
                };
                return self.parse_primary(index + 2, Some(field));
            }
        }
        proof {
            if index + 1 < t.len() {
                assert(t[index + 1] == self.tokens@[index + 1]@);
            }
        }
        match &self.tokens[index] {
            Token::Word(text) => Ok((Node::Term { text: text.clone(), field }, index + 1)),
            Token::Number(text) => Ok((Node::Term { text: text.clone(), field }, index + 1)),
            Token::Phrase(text) => Ok((Node::Phrase { text: text.clone(), field }, index + 1)),
            Token::LParen => {
                let (group, i) = match self.parse_or(index + 1) {
                    Err(e) => return Err(e),
                    Ok((group, i)) => (group, i),
                };
                if i >= self.tokens.len() {
                    return Err(syntax("条件不完整"));
                }
                assert(t[i as int] == self.tokens@[i as int]@);
                if !matches!(self.tokens[i], Token::RParen) {
                    return Err(syntax("括号不匹配"));
                }
                match field {
                    None => Ok((group, i + 1)),
                    Some(field) => {
                        let ghost tree = group@;
                        match apply_field(group, field) {
                            Err(e) => Err(e),
                            Ok(node) => {
                                proof {
                                    lemma_fielded_within(tree, field, MAX_QUERY_CHARS as int);
                                }
                                Ok((node, i + 1))
                            },
                        }
                    },
                }
            },
            _ => Err(syntax("缺少词语、短语或括号条件")),
        }
    }
}

fn starts_primary(token: &Token) -> (r: bool)
    ensures
        r == (token@ is Word || token@ is Number || token@ is Phrase || token@ == Lexeme::LParen
            || token@ == Lexeme::Minus),
{
    match token {
        Token::Word(_) | Token::Number(_) | Token::Phrase(_) | Token::LParen | Token::Minus => true,
        _ => false,
    }
}

/// What was gathered while conditions were compiled.
pub struct Found {
    /// The literals of positive conditions, each once.
    pub literals: Seq<Seq<char>>,
    /// The variants that synonyms added.
    pub extra: int,
}

/// What a query is compiled against.
pub struct Setting {
    /// The groups of synonyms.
    pub groups: Seq<Seq<Seq<char>>>,
    /// The words that segmentation knows; `None` keeps each word whole.
    pub cut: Option<Seq<(Seq<char>, Option<usize>)>>,
    /// The field of conditions that name none.
    pub field: Option<Field>,
}

/// An expression for the index with what was gathered, or what is wrong.
pub type Compiled = Result<(Seq<char>, Found), Seq<char>>;

/// A value can stand in the index expression.
pub open spec fn quotable(value: Seq<char>) -> bool {
    value.len() > 0 && !value.contains('"') && !value.contains('*')
}

/// A value between quotation marks.
pub open spec fn quoted(value: Seq<char>) -> Seq<char> {
    "\""@ + value + "\""@
}

/// Every variant between quotation marks.
pub open spec fn all_quoted(variants: Seq<Seq<char>>) -> Seq<Seq<char>> {
    variants.map_values(|v: Seq<char>| quoted(v))
}

/// The condition that one of the variants is present.
pub open spec fn one_of(variants: Seq<Seq<char>>) -> Result<Seq<char>, Seq<char>> {
    if exists|i: int| 0 <= i < variants.len() && !quotable(#[trigger] variants[i]) {
        Err("词语包含不支持的查询字符"@)
    } else if variants.len() == 1 {
        Ok(quoted(variants[0]))
    } else {
        Ok("("@ + joined(all_quoted(variants), " OR "@) + ")"@)
    }
}

/// The list with the further items behind it that it does not hold yet.
pub open spec fn noted(list: Seq<Seq<char>>, items: Seq<Seq<char>>) -> Seq<Seq<char>>
    decreases items.len(),
{
    if items.len() == 0 {
        list
    } else {
        let before = noted(list, items.drop_last());
        if before.contains(items.last()) {
            before
        } else {
            before.push(items.last())
        }
    }
}

/// What a word or phrase is searched as. Excluded ones stand for themselves.
pub open spec fn variants(setting: Setting, text: Seq<char>, positive: bool) -> Seq<Seq<char>> {
    if positive {
        expansion(setting.groups, text)
    } else {
        seq![text]
    }
}

/// What is gathered from a word or phrase that has these variants.
pub open spec fn gathered(found: Found, variants: Seq<Seq<char>>, positive: bool) -> Found {
    Found {
        literals: if positive {
            noted(found.literals, variants)
        } else {
            found.literals
        },
        extra: found.extra + variants.len() - 1,
    }
}

/// The condition that a word or phrase, or one of its synonyms, is present.
pub open spec fn compile_text(
    setting: Setting,
    text: Seq<char>,
    positive: bool,
    found: Found,
) -> Compiled {
    let all = variants(setting, text, positive);
    let next = gathered(found, all, positive);
    if next.extra > MAX_EXTRA_VARIANTS {
        Err("同义词展开后条件过多,请精简词典"@)
    } else {
        match one_of(all) {
            Err(message) => Err(message),
            Ok(expression) => Ok((expression, next)),
        }
    }
}

/// A field in front of a condition.
pub open spec fn prefix(field: Option<Field>) -> Seq<char> {
    match field {
        Some(Field::Title) => "title:"@,
        Some(Field::Content) => "content:"@,
        None => ""@,
    }
}

/// A condition on the field that it names, otherwise on the default field.
pub open spec fn in_field(setting: Setting, field: Option<Field>, body: Compiled) -> Compiled {
    match body {
        Err(message) => Err(message),
        Ok((expression, found)) => Ok(
            (
                prefix(
                    if field is Some {
                        field
                    } else {
                        setting.field
                    },
                ) + expression,
                found,
            ),
        ),
    }
}

/// The parts of a word that are not empty.
pub open spec fn filled(pieces: Seq<Seq<char>>) -> Seq<Seq<char>>
    decreases pieces.len(),
{
    if pieces.len() == 0 {
        Seq::empty()
    } else if pieces.last().len() > 0 {
        filled(pieces.drop_last()).push(pieces.last())
    } else {
        filled(pieces.drop_last())
    }
}

/// The condition of each part of a word, from left to right.
pub open spec fn compile_each(
    setting: Setting,
    pieces: Seq<Seq<char>>,
    positive: bool,
    found: Found,
) -> Result<(Seq<Seq<char>>, Found), Seq<char>>
    decreases pieces.len(),
{
    if pieces.len() == 0 {
        Ok((Seq::empty(), found))
    } else {
        match compile_each(setting, pieces.drop_last(), positive, found) {
            Err(message) => Err(message),
            Ok((before, found)) => match compile_text(setting, pieces.last(), positive, found) {
                Err(message) => Err(message),
                Ok((expression, found)) => Ok((before.push(expression), found)),
            },
        }
    }
}

/// The condition that all parts of a word are present.
pub open spec fn compile_parts(
    setting: Setting,
    pieces: Seq<Seq<char>>,
    positive: bool,
    found: Found,
) -> Compiled {
    let parts = filled(pieces);
    if parts.len() == 0 {
        Err("普通词不包含可检索的文字或数字"@)
    } else {
        match compile_each(setting, parts, positive, found) {
            Err(message) => Err(message),
            Ok((expressions, found)) => if expressions.len() == 1 {
                Ok((expressions[0], found))
            } else {
                Ok(("("@ + joined(expressions, " AND "@) + ")"@, found))
            },
        }
    }
}

/// The parts that a word is split into.
pub open spec fn pieces_of(setting: Setting, text: Seq<char>) -> Seq<Seq<char>> {
    match setting.cut {
        Some(words) => searchable_parts(cut_words(words, text)),
        None => seq![text],
    }
}

/// Two expressions with an operator between them.
pub open spec fn combined(left: Seq<char>, operator: Seq<char>, right: Seq<char>) -> Seq<char> {
    "("@ + left + operator + right + ")"@
}

/// The expression of a condition.
pub open spec fn compile_tree(setting: Setting, tree: Tree, positive: bool, found: Found) -> Compiled
    decreases tree, 0int,
{
    match tree {
        Tree::Not(_) => Err("排除条件必须与正向条件组合"@),
        Tree::And(left, right) => match compile_present(setting, *left, positive, None, found) {
            Err(message) => Err(message),
            Ok((before, found)) => match compile_present(
                setting,
                *right,
                positive,
                before,
                found,
            ) {
                Err(message) => Err(message),
                Ok((None, _)) => Err("排除条件必须与正向条件组合"@),
                Ok((Some(expression), found)) => match compile_absent(
                    setting,
                    *left,
                    expression,
                    found,
                ) {
                    Err(message) => Err(message),
                    Ok((expression, found)) => compile_absent(setting, *right, expression, found),
                },
            },
        },
        Tree::Or(left, right) => match compile_tree(setting, *left, positive, found) {
            Err(message) => Err(message),
            Ok((left, found)) => match compile_tree(setting, *right, positive, found) {
                Err(message) => Err(message),
                Ok((right, found)) => Ok((combined(left, " OR "@, right), found)),
            },
        },
        Tree::Phrase { text, field } => in_field(
            setting,
            field,
            compile_text(setting, text, positive, found),
        ),
        Tree::Term { text, field } => if text.contains('*') || text.contains('"') {
            Err("词语包含不支持的查询字符"@)
        } else if !searchable(text) {
            Err("普通词不包含可检索的文字或数字"@)
        } else {
            in_field(
                setting,
                field,
                compile_parts(setting, pieces_of(setting, text), positive, found),
            )
        },
    }
}

/// All conditions joined by AND that are not excluded, from left to right,
/// behind an expression for those before them.
pub open spec fn compile_present(
    setting: Setting,
    tree: Tree,
    positive: bool,
    before: Option<Seq<char>>,
    found: Found,
) -> Result<(Option<Seq<char>>, Found), Seq<char>>
    decreases tree, 1int,
{
    match tree {
        Tree::And(left, right) => match compile_present(setting, *left, positive, before, found) {
            Err(message) => Err(message),
            Ok((before, found)) => compile_present(setting, *right, positive, before, found),
        },
        Tree::Not(_) => Ok((before, found)),
        _ => match compile_tree(setting, tree, positive, found) {
            Err(message) => Err(message),
            Ok((next, found)) => match before {
                None => Ok((Some(next), found)),
                Some(before) => Ok((Some(combined(before, " AND "@, next)), found)),
            },
        },
    }
}

/// An expression without what the excluded ones among conditions joined by
/// AND match, from left to right.
pub open spec fn compile_absent(
    setting: Setting,
    tree: Tree,
    before: Seq<char>,
    found: Found,
) -> Compiled
    decreases tree, 1int,
{
    match tree {
        Tree::And(left, right) => match compile_absent(setting, *left, before, found) {
            Err(message) => Err(message),
            Ok((before, found)) => compile_absent(setting, *right, before, found),
        },
        Tree::Not(child) => match compile_tree(setting, *child, false, found) {
            Err(message) => Err(message),
            Ok((next, found)) => Ok((combined(before, " NOT "@, next), found)),
        },
        _ => Ok((before, found)),
    }
}

/// The literals and the expression of a query, or what is wrong with it.
pub open spec fn compile_query(setting: Setting, input: Seq<char>) -> Compiled {
    if input.len() > MAX_QUERY_CHARS {
        Err("查询过长"@)
    } else {
        match lex_from(input, 0) {
            Err(message) => Err(message),
            Ok(t) => match read_query(t) {
                Err(message) => Err(message),
                Ok(tree) => compile_tree(
                    setting,
                    tree,
                    true,
                    Found { literals: Seq::empty(), extra: 0 },
                ),
            },
        }
    }
}

/// Literals and synonyms gathered so far.
pub struct Accumulator {
    /// The literals of positive conditions, each once.
    pub literals: Vec<String>,
    /// The variants that synonyms added.
    pub extra: usize,
}

impl View for Accumulator {
    type V = Found;

    open spec fn view(&self) -> Found {
        Found { literals: texts(self.literals@), extra: self.extra as int }
    }
}

/// What a compilation came to, without the representation.
pub open spec fn compiled(r: Result<String, QueryError>, found: Found) -> Compiled {
    match r {
        Ok(expression) => Ok((expression@, found)),
        Err(e) => Err(e.0@),
    }
}

fn contains_char(value: &str, mark: char) -> (r: bool)
    ensures
        r == value@.contains(mark),
{
    let chars = chars_of(value);
    holds_char(&chars, mark)
}

/// A value between quotation marks; values with `*` or `"` are refused.
pub fn quote(value: &str) -> (r: Result<String, QueryError>)
    ensures
        r is Ok <==> quotable(value@),
        r is Ok ==> r->Ok_0@ == quoted(value@),
        r is Err ==> r->Err_0.0@ == "词语包含不支持的查询字符"@,
{
    if value.is_empty() || contains_char(value, '"') || contains_char(value, '*') {
        return Err(syntax("词语包含不支持的查询字符"));
    }
    let mut s = "\"".to_owned();
    s.append(value);
    s.append("\"");
    Ok(s)
}

/// The condition that one of the variants is present: a single one is quoted
/// as it is, several are joined by OR.
pub fn compile_variants(variants: &Vec<String>) -> (r: Result<String, QueryError>)
    ensures
        (match r {
            Ok(expression) => Ok(expression@),
            Err(e) => Err(e.0@),
        }) == one_of(texts(variants@)),
{
    let ghost all = texts(variants@);
    let mut parts: Vec<String> = Vec::new();
    let mut i: usize = 0;
    while i < variants.len()
        invariant
            i <= variants@.len(),
            all == texts(variants@),
            texts(parts@) == all_quoted(all).take(i as int),
            forall|k: int| 0 <= k < i ==> quotable(#[trigger] all[k]),
        decreases variants@.len() - i,
    {
        assert(all[i as int] == variants@[i as int]@);
        match quote(variants[i].as_str()) {
            Err(e) => return Err(e),
            Ok(part) => {
                let ghost before = parts@;
                parts.push(part);
                assert(texts(parts@) =~= texts(before).push(part@));
            },
        }
        i += 1;
        assert(texts(parts@) =~= all_quoted(all).take(i as int));
    }
    assert(all_quoted(all).take(i as int) =~= all_quoted(all));
    if variants.len() == 1 {
        assert(texts(parts@)[0] == parts@[0]@);
        return Ok(parts[0].clone());
    }
    let body = join(&parts, " OR ");
    let mut s = "(".to_owned();
    s.append(body.as_str());
    s.append(")");
    Ok(s)
}

impl Accumulator {
    /// Nothing gathered yet.
    pub fn new() -> (accumulator: Self)
        ensures
            accumulator@ == (Found { literals: Seq::empty(), extra: 0 }),
    {
        let accumulator = Accumulator { literals: Vec::new(), extra: 0 };
        assert(texts(accumulator.literals@) =~= Seq::empty());
        accumulator
    }

    /// Adds a literal that was not found before.
    pub fn push_literal(&mut self, value: &str)
        ensures
            final(self)@.literals == (if old(self)@.literals.contains(value@) {
                old(self)@.literals
            } else {
                old(self)@.literals.push(value@)
            }),
            final(self).extra == old(self).extra,
    {
        let mut i: usize = 0;
        let ghost list = self@.literals;
        while i < self.literals.len()
            invariant
                i <= self.literals@.len(),
                list == texts(self.literals@),
                *self == *old(self),
                forall|k: int| 0 <= k < i ==> #[trigger] list[k] != value@,
            decreases self.literals@.len() - i,
        {
            if same(self.literals[i].as_str(), value) {
                assert(list[i as int] == value@);
                return ;
            }
            i += 1;
        }
        self.literals.push(value.to_owned());
        assert(self@.literals =~= list.push(value@));
    }

    fn push_literals(&mut self, values: &Vec<String>)
        ensures
            final(self)@.literals == noted(old(self)@.literals, texts(values@)),
            final(self).extra == old(self).extra,
    {
        let mut i: usize = 0;
        while i < values.len()
            invariant
                i <= values@.len(),
                self@.literals == noted(old(self)@.literals, texts(values@).take(i as int)),
                self.extra == old(self).extra,
            decreases values@.len() - i,
        {
            proof {
                assert(texts(values@).take(i + 1).drop_last() =~= texts(values@).take(i as int));
                assert(texts(values@).take(i + 1).last() == values@[i as int]@);
            }
            self.push_literal(values[i].as_str());
            i += 1;
        }
        assert(texts(values@).take(i as int) =~= texts(values@));
    }
}

/// Splits a word into parts; without a segmenter it is kept whole.
pub fn cut_loose(segmenter: Option<&Segmenter>, term: &str) -> (pieces: Vec<String>)
    requires
        byte_len(term@) <= u32::MAX,
    ensures
        texts(pieces@) == (match segmenter {
            Some(segmenter) => searchable_parts(cut_words(segmenter@, term@)),
            None => seq![term@],
        }),
{
    match segmenter {
        Some(segmenter) => dict::cut_loose(segmenter, term),
        None => {
            let mut whole: Vec<String> = Vec::new();
            whole.push(term.to_owned());
            assert(texts(whole@) =~= seq![term@]);
            whole
        },
    }
}

/// The parts of a query's setting that compilation reads.
pub struct Strategy<'a> {
    pub synonyms: &'a Synonyms,
    /// Splits words into parts; `None` keeps each word whole.
    pub segmenter: Option<&'a Segmenter>,
    pub field: Option<Field>,
}

impl<'a> View for Strategy<'a> {
    type V = Setting;

    open spec fn view(&self) -> Setting {
        Setting {
            groups: self.synonyms@,
            cut: match self.segmenter {
                Some(segmenter) => Some(segmenter@),
                None => None,
            },
            field: self.field,
        }
    }
}

impl<'a> Strategy<'a> {
    /// The variants of a word or phrase, counted against the limit.
    fn variants_of(
        &self,
        text: &str,
        positive: bool,
        accumulator: &mut Accumulator,
    ) -> (r: Result<Vec<String>, QueryError>)
        requires
            old(accumulator).extra <= MAX_EXTRA_VARIANTS,
        ensures
            ({
                let all = variants(self@, text@, positive);
                let next = gathered(old(accumulator)@, all, positive);
                if next.extra > MAX_EXTRA_VARIANTS {
                    r is Err && r->Err_0.0@ == "同义词展开后条件过多,请精简词典"@
                } else {
                    r is Ok && texts(r->Ok_0@) == all && final(accumulator)@ == next
                }
            }),
    {
        let all = if positive {
            lookup(self.synonyms, text)
        } else {
            let mut own: Vec<String> = Vec::new();
            own.push(text.to_owned());
            assert(texts(own@) =~= seq![text@]);
            own
        };
        proof {
            assert(texts(all@).len() == all@.len());
            lemma_expansion_has_members(self@.groups, text@);
        }
        if all.len() > MAX_EXTRA_VARIANTS + 1 - accumulator.extra {
            return Err(syntax("同义词展开后条件过多,请精简词典"));
        }
        accumulator.extra = accumulator.extra + (all.len() - 1);
        if positive {
            accumulator.push_literals(&all);
        }
        Ok(all)
    }

    /// The condition that a word or phrase, or one of its synonyms, is present.
    pub fn compile_text(
        &self,
        text: &str,
        positive: bool,
        accumulator: &mut Accumulator,
    ) -> (r: Result<String, QueryError>)
        requires
            old(accumulator).extra <= MAX_EXTRA_VARIANTS,
        ensures
            compiled(r, final(accumulator)@) == compile_text(
                self@,
                text@,
                positive,
                old(accumulator)@,
            ),
            r is Ok ==> final(accumulator).extra <= MAX_EXTRA_VARIANTS,
    {
        match self.variants_of(text, positive, accumulator) {
            Err(e) => Err(e),
            Ok(all) => compile_variants(&all),
        }
    }

    /// The condition that all parts of a word are present. Each part may be
    /// replaced by a synonym.
    pub fn compile_pieces(
        &self,
        pieces: &Vec<String>,
        positive: bool,
        accumulator: &mut Accumulator,
    ) -> (r: Result<String, QueryError>)
        requires
            old(accumulator).extra <= MAX_EXTRA_VARIANTS,
        ensures
            compiled(r, final(accumulator)@) == compile_parts(
                self@,
                texts(pieces@),
                positive,
                old(accumulator)@,
            ),
            r is Ok ==> final(accumulator).extra <= MAX_EXTRA_VARIANTS,
    {
        let ghost all = texts(pieces@);
        let ghost parts = filled(all);
        let mut expressions: Vec<String> = Vec::new();
        let mut i: usize = 0;
        assert(texts(expressions@) =~= Seq::empty());
        while i < pieces.len()
            invariant
                i <= pieces@.len(),
                all == texts(pieces@),
                parts == filled(all),
                accumulator.extra <= MAX_EXTRA_VARIANTS,
                compile_each(self@, filled(all.take(i as int)), positive, old(accumulator)@) == Ok::<
                    (Seq<Seq<char>>, Found),
                    Seq<char>,
                >((texts(expressions@), accumulator@)),
                texts(expressions@).len() == filled(all.take(i as int)).len(),
            decreases pieces@.len() - i,
        {
            proof {
                assert(all.take(i + 1).drop_last() =~= all.take(i as int));
                assert(all.take(i + 1).last() == pieces@[i as int]@);
            }
            if !pieces[i].as_str().is_empty() {
                let ghost before = expressions@;
                let ghost done = filled(all.take(i as int));
                assert(filled(all.take(i + 1)) == done.push(pieces@[i as int]@));
                assert(done.push(pieces@[i as int]@).drop_last() =~= done);
                match self.compile_text(pieces[i].as_str(), positive, accumulator) {
                    Err(e) => {
                        proof {
                            lemma_each_fails(
                                self@,
                                all,
                                i + 1,
                                positive,
                                old(accumulator)@,
                                e.0@,
                            );
                        }
                        return Err(e);
                    },
                    Ok(expression) => {
                        expressions.push(expression);
                        assert(texts(expressions@) =~= texts(before).push(expression@));
                    },
                }
            }
            i += 1;
        }
        assert(all.take(i as int) =~= all);
        if expressions.len() == 0 {
            assert(parts.len() == 0);
            return Err(syntax("普通词不包含可检索的文字或数字"));
        }
        if expressions.len() == 1 {
            assert(texts(expressions@)[0] == expressions@[0]@);
            return Ok(expressions[0].clone());
        }
        let body = join(&expressions, " AND ");
        let mut s = "(".to_owned();
        s.append(body.as_str());
        s.append(")");
        Ok(s)
    }

    fn in_field(&self, field: Option<Field>, body: String) -> (s: String)
        ensures
            s@ == prefix(
                if field is Some {
                    field
                } else {
                    self.field
                },
            ) + body@,
    {
        let field = if field.is_some() {
            field
        } else {
            self.field
        };
        let mut s = match field {
            Some(Field::Title) => "title:".to_owned(),
            Some(Field::Content) => "content:".to_owned(),
            None => "".to_owned(),
        };
        s.append(body.as_str());
        s
    }

    /// The expression of a condition.
    pub fn compile_node(
        &self,
        node: &Node,
        positive: bool,
        accumulator: &mut Accumulator,
    ) -> (r: Result<String, QueryError>)
        requires
            within(node@, MAX_QUERY_CHARS as int),
            old(accumulator).extra <= MAX_EXTRA_VARIANTS,
        ensures
            compiled(r, final(accumulator)@) == compile_tree(
                self@,
                node@,
                positive,
                old(accumulator)@,
            ),
            r is Ok ==> final(accumulator).extra <= MAX_EXTRA_VARIANTS,
        decreases node, 0int,
    {
        match node {
            Node::Not(_) => Err(syntax("排除条件必须与正向条件组合")),
            Node::And(left, right) => {
                let before = match self.compile_present(left, positive, None, accumulator) {
                    Err(e) => return Err(e),
                    Ok(before) => before,
                };
                match self.compile_present(right, positive, before, accumulator) {
                    Err(e) => Err(e),
                    Ok(None) => Err(syntax("排除条件必须与正向条件组合")),
                    Ok(Some(expression)) => match self.compile_absent(
                        left,
                        expression,
                        accumulator,
                    ) {
                        Err(e) => Err(e),
                        Ok(expression) => self.compile_absent(right, expression, accumulator),
                    },
                }
            },
            Node::Or(left, right) => match self.compile_node(left, positive, accumulator) {
                Err(e) => Err(e),
                Ok(left) => match self.compile_node(right, positive, accumulator) {
                    Err(e) => Err(e),
                    Ok(right) => Ok(combine(left, " OR ", right)),
                },
            },
            Node::Phrase { text, field } => match self.compile_text(
                text.as_str(),
                positive,
                accumulator,
            ) {
                Err(e) => Err(e),
                Ok(body) => Ok(self.in_field(*field, body)),
            },
            Node::Term { text, field } => {
                if contains_char(text.as_str(), '*') || contains_char(text.as_str(), '"') {
                    return Err(syntax("词语包含不支持的查询字符"));
                }
                if !has_tokens(text.as_str()) {
                    return Err(syntax("普通词不包含可检索的文字或数字"));
                }
                proof {
                    lemma_offset_monotonic(text@, 0, text@.len() as int);
                }
                let pieces = cut_loose(self.segmenter, text.as_str());
                match self.compile_pieces(&pieces, positive, accumulator) {
                    Err(e) => Err(e),
                    Ok(body) => Ok(self.in_field(*field, body)),
                }
            },
        }
    }

    fn compile_present(
        &self,
        node: &Node,
        positive: bool,
        before: Option<String>,
        accumulator: &mut Accumulator,
    ) -> (r: Result<Option<String>, QueryError>)
        requires
            within(node@, MAX_QUERY_CHARS as int),
            old(accumulator).extra <= MAX_EXTRA_VARIANTS,
        ensures
            (match r {
                Ok(expression) => Ok((option_text(expression), final(accumulator)@)),
                Err(e) => Err(e.0@),
            }) == compile_present(
                self@,
                node@,
                positive,
                option_text(before),
                old(accumulator)@,
            ),
            r is Ok ==> final(accumulator).extra <= MAX_EXTRA_VARIANTS,
        decreases node, 1int,
    {
        match node {
            Node::And(left, right) => match self.compile_present(
                left,
                positive,
                before,
                accumulator,
            ) {
                Err(e) => Err(e),
                Ok(before) => self.compile_present(right, positive, before, accumulator),
            },
            Node::Not(_) => Ok(before),
            _ => match self.compile_node(node, positive, accumulator) {
                Err(e) => Err(e),
                Ok(next) => match before {
                    None => Ok(Some(next)),
                    Some(before) => Ok(Some(combine(before, " AND ", next))),
                },
            },
        }
    }

    fn compile_absent(
        &self,
        node: &Node,
        before: String,
        accumulator: &mut Accumulator,
    ) -> (r: Result<String, QueryError>)
        requires
            within(node@, MAX_QUERY_CHARS as int),
            old(accumulator).extra <= MAX_EXTRA_VARIANTS,
        ensures
            compiled(r, final(accumulator)@) == compile_absent(
                self@,
                node@,
                before@,
                old(accumulator)@,
            ),
            r is Ok ==> final(accumulator).extra <= MAX_EXTRA_VARIANTS,
        decreases node, 1int,
    {
        match node {
            Node::And(left, right) => match self.compile_absent(left, before, accumulator) {
                Err(e) => Err(e),
                Ok(before) => self.compile_absent(right, before, accumulator),
            },
            Node::Not(child) => match self.compile_node(child, false, accumulator) {
                Err(e) => Err(e),
                Ok(next) => Ok(combine(before, " NOT ", next)),
            },
            _ => Ok(before),
        }
    }
}

/// What an optional string holds.
pub open spec fn option_text(s: Option<String>) -> Option<Seq<char>> {
    match s {
        Some(s) => Some(s@),
        None => None,
    }
}

/// A part that cannot be compiled makes the whole word fail, whatever follows.
proof fn lemma_each_fails(
    setting: Setting,
    pieces: Seq<Seq<char>>,
    i: int,
    positive: bool,
    found: Found,
    message: Seq<char>,
)
    requires
        0 <= i <= pieces.len(),
        compile_each(setting, filled(pieces.take(i)), positive, found) == Err::<
            (Seq<Seq<char>>, Found),
            Seq<char>,
        >(message),
    ensures
        compile_each(setting, filled(pieces), positive, found) == Err::<
            (Seq<Seq<char>>, Found),
            Seq<char>,
        >(message),
        filled(pieces).len() > 0,
    decreases pieces.len() - i,
{
    if i < pieces.len() {
        assert(pieces.take(i + 1).drop_last() =~= pieces.take(i));
        let done = filled(pieces.take(i));
        if pieces[i].len() > 0 {
            assert(filled(pieces.take(i + 1)) == done.push(pieces[i]));
            assert(done.push(pieces[i]).drop_last() =~= done);
        }
        lemma_each_fails(setting, pieces, i + 1, positive, found, message);
    } else {
        assert(pieces.take(i) =~= pieces);
    }
}

fn combine(left: String, operator: &str, right: String) -> (s: String)
    ensures
        s@ == combined(left@, operator@, right@),
{
    let mut s = "(".to_owned();
    s.append(left.as_str());
    s.append(operator);
    s.append(right.as_str());
    s.append(")");
    s
}

/// The field that a scope searches.
pub open spec fn scope_field(scope: Scope) -> Option<Field> {
    match scope {
        Scope::All => None,
        Scope::Title => Some(Field::Title),
        Scope::Content => Some(Field::Content),
    }
}

/// What compiling a query came to, without the representation.
pub open spec fn outcome(r: Result<CompiledQuery, QueryError>) -> Result<
    (Seq<char>, Seq<Seq<char>>),
    Seq<char>,
> {
    match r {
        Ok(query) => Ok((query.match_expr@, texts(query.literals@))),
        Err(e) => Err(e.0@),
    }
}

/// The expression and the literals of a query, or what is wrong with it.
pub open spec fn answer(setting: Setting, input: Seq<char>) -> Result<
    (Seq<char>, Seq<Seq<char>>),
    Seq<char>,
> {
    match compile_query(setting, input) {
        Ok((expression, found)) => Ok((expression, found.literals)),
        Err(message) => Err(message),
    }
}

/// Compiles a query with the given synonyms. With a segmenter, words are split
/// into parts that all have to be present; without one they are kept whole.
pub fn compile_with(
    input: &str,
    scope: Scope,
    segmenter: Option<&Segmenter>,
    synonyms: &Synonyms,
) -> (r: Result<CompiledQuery, QueryError>)
    ensures
        outcome(r) == answer(
            Setting {
                groups: synonyms@,
                cut: match segmenter {
                    Some(segmenter) => Some(segmenter@),
                    None => None,
                },
                field: scope_field(scope),
            },
            input@,
        ),
{
    let chars = chars_of(input);
    if chars.len() > MAX_QUERY_CHARS {
        return Err(syntax("查询过长"));
    }
    let tokens = match tokenize(input) {
        Err(e) => return Err(e),
        Ok(tokens) => tokens,
    };
    proof {
        lemma_lexemes_within(input@, 0);
    }
    let parser = Parser { tokens: &tokens };
    let node = match parser.parse() {
        Err(e) => return Err(e),
        Ok(node) => node,
    };
    let field = match scope {
        Scope::All => None,
        Scope::Title => Some(Field::Title),
        Scope::Content => Some(Field::Content),
    };
    let strategy = Strategy { synonyms, segmenter, field };
    let mut accumulator = Accumulator::new();
    match strategy.compile_node(&node, true, &mut accumulator) {
        Err(e) => Err(e),
        Ok(match_expr) => Ok(CompiledQuery { match_expr, literals: accumulator.literals }),
    }
}

proof fn lemma_lexemes_within(s: Seq<char>, i: int)
    requires
        0 <= i <= s.len(),
    ensures
        lex_from(s, i) is Ok ==> tokens_within(lex_from(s, i)->Ok_0, s.len() as int),
    decreases s.len() - i,
{
    if i < s.len() {
        if space(s[i]) || symbol(s[i]) is Some {
            lemma_lexemes_within(s, i + 1);
        } else if s[i] == '\'' || s[i] == '"' {
            lemma_next_mark(s, i + 1, s[i]);
            let end = next_mark(s, i + 1, s[i]);
            if end < s.len() {
                lemma_lexemes_within(s, end + 1);
            }
        } else {
            lemma_next_end(s, i);
            lemma_lexemes_within(s, next_end(s, i));
        }
    }
}

/// Compiles a query into an expression for the full-text index.
///
/// A loose query splits its words into parts that all have to be present;
/// otherwise each word is searched as a whole. The literals of positive
/// conditions are collected, each once, in the order of appearance. Excluded
/// conditions are not replaced by synonyms, and give no literals.
pub fn compile(input: &str, scope: Scope, loose: bool, dictionary: &Dictionary) -> (r: Result<
    CompiledQuery,
    QueryError,
>)
    ensures
        outcome(r) == answer(
            Setting {
                groups: dictionary.synonyms@,
                cut: if loose && dictionary.segmenter is Some {
                    Some(dictionary.segmenter->0@)
                } else {
                    None
                },
                field: scope_field(scope),
            },
            input@,
        ),
{
    let segmenter = if loose {
        dictionary.segmenter.as_ref()
    } else {
        None
    };
    compile_with(input, scope, segmenter, &dictionary.synonyms)
}

} // verus!
