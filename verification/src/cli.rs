//! The command line: arguments, commands, and search results as text.

use vstd::prelude::*;
use vstd::string::StringExecFns;

use crate::parse::{file_type_of, kind_name, type_of};
use crate::paths::{extension_in, option_text, reads_extension, settled};
use crate::query::Scope;
use crate::search::Span;
use crate::text::{
    byte_len, chars_of, decimal, decimal_of, len_of, lemma_char_at, number, on_boundary,
    parse_number, same, slice, slice_of, string_of, texts, trim_chars, trimmed,
};

verus! {

/// What was given on the command line.
#[derive(Debug)]
pub struct Arguments {
    pub db: Option<String>,
    pub force: bool,
    pub loose: bool,
    pub yes: bool,
    pub scope: Option<String>,
    pub types: Option<String>,
    pub limit: Option<String>,
    pub positional: Vec<String>,
}

/// What was given on the command line, without the representation.
pub struct ArgumentsView {
    pub db: Option<Seq<char>>,
    pub force: bool,
    pub loose: bool,
    pub yes: bool,
    pub scope: Option<Seq<char>>,
    pub types: Option<Seq<char>>,
    pub limit: Option<Seq<char>>,
    pub positional: Seq<Seq<char>>,
}

impl View for Arguments {
    type V = ArgumentsView;

    open spec fn view(&self) -> ArgumentsView {
        ArgumentsView {
            db: option_text(self.db),
            force: self.force,
            loose: self.loose,
            yes: self.yes,
            scope: option_text(self.scope),
            types: option_text(self.types),
            limit: option_text(self.limit),
            positional: texts(self.positional@),
        }
    }
}

/// Why no command is run.
#[derive(Debug)]
pub enum Stop {
    /// The usage was asked for.
    Help,
    /// The usage is shown with a message, which may be empty.
    Usage(String),
}

/// Why no command is run, without the representation.
pub enum StopView {
    Help,
    Usage(Seq<char>),
}

impl View for Stop {
    type V = StopView;

    open spec fn view(&self) -> StopView {
        match self {
            Stop::Help => StopView::Help,
            Stop::Usage(message) => StopView::Usage(message@),
        }
    }
}

/// What is said where a value is missing behind an option that takes one.
pub open spec fn missing_value(option: Seq<char>) -> Option<Seq<char>> {
    if option == "--db"@ {
        Some("--db 需要一个路径参数"@)
    } else if option == "--scope"@ {
        Some("--scope 需要 all|title|content"@)
    } else if option == "--type"@ {
        Some("--type 需要类型列表,如 word,pdf"@)
    } else if option == "--limit"@ {
        Some("--limit 需要一个数字"@)
    } else {
        None
    }
}

/// The arguments with the value of an option.
pub open spec fn with_value(a: ArgumentsView, option: Seq<char>, value: Seq<char>) -> ArgumentsView {
    if option == "--db"@ {
        ArgumentsView { db: Some(value), ..a }
    } else if option == "--scope"@ {
        ArgumentsView { scope: Some(value), ..a }
    } else if option == "--type"@ {
        ArgumentsView { types: Some(value), ..a }
    } else {
        ArgumentsView { limit: Some(value), ..a }
    }
}

/// The arguments from the `i`-th on, behind those that were read already.
pub open spec fn read_args(args: Seq<Seq<char>>, i: int, a: ArgumentsView) -> Result<
    ArgumentsView,
    StopView,
>
    decreases args.len() - i,
{
    if i < 0 || i >= args.len() {
        Ok(a)
    } else {
        let arg = args[i];
        if missing_value(arg) is Some {
            if i + 1 < args.len() {
                read_args(args, i + 2, with_value(a, arg, args[i + 1]))
            } else {
                Err(StopView::Usage(missing_value(arg)->0))
            }
        } else if arg == "--force"@ {
            read_args(args, i + 1, ArgumentsView { force: true, ..a })
        } else if arg == "--loose"@ {
            read_args(args, i + 1, ArgumentsView { loose: true, ..a })
        } else if arg == "--yes"@ {
            read_args(args, i + 1, ArgumentsView { yes: true, ..a })
        } else if arg == "-h"@ || arg == "--help"@ {
            Err(StopView::Help)
        } else if arg.len() > 0 && arg[0] == '-' {
            Err(StopView::Usage("无法识别的参数: "@ + arg))
        } else {
            read_args(args, i + 1, ArgumentsView { positional: a.positional.push(arg), ..a })
        }
    }
}

/// No arguments.
pub open spec fn no_args() -> ArgumentsView {
    ArgumentsView {
        db: None,
        force: false,
        loose: false,
        yes: false,
        scope: None,
        types: None,
        limit: None,
        positional: Seq::empty(),
    }
}

/// The outcome of reading arguments, without the representation.
pub open spec fn arguments_read(r: Result<Arguments, Stop>) -> Result<ArgumentsView, StopView> {
    match r {
        Ok(a) => Ok(a@),
        Err(stop) => Err(stop@),
    }
}

fn value_missing(option: &str) -> (r: Option<&'static str>)
    ensures
        (match r {
            Some(s) => Some(s@),
            None => None,
        }) == missing_value(option@),
{
    if same(option, "--db") {
        Some("--db 需要一个路径参数")
    } else if same(option, "--scope") {
        Some("--scope 需要 all|title|content")
    } else if same(option, "--type") {
        Some("--type 需要类型列表,如 word,pdf")
    } else if same(option, "--limit") {
        Some("--limit 需要一个数字")
    } else {
        None
    }
}

/// Reads the arguments of the command line.
pub fn parse_args(args: &Vec<String>) -> (r: Result<Arguments, Stop>)
    ensures
        arguments_read(r) == read_args(texts(args@), 0, no_args()),
{
    let ghost all = texts(args@);
    let mut a = Arguments {
        db: None,
        force: false,
        loose: false,
        yes: false,
        scope: None,
        types: None,
        limit: None,
        positional: Vec::new(),
    };
    let total = args.len();
    let mut i: usize = 0;
    assert(texts(a.positional@) =~= Seq::empty());
    while i < total
        invariant
            i <= total,
            total == args@.len(),
            all == texts(args@),
            read_args(all, i as int, a@) == read_args(all, 0, no_args()),
        decreases total - i,
    {
        let arg = args[i].as_str();
        assert(all[i as int] == arg@);
        if let Some(message) = value_missing(arg) {
            if i + 1 >= total {
                return Err(Stop::Usage(message.to_owned()));
            }
            assert(all[i + 1] == args@[i + 1]@);
            let value = args[i + 1].clone();
            if same(arg, "--db") {
                a.db = Some(value);
            } else if same(arg, "--scope") {
                a.scope = Some(value);
            } else if same(arg, "--type") {
                a.types = Some(value);
            } else {
                a.limit = Some(value);
            }
            i += 2;
        } else if same(arg, "--force") {
            a.force = true;
            i += 1;
        } else if same(arg, "--loose") {
            a.loose = true;
            i += 1;
        } else if same(arg, "--yes") {
            a.yes = true;
            i += 1;
        } else if same(arg, "-h") || same(arg, "--help") {
            return Err(Stop::Help);
        } else {
            let chars = chars_of(arg);
            if chars.len() > 0 && chars[0] == '-' {
                return Err(Stop::Usage("无法识别的参数: ".to_owned().concat(arg)));
            }
            let ghost list = texts(a.positional@);
            a.positional.push(args[i].clone());
            assert(texts(a.positional@) =~= list.push(arg@));
            i += 1;
        }
    }
    Ok(a)
}

/// What the program is asked to do.
#[derive(Debug)]
pub enum Command {
    Docs,
    Stats,
    Schema,
    Import(Vec<String>),
    Parse(String),
    Text(String),
    Search(String),
    Check,
    Rebuild,
    Optimize,
    PurgeMarkdown,
    Clear,
}

/// What the program is asked to do, without the representation.
pub enum CommandView {
    Docs,
    Stats,
    Schema,
    Import(Seq<Seq<char>>),
    Parse(Seq<char>),
    Text(Seq<char>),
    Search(Seq<char>),
    Check,
    Rebuild,
    Optimize,
    PurgeMarkdown,
    Clear,
}

impl View for Command {
    type V = CommandView;

    open spec fn view(&self) -> CommandView {
        match self {
            Command::Docs => CommandView::Docs,
            Command::Stats => CommandView::Stats,
            Command::Schema => CommandView::Schema,
            Command::Import(paths) => CommandView::Import(texts(paths@)),
            Command::Parse(path) => CommandView::Parse(path@),
            Command::Text(path) => CommandView::Text(path@),
            Command::Search(query) => CommandView::Search(query@),
            Command::Check => CommandView::Check,
            Command::Rebuild => CommandView::Rebuild,
            Command::Optimize => CommandView::Optimize,
            Command::PurgeMarkdown => CommandView::PurgeMarkdown,
            Command::Clear => CommandView::Clear,
        }
    }
}

/// The command that arguments ask for, or what the usage is shown with.
pub open spec fn command_of(a: ArgumentsView) -> Result<CommandView, Seq<char>> {
    let words = a.positional;
    if words.len() == 0 {
        Err(""@)
    } else if words[0] == "docs"@ {
        Ok(CommandView::Docs)
    } else if words[0] == "stats"@ {
        Ok(CommandView::Stats)
    } else if words[0] == "schema"@ {
        Ok(CommandView::Schema)
    } else if words[0] == "import"@ {
        if words.len() > 1 {
            Ok(CommandView::Import(words.skip(1)))
        } else {
            Err("import 需要至少一个文件或目录路径"@)
        }
    } else if words[0] == "parse"@ {
        if words.len() > 1 {
            Ok(CommandView::Parse(words[1]))
        } else {
            Err("parse 需要一个文件路径"@)
        }
    } else if words[0] == "text"@ {
        if words.len() > 1 {
            Ok(CommandView::Text(words[1]))
        } else {
            Err("text 需要一个文件路径"@)
        }
    } else if words[0] == "search"@ {
        if words.len() > 1 {
            Ok(CommandView::Search(words[1]))
        } else {
            Err("search 需要一个查询词"@)
        }
    } else if words[0] == "check"@ {
        Ok(CommandView::Check)
    } else if words[0] == "rebuild"@ {
        Ok(CommandView::Rebuild)
    } else if words[0] == "optimize"@ {
        Ok(CommandView::Optimize)
    } else if words[0] == "purge-markdown"@ {
        Ok(CommandView::PurgeMarkdown)
    } else if words[0] == "clear"@ {
        if a.yes {
            Ok(CommandView::Clear)
        } else {
            Err("clear 会删除全部文档与索引,请加 --yes 确认"@)
        }
    } else {
        Err("未知命令: "@ + words[0])
    }
}

/// The command that arguments ask for. Clearing the library has to be
/// confirmed.
pub fn command(a: &Arguments) -> (r: Result<Command, String>)
    ensures
        (match r {
            Ok(command) => Ok(command@),
            Err(message) => Err(message@),
        }) == command_of(a@),
{
    let words = &a.positional;
    let ghost all = texts(words@);
    if words.len() == 0 {
        return Err("".to_owned());
    }
    assert(all[0] == words@[0]@);
    let name = words[0].as_str();
    let more = words.len() > 1;
    assert(more ==> all[1] == words@[1]@);
    if same(name, "docs") {
        Ok(Command::Docs)
    } else if same(name, "stats") {
        Ok(Command::Stats)
    } else if same(name, "schema") {
        Ok(Command::Schema)
    } else if same(name, "import") {
        if !more {
            return Err("import 需要至少一个文件或目录路径".to_owned());
        }
        let mut paths: Vec<String> = Vec::new();
        let mut i: usize = 1;
        assert(texts(paths@) =~= all.subrange(1, 1));
        while i < words.len()
            invariant
                1 <= i <= words@.len(),
                all == texts(words@),
                texts(paths@) == all.subrange(1, i as int),
            decreases words@.len() - i,
        {
            let ghost before = paths@;
            paths.push(words[i].clone());
            i += 1;
            assert(texts(paths@) =~= texts(before).push(words@[i - 1]@));
            assert(texts(paths@) =~= all.subrange(1, i as int));
        }
        assert(texts(paths@) =~= all.skip(1));
        Ok(Command::Import(paths))
    } else if same(name, "parse") {
        if more {
            Ok(Command::Parse(words[1].clone()))
        } else {
            Err("parse 需要一个文件路径".to_owned())
        }
    } else if same(name, "text") {
        if more {
            Ok(Command::Text(words[1].clone()))
        } else {
            Err("text 需要一个文件路径".to_owned())
        }
    } else if same(name, "search") {
        if more {
            Ok(Command::Search(words[1].clone()))
        } else {
            Err("search 需要一个查询词".to_owned())
        }
    } else if same(name, "check") {
        Ok(Command::Check)
    } else if same(name, "rebuild") {
        Ok(Command::Rebuild)
    } else if same(name, "optimize") {
        Ok(Command::Optimize)
    } else if same(name, "purge-markdown") {
        Ok(Command::PurgeMarkdown)
    } else if same(name, "clear") {
        if a.yes {
            Ok(Command::Clear)
        } else {
            Err("clear 会删除全部文档与索引,请加 --yes 确认".to_owned())
        }
    } else {
        Err("未知命令: ".to_owned().concat(name))
    }
}

/// The scope that an option names.
pub fn scope_of(value: Option<&str>) -> (r: Result<Scope, String>)
    ensures
        (match r {
            Ok(scope) => Ok(scope),
            Err(message) => Err(message@),
        }) == match value {
            None => Ok::<Scope, Seq<char>>(Scope::All),
            Some(s) => if s@ == "all"@ {
                Ok(Scope::All)
            } else if s@ == "title"@ {
                Ok(Scope::Title)
            } else if s@ == "content"@ {
                Ok(Scope::Content)
            } else {
                Err("未知的检索范围: "@ + s@ + "(可用 all|title|content)"@)
            },
        },
{
    match value {
        None => Ok(Scope::All),
        Some(s) => if same(s, "all") {
            Ok(Scope::All)
        } else if same(s, "title") {
            Ok(Scope::Title)
        } else if same(s, "content") {
            Ok(Scope::Content)
        } else {
            Err("未知的检索范围: ".to_owned().concat(s).concat("(可用 all|title|content)"))
        },
    }
}

/// The number of groups that an option asks for.
pub fn limit_of(value: Option<&str>) -> (r: Result<usize, String>)
    ensures
        match value {
            None => r == Ok::<usize, String>(100),
            Some(s) => match number(s@) {
                Some(n) => if n <= usize::MAX {
                    r is Ok && r->Ok_0 == n
                } else {
                    r is Err && (r->Err_0)@ == "--limit 需要一个正整数: "@ + s@
                },
                None => r is Err && (r->Err_0)@ == "--limit 需要一个正整数: "@ + s@,
            },
        },
{
    match value {
        None => Ok(100),
        Some(s) => {
            match parse_number(s) {
                Some(n) => {
                    if n <= usize::MAX as u64 {
                        return Ok(n as usize);
                    }
                },
                None => {},
            }
            Err("--limit 需要一个正整数: ".to_owned().concat(s))
        },
    }
}

/// The word names a kind of documents.
pub open spec fn names_kind(word: Seq<char>) -> bool {
    ||| word == "word"@
    ||| word == "excel"@
    ||| word == "ppt"@
    ||| word == "pdf"@
    ||| word == "text"@
    ||| word == "epub"@
}

/// A file name with a word for its extension.
pub open spec fn probe(word: Seq<char>) -> Seq<char> {
    "f."@ + word
}

/// The word is the name of a kind of documents, or the same extension on every
/// platform.
pub open spec fn plain_token(word: Seq<char>) -> bool {
    names_kind(word) || settled(probe(word))
}

/// The kind of documents that a word names, by its own name or by the extension
/// that is read of a file name with it.
pub open spec fn token_kind_as(word: Seq<char>, ext: Option<Seq<char>>) -> Option<Seq<char>> {
    if names_kind(word) {
        Some(word)
    } else {
        match type_of(ext) {
            Some(t) => Some(kind_name(t)),
            None => None,
        }
    }
}

/// The kind of documents that a word names, by its own name or by an extension.
pub open spec fn token_kind(word: Seq<char>) -> Option<Seq<char>> {
    token_kind_as(word, extension_in(probe(word)))
}

/// The kind of documents that a word names, by its own name or by an extension.
/// Which extension a word stands for that is no plain one is left to the
/// platform.
pub fn file_type_of_token(token: &str) -> (r: Option<String>)
    ensures
        plain_token(token@) ==> option_text(r) == token_kind(token@),
        names_kind(token@) || exists|ext: Option<Seq<char>>| #[trigger]
            reads_extension(probe(token@), ext) && option_text(r) == token_kind_as(token@, ext),
{
    if same(token, "word") || same(token, "excel") || same(token, "ppt") || same(token, "pdf")
        || same(token, "text") || same(token, "epub") {
        return Some(token.to_owned());
    }
    let probe = "f.".to_owned().concat(token);
    match file_type_of(probe.as_str()) {
        Some(t) => Some(t.as_str().to_owned()),
        None => None,
    }
}

/// Index of the first comma at `i` or behind it; the length where there is
/// none.
pub open spec fn comma(s: Seq<char>, i: int) -> int
    decreases s.len() - i,
{
    if 0 <= i < s.len() && s[i] != ',' {
        comma(s, i + 1)
    } else {
        i
    }
}

proof fn lemma_comma(s: Seq<char>, i: int)
    requires
        0 <= i <= s.len(),
    ensures
        i <= comma(s, i) <= s.len(),
    decreases s.len() - i,
{
    if i < s.len() && s[i] != ',' {
        lemma_comma(s, i + 1);
    }
}

/// What commas separate from the `i`-th character on, without white space at
/// the ends.
pub open spec fn list_items(s: Seq<char>, i: int) -> Seq<Seq<char>>
    decreases s.len() + 1 - i,
    via list_items_decreases
{
    if i < 0 || i > s.len() {
        Seq::empty()
    } else {
        let end = comma(s, i);
        seq![trimmed(s.subrange(i, end))] + list_items(s, end + 1)
    }
}

#[via_fn]
proof fn list_items_decreases(s: Seq<char>, i: int) {
    if 0 <= i <= s.len() {
        lemma_comma(s, i);
    }
}

/// Splits a list at its commas.
pub fn split_list(text: &str) -> (r: Vec<String>)
    ensures
        texts(r@) == list_items(text@, 0),
{
    let chars = chars_of(text);
    let ghost s = text@;
    let total = chars.len();
    let mut r: Vec<String> = Vec::new();
    let mut i: usize = 0;
    assert(texts(r@) + list_items(s, 0) =~= list_items(s, 0));
    loop
        invariant
            s == chars@,
            s == text@,
            total == s.len(),
            i <= total,
            texts(r@) + list_items(s, i as int) == list_items(s, 0),
        decreases total - i,
    {
        let start = i;
        while i < total && chars[i] != ','
            invariant
                s == chars@,
                total == s.len(),
                start <= i <= total,
                comma(s, start as int) == comma(s, i as int),
            decreases total - i,
        {
            i += 1;
        }
        let item = trim_chars(&crate::text::part_of(&chars, start, i));
        let ghost before = texts(r@);
        let ghost rest = list_items(s, i + 1);
        assert(item@.subrange(0, item@.len() as int) =~= item@);
        r.push(string_of(&item, 0, item.len()));
        proof {
            assert(texts(r@) =~= before.push(item@));
            assert(before + (seq![item@] + rest) =~= before.push(item@) + rest);
        }
        if i >= total {
            assert(rest =~= Seq::empty());
            assert(texts(r@) + Seq::<Seq<char>>::empty() =~= texts(r@));
            return r;
        }
        i += 1;
    }
}

/// The first word from the `i`-th on that names no kind of documents.
pub open spec fn unknown_token(items: Seq<Seq<char>>, i: int) -> Option<Seq<char>>
    decreases items.len() - i,
{
    if i < 0 || i >= items.len() {
        None
    } else if token_kind(items[i]) is None {
        Some(items[i])
    } else {
        unknown_token(items, i + 1)
    }
}

/// A word of a list that is looked up names this kind of documents, as far as the
/// platform decides which extension it stands for.
pub open spec fn may_name(word: Seq<char>, kind: Option<Seq<char>>) -> bool {
    &&& plain_token(word) ==> kind == token_kind(word)
    &&& names_kind(word) || exists|ext: Option<Seq<char>>| #[trigger]
        reads_extension(probe(word), ext) && kind == token_kind_as(word, ext)
}

/// A word of a list may name some kind of documents.
pub open spec fn may_name_some(word: Seq<char>) -> bool {
    exists|kind: Seq<char>| #[trigger] may_name(word, Some(kind))
}

/// The kinds of documents that a list names, or the first word of it that names
/// none.
pub fn file_types_of(list: &str) -> (r: Result<Vec<String>, String>)
    ensures
        ({
            let items = list_items(list@, 0);
            match r {
                Ok(kinds) => {
                    &&& kinds@.len() == items.len()
                    &&& forall|i: int|
                        0 <= i < items.len() ==> may_name(items[i], Some(#[trigger] kinds@[i]@))
                },
                Err(message) => exists|n: int|
                    0 <= n < items.len() && may_name(#[trigger] items[n], None) && message@
                        == "未知的文件类型: "@ + items[n] && forall|i: int|
                        0 <= i < n ==> may_name_some(#[trigger] items[i]),
            }
        }),
        ({
            let items = list_items(list@, 0);
            (forall|i: int| 0 <= i < items.len() ==> plain_token(#[trigger] items[i])) ==> (r is Ok
                <==> unknown_token(items, 0) is None) && (r is Err ==> r->Err_0@
                == "未知的文件类型: "@ + unknown_token(items, 0)->0)
        }),
{
    let items = split_list(list);
    let ghost all = list_items(list@, 0);
    let ghost plain = forall|i: int| 0 <= i < all.len() ==> plain_token(#[trigger] all[i]);
    let mut kinds: Vec<String> = Vec::new();
    let mut i: usize = 0;
    assert(texts(items@).len() == items@.len());
    while i < items.len()
        invariant
            i <= items@.len(),
            all == list_items(list@, 0),
            plain == (forall|i: int| 0 <= i < all.len() ==> plain_token(#[trigger] all[i])),
            texts(items@) == all,
            items@.len() == all.len(),
            kinds@.len() == i,
            plain ==> unknown_token(all, i as int) == unknown_token(all, 0),
            forall|k: int| 0 <= k < i ==> may_name(all[k], Some(#[trigger] kinds@[k]@)),
        decreases items@.len() - i,
    {
        assert(all[i as int] == items@[i as int]@);
        assert(plain ==> plain_token(all[i as int]));
        let found = file_type_of_token(items[i].as_str());
        assert(may_name(all[i as int], option_text(found)));
        match found {
            Some(kind) => {
                kinds.push(kind);
            },
            None => {
                let message = "未知的文件类型: ".to_owned().concat(items[i].as_str());
                proof {
                    assert forall|k: int| 0 <= k < i implies may_name_some(#[trigger] all[k]) by {
                        assert(may_name(all[k], Some(kinds@[k]@)));
                    }
                    assert(may_name(all[i as int], None));
                }
                return Err(message);
            },
        }
        i += 1;
    }
    Ok(kinds)
}

/// A text with marks around its highlighted ranges, and how far it was taken
/// over.
pub struct Marked {
    pub text: Seq<char>,
    pub position: int,
}

/// One more range is marked. One that starts before the last one ends, or ends
/// behind the text, is passed over.
pub open spec fn mark_span(content: Seq<char>, m: Marked, span: Span) -> Marked {
    if span.start < m.position || span.end > byte_len(content) {
        m
    } else {
        Marked {
            text: m.text + slice(content, m.position, span.start as int) + "【"@ + slice(
                content,
                span.start as int,
                span.end as int,
            ) + "】"@,
            position: span.end as int,
        }
    }
}

/// The text up to the last of the ranges.
pub open spec fn marked_up_to(content: Seq<char>, spans: Seq<Span>) -> Marked
    decreases spans.len(),
{
    if spans.len() == 0 {
        Marked { text: Seq::empty(), position: 0 }
    } else {
        mark_span(content, marked_up_to(content, spans.drop_last()), spans.last())
    }
}

/// The ranges that get marks lie on character boundaries. Those that start before
/// the end of one before them, or end behind the text, get none.
pub open spec fn sliceable(content: Seq<char>, spans: Seq<Span>) -> bool {
    forall|i: int|
        0 <= i < spans.len() && (#[trigger] spans[i]).start >= marked_up_to(
            content,
            spans.take(i),
        ).position && spans[i].end <= byte_len(content) ==> {
            &&& spans[i].start <= spans[i].end
            &&& on_boundary(content, spans[i].start as int)
            &&& on_boundary(content, spans[i].end as int)
        }
}

/// A text with marks around its highlighted ranges.
pub fn mark_snippet(content: &str, spans: &Vec<Span>) -> (s: String)
    requires
        sliceable(content@, spans@),
    ensures
        ({
            let m = marked_up_to(content@, spans@);
            s@ == m.text + slice(content@, m.position, byte_len(content@))
        }),
{
    let total = len_of(content);
    let mut s = String::new();
    let mut position: usize = 0;
    let mut i: usize = 0;
    proof {
        lemma_char_at(content@, 0);
        lemma_char_at(content@, content@.len() as int);
        assert(spans@.take(0) =~= Seq::empty());
    }
    while i < spans.len()
        invariant
            i <= spans@.len(),
            total == byte_len(content@),
            sliceable(content@, spans@),
            position <= total,
            on_boundary(content@, position as int),
            on_boundary(content@, byte_len(content@)),
            s@ == marked_up_to(content@, spans@.take(i as int)).text,
            position == marked_up_to(content@, spans@.take(i as int)).position,
        decreases spans@.len() - i,
    {
        assert(spans@.take(i + 1).drop_last() =~= spans@.take(i as int));
        let span = spans[i];
        if !(span.start < position || span.end > total) {
            s.append(slice_of(content, position, span.start));
            s.append("【");
            s.append(slice_of(content, span.start, span.end));
            s.append("】");
            position = span.end;
        }
        i += 1;
    }
    assert(spans@.take(i as int) =~= spans@);
    s.append(slice_of(content, position, total));
    s
}

/// What is said of the hits of a document.
pub fn hit_summary(total_hits: usize, shown: usize, in_title: bool) -> (s: String)
    ensures
        s@ == if total_hits > shown {
            "共 "@ + decimal(total_hits as nat) + " 个命中片段，展示前 "@ + decimal(shown as nat)
                + " 个"@
        } else if total_hits > 0 {
            decimal(total_hits as nat) + " 个命中片段"@
        } else if in_title {
            "标题命中"@
        } else {
            "未定位到展示片段"@
        },
{
    let total = decimal_of(total_hits as u64);
    if total_hits > shown {
        let count = decimal_of(shown as u64);
        let mut s = "共 ".to_owned();
        s.append(total.as_str());
        s.append(" 个命中片段，展示前 ");
        s.append(count.as_str());
        s.append(" 个");
        s
    } else if total_hits > 0 {
        total.concat(" 个命中片段")
    } else if in_title {
        "标题命中".to_owned()
    } else {
        "未定位到展示片段".to_owned()
    }
}

} // verus!
