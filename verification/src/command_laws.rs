//! How every command line is read, and what is printed of fragments.

use vstd::prelude::*;

use crate::cli::{
    comma, command_of, list_items, marked_up_to, read_args, sliceable, token_kind,
    token_kind_as, unknown_token, ArgumentsView, CommandView, StopView,
};
use crate::line_laws::written;
use crate::locate::Span;
use crate::match_laws::between;
use crate::parse::{type_of, FileType};
use crate::text::{
    byte_len, char_at, lemma_char_at, lemma_offset_monotonic, on_boundary, slice, trimmed,
};

verus! {

/// An option that a value follows.
pub open spec fn takes_value(arg: Seq<char>) -> bool {
    arg == "--db"@ || arg == "--scope"@ || arg == "--type"@ || arg == "--limit"@
}

proof fn lemma_literals()
    ensures
        "--db"@ == seq!['-', '-', 'd', 'b'],
        "--scope"@ == seq!['-', '-', 's', 'c', 'o', 'p', 'e'],
        "--type"@ == seq!['-', '-', 't', 'y', 'p', 'e'],
        "--limit"@ == seq!['-', '-', 'l', 'i', 'm', 'i', 't'],
        "--force"@ == seq!['-', '-', 'f', 'o', 'r', 'c', 'e'],
        "--loose"@ == seq!['-', '-', 'l', 'o', 'o', 's', 'e'],
        "--yes"@ == seq!['-', '-', 'y', 'e', 's'],
        "-h"@ == seq!['-', 'h'],
        "--help"@ == seq!['-', '-', 'h', 'e', 'l', 'p'],
{
    reveal_strlit("--db");
    reveal_strlit("--scope");
    reveal_strlit("--type");
    reveal_strlit("--limit");
    reveal_strlit("--force");
    reveal_strlit("--loose");
    reveal_strlit("--yes");
    reveal_strlit("-h");
    reveal_strlit("--help");
    assert("--db"@ =~= seq!['-', '-', 'd', 'b']);
    assert("--scope"@ =~= seq!['-', '-', 's', 'c', 'o', 'p', 'e']);
    assert("--type"@ =~= seq!['-', '-', 't', 'y', 'p', 'e']);
    assert("--limit"@ =~= seq!['-', '-', 'l', 'i', 'm', 'i', 't']);
    assert("--force"@ =~= seq!['-', '-', 'f', 'o', 'r', 'c', 'e']);
    assert("--loose"@ =~= seq!['-', '-', 'l', 'o', 'o', 's', 'e']);
    assert("--yes"@ =~= seq!['-', '-', 'y', 'e', 's']);
    assert("-h"@ =~= seq!['-', 'h']);
    assert("--help"@ =~= seq!['-', '-', 'h', 'e', 'l', 'p']);
}

proof fn lemma_front(a: Seq<Seq<char>>, b: Seq<Seq<char>>, i: int, x: ArgumentsView)
    requires
        0 <= i <= a.len(),
        read_args(a, i, x) is Ok,
    ensures
        read_args(a + b, i, x) == read_args(b, 0, read_args(a, i, x)->Ok_0),
    decreases a.len() - i,
{
    let all = a + b;
    if i < a.len() {
        assert(all[i] == a[i]);
        lemma_literals();
        if takes_value(a[i]) {
            assert(i + 1 < a.len());
            assert(all[i + 1] == a[i + 1]);
            lemma_front(a, b, i + 2, crate::cli::with_value(x, a[i], a[i + 1]));
        } else if a[i] == "--force"@ {
            lemma_front(a, b, i + 1, ArgumentsView { force: true, ..x });
        } else if a[i] == "--loose"@ {
            lemma_front(a, b, i + 1, ArgumentsView { loose: true, ..x });
        } else if a[i] == "--yes"@ {
            lemma_front(a, b, i + 1, ArgumentsView { yes: true, ..x });
        } else {
            lemma_front(
                a,
                b,
                i + 1,
                ArgumentsView { positional: x.positional.push(a[i]), ..x },
            );
        }
    } else {
        lemma_behind(a, b, 0, x);
    }
}

proof fn lemma_behind(a: Seq<Seq<char>>, b: Seq<Seq<char>>, i: int, x: ArgumentsView)
    requires
        0 <= i <= b.len(),
    ensures
        read_args(a + b, a.len() + i, x) == read_args(b, i, x),
    decreases b.len() - i,
{
    let all = a + b;
    let at = a.len() + i;
    if i < b.len() {
        assert(all[at] == b[i]);
        if i + 1 < b.len() {
            assert(all[at + 1] == b[i + 1]);
            lemma_behind(a, b, i + 2, crate::cli::with_value(x, b[i], b[i + 1]));
        }
        lemma_behind(a, b, i + 1, ArgumentsView { force: true, ..x });
        lemma_behind(a, b, i + 1, ArgumentsView { loose: true, ..x });
        lemma_behind(a, b, i + 1, ArgumentsView { yes: true, ..x });
        lemma_behind(a, b, i + 1, ArgumentsView { positional: x.positional.push(b[i]), ..x });
    }
}

/// A command line is read from left to right: what follows is read on top of what
/// came before.
pub proof fn law_arguments_add_up(a: Seq<Seq<char>>, b: Seq<Seq<char>>, x: ArgumentsView)
    requires
        read_args(a, 0, x) is Ok,
    ensures
        read_args(a + b, 0, x) == read_args(b, 0, read_args(a, 0, x)->Ok_0),
{
    lemma_front(a, b, 0, x);
}

/// Each option sets what it is named after and nothing else; what is no option is kept
/// in order; and an option without its value, or that is not known, stops.
pub proof fn law_options_set_their_own(x: ArgumentsView, value: Seq<char>)
    ensures
        read_args(seq!["--db"@, value], 0, x) == Ok::<ArgumentsView, StopView>(
            ArgumentsView { db: Some(value), ..x },
        ),
        read_args(seq!["--scope"@, value], 0, x) == Ok::<ArgumentsView, StopView>(
            ArgumentsView { scope: Some(value), ..x },
        ),
        read_args(seq!["--type"@, value], 0, x) == Ok::<ArgumentsView, StopView>(
            ArgumentsView { types: Some(value), ..x },
        ),
        read_args(seq!["--limit"@, value], 0, x) == Ok::<ArgumentsView, StopView>(
            ArgumentsView { limit: Some(value), ..x },
        ),
        read_args(seq!["--force"@], 0, x) == Ok::<ArgumentsView, StopView>(
            ArgumentsView { force: true, ..x },
        ),
        read_args(seq!["--loose"@], 0, x) == Ok::<ArgumentsView, StopView>(
            ArgumentsView { loose: true, ..x },
        ),
        read_args(seq!["--yes"@], 0, x) == Ok::<ArgumentsView, StopView>(
            ArgumentsView { yes: true, ..x },
        ),
        read_args(seq!["-h"@], 0, x) == Err::<ArgumentsView, StopView>(StopView::Help),
        read_args(seq!["--help"@], 0, x) == Err::<ArgumentsView, StopView>(StopView::Help),
        value.len() == 0 || value[0] != '-' ==> read_args(seq![value], 0, x) == Ok::<
            ArgumentsView,
            StopView,
        >(ArgumentsView { positional: x.positional.push(value), ..x }),
        takes_value(value) ==> read_args(seq![value], 0, x) is Err,
{
    lemma_literals();
    reveal_with_fuel(read_args, 3);
    let db = "--db"@;
    let scope = "--scope"@;
    let kind = "--type"@;
    let limit = "--limit"@;
    let force = "--force"@;
    let loose = "--loose"@;
    let yes = "--yes"@;
    let h = "-h"@;
    let help = "--help"@;
    assert(db.len() == 4 && scope.len() == 7 && kind.len() == 6 && limit.len() == 7 && force.len()
        == 7 && loose.len() == 7 && yes.len() == 5 && h.len() == 2 && help.len() == 6);
    assert(scope[2] == 's' && limit[2] == 'l' && force[2] == 'f' && loose[2] == 'l' && limit[3]
        == 'i' && loose[3] == 'o' && kind[2] == 't' && help[2] == 'h');
}

/// The index is emptied only where that was confirmed, and a command that needs
/// something to work on is not carried out without it.
pub proof fn law_commands_need_what_they_work_on(a: ArgumentsView)
    requires
        command_of(a) is Ok,
    ensures
        a.positional.len() > 0,
        command_of(a)->Ok_0 is Clear ==> a.yes && a.positional[0] == "clear"@,
        command_of(a)->Ok_0 is Import ==> a.positional[0] == "import"@ && a.positional.len() > 1
            && command_of(a)->Ok_0 == CommandView::Import(a.positional.skip(1)),
        command_of(a)->Ok_0 is Parse ==> a.positional[0] == "parse"@ && a.positional.len() > 1
            && command_of(a)->Ok_0 == CommandView::Parse(a.positional[1]),
        command_of(a)->Ok_0 is Text ==> a.positional[0] == "text"@ && a.positional.len() > 1
            && command_of(a)->Ok_0 == CommandView::Text(a.positional[1]),
        command_of(a)->Ok_0 is Search ==> a.positional[0] == "search"@ && a.positional.len() > 1
            && command_of(a)->Ok_0 == CommandView::Search(a.positional[1]),
        command_of(a)->Ok_0 is Docs ==> a.positional[0] == "docs"@,
        command_of(a)->Ok_0 is Stats ==> a.positional[0] == "stats"@,
        command_of(a)->Ok_0 is Schema ==> a.positional[0] == "schema"@,
        command_of(a)->Ok_0 is Check ==> a.positional[0] == "check"@,
        command_of(a)->Ok_0 is Rebuild ==> a.positional[0] == "rebuild"@,
        command_of(a)->Ok_0 is Optimize ==> a.positional[0] == "optimize"@,
        command_of(a)->Ok_0 is PurgeMarkdown ==> a.positional[0] == "purge-markdown"@,
{
}

proof fn lemma_comma(s: Seq<char>, i: int, j: int)
    requires
        0 <= i <= j <= s.len(),
        forall|k: int| i <= k < j ==> #[trigger] s[k] != ',',
        j == s.len() || s[j] == ',',
    ensures
        comma(s, i) == j,
    decreases j - i,
{
    if i < j {
        lemma_comma(s, i + 1, j);
    }
}

/// Commas between the items.
pub open spec fn commas(items: Seq<Seq<char>>) -> Seq<Seq<char>> {
    Seq::new((items.len() - 1) as nat, |i: int| seq![','])
}

proof fn lemma_items(s: Seq<char>, i: int, items: Seq<Seq<char>>, k: int)
    requires
        forall|m: int| 0 <= m < items.len() ==> !(#[trigger] items[m]).contains(','),
        0 <= k < items.len(),
        0 <= i <= s.len(),
        s.skip(i) == written(items, commas(items), k),
    ensures
        list_items(s, i) == Seq::new((items.len() - k) as nat, |m: int| trimmed(items[k + m])),
    decreases items.len() - k,
{
    let item = items[k];
    let marks = commas(items);
    let rest = s.skip(i);
    let j = i + item.len();
    let all = Seq::new((items.len() - k) as nat, |m: int| trimmed(items[k + m]));
    if k < items.len() - 1 {
        assert(marks[k] == seq![',']);
        assert(rest == item + seq![','] + written(items, marks, k + 1));
    }
    assert(item.len() <= rest.len());
    assert forall|m: int| i <= m < j implies #[trigger] s[m] != ',' by {
        assert(s[m] == rest[m - i]);
        assert(rest[m - i] == item[m - i]);
        assert(item.contains(item[m - i]));
    }
    assert(s.subrange(i, j) =~= item) by {
        assert(s.subrange(i, j) =~= rest.subrange(0, item.len() as int));
    }
    if k == items.len() - 1 {
        assert(j == s.len());
        lemma_comma(s, i, j);
        assert(list_items(s, j + 1) =~= Seq::empty());
        assert(seq![trimmed(item)] + Seq::<Seq<char>>::empty() =~= all);
    } else {
        assert(s[j] == ',') by {
            assert(rest[item.len() as int] == ',');
        }
        lemma_comma(s, i, j);
        assert(s.skip(j + 1) =~= written(items, marks, k + 1)) by {
            assert(s.skip(j + 1) =~= rest.skip(1int + item.len()));
        }
        lemma_items(s, j + 1, items, k + 1);
        let less = Seq::new((items.len() - k - 1) as nat, |m: int| trimmed(items[k + 1 + m]));
        assert(seq![trimmed(item)] + less =~= all);
    }
}

/// A list is divided at its commas, and white space around its items is left out.
pub proof fn law_lists_are_divided_at_commas(items: Seq<Seq<char>>)
    requires
        items.len() > 0,
        forall|m: int| 0 <= m < items.len() ==> !(#[trigger] items[m]).contains(','),
    ensures
        list_items(written(items, commas(items), 0), 0) == items.map_values(
            |item: Seq<char>| trimmed(item),
        ),
{
    let s = written(items, commas(items), 0);
    assert(s.skip(0) =~= s);
    lemma_items(s, 0, items, 0);
    assert(Seq::new(items.len() as nat, |m: int| trimmed(items[0 + m])) =~= items.map_values(
        |item: Seq<char>| trimmed(item),
    ));
}

/// A kind of documents can be given by its name or by an extension of its files.
pub proof fn law_kinds_by_name_or_extension(word: Seq<char>, ext: Option<Seq<char>>)
    ensures
        word == "word"@ || word == "excel"@ || word == "ppt"@ || word == "pdf"@ || word == "text"@
            || word == "epub"@ ==> token_kind_as(word, ext) == Some(word),
        token_kind_as(word, ext) is Some && !(word == "word"@ || word == "excel"@ || word == "ppt"@
            || word == "pdf"@ || word == "text"@ || word == "epub"@) ==> match type_of(ext) {
            Some(FileType::Word) => token_kind_as(word, ext) == Some("word"@),
            Some(FileType::Excel) => token_kind_as(word, ext) == Some("excel"@),
            Some(FileType::Ppt) => token_kind_as(word, ext) == Some("ppt"@),
            Some(FileType::Pdf) => token_kind_as(word, ext) == Some("pdf"@),
            Some(FileType::Text) => token_kind_as(word, ext) == Some("text"@),
            Some(FileType::Epub) => token_kind_as(word, ext) == Some("epub"@),
            None => false,
        },
        type_of(ext) is Some ==> token_kind_as(word, ext) is Some,
{
}

/// The characters without the marks around highlighted parts.
pub open spec fn unmarked(s: Seq<char>) -> Seq<char> {
    s.filter(|c: char| c != '【' && c != '】')
}

proof fn lemma_unmarked_sum(a: Seq<char>, b: Seq<char>)
    ensures
        unmarked(a + b) == unmarked(a) + unmarked(b),
    decreases b.len(),
{
    reveal(Seq::filter);
    if b.len() == 0 {
        assert(a + b =~= a);
        assert(unmarked(b) =~= Seq::empty());
        assert(unmarked(a) + unmarked(b) =~= unmarked(a));
    } else {
        lemma_unmarked_sum(a, b.drop_last());
        assert((a + b).drop_last() =~= a + b.drop_last());
        assert((a + b).last() == b.last());
        assert(unmarked(a + b) =~= unmarked(a) + unmarked(b));
    }
}

proof fn lemma_unmarked_plain(s: Seq<char>)
    requires
        forall|i: int| 0 <= i < s.len() ==> #[trigger] s[i] != '【' && s[i] != '】',
    ensures
        unmarked(s) == s,
    decreases s.len(),
{
    reveal(Seq::filter);
    if s.len() > 0 {
        let init = s.drop_last();
        assert forall|i: int| 0 <= i < init.len() implies #[trigger] init[i] != '【' && init[i]
            != '】' by {
            assert(init[i] == s[i]);
        }
        lemma_unmarked_plain(init);
        assert(s[s.len() - 1] == s.last());
        assert(unmarked(s) =~= s);
    } else {
        assert(unmarked(s) =~= s);
    }
}

proof fn lemma_marks()
    ensures
        unmarked("【"@) == Seq::<char>::empty(),
        unmarked("】"@) == Seq::<char>::empty(),
{
    reveal(Seq::filter);
    reveal_strlit("【");
    reveal_strlit("】");
    assert("【"@.drop_last() =~= Seq::empty());
    assert("】"@.drop_last() =~= Seq::empty());
    assert(unmarked("【"@.drop_last()) =~= Seq::empty());
    assert(unmarked("】"@.drop_last()) =~= Seq::empty());
    assert("【"@.last() == '【');
    assert("】"@.last() == '】');
}

/// A part between two boundaries, in characters.
proof fn lemma_slice_plain(s: Seq<char>, from: int, to: int)
    requires
        on_boundary(s, from),
        on_boundary(s, to),
        from <= to,
        forall|i: int| 0 <= i < s.len() ==> #[trigger] s[i] != '【' && s[i] != '】',
    ensures
        unmarked(slice(s, from, to)) == slice(s, from, to),
        0 <= char_at(s, from) <= char_at(s, to) <= s.len(),
{
    let a = char_at(s, from);
    let b = char_at(s, to);
    if b < a {
        lemma_offset_monotonic(s, b, a);
    }
    let part = slice(s, from, to);
    assert forall|i: int| 0 <= i < part.len() implies #[trigger] part[i] != '【' && part[i]
        != '】' by {
        assert(part[i] == s[a + i]);
    }
    lemma_unmarked_plain(part);
}

/// What stands before a boundary is what stands before two earlier ones and between
/// them.
proof fn lemma_three_slices(s: Seq<char>, p: int, a: int, b: int)
    requires
        on_boundary(s, 0),
        on_boundary(s, p),
        on_boundary(s, a),
        on_boundary(s, b),
        0 <= p <= a <= b,
    ensures
        slice(s, 0, p) + slice(s, p, a) + slice(s, a, b) == slice(s, 0, b),
{
    lemma_char_at(s, 0);
    let (i, j, k) = (char_at(s, p), char_at(s, a), char_at(s, b));
    if j < i {
        lemma_offset_monotonic(s, j, i);
    }
    if k < j {
        lemma_offset_monotonic(s, k, j);
    }
    assert(s.subrange(0, i) + s.subrange(i, j) + s.subrange(j, k) =~= s.subrange(0, k));
}

/// The marks around a part drop out.
proof fn lemma_unmarked_step(before: Seq<char>, x: Seq<char>, y: Seq<char>)
    ensures
        unmarked(before + x + "【"@ + y + "】"@) == unmarked(before) + unmarked(x) + unmarked(y),
{
    lemma_marks();
    lemma_unmarked_sum(before, x);
    lemma_unmarked_sum(before + x, "【"@);
    lemma_unmarked_sum(before + x + "【"@, y);
    lemma_unmarked_sum(before + x + "【"@ + y, "】"@);
    assert(unmarked(before + x) + Seq::<char>::empty() =~= unmarked(before + x));
    assert(unmarked(before + x + "【"@ + y) + Seq::<char>::empty() =~= unmarked(
        before + x + "【"@ + y,
    ));
}

proof fn lemma_marked(content: Seq<char>, spans: Seq<Span>, n: int)
    requires
        sliceable(content, spans),
        0 <= n <= spans.len(),
        forall|i: int| 0 <= i < content.len() ==> #[trigger] content[i] != '【' && content[i] != '】',
    ensures
        ({
            let m = marked_up_to(content, spans.take(n));
            &&& on_boundary(content, m.position)
            &&& 0 <= m.position <= byte_len(content)
            &&& unmarked(m.text) == slice(content, 0, m.position)
        }),
    decreases n,
{
    lemma_char_at(content, 0);
    lemma_char_at(content, content.len() as int);
    if n == 0 {
        assert(spans.take(0) =~= Seq::empty());
        assert(slice(content, 0, 0) =~= Seq::empty());
        assert(unmarked(Seq::<char>::empty()) =~= Seq::empty()) by {
            reveal(Seq::filter);
        }
        lemma_offset_monotonic(content, 0, content.len() as int);
    } else {
        lemma_marked(content, spans, n - 1);
        assert(spans.take(n).drop_last() =~= spans.take(n - 1));
        let before = marked_up_to(content, spans.take(n - 1));
        let span = spans[n - 1];
        if !(span.start < before.position || span.end > byte_len(content)) {
            let (p, a, b) = (before.position, span.start as int, span.end as int);
            lemma_three_slices(content, p, a, b);
            lemma_slice_plain(content, p, a);
            lemma_slice_plain(content, a, b);
            lemma_unmarked_step(before.text, slice(content, p, a), slice(content, a, b));
        }
    }
}

proof fn lemma_all_marked(content: Seq<char>, spans: Seq<Span>)
    requires
        sliceable(content, spans),
        forall|i: int| 0 <= i < content.len() ==> #[trigger] content[i] != '【' && content[i] != '】',
    ensures
        ({
            let m = marked_up_to(content, spans);
            &&& on_boundary(content, m.position)
            &&& 0 <= m.position <= byte_len(content)
            &&& unmarked(m.text) == slice(content, 0, m.position)
        }),
{
    let n = spans.len() as int;
    lemma_marked(content, spans, n);
    let same = spans.take(n);
    assert(same =~= spans);
}

/// A text is what stands before a boundary and what stands behind it.
proof fn lemma_two_slices(s: Seq<char>, p: int)
    requires
        on_boundary(s, p),
        0 <= p <= byte_len(s),
    ensures
        on_boundary(s, 0),
        on_boundary(s, byte_len(s)),
        slice(s, 0, p) + slice(s, p, byte_len(s)) == s,
{
    lemma_char_at(s, 0);
    lemma_char_at(s, s.len() as int);
    let k = char_at(s, p);
    assert(s.subrange(0, k) + s.subrange(k, s.len() as int) =~= s);
}

/// What is complained about is the first word that names no kind of file.
pub proof fn law_the_first_unknown_kind_is_named(items: Seq<Seq<char>>, i: int)
    requires
        0 <= i <= items.len(),
    ensures
        unknown_token(items, i) is None <==> forall|k: int|
            i <= k < items.len() ==> token_kind(#[trigger] items[k]) is Some,
        unknown_token(items, i) is Some ==> exists|k: int|
            {
                &&& i <= k < items.len()
                &&& #[trigger] items[k] == unknown_token(items, i)->0
                &&& token_kind(items[k]) is None
                &&& forall|m: int| i <= m < k ==> token_kind(#[trigger] items[m]) is Some
            },
    decreases items.len() - i,
{
    if i < items.len() {
        law_the_first_unknown_kind_is_named(items, i + 1);
        if token_kind(items[i]) is None {
            assert(unknown_token(items, i) == Some(items[i]));
        } else {
            assert(unknown_token(items, i) == unknown_token(items, i + 1));
            if unknown_token(items, i) is Some {
                let k = choose|k: int|
                    {
                        &&& i + 1 <= k < items.len()
                        &&& #[trigger] items[k] == unknown_token(items, i + 1)->0
                        &&& token_kind(items[k]) is None
                        &&& forall|m: int|
                            i + 1 <= m < k ==> token_kind(#[trigger] items[m]) is Some
                    };
                assert forall|m: int| i <= m < k implies token_kind(#[trigger] items[m]) is Some by {
                    if m > i {
                        assert(i + 1 <= m < k);
                    }
                }
                assert(items[k] == unknown_token(items, i)->0);
            } else {
                assert forall|m: int| i <= m < items.len() implies token_kind(
                    #[trigger] items[m],
                ) is Some by {
                    if m > i {
                        assert(i + 1 <= m < items.len());
                    }
                }
            }
        }
    }
}

/// Marks are all that is added to a fragment: without them it is what it was.
pub proof fn law_marks_are_all_that_is_added(content: Seq<char>, spans: Seq<Span>)
    requires
        sliceable(content, spans),
        forall|i: int| 0 <= i < content.len() ==> #[trigger] content[i] != '【' && content[i] != '】',
    ensures
        ({
            let m = marked_up_to(content, spans);
            unmarked(m.text + slice(content, m.position, byte_len(content))) == content
        }),
{
    lemma_all_marked(content, spans);
    let m = marked_up_to(content, spans);
    lemma_two_slices(content, m.position);
    let rest = slice(content, m.position, byte_len(content));
    lemma_slice_plain(content, m.position, byte_len(content));
    lemma_unmarked_sum(m.text, rest);
}

} // verus!
