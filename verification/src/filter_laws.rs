//! What the filters of every search let through, and which headings are shown with
//! fragments.

use vstd::prelude::*;

use crate::dict::Dictionary;
use crate::query::{scope_field, Field, Scope};
use crate::repo::marks;
use crate::search::{
    candidate_sql, count_sql, filter_params, filter_sql, from_sql, group_key_sql, header_count,
    header_set, like_char, like_text, path_patterns, request_setting, shown_header, where_sql,
    Filters, ParamView, SearchRequest,
};
use crate::text::{contains, decimal, joined, occurs_at};
use crate::token_laws::{same_but_for_case, same_letter};

verus! {

/// A text matches a pattern of the index: a per cent sign stands for any characters,
/// an underscore for one, a backslash takes the meaning of what follows it away, and
/// any other character stands for itself, in either case where it is an ASCII
/// letter.
pub open spec fn like_matches(pattern: Seq<char>, text: Seq<char>) -> bool
    decreases pattern.len(), text.len(),
{
    if pattern.len() == 0 {
        text.len() == 0
    } else if pattern[0] == '%' {
        like_matches(pattern.skip(1), text) || (text.len() > 0 && like_matches(
            pattern,
            text.skip(1),
        ))
    } else if pattern[0] == '_' {
        text.len() > 0 && like_matches(pattern.skip(1), text.skip(1))
    } else if pattern[0] == '\\' && pattern.len() > 1 {
        text.len() > 0 && same_letter(pattern[1], text[0]) && like_matches(
            pattern.skip(2),
            text.skip(1),
        )
    } else {
        text.len() > 0 && same_letter(pattern[0], text[0]) && like_matches(
            pattern.skip(1),
            text.skip(1),
        )
    }
}

/// The text starts with another one, whatever the case of ASCII letters.
pub open spec fn starts_like(text: Seq<char>, start: Seq<char>) -> bool {
    start.len() <= text.len() && same_but_for_case(start, text.take(start.len() as int))
}

proof fn lemma_like_front(s: Seq<char>)
    requires
        s.len() > 0,
    ensures
        like_text(s) == like_char(s[0]) + like_text(s.skip(1)),
    decreases s.len(),
{
    if s.len() == 1 {
        assert(s.drop_last() =~= Seq::empty());
        assert(s.skip(1) =~= Seq::empty());
        assert(like_text(s) =~= like_char(s[0]) + like_text(s.skip(1)));
    } else {
        let init = s.drop_last();
        lemma_like_front(init);
        assert(init.skip(1) =~= s.skip(1).drop_last());
        assert(s.skip(1).last() == s.last());
        assert(like_text(s) =~= like_char(s[0]) + like_text(s.skip(1)));
    }
}

proof fn lemma_any(text: Seq<char>)
    ensures
        like_matches(seq!['%'], text),
    decreases text.len(),
{
    reveal_with_fuel(like_matches, 2);
    assert(seq!['%'].skip(1) =~= Seq::<char>::empty());
    if text.len() > 0 {
        lemma_any(text.skip(1));
    }
}

proof fn lemma_like_prefix(prefix: Seq<char>, text: Seq<char>)
    ensures
        like_matches(like_text(prefix) + seq!['%'], text) <==> starts_like(text, prefix),
    decreases prefix.len(),
{
    let pattern = like_text(prefix) + seq!['%'];
    if prefix.len() == 0 {
        assert(pattern =~= seq!['%']);
        lemma_any(text);
        assert(starts_like(text, prefix));
    } else {
        let rest = prefix.skip(1);
        let c = prefix[0];
        let tail = like_text(rest) + seq!['%'];
        lemma_like_front(prefix);
        assert(pattern =~= like_char(c) + tail);
        if text.len() > 0 {
            lemma_like_prefix(rest, text.skip(1));
            if c == '\\' || c == '%' || c == '_' {
                assert(pattern[0] == '\\' && pattern[1] == c);
                assert(pattern.skip(2) =~= tail);
            } else {
                assert(pattern[0] == c);
                assert(pattern.skip(1) =~= tail);
            }
            if starts_like(text, prefix) {
                assert(same_letter(prefix[0], text.take(prefix.len() as int)[0]));
                assert forall|i: int| 0 <= i < rest.len() implies same_letter(
                    #[trigger] rest[i],
                    text.skip(1).take(rest.len() as int)[i],
                ) by {
                    assert(same_letter(prefix[i + 1], text.take(prefix.len() as int)[i + 1]));
                }
            }
            if same_letter(c, text[0]) && starts_like(text.skip(1), rest) {
                assert forall|i: int| 0 <= i < prefix.len() implies same_letter(
                    #[trigger] prefix[i],
                    text.take(prefix.len() as int)[i],
                ) by {
                    if i > 0 {
                        assert(same_letter(
                            rest[i - 1],
                            text.skip(1).take(rest.len() as int)[i - 1],
                        ));
                    }
                }
            }
        } else {
            if c == '\\' || c == '%' || c == '_' {
                assert(pattern[0] == '\\' && pattern[1] == c);
            } else {
                assert(pattern[0] == c);
            }
        }
    }
}

/// Some pattern for the prefix matches the path.
pub open spec fn path_passes(prefix: Seq<char>, path: Seq<char>) -> bool {
    exists|i: int|
        0 <= i < path_patterns(prefix).len() && like_matches(
            #[trigger] path_patterns(prefix)[i],
            path,
        )
}

/// A path passes the filter exactly when it starts with the prefix, or with the
/// prefix behind `\\?\` where the prefix has not got that itself. What stands for
/// other characters in a pattern stands for itself in a prefix.
pub proof fn law_paths_pass_by_their_start(prefix: Seq<char>, path: Seq<char>)
    ensures
        path_passes(prefix, path) <==> starts_like(path, prefix) || (!(prefix.len() >= 4
            && prefix.take(4) == seq!['\\', '\\', '?', '\\']) && starts_like(
            path,
            seq!['\\', '\\', '?', '\\'] + prefix,
        )),
{
    reveal_strlit("%");
    reveal_strlit("\\\\?\\");
    let mark = seq!['\\', '\\', '?', '\\'];
    assert("%"@ =~= seq!['%']);
    assert("\\\\?\\"@ =~= mark);
    lemma_like_prefix(prefix, path);
    lemma_like_prefix(mark + prefix, path);
    let all = path_patterns(prefix);
    let verbatim = prefix.len() >= 4 && prefix.take(4) == mark;
    assert(verbatim <==> occurs_at(prefix, "\\\\?\\"@, 0)) by {
        if prefix.len() >= 4 {
            assert(prefix.take(4) =~= prefix.subrange(0, 4));
        }
    }
    assert(all[0] == like_text(prefix) + seq!['%']);
    if !verbatim {
        assert(all[1] == like_text(mark + prefix) + seq!['%']);
    }
    if starts_like(path, prefix) {
        assert(like_matches(all[0], path));
    }
    if path_passes(prefix, path) {
        let i = choose|i: int| 0 <= i < all.len() && like_matches(#[trigger] all[i], path);
        assert(i == 0 || i == 1);
    }
}

/// Number of places for values in a statement.
pub open spec fn places(sql: Seq<char>) -> int
    decreases sql.len(),
{
    if sql.len() == 0 {
        0
    } else {
        places(sql.drop_last()) + if sql.last() == '?' {
            1int
        } else {
            0
        }
    }
}

proof fn lemma_places(a: Seq<char>, b: Seq<char>)
    ensures
        places(a + b) == places(a) + places(b),
    decreases b.len(),
{
    if b.len() == 0 {
        assert(a + b =~= a);
    } else {
        lemma_places(a, b.drop_last());
        assert((a + b).drop_last() =~= a + b.drop_last());
    }
}

proof fn lemma_no_places(s: Seq<char>)
    requires
        !s.contains('?'),
    ensures
        places(s) == 0,
    decreases s.len(),
{
    if s.len() > 0 {
        let init = s.drop_last();
        assert(s[s.len() - 1] == s.last());
        assert(!init.contains('?')) by {
            if init.contains('?') {
                let k = choose|k: int| 0 <= k < init.len() && init[k] == '?';
                assert(s[k] == '?');
            }
        }
        lemma_no_places(init);
    }
}

proof fn lemma_joined_places(list: Seq<Seq<char>>, mark: Seq<char>, each: Seq<char>)
    requires
        forall|i: int| 0 <= i < list.len() ==> #[trigger] list[i] == each,
        !mark.contains('?'),
    ensures
        places(joined(list, mark)) == list.len() * places(each),
    decreases list.len(),
{
    lemma_no_places(mark);
    if list.len() > 1 {
        let init = list.drop_last();
        assert forall|i: int| 0 <= i < init.len() implies #[trigger] init[i] == each by {
            assert(init[i] == list[i]);
        }
        lemma_joined_places(init, mark, each);
        lemma_places(joined(init, mark), mark);
        lemma_places(joined(init, mark) + mark, list.last());
        assert(list.last() == list[list.len() - 1]);
        assert(list.len() * places(each) == init.len() * places(each) + places(each))
            by (nonlinear_arith)
            requires
                list.len() == init.len() + 1,
        ;
    } else if list.len() == 1 {
        assert(list[0] == each);
        assert(list.len() * places(each) == places(each)) by (nonlinear_arith)
            requires
                list.len() == 1,
        ;
    } else {
        assert(places(joined(list, mark)) == 0);
        assert(list.len() * places(each) == 0) by (nonlinear_arith)
            requires
                list.len() == 0,
        ;
    }
}

proof fn lemma_one_place(s: Seq<char>, k: int)
    requires
        0 <= k < s.len(),
        s[k] == '?',
        forall|i: int| 0 <= i < s.len() && i != k ==> #[trigger] s[i] != '?',
    ensures
        places(s) == 1,
{
    let a = s.take(k);
    let b = s.skip(k + 1);
    assert(!a.contains('?'));
    assert(!b.contains('?'));
    lemma_no_places(a);
    lemma_no_places(b);
    assert(s =~= a + seq!['?'] + b);
    lemma_places(a, seq!['?']);
    lemma_places(a + seq!['?'], b);
    assert(places(seq!['?']) == 1) by {
        reveal_with_fuel(places, 2);
        assert(seq!['?'].drop_last() =~= Seq::empty());
    }
}

proof fn lemma_type_places(n: nat)
    requires
        n > 0,
    ensures
        places(" AND d.file_type IN ("@ + joined(marks(n), ","@) + ")"@) == n,
{
    reveal_strlit(" AND d.file_type IN (");
    reveal_strlit(")");
    reveal_strlit(",");
    reveal_strlit("?");
    lemma_no_places(" AND d.file_type IN ("@);
    lemma_no_places(")"@);
    assert("?"@[0] == '?');
    lemma_one_place("?"@, 0);
    lemma_joined_places(marks(n), ","@, "?"@);
    assert(marks(n).len() * places("?"@) == n) by (nonlinear_arith)
        requires
            marks(n).len() == n,
            places("?"@) == 1,
    ;
    lemma_places(" AND d.file_type IN ("@, joined(marks(n), ","@));
    lemma_places(" AND d.file_type IN ("@ + joined(marks(n), ","@), ")"@);
}

proof fn lemma_path_places(n: nat)
    ensures
        places(
            " AND ("@ + joined(Seq::new(n, |i: int| "d.path LIKE ? ESCAPE '\\'"@), " OR "@) + ")"@,
        ) == n,
{
    reveal_strlit(" AND (");
    reveal_strlit(")");
    reveal_strlit(" OR ");
    reveal_strlit("d.path LIKE ? ESCAPE '\\'");
    let each = "d.path LIKE ? ESCAPE '\\'"@;
    let list = Seq::new(n, |i: int| each);
    lemma_no_places(" AND ("@);
    lemma_no_places(")"@);
    assert(each[12] == '?');
    lemma_one_place(each, 12);
    lemma_joined_places(list, " OR "@, each);
    assert(list.len() * places(each) == n) by (nonlinear_arith)
        requires
            list.len() == n,
            places(each) == 1,
    ;
    lemma_places(" AND ("@, joined(list, " OR "@));
    lemma_places(" AND ("@ + joined(list, " OR "@), ")"@);
}

/// The conditions of filters have a place for each of their values.
pub proof fn law_filters_have_their_values(filters: Filters)
    ensures
        places(filter_sql(filters)) == filter_params(filters).len(),
{
    reveal_strlit("");
    let types = if filters.file_types@.len() > 0 {
        " AND d.file_type IN ("@ + joined(marks(filters.file_types@.len()), ","@) + ")"@
    } else {
        ""@
    };
    let from = if filters.mtime_from_ms is Some {
        " AND d.file_mtime_ms >= ?"@
    } else {
        ""@
    };
    let to = if filters.mtime_to_ms is Some {
        " AND d.file_mtime_ms <= ?"@
    } else {
        ""@
    };
    if filters.file_types@.len() > 0 {
        lemma_type_places(filters.file_types@.len());
    }
    reveal_strlit(" AND d.file_mtime_ms >= ?");
    reveal_strlit(" AND d.file_mtime_ms <= ?");
    assert(" AND d.file_mtime_ms >= ?"@[24] == '?');
    assert(" AND d.file_mtime_ms <= ?"@[24] == '?');
    lemma_one_place(" AND d.file_mtime_ms >= ?"@, 24);
    lemma_one_place(" AND d.file_mtime_ms <= ?"@, 24);
    lemma_places(types, from);
    lemma_places(types + from, to);
    match filters.path_prefix {
        Some(prefix) => {
            let n = path_patterns(prefix@).len();
            lemma_path_places(n);
            let path = " AND ("@ + joined(
                Seq::new(n, |i: int| "d.path LIKE ? ESCAPE '\\'"@),
                " OR "@,
            ) + ")"@;
            lemma_places(types + from + to, path);
        },
        None => {
            lemma_places(types + from + to, ""@);
        },
    }
}

/// Filters by time keep the documents from one time up to another, both of them
/// included, and each bound has the value that was given for it.
pub proof fn law_time_filters(filters: Filters)
    requires
        filters.file_types@.len() == 0,
        filters.path_prefix is None,
    ensures
        filters.mtime_from_ms is None && filters.mtime_to_ms is None ==> filter_sql(filters).len()
            == 0 && filter_params(filters).len() == 0,
        filters.mtime_from_ms is Some && filters.mtime_to_ms is None ==> filter_sql(filters)
            == " AND d.file_mtime_ms >= ?"@ && filter_params(filters) == seq![
            ParamView::Integer(filters.mtime_from_ms->0 as int),
        ],
        filters.mtime_from_ms is None && filters.mtime_to_ms is Some ==> filter_sql(filters)
            == " AND d.file_mtime_ms <= ?"@ && filter_params(filters) == seq![
            ParamView::Integer(filters.mtime_to_ms->0 as int),
        ],
        filters.mtime_from_ms is Some && filters.mtime_to_ms is Some ==> filter_sql(filters)
            == " AND d.file_mtime_ms >= ?"@ + " AND d.file_mtime_ms <= ?"@ && filter_params(filters)
            == seq![
            ParamView::Integer(filters.mtime_from_ms->0 as int),
            ParamView::Integer(filters.mtime_to_ms->0 as int),
        ],
{
    reveal_strlit("");
    reveal_strlit(" AND d.file_mtime_ms >= ?");
    reveal_strlit(" AND d.file_mtime_ms <= ?");
    let a = " AND d.file_mtime_ms >= ?"@;
    let b = " AND d.file_mtime_ms <= ?"@;
    assert(""@ =~= Seq::empty());
    let e = Seq::<char>::empty();
    assert(e + e + e + e =~= e);
    assert(e + a + e + e =~= a);
    assert(e + e + b + e =~= b);
    assert(e + a + b + e =~= a + b);
    let from = match filters.mtime_from_ms {
        Some(t) => seq![ParamView::Integer(t as int)],
        None => Seq::empty(),
    };
    let to = match filters.mtime_to_ms {
        Some(t) => seq![ParamView::Integer(t as int)],
        None => Seq::empty(),
    };
    assert(filter_params(filters) =~= from + to);
    assert(from + to =~= filter_params(filters));
    if filters.mtime_from_ms is Some && filters.mtime_to_ms is Some {
        assert(from + to =~= seq![
            ParamView::Integer(filters.mtime_from_ms->0 as int),
            ParamView::Integer(filters.mtime_to_ms->0 as int),
        ]);
    } else if filters.mtime_from_ms is Some {
        assert(from + to =~= from);
    } else {
        assert(from + to =~= to);
    }
}

/// A filter by kinds lets those through that are listed: their names are the first
/// values, in order.
pub proof fn law_kind_filters(filters: Filters, i: int)
    requires
        0 <= i < filters.file_types@.len(),
    ensures
        filter_params(filters)[i] == ParamView::Text(filters.file_types@[i]@),
{
}

/// Where a search looks: everywhere, in titles, or in texts.
pub proof fn law_scopes_name_their_fields()
    ensures
        scope_field(Scope::All) is None,
        scope_field(Scope::Title) == Some(Field::Title),
        scope_field(Scope::Content) == Some(Field::Content),
{
}

/// The title of the document, an arrow, and what follows.
pub open spec fn titled(title: Seq<char>, rest: Seq<char>) -> Seq<char> {
    title + seq![' ', '›', ' '] + rest
}

/// An arrow stands nowhere in the text, nor across its end.
pub open spec fn without_arrow(s: Seq<char>) -> bool {
    forall|i: int| 0 <= i < s.len() ==> #[trigger] s[i] != '›'
}

proof fn lemma_first_arrow(title: Seq<char>, rest: Seq<char>, k: int)
    requires
        without_arrow(title),
        0 <= k <= title.len(),
    ensures
        crate::locate::next_match(titled(title, rest), seq![' ', '›', ' '], k) == Some(
            title.len() as int,
        ),
    decreases title.len() - k,
{
    let s = titled(title, rest);
    let arrow = seq![' ', '›', ' '];
    let n = title.len() as int;
    if k == n {
        assert(s.subrange(n, n + 3) =~= arrow);
    } else {
        assert(!occurs_at(s, arrow, k)) by {
            if occurs_at(s, arrow, k) {
                assert(s.subrange(k, k + 3)[1] == s[k + 1]);
                if k + 1 < n {
                    assert(s[k + 1] == title[k + 1]);
                } else {
                    assert(s[k + 1] == ' ');
                }
            }
        }
        lemma_first_arrow(title, rest, k + 1);
    }
}

/// The title of the document is left out of the headings that are shown with a
/// fragment, and so are headings that only repeat it. Where all blocks have the same
/// headings, none are shown.
pub proof fn law_headers_do_not_repeat_the_title(
    title: Seq<char>,
    rest: Seq<char>,
    count: int,
)
    requires
        without_arrow(title),
    ensures
        shown_header(title, count, title).len() == 0,
        count != 0 && rest != title ==> shown_header(titled(title, rest), count, title) == rest,
        rest == title ==> shown_header(titled(title, rest), count, title).len() == 0,
        shown_header(titled(title, rest), 0, title).len() == 0,
{
    reveal_strlit(" › ");
    let arrow = seq![' ', '›', ' '];
    assert(" › "@ =~= arrow);
    lemma_first_arrow(title, rest, 0);
    let s = titled(title, rest);
    assert(s.subrange(0, title.len() as int) =~= title);
    assert(s.subrange(3int + title.len(), s.len() as int) =~= rest);
    lemma_no_arrow(title, 0);
}

proof fn lemma_no_arrow(s: Seq<char>, k: int)
    requires
        without_arrow(s),
        0 <= k,
    ensures
        crate::locate::next_match(s, seq![' ', '›', ' '], k) is None,
    decreases s.len() + 1 - k,
{
    let arrow = seq![' ', '›', ' '];
    if k <= s.len() {
        if occurs_at(s, arrow, k) {
            assert(s.subrange(k, k + 3)[1] == s[k + 1]);
        }
        lemma_no_arrow(s, k + 1);
    }
}

/// Headings of another section than the title are shown as they are.
pub proof fn law_other_headers_are_shown(header: Seq<char>, title: Seq<char>, count: int)
    requires
        without_arrow(header),
        header != title,
        count != 0,
    ensures
        shown_header(header, count, title) == header,
{
    reveal_strlit(" › ");
    assert(" › "@ =~= seq![' ', '›', ' ']);
    lemma_no_arrow(header, 0);
    if header.len() == 0 {
        assert(header =~= Seq::empty());
    }
}

proof fn lemma_header_set(bounds: Seq<(int, int, Seq<char>)>, h: Seq<char>)
    ensures
        header_set(bounds).finite(),
        header_set(bounds).contains(h) <==> h.len() > 0 && exists|i: int|
            0 <= i < bounds.len() && (#[trigger] bounds[i]).2 == h,
    decreases bounds.len(),
{
    if bounds.len() > 0 {
        let init = bounds.drop_last();
        lemma_header_set(init, h);
        if exists|i: int| 0 <= i < bounds.len() && (#[trigger] bounds[i]).2 == h {
            let i = choose|i: int| 0 <= i < bounds.len() && (#[trigger] bounds[i]).2 == h;
            if i < init.len() {
                assert(init[i].2 == h);
            }
        }
        if exists|i: int| 0 <= i < init.len() && (#[trigger] init[i]).2 == h {
            let i = choose|i: int| 0 <= i < init.len() && (#[trigger] init[i]).2 == h;
            assert(bounds[i].2 == h);
        }
        assert(bounds[bounds.len() - 1] == bounds.last());
    }
}

/// Headings count where two blocks have different ones, and only there.
pub proof fn law_headers_count_where_they_differ(bounds: Seq<(int, int, Seq<char>)>)
    ensures
        header_count(bounds) != 0 <==> exists|i: int, j: int|
            0 <= i < bounds.len() && 0 <= j < bounds.len() && (#[trigger] bounds[i]).2.len() > 0 && (
            #[trigger] bounds[j]).2.len() > 0 && bounds[i].2 != bounds[j].2,
{
    let all = header_set(bounds);
    lemma_header_set(bounds, Seq::empty());
    if header_count(bounds) != 0 {
        let a = all.choose();
        lemma_header_set(bounds, a);
        let less = all.remove(a);
        assert(less.len() > 0);
        let b = less.choose();
        assert(less.contains(b));
        lemma_header_set(bounds, b);
        let i = choose|i: int| 0 <= i < bounds.len() && (#[trigger] bounds[i]).2 == a;
        let j = choose|j: int| 0 <= j < bounds.len() && (#[trigger] bounds[j]).2 == b;
        assert(bounds[i].2 != bounds[j].2);
    }
    if exists|i: int, j: int|
        0 <= i < bounds.len() && 0 <= j < bounds.len() && (#[trigger] bounds[i]).2.len() > 0 && (
        #[trigger] bounds[j]).2.len() > 0 && bounds[i].2 != bounds[j].2 {
        let (i, j) = choose|i: int, j: int|
            0 <= i < bounds.len() && 0 <= j < bounds.len() && (#[trigger] bounds[i]).2.len() > 0 && (
            #[trigger] bounds[j]).2.len() > 0 && bounds[i].2 != bounds[j].2;
        lemma_header_set(bounds, bounds[i].2);
        lemma_header_set(bounds, bounds[j].2);
        let a = bounds[i].2;
        let b = bounds[j].2;
        assert(all.contains(a) && all.contains(b));
        let less = all.remove(a);
        assert(less.contains(b));
        assert(less.len() > 0) by {
            if less.len() == 0 {
                assert(less =~= Set::empty());
            }
        }
    }
}

/// Both statements of a search ask for the same documents: those that the expression
/// matches and the filters let through; and the second one reads no more groups than
/// it was given room for.
pub proof fn law_statements_ask_for_the_same(filters: Filters, limit: nat)
    ensures
        ({
            let asked = "WHERE documents_fts MATCH ?"@ + filter_sql(filters);
            &&& contains(count_sql(filters), asked)
            &&& contains(candidate_sql(filters, limit as int), asked)
            &&& contains(candidate_sql(filters, limit as int), " LIMIT "@ + decimal(limit) + ")"@)
        }),
{
    let asked = where_sql(filters);
    let a = "SELECT COUNT(*), COUNT(DISTINCT "@ + group_key_sql() + ") "@ + from_sql() + " "@;
    let count = count_sql(filters);
    assert(count =~= a + asked);
    assert(count.subrange(a.len() as int, (a.len() + asked.len()) as int) =~= asked);
    assert(occurs_at(count, asked, a.len() as int));
    let b = "WITH matches AS MATERIALIZED (SELECT d.id, documents_fts.rank AS score, "@
        + group_key_sql() + " AS group_key "@ + from_sql() + " "@;
    let mid = " AND rank MATCH 'bm25(5.0, 1.0)'), selected_groups AS (SELECT group_key, MIN(score) AS best_rank, MIN(id) AS first_id FROM matches GROUP BY group_key ORDER BY best_rank, first_id LIMIT "@;
    let end = ") SELECT m.id, m.score, m.group_key FROM matches m JOIN selected_groups g ON g.group_key = m.group_key ORDER BY g.best_rank, g.first_id, m.score, m.id"@;
    let all = candidate_sql(filters, limit as int);
    let n = decimal(limit);
    assert(all =~= b + asked + mid + n + end);
    assert(all.subrange(b.len() as int, (b.len() + asked.len()) as int) =~= asked);
    assert(occurs_at(all, asked, b.len() as int));
    lemma_limit_mark(mid, end);
    let m = mid.len() as int;
    let part = " LIMIT "@ + n + ")"@;
    let k = b.len() + asked.len() + m - 7;
    assert(part.len() == 7 + n.len() + 1);
    assert(all.subrange(k, k + part.len()) =~= part) by {
        let front = b + asked;
        assert forall|i: int| 0 <= i < part.len() implies all.subrange(k, k + part.len())[i]
            == part[i] by {
            if i < 7 {
                assert(all[k + i] == mid[m - 7 + i]);
                assert(mid.skip(m - 7)[i] == " LIMIT "@[i]);
            } else if i < 7 + n.len() {
                assert(all[k + i] == n[i - 7]);
            } else {
                assert(all[k + i] == end[0]);
            }
        }
    }
    assert(occurs_at(all, part, k));
}

proof fn lemma_limit_mark(mid: Seq<char>, end: Seq<char>)
    requires
        mid
            == " AND rank MATCH 'bm25(5.0, 1.0)'), selected_groups AS (SELECT group_key, MIN(score) AS best_rank, MIN(id) AS first_id FROM matches GROUP BY group_key ORDER BY best_rank, first_id LIMIT "@,
        end
            == ") SELECT m.id, m.score, m.group_key FROM matches m JOIN selected_groups g ON g.group_key = m.group_key ORDER BY g.best_rank, g.first_id, m.score, m.id"@,
    ensures
        mid.len() > 7,
        mid.skip(mid.len() - 7) == " LIMIT "@,
        " LIMIT "@.len() == 7,
        ")"@.len() == 1,
        end.len() > 0,
        end[0] == ")"@[0],
{
    reveal_strlit(
        " AND rank MATCH 'bm25(5.0, 1.0)'), selected_groups AS (SELECT group_key, MIN(score) AS best_rank, MIN(id) AS first_id FROM matches GROUP BY group_key ORDER BY best_rank, first_id LIMIT ",
    );
    reveal_strlit(
        ") SELECT m.id, m.score, m.group_key FROM matches m JOIN selected_groups g ON g.group_key = m.group_key ORDER BY g.best_rank, g.first_id, m.score, m.id",
    );
    reveal_strlit(" LIMIT ");
    reveal_strlit(")");
    assert(mid.skip(mid.len() - 7) =~= " LIMIT "@);
}

/// A request is compiled with the synonyms of the dictionary and for the place that it
/// searches; words are only split where that is asked for and there is a segmenter.
pub proof fn law_requests_are_compiled_as_asked(request: SearchRequest, dictionary: Dictionary)
    ensures
        request_setting(request, dictionary).groups == dictionary.synonyms@,
        request_setting(request, dictionary).cut is Some <==> request.loose
            && dictionary.segmenter is Some,
        request_setting(request, dictionary).cut is Some ==> request_setting(
            request,
            dictionary,
        ).cut->0 == dictionary.segmenter->0@,
        request.scope == Scope::All ==> request_setting(request, dictionary).field is None,
        request.scope == Scope::Title ==> request_setting(request, dictionary).field == Some(
            Field::Title,
        ),
        request.scope == Scope::Content ==> request_setting(request, dictionary).field == Some(
            Field::Content,
        ),
{
}

} // verus!
