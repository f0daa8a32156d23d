//! What holds of the report on every dictionary file.

use vstd::prelude::*;

use crate::dict::{
    entries_from, entry_lines, listed, problem_views, read_group_line, read_groups, read_word_line,
    read_words, FileReport,
};
use crate::text::{lemma_line_end, line_end, words};

verus! {

/// The line numbers rise.
pub open spec fn lines_rise(list: Seq<(int, Seq<char>)>) -> bool {
    forall|i: int, j: int| 0 <= i < j < list.len() ==> (#[trigger] list[i]).0 < (#[trigger] list[j]).0
}

/// Every line number is one of those of the lines.
pub open spec fn lines_among(list: Seq<(int, Seq<char>)>, lines: Seq<(int, Seq<char>)>) -> bool {
    forall|i: int|
        0 <= i < list.len() ==> exists|k: int|
            0 <= k < lines.len() && (#[trigger] lines[k]).0 == (#[trigger] list[i]).0
}

/// Number of members of groups.
pub open spec fn member_total(groups: Seq<Seq<Seq<char>>>) -> int
    decreases groups.len(),
{
    if groups.len() == 0 {
        0
    } else {
        member_total(groups.drop_last()) + groups.last().len()
    }
}

proof fn lemma_entries_rise(s: Seq<char>, i: int, n: int)
    requires
        0 <= i,
    ensures
        lines_rise(entries_from(s, i, n)),
        forall|k: int|
            0 <= k < entries_from(s, i, n).len() ==> n <= (#[trigger] entries_from(s, i, n)[k]).0,
    decreases s.len() + 1 - i,
{
    if i < s.len() {
        lemma_line_end(s, i);
        let end = line_end(s, i);
        lemma_entries_rise(s, end + 1, n + 1);
        let rest = entries_from(s, end + 1, n + 1);
        let all = entries_from(s, i, n);
        if all != rest {
            assert forall|k: int| 0 <= k < all.len() implies n <= (#[trigger] all[k]).0 by {
                if k > 0 {
                    assert(all[k] == rest[k - 1]);
                }
            }
            assert forall|j: int, k: int| 0 <= j < k < all.len() implies (#[trigger] all[j]).0 < (
            #[trigger] all[k]).0 by {
                assert(all[k] == rest[k - 1]);
                if j > 0 {
                    assert(all[j] == rest[j - 1]);
                }
            }
        } else {
            assert forall|k: int| 0 <= k < all.len() implies n <= (#[trigger] all[k]).0 by {
                assert(all[k] == rest[k]);
            }
        }
    }
}

/// A problem on the last of the lines, or none, behind those on the lines before.
proof fn lemma_problems_go_on(
    lines: Seq<(int, Seq<char>)>,
    before: Seq<(int, Seq<char>)>,
    after: Seq<(int, Seq<char>)>,
)
    requires
        lines.len() > 0,
        lines_rise(lines),
        lines_rise(before),
        lines_among(before, lines.drop_last()),
        after == before || (after.len() == before.len() + 1 && after.drop_last() == before
            && after.last().0 == lines.last().0),
    ensures
        lines_rise(after),
        lines_among(after, lines),
{
    let init = lines.drop_last();
    let n = lines.len() - 1;
    assert forall|i: int| 0 <= i < before.len() implies (#[trigger] before[i]).0 < lines[n].0
        && exists|k: int| 0 <= k < lines.len() && (#[trigger] lines[k]).0 == before[i].0 by {
        let k = choose|k: int| 0 <= k < init.len() && (#[trigger] init[k]).0 == before[i].0;
        assert(lines[k] == init[k]);
        assert(lines[k].0 < lines[n].0);
    }
    assert forall|i: int| 0 <= i < after.len() implies exists|k: int|
        0 <= k < lines.len() && (#[trigger] lines[k]).0 == (#[trigger] after[i]).0 by {
        if i < before.len() {
            assert(after[i] == before[i]);
        } else {
            assert(lines[n].0 == after[i].0);
        }
    }
    assert forall|i: int, j: int| 0 <= i < j < after.len() implies (#[trigger] after[i]).0 < (
    #[trigger] after[j]).0 by {
        assert(after[i] == before[i]);
        if j < before.len() {
            assert(after[j] == before[j]);
        }
    }
}

proof fn lemma_drop_last_rises(lines: Seq<(int, Seq<char>)>)
    requires
        lines_rise(lines),
        lines.len() > 0,
    ensures
        lines_rise(lines.drop_last()),
{
    let init = lines.drop_last();
    assert forall|i: int, j: int| 0 <= i < j < init.len() implies (#[trigger] init[i]).0 < (
    #[trigger] init[j]).0 by {
        assert(init[i] == lines[i] && init[j] == lines[j]);
    }
}

proof fn lemma_word_problems(lines: Seq<(int, Seq<char>)>)
    requires
        lines_rise(lines),
    ensures
        lines_rise(read_words(lines).problems),
        lines_among(read_words(lines).problems, lines),
        !read_words(lines).full ==> read_words(lines).words.len() + read_words(lines).problems.len()
            == lines.len(),
    decreases lines.len(),
{
    if lines.len() > 0 {
        lemma_drop_last_rises(lines);
        lemma_word_problems(lines.drop_last());
        let before = read_words(lines.drop_last());
        let after = read_word_line(before, lines.last());
        assert(after.problems == before.problems || after.problems.drop_last() =~= before.problems);
        lemma_problems_go_on(lines, before.problems, after.problems);
    }
}

proof fn lemma_group_problems(lines: Seq<(int, Seq<char>)>)
    requires
        lines_rise(lines),
    ensures
        lines_rise(read_groups(lines).problems),
        lines_among(read_groups(lines).problems, lines),
        read_groups(lines).terms == member_total(read_groups(lines).groups),
        !read_groups(lines).full ==> read_groups(lines).groups.len() + read_groups(
            lines,
        ).problems.len() == lines.len(),
    decreases lines.len(),
{
    if lines.len() > 0 {
        lemma_drop_last_rises(lines);
        lemma_group_problems(lines.drop_last());
        let before = read_groups(lines.drop_last());
        let after = read_group_line(before, lines.last());
        assert(after.problems == before.problems || after.problems.drop_last() =~= before.problems);
        lemma_problems_go_on(lines, before.problems, after.problems);
        if after.groups != before.groups {
            assert(after.groups == before.groups.push(words(lines.last().1)));
            assert(after.groups.drop_last() =~= before.groups);
        }
    }
}

/// The numbers of the lines on which a report has found problems rise.
pub proof fn law_reported_lines_rise(text: Seq<char>, report: FileReport)
    requires
        report.reports(read_words(entry_lines(text)).problems) || report.reports(
            read_groups(entry_lines(text)).problems,
        ),
    ensures
        lines_rise(problem_views(report.problems@)),
        lines_among(problem_views(report.problems@), entry_lines(text)),
{
    let lines = entry_lines(text);
    lemma_entries_rise(text, 0, 1);
    lemma_word_problems(lines);
    lemma_group_problems(lines);
    let all = if report.reports(read_words(lines).problems) {
        read_words(lines).problems
    } else {
        read_groups(lines).problems
    };
    let shown = problem_views(report.problems@);
    assert(shown == listed(all));
    assert forall|i: int, j: int| 0 <= i < j < shown.len() implies (#[trigger] shown[i]).0 < (
    #[trigger] shown[j]).0 by {
        assert(shown[i] == all[i] && shown[j] == all[j]);
    }
    assert forall|i: int| 0 <= i < shown.len() implies exists|k: int|
        0 <= k < lines.len() && (#[trigger] lines[k]).0 == (#[trigger] shown[i]).0 by {
        assert(shown[i] == all[i]);
    }
}

/// The words that a file of synonyms brings in are the members of its groups.
pub proof fn law_terms_are_the_members(text: Seq<char>)
    ensures
        read_groups(entry_lines(text)).terms == member_total(read_groups(entry_lines(text)).groups),
{
    lemma_entries_rise(text, 0, 1);
    lemma_group_problems(entry_lines(text));
}

/// Every entry of a file is either taken in or reported, until the limit is
/// reached.
pub proof fn law_every_entry_is_accounted_for(text: Seq<char>)
    ensures
        ({
            let lines = entry_lines(text);
            &&& !read_words(lines).full ==> read_words(lines).words.len() + read_words(
                lines,
            ).problems.len() == lines.len()
            &&& !read_groups(lines).full ==> read_groups(lines).groups.len() + read_groups(
                lines,
            ).problems.len() == lines.len()
        }),
{
    lemma_entries_rise(text, 0, 1);
    lemma_word_problems(entry_lines(text));
    lemma_group_problems(entry_lines(text));
}

} // verus!
