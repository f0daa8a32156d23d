//! How every dictionary file is read: its lines, the words on them, and which of them
//! are taken in.

use vstd::prelude::*;
use vstd::utf8::*;

use crate::dict::{
    entries_from, entry_lines, expansion, file_text, group_of, group_problem, holds_key,
    member_problem, owned, problem_views, read_groups, read_word, word_problem, FileReport,
    GroupReading,
};
use crate::line_laws::{blank, only_feeds, written};
use crate::number_laws::law_numbers_are_read_back;
use crate::spelling_laws::written as woven;
use crate::text::{
    decimal, line_end, lowered, number, space, trimmed, word_stop, words, words_from,
};
use crate::token_laws::same_but_for_case;
use crate::tokenize::searchable;

verus! {

/// Characters without white space.
pub open spec fn solid(s: Seq<char>) -> bool {
    s.len() > 0 && forall|i: int| 0 <= i < s.len() ==> !blank(#[trigger] s[i])
}

/// White space stands between the words, and may stand before and behind them.
pub open spec fn spread_out(list: Seq<Seq<char>>, gaps: Seq<Seq<char>>) -> bool {
    &&& gaps.len() == list.len() + 1
    &&& forall|i: int| 0 <= i < list.len() ==> solid(#[trigger] list[i])
    &&& forall|i: int, k: int|
        0 <= i < gaps.len() && 0 <= k < gaps[i].len() ==> blank(#[trigger] gaps[i][k])
    &&& forall|i: int| 0 < i < list.len() ==> (#[trigger] gaps[i]).len() > 0
}

proof fn lemma_skip_gap(s: Seq<char>, i: int, j: int)
    requires
        0 <= i <= j <= s.len(),
        forall|k: int| i <= k < j ==> space(#[trigger] s[k]),
    ensures
        words_from(s, i) == words_from(s, j),
    decreases j - i,
{
    if i < j {
        lemma_skip_gap(s, i + 1, j);
    }
}

proof fn lemma_stop(s: Seq<char>, i: int, j: int)
    requires
        0 <= i <= j <= s.len(),
        forall|k: int| i <= k < j ==> !space(#[trigger] s[k]),
        j == s.len() || space(s[j]),
    ensures
        word_stop(s, i) == j,
    decreases j - i,
{
    if i < j {
        lemma_stop(s, i + 1, j);
    }
}

proof fn lemma_words(s: Seq<char>, i: int, list: Seq<Seq<char>>, gaps: Seq<Seq<char>>)
    requires
        spread_out(list, gaps),
        0 <= i <= s.len(),
        s.skip(i) == woven(list, gaps),
    ensures
        words_from(s, i) == list,
    decreases list.len(),
{
    let gap = gaps[0];
    let rest = s.skip(i);
    let j = i + gap.len();
    assert(gap.len() <= rest.len());
    assert forall|k: int| i <= k < j implies space(#[trigger] s[k]) by {
        assert(s[k] == rest[k - i]);
        assert(rest[k - i] == gap[k - i]);
        assert(blank(gaps[0][k - i]));
    }
    lemma_skip_gap(s, i, j);
    if list.len() == 0 {
        assert(list =~= Seq::empty());
    } else {
        let word = list[0];
        assert(solid(word));
        let tail = woven(list.skip(1), gaps.skip(1));
        let k = j + word.len();
        assert(rest == gap + word + tail);
        assert forall|m: int| j <= m < k implies !space(#[trigger] s[m]) by {
            assert(s[m] == rest[m - i]);
            assert(rest[m - i] == word[m - j]);
            assert(!blank(word[m - j]));
        }
        assert(s.subrange(j, k) =~= word) by {
            assert(s.subrange(j, k) =~= rest.subrange(gap.len() as int, (gap.len() + word.len()) as int));
        }
        assert(s.skip(k) =~= tail) by {
            assert(s.skip(k) =~= rest.skip((gap.len() + word.len()) as int));
        }
        if k < s.len() {
            assert(s[k] == tail[0]);
            let next = gaps[1];
            assert(gaps.skip(1)[0] == next);
            if list.len() > 1 {
                assert(next.len() > 0);
                assert(tail[0] == next[0]);
            } else {
                assert(tail == next);
            }
            assert(blank(gaps[1][0]));
        }
        lemma_stop(s, j, k);
        assert(!space(s[j]));
        assert(spread_out(list.skip(1), gaps.skip(1))) by {
            let a = list.skip(1);
            let b = gaps.skip(1);
            assert forall|m: int| 0 <= m < a.len() implies solid(#[trigger] a[m]) by {
                assert(a[m] == list[m + 1]);
            }
            assert forall|m: int, n: int| 0 <= m < b.len() && 0 <= n < b[m].len() implies blank(
                #[trigger] b[m][n],
            ) by {
                assert(b[m] == gaps[m + 1]);
                assert(blank(gaps[m + 1][n]));
            }
            assert forall|m: int| 0 < m < a.len() implies (#[trigger] b[m]).len() > 0 by {
                assert(b[m] == gaps[m + 1]);
            }
        }
        lemma_words(s, k, list.skip(1), gaps.skip(1));
        assert(seq![word] + list.skip(1) =~= list);
    }
}

/// The words of a line are what stands between white space.
pub proof fn law_words_stand_between_white_space(list: Seq<Seq<char>>, gaps: Seq<Seq<char>>)
    requires
        spread_out(list, gaps),
    ensures
        words(woven(list, gaps)) == list,
{
    let s = woven(list, gaps);
    assert(s.skip(0) =~= s);
    lemma_words(s, 0, list, gaps);
}

/// A line that holds an entry: it is not empty, and no comment.
pub open spec fn is_entry(line: Seq<char>) -> bool {
    trimmed(line).len() > 0 && trimmed(line)[0] != '#'
}

/// The entries among the lines from the `k`-th on, with the numbers of their lines,
/// which start at one.
pub open spec fn entries_among(lines: Seq<Seq<char>>, k: int) -> Seq<(int, Seq<char>)>
    decreases lines.len() - k,
{
    if k < 0 || k >= lines.len() {
        Seq::empty()
    } else if is_entry(lines[k]) {
        seq![(k + 1, trimmed(lines[k]))] + entries_among(lines, k + 1)
    } else {
        entries_among(lines, k + 1)
    }
}

/// Where a line ends.
pub proof fn lemma_line_stops(s: Seq<char>, i: int, j: int)
    requires
        0 <= i <= j <= s.len(),
        forall|k: int| i <= k < j ==> #[trigger] s[k] != '\n',
        j == s.len() || s[j] == '\n',
    ensures
        line_end(s, i) == j,
    decreases j - i,
{
    if i < j {
        lemma_line_stops(s, i + 1, j);
    }
}

proof fn lemma_entries(s: Seq<char>, i: int, lines: Seq<Seq<char>>, k: int)
    requires
        forall|m: int| 0 <= m < lines.len() ==> !(#[trigger] lines[m]).contains('\n'),
        0 <= k < lines.len(),
        0 <= i <= s.len(),
        s.skip(i) == written(lines, only_feeds(lines), k),
    ensures
        entries_from(s, i, k + 1) == entries_among(lines, k),
    decreases lines.len() - k,
{
    let line = lines[k];
    let feeds = only_feeds(lines);
    let rest = s.skip(i);
    let j = i + line.len();
    if k < lines.len() - 1 {
        assert(feeds[k] == seq!['\n']);
        assert(rest == line + seq!['\n'] + written(lines, feeds, k + 1));
    }
    assert(line.len() <= rest.len());
    assert forall|m: int| i <= m < j implies #[trigger] s[m] != '\n' by {
        assert(s[m] == rest[m - i]);
        assert(rest[m - i] == line[m - i]);
        assert(line.contains(line[m - i]));
    }
    assert(s.subrange(i, j) =~= line) by {
        assert(s.subrange(i, j) =~= rest.subrange(0, line.len() as int));
    }
    if k == lines.len() - 1 {
        assert(j == s.len());
        assert(entries_among(lines, k + 1) =~= Seq::empty());
        if i < s.len() {
            lemma_line_stops(s, i, j);
            assert(entries_from(s, j + 1, k + 2) =~= Seq::empty());
        } else {
            assert(entries_from(s, i, k + 1) =~= Seq::empty());
            assert(line =~= Seq::empty());
            assert(trimmed(line).len() == 0) by {
                let (a, b) = crate::line_laws::law_trimmed(line);
            }
        }
    } else {
        assert(s[j] == '\n') by {
            assert(rest[line.len() as int] == '\n');
        }
        lemma_line_stops(s, i, j);
        assert(s.skip(j + 1) =~= written(lines, feeds, k + 1)) by {
            assert(s.skip(j + 1) =~= rest.skip(1int + line.len()));
        }
        lemma_entries(s, j + 1, lines, k + 1);
    }
}

/// The entries of a file are its lines without white space around them, those left out
/// that are empty or start with `#`, each with the number of its line.
pub proof fn law_entries_are_the_lines(lines: Seq<Seq<char>>)
    requires
        lines.len() > 0,
        forall|m: int| 0 <= m < lines.len() ==> !(#[trigger] lines[m]).contains('\n'),
    ensures
        entry_lines(written(lines, only_feeds(lines), 0)) == entries_among(lines, 0),
{
    let s = written(lines, only_feeds(lines), 0);
    assert(s.skip(0) =~= s);
    lemma_entries(s, 0, lines, 0);
}

/// A word can be taken in exactly when it has 64 characters at most, none of them a
/// star or a double quotation mark, and something that can be searched for.
pub proof fn law_which_words_can_be_taken_in(term: Seq<char>)
    ensures
        word_problem(term) is None <==> term.len() <= 64 && !term.contains('*') && !term.contains(
            '"',
        ) && searchable(term),
{
}

/// A line of words for segmentation has the word, then how often it occurs, then its
/// kind. The last two may be left out; the number has to be a positive one.
pub proof fn law_fields_of_words(word: Seq<char>, n: nat, tag: Seq<char>)
    requires
        word_problem(word) is None,
        0 < n <= usize::MAX,
        n <= u64::MAX,
    ensures
        read_word(seq![word]) == Ok::<
            (Seq<char>, Option<usize>, Option<Seq<char>>),
            Seq<char>,
        >((word, None, None)),
        read_word(seq![word, decimal(n)]) == Ok::<
            (Seq<char>, Option<usize>, Option<Seq<char>>),
            Seq<char>,
        >((word, Some(n as usize), None)),
        read_word(seq![word, decimal(n), tag]) == Ok::<
            (Seq<char>, Option<usize>, Option<Seq<char>>),
            Seq<char>,
        >((word, Some(n as usize), Some(tag))),
        read_word(seq![word, decimal(0)]) is Err,
        number(tag) is None ==> read_word(seq![word, tag]) is Err,
{
    law_numbers_are_read_back(n);
    law_numbers_are_read_back(0);
}

/// A word that cannot be taken in is refused, whatever follows it.
pub proof fn law_refused_words(fields: Seq<Seq<char>>)
    requires
        fields.len() > 0,
        word_problem(fields[0]) is Some,
    ensures
        read_word(fields) is Err,
{
}

/// The two words are the same whatever their case.
pub open spec fn alike(a: Seq<char>, b: Seq<char>) -> bool {
    same_but_for_case(a, b)
}

proof fn lemma_alike(a: Seq<char>, b: Seq<char>)
    ensures
        alike(a, b) <==> lowered(a) == lowered(b),
{
    crate::browse_laws::lemma_lowered_reads(b, a);
}

/// The members can stand together as a group: there are 2 to 32 of them, each can be
/// taken in, and no two are the same.
pub open spec fn good_group(members: Seq<Seq<char>>) -> bool {
    &&& 2 <= members.len() <= 32
    &&& forall|i: int| 0 <= i < members.len() ==> word_problem(#[trigger] members[i]) is None
    &&& forall|i: int, j: int|
        0 <= i < j < members.len() ==> !alike(#[trigger] members[i], #[trigger] members[j])
}

/// Some group has a word.
pub open spec fn known_in(groups: Seq<Seq<Seq<char>>>, word: Seq<char>) -> bool {
    exists|g: int, i: int|
        0 <= g < groups.len() && 0 <= i < groups[g].len() && alike(#[trigger] groups[g][i], word)
}

/// The words that are owned are those of the groups.
spec fn owners_match(r: GroupReading) -> bool {
    forall|word: Seq<char>| #[trigger]
        known_in(r.groups, word) <==> r.owners.dom().contains(lowered(word))
}

proof fn lemma_owned_dom(
    owners: Map<Seq<char>, usize>,
    members: Seq<Seq<char>>,
    line: usize,
    key: Seq<char>,
)
    ensures
        owned(owners, members, line).dom().contains(key) <==> owners.dom().contains(key)
            || exists|i: int| 0 <= i < members.len() && lowered(#[trigger] members[i]) == key,
    decreases members.len(),
{
    if members.len() > 0 {
        let init = members.drop_last();
        let last = members.len() - 1;
        lemma_owned_dom(owners, init, line, key);
        if exists|i: int| 0 <= i < members.len() && lowered(#[trigger] members[i]) == key {
            let i = choose|i: int| 0 <= i < members.len() && lowered(#[trigger] members[i]) == key;
            if i < last {
                assert(init[i] == members[i]);
            }
        }
        if exists|i: int| 0 <= i < init.len() && lowered(#[trigger] init[i]) == key {
            let i = choose|i: int| 0 <= i < init.len() && lowered(#[trigger] init[i]) == key;
            assert(members[i] == init[i]);
        }
        assert(members[last] == members.last());
    }
}

proof fn lemma_known_with(groups: Seq<Seq<Seq<char>>>, members: Seq<Seq<char>>, word: Seq<char>)
    ensures
        known_in(groups.push(members), word) <==> known_in(groups, word) || exists|i: int|
            0 <= i < members.len() && lowered(#[trigger] members[i]) == lowered(word),
{
    let all = groups.push(members);
    let n = groups.len() as int;
    if known_in(all, word) {
        let (g, i) = choose|g: int, i: int|
            0 <= g < all.len() && 0 <= i < all[g].len() && alike(#[trigger] all[g][i], word);
        lemma_alike(all[g][i], word);
        if g < n {
            assert(groups[g] == all[g]);
            assert(alike(groups[g][i], word));
        } else {
            assert(members[i] == all[g][i]);
        }
    }
    if known_in(groups, word) {
        let (g, i) = choose|g: int, i: int|
            0 <= g < groups.len() && 0 <= i < groups[g].len() && alike(#[trigger] groups[g][i], word);
        assert(alike(all[g][i], word));
    }
    if exists|i: int| 0 <= i < members.len() && lowered(#[trigger] members[i]) == lowered(word) {
        let i = choose|i: int|
            0 <= i < members.len() && lowered(#[trigger] members[i]) == lowered(word);
        lemma_alike(members[i], word);
        assert(alike(all[n][i], word));
    }
}

proof fn lemma_owners(lines: Seq<(int, Seq<char>)>)
    ensures
        owners_match(read_groups(lines)),
    decreases lines.len(),
{
    let r = read_groups(lines);
    if lines.len() == 0 {
        assert forall|word: Seq<char>| #[trigger] known_in(
            r.groups,
            word,
        ) <==> r.owners.dom().contains(lowered(word)) by {}
    } else {
        let before = read_groups(lines.drop_last());
        lemma_owners(lines.drop_last());
        let entry = lines.last();
        let members = words(entry.1);
        if r.groups != before.groups {
            assert forall|word: Seq<char>| #[trigger] known_in(
                r.groups,
                word,
            ) <==> r.owners.dom().contains(lowered(word)) by {
                lemma_known_with(before.groups, members, word);
                lemma_owned_dom(before.owners, members, entry.0 as usize, lowered(word));
                assert(known_in(before.groups, word) <==> before.owners.dom().contains(
                    lowered(word),
                ));
            }
        }
    }
}

proof fn lemma_member_problem(owners: Map<Seq<char>, usize>, members: Seq<Seq<char>>, k: int)
    requires
        0 <= k <= members.len(),
    ensures
        member_problem(owners, members, k) is None <==> {
            &&& forall|i: int|
                k <= i < members.len() ==> word_problem(#[trigger] members[i]) is None
                    && !owners.dom().contains(lowered(members[i]))
            &&& forall|i: int, j: int|
                0 <= i < j < members.len() && k <= j ==> lowered(#[trigger] members[i]) != lowered(
                    #[trigger] members[j],
                )
        },
    decreases members.len() - k,
{
    if k < members.len() {
        lemma_member_problem(owners, members, k + 1);
        let key = lowered(members[k]);
        if member_problem(owners, members, k) is None {
            assert forall|i: int, j: int| 0 <= i < j < members.len() && k <= j implies lowered(
                #[trigger] members[i],
            ) != lowered(#[trigger] members[j]) by {
                if j == k {
                    assert(lowered(members[i]) != key);
                }
            }
        }
    }
}

/// A line of synonyms is taken in as a group exactly when its words can stand together,
/// none of them is in a group before it, and all the words together are 10000 at most.
/// Nothing else is taken in, and nothing is lost.
pub proof fn law_which_groups_are_taken_in(lines: Seq<(int, Seq<char>)>, entry: (int, Seq<char>))
    requires
        !read_groups(lines).full,
    ensures
        ({
            let before = read_groups(lines);
            let after = read_groups(lines.push(entry));
            let members = words(entry.1);
            let good = good_group(members) && (forall|i: int|
                0 <= i < members.len() ==> !known_in(before.groups, #[trigger] members[i]))
                && before.terms + members.len() <= 10_000;
            &&& good ==> after.groups == before.groups.push(members) && after.problems
                == before.problems
            &&& !good ==> after.groups == before.groups && after.problems.len()
                == before.problems.len() + 1 && after.problems.last().0 == entry.0
        }),
{
    let all = lines.push(entry);
    let before = read_groups(lines);
    let members = words(entry.1);
    assert(all.drop_last() =~= lines);
    lemma_owners(lines);
    lemma_member_problem(before.owners, members, 0);
    if group_problem(before.owners, members) is None {
        assert forall|i: int, j: int| 0 <= i < j < members.len() implies !alike(
            #[trigger] members[i],
            #[trigger] members[j],
        ) by {
            lemma_alike(members[i], members[j]);
        }
        assert forall|i: int| 0 <= i < members.len() implies !known_in(
            before.groups,
            #[trigger] members[i],
        ) by {
            assert(!before.owners.dom().contains(lowered(members[i])));
        }
    }
    if good_group(members) && (forall|i: int|
        0 <= i < members.len() ==> !known_in(before.groups, #[trigger] members[i])) {
        assert forall|i: int, j: int| 0 <= i < j < members.len() && 0 <= j implies lowered(
            #[trigger] members[i],
        ) != lowered(#[trigger] members[j]) by {
            lemma_alike(members[i], members[j]);
            assert(!alike(members[i], members[j]));
        }
        assert forall|i: int| 0 <= i < members.len() implies word_problem(
            #[trigger] members[i],
        ) is None && !before.owners.dom().contains(lowered(members[i])) by {
            assert(!known_in(before.groups, members[i]));
        }
    }
}

proof fn lemma_no_group(groups: Seq<Seq<Seq<char>>>, term: Seq<char>)
    requires
        !known_in(groups, term),
    ensures
        group_of(groups, lowered(term)) is None,
    decreases groups.len(),
{
    if groups.len() > 0 {
        let n = groups.len() - 1;
        if holds_key(groups.last(), lowered(term)) {
            let last = groups.last();
            let i = choose|i: int| 0 <= i < last.len() && lowered(#[trigger] last[i]) == lowered(term);
            lemma_alike(last[i], term);
            assert(alike(groups[n][i], term));
        }
        let init = groups.drop_last();
        if known_in(init, term) {
            let (g, i) = choose|g: int, i: int|
                0 <= g < init.len() && 0 <= i < init[g].len() && alike(#[trigger] init[g][i], term);
            assert(alike(groups[g][i], term));
        }
        lemma_no_group(init, term);
    }
}

/// A word that is in no group stands for itself alone.
pub proof fn law_unknown_words_stand_for_themselves(groups: Seq<Seq<Seq<char>>>, term: Seq<char>)
    requires
        !known_in(groups, term),
    ensures
        expansion(groups, term) == seq![term],
{
    lemma_no_group(groups, term);
}

/// What a word stands for is a whole group that has the word, wherever it stands for
/// more than itself.
pub proof fn law_expansions_are_groups(groups: Seq<Seq<Seq<char>>>, term: Seq<char>)
    requires
        known_in(groups, term),
    ensures
        exists|g: int|
            0 <= g < groups.len() && #[trigger] groups[g] == expansion(groups, term) && exists|i: int|
                0 <= i < groups[g].len() && alike(#[trigger] groups[g][i], term),
    decreases groups.len(),
{
    let n = groups.len() - 1;
    let last = groups.last();
    if holds_key(last, lowered(term)) {
        let i = choose|i: int| 0 <= i < last.len() && lowered(#[trigger] last[i]) == lowered(term);
        lemma_alike(last[i], term);
        assert(groups[n] == last);
        assert(alike(groups[n][i], term));
    } else {
        let init = groups.drop_last();
        let (g, i) = choose|g: int, i: int|
            0 <= g < groups.len() && 0 <= i < groups[g].len() && alike(#[trigger] groups[g][i], term);
        if g == n {
            lemma_alike(groups[n][i], term);
            assert(lowered(last[i]) == lowered(term));
        } else {
            assert(alike(init[g][i], term));
        }
        law_expansions_are_groups(init, term);
        let h = choose|h: int|
            0 <= h < init.len() && #[trigger] init[h] == expansion(init, term) && exists|i: int|
                0 <= i < init[h].len() && alike(#[trigger] init[h][i], term);
        assert(groups[h] == init[h]);
    }
}

/// A dictionary file that holds a text in UTF-8 is read as that text, without a byte
/// order mark in front; any other file is read as GB18030.
pub proof fn law_files_are_read_as_text(s: Seq<char>)
    ensures
        s.len() == 0 || s[0] != '\u{feff}' ==> file_text(encode_utf8(s)) == s,
        file_text(encode_utf8(seq!['\u{feff}'] + s)) == s,
{
    encode_utf8_valid_utf8(s);
    encode_utf8_decode_utf8(s);
    let marked = seq!['\u{feff}'] + s;
    encode_utf8_valid_utf8(marked);
    encode_utf8_decode_utf8(marked);
    assert(marked.drop_first() =~= s);
}

/// A report lists five problems at most, the first ones, and tells whether there are
/// more.
pub proof fn law_reports_list_the_first_problems(report: FileReport, all: Seq<(int, Seq<char>)>)
    requires
        report.reports(all),
    ensures
        report.problems@.len() == if all.len() <= 5 {
            all.len() as int
        } else {
            5
        },
        forall|i: int|
            0 <= i < report.problems@.len() ==> (#[trigger] report.problems@[i])@ == all[i],
        report.problems_truncated <==> all.len() > 5,
{
    let shown = problem_views(report.problems@);
    assert(shown.len() == report.problems@.len());
    assert forall|i: int| 0 <= i < report.problems@.len() implies (
    #[trigger] report.problems@[i])@ == all[i] by {
        assert(shown[i] == report.problems@[i]@);
    }
}

} // verus!
