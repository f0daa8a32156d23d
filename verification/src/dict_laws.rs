//! What holds of every dictionary.

use vstd::prelude::*;

use crate::dict::{
    entry_lines, expansion, group_of, group_problem, holds_key, member_problem, owned,
    read_group_line, read_groups, read_word, read_words, word_problem, GroupReading, MAX_ENTRIES,
    MAX_GROUP_MEMBERS,
};
use crate::query::quotable;
use crate::text::{lemma_number, lowered, words};
use crate::tokenize::searchable;

verus! {

proof fn lemma_members_fine(owners: Map<Seq<char>, usize>, members: Seq<Seq<char>>, k: int)
    requires
        0 <= k <= members.len(),
        member_problem(owners, members, k) is None,
    ensures
        forall|i: int|
            k <= i < members.len() ==> {
                &&& word_problem(#[trigger] members[i]) is None
                &&& !owners.dom().contains(lowered(members[i]))
            },
        forall|i: int, j: int|
            0 <= j < i && k <= i < members.len() ==> lowered(#[trigger] members[j]) != lowered(
                #[trigger] members[i],
            ),
    decreases members.len() - k,
{
    if k < members.len() {
        lemma_members_fine(owners, members, k + 1);
    }
}

proof fn lemma_owned(owners: Map<Seq<char>, usize>, members: Seq<Seq<char>>, line: usize)
    ensures
        forall|key: Seq<char>|
            owners.dom().contains(key) ==> #[trigger] owned(owners, members, line).dom().contains(key),
        forall|i: int|
            0 <= i < members.len() ==> owned(owners, members, line).dom().contains(
                lowered(#[trigger] members[i]),
            ),
    decreases members.len(),
{
    if members.len() > 0 {
        let init = members.drop_last();
        lemma_owned(owners, init, line);
        assert forall|key: Seq<char>| owners.dom().contains(key) implies #[trigger] owned(
            owners,
            members,
            line,
        ).dom().contains(key) by {
            assert(owned(owners, init, line).dom().contains(key));
        }
        assert forall|i: int| 0 <= i < members.len() implies owned(
            owners,
            members,
            line,
        ).dom().contains(lowered(#[trigger] members[i])) by {
            if i < init.len() {
                assert(init[i] == members[i]);
            }
        }
    }
}

/// The groups have two members or more, up to the limit, each of which can be
/// searched for.
pub open spec fn usable(groups: Seq<Seq<Seq<char>>>) -> bool {
    forall|g: int|
        0 <= g < groups.len() ==> {
            &&& 2 <= (#[trigger] groups[g]).len() <= MAX_GROUP_MEMBERS
            &&& forall|i: int|
                0 <= i < groups[g].len() ==> word_problem(#[trigger] groups[g][i]) is None
        }
}

/// No two members, of one group or of different ones, are the same word when
/// the case of ASCII letters is left out of account.
pub open spec fn unshared(groups: Seq<Seq<Seq<char>>>) -> bool {
    forall|g: int, i: int, h: int, j: int|
        0 <= g < groups.len() && 0 <= i < groups[g].len() && 0 <= h < groups.len() && 0 <= j
            < groups[h].len() && lowered(#[trigger] groups[g][i]) == lowered(#[trigger] groups[h][j])
            ==> g == h && i == j
}

spec fn consistent(r: GroupReading) -> bool {
    &&& usable(r.groups)
    &&& unshared(r.groups)
    &&& 0 <= r.terms <= MAX_ENTRIES
    &&& forall|g: int, i: int|
        0 <= g < r.groups.len() && 0 <= i < r.groups[g].len() ==> r.owners.dom().contains(
            lowered(#[trigger] r.groups[g][i]),
        )
}

proof fn lemma_line_keeps(r: GroupReading, entry: (int, Seq<char>))
    requires
        consistent(r),
    ensures
        consistent(read_group_line(r, entry)),
{
    let members = words(entry.1);
    let next = read_group_line(r, entry);
    if !r.full && group_problem(r.owners, members) is None && r.terms + members.len()
        <= MAX_ENTRIES {
        lemma_members_fine(r.owners, members, 0);
        lemma_owned(r.owners, members, entry.0 as usize);
        let n = r.groups.len() as int;
        assert forall|g: int| 0 <= g < next.groups.len() implies {
            &&& 2 <= (#[trigger] next.groups[g]).len() <= MAX_GROUP_MEMBERS
            &&& forall|i: int|
                0 <= i < next.groups[g].len() ==> word_problem(#[trigger] next.groups[g][i]) is None
        } by {
            if g < n {
                assert(next.groups[g] == r.groups[g]);
            } else {
                assert(next.groups[g] == members);
            }
        }
        assert forall|g: int, i: int|
            0 <= g < next.groups.len() && 0 <= i
                < next.groups[g].len() implies next.owners.dom().contains(
            lowered(#[trigger] next.groups[g][i]),
        ) by {
            if g < n {
                assert(next.groups[g][i] == r.groups[g][i]);
            } else {
                assert(next.groups[g][i] == members[i]);
            }
        }
        assert forall|g: int, i: int, h: int, j: int|
            0 <= g < next.groups.len() && 0 <= i < next.groups[g].len() && 0 <= h
                < next.groups.len() && 0 <= j < next.groups[h].len() && lowered(
                #[trigger] next.groups[g][i],
            ) == lowered(#[trigger] next.groups[h][j]) implies g == h && i == j by {
            if g < n {
                assert(next.groups[g][i] == r.groups[g][i]);
            } else {
                assert(next.groups[g][i] == members[i]);
            }
            if h < n {
                assert(next.groups[h][j] == r.groups[h][j]);
            } else {
                assert(next.groups[h][j] == members[j]);
            }
        }
    }
}

proof fn lemma_reading_keeps(lines: Seq<(int, Seq<char>)>)
    ensures
        consistent(read_groups(lines)),
    decreases lines.len(),
{
    if lines.len() > 0 {
        lemma_reading_keeps(lines.drop_last());
        lemma_line_keeps(read_groups(lines.drop_last()), lines.last());
    }
}

/// In what is read from a file of synonyms every word belongs to one group
/// only, whatever the case of its ASCII letters.
pub proof fn law_words_belong_to_one_group(text: Seq<char>)
    ensures
        unshared(read_groups(entry_lines(text)).groups),
{
    lemma_reading_keeps(entry_lines(text));
}

/// Every group that is read from a file has between two members and the most
/// there may be, and all groups together keep to the limit on words.
pub proof fn law_groups_keep_to_limits(text: Seq<char>)
    ensures
        usable(read_groups(entry_lines(text)).groups),
        read_groups(entry_lines(text)).terms <= MAX_ENTRIES,
{
    lemma_reading_keeps(entry_lines(text));
}

/// A word that a dictionary takes in can stand in a query.
pub proof fn law_dictionary_words_can_be_searched(term: Seq<char>)
    requires
        word_problem(term) is None,
    ensures
        quotable(term),
        searchable(term),
{
}

proof fn lemma_group_found(groups: Seq<Seq<Seq<char>>>, g: int, i: int)
    requires
        unshared(groups),
        0 <= g < groups.len(),
        0 <= i < groups[g].len(),
    ensures
        group_of(groups, lowered(groups[g][i])) == Some(groups[g]),
    decreases groups.len(),
{
    let key = lowered(groups[g][i]);
    let last = groups.len() - 1;
    if g == last {
        assert(holds_key(groups.last(), key));
    } else {
        if holds_key(groups.last(), key) {
            let j = choose|j: int|
                0 <= j < groups.last().len() && lowered(#[trigger] groups.last()[j]) == key;
            assert(lowered(groups[last][j]) == lowered(groups[g][i]));
            assert(false);
        }
        let init = groups.drop_last();
        assert(unshared(init)) by {
            assert forall|a: int, b: int, c: int, d: int|
                0 <= a < init.len() && 0 <= b < init[a].len() && 0 <= c < init.len() && 0 <= d
                    < init[c].len() && lowered(#[trigger] init[a][b]) == lowered(
                    #[trigger] init[c][d],
                ) implies a == c && b == d by {
                assert(init[a][b] == groups[a][b]);
                assert(init[c][d] == groups[c][d]);
            }
        }
        assert(init[g][i] == groups[g][i]);
        lemma_group_found(init, g, i);
    }
}

/// Every member of a group leads to the whole group, whatever the case in
/// which its ASCII letters are written.
pub proof fn law_members_lead_to_their_group(
    groups: Seq<Seq<Seq<char>>>,
    g: int,
    i: int,
    term: Seq<char>,
)
    requires
        unshared(groups),
        0 <= g < groups.len(),
        0 <= i < groups[g].len(),
        lowered(term) == lowered(groups[g][i]),
    ensures
        expansion(groups, term) == groups[g],
{
    lemma_group_found(groups, g, i);
}

/// Words for segmentation that can be searched, none with the frequency zero.
pub open spec fn sound_words(found: Seq<(Seq<char>, Option<usize>, Option<Seq<char>>)>) -> bool {
    forall|i: int|
        0 <= i < found.len() ==> {
            &&& word_problem((#[trigger] found[i]).0) is None
            &&& found[i].1 != Some(0usize)
        }
}

proof fn lemma_words_sound(lines: Seq<(int, Seq<char>)>)
    ensures
        sound_words(read_words(lines).words),
        read_words(lines).words.len() <= MAX_ENTRIES,
    decreases lines.len(),
{
    if lines.len() > 0 {
        lemma_words_sound(lines.drop_last());
        let before = read_words(lines.drop_last());
        let after = read_words(lines);
        assert forall|i: int| 0 <= i < after.words.len() implies {
            &&& word_problem((#[trigger] after.words[i]).0) is None
            &&& after.words[i].1 != Some(0usize)
        } by {
            if i < before.words.len() {
                assert(after.words[i] == before.words[i]);
            } else {
                let fields = words(lines.last().1);
                assert(read_word(fields) == Ok::<
                    (Seq<char>, Option<usize>, Option<Seq<char>>),
                    Seq<char>,
                >(after.words[i]));
                if fields.len() >= 2 {
                    lemma_number(fields[1]);
                }
            }
        }
    }
}

/// What is read from a file of words keeps to the limit, and has no word that
/// cannot be searched for and none with the frequency zero, which would never
/// be split off.
pub proof fn law_user_words_are_sound(text: Seq<char>)
    ensures
        sound_words(read_words(entry_lines(text)).words),
        read_words(entry_lines(text)).words.len() <= MAX_ENTRIES,
{
    lemma_words_sound(entry_lines(text));
}

} // verus!
