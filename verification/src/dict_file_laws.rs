//! What holds of dictionary files that lines are added to.

use vstd::prelude::*;
use vstd::utf8::{
    char_u32_cast, decode_utf8, decode_utf8_encode_utf8, encode_scalar, encode_utf8,
    has_width_1_encoding, last_continuation_byte, leading_byte_width_1, valid_utf8,
};

use crate::dict::{
    addition_problem, closed_lines, entries_from, entry_lines, file_text,
    law_added_line_is_read_back, line_bytes, line_feed_count, line_problem, member_problem, owned,
    read_groups, read_word_line, read_words, GroupReading, MAX_ENTRIES,
};
use crate::entry_laws::{good_group, known_in, law_which_groups_are_taken_in};
use crate::text::{
    drop_space, lemma_line_end, lemma_trimmed, lemma_trimmed_start, line_end, lowered, skip_space,
    space, trimmed, words,
};

verus! {

proof fn lemma_line_end_in_front(s: Seq<char>, t: Seq<char>, i: int)
    requires
        0 <= i <= s.len(),
    ensures
        line_end(s, i) < s.len() ==> line_end(s + t, i) == line_end(s, i),
        s.len() > 0 && s.last() == '\n' && i < s.len() ==> line_end(s, i) < s.len(),
    decreases s.len() - i,
{
    if i < s.len() && s[i] != '\n' {
        assert((s + t)[i] == s[i]);
        lemma_line_end_in_front(s, t, i + 1);
        if i + 1 == s.len() {
            assert(s.last() == s[i]);
        }
    } else if i < s.len() {
        assert((s + t)[i] == s[i]);
    }
}

proof fn lemma_feeds_of_line(s: Seq<char>, i: int)
    requires
        0 <= i <= s.len(),
        line_end(s, i) < s.len(),
    ensures
        line_feed_count(s.take(line_end(s, i) + 1)) == line_feed_count(s.take(i)) + 1,
    decreases s.len() - i,
{
    assert(s.take(i + 1).drop_last() =~= s.take(i));
    assert(s.take(i + 1).last() == s[i]);
    if s[i] != '\n' {
        lemma_feeds_of_line(s, i + 1);
    }
}

/// The entries of a text that follows whole lines.
proof fn lemma_entries_concat(s: Seq<char>, t: Seq<char>, i: int, n: int)
    requires
        0 <= i <= s.len(),
        s.len() == 0 || s.last() == '\n',
    ensures
        entries_from(s + t, i, n) == entries_from(s, i, n) + entries_from(
            t,
            0,
            n + line_feed_count(s) - line_feed_count(s.take(i)),
        ),
    decreases s.len() - i,
{
    let all = s + t;
    if i < s.len() {
        let end = line_end(s, i);
        lemma_line_end(s, i);
        lemma_line_end_in_front(s, t, i);
        lemma_feeds_of_line(s, i);
        lemma_entries_concat(s, t, end + 1, n + 1);
        assert(all.subrange(i, end) =~= s.subrange(i, end));
        let line = trimmed(s.subrange(i, end));
        let rest = entries_from(s, end + 1, n + 1);
        let behind = entries_from(t, 0, n + line_feed_count(s) - line_feed_count(s.take(i)));
        assert(entries_from(all, end + 1, n + 1) == rest + behind);
        if line.len() > 0 && line[0] != '#' {
            assert(seq![(n, line)] + (rest + behind) =~= (seq![(n, line)] + rest) + behind);
        }
    } else {
        assert(s.take(i) =~= s);
        assert(entries_from(s, i, n) =~= Seq::empty());
        lemma_entries_behind(s, t, 0, n);
        assert(entries_from(s, i, n) + entries_from(t, 0, n) =~= entries_from(t, 0, n));
    }
}

proof fn lemma_line_end_behind(s: Seq<char>, t: Seq<char>, i: int)
    requires
        0 <= i <= t.len(),
    ensures
        line_end(s + t, s.len() + i) == s.len() + line_end(t, i),
    decreases t.len() - i,
{
    if i < t.len() {
        assert((s + t)[s.len() + i] == t[i]);
        if t[i] != '\n' {
            lemma_line_end_behind(s, t, i + 1);
        }
    }
}

proof fn lemma_entries_behind(s: Seq<char>, t: Seq<char>, i: int, n: int)
    requires
        0 <= i,
    ensures
        entries_from(s + t, s.len() + i, n) == entries_from(t, i, n),
    decreases t.len() + 1 - i,
{
    if i < t.len() {
        lemma_line_end(t, i);
        lemma_line_end_behind(s, t, i);
        let end = line_end(t, i);
        assert((s + t).subrange(s.len() + i, s.len() + end) =~= t.subrange(i, end));
        lemma_entries_behind(s, t, end + 1, n + 1);
    }
}

/// A line feed at the end of a text adds no entry.
proof fn lemma_entries_closed(t: Seq<char>, i: int, n: int)
    requires
        0 <= i,
    ensures
        entries_from(t.push('\n'), i, n) == entries_from(t, i, n),
    decreases t.len() + 1 - i,
{
    let all = t.push('\n');
    if i < t.len() {
        lemma_line_end(t, i);
        lemma_line_end_closed(t, i);
        let end = line_end(t, i);
        assert(all.subrange(i, end) =~= t.subrange(i, end));
        lemma_entries_closed(t, end + 1, n + 1);
    } else if i == t.len() {
        lemma_line_end_closed(t, i);
        assert(all.subrange(i, i) =~= Seq::empty());
        lemma_trimmed(all.subrange(i, i));
        assert(entries_from(all, i + 1, n + 1) =~= Seq::empty());
        assert(entries_from(t, i, n) =~= Seq::empty());
    }
}

proof fn lemma_line_end_closed(t: Seq<char>, i: int)
    requires
        0 <= i <= t.len(),
    ensures
        line_end(t.push('\n'), i) == line_end(t, i),
    decreases t.len() - i,
{
    if i < t.len() && t[i] != '\n' {
        lemma_line_end_closed(t, i + 1);
    }
}

/// Entries that differ in their numbers at most.
spec fn same_entries(a: Seq<(int, Seq<char>)>, b: Seq<(int, Seq<char>)>) -> bool {
    a.len() == b.len() && forall|k: int| 0 <= k < a.len() ==> (#[trigger] a[k]).1 == b[k].1
}

proof fn lemma_entries_renumbered(t: Seq<char>, i: int, n: int, m: int)
    requires
        0 <= i,
    ensures
        same_entries(entries_from(t, i, n), entries_from(t, i, m)),
    decreases t.len() + 1 - i,
{
    if i < t.len() {
        lemma_line_end(t, i);
        let end = line_end(t, i);
        lemma_entries_renumbered(t, end + 1, n + 1, m + 1);
        let line = trimmed(t.subrange(i, end));
        let a = entries_from(t, end + 1, n + 1);
        let b = entries_from(t, end + 1, m + 1);
        if line.len() > 0 && line[0] != '#' {
            let x = entries_from(t, i, n);
            let y = entries_from(t, i, m);
            assert(x =~= seq![(n, line)] + a);
            assert(y =~= seq![(m, line)] + b);
            assert forall|k: int| 0 <= k < x.len() implies (#[trigger] x[k]).1 == y[k].1 by {
                if k > 0 {
                    assert(x[k] == a[k - 1]);
                    assert(y[k] == b[k - 1]);
                }
            }
        }
    }
}

proof fn lemma_member_problem_by_words(
    a: Map<Seq<char>, usize>,
    b: Map<Seq<char>, usize>,
    members: Seq<Seq<char>>,
    k: int,
)
    requires
        a.dom() == b.dom(),
    ensures
        member_problem(a, members, k) is Some <==> member_problem(b, members, k) is Some,
    decreases members.len() - k,
{
    if 0 <= k < members.len() {
        lemma_member_problem_by_words(a, b, members, k + 1);
        let key = lowered(members[k]);
        assert(a.dom().contains(key) == b.dom().contains(key));
    }
}

proof fn lemma_owned_by_words(
    a: Map<Seq<char>, usize>,
    b: Map<Seq<char>, usize>,
    members: Seq<Seq<char>>,
    n: usize,
    m: usize,
)
    requires
        a.dom() == b.dom(),
    ensures
        owned(a, members, n).dom() == owned(b, members, m).dom(),
    decreases members.len(),
{
    if members.len() > 0 {
        lemma_owned_by_words(a, b, members.drop_last(), n, m);
        assert(owned(a, members, n).dom() =~= owned(b, members, m).dom());
    }
}

/// The numbers of the lines matter to the problems alone.
spec fn agree(a: GroupReading, b: GroupReading) -> bool {
    &&& a.groups == b.groups
    &&& a.owners.dom() == b.owners.dom()
    &&& a.terms == b.terms
    &&& a.full == b.full
}

proof fn lemma_groups_by_entries(a: Seq<(int, Seq<char>)>, b: Seq<(int, Seq<char>)>)
    requires
        same_entries(a, b),
    ensures
        agree(read_groups(a), read_groups(b)),
    decreases a.len(),
{
    if a.len() > 0 {
        let x = a.drop_last();
        let y = b.drop_last();
        assert(same_entries(x, y)) by {
            assert forall|k: int| 0 <= k < x.len() implies (#[trigger] x[k]).1 == y[k].1 by {
                assert(a[k].1 == b[k].1);
            }
        }
        lemma_groups_by_entries(x, y);
        assert(a.last().1 == b.last().1) by {
            assert(a[a.len() - 1].1 == b[a.len() - 1].1);
        }
        let before = read_groups(x);
        let other = read_groups(y);
        let members = words(a.last().1);
        lemma_member_problem_by_words(before.owners, other.owners, members, 0);
        lemma_owned_by_words(
            before.owners,
            other.owners,
            members,
            a.last().0 as usize,
            b.last().0 as usize,
        );
    }
}

proof fn lemma_words_by_entries(a: Seq<(int, Seq<char>)>, b: Seq<(int, Seq<char>)>)
    requires
        same_entries(a, b),
    ensures
        read_words(a).words == read_words(b).words,
        read_words(a).full == read_words(b).full,
        read_words(a).problems.len() == read_words(b).problems.len(),
    decreases a.len(),
{
    if a.len() > 0 {
        let x = a.drop_last();
        let y = b.drop_last();
        assert(same_entries(x, y)) by {
            assert forall|k: int| 0 <= k < x.len() implies (#[trigger] x[k]).1 == y[k].1 by {
                assert(a[k].1 == b[k].1);
            }
        }
        lemma_words_by_entries(x, y);
        assert(a.last().1 == b.last().1) by {
            assert(a[a.len() - 1].1 == b[a.len() - 1].1);
        }
    }
}

/// Groups that were read stay when more lines are read.
proof fn lemma_groups_grow(a: Seq<(int, Seq<char>)>, b: Seq<(int, Seq<char>)>)
    ensures
        ({
            let before = read_groups(a).groups;
            let after = read_groups(a + b).groups;
            before.len() <= after.len() && after.take(before.len() as int) == before
        }),
    decreases b.len(),
{
    if b.len() == 0 {
        assert(a + b =~= a);
    } else {
        lemma_groups_grow(a, b.drop_last());
        assert((a + b).drop_last() =~= a + b.drop_last());
        let before = read_groups(a).groups;
        let middle = read_groups(a + b.drop_last()).groups;
        let after = read_groups(a + b).groups;
        assert(after.take(before.len() as int) =~= middle.take(before.len() as int));
    }
    let before = read_groups(a).groups;
    assert(before.take(before.len() as int) =~= before);
}

proof fn lemma_last_byte(t: Seq<char>)
    requires
        t.len() > 0,
    ensures
        encode_utf8(t).len() > 0,
        encode_utf8(t).last() == 10 ==> t.last() == '\n',
    decreases t.len(),
{
    let rest = t.drop_first();
    let head = encode_scalar(t[0] as u32);
    let c = t[0] as u32;
    if rest.len() == 0 {
        assert(encode_utf8(rest) =~= Seq::empty());
        assert(encode_utf8(t) =~= head);
        assert(t.last() == t[0]);
        if has_width_1_encoding(c) {
            assert(head.last() == leading_byte_width_1(c));
            assert((c & 0x7F) as u8 == 10 && c <= 0x7F ==> c == 10) by (bit_vector);
            if head.last() == 10 {
                char_u32_cast(t[0], c);
                char_u32_cast('\n', 10);
            }
        } else {
            assert(head.last() == last_continuation_byte(c));
            assert((0x80u8 | (c & 0x3F) as u8) != 10) by (bit_vector);
        }
    } else {
        lemma_last_byte(rest);
        assert(encode_utf8(t).last() == encode_utf8(rest).last());
        assert(rest.last() == t.last());
    }
}

/// What a file holds once a line was added: whole lines with the same entries
/// as before, then the line.
proof fn lemma_added_text(bytes: Seq<u8>, line: Seq<char>) -> (front: Seq<char>)
    requires
        valid_utf8(bytes),
    ensures
        front.len() > 0,
        front.last() == '\n',
        entry_lines(front) == entry_lines(file_text(bytes)),
        valid_utf8(bytes + line_bytes(bytes, encode_utf8(line))),
        file_text(bytes + line_bytes(bytes, encode_utf8(line))) == front + line.push('\n'),
{
    law_added_line_is_read_back(bytes, line);
    decode_utf8_encode_utf8(bytes);
    let text = file_text(bytes);
    let whole = decode_utf8(bytes);
    let after = decode_utf8(bytes + line_bytes(bytes, encode_utf8(line)));
    let marked = whole.len() > 0 && whole[0] == '\u{feff}';
    let open = bytes.len() == 0 || bytes.last() != 10;
    let front = if open {
        text.push('\n')
    } else {
        text
    };
    if whole.len() > 0 {
        lemma_last_byte(whole);
    } else {
        assert(encode_utf8(whole) =~= Seq::empty());
    }
    if open {
        lemma_entries_closed(text, 0, 1);
        if marked {
            assert(after.drop_first() =~= front + line.push('\n'));
        } else {
            assert(after =~= front + line.push('\n'));
        }
    } else {
        assert(whole.last() == '\n');
        if marked {
            assert(whole.len() > 1);
            assert(after.drop_first() =~= front + line.push('\n'));
        } else {
            assert(after =~= front + line.push('\n'));
        }
    }
    front
}

/// The entries of whole lines with a line behind them, up to the numbers.
proof fn lemma_entries_with(front: Seq<char>, line: Seq<char>, known: Seq<(int, Seq<char>)>)
    requires
        front.len() == 0 || front.last() == '\n',
        entry_lines(front) == known,
    ensures
        same_entries(entry_lines(front + line), known + entry_lines(line)),
{
    lemma_entries_concat(front, line, 0, 1);
    assert(front.take(0) =~= Seq::empty());
    let n = 1 + line_feed_count(front);
    lemma_entries_renumbered(line, 0, n, 1);
    let a = entry_lines(front + line);
    let b = known + entry_lines(line);
    let x = entries_from(line, 0, n);
    let y = entry_lines(line);
    assert(a =~= known + x);
    assert forall|k: int| 0 <= k < a.len() implies (#[trigger] a[k]).1 == b[k].1 by {
        if k >= known.len() {
            assert(a[k] == x[k - known.len()]);
            assert(b[k] == y[k - known.len()]);
        }
    }
}

proof fn lemma_drop_stops(s: Seq<char>, i: int, j: int)
    requires
        0 <= i <= j <= s.len(),
    ensures
        drop_space(s, i, j) > i ==> !space(s[drop_space(s, i, j) - 1]),
    decreases j,
{
    if i < j && space(s[j - 1]) {
        lemma_drop_stops(s, i, j - 1);
    }
}

proof fn lemma_trimmed_twice(s: Seq<char>)
    ensures
        trimmed(trimmed(s)) == trimmed(s),
{
    lemma_trimmed(s);
    lemma_trimmed_start(s);
    let i = skip_space(s, 0);
    let j = drop_space(s, i, s.len() as int);
    lemma_drop_stops(s, i, s.len() as int);
    let t = trimmed(s);
    if t.len() > 0 {
        assert(t.last() == s[j - 1]);
        assert(skip_space(t, 0) == 0);
        assert(drop_space(t, 0, t.len() as int) == t.len());
    } else {
        lemma_trimmed(t);
    }
    assert(trimmed(t) =~= t);
}

/// The entries of a line without white space at its ends.
proof fn lemma_entry_of_line(line: Seq<char>)
    requires
        line_end(line, 0) == line.len(),
        trimmed(line) == line,
    ensures
        entry_lines(line) == if line.len() > 0 && line[0] != '#' {
            seq![(1int, line)]
        } else {
            Seq::empty()
        },
{
    if line.len() > 0 {
        assert(line.subrange(0, line.len() as int) =~= line);
        assert(entries_from(line, line.len() as int + 1, 2) =~= Seq::empty());
        assert(seq![(1int, line)] + Seq::empty() =~= seq![(1int, line)]);
    }
}

proof fn lemma_one_line(s: Seq<char>, i: int)
    requires
        0 <= i <= s.len(),
        !s.contains('\n'),
    ensures
        line_end(s, i) == s.len(),
    decreases s.len() - i,
{
    if i < s.len() {
        assert(s.contains(s[i]));
        lemma_one_line(s, i + 1);
    }
}

/// A group of synonyms that passed the check against its file is there once it
/// was added: the file then gives the groups that it gave before and one more,
/// which has the words of the line where it was a single one.
pub proof fn law_checked_group_is_loaded(bytes: Seq<u8>, line: Seq<char>)
    requires
        valid_utf8(bytes),
        addition_problem(file_text(bytes), line) is None,
    ensures
        ({
            let kept = trimmed(line);
            let before = read_groups(entry_lines(file_text(bytes))).groups;
            let after = read_groups(
                entry_lines(file_text(bytes + line_bytes(bytes, encode_utf8(kept)))),
            ).groups;
            &&& after.len() == before.len() + 1
            &&& after.drop_last() == before
            &&& !kept.contains('\n') ==> after.last() == words(kept)
        }),
{
    let kept = trimmed(line);
    let text = file_text(bytes);
    let known = entry_lines(text);
    let front = lemma_added_text(bytes, kept);
    lemma_entries_with(front, kept.push('\n'), known);
    lemma_entries_closed(kept, 0, 1);
    let closed = closed_lines(text);
    if text.len() > 0 && text.last() != '\n' {
        lemma_entries_closed(text, 0, 1);
    }
    lemma_entries_with(closed, kept, known);
    let all = known + entry_lines(kept);
    lemma_groups_by_entries(entry_lines(front + kept.push('\n')), all);
    lemma_groups_by_entries(entry_lines(closed + kept), all);
    lemma_groups_grow(known, entry_lines(kept));
    let before = read_groups(known).groups;
    let after = read_groups(all).groups;
    assert(after.drop_last() =~= after.take(before.len() as int));
    if !kept.contains('\n') {
        lemma_one_line(kept, 0);
        lemma_trimmed_twice(line);
        lemma_entry_of_line(kept);
        if entry_lines(kept).len() == 0 {
            assert(all =~= known);
        } else {
            assert(all =~= known.push((1int, kept)));
            assert(all.drop_last() =~= known);
        }
    }
}

/// A word that passed the check is there once it was added to its file, as long
/// as the file was not full.
pub proof fn law_checked_word_is_loaded(bytes: Seq<u8>, line: Seq<char>)
    requires
        valid_utf8(bytes),
        !trimmed(line).contains('\n'),
        read_words(entry_lines(trimmed(line))).problems.len() == 0,
        read_words(entry_lines(trimmed(line))).words.len() == 1,
        read_words(entry_lines(file_text(bytes))).words.len() < MAX_ENTRIES,
    ensures
        ({
            let kept = trimmed(line);
            let before = read_words(entry_lines(file_text(bytes))).words;
            let after = read_words(
                entry_lines(file_text(bytes + line_bytes(bytes, encode_utf8(kept)))),
            ).words;
            after == before + read_words(entry_lines(kept)).words
        }),
{
    let kept = trimmed(line);
    let known = entry_lines(file_text(bytes));
    let front = lemma_added_text(bytes, kept);
    lemma_entries_with(front, kept.push('\n'), known);
    lemma_entries_closed(kept, 0, 1);
    let all = known + entry_lines(kept);
    lemma_words_by_entries(entry_lines(front + kept.push('\n')), all);
    lemma_one_line(kept, 0);
    lemma_trimmed_twice(line);
    lemma_entry_of_line(kept);
    lemma_words_not_full(known);
    let one = seq![(1int, kept)];
    if entry_lines(kept).len() == 0 {
        assert(read_words(entry_lines(kept)).words.len() == 0);
    }
    assert(entry_lines(kept) == one);
    assert(one.drop_last() =~= Seq::empty());
    assert(all.drop_last() =~= known);
    assert(all.last() == (1int, kept));
    let before = read_words(known).words;
    let none = read_words(one.drop_last());
    assert(none.words =~= Seq::empty());
    assert(read_words(one) == read_word_line(none, one.last()));
    assert(read_words(all) == read_word_line(read_words(known), all.last()));
    assert(read_words(all).words =~= before + read_words(one).words);
}

proof fn lemma_words_not_full(lines: Seq<(int, Seq<char>)>)
    ensures
        read_words(lines).full ==> read_words(lines).words.len() >= MAX_ENTRIES,
    decreases lines.len(),
{
    if lines.len() > 0 {
        lemma_words_not_full(lines.drop_last());
    }
}

/// The entry of a line.
proof fn lemma_entry_of_any_line(line: Seq<char>)
    requires
        !line.contains('\n'),
        trimmed(line).len() > 0,
        trimmed(line)[0] != '#',
    ensures
        entry_lines(line) == seq![(1int, trimmed(line))],
        !trimmed(line).contains('\n'),
{
    lemma_one_line(line, 0);
    lemma_trimmed(line);
    assert(line.len() > 0);
    assert(line.subrange(0, line.len() as int) =~= line);
    assert(entries_from(line, line.len() as int + 1, 2) =~= Seq::empty());
    assert(seq![(1int, trimmed(line))] + Seq::empty() =~= seq![(1int, trimmed(line))]);
    let kept = trimmed(line);
    if kept.contains('\n') {
        let k = choose|k: int| 0 <= k < kept.len() && kept[k] == '\n';
        assert(line[skip_space(line, 0) + k] == '\n');
    }
}

/// A line can be added to a file of synonyms exactly when its words can stand together as
/// a group, none of them is in the file already, and there is room for them.
pub proof fn law_which_groups_can_be_added(text: Seq<char>, line: Seq<char>)
    requires
        !line.contains('\n'),
        trimmed(line).len() > 0,
        trimmed(line)[0] != '#',
    ensures
        ({
            let members = words(trimmed(line));
            let known = read_groups(entry_lines(text));
            addition_problem(text, line) is None <==> {
                &&& good_group(members)
                &&& forall|i: int|
                    0 <= i < members.len() ==> !known_in(known.groups, #[trigger] members[i])
                &&& !known.full
                &&& known.terms + members.len() <= 10_000
            }
        }),
{
    let kept = trimmed(line);
    let members = words(kept);
    let none = Seq::<(int, Seq<char>)>::empty();
    let entry = (1int, kept);
    lemma_entry_of_any_line(line);
    // The line by itself.
    assert(none.push(entry) =~= seq![entry]);
    law_which_groups_are_taken_in(none, entry);
    assert(read_groups(none).groups =~= Seq::empty());
    assert forall|i: int| 0 <= i < members.len() implies !known_in(
        read_groups(none).groups,
        #[trigger] members[i],
    ) by {}
    assert(line_problem(line) is None <==> good_group(members));
    // The line behind the others.
    let known = entry_lines(text);
    let closed = closed_lines(text);
    if text.len() > 0 && text.last() != '\n' {
        lemma_entries_closed(text, 0, 1);
    }
    lemma_entries_with(closed, kept, known);
    lemma_trimmed_twice(line);
    lemma_entry_of_any_line(kept);
    let all = known + seq![entry];
    lemma_groups_by_entries(entry_lines(closed + kept), all);
    assert(all =~= known.push(entry));
    if !read_groups(known).full {
        law_which_groups_are_taken_in(known, entry);
    } else {
        assert(all.drop_last() =~= known);
    }
}

} // verus!
