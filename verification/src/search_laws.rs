//! What holds of every search.

use vstd::prelude::*;

use crate::locate::{law_spans_are_apart, spans_in};
use crate::locate_laws::{law_found_where_a_literal_stands, stands_in};
use crate::search::{
    ahead, block_at, block_from, block_groups, blocks_of, group_rank, groups_ahead, in_order,
    has_leader, inside, led, members_at, place, ranked, represented, rising, shown_order,
    shown_standings, side_by_side, well_grouped, Standing,
};

verus! {

/// The spans that are found in a text rise, as the division into fragments
/// asks for.
pub proof fn law_located_spans_rise(s: Seq<char>, literals: Seq<String>)
    ensures
        rising(spans_in(s, literals)),
{
    law_spans_are_apart(s, literals);
    let spans = spans_in(s, literals);
    assert forall|i: int, j: int| 0 <= i < j < spans.len() implies {
        &&& (#[trigger] spans[i]).0 <= (#[trigger] spans[j]).0
        &&& spans[i].1 <= spans[j].1
    } by {
        assert(spans[i].0 < spans[i].1);
        assert(spans[j].0 < spans[j].1);
    }
}

/// A candidate is passed over exactly when none of the literals stands in its
/// text or in its title, whatever the case of ASCII letters and white space
/// aside.
pub proof fn law_candidates_have_a_literal(
    content: Seq<char>,
    title: Seq<char>,
    literals: Seq<String>,
)
    ensures
        spans_in(content, literals).len() == 0 && spans_in(title, literals).len() == 0
            <==> forall|i: int|
            0 <= i < literals.len() ==> !stands_in(content, (#[trigger] literals[i])@)
                && !stands_in(title, literals[i]@),
{
    law_found_where_a_literal_stands(content, literals);
    law_found_where_a_literal_stands(title, literals);
}

/// Every highlighted range of a fragment, moved to where the fragment starts,
/// is a range that was found in the text.
pub proof fn law_highlights_come_from_spans(spans: Seq<(int, int)>, start: int, end: int, k: int)
    requires
        0 <= k < inside(spans, start, end).len(),
    ensures
        ({
            let h = inside(spans, start, end)[k];
            spans.contains((h.0 + start, h.1 + start)) && 0 <= h.0 && h.1 <= end - start
        }),
    decreases spans.len(),
{
    let init = spans.drop_last();
    let before = inside(init, start, end);
    if k < before.len() {
        law_highlights_come_from_spans(init, start, end, k);
        let h = before[k];
        let i = choose|i: int| 0 <= i < init.len() && init[i] == (h.0 + start, h.1 + start);
        assert(spans[i] == init[i]);
    } else {
        assert(spans[spans.len() - 1] == spans.last());
    }
}

/// Some block has the byte.
pub open spec fn has_byte(bounds: Seq<(int, int, Seq<char>)>, byte: int) -> bool {
    exists|i: int| 0 <= i < bounds.len() && (#[trigger] bounds[i]).0 <= byte < bounds[i].1
}

pub proof fn lemma_block_has(bounds: Seq<(int, int, Seq<char>)>, byte: int, i: int)
    requires
        0 <= i <= bounds.len(),
        exists|k: int| i <= k < bounds.len() && (#[trigger] bounds[k]).0 <= byte < bounds[k].1,
    ensures
        i <= block_from(bounds, byte, i) < bounds.len(),
        bounds[block_from(bounds, byte, i)].0 <= byte < bounds[block_from(bounds, byte, i)].1,
    decreases bounds.len() - i,
{
    if !(bounds[i].0 <= byte < bounds[i].1) {
        lemma_block_has(bounds, byte, i + 1);
    }
}

/// Bytes that come later are in later blocks.
proof fn lemma_blocks_rise(bounds: Seq<(int, int, Seq<char>)>, a: int, b: int)
    requires
        in_order(bounds),
        has_byte(bounds, a),
        has_byte(bounds, b),
        a <= b,
    ensures
        0 <= block_at(bounds, a) <= block_at(bounds, b) < bounds.len(),
{
    lemma_block_has(bounds, a, 0);
    lemma_block_has(bounds, b, 0);
    let i = block_at(bounds, a);
    let j = block_at(bounds, b);
    if j < i {
        assert(bounds[j].1 <= bounds[i].0);
    }
}

/// The blocks of a span all lie in one group.
pub open spec fn covers(groups: Seq<(int, int)>, blocks: (int, int)) -> bool {
    exists|g: int|
        0 <= g < groups.len() && (#[trigger] groups[g]).0 <= blocks.0 && blocks.1 <= groups[g].1
}

proof fn lemma_groups_cover(bounds: Seq<(int, int, Seq<char>)>, spans: Seq<(int, int)>)
    requires
        in_order(bounds),
        rising(spans),
        forall|i: int|
            0 <= i < spans.len() ==> has_byte(bounds, (#[trigger] spans[i]).0) && has_byte(
                bounds,
                if spans[i].1 > 0 {
                    spans[i].1 - 1
                } else {
                    0
                },
            ),
    ensures
        spans.len() > 0 ==> block_groups(bounds, spans).len() > 0 && block_groups(
            bounds,
            spans,
        ).last().0 <= blocks_of(bounds, spans.last()).0,
        forall|i: int|
            0 <= i < spans.len() ==> covers(
                block_groups(bounds, spans),
                blocks_of(bounds, #[trigger] spans[i]),
            ),
    decreases spans.len(),
{
    if spans.len() > 0 {
        let init = spans.drop_last();
        assert(rising(init)) by {
            assert forall|i: int| 0 <= i < init.len() implies (#[trigger] init[i]).0 <= init[i].1 by {
                assert(init[i] == spans[i]);
            }
            assert forall|i: int, j: int| 0 <= i < j < init.len() implies {
                &&& (#[trigger] init[i]).0 <= (#[trigger] init[j]).0
                &&& init[i].1 <= init[j].1
            } by {
                assert(init[i] == spans[i] && init[j] == spans[j]);
            }
        }
        assert forall|i: int| 0 <= i < init.len() implies has_byte(bounds, (#[trigger] init[i]).0)
            && has_byte(
            bounds,
            if init[i].1 > 0 {
                init[i].1 - 1
            } else {
                0
            },
        ) by {
            assert(init[i] == spans[i]);
        }
        lemma_groups_cover(bounds, init);
        let before = block_groups(bounds, init);
        let after = block_groups(bounds, spans);
        let (first, last) = blocks_of(bounds, spans.last());
        if init.len() > 0 {
            let a = init.last();
            let b = spans.last();
            assert(a == spans[spans.len() - 2]);
            assert(a.0 <= b.0);
            lemma_blocks_rise(bounds, a.0, b.0);
            assert(blocks_of(bounds, a).0 <= first);
        }
        let joined = before.len() > 0 && first <= before.last().1;
        assert forall|i: int| 0 <= i < spans.len() implies covers(
            after,
            blocks_of(bounds, #[trigger] spans[i]),
        ) by {
            if i < init.len() {
                assert(init[i] == spans[i]);
                let blocks = blocks_of(bounds, init[i]);
                let g = choose|g: int|
                    0 <= g < before.len() && (#[trigger] before[g]).0 <= blocks.0 && blocks.1
                        <= before[g].1;
                assert(after[g].0 == before[g].0 && after[g].1 >= before[g].1);
            } else {
                assert(after[after.len() - 1].0 <= first && last <= after[after.len() - 1].1);
            }
        }
    }
}

/// A span that reaches over several blocks is shown as a whole: all its blocks
/// are in one fragment.
pub proof fn law_spans_are_not_cut(
    bounds: Seq<(int, int, Seq<char>)>,
    spans: Seq<(int, int)>,
    i: int,
)
    requires
        in_order(bounds),
        rising(spans),
        forall|k: int|
            0 <= k < spans.len() ==> has_byte(bounds, (#[trigger] spans[k]).0) && has_byte(
                bounds,
                if spans[k].1 > 0 {
                    spans[k].1 - 1
                } else {
                    0
                },
            ),
        0 <= i < spans.len(),
    ensures
        covers(block_groups(bounds, spans), blocks_of(bounds, spans[i])),
{
    lemma_groups_cover(bounds, spans);
}

/// The rank of a group is that of a document that stands for it.
pub proof fn lemma_group_rank(all: Seq<Standing>, group: int)
    requires
        represented(all, group),
    ensures
        exists|i: int|
            0 <= i < all.len() && (#[trigger] all[i]).id == group && all[i].group == group
                && all[i].rank == group_rank(all, group),
    decreases all.len(),
{
    if all[0].id == group && all[0].group == group {
    } else {
        let i = choose|i: int|
            0 <= i < all.len() && (#[trigger] all[i]).id == group && all[i].group == group;
        let rest = all.drop_first();
        assert(rest[i - 1] == all[i]);
        lemma_group_rank(rest, group);
        let j = choose|j: int|
            0 <= j < rest.len() && (#[trigger] rest[j]).id == group && rest[j].group == group
                && rest[j].rank == group_rank(rest, group);
        assert(all[j + 1] == rest[j]);
    }
}

proof fn lemma_ahead_counts(all: Seq<Standing>, ra: int, a: int, rb: int, b: int)
    requires
        ahead(ra, a, rb, b),
    ensures
        groups_ahead(all, ra, a) <= groups_ahead(all, rb, b),
        (exists|i: int|
            0 <= i < all.len() && (#[trigger] all[i]).id == a && all[i].group == a && all[i].rank
                == ra) ==> groups_ahead(all, ra, a) < groups_ahead(all, rb, b),
    decreases all.len(),
{
    if all.len() > 0 {
        let init = all.drop_last();
        lemma_ahead_counts(init, ra, a, rb, b);
        if exists|i: int|
            0 <= i < all.len() && (#[trigger] all[i]).id == a && all[i].group == a && all[i].rank
                == ra {
            let i = choose|i: int|
                0 <= i < all.len() && (#[trigger] all[i]).id == a && all[i].group == a
                    && all[i].rank == ra;
            if i < init.len() {
                assert(init[i] == all[i]);
            }
        }
    }
}

/// Different groups have different places, and the group of the document that
/// matches better comes first.
pub proof fn law_groups_have_their_own_places(all: Seq<Standing>, i: int, j: int)
    requires
        well_grouped(all),
        0 <= i < all.len(),
        0 <= j < all.len(),
        all[i].group != all[j].group,
    ensures
        place(all, i) != place(all, j),
        place(all, i) < place(all, j) <==> ahead(
            group_rank(all, all[i].group),
            all[i].group,
            group_rank(all, all[j].group),
            all[j].group,
        ),
{
    let a = all[i].group;
    let b = all[j].group;
    lemma_group_rank(all, a);
    lemma_group_rank(all, b);
    let ra = group_rank(all, a);
    let rb = group_rank(all, b);
    if ahead(ra, a, rb, b) {
        lemma_ahead_counts(all, ra, a, rb, b);
    } else {
        assert(ahead(rb, b, ra, a));
        lemma_ahead_counts(all, rb, b, ra, a);
    }
}

proof fn lemma_members_at(all: Seq<Standing>, p: int, n: int)
    ensures
        forall|k: int|
            0 <= k < members_at(all, p, n).len() ==> 0 <= #[trigger] members_at(all, p, n)[k] < n
                && place(all, members_at(all, p, n)[k]) == p,
        forall|i: int|
            0 <= i < n && place(all, i) == p ==> #[trigger] members_at(all, p, n).contains(i),
    decreases n,
{
    if n > 0 {
        lemma_members_at(all, p, n - 1);
        let before = members_at(all, p, n - 1);
        let after = members_at(all, p, n);
        assert forall|i: int| 0 <= i < n && place(all, i) == p implies #[trigger] after.contains(
            i,
        ) by {
            if i < n - 1 {
                assert(before.contains(i));
                let k = choose|k: int| 0 <= k < before.len() && before[k] == i;
                assert(after[k] == i);
            } else {
                assert(after[after.len() - 1] == i);
            }
        }
    }
}

proof fn lemma_ranked(all: Seq<Standing>, n: int)
    requires
        0 <= n,
    ensures
        forall|k: int|
            0 <= k < ranked(all, n).len() ==> 0 <= #[trigger] ranked(all, n)[k] < all.len() && place(
                all,
                ranked(all, n)[k],
            ) < n,
        forall|j: int, k: int|
            0 <= j < k < ranked(all, n).len() ==> place(all, #[trigger] ranked(all, n)[j]) <= place(
                all,
                #[trigger] ranked(all, n)[k],
            ),
        forall|i: int|
            0 <= i < all.len() && place(all, i) < n ==> #[trigger] ranked(all, n).contains(i),
    decreases n,
{
    if n > 0 {
        lemma_ranked(all, n - 1);
        lemma_members_at(all, n - 1, all.len() as int);
        let before = ranked(all, n - 1);
        let new = members_at(all, n - 1, all.len() as int);
        let after = ranked(all, n);
        assert(after == before + new);
        assert forall|k: int| 0 <= k < after.len() implies 0 <= #[trigger] after[k] < all.len()
            && place(all, after[k]) < n by {
            if k < before.len() {
                assert(after[k] == before[k]);
            } else {
                assert(after[k] == new[k - before.len()]);
            }
        }
        assert forall|j: int, k: int| 0 <= j < k < after.len() implies place(
            all,
            #[trigger] after[j],
        ) <= place(all, #[trigger] after[k]) by {
            if k < before.len() {
                assert(after[j] == before[j] && after[k] == before[k]);
            } else {
                assert(after[k] == new[k - before.len()]);
                if j < before.len() {
                    assert(after[j] == before[j]);
                } else {
                    assert(after[j] == new[j - before.len()]);
                }
            }
        }
        assert forall|i: int| 0 <= i < all.len() && place(all, i) < n implies #[trigger] after.contains(
            i,
        ) by {
            if place(all, i) < n - 1 {
                assert(before.contains(i));
                let k = choose|k: int| 0 <= k < before.len() && before[k] == i;
                assert(after[k] == i);
            } else {
                assert(new.contains(i));
                let k = choose|k: int| 0 <= k < new.len() && new[k] == i;
                assert(after[before.len() + k] == i);
            }
        }
    }
}

proof fn lemma_place_bound(all: Seq<Standing>, rank: int, group: int)
    ensures
        groups_ahead(all, rank, group) <= all.len(),
        (exists|i: int|
            0 <= i < all.len() && (#[trigger] all[i]).id == group && all[i].group == group
                && all[i].rank == rank) ==> groups_ahead(all, rank, group) < all.len(),
    decreases all.len(),
{
    if all.len() > 0 {
        let init = all.drop_last();
        lemma_place_bound(init, rank, group);
        if exists|i: int|
            0 <= i < all.len() && (#[trigger] all[i]).id == group && all[i].group == group
                && all[i].rank == rank {
            let i = choose|i: int|
                0 <= i < all.len() && (#[trigger] all[i]).id == group && all[i].group == group
                    && all[i].rank == rank;
            if i < init.len() {
                assert(init[i] == all[i]);
            }
        }
    }
}

/// A document is shown exactly when its group is among the first ones, however
/// many copies the groups have, and documents are shown group by group.
pub proof fn law_best_groups_are_shown(all: Seq<Standing>, limit: int)
    requires
        well_grouped(all),
        0 <= limit,
    ensures
        forall|i: int|
            0 <= i < all.len() ==> (#[trigger] shown_order(all, limit).contains(i) <==> place(all, i)
                < limit),
        forall|j: int, k: int|
            0 <= j < k < shown_order(all, limit).len() ==> place(
                all,
                #[trigger] shown_order(all, limit)[j],
            ) <= place(all, #[trigger] shown_order(all, limit)[k]),
{
    let n = if limit < all.len() {
        limit
    } else {
        all.len() as int
    };
    lemma_ranked(all, n);
    assert forall|i: int| 0 <= i < all.len() implies (#[trigger] shown_order(all, limit).contains(i)
        <==> place(all, i) < limit) by {
        assert(represented(all, all[i].group));
        lemma_group_rank(all, all[i].group);
        lemma_place_bound(all, group_rank(all, all[i].group), all[i].group);
        let order = ranked(all, n);
        if order.contains(i) {
            let k = choose|k: int| 0 <= k < order.len() && order[k] == i;
            assert(place(all, order[k]) < n);
        }
    }
}

proof fn lemma_members_rise(all: Seq<Standing>, p: int, n: int)
    ensures
        forall|j: int, k: int|
            0 <= j < k < members_at(all, p, n).len() ==> #[trigger] members_at(all, p, n)[j]
                < #[trigger] members_at(all, p, n)[k],
    decreases n,
{
    if n > 0 {
        lemma_members_rise(all, p, n - 1);
        lemma_members_at(all, p, n - 1);
        let before = members_at(all, p, n - 1);
        let after = members_at(all, p, n);
        assert forall|j: int, k: int| 0 <= j < k < after.len() implies #[trigger] after[j]
            < #[trigger] after[k] by {
            assert(after[j] == before[j]);
            if k < before.len() {
                assert(after[k] == before[k]);
            }
        }
    }
}

proof fn lemma_ranked_once(all: Seq<Standing>, n: int)
    requires
        0 <= n,
    ensures
        ranked(all, n).no_duplicates(),
    decreases n,
{
    if n > 0 {
        lemma_ranked_once(all, n - 1);
        lemma_ranked(all, n - 1);
        lemma_members_rise(all, n - 1, all.len() as int);
        lemma_members_at(all, n - 1, all.len() as int);
        let before = ranked(all, n - 1);
        let new = members_at(all, n - 1, all.len() as int);
        let after = ranked(all, n);
        assert(after == before + new);
        assert forall|j: int, k: int| 0 <= j < k < after.len() implies after[j] != after[k] by {
            if k < before.len() {
                assert(after[j] == before[j] && after[k] == before[k]);
            } else {
                assert(after[k] == new[k - before.len()]);
                if j < before.len() {
                    assert(after[j] == before[j]);
                    assert(place(all, before[j]) < n - 1);
                    assert(place(all, new[k - before.len()]) == n - 1);
                } else {
                    assert(after[j] == new[j - before.len()]);
                    assert(new[j - before.len()] < new[k - before.len()]);
                }
            }
        }
    }
}

/// Of two documents of one group, the one that was found first is shown first.
proof fn lemma_ranked_in_turn(all: Seq<Standing>, n: int, j: int, k: int)
    requires
        0 <= n,
        0 <= j < ranked(all, n).len(),
        0 <= k < ranked(all, n).len(),
        place(all, ranked(all, n)[j]) == place(all, ranked(all, n)[k]),
        ranked(all, n)[j] < ranked(all, n)[k],
    ensures
        j < k,
    decreases n,
{
    if n > 0 {
        let before = ranked(all, n - 1);
        let new = members_at(all, n - 1, all.len() as int);
        let after = ranked(all, n);
        lemma_ranked(all, n - 1);
        lemma_members_at(all, n - 1, all.len() as int);
        lemma_members_rise(all, n - 1, all.len() as int);
        assert(after == before + new);
        if j < before.len() && k < before.len() {
            assert(after[j] == before[j] && after[k] == before[k]);
            lemma_ranked_in_turn(all, n - 1, j, k);
        } else if j >= before.len() && k >= before.len() {
            assert(after[j] == new[j - before.len()] && after[k] == new[k - before.len()]);
            if k < j {
                assert(new[k - before.len()] < new[j - before.len()]);
            }
        } else if k < before.len() {
            assert(after[k] == before[k] && after[j] == new[j - before.len()]);
            assert(place(all, before[k]) < n - 1);
            assert(place(all, new[j - before.len()]) == n - 1);
        }
    }
}

/// Of the documents that are shown, those of a group follow each other, the first
/// one of them stands for the group, and none is shown twice.
pub proof fn law_shown_groups_are_led(all: Seq<Standing>, limit: int)
    requires
        well_grouped(all),
        led(all),
        0 <= limit,
    ensures
        well_grouped(shown_standings(all, limit)),
        led(shown_standings(all, limit)),
        side_by_side(shown_standings(all, limit)),
        forall|k: int|
            0 <= k < shown_order(all, limit).len() ==> 0 <= #[trigger] shown_order(all, limit)[k]
                < all.len(),
{
    let n = if limit < all.len() {
        limit
    } else {
        all.len() as int
    };
    let order = shown_order(all, limit);
    let shown = shown_standings(all, limit);
    assert(order == ranked(all, n));
    lemma_ranked(all, n);
    lemma_ranked_once(all, n);
    assert forall|k: int| 0 <= k < shown.len() implies #[trigger] has_leader(shown, k) by {
        let i = order[k];
        assert(has_leader(all, i));
        let j = choose|j: int|
            0 <= j <= i && (#[trigger] all[j]).id == all[i].group && all[j].group == all[i].group;
        assert(place(all, j) == place(all, i));
        assert(order.contains(j));
        let m = choose|m: int| 0 <= m < order.len() && order[m] == j;
        if m != k {
            assert(order[m] != order[k]);
            lemma_ranked_in_turn(all, n, m, k);
        }
        assert(shown[m] == all[j] && shown[k] == all[i]);
    }
    assert forall|k: int| 0 <= k < shown.len() implies represented(
        shown,
        (#[trigger] shown[k]).group,
    ) by {
        assert(has_leader(shown, k));
        let j = choose|j: int|
            0 <= j <= k && (#[trigger] shown[j]).id == shown[k].group && shown[j].group
                == shown[k].group;
        assert(shown[j].id == shown[k].group);
    }
    assert forall|i: int, j: int| 0 <= i < j < shown.len() implies (#[trigger] shown[i]).id != (
    #[trigger] shown[j]).id by {
        assert(order[i] != order[j]);
        assert(shown[i] == all[order[i]] && shown[j] == all[order[j]]);
        if order[i] < order[j] {
            assert(all[order[i]].id != all[order[j]].id);
        } else {
            assert(all[order[j]].id != all[order[i]].id);
        }
    }
    assert forall|i: int, j: int, k: int|
        0 <= i < j < k < shown.len() && (#[trigger] shown[i]).group == (
        #[trigger] shown[k]).group implies (#[trigger] shown[j]).group == shown[i].group by {
        let (a, b, c) = (order[i], order[j], order[k]);
        assert(shown[i] == all[a] && shown[j] == all[b] && shown[k] == all[c]);
        assert(place(all, a) == place(all, c));
        assert(place(all, a) <= place(all, b) && place(all, b) <= place(all, c));
        if all[b].group != all[a].group {
            law_groups_have_their_own_places(all, a, b);
        }
    }
}

} // verus!
