//! In which order every search shows what it found.

use vstd::prelude::*;

use crate::search::{
    fragment_total, group_rank, groups_ahead, members_of, place, shown_order, standing_ones,
    well_grouped, DocumentHit, Standing,
};
use crate::search_laws::{
    law_best_groups_are_shown, law_groups_have_their_own_places, lemma_group_rank,
};

verus! {

/// The document stands for its group.
pub open spec fn stands_for(s: Standing) -> bool {
    s.id == s.group
}

/// A document matches better than another: its number is lower, or the numbers are the
/// same and it was stored earlier.
pub open spec fn better(a: Standing, b: Standing) -> bool {
    a.rank < b.rank || (a.rank == b.rank && a.id < b.id)
}

proof fn lemma_rank_of(all: Seq<Standing>, i: int)
    requires
        well_grouped(all),
        0 <= i < all.len(),
        stands_for(all[i]),
    ensures
        group_rank(all, all[i].group) == all[i].rank,
{
    lemma_group_rank(all, all[i].group);
    let k = choose|k: int|
        0 <= k < all.len() && (#[trigger] all[k]).id == all[i].group && all[k].group == all[i].group
            && all[k].rank == group_rank(all, all[i].group);
    if k < i {
        assert(all[k].id != all[i].id);
    } else if i < k {
        assert(all[i].id != all[k].id);
    }
}

/// The group whose document matches better comes first: of two groups the one comes
/// before the other exactly when the document that stands for it is the better one.
pub proof fn law_better_groups_come_first(all: Seq<Standing>, i: int, j: int)
    requires
        well_grouped(all),
        0 <= i < all.len(),
        0 <= j < all.len(),
        stands_for(all[i]),
        stands_for(all[j]),
        i != j,
    ensures
        place(all, i) < place(all, j) <==> better(all[i], all[j]),
{
    if i < j {
        assert(all[i].id != all[j].id);
    } else {
        assert(all[j].id != all[i].id);
    }
    lemma_rank_of(all, i);
    lemma_rank_of(all, j);
    law_groups_have_their_own_places(all, i, j);
}

proof fn lemma_ahead_count(all: Seq<Standing>, rank: int, group: int)
    ensures
        groups_ahead(all, rank, group) == all.filter(
            |s: Standing|
                stands_for(s) && (s.rank < rank || (s.rank == rank && s.id < group)),
        ).len(),
    decreases all.len(),
{
    reveal(Seq::filter);
    if all.len() > 0 {
        lemma_ahead_count(all.drop_last(), rank, group);
    }
}

/// The place of a group is the number of groups that are better.
pub proof fn law_places_count_better_groups(all: Seq<Standing>, i: int)
    requires
        well_grouped(all),
        0 <= i < all.len(),
        stands_for(all[i]),
    ensures
        place(all, i) == all.filter(|s: Standing| stands_for(s) && better(s, all[i])).len(),
{
    lemma_rank_of(all, i);
    lemma_ahead_count(all, all[i].rank, all[i].group);
    lemma_same_filter(all, all[i].rank, all[i].group, all[i]);
}

proof fn lemma_same_filter(all: Seq<Standing>, rank: int, group: int, other: Standing)
    requires
        other.rank == rank,
        other.id == group,
    ensures
        all.filter(
            |s: Standing|
                stands_for(s) && (s.rank < rank || (s.rank == rank && s.id < group)),
        ) == all.filter(|s: Standing| stands_for(s) && better(s, other)),
    decreases all.len(),
{
    reveal(Seq::filter);
    if all.len() > 0 {
        lemma_same_filter(all.drop_last(), rank, group, other);
    } else {
        assert(all.filter(
            |s: Standing|
                stands_for(s) && (s.rank < rank || (s.rank == rank && s.id < group)),
        ) =~= all.filter(|s: Standing| stands_for(s) && better(s, other)));
    }
}

/// A document that stands for a group is shown exactly when fewer groups than there is
/// room for are better; and the others of its group are shown with it.
pub proof fn law_the_best_are_shown(all: Seq<Standing>, limit: int, i: int, k: int)
    requires
        well_grouped(all),
        0 <= limit,
        0 <= i < all.len(),
        0 <= k < all.len(),
        stands_for(all[i]),
        all[k].group == all[i].group,
    ensures
        shown_order(all, limit).contains(i) <==> all.filter(
            |s: Standing| stands_for(s) && better(s, all[i]),
        ).len() < limit,
        shown_order(all, limit).contains(k) <==> shown_order(all, limit).contains(i),
{
    law_best_groups_are_shown(all, limit);
    law_places_count_better_groups(all, i);
    assert(place(all, k) == place(all, i));
    assert(shown_order(all, limit).contains(i) <==> place(all, i) < limit);
    assert(shown_order(all, limit).contains(k) <==> place(all, k) < limit);
}

/// Of a group just its own documents are members, in the order in which they were found.
pub proof fn law_members_are_of_their_group(documents: Seq<DocumentHit>, group: i64, n: int)
    requires
        0 <= n <= documents.len(),
    ensures
        forall|i: int|
            #[trigger] members_of(documents, group, n).contains(i) <==> 0 <= i < n
                && documents[i].group_id == group,
        forall|a: int, b: int|
            0 <= a < b < members_of(documents, group, n).len() ==> #[trigger] members_of(
                documents,
                group,
                n,
            )[a] < #[trigger] members_of(documents, group, n)[b],
    decreases n,
{
    if n > 0 {
        law_members_are_of_their_group(documents, group, n - 1);
        let init = members_of(documents, group, n - 1);
        let all = members_of(documents, group, n);
        assert forall|k: int| 0 <= k < init.len() implies #[trigger] init[k] < n - 1 by {
            assert(init.contains(init[k]));
        }
        if documents[n - 1].group_id == group {
            assert(all == init.push(n - 1));
            assert(all[init.len() as int] == n - 1);
            assert forall|i: int| #[trigger] all.contains(i) <==> (init.contains(i) || i == n - 1) by {
                if init.contains(i) {
                    let k = init.index_of(i);
                    assert(all[k] == i);
                }
                if all.contains(i) {
                    let k = all.index_of(i);
                    if k < init.len() {
                        assert(init[k] == i);
                    }
                }
            }
        }
    }
}

/// Just the documents that stand for their groups are shown in the list.
pub proof fn law_the_list_shows_representatives(documents: Seq<DocumentHit>, n: int)
    requires
        0 <= n <= documents.len(),
    ensures
        forall|i: int|
            #[trigger] standing_ones(documents, n).contains(i) <==> 0 <= i < n
                && documents[i].document.id == documents[i].group_id,
        forall|a: int, b: int|
            0 <= a < b < standing_ones(documents, n).len() ==> #[trigger] standing_ones(
                documents,
                n,
            )[a] < #[trigger] standing_ones(documents, n)[b],
    decreases n,
{
    if n > 0 {
        law_the_list_shows_representatives(documents, n - 1);
        let init = standing_ones(documents, n - 1);
        let all = standing_ones(documents, n);
        assert forall|k: int| 0 <= k < init.len() implies #[trigger] init[k] < n - 1 by {
            assert(init.contains(init[k]));
        }
        if documents[n - 1].document.id == documents[n - 1].group_id {
            assert(all == init.push(n - 1));
            assert(all[init.len() as int] == n - 1);
            assert forall|i: int| #[trigger] all.contains(i) <==> (init.contains(i) || i == n - 1) by {
                if init.contains(i) {
                    let k = init.index_of(i);
                    assert(all[k] == i);
                }
                if all.contains(i) {
                    let k = all.index_of(i);
                    if k < init.len() {
                        assert(init[k] == i);
                    }
                }
            }
        }
    }
}

/// The fragments of copies are not counted a second time: a list without its copies
/// has as many fragments, and in one without copies every fragment counts.
pub proof fn law_copies_add_no_fragments(documents: Seq<DocumentHit>)
    ensures
        fragment_total(documents) == fragment_total(
            documents.filter(|d: DocumentHit| d.document.id == d.group_id),
        ),
        forall|d: DocumentHit|
            d.document.id == d.group_id ==> #[trigger] fragment_total(documents.push(d))
                == fragment_total(documents) + d.hits@.len(),
    decreases documents.len(),
{
    reveal(Seq::filter);
    let own = |d: DocumentHit| d.document.id == d.group_id;
    assert forall|d: DocumentHit|
        d.document.id == d.group_id implies #[trigger] fragment_total(documents.push(d))
        == fragment_total(documents) + d.hits@.len() by {
        assert(documents.push(d).drop_last() =~= documents);
    }
    if documents.len() > 0 {
        let init = documents.drop_last();
        law_copies_add_no_fragments(init);
        if own(documents.last()) {
            assert(documents.filter(own).drop_last() =~= init.filter(own));
        }
    }
}

} // verus!
