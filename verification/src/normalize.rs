//! Brings stored paths into their plain form, without the `\\?\` prefix of
//! Windows where it is not needed.
//!
//! Both columns of a document are changed together, a path is never stored
//! twice, and the file system is left alone.

use vstd::hash_map::StringHashMap;
use vstd::prelude::*;

use crate::text::{occurs_at, same};

verus! {

/// The paths of a document as they are stored.
#[derive(Debug, PartialEq, Eq)]
pub struct StoredPath {
    pub id: i64,
    pub path: String,
    pub canonical_path: String,
}

/// What a stored document says.
pub struct RowView {
    pub id: int,
    pub path: Seq<char>,
    pub canonical_path: Seq<char>,
}

impl View for StoredPath {
    type V = RowView;

    open spec fn view(&self) -> RowView {
        RowView { id: self.id as int, path: self.path@, canonical_path: self.canonical_path@ }
    }
}

/// What a list of stored documents says.
pub open spec fn row_views(rows: Seq<StoredPath>) -> Seq<RowView> {
    rows.map_values(|row: StoredPath| row@)
}

/// The plain form of both paths of a document.
pub struct PlainPaths {
    pub path: String,
    pub canonical_path: String,
}

/// The plain forms without the representation.
pub open spec fn plain_views(plain: Seq<PlainPaths>) -> Seq<(Seq<char>, Seq<char>)> {
    plain.map_values(|p: PlainPaths| (p.path@, p.canonical_path@))
}

/// What has to be done to a document.
#[derive(Debug, PartialEq, Eq)]
pub enum Change {
    /// Both paths are rewritten.
    Rewrite { id: i64, path: String, canonical_path: String },
    /// An earlier document has the same path, so this one goes.
    DropDuplicate { id: i64 },
}

/// What a change says.
pub enum ChangeView {
    Rewrite { id: int, path: Seq<char>, canonical_path: Seq<char> },
    DropDuplicate { id: int },
}

impl View for Change {
    type V = ChangeView;

    open spec fn view(&self) -> ChangeView {
        match self {
            Change::Rewrite { id, path, canonical_path } => ChangeView::Rewrite {
                id: *id as int,
                path: path@,
                canonical_path: canonical_path@,
            },
            Change::DropDuplicate { id } => ChangeView::DropDuplicate { id: *id as int },
        }
    }
}

/// What a list of changes says.
pub open spec fn change_views(changes: Seq<Change>) -> Seq<ChangeView> {
    changes.map_values(|change: Change| change@)
}

/// An earlier document has the same plain path.
pub open spec fn taken(plain: Seq<(Seq<char>, Seq<char>)>, i: int) -> bool {
    exists|j: int| 0 <= j < i && (#[trigger] plain[j]).0 == plain[i].0
}

/// What is done to the `i`-th document.
pub open spec fn change_of(
    rows: Seq<RowView>,
    plain: Seq<(Seq<char>, Seq<char>)>,
    i: int,
) -> Option<ChangeView> {
    if taken(plain, i) {
        Some(ChangeView::DropDuplicate { id: rows[i].id })
    } else if plain[i].0 != rows[i].path || plain[i].1 != rows[i].canonical_path {
        Some(
            ChangeView::Rewrite {
                id: rows[i].id,
                path: plain[i].0,
                canonical_path: plain[i].1,
            },
        )
    } else {
        None
    }
}

/// What is done to the first `n` documents.
pub open spec fn planned(
    rows: Seq<RowView>,
    plain: Seq<(Seq<char>, Seq<char>)>,
    n: int,
) -> Seq<ChangeView>
    decreases n,
{
    if n <= 0 {
        Seq::empty()
    } else {
        match change_of(rows, plain, n - 1) {
            Some(change) => planned(rows, plain, n - 1).push(change),
            None => planned(rows, plain, n - 1),
        }
    }
}

/// Makes out what has to be done to stored documents, given the plain form of
/// the paths of each. The first document with a path keeps it; every further
/// one is dropped. Documents that are in plain form already are left alone.
pub fn plan(rows: &Vec<StoredPath>, plain: &Vec<PlainPaths>) -> (changes: Vec<Change>)
    requires
        plain@.len() == rows@.len(),
    ensures
        change_views(changes@) == planned(
            row_views(rows@),
            plain_views(plain@),
            rows@.len() as int,
        ),
{
    let ghost all = row_views(rows@);
    let ghost forms = plain_views(plain@);
    let mut changes: Vec<Change> = Vec::new();
    let mut kept: StringHashMap<i64> = StringHashMap::new();
    let mut i: usize = 0;
    assert(change_views(changes@) =~= Seq::empty());
    while i < rows.len()
        invariant
            i <= rows@.len(),
            plain@.len() == rows@.len(),
            all == row_views(rows@),
            forms == plain_views(plain@),
            change_views(changes@) == planned(all, forms, i as int),
            forall|key: Seq<char>|
                #[trigger] kept@.dom().contains(key) <==> exists|j: int|
                    0 <= j < i && (#[trigger] forms[j]).0 == key,
        decreases rows@.len() - i,
    {
        let row = &rows[i];
        let form = &plain[i];
        let ghost before = change_views(changes@);
        let ghost keys = kept@;
        proof {
            assert(forms[i as int] == (form.path@, form.canonical_path@));
            assert(all[i as int] == row@);
            assert(keys.dom().contains(form.path@) <==> taken(forms, i as int));
        }
        if kept.contains_key(form.path.as_str()) {
            changes.push(Change::DropDuplicate { id: row.id });
            assert(change_views(changes@) =~= before.push(changes@.last()@));
        } else {
            kept.insert(form.path.clone(), row.id);
            if !same(form.path.as_str(), row.path.as_str()) || !same(
                form.canonical_path.as_str(),
                row.canonical_path.as_str(),
            ) {
                changes.push(
                    Change::Rewrite {
                        id: row.id,
                        path: form.path.clone(),
                        canonical_path: form.canonical_path.clone(),
                    },
                );
                assert(change_views(changes@) =~= before.push(changes@.last()@));
            }
        }
        assert forall|key: Seq<char>|
            #[trigger] kept@.dom().contains(key) <==> exists|j: int|
                0 <= j < i + 1 && (#[trigger] forms[j]).0 == key by {
            assert(keys.dom().contains(key) <==> exists|j: int|
                0 <= j < i && (#[trigger] forms[j]).0 == key);
            if exists|j: int| 0 <= j < i + 1 && (#[trigger] forms[j]).0 == key {
                let j = choose|j: int| 0 <= j < i + 1 && (#[trigger] forms[j]).0 == key;
                if j < i {
                    assert(keys.dom().contains(key));
                }
            }
            if keys.dom().contains(key) {
                let j = choose|j: int| 0 <= j < i && (#[trigger] forms[j]).0 == key;
                assert(0 <= j < i + 1 && forms[j].0 == key);
            }
            if key == form.path@ {
                assert(forms[i as int].0 == key);
            }
        }
        i += 1;
    }
    changes
}

/// A path and its plain form: the same, or without the prefix `\\?\`.
pub open spec fn plain_form(stored: Seq<char>, plain: Seq<char>) -> bool {
    plain == stored || (occurs_at(stored, "\\\\?\\"@, 0) && plain == stored.skip(4))
}

/// A platform may simplify a path to this one.
pub uninterp spec fn simplifies(stored: Seq<char>, plain: Seq<char>) -> bool;

/// `dunce::simplified`: the path as it is, or without the prefix `\\?\`. Which
/// of them depends on the platform and on its rules for file names.
#[verifier::external_body]
fn simplify(stored: &str) -> (plain: String)
    ensures
        simplifies(stored@, plain@),
        plain_form(stored@, plain@),
{
    dunce::simplified(std::path::Path::new(stored)).to_string_lossy().into_owned()
}

/// What a platform simplifies a path to.
pub open spec fn simple_form(stored: Seq<char>, plain: Seq<char>) -> bool {
    simplifies(stored, plain) && plain_form(stored, plain)
}

/// The plain forms are what the stored paths are simplified to.
pub open spec fn forms_of(rows: Seq<RowView>, plain: Seq<(Seq<char>, Seq<char>)>) -> bool {
    &&& plain.len() == rows.len()
    &&& forall|i: int|
        0 <= i < rows.len() ==> simple_form((#[trigger] rows[i]).path, plain[i].0) && simple_form(
            rows[i].canonical_path,
            plain[i].1,
        )
}

/// Makes out what has to be done to stored documents so that all paths are in
/// plain form.
pub fn normalize(rows: &Vec<StoredPath>) -> (changes: Vec<Change>)
    ensures
        exists|plain: Seq<(Seq<char>, Seq<char>)>|
            forms_of(row_views(rows@), plain) && change_views(changes@) == #[trigger] planned(
                row_views(rows@),
                plain,
                rows@.len() as int,
            ),
{
    let ghost all = row_views(rows@);
    let mut plain: Vec<PlainPaths> = Vec::new();
    let mut i: usize = 0;
    while i < rows.len()
        invariant
            i <= rows@.len(),
            all == row_views(rows@),
            plain@.len() == i,
            forall|k: int|
                0 <= k < i ==> simple_form((#[trigger] all[k]).path, plain@[k].path@) && simple_form(
                    all[k].canonical_path,
                    plain@[k].canonical_path@,
                ),
        decreases rows@.len() - i,
    {
        plain.push(
            PlainPaths {
                path: simplify(rows[i].path.as_str()),
                canonical_path: simplify(rows[i].canonical_path.as_str()),
            },
        );
        i += 1;
    }
    let changes = plan(rows, &plain);
    assert(forms_of(all, plain_views(plain@)));
    changes
}

/// The first `n` documents after the changes.
pub open spec fn after_changes(
    rows: Seq<RowView>,
    plain: Seq<(Seq<char>, Seq<char>)>,
    n: int,
) -> Seq<RowView>
    decreases n,
{
    if n <= 0 {
        Seq::empty()
    } else {
        let before = after_changes(rows, plain, n - 1);
        match change_of(rows, plain, n - 1) {
            Some(ChangeView::DropDuplicate { .. }) => before,
            Some(ChangeView::Rewrite { id, path, canonical_path }) => before.push(
                RowView { id, path, canonical_path },
            ),
            None => before.push(rows[n - 1]),
        }
    }
}

/// The paths of documents as they are.
pub open spec fn own_paths(rows: Seq<RowView>) -> Seq<(Seq<char>, Seq<char>)> {
    rows.map_values(|row: RowView| (row.path, row.canonical_path))
}

proof fn lemma_after_changes(rows: Seq<RowView>, plain: Seq<(Seq<char>, Seq<char>)>, n: int)
    requires
        plain.len() == rows.len(),
        0 <= n <= rows.len(),
    ensures
        forall|k: int|
            0 <= k < after_changes(rows, plain, n).len() ==> exists|j: int|
                0 <= j < n && (#[trigger] plain[j]).0 == (#[trigger] after_changes(
                    rows,
                    plain,
                    n,
                )[k]).path,
        forall|j: int, k: int|
            0 <= j < k < after_changes(rows, plain, n).len() ==> (#[trigger] after_changes(
                rows,
                plain,
                n,
            )[j]).path != (#[trigger] after_changes(rows, plain, n)[k]).path,
        forall|j: int|
            0 <= j < n ==> exists|k: int|
                0 <= k < after_changes(rows, plain, n).len() && (#[trigger] after_changes(
                    rows,
                    plain,
                    n,
                )[k]).path == (#[trigger] plain[j]).0,
    decreases n,
{
    if n > 0 {
        lemma_after_changes(rows, plain, n - 1);
        let before = after_changes(rows, plain, n - 1);
        let after = after_changes(rows, plain, n);
        if taken(plain, n - 1) {
            let t = choose|t: int| 0 <= t < n - 1 && (#[trigger] plain[t]).0 == plain[n - 1].0;
            let k = choose|k: int|
                0 <= k < before.len() && (#[trigger] before[k]).path == plain[t].0;
            assert(after == before);
            assert forall|m: int| 0 <= m < after.len() implies exists|j: int|
                0 <= j < n && (#[trigger] plain[j]).0 == (#[trigger] after[m]).path by {
                let j = choose|j: int|
                    0 <= j < n - 1 && (#[trigger] plain[j]).0 == before[m].path;
                assert(0 <= j < n && plain[j].0 == after[m].path);
            }
        } else {
            let last = after.last();
            assert(after == before.push(last));
            assert(last.path == plain[n - 1].0);
            assert forall|m: int| 0 <= m < after.len() implies exists|j: int|
                0 <= j < n && (#[trigger] plain[j]).0 == (#[trigger] after[m]).path by {
                if m < before.len() {
                    let j = choose|j: int|
                        0 <= j < n - 1 && (#[trigger] plain[j]).0 == before[m].path;
                    assert(0 <= j < n && plain[j].0 == after[m].path);
                } else {
                    assert(plain[n - 1].0 == after[m].path);
                }
            }
            assert forall|j: int, k: int| 0 <= j < k < after.len() implies (#[trigger] after[j]).path
                != (#[trigger] after[k]).path by {
                assert(after[j] == before[j]);
                if k < before.len() {
                    assert(after[k] == before[k]);
                } else {
                    let t = choose|t: int|
                        0 <= t < n - 1 && (#[trigger] plain[t]).0 == before[j].path;
                    assert(plain[t].0 != plain[n - 1].0);
                }
            }
            assert forall|j: int| 0 <= j < n implies exists|k: int|
                0 <= k < after.len() && (#[trigger] after[k]).path == (#[trigger] plain[j]).0 by {
                if j < n - 1 {
                    let k = choose|k: int|
                        0 <= k < before.len() && (#[trigger] before[k]).path == plain[j].0;
                    assert(after[k] == before[k]);
                } else {
                    assert(after[after.len() - 1].path == plain[j].0);
                }
            }
        }
    }
}

/// After the changes no two documents have the same path.
pub proof fn law_paths_are_stored_once(
    rows: Seq<RowView>,
    plain: Seq<(Seq<char>, Seq<char>)>,
    j: int,
    k: int,
)
    requires
        plain.len() == rows.len(),
        0 <= j < k < after_changes(rows, plain, rows.len() as int).len(),
    ensures
        after_changes(rows, plain, rows.len() as int)[j].path != after_changes(
            rows,
            plain,
            rows.len() as int,
        )[k].path,
{
    lemma_after_changes(rows, plain, rows.len() as int);
}

/// No path gets lost: for every document there is one with its plain path
/// after the changes.
pub proof fn law_no_path_is_lost(rows: Seq<RowView>, plain: Seq<(Seq<char>, Seq<char>)>, j: int)
    requires
        plain.len() == rows.len(),
        0 <= j < rows.len(),
    ensures
        exists|k: int|
            0 <= k < after_changes(rows, plain, rows.len() as int).len() && (
            #[trigger] after_changes(rows, plain, rows.len() as int)[k]).path == plain[j].0,
{
    lemma_after_changes(rows, plain, rows.len() as int);
    let all = after_changes(rows, plain, rows.len() as int);
    let form = plain[j];
    let k = choose|k: int| 0 <= k < all.len() && (#[trigger] all[k]).path == form.0;
    assert(all[k].path == plain[j].0);
}

proof fn lemma_nothing_planned(rows: Seq<RowView>, n: int)
    requires
        0 <= n <= rows.len(),
        forall|j: int, k: int|
            0 <= j < k < rows.len() ==> (#[trigger] rows[j]).path != (#[trigger] rows[k]).path,
    ensures
        planned(rows, own_paths(rows), n) == Seq::<ChangeView>::empty(),
    decreases n,
{
    if n > 0 {
        lemma_nothing_planned(rows, n - 1);
        let own = own_paths(rows);
        assert(own[n - 1] == (rows[n - 1].path, rows[n - 1].canonical_path));
        if taken(own, n - 1) {
            let j = choose|j: int| 0 <= j < n - 1 && (#[trigger] own[j]).0 == own[n - 1].0;
            assert(rows[j].path == rows[n - 1].path);
        }
    }
}

/// Once the changes are made and all paths are in plain form, a second run
/// finds nothing to do.
pub proof fn law_second_run_does_nothing(rows: Seq<RowView>, plain: Seq<(Seq<char>, Seq<char>)>)
    requires
        plain.len() == rows.len(),
    ensures
        ({
            let stored = after_changes(rows, plain, rows.len() as int);
            planned(stored, own_paths(stored), stored.len() as int) == Seq::<ChangeView>::empty()
        }),
{
    lemma_after_changes(rows, plain, rows.len() as int);
    let stored = after_changes(rows, plain, rows.len() as int);
    lemma_nothing_planned(stored, stored.len() as int);
}

/// The first document with a path stays.
pub proof fn law_first_document_is_kept(
    rows: Seq<RowView>,
    plain: Seq<(Seq<char>, Seq<char>)>,
    i: int,
)
    requires
        plain.len() == rows.len(),
        0 <= i < rows.len(),
    ensures
        change_of(rows, plain, i) == Some(ChangeView::DropDuplicate { id: rows[i].id })
            <==> exists|j: int| 0 <= j < i && (#[trigger] plain[j]).0 == plain[i].0,
{
}

} // verus!
