//! Queries over several predicates, and lists of row identifiers.

use crate::entry::{
    entries_view, predicates_view, row_satisfies, row_satisfies_all, Entry, EntryView, Predicate,
    PredicateView, RowId,
};
use crate::find::{lemma_matching, matching, names_view, selected};
use crate::store::{lemma_take_one_more, Db};
use vstd::prelude::*;

verus! {

/// Whether the identifiers stand in strictly increasing order.
pub open spec fn ascending(row_ids: Seq<RowId>) -> bool {
    forall|i: int, j: int| 0 <= i < j < row_ids.len() ==> row_ids[i].0 < row_ids[j].0
}

/// The identifiers of `left` that are not in `right`, in the order of `left`.
pub open spec fn difference(left: Seq<RowId>, right: Seq<RowId>) -> Seq<RowId>
    decreases left.len(),
{
    if left.len() == 0 {
        Seq::empty()
    } else if right.contains(left.last()) {
        difference(left.drop_last(), right)
    } else {
        difference(left.drop_last(), right).push(left.last())
    }
}

/// Whether the identifier is in the list.
fn contains_row_id(row_ids: &[RowId], row_id: RowId) -> (r: bool)
    ensures
        r == row_ids@.contains(row_id),
{
    let mut i: usize = 0;
    while i < row_ids.len()
        invariant
            i <= row_ids.len(),
            forall|j: int| 0 <= j < i ==> row_ids@[j] != row_id,
        decreases row_ids.len() - i,
    {
        if row_ids[i].0 == row_id.0 {
            return true;
        }
        i += 1;
    }
    false
}

/// The identifiers of `left` that are not in `right`, in the order of `left`.
pub fn minus(left: &[RowId], right: &[RowId]) -> (r: Vec<RowId>)
    ensures
        r@ == difference(left@, right@),
{
    let mut kept: Vec<RowId> = Vec::new();
    let mut i: usize = 0;
    assert(left@.take(0) =~= Seq::<RowId>::empty());
    while i < left.len()
        invariant
            i <= left.len(),
            kept@ == difference(left@.take(i as int), right@),
        decreases left.len() - i,
    {
        proof {
            let longer = left@.take(i + 1);
            assert(longer.drop_last() =~= left@.take(i as int));
            assert(longer.last() == left[i as int]);
        }
        if !contains_row_id(right, left[i]) {
            kept.push(left[i]);
        }
        i += 1;
    }
    assert(left@.take(left.len() as int) =~= left@);
    kept
}

/// Puts the identifier in its place in an ascending list, unless it is there.
fn insert_ascending(sorted: &mut Vec<RowId>, row_id: RowId)
    requires
        ascending(old(sorted)@),
    ensures
        ascending(final(sorted)@),
        final(sorted)@.to_set() == old(sorted)@.to_set().insert(row_id),
{
    let ghost before = sorted@;
    let mut p: usize = 0;
    while p < sorted.len() && sorted[p].0 < row_id.0
        invariant
            p <= sorted.len(),
            sorted@ == before,
            forall|j: int| 0 <= j < p ==> sorted@[j].0 < row_id.0,
        decreases sorted.len() - p,
    {
        p += 1;
    }
    if p < sorted.len() && sorted[p].0 == row_id.0 {
        proof {
            assert(before[p as int] == row_id);
            assert(before.to_set().contains(row_id));
            assert(before.to_set() =~= before.to_set().insert(row_id));
        }
    } else {
        sorted.insert(p, row_id);
        proof {
            let after = sorted@;
            assert forall|i: int, j: int| 0 <= i < j < after.len() implies after[i].0
                < after[j].0 by {
                if i < p && j > p {
                    assert(after[j] == before[j - 1]);
                } else if i > p {
                    assert(after[i] == before[i - 1]);
                    assert(after[j] == before[j - 1]);
                } else if i == p {
                    assert(after[j] == before[j - 1]);
                    assert(before[p as int].0 <= before[j - 1].0);
                }
            }
            assert forall|x: RowId| after.to_set().contains(x) <==> before.to_set().insert(
                row_id,
            ).contains(x) by {
                if after.contains(x) {
                    let j = choose|j: int| 0 <= j < after.len() && after[j] == x;
                    if j < p {
                        assert(before[j] == x);
                    } else if j > p {
                        assert(before[j - 1] == x);
                    }
                }
                if before.contains(x) {
                    let j = choose|j: int| 0 <= j < before.len() && before[j] == x;
                    if j < p {
                        assert(after[j] == x);
                    } else {
                        assert(after[j + 1] == x);
                    }
                }
                if x == row_id {
                    assert(after[p as int] == x);
                }
            }
            assert(after.to_set() =~= before.to_set().insert(row_id));
        }
    }
}

/// The identifiers of the list in strictly increasing order, each once.
pub fn sorted_unique(row_ids: Vec<RowId>) -> (r: Vec<RowId>)
    ensures
        ascending(r@),
        r@.to_set() == row_ids@.to_set(),
{
    let mut sorted: Vec<RowId> = Vec::new();
    let mut i: usize = 0;
    assert(row_ids@.take(0).to_set() =~= sorted@.to_set());
    while i < row_ids.len()
        invariant
            i <= row_ids.len(),
            ascending(sorted@),
            sorted@.to_set() == row_ids@.take(i as int).to_set(),
        decreases row_ids.len() - i,
    {
        proof {
            lemma_take_one_more(row_ids@, i as int);
        }
        insert_ascending(&mut sorted, row_ids[i]);
        i += 1;
    }
    assert(row_ids@.take(row_ids.len() as int) =~= row_ids@);
    sorted
}

/// A row meets one more predicate where it meets those before and that one.
pub proof fn lemma_satisfies_one_more(
    row: Seq<EntryView>,
    predicates: Seq<PredicateView>,
    k: int,
)
    requires
        0 <= k < predicates.len(),
    ensures
        row_satisfies_all(row, predicates.take(k + 1)) <==> row_satisfies_all(
            row,
            predicates.take(k),
        ) && row_satisfies(row, predicates[k]),
{
    let shorter = predicates.take(k);
    let longer = predicates.take(k + 1);
    if row_satisfies_all(row, longer) {
        assert forall|j: int| 0 <= j < shorter.len() implies row_satisfies(
            row,
            #[trigger] shorter[j],
        ) by {
            assert(shorter[j] == longer[j]);
        }
        assert(longer[k] == predicates[k]);
    }
    if row_satisfies_all(row, shorter) && row_satisfies(row, predicates[k]) {
        assert forall|j: int| 0 <= j < longer.len() implies row_satisfies(
            row,
            #[trigger] longer[j],
        ) by {
            if j < k {
                assert(shorter[j] == longer[j]);
            }
        }
    }
}

/// An ascending list holds no identifier twice.
pub proof fn lemma_ascending_no_duplicates(row_ids: Seq<RowId>)
    requires
        ascending(row_ids),
    ensures
        row_ids.no_duplicates(),
{
    assert forall|i: int, j: int|
        0 <= i < row_ids.len() && 0 <= j < row_ids.len() && i != j implies row_ids[i]
        != row_ids[j] by {
        if i < j {
            assert(row_ids[i].0 < row_ids[j].0);
        } else {
            assert(row_ids[j].0 < row_ids[i].0);
        }
    }
}

impl Db {
    /// The live rows that meet every one of the predicates.
    pub open spec fn matching_rows(&self, predicates: Seq<PredicateView>) -> Set<RowId> {
        Set::new(
            |row_id: RowId|
                self.rows().contains_key(row_id) && row_satisfies_all(
                    self.rows()[row_id],
                    predicates,
                ),
        )
    }

    /// The rows that meet every one of the predicates, in increasing order of
    /// their identifiers, each once; with no predicate, every live row.
    ///
    /// The first predicate picks the candidates (see `find_by_predicate`); each
    /// further one is tried on the rows that are left. With `max_results`, no
    /// more rows than that are given; which of the matching rows they are is
    /// not fixed.
    pub fn find_row_ids_by_predicate(
        &self,
        predicates: &[Predicate],
        max_results: Option<usize>,
    ) -> (r: Vec<RowId>)
        requires
            self.wf(),
        ensures
            ascending(r@),
            self.matching_rows(predicates_view(predicates@)).finite(),
            r@.to_set().subset_of(self.matching_rows(predicates_view(predicates@))),
            r@.len() == match max_results {
                Some(max) if max < self.matching_rows(predicates_view(predicates@)).len() => max as nat,
                _ => self.matching_rows(predicates_view(predicates@)).len(),
            },
            r@.len() == self.matching_rows(predicates_view(predicates@)).len() ==> r@.to_set()
                == self.matching_rows(predicates_view(predicates@)),
    {
        let ghost wanted = predicates_view(predicates@);
        let ghost all = self.matching_rows(wanted);
        let mut row_ids = if predicates.len() == 0 {
            let every = self.find_all_row_ids();
            proof {
                assert forall|row_id: RowId| every@.contains(row_id) <==> all.contains(row_id) by {
                    assert(every@.contains(row_id) <==> every@.to_set().contains(row_id));
                }
            }
            every
        } else {
            let mut found = self.find_by_predicate(&predicates[0]);
            let mut k: usize = 1;
            proof {
                assert(wanted[0] == predicates[0]@);
                assert forall|row_id: RowId|
                    found@.contains(row_id) <==> self.rows().contains_key(row_id)
                        && row_satisfies_all(self.rows()[row_id], wanted.take(1)) by {
                    if self.rows().contains_key(row_id) {
                        assert(wanted.take(0) =~= Seq::<PredicateView>::empty());
                        lemma_satisfies_one_more(self.rows()[row_id], wanted, 0);
                    }
                }
            }
            while k < predicates.len()
                invariant
                    1 <= k <= predicates.len(),
                    wanted == predicates_view(predicates@),
                    found@.no_duplicates(),
                    forall|row_id: RowId|
                        found@.contains(row_id) <==> self.rows().contains_key(row_id)
                            && row_satisfies_all(self.rows()[row_id], wanted.take(k as int)),
                decreases predicates.len() - k,
            {
                let ghost before = found@;
                found = self.filter_rows(&found, &predicates[k]);
                proof {
                    lemma_matching(self.rows(), before, predicates[k as int]@);
                    assert(wanted[k as int] == predicates[k as int]@);
                    assert forall|row_id: RowId|
                        found@.contains(row_id) <==> self.rows().contains_key(row_id)
                            && row_satisfies_all(self.rows()[row_id], wanted.take(k + 1)) by {
                        if self.rows().contains_key(row_id) {
                            lemma_satisfies_one_more(self.rows()[row_id], wanted, k as int);
                        }
                    }
                }
                k += 1;
            }
            proof {
                assert(wanted.take(predicates.len() as int) =~= wanted);
            }
            found
        };
        proof {
            assert(row_ids@.to_set() =~= all);
            row_ids@.unique_seq_to_set();
        }
        let ghost candidates = row_ids@;
        match max_results {
            Some(max) => {
                if max < row_ids.len() {
                    row_ids.truncate(max);
                }
            },
            None => {},
        }
        let ghost kept = row_ids@;
        proof {
            assert forall|i: int| 0 <= i < kept.len() implies #[trigger] kept[i]
                == candidates[i] by {}
            assert(kept.no_duplicates());
            assert forall|row_id: RowId| kept.to_set().contains(row_id) implies all.contains(
                row_id,
            ) by {
                let j = choose|j: int| 0 <= j < kept.len() && kept[j] == row_id;
                assert(candidates[j] == row_id);
                assert(candidates.to_set().contains(row_id));
            }
            kept.unique_seq_to_set();
        }
        let sorted = sorted_unique(row_ids);
        proof {
            lemma_ascending_no_duplicates(sorted@);
            sorted@.unique_seq_to_set();
            if sorted@.len() == all.len() {
                assert(kept =~= candidates);
            }
        }
        sorted
    }

    /// For each row that meets every one of the predicates, in increasing
    /// order of the identifiers, its entries that have one of the names, put
    /// in the order of the names.
    pub fn find_entries_by_predicate(&self, predicates: &[Predicate], entries: &[&str]) -> (r:
        Vec<Vec<Entry>>)
        requires
            self.wf(),
        ensures
            exists|row_ids: Seq<RowId>|
                {
                    &&& ascending(row_ids)
                    &&& row_ids.to_set() == self.matching_rows(predicates_view(predicates@))
                    &&& r@.len() == row_ids.len()
                    &&& forall|i: int|
                        0 <= i < r@.len() ==> entries_view((#[trigger] r@[i])@) == selected(
                            self.row(row_ids[i]),
                            names_view(entries@),
                        )
                },
    {
        let row_ids = self.find_row_ids_by_predicate(predicates, None);
        let found = self.entries_from_row_ids(row_ids.as_slice(), entries);
        proof {
            let ids = row_ids@;
            assert(ascending(ids) && ids.to_set() == self.matching_rows(
                predicates_view(predicates@),
            ) && found@.len() == ids.len() && forall|i: int|
                0 <= i < found@.len() ==> entries_view((#[trigger] found@[i])@) == selected(
                    self.row(ids[i]),
                    names_view(entries@),
                ));
        }
        found
    }

    /// The live rows among the `top_n` identifiers issued last, in increasing
    /// order. The identifier zero is never among them.
    pub fn last_n_rows(&self, top_n: usize) -> (r: Vec<RowId>)
        ensures
            ascending(r@),
            forall|row_id: RowId|
                r@.contains(row_id) <==> self.rows().contains_key(row_id) && 1 <= row_id.0
                    <= self.row_max() && self.row_max() - row_id.0 < top_n,
    {
        let last = self.last_row_id().0;
        let mut found: Vec<RowId> = Vec::new();
        if top_n == 0 || last == 0 {
            return found;
        }
        let min_row: usize = if last > top_n {
            last - top_n + 1
        } else {
            1
        };
        let mut next: usize = min_row;
        while next < last
            invariant
                1 <= min_row <= next <= last,
                ascending(found@),
                forall|j: int| 0 <= j < found@.len() ==> found@[j].0 < next,
                forall|row_id: RowId|
                    found@.contains(row_id) <==> self.rows().contains_key(row_id) && min_row
                        <= row_id.0 < next,
            decreases last - next,
        {
            self.push_if_live(&mut found, next);
            next += 1;
        }
        self.push_if_live(&mut found, last);
        found
    }

    /// Appends the identifier to an ascending list of smaller ones where its
    /// row is live.
    fn push_if_live(&self, found: &mut Vec<RowId>, next: usize)
        requires
            ascending(old(found)@),
            forall|j: int| 0 <= j < old(found)@.len() ==> old(found)@[j].0 < next,
        ensures
            ascending(final(found)@),
            forall|j: int| 0 <= j < final(found)@.len() ==> final(found)@[j].0 <= next,
            forall|row_id: RowId|
                final(found)@.contains(row_id) <==> old(found)@.contains(row_id) || (row_id.0
                    == next && self.rows().contains_key(row_id)),
    {
        let ghost before = found@;
        if self.has_row(RowId(next)) {
            found.push(RowId(next));
        }
        proof {
            assert forall|row_id: RowId|
                found@.contains(row_id) <==> before.contains(row_id) || (row_id.0 == next
                    && self.rows().contains_key(row_id)) by {
                if found@.contains(row_id) {
                    let j = choose|j: int| 0 <= j < found@.len() && found@[j] == row_id;
                    if j < before.len() {
                        assert(before[j] == row_id);
                    }
                }
                if before.contains(row_id) {
                    let j = choose|j: int| 0 <= j < before.len() && before[j] == row_id;
                    assert(found@[j] == row_id);
                }
                if row_id.0 == next && self.rows().contains_key(row_id) {
                    assert(found@[found@.len() - 1] == row_id);
                }
            }
        }
    }
}

} // verus!
