//! What is kept between sessions: the rows, never the indexes. A store hands
//! out its rows to be written, and is built again from rows that were read.

use crate::entry::{entries_view, Entry, EntryView, RowId};
use crate::find::clone_entries;
use crate::query::{ascending, sorted_unique};
use crate::store::{lemma_take_one_more, Db};
use vstd::prelude::*;
use vstd::string::StringExecFns;

verus! {

broadcast use vstd::std_specs::hash::group_hash_axioms;

/// A row as it is kept: its identifier and its entries in their order.
#[derive(Debug)]
pub struct Row {
    pub row_id: RowId,
    pub entries: Vec<Entry>,
}

/// What a kept row is: its identifier and what its entries are.
pub struct RowView {
    pub row_id: RowId,
    pub entries: Seq<EntryView>,
}

impl View for Row {
    type V = RowView;

    open spec fn view(&self) -> RowView {
        RowView { row_id: self.row_id, entries: entries_view(self.entries@) }
    }
}

/// What a list of kept rows is: what each row is, in order.
pub open spec fn rows_view(rows: Seq<Row>) -> Seq<RowView> {
    rows.map_values(|row: Row| row@)
}

/// The identifiers of a list of kept rows, in order.
pub open spec fn row_ids_of(rows: Seq<RowView>) -> Seq<RowId> {
    rows.map_values(|row: RowView| row.row_id)
}

/// The live rows that a list of kept rows gives when read in order: a row
/// without entries gives none, and a row whose identifier came before takes
/// the place of the earlier one.
pub open spec fn replayed(rows: Seq<RowView>) -> Map<RowId, Seq<EntryView>>
    decreases rows.len(),
{
    if rows.len() == 0 {
        Map::empty()
    } else if rows.last().entries.len() == 0 {
        replayed(rows.drop_last())
    } else {
        replayed(rows.drop_last()).insert(rows.last().row_id, rows.last().entries)
    }
}

/// The greatest identifier among the kept rows that have entries; zero where
/// there is none.
pub open spec fn greatest_id(rows: Seq<RowView>) -> usize
    decreases rows.len(),
{
    if rows.len() == 0 {
        0
    } else if rows.last().entries.len() > 0 && rows.last().row_id.0 > greatest_id(
        rows.drop_last(),
    ) {
        rows.last().row_id.0
    } else {
        greatest_id(rows.drop_last())
    }
}

/// Whether the list holds exactly the live rows, each once with its entries,
/// in increasing order of the identifiers.
pub open spec fn lists(kept: Seq<RowView>, rows: Map<RowId, Seq<EntryView>>) -> bool {
    &&& ascending(row_ids_of(kept))
    &&& row_ids_of(kept).to_set() == rows.dom()
    &&& forall|i: int|
        0 <= i < kept.len() ==> (#[trigger] kept[i]).entries.len() > 0 && rows[kept[i].row_id]
            == kept[i].entries
}

/// The live rows without those that have no entry.
pub open spec fn without_empty(rows: Map<RowId, Seq<EntryView>>) -> Map<RowId, Seq<EntryView>> {
    Map::new(|row_id: RowId| rows.contains_key(row_id) && rows[row_id].len() > 0, |row_id: RowId|
        rows[row_id])
}

impl Db {
    /// The logical name of the store.
    pub fn get_name(&self) -> (r: String)
        ensures
            r@ == self.name(),
    {
        self.name.clone()
    }

    /// The path of the file in which the store is kept: its logical name in
    /// the directory `save`.
    pub fn full_filename(&self) -> (r: String)
        ensures
            r@ == "save/"@ + self.name(),
    {
        Db::build_filename(self.name.as_str())
    }

    /// The path of the file in which a store of this name is kept.
    pub fn build_filename(name: &str) -> (r: String)
        ensures
            r@ == "save/"@ + name@,
    {
        "save/".to_owned().concat(name)
    }

    /// Drops every row without entries, then hands out the live rows in
    /// increasing order of their identifiers, each with a copy of its entries.
    /// The indexes are not handed out. A well-formed store has no row without
    /// entries and is left as it was.
    pub fn snapshot(&mut self) -> (r: Vec<Row>)
        ensures
            final(self).rows() == without_empty(old(self).rows()),
            final(self).row_max() == old(self).row_max(),
            final(self).name() == old(self).name(),
            lists(rows_view(r@), final(self).rows()),
            old(self).wf() ==> final(self).wf() && final(self).rows() == old(self).rows(),
    {
        let ghost before = *self;
        let ids = self.find_all_row_ids();
        let mut i: usize = 0;
        proof {
            assert(ids@.take(0).to_set() =~= Set::<RowId>::empty());
            assert(self.rows() =~= without_empty_among(before.rows(), Set::<RowId>::empty()));
        }
        while i < ids.len()
            invariant
                i <= ids.len(),
                ids@.to_set() == before.rows().dom(),
                self.by_name == before.by_name,
                self.by_value == before.by_value,
                self.row_max == before.row_max,
                self.name == before.name,
                self.rows() == without_empty_among(before.rows(), ids@.take(i as int).to_set()),
            decreases ids.len() - i,
        {
            let ghost between = *self;
            let ghost here = ids@[i as int];
            let empty = match self.by_row_id.get(&ids[i].0) {
                Some(row) => row.len() == 0,
                None => false,
            };
            proof {
                assert(empty <==> between.rows().contains_key(here) && between.rows()[here].len()
                    == 0);
            }
            if empty {
                self.by_row_id.remove(&ids[i].0);
            }
            proof {
                lemma_take_one_more(ids@, i as int);
                let more = ids@.take(i + 1).to_set();
                if empty {
                    assert(self.rows() =~= between.rows().remove(here));
                } else {
                    assert(self.rows() =~= between.rows());
                }
                assert(self.rows() =~= without_empty_among(before.rows(), more));
            }
            i += 1;
        }
        proof {
            assert(ids@.take(ids.len() as int) =~= ids@);
            assert(self.rows() =~= without_empty(before.rows()));
        }
        let ghost pruned = *self;
        let live = sorted_unique(self.find_all_row_ids());
        let mut kept: Vec<Row> = Vec::new();
        let mut k: usize = 0;
        proof {
            assert(row_ids_of(rows_view(kept@)) =~= live@.take(0));
        }
        while k < live.len()
            invariant
                k <= live.len(),
                *self == pruned,
                live@.to_set() == self.rows().dom(),
                self.rows() == without_empty(before.rows()),
                row_ids_of(rows_view(kept@)) == live@.take(k as int),
                forall|j: int|
                    0 <= j < kept@.len() ==> (#[trigger] rows_view(kept@)[j]).entries.len() > 0
                        && self.rows()[rows_view(kept@)[j].row_id] == rows_view(
                        kept@,
                    )[j].entries,
            decreases live.len() - k,
        {
            let ghost so_far = kept@;
            proof {
                assert(live@.to_set().contains(live@[k as int]));
                assert(self.rows().contains_key(live@[k as int]));
            }
            match self.by_row_id.get(&live[k].0) {
                Some(row) => {
                    let copy = Row { row_id: live[k], entries: clone_entries(row) };
                    let ghost added = copy@;
                    kept.push(copy);
                    proof {
                        assert(added.entries == self.rows()[live@[k as int]]);
                        assert(rows_view(kept@) =~= rows_view(so_far).push(added));
                        assert(row_ids_of(rows_view(kept@)) =~= row_ids_of(
                            rows_view(so_far),
                        ).push(added.row_id));
                        assert(row_ids_of(rows_view(kept@)) =~= live@.take(k + 1));
                        assert forall|j: int| 0 <= j < kept@.len() implies (#[trigger] rows_view(
                            kept@,
                        )[j]).entries.len() > 0 && self.rows()[rows_view(kept@)[j].row_id]
                            == rows_view(kept@)[j].entries by {
                            if j < so_far.len() {
                                assert(rows_view(kept@)[j] == rows_view(so_far)[j]);
                            }
                        }
                    }
                },
                None => {
                    assert(false);
                },
            }
            k += 1;
        }
        proof {
            assert(live@.take(live.len() as int) =~= live@);
            if before.wf() {
                assert(self.rows() =~= before.rows());
                assert forall|name: Seq<char>| #[trigger]
                    self.name_index(name) =~= before.name_index(name) by {}
                assert forall|entry: EntryView| #[trigger]
                    self.value_index(entry) =~= before.value_index(entry) by {}
            }
        }
        kept
    }

    /// A store of the given name that holds the kept rows, read in order:
    /// each row with entries is entered under its own identifier, entry by
    /// entry, so that both indexes are built anew. The greatest of these
    /// identifiers counts as the last one issued.
    pub fn from_rows(filename: &str, rows: &[Row]) -> (r: Db)
        ensures
            r.wf(),
            r.name() == filename@,
            r.rows() == replayed(rows_view(rows@)),
            r.row_max() == greatest_id(rows_view(rows@)),
    {
        let ghost view = rows_view(rows@);
        let mut db = Db::new(filename);
        let mut i: usize = 0;
        proof {
            assert(view.take(0) =~= Seq::<RowView>::empty());
        }
        while i < rows.len()
            invariant
                i <= rows.len(),
                view == rows_view(rows@),
                db.wf(),
                db.name() == filename@,
                db.rows() == replayed(view.take(i as int)),
                db.row_max() == greatest_id(view.take(i as int)),
            decreases rows.len() - i,
        {
            let ghost base = db.rows();
            let ghost greatest = db.row_max();
            let row_id = rows[i].row_id;
            let ghost entries = entries_view(rows[i as int].entries@);
            proof {
                let longer = view.take(i + 1);
                assert(longer.drop_last() =~= view.take(i as int));
                assert(longer.last() == rows[i as int]@);
            }
            if rows[i].entries.len() > 0 {
                db.remove_by_row_id(row_id);
                let mut j: usize = 0;
                while j < rows[i].entries.len()
                    invariant
                        i < rows.len(),
                        j <= rows[i as int].entries.len(),
                        row_id == rows[i as int].row_id,
                        entries == entries_view(rows[i as int].entries@),
                        db.wf(),
                        db.name() == filename@,
                        db.rows() == if j == 0 {
                            base.remove(row_id)
                        } else {
                            base.insert(row_id, entries.take(j as int))
                        },
                        db.row_max() == if j > 0 && greatest < row_id.0 {
                            row_id.0
                        } else {
                            greatest
                        },
                    decreases rows[i as int].entries.len() - j,
                {
                    let ghost between = db.rows();
                    let entry = rows[i].entries[j].clone();
                    db.add_row_id_entry(row_id, entry);
                    proof {
                        if j == 0 {
                            assert(entries.take(1) =~= Seq::<EntryView>::empty().push(entry@));
                        } else {
                            assert(entries.take(j + 1) =~= entries.take(j as int).push(entry@));
                        }
                        assert(db.rows() =~= base.insert(row_id, entries.take(j + 1)));
                    }
                    j += 1;
                }
                proof {
                    assert(entries.take(rows[i as int].entries.len() as int) =~= entries);
                }
            }
            i += 1;
        }
        proof {
            assert(view.take(rows.len() as int) =~= view);
        }
        db
    }
}

/// The live rows without those of `among` that have no entry.
pub open spec fn without_empty_among(
    rows: Map<RowId, Seq<EntryView>>,
    among: Set<RowId>,
) -> Map<RowId, Seq<EntryView>> {
    Map::new(
        |row_id: RowId|
            rows.contains_key(row_id) && (among.contains(row_id) ==> rows[row_id].len() > 0),
        |row_id: RowId| rows[row_id],
    )
}

} // verus!
