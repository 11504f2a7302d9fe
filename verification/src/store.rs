//! The store: rows by identifier, and the two indexes kept in step with them.

use crate::entry::{
    entries_view, row_has_entry, row_has_name, Entry, EntryView, RowId,
};
use crate::index::Index;
use std::collections::HashMap;
use vstd::prelude::*;

verus! {

broadcast use vstd::std_specs::hash::group_hash_axioms;

/// A store of rows. Each live row has an identifier and a list of entries
/// that is not empty. Two indexes say for each name, and for each entry, which
/// rows hold it.
#[derive(Debug)]
pub struct Db {
    pub(crate) name: String,
    pub(crate) row_max: RowId,
    pub(crate) by_row_id: HashMap<usize, Vec<Entry>>,
    pub(crate) by_name: Index<String>,
    pub(crate) by_value: Index<Entry>,
}

/// The row without its entries of the name, the others in their order.
pub open spec fn without_name(row: Seq<EntryView>, name: Seq<char>) -> Seq<EntryView>
    decreases row.len(),
{
    if row.len() == 0 {
        Seq::empty()
    } else if row.last().name == name {
        without_name(row.drop_last(), name)
    } else {
        without_name(row.drop_last(), name).push(row.last())
    }
}

impl Db {
    /// The live rows: for each identifier, what the entries of its row are.
    pub open(crate) spec fn rows(&self) -> Map<RowId, Seq<EntryView>> {
        Map::new(
            |row_id: RowId| self.by_row_id@.contains_key(row_id.0),
            |row_id: RowId| entries_view(self.by_row_id@[row_id.0]@),
        )
    }

    /// The rows that the index by name files under the name.
    pub open(crate) spec fn name_index(&self, name: Seq<char>) -> Set<RowId> {
        Set::new(|row_id: RowId| self.by_name.has(name, row_id.0))
    }

    /// The rows that the index by value files under the entry.
    pub open(crate) spec fn value_index(&self, entry: EntryView) -> Set<RowId> {
        Set::new(|row_id: RowId| self.by_value.has(entry, row_id.0))
    }

    /// The greatest identifier issued so far; zero before the first.
    pub open(crate) spec fn row_max(&self) -> usize {
        self.row_max.0
    }

    /// The logical name of the store.
    pub open(crate) spec fn name(&self) -> Seq<char> {
        self.name@
    }

    /// No key of either index is filed twice.
    pub open(crate) spec fn indexes_wf(&self) -> bool {
        self.by_name.wf() && self.by_value.wf()
    }

    /// The entries of a row; none where the row is not live.
    pub open spec fn row(&self, row_id: RowId) -> Seq<EntryView> {
        if self.rows().contains_key(row_id) {
            self.rows()[row_id]
        } else {
            Seq::empty()
        }
    }

    /// What holds of a store between any two operations: every live row has
    /// an entry and an identifier that was issued, and each index files a row
    /// under a name, or under an entry, exactly where the row is live and
    /// holds it.
    pub open spec fn wf(&self) -> bool {
        &&& self.indexes_wf()
        &&& forall|row_id: RowId| #[trigger]
            self.rows().contains_key(row_id) ==> self.rows()[row_id].len() > 0 && row_id.0
                <= self.row_max()
        &&& forall|name: Seq<char>, row_id: RowId| #[trigger]
            self.name_index(name).contains(row_id) <==> self.rows().contains_key(row_id)
                && row_has_name(self.rows()[row_id], name)
        &&& forall|entry: EntryView, row_id: RowId| #[trigger]
            self.value_index(entry).contains(row_id) <==> self.rows().contains_key(row_id)
                && row_has_entry(self.rows()[row_id], entry)
    }

    /// An empty store with the logical name `filename`. Nothing is written
    /// until the store is saved.
    pub fn new(filename: &str) -> (r: Db)
        ensures
            r.wf(),
            r.name() == filename@,
            r.row_max() == 0,
            r.rows() == Map::<RowId, Seq<EntryView>>::empty(),
    {
        let db = Db {
            name: filename.to_owned(),
            row_max: RowId(0),
            by_row_id: HashMap::new(),
            by_name: Index::new(),
            by_value: Index::new(),
        };
        assert(db.rows() =~= Map::<RowId, Seq<EntryView>>::empty());
        db
    }
}

/// Whether one of the first `count` entries of the row has the name.
pub open spec fn prefix_has_name(row: Seq<EntryView>, count: int, name: Seq<char>) -> bool {
    exists|j: int| 0 <= j < count && (#[trigger] row[j]).name == name
}

/// Whether the entry is one of the first `count` entries of the row.
pub open spec fn prefix_has_entry(row: Seq<EntryView>, count: int, entry: EntryView) -> bool {
    exists|j: int| 0 <= j < count && #[trigger] row[j] == entry
}

/// One more entry of the row brings its name and itself to what the entries
/// before it hold.
pub proof fn lemma_prefix_one_more(row: Seq<EntryView>, count: int)
    requires
        0 <= count < row.len(),
    ensures
        forall|name: Seq<char>| #[trigger]
            prefix_has_name(row, count + 1, name) <==> prefix_has_name(row, count, name)
                || row[count].name == name,
        forall|entry: EntryView| #[trigger]
            prefix_has_entry(row, count + 1, entry) <==> prefix_has_entry(row, count, entry)
                || row[count] == entry,
{
    assert forall|name: Seq<char>| #[trigger]
        prefix_has_name(row, count + 1, name) <==> prefix_has_name(row, count, name)
            || row[count].name == name by {
        if prefix_has_name(row, count, name) {
            let j = choose|j: int| 0 <= j < count && (#[trigger] row[j]).name == name;
            assert(0 <= j < count + 1 && row[j].name == name);
        }
        if row[count].name == name {
            assert(0 <= count < count + 1 && row[count].name == name);
        }
    }
    assert forall|entry: EntryView| #[trigger]
        prefix_has_entry(row, count + 1, entry) <==> prefix_has_entry(row, count, entry)
            || row[count] == entry by {
        if prefix_has_entry(row, count, entry) {
            let j = choose|j: int| 0 <= j < count && #[trigger] row[j] == entry;
            assert(0 <= j < count + 1 && row[j] == entry);
        }
        if row[count] == entry {
            assert(0 <= count < count + 1 && row[count] == entry);
        }
    }
}

/// Files the row under the name of each of the entries and under each entry.
pub(crate) fn index_row(
    by_name: &mut Index<String>,
    by_value: &mut Index<Entry>,
    row: usize,
    entries: &Vec<Entry>,
)
    requires
        old(by_name).wf(),
        old(by_value).wf(),
    ensures
        final(by_name).wf(),
        final(by_value).wf(),
        forall|name: Seq<char>, r: usize| #[trigger]
            final(by_name).has(name, r) <==> old(by_name).has(name, r) || (r == row
                && row_has_name(entries_view(entries@), name)),
        forall|entry: EntryView, r: usize| #[trigger]
            final(by_value).has(entry, r) <==> old(by_value).has(entry, r) || (r == row
                && row_has_entry(entries_view(entries@), entry)),
{
    let ghost view = entries_view(entries@);
    let mut i: usize = 0;
    while i < entries.len()
        invariant
            i <= entries.len(),
            by_name.wf(),
            by_value.wf(),
            view == entries_view(entries@),
            forall|name: Seq<char>, r: usize| #[trigger]
                by_name.has(name, r) <==> old(by_name).has(name, r) || (r == row
                    && prefix_has_name(view, i as int, name)),
            forall|entry: EntryView, r: usize| #[trigger]
                by_value.has(entry, r) <==> old(by_value).has(entry, r) || (r == row
                    && prefix_has_entry(view, i as int, entry)),
        decreases entries.len() - i,
    {
        let ghost names = *by_name;
        let ghost values = *by_value;
        by_name.insert(entries[i].name.clone(), row);
        by_value.insert(entries[i].clone(), row);
        proof {
            let here = view[i as int];
            assert(here == entries[i as int]@);
            lemma_prefix_one_more(view, i as int);
            assert forall|name: Seq<char>, r: usize| #[trigger]
                by_name.has(name, r) <==> old(by_name).has(name, r) || (r == row
                    && prefix_has_name(view, i + 1, name)) by {
                assert(by_name.has(name, r) <==> names.has(name, r) || (name == here.name && r
                    == row));
                assert(prefix_has_name(view, i + 1, name) <==> prefix_has_name(
                    view,
                    i as int,
                    name,
                ) || here.name == name);
            }
            assert forall|entry: EntryView, r: usize| #[trigger]
                by_value.has(entry, r) <==> old(by_value).has(entry, r) || (r == row
                    && prefix_has_entry(view, i + 1, entry)) by {
                assert(by_value.has(entry, r) <==> values.has(entry, r) || (entry == here && r
                    == row));
                assert(prefix_has_entry(view, i + 1, entry) <==> prefix_has_entry(
                    view,
                    i as int,
                    entry,
                ) || here == entry);
            }
        }
        i += 1;
    }
    proof {
        assert forall|name: Seq<char>| #[trigger]
            prefix_has_name(view, view.len() as int, name) <==> row_has_name(view, name) by {}
        assert forall|entry: EntryView| #[trigger]
            prefix_has_entry(view, view.len() as int, entry) <==> row_has_entry(view, entry) by {}
    }
}

/// Takes the row out from under the name of each of the entries and from
/// under each entry.
pub(crate) fn unindex_row(
    by_name: &mut Index<String>,
    by_value: &mut Index<Entry>,
    row: usize,
    entries: &Vec<Entry>,
)
    requires
        old(by_name).wf(),
        old(by_value).wf(),
    ensures
        final(by_name).wf(),
        final(by_value).wf(),
        forall|name: Seq<char>, r: usize| #[trigger]
            final(by_name).has(name, r) <==> old(by_name).has(name, r) && !(r == row
                && row_has_name(entries_view(entries@), name)),
        forall|entry: EntryView, r: usize| #[trigger]
            final(by_value).has(entry, r) <==> old(by_value).has(entry, r) && !(r == row
                && row_has_entry(entries_view(entries@), entry)),
{
    let ghost view = entries_view(entries@);
    let mut i: usize = 0;
    while i < entries.len()
        invariant
            i <= entries.len(),
            by_name.wf(),
            by_value.wf(),
            view == entries_view(entries@),
            forall|name: Seq<char>, r: usize| #[trigger]
                by_name.has(name, r) <==> old(by_name).has(name, r) && !(r == row
                    && prefix_has_name(view, i as int, name)),
            forall|entry: EntryView, r: usize| #[trigger]
                by_value.has(entry, r) <==> old(by_value).has(entry, r) && !(r == row
                    && prefix_has_entry(view, i as int, entry)),
        decreases entries.len() - i,
    {
        let ghost names = *by_name;
        let ghost values = *by_value;
        by_name.remove(&entries[i].name, row);
        by_value.remove(&entries[i], row);
        proof {
            let here = view[i as int];
            assert(here == entries[i as int]@);
            lemma_prefix_one_more(view, i as int);
            assert forall|name: Seq<char>, r: usize| #[trigger]
                by_name.has(name, r) <==> old(by_name).has(name, r) && !(r == row
                    && prefix_has_name(view, i + 1, name)) by {
                assert(by_name.has(name, r) <==> names.has(name, r) && !(name == here.name && r
                    == row));
                assert(prefix_has_name(view, i + 1, name) <==> prefix_has_name(
                    view,
                    i as int,
                    name,
                ) || here.name == name);
            }
            assert forall|entry: EntryView, r: usize| #[trigger]
                by_value.has(entry, r) <==> old(by_value).has(entry, r) && !(r == row
                    && prefix_has_entry(view, i + 1, entry)) by {
                assert(by_value.has(entry, r) <==> values.has(entry, r) && !(entry == here && r
                    == row));
                assert(prefix_has_entry(view, i + 1, entry) <==> prefix_has_entry(
                    view,
                    i as int,
                    entry,
                ) || here == entry);
            }
        }
        i += 1;
    }
    proof {
        assert forall|name: Seq<char>| #[trigger]
            prefix_has_name(view, view.len() as int, name) <==> row_has_name(view, name) by {}
        assert forall|entry: EntryView| #[trigger]
            prefix_has_entry(view, view.len() as int, entry) <==> row_has_entry(view, entry) by {}
    }
}

/// A row with one more entry holds the names and the entries it held, and
/// those of the new entry.
pub proof fn lemma_push_has(row: Seq<EntryView>, added: EntryView)
    ensures
        forall|name: Seq<char>| #[trigger]
            row_has_name(row.push(added), name) <==> row_has_name(row, name) || added.name
                == name,
        forall|entry: EntryView| #[trigger]
            row_has_entry(row.push(added), entry) <==> row_has_entry(row, entry) || added
                == entry,
{
    let longer = row.push(added);
    assert forall|name: Seq<char>| #[trigger]
        row_has_name(longer, name) <==> row_has_name(row, name) || added.name == name by {
        if row_has_name(longer, name) {
            let i = choose|i: int| 0 <= i < longer.len() && (#[trigger] longer[i]).name == name;
            if i < row.len() {
                assert(row[i].name == name);
            }
        }
        if row_has_name(row, name) {
            let i = choose|i: int| 0 <= i < row.len() && (#[trigger] row[i]).name == name;
            assert(longer[i].name == name);
        }
        if added.name == name {
            assert(longer[row.len() as int].name == name);
        }
    }
    assert forall|entry: EntryView| #[trigger]
        row_has_entry(longer, entry) <==> row_has_entry(row, entry) || added == entry by {
        if row_has_entry(longer, entry) {
            let i = choose|i: int| 0 <= i < longer.len() && #[trigger] longer[i] == entry;
            if i < row.len() {
                assert(row[i] == entry);
            }
        }
        if row_has_entry(row, entry) {
            let i = choose|i: int| 0 <= i < row.len() && #[trigger] row[i] == entry;
            assert(longer[i] == entry);
        }
        if added == entry {
            assert(longer[row.len() as int] == entry);
        }
    }
}

/// A row without the entries of a name holds the other names and the other
/// entries it held, and is no longer than it was.
pub proof fn lemma_without_name(row: Seq<EntryView>, name: Seq<char>)
    ensures
        without_name(row, name).len() <= row.len(),
        !row_has_name(without_name(row, name), name),
        forall|other: Seq<char>| #[trigger]
            row_has_name(without_name(row, name), other) <==> row_has_name(row, other) && other
                != name,
        forall|entry: EntryView| #[trigger]
            row_has_entry(without_name(row, name), entry) <==> row_has_entry(row, entry)
                && entry.name != name,
    decreases row.len(),
{
    if row.len() == 0 {
    } else {
        let shorter = row.drop_last();
        lemma_without_name(shorter, name);
        lemma_push_has(shorter, row.last());
        lemma_push_has(without_name(shorter, name), row.last());
        assert(shorter.push(row.last()) =~= row);
    }
}

/// A row that has no entry of a name is what it is without them.
pub proof fn lemma_without_absent_name(row: Seq<EntryView>, name: Seq<char>)
    requires
        !row_has_name(row, name),
    ensures
        without_name(row, name) == row,
    decreases row.len(),
{
    if row.len() > 0 {
        let shorter = row.drop_last();
        assert(row[row.len() - 1].name != name);
        assert forall|i: int| 0 <= i < shorter.len() implies (#[trigger] shorter[i]).name
            != name by {
            assert(row[i].name != name);
        }
        lemma_without_absent_name(shorter, name);
        assert(shorter.push(row.last()) =~= row);
    }
}

/// The entries of the list that do not have the name, in their order.
pub(crate) fn entries_without_name(entries: &Vec<Entry>, name: &String) -> (r: Vec<Entry>)
    ensures
        entries_view(r@) == without_name(entries_view(entries@), name@),
{
    let ghost view = entries_view(entries@);
    let mut kept: Vec<Entry> = Vec::new();
    let mut i: usize = 0;
    assert(view.take(0) =~= Seq::<EntryView>::empty());
    assert(entries_view(kept@) =~= Seq::<EntryView>::empty());
    while i < entries.len()
        invariant
            i <= entries.len(),
            view == entries_view(entries@),
            entries_view(kept@) == without_name(view.take(i as int), name@),
        decreases entries.len() - i,
    {
        let ghost before = kept@;
        proof {
            let longer = view.take(i + 1);
            assert(longer.drop_last() =~= view.take(i as int));
            assert(longer.last() == entries[i as int]@);
        }
        if !(entries[i].name == *name) {
            let copy = entries[i].clone();
            kept.push(copy);
            assert(entries_view(kept@) =~= entries_view(before).push(copy@));
        }
        i += 1;
    }
    assert(view.take(entries.len() as int) =~= view);
    kept
}

impl Db {
    /// Issues the next identifier.
    fn next(&mut self) -> (r: RowId)
        requires
            old(self).wf(),
            old(self).row_max() < usize::MAX,
        ensures
            final(self).wf(),
            r.0 == old(self).row_max() + 1,
            final(self).row_max() == r.0,
            final(self).rows() == old(self).rows(),
            final(self).name() == old(self).name(),
    {
        self.row_max = RowId(self.row_max.0 + 1);
        proof {
            assert(self.rows() =~= old(self).rows());
            assert forall|name: Seq<char>| #[trigger]
                self.name_index(name) =~= old(self).name_index(name) by {}
            assert forall|entry: EntryView| #[trigger]
                self.value_index(entry) =~= old(self).value_index(entry) by {}
        }
        self.row_max
    }

    /// Adds a row with the entries and gives it the next identifier, which is
    /// greater than every identifier issued before. A row without entries is
    /// not live: the identifier is issued and nothing is stored.
    pub fn add_row(&mut self, entries: Vec<Entry>) -> (r: RowId)
        requires
            old(self).wf(),
            old(self).row_max() < usize::MAX,
        ensures
            final(self).wf(),
            r.0 == old(self).row_max() + 1,
            final(self).row_max() == r.0,
            final(self).name() == old(self).name(),
            final(self).rows() == if entries@.len() > 0 {
                old(self).rows().insert(r, entries_view(entries@))
            } else {
                old(self).rows()
            },
    {
        let row_id = self.next();
        if entries.len() > 0 {
            let ghost before = *self;
            let ghost view = entries_view(entries@);
            index_row(&mut self.by_name, &mut self.by_value, row_id.0, &entries);
            self.by_row_id.insert(row_id.0, entries);
            proof {
                assert(!before.rows().contains_key(row_id));
                assert(self.rows() =~= before.rows().insert(row_id, view));
                assert forall|name: Seq<char>, r: RowId| #[trigger]
                    self.name_index(name).contains(r) <==> self.rows().contains_key(r)
                        && row_has_name(self.rows()[r], name) by {
                    assert(before.name_index(name).contains(r) <==> before.rows().contains_key(r)
                        && row_has_name(before.rows()[r], name));
                }
                assert forall|entry: EntryView, r: RowId| #[trigger]
                    self.value_index(entry).contains(r) <==> self.rows().contains_key(r)
                        && row_has_entry(self.rows()[r], entry) by {
                    assert(before.value_index(entry).contains(r) <==> before.rows().contains_key(
                        r,
                    ) && row_has_entry(before.rows()[r], entry));
                }
            }
        }
        row_id
    }

    /// Appends the entry to the row, which becomes live if it was not. The
    /// row may already hold an entry of that name, or the entry itself. The
    /// identifier counts as issued.
    pub fn add_row_id_entry(&mut self, row_id: RowId, entry: Entry)
        requires
            old(self).wf(),
        ensures
            final(self).wf(),
            final(self).row_max() == if old(self).row_max() < row_id.0 {
                row_id.0
            } else {
                old(self).row_max()
            },
            final(self).name() == old(self).name(),
            final(self).rows() == old(self).rows().insert(
                row_id,
                old(self).row(row_id).push(entry@),
            ),
    {
        let ghost before = *self;
        let ghost longer = before.row(row_id).push(entry@);
        let mut row = match self.by_row_id.remove(&row_id.0) {
            Some(row) => row,
            None => Vec::new(),
        };
        assert(entries_view(row@) =~= before.row(row_id));
        row.push(entry.clone());
        assert(entries_view(row@) =~= longer);
        self.by_row_id.insert(row_id.0, row);
        self.by_name.insert(entry.name.clone(), row_id.0);
        self.by_value.insert(entry, row_id.0);
        if self.row_max.0 < row_id.0 {
            self.row_max = row_id;
        }
        proof {
            lemma_push_has(before.row(row_id), entry@);
            assert(self.rows() =~= before.rows().insert(row_id, longer));
            assert forall|name: Seq<char>, r: RowId| #[trigger]
                self.name_index(name).contains(r) <==> self.rows().contains_key(r)
                    && row_has_name(self.rows()[r], name) by {
                assert(before.name_index(name).contains(r) <==> before.rows().contains_key(r)
                    && row_has_name(before.rows()[r], name));
            }
            assert forall|e: EntryView, r: RowId| #[trigger]
                self.value_index(e).contains(r) <==> self.rows().contains_key(r) && row_has_entry(
                    self.rows()[r],
                    e,
                ) by {
                assert(before.value_index(e).contains(r) <==> before.rows().contains_key(r)
                    && row_has_entry(before.rows()[r], e));
            }
        }
    }

    /// Appends the entry to the row: `add_row_id_entry` under its short name.
    pub fn add_entry(&mut self, row_id: RowId, entry: Entry)
        requires
            old(self).wf(),
        ensures
            final(self).wf(),
            final(self).row_max() == if old(self).row_max() < row_id.0 {
                row_id.0
            } else {
                old(self).row_max()
            },
            final(self).name() == old(self).name(),
            final(self).rows() == old(self).rows().insert(
                row_id,
                old(self).row(row_id).push(entry@),
            ),
    {
        self.add_row_id_entry(row_id, entry)
    }

    /// The greatest identifier issued so far; `RowId(0)` before the first.
    pub fn last_row_id(&self) -> (r: RowId)
        ensures
            r.0 == self.row_max(),
    {
        self.row_max
    }

    /// Deletes the row: its entries leave both indexes and the row is no
    /// longer live. Nothing changes where the row is not live.
    pub fn remove_by_row_id(&mut self, row_id: RowId)
        requires
            old(self).wf(),
        ensures
            final(self).wf(),
            final(self).row_max() == old(self).row_max(),
            final(self).name() == old(self).name(),
            final(self).rows() == old(self).rows().remove(row_id),
            !old(self).rows().contains_key(row_id) ==> {
                &&& final(self).rows() == old(self).rows()
                &&& forall|name: Seq<char>| #[trigger]
                    final(self).name_index(name) == old(self).name_index(name)
                &&& forall|entry: EntryView| #[trigger]
                    final(self).value_index(entry) == old(self).value_index(entry)
            },
    {
        let ghost before = *self;
        match self.by_row_id.remove(&row_id.0) {
            Some(row) => {
                assert(entries_view(row@) == before.rows()[row_id]);
                unindex_row(&mut self.by_name, &mut self.by_value, row_id.0, &row);
            },
            None => {},
        }
        proof {
            assert(self.rows() =~= before.rows().remove(row_id));
            if !before.rows().contains_key(row_id) {
                assert(self.rows() =~= before.rows());
                assert forall|name: Seq<char>| #[trigger]
                    self.name_index(name) == before.name_index(name) by {
                    assert(self.name_index(name) =~= before.name_index(name));
                }
                assert forall|entry: EntryView| #[trigger]
                    self.value_index(entry) == before.value_index(entry) by {
                    assert(self.value_index(entry) =~= before.value_index(entry));
                }
            }
            assert forall|name: Seq<char>, r: RowId| #[trigger]
                self.name_index(name).contains(r) <==> self.rows().contains_key(r)
                    && row_has_name(self.rows()[r], name) by {
                assert(before.name_index(name).contains(r) <==> before.rows().contains_key(r)
                    && row_has_name(before.rows()[r], name));
            }
            assert forall|e: EntryView, r: RowId| #[trigger]
                self.value_index(e).contains(r) <==> self.rows().contains_key(r) && row_has_entry(
                    self.rows()[r],
                    e,
                ) by {
                assert(before.value_index(e).contains(r) <==> before.rows().contains_key(r)
                    && row_has_entry(before.rows()[r], e));
            }
        }
    }

    /// Removes from the row every entry of the name. The row's entries leave
    /// both indexes, the list loses those of the name, and what is left is
    /// filed again. A row left without entries is no longer live. Nothing
    /// changes where the row is not live.
    pub fn remove_by_name(&mut self, row_id: RowId, name: &str)
        requires
            old(self).wf(),
        ensures
            final(self).wf(),
            final(self).row_max() == old(self).row_max(),
            final(self).name() == old(self).name(),
            final(self).rows() == if without_name(old(self).row(row_id), name@).len() > 0 {
                old(self).rows().insert(row_id, without_name(old(self).row(row_id), name@))
            } else {
                old(self).rows().remove(row_id)
            },
    {
        let ghost before = *self;
        let ghost kept_view = without_name(before.row(row_id), name@);
        let wanted = name.to_owned();
        match self.by_row_id.remove(&row_id.0) {
            Some(row) => {
                assert(entries_view(row@) == before.rows()[row_id]);
                unindex_row(&mut self.by_name, &mut self.by_value, row_id.0, &row);
                let kept = entries_without_name(&row, &wanted);
                if kept.len() > 0 {
                    index_row(&mut self.by_name, &mut self.by_value, row_id.0, &kept);
                    self.by_row_id.insert(row_id.0, kept);
                }
            },
            None => {},
        }
        proof {
            lemma_without_name(before.row(row_id), name@);
            if kept_view.len() > 0 {
                assert(self.rows() =~= before.rows().insert(row_id, kept_view));
            } else {
                assert(self.rows() =~= before.rows().remove(row_id));
            }
            assert forall|other: Seq<char>, r: RowId| #[trigger]
                self.name_index(other).contains(r) <==> self.rows().contains_key(r)
                    && row_has_name(self.rows()[r], other) by {
                assert(before.name_index(other).contains(r) <==> before.rows().contains_key(r)
                    && row_has_name(before.rows()[r], other));
            }
            assert forall|e: EntryView, r: RowId| #[trigger]
                self.value_index(e).contains(r) <==> self.rows().contains_key(r) && row_has_entry(
                    self.rows()[r],
                    e,
                ) by {
                assert(before.value_index(e).contains(r) <==> before.rows().contains_key(r)
                    && row_has_entry(before.rows()[r], e));
            }
        }
    }

    /// Puts the entry in the place of every entry of its name in the row:
    /// those leave the row and both indexes, then the entry is appended and
    /// filed. Where the row has no entry of that name, or is not live, the
    /// entry is appended.
    pub fn add_or_update_entry(&mut self, row_id: RowId, new_entry: Entry)
        requires
            old(self).wf(),
        ensures
            final(self).wf(),
            final(self).row_max() == if old(self).row_max() < row_id.0 {
                row_id.0
            } else {
                old(self).row_max()
            },
            final(self).name() == old(self).name(),
            final(self).rows() == old(self).rows().insert(
                row_id,
                without_name(old(self).row(row_id), new_entry@.name).push(new_entry@),
            ),
    {
        let ghost before = *self;
        let ghost kept = without_name(before.row(row_id), new_entry@.name);
        self.remove_by_name(row_id, new_entry.name.as_str());
        let ghost between = *self;
        self.add_row_id_entry(row_id, new_entry);
        proof {
            assert(between.row(row_id) =~= kept);
            assert(self.rows() =~= before.rows().insert(row_id, kept.push(new_entry@)));
        }
    }

    /// Deletes each of the rows. An identifier whose row is not live, or
    /// that comes a second time, changes nothing.
    pub fn delete_rows(&mut self, row_ids: &[RowId])
        requires
            old(self).wf(),
        ensures
            final(self).wf(),
            final(self).row_max() == old(self).row_max(),
            final(self).name() == old(self).name(),
            final(self).rows() == old(self).rows().remove_keys(row_ids@.to_set()),
    {
        let mut i: usize = 0;
        assert(row_ids@.take(0).to_set() =~= Set::<RowId>::empty());
        assert(self.rows() =~= old(self).rows().remove_keys(Set::<RowId>::empty()));
        while i < row_ids.len()
            invariant
                i <= row_ids.len(),
                self.wf(),
                self.row_max() == old(self).row_max(),
                self.name() == old(self).name(),
                self.rows() == old(self).rows().remove_keys(row_ids@.take(i as int).to_set()),
            decreases row_ids.len() - i,
        {
            let ghost done = row_ids@.take(i as int).to_set();
            self.remove_by_row_id(row_ids[i]);
            proof {
                let more = row_ids@.take(i + 1).to_set();
                lemma_take_one_more(row_ids@, i as int);
                assert(self.rows() =~= old(self).rows().remove_keys(more));
            }
            i += 1;
        }
        assert(row_ids@.take(row_ids.len() as int) =~= row_ids@);
    }

    /// Removes the entries of the name from every row. A row left without
    /// entries is no longer live; a row with other entries keeps them.
    pub fn delete_entry_all(&mut self, name: &str)
        requires
            old(self).wf(),
        ensures
            final(self).wf(),
            final(self).row_max() == old(self).row_max(),
            final(self).name() == old(self).name(),
            final(self).rows() == rows_without_name(old(self).rows(), name@),
    {
        let wanted = name.to_owned();
        let ids = self.by_name.row_ids(&wanted);
        let ghost before = *self;
        let mut i: usize = 0;
        assert(ids@.take(0).to_set() =~= Set::<RowId>::empty());
        assert(self.rows() =~= rows_without_name_among(
            before.rows(),
            name@,
            Set::<RowId>::empty(),
        ));
        while i < ids.len()
            invariant
                i <= ids.len(),
                before.wf(),
                self.wf(),
                self.row_max() == before.row_max(),
                self.name() == before.name(),
                ids@.no_duplicates(),
                forall|row_id: RowId|
                    ids@.contains(row_id) <==> before.name_index(name@).contains(row_id),
                self.rows() == rows_without_name_among(
                    before.rows(),
                    name@,
                    ids@.take(i as int).to_set(),
                ),
            decreases ids.len() - i,
        {
            let ghost done = ids@.take(i as int).to_set();
            let ghost here = ids[i as int];
            proof {
                assert(ids@.contains(here));
                assert(before.name_index(name@).contains(here));
                assert(!done.contains(here)) by {
                    let shorter = ids@.take(i as int);
                    if shorter.contains(here) {
                        let j = choose|j: int| 0 <= j < shorter.len() && shorter[j] == here;
                        assert(ids@[j] == ids@[i as int]);
                    }
                }
                assert(self.row(here) == before.rows()[here]);
            }
            self.remove_by_name(ids[i], name);
            proof {
                let more = ids@.take(i + 1).to_set();
                lemma_take_one_more(ids@, i as int);
                assert(self.rows() =~= rows_without_name_among(before.rows(), name@, more));
            }
            i += 1;
        }
        proof {
            assert(ids@.take(ids.len() as int) =~= ids@);
            assert forall|r: RowId| before.rows().contains_key(r) && !ids@.to_set().contains(
                r,
            ) implies without_name(before.rows()[r], name@) == before.rows()[r] by {
                assert(!ids@.contains(r));
                assert(!before.name_index(name@).contains(r));
                lemma_without_absent_name(before.rows()[r], name@);
            }
            assert(self.rows() =~= rows_without_name(before.rows(), name@));
        }
    }
}

/// The first `i + 1` items of a sequence are, as a set, its first `i` items
/// and the item at `i`.
pub proof fn lemma_take_one_more<T>(items: Seq<T>, i: int)
    requires
        0 <= i < items.len(),
    ensures
        items.take(i + 1).to_set() == items.take(i).to_set().insert(items[i]),
{
    let shorter = items.take(i);
    let longer = items.take(i + 1);
    assert forall|x: T| longer.to_set().contains(x) <==> shorter.to_set().insert(
        items[i],
    ).contains(x) by {
        if longer.contains(x) {
            let j = choose|j: int| 0 <= j < longer.len() && longer[j] == x;
            if j < i {
                assert(shorter[j] == x);
            }
        }
        if shorter.contains(x) {
            let j = choose|j: int| 0 <= j < shorter.len() && shorter[j] == x;
            assert(longer[j] == x);
        }
        if x == items[i] {
            assert(longer[i] == x);
        }
    }
    assert(longer.to_set() =~= shorter.to_set().insert(items[i]));
}

/// The rows after the entries of the name have left every row: a row stays
/// live where an entry is left.
pub open spec fn rows_without_name(
    rows: Map<RowId, Seq<EntryView>>,
    name: Seq<char>,
) -> Map<RowId, Seq<EntryView>> {
    Map::new(
        |row_id: RowId| rows.contains_key(row_id) && without_name(rows[row_id], name).len() > 0,
        |row_id: RowId| without_name(rows[row_id], name),
    )
}

/// The rows after the entries of the name have left each row of `among`:
/// such a row stays live where an entry is left.
pub open spec fn rows_without_name_among(
    rows: Map<RowId, Seq<EntryView>>,
    name: Seq<char>,
    among: Set<RowId>,
) -> Map<RowId, Seq<EntryView>> {
    Map::new(
        |row_id: RowId|
            rows.contains_key(row_id) && (among.contains(row_id) ==> without_name(
                rows[row_id],
                name,
            ).len() > 0),
        |row_id: RowId|
            if among.contains(row_id) {
                without_name(rows[row_id], name)
            } else {
                rows[row_id]
            },
    )
}

} // verus!
