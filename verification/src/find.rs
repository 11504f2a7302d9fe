//! Finding rows: by name and by entry through the indexes, by identifier
//! through the rows.

use crate::entry::{
    entries_view, first_named, row_has_entry, row_has_name, row_satisfies, Entry, EntryView,
    Predicate, PredicateType, PredicateView, RowId,
};
use crate::store::Db;
use crate::value::{Data, DataView};
use vstd::prelude::*;
use vstd::std_specs::iter::IteratorSpec;

verus! {

broadcast use vstd::std_specs::hash::group_hash_axioms;

impl Db {
    /// The rows that hold an entry of the name, each once, in no particular
    /// order.
    pub fn find_row_ids_by_name(&self, name: &str) -> (r: Vec<RowId>)
        requires
            self.wf(),
        ensures
            r@.no_duplicates(),
            r@.to_set() == self.name_index(name@),
            forall|row_id: RowId|
                r@.contains(row_id) <==> self.rows().contains_key(row_id) && row_has_name(
                    self.rows()[row_id],
                    name@,
                ),
    {
        let wanted = name.to_owned();
        let found = self.by_name.row_ids(&wanted);
        proof {
            assert(found@.to_set() =~= self.name_index(name@));
            assert forall|row_id: RowId|
                found@.contains(row_id) <==> self.rows().contains_key(row_id) && row_has_name(
                    self.rows()[row_id],
                    name@,
                ) by {
                assert(found@.contains(row_id) <==> self.name_index(name@).contains(row_id));
            }
        }
        found
    }

    /// The rows that hold the entry of this name and value, each once, in no
    /// particular order.
    pub fn find_row_ids_by_value(&self, name: &str, value: &Data) -> (r: Vec<RowId>)
        requires
            self.wf(),
        ensures
            r@.no_duplicates(),
            r@.to_set() == self.value_index(EntryView { name: name@, value: value@ }),
            forall|row_id: RowId|
                r@.contains(row_id) <==> self.rows().contains_key(row_id) && row_has_entry(
                    self.rows()[row_id],
                    EntryView { name: name@, value: value@ },
                ),
    {
        let entry = Entry { name: name.to_owned(), value: value.clone() };
        let found = self.by_value.row_ids(&entry);
        proof {
            assert(found@.to_set() =~= self.value_index(entry@));
            assert forall|row_id: RowId|
                found@.contains(row_id) <==> self.rows().contains_key(row_id) && row_has_entry(
                    self.rows()[row_id],
                    entry@,
                ) by {
                assert(found@.contains(row_id) <==> self.value_index(entry@).contains(row_id));
            }
        }
        found
    }

    /// One of the rows that hold an entry of the name; `None` where no row
    /// holds one.
    pub fn find_first_row_id_by_name(&self, name: &str) -> (r: Option<RowId>)
        requires
            self.wf(),
        ensures
            r matches Some(row_id) ==> self.name_index(name@).contains(row_id),
            r is None ==> self.name_index(name@) == Set::<RowId>::empty(),
    {
        let wanted = name.to_owned();
        let found = self.by_name.first_row_id(&wanted);
        proof {
            if found is None {
                assert(self.name_index(name@) =~= Set::<RowId>::empty());
            }
        }
        found
    }

    /// One of the rows that hold the entry of this name and value; `None`
    /// where no row holds it.
    pub fn find_first_row_id_by_value(&self, name: &str, value: &Data) -> (r: Option<RowId>)
        requires
            self.wf(),
        ensures
            r matches Some(row_id) ==> self.value_index(
                EntryView { name: name@, value: value@ },
            ).contains(row_id),
            r is None ==> self.value_index(EntryView { name: name@, value: value@ })
                == Set::<RowId>::empty(),
    {
        let entry = Entry { name: name.to_owned(), value: value.clone() };
        let found = self.by_value.first_row_id(&entry);
        proof {
            if found is None {
                assert(self.value_index(entry@) =~= Set::<RowId>::empty());
            }
        }
        found
    }

    /// Whether the row is live.
    pub fn has_row(&self, row_id: RowId) -> (r: bool)
        ensures
            r == self.rows().contains_key(row_id),
    {
        self.by_row_id.get(&row_id.0).is_some()
    }

    /// The first entry of the name in a live row; `None` where the row has
    /// no entry of the name.
    pub fn find_first_entry_by_name(&self, row_id: RowId, name: &str) -> (r: Option<Entry>)
        requires
            self.rows().contains_key(row_id),
        ensures
            r is Some <==> row_has_name(self.rows()[row_id], name@),
            r matches Some(entry) ==> entry@ == self.rows()[row_id][first_named(
                self.rows()[row_id],
                name@,
            )],
    {
        match self.by_row_id.get(&row_id.0) {
            Some(row) => Entry::get_first_by_name(row.as_slice(), name),
            None => None,
        }
    }

    /// Whether some entry of a live row meets the predicate.
    pub fn match_row(&self, row_id: RowId, predicate: &Predicate) -> (r: bool)
        requires
            self.rows().contains_key(row_id),
        ensures
            r == row_satisfies(self.rows()[row_id], predicate@),
    {
        match self.by_row_id.get(&row_id.0) {
            Some(row) => Entry::compare_all(row.as_slice(), predicate),
            None => false,
        }
    }

    /// Every live row, each once, in no particular order.
    pub fn find_all_row_ids(&self) -> (r: Vec<RowId>)
        ensures
            r@.no_duplicates(),
            r@.to_set() == self.rows().dom(),
            r@.len() == self.rows().dom().len(),
    {
        let mut found: Vec<RowId> = Vec::new();
        for key in it: self.by_row_id.keys()
            invariant
                found@.len() == it.index(),
                forall|j: int| 0 <= j < found@.len() ==> found@[j].0 == *it.seq()[j],
                it.seq() == self.by_row_id.keys().remaining(),
        {
            found.push(RowId(*key));
        }
        proof {
            let keys = self.by_row_id.keys().remaining().unref();
            assert(found@.len() == keys.len());
            assert forall|i: int, j: int|
                0 <= i < found@.len() && 0 <= j < found@.len() && i != j implies found@[i]
                != found@[j] by {
                assert(keys[i] != keys[j]);
            }
            assert forall|row_id: RowId|
                found@.to_set().contains(row_id) <==> self.rows().dom().contains(row_id) by {
                if found@.contains(row_id) {
                    let j = choose|j: int| 0 <= j < found@.len() && found@[j] == row_id;
                    assert(keys[j] == row_id.0);
                    assert(keys.to_set().contains(row_id.0));
                }
                if self.rows().dom().contains(row_id) {
                    assert(keys.to_set().contains(row_id.0));
                    let j = choose|j: int| 0 <= j < keys.len() && keys[j] == row_id.0;
                    assert(found@[j] == row_id);
                }
            }
            assert(found@.to_set() =~= self.rows().dom());
            found@.unique_seq_to_set();
        }
        found
    }
}

/// Of the given rows, in their order, those that are live and meet the
/// predicate.
pub open spec fn matching(
    rows: Map<RowId, Seq<EntryView>>,
    row_ids: Seq<RowId>,
    predicate: PredicateView,
) -> Seq<RowId>
    decreases row_ids.len(),
{
    if row_ids.len() == 0 {
        Seq::empty()
    } else if rows.contains_key(row_ids.last()) && row_satisfies(
        rows[row_ids.last()],
        predicate,
    ) {
        matching(rows, row_ids.drop_last(), predicate).push(row_ids.last())
    } else {
        matching(rows, row_ids.drop_last(), predicate)
    }
}

/// The rows that `matching` keeps are those of the given rows that are live
/// and meet the predicate; no row comes twice unless it was given twice.
pub proof fn lemma_matching(
    rows: Map<RowId, Seq<EntryView>>,
    row_ids: Seq<RowId>,
    predicate: PredicateView,
)
    ensures
        matching(rows, row_ids, predicate).len() <= row_ids.len(),
        forall|row_id: RowId| #[trigger]
            matching(rows, row_ids, predicate).contains(row_id) <==> row_ids.contains(row_id)
                && rows.contains_key(row_id) && row_satisfies(rows[row_id], predicate),
        row_ids.no_duplicates() ==> matching(rows, row_ids, predicate).no_duplicates(),
    decreases row_ids.len(),
{
    let kept = matching(rows, row_ids, predicate);
    if row_ids.len() > 0 {
        let shorter = row_ids.drop_last();
        let last = row_ids.last();
        let before = matching(rows, shorter, predicate);
        lemma_matching(rows, shorter, predicate);
        assert(shorter.push(last) =~= row_ids);
        assert forall|row_id: RowId| #[trigger]
            kept.contains(row_id) <==> row_ids.contains(row_id) && rows.contains_key(row_id)
                && row_satisfies(rows[row_id], predicate) by {
            assert(before.contains(row_id) <==> shorter.contains(row_id) && rows.contains_key(
                row_id,
            ) && row_satisfies(rows[row_id], predicate));
            if kept.contains(row_id) {
                let j = choose|j: int| 0 <= j < kept.len() && kept[j] == row_id;
                if j < before.len() {
                    assert(before[j] == row_id);
                    assert(before.contains(row_id));
                    let k = choose|k: int| 0 <= k < shorter.len() && shorter[k] == row_id;
                    assert(row_ids[k] == row_id);
                } else {
                    assert(row_ids[row_ids.len() - 1] == row_id);
                }
            }
            if row_ids.contains(row_id) && rows.contains_key(row_id) && row_satisfies(
                rows[row_id],
                predicate,
            ) {
                let k = choose|k: int| 0 <= k < row_ids.len() && row_ids[k] == row_id;
                if k < shorter.len() {
                    assert(shorter[k] == row_id);
                    assert(before.contains(row_id));
                    let j = choose|j: int| 0 <= j < before.len() && before[j] == row_id;
                    assert(kept[j] == row_id);
                } else {
                    assert(kept[kept.len() - 1] == row_id);
                }
            }
        }
        if row_ids.no_duplicates() {
            assert(shorter.no_duplicates());
            if kept.len() > before.len() {
                assert(!before.contains(last)) by {
                    if shorter.contains(last) {
                        let k = choose|k: int| 0 <= k < shorter.len() && shorter[k] == last;
                        assert(row_ids[k] == row_ids[row_ids.len() - 1]);
                    }
                }
                assert forall|i: int, j: int|
                    0 <= i < kept.len() && 0 <= j < kept.len() && i != j implies kept[i]
                    != kept[j] by {
                    if i < before.len() {
                        assert(before.contains(kept[i]));
                    }
                    if j < before.len() {
                        assert(before.contains(kept[j]));
                    }
                }
            }
        }
    }
}

impl Db {
    /// Of the given rows, in their order, those that are live and meet the
    /// predicate.
    pub fn filter_rows(&self, row_ids: &Vec<RowId>, predicate: &Predicate) -> (r: Vec<RowId>)
        ensures
            r@ == matching(self.rows(), row_ids@, predicate@),
    {
        let mut kept: Vec<RowId> = Vec::new();
        let mut i: usize = 0;
        assert(row_ids@.take(0) =~= Seq::<RowId>::empty());
        while i < row_ids.len()
            invariant
                i <= row_ids.len(),
                kept@ == matching(self.rows(), row_ids@.take(i as int), predicate@),
            decreases row_ids.len() - i,
        {
            proof {
                let longer = row_ids@.take(i + 1);
                assert(longer.drop_last() =~= row_ids@.take(i as int));
                assert(longer.last() == row_ids[i as int]);
            }
            let row_id = row_ids[i];
            if self.has_row(row_id) && self.match_row(row_id, predicate) {
                kept.push(row_id);
            }
            i += 1;
        }
        assert(row_ids@.take(row_ids.len() as int) =~= row_ids@);
        kept
    }

    /// The rows that meet the predicate, each once, in no particular order.
    /// A predicate of kind `Equal` is answered from the index by value; any
    /// other kind by going through every live row.
    pub fn find_by_predicate(&self, predicate: &Predicate) -> (r: Vec<RowId>)
        requires
            self.wf(),
        ensures
            r@.no_duplicates(),
            forall|row_id: RowId|
                r@.contains(row_id) <==> self.rows().contains_key(row_id) && row_satisfies(
                    self.rows()[row_id],
                    predicate@,
                ),
    {
        if predicate.predicate_type == PredicateType::Equal {
            let found = self.by_value.row_ids(&predicate.entry);
            proof {
                assert forall|row_id: RowId|
                    found@.contains(row_id) <==> self.rows().contains_key(row_id)
                        && row_satisfies(self.rows()[row_id], predicate@) by {
                    assert(found@.contains(row_id) <==> self.value_index(
                        predicate.entry@,
                    ).contains(row_id));
                    if self.rows().contains_key(row_id) {
                        let row = self.rows()[row_id];
                        if row_has_entry(row, predicate.entry@) {
                            let i = choose|i: int|
                                0 <= i < row.len() && #[trigger] row[i] == predicate.entry@;
                            assert(row[i].matches(predicate@));
                        }
                        if row_satisfies(row, predicate@) {
                            let i = choose|i: int|
                                0 <= i < row.len() && (#[trigger] row[i]).matches(predicate@);
                            assert(row[i] == predicate.entry@);
                        }
                    }
                }
            }
            found
        } else {
            let all = self.find_all_row_ids();
            let found = self.filter_rows(&all, predicate);
            proof {
                lemma_matching(self.rows(), all@, predicate@);
                assert forall|row_id: RowId|
                    found@.contains(row_id) <==> self.rows().contains_key(row_id)
                        && row_satisfies(self.rows()[row_id], predicate@) by {
                    assert(all@.contains(row_id) <==> all@.to_set().contains(row_id));
                }
            }
            found
        }
    }
}

/// The entries of the row that have the name, in their order.
pub open spec fn with_name(row: Seq<EntryView>, name: Seq<char>) -> Seq<EntryView>
    decreases row.len(),
{
    if row.len() == 0 {
        Seq::empty()
    } else if row.last().name == name {
        with_name(row.drop_last(), name).push(row.last())
    } else {
        with_name(row.drop_last(), name)
    }
}

/// The entries of the row that have one of the names: first those of the
/// first name in the row's order, then those of the second, and so on. A name
/// that comes twice brings its entries twice.
pub open spec fn selected(row: Seq<EntryView>, names: Seq<Seq<char>>) -> Seq<EntryView>
    decreases names.len(),
{
    if names.len() == 0 {
        Seq::empty()
    } else {
        selected(row, names.drop_last()) + with_name(row, names.last())
    }
}

/// What a list of names is: the characters of each, in order.
pub open spec fn names_view(names: Seq<&str>) -> Seq<Seq<char>> {
    names.map_values(|name: &str| name@)
}

/// The value of the first entry of the name in a row that has one.
pub open spec fn first_value(row: Seq<EntryView>, name: Seq<char>) -> DataView {
    row[first_named(row, name)].value
}

/// Appends to `out` the entries of the list that have the name, in their
/// order.
fn append_with_name(entries: &Vec<Entry>, name: &String, out: &mut Vec<Entry>)
    ensures
        entries_view(final(out)@) == entries_view(old(out)@) + with_name(
            entries_view(entries@),
            name@,
        ),
{
    let ghost view = entries_view(entries@);
    let ghost start = entries_view(out@);
    let mut i: usize = 0;
    assert(view.take(0) =~= Seq::<EntryView>::empty());
    assert(entries_view(out@) =~= start + with_name(view.take(0), name@));
    while i < entries.len()
        invariant
            i <= entries.len(),
            view == entries_view(entries@),
            entries_view(out@) == start + with_name(view.take(i as int), name@),
        decreases entries.len() - i,
    {
        let ghost before = out@;
        proof {
            let longer = view.take(i + 1);
            assert(longer.drop_last() =~= view.take(i as int));
            assert(longer.last() == entries[i as int]@);
        }
        if entries[i].name == *name {
            let copy = entries[i].clone();
            out.push(copy);
            assert(entries_view(out@) =~= entries_view(before).push(copy@));
            assert(entries_view(out@) =~= start + with_name(view.take(i + 1), name@));
        }
        i += 1;
    }
    assert(view.take(entries.len() as int) =~= view);
}

/// The entries of the list that have one of the names, name by name.
fn select_entries(entries: &Vec<Entry>, names: &[&str]) -> (r: Vec<Entry>)
    ensures
        entries_view(r@) == selected(entries_view(entries@), names_view(names@)),
{
    let ghost view = entries_view(entries@);
    let ghost wanted = names_view(names@);
    let mut ordered: Vec<Entry> = Vec::new();
    let mut j: usize = 0;
    assert(wanted.take(0) =~= Seq::<Seq<char>>::empty());
    assert(entries_view(ordered@) =~= Seq::<EntryView>::empty());
    while j < names.len()
        invariant
            j <= names.len(),
            view == entries_view(entries@),
            wanted == names_view(names@),
            entries_view(ordered@) == selected(view, wanted.take(j as int)),
        decreases names.len() - j,
    {
        proof {
            let longer = wanted.take(j + 1);
            assert(longer.drop_last() =~= wanted.take(j as int));
            assert(longer.last() == names[j as int]@);
        }
        let name = names[j].to_owned();
        append_with_name(entries, &name, &mut ordered);
        j += 1;
    }
    assert(wanted.take(names.len() as int) =~= wanted);
    ordered
}

/// A copy of the list of entries.
pub(crate) fn clone_entries(entries: &Vec<Entry>) -> (r: Vec<Entry>)
    ensures
        entries_view(r@) == entries_view(entries@),
{
    let mut copy: Vec<Entry> = Vec::new();
    let mut i: usize = 0;
    while i < entries.len()
        invariant
            i <= entries.len(),
            entries_view(copy@) == entries_view(entries@).take(i as int),
        decreases entries.len() - i,
    {
        let ghost before = copy@;
        let entry = entries[i].clone();
        copy.push(entry);
        assert(entries_view(copy@) =~= entries_view(before).push(entry@));
        assert(entries_view(copy@) =~= entries_view(entries@).take(i + 1));
        i += 1;
    }
    assert(entries_view(entries@).take(entries.len() as int) =~= entries_view(entries@));
    copy
}

impl Db {
    /// For each of the rows, its entries that have one of the names, put in
    /// the order of the names: first the entries of the first name, then
    /// those of the second, and so on. A row that is not live, or has no
    /// entry of any of the names, gives an empty list.
    pub fn entries_from_row_ids(&self, row_ids: &[RowId], names: &[&str]) -> (r: Vec<Vec<Entry>>)
        ensures
            r@.len() == row_ids@.len(),
            forall|i: int|
                0 <= i < r@.len() ==> entries_view((#[trigger] r@[i])@) == selected(
                    self.row(row_ids@[i]),
                    names_view(names@),
                ),
    {
        let mut result: Vec<Vec<Entry>> = Vec::new();
        let mut i: usize = 0;
        while i < row_ids.len()
            invariant
                i <= row_ids.len(),
                result@.len() == i,
                forall|k: int|
                    0 <= k < i ==> entries_view((#[trigger] result@[k])@) == selected(
                        self.row(row_ids@[k]),
                        names_view(names@),
                    ),
            decreases row_ids.len() - i,
        {
            let ordered = match self.by_row_id.get(&row_ids[i].0) {
                Some(row) => {
                    assert(entries_view(row@) == self.row(row_ids@[i as int]));
                    select_entries(row, names)
                },
                None => {
                    let none: Vec<Entry> = Vec::new();
                    assert(entries_view(none@) =~= self.row(row_ids@[i as int]));
                    select_entries(&none, names)
                },
            };
            result.push(ordered);
            i += 1;
        }
        result
    }

    /// For each of the rows, a copy of its entries in their order; an empty
    /// list for a row that is not live.
    pub fn debug_rows(&self, row_ids: &[RowId]) -> (r: Vec<Vec<Entry>>)
        ensures
            r@.len() == row_ids@.len(),
            forall|i: int|
                0 <= i < r@.len() ==> entries_view((#[trigger] r@[i])@) == self.row(row_ids@[i]),
    {
        let mut result: Vec<Vec<Entry>> = Vec::new();
        let mut i: usize = 0;
        while i < row_ids.len()
            invariant
                i <= row_ids.len(),
                result@.len() == i,
                forall|k: int|
                    0 <= k < i ==> entries_view((#[trigger] result@[k])@) == self.row(
                        row_ids@[k],
                    ),
            decreases row_ids.len() - i,
        {
            let entries = match self.by_row_id.get(&row_ids[i].0) {
                Some(row) => clone_entries(row),
                None => Vec::new(),
            };
            assert(entries_view(entries@) =~= self.row(row_ids@[i as int]));
            result.push(entries);
            i += 1;
        }
        result
    }

    /// The integer of the first entry of the name in one of the rows that
    /// hold an entry of the name. `None` where no row holds one, or where
    /// that entry of the row taken is not an integer.
    pub fn find_first_i32(&self, name: &str) -> (r: Option<i32>)
        requires
            self.wf(),
        ensures
            r matches Some(number) ==> exists|row_id: RowId| #[trigger]
                self.name_index(name@).contains(row_id) && first_value(
                    self.rows()[row_id],
                    name@,
                ) == DataView::Integer(number as int),
            r is None ==> self.name_index(name@) == Set::<RowId>::empty() || exists|
                row_id: RowId,
            | #[trigger]
                self.name_index(name@).contains(row_id) && !(first_value(
                    self.rows()[row_id],
                    name@,
                ) is Integer),
    {
        match self.find_first_row_id_by_name(name) {
            Some(row_id) => match self.find_first_entry_by_name(row_id, name) {
                Some(entry) => match entry.value {
                    Data::DbI32(number) => Some(number),
                    _ => None,
                },
                None => None,
            },
            None => None,
        }
    }

    /// The text of the first entry of the name in one of the rows that hold
    /// an entry of the name. `None` where no row holds one, or where that
    /// entry of the row taken is not a text.
    pub fn find_first_string(&self, name: &str) -> (r: Option<String>)
        requires
            self.wf(),
        ensures
            r matches Some(text) ==> exists|row_id: RowId| #[trigger]
                self.name_index(name@).contains(row_id) && first_value(
                    self.rows()[row_id],
                    name@,
                ) == DataView::Text(text@),
            r is None ==> self.name_index(name@) == Set::<RowId>::empty() || exists|
                row_id: RowId,
            | #[trigger]
                self.name_index(name@).contains(row_id) && !(first_value(
                    self.rows()[row_id],
                    name@,
                ) is Text),
    {
        match self.find_first_row_id_by_name(name) {
            Some(row_id) => match self.find_first_entry_by_name(row_id, name) {
                Some(entry) => match entry.value {
                    Data::DbString(text) => Some(text),
                    _ => None,
                },
                None => None,
            },
            None => None,
        }
    }
}

} // verus!
