//! Rows are lists of entries; predicates compare entries.

use crate::value::{Data, DataView};
use vstd::prelude::*;
use vstd::std_specs::cmp::PartialEqSpecImpl;

verus! {

/// The identifier of a row. Identifiers are issued in increasing order and
/// never issued twice.
#[derive(Clone, Copy, Debug, PartialEq, Eq, Structural, PartialOrd, Ord, Hash)]
pub struct RowId(pub usize);

/// A named value: the unit of data in a row.
#[derive(Debug, Hash)]
pub struct Entry {
    pub name: String,
    pub value: Data,
}

/// What an entry is: its name and what its value is.
pub struct EntryView {
    pub name: Seq<char>,
    pub value: DataView,
}

impl View for Entry {
    type V = EntryView;

    open spec fn view(&self) -> EntryView {
        EntryView { name: self.name@, value: self.value@ }
    }
}

impl PartialEq for Entry {
    /// Two entries are equal where their names and their values are.
    fn eq(&self, other: &Entry) -> (r: bool) {
        self.same(other)
    }
}

impl PartialEqSpecImpl for Entry {
    open spec fn obeys_eq_spec() -> bool {
        true
    }

    open spec fn eq_spec(&self, other: &Entry) -> bool {
        self@ == other@
    }
}

impl Eq for Entry {

}

impl Clone for Entry {
    fn clone(&self) -> (r: Entry)
        ensures
            r@ == self@,
    {
        Entry { name: self.name.clone(), value: self.value.clone() }
    }
}

/// What a list of entries is: what each entry is, in order.
pub open spec fn entries_view(entries: Seq<Entry>) -> Seq<EntryView> {
    entries.map_values(|entry: Entry| entry@)
}

/// How a predicate compares an entry with its own.
#[derive(Clone, Copy, Debug, PartialEq, Eq, Structural)]
pub enum PredicateType {
    /// Same name and same value.
    Equal,
    /// Same name, and the entry's text begins with the predicate's.
    StartsWith,
    /// Same name, and the entry's text holds the predicate's.
    Contains,
    /// Same name, whatever the value.
    Any,
}

/// A comparison against the entries of one name.
#[derive(Debug)]
pub struct Predicate {
    pub predicate_type: PredicateType,
    pub entry: Entry,
}

/// What a predicate is: its kind and what its entry is.
pub struct PredicateView {
    pub kind: PredicateType,
    pub entry: EntryView,
}

impl View for Predicate {
    type V = PredicateView;

    open spec fn view(&self) -> PredicateView {
        PredicateView { kind: self.predicate_type, entry: self.entry@ }
    }
}

/// What a list of predicates is: what each predicate is, in order.
pub open spec fn predicates_view(predicates: Seq<Predicate>) -> Seq<PredicateView> {
    predicates.map_values(|predicate: Predicate| predicate@)
}

impl EntryView {
    /// Whether the entry meets the predicate.
    pub open spec fn matches(self, predicate: PredicateView) -> bool {
        self.name == predicate.entry.name && match predicate.kind {
            PredicateType::Any => true,
            PredicateType::Equal => self.value == predicate.entry.value,
            PredicateType::StartsWith => self.value.starts_with(predicate.entry.value),
            PredicateType::Contains => self.value.contains(predicate.entry.value),
        }
    }
}

/// Whether some entry of the row meets the predicate.
pub open spec fn row_satisfies(row: Seq<EntryView>, predicate: PredicateView) -> bool {
    exists|i: int| 0 <= i < row.len() && (#[trigger] row[i]).matches(predicate)
}

/// Whether the row meets every one of the predicates.
pub open spec fn row_satisfies_all(row: Seq<EntryView>, predicates: Seq<PredicateView>) -> bool {
    forall|k: int| 0 <= k < predicates.len() ==> row_satisfies(row, #[trigger] predicates[k])
}

/// Whether some entry of the row has the name.
pub open spec fn row_has_name(row: Seq<EntryView>, name: Seq<char>) -> bool {
    exists|i: int| 0 <= i < row.len() && (#[trigger] row[i]).name == name
}

/// Whether the entry stands in the row, name and value.
pub open spec fn row_has_entry(row: Seq<EntryView>, entry: EntryView) -> bool {
    exists|i: int| 0 <= i < row.len() && #[trigger] row[i] == entry
}

/// The position of the first entry of the row with the name, or the row's
/// length where there is none.
pub open spec fn first_named(row: Seq<EntryView>, name: Seq<char>) -> int
    decreases row.len(),
{
    if row.len() == 0 {
        0
    } else if row[0].name == name {
        0
    } else {
        1 + first_named(row.drop_first(), name)
    }
}

impl Entry {
    /// Whether the two entries have the same name and the same value.
    pub fn same(&self, other: &Entry) -> (r: bool)
        ensures
            r == (self@ == other@),
    {
        self.name == other.name && self.value.same(&other.value)
    }

    /// An entry whose value is the text `value`.
    pub fn new_string(name: &str, value: &str) -> (r: Entry)
        ensures
            r@ == (EntryView { name: name@, value: DataView::Text(value@) }),
    {
        Entry { name: name.to_owned(), value: Data::DbString(value.to_owned()) }
    }

    /// An entry whose value is the integer `value`.
    pub fn new_i32(name: &str, value: i32) -> (r: Entry)
        ensures
            r@ == (EntryView { name: name@, value: DataView::Integer(value as int) }),
    {
        Entry { name: name.to_owned(), value: Data::DbI32(value) }
    }

    /// Whether this entry meets the predicate: the names are equal, and the
    /// values stand in the relation of the predicate's kind.
    pub fn compare(&self, predicate: &Predicate) -> (r: bool)
        ensures
            r == self@.matches(predicate@),
    {
        match predicate.predicate_type {
            PredicateType::Any => predicate.entry.name == self.name,
            PredicateType::Equal => {
                predicate.entry.name == self.name && predicate.entry.value == self.value
            },
            PredicateType::StartsWith => {
                self.name == predicate.entry.name && self.value.starts_with(&predicate.entry.value)
            },
            PredicateType::Contains => {
                self.name == predicate.entry.name && self.value.contains(&predicate.entry.value)
            },
        }
    }

    /// Whether some entry of the list meets the predicate.
    pub fn compare_all(entries: &[Entry], predicate: &Predicate) -> (r: bool)
        ensures
            r == row_satisfies(entries_view(entries@), predicate@),
    {
        let mut i: usize = 0;
        while i < entries.len()
            invariant
                i <= entries.len(),
                forall|j: int| 0 <= j < i ==> !(#[trigger] entries_view(entries@)[j]).matches(predicate@),
            decreases entries.len() - i,
        {
            if entries[i].compare(predicate) {
                assert(entries_view(entries@)[i as int].matches(predicate@));
                return true;
            }
            i += 1;
        }
        false
    }

    /// Whether some entry of the list has the name.
    pub fn check_by_name(entries: &[Entry], name: &str) -> (r: bool)
        ensures
            r == row_has_name(entries_view(entries@), name@),
    {
        let wanted = name.to_owned();
        let mut i: usize = 0;
        while i < entries.len()
            invariant
                i <= entries.len(),
                wanted@ == name@,
                forall|j: int| 0 <= j < i ==> (#[trigger] entries_view(entries@)[j]).name != name@,
            decreases entries.len() - i,
        {
            if entries[i].name == wanted {
                assert(entries_view(entries@)[i as int].name == name@);
                return true;
            }
            i += 1;
        }
        false
    }

    /// Whether some entry of the list has the name and the value.
    pub fn check_by_value(entries: &[Entry], name: &str, value: &Data) -> (r: bool)
        ensures
            r == row_has_entry(entries_view(entries@), EntryView { name: name@, value: value@ }),
    {
        let wanted = name.to_owned();
        let mut i: usize = 0;
        while i < entries.len()
            invariant
                i <= entries.len(),
                wanted@ == name@,
                forall|j: int|
                    0 <= j < i ==> #[trigger] entries_view(entries@)[j] != (EntryView {
                        name: name@,
                        value: value@,
                    }),
            decreases entries.len() - i,
        {
            if entries[i].name == wanted && entries[i].value == *value {
                assert(entries_view(entries@)[i as int] == (EntryView {
                    name: name@,
                    value: value@,
                }));
                return true;
            }
            i += 1;
        }
        false
    }

    /// The first entry of the list that has the name, to be changed in place,
    /// or `None` where no entry has it.
    pub fn get_first_by_name_mut<'a>(entries: &'a mut Vec<Entry>, name: &str) -> (r: Option<
        &'a mut Entry,
    >)
        ensures
            r is Some <==> row_has_name(entries_view(old(entries)@), name@),
            r matches Some(entry) ==> {
                let at = first_named(entries_view(old(entries)@), name@);
                &&& *entry == old(entries)@[at]
                &&& final(entries)@ == old(entries)@.update(at, *final(entry))
            },
            r is None ==> final(entries)@ == old(entries)@,
    {
        let wanted = name.to_owned();
        let mut i: usize = 0;
        while i < entries.len()
            invariant
                i <= entries.len(),
                wanted@ == name@,
                entries@ == old(entries)@,
                forall|j: int| 0 <= j < i ==> (#[trigger] entries_view(entries@)[j]).name != name@,
            decreases entries.len() - i,
        {
            if entries[i].name == wanted {
                proof {
                    assert(entries_view(entries@)[i as int].name == name@);
                    lemma_first_named(entries_view(entries@), name@, i as int);
                }
                return Some(&mut entries[i]);
            }
            i += 1;
        }
        None
    }

    /// The first entry of the list that has the name, or `None` where no entry
    /// has it.
    pub fn get_first_by_name(entries: &[Entry], name: &str) -> (r: Option<Entry>)
        ensures
            r is Some <==> row_has_name(entries_view(entries@), name@),
            r matches Some(entry) ==> entry@ == entries_view(entries@)[first_named(
                entries_view(entries@),
                name@,
            )],
    {
        let wanted = name.to_owned();
        let mut i: usize = 0;
        while i < entries.len()
            invariant
                i <= entries.len(),
                wanted@ == name@,
                forall|j: int| 0 <= j < i ==> (#[trigger] entries_view(entries@)[j]).name != name@,
            decreases entries.len() - i,
        {
            if entries[i].name == wanted {
                proof {
                    assert(entries_view(entries@)[i as int].name == name@);
                    lemma_first_named(entries_view(entries@), name@, i as int);
                }
                return Some(entries[i].clone());
            }
            i += 1;
        }
        None
    }
}

/// The first entry with a name stands where no entry before it has the name
/// and it has the name itself.
pub proof fn lemma_first_named(row: Seq<EntryView>, name: Seq<char>, i: int)
    requires
        0 <= i < row.len(),
        row[i].name == name,
        forall|j: int| 0 <= j < i ==> (#[trigger] row[j]).name != name,
    ensures
        first_named(row, name) == i,
    decreases row.len(),
{
    if i > 0 {
        let rest = row.drop_first();
        assert(rest[i - 1] == row[i]);
        assert forall|j: int| 0 <= j < i - 1 implies (#[trigger] rest[j]).name != name by {
            assert(rest[j] == row[j + 1]);
        }
        lemma_first_named(rest, name, i - 1);
    }
}

impl Predicate {
    /// A predicate met by the entries with the name and the integer `value`.
    pub fn new_equal_i32(name: &str, value: i32) -> (r: Predicate)
        ensures
            r@ == (PredicateView {
                kind: PredicateType::Equal,
                entry: EntryView { name: name@, value: DataView::Integer(value as int) },
            }),
    {
        Predicate { predicate_type: PredicateType::Equal, entry: Entry::new_i32(name, value) }
    }

    /// A predicate met by every entry with the name. Its own value is the
    /// empty text.
    pub fn new_any_string(name: &str) -> (r: Predicate)
        ensures
            r@ == (PredicateView {
                kind: PredicateType::Any,
                entry: EntryView { name: name@, value: DataView::Text(Seq::empty()) },
            }),
    {
        Predicate {
            predicate_type: PredicateType::Any,
            entry: Entry { name: name.to_owned(), value: Data::DbString(String::new()) },
        }
    }

    /// A predicate met by the entries with the name and the text `value`.
    pub fn new_equal_string(name: &str, value: &str) -> (r: Predicate)
        ensures
            r@ == (PredicateView {
                kind: PredicateType::Equal,
                entry: EntryView { name: name@, value: DataView::Text(value@) },
            }),
    {
        Predicate { predicate_type: PredicateType::Equal, entry: Entry::new_string(name, value) }
    }

    /// A predicate met by the entries with the name whose text begins with
    /// `value`.
    pub fn new_starts_with(name: &str, value: &str) -> (r: Predicate)
        ensures
            r@ == (PredicateView {
                kind: PredicateType::StartsWith,
                entry: EntryView { name: name@, value: DataView::Text(value@) },
            }),
    {
        Predicate {
            predicate_type: PredicateType::StartsWith,
            entry: Entry::new_string(name, value),
        }
    }

    /// A predicate met by the entries with the name whose text holds `value`.
    pub fn new_contains(name: &str, value: &str) -> (r: Predicate)
        ensures
            r@ == (PredicateView {
                kind: PredicateType::Contains,
                entry: EntryView { name: name@, value: DataView::Text(value@) },
            }),
    {
        Predicate { predicate_type: PredicateType::Contains, entry: Entry::new_string(name, value) }
    }
}

} // verus!
