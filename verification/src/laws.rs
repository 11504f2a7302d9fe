//! Laws of the store, each proved from the contracts of its operations.

use crate::entry::{
    row_has_entry, row_has_name, EntryView, PredicateType, PredicateView, RowId,
};
use crate::find::with_name;
use crate::persist::{lists, replayed, row_ids_of, RowView};
use crate::store::{lemma_push_has, lemma_without_name, without_name, Db};
use vstd::prelude::*;

verus! {

/// In a well-formed store, the index by name files a row under a name exactly
/// where the row is live and has an entry of that name, and the index by value
/// files a row under an entry exactly where the row is live and holds that
/// entry. Every operation that changes a store takes a well-formed store to a
/// well-formed store, so this holds after any sequence of them.
pub proof fn lemma_indexes_follow_rows(db: Db, name: Seq<char>, entry: EntryView, row_id: RowId)
    requires
        db.wf(),
    ensures
        db.name_index(name).contains(row_id) <==> db.rows().contains_key(row_id) && row_has_name(
            db.rows()[row_id],
            name,
        ),
        db.value_index(entry).contains(row_id) <==> db.rows().contains_key(row_id)
            && row_has_entry(db.rows()[row_id], entry),
        db.rows().contains_key(row_id) ==> db.rows()[row_id].len() > 0 && row_id.0 <= db.row_max(),
{
}

/// Two well-formed stores with the same live rows have the same indexes.
pub proof fn lemma_rows_fix_indexes(left: Db, right: Db)
    requires
        left.wf(),
        right.wf(),
        left.rows() == right.rows(),
    ensures
        forall|name: Seq<char>| #[trigger] left.name_index(name) == right.name_index(name),
        forall|entry: EntryView| #[trigger] left.value_index(entry) == right.value_index(entry),
{
    assert forall|name: Seq<char>| #[trigger] left.name_index(name) == right.name_index(name) by {
        assert forall|row_id: RowId|
            left.name_index(name).contains(row_id) <==> right.name_index(name).contains(
                row_id,
            ) by {
            lemma_indexes_follow_rows(left, name, arbitrary(), row_id);
            lemma_indexes_follow_rows(right, name, arbitrary(), row_id);
        }
        assert(left.name_index(name) =~= right.name_index(name));
    }
    assert forall|entry: EntryView| #[trigger]
        left.value_index(entry) == right.value_index(entry) by {
        assert forall|row_id: RowId|
            left.value_index(entry).contains(row_id) <==> right.value_index(entry).contains(
                row_id,
            ) by {
            lemma_indexes_follow_rows(left, arbitrary(), entry, row_id);
            lemma_indexes_follow_rows(right, arbitrary(), entry, row_id);
        }
        assert(left.value_index(entry) =~= right.value_index(entry));
    }
}

/// Reading back the rows that a store handed out gives the store's live rows:
/// the same identifiers, and for each the same entries in the same order.
pub proof fn lemma_round_trip(kept: Seq<RowView>, rows: Map<RowId, Seq<EntryView>>)
    requires
        lists(kept, rows),
    ensures
        replayed(kept) == rows,
{
    lemma_replayed_prefix(kept, rows, kept.len() as int);
    assert(kept.take(kept.len() as int) =~= kept);
    let ids = row_ids_of(kept);
    assert forall|row_id: RowId| replayed(kept).contains_key(row_id) <==> rows.contains_key(
        row_id,
    ) by {
        if rows.contains_key(row_id) {
            assert(ids.to_set().contains(row_id));
            let j = choose|j: int| 0 <= j < ids.len() && ids[j] == row_id;
            assert(kept[j].row_id == row_id);
        }
        if replayed(kept).contains_key(row_id) {
            let j = choose|j: int| 0 <= j < kept.len() && (#[trigger] kept[j]).row_id == row_id;
            assert(ids[j] == row_id);
            assert(ids.to_set().contains(row_id));
        }
    }
    assert(replayed(kept) =~= rows);
}

/// The first `count` rows of a list of the live rows give, read back, those
/// of the live rows that they name.
pub proof fn lemma_replayed_prefix(
    kept: Seq<RowView>,
    rows: Map<RowId, Seq<EntryView>>,
    count: int,
)
    requires
        lists(kept, rows),
        0 <= count <= kept.len(),
    ensures
        forall|row_id: RowId| #[trigger]
            replayed(kept.take(count)).contains_key(row_id) <==> exists|j: int|
                0 <= j < count && (#[trigger] kept[j]).row_id == row_id,
        forall|row_id: RowId| #[trigger]
            replayed(kept.take(count)).contains_key(row_id) ==> replayed(kept.take(count))[row_id]
                == rows[row_id],
    decreases count,
{
    if count > 0 {
        lemma_replayed_prefix(kept, rows, count - 1);
        let longer = kept.take(count);
        let shorter = kept.take(count - 1);
        assert(longer.drop_last() =~= shorter);
        assert(longer.last() == kept[count - 1]);
        assert(kept[count - 1].entries.len() > 0);
        assert(replayed(longer) == replayed(shorter).insert(
            kept[count - 1].row_id,
            kept[count - 1].entries,
        ));
        assert forall|row_id: RowId| #[trigger]
            replayed(longer).contains_key(row_id) <==> exists|j: int|
                0 <= j < count && (#[trigger] kept[j]).row_id == row_id by {
            if replayed(longer).contains_key(row_id) {
                if row_id == kept[count - 1].row_id {
                    assert(0 <= count - 1 < count && kept[count - 1].row_id == row_id);
                } else {
                    assert(replayed(shorter).contains_key(row_id));
                    let j = choose|j: int|
                        0 <= j < count - 1 && (#[trigger] kept[j]).row_id == row_id;
                    assert(0 <= j < count && kept[j].row_id == row_id);
                }
            }
            if exists|j: int| 0 <= j < count && (#[trigger] kept[j]).row_id == row_id {
                let j = choose|j: int| 0 <= j < count && (#[trigger] kept[j]).row_id == row_id;
                if j < count - 1 {
                    assert(replayed(shorter).contains_key(row_id));
                }
            }
        }
    }
}

/// Deleting a row that is not live changes no row: the live rows are what
/// they were, and with them, in a well-formed store, both indexes.
pub proof fn lemma_delete_absent(rows: Map<RowId, Seq<EntryView>>, row_id: RowId)
    requires
        !rows.contains_key(row_id),
    ensures
        rows.remove(row_id) == rows,
{
    assert(rows.remove(row_id) =~= rows);
}

/// Deleting rows of which none is live changes no row.
pub proof fn lemma_delete_all_absent(rows: Map<RowId, Seq<EntryView>>, row_ids: Set<RowId>)
    requires
        forall|row_id: RowId| row_ids.contains(row_id) ==> !rows.contains_key(row_id),
    ensures
        rows.remove_keys(row_ids) == rows,
{
    assert(rows.remove_keys(row_ids) =~= rows);
}

/// After an entry was put in the place of those of its name, the row has
/// exactly one entry of that name, the new one; no other entry of that name is
/// left in it, and the entries of other names are the ones it had.
pub proof fn lemma_upsert_replaces(row: Seq<EntryView>, new_entry: EntryView)
    ensures
        with_name(without_name(row, new_entry.name).push(new_entry), new_entry.name)
            == seq![new_entry],
        row_has_entry(without_name(row, new_entry.name).push(new_entry), new_entry),
        forall|entry: EntryView|
            entry.name == new_entry.name && entry != new_entry ==> !#[trigger] row_has_entry(
                without_name(row, new_entry.name).push(new_entry),
                entry,
            ),
        forall|entry: EntryView|
            entry.name != new_entry.name ==> (#[trigger] row_has_entry(
                without_name(row, new_entry.name).push(new_entry),
                entry,
            ) <==> row_has_entry(row, entry)),
{
    let kept = without_name(row, new_entry.name);
    let after = kept.push(new_entry);
    lemma_without_name(row, new_entry.name);
    lemma_push_has(kept, new_entry);
    lemma_with_absent_name(kept, new_entry.name);
    assert(after.drop_last() =~= kept);
    assert(with_name(after, new_entry.name) =~= seq![new_entry]);
}

/// A row that has no entry of a name gives no entry for that name.
pub proof fn lemma_with_absent_name(row: Seq<EntryView>, name: Seq<char>)
    requires
        !row_has_name(row, name),
    ensures
        with_name(row, name) == Seq::<EntryView>::empty(),
    decreases row.len(),
{
    if row.len() > 0 {
        let shorter = row.drop_last();
        assert(row[row.len() - 1].name != name);
        assert forall|i: int| 0 <= i < shorter.len() implies (#[trigger] shorter[i]).name
            != name by {
            assert(row[i].name != name);
        }
        lemma_with_absent_name(shorter, name);
    }
}

/// The relations "starts with" and "contains" hold between two texts only:
/// where either value is an integer or a timestamp, neither holds, and no
/// entry meets a predicate of those kinds, whether or not the values are equal.
pub proof fn lemma_text_relations_need_texts(entry: EntryView, predicate: PredicateView)
    requires
        !(entry.value is Text) || !(predicate.entry.value is Text),
    ensures
        !entry.value.starts_with(predicate.entry.value),
        !entry.value.contains(predicate.entry.value),
        predicate.kind == PredicateType::StartsWith || predicate.kind == PredicateType::Contains
            ==> !entry.matches(predicate),
{
}

} // verus!
