//! Short ways to make a value and to add a row of one entry.

use crate::entry::{entries_view, Entry, EntryView, RowId};
use crate::store::Db;
use crate::value::{
    parsed_datetime, Data, DataView, DbError, Timestamp, TIMESTAMP_MAX, TIMESTAMP_MIN,
};
use vstd::prelude::*;

verus! {

impl Db {
    /// The text `v` as a value.
    pub fn db_string(v: &str) -> (r: Data)
        ensures
            r@ == DataView::Text(v@),
    {
        Data::DbString(v.to_owned())
    }

    /// The integer `v` as a value.
    pub fn db_i32(v: i32) -> (r: Data)
        ensures
            r@ == DataView::Integer(v as int),
    {
        Data::DbI32(v)
    }

    /// The timestamp written in `v` as `YYYY-MM-DD HH:MM:SS`, as a value.
    ///
    /// Fails with `FormatError` where the text is not of that form or names a
    /// moment outside the years 0000 through 9999.
    pub fn db_datetime(v: &str) -> (r: Result<Data, DbError>)
        ensures
            r is Ok <==> (parsed_datetime(v@) matches Some(secs) && TIMESTAMP_MIN <= secs
                <= TIMESTAMP_MAX),
            r matches Ok(data) ==> (parsed_datetime(v@) matches Some(secs) && data@
                == DataView::Timestamp(secs)),
            r matches Err(error) ==> error == DbError::FormatError,
    {
        match Timestamp::parse(v) {
            Ok(timestamp) => Ok(Data::DbDateTime(timestamp)),
            Err(error) => Err(error),
        }
    }

    /// Adds a row whose one entry has the name and the integer `value`.
    pub fn add_i32(&mut self, name: &str, value: i32) -> (r: RowId)
        requires
            old(self).wf(),
            old(self).row_max() < usize::MAX,
        ensures
            final(self).wf(),
            r.0 == old(self).row_max() + 1,
            final(self).row_max() == r.0,
            final(self).name() == old(self).name(),
            final(self).rows() == old(self).rows().insert(
                r,
                seq![EntryView { name: name@, value: DataView::Integer(value as int) }],
            ),
    {
        let mut entries: Vec<Entry> = Vec::new();
        let entry = Entry::new_i32(name, value);
        let ghost view = entry@;
        entries.push(entry);
        assert(entries_view(entries@) =~= seq![view]);
        self.add_row(entries)
    }

    /// Adds a row whose one entry has the name and the text `value`.
    pub fn add_string(&mut self, name: &str, value: &str) -> (r: RowId)
        requires
            old(self).wf(),
            old(self).row_max() < usize::MAX,
        ensures
            final(self).wf(),
            r.0 == old(self).row_max() + 1,
            final(self).row_max() == r.0,
            final(self).name() == old(self).name(),
            final(self).rows() == old(self).rows().insert(
                r,
                seq![EntryView { name: name@, value: DataView::Text(value@) }],
            ),
    {
        let mut entries: Vec<Entry> = Vec::new();
        let entry = Entry::new_string(name, value);
        let ghost view = entry@;
        entries.push(entry);
        assert(entries_view(entries@) =~= seq![view]);
        self.add_row(entries)
    }
}

} // verus!
