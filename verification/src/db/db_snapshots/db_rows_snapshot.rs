use std::sync::Arc;
use vstd::prelude::*;
use crate::db::db_row::DbRow;
use crate::json_writer::JsonArrayWriter;

verus! {

/// The rows of a partition as they stood at one instant, in the order of
/// their keys.
pub struct DbRowsSnapshot {
    pub db_rows: Vec<Arc<DbRow>>,
}

/// The bytes of each row.
pub open spec fn payloads_of(rows: Seq<Arc<DbRow>>) -> Seq<Seq<u8>> {
    rows.map_values(|row: Arc<DbRow>| row.data@)
}

impl DbRowsSnapshot {
    pub fn new() -> (r: Self)
        ensures
            r.db_rows@.len() == 0,
    {
        DbRowsSnapshot { db_rows: Vec::new() }
    }

    pub fn new_from_snapshot(db_rows: Vec<Arc<DbRow>>) -> (r: Self)
        ensures
            r.db_rows@ == db_rows@,
    {
        DbRowsSnapshot { db_rows }
    }

    pub fn len(&self) -> (r: usize)
        ensures
            r == self.db_rows@.len(),
    {
        self.db_rows.len()
    }

    /// Writes the bytes of each row as an element of the array.
    pub fn fill_with_json_data(&self, json_array_writer: &mut JsonArrayWriter)
        requires
            old(json_array_writer).wf(),
        ensures
            final(json_array_writer).wf(),
            final(json_array_writer).elements@ == old(json_array_writer).elements@ + payloads_of(
                self.db_rows@,
            ),
    {
        let ghost wanted = payloads_of(self.db_rows@);
        let mut at: usize = 0;
        assert(wanted.take(0) =~= Seq::<Seq<u8>>::empty());
        while at < self.db_rows.len()
            invariant
                at <= self.db_rows@.len(),
                wanted == payloads_of(self.db_rows@),
                json_array_writer.wf(),
                json_array_writer.elements@ == old(json_array_writer).elements@ + wanted.take(
                    at as int,
                ),
            decreases self.db_rows@.len() - at,
        {
            json_array_writer.write_raw_element(self.db_rows[at].data.as_slice());
            assert(wanted.take(at + 1) =~= wanted.take(at as int).push(wanted[at as int]));
            at = at + 1;
        }
        assert(wanted.take(at as int) =~= wanted);
    }

    /// The rows as a JSON array.
    pub fn as_json_array(&self) -> (r: JsonArrayWriter)
        ensures
            r.wf(),
            r.elements@ == payloads_of(self.db_rows@),
    {
        let mut json_array_writer = JsonArrayWriter::new();
        self.fill_with_json_data(&mut json_array_writer);
        assert(json_array_writer.elements@ =~= payloads_of(self.db_rows@));
        json_array_writer
    }
}

} // verus!
