use vstd::prelude::*;
use crate::date_time::DateTimeAsMicroseconds;

verus! {

/// What is laid down for a table: whether it is saved, how many partitions
/// and how many rows in each may stay, and when it was made.
#[derive(Debug, Clone, Copy)]
pub struct DbTableAttributes {
    pub persist: bool,
    pub max_partitions_amount: Option<usize>,
    pub max_rows_per_partition_amount: Option<usize>,
    pub created: DateTimeAsMicroseconds,
}

impl DbTableAttributes {
    /// A table that is saved and has no limits, made at the instant that
    /// the machine's clock shows.
    pub fn create_default() -> (r: Self)
        ensures
            r.persist,
            r.max_partitions_amount is None,
            r.max_rows_per_partition_amount is None,
    {
        DbTableAttributes {
            created: DateTimeAsMicroseconds::now(),
            persist: true,
            max_partitions_amount: None,
            max_rows_per_partition_amount: None,
        }
    }

    pub fn new(
        persist: bool,
        max_partitions_amount: Option<usize>,
        max_rows_per_partition_amount: Option<usize>,
        created: DateTimeAsMicroseconds,
    ) -> (r: Self)
        ensures
            r.persist == persist,
            r.max_partitions_amount == max_partitions_amount,
            r.max_rows_per_partition_amount == max_rows_per_partition_amount,
            r.created == created,
    {
        DbTableAttributes { persist, created, max_partitions_amount, max_rows_per_partition_amount }
    }

    /// Lays down the three anew, and tells whether any of them changed.
    pub fn update(
        &mut self,
        persist_table: bool,
        max_partitions_amount: Option<usize>,
        max_rows_per_partition_amount: Option<usize>,
    ) -> (r: bool)
        ensures
            final(self).persist == persist_table,
            final(self).max_partitions_amount == max_partitions_amount,
            final(self).max_rows_per_partition_amount == max_rows_per_partition_amount,
            final(self).created == old(self).created,
            r == (old(self).persist != persist_table || old(self).max_partitions_amount
                != max_partitions_amount || old(self).max_rows_per_partition_amount
                != max_rows_per_partition_amount),
    {
        let mut result = false;
        if self.persist != persist_table {
            self.persist = persist_table;
            result = true;
        }
        if !same_limit(self.max_partitions_amount, max_partitions_amount) {
            self.max_partitions_amount = max_partitions_amount;
            result = true;
        }
        if !same_limit(self.max_rows_per_partition_amount, max_rows_per_partition_amount) {
            self.max_rows_per_partition_amount = max_rows_per_partition_amount;
            result = true;
        }
        result
    }
}

fn same_limit(a: Option<usize>, b: Option<usize>) -> (r: bool)
    ensures
        r == (a == b),
{
    match (a, b) {
        (Some(x), Some(y)) => x == y,
        (None, None) => true,
        _ => false,
    }
}

} // verus!
