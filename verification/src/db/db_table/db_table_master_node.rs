use std::sync::Arc;
use vstd::prelude::*;
use vstd::utf8::encode_utf8;
use crate::date_time::DateTimeAsMicroseconds;
use crate::db::db_partition::DbPartition;
use crate::db::db_row::DbRow;
use crate::db::db_table::data_to_gc::DataToGc;
use crate::db::db_table::db_partitions_container::DbPartitionsContainer;
use crate::db::db_table::db_table::{expiring_rows_of, DbTable};
use crate::db::db_table::lemma_total_split;
use crate::expiration_index::due_items;
use crate::lru::are_oldest;
use crate::ordered_map::{
    has_key, is_sorted, lemma_put, lemma_put_other, lemma_total_bounds, lemma_total_take,
    lemma_value_at_place, total, value_at, OrderedMap,
};

verus! {

/// The bytes of each key.
pub open spec fn names_of(keys: Seq<String>) -> Seq<Seq<u8>> {
    keys.map_values(|key: String| encode_utf8(key@))
}

/// The key bytes of each row.
pub open spec fn keys_of_rows(rows: Seq<Arc<DbRow>>) -> Seq<Seq<u8>> {
    rows.map_values(|row: Arc<DbRow>| row.key())
}

/// Whether `picked` are the rows of the partition that have to go so that
/// no more than `max` stay: none where there is no limit or it is kept,
/// else those read longest ago, for some reading of the instants at which
/// the rows were last read.
pub open spec fn are_rows_by_amount(
    partition: DbPartition,
    max: Option<usize>,
    picked: Seq<Arc<DbRow>>,
) -> bool {
    match max {
        Some(most) => if partition.rows.data@.len() > most {
            exists|stamps: Seq<i64>, picks: Seq<int>|
                stamps.len() == partition.rows.data@.len() && picks.len()
                    == partition.rows.data@.len() - most && are_oldest(stamps, picks)
                    && #[trigger] partition.rows.rows_at(picks) == picked && #[trigger] stamps.len()
                    == partition.rows.data@.len()
        } else {
            picked.len() == 0
        },
        None => picked.len() == 0,
    }
}

/// Whether `list` names the rows of the partition that are to be
/// collected: those that are due at `now`, earliest first, and behind them
/// those that have to go by the limit; `None` where there is none.
pub open spec fn is_row_plan(
    list: Option<Seq<String>>,
    partition: DbPartition,
    now: i64,
    max: Option<usize>,
) -> bool {
    exists|picked: Seq<Arc<DbRow>>| #[trigger]
        are_rows_by_amount(partition, max, picked) && {
            let expected = keys_of_rows(due_items(partition.rows.index(), now)) + keys_of_rows(
                picked,
            );
            if expected.len() == 0 {
                list is None
            } else {
                list matches Some(keys) && names_of(keys) == expected
            }
        }
}

/// Whether `picked` are the keys of the partitions that have to go so that
/// no more than `max` stay.
pub open spec fn are_partitions_by_amount(
    partitions: DbPartitionsContainer,
    max: Option<usize>,
    picked: Seq<Seq<u8>>,
) -> bool {
    match max {
        Some(most) => if partitions.partitions@.len() > most {
            exists|stamps: Seq<i64>, picks: Seq<int>|
                stamps.len() == partitions.partitions@.len() && picks.len()
                    == partitions.partitions@.len() - most && are_oldest(stamps, picks)
                    && #[trigger] partitions.keys_at(picks) == picked && #[trigger] stamps.len()
                    == partitions.partitions@.len()
        } else {
            picked.len() == 0
        },
        None => picked.len() == 0,
    }
}

/// Whether `plan` marks exactly the partitions with the keys `picked` and
/// those that are due at `now`.
pub open spec fn marks_partitions(
    plan: DataToGc,
    partitions: DbPartitionsContainer,
    picked: Seq<Seq<u8>>,
    now: i64,
) -> bool {
    forall|key: Seq<u8>| #[trigger]
        plan.has_partition(key) <==> (picked.contains(key) || names_of(
            due_items(partitions.index(), now),
        ).contains(key))
}

/// Whether `plan` names, for each of the first `count` partitions that is
/// not marked, the rows that are to be collected, and no rows for any
/// other key.
pub open spec fn plans_rows(plan: DataToGc, table: DbTable, now: i64, count: int) -> bool {
    &&& forall|i: int|
        0 <= i < count ==> if plan.has_partition((#[trigger] table.partitions.partitions@[i]).0) {
            plan.rows_of(table.partitions.partitions@[i].0) is None
        } else {
            is_row_plan(
                plan.rows_of(table.partitions.partitions@[i].0),
                table.partitions.partitions@[i].1,
                now,
                table.attributes.max_rows_per_partition_amount,
            )
        }
    &&& forall|i: int|
        count <= i < table.partitions.partitions@.len() ==> plan.rows_of(
            (#[trigger] table.partitions.partitions@[i]).0,
        ) is None
    &&& forall|key: Seq<u8>|
        !has_key(table.partitions.partitions@, key) ==> #[trigger] plan.rows_of(key) is None
}

/// Whether `plan` is what is to be collected from the table at `now`: the
/// partitions that have to go by the limit and those that are due, and
/// for every other partition the rows that are due and those that have to
/// go by the limit.
pub open spec fn is_gc_plan(plan: DataToGc, table: DbTable, now: i64) -> bool {
    exists|picked: Seq<Seq<u8>>| #[trigger]
        are_partitions_by_amount(
            table.partitions,
            table.attributes.max_partitions_amount,
            picked,
        ) && marks_partitions(plan, table.partitions, picked, now) && plans_rows(
            plan,
            table,
            now,
            table.partitions.partitions@.len() as int,
        )
}

/// The keys of the rows.
fn row_keys_of(rows: &Vec<&Arc<DbRow>>, into: &mut Vec<String>)
    ensures
        names_of(final(into)@) == names_of(old(into)@) + keys_of_rows(
            rows@.map_values(|row: &Arc<DbRow>| *row),
        ),
{
    let ghost wanted = keys_of_rows(rows@.map_values(|row: &Arc<DbRow>| *row));
    let mut at: usize = 0;
    assert(names_of(into@) =~= names_of(old(into)@) + wanted.take(0));
    while at < rows.len()
        invariant
            at <= rows@.len(),
            wanted == keys_of_rows(rows@.map_values(|row: &Arc<DbRow>| *row)),
            names_of(into@) == names_of(old(into)@) + wanted.take(at as int),
        decreases rows@.len() - at,
    {
        let ghost before = into@;
        into.push(rows[at].row_key.clone());
        assert(names_of(into@) =~= names_of(before).push(wanted[at as int]));
        assert(wanted.take(at + 1) =~= wanted.take(at as int).push(wanted[at as int]));
        at = at + 1;
    }
    assert(wanted.take(at as int) =~= wanted);
}

/// Whether the plan marks a partition or names rows.
pub open spec fn holds_something(plan: DataToGc) -> bool {
    exists|key: Seq<u8>| #[trigger] plan.has_partition(key) || plan.rows_of(key) is Some
}

/// Marks the partitions of the keys.
fn mark_partitions(plan: &mut DataToGc, keys: &Vec<&String>)
    requires
        old(plan).wf(),
        keys@.len() > 0,
    ensures
        final(plan).wf(),
        final(plan).inner is Some,
        holds_something(*final(plan)),
        final(plan).db_rows() == old(plan).db_rows(),
        forall|key: Seq<u8>| #[trigger]
            final(plan).has_partition(key) <==> (old(plan).has_partition(key) || names_of(
                keys@.map_values(|k: &String| *k),
            ).contains(key)),
{
    let ghost names = names_of(keys@.map_values(|k: &String| *k));
    let mut at: usize = 0;
    while at < keys.len()
        invariant
            at <= keys@.len(),
            plan.wf(),
            names == names_of(keys@.map_values(|k: &String| *k)),
            at > 0 ==> plan.inner is Some,
            plan.db_rows() == old(plan).db_rows(),
            forall|key: Seq<u8>| #[trigger]
                plan.has_partition(key) <==> (old(plan).has_partition(key) || names.take(
                    at as int,
                ).contains(key)),
        decreases keys@.len() - at,
    {
        let ghost before = *plan;
        plan.add_partition_to_expire(keys[at].as_str());
        proof {
            let name = names[at as int];
            let so_far = names.take(at as int);
            let with_this = names.take(at + 1);
            assert(name == encode_utf8(keys@[at as int]@));
            lemma_put(before.partitions(), name, ());
            assert(with_this =~= so_far.push(name));
            assert forall|key: Seq<u8>| #[trigger]
                plan.has_partition(key) <==> (old(plan).has_partition(key) || with_this.contains(
                    key,
                )) by {
                assert(before.has_partition(key) <==> (old(plan).has_partition(key)
                    || so_far.contains(key)));
                assert(before.has_partition(key) == has_key(before.partitions(), key));
                assert(plan.has_partition(key) == has_key(plan.partitions(), key));
                if key != name {
                    lemma_put_other(before.partitions(), name, (), key);
                    if with_this.contains(key) {
                        let j = choose|j: int| 0 <= j < with_this.len() && with_this[j] == key;
                        assert(so_far[j] == key);
                    }
                    if so_far.contains(key) {
                        let j = choose|j: int| 0 <= j < so_far.len() && so_far[j] == key;
                        assert(with_this[j] == key);
                    }
                } else {
                    assert(with_this[at as int] == key);
                }
            }
        }
        at = at + 1;
    }
    proof {
        assert(names.take(at as int) =~= names);
        assert(names[0] == names[0]);
        assert(names.contains(names[0]));
        assert(plan.has_partition(names[0]));
    }
}

impl DbTable {
    /// The keys of the rows of the partition at a place that are to be
    /// collected.
    fn rows_to_collect(&self, at: usize, now: DateTimeAsMicroseconds) -> (r: Vec<String>)
        requires
            self.wf(),
            at < self.partitions.partitions@.len(),
        ensures
            is_row_plan(
                if r@.len() == 0 {
                    None
                } else {
                    Some(r@)
                },
                self.partitions.partitions@[at as int].1,
                now.unix_microseconds,
                self.attributes.max_rows_per_partition_amount,
            ),
    {
        let db_partition = self.partitions.partitions.value(at);
        let ghost due = due_items(db_partition.rows.index(), now.unix_microseconds);
        let mut list: Vec<String> = Vec::new();
        assert(names_of(list@) =~= Seq::empty());
        if let Some(rows_to_expire) = db_partition.get_rows_to_expire(now) {
            row_keys_of(&rows_to_expire, &mut list);
        }
        assert(names_of(list@) =~= keys_of_rows(due));
        let ghost mut picked: Seq<Arc<DbRow>> = Seq::empty();
        if let Some(max_rows_per_partition) = self.attributes.max_rows_per_partition_amount {
            if let Some(rows_to_gc) = db_partition.rows.get_rows_to_gc_by_max_amount(
                max_rows_per_partition,
            ) {
                proof {
                    picked = rows_to_gc@.map_values(|row: &Arc<DbRow>| *row);
                }
                row_keys_of(&rows_to_gc, &mut list);
            }
        }
        proof {
            assert(are_rows_by_amount(
                *db_partition,
                self.attributes.max_rows_per_partition_amount,
                picked,
            ));
            assert(names_of(list@) =~= keys_of_rows(due) + keys_of_rows(picked));
        }
        list
    }

    /// What is to be collected from the table at `now`: the partitions
    /// that have to go so that the table keeps within its limit, those read
    /// longest ago first, and the partitions that are due; and for every
    /// other partition the rows that are due and the rows that have to go
    /// so that the partition keeps within its limit.
    pub fn get_data_to_gc(&self, now: DateTimeAsMicroseconds) -> (r: DataToGc)
        requires
            self.wf(),
        ensures
            r.wf(),
            is_gc_plan(r, *self, now.unix_microseconds),
            r.inner is Some <==> holds_something(r),
    {
        let mut result = DataToGc::new();
        let ghost mut picked: Seq<Seq<u8>> = Seq::empty();
        if let Some(max_partitions_amount) = self.attributes.max_partitions_amount {
            if let Some(partitions_to_expire) = self.partitions.get_partitions_to_gc_by_max_amount(
                max_partitions_amount,
            ) {
                proof {
                    picked = partitions_to_expire@.map_values(|key: &String| encode_utf8(key@));
                    assert(picked =~= names_of(partitions_to_expire@.map_values(|k: &String| *k)));
                }
                mark_partitions(&mut result, &partitions_to_expire);
            }
        }
        assert(are_partitions_by_amount(
            self.partitions,
            self.attributes.max_partitions_amount,
            picked,
        ));
        assert(forall|key: Seq<u8>| #[trigger] result.has_partition(key) <==> picked.contains(key));
        let ghost marked = result;
        if let Some(partitions_to_expire) = self.partitions.get_partitions_to_expire(now) {
            mark_partitions(&mut result, &partitions_to_expire);
            assert(partitions_to_expire@.map_values(|k: &String| *k) =~= due_items(
                self.partitions.index(),
                now.unix_microseconds,
            ));
        } else {
            assert(names_of(due_items(self.partitions.index(), now.unix_microseconds)).len()
                == 0);
        }
        assert(marks_partitions(result, self.partitions, picked, now.unix_microseconds));
        let mut at: usize = 0;
        while at < self.partitions.len()
            invariant
                at <= self.partitions.partitions@.len(),
                self.wf(),
                result.wf(),
                marks_partitions(result, self.partitions, picked, now.unix_microseconds),
                plans_rows(result, *self, now.unix_microseconds, at as int),
                result.inner is Some ==> holds_something(result),
            decreases self.partitions.partitions@.len() - at,
        {
            let ghost m = self.partitions.partitions@;
            let partition_key = self.partitions.partitions.key(at);
            proof {
                lemma_value_at_place(m, at as int);
            }
            if !result.has_partition_to_gc(partition_key.as_str()) {
                let list = self.rows_to_collect(at, now);
                if list.len() > 0 {
                    let ghost before = result;
                    let ghost rows = list@;
                    result.add_rows_to_expire(partition_key.as_str(), list);
                    proof {
                        let name = m[at as int].0;
                        assert(before.rows_of(name) is None);
                        assert(result.rows_of(name) == Some(rows));
                        assert forall|key: Seq<u8>| key != name implies #[trigger] result.rows_of(
                            key,
                        ) == before.rows_of(key) by {
                            let list_after = value_at(result.db_rows(), name).unwrap();
                            lemma_put_other(before.db_rows(), name, list_after, key);
                        }
                        assert forall|i: int| 0 <= i < at implies result.rows_of(
                            (#[trigger] m[i]).0,
                        ) == before.rows_of(m[i].0) by {
                            lemma_value_at_place(m, i);
                        }
                        assert forall|i: int| at < i < m.len() implies result.rows_of(
                            (#[trigger] m[i]).0,
                        ) is None by {
                            lemma_value_at_place(m, i);
                        }
                        assert forall|key: Seq<u8>| #[trigger]
                            result.has_partition(key) == before.has_partition(key) by {
                            assert(before.has_partition(key) == has_key(before.partitions(), key));
                            assert(result.has_partition(key) == has_key(result.partitions(), key));
                        }
                        assert(result.has_partition(name) || result.rows_of(name) is Some);
                    }
                }
            }
            at = at + 1;
        }
        proof {
            if holds_something(result) {
                let key = choose|key: Seq<u8>| #[trigger]
                    result.has_partition(key) || result.rows_of(key) is Some;
            }
        }
        result
    }

    /// The number of rows of the table that expire.
    pub fn get_expiration_index_rows_amount(&self) -> (r: usize)
        requires
            self.wf(),
        ensures
            r == self.expiring_rows_amount(),
            r <= self.rows_amount(),
    {
        let ghost m = self.partitions.partitions@;
        proof {
            crate::db::db_table::db_table::lemma_table_size_is_bytes_of_rows(*self);
        }
        let mut result: usize = 0;
        let mut at: usize = 0;
        assert(m.take(0) =~= Seq::empty());
        while at < self.partitions.len()
            invariant
                self.wf(),
                m == self.partitions.partitions@,
                at <= m.len(),
                total(m, expiring_rows_of()) <= usize::MAX,
                result == total(m.take(at as int), expiring_rows_of()),
            decreases m.len() - at,
        {
            proof {
                lemma_total_take(m, expiring_rows_of(), at as int);
                let rest = m.skip(at + 1);
                lemma_total_split(m, expiring_rows_of(), at + 1);
                lemma_total_bounds(rest, expiring_rows_of());
            }
            result = result + self.partitions.partitions.value(
                at,
            ).get_expiration_index_rows_amount();
            at = at + 1;
        }
        assert(m.take(at as int) =~= m);
        result
    }

    /// When each partition was last written, by partition key.
    pub fn get_partitions_last_write_moment(&self) -> (r: OrderedMap<DateTimeAsMicroseconds>)
        requires
            self.wf(),
        ensures
            r.wf(),
            r@ == self.partitions.partitions@.map_values(
                |entry: (Seq<u8>, DbPartition)| (entry.0, entry.1.last_write_moment),
            ),
    {
        let ghost wanted = self.partitions.partitions@.map_values(
            |entry: (Seq<u8>, DbPartition)| (entry.0, entry.1.last_write_moment),
        );
        let mut result: OrderedMap<DateTimeAsMicroseconds> = OrderedMap::new();
        let mut at: usize = 0;
        assert(result@ =~= wanted.take(0));
        while at < self.partitions.len()
            invariant
                at <= self.partitions.partitions@.len(),
                is_sorted(self.partitions.partitions@),
                wanted == self.partitions.partitions@.map_values(
                    |entry: (Seq<u8>, DbPartition)| (entry.0, entry.1.last_write_moment),
                ),
                result@ == wanted.take(at as int),
            decreases self.partitions.partitions@.len() - at,
        {
            let key = self.partitions.partitions.key(at).clone();
            let moment = self.partitions.partitions.value(at).get_last_write_moment();
            proof {
                let m = self.partitions.partitions@;
                assert forall|i: int, j: int| 0 <= i < j < result@.len() implies crate::key_order::bytes_less(
                    #[trigger] result@[i].0,
                    #[trigger] result@[j].0,
                ) by {
                    assert(result@[i].0 == m[i].0 && result@[j].0 == m[j].0);
                }
                assert forall|j: int| 0 <= j < result@.len() implies crate::key_order::bytes_less(
                    #[trigger] result@[j].0,
                    encode_utf8(key@),
                ) by {
                    assert(result@[j].0 == m[j].0);
                    assert(crate::key_order::bytes_less(m[j].0, m[at as int].0));
                }
                crate::ordered_map::lemma_rank_is(result@, encode_utf8(key@), at as int);
                assert(wanted.take(at + 1) =~= wanted.take(at as int).insert(
                    at as int,
                    (encode_utf8(key@), moment),
                ));
            }
            result.insert(key, moment);
            at = at + 1;
        }
        assert(wanted.take(at as int) =~= wanted);
        proof {
            let m = self.partitions.partitions@;
            assert forall|i: int, j: int| 0 <= i < j < result@.len() implies crate::key_order::bytes_less(
                #[trigger] result@[i].0,
                #[trigger] result@[j].0,
            ) by {
                assert(result@[i].0 == m[i].0 && result@[j].0 == m[j].0);
            }
        }
        result
    }
}

} // verus!
