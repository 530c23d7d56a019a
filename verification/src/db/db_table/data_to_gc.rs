use vstd::prelude::*;
use vstd::string::StringSliceAdditionalSpecFns;
use crate::ordered_map::{has_key, is_sorted, lemma_put, lemma_rank, put, value_at, OrderedMap};

verus! {

/// What is to be collected: the keys of whole partitions, and for other
/// partitions the keys of rows.
pub struct DataToGceInner {
    pub partitions: OrderedMap<()>,
    pub db_rows: OrderedMap<Vec<String>>,
}

/// What is to be collected, if anything. It holds nothing until something
/// is put in.
pub struct DataToGc {
    pub inner: Option<DataToGceInner>,
}

impl DataToGceInner {
    pub open spec fn wf(&self) -> bool {
        is_sorted(self.partitions@) && is_sorted(self.db_rows@)
    }
}

impl DataToGc {
    pub open spec fn wf(&self) -> bool {
        self.inner matches Some(inner) ==> inner.wf()
    }

    /// Whether the whole partition of that key is to go.
    pub open spec fn has_partition(&self, key: Seq<u8>) -> bool {
        self.inner matches Some(inner) && has_key(inner.partitions@, key)
    }

    /// The keys of the rows of that partition that are to go.
    pub open spec fn rows_of(&self, key: Seq<u8>) -> Option<Seq<String>> {
        match self.inner {
            Some(inner) => match value_at(inner.db_rows@, key) {
                Some(rows) => Some(rows@),
                None => None,
            },
            None => None,
        }
    }

    /// The keys of partitions, where anything was put in.
    pub open spec fn partitions(&self) -> Seq<(Seq<u8>, ())> {
        match self.inner {
            Some(inner) => inner.partitions@,
            None => Seq::empty(),
        }
    }

    /// The keys of rows by partition, where anything was put in.
    pub open spec fn db_rows(&self) -> Seq<(Seq<u8>, Vec<String>)> {
        match self.inner {
            Some(inner) => inner.db_rows@,
            None => Seq::empty(),
        }
    }

    pub fn new() -> (r: Self)
        ensures
            r.wf(),
            r.inner is None,
    {
        DataToGc { inner: None }
    }

    /// Makes room for what is put in.
    fn get_inner(&mut self) -> (r: &mut DataToGceInner)
        requires
            old(self).wf(),
        ensures
            r.wf(),
            r.partitions@ == old(self).partitions(),
            r.db_rows@ == old(self).db_rows(),
            final(self).inner == Some(*final(r)),
    {
        if self.inner.is_none() {
            self.inner = Some(
                DataToGceInner { partitions: OrderedMap::new(), db_rows: OrderedMap::new() },
            );
        }
        self.inner.as_mut().unwrap()
    }

    /// Notes that the whole partition is to go.
    pub fn add_partition_to_expire(&mut self, partition_key: &str)
        requires
            old(self).wf(),
        ensures
            final(self).wf(),
            final(self).inner is Some,
            final(self).partitions() == put(
                old(self).partitions(),
                partition_key.spec_bytes(),
                (),
            ),
            final(self).db_rows() == old(self).db_rows(),
    {
        let inner = self.get_inner();
        if inner.partitions.contains_key(partition_key) {
            proof {
                lemma_rank(inner.partitions@, partition_key.spec_bytes());
                assert(inner.partitions@ =~= put(
                    inner.partitions@,
                    partition_key.spec_bytes(),
                    (),
                ));
            }
            return ;
        }
        inner.partitions.insert(partition_key.to_owned(), ());
    }

    /// Notes that the rows of the partition are to go, behind those noted
    /// before. Nothing is noted where the whole partition is to go.
    pub fn add_rows_to_expire(&mut self, partition_key: &str, rows: Vec<String>)
        requires
            old(self).wf(),
        ensures
            final(self).wf(),
            final(self).inner is Some,
            final(self).partitions() == old(self).partitions(),
            old(self).has_partition(partition_key.spec_bytes()) ==> final(self).db_rows() == old(
                self,
            ).db_rows(),
            !old(self).has_partition(partition_key.spec_bytes()) ==> {
                &&& final(self).rows_of(partition_key.spec_bytes()) == Some(
                    match old(self).rows_of(partition_key.spec_bytes()) {
                        Some(before) => before + rows@,
                        None => rows@,
                    },
                )
                &&& value_at(final(self).db_rows(), partition_key.spec_bytes()) matches Some(list)
                    && final(self).db_rows() == put(
                    old(self).db_rows(),
                    partition_key.spec_bytes(),
                    list,
                )
            },
    {
        let mut rows = rows;
        let inner = self.get_inner();
        if inner.partitions.contains_key(partition_key) {
            return ;
        }
        let (at, found) = inner.db_rows.find(partition_key);
        if !found {
            proof {
                lemma_put(inner.db_rows@, partition_key.spec_bytes(), rows);
            }
            inner.db_rows.insert(partition_key.to_owned(), rows);
            return ;
        }
        let ghost before = inner.db_rows@;
        let list = inner.db_rows.value_mut(at);
        list.append(&mut rows);
        proof {
            lemma_rank(before, partition_key.spec_bytes());
            lemma_put(before, partition_key.spec_bytes(), *list);
        }
    }

    pub fn has_partition_to_gc(&self, partition_key: &str) -> (r: bool)
        requires
            self.wf(),
        ensures
            r == self.has_partition(partition_key.spec_bytes()),
    {
        match &self.inner {
            Some(inner) => inner.partitions.contains_key(partition_key),
            None => false,
        }
    }

    pub fn has_data_to_gc(&self) -> (r: bool)
        ensures
            r == self.inner.is_some(),
    {
        self.inner.is_some()
    }

    pub fn get_partitions_to_gc(&self) -> (r: Option<&OrderedMap<()>>)
        ensures
            match r {
                Some(partitions) => self.inner matches Some(inner) && *partitions
                    == inner.partitions,
                None => self.inner is None,
            },
    {
        match &self.inner {
            Some(inner) => Some(&inner.partitions),
            None => None,
        }
    }

    pub fn get_rows_to_gc(&self) -> (r: Option<&OrderedMap<Vec<String>>>)
        ensures
            match r {
                Some(db_rows) => self.inner matches Some(inner) && *db_rows == inner.db_rows,
                None => self.inner is None,
            },
    {
        match &self.inner {
            Some(inner) => Some(&inner.db_rows),
            None => None,
        }
    }

    pub fn get_data_to_gc(self) -> (r: Option<DataToGceInner>)
        ensures
            r == self.inner,
    {
        self.inner
    }
}

} // verus!
