//! A reduced aggregate that tracks bytes only: a total plus, per age,
//! accessed and modified byte counts.

use vstd::prelude::*;

use crate::entries::entries_map;
use crate::entries::find_age;
use crate::entries::lemma_entries_map;
use crate::entries::sorted_ages;
use crate::entries::upsert;
use crate::entries::ages_vec;

verus! {

/// One age's accessed and modified byte counts.
#[derive(Debug, Default, Clone, Copy, PartialEq, Eq, Structural)]
struct AccInternal {
    accessed: u64,
    modified: u64,
}

/// The mathematical content of a byte-only aggregate: the total and, per
/// age, the accessed and modified bytes.
#[verifier::ext_equal]
pub ghost struct AccView {
    pub total: int,
    pub buckets: Map<u64, (int, int)>,
}

/// The byte-only aggregate.
#[derive(Debug)]
pub struct Acc {
    total: u64,
    entries: Vec<(u64, AccInternal)>,
}

impl View for Acc {
    type V = AccView;

    closed spec fn view(&self) -> AccView {
        AccView {
            total: self.total as int,
            buckets: entries_map(self.entries@).map_values(
                |c: AccInternal| (c.accessed as int, c.modified as int),
            ),
        }
    }
}

impl Acc {
    /// Bucket storage is kept strictly age-sorted.
    pub closed spec fn wf(self) -> bool {
        sorted_ages(self.entries@)
    }

    /// An aggregate with a zero total and no buckets.
    pub fn new() -> (r: Acc)
        ensures
            r.wf(),
            r@.total == 0,
            r@.buckets == Map::<u64, (int, int)>::empty(),
    {
        let r = Acc { total: 0, entries: Vec::new() };
        proof {
            assert(r@.buckets =~= Map::<u64, (int, int)>::empty());
        }
        r
    }

    /// Sets the total size in bytes.
    #[must_use]
    pub fn with_total(self, total: u64) -> (r: Acc)
        ensures
            r.wf() == self.wf(),
            r@.total == total as int,
            r@.buckets == self@.buckets,
    {
        let mut this = self;
        this.total = total;
        this
    }

    /// The bytes accessed within the age's window, if the age has a bucket.
    #[must_use]
    pub fn get_accessed_bytes(&self, age: u64) -> (r: Option<u64>)
        requires
            self.wf(),
        ensures
            r matches Some(v) ==> self@.buckets.dom().contains(age) && v as int
                == self@.buckets[age].0,
            r is None ==> !self@.buckets.dom().contains(age),
    {
        match find_age(&self.entries, age) {
            Some(c) => Some(c.accessed),
            None => None,
        }
    }

    /// The bytes modified within the age's window, if the age has a bucket.
    #[must_use]
    pub fn get_modified_bytes(&self, age: u64) -> (r: Option<u64>)
        requires
            self.wf(),
        ensures
            r matches Some(v) ==> self@.buckets.dom().contains(age) && v as int
                == self@.buckets[age].1,
            r is None ==> !self@.buckets.dom().contains(age),
    {
        match find_age(&self.entries, age) {
            Some(c) => Some(c.modified),
            None => None,
        }
    }

    /// The total size in bytes.
    #[must_use]
    pub fn get_total_bytes(&self) -> (r: u64)
        ensures
            r as int == self@.total,
    {
        self.total
    }

    /// The bucketed ages, sorted ascending.
    #[must_use]
    pub fn get_ages(&self) -> (r: Vec<u64>)
        requires
            self.wf(),
        ensures
            forall|i: int, j: int| 0 <= i < j < r@.len() ==> r@[i] < r@[j],
            forall|k: u64| r@.contains(k) <==> self@.buckets.dom().contains(k),
    {
        proof {
            lemma_entries_map(self.entries@);
        }
        let r = ages_vec(&self.entries);
        proof {
            assert forall|k: u64| r@.contains(k) implies self@.buckets.dom().contains(k) by {
                let i = choose|i: int| 0 <= i < r@.len() && r@[i] == k;
                assert(self.entries@[i].0 == k);
            }
            assert forall|k: u64| self@.buckets.dom().contains(k) implies r@.contains(k) by {
                assert(entries_map(self.entries@).dom().contains(k));
                let i = choose|i: int|
                    0 <= i < self.entries@.len() && (#[trigger] self.entries@[i]).0 == k;
                assert(r@[i] == k);
            }
        }
        r
    }

    /// Writes one age's bucket, replacing any bucket the age already had.
    pub fn insert(&mut self, age: u64, accessed: u64, modified: u64)
        requires
            old(self).wf(),
        ensures
            final(self).wf(),
            final(self)@.total == old(self)@.total,
            final(self)@.buckets == old(self)@.buckets.insert(
                age,
                (accessed as int, modified as int),
            ),
    {
        let c = AccInternal { accessed, modified };
        proof {
            let m = entries_map(self.entries@);
            assert(m.insert(age, c).map_values(
                |x: AccInternal| (x.accessed as int, x.modified as int),
            ) =~= m.map_values(|x: AccInternal| (x.accessed as int, x.modified as int)).insert(
                age,
                (accessed as int, modified as int),
            ));
        }
        upsert(&mut self.entries, age, c);
    }
}

impl Default for Acc {
    /// The same zero aggregate as `new`.
    fn default() -> (r: Acc)
        ensures
            r.wf(),
            r@.total == 0,
            r@.buckets == Map::<u64, (int, int)>::empty(),
    {
        Acc::new()
    }
}

} // verus!
