//! The aggregate a scan produces for one directory tree: totals across all
//! regular files, plus one bucket per configured age threshold.

use vstd::prelude::*;

use crate::entries::entries_map;
use crate::entries::find_age;
use crate::entries::lemma_entries_map;
use crate::entries::sorted_ages;
use crate::entries::upsert;
use crate::entries::ages_vec;

verus! {

/// Per-age counts as stored: bytes and files whose access (respectively
/// modification) time falls within the age's window.
#[derive(Clone, Copy, Debug, PartialEq, Eq, Structural)]
pub(crate) struct Count {
    pub accessed_bytes: u64,
    pub modified_bytes: u64,
    pub accessed_files: u64,
    pub modified_files: u64,
}

/// The mathematical content of one bucket.
#[verifier::ext_equal]
pub ghost struct CountView {
    pub accessed_bytes: int,
    pub modified_bytes: int,
    pub accessed_files: int,
    pub modified_files: int,
}

impl CountView {
    /// Field-wise sum.
    pub open spec fn plus(self, other: CountView) -> CountView {
        CountView {
            accessed_bytes: self.accessed_bytes + other.accessed_bytes,
            modified_bytes: self.modified_bytes + other.modified_bytes,
            accessed_files: self.accessed_files + other.accessed_files,
            modified_files: self.modified_files + other.modified_files,
        }
    }

    pub open spec fn zero() -> CountView {
        CountView { accessed_bytes: 0, modified_bytes: 0, accessed_files: 0, modified_files: 0 }
    }

    /// Every field fits an unsigned 64-bit value.
    pub open spec fn fits(self) -> bool {
        &&& 0 <= self.accessed_bytes <= u64::MAX
        &&& 0 <= self.modified_bytes <= u64::MAX
        &&& 0 <= self.accessed_files <= u64::MAX
        &&& 0 <= self.modified_files <= u64::MAX
    }

    /// Every field lies within the given totals.
    pub open spec fn within(self, total_bytes: int, total_files: int) -> bool {
        &&& 0 <= self.accessed_bytes <= total_bytes
        &&& 0 <= self.modified_bytes <= total_bytes
        &&& 0 <= self.accessed_files <= total_files
        &&& 0 <= self.modified_files <= total_files
    }
}

pub(crate) open spec fn count_view(c: Count) -> CountView {
    CountView {
        accessed_bytes: c.accessed_bytes as int,
        modified_bytes: c.modified_bytes as int,
        accessed_files: c.accessed_files as int,
        modified_files: c.modified_files as int,
    }
}

/// The mathematical content of an aggregate: the totals and, per configured
/// age, that age's bucket. Bucket storage order does not show here.
#[verifier::ext_equal]
pub ghost struct AggView {
    pub total_bytes: int,
    pub total_files: int,
    pub buckets: Map<u64, CountView>,
}

/// Field-wise sum of the buckets present in either operand.
pub open spec fn merge_buckets(m1: Map<u64, CountView>, m2: Map<u64, CountView>) -> Map<
    u64,
    CountView,
> {
    Map::new(
        |k: u64| m1.dom().contains(k) || m2.dom().contains(k),
        |k: u64|
            if m1.dom().contains(k) && m2.dom().contains(k) {
                m1[k].plus(m2[k])
            } else if m1.dom().contains(k) {
                m1[k]
            } else {
                m2[k]
            },
    )
}

impl AggView {
    /// Merging adds the totals and each bucket present in either operand.
    pub open spec fn merge(self, other: AggView) -> AggView {
        AggView {
            total_bytes: self.total_bytes + other.total_bytes,
            total_files: self.total_files + other.total_files,
            buckets: merge_buckets(self.buckets, other.buckets),
        }
    }

    /// Every bucket stays within the totals.
    pub open spec fn bounded(self) -> bool {
        &&& 0 <= self.total_bytes
        &&& 0 <= self.total_files
        &&& forall|k: u64|
            self.buckets.dom().contains(k) ==> (#[trigger] self.buckets[k]).within(
                self.total_bytes,
                self.total_files,
            )
    }
}

/// Whether two aggregates can be merged without any sum leaving the
/// unsigned 64-bit range.
pub open spec fn can_merge(a: AggView, b: AggView) -> bool {
    &&& a.total_bytes + b.total_bytes <= u64::MAX
    &&& a.total_files + b.total_files <= u64::MAX
    &&& forall|k: u64|
        a.buckets.dom().contains(k) && b.buckets.dom().contains(k) ==> ((
        #[trigger] a.buckets[k]).plus(b.buckets[k])).fits()
}

pub(crate) open spec fn views_of(m: Map<u64, Count>) -> Map<u64, CountView> {
    m.map_values(|c: Count| count_view(c))
}

/// Seeding writes a zero bucket for each listed age, left to right.
pub open spec fn seed_ages(m: Map<u64, CountView>, ages: Seq<u64>) -> Map<u64, CountView>
    decreases ages.len(),
{
    if ages.len() == 0 {
        m
    } else {
        seed_ages(m, ages.drop_last()).insert(ages.last(), CountView::zero())
    }
}

/// What seeding holds: the listed ages at zero, everything else untouched.
pub proof fn lemma_seed_ages(m: Map<u64, CountView>, ages: Seq<u64>)
    ensures
        forall|k: u64|
            #[trigger] seed_ages(m, ages).dom().contains(k) <==> (m.dom().contains(k)
                || ages.contains(k)),
        forall|k: u64|
            ages.contains(k) ==> #[trigger] seed_ages(m, ages)[k] == CountView::zero(),
        forall|k: u64|
            m.dom().contains(k) && !ages.contains(k) ==> #[trigger] seed_ages(m, ages)[k] == m[k],
    decreases ages.len(),
{
    if ages.len() > 0 {
        let t = ages.drop_last();
        lemma_seed_ages(m, t);
        assert(seed_ages(m, ages) == seed_ages(m, t).insert(ages.last(), CountView::zero()));
        assert forall|k: u64| t.contains(k) implies ages.contains(k) by {
            let i = choose|i: int| 0 <= i < t.len() && t[i] == k;
            assert(ages[i] == k);
        }
        assert forall|k: u64| ages.contains(k) implies #[trigger] seed_ages(m, ages)[k]
            == CountView::zero() by {
            if k != ages.last() {
                let i = choose|i: int| 0 <= i < ages.len() && ages[i] == k;
                assert(t[i] == k);
                assert(t.contains(k));
            }
        }
        assert forall|k: u64| #[trigger] seed_ages(m, ages).dom().contains(k) implies (
        m.dom().contains(k) || ages.contains(k)) by {
            if k == ages.last() {
                assert(ages[ages.len() - 1] == k);
            }
        }
        assert forall|k: u64| m.dom().contains(k) || ages.contains(k) implies #[trigger]
            seed_ages(m, ages).dom().contains(k) by {
            if ages.contains(k) && k != ages.last() {
                let i = choose|i: int| 0 <= i < ages.len() && ages[i] == k;
                assert(t[i] == k);
                assert(t.contains(k));
            }
        }
        assert(forall|k: u64|
            m.dom().contains(k) && !ages.contains(k) ==> !t.contains(k) && k != ages.last());
    }
}

/// The aggregate for one scanned directory tree.
#[derive(Debug)]
pub struct Data {
    total_bytes: u64,
    total_files: u64,
    entries: Vec<(u64, Count)>,
}

impl View for Data {
    type V = AggView;

    closed spec fn view(&self) -> AggView {
        AggView {
            total_bytes: self.total_bytes as int,
            total_files: self.total_files as int,
            buckets: views_of(entries_map(self.entries@)),
        }
    }
}

impl Data {
    /// Bucket storage is kept strictly age-sorted.
    pub closed spec fn wf(self) -> bool {
        sorted_ages(self.entries@)
    }
}

/// Mapping buckets to their views commutes with writing one bucket.
proof fn lemma_views_insert(m: Map<u64, Count>, k: u64, c: Count)
    ensures
        views_of(m.insert(k, c)) == views_of(m).insert(k, count_view(c)),
{
    assert(views_of(m.insert(k, c)) =~= views_of(m).insert(k, count_view(c)));
}

impl Data {
    /// Seeds a zero bucket for every given age, so that lookups by a
    /// configured age never come back empty.
    #[must_use]
    pub fn with_ages(self, ages: &[u64]) -> (r: Data)
        requires
            self.wf(),
        ensures
            r.wf(),
            r@.total_bytes == self@.total_bytes,
            r@.total_files == self@.total_files,
            r@.buckets == seed_ages(self@.buckets, ages@),
    {
        let mut this = self;
        let ghost a0 = this@;
        let ghost m0 = this@.buckets;
        let n = ages.len();
        let mut i: usize = 0;
        while i < n
            invariant
                0 <= i <= n == ages@.len(),
                this.wf(),
                this@.total_bytes == a0.total_bytes,
                this@.total_files == a0.total_files,
                this@.buckets == seed_ages(m0, ages@.take(i as int)),
            decreases n - i,
        {
            let age = ages[i];
            let zero = Count { accessed_bytes: 0, modified_bytes: 0, accessed_files: 0, modified_files: 0 };
            proof {
                lemma_views_insert(entries_map(this.entries@), age, zero);
                assert(ages@.take(i + 1).drop_last() =~= ages@.take(i as int));
                assert(ages@.take(i + 1).last() == ages@[i as int]);
            }
            upsert(&mut this.entries, age, zero);
            i = i + 1;
        }
        proof {
            assert(ages@.take(n as int) =~= ages@);
        }
        this
    }

    /// Sets the total size in bytes.
    #[must_use]
    pub fn with_total_bytes(self, bytes: u64) -> (r: Data)
        ensures
            r.wf() == self.wf(),
            r@.total_bytes == bytes as int,
            r@.total_files == self@.total_files,
            r@.buckets == self@.buckets,
    {
        let mut this = self;
        this.total_bytes = bytes;
        this
    }

    /// Sets the total number of files.
    #[must_use]
    pub fn with_total_files(self, files: u64) -> (r: Data)
        ensures
            r.wf() == self.wf(),
            r@.total_bytes == self@.total_bytes,
            r@.total_files == files as int,
            r@.buckets == self@.buckets,
    {
        let mut this = self;
        this.total_files = files;
        this
    }

    /// The bytes accessed within the age's window, if the age has a bucket.
    #[must_use]
    pub fn get_accessed_bytes(&self, age: u64) -> (r: Option<u64>)
        requires
            self.wf(),
        ensures
            r matches Some(v) ==> self@.buckets.dom().contains(age) && v as int
                == self@.buckets[age].accessed_bytes,
            r is None ==> !self@.buckets.dom().contains(age),
    {
        match find_age(&self.entries, age) {
            Some(c) => Some(c.accessed_bytes),
            None => None,
        }
    }

    /// The bytes modified within the age's window, if the age has a bucket.
    #[must_use]
    pub fn get_modified_bytes(&self, age: u64) -> (r: Option<u64>)
        requires
            self.wf(),
        ensures
            r matches Some(v) ==> self@.buckets.dom().contains(age) && v as int
                == self@.buckets[age].modified_bytes,
            r is None ==> !self@.buckets.dom().contains(age),
    {
        match find_age(&self.entries, age) {
            Some(c) => Some(c.modified_bytes),
            None => None,
        }
    }

    /// The files accessed within the age's window, if the age has a bucket.
    #[must_use]
    pub fn get_accessed_files(&self, age: u64) -> (r: Option<u64>)
        requires
            self.wf(),
        ensures
            r matches Some(v) ==> self@.buckets.dom().contains(age) && v as int
                == self@.buckets[age].accessed_files,
            r is None ==> !self@.buckets.dom().contains(age),
    {
        match find_age(&self.entries, age) {
            Some(c) => Some(c.accessed_files),
            None => None,
        }
    }

    /// The files modified within the age's window, if the age has a bucket.
    #[must_use]
    pub fn get_modified_files(&self, age: u64) -> (r: Option<u64>)
        requires
            self.wf(),
        ensures
            r matches Some(v) ==> self@.buckets.dom().contains(age) && v as int
                == self@.buckets[age].modified_files,
            r is None ==> !self@.buckets.dom().contains(age),
    {
        match find_age(&self.entries, age) {
            Some(c) => Some(c.modified_files),
            None => None,
        }
    }

    /// The total size in bytes across all visited files.
    #[must_use]
    pub fn get_total_bytes(&self) -> (r: u64)
        ensures
            r as int == self@.total_bytes,
    {
        self.total_bytes
    }

    /// The total number of visited files.
    #[must_use]
    pub fn get_total_files(&self) -> (r: u64)
        ensures
            r as int == self@.total_files,
    {
        self.total_files
    }

    /// The bucketed ages, sorted ascending.
    #[must_use]
    pub fn get_ages(&self) -> (r: Vec<u64>)
        requires
            self.wf(),
        ensures
            forall|i: int, j: int| 0 <= i < j < r@.len() ==> r@[i] < r@[j],
            forall|k: u64| r@.contains(k) <==> self@.buckets.dom().contains(k),
    {
        proof {
            lemma_entries_map(self.entries@);
        }
        let r = ages_vec(&self.entries);
        proof {
            assert forall|k: u64| r@.contains(k) implies self@.buckets.dom().contains(k) by {
                let i = choose|i: int| 0 <= i < r@.len() && r@[i] == k;
                assert(self.entries@[i].0 == k);
            }
            assert forall|k: u64| self@.buckets.dom().contains(k) implies r@.contains(k) by {
                assert(entries_map(self.entries@).dom().contains(k));
                let i = choose|i: int|
                    0 <= i < self.entries@.len() && (#[trigger] self.entries@[i]).0 == k;
                assert(r@[i] == k);
            }
        }
        r
    }

    /// Writes one age's bucket, replacing any bucket the age already had.
    pub fn insert(
        &mut self,
        age: u64,
        accessed_bytes: u64,
        modified_bytes: u64,
        accessed_files: u64,
        modified_files: u64,
    )
        requires
            old(self).wf(),
        ensures
            final(self).wf(),
            final(self)@.total_bytes == old(self)@.total_bytes,
            final(self)@.total_files == old(self)@.total_files,
            final(self)@.buckets == old(self)@.buckets.insert(
                age,
                CountView {
                    accessed_bytes: accessed_bytes as int,
                    modified_bytes: modified_bytes as int,
                    accessed_files: accessed_files as int,
                    modified_files: modified_files as int,
                },
            ),
    {
        let c = Count { accessed_bytes, modified_bytes, accessed_files, modified_files };
        proof {
            lemma_views_insert(entries_map(self.entries@), age, c);
        }
        upsert(&mut self.entries, age, c);
    }
}

impl Count {
    /// Field-wise sum of two stored buckets.
    fn plus(self, other: Count) -> (r: Count)
        requires
            (count_view(self).plus(count_view(other))).fits(),
        ensures
            count_view(r) == count_view(self).plus(count_view(other)),
    {
        Count {
            accessed_bytes: self.accessed_bytes + other.accessed_bytes,
            modified_bytes: self.modified_bytes + other.modified_bytes,
            accessed_files: self.accessed_files + other.accessed_files,
            modified_files: self.modified_files + other.modified_files,
        }
    }
}

/// One merge step per pair of the right operand, left to right: each pair's
/// bucket is added onto the bucket its age already has, if any.
spec fn merge_steps(m: Map<u64, CountView>, s: Seq<(u64, Count)>) -> Map<u64, CountView>
    decreases s.len(),
{
    if s.len() == 0 {
        m
    } else {
        let t = merge_steps(m, s.drop_last());
        let k = s.last().0;
        let cv = count_view(s.last().1);
        t.insert(
            k,
            if t.dom().contains(k) {
                t[k].plus(cv)
            } else {
                cv
            },
        )
    }
}

/// Ages not listed in the steps are left untouched.
proof fn lemma_merge_steps_frame(m: Map<u64, CountView>, s: Seq<(u64, Count)>, k: u64)
    requires
        forall|i: int| 0 <= i < s.len() ==> (#[trigger] s[i]).0 != k,
    ensures
        merge_steps(m, s).dom().contains(k) == m.dom().contains(k),
        m.dom().contains(k) ==> merge_steps(m, s)[k] == m[k],
    decreases s.len(),
{
    if s.len() > 0 {
        let t = s.drop_last();
        assert(forall|i: int| 0 <= i < t.len() ==> t[i] == #[trigger] s[i]);
        lemma_merge_steps_frame(m, t, k);
        assert(s[s.len() - 1].0 != k);
    }
}

/// Stepping through a whole sorted pair list is merging with its map.
proof fn lemma_merge_steps_is_merge(m: Map<u64, CountView>, s: Seq<(u64, Count)>)
    requires
        sorted_ages(s),
    ensures
        merge_steps(m, s) == merge_buckets(m, views_of(entries_map(s))),
    decreases s.len(),
{
    if s.len() == 0 {
        assert(views_of(entries_map(s)) =~= Map::<u64, CountView>::empty());
        assert(merge_steps(m, s) =~= merge_buckets(m, views_of(entries_map(s))));
    } else {
        let t = s.drop_last();
        assert(forall|i: int| 0 <= i < t.len() ==> t[i] == #[trigger] s[i]);
        assert(sorted_ages(t));
        lemma_merge_steps_is_merge(m, t);
        let k = s.last().0;
        let cv = count_view(s.last().1);
        lemma_entries_map(t);
        assert(forall|i: int| 0 <= i < t.len() ==> (#[trigger] t[i]).0 != k);
        assert(!entries_map(t).dom().contains(k));
        lemma_merge_steps_frame(m, t, k);
        assert(entries_map(s) == entries_map(t).insert(k, s.last().1));
        lemma_views_insert(entries_map(t), k, s.last().1);
        assert(merge_steps(m, s) =~= merge_buckets(m, views_of(entries_map(s))));
    }
}

impl Data {
    /// Merges another aggregate into this one: totals add, and each bucket
    /// present in either operand adds field-wise.
    pub fn merge(&mut self, other: &Data)
        requires
            old(self).wf(),
            other.wf(),
            can_merge(old(self)@, other@),
        ensures
            final(self).wf(),
            final(self)@ == old(self)@.merge(other@),
    {
        proof {
            lemma_entries_map(other.entries@);
        }
        let ghost m0 = old(self)@.buckets;
        let ghost os = other.entries@;
        let n = other.entries.len();
        let mut j: usize = 0;
        while j < n
            invariant
                0 <= j <= n == os.len(),
                m0 == old(self)@.buckets,
                other.entries@ == os,
                sorted_ages(os),
                self.wf(),
                self@.total_bytes == old(self)@.total_bytes,
                self@.total_files == old(self)@.total_files,
                self@.buckets == merge_steps(m0, os.take(j as int)),
                can_merge(old(self)@, other@),
                other@.buckets == views_of(entries_map(os)),
                forall|i: int|
                    0 <= i < os.len() ==> other@.buckets.dom().contains((#[trigger] os[i]).0)
                        && other@.buckets[os[i].0] == count_view(os[i].1),
            decreases n - j,
        {
            let (age, cnt) = other.entries[j];
            proof {
                assert(forall|i: int| 0 <= i < j ==> (#[trigger] os.take(j as int)[i]).0 != age);
                lemma_merge_steps_frame(m0, os.take(j as int), age);
                assert(os.take(j + 1).drop_last() =~= os.take(j as int));
                assert(os.take(j + 1).last() == os[j as int]);
            }
            let found = find_age(&self.entries, age);
            proof {
                if found is Some {
                    assert(self@.buckets.dom().contains(age));
                    assert(count_view(found->Some_0) == self@.buckets[age]);
                    assert(os[j as int].0 == age && count_view(os[j as int].1) == count_view(cnt));
                    assert(other@.buckets.dom().contains(age));
                    assert(count_view(cnt) == other@.buckets[age]);
                    assert(old(self)@.buckets.dom().contains(age));
                    assert((old(self)@.buckets[age].plus(other@.buckets[age])).fits());
                    assert(self@.buckets[age] == old(self)@.buckets[age]);
                }
            }
            let merged = match found {
                Some(c) => c.plus(cnt),
                None => cnt,
            };
            proof {
                lemma_views_insert(entries_map(self.entries@), age, merged);
            }
            upsert(&mut self.entries, age, merged);
            j = j + 1;
        }
        proof {
            assert(os.take(n as int) =~= os);
            lemma_merge_steps_is_merge(m0, os);
        }
        self.total_bytes = self.total_bytes + other.total_bytes;
        self.total_files = self.total_files + other.total_files;
        proof {
            assert(self@ =~= old(self)@.merge(other@));
        }
    }
}

/// Merging is commutative: the two operands' buckets and totals add the
/// same either way around.
pub proof fn lemma_merge_commutative(a: AggView, b: AggView)
    ensures
        a.merge(b) == b.merge(a),
{
    assert(merge_buckets(a.buckets, b.buckets) =~= merge_buckets(b.buckets, a.buckets));
    assert(a.merge(b) =~= b.merge(a));
}

/// Merging is associative: grouping does not change the merged aggregate.
pub proof fn lemma_merge_associative(a: AggView, b: AggView, c: AggView)
    ensures
        a.merge(b).merge(c) == a.merge(b.merge(c)),
{
    assert(merge_buckets(merge_buckets(a.buckets, b.buckets), c.buckets) =~= merge_buckets(
        a.buckets,
        merge_buckets(b.buckets, c.buckets),
    ));
    assert(a.merge(b).merge(c) =~= a.merge(b.merge(c)));
}

/// An all-zero aggregate whose ages the other operand already has is a
/// merge identity.
pub proof fn lemma_merge_zero(a: AggView, z: AggView)
    requires
        z.total_bytes == 0,
        z.total_files == 0,
        forall|k: u64| #[trigger] z.buckets.dom().contains(k) ==> a.buckets.dom().contains(k),
        forall|k: u64| #[trigger] z.buckets.dom().contains(k) ==> z.buckets[k] == CountView::zero(),
    ensures
        a.merge(z) == a,
        z.merge(a) == a,
{
    assert(merge_buckets(a.buckets, z.buckets) =~= a.buckets);
    assert(a.merge(z) =~= a);
    lemma_merge_commutative(a, z);
}

/// Merging keeps every bucket within the merged totals.
pub proof fn lemma_merge_bounded(a: AggView, b: AggView)
    requires
        a.bounded(),
        b.bounded(),
    ensures
        a.merge(b).bounded(),
{
}

/// Two bounded aggregates whose merged totals fit can be merged with no
/// bucket sum leaving the unsigned 64-bit range.
pub proof fn lemma_bounded_can_merge(a: AggView, b: AggView)
    requires
        a.bounded(),
        b.bounded(),
        a.total_bytes + b.total_bytes <= u64::MAX,
        a.total_files + b.total_files <= u64::MAX,
    ensures
        can_merge(a, b),
{
}

impl Default for Data {
    /// An aggregate with zero totals and no buckets.
    fn default() -> (r: Data)
        ensures
            r.wf(),
            r@.total_bytes == 0,
            r@.total_files == 0,
            r@.buckets == Map::<u64, CountView>::empty(),
    {
        let r = Data { total_bytes: 0, total_files: 0, entries: Vec::new() };
        proof {
            assert(r@.buckets =~= Map::<u64, CountView>::empty());
        }
        r
    }
}

} // verus!
