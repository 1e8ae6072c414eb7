//! The local walker: computes the aggregate of a directory tree from plain
//! per-entry metadata, depth first. The caller lists directories and reads
//! metadata; everything it observes is handed over as an `FsTree`, and the
//! aggregate is computed and proved here.

use vstd::prelude::*;

use crate::data::AggView;
use crate::data::CountView;
use crate::data::Data;
use crate::data::lemma_bounded_can_merge;
use crate::data::lemma_merge_associative;
use crate::data::lemma_merge_bounded;
use crate::data::lemma_merge_zero;
use crate::data::lemma_seed_ages;
use crate::data::seed_ages;
use crate::error::Error;
use crate::error::ErrorKind;

verus! {

/// One age threshold converted, at scan start, to an absolute cutoff in
/// seconds since the epoch: a timestamp after the cutoff is within the
/// window.
#[derive(Clone, Copy, Debug, PartialEq, Eq, Structural)]
pub struct Threshold {
    pub age: u64,
    pub cutoff: u64,
}

/// The cutoff for an age: `now` minus the age in seconds, clamped at the
/// epoch.
pub open spec fn spec_cutoff(now: u64, age: u64) -> u64 {
    if age * 86400 <= now {
        (now - age * 86400) as u64
    } else {
        0
    }
}

/// Converts each age once to its cutoff instant.
pub fn thresholds(ages_in_days: &[u64], now: u64) -> (r: Vec<Threshold>)
    requires
        forall|i: int|
            0 <= i < ages_in_days@.len() ==> (#[trigger] ages_in_days@[i]) <= u64::MAX / 86400,
    ensures
        r@.len() == ages_in_days@.len(),
        forall|i: int|
            0 <= i < r@.len() ==> (#[trigger] r@[i]).age == ages_in_days@[i] && r@[i].cutoff
                == spec_cutoff(now, ages_in_days@[i]),
{
    let n = ages_in_days.len();
    let mut r: Vec<Threshold> = Vec::new();
    let mut i: usize = 0;
    while i < n
        invariant
            0 <= i <= n == ages_in_days@.len(),
            forall|j: int|
                0 <= j < ages_in_days@.len() ==> (#[trigger] ages_in_days@[j]) <= u64::MAX / 86400,
            r@.len() == i,
            forall|j: int|
                0 <= j < i ==> (#[trigger] r@[j]).age == ages_in_days@[j] && r@[j].cutoff
                    == spec_cutoff(now, ages_in_days@[j]),
        decreases n - i,
    {
        let age = ages_in_days[i];
        let secs = age * 86400;
        let cutoff = if secs <= now {
            now - secs
        } else {
            0
        };
        r.push(Threshold { age, cutoff });
        i = i + 1;
    }
    r
}

/// One node of a directory tree as the caller observed it, with everything
/// the walk needs held as plain values.
pub enum FsTree {
    /// A regular file: its length in bytes, last access and last
    /// modification times in seconds since the epoch, and its device.
    File { bytes: u64, accessed: u64, modified: u64, dev: u64 },
    /// A directory whose listing succeeded.
    Dir { entries: Vec<FsTree>, dev: u64 },
    /// A directory whose listing failed with permission denied; benign.
    DeniedDir { dev: u64 },
    /// A directory whose listing failed any other way; fatal to the scan.
    FailedDir { dev: u64 },
    /// A symbolic link; skipped, never followed.
    Symlink,
    /// Neither a regular file, a directory nor a symbolic link.
    Other,
    /// An entry whose metadata could not be read; fatal to the scan.
    Unreadable,
}

/// Whether an entry on this device is skipped under `one_file_system`,
/// which fixes the root's device.
pub open spec fn skip_dev(dev: u64, root_dev: Option<u64>) -> bool {
    match root_dev {
        Some(d) => d != dev,
        None => false,
    }
}

/// The configured ages, as the thresholds list them.
pub open spec fn ages_of_thresholds(ths: Seq<Threshold>) -> Seq<u64> {
    ths.map_values(|t: Threshold| t.age)
}

/// The aggregate of an empty or skipped subtree: zero totals, every
/// configured age present at zero.
pub open spec fn zero_agg(ths: Seq<Threshold>) -> AggView {
    AggView {
        total_bytes: 0,
        total_files: 0,
        buckets: seed_ages(Map::empty(), ages_of_thresholds(ths)),
    }
}

/// One file's bucket for one threshold: the file counts in full wherever
/// its timestamp is after the cutoff.
pub open spec fn file_count(bytes: u64, accessed: u64, modified: u64, th: Threshold) -> CountView {
    CountView {
        accessed_bytes: if accessed > th.cutoff {
            bytes as int
        } else {
            0
        },
        modified_bytes: if modified > th.cutoff {
            bytes as int
        } else {
            0
        },
        accessed_files: if accessed > th.cutoff {
            1
        } else {
            0
        },
        modified_files: if modified > th.cutoff {
            1
        } else {
            0
        },
    }
}

pub open spec fn file_buckets(bytes: u64, accessed: u64, modified: u64, ths: Seq<Threshold>) -> Map<
    u64,
    CountView,
>
    decreases ths.len(),
{
    if ths.len() == 0 {
        Map::empty()
    } else {
        file_buckets(bytes, accessed, modified, ths.drop_last()).insert(
            ths.last().age,
            file_count(bytes, accessed, modified, ths.last()),
        )
    }
}

/// One regular file's whole aggregate.
pub open spec fn file_agg(bytes: u64, accessed: u64, modified: u64, ths: Seq<Threshold>) -> AggView {
    AggView {
        total_bytes: bytes as int,
        total_files: 1,
        buckets: file_buckets(bytes, accessed, modified, ths),
    }
}

/// What scanning one entry yields: `None` where the walk fails, otherwise
/// the entry's aggregate. A skipped entry (other device, link, special
/// file, permission-denied listing) yields the zero aggregate.
pub open spec fn spec_scan(t: FsTree, ths: Seq<Threshold>, root_dev: Option<u64>) -> Option<AggView>
    decreases t,
{
    match t {
        FsTree::File { bytes, accessed, modified, dev } => if skip_dev(dev, root_dev) {
            Some(zero_agg(ths))
        } else {
            Some(file_agg(bytes, accessed, modified, ths))
        },
        FsTree::Dir { entries, dev } => if skip_dev(dev, root_dev) {
            Some(zero_agg(ths))
        } else {
            spec_scan_seq(entries@, ths, root_dev)
        },
        FsTree::DeniedDir { dev } => Some(zero_agg(ths)),
        FsTree::FailedDir { dev } => if skip_dev(dev, root_dev) {
            Some(zero_agg(ths))
        } else {
            None
        },
        FsTree::Symlink => Some(zero_agg(ths)),
        FsTree::Other => Some(zero_agg(ths)),
        FsTree::Unreadable => None,
    }
}

/// What scanning a listing yields: the entries' aggregates merged, left to
/// right, onto the zero aggregate; `None` as soon as any entry fails.
pub open spec fn spec_scan_seq(es: Seq<FsTree>, ths: Seq<Threshold>, root_dev: Option<u64>) -> Option<
    AggView,
>
    decreases es,
{
    if es.len() == 0 {
        Some(zero_agg(ths))
    } else {
        match (spec_scan_seq(es.drop_last(), ths, root_dev), spec_scan(es.last(), ths, root_dev)) {
            (Some(m), Some(e)) => Some(m.merge(e)),
            _ => None,
        }
    }
}

/// Whether the buckets hold exactly the configured ages.
pub open spec fn dom_is_ages(m: AggView, ths: Seq<Threshold>) -> bool {
    forall|k: u64|
        #[trigger] m.buckets.dom().contains(k) <==> ages_of_thresholds(ths).contains(k)
}

proof fn lemma_zero_agg(ths: Seq<Threshold>)
    ensures
        dom_is_ages(zero_agg(ths), ths),
        zero_agg(ths).bounded(),
        forall|k: u64|
            #[trigger] zero_agg(ths).buckets.dom().contains(k) ==> zero_agg(ths).buckets[k]
                == CountView::zero(),
{
    lemma_seed_ages(Map::empty(), ages_of_thresholds(ths));
}

proof fn lemma_file_buckets(bytes: u64, accessed: u64, modified: u64, ths: Seq<Threshold>)
    ensures
        forall|k: u64|
            #[trigger] file_buckets(bytes, accessed, modified, ths).dom().contains(k) <==>
                ages_of_thresholds(ths).contains(k),
        forall|k: u64|
            #[trigger] file_buckets(bytes, accessed, modified, ths).dom().contains(k)
                ==> file_buckets(bytes, accessed, modified, ths)[k].within(bytes as int, 1),
    decreases ths.len(),
{
    let ages = ages_of_thresholds(ths);
    if ths.len() > 0 {
        let t = ths.drop_last();
        lemma_file_buckets(bytes, accessed, modified, t);
        let m = file_buckets(bytes, accessed, modified, ths);
        assert(forall|i: int| 0 <= i < t.len() ==> t[i] == #[trigger] ths[i]);
        let tages = ages_of_thresholds(t);
        assert(forall|i: int| 0 <= i < t.len() ==> #[trigger] tages[i] == t[i].age);
        assert(forall|i: int| 0 <= i < ths.len() ==> #[trigger] ages[i] == ths[i].age);
        assert forall|k: u64| #[trigger] m.dom().contains(k) implies ages.contains(k) by {
            if k == ths.last().age {
                assert(ages[ths.len() - 1] == k);
            } else {
                assert(file_buckets(bytes, accessed, modified, t).dom().contains(k));
                assert(tages.contains(k));
                let i = choose|i: int| 0 <= i < tages.len() && tages[i] == k;
                assert(ages[i] == k);
            }
        }
        assert(m == file_buckets(bytes, accessed, modified, t).insert(
            ths.last().age,
            file_count(bytes, accessed, modified, ths.last()),
        ));
        assert forall|k: u64| ages.contains(k) implies #[trigger] m.dom().contains(k) by {
            let i = choose|i: int| 0 <= i < ages.len() && ages[i] == k;
            if i < ths.len() - 1 {
                assert(tages[i] == k);
                assert(tages.contains(k));
                assert(file_buckets(bytes, accessed, modified, t).dom().contains(k));
            } else {
                assert(k == ths.last().age);
            }
        }
        assert forall|k: u64| #[trigger] m.dom().contains(k) implies m[k].within(
            bytes as int,
            1,
        ) by {
            if k != ths.last().age {
                assert(file_buckets(bytes, accessed, modified, t).dom().contains(k));
                assert(m[k] == file_buckets(bytes, accessed, modified, t)[k]);
            }
        }
    }
}

/// A single file's aggregate stays within its own totals.
proof fn lemma_file_agg(bytes: u64, accessed: u64, modified: u64, ths: Seq<Threshold>)
    ensures
        dom_is_ages(file_agg(bytes, accessed, modified, ths), ths),
        file_agg(bytes, accessed, modified, ths).bounded(),
{
    lemma_file_buckets(bytes, accessed, modified, ths);
}

/// Every successful scan keeps each bucket within the totals, and holds
/// exactly the configured ages.
pub proof fn lemma_scan_bounded(t: FsTree, ths: Seq<Threshold>, root_dev: Option<u64>)
    ensures
        spec_scan(t, ths, root_dev) matches Some(m) ==> m.bounded() && dom_is_ages(m, ths),
    decreases t,
{
    lemma_zero_agg(ths);
    match t {
        FsTree::File { bytes, accessed, modified, dev } => {
            lemma_file_agg(bytes, accessed, modified, ths);
        },
        FsTree::Dir { entries, dev } => {
            if !skip_dev(dev, root_dev) {
                lemma_scan_seq_bounded(entries@, ths, root_dev);
            }
        },
        _ => {},
    }
}

/// As `lemma_scan_bounded`, for a whole listing.
pub proof fn lemma_scan_seq_bounded(es: Seq<FsTree>, ths: Seq<Threshold>, root_dev: Option<u64>)
    ensures
        spec_scan_seq(es, ths, root_dev) matches Some(m) ==> m.bounded() && dom_is_ages(m, ths),
    decreases es,
{
    lemma_zero_agg(ths);
    if es.len() > 0 {
        lemma_scan_seq_bounded(es.drop_last(), ths, root_dev);
        lemma_scan_bounded(es.last(), ths, root_dev);
        if spec_scan_seq(es, ths, root_dev) is Some {
            let m = spec_scan_seq(es.drop_last(), ths, root_dev)->Some_0;
            let e = spec_scan(es.last(), ths, root_dev)->Some_0;
            lemma_merge_bounded(m, e);
        }
    }
}

/// One failing entry fails its whole listing.
proof fn lemma_scan_seq_none(es: Seq<FsTree>, i: int, ths: Seq<Threshold>, root_dev: Option<u64>)
    requires
        0 <= i < es.len(),
        spec_scan(es[i], ths, root_dev) is None,
    ensures
        spec_scan_seq(es, ths, root_dev) is None,
    decreases es.len(),
{
    if i < es.len() - 1 {
        assert(es.drop_last()[i] == es[i]);
        lemma_scan_seq_none(es.drop_last(), i, ths, root_dev);
    }
}

/// Whether a scan outcome's totals fit unsigned 64-bit storage.
pub open spec fn fits_opt(o: Option<AggView>) -> bool {
    match o {
        Some(m) => m.total_bytes <= u64::MAX && m.total_files <= u64::MAX,
        None => true,
    }
}

/// Whether every aggregate the walk would accumulate anywhere inside this
/// entry fits unsigned 64-bit storage. Real trees satisfy this whenever
/// their total size and file count fit, which the caller checks as it
/// gathers the tree.
pub open spec fn scan_fits(t: FsTree, ths: Seq<Threshold>, root_dev: Option<u64>) -> bool
    decreases t,
{
    match t {
        FsTree::Dir { entries, dev } => skip_dev(dev, root_dev) || scan_seq_fits(
            entries@,
            ths,
            root_dev,
        ),
        _ => fits_opt(spec_scan(t, ths, root_dev)),
    }
}

/// As `scan_fits` for a listing: every entry fits, and so does every
/// left-to-right partial accumulation.
pub open spec fn scan_seq_fits(es: Seq<FsTree>, ths: Seq<Threshold>, root_dev: Option<u64>) -> bool
    decreases es,
{
    if es.len() == 0 {
        true
    } else {
        &&& scan_seq_fits(es.drop_last(), ths, root_dev)
        &&& scan_fits(es.last(), ths, root_dev)
        &&& fits_opt(spec_scan_seq(es, ths, root_dev))
    }
}

/// A fitting listing has every prefix accumulation fitting.
proof fn lemma_scan_seq_fits_prefix(es: Seq<FsTree>, i: int, ths: Seq<Threshold>, root_dev: Option<
    u64,
>)
    requires
        scan_seq_fits(es, ths, root_dev),
        0 <= i <= es.len(),
    ensures
        scan_seq_fits(es.take(i), ths, root_dev),
        fits_opt(spec_scan_seq(es.take(i), ths, root_dev)),
    decreases es.len(),
{
    if i == es.len() {
        assert(es.take(i) =~= es);
        if es.len() > 0 {
        } else {
            assert(spec_scan_seq(es, ths, root_dev) == Some(zero_agg(ths)));
        }
    } else {
        assert(es.take(i) =~= es.drop_last().take(i));
        lemma_scan_seq_fits_prefix(es.drop_last(), i, ths, root_dev);
    }
}

/// Builds the zero aggregate: zero totals, every configured age at zero.
fn zero_data(ths: &Vec<Threshold>) -> (r: Data)
    ensures
        r.wf(),
        r@ == zero_agg(ths@),
{
    let n = ths.len();
    let mut ages: Vec<u64> = Vec::new();
    let mut i: usize = 0;
    while i < n
        invariant
            0 <= i <= n == ths@.len(),
            ages@ == ages_of_thresholds(ths@.take(i as int)),
        decreases n - i,
    {
        ages.push(ths[i].age);
        proof {
            assert(ages_of_thresholds(ths@.take(i + 1)) =~= ages_of_thresholds(
                ths@.take(i as int),
            ).push(ths@[i as int].age));
        }
        i = i + 1;
    }
    proof {
        assert(ths@.take(n as int) =~= ths@);
    }
    let r = Data::default().with_ages(ages.as_slice());
    proof {
        assert(r@ =~= zero_agg(ths@));
    }
    r
}

/// Builds one regular file's aggregate.
fn file_data(bytes: u64, accessed: u64, modified: u64, ths: &Vec<Threshold>) -> (r: Data)
    ensures
        r.wf(),
        r@ == file_agg(bytes, accessed, modified, ths@),
{
    let mut d = Data::default().with_total_bytes(bytes).with_total_files(1);
    let n = ths.len();
    let mut i: usize = 0;
    while i < n
        invariant
            0 <= i <= n == ths@.len(),
            d.wf(),
            d@.total_bytes == bytes as int,
            d@.total_files == 1,
            d@.buckets == file_buckets(bytes, accessed, modified, ths@.take(i as int)),
        decreases n - i,
    {
        let th = ths[i];
        let (a_b, a_f): (u64, u64) = if accessed > th.cutoff {
            (bytes, 1)
        } else {
            (0, 0)
        };
        let (m_b, m_f): (u64, u64) = if modified > th.cutoff {
            (bytes, 1)
        } else {
            (0, 0)
        };
        proof {
            assert(ths@.take(i + 1).drop_last() =~= ths@.take(i as int));
            assert(ths@.take(i + 1).last() == ths@[i as int]);
        }
        d.insert(th.age, a_b, m_b, a_f, m_f);
        proof {
            assert(d@.buckets =~= file_buckets(bytes, accessed, modified, ths@.take(i + 1)));
        }
        i = i + 1;
    }
    proof {
        assert(ths@.take(n as int) =~= ths@);
        assert(d@ =~= file_agg(bytes, accessed, modified, ths@));
    }
    d
}

/// Scans one observed tree depth first: an aggregate, or the error that
/// fails this root. A permission-denied listing contributes zero instead of
/// failing; any other listing or metadata failure fails the whole root.
pub fn scan_tree(t: &FsTree, ths: &Vec<Threshold>, root_dev: Option<u64>) -> (r: Result<
    Data,
    Error,
>)
    requires
        scan_fits(*t, ths@, root_dev),
    ensures
        r matches Ok(d) ==> d.wf() && spec_scan(*t, ths@, root_dev) == Some(d@),
        r matches Err(e) ==> spec_scan(*t, ths@, root_dev) is None && e.kind == ErrorKind::Io,
    decreases *t,
{
    let skip = match root_dev {
        Some(d) => {
            let dev = match t {
                FsTree::File { dev, .. } => Some(*dev),
                FsTree::Dir { dev, .. } => Some(*dev),
                FsTree::DeniedDir { dev } => Some(*dev),
                FsTree::FailedDir { dev } => Some(*dev),
                _ => None,
            };
            match dev {
                Some(dv) => dv != d,
                None => false,
            }
        },
        None => false,
    };
    match t {
        FsTree::File { bytes, accessed, modified, dev } => {
            if skip {
                Ok(zero_data(ths))
            } else {
                Ok(file_data(*bytes, *accessed, *modified, ths))
            }
        },
        FsTree::Dir { entries, dev } => {
            if skip {
                Ok(zero_data(ths))
            } else {
                let ghost es = entries@;
                let mut acc = zero_data(ths);
                let n = entries.len();
                let mut i: usize = 0;
                while i < n
                    invariant
                        0 <= i <= n == es.len(),
                        entries@ == es,
                        scan_seq_fits(es, ths@, root_dev),
                        acc.wf(),
                        spec_scan_seq(es.take(i as int), ths@, root_dev) == Some(acc@),
                        spec_scan(*t, ths@, root_dev) == spec_scan_seq(es, ths@, root_dev),
                        forall|j: int|
                            0 <= j < es.len() ==> decreases_to!(*t => es[j]),
                    decreases n - i,
                {
                    proof {
                        assert(decreases_to!(*t => es[i as int]));
                        lemma_scan_seq_fits_prefix(es, i as int, ths@, root_dev);
                        if i > 0 {
                            assert(scan_fits(es[i as int], ths@, root_dev)) by {
                                lemma_scan_seq_fits_take(es, i + 1, ths@, root_dev);
                            }
                        } else {
                            lemma_scan_seq_fits_take(es, 1, ths@, root_dev);
                        }
                    }
                    match scan_tree(&entries[i], ths, root_dev) {
                        Ok(d) => {
                            proof {
                                lemma_scan_seq_bounded(es.take(i as int), ths@, root_dev);
                                lemma_scan_bounded(es[i as int], ths@, root_dev);
                                assert(es.take(i + 1).drop_last() =~= es.take(i as int));
                                assert(es.take(i + 1).last() == es[i as int]);
                                lemma_scan_seq_fits_prefix(es, i + 1, ths@, root_dev);
                                lemma_bounded_can_merge(acc@, d@);
                            }
                            acc.merge(&d);
                        },
                        Err(e) => {
                            proof {
                                lemma_scan_seq_none(es, i as int, ths@, root_dev);
                            }
                            return Err(e);
                        },
                    }
                    i = i + 1;
                }
                proof {
                    assert(es.take(n as int) =~= es);
                }
                Ok(acc)
            }
        },
        FsTree::DeniedDir { dev } => Ok(zero_data(ths)),
        FsTree::FailedDir { dev } => {
            if skip {
                Ok(zero_data(ths))
            } else {
                Err(Error::new("reading a directory failed", ErrorKind::Io))
            }
        },
        FsTree::Symlink => Ok(zero_data(ths)),
        FsTree::Other => Ok(zero_data(ths)),
        FsTree::Unreadable => Err(
            Error::new("reading an entry's metadata failed", ErrorKind::Io),
        ),
    }
}

/// Partition invariance: scanning a listing split into two parts and
/// merging the parts' aggregates yields exactly the whole listing's
/// aggregate, and the split fails exactly where the whole fails.
pub proof fn lemma_scan_partition(
    es1: Seq<FsTree>,
    es2: Seq<FsTree>,
    ths: Seq<Threshold>,
    root_dev: Option<u64>,
)
    ensures
        ({
            let whole = spec_scan_seq(es1 + es2, ths, root_dev);
            match (spec_scan_seq(es1, ths, root_dev), spec_scan_seq(es2, ths, root_dev)) {
                (Some(a), Some(b)) => whole == Some(a.merge(b)),
                _ => whole is None,
            }
        }),
    decreases es2.len(),
{
    let left = spec_scan_seq(es1, ths, root_dev);
    if es2.len() == 0 {
        assert(es1 + es2 =~= es1);
        if left is Some {
            lemma_scan_seq_bounded(es1, ths, root_dev);
            lemma_zero_agg(ths);
            lemma_merge_zero(left->Some_0, zero_agg(ths));
        }
    } else {
        let t2 = es2.drop_last();
        lemma_scan_partition(es1, t2, ths, root_dev);
        assert((es1 + es2).drop_last() =~= es1 + t2);
        assert((es1 + es2).last() == es2.last());
        let pt = spec_scan_seq(t2, ths, root_dev);
        let pe = spec_scan(es2.last(), ths, root_dev);
        match (left, pt, pe) {
            (Some(a), Some(b), Some(e)) => {
                lemma_merge_associative(a, b, e);
            },
            _ => {},
        }
    }
}

/// A subdirectory that raises permission denied while being listed
/// contributes zero to its parent's aggregate and does not fail the
/// parent's scan: the listing scans exactly as without that entry.
pub proof fn lemma_denied_contributes_zero(
    es: Seq<FsTree>,
    d: FsTree,
    ths: Seq<Threshold>,
    root_dev: Option<u64>,
)
    requires
        d is DeniedDir,
    ensures
        spec_scan_seq(es.push(d), ths, root_dev) == spec_scan_seq(es, ths, root_dev),
{
    lemma_skipped_contributes_zero(es, d, ths, root_dev);
}

/// A symbolic link is not descended into: it contributes zero, whatever it
/// points at, and the listing scans exactly as without it.
pub proof fn lemma_symlink_not_descended(
    es: Seq<FsTree>,
    l: FsTree,
    ths: Seq<Threshold>,
    root_dev: Option<u64>,
)
    requires
        l is Symlink,
    ensures
        spec_scan_seq(es.push(l), ths, root_dev) == spec_scan_seq(es, ths, root_dev),
{
    lemma_skipped_contributes_zero(es, l, ths, root_dev);
}

/// Any entry that scans to the zero aggregate leaves its listing's
/// aggregate unchanged.
proof fn lemma_skipped_contributes_zero(
    es: Seq<FsTree>,
    s: FsTree,
    ths: Seq<Threshold>,
    root_dev: Option<u64>,
)
    requires
        spec_scan(s, ths, root_dev) == Some(zero_agg(ths)),
    ensures
        spec_scan_seq(es.push(s), ths, root_dev) == spec_scan_seq(es, ths, root_dev),
{
    assert(es.push(s).drop_last() =~= es);
    assert(es.push(s).last() == s);
    if spec_scan_seq(es, ths, root_dev) is Some {
        lemma_scan_seq_bounded(es, ths, root_dev);
        lemma_zero_agg(ths);
        lemma_merge_zero(spec_scan_seq(es, ths, root_dev)->Some_0, zero_agg(ths));
    }
}

/// A fitting listing has each single entry fitting.
proof fn lemma_scan_seq_fits_take(es: Seq<FsTree>, i: int, ths: Seq<Threshold>, root_dev: Option<
    u64,
>)
    requires
        scan_seq_fits(es, ths, root_dev),
        0 < i <= es.len(),
    ensures
        scan_fits(es[i - 1], ths, root_dev),
    decreases es.len(),
{
    if i == es.len() {
    } else {
        assert(es.drop_last()[i - 1] == es[i - 1]);
        lemma_scan_seq_fits_take(es.drop_last(), i, ths, root_dev);
    }
}

} // verus!
