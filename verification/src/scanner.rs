use vstd::multiset::Multiset;
use vstd::prelude::*;

use crate::ledger::{spec_record, ExtensionLedger};
use crate::models::{clamp64, sat_add, ExtensionStat, FileRecord};
use crate::stats::ScanStats;
use crate::text::{extension_of, lower_of, lowercase, spec_extension_of};
use crate::topk::{
    is_top_k, offer_spec, sizes_of, sorted_asc, sorted_desc, BoundedTopK,
    lemma_offer_preserves_top_k, lemma_offer_preserves_sorted,
};

verus! {

/// One entry met while walking a tree: its path, its size, and how it
/// was classified.  Entries whose metadata could not be read never
/// appear.
#[derive(Debug)]
pub struct WalkEntry {
    pub path: String,
    pub size_bytes: u64,
    pub is_file: bool,
    pub is_dir: bool,
}

/// Why a scan failed outright.
#[derive(Debug, Clone, Copy, PartialEq, Eq, Structural)]
pub enum ScanError {
    /// The scan root itself could not be opened or statted.
    RootUnreadable,
}

/// How many of the entries are regular files.
pub open spec fn spec_total_files(es: Seq<WalkEntry>) -> int
    decreases es.len(),
{
    if es.len() == 0 {
        0
    } else {
        spec_total_files(es.drop_last()) + if es.last().is_file {
            1int
        } else {
            0int
        }
    }
}

/// How many of the entries are directories (entries classified as
/// files are not asked).
pub open spec fn spec_total_folders(es: Seq<WalkEntry>) -> int
    decreases es.len(),
{
    if es.len() == 0 {
        0
    } else {
        spec_total_folders(es.drop_last()) + if !es.last().is_file && es.last().is_dir {
            1int
        } else {
            0int
        }
    }
}

/// The exact mathematical sum of the sizes of all file entries.
pub open spec fn spec_total_size(es: Seq<WalkEntry>) -> int
    decreases es.len(),
{
    if es.len() == 0 {
        0
    } else {
        spec_total_size(es.drop_last()) + if es.last().is_file {
            es.last().size_bytes as int
        } else {
            0int
        }
    }
}

/// The sizes of the file entries, in walk order.
pub open spec fn spec_file_sizes(es: Seq<WalkEntry>) -> Seq<u64>
    decreases es.len(),
{
    if es.len() == 0 {
        Seq::empty()
    } else if es.last().is_file {
        spec_file_sizes(es.drop_last()).push(es.last().size_bytes)
    } else {
        spec_file_sizes(es.drop_last())
    }
}

/// The extension ledger that results from recording every file entry
/// that carries an extension, lower-cased, in walk order.
pub open spec fn spec_scan_ledger(es: Seq<WalkEntry>) -> Seq<(Seq<char>, ExtensionStat)>
    decreases es.len(),
{
    if es.len() == 0 {
        Seq::empty()
    } else {
        let prev = spec_scan_ledger(es.drop_last());
        let e = es.last();
        if e.is_file {
            match spec_extension_of(e.path@) {
                Some(ext) => spec_record(prev, lower_of(ext), e.size_bytes),
                None => prev,
            }
        } else {
            prev
        }
    }
}

/// The tracker contents after offering every file entry, in walk
/// order, to a tracker of capacity `cap`.
pub open spec fn spec_scan_topk(es: Seq<WalkEntry>, cap: nat) -> Seq<FileRecord>
    decreases es.len(),
{
    if es.len() == 0 {
        Seq::empty()
    } else {
        let prev = spec_scan_topk(es.drop_last(), cap);
        let e = es.last();
        if e.is_file {
            offer_spec(prev, cap, (FileRecord { path: e.path, size_bytes: e.size_bytes }))
        } else {
            prev
        }
    }
}

proof fn lemma_total_files_bounds(es: Seq<WalkEntry>)
    ensures
        0 <= spec_total_files(es) <= es.len(),
    decreases es.len(),
{
    if es.len() > 0 {
        lemma_total_files_bounds(es.drop_last());
    }
}

proof fn lemma_total_folders_bounds(es: Seq<WalkEntry>)
    ensures
        0 <= spec_total_folders(es) <= es.len(),
    decreases es.len(),
{
    if es.len() > 0 {
        lemma_total_folders_bounds(es.drop_last());
    }
}

proof fn lemma_total_size_nonneg(es: Seq<WalkEntry>)
    ensures
        spec_total_size(es) >= 0,
    decreases es.len(),
{
    if es.len() > 0 {
        lemma_total_size_nonneg(es.drop_last());
    }
}

/// The scan fold keeps its tracker sorted and keeps its contents a
/// true top-k selection of every file size seen.
pub proof fn lemma_scan_top_k(es: Seq<WalkEntry>, cap: nat)
    ensures
        sorted_asc(spec_scan_topk(es, cap)),
        is_top_k(spec_file_sizes(es), sizes_of(spec_scan_topk(es, cap)), cap),
    decreases es.len(),
{
    if es.len() == 0 {
        assert(sizes_of(spec_scan_topk(es, cap)) =~= Seq::<u64>::empty());
        assert(spec_file_sizes(es).to_multiset() =~= Multiset::<u64>::empty()) by {
            spec_file_sizes(es).to_multiset_ensures();
        }
        assert(sizes_of(spec_scan_topk(es, cap)).to_multiset() =~= Multiset::<u64>::empty()) by {
            sizes_of(spec_scan_topk(es, cap)).to_multiset_ensures();
        }
    } else {
        lemma_scan_top_k(es.drop_last(), cap);
        let e = es.last();
        if e.is_file {
            let rec = FileRecord { path: e.path, size_bytes: e.size_bytes };
            lemma_offer_preserves_top_k(
                spec_file_sizes(es.drop_last()),
                spec_scan_topk(es.drop_last(), cap),
                cap,
                rec,
            );
            lemma_offer_preserves_sorted(spec_scan_topk(es.drop_last(), cap), cap, rec);
        }
    }
}

/// Everything the aggregation promises about a finished `ScanStats`,
/// as a function of the walked entries, the capacity, the root path
/// and the duration stamp.
pub open spec fn spec_aggregates(
    root: Seq<char>,
    cap: nat,
    es: Seq<WalkEntry>,
    d: u128,
    s: ScanStats,
) -> bool {
    &&& s.root_path@ == root
    &&& s.total_files == spec_total_files(es)
    &&& s.total_folders == spec_total_folders(es)
    &&& s.total_size_bytes == clamp64(spec_total_size(es))
    &&& s.scan_duration_ms == d
    &&& s.extensions@ == spec_scan_ledger(es)
    &&& s.extensions.wf()
    &&& s.top_files@ == spec_scan_topk(es, cap).reverse()
}

/// Walks a directory tree and aggregates what it finds.
pub struct Scanner {
    root: String,
    top_limit: usize,
}

/// Relies on jwalk::WalkDir: yields every reachable entry under the
/// root (the root itself first); an entry whose metadata cannot be
/// read is skipped; yields an error in place of the first entry when
/// the root itself cannot be read, which comes back here as `None`.
#[verifier::external_body]
fn walk_tree(root: &String) -> (r: Option<Vec<WalkEntry>>) {
    let mut iter = jwalk::WalkDir::new(root).into_iter();
    match iter.next() {
        Some(Ok(first)) => {
            let mut out: Vec<WalkEntry> = Vec::new();
            for e in std::iter::once(first).chain(iter.flatten()) {
                if let Ok(m) = e.metadata() {
                    let path = e.path().display().to_string();
                    out.push(WalkEntry { path, size_bytes: m.len(), is_file: m.is_file(), is_dir: m.is_dir() });
                }
            }
            Some(out)
        },
        _ => None,
    }
}

/// Relies on std::time::Instant::now: an opaque monotonic time point.
#[verifier::external_body]
fn monotonic_now() -> (t: std::time::Instant) {
    std::time::Instant::now()
}

/// Relies on std::time::Instant::elapsed: the wall-clock time since
/// `t`, converted to milliseconds.
#[verifier::external_body]
fn millis_since(t: &std::time::Instant) -> (ms: u128) {
    t.elapsed().as_millis()
}

#[verifier::external_type_specification]
#[verifier::external_body]
pub struct ExInstant(std::time::Instant);

impl Scanner {
    /// The root path this scanner was built for.
    pub closed spec fn root_view(self) -> Seq<char> {
        self.root@
    }

    /// The configured top-file limit `K`.
    pub closed spec fn limit(self) -> nat {
        self.top_limit as nat
    }

    /// A scanner for the tree rooted at `root` that tracks the
    /// `top_limit` largest files.
    pub fn new(root: String, top_limit: usize) -> (s: Scanner)
        ensures
            s.root_view() == root@,
            s.limit() == top_limit,
    {
        Scanner { root, top_limit }
    }

    /// Aggregate a run of walked entries into scan statistics: exact
    /// file and folder counts, the total size (clamped at the top of
    /// the `u64` range), the per-extension ledger, and the top-K
    /// largest files in descending size order.
    pub fn aggregate(&self, entries: &Vec<WalkEntry>, duration_ms: u128) -> (s: ScanStats)
        ensures
            spec_aggregates(self.root_view(), self.limit(), entries@, duration_ms, s),
            sorted_desc(s.top_files@),
            s.top_files@.len() <= self.limit(),
            is_top_k(spec_file_sizes(entries@), sizes_of(s.top_files@), self.limit()),
    {
        let mut total_files: u64 = 0;
        let mut total_folders: u64 = 0;
        let mut total_size: u64 = 0;
        let mut ledger = ExtensionLedger::new();
        let mut tracker = BoundedTopK::new(self.top_limit);
        let n = entries.len();
        let mut idx: usize = 0;
        proof {
            assert(entries@.subrange(0, 0) =~= Seq::<WalkEntry>::empty());
        }
        while idx < n
            invariant
                idx <= n,
                n == entries@.len(),
                tracker.wf(),
                tracker.cap() == self.limit(),
                ledger.wf(),
                total_files == spec_total_files(entries@.subrange(0, idx as int)),
                total_folders == spec_total_folders(entries@.subrange(0, idx as int)),
                total_size == clamp64(spec_total_size(entries@.subrange(0, idx as int))),
                ledger@ == spec_scan_ledger(entries@.subrange(0, idx as int)),
                tracker@ == spec_scan_topk(entries@.subrange(0, idx as int), self.limit()),
            decreases n - idx,
        {
            let ghost pre = entries@.subrange(0, idx as int);
            let ghost pre2 = entries@.subrange(0, idx as int + 1);
            proof {
                assert(pre2.drop_last() =~= pre);
                assert(pre2.last() == entries@[idx as int]);
                lemma_total_files_bounds(pre);
                lemma_total_folders_bounds(pre);
                lemma_total_size_nonneg(pre);
            }
            let e = &entries[idx];
            if e.is_file {
                total_files = total_files + 1;
                total_size = sat_add(total_size, e.size_bytes);
                match extension_of(e.path.as_str()) {
                    Some(ext) => {
                        let ext_low = lowercase(ext);
                        ledger.record(ext_low, e.size_bytes);
                    },
                    None => {},
                }
                let rec = FileRecord { path: e.path.clone(), size_bytes: e.size_bytes };
                tracker.offer(rec);
            } else if e.is_dir {
                total_folders = total_folders + 1;
            }
            idx = idx + 1;
        }
        proof {
            assert(entries@.subrange(0, n as int) =~= entries@);
            lemma_scan_top_k(entries@, self.limit());
        }
        let top_files = tracker.drain_sorted();
        proof {
            assert(sizes_of(spec_scan_topk(entries@, self.limit()).reverse()).to_multiset()
                =~= sizes_of(spec_scan_topk(entries@, self.limit())).to_multiset()) by {
                let t = spec_scan_topk(entries@, self.limit());
                assert(sizes_of(t.reverse()) =~= sizes_of(t).reverse());
                sizes_of(t).lemma_reverse_to_multiset();
            }
        }
        ScanStats {
            root_path: self.root.clone(),
            total_files,
            total_folders,
            total_size_bytes: total_size,
            scan_duration_ms: duration_ms,
            extensions: ledger,
            top_files,
        }
    }

    /// What `scan` promises of its result: a success is the aggregate
    /// of some run of walked entries under this scanner's root and
    /// limit; the only failure is an unreadable root.
    pub open spec fn spec_scan_post(self, r: Result<ScanStats, ScanError>) -> bool {
        match r {
            Ok(s) => exists|es: Seq<WalkEntry>|
                #[trigger] spec_aggregates(self.root_view(), self.limit(), es, s.scan_duration_ms, s),
            Err(e) => e == ScanError::RootUnreadable,
        }
    }

    /// Walk the tree under this scanner's root and aggregate what is
    /// found.  Fails with `RootUnreadable` exactly when the walk could
    /// not read the root itself; entries below the root that cannot be
    /// read are skipped silently.
    pub fn scan(&self) -> (r: Result<ScanStats, ScanError>)
        ensures
            self.spec_scan_post(r),
    {
        let start = monotonic_now();
        match walk_tree(&self.root) {
            None => Err(ScanError::RootUnreadable),
            Some(entries) => {
                let duration_ms = millis_since(&start);
                let s = self.aggregate(&entries, duration_ms);
                proof {
                    // the walked entries witness the existential in the
                    // postcondition
                    let r2 = Result::<ScanStats, ScanError>::Ok(s);
                    assert(spec_aggregates(
                        self.root_view(),
                        self.limit(),
                        entries@,
                        (r2->Ok_0).scan_duration_ms,
                        r2->Ok_0,
                    ));
                    assert(self.spec_scan_post(r2));
                }
                Ok(s)
            },
        }
    }
}

/// Scanning unchanged entries twice yields identical statistics
/// except for the duration stamp.
pub proof fn lemma_rescan_identical(
    root: Seq<char>,
    cap: nat,
    es: Seq<WalkEntry>,
    d1: u128,
    d2: u128,
    s1: ScanStats,
    s2: ScanStats,
)
    requires
        spec_aggregates(root, cap, es, d1, s1),
        spec_aggregates(root, cap, es, d2, s2),
    ensures
        s1.root_path@ == s2.root_path@,
        s1.total_files == s2.total_files,
        s1.total_folders == s2.total_folders,
        s1.total_size_bytes == s2.total_size_bytes,
        s1.extensions@ == s2.extensions@,
        s1.top_files@ == s2.top_files@,
{
}

/// Size additivity: whenever the true sum of the file sizes fits in a
/// `u64`, the clamped total reported by a scan is exactly that sum.
pub proof fn lemma_size_additivity(es: Seq<WalkEntry>)
    requires
        spec_total_size(es) <= u64::MAX,
    ensures
        clamp64(spec_total_size(es)) == spec_total_size(es),
{
    lemma_total_size_nonneg(es);
}

} // verus!
