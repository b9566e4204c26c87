use vstd::prelude::*;

use crate::ledger::ExtensionLedger;
use crate::models::{ExtensionStat, FileRecord};
use crate::velocity::triples_view;

verus! {

/// Aggregate result of one scan, fully populated before it is
/// returned and never mutated afterwards.
#[derive(Debug)]
pub struct ScanStats {
    pub root_path: String,
    pub total_files: u64,
    pub total_folders: u64,
    pub total_size_bytes: u64,
    pub scan_duration_ms: u128,
    pub extensions: ExtensionLedger,
    pub top_files: Vec<FileRecord>,
}

/// The ledger's entries as `(extension, size, count)` triples, in
/// first-sighting order.
pub open spec fn spec_ledger_triples(l: Seq<(Seq<char>, ExtensionStat)>) -> Seq<
    (Seq<char>, u64, u64),
> {
    l.map_values(|p: (Seq<char>, ExtensionStat)| (p.0, p.1.size, p.1.count))
}

/// Stable insertion into a run sorted by weakly decreasing size: the
/// new triple goes after every triple at least as large.
pub open spec fn spec_insert_ext(
    sorted: Seq<(Seq<char>, u64, u64)>,
    t: (Seq<char>, u64, u64),
) -> Seq<(Seq<char>, u64, u64)>
    decreases sorted.len(),
{
    if sorted.len() == 0 {
        seq![t]
    } else if t.1 > sorted[0].1 {
        seq![t] + sorted
    } else {
        seq![sorted[0]] + spec_insert_ext(sorted.drop_first(), t)
    }
}

/// Stable insertion sort of extension triples by descending size.
pub open spec fn spec_sort_exts(s: Seq<(Seq<char>, u64, u64)>) -> Seq<(Seq<char>, u64, u64)>
    decreases s.len(),
{
    if s.len() == 0 {
        Seq::empty()
    } else {
        spec_insert_ext(spec_sort_exts(s.drop_last()), s.last())
    }
}

/// The triples a snapshot reports for a scan: the ledger sorted by
/// descending size, cut to the `limit` largest.
pub open spec fn spec_top_extensions(
    l: Seq<(Seq<char>, ExtensionStat)>,
    limit: nat,
) -> Seq<(Seq<char>, u64, u64)> {
    let sorted = spec_sort_exts(spec_ledger_triples(l));
    if sorted.len() <= limit {
        sorted
    } else {
        sorted.take(limit as int)
    }
}

proof fn lemma_insert_ext_unique(sorted: Seq<(Seq<char>, u64, u64)>, t: (Seq<char>, u64, u64), p: int)
    requires
        0 <= p <= sorted.len(),
        forall|j: int| 0 <= j < p ==> t.1 <= (#[trigger] sorted[j]).1,
        p < sorted.len() ==> t.1 > sorted[p].1,
    ensures
        spec_insert_ext(sorted, t) =~= sorted.insert(p, t),
    decreases sorted.len(),
{
    if sorted.len() == 0 {
        assert(seq![t] =~= sorted.insert(0, t));
    } else if p == 0 {
        assert(seq![t] + sorted =~= sorted.insert(0, t));
    } else {
        let rest = sorted.drop_first();
        assert(forall|j: int| 0 <= j < rest.len() ==> rest[j] == sorted[j + 1]);
        lemma_insert_ext_unique(rest, t, p - 1);
        assert(seq![sorted[0]] + spec_insert_ext(rest, t) =~= sorted.insert(p, t));
    }
}

impl ScanStats {
    /// The up-to-`limit` largest extensions by total size, descending;
    /// equal sizes keep their first-sighting order.
    pub fn top_extensions(&self, limit: usize) -> (r: Vec<(String, u64, u64)>)
        ensures
            triples_view(r@) == spec_top_extensions(self.extensions@, limit as nat),
            r@.len() <= limit,
    {
        let n = self.extensions.len();
        let mut sorted: Vec<(String, u64, u64)> = Vec::new();
        let mut i: usize = 0;
        proof {
            assert(spec_ledger_triples(self.extensions@).subrange(0, 0)
                =~= Seq::<(Seq<char>, u64, u64)>::empty());
            assert(triples_view(sorted@) =~= spec_sort_exts(
                spec_ledger_triples(self.extensions@).subrange(0, 0),
            ));
        }
        while i < n
            invariant
                i <= n,
                n == self.extensions@.len(),
                triples_view(sorted@) == spec_sort_exts(
                    spec_ledger_triples(self.extensions@).subrange(0, i as int),
                ),
                sorted@.len() == i,
            decreases n - i,
        {
            let ghost all = spec_ledger_triples(self.extensions@);
            let ghost pre = all.subrange(0, i as int);
            let ghost pre2 = all.subrange(0, i as int + 1);
            proof {
                assert(pre2.drop_last() =~= pre);
                assert(pre2.last() == all[i as int]);
            }
            let t = self.extensions.triple_at(i);
            let sn = sorted.len();
            let mut pos: usize = 0;
            while pos < sn && t.1 <= sorted[pos].1
                invariant
                    pos <= sn,
                    sn == sorted@.len(),
                    forall|j: int| 0 <= j < pos ==> t.1 <= (#[trigger] triples_view(sorted@)[j]).1,
                decreases sn - pos,
            {
                proof {
                    assert(triples_view(sorted@)[pos as int].1 == sorted@[pos as int].1);
                }
                pos = pos + 1;
            }
            proof {
                if pos < sn {
                    assert(triples_view(sorted@)[pos as int].1 == sorted@[pos as int].1);
                }
                lemma_insert_ext_unique(triples_view(sorted@), all[i as int], pos as int);
            }
            sorted.insert(pos, t);
            proof {
                assert(triples_view(sorted@) =~= spec_sort_exts(pre2));
            }
            i = i + 1;
        }
        proof {
            assert(spec_ledger_triples(self.extensions@).subrange(0, n as int) =~= spec_ledger_triples(
                self.extensions@,
            ));
        }
        // cut to the requested number of entries
        let mut out: Vec<(String, u64, u64)> = Vec::new();
        let keep = if sorted.len() < limit {
            sorted.len()
        } else {
            limit
        };
        let mut j: usize = 0;
        proof {
            assert(triples_view(out@) =~= triples_view(sorted@).take(0));
        }
        while j < keep
            invariant
                j <= keep,
                keep <= sorted@.len(),
                triples_view(out@) == triples_view(sorted@).take(j as int),
                out@.len() == j,
            decreases keep - j,
        {
            let t = (sorted[j].0.clone(), sorted[j].1, sorted[j].2);
            out.push(t);
            proof {
                assert(triples_view(out@) =~= triples_view(sorted@).take(j as int + 1));
            }
            j = j + 1;
        }
        proof {
            if sorted@.len() <= limit {
                assert(triples_view(sorted@).take(keep as int) =~= triples_view(sorted@));
            }
            assert(triples_view(out@) =~= spec_top_extensions(self.extensions@, limit as nat));
        }
        out
    }
}

} // verus!
