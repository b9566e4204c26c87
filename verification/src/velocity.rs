use vstd::prelude::*;

use crate::stats::{spec_top_extensions, ScanStats};
use crate::text::str_eq_str;

verus! {

/// A point-in-time telemetry record uploaded by one agent: identity,
/// aggregate counters, and an ordered run of
/// `(extension, total size, file count)` triples.
#[derive(Debug)]
pub struct AgentSnapshot {
    pub agent_id: String,
    pub timestamp: i64,
    pub hostname: String,
    pub total_size_bytes: u64,
    pub file_count: u64,
    pub top_extensions: Vec<(String, u64, u64)>,
}

/// One extension's contribution to the change between two snapshots.
#[derive(Debug)]
pub struct ExtensionDelta {
    pub extension: String,
    pub size_delta: i64,
    pub count_delta: i64,
}

/// Growth between two snapshots of one agent.  The rate in bytes per
/// second is the quotient of `growth_bytes` and `duration_seconds`,
/// taken as zero when the duration is not positive; it is left to the
/// caller, which keeps this report in integers.
#[derive(Debug)]
pub struct VelocityReport {
    pub agent_id: String,
    pub t_start: i64,
    pub t_end: i64,
    pub duration_seconds: i64,
    pub growth_bytes: i64,
    pub growth_files: i64,
    pub extension_deltas: Vec<ExtensionDelta>,
}

/// The extension triples of a snapshot, keyed by character runs.
pub open spec fn triples_view(v: Seq<(String, u64, u64)>) -> Seq<(Seq<char>, u64, u64)> {
    v.map_values(|t: (String, u64, u64)| (t.0@, t.1, t.2))
}

/// The deltas as character runs and unbounded integers.
pub open spec fn deltas_view(v: Seq<ExtensionDelta>) -> Seq<(Seq<char>, int, int)> {
    v.map_values(|d: ExtensionDelta| (d.extension@, d.size_delta as int, d.count_delta as int))
}

/// Where key `k` sits in a run of extension triples, or `-1`.
pub open spec fn t3_find(l: Seq<(Seq<char>, u64, u64)>, k: Seq<char>) -> int
    decreases l.len(),
{
    if l.len() == 0 {
        -1
    } else if l[0].0 == k {
        0
    } else {
        let r = t3_find(l.drop_first(), k);
        if r < 0 {
            -1
        } else {
            r + 1
        }
    }
}

proof fn lemma_t3_find_unique(l: Seq<(Seq<char>, u64, u64)>, k: Seq<char>, i: int)
    requires
        0 <= i <= l.len(),
        forall|j: int| 0 <= j < i ==> (#[trigger] l[j]).0 != k,
        i == l.len() || l[i].0 == k,
    ensures
        i < l.len() ==> t3_find(l, k) == i,
        i == l.len() ==> t3_find(l, k) == -1,
    decreases l.len(),
{
    if l.len() == 0 {
    } else if i == 0 {
    } else {
        assert(forall|j: int| 0 <= j < l.len() - 1 ==> l.drop_first()[j] == l[j + 1]);
        lemma_t3_find_unique(l.drop_first(), k, i - 1);
    }
}

/// The lookup built from a snapshot's triples, one entry per distinct
/// extension, a later occurrence of a key replacing an earlier one.
pub open spec fn spec_build_map(s: Seq<(Seq<char>, u64, u64)>) -> Seq<(Seq<char>, u64, u64)>
    decreases s.len(),
{
    if s.len() == 0 {
        Seq::empty()
    } else {
        let m = spec_build_map(s.drop_last());
        let t = s.last();
        let i = t3_find(m, t.0);
        if i < 0 {
            m.push(t)
        } else {
            m.update(i, t)
        }
    }
}

/// Processing the end snapshot's triples in order against the start
/// lookup: a triple whose extension is in the lookup yields the
/// difference and consumes the entry; a new extension yields its own
/// values.  Returns the deltas and what is left of the lookup.
pub open spec fn spec_end_deltas(e: Seq<(Seq<char>, u64, u64)>, m: Seq<(Seq<char>, u64, u64)>) -> (
    Seq<(Seq<char>, int, int)>,
    Seq<(Seq<char>, u64, u64)>,
)
    decreases e.len(),
{
    if e.len() == 0 {
        (Seq::empty(), m)
    } else {
        let (ds, m2) = spec_end_deltas(e.drop_last(), m);
        let t = e.last();
        let i = t3_find(m2, t.0);
        if i < 0 {
            (ds.push((t.0, t.1 as int, t.2 as int)), m2)
        } else {
            (ds.push((t.0, t.1 - m2[i].1, t.2 - m2[i].2)), m2.remove(i))
        }
    }
}

/// Extensions present at the start but consumed by no end triple
/// disappeared: each yields the negation of its start values.
pub open spec fn spec_gone_deltas(m: Seq<(Seq<char>, u64, u64)>) -> Seq<(Seq<char>, int, int)> {
    m.map_values(|t: (Seq<char>, u64, u64)| (t.0, -(t.1 as int), -(t.2 as int)))
}

/// The reconciled, still unsorted delta list between two snapshots'
/// extension triples.
pub open spec fn spec_delta_list(
    start: Seq<(Seq<char>, u64, u64)>,
    end: Seq<(Seq<char>, u64, u64)>,
) -> Seq<(Seq<char>, int, int)> {
    let m = spec_build_map(start);
    let r = spec_end_deltas(end, m);
    r.0 + spec_gone_deltas(r.1)
}

/// Absolute value.
pub open spec fn abs_int(x: int) -> int {
    if x < 0 {
        -x
    } else {
        x
    }
}

/// Stable insertion into a run sorted by weakly decreasing absolute
/// size impact: the new delta goes after every delta whose impact is
/// at least its own.
pub open spec fn spec_insert_delta(
    sorted: Seq<(Seq<char>, int, int)>,
    d: (Seq<char>, int, int),
) -> Seq<(Seq<char>, int, int)>
    decreases sorted.len(),
{
    if sorted.len() == 0 {
        seq![d]
    } else if abs_int(d.1) > abs_int(sorted[0].1) {
        seq![d] + sorted
    } else {
        seq![sorted[0]] + spec_insert_delta(sorted.drop_first(), d)
    }
}

/// Stable insertion sort by descending absolute size impact.
pub open spec fn spec_sort_deltas(s: Seq<(Seq<char>, int, int)>) -> Seq<(Seq<char>, int, int)>
    decreases s.len(),
{
    if s.len() == 0 {
        Seq::empty()
    } else {
        spec_insert_delta(spec_sort_deltas(s.drop_last()), s.last())
    }
}

/// Ordered by weakly decreasing absolute size impact.
pub open spec fn sorted_by_impact(s: Seq<(Seq<char>, int, int)>) -> bool {
    forall|i: int, j: int|
        #![trigger s[i], s[j]]
        0 <= i <= j < s.len() ==> abs_int(s[i].1) >= abs_int(s[j].1)
}

proof fn lemma_insert_delta_ensures(sorted: Seq<(Seq<char>, int, int)>, d: (Seq<char>, int, int))
    requires
        sorted_by_impact(sorted),
    ensures
        sorted_by_impact(spec_insert_delta(sorted, d)),
        spec_insert_delta(sorted, d).to_multiset() =~= sorted.to_multiset().insert(d),
        spec_insert_delta(sorted, d).len() == sorted.len() + 1,
    decreases sorted.len(),
{
    broadcast use vstd::seq_lib::group_to_multiset_ensures;

    if sorted.len() == 0 {
        assert(seq![d] =~= Seq::<(Seq<char>, int, int)>::empty().push(d));
    } else if abs_int(d.1) > abs_int(sorted[0].1) {
        let t = seq![d] + sorted;
        assert forall|i: int, j: int|
            #![trigger t[i], t[j]]
            0 <= i <= j < t.len() implies abs_int(t[i].1) >= abs_int(t[j].1) by {
            if i == 0 && j > 0 {
                assert(t[j] == sorted[j - 1]);
                assert(abs_int(sorted[0].1) >= abs_int(sorted[j - 1].1));
            } else if i > 0 {
                assert(t[i] == sorted[i - 1]);
                assert(t[j] == sorted[j - 1]);
            }
        }
        vstd::seq_lib::lemma_multiset_commutative(seq![d], sorted);
        assert(sorted + seq![d] =~= sorted.push(d));
    } else {
        let h = sorted[0];
        let rest = sorted.drop_first();
        assert forall|i: int, j: int|
            #![trigger rest[i], rest[j]]
            0 <= i <= j < rest.len() implies abs_int(rest[i].1) >= abs_int(rest[j].1) by {
            assert(rest[i] == sorted[i + 1]);
            assert(rest[j] == sorted[j + 1]);
        }
        lemma_insert_delta_ensures(rest, d);
        let inner = spec_insert_delta(rest, d);
        let t = seq![h] + inner;
        // every element of the inner run is either d or from rest, so
        // the head still dominates
        assert forall|i: int, j: int|
            #![trigger t[i], t[j]]
            0 <= i <= j < t.len() implies abs_int(t[i].1) >= abs_int(t[j].1) by {
            if i == 0 && j > 0 {
                assert(t[j] == inner[j - 1]);
                assert(inner.to_multiset().count(inner[j - 1]) > 0) by {
                    assert(inner.contains(inner[j - 1]));
                }
                assert(rest.to_multiset().insert(d).count(inner[j - 1]) > 0);
                if inner[j - 1] == d {
                    assert(abs_int(h.1) >= abs_int(d.1));
                } else {
                    assert(rest.to_multiset().count(inner[j - 1]) > 0);
                    assert(rest.contains(inner[j - 1]));
                    let k = choose|k: int| 0 <= k < rest.len() && rest[k] == inner[j - 1];
                    assert(rest[k] == sorted[k + 1]);
                    assert(abs_int(sorted[0].1) >= abs_int(sorted[k + 1].1));
                }
            } else if i > 0 {
                assert(t[i] == inner[i - 1]);
                assert(t[j] == inner[j - 1]);
            }
        }
        vstd::seq_lib::lemma_multiset_commutative(seq![h], inner);
        assert(inner + seq![h] =~= inner.push(h));
        assert(seq![h] + rest =~= sorted);
        vstd::seq_lib::lemma_multiset_commutative(seq![h], rest);
        assert(rest + seq![h] =~= rest.push(h));
        assert(t.to_multiset() =~= sorted.to_multiset().insert(d));
    }
}

/// The sorted delta list holds exactly the reconciled deltas, ordered
/// by weakly decreasing absolute size impact.
pub proof fn lemma_sort_deltas_ensures(s: Seq<(Seq<char>, int, int)>)
    ensures
        sorted_by_impact(spec_sort_deltas(s)),
        spec_sort_deltas(s).to_multiset() =~= s.to_multiset(),
        spec_sort_deltas(s).len() == s.len(),
    decreases s.len(),
{
    broadcast use vstd::seq_lib::group_to_multiset_ensures;

    if s.len() > 0 {
        lemma_sort_deltas_ensures(s.drop_last());
        lemma_insert_delta_ensures(spec_sort_deltas(s.drop_last()), s.last());
        assert(s.drop_last().push(s.last()) =~= s);
    }
}

/// Everything `compute_velocity` promises when both endpoints are
/// present.
pub open spec fn spec_velocity_when_present(
    s: AgentSnapshot,
    e: AgentSnapshot,
    r: VelocityReport,
) -> bool {
    &&& r.t_start == s.timestamp
    &&& r.t_end == e.timestamp
    &&& r.duration_seconds == e.timestamp - s.timestamp
    &&& r.growth_bytes == e.total_size_bytes - s.total_size_bytes
    &&& r.growth_files == e.file_count - s.file_count
    &&& deltas_view(r.extension_deltas@) == spec_sort_deltas(
        spec_delta_list(triples_view(s.top_extensions@), triples_view(e.top_extensions@)),
    )
}

/// The defined fallback when either endpoint is missing: everything
/// zero, no deltas, not an error.
pub open spec fn spec_velocity_zeroed(r: VelocityReport) -> bool {
    &&& r.t_start == 0
    &&& r.t_end == 0
    &&& r.duration_seconds == 0
    &&& r.growth_bytes == 0
    &&& r.growth_files == 0
    &&& r.extension_deltas@ == Seq::<ExtensionDelta>::empty()
}

/// Zero-duration safety: endpoints with identical timestamps yield a
/// zero duration, so the derived bytes-per-second rate takes its
/// guarded zero branch rather than dividing.
pub proof fn lemma_zero_duration(s: AgentSnapshot, e: AgentSnapshot, r: VelocityReport)
    requires
        spec_velocity_when_present(s, e, r),
        s.timestamp == e.timestamp,
    ensures
        r.duration_seconds == 0,
{
}

/// The snapshot's counters and triple values all fit in `i64`, so that
/// differences of them are representable.
pub open spec fn snapshot_bounded(s: AgentSnapshot) -> bool {
    &&& s.total_size_bytes <= i64::MAX
    &&& s.file_count <= i64::MAX
    &&& forall|i: int|
        0 <= i < s.top_extensions@.len() ==> (#[trigger] s.top_extensions@[i]).1 <= i64::MAX
            && s.top_extensions@[i].2 <= i64::MAX
}

/// Find the position of extension `k` in a working lookup.
fn t3_position(v: &Vec<(String, u64, u64)>, k: &str) -> (r: Option<usize>)
    ensures
        match r {
            Some(i) => i < v@.len() && t3_find(triples_view(v@), k@) == i,
            None => t3_find(triples_view(v@), k@) == -1,
        },
{
    let n = v.len();
    let mut i: usize = 0;
    while i < n
        invariant
            i <= n,
            n == v@.len(),
            forall|j: int| 0 <= j < i ==> (#[trigger] triples_view(v@)[j]).0 != k@,
        decreases n - i,
    {
        if str_eq_str(v[i].0.as_str(), k) {
            proof {
                lemma_t3_find_unique(triples_view(v@), k@, i as int);
            }
            return Some(i);
        }
        i = i + 1;
    }
    proof {
        lemma_t3_find_unique(triples_view(v@), k@, n as int);
    }
    None
}

/// Absolute size impact of one delta, computed wide enough that even
/// `i64::MIN` would be safe.
fn abs_impact(x: i64) -> (r: i128)
    ensures
        r == abs_int(x as int),
{
    let w: i128 = x as i128;
    if w < 0 {
        -w
    } else {
        w
    }
}

/// Where a delta of impact `|key|` lands in the sorted output.
fn delta_insert_position(v: &Vec<ExtensionDelta>, key: i64) -> (pos: usize)
    ensures
        pos <= v@.len(),
        forall|j: int| 0 <= j < pos ==> abs_int(key as int) <= abs_int(deltas_view(v@)[j].1),
        pos < v@.len() ==> abs_int(key as int) > abs_int(deltas_view(v@)[pos as int].1),
{
    let n = v.len();
    let mut i: usize = 0;
    while i < n
        invariant
            i <= n,
            n == v@.len(),
            forall|j: int| 0 <= j < i ==> abs_int(key as int) <= abs_int(deltas_view(v@)[j].1),
        decreases n - i,
    {
        let a = abs_impact(key);
        let b = abs_impact(v[i].size_delta);
        if a > b {
            return i;
        }
        i = i + 1;
    }
    n
}

proof fn lemma_insert_delta_unique(
    sorted: Seq<(Seq<char>, int, int)>,
    d: (Seq<char>, int, int),
    p: int,
)
    requires
        0 <= p <= sorted.len(),
        forall|j: int| 0 <= j < p ==> abs_int(d.1) <= abs_int((#[trigger] sorted[j]).1),
        p < sorted.len() ==> abs_int(d.1) > abs_int(sorted[p].1),
    ensures
        spec_insert_delta(sorted, d) =~= sorted.insert(p, d),
    decreases sorted.len(),
{
    if sorted.len() == 0 {
        assert(seq![d] =~= sorted.insert(0, d));
    } else if p == 0 {
        assert(seq![d] + sorted =~= sorted.insert(0, d));
    } else {
        let rest = sorted.drop_first();
        assert(forall|j: int| 0 <= j < rest.len() ==> rest[j] == sorted[j + 1]);
        lemma_insert_delta_unique(rest, d, p - 1);
        assert(seq![sorted[0]] + spec_insert_delta(rest, d) =~= sorted.insert(p, d));
    }
}

/// Reconcile the extension triples of two snapshots into the sorted
/// delta list.
fn reconcile_extensions(start: &Vec<(String, u64, u64)>, end: &Vec<(String, u64, u64)>) -> (r:
    Vec<ExtensionDelta>)
    requires
        forall|i: int|
            0 <= i < start@.len() ==> (#[trigger] start@[i]).1 <= i64::MAX && start@[i].2
                <= i64::MAX,
        forall|i: int|
            0 <= i < end@.len() ==> (#[trigger] end@[i]).1 <= i64::MAX && end@[i].2 <= i64::MAX,
    ensures
        deltas_view(r@) == spec_sort_deltas(
            spec_delta_list(triples_view(start@), triples_view(end@)),
        ),
{
    // the start lookup, a later occurrence of a key replacing an earlier one
    let mut map: Vec<(String, u64, u64)> = Vec::new();
    let sn = start.len();
    let mut i: usize = 0;
    proof {
        assert(triples_view(map@) =~= spec_build_map(triples_view(start@.subrange(0, 0))));
        assert(triples_view(start@.subrange(0, 0)) =~= Seq::<(Seq<char>, u64, u64)>::empty());
    }
    while i < sn
        invariant
            i <= sn,
            sn == start@.len(),
            forall|k: int|
                0 <= k < start@.len() ==> (#[trigger] start@[k]).1 <= i64::MAX && start@[k].2
                    <= i64::MAX,
            triples_view(map@) == spec_build_map(triples_view(start@.subrange(0, i as int))),
            forall|k: int|
                0 <= k < map@.len() ==> (#[trigger] map@[k]).1 <= i64::MAX && map@[k].2
                    <= i64::MAX,
        decreases sn - i,
    {
        let ghost pre = triples_view(start@.subrange(0, i as int));
        let ghost pre2 = triples_view(start@.subrange(0, i as int + 1));
        proof {
            assert(start@.subrange(0, i as int + 1).drop_last() =~= start@.subrange(0, i as int));
            assert(pre2.drop_last() =~= pre);
            assert(pre2.last() == (start@[i as int].0@, start@[i as int].1, start@[i as int].2));
        }
        let t = (start[i].0.clone(), start[i].1, start[i].2);
        match t3_position(&map, t.0.as_str()) {
            Some(j) => {
                map.set(j, t);
                proof {
                    assert(triples_view(map@) =~= spec_build_map(pre2));
                }
            },
            None => {
                map.push(t);
                proof {
                    assert(triples_view(map@) =~= spec_build_map(pre2));
                }
            },
        }
        i = i + 1;
    }
    proof {
        assert(start@.subrange(0, sn as int) =~= start@);
    }
    let ghost m0 = spec_build_map(triples_view(start@));

    // deltas for every extension present in the end snapshot
    let mut deltas: Vec<ExtensionDelta> = Vec::new();
    let en = end.len();
    let mut i2: usize = 0;
    proof {
        assert(triples_view(end@.subrange(0, 0)) =~= Seq::<(Seq<char>, u64, u64)>::empty());
        assert(deltas_view(deltas@) =~= Seq::<(Seq<char>, int, int)>::empty());
    }
    while i2 < en
        invariant
            i2 <= en,
            en == end@.len(),
            forall|k: int|
                0 <= k < end@.len() ==> (#[trigger] end@[k]).1 <= i64::MAX && end@[k].2
                    <= i64::MAX,
            forall|k: int|
                0 <= k < map@.len() ==> (#[trigger] map@[k]).1 <= i64::MAX && map@[k].2
                    <= i64::MAX,
            (deltas_view(deltas@), triples_view(map@)) == spec_end_deltas(
                triples_view(end@.subrange(0, i2 as int)),
                m0,
            ),
        decreases en - i2,
    {
        let ghost pre = triples_view(end@.subrange(0, i2 as int));
        let ghost pre2 = triples_view(end@.subrange(0, i2 as int + 1));
        proof {
            assert(end@.subrange(0, i2 as int + 1).drop_last() =~= end@.subrange(0, i2 as int));
            assert(pre2.drop_last() =~= pre);
            assert(pre2.last() == (end@[i2 as int].0@, end@[i2 as int].1, end@[i2 as int].2));
        }
        let ext = end[i2].0.clone();
        let esize = end[i2].1;
        let ecount = end[i2].2;
        match t3_position(&map, ext.as_str()) {
            Some(j) => {
                let ssize = map[j].1;
                let scount = map[j].2;
                let d = ExtensionDelta {
                    extension: ext,
                    size_delta: (esize as i64) - (ssize as i64),
                    count_delta: (ecount as i64) - (scount as i64),
                };
                deltas.push(d);
                map.remove(j);
                proof {
                    assert(deltas_view(deltas@) =~= spec_end_deltas(pre2, m0).0);
                    assert(triples_view(map@) =~= spec_end_deltas(pre2, m0).1);
                }
            },
            None => {
                let d = ExtensionDelta {
                    extension: ext,
                    size_delta: esize as i64,
                    count_delta: ecount as i64,
                };
                deltas.push(d);
                proof {
                    assert(deltas_view(deltas@) =~= spec_end_deltas(pre2, m0).0);
                    assert(triples_view(map@) =~= spec_end_deltas(pre2, m0).1);
                }
            },
        }
        i2 = i2 + 1;
    }
    proof {
        assert(end@.subrange(0, en as int) =~= end@);
    }
    let ghost after_end = spec_end_deltas(triples_view(end@), m0);

    // extensions that disappeared between the snapshots
    let mn = map.len();
    let mut i3: usize = 0;
    proof {
        assert(deltas_view(deltas@) =~= after_end.0 + spec_gone_deltas(
            triples_view(map@).subrange(0, 0),
        ));
    }
    while i3 < mn
        invariant
            i3 <= mn,
            mn == map@.len(),
            forall|k: int|
                0 <= k < map@.len() ==> (#[trigger] map@[k]).1 <= i64::MAX && map@[k].2
                    <= i64::MAX,
            triples_view(map@) == after_end.1,
            deltas_view(deltas@) == after_end.0 + spec_gone_deltas(
                triples_view(map@).subrange(0, i3 as int),
            ),
        decreases mn - i3,
    {
        let ext = map[i3].0.clone();
        let ssize = map[i3].1;
        let scount = map[i3].2;
        let d = ExtensionDelta {
            extension: ext,
            size_delta: -(ssize as i64),
            count_delta: -(scount as i64),
        };
        let ghost dpre = deltas@;
        deltas.push(d);
        proof {
            assert(deltas_view(deltas@) =~= deltas_view(dpre).push(
                (map@[i3 as int].0@, -(map@[i3 as int].1 as int), -(map@[i3 as int].2 as int)),
            ));
            assert(spec_gone_deltas(triples_view(map@).subrange(0, i3 as int + 1))
                =~= spec_gone_deltas(triples_view(map@).subrange(0, i3 as int)).push(
                (map@[i3 as int].0@, -(map@[i3 as int].1 as int), -(map@[i3 as int].2 as int)),
            ));
            assert(deltas_view(deltas@) =~= after_end.0 + spec_gone_deltas(
                triples_view(map@).subrange(0, i3 as int + 1),
            ));
        }
        i3 = i3 + 1;
    }
    proof {
        assert(triples_view(map@).subrange(0, mn as int) =~= triples_view(map@));
        assert(deltas_view(deltas@) =~= spec_delta_list(triples_view(start@), triples_view(end@)));
    }
    let ghost unsorted = deltas_view(deltas@);

    // stable insertion sort by descending absolute size impact
    let mut out: Vec<ExtensionDelta> = Vec::new();
    let dn = deltas.len();
    let mut i4: usize = 0;
    proof {
        assert(deltas_view(out@) =~= spec_sort_deltas(unsorted.subrange(0, 0)));
        assert(unsorted.subrange(0, 0) =~= Seq::<(Seq<char>, int, int)>::empty());
    }
    while i4 < dn
        invariant
            i4 <= dn,
            dn == deltas@.len(),
            unsorted == deltas_view(deltas@),
            deltas_view(out@) == spec_sort_deltas(unsorted.subrange(0, i4 as int)),
        decreases dn - i4,
    {
        let ghost pre = unsorted.subrange(0, i4 as int);
        let ghost pre2 = unsorted.subrange(0, i4 as int + 1);
        proof {
            assert(pre2.drop_last() =~= pre);
            assert(pre2.last() == unsorted[i4 as int]);
        }
        let key = deltas[i4].size_delta;
        let pos = delta_insert_position(&out, key);
        let d = ExtensionDelta {
            extension: deltas[i4].extension.clone(),
            size_delta: deltas[i4].size_delta,
            count_delta: deltas[i4].count_delta,
        };
        proof {
            lemma_insert_delta_unique(deltas_view(out@), unsorted[i4 as int], pos as int);
        }
        out.insert(pos, d);
        proof {
            assert(deltas_view(out@) =~= spec_sort_deltas(pre2));
        }
        i4 = i4 + 1;
    }
    proof {
        assert(unsorted.subrange(0, dn as int) =~= unsorted);
    }
    out
}

impl AgentSnapshot {
    /// Reduce a completed scan into the compact record an agent
    /// uploads: the aggregate counters plus the ten largest extensions
    /// by total size.
    pub fn from_stats(agent_id: String, timestamp: i64, hostname: String, stats: &ScanStats) -> (s:
        AgentSnapshot)
        ensures
            s.agent_id == agent_id,
            s.timestamp == timestamp,
            s.hostname == hostname,
            s.total_size_bytes == stats.total_size_bytes,
            s.file_count == stats.total_files,
            triples_view(s.top_extensions@) == spec_top_extensions(stats.extensions@, 10),
            s.top_extensions@.len() <= 10,
    {
        let top_extensions = stats.top_extensions(10);
        AgentSnapshot {
            agent_id,
            timestamp,
            hostname,
            total_size_bytes: stats.total_size_bytes,
            file_count: stats.total_files,
            top_extensions,
        }
    }
}

/// Compute the growth report between two resolved snapshot endpoints.
/// When both are present: the duration, byte and file growth are the
/// end values minus the start values, and the extension deltas are the
/// reconciled list sorted by descending absolute size impact.  When
/// either endpoint is missing, the report is the defined zeroed
/// fallback, never an error.
pub fn compute_velocity(
    agent_id: String,
    start: Option<&AgentSnapshot>,
    end: Option<&AgentSnapshot>,
) -> (r: VelocityReport)
    requires
        match (start, end) {
            (Some(s), Some(e)) => snapshot_bounded(*s) && snapshot_bounded(*e) && i64::MIN
                <= e.timestamp - s.timestamp <= i64::MAX,
            _ => true,
        },
    ensures
        r.agent_id == agent_id,
        match (start, end) {
            (Some(s), Some(e)) => spec_velocity_when_present(*s, *e, r),
            _ => spec_velocity_zeroed(r),
        },
{
    match (start, end) {
        (Some(s), Some(e)) => {
            let duration = e.timestamp - s.timestamp;
            let growth_bytes = (e.total_size_bytes as i64) - (s.total_size_bytes as i64);
            let growth_files = (e.file_count as i64) - (s.file_count as i64);
            let deltas = reconcile_extensions(&s.top_extensions, &e.top_extensions);
            VelocityReport {
                agent_id,
                t_start: s.timestamp,
                t_end: e.timestamp,
                duration_seconds: duration,
                growth_bytes,
                growth_files,
                extension_deltas: deltas,
            }
        },
        _ => {
            let deltas: Vec<ExtensionDelta> = Vec::new();
            VelocityReport {
                agent_id,
                t_start: 0,
                t_end: 0,
                duration_seconds: 0,
                growth_bytes: 0,
                growth_files: 0,
                extension_deltas: deltas,
            }
        },
    }
}

} // verus!
