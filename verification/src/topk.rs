use vstd::multiset::Multiset;
use vstd::prelude::*;

use crate::models::FileRecord;

verus! {

/// The sizes of a run of file records, in the same order.
pub open spec fn sizes_of(s: Seq<FileRecord>) -> Seq<u64> {
    s.map_values(|r: FileRecord| r.size_bytes)
}

/// The records are ordered by weakly increasing size.
pub open spec fn sorted_asc(s: Seq<FileRecord>) -> bool {
    forall|i: int, j: int|
        #![trigger s[i], s[j]]
        0 <= i <= j < s.len() ==> s[i].size_bytes <= s[j].size_bytes
}

/// The records are ordered by weakly decreasing size.
pub open spec fn sorted_desc(s: Seq<FileRecord>) -> bool {
    forall|i: int, j: int|
        #![trigger s[i], s[j]]
        0 <= i <= j < s.len() ==> s[i].size_bytes >= s[j].size_bytes
}

/// Where a record of size `sz` lands in a size-sorted run: right after
/// every record whose size is at most `sz`, so that equal sizes keep
/// their insertion order.
pub open spec fn insert_pos(s: Seq<FileRecord>, sz: u64) -> int
    decreases s.len(),
{
    if s.len() == 0 {
        0
    } else if s[0].size_bytes <= sz {
        1 + insert_pos(s.drop_first(), sz)
    } else {
        0
    }
}

/// What one `offer` does to the held run: insert while below capacity,
/// else evict the minimum exactly when the new record is strictly
/// larger, else discard the new record.
pub open spec fn offer_spec(s: Seq<FileRecord>, cap: nat, rec: FileRecord) -> Seq<FileRecord> {
    if s.len() < cap {
        s.insert(insert_pos(s, rec.size_bytes), rec)
    } else if cap > 0 && rec.size_bytes > s[0].size_bytes {
        let t = s.drop_first();
        t.insert(insert_pos(t, rec.size_bytes), rec)
    } else {
        s
    }
}

/// `kept` is a size multiset drawn from `all`, holds `min(|all|, k)`
/// elements, and every size left out is at most every size kept: the
/// defining property of a top-k selection.
pub open spec fn is_top_k(all: Seq<u64>, kept: Seq<u64>, k: nat) -> bool {
    &&& kept.len() == if all.len() < k {
        all.len()
    } else {
        k
    }
    &&& kept.to_multiset().subset_of(all.to_multiset())
    &&& forall|x: u64, y: u64|
        #![trigger all.to_multiset().count(x), kept.to_multiset().count(y)]
        all.to_multiset().count(x) > kept.to_multiset().count(x) && kept.to_multiset().count(y)
            > 0 ==> x <= y
}

proof fn lemma_insert_pos_bounds(s: Seq<FileRecord>, sz: u64)
    ensures
        0 <= insert_pos(s, sz) <= s.len(),
        forall|j: int| 0 <= j < insert_pos(s, sz) ==> (#[trigger] s[j]).size_bytes <= sz,
        insert_pos(s, sz) < s.len() ==> s[insert_pos(s, sz)].size_bytes > sz,
    decreases s.len(),
{
    if s.len() == 0 {
    } else if s[0].size_bytes <= sz {
        lemma_insert_pos_bounds(s.drop_first(), sz);
        assert(forall|j: int| 0 <= j < s.drop_first().len() ==> s.drop_first()[j] == s[j + 1]);
        assert forall|j: int| 0 <= j < insert_pos(s, sz) implies (#[trigger] s[j]).size_bytes
            <= sz by {
            if j > 0 {
                assert(s.drop_first()[j - 1] == s[j]);
                assert(s.drop_first()[j - 1].size_bytes <= sz);
            }
        }
    }
}

proof fn lemma_insert_pos_unique(s: Seq<FileRecord>, sz: u64, i: int)
    requires
        0 <= i <= s.len(),
        forall|j: int| 0 <= j < i ==> (#[trigger] s[j]).size_bytes <= sz,
        i == s.len() || s[i].size_bytes > sz,
    ensures
        insert_pos(s, sz) == i,
    decreases s.len(),
{
    if s.len() == 0 {
    } else if i == 0 {
    } else {
        assert(s[0].size_bytes <= sz);
        assert(forall|j: int| 0 <= j < s.drop_first().len() ==> s.drop_first()[j] == s[j + 1]);
        lemma_insert_pos_unique(s.drop_first(), sz, i - 1);
    }
}

proof fn lemma_insert_sorted(s: Seq<FileRecord>, rec: FileRecord)
    requires
        sorted_asc(s),
    ensures
        sorted_asc(s.insert(insert_pos(s, rec.size_bytes), rec)),
{
    let sz = rec.size_bytes;
    let p = insert_pos(s, sz);
    lemma_insert_pos_bounds(s, sz);
    s.insert_ensures(p, rec);
    let t = s.insert(p, rec);
    assert forall|i: int, j: int| 0 <= i <= j < t.len() implies (#[trigger] t[i]).size_bytes <= (
    #[trigger] t[j]).size_bytes by {
        if i < p && j < p {
        } else if i == p && j == p {
        } else if j == p {
            assert(t[i] == s[i]);
        } else if i == p && j > p {
            assert(t[j] == s[j - 1]);
            assert(s[j - 1].size_bytes > sz);
        } else if i < p && j > p {
            assert(t[i] == s[i]);
            assert(t[j] == s[j - 1]);
        } else if i > p {
            assert(t[i] == s[i - 1]);
            assert(t[j] == s[j - 1]);
        }
    }
}

proof fn lemma_sizes_of_insert(s: Seq<FileRecord>, p: int, rec: FileRecord)
    requires
        0 <= p <= s.len(),
    ensures
        sizes_of(s.insert(p, rec)) =~= sizes_of(s).insert(p, rec.size_bytes),
{
    s.insert_ensures(p, rec);
    sizes_of(s).insert_ensures(p, rec.size_bytes);
}

proof fn lemma_subset_len_equal(m1: Multiset<u64>, m2: Multiset<u64>)
    requires
        m1.subset_of(m2),
        m1.len() == m2.len(),
    ensures
        forall|x: u64| #![trigger m1.count(x)] m1.count(x) == m2.count(x),
{
    broadcast use vstd::multiset::group_multiset_axioms;

    assert forall|x: u64| #![trigger m1.count(x)] m1.count(x) == m2.count(x) by {
        assert(m2.sub(m1).len() == 0);
        assert(m2.sub(m1).count(x) <= m2.sub(m1).len());
        assert(m2.sub(m1).count(x) == m2.count(x) - m1.count(x));
    }
}

/// One `offer` keeps the held sizes a true top-k selection of
/// everything seen so far.
pub proof fn lemma_offer_preserves_top_k(all: Seq<u64>, s: Seq<FileRecord>, cap: nat, rec: FileRecord)
    requires
        sorted_asc(s),
        is_top_k(all, sizes_of(s), cap),
    ensures
        is_top_k(all.push(rec.size_bytes), sizes_of(offer_spec(s, cap, rec)), cap),
{
    broadcast use vstd::seq_lib::group_to_multiset_ensures;
    broadcast use vstd::multiset::group_multiset_axioms;

    let sz = rec.size_bytes;
    let kept = sizes_of(s);
    let keptm = kept.to_multiset();
    let allm = all.to_multiset();
    let all2 = all.push(sz);
    let kept2 = sizes_of(offer_spec(s, cap, rec));
    assert(all2.to_multiset() =~= allm.insert(sz));
    assert(kept.len() == s.len());
    if s.len() < cap {
        // below capacity: the new size is simply added on both sides
        let p = insert_pos(s, sz);
        lemma_insert_pos_bounds(s, sz);
        lemma_sizes_of_insert(s, p, rec);
        assert(kept2.to_multiset() =~= keptm.insert(sz)) by {
            kept.to_multiset_ensures();
            assert(kept.insert(p, sz).to_multiset() =~= kept.to_multiset().insert(sz));
        }
        assert(kept.len() == all.len()) by {
            if all.len() >= cap {
                assert(kept.len() == cap);
            }
        }
        lemma_subset_len_equal(keptm, allm);
        assert(kept2.to_multiset().subset_of(all2.to_multiset()));
        assert forall|x: u64, y: u64|
            #![trigger all2.to_multiset().count(x), kept2.to_multiset().count(y)]
            all2.to_multiset().count(x) > kept2.to_multiset().count(x)
                && kept2.to_multiset().count(y) > 0 implies x <= y by {
            assert(allm.count(x) == keptm.count(x));
            assert(all2.to_multiset().count(x) == kept2.to_multiset().count(x));
        }
    } else if cap > 0 && sz > s[0].size_bytes {
        // at capacity: the smallest held size leaves, the new one enters
        let m0 = s[0].size_bytes;
        let t = s.drop_first();
        let p = insert_pos(t, sz);
        lemma_insert_pos_bounds(t, sz);
        lemma_sizes_of_insert(t, p, rec);
        assert(s.len() == cap);
        assert(all.len() >= cap);
        assert(sizes_of(t) =~= kept.drop_first());
        assert(kept.drop_first() =~= kept.remove(0));
        assert(kept.remove(0).to_multiset() =~= keptm.remove(kept[0]));
        assert(kept[0] == m0);
        assert(kept2.to_multiset() =~= keptm.remove(m0).insert(sz)) by {
            sizes_of(t).to_multiset_ensures();
            assert(sizes_of(t).insert(p, sz).to_multiset() =~= sizes_of(t).to_multiset().insert(
                sz,
            ));
        }
        assert(keptm.count(m0) > 0) by {
            assert(kept[0] == m0);
            assert(kept.contains(m0));
        }
        // every kept size is at least the old minimum m0
        assert forall|y: u64| #![trigger keptm.count(y)] keptm.count(y) > 0 implies m0 <= y by {
            assert(kept.contains(y));
            let i = choose|i: int| 0 <= i < kept.len() && kept[i] == y;
            assert(s[i].size_bytes == y);
            assert(s[0].size_bytes <= s[i].size_bytes);
        }
        assert(kept2.len() == if all2.len() < cap {
            all2.len()
        } else {
            cap
        });
        assert(kept2.to_multiset().subset_of(all2.to_multiset())) by {
            assert forall|v: u64| #[trigger]
                kept2.to_multiset().count(v) <= all2.to_multiset().count(v) by {
                assert(kept2.to_multiset().count(v) == keptm.remove(m0).insert(sz).count(v));
                assert(keptm.count(v) <= allm.count(v));
            }
        }
        assert forall|x: u64, y: u64|
            #![trigger all2.to_multiset().count(x), kept2.to_multiset().count(y)]
            all2.to_multiset().count(x) > kept2.to_multiset().count(x)
                && kept2.to_multiset().count(y) > 0 implies x <= y by {
            // x is dropped from all2: either it was dropped before, or it is m0
            if allm.count(x) > keptm.count(x) {
                // previously dropped: x <= m0 < sz, and x <= every old kept size
                if kept2.to_multiset().count(y) > 0 {
                    if keptm.count(y) > 0 {
                    } else {
                        assert(y == sz);
                        assert(x <= m0);
                        assert(m0 < sz);
                    }
                }
            } else {
                assert(x == m0);
                if keptm.count(y) > 0 {
                } else {
                    assert(y == sz);
                }
            }
        }
    } else {
        // discarded: the new size joins the dropped ones
        if cap == 0 {
            assert(kept.len() == 0);
            assert forall|x: u64, y: u64|
                #![trigger all2.to_multiset().count(x), kept2.to_multiset().count(y)]
                all2.to_multiset().count(x) > kept2.to_multiset().count(x)
                    && kept2.to_multiset().count(y) > 0 implies x <= y by {
                assert(kept2.to_multiset().count(y) == keptm.count(y));
                assert(kept.contains(y));
            }
        } else {
            let m0 = s[0].size_bytes;
            assert(s.len() == cap);
            assert(all.len() >= cap);
            assert(sz <= m0);
            assert forall|y: u64| #![trigger keptm.count(y)] keptm.count(y) > 0 implies m0 <= y by {
                assert(kept.contains(y));
                let i = choose|i: int| 0 <= i < kept.len() && kept[i] == y;
                assert(s[i].size_bytes == y);
                assert(s[0].size_bytes <= s[i].size_bytes);
            }
            assert forall|x: u64, y: u64|
                #![trigger all2.to_multiset().count(x), kept2.to_multiset().count(y)]
                all2.to_multiset().count(x) > kept2.to_multiset().count(x)
                    && kept2.to_multiset().count(y) > 0 implies x <= y by {
                assert(kept2.to_multiset().count(y) == keptm.count(y));
                if allm.count(x) > keptm.count(x) {
                } else {
                    assert(x == sz);
                }
            }
        }
    }
}

/// A run of sizes in weakly decreasing order.
pub open spec fn sorted_desc_sizes(s: Seq<u64>) -> bool {
    forall|i: int, j: int| #![trigger s[i], s[j]] 0 <= i <= j < s.len() ==> s[i] >= s[j]
}

/// The sizes of a size-sorted run of records are themselves sorted.
pub proof fn lemma_sizes_sorted_desc(s: Seq<FileRecord>)
    requires
        sorted_desc(s),
    ensures
        sorted_desc_sizes(sizes_of(s)),
{
    assert forall|i: int, j: int|
        #![trigger sizes_of(s)[i], sizes_of(s)[j]]
        0 <= i <= j < sizes_of(s).len() implies sizes_of(s)[i] >= sizes_of(s)[j] by {
        assert(s[i].size_bytes >= s[j].size_bytes);
    }
}

proof fn lemma_top_k_head(all: Seq<u64>, a: Seq<u64>, b: Seq<u64>, k: nat)
    requires
        is_top_k(all, a, k),
        sorted_desc_sizes(a),
        is_top_k(all, b, k),
        a.len() > 0,
        b.len() > 0,
    ensures
        b[0] <= a[0],
{
    broadcast use vstd::seq_lib::group_to_multiset_ensures;
    broadcast use vstd::multiset::group_multiset_axioms;

    if b[0] > a[0] {
        assert(b.to_multiset().count(b[0]) > 0) by {
            assert(b.contains(b[0]));
        }
        assert(a.to_multiset().count(b[0]) == 0) by {
            if a.to_multiset().count(b[0]) > 0 {
                assert(a.contains(b[0]));
                let i = choose|i: int| 0 <= i < a.len() && a[i] == b[0];
                assert(a[0] >= a[i]);
            }
        }
        assert(all.to_multiset().count(b[0]) >= b.to_multiset().count(b[0]));
        assert(a.to_multiset().count(a[0]) > 0) by {
            assert(a.contains(a[0]));
        }
        assert(all.to_multiset().count(b[0]) > a.to_multiset().count(b[0]));
        assert(b[0] <= a[0]);
        assert(false);
    }
}

/// Top-K correctness: the top-k selection of a run of sizes, sorted
/// descending, is unique — so what the tracker drains is THE k
/// largest sizes in descending order, not merely one candidate.
pub proof fn lemma_top_k_unique(all: Seq<u64>, a: Seq<u64>, b: Seq<u64>, k: nat)
    requires
        is_top_k(all, a, k),
        sorted_desc_sizes(a),
        is_top_k(all, b, k),
        sorted_desc_sizes(b),
    ensures
        a == b,
    decreases a.len(),
{
    broadcast use vstd::seq_lib::group_to_multiset_ensures;
    broadcast use vstd::multiset::group_multiset_axioms;

    if a.len() == 0 {
        assert(b.len() == 0);
        assert(a =~= b);
    } else {
        assert(b.len() == a.len());
        lemma_top_k_head(all, a, b, k);
        lemma_top_k_head(all, b, a, k);
        assert(a[0] == b[0]);
        let x = a[0];
        assert(a.to_multiset().count(x) > 0) by {
            assert(a.contains(x));
        }
        assert(all.to_multiset().count(x) > 0);
        assert(all.contains(x));
        let i = choose|i: int| 0 <= i < all.len() && all[i] == x;
        let all2 = all.remove(i);
        assert(all2.to_multiset() =~= all.to_multiset().remove(x));
        let a2 = a.drop_first();
        let b2 = b.drop_first();
        assert(a2 =~= a.remove(0));
        assert(b2 =~= b.remove(0));
        assert(a2.to_multiset() =~= a.to_multiset().remove(x));
        assert(b2.to_multiset() =~= b.to_multiset().remove(x));
        assert(forall|j: int| 0 <= j < a2.len() ==> a2[j] == a[j + 1]);
        assert(forall|j: int| 0 <= j < b2.len() ==> b2[j] == b[j + 1]);
        assert(sorted_desc_sizes(a2)) by {
            assert forall|p: int, q: int|
                #![trigger a2[p], a2[q]]
                0 <= p <= q < a2.len() implies a2[p] >= a2[q] by {
                assert(a[p + 1] >= a[q + 1]);
            }
        }
        assert(sorted_desc_sizes(b2)) by {
            assert forall|p: int, q: int|
                #![trigger b2[p], b2[q]]
                0 <= p <= q < b2.len() implies b2[p] >= b2[q] by {
                assert(b[p + 1] >= b[q + 1]);
            }
        }
        assert(k >= 1);
        assert(is_top_k(all2, a2, (k - 1) as nat)) by {
            lemma_top_k_step(all, a, k, x, all2, a2);
        }
        assert(is_top_k(all2, b2, (k - 1) as nat)) by {
            lemma_top_k_step(all, b, k, x, all2, b2);
        }
        lemma_top_k_unique(all2, a2, b2, (k - 1) as nat);
        assert(a =~= b) by {
            assert(forall|j: int| 0 <= j < a.len() ==> a[j] == b[j]) by {
                assert(forall|j: int| 1 <= j < a.len() ==> a[j] == a2[j - 1] && b[j] == b2[j - 1]);
            }
        }
    }
}

proof fn lemma_top_k_step(
    all: Seq<u64>,
    a: Seq<u64>,
    k: nat,
    x: u64,
    all2: Seq<u64>,
    a2: Seq<u64>,
)
    requires
        is_top_k(all, a, k),
        k >= 1,
        a.len() > 0,
        all2.len() == all.len() - 1,
        a2.len() == a.len() - 1,
        all2.to_multiset() == all.to_multiset().remove(x),
        a2.to_multiset() == a.to_multiset().remove(x),
        a.to_multiset().count(x) > 0,
        all.to_multiset().count(x) > 0,
    ensures
        is_top_k(all2, a2, (k - 1) as nat),
{
    broadcast use vstd::seq_lib::group_to_multiset_ensures;
    broadcast use vstd::multiset::group_multiset_axioms;

    assert(a2.len() == if all2.len() < (k - 1) as nat {
        all2.len()
    } else {
        (k - 1) as nat
    });
    assert(a2.to_multiset().subset_of(all2.to_multiset())) by {
        assert forall|v: u64| #[trigger]
            a2.to_multiset().count(v) <= all2.to_multiset().count(v) by {
            assert(a.to_multiset().count(v) <= all.to_multiset().count(v));
        }
    }
    assert forall|p: u64, q: u64|
        #![trigger all2.to_multiset().count(p), a2.to_multiset().count(q)]
        all2.to_multiset().count(p) > a2.to_multiset().count(p) && a2.to_multiset().count(q)
            > 0 implies p <= q by {
        assert(all.to_multiset().count(p) > a.to_multiset().count(p));
        assert(a.to_multiset().count(q) > 0);
    }
}

/// One `offer` keeps the held run sorted by weakly increasing size.
pub proof fn lemma_offer_preserves_sorted(s: Seq<FileRecord>, cap: nat, rec: FileRecord)
    requires
        sorted_asc(s),
    ensures
        sorted_asc(offer_spec(s, cap, rec)),
{
    if s.len() < cap {
        lemma_insert_sorted(s, rec);
    } else if cap > 0 && rec.size_bytes > s[0].size_bytes {
        let t = s.drop_first();
        assert forall|i: int, j: int| 0 <= i <= j < t.len() implies (#[trigger] t[i]).size_bytes
            <= (#[trigger] t[j]).size_bytes by {
            assert(t[i] == s[i + 1]);
            assert(t[j] == s[j + 1]);
        }
        lemma_insert_sorted(t, rec);
    }
}

/// Fixed-capacity tracker for the largest-by-size file records seen so
/// far.  Holds at most `cap` records, kept sorted by weakly increasing
/// size; ties retain the earlier-offered record.
pub struct BoundedTopK {
    cap: usize,
    items: Vec<FileRecord>,
}

impl View for BoundedTopK {
    type V = Seq<FileRecord>;

    closed spec fn view(&self) -> Seq<FileRecord> {
        self.items@
    }
}

impl BoundedTopK {
    /// The configured capacity `K`.
    pub closed spec fn cap(self) -> nat {
        self.cap as nat
    }

    /// Well-formed: sorted by weakly increasing size, never above capacity.
    pub open spec fn wf(self) -> bool {
        &&& sorted_asc(self@)
        &&& self@.len() <= self.cap()
    }

    /// An empty tracker that will retain at most `cap` records.
    pub fn new(cap: usize) -> (t: BoundedTopK)
        ensures
            t.wf(),
            t.cap() == cap,
            t@ == Seq::<FileRecord>::empty(),
    {
        let t = BoundedTopK { cap, items: Vec::new() };
        proof {
            assert(t@ =~= Seq::<FileRecord>::empty());
        }
        t
    }

    /// How many records are currently held.
    pub fn len(&self) -> (n: usize)
        ensures
            n == self@.len(),
    {
        self.items.len()
    }

    /// Offer one record: kept while below capacity; above it, the
    /// current minimum is evicted exactly when the new record is
    /// strictly larger, and the new record is discarded otherwise.
    pub fn offer(&mut self, rec: FileRecord)
        requires
            old(self).wf(),
        ensures
            final(self).wf(),
            final(self).cap() == old(self).cap(),
            final(self)@ == offer_spec(old(self)@, old(self).cap(), rec),
    {
        if self.items.len() < self.cap {
            let pos = insert_position(&self.items, rec.size_bytes);
            proof {
                lemma_insert_sorted(self.items@, rec);
            }
            self.items.insert(pos, rec);
        } else if self.cap > 0 && rec.size_bytes > self.items[0].size_bytes {
            let ghost s = self.items@;
            self.items.remove(0);
            proof {
                assert(self.items@ =~= s.drop_first());
                assert(sorted_asc(self.items@)) by {
                    assert(forall|j: int|
                        0 <= j < s.drop_first().len() ==> s.drop_first()[j] == s[j + 1]);
                }
            }
            let pos = insert_position(&self.items, rec.size_bytes);
            proof {
                lemma_insert_sorted(self.items@, rec);
            }
            self.items.insert(pos, rec);
        }
    }

    /// Consume the tracker and hand the held records out, largest
    /// first; equal sizes come out in reverse insertion order.
    pub fn drain_sorted(self) -> (out: Vec<FileRecord>)
        requires
            self.wf(),
        ensures
            out@ == self@.reverse(),
            sorted_desc(out@),
            out@.len() == self@.len(),
    {
        let BoundedTopK { cap: _, mut items } = self;
        let ghost orig = items@;
        let mut out: Vec<FileRecord> = Vec::new();
        proof {
            assert(out@ =~= orig.subrange(items@.len() as int, orig.len() as int).reverse());
        }
        while items.len() > 0
            invariant
                items@.len() <= orig.len(),
                items@ == orig.subrange(0, items@.len() as int),
                out@ == orig.subrange(items@.len() as int, orig.len() as int).reverse(),
            decreases items@.len(),
        {
            let ghost n = items@.len() as int;
            let r = items.pop().unwrap();
            out.push(r);
            proof {
                assert(r == orig[n - 1]);
                assert(items@ =~= orig.subrange(0, n - 1));
                assert(out@ =~= orig.subrange(n - 1, orig.len() as int).reverse());
            }
        }
        proof {
            assert(out@ =~= orig.reverse());
            assert(sorted_desc(out@)) by {
                assert(forall|i: int|
                    0 <= i < orig.len() ==> out@[i] == orig[orig.len() - 1 - i]);
            }
        }
        out
    }
}

/// Where to insert a record of size `sz` so the vector stays sorted:
/// just past every held record whose size is at most `sz`.
fn insert_position(v: &Vec<FileRecord>, sz: u64) -> (pos: usize)
    ensures
        pos == insert_pos(v@, sz),
        pos <= v@.len(),
{
    let mut i: usize = 0;
    while i < v.len() && v[i].size_bytes <= sz
        invariant
            i <= v@.len(),
            forall|j: int| 0 <= j < i ==> (#[trigger] v@[j]).size_bytes <= sz,
        decreases v@.len() - i,
    {
        i = i + 1;
    }
    proof {
        lemma_insert_pos_unique(v@, sz, i as int);
    }
    i
}

/// A well-formed tracker never holds more than its capacity `K`.
pub proof fn lemma_capacity_invariant(t: BoundedTopK)
    requires
        t.wf(),
    ensures
        t@.len() <= t.cap(),
{
}

} // verus!
