use vstd::prelude::*;

use crate::models::{clamp_add, sat_add, ExtensionStat};
use crate::text::str_eq_str;

verus! {

/// Where key `k` sits in an association run, or `-1` when absent.
pub open spec fn find_key(l: Seq<(Seq<char>, ExtensionStat)>, k: Seq<char>) -> int
    decreases l.len(),
{
    if l.len() == 0 {
        -1
    } else if l[0].0 == k {
        0
    } else {
        let r = find_key(l.drop_first(), k);
        if r < 0 {
            -1
        } else {
            r + 1
        }
    }
}

proof fn lemma_find_key_unique(l: Seq<(Seq<char>, ExtensionStat)>, k: Seq<char>, i: int)
    requires
        0 <= i <= l.len(),
        forall|j: int| 0 <= j < i ==> (#[trigger] l[j]).0 != k,
        i == l.len() || l[i].0 == k,
    ensures
        i < l.len() ==> find_key(l, k) == i,
        i == l.len() ==> find_key(l, k) == -1,
    decreases l.len(),
{
    if l.len() == 0 {
    } else if i == 0 {
    } else {
        assert(forall|j: int| 0 <= j < l.len() - 1 ==> l.drop_first()[j] == l[j + 1]);
        lemma_find_key_unique(l.drop_first(), k, i - 1);
    }
}

/// What one `record` call does to the ledger: a first sighting appends
/// a fresh entry with count 1; a later sighting bumps the entry's
/// count and size in place, clamped at the top of the `u64` range.
pub open spec fn spec_record(
    l: Seq<(Seq<char>, ExtensionStat)>,
    k: Seq<char>,
    size: u64,
) -> Seq<(Seq<char>, ExtensionStat)> {
    let i = find_key(l, k);
    if i < 0 {
        l.push((k, ExtensionStat { count: 1, size }))
    } else {
        l.update(
            i,
            (
                k,
                ExtensionStat {
                    count: clamp_add(l[i].1.count, 1),
                    size: clamp_add(l[i].1.size, size),
                },
            ),
        )
    }
}

/// Per-scan mapping from a normalized file extension to its running
/// count and total size.  Entries keep their first-sighting order.
#[derive(Debug)]
pub struct ExtensionLedger {
    entries: Vec<(String, ExtensionStat)>,
}

impl View for ExtensionLedger {
    type V = Seq<(Seq<char>, ExtensionStat)>;

    closed spec fn view(&self) -> Seq<(Seq<char>, ExtensionStat)> {
        self.entries@.map_values(|p: (String, ExtensionStat)| (p.0@, p.1))
    }
}

impl ExtensionLedger {
    /// Well-formed: every key appears once, and every entry was seen
    /// at least once.
    pub open spec fn wf(self) -> bool {
        &&& forall|i: int, j: int|
            0 <= i < j < self@.len() ==> (#[trigger] self@[i]).0 != (#[trigger] self@[j]).0
        &&& forall|i: int| 0 <= i < self@.len() ==> (#[trigger] self@[i]).1.count >= 1
    }

    /// An empty ledger.
    pub fn new() -> (led: ExtensionLedger)
        ensures
            led.wf(),
            led@ == Seq::<(Seq<char>, ExtensionStat)>::empty(),
    {
        let led = ExtensionLedger { entries: Vec::new() };
        proof {
            assert(led@ =~= Seq::<(Seq<char>, ExtensionStat)>::empty());
        }
        led
    }

    /// How many distinct extensions are recorded.
    pub fn len(&self) -> (n: usize)
        ensures
            n == self@.len(),
    {
        self.entries.len()
    }

    /// Record one more file of extension `ext` holding `size` bytes.
    pub fn record(&mut self, ext: String, size: u64)
        requires
            old(self).wf(),
        ensures
            final(self).wf(),
            final(self)@ == spec_record(old(self)@, ext@, size),
    {
        let n = self.entries.len();
        let mut i: usize = 0;
        while i < n
            invariant
                i <= n,
                n == self.entries@.len(),
                old(self).wf(),
                self@ == old(self)@,
                self.entries@ == old(self).entries@,
                forall|j: int| 0 <= j < i ==> (#[trigger] self@[j]).0 != ext@,
            decreases n - i,
        {
            if str_eq_str(self.entries[i].0.as_str(), ext.as_str()) {
                let key = self.entries[i].0.clone();
                let c = self.entries[i].1.count;
                let s = self.entries[i].1.size;
                let st = ExtensionStat { count: sat_add(c, 1), size: sat_add(s, size) };
                self.entries.set(i, (key, st));
                proof {
                    assert(old(self)@[i as int].0 == ext@);
                    lemma_find_key_unique(old(self)@, ext@, i as int);
                    assert(self@ =~= old(self)@.update(i as int, (ext@, st)));
                    assert(self@ =~= spec_record(old(self)@, ext@, size));
                    assert(forall|x: int|
                        0 <= x < self@.len() ==> (#[trigger] self@[x]).0 == old(self)@[x].0);
                    assert forall|a: int, b: int|
                        0 <= a < b < self@.len() implies (#[trigger] self@[a]).0 != (
                    #[trigger] self@[b]).0 by {
                        assert(old(self)@[a].0 != old(self)@[b].0);
                    }
                    assert forall|x: int| 0 <= x < self@.len() implies (#[trigger] self@[x]).1.count
                        >= 1 by {
                        if x != i {
                            assert(self@[x] == old(self)@[x]);
                        }
                    }
                }
                return ;
            }
            i = i + 1;
        }
        self.entries.push((ext, ExtensionStat { count: 1, size }));
        proof {
            lemma_find_key_unique(old(self)@, ext@, n as int);
            assert(self@ =~= spec_record(old(self)@, ext@, size));
            assert forall|a: int, b: int| 0 <= a < b < self@.len() implies (#[trigger] self@[a]).0
                != (#[trigger] self@[b]).0 by {
                if b < self@.len() - 1 {
                    assert(old(self)@[a].0 == self@[a].0);
                    assert(old(self)@[b].0 == self@[b].0);
                } else {
                    assert(old(self)@[a].0 == self@[a].0);
                }
            }
        }
    }

    /// Look one extension up.
    pub fn get(&self, ext: &str) -> (r: Option<ExtensionStat>)
        ensures
            match r {
                Some(st) => find_key(self@, ext@) >= 0 && st == self@[find_key(self@, ext@)].1,
                None => find_key(self@, ext@) == -1,
            },
    {
        let n = self.entries.len();
        let mut i: usize = 0;
        while i < n
            invariant
                i <= n,
                n == self.entries@.len(),
                forall|j: int| 0 <= j < i ==> (#[trigger] self@[j]).0 != ext@,
            decreases n - i,
        {
            if str_eq_str(self.entries[i].0.as_str(), ext) {
                let st = self.entries[i].1;
                proof {
                    lemma_find_key_unique(self@, ext@, i as int);
                }
                return Some(st);
            }
            i = i + 1;
        }
        proof {
            lemma_find_key_unique(self@, ext@, n as int);
        }
        None
    }

    /// The extension, total size and file count at one position.
    pub fn triple_at(&self, i: usize) -> (t: (String, u64, u64))
        requires
            i < self@.len(),
        ensures
            t.0@ == self@[i as int].0,
            t.1 == self@[i as int].1.size,
            t.2 == self@[i as int].1.count,
    {
        let key = self.entries[i].0.clone();
        let st = self.entries[i].1;
        (key, st.size, st.count)
    }
}

} // verus!
