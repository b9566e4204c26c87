use vstd::prelude::*;
use vstd::string::StrSliceExecFns;

verus! {

/// The lower-cased form of a run of characters, as `str::to_lowercase`
/// produces it: a fixed function of the characters alone.
pub uninterp spec fn lower_of(s: Seq<char>) -> Seq<char>;

/// Relies on str::to_lowercase: the result depends only on the input
/// characters, and an empty string stays empty.
#[verifier::external_body]
pub(crate) fn lowercase(s: &str) -> (r: String)
    ensures
        r@ == lower_of(s@),
        s@.len() == 0 ==> r@.len() == 0,
{
    s.to_lowercase()
}

/// `n` occurs as a contiguous run inside `h`.
pub open spec fn contains_seq(h: Seq<char>, n: Seq<char>) -> bool {
    exists|i: int| 0 <= i <= h.len() - n.len() && #[trigger] h.subrange(i, i + n.len()) == n
}

/// `h` ends with the run `n`.
pub open spec fn ends_with_seq(h: Seq<char>, n: Seq<char>) -> bool {
    n.len() <= h.len() && h.subrange(h.len() - n.len(), h.len() as int) == n
}

/// Whether `n` occurs in `h` starting exactly at position `i`.
fn match_at(h: &str, n: &str, i: usize, hl: usize, nl: usize) -> (r: bool)
    requires
        hl == h@.len(),
        nl == n@.len(),
        i + nl <= hl,
    ensures
        r == (h@.subrange(i as int, i + nl) == n@),
{
    let mut j: usize = 0;
    while j < nl
        invariant
            j <= nl,
            i + nl <= hl,
            hl == h@.len(),
            nl == n@.len(),
            forall|k: int| 0 <= k < j ==> h@[i + k] == n@[k],
        decreases nl - j,
    {
        if h.get_char(i + j) != n.get_char(j) {
            proof {
                assert(h@.subrange(i as int, i + nl)[j as int] == h@[i + j]);
            }
            return false;
        }
        j = j + 1;
    }
    proof {
        assert(h@.subrange(i as int, i + nl) =~= n@);
    }
    true
}

/// Substring search: does `h` contain `n` anywhere?
pub fn contains_str(h: &str, n: &str) -> (r: bool)
    ensures
        r == contains_seq(h@, n@),
{
    let hl = h.unicode_len();
    let nl = n.unicode_len();
    if nl > hl {
        return false;
    }
    if nl == 0 {
        proof {
            assert(h@.subrange(0, 0 + n@.len() as int) =~= n@);
            assert(contains_seq(h@, n@));
        }
        return true;
    }
    let mut i: usize = 0;
    while i <= hl - nl
        invariant
            0 < nl <= hl,
            hl == h@.len(),
            nl == n@.len(),
            i <= hl - nl + 1,
            forall|k: int| 0 <= k < i ==> #[trigger] h@.subrange(k, k + nl) != n@,
        decreases hl - nl + 1 - i,
    {
        if match_at(h, n, i, hl, nl) {
            return true;
        }
        i = i + 1;
    }
    false
}

/// Suffix test: does `h` end with `n`?
pub fn ends_with_str(h: &str, n: &str) -> (r: bool)
    ensures
        r == ends_with_seq(h@, n@),
{
    let hl = h.unicode_len();
    let nl = n.unicode_len();
    if nl > hl {
        return false;
    }
    match_at(h, n, hl - nl, hl, nl)
}

/// Character-wise string equality.
pub fn str_eq_str(a: &str, b: &str) -> (r: bool)
    ensures
        r == (a@ == b@),
{
    let al = a.unicode_len();
    let bl = b.unicode_len();
    if al != bl {
        return false;
    }
    let r = match_at(a, b, 0, al, bl);
    proof {
        assert(a@.subrange(0, al as int) =~= a@);
    }
    r
}

/// Position right after the last occurrence of `c`, or `0` when `c`
/// does not occur: the suffix `p[result..]` is free of `c`.
pub open spec fn spec_suffix_start(p: Seq<char>, c: char) -> int
    decreases p.len(),
{
    if p.len() == 0 {
        0
    } else if p.last() == c {
        p.len() as int
    } else {
        spec_suffix_start(p.drop_last(), c)
    }
}

proof fn lemma_suffix_start_unique(p: Seq<char>, c: char, i: int)
    requires
        0 <= i <= p.len(),
        forall|j: int| i <= j < p.len() ==> p[j] != c,
        i > 0 ==> p[i - 1] == c,
    ensures
        spec_suffix_start(p, c) == i,
    decreases p.len(),
{
    if p.len() == 0 {
    } else if p.last() == c {
        assert(i == p.len());
    } else {
        assert(i < p.len());
        assert(forall|j: int| 0 <= j < p.len() - 1 ==> p.drop_last()[j] == p[j]);
        lemma_suffix_start_unique(p.drop_last(), c, i);
    }
}

/// Where the file-name component of a path begins: right after the
/// last `/`, or at the start when the path holds none.
pub open spec fn spec_file_name_start(p: Seq<char>) -> int {
    spec_suffix_start(p, '/')
}

/// The file-name component of a path: everything after the last `/`.
/// Empty for an empty path or one that ends in `/`.
pub open spec fn spec_file_name(p: Seq<char>) -> Seq<char> {
    p.subrange(spec_file_name_start(p), p.len() as int)
}

/// The normalized extension of a path, before lower-casing: the part
/// of the file name after its last dot.  There is none when the file
/// name holds no dot or when its only dot is its first character.
pub open spec fn spec_extension_of(p: Seq<char>) -> Option<Seq<char>> {
    let f = spec_file_name(p);
    let d = spec_suffix_start(f, '.');
    if d <= 1 {
        None
    } else {
        Some(f.subrange(d, f.len() as int))
    }
}

/// Find where the file-name component of `p` begins.
pub fn file_name_start(p: &str) -> (i: usize)
    ensures
        i == spec_file_name_start(p@),
        i <= p@.len(),
{
    let n = p.unicode_len();
    let mut i = n;
    while i > 0 && p.get_char(i - 1) != '/'
        invariant
            i <= n,
            n == p@.len(),
            forall|j: int| i <= j < n ==> p@[j] != '/',
        decreases i,
    {
        i = i - 1;
    }
    proof {
        lemma_suffix_start_unique(p@, '/', i as int);
    }
    i
}

/// Extract the normalized (not yet lower-cased) extension of a path.
pub fn extension_of(p: &str) -> (r: Option<&str>)
    ensures
        match r {
            Some(e) => spec_extension_of(p@) == Some(e@),
            None => spec_extension_of(p@) is None,
        },
{
    let n = p.unicode_len();
    let fs = file_name_start(p);
    let ghost f = spec_file_name(p@);
    let mut i = n;
    while i > fs && p.get_char(i - 1) != '.'
        invariant
            fs <= i <= n,
            n == p@.len(),
            fs == spec_file_name_start(p@),
            forall|j: int| i <= j < n ==> p@[j] != '.',
        decreases i,
    {
        i = i - 1;
    }
    proof {
        assert(forall|j: int| 0 <= j < f.len() ==> f[j] == p@[fs + j]);
        lemma_suffix_start_unique(f, '.', i - fs);
    }
    if i - fs <= 1 {
        None
    } else {
        let e = p.substring_char(i, n);
        proof {
            assert(e@ =~= f.subrange(i - fs, f.len() as int));
        }
        Some(e)
    }
}

} // verus!
