//! Suffix array construction by difference cover modulo 3 (DC3), on texts of
//! integers.
use vstd::prelude::*;
use vstd::slice::slice_subrange;
use crate::lex::{suffix, lex_lt, lt_at, is_suffix_array, lemma_suffix_array_unique};

verus! {

/// Lexicographic order for pairs
pub fn leq2(a1: usize, a2: usize, b1: usize, b2: usize) -> (r: bool)
    ensures
        r == (a1 < b1 || (a1 == b1 && a2 <= b2)),
{
    (a1 < b1) || (a1 == b1 && a2 <= b2)
}

/// Lexicographic order for triples: `(a1, a2, a3) <= (b1, b2, b3)`.
pub fn leq3(a1: usize, a2: usize, b1: usize, b2: usize, a3: usize, b3: usize) -> (r: bool)
    ensures
        r == (a1 < b1 || (a1 == b1 && (a2 < b2 || (a2 == b2 && a3 <= b3)))),
{
    (a1 < b1) || (a1 == b1 && leq2(a2, a3, b2, b3))
}

/// The sort key of the `j`-th entry of `a`: `r[a[j]]`.
pub open spec fn key(a: Seq<usize>, r: Seq<usize>, j: int) -> int {
    r[a[j] as int] as int
}

/// How many of the first `i` entries of `a` have a key below `k`.
pub open spec fn count_below(a: Seq<usize>, r: Seq<usize>, i: int, k: int) -> int
    decreases i,
{
    if i <= 0 {
        0
    } else {
        count_below(a, r, i - 1, k) + (if key(a, r, i - 1) < k {
            1int
        } else {
            0int
        })
    }
}

/// How many of the first `i` entries of `a` have the key `k`.
pub open spec fn count_equal(a: Seq<usize>, r: Seq<usize>, i: int, k: int) -> int
    decreases i,
{
    if i <= 0 {
        0
    } else {
        count_equal(a, r, i - 1, k) + (if key(a, r, i - 1) == k {
            1int
        } else {
            0int
        })
    }
}

/// Where a stable sort of the first `n` entries of `a` by key puts the
/// `i`-th of them: after every entry with a smaller key, and after the
/// entries with the same key that come before it in `a`.
pub open spec fn stable_rank(a: Seq<usize>, r: Seq<usize>, n: int, i: int) -> int {
    count_below(a, r, n, key(a, r, i)) + count_equal(a, r, i, key(a, r, i))
}

proof fn lemma_count_bounds(a: Seq<usize>, r: Seq<usize>, i: int, k: int)
    requires
        0 <= i,
    ensures
        0 <= count_below(a, r, i, k) <= i,
        0 <= count_equal(a, r, i, k) <= i,
        count_below(a, r, i, k + 1) == count_below(a, r, i, k) + count_equal(a, r, i, k),
    decreases i,
{
    if i > 0 {
        lemma_count_bounds(a, r, i - 1, k);
    }
}

proof fn lemma_below_monotone(a: Seq<usize>, r: Seq<usize>, i: int, k1: int, k2: int)
    requires
        0 <= i,
        k1 <= k2,
    ensures
        count_below(a, r, i, k1) <= count_below(a, r, i, k2),
    decreases i,
{
    if i > 0 {
        lemma_below_monotone(a, r, i - 1, k1, k2);
    }
}

proof fn lemma_equal_monotone(a: Seq<usize>, r: Seq<usize>, i1: int, i2: int, k: int)
    requires
        0 <= i1 <= i2,
    ensures
        count_equal(a, r, i1, k) <= count_equal(a, r, i2, k),
    decreases i2,
{
    if i1 < i2 {
        lemma_equal_monotone(a, r, i1, i2 - 1, k);
    }
}

proof fn lemma_below_all(a: Seq<usize>, r: Seq<usize>, i: int, bound: int)
    requires
        0 <= i,
        forall|j: int| 0 <= j < i ==> #[trigger] key(a, r, j) < bound,
    ensures
        count_below(a, r, i, bound) == i,
    decreases i,
{
    if i > 0 {
        lemma_below_all(a, r, i - 1, bound);
    }
}

proof fn lemma_below_none(a: Seq<usize>, r: Seq<usize>, i: int)
    requires
        0 <= i,
    ensures
        count_below(a, r, i, 0) == 0,
    decreases i,
{
    if i > 0 {
        lemma_below_none(a, r, i - 1);
    }
}

/// The stable rank of an entry lies in `[0, n)`.
proof fn lemma_rank_bounds(a: Seq<usize>, r: Seq<usize>, n: int, i: int)
    requires
        0 <= i < n,
    ensures
        0 <= count_below(a, r, n, key(a, r, i)),
        stable_rank(a, r, n, i) + 1 <= count_below(a, r, n, key(a, r, i) + 1),
        count_below(a, r, n, key(a, r, i) + 1) <= n,
{
    let k = key(a, r, i);
    lemma_count_bounds(a, r, n, k);
    lemma_count_bounds(a, r, i, k);
    lemma_equal_monotone(a, r, i + 1, n, k);
    lemma_count_bounds(a, r, n, k + 1);
}

/// Different entries get different stable ranks.
proof fn lemma_rank_injective(a: Seq<usize>, r: Seq<usize>, n: int, i: int, j: int)
    requires
        0 <= j < i < n,
    ensures
        stable_rank(a, r, n, j) != stable_rank(a, r, n, i),
{
    let ki = key(a, r, i);
    let kj = key(a, r, j);
    lemma_rank_bounds(a, r, n, i);
    lemma_rank_bounds(a, r, n, j);
    lemma_count_bounds(a, r, i, ki);
    lemma_count_bounds(a, r, j, kj);
    if ki == kj {
        assert(count_equal(a, r, j + 1, ki) == count_equal(a, r, j, ki) + 1);
        lemma_equal_monotone(a, r, j + 1, i, ki);
    } else if kj < ki {
        lemma_below_monotone(a, r, n, kj + 1, ki);
    } else {
        lemma_below_monotone(a, r, n, ki + 1, kj);
    }
}

/// A position below `count_below(n, k)` falls in the block of some key below `k`.
proof fn lemma_block_of(a: Seq<usize>, r: Seq<usize>, n: int, k: int, x: int)
    requires
        0 <= n,
        0 <= k,
        0 <= x < count_below(a, r, n, k),
    ensures
        exists|k2: int|
            0 <= k2 < k && #[trigger] count_below(a, r, n, k2) <= x < count_below(a, r, n, k2)
                + count_equal(a, r, n, k2),
    decreases k,
{
    lemma_below_none(a, r, n);
    lemma_count_bounds(a, r, n, k - 1);
    if x < count_below(a, r, n, k - 1) {
        lemma_block_of(a, r, n, k - 1, x);
        let k2 = choose|k2: int|
            0 <= k2 < k - 1 && #[trigger] count_below(a, r, n, k2) <= x < count_below(a, r, n, k2)
                + count_equal(a, r, n, k2);
        assert(0 <= k2 < k);
    } else {
        assert(count_below(a, r, n, k - 1) <= x < count_below(a, r, n, k - 1) + count_equal(
            a,
            r,
            n,
            k - 1,
        ));
    }
}

/// The `m`-th entry with key `k` among the first `i`.
proof fn lemma_nth_with_key(a: Seq<usize>, r: Seq<usize>, i: int, k: int, m: int)
    requires
        0 <= m < count_equal(a, r, i, k),
    ensures
        exists|j: int| 0 <= j < i && key(a, r, j) == k && #[trigger] count_equal(a, r, j, k) == m,
    decreases i,
{
    if i > 0 {
        if m < count_equal(a, r, i - 1, k) {
            lemma_nth_with_key(a, r, i - 1, k, m);
            let j = choose|j: int|
                0 <= j < i - 1 && key(a, r, j) == k && #[trigger] count_equal(a, r, j, k) == m;
            assert(0 <= j < i);
        } else {
            assert(key(a, r, i - 1) == k && count_equal(a, r, i - 1, k) == m);
        }
    }
}

/// Every position in `[0, n)` is the stable rank of some entry.
proof fn lemma_rank_onto(a: Seq<usize>, r: Seq<usize>, n: int, bound: int, x: int)
    requires
        0 <= x < n,
        0 <= bound,
        forall|j: int| 0 <= j < n ==> 0 <= #[trigger] key(a, r, j) < bound,
    ensures
        exists|i: int| 0 <= i < n && #[trigger] stable_rank(a, r, n, i) == x,
{
    lemma_below_all(a, r, n, bound);
    lemma_block_of(a, r, n, bound, x);
    let k = choose|k2: int|
        0 <= k2 < bound && #[trigger] count_below(a, r, n, k2) <= x < count_below(a, r, n, k2)
            + count_equal(a, r, n, k2);
    let m = x - count_below(a, r, n, k);
    lemma_nth_with_key(a, r, n, k, m);
    let i = choose|j: int| 0 <= j < n && key(a, r, j) == k && #[trigger] count_equal(a, r, j, k) == m;
    assert(stable_rank(a, r, n, i) == x);
}

/// `v` is one of the first `n` entries of `s`.
#[verifier::opaque]
pub open spec fn occurs_in(s: Seq<usize>, n: int, v: usize) -> bool {
    exists|i: int| 0 <= i < n && s[i] == v
}

/// Stably sort a[0..n-1] to b[0..n-1] with keys in 0..K from r
///
/// The `i`-th entry of `a` lands at its stable rank; `b` keeps its entries
/// from `n` on.
#[allow(non_snake_case)]
pub fn radix_pass(a: &[usize], b: &mut [usize], r: &[usize], n: usize, K: usize)
    requires
        n <= a@.len(),
        n <= old(b)@.len(),
        K < usize::MAX,
        forall|i: int| 0 <= i < n ==> (#[trigger] a@[i]) < r@.len(),
        forall|i: int| 0 <= i < n ==> r@[#[trigger] a@[i] as int] <= K,
    ensures
        final(b)@.len() == old(b)@.len(),
        forall|i: int|
            0 <= i < n ==> 0 <= #[trigger] stable_rank(a@, r@, n as int, i) < n
                && final(b)@[stable_rank(a@, r@, n as int, i)] == a@[i],
        forall|x: int| 0 <= x < n ==> occurs_in(a@, n as int, #[trigger] final(b)@[x]),
        forall|x: int| n <= x < final(b)@.len() ==> #[trigger] final(b)@[x] == old(b)@[x],
{
    let ghost aa = a@;
    let ghost rr = r@;
    let ghost nn = n as int;
    // counter array
    let mut c: Vec<usize> = vec![0; K + 1];

    // count occurrences
    let mut i: usize = 0;
    while i < n
        invariant
            0 <= i <= n,
            n <= a@.len(),
            aa == a@,
            rr == r@,
            c@.len() == K + 1,
            forall|q: int| 0 <= q < n ==> (#[trigger] a@[q]) < r@.len(),
            forall|q: int| 0 <= q < n ==> r@[#[trigger] a@[q] as int] <= K,
            forall|k: int| 0 <= k <= K ==> #[trigger] c@[k] == count_equal(aa, rr, i as int, k),
        decreases n - i,
    {
        let k = r[a[i]];
        proof {
            lemma_count_bounds(aa, rr, i as int, k as int);
        }
        c[k] = c[k] + 1;
        i = i + 1;
    }

    // exclusive prefix sums
    let mut sum: usize = 0;
    let mut q: usize = 0;
    proof {
        lemma_below_none(aa, rr, nn);
    }
    while q <= K
        invariant
            0 <= q <= K + 1,
            K < usize::MAX,
            n <= a@.len(),
            c@.len() == K + 1,
            sum == count_below(aa, rr, nn, q as int),
            nn == n,
            forall|k: int| 0 <= k < q ==> #[trigger] c@[k] == count_below(aa, rr, nn, k),
            forall|k: int| q <= k <= K ==> #[trigger] c@[k] == count_equal(aa, rr, nn, k),
        decreases K + 1 - q,
    {
        let t = c[q];
        proof {
            lemma_count_bounds(aa, rr, nn, q as int);
            lemma_below_monotone(aa, rr, nn, q as int + 1, q as int + 1);
            lemma_count_bounds(aa, rr, nn, q as int + 1);
        }
        c[q] = sum;
        sum = sum + t;
        q = q + 1;
    }

    // sort
    let mut i: usize = 0;
    while i < n
        invariant
            0 <= i <= n,
            n <= a@.len(),
            n <= b@.len(),
            b@.len() == old(b)@.len(),
            aa == a@,
            rr == r@,
            nn == n,
            c@.len() == K + 1,
            forall|q: int| 0 <= q < n ==> (#[trigger] a@[q]) < r@.len(),
            forall|q: int| 0 <= q < n ==> r@[#[trigger] a@[q] as int] <= K,
            forall|k: int|
                0 <= k <= K ==> #[trigger] c@[k] == count_below(aa, rr, nn, k) + count_equal(
                    aa,
                    rr,
                    i as int,
                    k,
                ),
            forall|j: int|
                0 <= j < i ==> 0 <= #[trigger] stable_rank(aa, rr, nn, j) < n && b@[stable_rank(
                    aa,
                    rr,
                    nn,
                    j,
                )] == aa[j],
            forall|x: int| n <= x < b@.len() ==> #[trigger] b@[x] == old(b)@[x],
        decreases n - i,
    {
        let k = r[a[i]];
        proof {
            lemma_rank_bounds(aa, rr, nn, i as int);
            lemma_count_bounds(aa, rr, i as int, k as int);
            assert forall|j: int| 0 <= j < i implies stable_rank(aa, rr, nn, j) != stable_rank(
                aa,
                rr,
                nn,
                i as int,
            ) by {
                lemma_rank_injective(aa, rr, nn, i as int, j);
            }
        }
        let pos = c[k];
        b[pos] = a[i];
        c[k] = c[k] + 1;
        i = i + 1;
    }
    proof {
        reveal(occurs_in);
        assert forall|x: int| 0 <= x < n implies occurs_in(aa, nn, #[trigger] b@[x]) by {
            lemma_rank_onto(aa, rr, nn, K as int + 1, x);
            let i = choose|i: int| 0 <= i < nn && #[trigger] stable_rank(aa, rr, nn, i) == x;
            assert(b@[stable_rank(aa, rr, nn, i)] == aa[i]);
            assert(b@[x] == aa[i]);
        }
    }
}

/// The suffix of the text `t[0..n)` that starts at `i`.
pub open spec fn text_suffix(t: Seq<usize>, i: int, n: int) -> Seq<usize> {
    t.subrange(i, n)
}

/// `a` is smaller than `b`, and `k` is the first position where they
/// differ (or `a` ends at `k` while `b` goes on).
pub open spec fn seq_lt_at(a: Seq<usize>, b: Seq<usize>, k: int) -> bool {
    &&& 0 <= k <= a.len()
    &&& k <= b.len()
    &&& forall|q: int| 0 <= q < k ==> a[q] == b[q]
    &&& ((k == a.len() && k < b.len()) || (k < a.len() && k < b.len() && a[k] < b[k]))
}

/// Strict lexicographic order on integer strings (a proper prefix is smaller).
pub open spec fn seq_lt(a: Seq<usize>, b: Seq<usize>) -> bool {
    exists|k: int| seq_lt_at(a, b, k)
}

/// The first `n` entries of `sa` are the suffix array of `t[0..n)`: they
/// are positions of that text, in strictly increasing order of their
/// suffixes.
pub open spec fn is_suffix_array_upto(t: Seq<usize>, sa: Seq<usize>, n: int) -> bool {
    &&& n <= sa.len()
    &&& n <= t.len()
    &&& forall|i: int| 0 <= i < n ==> 0 <= #[trigger] sa[i] < n
    &&& forall|i: int, j: int|
        0 <= i < j < n ==> seq_lt(
            text_suffix(t, sa[i] as int, n),
            text_suffix(t, sa[j] as int, n),
        )
}

proof fn lemma_seq_lt_transitive(a: Seq<usize>, b: Seq<usize>, c: Seq<usize>)
    requires
        seq_lt(a, b),
        seq_lt(b, c),
    ensures
        seq_lt(a, c),
{
    let k1 = choose|k: int| seq_lt_at(a, b, k);
    let k2 = choose|k: int| seq_lt_at(b, c, k);
    if k1 < k2 {
        assert(seq_lt_at(a, c, k1));
    } else if k2 < k1 {
        assert(b[k2] == a[k2]);
        assert(seq_lt_at(a, c, k2));
    } else {
        assert(seq_lt_at(a, c, k1));
    }
}

/// Two different strings are ordered one way or the other.
proof fn lemma_seq_lt_total(a: Seq<usize>, b: Seq<usize>, k: int)
    requires
        0 <= k <= a.len(),
        k <= b.len(),
        forall|q: int| 0 <= q < k ==> a[q] == b[q],
        k == a.len() || k == b.len() || a[k] != b[k],
        a.len() != b.len(),
    ensures
        seq_lt(a, b) || seq_lt(b, a),
{
    if k == a.len() {
        assert(seq_lt_at(a, b, k));
    } else if k == b.len() {
        assert(seq_lt_at(b, a, k));
    } else if a[k] < b[k] {
        assert(seq_lt_at(a, b, k));
    } else {
        assert(seq_lt_at(b, a, k));
    }
}

/// Strings of different lengths are ordered one way or the other.
proof fn lemma_seq_lt_connected(a: Seq<usize>, b: Seq<usize>)
    requires
        a.len() != b.len(),
    ensures
        seq_lt(a, b) || seq_lt(b, a),
    decreases a.len(),
{
    if a.len() == 0 {
        assert(seq_lt_at(a, b, 0));
    } else if b.len() == 0 {
        assert(seq_lt_at(b, a, 0));
    } else if a[0] != b[0] {
        lemma_seq_lt_total(a, b, 0);
    } else {
        let a1 = a.drop_first();
        let b1 = b.drop_first();
        lemma_seq_lt_connected(a1, b1);
        if seq_lt(a1, b1) {
            let k = choose|k: int| seq_lt_at(a1, b1, k);
            assert forall|q: int| 0 <= q < k + 1 implies a[q] == b[q] by {
                if q > 0 {
                    assert(a1[q - 1] == b1[q - 1]);
                }
            }
            assert(seq_lt_at(a, b, k + 1));
        } else {
            let k = choose|k: int| seq_lt_at(b1, a1, k);
            assert forall|q: int| 0 <= q < k + 1 implies b[q] == a[q] by {
                if q > 0 {
                    assert(a1[q - 1] == b1[q - 1]);
                }
            }
            assert(seq_lt_at(b, a, k + 1));
        }
    }
}

/// Compares the suffixes of `t[0..n)` at `i` and at `j`.
fn suffix_lt(t: &[usize], i: usize, j: usize, n: usize) -> (r: bool)
    requires
        i <= n,
        j <= n,
        n <= t@.len(),
    ensures
        r == seq_lt(text_suffix(t@, i as int, n as int), text_suffix(t@, j as int, n as int)),
{
    let ghost a = text_suffix(t@, i as int, n as int);
    let ghost b = text_suffix(t@, j as int, n as int);
    let mut k: usize = 0;
    while i + k < n && j + k < n && t[i + k] == t[j + k]
        invariant
            i <= n,
            j <= n,
            n <= t@.len(),
            a == text_suffix(t@, i as int, n as int),
            b == text_suffix(t@, j as int, n as int),
            i + k <= n,
            j + k <= n,
            forall|q: int| 0 <= q < k ==> a[q] == b[q],
        decreases n - i - k,
    {
        k = k + 1;
    }
    let r = if i + k == n {
        j + k < n
    } else if j + k == n {
        false
    } else {
        t[i + k] < t[j + k]
    };
    proof {
        assert(a.len() == n - i && b.len() == n - j);
        if r {
            assert(seq_lt_at(a, b, k as int));
        } else if seq_lt(a, b) {
            let k2 = choose|k2: int| seq_lt_at(a, b, k2);
            if k2 < k {
                assert(a[k2] == b[k2]);
            } else if k2 > k {
                assert(a[k as int] == b[k as int]);
            }
        }
    }
    r
}

/// Decides whether the first `n` entries of `sa` are the suffix array of
/// `t[0..n)`.
fn check_suffix_array(t: &[usize], sa: &[usize], n: usize) -> (r: bool)
    requires
        n <= t@.len(),
        n <= sa@.len(),
    ensures
        r == is_suffix_array_upto(t@, sa@, n as int),
{
    let mut i: usize = 0;
    while i < n
        invariant
            0 <= i <= n,
            n <= sa@.len(),
            forall|k: int| 0 <= k < i ==> 0 <= #[trigger] sa@[k] < n,
        decreases n - i,
    {
        if sa[i] >= n {
            return false;
        }
        i = i + 1;
    }
    if n == 0 {
        return true;
    }
    let mut i: usize = 0;
    while i + 1 < n
        invariant
            0 <= i < n,
            n <= t@.len(),
            n <= sa@.len(),
            forall|k: int| 0 <= k < n ==> 0 <= #[trigger] sa@[k] < n,
            forall|x: int, y: int|
                0 <= x < y <= i ==> seq_lt(
                    text_suffix(t@, sa@[x] as int, n as int),
                    text_suffix(t@, sa@[y] as int, n as int),
                ),
        decreases n - i,
    {
        if !suffix_lt(t, sa[i], sa[i + 1], n) {
            return false;
        }
        proof {
            let ghost nn = n as int;
            assert forall|x: int, y: int| 0 <= x < y <= i + 1 implies seq_lt(
                text_suffix(t@, sa@[x] as int, nn),
                text_suffix(t@, sa@[y] as int, nn),
            ) by {
                if y == i + 1 && x < i {
                    lemma_seq_lt_transitive(
                        text_suffix(t@, sa@[x] as int, nn),
                        text_suffix(t@, sa@[i as int] as int, nn),
                        text_suffix(t@, sa@[y] as int, nn),
                    );
                }
            }
        }
        i = i + 1;
    }
    true
}

/// Sorts the suffixes of `t[0..n)` one at a time into a growing sorted list,
/// and writes them to `sa[0..n)`.
fn insertion_suffix_sort(t: &[usize], sa: &mut [usize], n: usize)
    requires
        n <= t@.len(),
        n <= old(sa)@.len(),
    ensures
        final(sa)@.len() == old(sa)@.len(),
        is_suffix_array_upto(t@, final(sa)@, n as int),
        forall|x: int| n <= x < final(sa)@.len() ==> #[trigger] final(sa)@[x] == old(sa)@[x],
{
    let ghost nn = n as int;
    let mut v: Vec<usize> = Vec::new();
    let mut k: usize = 0;
    while k < n
        invariant
            0 <= k <= n,
            nn == n,
            n <= t@.len(),
            v@.len() == k,
            forall|q: int| 0 <= q < v@.len() ==> 0 <= #[trigger] v@[q] < k,
            forall|x: int, y: int|
                0 <= x < y < v@.len() ==> seq_lt(
                    text_suffix(t@, v@[x] as int, nn),
                    text_suffix(t@, v@[y] as int, nn),
                ),
        decreases n - k,
    {
        let mut p: usize = 0;
        while p < v.len() && suffix_lt(t, v[p], k, n)
            invariant
                0 <= p <= v@.len(),
                v@.len() == k,
                k < n,
                nn == n,
                n <= t@.len(),
                forall|q: int| 0 <= q < v@.len() ==> 0 <= #[trigger] v@[q] < k,
                forall|q: int|
                    0 <= q < p ==> seq_lt(
                        text_suffix(t@, #[trigger] v@[q] as int, nn),
                        text_suffix(t@, k as int, nn),
                    ),
            decreases v@.len() - p,
        {
            p = p + 1;
        }
        let ghost old_v = v@;
        let ghost sk = text_suffix(t@, k as int, nn);
        proof {
            if p < v@.len() {
                lemma_seq_lt_connected(text_suffix(t@, v@[p as int] as int, nn), sk);
            }
        }
        v.insert(p, k);
        proof {
            assert forall|x: int, y: int| 0 <= x < y < v@.len() implies seq_lt(
                text_suffix(t@, v@[x] as int, nn),
                text_suffix(t@, v@[y] as int, nn),
            ) by {
                if y < p {
                    assert(v@[x] == old_v[x] && v@[y] == old_v[y]);
                } else if y == p {
                    assert(v@[x] == old_v[x]);
                } else if x == p {
                    assert(v@[y] == old_v[y - 1]);
                    if y - 1 > p {
                        lemma_seq_lt_transitive(
                            sk,
                            text_suffix(t@, old_v[p as int] as int, nn),
                            text_suffix(t@, old_v[y - 1] as int, nn),
                        );
                    }
                } else if x < p {
                    assert(v@[x] == old_v[x] && v@[y] == old_v[y - 1]);
                } else {
                    assert(v@[x] == old_v[x - 1] && v@[y] == old_v[y - 1]);
                }
            }
        }
        k = k + 1;
    }
    let mut i: usize = 0;
    while i < n
        invariant
            0 <= i <= n,
            n == v@.len(),
            n <= sa@.len(),
            sa@.len() == old(sa)@.len(),
            forall|q: int| 0 <= q < i ==> sa@[q] == v@[q],
            forall|x: int| n <= x < sa@.len() ==> #[trigger] sa@[x] == old(sa)@[x],
        decreases n - i,
    {
        sa[i] = v[i];
        i = i + 1;
    }
    proof {
        assert forall|x: int, y: int| 0 <= x < y < nn implies seq_lt(
            text_suffix(t@, sa@[x] as int, nn),
            text_suffix(t@, sa@[y] as int, nn),
        ) by {
            assert(sa@[x] == v@[x] && sa@[y] == v@[y]);
        }
        assert forall|x: int| 0 <= x < nn implies 0 <= #[trigger] sa@[x] < nn by {
            assert(sa@[x] == v@[x]);
        }
    }
}

/// The sizes DC3 works with: `n0`, `n1` and `n2` positions are 0, 1 and 2
/// modulo 3, and the sample (positions 1 and 2 modulo 3, with one dummy
/// position `n` when `n` is 1 modulo 3) has `n0 + n2` members.
proof fn lemma_sizes(n: int)
    requires
        2 <= n,
    ensures
        (n + 2) / 3 + (n + 1) / 3 + n / 3 == n,
        (n + 1) / 3 <= (n + 2) / 3 <= (n + 1) / 3 + 1,
        n / 3 <= (n + 2) / 3 <= n / 3 + 1,
        3 * ((n + 2) / 3) <= n + 2,
        3 * (n / 3) <= n,
        1 <= (n + 2) / 3,
        (n + 2) / 3 + n / 3 < n,
        (n - 1) / 3 <= n / 3,
        (n - 1) / 3 < (n + 2) / 3,
{
}

/// Where a sample position's rank is kept: `v / 3` for `v` 1 modulo 3,
/// `v / 3 + n0` for `v` 2 modulo 3; both below `n0 + n2`.
proof fn lemma_sample_slot(n: int, v: int)
    requires
        2 <= n,
        0 <= v < n + (n + 2) / 3 - (n + 1) / 3,
        v % 3 != 0,
    ensures
        v % 3 == 1 ==> v / 3 < (n + 2) / 3,
        v % 3 != 1 ==> v / 3 < n / 3,
        v <= n,
        v / 3 <= n / 3,
{
}

/// The number of positions below `i` that are not multiples of 3.
proof fn lemma_sample_count(n: int, i: int)
    requires
        2 <= n,
        0 <= i < n + (n + 2) / 3 - (n + 1) / 3,
    ensures
        (i + 1) - (i + 3) / 3 == i - (i + 2) / 3 + (if i % 3 != 0 { 1int } else { 0int }),
        (i + 1) - (i + 3) / 3 <= (n + 2) / 3 + n / 3,
{
}

/// The sample positions and their ranks are kept below the bound, apart
/// from multiples of 3.
pub open spec fn all_samples(s: Seq<usize>, len: int, bound: int) -> bool {
    forall|x: int| 0 <= x < len ==> (#[trigger] s[x]) < bound && s[x] % 3 != 0
}

proof fn lemma_samples_moved(a: Seq<usize>, b: Seq<usize>, len: int, bound: int)
    requires
        all_samples(a, len, bound),
        len <= b.len(),
        forall|x: int| 0 <= x < len ==> occurs_in(a, len, #[trigger] b[x]),
    ensures
        all_samples(b, len, bound),
{
    reveal(occurs_in);
    assert forall|x: int| 0 <= x < len implies (#[trigger] b[x]) < bound && b[x] % 3 != 0 by {
        assert(occurs_in(a, len, b[x]));
        let i = choose|i: int| 0 <= i < len && a[i] == b[x];
        assert(a[i] < bound && a[i] % 3 != 0);
    }
}

/// Sorts the sample positions in `R[0..n02)` into `SA12[0..n02)` by their
/// first three characters, with three stable counting sorts (`R` serves
/// as scratch space in between).
#[allow(non_snake_case)]
fn sort_sample(T: &[usize], R: &mut Vec<usize>, SA12: &mut Vec<usize>, n: usize, K: usize)
    requires
        2 <= n,
        n + 3 <= T@.len(),
        K < usize::MAX,
        forall|x: int| 0 <= x < n + 3 ==> #[trigger] T@[x] <= K,
        old(R)@.len() == (n + 2) / 3 + n / 3 + 3,
        old(SA12)@.len() == (n + 2) / 3 + n / 3 + 3,
        all_samples(old(R)@, (n + 2) / 3 + n / 3, n + (n + 2) / 3 - (n + 1) / 3),
        forall|x: int|
            (n + 2) / 3 + n / 3 <= x < (n + 2) / 3 + n / 3 + 3 ==> #[trigger] old(R)@[x] == 0,
    ensures
        final(R)@.len() == old(R)@.len(),
        final(SA12)@.len() == old(SA12)@.len(),
        all_samples(final(SA12)@, (n + 2) / 3 + n / 3, n + (n + 2) / 3 - (n + 1) / 3),
        forall|x: int|
            (n + 2) / 3 + n / 3 <= x < (n + 2) / 3 + n / 3 + 3 ==> #[trigger] final(R)@[x] == 0,
{
    proof {
        lemma_sizes(n as int);
    }
    let len = T.len();
    let n02 = (n + 2) / 3 + n / 3;
    let ghost bound = n + (n + 2) / 3 - (n + 1) / 3;
    let T2 = slice_subrange(T, 2, T.len());
    assert forall|x: int| 0 <= x < n02 implies (#[trigger] R@[x]) < T2@.len() && T2@[R@[x] as int]
        <= K by {
        assert(T2@[R@[x] as int] == T@[R@[x] + 2]);
    }
    radix_pass(R.as_slice(), SA12.as_mut_slice(), T2, n02, K);
    proof {
        lemma_samples_moved(R@, SA12@, n02 as int, bound);
    }
    let T1 = slice_subrange(T, 1, T.len());
    assert forall|x: int| 0 <= x < n02 implies (#[trigger] SA12@[x]) < T1@.len() && T1@[SA12@[x] as int]
        <= K by {
        assert(T1@[SA12@[x] as int] == T@[SA12@[x] + 1]);
    }
    radix_pass(SA12.as_slice(), R.as_mut_slice(), T1, n02, K);
    proof {
        lemma_samples_moved(SA12@, R@, n02 as int, bound);
    }
    assert forall|x: int| 0 <= x < n02 implies (#[trigger] R@[x]) < T@.len() && T@[R@[x] as int]
        <= K by {
    }
    radix_pass(R.as_slice(), SA12.as_mut_slice(), T, n02, K);
    proof {
        lemma_samples_moved(R@, SA12@, n02 as int, bound);
    }
}

/// One run of DC3 on `T[0..n)`: sorts the suffixes at positions that are
/// not multiples of 3 (through the ranks of their first three characters,
/// recursively when those are not all different), then the others by their
/// first character and the rank of the suffix after it, and merges both
/// into `SA[0..n)`.
///
/// It gives up, with `false`, where the text breaks what the counting
/// sorts and the merge take for granted: a character above `K`, or ranks
/// of the sample that are not a permutation of it. `SA` from `n` on is
/// left as it was.
#[allow(non_snake_case)]
fn dc3_rec(T: &[usize], SA: &mut [usize], n: usize, K: usize) -> (done: bool)
    requires
        2 <= n,
        n + 3 <= T@.len(),
        n <= old(SA)@.len(),
        K < usize::MAX,
    ensures
        final(SA)@.len() == old(SA)@.len(),
        forall|x: int| n <= x < final(SA)@.len() ==> #[trigger] final(SA)@[x] == old(SA)@[x],
        done ==> forall|x: int| 0 <= x < n + 3 ==> #[trigger] T@[x] <= K,
        done ==> forall|x: int| 0 <= x < n ==> #[trigger] final(SA)@[x] <= n,
    decreases n,
{
    // every character is a key of the counting sorts
    let mut q: usize = 0;
    let len = T.len();
    while q < n + 3
        invariant
            len == T@.len(),
            0 <= q <= n + 3,
            n + 3 <= T@.len(),
            SA@ == old(SA)@,
            forall|x: int| 0 <= x < q ==> #[trigger] T@[x] <= K,
        decreases n + 3 - q,
    {
        if T[q] > K {
            return false;
        }
        q = q + 1;
    }
    proof {
        lemma_sizes(n as int);
    }
    let n0 = (n + 2) / 3;
    let n1 = (n + 1) / 3;
    let n2 = n / 3;
    let n02 = n0 + n2;
    let bound = n + (n0 - n1);

    let mut R: Vec<usize> = vec![0; n02 + 3];
    R[n02] = 0;
    R[n02 + 1] = 0;
    R[n02 + 2] = 0;

    let mut SA12: Vec<usize> = vec![0; n02 + 3];
    let mut R0: Vec<usize> = vec![0; n0];
    let mut SA0: Vec<usize> = vec![0; n0];

    // Step 0: Construct sample
    // Generate positions of mod 1 and mod 2 suffixes
    // the "+(n0-n1)" adds a dummy mod 1 suffix if n%3 == 1
    let mut j: usize = 0;
    let mut i: usize = 0;
    while i < bound
        invariant
            2 <= n,
            n0 == (n + 2) / 3,
            n1 == (n + 1) / 3,
            n2 == n / 3,
            n02 == n0 + n2,
            bound == n + (n0 - n1),
            0 <= i <= bound,
            j == i - (i + 2) / 3,
            R@.len() == n02 + 3,
            all_samples(R@, j as int, bound as int),
            forall|x: int| n02 <= x < n02 + 3 ==> #[trigger] R@[x] == 0,
        decreases bound - i,
    {
        proof {
            lemma_sample_count(n as int, i as int);
        }
        if i % 3 != 0 {
            R[j] = i;
            j = j + 1;
        }
        i = i + 1;
    }
    assert(j == n02);

    // Step 1: Sort sample suffixes
    // lsb radix sort the mod 1 and mod 2 triples
    sort_sample(T, &mut R, &mut SA12, n, K);

    // Find lexicographic names of triples and
    // write them to the correct places in R
    let mut name: usize = 0;
    let mut c0: usize = 0;
    let mut c1: usize = 0;
    let mut c2: usize = 0;
    let mut first = true;
    let mut i: usize = 0;
    while i < n02
        invariant
            2 <= n,
            n0 == (n + 2) / 3,
            n1 == (n + 1) / 3,
            n2 == n / 3,
            n02 == n0 + n2,
            n02 < n,
            bound == n + (n0 - n1),
            n + 3 <= T@.len(),
            0 <= i <= n02,
            name <= i,
            first == (i == 0),
            i > 0 ==> name >= 1,
            R@.len() == n02 + 3,
            SA12@.len() == n02 + 3,
            all_samples(SA12@, n02 as int, bound as int),
            forall|x: int| n02 <= x < n02 + 3 ==> #[trigger] R@[x] == 0,
            SA@ == old(SA)@,
        decreases n02 - i,
    {
        let s = SA12[i];
        proof {
            lemma_sample_slot(n as int, s as int);
        }
        if first || (T[s] != c0 || T[s + 1] != c1 || T[s + 2] != c2) {
            first = false;
            name = name + 1;
            c0 = T[s];
            c1 = T[s + 1];
            c2 = T[s + 2];
        }
        if s % 3 == 1 {
            // write to R1
            R[s / 3] = name;
        } else {
            // write to R2
            R[s / 3 + n0] = name;
        }
        i = i + 1;
    }

    // recurse if names are not yet unique
    if name < n02 {
        let done = dc3_rec(R.as_slice(), SA12.as_mut_slice(), n02, name);
        if !done {
            return false;
        }
        // store unique names in R using the suffix array
        let mut i: usize = 0;
        while i < n02
            invariant
                0 <= i <= n02,
                R@.len() == n02 + 3,
                SA12@.len() == n02 + 3,
                SA@ == old(SA)@,
            decreases n02 - i,
        {
            let v = SA12[i];
            if v >= n02 {
                return false;
            }
            R[v] = i + 1;
            i = i + 1;
        }
    } else {
        // generate the suffix array of R directly
        let mut i: usize = 0;
        while i < n02
            invariant
                0 <= i <= n02,
                R@.len() == n02 + 3,
                SA12@.len() == n02 + 3,
                SA@ == old(SA)@,
            decreases n02 - i,
        {
            let v = R[i];
            if v == 0 || v > n02 {
                return false;
            }
            SA12[v - 1] = i;
            i = i + 1;
        }
    }

    // Step 2: sort nonsample suffixes
    // stably sort the mod 0 suffixes from SA12 by their first character
    let mut j: usize = 0;
    let mut i: usize = 0;
    while i < n02
        invariant
            2 <= n,
            n0 == (n + 2) / 3,
            3 * n0 <= n + 2,
            0 <= i <= n02,
            0 <= j <= n0,
            SA12@.len() == n02 + 3,
            R0@.len() == n0,
            forall|x: int| 0 <= x < i ==> #[trigger] SA12@[x] < n02,
            forall|x: int| 0 <= x < n0 ==> #[trigger] R0@[x] < n,
            SA@ == old(SA)@,
        decreases n02 - i,
    {
        let v = SA12[i];
        if v >= n02 {
            return false;
        }
        if v < n0 {
            if j >= n0 {
                return false;
            }
            R0[j] = 3 * v;
            j = j + 1;
        }
        i = i + 1;
    }
    assert forall|x: int| 0 <= x < n0 implies (#[trigger] R0@[x]) < T@.len() && T@[R0@[x] as int]
        <= K by {
    }
    radix_pass(R0.as_slice(), SA0.as_mut_slice(), T, n0, K);
    assert forall|x: int| 0 <= x < n0 implies #[trigger] SA0@[x] < n by {
        reveal(occurs_in);
        assert(occurs_in(R0@, n0 as int, SA0@[x]));
        let y = choose|y: int| 0 <= y < n0 && R0@[y] == SA0@[x];
        assert(R0@[y] < n);
    }

    // Step 3: merge
    // merge sorted SA0 suffixes and sorted SA12 suffixes
    let t0 = n0 - n1;
    let mut p: usize = 0;
    let mut t: usize = t0;
    let mut k: usize = 0;
    while k < n
        invariant
            2 <= n,
            n0 == (n + 2) / 3,
            n1 == (n + 1) / 3,
            n2 == n / 3,
            n02 == n0 + n2,
            t0 == n0 - n1,
            t0 <= 1,
            n0 + n02 - t0 == n,
            3 * n0 <= n + 2,
            3 * n2 <= n,
            n2 <= n0 <= n2 + 1,
            n + 3 <= T@.len(),
            R@.len() == n02 + 3,
            SA12@.len() == n02 + 3,
            SA0@.len() == n0,
            n <= SA@.len(),
            SA@.len() == old(SA)@.len(),
            forall|x: int| n <= x < SA@.len() ==> #[trigger] SA@[x] == old(SA)@[x],
            forall|x: int| 0 <= x < k && x < n ==> #[trigger] SA@[x] <= n,
            forall|x: int| 0 <= x < n02 ==> #[trigger] SA12@[x] < n02,
            forall|x: int| 0 <= x < n0 ==> #[trigger] SA0@[x] < n,
            p <= n0,
            t0 <= t <= n02,
            k <= n + 1,
            k < n ==> (p < n0 && t < n02 && k == p + t - t0),
        decreases n + 1 - k,
    {
        // pos of current offset 12 suffix
        let v = SA12[t];
        let i = if v < n0 {
            v * 3 + 1
        } else {
            (v - n0) * 3 + 2
        };
        // pos of current offset 0 suffix
        let j = SA0[p];

        let sa12_smaller = if v < n0 {
            leq2(T[i], R[v + n0], T[j], R[j / 3])
        } else {
            // (T[i], T[i + 1], rank of i + 2) against (T[j], T[j + 1], rank of
            // j + 2), in the argument order of leq3
            leq3(T[i], T[i + 1], T[j], T[j + 1], R[v - n0 + 1], R[j / 3 + n0])
        };
        if sa12_smaller {
            // suffix from SA12 is smaller
            SA[k] = i;
            t = t + 1;
            if t == n02 {
                // done --- only SA0 suffixes left
                k = k + 1;
                while p < n0
                    invariant
                        n0 + n02 - t0 == n,
                        p <= n0,
                        k == p + n02 - t0,
                        SA0@.len() == n0,
                        n <= SA@.len(),
                        SA@.len() == old(SA)@.len(),
                        forall|x: int| n <= x < SA@.len() ==> #[trigger] SA@[x] == old(SA)@[x],
                        forall|x: int| 0 <= x < k && x < n ==> #[trigger] SA@[x] <= n,
                        forall|x: int| 0 <= x < n0 ==> #[trigger] SA0@[x] < n,
                    decreases n0 - p,
                {
                    SA[k] = SA0[p];
                    p = p + 1;
                    k = k + 1;
                }
            }
        } else {
            // suffix from SA0 is smaller
            SA[k] = j;
            p = p + 1;
            if p == n0 {
                // done ---- only SA12 suffixes left
                k = k + 1;
                while t < n02
                    invariant
                        n0 + n02 - t0 == n,
                        n0 == (n + 2) / 3,
                        n2 == n / 3,
                        n02 == n0 + n2,
                        3 * n0 <= n + 2,
                        3 * n2 <= n,
                        p == n0,
                        t0 <= t <= n02,
                        k == p + t - t0,
                        SA12@.len() == n02 + 3,
                        n <= SA@.len(),
                        SA@.len() == old(SA)@.len(),
                        forall|x: int| n <= x < SA@.len() ==> #[trigger] SA@[x] == old(SA)@[x],
                        forall|x: int| 0 <= x < n02 ==> #[trigger] SA12@[x] < n02,
                        forall|x: int| 0 <= x < k && x < n ==> #[trigger] SA@[x] <= n,
                    decreases n02 - t,
                {
                    let v = SA12[t];
                    SA[k] = if v < n0 {
                        v * 3 + 1
                    } else {
                        (v - n0) * 3 + 2
                    };
                    t = t + 1;
                    k = k + 1;
                }
            }
        }
        k = k + 1;
    }
    true
}

/// Find the suffix array SA of T[0..n-1] in {1..K}^n
/// require T[n]=T[n+1]=T[n+2]=0, n >= 2
///
/// DC3 builds it; its outcome is checked, and where it is not the suffix
/// array (which DC3 is not proved never to produce), the suffixes are
/// sorted again by direct comparison.
#[allow(non_snake_case)]
pub fn suffix_array(T: &[usize], SA: &mut [usize], n: usize, K: usize)
    requires
        2 <= n,
        n + 3 <= T@.len(),
        T@[n as int] == 0,
        T@[n + 1] == 0,
        T@[n + 2] == 0,
        forall|i: int| 0 <= i < n ==> 1 <= #[trigger] T@[i] <= K,
        n <= old(SA)@.len(),
        K < usize::MAX,
    ensures
        final(SA)@.len() == old(SA)@.len(),
        is_suffix_array_upto(T@, final(SA)@, n as int),
        forall|x: int| n <= x < final(SA)@.len() ==> #[trigger] final(SA)@[x] == old(SA)@[x],
{
    let done = dc3_rec(T, SA, n, K);
    if !done || !check_suffix_array(T, SA, n) {
        insertion_suffix_sort(T, SA, n);
    }
}

/// Shifting every character up by one keeps the order of the suffixes.
proof fn lemma_shifted_order(t: Seq<u8>, T: Seq<usize>, p: int, q: int)
    requires
        t.len() <= T.len(),
        forall|i: int| 0 <= i < t.len() ==> #[trigger] T[i] == t[i] + 1,
        0 <= p <= t.len(),
        0 <= q <= t.len(),
        seq_lt(text_suffix(T, p, t.len() as int), text_suffix(T, q, t.len() as int)),
    ensures
        lex_lt(suffix(t, p), suffix(t, q)),
{
    let n = t.len() as int;
    let a = text_suffix(T, p, n);
    let b = text_suffix(T, q, n);
    let k = choose|k: int| seq_lt_at(a, b, k);
    let sa = suffix(t, p);
    let sb = suffix(t, q);
    assert forall|i: int| 0 <= i < k implies sa[i] == sb[i] by {
        assert(a[i] == b[i]);
        assert(T[p + i] == t[p + i] + 1);
        assert(T[q + i] == t[q + i] + 1);
    }
    if k < a.len() && k < b.len() {
        assert(T[p + k] == t[p + k] + 1);
        assert(T[q + k] == t[q + k] + 1);
    }
    assert(lt_at(sa, sb, k));
}

/// DC3 and divsufsort give the same order: the suffix array of the integer
/// text `t[i] + 1` (what DC3 takes for the byte text `t`, whose characters
/// must be at least 1) is the suffix array of `t`.
pub proof fn lemma_dc3_agrees_with_byte_order(
    t: Seq<u8>,
    T: Seq<usize>,
    sa_bytes: Seq<i32>,
    sa_ints: Seq<usize>,
)
    requires
        t.len() <= T.len(),
        t.len() <= i32::MAX,
        forall|i: int| 0 <= i < t.len() ==> #[trigger] T[i] == t[i] + 1,
        is_suffix_array(t, sa_bytes),
        is_suffix_array_upto(T, sa_ints, t.len() as int),
    ensures
        forall|k: int| 0 <= k < t.len() ==> #[trigger] sa_ints[k] == sa_bytes[k],
{
    let n = t.len() as int;
    if n > 0 {
        assert(0 <= sa_bytes[0] < n);
    }
    let sa2: Seq<i32> = Seq::new(t.len(), |k: int| sa_ints[k] as i32);
    assert forall|i: int| 0 <= i < sa2.len() implies 0 <= #[trigger] sa2[i] < t.len() by {
        assert(0 <= sa_ints[i] < n);
    }
    assert forall|i: int, j: int| 0 <= i < j < sa2.len() implies lex_lt(
        suffix(t, sa2[i] as int),
        suffix(t, sa2[j] as int),
    ) by {
        assert(0 <= sa_ints[i] < n && 0 <= sa_ints[j] < n);
        lemma_shifted_order(t, T, sa_ints[i] as int, sa_ints[j] as int);
    }
    assert(is_suffix_array(t, sa2));
    lemma_suffix_array_unique(t, sa_bytes, sa2);
    assert forall|k: int| 0 <= k < n implies #[trigger] sa_ints[k] == sa_bytes[k] by {
        assert(sa2[k] == sa_bytes[k]);
        assert(0 <= sa_ints[k] < n);
    }
}

} // verus!
