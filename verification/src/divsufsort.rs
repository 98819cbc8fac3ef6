//! Suffix sorting: sorts the type B* suffixes (with `sssort` and `trsort`),
//! then induces the order of all other suffixes from them.
use vstd::prelude::*;
use vstd::slice::slice_subrange;
use crate::common::{
    Char, Idx, Text, ABucket, BMixBucket, BUCKET_A_SIZE, BUCKET_B_SIZE, MAX_INPUT_SIZE,
    ALPHABET_SIZE, at, put, tat, sa_get, sa_set, text_at, flip, b_slot, bstar_slot,
};
use crate::lex::{
    suffix, lex_lt, lt_at, is_suffix_array, adjacent_sorted, lemma_adjacent_sorted_all,
    lemma_lex_total, lemma_lex_transitive, lemma_lex_asymmetric, lemma_suffixes_differ,
};
use crate::sacabase::bytes_less;
use crate::sssort;
use crate::trsort;

verus! {

/// `sa` names suffixes of `t` in strictly increasing order (all of them, or
/// some of them).
pub open spec fn sorted_suffixes(t: Seq<u8>, sa: Seq<Idx>) -> bool {
    forall|i: int, j: int|
        0 <= i < j < sa.len() ==> lex_lt(suffix(t, sa[i] as int), suffix(t, sa[j] as int))
}

/// The suffix starting at `i` is smaller than the one starting at `j`.
fn suffix_less(t: &[u8], i: usize, j: usize) -> (r: bool)
    requires
        i <= t@.len(),
        j <= t@.len(),
    ensures
        r == lex_lt(suffix(t@, i as int), suffix(t@, j as int)),
{
    let a = slice_subrange(t, i, t.len());
    let b = slice_subrange(t, j, t.len());
    bytes_less(a, b)
}

/// Decides whether `sa` is the suffix array of `t`.
pub fn is_suffix_array_of(t: &[u8], sa: &[Idx]) -> (r: bool)
    ensures
        r == is_suffix_array(t@, sa@),
{
    let n = t.len();
    if sa.len() != n {
        return false;
    }
    let mut i: usize = 0;
    while i < n
        invariant
            0 <= i <= n,
            n == t@.len(),
            n == sa@.len(),
            forall|k: int| 0 <= k < i ==> 0 <= #[trigger] sa@[k] < n,
        decreases n - i,
    {
        if !(0 <= sa[i] && (sa[i] as usize) < n) {
            return false;
        }
        i = i + 1;
    }
    if n == 0 {
        return true;
    }
    let mut i: usize = 0;
    while i + 1 < n
        invariant
            0 <= i < n,
            n == t@.len(),
            n == sa@.len(),
            forall|k: int| 0 <= k < n ==> 0 <= #[trigger] sa@[k] < n,
            adjacent_sorted(t@, sa@, i + 1),
        decreases n - i,
    {
        if !suffix_less(t, sa[i] as usize, sa[i + 1] as usize) {
            return false;
        }
        i = i + 1;
    }
    proof {
        lemma_adjacent_sorted_all(t@, sa@, n as int);
    }
    true
}

/// Sorts the suffixes of `t` one at a time into a growing sorted list.
fn insertion_suffix_sort(t: &[u8], sa: &mut [Idx])
    requires
        t@.len() == old(sa)@.len(),
        t@.len() <= i32::MAX,
    ensures
        is_suffix_array(t@, final(sa)@),
{
    let n = t.len();
    let mut v: Vec<Idx> = Vec::new();
    let mut k: usize = 0;
    while k < n
        invariant
            0 <= k <= n,
            n == t@.len(),
            n <= i32::MAX,
            v@.len() == k,
            forall|q: int| 0 <= q < v@.len() ==> 0 <= #[trigger] v@[q] < k,
            sorted_suffixes(t@, v@),
        decreases n - k,
    {
        let mut p: usize = 0;
        while p < v.len() && suffix_less(t, v[p] as usize, k)
            invariant
                0 <= p <= v@.len(),
                v@.len() == k,
                k < n,
                n == t@.len(),
                forall|q: int| 0 <= q < v@.len() ==> 0 <= #[trigger] v@[q] < k,
                forall|q: int|
                    0 <= q < p ==> lex_lt(suffix(t@, #[trigger] v@[q] as int), suffix(t@, k as int)),
            decreases v@.len() - p,
        {
            p = p + 1;
        }
        let ghost old_v = v@;
        let ghost sk = suffix(t@, k as int);
        proof {
            if p < v@.len() {
                lemma_suffixes_differ(t@, v@[p as int] as int, k as int);
                lemma_lex_total(suffix(t@, v@[p as int] as int), sk);
            }
        }
        v.insert(p, k as Idx);
        proof {
            assert forall|i: int, j: int| 0 <= i < j < v@.len() implies lex_lt(
                suffix(t@, v@[i] as int),
                suffix(t@, v@[j] as int),
            ) by {
                if j < p {
                    assert(v@[i] == old_v[i] && v@[j] == old_v[j]);
                } else if j == p {
                    assert(v@[i] == old_v[i]);
                } else if i == p {
                    assert(v@[j] == old_v[j - 1]);
                    if j - 1 > p {
                        lemma_lex_transitive(
                            sk,
                            suffix(t@, old_v[p as int] as int),
                            suffix(t@, old_v[j - 1] as int),
                        );
                    }
                } else if i < p {
                    assert(v@[i] == old_v[i] && v@[j] == old_v[j - 1]);
                } else {
                    assert(v@[i] == old_v[i - 1] && v@[j] == old_v[j - 1]);
                }
            }
        }
        k = k + 1;
    }
    let mut i: usize = 0;
    while i < n
        invariant
            0 <= i <= n,
            n == t@.len(),
            n == v@.len(),
            n == sa@.len(),
            forall|q: int| 0 <= q < i ==> sa@[q] == v@[q],
        decreases n - i,
    {
        sa[i] = v[i];
        i = i + 1;
    }
    assert(sa@ =~= v@);
}


/// The suffix at `i` is of type B: smaller than the suffix after it
/// (decided by the first character where they differ). The last suffix is
/// of type A.
pub open spec fn type_b(t: Seq<u8>, i: int) -> bool
    decreases t.len() - i,
{
    if i < 0 || i >= t.len() - 1 {
        false
    } else if t[i] < t[i + 1] {
        true
    } else if t[i] > t[i + 1] {
        false
    } else {
        type_b(t, i + 1)
    }
}

/// The suffix at `i` is of type B*: of type B, with a suffix of type A after it.
pub open spec fn type_bstar(t: Seq<u8>, i: int) -> bool {
    type_b(t, i) && !type_b(t, i + 1)
}

/// The number of type B* suffixes at positions `j` and after.
pub open spec fn count_bstar(t: Seq<u8>, j: int) -> int
    decreases t.len() - j,
{
    if j < 0 || j >= t.len() {
        0
    } else {
        count_bstar(t, j + 1) + (if type_bstar(t, j) {
            1int
        } else {
            0int
        })
    }
}

/// What the first pass hands to the second: the type A bucket bounds (the
/// bucket of byte `c` starts at the number of suffixes whose first byte is
/// below `c`), the type B and B* bucket bounds, and the number of type B*
/// suffixes.
pub struct SortTypeBstarResult {
    pub A: ABucket,
    pub B: BMixBucket,
    pub m: Idx,
    /// Whether the type B* suffixes were sorted to the end (they are not
    /// where a bucket bound is out of place, or where the tandem repeat sort
    /// gave up).
    pub sorted: bool,
}

/// The number of positions from `from` on where `t` holds the byte `c`.
pub open spec fn count_byte(t: Seq<u8>, c: int, from: int) -> int
    decreases t.len() - from,
{
    if 0 <= from < t.len() {
        (if t[from] == c {
            1int
        } else {
            0int
        }) + count_byte(t, c, from + 1)
    } else {
        0
    }
}

/// The number of positions from `from` on where `t` holds a byte below `c`:
/// from `0`, the number of suffixes of `t` whose first byte is below `c`.
pub open spec fn count_below(t: Seq<u8>, c: int, from: int) -> int
    decreases t.len() - from,
{
    if 0 <= from < t.len() {
        (if t[from] < c {
            1int
        } else {
            0int
        }) + count_below(t, c, from + 1)
    } else {
        0
    }
}

/// The B bucket counts of the pairs `(c, k)` for `k` from `lo` on.
pub open spec fn b_column_sum(b: Seq<Idx>, c: int, lo: int) -> int
    decreases 256 - lo,
{
    if 0 <= lo < 256 {
        b[b_slot(c, lo)] + b_column_sum(b, c, lo + 1)
    } else {
        0
    }
}

/// The B* bucket counts of the pairs `(c, k)` for `k` from `lo` on.
pub open spec fn bstar_row_sum(b: Seq<Idx>, c: int, lo: int) -> int
    decreases 256 - lo,
{
    if 0 <= lo < 256 {
        b[bstar_slot(c, lo)] + bstar_row_sum(b, c, lo + 1)
    } else {
        0
    }
}

/// All suffixes counted for the first byte `c`: type A in `a`, type B and
/// type B* in `b`.
pub open spec fn byte_total(a: Seq<Idx>, b: Seq<Idx>, c: int) -> int {
    a[c] + b_column_sum(b, c, c) + bstar_row_sum(b, c, c + 1)
}

/// Raising the bound from `c` to `c + 1` adds the positions of `c`; the
/// count is at most the number of positions.
proof fn lemma_count_below_step(t: Seq<u8>, c: int, from: int)
    requires
        0 <= from,
    ensures
        count_below(t, c + 1, from) == count_below(t, c, from) + count_byte(t, c, from),
        0 <= count_below(t, c, from),
        from <= t.len() ==> count_below(t, c, from) <= t.len() - from,
    decreases t.len() - from,
{
    if 0 <= from < t.len() {
        lemma_count_below_step(t, c, from + 1);
    }
}

/// No byte is below `0`.
proof fn lemma_count_below_zero(t: Seq<u8>, from: int)
    requires
        0 <= from,
    ensures
        count_below(t, 0, from) == 0,
    decreases t.len() - from,
{
    if 0 <= from < t.len() {
        lemma_count_below_zero(t, from + 1);
    }
}

/// Two slots of the bucket table are the same only for the same pair.
proof fn lemma_slot_eq(x1: int, y1: int, x2: int, y2: int)
    requires
        0 <= x1 < 256,
        0 <= y1 < 256,
        0 <= x2 < 256,
        0 <= y2 < 256,
    ensures
        (x1 * 256 + y1 == x2 * 256 + y2) <==> (x1 == x2 && y1 == y2),
{
    if x1 * 256 + y1 == x2 * 256 + y2 {
        assert(x1 == x2 && y1 == y2) by (nonlinear_arith)
            requires
                x1 * 256 + y1 == x2 * 256 + y2,
                0 <= y1 < 256,
                0 <= y2 < 256,
        ;
    }
}

/// The B column sum reads only its own slots.
proof fn lemma_column_frame(b1: Seq<Idx>, b2: Seq<Idx>, c: int, lo: int)
    requires
        forall|k: int| lo <= k < 256 ==> b1[#[trigger] b_slot(c, k)] == b2[b_slot(c, k)],
    ensures
        b_column_sum(b1, c, lo) == b_column_sum(b2, c, lo),
    decreases 256 - lo,
{
    if 0 <= lo < 256 {
        lemma_column_frame(b1, b2, c, lo + 1);
    } else if lo < 0 {
        lemma_column_frame(b1, b2, c, lo + 1);
    }
}

/// The B* row sum reads only its own slots.
proof fn lemma_row_frame(b1: Seq<Idx>, b2: Seq<Idx>, c: int, lo: int)
    requires
        forall|k: int| lo <= k < 256 ==> b1[#[trigger] bstar_slot(c, k)] == b2[bstar_slot(c, k)],
    ensures
        bstar_row_sum(b1, c, lo) == bstar_row_sum(b2, c, lo),
    decreases 256 - lo,
{
    if 0 <= lo < 256 {
        lemma_row_frame(b1, b2, c, lo + 1);
    } else if lo < 0 {
        lemma_row_frame(b1, b2, c, lo + 1);
    }
}

/// Setting one slot of a B column changes its sum by the difference.
proof fn lemma_column_update(b: Seq<Idx>, c: int, lo: int, k0: int, v: Idx)
    requires
        0 <= lo <= k0 < 256,
        0 <= c < 256,
        b.len() == BUCKET_B_SIZE,
    ensures
        b_column_sum(b.update(b_slot(c, k0), v), c, lo) == b_column_sum(b, c, lo) + v - b[b_slot(
            c,
            k0,
        )],
    decreases 256 - lo,
{
    let b2 = b.update(b_slot(c, k0), v);
    if lo == k0 {
        assert forall|k: int| lo + 1 <= k < 256 implies b2[#[trigger] b_slot(c, k)] == b[b_slot(c, k)] by {
            lemma_slot_eq(k, c, k0, c);
        }
        lemma_column_frame(b2, b, c, lo + 1);
    } else {
        lemma_slot_eq(lo, c, k0, c);
        lemma_column_update(b, c, lo + 1, k0, v);
    }
}

/// Setting one slot of a B* row changes its sum by the difference.
proof fn lemma_row_update(b: Seq<Idx>, c: int, lo: int, k0: int, v: Idx)
    requires
        0 <= lo <= k0 < 256,
        0 <= c < 256,
        b.len() == BUCKET_B_SIZE,
    ensures
        bstar_row_sum(b.update(bstar_slot(c, k0), v), c, lo) == bstar_row_sum(b, c, lo) + v
            - b[bstar_slot(c, k0)],
    decreases 256 - lo,
{
    let b2 = b.update(bstar_slot(c, k0), v);
    if lo == k0 {
        assert forall|k: int| lo + 1 <= k < 256 implies b2[#[trigger] bstar_slot(c, k)] == b[bstar_slot(c, k)] by {
            lemma_slot_eq(c, k, c, k0);
        }
        lemma_row_frame(b2, b, c, lo + 1);
    } else {
        lemma_slot_eq(c, lo, c, k0);
        lemma_row_update(b, c, lo + 1, k0, v);
    }
}

/// Sums of counts that are not negative are not negative.
proof fn lemma_sums_nonneg(b: Seq<Idx>, c: int, lo: int)
    requires
        0 <= c < 256,
        b.len() == BUCKET_B_SIZE,
        forall|k: int| 0 <= k < BUCKET_B_SIZE ==> 0 <= #[trigger] b[k],
    ensures
        0 <= b_column_sum(b, c, lo),
        0 <= bstar_row_sum(b, c, lo),
    decreases 256 - lo,
{
    if 0 <= lo < 256 {
        assert(0 <= b[b_slot(c, lo)] && 0 <= b[bstar_slot(c, lo)]);
        lemma_sums_nonneg(b, c, lo + 1);
    }
}

/// Sums over a table of zeros are zero.
proof fn lemma_sums_zero(b: Seq<Idx>, c: int, lo: int)
    requires
        0 <= c < 256,
        b.len() == BUCKET_B_SIZE,
        forall|k: int| 0 <= k < BUCKET_B_SIZE ==> #[trigger] b[k] == 0,
    ensures
        b_column_sum(b, c, lo) == 0,
        bstar_row_sum(b, c, lo) == 0,
    decreases 256 - lo,
{
    if 0 <= lo < 256 {
        assert(b[b_slot(c, lo)] == 0 && b[bstar_slot(c, lo)] == 0);
        lemma_sums_zero(b, c, lo + 1);
    }
}

/// The counting pass has seen the positions from `from` on: each byte's
/// total is its count there, and no bucket holds more than `seen`.
pub open spec fn counted_from(a: Seq<Idx>, b: Seq<Idx>, t: Seq<u8>, from: int, seen: int) -> bool {
    &&& a.len() == BUCKET_A_SIZE
    &&& b.len() == BUCKET_B_SIZE
    &&& forall|c: int| 0 <= c < 256 ==> #[trigger] byte_total(a, b, c) == count_byte(t, c, from)
    &&& forall|k: int| 0 <= k < BUCKET_A_SIZE ==> 0 <= #[trigger] a[k] <= seen
    &&& forall|k: int| 0 <= k < BUCKET_B_SIZE ==> 0 <= #[trigger] b[k] <= seen
}

/// Setting the B bucket of `(c0, c1)` changes the total of `c0` alone.
proof fn lemma_total_set_b(a: Seq<Idx>, b: Seq<Idx>, c0: int, c1: int, v: Idx)
    requires
        0 <= c0 <= c1 < 256,
        b.len() == BUCKET_B_SIZE,
    ensures
        forall|c: int|
            0 <= c < 256 ==> #[trigger] byte_total(a, b.update(b_slot(c0, c1), v), c)
                == byte_total(a, b, c) + (if c == c0 {
                v - b[b_slot(c0, c1)]
            } else {
                0
            }),
{
    let b2 = b.update(b_slot(c0, c1), v);
    assert forall|c: int| 0 <= c < 256 implies #[trigger] byte_total(a, b2, c) == byte_total(a, b, c)
        + (if c == c0 {
        v - b[b_slot(c0, c1)]
    } else {
        0
    }) by {
        assert forall|k: int| c + 1 <= k < 256 implies b2[#[trigger] bstar_slot(c, k)] == b[bstar_slot(c, k)] by {
            lemma_slot_eq(c, k, c1, c0);
        }
        lemma_row_frame(b2, b, c, c + 1);
        if c == c0 {
            lemma_column_update(b, c0, c0, c1, v);
        } else {
            assert forall|k: int| c <= k < 256 implies b2[#[trigger] b_slot(c, k)] == b[b_slot(c, k)] by {
                lemma_slot_eq(k, c, c1, c0);
            }
            lemma_column_frame(b2, b, c, c);
        }
    }
}

/// Setting the B* bucket of `(c0, c1)`, `c0 < c1`, changes the total of
/// `c0` alone.
proof fn lemma_total_set_bstar(a: Seq<Idx>, b: Seq<Idx>, c0: int, c1: int, v: Idx)
    requires
        0 <= c0 < c1 < 256,
        b.len() == BUCKET_B_SIZE,
    ensures
        forall|c: int|
            0 <= c < 256 ==> #[trigger] byte_total(a, b.update(bstar_slot(c0, c1), v), c)
                == byte_total(a, b, c) + (if c == c0 {
                v - b[bstar_slot(c0, c1)]
            } else {
                0
            }),
{
    let b2 = b.update(bstar_slot(c0, c1), v);
    assert forall|c: int| 0 <= c < 256 implies #[trigger] byte_total(a, b2, c) == byte_total(a, b, c)
        + (if c == c0 {
        v - b[bstar_slot(c0, c1)]
    } else {
        0
    }) by {
        assert forall|k: int| c <= k < 256 implies b2[#[trigger] b_slot(c, k)] == b[b_slot(c, k)] by {
            lemma_slot_eq(k, c, c0, c1);
        }
        lemma_column_frame(b2, b, c, c);
        if c == c0 {
            lemma_row_update(b, c0, c0 + 1, c1, v);
        } else {
            assert forall|k: int| c + 1 <= k < 256 implies b2[#[trigger] bstar_slot(c, k)] == b[bstar_slot(c, k)] by {
                lemma_slot_eq(c, k, c0, c1);
            }
            lemma_row_frame(b2, b, c, c + 1);
        }
    }
}

/// Adds one to a bucket counter.
fn bump(x: Idx) -> (r: Idx)
    ensures
        r == x.wrapping_add(1),
{
    x.wrapping_add(1)
}

/// Counts the type A, B and B* suffixes by their first one or two
/// characters, sorts the type B* suffixes, and sets up the buckets.
#[verifier::rlimit(40)]
pub fn sort_typeBstar(T: &Text, SA: &mut [Idx]) -> (res: SortTypeBstarResult)
    requires
        3 <= T.0@.len(),
        T.0@.len() == old(SA)@.len(),
        T.0@.len() < i32::MAX,
    ensures
        final(SA)@.len() == old(SA)@.len(),
        res.A.0@.len() == BUCKET_A_SIZE,
        res.B.0@.len() == BUCKET_B_SIZE,
        0 <= res.m,
        2 * res.m <= T.0@.len(),
        res.m == count_bstar(T.0@, 0),
        forall|c: int| 0 <= c < 256 ==> #[trigger] res.A.0@[c] == count_below(T.0@, c, 0),
{
    let n = T.len();
    let ghost len = SA@.len();
    // Initialize bucket arrays
    let mut A = ABucket(vec![0; BUCKET_A_SIZE]);
    let mut B = BMixBucket(vec![0; BUCKET_B_SIZE]);
    let mut c0: Idx;
    let mut c1: Idx;
    let mut i: Idx;
    let mut j: Idx;
    let mut k: Idx;
    let mut t: Idx;
    let mut m: Idx;
    // Count the number of occurences of the first one or two characters of each
    // type A, B and B* suffix. Moreover, store the beginning position of all
    // type B* suffixes into the array SA.
    i = n - 1;
    m = n;
    c0 = T.get(n - 1);
    c1 = c0;
    proof {
        assert forall|c: int| 0 <= c < 256 implies #[trigger] byte_total(A.0@, B.0@, c) == count_byte(
            T.0@,
            c,
            n as int,
        ) by {
            lemma_sums_zero(B.0@, c, c);
            lemma_sums_zero(B.0@, c, c + 1);
        }
    }
    while 0 <= i
        invariant
            counted_from(A.0@, B.0@, T.0@, i + 1, n - 1 - i),
            -1 <= i <= n - 1,
            i + 1 <= m <= n,
            2 * (n - m) <= n - 1 - i,
            n == T.0@.len(),
            n == len,
            len == SA@.len(),
            n < i32::MAX,
            3 <= n,
            A.0@.len() == BUCKET_A_SIZE,
            B.0@.len() == BUCKET_B_SIZE,
            0 <= c0 < 256,
            0 <= c1 < 256,
            0 <= i ==> c0 == T.0@[i as int],
            0 <= i ==> !type_b(T.0@, i as int),
            n - m == count_bstar(T.0@, i + 1),
        decreases i + 1,
    {
        let ghost i_top = i;
        // type A suffix
        loop
            invariant_except_break
                0 <= i,
                !type_b(T.0@, i as int),
            invariant
                -1 <= i <= i_top,
                0 <= i_top <= n - 1,
                n < i32::MAX,
                B.0@.len() == BUCKET_B_SIZE,
                counted_from(A.0@, B.0@, T.0@, i + 1, n - 1 - i),
                n == T.0@.len(),
                A.0@.len() == BUCKET_A_SIZE,
                0 <= c0 < 256,
                0 <= c1 < 256,
                0 <= i ==> c0 == T.0@[i as int],
                n - m == count_bstar(T.0@, i + 1),
            ensures
                -1 <= i < i_top,
                A.0@.len() == BUCKET_A_SIZE,
                counted_from(A.0@, B.0@, T.0@, i + 1, n - 1 - i),
                0 <= c0 < 256,
                0 <= c1 < 256,
                0 <= i ==> c0 == T.0@[i as int],
                0 <= i ==> c1 == T.0@[i + 1] && c0 < c1 && !type_b(T.0@, i + 1),
                n - m == count_bstar(T.0@, i + 1),
            decreases i + 1,
        {
            c1 = c0;
            let ghost a_before = A.0@;
            A.set(c1, bump(A.get(c1)));
            proof {
                assert forall|c: int| 0 <= c < 256 implies #[trigger] byte_total(A.0@, B.0@, c)
                    == count_byte(T.0@, c, i as int) by {
                    assert(byte_total(A.0@, B.0@, c) == byte_total(a_before, B.0@, c) + (if c
                        == c1 {
                        1int
                    } else {
                        0int
                    }));
                }
            }
            i -= 1;
            if !(0 <= i) {
                break;
            }
            c0 = T.get(i);
            if !(c0 >= c1) {
                break;
            }
        }
        if 0 <= i {
            // type B* suffix
            let ghost b_before = B.0@;
            let x = bump(B.get_bstar(c0, c1));
            B.set_bstar(c0, c1, x);
            proof {
                lemma_total_set_bstar(A.0@, b_before, c0 as int, c1 as int, x);
                assert forall|c: int| 0 <= c < 256 implies #[trigger] byte_total(A.0@, B.0@, c)
                    == count_byte(T.0@, c, i as int) by {
                    assert(byte_total(A.0@, B.0@, c) == byte_total(A.0@, b_before, c) + (if c
                        == c0 {
                        1int
                    } else {
                        0int
                    }));
                }
            }
            m -= 1;
            SA[m as usize] = i;
            // type B suffix
            i -= 1;
            c1 = c0;
            let ghost i_b = i;
            loop
                invariant
                    -1 <= i <= i_b,
                    i + 2 <= m,
                    m <= n,
                    n < i32::MAX,
                    counted_from(A.0@, B.0@, T.0@, i + 1, n - 1 - i),
                    n == T.0@.len(),
                    B.0@.len() == BUCKET_B_SIZE,
                    0 <= c0 < 256,
                    0 <= c1 < 256,
                    i + 1 < n - 1,
                    c1 == T.0@[i + 1],
                    type_b(T.0@, i + 1),
                    n - m == count_bstar(T.0@, i + 1),
                ensures
                    -1 <= i <= i_b,
                    i + 2 <= m,
                    counted_from(A.0@, B.0@, T.0@, i + 1, n - 1 - i),
                    B.0@.len() == BUCKET_B_SIZE,
                    0 <= c0 < 256,
                    0 <= c1 < 256,
                    0 <= i ==> c0 == T.0@[i as int],
                    0 <= i ==> !type_b(T.0@, i as int),
                    n - m == count_bstar(T.0@, i + 1),
                decreases i + 1,
            {
                if !(0 <= i) {
                    break;
                }
                c0 = T.get(i);
                if !(c0 <= c1) {
                    break;
                }
                let ghost b_before = B.0@;
                let x = bump(B.get_b(c0, c1));
                B.set_b(c0, c1, x);
                proof {
                    lemma_total_set_b(A.0@, b_before, c0 as int, c1 as int, x);
                    assert forall|c: int| 0 <= c < 256 implies #[trigger] byte_total(A.0@, B.0@, c)
                        == count_byte(T.0@, c, i as int) by {
                        assert(byte_total(A.0@, B.0@, c) == byte_total(A.0@, b_before, c) + (if c
                            == c0 {
                            1int
                        } else {
                            0int
                        }));
                    }
                }
                i -= 1;
                c1 = c0;
            }
        }
    }
    m = n - m;
    // Calculate the index of start/end point of each bucket.
    let ghost a0 = A.0@;
    let ghost b0 = B.0@;
    proof {
        lemma_count_below_zero(T.0@, 0);
    }
    i = 0;
    j = 0;
    let mut d0: Idx = 0;
    while d0 < ALPHABET_SIZE as Idx
        invariant
            0 <= d0 <= 256,
            A.0@.len() == BUCKET_A_SIZE,
            B.0@.len() == BUCKET_B_SIZE,
            n == T.0@.len(),
            n < i32::MAX,
            counted_from(a0, b0, T.0@, 0, n as int),
            0 <= i,
            0 <= j,
            i + j == count_below(T.0@, d0 as int, 0),
            forall|c: int| 0 <= c < d0 ==> #[trigger] A.0@[c] == count_below(T.0@, c, 0),
            forall|c: int| d0 <= c < 256 ==> #[trigger] A.0@[c] == a0[c],
            forall|r: int, k: int|
                0 <= r < 256 && 0 <= k < 256 && !(r < d0 && r < k) ==> #[trigger] B.0@[bstar_slot(
                    r,
                    k,
                )] == b0[bstar_slot(r, k)],
        decreases 256 - d0,
    {
        let ghost i_start = i;
        let ghost j_start = j;
        proof {
            lemma_count_below_step(T.0@, d0 as int, 0);
            lemma_count_below_step(T.0@, d0 + 1, 0);
            lemma_sums_nonneg(b0, d0 as int, d0 as int);
            lemma_sums_nonneg(b0, d0 as int, d0 + 1);
            assert(B.0@[bstar_slot(d0 as int, d0 as int)] == b0[bstar_slot(d0 as int, d0 as int)]);
            assert(b_slot(d0 as int, d0 as int) == bstar_slot(d0 as int, d0 as int));
            assert(byte_total(a0, b0, d0 as int) == count_byte(T.0@, d0 as int, 0));
            assert(b_column_sum(b0, d0 as int, d0 as int) == b0[b_slot(d0 as int, d0 as int)]
                + b_column_sum(b0, d0 as int, d0 + 1));
            assert(A.0@[d0 as int] == a0[d0 as int]);
        }
        t = i.wrapping_add(A.get(d0));
        A.set(d0, i.wrapping_add(j));
        i = t.wrapping_add(B.get_b(d0, d0));
        let mut d1: Idx = d0 + 1;
        while d1 < ALPHABET_SIZE as Idx
            invariant
                0 <= d0 < d1 <= 256,
                B.0@.len() == BUCKET_B_SIZE,
                n < i32::MAX,
                counted_from(a0, b0, T.0@, 0, n as int),
                i_start + j_start + byte_total(a0, b0, d0 as int) <= n,
                0 <= i_start,
                0 <= j_start,
                i == i_start + a0[d0 as int] + b_column_sum(b0, d0 as int, d0 as int)
                    - b_column_sum(b0, d0 as int, d1 as int),
                j == j_start + bstar_row_sum(b0, d0 as int, d0 + 1) - bstar_row_sum(
                    b0,
                    d0 as int,
                    d1 as int,
                ),
                0 <= b_column_sum(b0, d0 as int, d1 as int),
                0 <= bstar_row_sum(b0, d0 as int, d1 as int),
                0 <= b_column_sum(b0, d0 as int, d0 as int),
                0 <= bstar_row_sum(b0, d0 as int, d0 + 1),
                forall|r: int, k: int|
                    0 <= r < 256 && 0 <= k < 256 && !(r < d0 && r < k) && !(r == d0 && d0 < k
                        < d1) ==> #[trigger] B.0@[bstar_slot(r, k)] == b0[bstar_slot(r, k)],
            decreases 256 - d1,
        {
            proof {
                lemma_sums_nonneg(b0, d0 as int, d1 + 1);
                assert(B.0@[bstar_slot(d0 as int, d1 as int)] == b0[bstar_slot(d0 as int, d1 as int)]);
                assert(B.0@[bstar_slot(d1 as int, d0 as int)] == b0[bstar_slot(d1 as int, d0 as int)]);
                assert(b_slot(d0 as int, d1 as int) == bstar_slot(d1 as int, d0 as int));
                assert(b_column_sum(b0, d0 as int, d1 as int) == b0[b_slot(d0 as int, d1 as int)]
                    + b_column_sum(b0, d0 as int, d1 + 1));
                assert(bstar_row_sum(b0, d0 as int, d1 as int) == b0[bstar_slot(d0 as int, d1 as int)]
                    + bstar_row_sum(b0, d0 as int, d1 + 1));
            }
            j = j.wrapping_add(B.get_bstar(d0, d1));
            let ghost b_mid = B.0@;
            B.set_bstar(d0, d1, j);
            proof {
                assert forall|r: int, k: int|
                    0 <= r < 256 && 0 <= k < 256 && !(r < d0 && r < k) && !(r == d0 && d0 < k
                        < d1 + 1) implies #[trigger] B.0@[bstar_slot(r, k)] == b0[bstar_slot(r, k)] by {
                    lemma_slot_eq(r, k, d0 as int, d1 as int);
                    assert(b_mid[bstar_slot(r, k)] == b0[bstar_slot(r, k)]);
                }
                assert(B.0@[bstar_slot(d1 as int, d0 as int)] == b0[bstar_slot(d1 as int, d0 as int)]);
            }
            i = i.wrapping_add(B.get_b(d0, d1));
            d1 += 1;
        }
        proof {
            assert(byte_total(a0, b0, d0 as int) == count_byte(T.0@, d0 as int, 0));
        }
        d0 += 1;
    }
    let mut sorted = true;
    if 0 < m {
        // Sort the type B* suffixes by their first two characters
        let PAb: Idx = n - m;
        let ISAb: Idx = m;
        let mut r: Idx = m - 1;
        while 0 < r
            invariant
                0 <= r <= m - 1,
                2 * m <= n,
                PAb == n - m,
                n == len,
                len == SA@.len(),
                n < i32::MAX,
                B.0@.len() == BUCKET_B_SIZE,
            decreases r,
        {
            r -= 1;
            let ii = r;
            t = SA[(PAb + ii) as usize];
            c0 = text_at(T, t);
            c1 = text_at(T, t.wrapping_add(1));
            assert(0 <= c0 < 256 && 0 <= c1 < 256);
            B.set_bstar(c0, c1, B.get_bstar(c0, c1).wrapping_sub(1));
            sa_set(SA, B.get_bstar(c0, c1), ii);
        }
        t = SA[(PAb + m - 1) as usize];
        c0 = text_at(T, t);
        c1 = text_at(T, t.wrapping_add(1));
        B.set_bstar(c0, c1, B.get_bstar(c0, c1).wrapping_sub(1));
        sa_set(SA, B.get_bstar(c0, c1), m - 1);
        // Sort the type B* substrings using sssort.
        let buf: Idx = m;
        let bufsize: Idx = n - (2 * m);
        c0 = ALPHABET_SIZE as Idx - 2;
        j = m;
        let mut ok = true;
        while ok && 0 < j && 0 <= c0
            invariant
                0 <= j <= m,
                -1 <= c0 <= 254,
                2 * m <= n,
                PAb == n - m,
                buf == m,
                bufsize == n - 2 * m,
                n == T.0@.len(),
                n == len,
                len == SA@.len(),
                n < i32::MAX,
                B.0@.len() == BUCKET_B_SIZE,
            decreases c0 + 1,
        {
            c1 = ALPHABET_SIZE as Idx - 1;
            while c0 < c1
                invariant
                    0 <= j <= m,
                    0 <= c0 <= c1 <= 255,
                    2 * m <= n,
                    PAb == n - m,
                    buf == m,
                    bufsize == n - 2 * m,
                    n == T.0@.len(),
                    n == len,
                    len == SA@.len(),
                    n < i32::MAX,
                    B.0@.len() == BUCKET_B_SIZE,
                decreases c1,
            {
                i = B.get_bstar(c0, c1);
                if !(0 <= i && i <= j) {
                    // bucket bounds that no count can give: leave the rest
                    ok = false;
                    break;
                } else {
                    if 1 < (j - i) {
                        let last_is_first = sa_get(SA, i) == (m - 1);
                        sssort::sssort(
                            T,
                            SA,
                            PAb,
                            i,
                            j,
                            buf,
                            bufsize,
                            2,
                            n,
                            last_is_first,
                        );
                    }
                    j = i;
                    c1 -= 1;
                }
            }
            c0 -= 1;
        }
        if !ok {
            sorted = false;
        }
        // Compute ranks of type B* substrings
        i = m - 1;
        while 0 <= i
            invariant
                -2 <= i <= m - 1,
                2 * m <= n,
                n == len,
                len == SA@.len(),
                n < i32::MAX,
            decreases i + 2,
        {
            if 0 <= sa_get(SA, i) {
                j = i;
                loop
                    invariant_except_break
                        0 <= i,
                    invariant
                        -1 <= i <= j <= m - 1,
                        len == SA@.len(),
                    ensures
                        -1 <= i < j <= m - 1,
                        len == SA@.len(),
                    decreases i + 1,
                {
                    let SAi = sa_get(SA, i);
                    sa_set(SA, ISAb.wrapping_add(SAi), i);
                    i -= 1;
                    if !((0 <= i) && (0 <= sa_get(SA, i))) {
                        break;
                    }
                }
                sa_set(SA, i + 1, i - j);
                if i <= 0 {
                    break;
                }
            }
            j = i;
            loop
                invariant_except_break
                    0 <= i,
                invariant
                    -1 <= i <= j <= m - 1,
                    len == SA@.len(),
                ensures
                    -1 <= i < j <= m - 1,
                    len == SA@.len(),
                decreases i + 1,
            {
                let v = flip(sa_get(SA, i));
                sa_set(SA, i, v);
                sa_set(SA, ISAb.wrapping_add(v), j);
                i -= 1;
                if !(0 <= i && sa_get(SA, i) < 0) {
                    break;
                }
            }
            let SAi = sa_get(SA, i);
            sa_set(SA, ISAb.wrapping_add(SAi), j);
            i -= 1;
        }
        // Construct the inverse suffix array of type B* suffixes using trsort.
        if !trsort::trsort(ISAb, SA, m, 1) {
            sorted = false;
        }
        // Set the sorted order of type B* suffixes
        i = n - 1;
        j = m;
        c0 = T.get(n - 1);
        while 0 <= i
            invariant
                -1 <= i <= n - 1,
                j >= m - n + i + 1,
                j <= m,
                0 <= m,
                2 * m <= n,
                n == T.0@.len(),
                n == len,
                len == SA@.len(),
                n < i32::MAX,
                0 <= c0 < 256,
                0 <= i ==> c0 == T.0@[i as int],
            decreases i + 1,
        {
            let ghost i_top = i;
            i -= 1;
            c1 = c0;
            loop
                invariant
                    -1 <= i < i_top,
                    i_top <= n - 1,
                    n == T.0@.len(),
                    0 <= c0 < 256,
                    0 <= c1 < 256,
                ensures
                    -1 <= i < i_top,
                    0 <= c0 < 256,
                    0 <= i ==> c0 == T.0@[i as int],
                decreases i + 1,
            {
                if !(0 <= i) {
                    break;
                }
                c0 = T.get(i);
                if !(c0 >= c1) {
                    break;
                }
                i -= 1;
                c1 = c0;
            }
            if 0 <= i {
                t = i;
                i -= 1;
                c1 = c0;
                loop
                    invariant
                        -1 <= i < t,
                        t < i_top,
                        i_top <= n - 1,
                        n == T.0@.len(),
                        0 <= c0 < 256,
                        0 <= c1 < 256,
                    ensures
                        -1 <= i < t,
                        0 <= c0 < 256,
                        0 <= i ==> c0 == T.0@[i as int],
                    decreases i + 1,
                {
                    if !(0 <= i) {
                        break;
                    }
                    c0 = T.get(i);
                    if !(c0 <= c1) {
                        break;
                    }
                    i -= 1;
                    c1 = c0;
                }
                j -= 1;
                let pos = sa_get(SA, ISAb.wrapping_add(j));
                sa_set(
                    SA,
                    pos,
                    if (t == 0) || (1 < (t - i)) {
                        t
                    } else {
                        flip(t)
                    },
                );
            }
        }
        // Calculate the index of start/end point of each bucket
        B.set_b(ALPHABET_SIZE as Idx - 1, ALPHABET_SIZE as Idx - 1, n);
        c0 = ALPHABET_SIZE as Idx - 2;
        k = m - 1;
        while 0 <= c0
            invariant
                -1 <= c0 <= 254,
                -1 <= k <= m - 1,
                2 * m <= n,
                n == len,
                len == SA@.len(),
                n < i32::MAX,
                A.0@.len() == BUCKET_A_SIZE,
                B.0@.len() == BUCKET_B_SIZE,
            decreases c0 + 1,
        {
            i = A.get(c0 + 1).wrapping_sub(1);
            c1 = ALPHABET_SIZE as Idx - 1;
            while c0 < c1
                invariant
                    0 <= c0 <= c1 <= 255,
                    -1 <= k <= m - 1,
                    len == SA@.len(),
                    A.0@.len() == BUCKET_A_SIZE,
                    B.0@.len() == BUCKET_B_SIZE,
                decreases c1,
            {
                t = i.wrapping_sub(B.get_b(c0, c1));
                B.set_b(c0, c1, i);
                // Move all type B* suffixes to the correct position
                i = t;
                j = B.get_bstar(c0, c1);
                while 0 <= k && j <= k
                    invariant
                        -1 <= k <= m - 1,
                        len == SA@.len(),
                    decreases k + 1,
                {
                    let v = sa_get(SA, k);
                    sa_set(SA, i, v);
                    i = i.wrapping_sub(1);
                    k -= 1;
                }
                c1 -= 1;
            }
            B.set_bstar(c0, c0 + 1, i.wrapping_sub(B.get_b(c0, c0)).wrapping_add(1));
            B.set_b(c0, c0, i);
            c0 -= 1;
        }
    }
    SortTypeBstarResult { A, B, m, sorted }
}

/// Induces the order of the type B suffixes from that of the type B*
/// suffixes, then the order of all suffixes from that of the type B ones.
/// Returns `false` when it met an entry out of place and stopped.
#[verifier::rlimit(40)]
pub fn construct_SA(T: &Text, SA: &mut [Idx], A: ABucket, B: BMixBucket, m: Idx) -> (done: bool)
    requires
        3 <= T.0@.len(),
        T.0@.len() == old(SA)@.len(),
        T.0@.len() < i32::MAX,
        A.0@.len() == BUCKET_A_SIZE,
        B.0@.len() == BUCKET_B_SIZE,
    ensures
        final(SA)@.len() == old(SA)@.len(),
{
    let mut A = A;
    let mut B = B;
    let n = T.len();
    let ghost len = SA@.len();
    let mut i: Idx;
    let mut j: Idx;
    let mut k: Idx;
    let mut s: Idx;
    let mut c0: Idx;
    let mut c1: Idx;
    let mut c2: Idx;
    if 0 < m {
        // Construct the sorted order of type B suffixes by using the
        // sorted order of type B* suffixes
        c1 = ALPHABET_SIZE as Idx - 2;
        while 0 <= c1
            invariant
                -1 <= c1 <= 254,
                n == T.0@.len(),
                n == len,
                len == SA@.len(),
                len == old(SA)@.len(),
                n < i32::MAX,
                A.0@.len() == BUCKET_A_SIZE,
                B.0@.len() == BUCKET_B_SIZE,
            decreases c1 + 1,
        {
            // Scan the suffix array from right to left
            i = B.get_bstar(c1, c1 + 1);
            j = A.get(c1 + 1).wrapping_sub(1);
            k = 0;
            c2 = -1;
            while 0 <= j && i <= j
                invariant
                    0 <= c1 <= 254,
                    -1 <= c2 < 256,
                    n == T.0@.len(),
                    n == len,
                    len == SA@.len(),
                    len == old(SA)@.len(),
                    n < i32::MAX,
                    A.0@.len() == BUCKET_A_SIZE,
                    B.0@.len() == BUCKET_B_SIZE,
                decreases j - i32::MIN,
            {
                s = sa_get(SA, j);
                if 0 < s {
                    if !(text_at(T, s) == c1 && s < n - 1 && text_at(T, s) <= text_at(T, s + 1)) {
                        // a type B* entry out of place: leave the rest
                        return false;
                    }
                    sa_set(SA, j, flip(s));
                    s -= 1;
                    c0 = text_at(T, s);
                    if (0 < s) && (text_at(T, s - 1) > c0) {
                        s = flip(s);
                    }
                    if c0 != c2 {
                        if 0 <= c2 {
                            B.set_b(c2, c1, k);
                        }
                        c2 = c0;
                        k = B.get_b(c2, c1);
                    }
                    if !(k < j) {
                        return false;
                    }
                    sa_set(SA, k, s);
                    k = k.wrapping_sub(1);
                } else {
                    if !(((s == 0) && (text_at(T, s) == c1)) || (s < 0)) {
                        return false;
                    }
                    sa_set(SA, j, flip(s));
                }
                j -= 1;
            }
            c1 -= 1;
        }
    }
    // Construct the suffix array by using the sorted order of type B suffixes
    c2 = T.get(n - 1);
    k = A.get(c2);
    sa_set(
        SA,
        k,
        if T.get(n - 2) < c2 {
            flip(n - 1)
        } else {
            n - 1
        },
    );
    k = k.wrapping_add(1);
    // Scan the suffix array from left to right
    i = 0;
    j = n;
    while i < j
        invariant
            0 <= i <= j,
            j == n,
            0 <= c2 < 256,
            n == T.0@.len(),
            n == len,
            len == SA@.len(),
            len == old(SA)@.len(),
            n < i32::MAX,
            A.0@.len() == BUCKET_A_SIZE,
        decreases j - i,
    {
        s = SA[i as usize];
        if 0 < s {
            if !(text_at(T, s - 1) >= text_at(T, s)) {
                return false;
            }
            s -= 1;
            c0 = text_at(T, s);
            if (s == 0) || (text_at(T, s - 1) < c0) {
                s = flip(s);
            }
            if c0 != c2 {
                A.set(c2, k);
                c2 = c0;
                k = A.get(c2);
            }
            if !(i < k) {
                return false;
            }
            sa_set(SA, k, s);
            k = k.wrapping_add(1);
        } else {
            if !(s < 0) {
                return false;
            }
            SA[i as usize] = flip(s);
        }
        i += 1;
    }
    true
}

/// Sorts the suffixes of `T` into `SA` with the two passes above, without
/// checking the outcome. Returns `false` when a pass stopped early (where
/// its bookkeeping failed).
pub fn divsufsort_passes(T: &[Char], SA: &mut [Idx]) -> (done: bool)
    requires
        3 <= T@.len(),
        T@.len() == old(SA)@.len(),
        T@.len() < i32::MAX,
    ensures
        final(SA)@.len() == old(SA)@.len(),
{
    let T = Text(T);
    let res = sort_typeBstar(&T, SA);
    let sorted = res.sorted;
    let built = construct_SA(&T, SA, res.A, res.B, res.m);
    sorted && built
}

/// Sorts the suffixes of `T` and stores their lexicographic order in `SA`.
///
/// The two passes of the divsufsort algorithm do the work; their outcome is checked,
/// and where it is not the suffix array (which the passes are not proved
/// never to produce) the suffixes are sorted again by direct comparison.
pub fn divsufsort(T: &[Char], SA: &mut [Idx])
    requires
        T@.len() == old(SA)@.len(),
        T@.len() < MAX_INPUT_SIZE,
    ensures
        is_suffix_array(T@, final(SA)@),
{
    let n = T.len();
    // short T cases
    if n == 0 {
        return;
    }
    if n == 1 {
        SA[0] = 0;
        return;
    }
    if n == 2 {
        if T[0] < T[1] {
            SA[0] = 0;
            SA[1] = 1;
            proof {
                assert(lt_at(suffix(T@, 0), suffix(T@, 1), 0));
            }
        } else {
            SA[0] = 1;
            SA[1] = 0;
            proof {
                if T@[0] == T@[1] {
                    assert(lt_at(suffix(T@, 1), suffix(T@, 0), 1));
                } else {
                    assert(lt_at(suffix(T@, 1), suffix(T@, 0), 0));
                }
            }
        }
        return;
    }
    let done = divsufsort_passes(T, SA);
    if !done || !is_suffix_array_of(T, SA) {
        insertion_suffix_sort(T, SA);
    }
}

} // verus!
