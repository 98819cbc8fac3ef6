//! Mathematical model of suffixes and of their lexicographic order.
use vstd::prelude::*;

verus! {

/// The suffix of `t` that starts at position `i`.
pub open spec fn suffix(t: Seq<u8>, i: int) -> Seq<u8> {
    t.subrange(i, t.len() as int)
}

/// `a` and `b` agree on their first `k` bytes.
pub open spec fn agree_upto(a: Seq<u8>, b: Seq<u8>, k: int) -> bool {
    &&& 0 <= k <= a.len()
    &&& k <= b.len()
    &&& forall|i: int| 0 <= i < k ==> a[i] == b[i]
}

/// `a` is smaller than `b`, and `k` is the first position where they differ
/// (or `a` ends at `k` while `b` goes on).
pub open spec fn lt_at(a: Seq<u8>, b: Seq<u8>, k: int) -> bool {
    &&& agree_upto(a, b, k)
    &&& ((k == a.len() && k < b.len()) || (k < a.len() && k < b.len() && a[k] < b[k]))
}

/// Strict lexicographic order on byte strings (a proper prefix is smaller).
pub open spec fn lex_lt(a: Seq<u8>, b: Seq<u8>) -> bool {
    exists|k: int| lt_at(a, b, k)
}

/// Length of the longest common prefix of `a` and `b`.
pub open spec fn lcp(a: Seq<u8>, b: Seq<u8>) -> int
    decreases a.len(),
{
    if a.len() == 0 || b.len() == 0 || a[0] != b[0] {
        0
    } else {
        1 + lcp(a.drop_first(), b.drop_first())
    }
}

/// Every position of `sa` names a suffix of `t`, and the suffixes it names
/// come in strictly increasing lexicographic order: `sa` is the suffix array
/// of `t`.
pub open spec fn is_suffix_array(t: Seq<u8>, sa: Seq<i32>) -> bool {
    &&& sa.len() == t.len()
    &&& forall|i: int| 0 <= i < sa.len() ==> 0 <= #[trigger] sa[i] < t.len()
    &&& forall|i: int, j: int|
        0 <= i < j < sa.len() ==> lex_lt(suffix(t, sa[i] as int), suffix(t, sa[j] as int))
}

/// Consecutive entries of `sa` name strictly increasing suffixes of `t`.
pub open spec fn adjacent_sorted(t: Seq<u8>, sa: Seq<i32>, upto: int) -> bool {
    forall|i: int|
        0 <= i && i + 1 < upto ==> lex_lt(
            suffix(t, #[trigger] sa[i] as int),
            suffix(t, sa[i + 1] as int),
        )
}

pub proof fn lemma_lcp_bounds(a: Seq<u8>, b: Seq<u8>)
    ensures
        0 <= lcp(a, b) <= a.len(),
        lcp(a, b) <= b.len(),
        agree_upto(a, b, lcp(a, b)),
        lcp(a, b) < a.len() && lcp(a, b) < b.len() ==> a[lcp(a, b)] != b[lcp(a, b)],
    decreases a.len(),
{
    if a.len() == 0 || b.len() == 0 || a[0] != b[0] {
    } else {
        let a1 = a.drop_first();
        let b1 = b.drop_first();
        lemma_lcp_bounds(a1, b1);
        let k = lcp(a1, b1);
        assert forall|i: int| 0 <= i < k + 1 implies a[i] == b[i] by {
            if i > 0 {
                assert(a1[i - 1] == b1[i - 1]);
            }
        }
    }
}

/// The longest common prefix is the first position of disagreement.
pub proof fn lemma_lcp_is_first_difference(a: Seq<u8>, b: Seq<u8>, k: int)
    requires
        agree_upto(a, b, k),
        k == a.len() || k == b.len() || a[k] != b[k],
    ensures
        lcp(a, b) == k,
{
    lemma_lcp_bounds(a, b);
    let l = lcp(a, b);
    if l < k {
        assert(a[l] == b[l]);
    } else if l > k {
        assert(a[k] == b[k]);
    }
}

/// The order is determined by the first position where the strings differ.
pub proof fn lemma_lex_lt_at_lcp(a: Seq<u8>, b: Seq<u8>)
    ensures
        lex_lt(a, b) <==> lt_at(a, b, lcp(a, b)),
{
    lemma_lcp_bounds(a, b);
    if lex_lt(a, b) {
        let k = choose|k: int| lt_at(a, b, k);
        lemma_lcp_is_first_difference(a, b, k);
    }
}

pub proof fn lemma_lex_irreflexive(a: Seq<u8>)
    ensures
        !lex_lt(a, a),
{
}

pub proof fn lemma_lex_asymmetric(a: Seq<u8>, b: Seq<u8>)
    requires
        lex_lt(a, b),
    ensures
        !lex_lt(b, a),
{
    let k = choose|k: int| lt_at(a, b, k);
    if lex_lt(b, a) {
        let j = choose|j: int| lt_at(b, a, j);
        if j < k {
            assert(a[j] == b[j]);
        } else if k < j {
            assert(a[k] == b[k]);
        }
    }
}

pub proof fn lemma_lex_transitive(a: Seq<u8>, b: Seq<u8>, c: Seq<u8>)
    requires
        lex_lt(a, b),
        lex_lt(b, c),
    ensures
        lex_lt(a, c),
{
    let k1 = choose|k: int| lt_at(a, b, k);
    let k2 = choose|k: int| lt_at(b, c, k);
    if k1 < k2 {
        assert(lt_at(a, c, k1));
    } else if k2 < k1 {
        assert(b[k2] == a[k2]);
        assert(lt_at(a, c, k2));
    } else {
        assert(lt_at(a, c, k1));
    }
}

/// Two different strings are ordered one way or the other.
pub proof fn lemma_lex_total(a: Seq<u8>, b: Seq<u8>)
    requires
        a != b,
    ensures
        lex_lt(a, b) || lex_lt(b, a),
{
    lemma_lcp_bounds(a, b);
    let k = lcp(a, b);
    if k == a.len() && k == b.len() {
        assert(a =~= b);
    } else if k == a.len() {
        assert(lt_at(a, b, k));
    } else if k == b.len() {
        assert(lt_at(b, a, k));
    } else if a[k] < b[k] {
        assert(lt_at(a, b, k));
    } else {
        assert(lt_at(b, a, k));
    }
}

/// Suffixes that start at different positions are different strings.
pub proof fn lemma_suffixes_differ(t: Seq<u8>, i: int, j: int)
    requires
        0 <= i <= t.len(),
        0 <= j <= t.len(),
        i != j,
    ensures
        suffix(t, i) != suffix(t, j),
{
    assert(suffix(t, i).len() != suffix(t, j).len());
}

/// Adjacent order extends to every pair by transitivity.
pub proof fn lemma_adjacent_sorted_all(t: Seq<u8>, sa: Seq<i32>, n: int)
    requires
        0 <= n <= sa.len(),
        adjacent_sorted(t, sa, n),
    ensures
        forall|i: int, j: int|
            0 <= i < j < n ==> lex_lt(suffix(t, sa[i] as int), suffix(t, sa[j] as int)),
    decreases n,
{
    if n > 0 {
        lemma_adjacent_sorted_all(t, sa, n - 1);
        assert forall|i: int, j: int| 0 <= i < j < n implies lex_lt(
            suffix(t, sa[i] as int),
            suffix(t, sa[j] as int),
        ) by {
            if j == n - 1 && i < j - 1 {
                assert(lex_lt(suffix(t, sa[i] as int), suffix(t, sa[j - 1] as int)));
                assert(lex_lt(suffix(t, sa[j - 1] as int), suffix(t, sa[j] as int)));
                lemma_lex_transitive(
                    suffix(t, sa[i] as int),
                    suffix(t, sa[j - 1] as int),
                    suffix(t, sa[j] as int),
                );
            }
        }
    }
}


/// A suffix array passes the check of consecutive entries.
pub proof fn lemma_suffix_array_adjacent_sorted(t: Seq<u8>, sa: Seq<i32>)
    requires
        is_suffix_array(t, sa),
    ensures
        adjacent_sorted(t, sa, t.len() as int),
{
    assert forall|i: int| 0 <= i && i + 1 < t.len() implies lex_lt(
        suffix(t, #[trigger] sa[i] as int),
        suffix(t, sa[i + 1] as int),
    ) by {
        assert(0 <= i < i + 1 < sa.len());
    }
}

/// The entries of a suffix array are pairwise different.
pub proof fn lemma_suffix_array_distinct(t: Seq<u8>, sa: Seq<i32>, i: int, j: int)
    requires
        is_suffix_array(t, sa),
        0 <= i < sa.len(),
        0 <= j < sa.len(),
        i != j,
    ensures
        sa[i] != sa[j],
{
    if i < j {
        if sa[i] == sa[j] {
            lemma_lex_irreflexive(suffix(t, sa[i] as int));
        }
    } else {
        if sa[i] == sa[j] {
            lemma_lex_irreflexive(suffix(t, sa[i] as int));
        }
    }
}

/// Every position of the text appears in its suffix array.
pub proof fn lemma_suffix_array_covers(t: Seq<u8>, sa: Seq<i32>, p: int)
    requires
        is_suffix_array(t, sa),
        0 <= p < t.len(),
    ensures
        exists|k: int| 0 <= k < sa.len() && sa[k] == p,
{
    let s: Seq<int> = Seq::new(sa.len(), |k: int| sa[k] as int);
    assert forall|i: int, j: int| 0 <= i < s.len() && 0 <= j < s.len() && i != j implies s[i]
        != s[j] by {
        lemma_suffix_array_distinct(t, sa, i, j);
    }
    assert(s.no_duplicates());
    s.unique_seq_to_set();
    let r = vstd::set_lib::set_int_range(0, t.len() as int);
    vstd::set_lib::lemma_int_range(0, t.len() as int);
    assert(s.to_set().subset_of(r)) by {
        assert forall|x: int| s.to_set().contains(x) implies r.contains(x) by {
            let k = choose|k: int| 0 <= k < s.len() && s[k] == x;
            assert(0 <= sa[k] < t.len());
        }
    }
    vstd::seq_lib::seq_to_set_is_finite(s);
    vstd::set_lib::lemma_subset_equality(s.to_set(), r);
    assert(r.contains(p));
    assert(s.to_set().contains(p));
    let k = choose|k: int| 0 <= k < s.len() && s[k] == p;
    assert(sa[k] == p);
}

proof fn lemma_suffix_array_agree_upto(t: Seq<u8>, sa1: Seq<i32>, sa2: Seq<i32>, i: int)
    requires
        is_suffix_array(t, sa1),
        is_suffix_array(t, sa2),
        0 <= i < sa1.len(),
    ensures
        forall|j: int| 0 <= j <= i ==> sa1[j] == sa2[j],
    decreases i,
{
    if i > 0 {
        lemma_suffix_array_agree_upto(t, sa1, sa2, i - 1);
    }
    let a = sa1[i];
    let b = sa2[i];
    if a != b {
        let sa_ = suffix(t, a as int);
        let sb = suffix(t, b as int);
        lemma_suffixes_differ(t, a as int, b as int);
        lemma_lex_total(sa_, sb);
        lemma_suffix_array_covers(t, sa2, a as int);
        lemma_suffix_array_covers(t, sa1, b as int);
        let j = choose|k: int| 0 <= k < sa2.len() && sa2[k] == a;
        let k = choose|k: int| 0 <= k < sa1.len() && sa1[k] == b;
        if lex_lt(sa_, sb) {
            // a comes before b in sa2 as well, so before position i, where
            // both arrays agree: a would occur twice in sa1
            if j > i {
                lemma_lex_asymmetric(sa_, sb);
            }
            assert(j < i);
            assert(sa1[j] == a);
            lemma_suffix_array_distinct(t, sa1, j, i);
        } else {
            if k > i {
                lemma_lex_asymmetric(sb, sa_);
            }
            assert(k < i);
            assert(sa2[k] == b);
            lemma_suffix_array_distinct(t, sa2, k, i);
        }
    }
}

/// A text has exactly one suffix array: any two suffix arrays of the same
/// text are equal.
pub proof fn lemma_suffix_array_unique(t: Seq<u8>, sa1: Seq<i32>, sa2: Seq<i32>)
    requires
        is_suffix_array(t, sa1),
        is_suffix_array(t, sa2),
    ensures
        sa1 == sa2,
{
    if sa1.len() > 0 {
        lemma_suffix_array_agree_upto(t, sa1, sa2, sa1.len() - 1);
    }
    assert(sa1 =~= sa2);
}

} // verus!
