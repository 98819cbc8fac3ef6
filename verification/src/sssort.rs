//! Substring sort: sorts the type B* substrings (each runs from a type B*
//! position up to two characters past the next one).
use vstd::prelude::*;
use vstd::multiset::Multiset;
use crate::common::{
    SAPtr, median3, is_median5, count_if,
    Idx, Text, SS_BLOCKSIZE, SS_INSERTIONSORT_THRESHOLD, at, put, tat, sa_get, sa_set, text_at,
    sa_swap, swapped, same_outside, flip,
    range_entries, lemma_swap_entries, lemma_split_entries, lemma_same_range_entries, lemma_entry_from,
    lemma_pop_entries,
};
use crate::trsort::{heap_parent, lemma_heap_rank_parent};
use crate::lex::{
    lex_lt, lt_at, agree_upto, lcp, lemma_lcp_bounds, lemma_lcp_is_first_difference,
    lemma_lex_lt_at_lcp, lemma_lex_transitive, lemma_lex_irreflexive,
};

verus! {

/// `2^k`.
pub open spec fn pow2(k: nat) -> int
    decreases k,
{
    if k == 0 {
        1
    } else {
        2 * pow2((k - 1) as nat)
    }
}

/// Floor of the base-2 logarithm, and -1 for 0.
pub open spec fn ilg(n: int) -> int
    decreases n,
{
    if n <= 0 {
        -1
    } else if n == 1 {
        0
    } else {
        1 + ilg(n / 2)
    }
}

pub proof fn lemma_ilg_range(n: int, k: nat)
    requires
        pow2(k) <= n < pow2(k + 1),
    ensures
        ilg(n) == k,
    decreases k,
{
    if k > 0 {
        assert(pow2(k) == 2 * pow2((k - 1) as nat));
        assert(pow2(k + 1) == 2 * pow2(k));
        lemma_ilg_range(n / 2, (k - 1) as nat);
    }
}

/// Floor of the base-2 logarithm of a byte, and -1 for 0.
pub fn lg_table(i: Idx) -> (r: Idx)
    requires
        0 <= i < 256,
    ensures
        r == ilg(i as int),
        -1 <= r <= 7,
        r == -1 <==> i == 0,
        r == 0 <==> i == 1,
        r == 1 <==> 2 <= i < 4,
        r == 2 <==> 4 <= i < 8,
        r == 3 <==> 8 <= i < 16,
        r == 4 <==> 16 <= i < 32,
        r == 5 <==> 32 <= i < 64,
        r == 6 <==> 64 <= i < 128,
        r == 7 <==> 128 <= i < 256,
{
    proof {
        reveal_with_fuel(pow2, 9);
    }
    if i >= 128 {
        proof { lemma_ilg_range(i as int, 7); }
        7
    } else if i >= 64 {
        proof { lemma_ilg_range(i as int, 6); }
        6
    } else if i >= 32 {
        proof { lemma_ilg_range(i as int, 5); }
        5
    } else if i >= 16 {
        proof { lemma_ilg_range(i as int, 4); }
        4
    } else if i >= 8 {
        proof { lemma_ilg_range(i as int, 3); }
        3
    } else if i >= 4 {
        proof { lemma_ilg_range(i as int, 2); }
        2
    } else if i >= 2 {
        proof { lemma_ilg_range(i as int, 1); }
        1
    } else if i >= 1 {
        proof { lemma_ilg_range(i as int, 0); }
        0
    } else {
        -1
    }
}

/// The logarithm of `n` from that of `n / 256`.
pub proof fn lemma_ilg_shift8(n: int)
    requires
        256 <= n,
    ensures
        ilg(n) == 8 + ilg(n / 256),
{
    assert(n / 256 == (((((((n / 2) / 2) / 2) / 2) / 2) / 2) / 2) / 2);
    reveal_with_fuel(ilg, 9);
}

/// Fast log2, using lookup tables: the floor of the base-2 logarithm of the
/// low 16 bits of `n` (-1 when they are all 0).
pub fn ss_ilg(n: Idx) -> (r: Idx)
    ensures
        0 <= n < 65536 ==> r == ilg(n as int),
        -1 <= r <= 15,
{
    assert(0 <= ((n >> 8) & 0xff) < 256) by (bit_vector);
    assert(0 <= ((n >> 0) & 0xff) < 256) by (bit_vector);
    assert(0 <= n < 65536 ==> ((n & 0xff00) > 0 <==> n >= 256)) by (bit_vector);
    assert(0 <= n < 65536 ==> ((n >> 8) & 0xff) == n / 256) by (bit_vector);
    assert(0 <= n < 256 ==> (n >> 0) & 0xff == n) by (bit_vector);
    if (n & 0xff00) > 0 {
        proof {
            if 0 <= n < 65536 {
                lemma_ilg_shift8(n as int);
            }
        }
        8 + lg_table((n >> 8) & 0xff)
    } else {
        0 + lg_table((n >> 0) & 0xff)
    }
}

/// The part of the text that `ss_compare` looks at for the entry at `p`:
/// from `depth` past the suffix start stored at `p` up to two characters
/// past the start stored at `p + 1` (empty when that end comes first).
pub open spec fn ss_substring(t: Seq<u8>, s: Seq<Idx>, p: int, depth: int) -> Seq<u8> {
    let start = depth + at(s, p);
    let end = at(s, p + 1) + 2;
    if start < end {
        t.subrange(start, end)
    } else {
        Seq::empty()
    }
}

/// The bounds that `ss_compare` reads lie inside the text.
pub open spec fn ss_in_text(t: Seq<u8>, s: Seq<Idx>, p: int, depth: int) -> bool {
    let start = depth + at(s, p);
    let end = at(s, p + 1) + 2;
    start < end ==> 0 <= start && end <= t.len()
}

/// Compare two suffixes: negative, zero or positive as the substring for
/// `p1` is smaller than, equal to or greater than the one for `p2`.
pub fn ss_compare(T: &Text, SAp1: &[Idx], p1: Idx, SAp2: &[Idx], p2: Idx, depth: Idx) -> (r: Idx)
    requires
        0 <= depth,
        T.0@.len() <= i32::MAX,
        SAp1@.len() <= i32::MAX,
        SAp2@.len() <= i32::MAX,
    ensures
        ss_in_text(T.0@, SAp1@, p1 as int, depth as int) && ss_in_text(
            T.0@,
            SAp2@,
            p2 as int,
            depth as int,
        ) ==> {
            let s1 = ss_substring(T.0@, SAp1@, p1 as int, depth as int);
            let s2 = ss_substring(T.0@, SAp2@, p2 as int, depth as int);
            &&& (r < 0 <==> lex_lt(s1, s2))
            &&& (r == 0 <==> s1 == s2)
            &&& (r > 0 <==> lex_lt(s2, s1))
        },
{
    let ghost t = T.0@;
    let u1: i64 = depth as i64 + sa_get(SAp1, p1) as i64;
    let u2: i64 = depth as i64 + sa_get(SAp2, p2) as i64;
    let u1n: i64 = sa_get(SAp1, p1.wrapping_add(1)) as i64 + 2;
    let u2n: i64 = sa_get(SAp2, p2.wrapping_add(1)) as i64 + 2;
    let ghost valid = ss_in_text(t, SAp1@, p1 as int, depth as int) && ss_in_text(
        t,
        SAp2@,
        p2 as int,
        depth as int,
    );
    let ghost s1 = ss_substring(t, SAp1@, p1 as int, depth as int);
    let ghost s2 = ss_substring(t, SAp2@, p2 as int, depth as int);
    assert(p1.wrapping_add(1) == p1 + 1 || p1 == i32::MAX) by (bit_vector);
    assert(p2.wrapping_add(1) == p2 + 1 || p2 == i32::MAX) by (bit_vector);
    assert(p1 == i32::MAX ==> p1.wrapping_add(1) < 0) by (bit_vector);
    assert(p2 == i32::MAX ==> p2.wrapping_add(1) < 0) by (bit_vector);
    assert(u1n == at(SAp1@, p1 + 1) + 2);
    assert(u2n == at(SAp2@, p2 + 1) + 2);

    let mut U1 = u1;
    let mut U2 = u2;
    let U1n = u1n;
    let U2n = u2n;
    while U1 < U1n && U2 < U2n && text_at(T, U1 as Idx) == text_at(T, U2 as Idx)
        invariant
            u1 <= U1,
            u2 <= U2,
            U1 <= U1n || U1 == u1,
            U2 <= U2n || U2 == u2,
            U1 - u1 == U2 - u2,
            U1n == u1n,
            U2n == u2n,
            -4294967300 < u1 < 4294967300,
            -4294967300 < u2 < 4294967300,
            -4294967300 < U1n < 4294967300,
            -4294967300 < U2n < 4294967300,
            valid ==> agree_upto(s1, s2, U1 - u1),
            t == T.0@,
            t.len() <= i32::MAX,
            valid == (ss_in_text(t, SAp1@, p1 as int, depth as int) && ss_in_text(
                t,
                SAp2@,
                p2 as int,
                depth as int,
            )),
            u1 < u1n ==> s1 == t.subrange(u1 as int, u1n as int),
            u2 < u2n ==> s2 == t.subrange(u2 as int, u2n as int),
            u1 >= u1n ==> s1 == Seq::<u8>::empty(),
            u2 >= u2n ==> s2 == Seq::<u8>::empty(),
            valid ==> (u1 < u1n ==> 0 <= u1 && u1n <= t.len()),
            valid ==> (u2 < u2n ==> 0 <= u2 && u2n <= t.len()),
        decreases U1n - U1,
    {
        proof {
            if valid {
                assert(s1[U1 - u1] == t[U1 as int]);
                assert(s2[U2 - u2] == t[U2 as int]);
            }
        }
        U1 += 1;
        U2 += 1;
    }
    let ghost k = U1 - u1;
    let res = if U1 < U1n {
        if U2 < U2n {
            text_at(T, U1 as Idx) - text_at(T, U2 as Idx)
        } else {
            1
        }
    } else {
        if U2 < U2n {
            -1
        } else {
            0
        }
    };
    proof {
        if valid {
            if p1 == i32::MAX || p2 == i32::MAX {
            }
            assert(s1.len() == (if u1 < u1n { u1n - u1 } else { 0 }));
            assert(s2.len() == (if u2 < u2n { u2n - u2 } else { 0 }));
            if U1 < U1n && U2 < U2n {
                assert(s1[k] == t[U1 as int]);
                assert(s2[k] == t[U2 as int]);
                lemma_lcp_is_first_difference(s1, s2, k);
                lemma_lex_lt_at_lcp(s1, s2);
                lemma_lex_lt_at_lcp(s2, s1);
                lemma_lcp_is_first_difference(s2, s1, k);
            } else if U1 < U1n {
                assert(k == s2.len());
                assert(lt_at(s2, s1, k));
                lemma_lcp_is_first_difference(s1, s2, k);
                lemma_lex_lt_at_lcp(s1, s2);
            } else if U2 < U2n {
                assert(k == s1.len());
                assert(lt_at(s1, s2, k));
                lemma_lcp_is_first_difference(s2, s1, k);
                lemma_lex_lt_at_lcp(s2, s1);
            } else {
                assert(s1 =~= s2);
                lemma_lcp_is_first_difference(s1, s2, k);
                lemma_lex_lt_at_lcp(s1, s2);
            }
        }
    }
    res
}


/// The substring that orders entry `x` (its mark removed), read in `base`.
pub open spec fn entry_substring(t: Seq<u8>, base: Seq<Idx>, PA: Idx, x: Idx, depth: Idx) -> Seq<u8> {
    ss_substring(t, base, PA.wrapping_add(unmarked_value(x)) as int, depth as int)
}

/// `a` comes no later than `b` in lexicographic order.
pub open spec fn substr_le(a: Seq<u8>, b: Seq<u8>) -> bool {
    lex_lt(a, b) || a == b
}

/// `[lo, hi)` of `s` is in nondecreasing order of substrings, and an entry is
/// marked (negative) exactly when the one before it has the same substring.
pub open spec fn substring_sorted(
    s: Seq<Idx>,
    t: Seq<u8>,
    base: Seq<Idx>,
    PA: Idx,
    depth: Idx,
    lo: int,
    hi: int,
) -> bool {
    &&& forall|k: int, k2: int|
        lo <= k < k2 < hi ==> substr_le(
            entry_substring(t, base, PA, #[trigger] s[k], depth),
            entry_substring(t, base, PA, #[trigger] s[k2], depth),
        )
    &&& forall|k: int|
        lo <= k < hi ==> ((#[trigger] s[k] < 0) <==> (lo < k && entry_substring(t, base, PA, s[k - 1], depth)
            == entry_substring(t, base, PA, s[k], depth)))
}

/// The entry `x` (its mark removed) starts a substring that lies in the text,
/// read past the range `[first, last)`.
pub open spec fn entry_in_text(t: Seq<u8>, base: Seq<Idx>, PA: Idx, x: Idx, depth: Idx) -> bool {
    let u = unmarked_value(x);
    &&& 0 <= u
    &&& PA + u < i32::MAX
    &&& ss_in_text(t, base, PA + u, depth as int)
}

/// The substrings of the entries of `[first, last)` are read past that range
/// and lie in the text.
pub open spec fn substrings_outside(
    t: Seq<u8>,
    s: Seq<Idx>,
    PA: Idx,
    depth: Idx,
    first: int,
    last: int,
) -> bool {
    &&& last <= PA
    &&& forall|k: int| first <= k < last ==> 0 <= #[trigger] s[k] && entry_in_text(t, s, PA, s[k], depth)
}

proof fn lemma_substr_le_trans(a: Seq<u8>, b: Seq<u8>, c: Seq<u8>)
    requires
        substr_le(a, b),
        substr_le(b, c),
    ensures
        substr_le(a, c),
        lex_lt(a, b) ==> lex_lt(a, c),
        lex_lt(b, c) ==> lex_lt(a, c),
{
    if lex_lt(a, b) && lex_lt(b, c) {
        lemma_lex_transitive(a, b, c);
    }
}

/// Inserting `t` before position `j` of a substring-sorted range `[i + 1, last)`,
/// the entries of `[i + 1, j)` having moved one place down, keeps it sorted.
proof fn lemma_insert_substring(
    P: Seq<Idx>,
    s1: Seq<Idx>,
    tx: Seq<u8>,
    base: Seq<Idx>,
    PA: Idx,
    depth: Idx,
    i: int,
    j: int,
    last: int,
    t: Idx,
    mark: bool,
)
    requires
        0 <= i < j <= last <= P.len(),
        s1.len() == P.len(),
        substring_sorted(P, tx, base, PA, depth, i + 1, last),
        0 <= t,
        forall|k: int| i <= k < j - 1 ==> #[trigger] s1[k] == P[k + 1],
        s1[j - 1] == t,
        j < last ==> 0 <= P[j],
        j < last ==> s1[j] == (if mark {
            (-P[j] - 1) as Idx
        } else {
            P[j]
        }),
        j == last ==> !mark,
        forall|k: int| j < k < last ==> #[trigger] s1[k] == P[k],
        forall|k: int|
            i + 1 <= k < j ==> lex_lt(
                entry_substring(tx, base, PA, #[trigger] P[k], depth),
                entry_substring(tx, base, PA, t, depth),
            ),
        j < last ==> substr_le(
            entry_substring(tx, base, PA, t, depth),
            entry_substring(tx, base, PA, P[j], depth),
        ),
        j < last ==> (mark <==> entry_substring(tx, base, PA, t, depth) == entry_substring(
            tx,
            base,
            PA,
            P[j],
            depth,
        )),
    ensures
        substring_sorted(s1, tx, base, PA, depth, i, last),
{
    let key = |x: Idx| entry_substring(tx, base, PA, x, depth);
    let kt = key(t);
    assert forall|k: int| i <= k < last implies key(#[trigger] s1[k]) == (if k < j - 1 {
        key(P[k + 1])
    } else if k == j - 1 {
        kt
    } else {
        key(P[k])
    }) by {
        if k == j && mark {
            assert(unmarked_value(s1[k]) == unmarked_value(P[j]));
        }
    }
    assert forall|k: int, k2: int| i <= k < k2 < last implies substr_le(
        key(#[trigger] s1[k]),
        key(#[trigger] s1[k2]),
    ) by {
        if k2 < j - 1 {
            assert(substr_le(key(P[k + 1]), key(P[k2 + 1])));
        } else if k2 == j - 1 {
            assert(lex_lt(key(P[k + 1]), kt));
        } else if k == j - 1 {
            if k2 > j {
                assert(substr_le(key(P[j]), key(P[k2])));
                lemma_substr_le_trans(kt, key(P[j]), key(P[k2]));
            }
        } else if k < j - 1 {
            assert(lex_lt(key(P[k + 1]), kt));
            assert(substr_le(kt, key(P[j])));
            if k2 > j {
                assert(substr_le(key(P[j]), key(P[k2])));
                lemma_substr_le_trans(kt, key(P[j]), key(P[k2]));
            }
            lemma_substr_le_trans(key(P[k + 1]), kt, key(P[k2]));
        } else {
            assert(substr_le(key(P[k]), key(P[k2])));
        }
    }
    assert forall|k: int| i <= k < last implies ((#[trigger] s1[k] < 0) <==> (i < k && key(s1[k - 1])
        == key(s1[k]))) by {
        if k < j - 1 {
            assert(s1[k] == P[k + 1]);
            if i < k {
                assert(s1[k - 1] == P[k]);
            }
            assert(P[k + 1] < 0 <==> (i + 1 < k + 1 && key(P[k]) == key(P[k + 1])));
        } else if k == j - 1 {
            if i < k {
                assert(s1[k - 1] == P[k]);
                assert(lex_lt(key(P[k]), kt));
                lemma_lex_irreflexive(kt);
            }
        } else if k == j {
            assert(P[j] < 0 <==> (i + 1 < j && key(P[j - 1]) == key(P[j])));
            if !mark {
                assert(kt != key(P[j]));
            }
        } else {
            assert(s1[k] == P[k]);
            assert(key(s1[k - 1]) == key(P[k - 1]));
            assert(P[k] < 0 <==> (i + 1 < k && key(P[k - 1]) == key(P[k])));
        }
    }
}

/// Simple insertionsort for small size groups.
///
/// When the substrings it compares are read past the group and lie in the
/// text, it sorts the group by substring, marking each entry whose
/// predecessor has the same substring.
#[verifier::rlimit(60)]
#[verifier::spinoff_prover]
pub fn ss_insertionsort(T: &Text, SA: &mut [Idx], PA: Idx, first: Idx, last: Idx, depth: Idx)
    requires
        0 <= depth,
        T.0@.len() <= i32::MAX,
        old(SA)@.len() <= i32::MAX,
        0 <= first < last <= old(SA)@.len(),
    ensures
        same_outside(final(SA)@, old(SA)@, first as int, last as int),
        unmarked_entries(final(SA)@, first as int, last as int) == unmarked_entries(
            old(SA)@,
            first as int,
            last as int,
        ),
        substrings_outside(T.0@, old(SA)@, PA, depth, first as int, last as int)
            ==> substring_sorted(final(SA)@, T.0@, old(SA)@, PA, depth, first as int, last as int),
{
    let ghost base = SA@;
    let ghost tx = T.0@;
    let ghost cond = substrings_outside(tx, base, PA, depth, first as int, last as int);
    let mut i: Idx = last - 2;
    let mut r: Idx = 0;
    proof {
        if cond {
            assert(substring_sorted(SA@, tx, base, PA, depth, last - 1, last as int));
        }
    }
    // for 1
    while first <= i
        invariant
            first - 1 <= i <= last - 2,
            0 <= first < last <= SA@.len(),
            0 <= depth,
            T.0@.len() <= i32::MAX,
            SA@.len() <= i32::MAX,
            tx == T.0@,
            base == old(SA)@,
            same_outside(SA@, old(SA)@, first as int, last as int),
            cond == substrings_outside(tx, base, PA, depth, first as int, last as int),
            forall|k: int| first <= k <= i ==> #[trigger] SA@[k] == base[k],
            cond ==> substring_sorted(SA@, tx, base, PA, depth, i + 1, last as int),
            cond ==> forall|k: int| i + 1 <= k < last ==> entry_in_text(tx, base, PA, #[trigger] SA@[k], depth),
            unmarked_entries(SA@, first as int, last as int) == unmarked_entries(
                base,
                first as int,
                last as int,
            ),
        decreases i - first + 1,
    {
        let ghost P = SA@;
        let t = SA[i as usize];
        let mut j: Idx = i + 1;
        // for 2
        loop
            invariant_except_break
                j < last,
                cond ==> 0 <= SA@[j as int],
            invariant
                i + 1 <= j <= last,
                first <= i,
                0 <= first < last <= SA@.len(),
                0 <= depth,
                T.0@.len() <= i32::MAX,
                SA@.len() <= i32::MAX,
                tx == T.0@,
                base == old(SA)@,
                same_outside(SA@, old(SA)@, first as int, last as int),
                cond == substrings_outside(tx, base, PA, depth, first as int, last as int),
                t == base[i as int],
                forall|k: int| first <= k < i ==> #[trigger] SA@[k] == base[k],
                forall|k: int| j <= k < last ==> #[trigger] SA@[k] == P[k],
                forall|k: int| i <= k < j - 1 ==> #[trigger] SA@[k] == P[k + 1],
                cond ==> substring_sorted(P, tx, base, PA, depth, i + 1, last as int),
                cond ==> forall|k: int| i + 1 <= k < last ==> entry_in_text(tx, base, PA, #[trigger] P[k], depth),
                cond ==> forall|k: int|
                    i + 1 <= k < j ==> lex_lt(
                        entry_substring(tx, base, PA, #[trigger] P[k], depth),
                        entry_substring(tx, base, PA, t, depth),
                    ),
            ensures
                r == 0 ==> j < last,
                i + 1 <= j <= last,
                first <= i,
                0 <= first < last <= SA@.len(),
                SA@.len() <= i32::MAX,
                same_outside(SA@, old(SA)@, first as int, last as int),
                forall|k: int| first <= k < i ==> #[trigger] SA@[k] == base[k],
                forall|k: int| j <= k < last ==> #[trigger] SA@[k] == P[k],
                forall|k: int| i <= k < j - 1 ==> #[trigger] SA@[k] == P[k + 1],
                cond ==> forall|k: int|
                    i + 1 <= k < j ==> lex_lt(
                        entry_substring(tx, base, PA, #[trigger] P[k], depth),
                        entry_substring(tx, base, PA, t, depth),
                    ),
                cond && j < last ==> 0 <= P[j as int],
                cond && j < last ==> (r <= 0 && (r < 0 <==> lex_lt(
                    entry_substring(tx, base, PA, t, depth),
                    entry_substring(tx, base, PA, P[j as int], depth),
                )) && (r == 0 <==> entry_substring(tx, base, PA, t, depth) == entry_substring(
                    tx,
                    base,
                    PA,
                    P[j as int],
                    depth,
                ))),
            decreases last - j,
        {
            proof {
                if cond {
                    let x = SA@[j as int];
                    assert(x == P[j as int]);
                    assert(entry_in_text(tx, base, PA, P[j as int], depth));
                    assert(0 <= t && entry_in_text(tx, base, PA, t, depth));
                    // the reads lie past the range, where nothing moved
                    assert(at(SA@, PA + t) == at(base, PA + t));
                    assert(at(SA@, PA + t + 1) == at(base, PA + t + 1));
                    assert(at(SA@, PA + x) == at(base, PA + x));
                    assert(at(SA@, PA + x + 1) == at(base, PA + x + 1));
                }
            }
            r = ss_compare(T, SA, PA.wrapping_add(t), SA, PA.wrapping_add(SA[j as usize]), depth);
            if !(0 < r) {
                break;
            }
            let ghost j0 = j;
            // do while
            loop
                invariant_except_break
                    j < last,
                    j > j0 ==> P[j as int] < 0,
                invariant
                    j0 <= j <= last,
                    i + 1 <= j0 < last,
                    first <= i,
                    0 <= first < last <= SA@.len(),
                    same_outside(SA@, old(SA)@, first as int, last as int),
                    forall|k: int| first <= k < i ==> #[trigger] SA@[k] == base[k],
                    forall|k: int| j <= k < last ==> #[trigger] SA@[k] == P[k],
                    forall|k: int| i <= k < j - 1 ==> #[trigger] SA@[k] == P[k + 1],
                    cond ==> substring_sorted(P, tx, base, PA, depth, i + 1, last as int),
                    cond ==> lex_lt(
                        entry_substring(tx, base, PA, P[j0 as int], depth),
                        entry_substring(tx, base, PA, t, depth),
                    ),
                    cond ==> forall|k: int|
                        i + 1 <= k < j ==> lex_lt(
                            entry_substring(tx, base, PA, #[trigger] P[k], depth),
                            entry_substring(tx, base, PA, t, depth),
                        ),
                ensures
                    j0 < j <= last,
                    0 <= first < last <= SA@.len(),
                    same_outside(SA@, old(SA)@, first as int, last as int),
                    forall|k: int| first <= k < i ==> #[trigger] SA@[k] == base[k],
                    forall|k: int| j <= k < last ==> #[trigger] SA@[k] == P[k],
                    forall|k: int| i <= k < j - 1 ==> #[trigger] SA@[k] == P[k + 1],
                    j < last ==> 0 <= SA@[j as int],
                    cond ==> forall|k: int|
                        i + 1 <= k < j ==> lex_lt(
                            entry_substring(tx, base, PA, #[trigger] P[k], depth),
                            entry_substring(tx, base, PA, t, depth),
                        ),
                decreases last - j,
            {
                proof {
                    if cond && j > j0 {
                        assert(P[j as int] < 0);
                        assert(entry_substring(tx, base, PA, P[j - 1], depth) == entry_substring(
                            tx,
                            base,
                            PA,
                            P[j as int],
                            depth,
                        ));
                    }
                }
                let tmp_v = SA[j as usize];
                SA[(j - 1) as usize] = tmp_v;
                j += 1;
                if !((j < last) && SA[j as usize] < 0) {
                    break;
                }
            }
            if last <= j {
                break;
            }
        }
        let ghost mark = r == 0;
        if r == 0 {
            let tmp_v = SA[j as usize];
            SA[j as usize] = flip(tmp_v);
        }
        SA[(j - 1) as usize] = t;
        proof {
            assert forall|k: int| j - 1 < k < last implies unmarked_value(#[trigger] SA@[k])
                == unmarked_value(P[k]) by {
                if k > j {
                    assert(SA@[k] == P[k]);
                }
            }
            lemma_move_on_keeps_unmarked(P, SA@, first as int, i as int, j - 1, last as int);
            if cond {
                assert(0 <= t);
                lemma_insert_substring(
                    P,
                    SA@,
                    tx,
                    base,
                    PA,
                    depth,
                    i as int,
                    j as int,
                    last as int,
                    t,
                    mark,
                );
                assert forall|k: int| i <= k < last implies entry_in_text(
                    tx,
                    base,
                    PA,
                    #[trigger] SA@[k],
                    depth,
                ) by {
                    if k < j - 1 {
                        assert(SA@[k] == P[k + 1]);
                    } else if k == j - 1 {
                    } else if k == j {
                        assert(unmarked_value(SA@[k]) == unmarked_value(P[k]));
                    } else {
                        assert(SA@[k] == P[k]);
                    }
                }
            }
        }
        i -= 1;
    }
}

/// The key of the heap entry `x`: the text character `Td` past the suffix
/// start that the entry points to.
fn ss_key_at(T: &Text, Td: Idx, SA: &[Idx], PA: Idx, first: Idx, x: Idx) -> (r: Idx)
    requires
        0 <= first,
        0 <= x,
        first + x <= i32::MAX,
    ensures
        r == tat(T.0@, Td.wrapping_add(at(SA@, PA.wrapping_add(at(SA@, first + x)) as int)) as int),
{
    let v = sa_get(SA, first + x);
    let p = sa_get(SA, PA.wrapping_add(v));
    text_at(T, Td.wrapping_add(p))
}

/// The rank that orders the heap entry `v`: the character
/// `T[Td + SA[PA + v]]`, read in `base`.
pub open spec fn ss_heap_rank(t: Seq<u8>, base: Seq<Idx>, Td: Idx, PA: Idx, v: Idx) -> int {
    tat(t, Td.wrapping_add(at(base, ss_heap_rank_pos(PA, v))) as int) as int
}

/// Where the suffix start of the heap entry `v` is read.
pub open spec fn ss_heap_rank_pos(PA: Idx, v: Idx) -> int {
    PA.wrapping_add(v) as int
}

/// The suffix starts of the entries of the heap of `size` entries from
/// `first` are read outside the heap.
pub open spec fn ss_heap_ranks_outside(s: Seq<Idx>, PA: Idx, first: Idx, size: int) -> bool {
    forall|k: int|
        first <= k < first + size ==> !(first <= ss_heap_rank_pos(PA, #[trigger] s[k]) < first + size)
}

/// Every node of the heap of `size` entries from `first` whose parent is
/// `lo` or later ranks no higher than its parent.
pub open spec fn ss_is_heap_from(s: Seq<Idx>, base: Seq<Idx>, tx: Seq<u8>, Td: Idx, PA: Idx, first: Idx, lo: int, size: int) -> bool {
    forall|c: int|
        1 <= c < size && lo <= heap_parent(c) ==> ss_heap_rank(tx, base, Td, PA, #[trigger] s[first + c])
            <= ss_heap_rank(tx, base, Td, PA, s[first + heap_parent(c)])
}

/// The `size` entries from `first` are in nondecreasing order of rank.
pub open spec fn ss_heap_rank_sorted(s: Seq<Idx>, base: Seq<Idx>, tx: Seq<u8>, Td: Idx, PA: Idx, first: Idx, size: int) -> bool {
    forall|k: int, k2: int|
        first <= k < k2 < first + size ==> ss_heap_rank(tx, base, Td, PA, #[trigger] s[k])
            <= ss_heap_rank(tx, base, Td, PA, #[trigger] s[k2])
}

/// Ranks whose suffix start is read outside the heap do not depend on the
/// heap's contents.
proof fn lemma_ss_heap_rank_stable(a: Seq<Idx>, b: Seq<Idx>, tx: Seq<u8>, Td: Idx, PA: Idx, first: Idx, size: int, v: Idx)
    requires
        same_outside(a, b, first as int, first + size),
        !(first <= ss_heap_rank_pos(PA, v) < first + size),
    ensures
        ss_heap_rank(tx, a, Td, PA, v) == ss_heap_rank(tx, b, Td, PA, v),
{
}

/// While an entry of rank `c` sifts down from `i0` and has reached node `i`:
/// the nodes from `i0` on form a heap but at `i`, whose parent outranks `c`
/// and the children of `i`.
spec fn ss_sifting(s: Seq<Idx>, base: Seq<Idx>, tx: Seq<u8>, Td: Idx, PA: Idx, first: Idx, i0: int, i: int, size: int, c: int) -> bool {
    &&& forall|x: int|
        1 <= x < size && i0 <= heap_parent(x) && heap_parent(x) != i ==> ss_heap_rank(tx, base, Td, PA, #[trigger] s[first + x],
        ) <= ss_heap_rank(tx, base, Td, PA, s[first + heap_parent(x)])
    &&& i > i0 ==> c < ss_heap_rank(tx, base, Td, PA, s[first + heap_parent(i)])
    &&& i > i0 ==> forall|x: int|
        1 <= x < size && heap_parent(x) == i ==> ss_heap_rank(tx, base, Td, PA, #[trigger] s[first + x])
            <= ss_heap_rank(tx, base, Td, PA, s[first + heap_parent(i)])
}

/// Moving up the higher ranked child `k` of `i`, which outranks `c`, moves
/// the sifting entry on to `k`.
proof fn lemma_ss_sift_step(s0: Seq<Idx>, base: Seq<Idx>, tx: Seq<u8>, Td: Idx, PA: Idx, first: Idx, i0: int, i: int, k: int, size: int, c: int)
    requires
        0 <= first,
        0 <= i0 <= i < k < size,
        first + size <= s0.len(),
        heap_parent(k) == i,
        ss_sifting(s0, base, tx, Td, PA, first, i0, i, size, c),
        c < ss_heap_rank(tx, base, Td, PA, s0[first + k]),
        forall|x: int|
            1 <= x < size && heap_parent(x) == i ==> ss_heap_rank(tx, base, Td, PA, #[trigger] s0[first + x])
                <= ss_heap_rank(tx, base, Td, PA, s0[first + k]),
    ensures
        ss_sifting(s0.update(first + i, s0[first + k]), base, tx, Td, PA, first, i0, k, size, c),
{
    let s1 = s0.update(first + i, s0[first + k]);
    assert(s1[first + k] == s0[first + k]);
    assert forall|x: int|
        1 <= x < size && i0 <= heap_parent(x) && heap_parent(x) != k implies ss_heap_rank(tx, base, Td, PA, #[trigger] s1[first + x],
        ) <= ss_heap_rank(tx, base, Td, PA, s1[first + heap_parent(x)]) by {
        if x == i {
            assert(heap_parent(x) < i);
            assert(s1[first + heap_parent(x)] == s0[first + heap_parent(x)]);
        } else if heap_parent(x) == i {
            assert(s1[first + x] == s0[first + x]);
        } else {
            assert(s1[first + x] == s0[first + x]);
            assert(s1[first + heap_parent(x)] == s0[first + heap_parent(x)]);
        }
    }
    assert forall|x: int|
        1 <= x < size && heap_parent(x) == k implies ss_heap_rank(tx, base, Td, PA, #[trigger] s1[first + x])
            <= ss_heap_rank(tx, base, Td, PA, s1[first + heap_parent(k)]) by {
        assert(x > k);
        assert(s1[first + x] == s0[first + x]);
        assert(heap_parent(x) != i);
    }
}

/// Placing the sifting entry at `i`, where no child outranks it, completes
/// the heap from `i0`.
proof fn lemma_ss_sift_place(s0: Seq<Idx>, base: Seq<Idx>, tx: Seq<u8>, Td: Idx, PA: Idx, first: Idx, i0: int, i: int, size: int, v: Idx)
    requires
        0 <= first,
        0 <= i0 <= i < size,
        first + size <= s0.len(),
        ss_sifting(s0, base, tx, Td, PA, first, i0, i, size, ss_heap_rank(tx, base, Td, PA, v)),
        forall|x: int|
            1 <= x < size && heap_parent(x) == i ==> ss_heap_rank(tx, base, Td, PA, #[trigger] s0[first + x])
                <= ss_heap_rank(tx, base, Td, PA, v),
    ensures
        ss_is_heap_from(s0.update(first + i, v), base, tx, Td, PA, first, i0, size),
{
    let s1 = s0.update(first + i, v);
    assert forall|x: int|
        1 <= x < size && i0 <= heap_parent(x) implies ss_heap_rank(tx, base, Td, PA, #[trigger] s1[first + x])
            <= ss_heap_rank(tx, base, Td, PA, s1[first + heap_parent(x)]) by {
        if x == i {
            assert(s1[first + heap_parent(x)] == s0[first + heap_parent(x)]);
        } else if heap_parent(x) == i {
            assert(s1[first + x] == s0[first + x]);
        } else {
            assert(s1[first + x] == s0[first + x]);
            assert(s1[first + heap_parent(x)] == s0[first + heap_parent(x)]);
        }
    }
}

/// The root of a heap outranks every node.
proof fn lemma_ss_heap_root(s: Seq<Idx>, base: Seq<Idx>, tx: Seq<u8>, Td: Idx, PA: Idx, first: Idx, n: int, k: int)
    requires
        0 <= k < n,
        ss_is_heap_from(s, base, tx, Td, PA, first, 0, n),
    ensures
        ss_heap_rank(tx, base, Td, PA, s[first + k]) <= ss_heap_rank(tx, base, Td, PA, s[first + 0]),
    decreases k,
{
    if k > 0 {
        assert(ss_heap_rank(tx, base, Td, PA, s[first + k]) <= ss_heap_rank(tx, base, Td, PA, s[first + heap_parent(k)]));
        lemma_heap_rank_parent(k);
        lemma_ss_heap_root(s, base, tx, Td, PA, first, n, heap_parent(k));
    }
}


/// Suffix starts read outside the `n` entries from `first` are read outside
/// a shorter heap too.
proof fn lemma_ss_ranks_narrow(s: Seq<Idx>, PA: Idx, first: Idx, m: int, n: int)
    requires
        0 <= m <= n,
        ss_heap_ranks_outside(s, PA, first, n),
    ensures
        ss_heap_ranks_outside(s, PA, first, m),
{
    assert forall|k: int| first <= k < first + m implies !(first <= ss_heap_rank_pos(PA, #[trigger] s[k]) < first + m) by {
        assert(!(first <= ss_heap_rank_pos(PA, s[k]) < first + n));
    }
}

/// Moving entries about inside the first `m` of the `n` entries from
/// `first` keeps their suffix starts read outside the `n` entries.
proof fn lemma_ss_ranks_kept(a: Seq<Idx>, b: Seq<Idx>, PA: Idx, first: Idx, m: int, n: int)
    requires
        0 <= first,
        0 <= m <= n,
        first + n <= b.len(),
        same_outside(a, b, first as int, first + m),
        range_entries(a, first as int, first + m) == range_entries(b, first as int, first + m),
        ss_heap_ranks_outside(b, PA, first, n),
    ensures
        ss_heap_ranks_outside(a, PA, first, n),
{
    assert forall|k: int| first <= k < first + n implies !(first <= ss_heap_rank_pos(PA, #[trigger] a[k]) < first + n) by {
        if k < first + m {
            let j = lemma_entry_from(a, b, first as int, first + m, k);
            assert(b[j] == a[k]);
        } else {
            assert(a[k] == b[k]);
        }
    }
}

/// Heap order read in one base holds in any base that agrees outside the
/// `n` entries from `first`.
proof fn lemma_ss_heap_rebase(s: Seq<Idx>, b1: Seq<Idx>, b2: Seq<Idx>, tx: Seq<u8>, Td: Idx, PA: Idx, first: Idx, lo: int, m: int, n: int)
    requires
        0 <= m <= n,
        ss_is_heap_from(s, b1, tx, Td, PA, first, lo, m),
        ss_heap_ranks_outside(s, PA, first, n),
        same_outside(b1, b2, first as int, first + n),
    ensures
        ss_is_heap_from(s, b2, tx, Td, PA, first, lo, m),
{
    assert forall|c: int| 1 <= c < m && lo <= heap_parent(c) implies ss_heap_rank(tx, b2, Td, PA, #[trigger] s[first + c])
        <= ss_heap_rank(tx, b2, Td, PA, s[first + heap_parent(c)]) by {
        lemma_heap_rank_parent(c);
        lemma_ss_heap_rank_stable(b1, b2, tx, Td, PA, first, n, s[first + c]);
        lemma_ss_heap_rank_stable(b1, b2, tx, Td, PA, first, n, s[first + heap_parent(c)]);
    }
}

/// The heap order of the nodes below the root survives a new root.
proof fn lemma_ss_heap_new_root(s0: Seq<Idx>, s2: Seq<Idx>, base: Seq<Idx>, tx: Seq<u8>, Td: Idx, PA: Idx, first: Idx, m: int, n: int)
    requires
        0 <= first,
        1 <= m <= n,
        first + n <= s0.len(),
        s2.len() == s0.len(),
        forall|k: int| first + 1 <= k < first + m ==> s2[k] == s0[k],
        ss_is_heap_from(s0, base, tx, Td, PA, first, 0, m),
        ss_heap_ranks_outside(s2, PA, first, n),
        same_outside(s2, base, first as int, first + n),
    ensures
        ss_is_heap_from(s2, s2, tx, Td, PA, first, 1, m),
{
    assert forall|c: int| 1 <= c < m && 1 <= heap_parent(c) implies ss_heap_rank(tx, base, Td, PA, #[trigger] s2[first + c])
        <= ss_heap_rank(tx, base, Td, PA, s2[first + heap_parent(c)]) by {
        lemma_heap_rank_parent(c);
        assert(s2[first + c] == s0[first + c]);
        assert(s2[first + heap_parent(c)] == s0[first + heap_parent(c)]);
    }
    lemma_ss_heap_rebase(s2, base, s2, tx, Td, PA, first, 1, m, n);
}

/// What holds of the heapsort's second phase when `i` entries remain in the
/// heap: the heap order, and every entry from `i` on ranks no lower than
/// any entry before it.
spec fn ss_popping(s: Seq<Idx>, base: Seq<Idx>, tx: Seq<u8>, Td: Idx, PA: Idx, first: Idx, i: int, n: int) -> bool {
    &&& ss_is_heap_from(s, base, tx, Td, PA, first, 0, i)
    &&& forall|k: int, k2: int|
        0 <= k < k2 < n && i <= k2 ==> ss_heap_rank(tx, base, Td, PA, #[trigger] s[first + k]) <= ss_heap_rank(tx, base, Td, PA, #[trigger] s[first + k2],
        )
}

/// `x` is one of the entries at nodes `0` to `i`.
spec fn ss_among_first(s: Seq<Idx>, first: Idx, i: int, x: Idx) -> bool {
    exists|j: int| 0 <= j <= i && #[trigger] s[first + j] == x
}

/// One step of the second phase: the root moves to node `i`, the entry at
/// `i` to the root, and the sifting restores the heap of `i` entries.
proof fn lemma_ss_pop_step(
    s0: Seq<Idx>,
    s2: Seq<Idx>,
    s3: Seq<Idx>,
    base: Seq<Idx>,
    tx: Seq<u8>,
    Td: Idx,
    PA: Idx,
    first: Idx,
    i: int,
    n: int,
)
    requires
        0 <= first,
        1 <= i < n,
        first + n <= s0.len(),
        ss_popping(s0, base, tx, Td, PA, first, i + 1, n),
        s2 == s0.update(first as int, s0[first + i]),
        same_outside(s3, s2, first as int, first + i),
        range_entries(s3, first as int, first + i) == range_entries(s2, first as int, first + i),
        ss_is_heap_from(s3, base, tx, Td, PA, first, 0, i),
    ensures
        ss_popping(s3.update(first + i, s0[first as int]), base, tx, Td, PA, first, i, n),
        range_entries(s3.update(first + i, s0[first as int]), first as int, first + n) == range_entries(
            s0,
            first as int,
            first + n,
        ),
{
    let s4 = s3.update(first + i, s0[first as int]);
    let rk = |x: Idx| ss_heap_rank(tx, base, Td, PA, x);
    // every entry now before `i` came from the first `i + 1` places
    assert forall|k: int| 0 <= k < i implies #[trigger] ss_among_first(s0, first, i, s4[first + k]) by {
        let j = lemma_entry_from(s3, s2, first as int, first + i, first + k);
        if j == first {
            assert(s0[first + i] == s4[first + k]);
        } else {
            assert(s0[j] == s4[first + k]);
            assert(s0[first + (j - first)] == s4[first + k]);
        }
    }
    assert forall|k: int| 0 <= k < i implies #[trigger] ss_among_first(s0, first, i, s4[first + k]) by {}
    assert forall|c: int| 1 <= c < i && 0 <= heap_parent(c) implies rk(#[trigger] s4[first + c]) <= rk(
        s4[first + heap_parent(c)],
    ) by {
        lemma_heap_rank_parent(c);
        assert(s4[first + c] == s3[first + c]);
        assert(s4[first + heap_parent(c)] == s3[first + heap_parent(c)]);
    }
    assert forall|k: int, k2: int| 0 <= k < k2 < n && i <= k2 implies rk(#[trigger] s4[first + k]) <= rk(
        #[trigger] s4[first + k2],
    ) by {
        if k2 > i {
            assert(s4[first + k2] == s0[first + k2]);
            if k > i {
                assert(s4[first + k] == s0[first + k]);
            } else if k == i {
                assert(rk(s0[first + 0]) <= rk(s0[first + k2]));
            } else {
                assert(ss_among_first(s0, first, i, s4[first + k]));
                let j = choose|j: int| 0 <= j <= i && #[trigger] s0[first + j] == s4[first + k];
                assert(rk(s0[first + j]) <= rk(s0[first + k2]));
            }
        } else {
            assert(s4[first + k2] == s0[first + 0]);
            assert(ss_among_first(s0, first, i, s4[first + k]));
            let j = choose|j: int| 0 <= j <= i && #[trigger] s0[first + j] == s4[first + k];
            lemma_ss_heap_root(s0, base, tx, Td, PA, first, i + 1, j);
        }
    }
    // the entries: a swap of the root with node `i`, then a rearrangement of the first `i`
    let w = swapped(s0, first as int, first + i);
    lemma_swap_entries(s0, first as int, first + i, first as int, first + n);
    lemma_same_range_entries(w, s2, first as int, first + i);
    lemma_same_range_entries(s4, s3, first as int, first + i);
    lemma_same_range_entries(s4, w, first + i, first + n);
    lemma_split_entries(s4, first as int, first + i, first + n);
    lemma_split_entries(w, first as int, first + i, first + n);
}

/// With one entry left in the heap, the second phase is done.
proof fn lemma_ss_popped(s: Seq<Idx>, base: Seq<Idx>, tx: Seq<u8>, Td: Idx, PA: Idx, first: Idx, n: int)
    requires
        ss_popping(s, base, tx, Td, PA, first, 1, n),
    ensures
        ss_heap_rank_sorted(s, base, tx, Td, PA, first, n),
{
    assert forall|k: int, k2: int| first <= k < k2 < first + n implies ss_heap_rank(tx, base, Td, PA, #[trigger] s[k])
        <= ss_heap_rank(tx, base, Td, PA, #[trigger] s[k2]) by {
        assert(s[first + (k - first)] == s[k]);
        assert(s[first + (k2 - first)] == s[k2]);
    }
}

/// For an even count: the root of the heap of the first `m` entries is put
/// last, and the entry that was last becomes the root.
proof fn lemma_ss_even_prepare(s1: Seq<Idx>, s2: Seq<Idx>, base: Seq<Idx>, tx: Seq<u8>, Td: Idx, PA: Idx, first: Idx, m: int, n: int, cond: bool)
    requires
        0 <= first,
        1 <= m,
        n == m + 1,
        first + n <= s2.len(),
        s1.len() == s2.len(),
        same_outside(s2, s1, first as int, first + m),
        same_outside(s1, base, first as int, first + n),
        range_entries(s2, first as int, first + m) == range_entries(s1, first as int, first + m),
        range_entries(s1, first as int, first + n) == range_entries(base, first as int, first + n),
        cond ==> ss_heap_ranks_outside(s2, PA, first, n),
        cond ==> ss_is_heap_from(s2, base, tx, Td, PA, first, 0, m),
    ensures
        range_entries(swapped(s2, first as int, first + m), first as int, first + n) == range_entries(base, first as int, first + n),
        cond ==> ss_heap_ranks_outside(swapped(s2, first as int, first + m), PA, first, n),
        cond ==> ss_heap_ranks_outside(swapped(s2, first as int, first + m), PA, first, m),
        cond ==> ss_is_heap_from(swapped(s2, first as int, first + m), swapped(s2, first as int, first + m), tx, Td, PA, first, 1, m),
{
    let s3 = swapped(s2, first as int, first + m);
    lemma_same_range_entries(s2, s1, first + m, first + n);
    lemma_split_entries(s2, first as int, first + m, first + n);
    lemma_split_entries(s1, first as int, first + m, first + n);
    lemma_swap_entries(s2, first as int, first + m, first as int, first + n);
    if cond {
        assert forall|k: int| first <= k < first + n implies !(first <= ss_heap_rank_pos(PA, #[trigger] s3[k]) < first + n) by {
            if k == first + m {
                assert(s3[k] == s2[first as int]);
            } else if k == first {
                assert(s3[k] == s2[first + m]);
            } else {
                assert(s3[k] == s2[k]);
            }
        }
        lemma_ss_heap_new_root(s2, s3, base, tx, Td, PA, first, m, n);
        lemma_ss_ranks_narrow(s3, PA, first, m, n);
    }
}

/// For an even count: once the new root has sifted down, the heap of the
/// first `m` entries holds no entry that outranks the one put last.
proof fn lemma_ss_even_finish(
    s1: Seq<Idx>,
    s2: Seq<Idx>,
    s3: Seq<Idx>,
    s4: Seq<Idx>,
    base: Seq<Idx>,
    tx: Seq<u8>,
    Td: Idx,
    PA: Idx,
    first: Idx,
    m: int,
    n: int,
    cond: bool,
)
    requires
        0 <= first,
        1 <= m,
        m % 2 == 1,
        n == m + 1,
        first + n <= s2.len(),
        s1.len() == s2.len(),
        s3 == swapped(s2, first as int, first + m),
        same_outside(s2, s1, first as int, first + m),
        same_outside(s1, base, first as int, first + n),
        range_entries(s2, first as int, first + m) == range_entries(s1, first as int, first + m),
        range_entries(s3, first as int, first + n) == range_entries(base, first as int, first + n),
        same_outside(s4, s3, first as int, first + m),
        range_entries(s4, first as int, first + m) == range_entries(s3, first as int, first + m),
        cond ==> ss_heap_ranks_outside(s3, PA, first, n),
        cond ==> ss_is_heap_from(s2, base, tx, Td, PA, first, 0, m),
        cond ==> ss_is_heap_from(s4, s3, tx, Td, PA, first, 0, m),
        cond ==> ss_heap_rank(tx, base, Td, PA, s1[first + m]) <= ss_heap_rank(tx, base, Td, PA, s1[first + m / 2]),
    ensures
        range_entries(s4, first as int, first + n) == range_entries(base, first as int, first + n),
        cond ==> ss_heap_ranks_outside(s4, PA, first, n),
        cond ==> ss_popping(s4, base, tx, Td, PA, first, m, n),
{
    lemma_same_range_entries(s4, s3, first + m, first + n);
    lemma_split_entries(s4, first as int, first + m, first + n);
    lemma_split_entries(s3, first as int, first + m, first + n);
    if cond {
        lemma_ss_ranks_kept(s4, s3, PA, first, m, n);
        assert(same_outside(s3, base, first as int, first + n));
        lemma_ss_heap_rebase(s4, s3, base, tx, Td, PA, first, 0, m, n);
        // the entry first put last ranks highest of all
        let jw = lemma_entry_from(s1, s2, first as int, first + m, first + m / 2);
        lemma_ss_heap_root(s2, base, tx, Td, PA, first, m, jw - first);
        assert(s2[first + m] == s1[first + m]);
        assert forall|k: int, k2: int|
            0 <= k < k2 < n && m <= k2 implies ss_heap_rank(tx, base, Td, PA, #[trigger] s4[first + k])
                <= ss_heap_rank(tx, base, Td, PA, #[trigger] s4[first + k2]) by {
            assert(k2 == m);
            assert(s4[first + k2] == s2[first as int]);
            let j = lemma_entry_from(s4, s3, first as int, first + m, first + k);
            if j == first {
                assert(s3[j] == s2[first + m]);
            } else {
                assert(s3[j] == s2[j]);
                lemma_ss_heap_root(s2, base, tx, Td, PA, first, m, j - first);
            }
        }
    }
}

/// Sifts the entry at node `i` down the heap of `size` entries from `first`.
///
/// The heap's entries stay those it had. Where the suffix starts that give
/// the ranks are read outside the heap, the nodes below `i` form a heap, and
/// the heap has a node of its own for every second child (or the entry just
/// past it is the one at `i`), the nodes from `i` on form a heap afterwards.
#[verifier::rlimit(100)]
#[verifier::spinoff_prover]
pub fn ss_fixdown(T: &Text, Td: Idx, PA: Idx, SA_top: &mut [Idx], first: Idx, i: Idx, size: Idx)
    requires
        0 <= first,
        0 <= i < size,
        first + size <= old(SA_top)@.len(),
        old(SA_top)@.len() <= i32::MAX,
    ensures
        same_outside(final(SA_top)@, old(SA_top)@, first as int, first + size),
        range_entries(final(SA_top)@, first as int, first + size) == range_entries(old(SA_top)@, first as int, first + size),
        ss_heap_ranks_outside(old(SA_top)@, PA, first, size as int) && ss_is_heap_from(
            old(SA_top)@,
            old(SA_top)@,
            T.0@,
            Td,
            PA,
            first,
            i + 1,
            size as int,
        ) && (size % 2 == 1 || (first + size < old(SA_top)@.len() && old(SA_top)@[first + size] == old(SA_top)@[first + i]))
            ==> ss_is_heap_from(final(SA_top)@, old(SA_top)@, T.0@, Td, PA, first, i as int, size as int)
            && ss_heap_ranks_outside(final(SA_top)@, PA, first, size as int),
{
    let ghost base = SA_top@;
    let ghost tx = T.0@;
    let ghost i0 = i as int;
    let ghost cond = ss_heap_ranks_outside(base, PA, first, size as int) && ss_is_heap_from(
        base,
        base,
        tx,
        Td,
        PA,
        first,
        i + 1,
        size as int,
    ) && (size % 2 == 1 || (first + size < base.len() && base[first + size] == base[first + i]));
    let mut i = i;
    let mut j: Idx;
    let mut k: Idx;
    let mut d: Idx;
    let mut e: Idx;
    let v = SA_top[(first + i) as usize];
    let c = text_at(T, Td.wrapping_add(sa_get(SA_top, PA.wrapping_add(v))));
    proof {
        assert(put(SA_top@, first + i, v) =~= base);
    }
    loop
        invariant
            0 <= first,
            0 <= i0 <= i < size,
            first + size <= SA_top@.len(),
            SA_top@.len() <= i32::MAX,
            base == old(SA_top)@,
            tx == T.0@,
            v == base[first + i0],
            same_outside(SA_top@, base, first as int, first + size),
            range_entries(put(SA_top@, first + i, v), first as int, first + size) == range_entries(base, first as int, first + size),
            cond == (ss_heap_ranks_outside(base, PA, first, size as int) && ss_is_heap_from(
                base,
                base,
                tx,
                Td,
                PA,
                first,
                i0 + 1,
                size as int,
            ) && (size % 2 == 1 || (first + size < base.len() && base[first + size] == base[first + i0]))),
            cond ==> c == ss_heap_rank(tx, base, Td, PA, v),
            cond ==> ss_heap_ranks_outside(SA_top@, PA, first, size as int),
            cond ==> ss_sifting(SA_top@, base, tx, Td, PA, first, i0, i as int, size as int, c as int),
        ensures
            0 <= i0 <= i < size,
            first + size <= SA_top@.len(),
            same_outside(SA_top@, base, first as int, first + size),
            range_entries(put(SA_top@, first + i, v), first as int, first + size) == range_entries(base, first as int, first + size),
            cond ==> c == ss_heap_rank(tx, base, Td, PA, v),
            cond ==> ss_heap_ranks_outside(SA_top@, PA, first, size as int),
            cond ==> ss_sifting(SA_top@, base, tx, Td, PA, first, i0, i as int, size as int, c as int),
            cond ==> forall|x: int|
                1 <= x < size && heap_parent(x) == i ==> ss_heap_rank(tx, base, Td, PA, #[trigger] SA_top@[first + x])
                    <= c,
        decreases size - i,
    {
        let j64: i64 = 2 * (i as i64) + 1;
        if !(j64 < size as i64) {
            proof {
                assert forall|x: int| 1 <= x < size && heap_parent(x) == i implies ss_heap_rank(tx, base, Td, PA, #[trigger] SA_top@[first + x])
                    <= c by {
                    assert(x >= 2 * i + 1);
                }
            }
            break;
        }
        j = j64 as Idx;
        k = j;
        d = ss_key_at(T, Td, SA_top, PA, first, k);
        j += 1;
        e = ss_key_at(T, Td, SA_top, PA, first, j);
        proof {
            if cond {
                assert(ss_heap_ranks_outside(SA_top@, PA, first, size as int));
                lemma_ss_heap_rank_stable(SA_top@, base, tx, Td, PA, first, size as int, SA_top@[first + k]);
                assert(d == ss_heap_rank(tx, base, Td, PA, SA_top@[first + k]));
                if j < size {
                    lemma_ss_heap_rank_stable(SA_top@, base, tx, Td, PA, first, size as int, SA_top@[first + j]);
                    assert(e == ss_heap_rank(tx, base, Td, PA, SA_top@[first + j]));
                } else {
                    assert(size % 2 == 0);
                    assert(SA_top@[first + j] == base[first + j]);
                    assert(SA_top@[first + j] == v);
                    lemma_ss_heap_rank_stable(SA_top@, base, tx, Td, PA, first, size as int, v);
                    assert(e == c);
                }
            }
        }
        let ghost kl = k;
        if d < e {
            k = j;
            d = e;
        }
        proof {
            if cond {
                assert forall|x: int| 1 <= x < size && heap_parent(x) == i implies ss_heap_rank(tx, base, Td, PA, #[trigger] SA_top@[first + x])
                    <= d by {
                    assert(x == kl || x == j);
                }
            }
        }
        if d <= c {
            break;
        }
        if k < size {
            let ghost s0 = SA_top@;
            let tmp_v = SA_top[(first + k) as usize];
            SA_top[(first + i) as usize] = tmp_v;
            proof {
                assert(SA_top@ =~= s0.update(first + i, s0[first + k]));
                assert(put(SA_top@, first + k, v) =~= swapped(put(s0, first + i, v), first + i, first + k));
                lemma_swap_entries(put(s0, first + i, v), first + i, first + k, first as int, first + size);
                if cond {
                    assert(heap_parent(k as int) == i);
                    lemma_ss_sift_step(s0, base, tx, Td, PA, first, i0, i as int, k as int, size as int, c as int);
                    assert forall|x: int| first <= x < first + size implies !(first <= ss_heap_rank_pos(PA, #[trigger] SA_top@[x]) < first + size) by {
                        if x != first + i {
                            assert(SA_top@[x] == s0[x]);
                        } else {
                            assert(SA_top@[x] == s0[first + k]);
                        }
                    }
                }
            }
            i = k;
        } else {
            break;
        }
    }
    let ghost s0 = SA_top@;
    SA_top[(first + i) as usize] = v;
    proof {
        assert(SA_top@ =~= put(s0, first + i, v));
        if cond {
            lemma_ss_sift_place(s0, base, tx, Td, PA, first, i0, i as int, size as int, v);
            assert forall|x: int| first <= x < first + size implies !(first <= ss_heap_rank_pos(PA, #[trigger] SA_top@[x]) < first + size) by {
                if x != first + i {
                    assert(SA_top@[x] == s0[x]);
                }
            }
        }
    }
}

/// Writing at `dst` an entry `x` whose suffix start is read outside the `n`
/// entries from `first` keeps all of theirs read outside.
proof fn lemma_ss_ranks_moved(s0: Seq<Idx>, s1: Seq<Idx>, PA: Idx, first: Idx, dst: int, x: Idx, n: int)
    requires
        0 <= first <= dst < first + n,
        first + n <= s0.len(),
        s1 == s0.update(dst, x),
        !(first <= ss_heap_rank_pos(PA, x) < first + n),
        ss_heap_ranks_outside(s0, PA, first, n),
    ensures
        ss_heap_ranks_outside(s1, PA, first, n),
{
    assert forall|k: int| first <= k < first + n implies !(first <= ss_heap_rank_pos(PA, #[trigger] s1[k]) < first + n) by {
        if k != dst {
            assert(s1[k] == s0[k]);
        }
    }
}

/// After one step of the second phase, what the loop keeps holds again with
/// one entry fewer in the heap.
proof fn lemma_ss_pop_post(
    s0: Seq<Idx>,
    s2: Seq<Idx>,
    s3: Seq<Idx>,
    s4: Seq<Idx>,
    base: Seq<Idx>,
    tx: Seq<u8>,
    Td: Idx,
    PA: Idx,
    first: Idx,
    i: int,
    n: int,
    cond: bool,
)
    requires
        0 <= first,
        1 <= i < n,
        first + n <= s0.len(),
        s2 == s0.update(first as int, s0[first + i]),
        same_outside(s0, base, first as int, first + n),
        range_entries(s0, first as int, first + n) == range_entries(base, first as int, first + n),
        same_outside(s3, s2, first as int, first + i),
        range_entries(s3, first as int, first + i) == range_entries(s2, first as int, first + i),
        s4 == s3.update(first + i, s0[first as int]),
        cond ==> ss_heap_ranks_outside(s0, PA, first, n),
        cond ==> ss_heap_ranks_outside(s2, PA, first, n),
        cond ==> ss_popping(s0, base, tx, Td, PA, first, i + 1, n),
        cond ==> ss_is_heap_from(s3, s2, tx, Td, PA, first, 0, i),
    ensures
        same_outside(s4, base, first as int, first + n),
        range_entries(s4, first as int, first + n) == range_entries(base, first as int, first + n),
        cond ==> ss_heap_ranks_outside(s4, PA, first, n),
        cond ==> ss_popping(s4, base, tx, Td, PA, first, i, n),
{
    lemma_pop_entries(s0, s2, s3, first as int, i, n);
    if cond {
        lemma_ss_ranks_kept(s3, s2, PA, first, i, n);
        assert(same_outside(s2, base, first as int, first + n));
        lemma_ss_heap_rebase(s3, s2, base, tx, Td, PA, first, 0, i, n);
        lemma_ss_pop_step(s0, s2, s3, base, tx, Td, PA, first, i, n);
        assert(!(first <= ss_heap_rank_pos(PA, s0[first as int]) < first + n));
        lemma_ss_ranks_moved(s3, s4, PA, first, first + i, s0[first as int], n);
    }
}

/// Simple top-down heapsort.
///
/// The entries stay those there were; where the characters that order them
/// are read through suffix starts outside them, they end in nondecreasing
/// order of those characters.
#[verifier::rlimit(100)]
#[verifier::spinoff_prover]
pub fn ss_heapsort(T: &Text, Td: Idx, SA_top: &mut [Idx], PA: Idx, first: Idx, size: Idx)
    requires
        0 <= first,
        1 <= size,
        first + size <= old(SA_top)@.len(),
        old(SA_top)@.len() <= i32::MAX,
    ensures
        same_outside(final(SA_top)@, old(SA_top)@, first as int, first + size),
        range_entries(final(SA_top)@, first as int, first + size) == range_entries(old(SA_top)@, first as int, first + size),
        ss_heap_ranks_outside(old(SA_top)@, PA, first, size as int) ==> ss_heap_rank_sorted(
            final(SA_top)@,
            old(SA_top)@,
            T.0@,
            Td,
            PA,
            first,
            size as int,
        ),
{
    let ghost base = SA_top@;
    let ghost tx = T.0@;
    let ghost n = size as int;
    let ghost cond = ss_heap_ranks_outside(base, PA, first, n);
    let mut m: Idx = size;
    let mut t: Idx;
    if (size % 2) == 0 {
        m -= 1;
        if ss_key_at(T, Td, SA_top, PA, first, m / 2) < ss_key_at(T, Td, SA_top, PA, first, m) {
            sa_swap(SA_top, first + m, first + m / 2);
            proof {
                lemma_swap_entries(base, first + m, first + m / 2, first as int, first + n);
                if cond {
                    assert forall|k: int| first <= k < first + n implies !(first <= ss_heap_rank_pos(PA, #[trigger] SA_top@[k]) < first + n) by {
                        if k == first + m {
                            assert(SA_top@[k] == base[first + m / 2]);
                        } else if k == first + m / 2 {
                            assert(SA_top@[k] == base[first + m]);
                        } else {
                            assert(SA_top@[k] == base[k]);
                        }
                    }
                }
            }
        }
    }
    let ghost s1 = SA_top@;
    proof {
        if cond && size % 2 == 0 {
            assert(ss_heap_rank(tx, base, Td, PA, s1[first + m]) <= ss_heap_rank(tx, base, Td, PA, s1[first + m / 2]));
        }
    }
    let mut i: Idx = m / 2;
    while 0 < i
        invariant
            0 <= first,
            1 <= m <= size,
            m % 2 == 1,
            m == size || m + 1 == size,
            0 <= i <= m / 2,
            first + size <= SA_top@.len(),
            SA_top@.len() <= i32::MAX,
            base == old(SA_top)@,
            tx == T.0@,
            n == size,
            cond == ss_heap_ranks_outside(base, PA, first, n),
            same_outside(SA_top@, base, first as int, first + size),
            same_outside(SA_top@, s1, first as int, first + m),
            same_outside(s1, base, first as int, first + size),
            range_entries(s1, first as int, first + n) == range_entries(base, first as int, first + n),
            range_entries(SA_top@, first as int, first + m) == range_entries(s1, first as int, first + m),
            cond ==> ss_heap_ranks_outside(s1, PA, first, n),
            cond ==> ss_heap_ranks_outside(SA_top@, PA, first, n),
            cond ==> ss_is_heap_from(SA_top@, base, tx, Td, PA, first, i as int, m as int),
        decreases i,
    {
        i -= 1;
        let ghost s0 = SA_top@;
        proof {
            if cond {
                lemma_ss_ranks_narrow(s0, PA, first, m as int, n);
                lemma_ss_heap_rebase(s0, base, s0, tx, Td, PA, first, i + 1, m as int, n);
            }
        }
        ss_fixdown(T, Td, PA, SA_top, first, i, m);
        proof {
            if cond {
                lemma_ss_ranks_kept(SA_top@, s0, PA, first, m as int, n);
                lemma_ss_heap_rebase(SA_top@, s0, base, tx, Td, PA, first, i as int, m as int, n);
            }
        }
    }
    proof {
        if cond {
            assert(ss_is_heap_from(SA_top@, base, tx, Td, PA, first, 0, m as int));
        }
    }
    if (size % 2) == 0 {
        let ghost s2 = SA_top@;
        sa_swap(SA_top, first + 0, first + m);
        let ghost s3 = SA_top@;
        proof {
            lemma_ss_even_prepare(s1, s2, base, tx, Td, PA, first, m as int, n, cond);
        }
        ss_fixdown(T, Td, PA, SA_top, first, 0, m);
        proof {
            lemma_ss_even_finish(s1, s2, s3, SA_top@, base, tx, Td, PA, first, m as int, n, cond);
        }
    } else {
        proof {
            assert(m == size);
        }
    }
    let mut i: Idx = m;
    while 1 < i
        invariant
            0 <= first,
            1 <= m <= size,
            1 <= i <= m,
            first + size <= SA_top@.len(),
            SA_top@.len() <= i32::MAX,
            base == old(SA_top)@,
            tx == T.0@,
            n == size,
            cond == ss_heap_ranks_outside(base, PA, first, n),
            same_outside(SA_top@, base, first as int, first + size),
            range_entries(SA_top@, first as int, first + n) == range_entries(base, first as int, first + n),
            cond ==> ss_heap_ranks_outside(SA_top@, PA, first, n),
            cond ==> ss_popping(SA_top@, base, tx, Td, PA, first, i as int, n),
        decreases i,
    {
        i -= 1;
        let ghost s0 = SA_top@;
        t = SA_top[first as usize];
        let tmp_v = SA_top[(first + i) as usize];
        SA_top[first as usize] = tmp_v;
        let ghost s2 = SA_top@;
        proof {
            if cond {
                lemma_ss_ranks_moved(s0, s2, PA, first, first as int, s0[first + i], n);
                lemma_ss_heap_new_root(s0, s2, base, tx, Td, PA, first, i as int, n);
                lemma_ss_ranks_narrow(s2, PA, first, i as int, n);
            }
        }
        ss_fixdown(T, Td, PA, SA_top, first, 0, i);
        let ghost s3 = SA_top@;
        SA_top[(first + i) as usize] = t;
        proof {
            assert(SA_top@ =~= s3.update(first + i, s0[first as int]));
            lemma_ss_pop_post(s0, s2, s3, SA_top@, base, tx, Td, PA, first, i as int, n, cond);
        }
    }
    proof {
        if cond {
            lemma_ss_popped(SA_top@, base, tx, Td, PA, first, n);
        }
    }
}

/// The character that decides the order of the entry at `v`.
/// The character that orders the entry at `v` in the choice of a pivot:
/// `T[Td + SA[PA + SA[v]]]`.
pub open spec fn ss_pivot_char(t: Seq<u8>, Td: Idx, s: Seq<Idx>, PA: Idx, v: int) -> int {
    tat(t, Td.wrapping_add(at(s, PA.wrapping_add(at(s, v)) as int)) as int) as int
}

fn ss_char(T: &Text, Td: Idx, SA: &[Idx], PA: Idx, v: Idx) -> (r: Idx)
    requires
        0 <= v,
    ensures
        r == ss_pivot_char(T.0@, Td, SA@, PA, v as int),
{
    ss_key_at(T, Td, SA, PA, 0, v)
}

/// Returns the median of three elements
pub fn ss_median3(T: &Text, Td: Idx, SA: &[Idx], PA: Idx, v1: Idx, v2: Idx, v3: Idx) -> (r: Idx)
    requires
        0 <= v1,
        0 <= v2,
        0 <= v3,
    ensures
        r == v1 || r == v2 || r == v3,
        ({
            let k = |x: int| ss_pivot_char(T.0@, Td, SA@, PA, x);
            k(r as int) == median3(k(v1 as int), k(v2 as int), k(v3 as int))
        }),
{
    let mut v1 = v1;
    let mut v2 = v2;
    if ss_char(T, Td, SA, PA, v1) > ss_char(T, Td, SA, PA, v2) {
        let t = v1;
        v1 = v2;
        v2 = t;
    }
    if ss_char(T, Td, SA, PA, v2) > ss_char(T, Td, SA, PA, v3) {
        if ss_char(T, Td, SA, PA, v1) > ss_char(T, Td, SA, PA, v3) {
            v1
        } else {
            v3
        }
    } else {
        v2
    }
}

/// Returns the median of five elements
pub fn ss_median5(
    T: &Text,
    Td: Idx,
    SA: &[Idx],
    PA: Idx,
    v1: Idx,
    v2: Idx,
    v3: Idx,
    v4: Idx,
    v5: Idx,
) -> (r: Idx)
    requires
        0 <= v1,
        0 <= v2,
        0 <= v3,
        0 <= v4,
        0 <= v5,
    ensures
        r == v1 || r == v2 || r == v3 || r == v4 || r == v5,
        ({
            let k = |x: int| ss_pivot_char(T.0@, Td, SA@, PA, x);
            is_median5(k(r as int), k(v1 as int), k(v2 as int), k(v3 as int), k(v4 as int), k(v5 as int))
        }),
{
    // each entry travels with its character
    let mut k1: Idx = ss_char(T, Td, SA, PA, v1);
    let mut k2: Idx = ss_char(T, Td, SA, PA, v2);
    let mut k3: Idx = ss_char(T, Td, SA, PA, v3);
    let mut k4: Idx = ss_char(T, Td, SA, PA, v4);
    let mut k5: Idx = ss_char(T, Td, SA, PA, v5);
    let mut v1: Idx = v1;
    let mut v2: Idx = v2;
    let mut v3: Idx = v3;
    let mut v4: Idx = v4;
    let mut v5: Idx = v5;
    if k2 > k3 {
        let t: Idx = v2;
        let u: Idx = k2;
        v2 = v3;
        k2 = k3;
        v3 = t;
        k3 = u;
    }
    if k4 > k5 {
        let t: Idx = v4;
        let u: Idx = k4;
        v4 = v5;
        k4 = k5;
        v5 = t;
        k5 = u;
    }
    if k2 > k4 {
        let t: Idx = v2;
        let u: Idx = k2;
        v2 = v4;
        k2 = k4;
        v4 = t;
        k4 = u;
        let t: Idx = v3;
        let u: Idx = k3;
        v3 = v5;
        k3 = k5;
        v5 = t;
        k5 = u;
    }
    if k1 > k3 {
        let t: Idx = v1;
        let u: Idx = k1;
        v1 = v3;
        k1 = k3;
        v3 = t;
        k3 = u;
    }
    if k1 > k4 {
        let t: Idx = v1;
        let u: Idx = k1;
        v1 = v4;
        k1 = k4;
        v4 = t;
        k4 = u;
        let t: Idx = v3;
        let u: Idx = k3;
        v3 = v5;
        k3 = k5;
        v5 = t;
        k5 = u;
    }
    if k3 > k4 {
        v4
    } else {
        v3
    }
}

/// Returns the pivot element: the entry of median character among the
/// first, middle and last entries of the range (among five entries spread
/// over ranges longer than 32, and a median of three such medians over
/// ranges longer than 512).
pub fn ss_pivot(T: &Text, Td: Idx, SA: &[Idx], PA: Idx, first: Idx, last: Idx) -> (r: Idx)
    requires
        0 <= first < last,
    ensures
        first <= r < last,
        ({
            let n = last - first;
            let m = first + n / 2;
            let q = n / 4;
            let e = n / 8;
            let k = |x: int| ss_pivot_char(T.0@, Td, SA@, PA, x);
            &&& n <= 32 ==> k(r as int) == median3(k(first as int), k(m), k(last - 1))
            &&& 32 < n <= 512 ==> is_median5(
                k(r as int),
                k(first as int),
                k(first + q),
                k(m),
                k(last - 1 - q),
                k(last - 1),
            )
            &&& 512 < n ==> k(r as int) == median3(
                median3(k(first as int), k(first + e), k(first + 2 * e)),
                median3(k(m - e), k(m), k(m + e)),
                median3(k(last - 1 - 2 * e), k(last - 1 - e), k(last - 1)),
            )
        }),
{
    let mut t: Idx = last - first;
    let mut middle: Idx = first + (t / 2);
    if t <= 512 {
        if t <= 32 {
            return ss_median3(T, Td, SA, PA, first, middle, last - 1);
        } else {
            t = t / 4;
            return ss_median5(T, Td, SA, PA, first, first + t, middle, last - 1 - t, last - 1);
        }
    }
    t = t / 8;
    let first2 = ss_median3(T, Td, SA, PA, first, first + t, first + (t * 2));
    middle = ss_median3(T, Td, SA, PA, middle - t, middle, middle + t);
    let last2 = ss_median3(T, Td, SA, PA, last - 1 - (t * 2), last - 1 - t, last - 1);
    ss_median3(T, Td, SA, PA, first2, middle, last2)
}

/// The substring of the entry `x` ends within `depth` characters: its start,
/// read at `PA + x` in `base`, lies `depth` or more past the next start less
/// one.
pub open spec fn substring_done(base: Seq<Idx>, PA: Idx, depth: Idx, x: Idx) -> bool {
    at(base, PA.wrapping_add(x) as int) + depth >= at(base, PA.wrapping_add(x).wrapping_add(1) as int) + 1
}

/// Sequences whose entries agree but for marks, and for the exchange of the
/// entries at `i` and `j`, hold the same entries but for their marks.
pub proof fn lemma_unmarked_exchange(s: Seq<Idx>, s2: Seq<Idx>, lo: int, hi: int, i: int, j: int)
    requires
        0 <= lo <= i < hi <= s.len(),
        lo <= j < hi,
        s2.len() == s.len(),
        forall|k: int| lo <= k < hi ==> unmarked_value(#[trigger] s2[k]) == unmarked_value(
            swapped(s, i, j)[k],
        ),
    ensures
        unmarked_entries(s2, lo, hi) == unmarked_entries(s, lo, hi),
{
    let f = |x: Idx| unmarked_value(x);
    let u = s.subrange(lo, hi).map_values(f);
    let w = s2.subrange(lo, hi).map_values(f);
    assert(w =~= swapped(u, i - lo, j - lo));
    lemma_swap_entries(u, i - lo, j - lo, 0, u.len() as int);
    assert(u.subrange(0, u.len() as int) =~= u);
    assert(swapped(u, i - lo, j - lo).subrange(0, u.len() as int) =~= swapped(u, i - lo, j - lo));
}

/// Binary partition for substrings: moves to the front the entries whose
/// substring ends within `depth` characters (flipping them), and returns the
/// end of that front part.
///
/// The entries stay those there were but for their marks. Where they are
/// unmarked and their starts are read past the range, the front part holds
/// exactly those whose substring ends, marked but for the first, and the
/// rest are left unmarked.
#[verifier::rlimit(60)]
#[verifier::spinoff_prover]
pub fn ss_partition(SA: &mut [Idx], PA: Idx, first: Idx, last: Idx, depth: Idx) -> (r: Idx)
    requires
        0 <= first <= last <= old(SA)@.len(),
        old(SA)@.len() <= i32::MAX,
        0 <= depth,
    ensures
        first <= r <= last,
        same_outside(final(SA)@, old(SA)@, first as int, last as int),
        unmarked_entries(final(SA)@, first as int, last as int) == unmarked_entries(
            old(SA)@,
            first as int,
            last as int,
        ),
        last <= PA && (forall|k: int| first <= k < last ==> 0 <= #[trigger] old(SA)@[k]) ==> {
            &&& forall|k: int|
                first <= k < r ==> substring_done(old(SA)@, PA, depth, unmarked_value(#[trigger] final(SA)@[k]))
                    && (final(SA)@[k] < 0 <==> first < k)
            &&& forall|k: int|
                r <= k < last ==> 0 <= #[trigger] final(SA)@[k] && !substring_done(old(SA)@, PA, depth, final(SA)@[k])
        },
{
    let ghost base = SA@;
    let ghost cond = last <= PA && (forall|k: int| first <= k < last ==> 0 <= #[trigger] base[k]);
    let mut a: Idx = first - 1;
    let mut b: Idx = last;
    loop
        invariant_except_break
            first - 1 <= a < b <= last,
            cond ==> forall|k: int| first <= k <= a ==> #[trigger] SA@[k] < 0 && substring_done(
                base,
                PA,
                depth,
                unmarked_value(SA@[k]),
            ),
            cond ==> forall|k: int| a < k < b ==> 0 <= #[trigger] SA@[k],
            cond ==> forall|k: int| b <= k < last ==> 0 <= #[trigger] SA@[k] && !substring_done(
                base,
                PA,
                depth,
                SA@[k],
            ),
        invariant
            0 <= first <= last <= SA@.len(),
            SA@.len() <= i32::MAX,
            0 <= depth,
            base == old(SA)@,
            same_outside(SA@, old(SA)@, first as int, last as int),
            unmarked_entries(SA@, first as int, last as int) == unmarked_entries(base, first as int, last as int),
            cond == (last <= PA && (forall|k: int| first <= k < last ==> 0 <= #[trigger] base[k])),
        ensures
            first <= a <= last,
            0 <= first <= last <= SA@.len(),
            same_outside(SA@, old(SA)@, first as int, last as int),
            unmarked_entries(SA@, first as int, last as int) == unmarked_entries(base, first as int, last as int),
            cond ==> forall|k: int| first <= k < a ==> #[trigger] SA@[k] < 0 && substring_done(
                base,
                PA,
                depth,
                unmarked_value(SA@[k]),
            ),
            cond ==> forall|k: int| a <= k < last ==> 0 <= #[trigger] SA@[k] && !substring_done(
                base,
                PA,
                depth,
                SA@[k],
            ),
        decreases b - a,
    {
        let ghost a0 = a;
        let ghost b0 = b;
        // JANINE
        loop
            invariant_except_break
                first - 1 <= a < b <= last,
                cond ==> forall|k: int| first <= k <= a ==> #[trigger] SA@[k] < 0 && substring_done(
                    base,
                    PA,
                    depth,
                    unmarked_value(SA@[k]),
                ),
            invariant
                a0 <= a,
                cond == (last <= PA && (forall|k: int| first <= k < last ==> 0 <= #[trigger] base[k])),
                base == old(SA)@,
                b == b0,
                0 <= first <= last <= SA@.len(),
                SA@.len() <= i32::MAX,
                0 <= depth,
                same_outside(SA@, old(SA)@, first as int, last as int),
                unmarked_entries(SA@, first as int, last as int) == unmarked_entries(base, first as int, last as int),
                cond ==> forall|k: int| a < k < b ==> 0 <= #[trigger] SA@[k],
                cond ==> forall|k: int| b <= k < last ==> 0 <= #[trigger] SA@[k] && !substring_done(
                    base,
                    PA,
                    depth,
                    SA@[k],
                ),
            ensures
                a0 < a,
                b == b0,
                first <= a <= b <= last,
                0 <= first <= last <= SA@.len(),
                SA@.len() <= i32::MAX,
                same_outside(SA@, old(SA)@, first as int, last as int),
                unmarked_entries(SA@, first as int, last as int) == unmarked_entries(base, first as int, last as int),
                cond ==> forall|k: int| first <= k < a ==> #[trigger] SA@[k] < 0 && substring_done(
                    base,
                    PA,
                    depth,
                    unmarked_value(SA@[k]),
                ),
                cond ==> forall|k: int| a < k < b ==> 0 <= #[trigger] SA@[k],
                cond ==> forall|k: int| b <= k < last ==> 0 <= #[trigger] SA@[k] && !substring_done(
                    base,
                    PA,
                    depth,
                    SA@[k],
                ),
                cond && a < b ==> 0 <= SA@[a as int] && !substring_done(base, PA, depth, SA@[a as int]),
            decreases b - a,
        {
            a += 1;
            if !(a < b) {
                break;
            }
            let x = SA[a as usize];
            let lhs: i64 = sa_get(SA, PA.wrapping_add(x)) as i64 + depth as i64;
            let rhs: i64 = sa_get(SA, PA.wrapping_add(x).wrapping_add(1)) as i64 + 1;
            proof {
                if cond {
                    assert(0 <= x);
                    assert(at(SA@, PA.wrapping_add(x) as int) == at(base, PA.wrapping_add(x) as int));
                    assert(at(SA@, PA.wrapping_add(x).wrapping_add(1) as int) == at(
                        base,
                        PA.wrapping_add(x).wrapping_add(1) as int,
                    ));
                }
            }
            if !(lhs >= rhs) {
                break;
            }
            let ghost s0 = SA@;
            let tmp_v = SA[a as usize];
            SA[a as usize] = flip(tmp_v);
            proof {
                lemma_unmarked_exchange(s0, SA@, first as int, last as int, a as int, a as int);
            }
        }
        let ghost a1 = a;
        let ghost b1 = b;
        // GEORGIO
        loop
            invariant_except_break
                first <= a <= b <= last,
                cond ==> forall|k: int| b <= k < last ==> 0 <= #[trigger] SA@[k] && !substring_done(
                    base,
                    PA,
                    depth,
                    SA@[k],
                ),
            invariant
                a == a1,
                cond == (last <= PA && (forall|k: int| first <= k < last ==> 0 <= #[trigger] base[k])),
                base == old(SA)@,
                b <= b1,
                0 <= first <= last <= SA@.len(),
                SA@.len() <= i32::MAX,
                same_outside(SA@, old(SA)@, first as int, last as int),
                unmarked_entries(SA@, first as int, last as int) == unmarked_entries(base, first as int, last as int),
                cond ==> forall|k: int| first <= k < a ==> #[trigger] SA@[k] < 0 && substring_done(
                    base,
                    PA,
                    depth,
                    unmarked_value(SA@[k]),
                ),
                cond ==> forall|k: int| a < k < b ==> 0 <= #[trigger] SA@[k],
                cond && a < b1 ==> 0 <= SA@[a as int] && !substring_done(base, PA, depth, SA@[a as int]),
            ensures
                a == a1,
                b < b1,
                first <= a <= last,
                first - 1 <= b <= last,
                a < b ==> b < last,
                0 <= first <= last <= SA@.len(),
                SA@.len() <= i32::MAX,
                same_outside(SA@, old(SA)@, first as int, last as int),
                unmarked_entries(SA@, first as int, last as int) == unmarked_entries(base, first as int, last as int),
                cond ==> forall|k: int| first <= k < a ==> #[trigger] SA@[k] < 0 && substring_done(
                    base,
                    PA,
                    depth,
                    unmarked_value(SA@[k]),
                ),
                cond ==> forall|k: int| a < k < b ==> 0 <= #[trigger] SA@[k],
                cond ==> forall|k: int| b < k < last ==> 0 <= #[trigger] SA@[k] && !substring_done(
                    base,
                    PA,
                    depth,
                    SA@[k],
                ),
                cond && a < b ==> 0 <= SA@[a as int] && !substring_done(base, PA, depth, SA@[a as int]),
                cond && a < b ==> 0 <= SA@[b as int] && substring_done(base, PA, depth, SA@[b as int]),
                cond && b <= a ==> forall|k: int| a <= k < last ==> 0 <= #[trigger] SA@[k] && !substring_done(
                    base,
                    PA,
                    depth,
                    SA@[k],
                ),
            decreases b,
        {
            b -= 1;
            if !(a < b) {
                break;
            }
            let x = SA[b as usize];
            let lhs: i64 = sa_get(SA, PA.wrapping_add(x)) as i64 + depth as i64;
            let rhs: i64 = sa_get(SA, PA.wrapping_add(x).wrapping_add(1)) as i64 + 1;
            proof {
                if cond {
                    assert(0 <= x);
                    assert(at(SA@, PA.wrapping_add(x) as int) == at(base, PA.wrapping_add(x) as int));
                    assert(at(SA@, PA.wrapping_add(x).wrapping_add(1) as int) == at(
                        base,
                        PA.wrapping_add(x).wrapping_add(1) as int,
                    ));
                }
            }
            if !(lhs < rhs) {
                break;
            }
        }
        if b <= a {
            break;
        }
        let ghost s0 = SA@;
        let t = flip(SA[b as usize]);
        let tmp_v = SA[a as usize];
        SA[b as usize] = tmp_v;
        SA[a as usize] = t;
        proof {
            lemma_unmarked_exchange(s0, SA@, first as int, last as int, a as int, b as int);
        }
    }
    if first < a {
        let ghost s0 = SA@;
        let tmp_v = SA[first as usize];
        SA[first as usize] = flip(tmp_v);
        proof {
            lemma_unmarked_exchange(s0, SA@, first as int, last as int, first as int, first as int);
        }
    }
    a
}


#[derive(Clone, Copy)]
struct StackItem {
    a: Idx,
    b: Idx,
    c: Idx,
    d: Idx,
}

/// `64` to the power `k` (1 for `k` not positive).
spec fn pow64(k: int) -> nat
    decreases k,
{
    if k <= 0 {
        1
    } else {
        64 * pow64(k - 1)
    }
}

proof fn lemma_pow64_pos(k: int)
    ensures
        pow64(k) >= 1,
    decreases k,
{
    if k > 0 {
        lemma_pow64_pos(k - 1);
    }
}

/// How much sorting a range of `size` entries may still take at `depth`
/// with `limit` partitioning rounds left before it turns to heapsort: each
/// round either splits the range into smaller ones, settles it, or looks a
/// character deeper (which the power of 64 pays for).
spec fn intro_weight(size: int, depth: int, limit: int) -> int {
    pow3(size) * pow64(i32::MAX - depth) * (limit + 3)
}

/// The weight of the ranges left for later.
spec fn intro_stack_weight(items: Seq<StackItem>) -> int
    decreases items.len(),
{
    if items.len() == 0 {
        0
    } else {
        intro_stack_weight(items.drop_last()) + intro_weight(
            items.last().b - items.last().a,
            items.last().c as int,
            items.last().d as int,
        )
    }
}

proof fn lemma_intro_weight_pos(size: int, depth: int, limit: int)
    requires
        -1 <= limit,
    ensures
        intro_weight(size, depth, limit) >= 2,
{
    lemma_pow3_pos(size);
    lemma_pow64_pos(i32::MAX - depth);
    let a = pow3(size) as int;
    let b = pow64(i32::MAX - depth) as int;
    assert(a * b >= 1) by (nonlinear_arith)
        requires
            a >= 1,
            b >= 1,
    ;
    assert(a * b * (limit + 3) >= 2) by (nonlinear_arith)
        requires
            a * b >= 1,
            limit + 3 >= 2,
    ;
}

proof fn lemma_intro_stack_nonneg(items: Seq<StackItem>)
    requires
        forall|k: int| 0 <= k < items.len() ==> -1 <= #[trigger] items[k].d,
    ensures
        intro_stack_weight(items) >= 0,
    decreases items.len(),
{
    if items.len() > 0 {
        lemma_intro_stack_nonneg(items.drop_last());
        lemma_intro_weight_pos(items.last().b - items.last().a, items.last().c as int, items.last().d as int);
    }
}

proof fn lemma_intro_push(items: Seq<StackItem>, it: StackItem)
    ensures
        intro_stack_weight(items.push(it)) == intro_stack_weight(items) + intro_weight(
            it.b - it.a,
            it.c as int,
            it.d as int,
        ),
{
    assert(items.push(it).drop_last() =~= items);
}

/// Partitioning a range of `s` entries into smaller ones below, equal to
/// (one character deeper) and above the pivot lowers the weight.
proof fn lemma_intro_partition(s: int, d: int, l: int, p1: int, p2: int, l2: int, p3: int)
    requires
        1 <= s,
        p1 <= s - 1,
        p2 <= s - 1,
        p3 <= s - 1,
        0 <= d <= i32::MAX - 2,
        0 <= l <= 15,
        -1 <= l2 <= 16,
    ensures
        intro_weight(p1, d, l) + intro_weight(p2, d + 1, l2) + intro_weight(p3, d, l) < intro_weight(
            s,
            d,
            l + 1,
        ),
{
    let x = pow64(i32::MAX - d - 1) as int;
    lemma_pow64_pos(i32::MAX - d - 1);
    assert(pow64(i32::MAX - d) == 64 * pow64(i32::MAX - d - 1));
    let t = pow3(s - 1) as int;
    assert(pow3(s) == 3 * pow3(s - 1));
    lemma_pow3_mono(p1, s - 1);
    lemma_pow3_mono(p2, s - 1);
    lemma_pow3_mono(p3, s - 1);
    lemma_pow3_pos(s - 1);
    lemma_pow3_pos(p2);
    let q1 = pow3(p1) as int;
    let q2 = pow3(p2) as int;
    let q3 = pow3(p3) as int;
    assert(q1 * (64 * x) * (l + 3) <= t * (64 * x) * (l + 3)) by (nonlinear_arith)
        requires
            q1 <= t,
            x >= 1,
            l + 3 >= 0,
    ;
    assert(q3 * (64 * x) * (l + 3) <= t * (64 * x) * (l + 3)) by (nonlinear_arith)
        requires
            q3 <= t,
            x >= 1,
            l + 3 >= 0,
    ;
    assert(q2 * x * (l2 + 3) <= t * x * 19) by (nonlinear_arith)
        requires
            0 <= q2 <= t,
            x >= 1,
            0 <= l2 + 3 <= 19,
    ;
    assert(2 * (t * (64 * x) * (l + 3)) + t * x * 19 < (3 * t) * (64 * x) * (l + 4)) by (nonlinear_arith)
        requires
            t >= 1,
            x >= 1,
            l >= 0,
    ;
}

/// Splitting a range of `s` entries into a run equal in the next character
/// (looked at one character deeper) and the rest, at least one entry
/// shorter, lowers the weight; so does dropping either part.
proof fn lemma_intro_runs(s: int, d: int, l: int, q1: int, l1: int, q2: int)
    requires
        1 <= s,
        q1 <= s,
        q2 <= s - 1,
        0 <= d <= i32::MAX - 2,
        -2 <= l <= -1,
        -1 <= l1 <= 16,
    ensures
        intro_weight(q1, d + 1, l1) >= 0,
        intro_weight(q2, d, -1) >= 0,
        intro_weight(q1, d + 1, l1) + intro_weight(q2, d, -1) < intro_weight(s, d, l + 1),
{
    let x = pow64(i32::MAX - d - 1) as int;
    lemma_pow64_pos(i32::MAX - d - 1);
    assert(pow64(i32::MAX - d) == 64 * pow64(i32::MAX - d - 1));
    let t = pow3(s - 1) as int;
    assert(pow3(s) == 3 * pow3(s - 1));
    lemma_pow3_mono(q1, s);
    lemma_pow3_mono(q2, s - 1);
    lemma_pow3_pos(s - 1);
    lemma_intro_weight_pos(q1, d + 1, l1);
    lemma_intro_weight_pos(q2, d, -1);
    let r1 = pow3(q1) as int;
    let r2 = pow3(q2) as int;
    assert(r1 * x * (l1 + 3) <= (3 * t) * x * 19) by (nonlinear_arith)
        requires
            0 <= r1 <= 3 * t,
            x >= 1,
            0 <= l1 + 3 <= 19,
    ;
    assert(r2 * (64 * x) * 2 <= t * (64 * x) * 2) by (nonlinear_arith)
        requires
            r2 <= t,
            x >= 1,
    ;
    assert((3 * t) * x * 19 + t * (64 * x) * 2 < (3 * t) * (64 * x) * (l + 4)) by (nonlinear_arith)
        requires
            t >= 1,
            x >= 1,
            l >= -2,
    ;
}

/// Looking one character deeper at a range no longer than before lowers
/// the weight.
proof fn lemma_intro_deeper(s: int, d: int, l: int, s2: int, l2: int)
    requires
        s2 <= s,
        0 <= d <= i32::MAX - 2,
        -1 <= l,
        -1 <= l2 <= 16,
    ensures
        intro_weight(s2, d + 1, l2) < intro_weight(s, d, l),
{
    let x = pow64(i32::MAX - d - 1) as int;
    lemma_pow64_pos(i32::MAX - d - 1);
    assert(pow64(i32::MAX - d) == 64 * pow64(i32::MAX - d - 1));
    lemma_pow3_mono(s2, s);
    lemma_pow3_pos(s2);
    let r = pow3(s2) as int;
    let t = pow3(s) as int;
    assert(r * x * (l2 + 3) < t * (64 * x) * (l + 3)) by (nonlinear_arith)
        requires
            1 <= r <= t,
            x >= 1,
            0 <= l2 + 3 <= 19,
            l + 3 >= 2,
    ;
}

/// Work left for later: ranges `[a, b)` with their depth `c` and limit `d`.
struct Stack {
    items: Vec<StackItem>,
}

impl Stack {
    fn new() -> (r: Self)
        ensures
            r.items@.len() == 0,
    {
        Stack { items: Vec::new() }
    }

    fn push(&mut self, a: Idx, b: Idx, c: Idx, d: Idx)
        ensures
            final(self).items@ == old(self).items@.push(StackItem { a, b, c, d }),
    {
        self.items.push(StackItem { a, b, c, d });
    }

    fn pop(&mut self, a: &mut Idx, b: &mut Idx, c: &mut Idx, d: &mut Idx) -> (r: Result<(), ()>)
        ensures
            old(self).items@.len() == 0 ==> {
                &&& r is Err
                &&& final(self).items@ == old(self).items@
                &&& *final(a) == *old(a)
                &&& *final(b) == *old(b)
                &&& *final(c) == *old(c)
                &&& *final(d) == *old(d)
            },
            old(self).items@.len() > 0 ==> {
                let it = old(self).items@.last();
                &&& r is Ok
                &&& final(self).items@ == old(self).items@.drop_last()
                &&& *final(a) == it.a
                &&& *final(b) == it.b
                &&& *final(c) == it.c
                &&& *final(d) == it.d
            },
    {
        match self.items.pop() {
            None => Err(()),
            Some(it) => {
                *a = it.a;
                *b = it.b;
                *c = it.c;
                *d = it.d;
                Ok(())
            },
        }
    }
}

/// Every range waiting on the stack lies inside `[lo, hi)`, is short enough
/// for `ss_ilg`, and has a usable depth and limit.
spec fn ss_stack_ok(items: Seq<StackItem>, lo: int, hi: int) -> bool {
    forall|k: int|
        0 <= k < items.len() ==> {
            let it = #[trigger] items[k];
            &&& lo <= it.a <= it.b <= hi
            &&& it.b - it.a < 65536
            &&& 0 <= it.c < i32::MAX
            &&& -1 <= it.d <= 16
        }
}

/// The character just before the suffix of the entry at `x`, `Td` further on.
fn ss_char_before(T: &Text, Td: Idx, SA: &[Idx], PA: Idx, x: Idx) -> (r: Idx)
    requires
        0 <= x < SA@.len(),
    ensures
        r == tat(
            T.0@,
            Td.wrapping_add(at(SA@, PA.wrapping_add(SA@[x as int]) as int)).wrapping_sub(1) as int,
        ),
{
    let p = sa_get(SA, PA.wrapping_add(SA[x as usize]));
    text_at(T, Td.wrapping_add(p).wrapping_sub(1))
}

/// Multikey introsort for medium size groups
#[verifier::rlimit(40)]
pub fn ss_mintrosort(T: &Text, SA: &mut [Idx], PA: Idx, first0: Idx, last0: Idx, depth0: Idx)
    requires
        0 <= first0 <= last0 <= old(SA)@.len(),
        last0 - first0 < 65536,
        old(SA)@.len() <= i32::MAX,
        T.0@.len() <= i32::MAX,
        0 <= depth0,
    ensures
        same_outside(final(SA)@, old(SA)@, first0 as int, last0 as int),
{
    let ghost lo = first0 as int;
    let ghost hi = last0 as int;
    let mut first = first0;
    let mut last = last0;
    let mut depth = depth0;
    let mut stack = Stack::new();
    let mut a: Idx;
    let mut b: Idx;
    let mut c: Idx;
    let mut d: Idx;
    let mut e: Idx;
    let mut f: Idx;
    let mut s: Idx;
    let mut t: Idx;
    let mut v: Idx;
    let mut x: Idx = 0;
    let mut limit: Idx = ss_ilg(last - first);
    // RENEE
    loop
        invariant
            lo <= first <= last <= hi,
            0 <= lo <= hi <= SA@.len(),
            last - first < 65536,
            SA@.len() <= i32::MAX,
            T.0@.len() <= i32::MAX,
            0 <= depth,
            -1 <= limit <= 16,
            ss_stack_ok(stack.items@, lo, hi),
            same_outside(SA@, old(SA)@, lo, hi),
        ensures
            same_outside(SA@, old(SA)@, lo, hi),
        decreases intro_stack_weight(stack.items@) + intro_weight(last - first, depth as int, limit as int),
    {
        proof {
            lemma_intro_stack_nonneg(stack.items@);
            lemma_intro_weight_pos(last - first, depth as int, limit as int);
        }
        if depth >= i32::MAX - 1 {
            break;
        }
        let ghost items0 = stack.items@;
        let ghost s0 = last - first;
        let ghost d0 = depth as int;
        let ghost l0 = limit as int;
        let ghost f0 = first;
        let ghost last0 = last;
        if (last - first) <= SS_INSERTIONSORT_THRESHOLD {
            if 1 < (last - first) {
                ss_insertionsort(T, SA, PA, first, last, depth);
            }
            if !stack.pop(&mut first, &mut last, &mut depth, &mut limit).is_ok() {
                break;
            }
            proof {
                assert(items0 =~= stack.items@.push(items0.last()));
                lemma_intro_push(stack.items@, items0.last());
            }
            continue;
        }
        let Td = depth;
        let old_limit = limit;
        limit -= 1;
        if old_limit == 0 {
            ss_heapsort(T, Td, SA, PA, first, last - first);
        }
        if limit < 0 {
            a = first + 1;
            v = ss_char(T, Td, SA, PA, first);
            // DAVE
            while a < last
                invariant
                    lo <= first < a <= last <= hi,
                    f0 <= first,
                    last == last0,
                    0 <= lo <= hi <= SA@.len(),
                    last - first < 65536,
                    ss_stack_ok(stack.items@, lo, hi),
                decreases last - a,
            {
                x = ss_char(T, Td, SA, PA, a);
                if x != v {
                    if 1 < (a - first) {
                        break;
                    }
                    v = x;
                    first = a;
                }
                a += 1;
            }
            if ss_char_before(T, Td, SA, PA, first) < v {
                first = ss_partition(SA, PA, first, a, depth);
            }
            let ghost fp = first as int;
            let ghost ap = a as int;
            if (a - first) <= (last - a) {
                if 1 < (a - first) {
                    stack.push(a, last, depth, -1);
                    last = a;
                    depth += 1;
                    limit = ss_ilg(a - first);
                    proof {
                        lemma_intro_push(items0, stack.items@.last());
                        lemma_intro_runs(s0, d0, l0 - 1, ap - fp, limit as int, last0 - ap);
                    }
                } else {
                    first = a;
                    limit = -1;
                    proof {
                        lemma_intro_runs(s0, d0, l0 - 1, ap - fp, -1, last0 - ap);
                    }
                }
            } else {
                if 1 < (last - a) {
                    stack.push(first, a, depth + 1, ss_ilg(a - first));
                    first = a;
                    limit = -1;
                    proof {
                        lemma_intro_push(items0, stack.items@.last());
                        lemma_intro_runs(s0, d0, l0 - 1, ap - fp, stack.items@.last().d as int, last0 - ap);
                    }
                } else {
                    last = a;
                    depth += 1;
                    limit = ss_ilg(a - first);
                    proof {
                        lemma_intro_runs(s0, d0, l0 - 1, ap - fp, limit as int, last0 - ap);
                    }
                }
            }
            continue;
        }
        // choose pivot
        a = ss_pivot(T, Td, SA, PA, first, last);
        v = ss_char(T, Td, SA, PA, a);
        sa_swap(SA, first, a);
        // partition
        // NORA
        b = first;
        loop
            invariant_except_break
                b < last,
            invariant
                lo <= first <= b <= last <= hi,
                first < last,
                0 <= lo <= hi <= SA@.len(),
            ensures
                first < b <= last,
                b < last ==> x != v,
            decreases last - b,
        {
            b += 1;
            if !(b < last) {
                break;
            }
            x = ss_char(T, Td, SA, PA, b);
            if !(x == v) {
                break;
            }
        }
        a = b;
        if (a < last) && (x < v) {
            // STAN
            loop
                invariant_except_break
                    b < last,
                invariant
                    lo <= first < a <= b <= last <= hi,
                    0 <= lo <= hi <= SA@.len(),
                    SA@.len() <= i32::MAX,
                    same_outside(SA@, old(SA)@, lo, hi),
                ensures
                    lo <= first < a <= b <= last <= hi,
                    0 <= lo <= hi <= SA@.len(),
                    SA@.len() <= i32::MAX,
                    same_outside(SA@, old(SA)@, lo, hi),
                decreases last - b,
            {
                b += 1;
                if !(b < last) {
                    break;
                }
                x = ss_char(T, Td, SA, PA, b);
                if !(x <= v) {
                    break;
                }
                if x == v {
                    sa_swap(SA, b, a);
                    a += 1;
                }
            }
        }
        // NATHAN
        c = last;
        loop
            invariant_except_break
                b <= c,
            invariant
                lo <= first < a <= b <= last <= hi,
                b - 1 <= c <= last,
                0 <= lo <= hi <= SA@.len(),
            ensures
                b - 1 <= c < last,
            decreases c,
        {
            c -= 1;
            if !(b < c) {
                break;
            }
            x = ss_char(T, Td, SA, PA, c);
            if !(x == v) {
                break;
            }
        }
        d = c;
        if (b < d) && (x > v) {
            // JACOB
            loop
                invariant_except_break
                    b < c,
                invariant
                    lo <= first < a <= b <= last <= hi,
                    b - 1 <= c <= d < last,
                    0 <= lo <= hi <= SA@.len(),
                    SA@.len() <= i32::MAX,
                    same_outside(SA@, old(SA)@, lo, hi),
                ensures
                    b - 1 <= c <= d < last,
                    0 <= lo <= hi <= SA@.len(),
                    SA@.len() <= i32::MAX,
                    same_outside(SA@, old(SA)@, lo, hi),
                decreases c,
            {
                c -= 1;
                if !(b < c) {
                    break;
                }
                x = ss_char(T, Td, SA, PA, c);
                if !(x >= v) {
                    break;
                }
                if x == v {
                    sa_swap(SA, c, d);
                    d -= 1;
                }
            }
        }
        // RITA
        while b < c
            invariant
                lo <= first < a <= b <= last <= hi,
                b - 1 <= c <= d < last,
                0 <= lo <= hi <= SA@.len(),
                SA@.len() <= i32::MAX,
                same_outside(SA@, old(SA)@, lo, hi),
            decreases c - b + 1,
        {
            sa_swap(SA, b, c);
            let ghost c0 = c;
            let ghost b_start = b;
            // ROMEO
            loop
                invariant_except_break
                    b < c,
                invariant
                    lo <= first < a <= b <= c <= d < last <= hi,
                    b_start <= b,
                    c == c0,
                    0 <= lo <= hi <= SA@.len(),
                    SA@.len() <= i32::MAX,
                    same_outside(SA@, old(SA)@, lo, hi),
                ensures
                    lo <= first < a <= b <= c <= d < last <= hi,
                    b_start <= b,
                    c == c0,
                    0 <= lo <= hi <= SA@.len(),
                    SA@.len() <= i32::MAX,
                    same_outside(SA@, old(SA)@, lo, hi),
                decreases c - b,
            {
                b += 1;
                if !(b < c) {
                    break;
                }
                x = ss_char(T, Td, SA, PA, b);
                if !(x <= v) {
                    break;
                }
                if x == v {
                    sa_swap(SA, b, a);
                    a += 1;
                }
            }
            let ghost b0 = b;
            // JULIET
            loop
                invariant_except_break
                    b <= c,
                invariant
                    lo <= first < a <= b <= last <= hi,
                    b == b0,
                    b - 1 <= c <= d < last,
                    c <= c0,
                    0 <= lo <= hi <= SA@.len(),
                    SA@.len() <= i32::MAX,
                    same_outside(SA@, old(SA)@, lo, hi),
                ensures
                    lo <= first < a <= b <= last <= hi,
                    b == b0,
                    b - 1 <= c <= d < last,
                    c < c0,
                    0 <= lo <= hi <= SA@.len(),
                    SA@.len() <= i32::MAX,
                    same_outside(SA@, old(SA)@, lo, hi),
                decreases c,
            {
                c -= 1;
                if !(b < c) {
                    break;
                }
                x = ss_char(T, Td, SA, PA, c);
                if !(x >= v) {
                    break;
                }
                if x == v {
                    sa_swap(SA, c, d);
                    d -= 1;
                }
            }
        }
        if a <= d {
            let ghost ga = a as int;
            let ghost gb = b as int;
            let ghost gd = d as int;
            c = b - 1;
            s = a - first;
            t = b - a;
            if s > t {
                s = t;
            }
            // JOSHUA
            e = first;
            f = b - s;
            while 0 < s
                invariant
                    lo <= first <= e,
                    e + s <= b,
                    f + s == b,
                    e <= f,
                    0 <= s,
                    b <= last <= hi,
                    0 <= lo <= hi <= SA@.len(),
                    SA@.len() <= i32::MAX,
                    same_outside(SA@, old(SA)@, lo, hi),
                decreases s,
            {
                sa_swap(SA, e, f);
                s -= 1;
                e += 1;
                f += 1;
            }
            s = d - c;
            t = last - d - 1;
            if s > t {
                s = t;
            }
            // BERENICE
            e = b;
            f = last - s;
            while 0 < s
                invariant
                    lo <= b <= e,
                    e + s <= d + 1,
                    d < last,
                    f + s == last,
                    e <= f,
                    0 <= s,
                    last <= hi,
                    0 <= lo <= hi <= SA@.len(),
                    SA@.len() <= i32::MAX,
                    same_outside(SA@, old(SA)@, lo, hi),
                decreases s,
            {
                sa_swap(SA, e, f);
                s -= 1;
                e += 1;
                f += 1;
            }
            a = first + (b - a);
            c = last - (d - c);
            b = if v <= ss_char_before(T, Td, SA, PA, a) {
                a
            } else {
                let res = ss_partition(SA, PA, a, c, depth);
                res
            };
            let ghost pa = a as int;
            let ghost pb = b as int;
            let ghost pc = c as int;
            if (a - first) <= (last - c) {
                if (last - c) <= (c - b) {
                    stack.push(b, c, depth + 1, ss_ilg(c - b));
                    stack.push(c, last, depth, limit);
                    last = a;
                } else if (a - first) <= (c - b) {
                    stack.push(c, last, depth, limit);
                    stack.push(b, c, depth + 1, ss_ilg(c - b));
                    last = a;
                } else {
                    stack.push(c, last, depth, limit);
                    stack.push(first, a, depth, limit);
                    first = b;
                    last = c;
                    depth += 1;
                    limit = ss_ilg(c - b);
                }
            } else {
                if (a - first) <= (c - b) {
                    stack.push(b, c, depth + 1, ss_ilg(c - b));
                    stack.push(first, a, depth, limit);
                    first = c;
                } else if (last - c) <= (c - b) {
                    stack.push(first, a, depth, limit);
                    stack.push(b, c, depth + 1, ss_ilg(c - b));
                    first = c;
                } else {
                    stack.push(first, a, depth, limit);
                    stack.push(c, last, depth, limit);
                    first = b;
                    last = c;
                    depth += 1;
                    limit = ss_ilg(c - b);
                }
            }
            proof {
                let it1 = stack.items@[items0.len() as int];
                let it2 = stack.items@[items0.len() + 1int];
                assert(stack.items@ =~= items0.push(it1).push(it2));
                lemma_intro_push(items0, it1);
                lemma_intro_push(items0.push(it1), it2);
                lemma_intro_partition(s0, d0, l0 - 1, pa - f0, pc - pb, ilg(pc - pb), last0 - pc);
            }
        } else {
            limit += 1;
            if ss_char_before(T, Td, SA, PA, first) < v {
                first = ss_partition(SA, PA, first, last, depth);
                limit = ss_ilg(last - first);
            }
            depth += 1;
            proof {
                lemma_intro_deeper(s0, d0, l0, last - first, limit as int);
            }
        }
    }
}


/// `a` and `b` agree outside `[lo1, hi1)` and `[lo2, hi2)`.
pub open spec fn same_outside2(a: Seq<Idx>, b: Seq<Idx>, lo1: int, hi1: int, lo2: int, hi2: int) -> bool {
    &&& a.len() == b.len()
    &&& forall|k: int|
        0 <= k < a.len() && !(lo1 <= k < hi1) && !(lo2 <= k < hi2) ==> #[trigger] a[k] == b[k]
}

/// Exchanges the `n` entries from `a` with the `n` entries from `b`.
pub fn ss_blockswap(SA: &mut [Idx], a: Idx, b: Idx, n: Idx)
    requires
        0 <= a,
        0 <= b,
        0 <= n,
        a + n <= old(SA)@.len(),
        b + n <= old(SA)@.len(),
        old(SA)@.len() <= i32::MAX,
    ensures
        same_outside2(final(SA)@, old(SA)@, a as int, a + n, b as int, b + n),
        a + n <= b || b + n <= a ==> forall|k: int|
            a <= k < a + n ==> #[trigger] final(SA)@[k] == old(SA)@[k - a + b],
        a + n <= b || b + n <= a ==> forall|k: int|
            b <= k < b + n ==> #[trigger] final(SA)@[k] == old(SA)@[k - b + a],
{
    let mut i: Idx = 0;
    while i < n
        invariant
            0 <= i <= n,
            0 <= a,
            0 <= b,
            a + n <= SA@.len(),
            b + n <= SA@.len(),
            SA@.len() <= i32::MAX,
            same_outside2(SA@, old(SA)@, a as int, a + n, b as int, b + n),
            a + n <= b || b + n <= a ==> forall|k: int|
                a <= k < a + i ==> #[trigger] SA@[k] == old(SA)@[k - a + b],
            a + n <= b || b + n <= a ==> forall|k: int|
                b <= k < b + i ==> #[trigger] SA@[k] == old(SA)@[k - b + a],
            a + n <= b || b + n <= a ==> forall|k: int|
                a + i <= k < a + n ==> #[trigger] SA@[k] == old(SA)@[k],
            a + n <= b || b + n <= a ==> forall|k: int|
                b + i <= k < b + n ==> #[trigger] SA@[k] == old(SA)@[k],
        decreases n - i,
    {
        sa_swap(SA, a + i, b + i);
        i += 1;
    }
}

/// Where the rotation of `[first, last)` at `middle` takes the entry that
/// ends up at `k`: the entries from `middle` on come first, then the ones
/// before `middle`.
pub open spec fn rot_source(first: int, middle: int, last: int, k: int) -> int {
    if k - first < last - middle {
        middle + (k - first)
    } else {
        k - (last - middle)
    }
}

/// Rotating `[first, last)` at `middle` keeps the entries of a range around
/// it, marks aside.
pub proof fn lemma_rotate_keeps_unmarked(
    s: Seq<Idx>,
    s2: Seq<Idx>,
    lo: int,
    hi: int,
    first: int,
    middle: int,
    last: int,
)
    requires
        0 <= lo <= first <= middle <= last <= hi <= s.len(),
        s2.len() == s.len(),
        forall|k: int| lo <= k < first ==> #[trigger] s2[k] == s[k],
        forall|k: int| last <= k < hi ==> #[trigger] s2[k] == s[k],
        forall|k: int| first <= k < last ==> #[trigger] s2[k] == s[rot_source(first, middle, last, k)],
    ensures
        unmarked_entries(s2, lo, hi) == unmarked_entries(s, lo, hi),
{
    broadcast use vstd::multiset::group_multiset_axioms;
    let f = |x: Idx| unmarked_value(x);
    let u = s.subrange(lo, hi).map_values(f);
    let w = s2.subrange(lo, hi).map_values(f);
    let u1 = u.subrange(0, first - lo);
    let u2 = u.subrange(first - lo, middle - lo);
    let u3 = u.subrange(middle - lo, last - lo);
    let u4 = u.subrange(last - lo, hi - lo);
    assert(u =~= u1 + u2 + u3 + u4);
    assert(w =~= u1 + u3 + u2 + u4);
    vstd::seq_lib::lemma_multiset_commutative(u1 + u2 + u3, u4);
    vstd::seq_lib::lemma_multiset_commutative(u1 + u2, u3);
    vstd::seq_lib::lemma_multiset_commutative(u1, u2);
    vstd::seq_lib::lemma_multiset_commutative(u1 + u3 + u2, u4);
    vstd::seq_lib::lemma_multiset_commutative(u1 + u3, u2);
    vstd::seq_lib::lemma_multiset_commutative(u1, u3);
    assert(u.to_multiset() =~= w.to_multiset());
}

/// `s` is on its way to `tg`: it agrees with `tg` outside `[first, last)`,
/// and rotating `[first, last)` at `middle` gives `tg` there.
pub open spec fn rotation_pending(
    s: Seq<Idx>,
    tg: Seq<Idx>,
    first: int,
    middle: int,
    last: int,
) -> bool {
    &&& s.len() == tg.len()
    &&& 0 <= first <= middle <= last <= s.len()
    &&& forall|k: int| 0 <= k < s.len() && !(first <= k < last) ==> #[trigger] tg[k] == s[k]
    &&& forall|k: int| first <= k < last ==> #[trigger] tg[k] == s[rot_source(first, middle, last, k)]
}

/// Rotates `[first, last)` so that the part from `middle` comes first.
pub fn ss_rotate(SA: &mut [Idx], first: Idx, middle: Idx, last: Idx)
    requires
        0 <= first <= middle <= last <= old(SA)@.len(),
        old(SA)@.len() <= i32::MAX,
    ensures
        same_outside(final(SA)@, old(SA)@, first as int, last as int),
        forall|k: int|
            first <= k < last ==> #[trigger] final(SA)@[k] == old(SA)@[rot_source(
                first as int,
                middle as int,
                last as int,
                k,
            )],
{
    let ghost lo = first as int;
    let ghost hi = last as int;
    let ghost tg = Seq::new(
        SA@.len(),
        |k: int|
            if lo <= k < hi {
                SA@[rot_source(lo, middle as int, hi, k)]
            } else {
                SA@[k]
            },
    );
    let mut first = first;
    let mut last = last;
    let mut a: Idx;
    let mut b: Idx;
    let mut t: Idx;
    let mut l: Idx = middle - first;
    let mut r: Idx = last - middle;
    // BRENDAN
    while (0 < l) && (0 < r)
        invariant
            lo <= first <= middle <= last <= hi,
            0 <= lo <= hi <= SA@.len(),
            SA@.len() <= i32::MAX,
            l == middle - first,
            r == last - middle,
            rotation_pending(SA@, tg, first as int, middle as int, last as int),
        ensures
            lo <= first <= middle <= last <= hi,
            l == 0 || r == 0,
            l == middle - first,
            r == last - middle,
            rotation_pending(SA@, tg, first as int, middle as int, last as int),
        decreases l + r,
    {
        if l == r {
            let ghost s0 = SA@;
            ss_blockswap(SA, first, middle, l);
            proof {
                assert forall|k: int| first <= k < last implies #[trigger] tg[k] == SA@[k] by {
                    if k < middle {
                        assert(SA@[k] == s0[k - first + middle]);
                    } else {
                        assert(SA@[k] == s0[k - middle + first]);
                    }
                }
                assert(rotation_pending(SA@, tg, first as int, middle as int, middle as int));
            }
            last = middle;
            r = 0;
            break;
        }
        if l < r {
            a = last - 1;
            b = middle - 1;
            t = SA[a as usize];
            let ghost mut c0 = SA@;
            // ALICE
            loop
                invariant_except_break
                    first <= b <= middle - 1,
                    a == b + r,
                    l < r,
                    r == last - middle,
                    rotation_pending(c0, tg, first as int, middle as int, last as int),
                    t == c0[last - 1],
                    SA@.len() == c0.len(),
                    forall|k: int|
                        0 <= k < SA@.len() && !(b < k < middle) && !(a < k < last) ==> #[trigger] SA@[k]
                            == c0[k],
                    forall|k: int| a < k < last ==> #[trigger] SA@[k] == c0[k - r],
                    forall|k: int| b < k < middle ==> #[trigger] SA@[k] == c0[k + r - 1],
                invariant
                    lo <= first <= middle <= last <= hi,
                    0 <= lo <= hi <= SA@.len(),
                    l == middle - first,
                    0 < l,
                ensures
                    lo <= first <= middle <= last <= hi,
                    0 <= lo <= hi <= SA@.len(),
                    l == middle - first,
                    r == last - middle,
                    0 <= r <= l,
                    rotation_pending(SA@, tg, first as int, middle as int, last as int),
                decreases a,
            {
                let tmp_v = SA[b as usize];
                SA[a as usize] = tmp_v;
                a -= 1;
                let tmp_v = SA[a as usize];
                SA[b as usize] = tmp_v;
                b -= 1;
                if b < first {
                    SA[a as usize] = t;
                    proof {
                        let s1 = SA@;
                        let nl = a as int;
                        assert(nl == last - 1 - l);
                        assert forall|k: int| 0 <= k < s1.len() && !(first <= k < nl) implies #[trigger] tg[k]
                            == s1[k] by {
                            if first <= k < last {
                                if k == nl {
                                    assert(tg[k] == c0[rot_source(first as int, middle as int, last as int, k)]);
                                } else {
                                    assert(tg[k] == c0[rot_source(first as int, middle as int, last as int, k)]);
                                    assert(s1[k] == c0[k - r]);
                                }
                            }
                        }
                        assert forall|k: int| first <= k < nl implies #[trigger] tg[k] == s1[rot_source(
                            first as int,
                            middle as int,
                            nl,
                            k,
                        )] by {
                            assert(tg[k] == c0[rot_source(first as int, middle as int, last as int, k)]);
                            if k - first < nl - middle {
                                assert(s1[middle + (k - first)] == c0[middle + (k - first)]);
                            } else {
                                assert(s1[k - (nl - middle)] == c0[k - (nl - middle) + r - 1]);
                            }
                        }
                        c0 = s1;
                    }
                    last = a;
                    r -= l + 1;
                    if r <= l {
                        break;
                    }
                    a -= 1;
                    b = middle - 1;
                    t = SA[a as usize];
                }
            }
        } else {
            a = first;
            b = middle;
            t = SA[a as usize];
            let ghost mut c0 = SA@;
            // ROBERT
            loop
                invariant_except_break
                    middle <= b < last,
                    b == a + l,
                    r < l,
                    l == middle - first,
                    first <= a,
                    rotation_pending(c0, tg, first as int, middle as int, last as int),
                    t == c0[first as int],
                    SA@.len() == c0.len(),
                    forall|k: int|
                        0 <= k < SA@.len() && !(first <= k < a) && !(middle <= k < b) ==> #[trigger] SA@[k]
                            == c0[k],
                    forall|k: int| first <= k < a ==> #[trigger] SA@[k] == c0[k + l],
                    forall|k: int| middle <= k < b ==> #[trigger] SA@[k] == c0[k - l + 1],
                invariant
                    lo <= first <= middle <= last <= hi,
                    0 <= lo <= hi <= SA@.len(),
                    r == last - middle,
                    0 < r,
                ensures
                    lo <= first <= middle <= last <= hi,
                    0 <= lo <= hi <= SA@.len(),
                    l == middle - first,
                    r == last - middle,
                    0 <= l <= r,
                    rotation_pending(SA@, tg, first as int, middle as int, last as int),
                decreases last - a,
            {
                let tmp_v = SA[b as usize];
                SA[a as usize] = tmp_v;
                a += 1;
                let tmp_v = SA[a as usize];
                SA[b as usize] = tmp_v;
                b += 1;
                if last <= b {
                    SA[a as usize] = t;
                    proof {
                        let s1 = SA@;
                        let nf = a + 1;
                        assert(a == first + r);
                        assert forall|k: int| 0 <= k < s1.len() && !(nf <= k < last) implies #[trigger] tg[k]
                            == s1[k] by {
                            if first <= k < last {
                                assert(tg[k] == c0[rot_source(first as int, middle as int, last as int, k)]);
                                if k < a {
                                    assert(s1[k] == c0[k + l]);
                                }
                            }
                        }
                        assert forall|k: int| nf <= k < last implies #[trigger] tg[k] == s1[rot_source(
                            nf,
                            middle as int,
                            last as int,
                            k,
                        )] by {
                            assert(tg[k] == c0[rot_source(first as int, middle as int, last as int, k)]);
                            if k - nf < last - middle {
                                assert(s1[middle + (k - nf)] == c0[middle + (k - nf) - l + 1]);
                            } else {
                                assert(s1[k - r] == c0[k - r]);
                            }
                        }
                        c0 = s1;
                    }
                    first = a + 1;
                    l -= r + 1;
                    if l <= r {
                        break;
                    }
                    a += 1;
                    b = middle;
                    t = SA[a as usize];
                }
            }
        }
    }
    proof {
        assert forall|k: int| first <= k < last implies #[trigger] tg[k] == SA@[k] by {
            assert(tg[k] == SA@[rot_source(first as int, middle as int, last as int, k)]);
        }
        assert forall|k: int| 0 <= k < SA@.len() implies #[trigger] tg[k] == SA@[k] by {
            if !(first <= k < last) {
            }
        }
        assert forall|k: int| lo <= k < hi implies #[trigger] SA@[k] == old(SA)@[rot_source(
            lo,
            middle as int,
            hi,
            k,
        )] by {
            assert(tg[k] == SA@[k]);
        }
        assert forall|k: int| 0 <= k < SA@.len() && !(lo <= k < hi) implies #[trigger] SA@[k]
            == old(SA)@[k] by {
            assert(tg[k] == SA@[k]);
        }
    }
}

/// The suffix start that an entry stands for, whether or not it is marked.
fn unmarked(x: Idx) -> (r: Idx)
    ensures
        r == (if x >= 0 { x as int } else { -x - 1 }),
{
    if 0 <= x {
        x
    } else {
        flip(x)
    }
}

/// Merges the sorted runs `[first, middle)` and `[middle, last)` in place.
///
/// The entries stay those there were but for their marks.
pub fn ss_inplacemerge(T: &Text, SA: &mut [Idx], PA: Idx, first: Idx, middle: Idx, last: Idx, depth: Idx)
    requires
        0 <= first <= middle < last <= old(SA)@.len(),
        old(SA)@.len() <= i32::MAX,
        T.0@.len() <= i32::MAX,
        0 <= depth,
    ensures
        same_outside(final(SA)@, old(SA)@, first as int, last as int),
        unmarked_entries(final(SA)@, first as int, last as int) == unmarked_entries(
            old(SA)@,
            first as int,
            last as int,
        ),
{
    let ghost lo = first as int;
    let ghost hi = last as int;
    let mut middle = middle;
    let mut last = last;
    let mut p: Idx;
    let mut a: Idx;
    let mut b: Idx;
    let mut len: Idx;
    let mut half: Idx;
    let mut q: Idx;
    let mut r: Idx;
    let mut x: Idx;
    // FERRIS
    loop
        invariant_except_break
            middle < last,
        invariant
            lo == first,
            0 <= first <= middle,
            last <= hi,
            0 <= lo <= hi <= SA@.len(),
            SA@.len() <= i32::MAX,
            T.0@.len() <= i32::MAX,
            0 <= depth,
            same_outside(SA@, old(SA)@, lo, hi),
            unmarked_entries(SA@, lo, hi) == unmarked_entries(old(SA)@, lo, hi),
        ensures
            same_outside(SA@, old(SA)@, lo, hi),
            unmarked_entries(SA@, lo, hi) == unmarked_entries(old(SA)@, lo, hi),
        decreases last,
    {
        let ghost last_top = last;
        let sl = SA[(last - 1) as usize];
        if sl < 0 {
            x = 1;
            p = PA.wrapping_add(flip(sl));
        } else {
            x = 0;
            p = PA.wrapping_add(sl);
        }
        // LOIS
        a = first;
        len = middle - first;
        half = len / 2;
        r = -1;
        while 0 < len
            invariant
                0 <= first <= a,
                0 <= len,
                a + len <= middle,
                half == len / 2,
                middle < last <= SA@.len(),
                SA@.len() <= i32::MAX,
                T.0@.len() <= i32::MAX,
                0 <= depth,
            decreases len,
        {
            b = a + half;
            q = ss_compare(T, SA, PA.wrapping_add(unmarked(SA[b as usize])), SA, p, depth);
            if q < 0 {
                a = b + 1;
                if len % 2 == 0 {
                    half -= 1;
                }
            } else {
                r = q;
            }
            len = half;
            half = half / 2;
        }
        if a < middle {
            if r == 0 {
                let ghost s0 = SA@;
                let tmp_v = SA[a as usize];
                SA[a as usize] = flip(tmp_v);
                proof {
                    lemma_unmarked_exchange(s0, SA@, lo, hi, a as int, a as int);
                }
            }
            let ghost s1 = SA@;
            ss_rotate(SA, a, middle, last);
            proof {
                lemma_rotate_keeps_unmarked(s1, SA@, lo, hi, a as int, middle as int, last as int);
            }
            last -= middle - a;
            middle = a;
            if first == middle {
                break;
            }
        }
        last -= 1;
        if x != 0 {
            // TIMMY
            last -= 1;
            while middle < last && SA[last as usize] < 0
                invariant
                    0 <= first <= middle,
                    middle - 2 <= last,
                    last < last_top,
                    last < hi,
                    0 <= lo <= hi <= SA@.len(),
                decreases last - middle + 2,
            {
                last -= 1;
            }
        }
        if middle >= last {
            break;
        }
    }
}

/// Merge-forward with internal buffer
pub fn ss_mergeforward(
    T: &Text,
    SA: &mut [Idx],
    PA: Idx,
    first: Idx,
    middle: Idx,
    last: Idx,
    buf: Idx,
    depth: Idx,
)
    requires
        0 <= first < middle < last <= old(SA)@.len(),
        0 <= buf,
        buf + (middle - first) <= old(SA)@.len(),
        old(SA)@.len() <= i32::MAX,
        T.0@.len() <= i32::MAX,
        0 <= depth,
    ensures
        same_outside2(
            final(SA)@,
            old(SA)@,
            first as int,
            last as int,
            buf as int,
            buf + (middle - first),
        ),
{
    let ghost lo2 = buf as int;
    let ghost hi2 = buf + (middle - first);
    let mut a: Idx;
    let mut b: Idx;
    let mut c: Idx;
    let mut t: Idx;
    let mut r: Idx;
    let bufend: Idx = buf + (middle - first) - 1;
    ss_blockswap(SA, buf, first, middle - first);
    // IGNACE
    a = first;
    t = SA[a as usize];
    b = buf;
    c = middle;
    loop
        invariant
            0 <= first < middle < last <= SA@.len(),
            SA@.len() <= i32::MAX,
            T.0@.len() <= i32::MAX,
            0 <= depth,
            bufend == hi2 - 1,
            lo2 <= b <= bufend,
            middle <= c < last,
            a - first == (b - buf) + (c - middle),
            buf == lo2,
            0 <= buf,
            hi2 - lo2 == middle - first,
            hi2 <= SA@.len(),
            same_outside2(SA@, old(SA)@, first as int, last as int, lo2, hi2),
        decreases (bufend - b) + (last - c),
    {
        let ghost b_top = b;
        let ghost c_top = c;
        r = ss_compare(
            T,
            SA,
            PA.wrapping_add(SA[b as usize]),
            SA,
            PA.wrapping_add(SA[c as usize]),
            depth,
        );
        if r < 0 {
            // RONALD
            loop
                invariant
                    0 <= first < middle < last <= SA@.len(),
                    bufend == hi2 - 1,
                    lo2 <= b <= bufend,
                    middle <= c < last,
                    a - first == (b - buf) + (c - middle),
                    b_top <= b,
                    c_top <= c,
                    buf == lo2,
                    0 <= buf,
                    hi2 - lo2 == middle - first,
                    hi2 <= SA@.len(),
                    same_outside2(SA@, old(SA)@, first as int, last as int, lo2, hi2),
                ensures
                    lo2 < b <= bufend,
                    b_top < b,
                    c_top <= c,
                    middle <= c < last,
                    a - first == (b - buf) + (c - middle),
                    same_outside2(SA@, old(SA)@, first as int, last as int, lo2, hi2),
                decreases bufend - b,
            {
                let tmp_v = SA[b as usize];
                SA[a as usize] = tmp_v;
                a += 1;
                if bufend <= b {
                    SA[bufend as usize] = t;
                    return;
                }
                let tmp_v = SA[a as usize];
                SA[b as usize] = tmp_v;
                b += 1;
                if !(SA[b as usize] < 0) {
                    break;
                }
            }
        } else if r > 0 {
            // JEREMY
            loop
                invariant
                    0 <= first < middle < last <= SA@.len(),
                    bufend == hi2 - 1,
                    lo2 <= b <= bufend,
                    middle <= c < last,
                    a - first == (b - buf) + (c - middle),
                    b_top <= b,
                    c_top <= c,
                    buf == lo2,
                    0 <= buf,
                    hi2 - lo2 == middle - first,
                    hi2 <= SA@.len(),
                    same_outside2(SA@, old(SA)@, first as int, last as int, lo2, hi2),
                ensures
                    lo2 <= b <= bufend,
                    middle < c < last,
                    b_top <= b,
                    c_top < c,
                    a - first == (b - buf) + (c - middle),
                    same_outside2(SA@, old(SA)@, first as int, last as int, lo2, hi2),
                decreases last - c,
            {
                let tmp_v = SA[c as usize];
                SA[a as usize] = tmp_v;
                a += 1;
                let tmp_v = SA[a as usize];
                SA[c as usize] = tmp_v;
                c += 1;
                if last <= c {
                    // TONY
                    while b < bufend
                        invariant
                            0 <= first < middle < last <= SA@.len(),
                            bufend == hi2 - 1,
                            lo2 <= b <= bufend,
                            a - first == (b - buf) + (last - middle),
                            buf == lo2,
                            0 <= buf,
                            hi2 - lo2 == middle - first,
                            hi2 <= SA@.len(),
                            same_outside2(SA@, old(SA)@, first as int, last as int, lo2, hi2),
                        decreases bufend - b,
                    {
                        let tmp_v = SA[b as usize];
                        SA[a as usize] = tmp_v;
                        a += 1;
                        let tmp_v = SA[a as usize];
                        SA[b as usize] = tmp_v;
                        b += 1;
                    }
                    let tmp_v = SA[b as usize];
                    SA[a as usize] = tmp_v;
                    SA[b as usize] = t;
                    return;
                }
                if !(SA[c as usize] < 0) {
                    break;
                }
            }
        } else {
            let tmp_v = SA[c as usize];
            SA[c as usize] = flip(tmp_v);
            // JENS
            loop
                invariant
                    0 <= first < middle < last <= SA@.len(),
                    bufend == hi2 - 1,
                    lo2 <= b <= bufend,
                    middle <= c < last,
                    a - first == (b - buf) + (c - middle),
                    b_top <= b,
                    c_top <= c,
                    buf == lo2,
                    0 <= buf,
                    hi2 - lo2 == middle - first,
                    hi2 <= SA@.len(),
                    same_outside2(SA@, old(SA)@, first as int, last as int, lo2, hi2),
                ensures
                    lo2 < b <= bufend,
                    b_top < b,
                    c_top <= c,
                    middle <= c < last,
                    a - first == (b - buf) + (c - middle),
                    same_outside2(SA@, old(SA)@, first as int, last as int, lo2, hi2),
                decreases bufend - b,
            {
                let tmp_v = SA[b as usize];
                SA[a as usize] = tmp_v;
                a += 1;
                if bufend <= b {
                    SA[bufend as usize] = t;
                    return;
                }
                let tmp_v = SA[a as usize];
                SA[b as usize] = tmp_v;
                b += 1;
                if !(SA[b as usize] < 0) {
                    break;
                }
            }
            // DIMITER
            loop
                invariant
                    0 <= first < middle < last <= SA@.len(),
                    bufend == hi2 - 1,
                    lo2 <= b <= bufend,
                    middle <= c < last,
                    a - first == (b - buf) + (c - middle),
                    b_top <= b,
                    c_top <= c,
                    buf == lo2,
                    0 <= buf,
                    hi2 - lo2 == middle - first,
                    hi2 <= SA@.len(),
                    same_outside2(SA@, old(SA)@, first as int, last as int, lo2, hi2),
                ensures
                    lo2 <= b <= bufend,
                    middle < c < last,
                    b_top <= b,
                    c_top < c,
                    a - first == (b - buf) + (c - middle),
                    same_outside2(SA@, old(SA)@, first as int, last as int, lo2, hi2),
                decreases last - c,
            {
                let tmp_v = SA[c as usize];
                SA[a as usize] = tmp_v;
                a += 1;
                let tmp_v = SA[a as usize];
                SA[c as usize] = tmp_v;
                c += 1;
                if last <= c {
                    // MIDORI
                    while b < bufend
                        invariant
                            0 <= first < middle < last <= SA@.len(),
                            bufend == hi2 - 1,
                            lo2 <= b <= bufend,
                            a - first == (b - buf) + (last - middle),
                            buf == lo2,
                            0 <= buf,
                            hi2 - lo2 == middle - first,
                            hi2 <= SA@.len(),
                            same_outside2(SA@, old(SA)@, first as int, last as int, lo2, hi2),
                        decreases bufend - b,
                    {
                        let tmp_v = SA[b as usize];
                        SA[a as usize] = tmp_v;
                        a += 1;
                        let tmp_v = SA[a as usize];
                        SA[b as usize] = tmp_v;
                        b += 1;
                    }
                    let tmp_v = SA[b as usize];
                    SA[a as usize] = tmp_v;
                    SA[b as usize] = t;
                    return;
                }
                if !(SA[c as usize] < 0) {
                    break;
                }
            }
        }
    }
}


const sqq_table: [Idx; 256] = [
  0,  16,  22,  27,  32,  35,  39,  42,  45,  48,  50,  53,  55,  57,  59,  61,
 64,  65,  67,  69,  71,  73,  75,  76,  78,  80,  81,  83,  84,  86,  87,  89,
 90,  91,  93,  94,  96,  97,  98,  99, 101, 102, 103, 104, 106, 107, 108, 109,
110, 112, 113, 114, 115, 116, 117, 118, 119, 120, 121, 122, 123, 124, 125, 126,
128, 128, 129, 130, 131, 132, 133, 134, 135, 136, 137, 138, 139, 140, 141, 142,
143, 144, 144, 145, 146, 147, 148, 149, 150, 150, 151, 152, 153, 154, 155, 155,
156, 157, 158, 159, 160, 160, 161, 162, 163, 163, 164, 165, 166, 167, 167, 168,
169, 170, 170, 171, 172, 173, 173, 174, 175, 176, 176, 177, 178, 178, 179, 180,
181, 181, 182, 183, 183, 184, 185, 185, 186, 187, 187, 188, 189, 189, 190, 191,
192, 192, 193, 193, 194, 195, 195, 196, 197, 197, 198, 199, 199, 200, 201, 201,
202, 203, 203, 204, 204, 205, 206, 206, 207, 208, 208, 209, 209, 210, 211, 211,
212, 212, 213, 214, 214, 215, 215, 216, 217, 217, 218, 218, 219, 219, 220, 221,
221, 222, 222, 223, 224, 224, 225, 225, 226, 226, 227, 227, 228, 229, 229, 230,
230, 231, 231, 232, 232, 233, 234, 234, 235, 235, 236, 236, 237, 237, 238, 238,
239, 240, 240, 241, 241, 242, 242, 243, 243, 244, 244, 245, 245, 246, 246, 247,
247, 248, 248, 249, 249, 250, 250, 251, 251, 252, 252, 253, 253, 254, 254, 255
];

/// `y * y`, for `y` small enough that it fits.
fn square(y: Idx) -> (r: Idx)
    requires
        0 <= y <= 2601,
    ensures
        r == y * y,
{
    assert(0 <= y * y <= 6765201) by (nonlinear_arith)
        requires
            0 <= y <= 2601,
    ;
    y * y
}

/// Fast sqrt, using lookup tables: `SS_BLOCKSIZE` for `x` of at least
/// `SS_BLOCKSIZE * SS_BLOCKSIZE`, the floor of the square root below that.
pub fn ss_isqrt(x: Idx) -> (r: Idx)
    requires
        0 <= x,
    ensures
        x >= 1048576 ==> r == 1024,
        x < 1048576 ==> 0 <= r && r * r <= x < (r + 1) * (r + 1),
        0 <= r <= x,
{
    let mut y: Idx;
    let e: Idx;
    if x >= (SS_BLOCKSIZE * SS_BLOCKSIZE) {
        return SS_BLOCKSIZE;
    }
    assert(((x & !0xffff) > 0 <==> x >= 65536) && (x & !0xffffff) == 0 && 0 <= ((x >> 16)
        & 0xff) < 16 && (x >= 65536 ==> ((x >> 16) & 0xff) >= 1) && 0 <= ((x >> 24) & 0xff) < 256
        && (x < 65536 ==> (((x & 0xff00) > 0 <==> x >= 256) && 0 <= ((x >> 8) & 0xff) < 256 && (x
        >= 256 ==> ((x >> 8) & 0xff) >= 1))) && (x < 256 ==> (x >> 0) & 0xff == x)) by (bit_vector)
        requires
            0 <= x < 1048576,
    ;
    e = if (x & !0xffff) > 0 {
        if (x & !0xffffff) > 0 {
            24 + lg_table((x >> 24) & 0xff)
        } else {
            let l = lg_table((x >> 16) & 0xff);
            let e0: Idx = 16 + l;
            assert({
                let e = e0;
                let sh = (e - 6) - (e & 1);
                &&& 0 <= sh < 32
                &&& 64 <= (x >> (sh as u32)) < 256
                &&& 1 <= (e >> 1) - 7 <= 2
            }) by (bit_vector)
                requires
                    65536 <= x < 1048576,
                    0 <= l <= 3,
                    e0 == 16 + l,
                    l == 0 ==> ((x >> 16) & 0xff) == 1,
                    l == 1 ==> 2 <= ((x >> 16) & 0xff) < 4,
                    l == 2 ==> 4 <= ((x >> 16) & 0xff) < 8,
                    l == 3 ==> 8 <= ((x >> 16) & 0xff) < 16,
            ;
            e0
        }
    } else {
        if (x & 0xff00) > 0 {
            let l = lg_table((x >> 8) & 0xff);
            let e0: Idx = 8 + l;
            assert({
                let e = e0;
                let sh = (e - 6) - (e & 1);
                &&& 0 <= sh < 32
                &&& 0 <= (x >> (sh as u32)) < 256
                &&& 0 <= 7 - (e >> 1) <= 3
            }) by (bit_vector)
                requires
                    256 <= x < 65536,
                    0 <= l <= 7,
                    e0 == 8 + l,
                    l == 0 ==> ((x >> 8) & 0xff) == 1,
                    l == 1 ==> 2 <= ((x >> 8) & 0xff) < 4,
                    l == 2 ==> 4 <= ((x >> 8) & 0xff) < 8,
                    l == 3 ==> 8 <= ((x >> 8) & 0xff) < 16,
                    l == 4 ==> 16 <= ((x >> 8) & 0xff) < 32,
                    l == 5 ==> 32 <= ((x >> 8) & 0xff) < 64,
                    l == 6 ==> 64 <= ((x >> 8) & 0xff) < 128,
                    l == 7 ==> 128 <= ((x >> 8) & 0xff) < 256,
            ;
            e0
        } else {
            0 + lg_table((x >> 0) & 0xff)
        }
    };
    if e >= 16 {
        let sh = (e - 6) - (e & 1);
        let v = sqq_table[(x >> (sh as u32)) as usize];
        let k = (e >> 1) - 7;
        assert(128 <= v <= 255);
        assert(128 <= v <= 255 && 1 <= k <= 2 ==> 256 <= (v << (k as u32)) <= 1020) by (bit_vector);
        y = v << (k as u32);
        assert(0 <= x / y <= 4096) by (nonlinear_arith)
            requires
                256 <= y,
                0 <= x < 1048576,
        ;
        if e >= 24 {
            y = (y + 1 + x / y) >> 1;
        }
        let z = y + 1 + x / y;
        assert(0 <= z < 65536 ==> (z >> 1) == z / 2) by (bit_vector);
        y = z >> 1;
    } else if e >= 8 {
        let sh = (e - 6) - (e & 1);
        let v = sqq_table[(x >> (sh as u32)) as usize];
        let k = 7 - (e >> 1);
        assert(0 <= v <= 255 && 0 <= k <= 3 ==> 0 <= (v >> (k as u32)) <= v) by (bit_vector);
        y = (v >> (k as u32)) + 1;
    } else {
        let v = sqq_table[x as usize];
        assert(0 <= v <= 255 ==> (v >> 4) == v / 16) by (bit_vector);
        y = v >> 4;
    }
    assert(0 <= y <= 2600);
    // the estimate is brought to the floor of the square root
    while y > 0 && x < square(y)
        invariant
            0 <= y <= 2600,
            0 <= x < 1048576,
        decreases y,
    {
        assert(0 <= y * y <= 6760000) by (nonlinear_arith)
            requires
                0 <= y <= 2600,
        ;
        y = y - 1;
    }
    assert(0 <= y * y <= x) by (nonlinear_arith)
        requires
            0 <= y <= 2600,
            0 <= x,
            y == 0 || !(x < y * y),
    ;
    while square(y + 1) <= x
        invariant
            0 <= y <= 2600,
            0 <= x < 1048576,
            y * y <= x,
        decreases 2600 - y,
    {
        assert(y + 1 <= 1024) by (nonlinear_arith)
            requires
                0 <= y,
                (y + 1) * (y + 1) <= x,
                x < 1048576,
        ;
        y = y + 1;
    }
    assert(y <= x) by (nonlinear_arith)
        requires
            0 <= y,
            y * y <= x,
    ;
    y
}


/// The suffix position stored in an entry, offset by `PA`, and whether the
/// entry was marked.
fn ss_entry_pos(PA: Idx, v: Idx) -> (r: (Idx, bool))
    ensures
        r.1 == (v < 0),
{
    if v < 0 {
        (PA.wrapping_add(flip(v)), true)
    } else {
        (PA.wrapping_add(v), false)
    }
}

/// Merge-backward with internal buffer
#[verifier::rlimit(80)]
#[verifier::spinoff_prover]
pub fn ss_mergebackward(
    T: &Text,
    SA: &mut [Idx],
    PA: Idx,
    first: Idx,
    middle: Idx,
    last: Idx,
    buf: Idx,
    depth: Idx,
)
    requires
        0 <= first < middle < last <= old(SA)@.len(),
        0 <= buf,
        buf + (last - middle) <= old(SA)@.len(),
        old(SA)@.len() <= i32::MAX,
        T.0@.len() <= i32::MAX,
        0 <= depth,
    ensures
        same_outside2(
            final(SA)@,
            old(SA)@,
            first as int,
            last as int,
            buf as int,
            buf + (last - middle),
        ),
{
    let ghost lo2 = buf as int;
    let ghost hi2 = buf + (last - middle);
    let mut p1: Idx;
    let mut p2: Idx;
    let mut a: Idx;
    let mut b: Idx;
    let mut c: Idx;
    let mut t: Idx;
    let mut r: Idx;
    let mut x: Idx;
    let bufend: Idx = buf + (last - middle) - 1;
    ss_blockswap(SA, buf, middle, last - middle);
    x = 0;
    let (q1, m1) = ss_entry_pos(PA, SA[bufend as usize]);
    p1 = q1;
    if m1 {
        x |= 1;
    }
    let (q2, m2) = ss_entry_pos(PA, SA[(middle - 1) as usize]);
    p2 = q2;
    if m2 {
        x |= 2;
    }
    // MARTIN
    a = last - 1;
    t = SA[a as usize];
    b = bufend;
    c = middle - 1;
    loop
        invariant_except_break
            0 <= first < middle < last <= SA@.len(),
            SA@.len() <= i32::MAX,
            T.0@.len() <= i32::MAX,
            0 <= depth,
            0 <= buf,
            buf == lo2,
            hi2 - lo2 == last - middle,
            bufend == hi2 - 1,
            hi2 <= SA@.len(),
            buf <= b <= bufend,
            first <= c <= middle - 1,
            a == c + 1 + (b - buf),
            a <= last - 1,
        invariant
            same_outside2(SA@, old(SA)@, first as int, last as int, lo2, hi2),
        ensures
            same_outside2(SA@, old(SA)@, first as int, last as int, lo2, hi2),
        decreases a,
    {
        let ghost a_top = a;
        r = ss_compare(T, SA, p1, SA, p2, depth);
        if 0 < r {
            if x & 1 > 0 {
                // BAPTIST
                while buf < b
                    invariant
                        0 <= first < middle < last <= SA@.len(),
                        0 <= buf,
                        buf == lo2,
                        hi2 <= SA@.len(),
                        buf <= b <= bufend,
                        bufend == hi2 - 1,
                        first <= c <= middle - 1,
                        a == c + 1 + (b - buf),
                        a <= a_top,
                        a <= last - 1,
                        same_outside2(SA@, old(SA)@, first as int, last as int, lo2, hi2),
                    decreases b,
                {
                    let tmp_v = SA[b as usize];
                    SA[a as usize] = tmp_v;
                    a -= 1;
                    let tmp_v = SA[a as usize];
                    SA[b as usize] = tmp_v;
                    b -= 1;
                    if !(SA[b as usize] < 0) {
                        break;
                    }
                }
                x ^= 1;
            }
            let tmp_v = SA[b as usize];
            SA[a as usize] = tmp_v;
            a -= 1;
            if b <= buf {
                SA[buf as usize] = t;
                break;
            }
            let tmp_v = SA[a as usize];
            SA[b as usize] = tmp_v;
            b -= 1;
            let (q, mk) = ss_entry_pos(PA, SA[b as usize]);
            p1 = q;
            if mk {
                x |= 1;
            }
        } else if r < 0 {
            if (x & 2) > 0 {
                // JULES
                while first < c
                    invariant
                        0 <= first < middle < last <= SA@.len(),
                        0 <= buf,
                        buf == lo2,
                        hi2 <= SA@.len(),
                        buf <= b <= bufend,
                        bufend == hi2 - 1,
                        first <= c <= middle - 1,
                        a == c + 1 + (b - buf),
                        a <= a_top,
                        a <= last - 1,
                        same_outside2(SA@, old(SA)@, first as int, last as int, lo2, hi2),
                    decreases c,
                {
                    let tmp_v = SA[c as usize];
                    SA[a as usize] = tmp_v;
                    a -= 1;
                    let tmp_v = SA[a as usize];
                    SA[c as usize] = tmp_v;
                    c -= 1;
                    if !(SA[c as usize] < 0) {
                        break;
                    }
                }
                x ^= 2;
            }
            let tmp_v = SA[c as usize];
            SA[a as usize] = tmp_v;
            a -= 1;
            let tmp_v = SA[a as usize];
            SA[c as usize] = tmp_v;
            c -= 1;
            if c < first {
                // GARAMOND
                while buf < b
                    invariant
                        0 <= first < middle < last <= SA@.len(),
                        0 <= buf,
                        buf == lo2,
                        hi2 <= SA@.len(),
                        buf <= b <= bufend,
                        bufend == hi2 - 1,
                        c == first - 1,
                        a == c + 1 + (b - buf),
                        a <= a_top,
                        a <= last - 1,
                        same_outside2(SA@, old(SA)@, first as int, last as int, lo2, hi2),
                    decreases b,
                {
                    let tmp_v = SA[b as usize];
                    SA[a as usize] = tmp_v;
                    a -= 1;
                    let tmp_v = SA[a as usize];
                    SA[b as usize] = tmp_v;
                    b -= 1;
                }
                let tmp_v = SA[b as usize];
                SA[a as usize] = tmp_v;
                SA[b as usize] = t;
                break;
            }
            let (q, mk) = ss_entry_pos(PA, SA[c as usize]);
            p2 = q;
            if mk {
                x |= 2;
            }
        } else {
            if (x & 1) > 0 {
                // XAVIER
                while buf < b
                    invariant
                        0 <= first < middle < last <= SA@.len(),
                        0 <= buf,
                        buf == lo2,
                        hi2 <= SA@.len(),
                        buf <= b <= bufend,
                        bufend == hi2 - 1,
                        first <= c <= middle - 1,
                        a == c + 1 + (b - buf),
                        a <= a_top,
                        a <= last - 1,
                        same_outside2(SA@, old(SA)@, first as int, last as int, lo2, hi2),
                    decreases b,
                {
                    let tmp_v = SA[b as usize];
                    SA[a as usize] = tmp_v;
                    a -= 1;
                    let tmp_v = SA[a as usize];
                    SA[b as usize] = tmp_v;
                    b -= 1;
                    if !(SA[b as usize] < 0) {
                        break;
                    }
                }
                x ^= 1;
            }
            let tmp_v = SA[b as usize];
            SA[a as usize] = flip(tmp_v);
            a -= 1;
            if b <= buf {
                SA[buf as usize] = t;
                break;
            }
            let tmp_v = SA[a as usize];
            SA[b as usize] = tmp_v;
            b -= 1;
            if (x & 2) > 0 {
                // WALTER
                while first < c
                    invariant
                        0 <= first < middle < last <= SA@.len(),
                        0 <= buf,
                        buf == lo2,
                        hi2 <= SA@.len(),
                        buf <= b <= bufend,
                        bufend == hi2 - 1,
                        first <= c <= middle - 1,
                        a == c + 1 + (b - buf),
                        a <= a_top,
                        a <= last - 1,
                        same_outside2(SA@, old(SA)@, first as int, last as int, lo2, hi2),
                    decreases c,
                {
                    let tmp_v = SA[c as usize];
                    SA[a as usize] = tmp_v;
                    a -= 1;
                    let tmp_v = SA[a as usize];
                    SA[c as usize] = tmp_v;
                    c -= 1;
                    if !(SA[c as usize] < 0) {
                        break;
                    }
                }
                x ^= 2;
            }
            let tmp_v = SA[c as usize];
            SA[a as usize] = tmp_v;
            a -= 1;
            let tmp_v = SA[a as usize];
            SA[c as usize] = tmp_v;
            c -= 1;
            if c < first {
                // ZENITH
                while buf < b
                    invariant
                        0 <= first < middle < last <= SA@.len(),
                        0 <= buf,
                        buf == lo2,
                        hi2 <= SA@.len(),
                        buf <= b <= bufend,
                        bufend == hi2 - 1,
                        c == first - 1,
                        a == c + 1 + (b - buf),
                        a <= a_top,
                        a <= last - 1,
                        same_outside2(SA@, old(SA)@, first as int, last as int, lo2, hi2),
                    decreases b,
                {
                    let tmp_v = SA[b as usize];
                    SA[a as usize] = tmp_v;
                    a -= 1;
                    let tmp_v = SA[a as usize];
                    SA[b as usize] = tmp_v;
                    b -= 1;
                }
                let tmp_v = SA[b as usize];
                SA[a as usize] = tmp_v;
                SA[b as usize] = t;
                break;
            }
            let (q, mk) = ss_entry_pos(PA, SA[b as usize]);
            p1 = q;
            if mk {
                x |= 1;
            }
            let (q, mk) = ss_entry_pos(PA, SA[c as usize]);
            p2 = q;
            if mk {
                x |= 2;
            }
        }
    }
}


#[derive(Clone, Copy)]
struct MergeStackItem {
    a: Idx,
    b: Idx,
    c: Idx,
    d: Idx,
}

/// `3` to the power `k` (1 for `k` not positive).
pub(crate) open spec fn pow3(k: int) -> nat
    decreases k,
{
    if k <= 0 {
        1
    } else {
        3 * pow3(k - 1)
    }
}

pub(crate) proof fn lemma_pow3_pos(k: int)
    ensures
        pow3(k) >= 1,
    decreases k,
{
    if k > 0 {
        lemma_pow3_pos(k - 1);
    }
}

pub(crate) proof fn lemma_pow3_mono(p: int, q: int)
    requires
        p <= q,
    ensures
        pow3(p) <= pow3(q),
    decreases q - p,
{
    if p < q {
        lemma_pow3_mono(p, q - 1);
        if q > 0 {
            assert(pow3(q) == 3 * pow3(q - 1));
        }
    }
}

/// How much merging the items left for later may still take: three to the
/// power of each one's length, summed.
spec fn merge_weight(items: Seq<MergeStackItem>) -> nat
    decreases items.len(),
{
    if items.len() == 0 {
        0
    } else {
        merge_weight(items.drop_last()) + pow3(items.last().c - items.last().a)
    }
}

/// Splitting a merge of length `s` into two of at most `s - 1` each, one of
/// them left for later, lowers the weight of what is left to do.
proof fn lemma_merge_split(items: Seq<MergeStackItem>, it: MergeStackItem, x: int, s: int)
    requires
        it.c - it.a <= s - 1,
        x <= s - 1,
        1 <= s,
    ensures
        merge_weight(items.push(it)) + pow3(x) < merge_weight(items) + pow3(s),
{
    assert(items.push(it).drop_last() =~= items);
    lemma_pow3_mono(it.c - it.a, s - 1);
    lemma_pow3_mono(x, s - 1);
    assert(pow3(s) == 3 * pow3(s - 1));
    lemma_pow3_pos(s - 1);
}

/// Merges left for later: `[a, b)` and `[b, c)` with the check flags `d`.
struct MergeStack {
    items: Vec<MergeStackItem>,
}

impl MergeStack {
    fn new() -> (r: Self)
        ensures
            r.items@.len() == 0,
    {
        MergeStack { items: Vec::new() }
    }

    fn push(&mut self, a: Idx, b: Idx, c: Idx, d: Idx)
        ensures
            final(self).items@ == old(self).items@.push(MergeStackItem { a, b, c, d }),
    {
        self.items.push(MergeStackItem { a, b, c, d });
    }

    fn pop(&mut self, a: &mut Idx, b: &mut Idx, c: &mut Idx, d: &mut Idx) -> (r: Result<(), ()>)
        ensures
            old(self).items@.len() == 0 ==> {
                &&& r is Err
                &&& final(self).items@ == old(self).items@
                &&& *final(a) == *old(a)
                &&& *final(b) == *old(b)
                &&& *final(c) == *old(c)
                &&& *final(d) == *old(d)
            },
            old(self).items@.len() > 0 ==> {
                let it = old(self).items@.last();
                &&& r is Ok
                &&& final(self).items@ == old(self).items@.drop_last()
                &&& *final(a) == it.a
                &&& *final(b) == it.b
                &&& *final(c) == it.c
                &&& *final(d) == it.d
            },
    {
        match self.items.pop() {
            None => Err(()),
            Some(it) => {
                *a = it.a;
                *b = it.b;
                *c = it.c;
                *d = it.d;
                Ok(())
            },
        }
    }
}

/// Every merge waiting on the stack names runs inside `[0, n]`.
spec fn merge_stack_ok(items: Seq<MergeStackItem>, n: int) -> bool {
    forall|k: int|
        0 <= k < items.len() ==> {
            let it = #[trigger] items[k];
            0 <= it.a <= it.b <= it.c <= n
        }
}

/// After a merge: marks the entry at `a` when asked to (bit 1) or when it
/// equals the entry before it (bit 2), and the entry at `b` when it equals
/// the entry before it (bit 4).
/// The entry before `i` (unmarked) and the entry at `i` start substrings
/// that lie in the text.
pub open spec fn neighbours_in_text(t: Seq<u8>, s: Seq<Idx>, PA: Idx, i: Idx, depth: Idx) -> bool {
    let p1 = PA.wrapping_add(unmarked_value(at(s, i.wrapping_sub(1) as int)));
    let p2 = PA.wrapping_add(at(s, i as int));
    ss_in_text(t, s, p1 as int, depth as int) && ss_in_text(t, s, p2 as int, depth as int)
}

/// The entry before `i` (unmarked) and the entry at `i` start equal substrings.
pub open spec fn same_as_before(t: Seq<u8>, s: Seq<Idx>, PA: Idx, i: Idx, depth: Idx) -> bool {
    let p1 = PA.wrapping_add(unmarked_value(at(s, i.wrapping_sub(1) as int)));
    let p2 = PA.wrapping_add(at(s, i as int));
    ss_substring(t, s, p1 as int, depth as int) == ss_substring(t, s, p2 as int, depth as int)
}

/// An entry with its mark removed.
pub open spec fn unmarked_value(x: Idx) -> Idx {
    if x >= 0 {
        x
    } else {
        (-x - 1) as Idx
    }
}

/// The entries of `[lo, hi)` of `s` with their marks removed, counted with
/// their multiplicity.
pub closed spec fn unmarked_entries(s: Seq<Idx>, lo: int, hi: int) -> Multiset<Idx> {
    s.subrange(lo, hi).map_values(|x: Idx| unmarked_value(x)).to_multiset()
}

/// An entry of a range is, but for its mark, an entry somewhere in any range
/// that holds the same entries but for their marks.
pub proof fn lemma_unmarked_entry_from(s: Seq<Idx>, t: Seq<Idx>, lo: int, hi: int, k: int) -> (j: int)
    requires
        0 <= lo <= k < hi <= s.len(),
        hi <= t.len(),
        unmarked_entries(s, lo, hi) == unmarked_entries(t, lo, hi),
    ensures
        lo <= j < hi,
        unmarked_value(t[j]) == unmarked_value(s[k]),
{
    let f = |x: Idx| unmarked_value(x);
    let u = s.subrange(lo, hi).map_values(f);
    let w = t.subrange(lo, hi).map_values(f);
    let v = unmarked_value(s[k]);
    assert(u[k - lo] == v);
    assert(u.contains(v));
    vstd::seq_lib::to_multiset_contains(u, v);
    vstd::seq_lib::to_multiset_contains(w, v);
    let x = choose|x: int| 0 <= x < w.len() && w[x] == v;
    assert(w[x] == unmarked_value(t[lo + x]));
    lo + x
}

/// Moving the entry at `i` on to `j`, shifting those of `(i, j]` down by
/// one and marking or unmarking entries after `j`, keeps the entries of
/// `[lo, hi)` but for their marks.
pub proof fn lemma_move_on_keeps_unmarked(p: Seq<Idx>, s: Seq<Idx>, lo: int, i: int, j: int, hi: int)
    requires
        0 <= lo <= i <= j < hi <= p.len(),
        s.len() == p.len(),
        forall|k: int| lo <= k < i ==> #[trigger] s[k] == p[k],
        forall|k: int| i <= k < j ==> #[trigger] s[k] == p[k + 1],
        s[j] == p[i],
        forall|k: int| j < k < hi ==> unmarked_value(#[trigger] s[k]) == unmarked_value(p[k]),
    ensures
        unmarked_entries(s, lo, hi) == unmarked_entries(p, lo, hi),
{
    broadcast use vstd::multiset::group_multiset_axioms;
    let f = |x: Idx| unmarked_value(x);
    let u = p.subrange(lo, hi).map_values(f);
    let w = s.subrange(lo, hi).map_values(f);
    let u1 = u.subrange(0, i - lo);
    let u3 = u.subrange(i - lo, i - lo + 1);
    let u2 = u.subrange(i - lo + 1, j - lo + 1);
    let u4 = u.subrange(j - lo + 1, hi - lo);
    let w1 = w.subrange(0, i - lo);
    let w2 = w.subrange(i - lo, j - lo);
    let w3 = w.subrange(j - lo, j - lo + 1);
    let w4 = w.subrange(j - lo + 1, hi - lo);
    assert(u =~= u1 + u3 + u2 + u4);
    assert(w =~= w1 + w2 + w3 + w4);
    assert(w1 =~= u1);
    assert(w3 =~= u3);
    assert(w2 =~= u2);
    assert(w4 =~= u4);
    vstd::seq_lib::lemma_multiset_commutative(u1 + u2 + u3, u4);
    vstd::seq_lib::lemma_multiset_commutative(u1 + u2, u3);
    vstd::seq_lib::lemma_multiset_commutative(u1, u2);
    vstd::seq_lib::lemma_multiset_commutative(u1 + u3 + u2, u4);
    vstd::seq_lib::lemma_multiset_commutative(u1 + u3, u2);
    vstd::seq_lib::lemma_multiset_commutative(u1, u3);
    assert(u.to_multiset() =~= w.to_multiset());
}

/// Moving the entry at `a` back to `j`, shifting those of `[j, a)` up by
/// one and marking or unmarking entries before `j`, keeps the entries of
/// `[lo, hi)` but for their marks.
pub proof fn lemma_insert_keeps_unmarked(p: Seq<Idx>, s: Seq<Idx>, lo: int, j: int, a: int, hi: int)
    requires
        0 <= lo <= j <= a < hi <= p.len(),
        s.len() == p.len(),
        forall|k: int| lo <= k < j ==> unmarked_value(#[trigger] s[k]) == unmarked_value(p[k]),
        s[j] == p[a],
        forall|k: int| j < k <= a ==> #[trigger] s[k] == p[k - 1],
        forall|k: int| a < k < hi ==> #[trigger] s[k] == p[k],
    ensures
        unmarked_entries(s, lo, hi) == unmarked_entries(p, lo, hi),
{
    broadcast use vstd::multiset::group_multiset_axioms;
    let f = |x: Idx| unmarked_value(x);
    let u = p.subrange(lo, hi).map_values(f);
    let w = s.subrange(lo, hi).map_values(f);
    let u1 = u.subrange(0, j - lo);
    let u2 = u.subrange(j - lo, a - lo);
    let u3 = u.subrange(a - lo, a - lo + 1);
    let u4 = u.subrange(a - lo + 1, hi - lo);
    let w1 = w.subrange(0, j - lo);
    let w3 = w.subrange(j - lo, j - lo + 1);
    let w2 = w.subrange(j - lo + 1, a - lo + 1);
    let w4 = w.subrange(a - lo + 1, hi - lo);
    assert(u =~= u1 + u2 + u3 + u4);
    assert(w =~= w1 + w3 + w2 + w4);
    assert(w1 =~= u1);
    assert(w3 =~= u3);
    assert(w2 =~= u2);
    assert(w4 =~= u4);
    vstd::seq_lib::lemma_multiset_commutative(u1 + u2 + u3, u4);
    vstd::seq_lib::lemma_multiset_commutative(u1 + u2, u3);
    vstd::seq_lib::lemma_multiset_commutative(u1, u2);
    vstd::seq_lib::lemma_multiset_commutative(u1 + u3 + u2, u4);
    vstd::seq_lib::lemma_multiset_commutative(u1 + u3, u2);
    vstd::seq_lib::lemma_multiset_commutative(u1, u3);
    assert(u.to_multiset() =~= w.to_multiset());
}

/// Marks the entry at `a` (flips it) when `c & 1`, or when `c & 2` and its
/// substring equals the one of the entry before; then marks the entry at `b`
/// when `c & 4` and its substring equals the one of the entry before.
/// Nothing else changes.
fn merge_check(T: &Text, SA: &mut [Idx], PA: Idx, a: Idx, b: Idx, c: Idx, depth: Idx)
    requires
        0 <= depth,
        old(SA)@.len() <= i32::MAX,
        T.0@.len() <= i32::MAX,
    ensures
        final(SA)@.len() == old(SA)@.len(),
        forall|k: int|
            0 <= k < old(SA)@.len() && k != a && k != b ==> #[trigger] final(SA)@[k] == old(SA)@[k],
        a != b && 0 <= a < old(SA)@.len() ==> {
            let o = old(SA)@[a as int];
            let f = final(SA)@[a as int];
            &&& (f == o || f == -o - 1)
            &&& (c & 1 != 0 ==> f == -o - 1)
            &&& (c & 3 == 0 ==> f == o)
            &&& (c & 1 == 0 && c & 2 != 0 && neighbours_in_text(T.0@, old(SA)@, PA, a, depth)
                ==> (f == -o - 1 <==> same_as_before(T.0@, old(SA)@, PA, a, depth)))
        },
        a != b && 0 <= b < old(SA)@.len() ==> {
            let mid = put(old(SA)@, a as int, final(SA)@[a as int]);
            let o = old(SA)@[b as int];
            let f = final(SA)@[b as int];
            &&& (f == o || f == -o - 1)
            &&& (c & 4 == 0 ==> f == o)
            &&& (c & 4 != 0 && neighbours_in_text(T.0@, mid, PA, b, depth) ==> (f == -o - 1
                <==> same_as_before(T.0@, mid, PA, b, depth)))
        },
{
    let ghost s0 = SA@;
    assert((c & 3 == 0 <==> (c & 1 == 0 && c & 2 == 0)) && (c & 1 > 0 <==> c & 1 != 0) && (c & 2
        > 0 <==> c & 2 != 0) && (c & 4 > 0 <==> c & 4 != 0)) by (bit_vector);
    let mark_a = (c & 1 > 0) || ((c & 2 > 0) && (ss_compare(
        T,
        SA,
        PA.wrapping_add(unmarked(sa_get(SA, a.wrapping_sub(1)))),
        SA,
        PA.wrapping_add(sa_get(SA, a)),
        depth,
    ) == 0));
    if mark_a {
        sa_set(SA, a, flip(sa_get(SA, a)));
    }
    let ghost s1 = SA@;
    proof {
        if a != b && 0 <= a < s0.len() {
            assert(s1 =~= put(s0, a as int, s1[a as int]));
        } else if !(0 <= a < s0.len()) {
            assert(s1 =~= s0);
        }
    }
    let mark_b = (c & 4 > 0) && (ss_compare(
        T,
        SA,
        PA.wrapping_add(unmarked(sa_get(SA, b.wrapping_sub(1)))),
        SA,
        PA.wrapping_add(sa_get(SA, b)),
        depth,
    ) == 0);
    if mark_b {
        sa_set(SA, b, flip(sa_get(SA, b)));
    }
}

/// D&C based merge
pub fn ss_swapmerge(
    T: &Text,
    SA: &mut [Idx],
    PA: Idx,
    first0: Idx,
    middle0: Idx,
    last0: Idx,
    buf: Idx,
    bufsize: Idx,
    depth: Idx,
)
    requires
        0 <= first0 <= middle0 <= last0 <= old(SA)@.len(),
        0 <= buf,
        0 <= bufsize,
        buf + bufsize <= old(SA)@.len(),
        old(SA)@.len() <= i32::MAX,
        T.0@.len() <= i32::MAX,
        0 <= depth,
    ensures
        final(SA)@.len() == old(SA)@.len(),
{
    let ghost n = SA@.len() as int;
    let mut stack = MergeStack::new();
    let mut first = first0;
    let mut middle = middle0;
    let mut last = last0;
    let mut l: Idx;
    let mut r: Idx;
    let mut lm: Idx;
    let mut rm: Idx;
    let mut m: Idx;
    let mut len: Idx;
    let mut half: Idx;
    let mut check: Idx;
    let mut next: Idx;
    // BARBARIAN
    check = 0;
    loop
        invariant
            0 <= first <= middle <= last <= n,
            n == SA@.len(),
            0 <= buf,
            0 <= bufsize,
            buf + bufsize <= n,
            n <= i32::MAX,
            T.0@.len() <= i32::MAX,
            0 <= depth,
            merge_stack_ok(stack.items@, n),
        decreases merge_weight(stack.items@) + pow3(last - first),
    {
        if (last - middle) <= bufsize {
            if (first < middle) && (middle < last) {
                ss_mergebackward(T, SA, PA, first, middle, last, buf, depth);
            }
            merge_check(T, SA, PA, first, last, check, depth);
            let ghost w0 = merge_weight(stack.items@) + pow3(last - first);
            proof {
                lemma_pow3_pos(last - first);
            }
            if !stack.pop(&mut first, &mut middle, &mut last, &mut check).is_ok() {
                break;
            }
            assert(merge_weight(stack.items@) + pow3(last - first) < w0);
            continue;
        }
        if (middle - first) <= bufsize {
            if first < middle {
                ss_mergeforward(T, SA, PA, first, middle, last, buf, depth);
            }
            merge_check(T, SA, PA, first, last, check, depth);
            let ghost w0 = merge_weight(stack.items@) + pow3(last - first);
            proof {
                lemma_pow3_pos(last - first);
            }
            if !stack.pop(&mut first, &mut middle, &mut last, &mut check).is_ok() {
                break;
            }
            assert(merge_weight(stack.items@) + pow3(last - first) < w0);
            continue;
        }
        // OLANNA
        m = 0;
        len = if (middle - first) < (last - middle) {
            middle - first
        } else {
            last - middle
        };
        half = len / 2;
        while 0 < len
            invariant
                0 <= first < middle < last <= n,
                n == SA@.len(),
                n <= i32::MAX,
                T.0@.len() <= i32::MAX,
                0 <= depth,
                0 <= m,
                0 <= len,
                half == len / 2,
                m + len <= middle - first,
                m + len <= last - middle,
            decreases len,
        {
            if ss_compare(
                T,
                SA,
                PA.wrapping_add(unmarked(SA[(middle + m + half) as usize])),
                SA,
                PA.wrapping_add(unmarked(SA[(middle - m - half - 1) as usize])),
                depth,
            ) < 0 {
                m += half + 1;
                if len % 2 == 0 {
                    half -= 1;
                }
            }
            len = half;
            half = half / 2;
        }
        if 0 < m {
            lm = middle - m;
            rm = middle + m;
            ss_blockswap(SA, lm, middle, m);
            r = middle;
            l = middle;
            next = 0;
            if rm < last {
                let srm = SA[rm as usize];
                if srm < 0 {
                    SA[rm as usize] = flip(srm);
                    if first < lm {
                        // KOOPA
                        l -= 1;
                        while lm < l && SA[l as usize] < 0
                            invariant
                                0 <= first <= lm <= l < middle,
                                middle <= n,
                                n == SA@.len(),
                            decreases l,
                        {
                            l -= 1;
                        }
                        next |= 4;
                    }
                    next |= 1;
                } else if first < lm {
                    // MUNCHER
                    while r < rm && SA[r as usize] < 0
                        invariant
                            0 <= middle <= r <= rm < last,
                            last <= n,
                            n == SA@.len(),
                        decreases rm - r,
                    {
                        r += 1;
                    }
                    next |= 2;
                }
            }
            if (l - first) <= (last - r) {
                proof {
                    lemma_merge_split(
                        stack.items@,
                        MergeStackItem { a: r, b: rm, c: last, d: (next & 3) | (check & 4) },
                        l - first,
                        last - first,
                    );
                }
                stack.push(r, rm, last, (next & 3) | (check & 4));
                middle = lm;
                last = l;
                check = (check & 3) | (next & 4);
            } else {
                if (next & 2 > 0) && (r == middle) {
                    next ^= 6;
                }
                proof {
                    lemma_merge_split(
                        stack.items@,
                        MergeStackItem { a: first, b: lm, c: l, d: (check & 3) | (next & 4) },
                        last - r,
                        last - first,
                    );
                }
                stack.push(first, lm, l, (check & 3) | (next & 4));
                first = r;
                middle = rm;
                check = (next & 3) | (check & 4);
            }
        } else {
            if ss_compare(
                T,
                SA,
                PA.wrapping_add(unmarked(SA[(middle - 1) as usize])),
                SA,
                PA.wrapping_add(SA[middle as usize]),
                depth,
            ) == 0 {
                let tmp_v = SA[middle as usize];
                SA[middle as usize] = flip(tmp_v);
            }
            merge_check(T, SA, PA, first, last, check, depth);
            let ghost w0 = merge_weight(stack.items@) + pow3(last - first);
            proof {
                lemma_pow3_pos(last - first);
            }
            if !stack.pop(&mut first, &mut middle, &mut last, &mut check).is_ok() {
                break;
            }
            assert(merge_weight(stack.items@) + pow3(last - first) < w0);
        }
    }
}


proof fn lemma_low_bit(j: i32)
    by (bit_vector)
    requires
        0 <= j,
    ensures
        (j & 1) > 0 <==> j % 2 == 1,
        2 * (j >> 1) + (j & 1) == j,
        0 <= (j & 1) <= 1,
{
}

proof fn lemma_double(k: i64)
    by (bit_vector)
    requires
        0 <= k < 0x1_0000_0000,
    ensures
        (k << 1) == k + k,
{
}

/// Substring sort: sorts the type B* substrings whose entries lie in
/// `[first, last)`; `[PA, PA + m)` holds their text positions, and
/// `[buf, buf + bufsize)` may be used as scratch space.
pub fn sssort(
    T: &Text,
    SA: &mut [Idx],
    PA: Idx,
    first: Idx,
    last: Idx,
    buf: Idx,
    bufsize: Idx,
    depth: Idx,
    n: Idx,
    lastsuffix: bool,
)
    requires
        0 <= first <= last <= old(SA)@.len(),
        lastsuffix ==> first < last,
        0 <= buf,
        0 <= bufsize,
        buf + bufsize <= old(SA)@.len(),
        old(SA)@.len() <= i32::MAX,
        T.0@.len() <= i32::MAX,
        0 <= depth,
    ensures
        final(SA)@.len() == old(SA)@.len(),
{
    let ghost len = SA@.len() as int;
    let mut first = first;
    let mut buf = buf;
    let mut bufsize = bufsize;
    let mut a: Idx;
    let mut b: Idx;
    let mut middle: Idx;
    let mut curbuf: Idx;
    let mut j: Idx;
    let mut k: i64;
    let mut curbufsize: Idx;
    let mut limit: Idx;
    let mut i: Idx;
    if lastsuffix {
        first += 1;
    }
    limit = ss_isqrt(last - first);
    if (bufsize < SS_BLOCKSIZE) && (bufsize < (last - first)) && (bufsize < limit) {
        if SS_BLOCKSIZE < limit {
            limit = SS_BLOCKSIZE;
        }
        middle = last - limit;
        buf = middle;
        bufsize = limit;
    } else {
        middle = last;
        limit = 0;
    }
    // ESPRESSO
    a = first;
    i = 0;
    while SS_BLOCKSIZE < (middle - a)
        invariant
            0 <= first <= a <= middle <= last <= len,
            a - first == i * 1024,
            0 <= i,
            len == SA@.len(),
            len <= i32::MAX,
            T.0@.len() <= i32::MAX,
            0 <= depth,
            0 <= buf,
            0 <= bufsize,
            buf + bufsize <= len,
        decreases middle - a,
    {
        ss_mintrosort(T, SA, PA, a, a + SS_BLOCKSIZE, depth);
        curbufsize = last - (a + SS_BLOCKSIZE);
        curbuf = a + SS_BLOCKSIZE;
        if curbufsize <= bufsize {
            curbufsize = bufsize;
            curbuf = buf;
        }
        // FRESCO
        b = a;
        k = SS_BLOCKSIZE as i64;
        j = i;
        while (j & 1) > 0
            invariant
                0 <= first <= b <= a,
                a + 1024 <= middle <= last <= len,
                b + k == a + 1024,
                b - first == k * j,
                1024 <= k,
                0 <= j,
                len == SA@.len(),
                len <= i32::MAX,
                T.0@.len() <= i32::MAX,
                0 <= depth,
                0 <= curbuf,
                0 <= curbufsize,
                curbuf + curbufsize <= len,
            decreases j,
        {
            proof {
                lemma_low_bit(j);
            }
            assert(b - k - first == k * (j - 1) && k * (j - 1) >= 0) by (nonlinear_arith)
                requires
                    b - first == k * j,
                    j >= 1,
                    k >= 1024,
            ;
            ss_swapmerge(
                T,
                SA,
                PA,
                (b as i64 - k) as Idx,
                b,
                (b as i64 + k) as Idx,
                curbuf,
                curbufsize,
                depth,
            );
            let ghost k0 = k;
            let ghost j0 = j;
            b = (b as i64 - k) as Idx;
            proof {
                lemma_double(k);
            }
            k <<= 1;
            j >>= 1;
            proof {
                assert(b - first == k * j) by (nonlinear_arith)
                    requires
                        b - first == k0 * (j0 - 1),
                        k == 2 * k0,
                        j0 == 2 * j + 1,
                ;
            }
        }
        a += SS_BLOCKSIZE;
        i += 1;
    }
    ss_mintrosort(T, SA, PA, a, middle, depth);
    // MARIACHI
    k = SS_BLOCKSIZE as i64;
    while i != 0
        invariant
            0 <= first <= a <= middle <= last <= len,
            a - first == k * i,
            1024 <= k <= 0x1_0000_0000,
            0 <= i,
            len == SA@.len(),
            len <= i32::MAX,
            T.0@.len() <= i32::MAX,
            0 <= depth,
            0 <= buf,
            0 <= bufsize,
            buf + bufsize <= len,
        decreases i,
    {
        let ghost k0 = k;
        let ghost i0 = i;
        let ghost a0 = a;
        proof {
            lemma_low_bit(i);
        }
        assert(k <= a - first) by (nonlinear_arith)
            requires
                a - first == k * i,
                i >= 1,
                k >= 0,
        ;
        if (i & 1) > 0 {
            ss_swapmerge(T, SA, PA, (a as i64 - k) as Idx, a, middle, buf, bufsize, depth);
            a = (a as i64 - k) as Idx;
        }
        proof {
            lemma_double(k);
        }
        k <<= 1;
        i >>= 1;
        proof {
            if i0 % 2 == 1 {
                assert(a - first == k * i) by (nonlinear_arith)
                    requires
                        a0 - first == k0 * i0,
                        a == a0 - k0,
                        k == 2 * k0,
                        i0 == 2 * i + 1,
                ;
            } else {
                assert(a - first == k * i) by (nonlinear_arith)
                    requires
                        a0 - first == k0 * i0,
                        a == a0,
                        k == 2 * k0,
                        i0 == 2 * i,
                ;
            }
        }
    }
    if limit != 0 {
        ss_mintrosort(T, SA, PA, middle, last, depth);
        ss_inplacemerge(T, SA, PA, first, middle, last, depth);
    }
    if lastsuffix {
        // Insert last type B* suffix
        let prev = SA[(first - 1) as usize];
        let PAi: [Idx; 2] = [sa_get(SA, PA.wrapping_add(prev)), n.wrapping_sub(2)];
        let SAI = PAi.as_slice();
        a = first;
        let i = SA[(first - 1) as usize];
        // CELINE
        while (a < last) && ((SA[a as usize] < 0) || (0 < ss_compare(
            T,
            SAI,
            0,
            SA,
            PA.wrapping_add(SA[a as usize]),
            depth,
        )))
            invariant
                1 <= first <= a <= last <= len,
                len == SA@.len(),
                len <= i32::MAX,
                T.0@.len() <= i32::MAX,
                SAI@.len() == 2,
                0 <= depth,
            decreases last - a,
        {
            let tmp_v = SA[a as usize];
            SA[(a - 1) as usize] = tmp_v;
            a += 1;
        }
        SA[(a - 1) as usize] = i;
    }
}

} // verus!
