//! Tandem repeat sort: refines the order of the type B* suffixes from the
//! ranks of their substrings (inverse suffix array in `[ISA, ISA + n)`).
use vstd::prelude::*;
use crate::common::{
    median3, is_median5, count_if,
    Idx, TR_INSERTIONSORT_THRESHOLD, at, put, sa_get, sa_set, sa_swap, same_outside, flip,
    swapped, range_entries, lemma_swap_entries, lemma_split_entries, lemma_same_range_entries,
    lemma_entry_from, lemma_pop_entries,
};
use crate::sssort::{
    ilg, pow2, lemma_ilg_shift8, lg_table, unmarked_value, unmarked_entries, lemma_insert_keeps_unmarked,
    lemma_unmarked_entry_from, pow3, lemma_pow3_pos, lemma_pow3_mono,
};

verus! {

pub proof fn lemma_ilg_shift16(n: int)
    requires
        65536 <= n,
    ensures
        ilg(n) == 16 + ilg(n / 65536),
{
    lemma_ilg_shift8(n);
    assert(n / 65536 == (n / 256) / 256);
    lemma_ilg_shift8(n / 256);
}

pub proof fn lemma_ilg_shift24(n: int)
    requires
        16777216 <= n,
    ensures
        ilg(n) == 24 + ilg(n / 16777216),
{
    lemma_ilg_shift16(n);
    assert(n / 16777216 == (n / 65536) / 256);
    lemma_ilg_shift8(n / 65536);
}

/// Floor of the base-2 logarithm of `n` (-1 for 0).
pub fn tr_ilg(n: Idx) -> (r: Idx)
    ensures
        0 <= n ==> r == ilg(n as int),
        -1 <= r <= 31,
{
    assert(0 <= ((n >> 24) & 0xff) < 256 && 0 <= ((n >> 16) & 0xff) < 256 && 0 <= ((n >> 8)
        & 0xff) < 256 && 0 <= ((n >> 0) & 0xff) < 256) by (bit_vector);
    assert(0 <= n ==> (((n & !0xffff) > 0 <==> n >= 65536) && ((n & !0xffffff) > 0 <==> n
        >= 16777216)  && (n < 65536 ==> ((n & 0xff00) > 0 <==> n >= 256)) && ((n >> 24) & 0xff) == n
        / 16777216 && (n < 16777216 ==> ((n >> 16) & 0xff) == n / 65536) && (n < 65536 ==> ((n
        >> 8) & 0xff) == n / 256) && (n < 256 ==> ((n >> 0) & 0xff) == n))) by (bit_vector);
    if (n & !0xffff) > 0 {
        if (n & !0xffffff) > 0 {
            proof {
                if 0 <= n {
                    lemma_ilg_shift24(n as int);
                }
            }
            24 + lg_table((n >> 24) & 0xff)
        } else {
            proof {
                if 0 <= n {
                    lemma_ilg_shift16(n as int);
                }
            }
            16 + lg_table((n >> 16) & 0xff)
        }
    } else {
        if (n & 0xff00) > 0 {
            proof {
                if 0 <= n {
                    lemma_ilg_shift8(n as int);
                }
            }
            8 + lg_table((n >> 8) & 0xff)
        } else {
            0 + lg_table((n >> 0) & 0xff)
        }
    }
}


#[derive(Clone, Copy)]
struct StackItem {
    a: Idx,
    b: Idx,
    c: Idx,
    d: Idx,
    e: Idx,
}

/// Ranges left for later: `[b, c)` at rank offset `a`, with limit `d` and
/// link `e`.
struct Stack {
    items: Vec<StackItem>,
}

impl Stack {
    fn new() -> (r: Self)
        ensures
            r.items@.len() == 0,
    {
        Stack { items: Vec::new() }
    }

    fn push(&mut self, a: Idx, b: Idx, c: Idx, d: Idx, e: Idx)
        ensures
            final(self).items@ == old(self).items@.push(StackItem { a, b, c, d, e }),
    {
        self.items.push(StackItem { a, b, c, d, e });
    }

    fn pop(&mut self, a: &mut Idx, b: &mut Idx, c: &mut Idx, d: &mut Idx, e: &mut Idx) -> (r:
        Result<(), ()>)
        ensures
            old(self).items@.len() == 0 ==> {
                &&& r is Err
                &&& final(self).items@ == old(self).items@
                &&& *final(a) == *old(a)
                &&& *final(b) == *old(b)
                &&& *final(c) == *old(c)
                &&& *final(d) == *old(d)
                &&& *final(e) == *old(e)
            },
            old(self).items@.len() > 0 ==> {
                let it = old(self).items@.last();
                &&& r is Ok
                &&& final(self).items@ == old(self).items@.drop_last()
                &&& *final(a) == it.a
                &&& *final(b) == it.b
                &&& *final(c) == it.c
                &&& *final(d) == it.d
                &&& *final(e) == it.e
            },
    {
        match self.items.pop() {
            None => Err(()),
            Some(it) => {
                *a = it.a;
                *b = it.b;
                *c = it.c;
                *d = it.d;
                *e = it.e;
                Ok(())
            },
        }
    }

    /// The number of items.
    fn len(&self) -> (r: usize)
        ensures
            r == self.items@.len(),
    {
        self.items.len()
    }

    /// Clears the limit of the item at `k`, where that item sits right below
    /// the marker of a tandem repeat run (as the entry the marker's copy
    /// reads); any other `k` is left alone.
    fn clear_limit(&mut self, k: Idx)
        ensures
            final(self).items@.len() == old(self).items@.len(),
            forall|i: int|
                0 <= i < old(self).items@.len() ==> {
                    let o = old(self).items@[i];
                    let f = #[trigger] final(self).items@[i];
                    &&& f.a == o.a
                    &&& f.b == o.b
                    &&& f.c == o.c
                    &&& f.d == (if i == k && k + 1 < old(self).items@.len() && old(
                        self,
                    ).items@[k + 1].d == -2 {
                        -1i32
                    } else {
                        o.d
                    })
                    &&& f.e == o.e
                },
    {
        if 0 <= k && (k as usize) + 1 < self.items.len() && self.items[k as usize + 1].d == -2 {
            let mut it = self.items[k as usize];
            it.d = -1;
            self.items.set(k as usize, it);
        }
    }
}

/// Popping right after a push gives back what was pushed and leaves the
/// stack as it was before the push.
proof fn lemma_pop_after_push(items: Seq<StackItem>, it: StackItem)
    ensures
        items.push(it).len() > 0,
        items.push(it).last() == it,
        items.push(it).drop_last() == items,
{
    assert(items.push(it).drop_last() =~= items);
}

/// Every range waiting on the stack lies inside `[lo, hi)` with a usable limit.
spec fn tr_stack_ok(items: Seq<StackItem>, lo: int, hi: int) -> bool {
    forall|k: int|
        0 <= k < items.len() ==> {
            let it = #[trigger] items[k];
            &&& lo <= it.b <= it.c <= hi
            &&& -3 <= it.d <= 31
        }
}

/// The rank, at offset `ISAd`, of the suffix stored at `x`.
/// The rank that orders the entry at `x`: the one stored for its suffix at
/// offset `ISAd`.
pub open spec fn tr_rank(s: Seq<Idx>, ISAd: Idx, x: int) -> int {
    at(s, ISAd.wrapping_add(s[x]) as int) as int
}

fn tr_key(SA: &[Idx], ISAd: Idx, x: Idx) -> (r: Idx)
    requires
        0 <= x < SA@.len(),
    ensures
        r == tr_rank(SA@, ISAd, x as int),
{
    sa_get(SA, ISAd.wrapping_add(SA[x as usize]))
}

/// The rank of entry `x` (its mark removed) read in `base` at offset `ISAd`.
pub open spec fn entry_rank(base: Seq<Idx>, ISAd: Idx, x: Idx) -> int {
    at(base, ISAd.wrapping_add(unmarked_value(x)) as int) as int
}

/// `[lo, hi)` of `s` is in nondecreasing rank order, and an entry is marked
/// (negative) exactly when the next one has the same rank.
pub open spec fn rank_sorted(s: Seq<Idx>, base: Seq<Idx>, ISAd: Idx, lo: int, hi: int) -> bool {
    &&& forall|k: int, k2: int|
        lo <= k < k2 < hi ==> entry_rank(base, ISAd, #[trigger] s[k]) <= entry_rank(
            base,
            ISAd,
            #[trigger] s[k2],
        )
    &&& forall|k: int|
        lo <= k < hi ==> ((#[trigger] s[k] < 0) <==> (k + 1 < hi && entry_rank(base, ISAd, s[k])
            == entry_rank(base, ISAd, s[k + 1])))
}

/// The entries of `[first, last)` are unmarked, and their ranks are read
/// outside that range.
pub open spec fn ranks_outside(s: Seq<Idx>, ISAd: Idx, first: int, last: int) -> bool {
    forall|k: int|
        first <= k < last ==> 0 <= #[trigger] s[k] && !(first <= ISAd.wrapping_add(s[k]) < last)
}

/// Inserting `t` after position `b` of a rank-sorted prefix keeps it sorted,
/// when `t` ranks no lower than the entry at `b` (which is marked exactly
/// when the ranks are equal) and lower than every entry after it.
proof fn lemma_insert_sorted(
    P: Seq<Idx>,
    s1: Seq<Idx>,
    base: Seq<Idx>,
    ISAd: Idx,
    first: int,
    a: int,
    b: int,
    t: Idx,
    mark: bool,
)
    requires
        0 <= first,
        first - 1 <= b < a,
        a < P.len(),
        s1.len() == P.len(),
        rank_sorted(P, base, ISAd, first, a),
        0 <= t,
        forall|k: int| first <= k < b ==> #[trigger] s1[k] == P[k],
        first <= b ==> 0 <= P[b],
        first <= b ==> s1[b] == (if mark {
            (-P[b] - 1) as Idx
        } else {
            P[b]
        }),
        b < first ==> !mark,
        s1[b + 1] == t,
        forall|k: int| b + 2 <= k <= a ==> #[trigger] s1[k] == P[k - 1],
        first <= b ==> entry_rank(base, ISAd, P[b]) <= entry_rank(base, ISAd, t),
        first <= b ==> (mark <==> entry_rank(base, ISAd, P[b]) == entry_rank(base, ISAd, t)),
        forall|k: int|
            b + 2 <= k <= a ==> entry_rank(base, ISAd, t) < entry_rank(base, ISAd, #[trigger] s1[k]),
    ensures
        rank_sorted(s1, base, ISAd, first, a + 1),
{
    let rt = entry_rank(base, ISAd, t);
    assert forall|k: int| first <= k < a + 1 implies entry_rank(base, ISAd, #[trigger] s1[k]) == (
    if k < b {
        entry_rank(base, ISAd, P[k])
    } else if k == b {
        entry_rank(base, ISAd, P[b])
    } else if k == b + 1 {
        rt
    } else {
        entry_rank(base, ISAd, P[k - 1])
    }) by {
        if k == b && mark {
            assert(unmarked_value(s1[k]) == unmarked_value(P[b]));
        }
    }
    assert forall|k: int, k2: int| first <= k < k2 < a + 1 implies entry_rank(
        base,
        ISAd,
        #[trigger] s1[k],
    ) <= entry_rank(base, ISAd, #[trigger] s1[k2]) by {
        if k2 <= b {
            assert(entry_rank(base, ISAd, P[k]) <= entry_rank(base, ISAd, P[k2]));
        } else if k2 == b + 1 {
            if k < b {
                assert(entry_rank(base, ISAd, P[k]) <= entry_rank(base, ISAd, P[b]));
            }
        } else {
            assert(rt < entry_rank(base, ISAd, s1[k2]));
            if k < b {
                assert(entry_rank(base, ISAd, P[k]) <= entry_rank(base, ISAd, P[b]));
            } else if k > b + 1 {
                assert(entry_rank(base, ISAd, P[k - 1]) <= entry_rank(base, ISAd, P[k2 - 1]));
            }
        }
    }
    assert forall|k: int| first <= k < a + 1 implies ((#[trigger] s1[k] < 0) <==> (k + 1 < a + 1
        && entry_rank(base, ISAd, s1[k]) == entry_rank(base, ISAd, s1[k + 1]))) by {
        if k + 1 < b {
            assert(s1[k] == P[k] && s1[k + 1] == P[k + 1]);
            assert(P[k] < 0 <==> entry_rank(base, ISAd, P[k]) == entry_rank(base, ISAd, P[k + 1]));
        } else if k + 1 == b {
            assert(s1[k] == P[k]);
            assert(P[k] < 0 <==> entry_rank(base, ISAd, P[k]) == entry_rank(base, ISAd, P[k + 1]));
            assert(entry_rank(base, ISAd, s1[k + 1]) == entry_rank(base, ISAd, P[b]));
        } else if k == b {
        } else if k == b + 1 {
            if k + 1 < a + 1 {
                assert(rt < entry_rank(base, ISAd, s1[k + 1]));
            }
        } else {
            assert(s1[k] == P[k - 1]);
            if k + 1 < a + 1 {
                assert(s1[k + 1] == P[k]);
            }
            assert(P[k - 1] < 0 <==> (k < a && entry_rank(base, ISAd, P[k - 1]) == entry_rank(
                base,
                ISAd,
                P[k],
            )));
        }
    }
}

/// Simple insertionsort for small size groups
///
/// The entries stay those there were but for their marks. When they are
/// unmarked and the ranks it reads lie outside the group, it sorts the group
/// by rank, marking each entry whose successor has the same rank.
#[verifier::rlimit(100)]
#[verifier::spinoff_prover]
pub fn tr_insertionsort(SA: &mut [Idx], ISAd: Idx, first: Idx, last: Idx)
    requires
        0 <= first <= last <= old(SA)@.len(),
        old(SA)@.len() < i32::MAX,
    ensures
        same_outside(final(SA)@, old(SA)@, first as int, last as int),
        unmarked_entries(final(SA)@, first as int, last as int) == unmarked_entries(
            old(SA)@,
            first as int,
            last as int,
        ),
        ranks_outside(old(SA)@, ISAd, first as int, last as int) ==> rank_sorted(
            final(SA)@,
            old(SA)@,
            ISAd,
            first as int,
            last as int,
        ),
{
    let ghost base = SA@;
    let ghost cond = ranks_outside(base, ISAd, first as int, last as int);
    let mut a: Idx;
    let mut b: Idx;
    let mut t: Idx;
    let mut r: i64 = 0;
    a = first + 1;
    proof {
        if first < last && cond {
            assert(rank_sorted(SA@, base, ISAd, first as int, first + 1));
        }
    }
    // KAREN
    while a < last
        invariant
            0 <= first < a <= last + 1,
            a <= last || first == last,
            last <= SA@.len(),
            SA@.len() < i32::MAX,
            base == old(SA)@,
            same_outside(SA@, old(SA)@, first as int, last as int),
            cond == ranks_outside(base, ISAd, first as int, last as int),
            a <= last ==> forall|k: int| a <= k < last ==> #[trigger] SA@[k] == base[k],
            cond && a <= last ==> rank_sorted(SA@, base, ISAd, first as int, a as int),
            cond && a <= last ==> forall|k: int|
                first <= k < a ==> 0 <= unmarked_value(#[trigger] SA@[k]),
            unmarked_entries(SA@, first as int, last as int) == unmarked_entries(
                base,
                first as int,
                last as int,
            ),
        decreases last - a,
    {
        let ghost P = SA@;
        // JEZEBEL
        t = SA[a as usize];
        b = a - 1;
        proof {
            if cond {
                assert(base[a as int] == t);
                assert(0 <= t && !(first <= ISAd.wrapping_add(t) < last));
            }
        }
        loop
            invariant_except_break
                first <= b,
                cond ==> 0 <= SA@[b as int],
            invariant
                first - 1 <= b < a < last,
                0 <= first,
                last <= SA@.len(),
                SA@.len() < i32::MAX,
                base == old(SA)@,
                same_outside(SA@, old(SA)@, first as int, last as int),
                cond == ranks_outside(base, ISAd, first as int, last as int),
                t == base[a as int],
                forall|k: int| a < k < last ==> #[trigger] SA@[k] == base[k],
                forall|k: int| first <= k <= b ==> #[trigger] SA@[k] == P[k],
                forall|k: int| b + 2 <= k <= a ==> #[trigger] SA@[k] == P[k - 1],
                cond ==> rank_sorted(P, base, ISAd, first as int, a as int),
                unmarked_entries(P, first as int, last as int) == unmarked_entries(
                    base,
                    first as int,
                    last as int,
                ),
                P.len() == base.len(),
                cond ==> forall|k: int| first <= k < a ==> 0 <= unmarked_value(#[trigger] P[k]),
                cond ==> forall|k: int|
                    b + 2 <= k <= a ==> entry_rank(base, ISAd, t) < entry_rank(
                        base,
                        ISAd,
                        #[trigger] SA@[k],
                    ),
            ensures
                first - 1 <= b < a < last,
                r == 0 ==> first <= b,
                last <= SA@.len(),
                same_outside(SA@, old(SA)@, first as int, last as int),
                forall|k: int| a < k < last ==> #[trigger] SA@[k] == base[k],
                forall|k: int| first <= k <= b ==> #[trigger] SA@[k] == P[k],
                forall|k: int| b + 2 <= k <= a ==> #[trigger] SA@[k] == P[k - 1],
                cond ==> forall|k: int|
                    b + 2 <= k <= a ==> entry_rank(base, ISAd, t) < entry_rank(
                        base,
                        ISAd,
                        #[trigger] SA@[k],
                    ),
                cond && first <= b ==> 0 <= SA@[b as int],
                cond && first <= b ==> (r == entry_rank(base, ISAd, t) - entry_rank(
                    base,
                    ISAd,
                    SA@[b as int],
                )),
                first <= b ==> r >= 0,
                cond && b < first ==> r < 0,
            decreases b - first + 1,
        {
            proof {
                if cond {
                    let j = lemma_unmarked_entry_from(P, base, first as int, last as int, b as int);
                    assert(0 <= base[j]);
                    assert(!(first <= ISAd.wrapping_add(SA@[b as int]) < last));
                }
            }
            r = sa_get(SA, ISAd.wrapping_add(t)) as i64 - tr_key(SA, ISAd, b) as i64;
            if !(0 > r) {
                break;
            }
            let ghost b0 = b;
            // LILITH
            loop
                invariant_except_break
                    first <= b,
                    b < b0 ==> P[b as int] < 0,
                invariant
                    first - 1 <= b <= b0,
                    b0 < a < last,
                    0 <= first,
                    last <= SA@.len(),
                    same_outside(SA@, old(SA)@, first as int, last as int),
                    forall|k: int| a < k < last ==> #[trigger] SA@[k] == base[k],
                    forall|k: int| first <= k <= b ==> #[trigger] SA@[k] == P[k],
                    forall|k: int| b + 2 <= k <= a ==> #[trigger] SA@[k] == P[k - 1],
                    b == b0 ==> first <= b,
                    cond ==> rank_sorted(P, base, ISAd, first as int, a as int),
                unmarked_entries(P, first as int, last as int) == unmarked_entries(
                    base,
                    first as int,
                    last as int,
                ),
                P.len() == base.len(),
                    cond ==> entry_rank(base, ISAd, t) < entry_rank(base, ISAd, P[b0 as int]),
                    cond ==> forall|k: int|
                        b + 2 <= k <= a ==> entry_rank(base, ISAd, t) < entry_rank(
                            base,
                            ISAd,
                            #[trigger] SA@[k],
                        ),
                ensures
                    first - 1 <= b < b0,
                    last <= SA@.len(),
                    same_outside(SA@, old(SA)@, first as int, last as int),
                    forall|k: int| a < k < last ==> #[trigger] SA@[k] == base[k],
                    forall|k: int| first <= k <= b ==> #[trigger] SA@[k] == P[k],
                    forall|k: int| b + 2 <= k <= a ==> #[trigger] SA@[k] == P[k - 1],
                    first <= b ==> 0 <= SA@[b as int],
                    cond ==> forall|k: int|
                        b + 2 <= k <= a ==> entry_rank(base, ISAd, t) < entry_rank(
                            base,
                            ISAd,
                            #[trigger] SA@[k],
                        ),
                decreases b - first + 1,
            {
                proof {
                    if cond && b < b0 {
                        // the entry about to move is marked: it has the rank of the
                        // one after it, which has moved already
                        assert(P[b as int] < 0);
                        assert(entry_rank(base, ISAd, P[b as int]) == entry_rank(
                            base,
                            ISAd,
                            P[b + 1],
                        ));
                        assert(SA@[b + 2] == P[b + 1]);
                    }
                }
                let tmp_v = SA[b as usize];
                SA[(b + 1) as usize] = tmp_v;
                b -= 1;
                if !((first <= b) && (SA[b as usize] < 0)) {
                    break;
                }
            }
            if b < first {
                break;
            }
        }
        let ghost mid = SA@;
        let ghost mark = r == 0;
        if r == 0 {
            let tmp_v = SA[b as usize];
            SA[b as usize] = flip(tmp_v);
        }
        SA[(b + 1) as usize] = t;
        proof {
            if cond {
                lemma_insert_sorted(P, SA@, base, ISAd, first as int, a as int, b as int, t, mark);
            }
            assert forall|k: int| first <= k < b + 1 implies unmarked_value(#[trigger] SA@[k])
                == unmarked_value(P[k]) by {
                assert(mid[k] == P[k]);
            }
            lemma_insert_keeps_unmarked(P, SA@, first as int, b + 1, a as int, last as int);
        }
        a += 1;
    }
    proof {
        if cond {
            if first == last {
                assert(rank_sorted(SA@, base, ISAd, first as int, last as int));
            } else {
                assert(a == last);
            }
        }
    }
}

/// The key of heap entry `x` for a heap stored from `first`: the rank read
/// at `first + ISAd` past the entry's suffix start.
fn tr_heap_key(SA: &[Idx], ISAd: Idx, first: Idx, x: Idx) -> (r: Idx)
    requires
        0 <= first,
        0 <= x,
        first + x <= i32::MAX,
    ensures
        r == at(SA@, first.wrapping_add(ISAd.wrapping_add(at(SA@, first + x))) as int),
{
    let v = sa_get(SA, first + x);
    sa_get(SA, first.wrapping_add(ISAd.wrapping_add(v)))
}

/// The rank that orders the heap entry `v` of a heap stored from `first`,
/// read in `base`.
pub open spec fn heap_rank(base: Seq<Idx>, ISAd: Idx, first: Idx, v: Idx) -> int {
    at(base, heap_rank_pos(ISAd, first, v)) as int
}

/// Where the rank of the heap entry `v` is read.
pub open spec fn heap_rank_pos(ISAd: Idx, first: Idx, v: Idx) -> int {
    first.wrapping_add(ISAd.wrapping_add(v)) as int
}

/// The ranks of the entries of the heap of `size` entries from `first` are
/// read outside the heap.
pub open spec fn heap_ranks_outside(s: Seq<Idx>, ISAd: Idx, first: Idx, size: int) -> bool {
    forall|k: int|
        first <= k < first + size ==> !(first <= heap_rank_pos(ISAd, first, #[trigger] s[k]) < first + size)
}

/// The parent of heap node `c`.
pub open spec fn heap_parent(c: int) -> int {
    (c - 1) / 2
}

/// Every node of the heap of `size` entries from `first` whose parent is
/// `lo` or later ranks no higher than its parent.
pub open spec fn is_heap_from(s: Seq<Idx>, base: Seq<Idx>, ISAd: Idx, first: Idx, lo: int, size: int) -> bool {
    forall|c: int|
        1 <= c < size && lo <= heap_parent(c) ==> heap_rank(base, ISAd, first, #[trigger] s[first + c])
            <= heap_rank(base, ISAd, first, s[first + heap_parent(c)])
}

/// The `size` entries from `first` are in nondecreasing order of rank.
pub open spec fn heap_rank_sorted(s: Seq<Idx>, base: Seq<Idx>, ISAd: Idx, first: Idx, size: int) -> bool {
    forall|k: int, k2: int|
        first <= k < k2 < first + size ==> heap_rank(base, ISAd, first, #[trigger] s[k])
            <= heap_rank(base, ISAd, first, #[trigger] s[k2])
}

/// Ranks read outside the heap do not depend on the heap's contents.
proof fn lemma_heap_rank_stable(a: Seq<Idx>, b: Seq<Idx>, ISAd: Idx, first: Idx, size: int, v: Idx)
    requires
        same_outside(a, b, first as int, first + size),
        !(first <= heap_rank_pos(ISAd, first, v) < first + size),
    ensures
        heap_rank(a, ISAd, first, v) == heap_rank(b, ISAd, first, v),
{
}

/// While an entry of rank `c` sifts down from `i0` and has reached node `i`:
/// the nodes from `i0` on form a heap but at `i`, whose parent outranks `c`
/// and the children of `i`.
spec fn sifting(s: Seq<Idx>, base: Seq<Idx>, ISAd: Idx, first: Idx, i0: int, i: int, size: int, c: int) -> bool {
    &&& forall|x: int|
        1 <= x < size && i0 <= heap_parent(x) && heap_parent(x) != i ==> heap_rank(
            base,
            ISAd,
            first,
            #[trigger] s[first + x],
        ) <= heap_rank(base, ISAd, first, s[first + heap_parent(x)])
    &&& i > i0 ==> c < heap_rank(base, ISAd, first, s[first + heap_parent(i)])
    &&& i > i0 ==> forall|x: int|
        1 <= x < size && heap_parent(x) == i ==> heap_rank(base, ISAd, first, #[trigger] s[first + x])
            <= heap_rank(base, ISAd, first, s[first + heap_parent(i)])
}

/// Moving up the higher ranked child `k` of `i`, which outranks `c`, moves
/// the sifting entry on to `k`.
proof fn lemma_sift_step(s0: Seq<Idx>, base: Seq<Idx>, ISAd: Idx, first: Idx, i0: int, i: int, k: int, size: int, c: int)
    requires
        0 <= first,
        0 <= i0 <= i < k < size,
        first + size <= s0.len(),
        heap_parent(k) == i,
        sifting(s0, base, ISAd, first, i0, i, size, c),
        c < heap_rank(base, ISAd, first, s0[first + k]),
        forall|x: int|
            1 <= x < size && heap_parent(x) == i ==> heap_rank(base, ISAd, first, #[trigger] s0[first + x])
                <= heap_rank(base, ISAd, first, s0[first + k]),
    ensures
        sifting(s0.update(first + i, s0[first + k]), base, ISAd, first, i0, k, size, c),
{
    let s1 = s0.update(first + i, s0[first + k]);
    assert(s1[first + k] == s0[first + k]);
    assert forall|x: int|
        1 <= x < size && i0 <= heap_parent(x) && heap_parent(x) != k implies heap_rank(
            base,
            ISAd,
            first,
            #[trigger] s1[first + x],
        ) <= heap_rank(base, ISAd, first, s1[first + heap_parent(x)]) by {
        if x == i {
            assert(heap_parent(x) < i);
            assert(s1[first + heap_parent(x)] == s0[first + heap_parent(x)]);
        } else if heap_parent(x) == i {
            assert(s1[first + x] == s0[first + x]);
        } else {
            assert(s1[first + x] == s0[first + x]);
            assert(s1[first + heap_parent(x)] == s0[first + heap_parent(x)]);
        }
    }
    assert forall|x: int|
        1 <= x < size && heap_parent(x) == k implies heap_rank(base, ISAd, first, #[trigger] s1[first + x])
            <= heap_rank(base, ISAd, first, s1[first + heap_parent(k)]) by {
        assert(x > k);
        assert(s1[first + x] == s0[first + x]);
        assert(heap_parent(x) != i);
    }
}

/// Placing the sifting entry at `i`, where no child outranks it, completes
/// the heap from `i0`.
proof fn lemma_sift_place(s0: Seq<Idx>, base: Seq<Idx>, ISAd: Idx, first: Idx, i0: int, i: int, size: int, v: Idx)
    requires
        0 <= first,
        0 <= i0 <= i < size,
        first + size <= s0.len(),
        sifting(s0, base, ISAd, first, i0, i, size, heap_rank(base, ISAd, first, v)),
        forall|x: int|
            1 <= x < size && heap_parent(x) == i ==> heap_rank(base, ISAd, first, #[trigger] s0[first + x])
                <= heap_rank(base, ISAd, first, v),
    ensures
        is_heap_from(s0.update(first + i, v), base, ISAd, first, i0, size),
{
    let s1 = s0.update(first + i, v);
    assert forall|x: int|
        1 <= x < size && i0 <= heap_parent(x) implies heap_rank(base, ISAd, first, #[trigger] s1[first + x])
            <= heap_rank(base, ISAd, first, s1[first + heap_parent(x)]) by {
        if x == i {
            assert(s1[first + heap_parent(x)] == s0[first + heap_parent(x)]);
        } else if heap_parent(x) == i {
            assert(s1[first + x] == s0[first + x]);
        } else {
            assert(s1[first + x] == s0[first + x]);
            assert(s1[first + heap_parent(x)] == s0[first + heap_parent(x)]);
        }
    }
}

/// Sifts the entry at node `i` down the heap of `size` entries from `first`.
///
/// The heap's entries stay those it had. Where the ranks are read outside
/// the heap, the nodes below `i` form a heap, and the heap has a node of
/// its own for every second child (or the entry just past it is the one at
/// `i`), the nodes from `i` on form a heap afterwards.
#[verifier::rlimit(100)]
#[verifier::spinoff_prover]
pub fn tr_fixdown(ISAd: Idx, SA: &mut [Idx], first: Idx, i: Idx, size: Idx)
    requires
        0 <= first,
        0 <= i < size,
        first + size <= old(SA)@.len(),
        old(SA)@.len() <= i32::MAX,
    ensures
        same_outside(final(SA)@, old(SA)@, first as int, first + size),
        range_entries(final(SA)@, first as int, first + size) == range_entries(old(SA)@, first as int, first + size),
        heap_ranks_outside(old(SA)@, ISAd, first, size as int) && is_heap_from(
            old(SA)@,
            old(SA)@,
            ISAd,
            first,
            i + 1,
            size as int,
        ) && (size % 2 == 1 || (first + size < old(SA)@.len() && old(SA)@[first + size] == old(SA)@[first + i]))
            ==> is_heap_from(final(SA)@, old(SA)@, ISAd, first, i as int, size as int)
            && heap_ranks_outside(final(SA)@, ISAd, first, size as int),
{
    let ghost base = SA@;
    let ghost i0 = i as int;
    let ghost cond = heap_ranks_outside(base, ISAd, first, size as int) && is_heap_from(
        base,
        base,
        ISAd,
        first,
        i + 1,
        size as int,
    ) && (size % 2 == 1 || (first + size < base.len() && base[first + size] == base[first + i]));
    let mut i = i;
    let mut j: Idx;
    let mut k: Idx;
    let mut d: Idx;
    let mut e: Idx;
    let v = SA[(first + i) as usize];
    let c = sa_get(SA, first.wrapping_add(ISAd.wrapping_add(v)));
    proof {
        assert(put(SA@, first + i, v) =~= base);
    }
    loop
        invariant
            0 <= first,
            0 <= i0 <= i < size,
            first + size <= SA@.len(),
            SA@.len() <= i32::MAX,
            base == old(SA)@,
            v == base[first + i0],
            same_outside(SA@, base, first as int, first + size),
            range_entries(put(SA@, first + i, v), first as int, first + size) == range_entries(base, first as int, first + size),
            cond == (heap_ranks_outside(base, ISAd, first, size as int) && is_heap_from(
                base,
                base,
                ISAd,
                first,
                i0 + 1,
                size as int,
            ) && (size % 2 == 1 || (first + size < base.len() && base[first + size] == base[first + i0]))),
            cond ==> c == heap_rank(base, ISAd, first, v),
            cond ==> heap_ranks_outside(SA@, ISAd, first, size as int),
            cond ==> sifting(SA@, base, ISAd, first, i0, i as int, size as int, c as int),
        ensures
            0 <= i0 <= i < size,
            first + size <= SA@.len(),
            same_outside(SA@, base, first as int, first + size),
            range_entries(put(SA@, first + i, v), first as int, first + size) == range_entries(base, first as int, first + size),
            cond ==> c == heap_rank(base, ISAd, first, v),
            cond ==> heap_ranks_outside(SA@, ISAd, first, size as int),
            cond ==> sifting(SA@, base, ISAd, first, i0, i as int, size as int, c as int),
            cond ==> forall|x: int|
                1 <= x < size && heap_parent(x) == i ==> heap_rank(base, ISAd, first, #[trigger] SA@[first + x])
                    <= c,
        decreases size - i,
    {
        let j64: i64 = 2 * (i as i64) + 1;
        if !(j64 < size as i64) {
            proof {
                assert forall|x: int| 1 <= x < size && heap_parent(x) == i implies heap_rank(base, ISAd, first, #[trigger] SA@[first + x])
                    <= c by {
                    assert(x >= 2 * i + 1);
                }
            }
            break;
        }
        j = j64 as Idx;
        k = j;
        d = tr_heap_key(SA, ISAd, first, k);
        j += 1;
        e = tr_heap_key(SA, ISAd, first, j);
        proof {
            if cond {
                assert(heap_ranks_outside(SA@, ISAd, first, size as int));
                lemma_heap_rank_stable(SA@, base, ISAd, first, size as int, SA@[first + k]);
                assert(d == heap_rank(base, ISAd, first, SA@[first + k]));
                if j < size {
                    lemma_heap_rank_stable(SA@, base, ISAd, first, size as int, SA@[first + j]);
                    assert(e == heap_rank(base, ISAd, first, SA@[first + j]));
                } else {
                    assert(size % 2 == 0);
                    assert(SA@[first + j] == base[first + j]);
                    assert(SA@[first + j] == v);
                    lemma_heap_rank_stable(SA@, base, ISAd, first, size as int, v);
                    assert(e == c);
                }
            }
        }
        let ghost kl = k;
        if d < e {
            k = j;
            d = e;
        }
        proof {
            if cond {
                assert forall|x: int| 1 <= x < size && heap_parent(x) == i implies heap_rank(base, ISAd, first, #[trigger] SA@[first + x])
                    <= d by {
                    assert(x == kl || x == j);
                }
            }
        }
        if d <= c {
            break;
        }
        if k < size {
            let ghost s0 = SA@;
            SA[(first + i) as usize] = v;
            let tmp_v = SA[(first + k) as usize];
            SA[(first + i) as usize] = tmp_v;
            proof {
                assert(SA@ =~= s0.update(first + i, s0[first + k]));
                assert(put(SA@, first + k, v) =~= swapped(put(s0, first + i, v), first + i, first + k));
                lemma_swap_entries(put(s0, first + i, v), first + i, first + k, first as int, first + size);
                if cond {
                    assert(heap_parent(k as int) == i);
                    lemma_sift_step(s0, base, ISAd, first, i0, i as int, k as int, size as int, c as int);
                    assert forall|x: int| first <= x < first + size implies !(first <= heap_rank_pos(ISAd, first, #[trigger] SA@[x]) < first + size) by {
                        if x != first + i {
                            assert(SA@[x] == s0[x]);
                        } else {
                            assert(SA@[x] == s0[first + k]);
                        }
                    }
                }
            }
            i = k;
        } else {
            break;
        }
    }
    let ghost s0 = SA@;
    SA[(first + i) as usize] = v;
    proof {
        assert(SA@ =~= put(s0, first + i, v));
        if cond {
            lemma_sift_place(s0, base, ISAd, first, i0, i as int, size as int, v);
            assert forall|x: int| first <= x < first + size implies !(first <= heap_rank_pos(ISAd, first, #[trigger] SA@[x]) < first + size) by {
                if x != first + i {
                    assert(SA@[x] == s0[x]);
                }
            }
        }
    }
}

/// The root of a heap outranks every node.
proof fn lemma_heap_root(s: Seq<Idx>, base: Seq<Idx>, ISAd: Idx, first: Idx, n: int, k: int)
    requires
        0 <= k < n,
        is_heap_from(s, base, ISAd, first, 0, n),
    ensures
        heap_rank(base, ISAd, first, s[first + k]) <= heap_rank(base, ISAd, first, s[first + 0]),
    decreases k,
{
    if k > 0 {
        assert(heap_rank(base, ISAd, first, s[first + k]) <= heap_rank(base, ISAd, first, s[first + heap_parent(k)]));
        lemma_heap_rank_parent(k);
        lemma_heap_root(s, base, ISAd, first, n, heap_parent(k));
    }
}

pub proof fn lemma_heap_rank_parent(k: int)
    requires
        k > 0,
    ensures
        0 <= heap_parent(k) < k,
{
}

/// Ranks read outside the `n` entries from `first` are read outside a
/// shorter heap too.
proof fn lemma_ranks_narrow(s: Seq<Idx>, ISAd: Idx, first: Idx, m: int, n: int)
    requires
        0 <= m <= n,
        heap_ranks_outside(s, ISAd, first, n),
    ensures
        heap_ranks_outside(s, ISAd, first, m),
{
    assert forall|k: int| first <= k < first + m implies !(first <= heap_rank_pos(ISAd, first, #[trigger] s[k]) < first + m) by {
        assert(!(first <= heap_rank_pos(ISAd, first, s[k]) < first + n));
    }
}

/// Moving entries about inside the first `m` of the `n` entries from
/// `first` keeps their ranks read outside the `n` entries.
proof fn lemma_ranks_kept(a: Seq<Idx>, b: Seq<Idx>, ISAd: Idx, first: Idx, m: int, n: int)
    requires
        0 <= first,
        0 <= m <= n,
        first + n <= b.len(),
        same_outside(a, b, first as int, first + m),
        range_entries(a, first as int, first + m) == range_entries(b, first as int, first + m),
        heap_ranks_outside(b, ISAd, first, n),
    ensures
        heap_ranks_outside(a, ISAd, first, n),
{
    assert forall|k: int| first <= k < first + n implies !(first <= heap_rank_pos(ISAd, first, #[trigger] a[k]) < first + n) by {
        if k < first + m {
            let j = lemma_entry_from(a, b, first as int, first + m, k);
            assert(b[j] == a[k]);
        } else {
            assert(a[k] == b[k]);
        }
    }
}

/// Heap order read in one base holds in any base that agrees outside the
/// `n` entries from `first`.
proof fn lemma_heap_rebase(s: Seq<Idx>, b1: Seq<Idx>, b2: Seq<Idx>, ISAd: Idx, first: Idx, lo: int, m: int, n: int)
    requires
        0 <= m <= n,
        is_heap_from(s, b1, ISAd, first, lo, m),
        heap_ranks_outside(s, ISAd, first, n),
        same_outside(b1, b2, first as int, first + n),
    ensures
        is_heap_from(s, b2, ISAd, first, lo, m),
{
    assert forall|c: int| 1 <= c < m && lo <= heap_parent(c) implies heap_rank(b2, ISAd, first, #[trigger] s[first + c])
        <= heap_rank(b2, ISAd, first, s[first + heap_parent(c)]) by {
        lemma_heap_rank_parent(c);
        lemma_heap_rank_stable(b1, b2, ISAd, first, n, s[first + c]);
        lemma_heap_rank_stable(b1, b2, ISAd, first, n, s[first + heap_parent(c)]);
    }
}

/// The heap order of the nodes below the root survives a new root.
proof fn lemma_heap_new_root(s0: Seq<Idx>, s2: Seq<Idx>, base: Seq<Idx>, ISAd: Idx, first: Idx, m: int, n: int)
    requires
        0 <= first,
        1 <= m <= n,
        first + n <= s0.len(),
        s2.len() == s0.len(),
        forall|k: int| first + 1 <= k < first + m ==> s2[k] == s0[k],
        is_heap_from(s0, base, ISAd, first, 0, m),
        heap_ranks_outside(s2, ISAd, first, n),
        same_outside(s2, base, first as int, first + n),
    ensures
        is_heap_from(s2, s2, ISAd, first, 1, m),
{
    assert forall|c: int| 1 <= c < m && 1 <= heap_parent(c) implies heap_rank(base, ISAd, first, #[trigger] s2[first + c])
        <= heap_rank(base, ISAd, first, s2[first + heap_parent(c)]) by {
        lemma_heap_rank_parent(c);
        assert(s2[first + c] == s0[first + c]);
        assert(s2[first + heap_parent(c)] == s0[first + heap_parent(c)]);
    }
    lemma_heap_rebase(s2, base, s2, ISAd, first, 1, m, n);
}

/// What holds of the heapsort's second phase when `i` entries remain in the
/// heap: the heap order, and every entry from `i` on ranks no lower than
/// any entry before it.
spec fn popping(s: Seq<Idx>, base: Seq<Idx>, ISAd: Idx, first: Idx, i: int, n: int) -> bool {
    &&& is_heap_from(s, base, ISAd, first, 0, i)
    &&& forall|k: int, k2: int|
        0 <= k < k2 < n && i <= k2 ==> heap_rank(base, ISAd, first, #[trigger] s[first + k]) <= heap_rank(
            base,
            ISAd,
            first,
            #[trigger] s[first + k2],
        )
}

/// `x` is one of the entries at nodes `0` to `i`.
spec fn among_first(s: Seq<Idx>, first: Idx, i: int, x: Idx) -> bool {
    exists|j: int| 0 <= j <= i && #[trigger] s[first + j] == x
}

/// One step of the second phase: the root moves to node `i`, the entry at
/// `i` to the root, and the sifting restores the heap of `i` entries.
proof fn lemma_pop_step(
    s0: Seq<Idx>,
    s2: Seq<Idx>,
    s3: Seq<Idx>,
    base: Seq<Idx>,
    ISAd: Idx,
    first: Idx,
    i: int,
    n: int,
)
    requires
        0 <= first,
        1 <= i < n,
        first + n <= s0.len(),
        popping(s0, base, ISAd, first, i + 1, n),
        s2 == s0.update(first as int, s0[first + i]),
        same_outside(s3, s2, first as int, first + i),
        range_entries(s3, first as int, first + i) == range_entries(s2, first as int, first + i),
        is_heap_from(s3, base, ISAd, first, 0, i),
    ensures
        popping(s3.update(first + i, s0[first as int]), base, ISAd, first, i, n),
        range_entries(s3.update(first + i, s0[first as int]), first as int, first + n) == range_entries(
            s0,
            first as int,
            first + n,
        ),
{
    let s4 = s3.update(first + i, s0[first as int]);
    let rk = |x: Idx| heap_rank(base, ISAd, first, x);
    // every entry now before `i` came from the first `i + 1` places
    assert forall|k: int| 0 <= k < i implies #[trigger] among_first(s0, first, i, s4[first + k]) by {
        let j = lemma_entry_from(s3, s2, first as int, first + i, first + k);
        if j == first {
            assert(s0[first + i] == s4[first + k]);
        } else {
            assert(s0[j] == s4[first + k]);
            assert(s0[first + (j - first)] == s4[first + k]);
        }
    }
    assert forall|k: int| 0 <= k < i implies #[trigger] among_first(s0, first, i, s4[first + k]) by {}
    assert forall|c: int| 1 <= c < i && 0 <= heap_parent(c) implies rk(#[trigger] s4[first + c]) <= rk(
        s4[first + heap_parent(c)],
    ) by {
        lemma_heap_rank_parent(c);
        assert(s4[first + c] == s3[first + c]);
        assert(s4[first + heap_parent(c)] == s3[first + heap_parent(c)]);
    }
    assert forall|k: int, k2: int| 0 <= k < k2 < n && i <= k2 implies rk(#[trigger] s4[first + k]) <= rk(
        #[trigger] s4[first + k2],
    ) by {
        if k2 > i {
            assert(s4[first + k2] == s0[first + k2]);
            if k > i {
                assert(s4[first + k] == s0[first + k]);
            } else if k == i {
                assert(rk(s0[first + 0]) <= rk(s0[first + k2]));
            } else {
                assert(among_first(s0, first, i, s4[first + k]));
                let j = choose|j: int| 0 <= j <= i && #[trigger] s0[first + j] == s4[first + k];
                assert(rk(s0[first + j]) <= rk(s0[first + k2]));
            }
        } else {
            assert(s4[first + k2] == s0[first + 0]);
            assert(among_first(s0, first, i, s4[first + k]));
            let j = choose|j: int| 0 <= j <= i && #[trigger] s0[first + j] == s4[first + k];
            lemma_heap_root(s0, base, ISAd, first, i + 1, j);
        }
    }
    // the entries: a swap of the root with node `i`, then a rearrangement of the first `i`
    let w = swapped(s0, first as int, first + i);
    lemma_swap_entries(s0, first as int, first + i, first as int, first + n);
    lemma_same_range_entries(w, s2, first as int, first + i);
    lemma_same_range_entries(s4, s3, first as int, first + i);
    lemma_same_range_entries(s4, w, first + i, first + n);
    lemma_split_entries(s4, first as int, first + i, first + n);
    lemma_split_entries(w, first as int, first + i, first + n);
}

/// With one entry left in the heap, the second phase is done.
proof fn lemma_popped(s: Seq<Idx>, base: Seq<Idx>, ISAd: Idx, first: Idx, n: int)
    requires
        popping(s, base, ISAd, first, 1, n),
    ensures
        heap_rank_sorted(s, base, ISAd, first, n),
{
    assert forall|k: int, k2: int| first <= k < k2 < first + n implies heap_rank(base, ISAd, first, #[trigger] s[k])
        <= heap_rank(base, ISAd, first, #[trigger] s[k2]) by {
        assert(s[first + (k - first)] == s[k]);
        assert(s[first + (k2 - first)] == s[k2]);
    }
}

/// For an even count: the root of the heap of the first `m` entries is put
/// last, and the entry that was last becomes the root.
proof fn lemma_even_prepare(s1: Seq<Idx>, s2: Seq<Idx>, base: Seq<Idx>, ISAd: Idx, first: Idx, m: int, n: int, cond: bool)
    requires
        0 <= first,
        1 <= m,
        n == m + 1,
        first + n <= s2.len(),
        s1.len() == s2.len(),
        same_outside(s2, s1, first as int, first + m),
        same_outside(s1, base, first as int, first + n),
        range_entries(s2, first as int, first + m) == range_entries(s1, first as int, first + m),
        range_entries(s1, first as int, first + n) == range_entries(base, first as int, first + n),
        cond ==> heap_ranks_outside(s2, ISAd, first, n),
        cond ==> is_heap_from(s2, base, ISAd, first, 0, m),
    ensures
        range_entries(swapped(s2, first as int, first + m), first as int, first + n) == range_entries(base, first as int, first + n),
        cond ==> heap_ranks_outside(swapped(s2, first as int, first + m), ISAd, first, n),
        cond ==> heap_ranks_outside(swapped(s2, first as int, first + m), ISAd, first, m),
        cond ==> is_heap_from(swapped(s2, first as int, first + m), swapped(s2, first as int, first + m), ISAd, first, 1, m),
{
    let s3 = swapped(s2, first as int, first + m);
    lemma_same_range_entries(s2, s1, first + m, first + n);
    lemma_split_entries(s2, first as int, first + m, first + n);
    lemma_split_entries(s1, first as int, first + m, first + n);
    lemma_swap_entries(s2, first as int, first + m, first as int, first + n);
    if cond {
        assert forall|k: int| first <= k < first + n implies !(first <= heap_rank_pos(ISAd, first, #[trigger] s3[k]) < first + n) by {
            if k == first + m {
                assert(s3[k] == s2[first as int]);
            } else if k == first {
                assert(s3[k] == s2[first + m]);
            } else {
                assert(s3[k] == s2[k]);
            }
        }
        lemma_heap_new_root(s2, s3, base, ISAd, first, m, n);
        lemma_ranks_narrow(s3, ISAd, first, m, n);
    }
}

/// For an even count: once the new root has sifted down, the heap of the
/// first `m` entries holds no entry that outranks the one put last.
proof fn lemma_even_finish(
    s1: Seq<Idx>,
    s2: Seq<Idx>,
    s3: Seq<Idx>,
    s4: Seq<Idx>,
    base: Seq<Idx>,
    ISAd: Idx,
    first: Idx,
    m: int,
    n: int,
    cond: bool,
)
    requires
        0 <= first,
        1 <= m,
        m % 2 == 1,
        n == m + 1,
        first + n <= s2.len(),
        s1.len() == s2.len(),
        s3 == swapped(s2, first as int, first + m),
        same_outside(s2, s1, first as int, first + m),
        same_outside(s1, base, first as int, first + n),
        range_entries(s2, first as int, first + m) == range_entries(s1, first as int, first + m),
        range_entries(s3, first as int, first + n) == range_entries(base, first as int, first + n),
        same_outside(s4, s3, first as int, first + m),
        range_entries(s4, first as int, first + m) == range_entries(s3, first as int, first + m),
        cond ==> heap_ranks_outside(s3, ISAd, first, n),
        cond ==> is_heap_from(s2, base, ISAd, first, 0, m),
        cond ==> is_heap_from(s4, s3, ISAd, first, 0, m),
        cond ==> heap_rank(base, ISAd, first, s1[first + m]) <= heap_rank(base, ISAd, first, s1[first + m / 2]),
    ensures
        range_entries(s4, first as int, first + n) == range_entries(base, first as int, first + n),
        cond ==> heap_ranks_outside(s4, ISAd, first, n),
        cond ==> popping(s4, base, ISAd, first, m, n),
{
    lemma_same_range_entries(s4, s3, first + m, first + n);
    lemma_split_entries(s4, first as int, first + m, first + n);
    lemma_split_entries(s3, first as int, first + m, first + n);
    if cond {
        lemma_ranks_kept(s4, s3, ISAd, first, m, n);
        assert(same_outside(s3, base, first as int, first + n));
        lemma_heap_rebase(s4, s3, base, ISAd, first, 0, m, n);
        // the entry first put last ranks highest of all
        let jw = lemma_entry_from(s1, s2, first as int, first + m, first + m / 2);
        lemma_heap_root(s2, base, ISAd, first, m, jw - first);
        assert(s2[first + m] == s1[first + m]);
        assert forall|k: int, k2: int|
            0 <= k < k2 < n && m <= k2 implies heap_rank(base, ISAd, first, #[trigger] s4[first + k])
                <= heap_rank(base, ISAd, first, #[trigger] s4[first + k2]) by {
            assert(k2 == m);
            assert(s4[first + k2] == s2[first as int]);
            let j = lemma_entry_from(s4, s3, first as int, first + m, first + k);
            if j == first {
                assert(s3[j] == s2[first + m]);
            } else {
                assert(s3[j] == s2[j]);
                lemma_heap_root(s2, base, ISAd, first, m, j - first);
            }
        }
    }
}

/// After one step of the second phase, what the loop keeps holds again with
/// one entry fewer in the heap.
proof fn lemma_pop_post(
    s0: Seq<Idx>,
    s2: Seq<Idx>,
    s3: Seq<Idx>,
    s4: Seq<Idx>,
    base: Seq<Idx>,
    ISAd: Idx,
    first: Idx,
    i: int,
    n: int,
    cond: bool,
)
    requires
        0 <= first,
        1 <= i < n,
        first + n <= s0.len(),
        s2 == s0.update(first as int, s0[first + i]),
        same_outside(s0, base, first as int, first + n),
        range_entries(s0, first as int, first + n) == range_entries(base, first as int, first + n),
        same_outside(s3, s2, first as int, first + i),
        range_entries(s3, first as int, first + i) == range_entries(s2, first as int, first + i),
        s4 == s3.update(first + i, s0[first as int]),
        cond ==> heap_ranks_outside(s0, ISAd, first, n),
        cond ==> heap_ranks_outside(s2, ISAd, first, n),
        cond ==> popping(s0, base, ISAd, first, i + 1, n),
        cond ==> is_heap_from(s3, s2, ISAd, first, 0, i),
    ensures
        same_outside(s4, base, first as int, first + n),
        range_entries(s4, first as int, first + n) == range_entries(base, first as int, first + n),
        cond ==> heap_ranks_outside(s4, ISAd, first, n),
        cond ==> popping(s4, base, ISAd, first, i, n),
{
    lemma_pop_entries(s0, s2, s3, first as int, i, n);
    if cond {
        lemma_ranks_kept(s3, s2, ISAd, first, i, n);
        assert(same_outside(s2, base, first as int, first + n));
        lemma_heap_rebase(s3, s2, base, ISAd, first, 0, i, n);
        lemma_pop_step(s0, s2, s3, base, ISAd, first, i, n);
        assert forall|k: int| first <= k < first + n implies !(first <= heap_rank_pos(ISAd, first, #[trigger] s4[k]) < first + n) by {
            if k == first + i {
                assert(s4[k] == s0[first as int]);
                assert(s0[first + 0] == s0[first as int]);
            } else {
                assert(s4[k] == s3[k]);
            }
        }
    }
}

/// Simple top-down heapsort of the `size` entries from `first`.
///
/// The entries stay those there were; where their ranks are read outside
/// them, they end in nondecreasing order of rank.
#[verifier::rlimit(100)]
#[verifier::spinoff_prover]
pub fn tr_heapsort(ISAd: Idx, SA: &mut [Idx], first: Idx, size: Idx)
    requires
        0 <= first,
        1 <= size,
        first + size <= old(SA)@.len(),
        old(SA)@.len() <= i32::MAX,
    ensures
        same_outside(final(SA)@, old(SA)@, first as int, first + size),
        range_entries(final(SA)@, first as int, first + size) == range_entries(old(SA)@, first as int, first + size),
        heap_ranks_outside(old(SA)@, ISAd, first, size as int) ==> heap_rank_sorted(
            final(SA)@,
            old(SA)@,
            ISAd,
            first,
            size as int,
        ),
{
    let ghost base = SA@;
    let ghost n = size as int;
    let ghost cond = heap_ranks_outside(base, ISAd, first, n);
    let mut m: Idx = size;
    let mut t: Idx;
    if (size % 2) == 0 {
        m -= 1;
        if tr_heap_key(SA, ISAd, first, m / 2) < tr_heap_key(SA, ISAd, first, m) {
            sa_swap(SA, first + m, first + m / 2);
            proof {
                lemma_swap_entries(base, first + m, first + m / 2, first as int, first + n);
                if cond {
                    assert forall|k: int| first <= k < first + n implies !(first <= heap_rank_pos(ISAd, first, #[trigger] SA@[k]) < first + n) by {
                        if k == first + m {
                            assert(SA@[k] == base[first + m / 2]);
                        } else if k == first + m / 2 {
                            assert(SA@[k] == base[first + m]);
                        } else {
                            assert(SA@[k] == base[k]);
                        }
                    }
                }
            }
        }
    }
    let ghost s1 = SA@;
    proof {
        if cond && size % 2 == 0 {
            assert(heap_rank(base, ISAd, first, s1[first + m]) <= heap_rank(base, ISAd, first, s1[first + m / 2]));
        }
    }
    let mut i: Idx = m / 2;
    while 0 < i
        invariant
            0 <= first,
            1 <= m <= size,
            m % 2 == 1,
            m == size || m + 1 == size,
            0 <= i <= m / 2,
            first + size <= SA@.len(),
            SA@.len() <= i32::MAX,
            base == old(SA)@,
            n == size,
            cond == heap_ranks_outside(base, ISAd, first, n),
            same_outside(SA@, base, first as int, first + size),
            same_outside(SA@, s1, first as int, first + m),
            same_outside(s1, base, first as int, first + size),
            range_entries(s1, first as int, first + n) == range_entries(base, first as int, first + n),
            range_entries(SA@, first as int, first + m) == range_entries(s1, first as int, first + m),
            cond ==> heap_ranks_outside(s1, ISAd, first, n),
            cond ==> heap_ranks_outside(SA@, ISAd, first, n),
            cond ==> is_heap_from(SA@, base, ISAd, first, i as int, m as int),
        decreases i,
    {
        i -= 1;
        let ghost s0 = SA@;
        proof {
            if cond {
                lemma_ranks_narrow(s0, ISAd, first, m as int, n);
                lemma_heap_rebase(s0, base, s0, ISAd, first, i + 1, m as int, n);
            }
        }
        tr_fixdown(ISAd, SA, first, i, m);
        proof {
            if cond {
                lemma_ranks_kept(SA@, s0, ISAd, first, m as int, n);
                lemma_heap_rebase(SA@, s0, base, ISAd, first, i as int, m as int, n);
            }
        }
    }
    proof {
        if cond {
            assert(is_heap_from(SA@, base, ISAd, first, 0, m as int));
        }
    }
    if (size % 2) == 0 {
        let ghost s2 = SA@;
        sa_swap(SA, first + 0, first + m);
        let ghost s3 = SA@;
        proof {
            lemma_even_prepare(s1, s2, base, ISAd, first, m as int, n, cond);
        }
        tr_fixdown(ISAd, SA, first, 0, m);
        proof {
            lemma_even_finish(s1, s2, s3, SA@, base, ISAd, first, m as int, n, cond);
        }
    } else {
        proof {
            assert(m == size);
        }
    }
    let mut i: Idx = m;
    while 1 < i
        invariant
            0 <= first,
            1 <= m <= size,
            1 <= i <= m,
            first + size <= SA@.len(),
            SA@.len() <= i32::MAX,
            base == old(SA)@,
            n == size,
            cond == heap_ranks_outside(base, ISAd, first, n),
            same_outside(SA@, base, first as int, first + size),
            range_entries(SA@, first as int, first + n) == range_entries(base, first as int, first + n),
            cond ==> heap_ranks_outside(SA@, ISAd, first, n),
            cond ==> popping(SA@, base, ISAd, first, i as int, n),
        decreases i,
    {
        i -= 1;
        let ghost s0 = SA@;
        t = SA[first as usize];
        let tmp_v = SA[(first + i) as usize];
        SA[first as usize] = tmp_v;
        let ghost s2 = SA@;
        proof {
            if cond {
                assert forall|k: int| first <= k < first + n implies !(first <= heap_rank_pos(ISAd, first, #[trigger] s2[k]) < first + n) by {
                    if k == first {
                        assert(s2[k] == s0[first + i]);
                    } else {
                        assert(s2[k] == s0[k]);
                    }
                }
                lemma_heap_new_root(s0, s2, base, ISAd, first, i as int, n);
                lemma_ranks_narrow(s2, ISAd, first, i as int, n);
            }
        }
        tr_fixdown(ISAd, SA, first, 0, i);
        let ghost s3 = SA@;
        SA[(first + i) as usize] = t;
        proof {
            assert(SA@ =~= s3.update(first + i, s0[first as int]));
            lemma_pop_post(s0, s2, s3, SA@, base, ISAd, first, i as int, n, cond);
        }
    }
    proof {
        if cond {
            lemma_popped(SA@, base, ISAd, first, n);
        }
    }
}

/// Returns the median of three elements
pub fn tr_median3(SA: &[Idx], ISAd: Idx, v1: Idx, v2: Idx, v3: Idx) -> (r: Idx)
    requires
        0 <= v1 < SA@.len(),
        0 <= v2 < SA@.len(),
        0 <= v3 < SA@.len(),
    ensures
        r == v1 || r == v2 || r == v3,
        tr_rank(SA@, ISAd, r as int) == median3(
            tr_rank(SA@, ISAd, v1 as int),
            tr_rank(SA@, ISAd, v2 as int),
            tr_rank(SA@, ISAd, v3 as int),
        ),
{
    let mut v1 = v1;
    let mut v2 = v2;
    if tr_key(SA, ISAd, v1) > tr_key(SA, ISAd, v2) {
        let t = v1;
        v1 = v2;
        v2 = t;
    }
    if tr_key(SA, ISAd, v2) > tr_key(SA, ISAd, v3) {
        if tr_key(SA, ISAd, v1) > tr_key(SA, ISAd, v3) {
            v1
        } else {
            v3
        }
    } else {
        v2
    }
}

/// Returns the median of five elements
pub fn tr_median5(SA: &[Idx], ISAd: Idx, v1: Idx, v2: Idx, v3: Idx, v4: Idx, v5: Idx) -> (r: Idx)
    requires
        0 <= v1 < SA@.len(),
        0 <= v2 < SA@.len(),
        0 <= v3 < SA@.len(),
        0 <= v4 < SA@.len(),
        0 <= v5 < SA@.len(),
    ensures
        r == v1 || r == v2 || r == v3 || r == v4 || r == v5,
        is_median5(
            tr_rank(SA@, ISAd, r as int),
            tr_rank(SA@, ISAd, v1 as int),
            tr_rank(SA@, ISAd, v2 as int),
            tr_rank(SA@, ISAd, v3 as int),
            tr_rank(SA@, ISAd, v4 as int),
            tr_rank(SA@, ISAd, v5 as int),
        ),
{
    let mut v1 = v1;
    let mut v2 = v2;
    let mut v3 = v3;
    let mut v4 = v4;
    let mut v5 = v5;
    let mut t: Idx;
    if tr_key(SA, ISAd, v2) > tr_key(SA, ISAd, v3) {
        t = v2;
        v2 = v3;
        v3 = t;
    }
    if tr_key(SA, ISAd, v4) > tr_key(SA, ISAd, v5) {
        t = v4;
        v4 = v5;
        v5 = t;
    }
    if tr_key(SA, ISAd, v2) > tr_key(SA, ISAd, v4) {
        t = v2;
        v2 = v4;
        v4 = t;
        t = v3;
        v3 = v5;
        v5 = t;
    }
    if tr_key(SA, ISAd, v1) > tr_key(SA, ISAd, v3) {
        t = v1;
        v1 = v3;
        v3 = t;
    }
    if tr_key(SA, ISAd, v1) > tr_key(SA, ISAd, v4) {
        t = v1;
        v1 = v4;
        v4 = t;
        t = v3;
        v3 = v5;
        v5 = t;
    }
    if tr_key(SA, ISAd, v3) > tr_key(SA, ISAd, v4) {
        v4
    } else {
        v3
    }
}

/// Returns the pivot element: the entry of median rank among the first,
/// middle and last entries of the range (among five entries spread over
/// ranges longer than 32, and a median of three such medians over ranges
/// longer than 512).
pub fn tr_pivot(SA: &[Idx], ISAd: Idx, first: Idx, last: Idx) -> (r: Idx)
    requires
        0 <= first < last <= SA@.len(),
    ensures
        first <= r < last,
        ({
            let n = last - first;
            let m = first + n / 2;
            let q = n / 4;
            let e = n / 8;
            let k = |x: int| tr_rank(SA@, ISAd, x);
            &&& n <= 32 ==> k(r as int) == median3(k(first as int), k(m), k(last - 1))
            &&& 32 < n <= 512 ==> is_median5(
                k(r as int),
                k(first as int),
                k(first + q),
                k(m),
                k(last - 1 - q),
                k(last - 1),
            )
            &&& 512 < n ==> k(r as int) == median3(
                median3(k(first as int), k(first + e), k(first + 2 * e)),
                median3(k(m - e), k(m), k(m + e)),
                median3(k(last - 1 - 2 * e), k(last - 1 - e), k(last - 1)),
            )
        }),
{
    let mut t: Idx = last - first;
    let mut middle: Idx = first + t / 2;
    if t <= 512 {
        if t <= 32 {
            return tr_median3(SA, ISAd, first, middle, last - 1);
        } else {
            t = t / 4;
            return tr_median5(SA, ISAd, first, first + t, middle, last - 1 - t, last - 1);
        }
    }
    t = t / 8;
    let first2 = tr_median3(SA, ISAd, first, first + t, first + (t * 2));
    middle = tr_median3(SA, ISAd, middle - t, middle, middle + t);
    let last2 = tr_median3(SA, ISAd, last - 1 - (t * 2), last - 1 - t, last - 1);
    tr_median3(SA, ISAd, first2, middle, last2)
}

/// How much more sorting work the tandem repeat sort may spend before it
/// gives up on a group (and counts the sizes it gave up on).
pub struct Budget {
    pub chance: Idx,
    pub remain: Idx,
    pub incval: Idx,
    pub count: Idx,
}

impl Budget {
    /// The fields within which `check` can always do its arithmetic.
    pub open spec fn in_range(&self) -> bool {
        &&& 0 <= self.chance
        &&& 0 <= self.remain <= self.incval
        &&& 0 <= self.count
    }

    pub fn new(chance: Idx, incval: Idx) -> (r: Self)
        ensures
            r.chance == chance,
            r.remain == incval,
            r.incval == incval,
            r.count == 0,
    {
        Budget { chance, remain: incval, incval, count: 0 }
    }

    /// Spends `size` from what remains, or one more chance to refill by
    /// `incval`; without either, adds `size` to `count` and refuses.
    pub fn check(&mut self, size: Idx) -> (r: bool)
        requires
            size <= old(self).remain ==> old(self).remain - size <= i32::MAX,
            size > old(self).remain && old(self).chance == 0 ==> old(self).count + size <= i32::MAX
                && i32::MIN <= old(self).count + size,
            size > old(self).remain && old(self).chance != 0 ==> i32::MIN <= old(self).incval - size
                <= i32::MAX && i32::MIN <= old(self).remain + (old(self).incval - size) <= i32::MAX
                && i32::MIN < old(self).chance,
        ensures
            final(self).incval == old(self).incval,
            old(self).in_range() && 0 <= size <= old(self).incval ==> final(self).in_range(),
            size <= old(self).remain ==> r && final(self).remain == old(self).remain - size
                && final(self).chance == old(self).chance && final(self).count == old(
                self,
            ).count,
            size > old(self).remain && old(self).chance == 0 ==> !r && final(self).count == old(
                self,
            ).count + size && final(self).remain == old(self).remain && final(self).chance
                == old(self).chance,
            size > old(self).remain && old(self).chance != 0 ==> r && final(self).remain == old(
                self,
            ).remain + old(self).incval - size && final(self).chance == old(self).chance - 1
                && final(self).count == old(self).count,
    {
        if size <= self.remain {
            self.remain -= size;
            return true;
        }
        if self.chance == 0 {
            self.count += size;
            return false;
        }
        self.remain += self.incval - size;
        self.chance -= 1;
        return true;
    }
}


/// The rank of the entry `x` read in `base` at offset `ISAd`.
pub open spec fn group_rank(base: Seq<Idx>, ISAd: Idx, x: Idx) -> int {
    at(base, ISAd.wrapping_add(x) as int) as int
}

/// The ranks of the entries of `[lo, hi)` of `s` are read outside that range.
pub open spec fn group_ranks_outside(s: Seq<Idx>, ISAd: Idx, lo: int, hi: int) -> bool {
    forall|k: int| lo <= k < hi ==> !(lo <= ISAd.wrapping_add(#[trigger] s[k]) < hi)
}

/// Every entry of `[i, j)` of `s` ranks below `v`.
pub open spec fn ranks_below(s: Seq<Idx>, base: Seq<Idx>, ISAd: Idx, i: int, j: int, v: Idx) -> bool {
    forall|k: int| i <= k < j ==> group_rank(base, ISAd, #[trigger] s[k]) < v
}

/// Every entry of `[i, j)` of `s` ranks `v`.
pub open spec fn ranks_equal(s: Seq<Idx>, base: Seq<Idx>, ISAd: Idx, i: int, j: int, v: Idx) -> bool {
    forall|k: int| i <= k < j ==> group_rank(base, ISAd, #[trigger] s[k]) == v
}

/// Every entry of `[i, j)` of `s` ranks above `v`.
pub open spec fn ranks_above(s: Seq<Idx>, base: Seq<Idx>, ISAd: Idx, i: int, j: int, v: Idx) -> bool {
    forall|k: int| i <= k < j ==> group_rank(base, ISAd, #[trigger] s[k]) > v
}

/// A rank read in the current array is the one read in `base`, where the
/// two agree outside `[lo, hi)` and the rank is read outside it.
proof fn lemma_read_rank(s: Seq<Idx>, base: Seq<Idx>, ISAd: Idx, lo: int, hi: int, k: int)
    requires
        0 <= lo <= k < hi <= s.len(),
        same_outside(s, base, lo, hi),
        group_ranks_outside(s, ISAd, lo, hi),
    ensures
        tr_rank(s, ISAd, k) == group_rank(base, ISAd, s[k]),
{
}

/// Exchanging two entries of `[lo, hi)` keeps its entries, and keeps their
/// ranks read outside it.
proof fn lemma_part_swap(s: Seq<Idx>, ISAd: Idx, lo: int, hi: int, i: int, j: int)
    requires
        0 <= lo <= i < hi <= s.len(),
        lo <= j < hi,
    ensures
        range_entries(swapped(s, i, j), lo, hi) == range_entries(s, lo, hi),
        group_ranks_outside(s, ISAd, lo, hi) ==> group_ranks_outside(swapped(s, i, j), ISAd, lo, hi),
{
    lemma_swap_entries(s, i, j, lo, hi);
    if group_ranks_outside(s, ISAd, lo, hi) {
        assert forall|k: int| lo <= k < hi implies !(lo <= ISAd.wrapping_add(
            #[trigger] swapped(s, i, j)[k],
        ) < hi) by {
            if k == i {
                assert(swapped(s, i, j)[k] == s[j]);
            } else if k == j {
                assert(swapped(s, i, j)[k] == s[i]);
            } else {
                assert(swapped(s, i, j)[k] == s[k]);
            }
        }
    }
}

/// Tandem repeat partition: groups the entries of `[first, last)` whose rank
/// equals `v` in the middle and returns that group's bounds in `pa`, `pb`.
///
/// The entries stay those there were. Where their ranks are read outside
/// the range and those of `[first, middle)` equal `v`, the entries of
/// `[first, pa)` rank below `v`, those of `[pa, pb)` rank `v` and those of
/// `[pb, last)` rank above it.
#[verifier::rlimit(100)]
#[verifier::spinoff_prover]
pub fn tr_partition(
    SA: &mut [Idx],
    ISAd: Idx,
    first: Idx,
    middle: Idx,
    last: Idx,
    pa: &mut Idx,
    pb: &mut Idx,
    v: Idx,
)
    requires
        0 <= first <= middle <= last <= old(SA)@.len(),
        old(SA)@.len() < i32::MAX,
    ensures
        first <= *final(pa) <= *final(pb) <= last,
        same_outside(final(SA)@, old(SA)@, first as int, last as int),
        range_entries(final(SA)@, first as int, last as int) == range_entries(old(SA)@, first as int, last as int),
        group_ranks_outside(old(SA)@, ISAd, first as int, last as int) && ranks_equal(
            old(SA)@,
            old(SA)@,
            ISAd,
            first as int,
            middle as int,
            v,
        ) ==> ranks_below(final(SA)@, old(SA)@, ISAd, first as int, *final(pa) as int, v)
            && ranks_equal(final(SA)@, old(SA)@, ISAd, *final(pa) as int, *final(pb) as int, v)
            && ranks_above(final(SA)@, old(SA)@, ISAd, *final(pb) as int, last as int, v),
{
    let ghost base = SA@;
    let ghost lo = first as int;
    let ghost hi = last as int;
    let ghost cond = group_ranks_outside(base, ISAd, lo, hi) && ranks_equal(base, base, ISAd, lo, middle as int, v);
    let mut first = first;
    let mut last = last;
    let mut a: Idx;
    let mut b: Idx;
    let mut c: Idx;
    let mut d: Idx;
    let mut e: Idx;
    let mut f: Idx;
    let mut t: Idx;
    let mut s: Idx;
    let mut x: Idx = 0;
    // JOSEPH
    b = middle - 1;
    loop
        invariant_except_break
            b < last,
            cond ==> ranks_equal(SA@, base, ISAd, lo, b + 1, v),
        invariant
            lo == first,
            hi == last,
            first - 1 <= b, middle - 1 <= b <= last,
            0 <= lo <= hi <= SA@.len(),
            SA@ == base,
            cond == (group_ranks_outside(base, ISAd, lo, hi) && ranks_equal(base, base, ISAd, lo, middle as int, v)),
        ensures
            middle <= b <= last,
            SA@ == base,
            b < last ==> x != v && x == group_rank(base, ISAd, SA@[b as int]),
            cond ==> ranks_equal(SA@, base, ISAd, lo, b as int, v),
        decreases last - b,
    {
        b += 1;
        if !(b < last) {
            break;
        }
        x = tr_key(SA, ISAd, b);
        if !(x == v) {
            break;
        }
    }
    a = b;
    if (a < last) && (x < v) {
        // MARY
        loop
            invariant_except_break
                b < last,
                cond && b < last ==> ranks_below(SA@, base, ISAd, a as int, b + 1, v),
            invariant
                lo == first,
                hi == last,
                first <= middle <= a <= b <= last,
                0 <= lo <= hi <= SA@.len(),
                SA@.len() < i32::MAX,
                same_outside(SA@, base, lo, hi),
                range_entries(SA@, lo, hi) == range_entries(base, lo, hi),
                cond ==> group_ranks_outside(SA@, ISAd, lo, hi),
                cond ==> ranks_equal(SA@, base, ISAd, lo, a as int, v),
            ensures
                first <= middle <= a <= b <= last,
                0 <= lo <= hi <= SA@.len(),
                SA@.len() < i32::MAX,
                same_outside(SA@, base, lo, hi),
                range_entries(SA@, lo, hi) == range_entries(base, lo, hi),
                cond ==> group_ranks_outside(SA@, ISAd, lo, hi),
                cond ==> ranks_equal(SA@, base, ISAd, lo, a as int, v),
                cond ==> ranks_below(SA@, base, ISAd, a as int, b as int, v),
                cond && b < last ==> group_rank(base, ISAd, SA@[b as int]) > v,
            decreases last - b,
        {
            b += 1;
            if !(b < last) {
                break;
            }
            x = tr_key(SA, ISAd, b);
            proof {
                if cond {
                    lemma_read_rank(SA@, base, ISAd, lo, hi, b as int);
                }
            }
            if !(x <= v) {
                break;
            }
            if x == v {
                let ghost s0 = SA@;
                sa_swap(SA, b, a);
                proof {
                    lemma_part_swap(s0, ISAd, lo, hi, b as int, a as int);
                }
                a += 1;
            }
        }
    } else {
        proof {
            if cond && b < last {
                assert(x > v);
            }
        }
    }
    // JEREMIAH
    let ghost s1 = SA@;
    c = last;
    loop
        invariant_except_break
            b <= c,
            cond ==> ranks_equal(SA@, base, ISAd, c as int, hi, v),
        invariant
            lo == first,
            hi == last,
            first <= middle <= a <= b <= last,
            b - 1 <= c <= last,
            0 <= lo <= hi <= SA@.len(),
            SA@ == s1,
            SA@.len() < i32::MAX,
            cond ==> group_ranks_outside(SA@, ISAd, lo, hi),
            same_outside(SA@, base, lo, hi),
            range_entries(SA@, lo, hi) == range_entries(base, lo, hi),
            cond ==> ranks_equal(SA@, base, ISAd, lo, a as int, v),
            cond ==> ranks_below(SA@, base, ISAd, a as int, b as int, v),
            cond && b < last ==> group_rank(base, ISAd, SA@[b as int]) > v,
        ensures
            b - 1 <= c < last,
            SA@ == s1,
            SA@.len() < i32::MAX,
            cond ==> group_ranks_outside(SA@, ISAd, lo, hi),
            same_outside(SA@, base, lo, hi),
            range_entries(SA@, lo, hi) == range_entries(base, lo, hi),
            cond ==> ranks_equal(SA@, base, ISAd, lo, a as int, v),
            cond ==> ranks_below(SA@, base, ISAd, a as int, b as int, v),
            cond && b < last ==> group_rank(base, ISAd, SA@[b as int]) > v,
            cond ==> ranks_equal(SA@, base, ISAd, c + 1, hi, v),
            b < c ==> x != v,
            cond && b < c ==> x == group_rank(base, ISAd, SA@[c as int]),
        decreases c,
    {
        c -= 1;
        if !(b < c) {
            break;
        }
        x = tr_key(SA, ISAd, c);
        proof {
            if cond {
                lemma_read_rank(SA@, base, ISAd, lo, hi, c as int);
            }
        }
        if !(x == v) {
            break;
        }
    }
    d = c;
    if (b < d) && (x > v) {
        // BEDELIA
        loop
            invariant_except_break
                b < c,
                cond && b < c ==> ranks_above(SA@, base, ISAd, c as int, d + 1, v),
            invariant
                lo == first,
                hi == last,
                first <= middle <= a <= b <= last,
                b - 1 <= c <= d < last,
                0 <= lo <= hi <= SA@.len(),
                SA@.len() < i32::MAX,
                same_outside(SA@, base, lo, hi),
                range_entries(SA@, lo, hi) == range_entries(base, lo, hi),
                cond ==> group_ranks_outside(SA@, ISAd, lo, hi),
                cond ==> ranks_equal(SA@, base, ISAd, lo, a as int, v),
                cond ==> ranks_below(SA@, base, ISAd, a as int, b as int, v),
                cond && b < last ==> group_rank(base, ISAd, SA@[b as int]) > v,
                cond ==> ranks_equal(SA@, base, ISAd, d + 1, hi, v),
            ensures
                b - 1 <= c <= d < last,
                0 <= lo <= hi <= SA@.len(),
                SA@.len() < i32::MAX,
                same_outside(SA@, base, lo, hi),
                range_entries(SA@, lo, hi) == range_entries(base, lo, hi),
                cond ==> group_ranks_outside(SA@, ISAd, lo, hi),
                cond ==> ranks_equal(SA@, base, ISAd, lo, a as int, v),
                cond ==> ranks_below(SA@, base, ISAd, a as int, b as int, v),
                cond && b < last ==> group_rank(base, ISAd, SA@[b as int]) > v,
                cond ==> ranks_above(SA@, base, ISAd, c + 1, d + 1, v),
                cond ==> ranks_equal(SA@, base, ISAd, d + 1, hi, v),
                cond && b < c ==> group_rank(base, ISAd, SA@[c as int]) < v,
            decreases c,
        {
            c -= 1;
            if !(b < c) {
                break;
            }
            x = tr_key(SA, ISAd, c);
            proof {
                if cond {
                    lemma_read_rank(SA@, base, ISAd, lo, hi, c as int);
                }
            }
            if !(x >= v) {
                break;
            }
            if x == v {
                let ghost s0 = SA@;
                sa_swap(SA, c, d);
                proof {
                    lemma_part_swap(s0, ISAd, lo, hi, c as int, d as int);
                }
                d -= 1;
            }
        }
    } else {
        proof {
            if cond && b < d {
                assert(x < v);
            }
        }
    }
    // ALEX
    while b < c
        invariant
            lo == first,
            hi == last,
            first <= middle <= a <= b <= last,
            b - 1 <= c <= d < last,
            0 <= lo <= hi <= SA@.len(),
            SA@.len() < i32::MAX,
            same_outside(SA@, base, lo, hi),
            range_entries(SA@, lo, hi) == range_entries(base, lo, hi),
            cond ==> group_ranks_outside(SA@, ISAd, lo, hi),
            cond ==> ranks_equal(SA@, base, ISAd, lo, a as int, v),
            cond ==> ranks_below(SA@, base, ISAd, a as int, b as int, v),
            cond ==> ranks_above(SA@, base, ISAd, c + 1, d + 1, v),
            cond ==> ranks_equal(SA@, base, ISAd, d + 1, hi, v),
            cond && b <= c ==> group_rank(base, ISAd, SA@[b as int]) > v,
            cond && b < c ==> group_rank(base, ISAd, SA@[c as int]) < v,
        decreases c - b + 1,
    {
        let ghost s0 = SA@;
        sa_swap(SA, b, c);
        proof {
            lemma_part_swap(s0, ISAd, lo, hi, b as int, c as int);
        }
        let ghost c0 = c;
        let ghost b0 = b;
        // SIMON
        loop
            invariant_except_break
                b < c,
                cond && b < c ==> ranks_below(SA@, base, ISAd, a as int, b + 1, v),
            invariant
                lo == first,
                hi == last,
                first <= middle <= a <= b <= c <= d < last,
                c == c0,
                b0 <= b,
                0 <= lo <= hi <= SA@.len(),
                SA@.len() < i32::MAX,
                same_outside(SA@, base, lo, hi),
                range_entries(SA@, lo, hi) == range_entries(base, lo, hi),
                cond ==> group_ranks_outside(SA@, ISAd, lo, hi),
                cond ==> ranks_equal(SA@, base, ISAd, lo, a as int, v),
                cond ==> ranks_above(SA@, base, ISAd, c as int, d + 1, v),
                cond ==> ranks_equal(SA@, base, ISAd, d + 1, hi, v),
            ensures
                first <= middle <= a <= b <= c <= d < last,
                c == c0,
                b0 <= b,
                0 <= lo <= hi <= SA@.len(),
                SA@.len() < i32::MAX,
                same_outside(SA@, base, lo, hi),
                range_entries(SA@, lo, hi) == range_entries(base, lo, hi),
                cond ==> group_ranks_outside(SA@, ISAd, lo, hi),
                cond ==> ranks_equal(SA@, base, ISAd, lo, a as int, v),
                cond ==> ranks_below(SA@, base, ISAd, a as int, b as int, v),
                cond ==> ranks_above(SA@, base, ISAd, c as int, d + 1, v),
                cond ==> ranks_equal(SA@, base, ISAd, d + 1, hi, v),
                cond && b < c ==> group_rank(base, ISAd, SA@[b as int]) > v,
            decreases c - b,
        {
            b += 1;
            if !(b < c) {
                break;
            }
            x = tr_key(SA, ISAd, b);
            proof {
                if cond {
                    lemma_read_rank(SA@, base, ISAd, lo, hi, b as int);
                }
            }
            if !(x <= v) {
                break;
            }
            if x == v {
                let ghost s1 = SA@;
                sa_swap(SA, b, a);
                proof {
                    lemma_part_swap(s1, ISAd, lo, hi, b as int, a as int);
                }
                a += 1;
            }
        }
        // GREGORY
        loop
            invariant_except_break
                b <= c,
                cond && b <= c ==> ranks_above(SA@, base, ISAd, c as int, d + 1, v),
            invariant
                lo == first,
                hi == last,
                first <= middle <= a <= b <= last,
                b - 1 <= c <= d < last,
                c <= c0,
                b0 <= b,
                0 <= lo <= hi <= SA@.len(),
                SA@.len() < i32::MAX,
                same_outside(SA@, base, lo, hi),
                range_entries(SA@, lo, hi) == range_entries(base, lo, hi),
                cond ==> group_ranks_outside(SA@, ISAd, lo, hi),
                cond ==> ranks_equal(SA@, base, ISAd, lo, a as int, v),
                cond ==> ranks_below(SA@, base, ISAd, a as int, b as int, v),
                cond ==> ranks_equal(SA@, base, ISAd, d + 1, hi, v),
                cond && b < c ==> group_rank(base, ISAd, SA@[b as int]) > v,
            ensures
                first <= middle <= a <= b <= last,
                b - 1 <= c <= d < last,
                c < c0,
                b0 <= b,
                0 <= lo <= hi <= SA@.len(),
                SA@.len() < i32::MAX,
                same_outside(SA@, base, lo, hi),
                range_entries(SA@, lo, hi) == range_entries(base, lo, hi),
                cond ==> group_ranks_outside(SA@, ISAd, lo, hi),
                cond ==> ranks_equal(SA@, base, ISAd, lo, a as int, v),
                cond ==> ranks_below(SA@, base, ISAd, a as int, b as int, v),
                cond ==> ranks_above(SA@, base, ISAd, c + 1, d + 1, v),
                cond ==> ranks_equal(SA@, base, ISAd, d + 1, hi, v),
                cond && b <= c ==> group_rank(base, ISAd, SA@[b as int]) > v,
                cond && b < c ==> group_rank(base, ISAd, SA@[c as int]) < v,
            decreases c,
        {
            c -= 1;
            if !(b < c) {
                break;
            }
            x = tr_key(SA, ISAd, c);
            proof {
                if cond {
                    lemma_read_rank(SA@, base, ISAd, lo, hi, c as int);
                }
            }
            if !(x >= v) {
                break;
            }
            if x == v {
                let ghost s1 = SA@;
                sa_swap(SA, c, d);
                proof {
                    lemma_part_swap(s1, ISAd, lo, hi, c as int, d as int);
                }
                d -= 1;
            }
        }
    }
    proof {
        if cond {
            assert(ranks_above(SA@, base, ISAd, b as int, d + 1, v));
        }
    }
    if a <= d {
        c = b - 1;
        s = a - first;
        t = b - a;
        if s > t {
            s = t;
        }
        let ghost s0 = s as int;
        // GENEVIEVE
        e = first;
        f = b - s;
        while 0 < s
            invariant
                lo == first,
                hi == last,
                first <= a <= b <= last,
                c == b - 1,
                c <= d < last,
                0 <= s <= s0,
                s0 <= a - first,
                s0 <= b - a,
                e == first + (s0 - s),
                f == b - s,
                0 <= lo <= hi <= SA@.len(),
                SA@.len() < i32::MAX,
                same_outside(SA@, base, lo, hi),
                range_entries(SA@, lo, hi) == range_entries(base, lo, hi),
                cond ==> group_ranks_outside(SA@, ISAd, lo, hi),
                cond ==> ranks_below(SA@, base, ISAd, lo, e as int, v),
                cond ==> ranks_equal(SA@, base, ISAd, e as int, lo + s0, v),
                cond ==> ranks_equal(SA@, base, ISAd, lo + s0, a as int, v),
                cond ==> ranks_below(SA@, base, ISAd, a as int, b - s0, v),
                cond ==> ranks_equal(SA@, base, ISAd, b - s0, f as int, v),
                cond ==> ranks_below(SA@, base, ISAd, f as int, b as int, v),
                cond ==> ranks_above(SA@, base, ISAd, b as int, d + 1, v),
                cond ==> ranks_equal(SA@, base, ISAd, d + 1, hi, v),
            decreases s,
        {
            let ghost w = SA@;
            sa_swap(SA, e, f);
            proof {
                lemma_part_swap(w, ISAd, lo, hi, e as int, f as int);
            }
            s -= 1;
            e += 1;
            f += 1;
        }
        proof {
            if cond {
                assert(ranks_below(SA@, base, ISAd, lo, lo + (b - a), v));
                assert(ranks_equal(SA@, base, ISAd, lo + (b - a), b as int, v));
            }
        }
        s = d - c;
        t = last - d - 1;
        if s > t {
            s = t;
        }
        let ghost r0 = s as int;
        // MARISSA
        e = b;
        f = last - s;
        while 0 < s
            invariant
                lo == first,
                hi == last,
                first <= a <= b <= last,
                c == b - 1,
                c <= d < last,
                0 <= s <= r0,
                r0 <= d - c,
                r0 <= last - d - 1,
                e == b + (r0 - s),
                f == last - s,
                0 <= lo <= hi <= SA@.len(),
                SA@.len() < i32::MAX,
                same_outside(SA@, base, lo, hi),
                range_entries(SA@, lo, hi) == range_entries(base, lo, hi),
                cond ==> group_ranks_outside(SA@, ISAd, lo, hi),
                cond ==> ranks_below(SA@, base, ISAd, lo, lo + (b - a), v),
                cond ==> ranks_equal(SA@, base, ISAd, lo + (b - a), b as int, v),
                cond ==> ranks_equal(SA@, base, ISAd, b as int, e as int, v),
                cond ==> ranks_above(SA@, base, ISAd, e as int, b + r0, v),
                cond ==> ranks_above(SA@, base, ISAd, b + r0, d + 1, v),
                cond ==> ranks_equal(SA@, base, ISAd, d + 1, hi - r0, v),
                cond ==> ranks_above(SA@, base, ISAd, hi - r0, f as int, v),
                cond ==> ranks_equal(SA@, base, ISAd, f as int, hi, v),
            decreases s,
        {
            let ghost w = SA@;
            sa_swap(SA, e, f);
            proof {
                lemma_part_swap(w, ISAd, lo, hi, e as int, f as int);
            }
            s -= 1;
            e += 1;
            f += 1;
        }
        proof {
            if cond {
                assert(ranks_equal(SA@, base, ISAd, b as int, hi - (d - c), v));
                assert(ranks_above(SA@, base, ISAd, hi - (d - c), hi, v));
            }
        }
        first += b - a;
        last -= d - c;
        proof {
            if cond {
                assert(ranks_equal(SA@, base, ISAd, first as int, last as int, v));
            }
        }
    } else {
        proof {
            if cond {
                assert(a == d + 1);
                assert(ranks_equal(SA@, base, ISAd, lo, hi, v));
            }
        }
    }
    *pa = first;
    *pb = last;
}

/// Tandem repeat copy: sorts the suffixes of the middle partition
/// `[a, b)` from the sorted order of the left and right partitions.
pub fn tr_copy(ISA: Idx, SA: &mut [Idx], first: Idx, a: Idx, b: Idx, last: Idx, depth: Idx)
    requires
        0 <= first <= a <= b <= last <= old(SA)@.len(),
        old(SA)@.len() < i32::MAX,
    ensures
        final(SA)@.len() == old(SA)@.len(),
{
    let mut c: Idx;
    let mut d: Idx;
    let mut e: Idx;
    let mut s: Idx;
    let v: Idx = b - 1;
    // JACK
    c = first;
    d = a - 1;
    while c <= d && d + 1 < b
        invariant
            0 <= first <= c,
            a - 1 <= d < b,
            b <= last <= SA@.len(),
            SA@.len() < i32::MAX,
            SA@.len() == old(SA)@.len(),
        decreases b - c,
    {
        s = SA[c as usize].wrapping_sub(depth);
        if (0 <= s) && (sa_get(SA, ISA.wrapping_add(s)) == v) {
            d += 1;
            SA[d as usize] = s;
            sa_set(SA, ISA.wrapping_add(s), d);
        }
        c += 1;
    }
    // JILL
    c = last - 1;
    e = d + 1;
    d = b;
    while e < d && 0 <= c
        invariant
            0 <= e <= d <= b,
            b <= last <= SA@.len(),
            c < last,
            SA@.len() < i32::MAX,
            SA@.len() == old(SA)@.len(),
        decreases c + 1,
    {
        s = SA[c as usize].wrapping_sub(depth);
        if (0 <= s) && (sa_get(SA, ISA.wrapping_add(s)) == v) {
            d -= 1;
            SA[d as usize] = s;
            sa_set(SA, ISA.wrapping_add(s), d);
        }
        c -= 1;
    }
}

/// Like `tr_copy`, but ranks the copied suffixes by the ranks `depth`
/// characters further on.
pub fn tr_partialcopy(ISA: Idx, SA: &mut [Idx], first: Idx, a: Idx, b: Idx, last: Idx, depth: Idx)
    requires
        0 <= first <= a <= b <= last <= old(SA)@.len(),
        old(SA)@.len() < i32::MAX,
    ensures
        final(SA)@.len() == old(SA)@.len(),
{
    let mut c: Idx;
    let mut d: Idx;
    let mut e: Idx;
    let mut s: Idx;
    let mut rank: Idx;
    let mut lastrank: Idx;
    let mut newrank: Idx = -1;
    let v: Idx = b - 1;
    lastrank = -1;
    // JETHRO
    c = first;
    d = a - 1;
    while c <= d && d + 1 < b
        invariant
            0 <= first <= c,
            a - 1 <= d < b,
            b <= last <= SA@.len(),
            SA@.len() < i32::MAX,
            SA@.len() == old(SA)@.len(),
        decreases b - c,
    {
        s = SA[c as usize].wrapping_sub(depth);
        if (0 <= s) && (sa_get(SA, ISA.wrapping_add(s)) == v) {
            d += 1;
            SA[d as usize] = s;
            rank = sa_get(SA, ISA.wrapping_add(s).wrapping_add(depth));
            if lastrank != rank {
                lastrank = rank;
                newrank = d;
            }
            sa_set(SA, ISA.wrapping_add(s), newrank);
        }
        c += 1;
    }
    lastrank = -1;
    // DEWEY
    c = last - 1;
    e = d + 1;
    d = b;
    while e < d && 0 <= c
        invariant
            0 <= e <= d <= b,
            b <= last <= SA@.len(),
            c < last,
            SA@.len() < i32::MAX,
            SA@.len() == old(SA)@.len(),
        decreases c + 1,
    {
        s = SA[c as usize].wrapping_sub(depth);
        if (0 <= s) && (sa_get(SA, ISA.wrapping_add(s)) == v) {
            d -= 1;
            SA[d as usize] = s;
            rank = sa_get(SA, ISA.wrapping_add(s).wrapping_add(depth));
            if lastrank != rank {
                lastrank = rank;
                newrank = d;
            }
            sa_set(SA, ISA.wrapping_add(s), newrank);
        }
        c -= 1;
    }
}


/// What is left of a budget: each chance is worth a full refill.
spec fn budget_left(b: Budget) -> int {
    b.chance * (b.incval + 1) + b.remain
}

/// How a round treats a range by its bound `d`: a tandem repeat run weighs
/// most, a sorted run least.
spec fn tr_factor(d: int) -> int {
    if d == -1 {
        70
    } else if d == -3 {
        1
    } else if d >= 0 {
        d + 2
    } else {
        0
    }
}

/// The work a range of `size` entries with bound `d` may still take
/// without a deeper look.
spec fn tr_weight(size: int, d: int) -> int {
    pow3(size) * tr_factor(d)
}

/// The work of the ranges left for later. The marker of a tandem repeat
/// run and the entry below it, which the marker's copy reads, weigh one
/// together.
spec fn tr_stack_weight(items: Seq<StackItem>) -> int
    decreases items.len(),
{
    if items.len() == 0 {
        0
    } else if items.last().d == -2 && items.len() >= 2 {
        tr_stack_weight(items.drop_last().drop_last()) + 1
    } else {
        tr_stack_weight(items.drop_last()) + tr_weight(
            items.last().c - items.last().b,
            items.last().d as int,
        )
    }
}

/// A marker never sits at the bottom of the stack or right above another.
spec fn tr_markers_ok(items: Seq<StackItem>) -> bool {
    forall|j: int|
        0 <= j < items.len() && (#[trigger] items[j]).d == -2 ==> 1 <= j && items[j - 1].d != -2
}

/// The work left: the stack's and the current range's; in a tandem repeat
/// copy the entry on top is the one the copy reads.
spec fn tr_work(items: Seq<StackItem>, size: int, limit: int) -> int {
    if limit == -2 {
        tr_stack_weight(items.drop_last()) + 1
    } else {
        tr_stack_weight(items) + tr_weight(size, limit)
    }
}

proof fn lemma_tr_weight_bounds(size: int, d: int)
    requires
        -3 <= d <= 31,
    ensures
        tr_weight(size, d) >= 0,
        d != -2 ==> tr_weight(size, d) >= 1,
        tr_weight(size, d) <= 70 * pow3(size),
{
    lemma_pow3_pos(size);
    let p = pow3(size) as int;
    let f = tr_factor(d);
    assert(0 <= f <= 70);
    assert(p * f >= 0 && p * f <= 70 * p) by (nonlinear_arith)
        requires
            p >= 1,
            0 <= f <= 70,
    ;
    if d != -2 {
        assert(f >= 1);
        assert(p * f >= 1) by (nonlinear_arith)
            requires
                p >= 1,
                f >= 1,
        ;
    }
}

proof fn lemma_tr_stack_weight_nonneg(items: Seq<StackItem>)
    requires
        forall|k: int| 0 <= k < items.len() ==> -3 <= #[trigger] items[k].d <= 31,
    ensures
        tr_stack_weight(items) >= 0,
    decreases items.len(),
{
    if items.len() > 0 {
        if items.last().d == -2 && items.len() >= 2 {
            lemma_tr_stack_weight_nonneg(items.drop_last().drop_last());
        } else {
            lemma_tr_stack_weight_nonneg(items.drop_last());
            lemma_tr_weight_bounds(items.last().c - items.last().b, items.last().d as int);
        }
    }
}

proof fn lemma_tr_push(items: Seq<StackItem>, it: StackItem)
    requires
        it.d != -2,
        tr_markers_ok(items),
    ensures
        tr_stack_weight(items.push(it)) == tr_stack_weight(items) + tr_weight(
            it.c - it.b,
            it.d as int,
        ),
        tr_markers_ok(items.push(it)),
{
    assert(items.push(it).drop_last() =~= items);
    assert forall|j: int|
        0 <= j < items.push(it).len() && (#[trigger] items.push(it)[j]).d == -2 implies 1 <= j
        && items.push(it)[j - 1].d != -2 by {
        assert(j < items.len());
        assert(items.push(it)[j] == items[j]);
        assert(items[j].d == -2);
        assert(items.push(it)[j - 1] == items[j - 1]);
    }
}

proof fn lemma_tr_push_pair(items: Seq<StackItem>, below: StackItem, marker: StackItem)
    requires
        below.d != -2,
        marker.d == -2,
        tr_markers_ok(items),
    ensures
        tr_stack_weight(items.push(below).push(marker)) == tr_stack_weight(items) + 1,
        tr_markers_ok(items.push(below).push(marker)),
{
    let s2 = items.push(below).push(marker);
    assert(s2.drop_last().drop_last() =~= items);
    assert(s2.drop_last() =~= items.push(below));
    assert forall|j: int| 0 <= j < s2.len() && (#[trigger] s2[j]).d == -2 implies 1 <= j && s2[j
        - 1].d != -2 by {
        if j < items.len() {
            assert(s2[j] == items[j]);
            assert(items[j].d == -2);
            assert(s2[j - 1] == items[j - 1]);
        } else if j == items.len() {
            assert(s2[j] == below);
        } else {
            assert(s2[j - 1] == below);
        }
    }
}

/// Popping the top entry into the current range leaves the work the stack
/// held.
proof fn lemma_tr_pop(items: Seq<StackItem>)
    requires
        items.len() >= 1,
        tr_markers_ok(items),
    ensures
        tr_work(
            items.drop_last(),
            items.last().c - items.last().b,
            items.last().d as int,
        ) == tr_stack_weight(items),
        tr_markers_ok(items.drop_last()),
        items.last().d == -2 ==> items.drop_last().len() >= 1,
{
    let j = items.len() - 1;
    assert(items[j] == items.last());
    assert forall|k: int|
        0 <= k < items.drop_last().len() && (#[trigger] items.drop_last()[k]).d == -2 implies 1 <= k
        && items.drop_last()[k - 1].d != -2 by {
        assert(items.drop_last()[k] == items[k]);
        assert(items[k].d == -2);
        assert(items.drop_last()[k - 1] == items[k - 1]);
    }
}

/// Clearing the bound of the entry below a marker leaves the work as it was.
proof fn lemma_tr_clear(items: Seq<StackItem>, k: int, it: StackItem)
    requires
        0 <= k,
        k + 1 < items.len(),
        items[k + 1].d == -2,
        tr_markers_ok(items),
        it.d != -2,
    ensures
        tr_stack_weight(items.update(k, it)) == tr_stack_weight(items),
        tr_markers_ok(items.update(k, it)),
    decreases items.len(),
{
    let u = items.update(k, it);
    let n = items.len();
    assert forall|j: int| 0 <= j < u.len() && (#[trigger] u[j]).d == -2 implies 1 <= j && u[j
        - 1].d != -2 by {
        assert(j != k);
        assert(u[j] == items[j]);
        assert(items[j].d == -2);
        if j - 1 != k {
            assert(u[j - 1] == items[j - 1]);
        }
    }
    assert(items[n - 1] == items.last());
    assert(u[n - 1] == u.last());
    if n - 1 == k + 1 {
        assert(u.drop_last().drop_last() =~= items.drop_last().drop_last());
    } else {
        assert(u.last() == items.last());
        if items.last().d == -2 {
            assert(items[n - 2].d != -2);
            assert(u.drop_last().drop_last() =~= items.drop_last().drop_last().update(k, it));
            assert(items.drop_last().drop_last()[k + 1] == items[k + 1]);
            assert forall|j: int|
                0 <= j < items.drop_last().drop_last().len() && (
                #[trigger] items.drop_last().drop_last()[j]).d == -2 implies 1 <= j
                && items.drop_last().drop_last()[j - 1].d != -2 by {
                assert(items.drop_last().drop_last()[j] == items[j]);
                assert(items[j].d == -2);
                assert(items.drop_last().drop_last()[j - 1] == items[j - 1]);
            }
            lemma_tr_clear(items.drop_last().drop_last(), k, it);
        } else {
            assert(u.drop_last() =~= items.drop_last().update(k, it));
            assert(items.drop_last()[k + 1] == items[k + 1]);
            assert forall|j: int|
                0 <= j < items.drop_last().len() && (#[trigger] items.drop_last()[j]).d == -2 implies 1
                <= j && items.drop_last()[j - 1].d != -2 by {
                assert(items.drop_last()[j] == items[j]);
                assert(items[j].d == -2);
                assert(items.drop_last()[j - 1] == items[j - 1]);
            }
            lemma_tr_clear(items.drop_last(), k, it);
        }
    }
}

proof fn lemma_pow3_convex(p1: int, p2: int)
    requires
        0 <= p1,
        0 <= p2,
    ensures
        pow3(p1) + pow3(p2) <= pow3(p1 + p2) + 1,
    decreases p2,
{
    if p2 > 0 {
        lemma_pow3_convex(p1, p2 - 1);
        lemma_pow3_pos(p1);
        assert(pow3(p2) == 3 * pow3(p2 - 1));
        assert(pow3(p1 + p2) == 3 * pow3(p1 + p2 - 1));
    }
}

/// Splitting a range of more than eight entries into two parts, one bound
/// lower, lowers the work.
proof fn lemma_tr_split_parts(s: int, p1: int, p2: int, l: int)
    requires
        0 <= p1,
        0 <= p2,
        p1 + p2 <= s,
        9 <= s,
        0 <= l <= 30,
    ensures
        tr_weight(p1, l) + tr_weight(p2, l) < tr_weight(s, l + 1),
{
    lemma_pow3_convex(p1, p2);
    lemma_pow3_mono(p1 + p2, s);
    lemma_pow3_mono(4, s);
    reveal_with_fuel(pow3, 5);
    assert(pow3(4) == 81);
    let t = pow3(s) as int;
    let q1 = pow3(p1) as int;
    let q2 = pow3(p2) as int;
    assert(q1 * (l + 2) + q2 * (l + 2) < t * (l + 3)) by (nonlinear_arith)
        requires
            q1 + q2 <= t + 1,
            81 <= t,
            0 <= l <= 30,
            q1 >= 0,
            q2 >= 0,
    ;
}

/// The work left is never negative.
proof fn lemma_tr_work_nonneg(items: Seq<StackItem>, size: int, limit: int)
    requires
        forall|k: int| 0 <= k < items.len() ==> -3 <= #[trigger] items[k].d <= 31,
        -3 <= limit <= 31,
        limit == -2 ==> items.len() >= 1,
    ensures
        tr_work(items, size, limit) >= 0,
        tr_stack_weight(items) >= 0,
{
    lemma_tr_stack_weight_nonneg(items);
    if items.len() >= 1 {
        assert forall|k: int| 0 <= k < items.drop_last().len() implies -3 <= #[trigger] items.drop_last()[k].d <= 31 by {
            assert(items.drop_last()[k] == items[k]);
        }
        lemma_tr_stack_weight_nonneg(items.drop_last());
    }
    lemma_tr_weight_bounds(size, limit);
}

proof fn lemma_ilg_nonneg(n: int)
    requires
        1 <= n,
    ensures
        0 <= ilg(n),
    decreases n,
{
    if n > 1 {
        lemma_ilg_nonneg(n / 2);
    }
}

/// What `clear_limit` leaves keeps the work and the markers' places.
proof fn lemma_tr_clear_any(pre: Seq<StackItem>, post: Seq<StackItem>, k: int)
    requires
        tr_markers_ok(pre),
        post.len() == pre.len(),
        forall|i: int|
            0 <= i < pre.len() ==> {
                let o = pre[i];
                let f = #[trigger] post[i];
                &&& f.a == o.a
                &&& f.b == o.b
                &&& f.c == o.c
                &&& f.d == (if i == k && k + 1 < pre.len() && pre[k + 1].d == -2 {
                    -1i32
                } else {
                    o.d
                })
                &&& f.e == o.e
            },
    ensures
        tr_stack_weight(post) == tr_stack_weight(pre),
        tr_markers_ok(post),
{
    if 0 <= k && k + 1 < pre.len() && pre[k + 1].d == -2 {
        let it = StackItem { a: pre[k].a, b: pre[k].b, c: pre[k].c, d: -1i32, e: pre[k].e };
        assert(post =~= pre.update(k, it)) by {
            assert forall|i: int| 0 <= i < pre.len() implies post[i] == pre.update(k, it)[i] by {
                assert(post[i].d == pre.update(k, it)[i].d);
            }
        }
        lemma_tr_clear(pre, k, it);
    } else {
        assert(post =~= pre) by {
            assert forall|i: int| 0 <= i < pre.len() implies post[i] == pre[i] by {
                assert(post[i].d == pre[i].d);
            }
        }
    }
}

/// Splitting a range into smaller ones, one bound lower, lowers the work.
proof fn lemma_tr_split(s: int, p1: int, p2: int, l: int)
    requires
        1 <= s,
        p1 <= s - 1,
        p2 <= s - 1,
        0 <= l <= 30,
    ensures
        tr_weight(p1, l) + tr_weight(p2, l) < tr_weight(s, l + 1),
{
    lemma_pow3_mono(p1, s - 1);
    lemma_pow3_mono(p2, s - 1);
    lemma_pow3_pos(s - 1);
    lemma_pow3_pos(p1);
    lemma_pow3_pos(p2);
    assert(pow3(s) == 3 * pow3(s - 1));
    let t = pow3(s - 1) as int;
    let q1 = pow3(p1) as int;
    let q2 = pow3(p2) as int;
    assert(q1 * (l + 2) + q2 * (l + 2) < 3 * t * (l + 3)) by (nonlinear_arith)
        requires
            1 <= q1 <= t,
            1 <= q2 <= t,
            0 <= l,
    ;
}

/// A tandem repeat run's round, which leaves at most two ranges (of any
/// bound) and a marker, lowers the work.
proof fn lemma_tr_tandem(s: int, p1: int, p2: int, l1: int, l2: int)
    requires
        p1 <= s,
        p2 <= s,
        -3 <= l1 <= 31,
        -3 <= l2 <= 31,
        l1 != -1,
        l2 != -1,
    ensures
        1 + tr_weight(p1, l1) + tr_weight(p2, l2) < tr_weight(s, -1),
{
    lemma_pow3_mono(p1, s);
    lemma_pow3_mono(p2, s);
    lemma_pow3_pos(s);
    lemma_pow3_pos(p1);
    lemma_pow3_pos(p2);
    let t = pow3(s) as int;
    let q1 = pow3(p1) as int;
    let q2 = pow3(p2) as int;
    let f1 = tr_factor(l1);
    let f2 = tr_factor(l2);
    assert(f1 <= 33 && f2 <= 33 && f1 >= 0 && f2 >= 0);
    assert(1 + q1 * f1 + q2 * f2 < t * 70) by (nonlinear_arith)
        requires
            1 <= q1 <= t,
            1 <= q2 <= t,
            0 <= f1 <= 33,
            0 <= f2 <= 33,
    ;
}

/// A range shrunk, or settled, weighs less.
proof fn lemma_tr_shrink(s2: int, s: int, l2: int, l: int)
    requires
        0 <= s2 <= s,
        tr_factor(l2) <= tr_factor(l),
        s2 < s || tr_factor(l2) < tr_factor(l),
        -3 <= l <= 31,
        -3 <= l2 <= 31,
        l2 != -2,
    ensures
        tr_weight(s2, l2) < tr_weight(s, l),
{
    lemma_pow3_mono(s2, s);
    lemma_pow3_pos(s2);
    lemma_pow3_pos(s);
    if s2 < s && s - 1 >= 0 {
        lemma_pow3_mono(s2, s - 1);
        assert(pow3(s) == 3 * pow3(s - 1));
    }
    let q = pow3(s2) as int;
    let t = pow3(s) as int;
    let f2 = tr_factor(l2);
    let f = tr_factor(l);
    assert(f2 >= 1);
    if tr_factor(l2) < tr_factor(l) {
        assert(q * f2 < t * f) by (nonlinear_arith)
            requires
                1 <= q <= t,
                1 <= f2 < f,
        ;
    } else {
        assert(q < t);
        if q < t {
            assert(q * f2 < t * f) by (nonlinear_arith)
                requires
                    1 <= q < t,
                    1 <= f2 <= f,
            ;
        }
    }
}

/// `Budget::check`, refusing instead where the count of refused sizes would
/// no longer fit an index.
fn spend(budget: &mut Budget, size: Idx) -> (r: bool)
    requires
        old(budget).in_range(),
        0 <= size <= old(budget).incval,
    ensures
        final(budget).in_range(),
        final(budget).incval == old(budget).incval,
        size <= old(budget).remain ==> r && final(budget).remain == old(budget).remain - size
            && final(budget).chance == old(budget).chance && final(budget).count == old(
            budget,
        ).count,
        size > old(budget).remain && old(budget).chance == 0 ==> !r && final(budget).remain
            == old(budget).remain && final(budget).chance == 0 && (old(budget).count + size
            <= i32::MAX ==> final(budget).count == old(budget).count + size) && (old(budget).count
            + size > i32::MAX ==> final(budget).count == old(budget).count),
        size > old(budget).remain && old(budget).chance != 0 ==> r && final(budget).remain
            == old(budget).remain + old(budget).incval - size && final(budget).chance == old(
            budget,
        ).chance - 1 && final(budget).count == old(budget).count,
        1 <= size && r ==> budget_left(*final(budget)) < budget_left(*old(budget)),
        !r ==> budget_left(*final(budget)) == budget_left(*old(budget)),
        budget_left(*final(budget)) >= 0,
{
    proof {
        let c = old(budget).chance as int;
        let v = old(budget).incval as int;
        assert((c - 1) * (v + 1) == c * (v + 1) - (v + 1)) by (nonlinear_arith);
        assert(c * (v + 1) >= 0) by (nonlinear_arith)
            requires
                c >= 0,
                v >= 0,
        ;
    }
    if budget.chance == 0 && size > budget.remain && budget.count > Idx::MAX - size {
        return false;
    }
    budget.check(size)
}

/// Introsort of the group `[first, last)` by the ranks at offset `ISAd`,
/// repeated at growing offsets on the parts whose ranks tie.
///
/// Runs of tandem repeats are partitioned by the ranks one offset back and
/// their order is copied from the parts around them (`tr_copy`,
/// `tr_partialcopy`). Returns `false` where it stops before the group is
/// sorted: at ranks or stacked bounds that break its bookkeeping.
#[verifier::spinoff_prover]
#[verifier::rlimit(100)]
pub fn tr_introsort(ISA: Idx, ISAd: Idx, SA: &mut [Idx], first: Idx, last: Idx, budget: &mut Budget) -> (done: bool)
    requires
        0 <= first <= last <= old(SA)@.len(),
        old(SA)@.len() < i32::MAX,
        old(budget).in_range(),
        last <= old(budget).incval,
    ensures
        final(SA)@.len() == old(SA)@.len(),
        final(budget).in_range(),
        final(budget).incval == old(budget).incval,
{
    let ghost lo = first as int;
    let ghost hi = last as int;
    let ghost len = SA@.len();
    let mut ISAd = ISAd;
    let mut first = first;
    let mut last = last;
    let mut a: Idx;
    let mut b: Idx = 0;
    let mut c: Idx;
    let mut t: Idx;
    let mut v: Idx;
    let mut x: Idx;
    let incr: Idx = ISAd.wrapping_sub(ISA);
    let mut next: Idx;
    let mut trlink: Idx = -1;
    let mut stack = Stack::new();
    let mut limit: Idx = tr_ilg(last - first);
    // Each round settles, splits or deepens a group. A deeper look is paid
    // for from the budget; every other round lowers the work left on the
    // stack and in the current group.
    // PASCAL
    loop
        invariant
            lo <= first <= last <= hi,
            0 <= lo <= hi <= len,
            len == SA@.len(),
            len < i32::MAX,
            SA@.len() == old(SA)@.len(),
            hi <= budget.incval,
            budget.in_range(),
            budget.incval == old(budget).incval,
            -3 <= limit <= 31,
            tr_stack_ok(stack.items@, lo, hi),
            tr_markers_ok(stack.items@),
            limit == -2 ==> stack.items@.len() >= 1,
        decreases budget_left(*budget), tr_work(stack.items@, last - first, limit as int),
    {
        let ghost items0 = stack.items@;
        let ghost s0 = last - first;
        let ghost l0 = limit as int;
        proof {
            lemma_tr_work_nonneg(items0, s0, l0);
        }
        if limit < 0 {
            if limit == -1 {
                // tandem repeat partition
                let ISAd0 = ISAd.wrapping_sub(incr);
                let mut pa: Idx = first;
                let mut pb: Idx = first;
                tr_partition(SA, ISAd0, first, first, last, &mut pa, &mut pb, last - 1);
                a = pa;
                b = pb;
                // update ranks
                if a < last {
                    c = first;
                    v = a - 1;
                    while c < a
                        invariant
                            0 <= first <= c <= a,
                            a <= last <= len,
                            len == SA@.len(),
                            len < i32::MAX,
                        decreases a - c,
                    {
                        let SA_c = SA[c as usize];
                        sa_set(SA, ISA.wrapping_add(SA_c), v);
                        c += 1;
                    }
                }
                if b < last {
                    c = a;
                    v = b - 1;
                    while c < b
                        invariant
                            0 <= a <= c <= b,
                            b <= last <= len,
                            len == SA@.len(),
                            len < i32::MAX,
                        decreases b - c,
                    {
                        let SA_c = SA[c as usize];
                        sa_set(SA, ISA.wrapping_add(SA_c), v);
                        c += 1;
                    }
                }
                // push
                if 1 < (b - a) {
                    let ghost pre = stack.items@;
                    stack.push(0, a, b, 0, 0);
                    stack.push(ISAd0, first, last, -2, trlink);
                    proof {
                        lemma_tr_push_pair(
                            pre,
                            StackItem { a: 0i32, b: a, c: b, d: 0i32, e: 0i32 },
                            StackItem { a: ISAd0, b: first, c: last, d: -2i32, e: trlink },
                        );
                    }
                    let sl = stack.len();
                    if sl > 2147483647 {
                        return false;
                    }
                    trlink = (sl - 2) as Idx;
                }
                let ghost items1 = stack.items@;
                proof {
                    assert(tr_stack_weight(items1) <= tr_stack_weight(items0) + 1);
                    lemma_tr_tandem(s0, 0, 0, -3, -3);
                    lemma_tr_weight_bounds(0, -3);
                }
                if (a - first) <= (last - b) {
                    if 1 < (a - first) {
                        let lb = tr_ilg(last - b);
                        let ghost lb_size = last - b;
                        stack.push(ISAd, b, last, lb, trlink);
                        proof {
                            lemma_ilg_nonneg(last - b);
                            lemma_ilg_nonneg(a - first);
                            lemma_tr_push(items1, StackItem { a: ISAd, b: b, c: last, d: lb, e: trlink });
                        }
                        last = a;
                        limit = tr_ilg(a - first);
                        proof {
                            lemma_tr_tandem(s0, lb_size, last - first, lb as int, limit as int);
                        }
                    } else if 1 < (last - b) {
                        first = b;
                        limit = tr_ilg(last - b);
                        proof {
                            lemma_ilg_nonneg(last - first);
                            lemma_tr_tandem(s0, last - first, 0, limit as int, -3);
                        }
                    } else {
                        proof {
                            if items1.len() >= 1 {
                                lemma_tr_pop(items1);
                            }
                        }
                        if !stack.pop(&mut ISAd, &mut first, &mut last, &mut limit, &mut trlink).is_ok() {
                            return true;
                        }
                    }
                } else {
                    if 1 < (last - b) {
                        let la = tr_ilg(a - first);
                        stack.push(ISAd, first, a, la, trlink);
                        proof {
                            lemma_ilg_nonneg(last - b);
                            lemma_ilg_nonneg(a - first);
                            lemma_tr_push(items1, StackItem { a: ISAd, b: first, c: a, d: la, e: trlink });
                        }
                        let ghost la_size = a - first;
                        first = b;
                        limit = tr_ilg(last - b);
                        proof {
                            lemma_tr_tandem(s0, la_size, last - first, la as int, limit as int);
                        }
                    } else if 1 < (a - first) {
                        last = a;
                        limit = tr_ilg(a - first);
                        proof {
                            lemma_ilg_nonneg(last - first);
                            lemma_tr_tandem(s0, last - first, 0, limit as int, -3);
                        }
                    } else {
                        proof {
                            if items1.len() >= 1 {
                                lemma_tr_pop(items1);
                            }
                        }
                        if !stack.pop(&mut ISAd, &mut first, &mut last, &mut limit, &mut trlink).is_ok() {
                            return true;
                        }
                    }
                }
            } else if limit == -2 {
                // tandem repeat copy
                let mut x0: Idx = 0;
                let mut sa_b: Idx = 0;
                let mut sa_c: Idx = 0;
                let mut sa_d: Idx = 0;
                let mut x4: Idx = 0;
                proof {
                    lemma_tr_pop(items0);
                }
                if !stack.pop(&mut x0, &mut sa_b, &mut sa_c, &mut sa_d, &mut x4).is_ok() {
                    return false;
                }
                a = sa_b;
                b = sa_c;
                if !(first <= a && a <= b && b <= last) {
                    return false;
                }
                if sa_d == 0 {
                    tr_copy(ISA, SA, first, a, b, last, ISAd.wrapping_sub(ISA));
                } else {
                    if 0 <= trlink {
                        let ghost pre = stack.items@;
                        stack.clear_limit(trlink);
                        proof {
                            lemma_tr_clear_any(pre, stack.items@, trlink as int);
                        }
                    }
                    tr_partialcopy(ISA, SA, first, a, b, last, ISAd.wrapping_sub(ISA));
                }
                proof {
                    if stack.items@.len() >= 1 {
                        lemma_tr_pop(stack.items@);
                    }
                }
                if !stack.pop(&mut ISAd, &mut first, &mut last, &mut limit, &mut trlink).is_ok() {
                    return true;
                }
            } else {
                // sorted partition
                if first < last && 0 <= SA[first as usize] {
                    a = first;
                    // GEMINI
                    loop
                        invariant_except_break
                            a < last,
                        invariant
                            lo <= first <= a <= last <= hi,
                            0 <= lo <= hi <= len,
                            len == SA@.len(),
                            len < i32::MAX,
                        ensures
                            first < a <= last,
                            len == SA@.len(),
                        decreases last - a,
                    {
                        let SA_a = SA[a as usize];
                        sa_set(SA, ISA.wrapping_add(SA_a), a);
                        a += 1;
                        if !((a < last) && (0 <= SA[a as usize])) {
                            break;
                        }
                    }
                    first = a;
                }
                if first < last {
                    a = first;
                    // MONSTRO
                    loop
                        invariant_except_break
                            a < last,
                        invariant
                            lo <= first <= a <= last <= hi,
                            0 <= lo <= hi <= len,
                            len == SA@.len(),
                            len < i32::MAX,
                        ensures
                            first < a <= last,
                            len == SA@.len(),
                        decreases last - a,
                    {
                        let tmp_v = SA[a as usize];
                        SA[a as usize] = flip(tmp_v);
                        a += 1;
                        if !((a < last) && (SA[a as usize] < 0)) {
                            break;
                        }
                    }
                    let sa_a = sa_get(SA, a);
                    next = if sa_get(SA, ISA.wrapping_add(sa_a)) != sa_get(
                        SA,
                        ISAd.wrapping_add(sa_a),
                    ) {
                        tr_ilg(a - first + 1)
                    } else {
                        -1
                    };
                    a += 1;
                    if a < last {
                        // CLEMENTINE
                        b = first;
                        v = a - 1;
                        while b < a
                            invariant
                                0 <= first <= b <= a,
                                a < last <= len,
                                len == SA@.len(),
                                len < i32::MAX,
                            decreases a - b,
                        {
                            let SA_b = SA[b as usize];
                            sa_set(SA, ISA.wrapping_add(SA_b), v);
                            b += 1;
                        }
                    }
                    if last < a {
                        return false;
                    }
                    // push
                    if spend(budget, last - first) {
                        if (a - first) <= (last - a) {
                            stack.push(ISAd, a, last, -3, trlink);
                            ISAd = ISAd.wrapping_add(incr);
                            last = a;
                            limit = next;
                        } else {
                            if 1 < (last - a) {
                                stack.push(ISAd.wrapping_add(incr), first, a, next, trlink);
                                first = a;
                                limit = -3;
                            } else {
                                ISAd = ISAd.wrapping_add(incr);
                                last = a;
                                limit = next;
                            }
                        }
                    } else {
                        if 0 <= trlink {
                            let ghost pre = stack.items@;
                            stack.clear_limit(trlink);
                            proof {
                                lemma_tr_clear_any(pre, stack.items@, trlink as int);
                            }
                        }
                        if 1 < (last - a) {
                            proof {
                                lemma_tr_shrink(last - a, s0, -3, -3);
                            }
                            first = a;
                            limit = -3;
                        } else {
                            proof {
                                lemma_tr_weight_bounds(s0, -3);
                                if stack.items@.len() >= 1 {
                                    lemma_tr_pop(stack.items@);
                                }
                            }
                            if !stack.pop(&mut ISAd, &mut first, &mut last, &mut limit, &mut trlink).is_ok() {
                                return true;
                            }
                        }
                    }
                } else {
                    proof {
                        lemma_tr_weight_bounds(s0, -3);
                        if stack.items@.len() >= 1 {
                            lemma_tr_pop(stack.items@);
                        }
                    }
                    if !stack.pop(&mut ISAd, &mut first, &mut last, &mut limit, &mut trlink).is_ok() {
                        return true;
                    }
                }
            }
            proof {
                assert(tr_stack_ok(stack.items@, lo, hi));
                assert(-3 <= limit <= 31);
                assert(limit == -2 ==> stack.items@.len() >= 1);
                lemma_tr_work_nonneg(stack.items@, last - first, limit as int);
            }
            continue;
        }
        if (last - first) <= TR_INSERTIONSORT_THRESHOLD {
            tr_insertionsort(SA, ISAd, first, last);
            limit = -3;
            proof {
                lemma_tr_shrink(s0, s0, -3, l0);
                lemma_tr_work_nonneg(stack.items@, last - first, limit as int);
            }
            continue;
        }
        let old_limit = limit;
        limit -= 1;
        if old_limit == 0 {
            // the heap is stored from `first`, and its ranks are read at
            // `ISAd` past each suffix start
            tr_heapsort(ISAd.wrapping_sub(first), SA, first, last - first);
            // YOHAN
            a = last - 1;
            while first < a
                invariant
                    lo <= first <= last <= hi,
                    first - 1 <= a < last,
                    0 <= lo <= hi <= len,
                    len == SA@.len(),
                    len < i32::MAX,
                decreases a + 1,
            {
                x = tr_key(SA, ISAd, a);
                b = a - 1;
                // VINCENT
                while (first <= b) && (tr_key(SA, ISAd, b) == x)
                    invariant
                        lo <= first <= last <= hi,
                        first - 1 <= b < a < last,
                        0 <= lo <= hi <= len,
                        len == SA@.len(),
                        len < i32::MAX,
                    decreases b - first + 1,
                {
                    let tmp_v = SA[b as usize];
                    SA[b as usize] = flip(tmp_v);
                    b -= 1;
                }
                a = b;
            }
            limit = -3;
            proof {
                lemma_tr_shrink(s0, s0, -3, l0);
                lemma_tr_work_nonneg(stack.items@, last - first, limit as int);
            }
            continue;
        }
        // choose pivot
        a = tr_pivot(SA, ISAd, first, last);
        sa_swap(SA, first, a);
        v = tr_key(SA, ISAd, first);
        // partition
        tr_partition(SA, ISAd, first, first + 1, last, &mut a, &mut b, v);
        if (last - first) != (b - a) {
            next = if sa_get(SA, ISA.wrapping_add(sa_get(SA, a))) != v {
                tr_ilg(b - a)
            } else {
                -1
            };
            // update ranks
            // NOLWENN
            c = first;
            v = a - 1;
            while c < a
                invariant
                    lo <= first <= c <= a <= b <= last <= hi,
                    0 <= lo <= hi <= len,
                    len == SA@.len(),
                    len < i32::MAX,
                decreases a - c,
            {
                let SAc = SA[c as usize];
                sa_set(SA, ISA.wrapping_add(SAc), v);
                c += 1;
            }
            if b < last {
                // ARTHUR
                c = a;
                v = b - 1;
                while c < b
                    invariant
                        lo <= first <= a <= c <= b <= last <= hi,
                        0 <= lo <= hi <= len,
                        len == SA@.len(),
                        len < i32::MAX,
                    decreases b - c,
                {
                    let SAc = SA[c as usize];
                    sa_set(SA, ISA.wrapping_add(SAc), v);
                    c += 1;
                }
            }
            // push
            if (1 < (b - a)) && spend(budget, b - a) {
                if (a - first) <= (last - b) {
                    if (last - b) <= (b - a) {
                        if 1 < (a - first) {
                            stack.push(ISAd.wrapping_add(incr), a, b, next, trlink);
                            stack.push(ISAd, b, last, limit, trlink);
                            last = a;
                        } else if 1 < (last - b) {
                            stack.push(ISAd.wrapping_add(incr), a, b, next, trlink);
                            first = b;
                        } else {
                            ISAd = ISAd.wrapping_add(incr);
                            first = a;
                            last = b;
                            limit = next;
                        }
                    } else if (a - first) <= (b - a) {
                        if 1 < (a - first) {
                            stack.push(ISAd, b, last, limit, trlink);
                            stack.push(ISAd.wrapping_add(incr), a, b, next, trlink);
                            last = a;
                        } else {
                            stack.push(ISAd, b, last, limit, trlink);
                            ISAd = ISAd.wrapping_add(incr);
                            first = a;
                            last = b;
                            limit = next;
                        }
                    } else {
                        stack.push(ISAd, b, last, limit, trlink);
                        stack.push(ISAd, first, a, limit, trlink);
                        ISAd = ISAd.wrapping_add(incr);
                        first = a;
                        last = b;
                        limit = next;
                    }
                } else {
                    if (a - first) <= (b - a) {
                        if 1 < (last - b) {
                            stack.push(ISAd.wrapping_add(incr), a, b, next, trlink);
                            stack.push(ISAd, first, a, limit, trlink);
                            first = b;
                        } else if 1 < (a - first) {
                            stack.push(ISAd.wrapping_add(incr), a, b, next, trlink);
                            last = a;
                        } else {
                            ISAd = ISAd.wrapping_add(incr);
                            first = a;
                            last = b;
                            limit = next;
                        }
                    } else if (last - b) <= (b - a) {
                        if 1 < (last - b) {
                            stack.push(ISAd, first, a, limit, trlink);
                            stack.push(ISAd.wrapping_add(incr), a, b, next, trlink);
                            first = b;
                        } else {
                            stack.push(ISAd, first, a, limit, trlink);
                            ISAd = ISAd.wrapping_add(incr);
                            first = a;
                            last = b;
                            limit = next;
                        }
                    } else {
                        stack.push(ISAd, first, a, limit, trlink);
                        stack.push(ISAd, b, last, limit, trlink);
                        ISAd = ISAd.wrapping_add(incr);
                        first = a;
                        last = b;
                        limit = next;
                    }
                }
            } else {
                if (1 < (b - a)) && (0 <= trlink) {
                    let ghost pre = stack.items@;
                    stack.clear_limit(trlink);
                    proof {
                        lemma_tr_clear_any(pre, stack.items@, trlink as int);
                    }
                }
                let ghost items1 = stack.items@;
                proof {
                    lemma_tr_split_parts(s0, a - first, last - b, limit as int);
                    lemma_tr_split_parts(s0, 0, last - b, limit as int);
                    lemma_tr_split_parts(s0, a - first, 0, limit as int);
                    lemma_tr_weight_bounds(0, limit as int);
                    lemma_tr_weight_bounds(s0, l0);
                }
                if (a - first) <= (last - b) {
                    if 1 < (a - first) {
                        stack.push(ISAd, b, last, limit, trlink);
                        proof {
                            lemma_tr_push(items1, StackItem { a: ISAd, b: b, c: last, d: limit, e: trlink });
                        }
                        last = a;
                    } else if 1 < (last - b) {
                        first = b;
                    } else {
                        proof {
                            if items1.len() >= 1 {
                                lemma_tr_pop(items1);
                            }
                        }
                        if !stack.pop(&mut ISAd, &mut first, &mut last, &mut limit, &mut trlink).is_ok() {
                            return true;
                        }
                    }
                } else {
                    if 1 < (last - b) {
                        stack.push(ISAd, first, a, limit, trlink);
                        proof {
                            lemma_tr_push(items1, StackItem { a: ISAd, b: first, c: a, d: limit, e: trlink });
                        }
                        first = b;
                    } else if 1 < (a - first) {
                        last = a;
                    } else {
                        proof {
                            if items1.len() >= 1 {
                                lemma_tr_pop(items1);
                            }
                        }
                        if !stack.pop(&mut ISAd, &mut first, &mut last, &mut limit, &mut trlink).is_ok() {
                            return true;
                        }
                    }
                }
            }
        } else {
            if spend(budget, last - first) {
                limit = tr_ilg(last - first);
                ISAd = ISAd.wrapping_add(incr);
            } else {
                if 0 <= trlink {
                    let ghost pre = stack.items@;
                    stack.clear_limit(trlink);
                    proof {
                        lemma_tr_clear_any(pre, stack.items@, trlink as int);
                    }
                }
                proof {
                    lemma_tr_weight_bounds(s0, l0);
                    if stack.items@.len() >= 1 {
                        lemma_tr_pop(stack.items@);
                    }
                }
                if !stack.pop(&mut ISAd, &mut first, &mut last, &mut limit, &mut trlink).is_ok() {
                    return true;
                }
            }
        }
        proof {
            assert(tr_stack_ok(stack.items@, lo, hi));
            assert(-3 <= limit <= 31);
            assert(limit == -2 ==> stack.items@.len() >= 1);
            lemma_tr_work_nonneg(stack.items@, last - first, limit as int);
        }
    }
}


/// Writes an entry at a position computed in wide arithmetic.
fn sa_set_wide(sa: &mut [Idx], i: i64, v: Idx)
    ensures
        final(sa)@ == put(old(sa)@, i as int, v),
{
    if 0 <= i && (i as u64) < (sa.len() as u64) {
        sa[i as usize] = v;
    }
}

/// Tandem repeat sort: `[0, n)` holds the type B* suffixes grouped by their
/// substrings (a run of `k` settled entries is stored as `-k`), and
/// `[ISA, ISA + n)` their ranks; sorts the groups by comparing ranks `depth`,
/// then `2 * depth`, ... further on. Returns `false` when a group was left
/// unsorted (see `tr_introsort`), or when groups are still unsorted after the
/// pass at an offset of `n` or more (or at an offset that is not positive),
/// where the ranks ought to have told all suffixes apart.
pub fn trsort(ISA: Idx, SA: &mut [Idx], n: Idx, depth: Idx) -> (done: bool)
    requires
        0 < n <= old(SA)@.len(),
        old(SA)@.len() < i32::MAX,
    ensures
        final(SA)@.len() == old(SA)@.len(),
{
    let ghost len = SA@.len();
    let mut ISAd: Idx;
    let mut first: i64;
    let mut last: i64;
    let mut t: Idx;
    let mut skip: i64;
    let mut unsorted: i64;
    let mut budget = Budget::new(tr_ilg(n) * 2 / 3, n);
    let mut done = true;
    ISAd = ISA.wrapping_add(depth);
    // Each pass doubles the offset `d` at which ranks are compared; once it
    // reaches `n` the ranks tell every suffix apart.
    let mut d: i64 = depth as i64;
    while -n < SA[0]
        invariant
            0 < n <= len,
            len == SA@.len(),
            len == old(SA)@.len(),
            len < i32::MAX,
            budget.in_range(),
            budget.incval == n,
            d <= 4294967296,
        decreases (if d >= 2 * n { 0 } else if d <= 0 { 2 * n + 1 } else { 2 * n - d }),
    {
        first = 0;
        skip = 0;
        unsorted = 0;
        // PETER
        loop
            invariant_except_break
                0 <= first < n,
            invariant
                0 < n <= len,
                len == SA@.len(),
                len == old(SA)@.len(),
                len < i32::MAX,
                budget.in_range(),
                budget.incval == n,
                -first <= skip <= 0,
                0 <= first,
                0 <= unsorted <= first * 2147483648,
            ensures
                n <= first,
                -first <= skip <= 0,
                0 <= unsorted,
                len == SA@.len(),
                len == old(SA)@.len(),
                budget.in_range(),
                budget.incval == n,
            decreases n - first,
        {
            t = SA[first as usize];
            if t < 0 {
                first -= t as i64;
                skip += t as i64;
            } else {
                if skip != 0 {
                    sa_set_wide(SA, first + skip, skip as Idx);
                    skip = 0;
                }
                last = sa_get(SA, ISA.wrapping_add(t)) as i64 + 1;
                if last <= first || (n as i64) < last {
                    return false;
                }
                if 1 < (last - first) {
                    budget.count = 0;
                    if !tr_introsort(ISA, ISAd, SA, first as Idx, last as Idx, &mut budget) {
                        done = false;
                    }
                    if budget.count != 0 {
                        unsorted += budget.count as i64;
                    } else {
                        skip = first - last;
                    }
                } else if (last - first) == 1 {
                    skip = -1;
                }
                first = last;
            }
            if !(first < n as i64) {
                break;
            }
        }
        if skip != 0 {
            sa_set_wide(SA, first + skip, skip as Idx);
        }
        if unsorted == 0 {
            break;
        }
        if d <= 0 || d >= n as i64 {
            // the ranks at this offset ought to have told all suffixes apart
            return false;
        }
        ISAd = ISAd.wrapping_add(ISAd.wrapping_sub(ISA));
        d = 2 * d;
    }
    done
}

} // verus!
