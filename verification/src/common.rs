//! Types and constants shared by the suffix sorting passes.
use vstd::prelude::*;
use vstd::multiset::Multiset;

verus! {

pub type Char = u8;

pub type Idx = i32;

pub const TR_INSERTIONSORT_THRESHOLD: Idx = 8;

pub const SS_INSERTIONSORT_THRESHOLD: Idx = 8;

pub const SS_BLOCKSIZE: Idx = 1024;

pub const ALPHABET_SIZE: usize = 256;

pub const BUCKET_A_SIZE: usize = 256;

pub const BUCKET_B_SIZE: usize = 65536;

pub const MAX_INPUT_SIZE: usize = 2147483647;

/// Read-only input to suffix-sort
pub struct Text<'a>(pub &'a [Char]);

impl<'a> Text<'a> {
    pub open spec fn view(&self) -> Seq<Char> {
        self.0@
    }

    /// The byte at `i`, widened to an index value.
    pub fn get(&self, i: Idx) -> (r: Idx)
        requires
            0 <= i < self.0@.len(),
        ensures
            r == self.0@[i as int],
    {
        self.0[i as usize] as Idx
    }

    /// The length of the text, as an index value.
    pub fn len(&self) -> (r: Idx)
        requires
            self.0@.len() <= i32::MAX,
        ensures
            r == self.0@.len(),
    {
        self.0.len() as Idx
    }
}

/// Read-only view of a suffix array (or of a part of one).
pub struct SuffixArrayImm<'a>(pub &'a [Idx]);

impl<'a> SuffixArrayImm<'a> {
    /// The entry at `i`.
    pub fn get(&self, i: Idx) -> (r: Idx)
        requires
            0 <= i < self.0@.len(),
        ensures
            r == self.0@[i as int],
    {
        self.0[i as usize]
    }
}

/// A position in the suffix array.
#[derive(Clone, Copy, PartialEq, Eq, Structural)]
pub struct SAPtr(pub Idx);

impl SAPtr {
    /// The position `k` entries further on.
    pub fn add(self, k: Idx) -> (r: SAPtr)
        requires
            i32::MIN <= self.0 + k <= i32::MAX,
        ensures
            r.0 == self.0 + k,
    {
        SAPtr(self.0 + k)
    }

    /// The position `k` entries further back.
    pub fn sub(self, k: Idx) -> (r: SAPtr)
        requires
            i32::MIN <= self.0 - k <= i32::MAX,
        ensures
            r.0 == self.0 - k,
    {
        SAPtr(self.0 - k)
    }

    /// The distance from `other` to `self`.
    pub fn diff(self, other: SAPtr) -> (r: Idx)
        requires
            i32::MIN <= self.0 - other.0 <= i32::MAX,
        ensures
            r == self.0 - other.0,
    {
        self.0 - other.0
    }
}

/// Counts, and then bucket boundaries, of the suffixes by first character.
pub struct ABucket(pub Vec<Idx>);

impl ABucket {
    pub fn get(&self, c: Idx) -> (r: Idx)
        requires
            0 <= c < self.0@.len(),
        ensures
            r == self.0@[c as int],
    {
        self.0[c as usize]
    }

    pub fn set(&mut self, c: Idx, v: Idx)
        requires
            0 <= c < old(self).0@.len(),
        ensures
            final(self).0@ == old(self).0@.update(c as int, v),
    {
        self.0.set(c as usize, v);
    }
}

/// Position of the pair `(c0, c1)` in the type B buckets.
pub open spec fn b_slot(c0: int, c1: int) -> int {
    c1 * 256 + c0
}

/// Position of the pair `(c0, c1)` in the type B* buckets.
pub open spec fn bstar_slot(c0: int, c1: int) -> int {
    c0 * 256 + c1
}

/// Type B and type B* buckets, which share one table of `BUCKET_B_SIZE`
/// entries: the B bucket of `(c0, c1)` sits at `(c1 << 8) | c0`, the B*
/// bucket of `(c0, c1)` at `(c0 << 8) | c1`.
pub struct BMixBucket(pub Vec<Idx>);

impl BMixBucket {
    /// The type B view of the table.
    pub fn b<'a>(&'a mut self) -> (r: BBucket<'a>)
        ensures
            r.0@ == old(self).0@,
            final(self).0@ == final(r.0)@,
    {
        BBucket(self.0.as_mut_slice())
    }

    /// The type B* view of the table.
    pub fn bstar<'a>(&'a mut self) -> (r: BStarBucket<'a>)
        ensures
            r.0@ == old(self).0@,
            final(self).0@ == final(r.0)@,
    {
        BStarBucket(self.0.as_mut_slice())
    }

    /// Reads the type B bucket of `(c0, c1)`.
    pub fn get_b(&self, c0: Idx, c1: Idx) -> (r: Idx)
        requires
            0 <= c0 < 256,
            0 <= c1 < 256,
            self.0@.len() == BUCKET_B_SIZE,
        ensures
            r == self.0@[b_slot(c0 as int, c1 as int)],
    {
        self.0[(c1 * 256 + c0) as usize]
    }

    /// Writes the type B bucket of `(c0, c1)`.
    pub fn set_b(&mut self, c0: Idx, c1: Idx, v: Idx)
        requires
            0 <= c0 < 256,
            0 <= c1 < 256,
            old(self).0@.len() == BUCKET_B_SIZE,
        ensures
            final(self).0@ == old(self).0@.update(b_slot(c0 as int, c1 as int), v),
    {
        self.0.set((c1 * 256 + c0) as usize, v);
    }

    /// Reads the type B* bucket of `(c0, c1)`.
    pub fn get_bstar(&self, c0: Idx, c1: Idx) -> (r: Idx)
        requires
            0 <= c0 < 256,
            0 <= c1 < 256,
            self.0@.len() == BUCKET_B_SIZE,
        ensures
            r == self.0@[bstar_slot(c0 as int, c1 as int)],
    {
        self.0[(c0 * 256 + c1) as usize]
    }

    /// Writes the type B* bucket of `(c0, c1)`.
    pub fn set_bstar(&mut self, c0: Idx, c1: Idx, v: Idx)
        requires
            0 <= c0 < 256,
            0 <= c1 < 256,
            old(self).0@.len() == BUCKET_B_SIZE,
        ensures
            final(self).0@ == old(self).0@.update(bstar_slot(c0 as int, c1 as int), v),
    {
        self.0.set((c0 * 256 + c1) as usize, v);
    }
}

/// The table of `BMixBucket`, indexed as type B buckets.
pub struct BBucket<'a>(pub &'a mut [Idx]);

/// The table of `BMixBucket`, indexed as type B* buckets.
pub struct BStarBucket<'a>(pub &'a mut [Idx]);

impl<'a> BBucket<'a> {
    /// Reads the bucket of `(c0, c1)`.
    pub fn get(&self, c0: Idx, c1: Idx) -> (r: Idx)
        requires
            0 <= c0 < 256,
            0 <= c1 < 256,
            self.0@.len() == BUCKET_B_SIZE,
        ensures
            r == old(self.0)@[b_slot(c0 as int, c1 as int)],
    {
        self.0[(c1 * 256 + c0) as usize]
    }

    /// Writes the bucket of `(c0, c1)`.
    pub fn set(&mut self, c0: Idx, c1: Idx, v: Idx)
        requires
            0 <= c0 < 256,
            0 <= c1 < 256,
            old(self).0@.len() == BUCKET_B_SIZE,
        ensures
            final(self).0@ == old(self).0@.update(b_slot(c0 as int, c1 as int), v),
    {
        self.0[(c1 * 256 + c0) as usize] = v;
    }
}

impl<'a> BStarBucket<'a> {
    /// Reads the bucket of `(c0, c1)`.
    pub fn get(&self, c0: Idx, c1: Idx) -> (r: Idx)
        requires
            0 <= c0 < 256,
            0 <= c1 < 256,
            self.0@.len() == BUCKET_B_SIZE,
        ensures
            r == old(self.0)@[bstar_slot(c0 as int, c1 as int)],
    {
        self.0[(c0 * 256 + c1) as usize]
    }

    /// Writes the bucket of `(c0, c1)`.
    pub fn set(&mut self, c0: Idx, c1: Idx, v: Idx)
        requires
            0 <= c0 < 256,
            0 <= c1 < 256,
            old(self).0@.len() == BUCKET_B_SIZE,
        ensures
            final(self).0@ == old(self).0@.update(bstar_slot(c0 as int, c1 as int), v),
    {
        self.0[(c0 * 256 + c1) as usize] = v;
    }
}


/// The entry of `s` at `i`, or 0 where `i` falls outside `s`.
pub open spec fn at(s: Seq<Idx>, i: int) -> Idx {
    if 0 <= i < s.len() {
        s[i]
    } else {
        0
    }
}

/// `s` with `v` written at `i`, or `s` itself where `i` falls outside it.
pub open spec fn put(s: Seq<Idx>, i: int, v: Idx) -> Seq<Idx> {
    if 0 <= i < s.len() {
        s.update(i, v)
    } else {
        s
    }
}

/// The byte of `t` at `i` as an index value, or 0 outside `t`.
pub open spec fn tat(t: Seq<Char>, i: int) -> Idx {
    if 0 <= i < t.len() {
        t[i] as Idx
    } else {
        0
    }
}

/// The middle one of three values.
pub open spec fn median3(a: int, b: int, c: int) -> int {
    if a <= b {
        if b <= c {
            b
        } else if a <= c {
            c
        } else {
            a
        }
    } else {
        if a <= c {
            a
        } else if b <= c {
            c
        } else {
            b
        }
    }
}

pub open spec fn count_if(b: bool) -> int {
    if b {
        1
    } else {
        0
    }
}

/// `m` is the middle one of five values: at least three of them are no
/// greater than `m`, and at least three no smaller.
pub open spec fn is_median5(m: int, a: int, b: int, c: int, d: int, e: int) -> bool {
    &&& count_if(a <= m) + count_if(b <= m) + count_if(c <= m) + count_if(d <= m) + count_if(
        e <= m,
    ) >= 3
    &&& count_if(a >= m) + count_if(b >= m) + count_if(c >= m) + count_if(d >= m) + count_if(
        e >= m,
    ) >= 3
}

/// Reads an entry whose position was computed from stored data.
pub fn sa_get(sa: &[Idx], i: Idx) -> (r: Idx)
    ensures
        r == at(sa@, i as int),
{
    if 0 <= i && (i as usize) < sa.len() {
        sa[i as usize]
    } else {
        0
    }
}

/// Writes an entry whose position was computed from stored data.
pub fn sa_set(sa: &mut [Idx], i: Idx, v: Idx)
    ensures
        final(sa)@ == put(old(sa)@, i as int, v),
{
    if 0 <= i && (i as usize) < sa.len() {
        sa[i as usize] = v;
    }
}

/// Reads a byte of the text at a position computed from stored data.
pub fn text_at(t: &Text, i: Idx) -> (r: Idx)
    ensures
        r == tat(t.0@, i as int),
{
    if 0 <= i && (i as usize) < t.0.len() {
        t.0[i as usize] as Idx
    } else {
        0
    }
}

/// `s` with the entries at `i` and `j` exchanged.
pub open spec fn swapped(s: Seq<Idx>, i: int, j: int) -> Seq<Idx> {
    s.update(i, s[j]).update(j, s[i])
}

/// Exchanges two entries.
pub fn sa_swap(sa: &mut [Idx], i: Idx, j: Idx)
    requires
        0 <= i < old(sa)@.len(),
        0 <= j < old(sa)@.len(),
    ensures
        final(sa)@ == swapped(old(sa)@, i as int, j as int),
{
    let x = sa[i as usize];
    let y = sa[j as usize];
    sa[i as usize] = y;
    sa[j as usize] = x;
}

/// `a` and `b` agree outside `[lo, hi)`.
pub open spec fn same_outside(a: Seq<Idx>, b: Seq<Idx>, lo: int, hi: int) -> bool {
    &&& a.len() == b.len()
    &&& forall|k: int| 0 <= k < a.len() && !(lo <= k < hi) ==> #[trigger] a[k] == b[k]
}


/// Bitwise complement, which the sorting passes use to mark entries:
/// `!x == -x - 1`, so marked entries are negative and marking twice restores
/// the entry.
pub fn flip(x: Idx) -> (r: Idx)
    ensures
        r == -x - 1,
{
    assert(!x == -x - 1) by (bit_vector);
    !x
}

/// The entries of `[lo, hi)` of `s`, counted with their multiplicity.
pub open spec fn range_entries(s: Seq<Idx>, lo: int, hi: int) -> Multiset<Idx> {
    s.subrange(lo, hi).to_multiset()
}

/// Exchanging two entries inside a range keeps the range's entries.
pub proof fn lemma_swap_entries(s: Seq<Idx>, i: int, j: int, lo: int, hi: int)
    requires
        0 <= lo <= i < hi <= s.len(),
        lo <= j < hi,
    ensures
        range_entries(swapped(s, i, j), lo, hi) == range_entries(s, lo, hi),
{
    broadcast use vstd::multiset::group_multiset_axioms;
    let a = s.subrange(lo, hi);
    let a1 = a.update(i - lo, a[j - lo]);
    let a2 = a1.update(j - lo, a[i - lo]);
    assert(swapped(s, i, j).subrange(lo, hi) =~= a2);
    vstd::seq_lib::to_multiset_update(a, i - lo, a[j - lo]);
    vstd::seq_lib::to_multiset_update(a1, j - lo, a[i - lo]);
    vstd::seq_lib::to_multiset_contains(a, a[i - lo]);
    vstd::seq_lib::to_multiset_contains(a, a[j - lo]);
    assert(a.contains(a[i - lo]));
    assert(a.contains(a[j - lo]));
    if i == j {
        assert(a2 =~= a);
    } else {
        assert(a1[j - lo] == a[j - lo]);
        assert(a2.to_multiset() =~= a.to_multiset());
    }
}

/// The entries of `[lo, hi)` are those of `[lo, mid)` and of `[mid, hi)`.
pub proof fn lemma_split_entries(s: Seq<Idx>, lo: int, mid: int, hi: int)
    requires
        0 <= lo <= mid <= hi <= s.len(),
    ensures
        range_entries(s, lo, hi) == range_entries(s, lo, mid).add(range_entries(s, mid, hi)),
{
    assert(s.subrange(lo, hi) =~= s.subrange(lo, mid) + s.subrange(mid, hi));
    vstd::seq_lib::lemma_multiset_commutative(s.subrange(lo, mid), s.subrange(mid, hi));
}

/// Ranges that hold the same entries in the same places hold the same entries.
pub proof fn lemma_same_range_entries(s: Seq<Idx>, t: Seq<Idx>, lo: int, hi: int)
    requires
        0 <= lo <= hi <= s.len(),
        hi <= t.len(),
        forall|k: int| lo <= k < hi ==> s[k] == t[k],
    ensures
        range_entries(s, lo, hi) == range_entries(t, lo, hi),
{
    assert(s.subrange(lo, hi) =~= t.subrange(lo, hi));
}

/// An entry of a range is an entry, somewhere in that range, of any range
/// with the same entries.
pub proof fn lemma_entry_from(s: Seq<Idx>, t: Seq<Idx>, lo: int, hi: int, k: int) -> (j: int)
    requires
        0 <= lo <= k < hi <= s.len(),
        hi <= t.len(),
        range_entries(s, lo, hi) == range_entries(t, lo, hi),
    ensures
        lo <= j < hi,
        t[j] == s[k],
{
    let a = s.subrange(lo, hi);
    let b = t.subrange(lo, hi);
    assert(a[k - lo] == s[k]);
    assert(a.contains(s[k]));
    vstd::seq_lib::to_multiset_contains(a, s[k]);
    vstd::seq_lib::to_multiset_contains(b, s[k]);
    let x = choose|x: int| 0 <= x < b.len() && b[x] == s[k];
    lo + x
}

/// Moving the entry at `lo + i` to `lo`, rearranging the first `i` entries
/// from `lo`, and putting the entry that was at `lo` at `lo + i` keeps the
/// `n` entries from `lo`.
pub proof fn lemma_pop_entries(s0: Seq<Idx>, s2: Seq<Idx>, s3: Seq<Idx>, lo: int, i: int, n: int)
    requires
        0 <= lo,
        1 <= i < n,
        lo + n <= s0.len(),
        s2 == s0.update(lo, s0[lo + i]),
        same_outside(s3, s2, lo, lo + i),
        range_entries(s3, lo, lo + i) == range_entries(s2, lo, lo + i),
    ensures
        range_entries(s3.update(lo + i, s0[lo]), lo, lo + n) == range_entries(s0, lo, lo + n),
{
    let s4 = s3.update(lo + i, s0[lo]);
    let w = swapped(s0, lo, lo + i);
    lemma_swap_entries(s0, lo, lo + i, lo, lo + n);
    lemma_same_range_entries(w, s2, lo, lo + i);
    lemma_same_range_entries(s4, s3, lo, lo + i);
    lemma_same_range_entries(s4, w, lo + i, lo + n);
    lemma_split_entries(s4, lo, lo + i, lo + n);
    lemma_split_entries(w, lo, lo + i, lo + n);
}

} // verus!
