//! Searching a text through its suffix array, and checking a suffix array.
use vstd::prelude::*;
use vstd::slice::slice_subrange;
use crate::lex::{
    suffix, lcp, lex_lt, agree_upto, lt_at, adjacent_sorted, is_suffix_array, lemma_lcp_bounds,
    lemma_lcp_is_first_difference, lemma_lex_lt_at_lcp, lemma_lex_total, lemma_suffix_array_covers,
    lemma_suffix_array_adjacent_sorted, lemma_adjacent_sorted_all,
};
use crate::common::Idx;

verus! {

/// `num_traits::ToPrimitive::to_usize` on an `i32`. The crate's source
/// converts a signed integer to `usize` when it is not negative (an `i32`
/// always fits in a `usize` there), and gives `None` otherwise; that is all
/// this contract claims.
#[verifier::external_body]
fn index_to_usize(x: Idx) -> (r: Option<usize>)
    ensures
        x >= 0 ==> r == Some(x as usize),
        x < 0 ==> r is None,
{
    num_traits::ToPrimitive::to_usize(&x)
}

/// The entries of `sa` in `[0, n)` name suffixes of `text` (the empty one included).
pub open spec fn entries_in_text(text: Seq<u8>, sa: Seq<Idx>, n: int) -> bool {
    forall|i: int| 0 <= i < n ==> 0 <= #[trigger] sa[i] <= text.len()
}

/// Every pair of entries of `sa` names strictly increasing suffixes of `text`.
pub open spec fn sorted_by_suffix(text: Seq<u8>, sa: Seq<Idx>) -> bool {
    forall|i: int, j: int|
        0 <= i < j < sa.len() ==> lex_lt(suffix(text, sa[i] as int), suffix(text, sa[j] as int))
}

/// Returns the number of bytes `a` and `b` have in common.
/// Ex: `common_prefix_len("banana", "banter") = 3`
pub fn common_prefix_len(a: &[u8], b: &[u8]) -> (r: usize)
    ensures
        r == lcp(a@, b@),
{
    let n = if a.len() < b.len() {
        a.len()
    } else {
        b.len()
    };
    let mut i: usize = 0;
    while i < n
        invariant
            n == (if a@.len() < b@.len() { a@.len() } else { b@.len() }),
            0 <= i <= n,
            agree_upto(a@, b@, i as int),
        decreases n - i,
    {
        if a[i] != b[i] {
            proof {
                lemma_lcp_is_first_difference(a@, b@, i as int);
            }
            return i;
        }
        i = i + 1;
    }
    proof {
        lemma_lcp_is_first_difference(a@, b@, i as int);
    }
    n
}

/// `a < b` in the lexicographic order of byte strings.
pub fn bytes_less(a: &[u8], b: &[u8]) -> (r: bool)
    ensures
        r == lex_lt(a@, b@),
{
    let k = common_prefix_len(a, b);
    proof {
        lemma_lcp_bounds(a@, b@);
        lemma_lex_lt_at_lcp(a@, b@);
    }
    if k == a.len() {
        k < b.len()
    } else if k == b.len() {
        false
    } else {
        a[k] < b[k]
    }
}

/// Common prefixes shrink away from a string in a sorted order: when
/// `a <= b <= c`, `a` and `c` share no more than `a` shares with `b`, nor
/// more than `b` shares with `c`.
pub proof fn lemma_lcp_sandwich(a: Seq<u8>, b: Seq<u8>, c: Seq<u8>)
    requires
        lex_lt(a, b) || a == b,
        lex_lt(b, c) || b == c,
    ensures
        lcp(a, c) <= lcp(a, b),
        lcp(a, c) <= lcp(b, c),
{
    lemma_lcp_bounds(a, c);
    lemma_lcp_bounds(a, b);
    lemma_lcp_bounds(b, c);
    lemma_lex_lt_at_lcp(a, b);
    lemma_lex_lt_at_lcp(b, c);
    let p = lcp(a, c);
    let k = lcp(a, b);
    let l = lcp(b, c);
    if k < p {
        // b leaves a at k, where a still agrees with c
        assert(a[k] == c[k]);
        assert(a != b);
        assert forall|i: int| 0 <= i < k implies b[i] == c[i] by {
            assert(a[i] == b[i]);
            assert(a[i] == c[i]);
        }
        lemma_lcp_is_first_difference(b, c, k);
    }
    if l < p {
        assert(b != c);
        assert forall|i: int| 0 <= i < l implies a[i] == b[i] by {
            assert(a[i] == c[i]);
        }
        if k < l {
            assert(a[k] == c[k]);
        }
        lemma_lcp_is_first_difference(a, b, l);
    }
}

/// The result of a search: the part `text[start..start + len]` of the text.
pub struct LongestCommonSubstring<'a> {
    text: &'a [u8],
    start: usize,
    len: usize,
}

impl<'a> LongestCommonSubstring<'a> {
    #[verifier::type_invariant]
    spec fn inside(self) -> bool {
        self.start + self.len <= self.text@.len()
    }

    pub closed spec fn spec_text(self) -> Seq<u8> {
        self.text@
    }

    pub closed spec fn spec_start(self) -> int {
        self.start as int
    }

    pub closed spec fn spec_len(self) -> int {
        self.len as int
    }

    /// A match inside `text`.
    pub fn new(text: &'a [u8], start: usize, len: usize) -> (r: Self)
        requires
            start + len <= text@.len(),
        ensures
            r.spec_text() == text@,
            r.spec_start() == start,
            r.spec_len() == len,
    {
        LongestCommonSubstring { text, start, len }
    }

    /// The matched bytes.
    pub fn as_bytes(&self) -> (r: &'a [u8])
        ensures
            r@ == self.spec_text().subrange(self.spec_start(), self.spec_start() + self.spec_len()),
    {
        proof {
            use_type_invariant(self);
        }
        let n = self.text.len();
        assert(self.start + self.len <= n);
        slice_subrange(self.text, self.start, self.start + self.len)
    }

    pub fn start(&self) -> (r: usize)
        ensures
            r == self.spec_start(),
    {
        self.start
    }

    pub fn len(&self) -> (r: usize)
        ensures
            r == self.spec_len(),
            self.spec_start() + self.spec_len() <= self.spec_text().len(),
    {
        proof {
            use_type_invariant(self);
        }
        self.len
    }

    /// The text the match was found in.
    pub fn text(&self) -> (r: &'a [u8])
        ensures
            r@ == self.spec_text(),
    {
        self.text
    }
}

/// The entry of `sa` at `i`, as a position of the text.
fn sa_pos(text: &[u8], sa: &[Idx], i: usize) -> (r: usize)
    requires
        i < sa@.len(),
        0 <= sa@[i as int] <= text@.len(),
    ensures
        r == sa@[i as int],
{
    index_to_usize(sa[i]).unwrap()
}

/// The entry of `sa[lo..hi)` at which the search for `needle` stops: it
/// halves the range by comparing `needle` with the middle suffix, and of the
/// last two entries keeps the first only when it shares more with `needle`.
pub open spec fn search_pick(text: Seq<u8>, sa: Seq<Idx>, needle: Seq<u8>, lo: int, hi: int) -> int
    decreases hi - lo,
{
    if hi - lo <= 1 {
        lo
    } else if hi - lo == 2 {
        if lcp(suffix(text, sa[lo] as int), needle) > lcp(suffix(text, sa[lo + 1] as int), needle) {
            lo
        } else {
            lo + 1
        }
    } else {
        let mid = lo + (hi - lo) / 2;
        if lex_lt(suffix(text, sa[mid] as int), needle) {
            search_pick(text, sa, needle, mid, hi)
        } else {
            search_pick(text, sa, needle, lo, mid + 1)
        }
    }
}

/// Searches for the longest substring match for `needle`
/// in `input`, using its suffix array `sa`.
///
/// The result starts where some entry of `sa` points and is as long as the
/// common prefix of that suffix and `needle`; when `sa` is sorted, no suffix
/// it names shares a longer prefix with `needle`.
pub fn longest_substring_match<'a>(text: &'a [u8], sa: &[Idx], needle: &[u8]) -> (r:
    LongestCommonSubstring<'a>)
    requires
        sa@.len() >= 1,
        entries_in_text(text@, sa@, sa@.len() as int),
    ensures
        r.spec_text() == text@,
        r.spec_start() == sa@[search_pick(text@, sa@, needle@, 0, sa@.len() as int)],
        r.spec_len() == lcp(suffix(text@, r.spec_start() as int), needle@),
        exists|k: int|
            0 <= k < sa@.len() && r.spec_start() == sa@[k] && r.spec_len() == lcp(
                suffix(text@, sa@[k] as int),
                needle@,
            ),
        sorted_by_suffix(text@, sa@) ==> forall|j: int|
            0 <= j < sa@.len() ==> lcp(suffix(text@, #[trigger] sa@[j] as int), needle@)
                <= r.spec_len(),
{
    let ghost t = text@;
    let ghost x = needle@;
    let mut lo: usize = 0;
    let mut hi: usize = sa.len();
    loop
        invariant
            0 <= lo < hi <= sa@.len(),
            t == text@,
            x == needle@,
            search_pick(t, sa@, x, lo as int, hi as int) == search_pick(t, sa@, x, 0, sa@.len() as int),
            entries_in_text(text@, sa@, sa@.len() as int),
            sorted_by_suffix(text@, sa@) ==> forall|j: int|
                0 <= j < lo ==> lcp(suffix(t, #[trigger] sa@[j] as int), x) <= lcp(
                    suffix(t, sa@[lo as int] as int),
                    x,
                ),
            sorted_by_suffix(text@, sa@) ==> forall|j: int|
                hi <= j < sa@.len() ==> lcp(suffix(t, #[trigger] sa@[j] as int), x) <= lcp(
                    suffix(t, sa@[hi - 1] as int),
                    x,
                ),
        decreases hi - lo,
    {
        let size = hi - lo;
        if size == 1 {
            let p = sa_pos(text, sa, lo);
            let s = slice_subrange(text, p, text.len());
            let l = common_prefix_len(s, needle);
            proof {
                lemma_lcp_bounds(s@, x);
                assert(s@ == suffix(t, sa@[lo as int] as int));
            }
            return LongestCommonSubstring { text, start: p, len: l };
        } else if size == 2 {
            let p0 = sa_pos(text, sa, lo);
            let p1 = sa_pos(text, sa, lo + 1);
            let s0 = slice_subrange(text, p0, text.len());
            let s1 = slice_subrange(text, p1, text.len());
            let x0 = common_prefix_len(s0, needle);
            let x1 = common_prefix_len(s1, needle);
            proof {
                lemma_lcp_bounds(s0@, x);
                lemma_lcp_bounds(s1@, x);
                assert(s0@ == suffix(t, sa@[lo as int] as int));
                assert(s1@ == suffix(t, sa@[lo + 1] as int));
            }
            return if x0 > x1 {
                LongestCommonSubstring { text, start: p0, len: x0 }
            } else {
                LongestCommonSubstring { text, start: p1, len: x1 }
            };
        } else {
            let mid = lo + size / 2;
            let pm = sa_pos(text, sa, mid);
            let sm = slice_subrange(text, pm, text.len());
            let greater = bytes_less(sm, needle);
            let ghost smv = suffix(t, sa@[mid as int] as int);
            proof {
                assert(sm@ == smv);
            }
            if greater {
                proof {
                    if sorted_by_suffix(text@, sa@) {
                        assert forall|j: int| 0 <= j < mid implies lcp(
                            suffix(t, #[trigger] sa@[j] as int),
                            x,
                        ) <= lcp(smv, x) by {
                            let sj = suffix(t, sa@[j] as int);
                            assert(lex_lt(sj, smv));
                            lemma_lcp_sandwich(sj, smv, x);
                            lemma_lcp_symmetric(sj, x);
                            lemma_lcp_symmetric(smv, x);
                        }
                    }
                }
                lo = mid;
            } else {
                proof {
                    if sorted_by_suffix(text@, sa@) {
                        if x != smv {
                            lemma_lex_total(x, smv);
                        }
                        assert forall|j: int| mid + 1 <= j < sa@.len() implies lcp(
                            suffix(t, #[trigger] sa@[j] as int),
                            x,
                        ) <= lcp(smv, x) by {
                            let sj = suffix(t, sa@[j] as int);
                            assert(lex_lt(smv, sj));
                            lemma_lcp_sandwich(x, smv, sj);
                            lemma_lcp_symmetric(sj, x);
                            lemma_lcp_symmetric(smv, x);
                        }
                    }
                }
                hi = mid + 1;
            }
        }
    }
}

pub proof fn lemma_lcp_symmetric(a: Seq<u8>, b: Seq<u8>)
    ensures
        lcp(a, b) == lcp(b, a),
{
    lemma_lcp_bounds(a, b);
    lemma_lcp_is_first_difference(b, a, lcp(a, b));
}

/// Error returned by `verify` when an array is not the suffix array: either
/// the suffix at entry `i` is not smaller than the one at entry
/// `j == i + 1`, or (with `i == j`) the array has the wrong length or an
/// entry that names no suffix.
#[derive(Debug)]
pub struct NotSorted {
    i: usize,
    j: usize,
}

impl NotSorted {
    pub closed spec fn spec_i(self) -> int {
        self.i as int
    }

    pub closed spec fn spec_j(self) -> int {
        self.j as int
    }

    /// Both indices name places in an array: they are not negative.
    pub proof fn lemma_indices_nonnegative(self)
        ensures
            0 <= self.spec_i(),
            0 <= self.spec_j(),
    {
    }

    pub fn i(&self) -> (r: usize)
        ensures
            r == self.spec_i(),
    {
        self.i
    }

    pub fn j(&self) -> (r: usize)
        ensures
            r == self.spec_j(),
    {
        self.j
    }
}

/// Returns an error if `sa` is not the suffix array of `input`,
/// Ok(()) otherwise.
///
/// An array of the wrong length errs with both indices at the shorter
/// length; an entry that names no suffix errs with both indices at its
/// place; otherwise the error names the first entry whose suffix is not
/// smaller than the next one's.
pub fn verify(input: &[u8], sa: &[Idx]) -> (r: Result<(), NotSorted>)
    ensures
        r is Ok <==> is_suffix_array(input@, sa@),
        r matches Err(e) ==> e.spec_i() == e.spec_j() || e.spec_j() == e.spec_i() + 1,
        r matches Err(e) ==> (e.spec_i() == e.spec_j() ==> {
            ||| sa@.len() != input@.len() && e.spec_i() == (if sa@.len() < input@.len() {
                sa@.len()
            } else {
                input@.len()
            })
            ||| {
                &&& sa@.len() == input@.len()
                &&& e.spec_i() < sa@.len()
                &&& !(0 <= sa@[e.spec_i()] < input@.len())
                &&& forall|k: int| 0 <= k < e.spec_i() ==> 0 <= #[trigger] sa@[k] < input@.len()
            }
        }),
        r matches Err(e) ==> (e.spec_j() == e.spec_i() + 1 ==> {
            &&& sa@.len() == input@.len()
            &&& forall|k: int| 0 <= k < sa@.len() ==> 0 <= #[trigger] sa@[k] < input@.len()
            &&& e.spec_j() < input@.len()
            &&& adjacent_sorted(input@, sa@, e.spec_j())
            &&& !lex_lt(
                suffix(input@, sa@[e.spec_i()] as int),
                suffix(input@, sa@[e.spec_j()] as int),
            )
        }),
{
    let n = input.len();
    if sa.len() != n {
        let m = if sa.len() < n {
            sa.len()
        } else {
            n
        };
        return Err(NotSorted { i: m, j: m });
    }
    let mut k: usize = 0;
    while k < n
        invariant
            0 <= k <= n,
            n == input@.len(),
            n == sa@.len(),
            forall|q: int| 0 <= q < k ==> 0 <= #[trigger] sa@[q] < n,
        decreases n - k,
    {
        if !(0 <= sa[k] && (sa[k] as usize) < n) {
            return Err(NotSorted { i: k, j: k });
        }
        k = k + 1;
    }
    let mut i: usize = 0;
    while i + 1 < n
        invariant
            n == input@.len(),
            n == sa@.len(),
            forall|q: int| 0 <= q < n ==> 0 <= #[trigger] sa@[q] < n,
            i == 0 || i < n,
            adjacent_sorted(input@, sa@, i + 1),
        decreases n - i,
    {
        let p = sa_pos(input, sa, i);
        let q = sa_pos(input, sa, i + 1);
        let a = slice_subrange(input, p, input.len());
        let b = slice_subrange(input, q, input.len());
        if !bytes_less(a, b) {
            proof {
                if is_suffix_array(input@, sa@) {
                    assert(lex_lt(
                        suffix(input@, sa@[i as int] as int),
                        suffix(input@, sa@[i + 1] as int),
                    ));
                }
            }
            return Err(NotSorted { i: i, j: i + 1 });
        }
        i = i + 1;
    }
    proof {
        lemma_adjacent_sorted_all(input@, sa@, n as int);
    }
    Ok(())
}

/// A suffix array
pub struct SuffixArray<'a> {
    sa: Vec<Idx>,
    text: &'a [u8],
}

impl<'a> SuffixArray<'a> {
    pub closed spec fn spec_sa(self) -> Seq<Idx> {
        self.sa@
    }

    pub closed spec fn spec_text(self) -> Seq<u8> {
        self.text@
    }

    /// Create an instance of SuffixArray, taking ownership of `sa`
    pub fn new(text: &'a [u8], sa: Vec<Idx>) -> (r: Self)
        ensures
            r.spec_text() == text@,
            r.spec_sa() == sa@,
    {
        SuffixArray { sa, text }
    }

    /// The text whose suffixes are indexed.
    pub fn text(&self) -> (r: &'a [u8])
        ensures
            r@ == self.spec_text(),
    {
        self.text
    }

    /// The entries of the suffix array.
    pub fn sa(&self) -> (r: &[Idx])
        ensures
            r@ == self.spec_sa(),
    {
        self.sa.as_slice()
    }

    /// Returns the longest match of `needle` among the suffixes (see the
    /// free function of the same name).
    pub fn longest_substring_match(&self, needle: &[u8]) -> (r: LongestCommonSubstring<'a>)
        requires
            self.spec_sa().len() >= 1,
            entries_in_text(self.spec_text(), self.spec_sa(), self.spec_sa().len() as int),
        ensures
            r.spec_text() == self.spec_text(),
            r.spec_start() == self.spec_sa()[search_pick(
                self.spec_text(),
                self.spec_sa(),
                needle@,
                0,
                self.spec_sa().len() as int,
            )],
            r.spec_len() == lcp(suffix(self.spec_text(), r.spec_start() as int), needle@),
            exists|k: int|
                0 <= k < self.spec_sa().len() && r.spec_start() == self.spec_sa()[k]
                    && r.spec_len() == lcp(
                    suffix(self.spec_text(), self.spec_sa()[k] as int),
                    needle@,
                ),
            sorted_by_suffix(self.spec_text(), self.spec_sa()) ==> forall|j: int|
                0 <= j < self.spec_sa().len() ==> lcp(
                    suffix(self.spec_text(), #[trigger] self.spec_sa()[j] as int),
                    needle@,
                ) <= r.spec_len(),
            is_suffix_array(self.spec_text(), self.spec_sa()) ==> forall|p: int|
                0 <= p < self.spec_text().len() ==> #[trigger] lcp(
                    suffix(self.spec_text(), p),
                    needle@,
                ) <= r.spec_len(),
    {
        let r = longest_substring_match(self.text, self.sa.as_slice(), needle);
        proof {
            let t = self.spec_text();
            let sa = self.spec_sa();
            if is_suffix_array(t, sa) {
                assert forall|p: int| 0 <= p < t.len() implies #[trigger] lcp(
                    suffix(t, p),
                    needle@,
                ) <= r.spec_len() by {
                    lemma_suffix_array_covers(t, sa, p);
                    let k = choose|k: int| 0 <= k < sa.len() && sa[k] == p;
                    assert(lcp(suffix(t, sa[k] as int), needle@) <= r.spec_len());
                }
            }
        }
        r
    }

    /// Return (text, sa), giving back ownership of `sa`
    pub fn into_parts(self) -> (r: (&'a [u8], Vec<Idx>))
        ensures
            r.0@ == self.spec_text(),
            r.1@ == self.spec_sa(),
    {
        (self.text, self.sa)
    }

    /// Returns an error if the array kept is not the suffix array of the
    /// text (see `verify`), Ok(()) otherwise.
    pub fn verify(&self) -> (r: Result<(), NotSorted>)
        ensures
            r is Ok <==> is_suffix_array(self.spec_text(), self.spec_sa()),
    {
        verify(self.text, self.sa.as_slice())
    }
}

} // verus!
