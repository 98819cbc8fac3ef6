//! Suffix arrays of the parts of a text, searched together.
use vstd::prelude::*;
use vstd::slice::slice_subrange;
use crate::common::Idx;
use crate::lex::{suffix, lcp, is_suffix_array, lemma_lcp_bounds, lemma_lcp_is_first_difference};
use crate::sacabase::{common_prefix_len, search_pick, LongestCommonSubstring, SuffixArray};

verus! {

/// The `i`-th part of `text` cut into parts of `size` bytes (the last one
/// may be shorter).
pub open spec fn part(text: Seq<u8>, size: int, i: int) -> Seq<u8> {
    text.subrange(
        i * size,
        if (i + 1) * size < text.len() {
            (i + 1) * size
        } else {
            text.len() as int
        },
    )
}

/// Where in `text` the search of the `i`-th part starts its match: the part's
/// start plus the entry its suffix array search stops at.
pub open spec fn part_match_start<'a>(
    text: Seq<u8>,
    size: int,
    parts: Seq<SuffixArray<'a>>,
    needle: Seq<u8>,
    i: int,
) -> int {
    let pt = part(text, size, i);
    let sa = parts[i].spec_sa();
    i * size + sa[search_pick(pt, sa, needle, 0, sa.len() as int)]
}

/// The part whose match the search keeps among the first `i` parts: the
/// first of those whose match, extended into the text, is longest.
pub open spec fn best_part<'a>(
    text: Seq<u8>,
    size: int,
    parts: Seq<SuffixArray<'a>>,
    needle: Seq<u8>,
    i: int,
) -> int
    decreases i,
{
    if i <= 1 {
        0
    } else {
        let b = best_part(text, size, parts, needle, i - 1);
        if lcp(suffix(text, part_match_start(text, size, parts, needle, i - 1)), needle) > lcp(
            suffix(text, part_match_start(text, size, parts, needle, b)),
            needle,
        ) {
            i - 1
        } else {
            b
        }
    }
}

/// The length of the `i`-th part's match extended into the whole text: how
/// much of `needle` the text spells from where that part's search stops.
pub open spec fn part_match_len<'a>(
    text: Seq<u8>,
    size: int,
    parts: Seq<SuffixArray<'a>>,
    needle: Seq<u8>,
    i: int,
) -> int {
    lcp(suffix(text, part_match_start(text, size, parts, needle, i)), needle)
}

/// The part kept among the first `i` is one of them, its extended match is
/// at least as long as every other part's, and no part before it ties.
pub proof fn lemma_best_part_is_first_longest<'a>(
    text: Seq<u8>,
    size: int,
    parts: Seq<SuffixArray<'a>>,
    needle: Seq<u8>,
    i: int,
)
    requires
        1 <= i,
    ensures
        0 <= best_part(text, size, parts, needle, i) < i,
        forall|j: int|
            0 <= j < i ==> #[trigger] part_match_len(text, size, parts, needle, j) <= part_match_len(
                text,
                size,
                parts,
                needle,
                best_part(text, size, parts, needle, i),
            ),
        forall|j: int|
            0 <= j < best_part(text, size, parts, needle, i) ==> #[trigger] part_match_len(
                text,
                size,
                parts,
                needle,
                j,
            ) < part_match_len(text, size, parts, needle, best_part(text, size, parts, needle, i)),
    decreases i,
{
    if i > 1 {
        lemma_best_part_is_first_longest(text, size, parts, needle, i - 1);
    }
}

/// `sa` is what `f` gave back for the `i`-th part of `text` cut into parts
/// of `size` bytes.
pub open spec fn made_from_part<'a, F: Fn(&'a [u8]) -> SuffixArray<'a>>(
    f: F,
    text: Seq<u8>,
    size: int,
    i: int,
    sa: SuffixArray<'a>,
) -> bool {
    exists|c: &'a [u8]| c@ == part(text, size, i) && #[trigger] call_ensures(f, (c,), sa)
}

/// `sas` holds one array for each part of `text` cut into parts of `size`
/// bytes, the `i`-th over the bytes of the `i`-th part.
pub open spec fn parts_fit<'a>(text: Seq<u8>, size: int, sas: Seq<SuffixArray<'a>>) -> bool {
    &&& sas.len() * size >= text.len()
    &&& forall|i: int| 0 <= i < sas.len() ==> #[trigger] (i * size) < text.len()
    &&& forall|i: int|
        0 <= i < sas.len() ==> (#[trigger] sas[i]).spec_text() == part(text, size, i)
}

/// Whether `a` and `b` hold the same bytes.
fn same_bytes(a: &[u8], b: &[u8]) -> (r: bool)
    ensures
        r == (a@ == b@),
{
    if a.len() != b.len() {
        return false;
    }
    let mut i: usize = 0;
    while i < a.len()
        invariant
            a@.len() == b@.len(),
            0 <= i <= a@.len(),
            forall|k: int| 0 <= k < i ==> a@[k] == b@[k],
        decreases a.len() - i,
    {
        if a[i] != b[i] {
            return false;
        }
        i = i + 1;
    }
    proof {
        assert(a@ =~= b@);
    }
    true
}

/// Cutting a string short keeps its common prefix with `x` when that prefix
/// ends before the cut, and never lengthens it.
proof fn lemma_lcp_of_prefix(a: Seq<u8>, m: int, x: Seq<u8>)
    requires
        0 <= m <= a.len(),
    ensures
        lcp(a.subrange(0, m), x) <= lcp(a, x),
        lcp(a.subrange(0, m), x) < m ==> lcp(a, x) == lcp(a.subrange(0, m), x),
{
    let am = a.subrange(0, m);
    lemma_lcp_bounds(am, x);
    lemma_lcp_bounds(a, x);
    let l = lcp(am, x);
    if l < m {
        assert forall|q: int| 0 <= q < l implies a[q] == x[q] by {
            assert(am[q] == x[q]);
        }
        if l < x.len() {
            assert(am[l] == a[l]);
        }
        lemma_lcp_is_first_difference(a, x, l);
    } else {
        if lcp(a, x) < l {
            let k = lcp(a, x);
            assert(am[k] == x[k]);
            assert(am[k] == a[k]);
        }
    }
}

/// A partitioned suffix array, that is faster to construct but finds
/// slightly worse matches in a slightly longer amount of time.
///
/// Suffix sorting is an expensive operation that is hard to parallelize
/// well. The idea behind a partitioned suffix array is to suffix sort
/// multiple parts of a text rather than the full text. `new` sorts the
/// parts one after the other; since each is sorted on its own, a caller may
/// sort them on several threads and put them together with `from_parts`.
/// Search now takes
/// O(k * log n) for k partitions, and matches across the boundaries may be
/// much worse.
///
/// For example, the text "totor" may be partitioned into "tot" and "or".
/// Looking for matches for "tor" may well only return a substring of "to",
/// at offset 0, because the first partition only has the suffixes "t",
/// "to", and "tot". The second partition only has the suffixes "or" and "r".
/// So, it finds the substring "(to)tor", tries to extend it to the right,
/// and fails. It doesn't try to extend "to(t)or", because in the suffix
/// array of that partition, that substring is a weaker match than "(to)tor".
///
/// For some applications (like bsdiff-like algorithms), this is an acceptable
/// tradeoff (the resulting patch will be slightly larger). For others, it isn't.
pub struct PartitionedSuffixArray<'a> {
    partition_size: usize,
    text: &'a [u8],
    sas: Vec<SuffixArray<'a>>,
}

impl<'a> PartitionedSuffixArray<'a> {
    /// Every part starts inside the text, and the array kept for it indexes
    /// that part.
    #[verifier::type_invariant]
    spec fn parts_cover(self) -> bool {
        &&& self.partition_size >= 1
        &&& self.sas@.len() * self.partition_size >= self.text@.len()
        &&& forall|i: int|
            0 <= i < self.sas@.len() ==> #[trigger] (i * self.partition_size) < self.text@.len()
        &&& forall|i: int|
            0 <= i < self.sas@.len() ==> (#[trigger] self.sas@[i]).spec_text() == part(
                self.text@,
                self.partition_size as int,
                i,
            )
    }

    pub closed spec fn spec_text(self) -> Seq<u8> {
        self.text@
    }

    pub closed spec fn spec_partition_size(self) -> int {
        self.partition_size as int
    }

    pub closed spec fn spec_num_partitions(self) -> int {
        self.sas@.len() as int
    }

    /// The suffix arrays of the parts, in the order of the parts.
    pub closed spec fn spec_parts(self) -> Seq<SuffixArray<'a>> {
        self.sas@
    }

    /// Each part's array is the suffix array of that part.
    pub open spec fn parts_are_suffix_arrays(self) -> bool {
        forall|i: int|
            0 <= i < self.spec_num_partitions() ==> is_suffix_array(
                part(self.spec_text(), self.spec_partition_size(), i),
                (#[trigger] self.spec_parts()[i]).spec_sa(),
            )
    }

    /// Each part's array names nonempty suffixes of that part, and there is
    /// one at least.
    pub open spec fn parts_searchable(self) -> bool {
        forall|i: int|
            0 <= i < self.spec_num_partitions() ==> {
                let sa = (#[trigger] self.spec_parts()[i]).spec_sa();
                &&& sa.len() >= 1
                &&& forall|k: int|
                    0 <= k < sa.len() ==> 0 <= #[trigger] sa[k] < part(
                        self.spec_text(),
                        self.spec_partition_size(),
                        i,
                    ).len()
            }
    }

    /// Cuts `text` into `num_partitions` parts of `text.len() / num_partitions
    /// + 1` bytes (fewer when the text runs out) and builds the suffix array
    /// of each part with `f`.
    pub fn new<F>(text: &'a [u8], num_partitions: usize, f: F) -> (r: Self) where
        F: Fn(&'a [u8]) -> SuffixArray<'a>,

        requires
            num_partitions >= 1,
            text@.len() < usize::MAX,
            forall|c: &'a [u8]|
                c@.len() <= text@.len() ==> #[trigger] call_requires(f, (c,)),
            forall|c: &'a [u8], sa: SuffixArray<'a>|
                #[trigger] call_ensures(f, (c,), sa) ==> sa.spec_text() == c@,
        ensures
            r.spec_text() == text@,
            r.spec_partition_size() == (text@.len() as int) / (num_partitions as int) + 1,
            r.spec_num_partitions() * r.spec_partition_size() >= text@.len(),
            forall|i: int|
                0 <= i < r.spec_num_partitions() ==> #[trigger] (i * r.spec_partition_size())
                    < text@.len(),
            r.spec_parts().len() == r.spec_num_partitions(),
            forall|i: int|
                0 <= i < r.spec_num_partitions() ==> made_from_part(
                    f,
                    text@,
                    r.spec_partition_size(),
                    i,
                    #[trigger] r.spec_parts()[i],
                ),
    {
        let n = text.len();
        let partition_size = n / num_partitions + 1;
        let ghost ps = partition_size as int;
        let mut sas: Vec<SuffixArray<'a>> = Vec::new();
        let mut start: usize = 0;
        proof {
            assert(sas@.len() == 0);
            assert(0 * ps == 0);
        }
        while start < n
            invariant
                n == text@.len(),
                ps == partition_size,
                ps >= 1,
                partition_size == n / num_partitions + 1,
                start == (if sas@.len() * ps < n {
                    sas@.len() * ps
                } else {
                    n as int
                }),
                forall|c: &'a [u8]| c@.len() <= text@.len() ==> #[trigger] call_requires(f, (c,)),
                forall|c: &'a [u8], sa: SuffixArray<'a>|
                    #[trigger] call_ensures(f, (c,), sa) ==> sa.spec_text() == c@,
                forall|i: int| 0 <= i < sas@.len() ==> #[trigger] (i * ps) < n,
                forall|i: int|
                    0 <= i < sas@.len() ==> (#[trigger] sas@[i]).spec_text() == part(text@, ps, i),
                forall|i: int|
                    0 <= i < sas@.len() ==> made_from_part(f, text@, ps, i, #[trigger] sas@[i]),
            decreases n - start,
        {
            let ghost i = sas@.len() as int;
            proof {
                assert((i + 1) * ps == i * ps + ps) by (nonlinear_arith);
            }
            let end = if n - start < partition_size {
                n
            } else {
                start + partition_size
            };
            let chunk = slice_subrange(text, start, end);
            let sa = f(chunk);
            let ghost before = sas@;
            sas.push(sa);
            proof {
                assert(chunk@ == part(text@, ps, i));
                assert forall|j: int| 0 <= j < sas@.len() implies #[trigger] (j * ps) < n by {
                    if j < i {
                        assert(sas@[j] == before[j]);
                    }
                }
                assert(made_from_part(f, text@, ps, i, sa)) by {
                    assert(call_ensures(f, (chunk,), sa));
                }
                assert forall|j: int| 0 <= j < sas@.len() implies made_from_part(
                    f,
                    text@,
                    ps,
                    j,
                    #[trigger] sas@[j],
                ) by {
                    if j < i {
                        assert(sas@[j] == before[j]);
                    } else {
                        assert(sas@[j] == sa);
                    }
                }
            }
            start = end;
        }
        PartitionedSuffixArray { partition_size, text, sas }
    }

    /// Puts together the partitioned suffix array of `text` from arrays built
    /// elsewhere, on several threads say: `sas[i]` is to be the array of the
    /// `i`-th part of `text` cut into `num_partitions` parts as `new` cuts
    /// it. Returns `None` where there are not as many arrays as parts, or
    /// where an array is over other bytes than its part.
    pub fn from_parts(text: &'a [u8], num_partitions: usize, sas: Vec<SuffixArray<'a>>) -> (r:
        Option<Self>)
        requires
            num_partitions >= 1,
            text@.len() < usize::MAX,
        ensures
            r is Some <==> parts_fit(
                text@,
                (text@.len() as int) / (num_partitions as int) + 1,
                sas@,
            ),
            r matches Some(p) ==> (p.spec_text() == text@ && p.spec_partition_size() == (
            text@.len() as int) / (num_partitions as int) + 1 && p.spec_parts() == sas@
                && p.spec_num_partitions() == sas@.len()),
    {
        let n = text.len();
        let partition_size = n / num_partitions + 1;
        let ghost ps = partition_size as int;
        let mut start: usize = 0;
        let mut i: usize = 0;
        proof {
            assert(0 * ps == 0);
        }
        while start < n
            invariant
                n == text@.len(),
                ps == partition_size,
                ps >= 1,
                partition_size == n / num_partitions + 1,
                i <= sas@.len(),
                start == (if i * ps < n {
                    i * ps
                } else {
                    n as int
                }),
                forall|j: int| 0 <= j < i ==> #[trigger] (j * ps) < n,
                forall|j: int|
                    0 <= j < i ==> (#[trigger] sas@[j]).spec_text() == part(text@, ps, j),
            decreases n - start,
        {
            if i == sas.len() {
                return None;
            }
            proof {
                assert((i + 1) * ps == i * ps + ps) by (nonlinear_arith);
            }
            let end = if n - start < partition_size {
                n
            } else {
                start + partition_size
            };
            let chunk = slice_subrange(text, start, end);
            proof {
                assert(chunk@ == part(text@, ps, i as int));
            }
            if !same_bytes(sas[i].text(), chunk) {
                proof {
                    assert(!((sas@[i as int]).spec_text() == part(text@, ps, i as int)));
                }
                return None;
            }
            start = end;
            i = i + 1;
        }
        if i < sas.len() {
            proof {
                assert(!((i as int) * ps < n));
            }
            return None;
        }
        Some(PartitionedSuffixArray { partition_size, text, sas })
    }

    /// The number of parts.
    pub fn num_partitions(&self) -> (r: usize)
        ensures
            r == self.spec_num_partitions(),
    {
        self.sas.len()
    }

    /// Searches every part for the longest match of `needle` and keeps the
    /// longest (the first of equally long ones). A match that reaches the
    /// end of its part is extended into the rest of the text.
    ///
    /// The match found is a true match of the whole text, and no part holds
    /// a longer one; a match that crosses a boundary between parts may be
    /// missed.
    pub fn longest_substring_match(&self, needle: &[u8]) -> (r: LongestCommonSubstring<'a>)
        requires
            self.spec_text().len() >= 1,
            self.parts_searchable(),
        ensures
            r.spec_text() == self.spec_text(),
            0 <= r.spec_start() < self.spec_text().len(),
            r.spec_len() == lcp(suffix(self.spec_text(), r.spec_start()), needle@),
            r.spec_start() == part_match_start(
                self.spec_text(),
                self.spec_partition_size(),
                self.spec_parts(),
                needle@,
                best_part(
                    self.spec_text(),
                    self.spec_partition_size(),
                    self.spec_parts(),
                    needle@,
                    self.spec_num_partitions(),
                ),
            ),
            forall|i: int|
                0 <= i < self.spec_num_partitions() ==> #[trigger] part_match_len(
                    self.spec_text(),
                    self.spec_partition_size(),
                    self.spec_parts(),
                    needle@,
                    i,
                ) <= r.spec_len(),
            exists|j: int|
                0 <= j < self.spec_num_partitions() && r.spec_start() == part_match_start(
                    self.spec_text(),
                    self.spec_partition_size(),
                    self.spec_parts(),
                    needle@,
                    j,
                ) && forall|i: int|
                    0 <= i < j ==> #[trigger] part_match_len(
                        self.spec_text(),
                        self.spec_partition_size(),
                        self.spec_parts(),
                        needle@,
                        i,
                    ) < r.spec_len(),
            self.parts_are_suffix_arrays() ==> forall|i: int, p: int|
                0 <= i < self.spec_num_partitions() && 0 <= p < part(
                    self.spec_text(),
                    self.spec_partition_size(),
                    i,
                ).len() ==> #[trigger] lcp(
                    suffix(part(self.spec_text(), self.spec_partition_size(), i), p),
                    needle@,
                ) <= r.spec_len(),
    {
        proof {
            use_type_invariant(self);
        }
        let n = self.text.len();
        let ghost t = self.text@;
        let ghost ps = self.partition_size as int;
        let ghost x = needle@;
        let ghost sorted = self.parts_are_suffix_arrays();
        let mut best: Option<LongestCommonSubstring<'a>> = None;
        let mut i: usize = 0;
        while i < self.sas.len()
            invariant
                0 <= i <= self.sas@.len(),
                n == t.len(),
                n >= 1,
                t == self.text@,
                ps == self.partition_size,
                x == needle@,
                self.partition_size >= 1,
                self.sas@.len() * self.partition_size >= self.text@.len(),
                forall|j: int|
                    0 <= j < self.sas@.len() ==> #[trigger] (j * self.partition_size)
                        < self.text@.len(),
                forall|j: int|
                    0 <= j < self.sas@.len() ==> (#[trigger] self.sas@[j]).spec_text() == part(
                        self.text@,
                        self.partition_size as int,
                        j,
                    ),
                self.parts_searchable(),
                sorted == self.parts_are_suffix_arrays(),
                i == 0 <==> best is None,
                best matches Some(b) ==> {
                    &&& b.spec_text() == t
                    &&& 0 <= b.spec_start() < n
                    &&& b.spec_start() == part_match_start(t, ps, self.sas@, x, best_part(t, ps, self.sas@, x, i as int))
                    &&& b.spec_len() == lcp(suffix(t, b.spec_start()), x)
                    &&& sorted ==> forall|j: int, p: int|
                        0 <= j < i && 0 <= p < part(t, ps, j).len() ==> #[trigger] lcp(
                            suffix(part(t, ps, j), p),
                            x,
                        ) <= b.spec_len()
                },
            decreases self.sas@.len() - i,
        {
            let sa = &self.sas[i];
            let ghost pt = part(t, ps, i as int);
            proof {
                assert(sa.spec_text() == pt);
                assert(i * ps < n);
                assert((i + 1) * ps == i * ps + ps) by (nonlinear_arith);
                assert(pt.len() >= 1);
                assert(self.spec_parts()[i as int] == self.sas@[i as int]);
                assert forall|k: int| 0 <= k < sa.spec_sa().len() implies 0 <= #[trigger] sa.spec_sa()[k]
                    <= pt.len() by {
                }
                if sorted {
                    assert(is_suffix_array(pt, sa.spec_sa()));
                }
            }
            let lcs = sa.longest_substring_match(needle);
            proof {
                let k = choose|k: int|
                    0 <= k < sa.spec_sa().len() && lcs.spec_start() == sa.spec_sa()[k] && lcs.spec_len()
                        == lcp(suffix(pt, sa.spec_sa()[k] as int), x);
                assert(lcs.spec_start() < pt.len());
            }
            let offset = i * self.partition_size;
            let part_len = sa.text().len();

            // if match reaches the end of the partition's text, it may be
            // extended.
            let lcs_start = lcs.start();
            let lcs_len = lcs.len();
            let may_extend = lcs_start + lcs_len == part_len;

            // start was relative to the partition's beginning, make it absolute
            proof {
                assert(lcs_start < part_len);
            }
            let start = lcs_start + offset;
            let ghost sp = suffix(pt, lcs_start as int);
            let ghost st = suffix(t, start as int);
            proof {
                assert(sp =~= st.subrange(0, pt.len() - lcs_start));
                lemma_lcp_of_prefix(st, pt.len() - lcs_start, x);
            }
            let len = if may_extend {
                common_prefix_len(slice_subrange(self.text, start, n), needle)
            } else {
                lcs_len
            };
            proof {
                lemma_lcp_bounds(st, x);
            }
            let cand = LongestCommonSubstring::new(self.text, start, len);

            let replace = match &best {
                None => true,
                Some(prev_lcs) => len > prev_lcs.len(),
            };
            if replace {
                best = Some(cand);
            }
            i = i + 1;
        }
        proof {
            let np = self.sas@.len() as int;
            assert(np >= 1);
            assert(self.spec_parts() == self.sas@);
            lemma_best_part_is_first_longest(t, ps, self.sas@, x, np);
            let bp = best_part(t, ps, self.sas@, x, np);
            assert(0 <= bp < np && forall|i: int|
                0 <= i < bp ==> #[trigger] part_match_len(t, ps, self.sas@, x, i) < part_match_len(
                    t,
                    ps,
                    self.sas@,
                    x,
                    bp,
                ));
        }
        best.unwrap()
    }
}

/// A partitioned suffix array finds no longer match than the suffix array of
/// the whole text: whatever the partitioned search returns is a match of the
/// text, and the full search returns one at least as long as any.
pub proof fn lemma_partitioned_match_not_longer(
    text: Seq<u8>,
    needle: Seq<u8>,
    full: LongestCommonSubstring,
    partitioned: LongestCommonSubstring,
)
    requires
        forall|p: int|
            0 <= p < text.len() ==> #[trigger] lcp(suffix(text, p), needle) <= full.spec_len(),
        0 <= partitioned.spec_start() < text.len(),
        partitioned.spec_len() == lcp(suffix(text, partitioned.spec_start()), needle),
    ensures
        partitioned.spec_len() <= full.spec_len(),
{
    assert(lcp(suffix(text, partitioned.spec_start()), needle) <= full.spec_len());
}

/// With a single part, the partitioned search finds a match as long as the
/// full search does.
pub proof fn lemma_single_partition_same_length(
    text: Seq<u8>,
    needle: Seq<u8>,
    partition_size: int,
    full: LongestCommonSubstring,
    partitioned: LongestCommonSubstring,
)
    requires
        partition_size > text.len(),
        0 <= full.spec_start() < text.len(),
        full.spec_len() == lcp(suffix(text, full.spec_start()), needle),
        forall|p: int|
            0 <= p < text.len() ==> #[trigger] lcp(suffix(text, p), needle) <= full.spec_len(),
        0 <= partitioned.spec_start() < text.len(),
        partitioned.spec_len() == lcp(suffix(text, partitioned.spec_start()), needle),
        forall|i: int, p: int|
            0 <= i < 1 && 0 <= p < part(text, partition_size, i).len() ==> #[trigger] lcp(
                suffix(part(text, partition_size, i), p),
                needle,
            ) <= partitioned.spec_len(),
    ensures
        partitioned.spec_len() == full.spec_len(),
{
    assert(part(text, partition_size, 0) =~= text);
    assert(lcp(suffix(part(text, partition_size, 0), full.spec_start()), needle)
        <= partitioned.spec_len());
    assert(lcp(suffix(text, partitioned.spec_start()), needle) <= full.spec_len());
}

} // verus!
