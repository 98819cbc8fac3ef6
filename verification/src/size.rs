//! Sizes written as a decimal number with an optional binary suffix, as in
//! `512`, `64k` or `2M`.
use vstd::prelude::*;
use vstd::string::StringSliceAdditionalSpecFns;

verus! {

pub open spec fn is_digit(c: u8) -> bool {
    48 <= c <= 57
}

/// The decimal value of the digits `b[lo..hi)`.
pub open spec fn decimal(b: Seq<u8>, lo: int, hi: int) -> int
    decreases hi - lo,
{
    if hi <= lo {
        0
    } else {
        decimal(b, lo, hi - 1) * 10 + (b[hi - 1] - 48)
    }
}

/// `b[lo..hi)` is a nonempty run of decimal digits.
pub open spec fn all_digits(b: Seq<u8>, lo: int, hi: int) -> bool {
    &&& 0 <= lo < hi <= b.len()
    &&& forall|i: int| lo <= i < hi ==> is_digit(#[trigger] b[i])
}

/// The number of bytes at the end of `b[0..end)` that encode a character
/// whose lower case is `k`: `k`, `K` or the Kelvin sign (U+212A).
pub open spec fn k_tail(b: Seq<u8>, end: int) -> int {
    if end >= 1 && (b[end - 1] == 107 || b[end - 1] == 75) {
        1
    } else if end >= 3 && b[end - 3] == 0xE2 && b[end - 2] == 0x84 && b[end - 1] == 0xAA {
        3
    } else {
        0
    }
}

/// The number of bytes at the end of `b[0..end)` that encode `m` or `M`.
pub open spec fn m_tail(b: Seq<u8>, end: int) -> int {
    if end >= 1 && (b[end - 1] == 109 || b[end - 1] == 77) {
        1
    } else {
        0
    }
}

/// Where `b[0..end)` ends once every `k` (in any case) at its end is removed.
pub open spec fn strip_k(b: Seq<u8>, end: int) -> int
    decreases end,
{
    if end > 0 && k_tail(b, end) > 0 {
        strip_k(b, end - k_tail(b, end))
    } else {
        end
    }
}

/// Where `b[0..end)` ends once every `m` (in any case) at its end is removed.
pub open spec fn strip_m(b: Seq<u8>, end: int) -> int
    decreases end,
{
    if end > 0 && m_tail(b, end) > 0 {
        strip_m(b, end - m_tail(b, end))
    } else {
        end
    }
}

/// The unit a size is written in: 1024 after a `k`, 1024 * 1024 after an
/// `m` (in either case), 1 otherwise.
pub open spec fn size_factor(b: Seq<u8>) -> int {
    if k_tail(b, b.len() as int) > 0 {
        1024
    } else if m_tail(b, b.len() as int) > 0 {
        1048576
    } else {
        1
    }
}

/// Where the number ends: before the run of suffix letters.
pub open spec fn number_end(b: Seq<u8>) -> int {
    if k_tail(b, b.len() as int) > 0 {
        strip_k(b, b.len() as int)
    } else if m_tail(b, b.len() as int) > 0 {
        strip_m(b, b.len() as int)
    } else {
        b.len() as int
    }
}

/// Where the number starts: after an optional `+`.
pub open spec fn number_start(b: Seq<u8>) -> int {
    if b.len() > 0 && b[0] == 43 {
        1
    } else {
        0
    }
}

/// `b` spells a size that fits in a `usize`.
pub open spec fn is_size(b: Seq<u8>) -> bool {
    &&& all_digits(b, number_start(b), number_end(b))
    &&& decimal(b, number_start(b), number_end(b)) * size_factor(b) <= usize::MAX
}

/// The size `b` spells.
pub open spec fn size_value(b: Seq<u8>) -> int {
    decimal(b, number_start(b), number_end(b)) * size_factor(b)
}

proof fn lemma_decimal_grows(b: Seq<u8>, lo: int, k: int, hi: int)
    requires
        lo <= k <= hi,
        forall|i: int| lo <= i < hi ==> is_digit(#[trigger] b[i]),
    ensures
        0 <= decimal(b, lo, k) <= decimal(b, lo, hi),
    decreases hi - k,
{
    if k < hi {
        lemma_decimal_grows(b, lo, k, hi - 1);
        assert(is_digit(b[hi - 1]));
    } else {
        lemma_decimal_nonneg(b, lo, hi);
    }
}

proof fn lemma_decimal_nonneg(b: Seq<u8>, lo: int, hi: int)
    requires
        forall|i: int| lo <= i < hi ==> is_digit(#[trigger] b[i]),
    ensures
        0 <= decimal(b, lo, hi),
    decreases hi - lo,
{
    if lo < hi {
        lemma_decimal_nonneg(b, lo, hi - 1);
        assert(is_digit(b[hi - 1]));
    }
}

/// The value of digits depends on those digits alone.
proof fn lemma_decimal_same(b: Seq<u8>, c: Seq<u8>, lo: int, hi: int)
    requires
        forall|i: int| lo <= i < hi ==> #[trigger] b[i] == c[i],
    ensures
        decimal(b, lo, hi) == decimal(c, lo, hi),
    decreases hi - lo,
{
    if lo < hi {
        lemma_decimal_same(b, c, lo, hi - 1);
    }
}

/// A nonempty run of decimal digits `d` spells the size `decimal(d)`;
/// followed by `k` or `K` it spells `decimal(d) * 1024`, and followed by `m`
/// or `M` it spells `decimal(d) * 1048576`, however many digits there are.
/// Each is a size exactly when its value fits in a `usize`.
pub proof fn lemma_size_units(d: Seq<u8>, unit: u8)
    requires
        d.len() >= 1,
        forall|i: int| 0 <= i < d.len() ==> is_digit(#[trigger] d[i]),
    ensures
        is_size(d) <==> decimal(d, 0, d.len() as int) <= usize::MAX,
        size_value(d) == decimal(d, 0, d.len() as int),
        unit == 107 || unit == 75 ==> (is_size(d.push(unit)) <==> decimal(d, 0, d.len() as int)
            * 1024 <= usize::MAX) && size_value(d.push(unit)) == decimal(d, 0, d.len() as int)
            * 1024,
        unit == 109 || unit == 77 ==> (is_size(d.push(unit)) <==> decimal(d, 0, d.len() as int)
            * 1048576 <= usize::MAX) && size_value(d.push(unit)) == decimal(d, 0, d.len() as int)
            * 1048576,
{
    let n = d.len() as int;
    let s = d.push(unit);
    assert(is_digit(d[0]) && is_digit(d[n - 1]));
    assert(k_tail(d, n) == 0);
    assert(m_tail(d, n) == 0);
    assert(number_end(d) == n);
    assert(number_start(d) == 0);
    assert(size_factor(d) == 1);
    assert(all_digits(d, 0, n));
    assert(s[n] == unit);
    assert(s[n - 1] == d[n - 1]);
    assert(s[0] == d[0]);
    assert forall|i: int| 0 <= i < n implies #[trigger] s[i] == d[i] by {}
    lemma_decimal_same(s, d, 0, n);
    if unit == 107 || unit == 75 {
        assert(k_tail(s, n + 1) == 1);
        assert(k_tail(s, n) == 0);
        assert(strip_k(s, n) == n);
        assert(strip_k(s, n + 1) == n);
        assert(number_end(s) == n);
        assert(number_start(s) == 0);
        assert(size_factor(s) == 1024);
        assert(all_digits(s, 0, n) == all_digits(d, 0, n));
    }
    if unit == 109 || unit == 77 {
        assert(k_tail(s, n + 1) == 0);
        assert(m_tail(s, n + 1) == 1);
        assert(m_tail(s, n) == 0);
        assert(strip_m(s, n) == n);
        assert(strip_m(s, n + 1) == n);
        assert(number_end(s) == n);
        assert(number_start(s) == 0);
        assert(size_factor(s) == 1048576);
        assert(all_digits(s, 0, n) == all_digits(d, 0, n));
    }
}

/// Digits shifted one place right keep their value.
proof fn lemma_decimal_shift(b: Seq<u8>, c: Seq<u8>, lo: int, hi: int)
    requires
        forall|i: int| lo <= i < hi ==> #[trigger] c[i + 1] == b[i],
    ensures
        decimal(c, lo + 1, hi + 1) == decimal(b, lo, hi),
    decreases hi - lo,
{
    if lo < hi {
        lemma_decimal_shift(b, c, lo, hi - 1);
    }
}

/// A leading `+` changes nothing: `+` then digits `d`, then `k`, `K`, `m` or
/// `M`, spells the same size as `d` then that letter.
pub proof fn lemma_plus_sign(d: Seq<u8>, unit: u8)
    requires
        d.len() >= 1,
        forall|i: int| 0 <= i < d.len() ==> is_digit(#[trigger] d[i]),
        unit == 107 || unit == 75 || unit == 109 || unit == 77,
    ensures
        is_size(seq![43u8] + d.push(unit)) == is_size(d.push(unit)),
        size_value(seq![43u8] + d.push(unit)) == size_value(d.push(unit)),
        is_size(seq![43u8] + d) == is_size(d),
        size_value(seq![43u8] + d) == size_value(d),
{
    let n = d.len() as int;
    let s = d.push(unit);
    let ps = seq![43u8] + s;
    let pd = seq![43u8] + d;
    assert(ps.len() == n + 2 && pd.len() == n + 1);
    assert(ps[0] == 43 && pd[0] == 43);
    assert forall|i: int| 0 <= i < n implies #[trigger] ps[i + 1] == d[i] by {
        assert(ps[i + 1] == s[i]);
    }
    assert forall|i: int| 0 <= i < n implies #[trigger] pd[i + 1] == d[i] by {}
    assert(ps[n + 1] == unit);
    assert(ps[n] == d[n - 1] && pd[n] == d[n - 1]);
    assert(is_digit(d[n - 1]));
    lemma_decimal_shift(d, ps, 0, n);
    lemma_decimal_shift(d, pd, 0, n);
    lemma_size_units(d, unit);
    lemma_size_units(d, 0);
    assert forall|i: int| 0 <= i < n implies #[trigger] s[i] == d[i] by {}
    lemma_decimal_same(s, d, 0, n);
    // the plain number
    assert(k_tail(pd, n + 1) == 0 && m_tail(pd, n + 1) == 0);
    assert(number_end(pd) == n + 1 && number_start(pd) == 1 && size_factor(pd) == 1);
    assert(all_digits(pd, 1, n + 1) == all_digits(d, 0, n)) by {
        if all_digits(d, 0, n) {
            assert forall|i: int| 1 <= i < n + 1 implies is_digit(#[trigger] pd[i]) by {
                assert(pd[(i - 1) + 1] == d[i - 1]);
            }
        }
    }
    // with its unit
    assert(all_digits(ps, 1, n + 1)) by {
        assert forall|i: int| 1 <= i < n + 1 implies is_digit(#[trigger] ps[i]) by {
            assert(ps[(i - 1) + 1] == d[i - 1]);
        }
    }
    if unit == 107 || unit == 75 {
        assert(k_tail(ps, n + 2) == 1 && k_tail(ps, n + 1) == 0);
        assert(strip_k(ps, n + 1) == n + 1);
        assert(strip_k(ps, n + 2) == n + 1);
        assert(number_end(ps) == n + 1 && number_start(ps) == 1 && size_factor(ps) == 1024);
    } else {
        assert(k_tail(ps, n + 2) == 0 && m_tail(ps, n + 2) == 1 && m_tail(ps, n + 1) == 0);
        assert(strip_m(ps, n + 1) == n + 1);
        assert(strip_m(ps, n + 2) == n + 1);
        assert(number_end(ps) == n + 1 && number_start(ps) == 1 && size_factor(ps) == 1048576);
    }
}

/// What `lemma_size_units` says of `bs` in particular.
spec fn units_hold(bs: Seq<u8>) -> bool {
    let n = bs.len() as int;
    &&& n >= 2 && all_digits(bs, 0, n - 1) && (bs[n - 1] == 109 || bs[n - 1] == 77) ==> (is_size(
        bs,
    ) <==> decimal(bs, 0, n - 1) * 1048576 <= usize::MAX) && size_value(bs) == decimal(
        bs,
        0,
        n - 1,
    ) * 1048576
    &&& n >= 2 && all_digits(bs, 0, n - 1) && (bs[n - 1] == 107 || bs[n - 1] == 75) ==> (is_size(
        bs,
    ) <==> decimal(bs, 0, n - 1) * 1024 <= usize::MAX) && size_value(bs) == decimal(bs, 0, n - 1)
        * 1024
    &&& all_digits(bs, 0, n) ==> (is_size(bs) <==> decimal(bs, 0, n) <= usize::MAX) && size_value(
        bs,
    ) == decimal(bs, 0, n)
}

/// The number of bytes of the `k` at the end of `b[0..end)`.
fn k_tail_len(b: &[u8], end: usize) -> (r: usize)
    requires
        end <= b@.len(),
    ensures
        r == k_tail(b@, end as int),
{
    if end >= 1 && (b[end - 1] == 107 || b[end - 1] == 75) {
        1
    } else if end >= 3 && b[end - 3] == 0xE2 && b[end - 2] == 0x84 && b[end - 1] == 0xAA {
        3
    } else {
        0
    }
}

/// The number of bytes of the `m` at the end of `b[0..end)`.
fn m_tail_len(b: &[u8], end: usize) -> (r: usize)
    requires
        end <= b@.len(),
    ensures
        r == m_tail(b@, end as int),
{
    if end >= 1 && (b[end - 1] == 109 || b[end - 1] == 77) {
        1
    } else {
        0
    }
}

/// Reads a size such as `512`, `64k` or `2M`: a decimal number (with an
/// optional `+`), then optionally `k` for kibibytes or `m` for mebibytes,
/// in either case and possibly repeated. `None` when the text is not such a
/// size or the size does not fit in a `usize`.
pub fn parse_size(input: &str) -> (r: Option<usize>)
    ensures
        r is Some <==> is_size(input.spec_bytes()),
        r matches Some(v) ==> v == size_value(input.spec_bytes()),
        ({
            let bs = input.spec_bytes();
            let n = bs.len() as int;
            n >= 2 && all_digits(bs, 0, n - 1) && (bs[n - 1] == 109 || bs[n - 1] == 77) ==> (r
                is Some <==> decimal(bs, 0, n - 1) * 1048576 <= usize::MAX) && (r matches Some(v)
                ==> v == decimal(bs, 0, n - 1) * 1048576)
        }),
        ({
            let bs = input.spec_bytes();
            let n = bs.len() as int;
            n >= 2 && all_digits(bs, 0, n - 1) && (bs[n - 1] == 107 || bs[n - 1] == 75) ==> (r
                is Some <==> decimal(bs, 0, n - 1) * 1024 <= usize::MAX) && (r matches Some(v)
                ==> v == decimal(bs, 0, n - 1) * 1024)
        }),
        ({
            let bs = input.spec_bytes();
            all_digits(bs, 0, bs.len() as int) ==> (r is Some <==> decimal(bs, 0, bs.len() as int)
                <= usize::MAX) && (r matches Some(v) ==> v == decimal(bs, 0, bs.len() as int))
        }),
{
    let b = input.as_bytes();
    let ghost bs = b@;
    proof {
        let n = bs.len() as int;
        if n >= 2 && all_digits(bs, 0, n - 1) {
            let d = bs.subrange(0, n - 1);
            assert(d.push(bs[n - 1]) =~= bs);
            assert forall|i: int| 0 <= i < d.len() implies is_digit(#[trigger] d[i]) by {
                assert(d[i] == bs[i]);
            }
            assert forall|i: int| 0 <= i < n - 1 implies #[trigger] d[i] == bs[i] by {}
            lemma_decimal_same(d, bs, 0, n - 1);
            lemma_size_units(d, bs[n - 1]);
        }
        if all_digits(bs, 0, n) {
            lemma_size_units(bs, 0);
        }
        assert(units_hold(bs));
    }
    let len = b.len();
    let mut factor: usize = 1;
    let mut end = len;
    if k_tail_len(b, end) > 0 {
        factor = 1024;
        while end > 0 && k_tail_len(b, end) > 0
            invariant
                end <= len,
                len == bs.len(),
                bs == b@,
                strip_k(bs, end as int) == strip_k(bs, len as int),
            decreases end,
        {
            end = end - k_tail_len(b, end);
        }
    } else if m_tail_len(b, end) > 0 {
        factor = 1048576;
        while end > 0 && m_tail_len(b, end) > 0
            invariant
                end <= len,
                len == bs.len(),
                bs == b@,
                strip_m(bs, end as int) == strip_m(bs, len as int),
            decreases end,
        {
            end = end - m_tail_len(b, end);
        }
    }
    assert(end == number_end(bs));
    assert(factor == size_factor(bs));
    let start: usize = if len > 0 && b[0] == 43 {
        1
    } else {
        0
    };
    assert(start == number_start(bs));
    if start >= end {
        return None;
    }
    let mut v: usize = 0;
    let mut i = start;
    while i < end
        invariant
            start <= i <= end,
            end <= len,
            len == bs.len(),
            bs == b@,
            v == decimal(bs, start as int, i as int),
            forall|q: int| start <= q < i ==> is_digit(#[trigger] bs[q]),
            bs == input.spec_bytes(),
            end == number_end(bs),
            start == number_start(bs),
            factor == size_factor(bs),
            factor >= 1,
            units_hold(bs),
        decreases end - i,
    {
        let c = b[i];
        if !(48 <= c && c <= 57) {
            return None;
        }
        let d = (c - 48) as usize;
        if v > (usize::MAX - d) / 10 {
            proof {
                assert forall|q: int| start <= q < i + 1 implies is_digit(#[trigger] bs[q]) by {}
                if all_digits(bs, start as int, end as int) {
                    lemma_decimal_grows(bs, start as int, i + 1, end as int);
                    let w = decimal(bs, start as int, end as int);
                    assert(w * factor >= w) by (nonlinear_arith)
                        requires
                            w >= 0,
                            factor >= 1,
                    ;
                }
            }
            return None;
        }
        v = v * 10 + d;
        i = i + 1;
    }
    proof {
        lemma_decimal_nonneg(bs, start as int, end as int);
    }
    v.checked_mul(factor)
}

} // verus!
