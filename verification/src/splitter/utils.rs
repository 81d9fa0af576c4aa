//! Window arithmetic: which half-open index ranges a sliding window visits.
//!
//! The model is stated over mathematical integers. A run over a sequence of
//! `len` items with window size `n` and step `step` visits the starts
//! `0, hop, 2 * hop, ...` for as long as a whole window still fits, and may
//! close with one shorter tail window that reaches the end of the sequence.

use std::ops::Range;
use vstd::arithmetic::div_mod::{
    lemma_fundamental_div_mod, lemma_fundamental_div_mod_converse, lemma_mod_pos_bound,
};
use vstd::prelude::*;

verus! {

/// Distance between the starts of two consecutive windows. A `step` of zero
/// stands for "one window after the other", that is a hop of `n`.
pub open spec fn hop(n: int, step: int) -> int {
    if step == 0 {
        n
    } else {
        step
    }
}

/// Number of full-size windows. With a hop of zero (`n` and `step` both zero)
/// the cursor could never move, so exactly one empty window at 0 is produced.
pub open spec fn full_count(len: int, n: int, step: int) -> int {
    if n > len {
        0
    } else if hop(n, step) == 0 {
        1
    } else {
        (len - n) / hop(n, step) + 1
    }
}

/// Where the cursor stands once no further full window fits.
pub open spec fn tail_start(len: int, n: int, step: int) -> int {
    full_count(len, n, step) * hop(n, step)
}

/// Whether a shorter closing window `[tail_start, len)` is produced.
pub open spec fn has_tail(len: int, n: int, step: int, keep_tail: bool) -> bool {
    keep_tail && hop(n, step) > 0 && tail_start(len, n, step) < len
}

/// Total number of windows, the tail included.
pub open spec fn window_count(len: int, n: int, step: int, keep_tail: bool) -> int {
    full_count(len, n, step) + if has_tail(len, n, step, keep_tail) {
        1int
    } else {
        0int
    }
}

/// The `k`-th window as `(start, end)`, half-open.
pub open spec fn window_at(len: int, n: int, step: int, k: int) -> (int, int) {
    if k < full_count(len, n, step) {
        (k * hop(n, step), k * hop(n, step) + n)
    } else {
        (tail_start(len, n, step), len)
    }
}

/// All windows, in the order in which they are produced.
pub open spec fn windows(len: int, n: int, step: int, keep_tail: bool) -> Seq<(int, int)> {
    Seq::new(window_count(len, n, step, keep_tail) as nat, |k: int| window_at(len, n, step, k))
}

/// The bounds of a sequence of ranges as pairs of integers.
pub open spec fn bounds(ranges: Seq<Range<usize>>) -> Seq<(int, int)> {
    Seq::new(ranges.len(), |k: int| (ranges[k].start as int, ranges[k].end as int))
}

/// The pieces that a sequence of windows cuts out of `s`.
pub open spec fn cut<A>(s: Seq<A>, w: Seq<(int, int)>) -> Seq<Seq<A>> {
    Seq::new(w.len(), |k: int| s.subrange(w[k].0, w[k].1))
}

/// All pieces joined end to end.
pub open spec fn joined<A>(pieces: Seq<Seq<A>>) -> Seq<A>
    decreases pieces.len(),
{
    if pieces.len() == 0 {
        Seq::empty()
    } else {
        joined(pieces.drop_last()) + pieces.last()
    }
}

proof fn lemma_mul_succ(k: int, h: int)
    ensures
        (k + 1) * h == k * h + h,
{
    assert((k + 1) * h == k * h + h) by (nonlinear_arith);
}

proof fn lemma_mul_le(j: int, k: int, h: int)
    requires
        j <= k,
        0 <= h,
    ensures
        j * h <= k * h,
{
    assert(j * h <= k * h) by (nonlinear_arith)
        requires
            j <= k,
            0 <= h,
    ;
}

/// With a positive hop, `full_count` is the one number `m` with
/// `(m - 1) * hop + n <= len < m * hop + n`.
proof fn lemma_full_count_is(len: int, n: int, step: int, m: int)
    requires
        0 <= n <= len,
        0 <= step,
        hop(n, step) > 0,
        (m - 1) * hop(n, step) + n <= len,
        len < m * hop(n, step) + n,
    ensures
        full_count(len, n, step) == m,
{
    let h = hop(n, step);
    lemma_mul_succ(m - 1, h);
    let r = len - n - (m - 1) * h;
    lemma_fundamental_div_mod_converse(len - n, h, m - 1, r);
}

/// With a positive hop, the full-size windows are exactly those of the starts
/// `0, hop, 2 * hop, ...` at which a whole window still fits: start number
/// `k` is visited if and only if `k * hop + n <= len`.
pub proof fn lemma_full_window_iff_fits(len: int, n: int, step: int, k: int)
    requires
        0 <= len,
        0 <= n,
        0 <= step,
        hop(n, step) > 0,
        0 <= k,
    ensures
        k < full_count(len, n, step) <==> k * hop(n, step) + n <= len,
{
    let h = hop(n, step);
    lemma_mul_le(0, k, h);
    if n <= len {
        let d = len - n;
        let q = d / h;
        lemma_fundamental_div_mod(d, h);
        lemma_mod_pos_bound(d, h);
        assert(h * q == q * h) by (nonlinear_arith);
        if k <= q {
            lemma_mul_le(k, q, h);
        } else {
            lemma_mul_le(q + 1, k, h);
            lemma_mul_succ(q, h);
        }
    }
}

/// Every window lies inside the sequence: `0 <= start <= end <= len`.
pub proof fn lemma_window_within_length(len: int, n: int, step: int, keep_tail: bool, k: int)
    requires
        0 <= len,
        0 <= n,
        0 <= step,
        0 <= k < window_count(len, n, step, keep_tail),
    ensures
        0 <= window_at(len, n, step, k).0 <= window_at(len, n, step, k).1 <= len,
{
    let h = hop(n, step);
    lemma_mul_le(0, k, h);
    lemma_mul_le(0, full_count(len, n, step), h);
    if k < full_count(len, n, step) {
        if h > 0 {
            lemma_full_window_iff_fits(len, n, step, k);
        } else {
            assert(k * h == 0) by (nonlinear_arith)
                requires
                    h == 0,
            ;
        }
    }
}

/// Starts strictly increase from one window to the next: no two windows
/// begin at the same place.
pub proof fn lemma_starts_strictly_increase(
    len: int,
    n: int,
    step: int,
    keep_tail: bool,
    j: int,
    k: int,
)
    requires
        0 <= len,
        0 <= n,
        0 <= step,
        0 <= j < k < window_count(len, n, step, keep_tail),
    ensures
        window_at(len, n, step, j).0 < window_at(len, n, step, k).0,
{
    let h = hop(n, step);
    let m = full_count(len, n, step);
    assert(h > 0);
    lemma_mul_succ(j, h);
    if k < m {
        lemma_mul_le(j + 1, k, h);
    } else {
        lemma_mul_le(j + 1, m, h);
    }
}

/// Every window but the tail holds exactly `n` items. The tail, where there
/// is one, is the last window; it is not empty, it is shorter than `n`, and
/// it ends where the sequence ends.
pub proof fn lemma_window_sizes(len: int, n: int, step: int, keep_tail: bool, k: int)
    requires
        0 <= len,
        0 <= n,
        0 <= step,
        0 <= k < window_count(len, n, step, keep_tail),
    ensures
        k < full_count(len, n, step) ==> window_at(len, n, step, k).1 - window_at(
            len,
            n,
            step,
            k,
        ).0 == n,
        k >= full_count(len, n, step) ==> {
            &&& keep_tail
            &&& k == window_count(len, n, step, keep_tail) - 1
            &&& window_at(len, n, step, k).1 == len
            &&& 0 < len - window_at(len, n, step, k).0 < n
        },
{
    if k >= full_count(len, n, step) {
        let m = full_count(len, n, step);
        lemma_mul_le(0, m, hop(n, step));
        lemma_full_window_iff_fits(len, n, step, m);
    }
}

/// With a window size of zero every window is empty, and there is no tail.
pub proof fn lemma_zero_size_windows_are_empty(len: int, step: int, keep_tail: bool, k: int)
    requires
        0 <= len,
        0 <= step,
        0 <= k < window_count(len, 0, step, keep_tail),
    ensures
        window_at(len, 0, step, k).0 == window_at(len, 0, step, k).1,
        window_count(len, 0, step, keep_tail) == full_count(len, 0, step),
{
    if hop(0, step) > 0 {
        lemma_full_window_iff_fits(len, 0, step, full_count(len, 0, step));
    }
}

/// A window larger than the sequence never fits: nothing is produced, or,
/// with `keep_tail` on a sequence that is not empty, the whole sequence as
/// one tail. In particular an empty sequence yields no window of positive
/// size.
pub proof fn lemma_oversized_window(len: int, n: int, step: int, keep_tail: bool)
    requires
        0 <= len < n,
        0 <= step,
    ensures
        windows(len, n, step, keep_tail) == if keep_tail && len > 0 {
            seq![(0int, len)]
        } else {
            Seq::<(int, int)>::empty()
        },
{
    assert(0 * hop(n, step) == 0) by (nonlinear_arith);
    assert(windows(len, n, step, keep_tail) =~= if keep_tail && len > 0 {
        seq![(0int, len)]
    } else {
        Seq::<(int, int)>::empty()
    });
}

/// The windows depend on the four parameters alone: two runs with the same
/// parameters produce the same ranges in the same order.
pub proof fn lemma_same_parameters_same_ranges(
    a: Seq<Range<usize>>,
    b: Seq<Range<usize>>,
    len: int,
    n: int,
    step: int,
    keep_tail: bool,
)
    requires
        bounds(a) == windows(len, n, step, keep_tail),
        bounds(b) == windows(len, n, step, keep_tail),
    ensures
        a == b,
{
    assert(a.len() == bounds(a).len());
    assert(b.len() == bounds(b).len());
    assert forall|k: int| 0 <= k < a.len() implies a[k] == b[k] by {
        assert(bounds(a)[k] == bounds(b)[k]);
    }
    assert(a =~= b);
}

proof fn lemma_joined_prefix<A>(s: Seq<A>, n: int, step: int, j: int)
    requires
        0 <= n,
        0 <= step,
        hop(n, step) == n,
        0 <= j <= full_count(s.len() as int, n, step),
    ensures
        0 <= j * n <= s.len(),
        joined(cut(s, windows(s.len() as int, n, step, false)).take(j)) == s.subrange(0, j * n),
    decreases j,
{
    let len = s.len() as int;
    let w = windows(len, n, step, false);
    let pieces = cut(s, w);
    if j == 0 {
        assert(0 * n == 0) by (nonlinear_arith);
        assert(joined(pieces.take(0)) =~= s.subrange(0, 0));
    } else {
        lemma_joined_prefix(s, n, step, j - 1);
        lemma_mul_succ(j - 1, n);
        lemma_window_within_length(len, n, step, false, j - 1);
        assert(pieces.take(j).drop_last() =~= pieces.take(j - 1));
        assert(pieces.take(j).last() == s.subrange((j - 1) * n, j * n));
        assert(joined(pieces.take(j)) =~= s.subrange(0, j * n));
    }
}

/// Windows that follow one another without overlap and without a tail,
/// joined end to end, give back the front of the sequence: its first
/// `k * n` items, where `k` is the number of windows.
pub proof fn lemma_joined_windows_rebuild_front<A>(s: Seq<A>, n: int, step: int)
    requires
        0 <= n,
        0 <= step,
        hop(n, step) == n,
    ensures
        0 <= windows(s.len() as int, n, step, false).len() * n <= s.len(),
        joined(cut(s, windows(s.len() as int, n, step, false))) == s.subrange(
            0,
            windows(s.len() as int, n, step, false).len() * n,
        ),
{
    let pieces = cut(s, windows(s.len() as int, n, step, false));
    lemma_joined_prefix(s, n, step, full_count(s.len() as int, n, step));
    assert(pieces.take(pieces.len() as int) =~= pieces);
}

/// Produces the windows of a sequence of `len` items: ranges of `n` items
/// whose starts lie `hop(n, step)` apart, for as long as a whole window
/// fits, and, if `keep_tail` is set and items are left over behind the last
/// start visited, one shorter range that runs to `len`.
///
/// With `n` and `step` both zero the hop is zero and the cursor could never
/// advance: exactly one empty range at 0 is produced. The arithmetic is that
/// of the mathematical integers: a start that would lie beyond `usize::MAX`
/// lies beyond `len` and is not visited.
pub fn sliding_windows(len: usize, n: usize, step: usize, keep_tail: bool) -> (out: Vec<Range<usize>>)
    ensures
        bounds(out@) == windows(len as int, n as int, step as int, keep_tail),
        out@.len() == window_count(len as int, n as int, step as int, keep_tail),
        forall|k: int|
            0 <= k < out@.len() ==> (#[trigger] out@[k]).start == window_at(
                len as int,
                n as int,
                step as int,
                k,
            ).0 && out@[k].end == window_at(len as int, n as int, step as int, k).1,
{
    let stride: usize = if step == 0 {
        n
    } else {
        step
    };
    let mut out: Vec<Range<usize>> = Vec::new();
    let mut i: usize = 0;
    let mut fits: bool = n <= len;
    while fits
        invariant
            stride as int == hop(n as int, step as int),
            n > len ==> !fits && out.len() == 0 && i == 0,
            fits ==> i + n <= len && i == out.len() * stride,
            fits && stride == 0 ==> out.len() == 0,
            n <= len && !fits ==> out.len() == full_count(len as int, n as int, step as int) && i
                + n <= len && i == (out.len() - 1) * stride,
            forall|k: int|
                0 <= k < out.len() ==> (#[trigger] out[k]).start == k * stride && out[k].end == k
                    * stride + n,
        decreases
            (if fits {
                len - i + 1
            } else {
                0
            }),
    {
        out.push(i..i + n);
        proof {
            lemma_mul_succ(out.len() - 1, stride as int);
        }
        if stride != 0 && stride <= len - n - i {
            i = i + stride;
        } else {
            fits = false;
            proof {
                if stride != 0 {
                    lemma_full_count_is(len as int, n as int, step as int, out.len() as int);
                } else {
                    assert((out.len() - 1) * stride == 0) by (nonlinear_arith)
                        requires
                            stride == 0,
                    ;
                }
            }
        }
    }
    proof {
        if n <= len {
            lemma_mul_succ(out.len() - 1, stride as int);
        }
    }
    if keep_tail && stride != 0 {
        if n > len {
            if 0 < len {
                out.push(0..len);
            }
        } else if stride < len - i {
            out.push(i + stride..len);
        }
    }
    assert(bounds(out@) =~= windows(len as int, n as int, step as int, keep_tail));
    assert forall|k: int| 0 <= k < out@.len() implies (#[trigger] out@[k]).start == window_at(
        len as int,
        n as int,
        step as int,
        k,
    ).0 && out@[k].end == window_at(len as int, n as int, step as int, k).1 by {
        assert(bounds(out@)[k] == windows(len as int, n as int, step as int, keep_tail)[k]);
    }
    out
}

} // verus!
