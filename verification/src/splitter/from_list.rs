//! Sliding windows over slices, borrowed or copied out.

use crate::splitter::utils::{
    bounds, cut, lemma_window_within_length, sliding_windows, window_at, window_count, windows,
};
use vstd::prelude::*;

verus! {

/// What a sequence of borrowed slices holds, slice by slice.
pub open spec fn slice_views<T>(pieces: Seq<&[T]>) -> Seq<Seq<T>> {
    Seq::new(pieces.len(), |k: int| pieces[k]@)
}

/// What a sequence of vectors holds, vector by vector.
pub open spec fn vec_views<T>(pieces: Seq<Vec<T>>) -> Seq<Seq<T>> {
    Seq::new(pieces.len(), |k: int| pieces[k]@)
}

/// `copy` has the length of `source` and holds a clone of each of its items,
/// in the same order.
pub open spec fn is_clone_of<T: Clone>(source: Seq<T>, copy: Seq<T>) -> bool {
    &&& copy.len() == source.len()
    &&& forall|j: int| 0 <= j < source.len() ==> cloned(#[trigger] source[j], copy[j])
}

/// `copies` holds, piece by piece, a clone of `sources`.
pub open spec fn are_clones_of<T: Clone>(sources: Seq<Seq<T>>, copies: Seq<Seq<T>>) -> bool {
    &&& copies.len() == sources.len()
    &&& forall|k: int|
        0 <= k < sources.len() ==> is_clone_of(#[trigger] sources[k], copies[k])
}

/// Splits a slice into the sub-slices that its windows cover: `n` items
/// each, starts `hop(n, step)` apart, and a shorter last one for what is left
/// over if `keep_tail` is set. The sub-slices borrow from `input`.
pub fn slice_by_windows_borrowed<'a, T>(
    input: &'a [T],
    n: usize,
    step: usize,
    keep_tail: bool,
) -> (out: Vec<&'a [T]>)
    ensures
        slice_views(out@) == cut(
            input@,
            windows(input@.len() as int, n as int, step as int, keep_tail),
        ),
        out@.len() == window_count(input@.len() as int, n as int, step as int, keep_tail),
        forall|k: int|
            0 <= k < out@.len() ==> (#[trigger] out@[k])@ == input@.subrange(
                window_at(input@.len() as int, n as int, step as int, k).0,
                window_at(input@.len() as int, n as int, step as int, k).1,
            ),
{
    let len = input.len();
    let ranges = sliding_windows(len, n, step, keep_tail);
    let ghost w = windows(len as int, n as int, step as int, keep_tail);
    assert(ranges@.len() == bounds(ranges@).len());
    let mut out: Vec<&'a [T]> = Vec::new();
    let mut k: usize = 0;
    while k < ranges.len()
        invariant
            len == input@.len(),
            w == windows(len as int, n as int, step as int, keep_tail),
            bounds(ranges@) == w,
            ranges@.len() == w.len(),
            k <= ranges.len(),
            out.len() == k,
            forall|j: int| 0 <= j < k ==> (#[trigger] out[j])@ == input@.subrange(w[j].0, w[j].1),
        decreases ranges.len() - k,
    {
        let start: usize = ranges[k].start;
        let end: usize = ranges[k].end;
        proof {
            assert(bounds(ranges@)[k as int] == w[k as int]);
            lemma_window_within_length(len as int, n as int, step as int, keep_tail, k as int);
        }
        out.push(&input[start..end]);
        k = k + 1;
    }
    assert(slice_views(out@) =~= cut(input@, w));
    assert(input@.len() == len);
    out
}

/// Copies a slice item by item into a vector of its own.
fn clone_items<T: Clone>(piece: &[T]) -> (copy: Vec<T>)
    ensures
        is_clone_of(piece@, copy@),
{
    let mut copy: Vec<T> = Vec::with_capacity(piece.len());
    let mut j: usize = 0;
    while j < piece.len()
        invariant
            j <= piece@.len(),
            copy.len() == j,
            forall|i: int| 0 <= i < j ==> cloned(#[trigger] piece@[i], copy[i]),
        decreases piece@.len() - j,
    {
        copy.push(piece[j].clone());
        j = j + 1;
    }
    copy
}

/// A slice together with the window parameters by which it is to be split.
pub struct SliceSplitter<'a, T> {
    input: &'a [T],
    n: usize,
    step: usize,
    keep_tail: bool,
}

impl<'a, T> SliceSplitter<'a, T> {
    /// The items of the slice that is split.
    pub closed spec fn items(&self) -> Seq<T> {
        self.input@
    }

    /// The number of items in a full window.
    pub closed spec fn window_size(&self) -> int {
        self.n as int
    }

    /// The step between window starts as it was given; zero stands for the
    /// window size.
    pub closed spec fn step(&self) -> int {
        self.step as int
    }

    /// Whether left-over items form a last, shorter window.
    pub closed spec fn keeps_tail(&self) -> bool {
        self.keep_tail
    }

    /// The pieces that this splitter cuts out of its slice.
    pub open spec fn pieces(&self) -> Seq<Seq<T>> {
        cut(
            self.items(),
            windows(self.items().len() as int, self.window_size(), self.step(), self.keeps_tail()),
        )
    }

    /// A splitter over `input` with the given window parameters.
    pub fn new(input: &'a [T], n: usize, step: usize, keep_tail: bool) -> (splitter: Self)
        ensures
            splitter.items() == input@,
            splitter.window_size() == n,
            splitter.step() == step,
            splitter.keeps_tail() == keep_tail,
    {
        Self { input, n, step, keep_tail }
    }

    /// The windows as sub-slices that borrow from the slice.
    pub fn split(&self) -> (out: Vec<&'a [T]>)
        ensures
            slice_views(out@) == self.pieces(),
    {
        slice_by_windows_borrowed(self.input, self.n, self.step, self.keep_tail)
    }

    /// The windows as vectors of their own, each item cloned.
    pub fn out(&self) -> (out: Vec<Vec<T>>) where T: Clone
        ensures
            are_clones_of(self.pieces(), vec_views(out@)),
    {
        let borrowed = self.split();
        let ghost pieces = self.pieces();
        assert(borrowed@.len() == slice_views(borrowed@).len());
        let mut out: Vec<Vec<T>> = Vec::with_capacity(borrowed.len());
        let mut k: usize = 0;
        while k < borrowed.len()
            invariant
                slice_views(borrowed@) == pieces,
                borrowed@.len() == pieces.len(),
                k <= borrowed.len(),
                out.len() == k,
                forall|j: int| 0 <= j < k ==> is_clone_of(#[trigger] pieces[j], out[j]@),
            decreases borrowed.len() - k,
        {
            assert(slice_views(borrowed@)[k as int] == pieces[k as int]);
            let copy = clone_items(borrowed[k]);
            out.push(copy);
            k = k + 1;
        }
        out
    }
}

} // verus!
