//! Splitting a text into its words.
//!
//! A word is a longest run of characters none of which is white space. The
//! words of a text are its runs from left to right; white space between
//! them, before the first and behind the last is dropped, so no word is
//! empty.
//!
//! Where the words lie depends only on which characters are white space, so
//! the runs are found on a sequence of flags, one per character.

use crate::splitter::from_char::{bulk_to_owned_into, char_offsets, cut_at_chars, string_views};
use crate::splitter::utils::{bounds, cut};
use std::ops::Range;
use vstd::prelude::*;
use vstd::std_specs::iter::IteratorSpec;
use vstd::string::*;

verus! {

/// Whether `c` is white space, as `char::is_whitespace` tells it.
pub uninterp spec fn white_space(c: char) -> bool;

/// Calls `char::is_whitespace`. Which characters are white space is left to
/// that function: the contract only gives its answer the name `white_space`.
#[verifier::external_body]
fn is_white_space(c: char) -> (b: bool)
    ensures
        b == white_space(c),
{
    c.is_whitespace()
}

/// For each character of `s`, whether it is white space.
pub open spec fn space_flags(s: Seq<char>) -> Seq<bool> {
    Seq::new(s.len(), |k: int| white_space(s[k]))
}

/// Where the run of unset flags that begins at `i` ends: the first position
/// from `i` on that holds a set flag, or the length if there is none.
pub open spec fn run_end(space: Seq<bool>, i: int) -> int
    decreases space.len() - i,
{
    if i < 0 || i >= space.len() || space[i] {
        i
    } else {
        run_end(space, i + 1)
    }
}

/// The longest runs of unset flags from position `i` on, from left to right,
/// each as `(start, end)`, half-open.
pub open spec fn word_spans(space: Seq<bool>, i: int) -> Seq<(int, int)>
    decreases space.len() - i,
    via word_spans_decreases
{
    if i < 0 || i >= space.len() {
        Seq::empty()
    } else if space[i] {
        word_spans(space, i + 1)
    } else {
        seq![(i, run_end(space, i))] + word_spans(space, run_end(space, i))
    }
}

#[via_fn]
proof fn word_spans_decreases(space: Seq<bool>, i: int) {
    if 0 <= i < space.len() && !space[i] {
        lemma_run_end(space, i);
    }
}

/// The words of `s`, from left to right.
pub open spec fn words(s: Seq<char>) -> Seq<Seq<char>> {
    cut(s, word_spans(space_flags(s), 0))
}

/// The run that begins at an unset flag is not empty, lies inside the
/// sequence, holds unset flags only, and ends at a set flag or at the end
/// of the sequence.
pub proof fn lemma_run_end(space: Seq<bool>, i: int)
    requires
        0 <= i < space.len(),
        !space[i],
    ensures
        i < run_end(space, i) <= space.len(),
        forall|j: int| i <= j < run_end(space, i) ==> !#[trigger] space[j],
        run_end(space, i) == space.len() || space[run_end(space, i)],
    decreases space.len() - i,
{
    assert(run_end(space, i) == run_end(space, i + 1));
    if i + 1 < space.len() && !space[i + 1] {
        lemma_run_end(space, i + 1);
    } else {
        assert(run_end(space, i + 1) == i + 1);
    }
}

/// A stretch of unset flags from `a` up to `k` that is followed by a set
/// flag, or by the end of the sequence, is the whole run that begins at `a`.
proof fn lemma_run_end_is(space: Seq<bool>, a: int, k: int)
    requires
        0 <= a <= k <= space.len(),
        forall|j: int| a <= j < k ==> !#[trigger] space[j],
        k == space.len() || space[k],
    ensures
        run_end(space, a) == k,
    decreases k - a,
{
    if a < k {
        lemma_run_end_is(space, a + 1, k);
    }
}

/// Every span is a longest run of unset flags: it is not empty, it lies
/// inside the sequence, it holds no set flag, and it cannot be made longer
/// at either end. Spans follow each other from left to right, with at least
/// one set flag between two of them.
pub proof fn lemma_word_spans(space: Seq<bool>, i: int, k: int)
    requires
        0 <= i,
        0 <= k < word_spans(space, i).len(),
    ensures
        i <= word_spans(space, i)[k].0 < word_spans(space, i)[k].1 <= space.len(),
        forall|j: int|
            word_spans(space, i)[k].0 <= j < word_spans(space, i)[k].1 ==> !#[trigger] space[j],
        word_spans(space, i)[k].1 == space.len() || space[word_spans(space, i)[k].1],
        word_spans(space, i)[k].0 == i || space[word_spans(space, i)[k].0 - 1],
        k + 1 < word_spans(space, i).len() ==> word_spans(space, i)[k].1 < word_spans(
            space,
            i,
        )[k + 1].0,
    decreases space.len() - i, k,
{
    if i >= space.len() {
    } else if space[i] {
        lemma_word_spans(space, i + 1, k);
    } else {
        lemma_run_end(space, i);
        let e = run_end(space, i);
        if k == 0 {
            if 1 < word_spans(space, i).len() {
                lemma_word_spans(space, e, 0);
            }
        } else {
            lemma_word_spans(space, e, k - 1);
        }
    }
}

/// No word is empty, and no word holds white space.
pub proof fn lemma_words_hold_no_white_space(s: Seq<char>, k: int, j: int)
    requires
        0 <= k < words(s).len(),
        0 <= j < words(s)[k].len(),
    ensures
        words(s)[k].len() > 0,
        !white_space(words(s)[k][j]),
{
    let span = word_spans(space_flags(s), 0)[k];
    lemma_word_spans(space_flags(s), 0, k);
    assert(!space_flags(s)[span.0 + j]);
}

/// Tells for each character of a text whether it is white space.
pub fn white_space_flags(string: &str) -> (space: Vec<bool>)
    ensures
        space@ == space_flags(string@),
{
    broadcast use vstd::string::group_string_axioms;

    let mut space: Vec<bool> = Vec::new();
    let mut it = string.chars();
    proof {
        assert(string@.skip(0) =~= string@);
    }
    loop
        invariant
            space@.len() <= string@.len(),
            it.remaining() == string@.skip(space@.len() as int),
            forall|k: int| 0 <= k < space@.len() ==> #[trigger] space@[k] == white_space(string@[k]),
        ensures
            space@.len() == string@.len(),
            forall|k: int| 0 <= k < space@.len() ==> #[trigger] space@[k] == white_space(string@[k]),
        decreases string@.len() - space@.len(),
    {
        let ghost k = space@.len() as int;
        match it.next() {
            Some(c) => {
                proof {
                    assert(string@.skip(k).len() > 0);
                    assert(c == string@[k]);
                    assert(string@.skip(k).drop_first() =~= string@.skip(k + 1));
                }
                space.push(is_white_space(c));
            },
            None => {
                break ;
            },
        }
    }
    assert(space@ =~= space_flags(string@));
    space
}

/// Finds the longest runs of unset flags, from left to right, as ranges of
/// positions.
pub fn word_ranges(space: &Vec<bool>) -> (out: Vec<Range<usize>>)
    ensures
        bounds(out@) == word_spans(space@, 0),
{
    let mut out: Vec<Range<usize>> = Vec::new();
    let mut i: usize = 0;
    let mut start: usize = 0;
    let mut in_word: bool = false;
    proof {
        assert(bounds(out@) + word_spans(space@, 0) =~= word_spans(space@, 0));
    }
    while i < space.len()
        invariant
            i <= space@.len(),
            in_word ==> start < i,
            !in_word ==> start == i,
            forall|j: int| start <= j < i ==> !#[trigger] space@[j],
            word_spans(space@, 0) == bounds(out@) + word_spans(space@, start as int),
        decreases space@.len() - i,
    {
        if space[i] {
            if in_word {
                let ghost before = bounds(out@);
                proof {
                    lemma_run_end_is(space@, start as int, i as int);
                }
                out.push(start..i);
                proof {
                    assert(bounds(out@) =~= before + seq![(start as int, i as int)]);
                    assert(word_spans(space@, 0) =~= bounds(out@) + word_spans(space@, i as int));
                }
                in_word = false;
            }
            start = i + 1;
        } else {
            in_word = true;
        }
        i = i + 1;
    }
    if in_word {
        let ghost before = bounds(out@);
        proof {
            lemma_run_end_is(space@, start as int, i as int);
        }
        out.push(start..i);
        proof {
            assert(bounds(out@) =~= before + seq![(start as int, i as int)]);
            assert(word_spans(space@, i as int) =~= Seq::<(int, int)>::empty());
            assert(word_spans(space@, 0) =~= bounds(out@));
        }
    } else {
        proof {
            assert(word_spans(space@, 0) =~= bounds(out@));
        }
    }
    out
}

/// Splits a text into its words: the longest runs of characters other than
/// white space, from left to right, each as a string of its own.
pub fn dummy(string: &str) -> (result: Vec<String>)
    ensures
        string_views(result@) == words(string@),
{
    let char_indices = char_offsets(string);
    let space = white_space_flags(string);
    let ranges = word_ranges(&space);
    proof {
        assert(ranges@.len() == bounds(ranges@).len());
        assert forall|k: int| 0 <= k < ranges@.len() implies (#[trigger] ranges@[k]).start
            <= ranges@[k].end <= string@.len() by {
            lemma_word_spans(space@, 0, k);
            assert(bounds(ranges@)[k] == word_spans(space@, 0)[k]);
        }
    }
    let pieces = cut_at_chars(string, &char_indices, &ranges);
    bulk_to_owned_into(pieces)
}

} // verus!
