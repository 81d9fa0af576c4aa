//! Sliding windows over UTF-8 text, counted in characters.
//!
//! A window of characters is found in the text through a table that holds,
//! for each character, the byte offset at which its encoding begins. Cutting
//! the text at such offsets never splits the encoding of a character.

use crate::splitter::utils::{
    bounds, cut, lemma_window_within_length, sliding_windows, window_at, window_count, windows,
};
use std::ops::Range;
use vstd::prelude::*;
use vstd::std_specs::iter::IteratorSpec;
use vstd::string::*;
use vstd::utf8::*;

verus! {

/// The byte offset at which character number `k` of `s` begins in the UTF-8
/// encoding of `s`: the length of the encoding of the `k` characters before
/// it. For `k == s.len()` this is the length of the whole encoding.
pub open spec fn byte_offset(s: Seq<char>, k: int) -> int {
    encode_utf8(s.take(k)).len() as int
}

/// What a sequence of borrowed strings holds, string by string.
pub open spec fn str_views(pieces: Seq<&str>) -> Seq<Seq<char>> {
    Seq::new(pieces.len(), |k: int| pieces[k]@)
}

/// What a sequence of owned strings holds, string by string.
pub open spec fn string_views(pieces: Seq<String>) -> Seq<Seq<char>> {
    Seq::new(pieces.len(), |k: int| pieces[k]@)
}

/// The encoding of two sequences of characters, one after the other, is the
/// encoding of the first followed by the encoding of the second.
pub proof fn lemma_encode_concat(a: Seq<char>, b: Seq<char>)
    ensures
        encode_utf8(a + b) == encode_utf8(a) + encode_utf8(b),
    decreases a.len(),
{
    if a.len() == 0 {
        assert(a + b =~= b);
        assert(encode_utf8(a) + encode_utf8(b) =~= encode_utf8(b));
    } else {
        lemma_encode_concat(a.drop_first(), b);
        assert((a + b).drop_first() =~= a.drop_first() + b);
        assert(encode_utf8(a + b) =~= encode_utf8(a) + encode_utf8(b));
    }
}

/// The encoding of the characters from `i` up to `j` lies in the encoding of
/// the whole text between the byte offsets of `i` and `j`.
pub proof fn lemma_encode_subrange(s: Seq<char>, i: int, j: int)
    requires
        0 <= i <= j <= s.len(),
    ensures
        0 <= byte_offset(s, i) <= byte_offset(s, j) <= encode_utf8(s).len(),
        encode_utf8(s).subrange(byte_offset(s, i), byte_offset(s, j)) == encode_utf8(
            s.subrange(i, j),
        ),
{
    let pre = s.take(i);
    let mid = s.subrange(i, j);
    let post = s.skip(j);
    assert(s.take(j) =~= pre + mid);
    assert(s =~= s.take(j) + post);
    lemma_encode_concat(pre, mid);
    lemma_encode_concat(s.take(j), post);
    assert(encode_utf8(s).subrange(byte_offset(s, i), byte_offset(s, j)) =~= encode_utf8(mid));
}

/// The byte offset of a character is a character boundary of the encoding.
pub proof fn lemma_offset_is_boundary(s: Seq<char>, k: int)
    requires
        0 <= k <= s.len(),
    ensures
        is_char_boundary(encode_utf8(s), byte_offset(s, k)),
    decreases k,
{
    encode_utf8_valid_utf8(s);
    if k == 0 {
        assert(s.take(0) =~= Seq::<char>::empty());
    } else {
        let rest = s.drop_first();
        lemma_offset_is_boundary(rest, k - 1);
        lemma_encode_subrange(s, 0, k);
        encode_utf8_first_scalar(s);
        char_is_scalar(s[0]);
        assert(s.take(k).drop_first() =~= rest.take(k - 1));
        assert(s.take(k)[0] == s[0]);
        assert(pop_first_scalar(encode_utf8(s)) =~= encode_utf8(rest));
        assert(byte_offset(s, k) == encode_scalar(s[0] as u32).len() + byte_offset(rest, k - 1));
    }
}

/// The byte offset of the character behind character number `k` lies
/// behind that of `k` by the width of `k`'s encoding, and inside the text.
pub proof fn lemma_offset_step(s: Seq<char>, k: int)
    requires
        0 <= k < s.len(),
    ensures
        byte_offset(s, k + 1) == byte_offset(s, k) + encode_scalar(s[k] as u32).len(),
        byte_offset(s, k + 1) <= encode_utf8(s).len(),
{
    let c = s[k];
    assert(s.take(k + 1) =~= s.take(k) + seq![c]);
    lemma_encode_concat(s.take(k), seq![c]);
    assert(seq![c].drop_first() =~= Seq::<char>::empty());
    assert(encode_utf8(seq![c]) =~= encode_scalar(c as u32)) by {
        reveal_with_fuel(encode_utf8, 2);
    }
    lemma_encode_subrange(s, 0, k + 1);
}

/// The number of bytes in the UTF-8 encoding of `c`.
pub fn utf8_width(c: char) -> (w: usize)
    ensures
        w == encode_scalar(c as u32).len(),
        1 <= w <= 4,
{
    proof {
        char_is_scalar(c);
    }
    let v: u32 = c as u32;
    if v < 0x80 {
        1
    } else if v < 0x800 {
        2
    } else if v < 0x10000 {
        3
    } else {
        4
    }
}

/// Builds the character table of a text: one entry per character, holding
/// the byte offset at which that character begins.
pub fn char_offsets(input: &str) -> (table: Vec<usize>)
    ensures
        is_char_table(input@, table@),
{
    broadcast use {vstd::string::group_string_axioms, vstd::slice::group_slice_axioms};

    let total: usize = input.as_bytes().len();
    let mut table: Vec<usize> = Vec::new();
    let mut pos: usize = 0;
    let mut it = input.chars();
    proof {
        assert(input@.take(0) =~= Seq::<char>::empty());
        assert(input@.skip(0) =~= input@);
    }
    loop
        invariant
            total == encode_utf8(input@).len(),
            table@.len() <= input@.len(),
            it.remaining() == input@.skip(table@.len() as int),
            pos == byte_offset(input@, table@.len() as int),
            forall|k: int|
                0 <= k < table@.len() ==> #[trigger] table@[k] == byte_offset(input@, k),
        ensures
            table@.len() == input@.len(),
            forall|k: int|
                0 <= k < table@.len() ==> #[trigger] table@[k] == byte_offset(input@, k),
        decreases input@.len() - table@.len(),
    {
        let ghost k = table@.len() as int;
        match it.next() {
            Some(c) => {
                proof {
                    assert(input@.skip(k).len() > 0);
                    assert(c == input@[k]);
                    assert(input@.skip(k).drop_first() =~= input@.skip(k + 1));
                    lemma_offset_step(input@, k);
                }
                let w = utf8_width(c);
                table.push(pos);
                pos = pos + w;
            },
            None => {
                break ;
            },
        }
    }
    table
}

/// Whether `table` is the character table of the text `s`: one entry per
/// character, holding the byte offset at which that character begins.
pub open spec fn is_char_table(s: Seq<char>, table: Seq<usize>) -> bool {
    &&& table.len() == s.len()
    &&& forall|k: int| 0 <= k < table.len() ==> #[trigger] table[k] == byte_offset(s, k)
}

/// Cuts the given ranges of characters out of a text by way of its
/// character table: for each range, in order, the sub-string that holds the
/// characters from `start` up to `end`. A range that ends behind the last
/// character ends with the text. Each sub-string borrows from `input` and
/// holds whole characters only.
pub(crate) fn cut_at_chars<'a>(
    input: &'a str,
    char_indices: &Vec<usize>,
    ranges: &Vec<Range<usize>>,
) -> (out: Vec<&'a str>)
    requires
        is_char_table(input@, char_indices@),
        forall|k: int|
            0 <= k < ranges@.len() ==> (#[trigger] ranges@[k]).start <= ranges@[k].end
                <= input@.len(),
    ensures
        str_views(out@) == cut(input@, bounds(ranges@)),
{
    broadcast use vstd::slice::group_slice_axioms;

    let num_chars = char_indices.len();
    let total: usize = input.as_bytes().len();
    let mut out: Vec<&'a str> = Vec::new();
    let mut k: usize = 0;
    while k < ranges.len()
        invariant
            num_chars == input@.len(),
            num_chars == char_indices@.len(),
            total == encode_utf8(input@).len(),
            forall|c: int|
                0 <= c < char_indices@.len() ==> #[trigger] char_indices@[c] == byte_offset(
                    input@,
                    c,
                ),
            forall|j: int|
                0 <= j < ranges@.len() ==> (#[trigger] ranges@[j]).start <= ranges@[j].end
                    <= input@.len(),
            k <= ranges.len(),
            out.len() == k,
            forall|j: int|
                0 <= j < k ==> (#[trigger] out[j])@ == input@.subrange(
                    ranges@[j].start as int,
                    ranges@[j].end as int,
                ),
        decreases ranges.len() - k,
    {
        let start: usize = ranges[k].start;
        let end: usize = ranges[k].end;
        proof {
            assert(input@.take(num_chars as int) =~= input@);
        }
        let byte_start: usize = if start < num_chars {
            char_indices[start]
        } else {
            total
        };
        let byte_end: usize = if end < num_chars {
            char_indices[end]
        } else {
            total
        };
        let piece = between(input, byte_start, byte_end, Ghost(start as int), Ghost(end as int));
        out.push(piece);
        k = k + 1;
    }
    assert(str_views(out@) =~= cut(input@, bounds(ranges@)));
    out
}

/// Splits a text into the sub-strings that its windows cover, the windows
/// being counted in characters: `n` characters each, starts `hop(n, step)`
/// characters apart, and a shorter last one for what is left over if
/// `keep_tail` is set. Each sub-string borrows from `input` and holds whole
/// characters only.
pub fn utf8_by_chars_borrowed<'a>(
    input: &'a str,
    n: usize,
    step: usize,
    keep_tail: bool,
) -> (out: Vec<&'a str>)
    ensures
        str_views(out@) == cut(
            input@,
            windows(input@.len() as int, n as int, step as int, keep_tail),
        ),
        out@.len() == window_count(input@.len() as int, n as int, step as int, keep_tail),
        forall|k: int|
            0 <= k < out@.len() ==> (#[trigger] out@[k])@ == input@.subrange(
                window_at(input@.len() as int, n as int, step as int, k).0,
                window_at(input@.len() as int, n as int, step as int, k).1,
            ),
{
    let char_indices = char_offsets(input);
    let num_chars = char_indices.len();
    let ranges = sliding_windows(num_chars, n, step, keep_tail);
    let ghost w = windows(num_chars as int, n as int, step as int, keep_tail);
    proof {
        assert forall|k: int| 0 <= k < ranges@.len() implies (#[trigger] ranges@[k]).start
            <= ranges@[k].end <= input@.len() by {
            lemma_window_within_length(num_chars as int, n as int, step as int, keep_tail, k);
        }
    }
    let out = cut_at_chars(input, &char_indices, &ranges);
    proof {
        assert(out@.len() == str_views(out@).len());
        assert forall|k: int| 0 <= k < out@.len() implies (#[trigger] out@[k])@
            == input@.subrange(
            window_at(input@.len() as int, n as int, step as int, k).0,
            window_at(input@.len() as int, n as int, step as int, k).1,
        ) by {
            assert(str_views(out@)[k] == cut(input@, w)[k]);
        }
    }
    out
}

/// The part of a text between two byte offsets that are the offsets of its
/// characters number `i` and `j`: the characters from `i` up to `j`.
fn between<'a>(
    input: &'a str,
    byte_start: usize,
    byte_end: usize,
    Ghost(i): Ghost<int>,
    Ghost(j): Ghost<int>,
) -> (piece: &'a str)
    requires
        0 <= i <= j <= input@.len(),
        byte_start == byte_offset(input@, i),
        byte_end == byte_offset(input@, j),
    ensures
        piece@ == input@.subrange(i, j),
{
    let ghost s = input@;
    let ghost front = s.take(j);
    proof {
        lemma_offset_is_boundary(s, j);
        lemma_encode_subrange(s, 0, j);
        assert(s.take(0) =~= Seq::<char>::empty());
        assert(s.subrange(0, j) =~= front);
    }
    let (head, _) = input.split_at(byte_end);
    proof {
        assert(encode_utf8(head@) == encode_utf8(front));
        encode_utf8_decode_utf8(head@);
        encode_utf8_decode_utf8(front);
        assert(head@ == front);
        assert(front.take(i) =~= s.take(i));
        lemma_offset_is_boundary(front, i);
        lemma_encode_subrange(front, i, j);
        assert(front.take(j) =~= front);
        assert(front.subrange(i, j) =~= s.subrange(i, j));
    }
    let (_, piece) = head.split_at(byte_start);
    proof {
        assert(encode_utf8(piece@) == encode_utf8(s.subrange(i, j)));
        encode_utf8_decode_utf8(piece@);
        encode_utf8_decode_utf8(s.subrange(i, j));
    }
    piece
}

/// A window of characters is cut out of the text at character boundaries:
/// its bytes are those between the byte offsets of its first character and
/// of the character behind its last one, both offsets are boundaries of the
/// encoding, and the bytes between them are the encoding of the window's
/// characters, each one whole.
pub proof fn lemma_window_cuts_at_boundaries(
    s: Seq<char>,
    n: int,
    step: int,
    keep_tail: bool,
    k: int,
)
    requires
        0 <= n,
        0 <= step,
        0 <= k < window_count(s.len() as int, n, step, keep_tail),
    ensures
        0 <= window_at(s.len() as int, n, step, k).0 <= window_at(s.len() as int, n, step, k).1
            <= s.len(),
        is_char_boundary(encode_utf8(s), byte_offset(s, window_at(s.len() as int, n, step, k).0)),
        is_char_boundary(encode_utf8(s), byte_offset(s, window_at(s.len() as int, n, step, k).1)),
        encode_utf8(cut(s, windows(s.len() as int, n, step, keep_tail))[k]) == encode_utf8(
            s,
        ).subrange(
            byte_offset(s, window_at(s.len() as int, n, step, k).0),
            byte_offset(s, window_at(s.len() as int, n, step, k).1),
        ),
        valid_utf8(encode_utf8(cut(s, windows(s.len() as int, n, step, keep_tail))[k])),
{
    let w = window_at(s.len() as int, n, step, k);
    lemma_window_within_length(s.len() as int, n, step, keep_tail, k);
    lemma_offset_is_boundary(s, w.0);
    lemma_offset_is_boundary(s, w.1);
    lemma_encode_subrange(s, w.0, w.1);
    encode_utf8_valid_utf8(s.subrange(w.0, w.1));
}

/// Copies each borrowed string into an owned one, in the same order.
pub fn bulk_to_owned_into(windows: Vec<&str>) -> (out: Vec<String>)
    ensures
        string_views(out@) == str_views(windows@),
{
    broadcast use vstd::string::group_string_axioms;

    let mut out: Vec<String> = Vec::with_capacity(windows.len());
    let mut k: usize = 0;
    while k < windows.len()
        invariant
            k <= windows.len(),
            out.len() == k,
            forall|j: int| 0 <= j < k ==> (#[trigger] out[j])@ == windows[j]@,
        decreases windows.len() - k,
    {
        out.push(windows[k].to_string());
        k = k + 1;
    }
    assert(string_views(out@) =~= str_views(windows@));
    out
}

/// A text together with the window parameters by which it is to be split.
pub struct Utf8Splitter<'a> {
    input: &'a str,
    n: usize,
    step: usize,
    keep_tail: bool,
}

impl<'a> Utf8Splitter<'a> {
    /// The characters of the text that is split.
    pub closed spec fn chars(&self) -> Seq<char> {
        self.input@
    }

    /// The number of characters in a full window.
    pub closed spec fn window_size(&self) -> int {
        self.n as int
    }

    /// The step between window starts as it was given; zero stands for the
    /// window size.
    pub closed spec fn step(&self) -> int {
        self.step as int
    }

    /// Whether left-over characters form a last, shorter window.
    pub closed spec fn keeps_tail(&self) -> bool {
        self.keep_tail
    }

    /// The pieces that this splitter cuts out of its text.
    pub open spec fn pieces(&self) -> Seq<Seq<char>> {
        cut(
            self.chars(),
            windows(self.chars().len() as int, self.window_size(), self.step(), self.keeps_tail()),
        )
    }

    /// A splitter over `input` with the given window parameters.
    pub fn new(input: &'a str, n: usize, step: usize, keep_tail: bool) -> (splitter: Self)
        ensures
            splitter.chars() == input@,
            splitter.window_size() == n,
            splitter.step() == step,
            splitter.keeps_tail() == keep_tail,
    {
        Self { input, n, step, keep_tail }
    }

    /// The windows as sub-strings that borrow from the text.
    pub fn split(&self) -> (out: Vec<&'a str>)
        ensures
            str_views(out@) == self.pieces(),
    {
        utf8_by_chars_borrowed(self.input, self.n, self.step, self.keep_tail)
    }

    /// The windows as strings of their own.
    pub fn out(&self) -> (out: Vec<String>)
        ensures
            string_views(out@) == self.pieces(),
    {
        bulk_to_owned_into(self.split())
    }
}

} // verus!
