//! The line-terminator grammar.
//!
//! A line terminator is one of the byte sequences LF, CR, CRLF or LFCR; a
//! terminator byte immediately followed by the opposite terminator byte forms
//! a single two-byte boundary. A line runs from its start offset up to and
//! including its terminator; the last line of an input that does not end in a
//! terminator runs to the end of the input. [`line_starts`] gives the start
//! offsets of every line of a byte sequence under this grammar, and
//! [`line_seg`] the bytes of one line.

use vstd::prelude::*;

verus! {

/// The line-feed byte.
pub open spec fn is_lf(b: u8) -> bool {
    b == 0x0au8
}

/// The carriage-return byte.
pub open spec fn is_cr(b: u8) -> bool {
    b == 0x0du8
}

/// True of the two bytes that can end a line.
pub open spec fn is_terminator(b: u8) -> bool {
    is_lf(b) || is_cr(b)
}

/// True when two adjacent bytes form a single two-byte terminator
/// (CRLF or LFCR).
pub open spec fn is_pair(a: u8, b: u8) -> bool {
    (is_lf(a) && is_cr(b)) || (is_cr(a) && is_lf(b))
}

/// No terminator byte occurs in `s` at a position in `[a, b)`.
pub open spec fn term_free(s: Seq<u8>, a: int, b: int) -> bool {
    forall|j: int| a <= j < b ==> !is_terminator(#[trigger] s[j])
}

/// The exclusive end of the line that starts at `p`: the position just past
/// the first terminator at or after `p`, where a terminator byte followed by
/// the opposite terminator byte counts as one two-byte boundary; the end of
/// the input if no terminator follows.
pub open spec fn line_end(s: Seq<u8>, p: int) -> int
    decreases s.len() - p,
    when 0 <= p <= s.len()
{
    if p >= s.len() {
        p
    } else if is_terminator(s[p]) {
        if p + 1 < s.len() && is_pair(s[p], s[p + 1]) {
            p + 2
        } else {
            p + 1
        }
    } else {
        line_end(s, p + 1)
    }
}

/// The start offsets of the lines of `s` from position `p` on, `p` itself
/// being a line start.
pub open spec fn line_starts_from(s: Seq<u8>, p: int) -> Seq<int>
    decreases s.len() - p,
    when 0 <= p <= s.len()
    via line_starts_from_dec
{
    if p >= s.len() {
        Seq::empty()
    } else {
        seq![p] + line_starts_from(s, line_end(s, p))
    }
}

#[via_fn]
proof fn line_starts_from_dec(s: Seq<u8>, p: int) {
    if 0 <= p < s.len() {
        lemma_line_end_bounds(s, p);
    }
}

/// The start offsets of all lines of `s`.
pub open spec fn line_starts(s: Seq<u8>) -> Seq<int> {
    line_starts_from(s, 0)
}

/// How many lines `s` has: one per terminator, plus one for a trailing
/// unterminated segment. The empty input has no lines.
pub open spec fn line_count(s: Seq<u8>) -> int {
    line_starts(s).len() as int
}

/// The exclusive end of line `i` of `s`: the next line's start, or the end of
/// the input for the last line.
pub open spec fn line_seg_end(s: Seq<u8>, i: int) -> int
    recommends
        0 <= i < line_count(s),
{
    if i + 1 < line_count(s) {
        line_starts(s)[i + 1]
    } else {
        s.len() as int
    }
}

/// The bytes of line `i` of `s`, terminator included.
pub open spec fn line_seg(s: Seq<u8>, i: int) -> Seq<u8>
    recommends
        0 <= i < line_count(s),
{
    s.subrange(line_starts(s)[i], line_seg_end(s, i))
}

/// A line is never empty and never runs past the end of the input.
pub proof fn lemma_line_end_bounds(s: Seq<u8>, p: int)
    requires
        0 <= p < s.len(),
    ensures
        p < line_end(s, p) <= s.len(),
    decreases s.len() - p,
{
    if !is_terminator(s[p]) {
        if p + 1 < s.len() {
            lemma_line_end_bounds(s, p + 1);
        } else {
            assert(line_end(s, p + 1) == p + 1);
        }
    }
}

/// Scanning for the end of a line may skip any terminator-free prefix.
pub proof fn lemma_line_end_skip(s: Seq<u8>, a: int, b: int)
    requires
        0 <= a <= b <= s.len(),
        term_free(s, a, b),
    ensures
        line_end(s, a) == line_end(s, b),
    decreases b - a,
{
    if a < b {
        lemma_line_end_skip(s, a + 1, b);
    }
}

/// The end of a line is unchanged by appending bytes to the input, provided
/// the line does not end in a bare terminator that is the input's last byte
/// (such a terminator could still pair with the first appended byte).
pub proof fn lemma_line_end_extend(s: Seq<u8>, d: Seq<u8>, p: int)
    requires
        0 <= p < s.len(),
        line_end(s, p) < s.len() || (line_end(s, p) >= p + 2 && is_pair(
            s[line_end(s, p) - 2],
            s[line_end(s, p) - 1],
        )),
    ensures
        line_end(s + d, p) == line_end(s, p),
    decreases s.len() - p,
{
    assert((s + d).len() == s.len() + d.len());
    if is_terminator(s[p]) {
        assert((s + d)[p] == s[p]);
        if p + 1 < s.len() {
            assert((s + d)[p + 1] == s[p + 1]);
        }
    } else {
        assert((s + d)[p] == s[p]);
        if p + 1 < s.len() {
            lemma_line_end_extend(s, d, p + 1);
        } else {
            // The line would end in a bare non-terminator at the end of the
            // input; then line_end is the input's length, and the premise's
            // pair condition cannot hold of a non-terminator last byte.
            assert(line_end(s, p + 1) == p + 1);
            assert(line_end(s, p) == p + 1);
            assert(!is_pair(s[line_end(s, p) - 2], s[line_end(s, p) - 1]));
            assert(false);
        }
    }
}

/// Every line start from `p` on lies in `[p, s.len())`, the first is `p`
/// itself, and consecutive starts are chained by [`line_end`].
pub proof fn lemma_line_starts_from_props(s: Seq<u8>, p: int)
    requires
        0 <= p <= s.len(),
    ensures
        p < s.len() ==> line_starts_from(s, p).len() > 0 && line_starts_from(s, p)[0] == p,
        p == s.len() ==> line_starts_from(s, p).len() == 0,
        forall|k: int|
            0 <= k < line_starts_from(s, p).len() ==> p <= #[trigger] line_starts_from(s, p)[k]
                < s.len(),
        forall|k: int|
            0 <= k < line_starts_from(s, p).len() - 1 ==> line_end(
                s,
                #[trigger] line_starts_from(s, p)[k],
            ) == line_starts_from(s, p)[k + 1],
        line_starts_from(s, p).len() > 0 ==> line_end(
            s,
            line_starts_from(s, p)[line_starts_from(s, p).len() - 1],
        ) == s.len(),
    decreases s.len() - p,
{
    if p < s.len() {
        lemma_line_end_bounds(s, p);
        lemma_line_starts_from_props(s, line_end(s, p));
    }
}

/// Line starts are strictly increasing.
pub proof fn lemma_line_starts_from_increasing(s: Seq<u8>, p: int)
    requires
        0 <= p <= s.len(),
    ensures
        forall|k: int, l: int|
            0 <= k < l < line_starts_from(s, p).len() ==> #[trigger] line_starts_from(s, p)[k]
                < #[trigger] line_starts_from(s, p)[l],
    decreases s.len() - p,
{
    if p < s.len() {
        lemma_line_end_bounds(s, p);
        lemma_line_starts_from_props(s, line_end(s, p));
        lemma_line_starts_from_increasing(s, line_end(s, p));
    }
}

/// A strictly chained sequence of starts is exactly the tail of the line
/// starts of `s` from its `k`-th element on.
pub proof fn lemma_chain_is_starts(s: Seq<u8>, ss: Seq<int>, k: int)
    requires
        0 <= k < ss.len(),
        forall|j: int| k <= j < ss.len() ==> 0 <= #[trigger] ss[j] < s.len(),
        forall|j: int| k <= j < ss.len() - 1 ==> line_end(s, #[trigger] ss[j]) == ss[j + 1],
        line_end(s, ss[ss.len() - 1]) == s.len(),
    ensures
        line_starts_from(s, ss[k]) == ss.skip(k),
    decreases ss.len() - k,
{
    if k == ss.len() - 1 {
        assert(line_starts_from(s, ss[k]) == seq![ss[k]] + line_starts_from(s, s.len() as int));
        assert(line_starts_from(s, ss[k]) =~= ss.skip(k));
    } else {
        lemma_chain_is_starts(s, ss, k + 1);
        assert(line_starts_from(s, ss[k]) == seq![ss[k]] + line_starts_from(s, ss[k + 1]));
        assert(line_starts_from(s, ss[k]) =~= ss.skip(k));
    }
}

} // verus!

