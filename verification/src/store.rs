//! The boundary scanner and the lazy line store.
//!
//! [`Scanner`] consumes a byte stream chunk by chunk, running the
//! terminator state machine of [`crate::grammar`] and recording the start
//! offset of every line; terminators that straddle two chunks are carried
//! across by the pending state. [`Scanner::finish`] closes a trailing
//! unterminated line and yields a [`Larry`], which answers `len`, `offset`
//! and `span` queries from the recorded offsets alone and caches decoded
//! line text handed to [`Larry::fill`].

use vstd::prelude::*;
use vstd::utf8::{decode_utf8, valid_utf8};

use crate::error::Lerror;
use crate::grammar::{
    is_cr, is_lf, is_pair, lemma_chain_is_starts, lemma_line_end_extend, lemma_line_end_skip,
    lemma_line_starts_from_increasing, lemma_line_starts_from_props, line_count, line_end,
    line_seg, line_seg_end, line_starts, term_free,
};
use crate::text::utf8_to_string;

verus! {

/// One line of the input: the byte offset of its first byte, and its decoded
/// text once it has been read.
pub struct Line {
    offset: u64,
    text: Option<String>,
}

impl Line {
    /// The byte offset of the line's first byte.
    pub closed spec fn spec_offset(self) -> u64 {
        self.offset
    }

    /// The decoded text cached for the line, if any.
    pub closed spec fn spec_text(self) -> Option<Seq<char>> {
        match self.text {
            Some(t) => Some(t@),
            None => None,
        }
    }

    /// A line starting at `offset` whose text has not been read yet.
    pub fn new(offset: u64) -> (r: Line)
        ensures
            r.spec_offset() == offset,
            r.spec_text() is None,
    {
        Line { offset, text: None }
    }

    /// Decode `bytes` as strict UTF-8 and store the text; on invalid UTF-8
    /// nothing is stored and failure is reported.
    pub fn set_text(&mut self, bytes: &[u8]) -> (ok: bool)
        ensures
            ok <==> valid_utf8(bytes@),
            ok ==> final(self).spec_offset() == old(self).spec_offset()
                && final(self).spec_text() == Some(decode_utf8(bytes@)),
            !ok ==> *final(self) == *old(self),
    {
        match utf8_to_string(bytes) {
            Some(s) => {
                self.text = Some(s);
                true
            },
            None => false,
        }
    }
}

/// The scanner's memory of the previous byte: a lone terminator byte stays
/// pending until the next byte shows whether it pairs into a two-byte
/// boundary.
enum Pending {
    Clean,
    Lf,
    Cr,
}

/// The recorded start offsets, as mathematical integers.
spec fn starts_of(lines: Seq<Line>) -> Seq<int> {
    lines.map_values(|l: Line| l.offset as int)
}

/// The state-machine invariant: after consuming the first `p` bytes of `s`,
/// the recorded starts `ss` are the starts of the fully closed lines, the
/// open line starts at `offset` and has `length` consumed bytes, and
/// `pending` remembers an unresolved trailing terminator byte.
spec fn machine_inv(
    s: Seq<u8>,
    ss: Seq<int>,
    offset: u64,
    length: u64,
    pending: Pending,
    p: int,
) -> bool {
    &&& 0 <= p <= s.len()
    &&& s.len() <= u64::MAX
    &&& offset + length == p
    &&& match pending {
        Pending::Clean => term_free(s, offset as int, p),
        Pending::Lf => length >= 1 && is_lf(s[p - 1]) && term_free(s, offset as int, p - 1),
        Pending::Cr => length >= 1 && is_cr(s[p - 1]) && term_free(s, offset as int, p - 1),
    }
    &&& (length == 0 ==> pending is Clean)
    &&& (length == 0 && p > 0 ==> p >= 2 && is_pair(s[p - 2], s[p - 1]) && ss.len() > 0 && ss[ss.len()
        - 1] + 2 <= offset)
    &&& (ss.len() == 0 ==> offset == 0)
    &&& (ss.len() > 0 ==> ss[0] == 0)
    &&& (forall|k: int| 0 <= k < ss.len() ==> 0 <= #[trigger] ss[k] < offset)
    &&& (forall|k: int| 0 <= k < ss.len() - 1 ==> #[trigger] ss[k] < ss[k + 1])
    &&& (forall|k: int| 0 <= k < ss.len() - 1 ==> line_end(s, #[trigger] ss[k]) == ss[k + 1])
    &&& (ss.len() > 0 ==> line_end(s, ss[ss.len() - 1]) == offset)
}

/// Appending bytes to the input disturbs no closed line: every boundary the
/// machine has recorded was resolved by bytes already seen, so the invariant
/// carries over to the extended input unchanged.
proof fn lemma_inv_extend(
    c: Seq<u8>,
    d: Seq<u8>,
    ss: Seq<int>,
    offset: u64,
    length: u64,
    pending: Pending,
)
    requires
        machine_inv(c, ss, offset, length, pending, c.len() as int),
        c.len() + d.len() <= u64::MAX,
    ensures
        machine_inv(c + d, ss, offset, length, pending, c.len() as int),
{
    let s = c + d;
    let p = c.len() as int;
    assert(forall|j: int| 0 <= j < c.len() ==> s[j] == #[trigger] c[j]);
    assert forall|k: int| 0 <= k < ss.len() - 1 implies line_end(s, #[trigger] ss[k]) == ss[k
        + 1] by {
        lemma_line_end_extend(c, d, ss[k]);
    }
    if ss.len() > 0 {
        let last = ss[ss.len() - 1];
        if length > 0 {
            lemma_line_end_extend(c, d, last);
        } else {
            // the last close was a two-byte terminator at the end of `c`
            assert(p >= 2 && is_pair(c[p - 2], c[p - 1]));
            lemma_line_end_extend(c, d, last);
        }
        assert(line_end(s, last) == offset);
    }
}

/// The boundary scanner: a single forward pass that records line-start
/// offsets and the running byte count, and never materializes line text.
pub struct Scanner {
    lines: Vec<Line>,
    offset: u64,
    length: u64,
    pending: Pending,
    content: Ghost<Seq<u8>>,
}

impl Scanner {
    /// The bytes fed so far.
    pub closed spec fn bytes(self) -> Seq<u8> {
        self.content@
    }

    /// The scanner's state agrees with the terminator grammar on everything
    /// fed so far.
    pub closed spec fn wf(self) -> bool {
        &&& machine_inv(
            self.content@,
            starts_of(self.lines@),
            self.offset,
            self.length,
            self.pending,
            self.content@.len() as int,
        )
        &&& forall|k: int| 0 <= k < self.lines@.len() ==> self.lines@[k].spec_text() is None
    }

    /// A scanner that has seen no bytes.
    pub fn new() -> (r: Scanner)
        ensures
            r.wf(),
            r.bytes() == Seq::<u8>::empty(),
    {
        let r = Scanner {
            lines: Vec::new(),
            offset: 0,
            length: 0,
            pending: Pending::Clean,
            content: Ghost(Seq::empty()),
        };
        proof {
            assert(starts_of(r.lines@) =~= Seq::<int>::empty());
        }
        r
    }

    /// Consume the next chunk of the input. Chunk boundaries are immaterial:
    /// the pending state carries a terminator byte whose pairing partner may
    /// only arrive with the next chunk.
    #[verifier::rlimit(60)]
    pub fn feed(&mut self, chunk: &[u8])
        requires
            old(self).wf(),
            old(self).bytes().len() + chunk@.len() <= u64::MAX,
        ensures
            final(self).wf(),
            final(self).bytes() == old(self).bytes() + chunk@,
    {
        let ghost c0 = self.content@;
        let ghost s = c0 + chunk@;
        proof {
            lemma_inv_extend(
                c0,
                chunk@,
                starts_of(self.lines@),
                self.offset,
                self.length,
                self.pending,
            );
        }
        self.content = Ghost(s);
        let n: usize = chunk.len();
        let mut j: usize = 0;
        while j < n
            invariant
                s == c0 + chunk@,
                chunk@.len() == n,
                j <= n,
                self.content@ == s,
                machine_inv(
                    s,
                    starts_of(self.lines@),
                    self.offset,
                    self.length,
                    self.pending,
                    c0.len() + j,
                ),
                forall|k: int| 0 <= k < self.lines@.len() ==> self.lines@[k].spec_text() is None,
            decreases n - j,
        {
            let ghost p: int = c0.len() as int + j as int;
            let b: u8 = chunk[j];
            assert(s[p] == chunk@[j as int]);
            self.length = self.length + 1;
            if b == 0x0a {
                match self.pending {
                    Pending::Cr => {
                        // the CR seen last pairs with this LF: one CRLF
                        // boundary closes the line, terminator included
                        let l = Line::new(self.offset);
                        proof {
                            lemma_line_end_skip(s, self.offset as int, p - 1);
                            lemma_starts_push(self.lines@, l);
                        }
                        self.lines.push(l);
                        self.offset = self.offset + self.length;
                        self.length = 0;
                        self.pending = Pending::Clean;
                    },
                    Pending::Lf => {
                        // a second bare LF: the first one was a whole
                        // terminator; this byte opens the next line and is
                        // itself a pending terminator
                        let l = Line::new(self.offset);
                        proof {
                            lemma_line_end_skip(s, self.offset as int, p - 1);
                            lemma_starts_push(self.lines@, l);
                        }
                        self.lines.push(l);
                        self.offset = self.offset + self.length - 1;
                        self.length = 1;
                    },
                    Pending::Clean => {
                        // a CR may still follow and pair with this LF
                        self.pending = Pending::Lf;
                    },
                }
            } else if b == 0x0d {
                match self.pending {
                    Pending::Lf => {
                        // the LF seen last pairs with this CR: one LFCR
                        // boundary closes the line, terminator included
                        let l = Line::new(self.offset);
                        proof {
                            lemma_line_end_skip(s, self.offset as int, p - 1);
                            lemma_starts_push(self.lines@, l);
                        }
                        self.lines.push(l);
                        self.offset = self.offset + self.length;
                        self.length = 0;
                        self.pending = Pending::Clean;
                    },
                    Pending::Cr => {
                        let l = Line::new(self.offset);
                        proof {
                            lemma_line_end_skip(s, self.offset as int, p - 1);
                            lemma_starts_push(self.lines@, l);
                        }
                        self.lines.push(l);
                        self.offset = self.offset + self.length - 1;
                        self.length = 1;
                    },
                    Pending::Clean => {
                        self.pending = Pending::Cr;
                    },
                }
            } else {
                match self.pending {
                    Pending::Clean => {},
                    _ => {
                        // an ordinary byte confirms the pending byte as a
                        // one-byte terminator; it is excluded from the closed
                        // line's span, and this byte opens the next line
                        let l = Line::new(self.offset);
                        proof {
                            lemma_line_end_skip(s, self.offset as int, p - 1);
                            lemma_starts_push(self.lines@, l);
                        }
                        self.lines.push(l);
                        self.length = self.length - 1;
                        self.offset = self.offset + self.length;
                        self.length = 1;
                        self.pending = Pending::Clean;
                    },
                }
            }
            j += 1;
        }
    }

    /// Close the trailing line, if the input did not end in a terminator (or
    /// ended in a terminator byte whose partner never arrived), and hand over
    /// the completed index: one recorded start per line of the input, in
    /// order, with no text read yet.
    #[verifier::rlimit(60)]
    pub fn finish(self) -> (r: Larry)
        requires
            self.wf(),
        ensures
            r.wf(),
            r.contents() == self.bytes(),
            forall|i: int| 0 <= i < r.spec_len() ==> r.spec_cached(i) is None,
    {
        let Scanner { mut lines, offset, length, pending, content } = self;
        let ghost c = content@;
        let ghost p: int = c.len() as int;
        if length > 0 {
            // a final line with no trailing terminator, or whose pending
            // terminator byte was cut off by the end of the input
            let l = Line::new(offset);
            proof {
                match pending {
                    Pending::Clean => {
                        lemma_line_end_skip(c, offset as int, p);
                        assert(line_end(c, p) == p);
                    },
                    _ => {
                        lemma_line_end_skip(c, offset as int, p - 1);
                        assert(line_end(c, p - 1) == p);
                    },
                }
                lemma_starts_push(lines@, l);
            }
            lines.push(l);
        }
        proof {
            let ss = starts_of(lines@);
            if ss.len() == 0 {
                assert(c.len() == 0);
                assert(line_starts(c) =~= ss);
            } else {
                lemma_chain_is_starts(c, ss, 0);
                assert(ss.skip(0) =~= ss);
                assert(line_starts(c) == ss);
            }
        }
        Larry { lines, length: offset + length, content }
    }
}

/// The lazy line store: the ordered line-start offsets and total byte length
/// discovered by the scanner, and a per-line cache of decoded text. Queries
/// do no scanning; the caller reads a line's span and hands the bytes to
/// [`Larry::fill`] once, after which the text is served from the cache.
pub struct Larry {
    lines: Vec<Line>,
    length: u64,
    content: Ghost<Seq<u8>>,
}

impl Larry {
    /// The scanned bytes this store indexes.
    pub closed spec fn contents(self) -> Seq<u8> {
        self.content@
    }

    /// The number of lines.
    pub closed spec fn spec_len(self) -> int {
        self.lines@.len() as int
    }

    /// The recorded line-start offsets.
    pub closed spec fn offsets(self) -> Seq<int> {
        starts_of(self.lines@)
    }

    /// The text cached for line `i`, if it has been read.
    pub closed spec fn spec_cached(self, i: int) -> Option<Seq<char>> {
        self.lines@[i].spec_text()
    }

    /// The store is an index of its contents: the recorded offsets are
    /// exactly the line starts of the scanned bytes, whose total length is
    /// recorded too.
    pub closed spec fn wf(self) -> bool {
        &&& self.length == self.content@.len()
        &&& self.content@.len() <= u64::MAX
        &&& self.offsets() == line_starts(self.content@)
    }

    /// The recorded offsets are exactly the line starts of the contents
    /// under the terminator grammar.
    pub proof fn lemma_offsets_are_line_starts(self)
        requires
            self.wf(),
        ensures
            self.offsets() == line_starts(self.contents()),
    {
    }

    /// The store has one record per line of its contents.
    pub proof fn lemma_len_counts_lines(self)
        requires
            self.wf(),
        ensures
            self.spec_len() == line_count(self.contents()),
    {
        assert(self.offsets().len() == line_starts(self.content@).len());
    }

    /// Consecutive recorded offsets are strictly increasing: every line
    /// starts strictly before the next one.
    pub proof fn lemma_offsets_increasing(self, i: int)
        requires
            self.wf(),
            0 <= i < self.spec_len() - 1,
        ensures
            self.offsets()[i] < self.offsets()[i + 1],
    {
        lemma_line_starts_from_increasing(self.content@, 0);
    }

    /// The number of logical lines; no input/output.
    pub fn len(&self) -> (r: usize)
        ensures
            r == self.spec_len(),
            self.wf() ==> r == line_count(self.contents()),
    {
        proof {
            if self.wf() {
                self.lemma_len_counts_lines();
            }
        }
        self.lines.len()
    }

    /// The byte offset of line `i` from the start of the input, or an
    /// out-of-bounds error carrying the requested index and the line count.
    pub fn offset(&self, i: usize) -> (r: Result<u64, Lerror>)
        ensures
            i < self.spec_len() ==> (r matches Ok(o) && o as int == self.offsets()[i as int]),
            i >= self.spec_len() ==> (r matches Err(e) && e == (Lerror::OutOfBounds {
                index: i,
                len: self.spec_len() as usize,
            })),
    {
        if i >= self.lines.len() {
            Err(Lerror::OutOfBounds { index: i, len: self.lines.len() })
        } else {
            Ok(self.lines[i].offset)
        }
    }

    /// The byte span of line `i`: its start offset and its length in bytes,
    /// terminator included; the last line runs to the end of the input. An
    /// out-of-bounds index gets the same error as [`Larry::offset`].
    pub fn span(&self, i: usize) -> (r: Result<(u64, u64), Lerror>)
        requires
            self.wf(),
        ensures
            i < self.spec_len() ==> (r matches Ok(se) && se.0 as int == self.offsets()[i as int]
                && se.0 + se.1 == line_seg_end(self.contents(), i as int) && se.1 as int
                == line_seg(self.contents(), i as int).len()),
            i >= self.spec_len() ==> (r matches Err(e) && e == (Lerror::OutOfBounds {
                index: i,
                len: self.spec_len() as usize,
            })),
    {
        let n = self.lines.len();
        if i >= n {
            Err(Lerror::OutOfBounds { index: i, len: n })
        } else {
            proof {
                lemma_line_starts_from_increasing(self.content@, 0);
                lemma_line_starts_from_props(self.content@, 0);
            }
            let start = self.lines[i].offset;
            let end = if i == n - 1 {
                self.length
            } else {
                self.lines[i + 1].offset
            };
            Ok((start, end - start))
        }
    }

    /// The text cached for line `i`, if that line has been decoded already;
    /// nothing for an unread line or an out-of-bounds index.
    pub fn cached_text(&self, i: usize) -> (r: Option<&String>)
        ensures
            r matches Some(t) ==> i < self.spec_len() && self.spec_cached(i as int) == Some(t@),
            r is None ==> i >= self.spec_len() || self.spec_cached(i as int) is None,
    {
        if i >= self.lines.len() {
            None
        } else {
            self.lines[i].text.as_ref()
        }
    }

    /// Decode `bytes` as strict UTF-8 and cache the text as line `i`'s,
    /// leaving every other line alone. Rejects an out-of-bounds index with
    /// the error of [`Larry::offset`], and invalid UTF-8 with a decoding
    /// error, caching nothing in either case. A line that already has text
    /// keeps it: there is no invalidation path. Handed the bytes of line
    /// `i`'s own span on first access, it caches exactly that line's decoded
    /// text.
    pub fn fill(&mut self, i: usize, bytes: &[u8]) -> (r: Result<(), Lerror>)
        ensures
            final(self).contents() == old(self).contents(),
            final(self).offsets() == old(self).offsets(),
            final(self).spec_len() == old(self).spec_len(),
            old(self).wf() ==> final(self).wf(),
            forall|j: int|
                0 <= j < old(self).spec_len() && j != i ==> final(self).spec_cached(j) == old(
                    self,
                ).spec_cached(j),
            i >= old(self).spec_len() ==> (r matches Err(e) && e == (Lerror::OutOfBounds {
                index: i,
                len: old(self).spec_len() as usize,
            }) && *final(self) == *old(self)),
            i < old(self).spec_len() && old(self).spec_cached(i as int) is Some ==> r is Ok
                && *final(self) == *old(self),
            i < old(self).spec_len() && old(self).spec_cached(i as int) is None && valid_utf8(
                bytes@,
            ) ==> r is Ok && final(self).spec_cached(i as int) == Some(decode_utf8(bytes@)),
            i < old(self).spec_len() && old(self).spec_cached(i as int) is None && !valid_utf8(
                bytes@,
            ) ==> (r matches Err(e) && e == (Lerror::Decode { index: i })
                && *final(self) == *old(self)),
            i < old(self).spec_len() && old(self).spec_cached(i as int) is None && bytes@
                == line_seg(old(self).contents(), i as int) && valid_utf8(bytes@)
                ==> final(self).spec_cached(i as int) == Some(
                decode_utf8(line_seg(old(self).contents(), i as int)),
            ),
    {
        let n = self.lines.len();
        if i >= n {
            return Err(Lerror::OutOfBounds { index: i, len: n });
        }
        if self.lines[i].text.is_some() {
            return Ok(());
        }
        let mut l = Line::new(self.lines[i].offset);
        if l.set_text(bytes) {
            proof {
                lemma_starts_update(self.lines@, i as int, l);
            }
            self.lines[i] = l;
            Ok(())
        } else {
            Err(Lerror::Decode { index: i })
        }
    }
}

/// Pushing a line appends its offset to the recorded starts.
proof fn lemma_starts_push(lines: Seq<Line>, l: Line)
    ensures
        starts_of(lines.push(l)) =~= starts_of(lines).push(l.offset as int),
{
}

/// Replacing a line by one with the same offset leaves the starts unchanged.
proof fn lemma_starts_update(lines: Seq<Line>, i: int, l: Line)
    requires
        0 <= i < lines.len(),
        l.offset == lines[i].offset,
    ensures
        starts_of(lines.update(i, l)) =~= starts_of(lines),
{
}

} // verus!
