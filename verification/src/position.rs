//! Text geometry: byte offsets ↔ LSP positions.
//!
//! Everything inside the server works in byte offsets into the document
//! text. This module is the single place where those offsets are converted
//! to and from `(line, character)` positions, honoring the position encoding
//! negotiated with the client.

use vstd::prelude::*;
use vstd::string::StringSliceAdditionalSpecFns;
use vstd::utf8::*;

use crate::grammar::{CR, LF};
use crate::text::lemma_ascii_boundaries;

verus! {

/// The character-counting unit negotiated with the client during
/// `initialize`.
#[derive(Debug, Clone, Copy, PartialEq, Eq, Structural)]
pub enum PositionEncoding {
    /// Characters count UTF-8 bytes: offsets are already bytes.
    Utf8,
    /// Characters count UTF-16 code units: the protocol's mandatory default.
    Utf16,
    /// Characters count Unicode codepoints.
    Utf32,
}

/// A zero-based `(line, character)` position, `character` counted in code
/// units of the negotiated encoding.
#[derive(Debug, Clone, Copy, PartialEq, Eq, Structural)]
pub struct Position {
    /// Zero-based line.
    pub line: u32,
    /// Zero-based offset within the line, in code units.
    pub character: u32,
}

/// A half-open range between two positions.
#[derive(Debug, Clone, Copy, PartialEq, Eq, Structural)]
pub struct Range {
    /// Where the range starts.
    pub start: Position,
    /// Where the range ends.
    pub end: Position,
}

/// The code units that byte `x` of valid UTF-8 contributes under `enc`.
/// Every character starts with exactly one byte that is not a continuation
/// byte; exactly the characters outside the Basic Multilingual Plane (two
/// UTF-16 units) start with a byte of `0xF0` or more.
pub open spec fn unit_weight(enc: PositionEncoding, x: u8) -> nat {
    match enc {
        PositionEncoding::Utf8 => 1,
        PositionEncoding::Utf16 => if is_continuation_byte(x) {
            0
        } else if x >= 0xF0 {
            2
        } else {
            1
        },
        PositionEncoding::Utf32 => if is_continuation_byte(x) {
            0
        } else {
            1
        },
    }
}

/// Length of the text with bytes `s` in code units of `enc`.
pub open spec fn units(enc: PositionEncoding, s: Seq<u8>) -> nat
    decreases s.len(),
{
    if s.len() == 0 {
        0
    } else {
        units(enc, s.drop_last()) + unit_weight(enc, s.last())
    }
}

/// Line starts follow the LSP specification: `\n`, `\r\n` and lone `\r`
/// all terminate a line, and offset 0 starts the first line.
pub open spec fn is_line_start(b: Seq<u8>, p: int) -> bool {
    p == 0 || (0 < p <= b.len() && (b[p - 1] == LF || (b[p - 1] == CR && !(p < b.len() && b[p]
        == LF))))
}

/// `s` lists every line start of `b`, ascending.
pub open spec fn line_starts_of(b: Seq<u8>, s: Seq<usize>) -> bool {
    &&& s.len() >= 1
    &&& s[0] == 0
    &&& forall|i: int, j: int| 0 <= i < j < s.len() ==> s[i] < s[j]
    &&& forall|i: int| 0 <= i < s.len() ==> s[i] <= b.len() && is_line_start(b, #[trigger] s[i] as int)
    &&& forall|p: int| 0 <= p <= b.len() && is_line_start(b, p) ==> s.contains(p as usize)
}

/// Byte offsets of every line start, in ascending order. Offset 0 is always
/// present, so line `i` starts at `line_starts[i]` and the vector is never
/// empty.
#[derive(Debug, Clone, PartialEq, Eq)]
pub struct LineIndex {
    line_starts: Vec<usize>,
}

impl View for LineIndex {
    type V = Seq<usize>;

    closed spec fn view(&self) -> Seq<usize> {
        self.line_starts@
    }
}

/// Whether `text` breaks a line with the byte at `i`, and where the next
/// line starts.
fn line_break_at(bytes: &[u8], i: usize) -> (r: Option<usize>)
    requires
        i < bytes@.len(),
    ensures
        match r {
            Some(next) => {
                &&& i < next <= bytes@.len()
                &&& is_line_start(bytes@, next as int)
                &&& forall|p: int| i < p < next ==> !is_line_start(bytes@, p)
            },
            None => !is_line_start(bytes@, i + 1),
        },
{
    if bytes[i] == LF {
        Some(i + 1)
    } else if bytes[i] == CR {
        if i + 1 < bytes.len() && bytes[i + 1] == LF {
            Some(i + 2)
        } else {
            Some(i + 1)
        }
    } else {
        None
    }
}

impl LineIndex {
    /// Index the line starts of `text`.
    pub fn new(text: &str) -> (r: Self)
        ensures
            line_starts_of(text.spec_bytes(), r@),
    {
        let bytes = text.as_bytes();
        let ghost b = bytes@;
        let mut line_starts: Vec<usize> = Vec::new();
        line_starts.push(0);
        let mut i: usize = 0;
        while i < bytes.len()
            invariant
                b == bytes@,
                i <= b.len(),
                line_starts@.len() >= 1,
                line_starts@[0] == 0,
                line_starts@.last() == i || !is_line_start(b, i as int),
                line_starts@.last() <= i,
                forall|x: int, y: int|
                    0 <= x < y < line_starts@.len() ==> line_starts@[x] < line_starts@[y],
                forall|x: int|
                    0 <= x < line_starts@.len() ==> is_line_start(b, #[trigger] line_starts@[x] as int),
                forall|p: int| 0 <= p <= i && is_line_start(b, p) ==> line_starts@.contains(p as usize),
            decreases b.len() - i,
        {
            let ghost old_s = line_starts@;
            match line_break_at(bytes, i) {
                Some(next) => {
                    line_starts.push(next);
                    assert forall|p: int| 0 <= p <= next && is_line_start(b, p) implies line_starts@.contains(
                        p as usize,
                    ) by {
                        if p <= i {
                            let k = choose|k: int| 0 <= k < old_s.len() && old_s[k] == p as usize;
                            assert(line_starts@[k] == p as usize);
                        } else {
                            assert(p == next);
                            assert(line_starts@[old_s.len() as int] == next);
                        }
                    }
                    i = next;
                },
                None => {
                    assert forall|p: int| 0 <= p <= i + 1 && is_line_start(b, p) implies line_starts@.contains(
                        p as usize,
                    ) by {
                        assert(p != i + 1);
                    }
                    i = i + 1;
                },
            }
        }
        proof {
            assert forall|x: int| 0 <= x < line_starts@.len() implies line_starts@[x] <= b.len() by {
                if x + 1 < line_starts@.len() {
                    assert(line_starts@[x] < line_starts@.last());
                }
            }
        }
        LineIndex { line_starts }
    }
}


/// Line `k` of the starts `s` holds offset `o`.
pub open spec fn line_of(s: Seq<usize>, o: int, k: int) -> bool {
    0 <= k < s.len() && s[k] <= o && (k + 1 == s.len() || o < s[k + 1])
}

/// The line that holds offset `o`.
pub open spec fn line_at(s: Seq<usize>, o: int) -> int {
    choose|k: int| line_of(s, o, k)
}

/// `o` clamped to `len`.
pub open spec fn clamped(o: int, len: int) -> int {
    if o < len {
        o
    } else {
        len
    }
}

/// Where the content of line `k` ends: before its terminator, or at the
/// end of the text for the last line.
pub open spec fn content_end(b: Seq<u8>, s: Seq<usize>, k: int) -> int {
    if k + 1 >= s.len() {
        b.len() as int
    } else {
        let ns = s[k + 1] as int;
        if ns >= 2 && b[ns - 2] == CR && b[ns - 1] == LF {
            ns - 2
        } else {
            ns - 1
        }
    }
}

/// `r` is where character `c` of line `k` lands: the last character
/// boundary of the line's content whose prefix of the line measures at most
/// `c` code units (a character past the end of its line lands on the line
/// end; one inside a multi-unit character snaps back to its start).
pub open spec fn lands_at(b: Seq<u8>, s: Seq<usize>, k: int, c: int, enc: PositionEncoding, r: int) -> bool {
    let ls = s[k] as int;
    let ce = content_end(b, s, k);
    &&& ls <= r <= ce
    &&& is_char_boundary(b, r)
    &&& units(enc, b.subrange(ls, r)) <= c
    &&& forall|q: int|
        r < q <= ce && is_char_boundary(b, q) ==> units(enc, #[trigger] b.subrange(ls, q)) > c
}

/// The position of offset `o` in text `b` with line starts `s`.
pub open spec fn position_of(b: Seq<u8>, s: Seq<usize>, o: int, enc: PositionEncoding) -> Position {
    let c = clamped(o, b.len() as int);
    let k = line_at(s, c);
    Position { line: k as u32, character: units(enc, b.subrange(s[k] as int, c)) as u32 }
}

/// The offset that position `pos` addresses in text `b` with line starts
/// `s`: the document end for a line past the end, else where the
/// character lands on its line.
pub open spec fn offset_of(b: Seq<u8>, s: Seq<usize>, pos: Position, enc: PositionEncoding, r: int) -> bool {
    if pos.line as int >= s.len() {
        r == b.len()
    } else {
        lands_at(b, s, pos.line as int, pos.character as int, enc, r)
    }
}

/// At most one line holds an offset.
pub proof fn lemma_line_unique(b: Seq<u8>, s: Seq<usize>, o: int, k: int)
    requires
        line_starts_of(b, s),
        line_of(s, o, k),
    ensures
        line_at(s, o) == k,
{
    let k2 = line_at(s, o);
    assert(line_of(s, o, k2));
    if k2 < k {
        assert(s[k2 + 1] <= s[k]) by {
            if k2 + 1 < k {
                assert(s[k2 + 1] < s[k]);
            }
        }
    } else if k < k2 {
        assert(s[k + 1] <= s[k2]) by {
            if k + 1 < k2 {
                assert(s[k + 1] < s[k2]);
            }
        }
    }
}

/// A longer prefix measures at least as many units.
pub proof fn lemma_units_monotone(enc: PositionEncoding, b: Seq<u8>, a: int, j: int, q: int)
    requires
        0 <= a <= j <= q <= b.len(),
    ensures
        units(enc, b.subrange(a, j)) <= units(enc, b.subrange(a, q)),
    decreases q - j,
{
    if j < q {
        lemma_units_monotone(enc, b, a, j, q - 1);
        assert(b.subrange(a, q).drop_last() =~= b.subrange(a, q - 1));
    }
}

/// Units of one more byte.
proof fn lemma_units_step(enc: PositionEncoding, b: Seq<u8>, a: int, j: int)
    requires
        0 <= a <= j < b.len(),
    ensures
        units(enc, b.subrange(a, j + 1)) == units(enc, b.subrange(a, j)) + unit_weight(enc, b[j]),
{
    assert(b.subrange(a, j + 1).drop_last() =~= b.subrange(a, j));
}

/// The code units byte `x` contributes under `enc`.
fn weight(enc: PositionEncoding, x: u8) -> (r: u64)
    ensures
        r == unit_weight(enc, x),
        r <= 2,
{
    match enc {
        PositionEncoding::Utf8 => 1,
        PositionEncoding::Utf16 => if 0x80 <= x && x <= 0xBF {
            0
        } else if x >= 0xF0 {
            2
        } else {
            1
        },
        PositionEncoding::Utf32 => if 0x80 <= x && x <= 0xBF {
            0
        } else {
            1
        },
    }
}

/// Length of bytes `a..e` in code units of `enc`.
fn measure(enc: PositionEncoding, bytes: &[u8], a: usize, e: usize) -> (r: u128)
    requires
        a <= e <= bytes@.len(),
    ensures
        r == units(enc, bytes@.subrange(a as int, e as int)),
{
    let mut acc: u128 = 0;
    let mut j = a;
    assert(bytes@.subrange(a as int, a as int).len() == 0);
    while j < e
        invariant
            a <= j <= e <= bytes@.len(),
            acc == units(enc, bytes@.subrange(a as int, j as int)),
            acc <= 2 * (j - a),
        decreases e - j,
    {
        proof {
            lemma_units_step(enc, bytes@, a as int, j as int);
        }
        acc = acc + weight(enc, bytes[j]) as u128;
        j = j + 1;
    }
    acc
}

/// A strictly ascending sequence: entries at larger indices are larger.
proof fn lemma_ascending(s: Seq<usize>, i: int, j: int)
    requires
        forall|x: int, y: int| 0 <= x < y < s.len() ==> s[x] < s[y],
        0 <= i <= j < s.len(),
    ensures
        s[i] <= s[j],
{
    if i < j {
        assert(s[i] < s[j]);
    }
}

impl LineIndex {
    /// The line starts, ascending.
    pub fn line_starts(&self) -> (r: &Vec<usize>)
        ensures
            r@ == self@,
    {
        &self.line_starts
    }

    /// The line holding offset `o`: a binary search for the last line start
    /// at or before it.
    fn line_containing(&self, Ghost(b): Ghost<Seq<u8>>, o: usize) -> (k: usize)
        requires
            line_starts_of(b, self@),
        ensures
            k == line_at(self@, o as int),
            line_of(self@, o as int, k as int),
    {
        let s = &self.line_starts;
        let mut lo: usize = 0;
        let mut hi: usize = s.len();
        while hi - lo > 1
            invariant
                line_starts_of(b, s@),
                s@ == self@,
                lo < hi <= s@.len(),
                s@[lo as int] <= o,
                hi == s@.len() || o < s@[hi as int],
            decreases hi - lo,
        {
            let mid = lo + (hi - lo) / 2;
            if s[mid] <= o {
                lo = mid;
            } else {
                hi = mid;
            }
        }
        proof {
            lemma_line_unique(b, s@, o as int, lo as int);
        }
        lo
    }

    /// End of a line's content: the offset of its terminator, or the text
    /// length for the last line.
    fn line_content_end(&self, text: &str, line: usize) -> (r: usize)
        requires
            line_starts_of(text.spec_bytes(), self@),
            line < self@.len(),
        ensures
            r == content_end(text.spec_bytes(), self@, line as int),
    {
        let bytes = text.as_bytes();
        if line >= self.line_starts.len() - 1 {
            return bytes.len();
        }
        let next_start = self.line_starts[line + 1];
        proof {
            assert(self@[0] < self@[line + 1]);
        }
        if next_start >= 2 && bytes[next_start - 2] == CR && bytes[next_start - 1] == LF {
            next_start - 2
        } else {
            next_start - 1
        }
    }

    /// Convert a byte offset into a position. `offset` is clamped to the
    /// text length and must lie on a `char` boundary (all spans produced by
    /// this crate do).
    pub fn position(&self, text: &str, offset: usize, enc: PositionEncoding) -> (r: Position)
        requires
            line_starts_of(text.spec_bytes(), self@),
            is_char_boundary(text.spec_bytes(), clamped(offset as int, text.spec_bytes().len() as int)),
        ensures
            r == position_of(text.spec_bytes(), self@, offset as int, enc),
    {
        let bytes = text.as_bytes();
        let o = if offset < bytes.len() {
            offset
        } else {
            bytes.len()
        };
        let line = self.line_containing(Ghost(bytes@), o);
        let character = measure(enc, bytes, self.line_starts[line], o);
        Position { line: line as u32, character: character as u32 }
    }

    /// The range covering the given offsets.
    pub fn range(&self, text: &str, start: usize, end: usize, enc: PositionEncoding) -> (r: Range)
        requires
            line_starts_of(text.spec_bytes(), self@),
            is_char_boundary(text.spec_bytes(), clamped(start as int, text.spec_bytes().len() as int)),
            is_char_boundary(text.spec_bytes(), clamped(end as int, text.spec_bytes().len() as int)),
        ensures
            r.start == position_of(text.spec_bytes(), self@, start as int, enc),
            r.end == position_of(text.spec_bytes(), self@, end as int, enc),
    {
        Range { start: self.position(text, start, enc), end: self.position(text, end, enc) }
    }

    /// Convert a position into a byte offset, clamping per the LSP
    /// specification: a line past the end of the document maps to the
    /// document end; a character past the end of its line maps to the line
    /// end (before the terminator); a character landing inside a
    /// multi-unit character (e.g. between UTF-16 surrogate halves) snaps back
    /// to that character's start.
    pub fn offset(&self, text: &str, pos: Position, enc: PositionEncoding) -> (r: usize)
        requires
            line_starts_of(text.spec_bytes(), self@),
        ensures
            offset_of(text.spec_bytes(), self@, pos, enc, r as int),
    {
        let bytes = text.as_bytes();
        let ghost b = bytes@;
        let line = pos.line as usize;
        if line >= self.line_starts.len() {
            return bytes.len();
        }
        let ls = self.line_starts[line];
        let ce = self.line_content_end(text, line);
        let c = pos.character as u64;
        proof {
            encode_utf8_valid_utf8(text@);
            assert(self@[line as int] <= b.len());
            if line + 1 < self@.len() {
                lemma_ascending(self@, line as int, line + 1);
                assert(self@[line + 1] > 0) by {
                    lemma_ascending(self@, 0, line as int);
                }
            }
            is_char_boundary_start_end_of_seq(b);
            if ls < b.len() {
                is_char_boundary_iff_not_is_continuation_byte(b, ls as int);
            }
            assert(b.subrange(ls as int, ls as int).len() == 0);
        }
        proof {
            if ls > 0 {
                lemma_ascii_boundaries(b, ls - 1);
            }
        }
        let mut acc: u64 = 0;
        let mut best = ls;
        let mut j = ls;
        while j < ce
            invariant
                b == bytes@,
                b == text.spec_bytes(),
                line_starts_of(b, self@),
                (line as int) < self@.len(),
                pos.line as int == line as int,
                ls == self@[line as int],
                ce == content_end(b, self@, line as int),
                c == pos.character as u64,
                valid_utf8(b),
                ls <= best <= j <= ce <= b.len(),
                acc == units(enc, b.subrange(ls as int, j as int)),
                acc <= c,
                is_char_boundary(b, best as int),
                units(enc, b.subrange(ls as int, best as int)) <= c,
                forall|q: int|
                    best < q <= j && is_char_boundary(b, q) ==> units(enc, #[trigger] b.subrange(ls as int, q)) > c,
            decreases ce - j,
        {
            proof {
                lemma_units_step(enc, b, ls as int, j as int);
            }
            acc = acc + weight(enc, bytes[j]);
            j = j + 1;
            if acc > c {
                proof {
                    assert forall|q: int|
                        best < q <= ce && is_char_boundary(b, q) implies units(enc, #[trigger] b.subrange(ls as int, q)) > c by {
                        if q > j {
                            lemma_units_monotone(enc, b, ls as int, j as int, q);
                        }
                    }
                }
                return best;
            }
            let at_boundary = j == bytes.len() || !(0x80 <= bytes[j] && bytes[j] <= 0xBF);
            proof {
                if j < b.len() {
                    is_char_boundary_iff_not_is_continuation_byte(b, j as int);
                } else {
                    is_char_boundary_start_end_of_seq(b);
                }
            }
            if at_boundary {
                best = j;
            }
        }
        best
    }
}


/// A `char` boundary that positions cannot express: between the `\r` and
/// `\n` of a CRLF break.
pub open spec fn between_crlf(b: Seq<u8>, o: int) -> bool {
    0 < o < b.len() && b[o - 1] == CR && b[o] == LF
}

/// Some line holds every offset at or after the start of line `k`.
proof fn lemma_line_exists(b: Seq<u8>, s: Seq<usize>, o: int, k: int)
    requires
        line_starts_of(b, s),
        0 <= k < s.len(),
        s[k] <= o,
    ensures
        line_of(s, o, line_at(s, o)),
    decreases s.len() - k,
{
    if k + 1 == s.len() || o < s[k + 1] {
        assert(line_of(s, o, k));
    } else {
        lemma_line_exists(b, s, o, k + 1);
    }
}

/// At most one offset is where a position lands.
pub proof fn lemma_offset_unique(b: Seq<u8>, s: Seq<usize>, pos: Position, enc: PositionEncoding, r1: int, r2: int)
    requires
        offset_of(b, s, pos, enc, r1),
        offset_of(b, s, pos, enc, r2),
    ensures
        r1 == r2,
{
    if pos.line as int >= s.len() {
    } else {
        let ls = s[pos.line as int] as int;
        if r1 < r2 {
            assert(units(enc, b.subrange(ls, r2)) > pos.character);
        } else if r2 < r1 {
            assert(units(enc, b.subrange(ls, r1)) > pos.character);
        }
    }
}

/// Every offset a client can address survives the trip to a position and
/// back, in every encoding: for a character boundary that does not split a
/// CRLF break (and a position whose numbers fit the protocol's `u32`s),
/// the position of the offset addresses exactly that offset again.
pub proof fn law_position_round_trip(b: Seq<u8>, s: Seq<usize>, o: int, enc: PositionEncoding)
    requires
        valid_utf8(b),
        line_starts_of(b, s),
        0 <= o <= b.len(),
        is_char_boundary(b, o),
        !between_crlf(b, o),
        s.len() <= u32::MAX,
        units(enc, b.subrange(s[line_at(s, o)] as int, o)) <= u32::MAX,
    ensures
        offset_of(b, s, position_of(b, s, o, enc), enc, o),
{
    lemma_line_exists(b, s, o, 0);
    let k = line_at(s, o);
    let ls = s[k] as int;
    let u = units(enc, b.subrange(ls, o));
    let pos = position_of(b, s, o, enc);
    assert(clamped(o, b.len() as int) == o);
    assert(pos.line as int == k);
    assert(pos.character as int == u);
    let ce = content_end(b, s, k);
    if k + 1 < s.len() {
        let ns = s[k + 1] as int;
        if ns >= 2 && b[ns - 2] == CR && b[ns - 1] == LF {
            assert(o != ns - 1);
        }
    }
    assert(o <= ce);
    assert forall|q: int| o < q <= ce && is_char_boundary(b, q) implies units(
        enc,
        #[trigger] b.subrange(ls, q),
    ) > u by {
        is_char_boundary_iff_not_is_continuation_byte(b, o);
        lemma_units_step(enc, b, ls, o);
        lemma_units_monotone(enc, b, ls, o + 1, q);
    }
}

/// Whatever position a client sends, the offset it addresses lies in the
/// text, on a character boundary, and never between the `\r` and `\n` of a
/// CRLF break.
pub proof fn law_offset_clamps(b: Seq<u8>, s: Seq<usize>, pos: Position, enc: PositionEncoding, r: int)
    requires
        valid_utf8(b),
        b.len() <= usize::MAX,
        line_starts_of(b, s),
        offset_of(b, s, pos, enc, r),
    ensures
        0 <= r <= b.len(),
        is_char_boundary(b, r),
        !between_crlf(b, r),
{
    is_char_boundary_start_end_of_seq(b);
    if pos.line as int >= s.len() {
    } else {
        let k = pos.line as int;
        let ls = s[k] as int;
        let ce = content_end(b, s, k);
        if k + 1 < s.len() {
            assert(s[k + 1] <= b.len());
        }
        if r < ce && r < b.len() && b[r] == LF {
            assert(is_line_start(b, r + 1));
            assert(s.contains((r + 1) as usize));
            let i = choose|i: int| 0 <= i < s.len() && s[i] == (r + 1) as usize;
            if i <= k {
                lemma_ascending(s, i, k);
            } else {
                lemma_ascending(s, k + 1, i);
            }
        }
        if r == ce && k + 1 < s.len() {
            let ns = s[k + 1] as int;
            lemma_ascending(s, 0, k + 1);
            assert(is_line_start(b, ns));
        }
    }
}

} // verus!
