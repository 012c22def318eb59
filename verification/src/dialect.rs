//! Dialects (delimiters) and their detection: from an LSP `languageId`,
//! from a file extension, and by sniffing the first non-blank line.

use vstd::prelude::*;
use vstd::string::StringSliceAdditionalSpecFns;
use vstd::utf8::*;

use crate::text::{lemma_ascii_boundaries, substr};

verus! {

broadcast use vstd::utf8::group_utf8_lib;

/// A delimiter-separated dialect. The dialects differ only in their
/// delimiter byte; quoting rules are identical.
#[derive(Debug, Clone, Copy, PartialEq, Eq, Structural)]
pub enum Dialect {
    /// Comma-separated (`,`).
    Csv,
    /// Tab-separated (`\t`).
    Tsv,
    /// Semicolon-separated (`;`).
    Ssv,
    /// Pipe-separated (`|`).
    Psv,
}

/// The delimiter byte of a dialect.
pub open spec fn delimiter_of(d: Dialect) -> u8 {
    match d {
        Dialect::Csv => 44u8,
        Dialect::Tsv => 9u8,
        Dialect::Ssv => 59u8,
        Dialect::Psv => 124u8,
    }
}

/// The human-readable name of a dialect.
pub open spec fn name_of(d: Dialect) -> Seq<char> {
    match d {
        Dialect::Csv => seq!['C', 'S', 'V'],
        Dialect::Tsv => seq!['T', 'S', 'V'],
        Dialect::Ssv => seq!['S', 'S', 'V'],
        Dialect::Psv => seq!['P', 'S', 'V'],
    }
}

/// The dialect at a position of the detection order.
pub open spec fn dialect_at(i: int) -> Dialect {
    if i == 0 {
        Dialect::Csv
    } else if i == 1 {
        Dialect::Tsv
    } else if i == 2 {
        Dialect::Ssv
    } else {
        Dialect::Psv
    }
}

/// ASCII lowercasing of one byte (what `to_ascii_lowercase` does).
pub open spec fn lower_byte(b: u8) -> u8 {
    if 65 <= b <= 90 {
        (b + 32) as u8
    } else {
        b
    }
}

/// ASCII lowercasing of a byte string.
pub open spec fn ascii_lower(s: Seq<u8>) -> Seq<u8> {
    s.map_values(|b: u8| lower_byte(b))
}

/// The dialect named by a lowercase word (`csv`, `tsv`, `ssv`, `psv`).
pub open spec fn dialect_named(w: Seq<u8>) -> Option<Dialect> {
    if w == seq![99u8, 115u8, 118u8] {
        Some(Dialect::Csv)
    } else if w == seq![116u8, 115u8, 118u8] {
        Some(Dialect::Tsv)
    } else if w == seq![115u8, 115u8, 118u8] {
        Some(Dialect::Ssv)
    } else if w == seq![112u8, 115u8, 118u8] {
        Some(Dialect::Psv)
    } else {
        None
    }
}

/// The dialect of a lowercase file extension (`tab` is TSV too).
pub open spec fn dialect_of_extension(e: Seq<u8>) -> Option<Dialect> {
    if e == seq![116u8, 97u8, 98u8] {
        Some(Dialect::Tsv)
    } else {
        dialect_named(e)
    }
}

/// Index of the last occurrence of `c` in `s`.
pub open spec fn last_index_of(s: Seq<u8>, c: u8) -> Option<int>
    decreases s.len(),
{
    if s.len() == 0 {
        None
    } else if s.last() == c {
        Some(s.len() - 1)
    } else {
        last_index_of(s.drop_last(), c)
    }
}

/// Where `last_index_of` points.
pub proof fn lemma_last_index_of(s: Seq<u8>, c: u8)
    ensures
        last_index_of(s, c) matches Some(i) ==> 0 <= i < s.len() && s[i] == c,
    decreases s.len(),
{
    if s.len() > 0 && s.last() != c {
        lemma_last_index_of(s.drop_last(), c);
    }
}

/// A line ends at or after its start.
pub proof fn lemma_line_end(b: Seq<u8>, p: int)
    requires
        0 <= p <= b.len(),
    ensures
        p <= line_end(b, p) <= b.len(),
    decreases b.len() - p,
{
    if p < b.len() && b[p] != 10u8 {
        lemma_line_end(b, p + 1);
    }
}

/// The last `/`-separated component of a path.
pub open spec fn file_name_of(path: Seq<u8>) -> Seq<u8> {
    match last_index_of(path, 47u8) {
        Some(i) => path.subrange(i + 1, path.len() as int),
        None => path,
    }
}

/// What follows the last `.` of the file name, if it has one.
pub open spec fn extension_of(path: Seq<u8>) -> Option<Seq<u8>> {
    let name = file_name_of(path);
    match last_index_of(name, 46u8) {
        Some(i) => Some(name.subrange(i + 1, name.len() as int)),
        None => None,
    }
}

/// The White_Space characters of Unicode (what `str::trim` removes).
pub open spec fn is_unicode_whitespace(c: char) -> bool {
    let u = c as u32;
    ||| 0x09 <= u <= 0x0d
    ||| u == 0x20
    ||| u == 0x85
    ||| u == 0xa0
    ||| u == 0x1680
    ||| 0x2000 <= u <= 0x200a
    ||| u == 0x2028
    ||| u == 0x2029
    ||| u == 0x202f
    ||| u == 0x205f
    ||| u == 0x3000
}

/// A line is blank when all its characters are whitespace.
pub open spec fn is_blank_line(line: Seq<u8>) -> bool {
    forall|i: int|
        0 <= i < decode_utf8(line).len() ==> is_unicode_whitespace(#[trigger] decode_utf8(line)[i])
}

/// End of the line starting at `p`: its `\n`, or the end of the text.
pub open spec fn line_end(b: Seq<u8>, p: int) -> int
    decreases b.len() - p,
{
    if p >= b.len() || b[p] == 10u8 {
        p
    } else {
        line_end(b, p + 1)
    }
}

/// The first line at or after `p` that is not blank, as a byte range.
pub open spec fn first_content_line(b: Seq<u8>, p: int) -> Option<(int, int)>
    decreases b.len() - p,
{
    if p < 0 || p >= b.len() {
        None
    } else {
        let e = line_end(b, p);
        proof {
            lemma_line_end(b, p);
        }
        if !is_blank_line(b.subrange(p, e)) {
            Some((p, e))
        } else if e >= b.len() {
            None
        } else {
            first_content_line(b, e + 1)
        }
    }
}

/// Occurrences of `d` outside double quotes in `s[i..]`, entering in the
/// given quote state.
pub open spec fn count_outside_quotes(s: Seq<u8>, i: int, in_quotes: bool, d: u8) -> nat
    decreases s.len() - i,
{
    if i < 0 || i >= s.len() {
        0
    } else if s[i] == 34u8 {
        count_outside_quotes(s, i + 1, !in_quotes, d)
    } else if !in_quotes && s[i] == d {
        1 + count_outside_quotes(s, i + 1, in_quotes, d)
    } else {
        count_outside_quotes(s, i + 1, in_quotes, d)
    }
}

/// The delimiter count of the dialect at index `k` in a line.
pub open spec fn line_count(s: Seq<u8>, k: int) -> nat {
    count_outside_quotes(s, 0, false, delimiter_of(dialect_at(k)))
}

/// The most frequent delimiter of a line, ties going to the earlier
/// dialect in detection order; `None` when no delimiter occurs.
pub open spec fn most_frequent(s: Seq<u8>) -> Option<Dialect> {
    let c0 = line_count(s, 0);
    let c1 = line_count(s, 1);
    let c2 = line_count(s, 2);
    let c3 = line_count(s, 3);
    let m = vstd::math::max(vstd::math::max(c0 as int, c1 as int), vstd::math::max(c2 as int, c3 as int));
    if m == 0 {
        None
    } else if c0 == m {
        Some(Dialect::Csv)
    } else if c1 == m {
        Some(Dialect::Tsv)
    } else if c2 == m {
        Some(Dialect::Ssv)
    } else {
        Some(Dialect::Psv)
    }
}

/// What sniffing detects in a text.
pub open spec fn sniffed(b: Seq<u8>) -> Option<Dialect> {
    match first_content_line(b, 0) {
        Some((s, e)) => most_frequent(b.subrange(s, e)),
        None => None,
    }
}

/// The dialect at position `i` of the detection order.
pub fn dialect_in_order(i: usize) -> (r: Dialect)
    requires
        i < 4,
    ensures
        r == dialect_at(i as int),
{
    if i == 0 {
        Dialect::Csv
    } else if i == 1 {
        Dialect::Tsv
    } else if i == 2 {
        Dialect::Ssv
    } else {
        Dialect::Psv
    }
}

impl Dialect {
    /// Every dialect, in detection-priority order.
    pub const ALL: [Dialect; 4] = [Dialect::Csv, Dialect::Tsv, Dialect::Ssv, Dialect::Psv];

    /// Human-readable dialect name for action titles and messages.
    pub fn name(self) -> (r: &'static str)
        ensures
            r@ == name_of(self),
    {
        match self {
            Dialect::Csv => {
                proof {
                    reveal_strlit("CSV");
                }
                "CSV"
            },
            Dialect::Tsv => {
                proof {
                    reveal_strlit("TSV");
                }
                "TSV"
            },
            Dialect::Ssv => {
                proof {
                    reveal_strlit("SSV");
                }
                "SSV"
            },
            Dialect::Psv => {
                proof {
                    reveal_strlit("PSV");
                }
                "PSV"
            },
        }
    }

    /// The delimiter byte of this dialect.
    pub fn delimiter(self) -> (r: u8)
        ensures
            r == delimiter_of(self),
    {
        match self {
            Dialect::Csv => 44u8,
            Dialect::Tsv => 9u8,
            Dialect::Ssv => 59u8,
            Dialect::Psv => 124u8,
        }
    }

    /// Map an LSP `languageId` to a dialect, ignoring ASCII case.
    pub fn from_language_id(id: &str) -> (r: Option<Self>)
        ensures
            r == dialect_named(ascii_lower(id.spec_bytes())),
    {
        let b = id.as_bytes();
        proof {
            assert(b@.subrange(0, b@.len() as int) =~= b@);
        }
        word_dialect(b, 0, false)
    }

    /// Map a path or URI string to a dialect via its file extension.
    pub fn from_path(path: &str) -> (r: Option<Self>)
        ensures
            r == match extension_of(path.spec_bytes()) {
                Some(e) => dialect_of_extension(ascii_lower(e)),
                None => None,
            },
    {
        let b = path.as_bytes();
        let n = b.len();
        proof {
            assert(b@.subrange(0, b@.len() as int) =~= b@);
        }
        let slash = last_index_from(b, 0, 47u8);
        proof {
            lemma_last_index_of(b@, 47u8);
        }
        let name_start = match slash {
            Some(i) => i + 1,
            None => 0,
        };
        let ghost name = b@.subrange(name_start as int, b@.len() as int);
        proof {
            if name_start > 0 {
                assert(file_name_of(b@) =~= name);
            } else {
                assert(file_name_of(b@) =~= name);
            }
            lemma_last_index_of(name, 46u8);
        }
        let dot = last_index_from(b, name_start, 46u8);
        match dot {
            Some(i) => {
                proof {
                    let j = last_index_of(name, 46u8)->0;
                    assert(i == j + name_start);
                    assert(name.subrange(j + 1, name.len() as int) =~= b@.subrange(
                        i + 1,
                        b@.len() as int,
                    ));
                }
                word_dialect(b, i + 1, true)
            },
            None => None,
        }
    }

    /// Guess the dialect by counting candidate delimiters (outside quotes)
    /// in the first non-blank line; ties favor the earlier dialect.
    pub fn sniff(text: &str) -> (r: Option<Self>)
        ensures
            r == sniffed(text.spec_bytes()),
    {
        let b = text.as_bytes();
        let n = b.len();
        let mut p: usize = 0;
        while p < n
            invariant
                b@ == text.spec_bytes(),
                n == b@.len(),
                p <= n,
                p == 0 || b@[p - 1] == 10u8,
                first_content_line(b@, 0) == first_content_line(b@, p as int),
            decreases n - p,
        {
            let e = line_end_from(b, p);
            let blank = line_is_blank(text, p, e);
            if !blank {
                return most_frequent_in(b, p, e);
            }
            if e == n {
                return None;
            }
            p = e + 1;
        }
        None
    }
}

/// The dialect named by `b[lo..]`, ignoring ASCII case; `tab` counts as
/// TSV when `allow_tab` (file extensions).
fn word_dialect(b: &[u8], lo: usize, allow_tab: bool) -> (r: Option<Dialect>)
    requires
        lo <= b@.len(),
    ensures
        r == if allow_tab {
            dialect_of_extension(ascii_lower(b@.subrange(lo as int, b@.len() as int)))
        } else {
            dialect_named(ascii_lower(b@.subrange(lo as int, b@.len() as int)))
        },
{
    let ghost w = ascii_lower(b@.subrange(lo as int, b@.len() as int));
    if b.len() - lo != 3 {
        proof {
            assert(w.len() != 3);
            assert(w != seq![99u8, 115u8, 118u8]);
            assert(w != seq![116u8, 115u8, 118u8]);
            assert(w != seq![115u8, 115u8, 118u8]);
            assert(w != seq![112u8, 115u8, 118u8]);
            assert(w != seq![116u8, 97u8, 98u8]);
        }
        return None;
    }
    let c0 = lower(b[lo]);
    let c1 = lower(b[lo + 1]);
    let c2 = lower(b[lo + 2]);
    proof {
        assert(w =~= seq![c0, c1, c2]);
    }
    if c0 == 99 && c1 == 115 && c2 == 118 {
        Some(Dialect::Csv)
    } else if c0 == 116 && c1 == 115 && c2 == 118 {
        Some(Dialect::Tsv)
    } else if c0 == 115 && c1 == 115 && c2 == 118 {
        Some(Dialect::Ssv)
    } else if c0 == 112 && c1 == 115 && c2 == 118 {
        Some(Dialect::Psv)
    } else if allow_tab && c0 == 116 && c1 == 97 && c2 == 98 {
        Some(Dialect::Tsv)
    } else {
        None
    }
}

/// ASCII lowercasing of one byte.
fn lower(c: u8) -> (r: u8)
    ensures
        r == lower_byte(c),
{
    if 65 <= c && c <= 90 {
        c + 32
    } else {
        c
    }
}

/// The last index at or after `lo` holding `c`.
fn last_index_from(b: &[u8], lo: usize, c: u8) -> (r: Option<usize>)
    requires
        lo <= b@.len(),
    ensures
        match last_index_of(b@.subrange(lo as int, b@.len() as int), c) {
            Some(i) => r == Some((i + lo) as usize),
            None => r is None,
        },
        r matches Some(k) ==> lo <= k < b@.len(),
{
    proof {
        lemma_last_index_of(b@.subrange(lo as int, b@.len() as int), c);
    }
    let mut i = b.len();
    while i > lo
        invariant
            lo <= i <= b@.len(),
            last_index_of(b@.subrange(lo as int, b@.len() as int), c) == last_index_of(
                b@.subrange(lo as int, i as int),
                c,
            ),
        decreases i,
    {
        let ghost s = b@.subrange(lo as int, i as int);
        assert(s.last() == b@[i - 1]);
        assert(s.len() - 1 + lo == i - 1);
        if b[i - 1] == c {
            return Some(i - 1);
        }
        assert(s.drop_last() =~= b@.subrange(lo as int, i - 1));
        i = i - 1;
    }
    None
}

/// End of the line starting at `p`.
fn line_end_from(b: &[u8], p: usize) -> (e: usize)
    requires
        p <= b@.len(),
    ensures
        e == line_end(b@, p as int),
        p <= e <= b@.len(),
        e < b@.len() ==> b@[e as int] == 10u8,
        forall|k: int| p <= k < e ==> b@[k] != 10u8,
{
    let mut e = p;
    while e < b.len() && b[e] != 10u8
        invariant
            p <= e <= b@.len(),
            line_end(b@, p as int) == line_end(b@, e as int),
            forall|k: int| p <= k < e ==> b@[k] != 10u8,
        decreases b@.len() - e,
    {
        e = e + 1;
    }
    e
}

/// Whether the line `text[p..e]` holds only whitespace.
fn line_is_blank(text: &str, p: usize, e: usize) -> (r: bool)
    requires
        p <= e <= text.spec_bytes().len(),
        p == 0 || text.spec_bytes()[p - 1] == 10u8,
        e == text.spec_bytes().len() || text.spec_bytes()[e as int] == 10u8,
    ensures
        r == is_blank_line(text.spec_bytes().subrange(p as int, e as int)),
{
    let ghost b = text.spec_bytes();
    proof {
        encode_utf8_valid_utf8(text@);
        is_char_boundary_start_end_of_seq(b);
        if p > 0 {
            lemma_ascii_boundaries(b, p - 1);
        }
        if e < b.len() {
            lemma_ascii_boundaries(b, e as int);
        }
    }
    let line = substr(text, p, e);
    proof {
        decode_utf8_encode_utf8(line.spec_bytes());
        encode_utf8_decode_utf8(line@);
    }
    all_whitespace(line)
}

/// Whether `c` has the White_Space property.
fn is_whitespace_char(c: char) -> (r: bool)
    ensures
        r == is_unicode_whitespace(c),
{
    let u = c as u32;
    (0x09 <= u && u <= 0x0d) || u == 0x20 || u == 0x85 || u == 0xa0 || u == 0x1680 || (0x2000 <= u && u
        <= 0x200a) || u == 0x2028 || u == 0x2029 || u == 0x202f || u == 0x205f || u == 0x3000
}

/// Whether every character of `s` is Unicode whitespace (what `str::trim`
/// would remove entirely).
fn all_whitespace(s: &str) -> (r: bool)
    ensures
        r == forall|i: int| 0 <= i < s@.len() ==> is_unicode_whitespace(#[trigger] s@[i]),
{
    broadcast use vstd::string::axiom_spec_iter;

    for c in it: s.chars()
        invariant
            it.seq() == s@,
            forall|k: int| 0 <= k < it.index() ==> is_unicode_whitespace(#[trigger] s@[k]),
    {
        if !is_whitespace_char(c) {
            return false;
        }
    }
    true
}

/// The most frequent delimiter (outside quotes) in `b[p..e]`.
fn most_frequent_in(b: &[u8], p: usize, e: usize) -> (r: Option<Dialect>)
    requires
        p <= e <= b@.len(),
    ensures
        r == most_frequent(b@.subrange(p as int, e as int)),
{
    let ghost s = b@.subrange(p as int, e as int);
    let mut c0: usize = 0;
    let mut c1: usize = 0;
    let mut c2: usize = 0;
    let mut c3: usize = 0;
    let mut in_quotes = false;
    let mut i = p;
    while i < e
        invariant
            p <= i <= e <= b@.len(),
            s == b@.subrange(p as int, e as int),
            c0 <= i - p,
            c1 <= i - p,
            c2 <= i - p,
            c3 <= i - p,
            line_count(s, 0) == c0 + count_outside_quotes(s, i - p, in_quotes, 44u8),
            line_count(s, 1) == c1 + count_outside_quotes(s, i - p, in_quotes, 9u8),
            line_count(s, 2) == c2 + count_outside_quotes(s, i - p, in_quotes, 59u8),
            line_count(s, 3) == c3 + count_outside_quotes(s, i - p, in_quotes, 124u8),
        decreases e - i,
    {
        let byte = b[i];
        assert(s[i - p] == byte);
        if byte == 34u8 {
            in_quotes = !in_quotes;
        } else if !in_quotes {
            if byte == 44u8 {
                c0 = c0 + 1;
            } else if byte == 9u8 {
                c1 = c1 + 1;
            } else if byte == 59u8 {
                c2 = c2 + 1;
            } else if byte == 124u8 {
                c3 = c3 + 1;
            }
        }
        i = i + 1;
    }
    let mut best: Option<Dialect> = None;
    let mut best_count: usize = 0;
    if c0 > best_count {
        best_count = c0;
        best = Some(Dialect::Csv);
    }
    if c1 > best_count {
        best_count = c1;
        best = Some(Dialect::Tsv);
    }
    if c2 > best_count {
        best_count = c2;
        best = Some(Dialect::Ssv);
    }
    if c3 > best_count {
        best = Some(Dialect::Psv);
    }
    best
}

/// An ASCII scalar encodes as its one byte.
proof fn lemma_ascii_scalar(v: u32)
    requires
        v <= 0x7F,
    ensures
        encode_scalar(v) == seq![v as u8],
{
    assert((v & 0x7F) as u8 == v as u8) by (bit_vector)
        requires
            v <= 0x7F,
    ;
}

/// Language ids are matched case-insensitively: an id and its ASCII
/// lowercasing name the same dialect, and each dialect's display name
/// names that dialect.
pub proof fn law_language_ids_case_insensitive(id: Seq<u8>, d: Dialect)
    ensures
        dialect_named(ascii_lower(ascii_lower(id))) == dialect_named(ascii_lower(id)),
        dialect_named(ascii_lower(encode_utf8(name_of(d)))) == Some(d),
{
    assert(ascii_lower(ascii_lower(id)) =~= ascii_lower(id));
    let n = name_of(d);
    lemma_ascii_scalar(n[0] as u32);
    lemma_ascii_scalar(n[1] as u32);
    lemma_ascii_scalar(n[2] as u32);
    let n1 = n.drop_first();
    let n2 = n1.drop_first();
    let n3 = n2.drop_first();
    assert(n3 =~= Seq::<char>::empty());
    assert(n1[0] == n[1] && n2[0] == n[2]);
    assert(encode_utf8(n3) == Seq::<u8>::empty());
    assert(encode_utf8(n2) == encode_scalar(n[2] as u32) + encode_utf8(n3));
    assert(encode_utf8(n1) == encode_scalar(n[1] as u32) + encode_utf8(n2));
    assert(encode_utf8(n) == encode_scalar(n[0] as u32) + encode_utf8(n1));
    let e = encode_utf8(n);
    assert(e =~= seq![n[0] as u8, n[1] as u8, n[2] as u8]);
    assert(ascii_lower(e) =~= match d {
        Dialect::Csv => seq![99u8, 115u8, 118u8],
        Dialect::Tsv => seq![116u8, 115u8, 118u8],
        Dialect::Ssv => seq![115u8, 115u8, 118u8],
        Dialect::Psv => seq![112u8, 115u8, 118u8],
    });
}

/// Sniffing picks the most frequent delimiter: when the first non-blank
/// line has a delimiter of some dialect outside quotes, the dialect sniffed
/// is one whose delimiter occurs there at least as often as any other
/// dialect's, and strictly more often than that of every dialect before it
/// in detection order; with no delimiter there (or no such line), nothing
/// is sniffed.
pub proof fn law_sniff_most_frequent(b: Seq<u8>)
    ensures
        match first_content_line(b, 0) {
            Some((s, e)) => {
                let line = b.subrange(s, e);
                &&& (sniffed(b) is None <==> forall|j: int| 0 <= j < 4 ==> line_count(line, j) == 0)
                &&& sniffed(b) matches Some(d) ==> exists|i: int|
                    0 <= i < 4 && dialect_at(i) == d && (forall|j: int|
                        0 <= j < 4 ==> line_count(line, j) <= line_count(line, i)) && (forall|j: int|
                        0 <= j < i ==> line_count(line, j) < line_count(line, i))
            },
            None => sniffed(b) is None,
        },
{
    match first_content_line(b, 0) {
        Some((s, e)) => {
            let line = b.subrange(s, e);
            let c0 = line_count(line, 0);
            let c1 = line_count(line, 1);
            let c2 = line_count(line, 2);
            let c3 = line_count(line, 3);
            assert forall|j: int| 0 <= j < 4 implies line_count(line, j) == (if j == 0 {
                c0
            } else if j == 1 {
                c1
            } else if j == 2 {
                c2
            } else {
                c3
            }) by {}
            match sniffed(b) {
                Some(d) => {
                    let i: int = if d == Dialect::Csv {
                        0
                    } else if d == Dialect::Tsv {
                        1
                    } else if d == Dialect::Ssv {
                        2
                    } else {
                        3
                    };
                    assert(dialect_at(i) == d);
                },
                None => {},
            }
        },
        None => {},
    }
}

} // verus!
