//! The error-tolerant CSV parser and its span-based data model.
//!
//! [`parse`] is total: any input produces a [`Table`] (plus recovered
//! [`ParseError`]s). All spans are byte offsets into the parsed text. The
//! parser's behaviour is stated by the spec functions of
//! [`crate::grammar`], and [`parse`] is proved to compute exactly them.

use vstd::prelude::*;
use vstd::string::StringSliceAdditionalSpecFns;
use vstd::utf8::*;

use crate::dialect::{delimiter_of, Dialect};
use crate::grammar::{
    body_start, cell_stop, error_at, has_bom_bytes, is_cell_end, lemma_cell_stop,
    lemma_parse_cell, lemma_parse_cells, lemma_quoted_scan, lemma_rows_step, lemma_rows_done, lemma_cells_step,
    lemma_skip_spaces, parse_cell, parse_cells, parse_rows, quoted_scan, skip_spaces, span_of,
    spec_parse, stray_quotes, terminator_kind, terminator_len, trim_end, CR, LF, QUOTE, SPACE,
};
use crate::text::{
    lemma_ascii_boundaries, push_ascii, push_text, string_bytes, string_from_utf8, substr, to_owned_string,
};

verus! {

/// A half-open byte range `start..end` into the document text.
#[derive(Debug, Clone, Copy, PartialEq, Eq, Structural)]
pub struct Span {
    /// First byte of the range.
    pub start: usize,
    /// One past the last byte of the range.
    pub end: usize,
}

/// Byte offset `o` lies within the half-open span `s`.
pub open spec fn span_holds(s: Span, o: int) -> bool {
    s.start <= o < s.end
}

impl Span {
    /// Create a span.
    pub fn new(start: usize, end: usize) -> (r: Self)
        requires
            start <= end,
        ensures
            r == (Span { start, end }),
    {
        Span { start, end }
    }

    /// Number of bytes covered.
    pub fn len(self) -> (r: usize)
        requires
            self.start <= self.end,
        ensures
            r == self.end - self.start,
    {
        self.end - self.start
    }

    /// True when the span covers no bytes.
    pub fn is_empty(self) -> (r: bool)
        ensures
            r == (self.start == self.end),
    {
        self.start == self.end
    }

    /// True when `offset` lies within the half-open range.
    pub fn contains(self, offset: usize) -> (r: bool)
        ensures
            r == (self.start <= offset && offset < self.end),
    {
        self.start <= offset && offset < self.end
    }

    /// True when the two spans share at least one byte.
    pub fn overlaps(self, other: Span) -> (r: bool)
        ensures
            r == (exists|o: int| #[trigger] span_holds(self, o) && span_holds(other, o)),
            r == (self.start < self.end && other.start < other.end && self.start < other.end && other.start
                < self.end),
    {
        let r = self.start < self.end && other.start < other.end && self.start < other.end && other.start
            < self.end;
        proof {
            if r {
                let o: int = if self.start < other.start {
                    other.start as int
                } else {
                    self.start as int
                };
                assert(span_holds(self, o) && span_holds(other, o));
            }
        }
        r
    }

    /// The text covered by this span.
    pub fn slice(self, text: &str) -> (r: &str)
        requires
            self.start <= self.end <= text.spec_bytes().len(),
            is_char_boundary(text.spec_bytes(), self.start as int),
            is_char_boundary(text.spec_bytes(), self.end as int),
        ensures
            r.spec_bytes() == text.spec_bytes().subrange(self.start as int, self.end as int),
    {
        substr(text, self.start, self.end)
    }
}

/// How a cell was written in the source.
#[derive(Debug, Clone, Copy, PartialEq, Eq, Structural)]
pub enum Quoting {
    /// Bare content, ended by a delimiter or row terminator.
    Unquoted,
    /// Wrapped in double quotes (may contain delimiters and newlines).
    Quoted,
}

/// The row terminator style of a file: the first terminator seen wins. A
/// lone `\r` counts as the `Lf` family.
#[derive(Debug, Clone, Copy, PartialEq, Eq, Structural)]
pub enum LineTerminator {
    /// `\n`
    Lf,
    /// `\r\n`
    CrLf,
}

/// The bytes of a line terminator.
pub open spec fn terminator_bytes(t: LineTerminator) -> Seq<u8> {
    match t {
        LineTerminator::Lf => seq![10u8],
        LineTerminator::CrLf => seq![13u8, 10u8],
    }
}

impl LineTerminator {
    /// The terminator's text form.
    pub fn as_str(self) -> (r: &'static str)
        ensures
            r@ == match self {
                LineTerminator::Lf => seq!['\n'],
                LineTerminator::CrLf => seq!['\r', '\n'],
            },
            r.spec_bytes() == terminator_bytes(self),
    {
        let r = match self {
            LineTerminator::Lf => {
                proof {
                    reveal_strlit("\n");
                }
                "\n"
            },
            LineTerminator::CrLf => {
                proof {
                    reveal_strlit("\r\n");
                }
                "\r\n"
            },
        };
        proof {
            assert(is_ascii_chars(r@));
            is_ascii_chars_encode_utf8(r@);
            assert(r.spec_bytes() =~= terminator_bytes(self));
        }
        r
    }
}

/// A parsing problem, reported with an exact span instead of aborting.
#[derive(Debug, Clone, Copy, PartialEq, Eq, Structural)]
pub struct ParseError {
    /// What went wrong.
    pub kind: ParseErrorKind,
    /// The offending bytes.
    pub span: Span,
    /// Index into `Table::rows` of the row being parsed.
    pub row: usize,
}

/// The kinds of quoting damage the parser recovers from.
#[derive(Debug, Clone, Copy, PartialEq, Eq, Structural)]
pub enum ParseErrorKind {
    /// A quoted cell never sees its closing quote; the span is the opening
    /// quote and the rest of the file becomes the cell's content.
    UnclosedQuote,
    /// A `"` inside an unquoted cell; the span is that byte and the quote is
    /// kept as literal content.
    StrayQuote,
    /// Non-space bytes between a closing quote and the next delimiter; the
    /// span is the garbage run (trailing spaces trimmed).
    TextAfterClosingQuote,
}

/// A parsed cell. `content_span` lies within `span`: the difference is
/// alignment padding. For quoted cells the content span includes the
/// quotes. An all-padding cell has a zero-width content span at
/// `span.start`.
#[derive(Debug, Clone, Copy, PartialEq, Eq, Structural)]
pub struct Cell {
    /// Full extent, excluding delimiters, including padding.
    pub span: Span,
    /// Padding-trimmed extent.
    pub content_span: Span,
    /// Whether the source wrapped the cell in quotes.
    pub quoting: Quoting,
    /// True when `""` escapes occurred.
    pub has_escaped_quotes: bool,
}

/// Quoted content without its opening and closing quote (either may be
/// missing: an unclosed cell has no closing quote).
pub open spec fn strip_quotes(c: Seq<u8>) -> Seq<u8> {
    let inner = if c.len() > 0 && c[0] == QUOTE {
        c.drop_first()
    } else {
        c
    };
    if inner.len() > 0 && inner.last() == QUOTE {
        inner.drop_last()
    } else {
        inner
    }
}

/// Every `""` (left to right, non-overlapping) replaced by `"`.
pub open spec fn unescape_quotes(s: Seq<u8>) -> Seq<u8>
    decreases s.len(),
{
    if s.len() == 0 {
        s
    } else if s.len() >= 2 && s[0] == QUOTE && s[1] == QUOTE {
        seq![QUOTE] + unescape_quotes(s.subrange(2, s.len() as int))
    } else {
        seq![s[0]] + unescape_quotes(s.drop_first())
    }
}

/// The decoded value of a cell of text `b`: padding trimmed, quotes
/// stripped, `""` unescaped.
pub open spec fn cell_value(b: Seq<u8>, cell: Cell) -> Seq<u8> {
    let c = b.subrange(cell.content_span.start as int, cell.content_span.end as int);
    match cell.quoting {
        Quoting::Unquoted => c,
        Quoting::Quoted => if cell.has_escaped_quotes {
            unescape_quotes(strip_quotes(c))
        } else {
            strip_quotes(c)
        },
    }
}

/// Reading `s` from `i`: a `""` there gives one `"`, any other byte
/// itself.
proof fn lemma_unescape_step(s: Seq<u8>, i: int)
    requires
        0 <= i < s.len(),
    ensures
        i + 1 < s.len() && s[i] == QUOTE && s[i + 1] == QUOTE ==> unescape_quotes(s.subrange(i, s.len() as int))
            == seq![QUOTE] + unescape_quotes(s.subrange(i + 2, s.len() as int)),
        !(i + 1 < s.len() && s[i] == QUOTE && s[i + 1] == QUOTE) ==> unescape_quotes(
            s.subrange(i, s.len() as int),
        ) == seq![s[i]] + unescape_quotes(s.subrange(i + 1, s.len() as int)),
{
    let t = s.subrange(i, s.len() as int);
    if i + 1 < s.len() {
        assert(t.subrange(2, t.len() as int) =~= s.subrange(i + 2, s.len() as int));
    }
    assert(t.drop_first() =~= s.subrange(i + 1, s.len() as int));
}

/// Replaces every `""` in `s` by `"`, left to right.
fn replace_doubled_quotes(s: &str) -> (r: String)
    ensures
        string_bytes(r) == unescape_quotes(s.spec_bytes()),
{
    let b = s.as_bytes();
    let ghost bs = b@;
    let n = b.len();
    let mut out: Vec<u8> = Vec::new();
    let mut seg: usize = 0;
    let mut i: usize = 0;
    proof {
        encode_utf8_valid_utf8(s@);
        is_char_boundary_start_end_of_seq(bs);
        assert(valid_utf8(Seq::<u8>::empty())) by {
            reveal_with_fuel(valid_utf8, 1);
        }
        assert(bs.subrange(0, n as int) =~= bs);
        assert(bs.subrange(0, 0) =~= Seq::<u8>::empty());
        assert(Seq::<u8>::empty() + Seq::<u8>::empty() + unescape_quotes(bs) =~= unescape_quotes(bs));
    }
    while i < n
        invariant
            bs == b@,
            bs == s.spec_bytes(),
            valid_utf8(bs),
            n == bs.len(),
            seg <= i <= n,
            is_char_boundary(bs, seg as int),
            out@ + bs.subrange(seg as int, i as int) + unescape_quotes(bs.subrange(i as int, n as int))
                == unescape_quotes(bs),
            valid_utf8(out@),
        decreases n - i,
    {
        proof {
            lemma_unescape_step(bs, i as int);
        }
        if b[i] == QUOTE && i + 1 < n && b[i + 1] == QUOTE {
            proof {
                lemma_ascii_boundaries(bs, i as int);
                lemma_ascii_boundaries(bs, i + 1);
            }
            let ghost before = out@;
            push_text(&mut out, substr(s, seg, i));
            push_ascii(&mut out, QUOTE);
            proof {
                assert(out@ + bs.subrange(i + 2, i + 2) + unescape_quotes(bs.subrange(i + 2, n as int)) =~= before
                    + bs.subrange(seg as int, i as int) + unescape_quotes(bs.subrange(i as int, n as int)));
            }
            seg = i + 2;
            i = i + 2;
        } else {
            proof {
                assert(out@ + bs.subrange(seg as int, i + 1) + unescape_quotes(bs.subrange(i + 1, n as int)) =~= out@
                    + bs.subrange(seg as int, i as int) + unescape_quotes(bs.subrange(i as int, n as int)));
            }
            i = i + 1;
        }
    }
    proof {
        assert(bs.subrange(n as int, n as int) =~= Seq::<u8>::empty());
        assert(out@ + bs.subrange(seg as int, n as int) =~= unescape_quotes(bs));
    }
    push_text(&mut out, substr(s, seg, n));
    string_from_utf8(out)
}

impl Cell {
    /// The decoded value: padding trimmed, quotes stripped, `""`
    /// unescaped.
    pub fn value(&self, text: &str) -> (r: String)
        requires
            self.content_span.start <= self.content_span.end <= text.spec_bytes().len(),
            is_char_boundary(text.spec_bytes(), self.content_span.start as int),
            is_char_boundary(text.spec_bytes(), self.content_span.end as int),
        ensures
            string_bytes(r) == cell_value(text.spec_bytes(), *self),
    {
        let content = self.content_span.slice(text);
        match self.quoting {
            Quoting::Unquoted => to_owned_string(content),
            Quoting::Quoted => {
                let cb = content.as_bytes();
                let n = cb.len();
                proof {
                    encode_utf8_valid_utf8(content@);
                    is_char_boundary_start_end_of_seq(cb@);
                }
                let start: usize = if n > 0 && cb[0] == QUOTE {
                    proof {
                        lemma_ascii_boundaries(cb@, 0);
                    }
                    1
                } else {
                    0
                };
                let end: usize = if n > start && cb[n - 1] == QUOTE {
                    proof {
                        lemma_ascii_boundaries(cb@, n - 1);
                    }
                    n - 1
                } else {
                    n
                };
                let inner = substr(content, start, end);
                proof {
                    let c = cb@;
                    let i1 = if c.len() > 0 && c[0] == QUOTE {
                        c.drop_first()
                    } else {
                        c
                    };
                    assert(i1 =~= c.subrange(start as int, n as int));
                    assert(strip_quotes(c) =~= c.subrange(start as int, end as int));
                }
                if self.has_escaped_quotes {
                    replace_doubled_quotes(inner)
                } else {
                    to_owned_string(inner)
                }
            },
        }
    }
}

/// A parsed row. The span excludes the row terminator but may cover several
/// editor lines (multi-line quoted cells).
#[derive(Debug, Clone, PartialEq, Eq)]
pub struct Row {
    /// From the first cell's start to the last cell's end.
    pub span: Span,
    /// The row's cells, in order; never empty.
    pub cells: Vec<Cell>,
}

/// A row as a mathematical value.
pub struct RowView {
    /// The row's span.
    pub span: Span,
    /// The row's cells.
    pub cells: Seq<Cell>,
}

impl View for Row {
    type V = RowView;

    open spec fn view(&self) -> RowView {
        RowView { span: self.span, cells: self.cells@ }
    }
}

/// A blank row: exactly one unquoted cell with empty content.
pub open spec fn row_is_blank(r: RowView) -> bool {
    &&& r.cells.len() == 1
    &&& r.cells[0].quoting == Quoting::Unquoted
    &&& r.cells[0].content_span.start == r.cells[0].content_span.end
}

impl Row {
    /// A blank row (empty line or spaces only): exactly one unquoted cell
    /// with empty content. Blank rows are separators.
    pub fn is_blank(&self) -> (r: bool)
        ensures
            r == row_is_blank(self@),
    {
        self.cells.len() == 1 && self.cells[0].quoting == Quoting::Unquoted
            && self.cells[0].content_span.is_empty()
    }
}

/// The parse result: always produced, never fails.
#[derive(Debug, Clone, PartialEq, Eq)]
pub struct Table {
    /// All rows, blank ones included.
    pub rows: Vec<Row>,
    /// Recovered problems, in source order.
    pub errors: Vec<ParseError>,
    /// The dialect the text was parsed under.
    pub dialect: Dialect,
    /// First row terminator seen (`Lf` for files without terminators).
    pub line_terminator: LineTerminator,
    /// Whether the text starts with a UTF-8 byte-order mark.
    pub has_bom: bool,
    /// Whether the text ends with a row terminator.
    pub ends_with_newline: bool,
}

/// A table as a mathematical value.
pub struct TableView {
    /// The rows.
    pub rows: Seq<RowView>,
    /// The recovered errors.
    pub errors: Seq<ParseError>,
    /// The dialect.
    pub dialect: Dialect,
    /// The first terminator.
    pub line_terminator: LineTerminator,
    /// Whether a BOM leads the text.
    pub has_bom: bool,
    /// Whether a terminator ends the text.
    pub ends_with_newline: bool,
}

impl View for Table {
    type V = TableView;

    open spec fn view(&self) -> TableView {
        TableView {
            rows: self.rows@.map_values(|r: Row| r@),
            errors: self.errors@,
            dialect: self.dialect,
            line_terminator: self.line_terminator,
            has_bom: self.has_bom,
            ends_with_newline: self.ends_with_newline,
        }
    }
}

/// Index of the first non-blank row.
pub open spec fn first_nonblank(rows: Seq<RowView>, i: int) -> Option<int>
    decreases rows.len() - i,
{
    if i < 0 || i >= rows.len() {
        None
    } else if !row_is_blank(rows[i]) {
        Some(i)
    } else {
        first_nonblank(rows, i + 1)
    }
}

/// Index of the last row (among the first `n`) starting at or before
/// `offset`.
pub open spec fn last_row_starting_by(rows: Seq<RowView>, n: int, offset: int) -> Option<int>
    decreases n,
{
    if n <= 0 || n > rows.len() {
        None
    } else if rows[n - 1].span.start <= offset {
        Some(n - 1)
    } else {
        last_row_starting_by(rows, n - 1, offset)
    }
}

/// Index of the last cell (among the first `n`) starting at or before
/// `offset`.
pub open spec fn last_cell_starting_by(cells: Seq<Cell>, n: int, offset: int) -> Option<int>
    decreases n,
{
    if n <= 0 || n > cells.len() {
        None
    } else if cells[n - 1].span.start <= offset {
        Some(n - 1)
    } else {
        last_cell_starting_by(cells, n - 1, offset)
    }
}

/// The row under `offset`, with an inclusive end.
pub open spec fn row_at_spec(t: TableView, offset: int) -> Option<int> {
    match last_row_starting_by(t.rows, t.rows.len() as int, offset) {
        Some(i) => if offset <= t.rows[i].span.end {
            Some(i)
        } else {
            None
        },
        None => None,
    }
}

/// The `(row, column)` under `offset`.
pub open spec fn cell_at_spec(t: TableView, offset: int) -> Option<(int, int)> {
    match row_at_spec(t, offset) {
        Some(r) => {
            let cells = t.rows[r].cells;
            match last_cell_starting_by(cells, cells.len() as int, offset) {
                Some(c) => if offset <= cells[c].span.end {
                    Some((r, c))
                } else {
                    None
                },
                None => None,
            }
        },
        None => None,
    }
}

proof fn lemma_last_row_starting_by(rows: Seq<RowView>, n: int, offset: int)
    ensures
        last_row_starting_by(rows, n, offset) matches Some(i) ==> 0 <= i < n <= rows.len(),
    decreases n,
{
    if 0 < n <= rows.len() && rows[n - 1].span.start > offset {
        lemma_last_row_starting_by(rows, n - 1, offset);
    }
}

proof fn lemma_last_cell_starting_by(cells: Seq<Cell>, n: int, offset: int)
    ensures
        last_cell_starting_by(cells, n, offset) matches Some(i) ==> 0 <= i < n <= cells.len()
            && cells[i].span.start <= offset,
    decreases n,
{
    if 0 < n <= cells.len() && cells[n - 1].span.start > offset {
        lemma_last_cell_starting_by(cells, n - 1, offset);
    }
}

/// The first non-blank row from `i` on is at or after `i` and not blank.
pub proof fn lemma_first_nonblank(rows: Seq<RowView>, i: int)
    ensures
        first_nonblank(rows, i) matches Some(k) ==> 0 <= i <= k < rows.len() && !row_is_blank(
            rows[k],
        ),
    decreases rows.len() - i,
{
    if 0 <= i < rows.len() && row_is_blank(rows[i]) {
        lemma_first_nonblank(rows, i + 1);
    }
}

impl Table {
    /// The header: the first non-blank row.
    pub fn header(&self) -> (r: Option<&Row>)
        ensures
            match first_nonblank(self@.rows, 0) {
                Some(i) => r matches Some(row) && row@ == self@.rows[i],
                None => r is None,
            },
    {
        proof {
            lemma_first_nonblank(self@.rows, 0);
        }
        match self.header_index() {
            Some(i) => {
                let row = &self.rows[i];
                assert(self@.rows[i as int] == row@);
                assert(first_nonblank(self@.rows, 0) == Some(i as int));
                Some(row)
            },
            None => None,
        }
    }

    /// Index of the header row within `rows`.
    pub fn header_index(&self) -> (r: Option<usize>)
        ensures
            match first_nonblank(self@.rows, 0) {
                Some(i) => r == Some(i as usize) && 0 <= i < self.rows@.len(),
                None => r is None,
            },
            r matches Some(k) ==> first_nonblank(self@.rows, 0) == Some(k as int),
    {
        proof {
            lemma_first_nonblank(self@.rows, 0);
        }
        let mut i: usize = 0;
        while i < self.rows.len()
            invariant
                i <= self.rows@.len(),
                first_nonblank(self@.rows, 0) == first_nonblank(self@.rows, i as int),
            decreases self.rows@.len() - i,
        {
            if !self.rows[i].is_blank() {
                return Some(i);
            }
            i = i + 1;
        }
        None
    }

    /// The expected column count (the header's cell count).
    pub fn expected_columns(&self) -> (r: Option<usize>)
        ensures
            match first_nonblank(self@.rows, 0) {
                Some(i) => r == Some(self@.rows[i].cells.len() as usize),
                None => r is None,
            },
    {
        match self.header() {
            Some(row) => Some(row.cells.len()),
            None => None,
        }
    }

    /// The row under `offset`, with an inclusive end: a cursor at the end
    /// of a row (on its terminator) still belongs to it.
    pub fn row_at(&self, offset: usize) -> (r: Option<usize>)
        ensures
            match row_at_spec(self@, offset as int) {
                Some(i) => r == Some(i as usize),
                None => r is None,
            },
            r matches Some(k) ==> row_at_spec(self@, offset as int) == Some(k as int) && k
                < self.rows@.len(),
    {
        proof {
            lemma_last_row_starting_by(self@.rows, self@.rows.len() as int, offset as int);
        }
        let mut n = self.rows.len();
        while n > 0
            invariant
                n <= self.rows@.len(),
                last_row_starting_by(self@.rows, self@.rows.len() as int, offset as int)
                    == last_row_starting_by(self@.rows, n as int, offset as int),
            decreases n,
        {
            if self.rows[n - 1].span.start <= offset {
                if offset <= self.rows[n - 1].span.end {
                    return Some(n - 1);
                } else {
                    return None;
                }
            }
            n = n - 1;
        }
        None
    }

    /// The `(row, column)` under `offset`. A cursor on a delimiter resolves
    /// to the cell left of it; a cursor at the row end to the last cell.
    pub fn cell_at(&self, offset: usize) -> (r: Option<(usize, usize)>)
        ensures
            match cell_at_spec(self@, offset as int) {
                Some((i, j)) => r == Some((i as usize, j as usize)),
                None => r is None,
            },
            r matches Some((i, j)) ==> cell_at_spec(self@, offset as int) == Some(
                (i as int, j as int),
            ) && i < self.rows@.len() && j < self.rows@[i as int].cells@.len(),
    {
        let row_index = match self.row_at(offset) {
            Some(i) => i,
            None => return None,
        };
        proof {
            lemma_last_row_starting_by(self@.rows, self@.rows.len() as int, offset as int);
        }
        let cells = &self.rows[row_index].cells;
        assert(cells@ == self@.rows[row_index as int].cells);
        proof {
            lemma_last_cell_starting_by(cells@, cells@.len() as int, offset as int);
        }
        let mut n = cells.len();
        while n > 0
            invariant
                n <= cells@.len(),
                row_index < self.rows@.len(),
                row_at_spec(self@, offset as int) == Some(row_index as int),
                cells@ == self@.rows[row_index as int].cells,
                last_cell_starting_by(cells@, cells@.len() as int, offset as int)
                    == last_cell_starting_by(cells@, n as int, offset as int),
            decreases n,
        {
            if cells[n - 1].span.start <= offset {
                if offset <= cells[n - 1].span.end {
                    assert(last_cell_starting_by(cells@, n as int, offset as int) == Some(
                        n - 1,
                    ));
                    assert(row_at_spec(self@, offset as int) == Some(row_index as int));
                    assert(self@.rows[row_index as int].cells == cells@);
                    return Some((row_index, n - 1));
                } else {
                    return None;
                }
            }
            n = n - 1;
        }
        None
    }
}

/// Parse `text` under `dialect`. Total: never fails, never panics.
#[verifier::spinoff_prover]
#[verifier::rlimit(40)]
pub fn parse(text: &str, dialect: Dialect) -> (t: Table)
    ensures
        t@ == spec_parse(text.spec_bytes(), dialect),
{
    let b = text.as_bytes();
    let n = b.len();
    let d = dialect.delimiter();
    let has_bom = n >= 3 && b[0] == 0xEFu8 && b[1] == 0xBBu8 && b[2] == 0xBFu8;
    let start: usize = if has_bom {
        3
    } else {
        0
    };
    assert(has_bom == has_bom_bytes(b@));
    assert(start == body_start(b@));
    let mut pos = start;
    let mut rows: Vec<Row> = Vec::new();
    let mut errors: Vec<ParseError> = Vec::new();
    let mut line_terminator: Option<LineTerminator> = None;
    let mut ends_with_newline = false;
    let ghost full = parse_rows(b@, d, start as int, 0, None, false);
    while pos < n
        invariant
            n == b@.len(),
            b@ == text.spec_bytes(),
            d == delimiter_of(dialect),
            start <= pos <= n,
            full == parse_rows(b@, d, start as int, 0, None, false),
            ({
                let rest = parse_rows(
                    b@,
                    d,
                    pos as int,
                    rows@.len() as int,
                    line_terminator,
                    ends_with_newline,
                );
                &&& full.0 == rows@.map_values(|r: Row| r@) + rest.0
                &&& full.1 == errors@ + rest.1
                &&& full.2 == rest.2
                &&& full.3 == rest.3
            }),
        decreases n - pos,
    {
        let ghost idx = rows@.len() as int;
        let ghost errors_before = errors@;
        proof {
            lemma_rows_step(b@, d, pos as int, idx, line_terminator, ends_with_newline);
            lemma_parse_cells(b@, d, pos as int, idx);
        }
        let (cells, end) = parse_row(b, d, pos, rows.len(), &mut errors);
        let span = Span { start: pos, end };
        let mut next = end;
        let mut kind: Option<LineTerminator> = None;
        if end < n && b[end] == LF {
            next = end + 1;
            kind = Some(LineTerminator::Lf);
        } else if end < n && b[end] == CR {
            if end + 1 < n && b[end + 1] == LF {
                next = end + 2;
                kind = Some(LineTerminator::CrLf);
            } else {
                next = end + 1;
                kind = Some(LineTerminator::Lf);
            }
        }
        assert(next == end + terminator_len(b@, end as int));
        assert(kind == terminator_kind(b@, end as int));
        if line_terminator.is_none() {
            line_terminator = kind;
        }
        ends_with_newline = kind.is_some() && next == n;
        let row = Row { span, cells };
        let ghost old_view = rows@.map_values(|r: Row| r@);
        rows.push(row);
        proof {
            assert(rows@.map_values(|r: Row| r@) =~= old_view.push(row@));
            assert(old_view.push(row@) + parse_rows(
                b@,
                d,
                next as int,
                rows@.len() as int,
                line_terminator,
                ends_with_newline,
            ).0 =~= old_view + (seq![row@] + parse_rows(
                b@,
                d,
                next as int,
                rows@.len() as int,
                line_terminator,
                ends_with_newline,
            ).0));
            assert(errors_before + (parse_cells(b@, d, pos as int, idx).2 + parse_rows(
                b@,
                d,
                next as int,
                rows@.len() as int,
                line_terminator,
                ends_with_newline,
            ).1) =~= errors@ + parse_rows(
                b@,
                d,
                next as int,
                rows@.len() as int,
                line_terminator,
                ends_with_newline,
            ).1);
        }
        pos = next;
    }
    proof {
        lemma_rows_done(b@, d, pos as int, rows@.len() as int, line_terminator, ends_with_newline);
        assert(rows@.map_values(|r: Row| r@) + Seq::<RowView>::empty() =~= rows@.map_values(
            |r: Row| r@,
        ));
        assert(errors@ + Seq::<ParseError>::empty() =~= errors@);
    }
    Table {
        rows,
        errors,
        dialect,
        line_terminator: match line_terminator {
            Some(t) => t,
            None => LineTerminator::Lf,
        },
        has_bom,
        ends_with_newline,
    }
}

/// The first non-space position at or after `p`.
fn skip_padding(b: &[u8], p: usize) -> (r: usize)
    requires
        p <= b@.len(),
    ensures
        r == skip_spaces(b@, p as int),
        p <= r <= b@.len(),
{
    let mut i = p;
    while i < b.len() && b[i] == SPACE
        invariant
            p <= i <= b@.len(),
            skip_spaces(b@, p as int) == skip_spaces(b@, i as int),
        decreases b@.len() - i,
    {
        i = i + 1;
    }
    i
}

/// The cells of the row starting at `s` (row number `row`) and the row's
/// end; the row's errors are appended to `errors`.
fn parse_row(b: &[u8], d: u8, s: usize, row: usize, errors: &mut Vec<ParseError>) -> (r: (
    Vec<Cell>,
    usize,
))
    requires
        s <= b@.len(),
    ensures
        ({
            let spec = parse_cells(b@, d, s as int, row as int);
            &&& r.0@ == spec.0
            &&& r.1 == spec.1
            &&& final(errors)@ == old(errors)@ + spec.2
        }),
{
    let ghost full = parse_cells(b@, d, s as int, row as int);
    let ghost errors0 = errors@;
    let mut cells: Vec<Cell> = Vec::new();
    let mut pos = s;
    let n = b.len();
    loop
        invariant
            n == b@.len(),
            s <= pos <= b@.len(),
            errors0 == old(errors)@,
            full == parse_cells(b@, d, s as int, row as int),
            ({
                let rest = parse_cells(b@, d, pos as int, row as int);
                &&& full.0 == cells@ + rest.0
                &&& full.1 == rest.1
                &&& errors0 + full.2 == errors@ + rest.2
            }),
        decreases b@.len() - pos,
    {
        let ghost rest = parse_cells(b@, d, pos as int, row as int);
        let ghost errors_before = errors@;
        let (cell, delimited, stop) = parse_one_cell(b, d, pos, row, errors);
        proof {
            lemma_parse_cell(b@, d, pos as int, row as int);
            lemma_cells_step(b@, d, pos as int, row as int);
        }
        let ghost old_cells = cells@;
        cells.push(cell);
        if delimited {
            proof {
                let tail = parse_cells(b@, d, stop + 1, row as int);
                assert(rest.0 =~= seq![cell] + tail.0);
                assert(full.0 =~= cells@ + tail.0);
                assert(errors0 + full.2 =~= errors@ + tail.2);
            }
            pos = stop + 1;
        } else {
            proof {
                assert(rest.0 =~= seq![cell]);
                assert(full.0 =~= cells@);
                assert(full.1 == stop);
                assert(errors0 + full.2 =~= errors@);
            }
            return (cells, stop);
        }
    }
}

/// The cell starting at `s`: the cell, whether a delimiter follows, and
/// where it stopped; its errors are appended to `errors`.
fn parse_one_cell(b: &[u8], d: u8, s: usize, row: usize, errors: &mut Vec<ParseError>) -> (r: (
    Cell,
    bool,
    usize,
))
    requires
        s <= b@.len(),
    ensures
        ({
            let spec = parse_cell(b@, d, s as int, row as int);
            &&& r.0 == spec.0
            &&& r.1 == spec.1
            &&& r.2 == spec.2
            &&& final(errors)@ == old(errors)@ + spec.3
        }),
{
    reveal(parse_cell);
    let n = b.len();
    let c = skip_padding(b, s);
    if c < n && b[c] == QUOTE {
        return parse_quoted_cell(b, d, s, c, row, errors);
    }
    let ghost errors0 = errors@;
    let mut pos = c;
    let mut content_end = c;
    while pos < n && b[pos] != LF && b[pos] != CR && b[pos] != d
        invariant
            n == b@.len(),
            c == skip_spaces(b@, s as int),
            s <= c <= content_end <= pos <= n,
            cell_stop(b@, d, c as int) == cell_stop(b@, d, pos as int),
            content_end == trim_end(b@, c as int, pos as int),
            errors@ == errors0 + stray_quotes(b@, c as int, pos as int, row as int),
        decreases n - pos,
    {
        if b[pos] == QUOTE {
            errors.push(
                ParseError {
                    kind: ParseErrorKind::StrayQuote,
                    span: Span { start: pos, end: pos + 1 },
                    row,
                },
            );
            pos = pos + 1;
            content_end = pos;
        } else if b[pos] == SPACE {
            pos = pos + 1;
        } else {
            pos = pos + 1;
            content_end = pos;
        }
    }
    let content_span = if content_end > c {
        Span { start: c, end: content_end }
    } else {
        Span { start: s, end: s }
    };
    let cell = Cell {
        span: Span { start: s, end: pos },
        content_span,
        quoting: Quoting::Unquoted,
        has_escaped_quotes: false,
    };
    (cell, pos < n && b[pos] == d, pos)
}

/// A quoted cell starting at `s` whose opening quote sits at `c`.
fn parse_quoted_cell(
    b: &[u8],
    d: u8,
    s: usize,
    c: usize,
    row: usize,
    errors: &mut Vec<ParseError>,
) -> (r: (Cell, bool, usize))
    requires
        s <= c < b@.len(),
        c == skip_spaces(b@, s as int),
        b@[c as int] == QUOTE,
    ensures
        ({
            let spec = parse_cell(b@, d, s as int, row as int);
            &&& r.0 == spec.0
            &&& r.1 == spec.1
            &&& r.2 == spec.2
            &&& final(errors)@ == old(errors)@ + spec.3
        }),
{
    reveal(parse_cell);
    let n = b.len();
    let ghost errors0 = errors@;
    let mut pos = c + 1;
    let mut escaped = false;
    let mut closed = false;
    while !closed && pos < n
        invariant
            n == b@.len(),
            c + 1 <= pos <= n,
            closed ==> quoted_scan(b@, c + 1) == (pos as int, true, escaped),
            !closed ==> ({
                let q = quoted_scan(b@, pos as int);
                quoted_scan(b@, c + 1) == (q.0, q.1, escaped || q.2)
            }),
        decreases n - pos,
    {
        if b[pos] == QUOTE {
            if pos + 1 < n && b[pos + 1] == QUOTE {
                escaped = true;
                pos = pos + 2;
            } else {
                pos = pos + 1;
                closed = true;
            }
        } else {
            pos = pos + 1;
        }
    }
    if !closed {
        errors.push(
            ParseError {
                kind: ParseErrorKind::UnclosedQuote,
                span: Span { start: c, end: c + 1 },
                row,
            },
        );
    }
    let close = pos;
    proof {
        lemma_quoted_scan(b@, c + 1);
    }
    assert(quoted_scan(b@, c + 1) == (close as int, closed, escaped));
    let mut has_garbage = false;
    let mut garbage_start: usize = 0;
    let mut garbage_end: usize = 0;
    while pos < n && b[pos] != LF && b[pos] != CR && b[pos] != d
        invariant
            n == b@.len(),
            close <= pos <= n,
            cell_stop(b@, d, close as int) == cell_stop(b@, d, pos as int),
            !has_garbage ==> skip_spaces(b@, close as int) == skip_spaces(b@, pos as int),
            has_garbage ==> garbage_start == skip_spaces(b@, close as int) && close
                <= garbage_start < pos && garbage_end == trim_end(
                b@,
                garbage_start as int,
                pos as int,
            ),
        decreases n - pos,
    {
        if b[pos] == SPACE {
            pos = pos + 1;
        } else {
            if !has_garbage {
                has_garbage = true;
                garbage_start = pos;
            }
            pos = pos + 1;
            garbage_end = pos;
        }
    }
    proof {
        lemma_skip_spaces(b@, pos as int);
    }
    if has_garbage {
        errors.push(
            ParseError {
                kind: ParseErrorKind::TextAfterClosingQuote,
                span: Span { start: garbage_start, end: garbage_end },
                row,
            },
        );
    }
    proof {
        let spec = parse_cell(b@, d, s as int, row as int);
        assert(errors@ =~= errors0 + spec.3);
    }
    let cell = Cell {
        span: Span { start: s, end: pos },
        content_span: Span { start: c, end: close },
        quoting: Quoting::Quoted,
        has_escaped_quotes: escaped,
    };
    (cell, pos < n && b[pos] == d, pos)
}


/// Cursor resolution is consistent: the cell found for an offset lies on
/// the row found for it, and its span holds the offset (inclusive end).
pub proof fn law_cell_at_sound(t: TableView, offset: int)
    ensures
        cell_at_spec(t, offset) matches Some((i, j)) ==> {
            &&& row_at_spec(t, offset) == Some(i)
            &&& 0 <= i < t.rows.len()
            &&& 0 <= j < t.rows[i].cells.len()
            &&& t.rows[i].cells[j].span.start <= offset <= t.rows[i].cells[j].span.end
        },
{
    lemma_last_row_starting_by(t.rows, t.rows.len() as int, offset);
    match row_at_spec(t, offset) {
        Some(r) => {
            let cells = t.rows[r].cells;
            lemma_last_cell_starting_by(cells, cells.len() as int, offset);
        },
        None => {},
    }
}

} // verus!
