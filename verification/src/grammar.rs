//! The parser's behaviour as spec functions over the bytes of the text:
//! how a cell, a row and a table are read, which problems are reported and
//! where. [`crate::parse::parse`] is proved to compute [`spec_parse`].

use vstd::prelude::*;

use crate::dialect::{delimiter_of, Dialect};
use crate::parse::{
    Cell, LineTerminator, ParseError, ParseErrorKind, Quoting, RowView, Span, TableView,
};

verus! {

/// The space byte (alignment padding).
pub const SPACE: u8 = 32u8;

/// The double-quote byte.
pub const QUOTE: u8 = 34u8;

/// The line-feed byte.
pub const LF: u8 = 10u8;

/// The carriage-return byte.
pub const CR: u8 = 13u8;

/// A row ends at a line break or at the end of the text.
pub open spec fn is_row_end(b: Seq<u8>, p: int) -> bool {
    p >= b.len() || b[p] == LF || b[p] == CR
}

/// A cell ends at a row end or at a delimiter.
pub open spec fn is_cell_end(b: Seq<u8>, d: u8, p: int) -> bool {
    is_row_end(b, p) || b[p] == d
}

/// The first non-space position at or after `p`.
pub open spec fn skip_spaces(b: Seq<u8>, p: int) -> int
    decreases b.len() - p,
{
    if 0 <= p < b.len() && b[p] == SPACE {
        skip_spaces(b, p + 1)
    } else {
        p
    }
}

/// The first cell end at or after `p`.
pub open spec fn cell_stop(b: Seq<u8>, d: u8, p: int) -> int
    decreases b.len() - p,
{
    if p < 0 || is_cell_end(b, d, p) {
        p
    } else {
        cell_stop(b, d, p + 1)
    }
}

/// The position after the last non-space byte of `b[lo..hi]`, or `lo` when
/// there is none.
pub open spec fn trim_end(b: Seq<u8>, lo: int, hi: int) -> int
    decreases hi - lo,
{
    if hi <= lo {
        lo
    } else if b[hi - 1] == SPACE {
        trim_end(b, lo, hi - 1)
    } else {
        hi
    }
}

/// Scans the inside of a quoted cell from `p`: the position after the
/// closing quote (the end of the text when there is none), whether a
/// closing quote was found, and whether a `""` escape was seen.
pub open spec fn quoted_scan(b: Seq<u8>, p: int) -> (int, bool, bool)
    decreases b.len() - p,
{
    if p < 0 || p >= b.len() {
        (b.len() as int, false, false)
    } else if b[p] == QUOTE {
        if p + 1 < b.len() && b[p + 1] == QUOTE {
            let r = quoted_scan(b, p + 2);
            (r.0, r.1, true)
        } else {
            (p + 1, true, false)
        }
    } else {
        quoted_scan(b, p + 1)
    }
}

/// A span from two offsets.
pub open spec fn span_of(s: int, e: int) -> Span {
    Span { start: s as usize, end: e as usize }
}

/// An error record.
pub open spec fn error_at(kind: ParseErrorKind, s: int, e: int, row: int) -> ParseError {
    ParseError { kind, span: span_of(s, e), row: row as usize }
}

/// One `StrayQuote` error per `"` in `b[lo..hi]`, in order.
pub open spec fn stray_quotes(b: Seq<u8>, lo: int, hi: int, row: int) -> Seq<ParseError>
    decreases hi - lo,
{
    if hi <= lo {
        seq![]
    } else {
        let prev = stray_quotes(b, lo, hi - 1, row);
        if b[hi - 1] == QUOTE {
            prev.push(error_at(ParseErrorKind::StrayQuote, hi - 1, hi, row))
        } else {
            prev
        }
    }
}

/// The cell starting at `s` of row `row`: the cell, whether a delimiter
/// follows it, the position where it stopped, and the errors it reports.
#[verifier::opaque]
pub open spec fn parse_cell(b: Seq<u8>, d: u8, s: int, row: int) -> (Cell, bool, int, Seq<ParseError>) {
    let c = skip_spaces(b, s);
    if 0 <= c < b.len() && b[c] == QUOTE {
        let q = quoted_scan(b, c + 1);
        let close = q.0;
        let e = cell_stop(b, d, close);
        let g = skip_spaces(b, close);
        let unclosed = if q.1 {
            Seq::<ParseError>::empty()
        } else {
            seq![error_at(ParseErrorKind::UnclosedQuote, c, c + 1, row)]
        };
        let garbage = if g < e {
            seq![error_at(ParseErrorKind::TextAfterClosingQuote, g, trim_end(b, g, e), row)]
        } else {
            Seq::<ParseError>::empty()
        };
        (
            Cell {
                span: span_of(s, e),
                content_span: span_of(c, close),
                quoting: Quoting::Quoted,
                has_escaped_quotes: q.2,
            },
            0 <= e < b.len() && b[e] == d,
            e,
            unclosed + garbage,
        )
    } else {
        let e = cell_stop(b, d, c);
        let ce = trim_end(b, c, e);
        (
            Cell {
                span: span_of(s, e),
                content_span: if ce > c {
                    span_of(c, ce)
                } else {
                    span_of(s, s)
                },
                quoting: Quoting::Unquoted,
                has_escaped_quotes: false,
            },
            0 <= e < b.len() && b[e] == d,
            e,
            stray_quotes(b, c, e, row),
        )
    }
}

/// The cells of the row starting at `s`, the row's end, and its errors.
#[verifier::opaque]
pub open spec fn parse_cells(b: Seq<u8>, d: u8, s: int, row: int) -> (Seq<Cell>, int, Seq<ParseError>)
    decreases b.len() - s,
{
    let r = parse_cell(b, d, s, row);
    if r.1 && s <= r.2 < b.len() {
        let rest = parse_cells(b, d, r.2 + 1, row);
        (seq![r.0] + rest.0, rest.1, r.3 + rest.2)
    } else {
        (seq![r.0], r.2, r.3)
    }
}

/// The length of the row terminator at `e` (0 when there is none).
pub open spec fn terminator_len(b: Seq<u8>, e: int) -> int {
    if 0 <= e < b.len() && b[e] == LF {
        1
    } else if 0 <= e < b.len() && b[e] == CR {
        if e + 1 < b.len() && b[e + 1] == LF {
            2
        } else {
            1
        }
    } else {
        0
    }
}

/// The kind of the row terminator at `e`.
pub open spec fn terminator_kind(b: Seq<u8>, e: int) -> Option<LineTerminator> {
    if terminator_len(b, e) == 2 {
        Some(LineTerminator::CrLf)
    } else if terminator_len(b, e) == 1 {
        Some(LineTerminator::Lf)
    } else {
        None
    }
}

/// The rows from `p` on, numbered from `idx`: the rows, their errors, the
/// first terminator seen (continuing from `lt`), and whether the text ends
/// with a terminator (continuing from `ewn`).
#[verifier::opaque]
pub open spec fn parse_rows(
    b: Seq<u8>,
    d: u8,
    p: int,
    idx: int,
    lt: Option<LineTerminator>,
    ewn: bool,
) -> (Seq<RowView>, Seq<ParseError>, Option<LineTerminator>, bool)
    decreases b.len() - p,
{
    if p < 0 || p >= b.len() {
        (seq![], seq![], lt, ewn)
    } else {
        let r = parse_cells(b, d, p, idx);
        let e = r.1;
        let t = terminator_len(b, e);
        let next = e + t;
        let lt2 = if lt is Some {
            lt
        } else {
            terminator_kind(b, e)
        };
        let ewn2 = t > 0 && next == b.len();
        let row = RowView { span: span_of(p, e), cells: r.0 };
        if p < next <= b.len() {
            let rest = parse_rows(b, d, next, idx + 1, lt2, ewn2);
            (seq![row] + rest.0, r.2 + rest.1, rest.2, rest.3)
        } else {
            (seq![row], r.2, lt2, ewn2)
        }
    }
}

/// Whether the text starts with the UTF-8 byte-order mark.
pub open spec fn has_bom_bytes(b: Seq<u8>) -> bool {
    b.len() >= 3 && b[0] == 0xEFu8 && b[1] == 0xBBu8 && b[2] == 0xBFu8
}

/// Where the first row starts: after the byte-order mark, if any.
pub open spec fn body_start(b: Seq<u8>) -> int {
    if has_bom_bytes(b) {
        3
    } else {
        0
    }
}

/// The table that parsing `b` under `dialect` produces.
pub open spec fn spec_parse(b: Seq<u8>, dialect: Dialect) -> TableView {
    let r = parse_rows(b, delimiter_of(dialect), body_start(b), 0, None, false);
    TableView {
        rows: r.0,
        errors: r.1,
        dialect,
        line_terminator: match r.2 {
            Some(t) => t,
            None => LineTerminator::Lf,
        },
        has_bom: has_bom_bytes(b),
        ends_with_newline: r.3,
    }
}

/// Positions only grow while skipping spaces.
pub proof fn lemma_skip_spaces(b: Seq<u8>, p: int)
    requires
        0 <= p <= b.len(),
    ensures
        p <= skip_spaces(b, p) <= b.len(),
        forall|k: int| p <= k < skip_spaces(b, p) ==> b[k] == SPACE,
        skip_spaces(b, p) < b.len() ==> b[skip_spaces(b, p)] != SPACE,
    decreases b.len() - p,
{
    if p < b.len() && b[p] == SPACE {
        lemma_skip_spaces(b, p + 1);
    }
}

/// A cell stops at a cell end, with no cell end before it.
pub proof fn lemma_cell_stop(b: Seq<u8>, d: u8, p: int)
    requires
        0 <= p <= b.len(),
    ensures
        p <= cell_stop(b, d, p) <= b.len(),
        is_cell_end(b, d, cell_stop(b, d, p)),
        forall|k: int| p <= k < cell_stop(b, d, p) ==> !is_cell_end(b, d, k),
    decreases b.len() - p,
{
    if !is_cell_end(b, d, p) {
        lemma_cell_stop(b, d, p + 1);
    }
}

/// Trimming stays within its range and stops after a non-space byte.
pub proof fn lemma_trim_end(b: Seq<u8>, lo: int, hi: int)
    requires
        0 <= lo <= hi <= b.len(),
    ensures
        lo <= trim_end(b, lo, hi) <= hi,
        trim_end(b, lo, hi) > lo ==> b[trim_end(b, lo, hi) - 1] != SPACE,
        forall|k: int| trim_end(b, lo, hi) <= k < hi ==> b[k] == SPACE,
    decreases hi - lo,
{
    if hi > lo && b[hi - 1] == SPACE {
        lemma_trim_end(b, lo, hi - 1);
    }
}

/// The quoted scan ends after its start, within the text, right after a
/// closing quote when one was found.
pub proof fn lemma_quoted_scan(b: Seq<u8>, p: int)
    requires
        0 <= p <= b.len(),
    ensures
        p <= quoted_scan(b, p).0 <= b.len(),
        quoted_scan(b, p).1 ==> p < quoted_scan(b, p).0 && b[quoted_scan(b, p).0 - 1] == QUOTE,
        !quoted_scan(b, p).1 ==> quoted_scan(b, p).0 == b.len(),
    decreases b.len() - p,
{
    if p < b.len() {
        if b[p] == QUOTE {
            if p + 1 < b.len() && b[p + 1] == QUOTE {
                lemma_quoted_scan(b, p + 2);
            }
        } else {
            lemma_quoted_scan(b, p + 1);
        }
    }
}

/// Where a cell starts and stops.
pub proof fn lemma_parse_cell(b: Seq<u8>, d: u8, s: int, row: int)
    requires
        0 <= s <= b.len(),
    ensures
        s <= parse_cell(b, d, s, row).2 <= b.len(),
        is_cell_end(b, d, parse_cell(b, d, s, row).2),
        parse_cell(b, d, s, row).1 <==> parse_cell(b, d, s, row).2 < b.len() && b[parse_cell(
            b,
            d,
            s,
            row,
        ).2] == d,
{
    reveal(parse_cell);
    let c = skip_spaces(b, s);
    lemma_skip_spaces(b, s);
    if 0 <= c < b.len() && b[c] == QUOTE {
        lemma_quoted_scan(b, c + 1);
        lemma_cell_stop(b, d, quoted_scan(b, c + 1).0);
    } else {
        lemma_cell_stop(b, d, c);
    }
}

/// A row stops at a row end.
pub proof fn lemma_parse_cells(b: Seq<u8>, d: u8, s: int, row: int)
    requires
        0 <= s <= b.len(),
    ensures
        s <= parse_cells(b, d, s, row).1 <= b.len(),
        parse_cells(b, d, s, row).1 < b.len() ==> b[parse_cells(b, d, s, row).1] == LF || b[parse_cells(
            b,
            d,
            s,
            row,
        ).1] == CR,
        parse_cells(b, d, s, row).0.len() >= 1,
    decreases b.len() - s,
{
    reveal(parse_cells);
    lemma_parse_cell(b, d, s, row);
    let r = parse_cell(b, d, s, row);
    if r.1 && s <= r.2 < b.len() {
        lemma_parse_cells(b, d, r.2 + 1, row);
    }
}

/// One step of reading rows: the row at `p`, then the rest.
pub proof fn lemma_rows_step(
    b: Seq<u8>,
    d: u8,
    p: int,
    idx: int,
    lt: Option<LineTerminator>,
    ewn: bool,
)
    requires
        0 <= p < b.len(),
    ensures
        ({
            let r = parse_cells(b, d, p, idx);
            let e = r.1;
            let next = e + terminator_len(b, e);
            let lt2 = if lt is Some {
                lt
            } else {
                terminator_kind(b, e)
            };
            let ewn2 = terminator_len(b, e) > 0 && next == b.len();
            let tail = parse_rows(b, d, next, idx + 1, lt2, ewn2);
            &&& p < next <= b.len()
            &&& parse_rows(b, d, p, idx, lt, ewn) == (
                seq![RowView { span: span_of(p, e), cells: r.0 }] + tail.0,
                r.2 + tail.1,
                tail.2,
                tail.3,
            )
        }),
{
    lemma_row_progress(b, d, p, idx);
    reveal(parse_rows);
}

/// Reading rows at the end of the text reads nothing.
pub proof fn lemma_rows_done(
    b: Seq<u8>,
    d: u8,
    p: int,
    idx: int,
    lt: Option<LineTerminator>,
    ewn: bool,
)
    requires
        p >= b.len(),
    ensures
        parse_rows(b, d, p, idx, lt, ewn) == (Seq::<RowView>::empty(), Seq::<ParseError>::empty(), lt, ewn),
{
    reveal(parse_rows);
}

/// One step of reading cells: the cell at `s`, then the rest of the row.
pub proof fn lemma_cells_step(b: Seq<u8>, d: u8, s: int, row: int)
    ensures
        ({
            let r = parse_cell(b, d, s, row);
            parse_cells(b, d, s, row) == if r.1 && s <= r.2 < b.len() {
                let rest = parse_cells(b, d, r.2 + 1, row);
                (seq![r.0] + rest.0, rest.1, r.3 + rest.2)
            } else {
                (seq![r.0], r.2, r.3)
            }
        }),
{
    reveal(parse_cells);
}

/// Each row consumes at least one byte.
pub proof fn lemma_row_progress(b: Seq<u8>, d: u8, p: int, idx: int)
    requires
        0 <= p < b.len(),
    ensures
        parse_cells(b, d, p, idx).1 + terminator_len(b, parse_cells(b, d, p, idx).1) > p,
        parse_cells(b, d, p, idx).1 + terminator_len(b, parse_cells(b, d, p, idx).1) <= b.len(),
{
    lemma_parse_cells(b, d, p, idx);
}

} // verus!
