//! What parsing rendered text gives back: the row structure, cell contents
//! and errors of the table that was rendered. From it follow the layout
//! laws: compacting undoes aligning, and both are idempotent.
//!
//! The first half shows that reading a row depends only on the row's own
//! bytes: the same bytes, ended the same way, read the same cells at
//! shifted offsets.

use vstd::prelude::*;

use crate::grammar::{
    has_bom_bytes,
    cell_stop, error_at, is_cell_end, is_row_end, lemma_cell_stop, lemma_cells_step, lemma_parse_cell, lemma_parse_cells,
    lemma_quoted_scan, lemma_skip_spaces, lemma_trim_end, parse_cell, parse_cells, quoted_scan,
    skip_spaces, span_of, stray_quotes, trim_end, CR, LF, QUOTE, SPACE, lemma_rows_step, lemma_rows_done,
    parse_rows, terminator_len, terminator_kind, body_start, spec_parse,
};
use crate::parse::{Cell, ParseError, ParseErrorKind, Span};
use crate::dialect::{delimiter_of, Dialect};
use crate::parse::{cell_value, row_is_blank, strip_quotes, unescape_quotes, terminator_bytes, LineTerminator, RowView, TableView};
use crate::render::{
    converted_text, clean_row, fits_column, measured_width, widths_cover, width_attained, aligned_text, compact_text, layout_options, layout_widths, starts_with_bom, cell_content, cells_text, contains_byte, double_quotes, encoded, error_row, padding, rendered, row_text, rows_text,
    spaces, QuotePolicy, RenderOptionsView,
};
use crate::text::bom_bytes;

verus! {

/// `b2[p2..p2 + n]` repeats `b1[p1..p1 + n]`.
pub open spec fn same_bytes(b1: Seq<u8>, p1: int, b2: Seq<u8>, p2: int, n: int) -> bool {
    &&& 0 <= n
    &&& 0 <= p1
    &&& p1 + n <= b1.len()
    &&& 0 <= p2
    &&& p2 + n <= b2.len()
    &&& forall|k: int| 0 <= k < n ==> #[trigger] b1[p1 + k] == b2[p2 + k]
}

/// Both texts end a row at these positions the same way: both at the end
/// of the text, or both at a line break.
pub open spec fn same_row_end(b1: Seq<u8>, q1: int, b2: Seq<u8>, q2: int) -> bool {
    ||| (q1 == b1.len() && q2 == b2.len())
    ||| (0 <= q1 < b1.len() && 0 <= q2 < b2.len() && (b1[q1] == CR || b1[q1] == LF) && (b2[q2]
        == CR || b2[q2] == LF))
}

/// The same row bytes, ended the same way.
pub open spec fn same_row(b1: Seq<u8>, p1: int, b2: Seq<u8>, p2: int, n: int) -> bool {
    same_bytes(b1, p1, b2, p2, n) && same_row_end(b1, p1 + n, b2, p2 + n)
}

/// A span moved by `delta` bytes.
pub open spec fn shift_span(sp: Span, delta: int) -> Span {
    span_of(sp.start + delta, sp.end + delta)
}

/// A cell moved by `delta` bytes.
pub open spec fn shift_cell(c: Cell, delta: int) -> Cell {
    Cell {
        span: shift_span(c.span, delta),
        content_span: shift_span(c.content_span, delta),
        quoting: c.quoting,
        has_escaped_quotes: c.has_escaped_quotes,
    }
}

/// An error moved by `delta` bytes.
pub open spec fn shift_error(e: ParseError, delta: int) -> ParseError {
    ParseError { kind: e.kind, span: shift_span(e.span, delta), row: e.row }
}

/// Cells moved by `delta` bytes.
pub open spec fn shift_cells(cs: Seq<Cell>, delta: int) -> Seq<Cell> {
    cs.map_values(|c: Cell| shift_cell(c, delta))
}

/// Errors moved by `delta` bytes.
pub open spec fn shift_errors(es: Seq<ParseError>, delta: int) -> Seq<ParseError> {
    es.map_values(|e: ParseError| shift_error(e, delta))
}

/// The window's bytes agree, and at its end both texts end a row: every
/// position of the window (its end included) is read alike.
proof fn lemma_window_alike(b1: Seq<u8>, p1: int, b2: Seq<u8>, p2: int, n: int, x: int, d: u8)
    requires
        same_row(b1, p1, b2, p2, n),
        p1 <= x <= p1 + n,
        d != CR,
        d != LF,
    ensures
        is_cell_end(b1, d, x) == is_cell_end(b2, d, x + (p2 - p1)),
        (0 <= x < b1.len() && b1[x] == SPACE) == (0 <= x + (p2 - p1) < b2.len() && b2[x + (p2 - p1)]
            == SPACE),
        (0 <= x < b1.len() && b1[x] == QUOTE) == (0 <= x + (p2 - p1) < b2.len() && b2[x + (p2 - p1)]
            == QUOTE),
        (0 <= x < b1.len() && b1[x] == d) == (0 <= x + (p2 - p1) < b2.len() && b2[x + (p2 - p1)]
            == d),
{
    if x < p1 + n {
        assert(b1[p1 + (x - p1)] == b2[p2 + (x - p1)]);
    }
}

/// Skipping spaces reads alike.
proof fn lemma_skip_local(b1: Seq<u8>, p1: int, b2: Seq<u8>, p2: int, n: int, x: int)
    requires
        same_row(b1, p1, b2, p2, n),
        p1 <= x <= p1 + n,
    ensures
        skip_spaces(b2, x + (p2 - p1)) == skip_spaces(b1, x) + (p2 - p1),
        skip_spaces(b1, x) <= p1 + n,
    decreases p1 + n - x,
{
    lemma_window_alike(b1, p1, b2, p2, n, x, 44u8);
    if 0 <= x < b1.len() && b1[x] == SPACE {
        lemma_skip_local(b1, p1, b2, p2, n, x + 1);
    }
}

/// Finding the end of a cell reads alike.
proof fn lemma_stop_local(b1: Seq<u8>, p1: int, b2: Seq<u8>, p2: int, n: int, x: int, d: u8)
    requires
        same_row(b1, p1, b2, p2, n),
        p1 <= x <= p1 + n,
        d != CR,
        d != LF,
    ensures
        cell_stop(b2, d, x + (p2 - p1)) == cell_stop(b1, d, x) + (p2 - p1),
        cell_stop(b1, d, x) <= p1 + n,
    decreases p1 + n - x,
{
    lemma_window_alike(b1, p1, b2, p2, n, x, d);
    if !is_cell_end(b1, d, x) {
        lemma_stop_local(b1, p1, b2, p2, n, x + 1, d);
    }
}

/// Trimming trailing spaces reads alike.
proof fn lemma_trim_local(b1: Seq<u8>, p1: int, b2: Seq<u8>, p2: int, n: int, lo: int, hi: int)
    requires
        same_bytes(b1, p1, b2, p2, n),
        p1 <= lo <= hi <= p1 + n,
    ensures
        trim_end(b2, lo + (p2 - p1), hi + (p2 - p1)) == trim_end(b1, lo, hi) + (p2 - p1),
    decreases hi - lo,
{
    if hi > lo {
        assert(b1[p1 + (hi - 1 - p1)] == b2[p2 + (hi - 1 - p1)]);
        if b1[hi - 1] == SPACE {
            lemma_trim_local(b1, p1, b2, p2, n, lo, hi - 1);
        }
    }
}

/// A span of offsets within the texts moves as its offsets do.
proof fn lemma_shift_span_of(s: int, e: int, delta: int)
    requires
        0 <= s <= usize::MAX,
        0 <= e <= usize::MAX,
        0 <= s + delta <= usize::MAX,
        0 <= e + delta <= usize::MAX,
    ensures
        shift_span(span_of(s, e), delta) == span_of(s + delta, e + delta),
{
}

/// Shifting distributes over concatenation.
proof fn lemma_shift_errors_cat(a: Seq<ParseError>, b: Seq<ParseError>, delta: int)
    ensures
        shift_errors(a + b, delta) == shift_errors(a, delta) + shift_errors(b, delta),
{
    assert(shift_errors(a + b, delta) =~= shift_errors(a, delta) + shift_errors(b, delta));
}

/// Stray-quote errors read alike, moved.
proof fn lemma_stray_local(
    b1: Seq<u8>,
    p1: int,
    b2: Seq<u8>,
    p2: int,
    n: int,
    lo: int,
    hi: int,
    row: int,
)
    requires
        same_bytes(b1, p1, b2, p2, n),
        p1 <= lo <= hi <= p1 + n,
        b1.len() <= usize::MAX,
        b2.len() <= usize::MAX,
    ensures
        stray_quotes(b2, lo + (p2 - p1), hi + (p2 - p1), row) == shift_errors(
            stray_quotes(b1, lo, hi, row),
            p2 - p1,
        ),
    decreases hi - lo,
{
    let delta = p2 - p1;
    if hi <= lo {
        assert(shift_errors(Seq::<ParseError>::empty(), delta) =~= Seq::<ParseError>::empty());
    } else {
        lemma_stray_local(b1, p1, b2, p2, n, lo, hi - 1, row);
        assert(b1[p1 + (hi - 1 - p1)] == b2[p2 + (hi - 1 - p1)]);
        let prev = stray_quotes(b1, lo, hi - 1, row);
        if b1[hi - 1] == QUOTE {
            let e = error_at(ParseErrorKind::StrayQuote, hi - 1, hi, row);
            lemma_shift_span_of(hi - 1, hi, delta);
            assert(shift_errors(prev.push(e), delta) =~= shift_errors(prev, delta).push(
                shift_error(e, delta),
            ));
        }
    }
}

/// The quoted scan stops right after a closing quote that is not followed
/// by another quote.
proof fn lemma_scan_close(b: Seq<u8>, p: int)
    requires
        0 <= p <= b.len(),
    ensures
        quoted_scan(b, p).0 < b.len() ==> b[quoted_scan(b, p).0] != QUOTE,
    decreases b.len() - p,
{
    if p < b.len() {
        if b[p] == QUOTE {
            if p + 1 < b.len() && b[p + 1] == QUOTE {
                lemma_scan_close(b, p + 2);
            }
        } else {
            lemma_scan_close(b, p + 1);
        }
    }
}

/// Scanning a quoted cell's inside reads alike when the scan ends within
/// the window and no quote follows the window; an unclosed scan needs
/// both windows to run to the end of their texts.
pub proof fn lemma_scan_local(b1: Seq<u8>, p1: int, b2: Seq<u8>, p2: int, n: int, x: int)
    requires
        same_bytes(b1, p1, b2, p2, n),
        p1 <= x <= p1 + n,
        quoted_scan(b1, x).0 <= p1 + n,
        p1 + n < b1.len() ==> b1[p1 + n] != QUOTE,
        p2 + n < b2.len() ==> b2[p2 + n] != QUOTE,
        !quoted_scan(b1, x).1 ==> p2 + n == b2.len(),
    ensures
        quoted_scan(b2, x + (p2 - p1)) == (
            quoted_scan(b1, x).0 + (p2 - p1),
            quoted_scan(b1, x).1,
            quoted_scan(b1, x).2,
        ),
    decreases b1.len() - x,
{
    let delta = p2 - p1;
    lemma_quoted_scan(b1, x);
    if x >= b1.len() {
    } else if b1[x] == QUOTE {
        assert(x < p1 + n);
        assert(b1[p1 + (x - p1)] == b2[p2 + (x - p1)]);
        if x + 1 < b1.len() && b1[x + 1] == QUOTE {
            lemma_quoted_scan(b1, x + 2);
            assert(b1[p1 + (x + 1 - p1)] == b2[p2 + (x + 1 - p1)]);
            lemma_scan_local(b1, p1, b2, p2, n, x + 2);
        } else {
            if x + 1 < p1 + n {
                assert(b1[p1 + (x + 1 - p1)] == b2[p2 + (x + 1 - p1)]);
            }
        }
    } else {
        lemma_quoted_scan(b1, x + 1);
        assert(x < p1 + n);
        assert(b1[p1 + (x - p1)] == b2[p2 + (x - p1)]);
        lemma_scan_local(b1, p1, b2, p2, n, x + 1);
    }
}

/// A shifted singleton or empty error list.
proof fn lemma_shift_errors_small(es: Seq<ParseError>, delta: int)
    requires
        es.len() <= 1,
    ensures
        es.len() == 0 ==> shift_errors(es, delta) == Seq::<ParseError>::empty(),
        es.len() == 1 ==> shift_errors(es, delta) == seq![shift_error(es[0], delta)],
{
    if es.len() == 0 {
        assert(shift_errors(es, delta) =~= Seq::<ParseError>::empty());
    } else {
        assert(shift_errors(es, delta) =~= seq![shift_error(es[0], delta)]);
    }
}

/// Reading one cell reads alike, moved, when the cell ends within the
/// window.
pub proof fn lemma_cell_local(
    b1: Seq<u8>,
    p1: int,
    b2: Seq<u8>,
    p2: int,
    n: int,
    s: int,
    d: u8,
    row: int,
)
    requires
        same_row(b1, p1, b2, p2, n),
        p1 <= s <= p1 + n,
        parse_cell(b1, d, s, row).2 <= p1 + n,
        d != CR,
        d != LF,
        d != SPACE,
        d != QUOTE,
        b1.len() <= usize::MAX,
        b2.len() <= usize::MAX,
    ensures
        ({
            let r = parse_cell(b1, d, s, row);
            parse_cell(b2, d, s + (p2 - p1), row) == (
                shift_cell(r.0, p2 - p1),
                r.1,
                r.2 + (p2 - p1),
                shift_errors(r.3, p2 - p1),
            )
        }),
{
    reveal(parse_cell);
    let delta = p2 - p1;
    let r = parse_cell(b1, d, s, row);
    let c = skip_spaces(b1, s);
    lemma_skip_spaces(b1, s);
    lemma_skip_local(b1, p1, b2, p2, n, s);
    lemma_window_alike(b1, p1, b2, p2, n, c, d);
    if 0 <= c < b1.len() && b1[c] == QUOTE {
        assert(c < p1 + n);
        let q = quoted_scan(b1, c + 1);
        lemma_quoted_scan(b1, c + 1);
        let close = q.0;
        let e = cell_stop(b1, d, close);
        lemma_cell_stop(b1, d, close);
        assert(e == r.2);
        lemma_scan_local(b1, p1, b2, p2, n, c + 1);
        lemma_stop_local(b1, p1, b2, p2, n, close, d);
        let g = skip_spaces(b1, close);
        lemma_skip_spaces(b1, close);
        lemma_skip_local(b1, p1, b2, p2, n, close);
        lemma_window_alike(b1, p1, b2, p2, n, e, d);
        let unclosed = if q.1 {
            Seq::<ParseError>::empty()
        } else {
            seq![error_at(ParseErrorKind::UnclosedQuote, c, c + 1, row)]
        };
        let garbage = if g < e {
            seq![error_at(ParseErrorKind::TextAfterClosingQuote, g, trim_end(b1, g, e), row)]
        } else {
            Seq::<ParseError>::empty()
        };
        lemma_shift_errors_small(unclosed, delta);
        lemma_shift_errors_small(garbage, delta);
        lemma_shift_errors_cat(unclosed, garbage, delta);
        lemma_shift_span_of(c, c + 1, delta);
        if g < e {
            lemma_trim_local(b1, p1, b2, p2, n, g, e);
            lemma_trim_end(b1, g, e);
            lemma_shift_span_of(g, trim_end(b1, g, e), delta);
        }
        lemma_shift_span_of(s, e, delta);
        lemma_shift_span_of(c, close, delta);
    } else {
        let e = cell_stop(b1, d, c);
        lemma_cell_stop(b1, d, c);
        lemma_stop_local(b1, p1, b2, p2, n, c, d);
        lemma_window_alike(b1, p1, b2, p2, n, e, d);
        lemma_trim_local(b1, p1, b2, p2, n, c, e);
        lemma_trim_end(b1, c, e);
        lemma_stray_local(b1, p1, b2, p2, n, c, e, row);
        lemma_shift_span_of(s, e, delta);
        lemma_shift_span_of(c, trim_end(b1, c, e), delta);
        lemma_shift_span_of(s, s, delta);
    }
}

/// Reading the cells of a row reads alike, moved, when the row ends
/// within the window.
pub proof fn lemma_cells_local(
    b1: Seq<u8>,
    p1: int,
    b2: Seq<u8>,
    p2: int,
    n: int,
    s: int,
    d: u8,
    row: int,
)
    requires
        same_row(b1, p1, b2, p2, n),
        p1 <= s <= p1 + n,
        parse_cells(b1, d, s, row).1 <= p1 + n,
        d != CR,
        d != LF,
        d != SPACE,
        d != QUOTE,
        b1.len() <= usize::MAX,
        b2.len() <= usize::MAX,
    ensures
        ({
            let r = parse_cells(b1, d, s, row);
            parse_cells(b2, d, s + (p2 - p1), row) == (
                shift_cells(r.0, p2 - p1),
                r.1 + (p2 - p1),
                shift_errors(r.2, p2 - p1),
            )
        }),
    decreases b1.len() - s,
{
    let delta = p2 - p1;
    lemma_cells_step(b1, d, s, row);
    lemma_cells_step(b2, d, s + delta, row);
    lemma_parse_cell(b1, d, s, row);
    let c = parse_cell(b1, d, s, row);
    if c.1 && s <= c.2 < b1.len() {
        lemma_parse_cells(b1, d, c.2 + 1, row);
    }
    lemma_cell_local(b1, p1, b2, p2, n, s, d, row);
    lemma_window_alike(b1, p1, b2, p2, n, c.2, d);
    if c.1 && s <= c.2 < b1.len() {
        lemma_cells_local(b1, p1, b2, p2, n, c.2 + 1, d, row);
        let rest = parse_cells(b1, d, c.2 + 1, row);
        assert(shift_cells(seq![c.0] + rest.0, delta) =~= seq![shift_cell(c.0, delta)] + shift_cells(
            rest.0,
            delta,
        ));
        lemma_shift_errors_cat(c.3, rest.2, delta);
    } else {
        assert(shift_cells(seq![c.0], delta) =~= seq![shift_cell(c.0, delta)]);
    }
}

/// Content that reads back unquoted as itself: not empty, no space at
/// either end, and none of the bytes that end or quote a cell.
pub open spec fn bare_content(x: Seq<u8>, d: u8) -> bool {
    &&& x.len() > 0
    &&& x[0] != SPACE
    &&& x.last() != SPACE
    &&& forall|k: int| 0 <= k < x.len() ==> #[trigger] x[k] != d && x[k] != QUOTE && x[k] != CR && x[k] != LF
}

/// Content that reads back as one quoted cell: an opening quote whose
/// scan closes exactly at the content's end.
pub open spec fn quoted_content(x: Seq<u8>) -> bool {
    &&& x.len() >= 2
    &&& x[0] == QUOTE
    &&& quoted_scan(x, 1).0 == x.len()
    &&& quoted_scan(x, 1).1
}

/// Content a rendered cell may carry so that it reads back as itself.
pub open spec fn cell_shape(x: Seq<u8>, d: u8) -> bool {
    x.len() == 0 || bare_content(x, d) || quoted_content(x)
}

/// How content of that shape reads back.
pub open spec fn shape_quoting(x: Seq<u8>) -> crate::parse::Quoting {
    if quoted_content(x) {
        crate::parse::Quoting::Quoted
    } else {
        crate::parse::Quoting::Unquoted
    }
}

/// Whether content of that shape reads back with `""` escapes.
pub open spec fn shape_escapes(x: Seq<u8>) -> bool {
    quoted_content(x) && quoted_scan(x, 1).2
}

/// Spaces up to a non-space are skipped.
pub proof fn lemma_skip_run(r: Seq<u8>, a: int, f: int)
    requires
        0 <= a <= f <= r.len(),
        forall|k: int| a <= k < f ==> #[trigger] r[k] == SPACE,
        f < r.len() ==> r[f] != SPACE,
    ensures
        skip_spaces(r, a) == f,
    decreases f - a,
{
    if a < f {
        lemma_skip_run(r, a + 1, f);
    }
}

/// A cell runs to the first cell end.
pub proof fn lemma_stop_run(r: Seq<u8>, d: u8, a: int, f: int)
    requires
        0 <= a <= f <= r.len(),
        forall|k: int| a <= k < f ==> !#[trigger] is_cell_end(r, d, k),
        is_cell_end(r, d, f),
    ensures
        cell_stop(r, d, a) == f,
    decreases f - a,
{
    if a < f {
        assert(!is_cell_end(r, d, a));
        lemma_stop_run(r, d, a + 1, f);
    }
}

/// Trimming stops after the last non-space.
proof fn lemma_trim_run(r: Seq<u8>, lo: int, m: int, hi: int)
    requires
        0 <= lo < m <= hi <= r.len(),
        r[m - 1] != SPACE,
        forall|k: int| m <= k < hi ==> #[trigger] r[k] == SPACE,
    ensures
        trim_end(r, lo, hi) == m,
    decreases hi - m,
{
    if hi > m {
        lemma_trim_run(r, lo, m, hi - 1);
    }
}

/// No quote, no stray-quote error.
pub proof fn lemma_stray_none(r: Seq<u8>, lo: int, hi: int, row: int)
    requires
        0 <= lo <= hi <= r.len(),
        forall|k: int| lo <= k < hi ==> #[trigger] r[k] != QUOTE,
    ensures
        stray_quotes(r, lo, hi, row).len() == 0,
    decreases hi - lo,
{
    if hi > lo {
        lemma_stray_none(r, lo, hi - 1, row);
    }
}

/// A rendered cell reads back as its content: content `x` at `a`, then
/// `pad` spaces, then a cell end.
pub proof fn lemma_read_cell(r: Seq<u8>, d: u8, a: int, x: Seq<u8>, pad: int, row: int)
    requires
        same_bytes(x, 0, r, a, x.len() as int),
        0 <= pad,
        a + x.len() + pad <= r.len(),
        forall|k: int| a + x.len() <= k < a + x.len() + pad ==> #[trigger] r[k] == SPACE,
        is_cell_end(r, d, a + x.len() + pad),
        cell_shape(x, d),
        d != CR,
        d != LF,
        d != SPACE,
        d != QUOTE,
        r.len() <= usize::MAX,
    ensures
        ({
            let c = parse_cell(r, d, a, row);
            let f = a + x.len() + pad;
            &&& c.2 == f
            &&& c.1 == (f < r.len() && r[f] == d)
            &&& c.3.len() == 0
            &&& r.subrange(c.0.content_span.start as int, c.0.content_span.end as int) == x
            &&& c.0.quoting == shape_quoting(x)
            &&& c.0.has_escaped_quotes == shape_escapes(x)
            &&& c.0.content_span.start <= c.0.content_span.end <= r.len()
        }),
{
    reveal(parse_cell);
    let f = a + x.len() + pad;
    let m = a + x.len();
    if x.len() == 0 {
        lemma_skip_run(r, a, f);
        lemma_stop_run(r, d, f, f);
        assert(r.subrange(a, a) =~= x);
    } else if bare_content(x, d) {
        assert(x[0int + 0int] == r[a + 0int]);
        lemma_skip_run(r, a, a);
        assert forall|k: int| a <= k < f implies !#[trigger] is_cell_end(r, d, k) by {
            if k < m {
                assert(x[0 + (k - a)] == r[a + (k - a)]);
            }
        }
        lemma_stop_run(r, d, a, f);
        assert(x[0 + (x.len() - 1)] == r[a + (x.len() - 1)]);
        lemma_trim_run(r, a, m, f);
        assert forall|k: int| a <= k < f implies #[trigger] r[k] != QUOTE by {
            if k < m {
                assert(x[0 + (k - a)] == r[a + (k - a)]);
            }
        }
        lemma_stray_none(r, a, f, row);
        assert(r.subrange(a, m) =~= x) by {
            assert forall|k: int| 0 <= k < x.len() implies r.subrange(a, m)[k] == x[k] by {
                assert(x[0 + k] == r[a + k]);
            }
        }
    } else {
        assert(quoted_content(x));
        assert(x[0int + 0int] == r[a + 0int]);
        lemma_skip_run(r, a, a);
        lemma_scan_local(x, 0, r, a, x.len() as int, 1);
        lemma_stop_run(r, d, m, f);
        lemma_skip_run(r, m, f);
        assert(r.subrange(a, m) =~= x) by {
            assert forall|k: int| 0 <= k < x.len() implies r.subrange(a, m)[k] == x[k] by {
                assert(x[0 + k] == r[a + k]);
            }
        }
    }
}

/// No stray-quote error, no quote.
pub proof fn lemma_stray_no_quote(b: Seq<u8>, lo: int, hi: int, row: int)
    requires
        0 <= lo <= hi <= b.len(),
        stray_quotes(b, lo, hi, row).len() == 0,
    ensures
        forall|k: int| lo <= k < hi ==> #[trigger] b[k] != QUOTE,
    decreases hi - lo,
{
    if hi > lo {
        lemma_stray_no_quote(b, lo, hi - 1, row);
    }
}

/// The content of a cell read without errors has a shape that reads back
/// as itself, with the cell's quoting and escapes.
pub proof fn lemma_clean_cell_shape(b: Seq<u8>, d: u8, s: int, row: int)
    requires
        0 <= s <= b.len(),
        parse_cell(b, d, s, row).3.len() == 0,
        d != CR,
        d != LF,
        d != SPACE,
        d != QUOTE,
        b.len() <= usize::MAX,
    ensures
        ({
            let c = parse_cell(b, d, s, row).0;
            let x = b.subrange(c.content_span.start as int, c.content_span.end as int);
            &&& cell_shape(x, d)
            &&& c.quoting == shape_quoting(x)
            &&& c.has_escaped_quotes == shape_escapes(x)
            &&& c.content_span.start <= c.content_span.end <= b.len()
        }),
{
    reveal(parse_cell);
    let c = skip_spaces(b, s);
    lemma_skip_spaces(b, s);
    if 0 <= c < b.len() && b[c] == QUOTE {
        let q = quoted_scan(b, c + 1);
        lemma_quoted_scan(b, c + 1);
        lemma_scan_close(b, c + 1);
        let close = q.0;
        let e = cell_stop(b, d, close);
        lemma_cell_stop(b, d, close);
        let g = skip_spaces(b, close);
        lemma_skip_spaces(b, close);
        assert(q.1);
        let x = b.subrange(c, close);
        assert(same_bytes(b, c, x, 0, close - c)) by {
            assert forall|k: int| 0 <= k < close - c implies #[trigger] b[c + k] == x[0 + k] by {}
        }
        lemma_scan_local(b, c, x, 0, close - c, c + 1);
    } else {
        let e = cell_stop(b, d, c);
        lemma_cell_stop(b, d, c);
        let ce = trim_end(b, c, e);
        lemma_trim_end(b, c, e);
        lemma_stray_no_quote(b, c, e, row);
        if ce > c {
            let x = b.subrange(c, ce);
            assert forall|k: int| 0 <= k < x.len() implies #[trigger] x[k] != d && x[k] != QUOTE && x[k]
                != CR && x[k] != LF by {
                assert(x[k] == b[c + k]);
                assert(!is_cell_end(b, d, c + k));
            }
        } else {
            assert(b.subrange(s, s).len() == 0);
        }
    }
}

/// Every cell of a row read without errors has a shape that reads back as
/// itself.
pub proof fn lemma_clean_cells_shape(b: Seq<u8>, d: u8, s: int, row: int)
    requires
        0 <= s <= b.len(),
        parse_cells(b, d, s, row).2.len() == 0,
        d != CR,
        d != LF,
        d != SPACE,
        d != QUOTE,
        b.len() <= usize::MAX,
    ensures
        forall|j: int|
            0 <= j < parse_cells(b, d, s, row).0.len() ==> {
                let c = #[trigger] parse_cells(b, d, s, row).0[j];
                let x = b.subrange(c.content_span.start as int, c.content_span.end as int);
                &&& cell_shape(x, d)
                &&& c.quoting == shape_quoting(x)
                &&& c.has_escaped_quotes == shape_escapes(x)
                &&& c.content_span.start <= c.content_span.end <= b.len()
            },
    decreases b.len() - s,
{
    lemma_cells_step(b, d, s, row);
    lemma_parse_cell(b, d, s, row);
    let c = parse_cell(b, d, s, row);
    lemma_clean_cell_shape(b, d, s, row);
    if c.1 && s <= c.2 < b.len() {
        lemma_clean_cells_shape(b, d, c.2 + 1, row);
        let rest = parse_cells(b, d, c.2 + 1, row);
        let all = parse_cells(b, d, s, row);
        assert forall|j: int| 0 <= j < all.0.len() implies {
            let c = #[trigger] all.0[j];
            let x = b.subrange(c.content_span.start as int, c.content_span.end as int);
            &&& cell_shape(x, d)
            &&& c.quoting == shape_quoting(x)
            &&& c.has_escaped_quotes == shape_escapes(x)
            &&& c.content_span.start <= c.content_span.end <= b.len()
        } by {
            if j > 0 {
                assert(all.0[j] == rest.0[j - 1]);
            }
        }
    }
}

/// Scanning `pre`, the doubled-quote form of `v` and a closing quote from
/// the end of `pre` closes at the very end, with escapes exactly when `v`
/// holds a quote.
proof fn lemma_scan_doubled(pre: Seq<u8>, v: Seq<u8>)
    ensures
        quoted_scan(pre + double_quotes(v) + seq![QUOTE], pre.len() as int) == (
            (pre + double_quotes(v) + seq![QUOTE]).len() as int,
            true,
            contains_byte(v, QUOTE),
        ),
    decreases v.len(),
{
    let t = pre + double_quotes(v) + seq![QUOTE];
    let p = pre.len() as int;
    if v.len() == 0 {
        assert(double_quotes(v) =~= Seq::<u8>::empty());
        assert(t[p] == QUOTE);
        assert(!contains_byte(v, QUOTE));
    } else {
        let rest = v.drop_first();
        if v[0] == QUOTE {
            let pre2 = pre + seq![QUOTE, QUOTE];
            assert(t =~= pre2 + double_quotes(rest) + seq![QUOTE]);
            lemma_scan_doubled(pre2, rest);
            assert(t[p] == QUOTE);
            assert(t[p + 1] == QUOTE);
            assert(contains_byte(v, QUOTE)) by {
                assert(v[0] == QUOTE);
            }
        } else {
            let pre2 = pre + seq![v[0]];
            assert(t =~= pre2 + double_quotes(rest) + seq![QUOTE]);
            lemma_scan_doubled(pre2, rest);
            assert(t[p] == v[0]);
            assert(contains_byte(v, QUOTE) == contains_byte(rest, QUOTE)) by {
                if contains_byte(v, QUOTE) {
                    let i = choose|i: int| 0 <= i < v.len() && v[i] == QUOTE;
                    assert(rest[i - 1] == QUOTE);
                }
                if contains_byte(rest, QUOTE) {
                    let i = choose|i: int| 0 <= i < rest.len() && rest[i] == QUOTE;
                    assert(v[i + 1] == QUOTE);
                }
            }
        }
    }
}

/// A force-quoted value reads back as one quoted cell.
pub proof fn lemma_encoded_shape(v: Seq<u8>, d: u8)
    ensures
        quoted_content(encoded(v, d, true)),
        shape_escapes(encoded(v, d, true)) == contains_byte(v, QUOTE),
{
    let x = encoded(v, d, true);
    assert(x == seq![QUOTE] + double_quotes(v) + seq![QUOTE]);
    lemma_scan_doubled(seq![QUOTE], v);
}

/// A value encoded with forced quotes reads back as one row of one quoted
/// cell, without errors, whose value is the value encoded.
pub proof fn law_encoded_reads_back(v: Seq<u8>, dialect: Dialect)
    requires
        double_quotes(v).len() + 2 <= usize::MAX,
    ensures
        ({
            let x = encoded(v, delimiter_of(dialect), true);
            let t = spec_parse(x, dialect);
            &&& t.errors.len() == 0
            &&& t.rows.len() == 1
            &&& t.rows[0].cells.len() == 1
            &&& t.rows[0].cells[0].quoting == crate::parse::Quoting::Quoted
            &&& cell_value(x, t.rows[0].cells[0]) == v
            &&& !t.has_bom
            &&& !t.ends_with_newline
        }),
{
    let d = delimiter_of(dialect);
    lemma_delimiter_plain(dialect);
    let x = encoded(v, d, true);
    lemma_encoded_shape(v, d);
    lemma_encoded_value(v, d);
    assert(x == seq![QUOTE] + double_quotes(v) + seq![QUOTE]);
    assert(x[0] == QUOTE);
    let n = x.len() as int;
    assert(same_bytes(x, 0, x, 0, n)) by {
        assert forall|k: int| 0 <= k < n implies #[trigger] x[0 + k] == x[0 + k] by {}
    }
    assert(is_row_end(x, n));
    lemma_read_cell(x, d, 0, x, 0, 0);
    lemma_cells_step(x, d, 0, 0);
    lemma_parse_cells(x, d, 0, 0);
    assert(x.subrange(0, n) =~= x);
    lemma_rows_step(x, d, 0, 0, None, false);
    lemma_rows_done(x, d, n, 1, None, false);
}

/// The text of the first `k` cells starts the text of the first `m`.
proof fn lemma_cells_text_prefix(b: Seq<u8>, t: TableView, o: RenderOptionsView, i: int, k: int, m: int)
    requires
        0 <= k <= m,
    ensures
        cells_text(b, t, o, i, k).len() <= cells_text(b, t, o, i, m).len(),
        cells_text(b, t, o, i, m).subrange(0, cells_text(b, t, o, i, k).len() as int) == cells_text(
            b,
            t,
            o,
            i,
            k,
        ),
    decreases m - k,
{
    if k < m {
        lemma_cells_text_prefix(b, t, o, i, k, m - 1);
        let prev = cells_text(b, t, o, i, m - 1);
        let all = cells_text(b, t, o, i, m);
        let n = cells_text(b, t, o, i, k).len() as int;
        assert(all.subrange(0, prev.len() as int) =~= prev);
        assert(all.subrange(0, n) =~= prev.subrange(0, n));
    } else {
        assert(cells_text(b, t, o, i, m).subrange(0, cells_text(b, t, o, i, m).len() as int)
            =~= cells_text(b, t, o, i, m));
    }
}

/// Where cell `j`'s content starts in its row's text.
pub open spec fn content_start(b: Seq<u8>, t: TableView, o: RenderOptionsView, i: int, j: int) -> int {
    cells_text(b, t, o, i, j).len() + (if j > 0 {
        1int
    } else {
        0int
    })
}

/// The padding after cell `j` of row `i`.
pub open spec fn pad_after(b: Seq<u8>, t: TableView, o: RenderOptionsView, i: int, j: int) -> int {
    padding(o, t.rows[i].cells.len() as int, j, cell_content(b, t, o, i, j)) as int
}

/// The layout of cell `j` within the text of the first `m` cells: its
/// content, then its padding, preceded by a delimiter unless first.
proof fn lemma_cell_in_text(b: Seq<u8>, t: TableView, o: RenderOptionsView, i: int, j: int, m: int)
    requires
        0 <= j < m,
    ensures
        ({
            let tx = cells_text(b, t, o, i, m);
            let a = content_start(b, t, o, i, j);
            let x = cell_content(b, t, o, i, j);
            let p = pad_after(b, t, o, i, j);
            &&& a + x.len() + p == cells_text(b, t, o, i, j + 1).len()
            &&& cells_text(b, t, o, i, j + 1).len() <= tx.len()
            &&& forall|k: int| 0 <= k < x.len() ==> #[trigger] tx[a + k] == x[k]
            &&& forall|k: int| a + x.len() <= k < a + x.len() + p ==> #[trigger] tx[k] == SPACE
            &&& j > 0 ==> tx[a - 1] == delimiter_of(o.dialect)
        }),
{
    lemma_cells_text_prefix(b, t, o, i, j + 1, m);
    let tx = cells_text(b, t, o, i, m);
    let pre = cells_text(b, t, o, i, j);
    let one = cells_text(b, t, o, i, j + 1);
    let x = cell_content(b, t, o, i, j);
    let p = pad_after(b, t, o, i, j);
    let sep = if j > 0 {
        seq![delimiter_of(o.dialect)]
    } else {
        Seq::<u8>::empty()
    };
    assert(one == pre + sep + x + spaces(p as nat));
    let a = content_start(b, t, o, i, j);
    assert forall|k: int| 0 <= k < x.len() implies #[trigger] tx[a + k] == x[k] by {
        assert(tx[a + k] == one[a + k]);
    }
    assert forall|k: int| a + x.len() <= k < a + x.len() + p implies #[trigger] tx[k] == SPACE by {
        assert(tx[k] == one[k]);
    }
    if j > 0 {
        assert(tx[a - 1] == one[a - 1]);
    }
}

/// The cells of a rendered row read back, from cell `j` on: one cell per
/// rendered cell, each with its rendered content, no errors, and the row
/// ends where its text does.
pub proof fn lemma_read_row_cells(
    r: Seq<u8>,
    q: int,
    b: Seq<u8>,
    t: TableView,
    o: RenderOptionsView,
    i: int,
    j: int,
    row: int,
)
    requires
        0 <= i < t.rows.len(),
        0 <= j < t.rows[i].cells.len(),
        same_bytes(
            cells_text(b, t, o, i, t.rows[i].cells.len() as int),
            0,
            r,
            q,
            cells_text(b, t, o, i, t.rows[i].cells.len() as int).len() as int,
        ),
        is_row_end(r, q + cells_text(b, t, o, i, t.rows[i].cells.len() as int).len()),
        forall|k: int|
            0 <= k < t.rows[i].cells.len() ==> cell_shape(
                #[trigger] cell_content(b, t, o, i, k),
                delimiter_of(o.dialect),
            ),
        delimiter_of(o.dialect) != CR,
        delimiter_of(o.dialect) != LF,
        delimiter_of(o.dialect) != SPACE,
        delimiter_of(o.dialect) != QUOTE,
        r.len() <= usize::MAX,
    ensures
        ({
            let m = t.rows[i].cells.len() as int;
            let c = parse_cells(r, delimiter_of(o.dialect), q + content_start(b, t, o, i, j), row);
            &&& c.1 == q + cells_text(b, t, o, i, m).len()
            &&& c.2.len() == 0
            &&& c.0.len() == m - j
            &&& forall|k: int|
                0 <= k < m - j ==> {
                    let x = cell_content(b, t, o, i, j + k);
                    &&& r.subrange(
                        (#[trigger] c.0[k]).content_span.start as int,
                        c.0[k].content_span.end as int,
                    ) == x
                    &&& c.0[k].quoting == shape_quoting(x)
                    &&& c.0[k].has_escaped_quotes == shape_escapes(x)
                    &&& c.0[k].content_span.start <= c.0[k].content_span.end <= r.len()
                }
        }),
    decreases t.rows[i].cells.len() - j,
{
    let d = delimiter_of(o.dialect);
    let m = t.rows[i].cells.len() as int;
    let tx = cells_text(b, t, o, i, m);
    lemma_cell_in_text(b, t, o, i, j, m);
    let cs = content_start(b, t, o, i, j);
    let x = cell_content(b, t, o, i, j);
    let p = pad_after(b, t, o, i, j);
    let a = q + cs;
    let f = a + x.len() + p;
    assert(same_bytes(x, 0, r, a, x.len() as int)) by {
        assert forall|k: int| 0 <= k < x.len() implies #[trigger] x[0 + k] == r[a + k] by {
            assert(tx[cs + k] == x[k]);
            assert(tx[0 + (cs + k)] == r[q + (cs + k)]);
        }
    }
    assert forall|k: int| a + x.len() <= k < f implies #[trigger] r[k] == SPACE by {
        assert(tx[k - q] == SPACE);
        assert(tx[0 + (k - q)] == r[q + (k - q)]);
    }
    if j + 1 < m {
        lemma_cell_in_text(b, t, o, i, j + 1, m);
        assert(tx[0 + (f - q)] == r[q + (f - q)]);
        assert(r[f] == d);
    } else {
        assert(p == 0);
    }
    lemma_read_cell(r, d, a, x, p, row);
    lemma_cells_step(r, d, a, row);
    let c = parse_cell(r, d, a, row);
    let all = parse_cells(r, d, a, row);
    if j + 1 < m {
        assert(f + 1 == q + content_start(b, t, o, i, j + 1));
        lemma_read_row_cells(r, q, b, t, o, i, j + 1, row);
        let rest = parse_cells(r, d, f + 1, row);
        assert forall|k: int| 0 <= k < m - j implies {
            let y = cell_content(b, t, o, i, j + k);
            &&& r.subrange((#[trigger] all.0[k]).content_span.start as int, all.0[k].content_span.end as int)
                == y
            &&& all.0[k].quoting == shape_quoting(y)
            &&& all.0[k].has_escaped_quotes == shape_escapes(y)
            &&& all.0[k].content_span.start <= all.0[k].content_span.end <= r.len()
        } by {
            if k > 0 {
                assert(all.0[k] == rest.0[k - 1]);
                assert(j + 1 + (k - 1) == j + k);
            }
        }
    }
}

/// Stray-quote errors belong to their row.
proof fn lemma_stray_rows(b: Seq<u8>, lo: int, hi: int, row: int)
    requires
        0 <= row <= usize::MAX,
    ensures
        forall|k: int|
            0 <= k < stray_quotes(b, lo, hi, row).len() ==> (#[trigger] stray_quotes(b, lo, hi, row)[k]).row
                == row,
    decreases hi - lo,
{
    if hi > lo {
        lemma_stray_rows(b, lo, hi - 1, row);
        let prev = stray_quotes(b, lo, hi - 1, row);
        let all = stray_quotes(b, lo, hi, row);
        assert forall|k: int| 0 <= k < all.len() implies (#[trigger] all[k]).row == row by {
            if k < prev.len() {
                assert(all[k] == prev[k]);
            }
        }
    }
}

/// The errors of a row's cells belong to that row.
pub proof fn lemma_cells_errors_row(b: Seq<u8>, d: u8, s: int, row: int)
    requires
        0 <= row <= usize::MAX,
    ensures
        forall|k: int|
            0 <= k < parse_cells(b, d, s, row).2.len() ==> (#[trigger] parse_cells(b, d, s, row).2[k]).row
                == row,
    decreases b.len() - s,
{
    lemma_cells_step(b, d, s, row);
    reveal(parse_cell);
    let c = parse_cell(b, d, s, row);
    let cs = skip_spaces(b, s);
    if 0 <= cs < b.len() && b[cs] == QUOTE {
    } else {
        lemma_stray_rows(b, cs, cell_stop(b, d, cs), row);
    }
    assert forall|k: int| 0 <= k < c.3.len() implies (#[trigger] c.3[k]).row == row by {}
    if c.1 && s <= c.2 < b.len() {
        lemma_cells_errors_row(b, d, c.2 + 1, row);
        let rest = parse_cells(b, d, c.2 + 1, row);
        let all = c.3 + rest.2;
        assert forall|k: int| 0 <= k < all.len() implies (#[trigger] all[k]).row == row by {
            if k < c.3.len() {
                assert(all[k] == c.3[k]);
            } else {
                assert(all[k] == rest.2[k - c.3.len()]);
            }
        }
    }
}

/// The errors of the rows read from row `idx` on belong to rows `idx` and
/// later, and a terminator kind once seen stays.
pub proof fn lemma_rows_errors_from(b: Seq<u8>, d: u8, p: int, idx: int, lt: Option<LineTerminator>, ewn: bool)
    requires
        0 <= p,
        0 <= idx,
        idx + b.len() - p <= usize::MAX,
    ensures
        forall|k: int|
            0 <= k < parse_rows(b, d, p, idx, lt, ewn).1.len() ==> (#[trigger] parse_rows(
                b,
                d,
                p,
                idx,
                lt,
                ewn,
            ).1[k]).row >= idx,
        lt is Some ==> parse_rows(b, d, p, idx, lt, ewn).2 == lt,
    decreases b.len() - p,
{
    if p >= b.len() {
        lemma_rows_done(b, d, p, idx, lt, ewn);
    } else {
        lemma_rows_step(b, d, p, idx, lt, ewn);
        let r = parse_cells(b, d, p, idx);
        let e = r.1;
        let next = e + terminator_len(b, e);
        let lt2 = if lt is Some {
            lt
        } else {
            terminator_kind(b, e)
        };
        let ewn2 = terminator_len(b, e) > 0 && next == b.len();
        lemma_rows_errors_from(b, d, next, idx + 1, lt2, ewn2);
        lemma_cells_errors_row(b, d, p, idx);
        let rest = parse_rows(b, d, next, idx + 1, lt2, ewn2);
        let all = r.2 + rest.1;
        assert forall|k: int| 0 <= k < all.len() implies (#[trigger] all[k]).row >= idx by {
            if k < r.2.len() {
                assert(all[k] == r.2[k]);
            } else {
                assert(all[k] == rest.1[k - r.2.len()]);
            }
        }
    }
}

/// The text of the first `k` rows starts the text of the first `m`.
proof fn lemma_rows_text_prefix(b: Seq<u8>, t: TableView, o: RenderOptionsView, k: int, m: int)
    requires
        0 <= k <= m,
    ensures
        rows_text(b, t, o, k).len() <= rows_text(b, t, o, m).len(),
        rows_text(b, t, o, m).subrange(0, rows_text(b, t, o, k).len() as int) == rows_text(b, t, o, k),
    decreases m - k,
{
    if k < m {
        lemma_rows_text_prefix(b, t, o, k, m - 1);
        let prev = rows_text(b, t, o, m - 1);
        let all = rows_text(b, t, o, m);
        let n = rows_text(b, t, o, k).len() as int;
        assert(all.subrange(0, prev.len() as int) =~= prev);
        assert(all.subrange(0, n) =~= prev.subrange(0, n));
    } else {
        assert(rows_text(b, t, o, m).subrange(0, rows_text(b, t, o, m).len() as int) =~= rows_text(
            b,
            t,
            o,
            m,
        ));
    }
}

/// The bytes before the rows of a rendering: the byte-order mark, if
/// emitted.
pub open spec fn lead_bytes(o: RenderOptionsView) -> Seq<u8> {
    if o.include_bom {
        bom_bytes()
    } else {
        Seq::empty()
    }
}

/// The bytes after the rows of a rendering: the final terminator, if
/// emitted.
pub open spec fn tail_bytes(t: TableView, o: RenderOptionsView) -> Seq<u8> {
    if o.final_newline && t.rows.len() > 0 {
        terminator_bytes(o.line_terminator)
    } else {
        Seq::empty()
    }
}

/// Where row `i`'s text starts in the rendering.
pub open spec fn row_start(b: Seq<u8>, t: TableView, o: RenderOptionsView, i: int) -> int {
    lead_bytes(o).len() + rows_text(b, t, o, i).len() + (if i > 0 {
        terminator_bytes(o.line_terminator).len() as int
    } else {
        0int
    })
}

/// The layout of row `i` in the rendering: its text, then a terminator
/// and the next row, or the final bytes and the end.
proof fn lemma_row_in_rendering(b: Seq<u8>, t: TableView, o: RenderOptionsView, i: int)
    requires
        0 <= i < t.rows.len(),
    ensures
        ({
            let r = rendered(b, t, o);
            let x = row_text(b, t, o, i);
            let q = row_start(b, t, o, i);
            let e = q + x.len();
            let term = terminator_bytes(o.line_terminator);
            &&& same_bytes(x, 0, r, q, x.len() as int)
            &&& i + 1 < t.rows.len() ==> same_bytes(term, 0, r, e, term.len() as int) && row_start(
                b,
                t,
                o,
                i + 1,
            ) == e + term.len()
            &&& i + 1 == t.rows.len() ==> same_bytes(tail_bytes(t, o), 0, r, e, tail_bytes(t, o).len() as int)
                && e + tail_bytes(t, o).len() == r.len()
        }),
{
    let n = t.rows.len() as int;
    let r = rendered(b, t, o);
    let x = row_text(b, t, o, i);
    let q = row_start(b, t, o, i);
    let e = q + x.len();
    let term = terminator_bytes(o.line_terminator);
    let lead = lead_bytes(o);
    let all = rows_text(b, t, o, n);
    assert(r == lead + all + tail_bytes(t, o));
    lemma_rows_text_prefix(b, t, o, i + 1, n);
    let upto = rows_text(b, t, o, i + 1);
    let sep = if i > 0 {
        term
    } else {
        Seq::<u8>::empty()
    };
    assert(upto == rows_text(b, t, o, i) + sep + x);
    assert(same_bytes(x, 0, r, q, x.len() as int)) by {
        assert forall|k: int| 0 <= k < x.len() implies #[trigger] x[0 + k] == r[q + k] by {
            assert(upto[rows_text(b, t, o, i).len() + sep.len() + k] == x[k]);
            assert(all[rows_text(b, t, o, i).len() + sep.len() + k] == upto[rows_text(b, t, o, i).len()
                + sep.len() + k]);
        }
    }
    if i + 1 < n {
        lemma_rows_text_prefix(b, t, o, i + 2, n);
        let upto2 = rows_text(b, t, o, i + 2);
        assert(upto2 == upto + term + row_text(b, t, o, i + 1));
        assert forall|k: int| 0 <= k < term.len() implies #[trigger] term[0 + k] == r[e + k] by {
            assert(upto2[upto.len() + k] == term[k]);
            assert(all[upto.len() + k] == upto2[upto.len() + k]);
        }
    } else {
        assert(upto.len() == all.len());
        assert forall|k: int| 0 <= k < tail_bytes(t, o).len() implies #[trigger] tail_bytes(t, o)[0 + k]
            == r[e + k] by {}
    }
}

/// A terminator in the text reads as one of its kind.
proof fn lemma_read_terminator(r: Seq<u8>, e: int, lt: LineTerminator)
    requires
        same_bytes(terminator_bytes(lt), 0, r, e, terminator_bytes(lt).len() as int),
    ensures
        terminator_len(r, e) == terminator_bytes(lt).len(),
        terminator_kind(r, e) == Some(lt),
        r[e] == CR || r[e] == LF,
{
    let term = terminator_bytes(lt);
    assert(term[0 + 0int] == r[e + 0int]);
    if lt == LineTerminator::CrLf {
        assert(term[0 + 1int] == r[e + 1int]);
    }
}

/// Rendering options that keep everything of the table but the layout:
/// its dialect, verbatim cell contents, BOM, terminator and final newline.
pub open spec fn preserving(t: TableView, o: RenderOptionsView) -> bool {
    &&& o.dialect == t.dialect
    &&& o.quote_policy == QuotePolicy::Preserve
    &&& o.include_bom == t.has_bom
    &&& o.line_terminator == t.line_terminator
    &&& o.final_newline == t.ends_with_newline
}

/// No delimiter ends a row, pads or quotes.
pub proof fn lemma_delimiter_plain(dialect: Dialect)
    ensures
        delimiter_of(dialect) != CR,
        delimiter_of(dialect) != LF,
        delimiter_of(dialect) != SPACE,
        delimiter_of(dialect) != QUOTE,
{
}

/// Undoing the doubling of quotes gives the value back.
proof fn lemma_unescape_doubled(v: Seq<u8>)
    ensures
        unescape_quotes(double_quotes(v)) == v,
    decreases v.len(),
{
    if v.len() > 0 {
        let rest = v.drop_first();
        lemma_unescape_doubled(rest);
        let dq = double_quotes(v);
        if v[0] == QUOTE {
            assert(dq == seq![QUOTE, QUOTE] + double_quotes(rest));
            assert(dq.subrange(2, dq.len() as int) =~= double_quotes(rest));
            assert(v =~= seq![QUOTE] + rest);
        } else {
            assert(dq == seq![v[0]] + double_quotes(rest));
            assert(dq.drop_first() =~= double_quotes(rest));
            assert(v =~= seq![v[0]] + rest);
        }
    }
}

/// A value without quotes has nothing to double.
proof fn lemma_doubled_plain(v: Seq<u8>)
    requires
        !contains_byte(v, QUOTE),
    ensures
        double_quotes(v) == v,
    decreases v.len(),
{
    if v.len() > 0 {
        let rest = v.drop_first();
        assert(v[0] != QUOTE) by {
            if v[0] == QUOTE {
                assert(contains_byte(v, QUOTE));
            }
        }
        assert(!contains_byte(rest, QUOTE)) by {
            if contains_byte(rest, QUOTE) {
                let k = choose|k: int| 0 <= k < rest.len() && rest[k] == QUOTE;
                assert(v[k + 1] == QUOTE);
            }
        }
        lemma_doubled_plain(rest);
        assert(v =~= seq![v[0]] + rest);
    }
}

/// A force-quoted value decodes back to the value.
pub proof fn lemma_encoded_value(v: Seq<u8>, d: u8)
    ensures
        ({
            let x = encoded(v, d, true);
            let inner = strip_quotes(x);
            (if shape_escapes(x) {
                unescape_quotes(inner)
            } else {
                inner
            }) == v
        }),
{
    let x = encoded(v, d, true);
    lemma_encoded_shape(v, d);
    assert(x == seq![QUOTE] + double_quotes(v) + seq![QUOTE]);
    assert(x.drop_first() =~= double_quotes(v) + seq![QUOTE]);
    assert((double_quotes(v) + seq![QUOTE]).drop_last() =~= double_quotes(v));
    assert(strip_quotes(x) == double_quotes(v));
    if contains_byte(v, QUOTE) {
        lemma_unescape_doubled(v);
    } else {
        lemma_doubled_plain(v);
    }
}

/// Rendering options that keep everything of the table but the layout
/// and the quoting a new delimiter needs: verbatim contents under the
/// table's dialect, or, for a table without errors, any dialect with
/// quoting adapted; the BOM, terminator and final newline kept.
pub open spec fn faithful(t: TableView, o: RenderOptionsView) -> bool {
    &&& o.include_bom == t.has_bom
    &&& o.line_terminator == t.line_terminator
    &&& o.final_newline == t.ends_with_newline
    &&& ((o.dialect == t.dialect && o.quote_policy == QuotePolicy::Preserve) || (t.errors.len() == 0
        && o.quote_policy == QuotePolicy::PreserveOrRequired))
}

/// A rendered cell's content, for a cell of a clean row: its shape reads
/// back as itself under the target delimiter, and decodes to the source
/// cell's value.
proof fn lemma_rendered_cell(b: Seq<u8>, t: TableView, o: RenderOptionsView, i: int, p: int, j: int)
    requires
        faithful(t, o),
        0 <= i < t.rows.len(),
        0 <= p <= b.len(),
        b.len() <= usize::MAX,
        t.rows[i].cells == parse_cells(b, delimiter_of(t.dialect), p, i).0,
        parse_cells(b, delimiter_of(t.dialect), p, i).2.len() == 0,
        0 <= j < t.rows[i].cells.len(),
    ensures
        ({
            let x = cell_content(b, t, o, i, j);
            let v = if shape_quoting(x) == crate::parse::Quoting::Unquoted {
                x
            } else if shape_escapes(x) {
                unescape_quotes(strip_quotes(x))
            } else {
                strip_quotes(x)
            };
            &&& cell_shape(x, delimiter_of(o.dialect))
            &&& v == cell_value(b, t.rows[i].cells[j])
            &&& t.rows[i].cells[j].quoting == crate::parse::Quoting::Quoted ==> shape_quoting(x)
                == crate::parse::Quoting::Quoted
            &&& t.rows[i].cells[j].content_span.start != t.rows[i].cells[j].content_span.end ==> x.len() > 0
        }),
{
    let d = delimiter_of(t.dialect);
    let d2 = delimiter_of(o.dialect);
    lemma_delimiter_plain(t.dialect);
    lemma_delimiter_plain(o.dialect);
    lemma_clean_cells_shape(b, d, p, i);
    let c = t.rows[i].cells[j];
    assert(c == parse_cells(b, d, p, i).0[j]);
    let x = b.subrange(c.content_span.start as int, c.content_span.end as int);
    let pc = crate::render::policy_content(b, c, o.quote_policy, o.dialect);
    let y = cell_content(b, t, o, i, j);
    if !o.include_bom && i == 0 && j == 0 && starts_with_bom(pc) {
        lemma_encoded_shape(cell_value(b, c), d2);
        lemma_encoded_value(cell_value(b, c), d2);
    } else if o.quote_policy == QuotePolicy::PreserveOrRequired && c.quoting == crate::parse::Quoting::Unquoted
        && contains_byte(x, d2) {
        assert(y == encoded(x, d2, true));
        lemma_encoded_shape(x, d2);
        lemma_encoded_value(x, d2);
    } else {
        assert(y == x);
        if bare_content(x, d) && !contains_byte(x, d2) {
            assert forall|k: int| 0 <= k < x.len() implies #[trigger] x[k] != d2 && x[k] != QUOTE && x[k] != CR
                && x[k] != LF by {
                if x[k] == d2 {
                    assert(contains_byte(x, d2));
                }
            }
        }
    }
}

/// Every cell of a clean row is rendered with content of a shape that
/// reads back as itself.
proof fn lemma_rendered_shapes(b: Seq<u8>, t: TableView, o: RenderOptionsView, i: int, p: int)
    requires
        faithful(t, o),
        0 <= i < t.rows.len(),
        0 <= p <= b.len(),
        b.len() <= usize::MAX,
        t.rows[i].cells == parse_cells(b, delimiter_of(t.dialect), p, i).0,
        parse_cells(b, delimiter_of(t.dialect), p, i).2.len() == 0,
    ensures
        forall|j: int|
            0 <= j < t.rows[i].cells.len() ==> cell_shape(
                #[trigger] cell_content(b, t, o, i, j),
                delimiter_of(o.dialect),
            ),
{
    assert forall|j: int| 0 <= j < t.rows[i].cells.len() implies cell_shape(
        #[trigger] cell_content(b, t, o, i, j),
        delimiter_of(o.dialect),
    ) by {
        lemma_rendered_cell(b, t, o, i, p, j);
    }
}

/// One row of a rendering reads back: an error row exactly as it was
/// read from the source (moved), a blank row blank, and any other row
/// with one cell per source cell carrying its rendered content.
proof fn lemma_reparse_row(
    b: Seq<u8>,
    t: TableView,
    o: RenderOptionsView,
    i: int,
    p: int,
    r: Seq<u8>,
    q: int,
)
    requires
        faithful(t, o),
        0 <= i < t.rows.len(),
        0 <= p <= b.len(),
        b.len() <= usize::MAX,
        r.len() <= usize::MAX,
        t.rows[i].cells == parse_cells(b, delimiter_of(t.dialect), p, i).0,
        t.rows[i].span == span_of(p, parse_cells(b, delimiter_of(t.dialect), p, i).1),
        error_row(t, i) == (parse_cells(b, delimiter_of(t.dialect), p, i).2.len() > 0),
        error_row(t, i) ==> t.errors.len() > 0,
        same_bytes(row_text(b, t, o, i), 0, r, q, row_text(b, t, o, i).len() as int),
        is_row_end(r, q + row_text(b, t, o, i).len()),
        error_row(t, i) ==> same_row_end(
            b,
            parse_cells(b, delimiter_of(t.dialect), p, i).1,
            r,
            q + row_text(b, t, o, i).len(),
        ),
    ensures
        ({
            let d = delimiter_of(t.dialect);
            let rc = parse_cells(b, d, p, i);
            let rc2 = parse_cells(r, delimiter_of(o.dialect), q, i);
            let m = t.rows[i].cells.len() as int;
            &&& rc2.1 == q + row_text(b, t, o, i).len()
            &&& error_row(t, i) ==> row_text(b, t, o, i).len() == rc.1 - p
            &&& !error_row(t, i) && !row_is_blank(t.rows[i]) ==> row_text(b, t, o, i).len() > 0
            &&& error_row(t, i) ==> rc2 == (
                shift_cells(rc.0, q - p),
                rc.1 + (q - p),
                shift_errors(rc.2, q - p),
            )
            &&& !error_row(t, i) ==> rc2.2.len() == 0
            &&& !error_row(t, i) && row_is_blank(t.rows[i]) ==> row_is_blank(
                RowView { span: span_of(q, rc2.1), cells: rc2.0 },
            )
            &&& !error_row(t, i) && !row_is_blank(t.rows[i]) ==> {
                &&& rc2.0.len() == m
                &&& !row_is_blank(RowView { span: span_of(q, rc2.1), cells: rc2.0 })
                &&& forall|j: int|
                    0 <= j < m ==> {
                        let x = cell_content(b, t, o, i, j);
                        &&& r.subrange(
                            (#[trigger] rc2.0[j]).content_span.start as int,
                            rc2.0[j].content_span.end as int,
                        ) == x
                        &&& rc2.0[j].quoting == shape_quoting(x)
                        &&& rc2.0[j].has_escaped_quotes == shape_escapes(x)
                        &&& cell_value(r, rc2.0[j]) == cell_value(b, t.rows[i].cells[j])
                    }
            }
        }),
{
    let d = delimiter_of(t.dialect);
    let d2 = delimiter_of(o.dialect);
    lemma_delimiter_plain(t.dialect);
    lemma_delimiter_plain(o.dialect);
    let rc = parse_cells(b, d, p, i);
    lemma_parse_cells(b, d, p, i);
    let rt = row_text(b, t, o, i);
    let row = t.rows[i];
    if error_row(t, i) {
        assert(d2 == d);
        assert(rt == b.subrange(p, rc.1));
        assert(same_row(b, p, r, q, rc.1 - p)) by {
            assert forall|k: int| 0 <= k < rc.1 - p implies #[trigger] b[p + k] == r[q + k] by {
                assert(rt[0 + k] == r[q + k]);
            }
        }
        lemma_cells_local(b, p, r, q, rc.1 - p, p, d, i);
    } else if row_is_blank(row) {
        assert(rt.len() == 0);
        lemma_read_cell(r, d2, q, Seq::<u8>::empty(), 0, i);
        lemma_cells_step(r, d2, q, i);
    } else {
        let m = row.cells.len() as int;
        lemma_rendered_shapes(b, t, o, i, p);
        assert(rt == cells_text(b, t, o, i, m));
        lemma_read_row_cells(r, q, b, t, o, i, 0, i);
        let rc2 = parse_cells(r, d2, q, i);
        assert(content_start(b, t, o, i, 0) == 0);
        assert forall|j: int| 0 <= j < m implies cell_value(r, #[trigger] rc2.0[j]) == cell_value(
            b,
            t.rows[i].cells[j],
        ) by {
            lemma_rendered_cell(b, t, o, i, p, j);
            let x = cell_content(b, t, o, i, j);
            assert(r.subrange(rc2.0[j].content_span.start as int, rc2.0[j].content_span.end as int) == x);
        }
        if m == 1 {
            let c = row.cells[0];
            let x = cell_content(b, t, o, i, 0);
            lemma_rendered_cell(b, t, o, i, p, 0);
            lemma_clean_cells_shape(b, d, p, i);
            assert(c == rc.0[0]);
            if c.quoting == crate::parse::Quoting::Unquoted {
                assert(c.content_span.start != c.content_span.end);
            }
            assert(x.len() > 0 || quoted_content(x));
            let c2 = rc2.0[0];
            assert(r.subrange(c2.content_span.start as int, c2.content_span.end as int) == x);
            if c2.quoting == crate::parse::Quoting::Unquoted {
                assert(x.len() > 0);
                assert(c2.content_span.start != c2.content_span.end);
            }
            lemma_cell_in_text(b, t, o, i, 0, m);
        } else {
            lemma_cell_in_text(b, t, o, i, 1, m);
        }
    }
}

/// A row that ends where it starts has no errors.
pub proof fn lemma_empty_row_clean(b: Seq<u8>, d: u8, p: int, row: int)
    requires
        0 <= p <= b.len(),
        parse_cells(b, d, p, row).1 == p,
    ensures
        parse_cells(b, d, p, row).2.len() == 0,
{
    lemma_cells_step(b, d, p, row);
    lemma_parse_cell(b, d, p, row);
    let c = parse_cell(b, d, p, row);
    if c.1 && p <= c.2 < b.len() {
        lemma_parse_cells(b, d, c.2 + 1, row);
    }
    assert(c.2 == p);
    reveal(parse_cell);
    let cs = skip_spaces(b, p);
    lemma_skip_spaces(b, p);
    if 0 <= cs < b.len() && b[cs] == QUOTE {
        lemma_quoted_scan(b, cs + 1);
        lemma_cell_stop(b, d, quoted_scan(b, cs + 1).0);
    } else {
        lemma_cell_stop(b, d, cs);
    }
}

/// The rendering drops the source's last row: a blank row with no
/// terminator after it leaves no text to read back.
pub open spec fn drops_last_row(t: TableView) -> bool {
    &&& t.rows.len() > 0
    &&& !t.ends_with_newline
    &&& !error_row(t, t.rows.len() - 1)
    &&& row_is_blank(t.rows[t.rows.len() - 1])
}

/// The number of rows the rendering reads back as.
pub open spec fn kept_rows(t: TableView) -> int {
    t.rows.len() - (if drops_last_row(t) {
        1int
    } else {
        0int
    })
}

/// Row `r2` of the reading of the rendering `r` is row `i` of `t` read
/// back: an error row verbatim, a blank row blank, any other row non-blank
/// with one cell per source cell carrying its rendered content.
#[verifier::opaque]
pub open spec fn row_read_back(r: Seq<u8>, r2: RowView, b: Seq<u8>, t: TableView, o: RenderOptionsView, i: int) -> bool {
    let row = t.rows[i];
    if error_row(t, i) {
        &&& r.subrange(r2.span.start as int, r2.span.end as int) == b.subrange(
            row.span.start as int,
            row.span.end as int,
        )
        &&& r2.cells.len() == row.cells.len()
        &&& r2.cells == shift_cells(row.cells, r2.span.start - row.span.start)
    } else if row_is_blank(row) {
        row_is_blank(r2)
    } else {
        &&& !row_is_blank(r2)
        &&& r2.cells.len() == row.cells.len()
        &&& forall|j: int|
            0 <= j < row.cells.len() ==> {
                let x = cell_content(b, t, o, i, j);
                &&& r.subrange(
                    (#[trigger] r2.cells[j]).content_span.start as int,
                    r2.cells[j].content_span.end as int,
                ) == x
                &&& r2.cells[j].quoting == shape_quoting(x)
                &&& r2.cells[j].has_escaped_quotes == shape_escapes(x)
                &&& cell_value(r, r2.cells[j]) == cell_value(b, row.cells[j])
            }
    }
}

/// The errors `e2` carry the kinds and rows of `e1`, in order.
pub open spec fn same_error_kinds(e1: Seq<ParseError>, e2: Seq<ParseError>) -> bool {
    &&& e1.len() == e2.len()
    &&& forall|k: int| 0 <= k < e1.len() ==> (#[trigger] e2[k]).kind == e1[k].kind && e2[k].row == e1[k].row
}

/// Reading the source from offset `p` as row `i` on reads the table's rows
/// from `i` on, its errors from some point on (all earlier ones on earlier
/// rows), and ends with the table's terminator and final-newline state.
#[verifier::opaque]
pub open spec fn source_from(
    b: Seq<u8>,
    dialect: Dialect,
    i: int,
    p: int,
    ltb: Option<LineTerminator>,
    ewnb: bool,
) -> bool {
    let t = spec_parse(b, dialect);
    let top = parse_rows(b, delimiter_of(dialect), body_start(b), 0, None, false);
    let a = parse_rows(b, delimiter_of(dialect), p, i, ltb, ewnb);
    &&& 0 <= i <= t.rows.len()
    &&& 0 <= p
    &&& i + b.len() - p <= usize::MAX
    &&& a.0 == t.rows.subrange(i, t.rows.len() as int)
    &&& a.2 == top.2
    &&& a.3 == t.ends_with_newline
    &&& a.1.len() <= t.errors.len()
    &&& t.errors.subrange(t.errors.len() - a.1.len(), t.errors.len() as int) == a.1
    &&& forall|k: int| 0 <= k < t.errors.len() - a.1.len() ==> (#[trigger] t.errors[k]).row < i
    &&& 0 < i < t.rows.len() ==> ltb == Some(t.line_terminator)
}

/// The row index of a source reading lies within the table.
pub proof fn lemma_source_bounds(b: Seq<u8>, dialect: Dialect, i: int, p: int, ltb: Option<LineTerminator>, ewnb: bool)
    requires
        source_from(b, dialect, i, p, ltb, ewnb),
    ensures
        0 <= i <= spec_parse(b, dialect).rows.len(),
        0 <= p,
{
    reveal(source_from);
}

/// One source row: where it ends, how it is terminated, whether it has
/// errors, and that reading goes on the same way from the next row.
#[verifier::spinoff_prover]
#[verifier::rlimit(60)]
pub proof fn lemma_source_step(b: Seq<u8>, dialect: Dialect, i: int, p: int, ltb: Option<LineTerminator>, ewnb: bool)
    requires
        b.len() <= usize::MAX,
        source_from(b, dialect, i, p, ltb, ewnb),
        i < spec_parse(b, dialect).rows.len(),
    ensures
        ({
            let t = spec_parse(b, dialect);
            let n = t.rows.len() as int;
            let d = delimiter_of(dialect);
            let rc = parse_cells(b, d, p, i);
            let e = rc.1;
            let tl = terminator_len(b, e);
            let next = e + tl;
            let lt2 = if ltb is Some {
                ltb
            } else {
                terminator_kind(b, e)
            };
            let ewn2 = tl > 0 && next == b.len();
            let a = parse_rows(b, d, p, i, ltb, ewnb);
            let a2 = parse_rows(b, d, next, i + 1, lt2, ewn2);
            &&& p <= e < next <= b.len() || (p <= e && next == e && e == b.len() && p < b.len())
            &&& p < b.len()
            &&& a == (seq![RowView { span: span_of(p, e), cells: rc.0 }] + a2.0, rc.2 + a2.1, a2.2, a2.3)
            &&& t.rows[i] == RowView { span: span_of(p, e), cells: rc.0 }
            &&& error_row(t, i) == (rc.2.len() > 0)
            &&& source_from(b, dialect, i + 1, next, lt2, ewn2)
            &&& i + 1 < n ==> next < b.len() && e < b.len() && (b[e] == CR || b[e] == LF) && lt2 == Some(
                t.line_terminator,
            )
            &&& i + 1 == n ==> next == b.len() && (t.ends_with_newline == (tl > 0)) && (tl > 0 ==> (b[e] == CR
                || b[e] == LF) && lt2 == Some(t.line_terminator)) && (tl == 0 ==> lt2 == ltb)
            &&& (tl > 0) == (e < b.len())
        }),
{
    reveal(source_from);
    let t = spec_parse(b, dialect);
    let n = t.rows.len() as int;
    let d = delimiter_of(dialect);
    let top = parse_rows(b, d, body_start(b), 0, None, false);
    let a = parse_rows(b, d, p, i, ltb, ewnb);
    if p >= b.len() {
        lemma_rows_done(b, d, p, i, ltb, ewnb);
        assert(a.0.len() == n - i);
    }
    lemma_rows_step(b, d, p, i, ltb, ewnb);
    let rc = parse_cells(b, d, p, i);
    lemma_parse_cells(b, d, p, i);
    let e = rc.1;
    let tl = terminator_len(b, e);
    let next = e + tl;
    let lt2 = if ltb is Some {
        ltb
    } else {
        terminator_kind(b, e)
    };
    let ewn2 = tl > 0 && next == b.len();
    let a2 = parse_rows(b, d, next, i + 1, lt2, ewn2);
    assert(a.0[0] == t.rows[i]);
    assert(a2.0 =~= t.rows.subrange(i + 1, n)) by {
        assert(a.0.len() == a2.0.len() + 1);
        assert forall|k: int| 0 <= k < a2.0.len() implies a2.0[k] == t.rows.subrange(i + 1, n)[k] by {
            assert(a.0[k + 1] == a2.0[k]);
            assert(a.0[k + 1] == t.rows.subrange(i, n)[k + 1]);
            assert(t.rows.subrange(i, n)[k + 1] == t.rows[i + k + 1]);
        }
    }
    lemma_rows_errors_from(b, d, next, i + 1, lt2, ewn2);
    lemma_cells_errors_row(b, d, p, i);
    if next < b.len() {
        lemma_rows_step(b, d, next, i + 1, lt2, ewn2);
    } else {
        lemma_rows_done(b, d, next, i + 1, lt2, ewn2);
    }
    let pre_len = t.errors.len() - a.1.len();
    assert(error_row(t, i) == (rc.2.len() > 0)) by {
        if rc.2.len() > 0 {
            assert(t.errors[pre_len + 0] == a.1[0]);
            assert(a.1[0] == rc.2[0]);
        }
        if error_row(t, i) {
            let k = choose|k: int| 0 <= k < t.errors.len() && t.errors[k].row == i;
            if k >= pre_len + rc.2.len() {
                assert(t.errors[k] == a.1[k - pre_len]);
                assert(a.1[k - pre_len] == a2.1[k - pre_len - rc.2.len()]);
            }
        }
    }
    assert(t.errors.subrange(t.errors.len() - a2.1.len(), t.errors.len() as int) =~= a2.1) by {
        assert forall|k: int| 0 <= k < a2.1.len() implies t.errors.subrange(
            t.errors.len() - a2.1.len(),
            t.errors.len() as int,
        )[k] == a2.1[k] by {
            assert(t.errors[t.errors.len() - a2.1.len() + k] == a.1[pre_len + (rc.2.len() + k) - pre_len]);
        }
    }
    assert forall|k: int| 0 <= k < t.errors.len() - a2.1.len() implies (#[trigger] t.errors[k]).row < i + 1 by {
        if k >= pre_len {
            assert(t.errors[k] == a.1[k - pre_len]);
            assert(a.1[k - pre_len] == rc.2[k - pre_len]);
        }
    }
    if i + 1 < n {
        assert(a2.0.len() > 0);
        assert(next < b.len());
        lemma_rows_errors_from(b, d, next, i + 1, lt2, ewn2);
    }
}

/// Read-back rows extend by one in front.
proof fn lemma_rows_cons(
    r: Seq<u8>,
    row2: RowView,
    rest: Seq<RowView>,
    b: Seq<u8>,
    t: TableView,
    o: RenderOptionsView,
    i: int,
)
    requires
        row_read_back(r, row2, b, t, o, i),
        forall|k: int| 0 <= k < rest.len() ==> row_read_back(r, #[trigger] rest[k], b, t, o, i + 1 + k),
    ensures
        forall|k: int|
            0 <= k < (seq![row2] + rest).len() ==> row_read_back(
                r,
                #[trigger] (seq![row2] + rest)[k],
                b,
                t,
                o,
                i + k,
            ),
{
    let all = seq![row2] + rest;
    assert forall|k: int| 0 <= k < all.len() implies row_read_back(r, #[trigger] all[k], b, t, o, i + k) by {
        if k > 0 {
            assert(all[k] == rest[k - 1]);
            assert(i + 1 + (k - 1) == i + k);
        }
    }
}

/// Error kinds and rows agree after one more row's errors in front.
pub proof fn lemma_kinds_cons(
    e1: Seq<ParseError>,
    rest1: Seq<ParseError>,
    e2: Seq<ParseError>,
    rest2: Seq<ParseError>,
    delta: int,
    moved: bool,
)
    requires
        moved ==> e2 == shift_errors(e1, delta),
        !moved ==> e1.len() == 0 && e2.len() == 0,
        same_error_kinds(rest1, rest2),
    ensures
        same_error_kinds(e1 + rest1, e2 + rest2),
{
    let a = e1 + rest1;
    let c = e2 + rest2;
    assert(e2.len() == e1.len());
    assert forall|k: int| 0 <= k < a.len() implies (#[trigger] c[k]).kind == a[k].kind && c[k].row == a[k].row by {
        if k < e1.len() {
            assert(c[k] == e2[k]);
            assert(a[k] == e1[k]);
        } else {
            assert(c[k] == rest2[k - e1.len()]);
            assert(a[k] == rest1[k - e1.len()]);
        }
    }
}

/// One rendered row: where it sits, how it reads back, and that reading
/// goes on from the next row's text with the same terminator state.
#[verifier::spinoff_prover]
#[verifier::rlimit(60)]
proof fn lemma_render_step(
    b: Seq<u8>,
    dialect: Dialect,
    o: RenderOptionsView,
    i: int,
    p: int,
    ltb: Option<LineTerminator>,
    ewnb: bool,
    ewnr: bool,
)
    requires
        b.len() <= usize::MAX,
        rendered(b, spec_parse(b, dialect), o).len() <= usize::MAX,
        faithful(spec_parse(b, dialect), o),
        source_from(b, dialect, i, p, ltb, ewnb),
        i < spec_parse(b, dialect).rows.len(),
        !(drops_last_row(spec_parse(b, dialect)) && i == spec_parse(b, dialect).rows.len() - 1),
    ensures
        ({
            let t = spec_parse(b, dialect);
            let n = t.rows.len() as int;
            let d = delimiter_of(dialect);
            let d2 = delimiter_of(o.dialect);
            let r = rendered(b, t, o);
            let rc = parse_cells(b, d, p, i);
            let e = rc.1;
            let lt2 = if ltb is Some {
                ltb
            } else {
                terminator_kind(b, e)
            };
            let q = row_start(b, t, o, i);
            let ep = q + row_text(b, t, o, i).len();
            let rc2 = parse_cells(r, d2, q, i);
            let tl2 = terminator_len(r, ep);
            let next2 = ep + tl2;
            let ewn3 = tl2 > 0 && next2 == r.len();
            let b2 = parse_rows(r, d2, next2, i + 1, lt2, ewn3);
            let row2 = RowView { span: span_of(q, ep), cells: rc2.0 };
            &&& parse_rows(r, d2, q, i, ltb, ewnr) == (seq![row2] + b2.0, rc2.2 + b2.1, b2.2, b2.3)
            &&& row_read_back(r, row2, b, t, o, i)
            &&& error_row(t, i) ==> rc2.2 == shift_errors(rc.2, q - p)
            &&& !error_row(t, i) ==> rc2.2.len() == 0 && rc.2.len() == 0
            &&& i + 1 < n ==> next2 == row_start(b, t, o, i + 1)
            &&& i + 1 == n ==> next2 == r.len() && ewn3 == t.ends_with_newline
        }),
{
    let t = spec_parse(b, dialect);
    let d = delimiter_of(dialect);
    let d2 = delimiter_of(o.dialect);
    let r = rendered(b, t, o);
    let n = t.rows.len() as int;
    let q = row_start(b, t, o, i);
    lemma_delimiter_plain(dialect);
    lemma_source_bounds(b, dialect, i, p, ltb, ewnb);
    lemma_source_step(b, dialect, i, p, ltb, ewnb);
    let rc = parse_cells(b, d, p, i);
    let e = rc.1;
    lemma_row_in_rendering(b, t, o, i);
    let x = row_text(b, t, o, i);
    let ep = q + x.len();
    if i + 1 < n || t.ends_with_newline {
        lemma_read_terminator(r, ep, o.line_terminator);
    }
    assert(same_row_end(b, e, r, ep));
    lemma_reparse_row(b, t, o, i, p, r, q);
    if error_row(t, i) && e == p {
        lemma_empty_row_clean(b, d, p, i);
    }
    let rc2 = parse_cells(r, d2, q, i);
    assert(q < r.len());
    lemma_rows_step(r, d2, q, i, ltb, ewnr);
    reveal(row_read_back);
    if error_row(t, i) {
        assert(r.subrange(q, ep) =~= x) by {
            assert forall|k: int| 0 <= k < x.len() implies r.subrange(q, ep)[k] == x[k] by {
                assert(x[0 + k] == r[q + k]);
            }
        }
    }
}

/// The rows of the rendering read from row `i`'s text on are the source's
/// rows from `i` on, read back (one fewer when the last is dropped), with
/// the same error kinds and terminator state.
#[verifier::opaque]
pub open spec fn reads_back_from(
    b: Seq<u8>,
    dialect: Dialect,
    o: RenderOptionsView,
    i: int,
    p: int,
    ltb: Option<LineTerminator>,
    ewnb: bool,
    ewnr: bool,
) -> bool {
    let t = spec_parse(b, dialect);
    let d = delimiter_of(dialect);
    let d2 = delimiter_of(o.dialect);
    let r = rendered(b, t, o);
    let a = parse_rows(b, d, p, i, ltb, ewnb);
    let bb = parse_rows(r, d2, row_start(b, t, o, i), i, ltb, ewnr);
    &&& bb.0.len() == kept_rows(t) - i
    &&& forall|k: int| 0 <= k < bb.0.len() ==> row_read_back(r, #[trigger] bb.0[k], b, t, o, i + k)
    &&& same_error_kinds(a.1, bb.1)
    &&& bb.2 == a.2
    &&& bb.0.len() > 0 ==> bb.3 == (t.ends_with_newline || drops_last_row(t))
    &&& bb.0.len() == 0 ==> bb.3 == ewnr
}

/// Past the last row, both readings are done.
proof fn lemma_reparse_rows_end(
    b: Seq<u8>,
    dialect: Dialect,
    o: RenderOptionsView,
    i: int,
    p: int,
    ltb: Option<LineTerminator>,
    ewnb: bool,
    ewnr: bool,
)
    requires
        b.len() <= usize::MAX,
        faithful(spec_parse(b, dialect), o),
        source_from(b, dialect, i, p, ltb, ewnb),
        i == spec_parse(b, dialect).rows.len(),
        !drops_last_row(spec_parse(b, dialect)),
    ensures
        reads_back_from(b, dialect, o, i, p, ltb, ewnb, ewnr),
{
    reveal(source_from);
    reveal(reads_back_from);
    let t = spec_parse(b, dialect);
    let d = delimiter_of(dialect);
    let d2 = delimiter_of(o.dialect);
    let r = rendered(b, t, o);
    let n = t.rows.len() as int;
    let a = parse_rows(b, d, p, i, ltb, ewnb);
    let q = row_start(b, t, o, i);
    if p < b.len() {
        lemma_rows_step(b, d, p, i, ltb, ewnb);
        assert(a.0.len() >= 1);
    }
    lemma_rows_done(b, d, p, i, ltb, ewnb);
    assert(r == lead_bytes(o) + rows_text(b, t, o, n) + tail_bytes(t, o));
    assert(q >= r.len());
    lemma_rows_done(r, d2, q, i, ltb, ewnr);
}

/// The dropped last row leaves nothing to read.
proof fn lemma_reparse_rows_dropped(
    b: Seq<u8>,
    dialect: Dialect,
    o: RenderOptionsView,
    i: int,
    p: int,
    ltb: Option<LineTerminator>,
    ewnb: bool,
    ewnr: bool,
)
    requires
        b.len() <= usize::MAX,
        rendered(b, spec_parse(b, dialect), o).len() <= usize::MAX,
        faithful(spec_parse(b, dialect), o),
        source_from(b, dialect, i, p, ltb, ewnb),
        drops_last_row(spec_parse(b, dialect)),
        i == spec_parse(b, dialect).rows.len() - 1,
    ensures
        reads_back_from(b, dialect, o, i, p, ltb, ewnb, ewnr),
{
    let t = spec_parse(b, dialect);
    let d = delimiter_of(dialect);
    let d2 = delimiter_of(o.dialect);
    let r = rendered(b, t, o);
    let a = parse_rows(b, d, p, i, ltb, ewnb);
    let q = row_start(b, t, o, i);
    lemma_source_bounds(b, dialect, i, p, ltb, ewnb);
    lemma_source_step(b, dialect, i, p, ltb, ewnb);
    let rc = parse_cells(b, d, p, i);
    let e = rc.1;
    let tl = terminator_len(b, e);
    let next = e + tl;
    let lt2 = if ltb is Some {
        ltb
    } else {
        terminator_kind(b, e)
    };
    let ewn2 = tl > 0 && next == b.len();
    lemma_row_in_rendering(b, t, o, i);
    assert(row_text(b, t, o, i).len() == 0);
    lemma_rows_done(r, d2, q, i, ltb, ewnr);
    lemma_rows_done(b, d, next, i + 1, lt2, ewn2);
    reveal(reads_back_from);
    assert(a.1 =~= Seq::<ParseError>::empty());
}

/// Past the last row, a rendering has no more text.
proof fn lemma_past_last_row(b: Seq<u8>, t: TableView, o: RenderOptionsView)
    ensures
        row_start(b, t, o, t.rows.len() as int) >= rendered(b, t, o).len(),
{
    let n = t.rows.len() as int;
    assert(rendered(b, t, o) == lead_bytes(o) + rows_text(b, t, o, n) + tail_bytes(t, o));
}

/// Where the source reading goes on after row `i` at `p`.
pub open spec fn next_row_start(b: Seq<u8>, dialect: Dialect, p: int, i: int) -> int {
    let e = parse_cells(b, delimiter_of(dialect), p, i).1;
    e + terminator_len(b, e)
}

/// The source's terminator state after row `i` at `p`.
pub open spec fn next_terminator_state(
    b: Seq<u8>,
    dialect: Dialect,
    p: int,
    i: int,
    ltb: Option<LineTerminator>,
) -> Option<LineTerminator> {
    if ltb is Some {
        ltb
    } else {
        terminator_kind(b, parse_cells(b, delimiter_of(dialect), p, i).1)
    }
}

/// Whether the source ends with a terminator right after row `i` at `p`.
pub open spec fn next_newline_state(b: Seq<u8>, dialect: Dialect, p: int, i: int) -> bool {
    let e = parse_cells(b, delimiter_of(dialect), p, i).1;
    terminator_len(b, e) > 0 && e + terminator_len(b, e) == b.len()
}

/// Whether the rendering ends with a terminator right after row `i`.
pub open spec fn rendered_newline_state(b: Seq<u8>, dialect: Dialect, o: RenderOptionsView, i: int) -> bool {
    let t = spec_parse(b, dialect);
    let r = rendered(b, t, o);
    let ep = row_start(b, t, o, i) + row_text(b, t, o, i).len();
    terminator_len(r, ep) > 0 && ep + terminator_len(r, ep) == r.len()
}

/// One more row in front: if the rows from `i + 1` on read back, so do the
/// rows from `i` on.
#[verifier::spinoff_prover]
#[verifier::rlimit(100)]
proof fn lemma_reads_back_step(
    b: Seq<u8>,
    dialect: Dialect,
    o: RenderOptionsView,
    i: int,
    p: int,
    ltb: Option<LineTerminator>,
    ewnb: bool,
    ewnr: bool,
)
    requires
        b.len() <= usize::MAX,
        rendered(b, spec_parse(b, dialect), o).len() <= usize::MAX,
        faithful(spec_parse(b, dialect), o),
        source_from(b, dialect, i, p, ltb, ewnb),
        i < spec_parse(b, dialect).rows.len(),
        !(drops_last_row(spec_parse(b, dialect)) && i == spec_parse(b, dialect).rows.len() - 1),
        reads_back_from(
            b,
            dialect,
            o,
            i + 1,
            next_row_start(b, dialect, p, i),
            next_terminator_state(b, dialect, p, i, ltb),
            next_newline_state(b, dialect, p, i),
            rendered_newline_state(b, dialect, o, i),
        ),
    ensures
        reads_back_from(b, dialect, o, i, p, ltb, ewnb, ewnr),
{
    let t = spec_parse(b, dialect);
    let d = delimiter_of(dialect);
    let d2 = delimiter_of(o.dialect);
    let r = rendered(b, t, o);
    let n = t.rows.len() as int;
    let a = parse_rows(b, d, p, i, ltb, ewnb);
    let q = row_start(b, t, o, i);
    let bb = parse_rows(r, d2, q, i, ltb, ewnr);
    lemma_source_bounds(b, dialect, i, p, ltb, ewnb);
    reveal(reads_back_from);
    lemma_source_step(b, dialect, i, p, ltb, ewnb);
    let rc = parse_cells(b, d, p, i);
    let e = rc.1;
    let tl = terminator_len(b, e);
    let next = e + tl;
    let lt2 = if ltb is Some {
        ltb
    } else {
        terminator_kind(b, e)
    };
    let ewn2 = tl > 0 && next == b.len();
    let a2 = parse_rows(b, d, next, i + 1, lt2, ewn2);
    lemma_render_step(b, dialect, o, i, p, ltb, ewnb, ewnr);
    let ep = q + row_text(b, t, o, i).len();
    let rc2 = parse_cells(r, d2, q, i);
    let tl2 = terminator_len(r, ep);
    let next2 = ep + tl2;
    let ewn3 = tl2 > 0 && next2 == r.len();
    let b2 = parse_rows(r, d2, next2, i + 1, lt2, ewn3);
    let row2 = RowView { span: span_of(q, ep), cells: rc2.0 };
    if i + 1 == n {
        lemma_rows_done(r, d2, next2, i + 1, lt2, ewn3);
        lemma_past_last_row(b, t, o);
        lemma_rows_done(r, d2, row_start(b, t, o, n), i + 1, lt2, ewn3);
    }
    assert(bb.0 == seq![row2] + b2.0);
    lemma_rows_cons(r, row2, b2.0, b, t, o, i);
    assert(bb.1 == rc2.2 + b2.1);
    assert(a.1 == rc.2 + a2.1);
    lemma_kinds_cons(rc.2, a2.1, rc2.2, b2.1, q - p, error_row(t, i));
}

/// The rows of a rendering read back, from row `i` on, alongside the rows
/// of the source read from the same row.
proof fn lemma_reparse_rows(
    b: Seq<u8>,
    dialect: Dialect,
    o: RenderOptionsView,
    i: int,
    p: int,
    ltb: Option<LineTerminator>,
    ewnb: bool,
    ewnr: bool,
)
    requires
        b.len() <= usize::MAX,
        rendered(b, spec_parse(b, dialect), o).len() <= usize::MAX,
        faithful(spec_parse(b, dialect), o),
        source_from(b, dialect, i, p, ltb, ewnb),
        !(drops_last_row(spec_parse(b, dialect)) && i == spec_parse(b, dialect).rows.len()),
    ensures
        reads_back_from(b, dialect, o, i, p, ltb, ewnb, ewnr),
    decreases b.len() - p,
{
    let t = spec_parse(b, dialect);
    let n = t.rows.len() as int;
    lemma_source_bounds(b, dialect, i, p, ltb, ewnb);
    if i == n {
        lemma_reparse_rows_end(b, dialect, o, i, p, ltb, ewnb, ewnr);
    } else if drops_last_row(t) && i == n - 1 {
        lemma_reparse_rows_dropped(b, dialect, o, i, p, ltb, ewnb, ewnr);
    } else {
        lemma_source_step(b, dialect, i, p, ltb, ewnb);
        lemma_reparse_rows(
            b,
            dialect,
            o,
            i + 1,
            next_row_start(b, dialect, p, i),
            next_terminator_state(b, dialect, p, i, ltb),
            next_newline_state(b, dialect, p, i),
            rendered_newline_state(b, dialect, o, i),
        );
        lemma_reads_back_step(b, dialect, o, i, p, ltb, ewnb, ewnr);
    }
}

/// A byte that no byte-order mark contains.
pub open spec fn plain_byte(x: u8) -> bool {
    x == CR || x == LF || x == SPACE || x == QUOTE || x == 44u8 || x == 9u8 || x == 59u8 || x == 124u8
}

/// A text with a plain byte among its first three does not start with a
/// byte-order mark.
pub proof fn lemma_plain_no_bom(r: Seq<u8>, k: int)
    requires
        0 <= k < 3,
        k < r.len() ==> plain_byte(r[k]),
    ensures
        !has_bom_bytes(r),
{
}

/// Reading from the start of the text is reading the table.
pub proof fn lemma_source_top(b: Seq<u8>, dialect: Dialect)
    requires
        b.len() <= usize::MAX,
    ensures
        source_from(b, dialect, 0, body_start(b), None, false),
{
    reveal(source_from);
    let t = spec_parse(b, dialect);
    let top = parse_rows(b, delimiter_of(dialect), body_start(b), 0, None, false);
    assert(top.0 =~= t.rows.subrange(0, t.rows.len() as int));
    assert(t.errors.subrange(0, t.errors.len() as int) =~= top.1);
}

/// A rendering starts with a byte-order mark exactly when it emits one: a
/// first cell that would start with one is quoted.
#[verifier::spinoff_prover]
#[verifier::rlimit(60)]
proof fn lemma_rendered_bom(b: Seq<u8>, dialect: Dialect, o: RenderOptionsView)
    requires
        b.len() <= usize::MAX,
        rendered(b, spec_parse(b, dialect), o).len() <= usize::MAX,
        faithful(spec_parse(b, dialect), o),
    ensures
        has_bom_bytes(rendered(b, spec_parse(b, dialect), o)) == o.include_bom,
{
    let t = spec_parse(b, dialect);
    let d = delimiter_of(dialect);
    let d2 = delimiter_of(o.dialect);
    let r = rendered(b, t, o);
    let n = t.rows.len() as int;
    assert(r == lead_bytes(o) + rows_text(b, t, o, n) + tail_bytes(t, o));
    if o.include_bom {
        assert(r[0] == 0xEFu8 && r[1] == 0xBBu8 && r[2] == 0xBFu8);
    } else if n == 0 {
        assert(r.len() == 0);
    } else {
        lemma_delimiter_plain(dialect);
        lemma_delimiter_plain(o.dialect);
        lemma_source_top(b, dialect);
        assert(body_start(b) == 0);
        lemma_source_step(b, dialect, 0, 0, None, false);
        lemma_row_in_rendering(b, t, o, 0);
        let x = row_text(b, t, o, 0);
        assert(row_start(b, t, o, 0) == 0);
        if 1 < n || t.ends_with_newline {
            lemma_read_terminator(r, x.len() as int, o.line_terminator);
        }
        // After the first row's text comes a line break or the end.
        assert(x.len() < r.len() ==> plain_byte(r[x.len() as int]));
        let rc = parse_cells(b, d, 0, 0);
        if error_row(t, 0) {
            assert(x == b.subrange(0, rc.1));
            if x.len() >= 3 {
                assert(x[0 + 0int] == r[0 + 0int]);
                assert(x[0 + 1int] == r[0 + 1int]);
                assert(x[0 + 2int] == r[0 + 2int]);
            } else {
                lemma_plain_no_bom(r, x.len() as int);
            }
        } else if row_is_blank(t.rows[0]) {
            lemma_plain_no_bom(r, 0);
        } else {
            let m = t.rows[0].cells.len() as int;
            lemma_parse_cells(b, d, 0, 0);
            assert(m >= 1);
            lemma_cell_in_text(b, t, o, 0, 0, m);
            let y = cell_content(b, t, o, 0, 0);
            let pad = pad_after(b, t, o, 0, 0);
            assert(content_start(b, t, o, 0, 0) == 0);
            assert(x == cells_text(b, t, o, 0, m));
            lemma_cells_text_prefix(b, t, o, 0, 1, m);
            if 1 < m {
                lemma_cell_in_text(b, t, o, 0, 1, m);
            }
            let c = t.rows[0].cells[0];
            let pc = crate::render::policy_content(b, c, o.quote_policy, o.dialect);
            if starts_with_bom(pc) {
                assert(y == encoded(cell_value(b, c), delimiter_of(o.dialect), true));
                assert(x[0 + 0int] == r[0 + 0int]);
                lemma_plain_no_bom(r, 0);
            } else if y.len() >= 3 {
                assert(y == pc);
                assert(x[0 + 0int] == r[0 + 0int]);
                assert(x[0 + 1int] == r[0 + 1int]);
                assert(x[0 + 2int] == r[0 + 2int]);
                assert(pc.subrange(0, 3) != bom_bytes());
                if has_bom_bytes(r) {
                    assert(pc.subrange(0, 3) =~= bom_bytes());
                }
            } else {
                let k = y.len() as int;
                if k < x.len() {
                    assert(x[0 + k] == r[0 + k]);
                    if pad > 0 {
                        assert(x[k] == SPACE);
                    } else {
                        assert(x[k] == delimiter_of(o.dialect));
                    }
                }
                lemma_plain_no_bom(r, k);
            }
        }
    }
}

/// What reading a layout rendering gives back: as many rows as the source
/// kept, each read back (error rows verbatim, blank rows blank, the others
/// with their rendered contents), the same error kinds on the same rows,
/// and the same dialect, byte-order mark and terminator.
pub proof fn lemma_reparse(b: Seq<u8>, dialect: Dialect, o: RenderOptionsView)
    requires
        b.len() <= usize::MAX,
        rendered(b, spec_parse(b, dialect), o).len() <= usize::MAX,
        faithful(spec_parse(b, dialect), o),
    ensures
        ({
            let t = spec_parse(b, dialect);
            let r = rendered(b, t, o);
            let t2 = spec_parse(r, o.dialect);
            &&& t2.rows.len() == kept_rows(t)
            &&& forall|i: int| 0 <= i < t2.rows.len() ==> row_read_back(r, #[trigger] t2.rows[i], b, t, o, i)
            &&& same_error_kinds(t.errors, t2.errors)
            &&& t2.has_bom == t.has_bom
            &&& t2.line_terminator == t.line_terminator
            &&& t2.ends_with_newline == (kept_rows(t) > 0 && (t.ends_with_newline || drops_last_row(t)))
            &&& t2.dialect == o.dialect
        }),
{
    let t = spec_parse(b, dialect);
    let r = rendered(b, t, o);
    lemma_rendered_bom(b, dialect, o);
    lemma_source_top(b, dialect);
    assert(body_start(r) == row_start(b, t, o, 0));
    if drops_last_row(t) {
        assert(t.rows.len() > 0);
    }
    lemma_reparse_rows(b, dialect, o, 0, body_start(b), None, false, false);
    reveal(reads_back_from);
    let t2 = spec_parse(r, o.dialect);
    assert forall|i: int| 0 <= i < t2.rows.len() implies row_read_back(r, #[trigger] t2.rows[i], b, t, o, i) by {
        assert(0 + i == i);
    }
}

/// Tables with the same error kinds on the same rows have the same error
/// rows.
pub proof fn lemma_error_rows_agree(t: TableView, t2: TableView, i: int)
    requires
        same_error_kinds(t.errors, t2.errors),
    ensures
        error_row(t, i) == error_row(t2, i),
{
    if error_row(t, i) {
        let k = choose|k: int| 0 <= k < t.errors.len() && t.errors[k].row == i;
        assert(t2.errors[k].row == t.errors[k].row);
    }
    if error_row(t2, i) {
        let k = choose|k: int| 0 <= k < t2.errors.len() && t2.errors[k].row == i;
        assert(t2.errors[k].row == t.errors[k].row);
    }
}

/// Cell texts laid out alike agree when their contents do.
proof fn lemma_cells_text_agree(
    b1: Seq<u8>,
    t1: TableView,
    o1: RenderOptionsView,
    b2: Seq<u8>,
    t2: TableView,
    o2: RenderOptionsView,
    i: int,
    k: int,
)
    requires
        o1.align == o2.align,
        o1.dialect == o2.dialect,
        t1.rows[i].cells.len() == t2.rows[i].cells.len(),
        0 <= k,
        forall|j: int| 0 <= j < k ==> #[trigger] cell_content(b1, t1, o1, i, j) == cell_content(b2, t2, o2, i, j),
    ensures
        cells_text(b1, t1, o1, i, k) == cells_text(b2, t2, o2, i, k),
    decreases k,
{
    if k > 0 {
        lemma_cells_text_agree(b1, t1, o1, b2, t2, o2, i, k - 1);
        assert(cell_content(b1, t1, o1, i, k - 1) == cell_content(b2, t2, o2, i, k - 1));
    }
}

/// Row texts joined by the same terminator agree when the rows do.
proof fn lemma_rows_text_agree(
    b1: Seq<u8>,
    t1: TableView,
    o1: RenderOptionsView,
    b2: Seq<u8>,
    t2: TableView,
    o2: RenderOptionsView,
    k: int,
)
    requires
        o1.line_terminator == o2.line_terminator,
        0 <= k,
        forall|i: int| 0 <= i < k ==> #[trigger] row_text(b1, t1, o1, i) == row_text(b2, t2, o2, i),
    ensures
        rows_text(b1, t1, o1, k) == rows_text(b2, t2, o2, k),
    decreases k,
{
    if k > 0 {
        lemma_rows_text_agree(b1, t1, o1, b2, t2, o2, k - 1);
        assert(row_text(b1, t1, o1, k - 1) == row_text(b2, t2, o2, k - 1));
    }
}

/// Row `i` of a layout rendering, read back and laid out again, is row
/// `i` of the source laid out the same way.
proof fn lemma_layout_row_again(
    b: Seq<u8>,
    dialect: Dialect,
    o: RenderOptionsView,
    al: Option<Seq<usize>>,
    i: int,
)
    requires
        b.len() <= usize::MAX,
        rendered(b, spec_parse(b, dialect), o).len() <= usize::MAX,
        preserving(spec_parse(b, dialect), o),
        0 <= i < kept_rows(spec_parse(b, dialect)),
    ensures
        ({
            let t = spec_parse(b, dialect);
            let r = rendered(b, t, o);
            let t2 = spec_parse(r, dialect);
            row_text(r, t2, layout_options(t2, al), i) == row_text(b, t, layout_options(t, al), i)
        }),
{
    let t = spec_parse(b, dialect);
    let r = rendered(b, t, o);
    let t2 = spec_parse(r, dialect);
    let oc = layout_options(t, al);
    let oc2 = layout_options(t2, al);
    lemma_reparse(b, dialect, o);
    lemma_error_rows_agree(t, t2, i);
    assert(row_read_back(r, t2.rows[i], b, t, o, i));
    reveal(row_read_back);
    if !error_row(t, i) && !row_is_blank(t.rows[i]) {
        let m = t.rows[i].cells.len() as int;
        assert forall|j: int| 0 <= j < m implies #[trigger] cell_content(r, t2, oc2, i, j) == cell_content(
            b,
            t,
            oc,
            i,
            j,
        ) by {
            let y = cell_content(b, t, o, i, j);
            assert(t2.rows[i].cells[j] == t2.rows[i].cells[j]);
            assert(crate::render::policy_content(r, t2.rows[i].cells[j], oc2.quote_policy, oc2.dialect) == y);
            let c = t.rows[i].cells[j];
            let pc = crate::render::policy_content(b, c, o.quote_policy, o.dialect);
            if !o.include_bom && i == 0 && j == 0 && starts_with_bom(pc) {
                assert(y == encoded(cell_value(b, c), delimiter_of(o.dialect), true));
                assert(y[0] == QUOTE);
                assert(y.subrange(0, 3)[0] == QUOTE);
                assert(!starts_with_bom(y));
            }
        }
        lemma_cells_text_agree(r, t2, oc2, b, t, oc, i, m);
    }
}

/// Laying out a layout rendering of a text again gives the text laid out
/// that way: every layout keeps what the next layout reads.
pub proof fn lemma_layout_again(b: Seq<u8>, dialect: Dialect, o: RenderOptionsView, al: Option<Seq<usize>>)
    requires
        b.len() <= usize::MAX,
        rendered(b, spec_parse(b, dialect), o).len() <= usize::MAX,
        preserving(spec_parse(b, dialect), o),
    ensures
        ({
            let t = spec_parse(b, dialect);
            let r = rendered(b, t, o);
            let t2 = spec_parse(r, dialect);
            rendered(r, t2, layout_options(t2, al)) == rendered(b, t, layout_options(t, al))
        }),
{
    let t = spec_parse(b, dialect);
    let r = rendered(b, t, o);
    let t2 = spec_parse(r, dialect);
    let oc = layout_options(t, al);
    let oc2 = layout_options(t2, al);
    let n = t.rows.len() as int;
    let kept = kept_rows(t);
    lemma_reparse(b, dialect, o);
    assert forall|i: int| 0 <= i < kept implies #[trigger] row_text(r, t2, oc2, i) == row_text(b, t, oc, i) by {
        lemma_layout_row_again(b, dialect, o, al, i);
    }
    lemma_rows_text_agree(r, t2, oc2, b, t, oc, kept);
    if drops_last_row(t) {
        assert(rows_text(b, t, oc, n) == rows_text(b, t, oc, n - 1) + (if n - 1 > 0 {
            terminator_bytes(oc.line_terminator)
        } else {
            Seq::<u8>::empty()
        }) + row_text(b, t, oc, n - 1));
        assert(row_text(b, t, oc, n - 1) =~= Seq::<u8>::empty());
    }
    assert(rendered(r, t2, oc2) =~= rendered(b, t, oc));
}

/// Compacting a layout rendering of a text gives the text's compact form:
/// aligning or compacting changes nothing that compacting keeps.
pub proof fn law_compact_after_layout(b: Seq<u8>, dialect: Dialect, o: RenderOptionsView)
    requires
        b.len() <= usize::MAX,
        rendered(b, spec_parse(b, dialect), o).len() <= usize::MAX,
        preserving(spec_parse(b, dialect), o),
    ensures
        ({
            let t = spec_parse(b, dialect);
            let r = rendered(b, t, o);
            compact_text(r, spec_parse(r, dialect)) == compact_text(b, t)
        }),
{
    lemma_layout_again(b, dialect, o, None);
}

/// Compacting is idempotent: the compact form of a compact form is itself.
pub proof fn law_compact_idempotent(b: Seq<u8>, dialect: Dialect)
    requires
        b.len() <= usize::MAX,
        compact_text(b, spec_parse(b, dialect)).len() <= usize::MAX,
    ensures
        ({
            let c = compact_text(b, spec_parse(b, dialect));
            compact_text(c, spec_parse(c, dialect)) == c
        }),
{
    let t = spec_parse(b, dialect);
    law_compact_after_layout(b, dialect, layout_options(t, None));
}

/// Compacting undoes aligning: the compact form of the aligned form is
/// the compact form.
pub proof fn law_compact_undoes_align(b: Seq<u8>, dialect: Dialect)
    requires
        b.len() <= usize::MAX,
        aligned_text(b, spec_parse(b, dialect)).len() <= usize::MAX,
    ensures
        ({
            let t = spec_parse(b, dialect);
            let a = aligned_text(b, t);
            compact_text(a, spec_parse(a, dialect)) == compact_text(b, t)
        }),
{
    let t = spec_parse(b, dialect);
    law_compact_after_layout(b, dialect, layout_options(t, Some(layout_widths(b, t))));
}

/// Column widths `w` with the widths of row `i`'s cells merged in: each
/// column the larger of the two.
pub open spec fn merge_row(b: Seq<u8>, t: TableView, i: int, w: Seq<usize>) -> Seq<usize> {
    let m = t.rows[i].cells.len() as int;
    let len = if w.len() >= m {
        w.len() as int
    } else {
        m
    };
    Seq::new(
        len as nat,
        |j: int|
            {
                let a = if j < w.len() {
                    w[j] as int
                } else {
                    0
                };
                let c = if j < m {
                    measured_width(b, t, i, j)
                } else {
                    0
                };
                (if a >= c {
                    a
                } else {
                    c
                }) as usize
            },
    )
}

/// The column widths of the clean rows before `k`.
pub open spec fn widths_upto(b: Seq<u8>, t: TableView, k: int) -> Seq<usize>
    decreases k,
{
    if k <= 0 {
        Seq::empty()
    } else if clean_row(t, k - 1) {
        merge_row(b, t, k - 1, widths_upto(b, t, k - 1))
    } else {
        widths_upto(b, t, k - 1)
    }
}

/// A measured width fits a `usize`.
proof fn lemma_measured_range(b: Seq<u8>, t: TableView, i: int, j: int)
    ensures
        0 <= measured_width(b, t, i, j) <= usize::MAX,
{
}

/// The widths of the clean rows before `k` cover them, each attained.
proof fn lemma_widths_upto(b: Seq<u8>, t: TableView, k: int)
    requires
        0 <= k <= t.rows.len(),
    ensures
        widths_cover(b, t, k, widths_upto(b, t, k)),
        forall|j: int|
            0 <= j < widths_upto(b, t, k).len() ==> width_attained(
                b,
                t,
                k,
                j,
                #[trigger] widths_upto(b, t, k)[j] as int,
            ),
    decreases k,
{
    if k > 0 {
        lemma_widths_upto(b, t, k - 1);
        let w = widths_upto(b, t, k - 1);
        let w2 = widths_upto(b, t, k);
        let i = k - 1;
        if clean_row(t, i) {
            let m = t.rows[i].cells.len() as int;
            assert forall|j: int| 0 <= j < w2.len() implies width_attained(b, t, k, j, #[trigger] w2[j] as int) by {
                lemma_measured_range(b, t, i, j);
                if j < w.len() {
                    lemma_measured_range(b, t, i, j);
                    assert(width_attained(b, t, k - 1, j, w[j] as int));
                    let x = choose|x: int|
                        0 <= x < k - 1 && clean_row(t, x) && j < t.rows[x].cells.len() && #[trigger] measured_width(
                            b,
                            t,
                            x,
                            j,
                        ) == w[j] as int;
                    if j < m && measured_width(b, t, i, j) > w[j] {
                        assert(measured_width(b, t, i, j) == w2[j]);
                    } else {
                        assert(measured_width(b, t, x, j) == w2[j]);
                    }
                } else {
                    assert(measured_width(b, t, i, j) == w2[j]);
                }
            }
            assert forall|x: int, j: int|
                0 <= x < k && clean_row(t, x) && 0 <= j < t.rows[x].cells.len() implies #[trigger] fits_column(
                b,
                t,
                x,
                j,
                w2,
            ) by {
                lemma_measured_range(b, t, i, j);
                if x < k - 1 {
                    assert(fits_column(b, t, x, j, w));
                } else {
                    lemma_measured_range(b, t, x, j);
                }
            }
        } else {
            assert forall|j: int| 0 <= j < w2.len() implies width_attained(b, t, k, j, #[trigger] w2[j] as int) by {
                assert(width_attained(b, t, k - 1, j, w[j] as int));
                let x = choose|x: int|
                    0 <= x < k - 1 && clean_row(t, x) && j < t.rows[x].cells.len() && #[trigger] measured_width(
                        b,
                        t,
                        x,
                        j,
                    ) == w[j] as int;
                assert(measured_width(b, t, x, j) == w2[j]);
            }
            assert forall|x: int, j: int|
                0 <= x < k && clean_row(t, x) && 0 <= j < t.rows[x].cells.len() implies #[trigger] fits_column(
                b,
                t,
                x,
                j,
                w2,
            ) by {
                assert(fits_column(b, t, x, j, w));
            }
        }
    }
}

/// The layout widths cover every clean cell, each attained.
pub proof fn lemma_layout_widths(b: Seq<u8>, t: TableView)
    ensures
        widths_cover(b, t, t.rows.len() as int, layout_widths(b, t)),
        forall|j: int|
            0 <= j < layout_widths(b, t).len() ==> width_attained(
                b,
                t,
                t.rows.len() as int,
                j,
                #[trigger] layout_widths(b, t)[j] as int,
            ),
{
    lemma_widths_upto(b, t, t.rows.len() as int);
}

/// The renderer quotes the text's first cell: the text has no byte-order
/// mark, and its first cell, on a clean row, starts with one (left bare it
/// would be read back as the text's own mark).
pub open spec fn quotes_first_cell(b: Seq<u8>, t: TableView) -> bool {
    &&& !t.has_bom
    &&& t.rows.len() > 0
    &&& clean_row(t, 0)
    &&& starts_with_bom(
        b.subrange(
            t.rows[0].cells[0].content_span.start as int,
            t.rows[0].cells[0].content_span.end as int,
        ),
    )
}

/// The first cell of a text that the renderer quotes is unquoted in the
/// source, without a quote in it.
proof fn lemma_first_cell_bare(b: Seq<u8>, dialect: Dialect)
    requires
        b.len() <= usize::MAX,
        quotes_first_cell(b, spec_parse(b, dialect)),
    ensures
        ({
            let c = spec_parse(b, dialect).rows[0].cells[0];
            let x = b.subrange(c.content_span.start as int, c.content_span.end as int);
            &&& c.quoting == crate::parse::Quoting::Unquoted
            &&& !contains_byte(x, QUOTE)
            &&& double_quotes(x) == x
        }),
{
    let t = spec_parse(b, dialect);
    let d = delimiter_of(dialect);
    lemma_delimiter_plain(dialect);
    lemma_source_top(b, dialect);
    assert(body_start(b) == 0);
    lemma_source_step(b, dialect, 0, 0, None, false);
    let rc = parse_cells(b, d, 0, 0);
    lemma_parse_cells(b, d, 0, 0);
    assert(t.rows[0].cells == rc.0);
    lemma_clean_cells_shape(b, d, 0, 0);
    let c = t.rows[0].cells[0];
    assert(c == rc.0[0]);
    let x = b.subrange(c.content_span.start as int, c.content_span.end as int);
    assert(x.subrange(0, 3) == crate::text::bom_bytes());
    assert(x[0] == x.subrange(0, 3)[0]);
    assert(x[0] == 0xEFu8);
    assert(!quoted_content(x));
    assert(bare_content(x, d));
    assert(!contains_byte(x, QUOTE)) by {
        if contains_byte(x, QUOTE) {
            let k = choose|k: int| 0 <= k < x.len() && x[k] == QUOTE;
            assert(x[k] != QUOTE);
        }
    }
    lemma_doubled_plain(x);
}

/// A clean cell of a layout rendering, read back, measures what it
/// measured in the source.
proof fn lemma_measured_again(b: Seq<u8>, dialect: Dialect, o: RenderOptionsView, x: int, j: int)
    requires
        b.len() <= usize::MAX,
        rendered(b, spec_parse(b, dialect), o).len() <= usize::MAX,
        preserving(spec_parse(b, dialect), o),
        0 <= x < kept_rows(spec_parse(b, dialect)),
    ensures
        ({
            let t = spec_parse(b, dialect);
            let r = rendered(b, t, o);
            let t2 = spec_parse(r, dialect);
            &&& clean_row(t2, x) == clean_row(t, x)
            &&& t2.rows[x].cells.len() == t.rows[x].cells.len() || !clean_row(t, x)
            &&& clean_row(t, x) && 0 <= j < t.rows[x].cells.len() ==> measured_width(r, t2, x, j)
                == measured_width(b, t, x, j)
        }),
{
    let t = spec_parse(b, dialect);
    let r = rendered(b, t, o);
    let t2 = spec_parse(r, dialect);
    lemma_reparse(b, dialect, o);
    lemma_error_rows_agree(t, t2, x);
    assert(row_read_back(r, t2.rows[x], b, t, o, x));
    reveal(row_read_back);
    if clean_row(t, x) && 0 <= j < t.rows[x].cells.len() {
        let c = t.rows[x].cells[j];
        let pc = crate::render::policy_content(b, c, o.quote_policy, o.dialect);
        assert(t2.rows[x].cells[j] == t2.rows[x].cells[j]);
        if x == 0 && j == 0 && quotes_first_cell(b, t) {
            lemma_rendered_bom(b, dialect, o);
            lemma_first_cell_bare(b, dialect);
            let y = cell_content(b, t, o, 0, 0);
            assert(y == seq![QUOTE] + pc + seq![QUOTE]);
            assert(!starts_with_bom(y)) by {
                assert(y[0] == QUOTE);
                assert(y.subrange(0, 3)[0] == y[0]);
            }
        } else {
            assert(cell_content(b, t, o, x, j) == pc);
        }
    }
}

/// Aligning is idempotent: the aligned form of an aligned form is itself.
pub proof fn law_align_idempotent(b: Seq<u8>, dialect: Dialect)
    requires
        b.len() <= usize::MAX,
        aligned_text(b, spec_parse(b, dialect)).len() <= usize::MAX,
    ensures
        ({
            let a = aligned_text(b, spec_parse(b, dialect));
            aligned_text(a, spec_parse(a, dialect)) == a
        }),
{
    let t = spec_parse(b, dialect);
    let w = layout_widths(b, t);
    let oa = layout_options(t, Some(w));
    let a = rendered(b, t, oa);
    let t2 = spec_parse(a, dialect);
    let n = t.rows.len() as int;
    let n2 = t2.rows.len() as int;
    lemma_reparse(b, dialect, oa);
    lemma_layout_widths(b, t);
    lemma_layout_widths(a, t2);
    assert(widths_cover(a, t2, n2, w)) by {
        assert forall|x: int, j: int|
            0 <= x < n2 && clean_row(t2, x) && 0 <= j < t2.rows[x].cells.len() implies #[trigger] fits_column(
            a,
            t2,
            x,
            j,
            w,
        ) by {
            lemma_measured_again(b, dialect, oa, x, j);
            assert(fits_column(b, t, x, j, w));
        }
    }
    assert forall|j: int| 0 <= j < w.len() implies width_attained(a, t2, n2, j, #[trigger] w[j] as int) by {
        assert(width_attained(b, t, n, j, w[j] as int));
        let x = choose|x: int|
            0 <= x < n && clean_row(t, x) && j < t.rows[x].cells.len() && #[trigger] measured_width(b, t, x, j)
                == w[j] as int;
        assert(x < n2);
        lemma_measured_again(b, dialect, oa, x, j);
        assert(measured_width(a, t2, x, j) == w[j] as int);
    }
    crate::render::lemma_widths_unique(a, t2, layout_widths(a, t2), w);
    lemma_layout_again(b, dialect, oa, Some(w));
}

/// Aligning the compact form gives the aligned form.
pub proof fn law_align_after_compact(b: Seq<u8>, dialect: Dialect)
    requires
        b.len() <= usize::MAX,
        compact_text(b, spec_parse(b, dialect)).len() <= usize::MAX,
    ensures
        ({
            let c = compact_text(b, spec_parse(b, dialect));
            aligned_text(c, spec_parse(c, dialect)) == aligned_text(b, spec_parse(b, dialect))
        }),
{
    let t = spec_parse(b, dialect);
    let w = layout_widths(b, t);
    let oc = layout_options(t, None);
    let c = rendered(b, t, oc);
    let t2 = spec_parse(c, dialect);
    let n = t.rows.len() as int;
    let n2 = t2.rows.len() as int;
    lemma_reparse(b, dialect, oc);
    lemma_layout_widths(b, t);
    lemma_layout_widths(c, t2);
    assert(widths_cover(c, t2, n2, w)) by {
        assert forall|x: int, j: int|
            0 <= x < n2 && clean_row(t2, x) && 0 <= j < t2.rows[x].cells.len() implies #[trigger] fits_column(
            c,
            t2,
            x,
            j,
            w,
        ) by {
            lemma_measured_again(b, dialect, oc, x, j);
            assert(fits_column(b, t, x, j, w));
        }
    }
    assert forall|j: int| 0 <= j < w.len() implies width_attained(c, t2, n2, j, #[trigger] w[j] as int) by {
        assert(width_attained(b, t, n, j, w[j] as int));
        let x = choose|x: int|
            0 <= x < n && clean_row(t, x) && j < t.rows[x].cells.len() && #[trigger] measured_width(b, t, x, j)
                == w[j] as int;
        assert(x < n2);
        lemma_measured_again(b, dialect, oc, x, j);
        assert(measured_width(c, t2, x, j) == w[j] as int);
    }
    crate::render::lemma_widths_unique(c, t2, layout_widths(c, t2), w);
    lemma_layout_again(b, dialect, oc, Some(w));
}

/// Align and compact round-trip byte for byte: compacting the aligned
/// form gives the compact form, and aligning the compact form gives the
/// aligned form back.
pub proof fn law_align_compact_round_trip(b: Seq<u8>, dialect: Dialect)
    requires
        b.len() <= usize::MAX,
        aligned_text(b, spec_parse(b, dialect)).len() <= usize::MAX,
        compact_text(b, spec_parse(b, dialect)).len() <= usize::MAX,
    ensures
        ({
            let a = aligned_text(b, spec_parse(b, dialect));
            let c = compact_text(b, spec_parse(b, dialect));
            &&& compact_text(a, spec_parse(a, dialect)) == c
            &&& aligned_text(c, spec_parse(c, dialect)) == a
        }),
{
    law_compact_undoes_align(b, dialect);
    law_align_after_compact(b, dialect);
}

/// A row of a parse lies within the text.
pub proof fn lemma_row_within(b: Seq<u8>, dialect: Dialect, i: int)
    requires
        b.len() <= usize::MAX,
        0 <= i < spec_parse(b, dialect).rows.len(),
    ensures
        spec_parse(b, dialect).rows[i].span.start <= spec_parse(b, dialect).rows[i].span.end <= b.len(),
{
    crate::wellformed::law_parse_sound(b, dialect);
    assert(spec_parse(b, dialect).rows[i] == spec_parse(b, dialect).rows[i]);
}

/// A cell's content lies within its row.
pub proof fn lemma_content_within(b: Seq<u8>, dialect: Dialect, i: int, j: int)
    requires
        b.len() <= usize::MAX,
        0 <= i < spec_parse(b, dialect).rows.len(),
        0 <= j < spec_parse(b, dialect).rows[i].cells.len(),
    ensures
        ({
            let row = spec_parse(b, dialect).rows[i];
            row.span.start <= row.cells[j].content_span.start <= row.cells[j].content_span.end
                <= row.span.end <= b.len()
        }),
{
    crate::wellformed::law_parse_sound(b, dialect);
    let t = spec_parse(b, dialect);
    let row = t.rows[i];
    assert(t.rows[i] == row);
    assert(row.cells[j] == row.cells[j]);
    assert(crate::wellformed::cell_sound(b, row.cells[j]));
}

/// Cells moved along with their row's bytes keep their values and
/// blankness.
pub proof fn lemma_moved_values(r: Seq<u8>, r2: RowView, b: Seq<u8>, row: RowView)
    requires
        r2.span.start <= r2.span.end <= r.len(),
        row.span.start <= row.span.end <= b.len(),
        r.subrange(r2.span.start as int, r2.span.end as int) == b.subrange(
            row.span.start as int,
            row.span.end as int,
        ),
        r2.cells == shift_cells(row.cells, r2.span.start - row.span.start),
        r.len() <= usize::MAX,
        forall|j: int|
            0 <= j < row.cells.len() ==> row.span.start <= (#[trigger] row.cells[j]).content_span.start
                <= row.cells[j].content_span.end <= row.span.end,
    ensures
        row_is_blank(r2) == row_is_blank(row),
        forall|j: int|
            0 <= j < row.cells.len() ==> cell_value(r, #[trigger] r2.cells[j]) == cell_value(b, row.cells[j]),
{
    let p = row.span.start as int;
    let e = row.span.end as int;
    let q = r2.span.start as int;
    let delta = q - p;
    let rs = r.subrange(q, r2.span.end as int);
    let bs = b.subrange(p, e);
    assert(rs.len() == bs.len());
    assert(r2.span.end - q == e - p);
    assert forall|j: int| 0 <= j < row.cells.len() implies cell_value(r, #[trigger] r2.cells[j]) == cell_value(
        b,
        row.cells[j],
    ) by {
        let c = row.cells[j];
        assert(r2.cells[j] == shift_cell(c, delta));
        let cs = c.content_span.start as int;
        let ce = c.content_span.end as int;
        assert(0 <= cs + delta <= ce + delta <= r.len());
        assert(r2.cells[j].content_span.start as int == cs + delta);
        assert(r2.cells[j].content_span.end as int == ce + delta);
        assert(r.subrange(cs + delta, ce + delta) =~= b.subrange(cs, ce)) by {
            assert forall|k: int| 0 <= k < ce - cs implies r.subrange(cs + delta, ce + delta)[k] == b.subrange(
                cs,
                ce,
            )[k] by {
                assert(rs[cs - p + k] == bs[cs - p + k]);
            }
        }
    }
    if row.cells.len() == 1 {
        assert(r2.cells[0] == shift_cell(row.cells[0], delta));
    }
}

/// Row `i` of a faithful rendering, read back, has the source row's
/// blankness, cell count and cell values.
proof fn lemma_row_values_again(b: Seq<u8>, dialect: Dialect, o: RenderOptionsView, i: int)
    requires
        b.len() <= usize::MAX,
        rendered(b, spec_parse(b, dialect), o).len() <= usize::MAX,
        faithful(spec_parse(b, dialect), o),
        0 <= i < kept_rows(spec_parse(b, dialect)),
    ensures
        ({
            let t = spec_parse(b, dialect);
            let r = rendered(b, t, o);
            let t2 = spec_parse(r, o.dialect);
            &&& row_is_blank(t2.rows[i]) == row_is_blank(t.rows[i])
            &&& t2.rows[i].cells.len() == t.rows[i].cells.len()
            &&& forall|j: int|
                0 <= j < t.rows[i].cells.len() ==> cell_value(r, #[trigger] t2.rows[i].cells[j]) == cell_value(
                    b,
                    t.rows[i].cells[j],
                )
        }),
{
    let t = spec_parse(b, dialect);
    let r = rendered(b, t, o);
    let t2 = spec_parse(r, o.dialect);
    lemma_reparse(b, dialect, o);
    let row = t.rows[i];
    let r2 = t2.rows[i];
    assert(row_read_back(r, r2, b, t, o, i));
    reveal(row_read_back);
    if error_row(t, i) {
        lemma_row_within(r, o.dialect, i);
        lemma_row_within(b, dialect, i);
        assert forall|j: int| 0 <= j < row.cells.len() implies row.span.start <= (#[trigger] row.cells[j]).content_span.start
            <= row.cells[j].content_span.end <= row.span.end by {
            lemma_content_within(b, dialect, i, j);
        }
        lemma_moved_values(r, r2, b, row);
    } else if row_is_blank(row) {
        lemma_content_within(b, dialect, i, 0);
        lemma_content_within(r, o.dialect, i, 0);
        let c = row.cells[0];
        let c2 = r2.cells[0];
        assert(cell_value(b, c) =~= Seq::<u8>::empty());
        assert(cell_value(r, c2) =~= Seq::<u8>::empty());
    }
}

/// Layout is not data: reading a layout rendering back gives the source's
/// rows (less a dropped blank last row) with the same blankness, cell
/// counts and cell values, and the same error kinds on the same rows.
pub proof fn law_layout_preserves_content(b: Seq<u8>, dialect: Dialect, o: RenderOptionsView)
    requires
        b.len() <= usize::MAX,
        rendered(b, spec_parse(b, dialect), o).len() <= usize::MAX,
        preserving(spec_parse(b, dialect), o),
    ensures
        ({
            let t = spec_parse(b, dialect);
            let r = rendered(b, t, o);
            let t2 = spec_parse(r, dialect);
            &&& t2.rows.len() == kept_rows(t)
            &&& forall|i: int|
                0 <= i < t2.rows.len() ==> {
                    &&& row_is_blank(#[trigger] t2.rows[i]) == row_is_blank(t.rows[i])
                    &&& t2.rows[i].cells.len() == t.rows[i].cells.len()
                    &&& forall|j: int|
                        0 <= j < t.rows[i].cells.len() ==> cell_value(r, #[trigger] t2.rows[i].cells[j])
                            == cell_value(b, t.rows[i].cells[j])
                }
            &&& same_error_kinds(t.errors, t2.errors)
        }),
{
    let t = spec_parse(b, dialect);
    let r = rendered(b, t, o);
    let t2 = spec_parse(r, dialect);
    lemma_reparse(b, dialect, o);
    assert forall|i: int| 0 <= i < t2.rows.len() implies {
        &&& row_is_blank(#[trigger] t2.rows[i]) == row_is_blank(t.rows[i])
        &&& t2.rows[i].cells.len() == t.rows[i].cells.len()
        &&& forall|j: int|
            0 <= j < t.rows[i].cells.len() ==> cell_value(r, #[trigger] t2.rows[i].cells[j]) == cell_value(
                b,
                t.rows[i].cells[j],
            )
    } by {
        lemma_row_values_again(b, dialect, o, i);
    }
}

/// Converting a table without errors to another dialect loses nothing:
/// the converted text reads back without errors, with the source's rows
/// (less a dropped blank last row), their blankness, cell counts and cell
/// values.
pub proof fn law_conversion_lossless(b: Seq<u8>, from: Dialect, to: Dialect)
    requires
        b.len() <= usize::MAX,
        spec_parse(b, from).errors.len() == 0,
        converted_text(b, spec_parse(b, from), to).len() <= usize::MAX,
    ensures
        ({
            let t = spec_parse(b, from);
            let c = converted_text(b, t, to);
            let t2 = spec_parse(c, to);
            &&& t2.errors.len() == 0
            &&& t2.rows.len() == kept_rows(t)
            &&& forall|i: int|
                0 <= i < t2.rows.len() ==> {
                    &&& row_is_blank(#[trigger] t2.rows[i]) == row_is_blank(t.rows[i])
                    &&& t2.rows[i].cells.len() == t.rows[i].cells.len()
                    &&& forall|j: int|
                        0 <= j < t.rows[i].cells.len() ==> cell_value(c, #[trigger] t2.rows[i].cells[j])
                            == cell_value(b, t.rows[i].cells[j])
                }
        }),
{
    let t = spec_parse(b, from);
    let o = RenderOptionsView {
        dialect: to,
        align: None,
        quote_policy: QuotePolicy::PreserveOrRequired,
        line_terminator: t.line_terminator,
        include_bom: t.has_bom,
        final_newline: t.ends_with_newline,
    };
    let c = converted_text(b, t, to);
    assert(c == rendered(b, t, o));
    let t2 = spec_parse(c, to);
    lemma_reparse(b, from, o);
    assert forall|i: int| 0 <= i < t2.rows.len() implies {
        &&& row_is_blank(#[trigger] t2.rows[i]) == row_is_blank(t.rows[i])
        &&& t2.rows[i].cells.len() == t.rows[i].cells.len()
        &&& forall|j: int|
            0 <= j < t.rows[i].cells.len() ==> cell_value(c, #[trigger] t2.rows[i].cells[j]) == cell_value(
                b,
                t.rows[i].cells[j],
            )
    } by {
        lemma_row_values_again(b, from, o, i);
    }
}

// Reading a padded row: the same bytes, then extra delimiters.

/// Both positions end a cell.
pub open spec fn same_cell_end(b1: Seq<u8>, q1: int, b2: Seq<u8>, q2: int, d: u8) -> bool {
    is_cell_end(b1, d, q1) && is_cell_end(b2, d, q2)
}

/// The same bytes, each window ended by a cell end.
pub open spec fn same_cell_window(b1: Seq<u8>, p1: int, b2: Seq<u8>, p2: int, n: int, d: u8) -> bool {
    same_bytes(b1, p1, b2, p2, n) && same_cell_end(b1, p1 + n, b2, p2 + n, d)
}

/// Within such windows, every position but the end reads alike; at the
/// end both read as a cell end that is neither a space nor a quote.
proof fn lemma_cell_window_alike(b1: Seq<u8>, p1: int, b2: Seq<u8>, p2: int, n: int, x: int, d: u8)
    requires
        same_cell_window(b1, p1, b2, p2, n, d),
        p1 <= x <= p1 + n,
        d != SPACE,
        d != QUOTE,
    ensures
        is_cell_end(b1, d, x) == is_cell_end(b2, d, x + (p2 - p1)),
        (0 <= x < b1.len() && b1[x] == SPACE) == (0 <= x + (p2 - p1) < b2.len() && b2[x + (p2 - p1)]
            == SPACE),
        (0 <= x < b1.len() && b1[x] == QUOTE) == (0 <= x + (p2 - p1) < b2.len() && b2[x + (p2 - p1)]
            == QUOTE),
        x < p1 + n ==> (0 <= x < b1.len() && b1[x] == d) == (0 <= x + (p2 - p1) < b2.len() && b2[x + (
        p2 - p1)] == d),
{
    if x < p1 + n {
        assert(b1[p1 + (x - p1)] == b2[p2 + (x - p1)]);
    }
}

/// Skipping spaces reads alike within cell windows.
proof fn lemma_skip_window(b1: Seq<u8>, p1: int, b2: Seq<u8>, p2: int, n: int, x: int, d: u8)
    requires
        same_cell_window(b1, p1, b2, p2, n, d),
        p1 <= x <= p1 + n,
        d != SPACE,
        d != QUOTE,
    ensures
        skip_spaces(b2, x + (p2 - p1)) == skip_spaces(b1, x) + (p2 - p1),
        skip_spaces(b1, x) <= p1 + n,
    decreases p1 + n - x,
{
    lemma_cell_window_alike(b1, p1, b2, p2, n, x, d);
    if 0 <= x < b1.len() && b1[x] == SPACE {
        lemma_skip_window(b1, p1, b2, p2, n, x + 1, d);
    }
}

/// Finding a cell's end reads alike within cell windows.
proof fn lemma_stop_window(b1: Seq<u8>, p1: int, b2: Seq<u8>, p2: int, n: int, x: int, d: u8)
    requires
        same_cell_window(b1, p1, b2, p2, n, d),
        p1 <= x <= p1 + n,
        d != SPACE,
        d != QUOTE,
    ensures
        cell_stop(b2, d, x + (p2 - p1)) == cell_stop(b1, d, x) + (p2 - p1),
        cell_stop(b1, d, x) <= p1 + n,
    decreases p1 + n - x,
{
    lemma_cell_window_alike(b1, p1, b2, p2, n, x, d);
    if !is_cell_end(b1, d, x) {
        lemma_stop_window(b1, p1, b2, p2, n, x + 1, d);
    }
}

/// A cell without errors reads alike within cell windows, moved; whether
/// a delimiter follows may differ only at the window's end.
pub proof fn lemma_cell_window(
    b1: Seq<u8>,
    p1: int,
    b2: Seq<u8>,
    p2: int,
    n: int,
    s: int,
    d: u8,
    row: int,
)
    requires
        same_cell_window(b1, p1, b2, p2, n, d),
        p1 <= s <= p1 + n,
        parse_cell(b1, d, s, row).2 <= p1 + n,
        parse_cell(b1, d, s, row).3.len() == 0,
        d != CR,
        d != LF,
        d != SPACE,
        d != QUOTE,
        b1.len() <= usize::MAX,
        b2.len() <= usize::MAX,
    ensures
        ({
            let r = parse_cell(b1, d, s, row);
            let r2 = parse_cell(b2, d, s + (p2 - p1), row);
            &&& r2.0 == shift_cell(r.0, p2 - p1)
            &&& r2.2 == r.2 + (p2 - p1)
            &&& r2.3.len() == 0
            &&& r2.1 == (r.2 + (p2 - p1) < b2.len() && b2[r.2 + (p2 - p1)] == d)
            &&& r.2 < p1 + n ==> r2.1 == r.1
        }),
{
    reveal(parse_cell);
    let delta = p2 - p1;
    let r = parse_cell(b1, d, s, row);
    let c = skip_spaces(b1, s);
    lemma_skip_spaces(b1, s);
    lemma_skip_window(b1, p1, b2, p2, n, s, d);
    lemma_cell_window_alike(b1, p1, b2, p2, n, c, d);
    if 0 <= c < b1.len() && b1[c] == QUOTE {
        assert(c < p1 + n);
        let q = quoted_scan(b1, c + 1);
        lemma_quoted_scan(b1, c + 1);
        let close = q.0;
        let e = cell_stop(b1, d, close);
        lemma_cell_stop(b1, d, close);
        assert(q.1);
        lemma_cell_window_alike(b1, p1, b2, p2, n, p1 + n, d);
        lemma_scan_local(b1, p1, b2, p2, n, c + 1);
        lemma_stop_window(b1, p1, b2, p2, n, close, d);
        let g = skip_spaces(b1, close);
        lemma_skip_spaces(b1, close);
        lemma_skip_window(b1, p1, b2, p2, n, close, d);
        lemma_cell_window_alike(b1, p1, b2, p2, n, e, d);
        lemma_shift_span_of(s, e, delta);
        lemma_shift_span_of(c, close, delta);
    } else {
        let e = cell_stop(b1, d, c);
        lemma_cell_stop(b1, d, c);
        lemma_stop_window(b1, p1, b2, p2, n, c, d);
        lemma_cell_window_alike(b1, p1, b2, p2, n, e, d);
        lemma_trim_local(b1, p1, b2, p2, n, c, e);
        lemma_trim_end(b1, c, e);
        lemma_stray_local(b1, p1, b2, p2, n, c, e, row);
        lemma_shift_span_of(s, e, delta);
        lemma_shift_span_of(c, trim_end(b1, c, e), delta);
        lemma_shift_span_of(s, s, delta);
    }
}

/// A run of delimiters up to a row end reads as that many empty cells and
/// one more.
proof fn lemma_empty_cells(r: Seq<u8>, d: u8, x: int, j: int, row: int)
    requires
        0 <= x,
        0 <= j,
        x + j <= r.len(),
        forall|k: int| 0 <= k < j ==> #[trigger] r[x + k] == d,
        is_row_end(r, x + j),
        d != CR,
        d != LF,
        d != SPACE,
        d != QUOTE,
        r.len() <= usize::MAX,
    ensures
        parse_cells(r, d, x, row).0.len() == j + 1,
        parse_cells(r, d, x, row).1 == x + j,
        parse_cells(r, d, x, row).2.len() == 0,
        forall|y: int|
            0 <= y <= j ==> (#[trigger] parse_cells(r, d, x, row).0[y]).quoting == crate::parse::Quoting::Unquoted
                && parse_cells(r, d, x, row).0[y].content_span.start == parse_cells(r, d, x, row).0[y].content_span.end
                && parse_cells(r, d, x, row).0[y].content_span.end <= r.len(),
    decreases j,
{
    if j > 0 {
        assert(r[x + 0] == d);
    }
    assert(same_bytes(Seq::<u8>::empty(), 0, r, x, 0));
    lemma_read_cell(r, d, x, Seq::<u8>::empty(), 0, row);
    lemma_cells_step(r, d, x, row);
    let c = parse_cell(r, d, x, row);
    assert(r.subrange(c.0.content_span.start as int, c.0.content_span.end as int).len() == 0);
    if j > 0 {
        assert forall|k: int| 0 <= k < j - 1 implies #[trigger] r[(x + 1) + k] == d by {
            assert(r[x + (k + 1)] == d);
        }
        lemma_empty_cells(r, d, x + 1, j - 1, row);
        let all = parse_cells(r, d, x, row);
        let rest = parse_cells(r, d, x + 1, row);
        assert forall|y: int| 0 <= y <= j implies (#[trigger] all.0[y]).quoting == crate::parse::Quoting::Unquoted
            && all.0[y].content_span.start == all.0[y].content_span.end && all.0[y].content_span.end <= r.len() by {
            if y > 0 {
                assert(all.0[y] == rest.0[y - 1]);
            }
        }
    }
}

/// A row without errors followed by `k` extra delimiters reads as the
/// row's cells (moved) and `k` more, with no errors.
pub proof fn lemma_padded_cells(
    b1: Seq<u8>,
    p1: int,
    b2: Seq<u8>,
    p2: int,
    n: int,
    s: int,
    k: int,
    d: u8,
    row: int,
)
    requires
        same_bytes(b1, p1, b2, p2, n),
        is_row_end(b1, p1 + n),
        p1 <= s <= p1 + n,
        parse_cells(b1, d, s, row).1 == p1 + n,
        parse_cells(b1, d, s, row).2.len() == 0,
        0 <= k,
        p2 + n + k <= b2.len(),
        forall|j: int| 0 <= j < k ==> #[trigger] b2[p2 + n + j] == d,
        is_row_end(b2, p2 + n + k),
        d != CR,
        d != LF,
        d != SPACE,
        d != QUOTE,
        b1.len() <= usize::MAX,
        b2.len() <= usize::MAX,
    ensures
        ({
            let r1 = parse_cells(b1, d, s, row);
            let r2 = parse_cells(b2, d, s + (p2 - p1), row);
            &&& r2.0.len() == r1.0.len() + k
            &&& r2.1 == p2 + n + k
            &&& r2.2.len() == 0
            &&& forall|j: int| 0 <= j < r1.0.len() ==> #[trigger] r2.0[j] == shift_cell(r1.0[j], p2 - p1)
            &&& forall|j: int|
                r1.0.len() <= j < r2.0.len() ==> (#[trigger] r2.0[j]).quoting == crate::parse::Quoting::Unquoted
                    && r2.0[j].content_span.start == r2.0[j].content_span.end && r2.0[j].content_span.end <= b2.len()
        }),
    decreases b1.len() - s,
{
    let delta = p2 - p1;
    if k > 0 {
        assert(b2[p2 + n + 0] == d);
    }
    assert(same_cell_window(b1, p1, b2, p2, n, d));
    lemma_cells_step(b1, d, s, row);
    lemma_cells_step(b2, d, s + delta, row);
    lemma_parse_cell(b1, d, s, row);
    let c = parse_cell(b1, d, s, row);
    let all1 = parse_cells(b1, d, s, row);
    if c.1 && s <= c.2 < b1.len() {
        lemma_parse_cells(b1, d, c.2 + 1, row);
    }
    assert(c.3.len() == 0);
    lemma_cell_window(b1, p1, b2, p2, n, s, d, row);
    let c2 = parse_cell(b2, d, s + delta, row);
    let all2 = parse_cells(b2, d, s + delta, row);
    if c.1 && s <= c.2 < b1.len() {
        assert(c.2 < p1 + n);
        lemma_padded_cells(b1, p1, b2, p2, n, c.2 + 1, k, d, row);
        let rest1 = parse_cells(b1, d, c.2 + 1, row);
        let rest2 = parse_cells(b2, d, c.2 + 1 + delta, row);
        assert forall|j: int| 0 <= j < all1.0.len() implies #[trigger] all2.0[j] == shift_cell(all1.0[j], delta) by {
            if j > 0 {
                assert(all1.0[j] == rest1.0[j - 1]);
                assert(all2.0[j] == rest2.0[j - 1]);
            }
        }
        assert forall|j: int| all1.0.len() <= j < all2.0.len() implies (#[trigger] all2.0[j]).quoting
            == crate::parse::Quoting::Unquoted && all2.0[j].content_span.start == all2.0[j].content_span.end
            && all2.0[j].content_span.end <= b2.len() by {
            assert(all2.0[j] == rest2.0[j - 1]);
        }
    } else {
        assert(c.2 == p1 + n);
        if k > 0 {
            assert forall|i: int| 0 <= i < k - 1 implies #[trigger] b2[(p2 + n + 1) + i] == d by {
                assert(b2[p2 + n + (i + 1)] == d);
            }
            lemma_empty_cells(b2, d, p2 + n + 1, k - 1, row);
            let rest2 = parse_cells(b2, d, p2 + n + 1, row);
            assert forall|j: int| all1.0.len() <= j < all2.0.len() implies (#[trigger] all2.0[j]).quoting
                == crate::parse::Quoting::Unquoted && all2.0[j].content_span.start == all2.0[j].content_span.end
                && all2.0[j].content_span.end <= b2.len() by {
                assert(all2.0[j] == rest2.0[j - 1]);
            }
        }
    }
}

} // verus!
