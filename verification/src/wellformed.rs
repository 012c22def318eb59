//! The shape of every table the parser produces: spans lie within the text
//! on character boundaries, cells tile their row with one delimiter between
//! neighbours, padding is spaces, rows are separated by exactly one
//! terminator, and every error lies within the row it names.

use vstd::prelude::*;
use vstd::utf8::*;

use crate::dialect::{delimiter_of, Dialect};
use crate::grammar::{
    body_start, cell_stop, has_bom_bytes, lemma_cell_stop, lemma_parse_cell, lemma_parse_cells,
    lemma_quoted_scan, lemma_row_progress, lemma_cells_step, lemma_rows_done, lemma_rows_step, lemma_skip_spaces, lemma_trim_end, parse_cell, parse_cells,
    parse_rows, quoted_scan, skip_spaces, span_of, spec_parse, stray_quotes, terminator_kind,
    terminator_len, trim_end, CR, LF, QUOTE, SPACE,
};
use crate::parse::{Cell, ParseError, ParseErrorKind, RowView, Span, TableView};
use crate::edits::splits_crlf_at;
use crate::grammar::{error_at, is_cell_end};

verus! {

broadcast use vstd::utf8::group_utf8_lib;

/// A position next to an ASCII byte, at either end of the text, or right
/// after a leading byte-order mark: such positions are character
/// boundaries of valid text.
pub open spec fn edge(b: Seq<u8>, p: int) -> bool {
    ||| p == 0
    ||| p == b.len()
    ||| (0 <= p < b.len() && b[p] < 0x80)
    ||| (0 < p <= b.len() && b[p - 1] < 0x80)
    ||| (p == 3 && has_bom_bytes(b))
}

/// A span within `lo..hi`.
pub open spec fn span_within(sp: Span, lo: int, hi: int) -> bool {
    lo <= sp.start && sp.start <= sp.end && sp.end <= hi
}

/// Both ends of a span are edges.
pub open spec fn span_edges(b: Seq<u8>, sp: Span) -> bool {
    edge(b, sp.start as int) && edge(b, sp.end as int)
}

/// Every byte of `b[lo..hi]` is a space.
#[verifier::opaque]
pub open spec fn all_spaces(b: Seq<u8>, lo: int, hi: int) -> bool {
    forall|k: int| lo <= k < hi ==> b[k] == SPACE
}

/// A cell's spans are edge-bounded and nested; its leading padding is
/// spaces.
pub open spec fn cell_sound(b: Seq<u8>, c: Cell) -> bool {
    &&& span_edges(b, c.span)
    &&& span_edges(b, c.content_span)
    &&& c.span.start <= c.content_span.start <= c.content_span.end <= c.span.end
    &&& all_spaces(b, c.span.start as int, c.content_span.start as int)
}

/// Cells that tile `lo..hi`, with exactly one delimiter `d` between
/// neighbours.
pub open spec fn cells_tile(b: Seq<u8>, d: u8, cells: Seq<Cell>, lo: int, hi: int) -> bool {
    &&& cells.len() >= 1
    &&& cells[0].span.start == lo
    &&& cells.last().span.end == hi
    &&& forall|j: int|
        0 <= j < cells.len() ==> cell_sound(b, #[trigger] cells[j]) && span_within(
            cells[j].span,
            lo,
            hi,
        )
    &&& forall|j: int| 0 <= j < cells.len() - 1 ==> #[trigger] cells_adjacent(b, d, cells, j)
}

/// Cells `j` and `j + 1` are separated by exactly one delimiter.
pub open spec fn cells_adjacent(b: Seq<u8>, d: u8, cells: Seq<Cell>, j: int) -> bool {
    cells[j].span.end + 1 == cells[j + 1].span.start && b[cells[j].span.end as int] == d
}

/// Rows `i` and `i + 1` are separated by exactly one terminator.
pub open spec fn rows_adjacent(b: Seq<u8>, rows: Seq<RowView>, i: int) -> bool {
    &&& terminator_len(b, rows[i].span.end as int) > 0
    &&& rows[i + 1].span.start == rows[i].span.end + terminator_len(b, rows[i].span.end as int)
}

/// Errors of row `row`, each edge-bounded within `lo..hi`.
pub open spec fn errors_within(b: Seq<u8>, es: Seq<ParseError>, row: int, lo: int, hi: int) -> bool {
    forall|k: int|
        0 <= k < es.len() ==> (#[trigger] es[k]).row == row && span_within(es[k].span, lo, hi)
            && span_edges(b, es[k].span)
}

/// The shape of the rows and errors read from `p` on, numbered from `idx`.
pub open spec fn rows_sound(
    b: Seq<u8>,
    d: u8,
    p: int,
    idx: int,
    rows: Seq<RowView>,
    errors: Seq<ParseError>,
) -> bool {
    &&& forall|i: int|
        #![trigger rows[i]]
        0 <= i < rows.len() ==> {
            &&& span_edges(b, rows[i].span)
            &&& span_within(rows[i].span, p, b.len() as int)
            &&& cells_tile(
                b,
                d,
                rows[i].cells,
                rows[i].span.start as int,
                rows[i].span.end as int,
            )
        }
    &&& rows.len() > 0 ==> rows[0].span.start == p
    &&& forall|i: int| 0 <= i < rows.len() - 1 ==> #[trigger] rows_adjacent(b, rows, i)
    &&& forall|k: int|
        #![trigger errors[k]]
        0 <= k < errors.len() ==> {
            &&& idx <= errors[k].row < idx + rows.len()
            &&& span_within(
                errors[k].span,
                rows[errors[k].row - idx].span.start as int,
                rows[errors[k].row - idx].span.end as int,
            )
            &&& span_edges(b, errors[k].span)
        }
}

/// Edges of valid text are character boundaries.
pub proof fn lemma_edge_boundary(b: Seq<u8>, p: int)
    requires
        valid_utf8(b),
        0 <= p <= b.len(),
        edge(b, p),
    ensures
        is_char_boundary(b, p),
{
    is_char_boundary_start_end_of_seq(b);
    if p == 0 || p == b.len() {
    } else if 0 <= p < b.len() && b[p] < 0x80 {
        crate::text::lemma_ascii_boundaries(b, p);
    } else if 0 < p <= b.len() && b[p - 1] < 0x80 {
        crate::text::lemma_ascii_boundaries(b, p - 1);
    } else {
        assert(length_of_first_scalar(b) == 3);
        reveal_with_fuel(is_char_boundary, 2);
    }
}

proof fn lemma_stray_quotes(b: Seq<u8>, lo: int, hi: int, row: int)
    requires
        0 <= lo <= hi <= b.len(),
        row <= usize::MAX,
        b.len() <= usize::MAX,
        0 <= row,
    ensures
        errors_within(b, stray_quotes(b, lo, hi, row), row, lo, hi),
    decreases hi - lo,
{
    if hi > lo {
        lemma_stray_quotes(b, lo, hi - 1, row);
    }
}

proof fn lemma_cell_sound(b: Seq<u8>, d: u8, s: int, row: int)
    requires
        0 <= s <= b.len(),
        b.len() <= usize::MAX,
        0 <= row <= usize::MAX,
        d < 0x80,
        d != SPACE,
        edge(b, s),
    ensures
        ({
            let r = parse_cell(b, d, s, row);
            &&& cell_sound(b, r.0)
            &&& r.0.span.start == s
            &&& r.0.span.end == r.2
            &&& edge(b, r.2)
            &&& errors_within(b, r.3, row, s, r.2)
        }),
{
    reveal(parse_cell);
    reveal(all_spaces);
    let c = skip_spaces(b, s);
    lemma_skip_spaces(b, s);
    lemma_parse_cell(b, d, s, row);
    if 0 <= c < b.len() && b[c] == QUOTE {
        let q = quoted_scan(b, c + 1);
        lemma_quoted_scan(b, c + 1);
        let close = q.0;
        let e = cell_stop(b, d, close);
        lemma_cell_stop(b, d, close);
        let g = skip_spaces(b, close);
        lemma_skip_spaces(b, close);
        if g < e {
            lemma_trim_end(b, g, e);
            assert(b[g] != SPACE);
            assert(trim_end(b, g, e) > g);
        }
        if !q.1 {
            assert(e == b.len());
        }
    } else {
        let e = cell_stop(b, d, c);
        lemma_cell_stop(b, d, c);
        lemma_trim_end(b, c, e);
        lemma_stray_quotes(b, c, e, row);
        let r = parse_cell(b, d, s, row);
        assert forall|k: int| 0 <= k < r.3.len() implies (#[trigger] r.3[k]).row == row && span_within(
            r.3[k].span,
            s,
            e,
        ) && span_edges(b, r.3[k].span) by {}
    }
}

proof fn lemma_cells_cons(b: Seq<u8>, d: u8, c: Cell, rest: Seq<Cell>, s: int, e: int, hi: int)
    requires
        cell_sound(b, c),
        c.span.start == s,
        c.span.end == e,
        0 <= e < b.len(),
        b[e] == d,
        cells_tile(b, d, rest, e + 1, hi),
    ensures
        cells_tile(b, d, seq![c] + rest, s, hi),
{
    let all = seq![c] + rest;
    assert(all.last() == rest.last());
    assert forall|j: int| 0 <= j < all.len() implies cell_sound(b, #[trigger] all[j])
        && span_within(all[j].span, s, hi) by {
        if j > 0 {
            assert(all[j] == rest[j - 1]);
        }
    }
    assert forall|j: int| 0 <= j < all.len() - 1 implies #[trigger] cells_adjacent(b, d, all, j) by {
        if j > 0 {
            assert(all[j] == rest[j - 1]);
            assert(all[j + 1] == rest[j]);
            assert(cells_adjacent(b, d, rest, j - 1));
        } else {
            assert(all[1] == rest[0]);
        }
    }
}

proof fn lemma_errors_cat(
    b: Seq<u8>,
    es1: Seq<ParseError>,
    es2: Seq<ParseError>,
    row: int,
    lo: int,
    mid: int,
    hi: int,
)
    requires
        errors_within(b, es1, row, lo, mid),
        errors_within(b, es2, row, mid, hi),
        lo <= mid <= hi,
    ensures
        errors_within(b, es1 + es2, row, lo, hi),
{
    let all = es1 + es2;
    assert forall|k: int| 0 <= k < all.len() implies (#[trigger] all[k]).row == row && span_within(
        all[k].span,
        lo,
        hi,
    ) && span_edges(b, all[k].span) by {
        if k < es1.len() {
            assert(all[k] == es1[k]);
        } else {
            assert(all[k] == es2[k - es1.len()]);
        }
    }
}

proof fn lemma_cells_sound(b: Seq<u8>, d: u8, s: int, row: int)
    requires
        0 <= s <= b.len(),
        b.len() <= usize::MAX,
        0 <= row <= usize::MAX,
        d < 0x80,
        d != SPACE,
        edge(b, s),
    ensures
        ({
            let r = parse_cells(b, d, s, row);
            &&& cells_tile(b, d, r.0, s, r.1)
            &&& edge(b, r.1)
            &&& errors_within(b, r.2, row, s, r.1)
        }),
    decreases b.len() - s,
{
    lemma_cell_sound(b, d, s, row);
    lemma_parse_cell(b, d, s, row);
    lemma_cells_step(b, d, s, row);
    let c = parse_cell(b, d, s, row);
    if c.1 && s <= c.2 < b.len() {
        lemma_cells_sound(b, d, c.2 + 1, row);
        lemma_parse_cells(b, d, c.2 + 1, row);
        let rest = parse_cells(b, d, c.2 + 1, row);
        lemma_cells_cons(b, d, c.0, rest.0, s, c.2, rest.1);
        lemma_errors_cat(b, c.3, rest.2, row, s, c.2, rest.1);
    } else {
        let r = parse_cells(b, d, s, row);
        assert(r.0.last() == c.0);
        assert(r.0[0] == c.0);
    }
}

proof fn lemma_rows_sound(
    b: Seq<u8>,
    d: u8,
    p: int,
    idx: int,
    lt: Option<crate::parse::LineTerminator>,
    ewn: bool,
)
    requires
        0 <= p <= b.len(),
        b.len() <= usize::MAX,
        0 <= idx,
        idx + b.len() - p <= usize::MAX,
        d < 0x80,
        d != SPACE,
        d != LF,
        d != CR,
        edge(b, p),
    ensures
        ({
            let r = parse_rows(b, d, p, idx, lt, ewn);
            &&& rows_sound(b, d, p, idx, r.0, r.1)
            &&& r.0.len() <= b.len() - p
        }),
    decreases b.len() - p,
{
    reveal(parse_rows);
    if p < b.len() {
        lemma_cells_sound(b, d, p, idx);
        lemma_parse_cells(b, d, p, idx);
        lemma_row_progress(b, d, p, idx);
        let r = parse_cells(b, d, p, idx);
        let e = r.1;
        let t = terminator_len(b, e);
        let next = e + t;
        let lt2 = if lt is Some {
            lt
        } else {
            terminator_kind(b, e)
        };
        let ewn2 = t > 0 && next == b.len();
        assert(edge(b, next));
        lemma_rows_sound(b, d, next, idx + 1, lt2, ewn2);
        let rest = parse_rows(b, d, next, idx + 1, lt2, ewn2);
        let all = parse_rows(b, d, p, idx, lt, ewn);
        let row = RowView { span: span_of(p, e), cells: r.0 };
        assert(all.0 == seq![row] + rest.0);
        assert(all.1 == r.2 + rest.1);
        assert forall|i: int| #![trigger all.0[i]] 0 <= i < all.0.len() implies {
            &&& span_edges(b, all.0[i].span)
            &&& span_within(all.0[i].span, p, b.len() as int)
            &&& cells_tile(
                b,
                d,
                all.0[i].cells,
                all.0[i].span.start as int,
                all.0[i].span.end as int,
            )
        } by {
            if i > 0 {
                assert(all.0[i] == rest.0[i - 1]);
            }
        }
        assert forall|i: int| 0 <= i < all.0.len() - 1 implies #[trigger] rows_adjacent(b, all.0, i) by {
            if i > 0 {
                assert(all.0[i] == rest.0[i - 1]);
                assert(all.0[i + 1] == rest.0[i]);
                assert(rows_adjacent(b, rest.0, i - 1));
            } else {
                assert(all.0[1] == rest.0[0]);
                if t == 0 {
                    assert(e == b.len());
                }
            }
        }
        assert forall|k: int| #![trigger all.1[k]] 0 <= k < all.1.len() implies {
            &&& idx <= all.1[k].row < idx + all.0.len()
            &&& span_within(
                all.1[k].span,
                all.0[all.1[k].row - idx].span.start as int,
                all.0[all.1[k].row - idx].span.end as int,
            )
            &&& span_edges(b, all.1[k].span)
        } by {
            if k < r.2.len() {
                assert(all.1[k] == r.2[k]);
            } else {
                assert(all.1[k] == rest.1[k - r.2.len()]);
                let j = all.1[k].row - idx;
                assert(all.0[j] == rest.0[j - 1]);
            }
        }
    }
}

/// A cell's trailing padding, after its content, is spaces.
pub open spec fn trailing_spaces(b: Seq<u8>, c: Cell) -> bool {
    all_spaces(b, c.content_span.end as int, c.span.end as int)
}

/// A cell read without errors has only spaces after its content.
proof fn lemma_cell_trailing(b: Seq<u8>, d: u8, s: int, row: int)
    requires
        0 <= s <= b.len(),
        b.len() <= usize::MAX,
    ensures
        parse_cell(b, d, s, row).3.len() == 0 ==> trailing_spaces(b, parse_cell(b, d, s, row).0),
{
    reveal(parse_cell);
    reveal(all_spaces);
    let c = skip_spaces(b, s);
    lemma_skip_spaces(b, s);
    if 0 <= c < b.len() && b[c] == QUOTE {
        let q = quoted_scan(b, c + 1);
        lemma_quoted_scan(b, c + 1);
        let close = q.0;
        let e = cell_stop(b, d, close);
        lemma_cell_stop(b, d, close);
        lemma_skip_spaces(b, close);
    } else {
        let e = cell_stop(b, d, c);
        lemma_cell_stop(b, d, c);
        lemma_trim_end(b, c, e);
    }
}

/// The cells of a row read without errors have only spaces after their
/// content.
proof fn lemma_cells_trailing(b: Seq<u8>, d: u8, s: int, row: int)
    requires
        0 <= s <= b.len(),
        b.len() <= usize::MAX,
    ensures
        parse_cells(b, d, s, row).2.len() == 0 ==> forall|j: int|
            0 <= j < parse_cells(b, d, s, row).0.len() ==> trailing_spaces(b, #[trigger] parse_cells(b, d, s, row).0[j]),
    decreases b.len() - s,
{
    lemma_cell_trailing(b, d, s, row);
    lemma_parse_cell(b, d, s, row);
    lemma_cells_step(b, d, s, row);
    let c = parse_cell(b, d, s, row);
    let all = parse_cells(b, d, s, row);
    if c.1 && s <= c.2 < b.len() {
        lemma_cells_trailing(b, d, c.2 + 1, row);
        let rest = parse_cells(b, d, c.2 + 1, row);
        if all.2.len() == 0 {
            assert(c.3.len() == 0 && rest.2.len() == 0);
            assert forall|j: int| 0 <= j < all.0.len() implies trailing_spaces(b, #[trigger] all.0[j]) by {
                if j > 0 {
                    assert(all.0[j] == rest.0[j - 1]);
                }
            }
        }
    }
}

/// The rows read from `p` on that no error points at have only spaces
/// after the content of each cell.
proof fn lemma_rows_trailing(
    b: Seq<u8>,
    d: u8,
    p: int,
    idx: int,
    lt: Option<crate::parse::LineTerminator>,
    ewn: bool,
)
    requires
        0 <= p <= b.len(),
        b.len() <= usize::MAX,
        0 <= idx,
        idx + b.len() - p <= usize::MAX,
        d < 0x80,
        d != SPACE,
        d != LF,
        d != CR,
        edge(b, p),
    ensures
        ({
            let r = parse_rows(b, d, p, idx, lt, ewn);
            forall|i: int, j: int|
                0 <= i < r.0.len() && (forall|k: int| 0 <= k < r.1.len() ==> r.1[k].row != idx + i) && 0 <= j
                    < r.0[i].cells.len() ==> trailing_spaces(b, #[trigger] r.0[i].cells[j])
        }),
    decreases b.len() - p,
{
    reveal(parse_rows);
    if p < b.len() {
        lemma_cells_sound(b, d, p, idx);
        lemma_cells_trailing(b, d, p, idx);
        lemma_parse_cells(b, d, p, idx);
        lemma_row_progress(b, d, p, idx);
        let r = parse_cells(b, d, p, idx);
        let e = r.1;
        let t = terminator_len(b, e);
        let next = e + t;
        let lt2 = if lt is Some {
            lt
        } else {
            terminator_kind(b, e)
        };
        let ewn2 = t > 0 && next == b.len();
        assert(edge(b, next));
        lemma_rows_trailing(b, d, next, idx + 1, lt2, ewn2);
        let rest = parse_rows(b, d, next, idx + 1, lt2, ewn2);
        let all = parse_rows(b, d, p, idx, lt, ewn);
        let row = RowView { span: span_of(p, e), cells: r.0 };
        assert(all.0 == seq![row] + rest.0);
        assert(all.1 == r.2 + rest.1);
        assert forall|i: int, j: int|
            0 <= i < all.0.len() && (forall|k: int| 0 <= k < all.1.len() ==> all.1[k].row != idx + i) && 0 <= j
                < all.0[i].cells.len() implies trailing_spaces(b, #[trigger] all.0[i].cells[j]) by {
            if i == 0 {
                if r.2.len() > 0 {
                    assert(all.1[0] == r.2[0]);
                    assert(r.2[0].row == idx);
                }
                assert(all.0[0].cells[j] == r.0[j]);
            } else {
                assert(all.0[i] == rest.0[i - 1]);
                assert forall|k: int| 0 <= k < rest.1.len() implies rest.1[k].row != (idx + 1) + (i - 1) by {
                    assert(all.1[k + r.2.len()] == rest.1[k]);
                }
            }
        }
    }
}

/// A cell's content, when not empty, neither starts nor ends with a space.
pub open spec fn content_trimmed(b: Seq<u8>, c: Cell) -> bool {
    c.content_span.start < c.content_span.end ==> b[c.content_span.start as int] != SPACE
        && b[c.content_span.end - 1] != SPACE
}

/// A cell read without errors has a content that neither starts nor ends
/// with a space: an unquoted content is trimmed, a quoted one runs from
/// quote to quote.
proof fn lemma_cell_content_ends(b: Seq<u8>, d: u8, s: int, row: int)
    requires
        0 <= s <= b.len(),
        b.len() <= usize::MAX,
    ensures
        parse_cell(b, d, s, row).3.len() == 0 ==> content_trimmed(b, parse_cell(b, d, s, row).0),
{
    reveal(parse_cell);
    let c = skip_spaces(b, s);
    lemma_skip_spaces(b, s);
    if 0 <= c < b.len() && b[c] == QUOTE {
        let q = quoted_scan(b, c + 1);
        lemma_quoted_scan(b, c + 1);
        let close = q.0;
        let e = cell_stop(b, d, close);
        lemma_cell_stop(b, d, close);
        lemma_skip_spaces(b, close);
    } else {
        let e = cell_stop(b, d, c);
        lemma_cell_stop(b, d, c);
        lemma_trim_end(b, c, e);
    }
}

/// The cells of a row read without errors have contents that neither start
/// nor end with a space.
proof fn lemma_cells_content_ends(b: Seq<u8>, d: u8, s: int, row: int)
    requires
        0 <= s <= b.len(),
        b.len() <= usize::MAX,
    ensures
        parse_cells(b, d, s, row).2.len() == 0 ==> forall|j: int|
            0 <= j < parse_cells(b, d, s, row).0.len() ==> content_trimmed(b, #[trigger] parse_cells(b, d, s, row).0[j]),
    decreases b.len() - s,
{
    lemma_cell_content_ends(b, d, s, row);
    lemma_parse_cell(b, d, s, row);
    lemma_cells_step(b, d, s, row);
    let c = parse_cell(b, d, s, row);
    let all = parse_cells(b, d, s, row);
    if c.1 && s <= c.2 < b.len() {
        lemma_cells_content_ends(b, d, c.2 + 1, row);
        let rest = parse_cells(b, d, c.2 + 1, row);
        if all.2.len() == 0 {
            assert(c.3.len() == 0 && rest.2.len() == 0);
            assert forall|j: int| 0 <= j < all.0.len() implies content_trimmed(b, #[trigger] all.0[j]) by {
                if j > 0 {
                    assert(all.0[j] == rest.0[j - 1]);
                }
            }
        }
    }
}

/// The rows read from `p` on that no error points at have cell contents that neither
/// start nor end with a space.
proof fn lemma_rows_content_ends(
    b: Seq<u8>,
    d: u8,
    p: int,
    idx: int,
    lt: Option<crate::parse::LineTerminator>,
    ewn: bool,
)
    requires
        0 <= p <= b.len(),
        b.len() <= usize::MAX,
        0 <= idx,
        idx + b.len() - p <= usize::MAX,
        d < 0x80,
        d != SPACE,
        d != LF,
        d != CR,
        edge(b, p),
    ensures
        ({
            let r = parse_rows(b, d, p, idx, lt, ewn);
            forall|i: int, j: int|
                0 <= i < r.0.len() && (forall|k: int| 0 <= k < r.1.len() ==> r.1[k].row != idx + i) && 0 <= j
                    < r.0[i].cells.len() ==> content_trimmed(b, #[trigger] r.0[i].cells[j])
        }),
    decreases b.len() - p,
{
    reveal(parse_rows);
    if p < b.len() {
        lemma_cells_sound(b, d, p, idx);
        lemma_cells_content_ends(b, d, p, idx);
        lemma_parse_cells(b, d, p, idx);
        lemma_row_progress(b, d, p, idx);
        let r = parse_cells(b, d, p, idx);
        let e = r.1;
        let t = terminator_len(b, e);
        let next = e + t;
        let lt2 = if lt is Some {
            lt
        } else {
            terminator_kind(b, e)
        };
        let ewn2 = t > 0 && next == b.len();
        assert(edge(b, next));
        lemma_rows_content_ends(b, d, next, idx + 1, lt2, ewn2);
        let rest = parse_rows(b, d, next, idx + 1, lt2, ewn2);
        let all = parse_rows(b, d, p, idx, lt, ewn);
        let row = RowView { span: span_of(p, e), cells: r.0 };
        assert(all.0 == seq![row] + rest.0);
        assert(all.1 == r.2 + rest.1);
        assert forall|i: int, j: int|
            0 <= i < all.0.len() && (forall|k: int| 0 <= k < all.1.len() ==> all.1[k].row != idx + i) && 0 <= j
                < all.0[i].cells.len() implies content_trimmed(b, #[trigger] all.0[i].cells[j]) by {
            if i == 0 {
                if r.2.len() > 0 {
                    assert(all.1[0] == r.2[0]);
                    assert(r.2[0].row == idx);
                }
                assert(all.0[0].cells[j] == r.0[j]);
            } else {
                assert(all.0[i] == rest.0[i - 1]);
                assert forall|k: int| 0 <= k < rest.1.len() implies rest.1[k].row != (idx + 1) + (i - 1) by {
                    assert(all.1[k + r.2.len()] == rest.1[k]);
                }
            }
        }
    }
}

/// The parser's structural guarantees: every table it produces is sound
/// for its text (see [`rows_sound`]), the first row starts right after the
/// byte-order mark, the last row ends at the end of the text or right
/// before a final terminator (one is there when the table records a final
/// newline), the text yields no rows only when it is empty apart from the
/// byte-order mark, and on rows no error points at every cell's padding
/// after its content is spaces.
pub proof fn law_parse_sound(b: Seq<u8>, dialect: Dialect)
    requires
        b.len() <= usize::MAX,
    ensures
        ({
            let t = spec_parse(b, dialect);
            &&& rows_sound(b, delimiter_of(dialect), body_start(b), 0, t.rows, t.errors)
            &&& t.rows.len() == 0 <==> b.len() == body_start(b)
            &&& t.rows.len() == 0 ==> !t.ends_with_newline
            &&& t.rows.len() > 0 ==> t.rows.last().span.end + (if t.ends_with_newline {
                terminator_len(b, t.rows.last().span.end as int)
            } else {
                0
            }) == b.len()
            &&& t.rows.len() > 0 && t.ends_with_newline ==> terminator_len(b, t.rows.last().span.end as int) > 0
            &&& forall|i: int, j: int|
                0 <= i < t.rows.len() && (forall|k: int| 0 <= k < t.errors.len() ==> t.errors[k].row != i) && 0 <= j
                    < t.rows[i].cells.len() ==> trailing_spaces(b, #[trigger] t.rows[i].cells[j])
        }),
{
    let d = delimiter_of(dialect);
    lemma_rows_sound(b, d, body_start(b), 0, None, false);
    lemma_rows_shape(b, d, body_start(b), 0, None, false);
    lemma_rows_trailing(b, d, body_start(b), 0, None, false);
    let t = spec_parse(b, dialect);
    let top = parse_rows(b, d, body_start(b), 0, None, false);
    assert forall|i: int, j: int|
        0 <= i < t.rows.len() && (forall|k: int| 0 <= k < t.errors.len() ==> t.errors[k].row != i) && 0 <= j
            < t.rows[i].cells.len() implies trailing_spaces(b, #[trigger] t.rows[i].cells[j]) by {
        assert(t.rows[i] == top.0[i]);
        assert(t.errors == top.1);
        assert forall|k: int| 0 <= k < top.1.len() implies top.1[k].row != 0 + i by {
            assert(t.errors[k] == top.1[k]);
        }
    }
}

/// The cells of `row` tile it: the first starts and the last ends with
/// the row, neighbours are one delimiter `d` apart (see
/// [`cells_adjacent`]), each cell's padding
/// before its content is spaces, and, when `clean`, so is its padding
/// after it.
#[verifier::opaque]
pub open spec fn row_tiled(b: Seq<u8>, d: u8, row: RowView, clean: bool) -> bool {
    let cs = row.cells;
    &&& cs.len() >= 1
    &&& cs[0].span.start == row.span.start
    &&& cs.last().span.end == row.span.end
    &&& forall|k: int| 0 <= k < cs.len() - 1 ==> #[trigger] cells_adjacent(b, d, cs, k)
    &&& forall|k: int|
        0 <= k < cs.len() ==> all_spaces(b, (#[trigger] cs[k]).span.start as int, cs[k].content_span.start as int)
    &&& clean ==> forall|k: int| 0 <= k < cs.len() ==> trailing_spaces(b, #[trigger] cs[k])
}

/// No error of the table points at row `i`.
pub open spec fn no_error_on(t: TableView, i: int) -> bool {
    forall|e: int| 0 <= e < t.errors.len() ==> t.errors[e].row != i
}

/// The cells of every row of a parse tile it (see [`row_tiled`]), with
/// space-only padding after the contents on rows no error points at.
#[verifier::spinoff_prover]
pub proof fn law_cells_tile_rows(b: Seq<u8>, dialect: Dialect)
    requires
        b.len() <= usize::MAX,
    ensures
        forall|i: int|
            0 <= i < spec_parse(b, dialect).rows.len() ==> row_tiled(
                b,
                delimiter_of(dialect),
                #[trigger] spec_parse(b, dialect).rows[i],
                no_error_on(spec_parse(b, dialect), i),
            ),
{
    assert forall|i: int| 0 <= i < spec_parse(b, dialect).rows.len() implies row_tiled(
        b,
        delimiter_of(dialect),
        #[trigger] spec_parse(b, dialect).rows[i],
        no_error_on(spec_parse(b, dialect), i),
    ) by {
        lemma_row_tiles(b, dialect, i);
    }
}

/// Row `i`'s cells tile it (see [`row_tiled`]).
#[verifier::spinoff_prover]
proof fn lemma_row_tiles(b: Seq<u8>, dialect: Dialect, i: int)
    requires
        b.len() <= usize::MAX,
        0 <= i < spec_parse(b, dialect).rows.len(),
    ensures
        row_tiled(b, delimiter_of(dialect), spec_parse(b, dialect).rows[i], no_error_on(spec_parse(b, dialect), i)),
{
    let t = spec_parse(b, dialect);
    let d = delimiter_of(dialect);
    let row = t.rows[i];
    let cs = row.cells;
    assert(cells_tile(b, d, cs, row.span.start as int, row.span.end as int)) by {
        law_parse_sound(b, dialect);
        assert(t.rows[i] == row);
    }
    let clean = no_error_on(t, i);
    if clean {
        assert(forall|k: int| 0 <= k < cs.len() ==> trailing_spaces(b, #[trigger] cs[k])) by {
            lemma_row_trailing(b, dialect, i);
        }
    }
    lemma_tile_parts(b, d, row, clean);
}

/// Row `i`, when no error points at it, has only spaces after each cell's
/// content.
pub proof fn lemma_row_trailing(b: Seq<u8>, dialect: Dialect, i: int)
    requires
        b.len() <= usize::MAX,
        0 <= i < spec_parse(b, dialect).rows.len(),
        no_error_on(spec_parse(b, dialect), i),
    ensures
        forall|k: int|
            0 <= k < spec_parse(b, dialect).rows[i].cells.len() ==> trailing_spaces(
                b,
                #[trigger] spec_parse(b, dialect).rows[i].cells[k],
            ),
{
    let d = delimiter_of(dialect);
    lemma_rows_trailing(b, d, body_start(b), 0, None, false);
    let t = spec_parse(b, dialect);
    let top = parse_rows(b, d, body_start(b), 0, None, false);
    assert(t.errors == top.1);
    assert forall|e: int| 0 <= e < top.1.len() implies top.1[e].row != 0 + i by {
        assert(t.errors[e] == top.1[e]);
    }
    assert(t.rows[i] == top.0[i]);
}

/// A cell of a parse is sound (see [`cell_sound`]).
pub proof fn lemma_cell_sound_at(b: Seq<u8>, dialect: Dialect, i: int, j: int)
    requires
        b.len() <= usize::MAX,
        0 <= i < spec_parse(b, dialect).rows.len(),
        0 <= j < spec_parse(b, dialect).rows[i].cells.len(),
    ensures
        cell_sound(b, spec_parse(b, dialect).rows[i].cells[j]),
{
    law_parse_sound(b, dialect);
    let t = spec_parse(b, dialect);
    let row = t.rows[i];
    assert(t.rows[i] == row);
    assert(row.cells[j] == row.cells[j]);
}

/// Row `i`, when no error points at it, has cell contents that neither
/// start nor end with a space.
pub proof fn lemma_row_content_ends(b: Seq<u8>, dialect: Dialect, i: int)
    requires
        b.len() <= usize::MAX,
        0 <= i < spec_parse(b, dialect).rows.len(),
        no_error_on(spec_parse(b, dialect), i),
    ensures
        forall|k: int|
            0 <= k < spec_parse(b, dialect).rows[i].cells.len() ==> content_trimmed(
                b,
                #[trigger] spec_parse(b, dialect).rows[i].cells[k],
            ),
{
    let d = delimiter_of(dialect);
    lemma_rows_content_ends(b, d, body_start(b), 0, None, false);
    let t = spec_parse(b, dialect);
    let top = parse_rows(b, d, body_start(b), 0, None, false);
    assert(t.errors == top.1);
    assert forall|e: int| 0 <= e < top.1.len() implies top.1[e].row != 0 + i by {
        assert(t.errors[e] == top.1[e]);
    }
    assert(t.rows[i] == top.0[i]);
}

/// A row whose cells tile it is tiled in the sense of [`row_tiled`].
proof fn lemma_tile_parts(b: Seq<u8>, d: u8, row: RowView, clean: bool)
    requires
        cells_tile(b, d, row.cells, row.span.start as int, row.span.end as int),
        clean ==> forall|k: int| 0 <= k < row.cells.len() ==> trailing_spaces(b, #[trigger] row.cells[k]),
    ensures
        row_tiled(b, d, row, clean),
{
    let cs = row.cells;
    reveal(row_tiled);
    assert forall|k: int| 0 <= k < cs.len() implies all_spaces(
        b,
        (#[trigger] cs[k]).span.start as int,
        cs[k].content_span.start as int,
    ) by {
        assert(cell_sound(b, cs[k]));
    }
}

/// A span of `b` that can be sliced: ordered, in bounds, on boundaries.
pub open spec fn span_fits(b: Seq<u8>, sp: Span) -> bool {
    &&& sp.start <= sp.end <= b.len()
    &&& is_char_boundary(b, sp.start as int)
    &&& is_char_boundary(b, sp.end as int)
}

/// A table whose spans can all be sliced out of text `b`, nested as a
/// parse nests them: what the editing features need of a table.
pub open spec fn table_fits(t: TableView, b: Seq<u8>) -> bool {
    &&& valid_utf8(b)
    &&& forall|i: int|
        #![trigger t.rows[i]]
        0 <= i < t.rows.len() ==> {
            &&& span_fits(b, t.rows[i].span)
            &&& t.rows[i].cells.len() >= 1
            &&& forall|j: int|
                #![trigger t.rows[i].cells[j]]
                0 <= j < t.rows[i].cells.len() ==> {
                    &&& span_fits(b, t.rows[i].cells[j].span)
                    &&& span_fits(b, t.rows[i].cells[j].content_span)
                    &&& t.rows[i].span.start <= t.rows[i].cells[j].span.start
                    &&& t.rows[i].cells[j].span.start <= t.rows[i].cells[j].content_span.start
                    &&& t.rows[i].cells[j].content_span.end <= t.rows[i].cells[j].span.end
                    &&& t.rows[i].cells[j].span.end <= t.rows[i].span.end
                }
        }
    &&& forall|k: int|
        #![trigger t.errors[k]]
        0 <= k < t.errors.len() ==> t.errors[k].row < t.rows.len() && span_fits(
            b,
            t.errors[k].span,
        )
}

/// A table whose rows and cell contents can be sliced out of text `b`:
/// what rendering and measuring need of a table.
pub open spec fn table_sliceable(t: TableView, b: Seq<u8>) -> bool {
    &&& valid_utf8(b)
    &&& forall|i: int|
        #![trigger t.rows[i]]
        0 <= i < t.rows.len() ==> {
            &&& span_fits(b, t.rows[i].span)
            &&& forall|j: int|
                #![trigger t.rows[i].cells[j]]
                0 <= j < t.rows[i].cells.len() ==> span_fits(b, t.rows[i].cells[j].content_span)
        }
}

/// Every table parsed from a text fits that text.
pub proof fn lemma_parse_fits(b: Seq<u8>, dialect: Dialect)
    requires
        valid_utf8(b),
        b.len() <= usize::MAX,
    ensures
        table_fits(spec_parse(b, dialect), b),
{
    law_parse_sound(b, dialect);
    let t = spec_parse(b, dialect);
    let d = delimiter_of(dialect);
    assert forall|i: int| #![trigger t.rows[i]] 0 <= i < t.rows.len() implies {
        &&& span_fits(b, t.rows[i].span)
        &&& t.rows[i].cells.len() >= 1
        &&& forall|j: int|
            #![trigger t.rows[i].cells[j]]
            0 <= j < t.rows[i].cells.len() ==> {
                &&& span_fits(b, t.rows[i].cells[j].span)
                &&& span_fits(b, t.rows[i].cells[j].content_span)
                &&& t.rows[i].span.start <= t.rows[i].cells[j].span.start
                &&& t.rows[i].cells[j].span.start <= t.rows[i].cells[j].content_span.start
                &&& t.rows[i].cells[j].content_span.end <= t.rows[i].cells[j].span.end
                &&& t.rows[i].cells[j].span.end <= t.rows[i].span.end
            }
    } by {
        let r = t.rows[i];
        lemma_edge_boundary(b, r.span.start as int);
        lemma_edge_boundary(b, r.span.end as int);
        assert forall|j: int| #![trigger r.cells[j]] 0 <= j < r.cells.len() implies {
            &&& span_fits(b, r.cells[j].span)
            &&& span_fits(b, r.cells[j].content_span)
            &&& r.span.start <= r.cells[j].span.start
            &&& r.cells[j].span.start <= r.cells[j].content_span.start
            &&& r.cells[j].content_span.end <= r.cells[j].span.end
            &&& r.cells[j].span.end <= r.span.end
        } by {
            assert(cell_sound(b, r.cells[j]));
            lemma_edge_boundary(b, r.cells[j].span.start as int);
            lemma_edge_boundary(b, r.cells[j].span.end as int);
            lemma_edge_boundary(b, r.cells[j].content_span.start as int);
            lemma_edge_boundary(b, r.cells[j].content_span.end as int);
        }
    }
    assert forall|k: int| #![trigger t.errors[k]] 0 <= k < t.errors.len() implies t.errors[k].row
        < t.rows.len() && span_fits(b, t.errors[k].span) by {
        lemma_edge_boundary(b, t.errors[k].span.start as int);
        lemma_edge_boundary(b, t.errors[k].span.end as int);
    }
}

proof fn lemma_rows_shape(
    b: Seq<u8>,
    d: u8,
    p: int,
    idx: int,
    lt: Option<crate::parse::LineTerminator>,
    ewn: bool,
)
    requires
        0 <= p <= b.len(),
        b.len() <= usize::MAX,
        !ewn,
    ensures
        ({
            let r = parse_rows(b, d, p, idx, lt, ewn);
            &&& r.0.len() == 0 <==> p == b.len()
            &&& r.0.len() == 0 ==> !r.3
            &&& r.0.len() > 0 ==> r.0.last().span.end + (if r.3 {
                terminator_len(b, r.0.last().span.end as int)
            } else {
                0
            }) == b.len()
            &&& r.0.len() > 0 && r.3 ==> terminator_len(b, r.0.last().span.end as int) > 0
        }),
    decreases b.len() - p,
{
    if p >= b.len() {
        lemma_rows_done(b, d, p, idx, lt, ewn);
    } else {
        lemma_parse_cells(b, d, p, idx);
        lemma_rows_step(b, d, p, idx, lt, ewn);
        let r = parse_cells(b, d, p, idx);
        let e = r.1;
        let t = terminator_len(b, e);
        let next = e + t;
        let lt2 = if lt is Some {
            lt
        } else {
            terminator_kind(b, e)
        };
        let ewn2 = t > 0 && next == b.len();
        if next < b.len() {
            lemma_rows_shape(b, d, next, idx + 1, lt2, false);
            assert(!ewn2);
            let rest = parse_rows(b, d, next, idx + 1, lt2, ewn2);
            let all = parse_rows(b, d, p, idx, lt, ewn);
            assert(all.0.last() == rest.0.last());
        } else {
            lemma_rows_done(b, d, next, idx + 1, lt2, ewn2);
            let all = parse_rows(b, d, p, idx, lt, ewn);
            assert(all.0.len() == 1);
            if t == 0 {
                assert(e == b.len());
            }
        }
    }
}


/// The rows of a table come in text order: each row's span starts after
/// the previous row's ends, and within a row each cell's span starts after
/// the previous cell's ends.
pub open spec fn table_ordered(t: TableView) -> bool {
    &&& forall|i: int, j: int|
        0 <= i < j < t.rows.len() ==> (#[trigger] t.rows[i]).span.end < (#[trigger] t.rows[j]).span.start
    &&& forall|i: int|
        #![trigger t.rows[i]]
        0 <= i < t.rows.len() ==> {
            &&& t.rows[i].span.start <= t.rows[i].span.end
            &&& forall|j: int, k: int|
                0 <= j < k < t.rows[i].cells.len() ==> (#[trigger] t.rows[i].cells[j]).span.end
                    < (#[trigger] t.rows[i].cells[k]).span.start
        }
}

/// Spans that come one after another, each ending before the next starts.
proof fn lemma_chain(ends: Seq<int>, starts: Seq<int>, i: int, j: int)
    requires
        ends.len() == starts.len(),
        forall|x: int| 0 <= x < ends.len() ==> #[trigger] starts[x] <= ends[x],
        forall|x: int| 0 <= x < ends.len() - 1 ==> #[trigger] ends[x] < starts[x + 1],
        0 <= i < j < ends.len(),
    ensures
        ends[i] < starts[j],
    decreases j - i,
{
    if j > i + 1 {
        lemma_chain(ends, starts, i, j - 1);
        assert(starts[j - 1] <= ends[j - 1]);
        assert(ends[j - 1] < starts[j]);
    } else {
        assert(ends[i] < starts[i + 1]);
    }
}

/// Every table the parser produces is in text order.
pub proof fn lemma_parse_ordered(b: Seq<u8>, dialect: Dialect)
    requires
        b.len() <= usize::MAX,
    ensures
        table_ordered(spec_parse(b, dialect)),
{
    law_parse_sound(b, dialect);
    let t = spec_parse(b, dialect);
    let d = delimiter_of(dialect);
    let rows = t.rows;
    let ends = Seq::new(rows.len(), |x: int| rows[x].span.end as int);
    let starts = Seq::new(rows.len(), |x: int| rows[x].span.start as int);
    assert forall|x: int| 0 <= x < ends.len() implies #[trigger] starts[x] <= ends[x] by {
        assert(rows[x] == rows[x]);
    }
    assert forall|x: int| 0 <= x < ends.len() - 1 implies #[trigger] ends[x] < starts[x + 1] by {
        assert(rows_adjacent(b, rows, x));
    }
    assert forall|i: int, j: int| 0 <= i < j < rows.len() implies (#[trigger] rows[i]).span.end < (#[trigger] rows[j]).span.start by {
        lemma_chain(ends, starts, i, j);
    }
    assert forall|i: int| 0 <= i < rows.len() implies {
        &&& (#[trigger] rows[i]).span.start <= rows[i].span.end
        &&& forall|j: int, k: int|
            0 <= j < k < rows[i].cells.len() ==> (#[trigger] rows[i].cells[j]).span.end
                < (#[trigger] rows[i].cells[k]).span.start
    } by {
        let cells = rows[i].cells;
        assert(cells_tile(b, d, cells, rows[i].span.start as int, rows[i].span.end as int));
        let ce = Seq::new(cells.len(), |x: int| cells[x].span.end as int);
        let cs = Seq::new(cells.len(), |x: int| cells[x].span.start as int);
        assert forall|x: int| 0 <= x < ce.len() implies #[trigger] cs[x] <= ce[x] by {
            assert(cell_sound(b, cells[x]));
        }
        assert forall|x: int| 0 <= x < ce.len() - 1 implies #[trigger] ce[x] < cs[x + 1] by {
            assert(cells_adjacent(b, d, cells, x));
        }
        assert forall|j: int, k: int| 0 <= j < k < cells.len() implies (#[trigger] cells[j]).span.end
            < (#[trigger] cells[k]).span.start by {
            lemma_chain(ce, cs, j, k);
        }
    }
}


/// Neither end of a span falls between the `\r` and `\n` of a CRLF break,
/// so both ends can be addressed by a position.
pub open spec fn span_whole(b: Seq<u8>, sp: Span) -> bool {
    !splits_crlf_at(b, sp.start as int) && !splits_crlf_at(b, sp.end as int)
}

/// Every error of `es` has a whole span.
pub open spec fn errors_whole(b: Seq<u8>, es: Seq<ParseError>) -> bool {
    forall|k: int| 0 <= k < es.len() ==> span_whole(b, (#[trigger] es[k]).span)
}

/// Every span of a table (rows, cells, contents, errors) is whole.
pub open spec fn table_whole(t: TableView, b: Seq<u8>) -> bool {
    &&& forall|i: int|
        #![trigger t.rows[i]]
        0 <= i < t.rows.len() ==> {
            &&& span_whole(b, t.rows[i].span)
            &&& forall|j: int|
                #![trigger t.rows[i].cells[j]]
                0 <= j < t.rows[i].cells.len() ==> span_whole(b, t.rows[i].cells[j].span)
                    && span_whole(b, t.rows[i].cells[j].content_span)
        }
    &&& errors_whole(b, t.errors)
}

/// A span a client can address: it fits the text and neither end splits a
/// CRLF break.
pub open spec fn span_addressable(b: Seq<u8>, sp: Span) -> bool {
    span_fits(b, sp) && span_whole(b, sp)
}

/// Errors concatenate wholly.
proof fn lemma_errors_whole_cat(b: Seq<u8>, es1: Seq<ParseError>, es2: Seq<ParseError>)
    requires
        errors_whole(b, es1),
        errors_whole(b, es2),
    ensures
        errors_whole(b, es1 + es2),
{
    let all = es1 + es2;
    assert forall|k: int| 0 <= k < all.len() implies span_whole(b, (#[trigger] all[k]).span) by {
        if k < es1.len() {
            assert(all[k] == es1[k]);
        } else {
            assert(all[k] == es2[k - es1.len()]);
        }
    }
}

/// Stray-quote errors cover one quote byte each.
proof fn lemma_stray_whole(b: Seq<u8>, lo: int, hi: int, row: int)
    requires
        0 <= lo <= hi <= b.len(),
        b.len() <= usize::MAX,
    ensures
        errors_whole(b, stray_quotes(b, lo, hi, row)),
    decreases hi - lo,
{
    if hi > lo {
        lemma_stray_whole(b, lo, hi - 1, row);
        let prev = stray_quotes(b, lo, hi - 1, row);
        if b[hi - 1] == QUOTE {
            let all = prev.push(error_at(ParseErrorKind::StrayQuote, hi - 1, hi, row));
            assert forall|k: int| 0 <= k < all.len() implies span_whole(b, (#[trigger] all[k]).span) by {
                if k < prev.len() {
                    assert(all[k] == prev[k]);
                }
            }
        }
    }
}

/// A cell read from a whole position has whole spans and errors and ends
/// at a whole position.
proof fn lemma_cell_whole(b: Seq<u8>, d: u8, s: int, row: int)
    requires
        0 <= s <= b.len(),
        b.len() <= usize::MAX,
        !splits_crlf_at(b, s),
        d != CR,
        d != LF,
    ensures
        ({
            let r = parse_cell(b, d, s, row);
            &&& span_whole(b, r.0.span)
            &&& span_whole(b, r.0.content_span)
            &&& !splits_crlf_at(b, r.2)
            &&& errors_whole(b, r.3)
        }),
{
    reveal(parse_cell);
    let c = skip_spaces(b, s);
    lemma_skip_spaces(b, s);
    if 0 <= c < b.len() && b[c] == QUOTE {
        let q = quoted_scan(b, c + 1);
        lemma_quoted_scan(b, c + 1);
        let close = q.0;
        let e = cell_stop(b, d, close);
        lemma_cell_stop(b, d, close);
        let g = skip_spaces(b, close);
        lemma_skip_spaces(b, close);
        if e > close {
            assert(!is_cell_end(b, d, e - 1));
        }
        let unclosed = if q.1 {
            Seq::<ParseError>::empty()
        } else {
            seq![error_at(ParseErrorKind::UnclosedQuote, c, c + 1, row)]
        };
        let garbage = if g < e {
            seq![error_at(ParseErrorKind::TextAfterClosingQuote, g, trim_end(b, g, e), row)]
        } else {
            Seq::<ParseError>::empty()
        };
        assert(errors_whole(b, unclosed));
        if g < e {
            lemma_trim_end(b, g, e);
            let h = trim_end(b, g, e);
            assert(!is_cell_end(b, d, g));
            assert(h > g);
            assert(!is_cell_end(b, d, h - 1));
            if g > close {
                assert(b[g - 1] == SPACE);
            }
            assert(span_whole(b, garbage[0].span));
        }
        assert(errors_whole(b, garbage));
        lemma_errors_whole_cat(b, unclosed, garbage);
    } else {
        let e = cell_stop(b, d, c);
        lemma_cell_stop(b, d, c);
        if e > c {
            assert(!is_cell_end(b, d, e - 1));
        }
        lemma_trim_end(b, c, e);
        lemma_stray_whole(b, c, e, row);
    }
}

/// The cells of a row read from a whole position are whole, and so is the
/// row's end.
proof fn lemma_cells_whole(b: Seq<u8>, d: u8, s: int, row: int)
    requires
        0 <= s <= b.len(),
        b.len() <= usize::MAX,
        !splits_crlf_at(b, s),
        d != CR,
        d != LF,
    ensures
        ({
            let r = parse_cells(b, d, s, row);
            &&& forall|j: int|
                0 <= j < r.0.len() ==> span_whole(b, (#[trigger] r.0[j]).span) && span_whole(
                    b,
                    r.0[j].content_span,
                )
            &&& !splits_crlf_at(b, r.1)
            &&& errors_whole(b, r.2)
        }),
    decreases b.len() - s,
{
    lemma_cell_whole(b, d, s, row);
    lemma_parse_cell(b, d, s, row);
    lemma_cells_step(b, d, s, row);
    let c = parse_cell(b, d, s, row);
    if c.1 && s <= c.2 < b.len() {
        lemma_cells_whole(b, d, c.2 + 1, row);
        let rest = parse_cells(b, d, c.2 + 1, row);
        let all = parse_cells(b, d, s, row);
        lemma_errors_whole_cat(b, c.3, rest.2);
        assert forall|j: int| 0 <= j < all.0.len() implies span_whole(b, (#[trigger] all.0[j]).span)
            && span_whole(b, all.0[j].content_span) by {
            if j > 0 {
                assert(all.0[j] == rest.0[j - 1]);
            }
        }
    } else {
        let all = parse_cells(b, d, s, row);
        assert(all.0[0] == c.0);
    }
}

/// Rows read from a whole position are whole.
proof fn lemma_rows_whole(
    b: Seq<u8>,
    d: u8,
    p: int,
    idx: int,
    lt: Option<crate::parse::LineTerminator>,
    ewn: bool,
)
    requires
        0 <= p <= b.len(),
        b.len() <= usize::MAX,
        !splits_crlf_at(b, p),
        d != CR,
        d != LF,
    ensures
        ({
            let r = parse_rows(b, d, p, idx, lt, ewn);
            &&& forall|i: int|
                #![trigger r.0[i]]
                0 <= i < r.0.len() ==> {
                    &&& span_whole(b, r.0[i].span)
                    &&& forall|j: int|
                        #![trigger r.0[i].cells[j]]
                        0 <= j < r.0[i].cells.len() ==> span_whole(b, r.0[i].cells[j].span)
                            && span_whole(b, r.0[i].cells[j].content_span)
                }
            &&& errors_whole(b, r.1)
        }),
    decreases b.len() - p,
{
    reveal(parse_rows);
    if p < b.len() {
        lemma_cells_whole(b, d, p, idx);
        lemma_parse_cells(b, d, p, idx);
        lemma_row_progress(b, d, p, idx);
        let r = parse_cells(b, d, p, idx);
        let e = r.1;
        let t = terminator_len(b, e);
        let next = e + t;
        let lt2 = if lt is Some {
            lt
        } else {
            terminator_kind(b, e)
        };
        let ewn2 = t > 0 && next == b.len();
        assert(!splits_crlf_at(b, next));
        lemma_rows_whole(b, d, next, idx + 1, lt2, ewn2);
        let rest = parse_rows(b, d, next, idx + 1, lt2, ewn2);
        let all = parse_rows(b, d, p, idx, lt, ewn);
        lemma_errors_whole_cat(b, r.2, rest.1);
        assert forall|i: int| #![trigger all.0[i]] 0 <= i < all.0.len() implies {
            &&& span_whole(b, all.0[i].span)
            &&& forall|j: int|
                #![trigger all.0[i].cells[j]]
                0 <= j < all.0[i].cells.len() ==> span_whole(b, all.0[i].cells[j].span)
                    && span_whole(b, all.0[i].cells[j].content_span)
        } by {
            if i > 0 {
                assert(all.0[i] == rest.0[i - 1]);
            } else {
                assert forall|j: int| #![trigger all.0[0].cells[j]] 0 <= j < all.0[0].cells.len() implies span_whole(b, all.0[0].cells[j].span)
                    && span_whole(b, all.0[0].cells[j].content_span) by {
                    assert(all.0[0].cells[j] == r.0[j]);
                }
            }
        }
    }
}

/// No span of a parse falls between the `\r` and `\n` of a CRLF break:
/// every row, cell, content and error span can be addressed by positions
/// at both ends.
pub proof fn law_parse_whole(b: Seq<u8>, dialect: Dialect)
    requires
        b.len() <= usize::MAX,
    ensures
        table_whole(spec_parse(b, dialect), b),
{
    let d = delimiter_of(dialect);
    lemma_rows_whole(b, d, body_start(b), 0, None, false);
}

} // verus!
