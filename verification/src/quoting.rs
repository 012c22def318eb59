//! What quoting cells does to a table: every quoted cell reads back as a
//! quoted cell with the same value, its padding left outside the quotes;
//! every other cell, row and error stays as it was.

use vstd::prelude::*;

use crate::grammar::{
    cell_stop, is_cell_end, lemma_cell_stop, lemma_cells_step, lemma_parse_cell, lemma_parse_cells,
    lemma_quoted_scan, lemma_skip_spaces, lemma_trim_end, parse_cell, parse_cells, quoted_scan, skip_spaces,
    span_of, trim_end, CR, LF, QUOTE, SPACE,
};
use crate::parse::{cell_value, Cell, Quoting, Span, TableView};
use crate::dialect::{delimiter_of, Dialect};
use crate::edits::{applied, applied_from};
use crate::features::quote::{quotable_cell, quote_column_upto, quote_edit_view};
use crate::grammar::{body_start, has_bom_bytes};
use crate::grammar::spec_parse;
use crate::render::encoded;
use crate::grammar::{terminator_kind, terminator_len};
use crate::parse::LineTerminator;
use crate::repair::{lemma_applied_skip, lemma_later_rows, lemma_term_same};
use crate::reparse::{lemma_source_step, source_from};
use crate::reparse::{shift_cells, shift_errors};
use crate::grammar::{lemma_rows_done, lemma_rows_step, parse_rows};
use crate::reparse::{lemma_kinds_cons, same_error_kinds};
use crate::parse::{row_is_blank, RowView};
use crate::reparse::{
    lemma_cell_window, lemma_cells_local, lemma_scan_local, lemma_skip_run, lemma_stop_run, quoted_content,
    same_bytes, same_cell_window, same_row, shape_escapes, shift_cell,
};

verus! {

/// An unquoted cell read without errors: spaces before its content, spaces
/// after it up to the cell end.
proof fn lemma_bare_cell_padding(b: Seq<u8>, d: u8, s: int, row: int)
    requires
        0 <= s <= b.len(),
        b.len() <= usize::MAX,
        parse_cell(b, d, s, row).0.quoting == Quoting::Unquoted,
    ensures
        ({
            let c = parse_cell(b, d, s, row);
            let x = c.0.content_span.start as int;
            let y = c.0.content_span.end as int;
            &&& s <= x <= y <= c.2 <= b.len()
            &&& c.0.span == span_of(s, c.2)
            &&& forall|k: int| s <= k < x ==> #[trigger] b[k] == SPACE
            &&& forall|k: int| y <= k < c.2 ==> #[trigger] b[k] == SPACE
            &&& is_cell_end(b, d, c.2)
            &&& c.1 == (c.2 < b.len() && b[c.2] == d)
        }),
{
    lemma_parse_cell(b, d, s, row);
    reveal(parse_cell);
    let c0 = skip_spaces(b, s);
    lemma_skip_spaces(b, s);
    let e = cell_stop(b, d, c0);
    lemma_cell_stop(b, d, c0);
    let ce = trim_end(b, c0, e);
    lemma_trim_end(b, c0, e);
}

/// An unquoted cell read without errors, its content replaced by quoted
/// content `w` (padding kept on both sides), reads as one quoted cell
/// with content `w`, ending where the padding ends, without errors.
proof fn lemma_quoted_cell(b1: Seq<u8>, s1: int, b2: Seq<u8>, s2: int, w: Seq<u8>, d: u8, row: int)
    requires
        0 <= s1 <= b1.len(),
        b1.len() <= usize::MAX,
        b2.len() <= usize::MAX,
        0 <= s2,
        d != CR,
        d != LF,
        d != SPACE,
        d != QUOTE,
        parse_cell(b1, d, s1, row).0.quoting == Quoting::Unquoted,
        quoted_content(w),
        ({
            let c = parse_cell(b1, d, s1, row);
            let x = c.0.content_span.start as int;
            let y = c.0.content_span.end as int;
            let f1 = c.2;
            let a = s2 + (x - s1);
            let f2 = a + w.len() + (f1 - y);
            &&& f2 <= b2.len()
            &&& forall|k: int| 0 <= k < x - s1 ==> #[trigger] b2[s2 + k] == b1[s1 + k]
            &&& forall|k: int| 0 <= k < w.len() ==> #[trigger] b2[a + k] == w[k]
            &&& forall|k: int| 0 <= k < f1 - y ==> #[trigger] b2[a + w.len() + k] == b1[y + k]
            &&& is_cell_end(b2, d, f2)
            &&& (f2 < b2.len() && b2[f2] == d) == c.1
        }),
    ensures
        ({
            let c = parse_cell(b1, d, s1, row);
            let x = c.0.content_span.start as int;
            let y = c.0.content_span.end as int;
            let a = s2 + (x - s1);
            let f2 = a + w.len() + (c.2 - y);
            let c2 = parse_cell(b2, d, s2, row);
            &&& c2.2 == f2
            &&& c2.1 == c.1
            &&& c2.3.len() == 0
            &&& c2.0.quoting == Quoting::Quoted
            &&& c2.0.has_escaped_quotes == shape_escapes(w)
            &&& c2.0.span == span_of(s2, f2)
            &&& c2.0.content_span == span_of(a, a + w.len())
            &&& b2.subrange(a, a + w.len()) == w
        }),
{
    lemma_bare_cell_padding(b1, d, s1, row);
    let c = parse_cell(b1, d, s1, row);
    let x = c.0.content_span.start as int;
    let y = c.0.content_span.end as int;
    let f1 = c.2;
    let a = s2 + (x - s1);
    let close = a + w.len();
    let f2 = close + (f1 - y);
    reveal(parse_cell);
    assert forall|k: int| s2 <= k < a implies #[trigger] b2[k] == SPACE by {
        assert(b2[s2 + (k - s2)] == b1[s1 + (k - s2)]);
    }
    assert(b2[a + 0] == w[0]);
    lemma_skip_run(b2, s2, a);
    assert(same_bytes(w, 0, b2, a, w.len() as int)) by {
        assert forall|k: int| 0 <= k < w.len() implies #[trigger] w[0 + k] == b2[a + k] by {}
    }
    assert(close < b2.len() ==> b2[close] != QUOTE) by {
        if close < f2 {
            assert(b2[a + w.len() + 0] == b1[y + 0]);
        }
    }
    lemma_scan_local(w, 0, b2, a, w.len() as int, 1);
    assert forall|k: int| close <= k < f2 implies #[trigger] b2[k] == SPACE by {
        assert(b2[a + w.len() + (k - close)] == b1[y + (k - close)]);
    }
    assert forall|k: int| close <= k < f2 implies !#[trigger] is_cell_end(b2, d, k) by {
        assert(b2[k] == SPACE);
    }
    lemma_stop_run(b2, d, close, f2);
    lemma_skip_run(b2, close, f2);
    assert(b2.subrange(a, close) =~= w) by {
        assert forall|k: int| 0 <= k < w.len() implies b2.subrange(a, close)[k] == w[k] by {
            assert(b2[a + k] == w[k]);
        }
    }
}

/// Every cell read from `s` has its content at or after `s`.
proof fn lemma_contents_from(b: Seq<u8>, d: u8, s: int, row: int, j: int)
    requires
        0 <= s <= b.len(),
        b.len() <= usize::MAX,
        0 <= j < parse_cells(b, d, s, row).0.len(),
    ensures
        s <= parse_cells(b, d, s, row).0[j].content_span.start,
    decreases j,
{
    lemma_cells_step(b, d, s, row);
    lemma_parse_cell(b, d, s, row);
    let c = parse_cell(b, d, s, row);
    assert(c.0.content_span.start >= s) by {
        reveal(parse_cell);
        lemma_skip_spaces(b, s);
    }
    if j > 0 {
        lemma_parse_cells(b, d, c.2 + 1, row);
        lemma_contents_from(b, d, c.2 + 1, row, j - 1);
        assert(parse_cells(b, d, s, row).0[j] == parse_cells(b, d, c.2 + 1, row).0[j - 1]);
    }
}

/// A row without errors with the content of its unquoted cell `j`
/// replaced by quoted content `w`: the same cells, cell `j` now quoted
/// with content `w`, the cells before it where they were (moved with the
/// row), those after it moved by the growth, no errors.
proof fn lemma_quoted_cells(
    b1: Seq<u8>,
    p1: int,
    b2: Seq<u8>,
    p2: int,
    s: int,
    j: int,
    w: Seq<u8>,
    e: int,
    d: u8,
    row: int,
)
    requires
        0 <= p1 <= s <= e <= b1.len(),
        0 <= p2,
        b1.len() <= usize::MAX,
        b2.len() <= usize::MAX,
        d != CR,
        d != LF,
        d != SPACE,
        d != QUOTE,
        quoted_content(w),
        parse_cells(b1, d, s, row).1 == e,
        parse_cells(b1, d, s, row).2.len() == 0,
        0 <= j < parse_cells(b1, d, s, row).0.len(),
        parse_cells(b1, d, s, row).0[j].quoting == Quoting::Unquoted,
        ({
            let cj = parse_cells(b1, d, s, row).0[j];
            let x = cj.content_span.start as int;
            let y = cj.content_span.end as int;
            let a = p2 + (x - p1);
            &&& p1 <= x <= y <= e
            &&& forall|k: int| 0 <= k < x - p1 ==> #[trigger] b2[p2 + k] == b1[p1 + k]
            &&& forall|k: int| 0 <= k < w.len() ==> #[trigger] b2[a + k] == w[k]
            &&& forall|k: int| 0 <= k < e - y ==> #[trigger] b2[a + w.len() + k] == b1[y + k]
            &&& a + w.len() + (e - y) <= b2.len()
            &&& crate::reparse::same_row_end(b1, e, b2, a + w.len() + (e - y))
        }),
    ensures
        ({
            let r1 = parse_cells(b1, d, s, row);
            let cj = r1.0[j];
            let x = cj.content_span.start as int;
            let y = cj.content_span.end as int;
            let delta = p2 - p1;
            let delta2 = delta + w.len() - (y - x);
            let r2 = parse_cells(b2, d, s + delta, row);
            &&& r2.0.len() == r1.0.len()
            &&& r2.1 == e + delta2
            &&& r2.2.len() == 0
            &&& forall|k: int| 0 <= k < j ==> #[trigger] r2.0[k] == shift_cell(r1.0[k], delta)
            &&& r2.0[j].quoting == Quoting::Quoted
            &&& r2.0[j].has_escaped_quotes == shape_escapes(w)
            &&& r2.0[j].content_span == span_of(x + delta, x + delta + w.len())
            &&& forall|k: int| j < k < r1.0.len() ==> #[trigger] r2.0[k] == shift_cell(r1.0[k], delta2)
        }),
    decreases j,
{
    let delta = p2 - p1;
    let r1 = parse_cells(b1, d, s, row);
    let cj = r1.0[j];
    let x = cj.content_span.start as int;
    let y = cj.content_span.end as int;
    let a = p2 + (x - p1);
    let delta2 = delta + w.len() - (y - x);
    lemma_cells_step(b1, d, s, row);
    lemma_parse_cell(b1, d, s, row);
    lemma_parse_cells(b1, d, s, row);
    let c0 = parse_cell(b1, d, s, row);
    if c0.1 && s <= c0.2 < b1.len() {
        lemma_parse_cells(b1, d, c0.2 + 1, row);
    }
    let r2 = parse_cells(b2, d, s + delta, row);
    if j == 0 {
        assert(r1.0[0] == c0.0);
        assert(c0.3.len() == 0);
        lemma_bare_cell_padding(b1, d, s, row);
        let f1 = c0.2;
        let f2 = a + w.len() + (f1 - y);
        if f1 < e {
            assert(c0.1 && f1 < b1.len());
            assert(b2[a + w.len() + (f1 - y)] == b1[y + (f1 - y)]);
        } else {
            assert(!(c0.1 && s <= c0.2 < b1.len())) by {
                if c0.1 && s <= c0.2 < b1.len() {
                    lemma_parse_cells(b1, d, c0.2 + 1, row);
                }
            }
        }
        assert forall|k: int| 0 <= k < x - s implies #[trigger] b2[(s + delta) + k] == b1[s + k] by {
            assert(b2[p2 + ((s - p1) + k)] == b1[p1 + ((s - p1) + k)]);
        }
        lemma_quoted_cell(b1, s, b2, s + delta, w, d, row);
        lemma_cells_step(b2, d, s + delta, row);
        let c2 = parse_cell(b2, d, s + delta, row);
        if c0.1 && s <= c0.2 < b1.len() {
            let rest1 = parse_cells(b1, d, f1 + 1, row);
            assert(same_row(b1, f1 + 1, b2, f2 + 1, e - (f1 + 1))) by {
                assert forall|k: int| 0 <= k < e - (f1 + 1) implies #[trigger] b1[(f1 + 1) + k] == b2[(f2 + 1) + k] by {
                    assert(b2[a + w.len() + ((f1 + 1 - y) + k)] == b1[y + ((f1 + 1 - y) + k)]);
                }
            }
            lemma_cells_local(b1, f1 + 1, b2, f2 + 1, e - (f1 + 1), f1 + 1, d, row);
            let rest2 = parse_cells(b2, d, f2 + 1, row);
            assert(f2 + 1 == (f1 + 1) + delta2);
            assert forall|k: int| j < k < r1.0.len() implies #[trigger] r2.0[k] == shift_cell(r1.0[k], delta2) by {
                assert(r2.0[k] == rest2.0[k - 1]);
                assert(r1.0[k] == rest1.0[k - 1]);
            }
        }
    } else {
        assert(c0.1 && s <= c0.2 < b1.len());
        let rest1 = parse_cells(b1, d, c0.2 + 1, row);
        assert(r1.0[j] == rest1.0[j - 1]);
        lemma_contents_from(b1, d, c0.2 + 1, row, j - 1);
        assert(c0.3.len() == 0 && rest1.2.len() == 0);
        assert(c0.2 < x);
        assert(b1[c0.2] == d);
        assert(b2[p2 + (c0.2 - p1)] == d) by {
            assert(b2[p2 + (c0.2 - p1)] == b1[p1 + (c0.2 - p1)]);
        }
        assert(same_cell_window(b1, p1, b2, p2, c0.2 - p1, d)) by {
            assert forall|k: int| 0 <= k < c0.2 - p1 implies #[trigger] b1[p1 + k] == b2[p2 + k] by {}
        }
        lemma_cell_window(b1, p1, b2, p2, c0.2 - p1, s, d, row);
        lemma_cells_step(b2, d, s + delta, row);
        lemma_quoted_cells(b1, p1, b2, p2, c0.2 + 1, j - 1, w, e, d, row);
        let rest2 = parse_cells(b2, d, c0.2 + 1 + delta, row);
        assert forall|k: int| 0 <= k < j implies #[trigger] r2.0[k] == shift_cell(r1.0[k], delta) by {
            if k > 0 {
                assert(r2.0[k] == rest2.0[k - 1]);
                assert(r1.0[k] == rest1.0[k - 1]);
            }
        }
        assert forall|k: int| j < k < r1.0.len() implies #[trigger] r2.0[k] == shift_cell(r1.0[k], delta2) by {
            assert(r2.0[k] == rest2.0[k - 1]);
            assert(r1.0[k] == rest1.0[k - 1]);
        }
    }
}

/// Whether the change quotes cell `j` of row `x`: a quotable cell, on the
/// row `only` names when it names one.
pub open spec fn picked(t: TableView, j: int, only: Option<int>, x: int) -> bool {
    &&& quotable_cell(t, x, j)
    &&& match only {
        Some(o) => o == x,
        None => true,
    }
}

/// The quoting edits of rows `0..k`, in row order.
pub open spec fn quote_edits_upto(b: Seq<u8>, t: TableView, j: int, only: Option<int>, k: int) -> Seq<
    (Span, Seq<u8>),
>
    decreases k,
{
    if k <= 0 {
        Seq::empty()
    } else {
        quote_edits_upto(b, t, j, only, k - 1) + (if picked(t, j, only, k - 1) {
            seq![quote_edit_view(b, t, t.dialect, k - 1, j)]
        } else {
            Seq::empty()
        })
    }
}

/// The quoting edits over the whole table.
pub open spec fn quote_edits(b: Seq<u8>, t: TableView, j: int, only: Option<int>) -> Seq<(Span, Seq<u8>)> {
    quote_edits_upto(b, t, j, only, t.rows.len() as int)
}

/// The text with the picked cells quoted.
pub open spec fn quoted_text(b: Seq<u8>, dialect: Dialect, j: int, only: Option<int>) -> Seq<u8> {
    applied(b, quote_edits(b, spec_parse(b, dialect), j, only))
}

/// How many edits the rows before row `i` take.
pub open spec fn quotes_before(b: Seq<u8>, t: TableView, j: int, only: Option<int>, i: int) -> int {
    quote_edits_upto(b, t, j, only, i).len() as int
}

/// The edits of the first rows are the first edits.
proof fn lemma_quotes_prefix(b: Seq<u8>, t: TableView, j: int, only: Option<int>, i: int, n: int)
    requires
        0 <= i <= n,
    ensures
        quotes_before(b, t, j, only, i) <= quotes_before(b, t, j, only, n),
        forall|k: int|
            0 <= k < quotes_before(b, t, j, only, i) ==> #[trigger] quote_edits_upto(b, t, j, only, n)[k]
                == quote_edits_upto(b, t, j, only, i)[k],
    decreases n,
{
    if n > i {
        lemma_quotes_prefix(b, t, j, only, i, n - 1);
        let prev = quote_edits_upto(b, t, j, only, n - 1);
        let all = quote_edits_upto(b, t, j, only, n);
        assert forall|k: int| 0 <= k < quotes_before(b, t, j, only, i) implies #[trigger] all[k]
            == quote_edits_upto(b, t, j, only, i)[k] by {
            assert(all[k] == prev[k]);
        }
    }
}

/// Row `i`'s edit, if it takes one, comes right after those of the rows
/// before it.
proof fn lemma_quote_of_row(b: Seq<u8>, t: TableView, j: int, only: Option<int>, i: int, n: int)
    requires
        0 <= i < n,
    ensures
        quotes_before(b, t, j, only, i + 1) == quotes_before(b, t, j, only, i) + (if picked(t, j, only, i) {
            1int
        } else {
            0int
        }),
        picked(t, j, only, i) ==> quotes_before(b, t, j, only, i) < quotes_before(b, t, j, only, n)
            && quote_edits_upto(b, t, j, only, n)[quotes_before(b, t, j, only, i)] == quote_edit_view(
            b,
            t,
            t.dialect,
            i,
            j,
        ),
{
    lemma_quotes_prefix(b, t, j, only, i + 1, n);
    if picked(t, j, only, i) {
        let k = quotes_before(b, t, j, only, i);
        assert(quote_edits_upto(b, t, j, only, i + 1)[k] == quote_edit_view(b, t, t.dialect, i, j));
    }
}

/// The first row from `i` on, before `n`, whose cell is quoted (`n` when
/// none is).
pub open spec fn next_picked_row(t: TableView, j: int, only: Option<int>, i: int, n: int) -> int
    decreases n - i,
{
    if i >= n {
        n
    } else if picked(t, j, only, i) {
        i
    } else {
        next_picked_row(t, j, only, i + 1, n)
    }
}

/// The edit that follows those of the rows before row `i` belongs to the
/// first row from `i` on that takes one.
proof fn lemma_next_quote(b: Seq<u8>, t: TableView, j: int, only: Option<int>, i: int, n: int)
    requires
        0 <= i <= n,
        quotes_before(b, t, j, only, i) < quotes_before(b, t, j, only, n),
    ensures
        i <= next_picked_row(t, j, only, i, n) < n,
        picked(t, j, only, next_picked_row(t, j, only, i, n)),
        quote_edits_upto(b, t, j, only, n)[quotes_before(b, t, j, only, i)] == quote_edit_view(
            b,
            t,
            t.dialect,
            next_picked_row(t, j, only, i, n),
            j,
        ),
    decreases n - i,
{
    if i == n {
    } else {
        lemma_quote_of_row(b, t, j, only, i, n);
        if !picked(t, j, only, i) {
            lemma_next_quote(b, t, j, only, i + 1, n);
        }
    }
}

/// Where a quoting edit sits in its row and what it writes: the cell's
/// content, replaced by its value in quotes.
proof fn lemma_quote_at(b: Seq<u8>, dialect: Dialect, j: int, only: Option<int>, r: int)
    requires
        b.len() <= usize::MAX,
        0 <= r < spec_parse(b, dialect).rows.len(),
        picked(spec_parse(b, dialect), j, only, r),
    ensures
        ({
            let t = spec_parse(b, dialect);
            let row = t.rows[r];
            let cell = row.cells[j];
            let ed = quote_edit_view(b, t, t.dialect, r, j);
            let x = ed.0.start as int;
            let y = ed.0.end as int;
            &&& ed.0 == cell.content_span
            &&& ed.1 == encoded(b.subrange(x, y), delimiter_of(dialect), true)
            &&& quoted_content(ed.1)
            &&& ed.1[0] == QUOTE
            &&& row.span.start <= x <= y <= row.span.end <= b.len()
            &&& cell_value(b, cell) == b.subrange(x, y)
        }),
{
    let t = spec_parse(b, dialect);
    crate::reparse::lemma_content_within(b, dialect, r, j);
    let ed = quote_edit_view(b, t, t.dialect, r, j);
    crate::reparse::lemma_encoded_shape(cell_value(b, t.rows[r].cells[j]), delimiter_of(dialect));
    crate::reparse::lemma_row_within(b, dialect, r);
}

/// Reading the quoted text from `q` as row `i` alongside the source from
/// `p`: the quoted text from `q` on is the source from `p` on with the
/// edits of rows `i..` applied.
#[verifier::opaque]
pub open spec fn quote_state(
    b: Seq<u8>,
    dialect: Dialect,
    j: int,
    only: Option<int>,
    i: int,
    p: int,
    ltb: Option<LineTerminator>,
    ewnb: bool,
    q: int,
) -> bool {
    let t = spec_parse(b, dialect);
    let es = quote_edits(b, t, j, only);
    let b2 = quoted_text(b, dialect, j, only);
    &&& source_from(b, dialect, i, p, ltb, ewnb)
    &&& p <= b.len()
    &&& 0 <= q <= b2.len()
    &&& b2.subrange(q, b2.len() as int) == applied_from(b, es, quotes_before(b, t, j, only, i), p)
}

/// The next edit after row `i`'s comes no earlier than the next row, and
/// writes a quote first.
proof fn lemma_quote_later(
    b: Seq<u8>,
    dialect: Dialect,
    j: int,
    only: Option<int>,
    i: int,
    p: int,
    ltb: Option<LineTerminator>,
    ewnb: bool,
)
    requires
        b.len() <= usize::MAX,
        source_from(b, dialect, i, p, ltb, ewnb),
        i < spec_parse(b, dialect).rows.len(),
    ensures
        ({
            let t = spec_parse(b, dialect);
            let d = delimiter_of(dialect);
            let es = quote_edits(b, t, j, only);
            let k = quotes_before(b, t, j, only, i + 1);
            let e = parse_cells(b, d, p, i).1;
            let next = e + terminator_len(b, e);
            &&& 0 <= k <= es.len()
            &&& k < es.len() ==> next <= es[k].0.start <= es[k].0.end <= b.len() && next < b.len() && es[k].1.len()
                > 0 && es[k].1[0] == QUOTE
            &&& k == es.len() ==> applied_from(b, es, k, next) == b.subrange(next, b.len() as int)
        }),
{
    let t = spec_parse(b, dialect);
    let n = t.rows.len() as int;
    let d = delimiter_of(dialect);
    let es = quote_edits(b, t, j, only);
    let k = quotes_before(b, t, j, only, i + 1);
    crate::reparse::lemma_source_bounds(b, dialect, i, p, ltb, ewnb);
    lemma_quotes_prefix(b, t, j, only, i + 1, n);
    lemma_source_step(b, dialect, i, p, ltb, ewnb);
    if k < es.len() {
        lemma_next_quote(b, t, j, only, i + 1, n);
        let r = next_picked_row(t, j, only, i + 1, n);
        lemma_quote_at(b, dialect, j, only, r);
        let rc = parse_cells(b, d, p, i);
        let e = rc.1;
        let tl = terminator_len(b, e);
        let next = e + tl;
        let lt2 = if ltb is Some {
            ltb
        } else {
            terminator_kind(b, e)
        };
        let ewn2 = tl > 0 && next == b.len();
        lemma_source_step(b, dialect, i + 1, next, lt2, ewn2);
        lemma_later_rows(b, dialect, i, r);
    }
}

/// What applying the edits from the `k`-th on and copying from `x` starts
/// with, `k` counting the edits of the rows before row `i`: nothing only
/// at the end of the text with no edits left; otherwise the byte at `x`,
/// or a quote when an edit comes first.
proof fn lemma_quote_front(b: Seq<u8>, dialect: Dialect, j: int, only: Option<int>, i: int, x: int)
    requires
        b.len() <= usize::MAX,
        0 <= i <= spec_parse(b, dialect).rows.len(),
        0 <= x <= b.len(),
        quotes_before(b, spec_parse(b, dialect), j, only, i) < quote_edits(b, spec_parse(b, dialect), j, only).len()
            ==> x <= quote_edits(b, spec_parse(b, dialect), j, only)[quotes_before(
            b,
            spec_parse(b, dialect),
            j,
            only,
            i,
        )].0.start,
    ensures
        ({
            let t = spec_parse(b, dialect);
            let es = quote_edits(b, t, j, only);
            let k = quotes_before(b, t, j, only, i);
            let a = applied_from(b, es, k, x);
            &&& 0 <= k <= es.len()
            &&& k == es.len() ==> a == b.subrange(x, b.len() as int)
            &&& k < es.len() ==> a.len() > 0 && es[k].0.start <= b.len()
            &&& a.len() > 0 && x < b.len() && (k == es.len() || x < es[k].0.start) ==> a[0] == b[x]
            &&& a.len() > 0 && k < es.len() && x == es[k].0.start ==> a[0] == QUOTE
        }),
{
    let t = spec_parse(b, dialect);
    let n = t.rows.len() as int;
    let es = quote_edits(b, t, j, only);
    let k = quotes_before(b, t, j, only, i);
    lemma_quotes_prefix(b, t, j, only, i, n);
    let a = applied_from(b, es, k, x);
    if k < es.len() {
        lemma_next_quote(b, t, j, only, i, n);
        let r = next_picked_row(t, j, only, i, n);
        lemma_quote_at(b, dialect, j, only, r);
        let st = es[k].0.start as int;
        let rest = applied_from(b, es, k + 1, es[k].0.end as int);
        assert(a == b.subrange(x, st) + es[k].1 + rest);
        if x < st {
            assert(a[0] == b.subrange(x, st)[0]);
        } else {
            assert(b.subrange(x, st).len() == 0);
            assert(a[0] == es[k].1[0]);
        }
    }
}

/// Where a row without an edit sits in the quoted text: its bytes and
/// terminator copied, then the rest.
#[verifier::spinoff_prover]
#[verifier::rlimit(60)]
proof fn lemma_quote_plain_layout(
    b: Seq<u8>,
    dialect: Dialect,
    j: int,
    only: Option<int>,
    i: int,
    p: int,
    ltb: Option<LineTerminator>,
    ewnb: bool,
    q: int,
)
    requires
        b.len() <= usize::MAX,
        quoted_text(b, dialect, j, only).len() <= usize::MAX,
        quote_state(b, dialect, j, only, i, p, ltb, ewnb, q),
        i < spec_parse(b, dialect).rows.len(),
        !picked(spec_parse(b, dialect), j, only, i),
    ensures
        ({
            let t = spec_parse(b, dialect);
            let d = delimiter_of(dialect);
            let es = quote_edits(b, t, j, only);
            let k = quotes_before(b, t, j, only, i);
            let b2 = quoted_text(b, dialect, j, only);
            let e = parse_cells(b, d, p, i).1;
            let next = e + terminator_len(b, e);
            let a2 = applied_from(b, es, k, next);
            &&& quotes_before(b, t, j, only, i + 1) == k
            &&& 0 <= p < next <= b.len()
            &&& 0 <= q
            &&& b2.len() == q + (next - p) + a2.len()
            &&& forall|x: int| 0 <= x < next - p ==> #[trigger] b2[q + x] == b[p + x]
            &&& b2.subrange(q + (next - p), b2.len() as int) == a2
            &&& next == b.len() ==> a2.len() == 0
            &&& a2.len() > 0 && terminator_len(b, e) == 1 && b[e] == CR ==> a2[0] != LF
        }),
{
    reveal(quote_state);
    let t = spec_parse(b, dialect);
    let n = t.rows.len() as int;
    let d = delimiter_of(dialect);
    let es = quote_edits(b, t, j, only);
    let b2 = quoted_text(b, dialect, j, only);
    crate::reparse::lemma_source_bounds(b, dialect, i, p, ltb, ewnb);
    lemma_source_step(b, dialect, i, p, ltb, ewnb);
    lemma_quote_of_row(b, t, j, only, i, n);
    let k = quotes_before(b, t, j, only, i);
    let rc = parse_cells(b, d, p, i);
    let e = rc.1;
    let tl = terminator_len(b, e);
    let next = e + tl;
    lemma_quote_later(b, dialect, j, only, i, p, ltb, ewnb);
    lemma_applied_skip(b, es, k, p, next);
    let a2 = applied_from(b, es, k, next);
    lemma_quote_front(b, dialect, j, only, i + 1, next);
    let whole = b2.subrange(q, b2.len() as int);
    assert(whole == b.subrange(p, next) + a2);
    assert(whole.len() == b2.len() - q);
    assert forall|x: int| 0 <= x < next - p implies #[trigger] b2[q + x] == b[p + x] by {
        assert(whole[x] == b2[q + x]);
        assert(whole[x] == b.subrange(p, next)[x]);
    }
    assert(b2.subrange(q + (next - p), b2.len() as int) =~= a2) by {
        assert forall|x: int| 0 <= x < a2.len() implies b2.subrange(q + (next - p), b2.len() as int)[x] == a2[x] by {
            assert(whole[(next - p) + x] == a2[x]);
        }
    }
    if a2.len() > 0 && next < b.len() && (k == es.len() || next < es[k].0.start) {
        assert(a2[0] == b[next]);
    }
}

/// Where a row with an edit sits in the quoted text: its bytes up to the
/// cell's content, the quoted content, the rest of its bytes and its
/// terminator, then the rest.
#[verifier::spinoff_prover]
#[verifier::rlimit(60)]
proof fn lemma_quote_edited_layout(
    b: Seq<u8>,
    dialect: Dialect,
    j: int,
    only: Option<int>,
    i: int,
    p: int,
    ltb: Option<LineTerminator>,
    ewnb: bool,
    q: int,
)
    requires
        b.len() <= usize::MAX,
        quoted_text(b, dialect, j, only).len() <= usize::MAX,
        quote_state(b, dialect, j, only, i, p, ltb, ewnb, q),
        i < spec_parse(b, dialect).rows.len(),
        picked(spec_parse(b, dialect), j, only, i),
    ensures
        ({
            let t = spec_parse(b, dialect);
            let d = delimiter_of(dialect);
            let es = quote_edits(b, t, j, only);
            let k = quotes_before(b, t, j, only, i);
            let b2 = quoted_text(b, dialect, j, only);
            let e = parse_cells(b, d, p, i).1;
            let next = e + terminator_len(b, e);
            let ed = quote_edit_view(b, t, t.dialect, i, j);
            let x = ed.0.start as int;
            let y = ed.0.end as int;
            let w = ed.1;
            let a2 = applied_from(b, es, k + 1, next);
            &&& quotes_before(b, t, j, only, i + 1) == k + 1
            &&& 0 <= p <= x <= y <= e
            &&& p < next <= b.len()
            &&& 0 <= q
            &&& b2.len() == q + (x - p) + w.len() + (next - y) + a2.len()
            &&& forall|z: int| 0 <= z < x - p ==> #[trigger] b2[q + z] == b[p + z]
            &&& forall|z: int| 0 <= z < w.len() ==> #[trigger] b2[q + (x - p) + z] == w[z]
            &&& forall|z: int| 0 <= z < next - y ==> #[trigger] b2[q + (x - p) + w.len() + z] == b[y + z]
            &&& b2.subrange(q + (x - p) + w.len() + (next - y), b2.len() as int) == a2
            &&& next == b.len() ==> a2.len() == 0
            &&& a2.len() > 0 && terminator_len(b, e) == 1 && b[e] == CR ==> a2[0] != LF
        }),
{
    reveal(quote_state);
    let t = spec_parse(b, dialect);
    let n = t.rows.len() as int;
    let d = delimiter_of(dialect);
    let es = quote_edits(b, t, j, only);
    let b2 = quoted_text(b, dialect, j, only);
    crate::reparse::lemma_source_bounds(b, dialect, i, p, ltb, ewnb);
    lemma_source_step(b, dialect, i, p, ltb, ewnb);
    lemma_quote_of_row(b, t, j, only, i, n);
    let k = quotes_before(b, t, j, only, i);
    lemma_quote_at(b, dialect, j, only, i);
    let rc = parse_cells(b, d, p, i);
    let e = rc.1;
    let tl = terminator_len(b, e);
    let next = e + tl;
    let ed = es[k];
    let x = ed.0.start as int;
    let y = ed.0.end as int;
    let w = ed.1;
    lemma_quote_later(b, dialect, j, only, i, p, ltb, ewnb);
    let mid = applied_from(b, es, k + 1, y);
    assert(applied_from(b, es, k, p) == b.subrange(p, x) + w + mid);
    lemma_applied_skip(b, es, k + 1, y, next);
    let a2 = applied_from(b, es, k + 1, next);
    lemma_quote_front(b, dialect, j, only, i + 1, next);
    let whole = b2.subrange(q, b2.len() as int);
    assert(whole == b.subrange(p, x) + w + (b.subrange(y, next) + a2));
    assert(whole.len() == b2.len() - q);
    assert forall|z: int| 0 <= z < x - p implies #[trigger] b2[q + z] == b[p + z] by {
        assert(whole[z] == b2[q + z]);
    }
    assert forall|z: int| 0 <= z < w.len() implies #[trigger] b2[q + (x - p) + z] == w[z] by {
        assert(whole[(x - p) + z] == b2[q + (x - p) + z]);
    }
    assert forall|z: int| 0 <= z < next - y implies #[trigger] b2[q + (x - p) + w.len() + z] == b[y + z] by {
        assert(whole[(x - p) + w.len() + z] == b2[q + (x - p) + w.len() + z]);
    }
    assert(b2.subrange(q + (x - p) + w.len() + (next - y), b2.len() as int) =~= a2) by {
        assert forall|z: int| 0 <= z < a2.len() implies b2.subrange(
            q + (x - p) + w.len() + (next - y),
            b2.len() as int,
        )[z] == a2[z] by {
            assert(whole[(x - p) + w.len() + (next - y) + z] == a2[z]);
        }
    }
    let k1 = quotes_before(b, t, j, only, i + 1);
    if a2.len() > 0 && next < b.len() && (k1 == es.len() || next < es[k1].0.start) {
        assert(a2[0] == b[next]);
    }
}

/// A cell moved along with its bytes keeps its value.
pub proof fn lemma_shifted_value(b: Seq<u8>, b2: Seq<u8>, c: Cell, delta: int)
    requires
        c.content_span.start <= c.content_span.end <= b.len(),
        0 <= c.content_span.start + delta,
        c.content_span.end + delta <= b2.len(),
        b2.len() <= usize::MAX,
        forall|z: int|
            c.content_span.start <= z < c.content_span.end ==> #[trigger] b2[z + delta] == b[z],
    ensures
        cell_value(b2, shift_cell(c, delta)) == cell_value(b, c),
{
    let cs = c.content_span.start as int;
    let ce = c.content_span.end as int;
    assert(b2.subrange(cs + delta, ce + delta) =~= b.subrange(cs, ce)) by {
        assert forall|z: int| 0 <= z < ce - cs implies b2.subrange(cs + delta, ce + delta)[z] == b.subrange(cs, ce)[z] by {
            assert(b2[(cs + z) + delta] == b[cs + z]);
        }
    }
}

/// How a row reads after quoting: the same cells with the same values,
/// the same blankness, and cell `j` quoted where the change picks it;
/// every other cell keeps its quoting.
pub open spec fn quoted_row(
    b: Seq<u8>,
    t: TableView,
    j: int,
    only: Option<int>,
    x: int,
    b2: Seq<u8>,
    r: RowView,
    r2: RowView,
) -> bool {
    &&& r2.cells.len() == r.cells.len()
    &&& row_is_blank(r2) == row_is_blank(r)
    &&& forall|y: int| 0 <= y < r.cells.len() ==> cell_value(b2, #[trigger] r2.cells[y]) == cell_value(b, r.cells[y])
    &&& forall|y: int|
        0 <= y < r.cells.len() ==> (#[trigger] r2.cells[y]).quoting == (if picked(t, j, only, x) && y == j {
            Quoting::Quoted
        } else {
            r.cells[y].quoting
        })
}

/// A row without an edit reads the same in the quoted text, moved, and
/// reading goes on from the same place after it.
#[verifier::spinoff_prover]
#[verifier::rlimit(100)]
proof fn lemma_quote_step_plain(
    b: Seq<u8>,
    dialect: Dialect,
    j: int,
    only: Option<int>,
    i: int,
    p: int,
    ltb: Option<LineTerminator>,
    ewnb: bool,
    q: int,
)
    requires
        b.len() <= usize::MAX,
        quoted_text(b, dialect, j, only).len() <= usize::MAX,
        quote_state(b, dialect, j, only, i, p, ltb, ewnb, q),
        i < spec_parse(b, dialect).rows.len(),
        !picked(spec_parse(b, dialect), j, only, i),
    ensures
        ({
            let d = delimiter_of(dialect);
            let b2 = quoted_text(b, dialect, j, only);
            let rc = parse_cells(b, d, p, i);
            let e = rc.1;
            let next = e + terminator_len(b, e);
            let lt2 = if ltb is Some {
                ltb
            } else {
                terminator_kind(b, e)
            };
            let ewn2 = terminator_len(b, e) > 0 && next == b.len();
            let e2 = q + (e - p);
            let next2 = q + (next - p);
            let rc2 = parse_cells(b2, d, q, i);
            let rest = parse_rows(b2, d, next2, i + 1, lt2, ewn2);
            &&& rc2 == (shift_cells(rc.0, q - p), e2, shift_errors(rc.2, q - p))
            &&& b2.subrange(q, e2) == b.subrange(p, e)
            &&& parse_rows(b2, d, q, i, ltb, ewnb) == (
                seq![RowView { span: span_of(q, e2), cells: rc2.0 }] + rest.0,
                rc2.2 + rest.1,
                rest.2,
                rest.3,
            )
            &&& quote_state(b, dialect, j, only, i + 1, next, lt2, ewn2, next2)
        }),
{
    reveal(quote_state);
    let t = spec_parse(b, dialect);
    let d = delimiter_of(dialect);
    let es = quote_edits(b, t, j, only);
    let b2 = quoted_text(b, dialect, j, only);
    crate::reparse::lemma_source_bounds(b, dialect, i, p, ltb, ewnb);
    lemma_source_step(b, dialect, i, p, ltb, ewnb);
    lemma_quote_plain_layout(b, dialect, j, only, i, p, ltb, ewnb, q);
    crate::reparse::lemma_delimiter_plain(dialect);
    let rc = parse_cells(b, d, p, i);
    lemma_parse_cells(b, d, p, i);
    let e = rc.1;
    let tl = terminator_len(b, e);
    let next = e + tl;
    let k = quotes_before(b, t, j, only, i);
    let a2 = applied_from(b, es, k, next);
    let e2 = q + (e - p);
    lemma_quote_later(b, dialect, j, only, i, p, ltb, ewnb);
    lemma_quote_front(b, dialect, j, only, i + 1, next);
    assert(same_row(b, p, b2, q, e - p)) by {
        assert forall|x: int| 0 <= x < e - p implies #[trigger] b[p + x] == b2[q + x] by {}
        if e < b.len() {
            assert(b2[q + (e - p)] == b[p + (e - p)]);
        }
    }
    assert(b2.subrange(q, e2) =~= b.subrange(p, e)) by {
        assert forall|x: int| 0 <= x < e - p implies b2.subrange(q, e2)[x] == b.subrange(p, e)[x] by {
            assert(b2[q + x] == b[p + x]);
        }
    }
    lemma_cells_local(b, p, b2, q, e - p, p, d, i);
    lemma_rows_step(b2, d, q, i, ltb, ewnb);
    if a2.len() > 0 {
        assert(b2[q + (next - p)] == a2[0]);
    }
    assert forall|x: int| 0 <= x < tl implies #[trigger] b2[e2 + x] == b[e + x] by {
        assert(b2[q + (e - p + x)] == b[p + (e - p + x)]);
    }
    lemma_term_same(b, e, b2, e2);
    reveal(quote_state);
}

/// A row with an edit, read in the quoted text: its cells with cell `j`
/// quoted and every value kept, no errors.
#[verifier::spinoff_prover]
#[verifier::rlimit(60)]
proof fn lemma_quote_row(
    b: Seq<u8>,
    dialect: Dialect,
    j: int,
    only: Option<int>,
    i: int,
    p: int,
    ltb: Option<LineTerminator>,
    ewnb: bool,
    q: int,
)
    requires
        b.len() <= usize::MAX,
        quoted_text(b, dialect, j, only).len() <= usize::MAX,
        quote_state(b, dialect, j, only, i, p, ltb, ewnb, q),
        i < spec_parse(b, dialect).rows.len(),
        picked(spec_parse(b, dialect), j, only, i),
    ensures
        ({
            let t = spec_parse(b, dialect);
            let d = delimiter_of(dialect);
            let b2 = quoted_text(b, dialect, j, only);
            let rc = parse_cells(b, d, p, i);
            let e = rc.1;
            let ed = quote_edit_view(b, t, t.dialect, i, j);
            let grow = ed.1.len() - (ed.0.end - ed.0.start);
            let e2 = q + (e - p) + grow;
            let rc2 = parse_cells(b2, d, q, i);
            &&& rc.2.len() == 0
            &&& rc2.1 == e2
            &&& rc2.2.len() == 0
            &&& quoted_row(b, t, j, only, i, b2, t.rows[i], RowView { span: span_of(q, e2), cells: rc2.0 })
        }),
{
    reveal(quote_state);
    let t = spec_parse(b, dialect);
    let d = delimiter_of(dialect);
    let b2 = quoted_text(b, dialect, j, only);
    crate::reparse::lemma_source_bounds(b, dialect, i, p, ltb, ewnb);
    lemma_source_step(b, dialect, i, p, ltb, ewnb);
    lemma_quote_edited_layout(b, dialect, j, only, i, p, ltb, ewnb, q);
    lemma_quote_at(b, dialect, j, only, i);
    crate::reparse::lemma_delimiter_plain(dialect);
    let rc = parse_cells(b, d, p, i);
    lemma_parse_cells(b, d, p, i);
    let e = rc.1;
    let ed = quote_edit_view(b, t, t.dialect, i, j);
    let x = ed.0.start as int;
    let y = ed.0.end as int;
    let w = ed.1;
    assert(t.rows[i].cells == rc.0);
    if e < b.len() {
        assert(b2[q + (x - p) + w.len() + (e - y)] == b[y + (e - y)]);
    }
    assert forall|z: int| 0 <= z < e - y implies #[trigger] b2[q + (x - p) + w.len() + z] == b[y + z] by {}
    lemma_quoted_cells(b, p, b2, q, p, j, w, e, d, i);
    lemma_quote_row_values(b, dialect, j, only, i, p, q);
}

/// A row with an edit reads in the quoted text as its cells with cell `j`
/// quoted, no errors, and reading goes on after it.
#[verifier::spinoff_prover]
#[verifier::rlimit(100)]
proof fn lemma_quote_step_edited(
    b: Seq<u8>,
    dialect: Dialect,
    j: int,
    only: Option<int>,
    i: int,
    p: int,
    ltb: Option<LineTerminator>,
    ewnb: bool,
    q: int,
)
    requires
        b.len() <= usize::MAX,
        quoted_text(b, dialect, j, only).len() <= usize::MAX,
        quote_state(b, dialect, j, only, i, p, ltb, ewnb, q),
        i < spec_parse(b, dialect).rows.len(),
        picked(spec_parse(b, dialect), j, only, i),
    ensures
        ({
            let t = spec_parse(b, dialect);
            let d = delimiter_of(dialect);
            let b2 = quoted_text(b, dialect, j, only);
            let rc = parse_cells(b, d, p, i);
            let e = rc.1;
            let next = e + terminator_len(b, e);
            let lt2 = if ltb is Some {
                ltb
            } else {
                terminator_kind(b, e)
            };
            let ewn2 = terminator_len(b, e) > 0 && next == b.len();
            let ed = quote_edit_view(b, t, t.dialect, i, j);
            let grow = ed.1.len() - (ed.0.end - ed.0.start);
            let e2 = q + (e - p) + grow;
            let next2 = q + (next - p) + grow;
            let rc2 = parse_cells(b2, d, q, i);
            let rest = parse_rows(b2, d, next2, i + 1, lt2, ewn2);
            &&& parse_rows(b2, d, q, i, ltb, ewnb) == (
                seq![RowView { span: span_of(q, e2), cells: rc2.0 }] + rest.0,
                rc2.2 + rest.1,
                rest.2,
                rest.3,
            )
            &&& quote_state(b, dialect, j, only, i + 1, next, lt2, ewn2, next2)
        }),
{
    reveal(quote_state);
    let t = spec_parse(b, dialect);
    let d = delimiter_of(dialect);
    let es = quote_edits(b, t, j, only);
    let b2 = quoted_text(b, dialect, j, only);
    crate::reparse::lemma_source_bounds(b, dialect, i, p, ltb, ewnb);
    lemma_source_step(b, dialect, i, p, ltb, ewnb);
    lemma_quote_edited_layout(b, dialect, j, only, i, p, ltb, ewnb, q);
    lemma_quote_row(b, dialect, j, only, i, p, ltb, ewnb, q);
    let rc = parse_cells(b, d, p, i);
    let e = rc.1;
    let tl = terminator_len(b, e);
    let next = e + tl;
    let k = quotes_before(b, t, j, only, i);
    let a2 = applied_from(b, es, k + 1, next);
    let ed = quote_edit_view(b, t, t.dialect, i, j);
    let x = ed.0.start as int;
    let y = ed.0.end as int;
    let w = ed.1;
    let e2 = q + (e - p) + (w.len() - (y - x));
    lemma_rows_step(b2, d, q, i, ltb, ewnb);
    lemma_quote_later(b, dialect, j, only, i, p, ltb, ewnb);
    lemma_quote_front(b, dialect, j, only, i + 1, next);
    if a2.len() > 0 {
        assert(b2[q + (x - p) + w.len() + (next - y)] == a2[0]);
    }
    assert forall|z: int| 0 <= z < tl implies #[trigger] b2[e2 + z] == b[e + z] by {
        assert(b2[q + (x - p) + w.len() + (e - y + z)] == b[y + (e - y + z)]);
    }
    lemma_term_same(b, e, b2, e2);
    reveal(quote_state);
}

/// The values of a row with an edit, read in the quoted text: every cell
/// keeps its value, cell `j` is quoted, the rest keep their quoting.
#[verifier::spinoff_prover]
#[verifier::rlimit(100)]
proof fn lemma_quote_row_values(
    b: Seq<u8>,
    dialect: Dialect,
    j: int,
    only: Option<int>,
    i: int,
    p: int,
    q: int,
)
    requires
        b.len() <= usize::MAX,
        quoted_text(b, dialect, j, only).len() <= usize::MAX,
        0 <= i < spec_parse(b, dialect).rows.len(),
        picked(spec_parse(b, dialect), j, only, i),
        0 <= q,
        ({
            let t = spec_parse(b, dialect);
            let d = delimiter_of(dialect);
            let b2 = quoted_text(b, dialect, j, only);
            let rc = parse_cells(b, d, p, i);
            let e = rc.1;
            let ed = quote_edit_view(b, t, t.dialect, i, j);
            let x = ed.0.start as int;
            let y = ed.0.end as int;
            let w = ed.1;
            let r1 = rc;
            let delta = q - p;
            let delta2 = delta + w.len() - (y - x);
            let r2 = parse_cells(b2, d, q, i);
            &&& t.rows[i] == RowView { span: span_of(p, e), cells: rc.0 }
            &&& 0 <= p <= x <= y <= e <= b.len()
            &&& q + (x - p) + w.len() + (e - y) <= b2.len()
            &&& forall|z: int| 0 <= z < x - p ==> #[trigger] b2[q + z] == b[p + z]
            &&& forall|z: int| 0 <= z < w.len() ==> #[trigger] b2[q + (x - p) + z] == w[z]
            &&& forall|z: int| 0 <= z < e - y ==> #[trigger] b2[q + (x - p) + w.len() + z] == b[y + z]
            &&& r2.0.len() == r1.0.len()
            &&& forall|k: int| 0 <= k < j ==> #[trigger] r2.0[k] == shift_cell(r1.0[k], delta)
            &&& r2.0[j].quoting == Quoting::Quoted
            &&& r2.0[j].has_escaped_quotes == shape_escapes(w)
            &&& r2.0[j].content_span == span_of(x + delta, x + delta + w.len())
            &&& forall|k: int| j < k < r1.0.len() ==> #[trigger] r2.0[k] == shift_cell(r1.0[k], delta2)
        }),
    ensures
        ({
            let t = spec_parse(b, dialect);
            let d = delimiter_of(dialect);
            let b2 = quoted_text(b, dialect, j, only);
            let e = parse_cells(b, d, p, i).1;
            let ed = quote_edit_view(b, t, t.dialect, i, j);
            let grow = ed.1.len() - (ed.0.end - ed.0.start);
            quoted_row(
                b,
                t,
                j,
                only,
                i,
                b2,
                t.rows[i],
                RowView { span: span_of(q, q + (e - p) + grow), cells: parse_cells(b2, d, q, i).0 },
            )
        }),
{
    let t = spec_parse(b, dialect);
    let d = delimiter_of(dialect);
    let b2 = quoted_text(b, dialect, j, only);
    let rc = parse_cells(b, d, p, i);
    let e = rc.1;
    let cs = rc.0;
    let ed = quote_edit_view(b, t, t.dialect, i, j);
    let x = ed.0.start as int;
    let y = ed.0.end as int;
    let w = ed.1;
    let delta = q - p;
    let delta2 = delta + w.len() - (y - x);
    let cs2 = parse_cells(b2, d, q, i).0;
    lemma_quote_at(b, dialect, j, only, i);
    crate::wellformed::law_parse_sound(b, dialect);
    crate::wellformed::lemma_parse_ordered(b, dialect);
    assert(t.rows[i].cells == cs);
    assert(t.rows[i] == t.rows[i]);
    assert(crate::wellformed::cells_tile(b, d, cs, p, e));
    assert(crate::wellformed::cell_sound(b, cs[j]));
    assert(cs[j] == t.rows[i].cells[j]);
    assert forall|k: int| 0 <= k < cs.len() implies cell_value(b2, #[trigger] cs2[k]) == cell_value(b, cs[k]) by {
        assert(cs[k] == t.rows[i].cells[k]);
        crate::reparse::lemma_content_within(b, dialect, i, k);
        assert(crate::wellformed::cell_sound(b, cs[k]));
        if k < j {
            assert(t.rows[i].cells[k].span.end < t.rows[i].cells[j].span.start);
            assert forall|z: int| cs[k].content_span.start <= z < cs[k].content_span.end implies #[trigger] b2[z + delta]
                == b[z] by {
                assert(b2[q + (z - p)] == b[p + (z - p)]);
            }
            lemma_shifted_value(b, b2, cs[k], delta);
        } else if k == j {
            assert(b2.subrange(x + delta, x + delta + w.len()) =~= w) by {
                assert forall|z: int| 0 <= z < w.len() implies b2.subrange(x + delta, x + delta + w.len())[z] == w[z] by {
                    assert(b2[q + (x - p) + z] == w[z]);
                }
            }
            crate::reparse::lemma_encoded_value(b.subrange(x, y), d);
        } else {
            assert(t.rows[i].cells[j].span.end < t.rows[i].cells[k].span.start);
            assert forall|z: int| cs[k].content_span.start <= z < cs[k].content_span.end implies #[trigger] b2[z + delta2]
                == b[z] by {
                assert(b2[q + (x - p) + w.len() + (z - y)] == b[y + (z - y)]);
            }
            lemma_shifted_value(b, b2, cs[k], delta2);
        }
    }
    assert forall|k: int| 0 <= k < cs.len() implies (#[trigger] cs2[k]).quoting == (if picked(t, j, only, i) && k == j {
        Quoting::Quoted
    } else {
        cs[k].quoting
    }) by {
        if k < j {
            assert(cs2[k] == shift_cell(cs[k], delta));
        } else if k > j {
            assert(cs2[k] == shift_cell(cs[k], delta2));
        }
    }
}

/// The rows of the quoted text from `q` on are the source's rows from `i`
/// on, related as [`quoted_row`] says; the same error kinds on the same
/// rows, and the same terminator state.
#[verifier::opaque]
pub open spec fn quote_reads_from(
    b: Seq<u8>,
    dialect: Dialect,
    j: int,
    only: Option<int>,
    i: int,
    p: int,
    ltb: Option<LineTerminator>,
    ewnb: bool,
    q: int,
) -> bool {
    let t = spec_parse(b, dialect);
    let d = delimiter_of(dialect);
    let b2 = quoted_text(b, dialect, j, only);
    let a = parse_rows(b, d, p, i, ltb, ewnb);
    let bb = parse_rows(b2, d, q, i, ltb, ewnb);
    &&& bb.0.len() == a.0.len()
    &&& forall|x: int| 0 <= x < bb.0.len() ==> quoted_row(b, t, j, only, i + x, b2, a.0[x], #[trigger] bb.0[x])
    &&& same_error_kinds(a.1, bb.1)
    &&& bb.2 == a.2
    &&& bb.3 == a.3
}

/// Past the last row, both readings are done.
proof fn lemma_quote_end(
    b: Seq<u8>,
    dialect: Dialect,
    j: int,
    only: Option<int>,
    i: int,
    p: int,
    ltb: Option<LineTerminator>,
    ewnb: bool,
    q: int,
)
    requires
        b.len() <= usize::MAX,
        quote_state(b, dialect, j, only, i, p, ltb, ewnb, q),
        i == spec_parse(b, dialect).rows.len(),
    ensures
        quote_reads_from(b, dialect, j, only, i, p, ltb, ewnb, q),
{
    reveal(quote_state);
    reveal(quote_reads_from);
    reveal(source_from);
    let t = spec_parse(b, dialect);
    let d = delimiter_of(dialect);
    let b2 = quoted_text(b, dialect, j, only);
    let a = parse_rows(b, d, p, i, ltb, ewnb);
    if p < b.len() {
        lemma_rows_step(b, d, p, i, ltb, ewnb);
        assert(a.0.len() >= 1);
    }
    lemma_rows_done(b, d, p, i, ltb, ewnb);
    lemma_quotes_prefix(b, t, j, only, i, i);
    assert(b2.subrange(q, b2.len() as int).len() == 0);
    lemma_rows_done(b2, d, q, i, ltb, ewnb);
}

/// The source reading inside a state.
proof fn lemma_quote_source(
    b: Seq<u8>,
    dialect: Dialect,
    j: int,
    only: Option<int>,
    i: int,
    p: int,
    ltb: Option<LineTerminator>,
    ewnb: bool,
    q: int,
)
    requires
        quote_state(b, dialect, j, only, i, p, ltb, ewnb, q),
    ensures
        source_from(b, dialect, i, p, ltb, ewnb),
        p <= b.len(),
        0 <= q <= quoted_text(b, dialect, j, only).len(),
{
    reveal(quote_state);
}

/// The rows from an edited row on relate once the rows after it do.
#[verifier::spinoff_prover]
#[verifier::rlimit(60)]
proof fn lemma_quote_cons_edited(
    b: Seq<u8>,
    dialect: Dialect,
    j: int,
    only: Option<int>,
    i: int,
    p: int,
    ltb: Option<LineTerminator>,
    ewnb: bool,
    q: int,
)
    requires
        b.len() <= usize::MAX,
        quoted_text(b, dialect, j, only).len() <= usize::MAX,
        quote_state(b, dialect, j, only, i, p, ltb, ewnb, q),
        i < spec_parse(b, dialect).rows.len(),
        picked(spec_parse(b, dialect), j, only, i),
        ({
            let t = spec_parse(b, dialect);
            let e = parse_cells(b, delimiter_of(dialect), p, i).1;
            let next = e + terminator_len(b, e);
            let lt2 = if ltb is Some {
                ltb
            } else {
                terminator_kind(b, e)
            };
            let ewn2 = terminator_len(b, e) > 0 && next == b.len();
            let ed = quote_edit_view(b, t, t.dialect, i, j);
            let grow = ed.1.len() - (ed.0.end - ed.0.start);
            quote_reads_from(b, dialect, j, only, i + 1, next, lt2, ewn2, q + (next - p) + grow)
        }),
    ensures
        quote_reads_from(b, dialect, j, only, i, p, ltb, ewnb, q),
{
    reveal(quote_reads_from);
    let t = spec_parse(b, dialect);
    let d = delimiter_of(dialect);
    let b2 = quoted_text(b, dialect, j, only);
    let a = parse_rows(b, d, p, i, ltb, ewnb);
    let bb = parse_rows(b2, d, q, i, ltb, ewnb);
    lemma_quote_source(b, dialect, j, only, i, p, ltb, ewnb, q);
    crate::reparse::lemma_source_bounds(b, dialect, i, p, ltb, ewnb);
    lemma_source_step(b, dialect, i, p, ltb, ewnb);
    lemma_quote_step_edited(b, dialect, j, only, i, p, ltb, ewnb, q);
    lemma_quote_row(b, dialect, j, only, i, p, ltb, ewnb, q);
    let rc = parse_cells(b, d, p, i);
    let e = rc.1;
    let tl = terminator_len(b, e);
    let next = e + tl;
    let lt2 = if ltb is Some {
        ltb
    } else {
        terminator_kind(b, e)
    };
    let ewn2 = tl > 0 && next == b.len();
    let a2 = parse_rows(b, d, next, i + 1, lt2, ewn2);
    let rc2 = parse_cells(b2, d, q, i);
    let ed = quote_edit_view(b, t, t.dialect, i, j);
    let grow = ed.1.len() - (ed.0.end - ed.0.start);
    let next2 = q + (next - p) + grow;
    let b2r = parse_rows(b2, d, next2, i + 1, lt2, ewn2);
    let row2 = RowView { span: span_of(q, q + (e - p) + grow), cells: rc2.0 };
    assert(bb.0 == seq![row2] + b2r.0);
    assert forall|x: int| 0 <= x < bb.0.len() implies quoted_row(b, t, j, only, i + x, b2, a.0[x], #[trigger] bb.0[x]) by {
        if x > 0 {
            assert(bb.0[x] == b2r.0[x - 1]);
            assert(a.0[x] == a2.0[x - 1]);
            assert(i + 1 + (x - 1) == i + x);
        } else {
            assert(a.0[0] == t.rows[i]);
        }
    }
    lemma_kinds_cons(rc.2, a2.1, rc2.2, b2r.1, q - p, false);
}

/// The rows from an unedited row on relate once the rows after it do.
#[verifier::spinoff_prover]
#[verifier::rlimit(60)]
proof fn lemma_quote_cons_plain(
    b: Seq<u8>,
    dialect: Dialect,
    j: int,
    only: Option<int>,
    i: int,
    p: int,
    ltb: Option<LineTerminator>,
    ewnb: bool,
    q: int,
)
    requires
        b.len() <= usize::MAX,
        quoted_text(b, dialect, j, only).len() <= usize::MAX,
        quote_state(b, dialect, j, only, i, p, ltb, ewnb, q),
        i < spec_parse(b, dialect).rows.len(),
        !picked(spec_parse(b, dialect), j, only, i),
        ({
            let e = parse_cells(b, delimiter_of(dialect), p, i).1;
            let next = e + terminator_len(b, e);
            let lt2 = if ltb is Some {
                ltb
            } else {
                terminator_kind(b, e)
            };
            let ewn2 = terminator_len(b, e) > 0 && next == b.len();
            quote_reads_from(b, dialect, j, only, i + 1, next, lt2, ewn2, q + (next - p))
        }),
    ensures
        quote_reads_from(b, dialect, j, only, i, p, ltb, ewnb, q),
{
    reveal(quote_reads_from);
    let t = spec_parse(b, dialect);
    let d = delimiter_of(dialect);
    let b2 = quoted_text(b, dialect, j, only);
    let a = parse_rows(b, d, p, i, ltb, ewnb);
    let bb = parse_rows(b2, d, q, i, ltb, ewnb);
    lemma_quote_source(b, dialect, j, only, i, p, ltb, ewnb, q);
    crate::reparse::lemma_source_bounds(b, dialect, i, p, ltb, ewnb);
    lemma_source_step(b, dialect, i, p, ltb, ewnb);
    lemma_quote_step_plain(b, dialect, j, only, i, p, ltb, ewnb, q);
    let rc = parse_cells(b, d, p, i);
    let e = rc.1;
    let tl = terminator_len(b, e);
    let next = e + tl;
    let lt2 = if ltb is Some {
        ltb
    } else {
        terminator_kind(b, e)
    };
    let ewn2 = tl > 0 && next == b.len();
    let a2 = parse_rows(b, d, next, i + 1, lt2, ewn2);
    let rc2 = parse_cells(b2, d, q, i);
    let next2 = q + (next - p);
    let b2r = parse_rows(b2, d, next2, i + 1, lt2, ewn2);
    let row2 = RowView { span: span_of(q, q + (e - p)), cells: rc2.0 };
    assert(bb.0 == seq![row2] + b2r.0);
    lemma_parse_cells(b2, d, q, i);
    let row = t.rows[i];
    assert(row == RowView { span: span_of(p, e), cells: rc.0 });
    assert forall|k: int| 0 <= k < row.cells.len() implies row.span.start <= (#[trigger] row.cells[k]).content_span.start
        <= row.cells[k].content_span.end <= row.span.end by {
        crate::reparse::lemma_content_within(b, dialect, i, k);
    }
    crate::reparse::lemma_row_within(b, dialect, i);
    crate::reparse::lemma_moved_values(b2, row2, b, row);
    assert forall|x: int| 0 <= x < bb.0.len() implies quoted_row(b, t, j, only, i + x, b2, a.0[x], #[trigger] bb.0[x]) by {
        if x > 0 {
            assert(bb.0[x] == b2r.0[x - 1]);
            assert(a.0[x] == a2.0[x - 1]);
            assert(i + 1 + (x - 1) == i + x);
        } else {
            assert(a.0[0] == t.rows[i]);
            assert forall|y: int| 0 <= y < row.cells.len() implies (#[trigger] row2.cells[y]).quoting == row.cells[y].quoting by {
                assert(row2.cells[y] == shift_cell(row.cells[y], q - p));
            }
        }
    }
    lemma_kinds_cons(rc.2, a2.1, rc2.2, b2r.1, q - p, true);
}

/// Reading the quoted text row by row alongside the source.
proof fn lemma_quote_rows(
    b: Seq<u8>,
    dialect: Dialect,
    j: int,
    only: Option<int>,
    i: int,
    p: int,
    ltb: Option<LineTerminator>,
    ewnb: bool,
    q: int,
)
    requires
        b.len() <= usize::MAX,
        quoted_text(b, dialect, j, only).len() <= usize::MAX,
        quote_state(b, dialect, j, only, i, p, ltb, ewnb, q),
    ensures
        quote_reads_from(b, dialect, j, only, i, p, ltb, ewnb, q),
    decreases b.len() - p,
{
    let t = spec_parse(b, dialect);
    let n = t.rows.len() as int;
    let d = delimiter_of(dialect);
    lemma_quote_source(b, dialect, j, only, i, p, ltb, ewnb, q);
    crate::reparse::lemma_source_bounds(b, dialect, i, p, ltb, ewnb);
    if i == n {
        lemma_quote_end(b, dialect, j, only, i, p, ltb, ewnb, q);
    } else {
        lemma_source_step(b, dialect, i, p, ltb, ewnb);
        let e = parse_cells(b, d, p, i).1;
        let next = e + terminator_len(b, e);
        let lt2 = if ltb is Some {
            ltb
        } else {
            terminator_kind(b, e)
        };
        let ewn2 = terminator_len(b, e) > 0 && next == b.len();
        if picked(t, j, only, i) {
            lemma_quote_step_edited(b, dialect, j, only, i, p, ltb, ewnb, q);
            let ed = quote_edit_view(b, t, t.dialect, i, j);
            let grow = ed.1.len() - (ed.0.end - ed.0.start);
            lemma_quote_rows(b, dialect, j, only, i + 1, next, lt2, ewn2, q + (next - p) + grow);
            lemma_quote_cons_edited(b, dialect, j, only, i, p, ltb, ewnb, q);
        } else {
            lemma_quote_step_plain(b, dialect, j, only, i, p, ltb, ewnb, q);
            lemma_quote_rows(b, dialect, j, only, i + 1, next, lt2, ewn2, q + (next - p));
            lemma_quote_cons_plain(b, dialect, j, only, i, p, ltb, ewnb, q);
        }
    }
}

/// The quoted text starts like the source: same byte-order mark, and from
/// the first row on it is the source with the edits applied.
proof fn lemma_quote_top(b: Seq<u8>, dialect: Dialect, j: int, only: Option<int>)
    requires
        b.len() <= usize::MAX,
        quoted_text(b, dialect, j, only).len() <= usize::MAX,
    ensures
        has_bom_bytes(quoted_text(b, dialect, j, only)) == has_bom_bytes(b),
        quote_state(b, dialect, j, only, 0, body_start(b), None, false, body_start(b)),
{
    reveal(quote_state);
    let t = spec_parse(b, dialect);
    let n = t.rows.len() as int;
    let es = quote_edits(b, t, j, only);
    let b2 = quoted_text(b, dialect, j, only);
    let p0 = body_start(b);
    crate::reparse::lemma_source_top(b, dialect);
    crate::wellformed::law_parse_sound(b, dialect);
    lemma_quotes_prefix(b, t, j, only, 0, n);
    assert(quotes_before(b, t, j, only, 0) == 0);
    if es.len() > 0 {
        lemma_next_quote(b, t, j, only, 0, n);
        let r = next_picked_row(t, j, only, 0, n);
        lemma_quote_at(b, dialect, j, only, r);
        assert(t.rows[r] == t.rows[r]);
    }
    lemma_applied_skip(b, es, 0, 0, p0);
    assert(b2 == b.subrange(0, p0) + applied_from(b, es, 0, p0));
    assert(b2.subrange(p0, b2.len() as int) =~= applied_from(b, es, 0, p0));
    if has_bom_bytes(b) {
        assert(b2[0] == b[0] && b2[1] == b[1] && b2[2] == b[2]);
    } else if es.len() == 0 {
        assert(b2 =~= b);
    } else {
        let x = es[0].0.start as int;
        lemma_applied_skip(b, es, 0, 0, x);
        assert(b2 == b.subrange(0, x) + applied_from(b, es, 0, x));
        lemma_quote_front(b, dialect, j, only, 0, x);
        if x < 3 {
            assert(b2[x] == applied_from(b, es, 0, x)[0]);
            crate::reparse::lemma_plain_no_bom(b2, x);
        } else {
            assert(b2[0] == b[0] && b2[1] == b[1] && b2[2] == b[2]);
        }
    }
}

/// The quote-column edits are the quoting edits of every quotable cell of
/// the column.
proof fn lemma_column_quotes(b: Seq<u8>, t: TableView, j: int, k: int)
    ensures
        quote_edits_upto(b, t, j, None, k) == quote_column_upto(b, t, t.dialect, j, k),
    decreases k,
{
    if k > 0 {
        lemma_column_quotes(b, t, j, k - 1);
    }
}

/// With one row named, only that row's cell is quoted.
proof fn lemma_cell_quotes(b: Seq<u8>, t: TableView, j: int, i: int, k: int)
    requires
        0 <= i < t.rows.len(),
        quotable_cell(t, i, j),
        0 <= k <= t.rows.len(),
    ensures
        quote_edits_upto(b, t, j, Some(i), k) == (if i < k {
            seq![quote_edit_view(b, t, t.dialect, i, j)]
        } else {
            Seq::empty()
        }),
    decreases k,
{
    if k > 0 {
        lemma_cell_quotes(b, t, j, i, k - 1);
    }
}

/// Quoting cells (a whole column's quotable cells, or the one cell a row
/// names) keeps every value: every cell reads back with the value it had,
/// every quoted cell now reads as quoted (so it is no longer offered for
/// quoting), every other cell keeps its quoting; the rows, their
/// blankness, the errors on them, the byte-order mark, the line
/// terminator and the final newline all stay as they were.
pub proof fn law_quoting_keeps_values(b: Seq<u8>, dialect: Dialect, j: int, only: Option<int>)
    requires
        b.len() <= usize::MAX,
        quoted_text(b, dialect, j, only).len() <= usize::MAX,
    ensures
        ({
            let t = spec_parse(b, dialect);
            let b2 = quoted_text(b, dialect, j, only);
            let t2 = spec_parse(b2, dialect);
            &&& only is None ==> quote_edits(b, t, j, only) == quote_column_upto(b, t, dialect, j, t.rows.len() as int)
            &&& forall|i: int|
                only == Some(i) && 0 <= i < t.rows.len() && quotable_cell(t, i, j) ==> #[trigger] quote_edits(
                    b,
                    t,
                    j,
                    Some(i),
                ) == seq![quote_edit_view(b, t, dialect, i, j)]
            &&& t2.rows.len() == t.rows.len()
            &&& forall|x: int| 0 <= x < t2.rows.len() ==> quoted_row(b, t, j, only, x, b2, t.rows[x], #[trigger] t2.rows[x])
            &&& same_error_kinds(t.errors, t2.errors)
            &&& t2.has_bom == t.has_bom
            &&& t2.line_terminator == t.line_terminator
            &&& t2.ends_with_newline == t.ends_with_newline
        }),
{
    let t = spec_parse(b, dialect);
    let b2 = quoted_text(b, dialect, j, only);
    let t2 = spec_parse(b2, dialect);
    lemma_column_quotes(b, t, j, t.rows.len() as int);
    if let Some(i) = only {
        if 0 <= i < t.rows.len() && quotable_cell(t, i, j) {
            lemma_cell_quotes(b, t, j, i, t.rows.len() as int);
        }
    }
    lemma_quote_top(b, dialect, j, only);
    lemma_quote_rows(b, dialect, j, only, 0, body_start(b), None, false, body_start(b));
    reveal(quote_reads_from);
    assert(body_start(b2) == body_start(b));
    assert forall|x: int| 0 <= x < t2.rows.len() implies quoted_row(b, t, j, only, x, b2, t.rows[x], #[trigger] t2.rows[x]) by {
        assert(0 + x == x);
    }
}

} // verus!
