//! What deleting a column does to a table: every row that takes part
//! loses one cell (a single-cell row becomes a blank line), nothing else
//! changes, so a file without parse errors or ragged rows stays that way.

use vstd::prelude::*;

use crate::grammar::{
    cell_stop, is_cell_end, lemma_cell_stop, lemma_skip_spaces, skip_spaces,
    lemma_cells_step, lemma_parse_cell, lemma_parse_cells, parse_cell, parse_cells, CR, LF, QUOTE, SPACE,
};
use crate::insertion::{
    changed_text, column_edits, edits_before, lemma_cell_starts_from, lemma_edit_of_row, lemma_edits_prefix,
    lemma_next_edit, next_edited_row,
};
use crate::dialect::{delimiter_of, Dialect};
use crate::edits::applied_from;
use crate::features::columns::{change_edit, editable_row, ColumnChange};
use crate::grammar::{spec_parse, terminator_kind, terminator_len};
use crate::parse::LineTerminator;
use crate::repair::{lemma_applied_skip, lemma_later_rows, lemma_term_same};
use crate::grammar::{lemma_rows_done, lemma_rows_step, parse_rows, span_of};
use crate::parse::row_is_blank;
use crate::reparse::{lemma_kinds_cons, same_error_kinds, shift_cell, shift_cells, shift_errors};
use crate::parse::{first_nonblank, TableView};
use crate::grammar::{body_start, has_bom_bytes};
use crate::insertion::{clean, lemma_ragged_empty, lemma_ragged_none};
use crate::features::ragged_rows::checked_row;
use crate::render::error_row;
use crate::wellformed::lemma_parse_ordered;
use crate::repair::lemma_moved_blank;
use crate::reparse::{lemma_source_step, source_from};
use crate::reparse::{lemma_skip_run, lemma_stop_run, lemma_stray_no_quote, lemma_stray_none};
use crate::parse::{cell_value, Cell, Quoting, RowView};
use crate::reparse::{lemma_cell_window, lemma_cells_local, lemma_read_cell, same_bytes, same_cell_window, same_row};

verus! {

/// Where a cell read from `s` starts and ends.
pub proof fn lemma_cell_span(b: Seq<u8>, d: u8, s: int, row: int)
    requires
        0 <= s <= b.len(),
        b.len() <= usize::MAX,
    ensures
        parse_cell(b, d, s, row).0.span.start == s,
        parse_cell(b, d, s, row).0.span.end == parse_cell(b, d, s, row).2,
{
    lemma_parse_cell(b, d, s, row);
    reveal(parse_cell);
}

/// A row without errors with the bytes from the end of cell `j` to the
/// end of cell `j + 1` cut out reads as its cells less one, with no
/// errors.
proof fn lemma_joined_cells(
    b1: Seq<u8>,
    p1: int,
    b2: Seq<u8>,
    p2: int,
    x: int,
    y: int,
    e: int,
    s: int,
    j: int,
    d: u8,
    row: int,
)
    requires
        p1 <= s <= x <= e,
        y <= e <= b1.len(),
        b1.len() <= usize::MAX,
        b2.len() <= usize::MAX,
        d != CR,
        d != LF,
        d != SPACE,
        d != QUOTE,
        parse_cells(b1, d, s, row).1 == e,
        parse_cells(b1, d, s, row).2.len() == 0,
        0 <= j,
        j + 1 < parse_cells(b1, d, s, row).0.len(),
        parse_cells(b1, d, s, row).0[j].span.end == x,
        parse_cells(b1, d, s, row).0[j + 1].span.end == y,
        same_bytes(b1, p1, b2, p2, x - p1),
        same_row(b1, y, b2, p2 + (x - p1), e - y),
    ensures
        ({
            let r1 = parse_cells(b1, d, s, row);
            let r2 = parse_cells(b2, d, s + (p2 - p1), row);
            &&& r2.0.len() == r1.0.len() - 1
            &&& r2.1 == p2 + (x - p1) + (e - y)
            &&& r2.2.len() == 0
            &&& forall|k: int| 0 <= k <= j ==> #[trigger] r2.0[k] == shift_cell(r1.0[k], p2 - p1)
            &&& forall|k: int|
                j + 1 <= k < r1.0.len() - 1 ==> #[trigger] r2.0[k] == shift_cell(r1.0[k + 1], p2 - p1 + x - y)
        }),
    decreases j,
{
    let delta = p2 - p1;
    let r1 = parse_cells(b1, d, s, row);
    lemma_cells_step(b1, d, s, row);
    lemma_parse_cell(b1, d, s, row);
    lemma_cell_span(b1, d, s, row);
    let c0 = parse_cell(b1, d, s, row);
    assert(c0.1 && s <= c0.2 < b1.len());
    lemma_parse_cells(b1, d, c0.2 + 1, row);
    let rest1 = parse_cells(b1, d, c0.2 + 1, row);
    assert(r1.0[j + 1] == rest1.0[j]);
    assert(c0.3.len() == 0 && rest1.2.len() == 0);
    if j == 0 {
        assert(r1.0[0] == c0.0);
        assert(c0.2 == x);
        assert(b1[x] == d);
        let x2 = p2 + (x - p1);
        // The cell cut out, and what follows it.
        lemma_cells_step(b1, d, x + 1, row);
        lemma_parse_cell(b1, d, x + 1, row);
        lemma_cell_span(b1, d, x + 1, row);
        let c1 = parse_cell(b1, d, x + 1, row);
        assert(rest1.0[0] == c1.0);
        assert(c1.2 == y);
        if c1.1 && x + 1 <= c1.2 < b1.len() {
            lemma_parse_cells(b1, d, c1.2 + 1, row);
        }
        if y < e {
            assert(c1.1 && c1.2 < b1.len());
            assert(b1[y] == d);
            assert(b2[x2 + 0] == b1[y + 0]);
        }
        assert(same_cell_window(b1, p1, b2, p2, x - p1, d));
        lemma_cell_window(b1, p1, b2, p2, x - p1, s, d, row);
        lemma_cells_step(b2, d, s + delta, row);
        if y < e {
            let tail1 = parse_cells(b1, d, y + 1, row);
            assert(same_row(b1, y + 1, b2, x2 + 1, e - (y + 1))) by {
                assert forall|k: int| 0 <= k < e - (y + 1) implies #[trigger] b1[(y + 1) + k] == b2[(x2 + 1) + k] by {
                    assert(b1[y + (k + 1)] == b2[x2 + (k + 1)]);
                }
            }
            lemma_cells_local(b1, y + 1, b2, x2 + 1, e - (y + 1), y + 1, d, row);
            assert(tail1.2.len() == 0);
            let r2 = parse_cells(b2, d, s + delta, row);
            let rest2 = parse_cells(b2, d, x2 + 1, row);
            assert forall|k: int| j + 1 <= k < r1.0.len() - 1 implies #[trigger] r2.0[k] == shift_cell(
                r1.0[k + 1],
                delta + x - y,
            ) by {
                assert(r2.0[k] == rest2.0[k - 1]);
                assert(r1.0[k + 1] == rest1.0[k]);
                assert(rest1.0[k] == tail1.0[k - 1]);
            }
        } else {
            assert(!(c1.1 && x + 1 <= c1.2 < b1.len()));
        }
    } else {
        lemma_cell_starts_from(b1, d, c0.2 + 1, row, j - 1);
        assert(r1.0[j] == rest1.0[j - 1]);
        assert(c0.2 < x);
        assert(b1[c0.2] == d);
        assert(b2[p2 + (c0.2 - p1)] == d) by {
            assert(b1[p1 + (c0.2 - p1)] == b2[p2 + (c0.2 - p1)]);
        }
        assert(same_cell_window(b1, p1, b2, p2, c0.2 - p1, d));
        lemma_cell_window(b1, p1, b2, p2, c0.2 - p1, s, d, row);
        lemma_cells_step(b2, d, s + delta, row);
        lemma_joined_cells(b1, p1, b2, p2, x, y, e, c0.2 + 1, j - 1, d, row);
        let r2 = parse_cells(b2, d, s + delta, row);
        let rest2 = parse_cells(b2, d, c0.2 + 1 + delta, row);
        assert forall|k: int| 0 <= k <= j implies #[trigger] r2.0[k] == shift_cell(r1.0[k], delta) by {
            if k > 0 {
                assert(r2.0[k] == rest2.0[k - 1]);
                assert(r1.0[k] == rest1.0[k - 1]);
            }
        }
        assert forall|k: int| j + 1 <= k < r1.0.len() - 1 implies #[trigger] r2.0[k] == shift_cell(
            r1.0[k + 1],
            delta + x - y,
        ) by {
            assert(r2.0[k] == rest2.0[k - 1]);
            assert(r1.0[k + 1] == rest1.0[k]);
        }
    }
}

/// The cells of a row with column `c` cut out (the cell and the
/// delimiter before it, or after it for the first column, or the whole
/// content of a single-cell row): one fewer than before (a single-cell
/// row reads as one blank cell), with no errors.
pub proof fn lemma_deleted_cells(
    b: Seq<u8>,
    b2: Seq<u8>,
    d: u8,
    p: int,
    q: int,
    x: int,
    y: int,
    e: int,
    c: int,
    i: int,
)
    requires
        0 <= p <= x <= e,
        y <= e <= b.len(),
        0 <= q,
        b.len() <= usize::MAX,
        b2.len() <= usize::MAX,
        d != CR,
        d != LF,
        d != SPACE,
        d != QUOTE,
        parse_cells(b, d, p, i).1 == e,
        parse_cells(b, d, p, i).2.len() == 0,
        0 <= c < parse_cells(b, d, p, i).0.len(),
        c > 0 ==> x == parse_cells(b, d, p, i).0[c - 1].span.end && y == parse_cells(b, d, p, i).0[c].span.end,
        c == 0 && parse_cells(b, d, p, i).0.len() > 1 ==> x == parse_cells(b, d, p, i).0[0].span.start && y
            == parse_cells(b, d, p, i).0[1].span.start,
        c == 0 && parse_cells(b, d, p, i).0.len() == 1 ==> x == parse_cells(b, d, p, i).0[0].span.start && y
            == parse_cells(b, d, p, i).0[0].span.end,
        forall|j: int| 0 <= j < x - p ==> #[trigger] b2[q + j] == b[p + j],
        q + (x - p) + (e - y) <= b2.len(),
        forall|j: int| 0 <= j < e - y ==> #[trigger] b2[q + (x - p) + j] == b[y + j],
        e < b.len() ==> q + (x - p) + (e - y) < b2.len() && b2[q + (x - p) + (e - y)] == b[e],
        e == b.len() ==> b2.len() == q + (x - p) + (e - y),
    ensures
        ({
            let rc = parse_cells(b, d, p, i);
            let m = rc.0.len();
            let rc2 = parse_cells(b2, d, q, i);
            let e2 = q + (x - p) + (e - y);
            &&& m == 1 ==> e2 == q
            &&& q < b2.len() ==> {
                &&& rc2.0.len() == (if m == 1 {
                    1
                } else {
                    m - 1
                })
                &&& rc2.1 == e2
                &&& rc2.2.len() == 0
                &&& m == 1 ==> rc2.0[0].quoting == Quoting::Unquoted && rc2.0[0].content_span.start
                    == rc2.0[0].content_span.end
                &&& m > 1 ==> forall|k: int| 0 <= k < c ==> #[trigger] rc2.0[k] == shift_cell(rc.0[k], q - p)
                &&& m > 1 ==> forall|k: int|
                    c <= k < m - 1 ==> #[trigger] rc2.0[k] == shift_cell(rc.0[k + 1], q - p + x - y)
            }
        }),
{
    let rc = parse_cells(b, d, p, i);
    let cs = rc.0;
    let m = cs.len();
    let e2 = q + (x - p) + (e - y);
    lemma_parse_cells(b, d, p, i);
    lemma_cells_step(b, d, p, i);
    lemma_parse_cell(b, d, p, i);
    lemma_cell_span(b, d, p, i);
    let c0 = parse_cell(b, d, p, i);
    assert(cs[0] == c0.0);
    if c0.1 && p <= c0.2 < b.len() {
        lemma_parse_cells(b, d, c0.2 + 1, i);
    }
    if m == 1 {
        assert(!(c0.1 && p <= c0.2 < b.len()));
        assert(x == p && y == e);
        if q < b2.len() {
            assert(e < b.len());
            assert(b[e] == CR || b[e] == LF);
            assert(same_bytes(Seq::<u8>::empty(), 0, b2, q, 0));
            lemma_read_cell(b2, d, q, Seq::<u8>::empty(), 0, i);
            lemma_cells_step(b2, d, q, i);
            let c2 = parse_cell(b2, d, q, i);
            assert(b2.subrange(c2.0.content_span.start as int, c2.0.content_span.end as int).len() == 0);
        }
    } else if c == 0 {
        assert(c0.1 && p <= c0.2 < b.len());
        lemma_parse_cells(b, d, c0.2 + 1, i);
        let rest = parse_cells(b, d, c0.2 + 1, i);
        lemma_cell_starts_from(b, d, c0.2 + 1, i, 0);
        assert(cs[1] == rest.0[0]);
        assert(x == p && y == c0.2 + 1);
        assert(same_row(b, y, b2, q, e - y)) by {
            assert forall|k: int| 0 <= k < e - y implies #[trigger] b[y + k] == b2[q + k] by {
                assert(b2[q + (x - p) + k] == b[y + k]);
            }
        }
        lemma_cells_local(b, y, b2, q, e - y, y, d, i);
        let rc2 = parse_cells(b2, d, q, i);
        assert(q == y + (q - y));
        assert forall|k: int| c <= k < m - 1 implies #[trigger] rc2.0[k] == shift_cell(cs[k + 1], q - p + x - y) by {
            lemma_cell_starts_from(b, d, c0.2 + 1, i, k);
            assert(cs[k + 1] == rest.0[k]);
        }
    } else {
        lemma_cell_starts_from(b, d, p, i, c);
        lemma_cell_starts_from(b, d, p, i, c - 1);
        assert(same_bytes(b, p, b2, q, x - p)) by {
            assert forall|k: int| 0 <= k < x - p implies #[trigger] b[p + k] == b2[q + k] by {}
        }
        assert(same_row(b, y, b2, q + (x - p), e - y)) by {
            assert forall|k: int| 0 <= k < e - y implies #[trigger] b[y + k] == b2[(q + (x - p)) + k] by {}
        }
        lemma_joined_cells(b, p, b2, q, x, y, e, p, c - 1, d, i);
    }
}

/// The bytes of a byte-order mark at `s`.
pub open spec fn bom_at(b: Seq<u8>, s: int) -> bool {
    0 <= s && s + 3 <= b.len() && b[s] == 0xEFu8 && b[s + 1] == 0xBBu8 && b[s + 2] == 0xBFu8
}

/// A cell read without errors that starts with a byte-order mark reads
/// the same way from just after it: it is unquoted, so it stops at the
/// same place, still without errors.
proof fn lemma_bom_cell(b: Seq<u8>, d: u8, s: int, row: int)
    requires
        bom_at(b, s),
        b.len() <= usize::MAX,
        d < 0x80,
        d != CR,
        d != LF,
        d != SPACE,
        d != QUOTE,
        parse_cell(b, d, s, row).3.len() == 0,
    ensures
        parse_cell(b, d, s + 3, row).1 == parse_cell(b, d, s, row).1,
        parse_cell(b, d, s + 3, row).2 == parse_cell(b, d, s, row).2,
        parse_cell(b, d, s + 3, row).3.len() == 0,
{
    reveal(parse_cell);
    let e1 = cell_stop(b, d, s);
    lemma_skip_run(b, s, s);
    lemma_cell_stop(b, d, s);
    assert(!is_cell_end(b, d, s) && !is_cell_end(b, d, s + 1) && !is_cell_end(b, d, s + 2));
    assert(e1 >= s + 3);
    lemma_stray_no_quote(b, s, e1, row);
    let c3 = skip_spaces(b, s + 3);
    lemma_skip_spaces(b, s + 3);
    assert(c3 <= e1) by {
        if c3 > e1 {
            assert(b[e1] == SPACE);
        }
    }
    assert(!(0 <= c3 < b.len() && b[c3] == QUOTE));
    assert forall|k: int| c3 <= k < e1 implies !#[trigger] is_cell_end(b, d, k) by {}
    lemma_stop_run(b, d, c3, e1);
    assert forall|k: int| c3 <= k < e1 implies #[trigger] b[k] != QUOTE by {}
    lemma_stray_none(b, c3, e1, row);
}

/// A row read without errors whose first cell starts with a byte-order
/// mark reads as the same number of cells from just after it, ending at
/// the same place, still without errors.
pub proof fn lemma_bom_cells(b: Seq<u8>, d: u8, s: int, row: int)
    requires
        bom_at(b, s),
        b.len() <= usize::MAX,
        d < 0x80,
        d != CR,
        d != LF,
        d != SPACE,
        d != QUOTE,
        parse_cells(b, d, s, row).2.len() == 0,
    ensures
        parse_cells(b, d, s + 3, row).0.len() == parse_cells(b, d, s, row).0.len(),
        parse_cells(b, d, s + 3, row).1 == parse_cells(b, d, s, row).1,
        parse_cells(b, d, s + 3, row).2.len() == 0,
{
    lemma_cells_step(b, d, s, row);
    lemma_cells_step(b, d, s + 3, row);
    lemma_parse_cell(b, d, s, row);
    let c = parse_cell(b, d, s, row);
    if c.1 && s <= c.2 < b.len() {
        lemma_parse_cells(b, d, c.2 + 1, row);
    }
    lemma_bom_cell(b, d, s, row);
}

/// No carriage return stands alone: each is followed by a line feed.
pub open spec fn no_lone_cr(b: Seq<u8>) -> bool {
    forall|j: int| 0 <= j < b.len() && #[trigger] b[j] == CR ==> j + 1 < b.len() && b[j + 1] == LF
}

/// Where a deletion's edit sits in its row: it removes `x..y`, with no
/// replacement.
pub proof fn lemma_del_edit_at(b: Seq<u8>, dialect: Dialect, c: int, r: int)
    requires
        b.len() <= usize::MAX,
        0 <= r < spec_parse(b, dialect).rows.len(),
        editable_row(spec_parse(b, dialect), r, c),
    ensures
        ({
            let t = spec_parse(b, dialect);
            let row = t.rows[r];
            let cs = row.cells;
            let m = cs.len();
            let ed = change_edit(t, r, c, ColumnChange::Delete);
            let x = ed.0.start as int;
            let y = ed.0.end as int;
            &&& ed.1 == Seq::<u8>::empty()
            &&& row.span.start <= x <= y <= row.span.end <= b.len()
            &&& c > 0 ==> x == cs[c - 1].span.end && y == cs[c].span.end
            &&& c == 0 && m > 1 ==> x == cs[0].span.start && y == cs[1].span.start
            &&& c == 0 && m == 1 ==> x == cs[0].span.start && y == cs[0].span.end
        }),
{
    let t = spec_parse(b, dialect);
    let d = delimiter_of(dialect);
    crate::wellformed::law_parse_sound(b, dialect);
    let row = t.rows[r];
    assert(t.rows[r] == row);
    let cs = row.cells;
    assert(crate::wellformed::cells_tile(b, d, cs, row.span.start as int, row.span.end as int));
    assert(cs[c] == cs[c]);
    assert(crate::wellformed::cell_sound(b, cs[c]));
    if c > 0 {
        assert(cs[c - 1] == cs[c - 1]);
        assert(crate::wellformed::cells_adjacent(b, d, cs, c - 1));
    } else if cs.len() > 1 {
        assert(cs[1] == cs[1]);
        assert(crate::wellformed::cells_adjacent(b, d, cs, 0));
    }
    crate::reparse::lemma_row_within(b, dialect, r);
}

/// Reading the text with the column deleted from `q` as row `i`
/// alongside the source from `p`.
#[verifier::opaque]
pub open spec fn del_state(
    b: Seq<u8>,
    dialect: Dialect,
    c: int,
    i: int,
    p: int,
    ltb: Option<LineTerminator>,
    ewnb: bool,
    q: int,
) -> bool {
    let t = spec_parse(b, dialect);
    let ch = ColumnChange::Delete;
    let es = column_edits(t, c, ch);
    let b2 = changed_text(b, dialect, c, ch);
    &&& source_from(b, dialect, i, p, ltb, ewnb)
    &&& p <= b.len()
    &&& 0 <= q <= b2.len()
    &&& b2.subrange(q, b2.len() as int) == applied_from(b, es, edits_before(t, c, ch, i), p)
}

/// The next deletion after row `i`'s comes no earlier than the next row.
pub proof fn lemma_del_next_later(
    b: Seq<u8>,
    dialect: Dialect,
    c: int,
    i: int,
    p: int,
    ltb: Option<LineTerminator>,
    ewnb: bool,
)
    requires
        b.len() <= usize::MAX,
        source_from(b, dialect, i, p, ltb, ewnb),
        i < spec_parse(b, dialect).rows.len(),
    ensures
        ({
            let t = spec_parse(b, dialect);
            let d = delimiter_of(dialect);
            let es = column_edits(t, c, ColumnChange::Delete);
            let k = edits_before(t, c, ColumnChange::Delete, i + 1);
            let e = parse_cells(b, d, p, i).1;
            let next = e + terminator_len(b, e);
            &&& 0 <= k <= es.len()
            &&& k < es.len() ==> next <= es[k].0.start <= es[k].0.end <= b.len() && next < b.len()
            &&& k == es.len() ==> applied_from(b, es, k, next) == b.subrange(next, b.len() as int)
        }),
{
    let t = spec_parse(b, dialect);
    let n = t.rows.len() as int;
    let d = delimiter_of(dialect);
    let ch = ColumnChange::Delete;
    let es = column_edits(t, c, ch);
    let k = edits_before(t, c, ch, i + 1);
    crate::reparse::lemma_source_bounds(b, dialect, i, p, ltb, ewnb);
    lemma_edits_prefix(t, c, ch, i + 1, n);
    lemma_source_step(b, dialect, i, p, ltb, ewnb);
    if k < es.len() {
        lemma_next_edit(t, c, ch, i + 1, n);
        let r = next_edited_row(t, c, i + 1, n);
        lemma_del_edit_at(b, dialect, c, r);
        let rc = parse_cells(b, d, p, i);
        let e = rc.1;
        let tl = terminator_len(b, e);
        let next = e + tl;
        let lt2 = if ltb is Some {
            ltb
        } else {
            terminator_kind(b, e)
        };
        let ewn2 = tl > 0 && next == b.len();
        lemma_source_step(b, dialect, i + 1, next, lt2, ewn2);
        lemma_later_rows(b, dialect, i, r);
    }
}

/// Where a row without an edit sits in the text with the column deleted:
/// its bytes and terminator copied, then the rest.
#[verifier::spinoff_prover]
#[verifier::rlimit(60)]
pub proof fn lemma_del_plain_layout(
    b: Seq<u8>,
    dialect: Dialect,
    c: int,
    i: int,
    p: int,
    ltb: Option<LineTerminator>,
    ewnb: bool,
    q: int,
)
    requires
        b.len() <= usize::MAX,
        changed_text(b, dialect, c, ColumnChange::Delete).len() <= usize::MAX,
        del_state(b, dialect, c, i, p, ltb, ewnb, q),
        i < spec_parse(b, dialect).rows.len(),
        !editable_row(spec_parse(b, dialect), i, c),
    ensures
        ({
            let t = spec_parse(b, dialect);
            let d = delimiter_of(dialect);
            let ch = ColumnChange::Delete;
            let es = column_edits(t, c, ch);
            let k = edits_before(t, c, ch, i);
            let b2 = changed_text(b, dialect, c, ch);
            let e = parse_cells(b, d, p, i).1;
            let next = e + terminator_len(b, e);
            let a2 = applied_from(b, es, k, next);
            &&& edits_before(t, c, ch, i + 1) == k
            &&& 0 <= p < next <= b.len()
            &&& 0 <= q
            &&& b2.len() == q + (next - p) + a2.len()
            &&& forall|j: int| 0 <= j < next - p ==> #[trigger] b2[q + j] == b[p + j]
            &&& b2.subrange(q + (next - p), b2.len() as int) == a2
            &&& next == b.len() ==> a2.len() == 0
        }),
{
    reveal(del_state);
    let t = spec_parse(b, dialect);
    let n = t.rows.len() as int;
    let d = delimiter_of(dialect);
    let ch = ColumnChange::Delete;
    let es = column_edits(t, c, ch);
    let b2 = changed_text(b, dialect, c, ch);
    crate::reparse::lemma_source_bounds(b, dialect, i, p, ltb, ewnb);
    lemma_source_step(b, dialect, i, p, ltb, ewnb);
    lemma_edit_of_row(t, c, ch, i, n);
    let k = edits_before(t, c, ch, i);
    let rc = parse_cells(b, d, p, i);
    let e = rc.1;
    let tl = terminator_len(b, e);
    let next = e + tl;
    lemma_del_next_later(b, dialect, c, i, p, ltb, ewnb);
    lemma_applied_skip(b, es, k, p, next);
    let a2 = applied_from(b, es, k, next);
    let whole = b2.subrange(q, b2.len() as int);
    assert(whole == b.subrange(p, next) + a2);
    assert(whole.len() == b2.len() - q);
    assert forall|j: int| 0 <= j < next - p implies #[trigger] b2[q + j] == b[p + j] by {
        assert(whole[j] == b2[q + j]);
        assert(whole[j] == b.subrange(p, next)[j]);
    }
    assert(b2.subrange(q + (next - p), b2.len() as int) =~= a2) by {
        assert forall|j: int| 0 <= j < a2.len() implies b2.subrange(q + (next - p), b2.len() as int)[j] == a2[j] by {
            assert(whole[(next - p) + j] == a2[j]);
        }
    }
}

/// Where a row with an edit sits in the text with the column deleted: its
/// bytes up to the cut, its bytes after the cut and its terminator, then
/// the rest.
#[verifier::spinoff_prover]
#[verifier::rlimit(60)]
pub proof fn lemma_del_edited_layout(
    b: Seq<u8>,
    dialect: Dialect,
    c: int,
    i: int,
    p: int,
    ltb: Option<LineTerminator>,
    ewnb: bool,
    q: int,
)
    requires
        b.len() <= usize::MAX,
        changed_text(b, dialect, c, ColumnChange::Delete).len() <= usize::MAX,
        del_state(b, dialect, c, i, p, ltb, ewnb, q),
        i < spec_parse(b, dialect).rows.len(),
        editable_row(spec_parse(b, dialect), i, c),
    ensures
        ({
            let t = spec_parse(b, dialect);
            let d = delimiter_of(dialect);
            let ch = ColumnChange::Delete;
            let es = column_edits(t, c, ch);
            let k = edits_before(t, c, ch, i);
            let b2 = changed_text(b, dialect, c, ch);
            let e = parse_cells(b, d, p, i).1;
            let next = e + terminator_len(b, e);
            let x = change_edit(t, i, c, ch).0.start as int;
            let y = change_edit(t, i, c, ch).0.end as int;
            let a2 = applied_from(b, es, k + 1, next);
            &&& edits_before(t, c, ch, i + 1) == k + 1
            &&& 0 <= p <= x <= y <= e
            &&& p < next <= b.len()
            &&& 0 <= q
            &&& b2.len() == q + (x - p) + (next - y) + a2.len()
            &&& forall|j: int| 0 <= j < x - p ==> #[trigger] b2[q + j] == b[p + j]
            &&& forall|j: int| 0 <= j < next - y ==> #[trigger] b2[q + (x - p) + j] == b[y + j]
            &&& b2.subrange(q + (x - p) + (next - y), b2.len() as int) == a2
            &&& next == b.len() ==> a2.len() == 0
        }),
{
    reveal(del_state);
    let t = spec_parse(b, dialect);
    let n = t.rows.len() as int;
    let d = delimiter_of(dialect);
    let ch = ColumnChange::Delete;
    let es = column_edits(t, c, ch);
    let b2 = changed_text(b, dialect, c, ch);
    crate::reparse::lemma_source_bounds(b, dialect, i, p, ltb, ewnb);
    lemma_source_step(b, dialect, i, p, ltb, ewnb);
    lemma_edit_of_row(t, c, ch, i, n);
    let k = edits_before(t, c, ch, i);
    lemma_del_edit_at(b, dialect, c, i);
    let rc = parse_cells(b, d, p, i);
    let e = rc.1;
    let tl = terminator_len(b, e);
    let next = e + tl;
    let ed = es[k];
    let x = ed.0.start as int;
    let y = ed.0.end as int;
    lemma_del_next_later(b, dialect, c, i, p, ltb, ewnb);
    let mid = applied_from(b, es, k + 1, y);
    assert(applied_from(b, es, k, p) == b.subrange(p, x) + Seq::<u8>::empty() + mid);
    lemma_applied_skip(b, es, k + 1, y, next);
    let a2 = applied_from(b, es, k + 1, next);
    let whole = b2.subrange(q, b2.len() as int);
    assert(whole == b.subrange(p, x) + (b.subrange(y, next) + a2));
    assert(whole.len() == b2.len() - q);
    assert forall|j: int| 0 <= j < x - p implies #[trigger] b2[q + j] == b[p + j] by {
        assert(whole[j] == b2[q + j]);
    }
    assert forall|j: int| 0 <= j < next - y implies #[trigger] b2[q + (x - p) + j] == b[y + j] by {
        assert(whole[(x - p) + j] == b2[q + (x - p) + j]);
    }
    assert(b2.subrange(q + (x - p) + (next - y), b2.len() as int) =~= a2) by {
        assert forall|j: int| 0 <= j < a2.len() implies b2.subrange(q + (x - p) + (next - y), b2.len() as int)[j]
            == a2[j] by {
            assert(whole[(x - p) + (next - y) + j] == a2[j]);
        }
    }
}

/// The rows and errors read do not depend on the terminator state handed
/// in.
proof fn lemma_rows_free(
    b: Seq<u8>,
    d: u8,
    p: int,
    idx: int,
    lt: Option<LineTerminator>,
    ewn: bool,
    lt2: Option<LineTerminator>,
    ewn2: bool,
)
    requires
        0 <= p,
    ensures
        parse_rows(b, d, p, idx, lt, ewn).0 == parse_rows(b, d, p, idx, lt2, ewn2).0,
        parse_rows(b, d, p, idx, lt, ewn).1 == parse_rows(b, d, p, idx, lt2, ewn2).1,
    decreases b.len() - p,
{
    if p >= b.len() {
        lemma_rows_done(b, d, p, idx, lt, ewn);
        lemma_rows_done(b, d, p, idx, lt2, ewn2);
    } else {
        lemma_rows_step(b, d, p, idx, lt, ewn);
        lemma_rows_step(b, d, p, idx, lt2, ewn2);
        let e = parse_cells(b, d, p, idx).1;
        let next = e + terminator_len(b, e);
        lemma_rows_free(
            b,
            d,
            next,
            idx + 1,
            if lt is Some {
                lt
            } else {
                terminator_kind(b, e)
            },
            terminator_len(b, e) > 0 && next == b.len(),
            if lt2 is Some {
                lt2
            } else {
                terminator_kind(b, e)
            },
            terminator_len(b, e) > 0 && next == b.len(),
        );
    }
}

/// With no lone carriage return, a row's terminator is copied whole.
proof fn lemma_term_copied(b: Seq<u8>, e: int, b2: Seq<u8>, e2: int)
    requires
        no_lone_cr(b),
        0 <= e <= b.len(),
        0 <= e2,
        e2 + terminator_len(b, e) <= b2.len(),
        forall|j: int| 0 <= j < terminator_len(b, e) ==> #[trigger] b2[e2 + j] == b[e + j],
        terminator_len(b, e) == 0 ==> e2 == b2.len(),
    ensures
        terminator_len(b2, e2) == terminator_len(b, e),
        terminator_kind(b2, e2) == terminator_kind(b, e),
{
    if e < b.len() && b[e] == CR {
        assert(b[e + 1] == LF);
    }
    lemma_term_same(b, e, b2, e2);
}

/// A row without an edit reads the same in the text with the column
/// deleted, moved, and reading goes on from the same place after it.
#[verifier::spinoff_prover]
#[verifier::rlimit(100)]
proof fn lemma_del_step_plain(
    b: Seq<u8>,
    dialect: Dialect,
    c: int,
    i: int,
    p: int,
    ltb: Option<LineTerminator>,
    ewnb: bool,
    q: int,
)
    requires
        b.len() <= usize::MAX,
        changed_text(b, dialect, c, ColumnChange::Delete).len() <= usize::MAX,
        no_lone_cr(b),
        del_state(b, dialect, c, i, p, ltb, ewnb, q),
        i < spec_parse(b, dialect).rows.len(),
        !editable_row(spec_parse(b, dialect), i, c),
    ensures
        ({
            let d = delimiter_of(dialect);
            let b2 = changed_text(b, dialect, c, ColumnChange::Delete);
            let rc = parse_cells(b, d, p, i);
            let e = rc.1;
            let next = e + terminator_len(b, e);
            let lt2 = if ltb is Some {
                ltb
            } else {
                terminator_kind(b, e)
            };
            let ewn2 = terminator_len(b, e) > 0 && next == b.len();
            let e2 = q + (e - p);
            let next2 = q + (next - p);
            let rc2 = parse_cells(b2, d, q, i);
            let rest = parse_rows(b2, d, next2, i + 1, lt2, ewn2);
            let all = parse_rows(b2, d, q, i, ltb, ewnb);
            &&& q < b2.len()
            &&& rc2 == (shift_cells(rc.0, q - p), e2, shift_errors(rc.2, q - p))
            &&& all.0 == seq![RowView { span: span_of(q, e2), cells: rc2.0 }] + rest.0
            &&& all.1 == rc2.2 + rest.1
            &&& del_state(b, dialect, c, i + 1, next, lt2, ewn2, next2)
        }),
{
    reveal(del_state);
    let t = spec_parse(b, dialect);
    let d = delimiter_of(dialect);
    let ch = ColumnChange::Delete;
    let es = column_edits(t, c, ch);
    let b2 = changed_text(b, dialect, c, ch);
    crate::reparse::lemma_source_bounds(b, dialect, i, p, ltb, ewnb);
    lemma_source_step(b, dialect, i, p, ltb, ewnb);
    lemma_del_plain_layout(b, dialect, c, i, p, ltb, ewnb, q);
    crate::reparse::lemma_delimiter_plain(dialect);
    let rc = parse_cells(b, d, p, i);
    lemma_parse_cells(b, d, p, i);
    let e = rc.1;
    let tl = terminator_len(b, e);
    let next = e + tl;
    let e2 = q + (e - p);
    assert(same_row(b, p, b2, q, e - p)) by {
        assert forall|j: int| 0 <= j < e - p implies #[trigger] b[p + j] == b2[q + j] by {}
        if e < b.len() {
            assert(b2[q + (e - p)] == b[p + (e - p)]);
        }
    }
    lemma_cells_local(b, p, b2, q, e - p, p, d, i);
    lemma_rows_step(b2, d, q, i, ltb, ewnb);
    assert forall|j: int| 0 <= j < tl implies #[trigger] b2[e2 + j] == b[e + j] by {
        assert(b2[q + (e - p + j)] == b[p + (e - p + j)]);
    }
    lemma_term_copied(b, e, b2, e2);
    let lt2 = if ltb is Some {
        ltb
    } else {
        terminator_kind(b, e)
    };
    let ewn2 = tl > 0 && next == b.len();
    lemma_rows_free(b2, d, q + (next - p), i + 1, lt2, tl > 0 && q + (next - p) == b2.len(), lt2, ewn2);
    reveal(del_state);
}

/// A row with an edit reads in the text with the column deleted as its
/// cells less one (a single-cell row as one blank cell), with no errors,
/// and reading goes on after it; or, a last row with nothing left and no
/// terminator, it is gone.
#[verifier::spinoff_prover]
#[verifier::rlimit(100)]
proof fn lemma_del_step_edited(
    b: Seq<u8>,
    dialect: Dialect,
    c: int,
    i: int,
    p: int,
    ltb: Option<LineTerminator>,
    ewnb: bool,
    q: int,
)
    requires
        b.len() <= usize::MAX,
        changed_text(b, dialect, c, ColumnChange::Delete).len() <= usize::MAX,
        no_lone_cr(b),
        del_state(b, dialect, c, i, p, ltb, ewnb, q),
        i < spec_parse(b, dialect).rows.len(),
        editable_row(spec_parse(b, dialect), i, c),
    ensures
        ({
            let t = spec_parse(b, dialect);
            let d = delimiter_of(dialect);
            let ch = ColumnChange::Delete;
            let b2 = changed_text(b, dialect, c, ch);
            let rc = parse_cells(b, d, p, i);
            let m = rc.0.len();
            let e = rc.1;
            let next = e + terminator_len(b, e);
            let lt2 = if ltb is Some {
                ltb
            } else {
                terminator_kind(b, e)
            };
            let ewn2 = terminator_len(b, e) > 0 && next == b.len();
            let x = change_edit(t, i, c, ch).0.start as int;
            let y = change_edit(t, i, c, ch).0.end as int;
            let e2 = q + (x - p) + (e - y);
            let next2 = q + (x - p) + (next - y);
            let rc2 = parse_cells(b2, d, q, i);
            let rest = parse_rows(b2, d, next2, i + 1, lt2, ewn2);
            let all = parse_rows(b2, d, q, i, ltb, ewnb);
            &&& rc.2.len() == 0
            &&& q < b2.len() ==> {
                &&& rc2.0.len() == (if m == 1 {
                    1
                } else {
                    m - 1
                })
                &&& rc2.2.len() == 0
                &&& m == 1 ==> row_is_blank(RowView { span: span_of(q, e2), cells: rc2.0 })
                &&& all.0 == seq![RowView { span: span_of(q, e2), cells: rc2.0 }] + rest.0
                &&& all.1 == rc2.2 + rest.1
                &&& del_state(b, dialect, c, i + 1, next, lt2, ewn2, next2)
            }
            &&& q == b2.len() ==> i + 1 == t.rows.len() && all.0.len() == 0 && all.1.len() == 0
        }),
{
    reveal(del_state);
    let t = spec_parse(b, dialect);
    let n = t.rows.len() as int;
    let d = delimiter_of(dialect);
    let ch = ColumnChange::Delete;
    let es = column_edits(t, c, ch);
    let b2 = changed_text(b, dialect, c, ch);
    crate::reparse::lemma_source_bounds(b, dialect, i, p, ltb, ewnb);
    lemma_source_step(b, dialect, i, p, ltb, ewnb);
    lemma_del_edited_layout(b, dialect, c, i, p, ltb, ewnb, q);
    lemma_del_edit_at(b, dialect, c, i);
    crate::reparse::lemma_delimiter_plain(dialect);
    let rc = parse_cells(b, d, p, i);
    lemma_parse_cells(b, d, p, i);
    let e = rc.1;
    let tl = terminator_len(b, e);
    let next = e + tl;
    let k = edits_before(t, c, ch, i);
    let a2 = applied_from(b, es, k + 1, next);
    let x = change_edit(t, i, c, ch).0.start as int;
    let y = change_edit(t, i, c, ch).0.end as int;
    assert(t.rows[i].cells == rc.0);
    let e2 = q + (x - p) + (e - y);
    let next2 = q + (x - p) + (next - y);
    if q == b2.len() {
        lemma_rows_done(b2, d, q, i, ltb, ewnb);
    } else {
        if e < b.len() {
            assert(b2[q + (x - p) + (e - y)] == b[y + (e - y)]);
        }
        assert forall|j: int| 0 <= j < e - y implies #[trigger] b2[q + (x - p) + j] == b[y + j] by {}
        lemma_deleted_cells(b, b2, d, p, q, x, y, e, c, i);
        lemma_rows_step(b2, d, q, i, ltb, ewnb);
        assert forall|j: int| 0 <= j < tl implies #[trigger] b2[e2 + j] == b[e + j] by {
            assert(b2[q + (x - p) + (e - y + j)] == b[y + (e - y + j)]);
        }
        lemma_term_copied(b, e, b2, e2);
        let lt2 = if ltb is Some {
            ltb
        } else {
            terminator_kind(b, e)
        };
        let ewn2 = tl > 0 && next == b.len();
        lemma_rows_free(b2, d, next2, i + 1, lt2, tl > 0 && next2 == b2.len(), lt2, ewn2);
        reveal(del_state);
    }
}

/// How a row of the source and its reading in the text with column `c`
/// deleted relate: a row that takes part has one cell fewer (a
/// single-cell row becomes blank); any other row keeps its cell count and
/// blankness.
pub open spec fn deleted_row(t: TableView, x: int, c: int, r: RowView, r2: RowView) -> bool {
    if editable_row(t, x, c) {
        &&& r2.cells.len() == (if r.cells.len() == 1 {
            1
        } else {
            r.cells.len() - 1
        })
        &&& r.cells.len() == 1 ==> row_is_blank(r2)
    } else {
        &&& r2.cells.len() == r.cells.len()
        &&& row_is_blank(r2) == row_is_blank(r)
    }
}

/// The values of a row after column `c` is deleted: in a row that takes
/// part and has more than one cell, the cells before `c` keep their values
/// and quoting and those after it move one place left with theirs; any
/// other row keeps every cell's value and quoting.
pub open spec fn deleted_values(
    b: Seq<u8>,
    t: TableView,
    x: int,
    c: int,
    b2: Seq<u8>,
    r: RowView,
    r2: RowView,
) -> bool {
    if editable_row(t, x, c) {
        r.cells.len() > 1 ==> {
            &&& forall|y: int|
                0 <= y < c ==> cell_value(b2, #[trigger] r2.cells[y]) == cell_value(b, r.cells[y]) && r2.cells[y].quoting
                    == r.cells[y].quoting
            &&& forall|y: int|
                c <= y < r.cells.len() - 1 ==> cell_value(b2, #[trigger] r2.cells[y]) == cell_value(b, r.cells[y + 1])
                    && r2.cells[y].quoting == r.cells[y + 1].quoting
        }
    } else {
        forall|y: int|
            0 <= y < r.cells.len() ==> cell_value(b2, #[trigger] r2.cells[y]) == cell_value(b, r.cells[y])
                && r2.cells[y].quoting == r.cells[y].quoting
    }
}

/// Where the cells of a row that takes part stand against its cut: those
/// before column `c` have their content before the cut, those after it
/// after the cut.
proof fn lemma_del_cell_places(b: Seq<u8>, dialect: Dialect, c: int, i: int)
    requires
        b.len() <= usize::MAX,
        0 <= i < spec_parse(b, dialect).rows.len(),
        editable_row(spec_parse(b, dialect), i, c),
    ensures
        ({
            let t = spec_parse(b, dialect);
            let row = t.rows[i];
            let cs = row.cells;
            let x = change_edit(t, i, c, ColumnChange::Delete).0.start as int;
            let y = change_edit(t, i, c, ColumnChange::Delete).0.end as int;
            &&& forall|k: int|
                0 <= k < c ==> row.span.start <= (#[trigger] cs[k]).content_span.start <= cs[k].content_span.end
                    <= x
            &&& forall|k: int|
                c + 1 <= k < cs.len() ==> y <= (#[trigger] cs[k]).content_span.start <= cs[k].content_span.end
                    <= row.span.end
        }),
{
    let t = spec_parse(b, dialect);
    let d = delimiter_of(dialect);
    let row = t.rows[i];
    let cs = row.cells;
    lemma_del_edit_at(b, dialect, c, i);
    crate::wellformed::law_parse_sound(b, dialect);
    crate::wellformed::lemma_parse_ordered(b, dialect);
    assert(t.rows[i] == row);
    assert(crate::wellformed::cells_tile(b, d, cs, row.span.start as int, row.span.end as int));
    assert forall|k: int| 0 <= k < c implies row.span.start <= (#[trigger] cs[k]).content_span.start
        <= cs[k].content_span.end <= change_edit(t, i, c, ColumnChange::Delete).0.start by {
        assert(crate::wellformed::cell_sound(b, cs[k]));
        assert(cs[c - 1] == cs[c - 1]);
        if k < c - 1 {
            assert(t.rows[i].cells[k].span.end < t.rows[i].cells[c - 1].span.start);
        }
    }
    assert forall|k: int| c + 1 <= k < cs.len() implies change_edit(t, i, c, ColumnChange::Delete).0.end
        <= (#[trigger] cs[k]).content_span.start <= cs[k].content_span.end <= row.span.end by {
        assert(crate::wellformed::cell_sound(b, cs[k]));
        assert(cs[c] == cs[c]);
        assert(crate::wellformed::cell_sound(b, cs[c]));
        if c > 0 {
            assert(t.rows[i].cells[c].span.end < t.rows[i].cells[k].span.start);
        } else if k > 1 {
            assert(cs[1] == cs[1]);
            assert(crate::wellformed::cell_sound(b, cs[1]));
            assert(t.rows[i].cells[1].span.end < t.rows[i].cells[k].span.start);
        }
    }
}

/// The values of a row's cells on both sides of a cut, from where their
/// bytes went.
#[verifier::spinoff_prover]
proof fn lemma_del_values_split(
    b: Seq<u8>,
    b2: Seq<u8>,
    cs: Seq<Cell>,
    cs2: Seq<Cell>,
    c: int,
    p: int,
    q: int,
    x: int,
    y: int,
    e: int,
)
    requires
        0 <= p <= x <= y <= e <= b.len(),
        0 <= q,
        q + (x - p) + (e - y) <= b2.len(),
        b2.len() <= usize::MAX,
        0 <= c < cs.len(),
        cs.len() > 1,
        cs2.len() == cs.len() - 1,
        forall|z: int| 0 <= z < x - p ==> #[trigger] b2[q + z] == b[p + z],
        forall|z: int| 0 <= z < e - y ==> #[trigger] b2[q + (x - p) + z] == b[y + z],
        forall|k: int| 0 <= k < c ==> p <= (#[trigger] cs[k]).content_span.start <= cs[k].content_span.end <= x,
        forall|k: int|
            c + 1 <= k < cs.len() ==> y <= (#[trigger] cs[k]).content_span.start <= cs[k].content_span.end <= e,
        forall|k: int| 0 <= k < c ==> #[trigger] cs2[k] == shift_cell(cs[k], q - p),
        forall|k: int| c <= k < cs.len() - 1 ==> #[trigger] cs2[k] == shift_cell(cs[k + 1], q - p + x - y),
    ensures
        forall|k: int|
            0 <= k < c ==> cell_value(b2, #[trigger] cs2[k]) == cell_value(b, cs[k]) && cs2[k].quoting
                == cs[k].quoting,
        forall|k: int|
            c <= k < cs.len() - 1 ==> cell_value(b2, #[trigger] cs2[k]) == cell_value(b, cs[k + 1])
                && cs2[k].quoting == cs[k + 1].quoting,
{
    let m = cs.len() as int;
    let dl1 = q - p;
    let dl2 = q - p + x - y;
    assert forall|k: int|
        0 <= k < c implies cell_value(b2, #[trigger] cs2[k]) == cell_value(b, cs[k]) && cs2[k].quoting
            == cs[k].quoting by {
        lemma_del_values_before(b, b2, cs, cs2, c, p, q, x);
        assert(cs2[k] == cs2[k + 0]);
    }
    assert forall|k: int|
        c <= k < m - 1 implies cell_value(b2, #[trigger] cs2[k]) == cell_value(b, cs[k + 1]) && cs2[k].quoting
            == cs[k + 1].quoting by {
        lemma_del_values_after(b, b2, cs, cs2, c, p, q, x, y, e);
        assert(cs2[(k + 1) + -1] == cs2[k]);
    }
}

/// The cells before a cut keep their values.
proof fn lemma_del_values_before(b: Seq<u8>, b2: Seq<u8>, cs: Seq<Cell>, cs2: Seq<Cell>, c: int, p: int, q: int, x: int)
    requires
        0 <= p <= x <= b.len(),
        0 <= q,
        q + (x - p) <= b2.len(),
        b2.len() <= usize::MAX,
        0 <= c < cs.len(),
        c <= cs2.len(),
        forall|z: int| 0 <= z < x - p ==> #[trigger] b2[q + z] == b[p + z],
        forall|k: int| 0 <= k < c ==> p <= (#[trigger] cs[k]).content_span.start <= cs[k].content_span.end <= x,
        forall|k: int| 0 <= k < c ==> #[trigger] cs2[k] == shift_cell(cs[k], q - p),
    ensures
        forall|k: int|
            0 <= k < c ==> cell_value(b2, #[trigger] cs2[k + 0]) == cell_value(b, cs[k]) && cs2[k + 0].quoting
                == cs[k].quoting,
{
    let dl1 = q - p;
    assert forall|z: int| p <= z < x implies #[trigger] b2[z + dl1] == b[z] by {
        assert(b2[q + (z - p)] == b[p + (z - p)]);
    }
    assert forall|k: int| 0 <= k < c implies p <= (#[trigger] cs[k]).content_span.start
        <= cs[k].content_span.end <= x && cs2[k + 0] == shift_cell(cs[k], dl1) by {}
    crate::insertion::lemma_values_moved(b, b2, cs, cs2, 0, c, 0, dl1, p, x);
}

/// The cells after a cut keep their values, one place to the left.
proof fn lemma_del_values_after(
    b: Seq<u8>,
    b2: Seq<u8>,
    cs: Seq<Cell>,
    cs2: Seq<Cell>,
    c: int,
    p: int,
    q: int,
    x: int,
    y: int,
    e: int,
)
    requires
        0 <= p <= x <= y <= e <= b.len(),
        0 <= q,
        q + (x - p) + (e - y) <= b2.len(),
        b2.len() <= usize::MAX,
        0 <= c < cs.len(),
        cs2.len() == cs.len() - 1,
        forall|z: int| 0 <= z < e - y ==> #[trigger] b2[q + (x - p) + z] == b[y + z],
        forall|k: int|
            c + 1 <= k < cs.len() ==> y <= (#[trigger] cs[k]).content_span.start <= cs[k].content_span.end <= e,
        forall|k: int| c <= k < cs.len() - 1 ==> #[trigger] cs2[k] == shift_cell(cs[k + 1], q - p + x - y),
    ensures
        forall|k: int|
            c + 1 <= k < cs.len() ==> cell_value(b2, #[trigger] cs2[k + -1]) == cell_value(b, cs[k]) && cs2[k
                + -1].quoting == cs[k].quoting,
{
    let m = cs.len() as int;
    let dl2 = q - p + x - y;
    assert forall|z: int| y <= z < e implies #[trigger] b2[z + dl2] == b[z] by {
        assert(b2[q + (x - p) + (z - y)] == b[y + (z - y)]);
    }
    assert forall|k: int| c + 1 <= k < m implies y <= (#[trigger] cs[k]).content_span.start
        <= cs[k].content_span.end <= e && cs2[k + -1] == shift_cell(cs[k], dl2) by {
        assert(cs2[(k - 1)] == shift_cell(cs[(k - 1) + 1], dl2));
    }
    crate::insertion::lemma_values_moved(b, b2, cs, cs2, c + 1, m, -1, dl2, y, e);
}

/// The values of a row with a cut, read in the text with the column
/// deleted.
#[verifier::spinoff_prover]
#[verifier::rlimit(100)]
proof fn lemma_deleted_values(
    b: Seq<u8>,
    dialect: Dialect,
    c: int,
    i: int,
    p: int,
    ltb: Option<LineTerminator>,
    ewnb: bool,
    q: int,
)
    requires
        b.len() <= usize::MAX,
        changed_text(b, dialect, c, ColumnChange::Delete).len() <= usize::MAX,
        del_state(b, dialect, c, i, p, ltb, ewnb, q),
        i < spec_parse(b, dialect).rows.len(),
        editable_row(spec_parse(b, dialect), i, c),
        q < changed_text(b, dialect, c, ColumnChange::Delete).len(),
    ensures
        ({
            let t = spec_parse(b, dialect);
            let d = delimiter_of(dialect);
            let ch = ColumnChange::Delete;
            let b2 = changed_text(b, dialect, c, ch);
            let e = parse_cells(b, d, p, i).1;
            let x = change_edit(t, i, c, ch).0.start as int;
            let y = change_edit(t, i, c, ch).0.end as int;
            deleted_values(
                b,
                t,
                i,
                c,
                b2,
                t.rows[i],
                RowView { span: span_of(q, q + (x - p) + (e - y)), cells: parse_cells(b2, d, q, i).0 },
            )
        }),
{
    let t = spec_parse(b, dialect);
    let d = delimiter_of(dialect);
    let ch = ColumnChange::Delete;
    let b2 = changed_text(b, dialect, c, ch);
    lemma_del_source(b, dialect, c, i, p, ltb, ewnb, q);
    crate::reparse::lemma_source_bounds(b, dialect, i, p, ltb, ewnb);
    lemma_source_step(b, dialect, i, p, ltb, ewnb);
    lemma_del_edited_layout(b, dialect, c, i, p, ltb, ewnb, q);
    lemma_del_edit_at(b, dialect, c, i);
    crate::reparse::lemma_delimiter_plain(dialect);
    let rc = parse_cells(b, d, p, i);
    lemma_parse_cells(b, d, p, i);
    let e = rc.1;
    let x = change_edit(t, i, c, ch).0.start as int;
    let y = change_edit(t, i, c, ch).0.end as int;
    let cs = rc.0;
    let m = cs.len() as int;
    assert(t.rows[i].cells == cs);
    if e < b.len() {
        assert(b2[q + (x - p) + (e - y)] == b[y + (e - y)]);
    }
    assert forall|j: int| 0 <= j < e - y implies #[trigger] b2[q + (x - p) + j] == b[y + j] by {}
    lemma_deleted_cells(b, b2, d, p, q, x, y, e, c, i);
    let cs2 = parse_cells(b2, d, q, i).0;
    if m > 1 {
        lemma_del_cell_places(b, dialect, c, i);
        assert(t.rows[i].span == span_of(p, e)) by {
            reveal(source_from);
        }
        lemma_del_values_split(b, b2, cs, cs2, c, p, q, x, y, e);
    }
}

/// The rows of the text with the column deleted from `q` on are the
/// source's rows from `i` on, each related as [`deleted_row`] says, but
/// for a last row left empty and unterminated, which is gone; the same
/// error kinds on the same rows.
#[verifier::opaque]
pub open spec fn del_reads_from(
    b: Seq<u8>,
    dialect: Dialect,
    c: int,
    i: int,
    p: int,
    ltb: Option<LineTerminator>,
    ewnb: bool,
    q: int,
) -> bool {
    let t = spec_parse(b, dialect);
    let d = delimiter_of(dialect);
    let a = parse_rows(b, d, p, i, ltb, ewnb);
    let bb = parse_rows(changed_text(b, dialect, c, ColumnChange::Delete), d, q, i, ltb, ewnb);
    &&& bb.0.len() <= a.0.len() <= bb.0.len() + 1
    &&& forall|j: int| 0 <= j < bb.0.len() ==> deleted_row(t, i + j, c, a.0[j], #[trigger] bb.0[j])
    &&& forall|j: int|
        0 <= j < bb.0.len() ==> deleted_values(
            b,
            t,
            i + j,
            c,
            changed_text(b, dialect, c, ColumnChange::Delete),
            a.0[j],
            #[trigger] bb.0[j],
        )
    &&& same_error_kinds(a.1, bb.1)
}

/// The source reading inside a state.
pub proof fn lemma_del_source(
    b: Seq<u8>,
    dialect: Dialect,
    c: int,
    i: int,
    p: int,
    ltb: Option<LineTerminator>,
    ewnb: bool,
    q: int,
)
    requires
        del_state(b, dialect, c, i, p, ltb, ewnb, q),
    ensures
        source_from(b, dialect, i, p, ltb, ewnb),
        p <= b.len(),
        0 <= q <= changed_text(b, dialect, c, ColumnChange::Delete).len(),
{
    reveal(del_state);
}

/// Past the last row, both readings are done.
pub proof fn lemma_del_end(
    b: Seq<u8>,
    dialect: Dialect,
    c: int,
    i: int,
    p: int,
    ltb: Option<LineTerminator>,
    ewnb: bool,
    q: int,
)
    requires
        b.len() <= usize::MAX,
        del_state(b, dialect, c, i, p, ltb, ewnb, q),
        i == spec_parse(b, dialect).rows.len(),
    ensures
        del_reads_from(b, dialect, c, i, p, ltb, ewnb, q),
{
    reveal(del_state);
    reveal(del_reads_from);
    reveal(source_from);
    let t = spec_parse(b, dialect);
    let d = delimiter_of(dialect);
    let ch = ColumnChange::Delete;
    let b2 = changed_text(b, dialect, c, ch);
    let a = parse_rows(b, d, p, i, ltb, ewnb);
    if p < b.len() {
        lemma_rows_step(b, d, p, i, ltb, ewnb);
        assert(a.0.len() >= 1);
    }
    lemma_rows_done(b, d, p, i, ltb, ewnb);
    lemma_edits_prefix(t, c, ch, i, i);
    assert(b2.subrange(q, b2.len() as int).len() == 0);
    lemma_rows_done(b2, d, q, i, ltb, ewnb);
}

/// The rows from an edited row on relate once the rows after it do.
#[verifier::spinoff_prover]
#[verifier::rlimit(60)]
proof fn lemma_del_cons_edited(
    b: Seq<u8>,
    dialect: Dialect,
    c: int,
    i: int,
    p: int,
    ltb: Option<LineTerminator>,
    ewnb: bool,
    q: int,
)
    requires
        b.len() <= usize::MAX,
        changed_text(b, dialect, c, ColumnChange::Delete).len() <= usize::MAX,
        no_lone_cr(b),
        del_state(b, dialect, c, i, p, ltb, ewnb, q),
        i < spec_parse(b, dialect).rows.len(),
        editable_row(spec_parse(b, dialect), i, c),
        q < changed_text(b, dialect, c, ColumnChange::Delete).len(),
        ({
            let t = spec_parse(b, dialect);
            let e = parse_cells(b, delimiter_of(dialect), p, i).1;
            let next = e + terminator_len(b, e);
            let lt2 = if ltb is Some {
                ltb
            } else {
                terminator_kind(b, e)
            };
            let ewn2 = terminator_len(b, e) > 0 && next == b.len();
            let x = change_edit(t, i, c, ColumnChange::Delete).0.start as int;
            let y = change_edit(t, i, c, ColumnChange::Delete).0.end as int;
            del_reads_from(b, dialect, c, i + 1, next, lt2, ewn2, q + (x - p) + (next - y))
        }),
    ensures
        del_reads_from(b, dialect, c, i, p, ltb, ewnb, q),
{
    reveal(del_reads_from);
    let t = spec_parse(b, dialect);
    let d = delimiter_of(dialect);
    let ch = ColumnChange::Delete;
    let b2 = changed_text(b, dialect, c, ch);
    let a = parse_rows(b, d, p, i, ltb, ewnb);
    let bb = parse_rows(b2, d, q, i, ltb, ewnb);
    lemma_del_source(b, dialect, c, i, p, ltb, ewnb, q);
    crate::reparse::lemma_source_bounds(b, dialect, i, p, ltb, ewnb);
    lemma_source_step(b, dialect, i, p, ltb, ewnb);
    lemma_del_step_edited(b, dialect, c, i, p, ltb, ewnb, q);
    let rc = parse_cells(b, d, p, i);
    let e = rc.1;
    let tl = terminator_len(b, e);
    let next = e + tl;
    let lt2 = if ltb is Some {
        ltb
    } else {
        terminator_kind(b, e)
    };
    let ewn2 = tl > 0 && next == b.len();
    let a2 = parse_rows(b, d, next, i + 1, lt2, ewn2);
    let rc2 = parse_cells(b2, d, q, i);
    let x = change_edit(t, i, c, ch).0.start as int;
    let y = change_edit(t, i, c, ch).0.end as int;
    let next2 = q + (x - p) + (next - y);
    let b2r = parse_rows(b2, d, next2, i + 1, lt2, ewn2);
    let row2 = RowView { span: span_of(q, q + (x - p) + (e - y)), cells: rc2.0 };
    assert(bb.0 == seq![row2] + b2r.0);
    assert forall|j: int| 0 <= j < bb.0.len() implies deleted_row(t, i + j, c, a.0[j], #[trigger] bb.0[j]) by {
        if j > 0 {
            assert(bb.0[j] == b2r.0[j - 1]);
            assert(a.0[j] == a2.0[j - 1]);
            assert(i + 1 + (j - 1) == i + j);
        } else {
            assert(a.0[0] == t.rows[i]);
        }
    }
    lemma_deleted_values(b, dialect, c, i, p, ltb, ewnb, q);
    assert forall|j: int| 0 <= j < bb.0.len() implies deleted_values(b, t, i + j, c, b2, a.0[j], #[trigger] bb.0[j]) by {
        if j > 0 {
            assert(bb.0[j] == b2r.0[j - 1]);
            assert(a.0[j] == a2.0[j - 1]);
            assert(i + 1 + (j - 1) == i + j);
        } else {
            assert(a.0[0] == t.rows[i]);
        }
    }
    lemma_kinds_cons(rc.2, a2.1, rc2.2, b2r.1, q - p, false);
}

/// The rows from an unedited row on relate once the rows after it do.
#[verifier::spinoff_prover]
#[verifier::rlimit(60)]
proof fn lemma_del_cons_plain(
    b: Seq<u8>,
    dialect: Dialect,
    c: int,
    i: int,
    p: int,
    ltb: Option<LineTerminator>,
    ewnb: bool,
    q: int,
)
    requires
        b.len() <= usize::MAX,
        changed_text(b, dialect, c, ColumnChange::Delete).len() <= usize::MAX,
        no_lone_cr(b),
        del_state(b, dialect, c, i, p, ltb, ewnb, q),
        i < spec_parse(b, dialect).rows.len(),
        !editable_row(spec_parse(b, dialect), i, c),
        ({
            let e = parse_cells(b, delimiter_of(dialect), p, i).1;
            let next = e + terminator_len(b, e);
            let lt2 = if ltb is Some {
                ltb
            } else {
                terminator_kind(b, e)
            };
            let ewn2 = terminator_len(b, e) > 0 && next == b.len();
            del_reads_from(b, dialect, c, i + 1, next, lt2, ewn2, q + (next - p))
        }),
    ensures
        del_reads_from(b, dialect, c, i, p, ltb, ewnb, q),
{
    reveal(del_reads_from);
    let t = spec_parse(b, dialect);
    let d = delimiter_of(dialect);
    let ch = ColumnChange::Delete;
    let b2 = changed_text(b, dialect, c, ch);
    let a = parse_rows(b, d, p, i, ltb, ewnb);
    let bb = parse_rows(b2, d, q, i, ltb, ewnb);
    lemma_del_source(b, dialect, c, i, p, ltb, ewnb, q);
    crate::reparse::lemma_source_bounds(b, dialect, i, p, ltb, ewnb);
    lemma_source_step(b, dialect, i, p, ltb, ewnb);
    lemma_del_step_plain(b, dialect, c, i, p, ltb, ewnb, q);
    let rc = parse_cells(b, d, p, i);
    let e = rc.1;
    let tl = terminator_len(b, e);
    let next = e + tl;
    let lt2 = if ltb is Some {
        ltb
    } else {
        terminator_kind(b, e)
    };
    let ewn2 = tl > 0 && next == b.len();
    let a2 = parse_rows(b, d, next, i + 1, lt2, ewn2);
    let rc2 = parse_cells(b2, d, q, i);
    let next2 = q + (next - p);
    let b2r = parse_rows(b2, d, next2, i + 1, lt2, ewn2);
    let row2 = RowView { span: span_of(q, q + (e - p)), cells: rc2.0 };
    assert(bb.0 == seq![row2] + b2r.0);
    lemma_parse_cells(b2, d, q, i);
    if rc.0.len() == 1 {
        crate::reparse::lemma_content_within(b, dialect, i, 0);
        assert(t.rows[i].cells == rc.0);
    }
    lemma_moved_blank(rc.0, q - p, p, e, span_of(p, e), row2.span);
    assert forall|j: int| 0 <= j < bb.0.len() implies deleted_row(t, i + j, c, a.0[j], #[trigger] bb.0[j]) by {
        if j > 0 {
            assert(bb.0[j] == b2r.0[j - 1]);
            assert(a.0[j] == a2.0[j - 1]);
            assert(i + 1 + (j - 1) == i + j);
        } else {
            assert(a.0[0] == t.rows[i]);
        }
    }
    let row = t.rows[i];
    assert(row == RowView { span: span_of(p, e), cells: rc.0 });
    assert forall|k: int| 0 <= k < row.cells.len() implies row.span.start <= (#[trigger] row.cells[k]).content_span.start
        <= row.cells[k].content_span.end <= row.span.end by {
        crate::reparse::lemma_content_within(b, dialect, i, k);
    }
    crate::reparse::lemma_row_within(b, dialect, i);
    lemma_del_plain_layout(b, dialect, c, i, p, ltb, ewnb, q);
    assert(b2.subrange(q, q + (e - p)) =~= b.subrange(p, e)) by {
        assert forall|z: int| 0 <= z < e - p implies b2.subrange(q, q + (e - p))[z] == b.subrange(p, e)[z] by {
            assert(b2[q + z] == b[p + z]);
        }
    }
    crate::reparse::lemma_moved_values(b2, row2, b, row);
    assert forall|j: int| 0 <= j < bb.0.len() implies deleted_values(b, t, i + j, c, b2, a.0[j], #[trigger] bb.0[j]) by {
        if j > 0 {
            assert(bb.0[j] == b2r.0[j - 1]);
            assert(a.0[j] == a2.0[j - 1]);
            assert(i + 1 + (j - 1) == i + j);
        } else {
            assert(a.0[0] == t.rows[i]);
            assert forall|k: int| 0 <= k < row.cells.len() implies (#[trigger] row2.cells[k]).quoting == row.cells[k].quoting by {
                assert(row2.cells[k] == shift_cell(row.cells[k], q - p));
            }
        }
    }
    lemma_kinds_cons(rc.2, a2.1, rc2.2, b2r.1, q - p, true);
}

/// A last row left empty and unterminated is gone, and nothing follows.
proof fn lemma_del_gone(
    b: Seq<u8>,
    dialect: Dialect,
    c: int,
    i: int,
    p: int,
    ltb: Option<LineTerminator>,
    ewnb: bool,
    q: int,
)
    requires
        b.len() <= usize::MAX,
        changed_text(b, dialect, c, ColumnChange::Delete).len() <= usize::MAX,
        no_lone_cr(b),
        del_state(b, dialect, c, i, p, ltb, ewnb, q),
        i < spec_parse(b, dialect).rows.len(),
        editable_row(spec_parse(b, dialect), i, c),
        q == changed_text(b, dialect, c, ColumnChange::Delete).len(),
    ensures
        del_reads_from(b, dialect, c, i, p, ltb, ewnb, q),
{
    reveal(del_reads_from);
    let t = spec_parse(b, dialect);
    let d = delimiter_of(dialect);
    lemma_del_source(b, dialect, c, i, p, ltb, ewnb, q);
    crate::reparse::lemma_source_bounds(b, dialect, i, p, ltb, ewnb);
    lemma_source_step(b, dialect, i, p, ltb, ewnb);
    lemma_del_step_edited(b, dialect, c, i, p, ltb, ewnb, q);
    let rc = parse_cells(b, d, p, i);
    let e = rc.1;
    let tl = terminator_len(b, e);
    let next = e + tl;
    let lt2 = if ltb is Some {
        ltb
    } else {
        terminator_kind(b, e)
    };
    let ewn2 = tl > 0 && next == b.len();
    let a2 = parse_rows(b, d, next, i + 1, lt2, ewn2);
    crate::reparse::lemma_source_bounds(b, dialect, i + 1, next, lt2, ewn2);
    reveal(source_from);
    assert(a2.0.len() == 0);
    if next < b.len() {
        lemma_rows_step(b, d, next, i + 1, lt2, ewn2);
    } else {
        lemma_rows_done(b, d, next, i + 1, lt2, ewn2);
    }
    assert(a2.1.len() == 0);
}

/// Reading the text with the column deleted row by row alongside the
/// source.
proof fn lemma_del_rows(
    b: Seq<u8>,
    dialect: Dialect,
    c: int,
    i: int,
    p: int,
    ltb: Option<LineTerminator>,
    ewnb: bool,
    q: int,
)
    requires
        b.len() <= usize::MAX,
        changed_text(b, dialect, c, ColumnChange::Delete).len() <= usize::MAX,
        no_lone_cr(b),
        del_state(b, dialect, c, i, p, ltb, ewnb, q),
    ensures
        del_reads_from(b, dialect, c, i, p, ltb, ewnb, q),
    decreases b.len() - p,
{
    let t = spec_parse(b, dialect);
    let n = t.rows.len() as int;
    let d = delimiter_of(dialect);
    let ch = ColumnChange::Delete;
    lemma_del_source(b, dialect, c, i, p, ltb, ewnb, q);
    crate::reparse::lemma_source_bounds(b, dialect, i, p, ltb, ewnb);
    if i == n {
        lemma_del_end(b, dialect, c, i, p, ltb, ewnb, q);
    } else {
        lemma_source_step(b, dialect, i, p, ltb, ewnb);
        let e = parse_cells(b, d, p, i).1;
        let next = e + terminator_len(b, e);
        let lt2 = if ltb is Some {
            ltb
        } else {
            terminator_kind(b, e)
        };
        let ewn2 = terminator_len(b, e) > 0 && next == b.len();
        if editable_row(t, i, c) {
            lemma_del_step_edited(b, dialect, c, i, p, ltb, ewnb, q);
            if q == changed_text(b, dialect, c, ch).len() {
                lemma_del_gone(b, dialect, c, i, p, ltb, ewnb, q);
            } else {
                lemma_del_layout_end(b, dialect, c, i, p, ltb, ewnb, q);
                let x = change_edit(t, i, c, ch).0.start as int;
                let y = change_edit(t, i, c, ch).0.end as int;
                lemma_del_rows(b, dialect, c, i + 1, next, lt2, ewn2, q + (x - p) + (next - y));
                lemma_del_cons_edited(b, dialect, c, i, p, ltb, ewnb, q);
            }
        } else {
            lemma_del_step_plain(b, dialect, c, i, p, ltb, ewnb, q);
            lemma_del_rows(b, dialect, c, i + 1, next, lt2, ewn2, q + (next - p));
            lemma_del_cons_plain(b, dialect, c, i, p, ltb, ewnb, q);
        }
    }
}

/// The edit of a row keeps the row's start: the cut lies within it.
proof fn lemma_del_layout_end(
    b: Seq<u8>,
    dialect: Dialect,
    c: int,
    i: int,
    p: int,
    ltb: Option<LineTerminator>,
    ewnb: bool,
    q: int,
)
    requires
        b.len() <= usize::MAX,
        changed_text(b, dialect, c, ColumnChange::Delete).len() <= usize::MAX,
        del_state(b, dialect, c, i, p, ltb, ewnb, q),
        i < spec_parse(b, dialect).rows.len(),
        editable_row(spec_parse(b, dialect), i, c),
    ensures
        ({
            let t = spec_parse(b, dialect);
            let e = parse_cells(b, delimiter_of(dialect), p, i).1;
            let next = e + terminator_len(b, e);
            p <= change_edit(t, i, c, ColumnChange::Delete).0.start <= change_edit(
                t,
                i,
                c,
                ColumnChange::Delete,
            ).0.end <= next
        }),
{
    lemma_del_edited_layout(b, dialect, c, i, p, ltb, ewnb, q);
}

/// The text with the column deleted starts like the source when it keeps
/// the source's byte-order mark (or lack of one): from the first row on it
/// is the source with the cuts applied.
pub proof fn lemma_del_top(b: Seq<u8>, dialect: Dialect, c: int)
    requires
        b.len() <= usize::MAX,
        changed_text(b, dialect, c, ColumnChange::Delete).len() <= usize::MAX,
        has_bom_bytes(changed_text(b, dialect, c, ColumnChange::Delete)) == has_bom_bytes(b),
    ensures
        del_state(b, dialect, c, 0, body_start(b), None, false, body_start(b)),
{
    reveal(del_state);
    let t = spec_parse(b, dialect);
    let n = t.rows.len() as int;
    let ch = ColumnChange::Delete;
    let es = column_edits(t, c, ch);
    let b2 = changed_text(b, dialect, c, ch);
    let p0 = body_start(b);
    crate::reparse::lemma_source_top(b, dialect);
    crate::wellformed::law_parse_sound(b, dialect);
    lemma_edits_prefix(t, c, ch, 0, n);
    assert(edits_before(t, c, ch, 0) == 0);
    if es.len() > 0 {
        lemma_next_edit(t, c, ch, 0, n);
        let r = next_edited_row(t, c, 0, n);
        lemma_del_edit_at(b, dialect, c, r);
        assert(t.rows[r] == t.rows[r]);
    }
    lemma_applied_skip(b, es, 0, 0, p0);
    assert(b2 == b.subrange(0, p0) + applied_from(b, es, 0, p0));
    assert(b2.subrange(p0, b2.len() as int) =~= applied_from(b, es, 0, p0));
}

/// The text with the column deleted begins with the source up to the
/// first cut, then what follows the cut; and with a byte-order mark in
/// the source it keeps it.
pub proof fn lemma_del_front(b: Seq<u8>, dialect: Dialect, c: int)
    requires
        b.len() <= usize::MAX,
        changed_text(b, dialect, c, ColumnChange::Delete).len() <= usize::MAX,
    ensures
        ({
            let t = spec_parse(b, dialect);
            let n = t.rows.len() as int;
            let es = column_edits(t, c, ColumnChange::Delete);
            let b2 = changed_text(b, dialect, c, ColumnChange::Delete);
            let r = next_edited_row(t, c, 0, n);
            &&& has_bom_bytes(b) ==> has_bom_bytes(b2)
            &&& es.len() == 0 ==> b2 == b
            &&& es.len() > 0 ==> {
                &&& 0 <= r < n
                &&& editable_row(t, r, c)
                &&& es[0] == change_edit(t, r, c, ColumnChange::Delete)
                &&& edits_before(t, c, ColumnChange::Delete, r + 1) == 1
                &&& b2 == b.subrange(0, es[0].0.start as int) + applied_from(b, es, 1, es[0].0.end as int)
                &&& 1 < es.len() ==> t.rows[r].span.end < es[1].0.start <= b.len()
            }
        }),
{
    let t = spec_parse(b, dialect);
    let n = t.rows.len() as int;
    let ch = ColumnChange::Delete;
    let es = column_edits(t, c, ch);
    let b2 = changed_text(b, dialect, c, ch);
    crate::wellformed::law_parse_sound(b, dialect);
    lemma_edits_prefix(t, c, ch, 0, n);
    assert(edits_before(t, c, ch, 0) == 0);
    if es.len() == 0 {
        assert(b2 =~= b);
    } else {
        lemma_next_edit(t, c, ch, 0, n);
        let r = next_edited_row(t, c, 0, n);
        lemma_del_edit_at(b, dialect, c, r);
        assert(t.rows[r] == t.rows[r]);
        lemma_edits_prefix(t, c, ch, r, n);
        lemma_edits_prefix(t, c, ch, 0, r);
        lemma_edit_of_row(t, c, ch, r, n);
        assert(edits_before(t, c, ch, r) == 0) by {
            if edits_before(t, c, ch, r) > 0 {
                lemma_next_edit(t, c, ch, 0, r);
                lemma_next_edit_first(t, c, 0, r, n);
            }
        }
        if 1 < es.len() {
            lemma_next_edit(t, c, ch, r + 1, n);
            let r2 = next_edited_row(t, c, r + 1, n);
            lemma_del_edit_at(b, dialect, c, r2);
            lemma_parse_ordered(b, dialect);
            assert(t.rows[r].span.end < t.rows[r2].span.start);
        }
        let x = es[0].0.start as int;
        assert(b2 == b.subrange(0, x) + Seq::<u8>::empty() + applied_from(b, es, 1, es[0].0.end as int));
        assert(b2 =~= b.subrange(0, x) + applied_from(b, es, 1, es[0].0.end as int));
        if has_bom_bytes(b) {
            assert(t.rows[0] == t.rows[0]);
            if r > 0 {
                lemma_parse_ordered(b, dialect);
                assert(t.rows[0].span.end < t.rows[r].span.start);
            }
            assert(x >= 3);
            assert(b2[0] == b[0] && b2[1] == b[1] && b2[2] == b[2]);
        }
    }
}

/// The first row from `i` that takes an edit is the first from `j` as
/// well when `i <= j` and no row in between takes one.
proof fn lemma_next_edit_first(t: TableView, c: int, i: int, j: int, n: int)
    requires
        0 <= i <= j <= n,
        next_edited_row(t, c, i, j) < j,
    ensures
        next_edited_row(t, c, i, n) == next_edited_row(t, c, i, j),
    decreases j - i,
{
    if i < j && !editable_row(t, i, c) {
        lemma_next_edit_first(t, c, i + 1, j, n);
    }
}

/// The bytes of the cut-out text from `y` on, up to the next cut.
proof fn lemma_after_cut(b: Seq<u8>, dialect: Dialect, c: int, y: int, k: int)
    requires
        b.len() <= usize::MAX,
        0 <= y <= b.len(),
        1 < column_edits(spec_parse(b, dialect), c, ColumnChange::Delete).len() ==> y < column_edits(
            spec_parse(b, dialect),
            c,
            ColumnChange::Delete,
        )[1].0.start <= b.len(),
        0 <= k,
        y + k < b.len(),
        1 < column_edits(spec_parse(b, dialect), c, ColumnChange::Delete).len() ==> y + k < column_edits(
            spec_parse(b, dialect),
            c,
            ColumnChange::Delete,
        )[1].0.start,
    ensures
        ({
            let es = column_edits(spec_parse(b, dialect), c, ColumnChange::Delete);
            let a = applied_from(b, es, 1, y);
            k < a.len() && a[k] == b[y + k]
        }),
{
    let es = column_edits(spec_parse(b, dialect), c, ColumnChange::Delete);
    let z = if 1 < es.len() {
        es[1].0.start as int
    } else {
        b.len() as int
    };
    lemma_applied_skip(b, es, 1, y, z);
    let a = applied_from(b, es, 1, y);
    assert(a == b.subrange(y, z) + applied_from(b, es, 1, z));
    assert(a[k] == b.subrange(y, z)[k]);
}

/// With the last cut at the end of the text, nothing follows it.
proof fn lemma_after_cut_end(b: Seq<u8>, dialect: Dialect, c: int)
    ensures
        ({
            let es = column_edits(spec_parse(b, dialect), c, ColumnChange::Delete);
            es.len() <= 1 ==> applied_from(b, es, 1, b.len() as int).len() == 0
        }),
{
}

/// A deletion that brings a byte-order mark to the front makes its first
/// cut in the first row, before the third byte.
proof fn lemma_bom_cut_row(b: Seq<u8>, dialect: Dialect, c: int)
    requires
        b.len() <= usize::MAX,
        changed_text(b, dialect, c, ColumnChange::Delete).len() <= usize::MAX,
        !has_bom_bytes(b),
        has_bom_bytes(changed_text(b, dialect, c, ColumnChange::Delete)),
    ensures
        ({
            let t = spec_parse(b, dialect);
            let n = t.rows.len() as int;
            let es = column_edits(t, c, ColumnChange::Delete);
            &&& es.len() > 0
            &&& next_edited_row(t, c, 0, n) == 0
            &&& es[0].0.start < 3
            &&& t.rows[0].span.start == 0
        }),
{
    let t = spec_parse(b, dialect);
    let n = t.rows.len() as int;
    let d = delimiter_of(dialect);
    let ch = ColumnChange::Delete;
    let es = column_edits(t, c, ch);
    let b2 = changed_text(b, dialect, c, ch);
    crate::wellformed::law_parse_sound(b, dialect);
    lemma_del_front(b, dialect, c);
    assert(es.len() > 0);
    let r = next_edited_row(t, c, 0, n);
    lemma_del_edit_at(b, dialect, c, r);
    let row = t.rows[r];
    assert(t.rows[r] == row);
    let x = es[0].0.start as int;
    let y = es[0].0.end as int;
    let a = applied_from(b, es, 1, y);
    assert(b2 == b.subrange(0, x) + a);
    assert(x < 3) by {
        if x >= 3 {
            assert(b2[0] == b[0] && b2[1] == b[1] && b2[2] == b[2]);
        }
    }
    assert(t.rows[0] == t.rows[0]);
    if r > 0 {
        let s_r = row.span.start as int;
        assert(crate::wellformed::rows_adjacent(b, t.rows, r - 1));
        assert(t.rows[r - 1] == t.rows[r - 1]);
        let pe = t.rows[r - 1].span.end as int;
        assert(b[pe] == CR || b[pe] == LF);
        if terminator_len(b, pe) == 2 {
            assert(b[s_r - 1] == LF);
        }
        assert(b[s_r - 1] == CR || b[s_r - 1] == LF);
        assert(b2[s_r - 1] == b.subrange(0, x)[s_r - 1]);
    }
}

/// A deletion that brings a byte-order mark to the front cuts the first
/// cell of the first row, and its second cell starts with the mark.
#[verifier::spinoff_prover]
#[verifier::rlimit(60)]
pub proof fn lemma_bom_cut(b: Seq<u8>, dialect: Dialect, c: int)
    requires
        b.len() <= usize::MAX,
        changed_text(b, dialect, c, ColumnChange::Delete).len() <= usize::MAX,
        !has_bom_bytes(b),
        has_bom_bytes(changed_text(b, dialect, c, ColumnChange::Delete)),
    ensures
        ({
            let t = spec_parse(b, dialect);
            let es = column_edits(t, c, ColumnChange::Delete);
            let b2 = changed_text(b, dialect, c, ColumnChange::Delete);
            let cs = t.rows[0].cells;
            let e0 = t.rows[0].span.end as int;
            &&& 1 <= t.rows.len()
            &&& editable_row(t, 0, c)
            &&& c == 0
            &&& cs.len() > 1
            &&& es.len() > 0
            &&& es[0] == change_edit(t, 0, c, ColumnChange::Delete)
            &&& es[0].0.start == 0
            &&& es[0].0.end == cs[1].span.start
            &&& edits_before(t, c, ColumnChange::Delete, 1) == 1
            &&& b2 == applied_from(b, es, 1, cs[1].span.start as int)
            &&& t.rows[0].span.start == 0
            &&& 1 < es.len() ==> e0 < es[1].0.start <= b.len()
            &&& e0 <= b.len()
            &&& e0 < b.len() ==> b[e0] == CR || b[e0] == LF
        }),
{
    let t = spec_parse(b, dialect);
    let n = t.rows.len() as int;
    let d = delimiter_of(dialect);
    let ch = ColumnChange::Delete;
    let es = column_edits(t, c, ch);
    let b2 = changed_text(b, dialect, c, ch);
    crate::reparse::lemma_delimiter_plain(dialect);
    crate::wellformed::law_parse_sound(b, dialect);
    lemma_del_front(b, dialect, c);
    lemma_bom_cut_row(b, dialect, c);
    lemma_del_edit_at(b, dialect, c, 0);
    let row = t.rows[0];
    assert(t.rows[0] == row);
    let cs = row.cells;
    let m = cs.len() as int;
    let x = es[0].0.start as int;
    let y = es[0].0.end as int;
    let a = applied_from(b, es, 1, y);
    assert(b2 == b.subrange(0, x) + a);
    lemma_after_cut_end(b, dialect, c);
    crate::reparse::lemma_row_within(b, dialect, 0);
    let e0 = row.span.end as int;
    assert(crate::wellformed::cells_tile(b, d, cs, 0, e0));
    crate::reparse::lemma_source_top(b, dialect);
    lemma_source_step(b, dialect, 0, 0, None, false);
    lemma_parse_cells(b, d, 0, 0);
    assert(e0 < b.len() ==> b[e0] == CR || b[e0] == LF);
    lemma_edit_of_row(t, c, ch, 0, n);
    assert(c == 0 && m > 1) by {
        if !(c == 0 && m > 1) {
            assert(y == cs[c].span.end);
            if c + 1 < m {
                assert(crate::wellformed::cells_adjacent(b, d, cs, c));
                assert(b[y] == d);
            } else {
                assert(y == e0);
            }
            if y < b.len() {
                lemma_after_cut(b, dialect, c, y, 0);
                assert(b2[x] == a[0]);
            } else {
                assert(a.len() == 0);
            }
        }
    }
}

/// The cut in the first row leaves the mark at the front: the second
/// cell starts with it, well before the row ends.
pub proof fn lemma_bom_in_cell(b: Seq<u8>, dialect: Dialect, c: int)
    requires
        b.len() <= usize::MAX,
        changed_text(b, dialect, c, ColumnChange::Delete).len() <= usize::MAX,
        !has_bom_bytes(b),
        has_bom_bytes(changed_text(b, dialect, c, ColumnChange::Delete)),
    ensures
        ({
            let t = spec_parse(b, dialect);
            let y = t.rows[0].cells[1].span.start as int;
            &&& 1 <= t.rows.len()
            &&& t.rows[0].cells.len() > 1
            &&& y + 3 <= t.rows[0].span.end
            &&& bom_at(b, y)
        }),
{
    let t = spec_parse(b, dialect);
    let es = column_edits(t, c, ColumnChange::Delete);
    let b2 = changed_text(b, dialect, c, ColumnChange::Delete);
    lemma_bom_cut(b, dialect, c);
    let y = t.rows[0].cells[1].span.start as int;
    let e0 = t.rows[0].span.end as int;
    lemma_after_cut_end(b, dialect, c);
    let a = applied_from(b, es, 1, y);
    assert(y <= e0) by {
        lemma_del_edit_at(b, dialect, c, 0);
    }
    if y == e0 {
        if y < b.len() {
            lemma_after_cut(b, dialect, c, y, 0);
        }
    } else {
        lemma_after_cut(b, dialect, c, y, 0);
        if y + 1 == e0 {
            if e0 < b.len() {
                lemma_after_cut(b, dialect, c, y, 1);
            }
        } else {
            lemma_after_cut(b, dialect, c, y, 1);
            if y + 2 == e0 {
                if e0 < b.len() {
                    lemma_after_cut(b, dialect, c, y, 2);
                }
            } else {
                lemma_after_cut(b, dialect, c, y, 2);
            }
        }
    }
}

/// A deletion that brings a byte-order mark to the front: reading the new
/// text from after the mark reads the first row with one cell fewer and
/// without errors, followed by the source's line break and what follows
/// it.
#[verifier::spinoff_prover]
#[verifier::rlimit(100)]
pub proof fn lemma_bom_first_row(b: Seq<u8>, dialect: Dialect, c: int)
    requires
        b.len() <= usize::MAX,
        changed_text(b, dialect, c, ColumnChange::Delete).len() <= usize::MAX,
        !has_bom_bytes(b),
        has_bom_bytes(changed_text(b, dialect, c, ColumnChange::Delete)),
    ensures
        ({
            let t = spec_parse(b, dialect);
            let d = delimiter_of(dialect);
            let ch = ColumnChange::Delete;
            let es = column_edits(t, c, ch);
            let b2 = changed_text(b, dialect, c, ch);
            let rc = parse_cells(b, d, 0, 0);
            let e0 = rc.1;
            let next0 = e0 + terminator_len(b, e0);
            let y = change_edit(t, 0, c, ch).0.end as int;
            let rc2 = parse_cells(b2, d, 3, 0);
            let all = parse_rows(b2, d, 3, 0, None, false);
            &&& 1 <= t.rows.len()
            &&& editable_row(t, 0, c)
            &&& rc.0.len() > 1
            &&& rc.2.len() == 0
            &&& t.rows[0].cells == rc.0
            &&& body_start(b) == 0
            &&& source_from(b, dialect, 0, 0, None, false)
            &&& 3 < b2.len() ==> {
                &&& rc2.0.len() == rc.0.len() - 1
                &&& rc2.1 == e0 - y
                &&& rc2.2.len() == 0
                &&& 0 <= e0 - y <= b2.len()
                &&& b2.subrange(e0 - y, b2.len() as int) == b.subrange(e0, next0) + applied_from(
                    b,
                    es,
                    edits_before(t, c, ch, 1),
                    next0,
                )
            }
            &&& 3 == b2.len() ==> t.rows.len() == 1 && all.0.len() == 0 && all.1.len() == 0
        }),
{
    let t = spec_parse(b, dialect);
    let n = t.rows.len() as int;
    let d = delimiter_of(dialect);
    let ch = ColumnChange::Delete;
    let es = column_edits(t, c, ch);
    let b2 = changed_text(b, dialect, c, ch);
    crate::reparse::lemma_delimiter_plain(dialect);
    lemma_bom_cut(b, dialect, c);
    lemma_bom_in_cell(b, dialect, c);
    crate::reparse::lemma_source_top(b, dialect);
    lemma_source_step(b, dialect, 0, 0, None, false);
    let cs = t.rows[0].cells;
    let m = cs.len() as int;
    let rc = parse_cells(b, d, 0, 0);
    lemma_parse_cells(b, d, 0, 0);
    let e0 = rc.1;
    let y = cs[1].span.start as int;
    let tl = terminator_len(b, e0);
    let next0 = e0 + tl;
    lemma_cells_step(b, d, 0, 0);
    lemma_parse_cell(b, d, 0, 0);
    let c0 = parse_cell(b, d, 0, 0);
    assert(c0.1 && 0 <= c0.2 < b.len());
    lemma_parse_cells(b, d, c0.2 + 1, 0);
    let tail = parse_cells(b, d, c0.2 + 1, 0);
    lemma_cell_starts_from(b, d, c0.2 + 1, 0, 0);
    assert(cs[1] == tail.0[0]);
    assert(y == c0.2 + 1);
    lemma_bom_cells(b, d, y, 0);
    lemma_del_next_later(b, dialect, c, 0, 0, None, false);
    lemma_applied_skip(b, es, 1, y, next0);
    let a2 = applied_from(b, es, 1, next0);
    assert(b2 == b.subrange(y, next0) + a2);
    assert forall|j: int| 0 <= j < next0 - y implies #[trigger] b2[j] == b[y + j] by {
        assert(b2[j] == b.subrange(y, next0)[j]);
    }
    if b2.len() == 3 {
        lemma_rows_done(b2, d, 3, 0, None, false);
    } else {
        let w = e0 - (y + 3);
        assert(same_row(b, y + 3, b2, 3, w)) by {
            assert forall|j: int| 0 <= j < w implies #[trigger] b[(y + 3) + j] == b2[3 + j] by {
                assert(b2[3 + j] == b[y + (3 + j)]);
            }
            if e0 < b.len() {
                assert(b2[e0 - y] == b[y + (e0 - y)]);
            }
        }
        lemma_cells_local(b, y + 3, b2, 3, w, y + 3, d, 0);
        assert(b2.subrange(e0 - y, b2.len() as int) =~= b.subrange(e0, next0) + a2) by {
            assert forall|j: int| 0 <= j < b2.len() - (e0 - y) implies b2.subrange(e0 - y, b2.len() as int)[j] == (
            b.subrange(e0, next0) + a2)[j] by {
                assert(b2[(e0 - y) + j] == (b.subrange(y, next0) + a2)[(e0 - y) + j]);
            }
        }
    }
}

/// A deletion that brings a byte-order mark to the front: reading the new
/// text from after the mark reads the first row with one cell fewer,
/// without errors, and goes on with the rest as usual.
#[verifier::spinoff_prover]
#[verifier::rlimit(60)]
proof fn lemma_del_top_bom(b: Seq<u8>, dialect: Dialect, c: int)
    requires
        b.len() <= usize::MAX,
        changed_text(b, dialect, c, ColumnChange::Delete).len() <= usize::MAX,
        no_lone_cr(b),
        !has_bom_bytes(b),
        has_bom_bytes(changed_text(b, dialect, c, ColumnChange::Delete)),
    ensures
        ({
            let t = spec_parse(b, dialect);
            let d = delimiter_of(dialect);
            let ch = ColumnChange::Delete;
            let b2 = changed_text(b, dialect, c, ch);
            let rc = parse_cells(b, d, 0, 0);
            let e0 = rc.1;
            let next0 = e0 + terminator_len(b, e0);
            let lt2 = terminator_kind(b, e0);
            let ewn2 = terminator_len(b, e0) > 0 && next0 == b.len();
            let y = change_edit(t, 0, c, ch).0.end as int;
            let next2 = next0 - y;
            let all = parse_rows(b2, d, 3, 0, None, false);
            let rest = parse_rows(b2, d, next2, 1, lt2, ewn2);
            &&& 1 <= t.rows.len()
            &&& editable_row(t, 0, c)
            &&& rc.0.len() > 1
            &&& rc.2.len() == 0
            &&& t.rows[0].cells == rc.0
            &&& 3 < b2.len() ==> {
                &&& all.0.len() >= 1
                &&& all.0[0].cells.len() == rc.0.len() - 1
                &&& all.0 == seq![all.0[0]] + rest.0
                &&& all.1 == rest.1
                &&& del_state(b, dialect, c, 1, next0, lt2, ewn2, next2)
            }
            &&& 3 == b2.len() ==> t.rows.len() == 1 && all.0.len() == 0 && all.1.len() == 0
        }),
{
    let t = spec_parse(b, dialect);
    let n = t.rows.len() as int;
    let d = delimiter_of(dialect);
    let ch = ColumnChange::Delete;
    let es = column_edits(t, c, ch);
    let b2 = changed_text(b, dialect, c, ch);
    lemma_bom_first_row(b, dialect, c);
    lemma_source_step(b, dialect, 0, 0, None, false);
    lemma_edit_of_row(t, c, ch, 0, n);
    let rc = parse_cells(b, d, 0, 0);
    let e0 = rc.1;
    let tl = terminator_len(b, e0);
    let next0 = e0 + tl;
    let y = change_edit(t, 0, c, ch).0.end as int;
    let lt2 = terminator_kind(b, e0);
    let ewn2 = tl > 0 && next0 == b.len();
    let next2 = next0 - y;
    if b2.len() > 3 {
        let a2 = applied_from(b, es, 1, next0);
        let whole = b2.subrange(e0 - y, b2.len() as int);
        assert(whole.len() == b2.len() - (e0 - y));
        assert(whole.len() == tl + a2.len());
        lemma_rows_step(b2, d, 3, 0, None, false);
        assert forall|j: int| 0 <= j < tl implies #[trigger] b2[(e0 - y) + j] == b[e0 + j] by {
            assert(whole[j] == b2[(e0 - y) + j]);
            assert(whole[j] == b.subrange(e0, next0)[j]);
        }
        if tl == 0 {
            lemma_del_next_later(b, dialect, c, 0, 0, None, false);
            assert(a2.len() == 0);
        }
        lemma_term_copied(b, e0, b2, e0 - y);
        lemma_rows_free(b2, d, next2, 1, lt2, tl > 0 && next2 == b2.len(), lt2, ewn2);
        assert(b2.subrange(next2, b2.len() as int) =~= a2) by {
            assert forall|j: int| 0 <= j < a2.len() implies b2.subrange(next2, b2.len() as int)[j] == a2[j] by {
                assert(whole[tl + j] == a2[j]);
            }
        }
        assert(del_state(b, dialect, c, 1, next0, lt2, ewn2, next2)) by {
            reveal(del_state);
        }
    }
}

/// The first non-blank row comes no later than any non-blank row.
pub proof fn lemma_first_nonblank_before(rows: Seq<RowView>, i: int, x: int)
    requires
        0 <= i <= x < rows.len(),
        !row_is_blank(rows[x]),
    ensures
        first_nonblank(rows, i) matches Some(h) && h <= x,
    decreases x - i,
{
    if row_is_blank(rows[i]) {
        lemma_first_nonblank_before(rows, i + 1, x);
    }
}

/// How the table read from the text with column `c` deleted relates to
/// the source's, row by row.
#[verifier::spinoff_prover]
#[verifier::rlimit(60)]
proof fn lemma_del_parse(b: Seq<u8>, dialect: Dialect, c: int)
    requires
        b.len() <= usize::MAX,
        changed_text(b, dialect, c, ColumnChange::Delete).len() <= usize::MAX,
        no_lone_cr(b),
    ensures
        ({
            let t = spec_parse(b, dialect);
            let b2 = changed_text(b, dialect, c, ColumnChange::Delete);
            let t2 = spec_parse(b2, dialect);
            &&& t2.rows.len() <= t.rows.len() <= t2.rows.len() + 1
            &&& forall|x: int| 0 <= x < t2.rows.len() ==> deleted_row(t, x, c, t.rows[x], #[trigger] t2.rows[x])
            &&& forall|x: int|
                0 <= x < t2.rows.len() && (x > 0 || has_bom_bytes(b2) == has_bom_bytes(b)) ==> deleted_values(
                    b,
                    t,
                    x,
                    c,
                    b2,
                    t.rows[x],
                    #[trigger] t2.rows[x],
                )
            &&& same_error_kinds(t.errors, t2.errors)
        }),
{
    let t = spec_parse(b, dialect);
    let d = delimiter_of(dialect);
    let ch = ColumnChange::Delete;
    let b2 = changed_text(b, dialect, c, ch);
    let t2 = spec_parse(b2, dialect);
    lemma_del_front(b, dialect, c);
    if has_bom_bytes(b2) == has_bom_bytes(b) {
        lemma_del_top(b, dialect, c);
        lemma_del_rows(b, dialect, c, 0, body_start(b), None, false, body_start(b));
        reveal(del_reads_from);
        assert(body_start(b2) == body_start(b));
        assert forall|x: int| 0 <= x < t2.rows.len() implies deleted_row(t, x, c, t.rows[x], #[trigger] t2.rows[x])
            && deleted_values(b, t, x, c, b2, t.rows[x], t2.rows[x]) by {
            assert(0 + x == x);
        }
    } else {
        lemma_del_top_bom(b, dialect, c);
        crate::reparse::lemma_source_top(b, dialect);
        lemma_source_step(b, dialect, 0, 0, None, false);
        let rc = parse_cells(b, d, 0, 0);
        let e0 = rc.1;
        let tl = terminator_len(b, e0);
        let next0 = e0 + tl;
        let lt2 = terminator_kind(b, e0);
        let ewn2 = tl > 0 && next0 == b.len();
        let y = change_edit(t, 0, c, ch).0.end as int;
        let next2 = next0 - y;
        let a = parse_rows(b, d, next0, 1, lt2, ewn2);
        assert(t.rows == seq![t.rows[0]] + a.0) by {
            reveal(source_from);
        }
        assert(t.errors == rc.2 + a.1);
        if b2.len() == 3 {
            if next0 < b.len() {
                lemma_rows_step(b, d, next0, 1, lt2, ewn2);
            } else {
                lemma_rows_done(b, d, next0, 1, lt2, ewn2);
            }
        } else {
            lemma_del_rows(b, dialect, c, 1, next0, lt2, ewn2, next2);
            reveal(del_reads_from);
            let rest = parse_rows(b2, d, next2, 1, lt2, ewn2);
            assert forall|x: int| 0 <= x < t2.rows.len() implies deleted_row(t, x, c, t.rows[x], #[trigger] t2.rows[x])
                && (x > 0 ==> deleted_values(b, t, x, c, b2, t.rows[x], t2.rows[x])) by {
                if x > 0 {
                    assert(t2.rows[x] == rest.0[x - 1]);
                    assert(t.rows[x] == a.0[x - 1]);
                    assert(1 + (x - 1) == x);
                }
            }
            lemma_kinds_cons(rc.2, a.1, Seq::<crate::parse::ParseError>::empty(), rest.1, 0, false);
            assert(Seq::<crate::parse::ParseError>::empty() + rest.1 == rest.1);
        }
    }
}

/// Deleting column `c` takes one cell from every row that takes
/// part (clean, non-blank, with that column; a single-cell row becomes a
/// blank line) and leaves everything else as it was: the same rows, but
/// for a last row left empty with no terminator, which is gone; the same
/// blankness elsewhere; every other cell's value and quoting, the cells
/// after the deleted one moving one place left; the same errors on the
/// same rows. So a clean file (no parse errors, no ragged rows) stays
/// clean. Stated for texts in which every carriage return is followed by a
/// line feed; the values of the first row are stated unless the deletion
/// brings a byte-order mark to the front of the text, which then is no
/// longer part of a value.
pub proof fn law_deleted_column(b: Seq<u8>, dialect: Dialect, c: int)
    requires
        b.len() <= usize::MAX,
        changed_text(b, dialect, c, ColumnChange::Delete).len() <= usize::MAX,
        0 <= c,
        no_lone_cr(b),
    ensures
        ({
            let t = spec_parse(b, dialect);
            let b2 = changed_text(b, dialect, c, ColumnChange::Delete);
            let t2 = spec_parse(b2, dialect);
            &&& t2.rows.len() <= t.rows.len() <= t2.rows.len() + 1
            &&& forall|x: int| 0 <= x < t2.rows.len() ==> deleted_row(t, x, c, t.rows[x], #[trigger] t2.rows[x])
            &&& forall|x: int|
                0 <= x < t2.rows.len() && (x > 0 || has_bom_bytes(b2) == has_bom_bytes(b)) ==> deleted_values(
                    b,
                    t,
                    x,
                    c,
                    b2,
                    t.rows[x],
                    #[trigger] t2.rows[x],
                )
            &&& same_error_kinds(t.errors, t2.errors)
            &&& clean(t) ==> clean(t2)
        }),
{
    let t = spec_parse(b, dialect);
    let ch = ColumnChange::Delete;
    let b2 = changed_text(b, dialect, c, ch);
    let t2 = spec_parse(b2, dialect);
    lemma_del_parse(b, dialect, c);
    assert forall|x: int| 0 <= x < t2.rows.len() implies #[trigger] error_row(t2, x) == error_row(t, x) by {
        crate::reparse::lemma_error_rows_agree(t, t2, x);
    }
    if clean(t) {
        match first_nonblank(t2.rows, 0) {
            None => {},
            Some(h2) => {
                crate::parse::lemma_first_nonblank(t2.rows, 0);
                let n = t.rows.len() as int;
                let n2 = t2.rows.len() as int;
                assert(!row_is_blank(t.rows[h2])) by {
                    if row_is_blank(t.rows[h2]) {
                        assert(!editable_row(t, h2, c));
                    }
                }
                lemma_first_nonblank_before(t.rows, 0, h2);
                let h = first_nonblank(t.rows, 0)->0;
                crate::parse::lemma_first_nonblank(t.rows, 0);
                let e = t.rows[h].cells.len() as int;
                lemma_ragged_none(t, h, e, n);
                let k = if c < e {
                    e - 1
                } else {
                    e
                };
                // Every non-blank row of the new table has `k` cells.
                assert forall|x: int| 0 <= x < n2 && !row_is_blank(#[trigger] t2.rows[x]) implies t2.rows[x].cells.len()
                    == k by {
                    assert(deleted_row(t, x, c, t.rows[x], t2.rows[x]));
                    assert(!error_row(t, x));
                    if editable_row(t, x, c) {
                        assert(!row_is_blank(t.rows[x]));
                        lemma_first_nonblank_before(t.rows, 0, x);
                        if x > h {
                            assert(checked_row(t, h, x));
                        }
                        assert(t.rows[x].cells.len() == e);
                    } else {
                        assert(!row_is_blank(t.rows[x]));
                        lemma_first_nonblank_before(t.rows, 0, x);
                        if x > h {
                            assert(checked_row(t, h, x));
                        }
                        assert(t.rows[x].cells.len() == e);
                    }
                }
                assert forall|x: int| 0 <= x < n2 && checked_row(t2, h2, x) implies #[trigger] t2.rows[x].cells.len()
                    == t2.rows[h2].cells.len() by {}
                lemma_ragged_empty(t2, h2, t2.rows[h2].cells.len() as int, n2);
            },
        }
    }
}

} // verus!
