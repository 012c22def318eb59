//! What adding a column does to a table: every row that takes part gains
//! one empty cell beside the column, nothing else changes, so a file
//! without parse errors or ragged rows stays that way.

use vstd::prelude::*;

use crate::grammar::{
    is_row_end, spec_parse, lemma_cells_step, lemma_parse_cell, lemma_parse_cells, parse_cell, parse_cells, CR, LF, QUOTE,
    SPACE,
};
use crate::reparse::{lemma_cell_window, lemma_cells_local, lemma_read_cell, same_bytes, same_cell_window, same_row};
use crate::dialect::{delimiter_of, Dialect};
use crate::edits::{applied, applied_from};
use crate::features::columns::{change_edit, change_edits_upto, editable_row, ColumnChange};
use crate::parse::{LineTerminator, Quoting, Span, TableView};
use crate::reparse::shift_cell;
use crate::parse::{cell_value, Cell};
use crate::grammar::terminator_len;
use crate::grammar::terminator_kind;
use crate::reparse::{lemma_source_step, source_from};
use crate::repair::{lemma_applied_skip, lemma_later_rows, lemma_term_same};
use crate::reparse::{lemma_kinds_cons, same_error_kinds, shift_cells, shift_errors};
use crate::grammar::lemma_rows_done;
use crate::parse::row_is_blank;
use crate::repair::{header_count, lemma_first_nonblank_same, lemma_moved_blank};
use crate::grammar::{body_start, has_bom_bytes};
use crate::features::ragged_rows::{checked_row, ragged_diags, ragged_upto};
use crate::parse::first_nonblank;
use crate::render::error_row;
use crate::grammar::{lemma_rows_step, parse_rows, span_of};
use crate::parse::RowView;

verus! {

/// Every cell read from `s` starts at or after `s`, the first one at `s`.
pub proof fn lemma_cell_starts_from(b: Seq<u8>, d: u8, s: int, row: int, j: int)
    requires
        0 <= s <= b.len(),
        b.len() <= usize::MAX,
        0 <= j < parse_cells(b, d, s, row).0.len(),
    ensures
        s <= parse_cells(b, d, s, row).0[j].span.start <= parse_cells(b, d, s, row).1,
        parse_cells(b, d, s, row).0[j].span.start <= parse_cells(b, d, s, row).0[j].span.end,
        j == 0 ==> parse_cells(b, d, s, row).0[j].span.start == s,
    decreases j,
{
    lemma_cells_step(b, d, s, row);
    lemma_parse_cell(b, d, s, row);
    lemma_parse_cells(b, d, s, row);
    let c = parse_cell(b, d, s, row);
    assert(c.0.span.start == s && c.0.span.end == c.2) by {
        reveal(parse_cell);
    }
    if j > 0 {
        assert(c.1 && s <= c.2 < b.len());
        lemma_parse_cells(b, d, c.2 + 1, row);
        lemma_cell_starts_from(b, d, c.2 + 1, row, j - 1);
        assert(parse_cells(b, d, s, row).0[j] == parse_cells(b, d, c.2 + 1, row).0[j - 1]);
    }
}

/// A row without errors with one more delimiter at the start of one of
/// its cells reads as its cells and one more empty cell, with no errors.
proof fn lemma_inserted_cells(
    b1: Seq<u8>,
    p1: int,
    b2: Seq<u8>,
    p2: int,
    x: int,
    e: int,
    s: int,
    j: int,
    d: u8,
    row: int,
)
    requires
        p1 <= s <= x <= e <= b1.len(),
        parse_cells(b1, d, s, row).1 == e,
        parse_cells(b1, d, s, row).2.len() == 0,
        0 <= j < parse_cells(b1, d, s, row).0.len(),
        parse_cells(b1, d, s, row).0[j].span.start == x,
        same_bytes(b1, p1, b2, p2, x - p1),
        p2 + (x - p1) < b2.len(),
        b2[p2 + (x - p1)] == d,
        same_row(b1, x, b2, p2 + (x - p1) + 1, e - x),
        d != CR,
        d != LF,
        d != SPACE,
        d != QUOTE,
        b1.len() <= usize::MAX,
        b2.len() <= usize::MAX,
    ensures
        ({
            let r1 = parse_cells(b1, d, s, row);
            let r2 = parse_cells(b2, d, s + (p2 - p1), row);
            &&& r2.0.len() == r1.0.len() + 1
            &&& r2.1 == e + (p2 - p1) + 1
            &&& r2.2.len() == 0
            &&& forall|k: int| 0 <= k < j ==> #[trigger] r2.0[k] == shift_cell(r1.0[k], p2 - p1)
            &&& r2.0[j].quoting == Quoting::Unquoted
            &&& r2.0[j].content_span.start == r2.0[j].content_span.end <= b2.len()
            &&& r2.0[j].span.end == x + (p2 - p1)
            &&& forall|k: int| j <= k < r1.0.len() ==> #[trigger] r2.0[k + 1] == shift_cell(r1.0[k], p2 - p1 + 1)
        }),
    decreases j,
{
    let delta = p2 - p1;
    let r1 = parse_cells(b1, d, s, row);
    lemma_cells_step(b1, d, s, row);
    lemma_parse_cell(b1, d, s, row);
    let c = parse_cell(b1, d, s, row);
    lemma_cell_starts_from(b1, d, s, row, j);
    if j == 0 {
        let x2 = p2 + (x - p1);
        assert(same_bytes(Seq::<u8>::empty(), 0, b2, x2, 0));
        lemma_read_cell(b2, d, x2, Seq::<u8>::empty(), 0, row);
        let c2 = parse_cell(b2, d, x2, row);
        assert(c2.0.span.end == c2.2) by {
            reveal(parse_cell);
        }
        lemma_cells_step(b2, d, x2, row);
        lemma_cells_local(b1, x, b2, x2 + 1, e - x, x, d, row);
        let rest2 = parse_cells(b2, d, x2 + 1, row);
        assert(x2 == s + delta);
        assert(rest2.2.len() == 0);
        assert(b2.subrange(c2.0.content_span.start as int, c2.0.content_span.end as int).len() == 0);
        let r2 = parse_cells(b2, d, s + delta, row);
        assert forall|k: int| j <= k < r1.0.len() implies #[trigger] r2.0[k + 1] == shift_cell(r1.0[k], delta + 1) by {
            assert(r2.0[k + 1] == rest2.0[k]);
        }
    } else {
        assert(c.1 && s <= c.2 < b1.len());
        lemma_parse_cells(b1, d, c.2 + 1, row);
        let rest1 = parse_cells(b1, d, c.2 + 1, row);
        assert(r1.0[j] == rest1.0[j - 1]);
        lemma_cell_starts_from(b1, d, c.2 + 1, row, j - 1);
        assert(c.3.len() == 0);
        assert(b1[c.2] == d);
        assert(b2[p2 + (c.2 - p1)] == d) by {
            assert(b1[p1 + (c.2 - p1)] == b2[p2 + (c.2 - p1)]);
        }
        assert(same_cell_window(b1, p1, b2, p2, c.2 - p1, d));
        lemma_cell_window(b1, p1, b2, p2, c.2 - p1, s, d, row);
        lemma_cells_step(b2, d, s + delta, row);
        lemma_inserted_cells(b1, p1, b2, p2, x, e, c.2 + 1, j - 1, d, row);
        let r2 = parse_cells(b2, d, s + delta, row);
        let rest2 = parse_cells(b2, d, c.2 + 1 + delta, row);
        assert forall|k: int| 0 <= k < j implies #[trigger] r2.0[k] == shift_cell(r1.0[k], delta) by {
            if k > 0 {
                assert(r2.0[k] == rest2.0[k - 1]);
                assert(r1.0[k] == rest1.0[k - 1]);
            }
        }
        assert(r2.0[j] == rest2.0[j - 1]);
        assert forall|k: int| j <= k < r1.0.len() implies #[trigger] r2.0[k + 1] == shift_cell(r1.0[k], delta + 1) by {
            assert(r2.0[k + 1] == rest2.0[(k - 1) + 1]);
            assert(r1.0[k] == rest1.0[k - 1]);
        }
    }
}

/// The last cell of a row ends where the row does.
pub proof fn lemma_last_cell_end(b: Seq<u8>, d: u8, s: int, row: int)
    requires
        0 <= s <= b.len(),
        b.len() <= usize::MAX,
    ensures
        parse_cells(b, d, s, row).0.len() >= 1,
        parse_cells(b, d, s, row).0.last().span.end == parse_cells(b, d, s, row).1,
    decreases b.len() - s,
{
    lemma_cells_step(b, d, s, row);
    lemma_parse_cell(b, d, s, row);
    lemma_parse_cells(b, d, s, row);
    crate::deletion::lemma_cell_span(b, d, s, row);
    let c = parse_cell(b, d, s, row);
    if c.1 && s <= c.2 < b.len() {
        lemma_last_cell_end(b, d, c.2 + 1, row);
        let rest = parse_cells(b, d, c.2 + 1, row);
        assert(parse_cells(b, d, s, row).0.last() == rest.0.last());
    }
}

/// Whether a change adds a column.
pub open spec fn adds_column(ch: ColumnChange) -> bool {
    ch == ColumnChange::AddLeft || ch == ColumnChange::AddRight
}

/// A change's edits of column `c` over the whole table.
pub open spec fn column_edits(t: TableView, c: int, ch: ColumnChange) -> Seq<(Span, Seq<u8>)> {
    change_edits_upto(t, c, ch, t.rows.len() as int)
}

/// The text after a change of column `c`.
pub open spec fn changed_text(b: Seq<u8>, dialect: Dialect, c: int, ch: ColumnChange) -> Seq<u8> {
    applied(b, column_edits(spec_parse(b, dialect), c, ch))
}

/// How many edits the rows before row `i` take.
pub open spec fn edits_before(t: TableView, c: int, ch: ColumnChange, i: int) -> int {
    change_edits_upto(t, c, ch, i).len() as int
}

/// The edits of the first rows are the first edits.
pub proof fn lemma_edits_prefix(t: TableView, c: int, ch: ColumnChange, i: int, n: int)
    requires
        0 <= i <= n,
    ensures
        edits_before(t, c, ch, i) <= edits_before(t, c, ch, n),
        forall|k: int|
            0 <= k < edits_before(t, c, ch, i) ==> #[trigger] change_edits_upto(t, c, ch, n)[k]
                == change_edits_upto(t, c, ch, i)[k],
    decreases n,
{
    if n > i {
        lemma_edits_prefix(t, c, ch, i, n - 1);
        let prev = change_edits_upto(t, c, ch, n - 1);
        let all = change_edits_upto(t, c, ch, n);
        assert forall|k: int| 0 <= k < edits_before(t, c, ch, i) implies #[trigger] all[k]
            == change_edits_upto(t, c, ch, i)[k] by {
            assert(all[k] == prev[k]);
        }
    }
}

/// Row `i`'s edit, if it takes one, comes right after those of the rows
/// before it.
pub proof fn lemma_edit_of_row(t: TableView, c: int, ch: ColumnChange, i: int, n: int)
    requires
        0 <= i < n,
    ensures
        edits_before(t, c, ch, i + 1) == edits_before(t, c, ch, i) + (if editable_row(t, i, c) {
            1int
        } else {
            0int
        }),
        editable_row(t, i, c) ==> edits_before(t, c, ch, i) < edits_before(t, c, ch, n)
            && change_edits_upto(t, c, ch, n)[edits_before(t, c, ch, i)] == change_edit(t, i, c, ch),
{
    lemma_edits_prefix(t, c, ch, i + 1, n);
    if editable_row(t, i, c) {
        let k = edits_before(t, c, ch, i);
        assert(change_edits_upto(t, c, ch, i + 1)[k] == change_edit(t, i, c, ch));
    }
}

/// The first row from `i` on, before `n`, that takes an edit (`n` when
/// none does).
pub open spec fn next_edited_row(t: TableView, c: int, i: int, n: int) -> int
    decreases n - i,
{
    if i >= n {
        n
    } else if editable_row(t, i, c) {
        i
    } else {
        next_edited_row(t, c, i + 1, n)
    }
}

/// The edit that follows those of the rows before row `i` belongs to the
/// first row from `i` on that takes one.
pub proof fn lemma_next_edit(t: TableView, c: int, ch: ColumnChange, i: int, n: int)
    requires
        0 <= i <= n,
        edits_before(t, c, ch, i) < edits_before(t, c, ch, n),
    ensures
        i <= next_edited_row(t, c, i, n) < n,
        editable_row(t, next_edited_row(t, c, i, n), c),
        change_edits_upto(t, c, ch, n)[edits_before(t, c, ch, i)] == change_edit(
            t,
            next_edited_row(t, c, i, n),
            c,
            ch,
        ),
    decreases n - i,
{
    if i == n {
    } else {
        lemma_edit_of_row(t, c, ch, i, n);
        if !editable_row(t, i, c) {
            lemma_next_edit(t, c, ch, i + 1, n);
        }
    }
}

/// Where an added column's edit sits in its row, and what it inserts:
/// one delimiter at a cell start, or at the row end for a right-hand add
/// to the last column.
pub proof fn lemma_add_edit_at(b: Seq<u8>, dialect: Dialect, c: int, ch: ColumnChange, r: int)
    requires
        b.len() <= usize::MAX,
        adds_column(ch),
        0 <= r < spec_parse(b, dialect).rows.len(),
        editable_row(spec_parse(b, dialect), r, c),
    ensures
        ({
            let t = spec_parse(b, dialect);
            let row = t.rows[r];
            let cs = row.cells;
            let d = delimiter_of(dialect);
            let ed = change_edit(t, r, c, ch);
            let x = ed.0.start as int;
            &&& ed.0.end == ed.0.start
            &&& ed.1 == seq![d]
            &&& row.span.start <= x <= row.span.end <= b.len()
            &&& ch == ColumnChange::AddLeft ==> x == cs[c].span.start
            &&& ch == ColumnChange::AddRight && c + 1 < cs.len() ==> x < b.len() && b[x] == d && x + 1
                == cs[c + 1].span.start
            &&& ch == ColumnChange::AddRight && c + 1 == cs.len() ==> x == row.span.end
        }),
{
    let t = spec_parse(b, dialect);
    let d = delimiter_of(dialect);
    crate::wellformed::law_parse_sound(b, dialect);
    let row = t.rows[r];
    assert(t.rows[r] == row);
    let cs = row.cells;
    assert(crate::wellformed::cells_tile(b, d, cs, row.span.start as int, row.span.end as int));
    assert(cs[c] == cs[c]);
    if c + 1 < cs.len() {
        assert(crate::wellformed::cells_adjacent(b, d, cs, c));
    }
    crate::reparse::lemma_row_within(b, dialect, r);
}

/// Reading the changed text from `q` as row `i` alongside the source from
/// `p`: the changed text from `q` on is the source from `p` on with the
/// edits of rows `i..` applied.
#[verifier::opaque]
pub open spec fn add_state(
    b: Seq<u8>,
    dialect: Dialect,
    c: int,
    ch: ColumnChange,
    i: int,
    p: int,
    ltb: Option<LineTerminator>,
    ewnb: bool,
    q: int,
) -> bool {
    let t = spec_parse(b, dialect);
    let es = column_edits(t, c, ch);
    let b2 = changed_text(b, dialect, c, ch);
    &&& source_from(b, dialect, i, p, ltb, ewnb)
    &&& p <= b.len()
    &&& 0 <= q <= b2.len()
    &&& b2.subrange(q, b2.len() as int) == applied_from(b, es, edits_before(t, c, ch, i), p)
}

/// The next edit after row `i`'s comes no earlier than the next row.
proof fn lemma_next_edit_later(
    b: Seq<u8>,
    dialect: Dialect,
    c: int,
    ch: ColumnChange,
    i: int,
    p: int,
    ltb: Option<LineTerminator>,
    ewnb: bool,
)
    requires
        b.len() <= usize::MAX,
        adds_column(ch),
        source_from(b, dialect, i, p, ltb, ewnb),
        i < spec_parse(b, dialect).rows.len(),
    ensures
        ({
            let t = spec_parse(b, dialect);
            let d = delimiter_of(dialect);
            let es = column_edits(t, c, ch);
            let k = edits_before(t, c, ch, i + 1);
            let e = parse_cells(b, d, p, i).1;
            let next = e + terminator_len(b, e);
            &&& 0 <= k <= es.len()
            &&& k < es.len() ==> next <= es[k].0.start <= b.len() && next < b.len() && es[k].1 == seq![d]
                && es[k].0.end == es[k].0.start
        }),
{
    let t = spec_parse(b, dialect);
    let n = t.rows.len() as int;
    let d = delimiter_of(dialect);
    let es = column_edits(t, c, ch);
    let k = edits_before(t, c, ch, i + 1);
    crate::reparse::lemma_source_bounds(b, dialect, i, p, ltb, ewnb);
    lemma_edits_prefix(t, c, ch, i + 1, n);
    lemma_source_step(b, dialect, i, p, ltb, ewnb);
    if k < es.len() {
        lemma_next_edit(t, c, ch, i + 1, n);
        let r = next_edited_row(t, c, i + 1, n);
        lemma_add_edit_at(b, dialect, c, ch, r);
        let rc = parse_cells(b, d, p, i);
        let e = rc.1;
        let tl = terminator_len(b, e);
        let next = e + tl;
        let lt2 = if ltb is Some {
            ltb
        } else {
            terminator_kind(b, e)
        };
        let ewn2 = tl > 0 && next == b.len();
        lemma_source_step(b, dialect, i + 1, next, lt2, ewn2);
        lemma_later_rows(b, dialect, i, r);
    }
}

/// What applying the edits from the `k`-th on and copying from `x` starts
/// with, `k` counting the edits of the rows before row `i`: nothing only
/// at the end of the text with no edits left; otherwise the byte at `x`,
/// or a delimiter when an edit comes first.
proof fn lemma_add_front(b: Seq<u8>, dialect: Dialect, c: int, ch: ColumnChange, i: int, x: int)
    requires
        b.len() <= usize::MAX,
        adds_column(ch),
        0 <= i <= spec_parse(b, dialect).rows.len(),
        0 <= x <= b.len(),
        edits_before(spec_parse(b, dialect), c, ch, i) < column_edits(spec_parse(b, dialect), c, ch).len() ==> x
            <= column_edits(spec_parse(b, dialect), c, ch)[edits_before(spec_parse(b, dialect), c, ch, i)].0.start,
    ensures
        ({
            let t = spec_parse(b, dialect);
            let es = column_edits(t, c, ch);
            let k = edits_before(t, c, ch, i);
            let a = applied_from(b, es, k, x);
            &&& 0 <= k <= es.len()
            &&& k == es.len() ==> a == b.subrange(x, b.len() as int)
            &&& k < es.len() ==> a.len() > 0 && es[k].0.start <= b.len()
            &&& a.len() > 0 && x < b.len() && (k == es.len() || x < es[k].0.start) ==> a[0] == b[x]
            &&& a.len() > 0 && k < es.len() && x == es[k].0.start ==> a[0] == delimiter_of(dialect)
        }),
{
    let t = spec_parse(b, dialect);
    let n = t.rows.len() as int;
    let es = column_edits(t, c, ch);
    let k = edits_before(t, c, ch, i);
    lemma_edits_prefix(t, c, ch, i, n);
    let a = applied_from(b, es, k, x);
    if k < es.len() {
        lemma_next_edit(t, c, ch, i, n);
        let r = next_edited_row(t, c, i, n);
        lemma_add_edit_at(b, dialect, c, ch, r);
        let st = es[k].0.start as int;
        let rest = applied_from(b, es, k + 1, es[k].0.end as int);
        assert(a == b.subrange(x, st) + es[k].1 + rest);
        if x < st {
            assert(a[0] == b.subrange(x, st)[0]);
        } else {
            assert(b.subrange(x, st).len() == 0);
            assert(a[0] == es[k].1[0]);
        }
    }
}

/// Where a row without an edit sits in the changed text: its bytes and
/// terminator copied, then the rest of the changed text.
#[verifier::spinoff_prover]
#[verifier::rlimit(60)]
proof fn lemma_plain_layout(
    b: Seq<u8>,
    dialect: Dialect,
    c: int,
    ch: ColumnChange,
    i: int,
    p: int,
    ltb: Option<LineTerminator>,
    ewnb: bool,
    q: int,
)
    requires
        b.len() <= usize::MAX,
        changed_text(b, dialect, c, ch).len() <= usize::MAX,
        adds_column(ch),
        add_state(b, dialect, c, ch, i, p, ltb, ewnb, q),
        i < spec_parse(b, dialect).rows.len(),
        !editable_row(spec_parse(b, dialect), i, c),
    ensures
        ({
            let t = spec_parse(b, dialect);
            let d = delimiter_of(dialect);
            let es = column_edits(t, c, ch);
            let k = edits_before(t, c, ch, i);
            let b2 = changed_text(b, dialect, c, ch);
            let e = parse_cells(b, d, p, i).1;
            let next = e + terminator_len(b, e);
            let a2 = applied_from(b, es, k, next);
            &&& edits_before(t, c, ch, i + 1) == k
            &&& 0 <= p < next <= b.len()
            &&& 0 <= q
            &&& b2.len() == q + (next - p) + a2.len()
            &&& forall|j: int| 0 <= j < next - p ==> #[trigger] b2[q + j] == b[p + j]
            &&& b2.subrange(q + (next - p), b2.len() as int) == a2
            &&& next == b.len() ==> a2.len() == 0
            &&& next < b.len() ==> a2.len() > 0
            &&& a2.len() > 0 && terminator_len(b, e) == 1 && b[e] == CR ==> a2[0] != LF
        }),
{
    reveal(add_state);
    let t = spec_parse(b, dialect);
    let n = t.rows.len() as int;
    let d = delimiter_of(dialect);
    let es = column_edits(t, c, ch);
    let b2 = changed_text(b, dialect, c, ch);
    crate::reparse::lemma_source_bounds(b, dialect, i, p, ltb, ewnb);
    lemma_source_step(b, dialect, i, p, ltb, ewnb);
    crate::reparse::lemma_delimiter_plain(dialect);
    lemma_edit_of_row(t, c, ch, i, n);
    let k = edits_before(t, c, ch, i);
    let rc = parse_cells(b, d, p, i);
    let e = rc.1;
    let tl = terminator_len(b, e);
    let next = e + tl;
    lemma_next_edit_later(b, dialect, c, ch, i, p, ltb, ewnb);
    lemma_applied_skip(b, es, k, p, next);
    let a2 = applied_from(b, es, k, next);
    lemma_add_front(b, dialect, c, ch, i + 1, next);
    let whole = b2.subrange(q, b2.len() as int);
    assert(whole == b.subrange(p, next) + a2);
    assert(whole.len() == b2.len() - q);
    assert forall|j: int| 0 <= j < next - p implies #[trigger] b2[q + j] == b[p + j] by {
        assert(whole[j] == b2[q + j]);
        assert(whole[j] == b.subrange(p, next)[j]);
    }
    assert(b2.subrange(q + (next - p), b2.len() as int) =~= a2) by {
        assert forall|j: int| 0 <= j < a2.len() implies b2.subrange(q + (next - p), b2.len() as int)[j] == a2[j] by {
            assert(whole[(next - p) + j] == a2[j]);
        }
    }
    if a2.len() > 0 && next < b.len() && (k == es.len() || next < es[k].0.start) {
        assert(a2[0] == b[next]);
    }
}

/// Where a row with an edit sits in the changed text: its bytes up to the
/// edit, one delimiter, the rest of its bytes and its terminator, then
/// the rest of the changed text.
#[verifier::spinoff_prover]
#[verifier::rlimit(60)]
proof fn lemma_edited_layout(
    b: Seq<u8>,
    dialect: Dialect,
    c: int,
    ch: ColumnChange,
    i: int,
    p: int,
    ltb: Option<LineTerminator>,
    ewnb: bool,
    q: int,
)
    requires
        b.len() <= usize::MAX,
        changed_text(b, dialect, c, ch).len() <= usize::MAX,
        adds_column(ch),
        add_state(b, dialect, c, ch, i, p, ltb, ewnb, q),
        i < spec_parse(b, dialect).rows.len(),
        editable_row(spec_parse(b, dialect), i, c),
    ensures
        ({
            let t = spec_parse(b, dialect);
            let d = delimiter_of(dialect);
            let es = column_edits(t, c, ch);
            let k = edits_before(t, c, ch, i);
            let b2 = changed_text(b, dialect, c, ch);
            let e = parse_cells(b, d, p, i).1;
            let next = e + terminator_len(b, e);
            let x = change_edit(t, i, c, ch).0.start as int;
            let a2 = applied_from(b, es, k + 1, next);
            &&& edits_before(t, c, ch, i + 1) == k + 1
            &&& 0 <= p <= x <= e
            &&& p < next <= b.len()
            &&& 0 <= q
            &&& b2.len() == q + (next - p) + 1 + a2.len()
            &&& forall|j: int| 0 <= j < x - p ==> #[trigger] b2[q + j] == b[p + j]
            &&& b2[q + (x - p)] == d
            &&& forall|j: int| 0 <= j < next - x ==> #[trigger] b2[q + (x - p) + 1 + j] == b[x + j]
            &&& b2.subrange(q + (next - p) + 1, b2.len() as int) == a2
            &&& next == b.len() ==> a2.len() == 0
            &&& next < b.len() ==> a2.len() > 0
            &&& a2.len() > 0 && terminator_len(b, e) == 1 && b[e] == CR ==> a2[0] != LF
        }),
{
    reveal(add_state);
    let t = spec_parse(b, dialect);
    let n = t.rows.len() as int;
    let d = delimiter_of(dialect);
    let es = column_edits(t, c, ch);
    let b2 = changed_text(b, dialect, c, ch);
    crate::reparse::lemma_source_bounds(b, dialect, i, p, ltb, ewnb);
    lemma_source_step(b, dialect, i, p, ltb, ewnb);
    crate::reparse::lemma_delimiter_plain(dialect);
    lemma_edit_of_row(t, c, ch, i, n);
    let k = edits_before(t, c, ch, i);
    lemma_add_edit_at(b, dialect, c, ch, i);
    let rc = parse_cells(b, d, p, i);
    let e = rc.1;
    let tl = terminator_len(b, e);
    let next = e + tl;
    let ed = es[k];
    let x = ed.0.start as int;
    lemma_next_edit_later(b, dialect, c, ch, i, p, ltb, ewnb);
    let mid = applied_from(b, es, k + 1, x);
    assert(applied_from(b, es, k, p) == b.subrange(p, x) + seq![d] + mid);
    lemma_applied_skip(b, es, k + 1, x, next);
    let a2 = applied_from(b, es, k + 1, next);
    lemma_add_front(b, dialect, c, ch, i + 1, next);
    let whole = b2.subrange(q, b2.len() as int);
    assert(whole == b.subrange(p, x) + seq![d] + (b.subrange(x, next) + a2));
    assert(whole.len() == b2.len() - q);
    assert forall|j: int| 0 <= j < x - p implies #[trigger] b2[q + j] == b[p + j] by {
        assert(whole[j] == b2[q + j]);
    }
    assert(whole[x - p] == b2[q + (x - p)]);
    assert forall|j: int| 0 <= j < next - x implies #[trigger] b2[q + (x - p) + 1 + j] == b[x + j] by {
        assert(whole[(x - p) + 1 + j] == b2[q + (x - p) + 1 + j]);
    }
    assert(b2.subrange(q + (next - p) + 1, b2.len() as int) =~= a2) by {
        assert forall|j: int| 0 <= j < a2.len() implies b2.subrange(q + (next - p) + 1, b2.len() as int)[j]
            == a2[j] by {
            assert(whole[(x - p) + 1 + (next - x) + j] == a2[j]);
        }
    }
    let k1 = edits_before(t, c, ch, i + 1);
    if a2.len() > 0 && next < b.len() && (k1 == es.len() || next < es[k1].0.start) {
        assert(a2[0] == b[next]);
    }
}

/// Where an added column's new cell stands in its row: at `c` for a
/// left-hand add, at `c + 1` for a right-hand one.
pub open spec fn new_cell_index(c: int, ch: ColumnChange) -> int {
    if ch == ColumnChange::AddLeft {
        c
    } else {
        c + 1
    }
}

/// The cells of a row with one delimiter inserted (at a cell start, just
/// after a delimiter, or at the row end): one more than before, no
/// errors, and the row ends one byte later.
proof fn lemma_edited_cells(
    b: Seq<u8>,
    b2: Seq<u8>,
    d: u8,
    p: int,
    q: int,
    x: int,
    e: int,
    c: int,
    ch: ColumnChange,
    i: int,
)
    requires
        0 <= p <= x <= e <= b.len(),
        0 <= q,
        b.len() <= usize::MAX,
        b2.len() <= usize::MAX,
        d != CR,
        d != LF,
        d != SPACE,
        d != QUOTE,
        adds_column(ch),
        parse_cells(b, d, p, i).1 == e,
        parse_cells(b, d, p, i).2.len() == 0,
        0 <= c < parse_cells(b, d, p, i).0.len(),
        ch == ColumnChange::AddLeft ==> x == parse_cells(b, d, p, i).0[c].span.start,
        ch == ColumnChange::AddRight && c + 1 < parse_cells(b, d, p, i).0.len() ==> x < b.len() && b[x] == d
            && x + 1 == parse_cells(b, d, p, i).0[c + 1].span.start,
        ch == ColumnChange::AddRight && c + 1 == parse_cells(b, d, p, i).0.len() ==> x == e,
        forall|j: int| 0 <= j < x - p ==> #[trigger] b2[q + j] == b[p + j],
        q + (e - p) + 1 <= b2.len(),
        b2[q + (x - p)] == d,
        forall|j: int| 0 <= j < e - x ==> #[trigger] b2[q + (x - p) + 1 + j] == b[x + j],
        e < b.len() ==> q + (e - p) + 1 < b2.len() && b2[q + (e - p) + 1] == b[e],
        e == b.len() ==> b2.len() == q + (e - p) + 1,
    ensures
        ({
            let rc = parse_cells(b, d, p, i);
            let rc2 = parse_cells(b2, d, q, i);
            let jj = new_cell_index(c, ch);
            &&& rc2.0.len() == rc.0.len() + 1
            &&& rc2.1 == q + (e - p) + 1
            &&& rc2.2.len() == 0
            &&& forall|k: int| 0 <= k < jj ==> #[trigger] rc2.0[k] == shift_cell(rc.0[k], q - p)
            &&& rc2.0[jj].quoting == Quoting::Unquoted
            &&& rc2.0[jj].content_span.start == rc2.0[jj].content_span.end <= b2.len()
            &&& ch == ColumnChange::AddRight ==> rc2.0[jj].span.end == q + (x - p) + 1
            &&& forall|k: int| jj <= k < rc.0.len() ==> #[trigger] rc2.0[k + 1] == shift_cell(rc.0[k], q - p + 1)
        }),
{
    let rc = parse_cells(b, d, p, i);
    let cs = rc.0;
    lemma_parse_cells(b, d, p, i);
    if ch == ColumnChange::AddRight && c + 1 == cs.len() {
        assert(same_bytes(b, p, b2, q, e - p)) by {
            assert forall|j: int| 0 <= j < e - p implies #[trigger] b[p + j] == b2[q + j] by {}
        }
        assert(b2[q + (e - p) + 0] == d);
        crate::reparse::lemma_padded_cells(b, p, b2, q, e - p, p, 1, d, i);
        lemma_last_cell_end(b2, d, q, i);
    } else {
        let x1 = if ch == ColumnChange::AddLeft {
            x
        } else {
            x + 1
        };
        let j1 = if ch == ColumnChange::AddLeft {
            c
        } else {
            c + 1
        };
        assert(cs[j1].span.start == x1);
        if ch == ColumnChange::AddRight {
            assert(b2[q + (x - p) + 1 + 0] == b[x + 0]);
        }
        assert(same_bytes(b, p, b2, q, x1 - p)) by {
            assert forall|j: int| 0 <= j < x1 - p implies #[trigger] b[p + j] == b2[q + j] by {
                if j == x - p {
                    assert(b2[q + (x - p)] == d);
                }
            }
        }
        assert(b2[q + (x1 - p)] == d);
        lemma_cell_starts_from(b, d, p, i, j1);
        assert(same_row(b, x1, b2, q + (x1 - p) + 1, e - x1)) by {
            assert forall|j: int| 0 <= j < e - x1 implies #[trigger] b[x1 + j] == b2[(q + (x1 - p) + 1) + j] by {
                assert(b2[q + (x - p) + 1 + (x1 - x + j)] == b[x + (x1 - x + j)]);
            }
            if e < b.len() {
                assert(q + (x1 - p) + 1 + (e - x1) == q + (e - p) + 1);
            }
        }
        lemma_inserted_cells(b, p, b2, q, x1, e, p, j1, d, i);
    }
}

/// A row without an edit reads the same in the changed text, moved, and
/// reading goes on from the same place after it.
#[verifier::spinoff_prover]
#[verifier::rlimit(100)]
proof fn lemma_step_plain(
    b: Seq<u8>,
    dialect: Dialect,
    c: int,
    ch: ColumnChange,
    i: int,
    p: int,
    ltb: Option<LineTerminator>,
    ewnb: bool,
    q: int,
)
    requires
        b.len() <= usize::MAX,
        changed_text(b, dialect, c, ch).len() <= usize::MAX,
        adds_column(ch),
        add_state(b, dialect, c, ch, i, p, ltb, ewnb, q),
        i < spec_parse(b, dialect).rows.len(),
        !editable_row(spec_parse(b, dialect), i, c),
    ensures
        ({
            let d = delimiter_of(dialect);
            let b2 = changed_text(b, dialect, c, ch);
            let rc = parse_cells(b, d, p, i);
            let e = rc.1;
            let next = e + terminator_len(b, e);
            let lt2 = if ltb is Some {
                ltb
            } else {
                terminator_kind(b, e)
            };
            let ewn2 = terminator_len(b, e) > 0 && next == b.len();
            let e2 = q + (e - p);
            let next2 = q + (next - p);
            let rc2 = parse_cells(b2, d, q, i);
            let rest = parse_rows(b2, d, next2, i + 1, lt2, ewn2);
            &&& rc2 == (shift_cells(rc.0, q - p), e2, shift_errors(rc.2, q - p))
            &&& parse_rows(b2, d, q, i, ltb, ewnb) == (
                seq![RowView { span: span_of(q, e2), cells: rc2.0 }] + rest.0,
                rc2.2 + rest.1,
                rest.2,
                rest.3,
            )
            &&& add_state(b, dialect, c, ch, i + 1, next, lt2, ewn2, next2)
        }),
{
    reveal(add_state);
    let t = spec_parse(b, dialect);
    let d = delimiter_of(dialect);
    let es = column_edits(t, c, ch);
    let b2 = changed_text(b, dialect, c, ch);
    crate::reparse::lemma_source_bounds(b, dialect, i, p, ltb, ewnb);
    lemma_source_step(b, dialect, i, p, ltb, ewnb);
    lemma_plain_layout(b, dialect, c, ch, i, p, ltb, ewnb, q);
    crate::reparse::lemma_delimiter_plain(dialect);
    let rc = parse_cells(b, d, p, i);
    lemma_parse_cells(b, d, p, i);
    let e = rc.1;
    let tl = terminator_len(b, e);
    let next = e + tl;
    let k = edits_before(t, c, ch, i);
    let a2 = applied_from(b, es, k, next);
    let e2 = q + (e - p);
    assert(same_row(b, p, b2, q, e - p)) by {
        assert forall|j: int| 0 <= j < e - p implies #[trigger] b[p + j] == b2[q + j] by {}
        if e < b.len() {
            assert(b2[q + (e - p)] == b[p + (e - p)]);
        }
    }
    lemma_cells_local(b, p, b2, q, e - p, p, d, i);
    lemma_rows_step(b2, d, q, i, ltb, ewnb);
    if a2.len() > 0 {
        assert(b2[q + (next - p)] == a2[0]);
    }
    assert forall|j: int| 0 <= j < tl implies #[trigger] b2[e2 + j] == b[e + j] by {
        assert(b2[q + (e - p + j)] == b[p + (e - p + j)]);
    }
    lemma_term_same(b, e, b2, e2);
    reveal(add_state);
}

/// A row with an edit reads in the changed text as its cells and one more
/// empty one, with no errors, and reading goes on after the delimiter.
#[verifier::spinoff_prover]
#[verifier::rlimit(100)]
proof fn lemma_step_edited(
    b: Seq<u8>,
    dialect: Dialect,
    c: int,
    ch: ColumnChange,
    i: int,
    p: int,
    ltb: Option<LineTerminator>,
    ewnb: bool,
    q: int,
)
    requires
        b.len() <= usize::MAX,
        changed_text(b, dialect, c, ch).len() <= usize::MAX,
        adds_column(ch),
        add_state(b, dialect, c, ch, i, p, ltb, ewnb, q),
        i < spec_parse(b, dialect).rows.len(),
        editable_row(spec_parse(b, dialect), i, c),
    ensures
        ({
            let d = delimiter_of(dialect);
            let b2 = changed_text(b, dialect, c, ch);
            let rc = parse_cells(b, d, p, i);
            let e = rc.1;
            let next = e + terminator_len(b, e);
            let lt2 = if ltb is Some {
                ltb
            } else {
                terminator_kind(b, e)
            };
            let ewn2 = terminator_len(b, e) > 0 && next == b.len();
            let e2 = q + (e - p) + 1;
            let next2 = q + (next - p) + 1;
            let rc2 = parse_cells(b2, d, q, i);
            let rest = parse_rows(b2, d, next2, i + 1, lt2, ewn2);
            &&& rc.2.len() == 0
            &&& rc2.0.len() == rc.0.len() + 1
            &&& rc2.1 == e2
            &&& rc2.2.len() == 0
            &&& ch == ColumnChange::AddRight ==> rc2.0[c].span.end == rc.0[c].span.end + (q - p)
                && rc2.0[c + 1].span.end == rc.0[c].span.end + (q - p) + 1
            &&& parse_rows(b2, d, q, i, ltb, ewnb) == (
                seq![RowView { span: span_of(q, e2), cells: rc2.0 }] + rest.0,
                rc2.2 + rest.1,
                rest.2,
                rest.3,
            )
            &&& add_state(b, dialect, c, ch, i + 1, next, lt2, ewn2, next2)
        }),
{
    reveal(add_state);
    let t = spec_parse(b, dialect);
    let d = delimiter_of(dialect);
    let es = column_edits(t, c, ch);
    let b2 = changed_text(b, dialect, c, ch);
    crate::reparse::lemma_source_bounds(b, dialect, i, p, ltb, ewnb);
    lemma_source_step(b, dialect, i, p, ltb, ewnb);
    lemma_edited_layout(b, dialect, c, ch, i, p, ltb, ewnb, q);
    lemma_add_edit_at(b, dialect, c, ch, i);
    crate::reparse::lemma_delimiter_plain(dialect);
    let rc = parse_cells(b, d, p, i);
    lemma_parse_cells(b, d, p, i);
    let e = rc.1;
    let tl = terminator_len(b, e);
    let next = e + tl;
    let k = edits_before(t, c, ch, i);
    let a2 = applied_from(b, es, k + 1, next);
    let x = change_edit(t, i, c, ch).0.start as int;
    let cs = rc.0;
    assert(t.rows[i].cells == cs);
    let e2 = q + (e - p) + 1;
    if e < b.len() {
        assert(b2[q + (x - p) + 1 + (e - x)] == b[x + (e - x)]);
    }
    assert forall|j: int| 0 <= j < e - x implies #[trigger] b2[q + (x - p) + 1 + j] == b[x + j] by {}
    lemma_edited_cells(b, b2, d, p, q, x, e, c, ch, i);
    if ch == ColumnChange::AddRight {
        let rc2 = parse_cells(b2, d, q, i);
        assert(rc2.0[c] == shift_cell(cs[c], q - p));
        assert(x == cs[c].span.end);
        crate::reparse::lemma_row_within(b, dialect, i);
        crate::reparse::lemma_content_within(b, dialect, i, c);
        assert(0 <= cs[c].span.end + (q - p) <= usize::MAX) by {
            assert(b2[q + (x - p)] == d);
        }
    }
    lemma_rows_step(b2, d, q, i, ltb, ewnb);
    if a2.len() > 0 {
        assert(b2[q + (next - p) + 1] == a2[0]);
    }
    assert forall|j: int| 0 <= j < tl implies #[trigger] b2[e2 + j] == b[e + j] by {
        assert(b2[q + (x - p) + 1 + (e - x + j)] == b[x + (e - x + j)]);
    }
    lemma_term_same(b, e, b2, e2);
    reveal(add_state);
}

/// The values of a row after a column is added: a row that takes part
/// has a new unquoted empty cell at [`new_cell_index`], with its other
/// cells (values and quoting) before and after it as they were; any other
/// row keeps every cell.
pub open spec fn added_values(
    b: Seq<u8>,
    t: TableView,
    x: int,
    c: int,
    ch: ColumnChange,
    b2: Seq<u8>,
    r: RowView,
    r2: RowView,
) -> bool {
    let jj = new_cell_index(c, ch);
    if editable_row(t, x, c) {
        &&& r2.cells[jj].quoting == Quoting::Unquoted
        &&& cell_value(b2, r2.cells[jj]) == Seq::<u8>::empty()
        &&& forall|y: int|
            0 <= y < jj ==> cell_value(b2, #[trigger] r2.cells[y]) == cell_value(b, r.cells[y]) && r2.cells[y].quoting
                == r.cells[y].quoting
        &&& forall|y: int|
            jj <= y < r.cells.len() ==> cell_value(b2, #[trigger] r2.cells[y + 1]) == cell_value(b, r.cells[y])
                && r2.cells[y + 1].quoting == r.cells[y].quoting
    } else {
        forall|y: int|
            0 <= y < r.cells.len() ==> cell_value(b2, #[trigger] r2.cells[y]) == cell_value(b, r.cells[y])
                && r2.cells[y].quoting == r.cells[y].quoting
    }
}

/// Cells moved along with their bytes keep their values and quoting.
pub proof fn lemma_values_moved(b: Seq<u8>, b2: Seq<u8>, cs: Seq<Cell>, cs2: Seq<Cell>, from: int, to: int, k: int, dl: int, lo: int, hi: int)
    requires
        0 <= lo <= hi <= b.len(),
        0 <= lo + dl,
        hi + dl <= b2.len(),
        b2.len() <= usize::MAX,
        0 <= from <= to <= cs.len(),
        to + k <= cs2.len(),
        forall|z: int| lo <= z < hi ==> #[trigger] b2[z + dl] == b[z],
        forall|y: int|
            from <= y < to ==> lo <= (#[trigger] cs[y]).content_span.start <= cs[y].content_span.end <= hi && cs2[y
                + k] == shift_cell(cs[y], dl),
    ensures
        forall|y: int|
            from <= y < to ==> cell_value(b2, #[trigger] cs2[y + k]) == cell_value(b, cs[y]) && cs2[y + k].quoting
                == cs[y].quoting,
{
    assert forall|y: int| from <= y < to implies cell_value(b2, #[trigger] cs2[y + k]) == cell_value(b, cs[y])
        && cs2[y + k].quoting == cs[y].quoting by {
        let cy = cs[y];
        assert(lo <= cy.content_span.start);
        assert forall|z: int| cy.content_span.start <= z < cy.content_span.end implies #[trigger] b2[z + dl]
            == b[z] by {}
        crate::quoting::lemma_shifted_value(b, b2, cy, dl);
    }
}

/// The values of a row with an edit, read in the changed text.
#[verifier::spinoff_prover]
#[verifier::rlimit(100)]
proof fn lemma_added_values(
    b: Seq<u8>,
    dialect: Dialect,
    c: int,
    ch: ColumnChange,
    i: int,
    p: int,
    ltb: Option<LineTerminator>,
    ewnb: bool,
    q: int,
)
    requires
        b.len() <= usize::MAX,
        changed_text(b, dialect, c, ch).len() <= usize::MAX,
        adds_column(ch),
        add_state(b, dialect, c, ch, i, p, ltb, ewnb, q),
        i < spec_parse(b, dialect).rows.len(),
        editable_row(spec_parse(b, dialect), i, c),
    ensures
        ({
            let t = spec_parse(b, dialect);
            let d = delimiter_of(dialect);
            let b2 = changed_text(b, dialect, c, ch);
            let e = parse_cells(b, d, p, i).1;
            added_values(
                b,
                t,
                i,
                c,
                ch,
                b2,
                t.rows[i],
                RowView { span: span_of(q, q + (e - p) + 1), cells: parse_cells(b2, d, q, i).0 },
            )
        }),
{
    reveal(add_state);
    let t = spec_parse(b, dialect);
    let d = delimiter_of(dialect);
    let b2 = changed_text(b, dialect, c, ch);
    crate::reparse::lemma_source_bounds(b, dialect, i, p, ltb, ewnb);
    lemma_source_step(b, dialect, i, p, ltb, ewnb);
    lemma_edited_layout(b, dialect, c, ch, i, p, ltb, ewnb, q);
    lemma_add_edit_at(b, dialect, c, ch, i);
    crate::reparse::lemma_delimiter_plain(dialect);
    let rc = parse_cells(b, d, p, i);
    lemma_parse_cells(b, d, p, i);
    let e = rc.1;
    let x = change_edit(t, i, c, ch).0.start as int;
    let cs = rc.0;
    assert(t.rows[i].cells == cs);
    if e < b.len() {
        assert(b2[q + (x - p) + 1 + (e - x)] == b[x + (e - x)]);
    }
    assert forall|j: int| 0 <= j < e - x implies #[trigger] b2[q + (x - p) + 1 + j] == b[x + j] by {}
    lemma_edited_cells(b, b2, d, p, q, x, e, c, ch, i);
    let cs2 = parse_cells(b2, d, q, i).0;
    let jj = new_cell_index(c, ch);
    lemma_cell_places(b, dialect, c, ch, i);
    lemma_values_split(b, b2, cs, cs2, jj, p, q, x, e);
}

/// The values of a row's cells around a new empty cell, from where its
/// bytes went.
#[verifier::spinoff_prover]
proof fn lemma_values_split(
    b: Seq<u8>,
    b2: Seq<u8>,
    cs: Seq<Cell>,
    cs2: Seq<Cell>,
    jj: int,
    p: int,
    q: int,
    x: int,
    e: int,
)
    requires
        0 <= p <= x <= e <= b.len(),
        0 <= q,
        q + (e - p) + 1 <= b2.len(),
        b2.len() <= usize::MAX,
        cs2.len() == cs.len() + 1,
        0 <= jj <= cs.len(),
        forall|z: int| 0 <= z < x - p ==> #[trigger] b2[q + z] == b[p + z],
        forall|z: int| 0 <= z < e - x ==> #[trigger] b2[q + (x - p) + 1 + z] == b[x + z],
        forall|y: int|
            0 <= y < jj ==> p <= (#[trigger] cs[y]).content_span.start <= cs[y].content_span.end <= x,
        forall|y: int|
            jj <= y < cs.len() ==> x <= (#[trigger] cs[y]).content_span.start <= cs[y].content_span.end <= e,
        forall|k: int| 0 <= k < jj ==> #[trigger] cs2[k] == shift_cell(cs[k], q - p),
        forall|k: int| jj <= k < cs.len() ==> #[trigger] cs2[k + 1] == shift_cell(cs[k], q - p + 1),
        cs2[jj].quoting == Quoting::Unquoted,
        cs2[jj].content_span.start == cs2[jj].content_span.end <= b2.len(),
    ensures
        cell_value(b2, cs2[jj]) == Seq::<u8>::empty(),
        forall|y: int|
            0 <= y < jj ==> cell_value(b2, #[trigger] cs2[y]) == cell_value(b, cs[y]) && cs2[y].quoting
                == cs[y].quoting,
        forall|y: int|
            jj <= y < cs.len() ==> cell_value(b2, #[trigger] cs2[y + 1]) == cell_value(b, cs[y]) && cs2[y
                + 1].quoting == cs[y].quoting,
{
    let delta = q - p;
    assert forall|z: int| p <= z < x implies #[trigger] b2[z + delta] == b[z] by {
        assert(b2[q + (z - p)] == b[p + (z - p)]);
    }
    assert forall|z: int| x <= z < e implies #[trigger] b2[z + (delta + 1)] == b[z] by {
        assert(b2[q + (x - p) + 1 + (z - x)] == b[x + (z - x)]);
    }
    assert forall|y: int| 0 <= y < jj implies p <= (#[trigger] cs[y]).content_span.start <= cs[y].content_span.end
        <= x && cs2[y + 0] == shift_cell(cs[y], delta) by {}
    lemma_values_moved(b, b2, cs, cs2, 0, jj, 0, delta, p, x);
    assert forall|y: int| 0 <= y < jj implies #[trigger] cs2[y] == cs2[y + 0] by {}
    lemma_values_moved(b, b2, cs, cs2, jj, cs.len() as int, 1, delta + 1, x, e);
    assert(b2.subrange(cs2[jj].content_span.start as int, cs2[jj].content_span.end as int) =~= Seq::<u8>::empty());
}

/// Where the cells of a row that takes part stand against the edit: those
/// before the new cell's place have their content up to the edit, those
/// after it from the edit on.
proof fn lemma_cell_places(b: Seq<u8>, dialect: Dialect, c: int, ch: ColumnChange, i: int)
    requires
        b.len() <= usize::MAX,
        adds_column(ch),
        0 <= i < spec_parse(b, dialect).rows.len(),
        editable_row(spec_parse(b, dialect), i, c),
    ensures
        ({
            let t = spec_parse(b, dialect);
            let row = t.rows[i];
            let cs = row.cells;
            let x = change_edit(t, i, c, ch).0.start as int;
            let jj = new_cell_index(c, ch);
            &&& forall|y: int|
                0 <= y < jj ==> row.span.start <= (#[trigger] cs[y]).content_span.start <= cs[y].content_span.end
                    <= x
            &&& forall|y: int|
                jj <= y < cs.len() ==> x <= (#[trigger] cs[y]).content_span.start <= cs[y].content_span.end
                    <= row.span.end
        }),
{
    let t = spec_parse(b, dialect);
    let d = delimiter_of(dialect);
    let row = t.rows[i];
    let cs = row.cells;
    let x = change_edit(t, i, c, ch).0.start as int;
    let jj = new_cell_index(c, ch);
    lemma_add_edit_at(b, dialect, c, ch, i);
    crate::wellformed::law_parse_sound(b, dialect);
    crate::wellformed::lemma_parse_ordered(b, dialect);
    assert(t.rows[i] == row);
    assert(crate::wellformed::cells_tile(b, d, cs, row.span.start as int, row.span.end as int));
    assert forall|y: int| 0 <= y < jj implies row.span.start <= (#[trigger] cs[y]).content_span.start
        <= cs[y].content_span.end <= x by {
        assert(crate::wellformed::cell_sound(b, cs[y]));
        assert(cs[c] == cs[c]);
        if y < c {
            assert(t.rows[i].cells[y].span.end < t.rows[i].cells[c].span.start);
        }
    }
    assert forall|y: int| jj <= y < cs.len() implies x <= (#[trigger] cs[y]).content_span.start
        <= cs[y].content_span.end <= row.span.end by {
        assert(crate::wellformed::cell_sound(b, cs[y]));
        assert(cs[jj] == cs[jj]);
        assert(crate::wellformed::cell_sound(b, cs[jj]));
        if y > jj {
            assert(t.rows[i].cells[jj].span.end < t.rows[i].cells[y].span.start);
        }
    }
}

/// The rows of the changed text from `q` on are the source's rows from
/// `i` on, each with one more cell where it takes an edit: the same
/// number of rows, the same blankness, the same error kinds on the same
/// rows, and the same terminator state.
#[verifier::opaque]
pub open spec fn add_reads_from(
    b: Seq<u8>,
    dialect: Dialect,
    c: int,
    ch: ColumnChange,
    i: int,
    p: int,
    ltb: Option<LineTerminator>,
    ewnb: bool,
    q: int,
) -> bool {
    let t = spec_parse(b, dialect);
    let d = delimiter_of(dialect);
    let a = parse_rows(b, d, p, i, ltb, ewnb);
    let bb = parse_rows(changed_text(b, dialect, c, ch), d, q, i, ltb, ewnb);
    &&& bb.0.len() == a.0.len()
    &&& forall|j: int|
        0 <= j < bb.0.len() ==> {
            &&& (#[trigger] bb.0[j]).cells.len() == a.0[j].cells.len() + (if editable_row(t, i + j, c) {
                1int
            } else {
                0int
            })
            &&& row_is_blank(bb.0[j]) == row_is_blank(a.0[j])
        }
    &&& forall|j: int|
        0 <= j < bb.0.len() ==> added_values(b, t, i + j, c, ch, changed_text(b, dialect, c, ch), a.0[j], #[trigger] bb.0[j])
    &&& same_error_kinds(a.1, bb.1)
    &&& bb.2 == a.2
    &&& bb.3 == a.3
}

/// Past the last row, both readings are done.
proof fn lemma_add_end(
    b: Seq<u8>,
    dialect: Dialect,
    c: int,
    ch: ColumnChange,
    i: int,
    p: int,
    ltb: Option<LineTerminator>,
    ewnb: bool,
    q: int,
)
    requires
        b.len() <= usize::MAX,
        adds_column(ch),
        add_state(b, dialect, c, ch, i, p, ltb, ewnb, q),
        i == spec_parse(b, dialect).rows.len(),
    ensures
        add_reads_from(b, dialect, c, ch, i, p, ltb, ewnb, q),
{
    reveal(add_state);
    reveal(add_reads_from);
    reveal(source_from);
    let t = spec_parse(b, dialect);
    let d = delimiter_of(dialect);
    let b2 = changed_text(b, dialect, c, ch);
    let a = parse_rows(b, d, p, i, ltb, ewnb);
    if p < b.len() {
        lemma_rows_step(b, d, p, i, ltb, ewnb);
        assert(a.0.len() >= 1);
    }
    lemma_rows_done(b, d, p, i, ltb, ewnb);
    lemma_edits_prefix(t, c, ch, i, i);
    assert(b2.subrange(q, b2.len() as int).len() == 0);
    lemma_rows_done(b2, d, q, i, ltb, ewnb);
}

/// The rows from an edited row on read alike once the rows after it do.
#[verifier::spinoff_prover]
#[verifier::rlimit(60)]
proof fn lemma_cons_edited(
    b: Seq<u8>,
    dialect: Dialect,
    c: int,
    ch: ColumnChange,
    i: int,
    p: int,
    ltb: Option<LineTerminator>,
    ewnb: bool,
    q: int,
)
    requires
        b.len() <= usize::MAX,
        changed_text(b, dialect, c, ch).len() <= usize::MAX,
        adds_column(ch),
        add_state(b, dialect, c, ch, i, p, ltb, ewnb, q),
        i < spec_parse(b, dialect).rows.len(),
        editable_row(spec_parse(b, dialect), i, c),
        ({
            let e = parse_cells(b, delimiter_of(dialect), p, i).1;
            let next = e + terminator_len(b, e);
            let lt2 = if ltb is Some {
                ltb
            } else {
                terminator_kind(b, e)
            };
            let ewn2 = terminator_len(b, e) > 0 && next == b.len();
            add_reads_from(b, dialect, c, ch, i + 1, next, lt2, ewn2, q + (next - p) + 1)
        }),
    ensures
        add_reads_from(b, dialect, c, ch, i, p, ltb, ewnb, q),
{
    reveal(add_reads_from);
    let t = spec_parse(b, dialect);
    let d = delimiter_of(dialect);
    let b2 = changed_text(b, dialect, c, ch);
    let a = parse_rows(b, d, p, i, ltb, ewnb);
    let bb = parse_rows(b2, d, q, i, ltb, ewnb);
    lemma_source_step_of(b, dialect, c, ch, i, p, ltb, ewnb, q);
    lemma_source_step(b, dialect, i, p, ltb, ewnb);
    lemma_step_edited(b, dialect, c, ch, i, p, ltb, ewnb, q);
    let rc = parse_cells(b, d, p, i);
    let e = rc.1;
    let tl = terminator_len(b, e);
    let next = e + tl;
    let lt2 = if ltb is Some {
        ltb
    } else {
        terminator_kind(b, e)
    };
    let ewn2 = tl > 0 && next == b.len();
    let a2 = parse_rows(b, d, next, i + 1, lt2, ewn2);
    let rc2 = parse_cells(b2, d, q, i);
    let next2 = q + (next - p) + 1;
    let b2r = parse_rows(b2, d, next2, i + 1, lt2, ewn2);
    let row2 = RowView { span: span_of(q, q + (e - p) + 1), cells: rc2.0 };
    assert(bb.0 == seq![row2] + b2r.0);
    assert forall|j: int| 0 <= j < bb.0.len() implies {
        &&& (#[trigger] bb.0[j]).cells.len() == a.0[j].cells.len() + (if editable_row(t, i + j, c) {
            1int
        } else {
            0int
        })
        &&& row_is_blank(bb.0[j]) == row_is_blank(a.0[j])
    } by {
        if j > 0 {
            assert(bb.0[j] == b2r.0[j - 1]);
            assert(a.0[j] == a2.0[j - 1]);
            assert(i + 1 + (j - 1) == i + j);
        } else {
            assert(a.0[0] == t.rows[i]);
        }
    }
    lemma_added_values(b, dialect, c, ch, i, p, ltb, ewnb, q);
    assert forall|j: int| 0 <= j < bb.0.len() implies added_values(b, t, i + j, c, ch, b2, a.0[j], #[trigger] bb.0[j]) by {
        if j > 0 {
            assert(bb.0[j] == b2r.0[j - 1]);
            assert(a.0[j] == a2.0[j - 1]);
            assert(i + 1 + (j - 1) == i + j);
        } else {
            assert(a.0[0] == t.rows[i]);
        }
    }
    lemma_kinds_cons(rc.2, a2.1, rc2.2, b2r.1, q - p, false);
}

/// The rows from an unedited row on read alike once the rows after it do.
#[verifier::spinoff_prover]
#[verifier::rlimit(60)]
proof fn lemma_cons_plain(
    b: Seq<u8>,
    dialect: Dialect,
    c: int,
    ch: ColumnChange,
    i: int,
    p: int,
    ltb: Option<LineTerminator>,
    ewnb: bool,
    q: int,
)
    requires
        b.len() <= usize::MAX,
        changed_text(b, dialect, c, ch).len() <= usize::MAX,
        adds_column(ch),
        add_state(b, dialect, c, ch, i, p, ltb, ewnb, q),
        i < spec_parse(b, dialect).rows.len(),
        !editable_row(spec_parse(b, dialect), i, c),
        ({
            let e = parse_cells(b, delimiter_of(dialect), p, i).1;
            let next = e + terminator_len(b, e);
            let lt2 = if ltb is Some {
                ltb
            } else {
                terminator_kind(b, e)
            };
            let ewn2 = terminator_len(b, e) > 0 && next == b.len();
            add_reads_from(b, dialect, c, ch, i + 1, next, lt2, ewn2, q + (next - p))
        }),
    ensures
        add_reads_from(b, dialect, c, ch, i, p, ltb, ewnb, q),
{
    reveal(add_reads_from);
    let t = spec_parse(b, dialect);
    let d = delimiter_of(dialect);
    let b2 = changed_text(b, dialect, c, ch);
    let a = parse_rows(b, d, p, i, ltb, ewnb);
    let bb = parse_rows(b2, d, q, i, ltb, ewnb);
    lemma_source_step_of(b, dialect, c, ch, i, p, ltb, ewnb, q);
    lemma_source_step(b, dialect, i, p, ltb, ewnb);
    lemma_step_plain(b, dialect, c, ch, i, p, ltb, ewnb, q);
    let rc = parse_cells(b, d, p, i);
    let e = rc.1;
    let tl = terminator_len(b, e);
    let next = e + tl;
    let lt2 = if ltb is Some {
        ltb
    } else {
        terminator_kind(b, e)
    };
    let ewn2 = tl > 0 && next == b.len();
    let a2 = parse_rows(b, d, next, i + 1, lt2, ewn2);
    let rc2 = parse_cells(b2, d, q, i);
    let next2 = q + (next - p);
    let b2r = parse_rows(b2, d, next2, i + 1, lt2, ewn2);
    let row2 = RowView { span: span_of(q, q + (e - p)), cells: rc2.0 };
    assert(bb.0 == seq![row2] + b2r.0);
    lemma_parse_cells(b2, d, q, i);
    if rc.0.len() == 1 {
        crate::reparse::lemma_content_within(b, dialect, i, 0);
        assert(t.rows[i].cells == rc.0);
    }
    lemma_moved_blank(rc.0, q - p, p, e, span_of(p, e), row2.span);
    assert forall|j: int| 0 <= j < bb.0.len() implies {
        &&& (#[trigger] bb.0[j]).cells.len() == a.0[j].cells.len() + (if editable_row(t, i + j, c) {
            1int
        } else {
            0int
        })
        &&& row_is_blank(bb.0[j]) == row_is_blank(a.0[j])
    } by {
        if j > 0 {
            assert(bb.0[j] == b2r.0[j - 1]);
            assert(a.0[j] == a2.0[j - 1]);
            assert(i + 1 + (j - 1) == i + j);
        } else {
            assert(a.0[0] == t.rows[i]);
        }
    }
    let row = t.rows[i];
    assert(row == RowView { span: span_of(p, e), cells: rc.0 });
    assert forall|k: int| 0 <= k < row.cells.len() implies row.span.start <= (#[trigger] row.cells[k]).content_span.start
        <= row.cells[k].content_span.end <= row.span.end by {
        crate::reparse::lemma_content_within(b, dialect, i, k);
    }
    crate::reparse::lemma_row_within(b, dialect, i);
    lemma_plain_layout(b, dialect, c, ch, i, p, ltb, ewnb, q);
    assert(b2.subrange(q, q + (e - p)) =~= b.subrange(p, e)) by {
        assert forall|z: int| 0 <= z < e - p implies b2.subrange(q, q + (e - p))[z] == b.subrange(p, e)[z] by {
            assert(b2[q + z] == b[p + z]);
        }
    }
    crate::reparse::lemma_moved_values(b2, row2, b, row);
    assert forall|j: int| 0 <= j < bb.0.len() implies added_values(b, t, i + j, c, ch, b2, a.0[j], #[trigger] bb.0[j]) by {
        if j > 0 {
            assert(bb.0[j] == b2r.0[j - 1]);
            assert(a.0[j] == a2.0[j - 1]);
            assert(i + 1 + (j - 1) == i + j);
        } else {
            assert(a.0[0] == t.rows[i]);
            assert forall|y: int| 0 <= y < row.cells.len() implies (#[trigger] row2.cells[y]).quoting == row.cells[y].quoting by {
                assert(row2.cells[y] == shift_cell(row.cells[y], q - p));
            }
        }
    }
    lemma_kinds_cons(rc.2, a2.1, rc2.2, b2r.1, q - p, true);
}

/// The source reading inside a state, one row on.
proof fn lemma_source_step_of(
    b: Seq<u8>,
    dialect: Dialect,
    c: int,
    ch: ColumnChange,
    i: int,
    p: int,
    ltb: Option<LineTerminator>,
    ewnb: bool,
    q: int,
)
    requires
        b.len() <= usize::MAX,
        add_state(b, dialect, c, ch, i, p, ltb, ewnb, q),
        i < spec_parse(b, dialect).rows.len(),
    ensures
        source_from(b, dialect, i, p, ltb, ewnb),
        0 <= i,
        p <= b.len(),
        0 <= q <= changed_text(b, dialect, c, ch).len(),
{
    reveal(add_state);
    crate::reparse::lemma_source_bounds(b, dialect, i, p, ltb, ewnb);
    lemma_source_step(b, dialect, i, p, ltb, ewnb);
}

/// Reading the changed text row by row alongside the source.
proof fn lemma_add_rows(
    b: Seq<u8>,
    dialect: Dialect,
    c: int,
    ch: ColumnChange,
    i: int,
    p: int,
    ltb: Option<LineTerminator>,
    ewnb: bool,
    q: int,
)
    requires
        b.len() <= usize::MAX,
        changed_text(b, dialect, c, ch).len() <= usize::MAX,
        adds_column(ch),
        add_state(b, dialect, c, ch, i, p, ltb, ewnb, q),
    ensures
        add_reads_from(b, dialect, c, ch, i, p, ltb, ewnb, q),
    decreases b.len() - p,
{
    let t = spec_parse(b, dialect);
    let n = t.rows.len() as int;
    let d = delimiter_of(dialect);
    assert(source_from(b, dialect, i, p, ltb, ewnb)) by {
        reveal(add_state);
    }
    crate::reparse::lemma_source_bounds(b, dialect, i, p, ltb, ewnb);
    if i == n {
        lemma_add_end(b, dialect, c, ch, i, p, ltb, ewnb, q);
    } else {
        lemma_source_step(b, dialect, i, p, ltb, ewnb);
        let e = parse_cells(b, d, p, i).1;
        let next = e + terminator_len(b, e);
        let lt2 = if ltb is Some {
            ltb
        } else {
            terminator_kind(b, e)
        };
        let ewn2 = terminator_len(b, e) > 0 && next == b.len();
        if editable_row(t, i, c) {
            lemma_step_edited(b, dialect, c, ch, i, p, ltb, ewnb, q);
            lemma_add_rows(b, dialect, c, ch, i + 1, next, lt2, ewn2, q + (next - p) + 1);
            lemma_cons_edited(b, dialect, c, ch, i, p, ltb, ewnb, q);
        } else {
            lemma_step_plain(b, dialect, c, ch, i, p, ltb, ewnb, q);
            lemma_add_rows(b, dialect, c, ch, i + 1, next, lt2, ewn2, q + (next - p));
            lemma_cons_plain(b, dialect, c, ch, i, p, ltb, ewnb, q);
        }
    }
}

/// Reading the text with a column added right of column `c` alongside the
/// source from row `i` on: in each row that takes part, cell `c` ends as
/// many bytes later as delimiters were inserted before the row, and the
/// new cell after it ends one byte later still.
pub proof fn lemma_add_spans(
    b: Seq<u8>,
    dialect: Dialect,
    c: int,
    i: int,
    p: int,
    ltb: Option<LineTerminator>,
    ewnb: bool,
    q: int,
)
    requires
        b.len() <= usize::MAX,
        changed_text(b, dialect, c, ColumnChange::AddRight).len() <= usize::MAX,
        add_state(b, dialect, c, ColumnChange::AddRight, i, p, ltb, ewnb, q),
        q == p + edits_before(spec_parse(b, dialect), c, ColumnChange::AddRight, i),
        0 <= i,
    ensures
        ({
            let t = spec_parse(b, dialect);
            let d = delimiter_of(dialect);
            let ch = ColumnChange::AddRight;
            let a = parse_rows(b, d, p, i, ltb, ewnb);
            let bb = parse_rows(changed_text(b, dialect, c, ch), d, q, i, ltb, ewnb);
            forall|j: int|
                0 <= j < a.0.len() && 0 <= j < bb.0.len() && editable_row(t, i + j, c) ==> {
                    &&& (#[trigger] bb.0[j]).cells[c].span.end == a.0[j].cells[c].span.end + edits_before(
                        t,
                        c,
                        ch,
                        i + j,
                    )
                    &&& bb.0[j].cells[c + 1].span.end == a.0[j].cells[c].span.end + edits_before(t, c, ch, i + j)
                        + 1
                }
        }),
    decreases b.len() - p,
{
    let t = spec_parse(b, dialect);
    let n = t.rows.len() as int;
    let d = delimiter_of(dialect);
    let ch = ColumnChange::AddRight;
    let b2 = changed_text(b, dialect, c, ch);
    assert(source_from(b, dialect, i, p, ltb, ewnb)) by {
        reveal(add_state);
    }
    crate::reparse::lemma_source_bounds(b, dialect, i, p, ltb, ewnb);
    if i < n {
        lemma_source_step(b, dialect, i, p, ltb, ewnb);
        lemma_edit_of_row(t, c, ch, i, n);
        let rc = parse_cells(b, d, p, i);
        let e = rc.1;
        let next = e + terminator_len(b, e);
        let lt2 = if ltb is Some {
            ltb
        } else {
            terminator_kind(b, e)
        };
        let ewn2 = terminator_len(b, e) > 0 && next == b.len();
        let a = parse_rows(b, d, p, i, ltb, ewnb);
        let a2 = parse_rows(b, d, next, i + 1, lt2, ewn2);
        let bb = parse_rows(b2, d, q, i, ltb, ewnb);
        if editable_row(t, i, c) {
            lemma_step_edited(b, dialect, c, ch, i, p, ltb, ewnb, q);
            let next2 = q + (next - p) + 1;
            lemma_add_spans(b, dialect, c, i + 1, next, lt2, ewn2, next2);
            let rest = parse_rows(b2, d, next2, i + 1, lt2, ewn2);
            assert forall|j: int|
                0 <= j < a.0.len() && 0 <= j < bb.0.len() && editable_row(t, i + j, c) implies {
                    &&& (#[trigger] bb.0[j]).cells[c].span.end == a.0[j].cells[c].span.end + edits_before(
                        t,
                        c,
                        ch,
                        i + j,
                    )
                    &&& bb.0[j].cells[c + 1].span.end == a.0[j].cells[c].span.end + edits_before(t, c, ch, i + j)
                        + 1
                } by {
                if j > 0 {
                    assert(bb.0[j] == rest.0[j - 1]);
                    assert(a.0[j] == a2.0[j - 1]);
                    assert(i + 1 + (j - 1) == i + j);
                } else {
                    assert(a.0[0].cells == rc.0);
                }
            }
        } else {
            lemma_step_plain(b, dialect, c, ch, i, p, ltb, ewnb, q);
            let next2 = q + (next - p);
            lemma_add_spans(b, dialect, c, i + 1, next, lt2, ewn2, next2);
            let rest = parse_rows(b2, d, next2, i + 1, lt2, ewn2);
            assert forall|j: int|
                0 <= j < a.0.len() && 0 <= j < bb.0.len() && editable_row(t, i + j, c) implies {
                    &&& (#[trigger] bb.0[j]).cells[c].span.end == a.0[j].cells[c].span.end + edits_before(
                        t,
                        c,
                        ch,
                        i + j,
                    )
                    &&& bb.0[j].cells[c + 1].span.end == a.0[j].cells[c].span.end + edits_before(t, c, ch, i + j)
                        + 1
                } by {
                if j > 0 {
                    assert(bb.0[j] == rest.0[j - 1]);
                    assert(a.0[j] == a2.0[j - 1]);
                    assert(i + 1 + (j - 1) == i + j);
                }
            }
        }
    } else {
        reveal(source_from);
    }
}

/// The changed text starts like the source: same byte-order mark, and
/// from the first row on it is the source with the edits applied.
pub proof fn lemma_add_top(b: Seq<u8>, dialect: Dialect, c: int, ch: ColumnChange)
    requires
        b.len() <= usize::MAX,
        changed_text(b, dialect, c, ch).len() <= usize::MAX,
        adds_column(ch),
    ensures
        has_bom_bytes(changed_text(b, dialect, c, ch)) == has_bom_bytes(b),
        add_state(b, dialect, c, ch, 0, body_start(b), None, false, body_start(b)),
{
    reveal(add_state);
    let t = spec_parse(b, dialect);
    let n = t.rows.len() as int;
    let es = column_edits(t, c, ch);
    let b2 = changed_text(b, dialect, c, ch);
    let p0 = body_start(b);
    crate::reparse::lemma_source_top(b, dialect);
    crate::reparse::lemma_delimiter_plain(dialect);
    crate::wellformed::law_parse_sound(b, dialect);
    lemma_edits_prefix(t, c, ch, 0, n);
    assert(edits_before(t, c, ch, 0) == 0);
    if es.len() > 0 {
        lemma_next_edit(t, c, ch, 0, n);
        let r = next_edited_row(t, c, 0, n);
        lemma_add_edit_at(b, dialect, c, ch, r);
        assert(t.rows[r] == t.rows[r]);
    }
    lemma_applied_skip(b, es, 0, 0, p0);
    assert(b2 == b.subrange(0, p0) + applied_from(b, es, 0, p0));
    assert(b2.subrange(p0, b2.len() as int) =~= applied_from(b, es, 0, p0));
    if has_bom_bytes(b) {
        assert(b2[0] == b[0] && b2[1] == b[1] && b2[2] == b[2]);
    } else if es.len() == 0 {
        assert(b2 =~= b);
    } else {
        let x = es[0].0.start as int;
        lemma_applied_skip(b, es, 0, 0, x);
        assert(b2 == b.subrange(0, x) + applied_from(b, es, 0, x));
        lemma_add_front(b, dialect, c, ch, 0, x);
        if x < 3 {
            assert(b2[x] == applied_from(b, es, 0, x)[0]);
            crate::reparse::lemma_plain_no_bom(b2, x);
        } else {
            assert(b2[0] == b[0] && b2[1] == b[1] && b2[2] == b[2]);
        }
    }
}

/// A table is clean: no parse errors and no ragged rows.
pub open spec fn clean(t: TableView) -> bool {
    t.errors.len() == 0 && ragged_diags(t).len() == 0
}

/// Without ragged-row diagnostics, every checked row has the header's
/// cell count.
pub proof fn lemma_ragged_none(t: TableView, h: int, e: int, k: int)
    requires
        ragged_upto(t, h, e, k).len() == 0,
    ensures
        forall|x: int| 0 <= x < k && checked_row(t, h, x) ==> #[trigger] t.rows[x].cells.len() == e,
    decreases k,
{
    if k > 0 {
        lemma_ragged_none(t, h, e, k - 1);
        assert(t.rows[k - 1] == t.rows[k - 1]);
    }
}

/// When every checked row of `t2` has the header's count, no ragged-row
/// diagnostic comes.
pub proof fn lemma_ragged_empty(t2: TableView, h: int, e: int, k: int)
    requires
        forall|x: int| 0 <= x < k && checked_row(t2, h, x) ==> #[trigger] t2.rows[x].cells.len() == e,
    ensures
        ragged_upto(t2, h, e, k).len() == 0,
    decreases k,
{
    if k > 0 {
        lemma_ragged_empty(t2, h, e, k - 1);
        assert(t2.rows[k - 1] == t2.rows[k - 1]);
    }
}

/// Adding a column (left or right of column `c`) gives every row that
/// takes part (clean, non-blank, with that column) one new unquoted empty
/// cell left or right of cell `c`, every other cell keeping its value and
/// quoting, and leaves everything else as it was: the same rows, the same
/// blankness, the same values, the same errors on the same rows. So a
/// clean file (no parse errors, no ragged rows) stays clean, its header
/// one column wider when it has the column.
pub proof fn law_added_column(b: Seq<u8>, dialect: Dialect, c: int, ch: ColumnChange)
    requires
        b.len() <= usize::MAX,
        changed_text(b, dialect, c, ch).len() <= usize::MAX,
        adds_column(ch),
    ensures
        ({
            let t = spec_parse(b, dialect);
            let t2 = spec_parse(changed_text(b, dialect, c, ch), dialect);
            &&& t2.rows.len() == t.rows.len()
            &&& forall|x: int|
                0 <= x < t2.rows.len() ==> {
                    &&& (#[trigger] t2.rows[x]).cells.len() == t.rows[x].cells.len() + (if editable_row(t, x, c) {
                        1int
                    } else {
                        0int
                    })
                    &&& row_is_blank(t2.rows[x]) == row_is_blank(t.rows[x])
                }
            &&& forall|x: int|
                0 <= x < t2.rows.len() ==> added_values(
                    b,
                    t,
                    x,
                    c,
                    ch,
                    changed_text(b, dialect, c, ch),
                    t.rows[x],
                    #[trigger] t2.rows[x],
                )
            &&& same_error_kinds(t.errors, t2.errors)
            &&& clean(t) ==> clean(t2)
            &&& clean(t) && 0 <= c < header_count(t) ==> header_count(t2) == header_count(t) + 1
        }),
{
    let t = spec_parse(b, dialect);
    let b2 = changed_text(b, dialect, c, ch);
    let t2 = spec_parse(b2, dialect);
    lemma_add_top(b, dialect, c, ch);
    lemma_add_rows(b, dialect, c, ch, 0, body_start(b), None, false, body_start(b));
    reveal(add_reads_from);
    assert(body_start(b2) == body_start(b));
    assert forall|x: int| 0 <= x < t2.rows.len() implies {
        &&& (#[trigger] t2.rows[x]).cells.len() == t.rows[x].cells.len() + (if editable_row(t, x, c) {
            1int
        } else {
            0int
        })
        &&& row_is_blank(t2.rows[x]) == row_is_blank(t.rows[x])
        &&& error_row(t2, x) == error_row(t, x)
    } by {
        assert(0 + x == x);
        crate::reparse::lemma_error_rows_agree(t, t2, x);
    }
    assert forall|x: int| 0 <= x < t2.rows.len() implies added_values(b, t, x, c, ch, b2, t.rows[x], #[trigger] t2.rows[x]) by {
        assert(0 + x == x);
    }
    lemma_first_nonblank_same(t.rows, t2.rows, 0);
    if clean(t) {
        match first_nonblank(t.rows, 0) {
            None => {},
            Some(h) => {
                crate::parse::lemma_first_nonblank(t.rows, 0);
                let e = t.rows[h].cells.len() as int;
                let e2 = t2.rows[h].cells.len() as int;
                let n = t.rows.len() as int;
                lemma_ragged_none(t, h, e, n);
                assert(!error_row(t, h));
                assert forall|x: int| 0 <= x < n && checked_row(t2, h, x) implies #[trigger] t2.rows[x].cells.len()
                    == e2 by {
                    assert(checked_row(t, h, x));
                    assert(t.rows[x].cells.len() == e);
                }
                lemma_ragged_empty(t2, h, e2, n);
            },
        }
    }
}

} // verus!
