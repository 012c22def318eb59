//! Deleting a column keeps a clean file clean, whatever its line breaks.
//! Where a lone carriage return ends a row and the deletion empties the
//! next row down to its line feed, the two line breaks read as one CRLF
//! and that row is gone; every other row reads as it did, less the cell.

use vstd::prelude::*;

use crate::grammar::{
    lemma_cells_step, lemma_parse_cell, lemma_parse_cells, lemma_rows_done, lemma_rows_step, parse_cell, parse_cells,
    parse_rows, stray_quotes, terminator_kind, terminator_len,
};
use crate::parse::LineTerminator;
use crate::dialect::{delimiter_of, Dialect};
use crate::edits::applied_from;
use crate::features::columns::{change_edit, editable_row, ColumnChange};
use crate::grammar::{body_start, spec_parse, CR, LF};
use crate::insertion::{changed_text, column_edits, edits_before, lemma_edit_of_row, lemma_next_edit, next_edited_row};
use crate::deletion::{
    del_state, lemma_del_edit_at, lemma_del_edited_layout, lemma_del_next_later, lemma_del_plain_layout,
    lemma_del_source, lemma_deleted_cells,
};
use crate::grammar::span_of;
use crate::insertion::lemma_edits_prefix;
use crate::parse::{row_is_blank, RowView, TableView};
use crate::repair::lemma_moved_blank;
use crate::reparse::lemma_cells_local;
use crate::deletion::{lemma_bom_first_row, lemma_del_front, lemma_del_top, lemma_first_nonblank_before};
use crate::grammar::has_bom_bytes;
use crate::insertion::{clean, lemma_ragged_empty, lemma_ragged_none};
use crate::parse::first_nonblank;
use crate::features::ragged_rows::checked_row;
use crate::render::error_row;
use crate::repair::{lemma_applied_skip, lemma_later_rows, lemma_term_same};
use crate::reparse::{lemma_source_step, source_from};

verus! {

/// How many stray quotes a run holds does not depend on the row they
/// are reported for.
proof fn lemma_stray_label(b: Seq<u8>, lo: int, hi: int, r1: int, r2: int)
    ensures
        stray_quotes(b, lo, hi, r1).len() == stray_quotes(b, lo, hi, r2).len(),
    decreases hi - lo,
{
    if hi > lo {
        lemma_stray_label(b, lo, hi - 1, r1, r2);
    }
}

/// A cell reads the same whatever row it is reported for; only its
/// errors name the row.
proof fn lemma_cell_label(b: Seq<u8>, d: u8, s: int, r1: int, r2: int)
    ensures
        parse_cell(b, d, s, r1).0 == parse_cell(b, d, s, r2).0,
        parse_cell(b, d, s, r1).1 == parse_cell(b, d, s, r2).1,
        parse_cell(b, d, s, r1).2 == parse_cell(b, d, s, r2).2,
        parse_cell(b, d, s, r1).3.len() == parse_cell(b, d, s, r2).3.len(),
{
    reveal(parse_cell);
    let c = crate::grammar::skip_spaces(b, s);
    let e = crate::grammar::cell_stop(b, d, c);
    lemma_stray_label(b, c, e, r1, r2);
}

/// A row's cells read the same whatever row number it is read as.
proof fn lemma_cells_label(b: Seq<u8>, d: u8, s: int, r1: int, r2: int)
    ensures
        parse_cells(b, d, s, r1).0 == parse_cells(b, d, s, r2).0,
        parse_cells(b, d, s, r1).1 == parse_cells(b, d, s, r2).1,
        parse_cells(b, d, s, r1).2.len() == parse_cells(b, d, s, r2).2.len(),
    decreases b.len() - s,
{
    lemma_cells_step(b, d, s, r1);
    lemma_cells_step(b, d, s, r2);
    lemma_cell_label(b, d, s, r1, r2);
    let c = parse_cell(b, d, s, r1);
    if c.1 && s <= c.2 < b.len() {
        lemma_cells_label(b, d, c.2 + 1, r1, r2);
    }
}

/// Rows read the same whatever they are numbered from and whatever
/// terminator state is handed in; only their errors name the rows.
pub proof fn lemma_rows_label(
    b: Seq<u8>,
    d: u8,
    p: int,
    i1: int,
    lt1: Option<LineTerminator>,
    ewn1: bool,
    i2: int,
    lt2: Option<LineTerminator>,
    ewn2: bool,
)
    requires
        0 <= p,
    ensures
        parse_rows(b, d, p, i1, lt1, ewn1).0 == parse_rows(b, d, p, i2, lt2, ewn2).0,
        parse_rows(b, d, p, i1, lt1, ewn1).1.len() == parse_rows(b, d, p, i2, lt2, ewn2).1.len(),
    decreases b.len() - p,
{
    if p >= b.len() {
        lemma_rows_done(b, d, p, i1, lt1, ewn1);
        lemma_rows_done(b, d, p, i2, lt2, ewn2);
    } else {
        lemma_rows_step(b, d, p, i1, lt1, ewn1);
        lemma_rows_step(b, d, p, i2, lt2, ewn2);
        lemma_cells_label(b, d, p, i1, i2);
        let e = parse_cells(b, d, p, i1).1;
        let next = e + terminator_len(b, e);
        lemma_rows_label(
            b,
            d,
            next,
            i1 + 1,
            if lt1 is Some {
                lt1
            } else {
                terminator_kind(b, e)
            },
            terminator_len(b, e) > 0 && next == b.len(),
            i2 + 1,
            if lt2 is Some {
                lt2
            } else {
                terminator_kind(b, e)
            },
            terminator_len(b, e) > 0 && next == b.len(),
        );
    }
}

/// Whether, with column `c` deleted, the line break after row `i` (read
/// from `p`) runs into the next row's: a lone carriage return followed
/// there by a line feed.
pub open spec fn merges_after(b: Seq<u8>, dialect: Dialect, c: int, i: int, p: int) -> bool {
    let t = spec_parse(b, dialect);
    let d = delimiter_of(dialect);
    let es = column_edits(t, c, ColumnChange::Delete);
    let e = parse_cells(b, d, p, i).1;
    let next = e + terminator_len(b, e);
    let a2 = applied_from(b, es, edits_before(t, c, ColumnChange::Delete, i + 1), next);
    terminator_len(b, e) == 1 && b[e] == CR && a2.len() > 0 && a2[0] == LF
}

/// A line feed where the cut of a row ends, or at the start of its second
/// cell, is the row's own line break.
proof fn lemma_cut_at_lf(b: Seq<u8>, dialect: Dialect, c: int, r: int)
    requires
        b.len() <= usize::MAX,
        0 <= r < spec_parse(b, dialect).rows.len(),
        editable_row(spec_parse(b, dialect), r, c),
        ({
            let y = change_edit(spec_parse(b, dialect), r, c, ColumnChange::Delete).0.end as int;
            y < b.len() && b[y] == LF
        }),
    ensures
        change_edit(spec_parse(b, dialect), r, c, ColumnChange::Delete).0.end == spec_parse(b, dialect).rows[r].span.end,
{
    let t = spec_parse(b, dialect);
    let d = delimiter_of(dialect);
    crate::wellformed::law_parse_sound(b, dialect);
    crate::reparse::lemma_delimiter_plain(dialect);
    lemma_del_edit_at(b, dialect, c, r);
    let row = t.rows[r];
    assert(t.rows[r] == row);
    let cs = row.cells;
    let m = cs.len() as int;
    let y = change_edit(t, r, c, ColumnChange::Delete).0.end as int;
    assert(crate::wellformed::cells_tile(b, d, cs, row.span.start as int, row.span.end as int));
    if c > 0 || m == 1 {
        if c + 1 < m {
            assert(crate::wellformed::cells_adjacent(b, d, cs, c));
        }
    } else {
        // The second cell starts at a line feed: it is empty and last.
        assert(crate::wellformed::cells_adjacent(b, d, cs, 0));
        assert(cs[1] == cs[1]);
        assert(crate::wellformed::cell_sound(b, cs[1]));
        if m > 2 {
            assert(crate::wellformed::cells_adjacent(b, d, cs, 1));
            assert(cs[2] == cs[2]);
        }
        lemma_row_cells_from(b, dialect, r);
        let p = row.span.start as int;
        lemma_cells_step(b, d, p, r);
        lemma_parse_cell(b, d, p, r);
        crate::deletion::lemma_cell_span(b, d, p, r);
        let c0 = parse_cell(b, d, p, r);
        assert(cs[0] == c0.0);
        if c0.1 && p <= c0.2 < b.len() {
            lemma_parse_cells(b, d, c0.2 + 1, r);
            crate::insertion::lemma_cell_starts_from(b, d, c0.2 + 1, r, 0);
            assert(y == c0.2 + 1);
            assert(crate::reparse::same_bytes(Seq::<u8>::empty(), 0, b, y, 0));
            crate::reparse::lemma_read_cell(b, d, y, Seq::<u8>::empty(), 0, r);
            lemma_cells_step(b, d, y, r);
        }
    }
}

/// A row of the table is read from its start.
proof fn lemma_row_cells_from(b: Seq<u8>, dialect: Dialect, r: int)
    requires
        b.len() <= usize::MAX,
        0 <= r < spec_parse(b, dialect).rows.len(),
    ensures
        ({
            let t = spec_parse(b, dialect);
            let rc = parse_cells(b, delimiter_of(dialect), t.rows[r].span.start as int, r);
            &&& t.rows[r].cells == rc.0
            &&& t.rows[r].span.end == rc.1
        }),
{
    let t = spec_parse(b, dialect);
    let d = delimiter_of(dialect);
    crate::reparse::lemma_source_top(b, dialect);
    lemma_row_reading(b, dialect, 0, body_start(b), None, false, r);
}

/// Reading on from row `i` reaches row `r` at its start.
proof fn lemma_row_reading(
    b: Seq<u8>,
    dialect: Dialect,
    i: int,
    p: int,
    ltb: Option<LineTerminator>,
    ewnb: bool,
    r: int,
)
    requires
        b.len() <= usize::MAX,
        source_from(b, dialect, i, p, ltb, ewnb),
        i <= r < spec_parse(b, dialect).rows.len(),
    ensures
        ({
            let t = spec_parse(b, dialect);
            let rc = parse_cells(b, delimiter_of(dialect), t.rows[r].span.start as int, r);
            &&& t.rows[r].cells == rc.0
            &&& t.rows[r].span.end == rc.1
        }),
    decreases r - i,
{
    let t = spec_parse(b, dialect);
    let d = delimiter_of(dialect);
    crate::reparse::lemma_source_bounds(b, dialect, i, p, ltb, ewnb);
    lemma_source_step(b, dialect, i, p, ltb, ewnb);
    let rc = parse_cells(b, d, p, i);
    lemma_parse_cells(b, d, p, i);
    if r > i {
        let e = rc.1;
        let next = e + terminator_len(b, e);
        lemma_row_reading(
            b,
            dialect,
            i + 1,
            next,
            if ltb is Some {
                ltb
            } else {
                terminator_kind(b, e)
            },
            terminator_len(b, e) > 0 && next == b.len(),
            r,
        );
    }
}

/// What follows a row's reading in the text with column `c` deleted: its
/// line break as in the source, then the next row; or, where the break
/// runs into the next row's (see [`merges_after`]), one CRLF break, the
/// next row gone (a row that takes part, left empty), and the row after
/// it.
#[verifier::spinoff_prover]
#[verifier::rlimit(100)]
pub proof fn lemma_after_row(
    b: Seq<u8>,
    dialect: Dialect,
    c: int,
    i: int,
    p: int,
    ltb: Option<LineTerminator>,
    ewnb: bool,
    e2: int,
)
    requires
        b.len() <= usize::MAX,
        changed_text(b, dialect, c, ColumnChange::Delete).len() <= usize::MAX,
        source_from(b, dialect, i, p, ltb, ewnb),
        i < spec_parse(b, dialect).rows.len(),
        0 <= e2 <= changed_text(b, dialect, c, ColumnChange::Delete).len(),
        ({
            let t = spec_parse(b, dialect);
            let d = delimiter_of(dialect);
            let es = column_edits(t, c, ColumnChange::Delete);
            let b2 = changed_text(b, dialect, c, ColumnChange::Delete);
            let e = parse_cells(b, d, p, i).1;
            let next = e + terminator_len(b, e);
            let a2 = applied_from(b, es, edits_before(t, c, ColumnChange::Delete, i + 1), next);
            b2.subrange(e2, b2.len() as int) == b.subrange(e, next) + a2
        }),
    ensures
        ({
            let t = spec_parse(b, dialect);
            let d = delimiter_of(dialect);
            let b2 = changed_text(b, dialect, c, ColumnChange::Delete);
            let e = parse_cells(b, d, p, i).1;
            let tl = terminator_len(b, e);
            let next = e + tl;
            let lt2 = if ltb is Some {
                ltb
            } else {
                terminator_kind(b, e)
            };
            let ewn2 = tl > 0 && next == b.len();
            let e1 = parse_cells(b, d, next, i + 1).1;
            let next1 = e1 + terminator_len(b, e1);
            let lt3 = if lt2 is Some {
                lt2
            } else {
                terminator_kind(b, e1)
            };
            let ewn3 = terminator_len(b, e1) > 0 && next1 == b.len();
            &&& !merges_after(b, dialect, c, i, p) ==> terminator_len(b2, e2) == tl && del_state(
                b,
                dialect,
                c,
                i + 1,
                next,
                lt2,
                ewn2,
                e2 + tl,
            )
            &&& merges_after(b, dialect, c, i, p) ==> {
                &&& terminator_len(b2, e2) == 2
                &&& i + 1 < t.rows.len()
                &&& editable_row(t, i + 1, c)
                &&& source_from(b, dialect, i + 1, next, lt2, ewn2)
                &&& del_state(b, dialect, c, i + 2, next1, lt3, ewn3, e2 + 2)
            }
        }),
{
    let t = spec_parse(b, dialect);
    let n = t.rows.len() as int;
    let d = delimiter_of(dialect);
    let ch = ColumnChange::Delete;
    let es = column_edits(t, c, ch);
    let b2 = changed_text(b, dialect, c, ch);
    crate::reparse::lemma_source_bounds(b, dialect, i, p, ltb, ewnb);
    lemma_source_step(b, dialect, i, p, ltb, ewnb);
    lemma_del_next_later(b, dialect, c, i, p, ltb, ewnb);
    crate::reparse::lemma_delimiter_plain(dialect);
    let rc = parse_cells(b, d, p, i);
    let e = rc.1;
    let tl = terminator_len(b, e);
    let next = e + tl;
    let k1 = edits_before(t, c, ch, i + 1);
    let a2 = applied_from(b, es, k1, next);
    let lt2 = if ltb is Some {
        ltb
    } else {
        terminator_kind(b, e)
    };
    let ewn2 = tl > 0 && next == b.len();
    let whole = b2.subrange(e2, b2.len() as int);
    assert(whole.len() == b2.len() - e2);
    assert forall|j: int| 0 <= j < tl implies #[trigger] b2[e2 + j] == b[e + j] by {
        assert(whole[j] == b2[e2 + j]);
        assert(whole[j] == b.subrange(e, next)[j]);
    }
    if next == b.len() {
        assert(a2.len() == 0);
    }
    if !merges_after(b, dialect, c, i, p) {
        if tl == 1 && b[e] == CR && e2 + 1 < b2.len() {
            assert(whole[1] == b2[e2 + 1]);
            assert(whole[1] == a2[0]);
        }
        lemma_term_same(b, e, b2, e2);
        assert(b2.subrange(e2 + tl, b2.len() as int) =~= a2) by {
            assert forall|j: int| 0 <= j < a2.len() implies b2.subrange(e2 + tl, b2.len() as int)[j] == a2[j] by {
                assert(whole[tl + j] == a2[j]);
            }
        }
        assert(del_state(b, dialect, c, i + 1, next, lt2, ewn2, e2 + tl)) by {
            reveal(del_state);
        }
    } else {
        assert(next == e + 1);
        assert(next < b.len());
        assert(b[next] != LF);
        assert(k1 < es.len());
        let x = es[k1].0.start as int;
        let y = es[k1].0.end as int;
        assert(x == next) by {
            if x > next {
                assert(a2 == b.subrange(next, x) + es[k1].1 + applied_from(b, es, k1 + 1, y));
                assert(a2[0] == b.subrange(next, x)[0]);
            }
        }
        lemma_next_edit(t, c, ch, i + 1, n);
        let r = next_edited_row(t, c, i + 1, n);
        lemma_del_edit_at(b, dialect, c, r);
        lemma_source_step(b, dialect, i + 1, next, lt2, ewn2);
        assert(r == i + 1) by {
            if r > i + 1 {
                lemma_later_rows(b, dialect, i + 1, r);
            }
        }
        lemma_edit_of_row(t, c, ch, i + 1, n);
        lemma_del_next_later(b, dialect, c, i + 1, next, lt2, ewn2);
        let rc1 = parse_cells(b, d, next, i + 1);
        let e1 = rc1.1;
        let tl1 = terminator_len(b, e1);
        let next1 = e1 + tl1;
        lemma_parse_cells(b, d, next, i + 1);
        assert(y <= e1);
        lemma_applied_skip(b, es, k1 + 1, y, next1);
        let rest = applied_from(b, es, k1 + 1, next1);
        assert(a2 == b.subrange(next, x) + es[k1].1 + applied_from(b, es, k1 + 1, y));
        assert(a2 == b.subrange(y, next1) + rest);
        assert(y < next1) by {
            if y == next1 {
                assert(tl1 == 0);
                assert(rest.len() == 0);
            }
        }
        assert(a2[0] == b[y]);
        lemma_cut_at_lf(b, dialect, c, i + 1);
        assert(y == e1);
        assert(tl1 == 1);
        assert(whole == seq![CR] + (seq![LF] + rest)) by {
            assert(b.subrange(e, next) =~= seq![CR]);
            assert(b.subrange(y, next1) =~= seq![LF]);
        }
        assert(b2[e2] == CR && b2[e2 + 1] == LF) by {
            assert(whole[0] == b2[e2]);
            assert(whole[1] == b2[e2 + 1]);
        }
        assert(b2.subrange(e2 + 2, b2.len() as int) =~= rest) by {
            assert forall|j: int| 0 <= j < rest.len() implies b2.subrange(e2 + 2, b2.len() as int)[j] == rest[j] by {
                assert(whole[2 + j] == rest[j]);
            }
        }
        let lt3 = if lt2 is Some {
            lt2
        } else {
            terminator_kind(b, e1)
        };
        let ewn3 = tl1 > 0 && next1 == b.len();
        assert(del_state(b, dialect, c, i + 2, next1, lt3, ewn3, e2 + 2)) by {
            reveal(del_state);
        }
    }
}

/// Row `x` of the source, with column `c` deleted, reads blank or with
/// `k` cells: a row that takes part has one cell or one more than `k`;
/// any other row is blank or has `k`.
pub open spec fn fits_after_delete(t: TableView, x: int, c: int, k: int) -> bool {
    if editable_row(t, x, c) {
        t.rows[x].cells.len() == 1 || t.rows[x].cells.len() - 1 == k
    } else {
        row_is_blank(t.rows[x]) || t.rows[x].cells.len() == k
    }
}

/// The source has no errors and every row fits `k` once the column is
/// deleted.
pub open spec fn source_fits(b: Seq<u8>, dialect: Dialect, c: int, k: int) -> bool {
    let t = spec_parse(b, dialect);
    &&& t.errors.len() == 0
    &&& forall|x: int| 0 <= x < t.rows.len() ==> #[trigger] fits_after_delete(t, x, c, k)
}

/// Every row read from `q` on in the text with column `c` deleted is
/// blank or has `k` cells, and none has an error.
#[verifier::opaque]
pub open spec fn clean_from(
    b: Seq<u8>,
    dialect: Dialect,
    c: int,
    k: int,
    i: int,
    ltb: Option<LineTerminator>,
    ewnb: bool,
    q: int,
) -> bool {
    let bb = parse_rows(changed_text(b, dialect, c, ColumnChange::Delete), delimiter_of(dialect), q, i, ltb, ewnb);
    &&& forall|j: int| 0 <= j < bb.0.len() ==> row_is_blank(#[trigger] bb.0[j]) || bb.0[j].cells.len() == k
    &&& bb.1.len() == 0
}

/// Where the reading of row `i` ends in the text with column `c` deleted.
pub open spec fn row_end_after(b: Seq<u8>, dialect: Dialect, c: int, i: int, p: int, q: int) -> int {
    let t = spec_parse(b, dialect);
    let e = parse_cells(b, delimiter_of(dialect), p, i).1;
    if editable_row(t, i, c) {
        let ed = change_edit(t, i, c, ColumnChange::Delete);
        q + (ed.0.start - p) + (e - ed.0.end)
    } else {
        q + (e - p)
    }
}

/// Where reading goes on after row `i`: the next row, or the one after it
/// where the line breaks run together.
pub open spec fn state_after(
    b: Seq<u8>,
    dialect: Dialect,
    c: int,
    i: int,
    p: int,
    ltb: Option<LineTerminator>,
    ewnb: bool,
    q: int,
) -> (int, int, Option<LineTerminator>, bool, int) {
    let d = delimiter_of(dialect);
    let e = parse_cells(b, d, p, i).1;
    let tl = terminator_len(b, e);
    let next = e + tl;
    let lt2 = if ltb is Some {
        ltb
    } else {
        terminator_kind(b, e)
    };
    let ewn2 = tl > 0 && next == b.len();
    let e2 = row_end_after(b, dialect, c, i, p, q);
    if merges_after(b, dialect, c, i, p) {
        let e1 = parse_cells(b, d, next, i + 1).1;
        let next1 = e1 + terminator_len(b, e1);
        let lt3 = if lt2 is Some {
            lt2
        } else {
            terminator_kind(b, e1)
        };
        (i + 2, next1, lt3, terminator_len(b, e1) > 0 && next1 == b.len(), e2 + 2)
    } else {
        (i + 1, next, lt2, ewn2, e2 + tl)
    }
}

/// Row `i` read in the text with column `c` deleted: blank or `k` cells,
/// no errors, ending at [`row_end_after`], followed by the source's line
/// break and what follows it.
#[verifier::spinoff_prover]
#[verifier::rlimit(60)]
proof fn lemma_clean_row(
    b: Seq<u8>,
    dialect: Dialect,
    c: int,
    k: int,
    i: int,
    p: int,
    ltb: Option<LineTerminator>,
    ewnb: bool,
    q: int,
)
    requires
        b.len() <= usize::MAX,
        changed_text(b, dialect, c, ColumnChange::Delete).len() <= usize::MAX,
        source_fits(b, dialect, c, k),
        del_state(b, dialect, c, i, p, ltb, ewnb, q),
        i < spec_parse(b, dialect).rows.len(),
        !(editable_row(spec_parse(b, dialect), i, c) && q == changed_text(b, dialect, c, ColumnChange::Delete).len()),
    ensures
        ({
            let t = spec_parse(b, dialect);
            let d = delimiter_of(dialect);
            let es = column_edits(t, c, ColumnChange::Delete);
            let b2 = changed_text(b, dialect, c, ColumnChange::Delete);
            let e = parse_cells(b, d, p, i).1;
            let next = e + terminator_len(b, e);
            let a2 = applied_from(b, es, edits_before(t, c, ColumnChange::Delete, i + 1), next);
            let e2 = row_end_after(b, dialect, c, i, p, q);
            let rc2 = parse_cells(b2, d, q, i);
            &&& q < b2.len()
            &&& p < next
            &&& 0 <= e2 <= b2.len()
            &&& rc2.1 == e2
            &&& rc2.2.len() == 0
            &&& row_is_blank(RowView { span: span_of(q, e2), cells: rc2.0 }) || rc2.0.len() == k
            &&& b2.subrange(e2, b2.len() as int) == b.subrange(e, next) + a2
        }),
{
    let t = spec_parse(b, dialect);
    let d = delimiter_of(dialect);
    let ch = ColumnChange::Delete;
    let es = column_edits(t, c, ch);
    let b2 = changed_text(b, dialect, c, ch);
    lemma_del_source(b, dialect, c, i, p, ltb, ewnb, q);
    crate::reparse::lemma_source_bounds(b, dialect, i, p, ltb, ewnb);
    lemma_source_step(b, dialect, i, p, ltb, ewnb);
    crate::reparse::lemma_delimiter_plain(dialect);
    let rc = parse_cells(b, d, p, i);
    lemma_parse_cells(b, d, p, i);
    let e = rc.1;
    let tl = terminator_len(b, e);
    let next = e + tl;
    assert(fits_after_delete(t, i, c, k));
    assert(!crate::render::error_row(t, i));
    assert(rc.2.len() == 0);
    let e2 = row_end_after(b, dialect, c, i, p, q);
    if editable_row(t, i, c) {
        lemma_del_edited_layout(b, dialect, c, i, p, ltb, ewnb, q);
        lemma_del_edit_at(b, dialect, c, i);
        let x = change_edit(t, i, c, ch).0.start as int;
        let y = change_edit(t, i, c, ch).0.end as int;
        let kk = edits_before(t, c, ch, i);
        let a2 = applied_from(b, es, kk + 1, next);
        assert(t.rows[i].cells == rc.0);
        if e < b.len() {
            assert(b2[q + (x - p) + (e - y)] == b[y + (e - y)]);
        }
        assert forall|j: int| 0 <= j < e - y implies #[trigger] b2[q + (x - p) + j] == b[y + j] by {}
        lemma_deleted_cells(b, b2, d, p, q, x, y, e, c, i);
        assert(b2.subrange(e2, b2.len() as int) =~= b.subrange(e, next) + a2) by {
            let tail = b2.subrange(q + (x - p) + (next - y), b2.len() as int);
            assert forall|j: int| 0 <= j < b2.len() - e2 implies b2.subrange(e2, b2.len() as int)[j] == (b.subrange(
                e,
                next,
            ) + a2)[j] by {
                if j < next - e {
                    assert(b2[q + (x - p) + ((e - y) + j)] == b[y + ((e - y) + j)]);
                } else {
                    assert(tail[j - (next - e)] == a2[j - (next - e)]);
                }
            }
        }
    } else {
        lemma_del_plain_layout(b, dialect, c, i, p, ltb, ewnb, q);
        let kk = edits_before(t, c, ch, i);
        let a2 = applied_from(b, es, kk, next);
        assert(crate::reparse::same_row(b, p, b2, q, e - p)) by {
            assert forall|j: int| 0 <= j < e - p implies #[trigger] b[p + j] == b2[q + j] by {}
            if e < b.len() {
                assert(b2[q + (e - p)] == b[p + (e - p)]);
            }
        }
        lemma_cells_local(b, p, b2, q, e - p, p, d, i);
        if rc.0.len() == 1 {
            crate::reparse::lemma_content_within(b, dialect, i, 0);
            assert(t.rows[i].cells == rc.0);
        }
        lemma_moved_blank(rc.0, q - p, p, e, span_of(p, e), span_of(q, e2));
        assert(t.rows[i] == RowView { span: span_of(p, e), cells: rc.0 });
        assert(b2.subrange(e2, b2.len() as int) =~= b.subrange(e, next) + a2) by {
            let tail = b2.subrange(q + (next - p), b2.len() as int);
            assert forall|j: int| 0 <= j < b2.len() - e2 implies b2.subrange(e2, b2.len() as int)[j] == (b.subrange(
                e,
                next,
            ) + a2)[j] by {
                if j < next - e {
                    assert(b2[q + ((e - p) + j)] == b[p + ((e - p) + j)]);
                } else {
                    assert(tail[j - (next - e)] == a2[j - (next - e)]);
                }
            }
        }
    }
}

/// One row: reading goes on at [`state_after`], and the rows from here
/// fit once those from there do.
#[verifier::spinoff_prover]
#[verifier::rlimit(60)]
proof fn lemma_clean_step(
    b: Seq<u8>,
    dialect: Dialect,
    c: int,
    k: int,
    i: int,
    p: int,
    ltb: Option<LineTerminator>,
    ewnb: bool,
    q: int,
)
    requires
        b.len() <= usize::MAX,
        changed_text(b, dialect, c, ColumnChange::Delete).len() <= usize::MAX,
        source_fits(b, dialect, c, k),
        del_state(b, dialect, c, i, p, ltb, ewnb, q),
        i < spec_parse(b, dialect).rows.len(),
        !(editable_row(spec_parse(b, dialect), i, c) && q == changed_text(b, dialect, c, ColumnChange::Delete).len()),
    ensures
        ({
            let s = state_after(b, dialect, c, i, p, ltb, ewnb, q);
            &&& del_state(b, dialect, c, s.0, s.1, s.2, s.3, s.4)
            &&& p < s.1
            &&& clean_from(b, dialect, c, k, s.0, s.2, s.3, s.4) ==> clean_from(b, dialect, c, k, i, ltb, ewnb, q)
        }),
{
    let t = spec_parse(b, dialect);
    let d = delimiter_of(dialect);
    let b2 = changed_text(b, dialect, c, ColumnChange::Delete);
    lemma_del_source(b, dialect, c, i, p, ltb, ewnb, q);
    crate::reparse::lemma_source_bounds(b, dialect, i, p, ltb, ewnb);
    lemma_source_step(b, dialect, i, p, ltb, ewnb);
    lemma_clean_row(b, dialect, c, k, i, p, ltb, ewnb, q);
    let e2 = row_end_after(b, dialect, c, i, p, q);
    lemma_after_row(b, dialect, c, i, p, ltb, ewnb, e2);
    let s = state_after(b, dialect, c, i, p, ltb, ewnb, q);
    let e = parse_cells(b, d, p, i).1;
    let next = e + terminator_len(b, e);
    if merges_after(b, dialect, c, i, p) {
        lemma_source_step(b, dialect, i + 1, next, if ltb is Some {
            ltb
        } else {
            terminator_kind(b, e)
        }, terminator_len(b, e) > 0 && next == b.len());
    }
    lemma_rows_step(b2, d, q, i, ltb, ewnb);
    let tl2 = terminator_len(b2, e2);
    let lt_b = if ltb is Some {
        ltb
    } else {
        terminator_kind(b2, e2)
    };
    let ewn_b = tl2 > 0 && e2 + tl2 == b2.len();
    assert(s.4 == e2 + tl2);
    lemma_rows_label(b2, d, s.4, s.0, s.2, s.3, i + 1, lt_b, ewn_b);
    if clean_from(b, dialect, c, k, s.0, s.2, s.3, s.4) {
        reveal(clean_from);
        let bb = parse_rows(b2, d, q, i, ltb, ewnb);
        let rest = parse_rows(b2, d, s.4, i + 1, lt_b, ewn_b);
        let rc2 = parse_cells(b2, d, q, i);
        assert(bb.0 == seq![RowView { span: span_of(q, e2), cells: rc2.0 }] + rest.0);
        assert forall|j: int| 0 <= j < bb.0.len() implies row_is_blank(#[trigger] bb.0[j]) || bb.0[j].cells.len() == k by {
            if j > 0 {
                assert(bb.0[j] == rest.0[j - 1]);
                assert(rest.0[j - 1] == parse_rows(b2, d, s.4, s.0, s.2, s.3).0[j - 1]);
            }
        }
        assert(clean_from(b, dialect, c, k, i, ltb, ewnb, q));
    }
}

/// A row that takes part and is left empty at the end of the text is
/// gone: nothing is read.
proof fn lemma_clean_gone(
    b: Seq<u8>,
    dialect: Dialect,
    c: int,
    k: int,
    i: int,
    ltb: Option<LineTerminator>,
    ewnb: bool,
    q: int,
)
    requires
        q == changed_text(b, dialect, c, ColumnChange::Delete).len(),
    ensures
        clean_from(b, dialect, c, k, i, ltb, ewnb, q),
{
    reveal(clean_from);
    lemma_rows_done(changed_text(b, dialect, c, ColumnChange::Delete), delimiter_of(dialect), q, i, ltb, ewnb);
}

/// Past the last row, nothing is read.
proof fn lemma_clean_end(
    b: Seq<u8>,
    dialect: Dialect,
    c: int,
    k: int,
    i: int,
    p: int,
    ltb: Option<LineTerminator>,
    ewnb: bool,
    q: int,
)
    requires
        b.len() <= usize::MAX,
        del_state(b, dialect, c, i, p, ltb, ewnb, q),
        i == spec_parse(b, dialect).rows.len(),
    ensures
        clean_from(b, dialect, c, k, i, ltb, ewnb, q),
{
    reveal(del_state);
    reveal(source_from);
    let b2 = changed_text(b, dialect, c, ColumnChange::Delete);
    let t = spec_parse(b, dialect);
    let d = delimiter_of(dialect);
    let a = parse_rows(b, d, p, i, ltb, ewnb);
    if p < b.len() {
        lemma_rows_step(b, d, p, i, ltb, ewnb);
        assert(a.0.len() >= 1);
    }
    lemma_edits_prefix(t, c, ColumnChange::Delete, i, i);
    assert(b2.subrange(q, b2.len() as int).len() == 0);
    lemma_clean_gone(b, dialect, c, k, i, ltb, ewnb, q);
}

/// Reading the text with column `c` deleted row by row: every row fits.
proof fn lemma_clean_rows(
    b: Seq<u8>,
    dialect: Dialect,
    c: int,
    k: int,
    i: int,
    p: int,
    ltb: Option<LineTerminator>,
    ewnb: bool,
    q: int,
)
    requires
        b.len() <= usize::MAX,
        changed_text(b, dialect, c, ColumnChange::Delete).len() <= usize::MAX,
        source_fits(b, dialect, c, k),
        del_state(b, dialect, c, i, p, ltb, ewnb, q),
    ensures
        clean_from(b, dialect, c, k, i, ltb, ewnb, q),
    decreases b.len() - p,
{
    let t = spec_parse(b, dialect);
    lemma_del_source(b, dialect, c, i, p, ltb, ewnb, q);
    crate::reparse::lemma_source_bounds(b, dialect, i, p, ltb, ewnb);
    if i == t.rows.len() {
        lemma_clean_end(b, dialect, c, k, i, p, ltb, ewnb, q);
    } else if editable_row(t, i, c) && q == changed_text(b, dialect, c, ColumnChange::Delete).len() {
        lemma_clean_gone(b, dialect, c, k, i, ltb, ewnb, q);
    } else {
        lemma_clean_step(b, dialect, c, k, i, p, ltb, ewnb, q);
        let s = state_after(b, dialect, c, i, p, ltb, ewnb, q);
        lemma_del_source(b, dialect, c, s.0, s.1, s.2, s.3, s.4);
        lemma_clean_rows(b, dialect, c, k, s.0, s.1, s.2, s.3, s.4);
    }
}

/// Where a deletion brings a byte-order mark to the front, reading from
/// after the mark: every row fits.
#[verifier::spinoff_prover]
#[verifier::rlimit(60)]
proof fn lemma_clean_bom(b: Seq<u8>, dialect: Dialect, c: int, k: int)
    requires
        b.len() <= usize::MAX,
        changed_text(b, dialect, c, ColumnChange::Delete).len() <= usize::MAX,
        source_fits(b, dialect, c, k),
        !has_bom_bytes(b),
        has_bom_bytes(changed_text(b, dialect, c, ColumnChange::Delete)),
    ensures
        clean_from(b, dialect, c, k, 0, None, false, 3),
{
    let t = spec_parse(b, dialect);
    let n = t.rows.len() as int;
    let d = delimiter_of(dialect);
    let ch = ColumnChange::Delete;
    let b2 = changed_text(b, dialect, c, ch);
    lemma_bom_first_row(b, dialect, c);
    assert(fits_after_delete(t, 0, c, k));
    if b2.len() == 3 {
        lemma_clean_gone(b, dialect, c, k, 0, None, false, 3);
    } else {
        lemma_source_step(b, dialect, 0, 0, None, false);
        let rc = parse_cells(b, d, 0, 0);
        let e0 = rc.1;
        let y = change_edit(t, 0, c, ch).0.end as int;
        let e2 = e0 - y;
        lemma_after_row(b, dialect, c, 0, 0, None, false, e2);
        let tl = terminator_len(b, e0);
        let next0 = e0 + tl;
        let lt2 = terminator_kind(b, e0);
        let ewn2 = tl > 0 && next0 == b.len();
        let s = if merges_after(b, dialect, c, 0, 0) {
            let e1 = parse_cells(b, d, next0, 1).1;
            let next1 = e1 + terminator_len(b, e1);
            let lt3 = if lt2 is Some {
                lt2
            } else {
                terminator_kind(b, e1)
            };
            (2int, next1, lt3, terminator_len(b, e1) > 0 && next1 == b.len(), e2 + 2)
        } else {
            (1int, next0, lt2, ewn2, e2 + tl)
        };
        if merges_after(b, dialect, c, 0, 0) {
            lemma_source_step(b, dialect, 1, next0, lt2, ewn2);
        }
        lemma_del_source(b, dialect, c, s.0, s.1, s.2, s.3, s.4);
        lemma_clean_rows(b, dialect, c, k, s.0, s.1, s.2, s.3, s.4);
        lemma_rows_step(b2, d, 3, 0, None, false);
        let tl2 = terminator_len(b2, e2);
        let lt_b = terminator_kind(b2, e2);
        let ewn_b = tl2 > 0 && e2 + tl2 == b2.len();
        assert(s.4 == e2 + tl2);
        lemma_rows_label(b2, d, s.4, s.0, s.2, s.3, 1, lt_b, ewn_b);
        reveal(clean_from);
        let bb = parse_rows(b2, d, 3, 0, None, false);
        let rest = parse_rows(b2, d, s.4, 1, lt_b, ewn_b);
        let rc2 = parse_cells(b2, d, 3, 0);
        assert(bb.0 == seq![RowView { span: span_of(3, e2), cells: rc2.0 }] + rest.0);
        assert forall|j: int| 0 <= j < bb.0.len() implies row_is_blank(#[trigger] bb.0[j]) || bb.0[j].cells.len() == k by {
            if j > 0 {
                assert(bb.0[j] == rest.0[j - 1]);
                assert(rest.0[j - 1] == parse_rows(b2, d, s.4, s.0, s.2, s.3).0[j - 1]);
            }
        }
    }
}

/// Deleting a column keeps a clean file clean, whatever its line breaks:
/// with no parse errors and no ragged rows before, there are none after.
pub proof fn law_deleted_column_keeps_clean(b: Seq<u8>, dialect: Dialect, c: int)
    requires
        b.len() <= usize::MAX,
        changed_text(b, dialect, c, ColumnChange::Delete).len() <= usize::MAX,
        0 <= c,
    ensures
        clean(spec_parse(b, dialect)) ==> clean(
            spec_parse(changed_text(b, dialect, c, ColumnChange::Delete), dialect),
        ),
{
    let t = spec_parse(b, dialect);
    let n = t.rows.len() as int;
    let d = delimiter_of(dialect);
    let ch = ColumnChange::Delete;
    let b2 = changed_text(b, dialect, c, ch);
    let t2 = spec_parse(b2, dialect);
    if clean(t) {
        // The column contract after the deletion.
        let k = match first_nonblank(t.rows, 0) {
            None => 0int,
            Some(h) => if c < t.rows[h].cells.len() {
                t.rows[h].cells.len() - 1
            } else {
                t.rows[h].cells.len() as int
            },
        };
        match first_nonblank(t.rows, 0) {
            None => {},
            Some(h) => {
                crate::parse::lemma_first_nonblank(t.rows, 0);
                lemma_ragged_none(t, h, t.rows[h].cells.len() as int, n);
            },
        }
        assert forall|x: int| 0 <= x < n implies #[trigger] fits_after_delete(t, x, c, k) by {
            assert(!error_row(t, x));
            if !row_is_blank(t.rows[x]) {
                lemma_first_nonblank_before(t.rows, 0, x);
                let h = first_nonblank(t.rows, 0)->0;
                if x > h {
                    assert(checked_row(t, h, x));
                }
            }
        }
        assert(source_fits(b, dialect, c, k));
        lemma_del_front(b, dialect, c);
        if has_bom_bytes(b2) == has_bom_bytes(b) {
            lemma_del_top(b, dialect, c);
            lemma_clean_rows(b, dialect, c, k, 0, body_start(b), None, false, body_start(b));
        } else {
            lemma_clean_bom(b, dialect, c, k);
        }
        assert(clean_from(b, dialect, c, k, 0, None, false, body_start(b2)));
        reveal(clean_from);
        match first_nonblank(t2.rows, 0) {
            None => {},
            Some(h2) => {
                crate::parse::lemma_first_nonblank(t2.rows, 0);
                let n2 = t2.rows.len() as int;
                assert forall|x: int| 0 <= x < n2 && checked_row(t2, h2, x) implies #[trigger] t2.rows[x].cells.len()
                    == t2.rows[h2].cells.len() by {}
                lemma_ragged_empty(t2, h2, t2.rows[h2].cells.len() as int, n2);
            },
        }
    }
}

} // verus!
