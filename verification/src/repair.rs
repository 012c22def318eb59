//! What the pad fix-all gives back: every short row, padded with its
//! missing delimiters, reads back with exactly the header's cell count,
//! and nothing else about the table changes.

use vstd::prelude::*;

use crate::dialect::{delimiter_of, Dialect};
use crate::edits::{applied, applied_from};
use crate::features::pad_rows::{pad_all, pad_edit_view};
use crate::features::ragged_rows::{
    checked_row, lemma_short_upto, ragged_diags, ragged_upto, short_rows_of, short_upto, ShortRow,
};
use crate::features::DiagData;
use crate::render::error_row;
use crate::grammar::{body_start, has_bom_bytes, spec_parse, terminator_kind, terminator_len, CR, LF};
use crate::parse::{first_nonblank, LineTerminator, Span, TableView};
use crate::reparse::{
    lemma_kinds_cons, same_error_kinds, same_bytes, lemma_cells_local, lemma_delimiter_plain, lemma_source_step, same_row, shift_cells, shift_errors, source_from,
};
use crate::grammar::{lemma_parse_cells, lemma_rows_done, lemma_rows_step, parse_cells, parse_rows, span_of};
use crate::parse::{row_is_blank, RowView};
use crate::wellformed::{lemma_parse_ordered, table_ordered};

verus! {

/// Inserting edits from `k` on and copying from `c` is copying up to `x`
/// and then going on from `x`, when `x` comes before the next edit.
pub proof fn lemma_applied_skip(b: Seq<u8>, es: Seq<(Span, Seq<u8>)>, k: int, c: int, x: int)
    requires
        0 <= k,
        0 <= c <= x,
        k < es.len() ==> x <= es[k].0.start <= b.len(),
        k >= es.len() ==> x <= b.len(),
    ensures
        applied_from(b, es, k, c) == b.subrange(c, x) + applied_from(b, es, k, x),
{
    if k < es.len() {
        let s = es[k].0.start as int;
        assert(b.subrange(c, s) =~= b.subrange(c, x) + b.subrange(x, s));
        assert(applied_from(b, es, k, c) == b.subrange(c, s) + es[k].1 + applied_from(b, es, k + 1, es[k].0.end as int));
        assert(applied_from(b, es, k, x) == b.subrange(x, s) + es[k].1 + applied_from(b, es, k + 1, es[k].0.end as int));
        assert(applied_from(b, es, k, c) =~= b.subrange(c, x) + applied_from(b, es, k, x));
    } else {
        assert(b.subrange(c, b.len() as int) =~= b.subrange(c, x) + b.subrange(x, b.len() as int));
    }
}

/// Later rows start after earlier ones end, and no row ends before it
/// starts.
pub proof fn lemma_later_rows(b: Seq<u8>, dialect: Dialect, i: int, r: int)
    requires
        b.len() <= usize::MAX,
        0 <= i < r < spec_parse(b, dialect).rows.len(),
    ensures
        spec_parse(b, dialect).rows[i].span.end < spec_parse(b, dialect).rows[r].span.start,
        spec_parse(b, dialect).rows[r].span.start <= spec_parse(b, dialect).rows[r].span.end,
        i + 1 < r ==> spec_parse(b, dialect).rows[i + 1].span.start < spec_parse(b, dialect).rows[r].span.start,
{
    lemma_parse_ordered(b, dialect);
    let t = spec_parse(b, dialect);
    assert(t.rows[r] == t.rows[r]);
    if i + 1 < r {
        assert(t.rows[i + 1].span.end < t.rows[r].span.start);
        assert(t.rows[i + 1] == t.rows[i + 1]);
    }
}

/// Every short row among rows `0..k` is listed.
proof fn lemma_short_listed(t: TableView, h: int, e: int, k: int, x: int)
    requires
        0 <= x < k <= usize::MAX,
        checked_row(t, h, x),
        t.rows[x].cells.len() < e,
    ensures
        exists|j: int| 0 <= j < short_upto(t, h, e, k).len() && (#[trigger] short_upto(t, h, e, k)[j]).row == x,
    decreases k,
{
    let prev = short_upto(t, h, e, k - 1);
    let all = short_upto(t, h, e, k);
    if x < k - 1 {
        lemma_short_listed(t, h, e, k - 1, x);
        let j = choose|j: int| 0 <= j < prev.len() && (#[trigger] prev[j]).row == x;
        assert(all[j] == prev[j]);
    } else {
        assert(all[prev.len() as int].row == x);
    }
}

/// The header's cell count, the column contract (0 without a header).
pub open spec fn header_count(t: TableView) -> int {
    match first_nonblank(t.rows, 0) {
        Some(h) => t.rows[h].cells.len() as int,
        None => 0,
    }
}

/// Row `x` is short: checked against the header and with fewer cells.
pub open spec fn short_row(t: TableView, x: int) -> bool {
    match first_nonblank(t.rows, 0) {
        Some(h) => checked_row(t, h, x) && t.rows[x].cells.len() < t.rows[h].cells.len(),
        None => false,
    }
}

/// How many cells row `x` has once every short row is padded.
pub open spec fn padded_count(t: TableView, x: int) -> int {
    if short_row(t, x) {
        header_count(t)
    } else {
        t.rows[x].cells.len() as int
    }
}

/// The fix-all's edits: every short row padded, in row order.
pub open spec fn fix_all_edits(t: TableView) -> Seq<(Span, Seq<u8>)> {
    short_rows_of(t).map_values(|s: ShortRow| pad_edit_view(t, s))
}

/// A row of a parse has at most one cell per byte and one more.
proof fn lemma_cell_count(b: Seq<u8>, dialect: Dialect, r: int)
    requires
        b.len() <= usize::MAX,
        0 <= r < spec_parse(b, dialect).rows.len(),
    ensures
        spec_parse(b, dialect).rows[r].cells.len() <= b.len() + 1,
{
    crate::wellformed::law_parse_sound(b, dialect);
    let t = spec_parse(b, dialect);
    let row = t.rows[r];
    assert(t.rows[r] == row);
    let cs = row.cells;
    assert forall|j: int| 0 <= j < cs.len() implies (#[trigger] cs[j]).span.start >= j by {
        lemma_cell_starts(b, dialect, cs, row.span.start as int, row.span.end as int, j);
    }
    let m = cs.len() as int;
    assert(cs[m - 1].span.start >= m - 1);
    assert(crate::wellformed::cell_sound(b, cs[m - 1]));
}

/// Cells that tile a row start at least one byte apart.
proof fn lemma_cell_starts(b: Seq<u8>, dialect: Dialect, cs: Seq<crate::parse::Cell>, lo: int, hi: int, j: int)
    requires
        crate::wellformed::cells_tile(b, delimiter_of(dialect), cs, lo, hi),
        0 <= lo,
        0 <= j < cs.len(),
    ensures
        cs[j].span.start >= j,
    decreases j,
{
    if j > 0 {
        lemma_cell_starts(b, dialect, cs, lo, hi, j - 1);
        assert(crate::wellformed::cells_adjacent(b, delimiter_of(dialect), cs, j - 1));
        assert(crate::wellformed::cell_sound(b, cs[j - 1]));
    }
}

/// The short rows as the ragged rule lists them: in row order, each
/// short and lacking the header's count less its own, and every short row
/// listed.
proof fn lemma_shorts(b: Seq<u8>, dialect: Dialect)
    requires
        b.len() < usize::MAX,
    ensures
        ({
            let t = spec_parse(b, dialect);
            let sh = short_rows_of(t);
            &&& forall|x: int|
                0 <= x < sh.len() ==> {
                    let s = #[trigger] sh[x];
                    &&& s.row < t.rows.len()
                    &&& short_row(t, s.row as int)
                    &&& s.missing == header_count(t) - t.rows[s.row as int].cells.len()
                    &&& s.missing >= 1
                }
            &&& forall|x: int, y: int| 0 <= x < y < sh.len() ==> (#[trigger] sh[x]).row < (#[trigger] sh[y]).row
            &&& forall|r: int|
                0 <= r < t.rows.len() && #[trigger] short_row(t, r) ==> exists|j: int|
                    0 <= j < sh.len() && (#[trigger] sh[j]).row == r
        }),
{
    let t = spec_parse(b, dialect);
    let n = t.rows.len() as int;
    crate::wellformed::law_parse_sound(b, dialect);
    match first_nonblank(t.rows, 0) {
        None => {},
        Some(h) => {
            crate::parse::lemma_first_nonblank(t.rows, 0);
            lemma_cell_count(b, dialect, h);
            let e = t.rows[h].cells.len() as int;
            assert(n <= b.len() + 1) by {
                if n > b.len() + 1 {
                    lemma_row_starts(b, dialect, n - 1);
                }
            }
            lemma_short_upto(t, h, e, n);
            let sh = short_upto(t, h, e, n);
            assert(short_rows_of(t) == sh);
            assert forall|r: int| 0 <= r < n && #[trigger] short_row(t, r) implies exists|j: int|
                0 <= j < short_rows_of(t).len() && (#[trigger] short_rows_of(t)[j]).row == r by {
                lemma_short_listed(t, h, e, n, r);
                let j = choose|j: int| 0 <= j < sh.len() && (#[trigger] sh[j]).row == r;
                assert(short_rows_of(t)[j].row == r);
            }
        },
    }
}

/// Rows start at least one byte apart.
proof fn lemma_row_starts(b: Seq<u8>, dialect: Dialect, r: int)
    requires
        b.len() <= usize::MAX,
        0 <= r < spec_parse(b, dialect).rows.len(),
    ensures
        spec_parse(b, dialect).rows[r].span.start >= r,
        spec_parse(b, dialect).rows[r].span.start <= b.len(),
    decreases r,
{
    lemma_parse_ordered(b, dialect);
    crate::wellformed::law_parse_sound(b, dialect);
    let t = spec_parse(b, dialect);
    assert(t.rows[r] == t.rows[r]);
    if r > 0 {
        lemma_row_starts(b, dialect, r - 1);
        assert(t.rows[r - 1] == t.rows[r - 1]);
        assert(t.rows[r - 1].span.end < t.rows[r].span.start);
    }
}

/// The text with every short row padded.
pub open spec fn fixed_text(b: Seq<u8>, dialect: Dialect) -> Seq<u8> {
    applied(b, fix_all_edits(spec_parse(b, dialect)))
}

/// Reading the source from row `i` at `p` and the padded text from `q`,
/// where the padded text from `q` on is the source from `p` on with the
/// pads of the short rows from index `k` of the list inserted.
#[verifier::opaque]
pub open spec fn pad_state(
    b: Seq<u8>,
    dialect: Dialect,
    i: int,
    p: int,
    ltb: Option<LineTerminator>,
    ewnb: bool,
    k: int,
    q: int,
) -> bool {
    let t = spec_parse(b, dialect);
    let sh = short_rows_of(t);
    let es = fix_all_edits(t);
    let b2 = fixed_text(b, dialect);
    &&& source_from(b, dialect, i, p, ltb, ewnb)
    &&& p <= b.len()
    &&& 0 <= k <= sh.len()
    &&& forall|j: int| 0 <= j < k ==> (#[trigger] sh[j]).row < i
    &&& forall|j: int| k <= j < sh.len() ==> (#[trigger] sh[j]).row >= i
    &&& 0 <= q <= b2.len()
    &&& b2.subrange(q, b2.len() as int) == applied_from(b, es, k, p)
    &&& k < sh.len() ==> p <= es[k].0.start <= b.len()
}

/// Whether the source row `i` is the short row at index `k` of the list.
pub open spec fn padded_here(b: Seq<u8>, dialect: Dialect, i: int, k: int) -> bool {
    let sh = short_rows_of(spec_parse(b, dialect));
    k < sh.len() && sh[k].row == i
}

/// An edit of the list sits at the end of its short row, inserting that
/// many delimiters.
proof fn lemma_edit_at(b: Seq<u8>, dialect: Dialect, k: int)
    requires
        0 <= k < short_rows_of(spec_parse(b, dialect)).len(),
    ensures
        ({
            let t = spec_parse(b, dialect);
            let s = short_rows_of(t)[k];
            let es = fix_all_edits(t);
            &&& es.len() == short_rows_of(t).len()
            &&& es[k].0.start == t.rows[s.row as int].span.end
            &&& es[k].0.end == t.rows[s.row as int].span.end
            &&& es[k].1 == Seq::new(s.missing as nat, |_j: int| delimiter_of(dialect))
        }),
{
}

/// What inserting the pads from index `k` on and copying from `x` starts
/// with: nothing only at the end of the text with no pads left; otherwise
/// the byte at `x`, or a delimiter when a pad comes first.
proof fn lemma_applied_front(b: Seq<u8>, dialect: Dialect, k: int, x: int)
    requires
        b.len() < usize::MAX,
        0 <= k <= short_rows_of(spec_parse(b, dialect)).len(),
        0 <= x <= b.len(),
        k < short_rows_of(spec_parse(b, dialect)).len() ==> x <= fix_all_edits(spec_parse(b, dialect))[k].0.start
            <= b.len(),
    ensures
        ({
            let es = fix_all_edits(spec_parse(b, dialect));
            let a = applied_from(b, es, k, x);
            &&& k == es.len() ==> a == b.subrange(x, b.len() as int)
            &&& k < es.len() ==> a.len() > 0
            &&& a.len() > 0 && x < b.len() && (k == es.len() || x < es[k].0.start) ==> a[0] == b[x]
            &&& a.len() > 0 && k < es.len() && x == es[k].0.start ==> a[0] == delimiter_of(dialect)
        }),
{
    let t = spec_parse(b, dialect);
    let es = fix_all_edits(t);
    lemma_shorts(b, dialect);
    let a = applied_from(b, es, k, x);
    if k < es.len() {
        lemma_edit_at(b, dialect, k);
        let s = short_rows_of(t)[k];
        assert(s.missing >= 1);
        assert(es[k].1.len() >= 1);
        assert(es[k].1[0] == delimiter_of(dialect));
        let st = es[k].0.start as int;
        let rest = applied_from(b, es, k + 1, es[k].0.end as int);
        assert(a == b.subrange(x, st) + es[k].1 + rest);
        if x < st {
            assert(a[0] == b.subrange(x, st)[0]);
        } else {
            assert(b.subrange(x, st).len() == 0);
            assert(a[0] == es[k].1[0]);
        }
    }
}

/// The terminator after a row reads alike in the padded text when its
/// bytes are copied and a lone `\r` is not followed by a `\n` there.
pub proof fn lemma_term_same(b: Seq<u8>, e: int, b2: Seq<u8>, e2: int)
    requires
        0 <= e <= b.len(),
        0 <= e2,
        e2 + terminator_len(b, e) <= b2.len(),
        forall|j: int| 0 <= j < terminator_len(b, e) ==> #[trigger] b2[e2 + j] == b[e + j],
        terminator_len(b, e) == 0 ==> e2 == b2.len() || !(b2[e2] == CR || b2[e2] == LF),
        terminator_len(b, e) == 1 && b[e] == CR ==> !(e2 + 1 < b2.len() && b2[e2 + 1] == LF),
    ensures
        terminator_len(b2, e2) == terminator_len(b, e),
        terminator_kind(b2, e2) == terminator_kind(b, e),
{
    if terminator_len(b, e) > 0 {
        assert(b2[e2 + 0] == b[e + 0]);
    }
    if terminator_len(b, e) == 2 {
        assert(b2[e2 + 1] == b[e + 1]);
    }
}

/// The rows after row `i` start where the source reading goes on, and the
/// next pad (for a later row) comes no earlier.
proof fn lemma_next_pad_later(b: Seq<u8>, dialect: Dialect, i: int, p: int, ltb: Option<LineTerminator>, ewnb: bool, k: int)
    requires
        b.len() < usize::MAX,
        source_from(b, dialect, i, p, ltb, ewnb),
        i < spec_parse(b, dialect).rows.len(),
        0 <= k < short_rows_of(spec_parse(b, dialect)).len(),
        short_rows_of(spec_parse(b, dialect))[k].row > i,
    ensures
        ({
            let t = spec_parse(b, dialect);
            let d = delimiter_of(dialect);
            let e = parse_cells(b, d, p, i).1;
            let next = e + terminator_len(b, e);
            next <= fix_all_edits(t)[k].0.start <= b.len() && next < b.len()
        }),
{
    let t = spec_parse(b, dialect);
    let d = delimiter_of(dialect);
    crate::reparse::lemma_source_bounds(b, dialect, i, p, ltb, ewnb);
    lemma_source_step(b, dialect, i, p, ltb, ewnb);
    lemma_shorts(b, dialect);
    let rc = parse_cells(b, d, p, i);
    let e = rc.1;
    let tl = terminator_len(b, e);
    let next = e + tl;
    let lt2 = if ltb is Some {
        ltb
    } else {
        terminator_kind(b, e)
    };
    let ewn2 = tl > 0 && next == b.len();
    let r = short_rows_of(t)[k].row as int;
    lemma_edit_at(b, dialect, k);
    lemma_later_rows(b, dialect, i, r);
    lemma_source_step(b, dialect, i + 1, next, lt2, ewn2);
    crate::reparse::lemma_row_within(b, dialect, r);
    if i + 1 < r {
        lemma_later_rows(b, dialect, i, r);
    }
}

/// Where a row the fix-all leaves alone sits in the padded text: its
/// bytes and terminator copied, then the rest of the padded text.
#[verifier::spinoff_prover]
#[verifier::rlimit(60)]
proof fn lemma_plain_layout(
    b: Seq<u8>,
    dialect: Dialect,
    i: int,
    p: int,
    ltb: Option<LineTerminator>,
    ewnb: bool,
    k: int,
    q: int,
)
    requires
        b.len() < usize::MAX,
        fixed_text(b, dialect).len() <= usize::MAX,
        pad_state(b, dialect, i, p, ltb, ewnb, k, q),
        i < spec_parse(b, dialect).rows.len(),
        !padded_here(b, dialect, i, k),
    ensures
        ({
            let t = spec_parse(b, dialect);
            let d = delimiter_of(dialect);
            let sh = short_rows_of(t);
            let es = fix_all_edits(t);
            let b2 = fixed_text(b, dialect);
            let e = parse_cells(b, d, p, i).1;
            let next = e + terminator_len(b, e);
            let a2 = applied_from(b, es, k, next);
            &&& !short_row(t, i)
            &&& 0 <= p < next <= b.len()
            &&& 0 <= q
            &&& b2.len() == q + (next - p) + a2.len()
            &&& forall|j: int| 0 <= j < next - p ==> #[trigger] b2[q + j] == b[p + j]
            &&& b2.subrange(q + (next - p), b2.len() as int) == a2
            &&& next == b.len() ==> k == sh.len() && a2.len() == 0
            &&& next < b.len() ==> a2.len() > 0
            &&& a2.len() > 0 && terminator_len(b, e) == 1 && b[e] == CR ==> a2[0] != LF
            &&& k < sh.len() ==> sh[k].row > i && next <= es[k].0.start <= b.len()
            &&& forall|j: int| k <= j < sh.len() ==> (#[trigger] sh[j]).row > i
        }),
{
    reveal(pad_state);
    let t = spec_parse(b, dialect);
    let n = t.rows.len() as int;
    let d = delimiter_of(dialect);
    let sh = short_rows_of(t);
    let es = fix_all_edits(t);
    let b2 = fixed_text(b, dialect);
    crate::reparse::lemma_source_bounds(b, dialect, i, p, ltb, ewnb);
    lemma_source_step(b, dialect, i, p, ltb, ewnb);
    lemma_shorts(b, dialect);
    lemma_delimiter_plain(dialect);
    let rc = parse_cells(b, d, p, i);
    let e = rc.1;
    let tl = terminator_len(b, e);
    let next = e + tl;
    if short_row(t, i) {
        let j = choose|j: int| 0 <= j < sh.len() && (#[trigger] sh[j]).row == i;
        if j > k {
            assert(sh[k].row < sh[j].row);
        }
    }
    if k < sh.len() {
        lemma_next_pad_later(b, dialect, i, p, ltb, ewnb, k);
    }
    lemma_applied_skip(b, es, k, p, next);
    let a2 = applied_from(b, es, k, next);
    lemma_applied_front(b, dialect, k, next);
    let whole = b2.subrange(q, b2.len() as int);
    assert(whole == b.subrange(p, next) + a2);
    assert(whole.len() == b2.len() - q);
    assert forall|j: int| 0 <= j < next - p implies #[trigger] b2[q + j] == b[p + j] by {
        assert(whole[j] == b2[q + j]);
        assert(whole[j] == b.subrange(p, next)[j]);
    }
    assert(b2.subrange(q + (next - p), b2.len() as int) =~= a2) by {
        assert forall|j: int| 0 <= j < a2.len() implies b2.subrange(q + (next - p), b2.len() as int)[j] == a2[j] by {
            assert(whole[(next - p) + j] == a2[j]);
        }
    }
    if next == b.len() {
        assert(i + 1 == n);
        assert(k == sh.len());
    }
    if a2.len() > 0 && next < b.len() && (k == es.len() || next < es[k].0.start) {
        assert(a2[0] == b[next]);
    }
}

/// A row the fix-all leaves alone reads the same in the padded text,
/// moved, and reading goes on from the same place after it.
#[verifier::spinoff_prover]
#[verifier::rlimit(100)]
proof fn lemma_pad_step_plain(
    b: Seq<u8>,
    dialect: Dialect,
    i: int,
    p: int,
    ltb: Option<LineTerminator>,
    ewnb: bool,
    k: int,
    q: int,
)
    requires
        b.len() < usize::MAX,
        fixed_text(b, dialect).len() <= usize::MAX,
        pad_state(b, dialect, i, p, ltb, ewnb, k, q),
        i < spec_parse(b, dialect).rows.len(),
        !padded_here(b, dialect, i, k),
    ensures
        ({
            let t = spec_parse(b, dialect);
            let d = delimiter_of(dialect);
            let b2 = fixed_text(b, dialect);
            let rc = parse_cells(b, d, p, i);
            let e = rc.1;
            let next = e + terminator_len(b, e);
            let lt2 = if ltb is Some {
                ltb
            } else {
                terminator_kind(b, e)
            };
            let ewn2 = terminator_len(b, e) > 0 && next == b.len();
            let e2 = q + (e - p);
            let next2 = q + (next - p);
            let rc2 = parse_cells(b2, d, q, i);
            let rest = parse_rows(b2, d, next2, i + 1, lt2, ewn2);
            &&& !short_row(t, i)
            &&& rc2 == (shift_cells(rc.0, q - p), e2, shift_errors(rc.2, q - p))
            &&& parse_rows(b2, d, q, i, ltb, ewnb) == (
                seq![RowView { span: span_of(q, e2), cells: rc2.0 }] + rest.0,
                rc2.2 + rest.1,
                rest.2,
                rest.3,
            )
            &&& pad_state(b, dialect, i + 1, next, lt2, ewn2, k, next2)
        }),
{
    reveal(pad_state);
    let t = spec_parse(b, dialect);
    let d = delimiter_of(dialect);
    let sh = short_rows_of(t);
    let es = fix_all_edits(t);
    let b2 = fixed_text(b, dialect);
    crate::reparse::lemma_source_bounds(b, dialect, i, p, ltb, ewnb);
    lemma_source_step(b, dialect, i, p, ltb, ewnb);
    lemma_plain_layout(b, dialect, i, p, ltb, ewnb, k, q);
    lemma_delimiter_plain(dialect);
    let rc = parse_cells(b, d, p, i);
    lemma_parse_cells(b, d, p, i);
    let e = rc.1;
    let tl = terminator_len(b, e);
    let next = e + tl;
    let lt2 = if ltb is Some {
        ltb
    } else {
        terminator_kind(b, e)
    };
    let ewn2 = tl > 0 && next == b.len();
    let a2 = applied_from(b, es, k, next);
    let e2 = q + (e - p);
    assert(same_row(b, p, b2, q, e - p)) by {
        assert forall|j: int| 0 <= j < e - p implies #[trigger] b[p + j] == b2[q + j] by {}
        if e < b.len() {
            assert(b2[q + (e - p)] == b[p + (e - p)]);
        }
    }
    lemma_cells_local(b, p, b2, q, e - p, p, d, i);
    lemma_rows_step(b2, d, q, i, ltb, ewnb);
    if a2.len() > 0 {
        assert(b2[q + (next - p)] == a2[0]);
    }
    assert forall|j: int| 0 <= j < tl implies #[trigger] b2[e2 + j] == b[e + j] by {
        assert(b2[q + (e - p + j)] == b[p + (e - p + j)]);
    }
    lemma_term_same(b, e, b2, e2);
    reveal(pad_state);
}

/// Where a short row sits in the padded text: its bytes copied, its pad,
/// its terminator copied, then the rest of the padded text.
#[verifier::spinoff_prover]
#[verifier::rlimit(60)]
proof fn lemma_padded_layout(
    b: Seq<u8>,
    dialect: Dialect,
    i: int,
    p: int,
    ltb: Option<LineTerminator>,
    ewnb: bool,
    k: int,
    q: int,
)
    requires
        b.len() < usize::MAX,
        fixed_text(b, dialect).len() <= usize::MAX,
        pad_state(b, dialect, i, p, ltb, ewnb, k, q),
        i < spec_parse(b, dialect).rows.len(),
        padded_here(b, dialect, i, k),
    ensures
        ({
            let t = spec_parse(b, dialect);
            let d = delimiter_of(dialect);
            let sh = short_rows_of(t);
            let es = fix_all_edits(t);
            let b2 = fixed_text(b, dialect);
            let rc = parse_cells(b, d, p, i);
            let e = rc.1;
            let next = e + terminator_len(b, e);
            let m = sh[k].missing as int;
            let a2 = applied_from(b, es, k + 1, next);
            let f = q + (e - p) + m;
            &&& short_row(t, i)
            &&& m >= 1
            &&& rc.0.len() + m == header_count(t)
            &&& rc.2.len() == 0
            &&& 0 <= p < next <= b.len()
            &&& 0 <= q
            &&& b2.len() == f + (next - e) + a2.len()
            &&& forall|j: int| 0 <= j < e - p ==> #[trigger] b2[q + j] == b[p + j]
            &&& forall|j: int| 0 <= j < m ==> #[trigger] b2[q + (e - p) + j] == d
            &&& forall|j: int| 0 <= j < next - e ==> #[trigger] b2[f + j] == b[e + j]
            &&& b2.subrange(f + (next - e), b2.len() as int) == a2
            &&& next == b.len() ==> k + 1 == sh.len() && a2.len() == 0
            &&& next < b.len() ==> a2.len() > 0
            &&& a2.len() > 0 && terminator_len(b, e) == 1 && b[e] == CR ==> a2[0] != LF
            &&& k + 1 < sh.len() ==> next <= es[k + 1].0.start <= b.len()
            &&& forall|j: int| k + 1 <= j < sh.len() ==> (#[trigger] sh[j]).row > i
        }),
{
    reveal(pad_state);
    let t = spec_parse(b, dialect);
    let n = t.rows.len() as int;
    let d = delimiter_of(dialect);
    let sh = short_rows_of(t);
    let es = fix_all_edits(t);
    let b2 = fixed_text(b, dialect);
    crate::reparse::lemma_source_bounds(b, dialect, i, p, ltb, ewnb);
    lemma_source_step(b, dialect, i, p, ltb, ewnb);
    lemma_shorts(b, dialect);
    lemma_delimiter_plain(dialect);
    let rc = parse_cells(b, d, p, i);
    let e = rc.1;
    let tl = terminator_len(b, e);
    let next = e + tl;
    let s = sh[k];
    let m = s.missing as int;
    lemma_edit_at(b, dialect, k);
    assert(short_row(t, i));
    assert(es[k].0.start == e);
    if k + 1 < sh.len() {
        assert(sh[k].row < sh[k + 1].row);
        lemma_next_pad_later(b, dialect, i, p, ltb, ewnb, k + 1);
    }
    lemma_applied_skip(b, es, k + 1, e, next);
    let a2 = applied_from(b, es, k + 1, next);
    lemma_applied_front(b, dialect, k + 1, next);
    let pad = es[k].1;
    let whole = b2.subrange(q, b2.len() as int);
    assert(whole == b.subrange(p, e) + pad + (b.subrange(e, next) + a2));
    assert(whole.len() == b2.len() - q);
    assert forall|j: int| 0 <= j < e - p implies #[trigger] b2[q + j] == b[p + j] by {
        assert(whole[j] == b2[q + j]);
    }
    assert forall|j: int| 0 <= j < m implies #[trigger] b2[q + (e - p) + j] == d by {
        assert(whole[(e - p) + j] == b2[q + (e - p) + j]);
        assert(whole[(e - p) + j] == pad[j]);
    }
    let f = q + (e - p) + m;
    assert forall|j: int| 0 <= j < next - e implies #[trigger] b2[f + j] == b[e + j] by {
        assert(whole[(e - p) + m + j] == b2[f + j]);
    }
    assert(b2.subrange(f + (next - e), b2.len() as int) =~= a2) by {
        assert forall|j: int| 0 <= j < a2.len() implies b2.subrange(f + (next - e), b2.len() as int)[j] == a2[j] by {
            assert(whole[(e - p) + m + (next - e) + j] == a2[j]);
        }
    }
    if next == b.len() {
        assert(i + 1 == n);
        if k + 1 < sh.len() {
            assert(sh[k + 1].row > i);
        }
    }
    if a2.len() > 0 && next < b.len() && (k + 1 == es.len() || next < es[k + 1].0.start) {
        assert(a2[0] == b[next]);
    }
    assert forall|j: int| k + 1 <= j < sh.len() implies (#[trigger] sh[j]).row > i by {
        assert(sh[k].row < sh[j].row);
    }
}

/// A short row reads back in the padded text with the header's cell
/// count, no errors, not blank, and reading goes on after its pad.
#[verifier::spinoff_prover]
#[verifier::rlimit(100)]
proof fn lemma_pad_step_padded(
    b: Seq<u8>,
    dialect: Dialect,
    i: int,
    p: int,
    ltb: Option<LineTerminator>,
    ewnb: bool,
    k: int,
    q: int,
)
    requires
        b.len() < usize::MAX,
        fixed_text(b, dialect).len() <= usize::MAX,
        pad_state(b, dialect, i, p, ltb, ewnb, k, q),
        i < spec_parse(b, dialect).rows.len(),
        padded_here(b, dialect, i, k),
    ensures
        ({
            let t = spec_parse(b, dialect);
            let d = delimiter_of(dialect);
            let b2 = fixed_text(b, dialect);
            let rc = parse_cells(b, d, p, i);
            let e = rc.1;
            let next = e + terminator_len(b, e);
            let lt2 = if ltb is Some {
                ltb
            } else {
                terminator_kind(b, e)
            };
            let ewn2 = terminator_len(b, e) > 0 && next == b.len();
            let m = short_rows_of(t)[k].missing as int;
            let e2 = q + (e - p) + m;
            let next2 = q + (next - p) + m;
            let rc2 = parse_cells(b2, d, q, i);
            let rest = parse_rows(b2, d, next2, i + 1, lt2, ewn2);
            &&& short_row(t, i)
            &&& rc.2.len() == 0
            &&& rc2.0.len() == header_count(t)
            &&& rc2.0.len() >= 2
            &&& rc2.1 == e2
            &&& rc2.2.len() == 0
            &&& parse_rows(b2, d, q, i, ltb, ewnb) == (
                seq![RowView { span: span_of(q, e2), cells: rc2.0 }] + rest.0,
                rc2.2 + rest.1,
                rest.2,
                rest.3,
            )
            &&& pad_state(b, dialect, i + 1, next, lt2, ewn2, k + 1, next2)
        }),
{
    reveal(pad_state);
    let t = spec_parse(b, dialect);
    let d = delimiter_of(dialect);
    let sh = short_rows_of(t);
    let es = fix_all_edits(t);
    let b2 = fixed_text(b, dialect);
    crate::reparse::lemma_source_bounds(b, dialect, i, p, ltb, ewnb);
    lemma_source_step(b, dialect, i, p, ltb, ewnb);
    lemma_padded_layout(b, dialect, i, p, ltb, ewnb, k, q);
    lemma_delimiter_plain(dialect);
    let rc = parse_cells(b, d, p, i);
    lemma_parse_cells(b, d, p, i);
    let e = rc.1;
    let tl = terminator_len(b, e);
    let next = e + tl;
    let m = sh[k].missing as int;
    let a2 = applied_from(b, es, k + 1, next);
    let f = q + (e - p) + m;
    if e < b.len() {
        assert(b2[f + 0] == b[e + 0]);
    }
    assert(same_bytes(b, p, b2, q, e - p)) by {
        assert forall|j: int| 0 <= j < e - p implies #[trigger] b[p + j] == b2[q + j] by {}
    }
    assert forall|j: int| 0 <= j < m implies #[trigger] b2[q + (e - p) + j] == d by {}
    crate::reparse::lemma_padded_cells(b, p, b2, q, e - p, p, m, d, i);
    lemma_rows_step(b2, d, q, i, ltb, ewnb);
    if a2.len() > 0 {
        assert(b2[f + (next - e)] == a2[0]);
    }
    lemma_term_same(b, e, b2, f);
}

/// The rows of the padded text from `q` on are the source's rows from `i`
/// on with every short row at the header's count: the same number of
/// rows, the same blankness, the same error kinds on the same rows, and
/// the same terminator state.
#[verifier::opaque]
pub open spec fn pad_reads_from(
    b: Seq<u8>,
    dialect: Dialect,
    i: int,
    p: int,
    ltb: Option<LineTerminator>,
    ewnb: bool,
    q: int,
) -> bool {
    let t = spec_parse(b, dialect);
    let d = delimiter_of(dialect);
    let a = parse_rows(b, d, p, i, ltb, ewnb);
    let bb = parse_rows(fixed_text(b, dialect), d, q, i, ltb, ewnb);
    &&& bb.0.len() == a.0.len()
    &&& forall|j: int|
        0 <= j < bb.0.len() ==> {
            &&& (#[trigger] bb.0[j]).cells.len() == padded_count(t, i + j)
            &&& row_is_blank(bb.0[j]) == row_is_blank(a.0[j])
        }
    &&& same_error_kinds(a.1, bb.1)
    &&& bb.2 == a.2
    &&& bb.3 == a.3
}

/// Moving a row's cells keeps its blankness.
pub proof fn lemma_moved_blank(cs: Seq<crate::parse::Cell>, delta: int, lo: int, hi: int, sp: Span, sp2: Span)
    requires
        cs.len() == 1 ==> lo <= cs[0].content_span.start <= cs[0].content_span.end <= hi,
        0 <= lo + delta,
        hi + delta <= usize::MAX,
    ensures
        row_is_blank(RowView { span: sp2, cells: shift_cells(cs, delta) }) == row_is_blank(RowView { span: sp, cells: cs }),
{
    if cs.len() == 1 {
        assert(shift_cells(cs, delta)[0] == crate::reparse::shift_cell(cs[0], delta));
    }
}

/// Reading the padded text row by row alongside the source.
#[verifier::spinoff_prover]
#[verifier::rlimit(100)]
proof fn lemma_pad_rows(
    b: Seq<u8>,
    dialect: Dialect,
    i: int,
    p: int,
    ltb: Option<LineTerminator>,
    ewnb: bool,
    k: int,
    q: int,
)
    requires
        b.len() < usize::MAX,
        fixed_text(b, dialect).len() <= usize::MAX,
        pad_state(b, dialect, i, p, ltb, ewnb, k, q),
    ensures
        pad_reads_from(b, dialect, i, p, ltb, ewnb, q),
    decreases b.len() - p,
{
    reveal(pad_reads_from);
    let t = spec_parse(b, dialect);
    let n = t.rows.len() as int;
    let d = delimiter_of(dialect);
    let b2 = fixed_text(b, dialect);
    let a = parse_rows(b, d, p, i, ltb, ewnb);
    let bb = parse_rows(b2, d, q, i, ltb, ewnb);
    assert(source_from(b, dialect, i, p, ltb, ewnb) && p <= b.len() && 0 <= q <= b2.len() && 0 <= k <= short_rows_of(t).len()) by {
        reveal(pad_state);
    }
    crate::reparse::lemma_source_bounds(b, dialect, i, p, ltb, ewnb);
    if i == n {
        lemma_pad_end(b, dialect, i, p, ltb, ewnb, k, q);
        return;
    }
    lemma_source_step(b, dialect, i, p, ltb, ewnb);
    let rc = parse_cells(b, d, p, i);
    let e = rc.1;
    let tl = terminator_len(b, e);
    let next = e + tl;
    let lt2 = if ltb is Some {
        ltb
    } else {
        terminator_kind(b, e)
    };
    let ewn2 = tl > 0 && next == b.len();
    let a2 = parse_rows(b, d, next, i + 1, lt2, ewn2);
    let rc2 = parse_cells(b2, d, q, i);
    if padded_here(b, dialect, i, k) {
        lemma_pad_step_padded(b, dialect, i, p, ltb, ewnb, k, q);
        let m = short_rows_of(t)[k].missing as int;
        let next2 = q + (next - p) + m;
        lemma_pad_rows(b, dialect, i + 1, next, lt2, ewn2, k + 1, next2);
        reveal(pad_reads_from);
        let b2r = parse_rows(b2, d, next2, i + 1, lt2, ewn2);
        let row2 = RowView { span: span_of(q, q + (e - p) + m), cells: rc2.0 };
        assert(bb.0 == seq![row2] + b2r.0);
        assert forall|j: int| 0 <= j < bb.0.len() implies {
            &&& (#[trigger] bb.0[j]).cells.len() == padded_count(t, i + j)
            &&& row_is_blank(bb.0[j]) == row_is_blank(a.0[j])
        } by {
            if j > 0 {
                assert(bb.0[j] == b2r.0[j - 1]);
                assert(a.0[j] == a2.0[j - 1]);
                assert(i + 1 + (j - 1) == i + j);
            } else {
                assert(a.0[0] == t.rows[i]);
            }
        }
        lemma_kinds_cons(rc.2, a2.1, rc2.2, b2r.1, q - p, false);
    } else {
        lemma_pad_step_plain(b, dialect, i, p, ltb, ewnb, k, q);
        let next2 = q + (next - p);
        lemma_pad_rows(b, dialect, i + 1, next, lt2, ewn2, k, next2);
        reveal(pad_reads_from);
        let b2r = parse_rows(b2, d, next2, i + 1, lt2, ewn2);
        let row2 = RowView { span: span_of(q, q + (e - p)), cells: rc2.0 };
        assert(bb.0 == seq![row2] + b2r.0);
        lemma_parse_cells(b2, d, q, i);
        if rc.0.len() == 1 {
            crate::reparse::lemma_content_within(b, dialect, i, 0);
            assert(t.rows[i].cells == rc.0);
        }
        lemma_moved_blank(rc.0, q - p, p, e, span_of(p, e), row2.span);
        assert forall|j: int| 0 <= j < bb.0.len() implies {
            &&& (#[trigger] bb.0[j]).cells.len() == padded_count(t, i + j)
            &&& row_is_blank(bb.0[j]) == row_is_blank(a.0[j])
        } by {
            if j > 0 {
                assert(bb.0[j] == b2r.0[j - 1]);
                assert(a.0[j] == a2.0[j - 1]);
                assert(i + 1 + (j - 1) == i + j);
            } else {
                assert(a.0[0] == t.rows[i]);
            }
        }
        lemma_kinds_cons(rc.2, a2.1, rc2.2, b2r.1, q - p, true);
    }
}

/// Past the last row, both readings are done.
proof fn lemma_pad_end(
    b: Seq<u8>,
    dialect: Dialect,
    i: int,
    p: int,
    ltb: Option<LineTerminator>,
    ewnb: bool,
    k: int,
    q: int,
)
    requires
        b.len() < usize::MAX,
        pad_state(b, dialect, i, p, ltb, ewnb, k, q),
        i == spec_parse(b, dialect).rows.len(),
    ensures
        pad_reads_from(b, dialect, i, p, ltb, ewnb, q),
{
    reveal(pad_state);
    reveal(pad_reads_from);
    reveal(source_from);
    let t = spec_parse(b, dialect);
    let d = delimiter_of(dialect);
    let b2 = fixed_text(b, dialect);
    let sh = short_rows_of(t);
    let a = parse_rows(b, d, p, i, ltb, ewnb);
    lemma_shorts(b, dialect);
    if p < b.len() {
        lemma_rows_step(b, d, p, i, ltb, ewnb);
        assert(a.0.len() >= 1);
    }
    lemma_rows_done(b, d, p, i, ltb, ewnb);
    if k < sh.len() {
        assert(sh[k].row >= i);
    }
    assert(k == sh.len());
    assert(b2.subrange(q, b2.len() as int).len() == 0);
    lemma_rows_done(b2, d, q, i, ltb, ewnb);
}

/// The padded text starts like the source: same byte-order mark, and
/// from the first row on it is the source with the pads inserted.
proof fn lemma_pad_top(b: Seq<u8>, dialect: Dialect)
    requires
        b.len() < usize::MAX,
        fixed_text(b, dialect).len() <= usize::MAX,
    ensures
        has_bom_bytes(fixed_text(b, dialect)) == has_bom_bytes(b),
        pad_state(b, dialect, 0, body_start(b), None, false, 0, body_start(b)),
{
    reveal(pad_state);
    let t = spec_parse(b, dialect);
    let sh = short_rows_of(t);
    let es = fix_all_edits(t);
    let b2 = fixed_text(b, dialect);
    let p0 = body_start(b);
    crate::reparse::lemma_source_top(b, dialect);
    lemma_shorts(b, dialect);
    lemma_delimiter_plain(dialect);
    crate::wellformed::law_parse_sound(b, dialect);
    if sh.len() > 0 {
        lemma_edit_at(b, dialect, 0);
        let r = sh[0].row as int;
        assert(t.rows[r] == t.rows[r]);
    }
    lemma_applied_skip(b, es, 0, 0, p0);
    assert(b2 == b.subrange(0, p0) + applied_from(b, es, 0, p0));
    assert(b2.subrange(p0, b2.len() as int) =~= applied_from(b, es, 0, p0));
    if has_bom_bytes(b) {
        assert(b2[0] == b[0] && b2[1] == b[1] && b2[2] == b[2]);
    } else if sh.len() == 0 {
        assert(b2 =~= b);
    } else {
        let x = es[0].0.start as int;
        lemma_applied_front(b, dialect, 0, 0);
        lemma_applied_skip(b, es, 0, 0, x);
        assert(b2 == b.subrange(0, x) + applied_from(b, es, 0, x));
        lemma_applied_front(b, dialect, 0, x);
        if x < 3 {
            assert(b2[x] == applied_from(b, es, 0, x)[0]);
            crate::reparse::lemma_plain_no_bom(b2, x);
        } else {
            assert(b2[0] == b[0] && b2[1] == b[1] && b2[2] == b[2]);
        }
    }
}

/// Rows with the same blankness have the same first non-blank row.
pub proof fn lemma_first_nonblank_same(r1: Seq<RowView>, r2: Seq<RowView>, i: int)
    requires
        r1.len() == r2.len(),
        forall|x: int| 0 <= x < r1.len() ==> row_is_blank(#[trigger] r1[x]) == row_is_blank(r2[x]),
    ensures
        first_nonblank(r1, i) == first_nonblank(r2, i),
    decreases r1.len() - i,
{
    if 0 <= i < r1.len() {
        assert(row_is_blank(r1[i]) == row_is_blank(r2[i]));
        lemma_first_nonblank_same(r1, r2, i + 1);
    }
}

/// After padding, no checked row lacks cells: the rows before `k` list no
/// short row.
proof fn lemma_no_short_left(t: TableView, t2: TableView, h: int, e: int, k: int)
    requires
        0 <= k <= t2.rows.len(),
        t2.rows.len() == t.rows.len(),
        first_nonblank(t.rows, 0) == Some(h),
        e == t.rows[h].cells.len(),
        forall|x: int|
            0 <= x < t2.rows.len() ==> {
                &&& (#[trigger] t2.rows[x]).cells.len() == padded_count(t, x)
                &&& row_is_blank(t2.rows[x]) == row_is_blank(t.rows[x])
                &&& error_row(t2, x) == error_row(t, x)
            },
    ensures
        short_upto(t2, h, e, k).len() == 0,
        forall|j: int| 0 <= j < ragged_upto(t2, h, e, k).len() ==> (#[trigger] ragged_upto(t2, h, e, k)[j]).data
            matches Some(DiagData::Extra { .. }),
    decreases k,
{
    if k > 0 {
        lemma_no_short_left(t, t2, h, e, k - 1);
        let x = k - 1;
        assert(t2.rows[x] == t2.rows[x]);
        if checked_row(t2, h, x) {
            assert(checked_row(t, h, x));
            if short_row(t, x) {
                assert(padded_count(t, x) == e);
            }
        }
        let prev = ragged_upto(t2, h, e, k - 1);
        let all = ragged_upto(t2, h, e, k);
        assert forall|j: int| 0 <= j < all.len() implies (#[trigger] all[j]).data matches Some(DiagData::Extra { .. }) by {
            if j < prev.len() {
                assert(all[j] == prev[j]);
            }
        }
    }
}

/// The pad fix-all repairs every short row: in the padded text no row
/// lacks cells, so the ragged-row rule reports only rows with extra cells;
/// the rows, their blankness and their errors stay as they were, and
/// every short row now has the header's cell count.
pub proof fn law_fix_all_repairs(b: Seq<u8>, dialect: Dialect)
    requires
        b.len() < usize::MAX,
        fixed_text(b, dialect).len() <= usize::MAX,
    ensures
        ({
            let t = spec_parse(b, dialect);
            let t2 = spec_parse(fixed_text(b, dialect), dialect);
            &&& fix_all_edits(t) == pad_all(t, short_rows_of(t)).edits
            &&& t2.rows.len() == t.rows.len()
            &&& forall|x: int|
                0 <= x < t2.rows.len() ==> {
                    &&& (#[trigger] t2.rows[x]).cells.len() == padded_count(t, x)
                    &&& row_is_blank(t2.rows[x]) == row_is_blank(t.rows[x])
                }
            &&& same_error_kinds(t.errors, t2.errors)
            &&& short_rows_of(t2).len() == 0
            &&& forall|j: int| 0 <= j < ragged_diags(t2).len() ==> (#[trigger] ragged_diags(t2)[j]).data
                matches Some(DiagData::Extra { .. })
        }),
{
    let t = spec_parse(b, dialect);
    let b2 = fixed_text(b, dialect);
    let t2 = spec_parse(b2, dialect);
    lemma_pad_top(b, dialect);
    lemma_pad_rows(b, dialect, 0, body_start(b), None, false, 0, body_start(b));
    reveal(pad_reads_from);
    assert(body_start(b2) == body_start(b));
    assert forall|x: int| 0 <= x < t2.rows.len() implies {
        &&& (#[trigger] t2.rows[x]).cells.len() == padded_count(t, x)
        &&& row_is_blank(t2.rows[x]) == row_is_blank(t.rows[x])
        &&& error_row(t2, x) == error_row(t, x)
    } by {
        assert(0 + x == x);
        crate::reparse::lemma_error_rows_agree(t, t2, x);
    }
    lemma_first_nonblank_same(t.rows, t2.rows, 0);
    match first_nonblank(t.rows, 0) {
        None => {},
        Some(h) => {
            crate::parse::lemma_first_nonblank(t.rows, 0);
            assert(!short_row(t, h));
            lemma_no_short_left(t, t2, h, t.rows[h].cells.len() as int, t2.rows.len() as int);
        },
    }
}

/// After the pad fix-all, the standard rules report no row as missing
/// cells: the parse-error rule reports no row counts at all, and the
/// ragged-row rule reports only rows with extra cells.
pub proof fn law_fix_all_leaves_no_missing(b: Seq<u8>, dialect: Dialect)
    requires
        b.len() < usize::MAX,
        fixed_text(b, dialect).len() <= usize::MAX,
    ensures
        ({
            let t2 = spec_parse(fixed_text(b, dialect), dialect);
            let ds = crate::features::rules_output(
                seq![crate::features::Rule::ParseErrors, crate::features::Rule::RaggedRows],
                t2,
                2,
            );
            forall|k: int| 0 <= k < ds.len() ==> !((#[trigger] ds[k]).data matches Some(DiagData::Missing { .. }))
        }),
{
    law_fix_all_repairs(b, dialect);
    let t2 = spec_parse(fixed_text(b, dialect), dialect);
    let rules = seq![crate::features::Rule::ParseErrors, crate::features::Rule::RaggedRows];
    let pe = crate::features::parse_errors::parse_error_diags(t2.errors);
    let rg = ragged_diags(t2);
    assert(crate::features::rules_output(rules, t2, 0) == Seq::<crate::features::DiagView>::empty());
    assert(crate::features::rules_output(rules, t2, 1) =~= pe);
    let ds = crate::features::rules_output(rules, t2, 2);
    assert(ds =~= pe + rg);
    assert forall|k: int| 0 <= k < ds.len() implies !((#[trigger] ds[k]).data matches Some(DiagData::Missing { .. })) by {
        if k < pe.len() {
            assert(ds[k] == crate::features::parse_errors::error_diag(t2.errors[k]));
        } else {
            assert(ds[k] == rg[k - pe.len()]);
        }
    }
}

} // verus!
