//! Adding an empty column right of a column and then deleting that new
//! column gives the text back, byte for byte.

use vstd::prelude::*;

use crate::dialect::{delimiter_of, Dialect};
use crate::edits::{applied, applied_from};
use crate::features::columns::{change_edit, change_edits_upto, column_actions, editable_row, ColumnChange};
use crate::grammar::{body_start, parse_rows, spec_parse};
use crate::insertion::{
    changed_text, clean, column_edits, edits_before, law_added_column, lemma_add_edit_at, lemma_add_spans, lemma_add_top,
};
use crate::parse::{cell_at_spec, Span, TableView};
use crate::reparse::lemma_error_rows_agree;
use crate::wellformed::lemma_parse_ordered;

verus! {

/// Inserting one byte at each of a list of places, and then deleting one
/// byte at each place those bytes went, gives the text back (from `p` on,
/// with the edits from `k` on).
pub proof fn lemma_insert_then_delete(
    b: Seq<u8>,
    a: Seq<u8>,
    es: Seq<(Span, Seq<u8>)>,
    es2: Seq<(Span, Seq<u8>)>,
    k: int,
    p: int,
)
    requires
        0 <= k <= es.len(),
        es2.len() == es.len(),
        0 <= p <= b.len(),
        forall|j: int|
            k <= j < es.len() ==> p <= (#[trigger] es[j]).0.start && es[j].0.start == es[j].0.end && es[j].0.end
                <= b.len() && es[j].1.len() == 1,
        forall|i: int, j: int| k <= i < j < es.len() ==> (#[trigger] es[i]).0.end <= (#[trigger] es[j]).0.start,
        forall|j: int|
            k <= j < es.len() ==> (#[trigger] es2[j]).0.start == es[j].0.start + j && es2[j].0.end == es[j].0.start
                + j + 1 && es2[j].1 == Seq::<u8>::empty(),
        p + k <= a.len(),
        a.subrange(p + k, a.len() as int) == applied_from(b, es, k, p),
    ensures
        applied_from(a, es2, k, p + k) == b.subrange(p, b.len() as int),
    decreases es.len() - k,
{
    if k < es.len() {
        let x = es[k].0.start as int;
        let rest = applied_from(b, es, k + 1, x);
        let whole = a.subrange(p + k, a.len() as int);
        assert(whole == b.subrange(p, x) + es[k].1 + rest);
        assert(a.subrange(p + k, x + k) =~= b.subrange(p, x)) by {
            assert forall|z: int| 0 <= z < x - p implies a.subrange(p + k, x + k)[z] == b.subrange(p, x)[z] by {
                assert(whole[z] == a[p + k + z]);
            }
        }
        assert(a.subrange(x + (k + 1), a.len() as int) =~= rest) by {
            assert forall|z: int| 0 <= z < rest.len() implies a.subrange(x + (k + 1), a.len() as int)[z]
                == rest[z] by {
                assert(whole[(x - p) + 1 + z] == a[p + k + (x - p) + 1 + z]);
            }
        }
        assert forall|j: int| k + 1 <= j < es.len() implies x <= (#[trigger] es[j]).0.start by {
            assert(es[k].0.end <= es[j].0.start);
        }
        lemma_insert_then_delete(b, a, es, es2, k + 1, x);
        assert(b.subrange(p, x) + b.subrange(x, b.len() as int) =~= b.subrange(p, b.len() as int));
    }
}

/// The edits that add a column right of column `c` over rows `0..n`:
/// each inserts one byte at a place of the text, in text order, all before
/// the end of row `n - 1`.
proof fn lemma_add_edits_ordered(b: Seq<u8>, dialect: Dialect, c: int, n: int)
    requires
        b.len() <= usize::MAX,
        0 <= n <= spec_parse(b, dialect).rows.len(),
    ensures
        ({
            let t = spec_parse(b, dialect);
            let es = change_edits_upto(t, c, ColumnChange::AddRight, n);
            &&& forall|j: int|
                0 <= j < es.len() ==> 0 <= (#[trigger] es[j]).0.start && es[j].0.start == es[j].0.end && es[j].0.end
                    <= b.len() && es[j].1.len() == 1 && es[j].0.start <= t.rows[n - 1].span.end
            &&& forall|i: int, j: int| 0 <= i < j < es.len() ==> (#[trigger] es[i]).0.end <= (#[trigger] es[j]).0.start
        }),
    decreases n,
{
    if n > 0 {
        let t = spec_parse(b, dialect);
        let ch = ColumnChange::AddRight;
        lemma_add_edits_ordered(b, dialect, c, n - 1);
        lemma_parse_ordered(b, dialect);
        let prev = change_edits_upto(t, c, ch, n - 1);
        let es = change_edits_upto(t, c, ch, n);
        assert(t.rows[n - 1] == t.rows[n - 1]);
        if n > 1 {
            assert(t.rows[n - 2].span.end < t.rows[n - 1].span.start);
        }
        crate::reparse::lemma_row_within(b, dialect, n - 1);
        if editable_row(t, n - 1, c) {
            lemma_add_edit_at(b, dialect, c, ch, n - 1);
            assert(es == prev.push(change_edit(t, n - 1, c, ch)));
            assert forall|j: int|
                0 <= j < es.len() implies 0 <= (#[trigger] es[j]).0.start && es[j].0.start == es[j].0.end
                    && es[j].0.end <= b.len() && es[j].1.len() == 1 && es[j].0.start <= t.rows[n - 1].span.end by {
                if j < prev.len() {
                    assert(es[j] == prev[j]);
                }
            }
            assert forall|i: int, j: int| 0 <= i < j < es.len() implies (#[trigger] es[i]).0.end
                <= (#[trigger] es[j]).0.start by {
                assert(es[i] == prev[i]);
                if j < prev.len() {
                    assert(es[j] == prev[j]);
                }
            }
        } else {
            assert(es =~= prev);
        }
    }
}

/// The edits that delete column `c + 1` of the text with a column added
/// right of column `c` each remove, one place later per edit before
/// them, the byte the adding edits inserted.
proof fn lemma_delete_edits_match(t: TableView, t2: TableView, c: int, n: int)
    requires
        0 <= c,
        0 <= n <= t.rows.len(),
        t2.rows.len() == t.rows.len(),
        forall|x: int| 0 <= x < t.rows.len() ==> #[trigger] editable_row(t2, x, c + 1) == editable_row(t, x, c),
        forall|x: int|
            0 <= x < t.rows.len() && #[trigger] editable_row(t, x, c) ==> t2.rows[x].cells[c].span.end
                == t.rows[x].cells[c].span.end + edits_before(t, c, ColumnChange::AddRight, x)
                && t2.rows[x].cells[c + 1].span.end == t.rows[x].cells[c].span.end + edits_before(
                t,
                c,
                ColumnChange::AddRight,
                x,
            ) + 1,
    ensures
        ({
            let es = change_edits_upto(t, c, ColumnChange::AddRight, n);
            let es2 = change_edits_upto(t2, c + 1, ColumnChange::Delete, n);
            &&& es2.len() == es.len()
            &&& forall|j: int|
                0 <= j < es.len() ==> (#[trigger] es2[j]).0.start == es[j].0.start + j && es2[j].0.end
                    == es[j].0.start + j + 1 && es2[j].1 == Seq::<u8>::empty()
        }),
    decreases n,
{
    if n > 0 {
        lemma_delete_edits_match(t, t2, c, n - 1);
        let ch = ColumnChange::AddRight;
        let prev = change_edits_upto(t, c, ch, n - 1);
        let prev2 = change_edits_upto(t2, c + 1, ColumnChange::Delete, n - 1);
        let es = change_edits_upto(t, c, ch, n);
        let es2 = change_edits_upto(t2, c + 1, ColumnChange::Delete, n);
        assert(editable_row(t2, n - 1, c + 1) == editable_row(t, n - 1, c));
        if editable_row(t, n - 1, c) {
            assert(es == prev.push(change_edit(t, n - 1, c, ch)));
            assert(es2 == prev2.push(change_edit(t2, n - 1, c + 1, ColumnChange::Delete)));
            assert(edits_before(t, c, ch, n - 1) == prev.len());
            assert forall|j: int| 0 <= j < es.len() implies (#[trigger] es2[j]).0.start == es[j].0.start + j
                && es2[j].0.end == es[j].0.start + j + 1 && es2[j].1 == Seq::<u8>::empty() by {
                if j < prev.len() {
                    assert(es[j] == prev[j]);
                    assert(es2[j] == prev2[j]);
                }
            }
        } else {
            assert(es =~= prev);
            assert(es2 =~= prev2);
        }
    }
}

/// Adding an empty column right of column `c` and then deleting the new
/// column (column `c + 1` of the changed text) gives the text back, byte
/// for byte, for every text.
pub proof fn law_add_then_delete(b: Seq<u8>, dialect: Dialect, c: int)
    requires
        b.len() <= usize::MAX,
        changed_text(b, dialect, c, ColumnChange::AddRight).len() <= usize::MAX,
        0 <= c,
    ensures
        changed_text(changed_text(b, dialect, c, ColumnChange::AddRight), dialect, c + 1, ColumnChange::Delete) == b,
{
    let ch = ColumnChange::AddRight;
    let t = spec_parse(b, dialect);
    let n = t.rows.len() as int;
    let d = delimiter_of(dialect);
    let a = changed_text(b, dialect, c, ch);
    let t2 = spec_parse(a, dialect);
    law_added_column(b, dialect, c, ch);
    lemma_add_top(b, dialect, c, ch);
    let p0 = body_start(b);
    assert(body_start(a) == p0);
    assert(edits_before(t, c, ch, 0) == 0);
    lemma_add_spans(b, dialect, c, 0, p0, None, false, p0);
    assert(t.rows == parse_rows(b, d, p0, 0, None, false).0);
    assert(t2.rows == parse_rows(a, d, p0, 0, None, false).0);
    lemma_editable_match(b, dialect, c);
    assert forall|x: int|
        0 <= x < n && #[trigger] editable_row(t, x, c) implies t2.rows[x].cells[c].span.end
            == t.rows[x].cells[c].span.end + edits_before(t, c, ch, x) && t2.rows[x].cells[c + 1].span.end
            == t.rows[x].cells[c].span.end + edits_before(t, c, ch, x) + 1 by {
        assert(0 + x == x);
        assert(t2.rows[x] == parse_rows(a, d, p0, 0, None, false).0[x]);
    }
    lemma_delete_edits_match(t, t2, c, n);
    lemma_add_edits_ordered(b, dialect, c, n);
    let es = column_edits(t, c, ch);
    let es2 = column_edits(t2, c + 1, ColumnChange::Delete);
    assert(a.subrange(0, a.len() as int) =~= applied_from(b, es, 0, 0));
    lemma_insert_then_delete(b, a, es, es2, 0, 0);
    assert(b.subrange(0, b.len() as int) =~= b);
}

/// The rows that take part in a change of column `c + 1` of the text with
/// a column added right of column `c` are those that took part in the
/// change of column `c`.
proof fn lemma_editable_match(b: Seq<u8>, dialect: Dialect, c: int)
    requires
        b.len() <= usize::MAX,
        changed_text(b, dialect, c, ColumnChange::AddRight).len() <= usize::MAX,
        0 <= c,
    ensures
        ({
            let t = spec_parse(b, dialect);
            let t2 = spec_parse(changed_text(b, dialect, c, ColumnChange::AddRight), dialect);
            &&& t2.rows.len() == t.rows.len()
            &&& forall|x: int|
                0 <= x < t.rows.len() ==> #[trigger] editable_row(t2, x, c + 1) == editable_row(t, x, c)
        }),
{
    let t = spec_parse(b, dialect);
    let t2 = spec_parse(changed_text(b, dialect, c, ColumnChange::AddRight), dialect);
    law_added_column(b, dialect, c, ColumnChange::AddRight);
    assert forall|x: int| 0 <= x < t.rows.len() implies #[trigger] editable_row(t2, x, c + 1) == editable_row(
        t,
        x,
        c,
    ) by {
        lemma_error_rows_agree(t, t2, x);
        assert(t2.rows[x] == t2.rows[x]);
    }
}

/// Every change of a column takes the same rows, so makes as many edits.
proof fn lemma_edit_counts(t: TableView, c: int, ch1: ColumnChange, ch2: ColumnChange, n: int)
    ensures
        change_edits_upto(t, c, ch1, n).len() == change_edits_upto(t, c, ch2, n).len(),
    decreases n,
{
    if n > 0 {
        lemma_edit_counts(t, c, ch1, ch2, n - 1);
    }
}

/// The rows taking part in a change of column `c + 1` of `t2` are those
/// taking part in a change of column `c` of `t`, so the changes make as
/// many edits.
proof fn lemma_edit_counts_match(t: TableView, t2: TableView, c: int, n: int)
    requires
        0 <= n <= t.rows.len(),
        forall|x: int| 0 <= x < t.rows.len() ==> #[trigger] editable_row(t2, x, c + 1) == editable_row(t, x, c),
    ensures
        change_edits_upto(t2, c + 1, ColumnChange::AddLeft, n).len() == change_edits_upto(
            t,
            c,
            ColumnChange::AddLeft,
            n,
        ).len(),
    decreases n,
{
    if n > 0 {
        lemma_edit_counts_match(t, t2, c, n - 1);
        assert(editable_row(t2, n - 1, c + 1) == editable_row(t, n - 1, c));
    }
}

/// The column actions round-trip: applying "Add column right of …" at a
/// cursor in column `c` and then, with the cursor in the new column
/// `c + 1`, "Delete column …" gives the text back byte for byte; and when
/// the text had neither parse errors nor ragged rows, neither has the text
/// with the column added.
pub proof fn law_column_actions_round_trip(b: Seq<u8>, dialect: Dialect, at: int, at2: int)
    requires
        b.len() <= usize::MAX,
        ({
            let t = spec_parse(b, dialect);
            let acts = column_actions(b, t, at);
            &&& acts.len() > 0
            &&& applied(b, acts[1].edits).len() <= usize::MAX
            &&& cell_at_spec(spec_parse(applied(b, acts[1].edits), dialect), at2) matches Some((_r2, c2)) && (
            cell_at_spec(t, at) matches Some((_r, c)) && c2 == c + 1)
        }),
    ensures
        ({
            let t = spec_parse(b, dialect);
            let a = applied(b, column_actions(b, t, at)[1].edits);
            let t2 = spec_parse(a, dialect);
            let acts2 = column_actions(a, t2, at2);
            &&& acts2.len() == 3
            &&& applied(a, acts2[2].edits) == b
            &&& clean(t) ==> clean(t2)
        }),
{
    let t = spec_parse(b, dialect);
    let n = t.rows.len() as int;
    let c = (cell_at_spec(t, at)->0).1;
    crate::parse::law_cell_at_sound(t, at);
    let a = changed_text(b, dialect, c, ColumnChange::AddRight);
    assert(column_actions(b, t, at)[1].edits == column_edits(t, c, ColumnChange::AddRight));
    let t2 = spec_parse(a, dialect);
    law_added_column(b, dialect, c, ColumnChange::AddRight);
    lemma_editable_match(b, dialect, c);
    lemma_edit_counts_match(t, t2, c, n);
    let acts2 = column_actions(a, t2, at2);
    assert(acts2[2].edits == column_edits(t2, c + 1, ColumnChange::Delete));
    law_add_then_delete(b, dialect, c);
}

} // verus!
