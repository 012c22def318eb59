//! Structural column editing at the cursor: insert an empty column left or
//! right of the current one, or delete it across the whole file.
//!
//! Edits cover clean rows that have the column: blank rows, parse-error
//! rows and shorter rows are skipped (the latter stay ragged and keep their
//! pad quickfix). Because the header row is edited too, the column contract
//! shifts coherently: clean files stay clean.

use vstd::prelude::*;

use std::collections::HashSet;
use vstd::string::StringSliceAdditionalSpecFns;
use vstd::utf8::*;

use crate::dialect::delimiter_of;
use crate::edits::{edit_view, edits_applicable, edits_view, edits_whole, lemma_push_applicable, lemma_push_whole};
use crate::features::quote::{column_title, column_title_of};
use crate::features::{
    action_sound, actions_view, all_sound, diags_view, Action, ActionContext, ActionKind, ActionProvider, ActionView,
};
use crate::parse::{cell_at_spec, row_is_blank, Row, RowView, Span, Table, TableView};
use crate::render::{error_row, error_row_set};
use crate::text::{push_ascii, push_text, string_bytes, string_from_utf8, to_owned_string};
use crate::wellformed::{span_addressable, table_fits, table_ordered, table_whole};

verus! {

/// Row `i` takes part in edits of column `c`: clean, non-blank, and long
/// enough to have the column.
pub open spec fn editable_row(t: TableView, i: int, c: int) -> bool {
    !row_is_blank(t.rows[i]) && !error_row(t, i) && 0 <= c < t.rows[i].cells.len()
}

/// The three column changes.
#[derive(Debug, Clone, Copy, PartialEq, Eq, Structural)]
pub enum ColumnChange {
    /// Insert an empty column before it.
    AddLeft,
    /// Insert an empty column after it.
    AddRight,
    /// Remove it.
    Delete,
}

/// The bytes deleting column `c` removes from a row: the cell plus one
/// adjacent delimiter, the preceding one for inner columns, the following
/// one for the first; a single-cell row just loses its cell (the row
/// becomes a blank line).
pub open spec fn delete_span_of(r: RowView, c: int) -> Span {
    if c > 0 {
        Span { start: r.cells[c - 1].span.end, end: r.cells[c].span.end }
    } else if r.cells.len() > 1 {
        Span { start: r.cells[0].span.start, end: r.cells[1].span.start }
    } else {
        r.cells[0].span
    }
}

/// A change's edit of one row: one delimiter at a cell boundary is one new
/// empty cell (before any leading padding for the left side, after any
/// trailing padding for the right side); deletion removes the delete span.
pub open spec fn change_edit(t: TableView, i: int, c: int, change: ColumnChange) -> (Span, Seq<u8>) {
    let r = t.rows[i];
    match change {
        ColumnChange::AddLeft => (
            Span { start: r.cells[c].span.start, end: r.cells[c].span.start },
            seq![delimiter_of(t.dialect)],
        ),
        ColumnChange::AddRight => (
            Span { start: r.cells[c].span.end, end: r.cells[c].span.end },
            seq![delimiter_of(t.dialect)],
        ),
        ColumnChange::Delete => (delete_span_of(r, c), Seq::empty()),
    }
}

/// A change's edits of column `c` over rows `0..k`, in row order.
pub open spec fn change_edits_upto(t: TableView, c: int, change: ColumnChange, k: int) -> Seq<(Span, Seq<u8>)>
    decreases k,
{
    if k <= 0 {
        Seq::empty()
    } else {
        change_edits_upto(t, c, change, k - 1) + (if editable_row(t, k - 1, c) {
            seq![change_edit(t, k - 1, c, change)]
        } else {
            Seq::empty()
        })
    }
}

/// The content spans of column `c` over rows `0..k`, in row order.
pub open spec fn content_spans_upto(t: TableView, c: int, k: int) -> Seq<Span>
    decreases k,
{
    if k <= 0 {
        Seq::empty()
    } else {
        content_spans_upto(t, c, k - 1) + (if editable_row(t, k - 1, c) {
            seq![t.rows[k - 1].cells[c].content_span]
        } else {
            Seq::empty()
        })
    }
}

/// A refactor action with the given title and edits.
pub open spec fn refactor_action(title: Seq<u8>, edits: Seq<(Span, Seq<u8>)>) -> ActionView {
    ActionView {
        title,
        kind: ActionKind::Refactor,
        edits,
        command: None,
        dialect_change: None,
        fixes: Seq::empty(),
        is_preferred: false,
    }
}

/// Everything [`ColumnEdits`] offers at cursor offset `at`: add left, add
/// right and delete for the column under the cursor, or nothing when no
/// clean row has that column.
pub open spec fn column_actions(b: Seq<u8>, t: TableView, at: int) -> Seq<ActionView> {
    match cell_at_spec(t, at) {
        None => Seq::empty(),
        Some((_i, c)) => {
            let n = t.rows.len() as int;
            let title = column_title_of(b, t, c);
            if change_edits_upto(t, c, ColumnChange::AddLeft, n).len() == 0 {
                Seq::empty()
            } else {
                seq![
                    refactor_action(
                        encode_utf8("Add column left of "@) + title,
                        change_edits_upto(t, c, ColumnChange::AddLeft, n),
                    ),
                    refactor_action(
                        encode_utf8("Add column right of "@) + title,
                        change_edits_upto(t, c, ColumnChange::AddRight, n),
                    ),
                    refactor_action(
                        encode_utf8("Delete column "@) + title,
                        change_edits_upto(t, c, ColumnChange::Delete, n),
                    ),
                ]
            }
        },
    }
}

/// The bytes deleting the column removes from a row (see
/// [`delete_span_of`]).
fn delete_span(row: &Row, column: usize) -> (r: Span)
    requires
        column < row.cells@.len(),
    ensures
        r == delete_span_of(row@, column as int),
{
    if column > 0 {
        Span { start: row.cells[column - 1].span.end, end: row.cells[column].span.end }
    } else if row.cells.len() > 1 {
        Span { start: row.cells[0].span.start, end: row.cells[1].span.start }
    } else {
        row.cells[0].span
    }
}

/// Whether row `index` has column `column` and is clean.
fn editable(table: &Table, error_rows: &HashSet<usize>, index: usize, column: usize) -> (r: bool)
    requires
        index < table.rows@.len(),
        forall|x: usize| #[trigger] error_rows@.contains(x) == error_row(table@, x as int),
    ensures
        r == editable_row(table@, index as int, column as int),
{
    broadcast use vstd::std_specs::hash::group_hash_axioms;

    assert(table@.rows[index as int] == table.rows@[index as int]@);
    let row = &table.rows[index];
    !row.is_blank() && !error_rows.contains(&index) && row.cells.len() > column
}

/// The edits of `change` to column `column`, row by row.
fn change_edits(
    Ghost(b): Ghost<Seq<u8>>,
    table: &Table,
    error_rows: &HashSet<usize>,
    column: usize,
    change: ColumnChange,
) -> (r: Vec<(Span, String)>)
    requires
        table_fits(table@, b),
        table_ordered(table@),
        table_whole(table@, b),
        forall|x: usize| #[trigger] error_rows@.contains(x) == error_row(table@, x as int),
    ensures
        edits_view(r@) == change_edits_upto(table@, column as int, change, table@.rows.len() as int),
        edits_applicable(b, edits_view(r@)),
        edits_whole(b, edits_view(r@)),
{
    let ghost t = table@;
    let d = table.dialect.delimiter();
    let mut edits: Vec<(Span, String)> = Vec::new();
    let mut i: usize = 0;
    while i < table.rows.len()
        invariant
            t == table@,
            d == delimiter_of(t.dialect),
            forall|x: usize| #[trigger] error_rows@.contains(x) == error_row(t, x as int),
            i <= t.rows.len(),
            edits_view(edits@) == change_edits_upto(t, column as int, change, i as int),
            table_fits(t, b),
            table_ordered(t),
            table_whole(t, b),
            edits_applicable(b, edits_view(edits@)),
            edits_whole(b, edits_view(edits@)),
            forall|k: int, y: int|
                0 <= k < edits@.len() && i <= y < t.rows.len() ==> (#[trigger] edits_view(edits@)[k]).0.end
                    < (#[trigger] t.rows[y]).span.start,
        decreases t.rows.len() - i,
    {
        let ghost before = edits@;
        if editable(table, error_rows, i, column) {
            assert(t.rows[i as int] == table.rows@[i as int]@);
            let row = &table.rows[i];
            let edit = match change {
                ColumnChange::AddLeft => {
                    let at = row.cells[column].span.start;
                    (Span::new(at, at), delimiter_text(d))
                },
                ColumnChange::AddRight => {
                    let at = row.cells[column].span.end;
                    (Span::new(at, at), delimiter_text(d))
                },
                ColumnChange::Delete => (delete_span(row, column), String::new()),
            };
            assert(edit_view(edit) == change_edit(t, i as int, column as int, change));
            proof {
                let ev = edits_view(before);
                let r = t.rows[i as int];
                assert(r == t.rows[i as int]);
                let c = column as int;
                assert(r.cells[c] == r.cells[c]);
                if c > 0 {
                    assert(r.cells[c - 1] == r.cells[c - 1]);
                    assert(r.cells[c - 1].span.end < r.cells[c].span.start);
                } else if r.cells.len() > 1 {
                    assert(r.cells[1] == r.cells[1]);
                    assert(r.cells[0].span.end < r.cells[1].span.start);
                }
                if ev.len() > 0 {
                    assert(ev[ev.len() - 1].0.end < t.rows[i as int].span.start);
                }
                lemma_push_applicable(b, ev, edit_view(edit));
                lemma_push_whole(b, ev, edit_view(edit));
                assert(edits_view(before.push(edit)) =~= ev.push(edit_view(edit)));
            }
            edits.push(edit);
        }
        proof {
            assert(edits_view(edits@) =~= change_edits_upto(t, column as int, change, i + 1));
            assert forall|k: int, y: int|
                0 <= k < edits@.len() && i + 1 <= y < t.rows.len() implies (#[trigger] edits_view(edits@)[k]).0.end
                    < (#[trigger] t.rows[y]).span.start by {
                if k < before.len() {
                    assert(edits_view(edits@)[k] == edits_view(before)[k]);
                } else {
                    assert(t.rows[i as int].span.end < t.rows[y].span.start);
                }
            }
        }
        i = i + 1;
    }
    edits
}

/// Every change touches the same rows: the three edit lists have equal
/// lengths.
proof fn lemma_change_lengths(t: TableView, c: int, k: int)
    ensures
        change_edits_upto(t, c, ColumnChange::AddLeft, k).len() == change_edits_upto(
            t,
            c,
            ColumnChange::AddRight,
            k,
        ).len(),
        change_edits_upto(t, c, ColumnChange::AddLeft, k).len() == change_edits_upto(
            t,
            c,
            ColumnChange::Delete,
            k,
        ).len(),
    decreases k,
{
    if k > 0 {
        lemma_change_lengths(t, c, k - 1);
    }
}

/// The delimiter as text.
fn delimiter_text(d: u8) -> (r: String)
    requires
        d < 0x80,
    ensures
        string_bytes(r) == seq![d],
{
    let mut out: Vec<u8> = Vec::new();
    proof {
        assert(valid_utf8(Seq::<u8>::empty())) by {
            reveal_with_fuel(valid_utf8, 1);
        }
    }
    push_ascii(&mut out, d);
    assert(out@ =~= seq![d]);
    string_from_utf8(out)
}


/// The content spans of a column across clean rows (header included), in
/// document order: the payload behind document highlights, which editors
/// turn into a per-cell multi-selection, giving column selection.
pub fn column_content_spans(table: &Table, column: usize) -> (r: Vec<Span>)
    ensures
        r@ == content_spans_upto(table@, column as int, table@.rows.len() as int),
{
    let ghost t = table@;
    let error_rows = error_row_set(table);
    let mut spans: Vec<Span> = Vec::new();
    let mut i: usize = 0;
    while i < table.rows.len()
        invariant
            t == table@,
            forall|x: usize| #[trigger] error_rows@.contains(x) == error_row(t, x as int),
            i <= t.rows.len(),
            spans@ == content_spans_upto(t, column as int, i as int),
        decreases t.rows.len() - i,
    {
        if editable(table, &error_rows, i, column) {
            assert(t.rows[i as int] == table.rows@[i as int]@);
            spans.push(table.rows[i].cells[column].content_span);
        }
        proof {
            assert(spans@ =~= content_spans_upto(t, column as int, i + 1));
        }
        i = i + 1;
    }
    spans
}

/// The highlight payload obeys the protocol's span contract: every content
/// span of a column lies within the text on character boundaries and
/// neither end falls inside a CRLF break.
pub proof fn law_column_spans_addressable(b: Seq<u8>, t: TableView, c: int, k: int)
    requires
        table_fits(t, b),
        table_whole(t, b),
        0 <= k <= t.rows.len(),
    ensures
        forall|x: int|
            0 <= x < content_spans_upto(t, c, k).len() ==> span_addressable(
                b,
                #[trigger] content_spans_upto(t, c, k)[x],
            ),
    decreases k,
{
    if k > 0 {
        law_column_spans_addressable(b, t, c, k - 1);
        let prev = content_spans_upto(t, c, k - 1);
        let all = content_spans_upto(t, c, k);
        assert forall|x: int| 0 <= x < all.len() implies span_addressable(b, #[trigger] all[x]) by {
            if x < prev.len() {
                assert(all[x] == prev[x]);
            } else {
                assert(t.rows[k - 1] == t.rows[k - 1]);
                assert(t.rows[k - 1].cells[c] == t.rows[k - 1].cells[c]);
            }
        }
    }
}

/// `PREFIX` followed by the column title.
fn titled(prefix: &str, name: &str) -> (r: String)
    ensures
        string_bytes(r) == prefix.spec_bytes() + name.spec_bytes(),
{
    let mut out: Vec<u8> = Vec::new();
    proof {
        assert(valid_utf8(Seq::<u8>::empty())) by {
            reveal_with_fuel(valid_utf8, 1);
        }
    }
    push_text(&mut out, prefix);
    push_text(&mut out, name);
    string_from_utf8(out)
}

/// `Add column left/right of …` and `Delete column …` at the cursor.
pub struct ColumnEdits;

impl ActionProvider for ColumnEdits {
    fn name(&self) -> (r: &'static str)
        ensures
            r@ == "column-edits"@,
    {
        "column-edits"
    }

    fn actions(&self, ctx: &ActionContext) -> (r: Vec<Action>)
        ensures
            actions_view(r@) == column_actions(
                string_bytes(ctx.doc.text),
                ctx.doc.table@,
                ctx.range.start as int,
            ),
            all_sound(string_bytes(ctx.doc.text), actions_view(r@)),
    {
        let ghost b = string_bytes(ctx.doc.text);
        let ghost t = ctx.doc.table@;
        let table = &ctx.doc.table;
        let mut actions: Vec<Action> = Vec::new();
        let (row, column) = match ctx.cell_at_cursor() {
            Some(rc) => rc,
            None => {
                assert(actions_view(actions@) =~= Seq::<ActionView>::empty());
                return actions;
            },
        };
        let _m = table.rows[row].cells.len();
        let error_rows = error_row_set(table);
        // One delimiter at a cell boundary = one new empty cell.
        let add_left = change_edits(Ghost(b), table, &error_rows, column, ColumnChange::AddLeft);
        if add_left.len() == 0 {
            // No clean row actually has this column.
            assert(actions_view(actions@) =~= column_actions(b, t, ctx.range.start as int));
            return actions;
        }
        let add_right = change_edits(Ghost(b), table, &error_rows, column, ColumnChange::AddRight);
        let delete = change_edits(Ghost(b), table, &error_rows, column, ColumnChange::Delete);
        let name = column_title(ctx.doc.text.as_str(), table, column);
        actions.push(
            Action {
                title: titled("Add column left of ", name.as_str()),
                kind: ActionKind::Refactor,
                edits: add_left,
                command: None,
                dialect_change: None,
                fixes: Vec::new(),
                is_preferred: false,
            },
        );
        actions.push(
            Action {
                title: titled("Add column right of ", name.as_str()),
                kind: ActionKind::Refactor,
                edits: add_right,
                command: None,
                dialect_change: None,
                fixes: Vec::new(),
                is_preferred: false,
            },
        );
        actions.push(
            Action {
                title: titled("Delete column ", name.as_str()),
                kind: ActionKind::Refactor,
                edits: delete,
                command: None,
                dialect_change: None,
                fixes: Vec::new(),
                is_preferred: false,
            },
        );
        proof {
            assert(actions@[0]@.fixes =~= Seq::empty());
            assert(actions@[1]@.fixes =~= Seq::empty());
            assert(actions@[2]@.fixes =~= Seq::empty());
            lemma_change_lengths(t, column as int, t.rows.len() as int);
            assert forall|k: int| 0 <= k < actions@.len() implies action_sound(b, #[trigger] actions_view(actions@)[k]) by {
                assert(actions_view(actions@)[k] == actions@[k]@);
            }
            assert(actions_view(actions@) =~= column_actions(b, t, ctx.range.start as int));
        }
        actions
    }
}

/// The row whose cell gave span `idx` of column `c` collected over rows
/// `0..k`.
pub open spec fn span_row(t: TableView, c: int, k: int, idx: int) -> int
    decreases k,
{
    if k <= 0 {
        0
    } else if idx < content_spans_upto(t, c, k - 1).len() {
        span_row(t, c, k - 1, idx)
    } else {
        k - 1
    }
}

/// The spans of column `c` collected over rows `0..k` are the contents of
/// that column's cells on rows that take part.
proof fn lemma_spans_of_rows(t: TableView, c: int, k: int, idx: int)
    requires
        0 <= idx < content_spans_upto(t, c, k).len(),
    ensures
        0 <= span_row(t, c, k, idx) < k,
        editable_row(t, span_row(t, c, k, idx), c),
        content_spans_upto(t, c, k)[idx] == t.rows[span_row(t, c, k, idx)].cells[c].content_span,
    decreases k,
{
    if k > 0 {
        let prev = content_spans_upto(t, c, k - 1);
        let all = content_spans_upto(t, c, k);
        if idx < prev.len() {
            lemma_spans_of_rows(t, c, k - 1, idx);
            assert(all[idx] == prev[idx]);
        } else {
            if !editable_row(t, k - 1, c) {
                assert(all =~= prev);
            }
            assert(all[idx] == t.rows[k - 1].cells[c].content_span);
        }
    }
}

/// Span `k` of column `c` of table `t` over text `b` comes from that
/// column's cell on a row that takes part (the row [`span_row`] names), and
/// lies within that cell trimmed (see [`trimmed_in_cell`]).
pub open spec fn span_trimmed(b: Seq<u8>, t: TableView, c: int, k: int) -> bool {
    let n = t.rows.len() as int;
    let x = span_row(t, c, n, k);
    &&& 0 <= x < n
    &&& editable_row(t, x, c)
    &&& trimmed_in_cell(b, t.rows[x].cells[c], content_spans_upto(t, c, n)[k])
}

/// Selecting a column selects cell contents, never padding: every span
/// that column `c` highlights lies within that column's cell on a row that
/// takes part, with only spaces between it and the cell's edges, and, when
/// not empty, neither starts nor ends with a space.
pub proof fn law_column_spans_trimmed(b: Seq<u8>, dialect: crate::dialect::Dialect, c: int)
    requires
        b.len() <= usize::MAX,
    ensures
        forall|k: int|
            0 <= k < content_spans_upto(
                crate::grammar::spec_parse(b, dialect),
                c,
                crate::grammar::spec_parse(b, dialect).rows.len() as int,
            ).len() ==> #[trigger] span_trimmed(b, crate::grammar::spec_parse(b, dialect), c, k),
{
    let t = crate::grammar::spec_parse(b, dialect);
    let n = t.rows.len() as int;
    assert forall|k: int| 0 <= k < content_spans_upto(t, c, n).len() implies #[trigger] span_trimmed(b, t, c, k) by {
        lemma_spans_of_rows(t, c, n, k);
        let x = span_row(t, c, n, k);
        crate::wellformed::lemma_cell_sound_at(b, dialect, x, c);
        assert(crate::wellformed::no_error_on(t, x)) by {
            assert forall|e: int| 0 <= e < t.errors.len() implies t.errors[e].row != x by {
                if t.errors[e].row == x {
                    assert(error_row(t, x));
                }
            }
        }
        crate::wellformed::lemma_row_trailing(b, dialect, x);
        crate::wellformed::lemma_row_content_ends(b, dialect, x);
        assert(crate::wellformed::trailing_spaces(b, t.rows[x].cells[c]));
        assert(crate::wellformed::content_trimmed(b, t.rows[x].cells[c]));
        assert(t.rows[x] == t.rows[x]);
    }
}

/// Span `sp` lies within `cell`'s span with only spaces between them, and,
/// when not empty, neither starts nor ends with a space.
pub open spec fn trimmed_in_cell(b: Seq<u8>, cell: crate::parse::Cell, sp: Span) -> bool {
    &&& cell.span.start <= sp.start <= sp.end <= cell.span.end
    &&& crate::wellformed::all_spaces(b, cell.span.start as int, sp.start as int)
    &&& crate::wellformed::all_spaces(b, sp.end as int, cell.span.end as int)
    &&& sp.start < sp.end ==> b[sp.start as int] != crate::grammar::SPACE && b[sp.end - 1]
        != crate::grammar::SPACE
}

} // verus!
