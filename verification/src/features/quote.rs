//! Quote a cell or a whole column: wrap unquoted cells in RFC 4180 quotes
//! (`encode_cell` with quoting forced).
//!
//! Only unquoted cells on clean rows qualify: blank rows have nothing to
//! quote, parse-error rows are never rewritten, and already-quoted cells
//! would be no-ops the picker must not show. The edit replaces the content
//! span, so alignment padding stays outside the new quotes.

use vstd::prelude::*;

use std::collections::HashSet;
use vstd::string::StringSliceAdditionalSpecFns;
use vstd::utf8::*;

use crate::dialect::{delimiter_of, Dialect};
use crate::document::Document;
use crate::edits::{edit_view, edits_applicable, edits_view, edits_whole, lemma_push_applicable, lemma_push_whole};
use crate::features::{
    action_sound, actions_view, all_sound, diags_view, Action, ActionContext, ActionKind, ActionProvider, ActionView,
};
use crate::grammar::QUOTE;
use crate::parse::{cell_at_spec, cell_value, first_nonblank, row_is_blank, Quoting, Span, Table, TableView};
use crate::render::{encode_cell, encoded, error_row, error_row_set};
use crate::text::{
    decimal_bytes, lemma_valid_subrange, push_ascii, push_decimal, push_text, string_as_bytes,
    string_bytes, string_from_utf8,
};
use crate::wellformed::table_fits;

verus! {

/// The first byte of the `n`-th character (counting from 0) of `v` at or
/// after byte `i`, or the length of `v` when it has fewer characters.
pub open spec fn char_cut(v: Seq<u8>, i: int, n: nat) -> int
    decreases v.len() - i, n,
{
    if i >= v.len() || i < 0 {
        v.len() as int
    } else if !is_continuation_byte(v[i]) {
        if n == 0 {
            i
        } else {
            char_cut(v, i + 1, (n - 1) as nat)
        }
    } else {
        char_cut(v, i + 1, n)
    }
}

/// A value shortened for a title: the first 24 characters, marked with an
/// ellipsis when more followed.
pub open spec fn title_excerpt(v: Seq<u8>) -> Seq<u8> {
    let cut = char_cut(v, 0, 24);
    if cut < v.len() {
        v.subrange(0, cut) + encode_utf8("…"@)
    } else {
        v
    }
}

/// How column `c` is named in action titles: its header value in quotes
/// (shortened), or `#N` (1-based) when the header has no such cell or the
/// cell is empty.
pub open spec fn column_title_of(b: Seq<u8>, t: TableView, c: int) -> Seq<u8> {
    match first_nonblank(t.rows, 0) {
        Some(h) => if c < t.rows[h].cells.len() && cell_value(b, t.rows[h].cells[c]).len() > 0 {
            seq![QUOTE] + title_excerpt(cell_value(b, t.rows[h].cells[c])) + seq![QUOTE]
        } else {
            seq![35u8] + decimal_bytes((c + 1) as nat)
        },
        None => seq![35u8] + decimal_bytes((c + 1) as nat),
    }
}

/// Where the 25th character of `v` starts (or its length).
fn excerpt_cut(v: &[u8]) -> (r: usize)
    ensures
        r == char_cut(v@, 0, 24),
{
    let mut i: usize = 0;
    let mut n: usize = 24;
    while i < v.len()
        invariant
            i <= v@.len(),
            n <= 24,
            char_cut(v@, 0, 24) == char_cut(v@, i as int, n as nat),
        decreases v@.len() - i,
    {
        if !(0x80 <= v[i] && v[i] <= 0xBF) {
            if n == 0 {
                return i;
            }
            n = n - 1;
        }
        i = i + 1;
    }
    i
}

/// How column `column` is named in action titles (see
/// [`column_title_of`]).
pub fn column_title(text: &str, table: &Table, column: usize) -> (r: String)
    requires
        table_fits(table@, text.spec_bytes()),
        column < usize::MAX,
    ensures
        string_bytes(r) == column_title_of(text.spec_bytes(), table@, column as int),
{
    let ghost b = text.spec_bytes();
    let mut out: Vec<u8> = Vec::new();
    proof {
        assert(valid_utf8(Seq::<u8>::empty())) by {
            reveal_with_fuel(valid_utf8, 1);
        }
    }
    match table.header_index() {
        Some(h) => {
            assert(table@.rows[h as int] == table.rows@[h as int]@);
            if column < table.rows[h].cells.len() {
                let cell = table.rows[h].cells[column];
                assert(table@.rows[h as int].cells[column as int] == cell);
                let value = cell.value(text);
                let vb = string_as_bytes(&value);
                if vb.len() > 0 {
                    push_ascii(&mut out, QUOTE);
                    let cut = excerpt_cut(vb);
                    proof {
                        encode_utf8_valid_utf8(value@);
                        is_char_boundary_start_end_of_seq(vb@);
                        lemma_char_cut(vb@, 0, 24);
                        if cut < vb@.len() {
                            is_char_boundary_iff_not_is_continuation_byte(vb@, cut as int);
                        }
                        lemma_valid_subrange(vb@, 0, cut as int);
                        valid_utf8_concat(out@, vb@.subrange(0, cut as int));
                    }
                    let ghost before = out@;
                    crate::edits::append_range(&mut out, vb, 0, cut);
                    if cut < vb.len() {
                        push_text(&mut out, "…");
                    }
                    push_ascii(&mut out, QUOTE);
                    proof {
                        assert(out@ =~= column_title_of(b, table@, column as int));
                    }
                    return string_from_utf8(out);
                }
            }
        },
        None => {},
    }
    push_ascii(&mut out, 35u8);
    push_decimal(&mut out, column + 1);
    assert(out@ =~= column_title_of(b, table@, column as int));
    string_from_utf8(out)
}

/// The cut found by [`char_cut`] from a position is, when inside `v`, a
/// byte that starts a character.
proof fn lemma_char_cut(v: Seq<u8>, i: int, n: nat)
    requires
        0 <= i,
    ensures
        char_cut(v, i, n) < v.len() ==> !is_continuation_byte(v[char_cut(v, i, n)]),
        char_cut(v, i, n) <= v.len(),
    decreases v.len() - i, n,
{
    if i >= v.len() {
    } else if !is_continuation_byte(v[i]) {
        if n > 0 {
            lemma_char_cut(v, i + 1, (n - 1) as nat);
        }
    } else {
        lemma_char_cut(v, i + 1, n);
    }
}


/// Cell `j` of row `i` exists, sits on a clean non-blank row, and is
/// unquoted.
pub open spec fn quotable_cell(t: TableView, i: int, j: int) -> bool {
    &&& !row_is_blank(t.rows[i])
    &&& !error_row(t, i)
    &&& 0 <= j < t.rows[i].cells.len()
    &&& t.rows[i].cells[j].quoting == Quoting::Unquoted
}

/// The edit quoting cell `j` of row `i`: its content replaced by the
/// force-quoted encoding of its value.
pub open spec fn quote_edit_view(b: Seq<u8>, t: TableView, d: Dialect, i: int, j: int) -> (Span, Seq<u8>) {
    let c = t.rows[i].cells[j];
    (c.content_span, encoded(cell_value(b, c), delimiter_of(d), true))
}

/// The quoting edits of column `j` among rows `0..k`, in row order.
pub open spec fn quote_column_upto(b: Seq<u8>, t: TableView, d: Dialect, j: int, k: int) -> Seq<(Span, Seq<u8>)>
    decreases k,
{
    if k <= 0 {
        Seq::empty()
    } else {
        quote_column_upto(b, t, d, j, k - 1) + (if quotable_cell(t, k - 1, j) {
            seq![quote_edit_view(b, t, d, k - 1, j)]
        } else {
            Seq::empty()
        })
    }
}

/// A refactor-rewrite action with the given title and edits.
pub open spec fn rewrite_action(title: Seq<u8>, edits: Seq<(Span, Seq<u8>)>) -> ActionView {
    ActionView {
        title,
        kind: ActionKind::RefactorRewrite,
        edits,
        command: None,
        dialect_change: None,
        fixes: Seq::empty(),
        is_preferred: false,
    }
}

/// Everything [`QuoteCells`] offers at cursor offset `at`: `Quote cell`
/// when the cell under the cursor qualifies, then `Quote column …` when
/// any cell of its column does.
pub open spec fn quote_actions(b: Seq<u8>, t: TableView, d: Dialect, at: int) -> Seq<ActionView> {
    match cell_at_spec(t, at) {
        None => Seq::empty(),
        Some((i, j)) => {
            let column_edits = quote_column_upto(b, t, d, j, t.rows.len() as int);
            (if quotable_cell(t, i, j) {
                seq![rewrite_action(encode_utf8("Quote cell"@), seq![quote_edit_view(b, t, d, i, j)])]
            } else {
                Seq::empty()
            }) + (if column_edits.len() > 0 {
                seq![
                    rewrite_action(
                        encode_utf8("Quote column "@) + column_title_of(b, t, j),
                        column_edits,
                    ),
                ]
            } else {
                Seq::empty()
            })
        },
    }
}

/// Whether the cell exists, sits on a clean non-blank row, and is
/// unquoted.
fn quotable(table: &Table, error_rows: &HashSet<usize>, row: usize, column: usize) -> (r: bool)
    requires
        row < table.rows@.len(),
        forall|x: usize| #[trigger] error_rows@.contains(x) == error_row(table@, x as int),
    ensures
        r == quotable_cell(table@, row as int, column as int),
{
    broadcast use vstd::std_specs::hash::group_hash_axioms;

    assert(table@.rows[row as int] == table.rows@[row as int]@);
    let candidate = &table.rows[row];
    !candidate.is_blank() && !error_rows.contains(&row) && column < candidate.cells.len()
        && candidate.cells[column].quoting == Quoting::Unquoted
}

/// Replace the cell's content span with its force-quoted encoding.
fn quote_edit(doc: &Document, row: usize, column: usize) -> (r: (Span, String))
    requires
        doc.wf(),
        row < doc.table.rows@.len(),
        column < doc.table.rows@[row as int].cells@.len(),
    ensures
        edit_view(r) == quote_edit_view(
            string_bytes(doc.text),
            doc.table@,
            doc.dialect,
            row as int,
            column as int,
        ),
{
    assert(doc.table@.rows[row as int] == doc.table.rows@[row as int]@);
    let cell = doc.table.rows[row].cells[column];
    assert(doc.table@.rows[row as int].cells[column as int] == cell);
    let value = cell.value(doc.text.as_str());
    (cell.content_span, encode_cell(value.as_str(), doc.dialect, true))
}

/// The quoting edits of a column, row by row.
fn quote_column_edits(doc: &Document, error_rows: &HashSet<usize>, column: usize) -> (r: Vec<(Span, String)>)
    requires
        doc.wf(),
        forall|x: usize| #[trigger] error_rows@.contains(x) == error_row(doc.table@, x as int),
    ensures
        edits_view(r@) == quote_column_upto(
            string_bytes(doc.text),
            doc.table@,
            doc.dialect,
            column as int,
            doc.table@.rows.len() as int,
        ),
        edits_applicable(string_bytes(doc.text), edits_view(r@)),
        edits_whole(string_bytes(doc.text), edits_view(r@)),
{
    let ghost b = string_bytes(doc.text);
    let ghost t = doc.table@;
    let d = doc.dialect;
    let table = &doc.table;
        let mut edits: Vec<(Span, String)> = Vec::new();
        let mut i: usize = 0;
        while i < table.rows.len()
            invariant
                doc.wf(),
                table == &doc.table,
                b == string_bytes(doc.text),
                t == table@,
                d == doc.dialect,
                forall|x: usize| #[trigger] error_rows@.contains(x) == error_row(t, x as int),
                i <= t.rows.len(),
                edits_view(edits@) == quote_column_upto(b, t, d, column as int, i as int),
                edits_applicable(b, edits_view(edits@)),
                edits_whole(b, edits_view(edits@)),
                forall|k: int, y: int|
                    0 <= k < edits@.len() && i <= y < t.rows.len() ==> (#[trigger] edits_view(edits@)[k]).0.end
                        < (#[trigger] t.rows[y]).span.start,
            decreases t.rows.len() - i,
        {
            let ghost before = edits@;
            if quotable(table, &error_rows, i, column) {
                let e = quote_edit(doc, i, column);
                proof {
                    let ev = edits_view(before);
                    let c = t.rows[i as int].cells[column as int];
                    assert(t.rows[i as int] == t.rows[i as int]);
                    assert(c == t.rows[i as int].cells[column as int]);
                    if ev.len() > 0 {
                        assert(ev[ev.len() - 1].0.end < t.rows[i as int].span.start);
                    }
                    lemma_push_applicable(b, ev, edit_view(e));
                    lemma_push_whole(b, ev, edit_view(e));
                    assert(edits_view(before.push(e)) =~= ev.push(edit_view(e)));
                }
                edits.push(e);
            }
            proof {
                assert(edits_view(edits@) =~= quote_column_upto(b, t, d, column as int, i + 1));
                assert forall|k: int, y: int|
                    0 <= k < edits@.len() && i + 1 <= y < t.rows.len() implies (#[trigger] edits_view(edits@)[k]).0.end
                        < (#[trigger] t.rows[y]).span.start by {
                    if k < before.len() {
                        assert(edits_view(edits@)[k] == edits_view(before)[k]);
                    } else {
                        assert(t.rows[i as int].span.end < t.rows[y].span.start);
                    }
                }
            }
            i = i + 1;
        }
    edits
}

/// Cursor-anchored quoting refactors: the cell, and its whole column.
pub struct QuoteCells;

impl ActionProvider for QuoteCells {
    fn name(&self) -> (r: &'static str)
        ensures
            r@ == "quote-cells"@,
    {
        "quote-cells"
    }

    fn actions(&self, ctx: &ActionContext) -> (r: Vec<Action>)
        ensures
            actions_view(r@) == quote_actions(
                string_bytes(ctx.doc.text),
                ctx.doc.table@,
                ctx.doc.dialect,
                ctx.range.start as int,
            ),
            all_sound(string_bytes(ctx.doc.text), actions_view(r@)),
    {
        let ghost b = string_bytes(ctx.doc.text);
        let ghost t = ctx.doc.table@;
        let d = ctx.doc.dialect;
        let table = &ctx.doc.table;
        let mut actions: Vec<Action> = Vec::new();
        let (row, column) = match ctx.cell_at_cursor() {
            Some(rc) => rc,
            None => {
                assert(actions_view(actions@) =~= Seq::<ActionView>::empty());
                return actions;
            },
        };
        let error_rows = error_row_set(table);
        let _m = table.rows[row].cells.len();
        assert(cell_at_spec(t, ctx.range.start as int) == Some((row as int, column as int)));
        if quotable(table, &error_rows, row, column) {
            let mut edits: Vec<(Span, String)> = Vec::new();
            edits.push(quote_edit(ctx.doc, row, column));
            let action = Action {
                title: crate::text::to_owned_string("Quote cell"),
                kind: ActionKind::RefactorRewrite,
                edits,
                command: None,
                dialect_change: None,
                fixes: Vec::new(),
                is_preferred: false,
            };
            proof {
                assert(edits_view(action.edits@) =~= seq![quote_edit_view(b, t, d, row as int, column as int)]);
                assert(diags_view(action.fixes@) =~= Seq::empty());
                assert(t.rows[row as int].cells[column as int] == t.rows[row as int].cells[column as int]);
                lemma_push_applicable(b, Seq::empty(), quote_edit_view(b, t, d, row as int, column as int));
                lemma_push_whole(b, Seq::empty(), quote_edit_view(b, t, d, row as int, column as int));
                assert(Seq::<(Span, Seq<u8>)>::empty().push(quote_edit_view(b, t, d, row as int, column as int))
                    =~= edits_view(action.edits@));
            }
            actions.push(action);
        }
        let ghost cell_part = actions_view(actions@);
        let edits = quote_column_edits(ctx.doc, &error_rows, column);
        if edits.len() > 0 {
            let mut title: Vec<u8> = Vec::new();
            proof {
                assert(valid_utf8(Seq::<u8>::empty())) by {
                    reveal_with_fuel(valid_utf8, 1);
                }
            }
            push_text(&mut title, "Quote column ");
            let name = column_title(ctx.doc.text.as_str(), table, column);
            push_text(&mut title, name.as_str());
            let ghost tb = title@;
            assert(tb =~= encode_utf8("Quote column "@) + column_title_of(b, t, column as int));
            let action = Action {
                title: string_from_utf8(title),
                kind: ActionKind::RefactorRewrite,
                edits,
                command: None,
                dialect_change: None,
                fixes: Vec::new(),
                is_preferred: false,
            };
            proof {
                assert(diags_view(action.fixes@) =~= Seq::empty());
                assert(action_sound(b, action@));
                assert(action@ == rewrite_action(
                    encode_utf8("Quote column "@) + column_title_of(b, t, column as int),
                    quote_column_upto(b, t, d, column as int, t.rows.len() as int),
                ));
            }
            actions.push(action);
        }
        proof {
            assert(actions_view(actions@) =~= quote_actions(b, t, d, ctx.range.start as int));
            assert forall|k: int| 0 <= k < actions@.len() implies action_sound(b, #[trigger] actions_view(actions@)[k]) by {
                assert(actions_view(actions@)[k] == actions@[k]@);
            }
        }
        actions
    }
}

} // verus!
