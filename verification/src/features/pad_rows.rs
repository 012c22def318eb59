//! Quickfix: pad short rows with empty cells (trailing delimiters).
//!
//! `x,y` under a 4-column header becomes `x,y,,`: two inserted delimiters
//! are two empty cells. The insert lands at the row end, after any
//! alignment padding (the parser treats that padding as part of the last
//! cell).

use vstd::prelude::*;
use vstd::string::StringSliceAdditionalSpecFns;
use vstd::utf8::*;

use crate::dialect::delimiter_of;
use crate::edits::{edit_view, edits_applicable, edits_view, lemma_push_applicable};
use crate::features::ragged_rows::{lemma_short_upto, missing_cells_diag, missing_diag, short_rows, short_rows_of, ShortRow};
use crate::features::{
    action_sound, actions_view, all_sound, diags_view, Action, ActionContext, ActionKind, ActionProvider, ActionView, Diag,
    DiagView,
};
use crate::parse::{first_nonblank, Span, Table, TableView};
use crate::text::{decimal_bytes, push_ascii, push_decimal, push_text, string_bytes, string_from_utf8};
use crate::wellformed::{table_fits, table_ordered};

verus! {

/// The insert that completes a short row: its missing cells' delimiters,
/// zero-width at the row end.
pub open spec fn pad_edit_view(t: TableView, s: ShortRow) -> (Span, Seq<u8>) {
    let end = t.rows[s.row as int].span.end;
    (Span { start: end, end }, Seq::new(s.missing as nat, |_k: int| delimiter_of(t.dialect)))
}

/// The diagnostic a short row's pad fixes.
pub open spec fn short_diag(t: TableView, s: ShortRow) -> DiagView {
    missing_diag(t, s.row as int, t.rows[s.row as int].cells.len() + s.missing)
}

/// `Pad row with N empty cell(s)`.
pub open spec fn pad_title(m: nat) -> Seq<u8> {
    encode_utf8("Pad row with "@) + decimal_bytes(m) + encode_utf8(
        if m == 1 {
            " empty cell"@
        } else {
            " empty cells"@
        },
    )
}

/// `Pad all short rows (N)`.
pub open spec fn pad_all_title(n: nat) -> Seq<u8> {
    encode_utf8("Pad all short rows ("@) + decimal_bytes(n) + encode_utf8(")"@)
}

/// The quickfix padding one short row.
pub open spec fn pad_quickfix(t: TableView, s: ShortRow) -> ActionView {
    ActionView {
        title: pad_title(s.missing as nat),
        kind: ActionKind::QuickFix,
        edits: seq![pad_edit_view(t, s)],
        command: None,
        dialect_change: None,
        fixes: seq![short_diag(t, s)],
        is_preferred: true,
    }
}

/// The quickfixes for the short rows among `shorts[0..k]` whose row
/// touches `range`.
pub open spec fn quickfixes_upto(t: TableView, shorts: Seq<ShortRow>, range: Span, k: int) -> Seq<ActionView>
    decreases k,
{
    if k <= 0 {
        Seq::empty()
    } else {
        let s = shorts[k - 1];
        let sp = t.rows[s.row as int].span;
        quickfixes_upto(t, shorts, range, k - 1) + (if range.start <= sp.end && sp.start <= range.end {
            seq![pad_quickfix(t, s)]
        } else {
            Seq::empty()
        })
    }
}

/// The whole-file repair: every short row padded, in row order.
pub open spec fn pad_all(t: TableView, shorts: Seq<ShortRow>) -> ActionView {
    ActionView {
        title: pad_all_title(shorts.len()),
        kind: ActionKind::SourceFixAll,
        edits: shorts.map_values(|s: ShortRow| pad_edit_view(t, s)),
        command: None,
        dialect_change: None,
        fixes: shorts.map_values(|s: ShortRow| short_diag(t, s)),
        is_preferred: false,
    }
}

/// Everything [`PadRows`] offers: a quickfix per short row under the
/// cursor, then the fix-all whenever any row is short.
pub open spec fn pad_actions(t: TableView, range: Span) -> Seq<ActionView> {
    let shorts = short_rows_of(t);
    quickfixes_upto(t, shorts, range, shorts.len() as int) + (if shorts.len() > 0 {
        seq![pad_all(t, shorts)]
    } else {
        Seq::empty()
    })
}

/// Per-row quickfixes for short rows under the cursor, plus a whole-file
/// `source.fixAll` that pads every short row at once.
pub struct PadRows;

/// The insert that completes a short row: its missing delimiters at the
/// row end.
fn pad_edit(table: &Table, short: ShortRow) -> (r: (Span, String))
    requires
        short.row < table.rows@.len(),
    ensures
        edit_view(r) == pad_edit_view(table@, short),
{
    assert(table@.rows[short.row as int] == table.rows@[short.row as int]@);
    let end = table.rows[short.row].span.end;
    let d = table.dialect.delimiter();
    let mut out: Vec<u8> = Vec::new();
    let mut k: usize = 0;
    proof {
        assert(valid_utf8(Seq::<u8>::empty())) by {
            reveal_with_fuel(valid_utf8, 1);
        }
    }
    while k < short.missing
        invariant
            d == delimiter_of(table@.dialect),
            k <= short.missing,
            out@ == Seq::new(k as nat, |_x: int| d),
            valid_utf8(out@),
        decreases short.missing - k,
    {
        push_ascii(&mut out, d);
        assert(out@ =~= Seq::new((k + 1) as nat, |_x: int| d));
        k = k + 1;
    }
    (Span::new(end, end), string_from_utf8(out))
}

/// `Pad row with N empty cell(s)` or `Pad all short rows (N)`.
fn title_text(n: usize, all: bool) -> (r: String)
    ensures
        string_bytes(r) == if all {
            pad_all_title(n as nat)
        } else {
            pad_title(n as nat)
        },
{
    let mut out: Vec<u8> = Vec::new();
    proof {
        assert(valid_utf8(Seq::<u8>::empty())) by {
            reveal_with_fuel(valid_utf8, 1);
        }
    }
    if all {
        push_text(&mut out, "Pad all short rows (");
        push_decimal(&mut out, n);
        push_text(&mut out, ")");
        assert(out@ =~= pad_all_title(n as nat));
    } else {
        push_text(&mut out, "Pad row with ");
        push_decimal(&mut out, n);
        if n == 1 {
            push_text(&mut out, " empty cell");
        } else {
            push_text(&mut out, " empty cells");
        }
        assert(out@ =~= pad_title(n as nat));
    }
    string_from_utf8(out)
}


/// The pad edits of the given short rows, in their order.
fn pad_edits(Ghost(b): Ghost<Seq<u8>>, table: &Table, shorts: &Vec<ShortRow>) -> (r: Vec<(Span, String)>)
    requires
        table_fits(table@, b),
        table_ordered(table@),
        forall|x: int| 0 <= x < shorts@.len() ==> (#[trigger] shorts@[x]).row < table@.rows.len(),
        forall|x: int, y: int|
            0 <= x < y < shorts@.len() ==> (#[trigger] shorts@[x]).row < (#[trigger] shorts@[y]).row,
    ensures
        edits_view(r@) == shorts@.map_values(|s: ShortRow| pad_edit_view(table@, s)),
        edits_applicable(b, edits_view(r@)),
{
    let ghost t = table@;
    let mut edits: Vec<(Span, String)> = Vec::new();
    let mut k: usize = 0;
    while k < shorts.len()
        invariant
            t == table@,
            table_fits(t, b),
            table_ordered(t),
            k <= shorts@.len(),
            forall|x: int| 0 <= x < shorts@.len() ==> (#[trigger] shorts@[x]).row < t.rows.len(),
            forall|x: int, y: int|
                0 <= x < y < shorts@.len() ==> (#[trigger] shorts@[x]).row < (#[trigger] shorts@[y]).row,
            edits_view(edits@) == shorts@.subrange(0, k as int).map_values(
                |s: ShortRow| pad_edit_view(t, s),
            ),
            edits_applicable(b, edits_view(edits@)),
        decreases shorts@.len() - k,
    {
        let s = shorts[k];
        let ghost e0 = edits@;
        let e = pad_edit(table, s);
        proof {
            let ev = edits_view(e0);
            assert(t.rows[s.row as int] == t.rows[s.row as int]);
            if k > 0 {
                let prev = shorts@[k - 1];
                assert(prev.row < s.row);
                assert(ev[ev.len() - 1] == pad_edit_view(t, prev));
                assert(t.rows[prev.row as int].span.end < t.rows[s.row as int].span.start);
            }
            lemma_push_applicable(b, ev, edit_view(e));
            assert(edits_view(e0.push(e)) =~= ev.push(edit_view(e)));
        }
        edits.push(e);
        proof {
            assert(shorts@.subrange(0, k + 1).map_values(|s: ShortRow| pad_edit_view(t, s))
                =~= shorts@.subrange(0, k as int).map_values(|s: ShortRow| pad_edit_view(t, s)).push(
                pad_edit_view(t, s),
            ));
        }
        k = k + 1;
    }
    assert(shorts@.subrange(0, k as int) =~= shorts@);
    edits
}

/// The diagnostics the pads of the given short rows fix, in their order.
fn pad_fixes(table: &Table, shorts: &Vec<ShortRow>) -> (r: Vec<Diag>)
    requires
        forall|x: int|
            0 <= x < shorts@.len() ==> (#[trigger] shorts@[x]).row < table@.rows.len()
                && table@.rows[shorts@[x].row as int].cells.len() + shorts@[x].missing <= usize::MAX,
    ensures
        diags_view(r@) == shorts@.map_values(|s: ShortRow| short_diag(table@, s)),
{
    let ghost t = table@;
    let mut fixes: Vec<Diag> = Vec::new();
    let mut k: usize = 0;
    while k < shorts.len()
        invariant
            t == table@,
            k <= shorts@.len(),
            forall|x: int|
                0 <= x < shorts@.len() ==> (#[trigger] shorts@[x]).row < t.rows.len()
                    && t.rows[shorts@[x].row as int].cells.len() + shorts@[x].missing <= usize::MAX,
            diags_view(fixes@) == shorts@.subrange(0, k as int).map_values(
                |s: ShortRow| short_diag(t, s),
            ),
        decreases shorts@.len() - k,
    {
        let s = shorts[k];
        let ghost f0 = fixes@;
        assert(t.rows[s.row as int] == table.rows@[s.row as int]@);
        fixes.push(missing_cells_diag(table, s));
        proof {
            assert(diags_view(fixes@) =~= diags_view(f0).push(short_diag(t, s)));
            assert(shorts@.subrange(0, k + 1).map_values(|s: ShortRow| short_diag(t, s))
                =~= shorts@.subrange(0, k as int).map_values(|s: ShortRow| short_diag(t, s)).push(
                short_diag(t, s),
            ));
        }
        k = k + 1;
    }
    assert(shorts@.subrange(0, k as int) =~= shorts@);
    fixes
}

impl ActionProvider for PadRows {
    fn name(&self) -> (r: &'static str)
        ensures
            r@ == "pad-rows"@,
    {
        "pad-rows"
    }

    fn actions(&self, ctx: &ActionContext) -> (r: Vec<Action>)
        ensures
            actions_view(r@) == pad_actions(ctx.doc.table@, ctx.range),
            all_sound(string_bytes(ctx.doc.text), actions_view(r@)),
    {
        let table = &ctx.doc.table;
        let ghost t = table@;
        let shorts = short_rows(table);
        let _n = table.rows.len();
        match table.header_index() {
            Some(h) => {
                let c = table.rows[h].cells.len();
                proof {
                    assert(t.rows[h as int] == table.rows@[h as int]@);
                    lemma_short_upto(t, h as int, c as int, t.rows.len() as int);
                }
            },
            None => {},
        }
        assert(forall|x: int, y: int|
            0 <= x < y < shorts@.len() ==> (#[trigger] shorts@[x]).row < (#[trigger] shorts@[y]).row);
        let mut actions: Vec<Action> = Vec::new();
        let mut i: usize = 0;
        while i < shorts.len()
            invariant
                t == table@,
                shorts@ == short_rows_of(t),
                i <= shorts@.len(),
                forall|x: int|
                    0 <= x < shorts@.len() ==> (#[trigger] shorts@[x]).row < t.rows.len()
                        && t.rows[shorts@[x].row as int].cells.len() + shorts@[x].missing <= usize::MAX,
                actions_view(actions@) == quickfixes_upto(t, shorts@, ctx.range, i as int),
                ctx.wf(),
                table == &ctx.doc.table,
                all_sound(string_bytes(ctx.doc.text), actions_view(actions@)),
            decreases shorts@.len() - i,
        {
            let s = shorts[i];
            assert(t.rows[s.row as int] == table.rows@[s.row as int]@);
            let ghost before = actions@;
            if ctx.intersects(table.rows[s.row].span) {
                let mut edits: Vec<(Span, String)> = Vec::new();
                edits.push(pad_edit(table, s));
                let mut fixes: Vec<Diag> = Vec::new();
                fixes.push(missing_cells_diag(table, s));
                let action = Action {
                    title: title_text(s.missing, false),
                    kind: ActionKind::QuickFix,
                    edits,
                    command: None,
                    dialect_change: None,
                    fixes,
                    is_preferred: true,
                };
                proof {
                    assert(edits_view(action.edits@) =~= seq![pad_edit_view(t, s)]);
                    assert(diags_view(action.fixes@) =~= seq![short_diag(t, s)]);
                    assert(action@ == pad_quickfix(t, s));
                    lemma_push_applicable(string_bytes(ctx.doc.text), Seq::empty(), pad_edit_view(t, s));
                    assert(Seq::<(Span, Seq<u8>)>::empty().push(pad_edit_view(t, s)) =~= seq![pad_edit_view(t, s)]);
                }
                actions.push(action);
            }
            proof {
                assert(actions_view(actions@) =~= quickfixes_upto(t, shorts@, ctx.range, i + 1));
                assert forall|k: int| 0 <= k < actions@.len() implies action_sound(
                    string_bytes(ctx.doc.text),
                    #[trigger] actions_view(actions@)[k],
                ) by {
                    if k < before.len() {
                        assert(actions_view(actions@)[k] == actions_view(before)[k]);
                    }
                }
            }
            i = i + 1;
        }
        if shorts.len() > 0 {
            let edits = pad_edits(Ghost(string_bytes(ctx.doc.text)), table, &shorts);
            let fixes = pad_fixes(table, &shorts);
            let action = Action {
                title: title_text(shorts.len(), true),
                kind: ActionKind::SourceFixAll,
                edits,
                command: None,
                dialect_change: None,
                fixes,
                is_preferred: false,
            };
            let ghost before = actions@;
            actions.push(action);
            proof {
                assert(actions_view(actions@) =~= actions_view(before).push(pad_all(t, shorts@)));
                assert forall|k: int| 0 <= k < actions@.len() implies action_sound(
                    string_bytes(ctx.doc.text),
                    #[trigger] actions_view(actions@)[k],
                ) by {
                    if k < before.len() {
                        assert(actions_view(actions@)[k] == actions_view(before)[k]);
                    }
                }
            }
        }
        actions
    }
}

} // verus!
