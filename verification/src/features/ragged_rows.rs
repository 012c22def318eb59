//! Checks every row's cell count against the header's column contract.

use vstd::prelude::*;

use std::collections::HashSet;
use vstd::string::StringSliceAdditionalSpecFns;
use vstd::utf8::*;

use crate::features::{diags_view, parsed_from, Diag, DiagData, DiagView, DiagnosticRule, Severity};
use crate::parse::{first_nonblank, row_is_blank, Span, Table, TableView};
use crate::render::{error_row, error_row_set};
use crate::text::{decimal_bytes, push_decimal, push_text, string_bytes, string_from_utf8};
use crate::wellformed::{law_parse_whole, lemma_parse_fits, span_addressable, table_fits, table_whole};
use crate::grammar::spec_parse;

verus! {

/// A row with fewer cells than the header, and how many it lacks.
#[derive(Debug, Clone, Copy, PartialEq, Eq, Structural)]
pub struct ShortRow {
    /// Index of the row in the table.
    pub row: usize,
    /// How many cells are missing.
    pub missing: usize,
}

/// `row has N cell(s), expected E`.
pub open spec fn count_message(count: nat, expected: nat) -> Seq<u8> {
    encode_utf8("row has "@) + decimal_bytes(count) + encode_utf8(
        if count == 1 {
            " cell"@
        } else {
            " cells"@
        },
    ) + encode_utf8(", expected "@) + decimal_bytes(expected)
}

/// Row `i` is checked against a header at `h`: it comes after the header,
/// is not blank, and no parse error touches it.
pub open spec fn checked_row(t: TableView, h: int, i: int) -> bool {
    i > h && !row_is_blank(t.rows[i]) && !error_row(t, i)
}

/// The diagnostic for row `i`, which lacks cells under an `e`-column
/// header: zero-width at the row end.
pub open spec fn missing_diag(t: TableView, i: int, e: int) -> DiagView {
    let r = t.rows[i];
    let count = r.cells.len();
    DiagView {
        span: Span { start: r.span.end, end: r.span.end },
        severity: Severity::Error,
        code: "row-missing-cells"@,
        message: count_message(count, e as nat),
        data: Some(DiagData::Missing { row: i as usize, missing: (e - count) as usize }),
    }
}

/// The diagnostic for row `i`, which has cells beyond an `e`-column
/// header: spanning the extra cells.
pub open spec fn extra_diag(t: TableView, i: int, e: int) -> DiagView {
    let r = t.rows[i];
    let count = r.cells.len();
    DiagView {
        span: Span { start: r.cells[e].span.start, end: r.span.end },
        severity: Severity::Error,
        code: "row-extra-cells"@,
        message: count_message(count, e as nat),
        data: Some(DiagData::Extra { row: i as usize, extra: (count - e) as usize }),
    }
}

/// The diagnostic, if any, for row `i` under header row `h` of `e` cells.
pub open spec fn row_diag(t: TableView, h: int, e: int, i: int) -> Seq<DiagView> {
    if !checked_row(t, h, i) {
        Seq::empty()
    } else if t.rows[i].cells.len() < e {
        seq![missing_diag(t, i, e)]
    } else if t.rows[i].cells.len() > e {
        seq![extra_diag(t, i, e)]
    } else {
        Seq::empty()
    }
}

/// The diagnostics of rows `0..k`.
pub open spec fn ragged_upto(t: TableView, h: int, e: int, k: int) -> Seq<DiagView>
    decreases k,
{
    if k <= 0 {
        Seq::empty()
    } else {
        ragged_upto(t, h, e, k - 1) + row_diag(t, h, e, k - 1)
    }
}

/// All ragged-row diagnostics of a table, in row order; none without a
/// header.
pub open spec fn ragged_diags(t: TableView) -> Seq<DiagView> {
    match first_nonblank(t.rows, 0) {
        None => Seq::empty(),
        Some(h) => ragged_upto(t, h, t.rows[h].cells.len() as int, t.rows.len() as int),
    }
}

/// The short rows among rows `0..k`, in row order.
pub open spec fn short_upto(t: TableView, h: int, e: int, k: int) -> Seq<ShortRow>
    decreases k,
{
    if k <= 0 {
        Seq::empty()
    } else {
        short_upto(t, h, e, k - 1) + (if checked_row(t, h, k - 1) && t.rows[k - 1].cells.len() < e {
            seq![ShortRow { row: (k - 1) as usize, missing: (e - t.rows[k - 1].cells.len()) as usize }]
        } else {
            Seq::empty()
        })
    }
}

/// The rows with missing cells, in row order.
pub open spec fn short_rows_of(t: TableView) -> Seq<ShortRow> {
    match first_nonblank(t.rows, 0) {
        None => Seq::empty(),
        Some(h) => short_upto(t, h, t.rows[h].cells.len() as int, t.rows.len() as int),
    }
}

/// `row has N cell(s), expected E`.
fn count_message_text(count: usize, expected: usize) -> (r: String)
    ensures
        string_bytes(r) == count_message(count as nat, expected as nat),
{
    let mut out: Vec<u8> = Vec::new();
    proof {
        assert(valid_utf8(Seq::<u8>::empty())) by {
            reveal_with_fuel(valid_utf8, 1);
        }
    }
    push_text(&mut out, "row has ");
    push_decimal(&mut out, count);
    if count == 1 {
        push_text(&mut out, " cell");
    } else {
        push_text(&mut out, " cells");
    }
    push_text(&mut out, ", expected ");
    push_decimal(&mut out, expected);
    proof {
        assert(out@ =~= count_message(count as nat, expected as nat));
    }
    string_from_utf8(out)
}

/// The missing-cells diagnostic of a short row.
pub fn missing_cells_diag(table: &Table, short: ShortRow) -> (r: Diag)
    requires
        short.row < table.rows@.len(),
        table.rows@[short.row as int].cells@.len() + short.missing <= usize::MAX,
    ensures
        r@ == missing_diag(
            table@,
            short.row as int,
            table@.rows[short.row as int].cells.len() + short.missing,
        ),
{
    assert(table@.rows[short.row as int] == table.rows@[short.row as int]@);
    let row = &table.rows[short.row];
    let count = row.cells.len();
    let expected = count + short.missing;
    Diag {
        // Zero-width at the row end: "cells are missing here", rendered as
        // an end-of-line marker in editors.
        span: Span::new(row.span.end, row.span.end),
        severity: Severity::Error,
        code: "row-missing-cells",
        message: count_message_text(count, expected),
        data: Some(DiagData::Missing { row: short.row, missing: short.missing }),
    }
}

/// The extra-cells diagnostic of row `index` under an `expected`-column
/// header.
fn extra_cells_diag(table: &Table, index: usize, expected: usize) -> (r: Diag)
    requires
        index < table.rows@.len(),
        expected < table.rows@[index as int].cells@.len(),
    ensures
        r@ == extra_diag(table@, index as int, expected as int),
{
    assert(table@.rows[index as int] == table.rows@[index as int]@);
    let row = &table.rows[index];
    let count = row.cells.len();
    Diag {
        span: Span { start: row.cells[expected].span.start, end: row.span.end },
        severity: Severity::Error,
        code: "row-extra-cells",
        message: count_message_text(count, expected),
        data: Some(DiagData::Extra { row: index, extra: count - expected }),
    }
}

/// Every row with fewer cells than the header, in row order. Blank rows
/// and rows touched by a parse error are skipped.
pub fn short_rows(table: &Table) -> (r: Vec<ShortRow>)
    ensures
        r@ == short_rows_of(table@),
{
    let (expected, header_index) = match (table.expected_columns(), table.header_index()) {
        (Some(e), Some(h)) => (e, h),
        _ => return Vec::new(),
    };
    let ghost t = table@;
    assert(t.rows[header_index as int] == table.rows@[header_index as int]@);
    let _hc = table.rows[header_index].cells.len();
    broadcast use vstd::std_specs::hash::group_hash_axioms;

    let flags = error_row_set(table);
    let mut out: Vec<ShortRow> = Vec::new();
    let mut i: usize = 0;
    while i < table.rows.len()
        invariant
            t == table@,
            first_nonblank(t.rows, 0) == Some(header_index as int),
            header_index < t.rows.len(),
            expected == t.rows[header_index as int].cells.len(),
            forall|x: usize| #[trigger] flags@.contains(x) == error_row(t, x as int),
            i <= t.rows.len(),
            out@ == short_upto(t, header_index as int, expected as int, i as int),
        decreases t.rows.len() - i,
    {
        assert(t.rows[i as int] == table.rows@[i as int]@);
        let row = &table.rows[i];
        if i > header_index && !row.is_blank() && !flags.contains(&i) && row.cells.len() < expected {
            out.push(ShortRow { row: i, missing: expected - row.cells.len() });
        }
        proof {
            assert(out@ =~= short_upto(t, header_index as int, expected as int, i + 1));
        }
        i = i + 1;
    }
    out
}

/// Rows with fewer or more cells than the header (the first non-blank
/// row). Blank rows are separators and rows overlapping a parse error are
/// already broken: both are skipped, so one unclosed quote does not cascade
/// into a wall of ragged-row errors.
pub struct RaggedRows;

impl DiagnosticRule for RaggedRows {
    fn name(&self) -> (r: &'static str)
        ensures
            r@ == "ragged-rows"@,
    {
        "ragged-rows"
    }

    fn check(&self, text: &str, table: &Table) -> (r: Vec<Diag>)
        ensures
            diags_view(r@) == ragged_diags(table@),
            forall|k: int| 0 <= k < r@.len() ==> span_addressable(text.spec_bytes(), #[trigger] r@[k].span),
    {
        let tb = text.as_bytes();
        let _n = tb.len();
        proof {
            encode_utf8_valid_utf8(text@);
            lemma_parse_fits(text.spec_bytes(), table@.dialect);
            law_parse_whole(text.spec_bytes(), table@.dialect);
        }
        let (expected, header_index) = match (table.expected_columns(), table.header_index()) {
            (Some(e), Some(h)) => (e, h),
            _ => return Vec::new(),
        };
        let ghost t = table@;
        assert(t.rows[header_index as int] == table.rows@[header_index as int]@);
    let _hc = table.rows[header_index].cells.len();
        broadcast use vstd::std_specs::hash::group_hash_axioms;

        let flags = error_row_set(table);
        let mut diags: Vec<Diag> = Vec::new();
        let mut i: usize = 0;
        while i < table.rows.len()
            invariant
                t == table@,
                first_nonblank(t.rows, 0) == Some(header_index as int),
                header_index < t.rows.len(),
                expected == t.rows[header_index as int].cells.len(),
                forall|x: usize| #[trigger] flags@.contains(x) == error_row(t, x as int),
                i <= t.rows.len(),
                diags_view(diags@) == ragged_upto(t, header_index as int, expected as int, i as int),
                table_fits(t, text.spec_bytes()),
                table_whole(t, text.spec_bytes()),
                forall|k: int| 0 <= k < diags@.len() ==> span_addressable(text.spec_bytes(), #[trigger] diags@[k].span),
            decreases t.rows.len() - i,
        {
            assert(t.rows[i as int] == table.rows@[i as int]@);
            let ghost before = diags@;
            let row = &table.rows[i];
            if i > header_index && !row.is_blank() && !flags.contains(&i) {
                let count = row.cells.len();
                if count < expected {
                    let d = missing_cells_diag(table, ShortRow { row: i, missing: expected - count });
                    diags.push(d);
                } else if count > expected {
                    let d = extra_cells_diag(table, i, expected);
                    diags.push(d);
                }
            }
            proof {
                assert(diags_view(diags@) =~= diags_view(before) + row_diag(
                    t,
                    header_index as int,
                    expected as int,
                    i as int,
                ));
                let r = t.rows[i as int];
                assert(r == t.rows[i as int]);
                if r.cells.len() > expected {
                    assert(r.cells[expected as int] == r.cells[expected as int]);
                }
                assert forall|k: int| 0 <= k < diags@.len() implies span_addressable(text.spec_bytes(), #[trigger] diags@[k].span) by {
                    if k < before.len() {
                        assert(diags@[k] == before[k]);
                    } else {
                        assert(diags_view(diags@)[k] == diags@[k]@);
                    }
                }
            }
            i = i + 1;
        }
        diags
    }
}


/// The short rows of rows `0..k` are checked rows below `k` with fewer
/// cells than the header, listed in ascending row order.
pub proof fn lemma_short_upto(t: TableView, h: int, e: int, k: int)
    requires
        e <= usize::MAX,
        0 <= k <= t.rows.len() <= usize::MAX,
    ensures
        forall|x: int|
            #![trigger short_upto(t, h, e, k)[x]]
            0 <= x < short_upto(t, h, e, k).len() ==> {
                let s = short_upto(t, h, e, k)[x];
                &&& s.row < k
                &&& checked_row(t, h, s.row as int)
                &&& t.rows[s.row as int].cells.len() < e
                &&& s.missing == e - t.rows[s.row as int].cells.len()
            },
        forall|x: int, y: int|
            0 <= x < y < short_upto(t, h, e, k).len() ==> (#[trigger] short_upto(t, h, e, k)[x]).row
                < (#[trigger] short_upto(t, h, e, k)[y]).row,
    decreases k,
{
    if k > 0 {
        lemma_short_upto(t, h, e, k - 1);
        let prev = short_upto(t, h, e, k - 1);
        let cur = short_upto(t, h, e, k);
        assert forall|x: int| 0 <= x < prev.len() implies #[trigger] cur[x] == prev[x] by {}
        assert forall|x: int| 0 <= x < cur.len() implies ({
            let s = #[trigger] cur[x];
            &&& s.row < k
            &&& checked_row(t, h, s.row as int)
            &&& t.rows[s.row as int].cells.len() < e
            &&& s.missing == e - t.rows[s.row as int].cells.len()
        }) by {
            if x < prev.len() {
                assert(cur[x] == prev[x]);
            }
        }
        assert forall|x: int, y: int| 0 <= x < y < cur.len() implies (#[trigger] cur[x]).row < (#[trigger] cur[y]).row by {
            if y < prev.len() {
                assert(cur[x] == prev[x]);
                assert(cur[y] == prev[y]);
            } else {
                assert(cur[x] == prev[x]);
            }
        }
    }
}

} // verus!
