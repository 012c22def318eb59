use csv_lsp::dialect::Dialect;
use csv_lsp::document::Document;
use csv_lsp::edits::apply;
use csv_lsp::features::align::{align_edits, AlignColumns};
use csv_lsp::features::columns::{column_content_spans, ColumnEdits};
use csv_lsp::features::compact::{compact_edits, CompactColumns};
use csv_lsp::features::pad_rows::PadRows;
use csv_lsp::features::parse_errors::ParseErrors;
use csv_lsp::features::quote::QuoteCells;
use csv_lsp::features::ragged_rows::RaggedRows;
use csv_lsp::features::reinterpret::ReinterpretDialect;
use csv_lsp::features::transform::ConvertDialect;
use csv_lsp::features::{
    ActionContext, ActionKind, ActionProvider, Diag, DiagData, DiagnosticRule, Registry,
    ServerCommand, Severity,
};
use csv_lsp::parse::{parse, Quoting, Span};
use csv_lsp::position::PositionEncoding;

fn doc(text: &str) -> Document {
    Document::new("file:///t/data".to_owned(), "csv", 1, text.to_owned())
}

fn ctx_at(doc: &Document, offset: usize) -> ActionContext<'_> {
    ActionContext { doc, range: Span::new(offset, offset), only: None }
}

// Parse errors.

#[test]
fn quoting_errors_become_diagnostics_with_spans_and_codes() {
    let text = "5\" bolt,\"x\" y\n\"open";
    let table = parse(text, Dialect::Csv);
    let diags = ParseErrors.check(text, &table);

    assert_eq!(diags.len(), 3);

    assert_eq!(diags[0].code, "stray-quote");
    assert_eq!(diags[0].severity, Severity::Warning);
    assert_eq!(diags[0].span.slice(text), "\"");
    assert_eq!(diags[0].span.start, 1);

    assert_eq!(diags[1].code, "text-after-quote");
    assert_eq!(diags[1].severity, Severity::Error);
    assert_eq!(diags[1].span.slice(text), "y");

    assert_eq!(diags[2].code, "unclosed-quote");
    assert_eq!(diags[2].severity, Severity::Error);
    assert_eq!(diags[2].span.start, text.find("\"open").unwrap());
}

#[test]
fn the_standard_registry_runs_this_rule() {
    let text = "a\"b\n";
    let table = parse(text, Dialect::Csv);
    let diags = Registry::standard().diagnostics(text, &table);
    assert_eq!(diags.len(), 1);
    assert_eq!(diags[0].code, "stray-quote");
}

// Ragged rows.

fn check(text: &str) -> Vec<Diag> {
    RaggedRows.check(text, &parse(text, Dialect::Csv))
}

#[test]
fn short_rows_get_a_zero_width_diagnostic_at_their_end() {
    let text = "a,b,c\n1,2\n";
    let diags = check(text);

    assert_eq!(diags.len(), 1);
    let diag = &diags[0];
    assert_eq!(diag.code, "row-missing-cells");
    assert_eq!(diag.severity, Severity::Error);
    assert!(diag.span.is_empty());
    assert_eq!(diag.span.start, text.len() - 1);
    assert_eq!(diag.message, "row has 2 cells, expected 3");
    assert_eq!(diag.data, Some(DiagData::Missing { row: 1, missing: 1 }));
}

#[test]
fn singular_cell_count_reads_naturally() {
    let diags = check("a,b\n1\n");
    assert_eq!(diags[0].message, "row has 1 cell, expected 2");
}

#[test]
fn long_rows_span_their_extra_cells() {
    let text = "a,b\n1,2,3,4\n";
    let diags = check(text);

    assert_eq!(diags.len(), 1);
    let diag = &diags[0];
    assert_eq!(diag.code, "row-extra-cells");
    assert_eq!(diag.span.slice(text), "3,4");
    assert_eq!(diag.message, "row has 4 cells, expected 2");
    assert_eq!(diag.data, Some(DiagData::Extra { row: 1, extra: 2 }));
}

#[test]
fn blank_rows_are_not_ragged() {
    assert_eq!(check("a,b\n\n1,2\n"), Vec::new());
}

#[test]
fn rows_with_parse_errors_are_skipped() {
    assert_eq!(check("a,b\n\"x\n"), Vec::new());
}

#[test]
fn headerless_and_header_only_files_have_no_contract() {
    assert_eq!(check(""), Vec::new());
    assert_eq!(check("\n\n"), Vec::new());
    assert_eq!(check("a,b,c\n"), Vec::new());
}

#[test]
fn leading_blank_lines_do_not_shift_the_contract() {
    let diags = check("\na,b,c\n1,2\n");
    assert_eq!(diags.len(), 1);
    assert_eq!(diags[0].code, "row-missing-cells");
}

#[test]
fn counts_of_ten_and_more_read_as_decimals() {
    let diags = check("a,b,c,d,e,f,g,h,i,j,k,l\n1\n");
    assert_eq!(diags[0].message, "row has 1 cell, expected 12");
    assert_eq!(diags[0].data, Some(DiagData::Missing { row: 1, missing: 11 }));
}

// Pad rows.

#[test]
fn cursor_on_a_short_row_offers_the_pad_quickfix() {
    let doc = doc("a,b,c\n1,2\nx\n");
    let offset = doc.text.find("1,2").unwrap();
    let ctx = ctx_at(&doc, offset);
    let actions = PadRows.actions(&ctx);

    let action = actions
        .iter()
        .find(|action| action.kind == ActionKind::QuickFix)
        .expect("a quickfix for the short row under the cursor");
    assert_eq!(action.title, "Pad row with 1 empty cell");
    assert_eq!(action.kind, ActionKind::QuickFix);
    assert!(action.is_preferred);

    let (span, text) = &action.edits[0];
    assert!(span.is_empty());
    assert_eq!(span.start, doc.text.find("1,2").unwrap() + 3);
    assert_eq!(text, ",");

    assert_eq!(action.fixes.len(), 1);
    assert_eq!(action.fixes[0].code, "row-missing-cells");
}

#[test]
fn several_missing_cells_pad_in_one_edit() {
    let doc = doc("a,b,c\nx\n");
    let ctx = ctx_at(&doc, doc.text.len() - 2);
    let actions = PadRows.actions(&ctx);
    assert_eq!(actions[0].kind, ActionKind::QuickFix);
    assert_eq!(actions[0].title, "Pad row with 2 empty cells");
    assert_eq!(actions[0].edits[0].1, ",,");
}

#[test]
fn the_insert_uses_the_documents_delimiter() {
    let doc = Document::new("file:///t.tsv".to_owned(), "tsv", 1, "a\tb\n1\n".to_owned());
    let ctx = ctx_at(&doc, doc.text.len() - 1);
    let actions = PadRows.actions(&ctx);
    assert_eq!(actions[0].edits[0].1, "\t");
}

#[test]
fn complete_rows_and_the_header_get_no_quickfix() {
    let doc = doc("a,b,c\n1,2\n");
    let actions = PadRows.actions(&ctx_at(&doc, 0));
    assert!(actions.iter().all(|action| action.kind != ActionKind::QuickFix));
}

#[test]
fn clean_files_offer_nothing() {
    let doc = doc("a,b\n1,2\n");
    assert_eq!(PadRows.actions(&ctx_at(&doc, 0)), Vec::new());
}

#[test]
fn fix_all_pads_every_short_row_from_anywhere() {
    let doc = doc("a,b,c\n1,2\nx\n");
    let actions = PadRows.actions(&ctx_at(&doc, 0));

    assert_eq!(actions.len(), 1);
    let fix_all = &actions[0];
    assert_eq!(fix_all.title, "Pad all short rows (2)");
    assert_eq!(fix_all.kind, ActionKind::SourceFixAll);
    assert!(!fix_all.is_preferred);
    assert_eq!(fix_all.edits.len(), 2);
    assert_eq!(fix_all.edits[0].1, ",");
    assert_eq!(fix_all.edits[1].1, ",,");
    assert!(fix_all.edits[0].0.start < fix_all.edits[1].0.start);
    assert_eq!(fix_all.fixes.len(), 2);
}

#[test]
fn cursor_on_a_short_row_offers_quickfix_and_fix_all() {
    let doc = doc("a,b,c\n1,2\nx\n");
    let actions = PadRows.actions(&ctx_at(&doc, doc.text.find("1,2").unwrap()));
    let kinds: Vec<_> = actions.iter().map(|action| action.kind).collect();
    assert_eq!(kinds, [ActionKind::QuickFix, ActionKind::SourceFixAll]);
}

#[test]
fn fix_all_repairs_every_short_row() {
    let doc = doc("a,b,c\n1,2\nx\n\ny\n");
    let actions = PadRows.actions(&ctx_at(&doc, 0));
    let fixed = apply(&doc.text, &actions[0].edits);
    assert_eq!(fixed, "a,b,c\n1,2,\nx,,\n\ny,,\n");
    assert_eq!(check(&fixed), Vec::new());
}

// Align.

#[test]
fn align_edits_produce_the_aligned_document() {
    let doc = doc("id,name\n1,x\n");
    let edits = align_edits(&doc);
    assert_eq!(edits.len(), 1);

    let mut text = doc.text.clone();
    let (span, replacement) = &edits[0];
    text.replace_range(span.start..span.end, replacement);
    assert_eq!(text, "id,name\n1 ,x\n");
}

#[test]
fn aligned_documents_need_no_edits_and_offer_no_action() {
    let doc = doc("id,name\n1 ,x\n");
    assert_eq!(align_edits(&doc), Vec::new());
    assert_eq!(AlignColumns.actions(&ctx_at(&doc, 0)), Vec::new());
}

#[test]
fn unaligned_documents_offer_the_source_action() {
    let doc = doc("id,name\n1,x\n");
    let actions = AlignColumns.actions(&ctx_at(&doc, 0));
    assert_eq!(actions.len(), 1);
    assert_eq!(actions[0].title, "Align columns");
    assert_eq!(actions[0].kind, ActionKind::Source);
}

// Compact.

#[test]
fn compact_edits_strip_the_padding() {
    let doc = doc("id,name\n1 ,x\n");
    let edits = compact_edits(&doc);

    let mut text = doc.text.clone();
    for (span, replacement) in edits.iter().rev() {
        text.replace_range(span.start..span.end, replacement);
    }
    assert_eq!(text, "id,name\n1,x\n");
}

#[test]
fn compact_documents_offer_no_action() {
    let doc = doc("id,name\n1,x\n");
    assert_eq!(CompactColumns.actions(&ctx_at(&doc, 0)), Vec::new());
}

#[test]
fn padded_documents_offer_the_source_action() {
    let doc = doc("id,name\n1 ,x\n");
    let actions = CompactColumns.actions(&ctx_at(&doc, 0));
    assert_eq!(actions.len(), 1);
    assert_eq!(actions[0].title, "Compact columns");
    assert_eq!(actions[0].kind, ActionKind::Source);
}

// Column edits.

fn action_applied(text: &str, offset: usize, title: &str) -> Option<String> {
    let doc = doc(text);
    let actions = ColumnEdits.actions(&ctx_at(&doc, offset));
    let action = actions.iter().find(|action| action.title == title)?;
    assert_eq!(action.kind, ActionKind::Refactor);
    Some(apply(&doc.text, &action.edits))
}

#[test]
fn adds_an_empty_column_on_both_sides() {
    let text = "a,b\n1,2\n";
    let at_b = text.find('b').unwrap();
    assert_eq!(
        action_applied(text, at_b, "Add column left of \"b\"").as_deref(),
        Some("a,,b\n1,,2\n")
    );
    assert_eq!(
        action_applied(text, at_b, "Add column right of \"b\"").as_deref(),
        Some("a,b,\n1,2,\n")
    );
}

#[test]
fn the_first_column_works_on_both_sides() {
    let text = "a,b\n1,2\n";
    assert_eq!(
        action_applied(text, 0, "Add column left of \"a\"").as_deref(),
        Some(",a,b\n,1,2\n")
    );
    assert_eq!(
        action_applied(text, 0, "Add column right of \"a\"").as_deref(),
        Some("a,,b\n1,,2\n")
    );
}

#[test]
fn insertion_respects_alignment_padding() {
    let text = "aa, b \ncc, d \n";
    let offset = text.find(" b ").unwrap() + 1;
    assert_eq!(
        action_applied(text, offset, "Add column left of \"b\"").as_deref(),
        Some("aa,, b \ncc,, d \n")
    );
    assert_eq!(
        action_applied(text, offset, "Add column right of \"b\"").as_deref(),
        Some("aa, b ,\ncc, d ,\n")
    );
}

#[test]
fn short_blank_and_error_rows_are_untouched() {
    let text = "a,b\n\n1,2\nx\n5\" z,w\n";
    let at_b = text.find('b').unwrap();
    assert_eq!(
        action_applied(text, at_b, "Add column left of \"b\"").as_deref(),
        Some("a,,b\n\n1,,2\nx\n5\" z,w\n")
    );
}

#[test]
fn a_cursor_on_the_delimiter_edits_the_left_cell() {
    let text = "a,b\n1,2\n";
    assert_eq!(
        action_applied(text, 1, "Add column right of \"a\"").as_deref(),
        Some("a,,b\n1,,2\n")
    );
}

#[test]
fn deleting_an_inner_column_takes_the_preceding_delimiter() {
    let text = "a,b,c\n1,2,3\n";
    assert_eq!(
        action_applied(text, text.find('b').unwrap(), "Delete column \"b\"").as_deref(),
        Some("a,c\n1,3\n")
    );
}

#[test]
fn deleting_the_first_column_takes_the_following_delimiter() {
    let text = "a,b,c\n1,2,3\n";
    assert_eq!(
        action_applied(text, 0, "Delete column \"a\"").as_deref(),
        Some("b,c\n2,3\n")
    );
}

#[test]
fn quoted_cells_are_deleted_wholesale() {
    let text = "x,\"a,b\"\ny,z\n";
    let offset = text.find("\"a").unwrap();
    assert_eq!(
        action_applied(text, offset, "Delete column \"a,b\"").as_deref(),
        Some("x\ny\n")
    );
}

#[test]
fn deleting_the_only_column_leaves_blank_lines() {
    let text = "a\nb\n";
    assert_eq!(action_applied(text, 0, "Delete column \"a\"").as_deref(), Some("\n\n"));
}

#[test]
fn column_content_spans_cover_clean_rows_only() {
    let text = "id,name\n1,x\n\n2,\n5\" b,y\nz\n";
    let doc = doc(text);
    let spans = column_content_spans(&doc.table, 1);

    let slices: Vec<_> = spans.iter().map(|span| span.slice(text)).collect();
    assert_eq!(slices, ["name", "x", ""]);
    assert!(spans[2].is_empty());
    assert_eq!(spans[2].start, text.find("2,").unwrap() + 2);
}

#[test]
fn short_rows_keep_their_text_on_delete() {
    let text = "a,b\n1\n";
    assert_eq!(
        action_applied(text, text.find('b').unwrap(), "Delete column \"b\"").as_deref(),
        Some("a\n1\n")
    );
}

#[test]
fn headerless_columns_are_titled_by_number() {
    let text = "id,,name\n1,,x\n";
    assert_eq!(
        action_applied(text, 3, "Delete column #2").as_deref(),
        Some("id,name\n1,x\n")
    );
}

#[test]
fn long_header_values_are_shortened_in_titles() {
    let text = "abcdefghijklmnopqrstuvwxyz\n1\n";
    let doc = doc(text);
    let actions = ColumnEdits.actions(&ctx_at(&doc, 0));
    assert_eq!(actions[2].title, "Delete column \"abcdefghijklmnopqrstuvwx…\"");
}

fn all_diagnostics(text: &str) -> Vec<Diag> {
    Registry::standard().diagnostics(text, &parse(text, Dialect::Csv))
}

fn cell_counts(text: &str) -> Vec<usize> {
    parse(text, Dialect::Csv)
        .rows
        .iter()
        .filter(|row| !row.is_blank())
        .map(|row| row.cells.len())
        .collect()
}

#[test]
fn clean_files_stay_clean_when_a_column_is_added() {
    let text = "id , name\n1  ,\"a,b\"\n\n2  , x\n";
    assert!(all_diagnostics(text).is_empty());
    let at_name = text.find("name").unwrap();
    for title in ["Add column left of \"name\"", "Add column right of \"name\""] {
        let changed = action_applied(text, at_name, title).expect("offered");
        assert!(all_diagnostics(&changed).is_empty(), "{title}: {changed:?}");
        assert_eq!(cell_counts(&changed), [3, 3, 3]);
        assert_eq!(parse(&changed, Dialect::Csv).rows.len(), 4);
    }
}

#[test]
fn clean_files_stay_clean_when_a_column_is_deleted() {
    let text = "id,name,qty\n1,\"a,b\",3\n\n2,x,4\n";
    assert!(all_diagnostics(text).is_empty());
    for (at, title) in [(0, "Delete column \"id\""), (3, "Delete column \"name\""), (8, "Delete column \"qty\"")] {
        let changed = action_applied(text, at, title).expect("offered");
        assert!(all_diagnostics(&changed).is_empty(), "{title}: {changed:?}");
        assert_eq!(cell_counts(&changed), [2, 2, 2]);
    }
}

fn row_values(text: &str) -> Vec<Vec<String>> {
    parse(text, Dialect::Csv)
        .rows
        .iter()
        .map(|row| row.cells.iter().map(|cell| cell.value(text)).collect())
        .collect()
}

#[test]
fn adding_a_column_keeps_every_value_around_the_new_empty_cell() {
    let text = "a, \"b,c\"\n1,2\n";
    let at_b = text.find('b').unwrap();
    let changed = action_applied(text, at_b, "Add column left of \"b,c\"").expect("offered");
    assert_eq!(row_values(&changed), [vec!["a", "", "b,c"], vec!["1", "", "2"]]);
    let changed = action_applied(text, at_b, "Add column right of \"b,c\"").expect("offered");
    assert_eq!(row_values(&changed), [vec!["a", "b,c", ""], vec!["1", "2", ""]]);
}

#[test]
fn deleting_a_column_keeps_every_other_value() {
    let text = "id,\"n,m\",qty\n1,x,3\n\n2,\"y\"\"z\",4\n";
    let at_name = text.find('n').unwrap();
    let changed = action_applied(text, at_name, "Delete column \"n,m\"").expect("offered");
    assert_eq!(row_values(&changed), [vec!["id", "qty"], vec!["1", "3"], vec![""], vec!["2", "4"]]);
    let changed = action_applied(text, 0, "Delete column \"id\"").expect("offered");
    assert_eq!(
        row_values(&changed),
        [vec!["n,m", "qty"], vec!["x", "3"], vec![""], vec!["y\"z", "4"]]
    );
}

#[test]
fn deleting_an_added_column_restores_the_text() {
    let text = "id,name\n1,x\n2,y\n";
    let added = action_applied(text, 0, "Add column right of \"id\"").expect("offered");
    assert_eq!(added, "id,,name\n1,,x\n2,,y\n");
    assert!(all_diagnostics(&added).is_empty());
    let restored = action_applied(&added, 3, "Delete column #2").expect("offered");
    assert_eq!(restored, text);
}

#[test]
fn a_deleted_last_row_left_empty_is_gone() {
    let text = "a,b\nx,";
    let changed = action_applied(text, 0, "Delete column \"a\"").expect("offered");
    assert_eq!(changed, "b\n");
    assert_eq!(parse(&changed, Dialect::Csv).rows.len(), 1);
    assert!(all_diagnostics(&changed).is_empty());
}

#[test]
fn a_lone_carriage_return_runs_into_an_emptied_row() {
    let text = "h1,h2\ra,\nb,c\n";
    assert!(all_diagnostics(text).is_empty());
    let changed = action_applied(text, 0, "Delete column \"h1\"").expect("offered");
    assert_eq!(changed, "h2\r\nc\n");
    assert_eq!(parse(&changed, Dialect::Csv).rows.len(), 2);
    assert!(all_diagnostics(&changed).is_empty());
}

#[test]
fn a_deletion_may_bring_a_byte_order_mark_to_the_front() {
    let text = "a,\u{FEFF}x\nb,y\n";
    assert!(!parse(text, Dialect::Csv).has_bom);
    let changed = action_applied(text, 0, "Delete column \"a\"").expect("offered");
    assert_eq!(changed, "\u{FEFF}x\ny\n");
    let table = parse(&changed, Dialect::Csv);
    assert!(table.has_bom);
    assert_eq!(table.rows.len(), 2);
    assert!(all_diagnostics(&changed).is_empty());
}

// Quote.

fn quote_cell_at(text: &str, offset: usize) -> Option<String> {
    let doc = doc(text);
    let actions = QuoteCells.actions(&ctx_at(&doc, offset));
    let action = actions.iter().find(|action| action.title == "Quote cell")?;
    assert_eq!(action.kind, ActionKind::RefactorRewrite);
    Some(apply(&doc.text, &action.edits))
}

#[test]
fn wraps_the_cell_under_the_cursor() {
    let text = "a,b\n";
    assert_eq!(quote_cell_at(text, text.find('b').unwrap()).as_deref(), Some("a,\"b\"\n"));
}

#[test]
fn padding_stays_outside_the_quotes() {
    let text = "x, a \ny,b\n";
    assert_eq!(
        quote_cell_at(text, text.find(" a ").unwrap() + 1).as_deref(),
        Some("x, \"a\" \ny,b\n")
    );
}

#[test]
fn empty_cells_become_empty_quoted_cells() {
    let text = "a,,c\n";
    assert_eq!(quote_cell_at(text, 2).as_deref(), Some("a,\"\",c\n"));
}

#[test]
fn quoted_cells_offer_nothing() {
    let text = "a,\"b\"\n";
    assert_eq!(quote_cell_at(text, text.find("\"b").unwrap() + 1), None);
}

#[test]
fn blank_and_error_rows_offer_nothing() {
    assert_eq!(quote_cell_at("a,b\n\n1,2\n", "a,b\n".len()), None);
    let text = "a,b\n5\" bolt,x\n";
    assert_eq!(quote_cell_at(text, text.find("bolt").unwrap()), None);
}

#[test]
fn quote_column_covers_every_unquoted_cell_of_the_column() {
    let text = "id,name\n1,\"x\"\n2,y\n";
    let doc = doc(text);
    let actions = QuoteCells.actions(&ctx_at(&doc, 3));
    let column = actions
        .iter()
        .find(|action| action.title == "Quote column \"name\"")
        .expect("quote column offered");
    assert_eq!(column.kind, ActionKind::RefactorRewrite);
    assert_eq!(apply(text, &column.edits), "id,\"name\"\n1,\"x\"\n2,\"y\"\n");
    let quoted = doc_after(&apply(text, &column.edits));
    let again = QuoteCells.actions(&ctx_at(&quoted, 3));
    assert!(!again.iter().any(|action| action.title.starts_with("Quote column")));
}

#[test]
fn quoting_keeps_every_value_and_leaves_padding_outside() {
    let text = "id , name\n1  ,  x y  \n2  ,\n";
    let doc = doc(text);
    let actions = QuoteCells.actions(&ctx_at(&doc, text.find("name").unwrap()));
    let column = actions
        .iter()
        .find(|action| action.title == "Quote column \"name\"")
        .expect("quote column offered");
    let quoted = apply(text, &column.edits);
    assert_eq!(quoted, "id , \"name\"\n1  ,  \"x y\"  \n2  ,\"\"\n");
    let before = parse(text, Dialect::Csv);
    let after = parse(&quoted, Dialect::Csv);
    assert!(after.errors.is_empty());
    assert_eq!(after.rows.len(), before.rows.len());
    for (old, new) in before.rows.iter().zip(after.rows.iter()) {
        assert_eq!(old.cells.len(), new.cells.len());
        for (a, b) in old.cells.iter().zip(new.cells.iter()) {
            assert_eq!(a.value(text), b.value(&quoted));
        }
        assert_eq!(new.cells[1].quoting, Quoting::Quoted);
        assert_eq!(new.cells[0].quoting, Quoting::Unquoted);
    }
}

fn doc_after(text: &str) -> Document {
    doc(text)
}

// Reinterpret.

#[test]
fn offers_every_non_current_dialect() {
    let doc = doc("a,b\n");
    let actions = ReinterpretDialect.actions(&ctx_at(&doc, 0));

    let titles: Vec<_> = actions.iter().map(|action| action.title.as_str()).collect();
    assert_eq!(titles, ["Reinterpret as TSV", "Reinterpret as SSV", "Reinterpret as PSV"]);
    for action in &actions {
        assert_eq!(action.kind, ActionKind::Source);
        assert!(action.edits.is_empty());
    }
    assert_eq!(actions[1].command, Some(ServerCommand::SetDialect { dialect: Dialect::Ssv }));
}

#[test]
fn the_current_dialect_reflects_prior_reinterpretation() {
    let doc = Document::new("file:///t/x.txt".to_owned(), "ssv", 1, "a;b\n".to_owned());
    let actions = ReinterpretDialect.actions(&ctx_at(&doc, 0));
    let titles: Vec<_> = actions.iter().map(|action| action.title.as_str()).collect();
    assert_eq!(titles, ["Reinterpret as CSV", "Reinterpret as TSV", "Reinterpret as PSV"]);
}

// Convert.

#[test]
fn offers_conversions_to_the_non_current_dialects() {
    let doc = doc("a,b\n1,2\n");
    let actions = ConvertDialect.actions(&ctx_at(&doc, 0));

    let titles: Vec<_> = actions.iter().map(|action| action.title.as_str()).collect();
    assert_eq!(titles, ["Convert to TSV", "Convert to SSV", "Convert to PSV"]);
    assert_eq!(actions[0].dialect_change, Some(Dialect::Tsv));
    assert_eq!(apply(&doc.text, &actions[0].edits), "a\tb\n1\t2\n");
}

#[test]
fn conversion_protects_cells_containing_the_new_delimiter() {
    let doc = Document::new(
        "file:///t/preise.ssv".to_owned(),
        "ssv",
        1,
        "artikel;preis\nbolzen;1,50\n".to_owned(),
    );
    let actions = ConvertDialect.actions(&ctx_at(&doc, 0));
    let to_csv = actions
        .iter()
        .find(|action| action.title == "Convert to CSV")
        .expect("csv conversion offered");
    assert_eq!(apply(&doc.text, &to_csv.edits), "artikel,preis\nbolzen,\"1,50\"\n");
}

#[test]
fn conversion_to_psv_quotes_cells_containing_pipes() {
    let doc = doc("cmd,note\nls,a|b\n");
    let actions = ConvertDialect.actions(&ctx_at(&doc, 0));
    let to_psv = actions
        .iter()
        .find(|action| action.title == "Convert to PSV")
        .expect("psv conversion offered");
    assert_eq!(apply(&doc.text, &to_psv.edits), "cmd|note\nls|\"a|b\"\n");
}

#[test]
fn files_with_parse_errors_offer_no_conversions() {
    let doc = doc("a,b\n5\" bolt,x\n");
    assert_eq!(ConvertDialect.actions(&ctx_at(&doc, 0)), Vec::new());
}

#[test]
fn single_column_files_have_nothing_to_convert() {
    let doc = doc("a\nb\n");
    assert_eq!(ConvertDialect.actions(&ctx_at(&doc, 0)), Vec::new());
}

// Registry and kind filtering.

fn kinds_with(only: Option<Vec<String>>) -> Vec<ActionKind> {
    let doc = doc("a,b,c\n1,2\nx\n");
    let offset = doc.text.find("1,2").unwrap();
    let ctx = ActionContext { doc: &doc, range: Span::new(offset, offset), only };
    Registry::standard().actions(&ctx).iter().map(|action| action.kind).collect()
}

#[test]
fn kind_filters_select_by_dotted_prefix() {
    let quickfix = kinds_with(Some(vec!["quickfix".to_owned()]));
    assert_eq!(quickfix, [ActionKind::QuickFix]);
    let fix_all = kinds_with(Some(vec!["source.fixAll".to_owned()]));
    assert_eq!(fix_all, [ActionKind::SourceFixAll]);
    let source = kinds_with(Some(vec!["source".to_owned()]));
    assert!(source.contains(&ActionKind::SourceFixAll));
    assert!(source.contains(&ActionKind::Source));
    assert!(!source.contains(&ActionKind::QuickFix));
    assert!(kinds_with(Some(vec!["quick".to_owned()])).is_empty());
    assert!(kinds_with(Some(vec!["quickfixes".to_owned()])).is_empty());
    let all = kinds_with(None);
    assert!(all.contains(&ActionKind::QuickFix));
    assert!(all.contains(&ActionKind::Refactor));
}

#[test]
fn refactor_filter_keeps_only_refactors() {
    let kinds = kinds_with(Some(vec!["refactor".to_owned()]));
    assert!(!kinds.is_empty());
    assert!(kinds
        .iter()
        .all(|kind| matches!(kind, ActionKind::Refactor | ActionKind::RefactorRewrite)));
}

#[test]
fn action_kinds_have_their_wire_names() {
    assert_eq!(ActionKind::QuickFix.as_str(), "quickfix");
    assert_eq!(ActionKind::Source.as_str(), "source");
    assert_eq!(ActionKind::SourceFixAll.as_str(), "source.fixAll");
    assert_eq!(ActionKind::Refactor.as_str(), "refactor");
    assert_eq!(ActionKind::RefactorRewrite.as_str(), "refactor.rewrite");
}

#[test]
fn cursor_helpers_resolve_the_cell_left_of_a_delimiter() {
    let doc = doc("ab,cd\nef,gh\n");
    assert_eq!(ctx_at(&doc, 2).cell_at_cursor(), Some((0, 0)));
    assert_eq!(ctx_at(&doc, 5).column_at_cursor(), Some(1));
    assert_eq!(ctx_at(&doc, 99).cell_at_cursor(), None);
    assert!(ctx_at(&doc, 5).intersects(Span::new(0, 5)));
    assert!(!ctx_at(&doc, 5).intersects(Span::new(6, 9)));
}

#[test]
fn every_span_handed_out_survives_the_trip_to_a_position() {
    let d = doc("h1,h2,h3\r\na\r\n\"x\"y,1,2,3\r\n b , c ,d\r\n");
    let encodings = [PositionEncoding::Utf8, PositionEncoding::Utf16, PositionEncoding::Utf32];
    let mut spans: Vec<Span> = Registry::standard()
        .diagnostics(&d.text, &d.table)
        .iter()
        .map(|diag| diag.span)
        .collect();
    assert!(!spans.is_empty());
    for offset in 0..d.text.len() {
        for action in Registry::standard().actions(&ctx_at(&d, offset)) {
            spans.extend(action.edits.iter().map(|(span, _)| *span));
        }
    }
    spans.extend(column_content_spans(&d.table, 0));
    for span in spans {
        for enc in encodings {
            for offset in [span.start, span.end] {
                let position = d.line_index.position(&d.text, offset, enc);
                assert_eq!(d.line_index.offset(&d.text, position, enc), offset);
            }
        }
    }
}
