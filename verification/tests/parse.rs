use csv_lsp::dialect::Dialect;
use csv_lsp::parse::{parse, LineTerminator, ParseErrorKind, Quoting, Span, Table};

#[test]
fn slice_returns_the_covered_text() {
    assert_eq!(Span::new(3, 5).slice("id,name"), "na");
}

#[test]
fn len_and_is_empty() {
    assert_eq!(Span::new(3, 5).len(), 2);
    assert!(!Span::new(3, 5).is_empty());
    assert!(Span::new(3, 3).is_empty());
}

#[test]
fn contains_is_half_open() {
    let span = Span::new(3, 5);
    assert!(!span.contains(2));
    assert!(span.contains(3));
    assert!(span.contains(4));
    assert!(!span.contains(5));
}

#[test]
fn overlaps_requires_a_shared_byte() {
    let span = Span::new(3, 5);
    assert!(span.overlaps(Span::new(4, 9)));
    assert!(span.overlaps(Span::new(0, 4)));
    assert!(!span.overlaps(Span::new(5, 9)));
    assert!(!span.overlaps(Span::new(0, 3)));
}

#[test]
fn an_empty_span_shares_no_byte() {
    assert!(!Span::new(0, 10).overlaps(Span::new(5, 5)));
    assert!(!Span::new(5, 5).overlaps(Span::new(0, 10)));
    assert!(!Span::new(5, 5).overlaps(Span::new(5, 5)));
}

fn cell_slices<'t>(text: &'t str, table: &Table) -> Vec<Vec<&'t str>> {
    table
        .rows
        .iter()
        .map(|row| row.cells.iter().map(|cell| cell.span.slice(text)).collect())
        .collect()
}

fn content_slices<'t>(text: &'t str, table: &Table) -> Vec<Vec<&'t str>> {
    table
        .rows
        .iter()
        .map(|row| {
            row.cells
                .iter()
                .map(|cell| cell.content_span.slice(text))
                .collect()
        })
        .collect()
}

#[test]
fn padding_is_trimmed_from_content_spans() {
    let text = " a , bb ,c \n";
    let table = parse(text, Dialect::Csv);
    assert_eq!(cell_slices(text, &table), [[" a ", " bb ", "c "]]);
    assert_eq!(content_slices(text, &table), [["a", "bb", "c"]]);
}

#[test]
fn interior_spaces_are_content() {
    let text = "a b,c\n";
    let table = parse(text, Dialect::Csv);
    assert_eq!(content_slices(text, &table), [["a b", "c"]]);
}

#[test]
fn all_padding_cell_has_zero_width_content_at_its_start() {
    let text = "x,  ,y\n";
    let table = parse(text, Dialect::Csv);
    let padded = &table.rows[0].cells[1];
    assert_eq!(padded.span.slice(text), "  ");
    assert!(padded.content_span.is_empty());
    assert_eq!(padded.content_span.start, padded.span.start);
}

#[test]
fn quoted_cells_may_contain_delimiters() {
    let text = "\"a,b\",c\n";
    let table = parse(text, Dialect::Csv);
    assert_eq!(cell_slices(text, &table), [["\"a,b\"", "c"]]);
    let quoted = &table.rows[0].cells[0];
    assert_eq!(quoted.quoting, Quoting::Quoted);
    assert_eq!(quoted.content_span.slice(text), "\"a,b\"");
    assert!(!quoted.has_escaped_quotes);
    assert_eq!(quoted.value(text), "a,b");
}

#[test]
fn escaped_quotes_decode_with_allocation() {
    let text = "\"x\"\"y\"\n";
    let table = parse(text, Dialect::Csv);
    let cell = &table.rows[0].cells[0];
    assert!(cell.has_escaped_quotes);
    assert_eq!(cell.value(text), "x\"y");
}

#[test]
fn padding_around_quoted_cells_is_tolerated() {
    let text = " \"q\" ,z\n";
    let table = parse(text, Dialect::Csv);
    assert!(table.errors.is_empty());
    let cell = &table.rows[0].cells[0];
    assert_eq!(cell.span.slice(text), " \"q\" ");
    assert_eq!(cell.content_span.slice(text), "\"q\"");
    assert_eq!(cell.value(text), "q");
}

#[test]
fn empty_quoted_cell_decodes_to_empty() {
    let text = "\"\",x\n";
    let table = parse(text, Dialect::Csv);
    assert_eq!(table.rows[0].cells[0].value(text), "");
}

#[test]
fn bom_is_recorded_and_excluded_from_spans() {
    let text = "\u{feff}a,b\n";
    let table = parse(text, Dialect::Csv);
    assert!(table.has_bom);
    assert_eq!(table.rows[0].cells[0].span.start, 3);
    assert_eq!(cell_slices(text, &table), [["a", "b"]]);
}

#[test]
fn crlf_rows_record_the_terminator_and_stay_out_of_spans() {
    let text = "a,b\r\n1,2\r\n";
    let table = parse(text, Dialect::Csv);
    assert_eq!(table.line_terminator, LineTerminator::CrLf);
    assert_eq!(table.rows[0].span.slice(text), "a,b");
    assert_eq!(cell_slices(text, &table), [["a", "b"], ["1", "2"]]);
    assert!(table.ends_with_newline);
}

#[test]
fn lone_cr_ends_a_row_as_lf_family() {
    let text = "a\rb\n";
    let table = parse(text, Dialect::Csv);
    assert_eq!(table.rows.len(), 2);
    assert_eq!(table.line_terminator, LineTerminator::Lf);
}

#[test]
fn quoted_cells_span_multiple_lines() {
    let text = "\"x\ny\",2\r\nnext\r\n";
    let table = parse(text, Dialect::Csv);
    assert_eq!(table.rows.len(), 2);
    assert!(table.errors.is_empty());
    let cell = &table.rows[0].cells[0];
    assert_eq!(cell.value(text), "x\ny");
    assert_eq!(table.rows[0].span.slice(text), "\"x\ny\",2");
    assert_eq!(table.line_terminator, LineTerminator::CrLf);
}

#[test]
fn unclosed_quote_swallows_the_rest_and_reports_the_opening_quote() {
    let text = "a,\"bc\nd";
    let table = parse(text, Dialect::Csv);

    assert_eq!(table.rows.len(), 1);
    assert_eq!(table.rows[0].cells.len(), 2);
    assert_eq!(table.rows[0].cells[1].value(text), "bc\nd");
    assert!(!table.ends_with_newline);

    assert_eq!(table.errors.len(), 1);
    let error = &table.errors[0];
    assert_eq!(error.kind, ParseErrorKind::UnclosedQuote);
    assert_eq!(error.span.slice(text), "\"");
    assert_eq!(error.span.start, 2);
    assert_eq!(error.row, 0);
}

#[test]
fn stray_quote_stays_literal_and_is_reported() {
    let text = "5\" bolt,x\n";
    let table = parse(text, Dialect::Csv);

    assert_eq!(table.rows[0].cells[0].value(text), "5\" bolt");
    assert_eq!(table.errors.len(), 1);
    let error = &table.errors[0];
    assert_eq!(error.kind, ParseErrorKind::StrayQuote);
    assert_eq!(error.span.start, 1);
    assert_eq!(error.span.slice(text), "\"");
}

#[test]
fn text_after_closing_quote_is_skipped_and_reported() {
    let text = "\"x\" y,z\n";
    let table = parse(text, Dialect::Csv);

    let cell = &table.rows[0].cells[0];
    assert_eq!(cell.value(text), "x");
    assert_eq!(cell.span.slice(text), "\"x\" y");
    assert_eq!(table.rows[0].cells[1].value(text), "z");

    assert_eq!(table.errors.len(), 1);
    let error = &table.errors[0];
    assert_eq!(error.kind, ParseErrorKind::TextAfterClosingQuote);
    assert_eq!(error.span.slice(text), "y");
    assert_eq!(error.row, 0);
}

#[test]
fn blank_rows_are_separators_and_the_header_skips_them() {
    let text = "\na,b\n   \n1,2\n";
    let table = parse(text, Dialect::Csv);

    assert!(table.rows[0].is_blank());
    assert!(table.rows[2].is_blank());
    assert!(!table.rows[1].is_blank());

    assert_eq!(table.header_index(), Some(1));
    assert_eq!(table.header().unwrap().span.slice(text), "a,b");
    assert_eq!(table.expected_columns(), Some(2));
}

#[test]
fn a_file_of_blank_rows_has_no_header() {
    let table = parse("\n\n", Dialect::Csv);
    assert_eq!(table.header_index(), None);
    assert_eq!(table.expected_columns(), None);
}

#[test]
fn cell_at_resolves_cursor_positions() {
    let text = "ab,cd\nef,gh\n";
    let table = parse(text, Dialect::Csv);

    assert_eq!(table.cell_at(1), Some((0, 0)));
    assert_eq!(table.cell_at(4), Some((0, 1)));
    assert_eq!(table.cell_at(2), Some((0, 0)));
    assert_eq!(table.cell_at(5), Some((0, 1)));
    assert_eq!(table.cell_at(6), Some((1, 0)));
    assert_eq!(table.cell_at(12), None);
    assert_eq!(table.row_at(99), None);
}

#[test]
fn cell_at_works_inside_multi_line_quoted_cells() {
    let text = "\"a\nb\",c\n";
    let table = parse(text, Dialect::Csv);
    assert_eq!(table.cell_at(3), Some((0, 0)));
    assert_eq!(table.cell_at(6), Some((0, 1)));
}

const CORPUS: &[&str] = &[
    "",
    "\n",
    "\r",
    "\r\n",
    "\r\r\n",
    ",",
    ",,,",
    "\"",
    "\"\"",
    "\"\"\"",
    "\"\"\"\"",
    "a\"b\"c",
    "\"a\"b\"c\"",
    "\",\n\r",
    "\"\r\r\n",
    "\u{feff}",
    "\u{feff}\"",
    "  \"x\"  garbage  ,y",
    "é😀,\"名\n前\",ü\"",
    "\"😀",
    "a,b,c,d,e,f,g,h,i,j\n1\n",
    "x\0y,\0",
    " , , \n,,\n",
    "\"a\"\"",
    "quote\"in\"the\"middle\n\"and\", \"more\" x\n",
];

fn assert_char_boundaries(text: &str, span: Span) {
    assert!(span.start <= span.end, "inverted span in {text:?}");
    assert!(span.end <= text.len(), "span out of bounds in {text:?}");
    assert!(text.is_char_boundary(span.start), "bad start in {text:?}");
    assert!(text.is_char_boundary(span.end), "bad end in {text:?}");
    let _ = span.slice(text);
}

#[test]
fn the_parser_is_total_over_the_corpus() {
    for text in CORPUS {
        for dialect in Dialect::ALL {
            let table = parse(text, dialect);
            for row in &table.rows {
                assert_char_boundaries(text, row.span);
                assert!(!row.cells.is_empty());
                for cell in &row.cells {
                    assert_char_boundaries(text, cell.span);
                    assert_char_boundaries(text, cell.content_span);
                    assert!(row.span.start <= cell.span.start);
                    assert!(cell.span.end <= row.span.end);
                    assert!(cell.span.start <= cell.content_span.start);
                    assert!(cell.content_span.end <= cell.span.end);
                    let _ = cell.value(text);
                }
            }
            for error in &table.errors {
                assert_char_boundaries(text, error.span);
                assert!(error.row < table.rows.len(), "error row out of range");
            }
        }
    }
}

#[test]
fn parses_unquoted_cells_with_exact_spans() {
    let text = "a,b,cc\n1,,2\n";
    let table = parse(text, Dialect::Csv);

    assert_eq!(
        cell_slices(text, &table),
        [["a", "b", "cc"], ["1", "", "2"]]
    );
    assert_eq!(table.rows[0].span.slice(text), "a,b,cc");
    assert_eq!(table.rows[1].span.slice(text), "1,,2");
    assert!(table.errors.is_empty());
    assert!(table.ends_with_newline);

    let empty = &table.rows[1].cells[1];
    assert!(empty.span.is_empty());
    assert_eq!(empty.span.start, "a,b,cc\n1,".len());
}

#[test]
fn last_row_without_terminator_is_kept() {
    let table = parse("a", Dialect::Csv);
    assert_eq!(table.rows.len(), 1);
    assert!(!table.ends_with_newline);
}

#[test]
fn empty_text_has_no_rows() {
    let table = parse("", Dialect::Csv);
    assert!(table.rows.is_empty());
    assert!(!table.ends_with_newline);
}

#[test]
fn delimiter_follows_the_dialect() {
    let text = "a;b\tc\n";
    let ssv = parse(text, Dialect::Ssv);
    assert_eq!(cell_slices(text, &ssv), [["a", "b\tc"]]);
    let tsv = parse(text, Dialect::Tsv);
    assert_eq!(cell_slices(text, &tsv), [["a;b", "c"]]);
    let psv = parse("a|b;c\n", Dialect::Psv);
    assert_eq!(cell_slices("a|b;c\n", &psv), [["a", "b;c"]]);
}

#[test]
fn rows_tile_the_text_with_one_terminator_between() {
    let text = "a,b\r\n\r\nc\n";
    let table = parse(text, Dialect::Csv);
    assert_eq!(table.rows.len(), 3);
    assert_eq!(&text[table.rows[0].span.end..table.rows[1].span.start], "\r\n");
    assert_eq!(&text[table.rows[1].span.end..table.rows[2].span.start], "\r\n");
    assert_eq!(table.rows[2].span.end, text.len() - 1);
}
