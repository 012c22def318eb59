use csv_lsp::dialect::Dialect;
use csv_lsp::parse::parse;
use csv_lsp::render::{column_widths, encode_cell, render, QuotePolicy, RenderOptions};

fn widths(text: &str) -> Vec<usize> {
    column_widths(text, &parse(text, Dialect::Csv))
}

#[test]
fn widths_measure_display_cells_not_bytes() {
    assert_eq!(widths("id,name\n1,héllo\n999,名前\n"), [3, 5]);
}

#[test]
fn quoted_cells_measure_with_their_quotes() {
    assert_eq!(widths("id,x\n1,\"a,b\"\n"), [2, 5]);
}

#[test]
fn blank_and_error_rows_contribute_nothing() {
    assert_eq!(widths("a,b\n\n\"broken bar,baz\n"), [1, 1]);
}

#[test]
fn ragged_long_rows_extend_the_column_list() {
    assert_eq!(widths("a,b\n1,22,333\n"), [1, 2, 3]);
}

#[test]
fn empty_documents_have_no_columns() {
    assert_eq!(widths(""), Vec::<usize>::new());
    assert_eq!(widths("\n\n"), Vec::<usize>::new());
}

fn compact(text: &str) -> String {
    let table = parse(text, Dialect::Csv);
    render(text, &table, &RenderOptions::compact_for(&table))
}

#[test]
fn compact_strips_padding_around_all_cell_kinds() {
    assert_eq!(compact(" a , \"q\" ,c \n1,2,3\n"), "a,\"q\",c\n1,2,3\n");
}

#[test]
fn compact_keeps_blank_lines_as_separators() {
    assert_eq!(compact("a,b\n\n1,2\n"), "a,b\n\n1,2\n");
}

#[test]
fn compact_passes_error_rows_through_verbatim() {
    assert_eq!(compact("a,b\n\"x\" z , w\n"), "a,b\n\"x\" z , w\n");
}

#[test]
fn compact_preserves_bom_and_crlf() {
    assert_eq!(compact("\u{feff}a , b\r\n"), "\u{feff}a,b\r\n");
}

#[test]
fn compact_preserves_a_missing_final_newline() {
    assert_eq!(compact("a , b"), "a,b");
    assert_eq!(compact(""), "");
}

#[test]
fn a_cell_value_starting_with_a_bom_is_quoted_to_stay_data() {
    assert_eq!(compact(" \u{feff}x,y\n"), "\"\u{feff}x\",y\n");
    assert_eq!(compact("\u{feff} \u{feff}x,y\n"), "\u{feff}\u{feff}x,y\n");
}

#[test]
fn align_widths_account_for_the_bom_quoting() {
    assert_eq!(align(" \u{feff}a,x\nbb,y\n"), "\"\u{feff}a\",x\nbb ,y\n");
}

#[test]
fn quoted_interiors_are_never_touched() {
    assert_eq!(compact("\" a , b \",c\n"), "\" a , b \",c\n");
}

fn align(text: &str) -> String {
    let table = parse(text, Dialect::Csv);
    let widths = column_widths(text, &table);
    render(text, &table, &RenderOptions::aligned_for(&table, widths))
}

#[test]
fn align_pads_delimiters_into_columns() {
    assert_eq!(
        align("id,name,qty\n1,\"a,b\",3\n20,x,400\n"),
        "id,name ,qty\n1 ,\"a,b\",3\n20,x    ,400\n"
    );
}

#[test]
fn align_pads_by_display_width() {
    assert_eq!(align("a,héllo,x\nbb,名前,y\n"), "a ,héllo,x\nbb,名前 ,y\n");
}

#[test]
fn align_never_pads_a_rows_last_cell() {
    assert_eq!(align("aaa,b,c\n1\n"), "aaa,b,c\n1\n");
}

#[test]
fn align_skips_blank_and_error_rows() {
    assert_eq!(align("aaa,b\n\n1,2\n\"x y,z\n"), "aaa,b\n\n1  ,2\n\"x y,z\n");
}

const WILD: &[&str] = &[
    "",
    "\n",
    "a",
    "a,b\r\n1,2\r\n",
    " a , b \n1,\"q\" ,2\n",
    "\u{feff}x;y\n",
    "id,name,qty\n1,\"a,b\",3\n20,x,400\n",
    "a,héllo\nbb,名前\n",
    "h1,h2\n\n\"multi\nline\",2\n",
    "broken \"row,1\nclean,2\n",
    "\"unclosed,to eof",
    " , ,\n,,\n",
];

#[test]
fn align_is_idempotent() {
    for text in WILD {
        let once = align(text);
        assert_eq!(align(&once), once, "align not idempotent for {text:?}");
    }
}

#[test]
fn compact_undoes_align() {
    for text in WILD {
        assert_eq!(
            compact(&align(text)),
            compact(text),
            "compact(align) != compact for {text:?}"
        );
    }
}

#[test]
fn align_and_compact_round_trip_byte_for_byte() {
    let compact_form = "id,name,qty\n1,\"a,b\",3\n20,x,400\n";
    let aligned_form = "id,name ,qty\n1 ,\"a,b\",3\n20,x    ,400\n";
    assert_eq!(align(compact_form), aligned_form);
    assert_eq!(compact(aligned_form), compact_form);
    for text in WILD {
        assert_eq!(align(&compact(text)), align(text), "align(compact) != align for {text:?}");
    }
}

#[test]
fn compact_is_idempotent() {
    for text in WILD {
        let once = compact(text);
        assert_eq!(compact(&once), once, "compact not idempotent for {text:?}");
    }
}

fn convert(text: &str, from: Dialect, to: Dialect) -> String {
    let table = parse(text, from);
    let mut opts = RenderOptions::compact_for(&table);
    opts.dialect = to;
    opts.quote_policy = QuotePolicy::PreserveOrRequired;
    render(text, &table, &opts)
}

#[test]
fn conversion_keeps_quoted_cells_verbatim() {
    assert_eq!(convert("\"a,b\",x\n", Dialect::Csv, Dialect::Tsv), "\"a,b\"\tx\n");
}

#[test]
fn conversion_quotes_cells_containing_the_target_delimiter() {
    assert_eq!(convert("a\tb,x\n", Dialect::Csv, Dialect::Tsv), "\"a\tb\"\tx\n");
    assert_eq!(
        convert("artikel;preis\nbolzen;1,50\n", Dialect::Ssv, Dialect::Csv),
        "artikel,preis\nbolzen,\"1,50\"\n"
    );
}

#[test]
fn conversion_leaves_plain_cells_byte_identical() {
    assert_eq!(convert("a,b\n1,2\n", Dialect::Csv, Dialect::Ssv), "a;b\n1;2\n");
}

#[test]
fn encode_cell_quotes_only_when_needed() {
    assert_eq!(encode_cell("plain", Dialect::Csv, false), "plain");
    assert_eq!(encode_cell("a,b", Dialect::Csv, false), "\"a,b\"");
    assert_eq!(encode_cell("a,b", Dialect::Tsv, false), "a,b");
    assert_eq!(encode_cell("a\tb", Dialect::Tsv, false), "\"a\tb\"");
    assert_eq!(encode_cell("say \"hi\"", Dialect::Csv, false), "\"say \"\"hi\"\"\"");
    assert_eq!(encode_cell("two\nlines", Dialect::Csv, false), "\"two\nlines\"");
    assert_eq!(encode_cell("forced", Dialect::Csv, true), "\"forced\"");
}

#[test]
fn required_policy_normalizes_quoting() {
    let text = "\"a\",\"b,c\",\"x\"\"y\"\n";
    let table = parse(text, Dialect::Csv);
    let mut opts = RenderOptions::compact_for(&table);
    opts.quote_policy = QuotePolicy::Required;
    assert_eq!(render(text, &table, &opts), "a,\"b,c\",\"x\"\"y\"\n");
}

#[test]
fn mixed_terminators_normalize_to_the_first() {
    assert_eq!(compact("a,b\r\n1,2\n3,4\r\n"), "a,b\r\n1,2\r\n3,4\r\n");
}

fn values(text: &str, dialect: Dialect) -> Vec<(bool, Vec<String>)> {
    let table = parse(text, dialect);
    table
        .rows
        .iter()
        .map(|row| {
            (
                row.is_blank(),
                row.cells.iter().map(|cell| cell.value(text)).collect(),
            )
        })
        .collect()
}

#[test]
fn layouts_keep_values_blankness_and_errors() {
    let text = " a , \"x \"\"q\"\" y\" ,c\n\n1,2\n\"broken,3\n";
    let table = parse(text, Dialect::Csv);
    for rendered in [align(text), compact(text)] {
        let again = parse(&rendered, Dialect::Csv);
        assert_eq!(values(&rendered, Dialect::Csv), values(text, Dialect::Csv));
        let kinds: Vec<_> = again.errors.iter().map(|e| (e.kind, e.row)).collect();
        let before: Vec<_> = table.errors.iter().map(|e| (e.kind, e.row)).collect();
        assert_eq!(kinds, before);
    }
}

#[test]
fn a_blank_unterminated_last_row_becomes_the_final_newline() {
    assert_eq!(compact("a,b\n  "), "a,b\n");
    assert_eq!(compact("a,b\n"), "a,b\n");
    assert_eq!(values("a,b\n", Dialect::Csv).len(), 1);
}

#[test]
fn conversion_reads_back_the_same_values() {
    let text = "name;price\nbolzen;1,50\n\"a;b\";2\n";
    let converted = convert(text, Dialect::Ssv, Dialect::Csv);
    assert_eq!(converted, "name,price\nbolzen,\"1,50\"\n\"a;b\",2\n");
    assert!(parse(&converted, Dialect::Csv).errors.is_empty());
    assert_eq!(values(&converted, Dialect::Csv), values(text, Dialect::Ssv));
}

#[test]
fn a_quoted_first_cell_keeps_its_value() {
    let text = " \u{feff}x,y\n";
    let aligned = align(text);
    assert_eq!(values(&aligned, Dialect::Csv), values(text, Dialect::Csv));
}

#[test]
fn a_quoted_first_cell_round_trips_through_align_and_compact() {
    let text = " \u{FEFF}x,y\nabcdef,z\n";
    let aligned = align(text);
    assert_eq!(aligned, "\"\u{FEFF}x\"   ,y\nabcdef,z\n");
    assert_eq!(align(&aligned), aligned);
    assert_eq!(compact(&aligned), compact(text));
    assert_eq!(align(&compact(text)), aligned);
    let wide = " \u{FEFF}abcdef,y\nx,z\n";
    let aligned = align(wide);
    assert_eq!(aligned, "\"\u{FEFF}abcdef\",y\nx       ,z\n");
    assert_eq!(align(&aligned), aligned);
}

#[test]
fn a_force_quoted_value_reads_back_as_one_clean_cell() {
    for value in ["", "plain", "a,b", "say \"hi\"", "two\nlines", "\u{FEFF}x", "  padded  "] {
        for dialect in [Dialect::Csv, Dialect::Tsv, Dialect::Ssv, Dialect::Psv] {
            let encoded = encode_cell(value, dialect, true);
            let table = parse(&encoded, dialect);
            assert!(table.errors.is_empty(), "{value:?}");
            assert_eq!(table.rows.len(), 1);
            assert_eq!(table.rows[0].cells.len(), 1);
            assert_eq!(table.rows[0].cells[0].value(&encoded), value);
        }
    }
}
