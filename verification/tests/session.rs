use csv_lsp::dialect::Dialect;
use csv_lsp::document::{Document, Store};
use csv_lsp::features::Registry;
use csv_lsp::parse::Span;
use csv_lsp::position::PositionEncoding;
use csv_lsp::session::{
    apply_full_change, column_highlights, converted, encoding_kind, negotiate_position_encoding, parse_set_dialect,
    plan_code_actions, CommandError, PendingTransforms, SET_DIALECT_COMMAND,
};

fn offered(kinds: &[&str]) -> Vec<String> {
    kinds.iter().map(|kind| kind.to_string()).collect()
}

#[test]
fn utf8_is_preferred_when_offered() {
    assert_eq!(
        negotiate_position_encoding(&offered(&["utf-16", "utf-8"])),
        PositionEncoding::Utf8
    );
}

#[test]
fn utf32_beats_utf16() {
    assert_eq!(
        negotiate_position_encoding(&offered(&["utf-32", "utf-16"])),
        PositionEncoding::Utf32
    );
}

#[test]
fn utf16_is_the_mandatory_default() {
    assert_eq!(negotiate_position_encoding(&offered(&[])), PositionEncoding::Utf16);
    assert_eq!(negotiate_position_encoding(&offered(&["utf-7"])), PositionEncoding::Utf16);
}

#[test]
fn encodings_have_their_wire_names() {
    assert_eq!(encoding_kind(PositionEncoding::Utf8), "utf-8");
    assert_eq!(encoding_kind(PositionEncoding::Utf16), "utf-16");
    assert_eq!(encoding_kind(PositionEncoding::Utf32), "utf-32");
}

#[test]
fn the_set_dialect_command_is_validated_in_order() {
    let args = |a: Option<&str>, b: Option<&str>| vec![a.map(str::to_owned), b.map(str::to_owned)];
    assert_eq!(
        parse_set_dialect("csv-lsp.frobnicate", &vec![]),
        Err(CommandError::UnknownCommand)
    );
    assert_eq!(
        parse_set_dialect(SET_DIALECT_COMMAND, &vec![None]),
        Err(CommandError::WrongArity { got: 1 })
    );
    assert_eq!(
        parse_set_dialect(SET_DIALECT_COMMAND, &args(None, Some("ssv"))),
        Err(CommandError::InvalidUri)
    );
    assert_eq!(
        parse_set_dialect(SET_DIALECT_COMMAND, &args(Some("file:///t/x.csv"), Some("xls"))),
        Err(CommandError::InvalidDialect)
    );
    assert_eq!(
        parse_set_dialect(SET_DIALECT_COMMAND, &args(Some("file:///t/x.csv"), Some("SSV"))),
        Ok(("file:///t/x.csv".to_owned(), Dialect::Ssv))
    );
}

#[test]
fn unparsable_uris_are_refused() {
    let args = vec![Some("http://[".to_owned()), Some("csv".to_owned())];
    assert_eq!(parse_set_dialect(SET_DIALECT_COMMAND, &args), Err(CommandError::InvalidUri));
}

#[test]
fn an_applied_conversion_flips_the_dialect_once() {
    let doc = Document::new("file:///t/x.csv".to_owned(), "csv", 1, "a,b\n1,2\n".to_owned());
    let registry = Registry::standard();
    let (actions, offers) = plan_code_actions(&registry, &doc, 0, 0, None);
    assert!(actions.iter().any(|action| action.title == "Convert to TSV"));
    assert_eq!(offers.len(), 3);
    assert_eq!(offers[0], ("a\tb\n1\t2\n".to_owned(), Dialect::Tsv));

    let mut pending = PendingTransforms::new();
    pending.record(doc.uri.clone(), offers);
    assert_eq!(pending.take_override("file:///t/x.csv", "a;b\n1;2\n"), Some(Dialect::Ssv));
    // Taken: a second identical change is just an edit.
    assert_eq!(pending.take_override("file:///t/x.csv", "a;b\n1;2\n"), None);
}

#[test]
fn manual_changes_and_closes_drop_pending_conversions() {
    let mut pending = PendingTransforms::new();
    pending.record("file:///a".to_owned(), vec![("x".to_owned(), Dialect::Tsv)]);
    pending.record("file:///b".to_owned(), vec![("y".to_owned(), Dialect::Psv)]);
    assert_eq!(pending.take_override("file:///a", "typed"), None);
    assert_eq!(pending.take_override("file:///a", "x"), None);
    pending.forget("file:///b");
    assert_eq!(pending.take_override("file:///b", "y"), None);
}

#[test]
fn reversed_ranges_are_normalized() {
    let doc = Document::new("file:///t/x.csv".to_owned(), "csv", 1, "a,b,c\n1,2\n".to_owned());
    let registry = Registry::standard();
    let (forward, _) = plan_code_actions(&registry, &doc, 6, 9, Some(vec!["quickfix".to_owned()]));
    let (backward, _) = plan_code_actions(&registry, &doc, 9, 6, Some(vec!["quickfix".to_owned()]));
    assert_eq!(forward, backward);
    assert_eq!(forward.len(), 1);
}

#[test]
fn converted_text_is_what_the_conversion_edits_produce() {
    let doc = Document::new("file:///t/x.ssv".to_owned(), "ssv", 1, "a;b\nc;1,5\n".to_owned());
    assert_eq!(converted(&doc, Dialect::Csv), "a,b\nc,\"1,5\"\n");
}

#[test]
fn highlights_cover_the_column_under_the_cursor() {
    let text = "id,name\n1,x\n2,y\n";
    let doc = Document::new("file:///t/x.csv".to_owned(), "csv", 1, text.to_owned());
    let spans = column_highlights(&doc, 9).unwrap();
    let slices: Vec<_> = spans.iter().map(|span: &Span| span.slice(text)).collect();
    assert_eq!(slices, ["id", "1", "2"]);
    assert_eq!(column_highlights(&doc, 99), None);
}

#[test]
fn a_full_change_adopts_the_conversion_it_applies() {
    let uri = "file:///t/x.csv";
    let mut store = Store::new();
    let doc = store.open(uri.to_owned(), "csv", 1, "a,b\n1,2\n".to_owned());
    let (_, offers) = plan_code_actions(&Registry::standard(), doc, 0, 0, None);
    let mut pending = PendingTransforms::new();
    pending.record(uri.to_owned(), offers);

    let changed = apply_full_change(&mut store, &mut pending, uri, 2, "a;b\n1;2\n".to_owned())
        .expect("open document");
    assert_eq!(changed.dialect, Dialect::Ssv);
    assert_eq!(changed.version, 2);
    assert_eq!(changed.text, "a;b\n1;2\n");
    assert_eq!(pending.take_override(uri, "a\tb\n1\t2\n"), None);

    let edited = apply_full_change(&mut store, &mut pending, uri, 3, "a;b\n1;3\n".to_owned())
        .expect("open document");
    assert_eq!(edited.dialect, Dialect::Ssv);
    assert!(apply_full_change(&mut store, &mut pending, "file:///t/other.csv", 1, String::new()).is_none());
}
