use csv_lsp::dialect::Dialect;
use csv_lsp::document::{Document, Store};
use csv_lsp::position::PositionEncoding;

#[test]
fn language_id_outranks_extension() {
    let doc = Document::new("file:///d/x.csv".to_owned(), "tsv", 1, "a\tb\n".into());
    assert_eq!(doc.dialect, Dialect::Tsv);
}

#[test]
fn extension_outranks_sniffing() {
    let doc = Document::new("file:///d/x.ssv".to_owned(), "plaintext", 1, "a,b\n".into());
    assert_eq!(doc.dialect, Dialect::Ssv);
}

#[test]
fn sniffing_is_the_content_fallback() {
    let doc = Document::new("file:///d/x.txt".to_owned(), "plaintext", 1, "a;b\n".into());
    assert_eq!(doc.dialect, Dialect::Ssv);
}

#[test]
fn csv_is_the_final_default() {
    let doc = Document::new("file:///d/data".to_owned(), "plaintext", 1, "plain\n".into());
    assert_eq!(doc.dialect, Dialect::Csv);
}

#[test]
fn store_tracks_the_document_lifecycle() {
    let mut store = Store::default();
    let u = "file:///d/x.csv";
    store.open(u.to_owned(), "csv", 1, "a,b\n".into());
    assert_eq!(store.get(u).unwrap().version, 1);

    let doc = store.change(u, 2, "a,b,c\n".into()).unwrap();
    assert_eq!(doc.version, 2);
    assert_eq!(doc.text, "a,b,c\n");

    store.close(u);
    assert!(store.get(u).is_none());
}

#[test]
fn change_rebuilds_the_line_index() {
    let mut store = Store::default();
    let u = "file:///d/x.csv";
    store.open(u.to_owned(), "csv", 1, "ab\n".into());
    let doc = store.change(u, 2, "a\nb\n".into()).unwrap();
    let pos = doc.line_index.position(&doc.text, 2, PositionEncoding::Utf8);
    assert_eq!(pos.line, 1);
}

#[test]
fn change_on_unknown_document_is_tolerated() {
    let mut store = Store::default();
    assert!(store.change("file:///nope.csv", 2, String::new()).is_none());
}

#[test]
fn changes_keep_the_dialect_and_reparse() {
    let mut store = Store::new();
    let u = "file:///d/x.ssv";
    store.open(u.to_owned(), "plaintext", 1, "a;b\n".into());
    let doc = store.change(u, 2, "a,b;c\n".into()).unwrap();
    assert_eq!(doc.dialect, Dialect::Ssv);
    assert_eq!(doc.table.rows[0].cells.len(), 2);
}

#[test]
fn a_change_can_carry_a_new_dialect() {
    let mut store = Store::new();
    let u = "file:///d/x.csv";
    store.open(u.to_owned(), "csv", 1, "a,b\n".into());
    let doc = store.change_as(u, 2, "a\tb\n".into(), Some(Dialect::Tsv)).unwrap();
    assert_eq!(doc.dialect, Dialect::Tsv);
    assert_eq!(doc.table.rows[0].cells.len(), 2);
}

#[test]
fn set_dialect_reparses_in_place() {
    let mut store = Store::new();
    let u = "file:///d/x.csv";
    store.open(u.to_owned(), "csv", 3, "a;b\n".into());
    let doc = store.set_dialect(u, Dialect::Ssv).unwrap();
    assert_eq!(doc.version, 3);
    assert_eq!(doc.text, "a;b\n");
    assert_eq!(doc.table.rows[0].cells.len(), 2);
    assert!(store.set_dialect("file:///other.csv", Dialect::Tsv).is_none());
}

#[test]
fn reopening_replaces_the_document_and_leaves_others_alone() {
    let mut store = Store::new();
    store.open("file:///a.csv".to_owned(), "csv", 1, "a\n".into());
    store.open("file:///b.csv".to_owned(), "csv", 1, "b\n".into());
    store.open("file:///a.csv".to_owned(), "csv", 5, "aa\n".into());
    assert_eq!(store.get("file:///a.csv").unwrap().version, 5);
    assert_eq!(store.get("file:///a.csv").unwrap().text, "aa\n");
    assert_eq!(store.get("file:///b.csv").unwrap().text, "b\n");
    store.close("file:///a.csv");
    assert!(store.get("file:///a.csv").is_none());
    assert_eq!(store.get("file:///b.csv").unwrap().version, 1);
}

#[test]
fn update_keeps_uri_and_dialect() {
    let mut doc = Document::new("file:///d/x.tsv".to_owned(), "plaintext", 1, "a\tb\n".into());
    doc.update(7, "c\td\te\n".into());
    assert_eq!(doc.version, 7);
    assert_eq!(doc.uri, "file:///d/x.tsv");
    assert_eq!(doc.dialect, Dialect::Tsv);
    assert_eq!(doc.table.rows[0].cells.len(), 3);
}
