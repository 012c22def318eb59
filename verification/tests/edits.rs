use csv_lsp::edits::{apply, minimize};
use csv_lsp::parse::Span;

fn splits_crlf(bytes: &[u8], offset: usize) -> bool {
    offset > 0 && bytes[offset - 1] == b'\r' && bytes.get(offset) == Some(&b'\n')
}

#[test]
fn identical_texts_need_no_edit() {
    assert_eq!(minimize("a,b\n", "a,b\n"), Vec::new());
}

#[test]
fn apply_splices_multiple_edits_in_document_order() {
    let edits = vec![
        (Span::new(0, 1), "X".to_owned()),
        (Span::new(2, 2), "!".to_owned()), // pure insertion
        (Span::new(3, 4), String::new()),  // deletion
    ];
    assert_eq!(apply("a,b,c", &edits), "X,!bc");
}

#[test]
fn apply_with_no_edits_is_identity() {
    assert_eq!(apply("a,b\n", &[]), "a,b\n");
}

#[test]
fn apply_round_trips_minimize() {
    for (old, new) in [
        ("a,bb,c\n", "a,b,c\n"),
        ("", "x"),
        ("aé,b\n", "aè,b\n"),
        ("same", "same"),
    ] {
        assert_eq!(apply(old, &minimize(old, new)), new);
    }
}

#[test]
fn a_middle_change_yields_one_small_replacement() {
    let old = "a,bb,c\n";
    let new = "a,b,c\n";
    let edits = minimize(old, new);
    assert_eq!(edits.len(), 1);
    let (span, replacement) = &edits[0];
    assert!(span.start >= 2 && span.end <= 4, "span too wide: {span:?}");
    assert!(replacement.len() <= 1);
    assert_eq!(apply(old, &edits), new);
}

#[test]
fn multibyte_boundaries_are_respected() {
    let old = "aé,b\n";
    let new = "aè,b\n";
    let edits = minimize(old, new);
    assert_eq!(apply(old, &edits), new);
    let (span, _) = &edits[0];
    assert!(old.is_char_boundary(span.start));
    assert!(old.is_char_boundary(span.end));
}

#[test]
fn suffix_never_overlaps_the_prefix() {
    let edits = minimize("aa", "a");
    assert_eq!(apply("aa", &edits), "a");

    let edits = minimize("a", "aa");
    assert_eq!(apply("a", &edits), "aa");
}

#[test]
fn edit_boundaries_never_split_a_crlf_break() {
    for (old, new) in [
        ("\r\n", "\r,"),
        ("\r\n", "\n"),
        ("\r\r\n", "\n\n"),
        ("a\r\nb", "a\rb"),
    ] {
        let edits = minimize(old, new);
        assert_eq!(apply(old, &edits), new, "{old:?} -> {new:?}");
        let bytes = old.as_bytes();
        for (span, _) in &edits {
            for offset in [span.start, span.end] {
                assert!(
                    !splits_crlf(bytes, offset),
                    "{old:?} -> {new:?} splits a CRLF at {offset}"
                );
            }
        }
    }
}

#[test]
fn pure_insertions_and_deletions_work_at_the_ends() {
    let edits = minimize("ab", "abc");
    assert_eq!(edits[0].0, Span::new(2, 2));
    assert_eq!(edits[0].1, "c");

    let edits = minimize("abc", "bc");
    assert_eq!(apply("abc", &edits), "bc");

    let edits = minimize("", "x");
    assert_eq!(apply("", &edits), "x");
}

#[test]
fn minimize_replaces_exactly_the_changed_middle() {
    let edits = minimize("id,name\n1,x\n", "id,name\n1 ,x\n");
    assert_eq!(edits, vec![(Span::new(9, 9), " ".to_owned())]);
}
