use csv_lsp::dialect::Dialect;

#[test]
fn names_read_like_users_expect() {
    assert_eq!(Dialect::Csv.name(), "CSV");
    assert_eq!(Dialect::Tsv.name(), "TSV");
    assert_eq!(Dialect::Ssv.name(), "SSV");
    assert_eq!(Dialect::Psv.name(), "PSV");
}

#[test]
fn delimiters_per_dialect() {
    assert_eq!(Dialect::Csv.delimiter(), b',');
    assert_eq!(Dialect::Tsv.delimiter(), b'\t');
    assert_eq!(Dialect::Ssv.delimiter(), b';');
    assert_eq!(Dialect::Psv.delimiter(), b'|');
}

#[test]
fn all_lists_every_dialect_once() {
    for dialect in [Dialect::Csv, Dialect::Tsv, Dialect::Ssv, Dialect::Psv] {
        assert_eq!(Dialect::ALL.iter().filter(|&&d| d == dialect).count(), 1);
    }
}

#[test]
fn language_ids_map_case_insensitively() {
    assert_eq!(Dialect::from_language_id("csv"), Some(Dialect::Csv));
    assert_eq!(Dialect::from_language_id("TSV"), Some(Dialect::Tsv));
    assert_eq!(Dialect::from_language_id("ssv"), Some(Dialect::Ssv));
    assert_eq!(Dialect::from_language_id("psv"), Some(Dialect::Psv));
    assert_eq!(Dialect::from_language_id("plaintext"), None);
}

#[test]
fn extensions_map_from_paths_and_uris() {
    assert_eq!(Dialect::from_path("data.csv"), Some(Dialect::Csv));
    assert_eq!(Dialect::from_path("/a/b/x.TSV"), Some(Dialect::Tsv));
    assert_eq!(Dialect::from_path("file:///w/x.tab"), Some(Dialect::Tsv));
    assert_eq!(Dialect::from_path("x.ssv"), Some(Dialect::Ssv));
    assert_eq!(Dialect::from_path("dump.psv"), Some(Dialect::Psv));
    assert_eq!(Dialect::from_path("notes.txt"), None);
    assert_eq!(Dialect::from_path("no_extension"), None);
    assert_eq!(Dialect::from_path("/dotted.dir/no_extension"), None);
}

#[test]
fn sniff_picks_the_most_frequent_delimiter() {
    assert_eq!(Dialect::sniff("a,b,c\n"), Some(Dialect::Csv));
    assert_eq!(Dialect::sniff("a\tb\tc\n"), Some(Dialect::Tsv));
    assert_eq!(Dialect::sniff("a;b;c\n"), Some(Dialect::Ssv));
    assert_eq!(Dialect::sniff("a|b|c\n"), Some(Dialect::Psv));
}

#[test]
fn sniff_skips_leading_blank_lines() {
    assert_eq!(Dialect::sniff("\n  \na;b\n"), Some(Dialect::Ssv));
}

#[test]
fn sniff_ignores_delimiters_inside_quotes() {
    assert_eq!(Dialect::sniff("\"a,b\";c\n"), Some(Dialect::Ssv));
    assert_eq!(Dialect::sniff("\"a;b\"|c\n"), Some(Dialect::Psv));
}

#[test]
fn sniff_returns_none_without_delimiters() {
    assert_eq!(Dialect::sniff(""), None);
    assert_eq!(Dialect::sniff("   \n\n"), None);
    assert_eq!(Dialect::sniff("plain text\n"), None);
}

#[test]
fn sniff_breaks_ties_towards_csv() {
    assert_eq!(Dialect::sniff("a,b;c\n"), Some(Dialect::Csv));
    assert_eq!(Dialect::sniff("a,b|c\n"), Some(Dialect::Csv));
    assert_eq!(Dialect::sniff("a;b|c\n"), Some(Dialect::Ssv));
}

#[test]
fn dialect_detection_is_total_on_odd_inputs() {
    for text in ["", "\u{feff}", "\"", "é😀,名", "\0\r\n", "a.", "."] {
        let _ = Dialect::sniff(text);
        let _ = Dialect::from_path(text);
        let _ = Dialect::from_language_id(text);
    }
}
