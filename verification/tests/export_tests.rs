use comtrade_io::export::csv_escape;

#[test]
fn plain_csv_fields_are_kept() {
    assert_eq!(csv_escape("Ia"), "Ia");
    assert_eq!(csv_escape(""), "");
}

#[test]
fn csv_fields_with_separators_are_quoted() {
    assert_eq!(csv_escape("a,b"), "\"a,b\"");
    assert_eq!(csv_escape("say \"hi\""), "\"say \"\"hi\"\"\"");
    assert_eq!(csv_escape("two\nlines"), "\"two\nlines\"");
}
