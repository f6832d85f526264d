use ts_bnf_tool::diagnostic::Diagnostic;

#[test]
/// A freshly-constructed diagnostic has no location.
fn diagnostic_starts_with_no_location() {
    let d = Diagnostic::warning("msg");
    assert_eq!(d.file, None);
    assert_eq!(d.line, None);
    assert_eq!(d.column, None);
}

#[test]
/// `with_location` records a non-empty filename and line as `Some`.
fn with_location_records_file_and_line() {
    let d = Diagnostic::error("msg").with_location("g.bnf", 3);
    assert_eq!(d.file.as_deref(), Some("g.bnf"));
    assert_eq!(d.line, Some(3));
    assert_eq!(d.column, None);
}

#[test]
/// An empty filename means "unknown source file" and is recorded as `None`,
/// mirroring how `loc()` falls back to bare "line N" text for the same input.
fn with_location_empty_filename_is_none() {
    let d = Diagnostic::error("msg").with_location("", 3);
    assert_eq!(d.file, None);
    assert_eq!(d.line, Some(3));
}

#[test]
/// `with_column` layers onto `with_location` without disturbing file/line.
fn with_column_layers_onto_with_location() {
    let d = Diagnostic::error("msg")
        .with_location("g.bnf", 3)
        .with_column(7);
    assert_eq!(d.file.as_deref(), Some("g.bnf"));
    assert_eq!(d.line, Some(3));
    assert_eq!(d.column, Some(7));
}
