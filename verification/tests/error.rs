use ts_bnf_tool::error::ParseError;

#[test]
fn include_from_stdin_display() {
    assert_eq!(
        ParseError::IncludeFromStdin.to_text(),
        "%include cannot be used when reading from stdin"
    );
}

#[test]
fn include_not_found_display() {
    assert_eq!(
        ParseError::IncludeNotFound("/tmp/foo.bnf".into()).to_text(),
        "included file not found: /tmp/foo.bnf"
    );
}

#[test]
fn include_cycle_display() {
    assert_eq!(
        ParseError::IncludeCycle("/tmp/foo.bnf".into()).to_text(),
        "circular %include detected: /tmp/foo.bnf"
    );
}
