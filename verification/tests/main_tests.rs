use std::path::PathBuf;

use ts_bnf_tool::cli::{grammar_name, is_valid_js_identifier, resolve_output_dir, source_label};

#[test]
fn source_label_dash_is_stdin() {
    assert_eq!(source_label("-"), "<stdin>");
}

#[test]
fn source_label_filename_passthrough() {
    assert_eq!(source_label("grammar.bnf"), "grammar.bnf");
}

#[test]
fn grammar_name_stdin_defaults_to_grammar() {
    assert_eq!(grammar_name("-", None), "grammar");
}

#[test]
fn grammar_name_stdin_respects_override() {
    assert_eq!(grammar_name("-", Some("mygrammar")), "mygrammar");
}

#[test]
fn js_identifier_validation() {
    for ok in ["grammar", "_grammar", "grammar2"] {
        assert!(is_valid_js_identifier(ok), "expected valid: {ok}");
    }
    for bad in ["my-grammar", "1grammar", "", "my.grammar"] {
        assert!(!is_valid_js_identifier(bad), "expected invalid: {bad}");
    }
}

#[test]
fn resolve_output_dir_uses_explicit_path() {
    assert_eq!(
        PathBuf::from(resolve_output_dir(Some("/my/dir"), "grammar")),
        PathBuf::from("/my/dir")
    );
}

#[test]
fn resolve_output_dir_defaults_to_grammar_name() {
    assert_eq!(
        PathBuf::from(resolve_output_dir(None, "mygrammar")),
        PathBuf::from("mygrammar")
    );
}

#[test]
fn grammar_name_uses_file_stem() {
    assert_eq!(grammar_name("dir/json.bnf", None), "json");
}

#[test]
fn grammar_name_override_wins_over_file_stem() {
    assert_eq!(grammar_name("dir/json.bnf", Some("other")), "other");
}

/// A plain file name gives its stem: up to the last `.`, or the whole
/// name when it has no `.` or only a leading one.
#[test]
fn grammar_name_file_stem() {
    assert_eq!(grammar_name("foo.bnf", None), "foo");
    assert_eq!(grammar_name("x.tar.bnf", None), "x.tar");
    assert_eq!(grammar_name("plain", None), "plain");
    assert_eq!(grammar_name(".hidden", None), ".hidden");
    assert_eq!(grammar_name("foo.", None), "foo");
    assert_eq!(grammar_name("dir/foo.bnf", None), "foo");
    assert_eq!(grammar_name("foo.bnf", Some("bar")), "bar");
}
