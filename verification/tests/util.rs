use ts_bnf_tool::util::{normalize_stripped, to_camelcase};

#[test]
fn camelcase_single_word() {
    assert_eq!(to_camelcase("json"), "Json");
}

#[test]
fn camelcase_snake_case() {
    assert_eq!(to_camelcase("my_lang"), "MyLang");
}

#[test]
fn camelcase_multiple_parts() {
    assert_eq!(to_camelcase("tree_sitter_cpp"), "TreeSitterCpp");
}

#[test]
fn camelcase_already_capitalized() {
    assert_eq!(to_camelcase("Json"), "Json");
}

#[test]
fn camelcase_empty_string() {
    assert_eq!(to_camelcase(""), "");
}

/// Trailing Unicode white space (ideographic space, no-break space, next
/// line) is stripped like ASCII white space; other characters stay.
#[test]
fn normalize_stripped_strips_unicode_whitespace() {
    assert_eq!(
        normalize_stripped("a\u{3000}\u{a0}\u{85}\nb\u{200b}\n"),
        "a\nb\u{200b}\n"
    );
}
