use ts_bnf_tool::visitor::to_snake_case;

/// A single lowercase word is unchanged.
#[test]
fn to_snake_case_single_word() {
    assert_eq!(to_snake_case("rule"), "rule");
}

/// camelCase splits at the lowercase-to-uppercase boundary.
#[test]
fn to_snake_case_camel_case() {
    assert_eq!(to_snake_case("nonTerminal"), "non_terminal");
    assert_eq!(to_snake_case("aliasName"), "alias_name");
}

/// Already-snake_case names pass through unchanged.
#[test]
fn to_snake_case_already_snake_case() {
    assert_eq!(to_snake_case("already_snake"), "already_snake");
}

/// A leading underscore (hidden-rule naming) is preserved as-is.
#[test]
fn to_snake_case_leading_underscore_preserved() {
    assert_eq!(to_snake_case("_hidden"), "_hidden");
}

/// A `.` separator becomes a `_`, as in this grammar's own `prec.dynamic` kind.
#[test]
fn to_snake_case_dot_separated() {
    assert_eq!(to_snake_case("prec.dynamic"), "prec_dynamic");
    assert_eq!(to_snake_case("prec.left"), "prec_left");
}

/// A run of uppercase letters followed by a lowercase one splits before the
/// last uppercase letter, treating the run as an acronym.
#[test]
fn to_snake_case_acronym_run() {
    assert_eq!(to_snake_case("HTMLParser"), "html_parser");
}

/// A digit boundary also starts a new word, same as a lowercase-to-uppercase one.
#[test]
fn to_snake_case_digit_boundary() {
    assert_eq!(to_snake_case("rule2Name"), "rule2_name");
}

/// Converting a converted name again changes nothing.
#[test]
fn to_snake_case_twice_is_once() {
    for name in ["HTMLParser", "prec.dynamic", "fooBar", "Foo.Bar", "x2Y", "already_snake", "ABC"] {
        let once = to_snake_case(name);
        assert_eq!(to_snake_case(&once), once, "input {name}");
    }
}

/// A capital letter with no lower-case form stays a capital, so a second
/// conversion can split the word again: converting twice is not always
/// converting once.
#[test]
fn to_snake_case_capital_without_lower_case_form() {
    let once = to_snake_case("B\u{1D400}");
    assert_eq!(once, "b\u{1D400}");
    assert_eq!(to_snake_case(&once), "b_\u{1D400}");
}
