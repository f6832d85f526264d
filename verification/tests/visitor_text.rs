use ts_bnf_tool::visitor::{indent, prefix_lines};

/// Non-empty lines get the padding; blank lines are left alone.
#[test]
fn indent_pads_non_empty_lines_only() {
    assert_eq!(indent("a\n\nb", 4), "    a\n\n    b");
}

/// Zero spaces is a no-op.
#[test]
fn indent_zero_spaces_is_a_no_op() {
    assert_eq!(indent("a\nb", 0), "a\nb");
}

/// A non-empty line gets the marker plus one separating space.
#[test]
fn prefix_lines_adds_one_space_after_the_marker() {
    assert_eq!(prefix_lines("a\nb", "///"), "/// a\n/// b");
}

/// A blank line gets the bare marker, with no trailing space.
#[test]
fn prefix_lines_blank_line_gets_bare_marker_no_trailing_space() {
    let out = prefix_lines("a\n\nb", "///");
    assert_eq!(out, "/// a\n///\n/// b");
    assert!(!out.lines().any(|l| l.ends_with(' ')));
}
