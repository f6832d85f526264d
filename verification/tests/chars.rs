use ts_bnf_tool::chars::is_whitespace;

/// The library's white-space test agrees with `char::is_whitespace` on
/// every character.
#[test]
fn is_whitespace_matches_std_everywhere() {
    for c in (0u32..=0x10FFFF).filter_map(char::from_u32) {
        assert_eq!(is_whitespace(c), c.is_whitespace(), "U+{:04X}", c as u32);
    }
}
