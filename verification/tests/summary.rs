use ts_bnf_tool::summary::{FirstSetStats, GrammarSummary};
use ts_bnf_tool::nodes::GrammarNode::{NonTerminal, TerminalLiteral};
use ts_bnf_tool::test_utils::p;
use ts_bnf_tool::types::Grammar;

fn summary() -> GrammarSummary {
    GrammarSummary {
        rules: 42,
        leaf_rules: 8,
        unreachable_rules: 1,
        unique_literals: 12,
        unique_patterns: 6,
        undefined_refs: 0,
        left_recursive_direct: 0,
        left_recursive_mutual: 0,
        first_sets: Some(FirstSetStats { min: 1, max: 8, avg_tenths: 32 }),
    }
}

#[test]
/// All five rows are present in the output.
fn display_contains_all_rows() {
    let s = summary().to_text();
    assert!(s.contains("Rules"));
    assert!(s.contains("Terminals"));
    assert!(s.contains("Undefined refs"));
    assert!(s.contains("Left-recursive"));
    assert!(s.contains("FIRST sets"));
}

#[test]
/// Counts and detail values appear correctly.
fn display_counts_and_details() {
    let s = summary().to_text();
    assert!(s.contains("42"));
    assert!(s.contains("leaf: 8"));
    assert!(s.contains("unreachable: 1"));
    assert!(s.contains("literals: 12"));
    assert!(s.contains("patterns: 6"));
    assert!(s.contains("min 1"));
    assert!(s.contains("max 8"));
    assert!(s.contains("avg 3.2"));
}

#[test]
/// No trailing newline — the caller controls line endings.
fn display_no_trailing_newline() {
    assert!(!summary().to_text().ends_with('\n'));
}

#[test]
/// When first_sets is None the FIRST sets row shows "n/a".
fn display_first_sets_none_shows_na() {
    let mut s = summary();
    s.first_sets = None;
    assert!(s.to_text().contains("n/a"));
}

#[test]
/// All label column entries are left-aligned to the same width.
fn display_labels_aligned() {
    let output = summary().to_text();
    // The longest label is "Undefined refs" / "Left-recursive" (14 chars).
    // Every line must start with enough chars to reach at least that width.
    let label_w = "Undefined refs".len();
    for line in output.lines() {
        assert!(
            line.len() > label_w,
            "line too short to be aligned: {line:?}"
        );
    }
}

#[test]
fn summarise_counts_a_small_grammar() {
    let g = Grammar::from_rules(vec![
        p("a", NonTerminal("b".into())),
        p("b", TerminalLiteral("'x'".into())),
        p("c", NonTerminal("ghost".into())),
    ]);
    let s = g.summarise();
    assert_eq!(s.rules, 3);
    assert_eq!(s.leaf_rules, 1);
    assert_eq!(s.unreachable_rules, 1);
    assert_eq!(s.unique_literals, 1);
    assert_eq!(s.undefined_refs, 1);
    assert_eq!(s.first_sets.map(|f| (f.min, f.max)), Some((0, 1)));
}
