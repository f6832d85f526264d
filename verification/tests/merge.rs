use ts_bnf_tool::merge::{check_merge_config, uncovered_kinds, MergeConfig, MergeEntry, PassthroughEntry};
use ts_bnf_tool::nodes::GrammarNode::TerminalLiteral;
use ts_bnf_tool::test_utils::p;
use ts_bnf_tool::types::Grammar;

/// A grammar with a handful of visible kinds to validate merge configs
/// against: two loop-like statements, one that stays alone, and a
/// comment kind.
fn grammar() -> Grammar {
    Grammar::from_rules(vec![
        p("for_statement", TerminalLiteral("'f'".into())),
        p("while_statement", TerminalLiteral("'w'".into())),
        p("repeat_statement", TerminalLiteral("'r'".into())),
        p("comment", TerminalLiteral("'c'".into())),
    ])
}

/// Target names that are no Rust identifiers: a keyword, a name with an
/// invalid character, and the empty string.
const INVALID_TARGET_NAMES: [&str; 3] = ["loop", "my-loop", ""];

/// A config naming only real kinds, with no overlap between sections,
/// passes.
#[test]
fn check_merge_config_ok_for_valid_config() {
    let config = MergeConfig {
        merge: vec![MergeEntry {
            target: "Loop".to_string(),
            from: vec!["for_statement".to_string(), "while_statement".to_string()],
        }],
        passthrough: vec![PassthroughEntry {
            kind: "comment".to_string(),
            target: "Comment".to_string(),
        }],
        ignore: vec!["repeat_statement".to_string()],
    };
    assert!(check_merge_config(&grammar(), &config).is_ok());
}

/// A `merge` entry whose `target` isn't a valid Rust identifier is
/// rejected, naming that target, for each of #361's three cases.
#[test]
fn check_merge_config_rejects_invalid_merge_target() {
    for target in INVALID_TARGET_NAMES {
        let config = MergeConfig {
            merge: vec![MergeEntry {
                target: target.to_string(),
                from: vec!["for_statement".to_string()],
            }],
            passthrough: vec![],
            ignore: vec![],
        };
        let err = check_merge_config(&grammar(), &config).unwrap_err();
        assert!(
            err.contains(&format!("'{target}'")),
            "target '{target}' must be rejected with an error naming it; got: {err}"
        );
    }
}

/// A `passthrough` entry whose `target` isn't a valid Rust identifier is
/// rejected, naming that target, for each of #361's three cases.
#[test]
fn check_merge_config_rejects_invalid_passthrough_target() {
    for target in INVALID_TARGET_NAMES {
        let config = MergeConfig {
            merge: vec![],
            passthrough: vec![PassthroughEntry {
                kind: "comment".to_string(),
                target: target.to_string(),
            }],
            ignore: vec![],
        };
        let err = check_merge_config(&grammar(), &config).unwrap_err();
        assert!(
            err.contains(&format!("'{target}'")),
            "target '{target}' must be rejected with an error naming it; got: {err}"
        );
    }
}

/// An unknown kind in a `merge` entry's `from` list is rejected, naming it.
#[test]
fn check_merge_config_detects_unknown_kind_in_merge_from() {
    let config = MergeConfig {
        merge: vec![MergeEntry {
            target: "Loop".to_string(),
            from: vec!["bogus_statement".to_string()],
        }],
        passthrough: vec![],
        ignore: vec![],
    };
    let err = check_merge_config(&grammar(), &config).unwrap_err();
    assert!(
        err.contains("'bogus_statement'"),
        "error must name 'bogus_statement'; got: {err}"
    );
}

/// An unknown kind in a `passthrough` entry is rejected, naming it.
#[test]
fn check_merge_config_detects_unknown_kind_in_passthrough() {
    let config = MergeConfig {
        merge: vec![],
        passthrough: vec![PassthroughEntry {
            kind: "bogus_kind".to_string(),
            target: "Bogus".to_string(),
        }],
        ignore: vec![],
    };
    let err = check_merge_config(&grammar(), &config).unwrap_err();
    assert!(
        err.contains("'bogus_kind'"),
        "error must name 'bogus_kind'; got: {err}"
    );
}

/// An unknown kind in `ignore` is rejected, naming it.
#[test]
fn check_merge_config_detects_unknown_kind_in_ignore() {
    let config = MergeConfig {
        merge: vec![],
        passthrough: vec![],
        ignore: vec!["bogus_kind".to_string()],
    };
    let err = check_merge_config(&grammar(), &config).unwrap_err();
    assert!(
        err.contains("'bogus_kind'"),
        "error must name 'bogus_kind'; got: {err}"
    );
}

/// `ignore = ["*"]` alone is the documented catch-all and passes.
#[test]
fn check_merge_config_ignore_wildcard_alone_is_ok() {
    let config = MergeConfig {
        merge: vec![],
        passthrough: vec![],
        ignore: vec!["*".to_string()],
    };
    assert!(check_merge_config(&grammar(), &config).is_ok());
}

/// Mixing the `"*"` wildcard with a named `ignore` entry is rejected.
#[test]
fn check_merge_config_ignore_wildcard_mixed_with_named_entry_is_rejected() {
    let config = MergeConfig {
        merge: vec![],
        passthrough: vec![],
        ignore: vec!["comment".to_string(), "*".to_string()],
    };
    let err = check_merge_config(&grammar(), &config).unwrap_err();
    assert!(
        err.contains('*'),
        "error must mention the wildcard; got: {err}"
    );
}

/// A kind claimed by two different entries — here, both a `merge` and a
/// `passthrough` entry — is rejected, naming the kind and both places
/// that claim it.
#[test]
fn check_merge_config_detects_kind_claimed_by_two_entries() {
    let config = MergeConfig {
        merge: vec![MergeEntry {
            target: "Loop".to_string(),
            from: vec!["for_statement".to_string()],
        }],
        passthrough: vec![PassthroughEntry {
            kind: "for_statement".to_string(),
            target: "ForStatement".to_string(),
        }],
        ignore: vec![],
    };
    let err = check_merge_config(&grammar(), &config).unwrap_err();
    assert!(
        err.contains("'for_statement'"),
        "error must name 'for_statement'; got: {err}"
    );
    assert!(
        err.contains("merge target 'Loop'"),
        "error must name the merge entry; got: {err}"
    );
    assert!(
        err.contains("passthrough entry 'for_statement'"),
        "error must name the passthrough entry; got: {err}"
    );
}

/// A kind repeated within one `merge` entry's own `from` list gets a
/// distinct, non-self-referential error naming the entry and the
/// repeated kind, not the generic cross-entry collision message (#361).
#[test]
fn check_merge_config_detects_same_entry_duplicate_kind() {
    let config = MergeConfig {
        merge: vec![MergeEntry {
            target: "Loop".to_string(),
            from: vec!["for_statement".to_string(), "for_statement".to_string()],
        }],
        passthrough: vec![],
        ignore: vec![],
    };
    let err = check_merge_config(&grammar(), &config).unwrap_err();
    assert!(
        err.contains("'for_statement'"),
        "error must name 'for_statement'; got: {err}"
    );
    assert!(
        err.contains("listed twice"),
        "error must describe the same-entry duplicate distinctly, not as a cross-entry \
         collision; got: {err}"
    );
    assert!(
        err.contains("merge target 'Loop'"),
        "error must name the merge entry; got: {err}"
    );
}

/// A kind named by neither `merge`, `passthrough`, nor `ignore` is
/// reported, and only that kind.
#[test]
fn uncovered_kinds_reports_kind_missing_from_config() {
    let config = MergeConfig {
        merge: vec![MergeEntry {
            target: "Loop".to_string(),
            from: vec!["for_statement".to_string(), "while_statement".to_string()],
        }],
        passthrough: vec![PassthroughEntry {
            kind: "comment".to_string(),
            target: "Comment".to_string(),
        }],
        ignore: vec![],
    };
    assert_eq!(
        uncovered_kinds(&grammar(), &config),
        vec!["repeat_statement".to_string()]
    );
}

/// `ignore = ["*"]` silences the report entirely, even against an
/// otherwise completely untriaged grammar.
#[test]
fn uncovered_kinds_ignore_wildcard_silences_everything() {
    let config = MergeConfig {
        merge: vec![],
        passthrough: vec![],
        ignore: vec!["*".to_string()],
    };
    assert!(uncovered_kinds(&grammar(), &config).is_empty());
}

/// A config that explicitly names every visible kind across
/// merge/passthrough/ignore (no wildcard) reports nothing.
#[test]
fn uncovered_kinds_fully_covered_config_reports_nothing() {
    let config = MergeConfig {
        merge: vec![MergeEntry {
            target: "Loop".to_string(),
            from: vec!["for_statement".to_string(), "while_statement".to_string()],
        }],
        passthrough: vec![PassthroughEntry {
            kind: "comment".to_string(),
            target: "Comment".to_string(),
        }],
        ignore: vec!["repeat_statement".to_string()],
    };
    assert!(uncovered_kinds(&grammar(), &config).is_empty());
}
