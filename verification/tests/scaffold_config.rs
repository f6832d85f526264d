use ts_bnf_tool::nodes::GrammarNode::TerminalLiteral;
use ts_bnf_tool::scaffold_config::validate_scaffold_request;
use ts_bnf_tool::test_utils::p;
use ts_bnf_tool::types::Grammar;
use ts_bnf_tool::merge::{MergeConfig, MergeEntry, PassthroughEntry};
use ts_bnf_tool::scaffold_config::{merge_config_eq, scaffold_config_patch, ScaffoldConfig};

fn config(grammar: &str, name: &str, ast_types: bool, merge_config: Option<MergeConfig>) -> ScaffoldConfig {
    ScaffoldConfig {
        grammar: grammar.to_string(),
        name: name.to_string(),
        ast_types,
        merge_config,
    }
}

fn merge(target: &str, from: &[&str]) -> MergeConfig {
    MergeConfig {
        merge: vec![MergeEntry {
            target: target.to_string(),
            from: from.iter().map(|s| s.to_string()).collect(),
        }],
        passthrough: vec![PassthroughEntry { kind: "k".to_string(), target: "K".to_string() }],
        ignore: vec!["*".to_string()],
    }
}

/// Settings that already match are left alone.
#[test]
fn scaffold_config_patch_unchanged_is_none() {
    let existing = config("decls.bnf", "decls", false, None);
    let effective = config("decls.bnf", "decls", false, None);
    assert!(scaffold_config_patch(existing, effective).is_none());
}

/// A grammar file that differs is no reason to rewrite.
#[test]
fn scaffold_config_patch_ignores_grammar_file() {
    let existing = config("decls.bnf", "decls", true, Some(merge("Expr", &["a", "b"])));
    let effective = config("other.bnf", "decls", true, Some(merge("Expr", &["a", "b"])));
    assert!(scaffold_config_patch(existing, effective).is_none());
}

/// A newly set flag is patched in under the recorded grammar file.
#[test]
fn scaffold_config_patch_changed_flag_keeps_grammar() {
    let existing = config("decls.bnf", "decls", false, None);
    let effective = config("ignored.bnf", "decls", true, None);
    let patched = scaffold_config_patch(existing, effective).unwrap();
    assert_eq!(patched.grammar, "decls.bnf");
    assert_eq!(patched.name, "decls");
    assert!(patched.ast_types);
    assert!(patched.merge_config.is_none());
}

/// A changed name or merge configuration is patched in.
#[test]
fn scaffold_config_patch_changed_name_and_merge() {
    let existing = config("decls.bnf", "decls", false, Some(merge("Expr", &["a", "b"])));
    let effective = config("decls.bnf", "decls2", false, Some(merge("Expr", &["a", "c"])));
    let patched = scaffold_config_patch(existing, effective).unwrap();
    assert_eq!(patched.grammar, "decls.bnf");
    assert_eq!(patched.name, "decls2");
    assert_eq!(patched.merge_config.unwrap().merge[0].from, vec!["a".to_string(), "c".to_string()]);
}

/// Merge configurations compare by content.
#[test]
fn merge_config_eq_compares_content() {
    assert!(merge_config_eq(&merge("Expr", &["a", "b"]), &merge("Expr", &["a", "b"])));
    assert!(!merge_config_eq(&merge("Expr", &["a", "b"]), &merge("Expr", &["b", "a"])));
    assert!(!merge_config_eq(&merge("Expr", &["a"]), &merge("Stmt", &["a"])));
    assert!(!merge_config_eq(&merge("Expr", &["a"]), &merge("Expr", &["a", "b"])));
}


fn two_kinds() -> Grammar {
    Grammar::from_rules(vec![
        p("expr", TerminalLiteral("'e'".into())),
        p("stmt", TerminalLiteral("'s'".into())),
    ])
}

/// A grammar with distinct method names and no merge configuration passes.
#[test]
fn validate_scaffold_request_ok() {
    assert!(validate_scaffold_request(&two_kinds(), None).is_ok());
}

/// A method-name clash is reported before anything about the merge
/// configuration.
#[test]
fn validate_scaffold_request_reports_clash_first() {
    let g = Grammar::from_rules(vec![
        p("fooBar", TerminalLiteral("'a'".into())),
        p("foo_bar", TerminalLiteral("'b'".into())),
    ]);
    let bad = merge("loop", &["nothing"]);
    let err = validate_scaffold_request(&g, Some(&bad)).unwrap_err();
    assert!(err.contains("visit_foo_bar"), "got {err}");
}

/// A merge configuration naming an unknown kind is refused.
#[test]
fn validate_scaffold_request_checks_merge_config() {
    let cfg = MergeConfig {
        merge: vec![MergeEntry { target: "Node".to_string(), from: vec!["expr".to_string(), "ghost".to_string()] }],
        passthrough: vec![],
        ignore: vec![],
    };
    let err = validate_scaffold_request(&two_kinds(), Some(&cfg)).unwrap_err();
    assert!(err.contains("'ghost'"), "got {err}");
    let ok = MergeConfig {
        merge: vec![MergeEntry { target: "Node".to_string(), from: vec!["expr".to_string(), "stmt".to_string()] }],
        passthrough: vec![],
        ignore: vec![],
    };
    assert!(validate_scaffold_request(&two_kinds(), Some(&ok)).is_ok());
}
