//! The drawing step (a diagram tree to SVG through the `railroad` crate)
//! stands in the program, which tests cannot link; `draw` and
//! `emit_single_file` below restate it, so that the SVG expectations can
//! be checked against the library's diagram trees.

use railroad::{Comment, Empty, LabeledBox, Link, Node, Optional, Repeat};
use ts_bnf_tool::nameset::NameSet;
use ts_bnf_tool::nodes::{GrammarNode, PrecKind, PrecLevel};
use ts_bnf_tool::production::Production;
use ts_bnf_tool::railroad::{
    annotation_css, compose_single_file, extract_diagram_content, node_to_railroad, rule_diagrams, LinkMode, RailNode,
    RenderedRule,
};
use ts_bnf_tool::types::Grammar;

/// The set of defined rule names used by the walker.
fn def(names: &[&str]) -> NameSet {
    let mut s = NameSet::new();
    for n in names {
        s.insert(n);
    }
    s
}

/// The railroad combinator that draws `node`.
fn draw(node: &RailNode) -> Box<dyn Node> {
    match node {
        RailNode::Start => Box::new(railroad::SimpleStart),
        RailNode::End => Box::new(railroad::SimpleEnd),
        RailNode::Terminal(s) => Box::new(railroad::Terminal::new(s.clone())),
        RailNode::NonTerminal { name, href } => {
            Box::new(Link::new(railroad::NonTerminal::new(name.clone()), href.clone()))
        }
        RailNode::Sequence(children) => Box::new(railroad::Sequence::new(children.iter().map(draw).collect())),
        RailNode::Choice(children) => Box::new(railroad::Choice::new(children.iter().map(draw).collect())),
        RailNode::Optional(inner) => Box::new(Optional::new(draw(inner))),
        RailNode::Repeat(inner) => Box::new(Repeat::new(draw(inner), Box::new(Empty) as Box<dyn Node>)),
        RailNode::Labeled { inner, label, class } => {
            let mut boxed = LabeledBox::new(draw(inner), Comment::new(label.clone()));
            *boxed.attr("class".to_owned()).or_default() = class.clone();
            Box::new(boxed)
        }
    }
}

fn to_svg(node: &GrammarNode, mode: &LinkMode, defined: &NameSet) -> (String, Vec<String>) {
    to_svg_annotated(node, mode, defined, false)
}

fn to_svg_annotated(node: &GrammarNode, mode: &LinkMode, defined: &NameSet, annotate: bool) -> (String, Vec<String>) {
    let mut warnings = Vec::new();
    let n = node_to_railroad(node, mode, defined, &mut warnings, annotate);
    let svg = railroad::Diagram::new(draw(&n)).to_string();
    (svg, warnings)
}

/// Width and height from a diagram's `viewBox="0 0 W H"`.
fn viewbox(svg: &str) -> (i64, i64) {
    let re = regex::Regex::new(r#"viewBox="0 0 ([\d.]+) ([\d.]+)""#).unwrap();
    match re.captures(svg) {
        None => (0, 0),
        Some(caps) => (
            caps[1].parse::<f64>().unwrap_or(0.0) as i64,
            caps[2].parse::<f64>().unwrap_or(0.0) as i64,
        ),
    }
}

fn emit_single_file(grammar: &Grammar, only_rule: Option<&str>, annotate: bool) -> Result<(String, Vec<String>), String> {
    let (diagrams, warnings) = rule_diagrams(grammar, only_rule, &LinkMode::SingleFile, annotate)?;
    let rules: Vec<RenderedRule> = diagrams
        .iter()
        .map(|(name, d)| {
            let svg = railroad::Diagram::new(draw(d)).to_string();
            let (width, height) = viewbox(&svg);
            RenderedRule { name: name.clone(), content: extract_diagram_content(&svg), width, height }
        })
        .collect();
    Ok((compose_single_file(&rules, railroad::DEFAULT_CSS, annotate), warnings))
}

fn two_rule_grammar() -> Grammar {
    Grammar::from_rules(vec![
        Production {
            name: "expr".into(),
            body: GrammarNode::NonTerminal("term".into()),
            line: 1,
            filename: "test.bnf".into(),
        },
        Production {
            name: "term".into(),
            body: GrammarNode::TerminalLiteral("NUM".into()),
            line: 2,
            filename: "test.bnf".into(),
        },
    ])
}

fn field_rule_grammar() -> Grammar {
    Grammar::from_rules(vec![Production {
        name: "expr".into(),
        body: GrammarNode::Field("operand".into(), Box::new(GrammarNode::TerminalLiteral("NUM".into()))),
        line: 1,
        filename: "test.bnf".into(),
    }])
}

#[test]
/// A literal terminal produces a Terminal box whose label appears in the SVG.
fn terminal_literal_renders() {
    let (svg, w) = to_svg(
        &GrammarNode::TerminalLiteral("NUM".into()),
        &LinkMode::SingleFile,
        &def(&[]),
    );
    assert!(svg.starts_with("<svg"), "output must be an SVG element");
    assert!(svg.contains("NUM"));
    assert!(w.is_empty());
}

#[test]
/// A regex pattern terminal produces a Terminal box whose pattern text appears in the SVG.
fn terminal_pattern_renders() {
    let (svg, w) = to_svg(
        &GrammarNode::TerminalPattern("DIGITS".into()),
        &LinkMode::SingleFile,
        &def(&[]),
    );
    assert!(svg.contains("DIGITS"));
    assert!(w.is_empty());
}

#[test]
/// A NonTerminal in single-file mode gets an href pointing to `#rule-<name>`.
fn nonterminal_single_file_href() {
    let (svg, w) = to_svg(
        &GrammarNode::NonTerminal("expr".into()),
        &LinkMode::SingleFile,
        &def(&["expr"]),
    );
    assert!(svg.contains("#rule-expr"));
    assert!(w.is_empty());
}

#[test]
/// A NonTerminal in split mode gets an href pointing to `<name>.svg`.
fn nonterminal_split_href() {
    let (svg, w) = to_svg(
        &GrammarNode::NonTerminal("expr".into()),
        &LinkMode::Split,
        &def(&["expr"]),
    );
    assert!(svg.contains("expr.svg"));
    assert!(w.is_empty());
}

#[test]
/// A NonTerminal whose name is not in `defined` still renders but appends a warning.
fn nonterminal_undefined_warns() {
    let mut warnings = Vec::new();
    node_to_railroad(
        &GrammarNode::NonTerminal("ghost".into()),
        &LinkMode::SingleFile,
        &def(&[]),
        &mut warnings,
        false,
    );
    assert_eq!(
        warnings,
        ["warning: rule 'ghost' referenced but not defined"]
    );
}

#[test]
/// A Sequence renders all its children; both labels appear in the SVG.
fn sequence_renders_children() {
    let node = GrammarNode::Sequence(vec![
        GrammarNode::TerminalLiteral("AA".into()),
        GrammarNode::TerminalLiteral("BB".into()),
    ]);
    let (svg, _) = to_svg(&node, &LinkMode::SingleFile, &def(&[]));
    assert!(svg.contains("AA") && svg.contains("BB"));
}

#[test]
/// A Choice renders all its alternatives; both labels appear in the SVG.
fn choice_renders_alternatives() {
    let node = GrammarNode::Choice(vec![
        GrammarNode::TerminalLiteral("XX".into()),
        GrammarNode::TerminalLiteral("YY".into()),
    ]);
    let (svg, _) = to_svg(&node, &LinkMode::SingleFile, &def(&[]));
    assert!(svg.contains("XX") && svg.contains("YY"));
}

#[test]
/// An Optional wraps its inner node; the inner label appears in the SVG.
fn optional_renders_inner() {
    let node = GrammarNode::Optional(Box::new(GrammarNode::TerminalLiteral("OPT".into())));
    let (svg, _) = to_svg(&node, &LinkMode::SingleFile, &def(&[]));
    assert!(svg.contains("OPT"));
}

#[test]
/// OneOrMore renders the inner node at least once (Repeat with Empty separator).
fn one_or_more_renders_inner() {
    let node = GrammarNode::OneOrMore(Box::new(GrammarNode::TerminalLiteral("ITEM".into())));
    let (svg, _) = to_svg(&node, &LinkMode::SingleFile, &def(&[]));
    assert!(svg.contains("ITEM"));
}

#[test]
/// ZeroOrMore renders the inner node (Optional + Repeat with Empty separator).
fn zero_or_more_renders_inner() {
    let node = GrammarNode::ZeroOrMore(Box::new(GrammarNode::TerminalLiteral("ELEM".into())));
    let (svg, _) = to_svg(&node, &LinkMode::SingleFile, &def(&[]));
    assert!(svg.contains("ELEM"));
}

#[test]
/// Token is a tree-sitter annotation; only the inner expression is rendered.
fn token_wrapper_is_transparent() {
    let node = GrammarNode::Token(Box::new(GrammarNode::TerminalLiteral("TOK".into())));
    let (svg, _) = to_svg(&node, &LinkMode::SingleFile, &def(&[]));
    assert!(svg.contains("TOK"));
}

#[test]
/// With `--annotate`, Token wraps the inner expression in a LabeledBox with a
/// "token" comment and a per-kind class for CSS styling hooks.
fn token_wrapper_is_labeled_when_annotated() {
    let node = GrammarNode::Token(Box::new(GrammarNode::TerminalLiteral("TOK".into())));
    let (svg, _) = to_svg_annotated(&node, &LinkMode::SingleFile, &def(&[]), true);
    assert!(svg.contains("TOK"));
    assert!(svg.contains("token"));
    assert!(
        svg.contains("labeledbox annotation-token"),
        "annotation box must carry the stylesheet's labeledbox class plus a per-kind class"
    );
}

#[test]
/// TokenImmediate is a tree-sitter annotation; only the inner expression is rendered.
fn token_immediate_is_transparent() {
    let node =
        GrammarNode::TokenImmediate(Box::new(GrammarNode::TerminalLiteral("IMM".into())));
    let (svg, _) = to_svg(&node, &LinkMode::SingleFile, &def(&[]));
    assert!(svg.contains("IMM"));
}

#[test]
/// With `--annotate`, TokenImmediate wraps the inner expression in a LabeledBox
/// with a "token.immediate" comment.
fn token_immediate_is_labeled_when_annotated() {
    let node =
        GrammarNode::TokenImmediate(Box::new(GrammarNode::TerminalLiteral("IMM".into())));
    let (svg, _) = to_svg_annotated(&node, &LinkMode::SingleFile, &def(&[]), true);
    assert!(svg.contains("IMM"));
    assert!(svg.contains("token.immediate"));
}

#[test]
/// Field is a tree-sitter annotation; the inner expression is rendered but the field name is not.
fn field_wrapper_is_transparent() {
    let node = GrammarNode::Field(
        "myfieldname".into(),
        Box::new(GrammarNode::TerminalLiteral("FLD".into())),
    );
    let (svg, _) = to_svg(&node, &LinkMode::SingleFile, &def(&[]));
    assert!(svg.contains("FLD"));
    assert!(!svg.contains("myfieldname"));
}

#[test]
/// With `--annotate`, Field wraps the inner expression in a LabeledBox labeled with
/// the dialect's field syntax (`name:`), so it cannot be mistaken for an alias.
fn field_wrapper_is_labeled_when_annotated() {
    let node = GrammarNode::Field(
        "myfieldname".into(),
        Box::new(GrammarNode::TerminalLiteral("FLD".into())),
    );
    let (svg, _) = to_svg_annotated(&node, &LinkMode::SingleFile, &def(&[]), true);
    assert!(svg.contains("FLD"));
    assert!(svg.contains("myfieldname:"));
    assert!(svg.contains("labeledbox annotation-field"));
}

#[test]
/// Alias renders the body expression; the alias name node is discarded and must not appear.
fn alias_renders_body_not_name() {
    let node = GrammarNode::Alias(
        Box::new(GrammarNode::TerminalLiteral("BODY".into())),
        Box::new(GrammarNode::TerminalLiteral("ALIASNAME".into())),
    );
    let (svg, _) = to_svg(&node, &LinkMode::SingleFile, &def(&[]));
    assert!(svg.contains("BODY"));
    assert!(!svg.contains("ALIASNAME"));
}

#[test]
/// With `--annotate`, Alias wraps the body in a LabeledBox labeled with the
/// dialect's alias syntax (`=> name`; `>` is XML-escaped in the raw SVG), so it
/// cannot be mistaken for a field.
fn alias_is_labeled_with_name_when_annotated() {
    let node = GrammarNode::Alias(
        Box::new(GrammarNode::TerminalLiteral("BODY".into())),
        Box::new(GrammarNode::TerminalLiteral("ALIASNAME".into())),
    );
    let (svg, _) = to_svg_annotated(&node, &LinkMode::SingleFile, &def(&[]), true);
    assert!(svg.contains("BODY"));
    assert!(svg.contains("=&gt; ALIASNAME"));
    assert!(svg.contains("labeledbox annotation-alias"));
}

#[test]
/// With `--annotate`, an Alias whose name is a bare rule reference (not a string
/// literal) is labeled with the plain rule name, not a `$.`-prefixed reference.
fn alias_nonterminal_name_label_has_no_dollar_prefix() {
    let node = GrammarNode::Alias(
        Box::new(GrammarNode::TerminalLiteral("BODY".into())),
        Box::new(GrammarNode::NonTerminal("renamed".into())),
    );
    let (svg, _) = to_svg_annotated(&node, &LinkMode::SingleFile, &def(&[]), true);
    assert!(svg.contains("renamed"));
    assert!(!svg.contains("$.renamed"));
}

#[test]
/// Prec is a tree-sitter annotation; only the inner expression is rendered.
fn prec_wrapper_is_transparent() {
    let node = GrammarNode::Prec(
        PrecKind::Left,
        Some(PrecLevel::Integer(1)),
        Box::new(GrammarNode::TerminalLiteral("PRC".into())),
    );
    let (svg, _) = to_svg(&node, &LinkMode::SingleFile, &def(&[]));
    assert!(svg.contains("PRC"));
}

#[test]
/// With `--annotate`, Prec wraps the inner expression in a LabeledBox with a
/// tree-sitter-style `prec.left(1)` comment.
fn prec_wrapper_is_labeled_when_annotated() {
    let node = GrammarNode::Prec(
        PrecKind::Left,
        Some(PrecLevel::Integer(1)),
        Box::new(GrammarNode::TerminalLiteral("PRC".into())),
    );
    let (svg, _) = to_svg_annotated(&node, &LinkMode::SingleFile, &def(&[]), true);
    assert!(svg.contains("PRC"));
    assert!(svg.contains("prec.left(1)"));
}

#[test]
/// With `--annotate`, a Prec without a level is labeled with the bare kind name
/// (`prec`), not an empty call (`prec()`).
fn prec_without_level_is_labeled_without_parens() {
    let node = GrammarNode::Prec(
        PrecKind::Plain,
        None,
        Box::new(GrammarNode::TerminalLiteral("PRC".into())),
    );
    let (svg, _) = to_svg_annotated(&node, &LinkMode::SingleFile, &def(&[]), true);
    assert!(svg.contains("prec"));
    assert!(!svg.contains("prec()"));
}

#[test]
/// Reserved has no candidate rendering in issue #182 and stays transparent
/// even with `--annotate`.
fn reserved_stays_transparent_when_annotated() {
    let node = GrammarNode::Reserved(
        "keywords".into(),
        Box::new(GrammarNode::TerminalLiteral("RSV".into())),
    );
    let (svg, _) = to_svg_annotated(&node, &LinkMode::SingleFile, &def(&[]), true);
    assert!(svg.contains("RSV"));
    assert!(!svg.contains("keywords"));
}

#[test]
/// Single-file output is a valid SVG element containing both rule names as labels.
fn single_file_is_svg() {
    let (svg, _) = emit_single_file(&two_rule_grammar(), None, false).unwrap();
    assert!(svg.starts_with("<svg"), "output must open with <svg");
    assert!(svg.ends_with("</svg>"), "output must close with </svg>");
}

#[test]
/// Single-file output contains one `id="rule-X"` anchor element per rule (R-12).
fn single_file_has_one_anchor_per_rule() {
    let (svg, _) = emit_single_file(&two_rule_grammar(), None, false).unwrap();
    assert!(svg.contains("id=\"rule-expr\""));
    assert!(svg.contains("id=\"rule-term\""));
}

#[test]
/// Non-terminal hrefs in single-file mode point to anchors that exist in the same document (R-13).
fn single_file_hrefs_resolve_to_local_anchors() {
    let (svg, _) = emit_single_file(&two_rule_grammar(), None, false).unwrap();
    // expr references term, so there must be an href to #rule-term
    assert!(
        svg.contains("#rule-term"),
        "href to referenced rule must be present"
    );
    // and the corresponding anchor must also exist in the same document
    assert!(
        svg.contains("id=\"rule-term\""),
        "anchor target must exist in the document"
    );
}

#[test]
/// The stylesheet is embedded exactly once at the top of the combined SVG.
fn single_file_embeds_stylesheet_once() {
    let (svg, _) = emit_single_file(&two_rule_grammar(), None, false).unwrap();
    assert_eq!(
        svg.matches("<style>").count(),
        1,
        "stylesheet must appear exactly once"
    );
}

#[test]
/// `emit_single_file` with `annotate: false` (the default) keeps field annotations transparent.
fn single_file_annotate_false_omits_field_label() {
    let (svg, _) = emit_single_file(&field_rule_grammar(), None, false).unwrap();
    assert!(svg.contains("NUM"));
    assert!(!svg.contains("operand"));
}

#[test]
/// `emit_single_file` with `annotate: true` draws the field name as a LabeledBox comment.
fn single_file_annotate_true_shows_field_label() {
    let (svg, _) = emit_single_file(&field_rule_grammar(), None, true).unwrap();
    assert!(svg.contains("NUM"));
    assert!(svg.contains("operand:"));
}

#[test]
/// `emit_single_file` with `annotate: true` embeds the Inkscape-safe fill override:
/// Inkscape renders the crate stylesheet's `fill: rgba(...)` as opaque black,
/// hiding the annotation label and contents.
fn single_file_annotate_true_embeds_inkscape_safe_fill() {
    let (svg, _) = emit_single_file(&field_rule_grammar(), None, true).unwrap();
    assert!(svg.contains(annotation_css()));
}

#[test]
/// Without `annotate`, the override CSS is not embedded and output matches the
/// pre-`--annotate` stylesheet exactly.
fn single_file_annotate_false_omits_override_css() {
    let (svg, _) = emit_single_file(&field_rule_grammar(), None, false).unwrap();
    assert!(!svg.contains("fill-opacity"));
}

#[test]
/// When only_rule names an existing rule, only that rule's diagram appears in the output.
fn single_rule_renders_only_named_rule() {
    let (svg, _) = emit_single_file(&two_rule_grammar(), Some("expr"), false).unwrap();
    assert!(
        svg.contains("id=\"rule-expr\""),
        "named rule anchor must be present"
    );
    assert!(
        !svg.contains("id=\"rule-term\""),
        "other rule anchors must be absent"
    );
}

#[test]
/// When only_rule names a rule that does not exist, an error is returned instead of a silent empty SVG.
fn single_rule_unknown_name_returns_error() {
    let result = emit_single_file(&two_rule_grammar(), Some("ghost"), false);
    assert!(result.is_err(), "unknown rule must return Err");
    assert!(
        result.unwrap_err().contains("ghost"),
        "error message must include the missing rule name"
    );
}

#[test]
fn extract_diagram_content_strips_wrapper_and_canvas() {
    let svg = "<svg class=\"railroad\" viewBox=\"0 0 10 20\">\n<rect class=\"railroad_canvas\"/>\n<g>x</g>\n</svg>";
    assert_eq!(extract_diagram_content(svg), "<g>x</g>");
}

#[test]
fn extract_diagram_content_without_tag_is_unchanged() {
    assert_eq!(extract_diagram_content("plain text"), "plain text");
}

#[test]
fn compose_stacks_rules_and_sizes_document() {
    let rules = vec![
        RenderedRule { name: "a".into(), content: "<g/>".into(), width: 150, height: 30 },
        RenderedRule { name: "b".into(), content: "<g/>".into(), width: 320, height: 10 },
    ];
    let out = compose_single_file(&rules, "CSS", false);
    assert!(out.starts_with("<svg xmlns=\"http://www.w3.org/2000/svg\" xmlns:xlink=\"http://www.w3.org/1999/xlink\" class=\"railroad\" viewBox=\"0 0 320 120\">\n<style>CSS</style>\n"));
    assert!(out.contains("<g id=\"rule-a\" transform=\"translate(0, 0)\">\n<text x=\"10\" y=\"18\""));
    assert!(out.contains("<g id=\"rule-b\" transform=\"translate(0, 70)\">"));
    assert!(out.ends_with("\n</g>\n</g>\n</svg>"));
}

#[test]
fn compose_without_rules_is_two_hundred_wide() {
    let out = compose_single_file(&Vec::new(), "", false);
    assert!(out.contains("viewBox=\"0 0 200 0\""));
}

#[test]
fn warnings_are_sorted_and_unique() {
    let g = Grammar::from_rules(vec![Production {
        name: "r".into(),
        body: GrammarNode::Sequence(vec![
            GrammarNode::NonTerminal("zeta".into()),
            GrammarNode::NonTerminal("alpha".into()),
            GrammarNode::NonTerminal("zeta".into()),
        ]),
        line: 1,
        filename: "test.bnf".into(),
    }]);
    let (_, warnings) = rule_diagrams(&g, None, &LinkMode::Split, false).unwrap();
    assert_eq!(
        warnings,
        vec![
            "warning: rule 'alpha' referenced but not defined".to_string(),
            "warning: rule 'zeta' referenced but not defined".to_string(),
        ]
    );
}

#[test]
fn split_mode_links_to_svg_files() {
    let (diagrams, warnings) = rule_diagrams(&two_rule_grammar(), None, &LinkMode::Split, false).unwrap();
    assert_eq!(diagrams.len(), 2);
    assert!(warnings.is_empty());
    let svg = railroad::Diagram::new(draw(&diagrams[0].1)).to_string();
    assert!(svg.contains("term.svg"));
}
