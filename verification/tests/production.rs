use ts_bnf_tool::nodes::GrammarNode::NonTerminal;
use ts_bnf_tool::production::Production;

#[test]
fn production_production_display() {
    let p = Production {
        name: "expr".into(),
        body: NonTerminal("a".into()),
        line: 1,
        filename: "test.bnf".into(),
    };
    assert_eq!(p.to_text(), "expr -> $.a");
}
