//! Grammar rule trees mirroring tree-sitter's combinator functions, with
//! the structural predicates the checks rely on and their `grammar.js`
//! rendering.

use vstd::prelude::*;
use vstd::string::*;
use crate::text::{i64_to_decimal, int_decimal, join, join_strings, views};

verus! {

/// The flavour of tree-sitter precedence annotation.
#[derive(PartialEq, Eq, Structural, Clone, Copy, Debug)]
pub enum PrecKind {
    /// `prec(n, …)` — plain precedence.
    Plain,
    /// `prec.left(n, …)` — left-associative precedence.
    Left,
    /// `prec.right(n, …)` — right-associative precedence.
    Right,
    /// `prec.dynamic(n, …)` — dynamic precedence.
    Dynamic,
}

/// A `prec(…)` level: an integer or an already-quoted name.
#[derive(Debug)]
pub enum PrecLevel {
    /// A numeric level such as the `1` in `prec(1, …)`.
    Integer(i32),
    /// A named level, stored pre-quoted (e.g. `'unary'`) and printed verbatim.
    Name(String),
}

/// A node in the grammar rule tree.
#[derive(Debug)]
pub enum GrammarNode {
    /// `seq(…)` — an ordered sequence of sub-nodes.
    Sequence(Vec<GrammarNode>),
    /// `choice(…)` — an ordered set of alternatives.
    Choice(Vec<GrammarNode>),
    /// `optional(…)` — zero or one occurrence.
    Optional(Box<GrammarNode>),
    /// A quoted string literal terminal.
    TerminalLiteral(String),
    /// A regex pattern terminal enclosed in `/…/`.
    TerminalPattern(String),
    /// A reference to another rule (`$.name`).
    NonTerminal(String),
    /// `repeat(…)` — zero or more occurrences.
    ZeroOrMore(Box<GrammarNode>),
    /// `repeat1(…)` — one or more occurrences.
    OneOrMore(Box<GrammarNode>),
    /// `token(…)` — lexed as a single token.
    Token(Box<GrammarNode>),
    /// `token.immediate(…)` — a token with no preceding whitespace.
    TokenImmediate(Box<GrammarNode>),
    /// `field('name', …)` — a named field.
    Field(String, Box<GrammarNode>),
    /// `alias(body, name)` — renames a node in the syntax tree.
    Alias(Box<GrammarNode>, Box<GrammarNode>),
    /// `prec[.left|.right|.dynamic](level, …)` — precedence annotation.
    Prec(PrecKind, Option<PrecLevel>, Box<GrammarNode>),
    /// `reserved('setName', body)` — a reserved-word set.
    Reserved(String, Box<GrammarNode>),
}

/// The tree-sitter surface name of a precedence kind.
pub open spec fn prec_kind_text(k: PrecKind) -> Seq<char> {
    match k {
        PrecKind::Plain => "prec"@,
        PrecKind::Left => "prec.left"@,
        PrecKind::Right => "prec.right"@,
        PrecKind::Dynamic => "prec.dynamic"@,
    }
}

/// How a precedence level is printed.
pub open spec fn prec_level_text(l: PrecLevel) -> Seq<char> {
    match l {
        PrecLevel::Integer(i) => int_decimal(i as int),
        PrecLevel::Name(n) => n@,
    }
}

impl PrecKind {
    /// The tree-sitter surface name of this precedence kind, e.g. `"prec.left"`.
    pub fn as_str(&self) -> (r: &'static str)
        ensures
            r@ == prec_kind_text(*self),
    {
        match self {
            PrecKind::Plain => "prec",
            PrecKind::Left => "prec.left",
            PrecKind::Right => "prec.right",
            PrecKind::Dynamic => "prec.dynamic",
        }
    }
}

impl PrecLevel {
    /// The level as printed: the integer in decimal, or the quoted name verbatim.
    pub fn to_text(&self) -> (r: String)
        ensures
            r@ == prec_level_text(*self),
    {
        match self {
            PrecLevel::Integer(i) => i64_to_decimal(*i as i64),
            PrecLevel::Name(n) => n.clone(),
        }
    }
}

/// Every non-terminal name referenced in `n`, in order; the name child of an
/// alias is a display label and does not count.
pub open spec fn nt_names(n: GrammarNode) -> Seq<Seq<char>>
    decreases n,
{
    match n {
        GrammarNode::NonTerminal(name) => seq![name@],
        GrammarNode::TerminalLiteral(_) => seq![],
        GrammarNode::TerminalPattern(_) => seq![],
        GrammarNode::Sequence(cs) => nt_names_list(cs@),
        GrammarNode::Choice(cs) => nt_names_list(cs@),
        GrammarNode::Optional(i) => nt_names(*i),
        GrammarNode::ZeroOrMore(i) => nt_names(*i),
        GrammarNode::OneOrMore(i) => nt_names(*i),
        GrammarNode::Token(i) => nt_names(*i),
        GrammarNode::TokenImmediate(i) => nt_names(*i),
        GrammarNode::Field(_, i) => nt_names(*i),
        GrammarNode::Alias(b, _) => nt_names(*b),
        GrammarNode::Prec(_, _, i) => nt_names(*i),
        GrammarNode::Reserved(_, i) => nt_names(*i),
    }
}

/// `nt_names` of each element of `cs`, concatenated.
pub open spec fn nt_names_list(cs: Seq<GrammarNode>) -> Seq<Seq<char>>
    decreases cs,
{
    if cs.len() == 0 {
        seq![]
    } else {
        nt_names(cs[0]) + nt_names_list(cs.drop_first())
    }
}

/// Whether `n` or any descendant (alias names excluded) is a non-terminal.
pub open spec fn contains_nt(n: GrammarNode) -> bool
    decreases n,
{
    match n {
        GrammarNode::NonTerminal(_) => true,
        GrammarNode::TerminalLiteral(_) => false,
        GrammarNode::TerminalPattern(_) => false,
        GrammarNode::Sequence(cs) => contains_nt_list(cs@),
        GrammarNode::Choice(cs) => contains_nt_list(cs@),
        GrammarNode::Optional(i) => contains_nt(*i),
        GrammarNode::ZeroOrMore(i) => contains_nt(*i),
        GrammarNode::OneOrMore(i) => contains_nt(*i),
        GrammarNode::Token(i) => contains_nt(*i),
        GrammarNode::TokenImmediate(i) => contains_nt(*i),
        GrammarNode::Field(_, i) => contains_nt(*i),
        GrammarNode::Alias(b, _) => contains_nt(*b),
        GrammarNode::Prec(_, _, i) => contains_nt(*i),
        GrammarNode::Reserved(_, i) => contains_nt(*i),
    }
}

/// Whether some element of `cs` contains a non-terminal.
pub open spec fn contains_nt_list(cs: Seq<GrammarNode>) -> bool
    decreases cs,
{
    if cs.len() == 0 {
        false
    } else {
        contains_nt(cs[0]) || contains_nt_list(cs.drop_first())
    }
}

/// Whether `n` is a bare terminal, possibly under transparent annotations
/// (token, token.immediate, field, alias body, prec, reserved).
pub open spec fn pure_token(n: GrammarNode) -> bool
    decreases n,
{
    match n {
        GrammarNode::TerminalLiteral(_) => true,
        GrammarNode::TerminalPattern(_) => true,
        GrammarNode::Token(i) => pure_token(*i),
        GrammarNode::TokenImmediate(i) => pure_token(*i),
        GrammarNode::Field(_, i) => pure_token(*i),
        GrammarNode::Alias(b, _) => pure_token(*b),
        GrammarNode::Prec(_, _, i) => pure_token(*i),
        GrammarNode::Reserved(_, i) => pure_token(*i),
        _ => false,
    }
}

/// Whether `n` is exactly one step of an alternative: a terminal, a rule
/// reference or a `?`/`*`/`+` repetition, possibly under transparent annotations.
pub open spec fn atomic(n: GrammarNode) -> bool
    decreases n,
{
    match n {
        GrammarNode::TerminalLiteral(_) => true,
        GrammarNode::TerminalPattern(_) => true,
        GrammarNode::NonTerminal(_) => true,
        GrammarNode::Optional(_) => true,
        GrammarNode::OneOrMore(_) => true,
        GrammarNode::ZeroOrMore(_) => true,
        GrammarNode::Token(i) => atomic(*i),
        GrammarNode::TokenImmediate(i) => atomic(*i),
        GrammarNode::Field(_, i) => atomic(*i),
        GrammarNode::Alias(b, _) => atomic(*b),
        GrammarNode::Prec(_, _, i) => atomic(*i),
        GrammarNode::Reserved(_, i) => atomic(*i),
        _ => false,
    }
}

/// Whether every element of `cs` is atomic.
pub open spec fn all_atomic(cs: Seq<GrammarNode>) -> bool {
    forall|j: int| 0 <= j < cs.len() ==> atomic(#[trigger] cs[j])
}

/// Whether every alternative of a production body is a single step.
pub open spec fn single_choice(n: GrammarNode) -> bool
    decreases n,
{
    match n {
        GrammarNode::Token(i) => single_choice(*i),
        GrammarNode::TokenImmediate(i) => single_choice(*i),
        GrammarNode::Field(_, i) => single_choice(*i),
        GrammarNode::Alias(b, _) => single_choice(*b),
        GrammarNode::Prec(_, _, i) => single_choice(*i),
        GrammarNode::Reserved(_, i) => single_choice(*i),
        GrammarNode::Choice(cs) => all_atomic(cs@),
        _ => atomic(n),
    }
}

/// The `grammar.js` rendering of `n`.
pub open spec fn js(n: GrammarNode) -> Seq<char>
    decreases n,
{
    match n {
        GrammarNode::Sequence(cs) => "seq("@ + join(js_list(cs@), ", "@) + ")"@,
        GrammarNode::Choice(cs) => "choice("@ + join(js_list(cs@), ", "@) + ")"@,
        GrammarNode::TerminalLiteral(l) => l@,
        GrammarNode::TerminalPattern(p) => p@,
        GrammarNode::NonTerminal(name) => "$."@ + name@,
        GrammarNode::ZeroOrMore(i) => "repeat("@ + js(*i) + ")"@,
        GrammarNode::OneOrMore(i) => "repeat1("@ + js(*i) + ")"@,
        GrammarNode::Optional(i) => "optional("@ + js(*i) + ")"@,
        GrammarNode::Token(i) => "token("@ + js(*i) + ")"@,
        GrammarNode::TokenImmediate(i) => "token.immediate("@ + js(*i) + ")"@,
        GrammarNode::Field(name, i) => "field('"@ + name@ + "', "@ + js(*i) + ")"@,
        GrammarNode::Alias(b, name) => "alias("@ + js(*b) + ", "@ + js(*name) + ")"@,
        GrammarNode::Prec(kind, level, i) => match level {
            Some(l) => prec_kind_text(kind) + "("@ + prec_level_text(l) + ", "@ + js(*i) + ")"@,
            None => prec_kind_text(kind) + "("@ + js(*i) + ")"@,
        },
        GrammarNode::Reserved(name, i) => "reserved('"@ + name@ + "', "@ + js(*i) + ")"@,
    }
}

/// The `grammar.js` renderings of the elements of `cs`.
pub open spec fn js_list(cs: Seq<GrammarNode>) -> Seq<Seq<char>>
    decreases cs,
{
    if cs.len() == 0 {
        seq![]
    } else {
        seq![js(cs[0])] + js_list(cs.drop_first())
    }
}

/// A node contains a non-terminal exactly when it references at least one
/// non-terminal name.
pub proof fn lemma_contains_nt_iff_names(n: GrammarNode)
    ensures
        contains_nt(n) == (nt_names(n).len() > 0),
    decreases n,
{
    match n {
        GrammarNode::Sequence(cs) => lemma_contains_nt_iff_names_list(cs@),
        GrammarNode::Choice(cs) => lemma_contains_nt_iff_names_list(cs@),
        GrammarNode::Optional(i) => lemma_contains_nt_iff_names(*i),
        GrammarNode::ZeroOrMore(i) => lemma_contains_nt_iff_names(*i),
        GrammarNode::OneOrMore(i) => lemma_contains_nt_iff_names(*i),
        GrammarNode::Token(i) => lemma_contains_nt_iff_names(*i),
        GrammarNode::TokenImmediate(i) => lemma_contains_nt_iff_names(*i),
        GrammarNode::Field(_, i) => lemma_contains_nt_iff_names(*i),
        GrammarNode::Alias(b, _) => lemma_contains_nt_iff_names(*b),
        GrammarNode::Prec(_, _, i) => lemma_contains_nt_iff_names(*i),
        GrammarNode::Reserved(_, i) => lemma_contains_nt_iff_names(*i),
        _ => {},
    }
}

/// List form of `lemma_contains_nt_iff_names`.
pub proof fn lemma_contains_nt_iff_names_list(cs: Seq<GrammarNode>)
    ensures
        contains_nt_list(cs) == (nt_names_list(cs).len() > 0),
    decreases cs,
{
    if cs.len() > 0 {
        lemma_contains_nt_iff_names(cs[0]);
        lemma_contains_nt_iff_names_list(cs.drop_first());
    }
}

/// A pure token is always a single step.
pub proof fn lemma_pure_token_is_atomic(n: GrammarNode)
    ensures
        pure_token(n) ==> atomic(n),
    decreases n,
{
    match n {
        GrammarNode::Token(i) => lemma_pure_token_is_atomic(*i),
        GrammarNode::TokenImmediate(i) => lemma_pure_token_is_atomic(*i),
        GrammarNode::Field(_, i) => lemma_pure_token_is_atomic(*i),
        GrammarNode::Alias(b, _) => lemma_pure_token_is_atomic(*b),
        GrammarNode::Prec(_, _, i) => lemma_pure_token_is_atomic(*i),
        GrammarNode::Reserved(_, i) => lemma_pure_token_is_atomic(*i),
        _ => {},
    }
}

/// A body that is itself a single step has single-step alternatives only.
pub proof fn lemma_atomic_is_single_choice(n: GrammarNode)
    ensures
        atomic(n) ==> single_choice(n),
    decreases n,
{
    match n {
        GrammarNode::Token(i) => lemma_atomic_is_single_choice(*i),
        GrammarNode::TokenImmediate(i) => lemma_atomic_is_single_choice(*i),
        GrammarNode::Field(_, i) => lemma_atomic_is_single_choice(*i),
        GrammarNode::Alias(b, _) => lemma_atomic_is_single_choice(*b),
        GrammarNode::Prec(_, _, i) => lemma_atomic_is_single_choice(*i),
        GrammarNode::Reserved(_, i) => lemma_atomic_is_single_choice(*i),
        _ => {},
    }
}

impl GrammarNode {
    /// Returns all non-terminal names referenced anywhere in this node's
    /// subtree, in order; only the body of an alias is traversed.
    pub fn nonterminal_names(&self) -> (r: Vec<&str>)
        ensures
            r@.map_values(|s: &str| s@) == nt_names(*self),
    {
        let mut names: Vec<&str> = Vec::new();
        self.collect_names(&mut names);
        assert(names@.map_values(|s: &str| s@) =~= seq![] + nt_names(*self));
        names
    }

    /// Appends the names of [`GrammarNode::nonterminal_names`] to `out`.
    fn collect_names<'a>(&'a self, out: &mut Vec<&'a str>)
        ensures
            final(out)@.map_values(|s: &str| s@) == old(out)@.map_values(|s: &str| s@) + nt_names(*self),
        decreases self,
    {
        match self {
            GrammarNode::NonTerminal(name) => {
                out.push(name.as_str());
                assert(out@.map_values(|s: &str| s@) =~= old(out)@.map_values(|s: &str| s@) + nt_names(*self));
            },
            GrammarNode::TerminalLiteral(_) | GrammarNode::TerminalPattern(_) => {
                assert(out@.map_values(|s: &str| s@) =~= old(out)@.map_values(|s: &str| s@) + nt_names(*self));
            },
            GrammarNode::Sequence(children) => Self::collect_names_list(children, out),
            GrammarNode::Choice(children) => Self::collect_names_list(children, out),
            GrammarNode::Optional(inner) => inner.collect_names(out),
            GrammarNode::ZeroOrMore(inner) => inner.collect_names(out),
            GrammarNode::OneOrMore(inner) => inner.collect_names(out),
            GrammarNode::Token(inner) => inner.collect_names(out),
            GrammarNode::TokenImmediate(inner) => inner.collect_names(out),
            GrammarNode::Field(_, inner) => inner.collect_names(out),
            GrammarNode::Alias(body, _) => body.collect_names(out),
            GrammarNode::Prec(_, _, inner) => inner.collect_names(out),
            GrammarNode::Reserved(_, inner) => inner.collect_names(out),
        }
    }

    /// Appends the names referenced by each of `children` to `out`.
    fn collect_names_list<'a>(children: &'a Vec<GrammarNode>, out: &mut Vec<&'a str>)
        ensures
            final(out)@.map_values(|s: &str| s@) == old(out)@.map_values(|s: &str| s@) + nt_names_list(children@),
        decreases children,
    {
        let mut i: usize = 0;
        assert(children@.skip(0) =~= children@);
        assert(old(out)@.map_values(|s: &str| s@) + nt_names_list(children@) =~= old(out)@.map_values(|s: &str| s@) + nt_names_list(children@));
        while i < children.len()
            invariant
                0 <= i <= children.len(),
                old(out)@.map_values(|s: &str| s@) + nt_names_list(children@)
                    == out@.map_values(|s: &str| s@) + nt_names_list(children@.skip(i as int)),
            decreases children.len() - i,
        {
            let ghost before = out@.map_values(|s: &str| s@);
            proof { assert(decreases_to!(*children => children[i as int])); }
            children[i].collect_names(out);
            proof {
                let rest = children@.skip(i as int);
                assert(rest[0] == children@[i as int]);
                assert(rest.drop_first() =~= children@.skip(i + 1));
                assert(before + nt_names_list(rest) =~= out@.map_values(|s: &str| s@) + nt_names_list(children@.skip(i + 1)));
            }
            i += 1;
        }
        assert(children@.skip(children@.len() as int) =~= seq![]);
        assert(out@.map_values(|s: &str| s@) + nt_names_list(seq![]) =~= out@.map_values(|s: &str| s@));
    }

    /// Whether some element of `children` contains a non-terminal.
    fn list_contains_nonterminal(children: &Vec<GrammarNode>) -> (r: bool)
        ensures
            r == contains_nt_list(children@),
        decreases children,
    {
        let mut i: usize = 0;
        assert(children@.skip(0) =~= children@);
        while i < children.len()
            invariant
                0 <= i <= children.len(),
                contains_nt_list(children@) == contains_nt_list(children@.skip(i as int)),
            decreases children.len() - i,
        {
            proof {
                assert(decreases_to!(*children => children[i as int]));
                assert(children@.skip(i as int)[0] == children@[i as int]);
                assert(children@.skip(i as int).drop_first() =~= children@.skip(i + 1));
            }
            if children[i].contains_nonterminal() {
                return true;
            }
            i += 1;
        }
        false
    }

    /// Returns `true` if this node or any descendant is a non-terminal
    /// (the name child of an alias does not count).
    pub fn contains_nonterminal(&self) -> (r: bool)
        ensures
            r == contains_nt(*self),
        decreases self,
    {
        match self {
            GrammarNode::NonTerminal(_) => true,
            GrammarNode::TerminalLiteral(_) | GrammarNode::TerminalPattern(_) => false,
            GrammarNode::Sequence(children) => Self::list_contains_nonterminal(children),
            GrammarNode::Choice(children) => Self::list_contains_nonterminal(children),
            GrammarNode::Optional(inner) => inner.contains_nonterminal(),
            GrammarNode::ZeroOrMore(inner) => inner.contains_nonterminal(),
            GrammarNode::OneOrMore(inner) => inner.contains_nonterminal(),
            GrammarNode::Token(inner) => inner.contains_nonterminal(),
            GrammarNode::TokenImmediate(inner) => inner.contains_nonterminal(),
            GrammarNode::Field(_, inner) => inner.contains_nonterminal(),
            GrammarNode::Alias(body, _) => body.contains_nonterminal(),
            GrammarNode::Prec(_, _, inner) => inner.contains_nonterminal(),
            GrammarNode::Reserved(_, inner) => inner.contains_nonterminal(),
        }
    }

    /// Returns `true` if this node reduces to a bare terminal, possibly
    /// wrapped in transparent annotations.
    pub fn is_pure_token(&self) -> (r: bool)
        ensures
            r == pure_token(*self),
        decreases self,
    {
        match self {
            GrammarNode::TerminalLiteral(_) | GrammarNode::TerminalPattern(_) => true,
            GrammarNode::Token(inner) => inner.is_pure_token(),
            GrammarNode::TokenImmediate(inner) => inner.is_pure_token(),
            GrammarNode::Field(_, inner) => inner.is_pure_token(),
            GrammarNode::Alias(inner, _) => inner.is_pure_token(),
            GrammarNode::Prec(_, _, inner) => inner.is_pure_token(),
            GrammarNode::Reserved(_, inner) => inner.is_pure_token(),
            _ => false,
        }
    }

    /// Returns `true` if this node occupies exactly one step within its
    /// enclosing alternative.
    pub fn is_atomic_node(&self) -> (r: bool)
        ensures
            r == atomic(*self),
        decreases self,
    {
        match self {
            GrammarNode::TerminalLiteral(_)
            | GrammarNode::TerminalPattern(_)
            | GrammarNode::NonTerminal(_)
            | GrammarNode::Optional(_)
            | GrammarNode::OneOrMore(_)
            | GrammarNode::ZeroOrMore(_) => true,
            GrammarNode::Token(inner) => inner.is_atomic_node(),
            GrammarNode::TokenImmediate(inner) => inner.is_atomic_node(),
            GrammarNode::Field(_, inner) => inner.is_atomic_node(),
            GrammarNode::Alias(inner, _) => inner.is_atomic_node(),
            GrammarNode::Prec(_, _, inner) => inner.is_atomic_node(),
            GrammarNode::Reserved(_, inner) => inner.is_atomic_node(),
            _ => false,
        }
    }

    /// Returns `true` if every alternative of this production body has
    /// exactly one step.
    pub fn single_choice_options(&self) -> (r: bool)
        ensures
            r == single_choice(*self),
        decreases self,
    {
        match self {
            GrammarNode::Token(inner) => inner.single_choice_options(),
            GrammarNode::TokenImmediate(inner) => inner.single_choice_options(),
            GrammarNode::Field(_, inner) => inner.single_choice_options(),
            GrammarNode::Alias(inner, _) => inner.single_choice_options(),
            GrammarNode::Prec(_, _, inner) => inner.single_choice_options(),
            GrammarNode::Reserved(_, inner) => inner.single_choice_options(),
            GrammarNode::Choice(children) => {
                let mut i: usize = 0;
                while i < children.len()
                    invariant
                        0 <= i <= children.len(),
                        forall|j: int| 0 <= j < i ==> atomic(#[trigger] children@[j]),
                        single_choice(*self) == all_atomic(children@),
                    decreases children.len() - i,
                {
                    if !children[i].is_atomic_node() {
                        return false;
                    }
                    i += 1;
                }
                true
            },
            _ => self.is_atomic_node(),
        }
    }

    /// The `grammar.js` renderings of each of `children`.
    fn js_parts(children: &Vec<GrammarNode>) -> (r: Vec<String>)
        ensures
            views(r@) == js_list(children@),
        decreases children,
    {
        let mut parts: Vec<String> = Vec::new();
        let mut i: usize = 0;
        assert(children@.skip(0) =~= children@);
        while i < children.len()
            invariant
                0 <= i <= children.len(),
                views(parts@) + js_list(children@.skip(i as int)) == js_list(children@),
            decreases children.len() - i,
        {
            proof { assert(decreases_to!(*children => children[i as int])); }
            let s = children[i].to_js();
            proof {
                let rest = children@.skip(i as int);
                assert(rest[0] == children@[i as int]);
                assert(rest.drop_first() =~= children@.skip(i + 1));
                assert(views(parts@.push(s)) =~= views(parts@).push(s@));
                assert(views(parts@) + js_list(rest) =~= views(parts@).push(s@) + js_list(children@.skip(i + 1)));
            }
            parts.push(s);
            i += 1;
        }
        assert(children@.skip(children@.len() as int) =~= seq![]);
        assert(views(parts@) + js_list(seq![]) =~= views(parts@));
        parts
    }

    /// The `grammar.js` rendering of this node, e.g. `seq($.a, repeat('x'))`.
    pub fn to_js(&self) -> (r: String)
        ensures
            r@ == js(*self),
        decreases self,
    {
        match self {
            GrammarNode::Sequence(children) => {
                let parts = Self::js_parts(children);
                let mut out = String::from_str("seq(");
                out.append(join_strings(&parts, ", ").as_str());
                out.append(")");
                out
            },
            GrammarNode::Choice(children) => {
                let parts = Self::js_parts(children);
                let mut out = String::from_str("choice(");
                out.append(join_strings(&parts, ", ").as_str());
                out.append(")");
                out
            },
            GrammarNode::TerminalLiteral(l) => l.clone(),
            GrammarNode::TerminalPattern(p) => p.clone(),
            GrammarNode::NonTerminal(nt) => {
                let mut out = String::from_str("$.");
                out.append(nt.as_str());
                out
            },
            GrammarNode::ZeroOrMore(inner) => wrap_call("repeat(", inner.to_js()),
            GrammarNode::OneOrMore(inner) => wrap_call("repeat1(", inner.to_js()),
            GrammarNode::Optional(inner) => wrap_call("optional(", inner.to_js()),
            GrammarNode::Token(inner) => wrap_call("token(", inner.to_js()),
            GrammarNode::TokenImmediate(inner) => wrap_call("token.immediate(", inner.to_js()),
            GrammarNode::Field(name, inner) => {
                let mut out = String::from_str("field('");
                out.append(name.as_str());
                out.append("', ");
                out.append(inner.to_js().as_str());
                out.append(")");
                out
            },
            GrammarNode::Alias(body, name) => {
                let mut out = String::from_str("alias(");
                out.append(body.to_js().as_str());
                out.append(", ");
                out.append(name.to_js().as_str());
                out.append(")");
                out
            },
            GrammarNode::Prec(kind, level, inner) => {
                let mut out = String::from_str(kind.as_str());
                out.append("(");
                match level {
                    Some(n) => {
                        out.append(n.to_text().as_str());
                        out.append(", ");
                    },
                    None => {},
                }
                out.append(inner.to_js().as_str());
                out.append(")");
                out
            },
            GrammarNode::Reserved(name, inner) => {
                let mut out = String::from_str("reserved('");
                out.append(name.as_str());
                out.append("', ");
                out.append(inner.to_js().as_str());
                out.append(")");
                out
            },
        }
    }
}

/// `open` followed by `inner` and a closing parenthesis.
fn wrap_call(open: &str, inner: String) -> (r: String)
    ensures
        r@ == open@ + inner@ + ")"@,
{
    let mut out = String::from_str(open);
    out.append(inner.as_str());
    out.append(")");
    out
}

} // verus!
