# ts_bnf_tool

Analysis, checking and re-emission of BNF grammars written for tree-sitter,
as a library whose behaviour is stated in Verus contracts and proved.

- `src/` — the verified library: the grammar model (`nodes`, `production`,
  `directive`, `types`, `rules`), building a grammar from the top-level
  items of a source (`assemble`), the static checks (`checks`), analyses
  (`analysis`, `summary`, `kinds`, `ast`, `graph`), rewriting (`rename`),
  printers (`format`, `scaffold`, `railroad`, `visitor`), the merge
  configuration check (`merge`), the recorded settings of a scaffolded
  crate (`scaffold_config`) and small text helpers (`text`, `util`,
  `chars`, `nameset`, `cli`).
- `tests/` — tests run against the compiled library.
- `app/` — the command-line program: argument parsing, files, JSON and TOML,
  drawing diagrams with the `railroad` crate, and running `dot` and
  `tree-sitter`.

The command-line program in `app/` has no BNF reader: turning grammar text
into a `Grammar` needs the tree-sitter BNF parser, which this
build does not link. Every subcommand that starts from a grammar file
therefore stops with an error saying so; the analyses, checks and printers
are reached through the library, on grammars built with its own types
(rules and directives, assembled by `assemble`).
