# iguana

The grammar front end of the Iguana parser generator, verified with Verus:
the grammar definitions of the `iggy` language, the transformations that turn
them into a parser-ready grammar, and the checks that report grammar errors.

Every type has a mathematical view (`Spec*` types over `Seq`, `Seq<char>` and
integers), and every public function states its result over those views.

Layout of `src/`:

- `grammar/def.rs`, `grammar/symbols.rs`, `grammar/regex.rs`: syntax and
  lexical rules, symbols, expressions and regexes, with their views.
- `grammar/resolve.rs`: the symbol table, reference resolution, start rules.
- `grammar/visit.rs`, `grammar/render.rs`, `grammar/equality.rs`: preorder
  walks, the text of symbols and expressions, structural equality.
- `grammar/literals.rs`: string literals become terminals with lexical rules.
- `grammar/lexical.rs`, `grammar/regex_inlining.rs`: lexical restrictions and
  the inlining of references between lexical rules.
- `grammar/reachability.rs`, `grammar/nullable.rs`, `grammar/first.rs`: the
  analyses of a grammar's rules: which rules each rule reaches, which rules
  derive the empty string, and the terminals that can begin each rule, each
  computed to its fixpoint and stated as the limit of its rounds.
- `grammar/transformations/`: EBNF to BNF, exact keyword matching, exclusion
  desugaring, precedence desugaring, layout insertion, return values.
- `grammar/pipeline.rs`: the whole pipeline, `build_grammar` and
  `GrammarDef::to_grammar` (which validates first): the passes composed in
  order, with re-resolution between them, the final symbol table, layout
  insertion, start wrappers and productions; and the `Grammar` it builds.
- `validation.rs`: every error of a resolved grammar definition.
- `tree.rs`: the parse-tree nodes of an `iggy` grammar, each token held as
  its source text.
- `iggy.rs`: character escapes of `iggy` literals, and the grammar definition
  a parse tree stands for (symbols, regexes, rules, the layout rule).
- `lsp/`: the formatter (canonical text of symbols, regexes and rules, line
  wrapping, label alignment), document positions and formatting edits,
  definitions under the cursor.
- `utils.rs`, `text.rs`: case conversions and string helpers.

Public proof functions state the laws of the library, for example that the
EBNF transformation leaves only BNF rules, that exclusion desugaring leaves no
bare reference to an excluded rule, that inlining leaves no reference between
lexical rules, and that a rule whose whole body is a reference inherits the
restrictions of the rule it names; that the EBNF rewrite remembers a symbol
under a layout and names each new rule afresh; that line wrapping is greedy,
keeps to the width and cuts the chunks into consecutive runs; that snake case
only inserts underscores and lowercases ASCII letters; that reaching one
rule from another is transitive; and that labels of a formatted rule share
one column.
