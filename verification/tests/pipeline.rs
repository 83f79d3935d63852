use iguana::grammar::def::{Alternative, GrammarDef, LexicalRule, PriorityLevel, SyntaxRule};
use iguana::grammar::pipeline::build_grammar;
use iguana::grammar::regex::Regex;
use iguana::grammar::symbols::{DefinitionId, Identifier, Nonterminal, Symbol, Terminal};
use iguana::validation::validate;

fn id(name: &str) -> Symbol {
    Symbol::Identifier(Identifier::new(name))
}

fn lit(text: &str) -> Symbol {
    Symbol::Literal(text.to_string())
}

fn rule(name: &str, alternatives: Vec<Vec<Symbol>>) -> SyntaxRule {
    SyntaxRule::new(
        Nonterminal::new(name),
        vec![PriorityLevel::new(
            alternatives
                .into_iter()
                .map(|symbols| Alternative { symbols, label: None })
                .collect(),
        )],
    )
}

fn definition(name: &str, syntax_rules: Vec<SyntaxRule>, lexical_rules: Vec<LexicalRule>, layout: Option<Symbol>) -> GrammarDef {
    GrammarDef { name: name.to_string(), syntax_rules, lexical_rules, layout, identifier_rules: Vec::new() }
}

fn production_names(grammar: &iguana::grammar::pipeline::Grammar) -> Vec<String> {
    grammar.productions.iter().map(|(nt, _)| nt.name.clone()).collect()
}

#[test]
fn a_grammar_gets_terminals_for_literals_and_a_start_wrapper_per_rule() {
    let def = definition(
        "G",
        vec![
            rule("S", vec![vec![lit("a"), id("B")]]),
            rule("B", vec![vec![lit("b")], vec![id("C")]]),
            rule("C", vec![vec![]]),
        ],
        vec![],
        None,
    )
    .resolve();
    let grammar = build_grammar(def, &vec![]).unwrap();
    assert_eq!(grammar.name, "G");
    assert_eq!(production_names(&grammar), vec!["S", "B", "C", "StartS", "StartB", "StartC"]);
    let lexical: Vec<&str> = grammar.lexical_rules.iter().map(|r| r.head.name.as_str()).collect();
    assert_eq!(lexical, vec!["\"a\"", "\"b\""]);
    let starts: Vec<(&str, &str)> =
        grammar.start_nonterminals.iter().map(|(a, b)| (a.as_str(), b.as_str())).collect();
    assert_eq!(starts, vec![("S", "StartS"), ("B", "StartB"), ("C", "StartC")]);
    let order: Vec<(&str, u16)> = grammar.source_order.iter().map(|(a, i)| (a.as_str(), *i)).collect();
    assert_eq!(order, vec![("S", 0), ("B", 1), ("C", 2)]);
    assert_eq!(grammar.definitions.len(), 5);
    assert_eq!(grammar.symbol_table.get("S"), Some(DefinitionId(2)));
    assert_eq!(grammar.symbol_table.get("\"b\""), Some(DefinitionId(1)));
    // B keeps its two alternatives; the literal became a resolved reference.
    let (_, b_alternatives) = &grammar.productions[1];
    assert_eq!(b_alternatives.len(), 2);
    match &b_alternatives[0].symbols[0] {
        Symbol::Identifier(reference) => {
            assert_eq!(reference.name, "\"b\"");
            assert_eq!(reference.definition, Some(DefinitionId(1)));
        }
        other => panic!("unexpected symbol {:?}", other),
    }
    // StartS = start:S
    let (start_s, start_alternatives) = &grammar.productions[3];
    assert!(start_s.origin.is_some());
    assert_eq!(start_alternatives.len(), 1);
    match &start_alternatives[0].symbols[..] {
        [Symbol::Labeled { label, symbol }] => {
            assert_eq!(label, "start");
            match &**symbol {
                Symbol::Identifier(reference) => {
                    assert_eq!(reference.name, "S");
                    assert_eq!(reference.definition, Some(DefinitionId(2)));
                }
                other => panic!("unexpected symbol {:?}", other),
            }
        }
        other => panic!("unexpected symbols {:?}", other),
    }
}

#[test]
fn the_layout_rule_gets_no_start_wrapper_and_surrounds_the_others() {
    let def = definition(
        "G",
        vec![rule("S", vec![vec![id("A")]]), rule("L", vec![vec![]])],
        vec![LexicalRule::new(Terminal::new("A"), Regex::char('a'))],
        Some(id("L")),
    )
    .resolve();
    let grammar = build_grammar(def, &vec![]).unwrap();
    assert_eq!(production_names(&grammar), vec!["S", "L", "StartS"]);
    let starts: Vec<(&str, &str)> =
        grammar.start_nonterminals.iter().map(|(a, b)| (a.as_str(), b.as_str())).collect();
    assert_eq!(starts, vec![("S", "StartS")]);
    match &grammar.layout {
        Some(Symbol::Identifier(reference)) => assert_eq!(reference.definition, Some(DefinitionId(2))),
        other => panic!("unexpected layout {:?}", other),
    }
    let (_, start_alternatives) = &grammar.productions[2];
    let symbols = &start_alternatives[0].symbols;
    assert_eq!(symbols.len(), 3);
    assert!(matches!(&symbols[0], Symbol::Identifier(r) if r.name == "L"));
    assert!(matches!(&symbols[1], Symbol::Labeled { label, .. } if label == "start"));
    assert!(matches!(&symbols[2], Symbol::Identifier(r) if r.name == "L"));
}

#[test]
fn ebnf_rules_are_expanded_and_get_no_start_wrapper() {
    let def = definition(
        "G",
        vec![rule("S", vec![vec![Symbol::Star(Box::new(id("A")), None)]])],
        vec![LexicalRule::new(Terminal::new("A"), Regex::char('a'))],
        None,
    )
    .resolve();
    let grammar = build_grammar(def, &vec![]).unwrap();
    let names = production_names(&grammar);
    assert!(names.len() > 2);
    assert_eq!(names[0], "S");
    assert_eq!(names[names.len() - 1], "StartS");
    assert_eq!(names.iter().filter(|n| n.starts_with("Start")).count(), 1);
    let starts: Vec<(&str, &str)> =
        grammar.start_nonterminals.iter().map(|(a, b)| (a.as_str(), b.as_str())).collect();
    assert_eq!(starts, vec![("S", "StartS")]);
}

#[test]
fn inlining_errors_stop_the_build() {
    let mut identifier = LexicalRule::new(Terminal::new("Identifier"), Regex::plus(Regex::range('a', 'z')));
    identifier.except = vec![Identifier::new("Keyword")];
    let keyword = LexicalRule::new(Terminal::new("Keyword"), Regex::char('k'));
    let foo = LexicalRule::new(
        Terminal::new("Foo"),
        Regex::seq(vec![Regex::Identifier(Identifier::new("Identifier")), Regex::Identifier(Identifier::new("Identifier"))]),
    );
    let def = definition("G", vec![rule("S", vec![vec![id("Foo")]])], vec![identifier, keyword, foo], None).resolve();
    let errors = build_grammar(def, &vec![]).err().unwrap();
    assert_eq!(
        errors,
        vec![
            "`Foo` references `Identifier` inside a larger regex, but `Identifier` carries \
             restrictions (\\ Keyword) that apply to its whole match; reference it \
             as the only symbol of a rule, or inline its definition"
                .to_string()
        ]
    );
}

#[test]
fn to_grammar_reports_validation_errors_first() {
    let def = definition("G", vec![rule("S", vec![vec![id("Missing")]])], vec![], None);
    let expected = validate(&definition("G", vec![rule("S", vec![vec![id("Missing")]])], vec![], None).resolve(), "GParser", "GParseTreeBuilder");
    assert!(!expected.is_empty());
    let errors = def.to_grammar("GParser", "GParseTreeBuilder", &vec![]).err().unwrap();
    assert_eq!(errors, expected);
}

#[test]
fn to_grammar_builds_a_valid_definition() {
    let def = definition("G", vec![rule("S", vec![vec![lit("a")]])], vec![], None);
    let grammar = def.to_grammar("GParser", "GParseTreeBuilder", &vec![]).unwrap();
    assert_eq!(production_names(&grammar), vec!["S", "StartS"]);
}

#[test]
fn a_built_grammar_answers_questions_about_its_rules() {
    let def = definition(
        "G",
        vec![rule("S", vec![vec![lit("a"), id("B")]]), rule("B", vec![vec![lit("b")]])],
        vec![],
        None,
    )
    .resolve();
    let grammar = build_grammar(def, &vec![]).unwrap();
    assert_eq!(grammar.count_nonterminals(), 4);
    assert_eq!(grammar.source_index("B"), 1);
    assert_eq!(grammar.source_index("StartB"), u16::MAX);
    let s = grammar.nonterminal("S").unwrap();
    assert!(!grammar.is_start(s));
    let start_s = grammar.start_nonterminal(s).unwrap();
    assert_eq!(start_s.name, "StartS");
    assert!(grammar.is_start(start_s));
    assert!(grammar.start_nonterminal(start_s).is_none());
    assert_eq!(grammar.alternatives(s).unwrap().len(), 1);
    assert!(grammar.nonterminal("Missing").is_none());
    let b = grammar.terminal("\"b\"").unwrap();
    assert_eq!(grammar.lexical_rule(b).unwrap().head.name, "\"b\"");
    assert!(grammar.terminal("\"c\"").is_none());
    let reference = Identifier { name: "\"b\"".to_string(), definition: Some(DefinitionId(1)) };
    assert!(grammar.is_terminal(&reference));
    let to_s = Identifier { name: "S".to_string(), definition: Some(DefinitionId(2)) };
    assert!(!grammar.is_terminal(&to_s));
    match grammar.definition(DefinitionId(3)) {
        iguana::grammar::symbols::Definition::Nonterminal(nt) => assert_eq!(nt.name, "B"),
        _ => panic!("expected a nonterminal"),
    }
}
