use iguana::grammar::def::{Alternative, LexicalRule, PriorityLevel, SyntaxRule};
use iguana::grammar::nullable::{alternative_is_nullable, nullable_rules};
use iguana::grammar::regex::Regex;
use iguana::grammar::symbols::{Identifier, Nonterminal, Symbol, Terminal};

fn id(name: &str) -> Symbol {
    Symbol::Identifier(Identifier::new(name))
}

fn lit(text: &str) -> Symbol {
    Symbol::Literal(text.to_string())
}

fn rule(name: &str, alternatives: Vec<Vec<Symbol>>) -> SyntaxRule {
    SyntaxRule::new(
        Nonterminal::new(name),
        vec![PriorityLevel::new(
            alternatives
                .into_iter()
                .map(|symbols| Alternative { symbols, label: None })
                .collect(),
        )],
    )
}

fn lexical(name: &str, regex: Regex) -> LexicalRule {
    LexicalRule::new(Terminal::new(name), regex)
}

#[test]
fn expression_grammar_has_two_nullable_rules() {
    // E = T Ep; Ep = "+" T Ep | ; T = F Tp; Tp = "*" F Tp | ; F = "(" E ")" | "id"
    let rules = vec![
        rule("E", vec![vec![id("T"), id("Ep")]]),
        rule("Ep", vec![vec![lit("+"), id("T"), id("Ep")], vec![]]),
        rule("T", vec![vec![id("F"), id("Tp")]]),
        rule("Tp", vec![vec![lit("*"), id("F"), id("Tp")], vec![]]),
        rule("F", vec![vec![lit("("), id("E"), lit(")")], vec![lit("id")]]),
    ];
    let nullables = nullable_rules(&rules, &vec![]);
    assert_eq!(nullables, vec![false, true, false, true, false]);
}

#[test]
fn nullability_spreads_over_several_rounds() {
    // A = B C; B = D; C = D?; D = ;
    let rules = vec![
        rule("A", vec![vec![id("B"), id("C")]]),
        rule("B", vec![vec![id("D")]]),
        rule("C", vec![vec![Symbol::Opt(Box::new(id("X")))]]),
        rule("D", vec![vec![]]),
        rule("X", vec![vec![id("X"), lit("x")]]),
    ];
    let nullables = nullable_rules(&rules, &vec![]);
    assert_eq!(nullables, vec![true, true, true, true, false]);
}

#[test]
fn a_terminal_is_nullable_when_its_regex_matches_nothing() {
    let lexical_rules = vec![
        lexical("Spaces", Regex::Star(Box::new(Regex::Char(' ')))),
        lexical("Digits", Regex::Plus(Box::new(Regex::CharRange(iguana::grammar::regex::CharRange { start: '0', end: '9' })))),
    ];
    let rules = vec![
        rule("S", vec![vec![id("Spaces")]]),
        rule("N", vec![vec![id("Digits")]]),
        rule("M", vec![vec![id("Spaces"), id("Digits")], vec![lit("m")]]),
    ];
    let nullables = nullable_rules(&rules, &lexical_rules);
    assert_eq!(nullables, vec![true, false, false]);
}

#[test]
fn choices_conditions_and_plus_follow_their_symbols() {
    // P = (D | "p")+; Q = ("q" | "r"); D = ;
    let rules = vec![
        rule("P", vec![vec![Symbol::Plus(Box::new(Symbol::Alt(vec![id("D"), lit("p")])), None)]]),
        rule("Q", vec![vec![Symbol::Alt(vec![lit("q"), lit("r")])]]),
        rule("D", vec![vec![]]),
    ];
    let nullables = nullable_rules(&rules, &vec![]);
    assert_eq!(nullables, vec![true, false, true]);
    let alternative = Alternative { symbols: vec![id("D"), Symbol::Star(Box::new(lit("s")), None)], label: None };
    assert!(alternative_is_nullable(&rules, &vec![], &nullables, &alternative));
    let alternative = Alternative { symbols: vec![id("D"), id("Q")], label: None };
    assert!(!alternative_is_nullable(&rules, &vec![], &nullables, &alternative));
}
