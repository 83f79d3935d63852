use iguana::grammar::def::{Alternative, LexicalRule, PriorityLevel, SyntaxRule};
use iguana::grammar::first::first_sets;
use iguana::grammar::nullable::nullable_rules;
use iguana::grammar::regex::Regex;
use iguana::grammar::symbols::{Identifier, Nonterminal, Symbol, Terminal};

fn id(name: &str) -> Symbol {
    Symbol::Identifier(Identifier::new(name))
}

fn rule(name: &str, alternatives: Vec<Vec<Symbol>>) -> SyntaxRule {
    SyntaxRule::new(
        Nonterminal::new(name),
        vec![PriorityLevel::new(
            alternatives
                .into_iter()
                .map(|symbols| Alternative { symbols, label: None })
                .collect(),
        )],
    )
}

fn keyword(text: &str) -> LexicalRule {
    let regex = Regex::Sequence(text.chars().map(Regex::Char).collect());
    LexicalRule::new(Terminal::new(&format!("\"{text}\"")), regex)
}

fn quoted(text: &str) -> Symbol {
    id(&format!("\"{text}\""))
}

/// The names of the terminals marked in a row.
fn names(row: &[bool], lexical: &[LexicalRule]) -> Vec<String> {
    row.iter()
        .zip(lexical)
        .filter(|(marked, _)| **marked)
        .map(|(_, rule)| rule.head.name.clone())
        .collect()
}

#[test]
fn expression_grammar_first_sets() {
    let lexical = vec![keyword("("), keyword(")"), keyword("+"), keyword("*"), keyword("id")];
    let rules = vec![
        rule("E", vec![vec![id("T"), id("Ep")]]),
        rule("Ep", vec![vec![quoted("+"), id("T"), id("Ep")], vec![]]),
        rule("T", vec![vec![id("F"), id("Tp")]]),
        rule("Tp", vec![vec![quoted("*"), id("F"), id("Tp")], vec![]]),
        rule("F", vec![vec![quoted("("), id("E"), quoted(")")], vec![quoted("id")]]),
    ];
    let nullables = nullable_rules(&rules, &lexical);
    assert_eq!(nullables, vec![false, true, false, true, false]);
    let first = first_sets(&rules, &lexical, &nullables);
    assert_eq!(names(&first[0], &lexical), vec!["\"(\"", "\"id\""]);
    assert_eq!(names(&first[1], &lexical), vec!["\"+\""]);
    assert_eq!(names(&first[2], &lexical), vec!["\"(\"", "\"id\""]);
    assert_eq!(names(&first[3], &lexical), vec!["\"*\""]);
    assert_eq!(names(&first[4], &lexical), vec!["\"(\"", "\"id\""]);
}

#[test]
fn first_sets_look_past_nullable_symbols_only() {
    // S = A "b" C; A = "a" | ; C = "c"; L = "l" ...
    let lexical = vec![keyword("a"), keyword("b"), keyword("c")];
    let rules = vec![
        rule("S", vec![vec![id("A"), quoted("b"), id("C")]]),
        rule("A", vec![vec![quoted("a")], vec![]]),
        rule("C", vec![vec![quoted("c")]]),
        rule("G", vec![vec![Symbol::Group(vec![id("A"), id("C")]), quoted("b")]]),
        rule("O", vec![vec![Symbol::Alt(vec![quoted("b"), Symbol::Condition(iguana::grammar::symbols::Expr::Int(1))]), id("C")]]),
        rule("L", vec![vec![Symbol::Literal("\"a\"".to_string())]]),
    ];
    let nullables = nullable_rules(&rules, &lexical);
    assert_eq!(nullables, vec![false, true, false, false, false, false]);
    let first = first_sets(&rules, &lexical, &nullables);
    assert_eq!(names(&first[0], &lexical), vec!["\"a\"", "\"b\""]);
    assert_eq!(names(&first[1], &lexical), vec!["\"a\""]);
    assert_eq!(names(&first[3], &lexical), vec!["\"a\"", "\"c\""]);
    assert_eq!(names(&first[4], &lexical), vec!["\"b\"", "\"c\""]);
    assert_eq!(names(&first[5], &lexical), vec!["\"a\""]);
}

#[test]
fn left_recursion_reaches_the_fixpoint() {
    // E = E "+" N | N; N = "n"
    let lexical = vec![keyword("+"), keyword("n")];
    let rules = vec![
        rule("E", vec![vec![id("E"), quoted("+"), id("N")], vec![id("N")]]),
        rule("N", vec![vec![quoted("n")]]),
    ];
    let nullables = nullable_rules(&rules, &lexical);
    let first = first_sets(&rules, &lexical, &nullables);
    assert_eq!(names(&first[0], &lexical), vec!["\"n\""]);
    assert_eq!(names(&first[1], &lexical), vec!["\"n\""]);
}
