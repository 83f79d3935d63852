use iguana::grammar::def::{Alternative, LayoutStrategy, LexicalRule, PriorityLevel, SyntaxRule};
use iguana::grammar::regex::{CharRange, Regex};
use iguana::grammar::resolve::{create_symbol_table, SymbolTable};
use iguana::grammar::symbols::{Identifier, Nonterminal, Restrictions, Symbol, Terminal};
use iguana::grammar::transformations::exact_keyword_match::{transform, Dfa, DfaState};

/// `Id = [a-z][a-z0-9]*`.
fn identifier_rule() -> LexicalRule {
    LexicalRule::new(
        Terminal::new("Id"),
        Regex::seq(vec![
            Regex::range('a', 'z'),
            Regex::star(Regex::alt(vec![Regex::range('a', 'z'), Regex::range('0', '9')])),
        ]),
    )
}

/// The automaton of `[a-z][a-z0-9]*`: state 0 starts, state 1 accepts and
/// loops on letters and digits.
fn identifier_dfa() -> Dfa {
    let letters = CharRange { start: 'a', end: 'z' };
    let digits = CharRange { start: '0', end: '9' };
    Dfa {
        states: vec![
            DfaState { transitions: vec![(letters, 1)], accept: None },
            DfaState { transitions: vec![(letters, 1), (digits, 1)], accept: Some(0) },
        ],
    }
}

fn literal_rule(text: &str) -> LexicalRule {
    LexicalRule::new(Terminal::literal(text), Regex::literal(text))
}

fn refer(name: &str, table: &SymbolTable) -> Symbol {
    Symbol::Identifier(Identifier { name: name.to_string(), definition: table.get(name) })
}

fn start_rule() -> SyntaxRule {
    SyntaxRule::new(
        Nonterminal::new("S"),
        vec![PriorityLevel::new(vec![Alternative { symbols: vec![], label: None }])],
    )
}

/// Builds `S = <symbols>` with references resolved against `lexical`, and
/// runs the transform with the given automata.
fn run_transform(
    symbols: impl Fn(&SymbolTable) -> Vec<Symbol>,
    lexical: Vec<LexicalRule>,
    dfas: Vec<Dfa>,
) -> (Vec<SyntaxRule>, Vec<LexicalRule>) {
    let mut rules = vec![start_rule()];
    let (definitions, table) = create_symbol_table(&rules, &lexical);
    rules[0].priority_levels[0].alternatives[0].symbols = symbols(&table);
    transform(rules, lexical, &definitions, &dfas)
}

fn first_symbol(rules: &[SyntaxRule]) -> &Symbol {
    &rules[0].priority_levels[0].alternatives[0].symbols[0]
}

fn names(ids: &[Identifier]) -> Vec<&str> {
    ids.iter().map(|id| id.name.as_str()).collect()
}

fn restrictions(symbol: &Symbol) -> &Restrictions {
    match symbol {
        Symbol::Restricted { restrictions, .. } => restrictions,
        other => panic!("expected a restricted symbol, got {other:?}"),
    }
}

fn follow(symbol: Symbol, operand: &str) -> Symbol {
    let mut restrictions = Restrictions::new();
    restrictions.follow.push(Identifier::new(operand));
    Symbol::Restricted { symbol: Box::new(symbol), restrictions }
}

#[test]
fn keywords_get_the_pair_and_share_one_operand_rule() {
    let (out, lexical) = run_transform(
        |table| vec![refer("\"else\"", table), refer("\"if\"", table)],
        vec![identifier_rule(), literal_rule("else"), literal_rule("if")],
        vec![identifier_dfa()],
    );
    for symbol in &out[0].priority_levels[0].alternatives[0].symbols {
        let restrictions = restrictions(symbol);
        assert_eq!(names(&restrictions.precede), ["[0-9 a-z]"]);
        assert_eq!(names(&restrictions.follow), ["[0-9 a-z]"]);
    }
    assert_eq!(lexical.len(), 4);
    assert_eq!(lexical[3].head.name, "[0-9 a-z]");
    assert_eq!(lexical[3].regex.to_string(), "[0-9 a-z]");
}

#[test]
fn derived_restrictions_merge_after_the_authors() {
    let (out, _) = run_transform(
        |table| vec![follow(refer("\"else\"", table), "X")],
        vec![identifier_rule(), literal_rule("else")],
        vec![identifier_dfa()],
    );
    let restrictions = restrictions(first_symbol(&out));
    assert_eq!(names(&restrictions.follow), ["X", "[0-9 a-z]"]);
    assert_eq!(names(&restrictions.precede), ["[0-9 a-z]"]);
}

#[test]
fn literals_nested_in_ebnf_symbols_are_rewritten() {
    let (out, _) = run_transform(
        |table| vec![Symbol::Opt(Box::new(refer("\"else\"", table)))],
        vec![identifier_rule(), literal_rule("else")],
        vec![identifier_dfa()],
    );
    let Symbol::Opt(inner) = first_symbol(&out) else {
        panic!("expected Opt");
    };
    assert_eq!(names(&restrictions(inner).follow), ["[0-9 a-z]"]);
}

#[test]
fn non_identifier_shaped_literals_stay_untouched() {
    let (out, lexical) = run_transform(
        |table| vec![refer("\"++\"", table)],
        vec![identifier_rule(), literal_rule("++")],
        vec![identifier_dfa()],
    );
    assert!(matches!(first_symbol(&out), Symbol::Identifier(_)));
    assert_eq!(lexical.len(), 2, "no operand rule should be synthesized");
}

#[test]
fn nonterminal_and_terminal_references_stay_untouched() {
    let (out, _) = run_transform(
        |table| vec![refer("Id", table), refer("S", table)],
        vec![identifier_rule(), literal_rule("else")],
        vec![identifier_dfa()],
    );
    let symbols = &out[0].priority_levels[0].alternatives[0].symbols;
    assert!(symbols.iter().all(|s| matches!(s, Symbol::Identifier(_))));
}

#[test]
fn without_identifier_rules_the_grammar_is_unchanged() {
    let (out, lexical) = run_transform(
        |table| vec![refer("\"else\"", table)],
        vec![identifier_rule(), literal_rule("else")],
        vec![],
    );
    assert!(matches!(first_symbol(&out), Symbol::Identifier(_)));
    assert_eq!(lexical.len(), 2);
}

#[test]
fn literals_in_no_layout_rules_stay_untouched() {
    let lexical = vec![identifier_rule(), literal_rule("go")];
    let mut rules = vec![start_rule()];
    let (definitions, table) = create_symbol_table(&rules, &lexical);
    rules[0].priority_levels[0].alternatives[0].symbols = vec![refer("\"go\"", &table)];
    rules[0].layout = LayoutStrategy::NoLayout;
    let (out, lexical) = transform(rules, lexical, &definitions, &vec![identifier_dfa()]);
    assert!(matches!(first_symbol(&out), Symbol::Identifier(_)));
    assert_eq!(lexical.len(), 2, "no operand rule should be synthesized");
}

#[test]
fn empty_precede_class_inserts_only_the_follow_restriction() {
    let letters = CharRange { start: 'a', end: 'z' };
    let digits = CharRange { start: '0', end: '9' };
    let dfa = Dfa {
        states: vec![
            DfaState { transitions: vec![(letters, 1)], accept: None },
            DfaState { transitions: vec![(digits, 1)], accept: Some(0) },
        ],
    };
    let (out, lexical) = run_transform(
        |table| vec![refer("\"a\"", table)],
        vec![
            LexicalRule::new(
                Terminal::new("Id"),
                Regex::seq(vec![Regex::range('a', 'z'), Regex::star(Regex::range('0', '9'))]),
            ),
            literal_rule("a"),
        ],
        vec![dfa],
    );
    let restrictions = restrictions(first_symbol(&out));
    assert!(restrictions.precede.is_empty());
    assert_eq!(names(&restrictions.follow), ["[0-9]"]);
    assert_eq!(lexical[2].head.name, "[0-9]");
}
