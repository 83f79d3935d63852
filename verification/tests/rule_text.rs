use iguana::grammar::def::{Alternative, GrammarDef, LayoutStrategy, LexicalRule, PriorityLevel, SyntaxRule};
use iguana::grammar::regex::Regex;
use iguana::grammar::symbols::{Identifier, Nonterminal, ParamType, Parameter, Symbol, Terminal};

fn reference(name: &str) -> Symbol {
    Symbol::Identifier(Identifier::new(name))
}

fn alternative(symbols: Vec<Symbol>, label: Option<&str>) -> Alternative {
    Alternative {
        symbols,
        label: label.map(|l| l.to_string()),
    }
}

#[test]
fn syntax_rules_print_one_alternative_per_line() {
    let rule = SyntaxRule::new(
        Nonterminal::new("E"),
        vec![
            PriorityLevel::new(vec![
                alternative(vec![reference("E"), Symbol::Literal("*".to_string()), reference("E")], Some("mul")),
                alternative(vec![reference("A")], None),
            ]),
            PriorityLevel::new(vec![alternative(vec![Symbol::Literal("-".to_string()), reference("E")], None)]),
        ],
    );
    let expected = "E\n  = E \"*\" E #mul\n  | A\n  > \"-\" E\n".to_string();
    assert_eq!(rule.to_string(), expected);
}

#[test]
fn parameters_follow_the_head_name() {
    let mut nt = Nonterminal::new("E");
    nt.parameters = vec![
        Parameter { name: "p".to_string(), ty: ParamType::I32 },
        Parameter { name: "a".to_string(), ty: ParamType::I32 },
    ];
    assert_eq!(nt.to_string(), "E(p: i32, a: i32)");
    assert_eq!(Nonterminal::new("S").to_string(), "S");
}

#[test]
fn lexical_rules_print_their_restrictions() {
    let mut rule = LexicalRule::new(Terminal::new("Id"), Regex::plus(Regex::range('a', 'z')));
    rule.except = vec![Identifier::new("Keyword")];
    rule.follow_restriction = vec![Identifier::new("Digit"), Identifier::new("Letter")];
    rule.precede_restriction = Some(Identifier::new("Dot"));
    assert_eq!(
        rule.to_string(),
        "Id = a-z+ \\ Keyword !>> Digit !>> Letter !<< Dot"
    );
}

#[test]
fn grammar_definitions_print_annotations() {
    let mut quiet = SyntaxRule::new(
        Nonterminal::new("Q"),
        vec![PriorityLevel::new(vec![alternative(vec![reference("Id")], None)])],
    );
    quiet.layout = LayoutStrategy::NoLayout;
    let layout = SyntaxRule::new(
        Nonterminal::new("Ws"),
        vec![PriorityLevel::new(vec![alternative(vec![], None)])],
    );
    let g = GrammarDef {
        name: "G".to_string(),
        syntax_rules: vec![quiet, layout],
        lexical_rules: vec![LexicalRule::new(Terminal::new("Id"), Regex::char('x'))],
        layout: Some(reference("Ws")),
        identifier_rules: vec![Identifier::new("Id")],
    };
    assert_eq!(
        g.to_string(),
        "grammar G\n\n@NoLayout\nQ\n  = Id\n\n@Layout\nWs\n  = \n\n@Identifier @Regex\nId = x\n"
    );
}
