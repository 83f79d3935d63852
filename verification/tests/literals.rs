use iguana::grammar::def::{Alternative, LexicalRule, PriorityLevel, SyntaxRule};
use iguana::grammar::equality::regex_eq;
use iguana::grammar::literals::add_lexical_rules_for_literals;
use iguana::grammar::regex::Regex;
use iguana::grammar::resolve::{add_start_rule, SymbolTable};
use iguana::grammar::symbols::{Expr, Identifier, Nonterminal, Parameter, ParamType, Symbol, Terminal};

fn rule(name: &str, alternatives: Vec<Vec<Symbol>>) -> SyntaxRule {
    let alternatives = alternatives
        .into_iter()
        .map(|symbols| Alternative { symbols, label: None })
        .collect();
    SyntaxRule::new(Nonterminal::new(name), vec![PriorityLevel::new(alternatives)])
}

fn literal(text: &str) -> Symbol {
    Symbol::Literal(text.to_string())
}

fn reference(name: &str) -> Symbol {
    Symbol::Identifier(Identifier {
        name: name.to_string(),
        definition: None,
    })
}

#[test]
fn literals_become_terminal_references() {
    let rules = vec![rule(
        "E",
        vec![
            vec![reference("E"), literal("+"), reference("E")],
            vec![Symbol::Opt(Box::new(literal("-"))), reference("N")],
        ],
    )];
    let mut lexical = vec![LexicalRule::new(Terminal::new("N"), Regex::range('0', '9'))];
    let out = add_lexical_rules_for_literals(rules, &mut lexical);
    let expected = vec![rule(
        "E",
        vec![
            vec![reference("E"), reference("\"+\""), reference("E")],
            vec![Symbol::Opt(Box::new(reference("\"-\""))), reference("N")],
        ],
    )];
    assert_eq!(format!("{:?}", out), format!("{:?}", expected));
    assert_eq!(lexical.len(), 3);
    assert_eq!(lexical[1].head.name, "\"+\"");
    assert_eq!(lexical[1].head.literal.as_deref(), Some("+"));
    assert!(regex_eq(&lexical[1].regex, &Regex::literal("+")));
    assert_eq!(lexical[2].head.name, "\"-\"");
}

#[test]
fn a_literal_used_twice_gets_one_rule() {
    let rules = vec![
        rule("A", vec![vec![literal("if"), reference("B")]]),
        rule(
            "B",
            vec![vec![Symbol::Star(
                Box::new(literal("x")),
                Some(Box::new(literal("if"))),
            )]],
        ),
    ];
    let mut lexical = Vec::new();
    add_lexical_rules_for_literals(rules, &mut lexical);
    let names: Vec<&str> = lexical.iter().map(|r| r.head.name.as_str()).collect();
    assert_eq!(names, ["\"if\"", "\"x\""]);
    assert!(regex_eq(
        &lexical[0].regex,
        &Regex::seq(vec![Regex::char('i'), Regex::char('f')])
    ));
}

#[test]
fn literals_under_an_exclusion_stay() {
    let excluded = Symbol::Exclude {
        symbol: Box::new(literal("a")),
        labels: vec!["L".to_string()],
    };
    let rules = vec![rule("A", vec![vec![excluded]])];
    let mut lexical = Vec::new();
    let out = add_lexical_rules_for_literals(rules, &mut lexical);
    assert!(lexical.is_empty());
    let expected = vec![rule(
        "A",
        vec![vec![Symbol::Exclude {
            symbol: Box::new(literal("a")),
            labels: vec!["L".to_string()],
        }]],
    )];
    assert_eq!(format!("{:?}", out), format!("{:?}", expected));
}

#[test]
fn start_rule_wraps_the_nonterminal_in_layout() {
    let mut table = SymbolTable::new();
    table.insert("Layout".to_string());
    let id = table.insert("Expr".to_string());
    let layout = reference("Layout");
    let start = add_start_rule(&Nonterminal::new("Expr"), Some(&layout), &table);
    assert_eq!(start.head.name, "StartExpr");
    let target = Symbol::Identifier(Identifier {
        name: "Expr".to_string(),
        definition: Some(id),
    });
    assert_eq!(format!("{:?}", start.head.origin), format!("{:?}", Some(target.clone())));
    let alternatives = start.alternatives();
    assert_eq!(alternatives.len(), 1);
    let labeled = Symbol::Labeled {
        label: "start".to_string(),
        symbol: Box::new(target),
    };
    assert_eq!(
        format!("{:?}", alternatives[0].symbols),
        format!("{:?}", vec![layout.clone(), labeled, layout])
    );
}

#[test]
fn start_rule_calls_a_parameterized_nonterminal_with_zeros() {
    let mut table = SymbolTable::new();
    table.insert("E".to_string());
    let mut nt = Nonterminal::new("E");
    nt.parameters = vec![
        Parameter { name: "p".to_string(), ty: ParamType::I32 },
        Parameter { name: "q".to_string(), ty: ParamType::I32 },
    ];
    let start = add_start_rule(&nt, None, &table);
    assert_eq!(start.head.name, "StartE");
    let alternatives = start.alternatives();
    let expected = Symbol::Labeled {
        label: "start".to_string(),
        symbol: Box::new(Symbol::Call {
            name: Identifier {
                name: "E".to_string(),
                definition: table.get("E"),
            },
            arguments: vec![Expr::Int(0), Expr::Int(0)],
        }),
    };
    assert_eq!(format!("{:?}", alternatives[0].symbols), format!("{:?}", vec![expected]));
}
