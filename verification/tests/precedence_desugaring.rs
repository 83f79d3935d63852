use iguana::grammar::def::{Alternative, Associativity, PriorityLevel, SyntaxRule};
use iguana::grammar::symbols::{Expr, Identifier, Nonterminal, Restrictions, Symbol};
use iguana::grammar::transformations::precedence_desugaring::transform;

fn id(name: &str) -> Symbol {
    Symbol::Identifier(Identifier::new(name))
}

fn lit(text: &str) -> Symbol {
    Symbol::Literal(text.to_string())
}

fn call(name: &str, args: Vec<Expr>) -> Symbol {
    Symbol::Call { name: Identifier::new(name), arguments: args }
}

fn follow(symbol: Symbol, operand: &str) -> Symbol {
    let mut restrictions = Restrictions::new();
    restrictions.follow.push(Identifier::new(operand));
    Symbol::Restricted { symbol: Box::new(symbol), restrictions }
}

fn alternative(symbols: Vec<Symbol>) -> Alternative {
    Alternative { symbols, label: None }
}

fn level(alternatives: Vec<Alternative>) -> PriorityLevel {
    PriorityLevel::new(alternatives)
}

fn rule(name: &str, levels: Vec<PriorityLevel>) -> SyntaxRule {
    SyntaxRule::new(Nonterminal::new(name), levels)
}

fn texts(rule: &SyntaxRule) -> Vec<String> {
    rule.priority_levels
        .iter()
        .flat_map(|l| l.alternatives.iter())
        .map(|a| a.to_string().split_whitespace().collect::<Vec<_>>().join(" "))
        .collect()
}

//   E(p: i32, a: i32)
//     = [1 >= p] [a != 1] l_pr=E(p, 0) [(l_pr == 0) || (l_pr >= 1)] "+" r_pr=E(1, 1) return 1
//     | "-" E(1, 0)                                                                  return 1
//     | "a"                                                                          return 0
#[test]
fn binary_does_not_treat_a_user_argument_as_an_exclusion() {
    let rules = vec![rule(
        "E",
        vec![PriorityLevel::with_associativity(
            vec![
                alternative(vec![call("E", vec![Expr::Int(7)]), lit("+"), id("E")]),
                alternative(vec![lit("-"), id("E")]),
                alternative(vec![lit("a")]),
            ],
            Some(Associativity::Left),
        )],
    )];
    let transformed = transform(rules).unwrap();
    let binary = transformed[0].alternatives()[0];
    let conditions: Vec<String> = binary
        .symbols
        .iter()
        .filter_map(|symbol| match symbol {
            Symbol::Condition(condition) => Some(condition.to_string()),
            _ => None,
        })
        .collect();
    assert_eq!(conditions, ["1 >= p", "a != 1", "(l_pr == 0) || (l_pr >= 1)"]);
}

#[test]
fn test_restriction_preserved_at_left_end() {
    let rules = vec![rule(
        "E",
        vec![
            level(vec![alternative(vec![id("Num")])]),
            level(vec![alternative(vec![follow(id("E"), ";"), lit("+"), id("E")])]),
        ],
    )];
    let transformed = transform(rules).unwrap();
    let e = transformed.iter().find(|r| r.head.name == "E").unwrap();
    let alternatives = e.alternatives();
    let left_end = &alternatives[1].symbols[1];
    match left_end {
        Symbol::Restricted { symbol, restrictions } => {
            assert_eq!(restrictions.follow.len(), 1);
            assert!(
                matches!(symbol.as_ref(), Symbol::Binding { pattern, .. } if pattern.names()[0] == "l_pr"),
                "restriction should wrap the `l` binding, got {symbol:?}",
            );
        }
        other => panic!("expected the left end to keep its `!>>`, got {other:?}"),
    }
}

//   E(p: i32)
//     = "a"                                                  return 0
//     | [2 >= p] l_pr=E(p) [l_pr == 0 || l_pr >= 2] "*" E(2) return 2
//     | [1 >= p] l_pr=E(p) [l_pr == 0 || l_pr >= 1] "+" E(1) return 1
//     | [1 >= p] l_pr=E(p) [l_pr == 0 || l_pr >= 1] "-" E(1) return 1
#[test]
fn levels_number_from_the_bottom() {
    let rules = vec![rule(
        "E",
        vec![
            level(vec![alternative(vec![lit("a")])]),
            level(vec![alternative(vec![id("E"), lit("*"), id("E")])]),
            level(vec![
                alternative(vec![id("E"), lit("+"), id("E")]),
                alternative(vec![id("E"), lit("-"), id("E")]),
            ]),
        ],
    )];
    let transformed = transform(rules).unwrap();
    assert_eq!(transformed[0].head.parameters.len(), 1);
    assert_eq!(transformed[0].head.parameters[0].name, "p");
    assert_eq!(transformed[0].priority_levels.len(), 1);
    assert_eq!(
        texts(&transformed[0]),
        [
            "\"a\" return 0",
            "[2 >= p] l_pr=E(p) [(l_pr == 0) || (l_pr >= 2)] \"*\" E(2) return 2",
            "[1 >= p] l_pr=E(p) [(l_pr == 0) || (l_pr >= 1)] \"+\" E(1) return 1",
            "[1 >= p] l_pr=E(p) [(l_pr == 0) || (l_pr >= 1)] \"-\" E(1) return 1",
        ]
    );
}

//   E(p: i32)
//     = "a"                                                 return 0
//     | [4 >= p] l_pr=E(p) [(l_pr == 0) || (l_pr >= 4)] "!" return 0
//     | "-" E(3)                                            return 3
//     | [2 >= p] l_pr=E(p) [(l_pr == 0) || (l_pr >= 2)] "*" E(2) return 2
//     | [1 >= p] l_pr=E(p) [(l_pr == 0) || (l_pr >= 1)] "+" E(1) return 1
#[test]
fn prefix_and_postfix_restrict_one_end() {
    let rules = vec![rule(
        "E",
        vec![
            level(vec![alternative(vec![lit("a")])]),
            level(vec![alternative(vec![id("E"), lit("!")])]),
            level(vec![alternative(vec![lit("-"), id("E")])]),
            level(vec![alternative(vec![id("E"), lit("*"), id("E")])]),
            level(vec![alternative(vec![id("E"), lit("+"), id("E")])]),
        ],
    )];
    let transformed = transform(rules).unwrap();
    assert_eq!(
        texts(&transformed[0]),
        [
            "\"a\" return 0",
            "[4 >= p] l_pr=E(p) [(l_pr == 0) || (l_pr >= 4)] \"!\" return 0",
            "\"-\" E(3) return 3",
            "[2 >= p] l_pr=E(p) [(l_pr == 0) || (l_pr >= 2)] \"*\" E(2) return 2",
            "[1 >= p] l_pr=E(p) [(l_pr == 0) || (l_pr >= 1)] \"+\" E(1) return 1",
        ]
    );
}

//   E = "a" > E "+" E > "pre" Body
//   Body = E | "b"
//
//   E(p: i32)
//     = "a"                                                           return 0
//     | [2 >= p] l_pr=E(p) [(l_pr == 0) || (l_pr >= 2)] "+" r_pr=E(2) return (r_pr == 0) ? 2 : min(r_pr, 2)
//     | "pre" r_pr=Body(1)                                            return (r_pr == UNDEFINED_PRECEDENCE) ? 0 : 1
//   Body(p: i32)
//     = r_pr=E(p) return r_pr
//     | "b"       return UNDEFINED_PRECEDENCE
#[test]
fn absent_indirect_end_is_distinct_from_an_atom() {
    let rules = vec![
        rule(
            "E",
            vec![
                level(vec![alternative(vec![lit("a")])]),
                level(vec![alternative(vec![id("E"), lit("+"), id("E")])]),
                level(vec![alternative(vec![lit("pre"), id("Body")])]),
            ],
        ),
        rule("Body", vec![level(vec![alternative(vec![id("E")]), alternative(vec![lit("b")])])]),
    ];
    let transformed = transform(rules).unwrap();
    assert_eq!(
        texts(&transformed[1]),
        ["r_pr=E(p) return r_pr", "\"b\" return UNDEFINED_PRECEDENCE"]
    );
    assert_eq!(transformed[0].alternatives()[0].to_string(), "\"a\" return 0");
    assert_eq!(
        texts(&transformed[0])[2],
        "\"pre\" r_pr=Body(1) return (r_pr == UNDEFINED_PRECEDENCE) ? 0 : 1"
    );
}

//   E = "a" > "(" E ")"
//   The parenthesized reference is not a recursive end and gets E(0).
#[test]
fn references_that_are_not_ends_are_unrestricted() {
    let rules = vec![
        rule(
            "E",
            vec![
                level(vec![alternative(vec![lit("a")])]),
                level(vec![alternative(vec![id("E"), lit("+"), id("E")])]),
                level(vec![alternative(vec![lit("("), id("E"), lit(")")])]),
            ],
        ),
        rule("S", vec![level(vec![alternative(vec![id("E")])])]),
    ];
    let transformed = transform(rules).unwrap();
    assert_eq!(texts(&transformed[0])[2], "\"(\" E(0) \")\" return 0");
    assert_eq!(texts(&transformed[1]), ["E(0)"]);
}

//   E = "a" > E "+" L ;  F = "b" > F "*" L ;  L = E | F
#[test]
fn a_nonterminal_serving_two_heads_is_an_error() {
    let rules = vec![
        rule(
            "E",
            vec![
                level(vec![alternative(vec![lit("a")])]),
                level(vec![alternative(vec![id("E"), lit("+"), id("L")])]),
            ],
        ),
        rule(
            "F",
            vec![
                level(vec![alternative(vec![lit("b")])]),
                level(vec![alternative(vec![id("F"), lit("*"), id("L")])]),
            ],
        ),
        rule("L", vec![level(vec![alternative(vec![id("E")]), alternative(vec![id("F")])])]),
    ];
    let errors = transform(rules).unwrap_err();
    assert_eq!(
        errors,
        ["indirect precedence cannot be enforced for `L` because it serves multiple precedence heads; give each precedence rule its own intermediate nonterminal"]
    );
}

//   E = "a" > left E "+" E : the right end gets one more.
#[test]
fn left_associativity_raises_the_right_argument() {
    let rules = vec![rule(
        "E",
        vec![
            level(vec![alternative(vec![lit("a")])]),
            PriorityLevel::with_associativity(
                vec![alternative(vec![id("E"), lit("+"), id("E")])],
                Some(Associativity::Left),
            ),
        ],
    )];
    let transformed = transform(rules).unwrap();
    assert_eq!(
        texts(&transformed[0])[1],
        "[1 >= p] l_pr=E(p) [(l_pr == 0) || (l_pr >= 1)] \"+\" E(2) return 1"
    );
}

#[test]
fn desugaring_keeps_rules_and_flattens_precedence_heads() {
    let rules = vec![
        rule(
            "E",
            vec![
                level(vec![alternative(vec![lit("a")])]),
                level(vec![alternative(vec![id("E"), lit("*"), id("E")])]),
                level(vec![alternative(vec![id("E"), lit("+"), id("E")])]),
            ],
        ),
        rule("S", vec![level(vec![alternative(vec![id("E")])])]),
    ];
    let transformed = transform(rules).unwrap();
    assert_eq!(transformed.len(), 2);
    assert_eq!(transformed[0].head.name, "E");
    assert_eq!(transformed[1].head.name, "S");
    assert_eq!(transformed[0].priority_levels.len(), 1);
    assert_eq!(transformed[0].priority_levels[0].alternatives.len(), 3);
    assert_eq!(transformed[0].head.parameters[0].name, "p");
    assert!(transformed[1].head.parameters.is_empty());
    for alt in &transformed[0].priority_levels[0].alternatives {
        assert!(matches!(alt.symbols.last(), Some(Symbol::Return(_))));
    }
}
