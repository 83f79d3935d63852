use iguana::grammar::def::{Alternative, Associativity, PriorityLevel, SyntaxRule};
use iguana::grammar::symbols::{BindingPattern, Expr, Identifier, Nonterminal, Symbol};
use iguana::grammar::transformations::precedence_desugaring::analysis::{classify, compute_recursive_heads, recurses_indirectly, Ends, RecursionKind};
use iguana::grammar::transformations::precedence_desugaring::End;
use iguana::grammar::transformations::{ebnf_to_bnf, exclude_desugaring, precedence_desugaring};

fn id(name: &str) -> Symbol {
    Symbol::Identifier(Identifier::new(name))
}

fn lit(text: &str) -> Symbol {
    Symbol::Literal(text.to_string())
}

fn labeled(label: &str, symbol: Symbol) -> Symbol {
    Symbol::Labeled { label: label.to_string(), symbol: Box::new(symbol) }
}

fn opt(symbol: Symbol) -> Symbol {
    Symbol::Opt(Box::new(symbol))
}

fn exclude(symbol: Symbol, label: &str) -> Symbol {
    Symbol::Exclude { symbol: Box::new(symbol), labels: vec![label.to_string()] }
}

fn alt(symbols: Vec<Symbol>) -> Alternative {
    Alternative { symbols, label: None }
}

fn alt_l(symbols: Vec<Symbol>, label: &str) -> Alternative {
    Alternative { symbols, label: Some(label.to_string()) }
}

fn level(alternatives: Vec<Alternative>) -> PriorityLevel {
    PriorityLevel::new(alternatives)
}

fn assoc(associativity: Associativity, alternatives: Vec<Alternative>) -> PriorityLevel {
    PriorityLevel::with_associativity(alternatives, Some(associativity))
}

fn rule(name: &str, levels: Vec<PriorityLevel>) -> SyntaxRule {
    SyntaxRule::new(Nonterminal::new(name), levels)
}

/// The grammar after the EBNF, exclusion and precedence phases, in the
/// order the pipeline runs them.
fn desugar(rules: Vec<SyntaxRule>) -> Result<Vec<SyntaxRule>, Vec<String>> {
    let rules = ebnf_to_bnf::transform(rules);
    let rules = exclude_desugaring::transform(rules);
    precedence_desugaring::transform(rules)
}

fn norm(text: &str) -> String {
    let t = text.split_whitespace().collect::<Vec<_>>().join(" ");
    if t == "()" { String::new() } else { t }
}

fn find<'a>(rules: &'a [SyntaxRule], name: &str) -> &'a SyntaxRule {
    rules.iter().find(|r| r.head.name == name).unwrap_or_else(|| panic!("no rule {name}"))
}

fn alternatives<'a>(rules: &'a [SyntaxRule], name: &str) -> Vec<&'a Alternative> {
    find(rules, name).priority_levels.iter().flat_map(|l| l.alternatives.iter()).collect()
}

fn params(rules: &[SyntaxRule], name: &str) -> Vec<String> {
    find(rules, name).head.parameters.iter().map(|p| p.name.clone()).collect()
}

/// Checks a rule against its desugared text: the parameter names and each
/// alternative, one per line, whitespace normalised.
fn expect(rules: &[SyntaxRule], name: &str, parameters: &[&str], texts: &[&str]) {
    assert_eq!(params(rules, name), parameters, "parameters of {name}");
    let actual: Vec<String> = alternatives(rules, name).iter().map(|a| norm(&a.to_string())).collect();
    let expected: Vec<String> = texts.iter().map(|t| norm(t)).collect();
    assert_eq!(actual, expected, "alternatives of {name}");
}

fn ret_text(symbols: &[Symbol]) -> String {
    match symbols.last() {
        Some(Symbol::Return(e)) => e.to_string(),
        other => panic!("expected a return, got {other:?}"),
    }
}

#[test]
fn absent_end_is_distinct_from_an_atom() {
    let g = desugar(vec![
        rule("E", vec![
            level(vec![alt(vec![lit("a")])]),
            level(vec![alt(vec![id("E"), lit("+"), id("E")])]),
            level(vec![alt(vec![lit("pre"), id("Body")])]),
        ]),
        rule("Body", vec![level(vec![alt(vec![id("E")]), alt(vec![lit("b")])])]),
    ]).unwrap();
    assert_eq!(ret_text(&alternatives(&g, "Body")[1].symbols), "UNDEFINED_PRECEDENCE");
    assert_eq!(ret_text(&alternatives(&g, "E")[0].symbols), "0");
    assert!(matches!(alternatives(&g, "E")[2].symbols[1], Symbol::Binding { .. }));
}

#[test]
fn foreign_head_reference_stays_one_call() {
    let g = desugar(vec![
        rule("E", vec![
            level(vec![alt(vec![lit("a")])]),
            assoc(Associativity::Left, vec![alt(vec![id("L"), lit("+"), id("L")]), alt(vec![id("F")])]),
        ]),
        rule("L", vec![level(vec![alt(vec![id("E")])])]),
        rule("F", vec![
            level(vec![alt(vec![lit("b")])]),
            assoc(Associativity::Left, vec![alt(vec![id("F"), lit("*"), id("F")])]),
        ]),
    ]).unwrap();
    let symbols = &alternatives(&g, "E")[2].symbols;
    assert_eq!(symbols.len(), 2);
    assert!(matches!(&symbols[0], Symbol::Call { name, arguments }
        if name.name == "F" && arguments.len() == 1 && matches!(arguments[0], Expr::Int(0))));
    assert_eq!(ret_text(symbols), "0");
}

#[test]
fn mixed_associativity_uses_a_separate_argument() {
    let g = desugar(vec![rule("E", vec![assoc(Associativity::Left, vec![
        alt(vec![id("E"), lit("+"), id("E")]),
        alt(vec![id("E"), lit("!")]),
        alt(vec![lit("a")]),
    ])])]).unwrap();
    expect(&g, "E", &["p", "a"], &[
        "[1 >= p] [a != 1] l_pr=E(p, 0) [(l_pr == 0) || (l_pr >= 1)] \"+\" r_pr=E(1, 1) return 1",
        "[1 >= p] l_pr=E(p, 0) [(l_pr == 0) || (l_pr >= 1)] \"!\" return 0",
        "\"a\" return 0",
    ]);
}

#[test]
fn associativity_uses_precedence_levels_beyond_eleven() {
    let mut levels = vec![level(vec![alt(vec![lit("a")])])];
    for _ in 0..12 {
        levels.push(assoc(Associativity::NonAssoc, vec![
            alt(vec![id("E"), lit("+"), id("E")]),
            alt(vec![id("E"), lit("!")]),
        ]));
    }
    levels.push(assoc(Associativity::Left, vec![alt(vec![id("E"), lit("*"), id("E")])]));
    let g = desugar(vec![rule("E", levels)]).unwrap();
    let mut texts = vec!["\"a\" return (0, 0)".to_string()];
    for k in (2..=13).rev() {
        texts.push(format!("[{k} >= p] [a != {k}] (l_pr, l_assoc)=E(p, 0) [(l_pr == 0) || (l_pr >= {k})] [l_assoc != {k}] \"+\" (r_pr, r_assoc)=E({k}, {k}) return ({k}, {k})"));
        texts.push(format!("[{k} >= p] (l_pr, l_assoc)=E(p, 0) [(l_pr == 0) || (l_pr >= {k})] \"!\" return (0, 0)"));
    }
    texts.push("[1 >= p] (l_pr, l_assoc)=E(p, 0) [(l_pr == 0) || (l_pr >= 1)] \"*\" E(2, 0) return (1, 0)".to_string());
    let expected: Vec<&str> = texts.iter().map(|t| t.as_str()).collect();
    assert_eq!(g.len(), 1);
    assert_eq!(g[0].priority_levels.len(), 1);
    expect(&g, "E", &["p", "a"], &expected);
}

#[test]
fn indirect_left_exclusion_uses_a_shared_call_and_returned_label() {
    for both_ends in [false, true] {
        let right = if both_ends { id("L") } else { id("E") };
        let g = desugar(vec![
            rule("E", vec![
                level(vec![alt_l(vec![lit("a")], "atom")]),
                level(vec![alt_l(vec![id("L"), lit("+"), right], "binary")]),
            ]),
            rule("L", vec![level(vec![alt(vec![exclude(id("E"), "atom")])])]),
        ]).unwrap();
        let symbols = &alternatives(&g, "L")[0].symbols;
        let binding = if both_ends { "v" } else { "l" };
        assert!(matches!(&symbols[0], Symbol::Binding { pattern, symbol }
            if pattern.names()[0] == format!("{binding}_pr") && matches!(symbol.as_ref(), Symbol::Call { arguments, .. }
                if arguments.len() == 2 && matches!(&arguments[0], Expr::Ref(p) if p == "p") && matches!(arguments[1], Expr::Int(0)))));
        assert_eq!(
            symbols[1].to_string(),
            format!("[({binding}_label == NO_LABEL) || ((1 >> ({binding}_label)) & 1 == 0)]")
        );
    }
}

#[test]
fn test_desugaring() {
    let g = desugar(vec![rule("E", vec![
        level(vec![alt(vec![lit("a")])]),
        level(vec![alt(vec![id("E"), lit("*"), id("E")])]),
        level(vec![alt(vec![id("E"), lit("+"), id("E")]), alt(vec![id("E"), lit("-"), id("E")])]),
    ])]).unwrap();
    expect(&g, "E", &["p"], &[
        "\"a\" return 0",
        "[2 >= p] l_pr=E(p) [(l_pr == 0) || (l_pr >= 2)] \"*\" E(2) return 2",
        "[1 >= p] l_pr=E(p) [(l_pr == 0) || (l_pr >= 1)] \"+\" E(1) return 1",
        "[1 >= p] l_pr=E(p) [(l_pr == 0) || (l_pr >= 1)] \"-\" E(1) return 1",
    ]);
}

#[test]
fn test_prefix_postfix_desugaring() {
    let g = desugar(vec![rule("E", vec![
        level(vec![alt(vec![lit("a")])]),
        level(vec![alt(vec![id("E"), lit("!")])]),
        level(vec![alt(vec![lit("-"), id("E")])]),
        level(vec![alt(vec![id("E"), lit("*"), id("E")])]),
        level(vec![alt(vec![id("E"), lit("+"), id("E")])]),
    ])]).unwrap();
    expect(&g, "E", &["p"], &[
        "\"a\" return 0",
        "[4 >= p] l_pr=E(p) [(l_pr == 0) || (l_pr >= 4)] \"!\" return 0",
        "\"-\" E(3) return 3",
        "[2 >= p] l_pr=E(p) [(l_pr == 0) || (l_pr >= 2)] \"*\" E(2) return 2",
        "[1 >= p] l_pr=E(p) [(l_pr == 0) || (l_pr >= 1)] \"+\" E(1) return 1",
    ]);
}

fn binary_level(associativity: Associativity, op: &str) -> Vec<SyntaxRule> {
    vec![rule("E", vec![
        level(vec![alt(vec![lit("a")])]),
        assoc(associativity, vec![alt(vec![id("E"), lit(op), id("E")])]),
    ])]
}

#[test]
fn test_left_assoc() {
    let g = desugar(binary_level(Associativity::Left, "+")).unwrap();
    expect(&g, "E", &["p"], &[
        "\"a\" return 0",
        "[1 >= p] l_pr=E(p) [(l_pr == 0) || (l_pr >= 1)] \"+\" E(2) return 1",
    ]);
}

#[test]
fn test_right_assoc() {
    let g = desugar(binary_level(Associativity::Right, ";")).unwrap();
    expect(&g, "E", &["p"], &[
        "\"a\" return 0",
        "[1 >= p] l_pr=E(p) [(l_pr == 0) || (l_pr >= 2)] \";\" E(1) return 1",
    ]);
}

#[test]
fn test_non_assoc() {
    let g = desugar(binary_level(Associativity::NonAssoc, "<")).unwrap();
    expect(&g, "E", &["p"], &[
        "\"a\" return 0",
        "[1 >= p] l_pr=E(p) [(l_pr == 0) || (l_pr >= 2)] \"<\" E(2) return 1",
    ]);
}

#[test]
fn test_single_level_assoc() {
    let g = desugar(vec![rule("E", vec![assoc(Associativity::Left, vec![
        alt(vec![id("E"), lit("+"), id("E")]),
        alt(vec![lit("a")]),
    ])])]).unwrap();
    expect(&g, "E", &["p"], &[
        "[1 >= p] l_pr=E(p) [(l_pr == 0) || (l_pr >= 1)] \"+\" E(2) return 1",
        "\"a\" return 0",
    ]);
}

#[test]
fn test_mixed_assoc() {
    let g = desugar(vec![rule("E", vec![
        level(vec![alt(vec![lit("a")])]),
        assoc(Associativity::Left, vec![alt(vec![id("E"), lit("*"), id("E")]), alt(vec![id("E"), lit("/"), id("E")])]),
        assoc(Associativity::Left, vec![alt(vec![id("E"), lit("+"), id("E")]), alt(vec![id("E"), lit("-"), id("E")])]),
        assoc(Associativity::NonAssoc, vec![alt(vec![id("E"), lit("<"), id("E")])]),
    ])]).unwrap();
    expect(&g, "E", &["p"], &[
        "\"a\" return 0",
        "[3 >= p] l_pr=E(p) [(l_pr == 0) || (l_pr >= 3)] \"*\" E(4) return 3",
        "[3 >= p] l_pr=E(p) [(l_pr == 0) || (l_pr >= 3)] \"/\" E(4) return 3",
        "[2 >= p] l_pr=E(p) [(l_pr == 0) || (l_pr >= 2)] \"+\" E(3) return 2",
        "[2 >= p] l_pr=E(p) [(l_pr == 0) || (l_pr >= 2)] \"-\" E(3) return 2",
        "[1 >= p] l_pr=E(p) [(l_pr == 0) || (l_pr >= 2)] \"<\" E(2) return 1",
    ]);
}

#[test]
fn test_min_precedence_deep_case() {
    let g = desugar(vec![rule("E", vec![
        level(vec![alt(vec![lit("a")])]),
        level(vec![alt(vec![id("E"), lit("+"), id("E")])]),
        level(vec![alt(vec![lit("if"), id("E"), lit("then"), id("E"), lit("else"), id("E")])]),
    ])]).unwrap();
    expect(&g, "E", &["p"], &[
        "\"a\" return 0",
        "[2 >= p] l_pr=E(p) [(l_pr == 0) || (l_pr >= 2)] \"+\" r_pr=E(2) return (r_pr == 0) ? 2 : min(r_pr, 2)",
        "\"if\" E(0) \"then\" E(0) \"else\" E(1) return 1",
    ]);
}

#[test]
fn test_prefix_above_binary_returns_own_precedence() {
    let g = desugar(vec![rule("E", vec![
        level(vec![alt(vec![lit("a")])]),
        level(vec![alt(vec![lit("-"), id("E")])]),
        level(vec![alt(vec![id("E"), lit("+"), id("E")])]),
    ])]).unwrap();
    expect(&g, "E", &["p"], &[
        "\"a\" return 0",
        "\"-\" E(2) return 2",
        "[1 >= p] l_pr=E(p) [(l_pr == 0) || (l_pr >= 1)] \"+\" E(1) return 1",
    ]);
}

#[test]
fn test_min_precedence_multiple_operators() {
    let g = desugar(vec![rule("E", vec![
        level(vec![alt(vec![lit("a")])]),
        assoc(Associativity::Left, vec![alt(vec![id("E"), lit("*"), id("E")])]),
        assoc(Associativity::Left, vec![alt(vec![id("E"), lit("+"), id("E")])]),
        level(vec![alt(vec![lit("-"), id("E")])]),
        level(vec![alt(vec![lit("if"), id("E"), lit("then"), id("E"), lit("else"), id("E")])]),
        assoc(Associativity::Right, vec![alt(vec![id("E"), lit(";"), id("E")])]),
    ])]).unwrap();
    expect(&g, "E", &["p"], &[
        "\"a\" return 0",
        "[5 >= p] l_pr=E(p) [(l_pr == 0) || (l_pr >= 5)] \"*\" r_pr=E(6) return (r_pr == 0) ? 5 : min(r_pr, 5)",
        "[4 >= p] l_pr=E(p) [(l_pr == 0) || (l_pr >= 4)] \"+\" r_pr=E(5) return (r_pr == 0) ? 4 : min(r_pr, 4)",
        "\"-\" r_pr=E(3) return (r_pr == 0) ? 3 : min(r_pr, 3)",
        "\"if\" E(0) \"then\" E(0) \"else\" E(2) return 2",
        "[1 >= p] l_pr=E(p) [(l_pr == 0) || (l_pr >= 2)] \";\" E(1) return 1",
    ]);
}

#[test]
fn test_precedence_heads_have_independent_levels() {
    let input = vec![
        rule("E", vec![
            level(vec![alt(vec![lit("a")])]),
            level(vec![alt(vec![id("F"), lit("*"), lit("b")])]),
            level(vec![alt(vec![id("E"), lit("+"), id("E")])]),
        ]),
        rule("F", vec![
            level(vec![alt(vec![lit("a")])]),
            level(vec![alt(vec![id("E"), lit("+"), id("E")])]),
        ]),
    ];
    let ends = Ends::new(&input);
    let heads = compute_recursive_heads(&input, &ends);
    assert_eq!(heads, ["E", "F"]);
    assert!(ends.reaches("F", "E", End::Left, &vec![]));
    assert!(!ends.reaches("F", "E", End::Left, &heads));
    assert!(alternatives(&input, "F").iter().all(|a| classify(a, "F", &heads, &ends) == RecursionKind::NonRecursive));
    let g = desugar(input).unwrap();
    expect(&g, "E", &["p"], &[
        "\"a\" return 0",
        "F(0) \"*\" \"b\" return 0",
        "[1 >= p] l_pr=E(p) [(l_pr == 0) || (l_pr >= 1)] \"+\" E(1) return 1",
    ]);
    expect(&g, "F", &["p"], &["\"a\" return 0", "E(0) \"+\" E(0) return 0"]);
}

#[test]
fn test_exclusions_at_left_recursive_ends() {
    let g = desugar(vec![rule("E", vec![
        level(vec![alt_l(vec![lit("a")], "A")]),
        level(vec![alt_l(vec![exclude(id("E"), "B"), lit("++")], "C")]),
        level(vec![alt_l(vec![id("E"), lit("+"), id("E")], "D")]),
        level(vec![alt_l(vec![id("E"), lit("-"), id("E")], "B")]),
    ])]).unwrap();
    expect(&g, "E", &["p", "e"], &[
        "[1 & e == 0] \"a\" return (0, 0) #A",
        "[2 & e == 0] [3 >= p] (l_pr, l_label)=E(p, 0) [(l_pr == 0) || (l_pr >= 3)] [(l_label == NO_LABEL) || ((8 >> (l_label)) & 1 == 0)] \"++\" return (0, 1) #C",
        "[4 & e == 0] [2 >= p] (l_pr, l_label)=E(p, 0) [(l_pr == 0) || (l_pr >= 2)] \"+\" E(2, 0) return (2, 2) #D",
        "[8 & e == 0] [1 >= p] (l_pr, l_label)=E(p, 0) [(l_pr == 0) || (l_pr >= 1)] \"-\" E(1, 0) return (1, 3) #B",
    ]);
}

/// The arguments of the call in `symbol`, seen through a binding or a label.
fn call_args(symbol: &Symbol) -> Vec<String> {
    match symbol {
        Symbol::Call { arguments, .. } => arguments.iter().map(|a| a.to_string()).collect(),
        Symbol::Binding { symbol, .. } | Symbol::Labeled { symbol, .. } => call_args(symbol),
        other => panic!("expected a call, got {other:?}"),
    }
}

fn texts_of(alternative: &Alternative) -> Vec<String> {
    alternative.symbols.iter().map(|s| s.to_string()).collect()
}

fn lambda_rules(with_binary: bool) -> Vec<SyntaxRule> {
    let mut expression = vec![level(vec![alt(vec![lit("a")])])];
    if with_binary {
        expression.push(level(vec![alt(vec![id("Expression"), lit("+"), id("Expression")])]));
    }
    expression.push(level(vec![alt(vec![id("Lambda")])]));
    vec![
        rule("Expression", expression),
        rule("Lambda", vec![level(vec![alt(vec![id("LambdaParameters"), lit("->"), id("LambdaBody")])])]),
        rule("LambdaBody", vec![level(vec![alt(vec![id("Expression")]), alt(vec![id("Block")])])]),
        rule("LambdaParameters", vec![level(vec![alt(vec![id("Identifier")])])]),
    ]
}

#[test]
fn test_right_ends() {
    let rules = lambda_rules(false);
    let ends = Ends::new(&rules);
    assert!(ends.reaches("Lambda", "Expression", End::Right, &vec![]));
    assert!(ends.reaches("LambdaBody", "Expression", End::Right, &vec![]));
    assert!(!ends.reaches("Lambda", "Expression", End::Right, &vec!["LambdaBody".to_string()]));
    assert!(!ends.reaches("LambdaParameters", "Expression", End::Right, &vec![]));
    assert!(ends.reaches("Lambda", "LambdaParameters", End::Left, &vec![]));
}

#[test]
fn test_classify() {
    let rules = lambda_rules(true);
    let ends = Ends::new(&rules);
    let alternatives = alternatives(&rules, "Expression");
    let kind = |a: &Alternative| classify(a, "Expression", &vec![], &ends);
    assert_eq!(kind(alternatives[0]), RecursionKind::NonRecursive);
    assert_eq!(kind(alternatives[1]), RecursionKind::Binary);
    assert_eq!(kind(alternatives[2]), RecursionKind::Prefix);
}

#[test]
fn test_classify_mixed_and_indirect_binary() {
    let rules = vec![
        rule("E", vec![level(vec![
            alt(vec![lit("a")]),
            alt(vec![id("E"), lit("+"), id("R")]),
            alt(vec![id("L"), lit("-"), id("E")]),
            alt(vec![id("L"), lit("*"), id("R")]),
        ])]),
        rule("L", vec![level(vec![alt(vec![id("E")])])]),
        rule("R", vec![level(vec![alt(vec![id("E")])])]),
    ];
    let ends = Ends::new(&rules);
    let alternatives = alternatives(&rules, "E");
    let kind = |a: &Alternative| classify(a, "E", &vec![], &ends);
    assert_eq!(kind(alternatives[0]), RecursionKind::NonRecursive);
    assert_eq!(kind(alternatives[1]), RecursionKind::Binary);
    assert_eq!(kind(alternatives[2]), RecursionKind::Binary);
    assert_eq!(kind(alternatives[3]), RecursionKind::Binary);
}

#[test]
fn test_indirect_only_binary_desugaring() {
    let g = desugar(vec![
        rule("E", vec![level(vec![alt(vec![lit("a")])]), level(vec![alt(vec![id("L"), lit("*"), id("R")])])]),
        rule("L", vec![level(vec![alt(vec![id("E")])])]),
        rule("R", vec![level(vec![alt(vec![id("E")])])]),
    ]).unwrap();
    expect(&g, "E", &["p"], &[
        "\"a\" return 0",
        "[1 >= p] l_pr=L(p) [(l_pr == 0) || (l_pr >= 1)] \"*\" R(1) return 1",
    ]);
    expect(&g, "L", &["p"], &["l_pr=E(p) return l_pr"]);
    expect(&g, "R", &["p"], &["r_pr=E(p) return r_pr"]);
}

#[test]
fn test_mixed_binary_desugaring() {
    let g = desugar(vec![
        rule("E", vec![
            level(vec![alt(vec![lit("a")])]),
            level(vec![alt(vec![id("E"), lit("+"), id("R")])]),
            level(vec![alt(vec![id("L"), lit("-"), id("E")])]),
        ]),
        rule("L", vec![level(vec![alt(vec![id("E")])])]),
        rule("R", vec![level(vec![alt(vec![id("E")])])]),
    ]).unwrap();
    expect(&g, "E", &["p"], &[
        "\"a\" return 0",
        "[2 >= p] l_pr=E(p) [(l_pr == 0) || (l_pr >= 2)] \"+\" R(2) return 2",
        "[1 >= p] l_pr=L(p) [(l_pr == 0) || (l_pr >= 1)] \"-\" E(1) return 1",
    ]);
    expect(&g, "L", &["p"], &["l_pr=E(p) return l_pr"]);
    expect(&g, "R", &["p"], &["r_pr=E(p) return r_pr"]);
}

#[test]
fn test_shared_indirect_end_propagates_both_ends() {
    let g = desugar(vec![
        rule("E", vec![
            level(vec![alt(vec![lit("a")])]),
            assoc(Associativity::Left, vec![alt(vec![id("L"), lit("*"), id("L")])]),
        ]),
        rule("L", vec![level(vec![alt(vec![id("E"), lit("q"), id("E")])])]),
    ]).unwrap();
    let binary = alternatives(&g, "E")[1];
    assert_eq!(call_args(&binary.symbols[1]), ["p", "0"]);
    assert_eq!(call_args(&binary.symbols[4]), ["2", "1"]);
    assert_eq!(params(&g, "L"), ["p", "end"]);
    let desugared = alternatives(&g, "L")[0];
    assert_eq!(call_args(&desugared.symbols[0]), ["(end == 0) ? p : 0"]);
    assert_eq!(call_args(&desugared.symbols[2]), ["(end == 1) ? p : 0"]);
    match &desugared.symbols[3] {
        Symbol::Return(Expr::Ternary { cond, then, otherwise }) => {
            assert_eq!(cond.to_string(), "end == 0");
            assert!(matches!(then.as_ref(), Expr::Ref(r) if r == "l_pr"));
            assert!(matches!(otherwise.as_ref(), Expr::Ref(r) if r == "r_pr"));
        },
        other => panic!("expected a conditional return, got {other:?}"),
    }
}

#[test]
fn test_indirect_binary_stops_at_another_precedence_head() {
    let g = desugar(vec![
        rule("E", vec![
            level(vec![alt(vec![lit("a")])]),
            assoc(Associativity::Left, vec![alt(vec![id("E"), lit("-"), id("F")])]),
            assoc(Associativity::Left, vec![alt(vec![id("E"), lit("+"), id("F")])]),
        ]),
        rule("F", vec![
            level(vec![alt(vec![lit("b")])]),
            assoc(Associativity::Left, vec![alt(vec![id("F"), lit("*"), id("F")]), alt(vec![id("E")])]),
        ]),
    ]).unwrap();
    expect(&g, "E", &["p"], &[
        "\"a\" return 0",
        "[2 >= p] l_pr=E(p) [(l_pr == 0) || (l_pr >= 2)] \"-\" F(0) return 0",
        "[1 >= p] l_pr=E(p) [(l_pr == 0) || (l_pr >= 1)] \"+\" F(0) return 0",
    ]);
    expect(&g, "F", &["p"], &[
        "\"b\" return 0",
        "[1 >= p] l_pr=F(p) [(l_pr == 0) || (l_pr >= 1)] \"*\" F(2) return 1",
        "E(0) return 0",
    ]);
}

#[test]
fn test_indirect_binary_preserves_precedence_from_exclude_head() {
    let g = desugar(vec![
        rule("S", vec![level(vec![alt(vec![exclude(id("E"), "B")])])]),
        rule("E", vec![
            level(vec![alt_l(vec![lit("a")], "A")]),
            assoc(Associativity::Left, vec![alt_l(vec![id("L"), lit("+"), id("E")], "B")]),
        ]),
        rule("L", vec![level(vec![alt(vec![id("E")])])]),
    ]).unwrap();
    let binary = alternatives(&g, "E")[1];
    assert!(texts_of(binary).contains(&"[(l_pr == 0) || (l_pr >= 1)]".to_string()));
    assert_eq!(alternatives(&g, "L")[0].symbols.last().unwrap().to_string(), "return l_pr");
}

#[test]
fn test_single_symbol_alternative_is_not_duplicated() {
    let g = desugar(vec![
        rule("E", vec![
            level(vec![alt(vec![lit("a")])]),
            assoc(Associativity::Left, vec![alt(vec![id("E"), lit("+"), id("E")])]),
            level(vec![alt(vec![id("Ternary")])]),
        ]),
        rule("Ternary", vec![level(vec![alt(vec![id("E"), lit("?"), id("E"), lit(":"), id("E")])])]),
    ]).unwrap();
    let single = alternatives(&g, "E")[2];
    let count = single.symbols.iter().filter(|s| matches!(s, Symbol::Identifier(i) if i.name == "Ternary")).count();
    assert_eq!(count, 1);
    assert!(params(&g, "Ternary").is_empty());
}

fn calls_e_with_zero(alternative: &Alternative) -> bool {
    alternative.symbols.iter().any(|s| matches!(s, Symbol::Call { name, arguments }
        if name.name == "E" && arguments.len() == 1 && matches!(arguments[0], Expr::Int(0))))
}

#[test]
fn test_nullable_prefix_does_not_expose_indirect_left_end() {
    let g = desugar(vec![
        rule("E", vec![
            level(vec![alt(vec![lit("a")])]),
            assoc(Associativity::Left, vec![alt(vec![id("L"), lit("*"), id("R")])]),
        ]),
        rule("L", vec![level(vec![alt(vec![opt(lit("x")), id("E")])])]),
        rule("R", vec![level(vec![alt(vec![id("E")])])]),
    ]).unwrap();
    assert!(params(&g, "L").is_empty());
    assert!(calls_e_with_zero(alternatives(&g, "L")[0]));
}

#[test]
fn test_nullable_lexical_prefix_does_not_expose_indirect_left_end() {
    let g = desugar(vec![
        rule("E", vec![
            level(vec![alt(vec![lit("a")])]),
            assoc(Associativity::Left, vec![alt(vec![id("L"), lit("*"), id("R")])]),
        ]),
        rule("L", vec![level(vec![alt(vec![id("D"), id("E")])])]),
        rule("R", vec![level(vec![alt(vec![id("E")])])]),
    ]).unwrap();
    assert!(params(&g, "L").is_empty());
    assert!(calls_e_with_zero(alternatives(&g, "L")[0]));
}

#[test]
fn test_indirect_end_restricts_only_its_own_head() {
    let g = desugar(vec![
        rule("E", vec![
            level(vec![alt(vec![lit("a")])]),
            assoc(Associativity::Left, vec![alt(vec![id("L"), lit("*"), id("R")])]),
        ]),
        rule("L", vec![level(vec![alt(vec![id("E")]), alt(vec![id("F")])])]),
        rule("R", vec![level(vec![alt(vec![id("E")])])]),
        rule("F", vec![
            level(vec![alt(vec![lit("b")])]),
            assoc(Associativity::Left, vec![alt(vec![id("F"), lit("-"), id("F")])]),
        ]),
    ]).unwrap();
    assert_eq!(params(&g, "L").len(), 2);
    let l = alternatives(&g, "L");
    assert!(matches!(&l[0].symbols[0], Symbol::Binding { symbol, .. }
        if matches!(symbol.as_ref(), Symbol::Call { name, .. } if name.name == "E")));
    assert_eq!(call_args(&l[0].symbols[0]), ["p", "a"]);
    assert!(l[1].symbols.iter().any(|s| matches!(s, Symbol::Call { name, arguments }
        if name.name == "F" && arguments.len() == 1 && matches!(arguments[0], Expr::Int(0)))));
}

#[test]
fn test_nullable_symbol_does_not_expose_a_recursive_end() {
    let g = desugar(vec![rule("E", vec![
        level(vec![alt(vec![lit("a")])]),
        assoc(Associativity::Left, vec![alt(vec![opt(lit("-")), id("E"), lit("+"), id("E")])]),
    ])]).unwrap();
    let prefix = alternatives(&g, "E")[1];
    assert!(matches!(prefix.symbols[0], Symbol::Identifier(_)));
    let calls: Vec<(String, Vec<String>)> = prefix
        .symbols
        .iter()
        .filter_map(|s| match s {
            Symbol::Call { name, arguments } => Some((name.name.clone(), arguments.iter().map(|a| a.to_string()).collect())),
            _ => None,
        })
        .collect();
    assert_eq!(calls, vec![("E".to_string(), vec!["0".to_string()]), ("E".to_string(), vec!["1".to_string()])]);
}

#[test]
fn test_multi_head_indirect_end_is_rejected() {
    let errors = desugar(vec![
        rule("E", vec![
            level(vec![alt(vec![lit("a")])]),
            assoc(Associativity::Left, vec![alt(vec![id("E"), lit("+"), id("M")])]),
        ]),
        rule("F", vec![
            level(vec![alt(vec![lit("b")])]),
            assoc(Associativity::Left, vec![alt(vec![id("F"), lit("-"), id("M")])]),
        ]),
        rule("M", vec![level(vec![alt(vec![id("E")]), alt(vec![id("F")])])]),
    ]).unwrap_err();
    assert_eq!(
        errors,
        vec!["indirect precedence cannot be enforced for `M` because it serves multiple precedence heads; give each precedence rule its own intermediate nonterminal"]
    );
}

#[test]
fn test_dual_indirect_end_can_also_be_exclude_target() {
    let g = desugar(vec![
        rule("E", vec![
            level(vec![alt(vec![lit("a")])]),
            assoc(Associativity::Left, vec![alt(vec![id("L"), lit("*"), id("L")])]),
        ]),
        rule("L", vec![level(vec![
            alt_l(vec![id("E")], "plain"),
            alt_l(vec![lit("("), id("L"), lit(")")], "paren"),
        ])]),
        rule("C", vec![level(vec![alt(vec![exclude(id("L"), "paren")])])]),
        rule("D", vec![level(vec![alt(vec![Symbol::Binding {
            pattern: BindingPattern::Name("x".to_string()),
            symbol: Box::new(labeled("selected", exclude(id("L"), "paren"))),
        }])])]),
    ]).unwrap();
    assert_eq!(alternatives(&g, "D")[0].symbols[0].to_string(), "x=selected:L(0, 0, 0, 2)");
    assert_eq!(params(&g, "L"), ["p", "end", "a", "e"]);
    let binary = alternatives(&g, "E")[1];
    let left = binary
        .symbols
        .iter()
        .find(|s| matches!(s, Symbol::Binding { pattern, .. } if pattern.names()[0] == "l_pr"))
        .unwrap();
    assert_eq!(call_args(left), ["p", "0", "0", "0"]);
}

#[test]
fn test_indirect_end_preserves_label() {
    let g = desugar(vec![
        rule("E", vec![level(vec![alt(vec![lit("a")])]), level(vec![alt(vec![id("L"), lit("!")])])]),
        rule("L", vec![level(vec![alt(vec![labeled("lhs", id("E"))])])]),
    ]).unwrap();
    assert!(matches!(&alternatives(&g, "L")[0].symbols[0], Symbol::Binding { symbol, .. }
        if matches!(symbol.as_ref(), Symbol::Labeled { label, .. } if label == "lhs")));
}

#[test]
fn test_indirect_right_and_non_associativity_arguments() {
    for (associativity, right_arg) in [(Associativity::Right, "1"), (Associativity::NonAssoc, "2")] {
        let g = desugar(vec![
            rule("E", vec![
                level(vec![alt(vec![lit("a")])]),
                assoc(associativity, vec![alt(vec![id("L"), lit("@"), id("L")])]),
            ]),
            rule("L", vec![level(vec![alt(vec![id("E")])])]),
        ]).unwrap();
        let binary = alternatives(&g, "E")[1];
        assert_eq!(call_args(&binary.symbols[4]), [right_arg, "1"]);
        assert!(texts_of(binary).contains(&"[(l_pr == 0) || (l_pr >= 2)]".to_string()));
    }
}

#[test]
fn test_indirect_prefix_desugaring() {
    let g = desugar(vec![
        rule("E", vec![
            level(vec![alt(vec![lit("a")])]),
            level(vec![alt(vec![id("E"), lit("+"), id("E")])]),
            level(vec![alt(vec![id("Lambda")])]),
        ]),
        rule("Lambda", vec![level(vec![alt(vec![lit("fn"), id("Body")])])]),
        rule("Body", vec![level(vec![alt(vec![id("E")])])]),
    ]).unwrap();
    expect(&g, "E", &["p"], &[
        "\"a\" return 0",
        "[2 >= p] l_pr=E(p) [(l_pr == 0) || (l_pr >= 2)] \"+\" r_pr=E(2) return (r_pr == 0) ? 2 : min(r_pr, 2)",
        "Lambda(1) return 1",
    ]);
    expect(&g, "Lambda", &["p"], &["\"fn\" r_pr=Body(p) return r_pr"]);
    expect(&g, "Body", &["p"], &["r_pr=E(p) return r_pr"]);
}

#[test]
fn test_indirect_postfix_desugaring() {
    let g = desugar(vec![
        rule("E", vec![
            level(vec![alt(vec![lit("a")])]),
            level(vec![alt(vec![id("E"), lit("+"), id("E")])]),
            level(vec![alt(vec![id("Postfix")])]),
        ]),
        rule("Postfix", vec![level(vec![alt(vec![id("Body"), lit("!")])])]),
        rule("Body", vec![level(vec![alt(vec![id("E")])])]),
    ]).unwrap();
    expect(&g, "E", &["p"], &[
        "\"a\" return 0",
        "[2 >= p] l_pr=E(p) [(l_pr == 0) || (l_pr >= 2)] \"+\" E(2) return 2",
        "[1 >= p] l_pr=Postfix(p) [(l_pr == 0) || (l_pr >= 1)] return 0",
    ]);
    expect(&g, "Postfix", &["p"], &["l_pr=Body(p) \"!\" return l_pr"]);
    expect(&g, "Body", &["p"], &["l_pr=E(p) return l_pr"]);
}

#[test]
fn test_labeled_recursive_ends() {
    let g = desugar(vec![rule("E", vec![
        level(vec![alt(vec![lit("a")])]),
        assoc(Associativity::Left, vec![alt(vec![labeled("lhs", id("E")), lit("+"), labeled("rhs", id("E"))])]),
    ])]).unwrap();
    expect(&g, "E", &["p"], &[
        "\"a\" return 0",
        "[1 >= p] l_pr=lhs:E(p) [(l_pr == 0) || (l_pr >= 1)] \"+\" rhs:E(2) return 1",
    ]);
}

/// Every binding nested in `symbol`.
fn bindings<'a>(symbol: &'a Symbol, out: &mut Vec<&'a BindingPattern>) {
    match symbol {
        Symbol::Binding { pattern, symbol } => {
            out.push(pattern);
            bindings(symbol, out);
        },
        Symbol::Labeled { symbol, .. } | Symbol::Restricted { symbol, .. } | Symbol::Exclude { symbol, .. }
        | Symbol::Opt(symbol) => bindings(symbol, out),
        Symbol::Star(symbol, sep) | Symbol::Plus(symbol, sep) => {
            bindings(symbol, out);
            if let Some(sep) = sep {
                bindings(sep, out);
            }
        },
        Symbol::Group(symbols) | Symbol::Alt(symbols) => {
            for s in symbols {
                bindings(s, out);
            }
        },
        _ => {},
    }
}

#[test]
fn indirect_left_associativity_needs_an_argument_but_no_return_component() {
    let g = desugar(vec![
        rule("E", vec![
            level(vec![alt(vec![lit("a")])]),
            assoc(Associativity::Left, vec![alt(vec![id("L"), lit("+"), id("R")])]),
        ]),
        rule("L", vec![level(vec![alt(vec![id("E")]), alt(vec![lit("b")])])]),
        rule("R", vec![level(vec![alt(vec![id("E")]), alt(vec![lit("b")])])]),
    ]).unwrap();
    for name in ["E", "L", "R"] {
        assert!(params(&g, name).iter().any(|p| p == "a"));
        for alternative in alternatives(&g, name) {
            assert!(matches!(alternative.symbols.last(),
                Some(Symbol::Return(value)) if !matches!(value, Expr::Tuple(_))));
            let mut found = Vec::new();
            for symbol in &alternative.symbols {
                bindings(symbol, &mut found);
            }
            assert!(found.iter().all(|p| matches!(p, BindingPattern::Name(_))));
        }
    }
}

#[test]
fn literal_and_unlabeled_alternatives_keep_the_rules_return_shape() {
    let g = desugar(vec![
        rule("E", vec![
            level(vec![alt_l(vec![lit("a")], "Atom"), alt(vec![lit("b")])]),
            assoc(Associativity::NonAssoc, vec![alt_l(vec![id("L"), lit("+"), id("L")], "Add")]),
        ]),
        rule("L", vec![level(vec![alt(vec![id("E")]), alt(vec![lit("x")])])]),
        rule("S", vec![level(vec![alt(vec![exclude(id("E"), "Add")])])]),
    ]).unwrap();
    let e = alternatives(&g, "E");
    assert_eq!(e[0].symbols.last().unwrap().to_string(), "return (0, 0, 0)");
    assert_eq!(e[1].symbols.last().unwrap().to_string(), "return (0, 0, NO_LABEL)");
    let l = alternatives(&g, "L");
    assert_eq!(l[0].symbols[0].to_string(), "(v_pr, v_assoc, v_label)=E(p, a, 0)");
    assert_eq!(l[0].symbols.last().unwrap().to_string(), "return (v_pr, v_assoc)");
    assert_eq!(l[1].symbols.last().unwrap().to_string(), "return (UNDEFINED_PRECEDENCE, 0)");
    for (name, arity) in [("E", 3), ("L", 2)] {
        for alternative in alternatives(&g, name) {
            assert!(matches!(alternative.symbols.last(),
                Some(Symbol::Return(Expr::Tuple(values))) if values.len() == arity));
        }
    }
}

#[test]
fn test_recurses_indirectly() {
    let rules = lambda_rules(true);
    let ends = Ends::new(&rules);
    let alternatives = alternatives(&rules, "Expression");
    let right = |a: &Alternative| recurses_indirectly(a, "Expression", &ends, End::Right);
    assert!(!right(alternatives[0]));
    assert!(!right(alternatives[1]));
    assert!(right(alternatives[2]));
}
