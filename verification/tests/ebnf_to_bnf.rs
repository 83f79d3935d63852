use iguana::grammar::def::{Alternative, LayoutStrategy, PriorityLevel, SyntaxRule};
use iguana::grammar::symbols::{Identifier, Nonterminal, Symbol};
use iguana::grammar::transformations::ebnf_to_bnf::transform;

fn id(name: &str) -> Symbol {
    Symbol::Identifier(Identifier::new(name))
}

fn group(symbols: Vec<Symbol>) -> Symbol {
    Symbol::Group(symbols)
}

fn opt(symbol: Symbol) -> Symbol {
    Symbol::Opt(Box::new(symbol))
}

fn alt(symbols: Vec<Symbol>) -> Symbol {
    Symbol::Alt(symbols)
}

fn star(symbol: Symbol) -> Symbol {
    Symbol::Star(Box::new(symbol), None)
}

fn plus(symbol: Symbol) -> Symbol {
    Symbol::Plus(Box::new(symbol), None)
}

fn rule(name: &str, symbols: Vec<Symbol>) -> SyntaxRule {
    SyntaxRule::new(
        Nonterminal::new(name),
        vec![PriorityLevel::new(vec![Alternative { symbols, label: None }])],
    )
}

/// Each rule as `Head = alt | alt`, its symbols rendered.
fn render(rules: &[SyntaxRule]) -> Vec<String> {
    rules
        .iter()
        .map(|r| {
            let alternatives: Vec<String> = r.priority_levels[0]
                .alternatives
                .iter()
                .map(|a| a.to_string())
                .collect();
            format!("{} = {}", r.head.name, alternatives.join(" | "))
        })
        .collect()
}

#[test]
fn test_single_group_transformation() {
    // S ::= A (B C D) E
    let rules = vec![rule("S", vec![id("A"), group(vec![id("B"), id("C"), id("D")]), id("E")])];
    println!("Original grammar:\n{:?}\n", rules);
    let transformed = transform(rules);
    println!("Transformed grammar:\n{:?}", transformed);
}

#[test]
fn test_opt_transformation() {
    // S ::= A B? C
    let rules = vec![rule("S", vec![id("A"), opt(id("B")), id("C")])];
    println!("Original grammar:\n{:?}\n", rules);
    let transformed = transform(rules);
    println!("Transformed grammar:\n{:?}", transformed);
}

#[test]
fn test_alt_transformation() {
    // S ::= A (B | C | D) E
    let rules = vec![rule("S", vec![id("A"), alt(vec![id("B"), id("C"), id("D")]), id("E")])];
    println!("Original grammar:\n{:?}\n", rules);
    let transformed = transform(rules);
    println!("Transformed grammar:\n{:?}", transformed);
}

#[test]
fn test_star_transformation() {
    // S ::= A B* C
    let rules = vec![rule("S", vec![id("A"), star(id("B")), id("C")])];
    println!("Original grammar:\n{:?}\n", rules);
    let transformed = transform(rules);
    println!("Transformed grammar:\n{:?}", transformed);
}

#[test]
fn test_plus_transformation() {
    // S ::= A B+ C
    let rules = vec![rule("S", vec![id("A"), plus(id("B")), id("C")])];
    println!("Original grammar:\n{:?}\n", rules);
    let transformed = transform(rules);
    println!("Transformed grammar:\n{:?}", transformed);
}

#[test]
fn test_combined_transformations() {
    // S ::= A (B | C)* D+ E?
    let rules = vec![rule(
        "S",
        vec![id("A"), star(alt(vec![id("B"), id("C")])), plus(id("D")), opt(id("E"))],
    )];
    println!("Original grammar:\n{:?}\n", rules);
    let transformed = transform(rules);
    println!("Transformed grammar:\n{:?}", transformed);
}

#[test]
fn test_deeply_nested_symbols() {
    // S ::= A ( B | ( C | D)+)?
    let rules = vec![rule(
        "S",
        vec![id("A"), opt(alt(vec![id("B"), plus(alt(vec![id("C"), id("D")]))]))],
    )];
    println!("Original grammar:\n{:?}\n", rules);
    let transformed = transform(rules);
    println!("Transformed grammar:\n{:?}", transformed);
}

#[test]
fn generated_rules_follow_the_rewritten_ones_in_completion_order() {
    let rules = vec![rule("S", vec![id("A"), opt(alt(vec![id("B"), plus(alt(vec![id("C"), id("D")]))]))])];
    let transformed = transform(rules);
    assert_eq!(
        render(&transformed),
        [
            "S = A Opt_0",
            "Alt_1 = C | D",
            "Plus_0 = Plus_0 Alt_1 | Alt_1",
            "Alt_0 = B | Plus_0",
            "Opt_0 = Alt_0 | ",
        ]
    );
}

#[test]
fn star_becomes_an_optional_list() {
    let transformed = transform(vec![rule("S", vec![star(id("B"))])]);
    assert_eq!(
        render(&transformed),
        ["S = Star_0", "Plus_0 = Plus_0 B | B", "Opt_0 = Plus_0 | ", "Star_0 = Opt_0"]
    );
    assert_eq!(transformed[3].head.origin.as_ref().unwrap().to_string(), "B*");
}

#[test]
fn separated_list_puts_the_separator_between_elements() {
    let list = Symbol::Plus(Box::new(id("B")), Some(Box::new(Symbol::Literal(",".to_string()))));
    let transformed = transform(vec![rule("S", vec![list])]);
    assert_eq!(render(&transformed), ["S = Plus_0", "Plus_0 = Plus_0 \",\" B | B"]);
}

#[test]
fn repeated_symbols_share_one_generated_rule_per_layout() {
    let mut no_layout = rule("T", vec![opt(id("B"))]);
    no_layout.layout = LayoutStrategy::NoLayout;
    let transformed = transform(vec![rule("S", vec![opt(id("B")), opt(id("B"))]), no_layout]);
    assert_eq!(
        render(&transformed),
        ["S = Opt_0 Opt_0", "T = Opt_1", "Opt_0 = B | ", "Opt_1 = B | "]
    );
}

#[test]
fn the_same_symbol_under_another_layout_gets_a_fresh_rule() {
    let mut quiet = rule("B", vec![star(id("X"))]);
    quiet.layout = LayoutStrategy::NoLayout;
    let rules = vec![rule("A", vec![star(id("X"))]), quiet, rule("C", vec![star(id("X"))])];
    let out = transform(rules);
    let heads: Vec<String> = out.iter().map(|r| r.head.name.clone()).collect();
    let mut unique = heads.clone();
    unique.sort();
    unique.dedup();
    assert_eq!(unique.len(), heads.len());
    let stars = heads.iter().filter(|h| h.starts_with("Star_")).count();
    assert_eq!(stars, 2);
}
