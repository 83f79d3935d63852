use iguana::grammar::def::{Alternative, LayoutStrategy, PriorityLevel, SyntaxRule};
use iguana::grammar::symbols::{Identifier, Nonterminal, Restrictions, Symbol};
use iguana::grammar::transformations::layout_insertion::{
    add_follow_restriction, strip_layout_aware_restrictions, transform,
};

fn id(name: &str) -> Symbol {
    Symbol::Identifier(Identifier::new(name))
}

fn ids(names: &[&str]) -> Vec<Identifier> {
    names.iter().map(|n| Identifier::new(n)).collect()
}

fn rule(name: &str, symbols: Vec<Symbol>) -> SyntaxRule {
    SyntaxRule::new(
        Nonterminal::new(name),
        vec![PriorityLevel::new(vec![Alternative { symbols, label: None }])],
    )
}

fn texts(symbols: &[Symbol]) -> Vec<String> {
    symbols.iter().map(|s| s.to_string()).collect()
}

/// A rule that gets no layout has its `!>>>` restrictions rewritten to
/// `!>>`. When the symbol already has the same restriction as a `!>>`, the
/// rewrite must not list it twice.
#[test]
fn test_rewritten_layout_aware_restriction_is_not_listed_twice() {
    let symbol = Symbol::restricted(
        id("A"),
        Restrictions {
            precede: vec![],
            excepts: vec![],
            follow: ids(&["B"]),
            layout_aware_follow: ids(&["B"]),
        },
    );
    let (symbol, stripped) = strip_layout_aware_restrictions(&symbol);
    let symbol = add_follow_restriction(symbol, stripped);
    let follow: Vec<&str> = symbol
        .restrictions()
        .follow
        .iter()
        .map(|id| id.name.as_str())
        .collect();
    assert_eq!(follow, ["B"]);
}

#[test]
fn layout_goes_between_parse_tree_symbols_only() {
    let symbols = vec![id("B"), Symbol::Condition(iguana::grammar::symbols::Expr::Int(1)), id("C")];
    let rules = transform(vec![rule("A", symbols)], Some(&id("Layout")));
    let out = &rules[0].priority_levels[0].alternatives[0].symbols;
    assert_eq!(texts(out), ["B", "[1]", "Layout", "C"]);
}

#[test]
fn layout_aware_follow_moves_onto_the_inserted_layout() {
    let restricted = Symbol::restricted(
        id("B"),
        Restrictions { precede: vec![], excepts: vec![], follow: vec![], layout_aware_follow: ids(&["X"]) },
    );
    let last = Symbol::restricted(
        id("C"),
        Restrictions { precede: vec![], excepts: vec![], follow: vec![], layout_aware_follow: ids(&["Y"]) },
    );
    let rules = transform(vec![rule("A", vec![restricted, last])], Some(&id("Layout")));
    let out = &rules[0].priority_levels[0].alternatives[0].symbols;
    assert_eq!(out.len(), 3);
    assert!(matches!(out[0], Symbol::Identifier(_)));
    let layout_follow: Vec<&str> = out[1].restrictions().follow.iter().map(|id| id.name.as_str()).collect();
    assert_eq!(layout_follow, ["X"]);
    let kept: Vec<&str> = out[2].restrictions().layout_aware_follow.iter().map(|id| id.name.as_str()).collect();
    assert_eq!(kept, ["Y"]);
}

#[test]
fn no_layout_rule_rewrites_layout_aware_follow() {
    let restricted = Symbol::restricted(
        id("B"),
        Restrictions { precede: vec![], excepts: vec![], follow: vec![], layout_aware_follow: ids(&["X"]) },
    );
    let mut r = rule("A", vec![restricted, id("C")]);
    r.layout = LayoutStrategy::NoLayout;
    let rules = transform(vec![r], Some(&id("Layout")));
    let out = &rules[0].priority_levels[0].alternatives[0].symbols;
    assert_eq!(out.len(), 2);
    let follow: Vec<&str> = out[0].restrictions().follow.iter().map(|id| id.name.as_str()).collect();
    assert_eq!(follow, ["X"]);
    assert!(out[0].restrictions().layout_aware_follow.is_empty());
}
