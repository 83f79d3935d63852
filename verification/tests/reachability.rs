use iguana::grammar::def::{Alternative, PriorityLevel, SyntaxRule};
use iguana::grammar::reachability::ReachabilityGraph;
use iguana::grammar::symbols::{Identifier, Nonterminal, Symbol};

fn id(name: &str) -> Symbol {
    Symbol::Identifier(Identifier::new(name))
}

fn lit(text: &str) -> Symbol {
    Symbol::Literal(text.to_string())
}

fn rule(name: &str, alternatives: Vec<Vec<Symbol>>) -> SyntaxRule {
    SyntaxRule::new(
        Nonterminal::new(name),
        vec![PriorityLevel::new(
            alternatives
                .into_iter()
                .map(|symbols| Alternative { symbols, label: None })
                .collect(),
        )],
    )
}

fn grammar() -> Vec<SyntaxRule> {
    vec![
        // 0: S = A "x" NUM
        rule("S", vec![vec![id("A"), lit("x"), id("NUM")]]),
        // 1: A = B | C
        rule("A", vec![vec![id("B")], vec![id("C")]]),
        // 2: B = "b"
        rule("B", vec![vec![lit("b")]]),
        // 3: C = C "c"
        rule("C", vec![vec![id("C"), lit("c")]]),
        // 4: D = {S E}*
        rule("D", vec![vec![Symbol::Star(Box::new(id("S")), Some(Box::new(id("E"))))]]),
        // 5: E = "e"
        rule("E", vec![vec![lit("e")]]),
        // 6: F = label:B(…)
        rule(
            "F",
            vec![vec![Symbol::Labeled {
                label: "call".to_string(),
                symbol: Box::new(Symbol::Call { name: Identifier::new("B"), arguments: vec![] }),
            }]],
        ),
    ]
}

#[test]
fn reachable_rules_follow_references_transitively() {
    let rules = grammar();
    let graph = ReachabilityGraph::new(&rules);
    assert_eq!(graph.reachable(0), vec![1, 2, 3]);
    assert_eq!(graph.reachable(1), vec![2, 3]);
    assert_eq!(graph.reachable(2), Vec::<usize>::new());
}

#[test]
fn a_rule_reaches_itself_only_through_a_cycle() {
    let rules = grammar();
    let graph = ReachabilityGraph::new(&rules);
    assert_eq!(graph.reachable(3), vec![3]);
    assert!(!graph.reachable(0).contains(&0));
}

#[test]
fn separators_and_terminal_names_lead_nowhere() {
    let rules = grammar();
    let graph = ReachabilityGraph::new(&rules);
    assert_eq!(graph.reachable(4), vec![0, 1, 2, 3]);
    assert_eq!(graph.reachable(5), Vec::<usize>::new());
}

#[test]
fn a_call_leads_to_the_called_rule() {
    let rules = grammar();
    let graph = ReachabilityGraph::new(&rules);
    assert_eq!(graph.reachable(6), vec![2]);
}

#[test]
fn reachability_is_transitive_on_an_example() {
    let rules = grammar();
    let graph = ReachabilityGraph::new(&rules);
    for i in 0..rules.len() {
        let from_i = graph.reachable(i);
        for &j in &from_i {
            for k in graph.reachable(j) {
                assert!(from_i.contains(&k));
            }
        }
    }
}
