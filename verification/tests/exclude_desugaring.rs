use iguana::grammar::def::{Alternative, PriorityLevel, SyntaxRule};
use iguana::grammar::symbols::{Identifier, Nonterminal, Symbol};
use iguana::grammar::transformations::exclude_desugaring::transform;

fn id(name: &str) -> Symbol {
    Symbol::Identifier(Identifier::new(name))
}

fn lit(text: &str) -> Symbol {
    Symbol::Literal(text.to_string())
}

fn exclude(symbol: Symbol, labels: &[&str]) -> Symbol {
    Symbol::Exclude {
        symbol: Box::new(symbol),
        labels: labels.iter().map(|l| l.to_string()).collect(),
    }
}

fn alternative(symbols: Vec<Symbol>, label: Option<&str>) -> Alternative {
    Alternative { symbols, label: label.map(|l| l.to_string()) }
}

fn rule(name: &str, alternatives: Vec<Alternative>) -> SyntaxRule {
    SyntaxRule::new(Nonterminal::new(name), vec![PriorityLevel::new(alternatives)])
}

//   E = "a" #blocked
//     | "b"
//   S = E !blocked
//
// After exclusion desugaring:
//
//   E(e: i32)
//     = [1 & e == 0] "a" return (0, 0)        #blocked
//     | "b"              return (0, NO_LABEL)
//   S = E(1)
#[test]
fn unlabeled_alternative_returns_no_label_before_precedence_desugaring() {
    let rules = transform(vec![
        rule("E", vec![alternative(vec![lit("a")], Some("blocked")), alternative(vec![lit("b")], None)]),
        rule("S", vec![alternative(vec![exclude(id("E"), &["blocked"])], None)]),
    ]);
    let alternatives = &rules[0].priority_levels[0].alternatives;
    assert_eq!(
        alternatives[0].symbols.last().unwrap().to_string(),
        "return (0, 0)"
    );
    assert_eq!(
        alternatives[1].symbols.last().unwrap().to_string(),
        "return (0, NO_LABEL)"
    );
}

#[test]
fn exclusions_become_mask_calls_and_targets_get_guards() {
    let rules = transform(vec![
        rule(
            "Expr",
            vec![
                alternative(vec![id("Id")], Some("Id")),
                alternative(vec![id("Expr"), lit(","), id("Expr")], Some("Comma")),
                alternative(vec![lit("("), exclude(id("Expr"), &["Comma"]), lit(")")], Some("Group")),
            ],
        ),
        rule("S", vec![alternative(vec![exclude(id("Expr"), &["Comma", "Group"])], None)]),
    ]);
    assert_eq!(rules[0].head.parameters.len(), 1);
    assert_eq!(rules[0].head.parameters[0].name, "e");
    let texts: Vec<Vec<String>> = rules[0].priority_levels[0]
        .alternatives
        .iter()
        .map(|a| a.symbols.iter().map(|s| s.to_string()).collect())
        .collect();
    assert_eq!(texts[0], ["[1 & e == 0]", "Id", "return (0, 0)"]);
    assert_eq!(texts[1], ["[2 & e == 0]", "Expr(0)", "\",\"", "Expr(0)", "return (0, 1)"]);
    assert_eq!(texts[2], ["[4 & e == 0]", "\"(\"", "Expr(2)", "\")\"", "return (0, 2)"]);
    assert_eq!(rules[1].priority_levels[0].alternatives[0].symbols[0].to_string(), "Expr(6)");
    assert!(rules[1].head.parameters.is_empty());
}

#[test]
fn without_exclusions_the_grammar_is_unchanged() {
    let rules = transform(vec![rule("S", vec![alternative(vec![id("A"), lit("b")], Some("L"))])]);
    assert_eq!(rules.len(), 1);
    assert_eq!(rules[0].priority_levels[0].alternatives[0].symbols.len(), 2);
    assert!(rules[0].head.parameters.is_empty());
}
