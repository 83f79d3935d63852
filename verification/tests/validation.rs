use iguana::grammar::def::{Alternative, GrammarDef, LexicalRule, PriorityLevel, SyntaxRule};
use iguana::grammar::regex::Regex;
use iguana::grammar::symbols::{Identifier, Nonterminal, Restrictions, Symbol, Terminal};
use iguana::validation::{
    constant_name, lexical_head, lexical_restrictions, render_labels, validate, RestrictionKind,
};

#[test]
fn restriction_kinds_have_message_names() {
    assert_eq!(RestrictionKind::Except.name(), "except");
    assert_eq!(RestrictionKind::Follow.name(), "follow restriction");
    assert_eq!(RestrictionKind::LayoutAwareFollow.name(), "layout-aware follow restriction");
    assert_eq!(RestrictionKind::Precede.name(), "precede restriction");
}

#[test]
fn lexical_restrictions_come_in_operator_order() {
    let mut rule = LexicalRule::new(Terminal::new("Id"), Regex::char('a'));
    rule.except = vec![Identifier::new("Keyword")];
    rule.follow_restriction = vec![Identifier::new("Digit"), Identifier::new("Letter")];
    rule.precede_restriction = Some(Identifier::new("Dot"));
    let restrictions = lexical_restrictions(&rule);
    let described: Vec<(RestrictionKind, &str)> =
        restrictions.iter().map(|(kind, id)| (*kind, id.name.as_str())).collect();
    assert_eq!(
        described,
        [
            (RestrictionKind::Except, "Keyword"),
            (RestrictionKind::Follow, "Digit"),
            (RestrictionKind::Follow, "Letter"),
            (RestrictionKind::Precede, "Dot"),
        ]
    );
}

#[test]
fn labels_render_as_written() {
    assert_eq!(render_labels(&vec!["a".to_string(), "b".to_string()]), "!a!b");
    assert_eq!(render_labels(&Vec::new()), "");
}

#[test]
fn constant_names_are_upper_snake_case() {
    assert_eq!(constant_name("LineComment"), "LINE_COMMENT");
    assert_eq!(constant_name("HTMLParser"), "HTML_PARSER");
}

#[test]
fn lexical_heads_are_found_by_name() {
    let grammar = GrammarDef {
        name: "T".to_string(),
        syntax_rules: Vec::new(),
        lexical_rules: vec![LexicalRule::new(Terminal::new("A"), Regex::char('a'))],
        layout: None,
        identifier_rules: Vec::new(),
    };
    assert_eq!(lexical_head(&grammar, "A").map(|t| t.name.as_str()), Some("A"));
    assert!(lexical_head(&grammar, "B").is_none());
}

fn reference(name: &str) -> Symbol {
    Symbol::Identifier(Identifier::new(name))
}

fn rule(name: &str, alternatives: Vec<(Vec<Symbol>, Option<&str>)>) -> SyntaxRule {
    let alternatives = alternatives
        .into_iter()
        .map(|(symbols, label)| Alternative {
            symbols,
            label: label.map(|l| l.to_string()),
        })
        .collect();
    SyntaxRule::new(Nonterminal::new(name), vec![PriorityLevel::new(alternatives)])
}

fn grammar(syntax_rules: Vec<SyntaxRule>, lexical_rules: Vec<LexicalRule>) -> GrammarDef {
    GrammarDef {
        name: "G".to_string(),
        syntax_rules,
        lexical_rules,
        layout: None,
        identifier_rules: Vec::new(),
    }
    .resolve()
}

fn lexical(name: &str) -> LexicalRule {
    LexicalRule::new(Terminal::new(name), Regex::char('a'))
}

fn errors_of(g: &GrammarDef) -> Vec<String> {
    validate(g, "GParser", "GParseTreeBuilder")
}

#[test]
fn a_valid_grammar_has_no_errors() {
    let g = grammar(
        vec![rule("S", vec![(vec![reference("A"), reference("S")], Some("more")), (vec![], Some("done"))])],
        vec![lexical("A")],
    );
    assert!(errors_of(&g).is_empty());
}

#[test]
fn duplicates_and_unresolved_names_are_reported() {
    let g = grammar(
        vec![
            rule("S", vec![(vec![reference("Missing")], None)]),
            rule("A", vec![(vec![], None)]),
        ],
        vec![lexical("A")],
    );
    assert_eq!(
        errors_of(&g),
        vec![
            "duplicate definition `A`".to_string(),
            "unresolved identifier `Missing`".to_string(),
        ]
    );
}

#[test]
fn generated_name_collisions_are_reported_once_per_pair() {
    let g = grammar(
        vec![rule("Foo", vec![(vec![], None)]), rule("foo", vec![(vec![], None)])],
        vec![],
    );
    assert_eq!(
        errors_of(&g),
        vec!["`Foo` and `foo` have the same generated name `Foo`".to_string()]
    );
}

#[test]
fn exclusions_must_name_alternatives_of_a_syntax_rule() {
    let excluded = |target: Symbol, labels: &[&str]| Symbol::Exclude {
        symbol: Box::new(target),
        labels: labels.iter().map(|l| l.to_string()).collect(),
    };
    let g = grammar(
        vec![
            rule(
                "S",
                vec![
                    (vec![excluded(reference("E"), &["add", "nope"])], None),
                    (vec![excluded(reference("A"), &["x"])], None),
                    (vec![excluded(Symbol::Group(vec![reference("E")]), &["add"])], None),
                ],
            ),
            rule("E", vec![(vec![reference("A")], Some("add"))]),
        ],
        vec![lexical("A")],
    );
    assert_eq!(
        errors_of(&g),
        vec![
            "unresolved label `nope`".to_string(),
            "exclusion `!x` only applies to a syntax rule reference, and `A` is a lexical rule".to_string(),
            "exclusion `!add` only applies to a syntax rule reference".to_string(),
        ]
    );
}

#[test]
fn restriction_operands_must_be_unrestricted_lexical_rules() {
    let mut restrictions = Restrictions::new();
    restrictions.excepts = vec![Identifier::new("Id")];
    restrictions.follow = vec![Identifier::new("S")];
    let restricted = Symbol::Restricted {
        symbol: Box::new(reference("Id")),
        restrictions,
    };
    let mut id = lexical("Id");
    id.follow_restriction = vec![Identifier::new("A")];
    let g = grammar(vec![rule("S", vec![(vec![restricted], None)])], vec![id, lexical("A")]);
    assert_eq!(
        errors_of(&g),
        vec![
            "except `Id` must name a lexical rule with no restrictions of its own".to_string(),
            "follow restriction `S` must name a lexical rule, not a syntax rule".to_string(),
        ]
    );
}

#[test]
fn nested_labels_and_reserved_names_are_reported() {
    let nested = Symbol::Labeled {
        label: "outer".to_string(),
        symbol: Box::new(Symbol::Labeled {
            label: "inner".to_string(),
            symbol: Box::new(reference("A")),
        }),
    };
    let span_label = Symbol::Labeled {
        label: "Span".to_string(),
        symbol: Box::new(reference("A")),
    };
    let g = grammar(
        vec![
            rule("S", vec![(vec![nested], Some("amb")), (vec![span_label], Some("alt2"))]),
            rule("Token", vec![(vec![], Some("x")), (vec![], Some("X"))]),
            rule("StartS", vec![(vec![], None)]),
            rule("GParser", vec![(vec![], None)]),
        ],
        vec![lexical("A")],
    );
    assert_eq!(
        errors_of(&g),
        vec![
            "labels cannot be nested directly: `outer:inner:` applies two labels to one symbol".to_string(),
            "`#amb` becomes `Amb`, which is reserved for ambiguous alternatives".to_string(),
            "`#alt2` becomes `Alt2`, which is reserved for unlabeled alternatives".to_string(),
            "`Token` is a reserved name in the generated parse tree".to_string(),
            "`#x` and `#X` both become the generated variant `X`".to_string(),
            "`StartS` collides with the generated start wrapper for `S`".to_string(),
            "`GParser` is a reserved name in the generated parse tree".to_string(),
            "`Span` becomes the field `span`, which the generator uses for an alternative's span".to_string(),
        ]
    );
}

#[test]
fn the_layout_rule_cannot_be_an_identifier_rule() {
    let mut g = grammar(vec![rule("S", vec![(vec![], None)])], vec![lexical("Ws")]);
    g.layout = Some(reference("Ws"));
    g.identifier_rules = vec![Identifier::new("Ws")];
    assert_eq!(
        errors_of(&g),
        vec!["`Ws` cannot be both the layout rule and an identifier rule".to_string()]
    );
}

#[test]
fn a_grammar_needs_a_syntax_rule() {
    let g = grammar(vec![], vec![lexical("A")]);
    assert_eq!(errors_of(&g), vec!["grammar `G` has no syntax rules".to_string()]);
}

#[test]
fn accepted_lexical_rules_inline() {
    // No duplicate-definition error, so the lexical rules have distinct
    // names, as inlining their references requires.
    let mut digits = lexical("Digits");
    digits.regex = Regex::plus(Regex::Identifier(Identifier::new("Digit")));
    let g = grammar(
        vec![rule("S", vec![(vec![reference("Digits")], None)])],
        vec![digits, lexical("Digit")],
    );
    assert!(errors_of(&g).is_empty());
    let inlined = iguana::grammar::regex_inlining::inline_regex_refs(g.lexical_rules).unwrap();
    assert_eq!(inlined.len(), 2);
    assert!(iguana::grammar::equality::regex_eq(
        &inlined[0].regex,
        &Regex::plus(Regex::char('a'))
    ));
}
