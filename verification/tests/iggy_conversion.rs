use iguana::grammar::def::{Associativity, LayoutStrategy};
use iguana::grammar::regex::Regex;
use iguana::grammar::symbols::{Identifier, Restrictions, Symbol};
use iguana::iggy::{build_grammar, convert_alternative, convert_regex, convert_regex_rule, convert_symbol, convert_syntax_rule};
use iguana::tree::{
    TreeAlternative, TreeAnnotation, TreeAssociativity, TreeCharClass, TreeGrammar, TreePostCondition, TreePriorityLevel,
    TreeRangeElement, TreeRegex, TreeRegexPostCondition, TreeRegexRule, TreeRule, TreeSymbol, TreeSyntaxRule,
};

fn id(s: &str) -> TreeSymbol {
    TreeSymbol::Identifier(s.to_string())
}

fn post(symbol: TreeSymbol, conditions: Vec<TreePostCondition>) -> TreeSymbol {
    TreeSymbol::PostCondition(Box::new(symbol), conditions)
}

fn follow(s: &str) -> TreePostCondition {
    TreePostCondition::FollowRestriction(s.to_string())
}

fn except(s: &str) -> TreePostCondition {
    TreePostCondition::Except(s.to_string())
}

fn names(ids: &[Identifier]) -> Vec<&str> {
    ids.iter().map(|id| id.name.as_str()).collect()
}

/// The restrictions of a restricted symbol, and the symbol inside.
fn restricted(symbol: &Symbol) -> (&Symbol, &Restrictions) {
    match symbol {
        Symbol::Restricted { symbol, restrictions } => (symbol, restrictions),
        other => panic!("expected a restricted symbol, got {other:?}"),
    }
}

#[test]
fn test_restriction_kinds_of_one_symbol_land_in_one_node() {
    let symbol = convert_symbol(&post(id("Id"), vec![except("Kw"), follow("B")]));
    let (inner, restrictions) = restricted(&symbol);
    assert_eq!(names(&restrictions.excepts), ["Kw"]);
    assert_eq!(names(&restrictions.follow), ["B"]);
    assert!(matches!(inner, Symbol::Identifier(id) if id.name == "Id"));
}

#[test]
fn test_precede_and_follow_restrictions_land_in_one_node() {
    let tree = TreeSymbol::PreCondition(vec!["X".to_string()], Box::new(post(id("A"), vec![follow("B")])));
    let symbol = convert_symbol(&tree);
    let (_, restrictions) = restricted(&symbol);
    assert_eq!(names(&restrictions.precede), ["X"]);
    assert_eq!(names(&restrictions.follow), ["B"]);
}

#[test]
fn test_restrictions_keep_their_source_order() {
    let tree = TreeSymbol::PreCondition(
        vec!["X".to_string(), "Y".to_string()],
        Box::new(post(id("A"), vec![follow("B"), follow("C"), except("K1"), except("K2")])),
    );
    let symbol = convert_symbol(&tree);
    let (_, restrictions) = restricted(&symbol);
    assert_eq!(names(&restrictions.precede), ["X", "Y"]);
    assert_eq!(names(&restrictions.follow), ["B", "C"]);
    assert_eq!(names(&restrictions.excepts), ["K1", "K2"]);
}

#[test]
fn test_restriction_written_twice_is_recorded_once() {
    let symbol = convert_symbol(&post(id("A"), vec![follow("B"), except("K"), follow("B")]));
    assert_eq!(names(&restricted(&symbol).1.follow), ["B"]);
}

#[test]
fn test_layout_aware_and_plain_follow_restrictions_stay_apart() {
    let tree = post(id("A"), vec![follow("B"), TreePostCondition::LayoutAwareFollowRestriction("C".to_string())]);
    let symbol = convert_symbol(&tree);
    let (_, restrictions) = restricted(&symbol);
    assert_eq!(names(&restrictions.follow), ["B"]);
    assert_eq!(names(&restrictions.layout_aware_follow), ["C"]);
}

#[test]
fn test_label_stays_above_the_restrictions() {
    let tree = TreeSymbol::Labeled("x".to_string(), Box::new(post(id("A"), vec![follow("B")])));
    let symbol = convert_symbol(&tree);
    let Symbol::Labeled { label, symbol } = &symbol else {
        panic!("expected a labeled symbol, got {symbol:?}");
    };
    assert_eq!(label, "x");
    assert_eq!(names(&restricted(symbol).1.follow), ["B"]);
}

#[test]
fn test_restrictions_of_a_parenthesized_symbol_apply_to_the_group() {
    let tree = post(TreeSymbol::Paren(vec![vec![id("A"), id("B")]]), vec![follow("C")]);
    let symbol = convert_symbol(&tree);
    let (inner, restrictions) = restricted(&symbol);
    assert_eq!(names(&restrictions.follow), ["C"]);
    assert!(matches!(inner, Symbol::Group(symbols) if symbols.len() == 2));
}

#[test]
fn test_exclusion_stays_below_the_restrictions() {
    let exclude = || TreePostCondition::Exclude("label".to_string());
    for conditions in [vec![exclude(), follow("B")], vec![follow("B"), exclude()]] {
        let symbol = convert_symbol(&post(id("A"), conditions));
        let (inner, restrictions) = restricted(&symbol);
        assert_eq!(names(&restrictions.follow), ["B"]);
        assert!(matches!(inner, Symbol::Exclude { labels, .. } if labels == &["label"]));
    }
}

#[test]
fn exclusion_alone_is_not_restricted() {
    let symbol = convert_symbol(&post(id("A"), vec![TreePostCondition::Exclude("l".to_string())]));
    assert!(matches!(symbol, Symbol::Exclude { labels, .. } if labels == ["l"]));
}

#[test]
fn literals_lose_quotes_and_escapes() {
    let symbol = convert_symbol(&TreeSymbol::Lit("\"a\\nb\"".to_string()));
    assert!(matches!(symbol, Symbol::Literal(text) if text == "a\nb"));
}

#[test]
fn parentheses_make_groups_and_alternations() {
    let alt = convert_symbol(&TreeSymbol::Paren(vec![vec![id("A")], vec![id("B"), id("C")]]));
    let Symbol::Alt(choices) = alt else { panic!("expected an alternation") };
    assert_eq!(choices.len(), 2);
    assert!(matches!(&choices[0], Symbol::Identifier(id) if id.name == "A"));
    assert!(matches!(&choices[1], Symbol::Group(g) if g.len() == 2));
    let star = convert_symbol(&TreeSymbol::StarSep(Box::new(id("A")), Box::new(id("Comma"))));
    assert!(matches!(star, Symbol::Star(_, Some(_))));
    let plus = convert_symbol(&TreeSymbol::Plus(Box::new(id("A"))));
    assert!(matches!(plus, Symbol::Plus(_, None)));
}

#[test]
fn alternatives_keep_label_names_without_hash() {
    let alt = convert_alternative(&TreeAlternative::Symbols { symbols: vec![id("A")], label: Some("#Add".to_string()) });
    assert_eq!(alt.label.as_deref(), Some("Add"));
    assert_eq!(alt.symbols.len(), 1);
    let empty = convert_alternative(&TreeAlternative::Empty { label: None });
    assert!(empty.symbols.is_empty() && empty.label.is_none());
}

#[test]
fn syntax_rules_take_annotation_and_associativity() {
    let rule = TreeSyntaxRule {
        annotation: Some(TreeAnnotation::WithLayout("WS".to_string())),
        head: "E".to_string(),
        priority_levels: vec![TreePriorityLevel {
            associativity: Some(TreeAssociativity::Right),
            alternatives: vec![TreeAlternative::Symbols { symbols: vec![id("E"), id("E")], label: None }],
        }],
    };
    let converted = convert_syntax_rule(&rule);
    assert_eq!(converted.head.name, "E");
    assert!(matches!(&converted.layout, LayoutStrategy::Custom(id) if id.name == "WS"));
    assert!(matches!(converted.priority_levels[0].associativity, Some(Associativity::Right)));
}

#[test]
fn regexes_convert_classes_strings_and_characters() {
    let class = TreeRegex::CharClass(TreeCharClass {
        negated: true,
        elements: vec![TreeRangeElement::Range("a".to_string(), "z".to_string()), TreeRangeElement::Char("\\n".to_string())],
    });
    let Regex::CharClass(cc) = convert_regex(&class) else { panic!("expected a class") };
    assert!(cc.negated);
    assert_eq!((cc.ranges[0].start, cc.ranges[0].end), ('a', 'z'));
    assert_eq!((cc.ranges[1].start, cc.ranges[1].end), ('\n', '\n'));
    let Regex::Sequence(chars) = convert_regex(&TreeRegex::Lit("\"ab\"".to_string())) else { panic!() };
    assert!(matches!(chars[..], [Regex::Char('a'), Regex::Char('b')]));
    assert!(matches!(convert_regex(&TreeRegex::Char("'\\t'".to_string())), Regex::Char('\t')));
}

#[test]
fn regex_rules_collect_their_conditions() {
    let rule = TreeRegexRule {
        layout: false,
        identifier: true,
        name: "Id".to_string(),
        pre_condition: Some("Dot".to_string()),
        body: vec![vec![TreeRegex::Identifier("Letter".to_string())], vec![TreeRegex::Identifier("Digit".to_string())]],
        post_conditions: vec![
            TreeRegexPostCondition::Except("Kw".to_string()),
            TreeRegexPostCondition::FollowRestriction("Digit".to_string()),
        ],
    };
    let lexical = convert_regex_rule(&rule);
    assert_eq!(lexical.head.name, "Id");
    assert_eq!(names(&lexical.except), ["Kw"]);
    assert_eq!(names(&lexical.follow_restriction), ["Digit"]);
    assert_eq!(lexical.precede_restriction.map(|id| id.name), Some("Dot".to_string()));
    assert!(matches!(lexical.regex, Regex::Alt(ref parts) if parts.len() == 2));
}

#[test]
fn the_layout_rule_gets_no_layout_inside() {
    let ws = TreeSyntaxRule {
        annotation: Some(TreeAnnotation::Layout),
        head: "WS".to_string(),
        priority_levels: vec![TreePriorityLevel {
            associativity: None,
            alternatives: vec![TreeAlternative::Empty { label: None }],
        }],
    };
    let s = TreeSyntaxRule {
        annotation: None,
        head: "S".to_string(),
        priority_levels: vec![TreePriorityLevel {
            associativity: None,
            alternatives: vec![TreeAlternative::Symbols { symbols: vec![id("A")], label: None }],
        }],
    };
    let a = TreeRegexRule {
        layout: false,
        identifier: true,
        name: "A".to_string(),
        pre_condition: None,
        body: vec![vec![TreeRegex::Lit("\"a\"".to_string())]],
        post_conditions: vec![],
    };
    let grammar = TreeGrammar { name: "G".to_string(), rules: vec![TreeRule::Syntax(s), TreeRule::Regex(a), TreeRule::Syntax(ws)] };
    let def = build_grammar(&grammar);
    assert_eq!(def.name, "G");
    assert_eq!(def.syntax_rules.len(), 2);
    assert_eq!(def.lexical_rules.len(), 1);
    assert!(matches!(def.syntax_rules[0].layout, LayoutStrategy::Default));
    assert!(matches!(def.syntax_rules[1].layout, LayoutStrategy::NoLayout));
    assert!(matches!(&def.layout, Some(Symbol::Identifier(id)) if id.name == "WS"));
    assert_eq!(names(&def.identifier_rules), ["A"]);
}
