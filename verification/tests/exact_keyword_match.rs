use iguana::grammar::regex::CharRange;
use iguana::grammar::transformations::exact_keyword_match::{
    derive_restrictions, merge_ranges, Dfa, DfaState,
};

fn class(ranges: &[(char, char)]) -> Vec<CharRange> {
    ranges
        .iter()
        .map(|&(start, end)| CharRange { start, end })
        .collect()
}

#[test]
fn adjacent_and_overlapping_ranges_merge() {
    assert_eq!(
        merge_ranges(class(&[('n', 'z'), ('a', 'm'), ('c', 'f')])),
        class(&[('a', 'z')])
    );
}

#[test]
fn disjoint_ranges_stay_apart_and_are_sorted() {
    assert_eq!(
        merge_ranges(class(&[('x', 'z'), ('0', '9'), ('a', 'c'), ('_', '_')])),
        class(&[('0', '9'), ('_', '_'), ('a', 'c'), ('x', 'z')])
    );
    assert_eq!(merge_ranges(Vec::new()), Vec::<CharRange>::new());
}

/// `[a-z][0-9a-z]*` written out as an automaton: state 0 is the start, state
/// 1 accepts and loops on letters and digits.
fn identifier() -> Dfa {
    let letters = CharRange { start: 'a', end: 'z' };
    let digits = CharRange { start: '0', end: '9' };
    Dfa {
        states: vec![
            DfaState { transitions: vec![(letters, 1)], accept: None },
            DfaState { transitions: vec![(letters, 1), (digits, 1)], accept: Some(0) },
        ],
    }
}

#[test]
fn identifier_shaped_literal_gets_both_classes() {
    let dfas = [identifier()];
    let classes = derive_restrictions(&dfas, "else").unwrap();
    assert_eq!(classes.follow, class(&[('0', '9'), ('a', 'z')]));
    assert_eq!(classes.precede, class(&[('0', '9'), ('a', 'z')]));
}

#[test]
fn other_literals_derive_nothing() {
    let dfas = [identifier()];
    assert!(derive_restrictions(&dfas, "++").is_none());
    assert!(derive_restrictions(&dfas, "else if").is_none());
    assert!(derive_restrictions(&dfas, "").is_none());
    assert!(derive_restrictions(&dfas, "1a").is_none());
}

#[test]
fn walking_a_literal_follows_the_transitions() {
    let dfa = identifier();
    assert_eq!(dfa.state_after(""), Some(0));
    assert_eq!(dfa.state_after("a1"), Some(1));
    assert_eq!(dfa.state_after("9"), None);
}


use iguana::grammar::def::{Alternative, LayoutStrategy, PriorityLevel, SyntaxRule};
use iguana::grammar::symbols::{Definition, DefinitionId, Identifier, Nonterminal, Restrictions, Symbol, Terminal};
use iguana::grammar::transformations::exact_keyword_match::transform;

fn reference(name: &str, index: u16) -> Symbol {
    let mut id = Identifier::new(name);
    id.definition = Some(DefinitionId(index));
    Symbol::Identifier(id)
}

fn definitions() -> Vec<Definition> {
    vec![
        Definition::Terminal(Terminal::literal("else")),
        Definition::Terminal(Terminal::literal("++")),
        Definition::Nonterminal(Nonterminal::new("S")),
    ]
}

fn statement_rule(layout: LayoutStrategy) -> SyntaxRule {
    let mut rule = SyntaxRule::new(
        Nonterminal::new("S"),
        vec![PriorityLevel::new(vec![Alternative {
            symbols: vec![reference("\"else\"", 0), reference("\"++\"", 1)],
            label: None,
        }])],
    );
    rule.layout = layout;
    rule
}

#[test]
fn keywords_get_the_derived_pair_and_one_class_rule() {
    let (rules, lexical) = transform(vec![statement_rule(LayoutStrategy::Default)], Vec::new(), &definitions(), &vec![identifier()]);
    let symbols = &rules[0].priority_levels[0].alternatives[0].symbols;
    match &symbols[0] {
        Symbol::Restricted { restrictions, .. } => {
            assert_eq!(restrictions.precede.len(), 1);
            assert_eq!(restrictions.follow.len(), 1);
            assert_eq!(restrictions.precede[0].name, "[0-9 a-z]");
            assert_eq!(restrictions.follow[0].name, "[0-9 a-z]");
        }
        other => panic!("expected a restricted keyword, got {other:?}"),
    }
    assert!(matches!(symbols[1], Symbol::Identifier(_)));
    assert_eq!(lexical.len(), 1);
    assert_eq!(lexical[0].head.name, "[0-9 a-z]");
}

#[test]
fn no_layout_rules_and_grammars_without_identifier_rules_stay() {
    let (rules, lexical) = transform(vec![statement_rule(LayoutStrategy::NoLayout)], Vec::new(), &definitions(), &vec![identifier()]);
    assert!(matches!(rules[0].priority_levels[0].alternatives[0].symbols[0], Symbol::Identifier(_)));
    assert!(lexical.is_empty());
    let (rules, lexical) = transform(vec![statement_rule(LayoutStrategy::Default)], Vec::new(), &definitions(), &Vec::new());
    assert!(matches!(rules[0].priority_levels[0].alternatives[0].symbols[0], Symbol::Identifier(_)));
    assert!(lexical.is_empty());
}

#[test]
fn a_handwritten_restriction_absorbs_the_derived_pair() {
    let mut handwritten = Restrictions::new();
    handwritten.follow.push(Identifier::new("X"));
    let rule = SyntaxRule::new(
        Nonterminal::new("S"),
        vec![PriorityLevel::new(vec![Alternative {
            symbols: vec![Symbol::Restricted { symbol: Box::new(reference("\"else\"", 0)), restrictions: handwritten }],
            label: None,
        }])],
    );
    let (rules, _) = transform(vec![rule], Vec::new(), &definitions(), &vec![identifier()]);
    match &rules[0].priority_levels[0].alternatives[0].symbols[0] {
        Symbol::Restricted { symbol, restrictions } => {
            assert!(matches!(symbol.as_ref(), Symbol::Identifier(_)));
            let follow: Vec<&str> = restrictions.follow.iter().map(|id| id.name.as_str()).collect();
            assert_eq!(follow, ["X", "[0-9 a-z]"]);
            assert_eq!(restrictions.precede.len(), 1);
        }
        other => panic!("expected one restricted keyword, got {other:?}"),
    }
}

fn range(start: char, end: char) -> CharRange {
    CharRange { start, end }
}

fn state(transitions: Vec<(CharRange, usize)>, accepting: bool) -> DfaState {
    DfaState {
        transitions,
        accept: if accepting { Some(0) } else { None },
    }
}

/// The automaton of `[a-zA-Z][a-zA-Z_0-9]*`.
fn mixed_case_identifier() -> Dfa {
    let upper = range('A', 'Z');
    let lower = range('a', 'z');
    Dfa {
        states: vec![
            state(vec![(upper, 1), (lower, 1)], false),
            state(
                vec![(upper, 1), (lower, 1), (range('_', '_'), 1), (range('0', '9'), 1)],
                true,
            ),
        ],
    }
}

#[test]
fn keyword_derives_the_identifier_character_class() {
    let dfas = [mixed_case_identifier()];
    let classes = derive_restrictions(&dfas, "else").unwrap();
    let expected = class(&[('0', '9'), ('A', 'Z'), ('_', '_'), ('a', 'z')]);
    assert_eq!(classes.follow, expected);
    assert_eq!(classes.precede, expected);
}

#[test]
fn non_identifier_shaped_literals_derive_nothing() {
    let dfas = [mixed_case_identifier()];
    assert!(derive_restrictions(&dfas, "++").is_none());
    assert!(derive_restrictions(&dfas, "else if").is_none());
    assert!(derive_restrictions(&dfas, "").is_none());
}

#[test]
fn literal_longer_than_the_identifier_language_is_not_shaped() {
    // The automaton of `[a-z][a-z]`.
    let lower = range('a', 'z');
    let two_letters = Dfa {
        states: vec![
            state(vec![(lower, 1)], false),
            state(vec![(lower, 2)], false),
            state(vec![], true),
        ],
    };
    let dfas = [two_letters];
    assert!(derive_restrictions(&dfas, "else").is_none());
    assert!(derive_restrictions(&dfas, "el").is_some());
}

/// `[a-z]+ [0-9]` does not accept `else`, but it can extend across it
/// with a digit, so the digit lands in the follow-class union.
#[test]
fn non_accepting_rule_contributes_to_the_follow_class() {
    let lower = range('a', 'z');
    // `[a-z]+`
    let letters = Dfa {
        states: vec![state(vec![(lower, 1)], false), state(vec![(lower, 1)], true)],
    };
    // `[a-z]+ [0-9]`
    let letters_then_digit = Dfa {
        states: vec![
            state(vec![(lower, 1)], false),
            state(vec![(lower, 1), (range('0', '9'), 2)], false),
            state(vec![], true),
        ],
    };
    let classes = derive_restrictions(&[letters, letters_then_digit], "else").unwrap();
    assert_eq!(classes.follow, class(&[('0', '9'), ('a', 'z')]));
}

/// `[a-z][0-9]*`: a letter occurs only at a word start, so nothing can
/// precede the literal `a` mid-word, while digits extend it.
#[test]
fn precede_and_follow_classes_differ_in_an_asymmetric_automaton() {
    let id = Dfa {
        states: vec![
            state(vec![(range('a', 'z'), 1)], false),
            state(vec![(range('0', '9'), 1)], true),
        ],
    };
    let classes = derive_restrictions(&[id], "a").unwrap();
    assert!(classes.precede.is_empty());
    assert_eq!(classes.follow, class(&[('0', '9')]));
}
