use iguana::grammar::regex::{needs_grouping, CharRange, Regex};
use iguana::grammar::symbols::Identifier;

#[test]
fn regexes_print_as_written() {
    assert_eq!(Regex::char('a').to_string(), "a");
    assert_eq!(Regex::char('\n').to_string(), "\\n");
    assert_eq!(Regex::char('\'').to_string(), "\\'");
    assert_eq!(Regex::range('a', 'z').to_string(), "a-z");
    assert_eq!(
        Regex::char_class(
            vec![
                CharRange { start: '0', end: '9' },
                CharRange { start: 'a', end: 'z' },
            ],
            false
        )
        .to_string(),
        "[0-9 a-z]"
    );
    assert_eq!(
        Regex::char_class(vec![CharRange { start: '\t', end: '\t' }], true).to_string(),
        "![\\t]"
    );
    assert_eq!(Regex::literal("if").to_string(), "if");
    assert_eq!(Regex::alt(vec![Regex::char('a'), Regex::char('b')]).to_string(), "(a|b)");
    assert_eq!(Regex::star(Regex::literal("ab")).to_string(), "(ab)*");
    assert_eq!(Regex::plus(Regex::char('a')).to_string(), "a+");
    assert_eq!(Regex::Opt(Box::new(Regex::char('a'))).to_string(), "a?");
    assert_eq!(Regex::Epsilon.to_string(), "ε");
    assert_eq!(Regex::Identifier(Identifier::new("Digit")).to_string(), "Digit");
}

#[test]
fn grouping_and_nullability() {
    assert!(needs_grouping(&Regex::literal("ab")));
    assert!(!needs_grouping(&Regex::literal("a")));
    assert!(!needs_grouping(&Regex::char('a')));
    assert!(Regex::star(Regex::char('a')).is_nullable());
    assert!(!Regex::plus(Regex::char('a')).is_nullable());
    assert!(Regex::plus(Regex::star(Regex::char('a'))).is_nullable());
    assert!(Regex::plus(Regex::Epsilon).is_nullable());
    assert!(Regex::seq(vec![Regex::Epsilon, Regex::Opt(Box::new(Regex::char('a')))]).is_nullable());
    assert!(!Regex::seq(vec![Regex::Epsilon, Regex::char('a')]).is_nullable());
    assert!(Regex::alt(vec![Regex::char('a'), Regex::Epsilon]).is_nullable());
}

#[test]
fn plain_ascii_regexes_print_their_characters_as_they_are() {
    let ranges = || vec![CharRange { start: '0', end: '9' }, CharRange { start: 'a', end: 'z' }];
    assert_eq!(Regex::char_class(ranges(), false).to_string(), "[0-9 a-z]");
    assert_eq!(Regex::char_class(ranges(), true).to_string(), "![0-9 a-z]");
    assert_eq!(Regex::star(Regex::literal("ab")).to_string(), "(ab)*");
    assert_eq!(Regex::plus(Regex::char('a')).to_string(), "a+");
}
