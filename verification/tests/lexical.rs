use iguana::grammar::def::LexicalRule;
use iguana::grammar::equality::regex_eq;
use iguana::grammar::lexical::{simplify_regex, LexicalRestrictions};
use iguana::grammar::regex::Regex;
use iguana::grammar::regex_inlining::inline_regex_refs;
use iguana::grammar::symbols::{Identifier, Terminal};

fn id(name: &str) -> Identifier {
    Identifier {
        name: name.into(),
        definition: None,
    }
}

fn lexical(name: &str, regex: Regex) -> LexicalRule {
    LexicalRule::new(Terminal::new(name), regex)
}

fn reference(name: &str) -> Regex {
    Regex::Identifier(id(name))
}

fn names(identifiers: &[Identifier]) -> Vec<&str> {
    identifiers.iter().map(|i| i.name.as_str()).collect()
}

fn find<'a>(rules: &'a [LexicalRule], name: &str) -> &'a LexicalRule {
    rules.iter().find(|r| r.head.name == name).unwrap()
}

/// A whole-body reference inherits the referenced rule's `\`, `!>>`, and
/// `!<<`, following the chain past intermediate references, while the body
/// itself inlines to the chain's base regex.
#[test]
fn whole_body_reference_inherits_restrictions() {
    let letters = lexical("Letters", Regex::plus(Regex::range('a', 'z')));
    let mut identifier = lexical("Identifier", reference("Letters"));
    identifier.except = vec![id("Keyword")];
    identifier.follow_restriction = vec![id("Digit")];
    identifier.precede_restriction = Some(id("JavaLetter"));
    let mut type_id = lexical("TypeId", reference("Identifier"));
    type_id.except = vec![id("Var")];

    let rules = inline_regex_refs(vec![letters, identifier, type_id]).unwrap();

    let type_id = find(&rules, "TypeId");
    assert_eq!(names(&type_id.except), ["Var", "Keyword"]);
    assert_eq!(names(&type_id.follow_restriction), ["Digit"]);
    assert_eq!(
        type_id.precede_restriction.as_ref().unwrap().name,
        "JavaLetter"
    );
    assert!(regex_eq(&type_id.regex, &Regex::plus(Regex::range('a', 'z'))));
    // The referenced rule keeps exactly its own restrictions.
    let identifier = find(&rules, "Identifier");
    assert_eq!(names(&identifier.except), ["Keyword"]);
}

/// A restricted reference buried in a larger regex can't carry its
/// restrictions to the whole rule, so it is an error rather than a drop.
#[test]
fn restricted_reference_in_a_sequence_is_rejected() {
    let mut identifier = lexical("Identifier", Regex::plus(Regex::range('a', 'z')));
    identifier.except = vec![id("Keyword")];
    let bar = lexical("Bar", Regex::plus(Regex::range('0', '9')));
    let foo = lexical(
        "Foo",
        Regex::seq(vec![reference("Identifier"), reference("Bar")]),
    );

    let errors = inline_regex_refs(vec![identifier, bar, foo]).unwrap_err();
    assert_eq!(errors.len(), 1);
    assert!(errors[0].contains("`Foo` references `Identifier` inside a larger regex"));
}

/// Two different precede restrictions stacked along a whole-body chain
/// can't share one rule.
#[test]
fn conflicting_precede_restrictions_are_rejected() {
    let letters = lexical("Letters", Regex::plus(Regex::range('a', 'z')));
    let mut identifier = lexical("Identifier", reference("Letters"));
    identifier.precede_restriction = Some(id("Bang"));
    let mut foo = lexical("Foo", reference("Identifier"));
    foo.precede_restriction = Some(id("Dot"));

    let errors = inline_regex_refs(vec![letters, identifier, foo]).unwrap_err();
    assert_eq!(errors.len(), 1);
    assert!(errors[0].contains("stacks precede restrictions"));
}

#[test]
fn compound_reference_error_names_the_restrictions() {
    let mut identifier = lexical("Identifier", Regex::plus(Regex::range('a', 'z')));
    identifier.except = vec![id("Keyword")];
    identifier.follow_restriction = vec![id("Digit")];
    let foo = lexical(
        "Foo",
        Regex::seq(vec![reference("Identifier"), reference("Identifier")]),
    );
    let errors = inline_regex_refs(vec![identifier, foo]).unwrap_err();
    assert_eq!(
        errors,
        vec![
            "`Foo` references `Identifier` inside a larger regex, but `Identifier` carries \
             restrictions (\\ Keyword !>> Digit) that apply to its whole match; reference it \
             as the only symbol of a rule, or inline its definition"
                .to_string()
        ]
    );
}

#[test]
fn stacked_precede_message_is_exact() {
    let letters = lexical("Letters", Regex::plus(Regex::range('a', 'z')));
    let mut identifier = lexical("Identifier", reference("Letters"));
    identifier.precede_restriction = Some(id("Bang"));
    let mut foo = lexical("Foo", reference("Identifier"));
    foo.precede_restriction = Some(id("Dot"));
    let errors = inline_regex_refs(vec![foo, identifier, letters]).unwrap_err();
    assert_eq!(
        errors,
        vec!["`Foo` stacks precede restrictions `!<< Dot` and `!<< Bang`; a rule can have only one"
            .to_string()]
    );
}

#[test]
fn references_inline_whatever_the_rule_order() {
    // `Digits` is listed before `Digit`, which it references.
    let digits = lexical("Digits", Regex::plus(reference("Digit")));
    let digit = lexical("Digit", Regex::range('0', '9'));
    let number = lexical("Number", Regex::seq(vec![reference("Digits")]));
    let rules = inline_regex_refs(vec![digits, digit, number]).unwrap();
    assert_eq!(rules.len(), 3);
    let expected = Regex::plus(Regex::range('0', '9'));
    assert!(regex_eq(&find(&rules, "Digits").regex, &expected));
    // The single-part sequence was simplified to its part, a whole-body
    // reference, before inlining.
    assert!(regex_eq(&find(&rules, "Number").regex, &expected));
    assert!(regex_eq(&find(&rules, "Digit").regex, &Regex::range('0', '9')));
}

#[test]
fn same_precede_restriction_along_a_chain_is_kept_once() {
    let letters = lexical("Letters", Regex::plus(Regex::range('a', 'z')));
    let mut identifier = lexical("Identifier", reference("Letters"));
    identifier.precede_restriction = Some(id("Dot"));
    identifier.follow_restriction = vec![id("Digit")];
    let mut foo = lexical("Foo", reference("Identifier"));
    foo.precede_restriction = Some(id("Dot"));
    foo.follow_restriction = vec![id("Digit"), id("Letter")];
    let rules = inline_regex_refs(vec![letters, identifier, foo]).unwrap();
    let foo = find(&rules, "Foo");
    assert_eq!(foo.precede_restriction.as_ref().unwrap().name, "Dot");
    assert_eq!(names(&foo.follow_restriction), ["Digit", "Letter"]);
}

#[test]
fn unrestricted_reference_in_a_sequence_inlines() {
    let digit = lexical("Digit", Regex::range('0', '9'));
    let pair = lexical("Pair", Regex::seq(vec![reference("Digit"), Regex::char('x')]));
    let rules = inline_regex_refs(vec![digit, pair]).unwrap();
    let expected = Regex::seq(vec![Regex::range('0', '9'), Regex::char('x')]);
    assert!(regex_eq(&find(&rules, "Pair").regex, &expected));
}

#[test]
fn grouping_is_simplified() {
    let mut r = Regex::seq(vec![Regex::alt(vec![Regex::star(Regex::seq(vec![Regex::char('a')]))])]);
    simplify_regex(&mut r);
    assert!(regex_eq(&r, &Regex::star(Regex::char('a'))));
    let mut two = Regex::seq(vec![Regex::char('a'), Regex::seq(vec![Regex::char('b')])]);
    simplify_regex(&mut two);
    assert!(regex_eq(&two, &Regex::seq(vec![Regex::char('a'), Regex::char('b')])));
}

#[test]
fn restrictions_are_written_in_source_form() {
    let mut rule = lexical("Identifier", Regex::range('a', 'z'));
    rule.except = vec![id("Keyword"), id("Type")];
    rule.follow_restriction = vec![id("Digit")];
    rule.precede_restriction = Some(id("Dot"));
    let r = LexicalRestrictions::of(&rule);
    assert!(!r.is_empty());
    assert_eq!(r.to_string(), "\\ Keyword \\ Type !>> Digit !<< Dot");
    let plain = LexicalRestrictions::of(&lexical("A", Regex::char('a')));
    assert!(plain.is_empty());
    assert_eq!(plain.to_string(), "");
}

#[test]
fn merge_deduplicates_by_name() {
    let mut a = lexical("A", Regex::char('a'));
    a.except = vec![id("K")];
    a.follow_restriction = vec![id("F")];
    let mut b = lexical("B", Regex::char('b'));
    b.except = vec![id("K"), id("L")];
    b.follow_restriction = vec![id("G"), id("F")];
    b.precede_restriction = Some(id("P"));
    let mut r = LexicalRestrictions::of(&a);
    let mut errors = Vec::new();
    r.merge(LexicalRestrictions::of(&b), &Terminal::new("A"), &mut errors);
    assert!(errors.is_empty());
    assert_eq!(names(&r.except), ["K", "L"]);
    assert_eq!(names(&r.follow_restriction), ["F", "G"]);
    assert_eq!(r.precede_restriction.as_ref().unwrap().name, "P");
}
