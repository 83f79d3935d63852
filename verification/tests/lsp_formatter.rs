use iguana::lsp::position::{end_position, formatting_edits};
use iguana::lsp::formatter::{format_grammar, format_regex, format_regex_rule, format_symbol, format_syntax_rule};
use iguana::tree::{
    TreeAlternative, TreeAnnotation, TreeGrammar, TreeRule, TreeAssociativity, TreeCharClass, TreePostCondition, TreePriorityLevel,
    TreeRangeElement, TreeRegex, TreeRegexPostCondition, TreeRegexRule, TreeSymbol, TreeSyntaxRule,
};

fn id(s: &str) -> TreeSymbol {
    TreeSymbol::Identifier(s.to_string())
}

fn lit(s: &str) -> TreeSymbol {
    TreeSymbol::Lit(format!("\"{}\"", s))
}

fn alt(symbols: Vec<TreeSymbol>, label: Option<&str>) -> TreeAlternative {
    TreeAlternative::Symbols { symbols, label: label.map(|l| l.to_string()) }
}

fn level(alternatives: Vec<TreeAlternative>) -> TreePriorityLevel {
    TreePriorityLevel { associativity: None, alternatives }
}

fn syntax(head: &str, levels: Vec<TreePriorityLevel>) -> String {
    let rule = TreeSyntaxRule { annotation: None, head: head.to_string(), priority_levels: levels };
    let mut out = String::new();
    format_syntax_rule(&mut out, &rule);
    out
}

fn regex_rule(name: &str, body: Vec<Vec<TreeRegex>>) -> TreeRegexRule {
    TreeRegexRule {
        layout: false,
        identifier: false,
        name: name.to_string(),
        pre_condition: None,
        body,
        post_conditions: vec![],
    }
}

fn lexical(rule: &TreeRegexRule) -> (String, bool) {
    let mut out = String::new();
    let multi = format_regex_rule(&mut out, rule);
    (out, multi)
}

fn letters() -> TreeRegex {
    TreeRegex::CharClass(TreeCharClass {
        negated: false,
        elements: vec![
            TreeRangeElement::Range("a".to_string(), "z".to_string()),
            TreeRangeElement::Range("A".to_string(), "Z".to_string()),
        ],
    })
}

fn syntax_rule(head: &str, levels: Vec<TreePriorityLevel>) -> TreeRule {
    TreeRule::Syntax(TreeSyntaxRule { annotation: None, head: head.to_string(), priority_levels: levels })
}

fn lit_rule(name: &str, text: &str) -> TreeRule {
    TreeRule::Regex(regex_rule(name, vec![vec![TreeRegex::Lit(format!("\"{}\"", text))]]))
}

fn grammar(name: &str, rules: Vec<TreeRule>) -> String {
    format_grammar(&TreeGrammar { name: name.to_string(), rules })
}

fn label_columns(text: &str) -> Vec<usize> {
    text.lines().filter(|l| l.contains('#')).map(|l| l[..l.find('#').unwrap()].chars().count()).collect()
}

#[test]
fn test_simple_grammar() {
    let text = grammar("Test", vec![syntax_rule("Rule", vec![level(vec![alt(vec![lit("hello")], None)])])]);
    assert_eq!(text, "grammar Test\n\nRule\n  = \"hello\"\n");
}

#[test]
fn test_multiple_alternatives() {
    let rule = syntax_rule("A", vec![level(vec![alt(vec![lit("x")], Some("#X")), alt(vec![lit("y")], Some("#Y"))])]);
    assert_eq!(grammar("T", vec![rule]), "grammar T\n\nA\n  = \"x\" #X\n  | \"y\" #Y\n");
}

#[test]
fn test_priority_levels() {
    let rule = syntax_rule("A", vec![level(vec![alt(vec![lit("x")], None)]), level(vec![alt(vec![lit("y")], None)])]);
    assert_eq!(grammar("T", vec![rule]), "grammar T\n\nA\n  = \"x\"\n  > \"y\"\n");
}

#[test]
fn associativity_leads_the_first_alternative_of_its_level() {
    let left = TreePriorityLevel {
        associativity: Some(TreeAssociativity::Left),
        alternatives: vec![alt(vec![lit("c")], None), alt(vec![lit("d")], None)],
    };
    let text = syntax("S", vec![level(vec![alt(vec![lit("a")], None)]), left]);
    assert_eq!(text, "S\n  = \"a\"\n  > left \"c\"\n  | \"d\"");
}

#[test]
fn annotation_and_empty_alternative() {
    let rule = TreeSyntaxRule {
        annotation: Some(TreeAnnotation::WithLayout("WS".to_string())),
        head: "E(p: i32)".to_string(),
        priority_levels: vec![level(vec![TreeAlternative::Empty { label: Some("#None".to_string()) }])],
    };
    let mut out = String::new();
    format_syntax_rule(&mut out, &rule);
    assert_eq!(out, "@WithLayout(WS)\nE(p: i32)\n  = () #None");
    let mut plain = String::new();
    let no_layout = TreeSyntaxRule { annotation: Some(TreeAnnotation::NoLayout), head: "S".to_string(), priority_levels: vec![level(vec![alt(vec![id("A")], None)])] };
    format_syntax_rule(&mut plain, &no_layout);
    assert_eq!(plain, "@NoLayout\nS\n  = A");
}

#[test]
fn test_layout_aware_follow_restriction() {
    let s = TreeSymbol::PostCondition(Box::new(id("A")), vec![TreePostCondition::LayoutAwareFollowRestriction("B".to_string())]);
    let rules = vec![syntax_rule("S", vec![level(vec![alt(vec![s], None)])]), lit_rule("A", "a"), lit_rule("B", "b")];
    assert_eq!(
        grammar("T", rules),
        "grammar T\n\nS\n  = A !>>> B\n\n@Regex\nA = \"a\"\n\n@Regex\nB = \"b\"\n"
    );
}

#[test]
fn test_postfix_conditions_normalized() {
    let s = TreeSymbol::PostCondition(
        Box::new(id("A")),
        vec![
            TreePostCondition::FollowRestriction("B".to_string()),
            TreePostCondition::Except("K".to_string()),
            TreePostCondition::Exclude("X".to_string()),
        ],
    );
    assert_eq!(syntax("S", vec![level(vec![alt(vec![s, id("A")], None)])]), "S\n  = A!X \\ K !>> B A");
}

#[test]
fn test_precede_restriction_list() {
    let s = TreeSymbol::PreCondition(vec!["X".to_string(), "Y".to_string()], Box::new(id("A")));
    assert_eq!(syntax("S", vec![level(vec![alt(vec![s], None)])]), "S\n  = X !<< Y !<< A");
}

#[test]
fn symbol_forms() {
    let cases: Vec<(TreeSymbol, &str)> = vec![
        (TreeSymbol::Star(Box::new(id("A"))), "A*"),
        (TreeSymbol::Plus(Box::new(id("A"))), "A+"),
        (TreeSymbol::Opt(Box::new(id("A"))), "A?"),
        (TreeSymbol::StarSep(Box::new(id("A")), Box::new(lit(","))), "{ A \",\" }*"),
        (TreeSymbol::PlusSep(Box::new(id("A")), Box::new(lit(","))), "{ A \",\" }+"),
        (TreeSymbol::Labeled("l".to_string(), Box::new(id("A"))), "l:A"),
        (TreeSymbol::Paren(vec![vec![id("A"), id("B")], vec![id("C")]]), "(A B | C)"),
    ];
    for (symbol, expected) in cases {
        let mut out = String::new();
        format_symbol(&mut out, &symbol);
        assert_eq!(out, expected);
    }
}

#[test]
fn regex_forms() {
    let negated = TreeRegex::CharClass(TreeCharClass { negated: true, elements: vec![TreeRangeElement::Char("\\n".to_string())] });
    let r = TreeRegex::Paren(vec![vec![TreeRegex::Plus(Box::new(letters())), TreeRegex::Opt(Box::new(negated))], vec![TreeRegex::Star(Box::new(TreeRegex::Char("'x'".to_string())))]]);
    let mut out = String::new();
    format_regex(&mut out, &r);
    assert_eq!(out, "([a-zA-Z]+ ![\\n]? | 'x'*)");
}

#[test]
fn test_label_alignment() {
    let text = syntax("S", vec![level(vec![alt(vec![lit("a")], Some("#Short")), alt(vec![lit("longer"), lit("alt")], Some("#Long"))])]);
    let cols = label_columns(&text);
    assert_eq!(cols.len(), 2);
    assert_eq!(cols[0], cols[1]);
    assert_eq!(text, "S\n  = \"a\"            #Short\n  | \"longer\" \"alt\" #Long");
}

#[test]
fn test_label_alignment_with_wrapped_alternative() {
    let long: Vec<TreeSymbol> = (0..30).map(|_| id("Sym")).collect();
    let text = syntax("S", vec![level(vec![alt(vec![lit("a")], Some("#Short")), alt(long, Some("#Long"))])]);
    let cols = label_columns(&text);
    assert_eq!(cols.len(), 2);
    assert_eq!(cols[0], cols[1]);
    for line in text.lines() {
        let body_end = line.find('#').unwrap_or_else(|| line.trim_end().len());
        assert!(body_end <= cols[0]);
    }
    assert!(text.lines().skip(1).all(|l| l.chars().count() <= 80 || l.contains('#')));
}

#[test]
fn test_label_alignment_not_byte_based() {
    let text = syntax("S", vec![level(vec![alt(vec![lit("café")], Some("#A")), alt(vec![lit("ab")], Some("#B"))])]);
    let cols = label_columns(&text);
    assert!(cols.len() >= 2);
    assert!(cols.windows(2).all(|w| w[0] == w[1]));
}

#[test]
fn test_regex_rule() {
    let (text, multi) = lexical(&regex_rule("Id", vec![vec![TreeRegex::Plus(Box::new(letters()))]]));
    assert_eq!(text, "@Regex\nId = [a-zA-Z]+");
    assert!(!multi);
    let rule = TreeRule::Regex(regex_rule("Id", vec![vec![TreeRegex::Plus(Box::new(letters()))]]));
    assert_eq!(grammar("T", vec![rule]), "grammar T\n\n@Regex\nId = [a-zA-Z]+\n");
}

#[test]
fn test_identifier_regex_rule() {
    let mut rule = regex_rule("Id", vec![vec![TreeRegex::Plus(Box::new(TreeRegex::CharClass(TreeCharClass {
        negated: false,
        elements: vec![TreeRangeElement::Range("a".to_string(), "z".to_string())],
    })))]]);
    rule.identifier = true;
    assert_eq!(lexical(&rule).0, "@Identifier @Regex\nId = [a-z]+");
    rule.layout = true;
    rule.identifier = false;
    assert_eq!(lexical(&rule).0, "@Layout @Regex\nId = [a-z]+");
}

#[test]
fn test_regex_rule_multi_alt() {
    let body = vec![
        vec![TreeRegex::Identifier("Dec".to_string())],
        vec![TreeRegex::Identifier("Hex".to_string())],
        vec![TreeRegex::Identifier("Oct".to_string())],
    ];
    let (text, multi) = lexical(&regex_rule("Int", body));
    assert_eq!(text, "@Regex\nInt\n  = Dec\n  | Hex\n  | Oct");
    assert!(multi);
}

#[test]
fn regex_rule_conditions() {
    let mut rule = regex_rule("Id", vec![vec![TreeRegex::Plus(Box::new(letters()))]]);
    rule.pre_condition = Some("Dot".to_string());
    rule.post_conditions = vec![
        TreeRegexPostCondition::Except("Keyword".to_string()),
        TreeRegexPostCondition::FollowRestriction("Digit".to_string()),
    ];
    assert_eq!(lexical(&rule).0, "@Regex\nId = Dot !<< [a-zA-Z]+ \\ Keyword !>> Digit");
}

#[test]
fn test_regex_rule_long_single_alt() {
    let mut group: Vec<TreeRegex> = (0..8).map(|_| letters()).collect();
    group.push(TreeRegex::Plus(Box::new(letters())));
    let (text, multi) = lexical(&regex_rule("VeryLongRuleNameHere", vec![group]));
    assert!(multi);
    assert!(text.contains("VeryLongRuleNameHere\n  = "));
    assert!(text.lines().all(|l| l.chars().count() <= 80));
}

#[test]
fn end_position_counts_lines_and_utf16_units() {
    let p = end_position("grammar Test\n\nS=\"a\"\n");
    assert_eq!((p.line, p.character), (3, 0));
    let q = end_position("ab\nc\u{1F600}d");
    assert_eq!((q.line, q.character), (1, 4));
    let e = end_position("");
    assert_eq!((e.line, e.character), (0, 0));
}

#[test]
fn unchanged_formatting_returns_no_edits() {
    let source = "grammar Test\n\nS=(\"a\" // inside group\n| \"b\")\n";
    let edits = formatting_edits(source, Some(source.to_string())).unwrap();
    assert!(edits.is_empty());
    assert!(formatting_edits(source, None).is_none());
}

#[test]
fn formatting_range_includes_a_trailing_newline() {
    let source = "grammar Test\n\nS=\"a\"\n";
    let edits = formatting_edits(source, Some("grammar Test\n\nS\n  = \"a\"\n".to_string())).unwrap();
    assert_eq!(edits.len(), 1);
    assert_eq!((edits[0].range.start.line, edits[0].range.start.character), (0, 0));
    assert_eq!((edits[0].range.end.line, edits[0].range.end.character), (3, 0));
    assert_eq!(edits[0].new_text, "grammar Test\n\nS\n  = \"a\"\n");
}

#[test]
fn formatting_uses_text_from_the_latest_document_change() {
    let saved = "grammar Test\n\nA = \"a\"\n\nB = \"b\"\n";
    let live = "grammar Test\n\nA = \"a\"\n\n// middle comment\n\nB = \"😀\"";
    let formatted = "grammar Test\n\nA\n  = \"a\"\n\n// middle comment\n\nB\n  = \"😀\"\n";
    let edits = formatting_edits(live, Some(formatted.to_string())).unwrap();
    assert_eq!(edits.len(), 1);
    assert_eq!((edits[0].range.start.line, edits[0].range.start.character), (0, 0));
    assert_eq!((edits[0].range.end.line, edits[0].range.end.character), (6, 8));
    assert_eq!(edits[0].new_text, formatted);
    let stale = end_position(saved);
    assert_ne!((stale.line, stale.character), (6, 8));
}
