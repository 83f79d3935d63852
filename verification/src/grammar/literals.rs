//! String literals of syntax rules become terminals: each literal `"+"` is
//! replaced by a reference to the terminal named `"+"` (quotes included),
//! and each literal text gets one lexical rule matching it exactly.
use vstd::prelude::*;
use crate::grammar::def::{
    alternatives_view, lexical_rules_view, levels_view, syntax_rules_view, Alternative, LexicalRule,
    PriorityLevel, SpecLexicalRule, SpecPriorityLevel, SpecAlternative, SpecSyntaxRule, SyntaxRule,
};
use crate::grammar::regex::{literal_parts, Regex, SpecRegex};
use crate::grammar::symbols::{strings_contain, 
    lemma_symbols_view, strings_view, symbols_view, Identifier, SpecIdentifier, SpecSymbol, SpecTerminal,
    Symbol, Terminal,
};
use crate::grammar::transformations::{clone_layout, map_alternative_symbols, map_level_symbols, map_rule_symbols};
use crate::text::{str_eq, string_of};

verus! {

broadcast use vstd::std_specs::vec::axiom_vec_index_decreases;

/// The name of the terminal of the literal `text`: the text in quotes.
pub open spec fn literal_name(text: Seq<char>) -> Seq<char> {
    seq!['"'] + text + seq!['"']
}

/// The lexical rule of the literal `text`: it matches the text exactly.
pub open spec fn literal_rule(text: Seq<char>) -> SpecLexicalRule {
    SpecLexicalRule {
        head: SpecTerminal { name: literal_name(text), literal: Some(text) },
        regex: SpecRegex::Sequence(literal_parts(text)),
        except: Seq::empty(),
        follow_restriction: Seq::empty(),
        precede_restriction: None,
    }
}

/// The lexical rules of literal texts, in order.
pub open spec fn literal_rules(texts: Seq<Seq<char>>) -> Seq<SpecLexicalRule> {
    texts.map_values(|t: Seq<char>| literal_rule(t))
}

/// `s` with each literal replaced by a reference to its terminal. Literals
/// under an exclusion, and the operands of conditions and returns, stay.
pub open spec fn literal_reference(s: SpecSymbol) -> SpecSymbol
    decreases s, 1int,
{
    match s {
        SpecSymbol::Literal(text) => SpecSymbol::Identifier(SpecIdentifier { name: literal_name(text), definition: None }),
        SpecSymbol::Labeled { label, symbol } => SpecSymbol::Labeled { label, symbol: Box::new(literal_reference(*symbol)) },
        SpecSymbol::Group(parts) => SpecSymbol::Group(literal_references(parts)),
        SpecSymbol::Opt(inner) => SpecSymbol::Opt(Box::new(literal_reference(*inner))),
        SpecSymbol::Alt(parts) => SpecSymbol::Alt(literal_references(parts)),
        SpecSymbol::Star(inner, sep) => SpecSymbol::Star(
            Box::new(literal_reference(*inner)),
            match sep {
                Some(x) => Some(Box::new(literal_reference(*x))),
                None => None,
            },
        ),
        SpecSymbol::Plus(inner, sep) => SpecSymbol::Plus(
            Box::new(literal_reference(*inner)),
            match sep {
                Some(x) => Some(Box::new(literal_reference(*x))),
                None => None,
            },
        ),
        SpecSymbol::Binding { pattern, symbol } => SpecSymbol::Binding { pattern, symbol: Box::new(literal_reference(*symbol)) },
        SpecSymbol::Restricted { symbol, restrictions } => SpecSymbol::Restricted {
            symbol: Box::new(literal_reference(*symbol)),
            restrictions,
        },
        _ => s,
    }
}

/// `literal_reference` of each symbol.
pub open spec fn literal_references(symbols: Seq<SpecSymbol>) -> Seq<SpecSymbol>
    decreases symbols, 0int,
{
    if symbols.len() == 0 {
        Seq::empty()
    } else {
        literal_references(symbols.drop_last()).push(literal_reference(symbols.last()))
    }
}

/// `added` followed by the literal texts of `s` that are not there yet, in
/// the order `literal_reference` meets them.
pub open spec fn added_literals(added: Seq<Seq<char>>, s: SpecSymbol) -> Seq<Seq<char>>
    decreases s, 1int,
{
    match s {
        SpecSymbol::Literal(text) => if added.contains(text) { added } else { added.push(text) },
        SpecSymbol::Labeled { symbol, .. } => added_literals(added, *symbol),
        SpecSymbol::Group(parts) => added_literals_all(added, parts),
        SpecSymbol::Opt(inner) => added_literals(added, *inner),
        SpecSymbol::Alt(parts) => added_literals_all(added, parts),
        SpecSymbol::Star(inner, sep) => match sep {
            Some(x) => added_literals(added_literals(added, *inner), *x),
            None => added_literals(added, *inner),
        },
        SpecSymbol::Plus(inner, sep) => match sep {
            Some(x) => added_literals(added_literals(added, *inner), *x),
            None => added_literals(added, *inner),
        },
        SpecSymbol::Binding { symbol, .. } => added_literals(added, *symbol),
        SpecSymbol::Restricted { symbol, .. } => added_literals(added, *symbol),
        _ => added,
    }
}

/// `added_literals` through each symbol in turn.
pub open spec fn added_literals_all(added: Seq<Seq<char>>, symbols: Seq<SpecSymbol>) -> Seq<Seq<char>>
    decreases symbols, 0int,
{
    if symbols.len() == 0 {
        added
    } else {
        added_literals(added_literals_all(added, symbols.drop_last()), symbols.last())
    }
}

/// `added_literals_all` through each alternative in turn.
pub open spec fn alternatives_literals(added: Seq<Seq<char>>, alts: Seq<SpecAlternative>) -> Seq<Seq<char>>
    decreases alts.len(),
{
    if alts.len() == 0 {
        added
    } else {
        added_literals_all(alternatives_literals(added, alts.drop_last()), alts.last().symbols)
    }
}

/// Through each level in turn.
pub open spec fn levels_literals(added: Seq<Seq<char>>, levels: Seq<SpecPriorityLevel>) -> Seq<Seq<char>>
    decreases levels.len(),
{
    if levels.len() == 0 {
        added
    } else {
        alternatives_literals(levels_literals(added, levels.drop_last()), levels.last().alternatives)
    }
}

/// Through each rule in turn.
pub open spec fn rules_literals(added: Seq<Seq<char>>, rules: Seq<SpecSyntaxRule>) -> Seq<Seq<char>>
    decreases rules.len(),
{
    if rules.len() == 0 {
        added
    } else {
        levels_literals(rules_literals(added, rules.drop_last()), rules.last().priority_levels)
    }
}

/// The rules with their literals replaced by terminal references.
pub open spec fn with_literal_references(rules: Seq<SpecSyntaxRule>) -> Seq<SpecSyntaxRule> {
    rules.map_values(|r: SpecSyntaxRule| map_rule_symbols(r, |ss: Seq<SpecSymbol>| literal_references(ss)))
}

/// From (`lexical`, `added`) to (`lexical2`, `added2`), texts were only
/// appended, each with its lexical rule.
pub open spec fn appended(lexical: Seq<SpecLexicalRule>, lexical2: Seq<SpecLexicalRule>, added: Seq<Seq<char>>, added2: Seq<Seq<char>>) -> bool {
    &&& added.len() <= added2.len()
    &&& added2.take(added.len() as int) == added
    &&& lexical2 == lexical + literal_rules(added2.skip(added.len() as int))
}

proof fn lemma_appended_none(lexical: Seq<SpecLexicalRule>, added: Seq<Seq<char>>)
    ensures
        appended(lexical, lexical, added, added),
{
    assert(added.take(added.len() as int) =~= added);
    assert(literal_rules(added.skip(added.len() as int)) =~= Seq::<SpecLexicalRule>::empty());
    assert(lexical + Seq::<SpecLexicalRule>::empty() =~= lexical);
}

proof fn lemma_appended_compose(
    l0: Seq<SpecLexicalRule>, l1: Seq<SpecLexicalRule>, l2: Seq<SpecLexicalRule>,
    a0: Seq<Seq<char>>, a1: Seq<Seq<char>>, a2: Seq<Seq<char>>,
)
    requires
        appended(l0, l1, a0, a1),
        appended(l1, l2, a1, a2),
    ensures
        appended(l0, l2, a0, a2),
{
    assert(a2.take(a0.len() as int) =~= a1.take(a0.len() as int)) by {
        assert forall|i: int| 0 <= i < a0.len() implies a2[i] == a1[i] by {
            assert(a2.take(a1.len() as int)[i] == a2[i]);
        }
    }
    assert(a2.skip(a0.len() as int) =~= a1.skip(a0.len() as int) + a2.skip(a1.len() as int)) by {
        assert forall|i: int| 0 <= i < a1.len() - a0.len() implies a2.skip(a0.len() as int)[i] == a1.skip(a0.len() as int)[i] by {
            assert(a2.take(a1.len() as int)[i + a0.len()] == a2[i + a0.len()]);
        }
    }
    assert(literal_rules(a2.skip(a0.len() as int)) =~= literal_rules(a1.skip(a0.len() as int)) + literal_rules(a2.skip(a1.len() as int)));
    assert(l2 =~= l0 + literal_rules(a2.skip(a0.len() as int)));
}

/// See `literal_reference` and `added_literals`: the lexical rules of the
/// new texts are appended to `lexical`.
fn add_lexical_rules(symbol: &Symbol, lexical: &mut Vec<LexicalRule>, added: &mut Vec<String>) -> (r: Symbol)
    ensures
        r@ == literal_reference(symbol@),
        strings_view(final(added)@) == added_literals(strings_view(old(added)@), symbol@),
        appended(lexical_rules_view(old(lexical)@), lexical_rules_view(final(lexical)@), strings_view(old(added)@), strings_view(final(added)@)),
    decreases symbol, 1int,
{
    let ghost l0 = lexical_rules_view(lexical@);
    let ghost a0 = strings_view(added@);
    proof { lemma_appended_none(l0, a0); }
    match symbol {
        Symbol::Literal(text) => {
            let terminal = Terminal::literal(text.as_str());
            let name = string_of(terminal.name.as_str());
            if !strings_contain(added, text.as_str()) {
                added.push(string_of(text.as_str()));
                let rule = LexicalRule::new(terminal, Regex::literal(text.as_str()));
                let ghost rv = rule@;
                lexical.push(rule);
                proof {
                    let a1 = strings_view(added@);
                    assert(a1 =~= a0.push(text@));
                    assert(a1.take(a0.len() as int) =~= a0);
                    assert(a1.skip(a0.len() as int) =~= seq![text@]);
                    assert(literal_rules(seq![text@]) =~= seq![literal_rule(text@)]);
                    assert(lexical_rules_view(lexical@) =~= l0 + seq![literal_rule(text@)]);
                }
            }
            Symbol::Identifier(Identifier { name, definition: None })
        },
        Symbol::Labeled { label, symbol: inner } => {
            let s = add_lexical_rules(&**inner, lexical, added);
            Symbol::Labeled { label: string_of(label.as_str()), symbol: Box::new(s) }
        },
        Symbol::Group(parts) => Symbol::Group(add_lexical_rules_all(parts, lexical, added)),
        Symbol::Opt(inner) => Symbol::Opt(Box::new(add_lexical_rules(&**inner, lexical, added))),
        Symbol::Alt(parts) => Symbol::Alt(add_lexical_rules_all(parts, lexical, added)),
        Symbol::Star(inner, sep) => {
            let s = add_lexical_rules(&**inner, lexical, added);
            let ghost l1 = lexical_rules_view(lexical@);
            let ghost a1 = strings_view(added@);
            match sep {
                Some(x) => {
                    let t = add_lexical_rules(&**x, lexical, added);
                    proof { lemma_appended_compose(l0, l1, lexical_rules_view(lexical@), a0, a1, strings_view(added@)); }
                    Symbol::Star(Box::new(s), Some(Box::new(t)))
                },
                None => Symbol::Star(Box::new(s), None),
            }
        },
        Symbol::Plus(inner, sep) => {
            let s = add_lexical_rules(&**inner, lexical, added);
            let ghost l1 = lexical_rules_view(lexical@);
            let ghost a1 = strings_view(added@);
            match sep {
                Some(x) => {
                    let t = add_lexical_rules(&**x, lexical, added);
                    proof { lemma_appended_compose(l0, l1, lexical_rules_view(lexical@), a0, a1, strings_view(added@)); }
                    Symbol::Plus(Box::new(s), Some(Box::new(t)))
                },
                None => Symbol::Plus(Box::new(s), None),
            }
        },
        Symbol::Binding { pattern, symbol: inner } => {
            let s = add_lexical_rules(&**inner, lexical, added);
            Symbol::Binding { pattern: pattern.clone(), symbol: Box::new(s) }
        },
        Symbol::Restricted { symbol: inner, restrictions } => {
            let s = add_lexical_rules(&**inner, lexical, added);
            Symbol::Restricted { symbol: Box::new(s), restrictions: restrictions.clone() }
        },
        _ => symbol.clone(),
    }
}

/// See `literal_references` and `added_literals_all`.
fn add_lexical_rules_all(symbols: &Vec<Symbol>, lexical: &mut Vec<LexicalRule>, added: &mut Vec<String>) -> (r: Vec<Symbol>)
    ensures
        symbols_view(r@) == literal_references(symbols_view(symbols@)),
        strings_view(final(added)@) == added_literals_all(strings_view(old(added)@), symbols_view(symbols@)),
        appended(lexical_rules_view(old(lexical)@), lexical_rules_view(final(lexical)@), strings_view(old(added)@), strings_view(final(added)@)),
    decreases symbols, 0int,
{
    let ghost l0 = lexical_rules_view(lexical@);
    let ghost a0 = strings_view(added@);
    let ghost sv = symbols_view(symbols@);
    proof {
        lemma_appended_none(l0, a0);
        lemma_symbols_view(symbols@);
    }
    let mut out: Vec<Symbol> = Vec::new();
    let mut i: usize = 0;
    assert(sv.take(0) =~= Seq::<SpecSymbol>::empty());
    while i < symbols.len()
        invariant
            0 <= i <= symbols@.len(),
            sv == symbols_view(symbols@),
            sv.len() == symbols@.len(),
            forall|k: int| 0 <= k < symbols@.len() ==> #[trigger] sv[k] == symbols@[k]@,
            symbols_view(out@) == literal_references(sv.take(i as int)),
            strings_view(added@) == added_literals_all(a0, sv.take(i as int)),
            appended(l0, lexical_rules_view(lexical@), a0, strings_view(added@)),
        decreases symbols@.len() - i,
    {
        proof {
            let t = sv.take(i + 1);
            assert(t.drop_last() =~= sv.take(i as int));
            assert(t.last() == symbols@[i as int]@);
            assert(decreases_to!(*symbols => symbols@[i as int]));
        }
        let ghost l1 = lexical_rules_view(lexical@);
        let ghost a1 = strings_view(added@);
        let s = add_lexical_rules(&symbols[i], lexical, added);
        proof { lemma_appended_compose(l0, l1, lexical_rules_view(lexical@), a0, a1, strings_view(added@)); }
        let ghost before = out@;
        out.push(s);
        proof {
            crate::grammar::symbols::lemma_symbols_view_push(before, s);
        }
        i += 1;
    }
    assert(sv.take(i as int) =~= sv);
    out
}

/// `rule` with its literals replaced by terminal references; see
/// `levels_literals` for the texts added.
fn add_rule_literals(rule: &SyntaxRule, lexical: &mut Vec<LexicalRule>, added: &mut Vec<String>) -> (r: SyntaxRule)
    ensures
        r@ == map_rule_symbols(rule@, |ss: Seq<SpecSymbol>| literal_references(ss)),
        strings_view(final(added)@) == levels_literals(strings_view(old(added)@), rule@.priority_levels),
        appended(lexical_rules_view(old(lexical)@), lexical_rules_view(final(lexical)@), strings_view(old(added)@), strings_view(final(added)@)),
{
    let ghost l0 = lexical_rules_view(lexical@);
    let ghost a0 = strings_view(added@);
    let ghost lv = levels_view(rule.priority_levels@);
    proof { lemma_appended_none(l0, a0); }
    let mut levels: Vec<PriorityLevel> = Vec::new();
    let mut i: usize = 0;
    while i < rule.priority_levels.len()
        invariant
            0 <= i <= rule.priority_levels@.len(),
            lv == levels_view(rule.priority_levels@),
            levels_view(levels@) == lv.take(i as int).map_values(|l: SpecPriorityLevel| map_level_symbols(l, |ss: Seq<SpecSymbol>| literal_references(ss))),
            strings_view(added@) == levels_literals(a0, lv.take(i as int)),
            appended(l0, lexical_rules_view(lexical@), a0, strings_view(added@)),
        decreases rule.priority_levels@.len() - i,
    {
        let level = &rule.priority_levels[i];
        let ghost av = alternatives_view(level.alternatives@);
        let ghost a_level = strings_view(added@);
        let mut alternatives: Vec<Alternative> = Vec::new();
        let mut j: usize = 0;
        while j < level.alternatives.len()
            invariant
                0 <= j <= level.alternatives@.len(),
                av == alternatives_view(level.alternatives@),
                alternatives_view(alternatives@) == av.take(j as int).map_values(|a: SpecAlternative| map_alternative_symbols(a, |ss: Seq<SpecSymbol>| literal_references(ss))),
                strings_view(added@) == alternatives_literals(a_level, av.take(j as int)),
                appended(l0, lexical_rules_view(lexical@), a0, strings_view(added@)),
            decreases level.alternatives@.len() - j,
        {
            let alternative = &level.alternatives[j];
            proof {
                assert(av.take(j + 1).drop_last() =~= av.take(j as int));
                assert(av.take(j + 1).last() == alternative@);
            }
            let ghost l1 = lexical_rules_view(lexical@);
            let ghost a1 = strings_view(added@);
            let symbols = add_lexical_rules_all(&alternative.symbols, lexical, added);
            proof { lemma_appended_compose(l0, l1, lexical_rules_view(lexical@), a0, a1, strings_view(added@)); }
            let label = match &alternative.label {
                Some(l) => Some(string_of(l.as_str())),
                None => None,
            };
            let ghost prev = alternatives@;
            let alt = Alternative { symbols, label };
            assert(alt@ == map_alternative_symbols(alternative@, |ss: Seq<SpecSymbol>| literal_references(ss)));
            alternatives.push(alt);
            proof {
                assert(alternatives_view(alternatives@) =~= alternatives_view(prev).push(alt@));
                assert(av.take(j + 1).map_values(|a: SpecAlternative| map_alternative_symbols(a, |ss: Seq<SpecSymbol>| literal_references(ss)))
                    =~= av.take(j as int).map_values(|a: SpecAlternative| map_alternative_symbols(a, |ss: Seq<SpecSymbol>| literal_references(ss))).push(map_alternative_symbols(alternative@, |ss: Seq<SpecSymbol>| literal_references(ss))));
            }
            j += 1;
        }
        assert(av.take(j as int) =~= av);
        proof {
            assert(lv.take(i + 1).drop_last() =~= lv.take(i as int));
            assert(lv.take(i + 1).last() == level@);
        }
        let ghost prev = levels@;
        let new_level = PriorityLevel { alternatives, associativity: level.associativity };
        assert(new_level@ == map_level_symbols(level@, |ss: Seq<SpecSymbol>| literal_references(ss)));
        levels.push(new_level);
        proof {
            assert(levels_view(levels@) =~= levels_view(prev).push(new_level@));
            assert(lv.take(i + 1).map_values(|l: SpecPriorityLevel| map_level_symbols(l, |ss: Seq<SpecSymbol>| literal_references(ss)))
                =~= lv.take(i as int).map_values(|l: SpecPriorityLevel| map_level_symbols(l, |ss: Seq<SpecSymbol>| literal_references(ss))).push(map_level_symbols(level@, |ss: Seq<SpecSymbol>| literal_references(ss))));
        }
        i += 1;
    }
    assert(lv.take(i as int) =~= lv);
    SyntaxRule { head: rule.head.clone(), priority_levels: levels, layout: clone_layout(&rule.layout) }
}

/// Replaces each string literal of the syntax rules by a reference to the
/// terminal named by the quoted text, and appends to `lexical_rules` one rule
/// matching each literal text exactly, once per text, in the order the texts
/// first occur.
pub fn add_lexical_rules_for_literals(syntax_rules: Vec<SyntaxRule>, lexical_rules: &mut Vec<LexicalRule>) -> (r: Vec<SyntaxRule>)
    ensures
        syntax_rules_view(r@) == with_literal_references(syntax_rules_view(syntax_rules@)),
        lexical_rules_view(final(lexical_rules)@) == lexical_rules_view(old(lexical_rules)@)
            + literal_rules(rules_literals(Seq::empty(), syntax_rules_view(syntax_rules@))),
{
    let ghost rv = syntax_rules_view(syntax_rules@);
    let ghost l0 = lexical_rules_view(lexical_rules@);
    let mut added: Vec<String> = Vec::new();
    let ghost a0 = strings_view(added@);
    assert(a0 =~= Seq::<Seq<char>>::empty());
    proof { lemma_appended_none(l0, a0); }
    let mut out: Vec<SyntaxRule> = Vec::new();
    let mut i: usize = 0;
    while i < syntax_rules.len()
        invariant
            0 <= i <= syntax_rules@.len(),
            rv == syntax_rules_view(syntax_rules@),
            a0 == Seq::<Seq<char>>::empty(),
            syntax_rules_view(out@) == with_literal_references(rv.take(i as int)),
            strings_view(added@) == rules_literals(a0, rv.take(i as int)),
            appended(l0, lexical_rules_view(lexical_rules@), a0, strings_view(added@)),
        decreases syntax_rules@.len() - i,
    {
        let rule = &syntax_rules[i];
        proof {
            assert(rv.take(i + 1).drop_last() =~= rv.take(i as int));
            assert(rv.take(i + 1).last() == rule@);
        }
        let ghost l1 = lexical_rules_view(lexical_rules@);
        let ghost a1 = strings_view(added@);
        let transformed = add_rule_literals(rule, lexical_rules, &mut added);
        proof { lemma_appended_compose(l0, l1, lexical_rules_view(lexical_rules@), a0, a1, strings_view(added@)); }
        let ghost prev = out@;
        let ghost tv = transformed@;
        out.push(transformed);
        proof {
            assert(syntax_rules_view(out@) =~= syntax_rules_view(prev).push(tv));
            assert(with_literal_references(rv.take(i + 1)) =~= with_literal_references(rv.take(i as int)).push(tv));
        }
        i += 1;
    }
    assert(rv.take(i as int) =~= rv);
    assert(strings_view(added@).skip(0) =~= strings_view(added@));
    out
}

proof fn lemma_push_new_distinct(added: Seq<Seq<char>>, text: Seq<char>)
    requires
        added.no_duplicates(),
        !added.contains(text),
    ensures
        added.push(text).no_duplicates(),
{
    assert forall|a: int, b: int| 0 <= a < b < added.push(text).len() implies added.push(text)[a] != added.push(text)[b] by {
        if b == added.len() {
            assert(added[a] == added.push(text)[a]);
        }
    }
}

proof fn lemma_added_literals_distinct(added: Seq<Seq<char>>, s: SpecSymbol)
    requires
        added.no_duplicates(),
    ensures
        added_literals(added, s).no_duplicates(),
    decreases s, 1int,
{
    match s {
        SpecSymbol::Literal(text) => {
            if !added.contains(text) {
                lemma_push_new_distinct(added, text);
            }
        },
        SpecSymbol::Labeled { symbol, .. } => lemma_added_literals_distinct(added, *symbol),
        SpecSymbol::Group(parts) => lemma_added_literals_all_distinct(added, parts),
        SpecSymbol::Opt(inner) => lemma_added_literals_distinct(added, *inner),
        SpecSymbol::Alt(parts) => lemma_added_literals_all_distinct(added, parts),
        SpecSymbol::Star(inner, sep) => {
            lemma_added_literals_distinct(added, *inner);
            if let Some(x) = sep {
                lemma_added_literals_distinct(added_literals(added, *inner), *x);
            }
        },
        SpecSymbol::Plus(inner, sep) => {
            lemma_added_literals_distinct(added, *inner);
            if let Some(x) = sep {
                lemma_added_literals_distinct(added_literals(added, *inner), *x);
            }
        },
        SpecSymbol::Binding { symbol, .. } => lemma_added_literals_distinct(added, *symbol),
        SpecSymbol::Restricted { symbol, .. } => lemma_added_literals_distinct(added, *symbol),
        _ => {},
    }
}

proof fn lemma_added_literals_all_distinct(added: Seq<Seq<char>>, symbols: Seq<SpecSymbol>)
    requires
        added.no_duplicates(),
    ensures
        added_literals_all(added, symbols).no_duplicates(),
    decreases symbols, 0int,
{
    if symbols.len() > 0 {
        lemma_added_literals_all_distinct(added, symbols.drop_last());
        lemma_added_literals_distinct(added_literals_all(added, symbols.drop_last()), symbols.last());
    }
}

proof fn lemma_alternatives_literals_distinct(added: Seq<Seq<char>>, alts: Seq<SpecAlternative>)
    requires
        added.no_duplicates(),
    ensures
        alternatives_literals(added, alts).no_duplicates(),
    decreases alts.len(),
{
    if alts.len() > 0 {
        lemma_alternatives_literals_distinct(added, alts.drop_last());
        lemma_added_literals_all_distinct(alternatives_literals(added, alts.drop_last()), alts.last().symbols);
    }
}

proof fn lemma_levels_literals_distinct(added: Seq<Seq<char>>, levels: Seq<SpecPriorityLevel>)
    requires
        added.no_duplicates(),
    ensures
        levels_literals(added, levels).no_duplicates(),
    decreases levels.len(),
{
    if levels.len() > 0 {
        lemma_levels_literals_distinct(added, levels.drop_last());
        lemma_alternatives_literals_distinct(levels_literals(added, levels.drop_last()), levels.last().alternatives);
    }
}

/// Each literal text gets at most one lexical rule: the texts for which
/// `add_lexical_rules_for_literals` appends a rule are pairwise distinct, so
/// the terminals it adds have distinct names.
pub proof fn literal_rules_are_distinct(rules: Seq<SpecSyntaxRule>)
    ensures
        rules_literals(Seq::empty(), rules).no_duplicates(),
        forall|i: int, j: int| 0 <= i < j < rules_literals(Seq::empty(), rules).len()
            ==> #[trigger] literal_rules(rules_literals(Seq::empty(), rules))[i].head.name
                != #[trigger] literal_rules(rules_literals(Seq::empty(), rules))[j].head.name,
    decreases rules.len(),
{
    if rules.len() > 0 {
        literal_rules_are_distinct(rules.drop_last());
        lemma_levels_literals_distinct(rules_literals(Seq::empty(), rules.drop_last()), rules.last().priority_levels);
    }
    let texts = rules_literals(Seq::empty(), rules);
    assert forall|i: int, j: int| 0 <= i < j < texts.len() implies #[trigger] literal_rules(texts)[i].head.name
        != #[trigger] literal_rules(texts)[j].head.name by {
        let (a, b) = (texts[i], texts[j]);
        if literal_name(a) == literal_name(b) {
            assert(a =~= literal_name(a).subrange(1, literal_name(a).len() - 1));
            assert(b =~= literal_name(b).subrange(1, literal_name(b).len() - 1));
        }
    }
}

} // verus!
