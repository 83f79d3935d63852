//! Walks over the symbols and references of a grammar.
use vstd::prelude::*;
use crate::grammar::def::{
    lexical_rules_view, rule_alternatives, syntax_rules_view, Alternative, GrammarDef, LexicalRule,
    SpecAlternative, SpecLexicalRule, SpecSyntaxRule, SyntaxRule,
};
use crate::grammar::regex::{Regex, SpecRegex};
use crate::grammar::symbols::{Identifier, SpecIdentifier, SpecSymbol, Symbol};

verus! {

broadcast use vstd::std_specs::vec::axiom_vec_index_decreases;

/// The views of a list of symbol references.
pub open spec fn symbol_refs_view(v: Seq<&Symbol>) -> Seq<SpecSymbol> {
    v.map_values(|s: &Symbol| s@)
}

/// The views of a list of identifier references.
pub open spec fn identifier_refs_view(v: Seq<&Identifier>) -> Seq<SpecIdentifier> {
    v.map_values(|id: &Identifier| id@)
}

/// A symbol and all symbols nested in it, each before the symbols inside it,
/// left to right (an element before its separator).
pub open spec fn symbol_preorder(s: SpecSymbol) -> Seq<SpecSymbol>
    decreases s, 1int,
{
    seq![s] + match s {
        SpecSymbol::Group(symbols) => symbols_preorder(symbols),
        SpecSymbol::Alt(symbols) => symbols_preorder(symbols),
        SpecSymbol::Opt(inner) => symbol_preorder(*inner),
        SpecSymbol::Star(inner, sep) => symbol_preorder(*inner) + match sep {
            Some(sep) => symbol_preorder(*sep),
            None => Seq::empty(),
        },
        SpecSymbol::Plus(inner, sep) => symbol_preorder(*inner) + match sep {
            Some(sep) => symbol_preorder(*sep),
            None => Seq::empty(),
        },
        SpecSymbol::Labeled { symbol, .. } => symbol_preorder(*symbol),
        SpecSymbol::Binding { symbol, .. } => symbol_preorder(*symbol),
        SpecSymbol::Restricted { symbol, .. } => symbol_preorder(*symbol),
        SpecSymbol::Exclude { symbol, .. } => symbol_preorder(*symbol),
        _ => Seq::empty(),
    }
}

/// The preorders of `symbols`, one after the other.
pub open spec fn symbols_preorder(symbols: Seq<SpecSymbol>) -> Seq<SpecSymbol>
    decreases symbols, 0int,
{
    if symbols.len() == 0 {
        Seq::empty()
    } else {
        symbols_preorder(symbols.drop_last()) + symbol_preorder(symbols.last())
    }
}

/// The preorders of the symbols of `alts`, alternative after alternative.
pub open spec fn alternatives_preorder(alts: Seq<SpecAlternative>) -> Seq<SpecSymbol>
    decreases alts.len(),
{
    if alts.len() == 0 {
        Seq::empty()
    } else {
        alternatives_preorder(alts.drop_last()) + symbols_preorder(alts.last().symbols)
    }
}

/// Every symbol of the alternatives of `rules`, rule after rule.
pub open spec fn rules_preorder(rules: Seq<SpecSyntaxRule>) -> Seq<SpecSymbol>
    decreases rules.len(),
{
    if rules.len() == 0 {
        Seq::empty()
    } else {
        rules_preorder(rules.drop_last()) + alternatives_preorder(rule_alternatives(rules.last().priority_levels))
    }
}

/// The references a symbol makes itself: its name, its call's name, or its
/// restriction operands (precede, except, follow, layout-aware follow).
pub open spec fn own_identifiers(s: SpecSymbol) -> Seq<SpecIdentifier> {
    match s {
        SpecSymbol::Identifier(id) => seq![id],
        SpecSymbol::Call { name, .. } => seq![name],
        SpecSymbol::Restricted { restrictions, .. } => restrictions.precede + restrictions.excepts
            + restrictions.follow + restrictions.layout_aware_follow,
        _ => Seq::empty(),
    }
}

/// The references of the symbols of a preorder, in that order.
pub open spec fn identifiers_of(symbols: Seq<SpecSymbol>) -> Seq<SpecIdentifier>
    decreases symbols.len(),
{
    if symbols.len() == 0 {
        Seq::empty()
    } else {
        identifiers_of(symbols.drop_last()) + own_identifiers(symbols.last())
    }
}

/// The references of a regex, left to right.
pub open spec fn regex_identifiers(r: SpecRegex) -> Seq<SpecIdentifier>
    decreases r, 1int,
{
    match r {
        SpecRegex::Identifier(id) => seq![id],
        SpecRegex::Sequence(parts) => regexes_identifiers(parts),
        SpecRegex::Alt(parts) => regexes_identifiers(parts),
        SpecRegex::Star(inner) => regex_identifiers(*inner),
        SpecRegex::Plus(inner) => regex_identifiers(*inner),
        SpecRegex::Opt(inner) => regex_identifiers(*inner),
        _ => Seq::empty(),
    }
}

/// The references of `parts`, one after the other.
pub open spec fn regexes_identifiers(parts: Seq<SpecRegex>) -> Seq<SpecIdentifier>
    decreases parts, 0int,
{
    if parts.len() == 0 {
        Seq::empty()
    } else {
        regexes_identifiers(parts.drop_last()) + regex_identifiers(parts.last())
    }
}

/// The references of the regexes of `rules`, rule after rule.
pub open spec fn lexical_identifiers(rules: Seq<SpecLexicalRule>) -> Seq<SpecIdentifier>
    decreases rules.len(),
{
    if rules.len() == 0 {
        Seq::empty()
    } else {
        lexical_identifiers(rules.drop_last()) + regex_identifiers(rules.last().regex)
    }
}

/// Appends `symbol` and the symbols nested in it, in preorder.
fn visit_symbol<'a>(symbol: &'a Symbol, out: &mut Vec<&'a Symbol>)
    ensures
        symbol_refs_view(final(out)@) == symbol_refs_view(old(out)@) + symbol_preorder(symbol@),
    decreases symbol, 1int,
{
    let ghost start = symbol_refs_view(out@);
    out.push(symbol);
    assert(symbol_refs_view(out@) =~= start + seq![symbol@]);
    match symbol {
        Symbol::Group(symbols) => visit_symbols(symbols, out),
        Symbol::Alt(symbols) => visit_symbols(symbols, out),
        Symbol::Opt(inner) => visit_symbol(&**inner, out),
        Symbol::Star(inner, sep) => {
            visit_symbol(&**inner, out);
            if let Some(sep) = sep {
                visit_symbol(&**sep, out);
            }
        },
        Symbol::Plus(inner, sep) => {
            visit_symbol(&**inner, out);
            if let Some(sep) = sep {
                visit_symbol(&**sep, out);
            }
        },
        Symbol::Labeled { symbol: inner, .. } => visit_symbol(&**inner, out),
        Symbol::Binding { symbol: inner, .. } => visit_symbol(&**inner, out),
        Symbol::Restricted { symbol: inner, .. } => visit_symbol(&**inner, out),
        Symbol::Exclude { symbol: inner, .. } => visit_symbol(&**inner, out),
        _ => {},
    }
    assert(symbol_refs_view(out@) =~= start + symbol_preorder(symbol@));
}

/// Appends the preorders of `symbols`, one after the other.
fn visit_symbols<'a>(symbols: &'a Vec<Symbol>, out: &mut Vec<&'a Symbol>)
    ensures
        symbol_refs_view(final(out)@) == symbol_refs_view(old(out)@) + symbols_preorder(crate::grammar::symbols::symbols_view(symbols@)),
    decreases symbols, 0int,
{
    let ghost start = symbol_refs_view(out@);
    let mut i: usize = 0;
    while i < symbols.len()
        invariant
            0 <= i <= symbols@.len(),
            symbol_refs_view(out@) == start + symbols_preorder(crate::grammar::symbols::symbols_view(symbols@.take(i as int))),
        decreases symbols@.len() - i,
    {
        proof {
            assert(decreases_to!(*symbols => symbols@[i as int]));
        }
        let ghost before = symbol_refs_view(out@);
        visit_symbol(&symbols[i], out);
        proof {
            let t = symbols@.take(i + 1);
            assert(t.drop_last() =~= symbols@.take(i as int));
            let v = crate::grammar::symbols::symbols_view(t);
            assert(v.drop_last() =~= crate::grammar::symbols::symbols_view(symbols@.take(i as int)));
            assert(symbol_refs_view(out@) =~= start + symbols_preorder(v));
        }
        i += 1;
    }
    assert(symbols@.take(i as int) =~= symbols@);
}


/// Appends the preorders of the symbols of `alternatives`.
fn visit_alternatives<'a>(alternatives: &Vec<&'a Alternative>, out: &mut Vec<&'a Symbol>)
    ensures
        symbol_refs_view(final(out)@) == symbol_refs_view(old(out)@)
            + alternatives_preorder(alternatives@.map_values(|a: &Alternative| a@)),
{
    let ghost start = symbol_refs_view(out@);
    let ghost views = alternatives@.map_values(|a: &Alternative| a@);
    let mut i: usize = 0;
    while i < alternatives.len()
        invariant
            0 <= i <= alternatives@.len(),
            views == alternatives@.map_values(|a: &Alternative| a@),
            symbol_refs_view(out@) == start + alternatives_preorder(views.take(i as int)),
        decreases alternatives@.len() - i,
    {
        let alternative: &'a Alternative = alternatives[i];
        visit_symbols(&alternative.symbols, out);
        proof {
            let t = views.take(i + 1);
            assert(t.drop_last() =~= views.take(i as int));
            assert(t.last() == alternative@);
            assert(symbol_refs_view(out@) =~= start + alternatives_preorder(t));
        }
        i += 1;
    }
    assert(views.take(i as int) =~= views);
}

/// Appends the references of `regex`, left to right.
pub(crate) fn visit_regex_identifiers<'a>(regex: &'a Regex, out: &mut Vec<&'a Identifier>)
    ensures
        identifier_refs_view(final(out)@) == identifier_refs_view(old(out)@) + regex_identifiers(regex@),
    decreases regex, 1int,
{
    let ghost start = identifier_refs_view(out@);
    match regex {
        Regex::Identifier(id) => {
            out.push(id);
        },
        Regex::Sequence(parts) => visit_regexes_identifiers(parts, out),
        Regex::Alt(parts) => visit_regexes_identifiers(parts, out),
        Regex::Star(inner) => visit_regex_identifiers(&**inner, out),
        Regex::Plus(inner) => visit_regex_identifiers(&**inner, out),
        Regex::Opt(inner) => visit_regex_identifiers(&**inner, out),
        _ => {},
    }
    assert(identifier_refs_view(out@) =~= start + regex_identifiers(regex@));
}

/// Appends the references of `parts`, one after the other.
fn visit_regexes_identifiers<'a>(parts: &'a Vec<Regex>, out: &mut Vec<&'a Identifier>)
    ensures
        identifier_refs_view(final(out)@) == identifier_refs_view(old(out)@)
            + regexes_identifiers(crate::grammar::regex::regexes_view(parts@)),
    decreases parts, 0int,
{
    let ghost start = identifier_refs_view(out@);
    let mut i: usize = 0;
    while i < parts.len()
        invariant
            0 <= i <= parts@.len(),
            identifier_refs_view(out@) == start + regexes_identifiers(crate::grammar::regex::regexes_view(parts@.take(i as int))),
        decreases parts@.len() - i,
    {
        proof {
            assert(decreases_to!(*parts => parts@[i as int]));
        }
        visit_regex_identifiers(&parts[i], out);
        proof {
            let t = parts@.take(i + 1);
            assert(t.drop_last() =~= parts@.take(i as int));
            let v = crate::grammar::regex::regexes_view(t);
            assert(v.drop_last() =~= crate::grammar::regex::regexes_view(parts@.take(i as int)));
            assert(identifier_refs_view(out@) =~= start + regexes_identifiers(v));
        }
        i += 1;
    }
    assert(parts@.take(i as int) =~= parts@);
}

/// Appends references to the operands of `restrictions`.
fn push_restriction_refs<'a>(ids: &'a Vec<Identifier>, out: &mut Vec<&'a Identifier>)
    ensures
        identifier_refs_view(final(out)@) == identifier_refs_view(old(out)@)
            + crate::grammar::symbols::identifiers_view(ids@),
{
    let ghost start = identifier_refs_view(out@);
    let mut i: usize = 0;
    while i < ids.len()
        invariant
            0 <= i <= ids@.len(),
            identifier_refs_view(out@) == start + crate::grammar::symbols::identifiers_view(ids@.take(i as int)),
        decreases ids@.len() - i,
    {
        let ghost prev = out@;
        out.push(&ids[i]);
        proof {
            assert(identifier_refs_view(out@) =~= identifier_refs_view(prev).push(ids@[i as int]@));
            assert(crate::grammar::symbols::identifiers_view(ids@.take(i + 1)) =~= crate::grammar::symbols::identifiers_view(ids@.take(i as int)).push(ids@[i as int]@));
            assert(identifier_refs_view(out@) =~= start + crate::grammar::symbols::identifiers_view(ids@.take(i + 1)));
        }
        i += 1;
    }
    assert(ids@.take(i as int) =~= ids@);
}

/// Every symbol of the alternatives of `rules`, with the symbols nested in
/// it, in preorder, rule after rule.
pub fn rules_symbols(rules: &Vec<SyntaxRule>) -> (symbols: Vec<&Symbol>)
    ensures
        symbol_refs_view(symbols@) == rules_preorder(syntax_rules_view(rules@)),
{
    let mut out: Vec<&Symbol> = Vec::new();
    let ghost rv = syntax_rules_view(rules@);
    let mut i: usize = 0;
    while i < rules.len()
        invariant
            0 <= i <= rules@.len(),
            rv == syntax_rules_view(rules@),
            symbol_refs_view(out@) == rules_preorder(rv.take(i as int)),
        decreases rules@.len() - i,
    {
        let rule: &SyntaxRule = &rules[i];
        let alternatives = rule.alternatives();
        visit_alternatives(&alternatives, &mut out);
        proof {
            let t = rv.take(i + 1);
            assert(t.drop_last() =~= rv.take(i as int));
            assert(t.last() == rule@);
        }
        i += 1;
    }
    assert(rv.take(i as int) =~= rv);
    out
}

impl GrammarDef {
    /// Every symbol of the syntax rules' alternatives, with the symbols
    /// nested in it, in preorder, rule after rule.
    pub fn for_each_symbol(&self) -> (symbols: Vec<&Symbol>)
        ensures
            symbol_refs_view(symbols@) == rules_preorder(self@.syntax_rules),
    {
        rules_symbols(&self.syntax_rules)
    }

    /// Every reference of the grammar: those of the syntax rules' symbols in
    /// the order of `for_each_symbol` (a symbol's name, its call's name, its
    /// restriction operands), then those of the lexical rules' regexes.
    pub fn for_each_identifier(&self) -> (ids: Vec<&Identifier>)
        ensures
            identifier_refs_view(ids@) == identifiers_of(rules_preorder(self@.syntax_rules))
                + lexical_identifiers(self@.lexical_rules),
    {
        let symbols = self.for_each_symbol();
        let ghost views = symbol_refs_view(symbols@);
        let mut out: Vec<&Identifier> = Vec::new();
        let mut i: usize = 0;
        while i < symbols.len()
            invariant
                0 <= i <= symbols@.len(),
                views == symbol_refs_view(symbols@),
                identifier_refs_view(out@) == identifiers_of(views.take(i as int)),
            decreases symbols@.len() - i,
        {
            let symbol = symbols[i];
            let ghost before = identifier_refs_view(out@);
            match symbol {
                Symbol::Identifier(id) => {
                    out.push(id);
                },
                Symbol::Call { name, .. } => {
                    out.push(name);
                },
                Symbol::Restricted { restrictions, .. } => {
                    push_restriction_refs(&restrictions.precede, &mut out);
                    push_restriction_refs(&restrictions.excepts, &mut out);
                    push_restriction_refs(&restrictions.follow, &mut out);
                    push_restriction_refs(&restrictions.layout_aware_follow, &mut out);
                },
                _ => {},
            }
            proof {
                let t = views.take(i + 1);
                assert(t.drop_last() =~= views.take(i as int));
                assert(t.last() == symbol@);
                assert(identifier_refs_view(out@) =~= before + own_identifiers(symbol@));
            }
            i += 1;
        }
        assert(views.take(i as int) =~= views);
        let ghost syntax_ids = identifier_refs_view(out@);
        let ghost lexical = self@.lexical_rules;
        let mut j: usize = 0;
        while j < self.lexical_rules.len()
            invariant
                0 <= j <= self.lexical_rules@.len(),
                lexical == lexical_rules_view(self.lexical_rules@),
                identifier_refs_view(out@) == syntax_ids + lexical_identifiers(lexical.take(j as int)),
            decreases self.lexical_rules@.len() - j,
        {
            let rule: &LexicalRule = &self.lexical_rules[j];
            visit_regex_identifiers(&rule.regex, &mut out);
            proof {
                let t = lexical.take(j + 1);
                assert(t.drop_last() =~= lexical.take(j as int));
                assert(t.last() == rule@);
                assert(identifier_refs_view(out@) =~= syntax_ids + lexical_identifiers(t));
            }
            j += 1;
        }
        assert(lexical.take(j as int) =~= lexical);
        out
    }
}

} // verus!
