//! Rewrites of syntax rules, and the shared ways of applying a rewrite to
//! every alternative of a rule.
use vstd::prelude::*;
use crate::grammar::def::{
    alternatives_view, levels_view, Alternative, LayoutStrategy, PriorityLevel, SpecAlternative,
    SpecPriorityLevel, SpecSyntaxRule, SyntaxRule,
};
use crate::grammar::symbols::{symbols_view, Identifier, Nonterminal, SpecSymbol, Symbol};

pub mod ebnf_to_bnf;
pub mod exact_keyword_match;
pub mod exclude_desugaring;
pub mod layout_insertion;
pub mod precedence_desugaring;
pub mod return_value;

verus! {

/// An alternative whose symbol list is rewritten by `f`; its label stays.
pub open spec fn map_alternative_symbols(a: SpecAlternative, f: spec_fn(Seq<SpecSymbol>) -> Seq<SpecSymbol>) -> SpecAlternative {
    SpecAlternative { symbols: f(a.symbols), label: a.label }
}

/// A priority level whose alternatives' symbol lists are rewritten by `f`.
pub open spec fn map_level_symbols(l: SpecPriorityLevel, f: spec_fn(Seq<SpecSymbol>) -> Seq<SpecSymbol>) -> SpecPriorityLevel {
    SpecPriorityLevel {
        alternatives: l.alternatives.map_values(|a: SpecAlternative| map_alternative_symbols(a, f)),
        associativity: l.associativity,
    }
}

/// A rule whose alternatives' symbol lists are rewritten by `f`; its head,
/// levels, labels, associativities and layout stay.
pub open spec fn map_rule_symbols(r: SpecSyntaxRule, f: spec_fn(Seq<SpecSymbol>) -> Seq<SpecSymbol>) -> SpecSyntaxRule {
    SpecSyntaxRule {
        head: r.head,
        priority_levels: r.priority_levels.map_values(|l: SpecPriorityLevel| map_level_symbols(l, f)),
        layout: r.layout,
    }
}

/// Each symbol of a list rewritten by `f`.
pub open spec fn map_each(symbols: Seq<SpecSymbol>, f: spec_fn(SpecSymbol) -> SpecSymbol) -> Seq<SpecSymbol> {
    symbols.map_values(|s: SpecSymbol| f(s))
}

/// A copy of a layout strategy.
pub fn clone_layout(layout: &LayoutStrategy) -> (r: LayoutStrategy)
    ensures
        r@ == layout@,
{
    match layout {
        LayoutStrategy::Default => LayoutStrategy::Default,
        LayoutStrategy::NoLayout => LayoutStrategy::NoLayout,
        LayoutStrategy::Custom(id) => LayoutStrategy::Custom(id.clone()),
    }
}

/// Whether every alternative of `r` has a symbol list meeting `pre`.
pub open spec fn all_alternatives(r: SpecSyntaxRule, pre: spec_fn(Seq<SpecSymbol>) -> bool) -> bool {
    forall|l: int, a: int| 0 <= l < r.priority_levels.len() && 0 <= a < r.priority_levels[l].alternatives.len()
        ==> pre(#[trigger] r.priority_levels[l].alternatives[a].symbols)
}

/// `rule` with each alternative's symbol list rewritten by `f`, which
/// computes `g` on the views of the lists that meet `pre`.
pub fn map_rule_by_symbols<F: Fn(&Vec<Symbol>) -> Vec<Symbol>>(
    rule: &SyntaxRule,
    f: &F,
    Ghost(g): Ghost<spec_fn(Seq<SpecSymbol>) -> Seq<SpecSymbol>>,
    Ghost(pre): Ghost<spec_fn(Seq<SpecSymbol>) -> bool>,
) -> (r: SyntaxRule)
    requires
        all_alternatives(rule@, pre),
        forall|x: &Vec<Symbol>| pre(symbols_view(x@)) ==> #[trigger] f.requires((x,)),
        forall|x: &Vec<Symbol>, y: Vec<Symbol>| #[trigger] f.ensures((x,), y) ==> symbols_view(y@) == g(symbols_view(x@)),
    ensures
        r@ == map_rule_symbols(rule@, g),
{
    let mut levels: Vec<PriorityLevel> = Vec::new();
    let mut i: usize = 0;
    while i < rule.priority_levels.len()
        invariant
            0 <= i <= rule.priority_levels@.len(),
            all_alternatives(rule@, pre),
            forall|x: &Vec<Symbol>| pre(symbols_view(x@)) ==> #[trigger] f.requires((x,)),
            forall|x: &Vec<Symbol>, y: Vec<Symbol>| #[trigger] f.ensures((x,), y) ==> symbols_view(y@) == g(symbols_view(x@)),
            levels_view(levels@) == levels_view(rule.priority_levels@.take(i as int)).map_values(
                |l: SpecPriorityLevel| map_level_symbols(l, g),
            ),
        decreases rule.priority_levels@.len() - i,
    {
        let level = &rule.priority_levels[i];
        let mut alternatives: Vec<Alternative> = Vec::new();
        let mut j: usize = 0;
        while j < level.alternatives.len()
            invariant
                0 <= j <= level.alternatives@.len(),
                level == &rule.priority_levels[i as int],
                0 <= i < rule.priority_levels@.len(),
                all_alternatives(rule@, pre),
                forall|x: &Vec<Symbol>| pre(symbols_view(x@)) ==> #[trigger] f.requires((x,)),
                forall|x: &Vec<Symbol>, y: Vec<Symbol>| #[trigger] f.ensures((x,), y) ==> symbols_view(y@) == g(symbols_view(x@)),
                alternatives_view(alternatives@) == alternatives_view(level.alternatives@.take(j as int)).map_values(
                    |a: SpecAlternative| map_alternative_symbols(a, g),
                ),
            decreases level.alternatives@.len() - j,
        {
            let alternative = &level.alternatives[j];
            assert(pre(rule@.priority_levels[i as int].alternatives[j as int].symbols));
            let symbols = f(&alternative.symbols);
            let label = match &alternative.label {
                Some(l) => Some(l.clone()),
                None => None,
            };
            let ghost prev = alternatives@;
            alternatives.push(Alternative { symbols, label });
            proof {
                assert(alternatives_view(alternatives@) =~= alternatives_view(prev).push(map_alternative_symbols(alternative@, g)));
                assert(alternatives_view(level.alternatives@.take(j + 1)).map_values(|a: SpecAlternative| map_alternative_symbols(a, g))
                    =~= alternatives_view(level.alternatives@.take(j as int)).map_values(|a: SpecAlternative| map_alternative_symbols(a, g)).push(map_alternative_symbols(alternative@, g)));
            }
            j += 1;
        }
        assert(level.alternatives@.take(j as int) =~= level.alternatives@);
        let ghost prev = levels@;
        levels.push(PriorityLevel { alternatives, associativity: level.associativity });
        proof {
            assert(levels_view(levels@) =~= levels_view(prev).push(map_level_symbols(level@, g)));
            assert(levels_view(rule.priority_levels@.take(i + 1)).map_values(|l: SpecPriorityLevel| map_level_symbols(l, g))
                =~= levels_view(rule.priority_levels@.take(i as int)).map_values(|l: SpecPriorityLevel| map_level_symbols(l, g)).push(map_level_symbols(level@, g)));
        }
        i += 1;
    }
    assert(rule.priority_levels@.take(i as int) =~= rule.priority_levels@);
    SyntaxRule { head: rule.head.clone(), priority_levels: levels, layout: clone_layout(&rule.layout) }
}

} // verus!
