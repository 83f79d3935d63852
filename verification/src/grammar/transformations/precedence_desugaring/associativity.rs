//! The levels that restrict associativity with a separate argument `a`, the
//! heads that return an associativity level, and the exclusion targets.
//!
//! The `pr + 1` adjustment of a left, right or non-associative level works
//! when all its recursive alternatives are binary and both their ends are
//! always present. A level that mixes binary and unary alternatives, or has
//! a binary alternative whose recursive end can be absent, instead passes
//! `a`, which restricts only alternatives with both ends present.
use vstd::prelude::*;
use crate::grammar::def::{
    syntax_rules_view, Associativity, PriorityLevel, SpecAlternative, SpecPriorityLevel, SpecSyntaxRule, SyntaxRule,
};
use crate::grammar::symbols::{strings_view, symbols_view, SpecSymbol, Symbol};
use super::analysis::{classify, classify_view, Ends, RecursionKind, SpecEnds};
use super::indirect::{indirect_get, indirect_view, lookup, map_lookup, required_at, IndirectRecursion, SpecIndirect};
use super::{end_symbol, end_symbol_view, referenced, referenced_name, End};

verus! {

broadcast use vstd::std_specs::vec::axiom_vec_index_decreases;

/// Whether the symbol refers to an intermediate nonterminal whose head can
/// be absent at `end`.
pub open spec fn optional_end(get: spec_fn(Seq<char>) -> Option<SpecIndirect>, s: Option<SpecSymbol>, end: End) -> bool {
    match referenced_name(s) {
        Some(n) => match get(n) {
            Some(r) => !required_at(r, end),
            None => false,
        },
        None => false,
    }
}

/// Whether an alternative acts as a unary one for associativity: a prefix
/// or postfix, or a binary alternative with an end that can be absent.
pub open spec fn acts_unary(alt: SpecAlternative, head: Seq<char>, heads: Seq<Seq<char>>, e: SpecEnds, get: spec_fn(Seq<char>) -> Option<SpecIndirect>) -> bool {
    match classify_view(alt, head, heads, e) {
        RecursionKind::Binary => optional_end(get, end_symbol_view(alt.symbols, End::Left), End::Left)
            || optional_end(get, end_symbol_view(alt.symbols, End::Right), End::Right),
        RecursionKind::NonRecursive => false,
        _ => true,
    }
}

/// Whether a level of `head` restricts associativity with the argument `a`:
/// it declares associativity and has both a binary alternative and one that
/// acts as unary.
pub open spec fn level_uses_a(level: SpecPriorityLevel, head: Seq<char>, heads: Seq<Seq<char>>, e: SpecEnds, get: spec_fn(Seq<char>) -> Option<SpecIndirect>) -> bool {
    &&& level.associativity is Some
    &&& exists|k: int| 0 <= k < level.alternatives.len()
        && classify_view(#[trigger] level.alternatives[k], head, heads, e) == RecursionKind::Binary
    &&& exists|k: int| 0 <= k < level.alternatives.len()
        && acts_unary(#[trigger] level.alternatives[k], head, heads, e, get)
}

/// One flag per level of the rule; see `level_uses_a`.
pub open spec fn levels_using_a(rule: SpecSyntaxRule, heads: Seq<Seq<char>>, e: SpecEnds, get: spec_fn(Seq<char>) -> Option<SpecIndirect>) -> Seq<bool> {
    rule.priority_levels.map_values(|l: SpecPriorityLevel| level_uses_a(l, rule.head.name, heads, e, get))
}

/// The flags of every rule, by name.
pub open spec fn associativity_arguments_view(rules: Seq<SpecSyntaxRule>, heads: Seq<Seq<char>>, e: SpecEnds, get: spec_fn(Seq<char>) -> Option<SpecIndirect>) -> Seq<(Seq<char>, Seq<bool>)> {
    rules.map_values(|r: SpecSyntaxRule| (r.head.name, levels_using_a(r, heads, e, get)))
}

/// The flags recorded for `x`: the last entry with that name.
pub open spec fn flags_get(a: Seq<(Seq<char>, Seq<bool>)>, x: Seq<char>) -> Option<Seq<bool>>
    decreases a.len(),
{
    if a.len() == 0 {
        None
    } else if a.last().0 == x {
        Some(a.last().1)
    } else {
        flags_get(a.drop_last(), x)
    }
}

/// The views of exec flag lists.
pub open spec fn flags_view(a: Seq<(String, Vec<bool>)>) -> Seq<(Seq<char>, Seq<bool>)> {
    a.map_values(|p: (String, Vec<bool>)| (p.0@, p.1@))
}

/// The flags recorded for `x`; see `flags_get`.
pub fn lookup_flags<'a>(a: &'a Vec<(String, Vec<bool>)>, x: &str) -> (r: Option<&'a Vec<bool>>)
    ensures
        match r {
            Some(f) => flags_get(flags_view(a@), x@) == Some(f@),
            None => flags_get(flags_view(a@), x@) is None,
        },
{
    let ghost av = flags_view(a@);
    assert(av.take(av.len() as int) =~= av);
    let mut n: usize = a.len();
    while n > 0
        invariant
            0 <= n <= a@.len(),
            av == flags_view(a@),
            flags_get(av, x@) == flags_get(av.take(n as int), x@),
        decreases n,
    {
        proof {
            assert(av.take(n as int).drop_last() =~= av.take(n - 1));
            assert(av.take(n as int).last() == av[n - 1]);
        }
        if crate::text::str_eq(a[n - 1].0.as_str(), x) {
            return Some(&a[n - 1].1);
        }
        n -= 1;
    }
    None
}

/// See `optional_end`.
fn is_optional_end(m: &Vec<(String, IndirectRecursion)>, alt_symbols: &Vec<Symbol>, end: End) -> (b: bool)
    ensures
        b == optional_end(map_lookup(indirect_view(m@)), end_symbol_view(symbols_view(alt_symbols@), end), end),
{
    match referenced(end_symbol(alt_symbols, end)) {
        Some(n) => match lookup(m, n.as_str()) {
            Some(r) => !r.is_always_present_at_end(end),
            None => false,
        },
        None => false,
    }
}

/// See `level_uses_a`.
fn uses_a(level: &PriorityLevel, head: &str, heads: &Vec<String>, ends: &Ends, m: &Vec<(String, IndirectRecursion)>) -> (b: bool)
    ensures
        b == level_uses_a(level@, head@, strings_view(heads@), ends@, map_lookup(indirect_view(m@))),
{
    if level.associativity.is_none() {
        return false;
    }
    let ghost g = map_lookup(indirect_view(m@));
    let ghost hv = strings_view(heads@);
    let mut binary = false;
    let mut unary = false;
    let mut k: usize = 0;
    while k < level.alternatives.len()
        invariant
            0 <= k <= level.alternatives@.len(),
            g == map_lookup(indirect_view(m@)),
            hv == strings_view(heads@),
            binary == exists|j: int| 0 <= j < k && classify_view(#[trigger] level@.alternatives[j], head@, hv, ends@) == RecursionKind::Binary,
            unary == exists|j: int| 0 <= j < k && acts_unary(#[trigger] level@.alternatives[j], head@, hv, ends@, g),
        decreases level.alternatives@.len() - k,
    {
        let alt = &level.alternatives[k];
        assert(level@.alternatives[k as int] == alt@);
        let kind = classify(alt, head, heads, ends);
        let u = match kind {
            RecursionKind::Binary => is_optional_end(m, &alt.symbols, End::Left) || is_optional_end(m, &alt.symbols, End::Right),
            RecursionKind::NonRecursive => false,
            _ => true,
        };
        if kind == RecursionKind::Binary {
            binary = true;
        }
        if u {
            unary = true;
        }
        k += 1;
    }
    binary && unary
}

/// See `associativity_arguments_view`.
pub fn compute_associativity_arguments(rules: &Vec<SyntaxRule>, heads: &Vec<String>, ends: &Ends, m: &Vec<(String, IndirectRecursion)>) -> (a: Vec<(String, Vec<bool>)>)
    ensures
        flags_view(a@) == associativity_arguments_view(syntax_rules_view(rules@), strings_view(heads@), ends@, map_lookup(indirect_view(m@))),
{
    let ghost g = map_lookup(indirect_view(m@));
    let ghost hv = strings_view(heads@);
    let ghost rv = syntax_rules_view(rules@);
    let mut out: Vec<(String, Vec<bool>)> = Vec::new();
    let mut i: usize = 0;
    while i < rules.len()
        invariant
            0 <= i <= rules@.len(),
            g == map_lookup(indirect_view(m@)),
            hv == strings_view(heads@),
            rv == syntax_rules_view(rules@),
            flags_view(out@) == associativity_arguments_view(rv.take(i as int), hv, ends@, g),
        decreases rules@.len() - i,
    {
        let rule = &rules[i];
        let mut flags: Vec<bool> = Vec::new();
        let mut j: usize = 0;
        while j < rule.priority_levels.len()
            invariant
                0 <= j <= rule.priority_levels@.len(),
                g == map_lookup(indirect_view(m@)),
                hv == strings_view(heads@),
                flags@ == levels_using_a(rule@, hv, ends@, g).take(j as int),
            decreases rule.priority_levels@.len() - j,
        {
            assert(rule@.priority_levels[j as int] == rule.priority_levels@[j as int]@);
            flags.push(uses_a(&rule.priority_levels[j], rule.head.name.as_str(), heads, ends, m));
            assert(flags@ =~= levels_using_a(rule@, hv, ends@, g).take(j + 1));
            j += 1;
        }
        assert(levels_using_a(rule@, hv, ends@, g).take(j as int) =~= levels_using_a(rule@, hv, ends@, g));
        let ghost before = flags_view(out@);
        out.push((rule.head.name.clone(), flags));
        proof {
            assert(rv[i as int] == rule@);
            assert(flags_view(out@) =~= before.push((rule@.head.name, levels_using_a(rule@, hv, ends@, g))));
            assert(associativity_arguments_view(rv.take(i + 1), hv, ends@, g)
                =~= associativity_arguments_view(rv.take(i as int), hv, ends@, g).push((rule@.head.name, levels_using_a(rule@, hv, ends@, g))));
        }
        i += 1;
    }
    assert(rv.take(i as int) =~= rv);
    out
}

/// Whether the rule returns an associativity level: some right or
/// non-associative level uses `a` (levels and flags paired in order).
pub open spec fn returns_associativity(rule: SpecSyntaxRule, flags: Seq<bool>) -> bool {
    exists|i: int| 0 <= i < rule.priority_levels.len() && i < flags.len() && #[trigger] flags[i]
        && (rule.priority_levels[i].associativity == Some(Associativity::Right)
            || rule.priority_levels[i].associativity == Some(Associativity::NonAssoc))
}

/// The names of the rules that return an associativity level.
pub open spec fn associativity_returns_view(rules: Seq<SpecSyntaxRule>, a: Seq<(Seq<char>, Seq<bool>)>) -> Seq<Seq<char>>
    decreases rules.len(),
{
    if rules.len() == 0 {
        Seq::empty()
    } else {
        associativity_returns_view(rules.drop_last(), a) + match flags_get(a, rules.last().head.name) {
            Some(f) => if returns_associativity(rules.last(), f) { seq![rules.last().head.name] } else { Seq::empty() },
            None => Seq::empty(),
        }
    }
}

/// See `returns_associativity`.
fn rule_returns_associativity(rule: &SyntaxRule, flags: &Vec<bool>) -> (b: bool)
    ensures
        b == returns_associativity(rule@, flags@),
{
    let mut i: usize = 0;
    while i < rule.priority_levels.len() && i < flags.len()
        invariant
            0 <= i <= rule.priority_levels@.len(),
            i <= flags@.len(),
            forall|k: int| 0 <= k < i ==> !(#[trigger] flags@[k]
                && (rule@.priority_levels[k].associativity == Some(Associativity::Right)
                    || rule@.priority_levels[k].associativity == Some(Associativity::NonAssoc))),
        decreases rule.priority_levels@.len() - i,
    {
        assert(rule@.priority_levels[i as int] == rule.priority_levels@[i as int]@);
        let assoc = rule.priority_levels[i].associativity;
        if flags[i] && (assoc == Some(Associativity::Right) || assoc == Some(Associativity::NonAssoc)) {
            return true;
        }
        i += 1;
    }
    false
}

/// See `associativity_returns_view`.
pub fn compute_associativity_returns(rules: &Vec<SyntaxRule>, a: &Vec<(String, Vec<bool>)>) -> (r: Vec<String>)
    ensures
        strings_view(r@) == associativity_returns_view(syntax_rules_view(rules@), flags_view(a@)),
{
    let ghost rv = syntax_rules_view(rules@);
    let mut out: Vec<String> = Vec::new();
    let mut i: usize = 0;
    while i < rules.len()
        invariant
            0 <= i <= rules@.len(),
            rv == syntax_rules_view(rules@),
            strings_view(out@) == associativity_returns_view(rv.take(i as int), flags_view(a@)),
        decreases rules@.len() - i,
    {
        let rule = &rules[i];
        proof {
            assert(rv.take(i + 1).drop_last() =~= rv.take(i as int));
            assert(rv.take(i + 1).last() == rule@);
        }
        let ghost before = strings_view(out@);
        let yes = match lookup_flags(a, rule.head.name.as_str()) {
            Some(f) => rule_returns_associativity(rule, f),
            None => false,
        };
        if yes {
            out.push(rule.head.name.clone());
            assert(strings_view(out@) =~= before + seq![rule@.head.name]);
        } else {
            assert(strings_view(out@) =~= before + Seq::<Seq<char>>::empty());
        }
        i += 1;
    }
    assert(rv.take(i as int) =~= rv);
    out
}

/// Whether the rule's head has a parameter named `e`, which exclusion
/// desugaring adds.
pub open spec fn has_exclusion_parameter(rule: SpecSyntaxRule) -> bool {
    exists|k: int| 0 <= k < rule.head.parameters.len() && (#[trigger] rule.head.parameters[k]).name == "e"@
}

/// The names of the rules with an exclusion parameter.
pub open spec fn exclusion_targets_view(rules: Seq<SpecSyntaxRule>) -> Seq<Seq<char>>
    decreases rules.len(),
{
    if rules.len() == 0 {
        Seq::empty()
    } else {
        exclusion_targets_view(rules.drop_last()) + if has_exclusion_parameter(rules.last()) {
            seq![rules.last().head.name]
        } else {
            Seq::empty()
        }
    }
}

/// See `exclusion_targets_view`.
pub fn compute_exclusion_targets(rules: &Vec<SyntaxRule>) -> (r: Vec<String>)
    ensures
        strings_view(r@) == exclusion_targets_view(syntax_rules_view(rules@)),
{
    let ghost rv = syntax_rules_view(rules@);
    let mut out: Vec<String> = Vec::new();
    let mut i: usize = 0;
    while i < rules.len()
        invariant
            0 <= i <= rules@.len(),
            rv == syntax_rules_view(rules@),
            strings_view(out@) == exclusion_targets_view(rv.take(i as int)),
        decreases rules@.len() - i,
    {
        let rule = &rules[i];
        proof {
            assert(rv.take(i + 1).drop_last() =~= rv.take(i as int));
            assert(rv.take(i + 1).last() == rule@);
        }
        let ghost before = strings_view(out@);
        let mut found = false;
        let mut k: usize = 0;
        while k < rule.head.parameters.len()
            invariant
                0 <= k <= rule.head.parameters@.len(),
                found == exists|j: int| 0 <= j < k && (#[trigger] rule@.head.parameters[j]).name == "e"@,
            decreases rule.head.parameters@.len() - k,
        {
            assert(rule@.head.parameters[k as int] == rule.head.parameters@[k as int]@);
            if crate::text::str_eq(rule.head.parameters[k].name.as_str(), "e") {
                found = true;
            }
            k += 1;
        }
        if found {
            out.push(rule.head.name.clone());
            assert(strings_view(out@) =~= before + seq![rule@.head.name]);
        } else {
            assert(strings_view(out@) =~= before + Seq::<Seq<char>>::empty());
        }
        i += 1;
    }
    assert(rv.take(i as int) =~= rv);
    out
}

} // verus!
