//! EBNF-to-BNF rewriting: each group, option, choice, repetition and
//! separated list becomes a reference to a generated rule.
//!
//! - `(A B C)` becomes `Group_n = A B C`;
//! - `A?` becomes `Opt_n = A | ε`;
//! - `(A | B | C)` becomes `Alt_n = A | B | C`;
//! - `A*` becomes `Star_n = (A+)?`, with the option and the list rewritten too;
//! - `A+` becomes the left-recursive `Plus_n = Plus_n A | A` (with a separator
//!   `s`: `Plus_n = Plus_n s A | A`).
//!
//! The same symbol under the same layout strategy is rewritten once: later
//! occurrences reuse the reference it got. A generated rule inherits the
//! layout strategy of the rule it was found in and records the symbol it
//! replaces as its head's origin.
use vstd::prelude::*;
use crate::grammar::def::{
    alternatives_view, levels_view, syntax_rules_view, Alternative, LayoutStrategy, PriorityLevel,
    SpecAlternative, SpecLayoutStrategy, SpecPriorityLevel, SpecSyntaxRule, SyntaxRule,
};
use crate::grammar::equality::{layout_eq, symbol_eq};
use crate::grammar::symbols::{
    clone_strings, lemma_symbols_view, lemma_symbols_view_push, symbols_view, Identifier, Nonterminal, SpecIdentifier, SpecNonterminal,
    SpecSymbol, Symbol,
};
use crate::grammar::transformations::clone_layout;
use crate::text::{decimal, lemma_decimal_injective, push_decimal, string_of};

verus! {

/// The state threaded through the rewrite: one counter per kind of
/// generated rule, the generated rules, and the rewritten symbols so far
/// (symbol, layout strategy, replacement).
pub struct EbnfState {
    pub group: nat,
    pub opt: nat,
    pub alt: nat,
    pub star: nat,
    pub plus: nat,
    pub new_rules: Seq<SpecSyntaxRule>,
    pub memo: Seq<(SpecSymbol, SpecLayoutStrategy, SpecSymbol)>,
}

/// The state before any rewrite.
pub open spec fn ebnf_initial() -> EbnfState {
    EbnfState { group: 0, opt: 0, alt: 0, star: 0, plus: 0, new_rules: Seq::empty(), memo: Seq::empty() }
}

/// Every counter of `a` is at most the one of `b`.
pub open spec fn counters_le(a: EbnfState, b: EbnfState) -> bool {
    a.group <= b.group && a.opt <= b.opt && a.alt <= b.alt && a.star <= b.star && a.plus <= b.plus
}

/// Every counter fits the 16 bits the names are numbered with.
pub open spec fn counters_fit(st: EbnfState) -> bool {
    st.group <= u16::MAX && st.opt <= u16::MAX && st.alt <= u16::MAX && st.star <= u16::MAX
        && st.plus <= u16::MAX
}

/// A measure that each step of the rewrite decreases: a repetition weighs
/// more than the option of a list it becomes.
pub open spec fn ebnf_weight(s: SpecSymbol) -> nat
    decreases s, 1int,
{
    match s {
        SpecSymbol::Group(symbols) => 1 + ebnf_weights(symbols),
        SpecSymbol::Alt(symbols) => 1 + ebnf_weights(symbols),
        SpecSymbol::Opt(inner) => 1 + ebnf_weight(*inner),
        SpecSymbol::Star(inner, sep) => 3 + ebnf_weight(*inner) + match sep {
            Some(sep) => ebnf_weight(*sep),
            None => 0,
        },
        SpecSymbol::Plus(inner, sep) => 1 + ebnf_weight(*inner) + match sep {
            Some(sep) => ebnf_weight(*sep),
            None => 0,
        },
        SpecSymbol::Labeled { symbol, .. } => 1 + ebnf_weight(*symbol),
        SpecSymbol::Binding { symbol, .. } => 1 + ebnf_weight(*symbol),
        SpecSymbol::Restricted { symbol, .. } => 1 + ebnf_weight(*symbol),
        SpecSymbol::Exclude { symbol, .. } => 1 + ebnf_weight(*symbol),
        _ => 1,
    }
}

/// Every symbol weighs at least 1.
pub proof fn lemma_weight_positive(s: SpecSymbol)
    ensures
        ebnf_weight(s) >= 1,
{
}

/// The weights of `symbols`, summed.
pub open spec fn ebnf_weights(symbols: Seq<SpecSymbol>) -> nat
    decreases symbols, 0int,
{
    if symbols.len() == 0 {
        0
    } else {
        ebnf_weights(symbols.drop_last()) + ebnf_weight(symbols.last())
    }
}

/// The replacement recorded for `s` under `layout`, the latest one if any.
pub open spec fn memo_lookup(memo: Seq<(SpecSymbol, SpecLayoutStrategy, SpecSymbol)>, s: SpecSymbol, layout: SpecLayoutStrategy) -> Option<SpecSymbol>
    decreases memo.len(),
{
    if memo.len() == 0 {
        None
    } else if memo.last().0 == s && memo.last().1 == layout {
        Some(memo.last().2)
    } else {
        memo_lookup(memo.drop_last(), s, layout)
    }
}

/// A reference to the rule named `name`.
pub open spec fn reference(name: Seq<char>) -> SpecSymbol {
    SpecSymbol::Identifier(SpecIdentifier { name, definition: None })
}

/// The unlabeled alternative of `symbols`.
pub open spec fn plain_alternative(symbols: Seq<SpecSymbol>) -> SpecAlternative {
    SpecAlternative { symbols, label: None }
}

/// The rule generated for `origin`: one level of `alternatives`.
pub open spec fn generated_rule(name: Seq<char>, origin: SpecSymbol, alternatives: Seq<SpecAlternative>, layout: SpecLayoutStrategy) -> SpecSyntaxRule {
    SpecSyntaxRule {
        head: SpecNonterminal { name, origin: Some(origin), parameters: Seq::empty() },
        priority_levels: seq![SpecPriorityLevel { alternatives, associativity: None }],
        layout,
    }
}

/// `st` with one more generated rule.
pub open spec fn with_rule(st: EbnfState, rule: SpecSyntaxRule) -> EbnfState {
    EbnfState { new_rules: st.new_rules.push(rule), ..st }
}

/// `st` with one more rewritten symbol.
pub open spec fn with_memo(st: EbnfState, s: SpecSymbol, layout: SpecLayoutStrategy, replacement: SpecSymbol) -> EbnfState {
    EbnfState { memo: st.memo.push((s, layout, replacement)), ..st }
}

/// The rewrite of `s` found in a rule with strategy `layout`, and the state
/// after it. A symbol rewritten before under that strategy gets the same
/// replacement; otherwise it is rewritten and recorded.
pub open spec fn ebnf_rewrite(s: SpecSymbol, layout: SpecLayoutStrategy, st: EbnfState) -> (SpecSymbol, EbnfState)
    decreases ebnf_weight(s), 1int,
{
    match memo_lookup(st.memo, s, layout) {
        Some(found) => (found, st),
        None => {
            let (res, st1) = ebnf_rewrite_fresh(s, layout, st);
            (res, with_memo(st1, s, layout, res))
        },
    }
}

/// The rewrite of a symbol not rewritten before: wrappers keep their
/// wrapper, EBNF operators become references to generated rules, and other
/// symbols stay.
pub open spec fn ebnf_rewrite_fresh(s: SpecSymbol, layout: SpecLayoutStrategy, st: EbnfState) -> (SpecSymbol, EbnfState)
    decreases ebnf_weight(s), 0int,
{
    match s {
        SpecSymbol::Labeled { label, symbol } => {
            let (x, st1) = ebnf_rewrite(*symbol, layout, st);
            (SpecSymbol::Labeled { label, symbol: Box::new(x) }, st1)
        },
        SpecSymbol::Binding { pattern, symbol } => {
            let (x, st1) = ebnf_rewrite(*symbol, layout, st);
            (SpecSymbol::Binding { pattern, symbol: Box::new(x) }, st1)
        },
        SpecSymbol::Restricted { symbol, restrictions } => {
            let (x, st1) = ebnf_rewrite(*symbol, layout, st);
            (SpecSymbol::Restricted { symbol: Box::new(x), restrictions }, st1)
        },
        SpecSymbol::Exclude { symbol, labels } => {
            let (x, st1) = ebnf_rewrite(*symbol, layout, st);
            (SpecSymbol::Exclude { symbol: Box::new(x), labels }, st1)
        },
        SpecSymbol::Group(symbols) => {
            let name = "Group_"@ + decimal(st.group);
            let (xs, st2) = ebnf_rewrite_list(symbols, layout, EbnfState { group: st.group + 1, ..st });
            (reference(name), with_rule(st2, generated_rule(name, s, seq![plain_alternative(xs)], layout)))
        },
        SpecSymbol::Opt(inner) => {
            let name = "Opt_"@ + decimal(st.opt);
            let (x, st2) = ebnf_rewrite(*inner, layout, EbnfState { opt: st.opt + 1, ..st });
            (reference(name), with_rule(st2, generated_rule(name, s, seq![plain_alternative(seq![x]), plain_alternative(Seq::empty())], layout)))
        },
        SpecSymbol::Alt(symbols) => {
            let name = "Alt_"@ + decimal(st.alt);
            let (xs, st2) = ebnf_rewrite_list(symbols, layout, EbnfState { alt: st.alt + 1, ..st });
            (reference(name), with_rule(st2, generated_rule(name, s, xs.map_values(|x: SpecSymbol| plain_alternative(seq![x])), layout)))
        },
        SpecSymbol::Star(inner, sep) => {
            let list = SpecSymbol::Opt(Box::new(SpecSymbol::Plus(inner, sep)));
            proof {
                assert(ebnf_weight(SpecSymbol::Plus(inner, sep)) < ebnf_weight(s) - 1);
            }
            let (x, st1) = ebnf_rewrite(list, layout, st);
            let name = "Star_"@ + decimal(st1.star);
            (reference(name), with_rule(EbnfState { star: st1.star + 1, ..st1 }, generated_rule(name, s, seq![plain_alternative(seq![x])], layout)))
        },
        SpecSymbol::Plus(inner, sep) => {
            let name = "Plus_"@ + decimal(st.plus);
            let (x, st2) = ebnf_rewrite(*inner, layout, EbnfState { plus: st.plus + 1, ..st });
            match sep {
                Some(sep) => {
                    let (y, st3) = ebnf_rewrite(*sep, layout, st2);
                    (reference(name), with_rule(st3, generated_rule(name, s, seq![plain_alternative(seq![reference(name), y, x]), plain_alternative(seq![x])], layout)))
                },
                None => (reference(name), with_rule(st2, generated_rule(name, s, seq![plain_alternative(seq![reference(name), x]), plain_alternative(seq![x])], layout))),
            }
        },
        _ => (s, st),
    }
}

/// The rewrites of `symbols`, left to right, and the state after them.
pub open spec fn ebnf_rewrite_list(symbols: Seq<SpecSymbol>, layout: SpecLayoutStrategy, st: EbnfState) -> (Seq<SpecSymbol>, EbnfState)
    decreases ebnf_weights(symbols), 2int,
{
    if symbols.len() == 0 {
        (Seq::empty(), st)
    } else {
        proof {
            lemma_weight_positive(symbols.last());
        }
        let (xs, st1) = ebnf_rewrite_list(symbols.drop_last(), layout, st);
        let (x, st2) = ebnf_rewrite(symbols.last(), layout, st1);
        (xs.push(x), st2)
    }
}


/// The rewrites of the alternatives' symbols, alternative after alternative.
pub open spec fn ebnf_rewrite_alternatives(alts: Seq<SpecAlternative>, layout: SpecLayoutStrategy, st: EbnfState) -> (Seq<SpecAlternative>, EbnfState)
    decreases alts.len(),
{
    if alts.len() == 0 {
        (Seq::empty(), st)
    } else {
        let (prefix, st1) = ebnf_rewrite_alternatives(alts.drop_last(), layout, st);
        let (xs, st2) = ebnf_rewrite_list(alts.last().symbols, layout, st1);
        (prefix.push(SpecAlternative { symbols: xs, label: alts.last().label }), st2)
    }
}

/// The rewrites of the levels' alternatives, level after level.
pub open spec fn ebnf_rewrite_levels(levels: Seq<SpecPriorityLevel>, layout: SpecLayoutStrategy, st: EbnfState) -> (Seq<SpecPriorityLevel>, EbnfState)
    decreases levels.len(),
{
    if levels.len() == 0 {
        (Seq::empty(), st)
    } else {
        let (prefix, st1) = ebnf_rewrite_levels(levels.drop_last(), layout, st);
        let (alts, st2) = ebnf_rewrite_alternatives(levels.last().alternatives, layout, st1);
        (prefix.push(SpecPriorityLevel { alternatives: alts, associativity: levels.last().associativity }), st2)
    }
}

/// The rewrite of a rule's symbols under its own layout strategy.
pub open spec fn ebnf_rewrite_rule(r: SpecSyntaxRule, st: EbnfState) -> (SpecSyntaxRule, EbnfState) {
    let (levels, st1) = ebnf_rewrite_levels(r.priority_levels, r.layout, st);
    (SpecSyntaxRule { head: r.head, priority_levels: levels, layout: r.layout }, st1)
}

/// The rewrites of `rules`, rule after rule.
pub open spec fn ebnf_rewrite_rules(rules: Seq<SpecSyntaxRule>, st: EbnfState) -> (Seq<SpecSyntaxRule>, EbnfState)
    decreases rules.len(),
{
    if rules.len() == 0 {
        (Seq::empty(), st)
    } else {
        let (prefix, st1) = ebnf_rewrite_rules(rules.drop_last(), st);
        let (r, st2) = ebnf_rewrite_rule(rules.last(), st1);
        (prefix.push(r), st2)
    }
}

/// The BNF grammar: the rewritten rules, then the generated rules in the
/// order they were completed.
pub open spec fn ebnf_to_bnf(rules: Seq<SpecSyntaxRule>) -> Seq<SpecSyntaxRule> {
    let (rewritten, st) = ebnf_rewrite_rules(rules, ebnf_initial());
    rewritten + st.new_rules
}

/// Whether the numbering of the generated rules fits 16 bits.
pub open spec fn ebnf_numbering_fits(rules: Seq<SpecSyntaxRule>) -> bool {
    counters_fit(ebnf_rewrite_rules(rules, ebnf_initial()).1)
}

// ---------------------------------------------------------------------------
// The counters only grow.

proof fn lemma_rewrite_monotone(s: SpecSymbol, layout: SpecLayoutStrategy, st: EbnfState)
    ensures
        counters_le(st, ebnf_rewrite(s, layout, st).1),
    decreases ebnf_weight(s), 1int,
{
    if memo_lookup(st.memo, s, layout) is None {
        lemma_rewrite_fresh_monotone(s, layout, st);
    }
}

proof fn lemma_rewrite_fresh_monotone(s: SpecSymbol, layout: SpecLayoutStrategy, st: EbnfState)
    ensures
        counters_le(st, ebnf_rewrite_fresh(s, layout, st).1),
    decreases ebnf_weight(s), 0int,
{
    match s {
        SpecSymbol::Labeled { symbol, .. } => lemma_rewrite_monotone(*symbol, layout, st),
        SpecSymbol::Binding { symbol, .. } => lemma_rewrite_monotone(*symbol, layout, st),
        SpecSymbol::Restricted { symbol, .. } => lemma_rewrite_monotone(*symbol, layout, st),
        SpecSymbol::Exclude { symbol, .. } => lemma_rewrite_monotone(*symbol, layout, st),
        SpecSymbol::Group(symbols) => lemma_rewrite_list_monotone(symbols, layout, EbnfState { group: st.group + 1, ..st }),
        SpecSymbol::Opt(inner) => lemma_rewrite_monotone(*inner, layout, EbnfState { opt: st.opt + 1, ..st }),
        SpecSymbol::Alt(symbols) => lemma_rewrite_list_monotone(symbols, layout, EbnfState { alt: st.alt + 1, ..st }),
        SpecSymbol::Star(inner, sep) => {
            assert(ebnf_weight(SpecSymbol::Plus(inner, sep)) < ebnf_weight(s) - 1);
            lemma_rewrite_monotone(SpecSymbol::Opt(Box::new(SpecSymbol::Plus(inner, sep))), layout, st);
        },
        SpecSymbol::Plus(inner, sep) => {
            let st1 = EbnfState { plus: st.plus + 1, ..st };
            lemma_rewrite_monotone(*inner, layout, st1);
            if let Some(sep) = sep {
                lemma_rewrite_monotone(*sep, layout, ebnf_rewrite(*inner, layout, st1).1);
            }
        },
        _ => {},
    }
}

proof fn lemma_rewrite_list_monotone(symbols: Seq<SpecSymbol>, layout: SpecLayoutStrategy, st: EbnfState)
    ensures
        counters_le(st, ebnf_rewrite_list(symbols, layout, st).1),
    decreases ebnf_weights(symbols), 2int,
{
    if symbols.len() > 0 {
        assert(ebnf_weight(symbols.last()) >= 1);
        lemma_rewrite_list_monotone(symbols.drop_last(), layout, st);
        lemma_rewrite_monotone(symbols.last(), layout, ebnf_rewrite_list(symbols.drop_last(), layout, st).1);
    }
}

proof fn lemma_rewrite_list_prefix(symbols: Seq<SpecSymbol>, layout: SpecLayoutStrategy, st: EbnfState, j: int)
    requires
        0 <= j <= symbols.len(),
    ensures
        counters_le(ebnf_rewrite_list(symbols.take(j), layout, st).1, ebnf_rewrite_list(symbols, layout, st).1),
    decreases symbols.len(),
{
    if j == symbols.len() {
        assert(symbols.take(j) =~= symbols);
    } else {
        let rest = symbols.drop_last();
        assert(rest.take(j) =~= symbols.take(j));
        lemma_rewrite_list_prefix(rest, layout, st, j);
        lemma_rewrite_monotone(symbols.last(), layout, ebnf_rewrite_list(rest, layout, st).1);
    }
}

proof fn lemma_alternatives_monotone(alts: Seq<SpecAlternative>, layout: SpecLayoutStrategy, st: EbnfState, j: int)
    requires
        0 <= j <= alts.len(),
    ensures
        counters_le(st, ebnf_rewrite_alternatives(alts.take(j), layout, st).1),
        counters_le(ebnf_rewrite_alternatives(alts.take(j), layout, st).1, ebnf_rewrite_alternatives(alts, layout, st).1),
    decreases alts.len(),
{
    if alts.len() > 0 {
        let rest = alts.drop_last();
        lemma_alternatives_monotone(rest, layout, st, if j == alts.len() { rest.len() as int } else { j });
        lemma_rewrite_list_monotone(alts.last().symbols, layout, ebnf_rewrite_alternatives(rest, layout, st).1);
        if j == alts.len() {
            assert(alts.take(j) =~= alts);
        } else {
            assert(rest.take(j) =~= alts.take(j));
        }
    } else {
        assert(alts.take(j) =~= alts);
    }
}

proof fn lemma_levels_monotone(levels: Seq<SpecPriorityLevel>, layout: SpecLayoutStrategy, st: EbnfState, j: int)
    requires
        0 <= j <= levels.len(),
    ensures
        counters_le(st, ebnf_rewrite_levels(levels.take(j), layout, st).1),
        counters_le(ebnf_rewrite_levels(levels.take(j), layout, st).1, ebnf_rewrite_levels(levels, layout, st).1),
    decreases levels.len(),
{
    if levels.len() > 0 {
        let rest = levels.drop_last();
        lemma_levels_monotone(rest, layout, st, if j == levels.len() { rest.len() as int } else { j });
        let alts = levels.last().alternatives;
        lemma_alternatives_monotone(alts, layout, ebnf_rewrite_levels(rest, layout, st).1, alts.len() as int);
        assert(alts.take(alts.len() as int) =~= alts);
        if j == levels.len() {
            assert(levels.take(j) =~= levels);
        } else {
            assert(rest.take(j) =~= levels.take(j));
        }
    } else {
        assert(levels.take(j) =~= levels);
    }
}

proof fn lemma_rules_monotone(rules: Seq<SpecSyntaxRule>, st: EbnfState, j: int)
    requires
        0 <= j <= rules.len(),
    ensures
        counters_le(st, ebnf_rewrite_rules(rules.take(j), st).1),
        counters_le(ebnf_rewrite_rules(rules.take(j), st).1, ebnf_rewrite_rules(rules, st).1),
    decreases rules.len(),
{
    if rules.len() > 0 {
        let rest = rules.drop_last();
        lemma_rules_monotone(rest, st, if j == rules.len() { rest.len() as int } else { j });
        let levels = rules.last().priority_levels;
        lemma_levels_monotone(levels, rules.last().layout, ebnf_rewrite_rules(rest, st).1, levels.len() as int);
        assert(levels.take(levels.len() as int) =~= levels);
        if j == rules.len() {
            assert(rules.take(j) =~= rules);
        } else {
            assert(rest.take(j) =~= rules.take(j));
        }
    } else {
        assert(rules.take(j) =~= rules);
    }
}


// ---------------------------------------------------------------------------
// The result is BNF.

/// Whether a symbol holds no EBNF operator (group, option, choice,
/// repetition or list), seen through labels, bindings, restrictions and
/// exclusions.
pub open spec fn is_bnf_symbol(s: SpecSymbol) -> bool
    decreases s,
{
    match s {
        SpecSymbol::Group(_) | SpecSymbol::Opt(_) | SpecSymbol::Alt(_) | SpecSymbol::Star(_, _)
        | SpecSymbol::Plus(_, _) => false,
        SpecSymbol::Labeled { symbol, .. } => is_bnf_symbol(*symbol),
        SpecSymbol::Binding { symbol, .. } => is_bnf_symbol(*symbol),
        SpecSymbol::Restricted { symbol, .. } => is_bnf_symbol(*symbol),
        SpecSymbol::Exclude { symbol, .. } => is_bnf_symbol(*symbol),
        _ => true,
    }
}

/// Whether every symbol of every alternative of a rule is BNF.
pub open spec fn is_bnf_rule(r: SpecSyntaxRule) -> bool {
    forall|i: int, j: int, k: int|
        0 <= i < r.priority_levels.len() && 0 <= j < r.priority_levels[i].alternatives.len()
            && 0 <= k < r.priority_levels[i].alternatives[j].symbols.len()
            ==> is_bnf_symbol(#[trigger] r.priority_levels[i].alternatives[j].symbols[k])
}

/// The generated rules and the recorded replacements are BNF.
pub open spec fn bnf_state(st: EbnfState) -> bool {
    &&& forall|i: int| 0 <= i < st.new_rules.len() ==> is_bnf_rule(#[trigger] st.new_rules[i])
    &&& forall|i: int| 0 <= i < st.memo.len() ==> is_bnf_symbol(#[trigger] st.memo[i].2)
}

proof fn lemma_memo_lookup_bnf(memo: Seq<(SpecSymbol, SpecLayoutStrategy, SpecSymbol)>, s: SpecSymbol, layout: SpecLayoutStrategy)
    requires
        forall|i: int| 0 <= i < memo.len() ==> is_bnf_symbol(#[trigger] memo[i].2),
    ensures
        memo_lookup(memo, s, layout) matches Some(found) ==> is_bnf_symbol(found),
    decreases memo.len(),
{
    if memo.len() > 0 {
        let rest = memo.drop_last();
        assert forall|i: int| 0 <= i < rest.len() implies is_bnf_symbol(#[trigger] rest[i].2) by {
            assert(rest[i] == memo[i]);
        }
        lemma_memo_lookup_bnf(rest, s, layout);
    }
}

proof fn lemma_generated_rule_bnf(name: Seq<char>, origin: SpecSymbol, alternatives: Seq<SpecAlternative>, layout: SpecLayoutStrategy)
    requires
        forall|j: int, k: int| 0 <= j < alternatives.len() && 0 <= k < alternatives[j].symbols.len()
            ==> is_bnf_symbol(#[trigger] alternatives[j].symbols[k]),
    ensures
        is_bnf_rule(generated_rule(name, origin, alternatives, layout)),
{
}

proof fn lemma_push_rule_bnf(st: EbnfState, rule: SpecSyntaxRule)
    requires
        bnf_state(st),
        is_bnf_rule(rule),
    ensures
        bnf_state(with_rule(st, rule)),
{
    let r = with_rule(st, rule);
    assert forall|i: int| 0 <= i < r.new_rules.len() implies is_bnf_rule(#[trigger] r.new_rules[i]) by {
        if i < st.new_rules.len() {
            assert(r.new_rules[i] == st.new_rules[i]);
        }
    }
}

proof fn lemma_rewrite_bnf(s: SpecSymbol, layout: SpecLayoutStrategy, st: EbnfState)
    requires
        bnf_state(st),
    ensures
        is_bnf_symbol(ebnf_rewrite(s, layout, st).0),
        bnf_state(ebnf_rewrite(s, layout, st).1),
    decreases ebnf_weight(s), 1int,
{
    lemma_memo_lookup_bnf(st.memo, s, layout);
    if memo_lookup(st.memo, s, layout) is None {
        lemma_rewrite_fresh_bnf(s, layout, st);
        let (res, st1) = ebnf_rewrite_fresh(s, layout, st);
        let st2 = with_memo(st1, s, layout, res);
        assert forall|i: int| 0 <= i < st2.memo.len() implies is_bnf_symbol(#[trigger] st2.memo[i].2) by {
            if i < st1.memo.len() {
                assert(st2.memo[i] == st1.memo[i]);
            }
        }
    }
}

proof fn lemma_rewrite_fresh_bnf(s: SpecSymbol, layout: SpecLayoutStrategy, st: EbnfState)
    requires
        bnf_state(st),
    ensures
        is_bnf_symbol(ebnf_rewrite_fresh(s, layout, st).0),
        bnf_state(ebnf_rewrite_fresh(s, layout, st).1),
    decreases ebnf_weight(s), 0int,
{
    match s {
        SpecSymbol::Labeled { symbol, .. } => lemma_rewrite_bnf(*symbol, layout, st),
        SpecSymbol::Binding { symbol, .. } => lemma_rewrite_bnf(*symbol, layout, st),
        SpecSymbol::Restricted { symbol, .. } => lemma_rewrite_bnf(*symbol, layout, st),
        SpecSymbol::Exclude { symbol, .. } => lemma_rewrite_bnf(*symbol, layout, st),
        SpecSymbol::Group(symbols) => {
            let st1 = EbnfState { group: st.group + 1, ..st };
            lemma_rewrite_list_bnf(symbols, layout, st1);
            let (xs, st2) = ebnf_rewrite_list(symbols, layout, st1);
            let name = "Group_"@ + decimal(st.group);
            let alts = seq![plain_alternative(xs)];
            assert forall|j: int, k: int| 0 <= j < alts.len() && 0 <= k < alts[j].symbols.len()
                implies is_bnf_symbol(#[trigger] alts[j].symbols[k]) by {
                assert(alts[j].symbols == xs);
            }
            lemma_generated_rule_bnf(name, s, alts, layout);
            lemma_push_rule_bnf(st2, generated_rule(name, s, alts, layout));
        },
        SpecSymbol::Opt(inner) => {
            let st1 = EbnfState { opt: st.opt + 1, ..st };
            lemma_rewrite_bnf(*inner, layout, st1);
            let (x, st2) = ebnf_rewrite(*inner, layout, st1);
            let name = "Opt_"@ + decimal(st.opt);
            let alts = seq![plain_alternative(seq![x]), plain_alternative(Seq::empty())];
            assert forall|j: int, k: int| 0 <= j < alts.len() && 0 <= k < alts[j].symbols.len()
                implies is_bnf_symbol(#[trigger] alts[j].symbols[k]) by {
                assert(alts[j].symbols[k] == x);
            }
            lemma_generated_rule_bnf(name, s, alts, layout);
            lemma_push_rule_bnf(st2, generated_rule(name, s, alts, layout));
        },
        SpecSymbol::Alt(symbols) => {
            let st1 = EbnfState { alt: st.alt + 1, ..st };
            lemma_rewrite_list_bnf(symbols, layout, st1);
            let (xs, st2) = ebnf_rewrite_list(symbols, layout, st1);
            let name = "Alt_"@ + decimal(st.alt);
            let alts = xs.map_values(|x: SpecSymbol| plain_alternative(seq![x]));
            assert forall|j: int, k: int| 0 <= j < alts.len() && 0 <= k < alts[j].symbols.len()
                implies is_bnf_symbol(#[trigger] alts[j].symbols[k]) by {
                assert(alts[j].symbols[k] == xs[j]);
            }
            lemma_generated_rule_bnf(name, s, alts, layout);
            lemma_push_rule_bnf(st2, generated_rule(name, s, alts, layout));
        },
        SpecSymbol::Star(inner, sep) => {
            let list = SpecSymbol::Opt(Box::new(SpecSymbol::Plus(inner, sep)));
            assert(ebnf_weight(SpecSymbol::Plus(inner, sep)) < ebnf_weight(s) - 1);
            lemma_rewrite_bnf(list, layout, st);
            let (x, st1) = ebnf_rewrite(list, layout, st);
            let name = "Star_"@ + decimal(st1.star);
            let alts = seq![plain_alternative(seq![x])];
            assert forall|j: int, k: int| 0 <= j < alts.len() && 0 <= k < alts[j].symbols.len()
                implies is_bnf_symbol(#[trigger] alts[j].symbols[k]) by {
                assert(alts[j].symbols[k] == x);
            }
            lemma_generated_rule_bnf(name, s, alts, layout);
            lemma_push_rule_bnf(EbnfState { star: st1.star + 1, ..st1 }, generated_rule(name, s, alts, layout));
        },
        SpecSymbol::Plus(inner, sep) => {
            let st1 = EbnfState { plus: st.plus + 1, ..st };
            let name = "Plus_"@ + decimal(st.plus);
            lemma_rewrite_bnf(*inner, layout, st1);
            let (x, st2) = ebnf_rewrite(*inner, layout, st1);
            match sep {
                Some(sep) => {
                    lemma_rewrite_bnf(*sep, layout, st2);
                    let (y, st3) = ebnf_rewrite(*sep, layout, st2);
                    let alts = seq![plain_alternative(seq![reference(name), y, x]), plain_alternative(seq![x])];
                    assert forall|j: int, k: int| 0 <= j < alts.len() && 0 <= k < alts[j].symbols.len()
                        implies is_bnf_symbol(#[trigger] alts[j].symbols[k]) by {
                        if j == 0 {
                            assert(alts[j].symbols == seq![reference(name), y, x]);
                        } else {
                            assert(alts[j].symbols == seq![x]);
                        }
                    }
                    lemma_generated_rule_bnf(name, s, alts, layout);
                    lemma_push_rule_bnf(st3, generated_rule(name, s, alts, layout));
                },
                None => {
                    let alts = seq![plain_alternative(seq![reference(name), x]), plain_alternative(seq![x])];
                    assert forall|j: int, k: int| 0 <= j < alts.len() && 0 <= k < alts[j].symbols.len()
                        implies is_bnf_symbol(#[trigger] alts[j].symbols[k]) by {
                        if j == 0 {
                            assert(alts[j].symbols == seq![reference(name), x]);
                        } else {
                            assert(alts[j].symbols == seq![x]);
                        }
                    }
                    lemma_generated_rule_bnf(name, s, alts, layout);
                    lemma_push_rule_bnf(st2, generated_rule(name, s, alts, layout));
                },
            }
        },
        _ => {},
    }
}

proof fn lemma_rewrite_list_bnf(symbols: Seq<SpecSymbol>, layout: SpecLayoutStrategy, st: EbnfState)
    requires
        bnf_state(st),
    ensures
        forall|k: int| 0 <= k < ebnf_rewrite_list(symbols, layout, st).0.len()
            ==> is_bnf_symbol(#[trigger] ebnf_rewrite_list(symbols, layout, st).0[k]),
        ebnf_rewrite_list(symbols, layout, st).0.len() == symbols.len(),
        bnf_state(ebnf_rewrite_list(symbols, layout, st).1),
    decreases ebnf_weights(symbols), 2int,
{
    if symbols.len() > 0 {
        assert(ebnf_weight(symbols.last()) >= 1);
        lemma_rewrite_list_bnf(symbols.drop_last(), layout, st);
        let (xs, st1) = ebnf_rewrite_list(symbols.drop_last(), layout, st);
        lemma_rewrite_bnf(symbols.last(), layout, st1);
    }
}

proof fn lemma_alternatives_bnf(alts: Seq<SpecAlternative>, layout: SpecLayoutStrategy, st: EbnfState)
    requires
        bnf_state(st),
    ensures
        forall|j: int, k: int| 0 <= j < ebnf_rewrite_alternatives(alts, layout, st).0.len()
            && 0 <= k < ebnf_rewrite_alternatives(alts, layout, st).0[j].symbols.len()
            ==> is_bnf_symbol(#[trigger] ebnf_rewrite_alternatives(alts, layout, st).0[j].symbols[k]),
        ebnf_rewrite_alternatives(alts, layout, st).0.len() == alts.len(),
        bnf_state(ebnf_rewrite_alternatives(alts, layout, st).1),
    decreases alts.len(),
{
    if alts.len() > 0 {
        lemma_alternatives_bnf(alts.drop_last(), layout, st);
        let (prefix, st1) = ebnf_rewrite_alternatives(alts.drop_last(), layout, st);
        lemma_rewrite_list_bnf(alts.last().symbols, layout, st1);
        let r = ebnf_rewrite_alternatives(alts, layout, st).0;
        assert forall|j: int, k: int| 0 <= j < r.len() && 0 <= k < r[j].symbols.len()
            implies is_bnf_symbol(#[trigger] r[j].symbols[k]) by {
            if j < prefix.len() {
                assert(r[j] == prefix[j]);
            }
        }
    }
}

proof fn lemma_levels_bnf(levels: Seq<SpecPriorityLevel>, layout: SpecLayoutStrategy, st: EbnfState)
    requires
        bnf_state(st),
    ensures
        forall|i: int, j: int, k: int| 0 <= i < ebnf_rewrite_levels(levels, layout, st).0.len()
            && 0 <= j < ebnf_rewrite_levels(levels, layout, st).0[i].alternatives.len()
            && 0 <= k < ebnf_rewrite_levels(levels, layout, st).0[i].alternatives[j].symbols.len()
            ==> is_bnf_symbol(#[trigger] ebnf_rewrite_levels(levels, layout, st).0[i].alternatives[j].symbols[k]),
        bnf_state(ebnf_rewrite_levels(levels, layout, st).1),
    decreases levels.len(),
{
    if levels.len() > 0 {
        lemma_levels_bnf(levels.drop_last(), layout, st);
        let (prefix, st1) = ebnf_rewrite_levels(levels.drop_last(), layout, st);
        lemma_alternatives_bnf(levels.last().alternatives, layout, st1);
        let r = ebnf_rewrite_levels(levels, layout, st).0;
        assert forall|i: int, j: int, k: int| 0 <= i < r.len() && 0 <= j < r[i].alternatives.len()
            && 0 <= k < r[i].alternatives[j].symbols.len()
            implies is_bnf_symbol(#[trigger] r[i].alternatives[j].symbols[k]) by {
            if i < prefix.len() {
                assert(r[i] == prefix[i]);
            }
        }
    }
}

proof fn lemma_rules_bnf(rules: Seq<SpecSyntaxRule>, st: EbnfState)
    requires
        bnf_state(st),
    ensures
        forall|i: int| 0 <= i < ebnf_rewrite_rules(rules, st).0.len() ==> is_bnf_rule(#[trigger] ebnf_rewrite_rules(rules, st).0[i]),
        bnf_state(ebnf_rewrite_rules(rules, st).1),
    decreases rules.len(),
{
    if rules.len() > 0 {
        lemma_rules_bnf(rules.drop_last(), st);
        let (prefix, st1) = ebnf_rewrite_rules(rules.drop_last(), st);
        lemma_levels_bnf(rules.last().priority_levels, rules.last().layout, st1);
        let r = ebnf_rewrite_rules(rules, st).0;
        assert forall|i: int| 0 <= i < r.len() implies is_bnf_rule(#[trigger] r[i]) by {
            if i < prefix.len() {
                assert(r[i] == prefix[i]);
            }
        }
    }
}

/// Whether `s` is an EBNF operator, which the rewrite turns into a reference
/// to a generated rule.
pub open spec fn is_ebnf_operator(s: SpecSymbol) -> bool {
    s is Group || s is Opt || s is Alt || s is Star || s is Plus
}

/// Rewriting a symbol a second time, under the same layout strategy,
/// returns the same replacement and leaves the state as it is: no rule is
/// generated and no counter moves. A first rewrite of an EBNF operator
/// generates a rule for it, and the replacement is a reference to that
/// rule.
pub proof fn rewrite_is_remembered(s: SpecSymbol, layout: SpecLayoutStrategy, st: EbnfState)
    ensures
        ({
            let (r1, st1) = ebnf_rewrite(s, layout, st);
            ebnf_rewrite(s, layout, st1) == (r1, st1)
        }),
        memo_lookup(st.memo, s, layout) is None && is_ebnf_operator(s) ==> ({
            let (r1, st1) = ebnf_rewrite(s, layout, st);
            &&& st1.new_rules.len() > 0
            &&& st1.new_rules.last().head.origin == Some(s)
            &&& r1 == reference(st1.new_rules.last().head.name)
        }),
{
    let (r1, st1) = ebnf_rewrite(s, layout, st);
    if memo_lookup(st.memo, s, layout) is None {
        assert(st1.memo.last() == (s, layout, r1));
        assert(memo_lookup(st1.memo, s, layout) == Some(r1));
    }
}

/// Whether `name` is `prefix` followed by the numeral of a number below
/// `bound`.
pub open spec fn numbered_by(name: Seq<char>, prefix: Seq<char>, bound: nat) -> bool {
    exists|k: nat| k < bound && name == prefix + decimal(k)
}

/// Whether `name` is a generated name whose number is below the state's
/// counter for its kind.
pub open spec fn numbered_below(name: Seq<char>, st: EbnfState) -> bool {
    ||| numbered_by(name, "Group_"@, st.group)
    ||| numbered_by(name, "Opt_"@, st.opt)
    ||| numbered_by(name, "Alt_"@, st.alt)
    ||| numbered_by(name, "Star_"@, st.star)
    ||| numbered_by(name, "Plus_"@, st.plus)
}

/// Every generated rule is named by its kind and a number below the
/// counter of that kind.
pub open spec fn names_numbered(st: EbnfState) -> bool {
    forall|i: int| 0 <= i < st.new_rules.len() ==> numbered_below(#[trigger] st.new_rules[i].head.name, st)
}

proof fn lemma_numbered_below_grows(name: Seq<char>, a: EbnfState, b: EbnfState)
    requires
        counters_le(a, b),
        numbered_below(name, a),
    ensures
        numbered_below(name, b),
{
}

proof fn lemma_names_numbered_grows(a: EbnfState, b: EbnfState)
    requires
        counters_le(a, b),
        names_numbered(a),
        b.new_rules == a.new_rules,
    ensures
        names_numbered(b),
{
    assert forall|i: int| 0 <= i < b.new_rules.len() implies numbered_below(#[trigger] b.new_rules[i].head.name, b) by {
        lemma_numbered_below_grows(a.new_rules[i].head.name, a, b);
    }
}

proof fn lemma_names_numbered_with_rule(st: EbnfState, rule: SpecSyntaxRule)
    requires
        names_numbered(st),
        numbered_below(rule.head.name, st),
    ensures
        names_numbered(with_rule(st, rule)),
{
    let st2 = with_rule(st, rule);
    assert forall|i: int| 0 <= i < st2.new_rules.len() implies numbered_below(#[trigger] st2.new_rules[i].head.name, st2) by {
        if i < st.new_rules.len() {
            assert(st2.new_rules[i] == st.new_rules[i]);
        }
    }
}

proof fn lemma_rewrite_names(s: SpecSymbol, layout: SpecLayoutStrategy, st: EbnfState)
    requires
        names_numbered(st),
    ensures
        names_numbered(ebnf_rewrite(s, layout, st).1),
    decreases ebnf_weight(s), 1int,
{
    if memo_lookup(st.memo, s, layout) is None {
        lemma_rewrite_fresh_names(s, layout, st);
        let (res, st1) = ebnf_rewrite_fresh(s, layout, st);
        lemma_names_numbered_grows(st1, with_memo(st1, s, layout, res));
    }
}

proof fn lemma_rewrite_fresh_names(s: SpecSymbol, layout: SpecLayoutStrategy, st: EbnfState)
    requires
        names_numbered(st),
    ensures
        names_numbered(ebnf_rewrite_fresh(s, layout, st).1),
    decreases ebnf_weight(s), 0int,
{
    match s {
        SpecSymbol::Labeled { symbol, .. } => lemma_rewrite_names(*symbol, layout, st),
        SpecSymbol::Binding { symbol, .. } => lemma_rewrite_names(*symbol, layout, st),
        SpecSymbol::Restricted { symbol, .. } => lemma_rewrite_names(*symbol, layout, st),
        SpecSymbol::Exclude { symbol, .. } => lemma_rewrite_names(*symbol, layout, st),
        SpecSymbol::Group(symbols) => {
            let inc = EbnfState { group: st.group + 1, ..st };
            lemma_names_numbered_grows(st, inc);
            lemma_rewrite_list_names(symbols, layout, inc);
            lemma_rewrite_list_monotone(symbols, layout, inc);
            let (xs, st2) = ebnf_rewrite_list(symbols, layout, inc);
            let name = "Group_"@ + decimal(st.group);
            assert(numbered_by(name, "Group_"@, st2.group));
            lemma_names_numbered_with_rule(st2, generated_rule(name, s, seq![plain_alternative(xs)], layout));
        },
        SpecSymbol::Opt(inner) => {
            let inc = EbnfState { opt: st.opt + 1, ..st };
            lemma_names_numbered_grows(st, inc);
            lemma_rewrite_names(*inner, layout, inc);
            lemma_rewrite_monotone(*inner, layout, inc);
            let (x, st2) = ebnf_rewrite(*inner, layout, inc);
            let name = "Opt_"@ + decimal(st.opt);
            assert(numbered_by(name, "Opt_"@, st2.opt));
            lemma_names_numbered_with_rule(st2, generated_rule(name, s, seq![plain_alternative(seq![x]), plain_alternative(Seq::empty())], layout));
        },
        SpecSymbol::Alt(symbols) => {
            let inc = EbnfState { alt: st.alt + 1, ..st };
            lemma_names_numbered_grows(st, inc);
            lemma_rewrite_list_names(symbols, layout, inc);
            lemma_rewrite_list_monotone(symbols, layout, inc);
            let (xs, st2) = ebnf_rewrite_list(symbols, layout, inc);
            let name = "Alt_"@ + decimal(st.alt);
            assert(numbered_by(name, "Alt_"@, st2.alt));
            lemma_names_numbered_with_rule(st2, generated_rule(name, s, xs.map_values(|x: SpecSymbol| plain_alternative(seq![x])), layout));
        },
        SpecSymbol::Star(inner, sep) => {
            let list = SpecSymbol::Opt(Box::new(SpecSymbol::Plus(inner, sep)));
            assert(ebnf_weight(SpecSymbol::Plus(inner, sep)) < ebnf_weight(s) - 1);
            lemma_rewrite_names(list, layout, st);
            let (x, st1) = ebnf_rewrite(list, layout, st);
            let inc = EbnfState { star: st1.star + 1, ..st1 };
            lemma_names_numbered_grows(st1, inc);
            let name = "Star_"@ + decimal(st1.star);
            assert(numbered_by(name, "Star_"@, inc.star));
            lemma_names_numbered_with_rule(inc, generated_rule(name, s, seq![plain_alternative(seq![x])], layout));
        },
        SpecSymbol::Plus(inner, sep) => {
            let inc = EbnfState { plus: st.plus + 1, ..st };
            lemma_names_numbered_grows(st, inc);
            lemma_rewrite_names(*inner, layout, inc);
            lemma_rewrite_monotone(*inner, layout, inc);
            let (x, st2) = ebnf_rewrite(*inner, layout, inc);
            let name = "Plus_"@ + decimal(st.plus);
            match sep {
                Some(sep) => {
                    lemma_rewrite_names(*sep, layout, st2);
                    lemma_rewrite_monotone(*sep, layout, st2);
                    let (y, st3) = ebnf_rewrite(*sep, layout, st2);
                    assert(numbered_by(name, "Plus_"@, st3.plus));
                    lemma_names_numbered_with_rule(st3, generated_rule(name, s, seq![plain_alternative(seq![reference(name), y, x]), plain_alternative(seq![x])], layout));
                },
                None => {
                    assert(numbered_by(name, "Plus_"@, st2.plus));
                    lemma_names_numbered_with_rule(st2, generated_rule(name, s, seq![plain_alternative(seq![reference(name), x]), plain_alternative(seq![x])], layout));
                },
            }
        },
        _ => {},
    }
}

proof fn lemma_rewrite_list_names(symbols: Seq<SpecSymbol>, layout: SpecLayoutStrategy, st: EbnfState)
    requires
        names_numbered(st),
    ensures
        names_numbered(ebnf_rewrite_list(symbols, layout, st).1),
    decreases ebnf_weights(symbols), 2int,
{
    if symbols.len() > 0 {
        assert(ebnf_weight(symbols.last()) >= 1);
        lemma_rewrite_list_names(symbols.drop_last(), layout, st);
        lemma_rewrite_names(symbols.last(), layout, ebnf_rewrite_list(symbols.drop_last(), layout, st).1);
    }
}

/// The generated names stay numbered below their counters: this holds at
/// the start and every rewrite keeps it.
pub proof fn generated_names_stay_numbered(s: SpecSymbol, layout: SpecLayoutStrategy, st: EbnfState)
    ensures
        names_numbered(ebnf_initial()),
        names_numbered(st) ==> names_numbered(ebnf_rewrite(s, layout, st).1),
{
    if names_numbered(st) {
        lemma_rewrite_names(s, layout, st);
    }
}

proof fn lemma_rewrite_rules_grow(s: SpecSymbol, layout: SpecLayoutStrategy, st: EbnfState)
    ensures
        st.new_rules.len() <= ebnf_rewrite(s, layout, st).1.new_rules.len(),
    decreases ebnf_weight(s), 1int,
{
    if memo_lookup(st.memo, s, layout) is None {
        lemma_rewrite_fresh_rules_grow(s, layout, st);
    }
}

proof fn lemma_rewrite_fresh_rules_grow(s: SpecSymbol, layout: SpecLayoutStrategy, st: EbnfState)
    ensures
        st.new_rules.len() <= ebnf_rewrite_fresh(s, layout, st).1.new_rules.len(),
        is_ebnf_operator(s) ==> st.new_rules.len() < ebnf_rewrite_fresh(s, layout, st).1.new_rules.len(),
    decreases ebnf_weight(s), 0int,
{
    match s {
        SpecSymbol::Labeled { symbol, .. } => lemma_rewrite_rules_grow(*symbol, layout, st),
        SpecSymbol::Binding { symbol, .. } => lemma_rewrite_rules_grow(*symbol, layout, st),
        SpecSymbol::Restricted { symbol, .. } => lemma_rewrite_rules_grow(*symbol, layout, st),
        SpecSymbol::Exclude { symbol, .. } => lemma_rewrite_rules_grow(*symbol, layout, st),
        SpecSymbol::Group(symbols) => lemma_rewrite_list_rules_grow(symbols, layout, EbnfState { group: st.group + 1, ..st }),
        SpecSymbol::Opt(inner) => lemma_rewrite_rules_grow(*inner, layout, EbnfState { opt: st.opt + 1, ..st }),
        SpecSymbol::Alt(symbols) => lemma_rewrite_list_rules_grow(symbols, layout, EbnfState { alt: st.alt + 1, ..st }),
        SpecSymbol::Star(inner, sep) => {
            assert(ebnf_weight(SpecSymbol::Plus(inner, sep)) < ebnf_weight(s) - 1);
            lemma_rewrite_rules_grow(SpecSymbol::Opt(Box::new(SpecSymbol::Plus(inner, sep))), layout, st);
        },
        SpecSymbol::Plus(inner, sep) => {
            let st1 = EbnfState { plus: st.plus + 1, ..st };
            lemma_rewrite_rules_grow(*inner, layout, st1);
            if let Some(sep) = sep {
                lemma_rewrite_rules_grow(*sep, layout, ebnf_rewrite(*inner, layout, st1).1);
            }
        },
        _ => {},
    }
}

proof fn lemma_rewrite_list_rules_grow(symbols: Seq<SpecSymbol>, layout: SpecLayoutStrategy, st: EbnfState)
    ensures
        st.new_rules.len() <= ebnf_rewrite_list(symbols, layout, st).1.new_rules.len(),
    decreases ebnf_weights(symbols), 2int,
{
    if symbols.len() > 0 {
        assert(ebnf_weight(symbols.last()) >= 1);
        lemma_rewrite_list_rules_grow(symbols.drop_last(), layout, st);
        lemma_rewrite_rules_grow(symbols.last(), layout, ebnf_rewrite_list(symbols.drop_last(), layout, st).1);
    }
}

proof fn lemma_distinct_numbered(p1: Seq<char>, k1: nat, p2: Seq<char>, k2: nat)
    requires
        p1.len() >= 1,
        p2.len() >= 1,
        (p1 == p2 && k1 != k2) || p1[0] != p2[0],
    ensures
        p1 + decimal(k1) != p2 + decimal(k2),
{
    if p1 + decimal(k1) == p2 + decimal(k2) {
        if p1 == p2 {
            assert((p1 + decimal(k1)).skip(p1.len() as int) =~= decimal(k1));
            assert((p2 + decimal(k2)).skip(p2.len() as int) =~= decimal(k2));
            lemma_decimal_injective(k1, k2);
        } else {
            assert((p1 + decimal(k1))[0] == p1[0]);
            assert((p2 + decimal(k2))[0] == p2[0]);
        }
    }
}

/// No name numbered below the counters of `st` is `prefix` followed by a
/// number at or above the counter of its kind.
proof fn lemma_fresh_number(st: EbnfState, name: Seq<char>, prefix: Seq<char>, c: nat)
    requires
        numbered_below(name, st),
        (prefix == "Group_"@ && c >= st.group) || (prefix == "Opt_"@ && c >= st.opt)
            || (prefix == "Alt_"@ && c >= st.alt) || (prefix == "Star_"@ && c >= st.star)
            || (prefix == "Plus_"@ && c >= st.plus),
    ensures
        name != prefix + decimal(c),
{
    reveal_strlit("Group_");
    reveal_strlit("Opt_");
    reveal_strlit("Alt_");
    reveal_strlit("Star_");
    reveal_strlit("Plus_");
    if numbered_by(name, "Group_"@, st.group) {
        let k = choose|k: nat| k < st.group && name == "Group_"@ + decimal(k);
        lemma_distinct_numbered("Group_"@, k, prefix, c);
    } else if numbered_by(name, "Opt_"@, st.opt) {
        let k = choose|k: nat| k < st.opt && name == "Opt_"@ + decimal(k);
        lemma_distinct_numbered("Opt_"@, k, prefix, c);
    } else if numbered_by(name, "Alt_"@, st.alt) {
        let k = choose|k: nat| k < st.alt && name == "Alt_"@ + decimal(k);
        lemma_distinct_numbered("Alt_"@, k, prefix, c);
    } else if numbered_by(name, "Star_"@, st.star) {
        let k = choose|k: nat| k < st.star && name == "Star_"@ + decimal(k);
        lemma_distinct_numbered("Star_"@, k, prefix, c);
    } else {
        let k = choose|k: nat| k < st.plus && name == "Plus_"@ + decimal(k);
        lemma_distinct_numbered("Plus_"@, k, prefix, c);
    }
}

/// A first rewrite of an EBNF operator under a layout strategy (under
/// another strategy than before, say) generates a rule whose name no rule
/// generated before it has.
pub proof fn first_rewrite_names_a_fresh_rule(s: SpecSymbol, layout: SpecLayoutStrategy, st: EbnfState)
    requires
        names_numbered(st),
        memo_lookup(st.memo, s, layout) is None,
        is_ebnf_operator(s),
    ensures
        ({
            let (r1, st1) = ebnf_rewrite(s, layout, st);
            &&& st1.new_rules.len() > st.new_rules.len()
            &&& forall|i: int| 0 <= i < st.new_rules.len()
                    ==> #[trigger] st.new_rules[i].head.name != st1.new_rules.last().head.name
        }),
{
    let (r1, st1) = ebnf_rewrite(s, layout, st);
    let fresh = ebnf_rewrite_fresh(s, layout, st).1;
    assert(st1.new_rules == fresh.new_rules);
    let name = fresh.new_rules.last().head.name;
    let ghost mut prefix: Seq<char> = Seq::empty();
    let ghost mut c: nat = 0;
    match s {
        SpecSymbol::Group(symbols) => {
            let inc = EbnfState { group: st.group + 1, ..st };
            lemma_rewrite_list_monotone(symbols, layout, inc);
            prefix = "Group_"@;
            c = st.group;
        },
        SpecSymbol::Opt(inner) => {
            let inc = EbnfState { opt: st.opt + 1, ..st };
            lemma_rewrite_monotone(*inner, layout, inc);
            prefix = "Opt_"@;
            c = st.opt;
        },
        SpecSymbol::Alt(symbols) => {
            let inc = EbnfState { alt: st.alt + 1, ..st };
            lemma_rewrite_list_monotone(symbols, layout, inc);
            prefix = "Alt_"@;
            c = st.alt;
        },
        SpecSymbol::Star(inner, sep) => {
            let list = SpecSymbol::Opt(Box::new(SpecSymbol::Plus(inner, sep)));
            lemma_rewrite_monotone(list, layout, st);
            prefix = "Star_"@;
            c = ebnf_rewrite(list, layout, st).1.star;
        },
        SpecSymbol::Plus(inner, sep) => {
            let inc = EbnfState { plus: st.plus + 1, ..st };
            lemma_rewrite_monotone(*inner, layout, inc);
            if let Some(sep) = sep {
                lemma_rewrite_monotone(*sep, layout, ebnf_rewrite(*inner, layout, inc).1);
            }
            prefix = "Plus_"@;
            c = st.plus;
        },
        _ => {},
    }
    lemma_rewrite_fresh_monotone(s, layout, st);
    assert(name == prefix + decimal(c));
    assert(fresh.new_rules.len() > st.new_rules.len()) by {
        lemma_rewrite_fresh_rules_grow(s, layout, st);
    }
    assert forall|i: int| 0 <= i < st.new_rules.len()
        implies #[trigger] st.new_rules[i].head.name != st1.new_rules.last().head.name by {
        lemma_fresh_number(st, st.new_rules[i].head.name, prefix, c);
    }
}

/// The rewrite leaves no EBNF operator: every symbol of every alternative of
/// every resulting rule, original or generated, is BNF.
pub proof fn ebnf_to_bnf_yields_bnf(rules: Seq<SpecSyntaxRule>)
    ensures
        forall|i: int| 0 <= i < ebnf_to_bnf(rules).len() ==> is_bnf_rule(#[trigger] ebnf_to_bnf(rules)[i]),
{
    lemma_rules_bnf(rules, ebnf_initial());
    let (rewritten, st) = ebnf_rewrite_rules(rules, ebnf_initial());
    let all = rewritten + st.new_rules;
    assert forall|i: int| 0 <= i < all.len() implies is_bnf_rule(#[trigger] all[i]) by {
        if i < rewritten.len() {
            assert(all[i] == rewritten[i]);
        } else {
            assert(all[i] == st.new_rules[i - rewritten.len()]);
        }
    }
}

/// A symbol weighs at most the list it is in.
proof fn lemma_weight_in_list(symbols: Seq<SpecSymbol>, i: int)
    requires
        0 <= i < symbols.len(),
    ensures
        ebnf_weight(symbols[i]) <= ebnf_weights(symbols),
    decreases symbols.len(),
{
    if i < symbols.len() - 1 {
        lemma_weight_in_list(symbols.drop_last(), i);
    }
}

// ---------------------------------------------------------------------------
// The rewrite

/// The executable state of the rewrite; see `EbnfState`.
struct Rewriter {
    group: u16,
    opt: u16,
    alt: u16,
    star: u16,
    plus: u16,
    new_rules: Vec<SyntaxRule>,
    memo: Vec<(Symbol, LayoutStrategy, Symbol)>,
}

/// The views of the recorded rewrites.
spec fn memo_view(memo: Seq<(Symbol, LayoutStrategy, Symbol)>) -> Seq<(SpecSymbol, SpecLayoutStrategy, SpecSymbol)> {
    memo.map_values(|e: (Symbol, LayoutStrategy, Symbol)| (e.0@, e.1@, e.2@))
}

impl View for Rewriter {
    type V = EbnfState;

    closed spec fn view(&self) -> EbnfState {
        EbnfState {
            group: self.group as nat,
            opt: self.opt as nat,
            alt: self.alt as nat,
            star: self.star as nat,
            plus: self.plus as nat,
            new_rules: syntax_rules_view(self.new_rules@),
            memo: memo_view(self.memo@),
        }
    }
}

/// `prefix` followed by the decimal numeral of `n`.
fn numbered(prefix: &str, n: u16) -> (s: String)
    ensures
        s@ == prefix@ + decimal(n as nat),
{
    let mut s = string_of(prefix);
    push_decimal(&mut s, n as u64);
    s
}

/// A reference to the rule named `name`.
fn reference_to(name: &String) -> (s: Symbol)
    ensures
        s@ == reference(name@),
{
    Symbol::Identifier(Identifier { name: name.clone(), definition: None })
}

/// The rule generated for `origin` with one level of `alternatives`.
fn new_rule(name: String, origin: &Symbol, alternatives: Vec<Alternative>, layout: &LayoutStrategy) -> (r: SyntaxRule)
    ensures
        r@ == generated_rule(name@, origin@, alternatives_view(alternatives@), layout@),
{
    let level = PriorityLevel { alternatives, associativity: None };
    let levels = vec![level];
    let r = SyntaxRule {
        head: Nonterminal { name, origin: Some(origin.clone()), parameters: Vec::new() },
        priority_levels: levels,
        layout: clone_layout(layout),
    };
    assert(r@.head.parameters =~= Seq::<crate::grammar::symbols::SpecParameter>::empty());
    assert(levels_view(r.priority_levels@) =~= seq![level@]);
    r
}

/// The unlabeled alternative of `symbols`.
fn alternative_of(symbols: Vec<Symbol>) -> (a: Alternative)
    ensures
        a@ == plain_alternative(symbols_view(symbols@)),
{
    Alternative { symbols, label: None }
}

/// The list of one symbol.
fn one_symbol(a: Symbol) -> (r: Vec<Symbol>)
    ensures
        symbols_view(r@) == seq![a@],
{
    let mut r: Vec<Symbol> = Vec::new();
    proof { lemma_symbols_view_push(r@, a); }
    r.push(a);
    assert(symbols_view(Seq::<Symbol>::empty()) =~= Seq::<SpecSymbol>::empty());
    assert(symbols_view(r@) =~= seq![a@]);
    r
}

/// The list of two symbols.
fn two_symbols(a: Symbol, b: Symbol) -> (r: Vec<Symbol>)
    ensures
        symbols_view(r@) == seq![a@, b@],
{
    let mut r = one_symbol(a);
    proof { lemma_symbols_view_push(r@, b); }
    r.push(b);
    assert(symbols_view(r@) =~= seq![a@, b@]);
    r
}

/// The list of three symbols.
fn three_symbols(a: Symbol, b: Symbol, c: Symbol) -> (r: Vec<Symbol>)
    ensures
        symbols_view(r@) == seq![a@, b@, c@],
{
    let mut r = two_symbols(a, b);
    proof { lemma_symbols_view_push(r@, c); }
    r.push(c);
    assert(symbols_view(r@) =~= seq![a@, b@, c@]);
    r
}

/// The list of one alternative.
fn one_alternative(a: Alternative) -> (r: Vec<Alternative>)
    ensures
        alternatives_view(r@) == seq![a@],
{
    let r = vec![a];
    assert(alternatives_view(r@) =~= seq![a@]);
    r
}

/// The list of two alternatives.
fn two_alternatives(a: Alternative, b: Alternative) -> (r: Vec<Alternative>)
    ensures
        alternatives_view(r@) == seq![a@, b@],
{
    let r = vec![a, b];
    assert(alternatives_view(r@) =~= seq![a@, b@]);
    r
}

/// One unlabeled alternative per symbol.
fn single_symbol_alternatives(symbols: &Vec<Symbol>) -> (r: Vec<Alternative>)
    ensures
        alternatives_view(r@) == symbols_view(symbols@).map_values(|x: SpecSymbol| plain_alternative(seq![x])),
{
    proof { lemma_symbols_view(symbols@); }
    let mut out: Vec<Alternative> = Vec::new();
    let mut i: usize = 0;
    while i < symbols.len()
        invariant
            0 <= i <= symbols@.len(),
            symbols_view(symbols@).len() == symbols@.len(),
            forall|k: int| 0 <= k < symbols@.len() ==> #[trigger] symbols_view(symbols@)[k] == symbols@[k]@,
            alternatives_view(out@) == symbols_view(symbols@).take(i as int).map_values(|x: SpecSymbol| plain_alternative(seq![x])),
        decreases symbols@.len() - i,
    {
        let a = alternative_of(one_symbol(symbols[i].clone()));
        let ghost prev = out@;
        out.push(a);
        proof {
            assert(alternatives_view(out@) =~= alternatives_view(prev).push(a@));
            assert(a@ == plain_alternative(seq![symbols@[i as int]@]));
            assert(symbols_view(symbols@).take(i + 1).map_values(|x: SpecSymbol| plain_alternative(seq![x]))
                =~= symbols_view(symbols@).take(i as int).map_values(|x: SpecSymbol| plain_alternative(seq![x])).push(plain_alternative(seq![symbols@[i as int]@])));
        }
        i += 1;
    }
    assert(symbols_view(symbols@).take(i as int) =~= symbols_view(symbols@));
    out
}

impl Rewriter {
    /// Adds a generated rule.
    fn push_rule(&mut self, rule: SyntaxRule)
        ensures
            final(self)@ == with_rule(old(self)@, rule@),
    {
        let ghost r = rule@;
        self.new_rules.push(rule);
        assert(syntax_rules_view(self.new_rules@) =~= syntax_rules_view(old(self).new_rules@).push(r));
    }

    /// Records the replacement of `symbol` under `layout`.
    fn remember(&mut self, symbol: &Symbol, layout: &LayoutStrategy, replacement: &Symbol)
        ensures
            final(self)@ == with_memo(old(self)@, symbol@, layout@, replacement@),
    {
        self.memo.push((symbol.clone(), clone_layout(layout), replacement.clone()));
        assert(memo_view(self.memo@) =~= memo_view(old(self).memo@).push((symbol@, layout@, replacement@)));
    }

    /// Rewrites `symbols`, left to right; see `ebnf_rewrite_list`.
    #[verifier::loop_isolation(false)]
    fn rewrite_list(&mut self, symbols: &Vec<Symbol>, layout: &LayoutStrategy) -> (r: Vec<Symbol>)
        requires
            counters_fit(ebnf_rewrite_list(symbols_view(symbols@), layout@, old(self)@).1),
        ensures
            (symbols_view(r@), final(self)@) == ebnf_rewrite_list(symbols_view(symbols@), layout@, old(self)@),
        decreases ebnf_weights(symbols_view(symbols@)), 3int,
    {
        proof { lemma_symbols_view(symbols@); }
        let ghost sv = symbols_view(symbols@);
        let ghost st0 = self@;
        let mut out: Vec<Symbol> = Vec::new();
        let mut i: usize = 0;
        while i < symbols.len()
            invariant
                0 <= i <= symbols@.len(),
                sv == symbols_view(symbols@),
                sv.len() == symbols@.len(),
                forall|k: int| 0 <= k < symbols@.len() ==> #[trigger] sv[k] == symbols@[k]@,
                counters_fit(ebnf_rewrite_list(sv, layout@, st0).1),
                (symbols_view(out@), self@) == ebnf_rewrite_list(sv.take(i as int), layout@, st0),
            decreases symbols@.len() - i,
        {
            proof {
                let t = sv.take(i + 1);
                assert(t.drop_last() =~= sv.take(i as int));
                assert(t.last() == sv[i as int]);
                lemma_rewrite_list_prefix(sv, layout@, st0, i + 1);
                lemma_weight_in_list(sv, i as int);
            }
            let x = self.rewrite(&symbols[i], layout);
            proof { lemma_symbols_view_push(out@, x); }
            out.push(x);
            i += 1;
        }
        assert(sv.take(i as int) =~= sv);
        out
    }
}

impl Rewriter {
    /// The replacement recorded for `symbol` under `layout`, the latest one.
    fn lookup(&self, symbol: &Symbol, layout: &LayoutStrategy) -> (r: Option<Symbol>)
        ensures
            match r {
                Some(found) => memo_lookup(self@.memo, symbol@, layout@) == Some(found@),
                None => memo_lookup(self@.memo, symbol@, layout@) is None,
            },
    {
        let ghost views = memo_view(self.memo@);
        let mut i: usize = self.memo.len();
        assert(views.take(i as int) =~= views);
        while i > 0
            invariant
                0 <= i <= self.memo@.len(),
                views == memo_view(self.memo@),
                memo_lookup(views, symbol@, layout@) == memo_lookup(views.take(i as int), symbol@, layout@),
            decreases i,
        {
            let entry = &self.memo[i - 1];
            proof {
                let t = views.take(i as int);
                assert(t.drop_last() =~= views.take(i - 1));
                assert(t.last() == (entry.0@, entry.1@, entry.2@));
            }
            if symbol_eq(&entry.0, symbol) && layout_eq(&entry.1, layout) {
                return Some(entry.2.clone());
            }
            i -= 1;
        }
        None
    }

    /// Rewrites `symbol`; see `ebnf_rewrite`.
    fn rewrite(&mut self, symbol: &Symbol, layout: &LayoutStrategy) -> (r: Symbol)
        requires
            counters_fit(ebnf_rewrite(symbol@, layout@, old(self)@).1),
        ensures
            (r@, final(self)@) == ebnf_rewrite(symbol@, layout@, old(self)@),
        decreases ebnf_weight(symbol@), 2int,
    {
        if let Some(found) = self.lookup(symbol, layout) {
            return found;
        }
        let res = self.rewrite_fresh(symbol, layout);
        self.remember(symbol, layout, &res);
        res
    }

    /// Rewrites a symbol not rewritten before; see `ebnf_rewrite_fresh`.
    fn rewrite_fresh(&mut self, symbol: &Symbol, layout: &LayoutStrategy) -> (r: Symbol)
        requires
            counters_fit(ebnf_rewrite_fresh(symbol@, layout@, old(self)@).1),
        ensures
            (r@, final(self)@) == ebnf_rewrite_fresh(symbol@, layout@, old(self)@),
        decreases ebnf_weight(symbol@), 1int,
    {
        let ghost st = self@;
        match symbol {
            Symbol::Labeled { label, symbol: inner } => {
                let x = self.rewrite(&**inner, layout);
                Symbol::Labeled { label: label.clone(), symbol: Box::new(x) }
            },
            Symbol::Binding { pattern, symbol: inner } => {
                let x = self.rewrite(&**inner, layout);
                Symbol::Binding { pattern: pattern.clone(), symbol: Box::new(x) }
            },
            Symbol::Restricted { symbol: inner, restrictions } => {
                let x = self.rewrite(&**inner, layout);
                Symbol::Restricted { symbol: Box::new(x), restrictions: restrictions.clone() }
            },
            Symbol::Exclude { symbol: inner, labels } => {
                let x = self.rewrite(&**inner, layout);
                Symbol::Exclude { symbol: Box::new(x), labels: clone_strings(labels) }
            },
            Symbol::Group(symbols) => {
                proof {
                    lemma_rewrite_list_monotone(symbols_view(symbols@), layout@, EbnfState { group: st.group + 1, ..st });
                }
                let name = numbered("Group_", self.group);
                self.group = self.group + 1;
                let xs = self.rewrite_list(symbols, layout);
                let rule = new_rule(name.clone(), symbol, one_alternative(alternative_of(xs)), layout);
                self.push_rule(rule);
                reference_to(&name)
            },
            Symbol::Opt(inner) => {
                proof {
                    lemma_rewrite_monotone((**inner)@, layout@, EbnfState { opt: st.opt + 1, ..st });
                }
                let name = numbered("Opt_", self.opt);
                self.opt = self.opt + 1;
                let x = self.rewrite(&**inner, layout);
                let rule = new_rule(name.clone(), symbol, two_alternatives(alternative_of(one_symbol(x)), alternative_of(Vec::new())), layout);
                self.push_rule(rule);
                reference_to(&name)
            },
            Symbol::Alt(symbols) => {
                proof {
                    lemma_rewrite_list_monotone(symbols_view(symbols@), layout@, EbnfState { alt: st.alt + 1, ..st });
                }
                let name = numbered("Alt_", self.alt);
                self.alt = self.alt + 1;
                let xs = self.rewrite_list(symbols, layout);
                let alternatives = single_symbol_alternatives(&xs);
                let rule = new_rule(name.clone(), symbol, alternatives, layout);
                self.push_rule(rule);
                reference_to(&name)
            },
            Symbol::Star(inner, sep) => self.rewrite_star(symbol, &**inner, sep, layout),
            Symbol::Plus(inner, sep) => self.rewrite_plus(symbol, &**inner, sep, layout),
            _ => symbol.clone(),
        }
    }

    /// Rewrites `A*` (with an optional separator) as `Star_n = (A+)?`.
    fn rewrite_star(&mut self, symbol: &Symbol, inner: &Symbol, sep: &Option<Box<Symbol>>, layout: &LayoutStrategy) -> (r: Symbol)
        requires
            *symbol == Symbol::Star(Box::new(*inner), *sep),
            counters_fit(ebnf_rewrite_fresh(symbol@, layout@, old(self)@).1),
        ensures
            (r@, final(self)@) == ebnf_rewrite_fresh(symbol@, layout@, old(self)@),
        decreases ebnf_weight(symbol@), 0int,
    {
        let plus = Symbol::Plus(
            Box::new(inner.clone()),
            match sep {
                Some(sep) => Some(Box::new((**sep).clone())),
                None => None,
            },
        );
        proof {
            let sv = symbol@;
            if let SpecSymbol::Star(i, p) = sv {
                assert(plus@ == SpecSymbol::Plus(i, p));
                assert(ebnf_weight(SpecSymbol::Plus(i, p)) < ebnf_weight(sv) - 1);
            }
        }
        let list = Symbol::Opt(Box::new(plus));
        let x = self.rewrite(&list, layout);
        let name = numbered("Star_", self.star);
        self.star = self.star + 1;
        let rule = new_rule(name.clone(), symbol, one_alternative(alternative_of(one_symbol(x))), layout);
        self.push_rule(rule);
        reference_to(&name)
    }

    /// Rewrites `A+` (with an optional separator `s`) as the left-recursive
    /// `Plus_n = Plus_n A | A` (`Plus_n = Plus_n s A | A`).
    fn rewrite_plus(&mut self, symbol: &Symbol, inner: &Symbol, sep: &Option<Box<Symbol>>, layout: &LayoutStrategy) -> (r: Symbol)
        requires
            *symbol == Symbol::Plus(Box::new(*inner), *sep),
            counters_fit(ebnf_rewrite_fresh(symbol@, layout@, old(self)@).1),
        ensures
            (r@, final(self)@) == ebnf_rewrite_fresh(symbol@, layout@, old(self)@),
        decreases ebnf_weight(symbol@), 0int,
    {
        let ghost st = self@;
        let ghost st1 = EbnfState { plus: st.plus + 1, ..st };
        proof {
            lemma_rewrite_monotone(inner@, layout@, st1);
            if let Some(sep) = sep {
                lemma_rewrite_monotone((**sep)@, layout@, ebnf_rewrite(inner@, layout@, st1).1);
            }
        }
        let name = numbered("Plus_", self.plus);
        self.plus = self.plus + 1;
        let x = self.rewrite(inner, layout);
        let alternatives = match sep {
            Some(sep) => {
                let y = self.rewrite(&**sep, layout);
                two_alternatives(
                    alternative_of(three_symbols(reference_to(&name), y, x.clone())),
                    alternative_of(one_symbol(x)),
                )
            },
            None => two_alternatives(
                alternative_of(two_symbols(reference_to(&name), x.clone())),
                alternative_of(one_symbol(x)),
            ),
        };
        let rule = new_rule(name.clone(), symbol, alternatives, layout);
        self.push_rule(rule);
        reference_to(&name)
    }
}

impl Rewriter {
    /// Rewrites the symbols of `alts`; see `ebnf_rewrite_alternatives`.
    fn rewrite_alternatives(&mut self, alts: &Vec<Alternative>, layout: &LayoutStrategy) -> (r: Vec<Alternative>)
        requires
            counters_fit(ebnf_rewrite_alternatives(alternatives_view(alts@), layout@, old(self)@).1),
        ensures
            (alternatives_view(r@), final(self)@) == ebnf_rewrite_alternatives(alternatives_view(alts@), layout@, old(self)@),
    {
        let ghost av = alternatives_view(alts@);
        let ghost st0 = self@;
        let mut out: Vec<Alternative> = Vec::new();
        let mut i: usize = 0;
        while i < alts.len()
            invariant
                0 <= i <= alts@.len(),
                av == alternatives_view(alts@),
                counters_fit(ebnf_rewrite_alternatives(av, layout@, st0).1),
                (alternatives_view(out@), self@) == ebnf_rewrite_alternatives(av.take(i as int), layout@, st0),
            decreases alts@.len() - i,
        {
            let alternative = &alts[i];
            proof {
                let t = av.take(i + 1);
                assert(t.drop_last() =~= av.take(i as int));
                assert(t.last() == alternative@);
                lemma_alternatives_monotone(av, layout@, st0, i + 1);
            }
            let symbols = self.rewrite_list(&alternative.symbols, layout);
            let label = match &alternative.label {
                Some(l) => Some(l.clone()),
                None => None,
            };
            let ghost prev = out@;
            out.push(Alternative { symbols, label });
            assert(alternatives_view(out@) =~= alternatives_view(prev).push(out@.last()@));
            i += 1;
        }
        assert(av.take(i as int) =~= av);
        out
    }

    /// Rewrites the symbols of `levels`; see `ebnf_rewrite_levels`.
    fn rewrite_levels(&mut self, levels: &Vec<PriorityLevel>, layout: &LayoutStrategy) -> (r: Vec<PriorityLevel>)
        requires
            counters_fit(ebnf_rewrite_levels(levels_view(levels@), layout@, old(self)@).1),
        ensures
            (levels_view(r@), final(self)@) == ebnf_rewrite_levels(levels_view(levels@), layout@, old(self)@),
    {
        let ghost lv = levels_view(levels@);
        let ghost st0 = self@;
        let mut out: Vec<PriorityLevel> = Vec::new();
        let mut i: usize = 0;
        while i < levels.len()
            invariant
                0 <= i <= levels@.len(),
                lv == levels_view(levels@),
                counters_fit(ebnf_rewrite_levels(lv, layout@, st0).1),
                (levels_view(out@), self@) == ebnf_rewrite_levels(lv.take(i as int), layout@, st0),
            decreases levels@.len() - i,
        {
            let level = &levels[i];
            proof {
                let t = lv.take(i + 1);
                assert(t.drop_last() =~= lv.take(i as int));
                assert(t.last() == level@);
                lemma_levels_monotone(lv, layout@, st0, i + 1);
            }
            let alternatives = self.rewrite_alternatives(&level.alternatives, layout);
            let ghost prev = out@;
            out.push(PriorityLevel { alternatives, associativity: level.associativity });
            assert(levels_view(out@) =~= levels_view(prev).push(out@.last()@));
            i += 1;
        }
        assert(lv.take(i as int) =~= lv);
        out
    }
}

/// The BNF form of `syntax_rules`: each EBNF symbol of their alternatives
/// becomes a reference to a generated rule, and the generated rules follow
/// the rewritten ones; see `ebnf_to_bnf`. The numbering of the generated
/// rules of each kind must fit 16 bits.
pub fn transform(syntax_rules: Vec<SyntaxRule>) -> (r: Vec<SyntaxRule>)
    requires
        ebnf_numbering_fits(syntax_rules_view(syntax_rules@)),
    ensures
        syntax_rules_view(r@) == ebnf_to_bnf(syntax_rules_view(syntax_rules@)),
{
    let ghost rv = syntax_rules_view(syntax_rules@);
    let mut rewriter = Rewriter { group: 0, opt: 0, alt: 0, star: 0, plus: 0, new_rules: Vec::new(), memo: Vec::new() };
    assert(rewriter@ =~= ebnf_initial()) by {
        assert(syntax_rules_view(rewriter.new_rules@) =~= Seq::<SpecSyntaxRule>::empty());
        assert(memo_view(rewriter.memo@) =~= Seq::<(SpecSymbol, SpecLayoutStrategy, SpecSymbol)>::empty());
    }
    let mut out: Vec<SyntaxRule> = Vec::new();
    let mut i: usize = 0;
    while i < syntax_rules.len()
        invariant
            0 <= i <= syntax_rules@.len(),
            rv == syntax_rules_view(syntax_rules@),
            counters_fit(ebnf_rewrite_rules(rv, ebnf_initial()).1),
            (syntax_rules_view(out@), rewriter@) == ebnf_rewrite_rules(rv.take(i as int), ebnf_initial()),
        decreases syntax_rules@.len() - i,
    {
        let rule = &syntax_rules[i];
        proof {
            let t = rv.take(i + 1);
            assert(t.drop_last() =~= rv.take(i as int));
            assert(t.last() == rule@);
            lemma_rules_monotone(rv, ebnf_initial(), i + 1);
        }
        let levels = rewriter.rewrite_levels(&rule.priority_levels, &rule.layout);
        let rewritten = SyntaxRule { head: rule.head.clone(), priority_levels: levels, layout: clone_layout(&rule.layout) };
        let ghost prev = out@;
        out.push(rewritten);
        assert(syntax_rules_view(out@) =~= syntax_rules_view(prev).push(out@.last()@));
        i += 1;
    }
    assert(rv.take(i as int) =~= rv);
    let ghost rewritten = syntax_rules_view(out@);
    let ghost generated = syntax_rules_view(rewriter.new_rules@);
    let mut generated_rules = rewriter.new_rules;
    out.append(&mut generated_rules);
    assert(syntax_rules_view(out@) =~= rewritten + generated);
    out
}

// ---------------------------------------------------------------------------
// Generated rules take the layout of the rule they were generated for.

/// From `a` to `b`, rules were only appended, each with strategy `layout`.
pub open spec fn appended_with_layout(a: EbnfState, b: EbnfState, layout: SpecLayoutStrategy) -> bool {
    &&& a.new_rules.len() <= b.new_rules.len()
    &&& b.new_rules.take(a.new_rules.len() as int) == a.new_rules
    &&& forall|k: int| a.new_rules.len() <= k < b.new_rules.len() ==> (#[trigger] b.new_rules[k]).layout == layout
}

proof fn lemma_appended_trans(a: EbnfState, b: EbnfState, c: EbnfState, layout: SpecLayoutStrategy)
    requires
        appended_with_layout(a, b, layout),
        appended_with_layout(b, c, layout),
    ensures
        appended_with_layout(a, c, layout),
{
    assert(c.new_rules.take(a.new_rules.len() as int) =~= c.new_rules.take(b.new_rules.len() as int).take(a.new_rules.len() as int));
    assert forall|k: int| a.new_rules.len() <= k < c.new_rules.len() implies (#[trigger] c.new_rules[k]).layout == layout by {
        if k < b.new_rules.len() {
            assert(c.new_rules.take(b.new_rules.len() as int)[k] == c.new_rules[k]);
            assert(b.new_rules[k] == c.new_rules[k]);
        }
    }
}

proof fn lemma_appended_rule(a: EbnfState, b: EbnfState, layout: SpecLayoutStrategy, rule: SpecSyntaxRule)
    requires
        appended_with_layout(a, b, layout),
        rule.layout == layout,
    ensures
        appended_with_layout(a, with_rule(b, rule), layout),
{
    let c = with_rule(b, rule);
    assert(c.new_rules.take(a.new_rules.len() as int) =~= b.new_rules.take(a.new_rules.len() as int));
    assert forall|k: int| a.new_rules.len() <= k < c.new_rules.len() implies (#[trigger] c.new_rules[k]).layout == layout by {
        if k < b.new_rules.len() {
            assert(c.new_rules[k] == b.new_rules[k]);
        }
    }
}

proof fn lemma_appended_refl(a: EbnfState, b: EbnfState, layout: SpecLayoutStrategy)
    requires
        b.new_rules == a.new_rules,
    ensures
        appended_with_layout(a, b, layout),
{
    assert(b.new_rules.take(a.new_rules.len() as int) =~= a.new_rules);
}

proof fn lemma_rewrite_layout(s: SpecSymbol, layout: SpecLayoutStrategy, st: EbnfState)
    ensures
        appended_with_layout(st, ebnf_rewrite(s, layout, st).1, layout),
    decreases ebnf_weight(s), 1int,
{
    if memo_lookup(st.memo, s, layout) is None {
        lemma_rewrite_fresh_layout(s, layout, st);
        let (res, st1) = ebnf_rewrite_fresh(s, layout, st);
        lemma_appended_refl(st1, with_memo(st1, s, layout, res), layout);
        lemma_appended_trans(st, st1, with_memo(st1, s, layout, res), layout);
    } else {
        lemma_appended_refl(st, st, layout);
    }
}

proof fn lemma_rewrite_fresh_layout(s: SpecSymbol, layout: SpecLayoutStrategy, st: EbnfState)
    ensures
        appended_with_layout(st, ebnf_rewrite_fresh(s, layout, st).1, layout),
    decreases ebnf_weight(s), 0int,
{
    match s {
        SpecSymbol::Labeled { symbol, .. } => lemma_rewrite_layout(*symbol, layout, st),
        SpecSymbol::Binding { symbol, .. } => lemma_rewrite_layout(*symbol, layout, st),
        SpecSymbol::Restricted { symbol, .. } => lemma_rewrite_layout(*symbol, layout, st),
        SpecSymbol::Exclude { symbol, .. } => lemma_rewrite_layout(*symbol, layout, st),
        SpecSymbol::Group(symbols) => {
            let st1 = EbnfState { group: st.group + 1, ..st };
            lemma_appended_refl(st, st1, layout);
            lemma_rewrite_list_layout(symbols, layout, st1);
            let (xs, st2) = ebnf_rewrite_list(symbols, layout, st1);
            lemma_appended_trans(st, st1, st2, layout);
            lemma_appended_rule(st, st2, layout, generated_rule("Group_"@ + decimal(st.group), s, seq![plain_alternative(xs)], layout));
        },
        SpecSymbol::Opt(inner) => {
            let st1 = EbnfState { opt: st.opt + 1, ..st };
            lemma_appended_refl(st, st1, layout);
            lemma_rewrite_layout(*inner, layout, st1);
            let (x, st2) = ebnf_rewrite(*inner, layout, st1);
            lemma_appended_trans(st, st1, st2, layout);
            lemma_appended_rule(st, st2, layout, generated_rule("Opt_"@ + decimal(st.opt), s, seq![plain_alternative(seq![x]), plain_alternative(Seq::empty())], layout));
        },
        SpecSymbol::Alt(symbols) => {
            let st1 = EbnfState { alt: st.alt + 1, ..st };
            lemma_appended_refl(st, st1, layout);
            lemma_rewrite_list_layout(symbols, layout, st1);
            let (xs, st2) = ebnf_rewrite_list(symbols, layout, st1);
            lemma_appended_trans(st, st1, st2, layout);
            lemma_appended_rule(st, st2, layout, generated_rule("Alt_"@ + decimal(st.alt), s, xs.map_values(|x: SpecSymbol| plain_alternative(seq![x])), layout));
        },
        SpecSymbol::Star(inner, sep) => {
            let list = SpecSymbol::Opt(Box::new(SpecSymbol::Plus(inner, sep)));
            assert(ebnf_weight(SpecSymbol::Plus(inner, sep)) < ebnf_weight(s) - 1);
            lemma_rewrite_layout(list, layout, st);
            let (x, st1) = ebnf_rewrite(list, layout, st);
            let st2 = EbnfState { star: st1.star + 1, ..st1 };
            lemma_appended_refl(st1, st2, layout);
            lemma_appended_trans(st, st1, st2, layout);
            lemma_appended_rule(st, st2, layout, generated_rule("Star_"@ + decimal(st1.star), s, seq![plain_alternative(seq![x])], layout));
        },
        SpecSymbol::Plus(inner, sep) => {
            let st1 = EbnfState { plus: st.plus + 1, ..st };
            let name = "Plus_"@ + decimal(st.plus);
            lemma_appended_refl(st, st1, layout);
            lemma_rewrite_layout(*inner, layout, st1);
            let (x, st2) = ebnf_rewrite(*inner, layout, st1);
            lemma_appended_trans(st, st1, st2, layout);
            match sep {
                Some(sep) => {
                    lemma_rewrite_layout(*sep, layout, st2);
                    let (y, st3) = ebnf_rewrite(*sep, layout, st2);
                    lemma_appended_trans(st, st2, st3, layout);
                    lemma_appended_rule(st, st3, layout, generated_rule(name, s, seq![plain_alternative(seq![reference(name), y, x]), plain_alternative(seq![x])], layout));
                },
                None => {
                    lemma_appended_rule(st, st2, layout, generated_rule(name, s, seq![plain_alternative(seq![reference(name), x]), plain_alternative(seq![x])], layout));
                },
            }
        },
        _ => {
            lemma_appended_refl(st, st, layout);
        },
    }
}

proof fn lemma_rewrite_list_layout(symbols: Seq<SpecSymbol>, layout: SpecLayoutStrategy, st: EbnfState)
    ensures
        appended_with_layout(st, ebnf_rewrite_list(symbols, layout, st).1, layout),
    decreases ebnf_weights(symbols), 2int,
{
    if symbols.len() > 0 {
        assert(ebnf_weight(symbols.last()) >= 1);
        lemma_rewrite_list_layout(symbols.drop_last(), layout, st);
        let st1 = ebnf_rewrite_list(symbols.drop_last(), layout, st).1;
        lemma_rewrite_layout(symbols.last(), layout, st1);
        lemma_appended_trans(st, st1, ebnf_rewrite(symbols.last(), layout, st1).1, layout);
    } else {
        lemma_appended_refl(st, st, layout);
    }
}

proof fn lemma_alternatives_layout(alts: Seq<SpecAlternative>, layout: SpecLayoutStrategy, st: EbnfState)
    ensures
        appended_with_layout(st, ebnf_rewrite_alternatives(alts, layout, st).1, layout),
    decreases alts.len(),
{
    if alts.len() > 0 {
        lemma_alternatives_layout(alts.drop_last(), layout, st);
        let st1 = ebnf_rewrite_alternatives(alts.drop_last(), layout, st).1;
        lemma_rewrite_list_layout(alts.last().symbols, layout, st1);
        lemma_appended_trans(st, st1, ebnf_rewrite_list(alts.last().symbols, layout, st1).1, layout);
    } else {
        lemma_appended_refl(st, st, layout);
    }
}

proof fn lemma_levels_layout(levels: Seq<SpecPriorityLevel>, layout: SpecLayoutStrategy, st: EbnfState)
    ensures
        appended_with_layout(st, ebnf_rewrite_levels(levels, layout, st).1, layout),
    decreases levels.len(),
{
    if levels.len() > 0 {
        lemma_levels_layout(levels.drop_last(), layout, st);
        let st1 = ebnf_rewrite_levels(levels.drop_last(), layout, st).1;
        lemma_alternatives_layout(levels.last().alternatives, layout, st1);
        lemma_appended_trans(st, st1, ebnf_rewrite_alternatives(levels.last().alternatives, layout, st1).1, layout);
    } else {
        lemma_appended_refl(st, st, layout);
    }
}

/// Rewriting a rule appends generated rules only, each with the rule's own
/// layout strategy: a rule generated for a symbol of a `@NoLayout` rule is
/// `@NoLayout` too.
pub proof fn generated_rules_take_the_rule_layout(r: SpecSyntaxRule, st: EbnfState)
    ensures
        ebnf_rewrite_rule(r, st).1.new_rules.len() >= st.new_rules.len(),
        ebnf_rewrite_rule(r, st).1.new_rules.take(st.new_rules.len() as int) == st.new_rules,
        forall|k: int| st.new_rules.len() <= k < ebnf_rewrite_rule(r, st).1.new_rules.len()
            ==> (#[trigger] ebnf_rewrite_rule(r, st).1.new_rules[k]).layout == r.layout,
{
    lemma_levels_layout(r.priority_levels, r.layout, st);
}

/// Every rule of the BNF grammar has the layout strategy of some rule of
/// the input: the rewritten rules keep theirs, and each generated rule has
/// the one of the rule it was generated for.
pub proof fn bnf_layouts_come_from_the_input(rules: Seq<SpecSyntaxRule>)
    ensures
        forall|k: int| 0 <= k < ebnf_to_bnf(rules).len() ==> exists|i: int| 0 <= i < rules.len()
            && rules[i].layout == (#[trigger] ebnf_to_bnf(rules)[k]).layout,
{
    lemma_rules_layouts(rules, ebnf_initial());
    let (rewritten, st) = ebnf_rewrite_rules(rules, ebnf_initial());
    let all = rewritten + st.new_rules;
    assert forall|k: int| 0 <= k < all.len() implies exists|i: int| 0 <= i < rules.len()
        && rules[i].layout == (#[trigger] all[k]).layout by {
        if k < rewritten.len() {
            assert(all[k] == rewritten[k]);
            assert(rules[k].layout == rewritten[k].layout);
        } else {
            assert(all[k] == st.new_rules[k - rewritten.len()]);
        }
    }
}

proof fn lemma_rules_layouts(rules: Seq<SpecSyntaxRule>, st: EbnfState)
    requires
        st.new_rules.len() == 0,
    ensures
        ebnf_rewrite_rules(rules, st).0.len() == rules.len(),
        forall|k: int| 0 <= k < rules.len() ==> (#[trigger] ebnf_rewrite_rules(rules, st).0[k]).layout == rules[k].layout,
        forall|k: int| 0 <= k < ebnf_rewrite_rules(rules, st).1.new_rules.len() ==> exists|i: int| 0 <= i < rules.len()
            && rules[i].layout == (#[trigger] ebnf_rewrite_rules(rules, st).1.new_rules[k]).layout,
    decreases rules.len(),
{
    if rules.len() > 0 {
        let init = rules.drop_last();
        lemma_rules_layouts(init, st);
        let (prefix, st1) = ebnf_rewrite_rules(init, st);
        generated_rules_take_the_rule_layout(rules.last(), st1);
        let (r, st2) = ebnf_rewrite_rule(rules.last(), st1);
        assert forall|k: int| 0 <= k < rules.len() implies (#[trigger] ebnf_rewrite_rules(rules, st).0[k]).layout == rules[k].layout by {
            if k < init.len() {
                assert(ebnf_rewrite_rules(rules, st).0[k] == prefix[k]);
                assert(init[k] == rules[k]);
            }
        }
        assert forall|k: int| 0 <= k < st2.new_rules.len() implies exists|i: int| 0 <= i < rules.len()
            && rules[i].layout == (#[trigger] st2.new_rules[k]).layout by {
            if k < st1.new_rules.len() {
                assert(st2.new_rules.take(st1.new_rules.len() as int)[k] == st2.new_rules[k]);
                assert(st1.new_rules[k] == st2.new_rules[k]);
                let i = choose|i: int| 0 <= i < init.len() && init[i].layout == (#[trigger] st1.new_rules[k]).layout;
                assert(rules[i] == init[i]);
            } else {
                assert(rules[rules.len() - 1].layout == st2.new_rules[k].layout);
            }
        }
    }
}

} // verus!
