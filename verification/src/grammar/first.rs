//! The terminals that can begin what a rule derives.
use vstd::prelude::*;
use crate::grammar::def::{
    lexical_rules_view, rule_alternatives, syntax_rules_view, Alternative, LexicalRule,
    SpecLexicalRule, SpecSyntaxRule, SyntaxRule,
};
use crate::grammar::reachability::{lemma_marked_bound, marked};
use crate::grammar::nullable::{
    inlined_lexical, marked_set, names_a_rule, names_a_rule_exec, symbol_is_nullable, symbol_nullable,
};
use crate::grammar::symbols::{lemma_symbols_view, symbols_view, SpecSymbol, Symbol};
use crate::text::str_eq;

verus! {

broadcast use vstd::std_specs::vec::axiom_vec_index_decreases;

// ---------------------------------------------------------------------------
// FIRST sets under given sets of the rules

/// The rules with the head `name`.
pub open spec fn rules_named(rules: Seq<SpecSyntaxRule>, name: Seq<char>) -> Set<int> {
    Set::new(|i: int| 0 <= i < rules.len() && rules[i].head.name == name)
}

/// The lexical rules with the head `name`: a terminal is given by the
/// indices of its lexical rules.
pub open spec fn terminals_named(lexical: Seq<SpecLexicalRule>, name: Seq<char>) -> Set<int> {
    Set::new(|k: int| 0 <= k < lexical.len() && lexical[k].head.name == name)
}

/// The terminals in the sets `f` of the rules named `name`.
pub open spec fn first_of_rules(rules: Seq<SpecSyntaxRule>, f: Seq<Set<int>>, name: Seq<char>) -> Set<int> {
    Set::new(|t: int| exists|i: int| #[trigger] rules_named(rules, name).contains(i) && f[i].contains(t))
}

/// The terminals of a reference: those of the rules it names, where it
/// names a rule; else the terminal it names.
pub open spec fn reference_first(rules: Seq<SpecSyntaxRule>, lexical: Seq<SpecLexicalRule>, f: Seq<Set<int>>, name: Seq<char>) -> Set<int> {
    if names_a_rule(rules, name) {
        first_of_rules(rules, f, name)
    } else {
        terminals_named(lexical, name)
    }
}

/// The terminals that can begin a symbol, given the sets `f` of the rules
/// and the nullable rules `nl`: a reference's (a call's alike); the
/// terminal named by a literal; the first terminals of a group's symbols up
/// to the first that does not derive the empty string; those of every
/// choice; those of the symbol of the other forms; none for a condition or
/// a return.
pub open spec fn symbol_first(rules: Seq<SpecSyntaxRule>, lexical: Seq<SpecLexicalRule>, nl: Set<int>, f: Seq<Set<int>>, s: SpecSymbol) -> Set<int>
    decreases s, 1int, 0int,
{
    match s {
        SpecSymbol::Identifier(id) => reference_first(rules, lexical, f, id.name),
        SpecSymbol::Call { name, .. } => reference_first(rules, lexical, f, name.name),
        SpecSymbol::Literal(text) => terminals_named(lexical, text),
        SpecSymbol::Group(symbols) => sequence_first(rules, lexical, nl, f, symbols, 0),
        SpecSymbol::Alt(symbols) => choices_first(rules, lexical, nl, f, symbols, 0),
        SpecSymbol::Opt(inner) => symbol_first(rules, lexical, nl, f, *inner),
        SpecSymbol::Star(inner, _) => symbol_first(rules, lexical, nl, f, *inner),
        SpecSymbol::Plus(inner, _) => symbol_first(rules, lexical, nl, f, *inner),
        SpecSymbol::Labeled { symbol, .. } => symbol_first(rules, lexical, nl, f, *symbol),
        SpecSymbol::Binding { symbol, .. } => symbol_first(rules, lexical, nl, f, *symbol),
        SpecSymbol::Restricted { symbol, .. } => symbol_first(rules, lexical, nl, f, *symbol),
        SpecSymbol::Exclude { symbol, .. } => symbol_first(rules, lexical, nl, f, *symbol),
        _ => Set::empty(),
    }
}

/// The first terminals of `symbols` from index `i`: those of each symbol,
/// left to right, up to and with the first that does not derive the empty
/// string.
pub open spec fn sequence_first(rules: Seq<SpecSyntaxRule>, lexical: Seq<SpecLexicalRule>, nl: Set<int>, f: Seq<Set<int>>, symbols: Seq<SpecSymbol>, i: int) -> Set<int>
    decreases symbols, 0int, symbols.len() - i,
{
    if 0 <= i < symbols.len() {
        symbol_first(rules, lexical, nl, f, symbols[i]) + if symbol_nullable(rules, lexical, nl, symbols[i]) {
            sequence_first(rules, lexical, nl, f, symbols, i + 1)
        } else {
            Set::empty()
        }
    } else {
        Set::empty()
    }
}

/// The first terminals of every symbol of `symbols` from index `i`.
pub open spec fn choices_first(rules: Seq<SpecSyntaxRule>, lexical: Seq<SpecLexicalRule>, nl: Set<int>, f: Seq<Set<int>>, symbols: Seq<SpecSymbol>, i: int) -> Set<int>
    decreases symbols, 0int, symbols.len() - i,
{
    if 0 <= i < symbols.len() {
        symbol_first(rules, lexical, nl, f, symbols[i]) + choices_first(rules, lexical, nl, f, symbols, i + 1)
    } else {
        Set::empty()
    }
}

/// The first terminals of the alternatives of rule `i`.
pub open spec fn rule_first_under(rules: Seq<SpecSyntaxRule>, lexical: Seq<SpecLexicalRule>, nl: Set<int>, f: Seq<Set<int>>, i: int) -> Set<int> {
    let alts = rule_alternatives(rules[i].priority_levels);
    Set::new(|t: int| exists|a: int| 0 <= a < alts.len()
        && #[trigger] sequence_first(rules, lexical, nl, f, alts[a].symbols, 0).contains(t))
}

/// The sets after `k` rounds, every rule's from the sets of the round
/// before.
pub open spec fn first_within(rules: Seq<SpecSyntaxRule>, lexical: Seq<SpecLexicalRule>, nl: Set<int>, k: nat) -> Seq<Set<int>>
    decreases k,
{
    if k == 0 {
        Seq::new(rules.len(), |i: int| Set::empty())
    } else {
        let prev = first_within(rules, lexical, nl, (k - 1) as nat);
        Seq::new(rules.len(), |i: int| rule_first_under(rules, lexical, nl, prev, i))
    }
}

/// Whether terminal `t` can begin what rule `i` derives, the nullable rules
/// being `nl`.
pub open spec fn in_first(rules: Seq<SpecSyntaxRule>, lexical: Seq<SpecLexicalRule>, nl: Set<int>, i: int, t: int) -> bool {
    exists|k: nat| #[trigger] first_within(rules, lexical, nl, k)[i].contains(t)
}

/// Whether every set of `f1` is within the one of `f2`.
pub open spec fn within(f1: Seq<Set<int>>, f2: Seq<Set<int>>) -> bool {
    &&& f1.len() == f2.len()
    &&& forall|i: int| 0 <= i < f1.len() ==> (#[trigger] f1[i]).subset_of(f2[i])
}

proof fn lemma_symbol_first_monotone(rules: Seq<SpecSyntaxRule>, lexical: Seq<SpecLexicalRule>, nl: Set<int>, f1: Seq<Set<int>>, f2: Seq<Set<int>>, s: SpecSymbol)
    requires
        within(f1, f2),
        f1.len() == rules.len(),
    ensures
        symbol_first(rules, lexical, nl, f1, s).subset_of(symbol_first(rules, lexical, nl, f2, s)),
    decreases s, 1int, 0int,
{
    match s {
        SpecSymbol::Identifier(id) => lemma_reference_monotone(rules, lexical, f1, f2, id.name),
        SpecSymbol::Call { name, .. } => lemma_reference_monotone(rules, lexical, f1, f2, name.name),
        SpecSymbol::Group(symbols) => lemma_sequence_first_monotone(rules, lexical, nl, f1, f2, symbols, 0),
        SpecSymbol::Alt(symbols) => lemma_choices_first_monotone(rules, lexical, nl, f1, f2, symbols, 0),
        SpecSymbol::Opt(inner) => lemma_symbol_first_monotone(rules, lexical, nl, f1, f2, *inner),
        SpecSymbol::Star(inner, _) => lemma_symbol_first_monotone(rules, lexical, nl, f1, f2, *inner),
        SpecSymbol::Plus(inner, _) => lemma_symbol_first_monotone(rules, lexical, nl, f1, f2, *inner),
        SpecSymbol::Labeled { symbol, .. } => lemma_symbol_first_monotone(rules, lexical, nl, f1, f2, *symbol),
        SpecSymbol::Binding { symbol, .. } => lemma_symbol_first_monotone(rules, lexical, nl, f1, f2, *symbol),
        SpecSymbol::Restricted { symbol, .. } => lemma_symbol_first_monotone(rules, lexical, nl, f1, f2, *symbol),
        SpecSymbol::Exclude { symbol, .. } => lemma_symbol_first_monotone(rules, lexical, nl, f1, f2, *symbol),
        _ => {},
    }
}

proof fn lemma_reference_monotone(rules: Seq<SpecSyntaxRule>, lexical: Seq<SpecLexicalRule>, f1: Seq<Set<int>>, f2: Seq<Set<int>>, name: Seq<char>)
    requires
        within(f1, f2),
        f1.len() == rules.len(),
    ensures
        reference_first(rules, lexical, f1, name).subset_of(reference_first(rules, lexical, f2, name)),
{
    if names_a_rule(rules, name) {
        assert forall|t: int| first_of_rules(rules, f1, name).contains(t) implies first_of_rules(rules, f2, name).contains(t) by {
            let i = choose|i: int| #[trigger] rules_named(rules, name).contains(i) && f1[i].contains(t);
            assert(f1[i].subset_of(f2[i]));
        }
    }
}

proof fn lemma_sequence_first_monotone(rules: Seq<SpecSyntaxRule>, lexical: Seq<SpecLexicalRule>, nl: Set<int>, f1: Seq<Set<int>>, f2: Seq<Set<int>>, symbols: Seq<SpecSymbol>, i: int)
    requires
        within(f1, f2),
        f1.len() == rules.len(),
    ensures
        sequence_first(rules, lexical, nl, f1, symbols, i).subset_of(sequence_first(rules, lexical, nl, f2, symbols, i)),
    decreases symbols, 0int, symbols.len() - i,
{
    if 0 <= i < symbols.len() {
        lemma_symbol_first_monotone(rules, lexical, nl, f1, f2, symbols[i]);
        lemma_sequence_first_monotone(rules, lexical, nl, f1, f2, symbols, i + 1);
    }
}

proof fn lemma_choices_first_monotone(rules: Seq<SpecSyntaxRule>, lexical: Seq<SpecLexicalRule>, nl: Set<int>, f1: Seq<Set<int>>, f2: Seq<Set<int>>, symbols: Seq<SpecSymbol>, i: int)
    requires
        within(f1, f2),
        f1.len() == rules.len(),
    ensures
        choices_first(rules, lexical, nl, f1, symbols, i).subset_of(choices_first(rules, lexical, nl, f2, symbols, i)),
    decreases symbols, 0int, symbols.len() - i,
{
    if 0 <= i < symbols.len() {
        lemma_symbol_first_monotone(rules, lexical, nl, f1, f2, symbols[i]);
        lemma_choices_first_monotone(rules, lexical, nl, f1, f2, symbols, i + 1);
    }
}

proof fn lemma_rule_first_monotone(rules: Seq<SpecSyntaxRule>, lexical: Seq<SpecLexicalRule>, nl: Set<int>, f1: Seq<Set<int>>, f2: Seq<Set<int>>, i: int)
    requires
        within(f1, f2),
        f1.len() == rules.len(),
    ensures
        rule_first_under(rules, lexical, nl, f1, i).subset_of(rule_first_under(rules, lexical, nl, f2, i)),
{
    let alts = rule_alternatives(rules[i].priority_levels);
    assert forall|t: int| rule_first_under(rules, lexical, nl, f1, i).contains(t)
        implies rule_first_under(rules, lexical, nl, f2, i).contains(t) by {
        let a = choose|a: int| 0 <= a < alts.len()
            && #[trigger] sequence_first(rules, lexical, nl, f1, alts[a].symbols, 0).contains(t);
        lemma_sequence_first_monotone(rules, lexical, nl, f1, f2, alts[a].symbols, 0);
        assert(sequence_first(rules, lexical, nl, f2, alts[a].symbols, 0).contains(t));
    }
}

proof fn lemma_first_within_grows(rules: Seq<SpecSyntaxRule>, lexical: Seq<SpecLexicalRule>, nl: Set<int>, k: nat)
    ensures
        within(first_within(rules, lexical, nl, k), first_within(rules, lexical, nl, k + 1)),
        first_within(rules, lexical, nl, k).len() == rules.len(),
    decreases k,
{
    if k > 0 {
        lemma_first_within_grows(rules, lexical, nl, (k - 1) as nat);
        let prev = first_within(rules, lexical, nl, (k - 1) as nat);
        let cur = first_within(rules, lexical, nl, k);
        assert forall|i: int| 0 <= i < rules.len() implies (#[trigger] first_within(rules, lexical, nl, k)[i]).subset_of(
            first_within(rules, lexical, nl, k + 1)[i]) by {
            lemma_rule_first_monotone(rules, lexical, nl, prev, cur, i);
        }
    } else {
        let next = first_within(rules, lexical, nl, 1);
        assert forall|i: int| 0 <= i < rules.len() implies (#[trigger] first_within(rules, lexical, nl, 0)[i]).subset_of(next[i]) by {
        }
    }
}

// ---------------------------------------------------------------------------
// Computing FIRST sets

/// The sets that rows of marks stand for.
pub open spec fn row_sets(f: Seq<Vec<bool>>) -> Seq<Set<int>> {
    f.map_values(|row: Vec<bool>| marked_set(row@))
}

/// Whether `f` has a row of `width` marks for each of `n` rules.
pub open spec fn table_shape(f: Seq<Vec<bool>>, n: int, width: int) -> bool {
    &&& f.len() == n
    &&& forall|i: int| 0 <= i < n ==> (#[trigger] f[i])@.len() == width
}

fn mark_all(acc: &mut Vec<bool>, src: &Vec<bool>)
    requires
        old(acc)@.len() == src@.len(),
    ensures
        final(acc)@.len() == old(acc)@.len(),
        marked_set(final(acc)@) == marked_set(old(acc)@) + marked_set(src@),
{
    let ghost start = acc@;
    let mut t: usize = 0;
    while t < src.len()
        invariant
            0 <= t <= src@.len(),
            acc@.len() == src@.len(),
            start.len() == src@.len(),
            forall|u: int| 0 <= u < src@.len() ==> (#[trigger] acc@[u] <==> start[u] || (u < t && src@[u])),
        decreases src@.len() - t,
    {
        if src[t] {
            acc.set(t, true);
        }
        t += 1;
    }
    assert(marked_set(acc@) =~= marked_set(start) + marked_set(src@));
}

fn add_reference_first(
    rules: &Vec<SyntaxRule>,
    lexical: &Vec<LexicalRule>,
    f: &Vec<Vec<bool>>,
    name: &str,
    acc: &mut Vec<bool>,
)
    requires
        table_shape(f@, rules@.len() as int, lexical@.len() as int),
        old(acc)@.len() == lexical@.len(),
    ensures
        final(acc)@.len() == lexical@.len(),
        marked_set(final(acc)@) == marked_set(old(acc)@)
            + reference_first(syntax_rules_view(rules@), lexical_rules_view(lexical@), row_sets(f@), name@),
{
    let ghost rv = syntax_rules_view(rules@);
    let ghost lv = lexical_rules_view(lexical@);
    let ghost fs = row_sets(f@);
    let ghost start = marked_set(acc@);
    if names_a_rule_exec(rules, name) {
        let mut j: usize = 0;
        while j < rules.len()
            invariant
                0 <= j <= rules@.len(),
                rv == syntax_rules_view(rules@),
                fs == row_sets(f@),
                table_shape(f@, rules@.len() as int, lexical@.len() as int),
                acc@.len() == lexical@.len(),
                marked_set(acc@) == start + Set::new(|t: int| exists|i: int| 0 <= i < j
                    && #[trigger] rules_named(rv, name@).contains(i) && fs[i].contains(t)),
            decreases rules@.len() - j,
        {
            assert(rv[j as int] == rules@[j as int]@);
            let ghost before = marked_set(acc@);
            if str_eq(rules[j].head.name.as_str(), name) {
                mark_all(acc, &f[j]);
                assert(fs[j as int] == marked_set(f@[j as int]@));
                assert(rules_named(rv, name@).contains(j as int));
            }
            assert(marked_set(acc@) =~= start + Set::new(|t: int| exists|i: int| 0 <= i < j + 1
                && #[trigger] rules_named(rv, name@).contains(i) && fs[i].contains(t))) by {
                assert forall|t: int| marked_set(acc@).contains(t) implies (start + Set::new(|t: int| exists|i: int| 0 <= i < j + 1
                    && #[trigger] rules_named(rv, name@).contains(i) && fs[i].contains(t))).contains(t) by {
                    if !before.contains(t) {
                        assert(rules_named(rv, name@).contains(j as int) && fs[j as int].contains(t));
                    } else if !start.contains(t) {
                        let i = choose|i: int| 0 <= i < j && #[trigger] rules_named(rv, name@).contains(i) && fs[i].contains(t);
                        assert(0 <= i < j + 1);
                    }
                }
                assert forall|t: int| (start + Set::new(|t: int| exists|i: int| 0 <= i < j + 1
                    && #[trigger] rules_named(rv, name@).contains(i) && fs[i].contains(t))).contains(t) implies marked_set(acc@).contains(t) by {
                    if !start.contains(t) {
                        let i = choose|i: int| 0 <= i < j + 1 && #[trigger] rules_named(rv, name@).contains(i) && fs[i].contains(t);
                        if i < j {
                            assert(before.contains(t));
                        } else {
                            assert(rv[j as int].head.name == name@);
                        }
                    }
                }
            }
            j += 1;
        }
        assert(marked_set(acc@) =~= start + first_of_rules(rv, fs, name@));
    } else {
        let mut k: usize = 0;
        while k < lexical.len()
            invariant
                0 <= k <= lexical@.len(),
                lv == lexical_rules_view(lexical@),
                acc@.len() == lexical@.len(),
                marked_set(acc@) == start + Set::new(|u: int| 0 <= u < k && lv[u].head.name == name@),
            decreases lexical@.len() - k,
        {
            assert(lv[k as int] == lexical@[k as int]@);
            let ghost before = acc@;
            let same = str_eq(lexical[k].head.name.as_str(), name);
            assert(same == (lv[k as int].head.name == name@));
            if same {
                acc.set(k, true);
            }
            assert(forall|u: int| 0 <= u < acc@.len() && u != k ==> acc@[u] == before[u]);
            assert(same ==> acc@[k as int]);
            assert(!same ==> acc@ == before);
            assert(marked_set(acc@) =~= start + Set::new(|u: int| 0 <= u < k + 1 && lv[u].head.name == name@)) by {
                assert forall|u: int| marked_set(acc@).contains(u) implies (start + Set::new(|u: int| 0 <= u < k + 1 && lv[u].head.name == name@)).contains(u) by {
                    if u != k {
                        assert(marked_set(before).contains(u));
                    }
                }
                assert forall|u: int| (start + Set::new(|u: int| 0 <= u < k + 1 && lv[u].head.name == name@)).contains(u) implies marked_set(acc@).contains(u) by {
                    if u != k {
                        assert(marked_set(before).contains(u));
                    }
                }
            }
            k += 1;
        }
        assert(marked_set(acc@) =~= start + terminals_named(lv, name@));
    }
}

fn add_symbol_first(
    rules: &Vec<SyntaxRule>,
    lexical: &Vec<LexicalRule>,
    nullables: &Vec<bool>,
    f: &Vec<Vec<bool>>,
    s: &Symbol,
    acc: &mut Vec<bool>,
)
    requires
        table_shape(f@, rules@.len() as int, lexical@.len() as int),
        nullables@.len() == rules@.len(),
        inlined_lexical(lexical_rules_view(lexical@)),
        old(acc)@.len() == lexical@.len(),
    ensures
        final(acc)@.len() == lexical@.len(),
        marked_set(final(acc)@) == marked_set(old(acc)@) + symbol_first(syntax_rules_view(rules@),
            lexical_rules_view(lexical@), marked_set(nullables@), row_sets(f@), s@),
    decreases s, 1int, 0int,
{
    let ghost start = marked_set(acc@);
    match s {
        Symbol::Identifier(id) => add_reference_first(rules, lexical, f, id.name.as_str(), acc),
        Symbol::Call { name, .. } => add_reference_first(rules, lexical, f, name.name.as_str(), acc),
        Symbol::Literal(text) => {
            let ghost lv = lexical_rules_view(lexical@);
            let mut k: usize = 0;
            while k < lexical.len()
                invariant
                    0 <= k <= lexical@.len(),
                    lv == lexical_rules_view(lexical@),
                    acc@.len() == lexical@.len(),
                    marked_set(acc@) == start + Set::new(|u: int| 0 <= u < k && lv[u].head.name == text@),
                decreases lexical@.len() - k,
            {
                assert(lv[k as int] == lexical@[k as int]@);
                let ghost before = acc@;
                let same = str_eq(lexical[k].head.name.as_str(), text.as_str());
                assert(same == (lv[k as int].head.name == text@));
                if same {
                    acc.set(k, true);
                }
                assert(forall|u: int| 0 <= u < acc@.len() && u != k ==> acc@[u] == before[u]);
                assert(same ==> acc@[k as int]);
                assert(!same ==> acc@ == before);
                assert(marked_set(acc@) =~= start + Set::new(|u: int| 0 <= u < k + 1 && lv[u].head.name == text@)) by {
                    assert forall|u: int| marked_set(acc@).contains(u) implies (start + Set::new(|u: int| 0 <= u < k + 1 && lv[u].head.name == text@)).contains(u) by {
                        if u != k {
                            assert(marked_set(before).contains(u));
                        }
                    }
                    assert forall|u: int| (start + Set::new(|u: int| 0 <= u < k + 1 && lv[u].head.name == text@)).contains(u) implies marked_set(acc@).contains(u) by {
                        if u != k {
                            assert(marked_set(before).contains(u));
                        }
                    }
                }
                k += 1;
            }
            assert(marked_set(acc@) =~= start + terminals_named(lv, text@));
        },
        Symbol::Group(symbols) => add_sequence_first(rules, lexical, nullables, f, symbols, acc),
        Symbol::Alt(symbols) => add_choices_first(rules, lexical, nullables, f, symbols, acc),
        Symbol::Opt(inner) => add_symbol_first(rules, lexical, nullables, f, &**inner, acc),
        Symbol::Star(inner, _) => add_symbol_first(rules, lexical, nullables, f, &**inner, acc),
        Symbol::Plus(inner, _) => add_symbol_first(rules, lexical, nullables, f, &**inner, acc),
        Symbol::Labeled { symbol: inner, .. } => add_symbol_first(rules, lexical, nullables, f, &**inner, acc),
        Symbol::Binding { symbol: inner, .. } => add_symbol_first(rules, lexical, nullables, f, &**inner, acc),
        Symbol::Restricted { symbol: inner, .. } => add_symbol_first(rules, lexical, nullables, f, &**inner, acc),
        Symbol::Exclude { symbol: inner, .. } => add_symbol_first(rules, lexical, nullables, f, &**inner, acc),
        Symbol::Condition(_) => {
            assert(marked_set(acc@) =~= start + Set::<int>::empty());
        },
        Symbol::Return(_) => {
            assert(marked_set(acc@) =~= start + Set::<int>::empty());
        },
    }
}

fn add_sequence_first(
    rules: &Vec<SyntaxRule>,
    lexical: &Vec<LexicalRule>,
    nullables: &Vec<bool>,
    f: &Vec<Vec<bool>>,
    symbols: &Vec<Symbol>,
    acc: &mut Vec<bool>,
)
    requires
        table_shape(f@, rules@.len() as int, lexical@.len() as int),
        nullables@.len() == rules@.len(),
        inlined_lexical(lexical_rules_view(lexical@)),
        old(acc)@.len() == lexical@.len(),
    ensures
        final(acc)@.len() == lexical@.len(),
        marked_set(final(acc)@) == marked_set(old(acc)@) + sequence_first(syntax_rules_view(rules@),
            lexical_rules_view(lexical@), marked_set(nullables@), row_sets(f@), symbols_view(symbols@), 0),
    decreases symbols, 0int, symbols@.len() + 1,
{
    let ghost rv = syntax_rules_view(rules@);
    let ghost lv = lexical_rules_view(lexical@);
    let ghost nl = marked_set(nullables@);
    let ghost fs = row_sets(f@);
    let ghost sv = symbols_view(symbols@);
    let ghost start = marked_set(acc@);
    proof {
        lemma_symbols_view(symbols@);
    }
    let mut go = true;
    let mut i: usize = 0;
    while i < symbols.len() && go
        invariant
            0 <= i <= symbols@.len(),
            sv == symbols_view(symbols@),
            sv.len() == symbols@.len(),
            forall|j: int| 0 <= j < symbols@.len() ==> #[trigger] sv[j] == symbols@[j]@,
            rv == syntax_rules_view(rules@),
            lv == lexical_rules_view(lexical@),
            nl == marked_set(nullables@),
            fs == row_sets(f@),
            table_shape(f@, rules@.len() as int, lexical@.len() as int),
            nullables@.len() == rules@.len(),
            inlined_lexical(lv),
            acc@.len() == lexical@.len(),
            go ==> marked_set(acc@) + sequence_first(rv, lv, nl, fs, sv, i as int) == start + sequence_first(rv, lv, nl, fs, sv, 0),
            !go ==> marked_set(acc@) == start + sequence_first(rv, lv, nl, fs, sv, 0),
        decreases symbols@.len() - i,
    {
        proof {
            assert(decreases_to!(*symbols => symbols@[i as int]));
        }
        let ghost before = marked_set(acc@);
        assert(sv[i as int] == symbols@[i as int]@);
        add_symbol_first(rules, lexical, nullables, f, &symbols[i], acc);
        let nullable = symbol_is_nullable(rules, lexical, nullables, &symbols[i]);
        let ghost here = symbol_first(rv, lv, nl, fs, sv[i as int]);
        assert(sequence_first(rv, lv, nl, fs, sv, i as int) == here + if nullable {
            sequence_first(rv, lv, nl, fs, sv, i + 1)
        } else {
            Set::<int>::empty()
        });
        if !nullable {
            go = false;
            assert(marked_set(acc@) =~= before + sequence_first(rv, lv, nl, fs, sv, i as int));
        } else {
            assert(marked_set(acc@) + sequence_first(rv, lv, nl, fs, sv, i + 1)
                =~= before + sequence_first(rv, lv, nl, fs, sv, i as int));
        }
        i += 1;
    }
    if go {
        assert(sequence_first(rv, lv, nl, fs, sv, i as int) =~= Set::<int>::empty());
        assert(marked_set(acc@) =~= marked_set(acc@) + sequence_first(rv, lv, nl, fs, sv, i as int));
    }
}

fn add_choices_first(
    rules: &Vec<SyntaxRule>,
    lexical: &Vec<LexicalRule>,
    nullables: &Vec<bool>,
    f: &Vec<Vec<bool>>,
    symbols: &Vec<Symbol>,
    acc: &mut Vec<bool>,
)
    requires
        table_shape(f@, rules@.len() as int, lexical@.len() as int),
        nullables@.len() == rules@.len(),
        inlined_lexical(lexical_rules_view(lexical@)),
        old(acc)@.len() == lexical@.len(),
    ensures
        final(acc)@.len() == lexical@.len(),
        marked_set(final(acc)@) == marked_set(old(acc)@) + choices_first(syntax_rules_view(rules@),
            lexical_rules_view(lexical@), marked_set(nullables@), row_sets(f@), symbols_view(symbols@), 0),
    decreases symbols, 0int, symbols@.len() + 1,
{
    let ghost rv = syntax_rules_view(rules@);
    let ghost lv = lexical_rules_view(lexical@);
    let ghost nl = marked_set(nullables@);
    let ghost fs = row_sets(f@);
    let ghost sv = symbols_view(symbols@);
    let ghost start = marked_set(acc@);
    proof {
        lemma_symbols_view(symbols@);
    }
    let mut i: usize = 0;
    while i < symbols.len()
        invariant
            0 <= i <= symbols@.len(),
            sv == symbols_view(symbols@),
            sv.len() == symbols@.len(),
            forall|j: int| 0 <= j < symbols@.len() ==> #[trigger] sv[j] == symbols@[j]@,
            rv == syntax_rules_view(rules@),
            lv == lexical_rules_view(lexical@),
            nl == marked_set(nullables@),
            fs == row_sets(f@),
            table_shape(f@, rules@.len() as int, lexical@.len() as int),
            nullables@.len() == rules@.len(),
            inlined_lexical(lv),
            acc@.len() == lexical@.len(),
            marked_set(acc@) + choices_first(rv, lv, nl, fs, sv, i as int) == start + choices_first(rv, lv, nl, fs, sv, 0),
        decreases symbols@.len() - i,
    {
        proof {
            assert(decreases_to!(*symbols => symbols@[i as int]));
        }
        let ghost before = marked_set(acc@);
        assert(sv[i as int] == symbols@[i as int]@);
        add_symbol_first(rules, lexical, nullables, f, &symbols[i], acc);
        assert(marked_set(acc@) + choices_first(rv, lv, nl, fs, sv, i + 1)
            =~= before + choices_first(rv, lv, nl, fs, sv, i as int));
        i += 1;
    }
    assert(choices_first(rv, lv, nl, fs, sv, i as int) =~= Set::<int>::empty());
    assert(marked_set(acc@) =~= marked_set(acc@) + choices_first(rv, lv, nl, fs, sv, i as int));
}

fn rule_first(
    rules: &Vec<SyntaxRule>,
    lexical: &Vec<LexicalRule>,
    nullables: &Vec<bool>,
    f: &Vec<Vec<bool>>,
    i: usize,
) -> (acc: Vec<bool>)
    requires
        i < rules@.len(),
        table_shape(f@, rules@.len() as int, lexical@.len() as int),
        nullables@.len() == rules@.len(),
        inlined_lexical(lexical_rules_view(lexical@)),
    ensures
        acc@.len() == lexical@.len(),
        marked_set(acc@) == rule_first_under(syntax_rules_view(rules@), lexical_rules_view(lexical@),
            marked_set(nullables@), row_sets(f@), i as int),
{
    let ghost rv = syntax_rules_view(rules@);
    let ghost lv = lexical_rules_view(lexical@);
    let ghost nl = marked_set(nullables@);
    let ghost fs = row_sets(f@);
    let mut acc: Vec<bool> = Vec::new();
    let mut m: usize = 0;
    while m < lexical.len()
        invariant
            0 <= m <= lexical@.len(),
            acc@.len() == m,
            forall|u: int| 0 <= u < m ==> !(#[trigger] acc@[u]),
        decreases lexical@.len() - m,
    {
        acc.push(false);
        m += 1;
    }
    assert(marked_set(acc@) =~= Set::<int>::empty());
    let alternatives = rules[i].alternatives();
    let ghost views = alternatives@.map_values(|a: &Alternative| a@);
    assert(rv[i as int] == rules@[i as int]@);
    assert(views == rule_alternatives(rv[i as int].priority_levels));
    let mut a: usize = 0;
    while a < alternatives.len()
        invariant
            0 <= a <= alternatives@.len(),
            rv == syntax_rules_view(rules@),
            lv == lexical_rules_view(lexical@),
            nl == marked_set(nullables@),
            fs == row_sets(f@),
            table_shape(f@, rules@.len() as int, lexical@.len() as int),
            nullables@.len() == rules@.len(),
            inlined_lexical(lv),
            acc@.len() == lexical@.len(),
            views == alternatives@.map_values(|a: &Alternative| a@),
            marked_set(acc@) == Set::new(|t: int| exists|b: int| 0 <= b < a
                && #[trigger] sequence_first(rv, lv, nl, fs, views[b].symbols, 0).contains(t)),
        decreases alternatives@.len() - a,
    {
        let alternative: &Alternative = alternatives[a];
        assert(views[a as int] == alternative@);
        let ghost before = marked_set(acc@);
        add_sequence_first(rules, lexical, nullables, f, &alternative.symbols, &mut acc);
        let ghost here = sequence_first(rv, lv, nl, fs, views[a as int].symbols, 0);
        assert(marked_set(acc@) == before + here);
        assert(marked_set(acc@) =~= Set::new(|t: int| exists|b: int| 0 <= b < a + 1
            && #[trigger] sequence_first(rv, lv, nl, fs, views[b].symbols, 0).contains(t))) by {
            assert forall|t: int| marked_set(acc@).contains(t) implies exists|b: int| 0 <= b < a + 1
                && #[trigger] sequence_first(rv, lv, nl, fs, views[b].symbols, 0).contains(t) by {
                if before.contains(t) {
                    let b = choose|b: int| 0 <= b < a && #[trigger] sequence_first(rv, lv, nl, fs, views[b].symbols, 0).contains(t);
                    assert(0 <= b < a + 1);
                } else {
                    assert(here.contains(t));
                }
            }
            assert forall|t: int| (exists|b: int| 0 <= b < a + 1
                && #[trigger] sequence_first(rv, lv, nl, fs, views[b].symbols, 0).contains(t)) implies marked_set(acc@).contains(t) by {
                let b = choose|b: int| 0 <= b < a + 1 && #[trigger] sequence_first(rv, lv, nl, fs, views[b].symbols, 0).contains(t);
                if b < a {
                    assert(before.contains(t));
                }
            }
        }
        a += 1;
    }
    assert(marked_set(acc@) =~= rule_first_under(rv, lv, nl, fs, i as int));
    acc
}

/// `row` with the marks of `add` added, and whether a mark was new.
fn merge(row: &Vec<bool>, add: &Vec<bool>) -> (r: (Vec<bool>, bool))
    requires
        row@.len() == add@.len(),
    ensures
        r.0@.len() == row@.len(),
        marked_set(r.0@) == marked_set(row@) + marked_set(add@),
        marked(r.0@) >= marked(row@),
        r.1 ==> marked(r.0@) > marked(row@),
        !r.1 ==> r.0@ == row@,
{
    let mut out: Vec<bool> = Vec::new();
    let mut grew = false;
    let mut t: usize = 0;
    while t < row.len()
        invariant
            0 <= t <= row@.len(),
            row@.len() == add@.len(),
            out@.len() == t,
            forall|u: int| 0 <= u < t ==> (#[trigger] out@[u] <==> row@[u] || add@[u]),
            marked(out@) >= marked(row@.take(t as int)),
            grew ==> marked(out@) > marked(row@.take(t as int)),
            !grew ==> out@ == row@.take(t as int),
        decreases row@.len() - t,
    {
        let b = row[t] || add[t];
        if b && !row[t] {
            grew = true;
        }
        let ghost before = out@;
        out.push(b);
        proof {
            assert(out@.drop_last() =~= before);
            assert(row@.take(t + 1).drop_last() =~= row@.take(t as int));
            if !grew {
                assert(out@ =~= row@.take(t + 1));
            }
        }
        t += 1;
    }
    assert(row@.take(t as int) =~= row@);
    assert(marked_set(out@) =~= marked_set(row@) + marked_set(add@));
    (out, grew)
}

/// The number of marks in all rows.
spec fn total(rows: Seq<Vec<bool>>) -> nat
    decreases rows.len(),
{
    if rows.len() == 0 {
        0
    } else {
        total(rows.drop_last()) + marked(rows.last()@)
    }
}

/// The number of entries in all rows.
spec fn capacity(rows: Seq<Vec<bool>>) -> nat
    decreases rows.len(),
{
    if rows.len() == 0 {
        0
    } else {
        capacity(rows.drop_last()) + rows.last()@.len()
    }
}

proof fn lemma_total_bound(rows: Seq<Vec<bool>>)
    ensures
        total(rows) <= capacity(rows),
    decreases rows.len(),
{
    if rows.len() > 0 {
        lemma_total_bound(rows.drop_last());
        lemma_marked_bound(rows.last()@);
    }
}

proof fn lemma_total_update(rows: Seq<Vec<bool>>, i: int, r: Vec<bool>)
    requires
        0 <= i < rows.len(),
        r@.len() == rows[i]@.len(),
    ensures
        total(rows.update(i, r)) == total(rows) - marked(rows[i]@) + marked(r@),
        capacity(rows.update(i, r)) == capacity(rows),
    decreases rows.len(),
{
    let w = rows.update(i, r);
    if i == rows.len() - 1 {
        assert(w.drop_last() =~= rows.drop_last());
    } else {
        assert(w.drop_last() =~= rows.drop_last().update(i, r));
        lemma_total_update(rows.drop_last(), i, r);
    }
}

proof fn lemma_first_within_closed(rules: Seq<SpecSyntaxRule>, lexical: Seq<SpecLexicalRule>, nl: Set<int>, fs: Seq<Set<int>>, k: nat)
    requires
        fs.len() == rules.len(),
        forall|i: int| 0 <= i < rules.len() ==> #[trigger] rule_first_under(rules, lexical, nl, fs, i).subset_of(fs[i]),
    ensures
        within(first_within(rules, lexical, nl, k), fs),
    decreases k,
{
    lemma_first_within_grows(rules, lexical, nl, k);
    if k > 0 {
        lemma_first_within_closed(rules, lexical, nl, fs, (k - 1) as nat);
        let prev = first_within(rules, lexical, nl, (k - 1) as nat);
        assert(prev.len() == rules.len());
        assert forall|i: int| 0 <= i < rules.len() implies (#[trigger] first_within(rules, lexical, nl, k)[i]).subset_of(fs[i]) by {
            assert(first_within(rules, lexical, nl, k)[i] == rule_first_under(rules, lexical, nl, prev, i));
            lemma_rule_first_monotone(rules, lexical, nl, prev, fs, i);
            assert(rule_first_under(rules, lexical, nl, fs, i).subset_of(fs[i]));
        }
    }
}

/// The FIRST sets of the rules, the nullable rules being given
/// (`nullables`, as `nullable_rules` computes them): entry `t` of row `i`
/// tells whether the terminal of lexical rule `t` can begin what rule `i`
/// derives. The sets grow round after round, each rule's by the first
/// terminals of its alternatives given the sets so far, until a round adds
/// nothing; so every set holds the first terminals of its rule's
/// alternatives, given the sets. The lexical rules' references must be
/// inlined.
pub fn first_sets(rules: &Vec<SyntaxRule>, lexical: &Vec<LexicalRule>, nullables: &Vec<bool>) -> (f: Vec<Vec<bool>>)
    requires
        nullables@.len() == rules@.len(),
        inlined_lexical(lexical_rules_view(lexical@)),
    ensures
        table_shape(f@, rules@.len() as int, lexical@.len() as int),
        forall|i: int, t: int| 0 <= i < rules@.len() && 0 <= t < lexical@.len()
            ==> (#[trigger] f@[i]@[t] <==> in_first(syntax_rules_view(rules@), lexical_rules_view(lexical@),
                marked_set(nullables@), i, t)),
        forall|i: int| 0 <= i < rules@.len() ==> #[trigger] rule_first_under(syntax_rules_view(rules@),
            lexical_rules_view(lexical@), marked_set(nullables@), row_sets(f@), i).subset_of(row_sets(f@)[i]),
{
    let ghost rv = syntax_rules_view(rules@);
    let ghost lv = lexical_rules_view(lexical@);
    let ghost nl = marked_set(nullables@);
    let n = rules.len();
    let width = lexical.len();
    let mut f: Vec<Vec<bool>> = Vec::new();
    let mut i: usize = 0;
    while i < n
        invariant
            0 <= i <= n,
            width == lexical@.len(),
            f@.len() == i,
            forall|j: int| 0 <= j < i ==> (#[trigger] f@[j])@.len() == width,
            forall|j: int| 0 <= j < i ==> marked_set((#[trigger] f@[j])@) == Set::<int>::empty(),
        decreases n - i,
    {
        let mut row: Vec<bool> = Vec::new();
        let mut m: usize = 0;
        while m < width
            invariant
                0 <= m <= width,
                row@.len() == m,
                forall|u: int| 0 <= u < m ==> !(#[trigger] row@[u]),
            decreases width - m,
        {
            row.push(false);
            m += 1;
        }
        assert(marked_set(row@) =~= Set::<int>::empty());
        f.push(row);
        i += 1;
    }
    let ghost mut k: nat = 0;
    proof {
        lemma_first_within_grows(rv, lv, nl, 0);
        assert forall|j: int| 0 <= j < n implies (#[trigger] row_sets(f@)[j]).subset_of(first_within(rv, lv, nl, 0)[j]) by {
            assert(row_sets(f@)[j] == marked_set(f@[j]@));
        }
        lemma_total_bound(f@);
    }
    let ghost cap = capacity(f@);
    let mut changed = true;
    while changed
        invariant
            n == rules@.len(),
            rv == syntax_rules_view(rules@),
            lv == lexical_rules_view(lexical@),
            nl == marked_set(nullables@),
            nullables@.len() == rules@.len(),
            inlined_lexical(lv),
            table_shape(f@, n as int, lexical@.len() as int),
            within(row_sets(f@), first_within(rv, lv, nl, k)),
            !changed ==> forall|j: int| 0 <= j < n
                ==> #[trigger] rule_first_under(rv, lv, nl, row_sets(f@), j).subset_of(row_sets(f@)[j]),
            capacity(f@) == cap,
            total(f@) <= cap,
        decreases 2 * (cap - total(f@)) + if changed { 1int } else { 0int },
    {
        let ghost start = row_sets(f@);
        let ghost start_total = total(f@);
        let mut round_changed = false;
        let mut i: usize = 0;
        while i < n
            invariant
                0 <= i <= n,
                n == rules@.len(),
                rv == syntax_rules_view(rules@),
                lv == lexical_rules_view(lexical@),
                nl == marked_set(nullables@),
                nullables@.len() == rules@.len(),
                inlined_lexical(lv),
                table_shape(f@, n as int, lexical@.len() as int),
                within(row_sets(f@), first_within(rv, lv, nl, k)),
                capacity(f@) == cap,
                total(f@) <= cap,
                total(f@) >= start_total,
                round_changed ==> total(f@) > start_total,
                !round_changed ==> row_sets(f@) == start,
                !round_changed ==> forall|j: int| 0 <= j < i
                    ==> #[trigger] rule_first_under(rv, lv, nl, row_sets(f@), j).subset_of(row_sets(f@)[j]),
            decreases n - i,
        {
            let ghost fs = row_sets(f@);
            let add = rule_first(rules, lexical, nullables, &f, i);
            let (row, grew) = merge(&f[i], &add);
            let ghost before = f@;
            proof {
                lemma_first_within_grows(rv, lv, nl, k);
                lemma_rule_first_monotone(rv, lv, nl, fs, first_within(rv, lv, nl, k), i as int);
                assert(first_within(rv, lv, nl, k + 1)[i as int] == rule_first_under(rv, lv, nl, first_within(rv, lv, nl, k), i as int));
                assert(fs[i as int] == marked_set(before[i as int]@));
                lemma_total_update(before, i as int, row);
            }
            f.set(i, row);
            proof {
                assert(f@ == before.update(i as int, row));
                let next = first_within(rv, lv, nl, k + 1);
                assert forall|j: int| 0 <= j < n implies (#[trigger] row_sets(f@)[j]).subset_of(next[j]) by {
                    if j == i {
                        assert(row_sets(f@)[j] == marked_set(row@));
                    } else {
                        assert(row_sets(f@)[j] == fs[j]);
                        assert(fs[j].subset_of(first_within(rv, lv, nl, k)[j]));
                    }
                }
                k = k + 1;
                lemma_total_bound(f@);
                if !grew {
                    assert(row_sets(f@) =~= fs);
                    assert(rule_first_under(rv, lv, nl, fs, i as int).subset_of(fs[i as int]));
                }
            }
            if grew {
                round_changed = true;
            }
            i += 1;
        }
        changed = round_changed;
    }
    proof {
        let fs = row_sets(f@);
        assert forall|i: int, t: int| 0 <= i < n && 0 <= t < lexical@.len()
            implies (#[trigger] f@[i]@[t] <==> in_first(rv, lv, nl, i, t)) by {
            assert(fs[i] == marked_set(f@[i]@));
            if f@[i]@[t] {
                assert(fs[i].contains(t));
                assert(first_within(rv, lv, nl, k)[i].contains(t));
            }
            if in_first(rv, lv, nl, i, t) {
                let j = choose|j: nat| #[trigger] first_within(rv, lv, nl, j)[i].contains(t);
                lemma_first_within_closed(rv, lv, nl, fs, j);
                assert(fs[i].contains(t));
            }
        }
    }
    f
}


/// An option, a star or a plus begins with what its operand begins with,
/// the separator of a repetition aside: FIRST(X?) = FIRST(X*) = FIRST(X+) =
/// FIRST(X).
pub proof fn repetitions_begin_like_their_operand(
    rules: Seq<SpecSyntaxRule>,
    lexical: Seq<SpecLexicalRule>,
    nl: Set<int>,
    f: Seq<Set<int>>,
    x: SpecSymbol,
    sep: Option<Box<SpecSymbol>>,
)
    ensures
        symbol_first(rules, lexical, nl, f, SpecSymbol::Opt(Box::new(x))) == symbol_first(rules, lexical, nl, f, x),
        symbol_first(rules, lexical, nl, f, SpecSymbol::Star(Box::new(x), sep)) == symbol_first(rules, lexical, nl, f, x),
        symbol_first(rules, lexical, nl, f, SpecSymbol::Plus(Box::new(x), sep)) == symbol_first(rules, lexical, nl, f, x),
{
}

/// A terminal that an alternative of a rule begins with, even inside an
/// option, a star or a plus, is in the rule's FIRST set: for `S = A? ...`,
/// `S = A* ...` or `S = A+ ...` with `A` a lexical rule, `A` is in FIRST(S).
pub proof fn leading_repetition_terminal_is_first(
    rules: Seq<SpecSyntaxRule>,
    lexical: Seq<SpecLexicalRule>,
    nl: Set<int>,
    i: int,
    a: int,
    k: int,
    id: crate::grammar::symbols::SpecIdentifier,
    sep: Option<Box<SpecSymbol>>,
)
    requires
        0 <= i < rules.len(),
        0 <= a < rule_alternatives(rules[i].priority_levels).len(),
        rule_alternatives(rules[i].priority_levels)[a].symbols.len() > 0,
        0 <= k < lexical.len(),
        id.name == lexical[k].head.name,
        !names_a_rule(rules, id.name),
        ({
            let first = rule_alternatives(rules[i].priority_levels)[a].symbols[0];
            let reference = SpecSymbol::Identifier(id);
            ||| first == SpecSymbol::Opt(Box::new(reference))
            ||| first == SpecSymbol::Star(Box::new(reference), sep)
            ||| first == SpecSymbol::Plus(Box::new(reference), sep)
        }),
    ensures
        in_first(rules, lexical, nl, i, k),
{
    let alts = rule_alternatives(rules[i].priority_levels);
    let symbols = alts[a].symbols;
    let f0 = first_within(rules, lexical, nl, 0);
    lemma_first_within_grows(rules, lexical, nl, 0);
    let reference = SpecSymbol::Identifier(id);
    assert(terminals_named(lexical, lexical[k].head.name).contains(k));
    assert(symbol_first(rules, lexical, nl, f0, reference).contains(k));
    assert(symbol_first(rules, lexical, nl, f0, symbols[0]).contains(k));
    assert(sequence_first(rules, lexical, nl, f0, symbols, 0).contains(k));
    assert(rule_first_under(rules, lexical, nl, f0, i).contains(k));
    assert(first_within(rules, lexical, nl, 1)[i] == rule_first_under(rules, lexical, nl, f0, i));
    assert(first_within(rules, lexical, nl, 1)[i].contains(k));
}

proof fn lemma_sequence_first_from(rules: Seq<SpecSyntaxRule>, lexical: Seq<SpecLexicalRule>, nl: Set<int>, f: Seq<Set<int>>, symbols: Seq<SpecSymbol>, i: int, t: int)
    requires
        0 <= i <= symbols.len(),
    ensures
        sequence_first(rules, lexical, nl, f, symbols, i).contains(t) <==> exists|j: int| i <= j < symbols.len()
            && (forall|q: int| i <= q < j ==> symbol_nullable(rules, lexical, nl, #[trigger] symbols[q]))
            && #[trigger] symbol_first(rules, lexical, nl, f, symbols[j]).contains(t),
    decreases symbols.len() - i,
{
    if i < symbols.len() {
        lemma_sequence_first_from(rules, lexical, nl, f, symbols, i + 1, t);
        if sequence_first(rules, lexical, nl, f, symbols, i).contains(t) {
            if !symbol_first(rules, lexical, nl, f, symbols[i]).contains(t) {
                assert(symbol_nullable(rules, lexical, nl, symbols[i]));
                let j = choose|j: int| i + 1 <= j < symbols.len()
                    && (forall|q: int| i + 1 <= q < j ==> symbol_nullable(rules, lexical, nl, #[trigger] symbols[q]))
                    && #[trigger] symbol_first(rules, lexical, nl, f, symbols[j]).contains(t);
                assert(forall|q: int| i <= q < j ==> symbol_nullable(rules, lexical, nl, #[trigger] symbols[q]));
            }
        }
        if exists|j: int| i <= j < symbols.len()
            && (forall|q: int| i <= q < j ==> symbol_nullable(rules, lexical, nl, #[trigger] symbols[q]))
            && #[trigger] symbol_first(rules, lexical, nl, f, symbols[j]).contains(t) {
            let j = choose|j: int| i <= j < symbols.len()
                && (forall|q: int| i <= q < j ==> symbol_nullable(rules, lexical, nl, #[trigger] symbols[q]))
                && #[trigger] symbol_first(rules, lexical, nl, f, symbols[j]).contains(t);
            if j > i {
                assert(symbol_nullable(rules, lexical, nl, symbols[i]));
                assert(forall|q: int| i + 1 <= q < j ==> symbol_nullable(rules, lexical, nl, #[trigger] symbols[q]));
            }
        }
    }
}

proof fn lemma_choices_first_from(rules: Seq<SpecSyntaxRule>, lexical: Seq<SpecLexicalRule>, nl: Set<int>, f: Seq<Set<int>>, symbols: Seq<SpecSymbol>, i: int, t: int)
    requires
        0 <= i <= symbols.len(),
    ensures
        choices_first(rules, lexical, nl, f, symbols, i).contains(t) <==> exists|j: int| i <= j < symbols.len()
            && #[trigger] symbol_first(rules, lexical, nl, f, symbols[j]).contains(t),
    decreases symbols.len() - i,
{
    if i < symbols.len() {
        lemma_choices_first_from(rules, lexical, nl, f, symbols, i + 1, t);
        if choices_first(rules, lexical, nl, f, symbols, i).contains(t) {
            if symbol_first(rules, lexical, nl, f, symbols[i]).contains(t) {
                assert(i <= i < symbols.len());
            } else {
                let j = choose|j: int| i + 1 <= j < symbols.len() && #[trigger] symbol_first(rules, lexical, nl, f, symbols[j]).contains(t);
                assert(i <= j);
            }
        }
        if exists|j: int| i <= j < symbols.len() && #[trigger] symbol_first(rules, lexical, nl, f, symbols[j]).contains(t) {
            let j = choose|j: int| i <= j < symbols.len() && #[trigger] symbol_first(rules, lexical, nl, f, symbols[j]).contains(t);
            if j > i {
                assert(choices_first(rules, lexical, nl, f, symbols, i + 1).contains(t));
            }
        }
    }
}

/// A group begins with a terminal exactly when one of its symbols does
/// after symbols that all derive the empty string; a choice exactly when
/// one of its choices does.
pub proof fn groups_and_choices_begin_with_their_parts(
    rules: Seq<SpecSyntaxRule>,
    lexical: Seq<SpecLexicalRule>,
    nl: Set<int>,
    f: Seq<Set<int>>,
    symbols: Seq<SpecSymbol>,
    t: int,
)
    ensures
        symbol_first(rules, lexical, nl, f, SpecSymbol::Group(symbols)).contains(t) <==> exists|j: int| 0 <= j < symbols.len()
            && (forall|q: int| 0 <= q < j ==> symbol_nullable(rules, lexical, nl, #[trigger] symbols[q]))
            && #[trigger] symbol_first(rules, lexical, nl, f, symbols[j]).contains(t),
        symbol_first(rules, lexical, nl, f, SpecSymbol::Alt(symbols)).contains(t) <==> exists|j: int| 0 <= j < symbols.len()
            && #[trigger] symbol_first(rules, lexical, nl, f, symbols[j]).contains(t),
{
    lemma_sequence_first_from(rules, lexical, nl, f, symbols, 0, t);
    lemma_choices_first_from(rules, lexical, nl, f, symbols, 0, t);
}

/// A reference to a terminal begins with that terminal alone; a reference
/// to a nonterminal begins with what the given sets say its rules begin
/// with; a literal with the terminal it names; a condition or a return
/// with nothing.
pub proof fn references_begin_with_their_terminal(
    rules: Seq<SpecSyntaxRule>,
    lexical: Seq<SpecLexicalRule>,
    nl: Set<int>,
    f: Seq<Set<int>>,
    id: crate::grammar::symbols::SpecIdentifier,
    t: int,
)
    ensures
        !names_a_rule(rules, id.name) ==> (symbol_first(rules, lexical, nl, f, SpecSymbol::Identifier(id)).contains(t)
            <==> 0 <= t < lexical.len() && lexical[t].head.name == id.name),
        names_a_rule(rules, id.name) ==> (symbol_first(rules, lexical, nl, f, SpecSymbol::Identifier(id)).contains(t)
            <==> exists|r: int| 0 <= r < rules.len() && rules[r].head.name == id.name && #[trigger] f[r].contains(t)),
        symbol_first(rules, lexical, nl, f, SpecSymbol::Literal(id.name)).contains(t)
            <==> 0 <= t < lexical.len() && lexical[t].head.name == id.name,
{
    if names_a_rule(rules, id.name) {
        if symbol_first(rules, lexical, nl, f, SpecSymbol::Identifier(id)).contains(t) {
            let r = choose|r: int| #[trigger] rules_named(rules, id.name).contains(r) && f[r].contains(t);
            assert(0 <= r < rules.len() && rules[r].head.name == id.name && f[r].contains(t));
        }
        if exists|r: int| 0 <= r < rules.len() && rules[r].head.name == id.name && #[trigger] f[r].contains(t) {
            let r = choose|r: int| 0 <= r < rules.len() && rules[r].head.name == id.name && #[trigger] f[r].contains(t);
            assert(rules_named(rules, id.name).contains(r));
        }
    }
}

} // verus!
