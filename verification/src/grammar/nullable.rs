//! Which rules derive the empty string.
use vstd::prelude::*;
use crate::grammar::def::{
    lexical_rules_view, rule_alternatives, syntax_rules_view, Alternative, LexicalRule,
    SpecLexicalRule, SpecSyntaxRule, SyntaxRule,
};
use crate::grammar::regex::{mentions_identifier, nullable};
use crate::grammar::symbols::{symbols_view, SpecSymbol, Symbol};
use crate::grammar::reachability::{lemma_mark, lemma_marked_bound, marked};
use crate::text::str_eq;

verus! {

broadcast use vstd::std_specs::vec::axiom_vec_index_decreases;

// ---------------------------------------------------------------------------
// Nullability under a set of rules

/// Whether a syntax rule has the head `name`: such a name stands for a
/// nonterminal, any other for a terminal.
pub open spec fn names_a_rule(rules: Seq<SpecSyntaxRule>, name: Seq<char>) -> bool {
    exists|i: int| 0 <= i < rules.len() && #[trigger] rules[i].head.name == name
}

/// Whether a rule of `m` has the head `name`.
pub open spec fn names_a_rule_in(rules: Seq<SpecSyntaxRule>, m: Set<int>, name: Seq<char>) -> bool {
    exists|i: int| 0 <= i < rules.len() && m.contains(i) && #[trigger] rules[i].head.name == name
}

/// Whether a lexical rule with the head `name` matches the empty string.
pub open spec fn terminal_nullable(lexical: Seq<SpecLexicalRule>, name: Seq<char>) -> bool {
    exists|k: int| 0 <= k < lexical.len() && #[trigger] lexical[k].head.name == name
        && nullable(lexical[k].regex)
}

/// Whether a symbol derives the empty string when the rules of `m` do: a
/// reference to a nonterminal where its rule is in `m`, one to a terminal
/// where its regex matches the empty string; an option, a star, a condition
/// and a return always; a literal never; a group where all of its symbols
/// do, a choice where one does; the other forms where their symbol does.
pub open spec fn symbol_nullable(rules: Seq<SpecSyntaxRule>, lexical: Seq<SpecLexicalRule>, m: Set<int>, s: SpecSymbol) -> bool
    decreases s, 1int,
{
    match s {
        SpecSymbol::Identifier(id) => if names_a_rule(rules, id.name) {
            names_a_rule_in(rules, m, id.name)
        } else {
            terminal_nullable(lexical, id.name)
        },
        SpecSymbol::Call { name, .. } => names_a_rule_in(rules, m, name.name),
        SpecSymbol::Literal(_) => false,
        SpecSymbol::Group(symbols) => all_nullable(rules, lexical, m, symbols),
        SpecSymbol::Alt(symbols) => any_nullable(rules, lexical, m, symbols),
        SpecSymbol::Opt(_) => true,
        SpecSymbol::Star(_, _) => true,
        SpecSymbol::Plus(inner, _) => symbol_nullable(rules, lexical, m, *inner),
        SpecSymbol::Labeled { symbol, .. } => symbol_nullable(rules, lexical, m, *symbol),
        SpecSymbol::Binding { symbol, .. } => symbol_nullable(rules, lexical, m, *symbol),
        SpecSymbol::Restricted { symbol, .. } => symbol_nullable(rules, lexical, m, *symbol),
        SpecSymbol::Exclude { symbol, .. } => symbol_nullable(rules, lexical, m, *symbol),
        SpecSymbol::Condition(_) => true,
        SpecSymbol::Return(_) => true,
    }
}

/// Whether every symbol of `symbols` derives the empty string.
pub open spec fn all_nullable(rules: Seq<SpecSyntaxRule>, lexical: Seq<SpecLexicalRule>, m: Set<int>, symbols: Seq<SpecSymbol>) -> bool
    decreases symbols, 0int,
{
    if symbols.len() == 0 {
        true
    } else {
        all_nullable(rules, lexical, m, symbols.drop_last())
            && symbol_nullable(rules, lexical, m, symbols.last())
    }
}

/// Whether some symbol of `symbols` derives the empty string.
pub open spec fn any_nullable(rules: Seq<SpecSyntaxRule>, lexical: Seq<SpecLexicalRule>, m: Set<int>, symbols: Seq<SpecSymbol>) -> bool
    decreases symbols, 0int,
{
    if symbols.len() == 0 {
        false
    } else {
        any_nullable(rules, lexical, m, symbols.drop_last())
            || symbol_nullable(rules, lexical, m, symbols.last())
    }
}

/// Whether an alternative of rule `i` derives the empty string when the
/// rules of `m` do.
pub open spec fn rule_nullable_under(rules: Seq<SpecSyntaxRule>, lexical: Seq<SpecLexicalRule>, m: Set<int>, i: int) -> bool {
    let alts = rule_alternatives(rules[i].priority_levels);
    exists|a: int| 0 <= a < alts.len() && #[trigger] all_nullable(rules, lexical, m, alts[a].symbols)
}

/// The rules that derive the empty string in fewer than `k` rounds.
pub open spec fn nullable_within(rules: Seq<SpecSyntaxRule>, lexical: Seq<SpecLexicalRule>, k: nat) -> Set<int>
    decreases k,
{
    if k == 0 {
        Set::empty()
    } else {
        Set::new(|i: int| 0 <= i < rules.len()
            && rule_nullable_under(rules, lexical, nullable_within(rules, lexical, (k - 1) as nat), i))
    }
}

/// Whether rule `i` derives the empty string.
pub open spec fn rule_nullable(rules: Seq<SpecSyntaxRule>, lexical: Seq<SpecLexicalRule>, i: int) -> bool {
    exists|k: nat| #[trigger] nullable_within(rules, lexical, k).contains(i)
}

proof fn lemma_symbol_monotone(rules: Seq<SpecSyntaxRule>, lexical: Seq<SpecLexicalRule>, m1: Set<int>, m2: Set<int>, s: SpecSymbol)
    requires
        m1.subset_of(m2),
        symbol_nullable(rules, lexical, m1, s),
    ensures
        symbol_nullable(rules, lexical, m2, s),
    decreases s, 1int,
{
    match s {
        SpecSymbol::Identifier(id) => {
            if names_a_rule(rules, id.name) {
                let i = choose|i: int| 0 <= i < rules.len() && m1.contains(i) && #[trigger] rules[i].head.name == id.name;
                assert(m2.contains(i));
            }
        },
        SpecSymbol::Call { name, .. } => {
            let i = choose|i: int| 0 <= i < rules.len() && m1.contains(i) && #[trigger] rules[i].head.name == name.name;
            assert(m2.contains(i));
        },
        SpecSymbol::Group(symbols) => lemma_all_monotone(rules, lexical, m1, m2, symbols),
        SpecSymbol::Alt(symbols) => lemma_any_monotone(rules, lexical, m1, m2, symbols),
        SpecSymbol::Plus(inner, _) => lemma_symbol_monotone(rules, lexical, m1, m2, *inner),
        SpecSymbol::Labeled { symbol, .. } => lemma_symbol_monotone(rules, lexical, m1, m2, *symbol),
        SpecSymbol::Binding { symbol, .. } => lemma_symbol_monotone(rules, lexical, m1, m2, *symbol),
        SpecSymbol::Restricted { symbol, .. } => lemma_symbol_monotone(rules, lexical, m1, m2, *symbol),
        SpecSymbol::Exclude { symbol, .. } => lemma_symbol_monotone(rules, lexical, m1, m2, *symbol),
        _ => {},
    }
}

proof fn lemma_all_monotone(rules: Seq<SpecSyntaxRule>, lexical: Seq<SpecLexicalRule>, m1: Set<int>, m2: Set<int>, symbols: Seq<SpecSymbol>)
    requires
        m1.subset_of(m2),
        all_nullable(rules, lexical, m1, symbols),
    ensures
        all_nullable(rules, lexical, m2, symbols),
    decreases symbols, 0int,
{
    if symbols.len() > 0 {
        lemma_all_monotone(rules, lexical, m1, m2, symbols.drop_last());
        lemma_symbol_monotone(rules, lexical, m1, m2, symbols.last());
    }
}

proof fn lemma_any_monotone(rules: Seq<SpecSyntaxRule>, lexical: Seq<SpecLexicalRule>, m1: Set<int>, m2: Set<int>, symbols: Seq<SpecSymbol>)
    requires
        m1.subset_of(m2),
        any_nullable(rules, lexical, m1, symbols),
    ensures
        any_nullable(rules, lexical, m2, symbols),
    decreases symbols, 0int,
{
    if symbols.len() > 0 {
        if any_nullable(rules, lexical, m1, symbols.drop_last()) {
            lemma_any_monotone(rules, lexical, m1, m2, symbols.drop_last());
        } else {
            lemma_symbol_monotone(rules, lexical, m1, m2, symbols.last());
        }
    }
}

proof fn lemma_rule_monotone(rules: Seq<SpecSyntaxRule>, lexical: Seq<SpecLexicalRule>, m1: Set<int>, m2: Set<int>, i: int)
    requires
        m1.subset_of(m2),
        rule_nullable_under(rules, lexical, m1, i),
    ensures
        rule_nullable_under(rules, lexical, m2, i),
{
    let alts = rule_alternatives(rules[i].priority_levels);
    let a = choose|a: int| 0 <= a < alts.len() && #[trigger] all_nullable(rules, lexical, m1, alts[a].symbols);
    lemma_all_monotone(rules, lexical, m1, m2, alts[a].symbols);
}

proof fn lemma_within_grows(rules: Seq<SpecSyntaxRule>, lexical: Seq<SpecLexicalRule>, k: nat)
    ensures
        nullable_within(rules, lexical, k).subset_of(nullable_within(rules, lexical, k + 1)),
    decreases k,
{
    if k > 0 {
        lemma_within_grows(rules, lexical, (k - 1) as nat);
        assert forall|i: int| nullable_within(rules, lexical, k).contains(i)
            implies nullable_within(rules, lexical, k + 1).contains(i) by {
            lemma_rule_monotone(rules, lexical, nullable_within(rules, lexical, (k - 1) as nat),
                nullable_within(rules, lexical, k), i);
        }
    }
}

proof fn lemma_within_marked(rules: Seq<SpecSyntaxRule>, lexical: Seq<SpecLexicalRule>, m: Set<int>, k: nat)
    requires
        forall|i: int| 0 <= i < rules.len() && !m.contains(i) ==> !rule_nullable_under(rules, lexical, m, i),
    ensures
        nullable_within(rules, lexical, k).subset_of(m),
    decreases k,
{
    if k > 0 {
        lemma_within_marked(rules, lexical, m, (k - 1) as nat);
        assert forall|i: int| nullable_within(rules, lexical, k).contains(i) implies m.contains(i) by {
            lemma_rule_monotone(rules, lexical, nullable_within(rules, lexical, (k - 1) as nat), m, i);
        }
    }
}

// ---------------------------------------------------------------------------
// Computing the nullable rules

/// Whether no lexical rule's regex refers to another rule, as after inlining.
pub open spec fn inlined_lexical(lexical: Seq<SpecLexicalRule>) -> bool {
    forall|k: int| 0 <= k < lexical.len() ==> !mentions_identifier(#[trigger] lexical[k].regex)
}

/// The indices of the marked entries.
pub open spec fn marked_set(marks: Seq<bool>) -> Set<int> {
    Set::new(|i: int| 0 <= i < marks.len() && marks[i])
}

pub(crate) fn names_a_rule_exec(rules: &Vec<SyntaxRule>, name: &str) -> (r: bool)
    ensures
        r == names_a_rule(syntax_rules_view(rules@), name@),
{
    let ghost rv = syntax_rules_view(rules@);
    let mut found = false;
    let mut i: usize = 0;
    while i < rules.len()
        invariant
            0 <= i <= rules@.len(),
            rv == syntax_rules_view(rules@),
            found <==> exists|j: int| 0 <= j < i && #[trigger] rv[j].head.name == name@,
        decreases rules@.len() - i,
    {
        assert(rv[i as int] == rules@[i as int]@);
        let same = str_eq(rules[i].head.name.as_str(), name);
        if same {
            found = true;
        }
        assert(found <==> exists|j: int| 0 <= j < i + 1 && #[trigger] rv[j].head.name == name@) by {
            if same {
                assert(rv[i as int].head.name == name@);
            }
        }
        i += 1;
    }
    found
}

fn names_a_marked_rule(rules: &Vec<SyntaxRule>, marks: &Vec<bool>, name: &str) -> (r: bool)
    requires
        marks@.len() == rules@.len(),
    ensures
        r == names_a_rule_in(syntax_rules_view(rules@), marked_set(marks@), name@),
{
    let ghost rv = syntax_rules_view(rules@);
    let ghost m = marked_set(marks@);
    let mut found = false;
    let mut i: usize = 0;
    while i < rules.len()
        invariant
            0 <= i <= rules@.len(),
            marks@.len() == rules@.len(),
            rv == syntax_rules_view(rules@),
            m == marked_set(marks@),
            found <==> exists|j: int| 0 <= j < i && m.contains(j) && #[trigger] rv[j].head.name == name@,
        decreases rules@.len() - i,
    {
        assert(rv[i as int] == rules@[i as int]@);
        let same = str_eq(rules[i].head.name.as_str(), name);
        let hit = same && marks[i];
        if hit {
            found = true;
        }
        assert(found <==> exists|j: int| 0 <= j < i + 1 && m.contains(j) && #[trigger] rv[j].head.name == name@) by {
            if hit {
                assert(m.contains(i as int) && rv[i as int].head.name == name@);
            }
        }
        i += 1;
    }
    found
}

fn terminal_is_nullable(lexical: &Vec<LexicalRule>, name: &str) -> (r: bool)
    requires
        inlined_lexical(lexical_rules_view(lexical@)),
    ensures
        r == terminal_nullable(lexical_rules_view(lexical@), name@),
{
    let ghost lv = lexical_rules_view(lexical@);
    let mut found = false;
    let mut k: usize = 0;
    while k < lexical.len()
        invariant
            0 <= k <= lexical@.len(),
            lv == lexical_rules_view(lexical@),
            inlined_lexical(lv),
            found <==> exists|j: int| 0 <= j < k && #[trigger] lv[j].head.name == name@
                && nullable(lv[j].regex),
        decreases lexical@.len() - k,
    {
        assert(lv[k as int] == lexical@[k as int]@);
        assert(!mentions_identifier(lv[k as int].regex));
        assert(lexical@[k as int].regex@ == lv[k as int].regex);
        let same = str_eq(lexical[k].head.name.as_str(), name);
        let hit = same && lexical[k].regex.is_nullable();
        if hit {
            found = true;
        }
        assert(found <==> exists|j: int| 0 <= j < k + 1 && #[trigger] lv[j].head.name == name@
            && nullable(lv[j].regex)) by {
            if hit {
                assert(lv[k as int].head.name == name@);
            }
        }
        k += 1;
    }
    found
}

pub(crate) fn symbol_is_nullable(rules: &Vec<SyntaxRule>, lexical: &Vec<LexicalRule>, marks: &Vec<bool>, s: &Symbol) -> (r: bool)
    requires
        marks@.len() == rules@.len(),
        inlined_lexical(lexical_rules_view(lexical@)),
    ensures
        r == symbol_nullable(syntax_rules_view(rules@), lexical_rules_view(lexical@), marked_set(marks@), s@),
    decreases s, 1int,
{
    match s {
        Symbol::Identifier(id) => {
            if names_a_rule_exec(rules, id.name.as_str()) {
                names_a_marked_rule(rules, marks, id.name.as_str())
            } else {
                terminal_is_nullable(lexical, id.name.as_str())
            }
        },
        Symbol::Call { name, .. } => names_a_marked_rule(rules, marks, name.name.as_str()),
        Symbol::Literal(_) => false,
        Symbol::Group(symbols) => all_are_nullable(rules, lexical, marks, symbols),
        Symbol::Alt(symbols) => any_is_nullable(rules, lexical, marks, symbols),
        Symbol::Opt(_) => true,
        Symbol::Star(_, _) => true,
        Symbol::Plus(inner, _) => symbol_is_nullable(rules, lexical, marks, &**inner),
        Symbol::Labeled { symbol: inner, .. } => symbol_is_nullable(rules, lexical, marks, &**inner),
        Symbol::Binding { symbol: inner, .. } => symbol_is_nullable(rules, lexical, marks, &**inner),
        Symbol::Restricted { symbol: inner, .. } => symbol_is_nullable(rules, lexical, marks, &**inner),
        Symbol::Exclude { symbol: inner, .. } => symbol_is_nullable(rules, lexical, marks, &**inner),
        Symbol::Condition(_) => true,
        Symbol::Return(_) => true,
    }
}

fn all_are_nullable(rules: &Vec<SyntaxRule>, lexical: &Vec<LexicalRule>, marks: &Vec<bool>, symbols: &Vec<Symbol>) -> (r: bool)
    requires
        marks@.len() == rules@.len(),
        inlined_lexical(lexical_rules_view(lexical@)),
    ensures
        r == all_nullable(syntax_rules_view(rules@), lexical_rules_view(lexical@), marked_set(marks@), symbols_view(symbols@)),
    decreases symbols, 0int,
{
    let ghost rv = syntax_rules_view(rules@);
    let ghost lv = lexical_rules_view(lexical@);
    let ghost m = marked_set(marks@);
    let mut all = true;
    let mut i: usize = 0;
    while i < symbols.len()
        invariant
            0 <= i <= symbols@.len(),
            marks@.len() == rules@.len(),
            rv == syntax_rules_view(rules@),
            lv == lexical_rules_view(lexical@),
            m == marked_set(marks@),
            inlined_lexical(lv),
            all == all_nullable(rv, lv, m, symbols_view(symbols@.take(i as int))),
        decreases symbols@.len() - i,
    {
        proof {
            assert(decreases_to!(*symbols => symbols@[i as int]));
        }
        if all {
            all = symbol_is_nullable(rules, lexical, marks, &symbols[i]);
        }
        proof {
            let t = symbols@.take(i + 1);
            assert(t.drop_last() =~= symbols@.take(i as int));
            let v = symbols_view(t);
            assert(v.drop_last() =~= symbols_view(symbols@.take(i as int)));
            assert(v.last() == symbols@[i as int]@);
        }
        i += 1;
    }
    assert(symbols@.take(i as int) =~= symbols@);
    all
}

fn any_is_nullable(rules: &Vec<SyntaxRule>, lexical: &Vec<LexicalRule>, marks: &Vec<bool>, symbols: &Vec<Symbol>) -> (r: bool)
    requires
        marks@.len() == rules@.len(),
        inlined_lexical(lexical_rules_view(lexical@)),
    ensures
        r == any_nullable(syntax_rules_view(rules@), lexical_rules_view(lexical@), marked_set(marks@), symbols_view(symbols@)),
    decreases symbols, 0int,
{
    let ghost rv = syntax_rules_view(rules@);
    let ghost lv = lexical_rules_view(lexical@);
    let ghost m = marked_set(marks@);
    let mut any = false;
    let mut i: usize = 0;
    while i < symbols.len()
        invariant
            0 <= i <= symbols@.len(),
            marks@.len() == rules@.len(),
            rv == syntax_rules_view(rules@),
            lv == lexical_rules_view(lexical@),
            m == marked_set(marks@),
            inlined_lexical(lv),
            any == any_nullable(rv, lv, m, symbols_view(symbols@.take(i as int))),
        decreases symbols@.len() - i,
    {
        proof {
            assert(decreases_to!(*symbols => symbols@[i as int]));
        }
        if !any {
            any = symbol_is_nullable(rules, lexical, marks, &symbols[i]);
        }
        proof {
            let t = symbols@.take(i + 1);
            assert(t.drop_last() =~= symbols@.take(i as int));
            let v = symbols_view(t);
            assert(v.drop_last() =~= symbols_view(symbols@.take(i as int)));
            assert(v.last() == symbols@[i as int]@);
        }
        i += 1;
    }
    assert(symbols@.take(i as int) =~= symbols@);
    any
}

fn rule_is_nullable(rules: &Vec<SyntaxRule>, lexical: &Vec<LexicalRule>, marks: &Vec<bool>, i: usize) -> (r: bool)
    requires
        i < rules@.len(),
        marks@.len() == rules@.len(),
        inlined_lexical(lexical_rules_view(lexical@)),
    ensures
        r == rule_nullable_under(syntax_rules_view(rules@), lexical_rules_view(lexical@), marked_set(marks@), i as int),
{
    let ghost rv = syntax_rules_view(rules@);
    let ghost lv = lexical_rules_view(lexical@);
    let ghost m = marked_set(marks@);
    let alternatives = rules[i].alternatives();
    let ghost views = alternatives@.map_values(|a: &Alternative| a@);
    assert(rv[i as int] == rules@[i as int]@);
    assert(views == rule_alternatives(rv[i as int].priority_levels));
    let mut found = false;
    let mut a: usize = 0;
    while a < alternatives.len()
        invariant
            0 <= a <= alternatives@.len(),
            marks@.len() == rules@.len(),
            rv == syntax_rules_view(rules@),
            lv == lexical_rules_view(lexical@),
            m == marked_set(marks@),
            inlined_lexical(lv),
            views == alternatives@.map_values(|a: &Alternative| a@),
            found <==> exists|b: int| 0 <= b < a && #[trigger] all_nullable(rv, lv, m, views[b].symbols),
        decreases alternatives@.len() - a,
    {
        let alternative: &Alternative = alternatives[a];
        assert(views[a as int] == alternative@);
        if !found {
            let this = all_are_nullable(rules, lexical, marks, &alternative.symbols);
            if this {
                found = true;
            }
            assert(found <==> exists|b: int| 0 <= b < a + 1 && #[trigger] all_nullable(rv, lv, m, views[b].symbols)) by {
                if this {
                    assert(all_nullable(rv, lv, m, views[a as int].symbols));
                }
            }
        } else {
            assert(found <==> exists|b: int| 0 <= b < a + 1 && #[trigger] all_nullable(rv, lv, m, views[b].symbols)) by {
                let b = choose|b: int| 0 <= b < a && #[trigger] all_nullable(rv, lv, m, views[b].symbols);
                assert(0 <= b < a + 1);
            }
        }
        a += 1;
    }
    found
}

/// Which rules derive the empty string: entry `i` tells whether rule `i`
/// does. The rules are marked round after round, each rule once an
/// alternative of it consists of symbols that derive the empty string given
/// the rules marked so far, until a round marks none; so a rule with an
/// alternative of symbols that derive the empty string is marked. The
/// lexical rules' references must be inlined.
pub fn nullable_rules(rules: &Vec<SyntaxRule>, lexical: &Vec<LexicalRule>) -> (marks: Vec<bool>)
    requires
        inlined_lexical(lexical_rules_view(lexical@)),
    ensures
        marks@.len() == rules@.len(),
        forall|i: int| 0 <= i < rules@.len()
            ==> (#[trigger] marks@[i] <==> rule_nullable(syntax_rules_view(rules@), lexical_rules_view(lexical@), i)),
        forall|i: int| 0 <= i < rules@.len()
            && #[trigger] rule_nullable_under(syntax_rules_view(rules@), lexical_rules_view(lexical@), marked_set(marks@), i)
            ==> marks@[i],
{
    let ghost rv = syntax_rules_view(rules@);
    let ghost lv = lexical_rules_view(lexical@);
    let n = rules.len();
    let mut marks: Vec<bool> = Vec::new();
    let mut m: usize = 0;
    while m < n
        invariant
            0 <= m <= n,
            marks@.len() == m,
            forall|j: int| 0 <= j < m ==> !(#[trigger] marks@[j]),
        decreases n - m,
    {
        marks.push(false);
        m += 1;
    }
    let ghost mut k: nat = 0;
    assert(marked_set(marks@) =~= Set::<int>::empty());
    proof {
        lemma_marked_bound(marks@);
    }
    let mut changed = true;
    while changed
        invariant
            n == rules@.len(),
            rv == syntax_rules_view(rules@),
            lv == lexical_rules_view(lexical@),
            inlined_lexical(lv),
            marks@.len() == n,
            marked_set(marks@).subset_of(nullable_within(rv, lv, k)),
            !changed ==> forall|i: int| 0 <= i < n && !marks@[i]
                ==> !rule_nullable_under(rv, lv, marked_set(marks@), i),
            marked(marks@) <= n,
        decreases 2 * (n - marked(marks@)) + if changed { 1int } else { 0int },
    {
        let ghost start = marks@;
        let mut round_changed = false;
        let mut i: usize = 0;
        while i < n
            invariant
                0 <= i <= n,
                n == rules@.len(),
                rv == syntax_rules_view(rules@),
                lv == lexical_rules_view(lexical@),
                inlined_lexical(lv),
                marks@.len() == n,
                marked_set(marks@).subset_of(nullable_within(rv, lv, k)),
                marked(marks@) <= n,
                round_changed ==> marked(marks@) > marked(start),
                !round_changed ==> marks@ == start,
                !round_changed ==> forall|j: int| 0 <= j < i && !marks@[j]
                    ==> !rule_nullable_under(rv, lv, marked_set(marks@), j),
            decreases n - i,
        {
            if !marks[i] {
                if rule_is_nullable(rules, lexical, &marks, i) {
                    let ghost before = marks@;
                    proof {
                        lemma_rule_monotone(rv, lv, marked_set(before), nullable_within(rv, lv, k), i as int);
                        lemma_within_grows(rv, lv, k);
                        assert(((k + 1) - 1) as nat == k);
                        assert(nullable_within(rv, lv, k + 1).contains(i as int));
                        lemma_mark(before, i as int);
                    }
                    marks.set(i, true);
                    proof {
                        assert(marks@ == before.update(i as int, true));
                        assert(marked_set(marks@) =~= marked_set(before).insert(i as int));
                        k = k + 1;
                        lemma_marked_bound(marks@);
                    }
                    round_changed = true;
                }
            }
            i += 1;
        }
        changed = round_changed;
    }
    proof {
        let ms = marked_set(marks@);
        lemma_within_marked(rv, lv, ms, 0);
        assert forall|i: int| 0 <= i < n implies (#[trigger] marks@[i] <==> rule_nullable(rv, lv, i)) by {
            if marks@[i] {
                assert(ms.contains(i));
                assert(nullable_within(rv, lv, k).contains(i));
            }
            if rule_nullable(rv, lv, i) {
                let j = choose|j: nat| #[trigger] nullable_within(rv, lv, j).contains(i);
                lemma_within_marked(rv, lv, ms, j);
                assert(ms.contains(i));
            }
        }
    }
    marks
}

/// Whether an alternative derives the empty string, given which rules do
/// (`nullables`, as `nullable_rules` computes it): whether all of its
/// symbols do.
pub fn alternative_is_nullable(
    rules: &Vec<SyntaxRule>,
    lexical: &Vec<LexicalRule>,
    nullables: &Vec<bool>,
    alternative: &Alternative,
) -> (r: bool)
    requires
        nullables@.len() == rules@.len(),
        inlined_lexical(lexical_rules_view(lexical@)),
    ensures
        r == all_nullable(syntax_rules_view(rules@), lexical_rules_view(lexical@), marked_set(nullables@), alternative@.symbols),
{
    all_are_nullable(rules, lexical, nullables, &alternative.symbols)
}

} // verus!
