//! Which rules the alternatives of a rule lead to, directly or through other
//! rules.
use vstd::prelude::*;
use crate::grammar::def::{
    rule_alternatives, syntax_rules_view, Alternative, SpecAlternative, SpecSyntaxRule, SyntaxRule,
};
use crate::grammar::symbols::{symbols_view, Identifier, SpecIdentifier, SpecSymbol, Symbol};
use crate::grammar::visit::identifier_refs_view;
use crate::text::str_eq;

verus! {

broadcast use vstd::std_specs::vec::axiom_vec_index_decreases;

// ---------------------------------------------------------------------------
// The graph

/// The references through which a symbol leads to a rule: its name or its
/// call's name, and those of the symbols inside it. The separator of a
/// repetition, a literal, a condition and a return lead nowhere.
pub open spec fn symbol_targets(s: SpecSymbol) -> Seq<SpecIdentifier>
    decreases s, 1int,
{
    match s {
        SpecSymbol::Identifier(id) => seq![id],
        SpecSymbol::Call { name, .. } => seq![name],
        SpecSymbol::Group(symbols) => symbols_targets(symbols),
        SpecSymbol::Alt(symbols) => symbols_targets(symbols),
        SpecSymbol::Opt(inner) => symbol_targets(*inner),
        SpecSymbol::Star(inner, _) => symbol_targets(*inner),
        SpecSymbol::Plus(inner, _) => symbol_targets(*inner),
        SpecSymbol::Labeled { symbol, .. } => symbol_targets(*symbol),
        SpecSymbol::Binding { symbol, .. } => symbol_targets(*symbol),
        SpecSymbol::Restricted { symbol, .. } => symbol_targets(*symbol),
        SpecSymbol::Exclude { symbol, .. } => symbol_targets(*symbol),
        _ => Seq::empty(),
    }
}

/// The targets of `symbols`, one after the other.
pub open spec fn symbols_targets(symbols: Seq<SpecSymbol>) -> Seq<SpecIdentifier>
    decreases symbols, 0int,
{
    if symbols.len() == 0 {
        Seq::empty()
    } else {
        symbols_targets(symbols.drop_last()) + symbol_targets(symbols.last())
    }
}

/// The targets of the symbols of `alts`, alternative after alternative.
pub open spec fn alternatives_targets(alts: Seq<SpecAlternative>) -> Seq<SpecIdentifier>
    decreases alts.len(),
{
    if alts.len() == 0 {
        Seq::empty()
    } else {
        alternatives_targets(alts.drop_last()) + symbols_targets(alts.last().symbols)
    }
}

/// The targets of every alternative of a rule.
pub open spec fn rule_targets(rule: SpecSyntaxRule) -> Seq<SpecIdentifier> {
    alternatives_targets(rule_alternatives(rule.priority_levels))
}

/// Whether an alternative of rule `i` refers to the head of rule `j`.
pub open spec fn steps_to(rules: Seq<SpecSyntaxRule>, i: int, j: int) -> bool {
    &&& 0 <= i < rules.len()
    &&& 0 <= j < rules.len()
    &&& exists|t: int| 0 <= t < rule_targets(rules[i]).len()
        && #[trigger] rule_targets(rules[i])[t].name == rules[j].head.name
}

/// Whether `path` is a chain of steps that starts from rule `i`: its first
/// rule is referred to by rule `i`, and each further one by the one before.
pub open spec fn is_chain(rules: Seq<SpecSyntaxRule>, i: int, path: Seq<int>) -> bool {
    forall|k: int| 0 <= k < path.len()
        ==> steps_to(rules, if k == 0 { i } else { path[k - 1] }, #[trigger] path[k])
}

/// Whether rule `j` is reached from rule `i` in one step or more.
pub open spec fn reaches(rules: Seq<SpecSyntaxRule>, i: int, j: int) -> bool {
    exists|path: Seq<int>| #[trigger] is_chain(rules, i, path) && path.len() > 0 && path.last() == j
}

/// Reaching is transitive: a rule reached from one that rule `i` reaches is
/// reached from rule `i` too.
pub proof fn reachability_is_transitive(rules: Seq<SpecSyntaxRule>, i: int, j: int, k: int)
    requires
        reaches(rules, i, j),
        reaches(rules, j, k),
    ensures
        reaches(rules, i, k),
{
    let p = choose|path: Seq<int>| #[trigger] is_chain(rules, i, path) && path.len() > 0 && path.last() == j;
    let q = choose|path: Seq<int>| #[trigger] is_chain(rules, j, path) && path.len() > 0 && path.last() == k;
    let r = p + q;
    assert forall|m: int| 0 <= m < r.len()
        implies steps_to(rules, if m == 0 { i } else { r[m - 1] }, #[trigger] r[m]) by {
        if m < p.len() {
            assert(r[m] == p[m]);
            if m > 0 {
                assert(r[m - 1] == p[m - 1]);
            }
        } else {
            let n = m - p.len();
            assert(r[m] == q[n]);
            assert(steps_to(rules, if n == 0 { j } else { q[n - 1] }, q[n]));
            if n > 0 {
                assert(r[m - 1] == q[n - 1]);
            } else {
                assert(r[m - 1] == p.last());
            }
        }
    }
    assert(is_chain(rules, i, r));
    assert(r.last() == q.last());
}

proof fn lemma_step_reaches(rules: Seq<SpecSyntaxRule>, i: int, j: int)
    requires
        steps_to(rules, i, j),
    ensures
        reaches(rules, i, j),
{
    let path = seq![j];
    assert(is_chain(rules, i, path));
}

proof fn lemma_extend_reach(rules: Seq<SpecSyntaxRule>, i: int, k: int, j: int)
    requires
        reaches(rules, i, k),
        steps_to(rules, k, j),
    ensures
        reaches(rules, i, j),
{
    let p = choose|path: Seq<int>| #[trigger] is_chain(rules, i, path) && path.len() > 0 && path.last() == k;
    let r = p.push(j);
    assert forall|m: int| 0 <= m < r.len()
        implies steps_to(rules, if m == 0 { i } else { r[m - 1] }, #[trigger] r[m]) by {
        if m < p.len() {
            assert(r[m] == p[m]);
            if m > 0 {
                assert(r[m - 1] == p[m - 1]);
            }
        } else {
            assert(r[m - 1] == p.last());
        }
    }
    assert(is_chain(rules, i, r));
}

// ---------------------------------------------------------------------------
// Targets

fn collect_symbol_targets<'a>(symbol: &'a Symbol, out: &mut Vec<&'a Identifier>)
    ensures
        identifier_refs_view(final(out)@) == identifier_refs_view(old(out)@) + symbol_targets(symbol@),
    decreases symbol, 1int,
{
    let ghost start = identifier_refs_view(out@);
    match symbol {
        Symbol::Identifier(id) => {
            out.push(id);
        },
        Symbol::Call { name, .. } => {
            out.push(name);
        },
        Symbol::Group(symbols) => collect_symbols_targets(symbols, out),
        Symbol::Alt(symbols) => collect_symbols_targets(symbols, out),
        Symbol::Opt(inner) => collect_symbol_targets(&**inner, out),
        Symbol::Star(inner, _) => collect_symbol_targets(&**inner, out),
        Symbol::Plus(inner, _) => collect_symbol_targets(&**inner, out),
        Symbol::Labeled { symbol: inner, .. } => collect_symbol_targets(&**inner, out),
        Symbol::Binding { symbol: inner, .. } => collect_symbol_targets(&**inner, out),
        Symbol::Restricted { symbol: inner, .. } => collect_symbol_targets(&**inner, out),
        Symbol::Exclude { symbol: inner, .. } => collect_symbol_targets(&**inner, out),
        _ => {},
    }
    assert(identifier_refs_view(out@) =~= start + symbol_targets(symbol@));
}

fn collect_symbols_targets<'a>(symbols: &'a Vec<Symbol>, out: &mut Vec<&'a Identifier>)
    ensures
        identifier_refs_view(final(out)@) == identifier_refs_view(old(out)@) + symbols_targets(symbols_view(symbols@)),
    decreases symbols, 0int,
{
    let ghost start = identifier_refs_view(out@);
    let mut i: usize = 0;
    while i < symbols.len()
        invariant
            0 <= i <= symbols@.len(),
            identifier_refs_view(out@) == start + symbols_targets(symbols_view(symbols@.take(i as int))),
        decreases symbols@.len() - i,
    {
        proof {
            assert(decreases_to!(*symbols => symbols@[i as int]));
        }
        collect_symbol_targets(&symbols[i], out);
        proof {
            let t = symbols@.take(i + 1);
            assert(t.drop_last() =~= symbols@.take(i as int));
            let v = symbols_view(t);
            assert(v.drop_last() =~= symbols_view(symbols@.take(i as int)));
            assert(identifier_refs_view(out@) =~= start + symbols_targets(v));
        }
        i += 1;
    }
    assert(symbols@.take(i as int) =~= symbols@);
}

fn rule_target_refs(rule: &SyntaxRule) -> (ids: Vec<&Identifier>)
    ensures
        identifier_refs_view(ids@) == rule_targets(rule@),
{
    let alternatives = rule.alternatives();
    let ghost views = alternatives@.map_values(|a: &Alternative| a@);
    let mut out: Vec<&Identifier> = Vec::new();
    let mut i: usize = 0;
    while i < alternatives.len()
        invariant
            0 <= i <= alternatives@.len(),
            views == alternatives@.map_values(|a: &Alternative| a@),
            views == rule_alternatives(rule@.priority_levels),
            identifier_refs_view(out@) == alternatives_targets(views.take(i as int)),
        decreases alternatives@.len() - i,
    {
        let alternative: &Alternative = alternatives[i];
        collect_symbols_targets(&alternative.symbols, &mut out);
        proof {
            let t = views.take(i + 1);
            assert(t.drop_last() =~= views.take(i as int));
            assert(t.last() == alternative@);
            assert(identifier_refs_view(out@) =~= alternatives_targets(t));
        }
        i += 1;
    }
    assert(views.take(i as int) =~= views);
    out
}


/// Whether `succ` lists, for each rule, the rules it steps to: every listed
/// rule is one, and every one is listed.
pub open spec fn lists_steps(rules: Seq<SpecSyntaxRule>, succ: Seq<Vec<usize>>) -> bool {
    &&& succ.len() == rules.len()
    &&& forall|i: int, t: int| 0 <= i < rules.len() && 0 <= t < succ[i]@.len()
        ==> (#[trigger] succ[i]@[t]) < rules.len() && steps_to(rules, i, succ[i]@[t] as int)
    &&& forall|i: int, j: int| #[trigger] steps_to(rules, i, j)
        ==> exists|t: int| 0 <= t < succ[i]@.len() && #[trigger] succ[i]@[t] == j
}

/// The rules that rule `i` steps to, in rule order.
fn steps_of(rules: &Vec<SyntaxRule>, i: usize) -> (succ: Vec<usize>)
    requires
        i < rules.len(),
    ensures
        forall|t: int| 0 <= t < succ@.len()
            ==> (#[trigger] succ@[t]) < rules.len() && steps_to(syntax_rules_view(rules@), i as int, succ@[t] as int),
        forall|j: int| steps_to(syntax_rules_view(rules@), i as int, j)
            ==> exists|t: int| 0 <= t < succ@.len() && #[trigger] succ@[t] == j,
{
    let ghost rv = syntax_rules_view(rules@);
    let targets = rule_target_refs(&rules[i]);
    let ghost tv = identifier_refs_view(targets@);
    assert(rv[i as int] == rules@[i as int]@);
    assert(tv == rule_targets(rv[i as int]));
    let mut succ: Vec<usize> = Vec::new();
    let mut j: usize = 0;
    while j < rules.len()
        invariant
            0 <= j <= rules@.len(),
            i < rules@.len(),
            rv == syntax_rules_view(rules@),
            tv == identifier_refs_view(targets@),
            tv == rule_targets(rv[i as int]),
            forall|t: int| 0 <= t < succ@.len()
                ==> (#[trigger] succ@[t]) < j && steps_to(rv, i as int, succ@[t] as int),
            forall|m: int| 0 <= m < j && steps_to(rv, i as int, m)
                ==> exists|t: int| 0 <= t < succ@.len() && #[trigger] succ@[t] == m,
        decreases rules@.len() - j,
    {
        let head: &str = rules[j].head.name.as_str();
        assert(rv[j as int] == rules@[j as int]@);
        let mut found = false;
        let mut t: usize = 0;
        while t < targets.len()
            invariant
                0 <= t <= targets@.len(),
                j < rv.len(),
                tv == identifier_refs_view(targets@),
                head@ == rv[j as int].head.name,
                found <==> exists|u: int| 0 <= u < t && #[trigger] tv[u].name == head@,
            decreases targets@.len() - t,
        {
            assert(tv[t as int] == targets@[t as int]@);
            let name: &str = targets[t].name.as_str();
            assert(name@ == tv[t as int].name);
            let same = str_eq(name, head);
            if same {
                found = true;
            }
            assert(tv.len() == targets@.len());
            assert(found <==> exists|u: int| 0 <= u < t + 1 && #[trigger] tv[u].name == head@) by {
                if found && !same {
                    let u = choose|u: int| 0 <= u < t && #[trigger] tv[u].name == head@;
                    assert(0 <= u < t + 1);
                }
                if same {
                    assert(tv[t as int].name == head@);
                }
                if !found {
                    assert forall|u: int| 0 <= u < t + 1 implies #[trigger] tv[u].name != head@ by {
                        if u == t {
                        } else {
                        }
                    }
                }
            }
            t += 1;
        }
        proof {
            if found {
                let u = choose|u: int| 0 <= u < t && #[trigger] tv[u].name == head@;
                assert(rule_targets(rv[i as int])[u].name == rv[j as int].head.name);
                assert(steps_to(rv, i as int, j as int));
            } else {
                assert(!steps_to(rv, i as int, j as int)) by {
                    if steps_to(rv, i as int, j as int) {
                        let u = choose|u: int| 0 <= u < rule_targets(rv[i as int]).len()
                            && #[trigger] rule_targets(rv[i as int])[u].name == rv[j as int].head.name;
                        assert(tv[u].name == head@);
                    }
                }
            }
        }
        if found {
            let ghost before = succ@;
            succ.push(j);
            proof {
                assert(succ@[before.len() as int] == j);
                assert forall|m: int| 0 <= m < j + 1 && steps_to(rv, i as int, m)
                    implies exists|t: int| 0 <= t < succ@.len() && #[trigger] succ@[t] == m by {
                    if m < j {
                        let t = choose|t: int| 0 <= t < before.len() && #[trigger] before[t] == m;
                        assert(succ@[t] == m);
                    } else {
                        assert(succ@[before.len() as int] == m);
                    }
                }
            }
        }
        j += 1;
    }
    succ
}

/// The number of marked entries.
pub(crate) open spec fn marked(v: Seq<bool>) -> nat
    decreases v.len(),
{
    if v.len() == 0 {
        0
    } else {
        marked(v.drop_last()) + if v.last() { 1nat } else { 0nat }
    }
}

pub(crate) proof fn lemma_marked_bound(v: Seq<bool>)
    ensures
        marked(v) <= v.len(),
    decreases v.len(),
{
    if v.len() > 0 {
        lemma_marked_bound(v.drop_last());
    }
}

pub(crate) proof fn lemma_mark(v: Seq<bool>, j: int)
    requires
        0 <= j < v.len(),
        !v[j],
    ensures
        marked(v.update(j, true)) == marked(v) + 1,
    decreases v.len(),
{
    let w = v.update(j, true);
    if j == v.len() - 1 {
        assert(w.drop_last() =~= v.drop_last());
    } else {
        assert(w.drop_last() =~= v.drop_last().update(j, true));
        lemma_mark(v.drop_last(), j);
    }
}

/// Marks the unmarked rules that rule `k` steps to and pushes them on the
/// stack, in the order of `succ[k]`.
fn expand(
    succ: &Vec<Vec<usize>>,
    k: usize,
    visited: &mut Vec<bool>,
    stack: &mut Vec<usize>,
    Ghost(rules): Ghost<Seq<SpecSyntaxRule>>,
)
    requires
        lists_steps(rules, succ@),
        k < rules.len(),
        old(visited)@.len() == rules.len(),
        forall|t: int| 0 <= t < old(stack)@.len() ==> (#[trigger] old(stack)@[t]) < rules.len()
            && old(visited)@[old(stack)@[t] as int],
        old(stack)@.no_duplicates(),
    ensures
        final(visited)@.len() == rules.len(),
        forall|j: int| 0 <= j < rules.len() && old(visited)@[j] ==> #[trigger] final(visited)@[j],
        forall|j: int| 0 <= j < rules.len() && #[trigger] final(visited)@[j] && !old(visited)@[j]
            ==> steps_to(rules, k as int, j) && final(stack)@.contains(j as usize),
        forall|t: int| 0 <= t < succ@[k as int]@.len() ==> final(visited)@[#[trigger] succ@[k as int]@[t] as int],
        final(stack)@.len() >= old(stack)@.len(),
        final(stack)@.take(old(stack)@.len() as int) == old(stack)@,
        forall|t: int| old(stack)@.len() <= t < final(stack)@.len()
            ==> !old(visited)@[#[trigger] final(stack)@[t] as int],
        forall|t: int| 0 <= t < final(stack)@.len() ==> (#[trigger] final(stack)@[t]) < rules.len()
            && final(visited)@[final(stack)@[t] as int],
        final(stack)@.no_duplicates(),
        marked(final(visited)@) == marked(old(visited)@) + (final(stack)@.len() - old(stack)@.len()),
{
    let ghost v0 = visited@;
    let ghost s0 = stack@;
    let next: &Vec<usize> = &succ[k];
    let mut t: usize = 0;
    while t < next.len()
        invariant
            0 <= t <= next@.len(),
            lists_steps(rules, succ@),
            k < rules.len(),
            next@ == succ@[k as int]@,
            visited@.len() == rules.len(),
            forall|j: int| 0 <= j < rules.len() && v0[j] ==> #[trigger] visited@[j],
            forall|j: int| 0 <= j < rules.len() && #[trigger] visited@[j] && !v0[j]
                ==> steps_to(rules, k as int, j) && stack@.contains(j as usize),
            forall|u: int| 0 <= u < t ==> visited@[#[trigger] next@[u] as int],
            stack@.len() >= s0.len(),
            stack@.take(s0.len() as int) == s0,
            forall|u: int| s0.len() <= u < stack@.len() ==> !v0[#[trigger] stack@[u] as int],
            forall|u: int| 0 <= u < stack@.len() ==> (#[trigger] stack@[u]) < rules.len()
                && visited@[stack@[u] as int],
            stack@.no_duplicates(),
            marked(visited@) == marked(v0) + (stack@.len() - s0.len()),
        decreases next@.len() - t,
    {
        let j = next[t];
        assert(j < rules.len() && steps_to(rules, k as int, j as int));
        if !visited[j] {
            let ghost vb = visited@;
            let ghost sb = stack@;
            proof {
                lemma_mark(vb, j as int);
                assert(!sb.contains(j)) by {
                    if sb.contains(j) {
                        let u = choose|u: int| 0 <= u < sb.len() && sb[u] == j;
                        assert(vb[sb[u] as int]);
                    }
                }
            }
            visited.set(j, true);
            stack.push(j);
            proof {
                assert(visited@ == vb.update(j as int, true));
                assert(stack@ == sb.push(j));
                assert(stack@.take(s0.len() as int) =~= sb.take(s0.len() as int));
                assert(!v0[j as int]);
                assert forall|a: int, b: int| 0 <= a < b < stack@.len() implies stack@[a] != stack@[b] by {
                    if b == sb.len() {
                        assert(stack@[a] == sb[a]);
                    } else {
                        assert(stack@[a] == sb[a] && stack@[b] == sb[b]);
                    }
                }
                assert forall|m: int| 0 <= m < rules.len() && #[trigger] visited@[m] && !v0[m]
                    implies steps_to(rules, k as int, m) && stack@.contains(m as usize) by {
                    if m == j {
                        assert(stack@[sb.len() as int] == j);
                    } else {
                        assert(vb[m]);
                        let u = choose|u: int| 0 <= u < sb.len() && sb[u] == m as usize;
                        assert(stack@[u] == m as usize);
                    }
                }
            }
        }
        t += 1;
    }
}

/// Which rules rule `i` reaches, given the steps of every rule.
fn reachable_from(succ: &Vec<Vec<usize>>, i: usize, n: usize, Ghost(rules): Ghost<Seq<SpecSyntaxRule>>) -> (visited: Vec<bool>)
    requires
        lists_steps(rules, succ@),
        n == rules.len(),
        i < n,
    ensures
        visited@.len() == n,
        forall|j: int| 0 <= j < n ==> (#[trigger] visited@[j] <==> reaches(rules, i as int, j)),
{
    let mut visited: Vec<bool> = Vec::new();
    let mut m: usize = 0;
    while m < n
        invariant
            0 <= m <= n,
            visited@.len() == m,
            forall|j: int| 0 <= j < m ==> !(#[trigger] visited@[j]),
            marked(visited@) == 0,
        decreases n - m,
    {
        let ghost before = visited@;
        visited.push(false);
        assert(visited@.drop_last() =~= before);
        m += 1;
    }
    let mut stack: Vec<usize> = Vec::new();
    let ghost v0 = visited@;
    expand(succ, i, &mut visited, &mut stack, Ghost(rules));
    proof {
        lemma_marked_bound(visited@);
        assert forall|j: int| 0 <= j < n && #[trigger] visited@[j] implies reaches(rules, i as int, j) by {
            assert(!v0[j]);
            lemma_step_reaches(rules, i as int, j);
        }
    }
    while stack.len() > 0
        invariant
            lists_steps(rules, succ@),
            n == rules.len(),
            i < n,
            visited@.len() == n,
            forall|j: int| 0 <= j < n && #[trigger] visited@[j] ==> reaches(rules, i as int, j),
            forall|t: int| 0 <= t < stack@.len() ==> (#[trigger] stack@[t]) < n && visited@[stack@[t] as int],
            stack@.no_duplicates(),
            forall|k: int, t: int| 0 <= k < n && visited@[k] && !stack@.contains(k as usize)
                && 0 <= t < succ@[k]@.len() ==> visited@[#[trigger] succ@[k]@[t] as int],
            forall|t: int| 0 <= t < succ@[i as int]@.len() ==> visited@[#[trigger] succ@[i as int]@[t] as int],
            marked(visited@) <= n,
        decreases 2 * (n - marked(visited@)) + stack@.len(),
    {
        let ghost vb = visited@;
        let ghost full = stack@;
        let k = stack.pop().unwrap();
        let ghost popped = stack@;
        proof {
            assert(full == popped.push(k));
            assert(!popped.contains(k)) by {
                if popped.contains(k) {
                    let u = choose|u: int| 0 <= u < popped.len() && popped[u] == k;
                    assert(full[u] == full[full.len() - 1]);
                }
            }
            assert(forall|u: int| 0 <= u < popped.len() ==> popped[u] == full[u]);
            assert(popped.no_duplicates());
        }
        expand(succ, k, &mut visited, &mut stack, Ghost(rules));
        proof {
            lemma_marked_bound(visited@);
            assert(vb[k as int]);
            assert forall|j: int| 0 <= j < n && #[trigger] visited@[j] implies reaches(rules, i as int, j) by {
                if !vb[j] {
                    lemma_extend_reach(rules, i as int, k as int, j);
                }
            }
            assert forall|q: int, t: int| 0 <= q < n && visited@[q] && !stack@.contains(q as usize)
                && 0 <= t < succ@[q]@.len() implies visited@[#[trigger] succ@[q]@[t] as int] by {
                if q != k as int {
                    assert(vb[q]);
                    assert(!full.contains(q as usize)) by {
                        if full.contains(q as usize) {
                            let u = choose|u: int| 0 <= u < full.len() && full[u] == q as usize;
                            if u < popped.len() {
                                assert(stack@.take(popped.len() as int)[u] == popped[u]);
                                assert(stack@[u] == q as usize);
                            }
                        }
                    }
                    assert(vb[succ@[q]@[t] as int]);
                }
            }
        }
    }
    proof {
        assert forall|j: int| 0 <= j < n && reaches(rules, i as int, j) implies #[trigger] visited@[j] by {
            let path = choose|path: Seq<int>| #[trigger] is_chain(rules, i as int, path) && path.len() > 0 && path.last() == j;
            lemma_chain_marked(rules, succ@, visited@, i as int, path, path.len() - 1);
        }
    }
    visited
}

proof fn lemma_chain_marked(rules: Seq<SpecSyntaxRule>, succ: Seq<Vec<usize>>, visited: Seq<bool>, i: int, path: Seq<int>, k: int)
    requires
        lists_steps(rules, succ),
        visited.len() == rules.len(),
        0 <= i < rules.len(),
        is_chain(rules, i, path),
        0 <= k < path.len(),
        forall|q: int, t: int| 0 <= q < rules.len() && visited[q]
            && 0 <= t < succ[q]@.len() ==> visited[#[trigger] succ[q]@[t] as int],
        forall|t: int| 0 <= t < succ[i]@.len() ==> visited[#[trigger] succ[i]@[t] as int],
    ensures
        visited[path[k]],
    decreases k,
{
    assert(steps_to(rules, if k == 0 { i } else { path[k - 1] }, path[k]));
    if k == 0 {
        assert(steps_to(rules, i, path[0]));
        let t = choose|t: int| 0 <= t < succ[i]@.len() && #[trigger] succ[i]@[t] == path[0];
        assert(visited[succ[i]@[t] as int]);
    } else {
        lemma_chain_marked(rules, succ, visited, i, path, k - 1);
        let p = path[k - 1];
        assert(steps_to(rules, p, path[k]));
        let t = choose|t: int| 0 <= t < succ[p]@.len() && #[trigger] succ[p]@[t] == path[k];
        assert(visited[succ[p]@[t] as int]);
    }
}

// ---------------------------------------------------------------------------
// The reachability graph

/// For every rule, which rules it reaches in one step or more. Each rule
/// stands for a nonterminal with all of its alternatives, so the heads are
/// meant to be distinct; a reference leads to the rule whose head bears its
/// name.
pub struct ReachabilityGraph {
    reachable: Vec<Vec<bool>>,
}

impl View for ReachabilityGraph {
    type V = Seq<Seq<bool>>;

    closed spec fn view(&self) -> Seq<Seq<bool>> {
        self.reachable@.map_values(|row: Vec<bool>| row@)
    }
}

impl ReachabilityGraph {
    /// The graph of `rules`: entry `j` of row `i` tells whether rule `i`
    /// reaches rule `j`.
    pub fn new(rules: &Vec<SyntaxRule>) -> (g: Self)
        ensures
            g@.len() == rules.len(),
            forall|i: int| 0 <= i < rules.len() ==> (#[trigger] g@[i]).len() == rules.len(),
            forall|i: int, j: int| 0 <= i < rules.len() && 0 <= j < rules.len()
                ==> (#[trigger] g@[i][j] <==> reaches(syntax_rules_view(rules@), i, j)),
    {
        let ghost rv = syntax_rules_view(rules@);
        let n = rules.len();
        let mut succ: Vec<Vec<usize>> = Vec::new();
        let mut i: usize = 0;
        while i < n
            invariant
                0 <= i <= n,
                n == rules@.len(),
                rv == syntax_rules_view(rules@),
                succ@.len() == i,
                forall|a: int, t: int| 0 <= a < i && 0 <= t < succ@[a]@.len()
                    ==> (#[trigger] succ@[a]@[t]) < n && steps_to(rv, a, succ@[a]@[t] as int),
                forall|a: int, j: int| 0 <= a < i && #[trigger] steps_to(rv, a, j)
                    ==> exists|t: int| 0 <= t < succ@[a]@.len() && #[trigger] succ@[a]@[t] == j,
            decreases n - i,
        {
            let row = steps_of(rules, i);
            let ghost before = succ@;
            succ.push(row);
            proof {
                assert(forall|a: int| 0 <= a < i ==> succ@[a] == before[a]);
                assert(succ@[i as int] == row);
            }
            i += 1;
        }
        proof {
            assert forall|a: int, j: int| #[trigger] steps_to(rv, a, j)
                implies exists|t: int| 0 <= t < succ@[a]@.len() && #[trigger] succ@[a]@[t] == j by {
                assert(0 <= a < n);
            }
            assert(lists_steps(rv, succ@));
        }
        let mut reachable: Vec<Vec<bool>> = Vec::new();
        let mut k: usize = 0;
        while k < n
            invariant
                0 <= k <= n,
                n == rules@.len(),
                n == rv.len(),
                lists_steps(rv, succ@),
                reachable@.len() == k,
                forall|a: int| 0 <= a < k ==> (#[trigger] reachable@[a])@.len() == n,
                forall|a: int, j: int| 0 <= a < k && 0 <= j < n
                    ==> (#[trigger] reachable@[a]@[j] <==> reaches(rv, a, j)),
            decreases n - k,
        {
            let row = reachable_from(&succ, k, n, Ghost(rv));
            let ghost before = reachable@;
            reachable.push(row);
            proof {
                assert(forall|a: int| 0 <= a < k ==> reachable@[a] == before[a]);
            }
            k += 1;
        }
        ReachabilityGraph { reachable }
    }

    /// The rules that rule `i` reaches, in rule order.
    pub fn reachable(&self, i: usize) -> (r: Vec<usize>)
        requires
            i < self@.len(),
        ensures
            forall|a: int, b: int| 0 <= a < b < r@.len() ==> r@[a] < r@[b],
            forall|t: int| 0 <= t < r@.len() ==> (#[trigger] r@[t]) < self@[i as int].len()
                && self@[i as int][r@[t] as int],
            forall|j: int| 0 <= j < self@[i as int].len() && #[trigger] self@[i as int][j]
                ==> r@.contains(j as usize),
    {
        let row: &Vec<bool> = &self.reachable[i];
        assert(row@ == self@[i as int]);
        let mut r: Vec<usize> = Vec::new();
        let mut j: usize = 0;
        while j < row.len()
            invariant
                0 <= j <= row@.len(),
                row@ == self@[i as int],
                forall|a: int, b: int| 0 <= a < b < r@.len() ==> r@[a] < r@[b],
                forall|t: int| 0 <= t < r@.len() ==> (#[trigger] r@[t]) < j && row@[r@[t] as int],
                forall|m: int| 0 <= m < j && #[trigger] row@[m] ==> r@.contains(m as usize),
            decreases row@.len() - j,
        {
            if row[j] {
                let ghost before = r@;
                r.push(j);
                proof {
                    assert(r@[before.len() as int] == j);
                    assert forall|m: int| 0 <= m < j + 1 && #[trigger] row@[m] implies r@.contains(m as usize) by {
                        if m < j {
                            let t = choose|t: int| 0 <= t < before.len() && before[t] == m as usize;
                            assert(r@[t] == m as usize);
                        }
                    }
                }
            }
            j += 1;
        }
        r
    }
}

} // verus!
