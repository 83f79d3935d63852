//! Inlining the references between lexical rules.
//!
//! Bodies are simplified first, so that a whole-body reference is a bare
//! reference. Restrictions are then resolved in dependency order: a rule
//! whose whole body is a reference gets its own restrictions merged with
//! those already resolved for the referenced rule. A restricted rule
//! referenced inside a larger regex is an error, since its restrictions
//! apply to a whole match. Without errors, every reference is replaced by
//! the (inlined) body of the rule it names.
use vstd::prelude::*;
use crate::grammar::def::{lexical_rules_view, LexicalRule, SpecLexicalRule};
use crate::grammar::lexical::{merge_restrictions, simplified, simplify_regex, restrictions_empty, restrictions_of, restrictions_text, LexicalRestrictions, SpecLexicalRestrictions};
use crate::grammar::regex::{mentions_identifier, regexes_view, Regex, SpecRegex};
use crate::grammar::symbols::{strings_contain, strings_view, Identifier, SpecIdentifier};
use crate::grammar::visit::{identifier_refs_view, regex_identifiers};
use crate::text::{push_str, str_eq};

verus! {

// ---------------------------------------------------------------------------
// Lookup by name

/// The index of the rule named `name` (the last one, if several), or -1.
pub open spec fn rule_index(rules: Seq<SpecLexicalRule>, name: Seq<char>) -> int
    decreases rules.len(),
{
    if rules.len() == 0 {
        -1
    } else if rules.last().head.name == name {
        rules.len() - 1
    } else {
        rule_index(rules.drop_last(), name)
    }
}

pub proof fn lemma_rule_index(rules: Seq<SpecLexicalRule>, name: Seq<char>)
    ensures
        -1 <= rule_index(rules, name) < rules.len(),
        rule_index(rules, name) >= 0 ==> rules[rule_index(rules, name)].head.name == name,
        rule_index(rules, name) < 0 ==> forall|k: int| 0 <= k < rules.len() ==> (#[trigger] rules[k]).head.name != name,
    decreases rules.len(),
{
    if rules.len() > 0 {
        lemma_rule_index(rules.drop_last(), name);
        if rules.last().head.name != name {
            assert forall|k: int| 0 <= k < rules.len() - 1 implies rules.drop_last()[k] == #[trigger] rules[k] by {}
        }
    }
}

/// Whether no two rules share a head name.
pub open spec fn distinct_heads(rules: Seq<SpecLexicalRule>) -> bool {
    forall|i: int, j: int| 0 <= i < j < rules.len() ==> (#[trigger] rules[i]).head.name != (#[trigger] rules[j]).head.name
}

/// The rule named by the whole body of rule `k`, if its body is a reference
/// to a lexical rule.
pub open spec fn whole_body_reference(rules: Seq<SpecLexicalRule>, k: int) -> Option<int> {
    match rules[k].regex {
        SpecRegex::Identifier(id) => if rule_index(rules, id.name) >= 0 {
            Some(rule_index(rules, id.name))
        } else {
            None
        },
        _ => None,
    }
}

/// The index of the rule named `name`, the last one if several.
pub(crate) fn find_rule(rules: &Vec<LexicalRule>, name: &str) -> (r: Option<usize>)
    ensures
        match r {
            Some(k) => k as int == rule_index(lexical_rules_view(rules@), name@),
            None => rule_index(lexical_rules_view(rules@), name@) < 0,
        },
{
    let ghost rv = lexical_rules_view(rules@);
    let mut k: usize = rules.len();
    assert(rv.take(k as int) =~= rv);
    while k > 0
        invariant
            0 <= k <= rules@.len(),
            rv == lexical_rules_view(rules@),
            rv.len() == rules@.len(),
            forall|j: int| 0 <= j < rules@.len() ==> #[trigger] rv[j] == rules@[j]@,
            rule_index(rv, name@) == rule_index(rv.take(k as int), name@),
        decreases k,
    {
        assert(rv.take(k as int).drop_last() =~= rv.take(k - 1));
        assert(rv.take(k as int).last() == rules@[k - 1]@);
        if str_eq(rules[k - 1].head.name.as_str(), name) {
            return Some(k - 1);
        }
        k -= 1;
    }
    None
}

// ---------------------------------------------------------------------------
// Dependency order

/// The number of rules not placed yet.
pub open spec fn unplaced(placed: Seq<bool>) -> nat
    decreases placed.len(),
{
    if placed.len() == 0 {
        0
    } else {
        unplaced(placed.drop_last()) + if placed.last() { 0nat } else { 1nat }
    }
}

pub proof fn lemma_unplaced_mark(placed: Seq<bool>, k: int)
    requires
        0 <= k < placed.len(),
        !placed[k],
    ensures
        unplaced(placed.update(k, true)) + 1 == unplaced(placed),
    decreases placed.len(),
{
    let marked = placed.update(k, true);
    if k == placed.len() - 1 {
        assert(marked.drop_last() =~= placed.drop_last());
    } else {
        assert(marked.drop_last() =~= placed.drop_last().update(k, true));
        lemma_unplaced_mark(placed.drop_last(), k);
    }
}

/// Places rule `k` after the chain of whole-body references that it starts:
/// the referenced rule first, then `k`. A rule already placed ends the chain.
/// The flags after, and the rules placed, in order.
pub open spec fn place_order(rules: Seq<SpecLexicalRule>, k: int, placed: Seq<bool>) -> (Seq<bool>, Seq<int>)
    decreases unplaced(placed),
{
    if !(0 <= k < placed.len()) || placed[k] || placed.len() != rules.len() {
        (placed, Seq::empty())
    } else {
        let marked = placed.update(k, true);
        proof {
            lemma_unplaced_mark(placed, k);
        }
        match whole_body_reference(rules, k) {
            Some(j) => {
                let (after, order) = place_order(rules, j, marked);
                (after, order.push(k))
            },
            None => (marked, seq![k]),
        }
    }
}

/// Placing the first `m` rules in turn.
pub open spec fn dependency_prefix(rules: Seq<SpecLexicalRule>, m: nat) -> (Seq<bool>, Seq<int>)
    decreases m,
{
    if m == 0 {
        (Seq::new(rules.len(), |i: int| false), Seq::empty())
    } else {
        let (placed, order) = dependency_prefix(rules, (m - 1) as nat);
        let (after, more) = place_order(rules, m - 1, placed);
        (after, order + more)
    }
}

/// The rules in dependency order: a rule whose whole body is a reference
/// comes after the rule it references.
pub open spec fn dependency_order_of(rules: Seq<SpecLexicalRule>) -> Seq<int> {
    dependency_prefix(rules, rules.len()).1
}

/// What placing keeps: a rule is placed exactly when it is in the order or
/// on the chain being placed (`pending`); the order holds valid indices, each
/// once, none of them pending.
pub open spec fn placement_invariant(n: int, placed: Seq<bool>, order: Seq<int>, pending: Set<int>) -> bool {
    &&& placed.len() == n
    &&& forall|i: int| 0 <= i < order.len() ==> 0 <= #[trigger] order[i] < n
    &&& forall|i: int| 0 <= i < n ==> (#[trigger] placed[i] <==> (order.contains(i) || pending.contains(i)))
    &&& forall|i: int| order.contains(i) ==> !pending.contains(i)
    &&& order.no_duplicates()
}

proof fn lemma_place_order(rules: Seq<SpecLexicalRule>, k: int, placed: Seq<bool>, order: Seq<int>, pending: Set<int>)
    requires
        placement_invariant(rules.len() as int, placed, order, pending),
        0 <= k < rules.len(),
    ensures
        placement_invariant(rules.len() as int, place_order(rules, k, placed).0, order + place_order(rules, k, placed).1, pending),
        place_order(rules, k, placed).0[k],
        forall|i: int| 0 <= i < rules.len() && placed[i] ==> #[trigger] place_order(rules, k, placed).0[i],
    decreases unplaced(placed),
{
    let n = rules.len() as int;
    if placed[k] {
        assert(order + Seq::<int>::empty() =~= order);
    } else {
        let marked = placed.update(k, true);
        lemma_unplaced_mark(placed, k);
        assert(!order.contains(k));
        assert(placement_invariant(n, marked, order, pending.insert(k)));
        match whole_body_reference(rules, k) {
            Some(j) => {
                lemma_rule_index(rules, rules[k].regex->Identifier_0.name);
                lemma_place_order(rules, j, marked, order, pending.insert(k));
                let (after, more0) = place_order(rules, j, marked);
                let o1 = order + more0;
                let o2 = o1.push(k);
                assert(order + more0.push(k) =~= o2);
                assert(!o1.contains(k));
                assert forall|i: int| #[trigger] o2.contains(i) implies (o1.contains(i) || i == k) by {
                    let w = choose|w: int| 0 <= w < o2.len() && o2[w] == i;
                    if w < o1.len() { assert(o1[w] == i); }
                }
                assert forall|i: int| o1.contains(i) implies #[trigger] o2.contains(i) by {
                    let w = choose|w: int| 0 <= w < o1.len() && o1[w] == i;
                    assert(o2[w] == i);
                }
                assert(o2[o1.len() as int] == k);
                assert forall|a: int, b: int| 0 <= a < b < o2.len() implies o2[a] != o2[b] by {
                    if b == o1.len() {
                        assert(o1[a] == o2[a]);
                    }
                }
                assert(placement_invariant(n, after, o2, pending));
            },
            None => {
                let o2 = order.push(k);
                assert(order + seq![k] =~= o2);
                assert forall|i: int| #[trigger] o2.contains(i) implies (order.contains(i) || i == k) by {
                    let w = choose|w: int| 0 <= w < o2.len() && o2[w] == i;
                    if w < order.len() { assert(order[w] == i); }
                }
                assert forall|i: int| order.contains(i) implies #[trigger] o2.contains(i) by {
                    let w = choose|w: int| 0 <= w < order.len() && order[w] == i;
                    assert(o2[w] == i);
                }
                assert(o2[order.len() as int] == k);
                assert forall|a: int, b: int| 0 <= a < b < o2.len() implies o2[a] != o2[b] by {
                    if b == order.len() {
                        assert(order[a] == o2[a]);
                    }
                }
                assert(placement_invariant(n, marked, o2, pending));
            },
        }
    }
}

/// After placing the first `m` rules, each of them is in the order, and the
/// order holds valid indices, each once.
proof fn lemma_dependency_prefix(rules: Seq<SpecLexicalRule>, m: nat)
    requires
        m <= rules.len(),
    ensures
        placement_invariant(rules.len() as int, dependency_prefix(rules, m).0, dependency_prefix(rules, m).1, Set::empty()),
        forall|i: int| 0 <= i < m ==> #[trigger] dependency_prefix(rules, m).0[i],
    decreases m,
{
    if m > 0 {
        lemma_dependency_prefix(rules, (m - 1) as nat);
        let (placed, order) = dependency_prefix(rules, (m - 1) as nat);
        lemma_place_order(rules, m - 1, placed, order, Set::empty());
    }
}

/// The dependency order holds every rule exactly once.
pub proof fn lemma_dependency_order(rules: Seq<SpecLexicalRule>)
    ensures
        dependency_order_of(rules).no_duplicates(),
        forall|i: int| 0 <= i < dependency_order_of(rules).len() ==> 0 <= #[trigger] dependency_order_of(rules)[i] < rules.len(),
        forall|k: int| 0 <= k < rules.len() ==> #[trigger] dependency_order_of(rules).contains(k),
{
    lemma_dependency_prefix(rules, rules.len());
    let (placed, order) = dependency_prefix(rules, rules.len());
    assert forall|k: int| 0 <= k < rules.len() implies #[trigger] order.contains(k) by {
        assert(placed[k]);
    }
}

/// An optional index as an integer.
pub open spec fn index_view(i: Option<usize>) -> Option<int> {
    match i {
        Some(k) => Some(k as int),
        None => None,
    }
}

/// Indices as integers.
pub open spec fn indices_view(v: Seq<usize>) -> Seq<int> {
    v.map_values(|k: usize| k as int)
}

/// For each rule, the rule that its whole body names; see
/// `whole_body_reference`.
fn whole_body_references(rules: &Vec<LexicalRule>) -> (r: Vec<Option<usize>>)
    ensures
        r@.len() == rules@.len(),
        forall|k: int| 0 <= k < rules@.len() ==> #[trigger] index_view(r@[k]) == whole_body_reference(lexical_rules_view(rules@), k),
{
    let ghost rv = lexical_rules_view(rules@);
    let mut out: Vec<Option<usize>> = Vec::new();
    let mut k: usize = 0;
    while k < rules.len()
        invariant
            0 <= k <= rules@.len(),
            rv == lexical_rules_view(rules@),
            out@.len() == k,
            forall|i: int| 0 <= i < k ==> #[trigger] index_view(out@[i]) == whole_body_reference(rv, i),
        decreases rules@.len() - k,
    {
        assert(rv[k as int] == rules@[k as int]@);
        let r = match &rules[k].regex {
            Regex::Identifier(id) => find_rule(rules, id.name.as_str()),
            _ => None,
        };
        out.push(r);
        k += 1;
    }
    out
}

/// Places rule `k` and the chain of whole-body references below it; see
/// `place_order`.
fn place(k: usize, references: &Vec<Option<usize>>, placed: &mut Vec<bool>, order: &mut Vec<usize>, Ghost(rules): Ghost<Seq<SpecLexicalRule>>)
    requires
        old(placed)@.len() == rules.len(),
        references@.len() == rules.len(),
        k < rules.len(),
        forall|i: int| 0 <= i < rules.len() ==> #[trigger] index_view(references@[i]) == whole_body_reference(rules, i),
    ensures
        final(placed)@ == place_order(rules, k as int, old(placed)@).0,
        indices_view(final(order)@) == indices_view(old(order)@) + place_order(rules, k as int, old(placed)@).1,
    decreases unplaced(old(placed)@),
{
    if placed[k] {
        assert(indices_view(order@) + Seq::<int>::empty() =~= indices_view(order@));
        return;
    }
    let ghost start = placed@;
    let ghost before = indices_view(order@);
    proof { lemma_unplaced_mark(start, k as int); }
    placed[k] = true;
    assert(placed@ == start.update(k as int, true));
    match references[k] {
        Some(j) => {
            assert(index_view(references@[k as int]) == whole_body_reference(rules, k as int));
            proof { lemma_rule_index(rules, rules[k as int].regex->Identifier_0.name); }
            place(j, references, placed, order, Ghost(rules));
        },
        None => {
            assert(index_view(references@[k as int]) == whole_body_reference(rules, k as int));
        },
    }
    let ghost mid = order@;
    order.push(k);
    assert(indices_view(order@) =~= indices_view(mid).push(k as int));
    assert(indices_view(order@) =~= before + place_order(rules, k as int, start).1);
}

/// The rules in dependency order; see `dependency_order_of`.
fn dependency_order(rules: &Vec<LexicalRule>) -> (order: Vec<usize>)
    ensures
        indices_view(order@) == dependency_order_of(lexical_rules_view(rules@)),
{
    let ghost rv = lexical_rules_view(rules@);
    let references = whole_body_references(rules);
    let n = rules.len();
    let mut placed: Vec<bool> = Vec::new();
    let mut i: usize = 0;
    while i < n
        invariant
            0 <= i <= n,
            n == rules@.len(),
            placed@ =~= Seq::new(i as nat, |j: int| false),
        decreases n - i,
    {
        placed.push(false);
        i += 1;
    }
    let mut order: Vec<usize> = Vec::new();
    let mut m: usize = 0;
    assert(indices_view(order@) =~= Seq::<int>::empty());
    while m < n
        invariant
            0 <= m <= n,
            n == rules@.len(),
            rv == lexical_rules_view(rules@),
            references@.len() == n,
            forall|i: int| 0 <= i < n ==> #[trigger] index_view(references@[i]) == whole_body_reference(rv, i),
            placed@ == dependency_prefix(rv, m as nat).0,
            indices_view(order@) == dependency_prefix(rv, m as nat).1,
        decreases n - m,
    {
        proof {
            lemma_dependency_prefix(rv, m as nat);
        }
        place(m, &references, &mut placed, &mut order, Ghost(rv));
        m += 1;
    }
    order
}

// ---------------------------------------------------------------------------
// Resolving restrictions

/// Resolved restrictions by rule, as views.
pub open spec fn resolved_view(v: Seq<Option<LexicalRestrictions>>) -> Seq<Option<SpecLexicalRestrictions>> {
    v.map_values(|o: Option<LexicalRestrictions>| match o {
        Some(r) => Some(r@),
        None => None,
    })
}

/// Resolving the rules at the first `m` positions of `order`: each gets its
/// own restrictions, merged with those already resolved for the rule that its
/// whole body names. The restrictions by rule, and the errors of the merges.
pub open spec fn resolve_prefix(rules: Seq<SpecLexicalRule>, order: Seq<int>, m: nat)
    -> (Seq<Option<SpecLexicalRestrictions>>, Seq<Seq<char>>)
    decreases m,
{
    if m == 0 {
        (Seq::new(rules.len(), |i: int| None), Seq::empty())
    } else {
        let (resolved, errors) = resolve_prefix(rules, order, (m - 1) as nat);
        let k = order[m - 1];
        let own = restrictions_of(rules[k]);
        let (r, e) = match whole_body_reference(rules, k) {
            Some(j) => match resolved[j] {
                Some(prev) => merge_restrictions(own, prev, rules[k].head.name),
                None => (own, Seq::empty()),
            },
            None => (own, Seq::empty()),
        };
        (resolved.update(k, Some(r)), errors + e)
    }
}

/// Resolving every rule in dependency order.
pub open spec fn resolution(rules: Seq<SpecLexicalRule>) -> (Seq<Option<SpecLexicalRestrictions>>, Seq<Seq<char>>) {
    let order = dependency_order_of(rules);
    resolve_prefix(rules, order, order.len())
}

proof fn lemma_resolve_prefix(rules: Seq<SpecLexicalRule>, order: Seq<int>, m: nat)
    requires
        m <= order.len(),
        forall|i: int| 0 <= i < order.len() ==> 0 <= #[trigger] order[i] < rules.len(),
    ensures
        resolve_prefix(rules, order, m).0.len() == rules.len(),
        forall|i: int| 0 <= i < m ==> #[trigger] resolve_prefix(rules, order, m).0[order[i]] is Some,
    decreases m,
{
    if m > 0 {
        lemma_resolve_prefix(rules, order, (m - 1) as nat);
    }
}

/// Every rule is resolved.
pub proof fn lemma_resolution(rules: Seq<SpecLexicalRule>)
    ensures
        resolution(rules).0.len() == rules.len(),
        forall|k: int| 0 <= k < rules.len() ==> #[trigger] resolution(rules).0[k] is Some,
{
    lemma_dependency_order(rules);
    let order = dependency_order_of(rules);
    lemma_resolve_prefix(rules, order, order.len());
    assert forall|k: int| 0 <= k < rules.len() implies #[trigger] resolution(rules).0[k] is Some by {
        assert(order.contains(k));
        let w = choose|w: int| 0 <= w < order.len() && order[w] == k;
        assert(resolve_prefix(rules, order, order.len()).0[order[w]] is Some);
    }
}

/// The restrictions of every rule, in dependency order; see `resolution`.
fn resolve(rules: &Vec<LexicalRule>) -> (r: (Vec<Option<LexicalRestrictions>>, Vec<String>))
    ensures
        (resolved_view(r.0@), strings_view(r.1@)) == resolution(lexical_rules_view(rules@)),
        r.0@.len() == rules@.len(),
{
    let ghost rv = lexical_rules_view(rules@);
    let order = dependency_order(rules);
    let references = whole_body_references(rules);
    let ghost ov = indices_view(order@);
    proof { lemma_dependency_order(rv); }
    let n = rules.len();
    let mut resolved: Vec<Option<LexicalRestrictions>> = Vec::new();
    let mut i: usize = 0;
    while i < n
        invariant
            0 <= i <= n,
            n == rules@.len(),
            resolved_view(resolved@) =~= Seq::new(i as nat, |j: int| None::<SpecLexicalRestrictions>),
        decreases n - i,
    {
        let ghost before = resolved@;
        resolved.push(None);
        assert(resolved_view(resolved@) =~= resolved_view(before).push(None));
        i += 1;
    }
    let mut errors: Vec<String> = Vec::new();
    let mut m: usize = 0;
    assert(strings_view(errors@) =~= Seq::<Seq<char>>::empty());
    while m < order.len()
        invariant
            0 <= m <= order@.len(),
            n == rules@.len(),
            rv == lexical_rules_view(rules@),
            ov == indices_view(order@),
            ov == dependency_order_of(rv),
            forall|i: int| 0 <= i < ov.len() ==> 0 <= #[trigger] ov[i] < rv.len(),
            references@.len() == n,
            forall|i: int| 0 <= i < n ==> #[trigger] index_view(references@[i]) == whole_body_reference(rv, i),
            resolved@.len() == n,
            (resolved_view(resolved@), strings_view(errors@)) == resolve_prefix(rv, ov, m as nat),
        decreases order@.len() - m,
    {
        let k = order[m];
        assert(ov[m as int] == k as int);
        assert(rv[k as int] == rules@[k as int]@);
        let rule = &rules[k];
        let mut restrictions = LexicalRestrictions::of(rule);
        assert(index_view(references@[k as int]) == whole_body_reference(rv, k as int));
        match references[k] {
            Some(j) => {
                proof { lemma_rule_index(rv, rv[k as int].regex->Identifier_0.name); }
                assert(resolved_view(resolved@)[j as int] == match resolved@[j as int] {
                    Some(r) => Some(r@),
                    None => None::<SpecLexicalRestrictions>,
                });
                match &resolved[j] {
                    Some(prev) => {
                        let p = prev.clone();
                        restrictions.merge(p, &rule.head, &mut errors);
                    },
                    None => {
                        assert(strings_view(errors@) + Seq::<Seq<char>>::empty() =~= strings_view(errors@));
                    },
                }
            },
            None => {
                assert(strings_view(errors@) + Seq::<Seq<char>>::empty() =~= strings_view(errors@));
            },
        }
        let ghost rr = restrictions@;
        let ghost before = resolved@;
        resolved[k] = Some(restrictions);
        assert(resolved_view(resolved@) =~= resolved_view(before).update(k as int, Some(rr)));
        m += 1;
    }
    (resolved, errors)
}

// ---------------------------------------------------------------------------
// References inside larger regexes

/// The names of `ids`, each once, in order of first occurrence.
pub open spec fn distinct_names(ids: Seq<SpecIdentifier>) -> Seq<Seq<char>>
    decreases ids.len(),
{
    if ids.len() == 0 {
        Seq::empty()
    } else {
        let acc = distinct_names(ids.drop_last());
        if acc.contains(ids.last().name) { acc } else { acc.push(ids.last().name) }
    }
}

/// The error for a restricted rule `name` referenced inside the larger regex
/// of `head`.
pub open spec fn compound_reference_message(head: Seq<char>, name: Seq<char>, r: SpecLexicalRestrictions) -> Seq<char> {
    "`"@ + head + "` references `"@ + name + "` inside a larger regex, but `"@ + name
        + "` carries restrictions ("@ + restrictions_text(r)
        + ") that apply to its whole match; reference it as the only symbol of a rule, or inline its definition"@
}

/// The errors for the restricted lexical rules among `names`, referenced
/// inside the larger regex of `head`.
pub open spec fn reference_errors(rules: Seq<SpecLexicalRule>, resolved: Seq<Option<SpecLexicalRestrictions>>, head: Seq<char>, names: Seq<Seq<char>>) -> Seq<Seq<char>>
    decreases names.len(),
{
    if names.len() == 0 {
        Seq::empty()
    } else {
        let acc = reference_errors(rules, resolved, head, names.drop_last());
        let j = rule_index(rules, names.last());
        if j >= 0 && resolved[j] is Some && !restrictions_empty(resolved[j]->Some_0) {
            acc.push(compound_reference_message(head, names.last(), resolved[j]->Some_0))
        } else {
            acc
        }
    }
}

/// The errors of the first `m` rules for restricted rules referenced inside a
/// larger regex (a body that is not a bare reference).
pub open spec fn compound_errors(rules: Seq<SpecLexicalRule>, resolved: Seq<Option<SpecLexicalRestrictions>>, m: nat) -> Seq<Seq<char>>
    decreases m,
{
    if m == 0 {
        Seq::empty()
    } else {
        let acc = compound_errors(rules, resolved, (m - 1) as nat);
        let rule = rules[m - 1];
        match rule.regex {
            SpecRegex::Identifier(_) => acc,
            _ => acc + reference_errors(rules, resolved, rule.head.name, distinct_names(regex_identifiers(rule.regex))),
        }
    }
}

/// The names of `ids`, each once; see `distinct_names`.
fn names_once(ids: &Vec<&Identifier>) -> (r: Vec<String>)
    ensures
        strings_view(r@) == distinct_names(identifier_refs_view(ids@)),
{
    let ghost iv = identifier_refs_view(ids@);
    let mut out: Vec<String> = Vec::new();
    let mut k: usize = 0;
    assert(strings_view(out@) =~= distinct_names(iv.take(0)));
    while k < ids.len()
        invariant
            0 <= k <= ids@.len(),
            iv == identifier_refs_view(ids@),
            iv.len() == ids@.len(),
            strings_view(out@) == distinct_names(iv.take(k as int)),
        decreases ids@.len() - k,
    {
        assert(iv.take(k + 1).drop_last() =~= iv.take(k as int));
        assert(iv[k as int] == ids@[k as int]@);
        if !strings_contain(&out, ids[k].name.as_str()) {
            let s = crate::text::string_of(ids[k].name.as_str());
            let ghost before = out@;
            out.push(s);
            assert(strings_view(out@) =~= strings_view(before).push(ids@[k as int].name@));
        }
        k += 1;
    }
    assert(iv.take(k as int) =~= iv);
    out
}

/// Appends the errors for the restricted lexical rules among `names`; see
/// `reference_errors`.
fn push_reference_errors(rules: &Vec<LexicalRule>, resolved: &Vec<Option<LexicalRestrictions>>, head: &str, names: &Vec<String>, errors: &mut Vec<String>)
    requires
        resolved@.len() == rules@.len(),
    ensures
        strings_view(final(errors)@) == strings_view(old(errors)@)
            + reference_errors(lexical_rules_view(rules@), resolved_view(resolved@), head@, strings_view(names@)),
{
    let ghost rv = lexical_rules_view(rules@);
    let ghost sv = resolved_view(resolved@);
    let ghost nv = strings_view(names@);
    let ghost start = strings_view(errors@);
    let mut k: usize = 0;
    assert(start + reference_errors(rv, sv, head@, nv.take(0)) =~= start);
    while k < names.len()
        invariant
            0 <= k <= names@.len(),
            rv == lexical_rules_view(rules@),
            sv == resolved_view(resolved@),
            nv == strings_view(names@),
            nv.len() == names@.len(),
            resolved@.len() == rules@.len(),
            strings_view(errors@) == start + reference_errors(rv, sv, head@, nv.take(k as int)),
        decreases names@.len() - k,
    {
        let ghost t = nv.take(k + 1);
        assert(t.drop_last() =~= nv.take(k as int));
        assert(t.last() == names@[k as int]@);
        let ghost before = strings_view(errors@);
        match find_rule(rules, names[k].as_str()) {
            Some(j) => {
                proof { lemma_rule_index(rv, names@[k as int]@); }
                assert(sv[j as int] == match resolved@[j as int] {
                    Some(r) => Some(r@),
                    None => None::<SpecLexicalRestrictions>,
                });
                match &resolved[j] {
                    Some(r) => {
                        if !r.is_empty() {
                            let mut m = String::new();
                            push_str(&mut m, "`");
                            push_str(&mut m, head);
                            push_str(&mut m, "` references `");
                            push_str(&mut m, names[k].as_str());
                            push_str(&mut m, "` inside a larger regex, but `");
                            push_str(&mut m, names[k].as_str());
                            push_str(&mut m, "` carries restrictions (");
                            let text = r.to_string();
                            push_str(&mut m, text.as_str());
                            push_str(&mut m, ") that apply to its whole match; reference it as the only symbol of a rule, or inline its definition");
                            let ghost mv = m@;
                            assert(mv =~= compound_reference_message(head@, names@[k as int]@, r@));
                            errors.push(m);
                            assert(strings_view(errors@) =~= before.push(mv));
                        }
                    },
                    None => {},
                }
            },
            None => {},
        }
        k += 1;
    }
    assert(nv.take(k as int) =~= nv);
}

/// The errors for restricted rules referenced inside a larger regex; see
/// `compound_errors`.
fn push_compound_errors(rules: &Vec<LexicalRule>, resolved: &Vec<Option<LexicalRestrictions>>, errors: &mut Vec<String>)
    requires
        resolved@.len() == rules@.len(),
    ensures
        strings_view(final(errors)@) == strings_view(old(errors)@)
            + compound_errors(lexical_rules_view(rules@), resolved_view(resolved@), rules@.len()),
{
    let ghost rv = lexical_rules_view(rules@);
    let ghost sv = resolved_view(resolved@);
    let ghost start = strings_view(errors@);
    let mut k: usize = 0;
    assert(start + compound_errors(rv, sv, 0) =~= start);
    while k < rules.len()
        invariant
            0 <= k <= rules@.len(),
            rv == lexical_rules_view(rules@),
            sv == resolved_view(resolved@),
            resolved@.len() == rules@.len(),
            strings_view(errors@) == start + compound_errors(rv, sv, k as nat),
        decreases rules@.len() - k,
    {
        let rule = &rules[k];
        assert(rv[k as int] == rule@);
        let ghost before = strings_view(errors@);
        match &rule.regex {
            Regex::Identifier(_) => {},
            _ => {
                let mut ids: Vec<&Identifier> = Vec::new();
                crate::grammar::visit::visit_regex_identifiers(&rule.regex, &mut ids);
                assert(identifier_refs_view(ids@) =~= regex_identifiers(rule.regex@));
                let names = names_once(&ids);
                push_reference_errors(rules, resolved, rule.head.name.as_str(), &names, errors);
                assert(strings_view(errors@) =~= start + compound_errors(rv, sv, (k + 1) as nat));
            },
        }
        k += 1;
    }
}

// ---------------------------------------------------------------------------
// Inlining

/// `r` with every reference replaced by the inlined body of the rule it
/// names, following at most `fuel` references in a chain; `None` where a
/// reference names no rule or the chain is longer (a cycle).
pub open spec fn inlined(rules: Seq<SpecLexicalRule>, r: SpecRegex, fuel: nat) -> Option<SpecRegex>
    decreases fuel, r, 1int,
{
    match r {
        SpecRegex::Identifier(id) => {
            let j = rule_index(rules, id.name);
            if fuel == 0 || j < 0 {
                None
            } else {
                inlined(rules, rules[j].regex, (fuel - 1) as nat)
            }
        },
        SpecRegex::Sequence(parts) => match inlined_all(rules, parts, fuel) {
            Some(ps) => Some(SpecRegex::Sequence(ps)),
            None => None,
        },
        SpecRegex::Alt(parts) => match inlined_all(rules, parts, fuel) {
            Some(ps) => Some(SpecRegex::Alt(ps)),
            None => None,
        },
        SpecRegex::Star(inner) => match inlined(rules, *inner, fuel) {
            Some(x) => Some(SpecRegex::Star(Box::new(x))),
            None => None,
        },
        SpecRegex::Plus(inner) => match inlined(rules, *inner, fuel) {
            Some(x) => Some(SpecRegex::Plus(Box::new(x))),
            None => None,
        },
        SpecRegex::Opt(inner) => match inlined(rules, *inner, fuel) {
            Some(x) => Some(SpecRegex::Opt(Box::new(x))),
            None => None,
        },
        _ => Some(r),
    }
}

/// `inlined` of each part; `None` where one of them is.
pub open spec fn inlined_all(rules: Seq<SpecLexicalRule>, parts: Seq<SpecRegex>, fuel: nat) -> Option<Seq<SpecRegex>>
    decreases fuel, parts, 0int,
{
    if parts.len() == 0 {
        Some(Seq::empty())
    } else {
        match (inlined_all(rules, parts.drop_last(), fuel), inlined(rules, parts.last(), fuel)) {
            (Some(ps), Some(p)) => Some(ps.push(p)),
            _ => None,
        }
    }
}

/// See `inlined`.
fn inline_regex(regex: &Regex, rules: &Vec<LexicalRule>, Ghost(fuel): Ghost<nat>) -> (r: Regex)
    requires
        inlined(lexical_rules_view(rules@), regex@, fuel) is Some,
    ensures
        r@ == inlined(lexical_rules_view(rules@), regex@, fuel)->Some_0,
    decreases fuel, regex, 1int,
{
    let ghost rv = lexical_rules_view(rules@);
    match regex {
        Regex::Identifier(id) => {
            let j = find_rule(rules, id.name.as_str()).unwrap();
            proof { lemma_rule_index(rv, id.name@); }
            assert(rv[j as int] == rules@[j as int]@);
            inline_regex(&rules[j].regex, rules, Ghost((fuel - 1) as nat))
        },
        Regex::Sequence(parts) => Regex::Sequence(inline_parts(parts, rules, Ghost(fuel))),
        Regex::Alt(parts) => Regex::Alt(inline_parts(parts, rules, Ghost(fuel))),
        Regex::Star(inner) => Regex::Star(Box::new(inline_regex(&**inner, rules, Ghost(fuel)))),
        Regex::Plus(inner) => Regex::Plus(Box::new(inline_regex(&**inner, rules, Ghost(fuel)))),
        Regex::Opt(inner) => Regex::Opt(Box::new(inline_regex(&**inner, rules, Ghost(fuel)))),
        _ => regex.clone(),
    }
}

/// See `inlined_all`.
fn inline_parts(parts: &Vec<Regex>, rules: &Vec<LexicalRule>, Ghost(fuel): Ghost<nat>) -> (r: Vec<Regex>)
    requires
        inlined_all(lexical_rules_view(rules@), regexes_view(parts@), fuel) is Some,
    ensures
        regexes_view(r@) == inlined_all(lexical_rules_view(rules@), regexes_view(parts@), fuel)->Some_0,
    decreases fuel, parts, 0int,
{
    let ghost rv = lexical_rules_view(rules@);
    let ghost pv = regexes_view(parts@);
    proof {
        crate::grammar::regex::lemma_regexes_view(parts@);
        lemma_inlined_all_prefix(rv, pv, fuel);
    }
    let mut out: Vec<Regex> = Vec::new();
    let mut i: usize = 0;
    while i < parts.len()
        invariant
            0 <= i <= parts@.len(),
            rv == lexical_rules_view(rules@),
            pv == regexes_view(parts@),
            pv.len() == parts@.len(),
            forall|k: int| 0 <= k < parts@.len() ==> #[trigger] pv[k] == parts@[k]@,
            forall|k: int| 0 <= k <= pv.len() ==> #[trigger] inlined_all(rv, pv.take(k), fuel) is Some,
            regexes_view(out@) == inlined_all(rv, pv.take(i as int), fuel)->Some_0,
        decreases parts@.len() - i,
    {
        proof {
            let t = pv.take(i + 1);
            assert(t.drop_last() =~= pv.take(i as int));
            assert(t.last() == parts@[i as int]@);
            assert(inlined_all(rv, t, fuel) is Some);
            assert(decreases_to!(*parts => parts@[i as int]));
        }
        let r = inline_regex(&parts[i], rules, Ghost(fuel));
        let ghost before = out@;
        out.push(r);
        assert(out@.drop_last() =~= before);
        i += 1;
    }
    assert(pv.take(i as int) =~= pv);
    out
}

/// Where `inlined_all` succeeds, it succeeds on every prefix.
proof fn lemma_inlined_all_prefix(rules: Seq<SpecLexicalRule>, parts: Seq<SpecRegex>, fuel: nat)
    requires
        inlined_all(rules, parts, fuel) is Some,
    ensures
        forall|k: int| 0 <= k <= parts.len() ==> #[trigger] inlined_all(rules, parts.take(k), fuel) is Some,
    decreases parts.len(),
{
    if parts.len() > 0 {
        lemma_inlined_all_prefix(rules, parts.drop_last(), fuel);
        assert forall|k: int| 0 <= k <= parts.len() implies #[trigger] inlined_all(rules, parts.take(k), fuel) is Some by {
            if k == parts.len() {
                assert(parts.take(k) =~= parts);
            } else {
                assert(parts.take(k) =~= parts.drop_last().take(k));
            }
        }
    } else {
        assert(parts.take(0) =~= parts);
    }
}

// ---------------------------------------------------------------------------
// The pass

/// The rules with their bodies simplified.
pub open spec fn simplified_rules(rules: Seq<SpecLexicalRule>) -> Seq<SpecLexicalRule> {
    rules.map_values(|r: SpecLexicalRule| SpecLexicalRule {
        head: r.head,
        regex: simplified(r.regex),
        except: r.except,
        follow_restriction: r.follow_restriction,
        precede_restriction: r.precede_restriction,
    })
}

/// The errors of the pass: those of merging restrictions along whole-body
/// references; only where there are none, those for restricted rules
/// referenced inside a larger regex.
pub open spec fn inlining_errors(rules: Seq<SpecLexicalRule>) -> Seq<Seq<char>> {
    let (resolved, errors) = resolution(rules);
    if errors.len() > 0 {
        errors
    } else {
        compound_errors(rules, resolved, rules.len())
    }
}

/// Whether every body inlines: no reference, followed through the bodies,
/// names a missing rule or comes back to a rule on its own chain.
pub open spec fn inlinable(rules: Seq<SpecLexicalRule>) -> bool {
    forall|k: int| 0 <= k < rules.len() ==> #[trigger] inlined(rules, rules[k].regex, rules.len()) is Some
}

/// Rule `k` after the pass: its body inlined, its restrictions resolved.
pub open spec fn inlined_rule(rules: Seq<SpecLexicalRule>, k: int) -> SpecLexicalRule {
    let r = resolution(rules).0[k]->Some_0;
    SpecLexicalRule {
        head: rules[k].head,
        regex: inlined(rules, rules[k].regex, rules.len())->Some_0,
        except: r.except,
        follow_restriction: r.follow_restriction,
        precede_restriction: r.precede_restriction,
    }
}

/// The result of the pass on (simplified) rules: the errors, if any; else
/// every rule with its body inlined and its restrictions resolved.
pub open spec fn inline_result(rules: Seq<SpecLexicalRule>) -> Result<Seq<SpecLexicalRule>, Seq<Seq<char>>> {
    if inlining_errors(rules).len() > 0 {
        Err(inlining_errors(rules))
    } else {
        Ok(Seq::new(rules.len(), |k: int| inlined_rule(rules, k)))
    }
}

/// Inlines the references between lexical rules. Bodies are simplified
/// first; then each rule whose whole body is a reference inherits the
/// restrictions of the rule it references (in dependency order, so along
/// whole chains), and a restricted rule referenced inside a larger regex is
/// an error, since its restrictions apply to its whole match. Without errors,
/// every reference is replaced by the body it names, inlined in turn. See
/// `inline_result`.
///
/// Names must be unique: validation reports a duplicate before this pass
/// runs, and with a repeated name a run without errors would find no resolved
/// restrictions left for the second rule of that name. Where the pass has no
/// errors, every reference must name a rule, without cycles.
pub fn inline_regex_refs(lexical_rules: Vec<LexicalRule>) -> (r: Result<Vec<LexicalRule>, Vec<String>>)
    requires
        distinct_heads(lexical_rules_view(lexical_rules@)),
        inlining_errors(simplified_rules(lexical_rules_view(lexical_rules@))).len() == 0
            ==> inlinable(simplified_rules(lexical_rules_view(lexical_rules@))),
    ensures
        match (r, inline_result(simplified_rules(lexical_rules_view(lexical_rules@)))) {
            (Ok(out), Ok(expected)) => lexical_rules_view(out@) == expected,
            (Err(errors), Err(expected)) => strings_view(errors@) == expected,
            _ => false,
        },
{
    let ghost original = lexical_rules_view(lexical_rules@);
    let mut rules = lexical_rules;
    let mut i: usize = 0;
    while i < rules.len()
        invariant
            0 <= i <= rules@.len(),
            rules@.len() == original.len(),
            forall|k: int| 0 <= k < i ==> #[trigger] rules@[k]@ == simplified_rules(original)[k],
            forall|k: int| i <= k < rules@.len() ==> #[trigger] rules@[k]@ == original[k],
        decreases rules@.len() - i,
    {
        let ghost before = rules@;
        assert(before[i as int]@ == original[i as int]);
        simplify_regex(&mut rules[i].regex);
        assert(rules@.len() == before.len());
        assert(forall|k: int| 0 <= k < rules@.len() && k != i ==> rules@[k] == before[k]);
        assert(rules@[i as int].regex@ == simplified(before[i as int].regex@));
        assert(rules@[i as int]@ == simplified_rules(original)[i as int]);
        i += 1;
    }
    let ghost rv = lexical_rules_view(rules@);
    assert(rv =~= simplified_rules(original));
    let (resolved, mut errors) = resolve(&rules);
    if errors.len() == 0 {
        push_compound_errors(&rules, &resolved, &mut errors);
    }
    assert(strings_view(errors@) =~= inlining_errors(rv));
    if errors.len() > 0 {
        return Err(errors);
    }
    proof { lemma_resolution(rv); }
    let n = rules.len();
    let mut out: Vec<LexicalRule> = Vec::new();
    let mut k: usize = 0;
    while k < n
        invariant
            0 <= k <= n,
            n == rules@.len(),
            rv == lexical_rules_view(rules@),
            inlinable(rv),
            resolved_view(resolved@) == resolution(rv).0,
            resolved@.len() == n,
            forall|j: int| 0 <= j < n ==> #[trigger] resolution(rv).0[j] is Some,
            lexical_rules_view(out@) =~= Seq::new(k as nat, |j: int| inlined_rule(rv, j)),
        decreases n - k,
    {
        let rule = &rules[k];
        assert(rv[k as int] == rule@);
        assert(inlined(rv, rv[k as int].regex, rv.len()) is Some);
        let regex = inline_regex(&rule.regex, &rules, Ghost(n as nat));
        assert(resolved_view(resolved@)[k as int] == match resolved@[k as int] {
            Some(r) => Some(r@),
            None => None::<SpecLexicalRestrictions>,
        });
        let restrictions = resolved[k].clone().unwrap();
        let LexicalRestrictions { except, follow_restriction, precede_restriction } = restrictions;
        let inlined_rule = LexicalRule { head: rule.head.clone(), regex, except, follow_restriction, precede_restriction };
        let ghost before = out@;
        out.push(inlined_rule);
        assert(lexical_rules_view(out@) =~= lexical_rules_view(before).push(inlined_rule@));
        k += 1;
    }
    Ok(out)
}

// ---------------------------------------------------------------------------
// Laws

proof fn lemma_inlined_plain(rules: Seq<SpecLexicalRule>, r: SpecRegex, fuel: nat)
    requires
        inlined(rules, r, fuel) is Some,
    ensures
        !mentions_identifier(inlined(rules, r, fuel)->Some_0),
    decreases fuel, r, 1int,
{
    match r {
        SpecRegex::Identifier(id) => {
            let j = rule_index(rules, id.name);
            lemma_inlined_plain(rules, rules[j].regex, (fuel - 1) as nat);
        },
        SpecRegex::Sequence(parts) => {
            lemma_inlined_all_plain(rules, parts, fuel);
        },
        SpecRegex::Alt(parts) => {
            lemma_inlined_all_plain(rules, parts, fuel);
        },
        SpecRegex::Star(inner) => lemma_inlined_plain(rules, *inner, fuel),
        SpecRegex::Plus(inner) => lemma_inlined_plain(rules, *inner, fuel),
        SpecRegex::Opt(inner) => lemma_inlined_plain(rules, *inner, fuel),
        _ => {},
    }
}

proof fn lemma_inlined_all_plain(rules: Seq<SpecLexicalRule>, parts: Seq<SpecRegex>, fuel: nat)
    requires
        inlined_all(rules, parts, fuel) is Some,
    ensures
        forall|i: int| 0 <= i < inlined_all(rules, parts, fuel)->Some_0.len()
            ==> !mentions_identifier(#[trigger] inlined_all(rules, parts, fuel)->Some_0[i]),
    decreases fuel, parts, 0int,
{
    if parts.len() > 0 {
        lemma_inlined_all_plain(rules, parts.drop_last(), fuel);
        lemma_inlined_plain(rules, parts.last(), fuel);
    }
}

/// After the pass, no lexical rule references another: every reference was
/// replaced by the (inlined) body of the rule it names.
pub proof fn inlining_leaves_no_reference(rules: Seq<SpecLexicalRule>)
    requires
        inlinable(rules),
    ensures
        inline_result(rules) is Ok ==> forall|k: int| 0 <= k < inline_result(rules)->Ok_0.len()
            ==> !mentions_identifier(#[trigger] inline_result(rules)->Ok_0[k].regex),
{
    if inline_result(rules) is Ok {
        assert forall|k: int| 0 <= k < inline_result(rules)->Ok_0.len()
            implies !mentions_identifier(#[trigger] inline_result(rules)->Ok_0[k].regex) by {
            assert(inlined(rules, rules[k].regex, rules.len()) is Some);
            lemma_inlined_plain(rules, rules[k].regex, rules.len());
        }
    }
}

/// Whether following `m` whole-body references from rule `x` leads to `y`.
pub open spec fn reaches(rules: Seq<SpecLexicalRule>, x: int, y: int, m: nat) -> bool
    decreases m,
{
    if m == 0 {
        x == y
    } else {
        match whole_body_reference(rules, x) {
            Some(z) => reaches(rules, z, y, (m - 1) as nat),
            None => false,
        }
    }
}

proof fn lemma_reaches_step(rules: Seq<SpecLexicalRule>, p: int, k: int, j: int, m: nat)
    requires
        reaches(rules, p, k, m),
        whole_body_reference(rules, k) == Some(j),
    ensures
        reaches(rules, p, j, m + 1),
    decreases m,
{
    if m > 0 {
        let z = whole_body_reference(rules, p)->Some_0;
        lemma_reaches_step(rules, z, k, j, (m - 1) as nat);
        assert(reaches(rules, p, j, m + 1));
    } else {
        assert(reaches(rules, j, j, 0));
        assert(reaches(rules, p, j, 1));
    }
}

/// Following `m` references from an inlinable body uses `m` of the fuel.
proof fn lemma_reaches_fuel(rules: Seq<SpecLexicalRule>, x: int, y: int, m: nat, fuel: nat)
    requires
        0 <= x < rules.len(),
        reaches(rules, x, y, m),
        inlined(rules, rules[x].regex, fuel) is Some,
    ensures
        fuel >= m,
        0 <= y < rules.len(),
        inlined(rules, rules[y].regex, (fuel - m) as nat) is Some,
    decreases m,
{
    if m > 0 {
        let z = whole_body_reference(rules, x)->Some_0;
        lemma_rule_index(rules, rules[x].regex->Identifier_0.name);
        lemma_reaches_fuel(rules, z, y, (m - 1) as nat, (fuel - 1) as nat);
    }
}

/// An inlinable body is not on a cycle of whole-body references.
proof fn lemma_no_cycle(rules: Seq<SpecLexicalRule>, x: int, m: nat, fuel: nat)
    requires
        0 <= x < rules.len(),
        m >= 1,
        inlined(rules, rules[x].regex, fuel) is Some,
    ensures
        !reaches(rules, x, x, m),
    decreases fuel,
{
    if reaches(rules, x, x, m) {
        lemma_reaches_fuel(rules, x, x, m, fuel);
        lemma_no_cycle(rules, x, m, (fuel - m) as nat);
    }
}

/// Whether each rule of `order` with a whole-body reference comes after the
/// rule it references.
pub open spec fn references_first(rules: Seq<SpecLexicalRule>, order: Seq<int>) -> bool {
    forall|b: int| 0 <= b < order.len() && #[trigger] whole_body_reference(rules, order[b]) is Some
        ==> exists|a: int| 0 <= a < b && order[a] == whole_body_reference(rules, order[b])->Some_0
}

proof fn lemma_place_order_first(rules: Seq<SpecLexicalRule>, k: int, placed: Seq<bool>, order: Seq<int>, pending: Set<int>)
    requires
        placement_invariant(rules.len() as int, placed, order, pending),
        0 <= k < rules.len(),
        inlinable(rules),
        references_first(rules, order),
        forall|p: int| #[trigger] pending.contains(p) ==> 0 <= p < rules.len() && exists|m: nat| m >= 1 && reaches(rules, p, k, m),
    ensures
        references_first(rules, order + place_order(rules, k, placed).1),
    decreases unplaced(placed),
{
    let n = rules.len() as int;
    if placed[k] {
        assert(order + Seq::<int>::empty() =~= order);
    } else {
        let marked = placed.update(k, true);
        lemma_unplaced_mark(placed, k);
        assert(placement_invariant(n, marked, order, pending.insert(k)));
        match whole_body_reference(rules, k) {
            Some(j) => {
                lemma_rule_index(rules, rules[k].regex->Identifier_0.name);
                assert(reaches(rules, k, j, 1)) by {
                    assert(reaches(rules, j, j, 0));
                }
                assert forall|p: int| #[trigger] pending.insert(k).contains(p) implies 0 <= p < rules.len()
                    && exists|m: nat| m >= 1 && reaches(rules, p, j, m) by {
                    if p != k {
                        let m = choose|m: nat| m >= 1 && reaches(rules, p, k, m);
                        lemma_reaches_step(rules, p, k, j, m);
                    }
                }
                lemma_place_order_first(rules, j, marked, order, pending.insert(k));
                lemma_place_order(rules, j, marked, order, pending.insert(k));
                let (after, more0) = place_order(rules, j, marked);
                let o1 = order + more0;
                let o2 = o1.push(k);
                assert(order + more0.push(k) =~= o2);
                // `j` is placed, and not pending: that would close a cycle.
                assert(after[j]);
                if j == k {
                    lemma_no_cycle(rules, k, 1, rules.len());
                }
                if pending.contains(j) {
                    let m = choose|m: nat| m >= 1 && reaches(rules, j, k, m);
                    lemma_reaches_step(rules, j, k, j, m);
                    lemma_no_cycle(rules, j, m + 1, rules.len());
                }
                assert(o1.contains(j));
                let a = choose|a: int| 0 <= a < o1.len() && o1[a] == j;
                assert forall|b: int| 0 <= b < o2.len() && #[trigger] whole_body_reference(rules, o2[b]) is Some
                    implies exists|a: int| 0 <= a < b && o2[a] == whole_body_reference(rules, o2[b])->Some_0 by {
                    if b < o1.len() {
                        assert(o2[b] == o1[b]);
                        let a1 = choose|a1: int| 0 <= a1 < b && o1[a1] == whole_body_reference(rules, o1[b])->Some_0;
                        assert(o2[a1] == o1[a1]);
                    } else {
                        assert(o2[b] == k);
                        assert(o2[a] == j);
                    }
                }
            },
            None => {
                let o2 = order.push(k);
                assert(order + seq![k] =~= o2);
                assert forall|b: int| 0 <= b < o2.len() && #[trigger] whole_body_reference(rules, o2[b]) is Some
                    implies exists|a: int| 0 <= a < b && o2[a] == whole_body_reference(rules, o2[b])->Some_0 by {
                    assert(b < order.len());
                    assert(o2[b] == order[b]);
                    let a1 = choose|a1: int| 0 <= a1 < b && order[a1] == whole_body_reference(rules, order[b])->Some_0;
                    assert(o2[a1] == order[a1]);
                }
            },
        }
    }
}

proof fn lemma_dependency_prefix_first(rules: Seq<SpecLexicalRule>, m: nat)
    requires
        m <= rules.len(),
        inlinable(rules),
    ensures
        references_first(rules, dependency_prefix(rules, m).1),
    decreases m,
{
    if m > 0 {
        lemma_dependency_prefix_first(rules, (m - 1) as nat);
        lemma_dependency_prefix(rules, (m - 1) as nat);
        let (placed, order) = dependency_prefix(rules, (m - 1) as nat);
        lemma_place_order_first(rules, m - 1, placed, order, Set::empty());
    }
}

/// Once resolved, a rule's restrictions stay: each rule occurs once in the
/// order.
proof fn lemma_resolved_stays(rules: Seq<SpecLexicalRule>, order: Seq<int>, i: int, m: nat)
    requires
        order.no_duplicates(),
        forall|x: int| 0 <= x < order.len() ==> 0 <= #[trigger] order[x] < rules.len(),
        0 <= i < m <= order.len(),
    ensures
        resolve_prefix(rules, order, m).0[order[i]] == resolve_prefix(rules, order, (i + 1) as nat).0[order[i]],
    decreases m,
{
    if m > i + 1 {
        lemma_resolved_stays(rules, order, i, (m - 1) as nat);
        lemma_resolve_prefix(rules, order, (m - 1) as nat);
        assert(order[m - 1] != order[i]);
    }
}

/// A rule whose whole body is a reference inherits the restrictions of the
/// rule it references: its resolved restrictions are its own, merged with
/// those resolved for the referenced rule (and so, along a chain of such
/// rules, with the whole chain's).
pub proof fn whole_body_reference_inherits(rules: Seq<SpecLexicalRule>, k: int)
    requires
        inlinable(rules),
        0 <= k < rules.len(),
        whole_body_reference(rules, k) is Some,
    ensures
        resolution(rules).0[k] == Some(merge_restrictions(
            restrictions_of(rules[k]),
            resolution(rules).0[whole_body_reference(rules, k)->Some_0]->Some_0,
            rules[k].head.name,
        ).0),
{
    let order = dependency_order_of(rules);
    let j = whole_body_reference(rules, k)->Some_0;
    lemma_dependency_order(rules);
    lemma_dependency_prefix_first(rules, rules.len());
    lemma_resolution(rules);
    assert(order.contains(k));
    let b = choose|b: int| 0 <= b < order.len() && order[b] == k;
    assert(whole_body_reference(rules, order[b]) is Some);
    let a = choose|a: int| 0 <= a < b && order[a] == whole_body_reference(rules, order[b])->Some_0;
    assert(order[a] == j);
    lemma_resolve_prefix(rules, order, b as nat);
    lemma_resolve_prefix(rules, order, (a + 1) as nat);
    lemma_resolved_stays(rules, order, a, b as nat);
    lemma_resolved_stays(rules, order, a, order.len());
    lemma_resolved_stays(rules, order, b, order.len());
    assert(resolve_prefix(rules, order, (a + 1) as nat).0[j] is Some);
}

} // verus!
