//! What precedence desugaring learns of a grammar before it rewrites it:
//! the end relations, the recursive heads, the classification of
//! alternatives, the intermediate nonterminals and the associativity
//! arguments.
use vstd::prelude::*;
use crate::grammar::def::{
    rule_alternatives, syntax_rules_view, Alternative, Associativity, SpecAlternative,
    SpecPriorityLevel, SpecSyntaxRule, SyntaxRule,
};
use crate::grammar::symbols::{strings_view, Symbol};
use super::{
    compute_end_edges, contains_name, end_edges, end_symbol, end_symbol_view,
    grammar_symbol_count, grammar_symbol_count_view, is_reference_to_view, non_head_nonterminal_view,
    pairs_view, reaches, reaches_view, referenced, referenced_name, End,
};

verus! {

/// How an alternative recurses into its rule's head at its two ends.
#[derive(Debug, Clone, Copy, PartialEq, Eq, Structural)]
pub enum RecursionKind {
    /// `E = A α B` where `A` derives `E β` and `B` derives `γ E`.
    Binary,
    /// `E = α B` where only the right end derives a sequence ending with `E`.
    Prefix,
    /// `E = A α` where only the left end derives a sequence starting with `E`.
    Postfix,
    /// Neither end derives `E` there, as in `E = "a"` or `E = "(" E ")"`.
    NonRecursive,
}

/// The left and right end relations of a grammar.
pub struct SpecEnds {
    pub left: Seq<(Seq<char>, Seq<char>)>,
    pub right: Seq<(Seq<char>, Seq<char>)>,
}

/// The end relations of `rules`.
pub open spec fn ends_of(rules: Seq<SpecSyntaxRule>) -> SpecEnds {
    SpecEnds { left: end_edges(rules, End::Left), right: end_edges(rules, End::Right) }
}

/// The relation for one end.
pub open spec fn edges_at(e: SpecEnds, end: End) -> Seq<(Seq<char>, Seq<char>)> {
    match end {
        End::Left => e.left,
        End::Right => e.right,
    }
}

/// The direct left- and right-end relations: for `A = B C`, `A -> B` on the
/// left and `A -> C` on the right.
pub struct Ends {
    pub left: Vec<(String, String)>,
    pub right: Vec<(String, String)>,
}

impl View for Ends {
    type V = SpecEnds;

    open spec fn view(&self) -> SpecEnds {
        SpecEnds { left: pairs_view(self.left@), right: pairs_view(self.right@) }
    }
}

impl Ends {
    /// The end relations of `rules`.
    pub fn new(rules: &Vec<SyntaxRule>) -> (e: Ends)
        ensures
            e@ == ends_of(syntax_rules_view(rules@)),
    {
        Ends { left: compute_end_edges(rules, End::Left), right: compute_end_edges(rules, End::Right) }
    }

    /// The relation for one end.
    pub fn at(&self, end: End) -> (r: &Vec<(String, String)>)
        ensures
            pairs_view(r@) == edges_at(self@, end),
    {
        match end {
            End::Left => &self.left,
            End::Right => &self.right,
        }
    }

    /// Whether `from` reaches `head` along the relation for `end`, without
    /// passing through one of `boundaries`; see `reaches_view`.
    pub fn reaches(&self, from: &str, head: &str, end: End, boundaries: &Vec<String>) -> (b: bool)
        ensures
            b == reaches_view(edges_at(self@, end), from@, head@, strings_view(boundaries@)),
    {
        reaches(self.at(end), from, head, boundaries)
    }
}

/// Whether a rule declares precedence (several priority levels) or
/// associativity.
pub open spec fn needs_desugaring_view(rule: SpecSyntaxRule) -> bool {
    rule.priority_levels.len() > 1
        || exists|i: int| 0 <= i < rule.priority_levels.len() && (#[trigger] rule.priority_levels[i]).associativity is Some
}

/// See `needs_desugaring_view`.
pub fn needs_desugaring(rule: &SyntaxRule) -> (b: bool)
    ensures
        b == needs_desugaring_view(rule@),
{
    if rule.priority_levels.len() > 1 {
        return true;
    }
    let mut i: usize = 0;
    while i < rule.priority_levels.len()
        invariant
            0 <= i <= rule.priority_levels@.len(),
            forall|k: int| 0 <= k < i ==> (#[trigger] rule@.priority_levels[k]).associativity is None,
        decreases rule.priority_levels@.len() - i,
    {
        assert(rule@.priority_levels[i as int] == rule.priority_levels@[i as int]@);
        if rule.priority_levels[i].associativity.is_some() {
            return true;
        }
        i += 1;
    }
    false
}

/// Whether the nonterminal at `end` of the alternative, other than `head`,
/// reaches `head` at that end without crossing `boundaries`.
pub open spec fn has_indirect_end_view(alt: SpecAlternative, head: Seq<char>, boundaries: Seq<Seq<char>>, e: SpecEnds, end: End) -> bool {
    match non_head_nonterminal_view(end_symbol_view(alt.symbols, end), head) {
        Some(n) => reaches_view(edges_at(e, end), n, head, boundaries),
        None => false,
    }
}

/// Whether the alternative recurses into `head` at `end`, directly or
/// through nonterminals that are not other `heads`.
pub open spec fn recurses_at(alt: SpecAlternative, head: Seq<char>, heads: Seq<Seq<char>>, e: SpecEnds, end: End) -> bool {
    is_reference_to_view(end_symbol_view(alt.symbols, end), head) || has_indirect_end_view(alt, head, heads, e, end)
}

/// The recursion kind of an alternative of `head`. A single grammar symbol
/// at both ends is one call and stays unrestricted.
pub open spec fn classify_view(alt: SpecAlternative, head: Seq<char>, heads: Seq<Seq<char>>, e: SpecEnds) -> RecursionKind {
    let left = recurses_at(alt, head, heads, e, End::Left);
    let right = recurses_at(alt, head, heads, e, End::Right);
    if left && right && grammar_symbol_count_view(alt.symbols, alt.symbols.len() as int) == 1 {
        RecursionKind::NonRecursive
    } else if left && right {
        RecursionKind::Binary
    } else if right {
        RecursionKind::Prefix
    } else if left {
        RecursionKind::Postfix
    } else {
        RecursionKind::NonRecursive
    }
}

/// Whether an alternative has a recursive end of `head`, direct or through
/// any nonterminals.
pub open spec fn alternative_recurses(alt: SpecAlternative, head: Seq<char>, e: SpecEnds) -> bool {
    recurses_at(alt, head, Seq::empty(), e, End::Left) || recurses_at(alt, head, Seq::empty(), e, End::Right)
}

/// Whether some alternative of the rule recurses into its head.
pub open spec fn has_recursive_path_view(rule: SpecSyntaxRule, e: SpecEnds) -> bool {
    exists|k: int| 0 <= k < rule_alternatives(rule.priority_levels).len()
        && alternative_recurses(#[trigger] rule_alternatives(rule.priority_levels)[k], rule.head.name, e)
}

/// The names of the recursive rules that declare precedence or
/// associativity, in order.
pub open spec fn recursive_heads_view(rules: Seq<SpecSyntaxRule>, e: SpecEnds) -> Seq<Seq<char>>
    decreases rules.len(),
{
    if rules.len() == 0 {
        Seq::empty()
    } else {
        recursive_heads_view(rules.drop_last(), e) + if needs_desugaring_view(rules.last()) && has_recursive_path_view(rules.last(), e) {
            seq![rules.last().head.name]
        } else {
            Seq::empty()
        }
    }
}

/// The name at `end` of the symbols, unless it is `head`.
pub fn non_head_nonterminal<'a>(symbol: Option<&'a Symbol>, head: &str) -> (r: Option<&'a String>)
    ensures
        match r {
            Some(n) => non_head_nonterminal_view(match symbol { Some(s) => Some(s@), None => None }, head@) == Some(n@),
            None => non_head_nonterminal_view(match symbol { Some(s) => Some(s@), None => None }, head@) is None,
        },
{
    match referenced(symbol) {
        Some(n) => if crate::text::str_eq(n.as_str(), head) { None } else { Some(n) },
        None => None,
    }
}

/// See `recurses_at`.
pub fn recurses(alt: &Alternative, head: &str, heads: &Vec<String>, ends: &Ends, end: End) -> (b: bool)
    ensures
        b == recurses_at(alt@, head@, strings_view(heads@), ends@, end),
{
    let symbol = end_symbol(&alt.symbols, end);
    let direct = match referenced(symbol) {
        Some(n) => crate::text::str_eq(n.as_str(), head),
        None => false,
    };
    if direct {
        return true;
    }
    match non_head_nonterminal(symbol, head) {
        Some(n) => reaches(ends.at(end), n.as_str(), head, heads),
        None => false,
    }
}

/// Whether the symbol at `end` is a nonterminal other than `head` that
/// reaches `head` at that end; see `has_indirect_end_view`.
pub fn recurses_indirectly(alt: &Alternative, head: &str, ends: &Ends, end: End) -> (b: bool)
    ensures
        b == has_indirect_end_view(alt@, head@, Seq::empty(), ends@, end),
{
    let none: Vec<String> = Vec::new();
    assert(strings_view(none@) =~= Seq::<Seq<char>>::empty());
    match non_head_nonterminal(end_symbol(&alt.symbols, end), head) {
        Some(n) => reaches(ends.at(end), n.as_str(), head, &none),
        None => false,
    }
}

/// See `classify_view`.
pub fn classify(alt: &Alternative, head: &str, heads: &Vec<String>, ends: &Ends) -> (k: RecursionKind)
    ensures
        k == classify_view(alt@, head@, strings_view(heads@), ends@),
{
    proof { crate::grammar::symbols::lemma_symbols_view(alt.symbols@); }
    let left = recurses(alt, head, heads, ends, End::Left);
    let right = recurses(alt, head, heads, ends, End::Right);
    if left && right && grammar_symbol_count(&alt.symbols) == 1 {
        RecursionKind::NonRecursive
    } else if left && right {
        RecursionKind::Binary
    } else if right {
        RecursionKind::Prefix
    } else if left {
        RecursionKind::Postfix
    } else {
        RecursionKind::NonRecursive
    }
}

/// See `has_recursive_path_view`.
pub fn has_recursive_path(rule: &SyntaxRule, ends: &Ends) -> (b: bool)
    ensures
        b == has_recursive_path_view(rule@, ends@),
{
    let none: Vec<String> = Vec::new();
    assert(strings_view(none@) =~= Seq::<Seq<char>>::empty());
    let alts = rule.alternatives();
    let ghost views = alts@.map_values(|a: &Alternative| a@);
    let mut k: usize = 0;
    while k < alts.len()
        invariant
            0 <= k <= alts@.len(),
            views == alts@.map_values(|a: &Alternative| a@),
            views == rule_alternatives(rule@.priority_levels),
            strings_view(none@) == Seq::<Seq<char>>::empty(),
            forall|m: int| 0 <= m < k ==> !alternative_recurses(#[trigger] views[m], rule@.head.name, ends@),
        decreases alts@.len() - k,
    {
        let alt = alts[k];
        assert(views[k as int] == alt@);
        if recurses(alt, rule.head.name.as_str(), &none, ends, End::Left)
            || recurses(alt, rule.head.name.as_str(), &none, ends, End::Right) {
            return true;
        }
        k += 1;
    }
    false
}

/// See `recursive_heads_view`.
pub fn compute_recursive_heads(rules: &Vec<SyntaxRule>, ends: &Ends) -> (heads: Vec<String>)
    ensures
        strings_view(heads@) == recursive_heads_view(syntax_rules_view(rules@), ends@),
{
    let ghost rv = syntax_rules_view(rules@);
    let mut heads: Vec<String> = Vec::new();
    let mut i: usize = 0;
    while i < rules.len()
        invariant
            0 <= i <= rules@.len(),
            rv == syntax_rules_view(rules@),
            strings_view(heads@) == recursive_heads_view(rv.take(i as int), ends@),
        decreases rules@.len() - i,
    {
        let rule = &rules[i];
        proof {
            assert(rv.take(i + 1).drop_last() =~= rv.take(i as int));
            assert(rv.take(i + 1).last() == rule@);
        }
        let ghost before = strings_view(heads@);
        if needs_desugaring(rule) && has_recursive_path(rule, ends) {
            heads.push(rule.head.name.clone());
            assert(strings_view(heads@) =~= before + seq![rule@.head.name]);
        } else {
            assert(strings_view(heads@) =~= before + Seq::<Seq<char>>::empty());
        }
        i += 1;
    }
    assert(rv.take(i as int) =~= rv);
    heads
}

} // verus!
