//! The rewrite of precedence heads, intermediate nonterminals and the
//! references to both.
use vstd::prelude::*;
use crate::grammar::def::{
    syntax_rules_view, Alternative, PriorityLevel, SpecAlternative, SpecPriorityLevel, SpecSyntaxRule, SyntaxRule,
};
use crate::grammar::symbols::{
    exprs_view, lemma_exprs_view_push, lemma_symbols_view, lemma_symbols_view_push, spec_as_identifier,
    spec_restricted, strings_view, symbols_view, CondOp, Expr, Identifier, Nonterminal, ParamType,
    Parameter, SpecExpr, SpecIdentifier, SpecNonterminal, SpecParameter, SpecSymbol, Symbol,
};
use crate::grammar::transformations::return_value::{
    exclusion_return, name_or_tuple, shape_names, shape_values, single_or_tuple, take_exclusion_return,
    ReturnShape,
};
use crate::grammar::def::Associativity;
use super::indirect::required_at;
use super::{
    choose_view, compare, compare_view, end_restrictions, end_wrappers, exclusion_mask_view,
    extract_exclusion_mask, extract_identifier, int_expr, label_symbol, label_symbol_view,
    left_postcondition, left_postcondition_view, local_exclusion_postcondition_view,
    make_local_exclusion_postcondition, make_precondition, outer_label, precondition_view, reference,
    right_precedence, right_precedence_view, ternary, undefined_precedence_condition,
    undefined_precedence_condition_view,
};
use super::analysis::{
    classify, classify_view, compute_recursive_heads, ends_of, recursive_heads_view, Ends, RecursionKind, SpecEnds,
};
use super::{
    end_index, end_index_view, end_selection_condition, end_selection_condition_view, end_symbol,
    end_symbol_view, end_value, end_value_view, precedence_for_end, precedence_for_end_view,
    referenced, referenced_name, suffixed_ref, End,
};
use super::indirect::at_end;
use crate::grammar::def::rule_alternatives;
use crate::grammar::equality::expr_eq;
use crate::grammar::transformations::return_value::{undefined_precedence, undefined_precedence_view};
use crate::grammar::def::{alternatives_view, levels_view};
use crate::grammar::transformations::{map_rule_by_symbols, map_rule_symbols};
use super::associativity::{
    associativity_arguments_view, associativity_returns_view, compute_associativity_arguments,
    compute_associativity_returns, compute_exclusion_targets, exclusion_targets_view, flags_get,
    flags_view, lookup_flags,
};
use super::indirect::{
    compute_indirect_recursion, conflicting, indirect_get, indirect_record, indirect_view, lookup,
    map_lookup, multi_head_message, priority_names, rule_names, strictly_sorted, walks_view,
    IndirectRecursion, SpecIndirect,
};
use crate::text::string_of;

verus! {

/// What the rewrite needs to know of a grammar.
pub struct SpecAnalysis {
    pub heads: Seq<Seq<char>>,
    pub ends: SpecEnds,
    pub targets: Seq<Seq<char>>,
    pub indirect: spec_fn(Seq<char>) -> Option<SpecIndirect>,
    pub flags: spec_fn(Seq<char>) -> Option<Seq<bool>>,
    pub returns_assoc: Seq<Seq<char>>,
}

/// The recursive precedence heads, the end relations, the exclusion
/// targets, the intermediate nonterminals, the levels using `a` and the
/// heads returning an associativity level.
pub struct Analysis {
    pub heads: Vec<String>,
    pub ends: Ends,
    pub targets: Vec<String>,
    pub indirect: Vec<(String, IndirectRecursion)>,
    pub flags: Vec<(String, Vec<bool>)>,
    pub returns_assoc: Vec<String>,
}

/// The flags of a flag list, as a lookup.
pub open spec fn flags_lookup(a: Seq<(Seq<char>, Seq<bool>)>) -> spec_fn(Seq<char>) -> Option<Seq<bool>> {
    |x: Seq<char>| flags_get(a, x)
}

/// The records of the intermediate nonterminals, as a lookup.
pub open spec fn records_lookup(rules: Seq<SpecSyntaxRule>, heads: Seq<Seq<char>>, e: SpecEnds) -> spec_fn(Seq<char>) -> Option<SpecIndirect> {
    |x: Seq<char>| indirect_record(rules, heads, e, x)
}

impl View for Analysis {
    type V = SpecAnalysis;

    open spec fn view(&self) -> SpecAnalysis {
        SpecAnalysis {
            heads: strings_view(self.heads@),
            ends: self.ends@,
            targets: strings_view(self.targets@),
            indirect: map_lookup(indirect_view(self.indirect@)),
            flags: flags_lookup(flags_view(self.flags@)),
            returns_assoc: strings_view(self.returns_assoc@),
        }
    }
}

/// The analysis of a grammar.
pub open spec fn analysis_view(rules: Seq<SpecSyntaxRule>) -> SpecAnalysis {
    let e = ends_of(rules);
    let heads = recursive_heads_view(rules, e);
    let get = records_lookup(rules, heads, e);
    let args = associativity_arguments_view(rules, heads, e, get);
    SpecAnalysis {
        heads,
        ends: e,
        targets: exclusion_targets_view(rules),
        indirect: get,
        flags: flags_lookup(args),
        returns_assoc: associativity_returns_view(rules, args),
    }
}

/// Whether walks of two different heads record `x`.
pub open spec fn serves_several_heads(rules: Seq<SpecSyntaxRule>, x: Seq<char>) -> bool {
    let e = ends_of(rules);
    let heads = recursive_heads_view(rules, e);
    conflicting(walks_view(rules, heads, e), rule_names(rules), e, heads, priority_names(rules), x)
}

/// Whether `msgs` are the errors for the nonterminals that serve several
/// heads, sorted by name.
pub open spec fn conflict_errors(rules: Seq<SpecSyntaxRule>, msgs: Seq<Seq<char>>) -> bool {
    exists|s: Seq<Seq<char>>| {
        &&& strictly_sorted(s)
        &&& forall|y: Seq<char>| #[trigger] s.contains(y) <==> serves_several_heads(rules, y)
        &&& msgs == s.map_values(|n: Seq<char>| multi_head_message(n))
    }
}

impl Analysis {
    /// The analysis of `rules`, or the errors for the nonterminals that serve
    /// several precedence heads.
    pub fn new(rules: &Vec<SyntaxRule>) -> (r: Result<Analysis, Vec<String>>)
        ensures
            r is Ok <==> forall|x: Seq<char>| !#[trigger] serves_several_heads(syntax_rules_view(rules@), x),
            r matches Ok(a) ==> a@ == analysis_view(syntax_rules_view(rules@)),
            r matches Err(msgs) ==> conflict_errors(syntax_rules_view(rules@), strings_view(msgs@)),
    {
        let ghost rv = syntax_rules_view(rules@);
        let ends = Ends::new(rules);
        let heads = compute_recursive_heads(rules, &ends);
        match compute_indirect_recursion(rules, &heads, &ends) {
            Ok(indirect) => {
                let flags = compute_associativity_arguments(rules, &heads, &ends, &indirect);
                let returns_assoc = compute_associativity_returns(rules, &flags);
                let targets = compute_exclusion_targets(rules);
                let ghost hv = strings_view(heads@);
                proof {
                    assert(map_lookup(indirect_view(indirect@)) =~= records_lookup(rv, hv, ends@));
                    let ws = walks_view(rv, hv, ends@);
                    assert forall|x: Seq<char>| !#[trigger] serves_several_heads(rv, x) by {
                        assert(!conflicting(ws, rule_names(rv), ends@, hv, priority_names(rv), x));
                    }
                }
                let a = Analysis { heads, ends, targets, indirect, flags, returns_assoc };
                proof {
                    assert(a@.indirect == analysis_view(rv).indirect);
                    assert(a@.flags =~= analysis_view(rv).flags);
                }
                Ok(a)
            },
            Err(msgs) => {
                proof {
                    let e = ends_of(rv);
                    let hv = recursive_heads_view(rv, e);
                    let ws = walks_view(rv, hv, e);
                    let s = choose|s: Seq<Seq<char>>| {
                        &&& strictly_sorted(s)
                        &&& forall|y: Seq<char>| #[trigger] s.contains(y) <==> conflicting(ws, rule_names(rv), e, hv, priority_names(rv), y)
                        &&& strings_view(msgs@) == s.map_values(|n: Seq<char>| multi_head_message(n))
                    };
                    assert forall|y: Seq<char>| #[trigger] s.contains(y) <==> serves_several_heads(rv, y) by {}
                    if forall|x: Seq<char>| !#[trigger] serves_several_heads(rv, x) {
                        assert forall|x: Seq<char>| !#[trigger] conflicting(ws, rule_names(rv), e, hv, priority_names(rv), x) by {
                            assert(!serves_several_heads(rv, x));
                        }
                    }
                }
                Err(msgs)
            },
        }
    }
}

// ---------------------------------------------------------------------------
// Parameters and arguments

/// The precedence head `nt` serves: its own name, or the head of its record.
pub open spec fn head_of(a: SpecAnalysis, nt: Seq<char>) -> Seq<char> {
    match (a.indirect)(nt) {
        Some(r) => r.head,
        None => nt,
    }
}

/// Whether `nt` takes the associativity argument `a`: some level of its
/// head uses it.
pub open spec fn needs_a(a: SpecAnalysis, nt: Seq<char>) -> bool {
    match (a.flags)(head_of(a, nt)) {
        Some(f) => f.contains(true),
        None => false,
    }
}

/// Whether `nt` is an intermediate nonterminal used at both ends.
pub open spec fn at_both_ends(a: SpecAnalysis, nt: Seq<char>) -> bool {
    match (a.indirect)(nt) {
        Some(r) => r.left && r.right,
        None => false,
    }
}

/// The components `nt` returns after its precedence.
pub open spec fn shape_of(a: SpecAnalysis, nt: Seq<char>) -> ReturnShape {
    ReturnShape { associativity: a.returns_assoc.contains(head_of(a, nt)), label: a.targets.contains(nt) }
}

/// The parameters this rewrite gives `nt`, in order: `p`, then `end` and
/// `a` when it needs them. Exclusion desugaring's `e` follows them.
pub open spec fn added_parameter_names(a: SpecAnalysis, nt: Seq<char>) -> Seq<Seq<char>> {
    seq!["p"@] + (if at_both_ends(a, nt) { seq!["end"@] } else { Seq::empty() })
        + (if needs_a(a, nt) { seq!["a"@] } else { Seq::empty() })
}

/// The head with the added `i32` parameters before its own.
pub open spec fn add_parameters_view(a: SpecAnalysis, head: SpecNonterminal) -> SpecNonterminal {
    SpecNonterminal {
        name: head.name,
        origin: head.origin,
        parameters: added_parameter_names(a, head.name).map_values(|n: Seq<char>| SpecParameter { name: n, ty: ParamType::I32 })
            + head.parameters,
    }
}

/// The arguments of a call of `target`: `p`, then `end` and `a` when it
/// takes them, then the exclusion mask when it is an exclusion target.
pub open spec fn call_args(a: SpecAnalysis, target: Seq<char>, p_arg: SpecExpr, end_arg: SpecExpr, local_n: i64, a_arg: SpecExpr) -> Seq<SpecExpr> {
    seq![p_arg] + (if at_both_ends(a, target) { seq![end_arg] } else { Seq::empty() })
        + (if needs_a(a, target) { seq![a_arg] } else { Seq::empty() })
        + (if a.targets.contains(target) { seq![SpecExpr::Int(local_n)] } else { Seq::empty() })
}

/// The arguments of an unrestricted call: zero everywhere.
pub open spec fn unrestricted_args(a: SpecAnalysis, nt: Seq<char>) -> Seq<SpecExpr> {
    call_args(a, nt, SpecExpr::Int(0), SpecExpr::Int(0), 0, SpecExpr::Int(0))
}

impl Analysis {
    /// The record of `nt`, if it is an intermediate nonterminal.
    pub fn record(&self, nt: &str) -> (r: Option<&IndirectRecursion>)
        ensures
            match r {
                Some(rec) => (self@.indirect)(nt@) == Some(rec@),
                None => (self@.indirect)(nt@) is None,
            },
    {
        lookup(&self.indirect, nt)
    }

    /// See `head_of`.
    pub fn head_of(&self, nt: &str) -> (h: String)
        ensures
            h@ == head_of(self@, nt@),
    {
        match self.record(nt) {
            Some(r) => r.head.clone(),
            None => string_of(nt),
        }
    }

    /// See `needs_a`.
    pub fn needs_a(&self, nt: &str) -> (b: bool)
        ensures
            b == needs_a(self@, nt@),
    {
        let head = self.head_of(nt);
        match lookup_flags(&self.flags, head.as_str()) {
            Some(f) => {
                let mut k: usize = 0;
                while k < f.len()
                    invariant
                        0 <= k <= f@.len(),
                        forall|j: int| 0 <= j < k ==> !f@[j],
                        head@ == head_of(self@, nt@),
                        flags_get(flags_view(self.flags@), head@) == Some(f@),
                    decreases f@.len() - k,
                {
                    if f[k] {
                        assert(f@[k as int] == true);
                        assert(f@.contains(true));
                        return true;
                    }
                    k += 1;
                }
                false
            },
            None => false,
        }
    }

    /// See `at_both_ends`.
    pub fn at_both_ends(&self, nt: &str) -> (b: bool)
        ensures
            b == at_both_ends(self@, nt@),
    {
        match self.record(nt) {
            Some(r) => r.is_at_both_ends(),
            None => false,
        }
    }

    /// Whether `nt` is an exclusion target.
    pub fn is_target(&self, nt: &str) -> (b: bool)
        ensures
            b == self@.targets.contains(nt@),
    {
        super::contains_name(&self.targets, nt)
    }

    /// Whether `head` returns an associativity level.
    pub fn returns_assoc(&self, head: &str) -> (b: bool)
        ensures
            b == self@.returns_assoc.contains(head@),
    {
        super::contains_name(&self.returns_assoc, head)
    }

    /// See `shape_of`.
    pub fn shape(&self, nt: &str) -> (s: ReturnShape)
        ensures
            s == shape_of(self@, nt@),
    {
        let head = self.head_of(nt);
        ReturnShape { associativity: self.returns_assoc(head.as_str()), label: self.is_target(nt) }
    }

    /// See `add_parameters_view`.
    pub fn add_parameters(&self, head: Nonterminal) -> (n: Nonterminal)
        ensures
            n@ == add_parameters_view(self@, head@),
    {
        let ghost names = added_parameter_names(self@, head@.name);
        let mut parameters: Vec<Parameter> = Vec::new();
        parameters.push(Parameter { name: string_of("p"), ty: ParamType::I32 });
        if self.at_both_ends(head.name.as_str()) {
            parameters.push(Parameter { name: string_of("end"), ty: ParamType::I32 });
        }
        if self.needs_a(head.name.as_str()) {
            parameters.push(Parameter { name: string_of("a"), ty: ParamType::I32 });
        }
        assert(parameters@.map_values(|p: Parameter| p@)
            =~= names.map_values(|n: Seq<char>| SpecParameter { name: n, ty: ParamType::I32 }));
        let ghost added = parameters@;
        let Nonterminal { name, origin, parameters: own } = head;
        let mut own = own;
        parameters.append(&mut own);
        assert(parameters@.map_values(|p: Parameter| p@)
            =~= added.map_values(|p: Parameter| p@) + head@.parameters);
        Nonterminal { name, origin, parameters }
    }

    /// See `call_args`.
    pub fn call_args(&self, target: &str, p_arg: Expr, end_arg: Expr, local_n: i64, a_arg: Expr) -> (r: Vec<Expr>)
        ensures
            exprs_view(r@) == call_args(self@, target@, p_arg@, end_arg@, local_n, a_arg@),
    {
        let ghost pv = p_arg@;
        let ghost ev = end_arg@;
        let ghost av = a_arg@;
        let mut args: Vec<Expr> = Vec::new();
        proof { lemma_exprs_view_push(args@, p_arg); }
        args.push(p_arg);
        assert(exprs_view(args@) =~= seq![pv]);
        if self.at_both_ends(target) {
            proof { lemma_exprs_view_push(args@, end_arg); }
            args.push(end_arg);
        }
        let ghost after_end = exprs_view(args@);
        assert(after_end =~= seq![pv] + (if at_both_ends(self@, target@) { seq![ev] } else { Seq::<SpecExpr>::empty() }));
        if self.needs_a(target) {
            proof { lemma_exprs_view_push(args@, a_arg); }
            args.push(a_arg);
        }
        let ghost after_a = exprs_view(args@);
        assert(after_a =~= after_end + (if needs_a(self@, target@) { seq![av] } else { Seq::<SpecExpr>::empty() }));
        if self.is_target(target) {
            let n = Expr::Int(local_n);
            proof { lemma_exprs_view_push(args@, n); }
            args.push(n);
        }
        assert(exprs_view(args@) =~= after_a + (if self@.targets.contains(target@) { seq![SpecExpr::Int(local_n)] } else { Seq::<SpecExpr>::empty() }));
        args
    }

    /// See `unrestricted_args`.
    pub fn unrestricted_args(&self, nt: &str) -> (r: Vec<Expr>)
        ensures
            exprs_view(r@) == unrestricted_args(self@, nt@),
    {
        self.call_args(nt, Expr::Int(0), Expr::Int(0), 0, Expr::Int(0))
    }
}

// ---------------------------------------------------------------------------
// Alternatives, their guards, and precedence levels

/// The index of the first symbol at or after `from` that is not a condition.
pub open spec fn first_non_condition(symbols: Seq<SpecSymbol>, from: int) -> int
    decreases symbols.len() - from,
{
    if from >= symbols.len() || from < 0 {
        symbols.len() as int
    } else if symbols[from] is Condition {
        first_non_condition(symbols, from + 1)
    } else {
        from
    }
}

/// The symbols without the return added by exclusion desugaring.
pub open spec fn without_exclusion_return(symbols: Seq<SpecSymbol>) -> Seq<SpecSymbol> {
    match exclusion_return(symbols) {
        Some(_) => symbols.drop_last(),
        None => symbols,
    }
}

/// The label index recorded by the exclusion return, if any.
pub open spec fn trailing_label(symbols: Seq<SpecSymbol>) -> Option<usize> {
    match exclusion_return(symbols) {
        Some(l) => l,
        None => None,
    }
}

/// The leading conditions (exclusion guards) of an alternative.
pub open spec fn guard_prefix(alt: SpecAlternative) -> Seq<SpecSymbol> {
    let s = without_exclusion_return(alt.symbols);
    s.take(first_non_condition(s, 0))
}

/// The alternative without its guards and its exclusion return.
pub open spec fn core_of(alt: SpecAlternative) -> SpecAlternative {
    let s = without_exclusion_return(alt.symbols);
    SpecAlternative { symbols: s.skip(first_non_condition(s, 0)), label: alt.label }
}

/// Separates the guards and the exclusion return from the grammar symbols.
pub fn split_alt_decorations(alt: Alternative) -> (r: (Vec<Symbol>, Alternative, Option<usize>))
    ensures
        symbols_view(r.0@) == guard_prefix(alt@),
        r.1@ == core_of(alt@),
        r.2 == trailing_label(alt@.symbols),
{
    let ghost av = alt@;
    let Alternative { symbols, label } = alt;
    let mut symbols = symbols;
    proof { lemma_symbols_view(symbols@); }
    let trailing = take_exclusion_return(&mut symbols);
    let ghost sv = symbols_view(symbols@);
    proof {
        lemma_symbols_view(symbols@);
        assert(sv =~= without_exclusion_return(av.symbols)) by {
            match exclusion_return(av.symbols) {
                Some(_) => {
                    assert forall|k: int| 0 <= k < sv.len() implies sv[k] == av.symbols.drop_last()[k] by {}
                },
                None => {},
            }
        }
    }
    let mut n: usize = 0;
    while n < symbols.len() && matches!(symbols[n], Symbol::Condition(_))
        invariant
            0 <= n <= symbols@.len(),
            sv == symbols_view(symbols@),
            sv.len() == symbols@.len(),
            forall|k: int| 0 <= k < symbols@.len() ==> #[trigger] sv[k] == symbols@[k]@,
            first_non_condition(sv, 0) == first_non_condition(sv, n as int),
        decreases symbols@.len() - n,
    {
        assert(sv[n as int] == symbols@[n as int]@);
        n += 1;
    }
    proof {
        if n < symbols@.len() {
            assert(sv[n as int] == symbols@[n as int]@);
        }
        assert(first_non_condition(sv, n as int) == n);
    }
    let ghost whole = symbols@;
    let rest = symbols.split_off(n);
    proof {
        lemma_symbols_view(symbols@);
        lemma_symbols_view(rest@);
        assert(symbols_view(symbols@) =~= sv.take(n as int));
        assert(symbols_view(rest@) =~= sv.skip(n as int));
    }
    (symbols, Alternative { symbols: rest, label }, trailing)
}

/// Whether some alternative of the level recurses into `head`.
pub open spec fn recursive_level(level: SpecPriorityLevel, head: Seq<char>, heads: Seq<Seq<char>>, e: SpecEnds) -> bool {
    exists|k: int| 0 <= k < level.alternatives.len()
        && classify_view(#[trigger] level.alternatives[k], head, heads, e) != RecursionKind::NonRecursive
}

/// The number of recursive levels from `i` on.
pub open spec fn recursive_levels_from(levels: Seq<SpecPriorityLevel>, i: int, head: Seq<char>, heads: Seq<Seq<char>>, e: SpecEnds) -> nat
    decreases levels.len() - i,
{
    if i >= levels.len() || i < 0 {
        0
    } else {
        recursive_levels_from(levels, i + 1, head, heads, e) + if recursive_level(levels[i], head, heads, e) { 1nat } else { 0nat }
    }
}

/// The precedence of level `i`: recursive levels are numbered from 1,
/// bottom to top; the others have none.
pub open spec fn level_precedence(levels: Seq<SpecPriorityLevel>, i: int, head: Seq<char>, heads: Seq<Seq<char>>, e: SpecEnds) -> Option<i64> {
    if recursive_level(levels[i], head, heads, e) {
        Some(recursive_levels_from(levels, i, head, heads, e) as i64)
    } else {
        None
    }
}

proof fn lemma_recursive_levels_bound(levels: Seq<SpecPriorityLevel>, i: int, head: Seq<char>, heads: Seq<Seq<char>>, e: SpecEnds)
    requires
        0 <= i <= levels.len(),
    ensures
        recursive_levels_from(levels, i, head, heads, e) <= levels.len() - i,
    decreases levels.len() - i,
{
    if i < levels.len() {
        lemma_recursive_levels_bound(levels, i + 1, head, heads, e);
    }
}

proof fn lemma_recursive_levels_monotone(levels: Seq<SpecPriorityLevel>, i: int, j: int, head: Seq<char>, heads: Seq<Seq<char>>, e: SpecEnds)
    requires
        0 <= i <= j <= levels.len(),
    ensures
        recursive_levels_from(levels, j, head, heads, e) <= recursive_levels_from(levels, i, head, heads, e),
    decreases j - i,
{
    if i < j {
        lemma_recursive_levels_monotone(levels, i + 1, j, head, heads, e);
    }
}

/// Levels with recursive alternatives get precedences numbered from 1,
/// bottom to top: each has a precedence of at least 1, and of two such
/// levels the one above has the greater precedence.
pub proof fn precedences_grow_upward(levels: Seq<SpecPriorityLevel>, head: Seq<char>, heads: Seq<Seq<char>>, e: SpecEnds, i: int, j: int)
    requires
        levels.len() < i64::MAX,
        0 <= i < j < levels.len(),
        recursive_level(levels[i], head, heads, e),
        recursive_level(levels[j], head, heads, e),
    ensures
        level_precedence(levels, j, head, heads, e) is Some,
        level_precedence(levels, i, head, heads, e) is Some,
        level_precedence(levels, j, head, heads, e)->Some_0 >= 1,
        level_precedence(levels, i, head, heads, e)->Some_0 > level_precedence(levels, j, head, heads, e)->Some_0,
{
    lemma_recursive_levels_bound(levels, i, head, heads, e);
    lemma_recursive_levels_bound(levels, j, head, heads, e);
    lemma_recursive_levels_monotone(levels, i + 1, j, head, heads, e);
    assert(recursive_levels_from(levels, i, head, heads, e) == recursive_levels_from(levels, i + 1, head, heads, e) + 1);
    assert(recursive_levels_from(levels, j, head, heads, e) == recursive_levels_from(levels, j + 1, head, heads, e) + 1);
}

/// See `recursive_level`.
fn is_recursive_level(level: &PriorityLevel, head: &str, a: &Analysis) -> (b: bool)
    ensures
        b == recursive_level(level@, head@, a@.heads, a@.ends),
{
    let mut k: usize = 0;
    while k < level.alternatives.len()
        invariant
            0 <= k <= level.alternatives@.len(),
            forall|j: int| 0 <= j < k ==> classify_view(#[trigger] level@.alternatives[j], head@, a@.heads, a@.ends) == RecursionKind::NonRecursive,
        decreases level.alternatives@.len() - k,
    {
        assert(level@.alternatives[k as int] == level.alternatives@[k as int]@);
        if classify(&level.alternatives[k], head, &a.heads, &a.ends) != RecursionKind::NonRecursive {
            return true;
        }
        k += 1;
    }
    false
}

/// The precedence of each level; see `level_precedence`.
pub fn assign_precedence(levels: &Vec<PriorityLevel>, head: &str, a: &Analysis) -> (r: Vec<Option<i64>>)
    requires
        levels@.len() < i64::MAX,
    ensures
        r@.len() == levels@.len(),
        forall|i: int| 0 <= i < levels@.len() ==> #[trigger] r@[i]
            == level_precedence(levels_view(levels@), i, head@, a@.heads, a@.ends),
{
    let ghost lv = levels_view(levels@);
    let mut rev: Vec<Option<i64>> = Vec::new();
    let mut next: i64 = 1;
    let mut i: usize = levels.len();
    while i > 0
        invariant
            0 <= i <= levels@.len(),
            levels@.len() < i64::MAX,
            lv == levels_view(levels@),
            lv.len() == levels@.len(),
            rev@.len() == levels@.len() - i,
            next == recursive_levels_from(lv, i as int, head@, a@.heads, a@.ends) + 1,
            forall|j: int| i <= j < levels@.len() ==> #[trigger] rev@[levels@.len() - 1 - j]
                == level_precedence(lv, j, head@, a@.heads, a@.ends),
        decreases i,
    {
        proof { lemma_recursive_levels_bound(lv, i as int, head@, a@.heads, a@.ends); }
        assert(lv[i - 1] == levels@[i - 1]@);
        if is_recursive_level(&levels[i - 1], head, a) {
            rev.push(Some(next));
            next = next + 1;
        } else {
            rev.push(None);
        }
        i -= 1;
    }
    let mut out: Vec<Option<i64>> = Vec::new();
    let mut k: usize = rev.len();
    while k > 0
        invariant
            0 <= k <= rev@.len(),
            rev@.len() == levels@.len(),
            out@.len() == rev@.len() - k,
            forall|j: int| 0 <= j < out@.len() ==> #[trigger] out@[j] == rev@[rev@.len() - 1 - j],
        decreases k,
    {
        out.push(rev[k - 1]);
        k -= 1;
    }
    out
}

/// Whether an alternative can act as a prefix: a prefix, or a binary
/// alternative whose left end can be absent.
pub open spec fn acts_as_prefix(alt: SpecAlternative, head: Seq<char>, a: SpecAnalysis) -> bool {
    let kind = classify_view(alt, head, a.heads, a.ends);
    kind == RecursionKind::Prefix || (kind == RecursionKind::Binary
        && match referenced_name(end_symbol_view(alt.symbols, End::Left)) {
            Some(n) => match (a.indirect)(n) {
                Some(r) => !r.left_required,
                None => false,
            },
            None => false,
        })
}

/// The smaller of two optional precedences.
pub open spec fn min_opt(x: Option<i64>, y: Option<i64>) -> Option<i64> {
    match (x, y) {
        (Some(p), Some(q)) => Some(if p <= q { p } else { q }),
        (Some(p), None) => Some(p),
        (None, q) => q,
    }
}

/// The lowest precedence among the first `n` levels with a precedence and
/// an alternative that can act as a prefix.
pub open spec fn min_prefix_view(levels: Seq<SpecPriorityLevel>, precs: Seq<Option<i64>>, head: Seq<char>, a: SpecAnalysis, n: int) -> Option<i64>
    decreases n,
{
    if n <= 0 {
        None
    } else {
        min_opt(
            min_prefix_view(levels, precs, head, a, n - 1),
            if precs[n - 1] is Some && exists|k: int| 0 <= k < levels[n - 1].alternatives.len()
                && acts_as_prefix(#[trigger] levels[n - 1].alternatives[k], head, a) {
                precs[n - 1]
            } else {
                None
            },
        )
    }
}

/// See `acts_as_prefix`.
fn can_act_as_prefix(alt: &Alternative, head: &str, a: &Analysis) -> (b: bool)
    ensures
        b == acts_as_prefix(alt@, head@, a@),
{
    let kind = classify(alt, head, &a.heads, &a.ends);
    if kind == RecursionKind::Prefix {
        return true;
    }
    if kind != RecursionKind::Binary {
        return false;
    }
    match referenced(end_symbol(&alt.symbols, End::Left)) {
        Some(n) => match a.record(n.as_str()) {
            Some(r) => !r.left_required,
            None => false,
        },
        None => false,
    }
}

/// See `min_prefix_view`.
pub fn min_prefix_precedence(levels: &Vec<PriorityLevel>, precs: &Vec<Option<i64>>, head: &str, a: &Analysis) -> (r: Option<i64>)
    requires
        precs@.len() == levels@.len(),
    ensures
        r == min_prefix_view(levels_view(levels@), precs@, head@, a@, levels@.len() as int),
{
    let ghost lv = levels_view(levels@);
    let mut best: Option<i64> = None;
    let mut i: usize = 0;
    while i < levels.len()
        invariant
            0 <= i <= levels@.len(),
            precs@.len() == levels@.len(),
            lv == levels_view(levels@),
            best == min_prefix_view(lv, precs@, head@, a@, i as int),
        decreases levels@.len() - i,
    {
        let level = &levels[i];
        assert(lv[i as int] == level@);
        let mut candidate: Option<i64> = None;
        if let Some(pr) = precs[i] {
            let mut k: usize = 0;
            let mut found = false;
            while k < level.alternatives.len()
                invariant
                    0 <= k <= level.alternatives@.len(),
                    found == exists|j: int| 0 <= j < k && acts_as_prefix(#[trigger] level@.alternatives[j], head@, a@),
                decreases level.alternatives@.len() - k,
            {
                assert(level@.alternatives[k as int] == level.alternatives@[k as int]@);
                if can_act_as_prefix(&level.alternatives[k], head, a) {
                    found = true;
                }
                k += 1;
            }
            if found {
                candidate = Some(pr);
            }
        }
        best = match (best, candidate) {
            (Some(p), Some(q)) => Some(if p <= q { p } else { q }),
            (Some(p), None) => Some(p),
            (None, q) => q,
        };
        i += 1;
    }
    best
}

// ---------------------------------------------------------------------------
// Rewriting the alternatives of a precedence head

/// `out` followed by `more`.
pub proof fn lemma_symbols_view_add(out: Seq<Symbol>, more: Seq<Symbol>)
    ensures
        symbols_view(out + more) == symbols_view(out) + symbols_view(more),
{
    lemma_symbols_view(out);
    lemma_symbols_view(more);
    lemma_symbols_view(out + more);
    assert(symbols_view(out + more) =~= symbols_view(out) + symbols_view(more));
}

/// Appends `s` to `out`.
fn push_symbol(out: &mut Vec<Symbol>, s: Symbol)
    ensures
        symbols_view(final(out)@) == symbols_view(old(out)@).push(s@),
{
    proof { lemma_symbols_view_push(out@, s); }
    out.push(s);
}

/// Appends `more` to `out`.
fn push_all(out: &mut Vec<Symbol>, more: Vec<Symbol>)
    ensures
        symbols_view(final(out)@) == symbols_view(old(out)@) + symbols_view(more@),
{
    let mut more = more;
    proof { lemma_symbols_view_add(out@, more@); }
    out.append(&mut more);
}

/// Whether the intermediate nonterminal `name` can lack its head at `end`.
pub open spec fn optional_at_end(a: SpecAnalysis, name: Seq<char>, end: End) -> bool {
    match (a.indirect)(name) {
        Some(r) => !required_at(r, end),
        None => false,
    }
}

/// The return of a precedence head's alternative.
pub open spec fn return_view(shape: ReturnShape, precedence: SpecExpr, associativity: SpecExpr, label: Option<usize>) -> SpecSymbol {
    SpecSymbol::Return(single_or_tuple(shape_values(shape, precedence, associativity, label)))
}

/// The left recursive call `l_pr=E(p)`, under the end's label; an
/// exclusion target is called with mask 0 and its label checked after.
pub open spec fn left_binding_view(a: SpecAnalysis, id: SpecIdentifier, label: Option<Seq<char>>) -> SpecSymbol {
    SpecSymbol::Binding {
        pattern: name_or_tuple(shape_names(shape_of(a, id.name), "l"@)),
        symbol: Box::new(label_symbol_view(label, SpecSymbol::Call {
            name: id,
            arguments: call_args(a, id.name, SpecExpr::Ref("p"@), SpecExpr::Int(0), 0, SpecExpr::Int(0)),
        })),
    }
}

/// The condition that holds when an optional end is absent, if either is.
pub open spec fn absent_view(optional_left: bool, optional_right: bool) -> Option<SpecExpr> {
    if optional_left && optional_right {
        Some(SpecExpr::Or(Box::new(undefined_precedence_condition_view("l"@)), Box::new(undefined_precedence_condition_view("r"@))))
    } else if optional_left {
        Some(undefined_precedence_condition_view("l"@))
    } else if optional_right {
        Some(undefined_precedence_condition_view("r"@))
    } else {
        None
    }
}

/// `[a != pr]`: the caller does not exclude this level's binary alternatives.
pub open spec fn incoming_check(pr: i64) -> SpecExpr {
    compare_view(SpecExpr::Ref("a"@), CondOp::Neq, SpecExpr::Int(pr))
}

/// `[l_assoc != pr]`: the left end is not a binary alternative of this level.
pub open spec fn left_associativity_check(pr: i64) -> SpecExpr {
    compare_view(SpecExpr::Ref("l_assoc"@), CondOp::Neq, SpecExpr::Int(pr))
}

/// The checks deferred until both calls return: one condition per check,
/// which also holds when an end is absent.
pub open spec fn deferred_view(absent: SpecExpr, checks: Seq<SpecExpr>) -> Seq<SpecSymbol> {
    checks.map_values(|c: SpecExpr| SpecSymbol::Condition(SpecExpr::Or(Box::new(absent), Box::new(c))))
}

/// Whether the level's associativity restricts the left end.
pub open spec fn restricts_left(assoc: Option<Associativity>) -> bool {
    assoc == Some(Associativity::Right) || assoc == Some(Associativity::NonAssoc)
}

/// Whether the level's associativity restricts the right end.
pub open spec fn restricts_right(assoc: Option<Associativity>) -> bool {
    assoc == Some(Associativity::Left) || assoc == Some(Associativity::NonAssoc)
}

/// The name at the left end of a binary or postfix alternative.
pub open spec fn left_name(alt: SpecAlternative) -> Seq<char> {
    spec_as_identifier(alt.symbols[0])->0.name
}

/// The name at the right end of a binary or prefix alternative.
pub open spec fn right_name(alt: SpecAlternative) -> Seq<char> {
    spec_as_identifier(alt.symbols.last())->0.name
}

/// The condition under which an end of the binary alternative is absent.
pub open spec fn binary_absent(a: SpecAnalysis, alt: SpecAlternative) -> Option<SpecExpr> {
    absent_view(optional_at_end(a, left_name(alt), End::Left), optional_at_end(a, right_name(alt), End::Right))
}

/// The associativity checks of a level using `a`: on the incoming argument
/// when the right end is restricted, on the left end's level when the left
/// end is.
pub open spec fn binary_checks(pr: i64, assoc: Option<Associativity>, use_a: bool) -> (Seq<SpecExpr>, Seq<SpecExpr>) {
    (
        if use_a && restricts_right(assoc) { seq![incoming_check(pr)] } else { Seq::empty() },
        if use_a && restricts_left(assoc) { seq![left_associativity_check(pr)] } else { Seq::empty() },
    )
}

/// The symbols of a binary alternative before its middle: the
/// precondition, the left call and its checks.
pub open spec fn binary_left_symbols(a: SpecAnalysis, alt: SpecAlternative, pr: i64, assoc: Option<Associativity>, use_a: bool) -> Seq<SpecSymbol> {
    let left = alt.symbols[0];
    let left_id = spec_as_identifier(left)->0;
    let optional_left = optional_at_end(a, left_id.name, End::Left);
    let left_lower_bound = if !use_a && restricts_left(assoc) { (pr + 1) as i64 } else { pr };
    let immediate = binary_absent(a, alt) is None;
    let checks = binary_checks(pr, assoc, use_a);
    let left_mask = exclusion_mask_view(left);
    (if !optional_left { seq![precondition_view(pr)] } else { Seq::empty() })
        + (if immediate { checks.0.map_values(|c: SpecExpr| SpecSymbol::Condition(c)) } else { Seq::empty() })
        + seq![spec_restricted(left_binding_view(a, left_id, outer_label(left)), end_restrictions(left))]
        + seq![left_postcondition_view(pr, left_lower_bound, optional_left)]
        + (if a.targets.contains(left_id.name) && left_mask != 0 { seq![local_exclusion_postcondition_view(left_mask, "l"@)] } else { Seq::empty() })
        + (if immediate { checks.1.map_values(|c: SpecExpr| SpecSymbol::Condition(c)) } else { Seq::empty() })
}

/// The right call of a binary alternative: `E(pr)`, `E(pr + 1)` for a
/// left or non-associative level, with `a` when it takes it, bound to
/// `r_pr` when its return is read.
pub open spec fn binary_right_symbol(a: SpecAnalysis, alt: SpecAlternative, pr: i64, assoc: Option<Associativity>, use_a: bool, min_prefix: Option<i64>) -> SpecSymbol {
    let right = alt.symbols.last();
    let right_id = spec_as_identifier(right)->0;
    let optional_left = optional_at_end(a, left_name(alt), End::Left);
    let optional_right = optional_at_end(a, right_id.name, End::Right);
    let right_arg = if !use_a && restricts_right(assoc) { (pr + 1) as i64 } else { pr };
    let use_min = match min_prefix { Some(m) => pr > m, None => false };
    let right_a = if use_a && restricts_right(assoc) {
        if optional_left {
            choose_view(undefined_precedence_condition_view("l"@), SpecExpr::Int(0), SpecExpr::Int(pr))
        } else {
            SpecExpr::Int(pr)
        }
    } else {
        SpecExpr::Int(0)
    };
    let call = label_symbol_view(outer_label(right), SpecSymbol::Call {
        name: right_id,
        arguments: call_args(a, right_id.name, SpecExpr::Int(right_arg), SpecExpr::Int(1), exclusion_mask_view(right), right_a),
    });
    let right_call = if use_a || use_min || optional_right {
        SpecSymbol::Binding { pattern: name_or_tuple(shape_names(shape_of(a, right_id.name), "r"@)), symbol: Box::new(call) }
    } else {
        call
    };
    spec_restricted(right_call, end_restrictions(right))
}

/// The checks a binary alternative defers until both calls return.
pub open spec fn binary_deferred(a: SpecAnalysis, alt: SpecAlternative, pr: i64, assoc: Option<Associativity>, use_a: bool) -> Seq<SpecSymbol> {
    let checks = binary_checks(pr, assoc, use_a);
    match binary_absent(a, alt) {
        Some(ab) => deferred_view(ab, checks.0 + checks.1),
        None => Seq::empty(),
    }
}

/// The return of a binary alternative.
pub open spec fn binary_return(a: SpecAnalysis, alt: SpecAlternative, pr: i64, assoc: Option<Associativity>, use_a: bool, min_prefix: Option<i64>, shape: ReturnShape, trailing: Option<usize>) -> SpecSymbol {
    let use_min = match min_prefix { Some(m) => pr > m, None => false };
    let associativity = if use_a && restricts_left(assoc) {
        match binary_absent(a, alt) {
            Some(ab) => choose_view(ab, SpecExpr::Int(0), SpecExpr::Int(pr)),
            None => SpecExpr::Int(pr),
        }
    } else {
        SpecExpr::Int(0)
    };
    return_view(shape, right_precedence_view(pr, use_min, optional_at_end(a, right_name(alt), End::Right)), associativity, trailing)
}

/// The rewrite of a binary alternative `E op E` at level `pr`:
/// `[pr >= p] l_pr=E(p) [l_pr == 0 || l_pr >= pr] op E(pr) return pr`, with
/// `pr + 1` on the right (left associativity) or in the left check (right
/// associativity), or the argument `a` when the level uses it, and the
/// checks of optional ends deferred until both calls return.
pub open spec fn rewrite_binary_view(a: SpecAnalysis, alt: SpecAlternative, pr: i64, assoc: Option<Associativity>, use_a: bool, min_prefix: Option<i64>, shape: ReturnShape, trailing: Option<usize>) -> SpecAlternative {
    SpecAlternative {
        symbols: binary_left_symbols(a, alt, pr, assoc, use_a)
            + alt.symbols.subrange(1, alt.symbols.len() - 1)
            + seq![binary_right_symbol(a, alt, pr, assoc, use_a, min_prefix)]
            + binary_deferred(a, alt, pr, assoc, use_a)
            + seq![binary_return(a, alt, pr, assoc, use_a, min_prefix, shape, trailing)],
        label: alt.label,
    }
}

/// See `left_binding_view`.
fn make_left_binding(a: &Analysis, id: &Identifier, label: &Option<String>) -> (s: Symbol)
    ensures
        s@ == left_binding_view(a@, id@, crate::grammar::def::option_string_view(*label)),
{
    let args = a.call_args(id.name.as_str(), reference("p"), int_expr(0), 0, int_expr(0));
    let call = Symbol::Call { name: id.clone(), arguments: args };
    let labeled = label_symbol(label, call);
    let pattern = a.shape(id.name.as_str()).binding("l");
    Symbol::Binding { pattern, symbol: Box::new(labeled) }
}

/// See `absent_view`.
fn absent(optional_left: bool, optional_right: bool) -> (r: Option<Expr>)
    ensures
        match r {
            Some(e) => absent_view(optional_left, optional_right) == Some(e@),
            None => absent_view(optional_left, optional_right) is None,
        },
{
    if optional_left && optional_right {
        let l = undefined_precedence_condition("l");
        let r = undefined_precedence_condition("r");
        let e = Expr::Or(Box::new(l), Box::new(r));
        assert(e@ == SpecExpr::Or(Box::new(l@), Box::new(r@)));
        Some(e)
    } else if optional_left {
        Some(undefined_precedence_condition("l"))
    } else if optional_right {
        Some(undefined_precedence_condition("r"))
    } else {
        None
    }
}

/// Whether the intermediate nonterminal `name` can lack its head at `end`.
fn is_optional_at_end(a: &Analysis, name: &str, end: End) -> (b: bool)
    ensures
        b == optional_at_end(a@, name@, end),
{
    match a.record(name) {
        Some(r) => !r.is_always_present_at_end(end),
        None => false,
    }
}

/// Splits off the first and the last symbol.
fn split_ends(symbols: Vec<Symbol>) -> (r: (Symbol, Vec<Symbol>, Symbol))
    requires
        symbols@.len() >= 2,
    ensures
        r.0@ == symbols_view(symbols@)[0],
        symbols_view(r.1@) == symbols_view(symbols@).subrange(1, symbols@.len() - 1),
        r.2@ == symbols_view(symbols@).last(),
{
    let ghost sv = symbols_view(symbols@);
    proof { lemma_symbols_view(symbols@); }
    let mut middle = symbols;
    let last = middle.pop().unwrap();
    let first = middle.remove(0);
    proof {
        lemma_symbols_view(middle@);
        assert(symbols_view(middle@) =~= sv.subrange(1, sv.len() - 1));
    }
    (first, middle, last)
}

/// See `restricts_left`.
fn is_left_restricted(assoc: Option<Associativity>) -> (b: bool)
    ensures
        b == restricts_left(assoc),
{
    match assoc {
        Some(Associativity::Right) => true,
        Some(Associativity::NonAssoc) => true,
        _ => false,
    }
}

/// See `restricts_right`.
fn is_right_restricted(assoc: Option<Associativity>) -> (b: bool)
    ensures
        b == restricts_right(assoc),
{
    match assoc {
        Some(Associativity::Left) => true,
        Some(Associativity::NonAssoc) => true,
        _ => false,
    }
}

/// See `binary_absent`.
fn make_binary_absent(a: &Analysis, left: &Symbol, right: &Symbol, Ghost(alt): Ghost<SpecAlternative>) -> (r: Option<Expr>)
    requires
        alt.symbols.len() >= 2,
        left@ == alt.symbols[0],
        right@ == alt.symbols.last(),
        spec_as_identifier(left@) is Some,
        spec_as_identifier(right@) is Some,
    ensures
        match r {
            Some(e) => binary_absent(a@, alt) == Some(e@),
            None => binary_absent(a@, alt) is None,
        },
{
    let ol = is_optional_at_end(a, extract_identifier(left).name.as_str(), End::Left);
    let or = is_optional_at_end(a, extract_identifier(right).name.as_str(), End::Right);
    absent(ol, or)
}

/// See `binary_left_symbols`.
fn make_binary_left_symbols(a: &Analysis, left: &Symbol, pr: i64, assoc: Option<Associativity>, use_a: bool, immediate: bool, Ghost(alt): Ghost<SpecAlternative>) -> (r: Vec<Symbol>)
    requires
        alt.symbols.len() >= 2,
        left@ == alt.symbols[0],
        spec_as_identifier(left@) is Some,
        pr < i64::MAX,
        immediate == (binary_absent(a@, alt) is None),
    ensures
        symbols_view(r@) == binary_left_symbols(a@, alt, pr, assoc, use_a),
{
    let left_id = extract_identifier(left);
    let optional_left = is_optional_at_end(a, left_id.name.as_str(), End::Left);
    let (left_restrictions, left_label) = end_wrappers(left);
    let restrict_left = is_left_restricted(assoc);
    let restrict_right = is_right_restricted(assoc);
    let left_lower_bound = if !use_a && restrict_left { pr + 1 } else { pr };
    let mut out: Vec<Symbol> = Vec::new();
    if !optional_left {
        push_symbol(&mut out, make_precondition(pr));
    }
    let ghost p1 = symbols_view(out@);
    if use_a && restrict_right && immediate {
        push_symbol(&mut out, Symbol::Condition(compare(reference("a"), CondOp::Neq, int_expr(pr))));
    }
    let ghost p2 = symbols_view(out@);
    push_symbol(&mut out, Symbol::restricted(make_left_binding(a, left_id, &left_label), left_restrictions));
    push_symbol(&mut out, left_postcondition(pr, left_lower_bound, optional_left));
    let left_mask = extract_exclusion_mask(left);
    if a.is_target(left_id.name.as_str()) && left_mask != 0 {
        push_symbol(&mut out, make_local_exclusion_postcondition(left_mask, "l"));
    }
    let ghost p3 = symbols_view(out@);
    if use_a && restrict_left && immediate {
        push_symbol(&mut out, Symbol::Condition(compare(reference("l_assoc"), CondOp::Neq, int_expr(pr))));
    }
    proof {
        let checks = binary_checks(pr, assoc, use_a);
        assert(p2 =~= p1 + (if immediate { checks.0.map_values(|c: SpecExpr| SpecSymbol::Condition(c)) } else { Seq::empty() }));
        assert(symbols_view(out@) =~= p3 + (if immediate { checks.1.map_values(|c: SpecExpr| SpecSymbol::Condition(c)) } else { Seq::empty() }));
        assert(symbols_view(out@) =~= binary_left_symbols(a@, alt, pr, assoc, use_a));
    }
    out
}

/// See `binary_right_symbol`.
fn make_binary_right_symbol(a: &Analysis, left: &Symbol, right: &Symbol, pr: i64, assoc: Option<Associativity>, use_a: bool, min_prefix: Option<i64>, Ghost(alt): Ghost<SpecAlternative>) -> (r: Symbol)
    requires
        alt.symbols.len() >= 2,
        left@ == alt.symbols[0],
        right@ == alt.symbols.last(),
        spec_as_identifier(left@) is Some,
        spec_as_identifier(right@) is Some,
        pr < i64::MAX,
    ensures
        r@ == binary_right_symbol(a@, alt, pr, assoc, use_a, min_prefix),
{
    let right_id = extract_identifier(right);
    let optional_left = is_optional_at_end(a, extract_identifier(left).name.as_str(), End::Left);
    let optional_right = is_optional_at_end(a, right_id.name.as_str(), End::Right);
    let (right_restrictions, right_label) = end_wrappers(right);
    let restrict_right = is_right_restricted(assoc);
    let right_arg = if !use_a && restrict_right { pr + 1 } else { pr };
    let use_min = match min_prefix {
        Some(m) => pr > m,
        None => false,
    };
    let right_a = if use_a && restrict_right {
        if optional_left {
            ternary(undefined_precedence_condition("l"), int_expr(0), int_expr(pr))
        } else {
            int_expr(pr)
        }
    } else {
        int_expr(0)
    };
    let args = a.call_args(right_id.name.as_str(), int_expr(right_arg), int_expr(1), extract_exclusion_mask(right), right_a);
    let call = label_symbol(&right_label, Symbol::Call { name: right_id.clone(), arguments: args });
    let right_call = if use_a || use_min || optional_right {
        Symbol::Binding { pattern: a.shape(right_id.name.as_str()).binding("r"), symbol: Box::new(call) }
    } else {
        call
    };
    Symbol::restricted(right_call, right_restrictions)
}

/// Appends the deferred checks; see `binary_deferred`.
fn push_deferred(out: &mut Vec<Symbol>, absent: &Option<Expr>, pr: i64, assoc: Option<Associativity>, use_a: bool, Ghost(a): Ghost<SpecAnalysis>, Ghost(alt): Ghost<SpecAlternative>)
    requires
        match *absent {
            Some(e) => binary_absent(a, alt) == Some(e@),
            None => binary_absent(a, alt) is None,
        },
    ensures
        symbols_view(final(out)@) == symbols_view(old(out)@) + binary_deferred(a, alt, pr, assoc, use_a),
{
    let ghost start = symbols_view(out@);
    match absent {
        Some(ab) => {
            let mut checks: Vec<Expr> = Vec::new();
            if use_a && is_right_restricted(assoc) {
                let c = compare(reference("a"), CondOp::Neq, int_expr(pr));
                proof { lemma_exprs_view_push(checks@, c); }
                checks.push(c);
            }
            if use_a && is_left_restricted(assoc) {
                let c = compare(reference("l_assoc"), CondOp::Neq, int_expr(pr));
                proof { lemma_exprs_view_push(checks@, c); }
                checks.push(c);
            }
            let ghost cv = exprs_view(checks@);
            assert(cv =~= binary_checks(pr, assoc, use_a).0 + binary_checks(pr, assoc, use_a).1);
            proof { crate::grammar::symbols::lemma_exprs_view(checks@); }
            let mut k: usize = 0;
            while k < checks.len()
                invariant
                    0 <= k <= checks@.len(),
                    exprs_view(checks@) == cv,
                    cv.len() == checks@.len(),
                    forall|j: int| 0 <= j < checks@.len() ==> #[trigger] cv[j] == checks@[j]@,
                    symbols_view(out@) == start + deferred_view(ab@, cv.take(k as int)),
                decreases checks@.len() - k,
            {
                let c = Symbol::Condition(Expr::Or(Box::new(ab.clone()), Box::new(checks[k].clone())));
                assert(c@ == SpecSymbol::Condition(SpecExpr::Or(Box::new(ab@), Box::new(cv[k as int]))));
                push_symbol(out, c);
                assert(deferred_view(ab@, cv.take(k + 1)) =~= deferred_view(ab@, cv.take(k as int)).push(c@));
                k += 1;
            }
            assert(cv.take(k as int) =~= cv);
        },
        None => {
            assert(symbols_view(out@) =~= start + Seq::<SpecSymbol>::empty());
        },
    }
}

/// See `binary_return`.
fn make_binary_return(absent: &Option<Expr>, pr: i64, assoc: Option<Associativity>, use_a: bool, min_prefix: Option<i64>, shape: ReturnShape, trailing: Option<usize>, optional_right: bool, Ghost(a): Ghost<SpecAnalysis>, Ghost(alt): Ghost<SpecAlternative>) -> (r: Symbol)
    requires
        match *absent {
            Some(e) => binary_absent(a, alt) == Some(e@),
            None => binary_absent(a, alt) is None,
        },
        optional_right == optional_at_end(a, right_name(alt), End::Right),
    ensures
        r@ == binary_return(a, alt, pr, assoc, use_a, min_prefix, shape, trailing),
{
    let use_min = match min_prefix {
        Some(m) => pr > m,
        None => false,
    };
    let associativity = if use_a && is_left_restricted(assoc) {
        match absent {
            Some(ab) => ternary(ab.clone(), int_expr(0), int_expr(pr)),
            None => int_expr(pr),
        }
    } else {
        int_expr(0)
    };
    Symbol::Return(shape.value(right_precedence(pr, use_min, optional_right), associativity, trailing))
}

/// See `rewrite_binary_view`.
fn rewrite_binary(a: &Analysis, alt: Alternative, pr: i64, assoc: Option<Associativity>, use_a: bool, min_prefix: Option<i64>, shape: ReturnShape, trailing: Option<usize>) -> (r: Alternative)
    requires
        alt@.symbols.len() >= 2,
        spec_as_identifier(alt@.symbols[0]) is Some,
        spec_as_identifier(alt@.symbols.last()) is Some,
        pr < i64::MAX,
    ensures
        r@ == rewrite_binary_view(a@, alt@, pr, assoc, use_a, min_prefix, shape, trailing),
{
    let ghost av = alt@;
    let Alternative { symbols, label } = alt;
    proof { lemma_symbols_view(symbols@); }
    let (left, middle, right) = split_ends(symbols);
    let absent = make_binary_absent(a, &left, &right, Ghost(av));
    let optional_right = is_optional_at_end(a, extract_identifier(&right).name.as_str(), End::Right);
    let mut out = make_binary_left_symbols(a, &left, pr, assoc, use_a, absent.is_none(), Ghost(av));
    let right_symbol = make_binary_right_symbol(a, &left, &right, pr, assoc, use_a, min_prefix, Ghost(av));
    push_all(&mut out, middle);
    push_symbol(&mut out, right_symbol);
    push_deferred(&mut out, &absent, pr, assoc, use_a, Ghost(a@), Ghost(av));
    push_symbol(&mut out, make_binary_return(&absent, pr, assoc, use_a, min_prefix, shape, trailing, optional_right, Ghost(a@), Ghost(av)));
    proof {
        assert(symbols_view(out@) =~= rewrite_binary_view(a@, av, pr, assoc, use_a, min_prefix, shape, trailing).symbols);
    }
    Alternative { symbols: out, label }
}

/// The rewrite of a prefix alternative `op E` at level `pr`:
/// `op E(pr) return pr`; with a lower-precedence prefix level, the right
/// end's precedence is bound and the return takes the minimum.
pub open spec fn rewrite_prefix_view(a: SpecAnalysis, alt: SpecAlternative, pr: i64, min_prefix: Option<i64>, shape: ReturnShape, trailing: Option<usize>) -> SpecAlternative {
    let right = alt.symbols.last();
    let right_id = spec_as_identifier(right)->0;
    let use_min = match min_prefix { Some(m) => pr > m, None => false };
    let optional_right = optional_at_end(a, right_id.name, End::Right);
    let call = label_symbol_view(outer_label(right), SpecSymbol::Call {
        name: right_id,
        arguments: call_args(a, right_id.name, SpecExpr::Int(pr), SpecExpr::Int(1), exclusion_mask_view(right), SpecExpr::Int(0)),
    });
    let bound = if use_min || optional_right {
        SpecSymbol::Binding { pattern: name_or_tuple(shape_names(shape_of(a, right_id.name), "r"@)), symbol: Box::new(call) }
    } else {
        call
    };
    SpecAlternative {
        symbols: alt.symbols.take(alt.symbols.len() - 1)
            + seq![spec_restricted(bound, end_restrictions(right)), return_view(shape, right_precedence_view(pr, use_min, optional_right), SpecExpr::Int(0), trailing)],
        label: alt.label,
    }
}

/// The rewrite of a postfix alternative `E op` at level `pr`:
/// `[pr >= p] l_pr=E(p) [l_pr == 0 || l_pr >= pr] op return 0`.
pub open spec fn rewrite_postfix_view(a: SpecAnalysis, alt: SpecAlternative, pr: i64, shape: ReturnShape, trailing: Option<usize>) -> SpecAlternative {
    let left = alt.symbols[0];
    let left_id = spec_as_identifier(left)->0;
    let optional_left = optional_at_end(a, left_id.name, End::Left);
    let left_mask = exclusion_mask_view(left);
    SpecAlternative {
        symbols: (if !optional_left { seq![precondition_view(pr)] } else { Seq::empty() })
            + seq![spec_restricted(left_binding_view(a, left_id, outer_label(left)), end_restrictions(left)), left_postcondition_view(pr, pr, optional_left)]
            + (if a.targets.contains(left_id.name) && left_mask != 0 { seq![local_exclusion_postcondition_view(left_mask, "l"@)] } else { Seq::empty() })
            + alt.symbols.skip(1)
            + seq![return_view(shape, SpecExpr::Int(0), SpecExpr::Int(0), trailing)],
        label: alt.label,
    }
}

/// A non-recursive alternative returns precedence zero.
pub open spec fn nonrecursive_view(alt: SpecAlternative, shape: ReturnShape, trailing: Option<usize>) -> SpecAlternative {
    SpecAlternative {
        symbols: alt.symbols.push(return_view(shape, SpecExpr::Int(0), SpecExpr::Int(0), trailing)),
        label: alt.label,
    }
}

/// See `rewrite_prefix_view`.
fn rewrite_prefix(a: &Analysis, alt: Alternative, pr: i64, min_prefix: Option<i64>, shape: ReturnShape, trailing: Option<usize>) -> (r: Alternative)
    requires
        alt@.symbols.len() >= 1,
        spec_as_identifier(alt@.symbols.last()) is Some,
    ensures
        r@ == rewrite_prefix_view(a@, alt@, pr, min_prefix, shape, trailing),
{
    let ghost av = alt@;
    let Alternative { symbols, label } = alt;
    proof { lemma_symbols_view(symbols@); }
    let mut out = symbols;
    let right = out.pop().unwrap();
    proof {
        lemma_symbols_view(out@);
        assert(symbols_view(out@) =~= av.symbols.take(av.symbols.len() - 1));
    }
    let right_id = extract_identifier(&right);
    let use_min = match min_prefix {
        Some(m) => pr > m,
        None => false,
    };
    let optional_right = is_optional_at_end(a, right_id.name.as_str(), End::Right);
    let (restrictions, label_of_end) = end_wrappers(&right);
    let args = a.call_args(right_id.name.as_str(), int_expr(pr), int_expr(1), extract_exclusion_mask(&right), int_expr(0));
    let call = label_symbol(&label_of_end, Symbol::Call { name: right_id.clone(), arguments: args });
    let bound = if use_min || optional_right {
        Symbol::Binding { pattern: a.shape(right_id.name.as_str()).binding("r"), symbol: Box::new(call) }
    } else {
        call
    };
    let ghost before = symbols_view(out@);
    push_symbol(&mut out, Symbol::restricted(bound, restrictions));
    push_symbol(&mut out, Symbol::Return(shape.value(right_precedence(pr, use_min, optional_right), int_expr(0), trailing)));
    proof {
        assert(symbols_view(out@) =~= rewrite_prefix_view(a@, av, pr, min_prefix, shape, trailing).symbols);
    }
    Alternative { symbols: out, label }
}

/// See `rewrite_postfix_view`.
fn rewrite_postfix(a: &Analysis, alt: Alternative, pr: i64, shape: ReturnShape, trailing: Option<usize>) -> (r: Alternative)
    requires
        alt@.symbols.len() >= 1,
        spec_as_identifier(alt@.symbols[0]) is Some,
    ensures
        r@ == rewrite_postfix_view(a@, alt@, pr, shape, trailing),
{
    let ghost av = alt@;
    let Alternative { symbols, label } = alt;
    proof { lemma_symbols_view(symbols@); }
    let mut rest = symbols;
    let left = rest.remove(0);
    proof {
        lemma_symbols_view(rest@);
        assert(symbols_view(rest@) =~= av.symbols.skip(1));
    }
    let left_id = extract_identifier(&left);
    let optional_left = is_optional_at_end(a, left_id.name.as_str(), End::Left);
    let left_mask = extract_exclusion_mask(&left);
    let (restrictions, label_of_end) = end_wrappers(&left);
    let mut out: Vec<Symbol> = Vec::new();
    if !optional_left {
        push_symbol(&mut out, make_precondition(pr));
    }
    let ghost p1 = symbols_view(out@);
    push_symbol(&mut out, Symbol::restricted(make_left_binding(a, left_id, &label_of_end), restrictions));
    push_symbol(&mut out, left_postcondition(pr, pr, optional_left));
    let ghost p2 = symbols_view(out@);
    if a.is_target(left_id.name.as_str()) && left_mask != 0 {
        push_symbol(&mut out, make_local_exclusion_postcondition(left_mask, "l"));
    }
    let ghost p3 = symbols_view(out@);
    push_all(&mut out, rest);
    push_symbol(&mut out, Symbol::Return(shape.value(int_expr(0), int_expr(0), trailing)));
    proof {
        assert(symbols_view(out@) =~= rewrite_postfix_view(a@, av, pr, shape, trailing).symbols);
    }
    Alternative { symbols: out, label }
}

/// See `nonrecursive_view`.
fn rewrite_nonrecursive(alt: Alternative, shape: ReturnShape, trailing: Option<usize>) -> (r: Alternative)
    ensures
        r@ == nonrecursive_view(alt@, shape, trailing),
{
    let Alternative { symbols, label } = alt;
    let mut out = symbols;
    push_symbol(&mut out, Symbol::Return(shape.value(int_expr(0), int_expr(0), trailing)));
    Alternative { symbols: out, label }
}

/// The rewrite of an alternative's grammar symbols by its recursion kind.
pub open spec fn rewrite_core_view(a: SpecAnalysis, core: SpecAlternative, head: Seq<char>, pr: Option<i64>, assoc: Option<Associativity>, use_a: bool, min_prefix: Option<i64>, shape: ReturnShape, trailing: Option<usize>) -> SpecAlternative {
    match (classify_view(core, head, a.heads, a.ends), pr) {
        (RecursionKind::Binary, Some(p)) => rewrite_binary_view(a, core, p, assoc, use_a, min_prefix, shape, trailing),
        (RecursionKind::Prefix, Some(p)) => rewrite_prefix_view(a, core, p, min_prefix, shape, trailing),
        (RecursionKind::Postfix, Some(p)) => rewrite_postfix_view(a, core, p, shape, trailing),
        _ => nonrecursive_view(core, shape, trailing),
    }
}

/// The rewrite of an alternative of a precedence head: its guards, then
/// the rewrite of its grammar symbols, which returns its own label.
pub open spec fn desugar_alternative_view(a: SpecAnalysis, alt: SpecAlternative, head: Seq<char>, pr: Option<i64>, assoc: Option<Associativity>, use_a: bool, min_prefix: Option<i64>, shape: ReturnShape) -> SpecAlternative {
    let r = rewrite_core_view(a, core_of(alt), head, pr, assoc, use_a, min_prefix, shape, trailing_label(alt.symbols));
    SpecAlternative { symbols: guard_prefix(alt) + r.symbols, label: r.label }
}

/// Whether the ends the rewrite reads are references: a recursive end it
/// cannot read a nonterminal from has no rewrite.
pub open spec fn ends_are_references(a: SpecAnalysis, alt: SpecAlternative, head: Seq<char>, pr: Option<i64>) -> bool {
    let core = core_of(alt);
    match (classify_view(core, head, a.heads, a.ends), pr) {
        (RecursionKind::Binary, Some(_)) => core.symbols.len() >= 2 && spec_as_identifier(core.symbols[0]) is Some
            && spec_as_identifier(core.symbols.last()) is Some,
        (RecursionKind::Prefix, Some(_)) => core.symbols.len() >= 1 && spec_as_identifier(core.symbols.last()) is Some,
        (RecursionKind::Postfix, Some(_)) => core.symbols.len() >= 1 && spec_as_identifier(core.symbols[0]) is Some,
        _ => true,
    }
}

/// See `desugar_alternative_view`.
fn desugar_alternative(a: &Analysis, alt: Alternative, head: &str, pr: Option<i64>, assoc: Option<Associativity>, use_a: bool, min_prefix: Option<i64>, shape: ReturnShape) -> (r: Alternative)
    requires
        ends_are_references(a@, alt@, head@, pr),
        pr matches Some(p) ==> p < i64::MAX,
    ensures
        r@ == desugar_alternative_view(a@, alt@, head@, pr, assoc, use_a, min_prefix, shape),
{
    let ghost av = alt@;
    let (guards, core, trailing) = split_alt_decorations(alt);
    let kind = classify(&core, head, &a.heads, &a.ends);
    let rewritten = match (kind, pr) {
        (RecursionKind::Binary, Some(p)) => rewrite_binary(a, core, p, assoc, use_a, min_prefix, shape, trailing),
        (RecursionKind::Prefix, Some(p)) => rewrite_prefix(a, core, p, min_prefix, shape, trailing),
        (RecursionKind::Postfix, Some(p)) => rewrite_postfix(a, core, p, shape, trailing),
        _ => rewrite_nonrecursive(core, shape, trailing),
    };
    let Alternative { symbols, label } = rewritten;
    let mut out = guards;
    push_all(&mut out, symbols);
    Alternative { symbols: out, label }
}

/// The precedence of each level of the rule.
pub open spec fn precedences_view(a: SpecAnalysis, rule: SpecSyntaxRule) -> Seq<Option<i64>> {
    Seq::new(rule.priority_levels.len(), |i: int| level_precedence(rule.priority_levels, i, rule.head.name, a.heads, a.ends))
}

/// The associativity flags of the rule's levels.
pub open spec fn rule_flags(a: SpecAnalysis, rule: SpecSyntaxRule) -> Seq<bool> {
    match (a.flags)(rule.head.name) {
        Some(f) => f,
        None => Seq::empty(),
    }
}

/// The number of levels paired with a flag.
pub open spec fn paired_levels(a: SpecAnalysis, rule: SpecSyntaxRule) -> int {
    let n = rule.priority_levels.len() as int;
    let m = rule_flags(a, rule).len() as int;
    if n <= m { n } else { m }
}

/// The rewritten alternatives of the first `n` levels of a precedence head,
/// in order.
pub open spec fn desugared_alternatives(a: SpecAnalysis, rule: SpecSyntaxRule, n: int) -> Seq<SpecAlternative>
    decreases n,
{
    if n <= 0 {
        Seq::empty()
    } else {
        let head = rule.head.name;
        let levels = rule.priority_levels;
        let precs = precedences_view(a, rule);
        let min_prefix = min_prefix_view(levels, precs, head, a, levels.len() as int);
        let level = levels[n - 1];
        desugared_alternatives(a, rule, n - 1) + level.alternatives.map_values(|alt: SpecAlternative|
            desugar_alternative_view(a, alt, head, precs[n - 1], level.associativity, rule_flags(a, rule)[n - 1], min_prefix, shape_of(a, head)))
    }
}

/// A precedence head with its parameters added and all its alternatives
/// rewritten into a single level.
pub open spec fn desugar_rule_view(a: SpecAnalysis, rule: SpecSyntaxRule) -> SpecSyntaxRule {
    SpecSyntaxRule {
        head: add_parameters_view(a, rule.head),
        priority_levels: seq![SpecPriorityLevel {
            alternatives: desugared_alternatives(a, rule, paired_levels(a, rule)),
            associativity: None,
        }],
        layout: rule.layout,
    }
}

/// Whether the rewrite can read every recursive end of the rule's
/// alternatives.
pub open spec fn rule_ends_are_references(a: SpecAnalysis, rule: SpecSyntaxRule) -> bool {
    forall|i: int, k: int| 0 <= i < rule.priority_levels.len() && 0 <= k < rule.priority_levels[i].alternatives.len()
        ==> ends_are_references(a, #[trigger] rule.priority_levels[i].alternatives[k], rule.head.name, precedences_view(a, rule)[i])
}

/// See `desugar_rule_view`.
fn desugar_rule(a: &Analysis, rule: SyntaxRule) -> (r: SyntaxRule)
    requires
        rule@.priority_levels.len() < i64::MAX,
        rule_ends_are_references(a@, rule@),
    ensures
        r@ == desugar_rule_view(a@, rule@),
{
    let ghost rv = rule@;
    let SyntaxRule { head, priority_levels, layout } = rule;
    let head_name = head.name.clone();
    let shape = a.shape(head_name.as_str());
    let precs = assign_precedence(&priority_levels, head_name.as_str(), a);
    let min_prefix = min_prefix_precedence(&priority_levels, &precs, head_name.as_str(), a);
    let flags: Vec<bool> = match lookup_flags(&a.flags, head_name.as_str()) {
        Some(f) => f.clone(),
        None => Vec::new(),
    };
    let ghost lv = levels_view(priority_levels@);
    let ghost precs_v = precedences_view(a@, rv);
    proof {
        assert(precs@ =~= precs_v);
        assert(flags@ == rule_flags(a@, rv));
    }
    let n = if priority_levels.len() <= flags.len() { priority_levels.len() } else { flags.len() };
    let mut levels = priority_levels;
    let mut alternatives: Vec<Alternative> = Vec::new();
    let mut i: usize = 0;
    assert(lv.skip(0) =~= lv);
    while i < n
        invariant
            0 <= i <= n,
            n == paired_levels(a@, rv),
            n <= lv.len(),
            n <= flags@.len(),
            lv.len() == precs@.len(),
            lv.len() < i64::MAX,
            flags@ == rule_flags(a@, rv),
            precs@ == precs_v,
            precs_v == precedences_view(a@, rv),
            rv.priority_levels == lv,
            rv.head.name == head_name@,
            shape == shape_of(a@, rv.head.name),
            min_prefix == min_prefix_view(lv, precs_v, rv.head.name, a@, lv.len() as int),
            rule_ends_are_references(a@, rv),
            levels_view(levels@) == lv.skip(i as int),
            alternatives_view(alternatives@) == desugared_alternatives(a@, rv, i as int),
        decreases n - i,
    {
        proof {
            assert(levels_view(levels@).len() == levels@.len());
            assert(levels_view(levels@)[0] == lv[i as int]);
        }
        let ghost ol = levels@;
        let level = levels.remove(0);
        proof {
            assert forall|j: int| 0 <= j < levels@.len() implies levels_view(levels@)[j] == lv.skip(i + 1)[j] by {
                assert(levels@[j] == ol[j + 1]);
                assert(levels_view(ol)[j + 1] == ol[j + 1]@);
            }
            assert(levels_view(levels@) =~= lv.skip(i + 1));
        }
        let PriorityLevel { alternatives: alts, associativity } = level;
        let ghost level_alts = alternatives_view(alts@);
        let pr = precs[i];
        proof {
            if pr is Some {
                lemma_recursive_levels_bound(lv, i as int, rv.head.name, a@.heads, a@.ends);
            }
        }
        let use_a = flags[i];
        let ghost before = alternatives_view(alternatives@);
        let mut rest = alts;
        let mut k: usize = 0;
        let count = rest.len();
        assert(level_alts.skip(0) =~= level_alts);
        while k < count
            invariant
                0 <= k <= count,
                count == level_alts.len(),
                i < lv.len(),
                lv[i as int].alternatives == level_alts,
                lv[i as int].associativity == associativity,
                pr == precs_v[i as int],
                precs_v == precedences_view(a@, rv),
                pr matches Some(p) ==> p < i64::MAX,
                use_a == rule_flags(a@, rv)[i as int],
                rv.priority_levels == lv,
                rv.head.name == head_name@,
                shape == shape_of(a@, rv.head.name),
                rule_ends_are_references(a@, rv),
                alternatives_view(rest@) == level_alts.skip(k as int),
                alternatives_view(alternatives@) == before + level_alts.take(k as int).map_values(|alt: SpecAlternative|
                    desugar_alternative_view(a@, alt, rv.head.name, pr, associativity, use_a, min_prefix, shape)),
            decreases count - k,
        {
            proof {
                assert(alternatives_view(rest@).len() == rest@.len());
                assert(alternatives_view(rest@)[0] == level_alts[k as int]);
                assert(ends_are_references(a@, rv.priority_levels[i as int].alternatives[k as int], rv.head.name, precs_v[i as int]));
            }
            let ghost orest = rest@;
            let alt = rest.remove(0);
            proof {
                assert forall|j: int| 0 <= j < rest@.len() implies alternatives_view(rest@)[j] == level_alts.skip(k + 1)[j] by {
                    assert(rest@[j] == orest[j + 1]);
                    assert(alternatives_view(orest)[j + 1] == orest[j + 1]@);
                }
                assert(alternatives_view(rest@) =~= level_alts.skip(k + 1));
            }
            let ghost prev = alternatives_view(alternatives@);
            let d = desugar_alternative(a, alt, head_name.as_str(), pr, associativity, use_a, min_prefix, shape);
            alternatives.push(d);
            proof {
                assert(alternatives_view(alternatives@) =~= prev.push(d@));
                assert(level_alts.take(k + 1).map_values(|alt: SpecAlternative|
                    desugar_alternative_view(a@, alt, rv.head.name, pr, associativity, use_a, min_prefix, shape))
                    =~= level_alts.take(k as int).map_values(|alt: SpecAlternative|
                    desugar_alternative_view(a@, alt, rv.head.name, pr, associativity, use_a, min_prefix, shape)).push(d@));
            }
            k += 1;
        }
        proof {
            assert(level_alts.take(k as int) =~= level_alts);
            assert(alternatives_view(alternatives@) =~= desugared_alternatives(a@, rv, i + 1));
        }
        i += 1;
    }
    let new_head = a.add_parameters(head);
    let level = PriorityLevel::new(alternatives);
    let ghost level_v = level@;
    let mut levels_out: Vec<PriorityLevel> = Vec::new();
    levels_out.push(level);
    proof {
        assert(levels_view(levels_out@) =~= seq![level_v]);
    }
    SyntaxRule { head: new_head, priority_levels: levels_out, layout }
}

// ---------------------------------------------------------------------------
// Intermediate nonterminals

/// The position of the end symbol at `end` of an intermediate
/// nonterminal's alternative, if it continues toward the head there: the
/// head itself, or an intermediate nonterminal of the same head at that end.
pub open spec fn indirect_end_index(a: SpecAnalysis, r: SpecIndirect, symbols: Seq<SpecSymbol>, end: End) -> Option<int> {
    match end_index_view(symbols, end) {
        Some(i) => if at_end(r, end) && match spec_as_identifier(symbols[i]) {
            Some(id) => id.name == r.head || match (a.indirect)(id.name) {
                Some(next) => next.head == r.head && at_end(next, end),
                None => false,
            },
            None => false,
        } {
            Some(i)
        } else {
            None
        },
        None => None,
    }
}

/// The binding name of an end call: `v` for one call at both ends, else
/// `l` or `r`.
pub open spec fn binding_name(is_left: bool, is_right: bool) -> Seq<char> {
    if is_left && is_right { "v"@ } else if is_left { "l"@ } else { "r"@ }
}

/// `name=E(args)` under the end's label and restrictions.
pub open spec fn indirect_end_binding_view(a: SpecAnalysis, original: SpecSymbol, binding: Seq<char>, p_arg: SpecExpr, end_arg: SpecExpr, a_arg: SpecExpr, local_n: i64) -> SpecSymbol {
    let id = spec_as_identifier(original)->0;
    let call = SpecSymbol::Call { name: id, arguments: call_args(a, id.name, p_arg, end_arg, local_n, a_arg) };
    spec_restricted(
        SpecSymbol::Binding {
            pattern: name_or_tuple(shape_names(shape_of(a, id.name), binding)),
            symbol: Box::new(label_symbol_view(outer_label(original), call)),
        },
        end_restrictions(original),
    )
}

/// The symbols that replace an end symbol of an intermediate nonterminal's
/// alternative: the call passing `p` (or the selected end's precedence),
/// `end` and `a`, and for a left end with an exclusion, the label check.
pub open spec fn indirect_end_symbols(a: SpecAnalysis, r: SpecIndirect, has_a: bool, sym: SpecSymbol, is_left: bool, is_right: bool) -> Seq<SpecSymbol> {
    let id = spec_as_identifier(sym)->0;
    let end = if is_left { End::Left } else { End::Right };
    let both = is_left && is_right;
    let b = binding_name(is_left, is_right);
    let shared = both || !(r.left && r.right);
    let p_arg = if shared { SpecExpr::Ref("p"@) } else { precedence_for_end_view(end) };
    let end_arg = if both { SpecExpr::Ref("end"@) } else { SpecExpr::Int(end_value_view(end)) };
    let a_arg = if !has_a {
        SpecExpr::Int(0)
    } else if shared {
        SpecExpr::Ref("a"@)
    } else {
        choose_view(end_selection_condition_view(end), SpecExpr::Ref("a"@), SpecExpr::Int(0))
    };
    let local_n = if a.targets.contains(id.name) { exclusion_mask_view(sym) } else { 0 };
    seq![indirect_end_binding_view(a, sym, b, p_arg, end_arg, a_arg, if is_left { 0 } else { local_n })]
        + if is_left && local_n != 0 { seq![local_exclusion_postcondition_view(local_n, b)] } else { Seq::empty() }
}

/// The first `n` symbols of an intermediate nonterminal's alternative, with
/// its end symbols replaced.
pub open spec fn indirect_symbols(a: SpecAnalysis, r: SpecIndirect, has_a: bool, symbols: Seq<SpecSymbol>, left: Option<int>, right: Option<int>, n: int) -> Seq<SpecSymbol>
    decreases n,
{
    if n <= 0 {
        Seq::empty()
    } else {
        let i = n - 1;
        let is_left = left == Some(i);
        let is_right = right == Some(i);
        indirect_symbols(a, r, has_a, symbols, left, right, n - 1) + if !is_left && !is_right {
            seq![symbols[i]]
        } else {
            indirect_end_symbols(a, r, has_a, symbols[i], is_left, is_right)
        }
    }
}

/// The value bound at an end: its precedence reference, or
/// `UNDEFINED_PRECEDENCE` when the end does not continue toward the head.
pub open spec fn end_value_bound(at: Option<int>, other: Option<int>, is_left: bool) -> SpecExpr {
    match at {
        Some(i) => SpecExpr::Ref(binding_name(is_left || other == Some(i), !is_left || other == Some(i)) + "_pr"@),
        None => undefined_precedence_view(),
    }
}

/// The associativity bound at an end, when the head returns one.
pub open spec fn end_assoc_bound(returns_assoc: bool, at: Option<int>, other: Option<int>, is_left: bool) -> SpecExpr {
    match at {
        Some(i) => if returns_assoc {
            SpecExpr::Ref(binding_name(is_left || other == Some(i), !is_left || other == Some(i)) + "_assoc"@)
        } else {
            SpecExpr::Int(0)
        },
        None => SpecExpr::Int(0),
    }
}

/// The value of the selected end: chosen by `end` for a nonterminal used at
/// both ends when the two differ, else the end it is used at.
pub open spec fn selected_end_value_view(r: SpecIndirect, left: SpecExpr, right: SpecExpr) -> SpecExpr {
    if r.left && r.right && left != right {
        choose_view(end_selection_condition_view(End::Left), left, right)
    } else if r.left {
        left
    } else {
        right
    }
}

/// The rewrite of an alternative of an intermediate nonterminal: its ends
/// toward the head pass the arguments on, and it returns the selected end's
/// precedence (and associativity) with its own label.
pub open spec fn desugar_indirect_alternative_view(a: SpecAnalysis, r: SpecIndirect, has_a: bool, shape: ReturnShape, alt: SpecAlternative) -> SpecAlternative {
    let core = core_of(alt);
    let left = indirect_end_index(a, r, core.symbols, End::Left);
    let right = indirect_end_index(a, r, core.symbols, End::Right);
    let returns_assoc = a.returns_assoc.contains(r.head);
    let value = selected_end_value_view(r, end_value_bound(left, right, true), end_value_bound(right, left, false));
    let assoc = selected_end_value_view(r, end_assoc_bound(returns_assoc, left, right, true), end_assoc_bound(returns_assoc, right, left, false));
    SpecAlternative {
        symbols: guard_prefix(alt) + indirect_symbols(a, r, has_a, core.symbols, left, right, core.symbols.len() as int)
            + seq![SpecSymbol::Return(single_or_tuple(shape_values(shape, value, assoc, trailing_label(alt.symbols))))],
        label: core.label,
    }
}

/// An intermediate nonterminal with its parameters added and all its
/// alternatives rewritten into a single level.
pub open spec fn desugar_indirect_rule_view(a: SpecAnalysis, rule: SpecSyntaxRule, r: SpecIndirect) -> SpecSyntaxRule {
    let has_a = needs_a(a, rule.head.name);
    let shape = shape_of(a, rule.head.name);
    SpecSyntaxRule {
        head: add_parameters_view(a, rule.head),
        priority_levels: seq![SpecPriorityLevel {
            alternatives: rule_alternatives(rule.priority_levels).map_values(|alt: SpecAlternative|
                desugar_indirect_alternative_view(a, r, has_a, shape, alt)),
            associativity: None,
        }],
        layout: rule.layout,
    }
}

/// See `indirect_end_index`.
fn find_indirect_end(a: &Analysis, r: &IndirectRecursion, symbols: &Vec<Symbol>, end: End) -> (k: Option<usize>)
    ensures
        match k {
            Some(i) => indirect_end_index(a@, r@, symbols_view(symbols@), end) == Some(i as int) && i < symbols@.len(),
            None => indirect_end_index(a@, r@, symbols_view(symbols@), end) is None,
        },
{
    proof { lemma_symbols_view(symbols@); }
    match end_index(symbols, end) {
        Some(i) => {
            if !r.is_at_end(end) {
                return None;
            }
            let continues = match symbols[i].as_identifier() {
                Some(id) => {
                    if crate::text::str_eq(id.name.as_str(), r.head.as_str()) {
                        true
                    } else {
                        match a.record(id.name.as_str()) {
                            Some(next) => crate::text::str_eq(next.head.as_str(), r.head.as_str()) && next.is_at_end(end),
                            None => false,
                        }
                    }
                },
                None => false,
            };
            if continues { Some(i) } else { None }
        },
        None => None,
    }
}

/// See `binding_name`.
fn make_binding_name(is_left: bool, is_right: bool) -> (s: &'static str)
    ensures
        s@ == binding_name(is_left, is_right),
{
    if is_left && is_right { "v" } else if is_left { "l" } else { "r" }
}

/// See `indirect_end_symbols`.
fn push_indirect_end(out: &mut Vec<Symbol>, a: &Analysis, r: &IndirectRecursion, has_a: bool, sym: &Symbol, is_left: bool, is_right: bool)
    requires
        spec_as_identifier(sym@) is Some,
    ensures
        symbols_view(final(out)@) == symbols_view(old(out)@) + indirect_end_symbols(a@, r@, has_a, sym@, is_left, is_right),
{
    let ghost start = symbols_view(out@);
    let id = extract_identifier(sym);
    let end = if is_left { End::Left } else { End::Right };
    let both = is_left && is_right;
    let b = make_binding_name(is_left, is_right);
    let shared = both || !r.is_at_both_ends();
    let p_arg = if shared { reference("p") } else { precedence_for_end(end) };
    let end_arg = if both { reference("end") } else { int_expr(end_value(end)) };
    let a_arg = if !has_a {
        int_expr(0)
    } else if shared {
        reference("a")
    } else {
        ternary(end_selection_condition(end), reference("a"), int_expr(0))
    };
    let local_n = if a.is_target(id.name.as_str()) { extract_exclusion_mask(sym) } else { 0 };
    let (restrictions, label) = end_wrappers(sym);
    let args = a.call_args(id.name.as_str(), p_arg, end_arg, if is_left { 0 } else { local_n }, a_arg);
    let call = Symbol::Call { name: id.clone(), arguments: args };
    let bound = Symbol::Binding { pattern: a.shape(id.name.as_str()).binding(b), symbol: Box::new(label_symbol(&label, call)) };
    push_symbol(out, Symbol::restricted(bound, restrictions));
    let ghost mid = symbols_view(out@);
    if is_left && local_n != 0 {
        push_symbol(out, make_local_exclusion_postcondition(local_n, b));
    }
    proof {
        assert(symbols_view(out@) =~= start + indirect_end_symbols(a@, r@, has_a, sym@, is_left, is_right));
    }
}

/// See `end_value_bound` and `end_assoc_bound`.
fn bound_values(returns_assoc: bool, at: Option<usize>, other: Option<usize>, is_left: bool) -> (r: (Expr, Expr))
    ensures
        r.0@ == end_value_bound(match at { Some(i) => Some(i as int), None => None }, match other { Some(i) => Some(i as int), None => None }, is_left),
        r.1@ == end_assoc_bound(returns_assoc, match at { Some(i) => Some(i as int), None => None }, match other { Some(i) => Some(i as int), None => None }, is_left),
{
    match at {
        Some(i) => {
            let shared = match other {
                Some(j) => i == j,
                None => false,
            };
            let b = make_binding_name(is_left || shared, !is_left || shared);
            let v = suffixed_ref(b, "_pr");
            let assoc = if returns_assoc { suffixed_ref(b, "_assoc") } else { int_expr(0) };
            (v, assoc)
        },
        None => (undefined_precedence(), int_expr(0)),
    }
}

/// See `selected_end_value_view`.
fn selected_end_value(r: &IndirectRecursion, left: Expr, right: Expr) -> (e: Expr)
    ensures
        e@ == selected_end_value_view(r@, left@, right@),
{
    if r.is_at_both_ends() && !expr_eq(&left, &right) {
        ternary(end_selection_condition(End::Left), left, right)
    } else if r.left {
        left
    } else {
        right
    }
}

/// See `desugar_indirect_alternative_view`.
fn desugar_indirect_alternative(a: &Analysis, r: &IndirectRecursion, has_a: bool, shape: ReturnShape, alt: Alternative) -> (d: Alternative)
    ensures
        d@ == desugar_indirect_alternative_view(a@, r@, has_a, shape, alt@),
{
    let ghost av = alt@;
    let (guards, core, trailing) = split_alt_decorations(alt);
    let ghost cv = core@;
    let left = find_indirect_end(a, r, &core.symbols, End::Left);
    let right = find_indirect_end(a, r, &core.symbols, End::Right);
    let ghost lg = match left { Some(i) => Some(i as int), None => None::<int> };
    let ghost rg = match right { Some(i) => Some(i as int), None => None::<int> };
    let Alternative { symbols, label } = core;
    let mut out = guards;
    let ghost start = symbols_view(out@);
    let ghost sv = symbols_view(symbols@);
    proof { lemma_symbols_view(symbols@); }
    let mut rest = symbols;
    let count = rest.len();
    let mut i: usize = 0;
    assert(sv.skip(0) =~= sv);
    while i < count
        invariant
            0 <= i <= count,
            count == sv.len(),
            symbols_view(rest@) == sv.skip(i as int),
            symbols_view(out@) == start + indirect_symbols(a@, r@, has_a, sv, lg, rg, i as int),
            lg == indirect_end_index(a@, r@, sv, End::Left),
            rg == indirect_end_index(a@, r@, sv, End::Right),
            lg == match left { Some(i) => Some(i as int), None => None::<int> },
            rg == match right { Some(i) => Some(i as int), None => None::<int> },
        decreases count - i,
    {
        proof { lemma_symbols_view(rest@); }
        let ghost orest = rest@;
        let sym = rest.remove(0);
        proof {
            lemma_symbols_view(rest@);
            lemma_symbols_view(orest);
            assert(symbols_view(orest)[0] == orest[0]@);
            assert(sym@ == sv[i as int]);
            assert forall|j: int| 0 <= j < rest@.len() implies symbols_view(rest@)[j] == sv.skip(i + 1)[j] by {
                assert(rest@[j] == orest[j + 1]);
                assert(symbols_view(orest)[j + 1] == orest[j + 1]@);
            }
            assert(symbols_view(rest@) =~= sv.skip(i + 1));
        }
        let is_left = match left {
            Some(k) => k == i,
            None => false,
        };
        let is_right = match right {
            Some(k) => k == i,
            None => false,
        };
        let ghost before = symbols_view(out@);
        if !is_left && !is_right {
            push_symbol(&mut out, sym);
        } else {
            proof {
                if is_left {
                    assert(spec_as_identifier(sv[i as int]) is Some);
                } else {
                    assert(spec_as_identifier(sv[i as int]) is Some);
                }
            }
            push_indirect_end(&mut out, a, r, has_a, &sym, is_left, is_right);
        }
        proof {
            assert(symbols_view(out@) =~= start + indirect_symbols(a@, r@, has_a, sv, lg, rg, i + 1));
        }
        i += 1;
    }
    let returns_assoc = a.returns_assoc(r.head.as_str());
    let (lv, la) = bound_values(returns_assoc, left, right, true);
    let (rv, ra) = bound_values(returns_assoc, right, left, false);
    let value = selected_end_value(r, lv, rv);
    let assoc = selected_end_value(r, la, ra);
    push_symbol(&mut out, Symbol::Return(shape.value(value, assoc, trailing)));
    proof {
        assert(symbols_view(out@) =~= desugar_indirect_alternative_view(a@, r@, has_a, shape, av).symbols);
    }
    Alternative { symbols: out, label }
}

/// See `desugar_indirect_rule_view`.
fn desugar_indirect_rule(a: &Analysis, rule: SyntaxRule, r: &IndirectRecursion) -> (d: SyntaxRule)
    ensures
        d@ == desugar_indirect_rule_view(a@, rule@, r@),
{
    let ghost rv = rule@;
    let has_a = a.needs_a(rule.head.name.as_str());
    let shape = a.shape(rule.head.name.as_str());
    let SyntaxRule { head, priority_levels, layout } = rule;
    let ghost all = rule_alternatives(levels_view(priority_levels@));
    let mut levels = priority_levels;
    let mut alternatives: Vec<Alternative> = Vec::new();
    let ghost lv = levels_view(levels@);
    let n = levels.len();
    let mut i: usize = 0;
    assert(lv.skip(0) =~= lv);
    while i < n
        invariant
            0 <= i <= n,
            n == lv.len(),
            levels_view(levels@) == lv.skip(i as int),
            has_a == needs_a(a@, rv.head.name),
            shape == shape_of(a@, rv.head.name),
            alternatives_view(alternatives@) == rule_alternatives(lv.take(i as int)).map_values(|alt: SpecAlternative|
                desugar_indirect_alternative_view(a@, r@, has_a, shape, alt)),
        decreases n - i,
    {
        proof {
            assert(levels_view(levels@).len() == levels@.len());
            assert(levels_view(levels@)[0] == lv[i as int]);
        }
        let ghost ol = levels@;
        let level = levels.remove(0);
        proof {
            assert forall|j: int| 0 <= j < levels@.len() implies levels_view(levels@)[j] == lv.skip(i + 1)[j] by {
                assert(levels@[j] == ol[j + 1]);
                assert(levels_view(ol)[j + 1] == ol[j + 1]@);
            }
            assert(levels_view(levels@) =~= lv.skip(i + 1));
            assert(lv.take(i + 1).drop_last() =~= lv.take(i as int));
            assert(lv.take(i + 1).last() == level@);
        }
        let ghost before = alternatives_view(alternatives@);
        let ghost la = alternatives_view(level.alternatives@);
        let mut rest = level.alternatives;
        let count = rest.len();
        let mut k: usize = 0;
        assert(la.skip(0) =~= la);
        while k < count
            invariant
                0 <= k <= count,
                count == la.len(),
                alternatives_view(rest@) == la.skip(k as int),
                alternatives_view(alternatives@) == before + la.take(k as int).map_values(|alt: SpecAlternative|
                    desugar_indirect_alternative_view(a@, r@, has_a, shape, alt)),
            decreases count - k,
        {
            proof {
                assert(alternatives_view(rest@).len() == rest@.len());
                assert(alternatives_view(rest@)[0] == la[k as int]);
            }
            let ghost orest = rest@;
            let alt = rest.remove(0);
            proof {
                assert forall|j: int| 0 <= j < rest@.len() implies alternatives_view(rest@)[j] == la.skip(k + 1)[j] by {
                    assert(rest@[j] == orest[j + 1]);
                    assert(alternatives_view(orest)[j + 1] == orest[j + 1]@);
                }
                assert(alternatives_view(rest@) =~= la.skip(k + 1));
            }
            let ghost prev = alternatives_view(alternatives@);
            let d = desugar_indirect_alternative(a, r, has_a, shape, alt);
            alternatives.push(d);
            proof {
                assert(alternatives_view(alternatives@) =~= prev.push(d@));
                assert(la.take(k + 1).map_values(|alt: SpecAlternative| desugar_indirect_alternative_view(a@, r@, has_a, shape, alt))
                    =~= la.take(k as int).map_values(|alt: SpecAlternative| desugar_indirect_alternative_view(a@, r@, has_a, shape, alt)).push(d@));
            }
            k += 1;
        }
        proof {
            assert(la.take(k as int) =~= la);
            assert(rule_alternatives(lv.take(i + 1)) == rule_alternatives(lv.take(i as int)) + la);
            assert(alternatives_view(alternatives@) =~= rule_alternatives(lv.take(i + 1)).map_values(|alt: SpecAlternative|
                desugar_indirect_alternative_view(a@, r@, has_a, shape, alt)));
        }
        i += 1;
    }
    assert(lv.take(i as int) =~= lv);
    let new_head = a.add_parameters(head);
    let level = PriorityLevel::new(alternatives);
    let ghost level_v = level@;
    let mut levels_out: Vec<PriorityLevel> = Vec::new();
    levels_out.push(level);
    proof {
        assert(levels_view(levels_out@) =~= seq![level_v]);
    }
    SyntaxRule { head: new_head, priority_levels: levels_out, layout }
}

// ---------------------------------------------------------------------------
// References

/// Whether calls of `name` take the arguments this rewrite adds.
pub open spec fn restricted_target(a: SpecAnalysis, name: Seq<char>) -> bool {
    a.heads.contains(name) || (a.indirect)(name) is Some
}

/// A symbol with unrestricted arguments supplied to the references inside
/// it: a bare reference to a rewritten nonterminal becomes a call with
/// zeros; a call with fewer arguments gets the missing leading zeros; a call
/// at full arity stays.
pub open spec fn update_symbol_view(a: SpecAnalysis, s: SpecSymbol) -> SpecSymbol
    decreases s, 1int,
{
    match s {
        SpecSymbol::Identifier(id) => if restricted_target(a, id.name) {
            SpecSymbol::Call { name: id, arguments: unrestricted_args(a, id.name) }
        } else {
            s
        },
        SpecSymbol::Call { name, arguments } => {
            let defaults = unrestricted_args(a, name.name);
            if restricted_target(a, name.name) && arguments.len() < defaults.len() {
                SpecSymbol::Call { name, arguments: defaults.take(defaults.len() - arguments.len()) + arguments }
            } else {
                s
            }
        },
        SpecSymbol::Group(items) => SpecSymbol::Group(update_symbols_view(a, items)),
        SpecSymbol::Alt(items) => SpecSymbol::Alt(update_symbols_view(a, items)),
        SpecSymbol::Opt(inner) => SpecSymbol::Opt(Box::new(update_symbol_view(a, *inner))),
        SpecSymbol::Star(inner, sep) => SpecSymbol::Star(Box::new(update_symbol_view(a, *inner)), match sep {
            Some(x) => Some(Box::new(update_symbol_view(a, *x))),
            None => None,
        }),
        SpecSymbol::Plus(inner, sep) => SpecSymbol::Plus(Box::new(update_symbol_view(a, *inner)), match sep {
            Some(x) => Some(Box::new(update_symbol_view(a, *x))),
            None => None,
        }),
        SpecSymbol::Labeled { label, symbol } => SpecSymbol::Labeled { label, symbol: Box::new(update_symbol_view(a, *symbol)) },
        SpecSymbol::Binding { pattern, symbol } => SpecSymbol::Binding { pattern, symbol: Box::new(update_symbol_view(a, *symbol)) },
        SpecSymbol::Restricted { symbol, restrictions } => SpecSymbol::Restricted { symbol: Box::new(update_symbol_view(a, *symbol)), restrictions },
        SpecSymbol::Exclude { symbol, labels } => SpecSymbol::Exclude { symbol: Box::new(update_symbol_view(a, *symbol)), labels },
        _ => s,
    }
}

/// `update_symbol_view` of each symbol.
pub open spec fn update_symbols_view(a: SpecAnalysis, items: Seq<SpecSymbol>) -> Seq<SpecSymbol>
    decreases items, 0int,
{
    if items.len() == 0 {
        Seq::empty()
    } else {
        update_symbols_view(a, items.drop_last()).push(update_symbol_view(a, items.last()))
    }
}

/// Whether calls of `name` take the added arguments; see `restricted_target`.
fn is_restricted_target(a: &Analysis, name: &str) -> (b: bool)
    ensures
        b == restricted_target(a@, name@),
{
    super::contains_name(&a.heads, name) || a.record(name).is_some()
}

/// See `update_symbol_view`.
fn update_symbol(a: &Analysis, s: &Symbol) -> (r: Symbol)
    ensures
        r@ == update_symbol_view(a@, s@),
    decreases s, 1int,
{
    match s {
        Symbol::Identifier(id) => {
            if is_restricted_target(a, id.name.as_str()) {
                Symbol::Call { name: id.clone(), arguments: a.unrestricted_args(id.name.as_str()) }
            } else {
                s.clone()
            }
        },
        Symbol::Call { name, arguments } => {
            let defaults = a.unrestricted_args(name.name.as_str());
            proof {
                crate::grammar::symbols::lemma_exprs_view(defaults@);
                crate::grammar::symbols::lemma_exprs_view(arguments@);
            }
            if is_restricted_target(a, name.name.as_str()) && arguments.len() < defaults.len() {
                let ghost dv = exprs_view(defaults@);
                let mut args = defaults;
                args.truncate(args.len() - arguments.len());
                let mut rest = crate::grammar::symbols::clone_exprs(arguments);
                let ghost tv = args@;
                let ghost rv = rest@;
                args.append(&mut rest);
                proof {
                    crate::grammar::symbols::lemma_exprs_view(args@);
                    crate::grammar::symbols::lemma_exprs_view(tv);
                    crate::grammar::symbols::lemma_exprs_view(rv);
                    assert(exprs_view(args@) =~= dv.take(dv.len() - arguments@.len()) + exprs_view(arguments@));
                }
                Symbol::Call { name: name.clone(), arguments: args }
            } else {
                s.clone()
            }
        },
        Symbol::Group(items) => Symbol::Group(update_symbols(a, items)),
        Symbol::Alt(items) => Symbol::Alt(update_symbols(a, items)),
        Symbol::Opt(inner) => Symbol::Opt(Box::new(update_symbol(a, &**inner))),
        Symbol::Star(inner, sep) => {
            let i = update_symbol(a, &**inner);
            let sp = match sep {
                Some(x) => Some(Box::new(update_symbol(a, &**x))),
                None => None,
            };
            Symbol::Star(Box::new(i), sp)
        },
        Symbol::Plus(inner, sep) => {
            let i = update_symbol(a, &**inner);
            let sp = match sep {
                Some(x) => Some(Box::new(update_symbol(a, &**x))),
                None => None,
            };
            Symbol::Plus(Box::new(i), sp)
        },
        Symbol::Labeled { label, symbol } => Symbol::Labeled { label: label.clone(), symbol: Box::new(update_symbol(a, &**symbol)) },
        Symbol::Binding { pattern, symbol } => Symbol::Binding { pattern: pattern.clone(), symbol: Box::new(update_symbol(a, &**symbol)) },
        Symbol::Restricted { symbol, restrictions } => Symbol::Restricted { symbol: Box::new(update_symbol(a, &**symbol)), restrictions: restrictions.clone() },
        Symbol::Exclude { symbol, labels } => {
            let inner = update_symbol(a, &**symbol);
            let ls = crate::grammar::symbols::clone_strings(labels);
            Symbol::Exclude { symbol: Box::new(inner), labels: ls }
        },
        _ => s.clone(),
    }
}

/// See `update_symbols_view`.
fn update_symbols(a: &Analysis, items: &Vec<Symbol>) -> (r: Vec<Symbol>)
    ensures
        symbols_view(r@) == update_symbols_view(a@, symbols_view(items@)),
    decreases items, 0int,
{
    let ghost iv = symbols_view(items@);
    proof { lemma_symbols_view(items@); }
    let mut out: Vec<Symbol> = Vec::new();
    let mut i: usize = 0;
    while i < items.len()
        invariant
            0 <= i <= items@.len(),
            iv == symbols_view(items@),
            iv.len() == items@.len(),
            forall|k: int| 0 <= k < items@.len() ==> #[trigger] iv[k] == items@[k]@,
            symbols_view(out@) == update_symbols_view(a@, iv.take(i as int)),
        decreases items@.len() - i,
    {
        proof {
            assert(iv.take(i + 1).drop_last() =~= iv.take(i as int));
            assert(iv.take(i + 1).last() == items@[i as int]@);
        }
        push_symbol(&mut out, update_symbol(a, &items[i]));
        i += 1;
    }
    assert(iv.take(i as int) =~= iv);
    out
}

// ---------------------------------------------------------------------------
// The transformation

/// A rule after the rewrite: a precedence head or an intermediate
/// nonterminal is desugared, any other rule kept, and the references in it
/// get their unrestricted arguments.
pub open spec fn transform_rule_view(a: SpecAnalysis, rule: SpecSyntaxRule) -> SpecSyntaxRule {
    let desugared = if a.heads.contains(rule.head.name) {
        desugar_rule_view(a, rule)
    } else {
        match (a.indirect)(rule.head.name) {
            Some(r) => desugar_indirect_rule_view(a, rule, r),
            None => rule,
        }
    };
    map_rule_symbols(desugared, |symbols: Seq<SpecSymbol>| update_symbols_view(a, symbols))
}

/// The precedence desugaring of a grammar's syntax rules.
pub open spec fn precedence_desugaring_view(rules: Seq<SpecSyntaxRule>) -> Seq<SpecSyntaxRule> {
    rules.map_values(|r: SpecSyntaxRule| transform_rule_view(analysis_view(rules), r))
}

/// Precedence desugaring keeps every rule, in order, with its name and its
/// layout strategy; a precedence head comes out as a single level of
/// alternatives, its parameters led by `p: i32`, the precedence passed by
/// the caller.
pub proof fn desugaring_keeps_rules(rules: Seq<SpecSyntaxRule>)
    ensures
        precedence_desugaring_view(rules).len() == rules.len(),
        forall|i: int| 0 <= i < rules.len() ==> {
            &&& (#[trigger] precedence_desugaring_view(rules)[i]).head.name == rules[i].head.name
            &&& precedence_desugaring_view(rules)[i].layout == rules[i].layout
        },
        forall|i: int| 0 <= i < rules.len() && analysis_view(rules).heads.contains(rules[i].head.name) ==> {
            &&& (#[trigger] precedence_desugaring_view(rules)[i]).priority_levels.len() == 1
            &&& precedence_desugaring_view(rules)[i].head.parameters.len() >= 1
            &&& precedence_desugaring_view(rules)[i].head.parameters[0] == (SpecParameter { name: "p"@, ty: ParamType::I32 })
        },
{
    let a = analysis_view(rules);
    assert forall|i: int| 0 <= i < rules.len() implies {
        &&& (#[trigger] precedence_desugaring_view(rules)[i]).head.name == rules[i].head.name
        &&& precedence_desugaring_view(rules)[i].layout == rules[i].layout
    } by {
        assert(precedence_desugaring_view(rules)[i] == transform_rule_view(a, rules[i]));
    }
    assert forall|i: int| 0 <= i < rules.len() && analysis_view(rules).heads.contains(rules[i].head.name) implies {
        &&& (#[trigger] precedence_desugaring_view(rules)[i]).priority_levels.len() == 1
        &&& precedence_desugaring_view(rules)[i].head.parameters.len() >= 1
        &&& precedence_desugaring_view(rules)[i].head.parameters[0] == (SpecParameter { name: "p"@, ty: ParamType::I32 })
    } by {
        assert(precedence_desugaring_view(rules)[i] == transform_rule_view(a, rules[i]));
        let names = added_parameter_names(a, rules[i].head.name);
        assert(names[0] == "p"@);
        let ps = names.map_values(|n: Seq<char>| SpecParameter { name: n, ty: ParamType::I32 });
        assert(ps[0] == SpecParameter { name: "p"@, ty: ParamType::I32 });
        assert((ps + rules[i].head.parameters)[0] == ps[0]);
    }
}

/// The number of components a return of `shape` has: the precedence, then
/// the associativity and the label when the shape has them.
pub open spec fn shape_len(shape: ReturnShape) -> nat {
    1 + (if shape.associativity { 1nat } else { 0nat }) + (if shape.label { 1nat } else { 0nat })
}

/// Whether `symbols` end with a return of `shape`: a single value, or a
/// tuple of as many values as the shape has components.
pub open spec fn ends_with_return_of(symbols: Seq<SpecSymbol>, shape: ReturnShape) -> bool {
    symbols.len() > 0 && exists|vals: Seq<SpecExpr>| vals.len() == shape_len(shape)
        && symbols.last() == SpecSymbol::Return(#[trigger] single_or_tuple(vals))
}

proof fn lemma_return_view_shape(prefix: Seq<SpecSymbol>, shape: ReturnShape, p: SpecExpr, assoc: SpecExpr, label: Option<usize>)
    ensures
        ends_with_return_of(prefix.push(return_view(shape, p, assoc, label)), shape),
{
    let vals = shape_values(shape, p, assoc, label);
    assert(vals.len() == shape_len(shape));
    assert(prefix.push(return_view(shape, p, assoc, label)).last() == SpecSymbol::Return(single_or_tuple(vals)));
}

proof fn lemma_ends_with_return_append(prefix: Seq<SpecSymbol>, symbols: Seq<SpecSymbol>, shape: ReturnShape)
    requires
        ends_with_return_of(symbols, shape),
    ensures
        ends_with_return_of(prefix + symbols, shape),
{
    assert((prefix + symbols).last() == symbols.last());
}

proof fn lemma_desugar_alternative_shape(a: SpecAnalysis, alt: SpecAlternative, head: Seq<char>, pr: Option<i64>, assoc: Option<Associativity>, use_a: bool, min_prefix: Option<i64>, shape: ReturnShape)
    ensures
        ends_with_return_of(desugar_alternative_view(a, alt, head, pr, assoc, use_a, min_prefix, shape).symbols, shape),
{
    let core = core_of(alt);
    let t = trailing_label(alt.symbols);
    let r = rewrite_core_view(a, core, head, pr, assoc, use_a, min_prefix, shape, t);
    match (classify_view(core, head, a.heads, a.ends), pr) {
        (RecursionKind::Binary, Some(p)) => {
            let b = rewrite_binary_view(a, core, p, assoc, use_a, min_prefix, shape, t);
            let front = binary_left_symbols(a, core, p, assoc, use_a) + core.symbols.subrange(1, core.symbols.len() - 1)
                + seq![binary_right_symbol(a, core, p, assoc, use_a, min_prefix)] + binary_deferred(a, core, p, assoc, use_a);
            assert(b.symbols =~= front.push(binary_return(a, core, p, assoc, use_a, min_prefix, shape, t)));
            let use_min = match min_prefix { Some(m) => p > m, None => false };
            let associativity = if use_a && restricts_left(assoc) {
                match binary_absent(a, core) {
                    Some(ab) => choose_view(ab, SpecExpr::Int(0), SpecExpr::Int(p)),
                    None => SpecExpr::Int(p),
                }
            } else {
                SpecExpr::Int(0)
            };
            lemma_return_view_shape(front, shape, right_precedence_view(p, use_min, optional_at_end(a, right_name(core), End::Right)), associativity, t);
        },
        (RecursionKind::Prefix, Some(p)) => {
            let right = core.symbols.last();
            let right_id = spec_as_identifier(right)->0;
            let use_min = match min_prefix { Some(m) => p > m, None => false };
            let optional_right = optional_at_end(a, right_id.name, End::Right);
            let call = label_symbol_view(outer_label(right), SpecSymbol::Call {
                name: right_id,
                arguments: call_args(a, right_id.name, SpecExpr::Int(p), SpecExpr::Int(1), exclusion_mask_view(right), SpecExpr::Int(0)),
            });
            let bound = if use_min || optional_right {
                SpecSymbol::Binding { pattern: name_or_tuple(shape_names(shape_of(a, right_id.name), "r"@)), symbol: Box::new(call) }
            } else {
                call
            };
            let front = core.symbols.take(core.symbols.len() - 1) + seq![spec_restricted(bound, end_restrictions(right))];
            assert(r.symbols =~= front.push(return_view(shape, right_precedence_view(p, use_min, optional_right), SpecExpr::Int(0), t)));
            lemma_return_view_shape(front, shape, right_precedence_view(p, use_min, optional_right), SpecExpr::Int(0), t);
        },
        (RecursionKind::Postfix, Some(p)) => {
            let left = core.symbols[0];
            let left_id = spec_as_identifier(left)->0;
            let optional_left = optional_at_end(a, left_id.name, End::Left);
            let left_mask = exclusion_mask_view(left);
            let front = (if !optional_left { seq![precondition_view(p)] } else { Seq::empty() })
                + seq![spec_restricted(left_binding_view(a, left_id, outer_label(left)), end_restrictions(left)), left_postcondition_view(p, p, optional_left)]
                + (if a.targets.contains(left_id.name) && left_mask != 0 { seq![local_exclusion_postcondition_view(left_mask, "l"@)] } else { Seq::empty() })
                + core.symbols.skip(1);
            assert(r.symbols =~= front.push(return_view(shape, SpecExpr::Int(0), SpecExpr::Int(0), t)));
            lemma_return_view_shape(front, shape, SpecExpr::Int(0), SpecExpr::Int(0), t);
        },
        _ => {
            lemma_return_view_shape(core.symbols, shape, SpecExpr::Int(0), SpecExpr::Int(0), t);
        },
    }
    lemma_ends_with_return_append(guard_prefix(alt), r.symbols, shape);
}

proof fn lemma_desugared_alternatives_shape(a: SpecAnalysis, rule: SpecSyntaxRule, n: int)
    requires
        n <= rule.priority_levels.len(),
        n <= rule_flags(a, rule).len(),
    ensures
        forall|k: int| 0 <= k < desugared_alternatives(a, rule, n).len()
            ==> ends_with_return_of(#[trigger] desugared_alternatives(a, rule, n)[k].symbols, shape_of(a, rule.head.name)),
    decreases n,
{
    if n > 0 {
        lemma_desugared_alternatives_shape(a, rule, n - 1);
        let head = rule.head.name;
        let levels = rule.priority_levels;
        let precs = precedences_view(a, rule);
        let min_prefix = min_prefix_view(levels, precs, head, a, levels.len() as int);
        let level = levels[n - 1];
        let prev = desugared_alternatives(a, rule, n - 1);
        let more = level.alternatives.map_values(|alt: SpecAlternative|
            desugar_alternative_view(a, alt, head, precs[n - 1], level.associativity, rule_flags(a, rule)[n - 1], min_prefix, shape_of(a, head)));
        assert(desugared_alternatives(a, rule, n) == prev + more);
        assert forall|k: int| 0 <= k < desugared_alternatives(a, rule, n).len()
            implies ends_with_return_of(#[trigger] desugared_alternatives(a, rule, n)[k].symbols, shape_of(a, head)) by {
            if k < prev.len() {
                assert(desugared_alternatives(a, rule, n)[k] == prev[k]);
            } else {
                let j = k - prev.len();
                assert(desugared_alternatives(a, rule, n)[k] == more[j]);
                lemma_desugar_alternative_shape(a, level.alternatives[j], head, precs[n - 1], level.associativity,
                    rule_flags(a, rule)[n - 1], min_prefix, shape_of(a, head));
            }
        }
    }
}

proof fn lemma_indirect_alternative_shape(a: SpecAnalysis, r: SpecIndirect, has_a: bool, shape: ReturnShape, alt: SpecAlternative)
    ensures
        ends_with_return_of(desugar_indirect_alternative_view(a, r, has_a, shape, alt).symbols, shape),
{
    let core = core_of(alt);
    let left = indirect_end_index(a, r, core.symbols, End::Left);
    let right = indirect_end_index(a, r, core.symbols, End::Right);
    let returns_assoc = a.returns_assoc.contains(r.head);
    let value = selected_end_value_view(r, end_value_bound(left, right, true), end_value_bound(right, left, false));
    let assoc = selected_end_value_view(r, end_assoc_bound(returns_assoc, left, right, true), end_assoc_bound(returns_assoc, right, left, false));
    let front = guard_prefix(alt) + indirect_symbols(a, r, has_a, core.symbols, left, right, core.symbols.len() as int);
    assert(desugar_indirect_alternative_view(a, r, has_a, shape, alt).symbols
        =~= front.push(return_view(shape, value, assoc, trailing_label(alt.symbols))));
    lemma_return_view_shape(front, shape, value, assoc, trailing_label(alt.symbols));
}

proof fn lemma_update_keeps_return(a: SpecAnalysis, items: Seq<SpecSymbol>, shape: ReturnShape)
    requires
        ends_with_return_of(items, shape),
    ensures
        ends_with_return_of(update_symbols_view(a, items), shape),
{
    let vals = choose|vals: Seq<SpecExpr>| vals.len() == shape_len(shape)
        && items.last() == SpecSymbol::Return(#[trigger] single_or_tuple(vals));
    assert(update_symbols_view(a, items).last() == update_symbol_view(a, items.last()));
    assert(update_symbol_view(a, items.last()) == items.last());
}

/// The returns of a desugared rule have one shape: each precedence head and
/// each intermediate nonterminal comes out as a single level whose every
/// alternative ends with a return of the rule's shape, a single value or a
/// tuple of precedence, then associativity, then label, as many as the
/// shape has.
pub proof fn desugared_rules_return_one_shape(rules: Seq<SpecSyntaxRule>)
    ensures
        forall|i: int| 0 <= i < rules.len() && (analysis_view(rules).heads.contains(rules[i].head.name)
            || (analysis_view(rules).indirect)(rules[i].head.name) is Some) ==> {
            let out = #[trigger] precedence_desugaring_view(rules)[i];
            &&& out.priority_levels.len() == 1
            &&& forall|k: int| 0 <= k < out.priority_levels[0].alternatives.len() ==> ends_with_return_of(
                #[trigger] out.priority_levels[0].alternatives[k].symbols, shape_of(analysis_view(rules), rules[i].head.name))
        },
{
    let a = analysis_view(rules);
    assert forall|i: int| 0 <= i < rules.len() && (a.heads.contains(rules[i].head.name)
        || (a.indirect)(rules[i].head.name) is Some) implies {
        let out = #[trigger] precedence_desugaring_view(rules)[i];
        &&& out.priority_levels.len() == 1
        &&& forall|k: int| 0 <= k < out.priority_levels[0].alternatives.len() ==> ends_with_return_of(
            #[trigger] out.priority_levels[0].alternatives[k].symbols, shape_of(a, rules[i].head.name))
    } by {
        let rule = rules[i];
        let out = precedence_desugaring_view(rules)[i];
        assert(out == transform_rule_view(a, rule));
        let shape = shape_of(a, rule.head.name);
        let desugared = if a.heads.contains(rule.head.name) {
            desugar_rule_view(a, rule)
        } else {
            desugar_indirect_rule_view(a, rule, (a.indirect)(rule.head.name)->Some_0)
        };
        assert(out == map_rule_symbols(desugared, |symbols: Seq<SpecSymbol>| update_symbols_view(a, symbols)));
        let alts = desugared.priority_levels[0].alternatives;
        if a.heads.contains(rule.head.name) {
            lemma_desugared_alternatives_shape(a, rule, paired_levels(a, rule));
        }
        assert forall|k: int| 0 <= k < out.priority_levels[0].alternatives.len() implies ends_with_return_of(
            #[trigger] out.priority_levels[0].alternatives[k].symbols, shape) by {
            assert(out.priority_levels[0].alternatives[k].symbols == update_symbols_view(a, alts[k].symbols));
            if a.heads.contains(rule.head.name) {
                assert(alts[k] == desugared_alternatives(a, rule, paired_levels(a, rule))[k]);
            } else {
                let r = (a.indirect)(rule.head.name)->Some_0;
                let src = rule_alternatives(rule.priority_levels);
                assert(alts[k] == desugar_indirect_alternative_view(a, r, needs_a(a, rule.head.name), shape, src[k]));
                lemma_indirect_alternative_shape(a, r, needs_a(a, rule.head.name), shape, src[k]);
            }
            lemma_update_keeps_return(a, alts[k].symbols, shape);
        }
    }
}

/// Whether the rewrite can read the rules: a precedence head's levels can
/// be numbered in `i64`, and the recursive ends of its alternatives are
/// nonterminal references.
pub open spec fn desugarable(rules: Seq<SpecSyntaxRule>) -> bool {
    forall|i: int| 0 <= i < rules.len() && analysis_view(rules).heads.contains(#[trigger] rules[i].head.name) ==> {
        &&& rules[i].priority_levels.len() < i64::MAX
        &&& rule_ends_are_references(analysis_view(rules), rules[i])
    }
}

/// See `transform_rule_view`.
fn transform_rule(a: &Analysis, rule: SyntaxRule) -> (r: SyntaxRule)
    requires
        a@.heads.contains(rule@.head.name) ==> rule@.priority_levels.len() < i64::MAX && rule_ends_are_references(a@, rule@),
    ensures
        r@ == transform_rule_view(a@, rule@),
{
    let ghost rv = rule@;
    let desugared = if super::contains_name(&a.heads, rule.head.name.as_str()) {
        desugar_rule(a, rule)
    } else {
        let name = rule.head.name.clone();
        match a.record(name.as_str()) {
            Some(r) => desugar_indirect_rule(a, rule, r),
            None => rule,
        }
    };
    let ghost av = a@;
    let f = |symbols: &Vec<Symbol>| -> (r: Vec<Symbol>)
        ensures
            symbols_view(r@) == update_symbols_view(a@, symbols_view(symbols@)),
    {
        update_symbols(a, symbols)
    };
    map_rule_by_symbols(&desugared, &f, Ghost(|symbols: Seq<SpecSymbol>| update_symbols_view(av, symbols)), Ghost(|symbols: Seq<SpecSymbol>| true))
}

/// Precedence desugaring: rewrites each precedence head, each intermediate
/// nonterminal and every reference to them (see
/// `precedence_desugaring_view`), or reports the nonterminals that serve
/// several precedence heads, sorted by name. Runs after EBNF expansion and
/// exclusion desugaring.
pub fn transform(syntax_rules: Vec<SyntaxRule>) -> (r: Result<Vec<SyntaxRule>, Vec<String>>)
    requires
        desugarable(syntax_rules_view(syntax_rules@)),
    ensures
        r is Ok <==> forall|x: Seq<char>| !#[trigger] serves_several_heads(syntax_rules_view(syntax_rules@), x),
        r matches Ok(out) ==> syntax_rules_view(out@) == precedence_desugaring_view(syntax_rules_view(syntax_rules@)),
        r matches Err(msgs) ==> conflict_errors(syntax_rules_view(syntax_rules@), strings_view(msgs@)),
{
    let ghost rv = syntax_rules_view(syntax_rules@);
    let a = match Analysis::new(&syntax_rules) {
        Ok(a) => a,
        Err(msgs) => return Err(msgs),
    };
    let mut rest = syntax_rules;
    let mut out: Vec<SyntaxRule> = Vec::new();
    let n = rest.len();
    let mut i: usize = 0;
    assert(rv.skip(0) =~= rv);
    while i < n
        invariant
            0 <= i <= n,
            n == rv.len(),
            a@ == analysis_view(rv),
            desugarable(rv),
            syntax_rules_view(rest@) == rv.skip(i as int),
            syntax_rules_view(out@) == rv.take(i as int).map_values(|r: SpecSyntaxRule| transform_rule_view(a@, r)),
        decreases n - i,
    {
        proof {
            assert(syntax_rules_view(rest@).len() == rest@.len());
            assert(syntax_rules_view(rest@)[0] == rv[i as int]);
        }
        let ghost orest = rest@;
        let rule = rest.remove(0);
        proof {
            assert forall|j: int| 0 <= j < rest@.len() implies syntax_rules_view(rest@)[j] == rv.skip(i + 1)[j] by {
                assert(rest@[j] == orest[j + 1]);
                assert(syntax_rules_view(orest)[j + 1] == orest[j + 1]@);
            }
            assert(syntax_rules_view(rest@) =~= rv.skip(i + 1));
            assert(rule@ == rv[i as int]);
        }
        let ghost prev = syntax_rules_view(out@);
        let t = transform_rule(&a, rule);
        out.push(t);
        proof {
            assert(syntax_rules_view(out@) =~= prev.push(t@));
            assert(rv.take(i + 1).map_values(|r: SpecSyntaxRule| transform_rule_view(a@, r))
                =~= rv.take(i as int).map_values(|r: SpecSyntaxRule| transform_rule_view(a@, r)).push(t@));
        }
        i += 1;
    }
    assert(rv.take(i as int) =~= rv);
    Ok(out)
}

} // verus!
