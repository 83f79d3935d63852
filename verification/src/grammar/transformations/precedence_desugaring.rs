//! Precedence desugaring, after "Operator Precedence for Data-Dependent
//! Grammars".
//!
//! Consider `E = "a" > E "*" E > E "+" E`. Priority groups with recursive
//! alternatives get precedence levels from 1, bottom to top (here `+` is 1 and
//! `*` is 2), and the rule becomes data dependent:
//!
//! ```text
//! E(p: i32)
//!   = "a"                                                  return 0
//!   | [2 >= p] l_pr=E(p) [l_pr == 0 || l_pr >= 2] "*" E(2) return 2
//!   | [1 >= p] l_pr=E(p) [l_pr == 0 || l_pr >= 1] "+" E(1) return 1
//! ```
//!
//! `p` is the precedence level passed by the caller; a left recursive end
//! passes `p` on and its returned precedence is checked; a right recursive end
//! is called with the alternative's level (one more for left or
//! non-associative levels). References that are not recursive ends pass `0`.
//! Recursive ends may also be derived through intermediate nonterminals,
//! which then forward `p` (and, when used at both ends, an `end` selector)
//! and return the precedence of the selected end, or `UNDEFINED_PRECEDENCE`
//! when it is absent. A level mixing binary and unary alternatives, or with
//! an optional recursive end, restricts associativity with a separate
//! argument `a`. Exclusion masks and labels from exclude desugaring are kept.
use vstd::prelude::*;
use crate::grammar::def::{
    alternatives_view, levels_view, rule_alternatives, syntax_rules_view, Alternative,
    Associativity, PriorityLevel, SpecAlternative, SpecPriorityLevel, SpecSyntaxRule, SyntaxRule,
};
use crate::grammar::symbols::{
    lemma_symbols_view, lemma_symbols_view_push, spec_as_identifier, spec_first_call_argument,
    spec_no_restrictions, spec_restricted, symbols_view, Cond, CondOp, Expr, Identifier,
    Restrictions, SpecExpr, SpecIdentifier, SpecRestrictions, SpecSymbol, Symbol,
};
use crate::grammar::transformations::return_value::{
    no_label, no_label_view, undefined_precedence, undefined_precedence_view,
};
use crate::text::{push_str, string_of};

pub mod analysis;
pub mod indirect;
pub mod associativity;
pub mod rewrite;

pub use rewrite::transform;

verus! {

broadcast use vstd::std_specs::vec::axiom_vec_index_decreases;

/// A left or right end of an alternative.
#[derive(Debug, Clone, Copy, PartialEq, Eq, Structural)]
pub enum End {
    Left,
    Right,
}

// ---------------------------------------------------------------------------
// Expressions and conditions

/// `left op right`.
pub open spec fn compare_view(left: SpecExpr, op: CondOp, right: SpecExpr) -> SpecExpr {
    SpecExpr::Cond { left: Box::new(left), right: Box::new(right), op }
}

/// `cond ? then : otherwise`.
pub open spec fn choose_view(cond: SpecExpr, then: SpecExpr, otherwise: SpecExpr) -> SpecExpr {
    SpecExpr::Ternary { cond: Box::new(cond), then: Box::new(then), otherwise: Box::new(otherwise) }
}

/// A reference to `binding_pr`.
pub open spec fn precedence_ref(binding: Seq<char>) -> SpecExpr {
    SpecExpr::Ref(binding + "_pr"@)
}

/// `binding_pr == UNDEFINED_PRECEDENCE`.
pub open spec fn undefined_precedence_condition_view(binding: Seq<char>) -> SpecExpr {
    compare_view(precedence_ref(binding), CondOp::Eq, undefined_precedence_view())
}

/// The head's return from the value its right end returns: `pr`, or with a
/// lower-precedence prefix `r_pr == 0 ? pr : min(r_pr, pr)`; `0` when an
/// optional right end is absent.
pub open spec fn right_precedence_view(pr: i64, use_min: bool, optional: bool) -> SpecExpr {
    let r_pr = SpecExpr::Ref("r_pr"@);
    let value = if use_min {
        choose_view(compare_view(r_pr, CondOp::Eq, SpecExpr::Int(0)), SpecExpr::Int(pr), SpecExpr::Min(Box::new(r_pr), Box::new(SpecExpr::Int(pr))))
    } else {
        SpecExpr::Int(pr)
    };
    if optional {
        choose_view(undefined_precedence_condition_view("r"@), SpecExpr::Int(0), value)
    } else {
        value
    }
}

/// `l_pr == 0 || l_pr >= pr`.
pub open spec fn postcondition_view(pr: i64) -> SpecExpr {
    SpecExpr::Or(
        Box::new(compare_view(SpecExpr::Ref("l_pr"@), CondOp::Eq, SpecExpr::Int(0))),
        Box::new(compare_view(SpecExpr::Ref("l_pr"@), CondOp::Geq, SpecExpr::Int(pr))),
    )
}

/// The check after the left recursive end: the postcondition, or for an
/// optional end `l_pr == UNDEFINED_PRECEDENCE || (pr >= p && postcondition)`.
pub open spec fn left_postcondition_view(pr: i64, lower_bound: i64, optional: bool) -> SpecSymbol {
    if optional {
        SpecSymbol::Condition(SpecExpr::Or(
            Box::new(undefined_precedence_condition_view("l"@)),
            Box::new(SpecExpr::And(
                Box::new(compare_view(SpecExpr::Int(pr), CondOp::Geq, SpecExpr::Ref("p"@))),
                Box::new(postcondition_view(lower_bound)),
            )),
        ))
    } else {
        SpecSymbol::Condition(postcondition_view(lower_bound))
    }
}

/// The precondition `[pr >= p]`.
pub open spec fn precondition_view(pr: i64) -> SpecSymbol {
    SpecSymbol::Condition(compare_view(SpecExpr::Int(pr), CondOp::Geq, SpecExpr::Ref("p"@)))
}

/// `[binding_label == NO_LABEL || (local_n >> binding_label) & 1 == 0]`.
pub open spec fn local_exclusion_postcondition_view(local_n: i64, binding: Seq<char>) -> SpecSymbol {
    let label = SpecExpr::Ref(binding + "_label"@);
    SpecSymbol::Condition(SpecExpr::Or(
        Box::new(compare_view(label, CondOp::Eq, no_label_view())),
        Box::new(compare_view(
            SpecExpr::BitAnd(Box::new(SpecExpr::Shr(Box::new(SpecExpr::Int(local_n)), Box::new(label))), Box::new(SpecExpr::Int(1))),
            CondOp::Eq,
            SpecExpr::Int(0),
        )),
    ))
}

/// The number an `end` argument selects an end by: left is 0, right is 1.
pub open spec fn end_value_view(end: End) -> i64 {
    match end {
        End::Left => 0,
        End::Right => 1,
    }
}

/// `end == value(end)`.
pub open spec fn end_selection_condition_view(end: End) -> SpecExpr {
    compare_view(SpecExpr::Ref("end"@), CondOp::Eq, SpecExpr::Int(end_value_view(end)))
}

/// `end == value(end) ? p : 0`.
pub open spec fn precedence_for_end_view(end: End) -> SpecExpr {
    choose_view(end_selection_condition_view(end), SpecExpr::Ref("p"@), SpecExpr::Int(0))
}

fn compare(left: Expr, op: CondOp, right: Expr) -> (e: Expr)
    ensures
        e@ == compare_view(left@, op, right@),
{
    Expr::Cond(Cond { left: Box::new(left), right: Box::new(right), op })
}

fn ternary(cond: Expr, then: Expr, otherwise: Expr) -> (e: Expr)
    ensures
        e@ == choose_view(cond@, then@, otherwise@),
{
    Expr::Ternary { cond: Box::new(cond), then: Box::new(then), otherwise: Box::new(otherwise) }
}

fn int_expr(n: i64) -> (e: Expr)
    ensures
        e@ == SpecExpr::Int(n),
{
    Expr::Int(n)
}

fn reference(name: &str) -> (e: Expr)
    ensures
        e@ == SpecExpr::Ref(name@),
{
    Expr::Ref(string_of(name))
}

/// A reference to `prefix` followed by `suffix`.
fn suffixed_ref(prefix: &str, suffix: &str) -> (e: Expr)
    ensures
        e@ == SpecExpr::Ref(prefix@ + suffix@),
{
    let mut name = string_of(prefix);
    push_str(&mut name, suffix);
    Expr::Ref(name)
}

fn undefined_precedence_condition(binding: &str) -> (e: Expr)
    ensures
        e@ == undefined_precedence_condition_view(binding@),
{
    compare(suffixed_ref(binding, "_pr"), CondOp::Eq, undefined_precedence())
}

fn right_precedence(pr: i64, use_min: bool, optional: bool) -> (e: Expr)
    ensures
        e@ == right_precedence_view(pr, use_min, optional),
{
    let value = if use_min {
        ternary(
            compare(reference("r_pr"), CondOp::Eq, int_expr(0)),
            int_expr(pr),
            Expr::Min(Box::new(reference("r_pr")), Box::new(int_expr(pr))),
        )
    } else {
        int_expr(pr)
    };
    if optional {
        ternary(undefined_precedence_condition("r"), int_expr(0), value)
    } else {
        value
    }
}

fn make_postcondition(pr: i64) -> (e: Expr)
    ensures
        e@ == postcondition_view(pr),
{
    Expr::Or(
        Box::new(compare(reference("l_pr"), CondOp::Eq, int_expr(0))),
        Box::new(compare(reference("l_pr"), CondOp::Geq, int_expr(pr))),
    )
}

fn left_postcondition(pr: i64, lower_bound: i64, optional: bool) -> (s: Symbol)
    ensures
        s@ == left_postcondition_view(pr, lower_bound, optional),
{
    let post = make_postcondition(lower_bound);
    if optional {
        let geq = compare(int_expr(pr), CondOp::Geq, reference("p"));
        let checks = Expr::And(Box::new(geq), Box::new(post));
        assert(checks@ == SpecExpr::And(Box::new(geq@), Box::new(postcondition_view(lower_bound))));
        let undefined = undefined_precedence_condition("l");
        let either = Expr::Or(Box::new(undefined), Box::new(checks));
        assert(either@ == SpecExpr::Or(Box::new(undefined@), Box::new(checks@)));
        Symbol::Condition(either)
    } else {
        Symbol::Condition(post)
    }
}

fn make_precondition(pr: i64) -> (s: Symbol)
    ensures
        s@ == precondition_view(pr),
{
    Symbol::Condition(compare(int_expr(pr), CondOp::Geq, reference("p")))
}

fn make_local_exclusion_postcondition(local_n: i64, binding: &str) -> (s: Symbol)
    ensures
        s@ == local_exclusion_postcondition_view(local_n, binding@),
{
    let n = int_expr(local_n);
    let label = suffixed_ref(binding, "_label");
    let shifted = Expr::Shr(Box::new(n), Box::new(label));
    assert(shifted@ == SpecExpr::Shr(Box::new(n@), Box::new(label@)));
    let one = int_expr(1);
    let bit = Expr::BitAnd(Box::new(shifted), Box::new(one));
    assert(bit@ == SpecExpr::BitAnd(Box::new(shifted@), Box::new(one@)));
    let is_no_label = compare(suffixed_ref(binding, "_label"), CondOp::Eq, no_label());
    let bit_clear = compare(bit, CondOp::Eq, int_expr(0));
    let either = Expr::Or(Box::new(is_no_label), Box::new(bit_clear));
    assert(either@ == SpecExpr::Or(Box::new(is_no_label@), Box::new(bit_clear@)));
    Symbol::Condition(either)
}

fn end_value(end: End) -> (v: i64)
    ensures
        v == end_value_view(end),
{
    match end {
        End::Left => 0,
        End::Right => 1,
    }
}

fn end_selection_condition(end: End) -> (e: Expr)
    ensures
        e@ == end_selection_condition_view(end),
{
    compare(reference("end"), CondOp::Eq, int_expr(end_value(end)))
}

fn precedence_for_end(end: End) -> (e: Expr)
    ensures
        e@ == precedence_for_end_view(end),
{
    ternary(end_selection_condition(end), reference("p"), int_expr(0))
}

// ---------------------------------------------------------------------------
// Grammar symbols and their ends

/// Conditions and returns decorate an alternative; other symbols are its
/// grammar symbols.
pub open spec fn is_decoration_view(s: SpecSymbol) -> bool {
    s is Condition || s is Return
}

/// The index of the first grammar symbol at or after `from`, if any.
pub open spec fn first_grammar_from(symbols: Seq<SpecSymbol>, from: int) -> Option<int>
    decreases symbols.len() - from,
{
    if from >= symbols.len() || from < 0 {
        None
    } else if !is_decoration_view(symbols[from]) {
        Some(from)
    } else {
        first_grammar_from(symbols, from + 1)
    }
}

/// The index of the last grammar symbol before `n`, if any.
pub open spec fn last_grammar_before(symbols: Seq<SpecSymbol>, n: int) -> Option<int>
    decreases n,
{
    if n <= 0 {
        None
    } else if !is_decoration_view(symbols[n - 1]) {
        Some(n - 1)
    } else {
        last_grammar_before(symbols, n - 1)
    }
}

/// The position of the first or last grammar symbol.
pub open spec fn end_index_view(symbols: Seq<SpecSymbol>, end: End) -> Option<int> {
    match end {
        End::Left => first_grammar_from(symbols, 0),
        End::Right => last_grammar_before(symbols, symbols.len() as int),
    }
}

/// The first or last grammar symbol.
pub open spec fn end_symbol_view(symbols: Seq<SpecSymbol>, end: End) -> Option<SpecSymbol> {
    match end_index_view(symbols, end) {
        Some(i) => Some(symbols[i]),
        None => None,
    }
}

/// The name a symbol refers to (see `spec_as_identifier`).
pub open spec fn referenced_name(s: Option<SpecSymbol>) -> Option<Seq<char>> {
    match s {
        Some(s) => match spec_as_identifier(s) {
            Some(id) => Some(id.name),
            None => None,
        },
        None => None,
    }
}

/// Whether the symbol refers to `head`.
pub open spec fn is_reference_to_view(s: Option<SpecSymbol>, head: Seq<char>) -> bool {
    referenced_name(s) == Some(head)
}

/// The name the symbol refers to, unless it is `head`.
pub open spec fn non_head_nonterminal_view(s: Option<SpecSymbol>, head: Seq<char>) -> Option<Seq<char>> {
    match referenced_name(s) {
        Some(n) => if n == head { None } else { Some(n) },
        None => None,
    }
}

/// The number of grammar symbols among the first `n`.
pub open spec fn grammar_symbol_count_view(symbols: Seq<SpecSymbol>, n: int) -> nat
    decreases n,
{
    if n <= 0 {
        0
    } else {
        grammar_symbol_count_view(symbols, n - 1) + if is_decoration_view(symbols[n - 1]) { 0nat } else { 1nat }
    }
}

/// The first call argument read as an exclusion mask, or 0.
pub open spec fn exclusion_mask_view(s: SpecSymbol) -> i64 {
    match spec_first_call_argument(s) {
        Some(SpecExpr::Int(n)) => n,
        _ => 0,
    }
}

/// The outermost field label of a recursive-end symbol.
pub open spec fn outer_label(s: SpecSymbol) -> Option<Seq<char>>
    decreases s,
{
    match s {
        SpecSymbol::Labeled { label, .. } => Some(label),
        SpecSymbol::Restricted { symbol, .. } => outer_label(*symbol),
        _ => None,
    }
}

/// The innermost restrictions of a recursive-end symbol, seen through labels
/// and restrictions.
pub open spec fn inner_restrictions(s: SpecSymbol) -> Option<SpecRestrictions>
    decreases s,
{
    match s {
        SpecSymbol::Labeled { symbol, .. } => inner_restrictions(*symbol),
        SpecSymbol::Restricted { symbol, restrictions } => match inner_restrictions(*symbol) {
            Some(r) => Some(r),
            None => Some(restrictions),
        },
        _ => None,
    }
}

/// The restrictions kept at a recursive end: the innermost ones, or none.
pub open spec fn end_restrictions(s: SpecSymbol) -> SpecRestrictions {
    match inner_restrictions(s) {
        Some(r) => r,
        None => spec_no_restrictions(),
    }
}

/// `core` under `label`, if any.
pub open spec fn label_symbol_view(label: Option<Seq<char>>, core: SpecSymbol) -> SpecSymbol {
    match label {
        Some(l) => SpecSymbol::Labeled { label: l, symbol: Box::new(core) },
        None => core,
    }
}

fn is_decoration(symbol: &Symbol) -> (b: bool)
    ensures
        b == is_decoration_view(symbol@),
{
    matches!(symbol, Symbol::Condition(_) | Symbol::Return(_))
}

/// The position of the first or last grammar symbol; see `end_index_view`.
fn end_index(symbols: &Vec<Symbol>, end: End) -> (r: Option<usize>)
    ensures
        match r {
            Some(k) => end_index_view(symbols_view(symbols@), end) == Some(k as int),
            None => end_index_view(symbols_view(symbols@), end) is None,
        },
        r matches Some(k) ==> k < symbols@.len(),
{
    proof { lemma_symbols_view(symbols@); }
    let ghost sv = symbols_view(symbols@);
    match end {
        End::Left => {
            let mut i: usize = 0;
            while i < symbols.len()
                invariant
                    0 <= i <= symbols@.len(),
                    sv == symbols_view(symbols@),
                    sv.len() == symbols@.len(),
                    forall|k: int| 0 <= k < symbols@.len() ==> #[trigger] sv[k] == symbols@[k]@,
                    end == End::Left,
                    first_grammar_from(sv, 0) == first_grammar_from(sv, i as int),
                decreases symbols@.len() - i,
            {
                assert(sv[i as int] == symbols@[i as int]@);
                if !is_decoration(&symbols[i]) {
                    return Some(i);
                }
                i += 1;
            }
            None
        },
        End::Right => {
            let mut n: usize = symbols.len();
            while n > 0
                invariant
                    0 <= n <= symbols@.len(),
                    sv == symbols_view(symbols@),
                    sv.len() == symbols@.len(),
                    forall|k: int| 0 <= k < symbols@.len() ==> #[trigger] sv[k] == symbols@[k]@,
                    end == End::Right,
                    last_grammar_before(sv, sv.len() as int) == last_grammar_before(sv, n as int),
                decreases n,
            {
                assert(sv[n - 1] == symbols@[n - 1]@);
                if !is_decoration(&symbols[n - 1]) {
                    return Some(n - 1);
                }
                n -= 1;
            }
            None
        },
    }
}

/// The first or last grammar symbol; see `end_symbol_view`.
fn end_symbol(symbols: &Vec<Symbol>, end: End) -> (r: Option<&Symbol>)
    ensures
        match r {
            Some(s) => end_symbol_view(symbols_view(symbols@), end) == Some(s@),
            None => end_symbol_view(symbols_view(symbols@), end) is None,
        },
{
    proof { lemma_symbols_view(symbols@); }
    match end_index(symbols, end) {
        Some(i) => Some(&symbols[i]),
        None => None,
    }
}

/// The name an optional symbol refers to.
fn referenced(symbol: Option<&Symbol>) -> (r: Option<&String>)
    ensures
        match r {
            Some(n) => referenced_name(match symbol { Some(s) => Some(s@), None => None }) == Some(n@),
            None => referenced_name(match symbol { Some(s) => Some(s@), None => None }) is None,
        },
{
    match symbol {
        Some(s) => match s.as_identifier() {
            Some(id) => Some(&id.name),
            None => None,
        },
        None => None,
    }
}

/// The number of grammar symbols.
fn grammar_symbol_count(symbols: &Vec<Symbol>) -> (n: usize)
    ensures
        n == grammar_symbol_count_view(symbols_view(symbols@), symbols@.len() as int),
{
    proof { lemma_symbols_view(symbols@); }
    let ghost sv = symbols_view(symbols@);
    let mut count: usize = 0;
    let mut i: usize = 0;
    while i < symbols.len()
        invariant
            0 <= i <= symbols@.len(),
            sv == symbols_view(symbols@),
            sv.len() == symbols@.len(),
            forall|k: int| 0 <= k < symbols@.len() ==> #[trigger] sv[k] == symbols@[k]@,
            count == grammar_symbol_count_view(sv, i as int),
            count <= i,
        decreases symbols@.len() - i,
    {
        assert(sv[i as int] == symbols@[i as int]@);
        if !is_decoration(&symbols[i]) {
            count += 1;
        }
        i += 1;
    }
    count
}

/// The first call argument read as an exclusion mask, or 0.
fn extract_exclusion_mask(symbol: &Symbol) -> (n: i64)
    ensures
        n == exclusion_mask_view(symbol@),
{
    match symbol.first_call_argument() {
        Some(Expr::Int(n)) => *n,
        _ => 0,
    }
}

/// The identifier at a recursive end, seen through its wrappers.
fn extract_identifier(symbol: &Symbol) -> (id: &Identifier)
    requires
        spec_as_identifier(symbol@) is Some,
    ensures
        spec_as_identifier(symbol@) == Some(id@),
{
    match symbol.as_identifier() {
        Some(id) => id,
        None => vstd::pervasive::unreached(),
    }
}

/// The outermost label and the innermost restrictions of a recursive-end
/// symbol.
fn end_wrappers(symbol: &Symbol) -> (r: (Restrictions, Option<String>))
    ensures
        r.0@ == end_restrictions(symbol@),
        crate::grammar::def::option_string_view(r.1) == outer_label(symbol@),
    decreases symbol,
{
    match symbol {
        Symbol::Labeled { label, symbol: inner } => {
            let (restrictions, _) = end_wrappers(&**inner);
            (restrictions, Some(label.clone()))
        },
        Symbol::Restricted { symbol: inner, restrictions } => {
            let (inner_r, label) = end_wrappers(&**inner);
            let has_inner = inner_has_restrictions(&**inner);
            if has_inner {
                (inner_r, label)
            } else {
                (restrictions.clone(), label)
            }
        },
        _ => {
            let r = Restrictions::new();
            (r, None)
        },
    }
}

/// Whether restrictions wrap the symbol below its labels.
fn inner_has_restrictions(symbol: &Symbol) -> (b: bool)
    ensures
        b == (inner_restrictions(symbol@) is Some),
    decreases symbol,
{
    match symbol {
        Symbol::Labeled { symbol: inner, .. } => inner_has_restrictions(&**inner),
        Symbol::Restricted { .. } => true,
        _ => false,
    }
}

fn label_symbol(label: &Option<String>, core: Symbol) -> (s: Symbol)
    ensures
        s@ == label_symbol_view(crate::grammar::def::option_string_view(*label), core@),
{
    match label {
        Some(l) => Symbol::Labeled { label: l.clone(), symbol: Box::new(core) },
        None => core,
    }
}

// ---------------------------------------------------------------------------
// The end relations and reachability

/// The edges `head -> name` from a rule to the nonterminals its alternatives
/// name at the selected end.
pub open spec fn alternative_edges(head: Seq<char>, alts: Seq<SpecAlternative>, end: End) -> Seq<(Seq<char>, Seq<char>)>
    decreases alts.len(),
{
    if alts.len() == 0 {
        Seq::empty()
    } else {
        alternative_edges(head, alts.drop_last(), end) + match referenced_name(end_symbol_view(alts.last().symbols, end)) {
            Some(n) => seq![(head, n)],
            None => Seq::empty(),
        }
    }
}

/// The direct end relation of a grammar: for `A = B C`, `A -> B` on the left
/// and `A -> C` on the right.
pub open spec fn end_edges(rules: Seq<SpecSyntaxRule>, end: End) -> Seq<(Seq<char>, Seq<char>)>
    decreases rules.len(),
{
    if rules.len() == 0 {
        Seq::empty()
    } else {
        end_edges(rules.drop_last(), end) + alternative_edges(rules.last().head.name, rule_alternatives(rules.last().priority_levels), end)
    }
}

/// Whether `path` leads from `from` to `head` along `edges`, through nodes
/// that are not `boundaries`.
pub open spec fn is_path(edges: Seq<(Seq<char>, Seq<char>)>, from: Seq<char>, path: Seq<Seq<char>>, head: Seq<char>, boundaries: Seq<Seq<char>>) -> bool {
    &&& path.len() >= 1
    &&& path.last() == head
    &&& edges.contains((from, path[0]))
    &&& forall|i: int| 0 <= i < path.len() - 1 ==> edges.contains((#[trigger] path[i], path[i + 1]))
    &&& forall|i: int| 0 <= i < path.len() - 1 ==> !boundaries.contains(#[trigger] path[i])
}

/// Whether a nonempty path leads from `from` to `head`; a boundary other
/// than `head` stops the walk, `from` included.
pub open spec fn reaches_view(edges: Seq<(Seq<char>, Seq<char>)>, from: Seq<char>, head: Seq<char>, boundaries: Seq<Seq<char>>) -> bool {
    !(from != head && boundaries.contains(from)) && reachable(edges, from, head, boundaries)
}

/// The views of a list of string pairs.
pub open spec fn pairs_view(pairs: Seq<(String, String)>) -> Seq<(Seq<char>, Seq<char>)> {
    pairs.map_values(|p: (String, String)| (p.0@, p.1@))
}

/// The edges of one alternative list, appended to `out`.
fn push_alternative_edges(head: &String, alternatives: &Vec<&Alternative>, end: End, out: &mut Vec<(String, String)>)
    ensures
        pairs_view(final(out)@) == pairs_view(old(out)@) + alternative_edges(head@, alternatives@.map_values(|a: &Alternative| a@), end),
{
    let ghost start = pairs_view(out@);
    let ghost av = alternatives@.map_values(|a: &Alternative| a@);
    let mut i: usize = 0;
    while i < alternatives.len()
        invariant
            0 <= i <= alternatives@.len(),
            av == alternatives@.map_values(|a: &Alternative| a@),
            pairs_view(out@) == start + alternative_edges(head@, av.take(i as int), end),
        decreases alternatives@.len() - i,
    {
        let alternative = alternatives[i];
        proof {
            assert(av.take(i + 1).drop_last() =~= av.take(i as int));
            assert(av.take(i + 1).last() == alternative@);
        }
        let ghost before = pairs_view(out@);
        match referenced(end_symbol(&alternative.symbols, end)) {
            Some(name) => {
                out.push((head.clone(), name.clone()));
                assert(pairs_view(out@) =~= before + seq![(head@, name@)]);
            },
            None => {
                assert(pairs_view(out@) =~= before + Seq::<(Seq<char>, Seq<char>)>::empty());
            },
        }
        i += 1;
    }
    assert(av.take(i as int) =~= av);
}

/// The direct end relation of `rules`; see `end_edges`.
fn compute_end_edges(rules: &Vec<SyntaxRule>, end: End) -> (edges: Vec<(String, String)>)
    ensures
        pairs_view(edges@) == end_edges(syntax_rules_view(rules@), end),
{
    let ghost rv = syntax_rules_view(rules@);
    let mut out: Vec<(String, String)> = Vec::new();
    let mut i: usize = 0;
    while i < rules.len()
        invariant
            0 <= i <= rules@.len(),
            rv == syntax_rules_view(rules@),
            pairs_view(out@) == end_edges(rv.take(i as int), end),
        decreases rules@.len() - i,
    {
        let rule = &rules[i];
        proof {
            assert(rv.take(i + 1).drop_last() =~= rv.take(i as int));
            assert(rv.take(i + 1).last() == rule@);
        }
        let alternatives = rule.alternatives();
        push_alternative_edges(&rule.head.name, &alternatives, end, &mut out);
        i += 1;
    }
    assert(rv.take(i as int) =~= rv);
    out
}

/// Whether `names` holds `name`.
fn contains_name(names: &Vec<String>, name: &str) -> (b: bool)
    ensures
        b == crate::grammar::symbols::strings_view(names@).contains(name@),
{
    let mut i: usize = 0;
    while i < names.len()
        invariant
            0 <= i <= names@.len(),
            forall|k: int| 0 <= k < i ==> crate::grammar::symbols::strings_view(names@)[k] != name@,
        decreases names@.len() - i,
    {
        if crate::text::str_eq(names[i].as_str(), name) {
            assert(crate::grammar::symbols::strings_view(names@)[i as int] == name@);
            return true;
        }
        i += 1;
    }
    false
}

/// Whether a path leads from `from` to `n` through nodes that are not
/// boundaries.
#[verifier::opaque]
pub open spec fn reachable(edges: Seq<(Seq<char>, Seq<char>)>, from: Seq<char>, n: Seq<char>, boundaries: Seq<Seq<char>>) -> bool {
    exists|path: Seq<Seq<char>>| #[trigger] is_path(edges, from, path, n, boundaries)
}

/// The targets of the edges leaving `n`, in order.
pub open spec fn successors(edges: Seq<(Seq<char>, Seq<char>)>, n: Seq<char>) -> Seq<Seq<char>>
    decreases edges.len(),
{
    if edges.len() == 0 {
        Seq::empty()
    } else {
        successors(edges.drop_last(), n) + if edges.last().0 == n { seq![edges.last().1] } else { Seq::empty() }
    }
}

/// The targets of all edges.
pub open spec fn targets(edges: Seq<(Seq<char>, Seq<char>)>) -> Seq<Seq<char>> {
    edges.map_values(|e: (Seq<char>, Seq<char>)| e.1)
}

proof fn lemma_successor_of_edge(edges: Seq<(Seq<char>, Seq<char>)>, n: Seq<char>, k: int)
    requires
        0 <= k < edges.len(),
        edges[k].0 == n,
    ensures
        successors(edges, n).contains(edges[k].1),
    decreases edges.len(),
{
    let rest = edges.drop_last();
    let s = successors(edges, n);
    let sr = successors(rest, n);
    if k == edges.len() - 1 {
        assert(s[s.len() - 1] == edges[k].1);
    } else {
        assert(rest[k] == edges[k]);
        lemma_successor_of_edge(rest, n, k);
        let j = choose|j: int| 0 <= j < sr.len() && sr[j] == edges[k].1;
        assert(s[j] == sr[j]);
    }
}

proof fn lemma_edge_of_successor(edges: Seq<(Seq<char>, Seq<char>)>, n: Seq<char>, y: Seq<char>)
    requires
        successors(edges, n).contains(y),
    ensures
        edges.contains((n, y)),
    decreases edges.len(),
{
    let rest = edges.drop_last();
    let s = successors(edges, n);
    let sr = successors(rest, n);
    let j = choose|j: int| 0 <= j < s.len() && s[j] == y;
    if j < sr.len() {
        assert(sr[j] == y);
        lemma_edge_of_successor(rest, n, y);
        let k = choose|k: int| 0 <= k < rest.len() && rest[k] == (n, y);
        assert(edges[k] == (n, y));
    } else {
        assert(edges[edges.len() - 1] == (n, y));
    }
}

proof fn lemma_successors(edges: Seq<(Seq<char>, Seq<char>)>, n: Seq<char>)
    ensures
        forall|y: Seq<char>| #[trigger] successors(edges, n).contains(y) <==> edges.contains((n, y)),
        forall|y: Seq<char>| successors(edges, n).contains(y) ==> #[trigger] targets(edges).contains(y),
{
    assert forall|y: Seq<char>| #[trigger] successors(edges, n).contains(y) <==> edges.contains((n, y)) by {
        if edges.contains((n, y)) {
            let k = choose|k: int| 0 <= k < edges.len() && edges[k] == (n, y);
            lemma_successor_of_edge(edges, n, k);
        }
        if successors(edges, n).contains(y) {
            lemma_edge_of_successor(edges, n, y);
        }
    }
    assert forall|y: Seq<char>| successors(edges, n).contains(y) implies #[trigger] targets(edges).contains(y) by {
        lemma_edge_of_successor(edges, n, y);
        let k = choose|k: int| 0 <= k < edges.len() && edges[k] == (n, y);
        assert(targets(edges)[k] == y);
    }
}

/// A single edge out of `from` is a path.
proof fn lemma_edge_reachable(edges: Seq<(Seq<char>, Seq<char>)>, from: Seq<char>, y: Seq<char>, boundaries: Seq<Seq<char>>)
    requires
        edges.contains((from, y)),
    ensures
        reachable(edges, from, y, boundaries),
{
    reveal(reachable);
    let p = seq![y];
    assert(is_path(edges, from, p, y, boundaries));
}

/// A path to a non-boundary node extends along any of its edges.
proof fn lemma_extend_path(edges: Seq<(Seq<char>, Seq<char>)>, from: Seq<char>, v: Seq<char>, y: Seq<char>, boundaries: Seq<Seq<char>>)
    requires
        reachable(edges, from, v, boundaries),
        !boundaries.contains(v),
        edges.contains((v, y)),
    ensures
        reachable(edges, from, y, boundaries),
{
    reveal(reachable);
    let p = choose|path: Seq<Seq<char>>| #[trigger] is_path(edges, from, path, v, boundaries);
    let q = p.push(y);
    assert(q[q.len() - 2] == v);
    assert(is_path(edges, from, q, y, boundaries));
}

/// A set of visited nodes closed under the edges, not holding `head`,
/// leaves `head` unreachable.
proof fn lemma_closed_unreachable(edges: Seq<(Seq<char>, Seq<char>)>, from: Seq<char>, head: Seq<char>, boundaries: Seq<Seq<char>>, visited: Seq<Seq<char>>)
    requires
        forall|y: Seq<char>| edges.contains((from, y)) ==> #[trigger] visited.contains(y) || (boundaries.contains(y) && y != head),
        forall|v: Seq<char>, y: Seq<char>| #[trigger] visited.contains(v) && #[trigger] edges.contains((v, y)) ==> visited.contains(y) || (boundaries.contains(y) && y != head),
        !visited.contains(head),
    ensures
        !reachable(edges, from, head, boundaries),
{
    reveal(reachable);
    if reachable(edges, from, head, boundaries) {
        let p = choose|path: Seq<Seq<char>>| #[trigger] is_path(edges, from, path, head, boundaries);
        lemma_path_visited(edges, from, head, boundaries, visited, p, p.len() - 1);
    }
}

proof fn lemma_path_visited(edges: Seq<(Seq<char>, Seq<char>)>, from: Seq<char>, head: Seq<char>, boundaries: Seq<Seq<char>>, visited: Seq<Seq<char>>, p: Seq<Seq<char>>, i: int)
    requires
        forall|y: Seq<char>| edges.contains((from, y)) ==> #[trigger] visited.contains(y) || (boundaries.contains(y) && y != head),
        forall|v: Seq<char>, y: Seq<char>| #[trigger] visited.contains(v) && #[trigger] edges.contains((v, y)) ==> visited.contains(y) || (boundaries.contains(y) && y != head),
        is_path(edges, from, p, head, boundaries),
        0 <= i < p.len(),
    ensures
        visited.contains(p[i]) || (boundaries.contains(p[i]) && p[i] != head),
        i < p.len() - 1 ==> visited.contains(p[i]),
    decreases i,
{
    if i == 0 {
        assert(edges.contains((from, p[0])));
        assert(visited.contains(p[0]) || (boundaries.contains(p[0]) && p[0] != head));
    } else {
        lemma_path_visited(edges, from, head, boundaries, visited, p, i - 1);
        assert(edges.contains((p[i - 1], p[i])));
        assert(!boundaries.contains(p[i - 1]));
        assert(visited.contains(p[i - 1]));
    }
    if i < p.len() - 1 {
        assert(!boundaries.contains(p[i]));
    }
}

/// A list without duplicates drawn from the targets is no longer than the
/// edge list.
proof fn lemma_visited_bound(edges: Seq<(Seq<char>, Seq<char>)>, visited: Seq<Seq<char>>)
    requires
        visited.no_duplicates(),
        forall|y: Seq<char>| #[trigger] visited.contains(y) ==> targets(edges).contains(y),
    ensures
        visited.len() <= edges.len(),
{
    broadcast use vstd::seq_lib::seq_to_set_is_finite;
    visited.unique_seq_to_set();
    let t = targets(edges);
    assert(visited.to_set().subset_of(t.to_set())) by {
        assert forall|x: Seq<char>| visited.to_set().contains(x) implies t.to_set().contains(x) by {
            assert(visited.contains(x));
        }
    }
    vstd::set_lib::lemma_len_subset(visited.to_set(), t.to_set());
    t.lemma_cardinality_of_set();
}

/// Appends the targets of the edges leaving `node`.
fn push_successors(edges: &Vec<(String, String)>, node: &str, stack: &mut Vec<String>)
    ensures
        crate::grammar::symbols::strings_view(final(stack)@) == crate::grammar::symbols::strings_view(old(stack)@) + successors(pairs_view(edges@), node@),
{
    let ghost ev = pairs_view(edges@);
    let ghost start = crate::grammar::symbols::strings_view(stack@);
    let mut i: usize = 0;
    while i < edges.len()
        invariant
            0 <= i <= edges@.len(),
            ev == pairs_view(edges@),
            crate::grammar::symbols::strings_view(stack@) == start + successors(ev.take(i as int), node@),
        decreases edges@.len() - i,
    {
        proof {
            assert(ev.take(i + 1).drop_last() =~= ev.take(i as int));
            assert(ev.take(i + 1).last() == (edges@[i as int].0@, edges@[i as int].1@));
        }
        let ghost before = crate::grammar::symbols::strings_view(stack@);
        if crate::text::str_eq(edges[i].0.as_str(), node) {
            stack.push(edges[i].1.clone());
            assert(crate::grammar::symbols::strings_view(stack@) =~= before + seq![edges@[i as int].1@]);
        } else {
            assert(crate::grammar::symbols::strings_view(stack@) =~= before + Seq::<Seq<char>>::empty());
        }
        i += 1;
    }
    assert(ev.take(i as int) =~= ev);
}

/// What the search keeps true: every node on the stack or visited is
/// reachable and a target, visited nodes are distinct non-boundaries other
/// than `head`, and every edge out of `from` or a visited node leads to a
/// visited node, a node on the stack, or a boundary other than `head`.
#[verifier::opaque]
pub open spec fn search_invariant(e: Seq<(Seq<char>, Seq<char>)>, from: Seq<char>, head: Seq<char>, bs: Seq<Seq<char>>, stack: Seq<Seq<char>>, visited: Seq<Seq<char>>) -> bool {
    &&& forall|y: Seq<char>| #[trigger] stack.contains(y) ==> reachable(e, from, y, bs)
    &&& forall|y: Seq<char>| #[trigger] visited.contains(y) ==> reachable(e, from, y, bs) && targets(e).contains(y) && !bs.contains(y)
    &&& visited.no_duplicates()
    &&& !visited.contains(head)
    &&& forall|y: Seq<char>| #[trigger] e.contains((from, y)) ==> visited.contains(y) || stack.contains(y) || (bs.contains(y) && y != head)
    &&& forall|v: Seq<char>, y: Seq<char>| #[trigger] visited.contains(v) && #[trigger] e.contains((v, y))
        ==> visited.contains(y) || stack.contains(y) || (bs.contains(y) && y != head)
}

proof fn lemma_search_start(e: Seq<(Seq<char>, Seq<char>)>, from: Seq<char>, head: Seq<char>, bs: Seq<Seq<char>>)
    ensures
        search_invariant(e, from, head, bs, successors(e, from), Seq::empty()),
{
    reveal(search_invariant);
    lemma_successors(e, from);
    let st = successors(e, from);
    assert forall|y: Seq<char>| #[trigger] st.contains(y) implies reachable(e, from, y, bs) by {
        lemma_edge_reachable(e, from, y, bs);
    }
}

/// What the search knows of the node it takes from the stack, and of the
/// visited list.
proof fn lemma_search_facts(e: Seq<(Seq<char>, Seq<char>)>, from: Seq<char>, head: Seq<char>, bs: Seq<Seq<char>>, stack: Seq<Seq<char>>, visited: Seq<Seq<char>>, node: Seq<char>)
    requires
        search_invariant(e, from, head, bs, stack.push(node), visited),
    ensures
        reachable(e, from, node, bs),
        visited.len() <= e.len(),
{
    reveal(search_invariant);
    let old_stack = stack.push(node);
    assert(old_stack[old_stack.len() - 1] == node);
    assert(old_stack.contains(node));
    lemma_visited_bound(e, visited);
}

proof fn lemma_search_skip(e: Seq<(Seq<char>, Seq<char>)>, from: Seq<char>, head: Seq<char>, bs: Seq<Seq<char>>, stack: Seq<Seq<char>>, visited: Seq<Seq<char>>, node: Seq<char>)
    requires
        search_invariant(e, from, head, bs, stack.push(node), visited),
        node != head,
        visited.contains(node) || bs.contains(node),
    ensures
        search_invariant(e, from, head, bs, stack, visited),
{
    reveal(search_invariant);
    let old_stack = stack.push(node);
    assert forall|y: Seq<char>| #[trigger] old_stack.contains(y) implies stack.contains(y) || y == node by {
        let j = choose|j: int| 0 <= j < old_stack.len() && old_stack[j] == y;
        if j < stack.len() {
            assert(stack[j] == y);
        }
    }
    assert forall|y: Seq<char>| #[trigger] stack.contains(y) implies old_stack.contains(y) by {
        let j = choose|j: int| 0 <= j < stack.len() && stack[j] == y;
        assert(old_stack[j] == y);
    }
}

proof fn lemma_search_visit(e: Seq<(Seq<char>, Seq<char>)>, from: Seq<char>, head: Seq<char>, bs: Seq<Seq<char>>, stack: Seq<Seq<char>>, visited: Seq<Seq<char>>, node: Seq<char>)
    requires
        search_invariant(e, from, head, bs, stack.push(node), visited),
        node != head,
        !visited.contains(node),
        !bs.contains(node),
        targets(e).contains(node),
    ensures
        search_invariant(e, from, head, bs, stack + successors(e, node), visited.push(node)),
{
    reveal(search_invariant);
    lemma_successors(e, node);
    let old_stack = stack.push(node);
    let ns = stack + successors(e, node);
    let nv = visited.push(node);
    assert(old_stack.contains(node)) by {
        assert(old_stack[old_stack.len() - 1] == node);
    }
    assert forall|y: Seq<char>| #[trigger] old_stack.contains(y) implies ns.contains(y) || y == node by {
        let j = choose|j: int| 0 <= j < old_stack.len() && old_stack[j] == y;
        if j < stack.len() {
            assert(ns[j] == y);
        }
    }
    assert forall|y: Seq<char>| #[trigger] visited.contains(y) implies nv.contains(y) by {
        let j = choose|j: int| 0 <= j < visited.len() && visited[j] == y;
        assert(nv[j] == y);
    }
    assert(nv.contains(node)) by {
        assert(nv[nv.len() - 1] == node);
    }
    assert forall|y: Seq<char>| #[trigger] nv.contains(y) implies visited.contains(y) || y == node by {
        let j = choose|j: int| 0 <= j < nv.len() && nv[j] == y;
        if j < visited.len() {
            assert(visited[j] == y);
        }
    }
    assert forall|y: Seq<char>| successors(e, node).contains(y) implies #[trigger] ns.contains(y) by {
        let j = choose|j: int| 0 <= j < successors(e, node).len() && successors(e, node)[j] == y;
        assert(ns[stack.len() + j] == y);
    }
    assert forall|y: Seq<char>| #[trigger] ns.contains(y) implies reachable(e, from, y, bs) by {
        let j = choose|j: int| 0 <= j < ns.len() && ns[j] == y;
        if j < stack.len() {
            assert(stack[j] == y);
            assert(old_stack[j] == y);
            assert(old_stack.contains(y));
        } else {
            assert(successors(e, node)[j - stack.len()] == y);
            assert(successors(e, node).contains(y));
            lemma_extend_path(e, from, node, y, bs);
        }
    }
    assert(nv.no_duplicates()) by {
        assert forall|a: int, b: int| 0 <= a < b < nv.len() implies nv[a] != nv[b] by {
            if b == nv.len() - 1 {
                assert(nv[a] == visited[a]);
                assert(visited.contains(nv[a]));
            } else {
                assert(nv[a] == visited[a]);
                assert(nv[b] == visited[b]);
            }
        }
    }
    assert forall|v: Seq<char>, y: Seq<char>| #[trigger] nv.contains(v) && #[trigger] e.contains((v, y))
        implies nv.contains(y) || ns.contains(y) || (bs.contains(y) && y != head) by {
        if v == node {
            assert(successors(e, node).contains(y));
        } else {
            assert(visited.contains(v));
        }
    }
}

/// The visited list is never longer than the edge list.
proof fn lemma_search_bound(e: Seq<(Seq<char>, Seq<char>)>, from: Seq<char>, head: Seq<char>, bs: Seq<Seq<char>>, stack: Seq<Seq<char>>, visited: Seq<Seq<char>>)
    requires
        search_invariant(e, from, head, bs, stack, visited),
    ensures
        visited.len() <= e.len(),
{
    reveal(search_invariant);
    lemma_visited_bound(e, visited);
}

/// A finished search leaves `head` unreachable.
proof fn lemma_search_done(e: Seq<(Seq<char>, Seq<char>)>, from: Seq<char>, head: Seq<char>, bs: Seq<Seq<char>>, visited: Seq<Seq<char>>)
    requires
        search_invariant(e, from, head, bs, Seq::empty(), visited),
    ensures
        !reachable(e, from, head, bs),
{
    reveal(search_invariant);
    lemma_closed_unreachable(e, from, head, bs, visited);
}

/// A node taken from the stack that is not yet visited is a target.
proof fn lemma_stack_node_target(e: Seq<(Seq<char>, Seq<char>)>, from: Seq<char>, head: Seq<char>, bs: Seq<Seq<char>>, stack: Seq<Seq<char>>, visited: Seq<Seq<char>>, node: Seq<char>)
    requires
        search_invariant(e, from, head, bs, stack.push(node), visited),
        forall|y: Seq<char>| #[trigger] stack.push(node).contains(y) ==> targets(e).contains(y),
    ensures
        targets(e).contains(node),
{
    let old_stack = stack.push(node);
    assert(old_stack[old_stack.len() - 1] == node);
    assert(old_stack.contains(node));
}

/// Whether a nonempty path leads from `from` to `head` along `edges`; see
/// `reaches_view`.
fn reaches(edges: &Vec<(String, String)>, from: &str, head: &str, boundaries: &Vec<String>) -> (b: bool)
    ensures
        b == reaches_view(pairs_view(edges@), from@, head@, crate::grammar::symbols::strings_view(boundaries@)),
{
    let ghost e = pairs_view(edges@);
    let ghost bs = crate::grammar::symbols::strings_view(boundaries@);
    if !crate::text::str_eq(from, head) && contains_name(boundaries, from) {
        return false;
    }
    let mut stack: Vec<String> = Vec::new();
    push_successors(edges, from, &mut stack);
    let mut visited: Vec<String> = Vec::new();
    proof {
        lemma_search_start(e, from@, head@, bs);
        lemma_successors(e, from@);
        assert(crate::grammar::symbols::strings_view(stack@) =~= successors(e, from@));
        assert(crate::grammar::symbols::strings_view(visited@) =~= Seq::<Seq<char>>::empty());
    }
    while stack.len() > 0
        invariant
            e == pairs_view(edges@),
            bs == crate::grammar::symbols::strings_view(boundaries@),
            search_invariant(e, from@, head@, bs, crate::grammar::symbols::strings_view(stack@), crate::grammar::symbols::strings_view(visited@)),
            forall|y: Seq<char>| #[trigger] crate::grammar::symbols::strings_view(stack@).contains(y) ==> targets(e).contains(y),
            !(from@ != head@ && bs.contains(from@)),
        decreases edges@.len() - visited@.len(), stack@.len(),
    {
        let ghost vis = crate::grammar::symbols::strings_view(visited@);
        let ghost old_stack = crate::grammar::symbols::strings_view(stack@);
        let node = stack.pop().unwrap();
        let ghost mid = crate::grammar::symbols::strings_view(stack@);
        proof {
            assert(old_stack =~= mid.push(node@));
            lemma_search_facts(e, from@, head@, bs, mid, vis, node@);
            assert forall|y: Seq<char>| #[trigger] mid.contains(y) implies targets(e).contains(y) by {
                let j = choose|j: int| 0 <= j < mid.len() && mid[j] == y;
                assert(old_stack[j] == y);
                assert(old_stack.contains(y));
            }
        }
        if crate::text::str_eq(node.as_str(), head) {
            return true;
        }
        if contains_name(&visited, node.as_str()) || contains_name(boundaries, node.as_str()) {
            proof {
                lemma_search_skip(e, from@, head@, bs, mid, vis, node@);
            }
            continue;
        }
        proof {
            lemma_stack_node_target(e, from@, head@, bs, mid, vis, node@);
        }
        visited.push(node.clone());
        push_successors(edges, node.as_str(), &mut stack);
        proof {
            lemma_search_visit(e, from@, head@, bs, mid, vis, node@);
            lemma_successors(e, node@);
            assert(crate::grammar::symbols::strings_view(visited@) =~= vis.push(node@));
            let ns = crate::grammar::symbols::strings_view(stack@);
            assert(ns =~= mid + successors(e, node@));
            lemma_search_bound(e, from@, head@, bs, ns, vis.push(node@));
            assert forall|y: Seq<char>| #[trigger] ns.contains(y) implies targets(e).contains(y) by {
                let j = choose|j: int| 0 <= j < ns.len() && ns[j] == y;
                if j < mid.len() {
                    assert(mid[j] == y);
                    assert(mid.contains(y));
                } else {
                    assert(successors(e, node@)[j - mid.len()] == y);
                    assert(successors(e, node@).contains(y));
                }
            }
        }
    }
    proof {
        let vis = crate::grammar::symbols::strings_view(visited@);
        assert(crate::grammar::symbols::strings_view(stack@) =~= Seq::<Seq<char>>::empty());
        lemma_search_done(e, from@, head@, bs, vis);
    }
    false
}

} // verus!
