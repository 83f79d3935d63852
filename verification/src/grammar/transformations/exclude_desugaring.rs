//! Exclude desugaring.
//!
//! `Expr !Comma` reads as "match `Expr`, but admit no alternative labeled
//! `#Comma` at the top". Each nonterminal targeted by an exclusion gets a
//! parameter `e: i32` holding a mask of excluded labels: its labeled
//! alternatives are numbered in source order (at most 31 of them), each
//! gets the guard `[BIT & e == 0]` with `BIT = 1 << number`, and every
//! alternative returns `(0, number)`, or `(0, NO_LABEL)` when unlabeled.
//! Each exclusion becomes a call passing the mask of its labels, and each
//! bare reference to a target becomes a call passing `0`.
//!
//! For example, `E = "a" #blocked | "b"` and `S = E !blocked` become
//! `E(e: i32) = [1 & e == 0] "a" return (0, 0) #blocked | "b" return (0, NO_LABEL)`
//! and `S = E(1)`.
use vstd::prelude::*;
use crate::grammar::def::{
    alternatives_view, levels_view, rule_alternatives, syntax_rules_view, Alternative,
    PriorityLevel, SpecAlternative, SpecPriorityLevel, SpecSyntaxRule, SyntaxRule,
};
use crate::grammar::symbols::{
    spec_as_identifier, strings_view, symbols_view, Cond, CondOp, Expr, Identifier, ParamType,
    Parameter, SpecExpr, SpecIdentifier, SpecNonterminal, SpecParameter, SpecSymbol, Symbol,
    lemma_symbols_view, lemma_symbols_view_push,
};
use crate::grammar::transformations::return_value::{label_expr, with_label};
use crate::grammar::transformations::{all_alternatives, map_each, map_rule_by_symbols, map_rule_symbols};
use crate::grammar::visit::{rules_preorder, rules_symbols, symbol_refs_view};
use crate::text::{str_eq, string_of};

verus! {

/// The name an exclusion refers to, if `s` is an exclusion of a reference.
pub open spec fn exclusion_target(s: SpecSymbol) -> Option<Seq<char>> {
    match s {
        SpecSymbol::Exclude { symbol, .. } => match spec_as_identifier(*symbol) {
            Some(id) => Some(id.name),
            None => None,
        },
        _ => None,
    }
}

/// Every exclusion among `symbols` refers to a rule.
pub open spec fn exclusions_refer(symbols: Seq<SpecSymbol>) -> bool {
    forall|k: int| 0 <= k < symbols.len() && (#[trigger] symbols[k]) is Exclude ==> exclusion_target(symbols[k]) is Some
}

/// The names targeted by the exclusions among `symbols`, in order of first
/// appearance.
pub open spec fn target_names(symbols: Seq<SpecSymbol>) -> Seq<Seq<char>>
    decreases symbols.len(),
{
    if symbols.len() == 0 {
        Seq::empty()
    } else {
        let prev = target_names(symbols.drop_last());
        match exclusion_target(symbols.last()) {
            Some(n) => if prev.contains(n) { prev } else { prev.push(n) },
            None => prev,
        }
    }
}

/// `acc` followed by the labels of `alts` it does not hold yet, in order.
pub open spec fn add_new_labels(acc: Seq<Seq<char>>, alts: Seq<SpecAlternative>) -> Seq<Seq<char>>
    decreases alts.len(),
{
    if alts.len() == 0 {
        acc
    } else {
        let prev = add_new_labels(acc, alts.drop_last());
        match alts.last().label {
            Some(l) => if prev.contains(l) { prev } else { prev.push(l) },
            None => prev,
        }
    }
}

/// The distinct labels of the alternatives of the rules named `name`, in
/// source order.
pub open spec fn target_labels(rules: Seq<SpecSyntaxRule>, name: Seq<char>) -> Seq<Seq<char>>
    decreases rules.len(),
{
    if rules.len() == 0 {
        Seq::empty()
    } else {
        let prev = target_labels(rules.drop_last(), name);
        if rules.last().head.name == name {
            add_new_labels(prev, rule_alternatives(rules.last().priority_levels))
        } else {
            prev
        }
    }
}

/// The index of the first occurrence of `x`, if any.
pub open spec fn position(labels: Seq<Seq<char>>, x: Seq<char>) -> Option<nat>
    decreases labels.len(),
{
    if labels.len() == 0 {
        None
    } else {
        match position(labels.drop_last(), x) {
            Some(i) => Some(i),
            None => if labels.last() == x { Some((labels.len() - 1) as nat) } else { None },
        }
    }
}

/// `2` to the power `n`.
pub open spec fn bit_value(n: nat) -> int
    decreases n,
{
    if n == 0 { 1 } else { 2 * bit_value((n - 1) as nat) }
}

/// The guard `[BIT & e == 0]` of label number `bit`.
pub open spec fn exclude_guard_view(bit: nat) -> SpecSymbol {
    SpecSymbol::Condition(SpecExpr::Cond {
        left: Box::new(SpecExpr::BitAnd(Box::new(SpecExpr::Int(bit_value(bit) as i64)), Box::new(SpecExpr::Ref("e"@)))),
        right: Box::new(SpecExpr::Int(0)),
        op: CondOp::Eq,
    })
}

/// The number of an alternative's label among `labels`, if it is labeled.
pub open spec fn label_index(alt: SpecAlternative, labels: Seq<Seq<char>>) -> Option<usize> {
    match alt.label {
        Some(l) => match position(labels, l) {
            Some(b) => Some(b as usize),
            None => None,
        },
        None => None,
    }
}

/// An alternative of a target: guarded when labeled, returning its label.
pub open spec fn decorated(alt: SpecAlternative, labels: Seq<Seq<char>>) -> SpecAlternative {
    SpecAlternative {
        symbols: (match label_index(alt, labels) {
            Some(b) => seq![exclude_guard_view(b as nat)],
            None => Seq::empty(),
        }) + alt.symbols + seq![SpecSymbol::Return(SpecExpr::Tuple(seq![SpecExpr::Int(0), label_expr(label_index(alt, labels))]))],
        label: alt.label,
    }
}

/// A target rule with the mask parameter and decorated alternatives.
pub open spec fn with_mask_parameter(r: SpecSyntaxRule, labels: Seq<Seq<char>>) -> SpecSyntaxRule {
    SpecSyntaxRule {
        head: SpecNonterminal {
            name: r.head.name,
            origin: r.head.origin,
            parameters: r.head.parameters.push(SpecParameter { name: "e"@, ty: ParamType::I32 }),
        },
        priority_levels: r.priority_levels.map_values(|l: SpecPriorityLevel| SpecPriorityLevel {
            alternatives: l.alternatives.map_values(|a: SpecAlternative| decorated(a, labels)),
            associativity: l.associativity,
        }),
        layout: r.layout,
    }
}

/// The mask of `used` labels: the bits of their numbers in `labels`.
pub open spec fn exclusion_mask(used: Seq<Seq<char>>, labels: Seq<Seq<char>>) -> i64
    decreases used.len(),
{
    if used.len() == 0 {
        0
    } else {
        exclusion_mask(used.drop_last(), labels) | (bit_value(position(labels, used.last()).unwrap()) as i64)
    }
}

/// A symbol with its exclusions replaced by calls passing their masks and
/// its bare references to targets replaced by calls passing `0`, seen
/// through labels, bindings and restrictions.
pub open spec fn rewrite_target_refs_view(s: SpecSymbol, rules: Seq<SpecSyntaxRule>) -> SpecSymbol
    decreases s,
{
    match s {
        SpecSymbol::Exclude { symbol, labels } => {
            let id = spec_as_identifier(*symbol).unwrap();
            SpecSymbol::Call { name: id, arguments: seq![SpecExpr::Int(exclusion_mask(labels, target_labels(rules, id.name)))] }
        },
        SpecSymbol::Identifier(id) => if target_names(rules_preorder(rules)).contains(id.name) {
            SpecSymbol::Call { name: id, arguments: seq![SpecExpr::Int(0)] }
        } else {
            s
        },
        SpecSymbol::Labeled { label, symbol } => SpecSymbol::Labeled { label, symbol: Box::new(rewrite_target_refs_view(*symbol, rules)) },
        SpecSymbol::Binding { pattern, symbol } => SpecSymbol::Binding { pattern, symbol: Box::new(rewrite_target_refs_view(*symbol, rules)) },
        SpecSymbol::Restricted { symbol, restrictions } => SpecSymbol::Restricted { symbol: Box::new(rewrite_target_refs_view(*symbol, rules)), restrictions },
        _ => s,
    }
}

/// Whether every exclusion the rewrite of `s` reaches is one of the
/// grammar's exclusions (of a reference) and names only labels of its
/// target.
pub open spec fn exclusion_labels_defined(s: SpecSymbol, rules: Seq<SpecSyntaxRule>) -> bool
    decreases s,
{
    match s {
        SpecSymbol::Exclude { symbol, labels } => match spec_as_identifier(*symbol) {
            Some(id) => target_names(rules_preorder(rules)).contains(id.name)
                && forall|k: int| 0 <= k < labels.len() ==> target_labels(rules, id.name).contains(#[trigger] labels[k]),
            None => false,
        },
        SpecSymbol::Labeled { symbol, .. } => exclusion_labels_defined(*symbol, rules),
        SpecSymbol::Binding { symbol, .. } => exclusion_labels_defined(*symbol, rules),
        SpecSymbol::Restricted { symbol, .. } => exclusion_labels_defined(*symbol, rules),
        _ => true,
    }
}

/// The grammar after exclude desugaring: unchanged without exclusions;
/// otherwise targets get the mask parameter and decorated alternatives, and
/// every rule's symbols get their target references rewritten.
pub open spec fn exclude_desugar(rules: Seq<SpecSyntaxRule>) -> Seq<SpecSyntaxRule> {
    let names = target_names(rules_preorder(rules));
    if names.len() == 0 {
        rules
    } else {
        rules.map_values(|r: SpecSyntaxRule| map_rule_symbols(
            if names.contains(r.head.name) { with_mask_parameter(r, target_labels(rules, r.head.name)) } else { r },
            |symbols: Seq<SpecSymbol>| map_each(symbols, |s: SpecSymbol| rewrite_target_refs_view(s, rules)),
        ))
    }
}

/// What exclude desugaring needs of a grammar: every exclusion refers to a
/// rule and names only labels of it, and no target has more than 31 labels.
pub open spec fn exclusions_well_formed(rules: Seq<SpecSyntaxRule>) -> bool {
    &&& exclusions_refer(rules_preorder(rules))
    &&& forall|k: int| 0 <= k < target_names(rules_preorder(rules)).len()
        ==> target_labels(rules, #[trigger] target_names(rules_preorder(rules))[k]).len() <= 31
    &&& forall|i: int, l: int, j: int, k: int| 0 <= i < rules.len() && 0 <= l < rules[i].priority_levels.len()
        && 0 <= j < rules[i].priority_levels[l].alternatives.len()
        && 0 <= k < rules[i].priority_levels[l].alternatives[j].symbols.len()
        ==> exclusion_labels_defined(#[trigger] rules[i].priority_levels[l].alternatives[j].symbols[k], rules)
}


/// Whether a symbol, seen through labels, bindings and restrictions, is
/// neither an exclusion nor a bare reference to one of `names`.
pub open spec fn no_bare_target(s: SpecSymbol, names: Seq<Seq<char>>) -> bool
    decreases s,
{
    match s {
        SpecSymbol::Identifier(id) => !names.contains(id.name),
        SpecSymbol::Exclude { .. } => false,
        SpecSymbol::Labeled { symbol, .. } => no_bare_target(*symbol, names),
        SpecSymbol::Binding { symbol, .. } => no_bare_target(*symbol, names),
        SpecSymbol::Restricted { symbol, .. } => no_bare_target(*symbol, names),
        _ => true,
    }
}

proof fn lemma_rewrite_leaves_no_bare_target(s: SpecSymbol, rules: Seq<SpecSyntaxRule>)
    ensures
        no_bare_target(rewrite_target_refs_view(s, rules), target_names(rules_preorder(rules))),
    decreases s,
{
    match s {
        SpecSymbol::Labeled { symbol, .. } => lemma_rewrite_leaves_no_bare_target(*symbol, rules),
        SpecSymbol::Binding { symbol, .. } => lemma_rewrite_leaves_no_bare_target(*symbol, rules),
        SpecSymbol::Restricted { symbol, .. } => lemma_rewrite_leaves_no_bare_target(*symbol, rules),
        _ => {},
    }
}

/// After exclude desugaring no exclusion and no bare reference to a target
/// is left among the symbols of any alternative (seen through labels,
/// bindings and restrictions): each became a call passing a mask.
pub proof fn desugaring_leaves_no_bare_target(rules: Seq<SpecSyntaxRule>)
    ensures
        forall|i: int, l: int, a: int, k: int| 0 <= i < exclude_desugar(rules).len()
            && 0 <= l < exclude_desugar(rules)[i].priority_levels.len()
            && 0 <= a < exclude_desugar(rules)[i].priority_levels[l].alternatives.len()
            && 0 <= k < exclude_desugar(rules)[i].priority_levels[l].alternatives[a].symbols.len()
            && target_names(rules_preorder(rules)).len() > 0
            ==> no_bare_target(#[trigger] exclude_desugar(rules)[i].priority_levels[l].alternatives[a].symbols[k], target_names(rules_preorder(rules))),
{
    let names = target_names(rules_preorder(rules));
    if names.len() > 0 {
        let out = exclude_desugar(rules);
        assert forall|i: int, l: int, a: int, k: int| 0 <= i < out.len()
            && 0 <= l < out[i].priority_levels.len()
            && 0 <= a < out[i].priority_levels[l].alternatives.len()
            && 0 <= k < out[i].priority_levels[l].alternatives[a].symbols.len()
            implies no_bare_target(#[trigger] out[i].priority_levels[l].alternatives[a].symbols[k], names) by {
            let r = rules[i];
            let d = if names.contains(r.head.name) { with_mask_parameter(r, target_labels(rules, r.head.name)) } else { r };
            let orig = d.priority_levels[l].alternatives[a].symbols;
            assert(out[i].priority_levels[l].alternatives[a].symbols[k] == rewrite_target_refs_view(orig[k], rules));
            lemma_rewrite_leaves_no_bare_target(orig[k], rules);
        }
    }
}

// ---------------------------------------------------------------------------
// Lemmas on the label lists

proof fn lemma_target_names_distinct(symbols: Seq<SpecSymbol>)
    ensures
        target_names(symbols).no_duplicates(),
    decreases symbols.len(),
{
    if symbols.len() > 0 {
        lemma_target_names_distinct(symbols.drop_last());
    }
}

proof fn lemma_add_new_labels_grows(acc: Seq<Seq<char>>, alts: Seq<SpecAlternative>, j: int)
    requires
        0 <= j <= alts.len(),
    ensures
        acc.len() <= add_new_labels(acc, alts.take(j)).len() <= add_new_labels(acc, alts).len(),
    decreases alts.len(),
{
    if j == alts.len() {
        assert(alts.take(j) =~= alts);
        if alts.len() > 0 {
            lemma_add_new_labels_grows(acc, alts.drop_last(), alts.len() - 1);
            assert(alts.drop_last().take(alts.len() - 1) =~= alts.drop_last());
        }
    } else {
        let rest = alts.drop_last();
        assert(rest.take(j) =~= alts.take(j));
        lemma_add_new_labels_grows(acc, rest, j);
    }
}

proof fn lemma_target_labels_grow(rules: Seq<SpecSyntaxRule>, name: Seq<char>, i: int)
    requires
        0 <= i <= rules.len(),
    ensures
        target_labels(rules.take(i), name).len() <= target_labels(rules, name).len(),
    decreases rules.len(),
{
    if i == rules.len() {
        assert(rules.take(i) =~= rules);
    } else {
        let rest = rules.drop_last();
        assert(rest.take(i) =~= rules.take(i));
        lemma_target_labels_grow(rest, name, i);
        if rules.last().head.name == name {
            let alts = rule_alternatives(rules.last().priority_levels);
            lemma_add_new_labels_grows(target_labels(rest, name), alts, alts.len() as int);
        }
    }
}

proof fn lemma_position_bound(labels: Seq<Seq<char>>, x: Seq<char>)
    ensures
        position(labels, x) matches Some(i) ==> i < labels.len() && labels[i as int] == x,
        labels.contains(x) ==> position(labels, x) is Some,
    decreases labels.len(),
{
    if labels.len() > 0 {
        lemma_position_bound(labels.drop_last(), x);
        if labels.contains(x) && !labels.drop_last().contains(x) {
            let k = choose|k: int| 0 <= k < labels.len() && labels[k] == x;
            if k < labels.len() - 1 {
                assert(labels.drop_last()[k] == x);
            }
        }
    }
}

// ---------------------------------------------------------------------------
// The desugaring

/// Whether `names` holds `name`, and where.
fn find_name(names: &Vec<String>, name: &str) -> (r: Option<usize>)
    ensures
        match r {
            Some(i) => i < names@.len() && names@[i as int]@ == name@,
            None => !strings_view(names@).contains(name@),
        },
{
    let mut i: usize = 0;
    while i < names.len()
        invariant
            0 <= i <= names@.len(),
            forall|k: int| 0 <= k < i ==> strings_view(names@)[k] != name@,
        decreases names@.len() - i,
    {
        if str_eq(names[i].as_str(), name) {
            return Some(i);
        }
        i += 1;
    }
    None
}

/// `2` to the power `n`, for a label number.
fn bit_of(n: usize) -> (r: i64)
    requires
        n <= 30,
    ensures
        r == bit_value(n as nat),
{
    proof {
        assert(bit_value(30) == 0x4000_0000) by {
            reveal_with_fuel(bit_value, 31);
        }
    }
    let mut v: i64 = 1;
    let mut i: usize = 0;
    while i < n
        invariant
            0 <= i <= n <= 30,
            v == bit_value(i as nat),
            bit_value(30) == 0x4000_0000,
        decreases n - i,
    {
        proof {
            lemma_bit_value_monotone((i + 1) as nat, 30);
        }
        v = v * 2;
        i += 1;
    }
    v
}

proof fn lemma_bit_value_monotone(a: nat, b: nat)
    requires
        a <= b,
    ensures
        1 <= bit_value(a) <= bit_value(b),
    decreases b,
{
    if b > a {
        lemma_bit_value_monotone(a, (b - 1) as nat);
    } else if a > 0 {
        lemma_bit_value_monotone((a - 1) as nat, (a - 1) as nat);
    }
}

/// The guard `[BIT & e == 0]` of label number `bit`.
fn exclude_guard(bit: usize) -> (s: Symbol)
    requires
        bit <= 30,
    ensures
        s@ == exclude_guard_view(bit as nat),
{
    let value = bit_of(bit);
    proof {
        lemma_bit_value_monotone(bit as nat, 30);
        assert(bit_value(30) == 0x4000_0000) by {
            reveal_with_fuel(bit_value, 31);
        }
    }
    let bit_expr = Expr::Int(value);
    let e_ref = Expr::Ref(string_of("e"));
    assert(bit_expr@ == SpecExpr::Int(bit_value(bit as nat) as i64));
    assert(e_ref@ == SpecExpr::Ref("e"@));
    let left = Expr::BitAnd(Box::new(bit_expr), Box::new(e_ref));
    assert(left@ == SpecExpr::BitAnd(Box::new(SpecExpr::Int(bit_value(bit as nat) as i64)), Box::new(SpecExpr::Ref("e"@))));
    let zero = Expr::Int(0);
    assert(zero@ == SpecExpr::Int(0));
    let cond = Expr::Cond(Cond { left: Box::new(left), right: Box::new(zero), op: CondOp::Eq });
    Symbol::Condition(cond)
}

/// The number of `label` among `labels`.
fn label_number(labels: &Vec<String>, label: &String) -> (r: Option<usize>)
    ensures
        r == match position(strings_view(labels@), label@) {
            Some(i) => Some(i as usize),
            None => None::<usize>,
        },
{
    let ghost lv = strings_view(labels@);
    let mut i: usize = 0;
    while i < labels.len()
        invariant
            0 <= i <= labels@.len(),
            lv == strings_view(labels@),
            position(lv.take(i as int), label@) is None,
        decreases labels@.len() - i,
    {
        proof {
            assert(lv.take(i + 1).drop_last() =~= lv.take(i as int));
        }
        if str_eq(labels[i].as_str(), label.as_str()) {
            proof { lemma_position_prefix(lv, i as int + 1, label@); }
            return Some(i);
        }
        i += 1;
    }
    assert(lv.take(i as int) =~= lv);
    None
}

/// The first occurrence found in a prefix is the first occurrence.
proof fn lemma_position_prefix(labels: Seq<Seq<char>>, n: int, x: Seq<char>)
    requires
        0 <= n <= labels.len(),
        position(labels.take(n), x) is Some,
    ensures
        position(labels, x) == position(labels.take(n), x),
    decreases labels.len(),
{
    if n < labels.len() {
        let rest = labels.drop_last();
        assert(rest.take(n) =~= labels.take(n));
        lemma_position_prefix(rest, n, x);
    } else {
        assert(labels.take(n) =~= labels);
    }
}

/// A target's alternative with its guard and return; see `decorated`.
fn decorate_alt(alt: &Alternative, labels: &Vec<String>) -> (r: Alternative)
    requires
        labels@.len() <= 31,
    ensures
        r@ == decorated(alt@, strings_view(labels@)),
{
    let index = match &alt.label {
        Some(label) => label_number(labels, label),
        None => None,
    };
    proof {
        if let Some(label) = &alt.label {
            lemma_position_bound(strings_view(labels@), label@);
        }
    }
    let mut symbols: Vec<Symbol> = Vec::new();
    if let Some(bit) = index {
        let g = exclude_guard(bit);
        proof { lemma_symbols_view_push(symbols@, g); }
        symbols.push(g);
    }
    let ghost guard_part = symbols_view(symbols@);
    proof { lemma_symbols_view(alt.symbols@); }
    let mut i: usize = 0;
    while i < alt.symbols.len()
        invariant
            0 <= i <= alt.symbols@.len(),
            symbols_view(alt.symbols@).len() == alt.symbols@.len(),
            forall|k: int| 0 <= k < alt.symbols@.len() ==> #[trigger] symbols_view(alt.symbols@)[k] == alt.symbols@[k]@,
            symbols_view(symbols@) == guard_part + symbols_view(alt.symbols@).take(i as int),
        decreases alt.symbols@.len() - i,
    {
        let c = alt.symbols[i].clone();
        proof { lemma_symbols_view_push(symbols@, c); }
        symbols.push(c);
        assert(symbols_view(alt.symbols@).take(i + 1) =~= symbols_view(alt.symbols@).take(i as int).push(alt.symbols@[i as int]@));
        i += 1;
    }
    assert(symbols_view(alt.symbols@).take(i as int) =~= symbols_view(alt.symbols@));
    let zero = Expr::Int(0);
    assert(zero@ == SpecExpr::Int(0));
    let r = Symbol::Return(with_label(zero, index));
    let ghost body = symbols_view(symbols@);
    proof { lemma_symbols_view_push(symbols@, r); }
    symbols.push(r);
    assert(symbols_view(symbols@) == body.push(r@));
    assert(guard_part == match index {
        Some(b) => seq![exclude_guard_view(b as nat)],
        None => Seq::<SpecSymbol>::empty(),
    }) by {
        if index is None {
            assert(guard_part =~= Seq::<SpecSymbol>::empty());
        }
    }
    assert(r@ == SpecSymbol::Return(SpecExpr::Tuple(seq![SpecExpr::Int(0), label_expr(index)])));
    let label = match &alt.label {
        Some(l) => Some(l.clone()),
        None => None,
    };
    let out = Alternative { symbols, label };
    let ghost lv = strings_view(labels@);
    assert(index == label_index(alt@, lv));
    assert(body == guard_part + symbols_view(alt.symbols@));
    assert(out@.symbols =~= decorated(alt@, lv).symbols);
    out
}

/// A target rule with the mask parameter `e: i32` and decorated
/// alternatives; see `with_mask_parameter`.
fn add_e_param_and_guards(rule: &SyntaxRule, labels: &Vec<String>) -> (r: SyntaxRule)
    requires
        labels@.len() <= 31,
    ensures
        r@ == with_mask_parameter(rule@, strings_view(labels@)),
{
    let ghost lv = strings_view(labels@);
    let mut head = rule.head.clone();
    let ghost params_before = head@.parameters;
    head.parameters.push(Parameter { name: string_of("e"), ty: ParamType::I32 });
    assert(head@.parameters =~= params_before.push(SpecParameter { name: "e"@, ty: ParamType::I32 }));
    let mut levels: Vec<PriorityLevel> = Vec::new();
    let mut i: usize = 0;
    while i < rule.priority_levels.len()
        invariant
            0 <= i <= rule.priority_levels@.len(),
            labels@.len() <= 31,
            lv == strings_view(labels@),
            levels_view(levels@) == with_mask_parameter(rule@, lv).priority_levels.take(i as int),
        decreases rule.priority_levels@.len() - i,
    {
        let level = &rule.priority_levels[i];
        let mut alternatives: Vec<Alternative> = Vec::new();
        let mut j: usize = 0;
        while j < level.alternatives.len()
            invariant
                0 <= j <= level.alternatives@.len(),
                labels@.len() <= 31,
                lv == strings_view(labels@),
                alternatives_view(alternatives@) == alternatives_view(level.alternatives@).take(j as int).map_values(|a: SpecAlternative| decorated(a, lv)),
            decreases level.alternatives@.len() - j,
        {
            let d = decorate_alt(&level.alternatives[j], labels);
            let ghost prev = alternatives@;
            alternatives.push(d);
            proof {
                assert(alternatives_view(alternatives@) =~= alternatives_view(prev).push(d@));
                assert(alternatives_view(level.alternatives@).take(j + 1).map_values(|a: SpecAlternative| decorated(a, lv))
                    =~= alternatives_view(level.alternatives@).take(j as int).map_values(|a: SpecAlternative| decorated(a, lv)).push(decorated(level.alternatives@[j as int]@, lv)));
            }
            j += 1;
        }
        assert(alternatives_view(level.alternatives@).take(j as int) =~= alternatives_view(level.alternatives@));
        let ghost prev = levels@;
        levels.push(PriorityLevel { alternatives, associativity: level.associativity });
        proof {
            assert(levels_view(levels@) =~= levels_view(prev).push(levels@.last()@));
            assert(with_mask_parameter(rule@, lv).priority_levels.take(i + 1) =~= with_mask_parameter(rule@, lv).priority_levels.take(i as int).push(levels@.last()@));
        }
        i += 1;
    }
    assert(with_mask_parameter(rule@, lv).priority_levels.take(i as int) =~= with_mask_parameter(rule@, lv).priority_levels);
    SyntaxRule { head, priority_levels: levels, layout: crate::grammar::transformations::clone_layout(&rule.layout) }
}


/// How the desugaring sees the targets: their names, in order of first
/// appearance, and the labels of each.
pub open spec fn targets_match(names: Seq<String>, labels: Seq<Vec<String>>, rules: Seq<SpecSyntaxRule>) -> bool {
    &&& strings_view(names) == target_names(rules_preorder(rules))
    &&& labels.len() == names.len()
    &&& forall|t: int| 0 <= t < names.len() ==> strings_view(#[trigger] labels[t]@) == target_labels(rules, names[t]@)
}

/// The mask of `used` labels of the target whose labels are `labels`.
fn mask_of(used: &Vec<String>, labels: &Vec<String>) -> (m: i64)
    requires
        labels@.len() <= 31,
        forall|k: int| 0 <= k < used@.len() ==> strings_view(labels@).contains(#[trigger] used@[k]@),
    ensures
        m == exclusion_mask(strings_view(used@), strings_view(labels@)),
{
    let ghost uv = strings_view(used@);
    let ghost lv = strings_view(labels@);
    let mut mask: i64 = 0;
    let mut i: usize = 0;
    while i < used.len()
        invariant
            0 <= i <= used@.len(),
            labels@.len() <= 31,
            uv == strings_view(used@),
            lv == strings_view(labels@),
            forall|k: int| 0 <= k < used@.len() ==> lv.contains(#[trigger] used@[k]@),
            mask == exclusion_mask(uv.take(i as int), lv),
        decreases used@.len() - i,
    {
        proof {
            assert(uv[i as int] == used@[i as int]@);
            lemma_position_bound(lv, used@[i as int]@);
            assert(uv.take(i + 1).drop_last() =~= uv.take(i as int));
        }
        let position = label_number(labels, &used[i]);
        let bit = match position {
            Some(p) => bit_of(p),
            None => 0,
        };
        mask = mask | bit;
        i += 1;
    }
    assert(uv.take(i as int) =~= uv);
    mask
}

/// Rewrites the references to targets; see `rewrite_target_refs_view`.
fn rewrite_target_refs(symbol: &Symbol, names: &Vec<String>, labels: &Vec<Vec<String>>, Ghost(rules): Ghost<Seq<SpecSyntaxRule>>) -> (r: Symbol)
    requires
        targets_match(names@, labels@, rules),
        exclusion_labels_defined(symbol@, rules),
        forall|k: int| 0 <= k < target_names(rules_preorder(rules)).len()
            ==> target_labels(rules, #[trigger] target_names(rules_preorder(rules))[k]).len() <= 31,
    ensures
        r@ == rewrite_target_refs_view(symbol@, rules),
    decreases symbol,
{
    match symbol {
        Symbol::Exclude { symbol: inner, labels: used } => {
            let id = match inner.as_identifier() {
                Some(id) => id.clone(),
                None => vstd::pervasive::unreached(),
            };
            let t = match find_name(names, id.name.as_str()) {
                Some(t) => t,
                None => vstd::pervasive::unreached(),
            };
            proof {
                assert(strings_view(names@)[t as int] == names@[t as int]@);
                assert(strings_view(labels@[t as int]@).len() == labels@[t as int]@.len());
                assert forall|k: int| 0 <= k < used@.len() implies strings_view(labels@[t as int]@).contains(#[trigger] used@[k]@) by {
                    assert(strings_view(used@)[k] == used@[k]@);
                }
            }
            let mask = mask_of(used, &labels[t]);
            assert(mask == exclusion_mask(strings_view(used@), target_labels(rules, id@.name)));
            let m = Expr::Int(mask);
            assert(m@ == SpecExpr::Int(mask));
            let arguments = crate::grammar::symbols::one_expr(m);
            Symbol::Call { name: id, arguments }
        },
        Symbol::Identifier(id) => {
            match find_name(names, id.name.as_str()) {
                Some(t) => {
                    assert(strings_view(names@)[t as int] == id@.name);
                    let zero = Expr::Int(0);
                    assert(zero@ == SpecExpr::Int(0));
                    let arguments = crate::grammar::symbols::one_expr(zero);
                    Symbol::Call { name: id.clone(), arguments }
                },
                None => symbol.clone(),
            }
        },
        Symbol::Labeled { label, symbol: inner } => Symbol::Labeled {
            label: label.clone(),
            symbol: Box::new(rewrite_target_refs(&**inner, names, labels, Ghost(rules))),
        },
        Symbol::Binding { pattern, symbol: inner } => Symbol::Binding {
            pattern: pattern.clone(),
            symbol: Box::new(rewrite_target_refs(&**inner, names, labels, Ghost(rules))),
        },
        Symbol::Restricted { symbol: inner, restrictions } => Symbol::Restricted {
            symbol: Box::new(rewrite_target_refs(&**inner, names, labels, Ghost(rules))),
            restrictions: restrictions.clone(),
        },
        _ => symbol.clone(),
    }
}

/// Each symbol with its target references rewritten.
fn rewrite_all_refs(symbols: &Vec<Symbol>, names: &Vec<String>, labels: &Vec<Vec<String>>, Ghost(rules): Ghost<Seq<SpecSyntaxRule>>) -> (r: Vec<Symbol>)
    requires
        targets_match(names@, labels@, rules),
        forall|k: int| 0 <= k < symbols_view(symbols@).len() ==> exclusion_labels_defined(#[trigger] symbols_view(symbols@)[k], rules),
        forall|k: int| 0 <= k < target_names(rules_preorder(rules)).len()
            ==> target_labels(rules, #[trigger] target_names(rules_preorder(rules))[k]).len() <= 31,
    ensures
        symbols_view(r@) == map_each(symbols_view(symbols@), |s: SpecSymbol| rewrite_target_refs_view(s, rules)),
{
    proof { lemma_symbols_view(symbols@); }
    let ghost sv = symbols_view(symbols@);
    let mut out: Vec<Symbol> = Vec::new();
    let mut i: usize = 0;
    while i < symbols.len()
        invariant
            0 <= i <= symbols@.len(),
            sv == symbols_view(symbols@),
            sv.len() == symbols@.len(),
            forall|k: int| 0 <= k < symbols@.len() ==> #[trigger] sv[k] == symbols@[k]@,
            targets_match(names@, labels@, rules),
            forall|k: int| 0 <= k < sv.len() ==> exclusion_labels_defined(#[trigger] sv[k], rules),
            forall|k: int| 0 <= k < target_names(rules_preorder(rules)).len()
                ==> target_labels(rules, #[trigger] target_names(rules_preorder(rules))[k]).len() <= 31,
            symbols_view(out@) == map_each(sv, |s: SpecSymbol| rewrite_target_refs_view(s, rules)).take(i as int),
        decreases symbols@.len() - i,
    {
        assert(exclusion_labels_defined(sv[i as int], rules));
        let s = rewrite_target_refs(&symbols[i], names, labels, Ghost(rules));
        proof { lemma_symbols_view_push(out@, s); }
        out.push(s);
        assert(map_each(sv, |s: SpecSymbol| rewrite_target_refs_view(s, rules)).take(i + 1)
            =~= map_each(sv, |s: SpecSymbol| rewrite_target_refs_view(s, rules)).take(i as int).push(rewrite_target_refs_view(sv[i as int], rules)));
        i += 1;
    }
    assert(map_each(sv, |s: SpecSymbol| rewrite_target_refs_view(s, rules)).take(i as int) =~= map_each(sv, |s: SpecSymbol| rewrite_target_refs_view(s, rules)));
    out
}

/// The names targeted by the exclusions of `rules`, in order of first
/// appearance.
fn collect_target_names(rules: &Vec<SyntaxRule>) -> (names: Vec<String>)
    requires
        exclusions_refer(rules_preorder(syntax_rules_view(rules@))),
    ensures
        strings_view(names@) == target_names(rules_preorder(syntax_rules_view(rules@))),
{
    let symbols = rules_symbols(rules);
    let ghost views = symbol_refs_view(symbols@);
    let mut names: Vec<String> = Vec::new();
    let mut k: usize = 0;
    while k < symbols.len()
        invariant
            0 <= k <= symbols@.len(),
            views == symbol_refs_view(symbols@),
            views == rules_preorder(syntax_rules_view(rules@)),
            exclusions_refer(views),
            strings_view(names@) == target_names(views.take(k as int)),
        decreases symbols@.len() - k,
    {
        let symbol = symbols[k];
        proof {
            assert(views.take(k + 1).drop_last() =~= views.take(k as int));
            assert(views.take(k + 1).last() == symbol@);
            assert(views[k as int] == symbol@);
        }
        if let Symbol::Exclude { symbol: inner, .. } = symbol {
            match inner.as_identifier() {
                Some(id) => {
                    match find_name(&names, id.name.as_str()) {
                        Some(t) => {
                            assert(strings_view(names@)[t as int] == id@.name);
                        },
                        None => {
                            let ghost prev = names@;
                            names.push(id.name.clone());
                            assert(strings_view(names@) =~= strings_view(prev).push(id@.name));
                        },
                    }
                },
                None => {},
            }
        }
        k += 1;
    }
    assert(views.take(k as int) =~= views);
    names
}

/// Whether `labels` holds `label`.
fn contains_label(labels: &Vec<String>, label: &String) -> (r: bool)
    ensures
        r == strings_view(labels@).contains(label@),
{
    let mut i: usize = 0;
    while i < labels.len()
        invariant
            0 <= i <= labels@.len(),
            forall|k: int| 0 <= k < i ==> strings_view(labels@)[k] != label@,
        decreases labels@.len() - i,
    {
        if str_eq(labels[i].as_str(), label.as_str()) {
            assert(strings_view(labels@)[i as int] == label@);
            return true;
        }
        i += 1;
    }
    false
}

/// The labels of each target, in the order of `names`.
fn collect_target_labels(rules: &Vec<SyntaxRule>, names: &Vec<String>) -> (labels: Vec<Vec<String>>)
    requires
        strings_view(names@) == target_names(rules_preorder(syntax_rules_view(rules@))),
        forall|k: int| 0 <= k < names@.len()
            ==> target_labels(syntax_rules_view(rules@), #[trigger] names@[k]@).len() <= 31,
    ensures
        labels@.len() == names@.len(),
        forall|t: int| 0 <= t < names@.len() ==> strings_view(#[trigger] labels@[t]@) == target_labels(syntax_rules_view(rules@), names@[t]@),
{
    let ghost rv = syntax_rules_view(rules@);
    proof { lemma_target_names_distinct(rules_preorder(rv)); }
    let mut labels: Vec<Vec<String>> = Vec::new();
    let mut t: usize = 0;
    while t < names.len()
        invariant
            0 <= t <= names@.len(),
            labels@.len() == t,
            forall|u: int| 0 <= u < t ==> (#[trigger] labels@[u])@.len() == 0,
        decreases names@.len() - t,
    {
        labels.push(Vec::new());
        t += 1;
    }
    assert forall|u: int| 0 <= u < names@.len() implies strings_view(#[trigger] labels@[u]@) == target_labels(rv.take(0), names@[u]@) by {
        assert(rv.take(0) =~= Seq::<SpecSyntaxRule>::empty());
        assert(strings_view(labels@[u]@) =~= Seq::<Seq<char>>::empty());
    }
    let mut i: usize = 0;
    while i < rules.len()
        invariant
            0 <= i <= rules@.len(),
            rv == syntax_rules_view(rules@),
            strings_view(names@) == target_names(rules_preorder(rv)),
            strings_view(names@).no_duplicates(),
            forall|k: int| 0 <= k < names@.len() ==> target_labels(rv, #[trigger] names@[k]@).len() <= 31,
            labels@.len() == names@.len(),
            forall|u: int| 0 <= u < names@.len() ==> strings_view(#[trigger] labels@[u]@) == target_labels(rv.take(i as int), names@[u]@),
        decreases rules@.len() - i,
    {
        let rule = &rules[i];
        proof {
            assert(rv.take(i + 1).drop_last() =~= rv.take(i as int));
            assert(rv.take(i + 1).last() == rule@);
        }
        match find_name(names, rule.head.name.as_str()) {
            Some(t) => {
                let ghost name = names@[t as int]@;
                let ghost base = target_labels(rv.take(i as int), name);
                let alternatives = rule.alternatives();
                let ghost alts = alternatives@.map_values(|a: &Alternative| a@);
                let mut current = crate::grammar::symbols::clone_strings(&labels[t]);
                proof {
                    assert(target_labels(rv.take(i + 1), name) == add_new_labels(base, alts));
                    lemma_target_labels_grow(rv, name, i + 1);
                }
                let mut j: usize = 0;
                while j < alternatives.len()
                    invariant
                        0 <= j <= alternatives@.len(),
                        alts == alternatives@.map_values(|a: &Alternative| a@),
                        add_new_labels(base, alts).len() <= 31,
                        strings_view(current@) == add_new_labels(base, alts.take(j as int)),
                    decreases alternatives@.len() - j,
                {
                    let alternative = alternatives[j];
                    proof {
                        assert(alts.take(j + 1).drop_last() =~= alts.take(j as int));
                        assert(alts.take(j + 1).last() == alternative@);
                        lemma_add_new_labels_grows(base, alts, j + 1);
                    }
                    if let Some(label) = &alternative.label {
                        if !contains_label(&current, label) {
                            let ghost prev = current@;
                            current.push(label.clone());
                            assert(strings_view(current@) =~= strings_view(prev).push(label@));
                        }
                    }
                    j += 1;
                }
                assert(alts.take(j as int) =~= alts);
                let ghost before = labels@;
                labels.set(t, current);
                assert forall|u: int| 0 <= u < names@.len() implies strings_view(#[trigger] labels@[u]@) == target_labels(rv.take(i + 1), names@[u]@) by {
                    if u != t {
                        assert(strings_view(names@)[u] != strings_view(names@)[t as int]);
                        assert(labels@[u] == before[u]);
                    }
                }
            },
            None => {
                assert forall|u: int| 0 <= u < names@.len() implies strings_view(#[trigger] labels@[u]@) == target_labels(rv.take(i + 1), names@[u]@) by {
                    assert(strings_view(names@)[u] == names@[u]@);
                }
            },
        }
        i += 1;
    }
    assert(rv.take(i as int) =~= rv);
    labels
}

proof fn lemma_decorated_defined(alt: SpecAlternative, labels: Seq<Seq<char>>, rules: Seq<SpecSyntaxRule>)
    requires
        forall|k: int| 0 <= k < alt.symbols.len() ==> exclusion_labels_defined(#[trigger] alt.symbols[k], rules),
    ensures
        forall|k: int| 0 <= k < decorated(alt, labels).symbols.len() ==> exclusion_labels_defined(#[trigger] decorated(alt, labels).symbols[k], rules),
{
    let d = decorated(alt, labels).symbols;
    let guard: Seq<SpecSymbol> = match label_index(alt, labels) {
        Some(b) => seq![exclude_guard_view(b as nat)],
        None => Seq::empty(),
    };
    assert forall|k: int| 0 <= k < d.len() implies exclusion_labels_defined(#[trigger] d[k], rules) by {
        if k < guard.len() {
            assert(d[k] == guard[k]);
        } else if k < guard.len() + alt.symbols.len() {
            assert(d[k] == alt.symbols[k - guard.len()]);
        }
    }
}

/// The grammar after exclude desugaring; see `exclude_desugar`.
#[verifier::loop_isolation(false)]
pub fn transform(syntax_rules: Vec<SyntaxRule>) -> (r: Vec<SyntaxRule>)
    requires
        exclusions_well_formed(syntax_rules_view(syntax_rules@)),
    ensures
        syntax_rules_view(r@) == exclude_desugar(syntax_rules_view(syntax_rules@)),
{
    let ghost rules = syntax_rules_view(syntax_rules@);
    let names = collect_target_names(&syntax_rules);
    if names.len() == 0 {
        assert(target_names(rules_preorder(rules)).len() == 0);
        return syntax_rules;
    }
    proof {
        assert forall|k: int| 0 <= k < names@.len() implies target_labels(rules, #[trigger] names@[k]@).len() <= 31 by {
            assert(strings_view(names@)[k] == names@[k]@);
        }
    }
    let labels = collect_target_labels(&syntax_rules, &names);
    let ghost pre = |symbols: Seq<SpecSymbol>| forall|k: int| 0 <= k < symbols.len() ==> exclusion_labels_defined(#[trigger] symbols[k], rules);
    let ghost g = |symbols: Seq<SpecSymbol>| map_each(symbols, |s: SpecSymbol| rewrite_target_refs_view(s, rules));
    let grammar: Ghost<Seq<SpecSyntaxRule>> = Ghost(rules);
    let f = |symbols: &Vec<Symbol>| -> (r: Vec<Symbol>)
        requires
            forall|k: int| 0 <= k < symbols_view(symbols@).len() ==> exclusion_labels_defined(#[trigger] symbols_view(symbols@)[k], grammar@),
            targets_match(names@, labels@, grammar@),
            forall|k: int| 0 <= k < target_names(rules_preorder(grammar@)).len()
                ==> target_labels(grammar@, #[trigger] target_names(rules_preorder(grammar@))[k]).len() <= 31,
        ensures
            symbols_view(r@) == map_each(symbols_view(symbols@), |s: SpecSymbol| rewrite_target_refs_view(s, grammar@)),
    {
        rewrite_all_refs(symbols, &names, &labels, grammar)
    };
    let mut out: Vec<SyntaxRule> = Vec::new();
    let mut i: usize = 0;
    while i < syntax_rules.len()
        invariant
            0 <= i <= syntax_rules@.len(),
            rules == syntax_rules_view(syntax_rules@),
            exclusions_well_formed(rules),
            targets_match(names@, labels@, rules),
            names@.len() > 0,
            forall|x: &Vec<Symbol>| pre(symbols_view(x@)) ==> #[trigger] f.requires((x,)),
            forall|x: &Vec<Symbol>, y: Vec<Symbol>| #[trigger] f.ensures((x,), y) ==> symbols_view(y@) == g(symbols_view(x@)),
            syntax_rules_view(out@) == exclude_desugar(rules).take(i as int),
        decreases syntax_rules@.len() - i,
    {
        let rule = &syntax_rules[i];
        proof {
            assert(rules[i as int] == rule@);
            assert(all_alternatives(rule@, pre));
        }
        let rewritten = match find_name(&names, rule.head.name.as_str()) {
            Some(t) => {
                proof {
                    assert(strings_view(names@)[t as int] == names@[t as int]@);
                    assert(target_names(rules_preorder(rules)).contains(rule@.head.name));
                    assert(strings_view(labels@[t as int]@).len() == labels@[t as int]@.len());
                }
                let decorated_rule = add_e_param_and_guards(rule, &labels[t]);
                proof {
                    let lv = strings_view(labels@[t as int]@);
                    assert forall|l: int, a: int| 0 <= l < decorated_rule@.priority_levels.len()
                        && 0 <= a < decorated_rule@.priority_levels[l].alternatives.len()
                        implies pre(#[trigger] decorated_rule@.priority_levels[l].alternatives[a].symbols) by {
                        let alt = rule@.priority_levels[l].alternatives[a];
                        assert(decorated_rule@.priority_levels[l].alternatives[a] == decorated(alt, lv));
                        assert(pre(alt.symbols));
                        lemma_decorated_defined(alt, lv, rules);
                    }
                }
                map_rule_by_symbols(&decorated_rule, &f, Ghost(g), Ghost(pre))
            },
            None => {
                proof {
                    assert(!target_names(rules_preorder(rules)).contains(rule@.head.name));
                }
                map_rule_by_symbols(rule, &f, Ghost(g), Ghost(pre))
            },
        };
        let ghost prev = out@;
        out.push(rewritten);
        proof {
            assert(syntax_rules_view(out@) =~= syntax_rules_view(prev).push(rewritten@));
            assert(exclude_desugar(rules).take(i + 1) =~= exclude_desugar(rules).take(i as int).push(exclude_desugar(rules)[i as int]));
        }
        i += 1;
    }
    assert(exclude_desugar(rules).take(i as int) =~= exclude_desugar(rules));
    out
}

} // verus!
