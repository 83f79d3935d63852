//! Layout insertion: the layout symbol goes between the parse tree symbols of
//! a rule, and layout-aware follow restrictions (`!>>>`) become plain follow
//! restrictions (`!>>`) where they can.
//!
//! A `!>>>` restriction forbids its terminals after the layout that follows
//! its symbol.
//!
//! - When a layout symbol is inserted right after the restricted symbol, the
//!   restriction moves onto that layout as a plain `!>>`.
//! - When no layout symbol is inserted after the restricted symbol (the last
//!   parse tree symbol of an alternative), the restriction stays.
//! - When a rule gets no layout (`@NoLayout`, or a grammar without a layout
//!   rule), the `!>>>` restrictions are rewritten to `!>>`.
use vstd::prelude::*;
use crate::grammar::def::{syntax_rules_view, SpecLayoutStrategy, SpecSyntaxRule, SyntaxRule, LayoutStrategy};
use crate::grammar::symbols::{
    identifiers_view, spec_is_parse_tree_symbol, spec_restricted, symbols_view, Identifier,
    Restrictions, SpecIdentifier, SpecRestrictions, SpecSymbol, Symbol, lemma_symbols_view,
    lemma_symbols_view_push,
};
use crate::grammar::transformations::{map_each, map_rule_by_symbols, map_rule_symbols};
use crate::text::str_eq;

verus! {

/// A symbol without its `!>>>` operands, and those operands. The walk
/// descends through labels and bindings to the restricted symbol.
pub open spec fn strip_layout_aware(s: SpecSymbol) -> (SpecSymbol, Seq<SpecIdentifier>)
    decreases s,
{
    match s {
        SpecSymbol::Labeled { label, symbol } => {
            let (inner, stripped) = strip_layout_aware(*symbol);
            (SpecSymbol::Labeled { label, symbol: Box::new(inner) }, stripped)
        },
        SpecSymbol::Binding { pattern, symbol } => {
            let (inner, stripped) = strip_layout_aware(*symbol);
            (SpecSymbol::Binding { pattern, symbol: Box::new(inner) }, stripped)
        },
        SpecSymbol::Restricted { symbol, restrictions } => (
            spec_restricted(*symbol, SpecRestrictions {
                precede: restrictions.precede,
                excepts: restrictions.excepts,
                follow: restrictions.follow,
                layout_aware_follow: Seq::empty(),
            }),
            restrictions.layout_aware_follow,
        ),
        _ => (s, Seq::empty()),
    }
}

/// `existing` followed by each of `added` that is not yet among them.
pub open spec fn append_new(existing: Seq<SpecIdentifier>, added: Seq<SpecIdentifier>) -> Seq<SpecIdentifier>
    decreases added.len(),
{
    if added.len() == 0 {
        existing
    } else {
        let e = append_new(existing, added.drop_last());
        if e.contains(added.last()) { e } else { e.push(added.last()) }
    }
}

/// Adding follow operands lists each operand once: the result keeps the
/// existing operands, holds exactly the operands of both lists, and has no
/// duplicates when the existing ones had none.
pub proof fn added_follow_operands_are_listed_once(existing: Seq<SpecIdentifier>, added: Seq<SpecIdentifier>)
    requires
        existing.no_duplicates(),
    ensures
        append_new(existing, added).no_duplicates(),
        append_new(existing, added).len() >= existing.len(),
        append_new(existing, added).take(existing.len() as int) == existing,
        forall|id: SpecIdentifier| #[trigger] append_new(existing, added).contains(id)
            <==> (existing.contains(id) || added.contains(id)),
    decreases added.len(),
{
    if added.len() == 0 {
        assert(existing.take(existing.len() as int) =~= existing);
    } else {
        let rest = added.drop_last();
        added_follow_operands_are_listed_once(existing, rest);
        let e = append_new(existing, rest);
        assert forall|id: SpecIdentifier| added.contains(id) implies (rest.contains(id) || id == added.last()) by {
            let k = choose|k: int| 0 <= k < added.len() && added[k] == id;
            if k < added.len() - 1 {
                assert(rest[k] == id);
            }
        }
        assert forall|id: SpecIdentifier| rest.contains(id) implies added.contains(id) by {
            let k = choose|k: int| 0 <= k < rest.len() && rest[k] == id;
            assert(added[k] == id);
        }
        if !e.contains(added.last()) {
            let r = e.push(added.last());
            assert(r.take(existing.len() as int) =~= e.take(existing.len() as int));
            assert forall|id: SpecIdentifier| #[trigger] r.contains(id) <==> (e.contains(id) || id == added.last()) by {
                if r.contains(id) && !e.contains(id) {
                    let k = choose|k: int| 0 <= k < r.len() && r[k] == id;
                    if k < e.len() {
                        assert(e[k] == id);
                    }
                }
                if e.contains(id) {
                    let k = choose|k: int| 0 <= k < e.len() && e[k] == id;
                    assert(r[k] == id);
                }
                if id == added.last() {
                    assert(r[e.len() as int] == id);
                }
            }
        }
    }
}

/// A symbol with `follow` added to its follow restrictions (seen through
/// labels and bindings), skipping operands it already has; a symbol without
/// restrictions gets them.
pub open spec fn add_follow(s: SpecSymbol, follow: Seq<SpecIdentifier>) -> SpecSymbol
    decreases s,
{
    if follow.len() == 0 {
        s
    } else {
        match s {
            SpecSymbol::Labeled { label, symbol } => SpecSymbol::Labeled { label, symbol: Box::new(add_follow(*symbol, follow)) },
            SpecSymbol::Binding { pattern, symbol } => SpecSymbol::Binding { pattern, symbol: Box::new(add_follow(*symbol, follow)) },
            SpecSymbol::Restricted { symbol, restrictions } => SpecSymbol::Restricted {
                symbol,
                restrictions: SpecRestrictions {
                    precede: restrictions.precede,
                    excepts: restrictions.excepts,
                    follow: append_new(restrictions.follow, follow),
                    layout_aware_follow: restrictions.layout_aware_follow,
                },
            },
            _ => SpecSymbol::Restricted {
                symbol: Box::new(s),
                restrictions: SpecRestrictions {
                    precede: Seq::empty(),
                    excepts: Seq::empty(),
                    follow,
                    layout_aware_follow: Seq::empty(),
                },
            },
        }
    }
}

/// A symbol whose `!>>>` operands become `!>>` operands.
pub open spec fn layout_aware_to_follow(s: SpecSymbol) -> SpecSymbol {
    add_follow(strip_layout_aware(s).0, strip_layout_aware(s).1)
}

/// The index of the last parse tree symbol among the first `n`, or -1.
pub open spec fn last_parse_tree_before(symbols: Seq<SpecSymbol>, n: int) -> int
    decreases n,
{
    if n <= 0 {
        -1
    } else if spec_is_parse_tree_symbol(symbols[n - 1]) {
        n - 1
    } else {
        last_parse_tree_before(symbols, n - 1)
    }
}

/// What symbol `i` becomes: a condition or return stays; a parse tree symbol
/// is preceded by the layout when a parse tree symbol comes before it (the
/// layout restricted by that symbol's `!>>>` operands), and loses its own
/// `!>>>` operands unless it is the last parse tree symbol.
pub open spec fn layout_piece(symbols: Seq<SpecSymbol>, i: int, layout: SpecSymbol) -> Seq<SpecSymbol> {
    let s = symbols[i];
    if !spec_is_parse_tree_symbol(s) {
        seq![s]
    } else {
        let prev = last_parse_tree_before(symbols, i);
        let last = last_parse_tree_before(symbols, symbols.len() as int);
        (if prev >= 0 { seq![add_follow(layout, strip_layout_aware(symbols[prev]).1)] } else { Seq::empty() })
            + seq![if i == last { s } else { strip_layout_aware(s).0 }]
    }
}

/// The pieces of the first `n` symbols, in order.
pub open spec fn layout_pieces(symbols: Seq<SpecSymbol>, n: int, layout: SpecSymbol) -> Seq<SpecSymbol>
    decreases n,
{
    if n <= 0 {
        Seq::empty()
    } else {
        layout_pieces(symbols, n - 1, layout) + layout_piece(symbols, n - 1, layout)
    }
}

/// A symbol list with the layout inserted between its parse tree symbols.
pub open spec fn with_layout(symbols: Seq<SpecSymbol>, layout: SpecSymbol) -> Seq<SpecSymbol> {
    layout_pieces(symbols, symbols.len() as int, layout)
}

/// A rule after layout insertion: with the grammar's layout when it has the
/// default strategy and the grammar has a layout; otherwise its `!>>>`
/// restrictions become `!>>` ones.
pub open spec fn layout_rule(r: SpecSyntaxRule, layout: Option<SpecSymbol>) -> SpecSyntaxRule {
    if r.layout is Default && layout is Some {
        map_rule_symbols(r, |symbols: Seq<SpecSymbol>| with_layout(symbols, layout->0))
    } else {
        map_rule_symbols(r, |symbols: Seq<SpecSymbol>| map_each(symbols, |s: SpecSymbol| layout_aware_to_follow(s)))
    }
}

/// Whether `ids` holds `id`.
fn contains_identifier(ids: &Vec<Identifier>, id: &Identifier) -> (r: bool)
    ensures
        r == identifiers_view(ids@).contains(id@),
{
    let mut i: usize = 0;
    while i < ids.len()
        invariant
            0 <= i <= ids@.len(),
            forall|k: int| 0 <= k < i ==> identifiers_view(ids@)[k] != id@,
        decreases ids@.len() - i,
    {
        if crate::grammar::equality::identifier_eq(&ids[i], id) {
            assert(identifiers_view(ids@)[i as int] == id@);
            return true;
        }
        i += 1;
    }
    false
}

/// Strips the `!>>>` operands off a symbol; see `strip_layout_aware`.
pub fn strip_layout_aware_restrictions(symbol: &Symbol) -> (r: (Symbol, Vec<Identifier>))
    ensures
        (r.0@, identifiers_view(r.1@)) == strip_layout_aware(symbol@),
    decreases symbol,
{
    match symbol {
        Symbol::Labeled { label, symbol } => {
            let (inner, stripped) = strip_layout_aware_restrictions(&**symbol);
            (Symbol::Labeled { label: label.clone(), symbol: Box::new(inner) }, stripped)
        },
        Symbol::Binding { pattern, symbol } => {
            let (inner, stripped) = strip_layout_aware_restrictions(&**symbol);
            (Symbol::Binding { pattern: pattern.clone(), symbol: Box::new(inner) }, stripped)
        },
        Symbol::Restricted { symbol, restrictions } => {
            let kept = Restrictions {
                precede: crate::grammar::symbols::clone_identifiers(&restrictions.precede),
                excepts: crate::grammar::symbols::clone_identifiers(&restrictions.excepts),
                follow: crate::grammar::symbols::clone_identifiers(&restrictions.follow),
                layout_aware_follow: Vec::new(),
            };
            assert(identifiers_view(kept.layout_aware_follow@) =~= Seq::<SpecIdentifier>::empty());
            let stripped = crate::grammar::symbols::clone_identifiers(&restrictions.layout_aware_follow);
            (Symbol::restricted((**symbol).clone(), kept), stripped)
        },
        _ => {
            let r = (symbol.clone(), Vec::new());
            assert(identifiers_view(r.1@) =~= Seq::<SpecIdentifier>::empty());
            r
        },
    }
}

/// Adds `follow` to the follow restrictions of `symbol`; see `add_follow`.
pub fn add_follow_restriction(symbol: Symbol, follow: Vec<Identifier>) -> (r: Symbol)
    ensures
        r@ == add_follow(symbol@, identifiers_view(follow@)),
    decreases symbol,
{
    assert(identifiers_view(follow@).len() == follow@.len());
    if follow.len() == 0 {
        return symbol;
    }
    match symbol {
        Symbol::Labeled { label, symbol: inner } => {
            let updated = add_follow_restriction(*inner, follow);
            Symbol::Labeled { label, symbol: Box::new(updated) }
        },
        Symbol::Binding { pattern, symbol: inner } => {
            let updated = add_follow_restriction(*inner, follow);
            Symbol::Binding { pattern, symbol: Box::new(updated) }
        },
        Symbol::Restricted { symbol, restrictions } => {
            let mut restrictions = restrictions;
            let ghost existing = identifiers_view(restrictions.follow@);
            let ghost added = identifiers_view(follow@);
            let ghost r0 = restrictions@;
            let mut i: usize = 0;
            while i < follow.len()
                invariant
                    0 <= i <= follow@.len(),
                    restrictions@.precede == r0.precede,
                    restrictions@.excepts == r0.excepts,
                    restrictions@.layout_aware_follow == r0.layout_aware_follow,
                    added == identifiers_view(follow@),
                    identifiers_view(restrictions.follow@) == append_new(existing, added.take(i as int)),
                decreases follow@.len() - i,
            {
                proof {
                    assert(added.take(i + 1).drop_last() =~= added.take(i as int));
                    assert(added.take(i + 1).last() == follow@[i as int]@);
                }
                if !contains_identifier(&restrictions.follow, &follow[i]) {
                    let ghost prev = restrictions.follow@;
                    restrictions.follow.push(follow[i].clone());
                    assert(identifiers_view(restrictions.follow@) =~= identifiers_view(prev).push(follow@[i as int]@));
                }
                i += 1;
            }
            assert(added.take(i as int) =~= added);
            Symbol::Restricted { symbol, restrictions }
        },
        _ => {
            let restrictions = Restrictions { precede: Vec::new(), excepts: Vec::new(), follow, layout_aware_follow: Vec::new() };
            assert(identifiers_view(restrictions.precede@) =~= Seq::<SpecIdentifier>::empty());
            assert(identifiers_view(restrictions.excepts@) =~= Seq::<SpecIdentifier>::empty());
            assert(identifiers_view(restrictions.layout_aware_follow@) =~= Seq::<SpecIdentifier>::empty());
            Symbol::Restricted { symbol: Box::new(symbol), restrictions }
        },
    }
}

/// A symbol whose `!>>>` operands become `!>>` operands.
fn rewrite_layout_aware(symbol: &Symbol) -> (r: Symbol)
    ensures
        r@ == layout_aware_to_follow(symbol@),
{
    let (s, stripped) = strip_layout_aware_restrictions(symbol);
    add_follow_restriction(s, stripped)
}

/// Each symbol with its `!>>>` operands rewritten to `!>>` operands.
fn rewrite_all_layout_aware(symbols: &Vec<Symbol>) -> (r: Vec<Symbol>)
    ensures
        symbols_view(r@) == map_each(symbols_view(symbols@), |s: SpecSymbol| layout_aware_to_follow(s)),
{
    proof { lemma_symbols_view(symbols@); }
    let mut out: Vec<Symbol> = Vec::new();
    let mut i: usize = 0;
    while i < symbols.len()
        invariant
            0 <= i <= symbols@.len(),
            symbols_view(symbols@).len() == symbols@.len(),
            forall|k: int| 0 <= k < symbols@.len() ==> #[trigger] symbols_view(symbols@)[k] == symbols@[k]@,
            symbols_view(out@) == map_each(symbols_view(symbols@), |s: SpecSymbol| layout_aware_to_follow(s)).take(i as int),
        decreases symbols@.len() - i,
    {
        let s = rewrite_layout_aware(&symbols[i]);
        let ghost prev = out@;
        out.push(s);
        proof {
            assert(out@.drop_last() =~= prev);
            assert(map_each(symbols_view(symbols@), |s: SpecSymbol| layout_aware_to_follow(s)).take(i + 1)
                =~= map_each(symbols_view(symbols@), |s: SpecSymbol| layout_aware_to_follow(s)).take(i as int).push(layout_aware_to_follow(symbols@[i as int]@)));
        }
        i += 1;
    }
    assert(map_each(symbols_view(symbols@), |s: SpecSymbol| layout_aware_to_follow(s)).take(i as int)
        =~= map_each(symbols_view(symbols@), |s: SpecSymbol| layout_aware_to_follow(s)));
    out
}


/// The last parse tree symbol among the first `n` comes no earlier than any
/// parse tree symbol among them.
proof fn lemma_last_parse_tree_at_least(symbols: Seq<SpecSymbol>, n: int, i: int)
    requires
        0 <= i < n,
        spec_is_parse_tree_symbol(symbols[i]),
    ensures
        last_parse_tree_before(symbols, n) >= i,
    decreases n,
{
    if i < n - 1 && !spec_is_parse_tree_symbol(symbols[n - 1]) {
        lemma_last_parse_tree_at_least(symbols, n - 1, i);
    }
}

/// The last parse tree symbol before `n` is one, and comes before `n`.
proof fn lemma_last_parse_tree_bounds(symbols: Seq<SpecSymbol>, n: int)
    requires
        0 <= n <= symbols.len(),
    ensures
        -1 <= last_parse_tree_before(symbols, n) < n,
        last_parse_tree_before(symbols, n) >= 0 ==> spec_is_parse_tree_symbol(symbols[last_parse_tree_before(symbols, n)]),
    decreases n,
{
    if n > 0 && !spec_is_parse_tree_symbol(symbols[n - 1]) {
        lemma_last_parse_tree_bounds(symbols, n - 1);
    }
}

/// The index of the last parse tree symbol, if any.
fn last_parse_tree_index(symbols: &Vec<Symbol>) -> (r: Option<usize>)
    ensures
        match r {
            Some(k) => k == last_parse_tree_before(symbols_view(symbols@), symbols@.len() as int),
            None => last_parse_tree_before(symbols_view(symbols@), symbols@.len() as int) == -1,
        },
{
    proof { lemma_symbols_view(symbols@); }
    let ghost sv = symbols_view(symbols@);
    let mut i: usize = symbols.len();
    while i > 0
        invariant
            0 <= i <= symbols@.len(),
            sv == symbols_view(symbols@),
            sv.len() == symbols@.len(),
            forall|k: int| 0 <= k < symbols@.len() ==> #[trigger] sv[k] == symbols@[k]@,
            last_parse_tree_before(sv, symbols@.len() as int) == last_parse_tree_before(sv, i as int),
        decreases i,
    {
        if symbols[i - 1].is_parse_tree_symbol() {
            return Some(i - 1);
        }
        i -= 1;
    }
    None
}

/// Inserts `layout` between the parse tree symbols of `symbols`; see
/// `with_layout`.
fn insert_layout(symbols: &Vec<Symbol>, layout: &Symbol) -> (r: Vec<Symbol>)
    ensures
        symbols_view(r@) == with_layout(symbols_view(symbols@), layout@),
{
    proof { lemma_symbols_view(symbols@); }
    let ghost sv = symbols_view(symbols@);
    let ghost last_index = last_parse_tree_before(sv, sv.len() as int);
    let last = last_parse_tree_index(symbols);
    let mut result: Vec<Symbol> = Vec::new();
    let mut has_prev = false;
    let mut pending: Vec<Identifier> = Vec::new();
    let mut i: usize = 0;
    while i < symbols.len()
        invariant
            0 <= i <= symbols@.len(),
            sv == symbols_view(symbols@),
            sv.len() == symbols@.len(),
            forall|k: int| 0 <= k < symbols@.len() ==> #[trigger] sv[k] == symbols@[k]@,
            last_index == last_parse_tree_before(sv, sv.len() as int),
            match last {
                Some(k) => k == last_index,
                None => last_index == -1,
            },
            symbols_view(result@) == layout_pieces(sv, i as int, layout@),
            has_prev == (last_parse_tree_before(sv, i as int) >= 0),
            has_prev && last_parse_tree_before(sv, i as int) != last_index ==>
                identifiers_view(pending@) == strip_layout_aware(sv[last_parse_tree_before(sv, i as int)]).1,
        decreases symbols@.len() - i,
    {
        let symbol = &symbols[i];
        let ghost before = symbols_view(result@);
        proof {
            lemma_last_parse_tree_bounds(sv, i as int);
        }
        if !symbol.is_parse_tree_symbol() {
            let c = symbol.clone();
            proof { lemma_symbols_view_push(result@, c); }
            result.push(c);
            proof {
                assert(layout_piece(sv, i as int, layout@) =~= seq![sv[i as int]]);
                assert(symbols_view(result@) =~= before + layout_piece(sv, i as int, layout@));
            }
        } else {
            proof {
                lemma_last_parse_tree_at_least(sv, sv.len() as int, i as int);
            }
            let ghost prev = last_parse_tree_before(sv, i as int);
            let ghost layout_part: Seq<SpecSymbol> = if prev >= 0 {
                seq![add_follow(layout@, strip_layout_aware(sv[prev]).1)]
            } else {
                Seq::empty()
            };
            if has_prev {
                let taken = pending;
                pending = Vec::new();
                let l = add_follow_restriction(layout.clone(), taken);
                proof { lemma_symbols_view_push(result@, l); }
                result.push(l);
            }
            assert(symbols_view(result@) =~= before + layout_part);
            let ghost middle = symbols_view(result@);
            let is_last = match last {
                Some(k) => k == i,
                None => false,
            };
            if is_last {
                let c = symbol.clone();
                proof { lemma_symbols_view_push(result@, c); }
                result.push(c);
            } else {
                let (stripped, restrictions) = strip_layout_aware_restrictions(symbol);
                pending = restrictions;
                proof { lemma_symbols_view_push(result@, stripped); }
                result.push(stripped);
            }
            proof {
                assert(layout_piece(sv, i as int, layout@) =~= layout_part + seq![if i as int == last_index { sv[i as int] } else { strip_layout_aware(sv[i as int]).0 }]);
                assert(symbols_view(result@) =~= before + layout_piece(sv, i as int, layout@));
            }
            has_prev = true;
        }
        i += 1;
    }
    result
}

/// The syntax rules after layout insertion; see `layout_rule`. A rule with a
/// custom layout (`@WithLayout`) is not supported.
pub fn transform(syntax_rules: Vec<SyntaxRule>, layout_symbol: Option<&Symbol>) -> (r: Vec<SyntaxRule>)
    requires
        forall|k: int| 0 <= k < syntax_rules@.len() ==> !(#[trigger] syntax_rules@[k].layout is Custom),
    ensures
        syntax_rules_view(r@) == syntax_rules_view(syntax_rules@).map_values(
            |x: SpecSyntaxRule| layout_rule(x, match layout_symbol { Some(l) => Some(l@), None => None }),
        ),
{
    let ghost layout_view: Option<SpecSymbol> = match layout_symbol { Some(l) => Some(l@), None => None };
    let mut out: Vec<SyntaxRule> = Vec::new();
    let mut i: usize = 0;
    while i < syntax_rules.len()
        invariant
            0 <= i <= syntax_rules@.len(),
            layout_view == match layout_symbol { Some(l) => Some(l@), None => None::<SpecSymbol> },
            syntax_rules_view(out@) == syntax_rules_view(syntax_rules@.take(i as int)).map_values(
                |x: SpecSyntaxRule| layout_rule(x, layout_view),
            ),
        decreases syntax_rules@.len() - i,
    {
        let rule = &syntax_rules[i];
        let transformed = match (&rule.layout, layout_symbol) {
            (LayoutStrategy::Default, Some(layout)) => {
                let f = |symbols: &Vec<Symbol>| -> (r: Vec<Symbol>)
                    ensures
                        symbols_view(r@) == with_layout(symbols_view(symbols@), layout@),
                {
                    insert_layout(symbols, layout)
                };
                map_rule_by_symbols(rule, &f, Ghost(|symbols: Seq<SpecSymbol>| with_layout(symbols, layout@)), Ghost(|symbols: Seq<SpecSymbol>| true))
            },
            _ => {
                let f = |symbols: &Vec<Symbol>| -> (r: Vec<Symbol>)
                    ensures
                        symbols_view(r@) == map_each(symbols_view(symbols@), |s: SpecSymbol| layout_aware_to_follow(s)),
                {
                    rewrite_all_layout_aware(symbols)
                };
                map_rule_by_symbols(rule, &f, Ghost(|symbols: Seq<SpecSymbol>| map_each(symbols, |s: SpecSymbol| layout_aware_to_follow(s))), Ghost(|symbols: Seq<SpecSymbol>| true))
            },
        };
        let ghost prev = out@;
        out.push(transformed);
        proof {
            assert(syntax_rules_view(out@) =~= syntax_rules_view(prev).push(layout_rule(rule@, layout_view)));
            assert(syntax_rules_view(syntax_rules@.take(i + 1)).map_values(|x: SpecSyntaxRule| layout_rule(x, layout_view))
                =~= syntax_rules_view(syntax_rules@.take(i as int)).map_values(|x: SpecSyntaxRule| layout_rule(x, layout_view)).push(layout_rule(rule@, layout_view)));
        }
        i += 1;
    }
    assert(syntax_rules@.take(i as int) =~= syntax_rules@);
    out
}

} // verus!
