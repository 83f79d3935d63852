//! Structural equality of grammar values, decided on their views.
use vstd::prelude::*;
use crate::grammar::def::LayoutStrategy;
use crate::grammar::symbols::{
    exprs_view, identifiers_view, lemma_exprs_view, lemma_symbols_view, strings_view,
    symbols_view, BindingPattern, Expr, Identifier, Restrictions, Symbol,
};
use crate::grammar::regex::{lemma_regexes_view, regexes_view, CharRange, Regex};
use crate::text::str_eq;

verus! {

broadcast use vstd::std_specs::vec::axiom_vec_index_decreases;

/// Whether two references are the same name with the same definition.
pub fn identifier_eq(a: &Identifier, b: &Identifier) -> (r: bool)
    ensures
        r == (a@ == b@),
{
    let same_definition = match (a.definition, b.definition) {
        (Some(x), Some(y)) => x.0 == y.0,
        (None, None) => true,
        _ => false,
    };
    same_definition && str_eq(a.name.as_str(), b.name.as_str())
}

/// Whether two lists of references are equal.
pub fn identifiers_eq(a: &Vec<Identifier>, b: &Vec<Identifier>) -> (r: bool)
    ensures
        r == (identifiers_view(a@) == identifiers_view(b@)),
{
    if a.len() != b.len() {
        assert(identifiers_view(a@).len() != identifiers_view(b@).len());
        return false;
    }
    let mut i: usize = 0;
    while i < a.len()
        invariant
            0 <= i <= a@.len(),
            a@.len() == b@.len(),
            forall|k: int| 0 <= k < i ==> identifiers_view(a@)[k] == identifiers_view(b@)[k],
        decreases a@.len() - i,
    {
        if !identifier_eq(&a[i], &b[i]) {
            assert(identifiers_view(a@)[i as int] != identifiers_view(b@)[i as int]);
            return false;
        }
        i += 1;
    }
    assert(identifiers_view(a@) =~= identifiers_view(b@));
    true
}

/// Whether two lists of strings are equal.
pub fn strings_eq(a: &Vec<String>, b: &Vec<String>) -> (r: bool)
    ensures
        r == (strings_view(a@) == strings_view(b@)),
{
    if a.len() != b.len() {
        assert(strings_view(a@).len() != strings_view(b@).len());
        return false;
    }
    let mut i: usize = 0;
    while i < a.len()
        invariant
            0 <= i <= a@.len(),
            a@.len() == b@.len(),
            forall|k: int| 0 <= k < i ==> strings_view(a@)[k] == strings_view(b@)[k],
        decreases a@.len() - i,
    {
        if !str_eq(a[i].as_str(), b[i].as_str()) {
            assert(strings_view(a@)[i as int] != strings_view(b@)[i as int]);
            return false;
        }
        i += 1;
    }
    assert(strings_view(a@) =~= strings_view(b@));
    true
}

/// Whether two optional strings are equal.
pub fn option_string_eq(a: &Option<String>, b: &Option<String>) -> (r: bool)
    ensures
        r == (crate::grammar::def::option_string_view(*a) == crate::grammar::def::option_string_view(*b)),
{
    match (a, b) {
        (Some(x), Some(y)) => str_eq(x.as_str(), y.as_str()),
        (None, None) => true,
        _ => false,
    }
}

/// Whether two expressions are equal.
pub fn expr_eq(a: &Expr, b: &Expr) -> (r: bool)
    ensures
        r == (a@ == b@),
    decreases a, 1int,
{
    match (a, b) {
        (Expr::Int(x), Expr::Int(y)) => *x == *y,
        (Expr::Ref(x), Expr::Ref(y)) => str_eq(x.as_str(), y.as_str()),
        (Expr::DisplayInt { name: n1, value: v1 }, Expr::DisplayInt { name: n2, value: v2 }) =>
            *v1 == *v2 && str_eq(n1.as_str(), n2.as_str()),
        (Expr::Tuple(x), Expr::Tuple(y)) => exprs_eq(x, y),
        (Expr::BitAnd(l1, r1), Expr::BitAnd(l2, r2)) => expr_eq(&**l1, &**l2) && expr_eq(&**r1, &**r2),
        (Expr::Shr(l1, r1), Expr::Shr(l2, r2)) => expr_eq(&**l1, &**l2) && expr_eq(&**r1, &**r2),
        (Expr::Or(l1, r1), Expr::Or(l2, r2)) => expr_eq(&**l1, &**l2) && expr_eq(&**r1, &**r2),
        (Expr::And(l1, r1), Expr::And(l2, r2)) => expr_eq(&**l1, &**l2) && expr_eq(&**r1, &**r2),
        (Expr::Min(l1, r1), Expr::Min(l2, r2)) => expr_eq(&**l1, &**l2) && expr_eq(&**r1, &**r2),
        (Expr::Cond(c1), Expr::Cond(c2)) => c1.op == c2.op && expr_eq(&*c1.left, &*c2.left)
            && expr_eq(&*c1.right, &*c2.right),
        (Expr::Ternary { cond: c1, then: t1, otherwise: o1 }, Expr::Ternary { cond: c2, then: t2, otherwise: o2 }) =>
            expr_eq(&**c1, &**c2) && expr_eq(&**t1, &**t2) && expr_eq(&**o1, &**o2),
        _ => false,
    }
}

/// Whether two lists of expressions are equal.
pub fn exprs_eq(a: &Vec<Expr>, b: &Vec<Expr>) -> (r: bool)
    ensures
        r == (exprs_view(a@) == exprs_view(b@)),
    decreases a, 0int,
{
    proof {
        lemma_exprs_view(a@);
        lemma_exprs_view(b@);
    }
    if a.len() != b.len() {
        return false;
    }
    let mut i: usize = 0;
    while i < a.len()
        invariant
            0 <= i <= a@.len(),
            a@.len() == b@.len(),
            exprs_view(a@).len() == a@.len(),
            exprs_view(b@).len() == b@.len(),
            forall|k: int| 0 <= k < a@.len() ==> #[trigger] exprs_view(a@)[k] == a@[k]@,
            forall|k: int| 0 <= k < b@.len() ==> #[trigger] exprs_view(b@)[k] == b@[k]@,
            forall|k: int| 0 <= k < i ==> exprs_view(a@)[k] == exprs_view(b@)[k],
        decreases a@.len() - i,
    {
        proof {
            assert(decreases_to!(*a => a@[i as int]));
        }
        if !expr_eq(&a[i], &b[i]) {
            assert(exprs_view(a@)[i as int] != exprs_view(b@)[i as int]);
            return false;
        }
        i += 1;
    }
    assert(exprs_view(a@) =~= exprs_view(b@));
    true
}

/// Whether two binding patterns are equal.
pub fn pattern_eq(a: &BindingPattern, b: &BindingPattern) -> (r: bool)
    ensures
        r == (a@ == b@),
{
    match (a, b) {
        (BindingPattern::Name(x), BindingPattern::Name(y)) => str_eq(x.as_str(), y.as_str()),
        (BindingPattern::Tuple(x), BindingPattern::Tuple(y)) => strings_eq(x, y),
        _ => false,
    }
}

/// Whether two restriction sets are equal.
pub fn restrictions_eq(a: &Restrictions, b: &Restrictions) -> (r: bool)
    ensures
        r == (a@ == b@),
{
    identifiers_eq(&a.precede, &b.precede) && identifiers_eq(&a.excepts, &b.excepts)
        && identifiers_eq(&a.follow, &b.follow)
        && identifiers_eq(&a.layout_aware_follow, &b.layout_aware_follow)
}

/// Whether two optional separators are equal.
fn separator_eq(a: &Option<Box<Symbol>>, b: &Option<Box<Symbol>>) -> (r: bool)
    ensures
        r == (match (*a, *b) {
            (Some(x), Some(y)) => x@ == y@,
            (None, None) => true,
            _ => false,
        }),
    decreases a, 2int,
{
    match (a, b) {
        (Some(x), Some(y)) => symbol_eq(&**x, &**y),
        (None, None) => true,
        _ => false,
    }
}

/// Whether two symbols are equal.
pub fn symbol_eq(a: &Symbol, b: &Symbol) -> (r: bool)
    ensures
        r == (a@ == b@),
    decreases a, 1int,
{
    match (a, b) {
        (Symbol::Identifier(x), Symbol::Identifier(y)) => identifier_eq(x, y),
        (Symbol::Literal(x), Symbol::Literal(y)) => str_eq(x.as_str(), y.as_str()),
        (Symbol::Call { name: n1, arguments: a1 }, Symbol::Call { name: n2, arguments: a2 }) =>
            identifier_eq(n1, n2) && exprs_eq(a1, a2),
        (Symbol::Group(x), Symbol::Group(y)) => symbols_eq(x, y),
        (Symbol::Opt(x), Symbol::Opt(y)) => symbol_eq(&**x, &**y),
        (Symbol::Alt(x), Symbol::Alt(y)) => symbols_eq(x, y),
        (Symbol::Star(x, s1), Symbol::Star(y, s2)) => symbol_eq(&**x, &**y) && separator_eq(s1, s2),
        (Symbol::Plus(x, s1), Symbol::Plus(y, s2)) => symbol_eq(&**x, &**y) && separator_eq(s1, s2),
        (Symbol::Labeled { label: l1, symbol: x }, Symbol::Labeled { label: l2, symbol: y }) =>
            str_eq(l1.as_str(), l2.as_str()) && symbol_eq(&**x, &**y),
        (Symbol::Binding { pattern: p1, symbol: x }, Symbol::Binding { pattern: p2, symbol: y }) =>
            pattern_eq(p1, p2) && symbol_eq(&**x, &**y),
        (Symbol::Restricted { symbol: x, restrictions: r1 }, Symbol::Restricted { symbol: y, restrictions: r2 }) =>
            restrictions_eq(r1, r2) && symbol_eq(&**x, &**y),
        (Symbol::Exclude { symbol: x, labels: l1 }, Symbol::Exclude { symbol: y, labels: l2 }) =>
            strings_eq(l1, l2) && symbol_eq(&**x, &**y),
        (Symbol::Condition(x), Symbol::Condition(y)) => expr_eq(x, y),
        (Symbol::Return(x), Symbol::Return(y)) => expr_eq(x, y),
        _ => false,
    }
}

/// Whether two lists of symbols are equal.
pub fn symbols_eq(a: &Vec<Symbol>, b: &Vec<Symbol>) -> (r: bool)
    ensures
        r == (symbols_view(a@) == symbols_view(b@)),
    decreases a, 0int,
{
    proof {
        lemma_symbols_view(a@);
        lemma_symbols_view(b@);
    }
    if a.len() != b.len() {
        return false;
    }
    let mut i: usize = 0;
    while i < a.len()
        invariant
            0 <= i <= a@.len(),
            a@.len() == b@.len(),
            symbols_view(a@).len() == a@.len(),
            symbols_view(b@).len() == b@.len(),
            forall|k: int| 0 <= k < a@.len() ==> #[trigger] symbols_view(a@)[k] == a@[k]@,
            forall|k: int| 0 <= k < b@.len() ==> #[trigger] symbols_view(b@)[k] == b@[k]@,
            forall|k: int| 0 <= k < i ==> symbols_view(a@)[k] == symbols_view(b@)[k],
        decreases a@.len() - i,
    {
        proof {
            assert(decreases_to!(*a => a@[i as int]));
        }
        if !symbol_eq(&a[i], &b[i]) {
            assert(symbols_view(a@)[i as int] != symbols_view(b@)[i as int]);
            return false;
        }
        i += 1;
    }
    assert(symbols_view(a@) =~= symbols_view(b@));
    true
}

/// Whether two layout strategies are equal.
pub fn layout_eq(a: &LayoutStrategy, b: &LayoutStrategy) -> (r: bool)
    ensures
        r == (a@ == b@),
{
    match (a, b) {
        (LayoutStrategy::Default, LayoutStrategy::Default) => true,
        (LayoutStrategy::NoLayout, LayoutStrategy::NoLayout) => true,
        (LayoutStrategy::Custom(x), LayoutStrategy::Custom(y)) => identifier_eq(x, y),
        _ => false,
    }
}

/// Whether two lists of character ranges are equal.
pub fn ranges_eq(a: &Vec<CharRange>, b: &Vec<CharRange>) -> (r: bool)
    ensures
        r == (a@ == b@),
{
    if a.len() != b.len() {
        return false;
    }
    let mut i: usize = 0;
    while i < a.len()
        invariant
            0 <= i <= a@.len(),
            a@.len() == b@.len(),
            forall|k: int| 0 <= k < i ==> a@[k] == b@[k],
        decreases a@.len() - i,
    {
        if a[i].start != b[i].start || a[i].end != b[i].end {
            return false;
        }
        i += 1;
    }
    assert(a@ =~= b@);
    true
}

/// Whether two regexes are equal.
pub fn regex_eq(a: &Regex, b: &Regex) -> (r: bool)
    ensures
        r == (a@ == b@),
    decreases a, 1int,
{
    match (a, b) {
        (Regex::Char(x), Regex::Char(y)) => *x == *y,
        (Regex::CharRange(x), Regex::CharRange(y)) => x.start == y.start && x.end == y.end,
        (Regex::CharClass(x), Regex::CharClass(y)) => x.negated == y.negated && ranges_eq(&x.ranges, &y.ranges),
        (Regex::Sequence(x), Regex::Sequence(y)) => regexes_eq(x, y),
        (Regex::Alt(x), Regex::Alt(y)) => regexes_eq(x, y),
        (Regex::Star(x), Regex::Star(y)) => regex_eq(&**x, &**y),
        (Regex::Plus(x), Regex::Plus(y)) => regex_eq(&**x, &**y),
        (Regex::Opt(x), Regex::Opt(y)) => regex_eq(&**x, &**y),
        (Regex::Epsilon, Regex::Epsilon) => true,
        (Regex::Identifier(x), Regex::Identifier(y)) => identifier_eq(x, y),
        _ => false,
    }
}

/// Whether two lists of regexes are equal.
pub fn regexes_eq(a: &Vec<Regex>, b: &Vec<Regex>) -> (r: bool)
    ensures
        r == (regexes_view(a@) == regexes_view(b@)),
    decreases a, 0int,
{
    proof {
        lemma_regexes_view(a@);
        lemma_regexes_view(b@);
    }
    if a.len() != b.len() {
        return false;
    }
    let mut i: usize = 0;
    while i < a.len()
        invariant
            0 <= i <= a@.len(),
            a@.len() == b@.len(),
            regexes_view(a@).len() == a@.len(),
            regexes_view(b@).len() == b@.len(),
            forall|k: int| 0 <= k < a@.len() ==> #[trigger] regexes_view(a@)[k] == a@[k]@,
            forall|k: int| 0 <= k < b@.len() ==> #[trigger] regexes_view(b@)[k] == b@[k]@,
            forall|k: int| 0 <= k < i ==> regexes_view(a@)[k] == regexes_view(b@)[k],
        decreases a@.len() - i,
    {
        assert(decreases_to!(*a => a@[i as int]));
        if !regex_eq(&a[i], &b[i]) {
            assert(regexes_view(a@)[i as int] != regexes_view(b@)[i as int]);
            return false;
        }
        i += 1;
    }
    assert(regexes_view(a@) =~= regexes_view(b@));
    true
}

} // verus!
