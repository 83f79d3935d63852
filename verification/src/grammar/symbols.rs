//! The symbols of syntax rules: references, literals, EBNF operators,
//! restrictions, and the conditions and returns of data-dependent rules.
//!
//! Each type has a mathematical view (`Spec*`) in which strings are character
//! sequences and vectors are sequences; contracts are stated over the views.
use vstd::prelude::*;
use crate::text::{push_char, push_str, str_eq, string_of};

verus! {

broadcast use vstd::std_specs::vec::axiom_vec_index_decreases;

/// The index of a terminal or nonterminal definition in the symbol table.
#[derive(Debug, Clone, Copy, PartialEq, Eq, Hash, Structural)]
pub struct DefinitionId(pub u16);

/// A reference to a rule by name, with the definition it resolves to.
#[derive(Debug)]
pub struct Identifier {
    pub name: String,
    pub definition: Option<DefinitionId>,
}

/// The type of a nonterminal parameter.
#[derive(Debug, Clone, Copy, PartialEq, Eq, Hash, Structural)]
pub enum ParamType {
    I32,
}

/// A parameter of a data-dependent nonterminal.
#[derive(Debug)]
pub struct Parameter {
    pub name: String,
    pub ty: ParamType,
}

/// A comparison operator of a condition.
#[derive(Debug, Clone, Copy, PartialEq, Eq, Hash, Structural)]
pub enum CondOp {
    Eq,
    Neq,
    Lt,
    Leq,
    Gt,
    Geq,
}

/// An expression of a condition, a call argument or a return value.
#[derive(Debug)]
pub enum Expr {
    Int(i64),
    Ref(String),
    /// An integer shown by a symbolic name.
    DisplayInt { name: String, value: i64 },
    Tuple(Vec<Expr>),
    BitAnd(Box<Expr>, Box<Expr>),
    Shr(Box<Expr>, Box<Expr>),
    Or(Box<Expr>, Box<Expr>),
    And(Box<Expr>, Box<Expr>),
    Min(Box<Expr>, Box<Expr>),
    Cond(Cond),
    Ternary { cond: Box<Expr>, then: Box<Expr>, otherwise: Box<Expr> },
}

/// A comparison of two expressions.
#[derive(Debug)]
pub struct Cond {
    pub left: Box<Expr>,
    pub right: Box<Expr>,
    pub op: CondOp,
}

/// The names a call's return value is bound to.
#[derive(Debug)]
pub enum BindingPattern {
    Name(String),
    Tuple(Vec<String>),
}

/// The restrictions attached to a symbol: precede (`!<<`), except (`\`),
/// follow (`!>>`) and layout-aware follow (`!>>>`) operands.
#[derive(Debug)]
pub struct Restrictions {
    pub precede: Vec<Identifier>,
    pub excepts: Vec<Identifier>,
    pub follow: Vec<Identifier>,
    pub layout_aware_follow: Vec<Identifier>,
}

/// A symbol of an alternative.
#[derive(Debug)]
pub enum Symbol {
    Identifier(Identifier),
    Literal(String),
    Call { name: Identifier, arguments: Vec<Expr> },
    Group(Vec<Symbol>),
    Opt(Box<Symbol>),
    Alt(Vec<Symbol>),
    Star(Box<Symbol>, Option<Box<Symbol>>),
    Plus(Box<Symbol>, Option<Box<Symbol>>),
    Labeled { label: String, symbol: Box<Symbol> },
    Binding { pattern: BindingPattern, symbol: Box<Symbol> },
    Restricted { symbol: Box<Symbol>, restrictions: Restrictions },
    Exclude { symbol: Box<Symbol>, labels: Vec<String> },
    Condition(Expr),
    Return(Expr),
}

/// The head of a syntax rule.
#[derive(Debug)]
pub struct Nonterminal {
    pub name: String,
    /// The EBNF symbol a generated rule was created for.
    pub origin: Option<Symbol>,
    pub parameters: Vec<Parameter>,
}

/// The head of a lexical rule. A terminal created for a string literal
/// records the literal's text.
#[derive(Debug)]
pub struct Terminal {
    pub name: String,
    pub literal: Option<String>,
}

/// A definition in the symbol table.
#[derive(Debug)]
pub enum Definition {
    Terminal(Terminal),
    Nonterminal(Nonterminal),
}

// ---------------------------------------------------------------------------
// Views

pub struct SpecIdentifier {
    pub name: Seq<char>,
    pub definition: Option<DefinitionId>,
}

pub struct SpecParameter {
    pub name: Seq<char>,
    pub ty: ParamType,
}

pub enum SpecExpr {
    Int(i64),
    Ref(Seq<char>),
    DisplayInt { name: Seq<char>, value: i64 },
    Tuple(Seq<SpecExpr>),
    BitAnd(Box<SpecExpr>, Box<SpecExpr>),
    Shr(Box<SpecExpr>, Box<SpecExpr>),
    Or(Box<SpecExpr>, Box<SpecExpr>),
    And(Box<SpecExpr>, Box<SpecExpr>),
    Min(Box<SpecExpr>, Box<SpecExpr>),
    Cond { left: Box<SpecExpr>, right: Box<SpecExpr>, op: CondOp },
    Ternary { cond: Box<SpecExpr>, then: Box<SpecExpr>, otherwise: Box<SpecExpr> },
}

pub enum SpecBindingPattern {
    Name(Seq<char>),
    Tuple(Seq<Seq<char>>),
}

pub struct SpecRestrictions {
    pub precede: Seq<SpecIdentifier>,
    pub excepts: Seq<SpecIdentifier>,
    pub follow: Seq<SpecIdentifier>,
    pub layout_aware_follow: Seq<SpecIdentifier>,
}

pub enum SpecSymbol {
    Identifier(SpecIdentifier),
    Literal(Seq<char>),
    Call { name: SpecIdentifier, arguments: Seq<SpecExpr> },
    Group(Seq<SpecSymbol>),
    Opt(Box<SpecSymbol>),
    Alt(Seq<SpecSymbol>),
    Star(Box<SpecSymbol>, Option<Box<SpecSymbol>>),
    Plus(Box<SpecSymbol>, Option<Box<SpecSymbol>>),
    Labeled { label: Seq<char>, symbol: Box<SpecSymbol> },
    Binding { pattern: SpecBindingPattern, symbol: Box<SpecSymbol> },
    Restricted { symbol: Box<SpecSymbol>, restrictions: SpecRestrictions },
    Exclude { symbol: Box<SpecSymbol>, labels: Seq<Seq<char>> },
    Condition(SpecExpr),
    Return(SpecExpr),
}

pub struct SpecNonterminal {
    pub name: Seq<char>,
    pub origin: Option<SpecSymbol>,
    pub parameters: Seq<SpecParameter>,
}

pub struct SpecTerminal {
    pub name: Seq<char>,
    pub literal: Option<Seq<char>>,
}

pub enum SpecDefinition {
    Terminal(SpecTerminal),
    Nonterminal(SpecNonterminal),
}

impl View for Identifier {
    type V = SpecIdentifier;

    open spec fn view(&self) -> SpecIdentifier {
        SpecIdentifier { name: self.name@, definition: self.definition }
    }
}

impl View for Parameter {
    type V = SpecParameter;

    open spec fn view(&self) -> SpecParameter {
        SpecParameter { name: self.name@, ty: self.ty }
    }
}

/// The views of a sequence of identifiers.
pub open spec fn identifiers_view(ids: Seq<Identifier>) -> Seq<SpecIdentifier> {
    ids.map_values(|id: Identifier| id@)
}

/// The views of a sequence of strings.
pub open spec fn strings_view(strings: Seq<String>) -> Seq<Seq<char>> {
    strings.map_values(|s: String| s@)
}

/// The view of an expression.
pub open spec fn expr_view(e: Expr) -> SpecExpr
    decreases e, 1int,
{
    match e {
        Expr::Int(n) => SpecExpr::Int(n),
        Expr::Ref(name) => SpecExpr::Ref(name@),
        Expr::DisplayInt { name, value } => SpecExpr::DisplayInt { name: name@, value },
        Expr::Tuple(items) => SpecExpr::Tuple(exprs_view(items@)),
        Expr::BitAnd(l, r) => SpecExpr::BitAnd(Box::new(expr_view(*l)), Box::new(expr_view(*r))),
        Expr::Shr(l, r) => SpecExpr::Shr(Box::new(expr_view(*l)), Box::new(expr_view(*r))),
        Expr::Or(l, r) => SpecExpr::Or(Box::new(expr_view(*l)), Box::new(expr_view(*r))),
        Expr::And(l, r) => SpecExpr::And(Box::new(expr_view(*l)), Box::new(expr_view(*r))),
        Expr::Min(l, r) => SpecExpr::Min(Box::new(expr_view(*l)), Box::new(expr_view(*r))),
        Expr::Cond(c) => SpecExpr::Cond {
            left: Box::new(expr_view(*c.left)),
            right: Box::new(expr_view(*c.right)),
            op: c.op,
        },
        Expr::Ternary { cond, then, otherwise } => SpecExpr::Ternary {
            cond: Box::new(expr_view(*cond)),
            then: Box::new(expr_view(*then)),
            otherwise: Box::new(expr_view(*otherwise)),
        },
    }
}

/// The views of a sequence of expressions.
pub open spec fn exprs_view(items: Seq<Expr>) -> Seq<SpecExpr>
    decreases items, 0int,
{
    if items.len() == 0 {
        Seq::empty()
    } else {
        exprs_view(items.drop_last()).push(expr_view(items.last()))
    }
}

impl View for Expr {
    type V = SpecExpr;

    open spec fn view(&self) -> SpecExpr {
        expr_view(*self)
    }
}

impl View for BindingPattern {
    type V = SpecBindingPattern;

    open spec fn view(&self) -> SpecBindingPattern {
        match self {
            BindingPattern::Name(name) => SpecBindingPattern::Name(name@),
            BindingPattern::Tuple(names) => SpecBindingPattern::Tuple(strings_view(names@)),
        }
    }
}

impl View for Restrictions {
    type V = SpecRestrictions;

    open spec fn view(&self) -> SpecRestrictions {
        SpecRestrictions {
            precede: identifiers_view(self.precede@),
            excepts: identifiers_view(self.excepts@),
            follow: identifiers_view(self.follow@),
            layout_aware_follow: identifiers_view(self.layout_aware_follow@),
        }
    }
}

/// The view of a symbol.
pub open spec fn symbol_view(s: Symbol) -> SpecSymbol
    decreases s, 1int,
{
    match s {
        Symbol::Identifier(id) => SpecSymbol::Identifier(id@),
        Symbol::Literal(text) => SpecSymbol::Literal(text@),
        Symbol::Call { name, arguments } => SpecSymbol::Call {
            name: name@,
            arguments: exprs_view(arguments@),
        },
        Symbol::Group(symbols) => SpecSymbol::Group(symbols_view(symbols@)),
        Symbol::Opt(inner) => SpecSymbol::Opt(Box::new(symbol_view(*inner))),
        Symbol::Alt(symbols) => SpecSymbol::Alt(symbols_view(symbols@)),
        Symbol::Star(inner, sep) => SpecSymbol::Star(
            Box::new(symbol_view(*inner)),
            match sep {
                Some(sep) => Some(Box::new(symbol_view(*sep))),
                None => None,
            },
        ),
        Symbol::Plus(inner, sep) => SpecSymbol::Plus(
            Box::new(symbol_view(*inner)),
            match sep {
                Some(sep) => Some(Box::new(symbol_view(*sep))),
                None => None,
            },
        ),
        Symbol::Labeled { label, symbol } => SpecSymbol::Labeled {
            label: label@,
            symbol: Box::new(symbol_view(*symbol)),
        },
        Symbol::Binding { pattern, symbol } => SpecSymbol::Binding {
            pattern: pattern@,
            symbol: Box::new(symbol_view(*symbol)),
        },
        Symbol::Restricted { symbol, restrictions } => SpecSymbol::Restricted {
            symbol: Box::new(symbol_view(*symbol)),
            restrictions: restrictions@,
        },
        Symbol::Exclude { symbol, labels } => SpecSymbol::Exclude {
            symbol: Box::new(symbol_view(*symbol)),
            labels: strings_view(labels@),
        },
        Symbol::Condition(e) => SpecSymbol::Condition(e@),
        Symbol::Return(e) => SpecSymbol::Return(e@),
    }
}

/// The views of a sequence of symbols.
pub open spec fn symbols_view(symbols: Seq<Symbol>) -> Seq<SpecSymbol>
    decreases symbols, 0int,
{
    if symbols.len() == 0 {
        Seq::empty()
    } else {
        symbols_view(symbols.drop_last()).push(symbol_view(symbols.last()))
    }
}

impl View for Symbol {
    type V = SpecSymbol;

    open spec fn view(&self) -> SpecSymbol {
        symbol_view(*self)
    }
}

impl View for Nonterminal {
    type V = SpecNonterminal;

    open spec fn view(&self) -> SpecNonterminal {
        SpecNonterminal {
            name: self.name@,
            origin: match self.origin {
                Some(s) => Some(s@),
                None => None,
            },
            parameters: self.parameters@.map_values(|p: Parameter| p@),
        }
    }
}

impl View for Terminal {
    type V = SpecTerminal;

    open spec fn view(&self) -> SpecTerminal {
        SpecTerminal {
            name: self.name@,
            literal: match self.literal {
                Some(s) => Some(s@),
                None => None,
            },
        }
    }
}

impl View for Definition {
    type V = SpecDefinition;

    open spec fn view(&self) -> SpecDefinition {
        match self {
            Definition::Terminal(t) => SpecDefinition::Terminal(t@),
            Definition::Nonterminal(n) => SpecDefinition::Nonterminal(n@),
        }
    }
}

/// Indexing into the views of a sequence of expressions.
pub proof fn lemma_exprs_view(items: Seq<Expr>)
    ensures
        exprs_view(items).len() == items.len(),
        forall|i: int| 0 <= i < items.len() ==> #[trigger] exprs_view(items)[i] == expr_view(items[i]),
    decreases items.len(),
{
    if items.len() > 0 {
        lemma_exprs_view(items.drop_last());
    }
}

/// The list of the single expression `e`.
pub fn one_expr(e: Expr) -> (r: Vec<Expr>)
    ensures
        exprs_view(r@) == seq![e@],
{
    let mut r: Vec<Expr> = Vec::new();
    let ghost v = e@;
    proof { lemma_exprs_view_push(r@, e); }
    r.push(e);
    assert(exprs_view(Seq::<Expr>::empty()) =~= Seq::<SpecExpr>::empty());
    assert(exprs_view(r@) =~= seq![v]);
    r
}

/// The views of a sequence with one more expression.
pub proof fn lemma_exprs_view_push(items: Seq<Expr>, e: Expr)
    ensures
        exprs_view(items.push(e)) == exprs_view(items).push(e@),
{
    assert(items.push(e).drop_last() =~= items);
}

/// The views of a sequence with one more symbol.
pub proof fn lemma_symbols_view_push(symbols: Seq<Symbol>, s: Symbol)
    ensures
        symbols_view(symbols.push(s)) == symbols_view(symbols).push(s@),
{
    assert(symbols.push(s).drop_last() =~= symbols);
}

/// Indexing into the views of a sequence of symbols.
pub proof fn lemma_symbols_view(symbols: Seq<Symbol>)
    ensures
        symbols_view(symbols).len() == symbols.len(),
        forall|i: int| 0 <= i < symbols.len() ==> #[trigger] symbols_view(symbols)[i] == symbol_view(symbols[i]),
    decreases symbols.len(),
{
    if symbols.len() > 0 {
        lemma_symbols_view(symbols.drop_last());
    }
}


impl Clone for Identifier {
    fn clone(&self) -> (r: Self)
        ensures
            r@ == self@,
    {
        Identifier { name: self.name.clone(), definition: self.definition }
    }
}

impl Clone for Expr {
    fn clone(&self) -> (r: Self)
        ensures
            r@ == self@,
        decreases self, 1int,
    {
        match self {
            Expr::Int(n) => Expr::Int(*n),
            Expr::Ref(name) => Expr::Ref(name.clone()),
            Expr::DisplayInt { name, value } => Expr::DisplayInt { name: name.clone(), value: *value },
            Expr::Tuple(items) => Expr::Tuple(clone_exprs(items)),
            Expr::BitAnd(l, r) => Expr::BitAnd(Box::new((**l).clone()), Box::new((**r).clone())),
            Expr::Shr(l, r) => Expr::Shr(Box::new((**l).clone()), Box::new((**r).clone())),
            Expr::Or(l, r) => Expr::Or(Box::new((**l).clone()), Box::new((**r).clone())),
            Expr::And(l, r) => Expr::And(Box::new((**l).clone()), Box::new((**r).clone())),
            Expr::Min(l, r) => Expr::Min(Box::new((**l).clone()), Box::new((**r).clone())),
            Expr::Cond(c) => Expr::Cond(Cond {
                left: Box::new((*c.left).clone()),
                right: Box::new((*c.right).clone()),
                op: c.op,
            }),
            Expr::Ternary { cond, then, otherwise } => Expr::Ternary {
                cond: Box::new((**cond).clone()),
                then: Box::new((**then).clone()),
                otherwise: Box::new((**otherwise).clone()),
            },
        }
    }
}


/// A copy of a list of identifiers.
pub fn clone_identifiers(ids: &Vec<Identifier>) -> (r: Vec<Identifier>)
    ensures
        identifiers_view(r@) == identifiers_view(ids@),
{
    let mut out: Vec<Identifier> = Vec::new();
    let mut i: usize = 0;
    while i < ids.len()
        invariant
            0 <= i <= ids@.len(),
            out@.len() == i,
            forall|j: int| 0 <= j < i ==> (#[trigger] out@[j])@ == ids@[j]@,
        decreases ids@.len() - i,
    {
        out.push(ids[i].clone());
        i += 1;
    }
    assert(identifiers_view(out@) =~= identifiers_view(ids@));
    out
}

/// Whether one of `strings` is `s`.
pub fn strings_contain(strings: &Vec<String>, s: &str) -> (b: bool)
    ensures
        b == strings_view(strings@).contains(s@),
{
    let ghost v = strings_view(strings@);
    let mut k: usize = 0;
    while k < strings.len()
        invariant
            0 <= k <= strings@.len(),
            v == strings_view(strings@),
            forall|j: int| 0 <= j < k ==> v[j] != s@,
        decreases strings@.len() - k,
    {
        if str_eq(strings[k].as_str(), s) {
            assert(v[k as int] == s@);
            return true;
        }
        k += 1;
    }
    false
}

/// A copy of a list of strings.
pub fn clone_strings(strings: &Vec<String>) -> (r: Vec<String>)
    ensures
        strings_view(r@) == strings_view(strings@),
{
    let mut out: Vec<String> = Vec::new();
    let mut i: usize = 0;
    while i < strings.len()
        invariant
            0 <= i <= strings@.len(),
            out@.len() == i,
            forall|j: int| 0 <= j < i ==> (#[trigger] out@[j])@ == strings@[j]@,
        decreases strings@.len() - i,
    {
        out.push(strings[i].clone());
        i += 1;
    }
    assert(strings_view(out@) =~= strings_view(strings@));
    out
}

impl Clone for Parameter {
    fn clone(&self) -> (r: Self)
        ensures
            r@ == self@,
    {
        Parameter { name: self.name.clone(), ty: self.ty }
    }
}

/// A copy of a list of parameters.
pub fn clone_parameters(params: &Vec<Parameter>) -> (r: Vec<Parameter>)
    ensures
        r@.map_values(|p: Parameter| p@) == params@.map_values(|p: Parameter| p@),
{
    let mut out: Vec<Parameter> = Vec::new();
    let mut i: usize = 0;
    while i < params.len()
        invariant
            0 <= i <= params@.len(),
            out@.len() == i,
            forall|j: int| 0 <= j < i ==> (#[trigger] out@[j])@ == params@[j]@,
        decreases params@.len() - i,
    {
        out.push(params[i].clone());
        i += 1;
    }
    assert(out@.map_values(|p: Parameter| p@) =~= params@.map_values(|p: Parameter| p@));
    out
}

impl Clone for BindingPattern {
    fn clone(&self) -> (r: Self)
        ensures
            r@ == self@,
    {
        match self {
            BindingPattern::Name(name) => BindingPattern::Name(name.clone()),
            BindingPattern::Tuple(names) => BindingPattern::Tuple(clone_strings(names)),
        }
    }
}

impl Clone for Restrictions {
    fn clone(&self) -> (r: Self)
        ensures
            r@ == self@,
    {
        Restrictions {
            precede: clone_identifiers(&self.precede),
            excepts: clone_identifiers(&self.excepts),
            follow: clone_identifiers(&self.follow),
            layout_aware_follow: clone_identifiers(&self.layout_aware_follow),
        }
    }
}

/// A copy of a list of expressions.
pub fn clone_exprs(items: &Vec<Expr>) -> (r: Vec<Expr>)
    ensures
        exprs_view(r@) == exprs_view(items@),
    decreases items, 0int,
{
    let mut out: Vec<Expr> = Vec::new();
    let mut i: usize = 0;
    while i < items.len()
        invariant
            0 <= i <= items@.len(),
            exprs_view(out@) == exprs_view(items@.take(i as int)),
        decreases items@.len() - i,
    {
        proof {
            assert(decreases_to!(*items => items@[i as int]));
        }
        let e = items[i].clone();
        let ghost prev = out@;
        out.push(e);
        proof {
            assert(out@.drop_last() =~= prev);
            assert(items@.take(i + 1).drop_last() =~= items@.take(i as int));
        }
        i += 1;
    }
    assert(items@.take(items@.len() as int) =~= items@);
    out
}

/// A copy of a list of symbols.
pub fn clone_symbols(items: &Vec<Symbol>) -> (r: Vec<Symbol>)
    ensures
        symbols_view(r@) == symbols_view(items@),
    decreases items, 0int,
{
    let mut out: Vec<Symbol> = Vec::new();
    let mut i: usize = 0;
    while i < items.len()
        invariant
            0 <= i <= items@.len(),
            symbols_view(out@) == symbols_view(items@.take(i as int)),
        decreases items@.len() - i,
    {
        proof {
            assert(decreases_to!(*items => items@[i as int]));
        }
        let e = items[i].clone();
        let ghost prev = out@;
        out.push(e);
        proof {
            assert(out@.drop_last() =~= prev);
            assert(items@.take(i + 1).drop_last() =~= items@.take(i as int));
        }
        i += 1;
    }
    assert(items@.take(items@.len() as int) =~= items@);
    out
}

impl Clone for Symbol {
    fn clone(&self) -> (r: Self)
        ensures
            r@ == self@,
        decreases self, 1int,
    {
        match self {
            Symbol::Identifier(id) => Symbol::Identifier(id.clone()),
            Symbol::Literal(text) => Symbol::Literal(text.clone()),
            Symbol::Call { name, arguments } => Symbol::Call {
                name: name.clone(),
                arguments: clone_exprs(arguments),
            },
            Symbol::Group(symbols) => Symbol::Group(clone_symbols(symbols)),
            Symbol::Opt(inner) => Symbol::Opt(Box::new((**inner).clone())),
            Symbol::Alt(symbols) => Symbol::Alt(clone_symbols(symbols)),
            Symbol::Star(inner, sep) => Symbol::Star(
                Box::new((**inner).clone()),
                match sep {
                    Some(sep) => Some(Box::new((**sep).clone())),
                    None => None,
                },
            ),
            Symbol::Plus(inner, sep) => Symbol::Plus(
                Box::new((**inner).clone()),
                match sep {
                    Some(sep) => Some(Box::new((**sep).clone())),
                    None => None,
                },
            ),
            Symbol::Labeled { label, symbol } => Symbol::Labeled {
                label: label.clone(),
                symbol: Box::new((**symbol).clone()),
            },
            Symbol::Binding { pattern, symbol } => Symbol::Binding {
                pattern: pattern.clone(),
                symbol: Box::new((**symbol).clone()),
            },
            Symbol::Restricted { symbol, restrictions } => Symbol::Restricted {
                symbol: Box::new((**symbol).clone()),
                restrictions: restrictions.clone(),
            },
            Symbol::Exclude { symbol, labels } => Symbol::Exclude {
                symbol: Box::new((**symbol).clone()),
                labels: clone_strings(labels),
            },
            Symbol::Condition(e) => Symbol::Condition(e.clone()),
            Symbol::Return(e) => Symbol::Return(e.clone()),
        }
    }
}

impl Clone for Nonterminal {
    fn clone(&self) -> (r: Self)
        ensures
            r@ == self@,
    {
        Nonterminal {
            name: self.name.clone(),
            origin: match &self.origin {
                Some(s) => Some(s.clone()),
                None => None,
            },
            parameters: clone_parameters(&self.parameters),
        }
    }
}

impl Clone for Terminal {
    fn clone(&self) -> (r: Self)
        ensures
            r@ == self@,
    {
        Terminal {
            name: self.name.clone(),
            literal: match &self.literal {
                Some(s) => Some(s.clone()),
                None => None,
            },
        }
    }
}

impl Clone for Definition {
    fn clone(&self) -> (r: Self)
        ensures
            r@ == self@,
    {
        match self {
            Definition::Terminal(t) => Definition::Terminal(t.clone()),
            Definition::Nonterminal(n) => Definition::Nonterminal(n.clone()),
        }
    }
}


// ---------------------------------------------------------------------------
// Queries and constructors

/// The identifier a symbol refers to, seen through labels, bindings,
/// restrictions and exclusions; a call refers to its callee.
pub open spec fn spec_as_identifier(s: SpecSymbol) -> Option<SpecIdentifier>
    decreases s,
{
    match s {
        SpecSymbol::Identifier(id) => Some(id),
        SpecSymbol::Call { name, .. } => Some(name),
        SpecSymbol::Labeled { symbol, .. } => spec_as_identifier(*symbol),
        SpecSymbol::Binding { symbol, .. } => spec_as_identifier(*symbol),
        SpecSymbol::Restricted { symbol, .. } => spec_as_identifier(*symbol),
        SpecSymbol::Exclude { symbol, .. } => spec_as_identifier(*symbol),
        _ => None,
    }
}

/// The first argument of the call a symbol makes, seen through the same
/// wrappers as `spec_as_identifier`.
pub open spec fn spec_first_call_argument(s: SpecSymbol) -> Option<SpecExpr>
    decreases s,
{
    match s {
        SpecSymbol::Call { arguments, .. } => if arguments.len() > 0 {
            Some(arguments[0])
        } else {
            None
        },
        SpecSymbol::Labeled { symbol, .. } => spec_first_call_argument(*symbol),
        SpecSymbol::Binding { symbol, .. } => spec_first_call_argument(*symbol),
        SpecSymbol::Restricted { symbol, .. } => spec_first_call_argument(*symbol),
        SpecSymbol::Exclude { symbol, .. } => spec_first_call_argument(*symbol),
        _ => None,
    }
}

/// Whether a set of restrictions has no operand.
pub open spec fn spec_restrictions_empty(r: SpecRestrictions) -> bool {
    r.precede.len() == 0 && r.excepts.len() == 0 && r.follow.len() == 0
        && r.layout_aware_follow.len() == 0
}

/// `symbol` with `restrictions` attached; a symbol without restrictions stays bare.
pub open spec fn spec_restricted(symbol: SpecSymbol, restrictions: SpecRestrictions) -> SpecSymbol {
    if spec_restrictions_empty(restrictions) {
        symbol
    } else {
        SpecSymbol::Restricted { symbol: Box::new(symbol), restrictions }
    }
}

/// Symbols that derive input: everything but conditions and returns.
pub open spec fn spec_is_parse_tree_symbol(s: SpecSymbol) -> bool {
    !(s is Condition || s is Return)
}

/// The restrictions without any operand.
pub open spec fn spec_no_restrictions() -> SpecRestrictions {
    SpecRestrictions {
        precede: Seq::empty(),
        excepts: Seq::empty(),
        follow: Seq::empty(),
        layout_aware_follow: Seq::empty(),
    }
}

impl Identifier {
    /// An unresolved reference to `name`.
    pub fn new(name: &str) -> (id: Identifier)
        ensures
            id@ == (SpecIdentifier { name: name@, definition: None }),
    {
        Identifier { name: string_of(name), definition: None }
    }

    /// The definition this reference resolved to.
    pub fn resolve(&self) -> (d: DefinitionId)
        requires
            self.definition is Some,
        ensures
            self.definition == Some(d),
    {
        self.definition.unwrap()
    }
}

impl Restrictions {
    /// Restrictions without any operand.
    pub fn new() -> (r: Restrictions)
        ensures
            r@ == spec_no_restrictions(),
    {
        let r = Restrictions {
            precede: Vec::new(),
            excepts: Vec::new(),
            follow: Vec::new(),
            layout_aware_follow: Vec::new(),
        };
        assert(r@.precede =~= Seq::<SpecIdentifier>::empty());
        assert(r@.excepts =~= Seq::<SpecIdentifier>::empty());
        assert(r@.follow =~= Seq::<SpecIdentifier>::empty());
        assert(r@.layout_aware_follow =~= Seq::<SpecIdentifier>::empty());
        r
    }

    /// Whether no operand is attached.
    pub fn is_empty(&self) -> (b: bool)
        ensures
            b == spec_restrictions_empty(self@),
    {
        self.precede.len() == 0 && self.excepts.len() == 0 && self.follow.len() == 0
            && self.layout_aware_follow.len() == 0
    }

    /// Every operand, in the order precede, except, follow, layout-aware follow.
    pub fn ids(&self) -> (ids: Vec<Identifier>)
        ensures
            identifiers_view(ids@) == self@.precede + self@.excepts + self@.follow
                + self@.layout_aware_follow,
    {
        let mut out: Vec<Identifier> = Vec::new();
        extend_identifiers(&mut out, &self.precede);
        extend_identifiers(&mut out, &self.excepts);
        extend_identifiers(&mut out, &self.follow);
        extend_identifiers(&mut out, &self.layout_aware_follow);
        assert(identifiers_view(Seq::<Identifier>::empty()) =~= Seq::<SpecIdentifier>::empty());
        out
    }
}

/// Appends copies of `src` to `out`.
pub fn extend_identifiers(out: &mut Vec<Identifier>, src: &Vec<Identifier>)
    ensures
        identifiers_view(final(out)@) == identifiers_view(old(out)@) + identifiers_view(src@),
{
    let ghost start = identifiers_view(out@);
    let mut i: usize = 0;
    while i < src.len()
        invariant
            0 <= i <= src@.len(),
            identifiers_view(out@) =~= start + identifiers_view(src@.take(i as int)),
        decreases src@.len() - i,
    {
        let ghost prev = out@;
        out.push(src[i].clone());
        assert(identifiers_view(out@) =~= identifiers_view(prev).push(src@[i as int]@));
        assert(identifiers_view(src@.take(i + 1)) =~= identifiers_view(src@.take(i as int)).push(src@[i as int]@));
        i += 1;
    }
    assert(src@.take(i as int) =~= src@);
}

impl Symbol {
    /// The identifier this symbol refers to; see `spec_as_identifier`.
    pub fn as_identifier(&self) -> (r: Option<&Identifier>)
        ensures
            match r {
                Some(id) => spec_as_identifier(self@) == Some(id@),
                None => spec_as_identifier(self@) is None,
            },
        decreases self,
    {
        match self {
            Symbol::Identifier(id) => Some(id),
            Symbol::Call { name, .. } => Some(name),
            Symbol::Labeled { symbol, .. } => symbol.as_identifier(),
            Symbol::Binding { symbol, .. } => symbol.as_identifier(),
            Symbol::Restricted { symbol, .. } => symbol.as_identifier(),
            Symbol::Exclude { symbol, .. } => symbol.as_identifier(),
            _ => None,
        }
    }

    /// The first argument of the call this symbol makes; see `spec_first_call_argument`.
    pub fn first_call_argument(&self) -> (r: Option<&Expr>)
        ensures
            match r {
                Some(e) => spec_first_call_argument(self@) == Some(e@),
                None => spec_first_call_argument(self@) is None,
            },
        decreases self,
    {
        match self {
            Symbol::Call { arguments, .. } => {
                if arguments.len() > 0 {
                    proof { lemma_exprs_view(arguments@); }
                    Some(&arguments[0])
                } else {
                    proof { lemma_exprs_view(arguments@); }
                    None
                }
            },
            Symbol::Labeled { symbol, .. } => symbol.first_call_argument(),
            Symbol::Binding { symbol, .. } => symbol.first_call_argument(),
            Symbol::Restricted { symbol, .. } => symbol.first_call_argument(),
            Symbol::Exclude { symbol, .. } => symbol.first_call_argument(),
            _ => None,
        }
    }

    /// `symbol` with `restrictions` attached; see `spec_restricted`.
    pub fn restricted(symbol: Symbol, restrictions: Restrictions) -> (r: Symbol)
        ensures
            r@ == spec_restricted(symbol@, restrictions@),
    {
        if restrictions.is_empty() {
            symbol
        } else {
            Symbol::Restricted { symbol: Box::new(symbol), restrictions }
        }
    }

    /// The restrictions of a restricted symbol.
    pub fn restrictions(&self) -> (r: &Restrictions)
        requires
            self is Restricted,
        ensures
            self@ matches SpecSymbol::Restricted { restrictions, .. } && restrictions == r@,
    {
        match self {
            Symbol::Restricted { restrictions, .. } => restrictions,
            _ => vstd::pervasive::unreached(),
        }
    }

    /// Whether this symbol derives input, that is, it is neither a condition nor a return.
    pub fn is_parse_tree_symbol(&self) -> (b: bool)
        ensures
            b == spec_is_parse_tree_symbol(self@),
    {
        !matches!(self, Symbol::Condition(_) | Symbol::Return(_))
    }

    /// A reference to `name`.
    pub fn identifier(name: &str) -> (s: Symbol)
        ensures
            s@ == SpecSymbol::Identifier(SpecIdentifier { name: name@, definition: None }),
    {
        Symbol::Identifier(Identifier::new(name))
    }
}

impl Terminal {
    /// The terminal of a lexical rule named `name`.
    pub fn new(name: &str) -> (t: Terminal)
        ensures
            t@ == (SpecTerminal { name: name@, literal: None }),
    {
        Terminal { name: string_of(name), literal: None }
    }

    /// The terminal of the string literal `text`, named by the quoted text.
    pub fn literal(text: &str) -> (t: Terminal)
        ensures
            t@ == (SpecTerminal { name: seq!['"'] + text@ + seq!['"'], literal: Some(text@) }),
    {
        let mut name = String::new();
        push_char(&mut name, '"');
        push_str(&mut name, text);
        push_char(&mut name, '"');
        assert(name@ =~= seq!['"'] + text@ + seq!['"']);
        Terminal { name, literal: Some(string_of(text)) }
    }
}

impl Nonterminal {
    /// The nonterminal of a syntax rule named `name`, without parameters.
    pub fn new(name: &str) -> (n: Nonterminal)
        ensures
            n@ == (SpecNonterminal { name: name@, origin: None, parameters: Seq::empty() }),
    {
        let n = Nonterminal { name: string_of(name), origin: None, parameters: Vec::new() };
        assert(n@.parameters =~= Seq::<SpecParameter>::empty());
        n
    }

    /// The nonterminal of a rule generated for the EBNF symbol `origin`.
    pub fn with_origin(name: &str, origin: Symbol) -> (n: Nonterminal)
        ensures
            n@ == (SpecNonterminal { name: name@, origin: Some(origin@), parameters: Seq::empty() }),
    {
        let n = Nonterminal { name: string_of(name), origin: Some(origin), parameters: Vec::new() };
        assert(n@.parameters =~= Seq::<SpecParameter>::empty());
        n
    }

    /// The nonterminal named `name` with the given parameters.
    pub fn with_params(name: &str, parameters: Vec<Parameter>) -> (n: Nonterminal)
        ensures
            n@ == (SpecNonterminal {
                name: name@,
                origin: None,
                parameters: parameters@.map_values(|p: Parameter| p@),
            }),
    {
        Nonterminal { name: string_of(name), origin: None, parameters }
    }
}

} // verus!
