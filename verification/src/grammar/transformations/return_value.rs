//! Scalar and tuple returns constructed by precedence and exclusion desugaring.
//!
//! Precedence comes first, followed by associativity and the exclusion label
//! when needed. Each rule returns the same components from all its
//! alternatives.
use vstd::prelude::*;
use crate::grammar::symbols::{
    lemma_exprs_view_push, exprs_view, strings_view, BindingPattern, Expr, SpecBindingPattern, SpecExpr, SpecSymbol,
    Symbol, symbols_view,
};
use crate::text::{push_str, str_eq, string_of};

verus! {

/// The components a precedence rule returns after its precedence value.
#[derive(Debug, Clone, Copy, PartialEq, Eq, Structural)]
pub struct ReturnShape {
    pub associativity: bool,
    pub label: bool,
}

impl Default for ReturnShape {
    fn default() -> (s: ReturnShape)
        ensures
            s == (ReturnShape { associativity: false, label: false }),
    {
        ReturnShape { associativity: false, label: false }
    }
}

/// The view of the value returned when no exclusion label applies.
pub open spec fn no_label_view() -> SpecExpr {
    SpecExpr::DisplayInt { name: "NO_LABEL"@, value: 31 }
}

/// The view of the precedence returned when an indirect recursive end is absent.
pub open spec fn undefined_precedence_view() -> SpecExpr {
    SpecExpr::DisplayInt { name: "UNDEFINED_PRECEDENCE"@, value: -1i64 }
}

/// The label component: the label's index, or `NO_LABEL`.
pub open spec fn label_expr(label: Option<usize>) -> SpecExpr {
    match label {
        Some(l) => SpecExpr::Int(l as i64),
        None => no_label_view(),
    }
}

/// The returned components: precedence, then associativity and label when
/// the shape has them.
pub open spec fn shape_values(shape: ReturnShape, precedence: SpecExpr, associativity: SpecExpr, label: Option<usize>) -> Seq<SpecExpr> {
    seq![precedence]
        + (if shape.associativity { seq![associativity] } else { Seq::empty() })
        + (if shape.label { seq![label_expr(label)] } else { Seq::empty() })
}

/// A single component stands alone; several form a tuple.
pub open spec fn single_or_tuple(values: Seq<SpecExpr>) -> SpecExpr {
    if values.len() == 1 {
        values[0]
    } else {
        SpecExpr::Tuple(values)
    }
}

/// The names a shape binds under `prefix`: `prefix_pr`, then `prefix_assoc`
/// and `prefix_label` when the shape has them.
pub open spec fn shape_names(shape: ReturnShape, prefix: Seq<char>) -> Seq<Seq<char>> {
    seq![prefix + "_pr"@]
        + (if shape.associativity { seq![prefix + "_assoc"@] } else { Seq::empty() })
        + (if shape.label { seq![prefix + "_label"@] } else { Seq::empty() })
}

/// A single name binds alone; several form a tuple pattern.
pub open spec fn name_or_tuple(names: Seq<Seq<char>>) -> SpecBindingPattern {
    if names.len() == 1 {
        SpecBindingPattern::Name(names[0])
    } else {
        SpecBindingPattern::Tuple(names)
    }
}

/// The exclusion label recorded by a trailing `return (_, label)`: `Some`
/// of a labeled alternative's index, `None` for `NO_LABEL`, and no return to
/// take (the outer `None`) otherwise.
pub open spec fn exclusion_return(symbols: Seq<SpecSymbol>) -> Option<Option<usize>> {
    if symbols.len() == 0 {
        None
    } else {
        match symbols.last() {
            SpecSymbol::Return(SpecExpr::Tuple(values)) => if values.len() != 2 {
                None
            } else {
                match values[1] {
                    SpecExpr::Int(l) => Some(Some(l as usize)),
                    other => if other == no_label_view() { Some(None) } else { None },
                }
            },
            _ => None,
        }
    }
}

/// Taking the exclusion return that `with_label` built gives back its label,
/// for every label index that fits the expression's integers.
pub proof fn exclusion_return_round_trip(symbols: Seq<SpecSymbol>, precedence: SpecExpr, label: Option<usize>)
    requires
        label matches Some(l) ==> l <= i64::MAX,
    ensures
        exclusion_return(symbols.push(SpecSymbol::Return(SpecExpr::Tuple(seq![precedence, label_expr(label)]))))
            == Some(label),
{
    let s = symbols.push(SpecSymbol::Return(SpecExpr::Tuple(seq![precedence, label_expr(label)])));
    assert(s.last() == SpecSymbol::Return(SpecExpr::Tuple(seq![precedence, label_expr(label)])));
}

impl ReturnShape {
    /// The return value of a rule of this shape: the precedence, then the
    /// associativity and the label (its index, or `NO_LABEL`) when the shape
    /// has them; a single component stands alone, several form a tuple.
    pub fn value(self, precedence: Expr, associativity: Expr, label: Option<usize>) -> (r: Expr)
        ensures
            r@ == single_or_tuple(shape_values(self, precedence@, associativity@, label)),
    {
        let ghost p = precedence@;
        let ghost a = associativity@;
        let mut values: Vec<Expr> = Vec::new();
        proof { lemma_exprs_view_push(values@, precedence); }
        values.push(precedence);
        assert(exprs_view(values@) =~= seq![p]);
        if self.associativity {
            proof { lemma_exprs_view_push(values@, associativity); }
            values.push(associativity);
        }
        assert(exprs_view(values@) =~= seq![p] + (if self.associativity { seq![a] } else { Seq::<SpecExpr>::empty() }));
        if self.label {
            let l = match label {
                Some(l) => Expr::Int(l as i64),
                None => no_label(),
            };
            proof { lemma_exprs_view_push(values@, l); }
            values.push(l);
        }
        assert(exprs_view(values@) =~= shape_values(self, p, a, label));
        if values.len() == 1 {
            let ghost before = values@;
            let v = values.pop().unwrap();
            assert(before =~= seq![v]);
            v
        } else {
            Expr::Tuple(values)
        }
    }

    /// The pattern that binds a return of this shape under `prefix`.
    pub fn binding(self, prefix: &str) -> (b: BindingPattern)
        ensures
            b@ == name_or_tuple(shape_names(self, prefix@)),
    {
        let mut names: Vec<String> = Vec::new();
        let mut first = string_of(prefix);
        push_str(&mut first, "_pr");
        names.push(first);
        if self.associativity {
            let mut n = string_of(prefix);
            push_str(&mut n, "_assoc");
            names.push(n);
        }
        if self.label {
            let mut n = string_of(prefix);
            push_str(&mut n, "_label");
            names.push(n);
        }
        assert(strings_view(names@) =~= shape_names(self, prefix@));
        if names.len() == 1 {
            let ghost before = names@;
            let n = names.pop().unwrap();
            assert(before =~= seq![n]);
            BindingPattern::Name(n)
        } else {
            BindingPattern::Tuple(names)
        }
    }
}

/// The pair returned by exclusion desugaring: the precedence and the label
/// (its index, or `NO_LABEL` for an unlabeled alternative).
pub fn with_label(precedence: Expr, label: Option<usize>) -> (r: Expr)
    ensures
        r@ == SpecExpr::Tuple(seq![precedence@, label_expr(label)]),
{
    let shape = ReturnShape { associativity: false, label: true };
    let r = shape.value(precedence, Expr::Int(0), label);
    assert(shape_values(shape, precedence@, SpecExpr::Int(0), label) =~= seq![precedence@, label_expr(label)]);
    r
}

/// Whether `e` is the `NO_LABEL` value.
fn is_no_label(e: &Expr) -> (b: bool)
    ensures
        b == (e@ == no_label_view()),
{
    match e {
        Expr::DisplayInt { name, value } => {
            proof { reveal_strlit("NO_LABEL"); }
            *value == 31 && str_eq(name.as_str(), "NO_LABEL")
        },
        _ => false,
    }
}

/// Removes the return added by exclusion desugaring and reads this rule's
/// label. An unlabeled alternative also has an exclusion return, with
/// `NO_LABEL`; it gives `None`, as does a list without such a return, which
/// stays unchanged.
pub fn take_exclusion_return(symbols: &mut Vec<Symbol>) -> (label: Option<usize>)
    ensures
        match exclusion_return(symbols_view(old(symbols)@)) {
            Some(l) => label == l && final(symbols)@ == old(symbols)@.drop_last(),
            None => label.is_none() && final(symbols)@ == old(symbols)@,
        },
{
    proof {
        crate::grammar::symbols::lemma_symbols_view(symbols@);
    }
    let n = symbols.len();
    if n == 0 {
        return None;
    }
    let label = match &symbols[n - 1] {
        Symbol::Return(Expr::Tuple(values)) => {
            proof {
                crate::grammar::symbols::lemma_exprs_view(values@);
            }
            if values.len() != 2 {
                return None;
            }
            match &values[1] {
                Expr::Int(l) => Some(*l as usize),
                other => {
                    if is_no_label(other) {
                        None
                    } else {
                        return None;
                    }
                },
            }
        },
        _ => {
            return None;
        },
    };
    symbols.pop();
    label
}

/// The precedence returned when an indirect recursive end is absent.
pub fn undefined_precedence() -> (e: Expr)
    ensures
        e@ == undefined_precedence_view(),
{
    Expr::DisplayInt { name: string_of("UNDEFINED_PRECEDENCE"), value: -1 }
}

/// Exclusions use a 32-bit mask. Label indices 0 through 30 leave 31 for no
/// label.
pub fn no_label() -> (e: Expr)
    ensures
        e@ == no_label_view(),
{
    Expr::DisplayInt { name: string_of("NO_LABEL"), value: 31 }
}

} // verus!
