//! The text of expressions and symbols, as grammar dumps and tests print them.
use vstd::prelude::*;
use crate::grammar::symbols::{
    exprs_view, lemma_exprs_view, lemma_symbols_view, symbols_view, BindingPattern, CondOp, Expr,
    Identifier, SpecBindingPattern, SpecExpr, SpecIdentifier, SpecSymbol, Symbol,
};
use crate::text::{push_char, push_signed_decimal, push_str, signed_decimal};

verus! {

broadcast use vstd::std_specs::vec::axiom_vec_index_decreases;

/// The text of a comparison operator.
pub open spec fn cond_op_text(op: CondOp) -> Seq<char> {
    match op {
        CondOp::Eq => seq!['=', '='],
        CondOp::Neq => seq!['!', '='],
        CondOp::Lt => seq!['<'],
        CondOp::Leq => seq!['<', '='],
        CondOp::Gt => seq!['>'],
        CondOp::Geq => seq!['>', '='],
    }
}

/// An expression that renders without enclosing parentheses when it is an
/// operand of a bitwise operator.
pub open spec fn is_atom(e: SpecExpr) -> bool {
    e is Int || e is Ref || e is DisplayInt || e is Tuple || e is Min
}

/// `t` in parentheses.
pub open spec fn parens(t: Seq<char>) -> Seq<char> {
    seq!['('] + t + seq![')']
}

/// The text of an expression.
pub open spec fn expr_text(e: SpecExpr) -> Seq<char>
    decreases e, 1int,
{
    match e {
        SpecExpr::Int(n) => signed_decimal(n as int),
        SpecExpr::Ref(name) => name,
        SpecExpr::DisplayInt { name, .. } => name,
        SpecExpr::Tuple(items) => parens(exprs_text(items)),
        SpecExpr::BitAnd(l, r) => operand_text(*l) + seq![' ', '&', ' '] + operand_text(*r),
        SpecExpr::Shr(l, r) => expr_text(*l) + seq![' ', '>', '>', ' '] + parens(expr_text(*r)),
        SpecExpr::Or(l, r) => parens(expr_text(*l)) + seq![' ', '|', '|', ' '] + parens(expr_text(*r)),
        SpecExpr::And(l, r) => parens(expr_text(*l)) + seq![' ', '&', '&', ' '] + parens(expr_text(*r)),
        SpecExpr::Min(l, r) => seq!['m', 'i', 'n', '('] + expr_text(*l) + seq![',', ' '] + expr_text(*r)
            + seq![')'],
        SpecExpr::Cond { left, right, op } => expr_text(*left) + seq![' '] + cond_op_text(op)
            + seq![' '] + expr_text(*right),
        SpecExpr::Ternary { cond, then, otherwise } => parens(expr_text(*cond)) + seq![' ', '?', ' ']
            + expr_text(*then) + seq![' ', ':', ' '] + expr_text(*otherwise),
    }
}

/// The text of an operand of a bitwise operator.
pub open spec fn operand_text(e: SpecExpr) -> Seq<char>
    decreases e, 2int,
{
    if is_atom(e) {
        expr_text(e)
    } else {
        parens(expr_text(e))
    }
}

/// The texts of `items`, separated by `, `.
pub open spec fn exprs_text(items: Seq<SpecExpr>) -> Seq<char>
    decreases items, 0int,
{
    if items.len() == 0 {
        Seq::empty()
    } else if items.len() == 1 {
        expr_text(items[0])
    } else {
        exprs_text(items.drop_last()) + seq![',', ' '] + expr_text(items.last())
    }
}

/// `names`, separated by `, `.
pub open spec fn names_text(names: Seq<Seq<char>>) -> Seq<char>
    decreases names.len(),
{
    if names.len() == 0 {
        Seq::empty()
    } else if names.len() == 1 {
        names[0]
    } else {
        names_text(names.drop_last()) + seq![',', ' '] + names.last()
    }
}

/// The text of a binding pattern: a name, or a parenthesized list of names.
pub open spec fn pattern_text(p: SpecBindingPattern) -> Seq<char> {
    match p {
        SpecBindingPattern::Name(name) => name,
        SpecBindingPattern::Tuple(names) => parens(names_text(names)),
    }
}

/// Each identifier's name between `before` and `after`, concatenated.
pub open spec fn wrapped_names(ids: Seq<SpecIdentifier>, before: Seq<char>, after: Seq<char>) -> Seq<char>
    decreases ids.len(),
{
    if ids.len() == 0 {
        Seq::empty()
    } else {
        wrapped_names(ids.drop_last(), before, after) + before + ids.last().name + after
    }
}

/// Each label preceded by `!`, concatenated.
pub open spec fn labels_text(labels: Seq<Seq<char>>) -> Seq<char>
    decreases labels.len(),
{
    if labels.len() == 0 {
        Seq::empty()
    } else {
        labels_text(labels.drop_last()) + seq!['!'] + labels.last()
    }
}

/// The text of a symbol.
pub open spec fn symbol_text(s: SpecSymbol) -> Seq<char>
    decreases s, 1int,
{
    match s {
        SpecSymbol::Identifier(id) => id.name,
        SpecSymbol::Literal(text) => seq!['"'] + text + seq!['"'],
        SpecSymbol::Call { name, arguments } => name.name + parens(exprs_text(arguments)),
        SpecSymbol::Group(symbols) => parens(symbols_text(symbols, seq![' '])),
        SpecSymbol::Opt(inner) => symbol_text(*inner) + seq!['?'],
        SpecSymbol::Alt(symbols) => parens(symbols_text(symbols, seq![' ', '|', ' '])),
        SpecSymbol::Star(inner, sep) => match sep {
            Some(sep) => seq!['{'] + symbol_text(*inner) + seq![' '] + symbol_text(*sep) + seq!['}', '*'],
            None => symbol_text(*inner) + seq!['*'],
        },
        SpecSymbol::Plus(inner, sep) => match sep {
            Some(sep) => seq!['{'] + symbol_text(*inner) + seq![' '] + symbol_text(*sep) + seq!['}', '+'],
            None => symbol_text(*inner) + seq!['+'],
        },
        SpecSymbol::Labeled { label, symbol } => label + seq![':'] + symbol_text(*symbol),
        SpecSymbol::Binding { pattern, symbol } => pattern_text(pattern) + seq!['='] + symbol_text(*symbol),
        SpecSymbol::Restricted { symbol, restrictions } => parens(
            wrapped_names(restrictions.precede, Seq::empty(), seq![' ', '!', '<', '<', ' '])
                + symbol_text(*symbol)
                + wrapped_names(restrictions.excepts, seq![' ', '\\', ' '], Seq::empty())
                + wrapped_names(restrictions.follow, seq![' ', '!', '>', '>', ' '], Seq::empty())
                + wrapped_names(restrictions.layout_aware_follow, seq![' ', '!', '>', '>', '>', ' '], Seq::empty()),
        ),
        SpecSymbol::Exclude { symbol, labels } => symbol_text(*symbol) + labels_text(labels),
        SpecSymbol::Condition(e) => seq!['['] + expr_text(e) + seq![']'],
        SpecSymbol::Return(e) => seq!['r', 'e', 't', 'u', 'r', 'n', ' '] + expr_text(e),
    }
}

/// The texts of `symbols`, separated by `sep`.
pub open spec fn symbols_text(symbols: Seq<SpecSymbol>, sep: Seq<char>) -> Seq<char>
    decreases symbols, 0int,
{
    if symbols.len() == 0 {
        Seq::empty()
    } else if symbols.len() == 1 {
        symbol_text(symbols[0])
    } else {
        symbols_text(symbols.drop_last(), sep) + sep + symbol_text(symbols.last())
    }
}


fn push_cond_op(out: &mut String, op: CondOp)
    ensures
        final(out)@ == old(out)@ + cond_op_text(op),
{
    proof {
        reveal_strlit("==");
        reveal_strlit("!=");
        reveal_strlit("<");
        reveal_strlit("<=");
        reveal_strlit(">");
        reveal_strlit(">=");
    }
    match op {
        CondOp::Eq => push_str(out, "=="),
        CondOp::Neq => push_str(out, "!="),
        CondOp::Lt => push_str(out, "<"),
        CondOp::Leq => push_str(out, "<="),
        CondOp::Gt => push_str(out, ">"),
        CondOp::Geq => push_str(out, ">="),
    }
    assert(final(out)@ =~= old(out)@ + cond_op_text(op));
}

/// Appends the texts of `items`, separated by `, `.
fn push_exprs(out: &mut String, items: &Vec<Expr>)
    ensures
        final(out)@ == old(out)@ + exprs_text(exprs_view(items@)),
    decreases items, 0int,
{
    proof {
        reveal_strlit(", ");
        lemma_exprs_view(items@);
    }
    let ghost start = out@;
    let ghost views = exprs_view(items@);
    let mut i: usize = 0;
    while i < items.len()
        invariant
            0 <= i <= items@.len(),
            views == exprs_view(items@),
            views.len() == items@.len(),
            forall|j: int| 0 <= j < items@.len() ==> #[trigger] views[j] == items@[j]@,
            out@ == start + exprs_text(views.take(i as int)),
        decreases items@.len() - i,
    {
        proof {
            assert(decreases_to!(*items => items@[i as int]));
            assert(views.take(i + 1).drop_last() =~= views.take(i as int));
        }
        proof { reveal_strlit(", "); }
        if i > 0 {
            push_str(out, ", ");
        }
        items[i].push_text(out);
        proof {
            let t = views.take(i + 1);
            assert(t.last() == views[i as int]);
            if i == 0 {
                assert(t[0] == views[0]);
                assert(exprs_text(t) == expr_text(views[0]));
            } else {
                assert(exprs_text(t) == exprs_text(t.drop_last()) + seq![',', ' '] + expr_text(t.last()));
            }
            assert(out@ =~= start + exprs_text(t));
        }
        i += 1;
    }
    assert(views.take(items@.len() as int) =~= views);
}

impl Expr {
    /// Appends the text of this expression to `out`.
    pub fn push_text(&self, out: &mut String)
        ensures
            final(out)@ == old(out)@ + expr_text(self@),
        decreases self, 1int,
    {
        proof {
            reveal_strlit(" & ");
            reveal_strlit(" >> ");
            reveal_strlit(" || ");
            reveal_strlit(" && ");
            reveal_strlit("min(");
            reveal_strlit(", ");
            reveal_strlit(" ? ");
            reveal_strlit(" : ");
        }
        let ghost start = out@;
        match self {
            Expr::Int(n) => push_signed_decimal(out, *n),
            Expr::Ref(name) => push_str(out, name.as_str()),
            Expr::DisplayInt { name, .. } => push_str(out, name.as_str()),
            Expr::Tuple(items) => {
                push_char(out, '(');
                push_exprs(out, items);
                push_char(out, ')');
            },
            Expr::BitAnd(l, r) => {
                l.push_operand_text(out);
                push_str(out, " & ");
                r.push_operand_text(out);
            },
            Expr::Shr(l, r) => {
                l.push_text(out);
                push_str(out, " >> ");
                push_char(out, '(');
                r.push_text(out);
                push_char(out, ')');
            },
            Expr::Or(l, r) => {
                push_char(out, '(');
                l.push_text(out);
                push_char(out, ')');
                push_str(out, " || ");
                push_char(out, '(');
                r.push_text(out);
                push_char(out, ')');
            },
            Expr::And(l, r) => {
                push_char(out, '(');
                l.push_text(out);
                push_char(out, ')');
                push_str(out, " && ");
                push_char(out, '(');
                r.push_text(out);
                push_char(out, ')');
            },
            Expr::Min(l, r) => {
                push_str(out, "min(");
                l.push_text(out);
                push_str(out, ", ");
                r.push_text(out);
                push_char(out, ')');
            },
            Expr::Cond(c) => {
                c.left.push_text(out);
                push_char(out, ' ');
                push_cond_op(out, c.op);
                push_char(out, ' ');
                c.right.push_text(out);
            },
            Expr::Ternary { cond, then, otherwise } => {
                push_char(out, '(');
                cond.push_text(out);
                push_char(out, ')');
                push_str(out, " ? ");
                then.push_text(out);
                push_str(out, " : ");
                otherwise.push_text(out);
            },
        }
        assert(out@ =~= start + expr_text(self@));
    }

    fn push_operand_text(&self, out: &mut String)
        ensures
            final(out)@ == old(out)@ + operand_text(self@),
        decreases self, 2int,
    {
        match self {
            Expr::Int(_) | Expr::Ref(_) | Expr::DisplayInt { .. } | Expr::Tuple(_) | Expr::Min(..) => {
                self.push_text(out);
            },
            _ => {
                let ghost start = out@;
                push_char(out, '(');
                self.push_text(out);
                push_char(out, ')');
                assert(out@ =~= start + operand_text(self@));
            },
        }
    }

    /// The text of this expression, as conditions and returns print it.
    pub fn to_string(&self) -> (s: String)
        ensures
            s@ == expr_text(self@),
    {
        let mut s = String::new();
        self.push_text(&mut s);
        assert(s@ =~= expr_text(self@));
        s
    }
}

impl BindingPattern {
    /// The names this pattern binds, in order.
    pub fn names(&self) -> (names: Vec<String>)
        ensures
            names@.map_values(|n: String| n@) == match self@ {
                SpecBindingPattern::Name(name) => seq![name],
                SpecBindingPattern::Tuple(names) => names,
            },
    {
        match self {
            BindingPattern::Name(name) => {
                let names = vec![name.clone()];
                assert(names@.map_values(|n: String| n@) =~= seq![name@]);
                names
            },
            BindingPattern::Tuple(names) => crate::grammar::symbols::clone_strings(names),
        }
    }

    /// Appends the text of this pattern to `out`.
    pub fn push_text(&self, out: &mut String)
        ensures
            final(out)@ == old(out)@ + pattern_text(self@),
    {
        let ghost start = out@;
        match self {
            BindingPattern::Name(name) => push_str(out, name.as_str()),
            BindingPattern::Tuple(names) => {
                proof { reveal_strlit(", "); }
                push_char(out, '(');
                let ghost views = names@.map_values(|n: String| n@);
                let mut i: usize = 0;
                while i < names.len()
                    invariant
                        0 <= i <= names@.len(),
                        views == names@.map_values(|n: String| n@),
                        out@ == start + seq!['('] + names_text(views.take(i as int)),
                    decreases names@.len() - i,
                {
                    proof {
                        reveal_strlit(", ");
                        assert(views.take(i + 1).drop_last() =~= views.take(i as int));
                    }
                    if i > 0 {
                        push_str(out, ", ");
                    }
                    push_str(out, names[i].as_str());
                    proof {
                        let t = views.take(i + 1);
                        assert(t.last() == names@[i as int]@);
                        if i == 0 {
                            assert(t[0] == names@[0]@);
                            assert(names_text(t) == t[0]);
                        } else {
                            assert(names_text(t) == names_text(t.drop_last()) + seq![',', ' '] + t.last());
                        }
                        assert(out@ =~= start + seq!['('] + names_text(t));
                    }
                    i += 1;
                }
                push_char(out, ')');
                assert(views.take(names@.len() as int) =~= views);
            },
        }
        assert(out@ =~= start + pattern_text(self@));
    }

    /// The text of this pattern.
    pub fn to_string(&self) -> (s: String)
        ensures
            s@ == pattern_text(self@),
    {
        let mut s = String::new();
        self.push_text(&mut s);
        assert(s@ =~= pattern_text(self@));
        s
    }
}


/// Appends each identifier's name between `before` and `after`.
fn push_wrapped_names(out: &mut String, ids: &Vec<Identifier>, before: &str, after: &str)
    ensures
        final(out)@ == old(out)@ + wrapped_names(
            crate::grammar::symbols::identifiers_view(ids@),
            before@,
            after@,
        ),
{
    let ghost start = out@;
    let ghost views = crate::grammar::symbols::identifiers_view(ids@);
    let mut i: usize = 0;
    while i < ids.len()
        invariant
            0 <= i <= ids@.len(),
            views == crate::grammar::symbols::identifiers_view(ids@),
            out@ == start + wrapped_names(views.take(i as int), before@, after@),
        decreases ids@.len() - i,
    {
        push_str(out, before);
        push_str(out, ids[i].name.as_str());
        push_str(out, after);
        proof {
            let t = views.take(i + 1);
            assert(t.drop_last() =~= views.take(i as int));
            assert(t.last() == ids@[i as int]@);
            assert(out@ =~= start + wrapped_names(t, before@, after@));
        }
        i += 1;
    }
    assert(views.take(ids@.len() as int) =~= views);
}

/// Appends each label preceded by `!`.
fn push_labels(out: &mut String, labels: &Vec<String>)
    ensures
        final(out)@ == old(out)@ + labels_text(crate::grammar::symbols::strings_view(labels@)),
{
    let ghost start = out@;
    let ghost views = crate::grammar::symbols::strings_view(labels@);
    let mut i: usize = 0;
    while i < labels.len()
        invariant
            0 <= i <= labels@.len(),
            views == crate::grammar::symbols::strings_view(labels@),
            out@ == start + labels_text(views.take(i as int)),
        decreases labels@.len() - i,
    {
        push_char(out, '!');
        push_str(out, labels[i].as_str());
        proof {
            let t = views.take(i + 1);
            assert(t.drop_last() =~= views.take(i as int));
            assert(t.last() == labels@[i as int]@);
            assert(out@ =~= start + labels_text(t));
        }
        i += 1;
    }
    assert(views.take(labels@.len() as int) =~= views);
}

/// Appends the texts of `items`, separated by `sep`.
pub fn push_symbols_separated(out: &mut String, items: &Vec<Symbol>, sep: &str)
    ensures
        final(out)@ == old(out)@ + symbols_text(symbols_view(items@), sep@),
    decreases items, 0int,
{
    proof {
        lemma_symbols_view(items@);
    }
    let ghost start = out@;
    let ghost views = symbols_view(items@);
    let mut i: usize = 0;
    while i < items.len()
        invariant
            0 <= i <= items@.len(),
            views == symbols_view(items@),
            views.len() == items@.len(),
            forall|j: int| 0 <= j < items@.len() ==> #[trigger] views[j] == items@[j]@,
            out@ == start + symbols_text(views.take(i as int), sep@),
        decreases items@.len() - i,
    {
        proof {
            assert(decreases_to!(*items => items@[i as int]));
            assert(views.take(i + 1).drop_last() =~= views.take(i as int));
        }
        if i > 0 {
            push_str(out, sep);
        }
        items[i].push_text(out);
        proof {
            let t = views.take(i + 1);
            assert(t.last() == views[i as int]);
            if i == 0 {
                assert(t[0] == views[0]);
                assert(symbols_text(t, sep@) == symbol_text(views[0]));
            } else {
                assert(symbols_text(t, sep@) == symbols_text(t.drop_last(), sep@) + sep@ + symbol_text(t.last()));
            }
            assert(out@ =~= start + symbols_text(t, sep@));
        }
        i += 1;
    }
    assert(views.take(items@.len() as int) =~= views);
}

impl Symbol {
    /// Appends the text of a restricted symbol to `out`.
    fn push_restricted_text(out: &mut String, symbol: &Symbol, restrictions: &crate::grammar::symbols::Restrictions)
        ensures
            final(out)@ == old(out)@ + parens(
                wrapped_names(restrictions@.precede, Seq::empty(), seq![' ', '!', '<', '<', ' '])
                    + symbol_text(symbol@)
                    + wrapped_names(restrictions@.excepts, seq![' ', '\\', ' '], Seq::empty())
                    + wrapped_names(restrictions@.follow, seq![' ', '!', '>', '>', ' '], Seq::empty())
                    + wrapped_names(restrictions@.layout_aware_follow, seq![' ', '!', '>', '>', '>', ' '], Seq::empty()),
            ),
        decreases symbol, 2int,
    {
        proof {
            reveal_strlit("");
            reveal_strlit(" \\ ");
            reveal_strlit(" !<< ");
            reveal_strlit(" !>> ");
            reveal_strlit(" !>>> ");
        }
        let ghost start = out@;
        push_char(out, '(');
        push_wrapped_names(out, &restrictions.precede, "", " !<< ");
        symbol.push_text(out);
        push_wrapped_names(out, &restrictions.excepts, " \\ ", "");
        push_wrapped_names(out, &restrictions.follow, " !>> ", "");
        push_wrapped_names(out, &restrictions.layout_aware_follow, " !>>> ", "");
        push_char(out, ')');
        assert(""@ =~= Seq::<char>::empty());
        assert(" \\ "@ =~= seq![' ', '\\', ' ']);
        assert(" !<< "@ =~= seq![' ', '!', '<', '<', ' ']);
        assert(" !>> "@ =~= seq![' ', '!', '>', '>', ' ']);
        assert(" !>>> "@ =~= seq![' ', '!', '>', '>', '>', ' ']);
        assert(out@ =~= start + parens(
            wrapped_names(restrictions@.precede, Seq::empty(), seq![' ', '!', '<', '<', ' '])
                + symbol_text(symbol@)
                + wrapped_names(restrictions@.excepts, seq![' ', '\\', ' '], Seq::empty())
                + wrapped_names(restrictions@.follow, seq![' ', '!', '>', '>', ' '], Seq::empty())
                + wrapped_names(restrictions@.layout_aware_follow, seq![' ', '!', '>', '>', '>', ' '], Seq::empty()),
        ));
    }

    /// Appends the text of this symbol to `out`.
    pub fn push_text(&self, out: &mut String)
        ensures
            final(out)@ == old(out)@ + symbol_text(self@),
        decreases self, 1int,
    {
        let ghost start = out@;
        match self {
            Symbol::Identifier(id) => {
                push_str(out, id.name.as_str());
            },
            Symbol::Literal(text) => {
                push_char(out, '"');
                push_str(out, text.as_str());
                push_char(out, '"');
                assert(out@ =~= start + symbol_text(self@));
            },
            Symbol::Call { name, arguments } => {
                push_str(out, name.name.as_str());
                push_char(out, '(');
                push_exprs(out, arguments);
                push_char(out, ')');
                assert(out@ =~= start + symbol_text(self@));
            },
            Symbol::Group(symbols) => {
                proof { reveal_strlit(" "); }
                push_char(out, '(');
                push_symbols_separated(out, symbols, " ");
                push_char(out, ')');
                assert(" "@ =~= seq![' ']);
                assert(out@ =~= start + symbol_text(self@));
            },
            Symbol::Opt(inner) => {
                inner.push_text(out);
                push_char(out, '?');
                assert(out@ =~= start + symbol_text(self@));
            },
            Symbol::Alt(symbols) => {
                proof { reveal_strlit(" | "); }
                push_char(out, '(');
                push_symbols_separated(out, symbols, " | ");
                push_char(out, ')');
                assert(" | "@ =~= seq![' ', '|', ' ']);
                assert(out@ =~= start + symbol_text(self@));
            },
            Symbol::Star(inner, sep) => match sep {
                Some(sep) => {
                    proof { reveal_strlit("}*"); }
                    push_char(out, '{');
                    inner.push_text(out);
                    push_char(out, ' ');
                    sep.push_text(out);
                    push_str(out, "}*");
                    assert("}*"@ =~= seq!['}', '*']);
                    assert(out@ =~= start + symbol_text(self@));
                },
                None => {
                    inner.push_text(out);
                    push_char(out, '*');
                    assert(out@ =~= start + symbol_text(self@));
                },
            },
            Symbol::Plus(inner, sep) => match sep {
                Some(sep) => {
                    proof { reveal_strlit("}+"); }
                    push_char(out, '{');
                    inner.push_text(out);
                    push_char(out, ' ');
                    sep.push_text(out);
                    push_str(out, "}+");
                    assert("}+"@ =~= seq!['}', '+']);
                    assert(out@ =~= start + symbol_text(self@));
                },
                None => {
                    inner.push_text(out);
                    push_char(out, '+');
                    assert(out@ =~= start + symbol_text(self@));
                },
            },
            Symbol::Labeled { label, symbol } => {
                push_str(out, label.as_str());
                push_char(out, ':');
                symbol.push_text(out);
                assert(out@ =~= start + symbol_text(self@));
            },
            Symbol::Binding { pattern, symbol } => {
                pattern.push_text(out);
                push_char(out, '=');
                symbol.push_text(out);
                assert(out@ =~= start + symbol_text(self@));
            },
            Symbol::Restricted { symbol, restrictions } => {
                Symbol::push_restricted_text(out, symbol, restrictions);
            },
            Symbol::Exclude { symbol, labels } => {
                symbol.push_text(out);
                push_labels(out, labels);
                assert(out@ =~= start + symbol_text(self@));
            },
            Symbol::Condition(e) => {
                push_char(out, '[');
                e.push_text(out);
                push_char(out, ']');
                assert(out@ =~= start + symbol_text(self@));
            },
            Symbol::Return(e) => {
                proof { reveal_strlit("return "); }
                push_str(out, "return ");
                e.push_text(out);
                assert(out@ =~= start + symbol_text(self@));
            },
        }
    }

    /// The text of this symbol.
    pub fn to_string(&self) -> (s: String)
        ensures
            s@ == symbol_text(self@),
    {
        let mut s = String::new();
        self.push_text(&mut s);
        assert(s@ =~= symbol_text(self@));
        s
    }
}

} // verus!
