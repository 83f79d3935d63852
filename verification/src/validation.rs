//! Validation of a resolved grammar definition: every error it reports,
//! in the order the checks run. Each check states its errors' messages over
//! the grammar's view.
use vstd::prelude::*;
use crate::grammar::def::{
    lexical_rules_view, rule_alternatives, syntax_rules_view, GrammarDef, LexicalRule, SpecGrammarDef,
    SpecAlternative, SpecLexicalRule, SpecSyntaxRule, SyntaxRule,
};
use crate::grammar::regex_inlining::{find_rule, lemma_rule_index, rule_index};
use crate::grammar::symbols::{
    identifiers_view, spec_as_identifier, strings_contain, strings_view, Identifier, SpecIdentifier, SpecSymbol, SpecTerminal, Symbol, Terminal,
};
use crate::grammar::visit::{identifier_refs_view, identifiers_of, lexical_identifiers, rules_preorder, symbol_refs_view};
use crate::text::{push_char, push_str, string_of};
use crate::utils::{pascal_case, snake_case, str_to_uppercase, str_uppercase, to_pascal_case, to_snake_case};

verus! {

/// One of the four restriction operators.
#[derive(Debug, Clone, Copy, PartialEq, Eq, Structural)]
pub enum RestrictionKind {
    Except,
    Follow,
    LayoutAwareFollow,
    Precede,
}

/// What a message calls the operator.
pub open spec fn kind_name(kind: RestrictionKind) -> Seq<char> {
    match kind {
        RestrictionKind::Except => "except"@,
        RestrictionKind::Follow => "follow restriction"@,
        RestrictionKind::LayoutAwareFollow => "layout-aware follow restriction"@,
        RestrictionKind::Precede => "precede restriction"@,
    }
}

impl RestrictionKind {
    /// What to call the operator in a message.
    pub fn name(self) -> (s: &'static str)
        ensures
            s@ == kind_name(self),
    {
        match self {
            RestrictionKind::Except => "except",
            RestrictionKind::Follow => "follow restriction",
            RestrictionKind::LayoutAwareFollow => "layout-aware follow restriction",
            RestrictionKind::Precede => "precede restriction",
        }
    }
}

/// A lexical rule's own restrictions, each with its operator: the excepts,
/// then the follow restrictions, then the precede restriction.
pub open spec fn lexical_restrictions_view(rule: SpecLexicalRule) -> Seq<(RestrictionKind, SpecIdentifier)> {
    rule.except.map_values(|id: SpecIdentifier| (RestrictionKind::Except, id))
        + rule.follow_restriction.map_values(|id: SpecIdentifier| (RestrictionKind::Follow, id))
        + match rule.precede_restriction {
            Some(id) => seq![(RestrictionKind::Precede, id)],
            None => Seq::empty(),
        }
}

/// The views of a list of restrictions.
pub open spec fn restriction_refs_view(v: Seq<(RestrictionKind, &Identifier)>) -> Seq<(RestrictionKind, SpecIdentifier)> {
    v.map_values(|p: (RestrictionKind, &Identifier)| (p.0, p.1@))
}

/// Appends each identifier with `kind`.
fn push_kind<'a>(out: &mut Vec<(RestrictionKind, &'a Identifier)>, ids: &'a Vec<Identifier>, kind: RestrictionKind)
    ensures
        restriction_refs_view(final(out)@) == restriction_refs_view(old(out)@)
            + ids@.map_values(|id: Identifier| id@).map_values(|id: SpecIdentifier| (kind, id)),
{
    let ghost start = restriction_refs_view(out@);
    let mut i: usize = 0;
    while i < ids.len()
        invariant
            0 <= i <= ids@.len(),
            restriction_refs_view(out@) == start + ids@.take(i as int).map_values(|id: Identifier| id@).map_values(|id: SpecIdentifier| (kind, id)),
        decreases ids@.len() - i,
    {
        let ghost before = restriction_refs_view(out@);
        out.push((kind, &ids[i]));
        proof {
            assert(restriction_refs_view(out@) =~= before.push((kind, ids@[i as int]@)));
            assert(ids@.take(i + 1).map_values(|id: Identifier| id@).map_values(|id: SpecIdentifier| (kind, id))
                =~= ids@.take(i as int).map_values(|id: Identifier| id@).map_values(|id: SpecIdentifier| (kind, id)).push((kind, ids@[i as int]@)));
        }
        i += 1;
    }
    assert(ids@.take(i as int) =~= ids@);
}

/// A lexical rule's own restrictions, each paired with its operator; see
/// `lexical_restrictions_view`.
pub fn lexical_restrictions(rule: &LexicalRule) -> (r: Vec<(RestrictionKind, &Identifier)>)
    ensures
        restriction_refs_view(r@) == lexical_restrictions_view(rule@),
{
    let mut out: Vec<(RestrictionKind, &Identifier)> = Vec::new();
    push_kind(&mut out, &rule.except, RestrictionKind::Except);
    push_kind(&mut out, &rule.follow_restriction, RestrictionKind::Follow);
    let ghost before = restriction_refs_view(out@);
    if let Some(identifier) = &rule.precede_restriction {
        out.push((RestrictionKind::Precede, identifier));
        assert(restriction_refs_view(out@) =~= before.push((RestrictionKind::Precede, identifier@)));
    }
    assert(restriction_refs_view(out@) =~= lexical_restrictions_view(rule@));
    out
}

/// The labels of an exclusion the way they are written: `!a!b`.
pub open spec fn labels_text(labels: Seq<Seq<char>>) -> Seq<char>
    decreases labels.len(),
{
    if labels.len() == 0 {
        Seq::empty()
    } else {
        labels_text(labels.drop_last()) + seq!['!'] + labels.last()
    }
}

/// Renders an exclusion's labels the way they are written; see
/// `labels_text`.
pub fn render_labels(labels: &Vec<String>) -> (s: String)
    ensures
        s@ == labels_text(crate::grammar::symbols::strings_view(labels@)),
{
    let ghost lv = crate::grammar::symbols::strings_view(labels@);
    let mut out = String::new();
    let mut i: usize = 0;
    while i < labels.len()
        invariant
            0 <= i <= labels@.len(),
            lv == crate::grammar::symbols::strings_view(labels@),
            out@ == labels_text(lv.take(i as int)),
        decreases labels@.len() - i,
    {
        proof {
            assert(lv.take(i + 1).drop_last() =~= lv.take(i as int));
            assert(lv.take(i + 1).last() == labels@[i as int]@);
        }
        push_char(&mut out, '!');
        push_str(&mut out, labels[i].as_str());
        assert(out@ =~= labels_text(lv.take(i + 1)));
        i += 1;
    }
    assert(lv.take(i as int) =~= lv);
    out
}

/// Converts a rule name to the upper snake case of grammar-data constants.
pub fn constant_name(rule_name: &str) -> (s: String)
    ensures
        s@ == str_uppercase(snake_case(rule_name@)),
{
    let snake = to_snake_case(rule_name);
    str_to_uppercase(snake.as_str())
}

/// The index of the first lexical rule named `name`, if any.
pub open spec fn first_named(rules: Seq<SpecLexicalRule>, name: Seq<char>, from: int) -> Option<int>
    decreases rules.len() - from,
{
    if from < 0 || from >= rules.len() {
        None
    } else if rules[from].head.name == name {
        Some(from)
    } else {
        first_named(rules, name, from + 1)
    }
}

/// The head of the lexical rule named `name`: the first such rule's.
pub fn lexical_head<'a>(grammar_def: &'a GrammarDef, name: &str) -> (r: Option<&'a Terminal>)
    ensures
        match first_named(lexical_rules_view(grammar_def.lexical_rules@), name@, 0) {
            Some(k) => r matches Some(t) && t@ == lexical_rules_view(grammar_def.lexical_rules@)[k].head,
            None => r is None,
        },
{
    let ghost lv = lexical_rules_view(grammar_def.lexical_rules@);
    let mut i: usize = 0;
    while i < grammar_def.lexical_rules.len()
        invariant
            0 <= i <= lv.len(),
            lv == lexical_rules_view(grammar_def.lexical_rules@),
            first_named(lv, name@, 0) == first_named(lv, name@, i as int),
        decreases lv.len() - i,
    {
        let rule = &grammar_def.lexical_rules[i];
        assert(lv[i as int] == rule@);
        if crate::text::str_eq(rule.head.name.as_str(), name) {
            return Some(&rule.head);
        }
        i += 1;
    }
    None
}

// ---------------------------------------------------------------------------
// Duplicate definitions

/// The names of the rules: the lexical rules', then the syntax rules'.
pub open spec fn rule_names(g: SpecGrammarDef) -> Seq<Seq<char>> {
    g.lexical_rules.map_values(|r: SpecLexicalRule| r.head.name) + g.syntax_rules.map_values(|r: SpecSyntaxRule| r.head.name)
}

pub open spec fn duplicate_message(name: Seq<char>) -> Seq<char> {
    "duplicate definition `"@ + name + "`"@
}

/// An error for each name that occurs earlier among `names`.
pub open spec fn duplicate_errors(names: Seq<Seq<char>>) -> Seq<Seq<char>>
    decreases names.len(),
{
    if names.len() == 0 {
        Seq::empty()
    } else {
        let acc = duplicate_errors(names.drop_last());
        if names.drop_last().contains(names.last()) { acc.push(duplicate_message(names.last())) } else { acc }
    }
}

/// Checks one name against those seen; see `duplicate_errors`.
fn check_name_seen(name: &str, seen: &mut Vec<String>, errors: &mut Vec<String>, Ghost(names): Ghost<Seq<Seq<char>>>, Ghost(start): Ghost<Seq<Seq<char>>>)
    requires
        strings_view(old(seen)@) == names,
        strings_view(old(errors)@) == start + duplicate_errors(names),
    ensures
        strings_view(final(seen)@) == names.push(name@),
        strings_view(final(errors)@) == start + duplicate_errors(names.push(name@)),
{
    let ghost all = names.push(name@);
    assert(all.drop_last() =~= names);
    if strings_contain(seen, name) {
        let mut m = String::new();
        push_str(&mut m, "duplicate definition `");
        push_str(&mut m, name);
        push_str(&mut m, "`");
        let ghost mv = m@;
        let ghost before = strings_view(errors@);
        errors.push(m);
        assert(strings_view(errors@) =~= before.push(mv));
        assert(mv =~= duplicate_message(name@));
    }
    let ghost before = strings_view(seen@);
    seen.push(string_of(name));
    assert(strings_view(seen@) =~= before.push(name@));
}

/// Rule names must be unique; each later occurrence is an error. Lexical
/// rules come first, the order that assigns definition ids.
fn check_duplicate_definitions(g: &GrammarDef, errors: &mut Vec<String>)
    ensures
        strings_view(final(errors)@) == strings_view(old(errors)@) + duplicate_errors(rule_names(g@)),
{
    let ghost names = rule_names(g@);
    let ghost start = strings_view(errors@);
    let ghost nl = g.lexical_rules@.len() as int;
    let mut seen: Vec<String> = Vec::new();
    assert(names.take(0) =~= Seq::<Seq<char>>::empty());
    assert(strings_view(seen@) =~= Seq::<Seq<char>>::empty());
    assert(start + duplicate_errors(names.take(0)) =~= start);
    let mut i: usize = 0;
    while i < g.lexical_rules.len()
        invariant
            0 <= i <= g.lexical_rules@.len(),
            names == rule_names(g@),
            nl == g.lexical_rules@.len(),
            strings_view(seen@) == names.take(i as int),
            strings_view(errors@) == start + duplicate_errors(names.take(i as int)),
        decreases g.lexical_rules@.len() - i,
    {
        assert(names[i as int] == g.lexical_rules@[i as int].head.name@);
        assert(names.take(i + 1) =~= names.take(i as int).push(names[i as int]));
        check_name_seen(g.lexical_rules[i].head.name.as_str(), &mut seen, errors, Ghost(names.take(i as int)), Ghost(start));
        i += 1;
    }
    let mut j: usize = 0;
    while j < g.syntax_rules.len()
        invariant
            0 <= j <= g.syntax_rules@.len(),
            names == rule_names(g@),
            nl == g.lexical_rules@.len(),
            names.len() == nl + g.syntax_rules@.len(),
            strings_view(seen@) == names.take(nl + j),
            strings_view(errors@) == start + duplicate_errors(names.take(nl + j)),
        decreases g.syntax_rules@.len() - j,
    {
        assert(names[nl + j] == g.syntax_rules@[j as int].head.name@);
        assert(names.take(nl + j + 1) =~= names.take(nl + j).push(names[nl + j]));
        check_name_seen(g.syntax_rules[j].head.name.as_str(), &mut seen, errors, Ghost(names.take(nl + j)), Ghost(start));
        j += 1;
    }
    assert(names.take(nl + j) =~= names);
}

// ---------------------------------------------------------------------------
// A grammar with no syntax rule

pub open spec fn no_syntax_rule_errors(g: SpecGrammarDef) -> Seq<Seq<char>> {
    if g.syntax_rules.len() == 0 {
        seq!["grammar `"@ + g.name + "` has no syntax rules"@]
    } else {
        Seq::empty()
    }
}

/// A grammar needs at least one syntax rule.
fn check_grammar_has_a_syntax_rule(g: &GrammarDef, errors: &mut Vec<String>)
    ensures
        strings_view(final(errors)@) == strings_view(old(errors)@) + no_syntax_rule_errors(g@),
{
    let ghost start = strings_view(errors@);
    if g.syntax_rules.len() == 0 {
        let mut m = String::new();
        push_str(&mut m, "grammar `");
        push_str(&mut m, g.name.as_str());
        push_str(&mut m, "` has no syntax rules");
        let ghost mv = m@;
        errors.push(m);
        assert(strings_view(errors@) =~= start.push(mv));
        assert(start.push(mv) =~= start + seq![mv]);
    } else {
        assert(start + Seq::<Seq<char>>::empty() =~= start);
    }
}

// ---------------------------------------------------------------------------
// Unresolved references

pub open spec fn unresolved_message(name: Seq<char>) -> Seq<char> {
    "unresolved identifier `"@ + name + "`"@
}

/// An error for each reference without a definition.
pub open spec fn unresolved_errors(ids: Seq<SpecIdentifier>) -> Seq<Seq<char>>
    decreases ids.len(),
{
    if ids.len() == 0 {
        Seq::empty()
    } else {
        let acc = unresolved_errors(ids.drop_last());
        if ids.last().definition is None { acc.push(unresolved_message(ids.last().name)) } else { acc }
    }
}

/// An error for each restriction of the lexical rules, in order, that names
/// no rule.
pub open spec fn undefined_restriction_errors(names: Seq<Seq<char>>, rules: Seq<SpecLexicalRule>) -> Seq<Seq<char>>
    decreases rules.len(),
{
    if rules.len() == 0 {
        Seq::empty()
    } else {
        undefined_restriction_errors(names, rules.drop_last())
            + undefined_operands(names, lexical_restrictions_view(rules.last()))
    }
}

/// An error for each operand that names no rule.
pub open spec fn undefined_operands(names: Seq<Seq<char>>, ops: Seq<(RestrictionKind, SpecIdentifier)>) -> Seq<Seq<char>>
    decreases ops.len(),
{
    if ops.len() == 0 {
        Seq::empty()
    } else {
        let acc = undefined_operands(names, ops.drop_last());
        if names.contains(ops.last().1.name) { acc } else { acc.push(unresolved_message(ops.last().1.name)) }
    }
}

/// The errors for unresolved references: those of the syntax rules and of
/// the lexical rules' regexes without a definition, then the lexical rules'
/// restriction operands that name no rule.
pub open spec fn unresolved_identifier_errors(g: SpecGrammarDef) -> Seq<Seq<char>> {
    unresolved_errors(identifiers_of(rules_preorder(g.syntax_rules)) + lexical_identifiers(g.lexical_rules))
        + undefined_restriction_errors(rule_names(g), g.lexical_rules)
}

fn push_unresolved(name: &str, errors: &mut Vec<String>)
    ensures
        strings_view(final(errors)@) == strings_view(old(errors)@).push(unresolved_message(name@)),
{
    let mut m = String::new();
    push_str(&mut m, "unresolved identifier `");
    push_str(&mut m, name);
    push_str(&mut m, "`");
    let ghost mv = m@;
    let ghost before = strings_view(errors@);
    errors.push(m);
    assert(strings_view(errors@) =~= before.push(mv));
    assert(mv =~= unresolved_message(name@));
}

/// The names of the rules; see `rule_names`.
fn collect_rule_names(g: &GrammarDef) -> (r: Vec<String>)
    ensures
        strings_view(r@) == rule_names(g@),
{
    let ghost names = rule_names(g@);
    let ghost nl = g.lexical_rules@.len() as int;
    let mut out: Vec<String> = Vec::new();
    let mut i: usize = 0;
    assert(strings_view(out@) =~= names.take(0));
    while i < g.lexical_rules.len()
        invariant
            0 <= i <= g.lexical_rules@.len(),
            names == rule_names(g@),
            nl == g.lexical_rules@.len(),
            strings_view(out@) == names.take(i as int),
        decreases g.lexical_rules@.len() - i,
    {
        let ghost before = strings_view(out@);
        let x = string_of(g.lexical_rules[i].head.name.as_str());
        let ghost xv = x@;
        out.push(x);
        assert(strings_view(out@) =~= before.push(xv));
        assert(names[i as int] == g.lexical_rules@[i as int].head.name@);
        assert(names.take(i + 1) =~= names.take(i as int).push(names[i as int]));
        i += 1;
    }
    let mut j: usize = 0;
    while j < g.syntax_rules.len()
        invariant
            0 <= j <= g.syntax_rules@.len(),
            names == rule_names(g@),
            nl == g.lexical_rules@.len(),
            names.len() == nl + g.syntax_rules@.len(),
            strings_view(out@) == names.take(nl + j),
        decreases g.syntax_rules@.len() - j,
    {
        let ghost before = strings_view(out@);
        let x = string_of(g.syntax_rules[j].head.name.as_str());
        let ghost xv = x@;
        out.push(x);
        assert(strings_view(out@) =~= before.push(xv));
        assert(names[nl + j] == g.syntax_rules@[j as int].head.name@);
        assert(names.take(nl + j + 1) =~= names.take(nl + j).push(names[nl + j]));
        j += 1;
    }
    assert(names.take(nl + j) =~= names);
    out
}

/// Reports references that resolution left without a definition, and
/// restriction operands of lexical rules (resolved only later) that name no
/// rule.
fn check_unresolved_identifiers(g: &GrammarDef, errors: &mut Vec<String>)
    ensures
        strings_view(final(errors)@) == strings_view(old(errors)@) + unresolved_identifier_errors(g@),
{
    let ghost start = strings_view(errors@);
    let ids = g.for_each_identifier();
    let ghost iv = identifier_refs_view(ids@);
    let mut i: usize = 0;
    assert(start + unresolved_errors(iv.take(0)) =~= start);
    while i < ids.len()
        invariant
            0 <= i <= ids@.len(),
            iv == identifier_refs_view(ids@),
            iv.len() == ids@.len(),
            strings_view(errors@) == start + unresolved_errors(iv.take(i as int)),
        decreases ids@.len() - i,
    {
        assert(iv.take(i + 1).drop_last() =~= iv.take(i as int));
        assert(iv.take(i + 1).last() == ids@[i as int]@);
        if ids[i].definition.is_none() {
            push_unresolved(ids[i].name.as_str(), errors);
        }
        i += 1;
    }
    assert(iv.take(i as int) =~= iv);
    let ghost mid = strings_view(errors@);
    let defined = collect_rule_names(g);
    let ghost lv = g@.lexical_rules;
    let mut k: usize = 0;
    assert(mid + undefined_restriction_errors(rule_names(g@), lv.take(0)) =~= mid);
    while k < g.lexical_rules.len()
        invariant
            0 <= k <= g.lexical_rules@.len(),
            lv == g@.lexical_rules,
            lv.len() == g.lexical_rules@.len(),
            strings_view(defined@) == rule_names(g@),
            strings_view(errors@) == mid + undefined_restriction_errors(rule_names(g@), lv.take(k as int)),
        decreases g.lexical_rules@.len() - k,
    {
        let ops = lexical_restrictions(&g.lexical_rules[k]);
        let ghost ov = restriction_refs_view(ops@);
        let ghost before = strings_view(errors@);
        let mut q: usize = 0;
        assert(before + undefined_operands(rule_names(g@), ov.take(0)) =~= before);
        while q < ops.len()
            invariant
                0 <= q <= ops@.len(),
                ov == restriction_refs_view(ops@),
                ov.len() == ops@.len(),
                strings_view(defined@) == rule_names(g@),
                strings_view(errors@) == before + undefined_operands(rule_names(g@), ov.take(q as int)),
            decreases ops@.len() - q,
        {
            assert(ov.take(q + 1).drop_last() =~= ov.take(q as int));
            assert(ov.take(q + 1).last() == (ops@[q as int].0, ops@[q as int].1@));
            let (_, identifier) = ops[q];
            if !strings_contain(&defined, identifier.name.as_str()) {
                push_unresolved(identifier.name.as_str(), errors);
            }
            q += 1;
        }
        assert(ov.take(q as int) =~= ov);
        proof {
            assert(lv.take(k + 1).drop_last() =~= lv.take(k as int));
            assert(lv.take(k + 1).last() == g.lexical_rules@[k as int]@);
        }
        k += 1;
    }
    assert(lv.take(k as int) =~= lv);
}

// ---------------------------------------------------------------------------
// Checks over every symbol

/// The errors of `f` for each of `xs`, one after the other.
pub open spec fn concat_map<A>(xs: Seq<A>, f: spec_fn(A) -> Seq<Seq<char>>) -> Seq<Seq<char>>
    decreases xs.len(),
{
    if xs.len() == 0 {
        Seq::empty()
    } else {
        concat_map(xs.drop_last(), f) + f(xs.last())
    }
}

proof fn lemma_concat_map_step<A>(xs: Seq<A>, f: spec_fn(A) -> Seq<Seq<char>>, i: int)
    requires
        0 <= i < xs.len(),
    ensures
        concat_map(xs.take(i + 1), f) == concat_map(xs.take(i), f) + f(xs[i]),
{
    assert(xs.take(i + 1).drop_last() =~= xs.take(i));
    assert(xs.take(i + 1).last() == xs[i]);
}

pub open spec fn nested_label_message(label: Seq<char>, inner: Seq<char>) -> Seq<char> {
    "labels cannot be nested directly: `"@ + label + ":"@ + inner + ":` applies two labels to one symbol"@
}

/// The error of a label put directly on a labeled symbol.
pub open spec fn nested_label_errors(s: SpecSymbol) -> Seq<Seq<char>> {
    match s {
        SpecSymbol::Labeled { label, symbol } => match *symbol {
            SpecSymbol::Labeled { label: inner, .. } => seq![nested_label_message(label, inner)],
            _ => Seq::empty(),
        },
        _ => Seq::empty(),
    }
}

/// Reports a label nested directly inside another one (`outer:inner:A`).
fn check_one_label_per_symbol(g: &GrammarDef, errors: &mut Vec<String>)
    ensures
        strings_view(final(errors)@) == strings_view(old(errors)@)
            + concat_map(rules_preorder(g@.syntax_rules), |s: SpecSymbol| nested_label_errors(s)),
{
    let ghost start = strings_view(errors@);
    let symbols = g.for_each_symbol();
    let ghost sv = symbol_refs_view(symbols@);
    let mut i: usize = 0;
    assert(start + concat_map(sv.take(0), |s: SpecSymbol| nested_label_errors(s)) =~= start);
    while i < symbols.len()
        invariant
            0 <= i <= symbols@.len(),
            sv == symbol_refs_view(symbols@),
            sv.len() == symbols@.len(),
            sv == rules_preorder(g@.syntax_rules),
            strings_view(errors@) == start + concat_map(sv.take(i as int), |s: SpecSymbol| nested_label_errors(s)),
        decreases symbols@.len() - i,
    {
        proof {
            lemma_concat_map_step(sv, |s: SpecSymbol| nested_label_errors(s), i as int);
            reveal_with_fuel(crate::grammar::symbols::symbol_view, 2);
        }
        assert(sv[i as int] == symbols@[i as int]@);
        let ghost before = strings_view(errors@);
        match symbols[i] {
            Symbol::Labeled { label, symbol: inner } => match &**inner {
                Symbol::Labeled { label: inner_label, .. } => {
                    let mut m = String::new();
                    push_str(&mut m, "labels cannot be nested directly: `");
                    push_str(&mut m, label.as_str());
                    push_str(&mut m, ":");
                    push_str(&mut m, inner_label.as_str());
                    push_str(&mut m, ":` applies two labels to one symbol");
                    let ghost mv = m@;
                    errors.push(m);
                    assert(mv =~= nested_label_message(label@, inner_label@));
                    assert(strings_view(errors@) =~= before + seq![mv]);
                    assert(nested_label_errors(sv[i as int]) == seq![mv]);
                },
                _ => {
                    assert(before + Seq::<Seq<char>>::empty() =~= before);
                    assert(nested_label_errors(sv[i as int]) == Seq::<Seq<char>>::empty());
                },
            },
            _ => {
                assert(before + Seq::<Seq<char>>::empty() =~= before);
                assert(nested_label_errors(sv[i as int]) == Seq::<Seq<char>>::empty());
            },
        }
        assert(strings_view(errors@) =~= start + concat_map(sv.take(i + 1), |s: SpecSymbol| nested_label_errors(s)));
        i += 1;
    }
    assert(sv.take(i as int) =~= sv);
}

// ---------------------------------------------------------------------------
// Exclusions

/// The index of the syntax rule named `name` (the last one, if several), or
/// -1.
pub open spec fn syntax_rule_index(rules: Seq<SpecSyntaxRule>, name: Seq<char>) -> int
    decreases rules.len(),
{
    if rules.len() == 0 {
        -1
    } else if rules.last().head.name == name {
        rules.len() - 1
    } else {
        syntax_rule_index(rules.drop_last(), name)
    }
}

proof fn lemma_syntax_rule_index(rules: Seq<SpecSyntaxRule>, name: Seq<char>)
    ensures
        -1 <= syntax_rule_index(rules, name) < rules.len(),
    decreases rules.len(),
{
    if rules.len() > 0 {
        lemma_syntax_rule_index(rules.drop_last(), name);
    }
}

/// The index of the syntax rule named `name`, the last one if several.
fn find_syntax_rule(rules: &Vec<SyntaxRule>, name: &str) -> (r: Option<usize>)
    ensures
        match r {
            Some(k) => k < rules@.len() && k as int == syntax_rule_index(syntax_rules_view(rules@), name@),
            None => syntax_rule_index(syntax_rules_view(rules@), name@) < 0,
        },
{
    let ghost rv = syntax_rules_view(rules@);
    let mut k: usize = rules.len();
    assert(rv.take(k as int) =~= rv);
    while k > 0
        invariant
            0 <= k <= rules@.len(),
            rv == syntax_rules_view(rules@),
            rv.len() == rules@.len(),
            syntax_rule_index(rv, name@) == syntax_rule_index(rv.take(k as int), name@),
        decreases k,
    {
        assert(rv.take(k as int).drop_last() =~= rv.take(k - 1));
        assert(rv.take(k as int).last() == rules@[k - 1]@);
        if crate::text::str_eq(rules[k - 1].head.name.as_str(), name) {
            return Some(k - 1);
        }
        k -= 1;
    }
    None
}

/// Whether an alternative of `rule` is labeled `label`.
pub open spec fn has_alternative_label(rule: SpecSyntaxRule, label: Seq<char>) -> bool {
    exists|k: int| 0 <= k < rule_alternatives(rule.priority_levels).len()
        && #[trigger] rule_alternatives(rule.priority_levels)[k].label == Some(label)
}

pub open spec fn exclusion_target_message(labels: Seq<Seq<char>>) -> Seq<char> {
    "exclusion `"@ + labels_text(labels) + "` only applies to a syntax rule reference"@
}

pub open spec fn exclusion_lexical_message(labels: Seq<Seq<char>>, name: Seq<char>) -> Seq<char> {
    "exclusion `"@ + labels_text(labels) + "` only applies to a syntax rule reference, and `"@ + name
        + "` is a lexical rule"@
}

pub open spec fn unresolved_label_message(label: Seq<char>) -> Seq<char> {
    "unresolved label `"@ + label + "`"@
}

/// The error of an exclusion label that names no alternative of `rule`.
pub open spec fn label_errors(rule: SpecSyntaxRule, label: Seq<char>) -> Seq<Seq<char>> {
    if has_alternative_label(rule, label) { Seq::empty() } else { seq![unresolved_label_message(label)] }
}

/// The errors of an exclusion: it must apply to a reference to a syntax rule
/// (a name that resolution left unresolved is reported elsewhere), and each
/// label must name one of that rule's alternatives.
pub open spec fn exclusion_errors(rules: Seq<SpecSyntaxRule>, s: SpecSymbol) -> Seq<Seq<char>> {
    match s {
        SpecSymbol::Exclude { symbol, labels } => match spec_as_identifier(*symbol) {
            None => seq![exclusion_target_message(labels)],
            Some(id) => {
                let k = syntax_rule_index(rules, id.name);
                if k < 0 {
                    if id.definition is Some { seq![exclusion_lexical_message(labels, id.name)] } else { Seq::empty() }
                } else {
                    concat_map(labels, |l: Seq<char>| label_errors(rules[k], l))
                }
            },
        },
        _ => Seq::empty(),
    }
}

/// The errors of one exclusion; see `exclusion_errors`.
fn check_exclusion(g: &GrammarDef, symbol: &Symbol, errors: &mut Vec<String>)
    ensures
        strings_view(final(errors)@) == strings_view(old(errors)@) + exclusion_errors(g@.syntax_rules, symbol@),
{
    let ghost start = strings_view(errors@);
    let ghost rv = g@.syntax_rules;
    match symbol {
        Symbol::Exclude { symbol: inner, labels } => {
            match inner.as_identifier() {
                None => {
                    let mut m = String::new();
                    push_str(&mut m, "exclusion `");
                    let text = render_labels(labels);
                    push_str(&mut m, text.as_str());
                    push_str(&mut m, "` only applies to a syntax rule reference");
                    let ghost mv = m@;
                    errors.push(m);
                    assert(mv =~= exclusion_target_message(strings_view(labels@)));
                    assert(strings_view(errors@) =~= start + seq![mv]);
                },
                Some(identifier) => {
                    match find_syntax_rule(&g.syntax_rules, identifier.name.as_str()) {
                        None => {
                            if identifier.definition.is_some() {
                                let mut m = String::new();
                                push_str(&mut m, "exclusion `");
                                let text = render_labels(labels);
                                push_str(&mut m, text.as_str());
                                push_str(&mut m, "` only applies to a syntax rule reference, and `");
                                push_str(&mut m, identifier.name.as_str());
                                push_str(&mut m, "` is a lexical rule");
                                let ghost mv = m@;
                                errors.push(m);
                                assert(mv =~= exclusion_lexical_message(strings_view(labels@), identifier.name@));
                                assert(strings_view(errors@) =~= start + seq![mv]);
                            } else {
                                assert(start + Seq::<Seq<char>>::empty() =~= start);
                            }
                        },
                        Some(k) => {
                            let rule = &g.syntax_rules[k];
                            assert(rv[k as int] == rule@);
                            let ghost lv = strings_view(labels@);
                            let mut i: usize = 0;
                            assert(start + concat_map(lv.take(0), |l: Seq<char>| label_errors(rv[k as int], l)) =~= start);
                            while i < labels.len()
                                invariant
                                    0 <= i <= labels@.len(),
                                    lv == strings_view(labels@),
                                    lv.len() == labels@.len(),
                                    rv[k as int] == rule@,
                                    strings_view(errors@) == start + concat_map(lv.take(i as int), |l: Seq<char>| label_errors(rv[k as int], l)),
                                decreases labels@.len() - i,
                            {
                                proof { lemma_concat_map_step(lv, |l: Seq<char>| label_errors(rv[k as int], l), i as int); }
                                assert(lv[i as int] == labels@[i as int]@);
                                let ghost before = strings_view(errors@);
                                if !rule.has_label(labels[i].as_str()) {
                                    let mut m = String::new();
                                    push_str(&mut m, "unresolved label `");
                                    push_str(&mut m, labels[i].as_str());
                                    push_str(&mut m, "`");
                                    let ghost mv = m@;
                                    errors.push(m);
                                    assert(mv =~= unresolved_label_message(labels@[i as int]@));
                                    assert(strings_view(errors@) =~= before + seq![mv]);
                                } else {
                                    assert(before + Seq::<Seq<char>>::empty() =~= before);
                                }
                                i += 1;
                            }
                            assert(lv.take(i as int) =~= lv);
                        },
                    }
                },
            }
        },
        _ => {
            assert(start + Seq::<Seq<char>>::empty() =~= start);
        },
    }
}

/// Checks each exclusion (`A!label`); see `exclusion_errors`.
fn check_exclusions(g: &GrammarDef, errors: &mut Vec<String>)
    ensures
        strings_view(final(errors)@) == strings_view(old(errors)@)
            + concat_map(rules_preorder(g@.syntax_rules), |s: SpecSymbol| exclusion_errors(g@.syntax_rules, s)),
{
    let ghost start = strings_view(errors@);
    let ghost rv = g@.syntax_rules;
    let symbols = g.for_each_symbol();
    let ghost sv = symbol_refs_view(symbols@);
    let mut i: usize = 0;
    assert(start + concat_map(sv.take(0), |s: SpecSymbol| exclusion_errors(rv, s)) =~= start);
    while i < symbols.len()
        invariant
            0 <= i <= symbols@.len(),
            sv == symbol_refs_view(symbols@),
            sv.len() == symbols@.len(),
            sv == rules_preorder(g@.syntax_rules),
            rv == g@.syntax_rules,
            strings_view(errors@) == start + concat_map(sv.take(i as int), |s: SpecSymbol| exclusion_errors(rv, s)),
        decreases symbols@.len() - i,
    {
        proof { lemma_concat_map_step(sv, |s: SpecSymbol| exclusion_errors(rv, s), i as int); }
        assert(sv[i as int] == symbols@[i as int]@);
        let ghost before = strings_view(errors@);
        check_exclusion(g, symbols[i], errors);
        assert(strings_view(errors@) =~= start + concat_map(sv.take(i + 1), |s: SpecSymbol| exclusion_errors(rv, s)));
        i += 1;
    }
    assert(sv.take(i as int) =~= sv);
}

// ---------------------------------------------------------------------------
// Restriction operands

/// Whether a lexical rule has restrictions of its own.
pub open spec fn has_restrictions(rule: SpecLexicalRule) -> bool {
    rule.except.len() > 0 || rule.follow_restriction.len() > 0 || rule.precede_restriction is Some
}

pub open spec fn syntax_operand_message(kind: RestrictionKind, name: Seq<char>) -> Seq<char> {
    kind_name(kind) + " `"@ + name + "` must name a lexical rule, not a syntax rule"@
}

pub open spec fn restricted_except_message(name: Seq<char>) -> Seq<char> {
    "except `"@ + name + "` must name a lexical rule with no restrictions of its own"@
}

/// The errors of one restriction operand: it must name a lexical rule, and
/// the operand of `\` one without restrictions of its own.
pub open spec fn target_errors(lexical: Seq<SpecLexicalRule>, kind: RestrictionKind, id: SpecIdentifier) -> Seq<Seq<char>> {
    let k = rule_index(lexical, id.name);
    if k < 0 {
        seq![syntax_operand_message(kind, id.name)]
    } else if kind == RestrictionKind::Except && has_restrictions(lexical[k]) {
        seq![restricted_except_message(id.name)]
    } else {
        Seq::empty()
    }
}

/// The errors of the resolved operands among `ids` (an unresolved one is
/// reported elsewhere).
pub open spec fn resolved_operand_errors(lexical: Seq<SpecLexicalRule>, kind: RestrictionKind, ids: Seq<SpecIdentifier>) -> Seq<Seq<char>> {
    concat_map(ids, |id: SpecIdentifier| if id.definition is Some { target_errors(lexical, kind, id) } else { Seq::empty() })
}

/// The errors of the operands of a restricted symbol: `\`, `!>>`, `!>>>`,
/// then `!<<`.
pub open spec fn symbol_target_errors(lexical: Seq<SpecLexicalRule>, s: SpecSymbol) -> Seq<Seq<char>> {
    match s {
        SpecSymbol::Restricted { restrictions, .. } => resolved_operand_errors(lexical, RestrictionKind::Except, restrictions.excepts)
            + resolved_operand_errors(lexical, RestrictionKind::Follow, restrictions.follow)
            + resolved_operand_errors(lexical, RestrictionKind::LayoutAwareFollow, restrictions.layout_aware_follow)
            + resolved_operand_errors(lexical, RestrictionKind::Precede, restrictions.precede),
        _ => Seq::empty(),
    }
}

/// The errors of a lexical rule's own operands that name a rule (a missing
/// name is reported elsewhere).
pub open spec fn lexical_target_errors(names: Seq<Seq<char>>, lexical: Seq<SpecLexicalRule>, rule: SpecLexicalRule) -> Seq<Seq<char>> {
    concat_map(lexical_restrictions_view(rule), |op: (RestrictionKind, SpecIdentifier)|
        if names.contains(op.1.name) { target_errors(lexical, op.0, op.1) } else { Seq::empty() })
}

/// The errors of every restriction operand: those on symbols, then those of
/// the lexical rules.
pub open spec fn restriction_target_errors(g: SpecGrammarDef) -> Seq<Seq<char>> {
    concat_map(rules_preorder(g.syntax_rules), |s: SpecSymbol| symbol_target_errors(g.lexical_rules, s))
        + concat_map(g.lexical_rules, |r: SpecLexicalRule| lexical_target_errors(rule_names(g), g.lexical_rules, r))
}

/// Checks one restriction operand against the rule it names; see
/// `target_errors`.
fn check_restriction_target(kind: RestrictionKind, identifier: &Identifier, lexical: &Vec<LexicalRule>, errors: &mut Vec<String>)
    ensures
        strings_view(final(errors)@) == strings_view(old(errors)@) + target_errors(lexical_rules_view(lexical@), kind, identifier@),
{
    let ghost start = strings_view(errors@);
    let ghost lv = lexical_rules_view(lexical@);
    match find_rule(lexical, identifier.name.as_str()) {
        None => {
            let mut m = String::new();
            push_str(&mut m, kind.name());
            push_str(&mut m, " `");
            push_str(&mut m, identifier.name.as_str());
            push_str(&mut m, "` must name a lexical rule, not a syntax rule");
            let ghost mv = m@;
            errors.push(m);
            assert(mv =~= syntax_operand_message(kind, identifier.name@));
            assert(strings_view(errors@) =~= start + seq![mv]);
        },
        Some(k) => {
            proof { lemma_rule_index(lv, identifier.name@); }
            let rule = &lexical[k];
            assert(lv[k as int] == rule@);
            let restricted = rule.except.len() > 0 || rule.follow_restriction.len() > 0 || rule.precede_restriction.is_some();
            if kind == RestrictionKind::Except && restricted {
                let mut m = String::new();
                push_str(&mut m, "except `");
                push_str(&mut m, identifier.name.as_str());
                push_str(&mut m, "` must name a lexical rule with no restrictions of its own");
                let ghost mv = m@;
                errors.push(m);
                assert(mv =~= restricted_except_message(identifier.name@));
                assert(strings_view(errors@) =~= start + seq![mv]);
            } else {
                assert(start + Seq::<Seq<char>>::empty() =~= start);
            }
        },
    }
}

/// Checks the resolved operands among `ids`; see `resolved_operand_errors`.
fn check_resolved_operands(kind: RestrictionKind, ids: &Vec<Identifier>, lexical: &Vec<LexicalRule>, errors: &mut Vec<String>)
    ensures
        strings_view(final(errors)@) == strings_view(old(errors)@)
            + resolved_operand_errors(lexical_rules_view(lexical@), kind, identifiers_view(ids@)),
{
    let ghost start = strings_view(errors@);
    let ghost lv = lexical_rules_view(lexical@);
    let ghost iv = identifiers_view(ids@);
    let mut i: usize = 0;
    assert(start + concat_map(iv.take(0), |id: SpecIdentifier| if id.definition is Some { target_errors(lv, kind, id) } else { Seq::<Seq<char>>::empty() }) =~= start);
    while i < ids.len()
        invariant
            0 <= i <= ids@.len(),
            lv == lexical_rules_view(lexical@),
            iv == identifiers_view(ids@),
            iv.len() == ids@.len(),
            strings_view(errors@) == start + concat_map(iv.take(i as int),
                |id: SpecIdentifier| if id.definition is Some { target_errors(lv, kind, id) } else { Seq::<Seq<char>>::empty() }),
        decreases ids@.len() - i,
    {
        proof {
            lemma_concat_map_step(iv, |id: SpecIdentifier| if id.definition is Some { target_errors(lv, kind, id) } else { Seq::<Seq<char>>::empty() }, i as int);
        }
        assert(iv[i as int] == ids@[i as int]@);
        let ghost before = strings_view(errors@);
        if ids[i].definition.is_some() {
            check_restriction_target(kind, &ids[i], lexical, errors);
        } else {
            assert(before + Seq::<Seq<char>>::empty() =~= before);
        }
        assert(strings_view(errors@) =~= start + concat_map(iv.take(i + 1),
            |id: SpecIdentifier| if id.definition is Some { target_errors(lv, kind, id) } else { Seq::<Seq<char>>::empty() }));
        i += 1;
    }
    assert(iv.take(i as int) =~= iv);
}

/// Reports restriction operands that name a syntax rule, and `\` operands
/// that carry restrictions of their own; see `restriction_target_errors`.
fn check_restriction_targets(g: &GrammarDef, errors: &mut Vec<String>)
    ensures
        strings_view(final(errors)@) == strings_view(old(errors)@) + restriction_target_errors(g@),
{
    let ghost start = strings_view(errors@);
    let ghost lv = g@.lexical_rules;
    let symbols = g.for_each_symbol();
    let ghost sv = symbol_refs_view(symbols@);
    let mut i: usize = 0;
    assert(start + concat_map(sv.take(0), |s: SpecSymbol| symbol_target_errors(lv, s)) =~= start);
    while i < symbols.len()
        invariant
            0 <= i <= symbols@.len(),
            sv == symbol_refs_view(symbols@),
            sv.len() == symbols@.len(),
            sv == rules_preorder(g@.syntax_rules),
            lv == g@.lexical_rules,
            lv == lexical_rules_view(g.lexical_rules@),
            strings_view(errors@) == start + concat_map(sv.take(i as int), |s: SpecSymbol| symbol_target_errors(lv, s)),
        decreases symbols@.len() - i,
    {
        proof { lemma_concat_map_step(sv, |s: SpecSymbol| symbol_target_errors(lv, s), i as int); }
        assert(sv[i as int] == symbols@[i as int]@);
        let ghost before = strings_view(errors@);
        match symbols[i] {
            Symbol::Restricted { restrictions, .. } => {
                check_resolved_operands(RestrictionKind::Except, &restrictions.excepts, &g.lexical_rules, errors);
                check_resolved_operands(RestrictionKind::Follow, &restrictions.follow, &g.lexical_rules, errors);
                check_resolved_operands(RestrictionKind::LayoutAwareFollow, &restrictions.layout_aware_follow, &g.lexical_rules, errors);
                check_resolved_operands(RestrictionKind::Precede, &restrictions.precede, &g.lexical_rules, errors);
            },
            _ => {
                assert(before + Seq::<Seq<char>>::empty() =~= before);
            },
        }
        assert(strings_view(errors@) =~= start + concat_map(sv.take(i + 1), |s: SpecSymbol| symbol_target_errors(lv, s)));
        i += 1;
    }
    assert(sv.take(i as int) =~= sv);
    let ghost mid = strings_view(errors@);
    let defined = collect_rule_names(g);
    let ghost names = rule_names(g@);
    let mut k: usize = 0;
    assert(mid + concat_map(lv.take(0), |r: SpecLexicalRule| lexical_target_errors(names, lv, r)) =~= mid);
    while k < g.lexical_rules.len()
        invariant
            0 <= k <= g.lexical_rules@.len(),
            lv == g@.lexical_rules,
            lv == lexical_rules_view(g.lexical_rules@),
            lv.len() == g.lexical_rules@.len(),
            names == rule_names(g@),
            strings_view(defined@) == names,
            strings_view(errors@) == mid + concat_map(lv.take(k as int), |r: SpecLexicalRule| lexical_target_errors(names, lv, r)),
        decreases g.lexical_rules@.len() - k,
    {
        proof { lemma_concat_map_step(lv, |r: SpecLexicalRule| lexical_target_errors(names, lv, r), k as int); }
        let ops = lexical_restrictions(&g.lexical_rules[k]);
        let ghost ov = restriction_refs_view(ops@);
        assert(ov == lexical_restrictions_view(lv[k as int]));
        let ghost before = strings_view(errors@);
        let mut q: usize = 0;
        assert(before + concat_map(ov.take(0), |op: (RestrictionKind, SpecIdentifier)|
            if names.contains(op.1.name) { target_errors(lv, op.0, op.1) } else { Seq::<Seq<char>>::empty() }) =~= before);
        while q < ops.len()
            invariant
                0 <= q <= ops@.len(),
                ov == restriction_refs_view(ops@),
                ov.len() == ops@.len(),
                lv == lexical_rules_view(g.lexical_rules@),
                strings_view(defined@) == names,
                strings_view(errors@) == before + concat_map(ov.take(q as int), |op: (RestrictionKind, SpecIdentifier)|
                    if names.contains(op.1.name) { target_errors(lv, op.0, op.1) } else { Seq::<Seq<char>>::empty() }),
            decreases ops@.len() - q,
        {
            proof {
                lemma_concat_map_step(ov, |op: (RestrictionKind, SpecIdentifier)|
                    if names.contains(op.1.name) { target_errors(lv, op.0, op.1) } else { Seq::<Seq<char>>::empty() }, q as int);
            }
            assert(ov[q as int] == (ops@[q as int].0, ops@[q as int].1@));
            let (kind, identifier) = ops[q];
            let ghost b2 = strings_view(errors@);
            if strings_contain(&defined, identifier.name.as_str()) {
                check_restriction_target(kind, identifier, &g.lexical_rules, errors);
            } else {
                assert(b2 + Seq::<Seq<char>>::empty() =~= b2);
            }
            assert(strings_view(errors@) =~= before + concat_map(ov.take(q + 1), |op: (RestrictionKind, SpecIdentifier)|
                if names.contains(op.1.name) { target_errors(lv, op.0, op.1) } else { Seq::<Seq<char>>::empty() }));
            q += 1;
        }
        assert(ov.take(q as int) =~= ov);
        assert(strings_view(errors@) =~= mid + concat_map(lv.take(k + 1), |r: SpecLexicalRule| lexical_target_errors(names, lv, r)));
        k += 1;
    }
    assert(lv.take(k as int) =~= lv);
}

// ---------------------------------------------------------------------------
// The layout rule

pub open spec fn layout_identifier_message(name: Seq<char>) -> Seq<char> {
    "`"@ + name + "` cannot be both the layout rule and an identifier rule"@
}

/// The errors of identifier rules that are also the layout rule (a plain
/// reference).
pub open spec fn layout_identifier_errors(g: SpecGrammarDef) -> Seq<Seq<char>> {
    match g.layout {
        Some(SpecSymbol::Identifier(layout)) => concat_map(g.identifier_rules, |id: SpecIdentifier|
            if id.name == layout.name { seq![layout_identifier_message(id.name)] } else { Seq::empty() }),
        _ => Seq::empty(),
    }
}

/// Reports a rule annotated both `@Layout` and `@Identifier`.
fn check_layout_is_not_an_identifier_rule(g: &GrammarDef, errors: &mut Vec<String>)
    ensures
        strings_view(final(errors)@) == strings_view(old(errors)@) + layout_identifier_errors(g@),
{
    let ghost start = strings_view(errors@);
    match &g.layout {
        Some(Symbol::Identifier(layout)) => {
            let ghost iv = identifiers_view(g.identifier_rules@);
            let ghost ln = layout.name@;
            let mut i: usize = 0;
            assert(start + concat_map(iv.take(0), |id: SpecIdentifier|
                if id.name == ln { seq![layout_identifier_message(id.name)] } else { Seq::<Seq<char>>::empty() }) =~= start);
            while i < g.identifier_rules.len()
                invariant
                    0 <= i <= g.identifier_rules@.len(),
                    iv == identifiers_view(g.identifier_rules@),
                    iv.len() == g.identifier_rules@.len(),
                    ln == layout.name@,
                    strings_view(errors@) == start + concat_map(iv.take(i as int), |id: SpecIdentifier|
                        if id.name == ln { seq![layout_identifier_message(id.name)] } else { Seq::<Seq<char>>::empty() }),
                decreases g.identifier_rules@.len() - i,
            {
                proof {
                    lemma_concat_map_step(iv, |id: SpecIdentifier|
                        if id.name == ln { seq![layout_identifier_message(id.name)] } else { Seq::<Seq<char>>::empty() }, i as int);
                }
                let identifier = &g.identifier_rules[i];
                assert(iv[i as int] == identifier@);
                let ghost before = strings_view(errors@);
                if crate::text::str_eq(identifier.name.as_str(), layout.name.as_str()) {
                    let mut m = String::new();
                    push_str(&mut m, "`");
                    push_str(&mut m, identifier.name.as_str());
                    push_str(&mut m, "` cannot be both the layout rule and an identifier rule");
                    let ghost mv = m@;
                    errors.push(m);
                    assert(mv =~= layout_identifier_message(identifier.name@));
                    assert(strings_view(errors@) =~= before + seq![mv]);
                } else {
                    assert(before + Seq::<Seq<char>>::empty() =~= before);
                }
                i += 1;
            }
            assert(iv.take(i as int) =~= iv);
        },
        _ => {
            assert(start + Seq::<Seq<char>>::empty() =~= start);
        },
    }
}

// ---------------------------------------------------------------------------
// Names as the generated code spells them

/// The value of a string of decimal digits.
pub open spec fn digits_value(d: Seq<char>) -> nat
    decreases d.len(),
{
    if d.len() == 0 {
        0
    } else {
        digits_value(d.drop_last()) * 10 + ((d.last() as int - '0' as int) as nat)
    }
}

/// Whether every character is a decimal digit.
pub open spec fn all_digits(d: Seq<char>) -> bool {
    forall|i: int| 0 <= i < d.len() ==> '0' <= #[trigger] d[i] <= '9'
}

/// Whether `str::parse::<usize>` accepts `s`: an optional `+`, then one or
/// more decimal digits whose value fits in a `usize`.
pub open spec fn usize_text(s: Seq<char>) -> bool {
    let d = if s.len() > 0 && s[0] == '+' { s.subrange(1, s.len() as int) } else { s };
    d.len() > 0 && all_digits(d) && digits_value(d) <= usize::MAX
}

proof fn lemma_digits_value_prefix(d: Seq<char>, j: int)
    requires
        0 <= j <= d.len(),
        all_digits(d),
    ensures
        digits_value(d.take(j)) <= digits_value(d),
    decreases d.len(),
{
    if j < d.len() {
        assert(all_digits(d.drop_last())) by {
            assert forall|i: int| 0 <= i < d.drop_last().len() implies '0' <= #[trigger] d.drop_last()[i] <= '9' by {
                assert(d.drop_last()[i] == d[i]);
            }
        }
        lemma_digits_value_prefix(d.drop_last(), j);
        assert(d.drop_last().take(j) =~= d.take(j));
    } else {
        assert(d.take(j) =~= d);
    }
}

/// Whether `s` parses as a `usize`; see `usize_text`.
fn parses_as_usize(s: &str) -> (b: bool)
    ensures
        b == usize_text(s@),
{
    let n = s.unicode_len();
    let start: usize = if n > 0 && s.get_char(0) == '+' { 1 } else { 0 };
    let ghost d = if s@.len() > 0 && s@[0] == '+' { s@.subrange(1, s@.len() as int) } else { s@ };
    assert(d =~= s@.subrange(start as int, n as int));
    if start == n {
        return false;
    }
    let mut value: usize = 0;
    let mut i: usize = start;
    assert(d.take(0) =~= Seq::<char>::empty());
    while i < n
        invariant
            start <= i <= n,
            n == s@.len(),
            d =~= s@.subrange(start as int, n as int),
            d == (if s@.len() > 0 && s@[0] == '+' { s@.subrange(1, s@.len() as int) } else { s@ }),
            forall|k: int| 0 <= k < i - start ==> '0' <= #[trigger] d[k] <= '9',
            value as nat == digits_value(d.take(i - start)),
        decreases n - i,
    {
        let c = s.get_char(i);
        assert(d[i - start] == c);
        if c < '0' || c > '9' {
            assert(!('0' <= d[i - start] <= '9'));
            assert(!all_digits(d));
            return false;
        }
        let digit = ((c as u32) - 48) as usize;
        assert(digit as int == c as int - '0' as int);
        let ghost t = d.take(i - start + 1);
        assert(t.drop_last() =~= d.take(i - start));
        assert(t.last() == c);
        match value.checked_mul(10) {
            None => {
                proof {
                    assert(value * 10 > usize::MAX);
                    assert(digits_value(t) == digits_value(t.drop_last()) * 10 + ((t.last() as int - '0' as int) as nat));
                    if all_digits(d) {
                        lemma_digits_value_prefix(d, i - start + 1);
                    }
                }
                return false;
            },
            Some(tens) => match tens.checked_add(digit) {
                None => {
                    proof {
                        if all_digits(d) {
                            lemma_digits_value_prefix(d, i - start + 1);
                        }
                    }
                    return false;
                },
                Some(next) => {
                    value = next;
                },
            },
        }
        i += 1;
    }
    assert(d.take(n - start) =~= d);
    true
}

/// The upper snake case of grammar-data constants; see `constant_name`.
pub open spec fn constant_of(name: Seq<char>) -> Seq<char> {
    str_uppercase(snake_case(name))
}

/// The value last paired with `key`, if any.
pub open spec fn pair_lookup(pairs: Seq<(Seq<char>, Seq<char>)>, key: Seq<char>) -> Option<Seq<char>>
    decreases pairs.len(),
{
    if pairs.len() == 0 {
        None
    } else if pairs.last().0 == key {
        Some(pairs.last().1)
    } else {
        pair_lookup(pairs.drop_last(), key)
    }
}

/// Pairs of strings as views.
pub open spec fn pairs_view(v: Seq<(String, String)>) -> Seq<(Seq<char>, Seq<char>)> {
    v.map_values(|p: (String, String)| (p.0@, p.1@))
}

/// The value last paired with `key`; see `pair_lookup`.
fn find_pair<'a>(pairs: &'a Vec<(String, String)>, key: &str) -> (r: Option<&'a String>)
    ensures
        match r {
            Some(v) => pair_lookup(pairs_view(pairs@), key@) == Some(v@),
            None => pair_lookup(pairs_view(pairs@), key@) is None,
        },
{
    let ghost pv = pairs_view(pairs@);
    let mut k: usize = pairs.len();
    assert(pv.take(k as int) =~= pv);
    while k > 0
        invariant
            0 <= k <= pairs@.len(),
            pv == pairs_view(pairs@),
            pv.len() == pairs@.len(),
            pair_lookup(pv, key@) == pair_lookup(pv.take(k as int), key@),
        decreases k,
    {
        assert(pv.take(k as int).drop_last() =~= pv.take(k - 1));
        assert(pv.take(k as int).last() == (pairs@[k - 1].0@, pairs@[k - 1].1@));
        if crate::text::str_eq(pairs[k - 1].0.as_str(), key) {
            return Some(&pairs[k - 1].1);
        }
        k -= 1;
    }
    None
}

fn push_pair(pairs: &mut Vec<(String, String)>, a: &str, b: &str)
    ensures
        pairs_view(final(pairs)@) == pairs_view(old(pairs)@).push((a@, b@)),
{
    let ghost before = pairs_view(pairs@);
    pairs.push((string_of(a), string_of(b)));
    assert(pairs_view(pairs@) =~= before.push((a@, b@)));
}

// ---------------------------------------------------------------------------
// Reserved names

/// The types and traits of the generated parse tree that do not come from
/// the grammar.
pub open spec fn is_reserved_type_name(n: Seq<char>) -> bool {
    n == "Arena"@ || n == "DisplayOptions"@ || n == "IntoIter"@ || n == "ListNode"@ || n == "NodeKind"@
        || n == "NonterminalId"@ || n == "NonterminalNode"@ || n == "OneOrMany"@ || n == "OptNode"@
        || n == "Origin"@ || n == "ParseTree"@ || n == "ParseTreeBuilder"@ || n == "ParseTreeNode"@
        || n == "SPPFNodeId"@ || n == "SlotId"@ || n == "Span"@ || n == "Start"@ || n == "TerminalId"@
        || n == "TerminalNode"@ || n == "Token"@ || n == "TokenKind"@
}

/// The constants generated beside the nonterminal ids.
pub open spec fn is_reserved_constant_name(n: Seq<char>) -> bool {
    n == "NONTERMINALS"@ || n == "NONTERMINAL_DISPLAY_ORDER"@ || n == "SLOTS"@ || n == "TERMINALS"@
}

fn reserved_type_name(n: &str) -> (b: bool)
    ensures
        b == is_reserved_type_name(n@),
{
    crate::text::str_eq(n, "Arena") || crate::text::str_eq(n, "DisplayOptions") || crate::text::str_eq(n, "IntoIter")
        || crate::text::str_eq(n, "ListNode") || crate::text::str_eq(n, "NodeKind")
        || crate::text::str_eq(n, "NonterminalId") || crate::text::str_eq(n, "NonterminalNode")
        || crate::text::str_eq(n, "OneOrMany") || crate::text::str_eq(n, "OptNode")
        || crate::text::str_eq(n, "Origin") || crate::text::str_eq(n, "ParseTree")
        || crate::text::str_eq(n, "ParseTreeBuilder") || crate::text::str_eq(n, "ParseTreeNode")
        || crate::text::str_eq(n, "SPPFNodeId") || crate::text::str_eq(n, "SlotId") || crate::text::str_eq(n, "Span")
        || crate::text::str_eq(n, "Start") || crate::text::str_eq(n, "TerminalId")
        || crate::text::str_eq(n, "TerminalNode") || crate::text::str_eq(n, "Token") || crate::text::str_eq(n, "TokenKind")
}

fn reserved_constant_name(n: &str) -> (b: bool)
    ensures
        b == is_reserved_constant_name(n@),
{
    crate::text::str_eq(n, "NONTERMINALS") || crate::text::str_eq(n, "NONTERMINAL_DISPLAY_ORDER")
        || crate::text::str_eq(n, "SLOTS") || crate::text::str_eq(n, "TERMINALS")
}

/// The name of the layout rule, where the layout is a reference.
pub open spec fn layout_name(g: SpecGrammarDef) -> Option<Seq<char>> {
    match g.layout {
        Some(l) => match spec_as_identifier(l) {
            Some(id) => Some(id.name),
            None => None,
        },
        None => None,
    }
}

/// For each syntax rule but the layout rule, the constant name of its start
/// wrapper, with the rule's name.
pub open spec fn start_wrapper_pairs(rules: Seq<SpecSyntaxRule>, layout: Option<Seq<char>>) -> Seq<(Seq<char>, Seq<char>)>
    decreases rules.len(),
{
    if rules.len() == 0 {
        Seq::empty()
    } else {
        let acc = start_wrapper_pairs(rules.drop_last(), layout);
        let name = rules.last().head.name;
        if layout == Some(name) { acc } else { acc.push((constant_of("Start"@ + name), name)) }
    }
}

pub open spec fn start_wrapper_message(name: Seq<char>, wrapped: Seq<char>) -> Seq<char> {
    "`"@ + name + "` collides with the generated start wrapper for `"@ + wrapped + "`"@
}

pub open spec fn reserved_type_message(name: Seq<char>) -> Seq<char> {
    "`"@ + name + "` is a reserved name in the generated parse tree"@
}

pub open spec fn reserved_constant_message(name: Seq<char>) -> Seq<char> {
    "`"@ + name + "` is a reserved name in the generated grammar data"@
}

pub open spec fn ambiguity_variant_message(label: Seq<char>) -> Seq<char> {
    "`#"@ + label + "` becomes `Amb`, which is reserved for ambiguous alternatives"@
}

pub open spec fn unlabeled_variant_message(label: Seq<char>, variant: Seq<char>) -> Seq<char> {
    "`#"@ + label + "` becomes `"@ + variant + "`, which is reserved for unlabeled alternatives"@
}

pub open spec fn same_variant_message(previous: Seq<char>, label: Seq<char>, variant: Seq<char>) -> Seq<char> {
    "`#"@ + previous + "` and `#"@ + label + "` both become the generated variant `"@ + variant + "`"@
}

/// Whether a variant name is `Alt` followed by a `usize`, the names of
/// unlabeled alternatives.
pub open spec fn is_unlabeled_variant(v: Seq<char>) -> bool {
    v.len() >= 3 && v.take(3) == "Alt"@ && usize_text(v.skip(3))
}

/// The errors of the variant name of the alternative labeled `label`, given
/// the variants named so far.
pub open spec fn variant_errors(names: Seq<(Seq<char>, Seq<char>)>, label: Seq<char>) -> Seq<Seq<char>> {
    let v = pascal_case(label);
    (if v == "Amb"@ { seq![ambiguity_variant_message(label)] } else { Seq::empty() })
        + (if is_unlabeled_variant(v) { seq![unlabeled_variant_message(label, v)] } else { Seq::empty() })
        + match pair_lookup(names, v) {
            Some(previous) => seq![same_variant_message(previous, label, v)],
            None => Seq::empty(),
        }
}

/// Through the alternatives of a rule: the variant names with their labels,
/// and the errors.
pub open spec fn variant_state(alts: Seq<SpecAlternative>) -> (Seq<(Seq<char>, Seq<char>)>, Seq<Seq<char>>)
    decreases alts.len(),
{
    if alts.len() == 0 {
        (Seq::empty(), Seq::empty())
    } else {
        let (names, errors) = variant_state(alts.drop_last());
        match alts.last().label {
            Some(label) => (names.push((pascal_case(label), label)), errors + variant_errors(names, label)),
            None => (names, errors),
        }
    }
}

/// The reserved-name errors of one syntax rule.
pub open spec fn reserved_rule_errors(g: SpecGrammarDef, parser_type: Seq<char>, builder_type: Seq<char>, rule: SpecSyntaxRule) -> Seq<Seq<char>> {
    let name = rule.head.name;
    let generated_type = pascal_case(name);
    (match pair_lookup(start_wrapper_pairs(g.syntax_rules, layout_name(g)), constant_of(name)) {
        Some(wrapped) => seq![start_wrapper_message(name, wrapped)],
        None => Seq::empty(),
    })
        + (if is_reserved_type_name(generated_type) || parser_type == generated_type || builder_type == generated_type {
            seq![reserved_type_message(name)]
        } else {
            Seq::empty()
        })
        + (if is_reserved_constant_name(constant_of(name)) { seq![reserved_constant_message(name)] } else { Seq::empty() })
        + variant_state(rule_alternatives(rule.priority_levels)).1
}

pub open spec fn span_field_message(label: Seq<char>) -> Seq<char> {
    "`"@ + label + "` becomes the field `span`, which the generator uses for an alternative's span"@
}

/// The error of a symbol label whose field name would be `span`.
pub open spec fn span_field_errors(s: SpecSymbol) -> Seq<Seq<char>> {
    match s {
        SpecSymbol::Labeled { label, .. } => if snake_case(label) == "span"@ { seq![span_field_message(label)] } else { Seq::empty() },
        _ => Seq::empty(),
    }
}

/// The errors of names that collide with identifiers of the generated code:
/// each syntax rule's, then those of the symbol labels.
pub open spec fn reserved_name_errors(g: SpecGrammarDef, parser_type: Seq<char>, builder_type: Seq<char>) -> Seq<Seq<char>> {
    concat_map(g.syntax_rules, |r: SpecSyntaxRule| reserved_rule_errors(g, parser_type, builder_type, r))
        + concat_map(rules_preorder(g.syntax_rules), |s: SpecSymbol| span_field_errors(s))
}

/// Whether `v` names an unlabeled alternative; see `is_unlabeled_variant`.
fn unlabeled_variant(v: &str) -> (b: bool)
    ensures
        b == is_unlabeled_variant(v@),
{
    let n = v.unicode_len();
    if n < 3 {
        return false;
    }
    let head = v.substring_char(0, 3);
    if !crate::text::str_eq(head, "Alt") {
        assert(head@ =~= v@.take(3));
        return false;
    }
    assert(head@ =~= v@.take(3));
    let rest = v.substring_char(3, n);
    assert(rest@ =~= v@.skip(3));
    parses_as_usize(rest)
}

/// The errors of the variant names of `rule`'s labeled alternatives; see
/// `variant_state`.
fn check_variants(rule: &SyntaxRule, errors: &mut Vec<String>)
    ensures
        strings_view(final(errors)@) == strings_view(old(errors)@) + variant_state(rule_alternatives(rule@.priority_levels)).1,
{
    let ghost start = strings_view(errors@);
    let alts = rule.alternatives();
    let ghost av = alts@.map_values(|a: &crate::grammar::def::Alternative| a@);
    let mut names: Vec<(String, String)> = Vec::new();
    let mut j: usize = 0;
    assert(av.take(0) =~= Seq::<SpecAlternative>::empty());
    assert(pairs_view(names@) =~= Seq::<(Seq<char>, Seq<char>)>::empty());
    assert(start + Seq::<Seq<char>>::empty() =~= start);
    while j < alts.len()
        invariant
            0 <= j <= alts@.len(),
            av == alts@.map_values(|a: &crate::grammar::def::Alternative| a@),
            av == rule_alternatives(rule@.priority_levels),
            pairs_view(names@) == variant_state(av.take(j as int)).0,
            strings_view(errors@) == start + variant_state(av.take(j as int)).1,
        decreases alts@.len() - j,
    {
        let alt = alts[j];
        assert(av[j as int] == alt@);
        assert(av.take(j + 1).drop_last() =~= av.take(j as int));
        assert(av.take(j + 1).last() == alt@);
        let ghost before = strings_view(errors@);
        let ghost nv = pairs_view(names@);
        match &alt.label {
            Some(label) => {
                let variant = to_pascal_case(label.as_str());
                let ghost e0 = strings_view(errors@);
                if crate::text::str_eq(variant.as_str(), "Amb") {
                    let mut m = String::new();
                    push_str(&mut m, "`#");
                    push_str(&mut m, label.as_str());
                    push_str(&mut m, "` becomes `Amb`, which is reserved for ambiguous alternatives");
                    let ghost mv = m@;
                    errors.push(m);
                    assert(mv =~= ambiguity_variant_message(label@));
                    assert(strings_view(errors@) =~= e0 + seq![mv]);
                } else {
                    assert(e0 + Seq::<Seq<char>>::empty() =~= e0);
                }
                let ghost e1 = strings_view(errors@);
                if unlabeled_variant(variant.as_str()) {
                    let mut m = String::new();
                    push_str(&mut m, "`#");
                    push_str(&mut m, label.as_str());
                    push_str(&mut m, "` becomes `");
                    push_str(&mut m, variant.as_str());
                    push_str(&mut m, "`, which is reserved for unlabeled alternatives");
                    let ghost mv = m@;
                    errors.push(m);
                    assert(mv =~= unlabeled_variant_message(label@, variant@));
                    assert(strings_view(errors@) =~= e1 + seq![mv]);
                } else {
                    assert(e1 + Seq::<Seq<char>>::empty() =~= e1);
                }
                let ghost e2 = strings_view(errors@);
                match find_pair(&names, variant.as_str()) {
                    Some(previous) => {
                        let mut m = String::new();
                        push_str(&mut m, "`#");
                        push_str(&mut m, previous.as_str());
                        push_str(&mut m, "` and `#");
                        push_str(&mut m, label.as_str());
                        push_str(&mut m, "` both become the generated variant `");
                        push_str(&mut m, variant.as_str());
                        push_str(&mut m, "`");
                        let ghost mv = m@;
                        errors.push(m);
                        assert(mv =~= same_variant_message(previous@, label@, variant@));
                        assert(strings_view(errors@) =~= e2 + seq![mv]);
                    },
                    None => {
                        assert(e2 + Seq::<Seq<char>>::empty() =~= e2);
                    },
                }
                push_pair(&mut names, variant.as_str(), label.as_str());
                assert(strings_view(errors@) =~= before + variant_errors(nv, label@));
            },
            None => {},
        }
        j += 1;
    }
    assert(av.take(j as int) =~= av);
}

/// The name of the layout rule; see `layout_name`.
fn layout_rule_name(g: &GrammarDef) -> (r: Option<&String>)
    ensures
        match r {
            Some(n) => layout_name(g@) == Some(n@),
            None => layout_name(g@) is None,
        },
{
    match &g.layout {
        Some(l) => match l.as_identifier() {
            Some(id) => Some(&id.name),
            None => None,
        },
        None => None,
    }
}

/// The start wrappers; see `start_wrapper_pairs`.
fn start_wrappers(g: &GrammarDef) -> (r: Vec<(String, String)>)
    ensures
        pairs_view(r@) == start_wrapper_pairs(g@.syntax_rules, layout_name(g@)),
{
    let layout = layout_rule_name(g);
    let ghost rv = g@.syntax_rules;
    let mut out: Vec<(String, String)> = Vec::new();
    let mut i: usize = 0;
    assert(pairs_view(out@) =~= start_wrapper_pairs(rv.take(0), layout_name(g@)));
    while i < g.syntax_rules.len()
        invariant
            0 <= i <= g.syntax_rules@.len(),
            rv == g@.syntax_rules,
            rv.len() == g.syntax_rules@.len(),
            match layout {
                Some(n) => layout_name(g@) == Some(n@),
                None => layout_name(g@) is None,
            },
            pairs_view(out@) == start_wrapper_pairs(rv.take(i as int), layout_name(g@)),
        decreases g.syntax_rules@.len() - i,
    {
        let name = &g.syntax_rules[i].head.name;
        assert(rv[i as int].head.name == name@);
        assert(rv.take(i + 1).drop_last() =~= rv.take(i as int));
        assert(rv.take(i + 1).last() == rv[i as int]);
        let is_layout = match layout {
            Some(l) => crate::text::str_eq(l.as_str(), name.as_str()),
            None => false,
        };
        if !is_layout {
            let mut wrapper = String::new();
            push_str(&mut wrapper, "Start");
            push_str(&mut wrapper, name.as_str());
            let key = constant_name(wrapper.as_str());
            push_pair(&mut out, key.as_str(), name.as_str());
        }
        i += 1;
    }
    assert(rv.take(i as int) =~= rv);
    out
}

/// The reserved-name errors of one syntax rule; see `reserved_rule_errors`.
fn check_reserved_rule(g: &GrammarDef, parser_type: &str, builder_type: &str, wrappers: &Vec<(String, String)>, rule: &SyntaxRule, errors: &mut Vec<String>)
    requires
        pairs_view(wrappers@) == start_wrapper_pairs(g@.syntax_rules, layout_name(g@)),
    ensures
        strings_view(final(errors)@) == strings_view(old(errors)@) + reserved_rule_errors(g@, parser_type@, builder_type@, rule@),
{
    let ghost start = strings_view(errors@);
    let name = rule.head.name.as_str();
    let constant = constant_name(name);
    match find_pair(wrappers, constant.as_str()) {
        Some(wrapped) => {
            let mut m = String::new();
            push_str(&mut m, "`");
            push_str(&mut m, name);
            push_str(&mut m, "` collides with the generated start wrapper for `");
            push_str(&mut m, wrapped.as_str());
            push_str(&mut m, "`");
            let ghost mv = m@;
            errors.push(m);
            assert(mv =~= start_wrapper_message(name@, wrapped@));
            assert(strings_view(errors@) =~= start + seq![mv]);
        },
        None => {
            assert(start + Seq::<Seq<char>>::empty() =~= start);
        },
    }
    let ghost e1 = strings_view(errors@);
    let generated = to_pascal_case(name);
    if reserved_type_name(generated.as_str()) || crate::text::str_eq(parser_type, generated.as_str())
        || crate::text::str_eq(builder_type, generated.as_str()) {
        let mut m = String::new();
        push_str(&mut m, "`");
        push_str(&mut m, name);
        push_str(&mut m, "` is a reserved name in the generated parse tree");
        let ghost mv = m@;
        errors.push(m);
        assert(mv =~= reserved_type_message(name@));
        assert(strings_view(errors@) =~= e1 + seq![mv]);
    } else {
        assert(e1 + Seq::<Seq<char>>::empty() =~= e1);
    }
    let ghost e2 = strings_view(errors@);
    if reserved_constant_name(constant.as_str()) {
        let mut m = String::new();
        push_str(&mut m, "`");
        push_str(&mut m, name);
        push_str(&mut m, "` is a reserved name in the generated grammar data");
        let ghost mv = m@;
        errors.push(m);
        assert(mv =~= reserved_constant_message(name@));
        assert(strings_view(errors@) =~= e2 + seq![mv]);
    } else {
        assert(e2 + Seq::<Seq<char>>::empty() =~= e2);
    }
    let ghost e3 = strings_view(errors@);
    check_variants(rule, errors);
    assert(strings_view(errors@) =~= start + reserved_rule_errors(g@, parser_type@, builder_type@, rule@));
}

/// Reports rule and label names that collide with identifiers of the
/// generated code; see `reserved_name_errors`. `parser_type` and
/// `builder_type` are the generated parser's and parse-tree builder's type
/// names.
fn check_reserved_names(g: &GrammarDef, parser_type: &str, builder_type: &str, errors: &mut Vec<String>)
    ensures
        strings_view(final(errors)@) == strings_view(old(errors)@) + reserved_name_errors(g@, parser_type@, builder_type@),
{
    let ghost start = strings_view(errors@);
    let ghost rv = g@.syntax_rules;
    let wrappers = start_wrappers(g);
    let mut k: usize = 0;
    assert(start + concat_map(rv.take(0), |r: SpecSyntaxRule| reserved_rule_errors(g@, parser_type@, builder_type@, r)) =~= start);
    while k < g.syntax_rules.len()
        invariant
            0 <= k <= g.syntax_rules@.len(),
            rv == g@.syntax_rules,
            rv.len() == g.syntax_rules@.len(),
            pairs_view(wrappers@) == start_wrapper_pairs(g@.syntax_rules, layout_name(g@)),
            strings_view(errors@) == start + concat_map(rv.take(k as int), |r: SpecSyntaxRule| reserved_rule_errors(g@, parser_type@, builder_type@, r)),
        decreases g.syntax_rules@.len() - k,
    {
        proof { lemma_concat_map_step(rv, |r: SpecSyntaxRule| reserved_rule_errors(g@, parser_type@, builder_type@, r), k as int); }
        assert(rv[k as int] == g.syntax_rules@[k as int]@);
        check_reserved_rule(g, parser_type, builder_type, &wrappers, &g.syntax_rules[k], errors);
        assert(strings_view(errors@) =~= start + concat_map(rv.take(k + 1), |r: SpecSyntaxRule| reserved_rule_errors(g@, parser_type@, builder_type@, r)));
        k += 1;
    }
    assert(rv.take(k as int) =~= rv);
    let ghost mid = strings_view(errors@);
    let symbols = g.for_each_symbol();
    let ghost sv = symbol_refs_view(symbols@);
    let mut i: usize = 0;
    assert(mid + concat_map(sv.take(0), |s: SpecSymbol| span_field_errors(s)) =~= mid);
    while i < symbols.len()
        invariant
            0 <= i <= symbols@.len(),
            sv == symbol_refs_view(symbols@),
            sv.len() == symbols@.len(),
            sv == rules_preorder(g@.syntax_rules),
            strings_view(errors@) == mid + concat_map(sv.take(i as int), |s: SpecSymbol| span_field_errors(s)),
        decreases symbols@.len() - i,
    {
        proof { lemma_concat_map_step(sv, |s: SpecSymbol| span_field_errors(s), i as int); }
        assert(sv[i as int] == symbols@[i as int]@);
        let ghost before = strings_view(errors@);
        match symbols[i] {
            Symbol::Labeled { label, .. } => {
                let field = to_snake_case(label.as_str());
                if crate::text::str_eq(field.as_str(), "span") {
                    let mut m = String::new();
                    push_str(&mut m, "`");
                    push_str(&mut m, label.as_str());
                    push_str(&mut m, "` becomes the field `span`, which the generator uses for an alternative's span");
                    let ghost mv = m@;
                    errors.push(m);
                    assert(mv =~= span_field_message(label@));
                    assert(strings_view(errors@) =~= before + seq![mv]);
                } else {
                    assert(before + Seq::<Seq<char>>::empty() =~= before);
                }
            },
            _ => {
                assert(before + Seq::<Seq<char>>::empty() =~= before);
            },
        }
        assert(strings_view(errors@) =~= mid + concat_map(sv.take(i + 1), |s: SpecSymbol| span_field_errors(s)));
        i += 1;
    }
    assert(sv.take(i as int) =~= sv);
}

// ---------------------------------------------------------------------------
// Generated-name collisions

/// Through the syntax rules: the generated type and constant names, each
/// with its rule's name; the pairs of rules already reported; the errors.
pub struct CollisionState {
    pub types: Seq<(Seq<char>, Seq<char>)>,
    pub constants: Seq<(Seq<char>, Seq<char>)>,
    pub reported: Seq<(Seq<char>, Seq<char>)>,
    pub errors: Seq<Seq<char>>,
}

pub open spec fn same_name_message(previous: Seq<char>, name: Seq<char>, generated: Seq<char>) -> Seq<char> {
    "`"@ + previous + "` and `"@ + name + "` have the same generated name `"@ + generated + "`"@
}

/// Records `generated` for rule `name` in `names`; a different rule that
/// already has it is an error, once per pair of rules.
pub open spec fn record_name(
    names: Seq<(Seq<char>, Seq<char>)>,
    reported: Seq<(Seq<char>, Seq<char>)>,
    errors: Seq<Seq<char>>,
    generated: Seq<char>,
    name: Seq<char>,
) -> (Seq<(Seq<char>, Seq<char>)>, Seq<(Seq<char>, Seq<char>)>, Seq<Seq<char>>) {
    match pair_lookup(names, generated) {
        Some(previous) => if previous != name && !reported.contains((previous, name)) {
            (names.push((generated, name)), reported.push((previous, name)), errors.push(same_name_message(previous, name, generated)))
        } else {
            (names.push((generated, name)), reported, errors)
        },
        None => (names.push((generated, name)), reported, errors),
    }
}

/// One rule's step: its type name, then its constant name.
pub open spec fn collision_step(st: CollisionState, name: Seq<char>) -> CollisionState {
    let (types, reported, errors) = record_name(st.types, st.reported, st.errors, pascal_case(name), name);
    let (constants, reported2, errors2) = record_name(st.constants, reported, errors, constant_of(name), name);
    CollisionState { types, constants, reported: reported2, errors: errors2 }
}

/// Through the first rules.
pub open spec fn collision_state(rules: Seq<SpecSyntaxRule>) -> CollisionState
    decreases rules.len(),
{
    if rules.len() == 0 {
        CollisionState { types: Seq::empty(), constants: Seq::empty(), reported: Seq::empty(), errors: Seq::empty() }
    } else {
        collision_step(collision_state(rules.drop_last()), rules.last().head.name)
    }
}

/// Whether `pairs` holds the pair (`a`, `b`).
fn contains_pair(pairs: &Vec<(String, String)>, a: &str, b: &str) -> (r: bool)
    ensures
        r == pairs_view(pairs@).contains((a@, b@)),
{
    let ghost pv = pairs_view(pairs@);
    let mut k: usize = 0;
    while k < pairs.len()
        invariant
            0 <= k <= pairs@.len(),
            pv == pairs_view(pairs@),
            forall|j: int| 0 <= j < k ==> pv[j] != (a@, b@),
        decreases pairs@.len() - k,
    {
        assert(pv[k as int] == (pairs@[k as int].0@, pairs@[k as int].1@));
        if crate::text::str_eq(pairs[k].0.as_str(), a) && crate::text::str_eq(pairs[k].1.as_str(), b) {
            return true;
        }
        k += 1;
    }
    false
}

/// See `record_name`.
fn record(names: &mut Vec<(String, String)>, reported: &mut Vec<(String, String)>, errors: &mut Vec<String>, generated: &str, name: &str)
    ensures
        (pairs_view(final(names)@), pairs_view(final(reported)@), strings_view(final(errors)@))
            == record_name(pairs_view(old(names)@), pairs_view(old(reported)@), strings_view(old(errors)@), generated@, name@),
{
    let ghost e0 = strings_view(errors@);
    match find_pair(names, generated) {
        Some(previous) => {
            if !crate::text::str_eq(previous.as_str(), name) && !contains_pair(reported, previous.as_str(), name) {
                let mut m = String::new();
                push_str(&mut m, "`");
                push_str(&mut m, previous.as_str());
                push_str(&mut m, "` and `");
                push_str(&mut m, name);
                push_str(&mut m, "` have the same generated name `");
                push_str(&mut m, generated);
                push_str(&mut m, "`");
                let ghost mv = m@;
                errors.push(m);
                assert(mv =~= same_name_message(previous@, name@, generated@));
                assert(strings_view(errors@) =~= e0.push(mv));
                let p = string_of(previous.as_str());
                push_pair(reported, p.as_str(), name);
            }
        },
        None => {},
    }
    push_pair(names, generated, name);
}

/// Reports syntax rule names that become equal once converted to the
/// generated `PascalCase` type or `UPPER_SNAKE_CASE` constant; a pair of
/// rules is reported once.
fn check_generated_rule_name_collisions(g: &GrammarDef, errors: &mut Vec<String>)
    ensures
        strings_view(final(errors)@) == strings_view(old(errors)@) + collision_state(g@.syntax_rules).errors,
{
    let ghost start = strings_view(errors@);
    let ghost rv = g@.syntax_rules;
    let mut types: Vec<(String, String)> = Vec::new();
    let mut constants: Vec<(String, String)> = Vec::new();
    let mut reported: Vec<(String, String)> = Vec::new();
    let mut own: Vec<String> = Vec::new();
    let mut k: usize = 0;
    assert(rv.take(0) =~= Seq::<SpecSyntaxRule>::empty());
    assert(pairs_view(types@) =~= Seq::<(Seq<char>, Seq<char>)>::empty());
    assert(pairs_view(constants@) =~= Seq::<(Seq<char>, Seq<char>)>::empty());
    assert(pairs_view(reported@) =~= Seq::<(Seq<char>, Seq<char>)>::empty());
    assert(strings_view(own@) =~= Seq::<Seq<char>>::empty());
    while k < g.syntax_rules.len()
        invariant
            0 <= k <= g.syntax_rules@.len(),
            rv == g@.syntax_rules,
            rv.len() == g.syntax_rules@.len(),
            pairs_view(types@) == collision_state(rv.take(k as int)).types,
            pairs_view(constants@) == collision_state(rv.take(k as int)).constants,
            pairs_view(reported@) == collision_state(rv.take(k as int)).reported,
            strings_view(own@) == collision_state(rv.take(k as int)).errors,
        decreases g.syntax_rules@.len() - k,
    {
        let name = g.syntax_rules[k].head.name.as_str();
        assert(rv[k as int].head.name == name@);
        assert(rv.take(k + 1).drop_last() =~= rv.take(k as int));
        assert(rv.take(k + 1).last() == rv[k as int]);
        let generated = to_pascal_case(name);
        record(&mut types, &mut reported, &mut own, generated.as_str(), name);
        let constant = constant_name(name);
        record(&mut constants, &mut reported, &mut own, constant.as_str(), name);
        k += 1;
    }
    assert(rv.take(k as int) =~= rv);
    let mut i: usize = 0;
    let ghost ov = strings_view(own@);
    assert(start + ov.take(0) =~= start);
    while i < own.len()
        invariant
            0 <= i <= own@.len(),
            ov == strings_view(own@),
            ov.len() == own@.len(),
            strings_view(errors@) == start + ov.take(i as int),
        decreases own@.len() - i,
    {
        let ghost before = strings_view(errors@);
        let m = string_of(own[i].as_str());
        let ghost mv = m@;
        errors.push(m);
        assert(strings_view(errors@) =~= before.push(mv));
        assert(ov[i as int] == own@[i as int]@);
        assert(ov.take(i + 1) =~= ov.take(i as int).push(ov[i as int]));
        assert(strings_view(errors@) =~= start + ov.take(i + 1));
        i += 1;
    }
    assert(ov.take(i as int) =~= ov);
}

// ---------------------------------------------------------------------------
// Validation

/// Every error of a resolved grammar definition, in the order the checks
/// run: duplicate definitions, generated-name collisions, unresolved
/// references, exclusions, restriction operands, nested labels, reserved
/// names, the layout rule as an identifier rule, and a grammar without
/// syntax rules.
pub open spec fn validation_errors(g: SpecGrammarDef, parser_type: Seq<char>, builder_type: Seq<char>) -> Seq<Seq<char>> {
    duplicate_errors(rule_names(g))
        + collision_state(g.syntax_rules).errors
        + unresolved_identifier_errors(g)
        + concat_map(rules_preorder(g.syntax_rules), |s: SpecSymbol| exclusion_errors(g.syntax_rules, s))
        + restriction_target_errors(g)
        + concat_map(rules_preorder(g.syntax_rules), |s: SpecSymbol| nested_label_errors(s))
        + reserved_name_errors(g, parser_type, builder_type)
        + layout_identifier_errors(g)
        + no_syntax_rule_errors(g)
}

/// Checks a resolved grammar definition and reports the message of every
/// error; see `validation_errors`. `parser_type` and
/// `parse_tree_builder_type` are the type names that the generator gives the
/// grammar's parser and parse-tree builder.
pub fn validate(grammar_def: &GrammarDef, parser_type: &str, parse_tree_builder_type: &str) -> (errors: Vec<String>)
    ensures
        strings_view(errors@) == validation_errors(grammar_def@, parser_type@, parse_tree_builder_type@),
{
    let mut errors: Vec<String> = Vec::new();
    let ghost e0 = strings_view(errors@);
    assert(e0 =~= Seq::<Seq<char>>::empty());
    check_duplicate_definitions(grammar_def, &mut errors);
    check_generated_rule_name_collisions(grammar_def, &mut errors);
    check_unresolved_identifiers(grammar_def, &mut errors);
    check_exclusions(grammar_def, &mut errors);
    check_restriction_targets(grammar_def, &mut errors);
    check_one_label_per_symbol(grammar_def, &mut errors);
    check_reserved_names(grammar_def, parser_type, parse_tree_builder_type, &mut errors);
    check_layout_is_not_an_identifier_rule(grammar_def, &mut errors);
    check_grammar_has_a_syntax_rule(grammar_def, &mut errors);
    assert(strings_view(errors@) =~= validation_errors(grammar_def@, parser_type@, parse_tree_builder_type@));
    errors
}

// ---------------------------------------------------------------------------
// Laws

proof fn lemma_no_duplicate_errors(names: Seq<Seq<char>>)
    requires
        duplicate_errors(names).len() == 0,
    ensures
        names.no_duplicates(),
    decreases names.len(),
{
    if names.len() > 0 {
        let init = names.drop_last();
        assert(duplicate_errors(init).len() == 0);
        lemma_no_duplicate_errors(init);
        assert(!init.contains(names.last()));
        assert forall|a: int, b: int| 0 <= a < b < names.len() implies names[a] != names[b] by {
            if b == names.len() - 1 {
                assert(init[a] == names[a]);
            } else {
                assert(init[a] == names[a] && init[b] == names[b]);
            }
        }
    }
}

/// A grammar definition without duplicate-definition errors has pairwise
/// distinct rule names, lexical and syntax alike; in particular its lexical
/// rules meet the uniqueness that inlining their references requires.
pub proof fn accepted_names_are_distinct(g: SpecGrammarDef)
    requires
        duplicate_errors(rule_names(g)).len() == 0,
    ensures
        rule_names(g).no_duplicates(),
        crate::grammar::regex_inlining::distinct_heads(g.lexical_rules),
{
    lemma_no_duplicate_errors(rule_names(g));
    assert forall|i: int, j: int| 0 <= i < j < g.lexical_rules.len() implies
        (#[trigger] g.lexical_rules[i]).head.name != (#[trigger] g.lexical_rules[j]).head.name by {
        assert(rule_names(g)[i] == g.lexical_rules[i].head.name);
        assert(rule_names(g)[j] == g.lexical_rules[j].head.name);
    }
}


/// The operands of one kind of restriction.
pub open spec fn operands_of(restrictions: crate::grammar::symbols::SpecRestrictions, kind: RestrictionKind) -> Seq<SpecIdentifier> {
    match kind {
        RestrictionKind::Except => restrictions.excepts,
        RestrictionKind::Follow => restrictions.follow,
        RestrictionKind::LayoutAwareFollow => restrictions.layout_aware_follow,
        RestrictionKind::Precede => restrictions.precede,
    }
}

proof fn lemma_concat_map_contains<A>(xs: Seq<A>, f: spec_fn(A) -> Seq<Seq<char>>, i: int, m: Seq<char>)
    requires
        0 <= i < xs.len(),
        f(xs[i]).contains(m),
    ensures
        concat_map(xs, f).contains(m),
    decreases xs.len(),
{
    let init = concat_map(xs.drop_last(), f);
    if i == xs.len() - 1 {
        let fx = f(xs[i]);
        let j = choose|j: int| 0 <= j < fx.len() && #[trigger] fx[j] == m;
        assert((init + f(xs.last()))[init.len() + j] == m);
    } else {
        assert(xs.drop_last()[i] == xs[i]);
        lemma_concat_map_contains(xs.drop_last(), f, i, m);
        let j = choose|j: int| 0 <= j < init.len() && init[j] == m;
        assert((init + f(xs.last()))[j] == m);
    }
}

proof fn lemma_contains_left(a: Seq<Seq<char>>, b: Seq<Seq<char>>, m: Seq<char>)
    requires
        a.contains(m),
    ensures
        (a + b).contains(m),
{
    let j = choose|j: int| 0 <= j < a.len() && a[j] == m;
    assert((a + b)[j] == m);
}

proof fn lemma_contains_right(a: Seq<Seq<char>>, b: Seq<Seq<char>>, m: Seq<char>)
    requires
        b.contains(m),
    ensures
        (a + b).contains(m),
{
    let j = choose|j: int| 0 <= j < b.len() && b[j] == m;
    assert((a + b)[a.len() + j] == m);
}

/// Every resolved operand of any of the four restriction kinds on a symbol
/// of the grammar's syntax rules that names no lexical rule is reported:
/// `<kind> `<name>` must name a lexical rule, not a syntax rule`.
pub proof fn symbol_operands_must_name_lexical_rules(
    g: SpecGrammarDef,
    parser_type: Seq<char>,
    builder_type: Seq<char>,
    i: int,
    kind: RestrictionKind,
    j: int,
)
    requires
        0 <= i < rules_preorder(g.syntax_rules).len(),
        rules_preorder(g.syntax_rules)[i] is Restricted,
        0 <= j < operands_of(rules_preorder(g.syntax_rules)[i]->restrictions, kind).len(),
        operands_of(rules_preorder(g.syntax_rules)[i]->restrictions, kind)[j].definition is Some,
        forall|k: int| 0 <= k < g.lexical_rules.len()
            ==> (#[trigger] g.lexical_rules[k]).head.name != operands_of(rules_preorder(g.syntax_rules)[i]->restrictions, kind)[j].name,
    ensures
        validation_errors(g, parser_type, builder_type).contains(
            kind_name(kind) + " `"@ + operands_of(rules_preorder(g.syntax_rules)[i]->restrictions, kind)[j].name
                + "` must name a lexical rule, not a syntax rule"@,
        ),
{
    let symbols = rules_preorder(g.syntax_rules);
    let s = symbols[i];
    let restrictions = s->restrictions;
    let ids = operands_of(restrictions, kind);
    let id = ids[j];
    let m = kind_name(kind) + " `"@ + id.name + "` must name a lexical rule, not a syntax rule"@;
    let lexical = g.lexical_rules;
    lemma_rule_index(lexical, id.name);
    assert(rule_index(lexical, id.name) < 0);
    assert(target_errors(lexical, kind, id) == seq![m]);
    assert(target_errors(lexical, kind, id)[0] == m);
    lemma_symbol_target_reported(g, parser_type, builder_type, i, kind, j, m);
}

proof fn lemma_symbol_target_reported(
    g: SpecGrammarDef,
    parser_type: Seq<char>,
    builder_type: Seq<char>,
    i: int,
    kind: RestrictionKind,
    j: int,
    m: Seq<char>,
)
    requires
        0 <= i < rules_preorder(g.syntax_rules).len(),
        rules_preorder(g.syntax_rules)[i] is Restricted,
        0 <= j < operands_of(rules_preorder(g.syntax_rules)[i]->restrictions, kind).len(),
        operands_of(rules_preorder(g.syntax_rules)[i]->restrictions, kind)[j].definition is Some,
        target_errors(g.lexical_rules, kind, operands_of(rules_preorder(g.syntax_rules)[i]->restrictions, kind)[j]).contains(m),
    ensures
        validation_errors(g, parser_type, builder_type).contains(m),
{
    let symbols = rules_preorder(g.syntax_rules);
    let s = symbols[i];
    let restrictions = s->restrictions;
    let ids = operands_of(restrictions, kind);
    let lexical = g.lexical_rules;
    let f = |x: SpecIdentifier| if x.definition is Some { target_errors(lexical, kind, x) } else { Seq::<Seq<char>>::empty() };
    assert(f(ids[j]).contains(m));
    lemma_concat_map_contains(ids, f, j, m);
    let e = resolved_operand_errors(lexical, RestrictionKind::Except, restrictions.excepts);
    let fo = resolved_operand_errors(lexical, RestrictionKind::Follow, restrictions.follow);
    let la = resolved_operand_errors(lexical, RestrictionKind::LayoutAwareFollow, restrictions.layout_aware_follow);
    let pr = resolved_operand_errors(lexical, RestrictionKind::Precede, restrictions.precede);
    assert(symbol_target_errors(lexical, s) == e + fo + la + pr);
    match kind {
        RestrictionKind::Except => {
            assert(e == concat_map(ids, f));
            lemma_contains_left(e, fo, m);
            lemma_contains_left(e + fo, la, m);
            lemma_contains_left(e + fo + la, pr, m);
        },
        RestrictionKind::Follow => {
            assert(fo == concat_map(ids, f));
            lemma_contains_right(e, fo, m);
            lemma_contains_left(e + fo, la, m);
            lemma_contains_left(e + fo + la, pr, m);
        },
        RestrictionKind::LayoutAwareFollow => {
            assert(la == concat_map(ids, f));
            lemma_contains_right(e + fo, la, m);
            lemma_contains_left(e + fo + la, pr, m);
        },
        RestrictionKind::Precede => {
            assert(pr == concat_map(ids, f));
            lemma_contains_right(e + fo + la, pr, m);
        },
    }
    let sf = |x: SpecSymbol| symbol_target_errors(lexical, x);
    lemma_concat_map_contains(symbols, sf, i, m);
    let rt = restriction_target_errors(g);
    let part = concat_map(symbols, sf);
    let rest = concat_map(g.lexical_rules, |r: SpecLexicalRule| lexical_target_errors(rule_names(g), g.lexical_rules, r));
    assert(rt == part + rest);
    lemma_contains_left(part, rest, m);
    lemma_target_error_reported(g, parser_type, builder_type, m);
}

proof fn lemma_target_error_reported(g: SpecGrammarDef, parser_type: Seq<char>, builder_type: Seq<char>, m: Seq<char>)
    requires
        restriction_target_errors(g).contains(m),
    ensures
        validation_errors(g, parser_type, builder_type).contains(m),
{
    let rt = restriction_target_errors(g);
    let a = duplicate_errors(rule_names(g)) + collision_state(g.syntax_rules).errors
        + unresolved_identifier_errors(g)
        + concat_map(rules_preorder(g.syntax_rules), |s: SpecSymbol| exclusion_errors(g.syntax_rules, s));
    lemma_contains_right(a, rt, m);
    let b = reserved_name_errors(g, parser_type, builder_type);
    let a2 = a + rt + concat_map(rules_preorder(g.syntax_rules), |s: SpecSymbol| nested_label_errors(s));
    lemma_contains_left(a + rt, concat_map(rules_preorder(g.syntax_rules), |s: SpecSymbol| nested_label_errors(s)), m);
    lemma_contains_left(a2, b, m);
    lemma_contains_left(a2 + b, layout_identifier_errors(g), m);
    lemma_contains_left(a2 + b + layout_identifier_errors(g), no_syntax_rule_errors(g), m);
    assert(validation_errors(g, parser_type, builder_type) == a2 + b + layout_identifier_errors(g) + no_syntax_rule_errors(g));
}


/// The operand `j` of one kind of a lexical rule's own restrictions: its
/// `j`th except, its `j`th follow restriction, or (for `j == 0`) its
/// precede restriction.
pub open spec fn own_operand(rule: SpecLexicalRule, kind: RestrictionKind, j: int) -> Option<SpecIdentifier> {
    match kind {
        RestrictionKind::Except => if 0 <= j < rule.except.len() { Some(rule.except[j]) } else { None },
        RestrictionKind::Follow => if 0 <= j < rule.follow_restriction.len() { Some(rule.follow_restriction[j]) } else { None },
        RestrictionKind::Precede => if j == 0 { rule.precede_restriction } else { None },
        RestrictionKind::LayoutAwareFollow => None,
    }
}

/// A lexical rule's own restriction operand that names a syntax rule and no
/// lexical rule is reported: `<kind> `<name>` must name a lexical rule, not
/// a syntax rule`.
pub proof fn lexical_operands_must_name_lexical_rules(
    g: SpecGrammarDef,
    parser_type: Seq<char>,
    builder_type: Seq<char>,
    k: int,
    kind: RestrictionKind,
    j: int,
    r: int,
)
    requires
        0 <= k < g.lexical_rules.len(),
        own_operand(g.lexical_rules[k], kind, j) is Some,
        0 <= r < g.syntax_rules.len(),
        g.syntax_rules[r].head.name == own_operand(g.lexical_rules[k], kind, j)->Some_0.name,
        forall|q: int| 0 <= q < g.lexical_rules.len()
            ==> (#[trigger] g.lexical_rules[q]).head.name != own_operand(g.lexical_rules[k], kind, j)->Some_0.name,
    ensures
        validation_errors(g, parser_type, builder_type).contains(
            kind_name(kind) + " `"@ + own_operand(g.lexical_rules[k], kind, j)->Some_0.name
                + "` must name a lexical rule, not a syntax rule"@,
        ),
{
    let lexical = g.lexical_rules;
    let rule = lexical[k];
    let id = own_operand(rule, kind, j)->Some_0;
    let m = kind_name(kind) + " `"@ + id.name + "` must name a lexical rule, not a syntax rule"@;
    let ops = lexical_restrictions_view(rule);
    let ex = rule.except.map_values(|x: SpecIdentifier| (RestrictionKind::Except, x));
    let fo = rule.follow_restriction.map_values(|x: SpecIdentifier| (RestrictionKind::Follow, x));
    let pr = match rule.precede_restriction {
        Some(x) => seq![(RestrictionKind::Precede, x)],
        None => Seq::<(RestrictionKind, SpecIdentifier)>::empty(),
    };
    assert(ops == ex + fo + pr);
    let idx: int = match kind {
        RestrictionKind::Except => j,
        RestrictionKind::Follow => rule.except.len() + j,
        _ => (rule.except.len() + rule.follow_restriction.len()) as int,
    };
    match kind {
        RestrictionKind::Except => {
            assert(ex[j] == (kind, id));
            assert(ops[idx] == ex[j]);
        },
        RestrictionKind::Follow => {
            assert(fo[j] == (kind, id));
            assert(ops[idx] == fo[j]);
        },
        _ => {
            assert(pr[0] == (kind, id));
            assert(ops[idx] == pr[0]);
        },
    }
    assert(0 <= idx < ops.len());
    assert(ops[idx] == (kind, id));
    let names = rule_names(g);
    assert(names[lexical.len() + r] == id.name);
    assert(names.contains(id.name));
    lemma_rule_index(lexical, id.name);
    assert(rule_index(lexical, id.name) < 0);
    assert(target_errors(lexical, kind, id) == seq![m]);
    let gf = |op: (RestrictionKind, SpecIdentifier)|
        if names.contains(op.1.name) { target_errors(lexical, op.0, op.1) } else { Seq::<Seq<char>>::empty() };
    assert(gf(ops[idx]).contains(m)) by {
        assert(gf(ops[idx])[0] == m);
    }
    lemma_concat_map_contains(ops, gf, idx, m);
    assert(lexical_target_errors(names, lexical, rule) == concat_map(ops, gf));
    let lf = |x: SpecLexicalRule| lexical_target_errors(rule_names(g), g.lexical_rules, x);
    lemma_concat_map_contains(lexical, lf, k, m);
    let part = concat_map(rules_preorder(g.syntax_rules), |x: SpecSymbol| symbol_target_errors(g.lexical_rules, x));
    let rest = concat_map(g.lexical_rules, lf);
    assert(restriction_target_errors(g) == part + rest);
    lemma_contains_right(part, rest, m);
    lemma_target_error_reported(g, parser_type, builder_type, m);
}


/// An except operand on a symbol that names only lexical rules with
/// restrictions of their own is reported: `except `<name>` must name a
/// lexical rule with no restrictions of its own`.
pub proof fn symbol_excepts_must_be_plain_terminals(
    g: SpecGrammarDef,
    parser_type: Seq<char>,
    builder_type: Seq<char>,
    i: int,
    j: int,
    k: int,
)
    requires
        0 <= i < rules_preorder(g.syntax_rules).len(),
        rules_preorder(g.syntax_rules)[i] is Restricted,
        0 <= j < rules_preorder(g.syntax_rules)[i]->restrictions.excepts.len(),
        rules_preorder(g.syntax_rules)[i]->restrictions.excepts[j].definition is Some,
        0 <= k < g.lexical_rules.len(),
        g.lexical_rules[k].head.name == rules_preorder(g.syntax_rules)[i]->restrictions.excepts[j].name,
        forall|q: int| 0 <= q < g.lexical_rules.len()
            && (#[trigger] g.lexical_rules[q]).head.name == rules_preorder(g.syntax_rules)[i]->restrictions.excepts[j].name
            ==> (g.lexical_rules[q].except.len() > 0 || g.lexical_rules[q].follow_restriction.len() > 0
                || g.lexical_rules[q].precede_restriction is Some),
    ensures
        validation_errors(g, parser_type, builder_type).contains(
            "except `"@ + rules_preorder(g.syntax_rules)[i]->restrictions.excepts[j].name
                + "` must name a lexical rule with no restrictions of its own"@,
        ),
{
    let id = rules_preorder(g.syntax_rules)[i]->restrictions.excepts[j];
    let lexical = g.lexical_rules;
    let m = "except `"@ + id.name + "` must name a lexical rule with no restrictions of its own"@;
    lemma_rule_index(lexical, id.name);
    let x = rule_index(lexical, id.name);
    if x < 0 {
        assert(lexical[k].head.name != id.name);
    }
    assert(lexical[x].head.name == id.name);
    assert(has_restrictions(lexical[x]));
    assert(target_errors(lexical, RestrictionKind::Except, id) == seq![m]);
    assert(target_errors(lexical, RestrictionKind::Except, id)[0] == m);
    assert(operands_of(rules_preorder(g.syntax_rules)[i]->restrictions, RestrictionKind::Except)[j] == id);
    lemma_symbol_target_reported(g, parser_type, builder_type, i, RestrictionKind::Except, j, m);
}

} // verus!
