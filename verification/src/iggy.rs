//! Reading grammar text: escapes in string and character literals, and
//! the symbols of syntax rules as the parse tree holds them.
use vstd::prelude::*;
use crate::grammar::symbols::{
    identifiers_view, spec_restricted, symbols_view, Identifier, Restrictions, SpecIdentifier, SpecRestrictions,
    SpecSymbol, Symbol, lemma_symbols_view_push,
};
use crate::text::{push_char, str_eq};
use crate::grammar::regex::{regex_view, regexes_view, CharClass, CharRange, Regex, SpecCharClass, SpecRegex};
use crate::grammar::def::{
    alternatives_view, levels_view, lexical_rules_view, syntax_rules_view, Alternative, Associativity, GrammarDef,
    LayoutStrategy, LexicalRule, PriorityLevel, SpecAlternative, SpecGrammarDef, SpecLayoutStrategy,
    SpecLexicalRule, SpecPriorityLevel, SpecSyntaxRule, SyntaxRule,
};
use crate::grammar::symbols::{Nonterminal, SpecNonterminal, SpecTerminal, Terminal};
use crate::tree::{
    ConditionKind, TreeAlternative, TreeAnnotation, TreeAssociativity, TreeCharClass, TreeGrammar, TreePostCondition,
    TreePriorityLevel, TreeRangeElement, TreeRegex, TreeRegexPostCondition, TreeRegexRule, TreeRule, TreeSymbol,
    TreeSyntaxRule,
};

verus! {

/// The character an escape `\c` stands for: `\n`, `\r`, `\t`, `\f`
/// (form feed), and any other character for itself.
pub open spec fn escaped_char(c: char) -> char {
    if c == 'n' {
        '\n'
    } else if c == 'r' {
        '\r'
    } else if c == 't' {
        '\t'
    } else if c == 'f' {
        '\x0c'
    } else {
        c
    }
}

/// The unescaped text of `s` from position `i`: `\c` becomes the character
/// it stands for; a trailing lone `\` is dropped.
pub open spec fn unescape_from(s: Seq<char>, i: int) -> Seq<char>
    decreases s.len() - i,
{
    if i >= s.len() || i < 0 {
        Seq::empty()
    } else if s[i] == '\\' {
        if i + 1 < s.len() {
            seq![escaped_char(s[i + 1])] + unescape_from(s, i + 2)
        } else {
            Seq::empty()
        }
    } else {
        seq![s[i]] + unescape_from(s, i + 1)
    }
}

/// See `escaped_char`.
fn escape_of(c: char) -> (r: char)
    ensures
        r == escaped_char(c),
{
    if c == 'n' {
        '\n'
    } else if c == 'r' {
        '\r'
    } else if c == 't' {
        '\t'
    } else if c == 'f' {
        '\x0c'
    } else {
        c
    }
}

/// The text of a string literal's body with its escapes resolved; see
/// `unescape_from`.
pub fn unescape_string(s: &str) -> (r: String)
    ensures
        r@ == unescape_from(s@, 0),
{
    let n = s.unicode_len();
    let mut result = String::new();
    let mut i: usize = 0;
    while i < n
        invariant
            n == s@.len(),
            0 <= i <= n + 1,
            result@ + unescape_from(s@, i as int) == unescape_from(s@, 0),
        decreases n + 1 - i,
    {
        let c = s.get_char(i);
        if c == '\\' {
            if i + 1 < n {
                let next = s.get_char(i + 1);
                push_char(&mut result, escape_of(next));
                assert(result@ + unescape_from(s@, i + 2) =~= unescape_from(s@, 0)) by {
                    assert(unescape_from(s@, i as int) == seq![escaped_char(next)] + unescape_from(s@, i + 2));
                }
                i += 2;
            } else {
                assert(result@ + unescape_from(s@, i + 1) =~= unescape_from(s@, 0));
                i += 1;
            }
        } else {
            push_char(&mut result, c);
            assert(result@ + unescape_from(s@, i + 1) =~= unescape_from(s@, 0)) by {
                assert(unescape_from(s@, i as int) == seq![c] + unescape_from(s@, i + 1));
            }
            i += 1;
        }
    }
    assert(unescape_from(s@, i as int) =~= Seq::<char>::empty());
    assert(result@ =~= unescape_from(s@, 0));
    result
}

/// The character a character literal's text denotes: `\c` is an escape,
/// anything else its first character.
pub open spec fn char_of(s: Seq<char>) -> char {
    if s.len() >= 2 && s[0] == '\\' {
        escaped_char(s[1])
    } else {
        s[0]
    }
}

/// See `char_of`. The text is not empty.
pub fn parse_char(s: &str) -> (c: char)
    requires
        s@.len() > 0,
    ensures
        c == char_of(s@),
{
    let first = s.get_char(0);
    if first == '\\' && s.unicode_len() > 1 {
        escape_of(s.get_char(1))
    } else {
        first
    }
}

/// A range bound's character; see `char_of`.
pub fn parse_range_char(s: &str) -> (c: char)
    requires
        s@.len() > 0,
    ensures
        c == char_of(s@),
{
    parse_char(s)
}

/// Whether every string literal in `s` has at least its two quotes.
pub open spec fn literals_quoted(s: TreeSymbol) -> bool
    decreases s, 2int,
{
    match s {
        TreeSymbol::Identifier(_) => true,
        TreeSymbol::Lit(t) => t@.len() >= 2,
        TreeSymbol::Paren(seqs) => groups_quoted(seqs@),
        TreeSymbol::Star(x) => literals_quoted(*x),
        TreeSymbol::Plus(x) => literals_quoted(*x),
        TreeSymbol::Opt(x) => literals_quoted(*x),
        TreeSymbol::StarSep(x, sep) => literals_quoted(*x) && literals_quoted(*sep),
        TreeSymbol::PlusSep(x, sep) => literals_quoted(*x) && literals_quoted(*sep),
        TreeSymbol::PostCondition(x, _) => literals_quoted(*x),
        TreeSymbol::PreCondition(_, x) => literals_quoted(*x),
        TreeSymbol::Labeled(_, x) => literals_quoted(*x),
    }
}

/// See `literals_quoted`.
pub open spec fn symbols_quoted(syms: Seq<TreeSymbol>) -> bool
    decreases syms, 1int,
{
    if syms.len() == 0 {
        true
    } else {
        symbols_quoted(syms.drop_last()) && literals_quoted(syms.last())
    }
}

/// See `literals_quoted`.
pub open spec fn groups_quoted(groups: Seq<Vec<TreeSymbol>>) -> bool
    decreases groups, 0int,
{
    if groups.len() == 0 {
        true
    } else {
        groups_quoted(groups.drop_last()) && symbols_quoted(groups.last()@)
    }
}

proof fn lemma_symbols_quoted(syms: Seq<TreeSymbol>)
    requires
        symbols_quoted(syms),
    ensures
        forall|i: int| 0 <= i < syms.len() ==> literals_quoted(#[trigger] syms[i]),
    decreases syms.len(),
{
    if syms.len() > 0 {
        lemma_symbols_quoted(syms.drop_last());
        assert forall|i: int| 0 <= i < syms.len() implies literals_quoted(#[trigger] syms[i]) by {
            if i < syms.len() - 1 {
                assert(syms[i] == syms.drop_last()[i]);
            }
        }
    }
}

proof fn lemma_groups_quoted(groups: Seq<Vec<TreeSymbol>>)
    requires
        groups_quoted(groups),
    ensures
        forall|i: int| 0 <= i < groups.len() ==> symbols_quoted((#[trigger] groups[i])@),
    decreases groups.len(),
{
    if groups.len() > 0 {
        lemma_groups_quoted(groups.drop_last());
        assert forall|i: int| 0 <= i < groups.len() implies symbols_quoted((#[trigger] groups[i])@) by {
            if i < groups.len() - 1 {
                assert(groups[i] == groups.drop_last()[i]);
            }
        }
    }
}

/// An identifier that no definition is attached to yet.
pub open spec fn unresolved(name: Seq<char>) -> SpecIdentifier {
    SpecIdentifier { name, definition: None }
}

/// `ids` with each identifier kept at its first occurrence only.
pub open spec fn first_occurrences(ids: Seq<SpecIdentifier>) -> Seq<SpecIdentifier>
    decreases ids.len(),
{
    if ids.len() == 0 {
        Seq::empty()
    } else {
        let d = first_occurrences(ids.drop_last());
        if d.contains(ids.last()) { d } else { d.push(ids.last()) }
    }
}

/// The operand of `c` if it is of kind `k`.
pub open spec fn condition_operand(c: TreePostCondition, k: ConditionKind) -> Option<Seq<char>> {
    match (c, k) {
        (TreePostCondition::Exclude(n), ConditionKind::Exclude) => Some(n@),
        (TreePostCondition::Except(n), ConditionKind::Except) => Some(n@),
        (TreePostCondition::FollowRestriction(n), ConditionKind::Follow) => Some(n@),
        (TreePostCondition::LayoutAwareFollowRestriction(n), ConditionKind::LayoutAwareFollow) => Some(n@),
        _ => None,
    }
}

/// The operands of the conditions of kind `k`, in the order written.
pub open spec fn condition_operands(cs: Seq<TreePostCondition>, k: ConditionKind) -> Seq<Seq<char>>
    decreases cs.len(),
{
    if cs.len() == 0 {
        Seq::empty()
    } else {
        let prev = condition_operands(cs.drop_last(), k);
        match condition_operand(cs.last(), k) {
            Some(n) => prev.push(n),
            None => prev,
        }
    }
}

/// The operands of kind `k` as unresolved identifiers, each kept once.
pub open spec fn restriction_ids(cs: Seq<TreePostCondition>, k: ConditionKind) -> Seq<SpecIdentifier> {
    first_occurrences(unresolved_ids(condition_operands(cs, k)))
}

/// Unresolved identifiers with the given names.
pub open spec fn unresolved_ids(names: Seq<Seq<char>>) -> Seq<SpecIdentifier> {
    names.map_values(|n: Seq<char>| unresolved(n))
}

/// Unresolved identifiers with the names of the given strings.
pub open spec fn unresolved_strings(names: Seq<String>) -> Seq<SpecIdentifier> {
    names.map_values(|n: String| unresolved(n@))
}

/// `inner` under the pre-conditions `pre` and the post-conditions `cs`:
/// the excluded labels, in the order written, wrap the symbol first; the
/// restrictions, each operand kept once in the order of its first
/// occurrence, wrap the result, unless there are none.
pub open spec fn restricted_symbol(inner: SpecSymbol, pre: Seq<String>, cs: Seq<TreePostCondition>) -> SpecSymbol {
    let labels = condition_operands(cs, ConditionKind::Exclude);
    let excluded = if labels.len() > 0 { SpecSymbol::Exclude { symbol: Box::new(inner), labels } } else { inner };
    spec_restricted(excluded, SpecRestrictions {
        precede: first_occurrences(unresolved_strings(pre)),
        excepts: restriction_ids(cs, ConditionKind::Except),
        follow: restriction_ids(cs, ConditionKind::Follow),
        layout_aware_follow: restriction_ids(cs, ConditionKind::LayoutAwareFollow),
    })
}

/// The grammar symbol a parse-tree symbol stands for.
pub open spec fn converted_symbol(s: TreeSymbol) -> SpecSymbol
    decreases s, 2int,
{
    match s {
        TreeSymbol::Identifier(t) => SpecSymbol::Identifier(unresolved(t@)),
        TreeSymbol::Lit(t) => SpecSymbol::Literal(unescape_from(t@.subrange(1, t@.len() - 1), 0)),
        TreeSymbol::Paren(seqs) => if seqs@.len() == 1 {
            SpecSymbol::Group(converted_symbols(seqs@[0]@))
        } else {
            SpecSymbol::Alt(paren_choices(seqs@))
        },
        TreeSymbol::Star(x) => SpecSymbol::Star(Box::new(converted_symbol(*x)), None),
        TreeSymbol::Plus(x) => SpecSymbol::Plus(Box::new(converted_symbol(*x)), None),
        TreeSymbol::Opt(x) => SpecSymbol::Opt(Box::new(converted_symbol(*x))),
        TreeSymbol::StarSep(x, sep) => SpecSymbol::Star(
            Box::new(converted_symbol(*x)),
            Some(Box::new(converted_symbol(*sep))),
        ),
        TreeSymbol::PlusSep(x, sep) => SpecSymbol::Plus(
            Box::new(converted_symbol(*x)),
            Some(Box::new(converted_symbol(*sep))),
        ),
        TreeSymbol::Labeled(l, x) => SpecSymbol::Labeled { label: l@, symbol: Box::new(converted_symbol(*x)) },
        TreeSymbol::PostCondition(x, cs) => restricted_symbol(converted_symbol(*x), Seq::empty(), cs@),
        TreeSymbol::PreCondition(pre, x) => match *x {
            TreeSymbol::PostCondition(y, cs) => restricted_symbol(converted_symbol(*y), pre@, cs@),
            _ => restricted_symbol(converted_symbol(*x), pre@, Seq::empty()),
        },
    }
}

/// The grammar symbols of a sequence.
pub open spec fn converted_symbols(syms: Seq<TreeSymbol>) -> Seq<SpecSymbol>
    decreases syms, 1int,
{
    if syms.len() == 0 {
        Seq::empty()
    } else {
        converted_symbols(syms.drop_last()).push(converted_symbol(syms.last()))
    }
}

/// The choices of a parenthesised alternation: a sequence of one symbol is
/// that symbol, a longer one becomes a group.
pub open spec fn paren_choices(groups: Seq<Vec<TreeSymbol>>) -> Seq<SpecSymbol>
    decreases groups, 0int,
{
    if groups.len() == 0 {
        Seq::empty()
    } else {
        let g = groups.last()@;
        paren_choices(groups.drop_last()).push(
            if g.len() == 1 { converted_symbol(g[0]) } else { SpecSymbol::Group(converted_symbols(g)) },
        )
    }
}

proof fn lemma_first_occurrences_push(ids: Seq<SpecIdentifier>, id: SpecIdentifier)
    ensures
        first_occurrences(ids.push(id)) == if first_occurrences(ids).contains(id) {
            first_occurrences(ids)
        } else {
            first_occurrences(ids).push(id)
        },
{
    assert(ids.push(id).drop_last() =~= ids);
}

/// Appends an unresolved identifier named `name` unless `list` holds it.
fn add_restriction(list: &mut Vec<Identifier>, name: &String)
    ensures
        identifiers_view(final(list)@) == if identifiers_view(old(list)@).contains(unresolved(name@)) {
            identifiers_view(old(list)@)
        } else {
            identifiers_view(old(list)@).push(unresolved(name@))
        },
{
    let ghost v = identifiers_view(list@);
    let ghost target = unresolved(name@);
    let mut found = false;
    let mut i: usize = 0;
    while i < list.len()
        invariant
            0 <= i <= list@.len(),
            v == identifiers_view(list@),
            target == unresolved(name@),
            v.len() == list@.len(),
            found ==> v.contains(target),
            !found ==> forall|j: int| 0 <= j < i ==> v[j] != target,
        decreases list@.len() - i,
    {
        let unattached = list[i].definition.is_none();
        let same = str_eq(list[i].name.as_str(), name.as_str());
        proof {
            assert(v[i as int] == list@[i as int]@);
            assert(unattached == (list@[i as int].definition is None));
            assert(same == (list@[i as int].name@ == name@));
        }
        if unattached && same {
            assert(v[i as int] == target);
            assert(v.contains(target));
            found = true;
        } else {
            assert(v[i as int] != target);
        }
        i += 1;
    }
    if !found {
        list.push(Identifier { name: name.clone(), definition: None });
        assert(identifiers_view(list@) =~= v.push(target));
    }
}

/// Builds the symbol `inner` under the pre-conditions `pre` and the
/// post-conditions `cs`; see `restricted_symbol`.
fn restrict(inner: Symbol, pre: &Vec<String>, cs: &Vec<TreePostCondition>) -> (r: Symbol)
    ensures
        r@ == restricted_symbol(inner@, pre@, cs@),
{
    let mut precede: Vec<Identifier> = Vec::new();
    let mut i: usize = 0;
    while i < pre.len()
        invariant
            0 <= i <= pre@.len(),
            identifiers_view(precede@) == first_occurrences(unresolved_strings(pre@.take(i as int))),
        decreases pre@.len() - i,
    {
        add_restriction(&mut precede, &pre[i]);
        proof {
            assert(unresolved_strings(pre@.take(i + 1)) =~= unresolved_strings(pre@.take(i as int)).push(unresolved(pre@[i as int]@)));
            lemma_first_occurrences_push(unresolved_strings(pre@.take(i as int)), unresolved(pre@[i as int]@));
        }
        i += 1;
    }
    assert(pre@.take(pre@.len() as int) =~= pre@);
    let mut labels: Vec<String> = Vec::new();
    let mut excepts: Vec<Identifier> = Vec::new();
    let mut follow: Vec<Identifier> = Vec::new();
    let mut layout_aware_follow: Vec<Identifier> = Vec::new();
    let mut i: usize = 0;
    while i < cs.len()
        invariant
            0 <= i <= cs@.len(),
            crate::grammar::symbols::strings_view(labels@) == condition_operands(cs@.take(i as int), ConditionKind::Exclude),
            identifiers_view(excepts@) == restriction_ids(cs@.take(i as int), ConditionKind::Except),
            identifiers_view(follow@) == restriction_ids(cs@.take(i as int), ConditionKind::Follow),
            identifiers_view(layout_aware_follow@) == restriction_ids(cs@.take(i as int), ConditionKind::LayoutAwareFollow),
        decreases cs@.len() - i,
    {
        let ghost t = cs@.take(i + 1);
        let ghost labels0 = labels@;
        proof {
            assert(t.drop_last() =~= cs@.take(i as int));
            assert(t.last() == cs@[i as int]);
        }
        match &cs[i] {
            TreePostCondition::Exclude(n) => {
                labels.push(n.clone());
                assert(crate::grammar::symbols::strings_view(labels@) =~= crate::grammar::symbols::strings_view(labels0).push(n@));
            },
            TreePostCondition::Except(n) => {
                add_restriction(&mut excepts, n);
                proof {
                    let ops = condition_operands(cs@.take(i as int), ConditionKind::Except);
                    assert(unresolved_ids(ops.push(n@)) =~= unresolved_ids(ops).push(unresolved(n@)));
                    lemma_first_occurrences_push(unresolved_ids(ops), unresolved(n@));
                }
            },
            TreePostCondition::FollowRestriction(n) => {
                add_restriction(&mut follow, n);
                proof {
                    let ops = condition_operands(cs@.take(i as int), ConditionKind::Follow);
                    assert(unresolved_ids(ops.push(n@)) =~= unresolved_ids(ops).push(unresolved(n@)));
                    lemma_first_occurrences_push(unresolved_ids(ops), unresolved(n@));
                }
            },
            TreePostCondition::LayoutAwareFollowRestriction(n) => {
                add_restriction(&mut layout_aware_follow, n);
                proof {
                    let ops = condition_operands(cs@.take(i as int), ConditionKind::LayoutAwareFollow);
                    assert(unresolved_ids(ops.push(n@)) =~= unresolved_ids(ops).push(unresolved(n@)));
                    lemma_first_occurrences_push(unresolved_ids(ops), unresolved(n@));
                }
            },
        }
        i += 1;
    }
    assert(cs@.take(cs@.len() as int) =~= cs@);
    let symbol = if labels.len() > 0 {
        Symbol::Exclude { symbol: Box::new(inner), labels }
    } else {
        inner
    };
    Symbol::restricted(symbol, Restrictions { precede, excepts, follow, layout_aware_follow })
}

/// The grammar symbol a parse-tree symbol stands for: an identifier is
/// left unresolved, a literal's text loses its quotes and its escapes.
pub fn convert_symbol(symbol: &TreeSymbol) -> (r: Symbol)
    requires
        literals_quoted(*symbol),
    ensures
        r@ == converted_symbol(*symbol),
    decreases symbol, 2int,
{
    match symbol {
        TreeSymbol::Identifier(t) => Symbol::Identifier(Identifier { name: t.clone(), definition: None }),
        TreeSymbol::Lit(t) => {
            let n = t.unicode_len();
            Symbol::Literal(unescape_string(t.substring_char(1, n - 1)))
        },
        TreeSymbol::Paren(seqs) => {
            proof {
                lemma_groups_quoted(seqs@);
            }
            if seqs.len() == 1 {
                proof {
                    assert(decreases_to!(*seqs => seqs@[0]));
                }
                Symbol::Group(convert_symbols(&seqs[0]))
            } else {
                Symbol::Alt(convert_choices(seqs))
            }
        },
        TreeSymbol::Star(x) => Symbol::Star(Box::new(convert_symbol(x)), None),
        TreeSymbol::Plus(x) => Symbol::Plus(Box::new(convert_symbol(x)), None),
        TreeSymbol::Opt(x) => Symbol::Opt(Box::new(convert_symbol(x))),
        TreeSymbol::StarSep(x, sep) => Symbol::Star(Box::new(convert_symbol(x)), Some(Box::new(convert_symbol(sep)))),
        TreeSymbol::PlusSep(x, sep) => Symbol::Plus(Box::new(convert_symbol(x)), Some(Box::new(convert_symbol(sep)))),
        TreeSymbol::Labeled(l, x) => Symbol::Labeled { label: l.clone(), symbol: Box::new(convert_symbol(x)) },
        TreeSymbol::PostCondition(x, cs) => {
            let none: Vec<String> = Vec::new();
            restrict(convert_symbol(x), &none, cs)
        },
        TreeSymbol::PreCondition(pre, x) => {
            match &**x {
                TreeSymbol::PostCondition(y, cs) => {
                    proof {
                        assert(literals_quoted(**x));
                    }
                    restrict(convert_symbol(y), pre, cs)
                },
                _ => {
                    let none: Vec<TreePostCondition> = Vec::new();
                    restrict(convert_symbol(x), pre, &none)
                },
            }
        },
    }
}

/// The grammar symbols of a sequence.
fn convert_symbols(syms: &Vec<TreeSymbol>) -> (r: Vec<Symbol>)
    requires
        symbols_quoted(syms@),
    ensures
        symbols_view(r@) == converted_symbols(syms@),
    decreases syms, 1int,
{
    proof {
        lemma_symbols_quoted(syms@);
    }
    let mut out: Vec<Symbol> = Vec::new();
    let mut i: usize = 0;
    while i < syms.len()
        invariant
            0 <= i <= syms@.len(),
            forall|j: int| 0 <= j < syms@.len() ==> literals_quoted(#[trigger] syms@[j]),
            symbols_view(out@) == converted_symbols(syms@.take(i as int)),
        decreases syms@.len() - i,
    {
        proof {
            assert(decreases_to!(*syms => syms@[i as int]));
            assert(syms@.take(i + 1).drop_last() =~= syms@.take(i as int));
        }
        let s = convert_symbol(&syms[i]);
        proof {
            lemma_symbols_view_push(out@, s);
        }
        out.push(s);
        i += 1;
    }
    assert(syms@.take(syms@.len() as int) =~= syms@);
    out
}

/// The choices of a parenthesised alternation; see `paren_choices`.
fn convert_choices(groups: &Vec<Vec<TreeSymbol>>) -> (r: Vec<Symbol>)
    requires
        groups_quoted(groups@),
    ensures
        symbols_view(r@) == paren_choices(groups@),
    decreases groups, 0int,
{
    proof {
        lemma_groups_quoted(groups@);
    }
    let mut out: Vec<Symbol> = Vec::new();
    let mut i: usize = 0;
    while i < groups.len()
        invariant
            0 <= i <= groups@.len(),
            forall|j: int| 0 <= j < groups@.len() ==> symbols_quoted((#[trigger] groups@[j])@),
            symbols_view(out@) == paren_choices(groups@.take(i as int)),
        decreases groups@.len() - i,
    {
        proof {
            assert(decreases_to!(*groups => groups@[i as int]));
            assert(groups@.take(i + 1).drop_last() =~= groups@.take(i as int));
            assert(groups@.take(i + 1).last() == groups@[i as int]);
        }
        let g = &groups[i];
        let s = if g.len() == 1 {
            proof {
                lemma_symbols_quoted(g@);
                assert(decreases_to!(*g => g@[0]));
            }
            convert_symbol(&g[0])
        } else {
            Symbol::Group(convert_symbols(g))
        };
        proof {
            lemma_symbols_view_push(out@, s);
        }
        out.push(s);
        i += 1;
    }
    assert(groups@.take(groups@.len() as int) =~= groups@);
    out
}

/// Whether every literal in `r` has its quotes around a body, a character
/// literal a non-empty one, and every character-class element some text.
pub open spec fn regex_literals_quoted(r: TreeRegex) -> bool
    decreases r, 2int,
{
    match r {
        TreeRegex::Plus(x) => regex_literals_quoted(*x),
        TreeRegex::Star(x) => regex_literals_quoted(*x),
        TreeRegex::Opt(x) => regex_literals_quoted(*x),
        TreeRegex::Paren(seqs) => regex_groups_quoted(seqs@),
        TreeRegex::CharClass(cc) => forall|i: int| 0 <= i < cc.elements@.len() ==> element_has_text(
            #[trigger] cc.elements@[i],
        ),
        TreeRegex::Char(t) => t@.len() >= 3,
        TreeRegex::Lit(t) => t@.len() >= 2,
        TreeRegex::Identifier(_) => true,
    }
}

/// Whether both ends of a range, or its single character, have text.
pub open spec fn element_has_text(e: TreeRangeElement) -> bool {
    match e {
        TreeRangeElement::Range(a, b) => a@.len() > 0 && b@.len() > 0,
        TreeRangeElement::Char(c) => c@.len() > 0,
    }
}

/// See `regex_literals_quoted`.
pub open spec fn regexes_quoted(rs: Seq<TreeRegex>) -> bool
    decreases rs, 1int,
{
    if rs.len() == 0 {
        true
    } else {
        regexes_quoted(rs.drop_last()) && regex_literals_quoted(rs.last())
    }
}

/// See `regex_literals_quoted`.
pub open spec fn regex_groups_quoted(groups: Seq<Vec<TreeRegex>>) -> bool
    decreases groups, 0int,
{
    if groups.len() == 0 {
        true
    } else {
        regex_groups_quoted(groups.drop_last()) && regexes_quoted(groups.last()@)
    }
}

proof fn lemma_regexes_quoted(rs: Seq<TreeRegex>)
    requires
        regexes_quoted(rs),
    ensures
        forall|i: int| 0 <= i < rs.len() ==> regex_literals_quoted(#[trigger] rs[i]),
    decreases rs.len(),
{
    if rs.len() > 0 {
        lemma_regexes_quoted(rs.drop_last());
        assert forall|i: int| 0 <= i < rs.len() implies regex_literals_quoted(#[trigger] rs[i]) by {
            if i < rs.len() - 1 {
                assert(rs[i] == rs.drop_last()[i]);
            }
        }
    }
}

proof fn lemma_regex_groups_quoted(groups: Seq<Vec<TreeRegex>>)
    requires
        regex_groups_quoted(groups),
    ensures
        forall|i: int| 0 <= i < groups.len() ==> regexes_quoted((#[trigger] groups[i])@),
    decreases groups.len(),
{
    if groups.len() > 0 {
        lemma_regex_groups_quoted(groups.drop_last());
        assert forall|i: int| 0 <= i < groups.len() implies regexes_quoted((#[trigger] groups[i])@) by {
            if i < groups.len() - 1 {
                assert(groups[i] == groups.drop_last()[i]);
            }
        }
    }
}

/// The range an element of a character class stands for; a single
/// character is the range from it to itself.
pub open spec fn range_of(e: TreeRangeElement) -> CharRange {
    match e {
        TreeRangeElement::Range(a, b) => CharRange { start: char_of(a@), end: char_of(b@) },
        TreeRangeElement::Char(c) => CharRange { start: char_of(c@), end: char_of(c@) },
    }
}

/// The body of a quoted literal: its text without the first and the last
/// character.
pub open spec fn literal_body(t: Seq<char>) -> Seq<char> {
    t.subrange(1, t.len() - 1)
}

/// The regex a parse-tree regex stands for: a string literal is the
/// sequence of its unescaped characters.
pub open spec fn converted_regex(r: TreeRegex) -> SpecRegex
    decreases r, 2int,
{
    match r {
        TreeRegex::Plus(x) => SpecRegex::Plus(Box::new(converted_regex(*x))),
        TreeRegex::Star(x) => SpecRegex::Star(Box::new(converted_regex(*x))),
        TreeRegex::Opt(x) => SpecRegex::Opt(Box::new(converted_regex(*x))),
        TreeRegex::Paren(seqs) => if seqs@.len() == 1 {
            SpecRegex::Sequence(converted_regexes(seqs@[0]@))
        } else {
            SpecRegex::Alt(regex_paren_choices(seqs@))
        },
        TreeRegex::CharClass(cc) => SpecRegex::CharClass(SpecCharClass {
            ranges: cc.elements@.map_values(|e: TreeRangeElement| range_of(e)),
            negated: cc.negated,
        }),
        TreeRegex::Char(t) => SpecRegex::Char(char_of(literal_body(t@))),
        TreeRegex::Lit(t) => SpecRegex::Sequence(
            char_regexes(unescape_from(literal_body(t@), 0)),
        ),
        TreeRegex::Identifier(t) => SpecRegex::Identifier(unresolved(t@)),
    }
}

/// One character regex for each character.
pub open spec fn char_regexes(cs: Seq<char>) -> Seq<SpecRegex>
    decreases cs.len(),
{
    if cs.len() == 0 {
        Seq::empty()
    } else {
        char_regexes(cs.drop_last()).push(SpecRegex::Char(cs.last()))
    }
}

/// The regexes of a sequence.
pub open spec fn converted_regexes(rs: Seq<TreeRegex>) -> Seq<SpecRegex>
    decreases rs, 1int,
{
    if rs.len() == 0 {
        Seq::empty()
    } else {
        converted_regexes(rs.drop_last()).push(converted_regex(rs.last()))
    }
}

/// The choices of a parenthesised regex alternation: a sequence of one
/// regex is that regex, a longer one becomes a sequence regex.
pub open spec fn regex_paren_choices(groups: Seq<Vec<TreeRegex>>) -> Seq<SpecRegex>
    decreases groups, 0int,
{
    if groups.len() == 0 {
        Seq::empty()
    } else {
        let g = groups.last()@;
        regex_paren_choices(groups.drop_last()).push(
            if g.len() == 1 { converted_regex(g[0]) } else { SpecRegex::Sequence(converted_regexes(g)) },
        )
    }
}

/// The character class a parse-tree class stands for.
fn convert_char_class(cc: &TreeCharClass) -> (r: Regex)
    requires
        forall|i: int| 0 <= i < cc.elements@.len() ==> element_has_text(#[trigger] cc.elements@[i]),
    ensures
        r@ == SpecRegex::CharClass(SpecCharClass {
            ranges: cc.elements@.map_values(|e: TreeRangeElement| range_of(e)),
            negated: cc.negated,
        }),
{
    let mut ranges: Vec<CharRange> = Vec::new();
    let mut i: usize = 0;
    while i < cc.elements.len()
        invariant
            0 <= i <= cc.elements@.len(),
            forall|j: int| 0 <= j < cc.elements@.len() ==> element_has_text(#[trigger] cc.elements@[j]),
            ranges@ == cc.elements@.take(i as int).map_values(|e: TreeRangeElement| range_of(e)),
        decreases cc.elements@.len() - i,
    {
        let range = match &cc.elements[i] {
            TreeRangeElement::Range(a, b) => CharRange {
                start: parse_range_char(a.as_str()),
                end: parse_range_char(b.as_str()),
            },
            TreeRangeElement::Char(c) => {
                let ch = parse_range_char(c.as_str());
                CharRange { start: ch, end: ch }
            },
        };
        ranges.push(range);
        assert(ranges@ =~= cc.elements@.take(i + 1).map_values(|e: TreeRangeElement| range_of(e)));
        i += 1;
    }
    assert(cc.elements@.take(cc.elements@.len() as int) =~= cc.elements@);
    Regex::CharClass(CharClass { ranges, negated: cc.negated })
}

/// One character regex for each character of `text`.
fn char_sequence(text: &String) -> (parts: Vec<Regex>)
    ensures
        regexes_view(parts@) == char_regexes(text@),
{
    let m = text.unicode_len();
    let mut parts: Vec<Regex> = Vec::new();
    assert(text@.take(0) =~= Seq::<char>::empty());
    let mut i: usize = 0;
    while i < m
        invariant
            0 <= i <= m,
            m == text@.len(),
            regexes_view(parts@) == char_regexes(text@.take(i as int)),
        decreases m - i,
    {
        let c = text.get_char(i);
        let ghost before = parts@;
        parts.push(Regex::Char(c));
        proof {
            assert(parts@.drop_last() =~= before);
            assert(text@.take(i + 1).drop_last() =~= text@.take(i as int));
            assert(parts@.last() == Regex::Char(c));
            assert(regex_view(Regex::Char(c)) == SpecRegex::Char(c));
            assert(regexes_view(parts@) == regexes_view(parts@.drop_last()).push(regex_view(parts@.last())));
            assert(regexes_view(parts@) == regexes_view(before).push(SpecRegex::Char(c)));
            assert(text@.take(i + 1).last() == c);
            assert(regexes_view(parts@) == char_regexes(text@.take(i + 1)));
        }
        i += 1;
    }
    assert(text@.take(m as int) =~= text@);
    parts
}

/// The regex a parse-tree regex stands for; see `converted_regex`.
pub fn convert_regex(regex: &TreeRegex) -> (r: Regex)
    requires
        regex_literals_quoted(*regex),
    ensures
        r@ == converted_regex(*regex),
    decreases regex, 2int,
{
    match regex {
        TreeRegex::Plus(x) => Regex::Plus(Box::new(convert_regex(x))),
        TreeRegex::Star(x) => Regex::Star(Box::new(convert_regex(x))),
        TreeRegex::Opt(x) => Regex::Opt(Box::new(convert_regex(x))),
        TreeRegex::Paren(seqs) => {
            proof {
                lemma_regex_groups_quoted(seqs@);
            }
            if seqs.len() == 1 {
                proof {
                    assert(decreases_to!(*seqs => seqs@[0]));
                }
                Regex::Sequence(convert_regexes(&seqs[0]))
            } else {
                Regex::Alt(convert_regex_choices(seqs))
            }
        },
        TreeRegex::CharClass(cc) => convert_char_class(cc),
        TreeRegex::Char(t) => {
            let n = t.unicode_len();
            Regex::Char(parse_char(t.substring_char(1, n - 1)))
        },
        TreeRegex::Lit(t) => {
            let n = t.unicode_len();
            let text = unescape_string(t.substring_char(1, n - 1));
            Regex::Sequence(char_sequence(&text))
        },
        TreeRegex::Identifier(t) => Regex::Identifier(Identifier { name: t.clone(), definition: None }),
    }
}

/// The regexes of a sequence.
fn convert_regexes(rs: &Vec<TreeRegex>) -> (r: Vec<Regex>)
    requires
        regexes_quoted(rs@),
    ensures
        regexes_view(r@) == converted_regexes(rs@),
    decreases rs, 1int,
{
    proof {
        lemma_regexes_quoted(rs@);
    }
    let mut out: Vec<Regex> = Vec::new();
    let mut i: usize = 0;
    while i < rs.len()
        invariant
            0 <= i <= rs@.len(),
            forall|j: int| 0 <= j < rs@.len() ==> regex_literals_quoted(#[trigger] rs@[j]),
            regexes_view(out@) == converted_regexes(rs@.take(i as int)),
        decreases rs@.len() - i,
    {
        proof {
            assert(decreases_to!(*rs => rs@[i as int]));
            assert(rs@.take(i + 1).drop_last() =~= rs@.take(i as int));
        }
        let r = convert_regex(&rs[i]);
        let ghost before = out@;
        out.push(r);
        proof {
            assert(out@.drop_last() =~= before);
        }
        i += 1;
    }
    assert(rs@.take(rs@.len() as int) =~= rs@);
    out
}

/// The choices of a parenthesised regex alternation; see
/// `regex_paren_choices`.
fn convert_regex_choices(groups: &Vec<Vec<TreeRegex>>) -> (r: Vec<Regex>)
    requires
        regex_groups_quoted(groups@),
    ensures
        regexes_view(r@) == regex_paren_choices(groups@),
    decreases groups, 0int,
{
    proof {
        lemma_regex_groups_quoted(groups@);
    }
    let mut out: Vec<Regex> = Vec::new();
    let mut i: usize = 0;
    while i < groups.len()
        invariant
            0 <= i <= groups@.len(),
            forall|j: int| 0 <= j < groups@.len() ==> regexes_quoted((#[trigger] groups@[j])@),
            regexes_view(out@) == regex_paren_choices(groups@.take(i as int)),
        decreases groups@.len() - i,
    {
        proof {
            assert(decreases_to!(*groups => groups@[i as int]));
            assert(groups@.take(i + 1).drop_last() =~= groups@.take(i as int));
            assert(groups@.take(i + 1).last() == groups@[i as int]);
        }
        let g = &groups[i];
        let r = if g.len() == 1 {
            proof {
                lemma_regexes_quoted(g@);
                assert(decreases_to!(*g => g@[0]));
            }
            convert_regex(&g[0])
        } else {
            Regex::Sequence(convert_regexes(g))
        };
        let ghost before = out@;
        out.push(r);
        proof {
            assert(out@.drop_last() =~= before);
        }
        i += 1;
    }
    assert(groups@.take(groups@.len() as int) =~= groups@);
    out
}

/// A label's name: its text without the leading `#`.
pub open spec fn label_name(l: Seq<char>) -> Seq<char> {
    if l.len() > 0 && l[0] == '#' { l.drop_first() } else { l }
}

/// The name of an optional label.
pub open spec fn label_of(label: Option<String>) -> Option<Seq<char>> {
    match label {
        Some(l) => Some(label_name(l@)),
        None => None,
    }
}

/// Whether the literals of an alternative are quoted.
pub open spec fn alternative_quoted(alt: TreeAlternative) -> bool {
    match alt {
        TreeAlternative::Symbols { symbols, .. } => symbols_quoted(symbols@),
        TreeAlternative::Empty { .. } => true,
    }
}

/// The grammar alternative a parse-tree alternative stands for; the empty
/// alternative has no symbols.
pub open spec fn converted_alternative(alt: TreeAlternative) -> SpecAlternative {
    match alt {
        TreeAlternative::Symbols { symbols, label } => SpecAlternative {
            symbols: converted_symbols(symbols@),
            label: label_of(label),
        },
        TreeAlternative::Empty { label } => SpecAlternative { symbols: Seq::empty(), label: label_of(label) },
    }
}

/// The alternatives of a level.
pub open spec fn converted_alternatives(alts: Seq<TreeAlternative>) -> Seq<SpecAlternative>
    decreases alts.len(),
{
    if alts.len() == 0 {
        Seq::empty()
    } else {
        converted_alternatives(alts.drop_last()).push(converted_alternative(alts.last()))
    }
}

/// The associativity a keyword names.
pub open spec fn converted_associativity(a: TreeAssociativity) -> Associativity {
    match a {
        TreeAssociativity::Left => Associativity::Left,
        TreeAssociativity::Right => Associativity::Right,
        TreeAssociativity::NonAssoc => Associativity::NonAssoc,
    }
}

/// The grammar priority level a parse-tree level stands for.
pub open spec fn converted_level(level: TreePriorityLevel) -> SpecPriorityLevel {
    SpecPriorityLevel {
        alternatives: converted_alternatives(level.alternatives@),
        associativity: match level.associativity {
            Some(a) => Some(converted_associativity(a)),
            None => None,
        },
    }
}

/// The levels of a rule.
pub open spec fn converted_levels(levels: Seq<TreePriorityLevel>) -> Seq<SpecPriorityLevel>
    decreases levels.len(),
{
    if levels.len() == 0 {
        Seq::empty()
    } else {
        converted_levels(levels.drop_last()).push(converted_level(levels.last()))
    }
}

/// Whether every alternative of every level has its literals quoted.
pub open spec fn syntax_rule_quoted(rule: TreeSyntaxRule) -> bool {
    forall|i: int, j: int| 0 <= i < rule.priority_levels@.len() && 0 <= j < rule.priority_levels@[i].alternatives@.len()
        ==> alternative_quoted(#[trigger] rule.priority_levels@[i].alternatives@[j])
}

/// The layout strategy an annotation gives: `@NoLayout` none, `@WithLayout`
/// its rule, anything else the default.
pub open spec fn converted_layout(annotation: Option<TreeAnnotation>) -> SpecLayoutStrategy {
    match annotation {
        Some(TreeAnnotation::NoLayout) => SpecLayoutStrategy::NoLayout,
        Some(TreeAnnotation::WithLayout(id)) => SpecLayoutStrategy::Custom(unresolved(id@)),
        _ => SpecLayoutStrategy::Default,
    }
}

/// The grammar rule a parse-tree syntax rule stands for.
pub open spec fn converted_syntax_rule(rule: TreeSyntaxRule) -> SpecSyntaxRule {
    SpecSyntaxRule {
        head: SpecNonterminal { name: rule.head@, origin: None, parameters: Seq::empty() },
        priority_levels: converted_levels(rule.priority_levels@),
        layout: converted_layout(rule.annotation),
    }
}

/// A copy of a label without its leading `#`.
fn convert_label(label: &Option<String>) -> (r: Option<String>)
    ensures
        match r {
            Some(s) => label_of(*label) == Some(s@),
            None => label_of(*label) is None,
        },
{
    match label {
        Some(l) => {
            let n = l.unicode_len();
            if n > 0 && l.get_char(0) == '#' {
                let rest = l.substring_char(1, n);
                assert(rest@ =~= l@.drop_first());
                Some(crate::text::string_of(rest))
            } else {
                Some(l.clone())
            }
        },
        None => None,
    }
}

/// The grammar alternative a parse-tree alternative stands for.
pub fn convert_alternative(alt: &TreeAlternative) -> (r: Alternative)
    requires
        alternative_quoted(*alt),
    ensures
        r@ == converted_alternative(*alt),
{
    match alt {
        TreeAlternative::Symbols { symbols, label } => {
            let symbols = convert_symbols(symbols);
            Alternative { symbols, label: convert_label(label) }
        },
        TreeAlternative::Empty { label } => {
            let symbols: Vec<Symbol> = Vec::new();
            assert(symbols_view(symbols@) =~= Seq::<SpecSymbol>::empty());
            Alternative { symbols, label: convert_label(label) }
        },
    }
}

/// The grammar priority level a parse-tree level stands for.
fn convert_priority_level(level: &TreePriorityLevel) -> (r: PriorityLevel)
    requires
        forall|j: int| 0 <= j < level.alternatives@.len() ==> alternative_quoted(#[trigger] level.alternatives@[j]),
    ensures
        r@ == converted_level(*level),
{
    let mut alternatives: Vec<Alternative> = Vec::new();
    let mut i: usize = 0;
    while i < level.alternatives.len()
        invariant
            0 <= i <= level.alternatives@.len(),
            forall|j: int| 0 <= j < level.alternatives@.len() ==> alternative_quoted(#[trigger] level.alternatives@[j]),
            alternatives_view(alternatives@) == converted_alternatives(level.alternatives@.take(i as int)),
        decreases level.alternatives@.len() - i,
    {
        let a = convert_alternative(&level.alternatives[i]);
        alternatives.push(a);
        proof {
            let t = level.alternatives@.take(i + 1);
            assert(t.drop_last() =~= level.alternatives@.take(i as int));
            assert(t.last() == level.alternatives@[i as int]);
            assert(alternatives_view(alternatives@) =~= converted_alternatives(t));
        }
        i += 1;
    }
    assert(level.alternatives@.take(level.alternatives@.len() as int) =~= level.alternatives@);
    let associativity = match &level.associativity {
        Some(TreeAssociativity::Left) => Some(Associativity::Left),
        Some(TreeAssociativity::Right) => Some(Associativity::Right),
        Some(TreeAssociativity::NonAssoc) => Some(Associativity::NonAssoc),
        None => None,
    };
    PriorityLevel::with_associativity(alternatives, associativity)
}

/// The grammar rule a parse-tree syntax rule stands for: the head is
/// named by its text, and the annotation sets the layout strategy.
pub fn convert_syntax_rule(rule: &TreeSyntaxRule) -> (r: SyntaxRule)
    requires
        syntax_rule_quoted(*rule),
    ensures
        r@ == converted_syntax_rule(*rule),
{
    let ghost levels = rule.priority_levels@;
    let mut priority_levels: Vec<PriorityLevel> = Vec::new();
    let mut i: usize = 0;
    while i < rule.priority_levels.len()
        invariant
            0 <= i <= levels.len(),
            levels == rule.priority_levels@,
            syntax_rule_quoted(*rule),
            levels_view(priority_levels@) == converted_levels(levels.take(i as int)),
        decreases levels.len() - i,
    {
        proof {
            assert forall|j: int| 0 <= j < levels[i as int].alternatives@.len()
                implies alternative_quoted(#[trigger] levels[i as int].alternatives@[j]) by {
                assert(alternative_quoted(rule.priority_levels@[i as int].alternatives@[j]));
            }
        }
        let l = convert_priority_level(&rule.priority_levels[i]);
        priority_levels.push(l);
        proof {
            let t = levels.take(i + 1);
            assert(t.drop_last() =~= levels.take(i as int));
            assert(t.last() == levels[i as int]);
            assert(levels_view(priority_levels@) =~= converted_levels(t));
        }
        i += 1;
    }
    assert(levels.take(levels.len() as int) =~= levels);
    let layout = match &rule.annotation {
        Some(TreeAnnotation::NoLayout) => LayoutStrategy::NoLayout,
        Some(TreeAnnotation::WithLayout(id)) => LayoutStrategy::Custom(Identifier { name: id.clone(), definition: None }),
        _ => LayoutStrategy::Default,
    };
    let mut r = SyntaxRule::new(Nonterminal::new(rule.head.as_str()), priority_levels);
    r.layout = layout;
    r
}

/// The operands of a lexical rule's except conditions (`except`), or of its
/// follow restrictions, in the order written.
pub open spec fn regex_operands(cs: Seq<TreeRegexPostCondition>, except: bool) -> Seq<Seq<char>>
    decreases cs.len(),
{
    if cs.len() == 0 {
        Seq::empty()
    } else {
        let prev = regex_operands(cs.drop_last(), except);
        match cs.last() {
            TreeRegexPostCondition::Except(n) => if except { prev.push(n@) } else { prev },
            TreeRegexPostCondition::FollowRestriction(n) => if except { prev } else { prev.push(n@) },
        }
    }
}

/// One sequence regex for each alternative of a lexical rule's body.
pub open spec fn regex_sequences(groups: Seq<Vec<TreeRegex>>) -> Seq<SpecRegex>
    decreases groups.len(),
{
    if groups.len() == 0 {
        Seq::empty()
    } else {
        regex_sequences(groups.drop_last()).push(SpecRegex::Sequence(converted_regexes(groups.last()@)))
    }
}

/// The lexical rule a parse-tree lexical rule stands for: its regex is the
/// choice between its alternatives, each a sequence.
pub open spec fn converted_lexical_rule(rule: TreeRegexRule) -> SpecLexicalRule {
    SpecLexicalRule {
        head: SpecTerminal { name: rule.name@, literal: None },
        regex: SpecRegex::Alt(regex_sequences(rule.body@)),
        except: unresolved_ids(regex_operands(rule.post_conditions@, true)),
        follow_restriction: unresolved_ids(regex_operands(rule.post_conditions@, false)),
        precede_restriction: match rule.pre_condition {
            Some(p) => Some(unresolved(p@)),
            None => None,
        },
    }
}

/// The lexical rule a parse-tree lexical rule stands for.
pub fn convert_regex_rule(rule: &TreeRegexRule) -> (r: LexicalRule)
    requires
        regex_groups_quoted(rule.body@),
    ensures
        r@ == converted_lexical_rule(*rule),
{
    proof {
        lemma_regex_groups_quoted(rule.body@);
    }
    let ghost body = rule.body@;
    let mut parts: Vec<Regex> = Vec::new();
    let mut i: usize = 0;
    while i < rule.body.len()
        invariant
            0 <= i <= body.len(),
            body == rule.body@,
            forall|j: int| 0 <= j < body.len() ==> regexes_quoted((#[trigger] body[j])@),
            regexes_view(parts@) == regex_sequences(body.take(i as int)),
        decreases body.len() - i,
    {
        let seq = Regex::Sequence(convert_regexes(&rule.body[i]));
        let ghost before = parts@;
        parts.push(seq);
        proof {
            let t = body.take(i + 1);
            assert(t.drop_last() =~= body.take(i as int));
            assert(t.last() == body[i as int]);
            assert(parts@.drop_last() =~= before);
            assert(regexes_view(parts@) == regexes_view(parts@.drop_last()).push(regex_view(parts@.last())));
        }
        i += 1;
    }
    assert(body.take(body.len() as int) =~= body);
    let mut except: Vec<Identifier> = Vec::new();
    let mut follow_restriction: Vec<Identifier> = Vec::new();
    let ghost cs = rule.post_conditions@;
    let mut i: usize = 0;
    while i < rule.post_conditions.len()
        invariant
            0 <= i <= cs.len(),
            cs == rule.post_conditions@,
            identifiers_view(except@) == unresolved_ids(regex_operands(cs.take(i as int), true)),
            identifiers_view(follow_restriction@) == unresolved_ids(regex_operands(cs.take(i as int), false)),
        decreases cs.len() - i,
    {
        proof {
            let t = cs.take(i + 1);
            assert(t.drop_last() =~= cs.take(i as int));
            assert(t.last() == cs[i as int]);
        }
        match &rule.post_conditions[i] {
            TreeRegexPostCondition::Except(n) => {
                let ghost before = except@;
                except.push(Identifier { name: n.clone(), definition: None });
                proof {
                    let ops = regex_operands(cs.take(i as int), true);
                    assert(regex_operands(cs.take(i + 1), true) == ops.push(n@));
                    assert(identifiers_view(except@) =~= identifiers_view(before).push(unresolved(n@)));
                    assert(unresolved_ids(ops.push(n@)) =~= unresolved_ids(ops).push(unresolved(n@)));
                }
            },
            TreeRegexPostCondition::FollowRestriction(n) => {
                let ghost before = follow_restriction@;
                follow_restriction.push(Identifier { name: n.clone(), definition: None });
                proof {
                    let ops = regex_operands(cs.take(i as int), false);
                    assert(regex_operands(cs.take(i + 1), false) == ops.push(n@));
                    assert(identifiers_view(follow_restriction@) =~= identifiers_view(before).push(unresolved(n@)));
                    assert(unresolved_ids(ops.push(n@)) =~= unresolved_ids(ops).push(unresolved(n@)));
                }
            },
        }
        i += 1;
    }
    assert(cs.take(cs.len() as int) =~= cs);
    let precede_restriction = match &rule.pre_condition {
        Some(p) => Some(Identifier { name: p.clone(), definition: None }),
        None => None,
    };
    let mut r = LexicalRule::new(Terminal::new(rule.name.as_str()), Regex::Alt(parts));
    r.except = except;
    r.follow_restriction = follow_restriction;
    r.precede_restriction = precede_restriction;
    r
}

/// Whether a rule is marked as the grammar's layout: `@Layout` on a syntax
/// rule or on a lexical rule.
pub open spec fn marks_layout(r: TreeRule) -> bool {
    match r {
        TreeRule::Syntax(s) => s.annotation matches Some(TreeAnnotation::Layout),
        TreeRule::Regex(x) => x.layout,
    }
}

/// The name a rule defines.
pub open spec fn tree_rule_name(r: TreeRule) -> Seq<char> {
    match r {
        TreeRule::Syntax(s) => s.head@,
        TreeRule::Regex(x) => x.name@,
    }
}

/// The name of the last rule marked as layout, if any.
pub open spec fn layout_rule_name(rules: Seq<TreeRule>) -> Option<Seq<char>>
    decreases rules.len(),
{
    if rules.len() == 0 {
        None
    } else if marks_layout(rules.last()) {
        Some(tree_rule_name(rules.last()))
    } else {
        layout_rule_name(rules.drop_last())
    }
}

/// A syntax rule, with no layout inside it if it is the layout rule.
pub open spec fn outside_layout(r: SpecSyntaxRule, layout: Option<Seq<char>>) -> SpecSyntaxRule {
    if layout == Some(r.head.name) { SpecSyntaxRule { layout: SpecLayoutStrategy::NoLayout, ..r } } else { r }
}

/// The syntax rules of a grammar in order.
pub open spec fn grammar_syntax_rules(rules: Seq<TreeRule>, layout: Option<Seq<char>>) -> Seq<SpecSyntaxRule>
    decreases rules.len(),
{
    if rules.len() == 0 {
        Seq::empty()
    } else {
        let prev = grammar_syntax_rules(rules.drop_last(), layout);
        match rules.last() {
            TreeRule::Syntax(s) => prev.push(outside_layout(converted_syntax_rule(s), layout)),
            TreeRule::Regex(_) => prev,
        }
    }
}

/// The lexical rules of a grammar in order.
pub open spec fn grammar_lexical_rules(rules: Seq<TreeRule>) -> Seq<SpecLexicalRule>
    decreases rules.len(),
{
    if rules.len() == 0 {
        Seq::empty()
    } else {
        let prev = grammar_lexical_rules(rules.drop_last());
        match rules.last() {
            TreeRule::Regex(x) => prev.push(converted_lexical_rule(x)),
            TreeRule::Syntax(_) => prev,
        }
    }
}

/// The lexical rules marked `@Identifier`, in order.
pub open spec fn grammar_identifier_rules(rules: Seq<TreeRule>) -> Seq<SpecIdentifier>
    decreases rules.len(),
{
    if rules.len() == 0 {
        Seq::empty()
    } else {
        let prev = grammar_identifier_rules(rules.drop_last());
        match rules.last() {
            TreeRule::Regex(x) => if x.identifier { prev.push(unresolved(x.name@)) } else { prev },
            TreeRule::Syntax(_) => prev,
        }
    }
}

/// Whether the literals of every rule are quoted.
pub open spec fn grammar_quoted(g: TreeGrammar) -> bool {
    forall|i: int| 0 <= i < g.rules@.len() ==> match #[trigger] g.rules@[i] {
        TreeRule::Syntax(s) => syntax_rule_quoted(s),
        TreeRule::Regex(x) => regex_groups_quoted(x.body@),
    }
}

/// The grammar a parse tree stands for: its rules in order, split into
/// syntax and lexical rules; the last rule marked `@Layout` is the layout,
/// and no layout is inserted inside it.
pub open spec fn built_grammar(g: TreeGrammar) -> SpecGrammarDef {
    let layout = layout_rule_name(g.rules@);
    SpecGrammarDef {
        name: g.name@,
        syntax_rules: grammar_syntax_rules(g.rules@, layout),
        lexical_rules: grammar_lexical_rules(g.rules@),
        layout: match layout {
            Some(n) => Some(SpecSymbol::Identifier(unresolved(n))),
            None => None,
        },
        identifier_rules: grammar_identifier_rules(g.rules@),
    }
}

/// The name of the last rule marked as layout.
fn find_layout_name(rules: &Vec<TreeRule>) -> (r: Option<String>)
    ensures
        match r {
            Some(n) => layout_rule_name(rules@) == Some(n@),
            None => layout_rule_name(rules@) is None,
        },
{
    let mut found: Option<String> = None;
    let mut i: usize = 0;
    while i < rules.len()
        invariant
            0 <= i <= rules@.len(),
            match found {
                Some(n) => layout_rule_name(rules@.take(i as int)) == Some(n@),
                None => layout_rule_name(rules@.take(i as int)) is None,
            },
        decreases rules@.len() - i,
    {
        proof {
            let t = rules@.take(i + 1);
            assert(t.drop_last() =~= rules@.take(i as int));
            assert(t.last() == rules@[i as int]);
        }
        match &rules[i] {
            TreeRule::Syntax(s) => {
                if let Some(TreeAnnotation::Layout) = &s.annotation {
                    found = Some(s.head.clone());
                }
            },
            TreeRule::Regex(x) => {
                if x.layout {
                    found = Some(x.name.clone());
                }
            },
        }
        i += 1;
    }
    assert(rules@.take(rules@.len() as int) =~= rules@);
    found
}

/// The grammar a parse tree stands for; see `built_grammar`.
pub fn build_grammar(g: &TreeGrammar) -> (r: GrammarDef)
    requires
        grammar_quoted(*g),
    ensures
        r@ == built_grammar(*g),
{
    let layout_name = find_layout_name(&g.rules);
    let ghost layout = layout_rule_name(g.rules@);
    let ghost rules = g.rules@;
    let mut syntax_rules: Vec<SyntaxRule> = Vec::new();
    let mut lexical_rules: Vec<LexicalRule> = Vec::new();
    let mut identifier_rules: Vec<Identifier> = Vec::new();
    let mut i: usize = 0;
    while i < g.rules.len()
        invariant
            0 <= i <= rules.len(),
            rules == g.rules@,
            grammar_quoted(*g),
            layout == layout_rule_name(rules),
            match layout_name {
                Some(n) => layout == Some(n@),
                None => layout is None,
            },
            syntax_rules_view(syntax_rules@) == grammar_syntax_rules(rules.take(i as int), layout),
            lexical_rules_view(lexical_rules@) == grammar_lexical_rules(rules.take(i as int)),
            identifiers_view(identifier_rules@) == grammar_identifier_rules(rules.take(i as int)),
        decreases rules.len() - i,
    {
        let ghost t = rules.take(i + 1);
        proof {
            assert(t.drop_last() =~= rules.take(i as int));
            assert(t.last() == rules[i as int]);
        }
        match &g.rules[i] {
            TreeRule::Syntax(s) => {
                let mut c = convert_syntax_rule(s);
                let inside = match &layout_name {
                    Some(n) => str_eq(c.head.name.as_str(), n.as_str()),
                    None => false,
                };
                if inside {
                    c.layout = LayoutStrategy::NoLayout;
                }
                assert(c@ == outside_layout(converted_syntax_rule(*s), layout));
                let ghost before = syntax_rules@;
                syntax_rules.push(c);
                assert(syntax_rules_view(syntax_rules@) =~= syntax_rules_view(before).push(c@));
            },
            TreeRule::Regex(x) => {
                let c = convert_regex_rule(x);
                let ghost before = lexical_rules@;
                lexical_rules.push(c);
                assert(lexical_rules_view(lexical_rules@) =~= lexical_rules_view(before).push(c@));
                if x.identifier {
                    let ghost ids = identifier_rules@;
                    identifier_rules.push(Identifier { name: x.name.clone(), definition: None });
                    assert(identifiers_view(identifier_rules@) =~= identifiers_view(ids).push(unresolved(x.name@)));
                }
            },
        }
        i += 1;
    }
    assert(rules.take(rules.len() as int) =~= rules);
    let layout_symbol = match layout_name {
        Some(n) => Some(Symbol::Identifier(Identifier { name: n, definition: None })),
        None => None,
    };
    GrammarDef { name: g.name.clone(), syntax_rules, lexical_rules, layout: layout_symbol, identifier_rules }
}

/// Each restriction operand is recorded once: the operands kept are those
/// written, each exactly once.
pub proof fn restrictions_are_recorded_once(ids: Seq<SpecIdentifier>)
    ensures
        first_occurrences(ids).no_duplicates(),
        forall|x: SpecIdentifier| first_occurrences(ids).contains(x) <==> ids.contains(x),
    decreases ids.len(),
{
    if ids.len() > 0 {
        let prev = ids.drop_last();
        restrictions_are_recorded_once(prev);
        let d = first_occurrences(prev);
        assert(first_occurrences(ids) == if d.contains(ids.last()) { d } else { d.push(ids.last()) });
        assert forall|x: SpecIdentifier| first_occurrences(ids).contains(x) <==> ids.contains(x) by {
            if ids.contains(x) {
                let k = choose|k: int| 0 <= k < ids.len() && ids[k] == x;
                if k < ids.len() - 1 {
                    assert(prev[k] == x);
                    assert(prev.contains(x));
                    assert(d.contains(x));
                    if !d.contains(ids.last()) {
                        let j = choose|j: int| 0 <= j < d.len() && d[j] == x;
                        assert(d.push(ids.last())[j] == x);
                    }
                } else if !d.contains(x) {
                    assert(d.push(x)[d.len() as int] == x);
                }
            }
            if first_occurrences(ids).contains(x) {
                if d.contains(x) {
                    assert(prev.contains(x));
                    let k = choose|k: int| 0 <= k < prev.len() && prev[k] == x;
                    assert(ids[k] == x);
                } else {
                    let k = choose|k: int| 0 <= k < d.push(ids.last()).len() && d.push(ids.last())[k] == x;
                    if k < d.len() {
                        assert(d[k] == x);
                    }
                    assert(ids[ids.len() - 1] == x);
                }
            }
        }
        if !d.contains(ids.last()) {
            let r = d.push(ids.last());
            assert forall|i: int, j: int| 0 <= i < r.len() && 0 <= j < r.len() && i != j implies r[i] != r[j] by {
                if i == d.len() {
                    assert(d[j] == r[j]);
                } else if j == d.len() {
                    assert(d[i] == r[i]);
                }
            }
        }
    }
}

} // verus!
