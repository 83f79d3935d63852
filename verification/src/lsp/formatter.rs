//! Canonical text of the rules of an Iggy grammar, from their parse-tree
//! nodes. Comments are not part of these nodes; the caller places them.
use vstd::prelude::*;
use crate::grammar::symbols::strings_view;
use crate::lsp::format::{joined, push_joined, wrap_chunks, wrap_chunks_view};
use crate::text::{push_char, push_str};
use crate::tree::{
    ConditionKind, TreeAlternative, TreeGrammar, TreeRule, TreeAnnotation, TreeAssociativity, TreeCharClass, TreePostCondition, TreePriorityLevel,
    TreeRangeElement, TreeRegex, TreeRegexPostCondition, TreeRegexRule, TreeSymbol, TreeSyntaxRule,
};

verus! {

/// The text of `c` if it is of kind `k`, else nothing.
pub open spec fn condition_part(c: TreePostCondition, k: ConditionKind) -> Seq<char> {
    match (c, k) {
        (TreePostCondition::Exclude(n), ConditionKind::Exclude) => seq!['!'] + n@,
        (TreePostCondition::Except(n), ConditionKind::Except) => seq![' ', '\\', ' '] + n@,
        (TreePostCondition::FollowRestriction(n), ConditionKind::Follow) => seq![' ', '!', '>', '>', ' '] + n@,
        (TreePostCondition::LayoutAwareFollowRestriction(n), ConditionKind::LayoutAwareFollow) =>
            seq![' ', '!', '>', '>', '>', ' '] + n@,
        _ => Seq::empty(),
    }
}

/// The texts of the conditions of kind `k`, in their order.
pub open spec fn conditions_part(cs: Seq<TreePostCondition>, k: ConditionKind) -> Seq<char>
    decreases cs.len(),
{
    if cs.len() == 0 {
        Seq::empty()
    } else {
        conditions_part(cs.drop_last(), k) + condition_part(cs.last(), k)
    }
}

/// The post-conditions in canonical order: excludes, then excepts, then
/// follow restrictions, then layout-aware follow restrictions.
pub open spec fn post_conditions_text(cs: Seq<TreePostCondition>) -> Seq<char> {
    conditions_part(cs, ConditionKind::Exclude) + conditions_part(cs, ConditionKind::Except)
        + conditions_part(cs, ConditionKind::Follow) + conditions_part(cs, ConditionKind::LayoutAwareFollow)
}

/// Each identifier followed by ` !<< `.
pub open spec fn pre_conditions_text(ids: Seq<String>) -> Seq<char>
    decreases ids.len(),
{
    if ids.len() == 0 {
        Seq::empty()
    } else {
        pre_conditions_text(ids.drop_last()) + ids.last()@ + seq![' ', '!', '<', '<', ' ']
    }
}

/// The canonical text of a symbol.
pub open spec fn tree_symbol_text(s: TreeSymbol) -> Seq<char>
    decreases s, 2int,
{
    match s {
        TreeSymbol::Identifier(t) => t@,
        TreeSymbol::Lit(t) => t@,
        TreeSymbol::Paren(seqs) => seq!['('] + tree_groups_text(seqs@) + seq![')'],
        TreeSymbol::Star(x) => tree_symbol_text(*x) + seq!['*'],
        TreeSymbol::Plus(x) => tree_symbol_text(*x) + seq!['+'],
        TreeSymbol::Opt(x) => tree_symbol_text(*x) + seq!['?'],
        TreeSymbol::StarSep(x, sep) => seq!['{', ' '] + tree_symbol_text(*x) + seq![' '] + tree_symbol_text(*sep)
            + seq![' ', '}', '*'],
        TreeSymbol::PlusSep(x, sep) => seq!['{', ' '] + tree_symbol_text(*x) + seq![' '] + tree_symbol_text(*sep)
            + seq![' ', '}', '+'],
        TreeSymbol::PostCondition(x, cs) => tree_symbol_text(*x) + post_conditions_text(cs@),
        TreeSymbol::PreCondition(ids, x) => pre_conditions_text(ids@) + tree_symbol_text(*x),
        TreeSymbol::Labeled(l, x) => l@ + seq![':'] + tree_symbol_text(*x),
    }
}

/// The texts of `syms` separated by single spaces.
pub open spec fn tree_symbols_text(syms: Seq<TreeSymbol>) -> Seq<char>
    decreases syms, 1int,
{
    if syms.len() == 0 {
        Seq::empty()
    } else if syms.len() == 1 {
        tree_symbol_text(syms[0])
    } else {
        tree_symbols_text(syms.drop_last()) + seq![' '] + tree_symbol_text(syms.last())
    }
}

/// The sequences of a parenthesised group, separated by ` | `.
pub open spec fn tree_groups_text(groups: Seq<Vec<TreeSymbol>>) -> Seq<char>
    decreases groups, 0int,
{
    if groups.len() == 0 {
        Seq::empty()
    } else if groups.len() == 1 {
        tree_symbols_text(groups[0]@)
    } else {
        tree_groups_text(groups.drop_last()) + seq![' ', '|', ' '] + tree_symbols_text(groups.last()@)
    }
}

/// Appends the texts of the conditions of kind `k`.
fn push_conditions(out: &mut String, cs: &Vec<TreePostCondition>, k: ConditionKind)
    ensures
        final(out)@ == old(out)@ + conditions_part(cs@, k),
{
    let ghost start = out@;
    let mut i: usize = 0;
    while i < cs.len()
        invariant
            0 <= i <= cs@.len(),
            out@ == start + conditions_part(cs@.take(i as int), k),
        decreases cs@.len() - i,
    {
        proof {
            reveal_strlit(" \\ ");
            reveal_strlit(" !>> ");
            reveal_strlit(" !>>> ");
            assert(cs@.take(i + 1).drop_last() =~= cs@.take(i as int));
        }
        match (&cs[i], k) {
            (TreePostCondition::Exclude(n), ConditionKind::Exclude) => {
                push_char(out, '!');
                push_str(out, n.as_str());
            },
            (TreePostCondition::Except(n), ConditionKind::Except) => {
                push_str(out, " \\ ");
                push_str(out, n.as_str());
            },
            (TreePostCondition::FollowRestriction(n), ConditionKind::Follow) => {
                push_str(out, " !>> ");
                push_str(out, n.as_str());
            },
            (TreePostCondition::LayoutAwareFollowRestriction(n), ConditionKind::LayoutAwareFollow) => {
                push_str(out, " !>>> ");
                push_str(out, n.as_str());
            },
            _ => {},
        }
        proof {
            assert(out@ =~= start + conditions_part(cs@.take(i + 1), k));
        }
        i += 1;
    }
    assert(cs@.take(cs@.len() as int) =~= cs@);
}

/// Appends each identifier followed by ` !<< `.
fn push_pre_conditions(out: &mut String, ids: &Vec<String>)
    ensures
        final(out)@ == old(out)@ + pre_conditions_text(ids@),
{
    let ghost start = out@;
    let mut i: usize = 0;
    while i < ids.len()
        invariant
            0 <= i <= ids@.len(),
            out@ == start + pre_conditions_text(ids@.take(i as int)),
        decreases ids@.len() - i,
    {
        proof {
            reveal_strlit(" !<< ");
            assert(ids@.take(i + 1).drop_last() =~= ids@.take(i as int));
        }
        push_str(out, ids[i].as_str());
        push_str(out, " !<< ");
        proof {
            assert(out@ =~= start + pre_conditions_text(ids@.take(i + 1)));
        }
        i += 1;
    }
    assert(ids@.take(ids@.len() as int) =~= ids@);
}

/// Appends the canonical text of a symbol.
pub fn format_symbol(out: &mut String, symbol: &TreeSymbol)
    ensures
        final(out)@ == old(out)@ + tree_symbol_text(*symbol),
    decreases symbol, 2int,
{
    proof {
        reveal_strlit("{ ");
        reveal_strlit(" }*");
        reveal_strlit(" }+");
    }
    match symbol {
        TreeSymbol::Identifier(t) => push_str(out, t.as_str()),
        TreeSymbol::Lit(t) => push_str(out, t.as_str()),
        TreeSymbol::Paren(seqs) => {
            push_char(out, '(');
            format_groups(out, seqs);
            push_char(out, ')');
        },
        TreeSymbol::Star(x) => {
            format_symbol(out, x);
            push_char(out, '*');
        },
        TreeSymbol::Plus(x) => {
            format_symbol(out, x);
            push_char(out, '+');
        },
        TreeSymbol::Opt(x) => {
            format_symbol(out, x);
            push_char(out, '?');
        },
        TreeSymbol::StarSep(x, sep) => {
            push_str(out, "{ ");
            format_symbol(out, x);
            push_char(out, ' ');
            format_symbol(out, sep);
            push_str(out, " }*");
        },
        TreeSymbol::PlusSep(x, sep) => {
            push_str(out, "{ ");
            format_symbol(out, x);
            push_char(out, ' ');
            format_symbol(out, sep);
            push_str(out, " }+");
        },
        TreeSymbol::PostCondition(x, cs) => {
            format_symbol(out, x);
            push_conditions(out, cs, ConditionKind::Exclude);
            push_conditions(out, cs, ConditionKind::Except);
            push_conditions(out, cs, ConditionKind::Follow);
            push_conditions(out, cs, ConditionKind::LayoutAwareFollow);
        },
        TreeSymbol::PreCondition(ids, x) => {
            push_pre_conditions(out, ids);
            format_symbol(out, x);
        },
        TreeSymbol::Labeled(l, x) => {
            push_str(out, l.as_str());
            push_char(out, ':');
            format_symbol(out, x);
        },
    }
    assert(out@ =~= old(out)@ + tree_symbol_text(*symbol));
}

/// Appends the texts of `symbols` separated by single spaces.
pub fn format_symbols(out: &mut String, symbols: &Vec<TreeSymbol>)
    ensures
        final(out)@ == old(out)@ + tree_symbols_text(symbols@),
    decreases symbols, 1int,
{
    let ghost start = out@;
    let mut i: usize = 0;
    while i < symbols.len()
        invariant
            0 <= i <= symbols@.len(),
            out@ == start + tree_symbols_text(symbols@.take(i as int)),
        decreases symbols@.len() - i,
    {
        proof {
            assert(decreases_to!(*symbols => symbols@[i as int]));
            assert(symbols@.take(i + 1).drop_last() =~= symbols@.take(i as int));
        }
        if i > 0 {
            push_char(out, ' ');
        }
        format_symbol(out, &symbols[i]);
        proof {
            let t = symbols@.take(i + 1);
            assert(t.last() == symbols@[i as int]);
            if i == 0 {
                assert(t[0] == symbols@[0]);
            }
            assert(out@ =~= start + tree_symbols_text(t));
        }
        i += 1;
    }
    assert(symbols@.take(symbols@.len() as int) =~= symbols@);
}

/// Appends the sequences of a group separated by ` | `.
fn format_groups(out: &mut String, groups: &Vec<Vec<TreeSymbol>>)
    ensures
        final(out)@ == old(out)@ + tree_groups_text(groups@),
    decreases groups, 0int,
{
    let ghost start = out@;
    let mut i: usize = 0;
    while i < groups.len()
        invariant
            0 <= i <= groups@.len(),
            out@ == start + tree_groups_text(groups@.take(i as int)),
        decreases groups@.len() - i,
    {
        proof {
            reveal_strlit(" | ");
            assert(decreases_to!(*groups => groups@[i as int]));
            assert(groups@.take(i + 1).drop_last() =~= groups@.take(i as int));
        }
        if i > 0 {
            push_str(out, " | ");
        }
        format_symbols(out, &groups[i]);
        proof {
            let t = groups@.take(i + 1);
            assert(t.last() == groups@[i as int]);
            if i == 0 {
                assert(t[0] == groups@[0]);
            }
            assert(out@ =~= start + tree_groups_text(t));
        }
        i += 1;
    }
    assert(groups@.take(groups@.len() as int) =~= groups@);
}

/// The text of one element of a character class.
pub open spec fn range_element_text(e: TreeRangeElement) -> Seq<char> {
    match e {
        TreeRangeElement::Range(a, b) => a@ + seq!['-'] + b@,
        TreeRangeElement::Char(c) => c@,
    }
}

/// The texts of the elements, with nothing between them.
pub open spec fn range_elements_text(es: Seq<TreeRangeElement>) -> Seq<char>
    decreases es.len(),
{
    if es.len() == 0 {
        Seq::empty()
    } else {
        range_elements_text(es.drop_last()) + range_element_text(es.last())
    }
}

/// A character class has no spaces inside its brackets.
pub open spec fn char_class_text(cc: TreeCharClass) -> Seq<char> {
    (if cc.negated { seq!['!'] } else { Seq::empty() }) + seq!['['] + range_elements_text(cc.elements@) + seq![']']
}

/// The canonical text of a regex.
pub open spec fn tree_regex_text(r: TreeRegex) -> Seq<char>
    decreases r, 2int,
{
    match r {
        TreeRegex::Plus(x) => tree_regex_text(*x) + seq!['+'],
        TreeRegex::Star(x) => tree_regex_text(*x) + seq!['*'],
        TreeRegex::Opt(x) => tree_regex_text(*x) + seq!['?'],
        TreeRegex::Paren(seqs) => seq!['('] + tree_regex_groups_text(seqs@) + seq![')'],
        TreeRegex::CharClass(cc) => char_class_text(cc),
        TreeRegex::Char(t) => t@,
        TreeRegex::Lit(t) => t@,
        TreeRegex::Identifier(t) => t@,
    }
}

/// The texts of `regexes` separated by single spaces.
pub open spec fn tree_regexes_text(regexes: Seq<TreeRegex>) -> Seq<char>
    decreases regexes, 1int,
{
    if regexes.len() == 0 {
        Seq::empty()
    } else if regexes.len() == 1 {
        tree_regex_text(regexes[0])
    } else {
        tree_regexes_text(regexes.drop_last()) + seq![' '] + tree_regex_text(regexes.last())
    }
}

/// The sequences of a parenthesised regex, separated by ` | `.
pub open spec fn tree_regex_groups_text(groups: Seq<Vec<TreeRegex>>) -> Seq<char>
    decreases groups, 0int,
{
    if groups.len() == 0 {
        Seq::empty()
    } else if groups.len() == 1 {
        tree_regexes_text(groups[0]@)
    } else {
        tree_regex_groups_text(groups.drop_last()) + seq![' ', '|', ' '] + tree_regexes_text(groups.last()@)
    }
}

/// Appends the text of a character class.
fn format_char_class(out: &mut String, cc: &TreeCharClass)
    ensures
        final(out)@ == old(out)@ + char_class_text(*cc),
{
    let ghost start = out@;
    if cc.negated {
        push_char(out, '!');
    }
    push_char(out, '[');
    let ghost mid = out@;
    let es = &cc.elements;
    let mut i: usize = 0;
    while i < es.len()
        invariant
            0 <= i <= es@.len(),
            es@ == cc.elements@,
            out@ == mid + range_elements_text(es@.take(i as int)),
        decreases es@.len() - i,
    {
        proof {
            assert(es@.take(i + 1).drop_last() =~= es@.take(i as int));
        }
        match &es[i] {
            TreeRangeElement::Range(a, b) => {
                push_str(out, a.as_str());
                push_char(out, '-');
                push_str(out, b.as_str());
            },
            TreeRangeElement::Char(c) => push_str(out, c.as_str()),
        }
        proof {
            assert(out@ =~= mid + range_elements_text(es@.take(i + 1)));
        }
        i += 1;
    }
    assert(es@.take(es@.len() as int) =~= es@);
    push_char(out, ']');
    assert(out@ =~= start + char_class_text(*cc));
}

/// Appends the canonical text of a regex.
pub fn format_regex(out: &mut String, regex: &TreeRegex)
    ensures
        final(out)@ == old(out)@ + tree_regex_text(*regex),
    decreases regex, 2int,
{
    match regex {
        TreeRegex::Plus(x) => {
            format_regex(out, x);
            push_char(out, '+');
        },
        TreeRegex::Star(x) => {
            format_regex(out, x);
            push_char(out, '*');
        },
        TreeRegex::Opt(x) => {
            format_regex(out, x);
            push_char(out, '?');
        },
        TreeRegex::Paren(seqs) => {
            push_char(out, '(');
            format_regex_groups(out, seqs);
            push_char(out, ')');
        },
        TreeRegex::CharClass(cc) => format_char_class(out, cc),
        TreeRegex::Char(t) => push_str(out, t.as_str()),
        TreeRegex::Lit(t) => push_str(out, t.as_str()),
        TreeRegex::Identifier(t) => push_str(out, t.as_str()),
    }
    assert(out@ =~= old(out)@ + tree_regex_text(*regex));
}

/// Appends the texts of `regexes` separated by single spaces.
pub fn format_regexes(out: &mut String, regexes: &Vec<TreeRegex>)
    ensures
        final(out)@ == old(out)@ + tree_regexes_text(regexes@),
    decreases regexes, 1int,
{
    let ghost start = out@;
    let mut i: usize = 0;
    while i < regexes.len()
        invariant
            0 <= i <= regexes@.len(),
            out@ == start + tree_regexes_text(regexes@.take(i as int)),
        decreases regexes@.len() - i,
    {
        proof {
            assert(decreases_to!(*regexes => regexes@[i as int]));
            assert(regexes@.take(i + 1).drop_last() =~= regexes@.take(i as int));
        }
        if i > 0 {
            push_char(out, ' ');
        }
        format_regex(out, &regexes[i]);
        proof {
            let t = regexes@.take(i + 1);
            assert(t.last() == regexes@[i as int]);
            if i == 0 {
                assert(t[0] == regexes@[0]);
            }
            assert(out@ =~= start + tree_regexes_text(t));
        }
        i += 1;
    }
    assert(regexes@.take(regexes@.len() as int) =~= regexes@);
}

/// Appends the sequences of a parenthesised regex separated by ` | `.
fn format_regex_groups(out: &mut String, groups: &Vec<Vec<TreeRegex>>)
    ensures
        final(out)@ == old(out)@ + tree_regex_groups_text(groups@),
    decreases groups, 0int,
{
    let ghost start = out@;
    let mut i: usize = 0;
    while i < groups.len()
        invariant
            0 <= i <= groups@.len(),
            out@ == start + tree_regex_groups_text(groups@.take(i as int)),
        decreases groups@.len() - i,
    {
        proof {
            reveal_strlit(" | ");
            assert(decreases_to!(*groups => groups@[i as int]));
            assert(groups@.take(i + 1).drop_last() =~= groups@.take(i as int));
        }
        if i > 0 {
            push_str(out, " | ");
        }
        format_regexes(out, &groups[i]);
        proof {
            let t = groups@.take(i + 1);
            assert(t.last() == groups@[i as int]);
            if i == 0 {
                assert(t[0] == groups@[0]);
            }
            assert(out@ =~= start + tree_regex_groups_text(t));
        }
        i += 1;
    }
    assert(groups@.take(groups@.len() as int) =~= groups@);
}

/// Lines longer than this many characters are wrapped.
pub open spec fn max_line_width() -> int {
    80
}

/// The lead of the first alternative of a rule.
pub open spec fn rule_prefix() -> Seq<char> {
    seq![' ', ' ', '=', ' ']
}

/// The lead of a further alternative of a priority level.
pub open spec fn alt_prefix() -> Seq<char> {
    seq![' ', ' ', '|', ' ']
}

/// The lead of the first alternative of a further priority level.
pub open spec fn prio_prefix() -> Seq<char> {
    seq![' ', ' ', '>', ' ']
}

/// The lead of a continuation line: six spaces.
pub open spec fn cont_indent() -> Seq<char> {
    seq![' ', ' ', ' ', ' ', ' ', ' ']
}

/// Each line after a line break.
pub open spec fn lines_text(lines: Seq<Seq<char>>) -> Seq<char>
    decreases lines.len(),
{
    if lines.len() == 0 {
        Seq::empty()
    } else {
        lines_text(lines.drop_last()) + seq!['\n'] + lines.last()
    }
}

/// Appends each line after a line break.
fn push_lines(out: &mut String, lines: &Vec<String>)
    ensures
        final(out)@ == old(out)@ + lines_text(strings_view(lines@)),
{
    let ghost start = out@;
    let ghost lv = strings_view(lines@);
    let mut i: usize = 0;
    while i < lines.len()
        invariant
            0 <= i <= lines@.len(),
            lv == strings_view(lines@),
            out@ == start + lines_text(lv.take(i as int)),
        decreases lines@.len() - i,
    {
        proof {
            assert(lv.take(i + 1).drop_last() =~= lv.take(i as int));
        }
        push_char(out, '\n');
        push_str(out, lines[i].as_str());
        proof {
            assert(out@ =~= start + lines_text(lv.take(i + 1)));
        }
        i += 1;
    }
    assert(lv.take(lines@.len() as int) =~= lv);
}

/// The texts of the regexes of a sequence, one chunk each.
pub open spec fn regex_chunks_view(regexes: Seq<TreeRegex>) -> Seq<Seq<char>> {
    regexes.map_values(|r: TreeRegex| tree_regex_text(r))
}

/// The texts of the regexes of a sequence, one string each.
fn regex_chunks(regexes: &Vec<TreeRegex>) -> (chunks: Vec<String>)
    ensures
        strings_view(chunks@) == regex_chunks_view(regexes@),
{
    let mut chunks: Vec<String> = Vec::new();
    let mut i: usize = 0;
    while i < regexes.len()
        invariant
            0 <= i <= regexes@.len(),
            chunks@.len() == i,
            strings_view(chunks@) == regex_chunks_view(regexes@.take(i as int)),
        decreases regexes@.len() - i,
    {
        let mut s = String::new();
        format_regex(&mut s, &regexes[i]);
        assert(s@ == tree_regex_text(regexes@[i as int]));
        let ghost prev = chunks@;
        chunks.push(s);
        proof {
            let t = regexes@.take(i + 1);
            assert(t[i as int] == regexes@[i as int]);
            assert forall|j: int| 0 <= j < i + 1 implies #[trigger] strings_view(chunks@)[j] == regex_chunks_view(t)[j] by {
                if j < i {
                    assert(strings_view(prev)[j] == regex_chunks_view(regexes@.take(i as int))[j]);
                    assert(t[j] == regexes@.take(i as int)[j]);
                }
            }
            assert(strings_view(chunks@) =~= regex_chunks_view(t));
        }
        i += 1;
    }
    assert(regexes@.take(regexes@.len() as int) =~= regexes@);
    chunks
}

/// The annotation line of a lexical rule.
pub open spec fn regex_annotations_text(rule: TreeRegexRule) -> Seq<char> {
    (if rule.layout { seq!['@', 'L', 'a', 'y', 'o', 'u', 't', ' '] } else { Seq::empty() })
        + (if rule.identifier { seq!['@', 'I', 'd', 'e', 'n', 't', 'i', 'f', 'i', 'e', 'r', ' '] } else { Seq::empty() })
        + seq!['@', 'R', 'e', 'g', 'e', 'x', '\n']
}

/// The pre-condition of a lexical rule, `Name !<< `, or nothing.
pub open spec fn regex_pre_text(rule: TreeRegexRule) -> Seq<char> {
    match rule.pre_condition {
        Some(id) => id@ + seq![' ', '!', '<', '<', ' '],
        None => Seq::empty(),
    }
}

/// The post-conditions of a lexical rule, in the order written.
pub open spec fn regex_post_text(cs: Seq<TreeRegexPostCondition>) -> Seq<char>
    decreases cs.len(),
{
    if cs.len() == 0 {
        Seq::empty()
    } else {
        regex_post_text(cs.drop_last()) + match cs.last() {
            TreeRegexPostCondition::Except(n) => seq![' ', '\\', ' '] + n@,
            TreeRegexPostCondition::FollowRestriction(n) => seq![' ', '!', '>', '>', ' '] + n@,
        }
    }
}

/// The lines of the alternatives of a lexical rule's body, each wrapped on
/// its own: the first after `  = ` and the pre-condition, the others after
/// `  | `.
pub open spec fn regex_body_lines_text(pre: Seq<char>, groups: Seq<Vec<TreeRegex>>) -> Seq<char>
    decreases groups.len(),
{
    if groups.len() == 0 {
        Seq::empty()
    } else {
        regex_body_lines_text(pre, groups.drop_last()) + lines_text(wrap_chunks_view(
            if groups.len() == 1 { rule_prefix() + pre } else { alt_prefix() },
            regex_chunks_view(groups.last()@),
            cont_indent(),
            max_line_width(),
        ))
    }
}

/// A lexical rule of one alternative on one line: `name = body`.
pub open spec fn regex_single_line(rule: TreeRegexRule) -> Seq<char> {
    rule.name@ + seq![' ', '=', ' '] + regex_pre_text(rule) + joined(regex_chunks_view(rule.body@[0]@))
        + regex_post_text(rule.post_conditions@)
}

/// Whether a lexical rule takes more than its head line: it has several
/// alternatives, or its single line would exceed the width.
pub open spec fn regex_rule_multi_line(rule: TreeRegexRule) -> bool {
    rule.body@.len() > 1 || regex_single_line(rule).len() > max_line_width()
}

/// The text of a lexical rule: the annotations on a line, then the rule on
/// one line, or the name followed by the wrapped alternatives, the
/// post-conditions after the last.
pub open spec fn regex_rule_text(rule: TreeRegexRule) -> Seq<char> {
    regex_annotations_text(rule) + if regex_rule_multi_line(rule) {
        rule.name@ + regex_body_lines_text(regex_pre_text(rule), rule.body@) + regex_post_text(rule.post_conditions@)
    } else {
        regex_single_line(rule)
    }
}

/// Appends the post-conditions of a lexical rule.
fn push_regex_post_conditions(out: &mut String, cs: &Vec<TreeRegexPostCondition>)
    ensures
        final(out)@ == old(out)@ + regex_post_text(cs@),
{
    let ghost start = out@;
    let mut i: usize = 0;
    while i < cs.len()
        invariant
            0 <= i <= cs@.len(),
            out@ == start + regex_post_text(cs@.take(i as int)),
        decreases cs@.len() - i,
    {
        proof {
            reveal_strlit(" \\ ");
            reveal_strlit(" !>> ");
            assert(cs@.take(i + 1).drop_last() =~= cs@.take(i as int));
        }
        match &cs[i] {
            TreeRegexPostCondition::Except(n) => {
                push_str(out, " \\ ");
                push_str(out, n.as_str());
            },
            TreeRegexPostCondition::FollowRestriction(n) => {
                push_str(out, " !>> ");
                push_str(out, n.as_str());
            },
        }
        proof {
            assert(out@ =~= start + regex_post_text(cs@.take(i + 1)));
        }
        i += 1;
    }
    assert(cs@.take(cs@.len() as int) =~= cs@);
}

/// Appends the wrapped lines of the alternatives of a lexical rule.
fn push_regex_body_lines(out: &mut String, pre: &str, groups: &Vec<Vec<TreeRegex>>)
    ensures
        final(out)@ == old(out)@ + regex_body_lines_text(pre@, groups@),
{
    let ghost after_name = out@;
    let mut i: usize = 0;
    while i < groups.len()
        invariant
            0 <= i <= groups@.len(),
            out@ == after_name + regex_body_lines_text(pre@, groups@.take(i as int)),
        decreases groups@.len() - i,
    {
        proof {
            reveal_strlit("  = ");
            reveal_strlit("  | ");
            reveal_strlit("      ");
            assert(groups@.take(i + 1).drop_last() =~= groups@.take(i as int));
        }
        let chunks = regex_chunks(&groups[i]);
        let mut prefix = String::new();
        if i == 0 {
            push_str(&mut prefix, "  = ");
            push_str(&mut prefix, pre);
        } else {
            push_str(&mut prefix, "  | ");
        }
        let lines = wrap_chunks(prefix.as_str(), &chunks, "      ", 80);
        push_lines(out, &lines);
        proof {
            let t = groups@.take(i + 1);
            assert(t.last() == groups@[i as int]);
            if i == 0 {
                assert(prefix@ =~= rule_prefix() + pre@);
            } else {
                assert(prefix@ =~= alt_prefix());
            }
            assert(("      ")@ =~= cont_indent());
            assert(strings_view(lines@) == wrap_chunks_view(prefix@, regex_chunks_view(t.last()@), cont_indent(), max_line_width()));
            assert(regex_body_lines_text(pre@, t) == regex_body_lines_text(pre@, t.drop_last()) + lines_text(strings_view(lines@)));
            assert(out@ =~= after_name + regex_body_lines_text(pre@, t));
        }
        i += 1;
    }
    assert(groups@.take(groups@.len() as int) =~= groups@);
}

/// Appends the formatted lexical rule and returns whether its body spans
/// more than one line.
#[verifier::rlimit(40)]
pub fn format_regex_rule(out: &mut String, rule: &TreeRegexRule) -> (multi_line: bool)
    requires
        rule.body@.len() >= 1,
    ensures
        final(out)@ == old(out)@ + regex_rule_text(*rule),
        multi_line == regex_rule_multi_line(*rule),
{
    proof {
        reveal_strlit("@Layout ");
        reveal_strlit("@Identifier ");
        reveal_strlit("@Regex\n");
        reveal_strlit(" !<< ");
        reveal_strlit(" = ");
        reveal_strlit("  = ");
        reveal_strlit("  | ");
        reveal_strlit("      ");
    }
    let ghost start = out@;
    if rule.layout {
        push_str(out, "@Layout ");
    }
    if rule.identifier {
        push_str(out, "@Identifier ");
    }
    push_str(out, "@Regex\n");
    assert(out@ =~= start + regex_annotations_text(*rule));
    let ghost after_annotations = out@;
    let mut pre = String::new();
    if let Some(p) = &rule.pre_condition {
        push_str(&mut pre, p.as_str());
        push_str(&mut pre, " !<< ");
    }
    assert(pre@ =~= regex_pre_text(*rule));
    let mut post = String::new();
    push_regex_post_conditions(&mut post, &rule.post_conditions);
    let chunks0 = regex_chunks(&rule.body[0]);
    let mut single = String::new();
    push_str(&mut single, rule.name.as_str());
    push_str(&mut single, " = ");
    push_str(&mut single, pre.as_str());
    push_joined(&mut single, &chunks0);
    push_str(&mut single, post.as_str());
    assert(single@ =~= regex_single_line(*rule));
    if rule.body.len() <= 1 && single.unicode_len() <= 80 {
        push_str(out, single.as_str());
        return false;
    }
    push_str(out, rule.name.as_str());
    push_regex_body_lines(out, pre.as_str(), &rule.body);
    push_str(out, post.as_str());
    assert(out@ =~= start + regex_rule_text(*rule));
    true
}

/// The text of a syntax rule's annotation.
pub open spec fn annotation_text(a: TreeAnnotation) -> Seq<char> {
    match a {
        TreeAnnotation::NoLayout => seq!['@', 'N', 'o', 'L', 'a', 'y', 'o', 'u', 't'],
        TreeAnnotation::Layout => seq!['@', 'L', 'a', 'y', 'o', 'u', 't'],
        TreeAnnotation::WithLayout(id) => seq!['@', 'W', 'i', 't', 'h', 'L', 'a', 'y', 'o', 'u', 't', '('] + id@
            + seq![')'],
    }
}

/// The keyword of an associativity.
pub open spec fn associativity_text(a: TreeAssociativity) -> Seq<char> {
    match a {
        TreeAssociativity::Left => seq!['l', 'e', 'f', 't'],
        TreeAssociativity::Right => seq!['r', 'i', 'g', 'h', 't'],
        TreeAssociativity::NonAssoc => seq!['n', 'o', 'n', 'e'],
    }
}

/// The chunks of an alternative: its symbols, or `()` for the empty
/// alternative.
pub open spec fn alternative_chunks(alt: TreeAlternative) -> Seq<Seq<char>> {
    match alt {
        TreeAlternative::Symbols { symbols, .. } => symbols@.map_values(|s: TreeSymbol| tree_symbol_text(s)),
        TreeAlternative::Empty { .. } => seq![seq!['(', ')']],
    }
}

/// The label of an alternative, as written.
pub open spec fn alternative_label(alt: TreeAlternative) -> Option<Seq<char>> {
    match alt {
        TreeAlternative::Symbols { label, .. } => match label {
            Some(l) => Some(l@),
            None => None,
        },
        TreeAlternative::Empty { label } => match label {
            Some(l) => Some(l@),
            None => None,
        },
    }
}

/// The chunks of alternative `ai` of a level: the associativity keyword
/// leads the first alternative of a level that has one.
pub open spec fn level_alternative_chunks(level: TreePriorityLevel, ai: int) -> Seq<Seq<char>> {
    (if ai == 0 && level.associativity is Some {
        seq![associativity_text(level.associativity->Some_0)]
    } else {
        Seq::empty()
    }) + alternative_chunks(level.alternatives@[ai])
}

/// The lead of alternative `ai`: `  = ` on the rule's first level, `  > `
/// on a later level, `  | ` for any alternative after the first.
pub open spec fn alternative_lead(first_level: bool, ai: int) -> Seq<char> {
    if ai == 0 {
        if first_level { rule_prefix() } else { prio_prefix() }
    } else {
        alt_prefix()
    }
}

/// The wrapped lines and the label of each alternative of a level.
pub open spec fn level_alternatives(level: TreePriorityLevel, first_level: bool) -> Seq<(Seq<Seq<char>>, Option<Seq<char>>)> {
    Seq::new(
        level.alternatives@.len(),
        |ai: int| (
            wrap_chunks_view(alternative_lead(first_level, ai), level_alternative_chunks(level, ai), cont_indent(),
                max_line_width()),
            alternative_label(level.alternatives@[ai]),
        ),
    )
}

/// The wrapped lines and the label of each alternative of a rule, level by
/// level.
pub open spec fn rule_alternatives(levels: Seq<TreePriorityLevel>) -> Seq<(Seq<Seq<char>>, Option<Seq<char>>)>
    decreases levels.len(),
{
    if levels.len() == 0 {
        Seq::empty()
    } else {
        rule_alternatives(levels.drop_last()) + level_alternatives(levels.last(), levels.len() == 1)
    }
}

/// The length of the longest of `lines`, 0 if there are none.
pub open spec fn longest_line(lines: Seq<Seq<char>>) -> int
    decreases lines.len(),
{
    if lines.len() == 0 {
        0
    } else {
        let m = longest_line(lines.drop_last());
        if lines.last().len() > m { lines.last().len() as int } else { m }
    }
}

/// The length of the longest line of any alternative.
pub open spec fn longest_alternative_line(alts: Seq<(Seq<Seq<char>>, Option<Seq<char>>)>) -> int
    decreases alts.len(),
{
    if alts.len() == 0 {
        0
    } else {
        let m = longest_alternative_line(alts.drop_last());
        let l = longest_line(alts.last().0);
        if l > m { l } else { m }
    }
}

/// Whether some alternative has a label.
pub open spec fn any_label(alts: Seq<(Seq<Seq<char>>, Option<Seq<char>>)>) -> bool {
    exists|i: int| 0 <= i < alts.len() && (#[trigger] alts[i]).1 is Some
}

/// The column where labels start: one past the longest line of any
/// alternative of the rule, or 0 if no alternative has a label.
pub open spec fn label_column(alts: Seq<(Seq<Seq<char>>, Option<Seq<char>>)>) -> int {
    if any_label(alts) { longest_alternative_line(alts) + 1 } else { 0 }
}

/// `n` spaces.
pub open spec fn spaces(n: int) -> Seq<char> {
    Seq::new(n as nat, |i: int| ' ')
}

/// An alternative's lines, each after a line break, then its label padded
/// to `column` on the last line.
pub open spec fn alternative_text(alt: (Seq<Seq<char>>, Option<Seq<char>>), column: int) -> Seq<char> {
    lines_text(alt.0) + match alt.1 {
        Some(l) => spaces(column - alt.0.last().len()) + l,
        None => Seq::empty(),
    }
}

/// The texts of the alternatives, one after another.
pub open spec fn alternatives_text(alts: Seq<(Seq<Seq<char>>, Option<Seq<char>>)>, column: int) -> Seq<char>
    decreases alts.len(),
{
    if alts.len() == 0 {
        Seq::empty()
    } else {
        alternatives_text(alts.drop_last(), column) + alternative_text(alts.last(), column)
    }
}

/// The text of a syntax rule: its annotation on a line of its own, the
/// head, then each alternative on its own lines with labels aligned.
pub open spec fn syntax_rule_text(rule: TreeSyntaxRule) -> Seq<char> {
    let alts = rule_alternatives(rule.priority_levels@);
    (match rule.annotation {
        Some(a) => annotation_text(a) + seq!['\n'],
        None => Seq::empty(),
    }) + rule.head@ + alternatives_text(alts, label_column(alts))
}

/// Wrapping gives at least one line.
proof fn lemma_wrap_nonempty(prefix: Seq<char>, chunks: Seq<Seq<char>>, ci: Seq<char>, w: int)
    ensures
        wrap_chunks_view(prefix, chunks, ci, w).len() >= 1,
{
}

/// No line is longer than the longest.
pub proof fn lemma_longest_line(lines: Seq<Seq<char>>)
    ensures
        longest_line(lines) >= 0,
        forall|j: int| 0 <= j < lines.len() ==> (#[trigger] lines[j]).len() <= longest_line(lines),
    decreases lines.len(),
{
    if lines.len() > 0 {
        lemma_longest_line(lines.drop_last());
        assert forall|j: int| 0 <= j < lines.len() implies (#[trigger] lines[j]).len() <= longest_line(lines) by {
            if j < lines.len() - 1 {
                assert(lines[j] == lines.drop_last()[j]);
            }
        }
    }
}

/// No alternative has a line longer than the longest of all.
pub proof fn lemma_longest_alternative_line(alts: Seq<(Seq<Seq<char>>, Option<Seq<char>>)>)
    ensures
        longest_alternative_line(alts) >= 0,
        forall|i: int| 0 <= i < alts.len() ==> longest_line((#[trigger] alts[i]).0) <= longest_alternative_line(alts),
    decreases alts.len(),
{
    if alts.len() > 0 {
        lemma_longest_alternative_line(alts.drop_last());
        lemma_longest_line(alts.last().0);
        assert forall|i: int| 0 <= i < alts.len() implies longest_line((#[trigger] alts[i]).0) <= longest_alternative_line(alts) by {
            if i < alts.len() - 1 {
                assert(alts[i] == alts.drop_last()[i]);
            }
        }
    }
}

/// An alternative formatted into lines, before label alignment.
struct FormattedAlt {
    lines: Vec<String>,
    label: Option<String>,
}

spec fn formatted_view(fa: FormattedAlt) -> (Seq<Seq<char>>, Option<Seq<char>>) {
    (strings_view(fa.lines@), match fa.label {
        Some(l) => Some(l@),
        None => None,
    })
}

spec fn formatted_views(fas: Seq<FormattedAlt>) -> Seq<(Seq<Seq<char>>, Option<Seq<char>>)> {
    fas.map_values(|fa: FormattedAlt| formatted_view(fa))
}

/// Appends the text of an annotation.
fn format_annotation(out: &mut String, a: &TreeAnnotation)
    ensures
        final(out)@ == old(out)@ + annotation_text(*a),
{
    proof {
        reveal_strlit("@NoLayout");
        reveal_strlit("@Layout");
        reveal_strlit("@WithLayout(");
    }
    match a {
        TreeAnnotation::NoLayout => push_str(out, "@NoLayout"),
        TreeAnnotation::Layout => push_str(out, "@Layout"),
        TreeAnnotation::WithLayout(id) => {
            push_str(out, "@WithLayout(");
            push_str(out, id.as_str());
            push_char(out, ')');
        },
    }
    assert(out@ =~= old(out)@ + annotation_text(*a));
}

/// Appends the text of each symbol to `chunks`, one string each.
fn symbol_chunks(symbols: &Vec<TreeSymbol>, chunks: &mut Vec<String>)
    ensures
        strings_view(final(chunks)@) == strings_view(old(chunks)@) + symbols@.map_values(|s: TreeSymbol| tree_symbol_text(s)),
{
    let ghost start = strings_view(chunks@);
    let mut i: usize = 0;
    while i < symbols.len()
        invariant
            0 <= i <= symbols@.len(),
            chunks@.len() == start.len() + i,
            strings_view(chunks@) == start + symbols@.take(i as int).map_values(|s: TreeSymbol| tree_symbol_text(s)),
        decreases symbols@.len() - i,
    {
        let mut s = String::new();
        format_symbol(&mut s, &symbols[i]);
        let ghost prev = chunks@;
        chunks.push(s);
        proof {
            let t = symbols@.take(i + 1);
            let goal = start + t.map_values(|s: TreeSymbol| tree_symbol_text(s));
            assert forall|j: int| 0 <= j < chunks@.len() implies #[trigger] strings_view(chunks@)[j] == goal[j] by {
                if j < prev.len() {
                    assert(strings_view(prev)[j] == (start + symbols@.take(i as int).map_values(|s: TreeSymbol| tree_symbol_text(s)))[j]);
                    if j >= start.len() {
                        assert(t[j - start.len()] == symbols@.take(i as int)[j - start.len()]);
                    }
                } else {
                    assert(t[i as int] == symbols@[i as int]);
                }
            }
            assert(strings_view(chunks@) =~= goal);
        }
        i += 1;
    }
    assert(symbols@.take(symbols@.len() as int) =~= symbols@);
}

/// The associativity keyword as a string.
fn associativity_string(a: &TreeAssociativity) -> (s: String)
    ensures
        s@ == associativity_text(*a),
{
    proof {
        reveal_strlit("left");
        reveal_strlit("right");
        reveal_strlit("none");
    }
    let mut s = String::new();
    match a {
        TreeAssociativity::Left => push_str(&mut s, "left"),
        TreeAssociativity::Right => push_str(&mut s, "right"),
        TreeAssociativity::NonAssoc => push_str(&mut s, "none"),
    }
    assert(s@ =~= associativity_text(*a));
    s
}

/// A copy of a label.
fn copy_label(label: &Option<String>) -> (r: Option<String>)
    ensures
        match *label {
            Some(l) => r is Some && r->Some_0@ == l@,
            None => r is None,
        },
{
    match label {
        Some(l) => Some(l.clone()),
        None => None,
    }
}

/// Formats alternative `ai` of a level into lines.
fn format_alternative(level: &TreePriorityLevel, first_level: bool, ai: usize) -> (fa: FormattedAlt)
    requires
        ai < level.alternatives@.len(),
    ensures
        formatted_view(fa) == level_alternatives(*level, first_level)[ai as int],
{
    proof {
        reveal_strlit("  = ");
        reveal_strlit("  > ");
        reveal_strlit("  | ");
        reveal_strlit("      ");
        reveal_strlit("()");
    }
    let mut chunks: Vec<String> = Vec::new();
    if ai == 0 {
        if let Some(a) = &level.associativity {
            chunks.push(associativity_string(a));
        }
    }
    assert(strings_view(chunks@) =~= if ai == 0 && level.associativity is Some {
        seq![associativity_text(level.associativity->Some_0)]
    } else {
        Seq::empty()
    });
    let ghost lead_chunks = strings_view(chunks@);
    let label = match &level.alternatives[ai] {
        TreeAlternative::Symbols { symbols, label } => {
            symbol_chunks(symbols, &mut chunks);
            copy_label(label)
        },
        TreeAlternative::Empty { label } => {
            let ghost prev = chunks@;
            let unit = crate::text::string_of("()");
            assert(unit@ =~= seq!['(', ')']);
            chunks.push(unit);
            assert(strings_view(chunks@) =~= strings_view(prev) + seq![seq!['(', ')']]);
            copy_label(label)
        },
    };
    assert(strings_view(chunks@) == level_alternative_chunks(*level, ai as int));
    let prefix = if ai == 0 {
        if first_level { "  = " } else { "  > " }
    } else {
        "  | "
    };
    assert(prefix@ =~= alternative_lead(first_level, ai as int));
    assert(("      ")@ =~= cont_indent());
    let lines = wrap_chunks(prefix, &chunks, "      ", 80);
    FormattedAlt { lines, label }
}

/// Formats each alternative of a level into lines, after those in `alts`.
fn format_level(level: &TreePriorityLevel, first_level: bool, alts: &mut Vec<FormattedAlt>)
    ensures
        formatted_views(final(alts)@) == formatted_views(old(alts)@) + level_alternatives(*level, first_level),
{
    let ghost start = formatted_views(alts@);
    let ghost goal = level_alternatives(*level, first_level);
    let mut ai: usize = 0;
    while ai < level.alternatives.len()
        invariant
            0 <= ai <= level.alternatives@.len(),
            goal == level_alternatives(*level, first_level),
            alts@.len() == start.len() + ai,
            formatted_views(alts@) == start + goal.take(ai as int),
        decreases level.alternatives@.len() - ai,
    {
        let fa = format_alternative(level, first_level, ai);
        let ghost prev = alts@;
        alts.push(fa);
        proof {
            assert forall|j: int| 0 <= j < alts@.len() implies #[trigger] formatted_views(alts@)[j] == (start + goal.take(ai + 1))[j] by {
                if j < prev.len() {
                    assert(formatted_views(prev)[j] == (start + goal.take(ai as int))[j]);
                }
            }
            assert(formatted_views(alts@) =~= start + goal.take(ai + 1));
        }
        ai += 1;
    }
    assert(goal.take(goal.len() as int) =~= goal);
}

/// The length in characters of the longest of `lines`.
fn longest_line_of(lines: &Vec<String>) -> (m: usize)
    ensures
        m == longest_line(strings_view(lines@)),
{
    let ghost lv = strings_view(lines@);
    let mut m: usize = 0;
    let mut i: usize = 0;
    while i < lines.len()
        invariant
            0 <= i <= lines@.len(),
            lv == strings_view(lines@),
            m == longest_line(lv.take(i as int)),
        decreases lines@.len() - i,
    {
        proof {
            assert(lv.take(i + 1).drop_last() =~= lv.take(i as int));
        }
        let n = lines[i].unicode_len();
        if n > m {
            m = n;
        }
        i += 1;
    }
    assert(lv.take(lines@.len() as int) =~= lv);
    m
}

/// Every alternative of a rule has at least one line.
proof fn lemma_rule_alternatives_nonempty(levels: Seq<TreePriorityLevel>)
    ensures
        forall|i: int| 0 <= i < rule_alternatives(levels).len() ==> (#[trigger] rule_alternatives(levels)[i]).0.len() >= 1,
    decreases levels.len(),
{
    if levels.len() > 0 {
        lemma_rule_alternatives_nonempty(levels.drop_last());
        let prev = rule_alternatives(levels.drop_last());
        let lv = level_alternatives(levels.last(), levels.len() == 1);
        assert forall|i: int| 0 <= i < rule_alternatives(levels).len() implies (#[trigger] rule_alternatives(levels)[i]).0.len() >= 1 by {
            if i < prev.len() {
                assert(rule_alternatives(levels)[i] == prev[i]);
            } else {
                let ai = i - prev.len();
                assert(rule_alternatives(levels)[i] == lv[ai]);
                lemma_wrap_nonempty(alternative_lead(levels.len() == 1, ai),
                    level_alternative_chunks(levels.last(), ai), cont_indent(), max_line_width());
            }
        }
    }
}

/// Appends one formatted alternative, its label padded to the column one
/// past `longest`.
fn push_alternative(out: &mut String, fa: &FormattedAlt, longest: usize, has_label: bool)
    requires
        fa.lines@.len() >= 1,
        fa.label is Some ==> has_label,
        longest_line(strings_view(fa.lines@)) <= longest,
    ensures
        final(out)@ == old(out)@ + alternative_text(formatted_view(*fa), if has_label { longest + 1 } else { 0 }),
{
    let ghost lv = strings_view(fa.lines@);
    push_lines(out, &fa.lines);
    if let Some(label) = &fa.label {
        let ghost base = out@;
        let last_len = fa.lines[fa.lines.len() - 1].unicode_len();
        proof {
            lemma_longest_line(lv);
            assert(lv[lv.len() - 1].len() == last_len);
        }
        let gap = longest - last_len;
        push_char(out, ' ');
        let mut k: usize = 0;
        while k < gap
            invariant
                0 <= k <= gap,
                out@ == base + spaces(k + 1),
            decreases gap - k,
        {
            push_char(out, ' ');
            proof {
                assert(out@ =~= base + spaces(k + 2));
            }
            k += 1;
        }
        assert(lv.last() == lv[lv.len() - 1]);
        assert(spaces(gap + 1) =~= spaces((longest + 1) - lv.last().len()));
        push_str(out, label.as_str());
    }
    assert(out@ =~= old(out)@ + alternative_text(formatted_view(*fa), if has_label { longest + 1 } else { 0 }));
}

/// Appends the formatted syntax rule: its annotation on a line of its
/// own, its head, then its alternatives, wrapped at the width, each label
/// aligned one column past the longest line of any alternative.
pub fn format_syntax_rule(out: &mut String, rule: &TreeSyntaxRule)
    ensures
        final(out)@ == old(out)@ + syntax_rule_text(*rule),
{
    let ghost start = out@;
    if let Some(a) = &rule.annotation {
        format_annotation(out, a);
        push_char(out, '\n');
    }
    push_str(out, rule.head.as_str());
    let ghost after_head = out@;
    let ghost levels = rule.priority_levels@;
    let mut alts: Vec<FormattedAlt> = Vec::new();
    let mut pi: usize = 0;
    while pi < rule.priority_levels.len()
        invariant
            0 <= pi <= levels.len(),
            levels == rule.priority_levels@,
            formatted_views(alts@) == rule_alternatives(levels.take(pi as int)),
        decreases levels.len() - pi,
    {
        proof {
            assert(levels.take(pi + 1).drop_last() =~= levels.take(pi as int));
        }
        format_level(&rule.priority_levels[pi], pi == 0, &mut alts);
        proof {
            assert(levels.take(pi + 1).last() == levels[pi as int]);
        }
        pi += 1;
    }
    assert(levels.take(levels.len() as int) =~= levels);
    let ghost views = formatted_views(alts@);
    proof {
        lemma_rule_alternatives_nonempty(levels);
    }
    let mut longest: usize = 0;
    let mut has_label = false;
    let mut i: usize = 0;
    while i < alts.len()
        invariant
            0 <= i <= alts@.len(),
            views == formatted_views(alts@),
            longest == longest_alternative_line(views.take(i as int)),
            has_label == any_label(views.take(i as int)),
        decreases alts@.len() - i,
    {
        proof {
            assert(views.take(i + 1).drop_last() =~= views.take(i as int));
            assert(views.take(i + 1).last() == views[i as int]);
        }
        let m = longest_line_of(&alts[i].lines);
        if m > longest {
            longest = m;
        }
        if alts[i].label.is_some() {
            has_label = true;
        }
        proof {
            let t = views.take(i + 1);
            if has_label {
                if alts@[i as int].label is Some {
                    assert(t[i as int].1 is Some);
                } else {
                    let j = choose|j: int| 0 <= j < i && (#[trigger] views.take(i as int)[j]).1 is Some;
                    assert(t[j] == views.take(i as int)[j]);
                }
            } else {
                assert forall|j: int| 0 <= j < t.len() implies !((#[trigger] t[j]).1 is Some) by {
                    if j < i {
                        assert(t[j] == views.take(i as int)[j]);
                    }
                }
            }
        }
        i += 1;
    }
    assert(views.take(alts@.len() as int) =~= views);
    proof {
        lemma_longest_alternative_line(views);
    }
    let ghost column = label_column(views);
    let mut i: usize = 0;
    while i < alts.len()
        invariant
            0 <= i <= alts@.len(),
            views == formatted_views(alts@),
            views == rule_alternatives(levels),
            levels == rule.priority_levels@,
            longest == longest_alternative_line(views),
            has_label == any_label(views),
            column == label_column(views),
            forall|j: int| 0 <= j < views.len() ==> longest_line((#[trigger] views[j]).0) <= longest_alternative_line(views),
            forall|j: int| 0 <= j < views.len() ==> (#[trigger] rule_alternatives(levels)[j]).0.len() >= 1,
            out@ == after_head + alternatives_text(views.take(i as int), column),
        decreases alts@.len() - i,
    {
        proof {
            assert(views.take(i + 1).drop_last() =~= views.take(i as int));
            assert(views.take(i + 1).last() == views[i as int]);
            assert(views[i as int] == formatted_view(alts@[i as int]));
            assert(views[i as int] == rule_alternatives(levels)[i as int]);
            if alts@[i as int].label is Some {
                assert(views[i as int].1 is Some);
            }
        }
        push_alternative(out, &alts[i], longest, has_label);
        i += 1;
    }
    assert(views.take(alts@.len() as int) =~= views);
    assert(out@ =~= start + syntax_rule_text(*rule));
}

/// Labels are aligned. Where some alternative of a rule has a label, every
/// line of every alternative ends before the label column, and each label
/// starts exactly at that column, after at least one space, on the last
/// line of its alternative.
pub proof fn labels_are_aligned(rule: TreeSyntaxRule)
    ensures
        ({
            let alts = rule_alternatives(rule.priority_levels@);
            let col = label_column(alts);
            &&& forall|i: int, j: int| any_label(alts) && 0 <= i < alts.len() && 0 <= j < alts[i].0.len()
                    ==> (#[trigger] alts[i].0[j]).len() < col
            &&& forall|i: int| 0 <= i < alts.len() && (#[trigger] alts[i]).1 is Some ==> {
                    let last = alts[i].0.last();
                    &&& col - last.len() >= 1
                    &&& (last + spaces(col - last.len())).len() == col
                }
        }),
{
    let alts = rule_alternatives(rule.priority_levels@);
    let col = label_column(alts);
    lemma_rule_alternatives_nonempty(rule.priority_levels@);
    lemma_longest_alternative_line(alts);
    assert forall|i: int, j: int| any_label(alts) && 0 <= i < alts.len() && 0 <= j < alts[i].0.len()
        implies (#[trigger] alts[i].0[j]).len() < col by {
        lemma_longest_line(alts[i].0);
    }
    assert forall|i: int| 0 <= i < alts.len() && (#[trigger] alts[i]).1 is Some implies {
        let last = alts[i].0.last();
        &&& col - last.len() >= 1
        &&& (last + spaces(col - last.len())).len() == col
    } by {
        assert(any_label(alts));
        lemma_longest_line(alts[i].0);
        assert(alts[i].0.last() == alts[i].0[alts[i].0.len() - 1]);
    }
}

/// Whether every lexical rule of the grammar has a body.
pub open spec fn lexical_bodies_present(rules: Seq<TreeRule>) -> bool {
    forall|i: int| 0 <= i < rules.len() ==> match #[trigger] rules[i] {
        TreeRule::Regex(x) => x.body@.len() >= 1,
        TreeRule::Syntax(_) => true,
    }
}

/// The formatted text of a rule.
pub open spec fn rule_text(r: TreeRule) -> Seq<char> {
    match r {
        TreeRule::Syntax(s) => syntax_rule_text(s),
        TreeRule::Regex(x) => regex_rule_text(x),
    }
}

/// Each rule after a blank line.
pub open spec fn rules_text(rules: Seq<TreeRule>) -> Seq<char>
    decreases rules.len(),
{
    if rules.len() == 0 {
        Seq::empty()
    } else {
        rules_text(rules.drop_last()) + seq!['\n', '\n'] + rule_text(rules.last())
    }
}

/// The formatted text of a grammar: `grammar Name`, each rule after a
/// blank line, and a final line break.
pub open spec fn grammar_text(g: TreeGrammar) -> Seq<char> {
    seq!['g', 'r', 'a', 'm', 'm', 'a', 'r', ' '] + g.name@ + rules_text(g.rules@) + seq!['\n']
}

/// Formats a grammar whose parse tree holds no comments.
pub fn format_grammar(g: &TreeGrammar) -> (out: String)
    requires
        lexical_bodies_present(g.rules@),
    ensures
        out@ == grammar_text(*g),
{
    proof {
        reveal_strlit("grammar ");
    }
    let mut out = String::new();
    push_str(&mut out, "grammar ");
    push_str(&mut out, g.name.as_str());
    let ghost base = out@;
    let ghost rules = g.rules@;
    let mut i: usize = 0;
    while i < g.rules.len()
        invariant
            0 <= i <= rules.len(),
            rules == g.rules@,
            lexical_bodies_present(rules),
            out@ == base + rules_text(rules.take(i as int)),
        decreases rules.len() - i,
    {
        proof {
            let t = rules.take(i + 1);
            assert(t.drop_last() =~= rules.take(i as int));
            assert(t.last() == rules[i as int]);
        }
        push_char(&mut out, '\n');
        push_char(&mut out, '\n');
        match &g.rules[i] {
            TreeRule::Syntax(s) => format_syntax_rule(&mut out, s),
            TreeRule::Regex(x) => {
                format_regex_rule(&mut out, x);
            },
        }
        assert(out@ =~= base + rules_text(rules.take(i + 1)));
        i += 1;
    }
    assert(rules.take(rules.len() as int) =~= rules);
    push_char(&mut out, '\n');
    assert(out@ =~= grammar_text(*g));
    out
}


/// The associativity a keyword is read as when a grammar is parsed
/// (`left`, `right` or `none`), if it is one of them.
pub open spec fn associativity_of_keyword(keyword: Seq<char>) -> Option<crate::grammar::def::Associativity> {
    if keyword == seq!['l', 'e', 'f', 't'] {
        Some(crate::grammar::def::Associativity::Left)
    } else if keyword == seq!['r', 'i', 'g', 'h', 't'] {
        Some(crate::grammar::def::Associativity::Right)
    } else if keyword == seq!['n', 'o', 'n', 'e'] {
        Some(crate::grammar::def::Associativity::NonAssoc)
    } else {
        None
    }
}

/// Formatting keeps a level's associativity: the keyword that leads the
/// first alternative of a level with an associativity reads back as the
/// associativity the level converts to, so formatting does not change the
/// grammar; in particular the three keywords differ.
pub proof fn formatted_associativity_reads_back(level: TreePriorityLevel)
    requires
        level.associativity is Some,
        level.alternatives@.len() > 0,
    ensures
        associativity_of_keyword(level_alternative_chunks(level, 0)[0])
            == Some(crate::iggy::converted_associativity(level.associativity->Some_0)),
        forall|a: TreeAssociativity, b: TreeAssociativity| a != b ==> associativity_text(a) != associativity_text(b),
{
    assert(level_alternative_chunks(level, 0)[0] == associativity_text(level.associativity->Some_0));
    assert forall|a: TreeAssociativity, b: TreeAssociativity| a != b implies associativity_text(a) != associativity_text(b) by {
        if associativity_text(a) == associativity_text(b) {
            assert(associativity_of_keyword(associativity_text(a)) == Some(crate::iggy::converted_associativity(a)));
            assert(associativity_of_keyword(associativity_text(b)) == Some(crate::iggy::converted_associativity(b)));
        }
    }
}

} // verus!
