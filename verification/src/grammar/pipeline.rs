//! The pipeline from a grammar definition to the grammar that parsers are
//! generated from: literals become terminals, references are resolved,
//! lexical references inlined, then exact keyword matching, EBNF expansion,
//! exclusion and precedence desugaring run, each on resolved rules; last come
//! the final symbol table, layout insertion, the start wrappers and the
//! productions.
use vstd::prelude::*;
use crate::grammar::def::{
    levels_view, PriorityLevel, alternatives_view, lexical_rules_view, rule_alternatives, syntax_rules_view, Alternative,
    GrammarDef, LexicalRule, SpecAlternative, SpecGrammarDef, SpecLayoutStrategy, SpecLexicalRule,
    SpecSyntaxRule, SyntaxRule,
};
use crate::grammar::literals::{add_lexical_rules_for_literals, literal_rules, rules_literals, with_literal_references};
use crate::grammar::regex_inlining::{distinct_heads, inlinable, inline_regex_refs, inline_result, inlining_errors, simplified_rules};
use crate::grammar::resolve::{
    add_start_rule, create_symbol_table, definition_names, definitions_of, max_definitions,
    resolve_id, resolve_identifier, resolve_identifier_list, resolve_identifier_ref, resolve_identifiers,
    resolve_ids, resolve_lexical, resolve_rule, resolve_symbol, start_rule, table_lookup, SymbolTable,
};
use crate::grammar::symbols::{
    identifiers_view, strings_view, Definition, DefinitionId, Identifier, SpecTerminal, Terminal, Nonterminal, SpecDefinition, SpecNonterminal, SpecSymbol, Symbol,
};
use crate::grammar::transformations::ebnf_to_bnf::{ebnf_numbering_fits, ebnf_to_bnf};
use crate::grammar::transformations::exact_keyword_match::{
    dfa_well_formed, dfas_view, exact_keyword_view, rules_resolved, Dfa, SpecDfaState,
};
use crate::grammar::transformations::exclude_desugaring::{exclude_desugar, exclusions_well_formed};
use crate::grammar::transformations::{ebnf_to_bnf as ebnf_pass, exact_keyword_match, exclude_desugaring, layout_insertion, precedence_desugaring};
use crate::grammar::transformations::layout_insertion::layout_rule;
use crate::grammar::transformations::precedence_desugaring::rewrite::{
    conflict_errors, desugarable, precedence_desugaring_view, serves_several_heads,
};
use crate::grammar::transformations::precedence_desugaring::indirect::strictly_sorted;
use crate::grammar::equality::{option_string_eq, symbol_eq};
use crate::text::{lemma_lex_order, str_eq};
use crate::validation::{validate, validation_errors};

verus! {

// ---------------------------------------------------------------------------
// The grammar

/// A grammar ready for parser generation: its productions (each nonterminal
/// with all of its alternatives, in order of first appearance), its lexical
/// rules, its definitions and symbol table, its layout symbol, the start
/// wrapper of each source nonterminal and the source position of each source
/// rule.
pub struct Grammar {
    pub name: String,
    pub productions: Vec<(Nonterminal, Vec<Alternative>)>,
    pub lexical_rules: Vec<LexicalRule>,
    pub definitions: Vec<Definition>,
    pub layout: Option<Symbol>,
    pub symbol_table: SymbolTable,
    pub start_nonterminals: Vec<(String, String)>,
    pub source_order: Vec<(String, u16)>,
}

pub struct SpecGrammar {
    pub name: Seq<char>,
    pub productions: Seq<(SpecNonterminal, Seq<SpecAlternative>)>,
    pub lexical_rules: Seq<SpecLexicalRule>,
    pub definitions: Seq<SpecDefinition>,
    pub layout: Option<SpecSymbol>,
    pub symbol_table: Seq<Seq<char>>,
    pub start_nonterminals: Seq<(Seq<char>, Seq<char>)>,
    pub source_order: Seq<(Seq<char>, u16)>,
}

/// The views of productions.
pub open spec fn productions_view(p: Seq<(Nonterminal, Vec<Alternative>)>) -> Seq<(SpecNonterminal, Seq<SpecAlternative>)> {
    p.map_values(|e: (Nonterminal, Vec<Alternative>)| (e.0@, alternatives_view(e.1@)))
}

/// The views of pairs of strings.
pub open spec fn string_pairs_view(p: Seq<(String, String)>) -> Seq<(Seq<char>, Seq<char>)> {
    p.map_values(|e: (String, String)| (e.0@, e.1@))
}

/// The views of named positions.
pub open spec fn positions_view(p: Seq<(String, u16)>) -> Seq<(Seq<char>, u16)> {
    p.map_values(|e: (String, u16)| (e.0@, e.1))
}

impl View for Grammar {
    type V = SpecGrammar;

    open spec fn view(&self) -> SpecGrammar {
        SpecGrammar {
            name: self.name@,
            productions: productions_view(self.productions@),
            lexical_rules: lexical_rules_view(self.lexical_rules@),
            definitions: self.definitions@.map_values(|d: Definition| d@),
            layout: match self.layout {
                Some(l) => Some(l@),
                None => None,
            },
            symbol_table: self.symbol_table@,
            start_nonterminals: string_pairs_view(self.start_nonterminals@),
            source_order: positions_view(self.source_order@),
        }
    }
}

/// The view of an optional symbol.
pub open spec fn option_symbol_view(o: Option<Symbol>) -> Option<SpecSymbol> {
    match o {
        Some(l) => Some(l@),
        None => None,
    }
}

/// The view of the result of building a grammar.
pub open spec fn grammar_result_view(r: Result<Grammar, Vec<String>>) -> Result<SpecGrammar, Seq<Seq<char>>> {
    match r {
        Ok(g) => Ok(g@),
        Err(e) => Err(strings_view(e@)),
    }
}

// ---------------------------------------------------------------------------
// The stages

/// Each rule name with its position among the source rules.
pub open spec fn source_order_of(rules: Seq<SpecSyntaxRule>) -> Seq<(Seq<char>, u16)> {
    Seq::new(rules.len(), |i: int| (rules[i].head.name, i as u16))
}

/// The rules after literals became terminals.
pub open spec fn literals_stage(g: SpecGrammarDef) -> (Seq<SpecSyntaxRule>, Seq<SpecLexicalRule>) {
    (
        with_literal_references(g.syntax_rules),
        g.lexical_rules + literal_rules(rules_literals(Seq::empty(), g.syntax_rules)),
    )
}

/// The rules with their references resolved in the table of their names.
pub open spec fn resolved(s: (Seq<SpecSyntaxRule>, Seq<SpecLexicalRule>)) -> (Seq<SpecSyntaxRule>, Seq<SpecLexicalRule>) {
    let table = definition_names(s.0, s.1);
    (s.0.map_values(|x: SpecSyntaxRule| resolve_rule(x, table)), s.1.map_values(|x: SpecLexicalRule| resolve_lexical(x, table)))
}

/// Whether the table of the rules' names fits 16-bit ids.
pub open spec fn table_fits(s: (Seq<SpecSyntaxRule>, Seq<SpecLexicalRule>)) -> bool {
    s.0.len() + s.1.len() <= max_definitions()
}

/// The rules after exact keyword matching (given the definitions the
/// literal stage named and the automata of the identifier rules), EBNF
/// expansion, exclusion desugaring and precedence desugaring, resolved after
/// each rewrite; or the messages of the precedence conflicts.
pub open spec fn desugared(syntax: Seq<SpecSyntaxRule>, lexical: Seq<SpecLexicalRule>, defs: Seq<SpecDefinition>, dfas: Seq<Seq<SpecDfaState>>) -> Result<(Seq<SpecSyntaxRule>, Seq<SpecLexicalRule>), Seq<Seq<char>>> {
    let s4 = exact_keyword_view(syntax, lexical, defs, dfas);
    let s6 = resolved((ebnf_to_bnf(s4.0), s4.1));
    let s8 = resolved((exclude_desugar(s6.0), s6.1));
    if has_precedence_conflict(s8.0) {
        Err(precedence_errors(s8.0))
    } else {
        Ok((precedence_desugaring_view(s8.0), s8.1))
    }
}

/// What the passes of `desugared` need of the rules that reach them:
/// resolved references for keyword matching, 16-bit numbering for EBNF
/// expansion and for ids, well-formed exclusions and desugarable precedence.
pub open spec fn desugaring_applies(syntax: Seq<SpecSyntaxRule>, lexical: Seq<SpecLexicalRule>, defs: Seq<SpecDefinition>, dfas: Seq<Seq<SpecDfaState>>) -> bool {
    let s4 = exact_keyword_view(syntax, lexical, defs, dfas);
    let s6 = resolved((ebnf_to_bnf(s4.0), s4.1));
    let s8 = resolved((exclude_desugar(s6.0), s6.1));
    &&& dfas.len() > 0 ==> rules_resolved(syntax, defs.len() as int)
    &&& ebnf_numbering_fits(s4.0)
    &&& table_fits((ebnf_to_bnf(s4.0), s4.1))
    &&& exclusions_well_formed(s6.0)
    &&& table_fits((exclude_desugar(s6.0), s6.1))
    &&& desugarable(s8.0)
}

/// A lexical rule with its except, follow and precede operands resolved.
pub open spec fn resolve_operands(r: SpecLexicalRule, table: Seq<Seq<char>>) -> SpecLexicalRule {
    SpecLexicalRule {
        head: r.head,
        regex: r.regex,
        except: resolve_ids(r.except, table),
        follow_restriction: resolve_ids(r.follow_restriction, table),
        precede_restriction: match r.precede_restriction {
            Some(id) => Some(resolve_id(id, table)),
            None => None,
        },
    }
}

/// Whether every except, follow and precede operand of the lexical rules
/// names a definition of `table`.
pub open spec fn operands_defined(lexical: Seq<SpecLexicalRule>, table: Seq<Seq<char>>) -> bool {
    forall|k: int| 0 <= k < lexical.len() ==> {
        &&& forall|j: int| 0 <= j < lexical[k].except.len() ==> table_lookup(table, #[trigger] lexical[k].except[j].name) is Some
        &&& forall|j: int| 0 <= j < lexical[k].follow_restriction.len()
            ==> table_lookup(table, #[trigger] lexical[k].follow_restriction[j].name) is Some
        &&& (#[trigger] lexical[k].precede_restriction) matches Some(id) ==> table_lookup(table, id.name) is Some
    }
}

/// The name of a layout symbol that is a plain reference.
pub open spec fn layout_name(layout: Option<SpecSymbol>) -> Option<Seq<char>> {
    match layout {
        Some(SpecSymbol::Identifier(id)) => Some(id.name),
        _ => None,
    }
}

/// Whether a rule is an entry point: a source rule other than the layout.
pub open spec fn is_entry(source: Seq<(Seq<char>, u16)>, layout: Option<Seq<char>>, r: SpecSyntaxRule) -> bool {
    &&& exists|i: int| 0 <= i < source.len() && #[trigger] source[i].0 == r.head.name
    &&& layout != Some(r.head.name)
}

/// The entry points among `rules`, in order.
pub open spec fn entry_rules(rules: Seq<SpecSyntaxRule>, source: Seq<(Seq<char>, u16)>, layout: Option<Seq<char>>) -> Seq<SpecSyntaxRule>
    decreases rules.len(),
{
    if rules.len() == 0 {
        Seq::empty()
    } else {
        let init = entry_rules(rules.drop_last(), source, layout);
        if is_entry(source, layout, rules.last()) {
            init.push(rules.last())
        } else {
            init
        }
    }
}

/// The start wrapper of each entry point.
pub open spec fn start_rules(entries: Seq<SpecSyntaxRule>, layout: Option<SpecSymbol>, table: Seq<Seq<char>>) -> Seq<SpecSyntaxRule> {
    entries.map_values(|r: SpecSyntaxRule| start_rule(r.head, layout, table))
}

/// Each entry point's name with the name of its start wrapper.
pub open spec fn start_pairs(entries: Seq<SpecSyntaxRule>) -> Seq<(Seq<char>, Seq<char>)> {
    entries.map_values(|r: SpecSyntaxRule| (r.head.name, "Start"@ + r.head.name))
}

/// The position of the production of `head`, if there is one.
pub open spec fn production_index(p: Seq<(SpecNonterminal, Seq<SpecAlternative>)>, head: SpecNonterminal) -> Option<int>
    decreases p.len(),
{
    if p.len() == 0 {
        None
    } else {
        match production_index(p.drop_last(), head) {
            Some(k) => Some(k),
            None => if p.last().0 == head { Some(p.len() - 1) } else { None },
        }
    }
}

/// The productions of `rules`: each head, at its first appearance, with the
/// alternatives of all of its rules, rule after rule.
pub open spec fn productions_of(rules: Seq<SpecSyntaxRule>) -> Seq<(SpecNonterminal, Seq<SpecAlternative>)>
    decreases rules.len(),
{
    if rules.len() == 0 {
        Seq::empty()
    } else {
        let acc = productions_of(rules.drop_last());
        let r = rules.last();
        let alts = rule_alternatives(r.priority_levels);
        match production_index(acc, r.head) {
            Some(k) => acc.update(k, (acc[k].0, acc[k].1 + alts)),
            None => acc.push((r.head, alts)),
        }
    }
}

/// The messages of the precedence conflicts of `rules`.
pub open spec fn precedence_errors(rules: Seq<SpecSyntaxRule>) -> Seq<Seq<char>> {
    choose|m: Seq<Seq<char>>| conflict_errors(rules, m)
}

/// Whether some nonterminal serves several precedence heads.
pub open spec fn has_precedence_conflict(rules: Seq<SpecSyntaxRule>) -> bool {
    exists|x: Seq<char>| #[trigger] serves_several_heads(rules, x)
}

/// The grammar assembled from the desugared rules, given the grammar's
/// name, source order and layout: the final table, the lexical rules with
/// their operands resolved, the layout resolved and inserted, the start
/// wrappers of the entry points appended, and the productions.
pub open spec fn assembled(name: Seq<char>, source: Seq<(Seq<char>, u16)>, layout: Option<SpecSymbol>, syntax: Seq<SpecSyntaxRule>, lexical: Seq<SpecLexicalRule>) -> SpecGrammar {
    let table = definition_names(syntax, lexical);
    let layout = match layout {
        Some(l) => Some(resolve_symbol(l, table)),
        None => None,
    };
    let laid_out = syntax.map_values(|x: SpecSyntaxRule| layout_rule(x, layout));
    let entries = entry_rules(laid_out, source, layout_name(layout));
    SpecGrammar {
        name,
        productions: productions_of(laid_out + start_rules(entries, layout, table)),
        lexical_rules: lexical.map_values(|x: SpecLexicalRule| resolve_operands(x, table)),
        definitions: definitions_of(syntax, lexical),
        layout,
        symbol_table: table,
        start_nonterminals: start_pairs(entries),
        source_order: source,
    }
}

/// What assembling needs of the desugared rules: 16-bit ids, defined
/// restriction operands, and no custom layout.
pub open spec fn assembly_applies(syntax: Seq<SpecSyntaxRule>, lexical: Seq<SpecLexicalRule>) -> bool {
    &&& table_fits((syntax, lexical))
    &&& operands_defined(lexical, definition_names(syntax, lexical))
    &&& forall|k: int| 0 <= k < syntax.len() ==> !(#[trigger] syntax[k].layout is Custom)
}

/// The grammar that `build_grammar` builds from a resolved grammar
/// definition, given the automata of its identifier rules: the errors of
/// inlining the lexical references, or else those of precedence desugaring,
/// or else the grammar assembled from the rules after every pass.
pub open spec fn built_grammar_view(g: SpecGrammarDef, dfas: Seq<Seq<SpecDfaState>>) -> Result<SpecGrammar, Seq<Seq<char>>> {
    let s1 = literals_stage(g);
    let s2 = resolved(s1);
    match inline_result(simplified_rules(s2.1)) {
        Err(e) => Err(e),
        Ok(lexical) => match desugared(s2.0, lexical, definitions_of(s1.0, s1.1), dfas) {
            Err(e) => Err(e),
            Ok(d) => Ok(assembled(g.name, source_order_of(g.syntax_rules), g.layout, d.0, d.1)),
        },
    }
}

/// What `build_grammar` needs of a grammar definition: ids fit 16 bits,
/// lexical names are distinct, lexical references inline where no error is
/// found, and the later passes apply to the rules that reach them.
pub open spec fn buildable(g: SpecGrammarDef, dfas: Seq<Seq<SpecDfaState>>) -> bool {
    let s1 = literals_stage(g);
    let s2 = resolved(s1);
    let defs = definitions_of(s1.0, s1.1);
    &&& table_fits(s1)
    &&& distinct_heads(s2.1)
    &&& inlining_errors(simplified_rules(s2.1)).len() == 0 ==> inlinable(simplified_rules(s2.1))
    &&& match inline_result(simplified_rules(s2.1)) {
        Err(_) => true,
        Ok(lexical) => {
            &&& desugaring_applies(s2.0, lexical, defs, dfas)
            &&& match desugared(s2.0, lexical, defs, dfas) {
                Err(_) => true,
                Ok(d) => assembly_applies(d.0, d.1),
            }
        },
    }
}

proof fn lemma_sorted_unique(s1: Seq<Seq<char>>, s2: Seq<Seq<char>>)
    requires
        strictly_sorted(s1),
        strictly_sorted(s2),
        forall|y: Seq<char>| s1.contains(y) <==> s2.contains(y),
    ensures
        s1 == s2,
    decreases s1.len(),
{
    if s1.len() == 0 {
        if s2.len() > 0 {
            assert(s2.contains(s2[0]));
        }
        assert(s1 =~= s2);
    } else {
        assert(s1.contains(s1[0]));
        assert(s2.len() > 0);
        let a = s1[0];
        let b = s2[0];
        lemma_lex_order(a, b, a);
        lemma_lex_order(b, a, b);
        if a != b {
            assert(s2.contains(a));
            let j = choose|j: int| 0 <= j < s2.len() && s2[j] == a;
            assert(s1.contains(b));
            let i = choose|i: int| 0 <= i < s1.len() && s1[i] == b;
            assert(j > 0 && i > 0);
            assert(lex_lt_pair(s2, 0, j));
            assert(lex_lt_pair(s1, 0, i));
            assert(false);
        }
        let t1 = s1.drop_first();
        let t2 = s2.drop_first();
        assert forall|i: int, j: int| 0 <= i < j < t1.len() implies crate::text::lex_lt(#[trigger] t1[i], #[trigger] t1[j]) by {
            assert(t1[i] == s1[i + 1] && t1[j] == s1[j + 1]);
        }
        assert forall|i: int, j: int| 0 <= i < j < t2.len() implies crate::text::lex_lt(#[trigger] t2[i], #[trigger] t2[j]) by {
            assert(t2[i] == s2[i + 1] && t2[j] == s2[j + 1]);
        }
        assert forall|y: Seq<char>| t1.contains(y) <==> t2.contains(y) by {
            if t1.contains(y) {
                let i = choose|i: int| 0 <= i < t1.len() && t1[i] == y;
                assert(s1[i + 1] == y);
                assert(lex_lt_pair(s1, 0, i + 1));
                lemma_lex_order(a, y, a);
                assert(s2.contains(y));
                let j = choose|j: int| 0 <= j < s2.len() && s2[j] == y;
                assert(j != 0);
                assert(t2[j - 1] == y);
            }
            if t2.contains(y) {
                let j = choose|j: int| 0 <= j < t2.len() && t2[j] == y;
                assert(s2[j + 1] == y);
                assert(lex_lt_pair(s2, 0, j + 1));
                lemma_lex_order(a, y, a);
                assert(s1.contains(y));
                let i = choose|i: int| 0 <= i < s1.len() && s1[i] == y;
                assert(i != 0);
                assert(t1[i - 1] == y);
            }
        }
        lemma_sorted_unique(t1, t2);
        assert(s1 =~= seq![a] + t1);
        assert(s2 =~= seq![b] + t2);
    }
}

spec fn lex_lt_pair(s: Seq<Seq<char>>, i: int, j: int) -> bool {
    crate::text::lex_lt(s[i], s[j])
}

/// The messages of precedence conflicts are determined by the rules.
proof fn lemma_conflict_errors_unique(rules: Seq<SpecSyntaxRule>, m: Seq<Seq<char>>)
    requires
        conflict_errors(rules, m),
    ensures
        m == precedence_errors(rules),
{
    let m2 = precedence_errors(rules);
    assert(conflict_errors(rules, m2));
    let s1 = choose|s: Seq<Seq<char>>| {
        &&& strictly_sorted(s)
        &&& forall|y: Seq<char>| #[trigger] s.contains(y) <==> serves_several_heads(rules, y)
        &&& m == s.map_values(|n: Seq<char>| crate::grammar::transformations::precedence_desugaring::indirect::multi_head_message(n))
    };
    let s2 = choose|s: Seq<Seq<char>>| {
        &&& strictly_sorted(s)
        &&& forall|y: Seq<char>| #[trigger] s.contains(y) <==> serves_several_heads(rules, y)
        &&& m2 == s.map_values(|n: Seq<char>| crate::grammar::transformations::precedence_desugaring::indirect::multi_head_message(n))
    };
    lemma_sorted_unique(s1, s2);
}

// ---------------------------------------------------------------------------
// The steps

/// Each source rule's name with its position.
fn source_order_vec(rules: &Vec<SyntaxRule>) -> (r: Vec<(String, u16)>)
    requires
        rules@.len() <= u16::MAX,
    ensures
        positions_view(r@) == source_order_of(syntax_rules_view(rules@)),
{
    let ghost rv = syntax_rules_view(rules@);
    let mut out: Vec<(String, u16)> = Vec::new();
    let mut i: usize = 0;
    while i < rules.len()
        invariant
            0 <= i <= rules@.len(),
            rules@.len() <= u16::MAX,
            rv == syntax_rules_view(rules@),
            positions_view(out@) == source_order_of(rv).take(i as int),
        decreases rules@.len() - i,
    {
        assert(rv[i as int] == rules@[i as int]@);
        let name = crate::text::string_of(rules[i].head.name.as_str());
        let ghost before = out@;
        out.push((name, i as u16));
        assert(positions_view(out@) =~= positions_view(before).push((rv[i as int].head.name, i as u16)));
        assert(source_order_of(rv).take(i + 1) =~= source_order_of(rv).take(i as int).push((rv[i as int].head.name, i as u16)));
        i += 1;
    }
    assert(source_order_of(rv).take(i as int) =~= source_order_of(rv));
    out
}

/// The lexical rules with their except, follow and precede operands
/// resolved in `table`.
fn resolve_all_operands(rules: Vec<LexicalRule>, table: &SymbolTable) -> (r: Vec<LexicalRule>)
    ensures
        lexical_rules_view(r@) == lexical_rules_view(rules@).map_values(|x: SpecLexicalRule| resolve_operands(x, table@)),
{
    let ghost lv = lexical_rules_view(rules@);
    let ghost n = rules@.len();
    assert(rules@.len() == rules.len());
    let mut rest = rules;
    let mut out: Vec<LexicalRule> = Vec::new();
    let mut i: usize = 0;
    while rest.len() > 0
        invariant
            i + rest@.len() == n,
            n <= usize::MAX,
            lv.len() == n,
            lexical_rules_view(rest@) == lv.skip(i as int),
            lexical_rules_view(out@) == lv.take(i as int).map_values(|x: SpecLexicalRule| resolve_operands(x, table@)),
        decreases rest@.len(),
    {
        let ghost before = rest@;
        let rule = rest.remove(0);
        assert(rule@ == lv[i as int]) by {
            assert(lexical_rules_view(before)[0] == before[0]@);
        }
        assert(lexical_rules_view(rest@) =~= lv.skip(i + 1)) by {
            assert forall|k: int| 0 <= k < rest@.len() implies #[trigger] lexical_rules_view(rest@)[k] == lv.skip(i + 1)[k] by {
                assert(rest@[k] == before[k + 1]);
                assert(lexical_rules_view(before)[k + 1] == before[k + 1]@);
            }
        }
        let except = resolve_identifier_list(&rule.except, table);
        let follow = resolve_identifier_list(&rule.follow_restriction, table);
        let precede = match &rule.precede_restriction {
            Some(id) => Some(resolve_identifier_ref(id, table)),
            None => None,
        };
        let resolved_rule = LexicalRule {
            head: rule.head,
            regex: rule.regex,
            except,
            follow_restriction: follow,
            precede_restriction: precede,
        };
        assert(resolved_rule@ == resolve_operands(lv[i as int], table@));
        let ghost prev = out@;
        out.push(resolved_rule);
        assert(lexical_rules_view(out@) =~= lexical_rules_view(prev).push(resolved_rule@));
        assert(lv.take(i + 1).map_values(|x: SpecLexicalRule| resolve_operands(x, table@))
            =~= lv.take(i as int).map_values(|x: SpecLexicalRule| resolve_operands(x, table@)).push(resolve_operands(lv[i as int], table@)));
        i += 1;
    }
    assert(lv.take(i as int) =~= lv);
    out
}

/// The layout symbol resolved in `table`.
fn resolve_layout(layout: &Option<Symbol>, table: &SymbolTable) -> (r: Option<Symbol>)
    ensures
        option_symbol_view(r) == (match option_symbol_view(*layout) {
            Some(l) => Some(resolve_symbol(l, table@)),
            None => None::<SpecSymbol>,
        }),
{
    match layout {
        Some(l) => Some(resolve_identifier(l, table)),
        None => None,
    }
}

/// The name of the layout symbol, where it is a plain reference.
fn layout_name_of(layout: &Option<Symbol>) -> (r: Option<&str>)
    ensures
        (match r { Some(n) => Some(n@), None => None::<Seq<char>> }) == layout_name(option_symbol_view(*layout)),
{
    match layout {
        Some(Symbol::Identifier(id)) => Some(id.name.as_str()),
        _ => None,
    }
}

/// Whether `name` is a source rule's name.
fn in_source(source: &Vec<(String, u16)>, name: &str) -> (r: bool)
    ensures
        r == exists|i: int| 0 <= i < source@.len() && #[trigger] positions_view(source@)[i].0 == name@,
{
    let ghost sv = positions_view(source@);
    let mut found = false;
    let mut i: usize = 0;
    while i < source.len()
        invariant
            0 <= i <= source@.len(),
            sv == positions_view(source@),
            found == exists|j: int| 0 <= j < i && #[trigger] sv[j].0 == name@,
        decreases source@.len() - i,
    {
        assert(sv[i as int].0 == source@[i as int].0@);
        let same = str_eq(source[i].0.as_str(), name);
        if same {
            found = true;
        }
        assert(found == exists|j: int| 0 <= j < i + 1 && #[trigger] sv[j].0 == name@) by {
            if same {
                assert(sv[i as int].0 == name@);
            }
        }
        i += 1;
    }
    found
}

/// The start wrappers of the entry points of `rules`, and each entry
/// point's name with its wrapper's name.
fn start_wrappers(rules: &Vec<SyntaxRule>, source: &Vec<(String, u16)>, layout: &Option<Symbol>, table: &SymbolTable)
    -> (r: (Vec<SyntaxRule>, Vec<(String, String)>))
    requires
        forall|k: int| 0 <= k < rules@.len() ==> table_lookup(table@, (#[trigger] rules@[k])@.head.name) is Some,
    ensures
        syntax_rules_view(r.0@) == start_rules(
            entry_rules(syntax_rules_view(rules@), positions_view(source@),
                layout_name(option_symbol_view(*layout))),
            option_symbol_view(*layout),
            table@,
        ),
        string_pairs_view(r.1@) == start_pairs(entry_rules(syntax_rules_view(rules@), positions_view(source@),
            layout_name(option_symbol_view(*layout)))),
{
    let ghost rv = syntax_rules_view(rules@);
    let ghost sv = positions_view(source@);
    let ghost lv: Option<SpecSymbol> = option_symbol_view(*layout);
    let ghost ln = layout_name(lv);
    let lname = layout_name_of(layout);
    let mut starts: Vec<SyntaxRule> = Vec::new();
    let mut pairs: Vec<(String, String)> = Vec::new();
    let mut i: usize = 0;
    while i < rules.len()
        invariant
            0 <= i <= rules@.len(),
            rv == syntax_rules_view(rules@),
            sv == positions_view(source@),
            lv == option_symbol_view(*layout),
            ln == layout_name(lv),
            (match lname { Some(n) => Some(n@), None => None::<Seq<char>> }) == ln,
            forall|k: int| 0 <= k < rules@.len() ==> table_lookup(table@, (#[trigger] rules@[k])@.head.name) is Some,
            syntax_rules_view(starts@) == start_rules(entry_rules(rv.take(i as int), sv, ln), lv, table@),
            string_pairs_view(pairs@) == start_pairs(entry_rules(rv.take(i as int), sv, ln)),
        decreases rules@.len() - i,
    {
        let rule = &rules[i];
        assert(rv[i as int] == rule@);
        let name: &str = rule.head.name.as_str();
        let is_layout = match lname {
            Some(n) => str_eq(n, name),
            None => false,
        };
        let entry = in_source(source, name) && !is_layout;
        let ghost t = rv.take(i + 1);
        assert(t.drop_last() =~= rv.take(i as int));
        assert(t.last() == rule@);
        assert(entry == is_entry(sv, ln, rule@));
        if entry {
            let start = add_start_rule(&rule.head, layout.as_ref(), table);
            let ghost before_starts = syntax_rules_view(starts@);
            let ghost before_pairs = string_pairs_view(pairs@);
            starts.push(start);
            let mut wrapper = String::new();
            proof {
                reveal_strlit("Start");
            }
            crate::text::push_str(&mut wrapper, "Start");
            crate::text::push_str(&mut wrapper, name);
            pairs.push((crate::text::string_of(name), wrapper));
            proof {
                assert(syntax_rules_view(starts@) =~= before_starts.push(start@));
                assert(string_pairs_view(pairs@) =~= before_pairs.push((rule@.head.name, "Start"@ + rule@.head.name)));
                assert(entry_rules(t, sv, ln) == entry_rules(rv.take(i as int), sv, ln).push(rule@));
                assert(start_rules(entry_rules(t, sv, ln), lv, table@)
                    =~= start_rules(entry_rules(rv.take(i as int), sv, ln), lv, table@).push(start_rule(rule@.head, lv, table@)));
                assert(start_pairs(entry_rules(t, sv, ln))
                    =~= start_pairs(entry_rules(rv.take(i as int), sv, ln)).push((rule@.head.name, "Start"@ + rule@.head.name)));
            }
        } else {
            assert(entry_rules(t, sv, ln) == entry_rules(rv.take(i as int), sv, ln));
        }
        i += 1;
    }
    assert(rv.take(i as int) =~= rv);
    (starts, pairs)
}

/// Whether two nonterminals are the same: name, origin and parameters.
fn nonterminal_eq(a: &Nonterminal, b: &Nonterminal) -> (r: bool)
    ensures
        r == (a@ == b@),
{
    if !str_eq(a.name.as_str(), b.name.as_str()) {
        return false;
    }
    let same_origin = match (&a.origin, &b.origin) {
        (Some(x), Some(y)) => symbol_eq(x, y),
        (None, None) => true,
        _ => false,
    };
    if !same_origin {
        assert(a@.origin != b@.origin);
        return false;
    }
    if a.parameters.len() != b.parameters.len() {
        assert(a@.parameters.len() != b@.parameters.len());
        return false;
    }
    let mut i: usize = 0;
    while i < a.parameters.len()
        invariant
            0 <= i <= a.parameters@.len(),
            a.parameters@.len() == b.parameters@.len(),
            forall|j: int| 0 <= j < i ==> #[trigger] a.parameters@[j]@ == b.parameters@[j]@,
        decreases a.parameters@.len() - i,
    {
        let same = str_eq(a.parameters[i].name.as_str(), b.parameters[i].name.as_str()) && a.parameters[i].ty == b.parameters[i].ty;
        if !same {
            assert(a@.parameters[i as int] != b@.parameters[i as int]);
            return false;
        }
        i += 1;
    }
    assert(a@.parameters =~= b@.parameters);
    true
}

/// The head of a rule and its alternatives, level after level.
fn take_alternatives(rule: SyntaxRule) -> (r: (Nonterminal, Vec<Alternative>))
    ensures
        r.0@ == rule@.head,
        alternatives_view(r.1@) == rule_alternatives(rule@.priority_levels),
{
    let ghost all = levels_view(rule.priority_levels@);
    let head = rule.head;
    let mut levels = rule.priority_levels;
    let mut collected: Vec<Alternative> = Vec::new();
    assert(rule_alternatives(levels_view(levels@)) + alternatives_view(collected@) =~= rule_alternatives(all));
    while levels.len() > 0
        invariant
            rule_alternatives(levels_view(levels@)) + alternatives_view(collected@) == rule_alternatives(all),
        decreases levels@.len(),
    {
        let ghost before = levels@;
        let level = levels.pop().unwrap();
        assert(levels_view(before).drop_last() =~= levels_view(levels@));
        assert(levels_view(before).last() == level@);
        let mut alts = level.alternatives;
        let ghost av = alternatives_view(alts@);
        let ghost cv = alternatives_view(collected@);
        alts.append(&mut collected);
        assert(alternatives_view(alts@) =~= av + cv);
        collected = alts;
        assert(rule_alternatives(levels_view(levels@)) + alternatives_view(collected@) =~= rule_alternatives(all));
    }
    assert(levels_view(levels@) =~= Seq::<crate::grammar::def::SpecPriorityLevel>::empty());
    assert(alternatives_view(collected@) =~= rule_alternatives(all));
    (head, collected)
}

/// The position of the production of `head` among `acc`.
fn find_production(acc: &Vec<(Nonterminal, Vec<Alternative>)>, head: &Nonterminal) -> (r: Option<usize>)
    ensures
        (match r { Some(k) => Some(k as int), None => None::<int> }) == production_index(productions_view(acc@), head@),
        r matches Some(k) ==> k < acc@.len(),
{
    let ghost pv = productions_view(acc@);
    let mut found: Option<usize> = None;
    let mut k: usize = 0;
    while k < acc.len()
        invariant
            0 <= k <= acc@.len(),
            pv == productions_view(acc@),
            (match found { Some(j) => Some(j as int), None => None::<int> }) == production_index(pv.take(k as int), head@),
            found matches Some(j) ==> j < k,
        decreases acc@.len() - k,
    {
        let ghost t = pv.take(k + 1);
        assert(t.drop_last() =~= pv.take(k as int));
        assert(t.last() == pv[k as int]);
        assert(pv[k as int].0 == acc@[k as int].0@);
        if found.is_none() {
            if nonterminal_eq(&acc[k].0, head) {
                found = Some(k);
            }
        }
        k += 1;
    }
    assert(pv.take(k as int) =~= pv);
    found
}

/// The productions of `rules`; see `productions_of`.
fn productions_from(rules: Vec<SyntaxRule>) -> (r: Vec<(Nonterminal, Vec<Alternative>)>)
    ensures
        productions_view(r@) == productions_of(syntax_rules_view(rules@)),
{
    let ghost rv = syntax_rules_view(rules@);
    let ghost n = rules@.len();
    assert(rules@.len() == rules.len());
    let mut rest = rules;
    let mut acc: Vec<(Nonterminal, Vec<Alternative>)> = Vec::new();
    let mut i: usize = 0;
    assert(productions_view(acc@) =~= productions_of(rv.take(0)));
    while rest.len() > 0
        invariant
            i + rest@.len() == n,
            n <= usize::MAX,
            rv.len() == n,
            syntax_rules_view(rest@) == rv.skip(i as int),
            productions_view(acc@) == productions_of(rv.take(i as int)),
        decreases rest@.len(),
    {
        let ghost before = rest@;
        let rule = rest.remove(0);
        assert(rule@ == rv[i as int]) by {
            assert(syntax_rules_view(before)[0] == before[0]@);
        }
        assert(syntax_rules_view(rest@) =~= rv.skip(i + 1)) by {
            assert forall|k: int| 0 <= k < rest@.len() implies #[trigger] syntax_rules_view(rest@)[k] == rv.skip(i + 1)[k] by {
                assert(rest@[k] == before[k + 1]);
                assert(syntax_rules_view(before)[k + 1] == before[k + 1]@);
            }
        }
        let ghost t = rv.take(i + 1);
        assert(t.drop_last() =~= rv.take(i as int));
        assert(t.last() == rule@);
        let ghost pv = productions_view(acc@);
        let (head, mut alts) = take_alternatives(rule);
        let ghost alts_v = alternatives_view(alts@);
        match find_production(&acc, &head) {
            Some(k) => {
                let (nt, mut existing) = acc.remove(k);
                let ghost ev = alternatives_view(existing@);
                assert(pv[k as int] == (nt@, ev));
                existing.append(&mut alts);
                assert(alternatives_view(existing@) =~= ev + alts_v);
                acc.insert(k, (nt, existing));
                assert(productions_view(acc@) =~= pv.update(k as int, (pv[k as int].0, pv[k as int].1 + alts_v)));
            },
            None => {
                acc.push((head, alts));
                assert(productions_view(acc@) =~= pv.push((head@, alts_v)));
            },
        }
        i += 1;
    }
    assert(rv.take(i as int) =~= rv);
    acc
}

proof fn lemma_lookup_found(names: Seq<Seq<char>>, k: int)
    requires
        0 <= k < names.len(),
    ensures
        table_lookup(names, names[k]) is Some,
    decreases names.len(),
{
    if names.last() != names[k] {
        lemma_lookup_found(names.drop_last(), k);
        assert(names.drop_last()[k] == names[k]);
    }
}

/// Keyword matching, EBNF expansion, exclusion and precedence desugaring,
/// with the rules resolved again after each rewrite; see `desugared`.
fn desugar(syntax_rules: Vec<SyntaxRule>, lexical_rules: Vec<LexicalRule>, defs: &Vec<Definition>, dfas: &Vec<Dfa>)
    -> (r: Result<(Vec<SyntaxRule>, Vec<LexicalRule>), Vec<String>>)
    requires
        forall|i: int| 0 <= i < dfas@.len() ==> dfa_well_formed(#[trigger] dfas@[i]@),
        desugaring_applies(syntax_rules_view(syntax_rules@), lexical_rules_view(lexical_rules@),
            defs@.map_values(|d: Definition| d@), dfas_view(dfas@)),
    ensures
        (match r {
            Ok(p) => Ok((syntax_rules_view(p.0@), lexical_rules_view(p.1@))),
            Err(e) => Err(strings_view(e@)),
        }) == desugared(syntax_rules_view(syntax_rules@), lexical_rules_view(lexical_rules@),
            defs@.map_values(|d: Definition| d@), dfas_view(dfas@)),
{
    let ghost sv = syntax_rules_view(syntax_rules@);
    let ghost lv = lexical_rules_view(lexical_rules@);
    let ghost dv = defs@.map_values(|d: Definition| d@);
    let ghost fv = dfas_view(dfas@);
    let ghost s4 = exact_keyword_view(sv, lv, dv, fv);
    let ghost s6 = resolved((ebnf_to_bnf(s4.0), s4.1));
    let ghost s8 = resolved((exclude_desugar(s6.0), s6.1));
    assert(defs@.len() == dv.len());
    let (syntax_rules, lexical_rules) = exact_keyword_match::transform(syntax_rules, lexical_rules, defs, dfas);
    assert(syntax_rules_view(syntax_rules@) == s4.0 && lexical_rules_view(lexical_rules@) == s4.1);
    let syntax_rules = ebnf_pass::transform(syntax_rules);
    let (_definitions5, table5) = create_symbol_table(&syntax_rules, &lexical_rules);
    let (syntax_rules, lexical_rules) = resolve_identifiers(&syntax_rules, &lexical_rules, &table5);
    assert(syntax_rules_view(syntax_rules@) == s6.0 && lexical_rules_view(lexical_rules@) == s6.1);
    let syntax_rules = exclude_desugaring::transform(syntax_rules);
    let (_definitions7, table7) = create_symbol_table(&syntax_rules, &lexical_rules);
    let (syntax_rules, lexical_rules) = resolve_identifiers(&syntax_rules, &lexical_rules, &table7);
    assert(syntax_rules_view(syntax_rules@) == s8.0 && lexical_rules_view(lexical_rules@) == s8.1);
    match precedence_desugaring::transform(syntax_rules) {
        Ok(out) => {
            assert(!has_precedence_conflict(s8.0));
            Ok((out, lexical_rules))
        },
        Err(msgs) => {
            proof {
                assert(has_precedence_conflict(s8.0));
                lemma_conflict_errors_unique(s8.0, strings_view(msgs@));
            }
            Err(msgs)
        },
    }
}

/// The grammar assembled from desugared rules; see `assembled`.
fn assemble(name: String, source_order: Vec<(String, u16)>, layout: Option<Symbol>, syntax_rules: Vec<SyntaxRule>, lexical_rules: Vec<LexicalRule>)
    -> (g: Grammar)
    requires
        assembly_applies(syntax_rules_view(syntax_rules@), lexical_rules_view(lexical_rules@)),
    ensures
        g@ == assembled(name@, positions_view(source_order@), option_symbol_view(layout),
            syntax_rules_view(syntax_rules@), lexical_rules_view(lexical_rules@)),
{
    let ghost syntax9 = syntax_rules_view(syntax_rules@);
    let ghost lex8 = lexical_rules_view(lexical_rules@);
    let (definitions, symbol_table) = create_symbol_table(&syntax_rules, &lexical_rules);
    let ghost table = definition_names(syntax9, lex8);
    assert(symbol_table@ == table);
    let lexical_rules = resolve_all_operands(lexical_rules, &symbol_table);
    let layout = resolve_layout(&layout, &symbol_table);
    let ghost lv = option_symbol_view(layout);
    proof {
        assert forall|k: int| 0 <= k < syntax_rules@.len() implies !(#[trigger] syntax_rules@[k].layout is Custom) by {
            assert(syntax9[k] == syntax_rules@[k]@);
            assert(syntax9[k].layout == syntax_rules@[k].layout@);
            assert(!(syntax9[k].layout is Custom));
        }
    }
    let layout_ref = layout.as_ref();
    assert((match layout_ref { Some(l) => Some(l@), None => None::<SpecSymbol> }) == lv);
    let mut syntax_rules = layout_insertion::transform(syntax_rules, layout_ref);
    let ghost laid = syntax_rules_view(syntax_rules@);
    assert(laid == syntax9.map_values(|x: SpecSyntaxRule| layout_rule(x, lv)));
    proof {
        assert forall|k: int| 0 <= k < syntax_rules@.len() implies table_lookup(symbol_table@, (#[trigger] syntax_rules@[k])@.head.name) is Some by {
            assert(laid[k] == syntax_rules@[k]@);
            assert(laid[k].head == syntax9[k].head);
            let idx = lex8.len() + k;
            assert(table[idx] == syntax9[k].head.name);
            lemma_lookup_found(table, idx);
        }
    }
    let (mut starts, start_nonterminals) = start_wrappers(&syntax_rules, &source_order, &layout, &symbol_table);
    let ghost starts_v = syntax_rules_view(starts@);
    syntax_rules.append(&mut starts);
    assert(syntax_rules_view(syntax_rules@) =~= laid + starts_v);
    let productions = productions_from(syntax_rules);
    Grammar {
        name,
        productions,
        lexical_rules,
        definitions,
        layout,
        symbol_table,
        start_nonterminals,
        source_order,
    }
}

/// Builds the grammar of a resolved grammar definition: turns literals into
/// terminals, resolves the references, inlines the lexical references
/// (whose errors it returns), runs exact keyword matching (with `dfas`, the
/// automata of the identifier rules), EBNF expansion, exclusion desugaring
/// and precedence desugaring (whose conflicts it returns), resolving the
/// rules again after each rewrite; then builds the final symbol table,
/// resolves the lexical rules' restriction operands and the layout symbol,
/// inserts layout, adds a start wrapper for each source nonterminal other
/// than the layout, and gathers the productions. See `built_grammar_view`.
pub fn build_grammar(grammar_def: GrammarDef, dfas: &Vec<Dfa>) -> (r: Result<Grammar, Vec<String>>)
    requires
        forall|i: int| 0 <= i < dfas@.len() ==> dfa_well_formed(#[trigger] dfas@[i]@),
        buildable(grammar_def@, dfas_view(dfas@)),
    ensures
        grammar_result_view(r) == built_grammar_view(grammar_def@, dfas_view(dfas@)),
{
    let ghost g = grammar_def@;
    let ghost fv = dfas_view(dfas@);
    let ghost s1 = literals_stage(g);
    let ghost s2 = resolved(s1);
    let name = grammar_def.name;
    let syntax_rules = grammar_def.syntax_rules;
    let mut lexical_rules = grammar_def.lexical_rules;
    let layout = grammar_def.layout;
    assert(option_symbol_view(layout) == g.layout);
    assert(s1.0.len() == g.syntax_rules.len());
    assert(syntax_rules@.len() == g.syntax_rules.len());
    let source_order = source_order_vec(&syntax_rules);
    let syntax_rules = add_lexical_rules_for_literals(syntax_rules, &mut lexical_rules);
    assert(syntax_rules_view(syntax_rules@) == s1.0 && lexical_rules_view(lexical_rules@) == s1.1);
    let (definitions1, table1) = create_symbol_table(&syntax_rules, &lexical_rules);
    let (syntax_rules, lexical_rules) = resolve_identifiers(&syntax_rules, &lexical_rules, &table1);
    assert(syntax_rules_view(syntax_rules@) == s2.0 && lexical_rules_view(lexical_rules@) == s2.1);
    let lexical_rules = match inline_regex_refs(lexical_rules) {
        Ok(l) => l,
        Err(e) => return Err(e),
    };
    let ghost lex3 = lexical_rules_view(lexical_rules@);
    assert(inline_result(simplified_rules(s2.1)) == Ok::<Seq<SpecLexicalRule>, Seq<Seq<char>>>(lex3));
    let (syntax_rules, lexical_rules) = match desugar(syntax_rules, lexical_rules, &definitions1, dfas) {
        Ok(p) => p,
        Err(e) => return Err(e),
    };
    let grammar = assemble(name, source_order, layout, syntax_rules, lexical_rules);
    Ok(grammar)
}

/// A grammar definition with its references resolved; see
/// `GrammarDef::resolve`.
pub open spec fn resolved_def(g: SpecGrammarDef) -> SpecGrammarDef {
    let table = definition_names(g.syntax_rules, g.lexical_rules);
    SpecGrammarDef {
        name: g.name,
        syntax_rules: g.syntax_rules.map_values(|x: SpecSyntaxRule| resolve_rule(x, table)),
        lexical_rules: g.lexical_rules.map_values(|x: SpecLexicalRule| resolve_lexical(x, table)),
        layout: g.layout,
        identifier_rules: g.identifier_rules,
    }
}

/// What `GrammarDef::to_grammar` gives: the validation errors of the
/// resolved definition, if there are any; else the grammar built from it.
pub open spec fn to_grammar_view(g: SpecGrammarDef, parser_type: Seq<char>, builder_type: Seq<char>, dfas: Seq<Seq<SpecDfaState>>) -> Result<SpecGrammar, Seq<Seq<char>>> {
    let r = resolved_def(g);
    let errors = validation_errors(r, parser_type, builder_type);
    if errors.len() > 0 {
        Err(errors)
    } else {
        built_grammar_view(r, dfas)
    }
}

impl GrammarDef {
    /// The grammar of this definition: resolves it, reports the messages of
    /// its validation errors if there are any, and otherwise builds it; see
    /// `to_grammar_view`. `parser_type` and `parse_tree_builder_type` are the
    /// names the generator gives the parser and the parse-tree builder;
    /// `dfas` are the automata of the identifier rules.
    pub fn to_grammar(self, parser_type: &str, parse_tree_builder_type: &str, dfas: &Vec<Dfa>) -> (r: Result<Grammar, Vec<String>>)
        requires
            self.syntax_rules@.len() + self.lexical_rules@.len() <= max_definitions(),
            forall|i: int| 0 <= i < dfas@.len() ==> dfa_well_formed(#[trigger] dfas@[i]@),
            validation_errors(resolved_def(self@), parser_type@, parse_tree_builder_type@).len() == 0
                ==> buildable(resolved_def(self@), dfas_view(dfas@)),
        ensures
            grammar_result_view(r) == to_grammar_view(self@, parser_type@, parse_tree_builder_type@, dfas_view(dfas@)),
    {
        let ghost g = self@;
        let resolved_grammar = self.resolve();
        assert(resolved_grammar@ == resolved_def(g));
        let errors = validate(&resolved_grammar, parser_type, parse_tree_builder_type);
        if errors.len() > 0 {
            return Err(errors);
        }
        build_grammar(resolved_grammar, dfas)
    }
}

// ---------------------------------------------------------------------------
// Reading a grammar

/// The position of the last source entry named `name`, or `u16::MAX`.
pub open spec fn source_index_of(order: Seq<(Seq<char>, u16)>, name: Seq<char>) -> u16
    decreases order.len(),
{
    if order.len() == 0 {
        u16::MAX
    } else if order.last().0 == name {
        order.last().1
    } else {
        source_index_of(order.drop_last(), name)
    }
}

/// The first production whose head is named `name`.
pub open spec fn first_production_named(p: Seq<(SpecNonterminal, Seq<SpecAlternative>)>, name: Seq<char>) -> Option<int>
    decreases p.len(),
{
    if p.len() == 0 {
        None
    } else {
        match first_production_named(p.drop_last(), name) {
            Some(k) => Some(k),
            None => if p.last().0.name == name { Some(p.len() - 1) } else { None },
        }
    }
}

/// The last lexical rule whose head is `t` (a later rule of the same
/// terminal replaces an earlier one).
pub open spec fn last_lexical_rule(rules: Seq<SpecLexicalRule>, t: SpecTerminal) -> Option<int>
    decreases rules.len(),
{
    if rules.len() == 0 {
        None
    } else if rules.last().head == t {
        Some(rules.len() - 1)
    } else {
        last_lexical_rule(rules.drop_last(), t)
    }
}

/// The first lexical rule whose head is named `name`.
pub open spec fn first_terminal_named(rules: Seq<SpecLexicalRule>, name: Seq<char>) -> Option<int>
    decreases rules.len(),
{
    if rules.len() == 0 {
        None
    } else {
        match first_terminal_named(rules.drop_last(), name) {
            Some(k) => Some(k),
            None => if rules.last().head.name == name { Some(rules.len() - 1) } else { None },
        }
    }
}

/// The last start pair of the nonterminal named `name`.
pub open spec fn start_wrapper_of(pairs: Seq<(Seq<char>, Seq<char>)>, name: Seq<char>) -> Option<Seq<char>>
    decreases pairs.len(),
{
    if pairs.len() == 0 {
        None
    } else if pairs.last().0 == name {
        Some(pairs.last().1)
    } else {
        start_wrapper_of(pairs.drop_last(), name)
    }
}

impl Grammar {
    /// The number of nonterminals with a production.
    pub fn count_nonterminals(&self) -> (n: usize)
        ensures
            n == self@.productions.len(),
    {
        self.productions.len()
    }

    /// The position of the source rule named `name`; `u16::MAX` for a rule
    /// that the passes derived, so that callers can sort directly.
    pub fn source_index(&self, name: &str) -> (i: u16)
        ensures
            i == source_index_of(self@.source_order, name@),
    {
        let ghost ov = self@.source_order;
        let mut i: usize = self.source_order.len();
        assert(ov.take(i as int) =~= ov);
        while i > 0
            invariant
                0 <= i <= self.source_order@.len(),
                ov == positions_view(self.source_order@),
                source_index_of(ov, name@) == source_index_of(ov.take(i as int), name@),
            decreases i,
        {
            let ghost t = ov.take(i as int);
            assert(t.drop_last() =~= ov.take(i - 1));
            assert(t.last() == (self.source_order@[i - 1].0@, self.source_order@[i - 1].1));
            if str_eq(self.source_order[i - 1].0.as_str(), name) {
                return self.source_order[i - 1].1;
            }
            i -= 1;
        }
        assert(ov.take(0) =~= Seq::<(Seq<char>, u16)>::empty());
        u16::MAX
    }

    /// The first nonterminal with a production whose name is `name`.
    pub fn nonterminal(&self, name: &str) -> (r: Option<&Nonterminal>)
        ensures
            match first_production_named(self@.productions, name@) {
                Some(k) => r matches Some(nt) && nt@ == self@.productions[k].0,
                None => r is None,
            },
    {
        let ghost pv = self@.productions;
        let mut k: usize = 0;
        while k < self.productions.len()
            invariant
                0 <= k <= self.productions@.len(),
                pv == productions_view(self.productions@),
                first_production_named(pv.take(k as int), name@) is None,
            decreases self.productions@.len() - k,
        {
            let ghost t = pv.take(k + 1);
            assert(t.drop_last() =~= pv.take(k as int));
            assert(t.last() == pv[k as int]);
            assert(pv[k as int].0 == self.productions@[k as int].0@);
            if str_eq(self.productions[k].0.name.as_str(), name) {
                proof {
                    lemma_first_named_prefix(pv, name@, k as int + 1);
                }
                return Some(&self.productions[k].0);
            }
            k += 1;
        }
        assert(pv.take(k as int) =~= pv);
        None
    }

    /// The alternatives of `nt`'s production, if it has one.
    pub fn alternatives(&self, nt: &Nonterminal) -> (r: Option<&Vec<Alternative>>)
        ensures
            match production_index(self@.productions, nt@) {
                Some(k) => r matches Some(a) && alternatives_view(a@) == self@.productions[k].1,
                None => r is None,
            },
    {
        match find_production(&self.productions, nt) {
            Some(k) => Some(&self.productions[k].1),
            None => None,
        }
    }

    /// Whether `nt` is the start wrapper of some nonterminal.
    pub fn is_start(&self, nt: &Nonterminal) -> (b: bool)
        ensures
            b == exists|k: int| 0 <= k < self@.start_nonterminals.len() && #[trigger] self@.start_nonterminals[k].1 == nt@.name,
    {
        let ghost sv = self@.start_nonterminals;
        let mut k: usize = 0;
        while k < self.start_nonterminals.len()
            invariant
                0 <= k <= self.start_nonterminals@.len(),
                sv == string_pairs_view(self.start_nonterminals@),
                forall|j: int| 0 <= j < k ==> #[trigger] sv[j].1 != nt@.name,
            decreases self.start_nonterminals@.len() - k,
        {
            assert(sv[k as int].1 == self.start_nonterminals@[k as int].1@);
            if str_eq(self.start_nonterminals[k].1.as_str(), nt.name.as_str()) {
                assert(self@.start_nonterminals[k as int].1 == nt@.name);
                return true;
            }
            k += 1;
        }
        false
    }

    /// The start wrapper of `nt`, if it has one.
    pub fn start_nonterminal(&self, nt: &Nonterminal) -> (r: Option<&Nonterminal>)
        ensures
            match start_wrapper_of(self@.start_nonterminals, nt@.name) {
                Some(w) => match first_production_named(self@.productions, w) {
                    Some(k) => r matches Some(x) && x@ == self@.productions[k].0,
                    None => r is None,
                },
                None => r is None,
            },
    {
        let ghost sv = self@.start_nonterminals;
        let mut k: usize = self.start_nonterminals.len();
        assert(sv.take(k as int) =~= sv);
        while k > 0
            invariant
                0 <= k <= self.start_nonterminals@.len(),
                sv == string_pairs_view(self.start_nonterminals@),
                start_wrapper_of(sv, nt@.name) == start_wrapper_of(sv.take(k as int), nt@.name),
            decreases k,
        {
            let ghost t = sv.take(k as int);
            assert(t.drop_last() =~= sv.take(k - 1));
            assert(t.last() == sv[k - 1]);
            assert(sv[k - 1] == (self.start_nonterminals@[k - 1].0@, self.start_nonterminals@[k - 1].1@));
            if str_eq(self.start_nonterminals[k - 1].0.as_str(), nt.name.as_str()) {
                return self.nonterminal(self.start_nonterminals[k - 1].1.as_str());
            }
            k -= 1;
        }
        assert(sv.take(0) =~= Seq::<(Seq<char>, Seq<char>)>::empty());
        None
    }

    /// The first terminal with a lexical rule whose name is `name`.
    pub fn terminal(&self, name: &str) -> (r: Option<&Terminal>)
        ensures
            match first_terminal_named(self@.lexical_rules, name@) {
                Some(k) => r matches Some(t) && t@ == self@.lexical_rules[k].head,
                None => r is None,
            },
    {
        let ghost lv = self@.lexical_rules;
        let mut k: usize = 0;
        while k < self.lexical_rules.len()
            invariant
                0 <= k <= self.lexical_rules@.len(),
                lv == lexical_rules_view(self.lexical_rules@),
                first_terminal_named(lv.take(k as int), name@) is None,
            decreases self.lexical_rules@.len() - k,
        {
            let ghost t = lv.take(k + 1);
            assert(t.drop_last() =~= lv.take(k as int));
            assert(t.last() == lv[k as int]);
            assert(lv[k as int] == self.lexical_rules@[k as int]@);
            if str_eq(self.lexical_rules[k].head.name.as_str(), name) {
                proof {
                    lemma_first_terminal_prefix(lv, name@, k as int + 1);
                }
                return Some(&self.lexical_rules[k].head);
            }
            k += 1;
        }
        assert(lv.take(k as int) =~= lv);
        None
    }

    /// The lexical rule of `terminal`: the last rule whose head it is.
    pub fn lexical_rule(&self, terminal: &Terminal) -> (r: Option<&LexicalRule>)
        ensures
            match last_lexical_rule(self@.lexical_rules, terminal@) {
                Some(k) => r matches Some(rule) && rule@ == self@.lexical_rules[k],
                None => r is None,
            },
    {
        let ghost lv = self@.lexical_rules;
        let mut k: usize = self.lexical_rules.len();
        assert(lv.take(k as int) =~= lv);
        while k > 0
            invariant
                0 <= k <= self.lexical_rules@.len(),
                lv == lexical_rules_view(self.lexical_rules@),
                last_lexical_rule(lv, terminal@) == last_lexical_rule(lv.take(k as int), terminal@),
            decreases k,
        {
            let ghost t = lv.take(k as int);
            assert(t.drop_last() =~= lv.take(k - 1));
            assert(t.last() == lv[k - 1]);
            assert(lv[k - 1] == self.lexical_rules@[k - 1]@);
            let head = &self.lexical_rules[k - 1].head;
            if str_eq(head.name.as_str(), terminal.name.as_str()) && option_string_eq(&head.literal, &terminal.literal) {
                assert(head@ == terminal@);
                return Some(&self.lexical_rules[k - 1]);
            }
            k -= 1;
        }
        assert(lv.take(0) =~= Seq::<SpecLexicalRule>::empty());
        None
    }

    /// The definition with id `definition_id`.
    pub fn definition(&self, definition_id: DefinitionId) -> (d: &Definition)
        requires
            (definition_id.0 as int) < self@.definitions.len(),
        ensures
            d@ == self@.definitions[definition_id.0 as int],
    {
        &self.definitions[definition_id.0 as usize]
    }

    /// Whether `ident` refers to a terminal.
    pub fn is_terminal(&self, ident: &Identifier) -> (b: bool)
        requires
            ident@.definition matches Some(d) ==> (d.0 as int) < self@.definitions.len(),
        ensures
            b == (ident@.definition matches Some(d) && self@.definitions[d.0 as int] is Terminal),
    {
        match ident.definition {
            Some(d) => match self.definition(d) {
                Definition::Terminal(_) => true,
                Definition::Nonterminal(_) => false,
            },
            None => false,
        }
    }
}

proof fn lemma_first_named_prefix(p: Seq<(SpecNonterminal, Seq<SpecAlternative>)>, name: Seq<char>, m: int)
    requires
        0 < m <= p.len(),
        first_production_named(p.take(m - 1), name) is None,
        p[m - 1].0.name == name,
    ensures
        first_production_named(p, name) == Some(m - 1),
    decreases p.len() - m,
{
    if m == p.len() {
        assert(p.drop_last() =~= p.take(m - 1));
    } else {
        assert(p.drop_last().take(m - 1) =~= p.take(m - 1));
        assert(p.drop_last()[m - 1] == p[m - 1]);
        lemma_first_named_prefix(p.drop_last(), name, m);
    }
}

proof fn lemma_first_terminal_prefix(p: Seq<SpecLexicalRule>, name: Seq<char>, m: int)
    requires
        0 < m <= p.len(),
        first_terminal_named(p.take(m - 1), name) is None,
        p[m - 1].head.name == name,
    ensures
        first_terminal_named(p, name) == Some(m - 1),
    decreases p.len() - m,
{
    if m == p.len() {
        assert(p.drop_last() =~= p.take(m - 1));
    } else {
        assert(p.drop_last().take(m - 1) =~= p.take(m - 1));
        assert(p.drop_last()[m - 1] == p[m - 1]);
        lemma_first_terminal_prefix(p.drop_last(), name, m);
    }
}

} // verus!
