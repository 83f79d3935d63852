//! The symbol table and the resolution of references to definitions.
use vstd::prelude::*;
use crate::grammar::def::{
    levels_view, lexical_rules_view, syntax_rules_view, GrammarDef, LexicalRule, PriorityLevel,
    SpecGrammarDef, SpecLexicalRule, SpecPriorityLevel, SpecSyntaxRule, SyntaxRule, Alternative,
    SpecAlternative, alternatives_view,
};
use crate::grammar::regex::{lemma_regexes_view, regexes_view, Regex, SpecRegex};
use crate::grammar::def::LayoutStrategy;
use crate::grammar::symbols::{
    clone_parameters, clone_exprs, clone_identifiers, clone_strings, identifiers_view, lemma_symbols_view,
    symbols_view, Definition, DefinitionId, Identifier, Restrictions, SpecDefinition,
    SpecIdentifier, SpecNonterminal, SpecRestrictions, SpecSymbol, Symbol, Nonterminal,
};
use crate::text::str_eq;

verus! {

broadcast use vstd::std_specs::vec::axiom_vec_index_decreases;

/// A map from rule names to definition ids. Each inserted name gets the next
/// id; a name inserted again maps to its latest id.
#[derive(Debug)]
pub struct SymbolTable {
    names: Vec<String>,
}

/// The definition id of `name` in a table whose `i`th inserted name is
/// `names[i]`: the latest insertion of `name`.
pub open spec fn table_lookup(names: Seq<Seq<char>>, name: Seq<char>) -> Option<DefinitionId>
    decreases names.len(),
{
    if names.len() == 0 {
        None
    } else if names.last() == name {
        Some(DefinitionId((names.len() - 1) as u16))
    } else {
        table_lookup(names.drop_last(), name)
    }
}

/// A name looked up right after its insertion maps to the id that insertion
/// returned.
pub proof fn lookup_after_insert(names: Seq<Seq<char>>, name: Seq<char>)
    requires
        names.len() < max_definitions(),
    ensures
        table_lookup(names.push(name), name) == Some(DefinitionId(names.len() as u16)),
{
    assert(names.push(name).drop_last() =~= names);
}

/// Inserting a name leaves the ids of the other names unchanged.
pub proof fn insert_keeps_other_names(names: Seq<Seq<char>>, name: Seq<char>, other: Seq<char>)
    requires
        other != name,
    ensures
        table_lookup(names.push(name), other) == table_lookup(names, other),
{
    assert(names.push(name).drop_last() =~= names);
}

/// A lookup finds the latest insertion of the name, and finds nothing when
/// the name was never inserted.
pub proof fn lookup_finds_latest(names: Seq<Seq<char>>, name: Seq<char>)
    requires
        names.len() <= max_definitions(),
    ensures
        match table_lookup(names, name) {
            Some(id) => id.0 < names.len() && names[id.0 as int] == name
                && forall|j: int| id.0 < j < names.len() ==> names[j] != name,
            None => forall|j: int| 0 <= j < names.len() ==> names[j] != name,
        },
    decreases names.len(),
{
    if names.len() > 0 {
        let rest = names.drop_last();
        lookup_finds_latest(rest, name);
        assert(forall|j: int| 0 <= j < rest.len() ==> rest[j] == names[j]);
        if names.last() == name {
            assert(table_lookup(names, name) == Some(DefinitionId((names.len() - 1) as u16)));
        } else {
            assert(table_lookup(names, name) == table_lookup(rest, name));
        }
    }
}

/// The largest number of definitions a table holds: ids are 16-bit.
pub open spec fn max_definitions() -> nat {
    u16::MAX as nat
}

impl SymbolTable {
    /// Every id fits in 16 bits.
    #[verifier::type_invariant]
    spec fn ids_fit(self) -> bool {
        self.names@.len() <= max_definitions()
    }
}

impl View for SymbolTable {
    type V = Seq<Seq<char>>;

    closed spec fn view(&self) -> Seq<Seq<char>> {
        self.names@.map_values(|s: String| s@)
    }
}

impl SymbolTable {
    /// An empty table.
    pub fn new() -> (t: SymbolTable)
        ensures
            t@ == Seq::<Seq<char>>::empty(),
    {
        let t = SymbolTable { names: Vec::new() };
        assert(t@ =~= Seq::<Seq<char>>::empty());
        t
    }

    /// The number of inserted names.
    pub fn len(&self) -> (n: usize)
        ensures
            n == self@.len(),
            n <= max_definitions(),
    {
        proof {
            use_type_invariant(self);
        }
        self.names.len()
    }

    /// Maps `name` to the next id and returns it.
    pub fn insert(&mut self, name: String) -> (id: DefinitionId)
        requires
            old(self)@.len() < max_definitions(),
        ensures
            final(self)@ == old(self)@.push(name@),
            id == DefinitionId(old(self)@.len() as u16),
    {
        proof {
            use_type_invariant(&*self);
        }
        let id = DefinitionId(self.names.len() as u16);
        let ghost n = name@;
        let mut names: Vec<String> = Vec::new();
        std::mem::swap(&mut names, &mut self.names);
        names.push(name);
        self.names = names;
        assert(self@ =~= old(self)@.push(n));
        id
    }

    /// The id `name` maps to.
    pub fn get(&self, name: &str) -> (id: Option<DefinitionId>)
        ensures
            id == table_lookup(self@, name@),
    {
        proof {
            use_type_invariant(self);
        }
        let ghost views = self@;
        let mut i: usize = self.names.len();
        assert(views.take(i as int) =~= views);
        while i > 0
            invariant
                0 <= i <= self.names@.len(),
                self.names@.len() <= max_definitions(),
                views == self@,
                views == self.names@.map_values(|s: String| s@),
                table_lookup(views, name@) == table_lookup(views.take(i as int), name@),
            decreases i,
        {
            proof {
                let t = views.take(i as int);
                assert(t.drop_last() =~= views.take(i - 1));
                assert(t.last() == self.names@[i - 1]@);
            }
            if str_eq(self.names[i - 1].as_str(), name) {
                return Some(DefinitionId((i - 1) as u16));
            }
            i -= 1;
        }
        assert(views.take(0) =~= Seq::<Seq<char>>::empty());
        None
    }
}

/// The names of the definitions of a grammar, in id order: lexical rules
/// first, then syntax rules.
pub open spec fn definition_names(syntax: Seq<SpecSyntaxRule>, lexical: Seq<SpecLexicalRule>) -> Seq<Seq<char>> {
    lexical.map_values(|r: SpecLexicalRule| r.head.name) + syntax.map_values(|r: SpecSyntaxRule| r.head.name)
}

/// The definitions of a grammar, in id order: lexical rule heads, then syntax rule heads.
pub open spec fn definitions_of(syntax: Seq<SpecSyntaxRule>, lexical: Seq<SpecLexicalRule>) -> Seq<SpecDefinition> {
    lexical.map_values(|r: SpecLexicalRule| SpecDefinition::Terminal(r.head))
        + syntax.map_values(|r: SpecSyntaxRule| SpecDefinition::Nonterminal(r.head))
}

/// The definitions of the rules and a table that maps each rule name to its
/// definition: lexical rules first, then syntax rules.
pub fn create_symbol_table(syntax_rules: &Vec<SyntaxRule>, lexical_rules: &Vec<LexicalRule>) -> (r: (Vec<Definition>, SymbolTable))
    requires
        syntax_rules@.len() + lexical_rules@.len() <= max_definitions(),
    ensures
        r.0@.map_values(|d: Definition| d@) == definitions_of(syntax_rules_view(syntax_rules@), lexical_rules_view(lexical_rules@)),
        r.1@ == definition_names(syntax_rules_view(syntax_rules@), lexical_rules_view(lexical_rules@)),
{
    let ghost syntax = syntax_rules_view(syntax_rules@);
    let ghost lexical = lexical_rules_view(lexical_rules@);
    let mut table = SymbolTable::new();
    let mut definitions: Vec<Definition> = Vec::new();
    let mut i: usize = 0;
    while i < lexical_rules.len()
        invariant
            0 <= i <= lexical_rules@.len(),
            syntax_rules@.len() + lexical_rules@.len() <= max_definitions(),
            lexical == lexical_rules_view(lexical_rules@),
            table@ == lexical.take(i as int).map_values(|r: SpecLexicalRule| r.head.name),
            definitions@.map_values(|d: Definition| d@) == lexical.take(i as int).map_values(|r: SpecLexicalRule| SpecDefinition::Terminal(r.head)),
        decreases lexical_rules@.len() - i,
    {
        let head = &lexical_rules[i].head;
        table.insert(head.name.clone());
        let ghost prev = definitions@;
        definitions.push(Definition::Terminal(head.clone()));
        proof {
            assert(lexical.take(i + 1).map_values(|r: SpecLexicalRule| r.head.name) =~= lexical.take(i as int).map_values(|r: SpecLexicalRule| r.head.name).push(head.name@));
            assert(definitions@.map_values(|d: Definition| d@) =~= prev.map_values(|d: Definition| d@).push(SpecDefinition::Terminal(head@)));
            assert(lexical.take(i + 1).map_values(|r: SpecLexicalRule| SpecDefinition::Terminal(r.head)) =~= lexical.take(i as int).map_values(|r: SpecLexicalRule| SpecDefinition::Terminal(r.head)).push(SpecDefinition::Terminal(head@)));
        }
        i += 1;
    }
    assert(lexical.take(i as int) =~= lexical);
    let ghost lexical_names = table@;
    let ghost lexical_definitions = definitions@.map_values(|d: Definition| d@);
    let mut j: usize = 0;
    while j < syntax_rules.len()
        invariant
            0 <= j <= syntax_rules@.len(),
            syntax_rules@.len() + lexical_rules@.len() <= max_definitions(),
            syntax == syntax_rules_view(syntax_rules@),
            lexical_names.len() == lexical_rules@.len(),
            table@ == lexical_names + syntax.take(j as int).map_values(|r: SpecSyntaxRule| r.head.name),
            definitions@.map_values(|d: Definition| d@) == lexical_definitions + syntax.take(j as int).map_values(|r: SpecSyntaxRule| SpecDefinition::Nonterminal(r.head)),
        decreases syntax_rules@.len() - j,
    {
        let head = &syntax_rules[j].head;
        table.insert(head.name.clone());
        let ghost prev = definitions@;
        definitions.push(Definition::Nonterminal(head.clone()));
        proof {
            assert(syntax.take(j + 1).map_values(|r: SpecSyntaxRule| r.head.name) =~= syntax.take(j as int).map_values(|r: SpecSyntaxRule| r.head.name).push(head.name@));
            assert(definitions@.map_values(|d: Definition| d@) =~= prev.map_values(|d: Definition| d@).push(SpecDefinition::Nonterminal(head@)));
            assert(syntax.take(j + 1).map_values(|r: SpecSyntaxRule| SpecDefinition::Nonterminal(r.head)) =~= syntax.take(j as int).map_values(|r: SpecSyntaxRule| SpecDefinition::Nonterminal(r.head)).push(SpecDefinition::Nonterminal(head@)));
        }
        j += 1;
    }
    assert(syntax.take(j as int) =~= syntax);
    (definitions, table)
}


// ---------------------------------------------------------------------------
// Resolution of references

/// `id` with the definition its name maps to in `table`.
pub open spec fn resolve_id(id: SpecIdentifier, table: Seq<Seq<char>>) -> SpecIdentifier {
    SpecIdentifier { name: id.name, definition: table_lookup(table, id.name) }
}

/// Each of `ids` resolved in `table`.
pub open spec fn resolve_ids(ids: Seq<SpecIdentifier>, table: Seq<Seq<char>>) -> Seq<SpecIdentifier> {
    ids.map_values(|id: SpecIdentifier| resolve_id(id, table))
}

/// A symbol whose every reference (identifiers, call names and restriction
/// operands) is resolved in `table`; literals, conditions, returns, labels and
/// call arguments stay as they are.
pub open spec fn resolve_symbol(s: SpecSymbol, table: Seq<Seq<char>>) -> SpecSymbol
    decreases s, 1int,
{
    match s {
        SpecSymbol::Identifier(id) => SpecSymbol::Identifier(resolve_id(id, table)),
        SpecSymbol::Call { name, arguments } => SpecSymbol::Call { name: resolve_id(name, table), arguments },
        SpecSymbol::Group(symbols) => SpecSymbol::Group(resolve_symbols(symbols, table)),
        SpecSymbol::Opt(inner) => SpecSymbol::Opt(Box::new(resolve_symbol(*inner, table))),
        SpecSymbol::Alt(symbols) => SpecSymbol::Alt(resolve_symbols(symbols, table)),
        SpecSymbol::Star(inner, sep) => SpecSymbol::Star(
            Box::new(resolve_symbol(*inner, table)),
            match sep {
                Some(sep) => Some(Box::new(resolve_symbol(*sep, table))),
                None => None,
            },
        ),
        SpecSymbol::Plus(inner, sep) => SpecSymbol::Plus(
            Box::new(resolve_symbol(*inner, table)),
            match sep {
                Some(sep) => Some(Box::new(resolve_symbol(*sep, table))),
                None => None,
            },
        ),
        SpecSymbol::Labeled { label, symbol } => SpecSymbol::Labeled {
            label,
            symbol: Box::new(resolve_symbol(*symbol, table)),
        },
        SpecSymbol::Binding { pattern, symbol } => SpecSymbol::Binding {
            pattern,
            symbol: Box::new(resolve_symbol(*symbol, table)),
        },
        SpecSymbol::Restricted { symbol, restrictions } => SpecSymbol::Restricted {
            symbol: Box::new(resolve_symbol(*symbol, table)),
            restrictions: SpecRestrictions {
                precede: resolve_ids(restrictions.precede, table),
                excepts: resolve_ids(restrictions.excepts, table),
                follow: resolve_ids(restrictions.follow, table),
                layout_aware_follow: resolve_ids(restrictions.layout_aware_follow, table),
            },
        },
        SpecSymbol::Exclude { symbol, labels } => SpecSymbol::Exclude {
            symbol: Box::new(resolve_symbol(*symbol, table)),
            labels,
        },
        _ => s,
    }
}

/// Each of `symbols` resolved in `table`.
pub open spec fn resolve_symbols(symbols: Seq<SpecSymbol>, table: Seq<Seq<char>>) -> Seq<SpecSymbol>
    decreases symbols, 0int,
{
    if symbols.len() == 0 {
        Seq::empty()
    } else {
        resolve_symbols(symbols.drop_last(), table).push(resolve_symbol(symbols.last(), table))
    }
}

/// An alternative with its symbols resolved.
pub open spec fn resolve_alternative(a: SpecAlternative, table: Seq<Seq<char>>) -> SpecAlternative {
    SpecAlternative { symbols: resolve_symbols(a.symbols, table), label: a.label }
}

/// A priority level with its alternatives resolved.
pub open spec fn resolve_level(l: SpecPriorityLevel, table: Seq<Seq<char>>) -> SpecPriorityLevel {
    SpecPriorityLevel {
        alternatives: l.alternatives.map_values(|a: SpecAlternative| resolve_alternative(a, table)),
        associativity: l.associativity,
    }
}

/// A syntax rule with the symbols of its alternatives and its head's origin
/// resolved.
pub open spec fn resolve_rule(r: SpecSyntaxRule, table: Seq<Seq<char>>) -> SpecSyntaxRule {
    SpecSyntaxRule {
        head: SpecNonterminal {
            name: r.head.name,
            origin: match r.head.origin {
                Some(s) => Some(resolve_symbol(s, table)),
                None => None,
            },
            parameters: r.head.parameters,
        },
        priority_levels: r.priority_levels.map_values(|l: SpecPriorityLevel| resolve_level(l, table)),
        layout: r.layout,
    }
}

/// A regex whose references are resolved in `table`.
pub open spec fn resolve_regex(r: SpecRegex, table: Seq<Seq<char>>) -> SpecRegex
    decreases r, 1int,
{
    match r {
        SpecRegex::Identifier(id) => SpecRegex::Identifier(resolve_id(id, table)),
        SpecRegex::Sequence(parts) => SpecRegex::Sequence(resolve_regexes(parts, table)),
        SpecRegex::Alt(parts) => SpecRegex::Alt(resolve_regexes(parts, table)),
        SpecRegex::Star(inner) => SpecRegex::Star(Box::new(resolve_regex(*inner, table))),
        SpecRegex::Plus(inner) => SpecRegex::Plus(Box::new(resolve_regex(*inner, table))),
        SpecRegex::Opt(inner) => SpecRegex::Opt(Box::new(resolve_regex(*inner, table))),
        _ => r,
    }
}

/// Each of `parts` resolved in `table`.
pub open spec fn resolve_regexes(parts: Seq<SpecRegex>, table: Seq<Seq<char>>) -> Seq<SpecRegex>
    decreases parts, 0int,
{
    if parts.len() == 0 {
        Seq::empty()
    } else {
        resolve_regexes(parts.drop_last(), table).push(resolve_regex(parts.last(), table))
    }
}

/// A lexical rule with the references of its regex resolved; its
/// restrictions stay as they are.
pub open spec fn resolve_lexical(r: SpecLexicalRule, table: Seq<Seq<char>>) -> SpecLexicalRule {
    SpecLexicalRule {
        head: r.head,
        regex: resolve_regex(r.regex, table),
        except: r.except,
        follow_restriction: r.follow_restriction,
        precede_restriction: r.precede_restriction,
    }
}

/// `id` with its definition looked up in `table`.
pub(crate) fn resolve_identifier_ref(id: &Identifier, table: &SymbolTable) -> (r: Identifier)
    ensures
        r@ == resolve_id(id@, table@),
{
    Identifier { name: id.name.clone(), definition: table.get(id.name.as_str()) }
}

/// Each of `ids` with its definition looked up in `table`.
pub(crate) fn resolve_identifier_list(ids: &Vec<Identifier>, table: &SymbolTable) -> (r: Vec<Identifier>)
    ensures
        identifiers_view(r@) == resolve_ids(identifiers_view(ids@), table@),
{
    let mut out: Vec<Identifier> = Vec::new();
    let mut i: usize = 0;
    while i < ids.len()
        invariant
            0 <= i <= ids@.len(),
            identifiers_view(out@) == resolve_ids(identifiers_view(ids@.take(i as int)), table@),
        decreases ids@.len() - i,
    {
        let ghost prev = out@;
        out.push(resolve_identifier_ref(&ids[i], table));
        proof {
            assert(identifiers_view(out@) =~= identifiers_view(prev).push(resolve_id(ids@[i as int]@, table@)));
            assert(resolve_ids(identifiers_view(ids@.take(i + 1)), table@) =~= resolve_ids(identifiers_view(ids@.take(i as int)), table@).push(resolve_id(ids@[i as int]@, table@)));
        }
        i += 1;
    }
    assert(ids@.take(i as int) =~= ids@);
    out
}

/// `symbol` with every reference resolved in `table`.
pub(crate) fn resolve_identifier(symbol: &Symbol, table: &SymbolTable) -> (r: Symbol)
    ensures
        r@ == resolve_symbol(symbol@, table@),
    decreases symbol, 1int,
{
    match symbol {
        Symbol::Identifier(id) => Symbol::Identifier(resolve_identifier_ref(id, table)),
        Symbol::Call { name, arguments } => Symbol::Call {
            name: resolve_identifier_ref(name, table),
            arguments: clone_exprs(arguments),
        },
        Symbol::Group(symbols) => Symbol::Group(resolve_symbol_list(symbols, table)),
        Symbol::Opt(inner) => Symbol::Opt(Box::new(resolve_identifier(&**inner, table))),
        Symbol::Alt(symbols) => Symbol::Alt(resolve_symbol_list(symbols, table)),
        Symbol::Star(inner, sep) => Symbol::Star(
            Box::new(resolve_identifier(&**inner, table)),
            match sep {
                Some(sep) => Some(Box::new(resolve_identifier(&**sep, table))),
                None => None,
            },
        ),
        Symbol::Plus(inner, sep) => Symbol::Plus(
            Box::new(resolve_identifier(&**inner, table)),
            match sep {
                Some(sep) => Some(Box::new(resolve_identifier(&**sep, table))),
                None => None,
            },
        ),
        Symbol::Labeled { label, symbol } => Symbol::Labeled {
            label: label.clone(),
            symbol: Box::new(resolve_identifier(&**symbol, table)),
        },
        Symbol::Binding { pattern, symbol } => Symbol::Binding {
            pattern: pattern.clone(),
            symbol: Box::new(resolve_identifier(&**symbol, table)),
        },
        Symbol::Restricted { symbol, restrictions } => Symbol::Restricted {
            symbol: Box::new(resolve_identifier(&**symbol, table)),
            restrictions: Restrictions {
                precede: resolve_identifier_list(&restrictions.precede, table),
                excepts: resolve_identifier_list(&restrictions.excepts, table),
                follow: resolve_identifier_list(&restrictions.follow, table),
                layout_aware_follow: resolve_identifier_list(&restrictions.layout_aware_follow, table),
            },
        },
        Symbol::Exclude { symbol, labels } => Symbol::Exclude {
            symbol: Box::new(resolve_identifier(&**symbol, table)),
            labels: clone_strings(labels),
        },
        Symbol::Literal(_) | Symbol::Condition(_) | Symbol::Return(_) => symbol.clone(),
    }
}

/// Each of `symbols` resolved in `table`.
fn resolve_symbol_list(symbols: &Vec<Symbol>, table: &SymbolTable) -> (r: Vec<Symbol>)
    ensures
        symbols_view(r@) == resolve_symbols(symbols_view(symbols@), table@),
    decreases symbols, 0int,
{
    let mut out: Vec<Symbol> = Vec::new();
    let mut i: usize = 0;
    while i < symbols.len()
        invariant
            0 <= i <= symbols@.len(),
            symbols_view(out@) == resolve_symbols(symbols_view(symbols@.take(i as int)), table@),
        decreases symbols@.len() - i,
    {
        proof {
            assert(decreases_to!(*symbols => symbols@[i as int]));
        }
        let s = resolve_identifier(&symbols[i], table);
        let ghost prev = out@;
        out.push(s);
        proof {
            assert(out@.drop_last() =~= prev);
            let t = symbols@.take(i + 1);
            assert(t.drop_last() =~= symbols@.take(i as int));
            let v = symbols_view(t);
            assert(v.drop_last() =~= symbols_view(symbols@.take(i as int)));
        }
        i += 1;
    }
    assert(symbols@.take(i as int) =~= symbols@);
    out
}


/// `regex` with every reference resolved in `table`.
fn resolve_regex_refs(regex: &Regex, table: &SymbolTable) -> (r: Regex)
    ensures
        r@ == resolve_regex(regex@, table@),
    decreases regex, 1int,
{
    match regex {
        Regex::Identifier(id) => Regex::Identifier(resolve_identifier_ref(id, table)),
        Regex::Sequence(parts) => Regex::Sequence(resolve_regex_list(parts, table)),
        Regex::Alt(parts) => Regex::Alt(resolve_regex_list(parts, table)),
        Regex::Star(inner) => Regex::Star(Box::new(resolve_regex_refs(&**inner, table))),
        Regex::Plus(inner) => Regex::Plus(Box::new(resolve_regex_refs(&**inner, table))),
        Regex::Opt(inner) => Regex::Opt(Box::new(resolve_regex_refs(&**inner, table))),
        Regex::Char(_) | Regex::CharRange(_) | Regex::CharClass(_) | Regex::Epsilon => regex.clone(),
    }
}

/// Each of `parts` resolved in `table`.
fn resolve_regex_list(parts: &Vec<Regex>, table: &SymbolTable) -> (r: Vec<Regex>)
    ensures
        regexes_view(r@) == resolve_regexes(regexes_view(parts@), table@),
    decreases parts, 0int,
{
    let mut out: Vec<Regex> = Vec::new();
    let mut i: usize = 0;
    while i < parts.len()
        invariant
            0 <= i <= parts@.len(),
            regexes_view(out@) == resolve_regexes(regexes_view(parts@.take(i as int)), table@),
        decreases parts@.len() - i,
    {
        proof {
            assert(decreases_to!(*parts => parts@[i as int]));
        }
        let r = resolve_regex_refs(&parts[i], table);
        let ghost prev = out@;
        out.push(r);
        proof {
            assert(out@.drop_last() =~= prev);
            let t = parts@.take(i + 1);
            assert(t.drop_last() =~= parts@.take(i as int));
            let v = regexes_view(t);
            assert(v.drop_last() =~= regexes_view(parts@.take(i as int)));
        }
        i += 1;
    }
    assert(parts@.take(i as int) =~= parts@);
    out
}

/// `alternative` with its symbols resolved.
fn resolve_alternative_refs(alternative: &Alternative, table: &SymbolTable) -> (r: Alternative)
    ensures
        r@ == resolve_alternative(alternative@, table@),
{
    Alternative {
        symbols: resolve_symbol_list(&alternative.symbols, table),
        label: match &alternative.label {
            Some(l) => Some(l.clone()),
            None => None,
        },
    }
}

/// `level` with its alternatives resolved.
fn resolve_level_refs(level: &PriorityLevel, table: &SymbolTable) -> (r: PriorityLevel)
    ensures
        r@ == resolve_level(level@, table@),
{
    let mut out: Vec<Alternative> = Vec::new();
    let mut i: usize = 0;
    while i < level.alternatives.len()
        invariant
            0 <= i <= level.alternatives@.len(),
            alternatives_view(out@) == alternatives_view(level.alternatives@.take(i as int)).map_values(
                |a: SpecAlternative| resolve_alternative(a, table@),
            ),
        decreases level.alternatives@.len() - i,
    {
        let ghost prev = out@;
        out.push(resolve_alternative_refs(&level.alternatives[i], table));
        proof {
            assert(alternatives_view(out@) =~= alternatives_view(prev).push(resolve_alternative(level.alternatives@[i as int]@, table@)));
            assert(alternatives_view(level.alternatives@.take(i + 1)).map_values(|a: SpecAlternative| resolve_alternative(a, table@))
                =~= alternatives_view(level.alternatives@.take(i as int)).map_values(|a: SpecAlternative| resolve_alternative(a, table@)).push(resolve_alternative(level.alternatives@[i as int]@, table@)));
        }
        i += 1;
    }
    assert(level.alternatives@.take(i as int) =~= level.alternatives@);
    PriorityLevel { alternatives: out, associativity: level.associativity }
}

/// `rule` with its alternatives and its head's origin resolved.
fn resolve_rule_refs(rule: &SyntaxRule, table: &SymbolTable) -> (r: SyntaxRule)
    ensures
        r@ == resolve_rule(rule@, table@),
{
    let mut levels: Vec<PriorityLevel> = Vec::new();
    let mut i: usize = 0;
    while i < rule.priority_levels.len()
        invariant
            0 <= i <= rule.priority_levels@.len(),
            levels_view(levels@) == levels_view(rule.priority_levels@.take(i as int)).map_values(
                |l: SpecPriorityLevel| resolve_level(l, table@),
            ),
        decreases rule.priority_levels@.len() - i,
    {
        let ghost prev = levels@;
        levels.push(resolve_level_refs(&rule.priority_levels[i], table));
        proof {
            assert(levels_view(levels@) =~= levels_view(prev).push(resolve_level(rule.priority_levels@[i as int]@, table@)));
            assert(levels_view(rule.priority_levels@.take(i + 1)).map_values(|l: SpecPriorityLevel| resolve_level(l, table@))
                =~= levels_view(rule.priority_levels@.take(i as int)).map_values(|l: SpecPriorityLevel| resolve_level(l, table@)).push(resolve_level(rule.priority_levels@[i as int]@, table@)));
        }
        i += 1;
    }
    assert(rule.priority_levels@.take(i as int) =~= rule.priority_levels@);
    let head = Nonterminal {
        name: rule.head.name.clone(),
        origin: match &rule.head.origin {
            Some(s) => Some(resolve_identifier(s, table)),
            None => None,
        },
        parameters: clone_parameters(&rule.head.parameters),
    };
    let layout = match &rule.layout {
        LayoutStrategy::Default => LayoutStrategy::Default,
        LayoutStrategy::NoLayout => LayoutStrategy::NoLayout,
        LayoutStrategy::Custom(id) => LayoutStrategy::Custom(id.clone()),
    };
    SyntaxRule { head, priority_levels: levels, layout }
}

/// `rule` with the references of its regex resolved.
fn resolve_lexical_refs(rule: &LexicalRule, table: &SymbolTable) -> (r: LexicalRule)
    ensures
        r@ == resolve_lexical(rule@, table@),
{
    LexicalRule {
        head: rule.head.clone(),
        regex: resolve_regex_refs(&rule.regex, table),
        except: clone_identifiers(&rule.except),
        follow_restriction: clone_identifiers(&rule.follow_restriction),
        precede_restriction: match &rule.precede_restriction {
            Some(id) => Some(id.clone()),
            None => None,
        },
    }
}

/// The syntax and lexical rules with their references resolved in `table`.
pub fn resolve_identifiers(syntax_rules: &Vec<SyntaxRule>, lexical_rules: &Vec<LexicalRule>, table: &SymbolTable) -> (r: (Vec<SyntaxRule>, Vec<LexicalRule>))
    ensures
        syntax_rules_view(r.0@) == syntax_rules_view(syntax_rules@).map_values(|x: SpecSyntaxRule| resolve_rule(x, table@)),
        lexical_rules_view(r.1@) == lexical_rules_view(lexical_rules@).map_values(|x: SpecLexicalRule| resolve_lexical(x, table@)),
{
    let mut syntax: Vec<SyntaxRule> = Vec::new();
    let mut i: usize = 0;
    while i < syntax_rules.len()
        invariant
            0 <= i <= syntax_rules@.len(),
            syntax_rules_view(syntax@) == syntax_rules_view(syntax_rules@.take(i as int)).map_values(
                |x: SpecSyntaxRule| resolve_rule(x, table@),
            ),
        decreases syntax_rules@.len() - i,
    {
        let ghost prev = syntax@;
        syntax.push(resolve_rule_refs(&syntax_rules[i], table));
        proof {
            assert(syntax_rules_view(syntax@) =~= syntax_rules_view(prev).push(resolve_rule(syntax_rules@[i as int]@, table@)));
            assert(syntax_rules_view(syntax_rules@.take(i + 1)).map_values(|x: SpecSyntaxRule| resolve_rule(x, table@))
                =~= syntax_rules_view(syntax_rules@.take(i as int)).map_values(|x: SpecSyntaxRule| resolve_rule(x, table@)).push(resolve_rule(syntax_rules@[i as int]@, table@)));
        }
        i += 1;
    }
    assert(syntax_rules@.take(i as int) =~= syntax_rules@);
    let mut lexical: Vec<LexicalRule> = Vec::new();
    let mut j: usize = 0;
    while j < lexical_rules.len()
        invariant
            0 <= j <= lexical_rules@.len(),
            lexical_rules_view(lexical@) == lexical_rules_view(lexical_rules@.take(j as int)).map_values(
                |x: SpecLexicalRule| resolve_lexical(x, table@),
            ),
        decreases lexical_rules@.len() - j,
    {
        let ghost prev = lexical@;
        lexical.push(resolve_lexical_refs(&lexical_rules[j], table));
        proof {
            assert(lexical_rules_view(lexical@) =~= lexical_rules_view(prev).push(resolve_lexical(lexical_rules@[j as int]@, table@)));
            assert(lexical_rules_view(lexical_rules@.take(j + 1)).map_values(|x: SpecLexicalRule| resolve_lexical(x, table@))
                =~= lexical_rules_view(lexical_rules@.take(j as int)).map_values(|x: SpecLexicalRule| resolve_lexical(x, table@)).push(resolve_lexical(lexical_rules@[j as int]@, table@)));
        }
        j += 1;
    }
    assert(lexical_rules@.take(j as int) =~= lexical_rules@);
    (syntax, lexical)
}

impl GrammarDef {
    /// A map from each rule name to its definition id.
    pub fn symbol_table(&self) -> (t: SymbolTable)
        requires
            self.syntax_rules@.len() + self.lexical_rules@.len() <= max_definitions(),
        ensures
            t@ == definition_names(self@.syntax_rules, self@.lexical_rules),
    {
        create_symbol_table(&self.syntax_rules, &self.lexical_rules).1
    }

    /// The grammar with every reference in its rules resolved to the
    /// definition of that name (the latest rule of that name; lexical rules
    /// come before syntax rules). The layout and the identifier rules stay.
    pub fn resolve(self) -> (g: GrammarDef)
        requires
            self.syntax_rules@.len() + self.lexical_rules@.len() <= max_definitions(),
        ensures
            g@ == (SpecGrammarDef {
                name: self@.name,
                syntax_rules: self@.syntax_rules.map_values(
                    |x: SpecSyntaxRule| resolve_rule(x, definition_names(self@.syntax_rules, self@.lexical_rules)),
                ),
                lexical_rules: self@.lexical_rules.map_values(
                    |x: SpecLexicalRule| resolve_lexical(x, definition_names(self@.syntax_rules, self@.lexical_rules)),
                ),
                layout: self@.layout,
                identifier_rules: self@.identifier_rules,
            }),
    {
        let table = self.symbol_table();
        let (syntax_rules, lexical_rules) = resolve_identifiers(&self.syntax_rules, &self.lexical_rules, &table);
        GrammarDef {
            name: self.name,
            syntax_rules,
            lexical_rules,
            layout: self.layout,
            identifier_rules: self.identifier_rules,
        }
    }
}

// ---------------------------------------------------------------------------
// Start rules

/// The start rule of `nt`: `Start<name> = Layout start:<name> Layout`, or
/// `Start<name> = start:<name>` without layout. A nonterminal with
/// parameters is called with zero for each.
pub open spec fn start_rule(nt: SpecNonterminal, layout: Option<SpecSymbol>, table: Seq<Seq<char>>) -> SpecSyntaxRule {
    let identifier = SpecIdentifier { name: nt.name, definition: table_lookup(table, nt.name) };
    let symbol = if nt.parameters.len() > 0 {
        SpecSymbol::Call { name: identifier, arguments: Seq::new(nt.parameters.len(), |i: int| crate::grammar::symbols::SpecExpr::Int(0)) }
    } else {
        SpecSymbol::Identifier(identifier)
    };
    let start = SpecSymbol::Labeled { label: "start"@, symbol: Box::new(symbol) };
    SpecSyntaxRule {
        head: SpecNonterminal { name: "Start"@ + nt.name, origin: Some(symbol), parameters: Seq::empty() },
        priority_levels: seq![SpecPriorityLevel {
            alternatives: seq![SpecAlternative {
                symbols: match layout {
                    Some(l) => seq![l, start, l],
                    None => seq![start],
                },
                label: None,
            }],
            associativity: None,
        }],
        layout: crate::grammar::def::SpecLayoutStrategy::Default,
    }
}

/// The start rule of `nt`, the entry point through which parsing enters it;
/// see `start_rule`. `nt` must be defined in the symbol table.
pub fn add_start_rule(nt: &Nonterminal, layout_identifier: Option<&Symbol>, symbol_table: &SymbolTable) -> (r: SyntaxRule)
    requires
        table_lookup(symbol_table@, nt@.name) is Some,
    ensures
        r@ == start_rule(nt@, match layout_identifier {
            Some(l) => Some(l@),
            None => None,
        }, symbol_table@),
{
    let def_id = symbol_table.get(nt.name.as_str()).unwrap();
    let mut name = String::new();
    crate::text::push_str(&mut name, "Start");
    crate::text::push_str(&mut name, nt.name.as_str());
    let identifier = Identifier { name: crate::text::string_of(nt.name.as_str()), definition: Some(def_id) };
    let symbol = if nt.parameters.len() > 0 {
        let mut arguments: Vec<crate::grammar::symbols::Expr> = Vec::new();
        let mut i: usize = 0;
        while i < nt.parameters.len()
            invariant
                0 <= i <= nt.parameters@.len(),
                crate::grammar::symbols::exprs_view(arguments@)
                    =~= Seq::new(i as nat, |k: int| crate::grammar::symbols::SpecExpr::Int(0)),
            decreases nt.parameters@.len() - i,
        {
            let ghost before = arguments@;
            arguments.push(crate::grammar::symbols::Expr::Int(0));
            assert(arguments@.drop_last() =~= before);
            assert(arguments@.last() == crate::grammar::symbols::Expr::Int(0));
            assert(crate::grammar::symbols::expr_view(arguments@.last()) == crate::grammar::symbols::SpecExpr::Int(0));
            assert(crate::grammar::symbols::exprs_view(arguments@)
                == crate::grammar::symbols::exprs_view(before).push(crate::grammar::symbols::SpecExpr::Int(0)));
            i += 1;
        }
        Symbol::Call { name: identifier, arguments }
    } else {
        Symbol::Identifier(identifier)
    };
    let start_symbol = Symbol::Labeled { label: crate::text::string_of("start"), symbol: Box::new(symbol.clone()) };
    let symbols = match layout_identifier {
        Some(layout) => {
            let v = vec![layout.clone(), start_symbol, layout.clone()];
            assert(symbols_view(v@) =~= seq![v@[0]@, v@[1]@, v@[2]@]) by {
                lemma_symbols_view(v@);
            }
            v
        },
        None => {
            let v = vec![start_symbol];
            assert(symbols_view(v@) =~= seq![v@[0]@]) by {
                lemma_symbols_view(v@);
            }
            v
        },
    };
    let level = PriorityLevel::from_alternative(Alternative { symbols, label: None });
    let head = Nonterminal { name, origin: Some(symbol), parameters: Vec::new() };
    let rule = SyntaxRule { head, priority_levels: vec![level], layout: LayoutStrategy::Default };
    proof {
        reveal_strlit("Start");
        reveal_strlit("start");
        assert(rule@.head.parameters =~= Seq::<crate::grammar::symbols::SpecParameter>::empty());
        assert(levels_view(rule.priority_levels@) =~= seq![level@]);
    }
    rule
}

} // verus!
