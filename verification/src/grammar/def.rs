//! Grammar definitions: syntax rules with priority levels and alternatives,
//! lexical rules, and the symbol table that resolves references.
use vstd::prelude::*;
use crate::grammar::regex::{Regex, SpecRegex};
use crate::grammar::render::symbols_text;
use crate::grammar::symbols::{
    clone_identifiers, identifiers_view, symbols_view, Identifier, Nonterminal, SpecIdentifier,
    SpecNonterminal, SpecSymbol, SpecTerminal, Symbol, Terminal,
};
use crate::text::{push_char, push_str};

verus! {

broadcast use vstd::std_specs::vec::axiom_vec_index_decreases;

/// The associativity of a priority level.
#[derive(Debug, Clone, Copy, PartialEq, Eq, Hash, Structural)]
pub enum Associativity {
    Left,
    Right,
    NonAssoc,
}

/// Controls how layout (whitespace/comments) is inserted between the symbols
/// of a syntax rule: the grammar's layout (the default), none for
/// character-level rules, or a custom layout rule.
#[derive(Debug)]
pub enum LayoutStrategy {
    Default,
    NoLayout,
    Custom(Identifier),
}

/// An alternative: a sequence of symbols with an optional label.
#[derive(Debug)]
pub struct Alternative {
    pub symbols: Vec<Symbol>,
    pub label: Option<String>,
}

/// A syntax rule: a nonterminal head, its priority levels from highest to
/// lowest, and its layout strategy.
#[derive(Debug)]
pub struct SyntaxRule {
    pub head: Nonterminal,
    pub priority_levels: Vec<PriorityLevel>,
    pub layout: LayoutStrategy,
}

/// The alternatives of one priority level, with an optional associativity.
#[derive(Debug)]
pub struct PriorityLevel {
    pub alternatives: Vec<Alternative>,
    pub associativity: Option<Associativity>,
}

/// A lexical rule: a terminal head, its regex, and its restrictions.
#[derive(Debug)]
pub struct LexicalRule {
    pub head: Terminal,
    pub regex: Regex,
    pub except: Vec<Identifier>,
    pub follow_restriction: Vec<Identifier>,
    pub precede_restriction: Option<Identifier>,
}

/// A grammar as written: named syntax and lexical rules, the layout symbol,
/// and the lexical rules annotated `@Identifier`.
#[derive(Debug)]
pub struct GrammarDef {
    pub name: String,
    pub syntax_rules: Vec<SyntaxRule>,
    pub lexical_rules: Vec<LexicalRule>,
    /// The layout nonterminal: whitespace and comments allowed between symbols.
    pub layout: Option<Symbol>,
    /// The lexical rules marked with `@Identifier`.
    pub identifier_rules: Vec<Identifier>,
}

// ---------------------------------------------------------------------------
// Views

pub enum SpecLayoutStrategy {
    Default,
    NoLayout,
    Custom(SpecIdentifier),
}

pub struct SpecAlternative {
    pub symbols: Seq<SpecSymbol>,
    pub label: Option<Seq<char>>,
}

pub struct SpecPriorityLevel {
    pub alternatives: Seq<SpecAlternative>,
    pub associativity: Option<Associativity>,
}

pub struct SpecSyntaxRule {
    pub head: SpecNonterminal,
    pub priority_levels: Seq<SpecPriorityLevel>,
    pub layout: SpecLayoutStrategy,
}

pub struct SpecLexicalRule {
    pub head: SpecTerminal,
    pub regex: SpecRegex,
    pub except: Seq<SpecIdentifier>,
    pub follow_restriction: Seq<SpecIdentifier>,
    pub precede_restriction: Option<SpecIdentifier>,
}

pub struct SpecGrammarDef {
    pub name: Seq<char>,
    pub syntax_rules: Seq<SpecSyntaxRule>,
    pub lexical_rules: Seq<SpecLexicalRule>,
    pub layout: Option<SpecSymbol>,
    pub identifier_rules: Seq<SpecIdentifier>,
}

impl View for LayoutStrategy {
    type V = SpecLayoutStrategy;

    open spec fn view(&self) -> SpecLayoutStrategy {
        match self {
            LayoutStrategy::Default => SpecLayoutStrategy::Default,
            LayoutStrategy::NoLayout => SpecLayoutStrategy::NoLayout,
            LayoutStrategy::Custom(id) => SpecLayoutStrategy::Custom(id@),
        }
    }
}

/// The view of an optional string.
pub open spec fn option_string_view(s: Option<String>) -> Option<Seq<char>> {
    match s {
        Some(s) => Some(s@),
        None => None,
    }
}

/// The view of an optional identifier.
pub open spec fn option_identifier_view(id: Option<Identifier>) -> Option<SpecIdentifier> {
    match id {
        Some(id) => Some(id@),
        None => None,
    }
}

impl View for Alternative {
    type V = SpecAlternative;

    open spec fn view(&self) -> SpecAlternative {
        SpecAlternative { symbols: symbols_view(self.symbols@), label: option_string_view(self.label) }
    }
}

/// The views of a sequence of alternatives.
pub open spec fn alternatives_view(alts: Seq<Alternative>) -> Seq<SpecAlternative> {
    alts.map_values(|a: Alternative| a@)
}

impl View for PriorityLevel {
    type V = SpecPriorityLevel;

    open spec fn view(&self) -> SpecPriorityLevel {
        SpecPriorityLevel {
            alternatives: alternatives_view(self.alternatives@),
            associativity: self.associativity,
        }
    }
}

/// The views of a sequence of priority levels.
pub open spec fn levels_view(levels: Seq<PriorityLevel>) -> Seq<SpecPriorityLevel> {
    levels.map_values(|l: PriorityLevel| l@)
}

impl View for SyntaxRule {
    type V = SpecSyntaxRule;

    open spec fn view(&self) -> SpecSyntaxRule {
        SpecSyntaxRule {
            head: self.head@,
            priority_levels: levels_view(self.priority_levels@),
            layout: self.layout@,
        }
    }
}

/// The views of a sequence of syntax rules.
pub open spec fn syntax_rules_view(rules: Seq<SyntaxRule>) -> Seq<SpecSyntaxRule> {
    rules.map_values(|r: SyntaxRule| r@)
}

impl View for LexicalRule {
    type V = SpecLexicalRule;

    open spec fn view(&self) -> SpecLexicalRule {
        SpecLexicalRule {
            head: self.head@,
            regex: self.regex@,
            except: identifiers_view(self.except@),
            follow_restriction: identifiers_view(self.follow_restriction@),
            precede_restriction: option_identifier_view(self.precede_restriction),
        }
    }
}

/// The views of a sequence of lexical rules.
pub open spec fn lexical_rules_view(rules: Seq<LexicalRule>) -> Seq<SpecLexicalRule> {
    rules.map_values(|r: LexicalRule| r@)
}

impl View for GrammarDef {
    type V = SpecGrammarDef;

    open spec fn view(&self) -> SpecGrammarDef {
        SpecGrammarDef {
            name: self.name@,
            syntax_rules: syntax_rules_view(self.syntax_rules@),
            lexical_rules: lexical_rules_view(self.lexical_rules@),
            layout: match self.layout {
                Some(s) => Some(s@),
                None => None,
            },
            identifier_rules: identifiers_view(self.identifier_rules@),
        }
    }
}

/// Every alternative of a rule across its priority levels, in order.
pub open spec fn rule_alternatives(levels: Seq<SpecPriorityLevel>) -> Seq<SpecAlternative>
    decreases levels.len(),
{
    if levels.len() == 0 {
        Seq::empty()
    } else {
        rule_alternatives(levels.drop_last()) + levels.last().alternatives
    }
}

/// The text of an alternative: its symbols separated by spaces, then ` #label`.
pub open spec fn alternative_text(a: SpecAlternative) -> Seq<char> {
    symbols_text(a.symbols, seq![' ']) + match a.label {
        Some(label) => seq![' ', '#'] + label,
        None => Seq::empty(),
    }
}

// ---------------------------------------------------------------------------
// Constructors and queries

impl Alternative {
    /// The number of symbols.
    pub fn len(&self) -> (n: usize)
        ensures
            n == self@.symbols.len(),
    {
        proof { crate::grammar::symbols::lemma_symbols_view(self.symbols@); }
        self.symbols.len()
    }

    /// Whether the alternative has no symbols.
    pub fn is_empty(&self) -> (b: bool)
        ensures
            b == (self@.symbols.len() == 0),
    {
        self.len() == 0
    }

    /// The empty, unlabeled alternative.
    pub fn empty() -> (a: Alternative)
        ensures
            a@ == (SpecAlternative { symbols: Seq::empty(), label: None }),
    {
        let a = Alternative { symbols: Vec::new(), label: None };
        assert(a@.symbols =~= Seq::<SpecSymbol>::empty());
        a
    }

    /// The text of this alternative; see `alternative_text`.
    pub fn to_string(&self) -> (s: String)
        ensures
            s@ == alternative_text(self@),
    {
        let mut s = String::new();
        crate::grammar::render::push_symbols_separated(&mut s, &self.symbols, " ");
        proof { reveal_strlit(" "); }
        assert(" "@ =~= seq![' ']);
        if let Some(label) = &self.label {
            push_char(&mut s, ' ');
            push_char(&mut s, '#');
            push_str(&mut s, label.as_str());
        }
        assert(s@ =~= alternative_text(self@));
        s
    }
}

impl PriorityLevel {
    /// A level of `alternatives` without associativity.
    pub fn new(alternatives: Vec<Alternative>) -> (l: PriorityLevel)
        ensures
            l@ == (SpecPriorityLevel { alternatives: alternatives_view(alternatives@), associativity: None }),
    {
        PriorityLevel { alternatives, associativity: None }
    }

    /// A level of `alternatives` with the given associativity.
    pub fn with_associativity(alternatives: Vec<Alternative>, associativity: Option<Associativity>) -> (l: PriorityLevel)
        ensures
            l@ == (SpecPriorityLevel { alternatives: alternatives_view(alternatives@), associativity }),
    {
        PriorityLevel { alternatives, associativity }
    }

    /// The level of the single alternative `alt`.
    pub fn from_alternative(alt: Alternative) -> (l: PriorityLevel)
        ensures
            l@ == (SpecPriorityLevel { alternatives: seq![alt@], associativity: None }),
    {
        let ghost a = alt@;
        let alternatives = vec![alt];
        assert(alternatives_view(alternatives@) =~= seq![a]);
        PriorityLevel { alternatives, associativity: None }
    }
}

impl SyntaxRule {
    /// The rule for `head` with the given levels and the default layout.
    pub fn new(head: Nonterminal, priority_levels: Vec<PriorityLevel>) -> (r: SyntaxRule)
        ensures
            r@ == (SpecSyntaxRule {
                head: head@,
                priority_levels: levels_view(priority_levels@),
                layout: SpecLayoutStrategy::Default,
            }),
    {
        SyntaxRule { head, priority_levels, layout: LayoutStrategy::Default }
    }

    /// Every alternative across all priority levels, in order.
    pub fn alternatives(&self) -> (alts: Vec<&Alternative>)
        ensures
            alts@.map_values(|a: &Alternative| a@) == rule_alternatives(self@.priority_levels),
    {
        let mut out: Vec<&Alternative> = Vec::new();
        let mut i: usize = 0;
        while i < self.priority_levels.len()
            invariant
                0 <= i <= self.priority_levels@.len(),
                out@.map_values(|a: &Alternative| a@) == rule_alternatives(levels_view(self.priority_levels@.take(i as int))),
            decreases self.priority_levels@.len() - i,
        {
            let level = &self.priority_levels[i];
            let ghost before = out@.map_values(|a: &Alternative| a@);
            let mut j: usize = 0;
            while j < level.alternatives.len()
                invariant
                    0 <= j <= level.alternatives@.len(),
                    out@.map_values(|a: &Alternative| a@) == before + alternatives_view(level.alternatives@.take(j as int)),
                decreases level.alternatives@.len() - j,
            {
                let ghost prev = out@;
                out.push(&level.alternatives[j]);
                proof {
                    assert(out@.map_values(|a: &Alternative| a@) =~= prev.map_values(|a: &Alternative| a@).push(level.alternatives@[j as int]@));
                    assert(alternatives_view(level.alternatives@.take(j + 1)) =~= alternatives_view(level.alternatives@.take(j as int)).push(level.alternatives@[j as int]@));
                }
                j += 1;
            }
            proof {
                assert(level.alternatives@.take(j as int) =~= level.alternatives@);
                let lv = levels_view(self.priority_levels@.take(i + 1));
                assert(lv.drop_last() =~= levels_view(self.priority_levels@.take(i as int)));
                assert(lv.last() == level@);
            }
            i += 1;
        }
        assert(self.priority_levels@.take(i as int) =~= self.priority_levels@);
        out
    }

    /// Whether this rule has an alternative labeled `label`.
    pub fn has_label(&self, label: &str) -> (b: bool)
        ensures
            b == exists|k: int| 0 <= k < rule_alternatives(self@.priority_levels).len()
                && #[trigger] rule_alternatives(self@.priority_levels)[k].label == Some(label@),
    {
        let alts = self.alternatives();
        let ghost views = alts@.map_values(|a: &Alternative| a@);
        let mut k: usize = 0;
        while k < alts.len()
            invariant
                0 <= k <= alts@.len(),
                views == alts@.map_values(|a: &Alternative| a@),
                views == rule_alternatives(self@.priority_levels),
                forall|m: int| 0 <= m < k ==> (#[trigger] views[m]).label != Some(label@),
            decreases alts@.len() - k,
        {
            let alt = alts[k];
            assert(views[k as int] == alt@);
            if let Some(l) = &alt.label {
                if crate::text::str_eq(l.as_str(), label) {
                    return true;
                }
            }
            k += 1;
        }
        false
    }
}

impl LexicalRule {
    /// The rule for `head` matching `regex`, without restrictions.
    pub fn new(head: Terminal, regex: Regex) -> (r: LexicalRule)
        ensures
            r@ == (SpecLexicalRule {
                head: head@,
                regex: regex@,
                except: Seq::empty(),
                follow_restriction: Seq::empty(),
                precede_restriction: None,
            }),
    {
        let r = LexicalRule {
            head,
            regex,
            except: Vec::new(),
            follow_restriction: Vec::new(),
            precede_restriction: None,
        };
        assert(r@.except =~= Seq::<SpecIdentifier>::empty());
        assert(r@.follow_restriction =~= Seq::<SpecIdentifier>::empty());
        r
    }
}

} // verus!
