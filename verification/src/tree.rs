//! The nodes of an Iggy parse tree that the formatter and the grammar
//! builder read. Each token is held as its source text.
use vstd::prelude::*;

verus! {

/// The four kinds of post-condition, in canonical order.
#[derive(Clone, Copy, PartialEq, Eq)]
pub enum ConditionKind {
    Exclude,
    Except,
    Follow,
    LayoutAwareFollow,
}

/// A post-condition written after a symbol.
pub enum TreePostCondition {
    /// `!label`
    Exclude(String),
    /// `\ Name`
    Except(String),
    /// `!>> Name`
    FollowRestriction(String),
    /// `!>>> Name`
    LayoutAwareFollowRestriction(String),
}

/// A symbol of a syntax rule as written.
pub enum TreeSymbol {
    Identifier(String),
    /// A string literal; the text includes its quotes.
    Lit(String),
    /// `( a b | c )`: sequences separated by `|`.
    Paren(Vec<Vec<TreeSymbol>>),
    Star(Box<TreeSymbol>),
    Plus(Box<TreeSymbol>),
    Opt(Box<TreeSymbol>),
    /// `{ symbol sep }*`
    StarSep(Box<TreeSymbol>, Box<TreeSymbol>),
    /// `{ symbol sep }+`
    PlusSep(Box<TreeSymbol>, Box<TreeSymbol>),
    PostCondition(Box<TreeSymbol>, Vec<TreePostCondition>),
    /// `A !<< B !<< symbol`: the identifiers before the symbol.
    PreCondition(Vec<String>, Box<TreeSymbol>),
    /// `label:symbol`
    Labeled(String, Box<TreeSymbol>),
}

/// One element of a character class.
pub enum TreeRangeElement {
    /// `a-z`: the texts of both ends.
    Range(String, String),
    Char(String),
}

/// A character class, `[...]` or `![...]`.
pub struct TreeCharClass {
    pub negated: bool,
    pub elements: Vec<TreeRangeElement>,
}

/// A regular expression of a lexical rule as written.
pub enum TreeRegex {
    Plus(Box<TreeRegex>),
    Star(Box<TreeRegex>),
    Opt(Box<TreeRegex>),
    /// `( a b | c )`: sequences separated by `|`.
    Paren(Vec<Vec<TreeRegex>>),
    CharClass(TreeCharClass),
    /// A character literal, with its quotes.
    Char(String),
    /// A string literal, with its quotes.
    Lit(String),
    Identifier(String),
}

/// The annotation before a syntax rule.
pub enum TreeAnnotation {
    NoLayout,
    Layout,
    WithLayout(String),
}

/// The associativity keyword of a priority level.
pub enum TreeAssociativity {
    Left,
    Right,
    NonAssoc,
}

/// An alternative: symbols, or `()`, with an optional label whose text
/// includes its `#`.
pub enum TreeAlternative {
    Symbols { symbols: Vec<TreeSymbol>, label: Option<String> },
    Empty { label: Option<String> },
}

/// A priority level: its alternatives, separated by `|`.
pub struct TreePriorityLevel {
    pub associativity: Option<TreeAssociativity>,
    pub alternatives: Vec<TreeAlternative>,
}

/// A syntax rule; `head` is the text of the head, parameters included.
pub struct TreeSyntaxRule {
    pub annotation: Option<TreeAnnotation>,
    pub head: String,
    pub priority_levels: Vec<TreePriorityLevel>,
}

/// A post-condition of a lexical rule.
pub enum TreeRegexPostCondition {
    /// `\ Name`
    Except(String),
    /// `!>> Name`
    FollowRestriction(String),
}

/// A lexical rule: `@Regex`, optionally after `@Layout` or `@Identifier`;
/// the body is a list of alternatives, each a sequence of regexes.
pub struct TreeRegexRule {
    pub layout: bool,
    pub identifier: bool,
    pub name: String,
    pub pre_condition: Option<String>,
    pub body: Vec<Vec<TreeRegex>>,
    pub post_conditions: Vec<TreeRegexPostCondition>,
}

/// A rule of a grammar.
pub enum TreeRule {
    Syntax(TreeSyntaxRule),
    Regex(TreeRegexRule),
}

/// A grammar: its name and its rules in the order written.
pub struct TreeGrammar {
    pub name: String,
    pub rules: Vec<TreeRule>,
}

} // verus!
