//! The text of rules and grammar definitions, as grammar dumps print them:
//!
//! ```text
//! E(p: i32)
//!   = "a" return 0
//!   | E "+" E
//!   > "-" E
//! ```
use vstd::prelude::*;
use crate::grammar::def::{
    alternative_text, GrammarDef, LayoutStrategy, LexicalRule, SpecAlternative, SpecGrammarDef,
    SpecLayoutStrategy, SpecLexicalRule, SpecPriorityLevel, SpecSyntaxRule, SyntaxRule,
};
use crate::grammar::regex::regex_text;
use crate::grammar::symbols::{
    identifiers_view, Identifier, Nonterminal, Parameter, SpecIdentifier, SpecNonterminal, SpecParameter, SpecSymbol, Symbol,
};
use crate::text::push_str;

verus! {

/// A parameter as declared: `p: i32`.
pub open spec fn parameter_text(p: SpecParameter) -> Seq<char> {
    p.name + ": i32"@
}

/// Parameters separated by `, `.
pub open spec fn parameters_text(ps: Seq<SpecParameter>) -> Seq<char>
    decreases ps.len(),
{
    if ps.len() == 0 {
        Seq::empty()
    } else if ps.len() == 1 {
        parameter_text(ps[0])
    } else {
        parameters_text(ps.drop_last()) + ", "@ + parameter_text(ps.last())
    }
}

/// A rule head: its name, then its parameters in parentheses if it has any.
pub open spec fn nonterminal_text(nt: SpecNonterminal) -> Seq<char> {
    if nt.parameters.len() == 0 {
        nt.name
    } else {
        nt.name + "("@ + parameters_text(nt.parameters) + ")"@
    }
}

/// What opens the line of alternative `alt` of level `level`: `=` for the
/// first alternative of the first level, `>` for the first of a later
/// level, `|` for the others.
pub open spec fn line_prefix(level: int, alt: int) -> Seq<char> {
    if alt == 0 {
        if level == 0 { "  = "@ } else { "  > "@ }
    } else {
        "  | "@
    }
}

/// The lines of the alternatives of level `level`.
pub open spec fn level_lines(alts: Seq<SpecAlternative>, level: int) -> Seq<char>
    decreases alts.len(),
{
    if alts.len() == 0 {
        Seq::empty()
    } else {
        level_lines(alts.drop_last(), level) + line_prefix(level, alts.len() - 1) + alternative_text(alts.last())
            + "\n"@
    }
}

/// The lines of the levels, one after the other.
pub open spec fn levels_lines(levels: Seq<SpecPriorityLevel>) -> Seq<char>
    decreases levels.len(),
{
    if levels.len() == 0 {
        Seq::empty()
    } else {
        levels_lines(levels.drop_last()) + level_lines(levels.last().alternatives, levels.len() - 1)
    }
}

/// The text of a syntax rule: its head on a line, then a line per
/// alternative.
pub open spec fn rule_text(r: SpecSyntaxRule) -> Seq<char> {
    nonterminal_text(r.head) + "\n"@ + levels_lines(r.priority_levels)
}

/// Each name of `ids` after `prefix`.
pub open spec fn prefixed_names(prefix: Seq<char>, ids: Seq<SpecIdentifier>) -> Seq<char>
    decreases ids.len(),
{
    if ids.len() == 0 {
        Seq::empty()
    } else {
        prefixed_names(prefix, ids.drop_last()) + prefix + ids.last().name
    }
}

/// The text of a lexical rule: `Head = regex`, then its restrictions.
pub open spec fn lexical_rule_text(r: SpecLexicalRule) -> Seq<char> {
    r.head.name + " = "@ + regex_text(r.regex) + prefixed_names(" \\ "@, r.except)
        + prefixed_names(" !>> "@, r.follow_restriction) + match r.precede_restriction {
            Some(id) => " !<< "@ + id.name,
            None => Seq::empty(),
        }
}

/// The name of the layout rule, where the layout is a plain reference.
pub open spec fn layout_reference(g: SpecGrammarDef) -> Option<Seq<char>> {
    match g.layout {
        Some(SpecSymbol::Identifier(id)) => Some(id.name),
        _ => None,
    }
}

/// The annotation line of a syntax rule: `@Layout` for the layout rule, else
/// its layout strategy unless it is the default.
pub open spec fn syntax_annotation(g: SpecGrammarDef, r: SpecSyntaxRule) -> Seq<char> {
    if layout_reference(g) == Some(r.head.name) {
        "@Layout\n"@
    } else {
        match r.layout {
            SpecLayoutStrategy::NoLayout => "@NoLayout\n"@,
            SpecLayoutStrategy::Custom(id) => "@WithLayout("@ + id.name + ")\n"@,
            SpecLayoutStrategy::Default => Seq::empty(),
        }
    }
}

/// Whether a lexical rule is named among the identifier rules.
pub open spec fn is_identifier_rule(g: SpecGrammarDef, name: Seq<char>) -> bool {
    exists|k: int| 0 <= k < g.identifier_rules.len() && (#[trigger] g.identifier_rules[k]).name == name
}

/// The annotation line of a lexical rule.
pub open spec fn lexical_annotation(g: SpecGrammarDef, r: SpecLexicalRule) -> Seq<char> {
    if layout_reference(g) == Some(r.head.name) {
        "@Layout @Regex\n"@
    } else if is_identifier_rule(g, r.head.name) {
        "@Identifier @Regex\n"@
    } else {
        "@Regex\n"@
    }
}

/// The syntax rules, each after its annotation and followed by a blank line.
pub open spec fn syntax_section(g: SpecGrammarDef, rules: Seq<SpecSyntaxRule>) -> Seq<char>
    decreases rules.len(),
{
    if rules.len() == 0 {
        Seq::empty()
    } else {
        syntax_section(g, rules.drop_last()) + syntax_annotation(g, rules.last()) + rule_text(rules.last()) + "\n"@
    }
}

/// The lexical rules, each after its annotation, as `Head = regex`.
pub open spec fn lexical_section(g: SpecGrammarDef, rules: Seq<SpecLexicalRule>) -> Seq<char>
    decreases rules.len(),
{
    if rules.len() == 0 {
        Seq::empty()
    } else {
        lexical_section(g, rules.drop_last()) + lexical_annotation(g, rules.last()) + rules.last().head.name
            + " = "@ + regex_text(rules.last().regex) + "\n"@
    }
}

/// The text of a grammar definition: `grammar Name`, a blank line, the
/// syntax rules, then the lexical rules.
pub open spec fn grammar_text(g: SpecGrammarDef) -> Seq<char> {
    "grammar "@ + g.name + "\n\n"@ + syntax_section(g, g.syntax_rules) + lexical_section(g, g.lexical_rules)
}

impl Nonterminal {
    /// The text of the head; see `nonterminal_text`.
    pub fn to_string(&self) -> (s: String)
        ensures
            s@ == nonterminal_text(self@),
    {
        let mut s = String::new();
        push_str(&mut s, self.name.as_str());
        if self.parameters.len() == 0 {
            assert(self@.parameters.len() == 0);
            return s;
        }
        push_str(&mut s, "(");
        let ghost pv = self@.parameters;
        let ghost start = s@;
        let mut i: usize = 0;
        assert(pv.take(0) =~= Seq::<SpecParameter>::empty());
        while i < self.parameters.len()
            invariant
                0 <= i <= self.parameters@.len(),
                pv == self@.parameters,
                pv.len() == self.parameters@.len(),
                s@ == start + parameters_text(pv.take(i as int)),
            decreases self.parameters@.len() - i,
        {
            let ghost before = s@;
            assert(pv[i as int] == self.parameters@[i as int]@);
            assert(pv.take(i + 1).drop_last() =~= pv.take(i as int));
            if i > 0 {
                push_str(&mut s, ", ");
            }
            push_str(&mut s, self.parameters[i].name.as_str());
            push_str(&mut s, ": i32");
            if i > 0 {
                assert(s@ =~= before + ", "@ + parameter_text(pv[i as int]));
            } else {
                assert(pv.take(1)[0] == pv[0]);
                assert(s@ =~= before + parameter_text(pv[i as int]));
                assert(before =~= start + Seq::<char>::empty());
            }
            assert(s@ =~= start + parameters_text(pv.take(i + 1)));
            i += 1;
        }
        assert(pv.take(i as int) =~= pv);
        push_str(&mut s, ")");
        s
    }
}

impl SyntaxRule {
    /// The text of the rule; see `rule_text`.
    pub fn to_string(&self) -> (s: String)
        ensures
            s@ == rule_text(self@),
    {
        let mut s = self.head.to_string();
        push_str(&mut s, "\n");
        let ghost lv = self@.priority_levels;
        let ghost start = s@;
        let mut i: usize = 0;
        assert(start + levels_lines(lv.take(0)) =~= start);
        while i < self.priority_levels.len()
            invariant
                0 <= i <= self.priority_levels@.len(),
                lv == self@.priority_levels,
                lv.len() == self.priority_levels@.len(),
                s@ == start + levels_lines(lv.take(i as int)),
            decreases self.priority_levels@.len() - i,
        {
            let level = &self.priority_levels[i];
            assert(lv[i as int] == level@);
            assert(lv.take(i + 1).drop_last() =~= lv.take(i as int));
            let ghost av = level@.alternatives;
            let ghost mid = s@;
            let mut j: usize = 0;
            assert(mid + level_lines(av.take(0), i as int) =~= mid);
            while j < level.alternatives.len()
                invariant
                    0 <= j <= level.alternatives@.len(),
                    av == level@.alternatives,
                    av.len() == level.alternatives@.len(),
                    s@ == mid + level_lines(av.take(j as int), i as int),
                decreases level.alternatives@.len() - j,
            {
                let alt = &level.alternatives[j];
                assert(av[j as int] == alt@);
                assert(av.take(j + 1).drop_last() =~= av.take(j as int));
                let ghost before = s@;
                if j == 0 {
                    if i == 0 {
                        push_str(&mut s, "  = ");
                    } else {
                        push_str(&mut s, "  > ");
                    }
                } else {
                    push_str(&mut s, "  | ");
                }
                let text = alt.to_string();
                push_str(&mut s, text.as_str());
                push_str(&mut s, "\n");
                assert(s@ =~= before + line_prefix(i as int, j as int) + alternative_text(alt@) + "\n"@);
                assert(s@ =~= mid + level_lines(av.take(j + 1), i as int));
                j += 1;
            }
            assert(av.take(j as int) =~= av);
            assert(s@ =~= start + levels_lines(lv.take(i + 1)));
            i += 1;
        }
        assert(lv.take(i as int) =~= lv);
        s
    }
}

/// Appends `prefix` and the name of each of `ids`; see `prefixed_names`.
fn push_prefixed_names(s: &mut String, prefix: &str, ids: &Vec<Identifier>)
    ensures
        final(s)@ == old(s)@ + prefixed_names(prefix@, identifiers_view(ids@)),
{
    let ghost iv = identifiers_view(ids@);
    let ghost start = s@;
    let mut i: usize = 0;
    assert(start + prefixed_names(prefix@, iv.take(0)) =~= start);
    while i < ids.len()
        invariant
            0 <= i <= ids@.len(),
            iv == identifiers_view(ids@),
            iv.len() == ids@.len(),
            s@ == start + prefixed_names(prefix@, iv.take(i as int)),
        decreases ids@.len() - i,
    {
        assert(iv[i as int] == ids@[i as int]@);
        assert(iv.take(i + 1).drop_last() =~= iv.take(i as int));
        push_str(s, prefix);
        push_str(s, ids[i].name.as_str());
        assert(s@ =~= start + prefixed_names(prefix@, iv.take(i + 1)));
        i += 1;
    }
    assert(iv.take(i as int) =~= iv);
}

impl LexicalRule {
    /// The text of the rule with its restrictions; see `lexical_rule_text`.
    pub fn to_string(&self) -> (s: String)
        ensures
            s@ == lexical_rule_text(self@),
    {
        let mut s = String::new();
        push_str(&mut s, self.head.name.as_str());
        push_str(&mut s, " = ");
        self.regex.push_text(&mut s);
        push_prefixed_names(&mut s, " \\ ", &self.except);
        push_prefixed_names(&mut s, " !>> ", &self.follow_restriction);
        let ghost before = s@;
        if let Some(id) = &self.precede_restriction {
            push_str(&mut s, " !<< ");
            push_str(&mut s, id.name.as_str());
        }
        assert(s@ =~= lexical_rule_text(self@));
        s
    }
}

impl GrammarDef {
    /// The text of the grammar definition; see `grammar_text`.
    pub fn to_string(&self) -> (s: String)
        ensures
            s@ == grammar_text(self@),
    {
        let g = self;
        let ghost gv = self@;
        let mut s = String::new();
        push_str(&mut s, "grammar ");
        push_str(&mut s, g.name.as_str());
        push_str(&mut s, "\n\n");
        let layout: Option<&String> = match &g.layout {
            Some(Symbol::Identifier(id)) => Some(&id.name),
            _ => None,
        };
        let ghost start = s@;
        let ghost sv = gv.syntax_rules;
        let mut i: usize = 0;
        assert(start + syntax_section(gv, sv.take(0)) =~= start);
        while i < g.syntax_rules.len()
            invariant
                0 <= i <= g.syntax_rules@.len(),
                gv == g@,
                sv == gv.syntax_rules,
                sv.len() == g.syntax_rules@.len(),
                match layout {
                    Some(n) => layout_reference(gv) == Some(n@),
                    None => layout_reference(gv) is None,
                },
                s@ == start + syntax_section(gv, sv.take(i as int)),
            decreases g.syntax_rules@.len() - i,
        {
            let rule = &g.syntax_rules[i];
            assert(sv[i as int] == rule@);
            assert(sv.take(i + 1).drop_last() =~= sv.take(i as int));
            let ghost before = s@;
            let is_layout = match layout {
                Some(n) => crate::text::str_eq(n.as_str(), rule.head.name.as_str()),
                None => false,
            };
            if is_layout {
                push_str(&mut s, "@Layout\n");
            } else {
                match &rule.layout {
                    LayoutStrategy::NoLayout => push_str(&mut s, "@NoLayout\n"),
                    LayoutStrategy::Custom(id) => {
                        push_str(&mut s, "@WithLayout(");
                        push_str(&mut s, id.name.as_str());
                        push_str(&mut s, ")\n");
                    },
                    LayoutStrategy::Default => {},
                }
            }
            assert(s@ =~= before + syntax_annotation(gv, rule@));
            let text = rule.to_string();
            push_str(&mut s, text.as_str());
            push_str(&mut s, "\n");
            assert(s@ =~= start + syntax_section(gv, sv.take(i + 1)));
            i += 1;
        }
        assert(sv.take(i as int) =~= sv);
        let ghost mid = s@;
        let ghost lv = gv.lexical_rules;
        let mut k: usize = 0;
        assert(mid + lexical_section(gv, lv.take(0)) =~= mid);
        while k < g.lexical_rules.len()
            invariant
                0 <= k <= g.lexical_rules@.len(),
                gv == g@,
                lv == gv.lexical_rules,
                lv.len() == g.lexical_rules@.len(),
                match layout {
                    Some(n) => layout_reference(gv) == Some(n@),
                    None => layout_reference(gv) is None,
                },
                s@ == mid + lexical_section(gv, lv.take(k as int)),
            decreases g.lexical_rules@.len() - k,
        {
            let rule = &g.lexical_rules[k];
            assert(lv[k as int] == rule@);
            assert(lv.take(k + 1).drop_last() =~= lv.take(k as int));
            let ghost before = s@;
            let is_layout = match layout {
                Some(n) => crate::text::str_eq(n.as_str(), rule.head.name.as_str()),
                None => false,
            };
            if is_layout {
                push_str(&mut s, "@Layout @Regex\n");
            } else if identifier_rule_named(&g.identifier_rules, rule.head.name.as_str()) {
                push_str(&mut s, "@Identifier @Regex\n");
            } else {
                push_str(&mut s, "@Regex\n");
            }
            assert(s@ =~= before + lexical_annotation(gv, rule@));
            push_str(&mut s, rule.head.name.as_str());
            push_str(&mut s, " = ");
            rule.regex.push_text(&mut s);
            push_str(&mut s, "\n");
            assert(s@ =~= mid + lexical_section(gv, lv.take(k + 1)));
            k += 1;
        }
        assert(lv.take(k as int) =~= lv);
        s
    }
}

/// Whether one of `ids` is named `name`.
fn identifier_rule_named(ids: &Vec<Identifier>, name: &str) -> (b: bool)
    ensures
        b == exists|k: int| 0 <= k < ids@.len() && (#[trigger] identifiers_view(ids@)[k]).name == name@,
{
    let ghost iv = identifiers_view(ids@);
    let mut k: usize = 0;
    while k < ids.len()
        invariant
            0 <= k <= ids@.len(),
            iv == identifiers_view(ids@),
            iv.len() == ids@.len(),
            forall|j: int| 0 <= j < k ==> (#[trigger] iv[j]).name != name@,
        decreases ids@.len() - k,
    {
        assert(iv[k as int] == ids@[k as int]@);
        if crate::text::str_eq(ids[k].name.as_str(), name) {
            return true;
        }
        k += 1;
    }
    false
}

} // verus!
