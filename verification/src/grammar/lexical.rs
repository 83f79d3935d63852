//! Lexical rules before code generation: simplified regexes, restrictions
//! inherited along whole-body references, and references inlined.
//!
//! A rule whose whole body is a reference (`TypeId = Identifier`) inherits
//! the referenced rule's excepts (`\`), follow restrictions (`!>>`) and
//! precede restriction (`!<<`), following the chain of such references;
//! its body then inlines to the chain's base regex. A restricted rule
//! referenced inside a larger regex matches only a sub-span there, so its
//! restrictions cannot carry over: that is an error.
use vstd::prelude::*;
use crate::grammar::def::{lexical_rules_view, LexicalRule, SpecLexicalRule};
use crate::grammar::regex::{lemma_regexes_view, regexes_view, Regex, SpecRegex};
use crate::grammar::symbols::{identifiers_view, Identifier, SpecIdentifier, SpecTerminal, Terminal};
use crate::text::{push_str, str_eq};

verus! {

broadcast use vstd::std_specs::vec::axiom_vec_index_decreases;

// ---------------------------------------------------------------------------
// Simplification

/// A regex without single-part sequences and alternations: `(A)` is `A`.
pub open spec fn simplified(r: SpecRegex) -> SpecRegex
    decreases r, 1int,
{
    match r {
        SpecRegex::Sequence(parts) => {
            let ps = simplified_all(parts);
            if ps.len() == 1 { ps[0] } else { SpecRegex::Sequence(ps) }
        },
        SpecRegex::Alt(parts) => {
            let ps = simplified_all(parts);
            if ps.len() == 1 { ps[0] } else { SpecRegex::Alt(ps) }
        },
        SpecRegex::Star(inner) => SpecRegex::Star(Box::new(simplified(*inner))),
        SpecRegex::Plus(inner) => SpecRegex::Plus(Box::new(simplified(*inner))),
        SpecRegex::Opt(inner) => SpecRegex::Opt(Box::new(simplified(*inner))),
        _ => r,
    }
}

/// `simplified` of each part.
pub open spec fn simplified_all(parts: Seq<SpecRegex>) -> Seq<SpecRegex>
    decreases parts, 0int,
{
    if parts.len() == 0 {
        Seq::empty()
    } else {
        simplified_all(parts.drop_last()).push(simplified(parts.last()))
    }
}

proof fn lemma_simplified_all_len(parts: Seq<SpecRegex>)
    ensures
        simplified_all(parts).len() == parts.len(),
    decreases parts.len(),
{
    if parts.len() > 0 {
        lemma_simplified_all_len(parts.drop_last());
    }
}

/// See `simplified`.
fn simplified_regex(r: &Regex) -> (s: Regex)
    ensures
        s@ == simplified(r@),
    decreases r, 1int,
{
    match r {
        Regex::Sequence(parts) => {
            let mut ps = simplified_parts(parts);
            proof { lemma_regexes_view(ps@); lemma_simplified_all_len(regexes_view(parts@)); }
            if ps.len() == 1 {
                ps.pop().unwrap()
            } else {
                Regex::Sequence(ps)
            }
        },
        Regex::Alt(parts) => {
            let mut ps = simplified_parts(parts);
            proof { lemma_regexes_view(ps@); lemma_simplified_all_len(regexes_view(parts@)); }
            if ps.len() == 1 {
                ps.pop().unwrap()
            } else {
                Regex::Alt(ps)
            }
        },
        Regex::Star(inner) => Regex::Star(Box::new(simplified_regex(&**inner))),
        Regex::Plus(inner) => Regex::Plus(Box::new(simplified_regex(&**inner))),
        Regex::Opt(inner) => Regex::Opt(Box::new(simplified_regex(&**inner))),
        _ => r.clone(),
    }
}

/// See `simplified_all`.
fn simplified_parts(parts: &Vec<Regex>) -> (r: Vec<Regex>)
    ensures
        regexes_view(r@) == simplified_all(regexes_view(parts@)),
    decreases parts, 0int,
{
    let ghost pv = regexes_view(parts@);
    proof { lemma_regexes_view(parts@); }
    let mut out: Vec<Regex> = Vec::new();
    let mut i: usize = 0;
    while i < parts.len()
        invariant
            0 <= i <= parts@.len(),
            pv == regexes_view(parts@),
            pv.len() == parts@.len(),
            forall|k: int| 0 <= k < parts@.len() ==> #[trigger] pv[k] == parts@[k]@,
            regexes_view(out@) == simplified_all(pv.take(i as int)),
        decreases parts@.len() - i,
    {
        proof {
            assert(pv.take(i + 1).drop_last() =~= pv.take(i as int));
            assert(pv.take(i + 1).last() == parts@[i as int]@);
        }
        let s = simplified_regex(&parts[i]);
        let ghost before = out@;
        out.push(s);
        assert(out@.drop_last() =~= before);
        i += 1;
    }
    assert(pv.take(i as int) =~= pv);
    out
}

/// Removes redundant grouping (`(A)` becomes `A`); see `simplified`. A regex
/// serves recognition, not structure capture, so grouping carries no
/// meaning.
pub fn simplify_regex(regex: &mut Regex)
    ensures
        final(regex)@ == simplified(old(regex)@),
{
    let s = simplified_regex(regex);
    *regex = s;
}

// ---------------------------------------------------------------------------
// Restrictions

/// A lexical rule's restrictions: excepts (`\`), follow restrictions (`!>>`)
/// and a precede restriction (`!<<`).
pub struct LexicalRestrictions {
    pub except: Vec<Identifier>,
    pub follow_restriction: Vec<Identifier>,
    pub precede_restriction: Option<Identifier>,
}

pub struct SpecLexicalRestrictions {
    pub except: Seq<SpecIdentifier>,
    pub follow_restriction: Seq<SpecIdentifier>,
    pub precede_restriction: Option<SpecIdentifier>,
}

impl View for LexicalRestrictions {
    type V = SpecLexicalRestrictions;

    open spec fn view(&self) -> SpecLexicalRestrictions {
        SpecLexicalRestrictions {
            except: identifiers_view(self.except@),
            follow_restriction: identifiers_view(self.follow_restriction@),
            precede_restriction: match self.precede_restriction {
                Some(id) => Some(id@),
                None => None,
            },
        }
    }
}

/// The restrictions of a rule.
pub open spec fn restrictions_of(rule: SpecLexicalRule) -> SpecLexicalRestrictions {
    SpecLexicalRestrictions {
        except: rule.except,
        follow_restriction: rule.follow_restriction,
        precede_restriction: rule.precede_restriction,
    }
}

/// Whether there is no restriction.
pub open spec fn restrictions_empty(r: SpecLexicalRestrictions) -> bool {
    r.except.len() == 0 && r.follow_restriction.len() == 0 && r.precede_restriction is None
}

/// Whether an identifier of `ids` has the name `name`.
pub open spec fn has_name(ids: Seq<SpecIdentifier>, name: Seq<char>) -> bool {
    exists|k: int| 0 <= k < ids.len() && (#[trigger] ids[k]).name == name
}

/// `ids` followed by those of `more` whose name is not there yet, in order.
pub open spec fn add_unique(ids: Seq<SpecIdentifier>, more: Seq<SpecIdentifier>) -> Seq<SpecIdentifier>
    decreases more.len(),
{
    if more.len() == 0 {
        ids
    } else {
        let acc = add_unique(ids, more.drop_last());
        if has_name(acc, more.last().name) { acc } else { acc.push(more.last()) }
    }
}

/// The error for two different precede restrictions stacked on `head`.
pub open spec fn stacked_precede_message(head: Seq<char>, existing: Seq<char>, other: Seq<char>) -> Seq<char> {
    "`"@ + head + "` stacks precede restrictions `!<< "@ + existing + "` and `!<< "@ + other
        + "`; a rule can have only one"@
}

/// `r` with `other`'s restrictions added, deduplicating excepts and follow
/// restrictions by name, and the errors: a second, different precede
/// restriction cannot share the rule.
pub open spec fn merge_restrictions(r: SpecLexicalRestrictions, other: SpecLexicalRestrictions, head: Seq<char>) -> (SpecLexicalRestrictions, Seq<Seq<char>>) {
    let except = add_unique(r.except, other.except);
    let follow = add_unique(r.follow_restriction, other.follow_restriction);
    match other.precede_restriction {
        Some(p) => match r.precede_restriction {
            Some(e) => if e.name != p.name {
                (SpecLexicalRestrictions { except, follow_restriction: follow, precede_restriction: r.precede_restriction },
                    seq![stacked_precede_message(head, e.name, p.name)])
            } else {
                (SpecLexicalRestrictions { except, follow_restriction: follow, precede_restriction: r.precede_restriction }, Seq::empty())
            },
            None => (SpecLexicalRestrictions { except, follow_restriction: follow, precede_restriction: Some(p) }, Seq::empty()),
        },
        None => (SpecLexicalRestrictions { except, follow_restriction: follow, precede_restriction: r.precede_restriction }, Seq::empty()),
    }
}

/// The restrictions as they are written: `\ E`, `!>> F`, `!<< P`,
/// separated by spaces.
pub open spec fn restrictions_text(r: SpecLexicalRestrictions) -> Seq<char> {
    let parts = r.except.map_values(|id: SpecIdentifier| "\\ "@ + id.name)
        + r.follow_restriction.map_values(|id: SpecIdentifier| "!>> "@ + id.name)
        + match r.precede_restriction {
            Some(id) => seq!["!<< "@ + id.name],
            None => Seq::empty(),
        };
    joined_by_space(parts)
}

/// The parts joined by single spaces.
pub open spec fn joined_by_space(parts: Seq<Seq<char>>) -> Seq<char>
    decreases parts.len(),
{
    if parts.len() == 0 {
        Seq::empty()
    } else if parts.len() == 1 {
        parts[0]
    } else {
        joined_by_space(parts.drop_last()) + seq![' '] + parts.last()
    }
}

/// Whether an identifier of `ids` is named `name`.
fn any_named(ids: &Vec<Identifier>, name: &str) -> (b: bool)
    ensures
        b == has_name(identifiers_view(ids@), name@),
{
    let ghost iv = identifiers_view(ids@);
    let mut k: usize = 0;
    while k < ids.len()
        invariant
            0 <= k <= ids@.len(),
            iv == identifiers_view(ids@),
            forall|j: int| 0 <= j < k ==> (#[trigger] iv[j]).name != name@,
        decreases ids@.len() - k,
    {
        assert(iv[k as int] == ids@[k as int]@);
        if str_eq(ids[k].name.as_str(), name) {
            return true;
        }
        k += 1;
    }
    false
}

/// Appends those of `more` whose name is not in `ids` yet; see `add_unique`.
fn push_unique(ids: &mut Vec<Identifier>, more: Vec<Identifier>)
    ensures
        identifiers_view(final(ids)@) == add_unique(identifiers_view(old(ids)@), identifiers_view(more@)),
{
    let ghost start = identifiers_view(ids@);
    let ghost mv = identifiers_view(more@);
    let mut rest = more;
    let n = rest.len();
    let mut i: usize = 0;
    assert(mv.skip(0) =~= mv);
    while i < n
        invariant
            0 <= i <= n,
            n == mv.len(),
            identifiers_view(rest@) == mv.skip(i as int),
            identifiers_view(ids@) == add_unique(start, mv.take(i as int)),
        decreases n - i,
    {
        proof {
            assert(identifiers_view(rest@).len() == rest@.len());
            assert(identifiers_view(rest@)[0] == mv[i as int]);
        }
        let ghost orest = rest@;
        let r = rest.remove(0);
        proof {
            assert(identifiers_view(rest@) =~= mv.skip(i + 1)) by {
                assert forall|j: int| 0 <= j < rest@.len() implies identifiers_view(rest@)[j] == mv.skip(i + 1)[j] by {
                    assert(rest@[j] == orest[j + 1]);
                    assert(identifiers_view(orest)[j + 1] == orest[j + 1]@);
                }
            }
            assert(mv.take(i + 1).drop_last() =~= mv.take(i as int));
            assert(mv.take(i + 1).last() == r@);
        }
        if !any_named(ids, r.name.as_str()) {
            let ghost before = identifiers_view(ids@);
            let ghost rv = r@;
            ids.push(r);
            assert(identifiers_view(ids@) =~= before.push(rv));
        }
        i += 1;
    }
    assert(mv.take(i as int) =~= mv);
}

impl Clone for LexicalRestrictions {
    fn clone(&self) -> (r: Self)
        ensures
            r@ == self@,
    {
        LexicalRestrictions {
            except: crate::grammar::symbols::clone_identifiers(&self.except),
            follow_restriction: crate::grammar::symbols::clone_identifiers(&self.follow_restriction),
            precede_restriction: match &self.precede_restriction {
                Some(id) => Some(id.clone()),
                None => None,
            },
        }
    }
}

impl LexicalRestrictions {
    /// The restrictions of `rule`.
    pub fn of(rule: &LexicalRule) -> (r: LexicalRestrictions)
        ensures
            r@ == restrictions_of(rule@),
    {
        LexicalRestrictions {
            except: crate::grammar::symbols::clone_identifiers(&rule.except),
            follow_restriction: crate::grammar::symbols::clone_identifiers(&rule.follow_restriction),
            precede_restriction: match &rule.precede_restriction {
                Some(id) => Some(id.clone()),
                None => None,
            },
        }
    }

    /// Whether there is no restriction.
    pub fn is_empty(&self) -> (b: bool)
        ensures
            b == restrictions_empty(self@),
    {
        self.except.len() == 0 && self.follow_restriction.len() == 0 && self.precede_restriction.is_none()
    }

    /// Adds `other`'s restrictions, deduplicating excepts and follow
    /// restrictions by name; two different precede restrictions cannot share
    /// a rule, so they are an error. See `merge_restrictions`.
    pub fn merge(&mut self, other: LexicalRestrictions, head: &Terminal, errors: &mut Vec<String>)
        ensures
            (final(self)@, crate::grammar::symbols::strings_view(final(errors)@))
                == ({
                    let (m, e) = merge_restrictions(old(self)@, other@, head@.name);
                    (m, crate::grammar::symbols::strings_view(old(errors)@) + e)
                }),
    {
        let ghost start_errors = crate::grammar::symbols::strings_view(errors@);
        let ghost ov = other@;
        let ghost sv = self@;
        let LexicalRestrictions { except, follow_restriction, precede_restriction } = other;
        push_unique(&mut self.except, except);
        push_unique(&mut self.follow_restriction, follow_restriction);
        match precede_restriction {
            Some(precede) => {
                match &self.precede_restriction {
                    Some(existing) => {
                        if !str_eq(existing.name.as_str(), precede.name.as_str()) {
                            let mut m = String::new();
                            push_str(&mut m, "`");
                            push_str(&mut m, head.name.as_str());
                            push_str(&mut m, "` stacks precede restrictions `!<< ");
                            push_str(&mut m, existing.name.as_str());
                            push_str(&mut m, "` and `!<< ");
                            push_str(&mut m, precede.name.as_str());
                            push_str(&mut m, "`; a rule can have only one");
                            let ghost mv = m@;
                            errors.push(m);
                            assert(crate::grammar::symbols::strings_view(errors@) =~= start_errors + seq![mv]);
                        } else {
                            assert(crate::grammar::symbols::strings_view(errors@) =~= start_errors + Seq::<Seq<char>>::empty());
                        }
                    },
                    None => {
                        self.precede_restriction = Some(precede);
                        assert(crate::grammar::symbols::strings_view(errors@) =~= start_errors + Seq::<Seq<char>>::empty());
                    },
                }
            },
            None => {
                assert(crate::grammar::symbols::strings_view(errors@) =~= start_errors + Seq::<Seq<char>>::empty());
            },
        }
    }

    /// The restrictions as they are written; see `restrictions_text`.
    pub fn to_string(&self) -> (s: String)
        ensures
            s@ == restrictions_text(self@),
    {
        let ghost r = self@;
        let mut parts: Vec<String> = Vec::new();
        let mut i: usize = 0;
        while i < self.except.len()
            invariant
                0 <= i <= self.except@.len(),
                r == self@,
                crate::grammar::symbols::strings_view(parts@) == r.except.take(i as int).map_values(|id: SpecIdentifier| "\\ "@ + id.name),
            decreases self.except@.len() - i,
        {
            let mut p = String::new();
            push_str(&mut p, "\\ ");
            push_str(&mut p, self.except[i].name.as_str());
            let ghost before = parts@;
            let ghost pv = p@;
            proof {
                assert(r.except[i as int] == self.except@[i as int]@);
                assert(pv =~= "\\ "@ + r.except[i as int].name);
            }
            parts.push(p);
            proof {
                assert(parts@ =~= before.push(p));
                assert(crate::grammar::symbols::strings_view(parts@) =~= crate::grammar::symbols::strings_view(before).push(pv));
                assert(r.except.take(i + 1) =~= r.except.take(i as int).push(r.except[i as int]));
                assert(r.except.take(i + 1).map_values(|id: SpecIdentifier| "\\ "@ + id.name)
                    =~= r.except.take(i as int).map_values(|id: SpecIdentifier| "\\ "@ + id.name).push("\\ "@ + r.except[i as int].name));
            }
            i += 1;
        }
        assert(r.except.take(i as int) =~= r.except);
        let ghost first = crate::grammar::symbols::strings_view(parts@);
        let mut k: usize = 0;
        while k < self.follow_restriction.len()
            invariant
                0 <= k <= self.follow_restriction@.len(),
                r == self@,
                crate::grammar::symbols::strings_view(parts@) == first + r.follow_restriction.take(k as int).map_values(|id: SpecIdentifier| "!>> "@ + id.name),
            decreases self.follow_restriction@.len() - k,
        {
            let mut p = String::new();
            push_str(&mut p, "!>> ");
            push_str(&mut p, self.follow_restriction[k].name.as_str());
            let ghost before = parts@;
            let ghost pv = p@;
            proof {
                assert(r.follow_restriction[k as int] == self.follow_restriction@[k as int]@);
                assert(pv =~= "!>> "@ + r.follow_restriction[k as int].name);
            }
            parts.push(p);
            proof {
                assert(parts@ =~= before.push(p));
                assert(crate::grammar::symbols::strings_view(parts@) =~= crate::grammar::symbols::strings_view(before).push(pv));
                assert(r.follow_restriction.take(k + 1) =~= r.follow_restriction.take(k as int).push(r.follow_restriction[k as int]));
                assert(r.follow_restriction.take(k + 1).map_values(|id: SpecIdentifier| "!>> "@ + id.name)
                    =~= r.follow_restriction.take(k as int).map_values(|id: SpecIdentifier| "!>> "@ + id.name).push("!>> "@ + r.follow_restriction[k as int].name));
                assert(crate::grammar::symbols::strings_view(parts@) =~= first + r.follow_restriction.take(k + 1).map_values(|id: SpecIdentifier| "!>> "@ + id.name));
            }
            k += 1;
        }
        assert(r.follow_restriction.take(k as int) =~= r.follow_restriction);
        let ghost second = crate::grammar::symbols::strings_view(parts@);
        if let Some(id) = &self.precede_restriction {
            let mut p = String::new();
            push_str(&mut p, "!<< ");
            push_str(&mut p, id.name.as_str());
            parts.push(p);
        }
        assert(crate::grammar::symbols::strings_view(parts@) =~= first + r.follow_restriction.map_values(|id: SpecIdentifier| "!>> "@ + id.name)
            + match r.precede_restriction { Some(id) => seq!["!<< "@ + id.name], None => Seq::<Seq<char>>::empty() });
        join_by_space(&parts)
    }
}

/// The parts joined by single spaces; see `joined_by_space`.
fn join_by_space(parts: &Vec<String>) -> (s: String)
    ensures
        s@ == joined_by_space(crate::grammar::symbols::strings_view(parts@)),
{
    let ghost pv = crate::grammar::symbols::strings_view(parts@);
    let mut out = String::new();
    let mut i: usize = 0;
    while i < parts.len()
        invariant
            0 <= i <= parts@.len(),
            pv == crate::grammar::symbols::strings_view(parts@),
            out@ == joined_by_space(pv.take(i as int)),
        decreases parts@.len() - i,
    {
        let ghost before = out@;
        proof {
            assert(pv.take(i + 1).drop_last() =~= pv.take(i as int));
            assert(pv.take(i + 1).last() == parts@[i as int]@);
            assert(pv.take(i + 1).len() == i + 1);
            reveal_strlit(" ");
        }
        if i > 0 {
            push_str(&mut out, " ");
            push_str(&mut out, parts[i].as_str());
            assert(out@ =~= before + seq![' '] + parts@[i as int]@);
        } else {
            push_str(&mut out, parts[i].as_str());
            assert(pv.take(1)[0] == parts@[0]@);
            assert(out@ =~= parts@[0]@);
        }
        i += 1;
    }
    assert(pv.take(i as int) =~= pv);
    out
}

} // verus!
