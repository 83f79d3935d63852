//! Intermediate nonterminals: the nonterminals through which an alternative
//! of a precedence head reaches that head at one of its recursive ends.
//!
//! For `E = 'a' > Lambda`, `Lambda = 'fn' Body`, `Body = E`, both `Lambda`
//! and `Body` derive sequences ending with `E`; each is recorded with head
//! `E` at the right end. A walk starts at the nonterminal at a recursive end
//! of an alternative of a head and follows that end's relation through
//! nonterminals that are not the head, declare no precedence of their own,
//! and reach the head at that end without crossing another precedence head.
//! A nonterminal reached from two different heads is an error.
use vstd::prelude::*;
use crate::grammar::def::{
    rule_alternatives, syntax_rules_view, Alternative, SpecAlternative, SpecSyntaxRule, SyntaxRule,
};
use crate::grammar::symbols::strings_view;
use super::analysis::{
    classify, classify_view, edges_at, needs_desugaring, needs_desugaring_view, Ends, RecursionKind,
    SpecEnds,
};
use super::{
    contains_name, end_symbol, end_symbol_view, referenced, referenced_name, is_path, non_head_nonterminal_view, pairs_view,
    reachable, reaches, reaches_view, targets, End,
};
use super::analysis::non_head_nonterminal;
use crate::text::{insert_ordered, lex_lt, push_str};

verus! {

broadcast use vstd::std_specs::vec::axiom_vec_index_decreases;

/// What a walk records of an intermediate nonterminal: its head, the ends
/// at which it occurs, and whether the head is present at that end in every
/// derivation through it.
pub struct IndirectRecursion {
    pub head: String,
    pub left: bool,
    pub right: bool,
    pub left_required: bool,
    pub right_required: bool,
}

pub struct SpecIndirect {
    pub head: Seq<char>,
    pub left: bool,
    pub right: bool,
    pub left_required: bool,
    pub right_required: bool,
}

impl View for IndirectRecursion {
    type V = SpecIndirect;

    open spec fn view(&self) -> SpecIndirect {
        SpecIndirect {
            head: self.head@,
            left: self.left,
            right: self.right,
            left_required: self.left_required,
            right_required: self.right_required,
        }
    }
}

/// Whether the record occurs at `end`.
pub open spec fn at_end(r: SpecIndirect, end: End) -> bool {
    match end {
        End::Left => r.left,
        End::Right => r.right,
    }
}

/// Whether the head is present at `end` in every derivation through the
/// record's nonterminal.
pub open spec fn required_at(r: SpecIndirect, end: End) -> bool {
    match end {
        End::Left => r.left_required,
        End::Right => r.right_required,
    }
}

/// The views of the records of a map from names to records.
pub open spec fn indirect_view(m: Seq<(String, IndirectRecursion)>) -> Seq<(Seq<char>, SpecIndirect)> {
    m.map_values(|p: (String, IndirectRecursion)| (p.0@, p.1@))
}

/// The record of `x`: the last entry with that name.
pub open spec fn indirect_get(m: Seq<(Seq<char>, SpecIndirect)>, x: Seq<char>) -> Option<SpecIndirect>
    decreases m.len(),
{
    if m.len() == 0 {
        None
    } else if m.last().0 == x {
        Some(m.last().1)
    } else {
        indirect_get(m.drop_last(), x)
    }
}

/// The records of a map as a lookup.
pub open spec fn map_lookup(m: Seq<(Seq<char>, SpecIndirect)>) -> spec_fn(Seq<char>) -> Option<SpecIndirect> {
    |y: Seq<char>| indirect_get(m, y)
}

impl IndirectRecursion {
    /// See `at_end`.
    pub fn is_at_end(&self, end: End) -> (b: bool)
        ensures
            b == at_end(self@, end),
    {
        match end {
            End::Left => self.left,
            End::Right => self.right,
        }
    }

    /// Whether the nonterminal occurs at both ends.
    pub fn is_at_both_ends(&self) -> (b: bool)
        ensures
            b == (self@.left && self@.right),
    {
        self.left && self.right
    }

    /// See `required_at`.
    pub fn is_always_present_at_end(&self, end: End) -> (b: bool)
        ensures
            b == required_at(self@, end),
    {
        match end {
            End::Left => self.left_required,
            End::Right => self.right_required,
        }
    }
}

/// The record of `x` in `m`; see `indirect_get`.
pub fn lookup<'a>(m: &'a Vec<(String, IndirectRecursion)>, x: &str) -> (r: Option<&'a IndirectRecursion>)
    ensures
        match r {
            Some(rec) => indirect_get(indirect_view(m@), x@) == Some(rec@),
            None => indirect_get(indirect_view(m@), x@) is None,
        },
{
    let ghost mv = indirect_view(m@);
    assert(mv.take(mv.len() as int) =~= mv);
    let mut n: usize = m.len();
    while n > 0
        invariant
            0 <= n <= m@.len(),
            mv == indirect_view(m@),
            indirect_get(mv, x@) == indirect_get(mv.take(n as int), x@),
        decreases n,
    {
        proof {
            assert(mv.take(n as int).drop_last() =~= mv.take(n - 1));
            assert(mv.take(n as int).last() == mv[n - 1]);
        }
        if crate::text::str_eq(m[n - 1].0.as_str(), x) {
            return Some(&m[n - 1].1);
        }
        n -= 1;
    }
    None
}

// ---------------------------------------------------------------------------
// Walks

/// A walk: the head, the end, and the nonterminal it starts from.
pub type SpecWalk = (Seq<char>, End, Seq<char>);

/// Whether `end` is a recursive end of an alternative of this kind.
pub open spec fn recursive_end(kind: RecursionKind, end: End) -> bool {
    kind == RecursionKind::Binary || (kind == RecursionKind::Prefix && end == End::Right)
        || (kind == RecursionKind::Postfix && end == End::Left)
}

/// The walk from `end` of an alternative of `head`, if that end is
/// recursive and holds another nonterminal.
pub open spec fn end_walk(alt: SpecAlternative, head: Seq<char>, kind: RecursionKind, end: End) -> Seq<SpecWalk> {
    if recursive_end(kind, end) {
        match non_head_nonterminal_view(end_symbol_view(alt.symbols, end), head) {
            Some(n) => seq![(head, end, n)],
            None => Seq::empty(),
        }
    } else {
        Seq::empty()
    }
}

/// The walks from the alternatives of `head`, in order, left end first.
pub open spec fn alternatives_walks(alts: Seq<SpecAlternative>, head: Seq<char>, heads: Seq<Seq<char>>, e: SpecEnds) -> Seq<SpecWalk>
    decreases alts.len(),
{
    if alts.len() == 0 {
        Seq::empty()
    } else {
        let kind = classify_view(alts.last(), head, heads, e);
        alternatives_walks(alts.drop_last(), head, heads, e) + end_walk(alts.last(), head, kind, End::Left)
            + end_walk(alts.last(), head, kind, End::Right)
    }
}

/// The walks from every recursive head among `rules`, in rule order.
pub open spec fn walks_view(rules: Seq<SpecSyntaxRule>, heads: Seq<Seq<char>>, e: SpecEnds) -> Seq<SpecWalk>
    decreases rules.len(),
{
    if rules.len() == 0 {
        Seq::empty()
    } else {
        walks_view(rules.drop_last(), heads, e) + if heads.contains(rules.last().head.name) {
            alternatives_walks(rule_alternatives(rules.last().priority_levels), rules.last().head.name, heads, e)
        } else {
            Seq::empty()
        }
    }
}

/// The views of exec walks.
pub open spec fn walks_of(v: Seq<(String, End, String)>) -> Seq<SpecWalk> {
    v.map_values(|w: (String, End, String)| (w.0@, w.1, w.2@))
}

/// The names of the rules.
pub open spec fn rule_names(rules: Seq<SpecSyntaxRule>) -> Seq<Seq<char>> {
    rules.map_values(|r: SpecSyntaxRule| r.head.name)
}

/// The names of the rules that declare precedence or associativity.
pub open spec fn priority_names(rules: Seq<SpecSyntaxRule>) -> Seq<Seq<char>>
    decreases rules.len(),
{
    if rules.len() == 0 {
        Seq::empty()
    } else {
        priority_names(rules.drop_last()) + if needs_desugaring_view(rules.last()) {
            seq![rules.last().head.name]
        } else {
            Seq::empty()
        }
    }
}

/// Whether a walk for `head` at `end` may pass `x`: it is not the head,
/// declares no precedence, and reaches the head at that end without
/// crossing another precedence head.
pub open spec fn eligible(e: SpecEnds, heads: Seq<Seq<char>>, prio: Seq<Seq<char>>, head: Seq<char>, end: End, x: Seq<char>) -> bool {
    x != head && !prio.contains(x) && reaches_view(edges_at(e, end), x, head, heads)
}

/// The names among `names` that a walk for `head` at `end` may not pass.
pub open spec fn ineligible_names(names: Seq<Seq<char>>, e: SpecEnds, heads: Seq<Seq<char>>, prio: Seq<Seq<char>>, head: Seq<char>, end: End) -> Seq<Seq<char>>
    decreases names.len(),
{
    if names.len() == 0 {
        Seq::empty()
    } else {
        ineligible_names(names.drop_last(), e, heads, prio, head, end) + if eligible(e, heads, prio, head, end, names.last()) {
            Seq::empty()
        } else {
            seq![names.last()]
        }
    }
}

/// Whether the walk `w` records `x`: both its start and `x` may be passed,
/// and `x` is the start or follows it along the end relation through rules
/// that may be passed.
pub open spec fn marks(names: Seq<Seq<char>>, e: SpecEnds, heads: Seq<Seq<char>>, prio: Seq<Seq<char>>, w: SpecWalk, x: Seq<char>) -> bool {
    &&& eligible(e, heads, prio, w.0, w.1, w.2)
    &&& eligible(e, heads, prio, w.0, w.1, x)
    &&& (x == w.2 || reachable(edges_at(e, w.1), w.2, x, ineligible_names(names, e, heads, prio, w.0, w.1)))
}

/// The head of the first walk that records `x`.
pub open spec fn first_marking_head(ws: Seq<SpecWalk>, names: Seq<Seq<char>>, e: SpecEnds, heads: Seq<Seq<char>>, prio: Seq<Seq<char>>, x: Seq<char>) -> Option<Seq<char>>
    decreases ws.len(),
{
    if ws.len() == 0 {
        None
    } else {
        match first_marking_head(ws.drop_last(), names, e, heads, prio, x) {
            Some(h) => Some(h),
            None => if marks(names, e, heads, prio, ws.last(), x) { Some(ws.last().0) } else { None },
        }
    }
}

/// Whether a walk at `end` records `x`.
pub open spec fn marked_at(ws: Seq<SpecWalk>, names: Seq<Seq<char>>, e: SpecEnds, heads: Seq<Seq<char>>, prio: Seq<Seq<char>>, x: Seq<char>, end: End) -> bool {
    exists|k: int| 0 <= k < ws.len() && (#[trigger] ws[k]).1 == end && marks(names, e, heads, prio, ws[k], x)
}

/// Whether walks of two different heads record `x`.
pub open spec fn conflicting(ws: Seq<SpecWalk>, names: Seq<Seq<char>>, e: SpecEnds, heads: Seq<Seq<char>>, prio: Seq<Seq<char>>, x: Seq<char>) -> bool {
    exists|k: int| 0 <= k < ws.len() && marks(names, e, heads, prio, #[trigger] ws[k], x)
        && first_marking_head(ws, names, e, heads, prio, x) != Some(ws[k].0)
}

/// The names of the rules; see `rule_names`.
pub fn compute_rule_names(rules: &Vec<SyntaxRule>) -> (names: Vec<String>)
    ensures
        strings_view(names@) == rule_names(syntax_rules_view(rules@)),
{
    let mut names: Vec<String> = Vec::new();
    let mut i: usize = 0;
    while i < rules.len()
        invariant
            0 <= i <= rules@.len(),
            strings_view(names@) == rule_names(syntax_rules_view(rules@).take(i as int)),
        decreases rules@.len() - i,
    {
        let ghost before = strings_view(names@);
        names.push(rules[i].head.name.clone());
        proof {
            let rv = syntax_rules_view(rules@);
            assert(rv[i as int] == rules@[i as int]@);
            assert(rule_names(rv.take(i + 1)) =~= rule_names(rv.take(i as int)).push(rv[i as int].head.name));
            assert(strings_view(names@) =~= before.push(rules@[i as int].head.name@));
        }
        i += 1;
    }
    assert(syntax_rules_view(rules@).take(i as int) =~= syntax_rules_view(rules@));
    names
}

/// See `priority_names`.
pub fn compute_priority_names(rules: &Vec<SyntaxRule>) -> (names: Vec<String>)
    ensures
        strings_view(names@) == priority_names(syntax_rules_view(rules@)),
{
    let ghost rv = syntax_rules_view(rules@);
    let mut names: Vec<String> = Vec::new();
    let mut i: usize = 0;
    while i < rules.len()
        invariant
            0 <= i <= rules@.len(),
            rv == syntax_rules_view(rules@),
            strings_view(names@) == priority_names(rv.take(i as int)),
        decreases rules@.len() - i,
    {
        proof {
            assert(rv.take(i + 1).drop_last() =~= rv.take(i as int));
            assert(rv.take(i + 1).last() == rules@[i as int]@);
        }
        let ghost before = strings_view(names@);
        if needs_desugaring(&rules[i]) {
            names.push(rules[i].head.name.clone());
            assert(strings_view(names@) =~= before + seq![rules@[i as int]@.head.name]);
        } else {
            assert(strings_view(names@) =~= before + Seq::<Seq<char>>::empty());
        }
        i += 1;
    }
    assert(rv.take(i as int) =~= rv);
    names
}

/// Appends the walk from `end` of `alt`, if any; see `end_walk`.
fn push_end_walk(alt: &Alternative, head: &String, kind: RecursionKind, end: End, out: &mut Vec<(String, End, String)>)
    ensures
        walks_of(final(out)@) == walks_of(old(out)@) + end_walk(alt@, head@, kind, end),
{
    let ghost before = walks_of(out@);
    let recursive = match kind {
        RecursionKind::Binary => true,
        RecursionKind::Prefix => end == End::Right,
        RecursionKind::Postfix => end == End::Left,
        RecursionKind::NonRecursive => false,
    };
    if recursive {
        match non_head_nonterminal(end_symbol(&alt.symbols, end), head.as_str()) {
            Some(n) => {
                out.push((head.clone(), end, n.clone()));
                assert(walks_of(out@) =~= before + seq![(head@, end, n@)]);
            },
            None => {
                assert(walks_of(out@) =~= before + Seq::<SpecWalk>::empty());
            },
        }
    } else {
        assert(walks_of(out@) =~= before + Seq::<SpecWalk>::empty());
    }
}

/// The walks from every recursive head; see `walks_view`.
pub fn compute_walks(rules: &Vec<SyntaxRule>, heads: &Vec<String>, ends: &Ends) -> (ws: Vec<(String, End, String)>)
    ensures
        walks_of(ws@) == walks_view(syntax_rules_view(rules@), strings_view(heads@), ends@),
{
    let ghost rv = syntax_rules_view(rules@);
    let ghost hv = strings_view(heads@);
    let mut out: Vec<(String, End, String)> = Vec::new();
    let mut i: usize = 0;
    while i < rules.len()
        invariant
            0 <= i <= rules@.len(),
            rv == syntax_rules_view(rules@),
            hv == strings_view(heads@),
            walks_of(out@) == walks_view(rv.take(i as int), hv, ends@),
        decreases rules@.len() - i,
    {
        let rule = &rules[i];
        proof {
            assert(rv.take(i + 1).drop_last() =~= rv.take(i as int));
            assert(rv.take(i + 1).last() == rule@);
        }
        let ghost before = walks_of(out@);
        if contains_name(heads, rule.head.name.as_str()) {
            let alts = rule.alternatives();
            let ghost av = alts@.map_values(|a: &Alternative| a@);
            let mut k: usize = 0;
            while k < alts.len()
                invariant
                    0 <= k <= alts@.len(),
                    av == alts@.map_values(|a: &Alternative| a@),
                    av == rule_alternatives(rule@.priority_levels),
                    hv == strings_view(heads@),
                    walks_of(out@) == before + alternatives_walks(av.take(k as int), rule@.head.name, hv, ends@),
                decreases alts@.len() - k,
            {
                let alt = alts[k];
                proof {
                    assert(av.take(k + 1).drop_last() =~= av.take(k as int));
                    assert(av.take(k + 1).last() == alt@);
                }
                let kind = classify(alt, rule.head.name.as_str(), heads, ends);
                push_end_walk(alt, &rule.head.name, kind, End::Left, &mut out);
                push_end_walk(alt, &rule.head.name, kind, End::Right, &mut out);
                proof {
                    assert(walks_of(out@) =~= before + alternatives_walks(av.take(k + 1), rule@.head.name, hv, ends@));
                }
                k += 1;
            }
            assert(av.take(k as int) =~= av);
        } else {
            assert(walks_of(out@) =~= before + Seq::<SpecWalk>::empty());
        }
        i += 1;
    }
    assert(rv.take(i as int) =~= rv);
    out
}

/// See `eligible`.
fn is_eligible(ends: &Ends, heads: &Vec<String>, prio: &Vec<String>, head: &str, end: End, x: &str) -> (b: bool)
    ensures
        b == eligible(ends@, strings_view(heads@), strings_view(prio@), head@, end, x@),
{
    !crate::text::str_eq(x, head) && !contains_name(prio, x) && reaches(ends.at(end), x, head, heads)
}

/// See `ineligible_names`.
fn compute_ineligible(names: &Vec<String>, ends: &Ends, heads: &Vec<String>, prio: &Vec<String>, head: &str, end: End) -> (r: Vec<String>)
    ensures
        strings_view(r@) == ineligible_names(strings_view(names@), ends@, strings_view(heads@), strings_view(prio@), head@, end),
{
    let ghost nv = strings_view(names@);
    let mut out: Vec<String> = Vec::new();
    let mut i: usize = 0;
    while i < names.len()
        invariant
            0 <= i <= names@.len(),
            nv == strings_view(names@),
            strings_view(out@) == ineligible_names(nv.take(i as int), ends@, strings_view(heads@), strings_view(prio@), head@, end),
        decreases names@.len() - i,
    {
        proof {
            assert(nv.take(i + 1).drop_last() =~= nv.take(i as int));
            assert(nv.take(i + 1).last() == names@[i as int]@);
        }
        let ghost before = strings_view(out@);
        if !is_eligible(ends, heads, prio, head, end, names[i].as_str()) {
            out.push(names[i].clone());
            assert(strings_view(out@) =~= before + seq![names@[i as int]@]);
        } else {
            assert(strings_view(out@) =~= before + Seq::<Seq<char>>::empty());
        }
        i += 1;
    }
    assert(nv.take(i as int) =~= nv);
    out
}

proof fn lemma_ineligible(names: Seq<Seq<char>>, e: SpecEnds, heads: Seq<Seq<char>>, prio: Seq<Seq<char>>, head: Seq<char>, end: End, y: Seq<char>)
    requires
        ineligible_names(names, e, heads, prio, head, end).contains(y),
    ensures
        !eligible(e, heads, prio, head, end, y),
    decreases names.len(),
{
    let rest = ineligible_names(names.drop_last(), e, heads, prio, head, end);
    let all = ineligible_names(names, e, heads, prio, head, end);
    let j = choose|j: int| 0 <= j < all.len() && all[j] == y;
    if j < rest.len() {
        assert(rest[j] == y);
        lemma_ineligible(names.drop_last(), e, heads, prio, head, end, y);
    }
}

/// The last node of a path is a target of an edge.
proof fn lemma_reachable_target(edges: Seq<(Seq<char>, Seq<char>)>, from: Seq<char>, x: Seq<char>, bs: Seq<Seq<char>>)
    requires
        reachable(edges, from, x, bs),
    ensures
        targets(edges).contains(x),
{
    reveal(reachable);
    let p = choose|path: Seq<Seq<char>>| #[trigger] is_path(edges, from, path, x, bs);
    if p.len() == 1 {
        assert(edges.contains((from, p[0])));
        let k = choose|k: int| 0 <= k < edges.len() && edges[k] == (from, p[0]);
        assert(targets(edges)[k] == x);
    } else {
        assert(edges.contains((p[p.len() - 2], p[p.len() - 1])));
        let k = choose|k: int| 0 <= k < edges.len() && edges[k] == (p[p.len() - 2], p[p.len() - 1]);
        assert(targets(edges)[k] == x);
    }
}

/// See `marks`; `inel` and `start_ok` are the walk's ineligible names and
/// whether its start may be passed.
fn walk_marks(
    ends: &Ends,
    heads: &Vec<String>,
    prio: &Vec<String>,
    inel: &Vec<String>,
    start_ok: bool,
    w: &(String, End, String),
    x: &str,
    Ghost(names): Ghost<Seq<Seq<char>>>,
) -> (b: bool)
    requires
        strings_view(inel@) == ineligible_names(names, ends@, strings_view(heads@), strings_view(prio@), w.0@, w.1),
        start_ok == eligible(ends@, strings_view(heads@), strings_view(prio@), w.0@, w.1, w.2@),
    ensures
        b == marks(names, ends@, strings_view(heads@), strings_view(prio@), (w.0@, w.1, w.2@), x@),
{
    if !start_ok || !is_eligible(ends, heads, prio, w.0.as_str(), w.1, x) {
        return false;
    }
    if crate::text::str_eq(x, w.2.as_str()) {
        return true;
    }
    proof {
        if strings_view(inel@).contains(w.2@) {
            lemma_ineligible(names, ends@, strings_view(heads@), strings_view(prio@), w.0@, w.1, w.2@);
        }
    }
    reaches(ends.at(w.1), w.2.as_str(), x, inel)
}

/// The nonterminals a walk can record: the starts of the walks and the
/// targets of both end relations.
pub open spec fn candidates_view(ws: Seq<SpecWalk>, e: SpecEnds) -> Seq<Seq<char>> {
    ws.map_values(|w: SpecWalk| w.2) + targets(e.left) + targets(e.right)
}

/// See `candidates_view`.
fn compute_candidates(ws: &Vec<(String, End, String)>, ends: &Ends) -> (r: Vec<String>)
    ensures
        strings_view(r@) == candidates_view(walks_of(ws@), ends@),
{
    let mut out: Vec<String> = Vec::new();
    let mut i: usize = 0;
    while i < ws.len()
        invariant
            0 <= i <= ws@.len(),
            strings_view(out@) == walks_of(ws@).take(i as int).map_values(|w: SpecWalk| w.2),
        decreases ws@.len() - i,
    {
        let ghost before = strings_view(out@);
        out.push(ws[i].2.clone());
        proof {
            let wv = walks_of(ws@);
            assert(wv[i as int] == (ws@[i as int].0@, ws@[i as int].1, ws@[i as int].2@));
            assert(wv.take(i + 1).map_values(|w: SpecWalk| w.2) =~= wv.take(i as int).map_values(|w: SpecWalk| w.2).push(ws@[i as int].2@));
            assert(strings_view(out@) =~= before.push(ws@[i as int].2@));
        }
        i += 1;
    }
    assert(walks_of(ws@).take(i as int) =~= walks_of(ws@));
    let ghost first = strings_view(out@);
    push_targets(&ends.left, &mut out);
    push_targets(&ends.right, &mut out);
    out
}

/// Appends the targets of the edges.
fn push_targets(edges: &Vec<(String, String)>, out: &mut Vec<String>)
    ensures
        strings_view(final(out)@) == strings_view(old(out)@) + targets(pairs_view(edges@)),
{
    let ghost start = strings_view(out@);
    let mut i: usize = 0;
    while i < edges.len()
        invariant
            0 <= i <= edges@.len(),
            strings_view(out@) == start + targets(pairs_view(edges@).take(i as int)),
        decreases edges@.len() - i,
    {
        let ghost before = strings_view(out@);
        out.push(edges[i].1.clone());
        proof {
            let pv = pairs_view(edges@);
            assert(pv[i as int] == (edges@[i as int].0@, edges@[i as int].1@));
            assert(targets(pv.take(i + 1)) =~= targets(pv.take(i as int)).push(edges@[i as int].1@));
            assert(strings_view(out@) =~= before.push(edges@[i as int].1@));
        }
        i += 1;
    }
    assert(pairs_view(edges@).take(i as int) =~= pairs_view(edges@));
}

/// Every node a walk records is a candidate.
proof fn lemma_marked_candidate(ws: Seq<SpecWalk>, names: Seq<Seq<char>>, e: SpecEnds, heads: Seq<Seq<char>>, prio: Seq<Seq<char>>, k: int, x: Seq<char>)
    requires
        0 <= k < ws.len(),
        marks(names, e, heads, prio, ws[k], x),
    ensures
        candidates_view(ws, e).contains(x),
{
    let c = candidates_view(ws, e);
    let starts = ws.map_values(|w: SpecWalk| w.2);
    let w = ws[k];
    if x == w.2 {
        assert(c[k] == x);
    } else {
        lemma_reachable_target(edges_at(e, w.1), w.2, x, ineligible_names(names, e, heads, prio, w.0, w.1));
        let t = targets(edges_at(e, w.1));
        let j = choose|j: int| 0 <= j < t.len() && t[j] == x;
        match w.1 {
            End::Left => {
                assert(c[starts.len() + j] == x);
            },
            End::Right => {
                assert(c[starts.len() + targets(e.left).len() + j] == x);
            },
        }
    }
}

/// No walk records `x` exactly when no first marking head exists.
proof fn lemma_first_none(ws: Seq<SpecWalk>, names: Seq<Seq<char>>, e: SpecEnds, heads: Seq<Seq<char>>, prio: Seq<Seq<char>>, x: Seq<char>)
    ensures
        first_marking_head(ws, names, e, heads, prio, x) is None
            <==> forall|k: int| 0 <= k < ws.len() ==> !marks(names, e, heads, prio, #[trigger] ws[k], x),
    decreases ws.len(),
{
    if ws.len() > 0 {
        let rest = ws.drop_last();
        lemma_first_none(rest, names, e, heads, prio, x);
        assert forall|k: int| 0 <= k < rest.len() implies rest[k] == ws[k] by {}
        if first_marking_head(ws, names, e, heads, prio, x) is None {
            assert forall|k: int| 0 <= k < ws.len() implies !marks(names, e, heads, prio, #[trigger] ws[k], x) by {
                if k < rest.len() {
                    assert(rest[k] == ws[k]);
                }
            }
        } else {
            if first_marking_head(rest, names, e, heads, prio, x) is Some {
                let k = choose|k: int| 0 <= k < rest.len() && marks(names, e, heads, prio, #[trigger] rest[k], x);
                assert(ws[k] == rest[k]);
            } else {
                assert(marks(names, e, heads, prio, ws[ws.len() - 1], x));
            }
        }
    }
}

/// The head of the first walk that records `x`, whether walks at each end
/// record it, and whether walks of different heads do.
fn record_of(
    ws: &Vec<(String, End, String)>,
    inels: &Vec<Vec<String>>,
    oks: &Vec<bool>,
    ends: &Ends,
    heads: &Vec<String>,
    prio: &Vec<String>,
    x: &str,
    Ghost(names): Ghost<Seq<Seq<char>>>,
) -> (r: (Option<String>, bool, bool, bool))
    requires
        inels@.len() == ws@.len(),
        oks@.len() == ws@.len(),
        forall|i: int| 0 <= i < ws@.len() ==> strings_view(#[trigger] inels@[i]@)
            == ineligible_names(names, ends@, strings_view(heads@), strings_view(prio@), ws@[i].0@, ws@[i].1),
        forall|i: int| 0 <= i < ws@.len() ==> #[trigger] oks@[i]
            == eligible(ends@, strings_view(heads@), strings_view(prio@), ws@[i].0@, ws@[i].1, ws@[i].2@),
    ensures
        crate::grammar::def::option_string_view(r.0)
            == first_marking_head(walks_of(ws@), names, ends@, strings_view(heads@), strings_view(prio@), x@),
        r.1 == marked_at(walks_of(ws@), names, ends@, strings_view(heads@), strings_view(prio@), x@, End::Left),
        r.2 == marked_at(walks_of(ws@), names, ends@, strings_view(heads@), strings_view(prio@), x@, End::Right),
        r.3 == conflicting(walks_of(ws@), names, ends@, strings_view(heads@), strings_view(prio@), x@),
{
    let ghost wv = walks_of(ws@);
    let ghost hv = strings_view(heads@);
    let ghost pv = strings_view(prio@);
    let mut first: Option<String> = None;
    let mut left = false;
    let mut right = false;
    let mut conflict = false;
    let mut i: usize = 0;
    while i < ws.len()
        invariant
            0 <= i <= ws@.len(),
            wv == walks_of(ws@),
            hv == strings_view(heads@),
            pv == strings_view(prio@),
            inels@.len() == ws@.len(),
            oks@.len() == ws@.len(),
            forall|i: int| 0 <= i < ws@.len() ==> strings_view(#[trigger] inels@[i]@)
                == ineligible_names(names, ends@, hv, pv, ws@[i].0@, ws@[i].1),
            forall|i: int| 0 <= i < ws@.len() ==> #[trigger] oks@[i]
                == eligible(ends@, hv, pv, ws@[i].0@, ws@[i].1, ws@[i].2@),
            crate::grammar::def::option_string_view(first) == first_marking_head(wv.take(i as int), names, ends@, hv, pv, x@),
            left == marked_at(wv.take(i as int), names, ends@, hv, pv, x@, End::Left),
            right == marked_at(wv.take(i as int), names, ends@, hv, pv, x@, End::Right),
            conflict == conflicting(wv.take(i as int), names, ends@, hv, pv, x@),
        decreases ws@.len() - i,
    {
        let ghost pre = wv.take(i as int);
        let ghost cur = wv.take(i + 1);
        proof {
            assert(cur.drop_last() =~= pre);
            assert(cur.last() == wv[i as int]);
            assert(wv[i as int] == (ws@[i as int].0@, ws@[i as int].1, ws@[i as int].2@));
            assert forall|k: int| 0 <= k < pre.len() implies cur[k] == pre[k] by {}
            lemma_first_none(pre, names, ends@, hv, pv, x@);
        }
        let m = walk_marks(ends, heads, prio, &inels[i], oks[i], &ws[i], x, Ghost(names));
        let ghost old_first = first;
        if m {
            match &first {
                Some(h) => {
                    if !crate::text::str_eq(h.as_str(), ws[i].0.as_str()) {
                        conflict = true;
                    }
                },
                None => {
                    first = Some(ws[i].0.clone());
                },
            }
            match ws[i].1 {
                End::Left => { left = true; },
                End::Right => { right = true; },
            }
        }
        proof {
            let fh = first_marking_head(cur, names, ends@, hv, pv, x@);
            if m {
                assert(marks(names, ends@, hv, pv, cur[i as int], x@));
            }
            if left {
                if !marked_at(pre, names, ends@, hv, pv, x@, End::Left) {
                    assert(cur[i as int].1 == End::Left);
                }
            } else {
                assert forall|k: int| 0 <= k < cur.len() && (#[trigger] cur[k]).1 == End::Left implies !marks(names, ends@, hv, pv, cur[k], x@) by {
                    if k < pre.len() {
                        assert(cur[k] == pre[k]);
                    }
                }
            }
            if left && marked_at(pre, names, ends@, hv, pv, x@, End::Left) {
                let k = choose|k: int| 0 <= k < pre.len() && (#[trigger] pre[k]).1 == End::Left && marks(names, ends@, hv, pv, pre[k], x@);
                assert(cur[k] == pre[k]);
            }
            if right {
                if !marked_at(pre, names, ends@, hv, pv, x@, End::Right) {
                    assert(cur[i as int].1 == End::Right);
                } else {
                    let k = choose|k: int| 0 <= k < pre.len() && (#[trigger] pre[k]).1 == End::Right && marks(names, ends@, hv, pv, pre[k], x@);
                    assert(cur[k] == pre[k]);
                }
            } else {
                assert forall|k: int| 0 <= k < cur.len() && (#[trigger] cur[k]).1 == End::Right implies !marks(names, ends@, hv, pv, cur[k], x@) by {
                    if k < pre.len() {
                        assert(cur[k] == pre[k]);
                    }
                }
            }
            match old_first {
                Some(h) => {
                    assert(fh == Some(h@));
                    if conflict {
                        if conflicting(pre, names, ends@, hv, pv, x@) {
                            let k = choose|k: int| 0 <= k < pre.len() && marks(names, ends@, hv, pv, #[trigger] pre[k], x@)
                                && first_marking_head(pre, names, ends@, hv, pv, x@) != Some(pre[k].0);
                            assert(cur[k] == pre[k]);
                        } else {
                            assert(marks(names, ends@, hv, pv, cur[i as int], x@) && fh != Some(cur[i as int].0));
                        }
                    } else {
                        assert forall|k: int| 0 <= k < cur.len() && marks(names, ends@, hv, pv, #[trigger] cur[k], x@)
                            implies fh == Some(cur[k].0) by {
                            if k < pre.len() {
                                assert(cur[k] == pre[k]);
                            }
                        }
                    }
                },
                None => {
                    assert forall|k: int| 0 <= k < cur.len() && marks(names, ends@, hv, pv, #[trigger] cur[k], x@)
                        implies fh == Some(cur[k].0) by {
                        if k < pre.len() {
                            assert(cur[k] == pre[k]);
                            assert(!marks(names, ends@, hv, pv, pre[k], x@));
                        }
                    }
                    assert(!conflict);
                },
            }
        }
        i += 1;
    }
    assert(wv.take(i as int) =~= wv);
    (first, left, right, conflict)
}

/// Whether `r` is what the walks record of `x`: the head of the first walk
/// that records it and the ends at which walks record it; the required
/// flags are not computed yet.
pub open spec fn recorded(ws: Seq<SpecWalk>, names: Seq<Seq<char>>, e: SpecEnds, heads: Seq<Seq<char>>, prio: Seq<Seq<char>>, x: Seq<char>, r: SpecIndirect) -> bool {
    &&& first_marking_head(ws, names, e, heads, prio, x) == Some(r.head)
    &&& r.left == marked_at(ws, names, e, heads, prio, x, End::Left)
    &&& r.right == marked_at(ws, names, e, heads, prio, x, End::Right)
}

proof fn lemma_get_push(m: Seq<(Seq<char>, SpecIndirect)>, p: (Seq<char>, SpecIndirect), x: Seq<char>)
    ensures
        indirect_get(m.push(p), x) == if p.0 == x { Some(p.1) } else { indirect_get(m, x) },
{
    assert(m.push(p).drop_last() =~= m);
}

/// The records of every nonterminal the walks record, and the names of
/// those that walks of different heads record.
fn compute_indirect_map(
    ws: &Vec<(String, End, String)>,
    inels: &Vec<Vec<String>>,
    oks: &Vec<bool>,
    ends: &Ends,
    heads: &Vec<String>,
    prio: &Vec<String>,
    cands: &Vec<String>,
    Ghost(names): Ghost<Seq<Seq<char>>>,
) -> (r: (Vec<(String, IndirectRecursion)>, Vec<String>))
    requires
        inels@.len() == ws@.len(),
        oks@.len() == ws@.len(),
        forall|i: int| 0 <= i < ws@.len() ==> strings_view(#[trigger] inels@[i]@)
            == ineligible_names(names, ends@, strings_view(heads@), strings_view(prio@), ws@[i].0@, ws@[i].1),
        forall|i: int| 0 <= i < ws@.len() ==> #[trigger] oks@[i]
            == eligible(ends@, strings_view(heads@), strings_view(prio@), ws@[i].0@, ws@[i].1, ws@[i].2@),
        strings_view(cands@) == candidates_view(walks_of(ws@), ends@),
    ensures
        forall|x: Seq<char>| (#[trigger] indirect_get(indirect_view(r.0@), x)) is Some
            <==> first_marking_head(walks_of(ws@), names, ends@, strings_view(heads@), strings_view(prio@), x) is Some,
        forall|x: Seq<char>| (#[trigger] indirect_get(indirect_view(r.0@), x)) is Some ==> {
            let rec = indirect_get(indirect_view(r.0@), x)->0;
            &&& recorded(walks_of(ws@), names, ends@, strings_view(heads@), strings_view(prio@), x, rec)
            &&& !rec.left_required && !rec.right_required
        },
        forall|x: Seq<char>| #[trigger] strings_view(r.1@).contains(x)
            <==> conflicting(walks_of(ws@), names, ends@, strings_view(heads@), strings_view(prio@), x),
        strings_view(r.1@).no_duplicates(),
{
    let ghost wv = walks_of(ws@);
    let ghost hv = strings_view(heads@);
    let ghost pv = strings_view(prio@);
    let ghost cv = strings_view(cands@);
    let mut map: Vec<(String, IndirectRecursion)> = Vec::new();
    let mut multi: Vec<String> = Vec::new();
    let mut c: usize = 0;
    while c < cands.len()
        invariant
            0 <= c <= cands@.len(),
            wv == walks_of(ws@),
            hv == strings_view(heads@),
            pv == strings_view(prio@),
            cv == strings_view(cands@),
            inels@.len() == ws@.len(),
            oks@.len() == ws@.len(),
            forall|i: int| 0 <= i < ws@.len() ==> strings_view(#[trigger] inels@[i]@)
                == ineligible_names(names, ends@, hv, pv, ws@[i].0@, ws@[i].1),
            forall|i: int| 0 <= i < ws@.len() ==> #[trigger] oks@[i]
                == eligible(ends@, hv, pv, ws@[i].0@, ws@[i].1, ws@[i].2@),
            forall|x: Seq<char>| (#[trigger] indirect_get(indirect_view(map@), x)) is Some ==> {
                let rec = indirect_get(indirect_view(map@), x)->0;
                &&& recorded(wv, names, ends@, hv, pv, x, rec)
                &&& !rec.left_required && !rec.right_required
            },
            forall|j: int| 0 <= j < c && first_marking_head(wv, names, ends@, hv, pv, #[trigger] cv[j]) is Some
                ==> indirect_get(indirect_view(map@), cv[j]) is Some,
            forall|x: Seq<char>| #[trigger] strings_view(multi@).contains(x)
                <==> (indirect_get(indirect_view(map@), x) is Some && conflicting(wv, names, ends@, hv, pv, x)),
            strings_view(multi@).no_duplicates(),
        decreases cands@.len() - c,
    {
        let x = &cands[c];
        assert(cv[c as int] == x@);
        if lookup(&map, x.as_str()).is_some() {
            c += 1;
            continue;
        }
        let (first, left, right, conflict) = record_of(ws, inels, oks, ends, heads, prio, x.as_str(), Ghost(names));
        match first {
            Some(h) => {
                let ghost before = indirect_view(map@);
                let ghost before_multi = strings_view(multi@);
                let rec = IndirectRecursion { head: h, left, right, left_required: false, right_required: false };
                let ghost rv = rec@;
                map.push((x.clone(), rec));
                proof {
                    assert(indirect_view(map@) =~= before.push((x@, rv)));
                    assert forall|y: Seq<char>| #[trigger] indirect_get(indirect_view(map@), y)
                        == if x@ == y { Some(rv) } else { indirect_get(before, y) } by {
                        lemma_get_push(before, (x@, rv), y);
                    }
                }
                if conflict {
                    multi.push(x.clone());
                    proof {
                        assert(strings_view(multi@) =~= before_multi.push(x@));
                        assert forall|y: Seq<char>| #[trigger] strings_view(multi@).contains(y) <==> (before_multi.contains(y) || y == x@) by {
                            if strings_view(multi@).contains(y) {
                                let k = choose|k: int| 0 <= k < strings_view(multi@).len() && strings_view(multi@)[k] == y;
                                if k < before_multi.len() {
                                    assert(before_multi[k] == y);
                                }
                            }
                            if before_multi.contains(y) {
                                let k = choose|k: int| 0 <= k < before_multi.len() && before_multi[k] == y;
                                assert(strings_view(multi@)[k] == y);
                            }
                            if y == x@ {
                                assert(strings_view(multi@)[before_multi.len() as int] == y);
                            }
                        }
                        assert(!before_multi.contains(x@));
                        assert(strings_view(multi@).no_duplicates()) by {
                            assert forall|a: int, b: int| 0 <= a < b < strings_view(multi@).len() implies strings_view(multi@)[a] != strings_view(multi@)[b] by {
                                if b == before_multi.len() {
                                    assert(strings_view(multi@)[a] == before_multi[a]);
                                    assert(before_multi.contains(before_multi[a]));
                                } else {
                                    assert(strings_view(multi@)[a] == before_multi[a]);
                                    assert(strings_view(multi@)[b] == before_multi[b]);
                                }
                            }
                        }
                    }
                } else {
                    assert(strings_view(multi@) == before_multi);
                }
            },
            None => {},
        }
        c += 1;
    }
    proof {
        assert forall|x: Seq<char>| first_marking_head(wv, names, ends@, hv, pv, x) is Some
            implies (#[trigger] indirect_get(indirect_view(map@), x)) is Some by {
            lemma_first_none(wv, names, ends@, hv, pv, x);
            let k = choose|k: int| 0 <= k < wv.len() && marks(names, ends@, hv, pv, #[trigger] wv[k], x);
            lemma_marked_candidate(wv, names, ends@, hv, pv, k, x);
            let j = choose|j: int| 0 <= j < cv.len() && cv[j] == x;
            assert(first_marking_head(wv, names, ends@, hv, pv, cv[j]) is Some);
        }
        assert forall|x: Seq<char>| conflicting(wv, names, ends@, hv, pv, x)
            implies #[trigger] strings_view(multi@).contains(x) by {
            let k = choose|k: int| 0 <= k < wv.len() && marks(names, ends@, hv, pv, #[trigger] wv[k], x)
                && first_marking_head(wv, names, ends@, hv, pv, x) != Some(wv[k].0);
            lemma_first_none(wv, names, ends@, hv, pv, x);
            assert(indirect_get(indirect_view(map@), x) is Some);
        }
    }
    (map, multi)
}

/// The error for a nonterminal that walks of two heads record.
pub open spec fn multi_head_message(name: Seq<char>) -> Seq<char> {
    "indirect precedence cannot be enforced for `"@ + name
        + "` because it serves multiple precedence heads; give each precedence rule its own intermediate nonterminal"@
}

/// Whether the names are in strictly increasing order.
pub open spec fn strictly_sorted(names: Seq<Seq<char>>) -> bool {
    forall|i: int, j: int| 0 <= i < j < names.len() ==> lex_lt(#[trigger] names[i], #[trigger] names[j])
}

/// The messages for the conflicting names, sorted by name.
fn conflict_messages(multi: &Vec<String>) -> (msgs: Vec<String>)
    requires
        strings_view(multi@).no_duplicates(),
    ensures
        exists|s: Seq<Seq<char>>| {
            &&& strictly_sorted(s)
            &&& forall|y: Seq<char>| #[trigger] s.contains(y) <==> strings_view(multi@).contains(y)
            &&& strings_view(msgs@) == s.map_values(|n: Seq<char>| multi_head_message(n))
        },
{
    let mut sorted: Vec<String> = Vec::new();
    let mut i: usize = 0;
    while i < multi.len()
        invariant
            0 <= i <= multi@.len(),
            strings_view(multi@).no_duplicates(),
            strictly_sorted(strings_view(sorted@)),
            forall|y: Seq<char>| #[trigger] strings_view(sorted@).contains(y) <==> strings_view(multi@).take(i as int).contains(y),
        decreases multi@.len() - i,
    {
        let ghost mv = strings_view(multi@);
        proof {
            assert forall|k: int| 0 <= k < sorted@.len() implies (#[trigger] sorted@[k])@ != multi@[i as int]@ by {
                assert(strings_view(sorted@)[k] == sorted@[k]@);
                assert(strings_view(sorted@).contains(sorted@[k]@));
                let t0 = mv.take(i as int);
                let j = choose|j: int| 0 <= j < t0.len() && t0[j] == sorted@[k]@;
                assert(mv[j] == t0[j]);
                assert(mv[i as int] == multi@[i as int]@);
            }
            assert forall|a: int, b: int| 0 <= a < b < sorted@.len() implies lex_lt(#[trigger] sorted@[a]@, #[trigger] sorted@[b]@) by {
                assert(strings_view(sorted@)[a] == sorted@[a]@);
                assert(strings_view(sorted@)[b] == sorted@[b]@);
            }
        }
        insert_ordered(&mut sorted, multi[i].clone());
        proof {
            let t1 = mv.take(i + 1);
            let t0 = mv.take(i as int);
            assert forall|y: Seq<char>| #[trigger] t1.contains(y) <==> (y == mv[i as int] || t0.contains(y)) by {
                if t1.contains(y) {
                    let j = choose|j: int| 0 <= j < t1.len() && t1[j] == y;
                    if j < i {
                        assert(t0[j] == y);
                    }
                }
                if y == mv[i as int] {
                    assert(t1[i as int] == y);
                }
                if t0.contains(y) {
                    let j = choose|j: int| 0 <= j < t0.len() && t0[j] == y;
                    assert(t1[j] == y);
                }
            }
            assert forall|a: int, b: int| 0 <= a < b < strings_view(sorted@).len() implies lex_lt(#[trigger] strings_view(sorted@)[a], #[trigger] strings_view(sorted@)[b]) by {
                assert(strings_view(sorted@)[a] == sorted@[a]@);
                assert(strings_view(sorted@)[b] == sorted@[b]@);
            }
        }
        i += 1;
    }
    assert(strings_view(multi@).take(i as int) =~= strings_view(multi@));
    let mut msgs: Vec<String> = Vec::new();
    let mut k: usize = 0;
    while k < sorted.len()
        invariant
            0 <= k <= sorted@.len(),
            strings_view(msgs@) == strings_view(sorted@).take(k as int).map_values(|n: Seq<char>| multi_head_message(n)),
        decreases sorted@.len() - k,
    {
        let mut m = String::new();
        push_str(&mut m, "indirect precedence cannot be enforced for `");
        push_str(&mut m, sorted[k].as_str());
        push_str(&mut m, "` because it serves multiple precedence heads; give each precedence rule its own intermediate nonterminal");
        let ghost before = strings_view(msgs@);
        msgs.push(m);
        proof {
            let sv = strings_view(sorted@);
            assert(sv[k as int] == sorted@[k as int]@);
            assert(strings_view(msgs@) =~= before.push(multi_head_message(sv[k as int])));
            assert(sv.take(k + 1).map_values(|n: Seq<char>| multi_head_message(n))
                =~= sv.take(k as int).map_values(|n: Seq<char>| multi_head_message(n)).push(multi_head_message(sv[k as int])));
        }
        k += 1;
    }
    assert(strings_view(sorted@).take(k as int) =~= strings_view(sorted@));
    msgs
}

/// The records of the intermediate nonterminals of the grammar (see
/// `indirect_records`), or the errors for nonterminals that serve several
/// heads, sorted by name.
pub fn compute_indirect_recursion(rules: &Vec<SyntaxRule>, heads: &Vec<String>, ends: &Ends)
    -> (r: Result<Vec<(String, IndirectRecursion)>, Vec<String>>)
    ensures
        ({
            let rv = syntax_rules_view(rules@);
            let ws = walks_view(rv, strings_view(heads@), ends@);
            let names = rule_names(rv);
            let prio = priority_names(rv);
            let hv = strings_view(heads@);
            &&& r is Ok <==> forall|x: Seq<char>| !#[trigger] conflicting(ws, names, ends@, hv, prio, x)
            &&& r matches Ok(m) ==> forall|x: Seq<char>| #[trigger] indirect_get(indirect_view(m@), x) == indirect_record(rv, hv, ends@, x)
            &&& r matches Err(msgs) ==> exists|s: Seq<Seq<char>>| {
                &&& strictly_sorted(s)
                &&& forall|y: Seq<char>| #[trigger] s.contains(y) <==> conflicting(ws, names, ends@, hv, prio, y)
                &&& strings_view(msgs@) == s.map_values(|n: Seq<char>| multi_head_message(n))
            }
        }),
{
    let ghost rv = syntax_rules_view(rules@);
    let names = compute_rule_names(rules);
    let prio = compute_priority_names(rules);
    let ws = compute_walks(rules, heads, ends);
    let ghost wv = walks_of(ws@);
    let ghost nv = strings_view(names@);
    let mut inels: Vec<Vec<String>> = Vec::new();
    let mut oks: Vec<bool> = Vec::new();
    let mut i: usize = 0;
    while i < ws.len()
        invariant
            0 <= i <= ws@.len(),
            inels@.len() == i,
            oks@.len() == i,
            nv == strings_view(names@),
            forall|k: int| 0 <= k < i ==> strings_view(#[trigger] inels@[k]@)
                == ineligible_names(nv, ends@, strings_view(heads@), strings_view(prio@), ws@[k].0@, ws@[k].1),
            forall|k: int| 0 <= k < i ==> #[trigger] oks@[k]
                == eligible(ends@, strings_view(heads@), strings_view(prio@), ws@[k].0@, ws@[k].1, ws@[k].2@),
        decreases ws@.len() - i,
    {
        let w = &ws[i];
        inels.push(compute_ineligible(&names, ends, heads, &prio, w.0.as_str(), w.1));
        oks.push(is_eligible(ends, heads, &prio, w.0.as_str(), w.1, w.2.as_str()));
        i += 1;
    }
    let cands = compute_candidates(&ws, ends);
    let (map, multi) = compute_indirect_map(&ws, &inels, &oks, ends, heads, &prio, &cands, Ghost(nv));
    if multi.len() == 0 {
        proof {
            assert forall|x: Seq<char>| !#[trigger] conflicting(wv, nv, ends@, strings_view(heads@), strings_view(prio@), x) by {
                if conflicting(wv, nv, ends@, strings_view(heads@), strings_view(prio@), x) {
                    assert(strings_view(multi@).contains(x));
                }
            }
        }
        proof {
            let hv = strings_view(heads@);
            assert forall|x: Seq<char>| #[trigger] indirect_get(indirect_view(map@), x) == basic_record(rv, hv, ends@, x) by {
                if indirect_get(indirect_view(map@), x) is Some {
                    assert(recorded(wv, nv, ends@, hv, strings_view(prio@), x, indirect_get(indirect_view(map@), x)->0));
                }
            }
        }
        Ok(add_required_flags(map, rules, heads, ends))
    } else {
        proof {
            let x = strings_view(multi@)[0];
            assert(strings_view(multi@).contains(x));
            assert(conflicting(wv, nv, ends@, strings_view(heads@), strings_view(prio@), x));
        }
        Err(conflict_messages(&multi))
    }
}

// ---------------------------------------------------------------------------
// Ends present in every derivation

/// The rule named `x`: the last one with that name.
pub open spec fn rule_named(rules: Seq<SpecSyntaxRule>, x: Seq<char>) -> Option<SpecSyntaxRule>
    decreases rules.len(),
{
    if rules.len() == 0 {
        None
    } else if rules.last().head.name == x {
        Some(rules.last())
    } else {
        rule_named(rules.drop_last(), x)
    }
}

/// Whether the symbol at `end` of the alternative refers to `head`, or to a
/// member of `set` recorded with that head.
pub open spec fn end_refers(get: spec_fn(Seq<char>) -> Option<SpecIndirect>, set: Set<Seq<char>>, head: Seq<char>, alt: SpecAlternative, end: End) -> bool {
    match referenced_name(end_symbol_view(alt.symbols, end)) {
        Some(n) => n == head || (set.contains(n) && match get(n) {
            Some(r) => r.head == head,
            None => false,
        }),
        None => false,
    }
}

/// Whether every alternative of `x`'s rule keeps the head of `x` at `end`,
/// directly or through a member of `set`.
pub open spec fn end_stays(get: spec_fn(Seq<char>) -> Option<SpecIndirect>, rules: Seq<SpecSyntaxRule>, set: Set<Seq<char>>, x: Seq<char>, end: End) -> bool {
    let head = get(x)->0.head;
    match rule_named(rules, x) {
        Some(r) => forall|k: int| 0 <= k < rule_alternatives(r.priority_levels).len()
            ==> end_refers(get, set, head, #[trigger] rule_alternatives(r.priority_levels)[k], end),
        None => true,
    }
}

/// Whether `x` is recorded at `end`.
pub open spec fn recorded_at(get: spec_fn(Seq<char>) -> Option<SpecIndirect>, x: Seq<char>, end: End) -> bool {
    match get(x) {
        Some(r) => at_end(r, end),
        None => false,
    }
}

/// A set of nonterminals recorded at `end` each of whose alternatives keeps
/// the head at `end` within the set.
pub open spec fn closed_at(get: spec_fn(Seq<char>) -> Option<SpecIndirect>, rules: Seq<SpecSyntaxRule>, set: Set<Seq<char>>, end: End) -> bool {
    forall|x: Seq<char>| #[trigger] set.contains(x) ==> recorded_at(get, x, end) && end_stays(get, rules, set, x, end)
}

/// Whether the head is present at `end` in every derivation through `x`:
/// `x` belongs to a set closed in that sense (the greatest fixed point).
pub open spec fn always_present(get: spec_fn(Seq<char>) -> Option<SpecIndirect>, rules: Seq<SpecSyntaxRule>, x: Seq<char>, end: End) -> bool {
    exists|set: Set<Seq<char>>| #[trigger] closed_at(get, rules, set, end) && set.contains(x)
}

proof fn lemma_end_stays_monotone(m: spec_fn(Seq<char>) -> Option<SpecIndirect>, rules: Seq<SpecSyntaxRule>, s: Set<Seq<char>>, t: Set<Seq<char>>, x: Seq<char>, end: End)
    requires
        forall|y: Seq<char>| #[trigger] s.contains(y) ==> t.contains(y),
        end_stays(m, rules, s, x, end),
    ensures
        end_stays(m, rules, t, x, end),
{
    let head = m(x)->0.head;
    match rule_named(rules, x) {
        Some(r) => {
            let alts = rule_alternatives(r.priority_levels);
            assert forall|k: int| 0 <= k < alts.len() implies end_refers(m, t, head, #[trigger] alts[k], end) by {
                assert(end_refers(m, s, head, alts[k], end));
            }
        },
        None => {},
    }
}

/// The rule named `x`; see `rule_named`.
fn find_rule<'a>(rules: &'a Vec<SyntaxRule>, x: &str) -> (r: Option<&'a SyntaxRule>)
    ensures
        match r {
            Some(rule) => rule_named(syntax_rules_view(rules@), x@) == Some(rule@),
            None => rule_named(syntax_rules_view(rules@), x@) is None,
        },
{
    let ghost rv = syntax_rules_view(rules@);
    assert(rv.take(rv.len() as int) =~= rv);
    let mut n: usize = rules.len();
    while n > 0
        invariant
            0 <= n <= rules@.len(),
            rv == syntax_rules_view(rules@),
            rule_named(rv, x@) == rule_named(rv.take(n as int), x@),
        decreases n,
    {
        proof {
            assert(rv.take(n as int).drop_last() =~= rv.take(n - 1));
            assert(rv.take(n as int).last() == rules@[n - 1]@);
        }
        if crate::text::str_eq(rules[n - 1].head.name.as_str(), x) {
            return Some(&rules[n - 1]);
        }
        n -= 1;
    }
    None
}

/// The set of names in a list.
pub open spec fn name_set(names: Seq<String>) -> Set<Seq<char>> {
    Set::new(|y: Seq<char>| strings_view(names).contains(y))
}

/// See `end_stays`, for the set of names in `req`.
fn stays(m: &Vec<(String, IndirectRecursion)>, rules: &Vec<SyntaxRule>, req: &Vec<String>, x: &str, head: &str, end: End) -> (b: bool)
    requires
        indirect_get(indirect_view(m@), x@) is Some,
        head@ == indirect_get(indirect_view(m@), x@)->0.head,
    ensures
        b == end_stays(map_lookup(indirect_view(m@)), syntax_rules_view(rules@), name_set(req@), x@, end),
{
    let ghost mv = map_lookup(indirect_view(m@));
    let ghost set = name_set(req@);
    match find_rule(rules, x) {
        Some(rule) => {
            let alts = rule.alternatives();
            let ghost av = alts@.map_values(|a: &Alternative| a@);
            let mut k: usize = 0;
            while k < alts.len()
                invariant
                    0 <= k <= alts@.len(),
                    av == alts@.map_values(|a: &Alternative| a@),
                    av == rule_alternatives(rule@.priority_levels),
                    mv == map_lookup(indirect_view(m@)),
                    set == name_set(req@),
                    rule_named(syntax_rules_view(rules@), x@) == Some(rule@),
                    head@ == indirect_get(indirect_view(m@), x@)->0.head,
                    forall|j: int| 0 <= j < k ==> end_refers(mv, set, head@, #[trigger] av[j], end),
                decreases alts@.len() - k,
            {
                let alt = alts[k];
                assert(av[k as int] == alt@);
                let ok = match referenced(end_symbol(&alt.symbols, end)) {
                    Some(n) => {
                        if crate::text::str_eq(n.as_str(), head) {
                            true
                        } else if contains_name(req, n.as_str()) {
                            match lookup(m, n.as_str()) {
                                Some(r) => crate::text::str_eq(r.head.as_str(), head),
                                None => false,
                            }
                        } else {
                            false
                        }
                    },
                    None => false,
                };
                if !ok {
                    assert(!end_refers(mv, set, head@, av[k as int], end));
                    assert(rule_named(syntax_rules_view(rules@), x@) == Some(rule@));
                    assert(!end_refers(mv, set, mv(x@)->0.head, rule_alternatives(rule@.priority_levels)[k as int], end));
                    return false;
                }
                k += 1;
            }
            true
        },
        None => true,
    }
}

/// A recorded name is the name of some entry.
proof fn lemma_get_index(m: Seq<(Seq<char>, SpecIndirect)>, x: Seq<char>)
    requires
        indirect_get(m, x) is Some,
    ensures
        exists|k: int| 0 <= k < m.len() && (#[trigger] m[k]).0 == x,
    decreases m.len(),
{
    if m.last().0 == x {
        assert(m[m.len() - 1].0 == x);
    } else {
        lemma_get_index(m.drop_last(), x);
        let k = choose|k: int| 0 <= k < m.drop_last().len() && (#[trigger] m.drop_last()[k]).0 == x;
        assert(m[k] == m.drop_last()[k]);
    }
}

/// The names of the nonterminals recorded at `end`.
fn names_at_end(m: &Vec<(String, IndirectRecursion)>, end: End) -> (r: Vec<String>)
    ensures
        forall|y: Seq<char>| #[trigger] strings_view(r@).contains(y) ==> recorded_at(map_lookup(indirect_view(m@)), y, end),
        forall|y: Seq<char>| recorded_at(map_lookup(indirect_view(m@)), y, end) ==> #[trigger] strings_view(r@).contains(y),
{
    let ghost mv = indirect_view(m@);
    let ghost g = map_lookup(mv);
    let mut out: Vec<String> = Vec::new();
    let mut i: usize = 0;
    while i < m.len()
        invariant
            0 <= i <= m@.len(),
            mv == indirect_view(m@),
            g == map_lookup(mv),
            forall|y: Seq<char>| #[trigger] strings_view(out@).contains(y) ==> recorded_at(g, y, end),
            forall|k: int| 0 <= k < i && recorded_at(g, (#[trigger] mv[k]).0, end) ==> strings_view(out@).contains(mv[k].0),
        decreases m@.len() - i,
    {
        let ghost before = strings_view(out@);
        let name = &m[i].0;
        assert(mv[i as int].0 == name@);
        let rec = lookup(m, name.as_str());
        match rec {
            Some(r) => {
                if r.is_at_end(end) {
                    out.push(name.clone());
                    proof {
                        assert(strings_view(out@) =~= before.push(name@));
                        assert forall|y: Seq<char>| #[trigger] before.contains(y) implies strings_view(out@).contains(y) by {
                            let k = choose|k: int| 0 <= k < before.len() && before[k] == y;
                            assert(strings_view(out@)[k] == y);
                        }
                        assert(strings_view(out@)[before.len() as int] == name@);
                        assert forall|y: Seq<char>| #[trigger] strings_view(out@).contains(y) implies recorded_at(g, y, end) by {
                            let k = choose|k: int| 0 <= k < strings_view(out@).len() && strings_view(out@)[k] == y;
                            if k < before.len() {
                                assert(before[k] == y);
                                assert(before.contains(y));
                            }
                        }
                    }
                }
            },
            None => {},
        }
        i += 1;
    }
    proof {
        assert forall|y: Seq<char>| recorded_at(g, y, end) implies #[trigger] strings_view(out@).contains(y) by {
            lemma_get_index(mv, y);
            let k = choose|k: int| 0 <= k < mv.len() && (#[trigger] mv[k]).0 == y;
        }
    }
    out
}

/// The nonterminals at whose `end` the head is present in every derivation;
/// see `always_present`.
fn required_names(m: &Vec<(String, IndirectRecursion)>, rules: &Vec<SyntaxRule>, end: End) -> (req: Vec<String>)
    ensures
        forall|x: Seq<char>| #[trigger] strings_view(req@).contains(x)
            <==> always_present(map_lookup(indirect_view(m@)), syntax_rules_view(rules@), x, end),
{
    let ghost mv = map_lookup(indirect_view(m@));
    let ghost rv = syntax_rules_view(rules@);
    let mut req = names_at_end(m, end);
    let mut done = false;
    proof {
        assert forall|s: Set<Seq<char>>| #[trigger] closed_at(mv, rv, s, end) implies s.subset_of(name_set(req@)) by {
            assert forall|y: Seq<char>| s.contains(y) implies name_set(req@).contains(y) by {
                assert(recorded_at(mv, y, end));
                assert(strings_view(req@).contains(y));
            }
        }
    }
    while !done
        invariant
            mv == map_lookup(indirect_view(m@)),
            rv == syntax_rules_view(rules@),
            forall|y: Seq<char>| #[trigger] strings_view(req@).contains(y) ==> recorded_at(mv, y, end),
            forall|s: Set<Seq<char>>| #[trigger] closed_at(mv, rv, s, end) ==> s.subset_of(name_set(req@)),
            done ==> closed_at(mv, rv, name_set(req@), end),
        decreases (if done { 0int } else { req@.len() as int + 1 }),
    {
        let ghost set = name_set(req@);
        let mut next: Vec<String> = Vec::new();
        let mut all_stay = true;
        let mut i: usize = 0;
        while i < req.len()
            invariant
                0 <= i <= req@.len(),
                mv == map_lookup(indirect_view(m@)),
                rv == syntax_rules_view(rules@),
                set == name_set(req@),
                forall|y: Seq<char>| #[trigger] strings_view(req@).contains(y) ==> recorded_at(mv, y, end),
                forall|y: Seq<char>| #[trigger] strings_view(next@).contains(y) ==> strings_view(req@).contains(y) && end_stays(mv, rv, set, y, end),
                forall|k: int| 0 <= k < i && end_stays(mv, rv, set, #[trigger] strings_view(req@)[k], end) ==> strings_view(next@).contains(strings_view(req@)[k]),
                all_stay ==> forall|k: int| 0 <= k < i ==> end_stays(mv, rv, set, #[trigger] strings_view(req@)[k], end),
                next@.len() <= i,
                !all_stay ==> next@.len() < i,
            decreases req@.len() - i,
        {
            let y = &req[i];
            proof {
                assert(strings_view(req@)[i as int] == y@);
                assert(strings_view(req@).contains(y@));
                assert(recorded_at(mv, y@, end));
            }
            let r = lookup(m, y.as_str());
            let head = match r {
                Some(rec) => &rec.head,
                None => { proof { assert(false); } vstd::pervasive::unreached() },
            };
            let ghost before = strings_view(next@);
            if stays(m, rules, &req, y.as_str(), head.as_str(), end) {
                next.push(y.clone());
                proof {
                    assert(strings_view(next@) =~= before.push(y@));
                    assert(strings_view(next@)[before.len() as int] == y@);
                    assert forall|z: Seq<char>| #[trigger] before.contains(z) implies strings_view(next@).contains(z) by {
                        let k = choose|k: int| 0 <= k < before.len() && before[k] == z;
                        assert(strings_view(next@)[k] == z);
                    }
                    assert forall|z: Seq<char>| #[trigger] strings_view(next@).contains(z) implies strings_view(req@).contains(z) && end_stays(mv, rv, set, z, end) by {
                        let k = choose|k: int| 0 <= k < strings_view(next@).len() && strings_view(next@)[k] == z;
                        if k < before.len() {
                            assert(before[k] == z);
                            assert(before.contains(z));
                        }
                    }
                }
            } else {
                all_stay = false;
            }
            i += 1;
        }
        if all_stay {
            done = true;
            proof {
                assert forall|x: Seq<char>| #[trigger] set.contains(x) implies recorded_at(mv, x, end) && end_stays(mv, rv, set, x, end) by {
                    let k = choose|k: int| 0 <= k < strings_view(req@).len() && strings_view(req@)[k] == x;
                }
            }
        } else {
            proof {
                assert forall|s: Set<Seq<char>>| #[trigger] closed_at(mv, rv, s, end) implies s.subset_of(name_set(next@)) by {
                    assert forall|y: Seq<char>| s.contains(y) implies name_set(next@).contains(y) by {
                        assert(s.subset_of(set));
                        assert(set.contains(y));
                        assert(end_stays(mv, rv, s, y, end));
                        lemma_end_stays_monotone(mv, rv, s, set, y, end);
                        let k = choose|k: int| 0 <= k < strings_view(req@).len() && strings_view(req@)[k] == y;
                        assert(strings_view(next@).contains(strings_view(req@)[k]));
                    }
                }
            }
            req = next;
        }
    }
    proof {
        assert forall|x: Seq<char>| #[trigger] strings_view(req@).contains(x)
            <==> always_present(mv, rv, x, end) by {
            if strings_view(req@).contains(x) {
                assert(name_set(req@).contains(x));
                assert(closed_at(mv, rv, name_set(req@), end));
            }
            if always_present(mv, rv, x, end) {
                let s = choose|s: Set<Seq<char>>| #[trigger] closed_at(mv, rv, s, end) && s.contains(x);
                assert(s.subset_of(name_set(req@)));
                assert(name_set(req@).contains(x));
            }
        }
    }
    req
}

/// `r` with the required flags given.
pub open spec fn with_flags(r: SpecIndirect, left_required: bool, right_required: bool) -> SpecIndirect {
    SpecIndirect { head: r.head, left: r.left, right: r.right, left_required, right_required }
}

/// The map with the required flags of each record set from the names in
/// `req_left` and `req_right`.
fn set_required(m: &Vec<(String, IndirectRecursion)>, req_left: &Vec<String>, req_right: &Vec<String>) -> (r: Vec<(String, IndirectRecursion)>)
    ensures
        forall|x: Seq<char>| #[trigger] indirect_get(indirect_view(r@), x) == match indirect_get(indirect_view(m@), x) {
            Some(rec) => Some(with_flags(rec, strings_view(req_left@).contains(x), strings_view(req_right@).contains(x))),
            None => None,
        },
{
    let ghost mv = indirect_view(m@);
    let mut out: Vec<(String, IndirectRecursion)> = Vec::new();
    let mut i: usize = 0;
    while i < m.len()
        invariant
            0 <= i <= m@.len(),
            mv == indirect_view(m@),
            forall|x: Seq<char>| #[trigger] indirect_get(indirect_view(out@), x) == match indirect_get(mv.take(i as int), x) {
                Some(rec) => Some(with_flags(rec, strings_view(req_left@).contains(x), strings_view(req_right@).contains(x))),
                None => None,
            },
        decreases m@.len() - i,
    {
        let ghost before = indirect_view(out@);
        let ghost pre = mv.take(i as int);
        let ghost cur = mv.take(i + 1);
        let entry = &m[i];
        let rec = IndirectRecursion {
            head: entry.1.head.clone(),
            left: entry.1.left,
            right: entry.1.right,
            left_required: contains_name(req_left, entry.0.as_str()),
            right_required: contains_name(req_right, entry.0.as_str()),
        };
        let ghost rv = rec@;
        out.push((entry.0.clone(), rec));
        proof {
            assert(cur.drop_last() =~= pre);
            assert(cur.last() == mv[i as int]);
            assert(mv[i as int] == (entry.0@, entry.1@));
            assert(indirect_view(out@) =~= before.push((entry.0@, rv)));
            assert forall|x: Seq<char>| #[trigger] indirect_get(indirect_view(out@), x) == match indirect_get(cur, x) {
                Some(rec) => Some(with_flags(rec, strings_view(req_left@).contains(x), strings_view(req_right@).contains(x))),
                None => None,
            } by {
                lemma_get_push(before, (entry.0@, rv), x);
            }
        }
        i += 1;
    }
    assert(mv.take(i as int) =~= mv);
    out
}

/// The record of `x` without its required flags: the head of the first
/// walk that records it and the ends at which walks record it.
pub open spec fn basic_record(rules: Seq<SpecSyntaxRule>, heads: Seq<Seq<char>>, e: SpecEnds, x: Seq<char>) -> Option<SpecIndirect> {
    let ws = walks_view(rules, heads, e);
    let names = rule_names(rules);
    let prio = priority_names(rules);
    match first_marking_head(ws, names, e, heads, prio, x) {
        Some(h) => Some(SpecIndirect {
            head: h,
            left: marked_at(ws, names, e, heads, prio, x, End::Left),
            right: marked_at(ws, names, e, heads, prio, x, End::Right),
            left_required: false,
            right_required: false,
        }),
        None => None,
    }
}

/// The records without required flags, as a lookup.
pub open spec fn basic_lookup(rules: Seq<SpecSyntaxRule>, heads: Seq<Seq<char>>, e: SpecEnds) -> spec_fn(Seq<char>) -> Option<SpecIndirect> {
    |x: Seq<char>| basic_record(rules, heads, e, x)
}

/// The record of the intermediate nonterminal `x`, if a walk records it:
/// the head of the first walk that records it, the ends at which walks
/// record it, and whether the head is present at each end in every
/// derivation through it.
pub open spec fn indirect_record(rules: Seq<SpecSyntaxRule>, heads: Seq<Seq<char>>, e: SpecEnds, x: Seq<char>) -> Option<SpecIndirect> {
    match basic_record(rules, heads, e, x) {
        Some(b) => Some(with_flags(
            b,
            always_present(basic_lookup(rules, heads, e), rules, x, End::Left),
            always_present(basic_lookup(rules, heads, e), rules, x, End::Right),
        )),
        None => None,
    }
}

/// Adds the required flags to the records; see `indirect_record`.
fn add_required_flags(m: Vec<(String, IndirectRecursion)>, rules: &Vec<SyntaxRule>, heads: &Vec<String>, ends: &Ends) -> (r: Vec<(String, IndirectRecursion)>)
    requires
        forall|x: Seq<char>| #[trigger] indirect_get(indirect_view(m@), x)
            == basic_record(syntax_rules_view(rules@), strings_view(heads@), ends@, x),
    ensures
        forall|x: Seq<char>| #[trigger] indirect_get(indirect_view(r@), x)
            == indirect_record(syntax_rules_view(rules@), strings_view(heads@), ends@, x),
{
    let ghost mv = indirect_view(m@);
    let ghost rv = syntax_rules_view(rules@);
    let req_left = required_names(&m, rules, End::Left);
    let req_right = required_names(&m, rules, End::Right);
    proof {
        assert(map_lookup(mv) =~= basic_lookup(rv, strings_view(heads@), ends@));
    }
    set_required(&m, &req_left, &req_right)
}

} // verus!
