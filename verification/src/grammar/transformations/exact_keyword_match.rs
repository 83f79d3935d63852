//! Exact keyword matching: a keyword must not be directly preceded or
//! followed by an identifier character.
//!
//! Iguana has no separate scanning phase that applies the longest match: the
//! parser drives the scanner, and a keyword such as `"else"` could match the
//! first four characters of `elsewhere`. Each identifier-shaped literal
//! (one that an `@Identifier` rule accepts) therefore gets a restriction
//! pair, `P !<< "else" !>> F`, whose operands are character classes derived
//! from the DFAs of the identifier rules:
//!
//! - the follow class `F`: the labels of the outgoing transitions of the
//!   state the literal's text leads to, in every DFA where the walk does
//!   not fail;
//! - the precede class `P`: the labels of the transitions whose target has
//!   a transition on the literal's first character.
//!
//! Literals in `@NoLayout` rules are left alone.
use vstd::prelude::*;
use vstd::relations::{sorted_by, total_ordering};
use crate::grammar::def::{
    alternatives_view, levels_view, lexical_rules_view, syntax_rules_view, Alternative,
    LayoutStrategy, LexicalRule, PriorityLevel, SpecAlternative, SpecLayoutStrategy,
    SpecLexicalRule, SpecPriorityLevel, SpecSyntaxRule, SyntaxRule,
};
use crate::grammar::regex::{regex_text, CharClass, CharRange, Regex, SpecCharClass, SpecRegex};
use crate::grammar::symbols::{
    identifiers_view, lemma_symbols_view, lemma_symbols_view_push, spec_restricted, symbols_view,
    Definition, Identifier, Restrictions, SpecDefinition, SpecIdentifier, SpecRestrictions,
    SpecSymbol, SpecTerminal, Symbol, Terminal,
};

verus! {

broadcast use vstd::seq_lib::group_to_multiset_ensures;

/// The order of ranges by start, then end.
pub open spec fn range_leq(a: CharRange, b: CharRange) -> bool {
    (a.start as u32) < (b.start as u32) || ((a.start as u32) == (b.start as u32) && (a.end as u32) <= (b.end as u32))
}

/// `range_leq` as a relation.
pub open spec fn range_order() -> spec_fn(CharRange, CharRange) -> bool {
    |a: CharRange, b: CharRange| range_leq(a, b)
}

/// `range_leq` is a total order.
proof fn lemma_range_leq_total()
    ensures
        total_ordering(range_order()),
{
    let leq = range_order();
    assert forall|a: CharRange, b: CharRange| #[trigger] leq(a, b) && #[trigger] leq(b, a) implies a == b by {
        assert(a.start as u32 == b.start as u32);
        assert(a.end as u32 == b.end as u32);
    }
}

/// Folding sorted ranges: a range that starts at most one past the end of
/// the last merged range extends it; any other range is appended.
pub open spec fn merge_sorted(ranges: Seq<CharRange>) -> Seq<CharRange>
    decreases ranges.len(),
{
    if ranges.len() == 0 {
        Seq::empty()
    } else {
        let merged = merge_sorted(ranges.drop_last());
        let r = ranges.last();
        if merged.len() > 0 && (r.start as u32) <= (merged.last().end as u32) + 1 {
            if (r.end as u32) > (merged.last().end as u32) {
                merged.update(merged.len() - 1, CharRange { start: merged.last().start, end: r.end })
            } else {
                merged
            }
        } else {
            merged.push(r)
        }
    }
}

/// The ranges sorted by start and end, with overlapping and adjacent ones
/// merged.
pub open spec fn merged_ranges(ranges: Seq<CharRange>) -> Seq<CharRange> {
    merge_sorted(ranges.sort_by(range_order()))
}

/// Whether some range holds the character with code `c`.
pub open spec fn covers(ranges: Seq<CharRange>, c: u32) -> bool {
    exists|i: int| 0 <= i < ranges.len() && ((#[trigger] ranges[i]).start as u32) <= c <= (ranges[i].end as u32)
}

/// Every range starts no later than it ends.
pub open spec fn valid_ranges(ranges: Seq<CharRange>) -> bool {
    forall|i: int| 0 <= i < ranges.len() ==> ((#[trigger] ranges[i]).start as u32) <= (ranges[i].end as u32)
}

/// Valid ranges in increasing order, neither overlapping nor adjacent.
pub open spec fn canonical_ranges(ranges: Seq<CharRange>) -> bool {
    &&& valid_ranges(ranges)
    &&& forall|i: int, j: int| 0 <= i < j < ranges.len() ==> ((#[trigger] ranges[i]).end as u32) + 1 < ((#[trigger] ranges[j]).start as u32)
}

proof fn lemma_merge_sorted(s: Seq<CharRange>)
    requires
        sorted_by(s, range_order()),
        valid_ranges(s),
    ensures
        canonical_ranges(merge_sorted(s)),
        forall|c: u32| covers(merge_sorted(s), c) <==> covers(s, c),
        merge_sorted(s).len() > 0 ==> s.len() > 0 && (merge_sorted(s).last().start as u32) <= (s.last().start as u32),
    decreases s.len(),
{
    if s.len() > 0 {
        let rest = s.drop_last();
        let r = s.last();
        assert(sorted_by(rest, range_order())) by {
            assert forall|a: int, b: int| 0 <= a < b < rest.len() implies #[trigger] range_order()(rest[a], rest[b]) by {
                assert(range_order()(s[a], s[b]));
            }
        }
        lemma_merge_sorted(rest);
        let m = merge_sorted(rest);
        if m.len() > 0 {
            assert(range_order()(s[rest.len() - 1], r));
        }
        let m2 = merge_sorted(s);
        assert forall|c: u32| covers(m2, c) <==> covers(s, c) by {
            if covers(s, c) {
                let i = choose|i: int| 0 <= i < s.len() && ((#[trigger] s[i]).start as u32) <= c <= (s[i].end as u32);
                if i < rest.len() {
                    assert(rest[i] == s[i]);
                    assert(covers(rest, c));
                    let j = choose|j: int| 0 <= j < m.len() && ((#[trigger] m[j]).start as u32) <= c <= (m[j].end as u32);
                    if j < m.len() - 1 {
                        assert(m2[j] == m[j]);
                    } else {
                        assert((m2[j].start as u32) <= c <= (m2[j].end as u32));
                    }
                } else {
                    assert((m2.last().start as u32) <= c <= (m2.last().end as u32));
                }
            }
            if covers(m2, c) {
                let j = choose|j: int| 0 <= j < m2.len() && ((#[trigger] m2[j]).start as u32) <= c <= (m2[j].end as u32);
                if j < m.len() && m2[j] == m[j] {
                    assert(covers(m, c));
                    assert(covers(rest, c));
                    let i = choose|i: int| 0 <= i < rest.len() && ((#[trigger] rest[i]).start as u32) <= c <= (rest[i].end as u32);
                    assert(s[i] == rest[i]);
                } else if (r.start as u32) <= c <= (r.end as u32) {
                    assert(s[s.len() - 1] == r);
                } else {
                    assert(j == m.len() - 1);
                    assert((m[j].start as u32) <= c <= (m[j].end as u32));
                    assert(covers(m, c));
                    assert(covers(rest, c));
                    let i = choose|i: int| 0 <= i < rest.len() && ((#[trigger] rest[i]).start as u32) <= c <= (rest[i].end as u32);
                    assert(s[i] == rest[i]);
                }
            }
        }
        assert forall|i: int, j: int| 0 <= i < j < m2.len() implies ((#[trigger] m2[i]).end as u32) + 1 < ((#[trigger] m2[j]).start as u32) by {
            if j < m.len() - 1 || (j == m.len() - 1 && m2[j] == m[j]) {
                assert(m2[i] == m[i]);
                assert(m2[j] == m[j]);
            } else if j == m.len() - 1 {
                assert(m2[i] == m[i]);
                assert(m2[j].start == m[j].start);
            } else {
                assert(m2[i] == m[i]);
                if i < m.len() - 1 {
                    assert((m[i].end as u32) + 1 < (m[m.len() - 1].start as u32));
                }
            }
        }
    }
}

/// Merging gives canonical ranges that hold exactly the characters of the
/// given valid ranges; ranges holding the same characters merge to the same
/// result.
pub proof fn merged_ranges_are_canonical(ranges: Seq<CharRange>)
    requires
        valid_ranges(ranges),
    ensures
        canonical_ranges(merged_ranges(ranges)),
        forall|c: u32| covers(merged_ranges(ranges), c) <==> covers(ranges, c),
{
    let leq = range_order();
    lemma_range_leq_total();
    ranges.lemma_sort_by_ensures(leq);
    let sorted = ranges.sort_by(leq);
    assert forall|i: int| 0 <= i < sorted.len() implies ((#[trigger] sorted[i]).start as u32) <= (sorted[i].end as u32) by {
        assert(sorted.to_multiset().count(sorted[i]) > 0);
        assert(ranges.contains(sorted[i]));
    }
    assert forall|c: u32| covers(sorted, c) <==> covers(ranges, c) by {
        if covers(sorted, c) {
            let i = choose|i: int| 0 <= i < sorted.len() && ((#[trigger] sorted[i]).start as u32) <= c <= (sorted[i].end as u32);
            assert(sorted.to_multiset().count(sorted[i]) > 0);
            assert(ranges.contains(sorted[i]));
        }
        if covers(ranges, c) {
            let i = choose|i: int| 0 <= i < ranges.len() && ((#[trigger] ranges[i]).start as u32) <= c <= (ranges[i].end as u32);
            assert(ranges.to_multiset().count(ranges[i]) > 0);
            assert(sorted.contains(ranges[i]));
        }
    }
    lemma_merge_sorted(sorted);
}

/// Inserts `r` into the sorted `v`, after the ranges that come before or
/// equal it.
fn insert_sorted(v: &mut Vec<CharRange>, r: CharRange)
    requires
        sorted_by(old(v)@, range_order()),
    ensures
        sorted_by(final(v)@, range_order()),
        final(v)@.to_multiset() == old(v)@.to_multiset().insert(r),
{
    let ghost leq = range_order();
    let mut i: usize = v.len();
    while i > 0 && !range_le(v[i - 1], r)
        invariant
            0 <= i <= v@.len(),
            v@ == old(v)@,
            forall|k: int| i <= k < v@.len() ==> !range_leq(#[trigger] v@[k], r),
        decreases i,
    {
        i -= 1;
    }
    let ghost before = v@;
    assert(i == 0 || range_leq(before[i - 1], r));
    v.insert(i, r);
    proof {
        assert(v@ =~= before.subrange(0, i as int).push(r) + before.subrange(i as int, before.len() as int));
        assert(before =~= before.subrange(0, i as int) + before.subrange(i as int, before.len() as int));
        vstd::seq_lib::lemma_multiset_commutative(before.subrange(0, i as int).push(r), before.subrange(i as int, before.len() as int));
        vstd::seq_lib::lemma_multiset_commutative(before.subrange(0, i as int), before.subrange(i as int, before.len() as int));
        assert forall|a: int, b: int| 0 <= a < b < v@.len() implies #[trigger] leq(v@[a], v@[b]) by {
            if b < i {
                assert(leq(before[a], before[b]));
            } else if a < i && b == i {
                if a < i - 1 {
                    assert(leq(before[a], before[i - 1]));
                }
            } else if a < i && b > i {
                assert(leq(before[a], before[b - 1]));
            } else if a == i {
                assert(!range_leq(before[b - 1], r));
            } else {
                assert(leq(before[a - 1], before[b - 1]));
            }
        }
    }
}

/// Whether `a` comes before or equals `b` by start, then end.
fn range_le(a: CharRange, b: CharRange) -> (r: bool)
    ensures
        r == range_leq(a, b),
{
    (a.start as u32) < (b.start as u32) || ((a.start as u32) == (b.start as u32) && (a.end as u32) <= (b.end as u32))
}

/// Sorts `ranges` and merges overlapping and adjacent ones; see
/// `merged_ranges`. The result is canonical: it names the synthesized class
/// rule, so equal classes resolve to one rule.
pub fn merge_ranges(ranges: Vec<CharRange>) -> (merged: Vec<CharRange>)
    ensures
        merged@ == merged_ranges(ranges@),
{
    let ghost leq = range_order();
    let mut sorted: Vec<CharRange> = Vec::new();
    assert(ranges@.take(0) =~= Seq::<CharRange>::empty());
    let mut i: usize = 0;
    while i < ranges.len()
        invariant
            0 <= i <= ranges@.len(),
            sorted_by(sorted@, range_order()),
            sorted@.to_multiset() == ranges@.take(i as int).to_multiset(),
        decreases ranges@.len() - i,
    {
        insert_sorted(&mut sorted, ranges[i]);
        proof {
            assert(ranges@.take(i + 1) =~= ranges@.take(i as int).push(ranges@[i as int]));
        }
        i += 1;
    }
    proof {
        assert(ranges@.take(i as int) =~= ranges@);
        lemma_range_leq_total();
        ranges@.lemma_sort_by_ensures(leq);
        vstd::seq_lib::lemma_sorted_unique(sorted@, ranges@.sort_by(leq), leq);
    }
    let mut merged: Vec<CharRange> = Vec::new();
    let mut k: usize = 0;
    while k < sorted.len()
        invariant
            0 <= k <= sorted@.len(),
            merged@ == merge_sorted(sorted@.take(k as int)),
        decreases sorted@.len() - k,
    {
        let range = sorted[k];
        proof {
            assert(sorted@.take(k + 1).drop_last() =~= sorted@.take(k as int));
        }
        let n = merged.len();
        if n > 0 && (range.start as u32) <= (merged[n - 1].end as u32) + 1 {
            let last = merged[n - 1];
            if (range.end as u32) > (last.end as u32) {
                merged.set(n - 1, CharRange { start: last.start, end: range.end });
            }
        } else {
            merged.push(range);
        }
        k += 1;
    }
    assert(sorted@.take(k as int) =~= sorted@);
    merged
}

// ---------------------------------------------------------------------------
// Automata of identifier rules

/// A state of a DFA: its transitions (a character range and a target state)
/// and, for an accepting state, what it accepts.
#[derive(Debug)]
pub struct DfaState {
    pub transitions: Vec<(CharRange, usize)>,
    pub accept: Option<usize>,
}

/// A deterministic automaton over character ranges; state 0 is the start.
#[derive(Debug)]
pub struct Dfa {
    pub states: Vec<DfaState>,
}

pub struct SpecDfaState {
    pub transitions: Seq<(CharRange, usize)>,
    pub accept: Option<usize>,
}

impl View for DfaState {
    type V = SpecDfaState;

    open spec fn view(&self) -> SpecDfaState {
        SpecDfaState { transitions: self.transitions@, accept: self.accept }
    }
}

impl View for Dfa {
    type V = Seq<SpecDfaState>;

    open spec fn view(&self) -> Seq<SpecDfaState> {
        self.states@.map_values(|s: DfaState| s@)
    }
}

/// A DFA with a start state whose transitions lead to its states.
pub open spec fn dfa_well_formed(dfa: Seq<SpecDfaState>) -> bool {
    &&& dfa.len() > 0
    &&& forall|s: int, t: int| 0 <= s < dfa.len() && 0 <= t < dfa[s].transitions.len()
        ==> (#[trigger] dfa[s].transitions[t]).1 < dfa.len()
}

/// Whether `r` holds `c`.
pub open spec fn in_range(r: CharRange, c: char) -> bool {
    (r.start as u32) <= (c as u32) && (c as u32) <= (r.end as u32)
}

/// The target of the first transition on `c`, if any.
pub open spec fn transition_on(transitions: Seq<(CharRange, usize)>, c: char) -> Option<usize>
    decreases transitions.len(),
{
    if transitions.len() == 0 {
        None
    } else if in_range(transitions[0].0, c) {
        Some(transitions[0].1)
    } else {
        transition_on(transitions.drop_first(), c)
    }
}

/// The state reached from `state` by consuming `text`, if the walk does not
/// get stuck.
pub open spec fn walk(dfa: Seq<SpecDfaState>, state: usize, text: Seq<char>) -> Option<usize>
    decreases text.len(),
{
    if text.len() == 0 {
        Some(state)
    } else {
        match transition_on(dfa[state as int].transitions, text[0]) {
            Some(t) => walk(dfa, t, text.drop_first()),
            None => None,
        }
    }
}

/// The labels of `transitions` whose target has a transition on `c`.
pub open spec fn labels_before(dfa: Seq<SpecDfaState>, transitions: Seq<(CharRange, usize)>, c: char) -> Seq<CharRange>
    decreases transitions.len(),
{
    if transitions.len() == 0 {
        Seq::empty()
    } else {
        labels_before(dfa, transitions.drop_last(), c)
            + if transition_on(dfa[transitions.last().1 as int].transitions, c) is Some {
                seq![transitions.last().0]
            } else {
                Seq::empty()
            }
    }
}

/// The labels before `c` of the transitions of the first `n` states.
pub open spec fn states_labels_before(dfa: Seq<SpecDfaState>, n: int, c: char) -> Seq<CharRange>
    decreases n,
{
    if n <= 0 {
        Seq::empty()
    } else {
        states_labels_before(dfa, n - 1, c) + labels_before(dfa, dfa[n - 1].transitions, c)
    }
}

/// The labels of the transitions leaving the state `text` leads to.
pub open spec fn labels_after(dfa: Seq<SpecDfaState>, text: Seq<char>) -> Seq<CharRange> {
    match walk(dfa, 0, text) {
        Some(s) => dfa[s as int].transitions.map_values(|t: (CharRange, usize)| t.0),
        None => Seq::empty(),
    }
}

/// The precede and follow labels of all DFAs, DFA after DFA.
pub open spec fn classes_of(dfas: Seq<Seq<SpecDfaState>>, text: Seq<char>) -> (Seq<CharRange>, Seq<CharRange>)
    decreases dfas.len(),
{
    if dfas.len() == 0 {
        (Seq::empty(), Seq::empty())
    } else {
        let (precede, follow) = classes_of(dfas.drop_last(), text);
        let dfa = dfas.last();
        (precede + states_labels_before(dfa, dfa.len() as int, text[0]), follow + labels_after(dfa, text))
    }
}

/// Whether the walk over `text` ends in an accepting state.
pub open spec fn accepts(dfa: Seq<SpecDfaState>, text: Seq<char>) -> bool {
    match walk(dfa, 0, text) {
        Some(s) => dfa[s as int].accept is Some,
        None => false,
    }
}

/// Whether some DFA accepts `text`.
pub open spec fn identifier_shaped(dfas: Seq<Seq<SpecDfaState>>, text: Seq<char>) -> bool {
    exists|i: int| 0 <= i < dfas.len() && accepts(#[trigger] dfas[i], text)
}

/// The restriction classes of a literal: `None` for an empty or not
/// identifier-shaped text; otherwise the merged precede and follow labels.
pub open spec fn keyword_classes(dfas: Seq<Seq<SpecDfaState>>, text: Seq<char>) -> Option<(Seq<CharRange>, Seq<CharRange>)> {
    if text.len() == 0 || !identifier_shaped(dfas, text) {
        None
    } else {
        Some((merged_ranges(classes_of(dfas, text).0), merged_ranges(classes_of(dfas, text).1)))
    }
}

/// The views of a list of DFAs.
pub open spec fn dfas_view(dfas: Seq<Dfa>) -> Seq<Seq<SpecDfaState>> {
    dfas.map_values(|d: Dfa| d@)
}

/// The walk stays among the states of a well-formed DFA.
proof fn lemma_walk_in_bounds(dfa: Seq<SpecDfaState>, state: usize, text: Seq<char>)
    requires
        dfa_well_formed(dfa),
        state < dfa.len(),
    ensures
        walk(dfa, state, text) matches Some(s) ==> s < dfa.len(),
    decreases text.len(),
{
    if text.len() > 0 {
        assert(dfa[state as int].transitions.subrange(0, dfa[state as int].transitions.len() as int) =~= dfa[state as int].transitions);
        lemma_transition_in_bounds(dfa, dfa[state as int].transitions, state as int, text[0]);
        if let Some(t) = transition_on(dfa[state as int].transitions, text[0]) {
            lemma_walk_in_bounds(dfa, t, text.drop_first());
        }
    }
}

/// A transition of a state of a well-formed DFA leads to one of its states.
proof fn lemma_transition_in_bounds(dfa: Seq<SpecDfaState>, transitions: Seq<(CharRange, usize)>, state: int, c: char)
    requires
        dfa_well_formed(dfa),
        0 <= state < dfa.len(),
        transitions.len() <= dfa[state].transitions.len(),
        transitions == dfa[state].transitions.subrange(dfa[state].transitions.len() - transitions.len(), dfa[state].transitions.len() as int),
    ensures
        transition_on(transitions, c) matches Some(t) ==> t < dfa.len(),
    decreases transitions.len(),
{
    if transitions.len() > 0 {
        let n = dfa[state].transitions.len();
        let k = n - transitions.len();
        assert(transitions[0] == dfa[state].transitions[k]);
        if !in_range(transitions[0].0, c) {
            assert(transitions.drop_first() =~= dfa[state].transitions.subrange(k + 1, n as int));
            lemma_transition_in_bounds(dfa, transitions.drop_first(), state, c);
        }
    }
}

/// The restrictions derived for an identifier-shaped literal.
#[derive(Debug)]
pub struct KeywordRestrictions {
    pub precede: Vec<CharRange>,
    pub follow: Vec<CharRange>,
}

impl Dfa {
    /// The target of the first transition of `state` on `c`.
    fn step(&self, state: usize, c: char) -> (r: Option<usize>)
        requires
            state < self@.len(),
        ensures
            r == transition_on(self@[state as int].transitions, c),
    {
        let transitions = &self.states[state].transitions;
        let ghost ts = transitions@;
        assert(ts.subrange(0, ts.len() as int) =~= ts);
        let mut i: usize = 0;
        while i < transitions.len()
            invariant
                0 <= i <= ts.len(),
                ts == transitions@,
                ts == self@[state as int].transitions,
                transition_on(ts, c) == transition_on(ts.subrange(i as int, ts.len() as int), c),
            decreases ts.len() - i,
        {
            let (range, target) = transitions[i];
            proof {
                let rest = ts.subrange(i as int, ts.len() as int);
                assert(rest[0] == (range, target));
                assert(rest.drop_first() =~= ts.subrange(i + 1, ts.len() as int));
            }
            if (range.start as u32) <= (c as u32) && (c as u32) <= (range.end as u32) {
                return Some(target);
            }
            i += 1;
        }
        None
    }

    /// The state the start state leads to by consuming `text`, if the walk
    /// does not get stuck.
    pub fn state_after(&self, text: &str) -> (r: Option<usize>)
        requires
            dfa_well_formed(self@),
        ensures
            r == walk(self@, 0, text@),
            r matches Some(s) ==> s < self@.len(),
    {
        proof { lemma_walk_in_bounds(self@, 0, text@); }
        let n = text.unicode_len();
        let mut state: usize = 0;
        let mut i: usize = 0;
        assert(text@.subrange(0, n as int) =~= text@);
        while i < n
            invariant
                0 <= i <= n,
                n == text@.len(),
                dfa_well_formed(self@),
                state < self@.len(),
                walk(self@, 0, text@) == walk(self@, state, text@.subrange(i as int, n as int)),
            decreases n - i,
        {
            let c = text.get_char(i);
            let rest = Ghost(text@.subrange(i as int, n as int));
            proof {
                assert(rest@[0] == c);
                assert(rest@.drop_first() =~= text@.subrange(i + 1, n as int));
                assert(self@[state as int].transitions.subrange(0, self@[state as int].transitions.len() as int) =~= self@[state as int].transitions);
                lemma_transition_in_bounds(self@, self@[state as int].transitions, state as int, c);
            }
            match self.step(state, c) {
                Some(t) => {
                    state = t;
                },
                None => {
                    return None;
                },
            }
            i += 1;
        }
        assert(text@.subrange(n as int, n as int) =~= Seq::<char>::empty());
        Some(state)
    }
}

/// Appends the labels of `state`'s transitions whose target has a
/// transition on `c`.
fn push_labels_before(dfa: &Dfa, state: usize, c: char, out: &mut Vec<CharRange>)
    requires
        dfa_well_formed(dfa@),
        state < dfa@.len(),
    ensures
        final(out)@ == old(out)@ + labels_before(dfa@, dfa@[state as int].transitions, c),
{
    let transitions = &dfa.states[state].transitions;
    let ghost ts = transitions@;
    let ghost start = out@;
    let mut j: usize = 0;
    while j < transitions.len()
        invariant
            0 <= j <= ts.len(),
            ts == transitions@,
            ts == dfa@[state as int].transitions,
            dfa_well_formed(dfa@),
            state < dfa@.len(),
            out@ == start + labels_before(dfa@, ts.take(j as int), c),
        decreases ts.len() - j,
    {
        let (range, target) = transitions[j];
        proof {
            assert(ts.take(j + 1).drop_last() =~= ts.take(j as int));
            assert(ts.take(j + 1).last() == (range, target));
            assert(dfa@[state as int].transitions[j as int] == (range, target));
        }
        let ghost before = out@;
        if dfa.step(target, c).is_some() {
            out.push(range);
            assert(out@ =~= before + seq![range]);
        } else {
            assert(out@ =~= before + Seq::<CharRange>::empty());
        }
        j += 1;
    }
    assert(ts.take(j as int) =~= ts);
}

/// Derives `literal`'s restrictions from the identifier rules' DFAs; `None`
/// when the literal is empty or no DFA accepts it (it is not
/// identifier-shaped). See `keyword_classes`.
pub fn derive_restrictions(dfas: &[Dfa], literal: &str) -> (r: Option<KeywordRestrictions>)
    requires
        forall|i: int| 0 <= i < dfas@.len() ==> dfa_well_formed(#[trigger] dfas@[i]@),
    ensures
        match r {
            Some(k) => keyword_classes(dfas_view(dfas@), literal@) == Some((k.precede@, k.follow@)),
            None => keyword_classes(dfas_view(dfas@), literal@) is None,
        },
{
    let ghost dv = dfas_view(dfas@);
    let n = literal.unicode_len();
    if n == 0 {
        return None;
    }
    let first = literal.get_char(0);
    let mut shaped = false;
    let mut i: usize = 0;
    while i < dfas.len()
        invariant
            0 <= i <= dfas@.len(),
            dv == dfas_view(dfas@),
            forall|k: int| 0 <= k < dfas@.len() ==> dfa_well_formed(#[trigger] dfas@[k]@),
            shaped == exists|k: int| 0 <= k < i && accepts(#[trigger] dv[k], literal@),
        decreases dfas@.len() - i,
    {
        let dfa = &dfas[i];
        assert(dv[i as int] == dfa@);
        if let Some(s) = dfa.state_after(literal) {
            if dfa.states[s].accept.is_some() {
                shaped = true;
            }
        }
        assert(shaped == exists|k: int| 0 <= k < i + 1 && accepts(#[trigger] dv[k], literal@)) by {
            if accepts(dv[i as int], literal@) {
                assert(shaped);
            }
        }
        i += 1;
    }
    if !shaped {
        return None;
    }
    let mut precede: Vec<CharRange> = Vec::new();
    let mut follow: Vec<CharRange> = Vec::new();
    let mut k: usize = 0;
    while k < dfas.len()
        invariant
            0 <= k <= dfas@.len(),
            dv == dfas_view(dfas@),
            n == literal@.len(),
            n > 0,
            first == literal@[0],
            forall|m: int| 0 <= m < dfas@.len() ==> dfa_well_formed(#[trigger] dfas@[m]@),
            (precede@, follow@) == classes_of(dv.take(k as int), literal@),
        decreases dfas@.len() - k,
    {
        let dfa = &dfas[k];
        let ghost d = dfa@;
        proof {
            assert(dv.take(k + 1).drop_last() =~= dv.take(k as int));
            assert(dv.take(k + 1).last() == d);
        }
        let ghost follow_before = follow@;
        if let Some(s) = dfa.state_after(literal) {
            let transitions = &dfa.states[s].transitions;
            let mut j: usize = 0;
            while j < transitions.len()
                invariant
                    0 <= j <= transitions@.len(),
                    transitions@ == d[s as int].transitions,
                    follow@ == follow_before + d[s as int].transitions.take(j as int).map_values(|t: (CharRange, usize)| t.0),
                decreases transitions@.len() - j,
            {
                follow.push(transitions[j].0);
                proof {
                    let ts = d[s as int].transitions;
                    assert(ts.take(j + 1).map_values(|t: (CharRange, usize)| t.0) =~= ts.take(j as int).map_values(|t: (CharRange, usize)| t.0).push(ts[j as int].0));
                }
                j += 1;
            }
            assert(d[s as int].transitions.take(j as int) =~= d[s as int].transitions);
        }
        assert(follow@ =~= follow_before + labels_after(d, literal@));
        let ghost precede_before = precede@;
        let mut state: usize = 0;
        while state < dfa.states.len()
            invariant
                0 <= state <= dfa.states@.len(),
                d == dfa@,
                d.len() == dfa.states@.len(),
                dfa_well_formed(d),
                precede@ == precede_before + states_labels_before(d, state as int, first),
            decreases dfa.states@.len() - state,
        {
            let ghost before = precede@;
            push_labels_before(dfa, state, first, &mut precede);
            assert(precede@ =~= precede_before + states_labels_before(d, state + 1, first));
            state += 1;
        }
        k += 1;
    }
    assert(dv.take(k as int) =~= dv);
    Some(KeywordRestrictions { precede: merge_ranges(precede), follow: merge_ranges(follow) })
}

// ---------------------------------------------------------------------------
// Inserting the restrictions

/// The class of `ranges`, not negated.
pub open spec fn class_regex(ranges: Seq<CharRange>) -> SpecRegex {
    SpecRegex::CharClass(SpecCharClass { ranges, negated: false })
}

/// Whether a lexical rule is named `name`.
pub open spec fn has_rule_named(lex: Seq<SpecLexicalRule>, name: Seq<char>) -> bool {
    exists|k: int| 0 <= k < lex.len() && (#[trigger] lex[k]).head.name == name
}

/// The rule defining the class of `ranges`, named by its text.
pub open spec fn class_rule(ranges: Seq<CharRange>) -> SpecLexicalRule {
    SpecLexicalRule {
        head: SpecTerminal { name: regex_text(class_regex(ranges)), literal: None },
        regex: class_regex(ranges),
        except: Seq::empty(),
        follow_restriction: Seq::empty(),
        precede_restriction: None,
    }
}

/// The operand list for a class and the lexical rules after it: a
/// reference to the rule defining the class, added on first use and named
/// by its text; nothing for an empty class.
pub open spec fn operand_view(ranges: Seq<CharRange>, lex: Seq<SpecLexicalRule>) -> (Seq<SpecIdentifier>, Seq<SpecLexicalRule>) {
    if ranges.len() == 0 {
        (Seq::empty(), lex)
    } else {
        let name = regex_text(class_regex(ranges));
        (
            seq![SpecIdentifier { name, definition: None }],
            if has_rule_named(lex, name) { lex } else { lex.push(class_rule(ranges)) },
        )
    }
}

/// The two restriction sets combined: each list is the concatenation in
/// argument order.
pub open spec fn merge_view(first: SpecRestrictions, second: SpecRestrictions) -> SpecRestrictions {
    SpecRestrictions {
        precede: first.precede + second.precede,
        excepts: first.excepts + second.excepts,
        follow: first.follow + second.follow,
        layout_aware_follow: first.layout_aware_follow + second.layout_aware_follow,
    }
}

/// The index of the definition a reference resolves to.
pub open spec fn definition_index(id: SpecIdentifier) -> int {
    match id.definition {
        Some(d) => d.0 as int,
        None => 0,
    }
}

/// A reference to a terminal of an identifier-shaped literal gets the
/// derived restriction pair; other references stay.
pub open spec fn keyword_reference(id: SpecIdentifier, defs: Seq<SpecDefinition>, dfas: Seq<Seq<SpecDfaState>>, lex: Seq<SpecLexicalRule>) -> (SpecSymbol, Seq<SpecLexicalRule>) {
    let plain = SpecSymbol::Identifier(id);
    match defs[definition_index(id)] {
        SpecDefinition::Terminal(t) => match t.literal {
            Some(text) => match keyword_classes(dfas, text) {
                Some((precede, follow)) => {
                    let (p, lex1) = operand_view(precede, lex);
                    let (f, lex2) = operand_view(follow, lex1);
                    (spec_restricted(plain, SpecRestrictions {
                        precede: p,
                        excepts: Seq::empty(),
                        follow: f,
                        layout_aware_follow: Seq::empty(),
                    }), lex2)
                },
                None => (plain, lex),
            },
            None => (plain, lex),
        },
        _ => (plain, lex),
    }
}

/// The rewrite of a symbol, bottom-up, and the lexical rules after it: a
/// literal reference gets its restrictions; a handwritten restriction over
/// a literal that got derived ones absorbs them.
pub open spec fn keyword_symbol(s: SpecSymbol, defs: Seq<SpecDefinition>, dfas: Seq<Seq<SpecDfaState>>, lex: Seq<SpecLexicalRule>) -> (SpecSymbol, Seq<SpecLexicalRule>)
    decreases s, 1int,
{
    match s {
        SpecSymbol::Identifier(id) => keyword_reference(id, defs, dfas, lex),
        SpecSymbol::Restricted { symbol, restrictions } => {
            let (inner, lex1) = keyword_symbol(*symbol, defs, dfas, lex);
            (match inner {
                SpecSymbol::Restricted { symbol: literal, restrictions: derived } =>
                    SpecSymbol::Restricted { symbol: literal, restrictions: merge_view(restrictions, derived) },
                other => SpecSymbol::Restricted { symbol: Box::new(other), restrictions },
            }, lex1)
        },
        SpecSymbol::Group(items) => {
            let (xs, lex1) = keyword_symbols(items, defs, dfas, lex);
            (SpecSymbol::Group(xs), lex1)
        },
        SpecSymbol::Alt(items) => {
            let (xs, lex1) = keyword_symbols(items, defs, dfas, lex);
            (SpecSymbol::Alt(xs), lex1)
        },
        SpecSymbol::Opt(inner) => {
            let (x, lex1) = keyword_symbol(*inner, defs, dfas, lex);
            (SpecSymbol::Opt(Box::new(x)), lex1)
        },
        SpecSymbol::Star(inner, sep) => {
            let (x, lex1) = keyword_symbol(*inner, defs, dfas, lex);
            match sep {
                Some(y) => {
                    let (z, lex2) = keyword_symbol(*y, defs, dfas, lex1);
                    (SpecSymbol::Star(Box::new(x), Some(Box::new(z))), lex2)
                },
                None => (SpecSymbol::Star(Box::new(x), None), lex1),
            }
        },
        SpecSymbol::Plus(inner, sep) => {
            let (x, lex1) = keyword_symbol(*inner, defs, dfas, lex);
            match sep {
                Some(y) => {
                    let (z, lex2) = keyword_symbol(*y, defs, dfas, lex1);
                    (SpecSymbol::Plus(Box::new(x), Some(Box::new(z))), lex2)
                },
                None => (SpecSymbol::Plus(Box::new(x), None), lex1),
            }
        },
        SpecSymbol::Labeled { label, symbol } => {
            let (x, lex1) = keyword_symbol(*symbol, defs, dfas, lex);
            (SpecSymbol::Labeled { label, symbol: Box::new(x) }, lex1)
        },
        SpecSymbol::Binding { pattern, symbol } => {
            let (x, lex1) = keyword_symbol(*symbol, defs, dfas, lex);
            (SpecSymbol::Binding { pattern, symbol: Box::new(x) }, lex1)
        },
        SpecSymbol::Exclude { symbol, labels } => {
            let (x, lex1) = keyword_symbol(*symbol, defs, dfas, lex);
            (SpecSymbol::Exclude { symbol: Box::new(x), labels }, lex1)
        },
        _ => (s, lex),
    }
}

/// The rewrites of `items`, left to right.
pub open spec fn keyword_symbols(items: Seq<SpecSymbol>, defs: Seq<SpecDefinition>, dfas: Seq<Seq<SpecDfaState>>, lex: Seq<SpecLexicalRule>) -> (Seq<SpecSymbol>, Seq<SpecLexicalRule>)
    decreases items, 0int,
{
    if items.len() == 0 {
        (Seq::empty(), lex)
    } else {
        let (xs, lex1) = keyword_symbols(items.drop_last(), defs, dfas, lex);
        let (x, lex2) = keyword_symbol(items.last(), defs, dfas, lex1);
        (xs.push(x), lex2)
    }
}

/// Whether every reference the rewrite reads resolves to a definition
/// (the rewrite cannot proceed past one that does not).
pub open spec fn references_resolved(s: SpecSymbol, n: int) -> bool
    decreases s, 1int,
{
    match s {
        SpecSymbol::Identifier(id) => id.definition is Some && definition_index(id) < n,
        SpecSymbol::Restricted { symbol, .. } => references_resolved(*symbol, n),
        SpecSymbol::Group(items) => all_references_resolved(items, n),
        SpecSymbol::Alt(items) => all_references_resolved(items, n),
        SpecSymbol::Opt(inner) => references_resolved(*inner, n),
        SpecSymbol::Star(inner, sep) => references_resolved(*inner, n) && match sep {
            Some(y) => references_resolved(*y, n),
            None => true,
        },
        SpecSymbol::Plus(inner, sep) => references_resolved(*inner, n) && match sep {
            Some(y) => references_resolved(*y, n),
            None => true,
        },
        SpecSymbol::Labeled { symbol, .. } => references_resolved(*symbol, n),
        SpecSymbol::Binding { symbol, .. } => references_resolved(*symbol, n),
        SpecSymbol::Exclude { symbol, .. } => references_resolved(*symbol, n),
        _ => true,
    }
}

/// `references_resolved` for each symbol.
pub open spec fn all_references_resolved(items: Seq<SpecSymbol>, n: int) -> bool
    decreases items, 0int,
{
    if items.len() == 0 {
        true
    } else {
        all_references_resolved(items.drop_last(), n) && references_resolved(items.last(), n)
    }
}

/// The views of the definitions.
pub open spec fn definitions_view(defs: Seq<Definition>) -> Seq<SpecDefinition> {
    defs.map_values(|d: Definition| d@)
}

/// The class of `ranges` as a regex.
fn class_of(ranges: Vec<CharRange>) -> (r: Regex)
    ensures
        r@ == class_regex(ranges@),
{
    Regex::CharClass(CharClass { ranges, negated: false })
}

/// Whether a lexical rule is named `name`.
fn any_rule_named(lex: &Vec<LexicalRule>, name: &str) -> (b: bool)
    ensures
        b == has_rule_named(lexical_rules_view(lex@), name@),
{
    let ghost lv = lexical_rules_view(lex@);
    let mut k: usize = 0;
    while k < lex.len()
        invariant
            0 <= k <= lex@.len(),
            lv == lexical_rules_view(lex@),
            forall|j: int| 0 <= j < k ==> (#[trigger] lv[j]).head.name != name@,
        decreases lex@.len() - k,
    {
        assert(lv[k as int] == lex@[k as int]@);
        if crate::text::str_eq(lex[k].head.name.as_str(), name) {
            return true;
        }
        k += 1;
    }
    false
}

/// The operand list for a class; see `operand_view`.
pub fn restriction_operand(ranges: Vec<CharRange>, lexical_rules: &mut Vec<LexicalRule>) -> (ids: Vec<Identifier>)
    ensures
        (identifiers_view(ids@), lexical_rules_view(final(lexical_rules)@))
            == operand_view(ranges@, lexical_rules_view(old(lexical_rules)@)),
{
    if ranges.len() == 0 {
        let ids: Vec<Identifier> = Vec::new();
        assert(identifiers_view(ids@) =~= Seq::<SpecIdentifier>::empty());
        return ids;
    }
    let ghost rv = ranges@;
    let class = class_of(ranges);
    let name = class.to_string();
    let ghost before = lexical_rules_view(lexical_rules@);
    if !any_rule_named(lexical_rules, name.as_str()) {
        let rule = LexicalRule::new(Terminal::new(name.as_str()), class);
        let ghost rule_v = rule@;
        lexical_rules.push(rule);
        assert(lexical_rules_view(lexical_rules@) =~= before.push(rule_v));
    }
    let mut ids: Vec<Identifier> = Vec::new();
    ids.push(Identifier::new(name.as_str()));
    assert(identifiers_view(ids@) =~= seq![SpecIdentifier { name: name@, definition: None }]);
    ids
}

/// The two restriction sets combined; see `merge_view`.
pub fn merge(first: Restrictions, second: Restrictions) -> (r: Restrictions)
    ensures
        r@ == merge_view(first@, second@),
{
    let Restrictions { precede: mut p1, excepts: mut e1, follow: mut f1, layout_aware_follow: mut l1 } = first;
    let Restrictions { precede: mut p2, excepts: mut e2, follow: mut f2, layout_aware_follow: mut l2 } = second;
    let ghost (a, b, c, d) = (identifiers_view(p1@), identifiers_view(e1@), identifiers_view(f1@), identifiers_view(l1@));
    let ghost (a2, b2, c2, d2) = (identifiers_view(p2@), identifiers_view(e2@), identifiers_view(f2@), identifiers_view(l2@));
    p1.append(&mut p2);
    e1.append(&mut e2);
    f1.append(&mut f2);
    l1.append(&mut l2);
    assert(identifiers_view(p1@) =~= a + a2);
    assert(identifiers_view(e1@) =~= b + b2);
    assert(identifiers_view(f1@) =~= c + c2);
    assert(identifiers_view(l1@) =~= d + d2);
    Restrictions { precede: p1, excepts: e1, follow: f1, layout_aware_follow: l1 }
}

/// `all_references_resolved` holds of each symbol.
proof fn lemma_all_resolved(items: Seq<SpecSymbol>, n: int, k: int)
    requires
        all_references_resolved(items, n),
        0 <= k < items.len(),
    ensures
        references_resolved(items[k], n),
    decreases items.len(),
{
    if k < items.len() - 1 {
        assert(items.drop_last()[k] == items[k]);
        lemma_all_resolved(items.drop_last(), n, k);
    }
}

/// See `keyword_reference`.
fn keyword_identifier(id: &Identifier, defs: &Vec<Definition>, dfas: &[Dfa], lex: &mut Vec<LexicalRule>) -> (r: Symbol)
    requires
        id@.definition is Some,
        definition_index(id@) < defs@.len(),
        forall|i: int| 0 <= i < dfas@.len() ==> dfa_well_formed(#[trigger] dfas@[i]@),
    ensures
        (r@, lexical_rules_view(final(lex)@))
            == keyword_reference(id@, definitions_view(defs@), dfas_view(dfas@), lexical_rules_view(old(lex)@)),
{
    let d = id.resolve();
    let index = d.0 as usize;
    assert(definitions_view(defs@)[index as int] == defs@[index as int]@);
    match &defs[index] {
        Definition::Terminal(t) => match &t.literal {
            Some(text) => match derive_restrictions(dfas, text.as_str()) {
                Some(k) => {
                    let KeywordRestrictions { precede, follow } = k;
                    let p = restriction_operand(precede, lex);
                    let f = restriction_operand(follow, lex);
                    let excepts: Vec<Identifier> = Vec::new();
                    let layout_aware_follow: Vec<Identifier> = Vec::new();
                    let restrictions = Restrictions { precede: p, excepts, follow: f, layout_aware_follow };
                    assert(restrictions@.excepts =~= Seq::<SpecIdentifier>::empty());
                    assert(restrictions@.layout_aware_follow =~= Seq::<SpecIdentifier>::empty());
                    Symbol::restricted(Symbol::Identifier(id.clone()), restrictions)
                },
                None => Symbol::Identifier(id.clone()),
            },
            None => Symbol::Identifier(id.clone()),
        },
        _ => Symbol::Identifier(id.clone()),
    }
}

/// See `keyword_symbol`.
fn keyword_symbol_rewrite(s: &Symbol, defs: &Vec<Definition>, dfas: &[Dfa], lex: &mut Vec<LexicalRule>) -> (r: Symbol)
    requires
        references_resolved(s@, defs@.len() as int),
        forall|i: int| 0 <= i < dfas@.len() ==> dfa_well_formed(#[trigger] dfas@[i]@),
    ensures
        (r@, lexical_rules_view(final(lex)@))
            == keyword_symbol(s@, definitions_view(defs@), dfas_view(dfas@), lexical_rules_view(old(lex)@)),
    decreases s, 1int,
{
    match s {
        Symbol::Identifier(id) => keyword_identifier(id, defs, dfas, lex),
        Symbol::Restricted { symbol, restrictions } => {
            let inner = keyword_symbol_rewrite(&**symbol, defs, dfas, lex);
            match inner {
                Symbol::Restricted { symbol: literal, restrictions: derived } => {
                    Symbol::Restricted { symbol: literal, restrictions: merge(restrictions.clone(), derived) }
                },
                other => Symbol::Restricted { symbol: Box::new(other), restrictions: restrictions.clone() },
            }
        },
        Symbol::Group(items) => Symbol::Group(keyword_symbols_rewrite(items, defs, dfas, lex)),
        Symbol::Alt(items) => Symbol::Alt(keyword_symbols_rewrite(items, defs, dfas, lex)),
        Symbol::Opt(inner) => Symbol::Opt(Box::new(keyword_symbol_rewrite(&**inner, defs, dfas, lex))),
        Symbol::Star(inner, sep) => {
            let x = keyword_symbol_rewrite(&**inner, defs, dfas, lex);
            match sep {
                Some(y) => {
                    let z = keyword_symbol_rewrite(&**y, defs, dfas, lex);
                    Symbol::Star(Box::new(x), Some(Box::new(z)))
                },
                None => Symbol::Star(Box::new(x), None),
            }
        },
        Symbol::Plus(inner, sep) => {
            let x = keyword_symbol_rewrite(&**inner, defs, dfas, lex);
            match sep {
                Some(y) => {
                    let z = keyword_symbol_rewrite(&**y, defs, dfas, lex);
                    Symbol::Plus(Box::new(x), Some(Box::new(z)))
                },
                None => Symbol::Plus(Box::new(x), None),
            }
        },
        Symbol::Labeled { label, symbol } => {
            let x = keyword_symbol_rewrite(&**symbol, defs, dfas, lex);
            Symbol::Labeled { label: label.clone(), symbol: Box::new(x) }
        },
        Symbol::Binding { pattern, symbol } => {
            let x = keyword_symbol_rewrite(&**symbol, defs, dfas, lex);
            Symbol::Binding { pattern: pattern.clone(), symbol: Box::new(x) }
        },
        Symbol::Exclude { symbol, labels } => {
            let x = keyword_symbol_rewrite(&**symbol, defs, dfas, lex);
            Symbol::Exclude { symbol: Box::new(x), labels: crate::grammar::symbols::clone_strings(labels) }
        },
        _ => s.clone(),
    }
}

/// See `keyword_symbols`.
fn keyword_symbols_rewrite(items: &Vec<Symbol>, defs: &Vec<Definition>, dfas: &[Dfa], lex: &mut Vec<LexicalRule>) -> (r: Vec<Symbol>)
    requires
        all_references_resolved(symbols_view(items@), defs@.len() as int),
        forall|i: int| 0 <= i < dfas@.len() ==> dfa_well_formed(#[trigger] dfas@[i]@),
    ensures
        (symbols_view(r@), lexical_rules_view(final(lex)@))
            == keyword_symbols(symbols_view(items@), definitions_view(defs@), dfas_view(dfas@), lexical_rules_view(old(lex)@)),
    decreases items, 0int,
{
    let ghost iv = symbols_view(items@);
    let ghost start = lexical_rules_view(lex@);
    proof { lemma_symbols_view(items@); }
    let mut out: Vec<Symbol> = Vec::new();
    let mut i: usize = 0;
    while i < items.len()
        invariant
            0 <= i <= items@.len(),
            iv == symbols_view(items@),
            iv.len() == items@.len(),
            forall|k: int| 0 <= k < items@.len() ==> #[trigger] iv[k] == items@[k]@,
            all_references_resolved(iv, defs@.len() as int),
            forall|j: int| 0 <= j < dfas@.len() ==> dfa_well_formed(#[trigger] dfas@[j]@),
            (symbols_view(out@), lexical_rules_view(lex@))
                == keyword_symbols(iv.take(i as int), definitions_view(defs@), dfas_view(dfas@), start),
        decreases items@.len() - i,
    {
        proof {
            assert(iv.take(i + 1).drop_last() =~= iv.take(i as int));
            assert(iv.take(i + 1).last() == items@[i as int]@);
            lemma_all_resolved(iv, defs@.len() as int, i as int);
        }
        let x = keyword_symbol_rewrite(&items[i], defs, dfas, lex);
        proof { lemma_symbols_view_push(out@, x); }
        out.push(x);
        i += 1;
    }
    assert(iv.take(i as int) =~= iv);
    out
}

/// The rewrites of the alternatives' symbols, alternative after alternative.
pub open spec fn keyword_alternatives(alts: Seq<SpecAlternative>, defs: Seq<SpecDefinition>, dfas: Seq<Seq<SpecDfaState>>, lex: Seq<SpecLexicalRule>) -> (Seq<SpecAlternative>, Seq<SpecLexicalRule>)
    decreases alts.len(),
{
    if alts.len() == 0 {
        (Seq::empty(), lex)
    } else {
        let (xs, lex1) = keyword_alternatives(alts.drop_last(), defs, dfas, lex);
        let (ys, lex2) = keyword_symbols(alts.last().symbols, defs, dfas, lex1);
        (xs.push(SpecAlternative { symbols: ys, label: alts.last().label }), lex2)
    }
}

/// The rewrites of the levels, level after level.
pub open spec fn keyword_levels(levels: Seq<SpecPriorityLevel>, defs: Seq<SpecDefinition>, dfas: Seq<Seq<SpecDfaState>>, lex: Seq<SpecLexicalRule>) -> (Seq<SpecPriorityLevel>, Seq<SpecLexicalRule>)
    decreases levels.len(),
{
    if levels.len() == 0 {
        (Seq::empty(), lex)
    } else {
        let (xs, lex1) = keyword_levels(levels.drop_last(), defs, dfas, lex);
        let (alts, lex2) = keyword_alternatives(levels.last().alternatives, defs, dfas, lex1);
        (xs.push(SpecPriorityLevel { alternatives: alts, associativity: levels.last().associativity }), lex2)
    }
}

/// The rewrite of a rule; a `@NoLayout` rule stays as it is.
pub open spec fn keyword_rule(rule: SpecSyntaxRule, defs: Seq<SpecDefinition>, dfas: Seq<Seq<SpecDfaState>>, lex: Seq<SpecLexicalRule>) -> (SpecSyntaxRule, Seq<SpecLexicalRule>) {
    if rule.layout == SpecLayoutStrategy::NoLayout {
        (rule, lex)
    } else {
        let (levels, lex1) = keyword_levels(rule.priority_levels, defs, dfas, lex);
        (SpecSyntaxRule { head: rule.head, priority_levels: levels, layout: rule.layout }, lex1)
    }
}

/// The rewrites of the rules, rule after rule.
pub open spec fn keyword_rules(rules: Seq<SpecSyntaxRule>, defs: Seq<SpecDefinition>, dfas: Seq<Seq<SpecDfaState>>, lex: Seq<SpecLexicalRule>) -> (Seq<SpecSyntaxRule>, Seq<SpecLexicalRule>)
    decreases rules.len(),
{
    if rules.len() == 0 {
        (Seq::empty(), lex)
    } else {
        let (xs, lex1) = keyword_rules(rules.drop_last(), defs, dfas, lex);
        let (x, lex2) = keyword_rule(rules.last(), defs, dfas, lex1);
        (xs.push(x), lex2)
    }
}

/// Exact keyword matching of a grammar: without identifier automata the
/// grammar stays; otherwise every identifier-shaped literal reference gets
/// its restriction pair and each class operand's rule is appended on first
/// use.
pub open spec fn exact_keyword_view(rules: Seq<SpecSyntaxRule>, lex: Seq<SpecLexicalRule>, defs: Seq<SpecDefinition>, dfas: Seq<Seq<SpecDfaState>>) -> (Seq<SpecSyntaxRule>, Seq<SpecLexicalRule>) {
    if dfas.len() == 0 {
        (rules, lex)
    } else {
        keyword_rules(rules, defs, dfas, lex)
    }
}

/// Whether every reference read by the rewrite resolves to one of `n`
/// definitions.
pub open spec fn rules_resolved(rules: Seq<SpecSyntaxRule>, n: int) -> bool {
    forall|i: int, l: int, a: int| 0 <= i < rules.len() && 0 <= l < rules[i].priority_levels.len()
        && 0 <= a < rules[i].priority_levels[l].alternatives.len() && rules[i].layout != SpecLayoutStrategy::NoLayout
        ==> all_references_resolved(#[trigger] rules[i].priority_levels[l].alternatives[a].symbols, n)
}

/// See `keyword_rule`, for a rule that is not `@NoLayout`.
fn keyword_rule_rewrite(rule: &SyntaxRule, defs: &Vec<Definition>, dfas: &[Dfa], lex: &mut Vec<LexicalRule>) -> (r: SyntaxRule)
    requires
        rule@.layout != SpecLayoutStrategy::NoLayout,
        forall|l: int, a: int| 0 <= l < rule@.priority_levels.len() && 0 <= a < rule@.priority_levels[l].alternatives.len()
            ==> all_references_resolved(#[trigger] rule@.priority_levels[l].alternatives[a].symbols, defs@.len() as int),
        forall|i: int| 0 <= i < dfas@.len() ==> dfa_well_formed(#[trigger] dfas@[i]@),
    ensures
        (r@, lexical_rules_view(final(lex)@))
            == keyword_rule(rule@, definitions_view(defs@), dfas_view(dfas@), lexical_rules_view(old(lex)@)),
{
    let ghost lv = rule@.priority_levels;
    let ghost dv = definitions_view(defs@);
    let ghost fv = dfas_view(dfas@);
    let ghost start = lexical_rules_view(lex@);
    let mut levels: Vec<PriorityLevel> = Vec::new();
    let mut i: usize = 0;
    while i < rule.priority_levels.len()
        invariant
            0 <= i <= lv.len(),
            lv == rule@.priority_levels,
            lv.len() == rule.priority_levels@.len(),
            dv == definitions_view(defs@),
            fv == dfas_view(dfas@),
            forall|l: int, a: int| 0 <= l < lv.len() && 0 <= a < lv[l].alternatives.len()
                ==> all_references_resolved(#[trigger] lv[l].alternatives[a].symbols, defs@.len() as int),
            forall|j: int| 0 <= j < dfas@.len() ==> dfa_well_formed(#[trigger] dfas@[j]@),
            (levels_view(levels@), lexical_rules_view(lex@)) == keyword_levels(lv.take(i as int), dv, fv, start),
        decreases lv.len() - i,
    {
        let level = &rule.priority_levels[i];
        proof {
            assert(lv.take(i + 1).drop_last() =~= lv.take(i as int));
            assert(lv.take(i + 1).last() == level@);
            assert(lv[i as int] == level@);
        }
        let ghost mid = lexical_rules_view(lex@);
        let ghost av = level@.alternatives;
        let mut alternatives: Vec<Alternative> = Vec::new();
        let mut k: usize = 0;
        while k < level.alternatives.len()
            invariant
                0 <= k <= av.len(),
                av == level@.alternatives,
                av.len() == level.alternatives@.len(),
                i < lv.len(),
                lv[i as int].alternatives == av,
                dv == definitions_view(defs@),
                fv == dfas_view(dfas@),
                forall|l: int, a: int| 0 <= l < lv.len() && 0 <= a < lv[l].alternatives.len()
                    ==> all_references_resolved(#[trigger] lv[l].alternatives[a].symbols, defs@.len() as int),
                forall|j: int| 0 <= j < dfas@.len() ==> dfa_well_formed(#[trigger] dfas@[j]@),
                (alternatives_view(alternatives@), lexical_rules_view(lex@)) == keyword_alternatives(av.take(k as int), dv, fv, mid),
            decreases av.len() - k,
        {
            let alt = &level.alternatives[k];
            proof {
                assert(av.take(k + 1).drop_last() =~= av.take(k as int));
                assert(av.take(k + 1).last() == alt@);
                assert(av[k as int] == alt@);
                assert(all_references_resolved(lv[i as int].alternatives[k as int].symbols, defs@.len() as int));
            }
            let symbols = keyword_symbols_rewrite(&alt.symbols, defs, dfas, lex);
            let label = match &alt.label {
                Some(l) => Some(l.clone()),
                None => None,
            };
            let ghost prev = alternatives_view(alternatives@);
            let new_alt = Alternative { symbols, label };
            let ghost nav = new_alt@;
            alternatives.push(new_alt);
            assert(alternatives_view(alternatives@) =~= prev.push(nav));
            k += 1;
        }
        assert(av.take(k as int) =~= av);
        let ghost prev_levels = levels_view(levels@);
        let new_level = PriorityLevel { alternatives, associativity: level.associativity };
        let ghost nlv = new_level@;
        levels.push(new_level);
        assert(levels_view(levels@) =~= prev_levels.push(nlv));
        i += 1;
    }
    assert(lv.take(i as int) =~= lv);
    SyntaxRule { head: rule.head.clone(), priority_levels: levels, layout: crate::grammar::transformations::clone_layout(&rule.layout) }
}

/// Inserts the derived restriction pair on every identifier-shaped literal
/// reference in `syntax_rules`, appending each operand's rule to
/// `lexical_rules` on first use; see `exact_keyword_view`. `dfas` are the
/// automata of the identifier-annotated rules' regexes; without any, the
/// grammar is returned unchanged.
pub fn transform(syntax_rules: Vec<SyntaxRule>, lexical_rules: Vec<LexicalRule>, definitions: &Vec<Definition>, dfas: &Vec<Dfa>)
    -> (r: (Vec<SyntaxRule>, Vec<LexicalRule>))
    requires
        forall|i: int| 0 <= i < dfas@.len() ==> dfa_well_formed(#[trigger] dfas@[i]@),
        dfas@.len() > 0 ==> rules_resolved(syntax_rules_view(syntax_rules@), definitions@.len() as int),
    ensures
        (syntax_rules_view(r.0@), lexical_rules_view(r.1@)) == exact_keyword_view(
            syntax_rules_view(syntax_rules@),
            lexical_rules_view(lexical_rules@),
            definitions_view(definitions@),
            dfas_view(dfas@),
        ),
{
    if dfas.len() == 0 {
        return (syntax_rules, lexical_rules);
    }
    let ghost rv = syntax_rules_view(syntax_rules@);
    let ghost dv = definitions_view(definitions@);
    let ghost fv = dfas_view(dfas@);
    let ghost start = lexical_rules_view(lexical_rules@);
    let mut lex = lexical_rules;
    let mut rest = syntax_rules;
    let mut out: Vec<SyntaxRule> = Vec::new();
    let n = rest.len();
    let mut i: usize = 0;
    assert(rv.skip(0) =~= rv);
    while i < n
        invariant
            0 <= i <= n,
            n == rv.len(),
            dv == definitions_view(definitions@),
            fv == dfas_view(dfas@),
            forall|j: int| 0 <= j < dfas@.len() ==> dfa_well_formed(#[trigger] dfas@[j]@),
            rules_resolved(rv, definitions@.len() as int),
            syntax_rules_view(rest@) == rv.skip(i as int),
            (syntax_rules_view(out@), lexical_rules_view(lex@)) == keyword_rules(rv.take(i as int), dv, fv, start),
        decreases n - i,
    {
        proof {
            assert(syntax_rules_view(rest@).len() == rest@.len());
            assert(syntax_rules_view(rest@)[0] == rv[i as int]);
        }
        let ghost orest = rest@;
        let rule = rest.remove(0);
        proof {
            assert forall|j: int| 0 <= j < rest@.len() implies syntax_rules_view(rest@)[j] == rv.skip(i + 1)[j] by {
                assert(rest@[j] == orest[j + 1]);
                assert(syntax_rules_view(orest)[j + 1] == orest[j + 1]@);
            }
            assert(syntax_rules_view(rest@) =~= rv.skip(i + 1));
            assert(rule@ == rv[i as int]);
            assert(rv.take(i + 1).drop_last() =~= rv.take(i as int));
            assert(rv.take(i + 1).last() == rule@);
        }
        let ghost prev = syntax_rules_view(out@);
        let no_layout = match rule.layout {
            LayoutStrategy::NoLayout => true,
            _ => false,
        };
        if no_layout {
            let ghost rview = rule@;
            out.push(rule);
            assert(syntax_rules_view(out@) =~= prev.push(rview));
        } else {
            proof {
                assert forall|l: int, a: int| 0 <= l < rule@.priority_levels.len() && 0 <= a < rule@.priority_levels[l].alternatives.len()
                    implies all_references_resolved(#[trigger] rule@.priority_levels[l].alternatives[a].symbols, definitions@.len() as int) by {
                    assert(rv[i as int].priority_levels[l].alternatives[a].symbols == rule@.priority_levels[l].alternatives[a].symbols);
                }
            }
            let t = keyword_rule_rewrite(&rule, definitions, dfas.as_slice(), &mut lex);
            let ghost tv = t@;
            out.push(t);
            assert(syntax_rules_view(out@) =~= prev.push(tv));
        }
        i += 1;
    }
    assert(rv.take(i as int) =~= rv);
    (out, lex)
}


// ---------------------------------------------------------------------------
// Every keyword literal ends up restricted.

/// The restriction classes of the terminal a reference resolves to, where
/// that terminal is an identifier-shaped literal.
pub open spec fn reference_classes(id: SpecIdentifier, defs: Seq<SpecDefinition>, dfas: Seq<Seq<SpecDfaState>>) -> Option<(Seq<CharRange>, Seq<CharRange>)> {
    match id.definition {
        Some(d) => if (d.0 as int) < defs.len() {
            match defs[d.0 as int] {
                SpecDefinition::Terminal(t) => match t.literal {
                    Some(text) => keyword_classes(dfas, text),
                    None => None,
                },
                _ => None,
            }
        } else {
            None
        },
        None => None,
    }
}

/// The operand that stands for a class: a reference to the rule named by
/// the class's text.
pub open spec fn class_operand(ranges: Seq<CharRange>) -> SpecIdentifier {
    SpecIdentifier { name: regex_text(class_regex(ranges)), definition: None }
}

/// Whether `restrictions` carry the derived pair of `classes`: the precede
/// class among the precede operands and the follow class among the follow
/// operands, each where it is not empty.
pub open spec fn carries(restrictions: SpecRestrictions, classes: (Seq<CharRange>, Seq<CharRange>)) -> bool {
    &&& classes.0.len() > 0 ==> restrictions.precede.contains(class_operand(classes.0))
    &&& classes.1.len() > 0 ==> restrictions.follow.contains(class_operand(classes.1))
}

/// Whether every reference to an identifier-shaped literal in `s`, at any
/// depth, carries its derived restrictions: it stands directly under a
/// restriction that carries them, or stands bare only where both classes
/// are empty.
pub open spec fn keywords_guarded(s: SpecSymbol, defs: Seq<SpecDefinition>, dfas: Seq<Seq<SpecDfaState>>) -> bool
    decreases s, 1int,
{
    match s {
        SpecSymbol::Identifier(id) => match reference_classes(id, defs, dfas) {
            Some(c) => c.0.len() == 0 && c.1.len() == 0,
            None => true,
        },
        SpecSymbol::Restricted { symbol, restrictions } => match *symbol {
            SpecSymbol::Identifier(id) => match reference_classes(id, defs, dfas) {
                Some(c) => carries(restrictions, c),
                None => true,
            },
            other => keywords_guarded(other, defs, dfas),
        },
        SpecSymbol::Group(items) => all_keywords_guarded(items, defs, dfas),
        SpecSymbol::Alt(items) => all_keywords_guarded(items, defs, dfas),
        SpecSymbol::Opt(inner) => keywords_guarded(*inner, defs, dfas),
        SpecSymbol::Star(inner, sep) => keywords_guarded(*inner, defs, dfas) && match sep {
            Some(y) => keywords_guarded(*y, defs, dfas),
            None => true,
        },
        SpecSymbol::Plus(inner, sep) => keywords_guarded(*inner, defs, dfas) && match sep {
            Some(y) => keywords_guarded(*y, defs, dfas),
            None => true,
        },
        SpecSymbol::Labeled { symbol, .. } => keywords_guarded(*symbol, defs, dfas),
        SpecSymbol::Binding { symbol, .. } => keywords_guarded(*symbol, defs, dfas),
        SpecSymbol::Exclude { symbol, .. } => keywords_guarded(*symbol, defs, dfas),
        _ => true,
    }
}

/// `keywords_guarded` for each symbol.
pub open spec fn all_keywords_guarded(items: Seq<SpecSymbol>, defs: Seq<SpecDefinition>, dfas: Seq<Seq<SpecDfaState>>) -> bool
    decreases items, 0int,
{
    if items.len() == 0 {
        true
    } else {
        all_keywords_guarded(items.drop_last(), defs, dfas) && keywords_guarded(items.last(), defs, dfas)
    }
}

proof fn lemma_contains_after(a: Seq<SpecIdentifier>, b: Seq<SpecIdentifier>, x: SpecIdentifier)
    requires
        b.contains(x),
    ensures
        (a + b).contains(x),
{
    let j = choose|j: int| 0 <= j < b.len() && b[j] == x;
    assert((a + b)[a.len() + j] == x);
}

proof fn lemma_keyword_reference_guarded(id: SpecIdentifier, defs: Seq<SpecDefinition>, dfas: Seq<Seq<SpecDfaState>>, lex: Seq<SpecLexicalRule>)
    requires
        references_resolved(SpecSymbol::Identifier(id), defs.len() as int),
    ensures
        keywords_guarded(keyword_reference(id, defs, dfas, lex).0, defs, dfas),
{
    let plain = SpecSymbol::Identifier(id);
    assert(definition_index(id) == id.definition->Some_0.0 as int);
    match reference_classes(id, defs, dfas) {
        Some(c) => {
            let (p, lex1) = operand_view(c.0, lex);
            let (f, lex2) = operand_view(c.1, lex1);
            let r = SpecRestrictions { precede: p, excepts: Seq::empty(), follow: f, layout_aware_follow: Seq::empty() };
            assert(keyword_reference(id, defs, dfas, lex).0 == spec_restricted(plain, r));
            if c.0.len() > 0 {
                assert(p[0] == class_operand(c.0));
            }
            if c.1.len() > 0 {
                assert(f[0] == class_operand(c.1));
            }
        },
        None => {},
    }
}

proof fn lemma_keyword_symbol_guarded(s: SpecSymbol, defs: Seq<SpecDefinition>, dfas: Seq<Seq<SpecDfaState>>, lex: Seq<SpecLexicalRule>)
    requires
        references_resolved(s, defs.len() as int),
    ensures
        keywords_guarded(keyword_symbol(s, defs, dfas, lex).0, defs, dfas),
    decreases s, 1int,
{
    match s {
        SpecSymbol::Identifier(id) => lemma_keyword_reference_guarded(id, defs, dfas, lex),
        SpecSymbol::Restricted { symbol, restrictions } => {
            lemma_keyword_symbol_guarded(*symbol, defs, dfas, lex);
            let (inner, lex1) = keyword_symbol(*symbol, defs, dfas, lex);
            match inner {
                SpecSymbol::Restricted { symbol: literal, restrictions: derived } => {
                    let merged = merge_view(restrictions, derived);
                    match *literal {
                        SpecSymbol::Identifier(id) => {
                            if let Some(c) = reference_classes(id, defs, dfas) {
                                if c.0.len() > 0 {
                                    lemma_contains_after(restrictions.precede, derived.precede, class_operand(c.0));
                                }
                                if c.1.len() > 0 {
                                    lemma_contains_after(restrictions.follow, derived.follow, class_operand(c.1));
                                }
                            }
                        },
                        _ => {},
                    }
                },
                _ => {},
            }
        },
        SpecSymbol::Group(items) => lemma_keyword_symbols_guarded(items, defs, dfas, lex),
        SpecSymbol::Alt(items) => lemma_keyword_symbols_guarded(items, defs, dfas, lex),
        SpecSymbol::Opt(inner) => lemma_keyword_symbol_guarded(*inner, defs, dfas, lex),
        SpecSymbol::Star(inner, sep) => {
            lemma_keyword_symbol_guarded(*inner, defs, dfas, lex);
            if let Some(y) = sep {
                lemma_keyword_symbol_guarded(*y, defs, dfas, keyword_symbol(*inner, defs, dfas, lex).1);
            }
        },
        SpecSymbol::Plus(inner, sep) => {
            lemma_keyword_symbol_guarded(*inner, defs, dfas, lex);
            if let Some(y) = sep {
                lemma_keyword_symbol_guarded(*y, defs, dfas, keyword_symbol(*inner, defs, dfas, lex).1);
            }
        },
        SpecSymbol::Labeled { symbol, .. } => lemma_keyword_symbol_guarded(*symbol, defs, dfas, lex),
        SpecSymbol::Binding { symbol, .. } => lemma_keyword_symbol_guarded(*symbol, defs, dfas, lex),
        SpecSymbol::Exclude { symbol, .. } => lemma_keyword_symbol_guarded(*symbol, defs, dfas, lex),
        _ => {},
    }
}

proof fn lemma_keyword_symbols_guarded(items: Seq<SpecSymbol>, defs: Seq<SpecDefinition>, dfas: Seq<Seq<SpecDfaState>>, lex: Seq<SpecLexicalRule>)
    requires
        all_references_resolved(items, defs.len() as int),
    ensures
        all_keywords_guarded(keyword_symbols(items, defs, dfas, lex).0, defs, dfas),
        keyword_symbols(items, defs, dfas, lex).0.len() == items.len(),
    decreases items, 0int,
{
    if items.len() > 0 {
        lemma_keyword_symbols_guarded(items.drop_last(), defs, dfas, lex);
        let (xs, lex1) = keyword_symbols(items.drop_last(), defs, dfas, lex);
        lemma_keyword_symbol_guarded(items.last(), defs, dfas, lex1);
        let (x, lex2) = keyword_symbol(items.last(), defs, dfas, lex1);
        assert(xs.push(x).drop_last() =~= xs);
    }
}

proof fn lemma_keyword_alternatives_guarded(alts: Seq<SpecAlternative>, defs: Seq<SpecDefinition>, dfas: Seq<Seq<SpecDfaState>>, lex: Seq<SpecLexicalRule>)
    requires
        forall|a: int| 0 <= a < alts.len() ==> all_references_resolved(#[trigger] alts[a].symbols, defs.len() as int),
    ensures
        keyword_alternatives(alts, defs, dfas, lex).0.len() == alts.len(),
        forall|a: int| 0 <= a < alts.len()
            ==> all_keywords_guarded(#[trigger] keyword_alternatives(alts, defs, dfas, lex).0[a].symbols, defs, dfas),
    decreases alts.len(),
{
    if alts.len() > 0 {
        let init = alts.drop_last();
        assert forall|a: int| 0 <= a < init.len() implies all_references_resolved(#[trigger] init[a].symbols, defs.len() as int) by {
            assert(init[a] == alts[a]);
        }
        lemma_keyword_alternatives_guarded(init, defs, dfas, lex);
        let (xs, lex1) = keyword_alternatives(init, defs, dfas, lex);
        assert(alts.last() == alts[alts.len() - 1]);
        lemma_keyword_symbols_guarded(alts.last().symbols, defs, dfas, lex1);
        let r = keyword_alternatives(alts, defs, dfas, lex).0;
        assert forall|a: int| 0 <= a < alts.len() implies all_keywords_guarded(#[trigger] r[a].symbols, defs, dfas) by {
            if a < init.len() {
                assert(r[a] == xs[a]);
            }
        }
    }
}

proof fn lemma_keyword_levels_guarded(levels: Seq<SpecPriorityLevel>, defs: Seq<SpecDefinition>, dfas: Seq<Seq<SpecDfaState>>, lex: Seq<SpecLexicalRule>)
    requires
        forall|l: int, a: int| 0 <= l < levels.len() && 0 <= a < levels[l].alternatives.len()
            ==> all_references_resolved(#[trigger] levels[l].alternatives[a].symbols, defs.len() as int),
    ensures
        keyword_levels(levels, defs, dfas, lex).0.len() == levels.len(),
        forall|l: int, a: int| 0 <= l < levels.len() && 0 <= a < keyword_levels(levels, defs, dfas, lex).0[l].alternatives.len()
            ==> all_keywords_guarded(#[trigger] keyword_levels(levels, defs, dfas, lex).0[l].alternatives[a].symbols, defs, dfas),
    decreases levels.len(),
{
    if levels.len() > 0 {
        let init = levels.drop_last();
        assert forall|l: int, a: int| 0 <= l < init.len() && 0 <= a < init[l].alternatives.len()
            implies all_references_resolved(#[trigger] init[l].alternatives[a].symbols, defs.len() as int) by {
            assert(init[l] == levels[l]);
        }
        lemma_keyword_levels_guarded(init, defs, dfas, lex);
        let (xs, lex1) = keyword_levels(init, defs, dfas, lex);
        let last = levels.last();
        assert forall|a: int| 0 <= a < last.alternatives.len() implies all_references_resolved(#[trigger] last.alternatives[a].symbols, defs.len() as int) by {
            assert(last == levels[levels.len() - 1]);
        }
        lemma_keyword_alternatives_guarded(last.alternatives, defs, dfas, lex1);
        let r = keyword_levels(levels, defs, dfas, lex).0;
        assert forall|l: int, a: int| 0 <= l < levels.len() && 0 <= a < r[l].alternatives.len()
            implies all_keywords_guarded(#[trigger] r[l].alternatives[a].symbols, defs, dfas) by {
            if l < init.len() {
                assert(r[l] == xs[l]);
            }
        }
    }
}

proof fn lemma_keyword_rules_guarded(rules: Seq<SpecSyntaxRule>, defs: Seq<SpecDefinition>, dfas: Seq<Seq<SpecDfaState>>, lex: Seq<SpecLexicalRule>)
    requires
        rules_resolved(rules, defs.len() as int),
    ensures
        keyword_rules(rules, defs, dfas, lex).0.len() == rules.len(),
        forall|i: int| 0 <= i < rules.len() ==> (#[trigger] keyword_rules(rules, defs, dfas, lex).0[i]).layout == rules[i].layout,
        forall|i: int, l: int, a: int| 0 <= i < rules.len() && rules[i].layout != SpecLayoutStrategy::NoLayout
            && 0 <= l < keyword_rules(rules, defs, dfas, lex).0[i].priority_levels.len()
            && 0 <= a < keyword_rules(rules, defs, dfas, lex).0[i].priority_levels[l].alternatives.len()
            ==> all_keywords_guarded(#[trigger] keyword_rules(rules, defs, dfas, lex).0[i].priority_levels[l].alternatives[a].symbols, defs, dfas),
    decreases rules.len(),
{
    if rules.len() > 0 {
        let init = rules.drop_last();
        assert forall|i: int, l: int, a: int| 0 <= i < init.len() && 0 <= l < init[i].priority_levels.len()
            && 0 <= a < init[i].priority_levels[l].alternatives.len() && init[i].layout != SpecLayoutStrategy::NoLayout
            implies all_references_resolved(#[trigger] init[i].priority_levels[l].alternatives[a].symbols, defs.len() as int) by {
            assert(init[i] == rules[i]);
        }
        lemma_keyword_rules_guarded(init, defs, dfas, lex);
        let (xs, lex1) = keyword_rules(init, defs, dfas, lex);
        let last = rules.last();
        let r = keyword_rules(rules, defs, dfas, lex).0;
        if last.layout != SpecLayoutStrategy::NoLayout {
            assert forall|l: int, a: int| 0 <= l < last.priority_levels.len() && 0 <= a < last.priority_levels[l].alternatives.len()
                implies all_references_resolved(#[trigger] last.priority_levels[l].alternatives[a].symbols, defs.len() as int) by {
                assert(last == rules[rules.len() - 1]);
            }
            lemma_keyword_levels_guarded(last.priority_levels, defs, dfas, lex1);
        }
        assert forall|i: int| 0 <= i < rules.len() implies (#[trigger] r[i]).layout == rules[i].layout by {
            if i < init.len() {
                assert(r[i] == xs[i]);
                assert(init[i] == rules[i]);
            }
        }
        assert forall|i: int, l: int, a: int| 0 <= i < rules.len() && rules[i].layout != SpecLayoutStrategy::NoLayout
            && 0 <= l < r[i].priority_levels.len() && 0 <= a < r[i].priority_levels[l].alternatives.len()
            implies all_keywords_guarded(#[trigger] r[i].priority_levels[l].alternatives[a].symbols, defs, dfas) by {
            if i < init.len() {
                assert(r[i] == xs[i]);
                assert(init[i] == rules[i]);
            }
        }
    }
}

/// After exact keyword matching, no reference to an identifier-shaped
/// literal is left without its derived restrictions, wherever it stands in
/// an alternative (inside a group, a choice, an option, a repetition or its
/// separator, a label, a binding, an exclusion or a handwritten
/// restriction): each stands under a restriction whose precede operands
/// hold the class of characters that may come before a keyword inside an
/// identifier and whose follow operands hold the class that may come after,
/// as derived from the identifier automata, and the result has the input's
/// rules with their layouts. `@NoLayout` rules are left as they are.
pub proof fn keyword_literals_are_restricted(rules: Seq<SpecSyntaxRule>, lex: Seq<SpecLexicalRule>, defs: Seq<SpecDefinition>, dfas: Seq<Seq<SpecDfaState>>)
    requires
        dfas.len() > 0,
        rules_resolved(rules, defs.len() as int),
    ensures
        exact_keyword_view(rules, lex, defs, dfas).0.len() == rules.len(),
        forall|i: int| 0 <= i < rules.len() ==> (#[trigger] exact_keyword_view(rules, lex, defs, dfas).0[i]).layout == rules[i].layout,
        forall|i: int, l: int, a: int| 0 <= i < rules.len() && rules[i].layout != SpecLayoutStrategy::NoLayout
            && 0 <= l < exact_keyword_view(rules, lex, defs, dfas).0[i].priority_levels.len()
            && 0 <= a < exact_keyword_view(rules, lex, defs, dfas).0[i].priority_levels[l].alternatives.len()
            ==> all_keywords_guarded(#[trigger] exact_keyword_view(rules, lex, defs, dfas).0[i].priority_levels[l].alternatives[a].symbols, defs, dfas),
{
    lemma_keyword_rules_guarded(rules, defs, dfas, lex);
}


// ---------------------------------------------------------------------------
// Every class operand names a lexical rule of the result.

/// Whether `b` is `a` with rules appended.
pub open spec fn lexical_extends(a: Seq<SpecLexicalRule>, b: Seq<SpecLexicalRule>) -> bool {
    a.len() <= b.len() && b.take(a.len() as int) == a
}

/// Whether a non-empty class has a lexical rule named by its text.
pub open spec fn class_defined(lex: Seq<SpecLexicalRule>, ranges: Seq<CharRange>) -> bool {
    ranges.len() > 0 ==> has_rule_named(lex, regex_text(class_regex(ranges)))
}

/// Whether, for every reference to an identifier-shaped literal in `s` at
/// any depth, `lex` defines the rules of its precede and follow classes.
pub open spec fn keyword_classes_defined(s: SpecSymbol, defs: Seq<SpecDefinition>, dfas: Seq<Seq<SpecDfaState>>, lex: Seq<SpecLexicalRule>) -> bool
    decreases s, 1int,
{
    match s {
        SpecSymbol::Identifier(id) => match reference_classes(id, defs, dfas) {
            Some(c) => class_defined(lex, c.0) && class_defined(lex, c.1),
            None => true,
        },
        SpecSymbol::Restricted { symbol, .. } => keyword_classes_defined(*symbol, defs, dfas, lex),
        SpecSymbol::Group(items) => all_keyword_classes_defined(items, defs, dfas, lex),
        SpecSymbol::Alt(items) => all_keyword_classes_defined(items, defs, dfas, lex),
        SpecSymbol::Opt(inner) => keyword_classes_defined(*inner, defs, dfas, lex),
        SpecSymbol::Star(inner, sep) => keyword_classes_defined(*inner, defs, dfas, lex) && match sep {
            Some(y) => keyword_classes_defined(*y, defs, dfas, lex),
            None => true,
        },
        SpecSymbol::Plus(inner, sep) => keyword_classes_defined(*inner, defs, dfas, lex) && match sep {
            Some(y) => keyword_classes_defined(*y, defs, dfas, lex),
            None => true,
        },
        SpecSymbol::Labeled { symbol, .. } => keyword_classes_defined(*symbol, defs, dfas, lex),
        SpecSymbol::Binding { symbol, .. } => keyword_classes_defined(*symbol, defs, dfas, lex),
        SpecSymbol::Exclude { symbol, .. } => keyword_classes_defined(*symbol, defs, dfas, lex),
        _ => true,
    }
}

/// `keyword_classes_defined` for each symbol.
pub open spec fn all_keyword_classes_defined(items: Seq<SpecSymbol>, defs: Seq<SpecDefinition>, dfas: Seq<Seq<SpecDfaState>>, lex: Seq<SpecLexicalRule>) -> bool
    decreases items, 0int,
{
    if items.len() == 0 {
        true
    } else {
        all_keyword_classes_defined(items.drop_last(), defs, dfas, lex) && keyword_classes_defined(items.last(), defs, dfas, lex)
    }
}

proof fn lemma_extends_trans(a: Seq<SpecLexicalRule>, b: Seq<SpecLexicalRule>, c: Seq<SpecLexicalRule>)
    requires
        lexical_extends(a, b),
        lexical_extends(b, c),
    ensures
        lexical_extends(a, c),
{
    assert(c.take(a.len() as int) =~= c.take(b.len() as int).take(a.len() as int));
}

proof fn lemma_named_extends(a: Seq<SpecLexicalRule>, b: Seq<SpecLexicalRule>, name: Seq<char>)
    requires
        lexical_extends(a, b),
        has_rule_named(a, name),
    ensures
        has_rule_named(b, name),
{
    let k = choose|k: int| 0 <= k < a.len() && (#[trigger] a[k]).head.name == name;
    assert(b.take(a.len() as int)[k] == b[k]);
    assert(b[k].head.name == name);
}

proof fn lemma_classes_defined_extends(s: SpecSymbol, defs: Seq<SpecDefinition>, dfas: Seq<Seq<SpecDfaState>>, a: Seq<SpecLexicalRule>, b: Seq<SpecLexicalRule>)
    requires
        lexical_extends(a, b),
        keyword_classes_defined(s, defs, dfas, a),
    ensures
        keyword_classes_defined(s, defs, dfas, b),
    decreases s, 1int,
{
    match s {
        SpecSymbol::Identifier(id) => {
            if let Some(c) = reference_classes(id, defs, dfas) {
                if c.0.len() > 0 {
                    lemma_named_extends(a, b, regex_text(class_regex(c.0)));
                }
                if c.1.len() > 0 {
                    lemma_named_extends(a, b, regex_text(class_regex(c.1)));
                }
            }
        },
        SpecSymbol::Restricted { symbol, .. } => lemma_classes_defined_extends(*symbol, defs, dfas, a, b),
        SpecSymbol::Group(items) => lemma_all_classes_defined_extends(items, defs, dfas, a, b),
        SpecSymbol::Alt(items) => lemma_all_classes_defined_extends(items, defs, dfas, a, b),
        SpecSymbol::Opt(inner) => lemma_classes_defined_extends(*inner, defs, dfas, a, b),
        SpecSymbol::Star(inner, sep) => {
            lemma_classes_defined_extends(*inner, defs, dfas, a, b);
            if let Some(y) = sep {
                lemma_classes_defined_extends(*y, defs, dfas, a, b);
            }
        },
        SpecSymbol::Plus(inner, sep) => {
            lemma_classes_defined_extends(*inner, defs, dfas, a, b);
            if let Some(y) = sep {
                lemma_classes_defined_extends(*y, defs, dfas, a, b);
            }
        },
        SpecSymbol::Labeled { symbol, .. } => lemma_classes_defined_extends(*symbol, defs, dfas, a, b),
        SpecSymbol::Binding { symbol, .. } => lemma_classes_defined_extends(*symbol, defs, dfas, a, b),
        SpecSymbol::Exclude { symbol, .. } => lemma_classes_defined_extends(*symbol, defs, dfas, a, b),
        _ => {},
    }
}

proof fn lemma_all_classes_defined_extends(items: Seq<SpecSymbol>, defs: Seq<SpecDefinition>, dfas: Seq<Seq<SpecDfaState>>, a: Seq<SpecLexicalRule>, b: Seq<SpecLexicalRule>)
    requires
        lexical_extends(a, b),
        all_keyword_classes_defined(items, defs, dfas, a),
    ensures
        all_keyword_classes_defined(items, defs, dfas, b),
    decreases items, 0int,
{
    if items.len() > 0 {
        lemma_all_classes_defined_extends(items.drop_last(), defs, dfas, a, b);
        lemma_classes_defined_extends(items.last(), defs, dfas, a, b);
    }
}

proof fn lemma_operand_defined(ranges: Seq<CharRange>, lex: Seq<SpecLexicalRule>)
    ensures
        lexical_extends(lex, operand_view(ranges, lex).1),
        class_defined(operand_view(ranges, lex).1, ranges),
{
    let r = operand_view(ranges, lex).1;
    if ranges.len() > 0 {
        let name = regex_text(class_regex(ranges));
        if has_rule_named(lex, name) {
            assert(r.take(lex.len() as int) =~= lex);
        } else {
            assert(r == lex.push(class_rule(ranges)));
            assert(r.take(lex.len() as int) =~= lex);
            assert(r[lex.len() as int].head.name == name);
        }
    } else {
        assert(r.take(lex.len() as int) =~= lex);
    }
}

proof fn lemma_extends_refl(a: Seq<SpecLexicalRule>)
    ensures
        lexical_extends(a, a),
{
    assert(a.take(a.len() as int) =~= a);
}

proof fn lemma_keyword_symbol_defined(s: SpecSymbol, defs: Seq<SpecDefinition>, dfas: Seq<Seq<SpecDfaState>>, lex: Seq<SpecLexicalRule>)
    requires
        references_resolved(s, defs.len() as int),
    ensures
        lexical_extends(lex, keyword_symbol(s, defs, dfas, lex).1),
        keyword_classes_defined(keyword_symbol(s, defs, dfas, lex).0, defs, dfas, keyword_symbol(s, defs, dfas, lex).1),
    decreases s, 1int,
{
    lemma_extends_refl(lex);
    match s {
        SpecSymbol::Identifier(id) => {
            assert(definition_index(id) == id.definition->Some_0.0 as int);
            match reference_classes(id, defs, dfas) {
                Some(c) => {
                    let (p, lex1) = operand_view(c.0, lex);
                    let (f, lex2) = operand_view(c.1, lex1);
                    lemma_operand_defined(c.0, lex);
                    lemma_operand_defined(c.1, lex1);
                    lemma_extends_trans(lex, lex1, lex2);
                    if c.0.len() > 0 {
                        lemma_named_extends(lex1, lex2, regex_text(class_regex(c.0)));
                    }
                    let plain = SpecSymbol::Identifier(id);
                    let r = SpecRestrictions { precede: p, excepts: Seq::empty(), follow: f, layout_aware_follow: Seq::empty() };
                    assert(keyword_reference(id, defs, dfas, lex) == (spec_restricted(plain, r), lex2));
                    assert(keyword_classes_defined(plain, defs, dfas, lex2));
                    assert(keyword_classes_defined(spec_restricted(plain, r), defs, dfas, lex2));
                },
                None => {},
            }
        },
        SpecSymbol::Restricted { symbol, restrictions } => {
            lemma_keyword_symbol_defined(*symbol, defs, dfas, lex);
        },
        SpecSymbol::Group(items) => lemma_keyword_symbols_defined(items, defs, dfas, lex),
        SpecSymbol::Alt(items) => lemma_keyword_symbols_defined(items, defs, dfas, lex),
        SpecSymbol::Opt(inner) => lemma_keyword_symbol_defined(*inner, defs, dfas, lex),
        SpecSymbol::Star(inner, sep) => {
            lemma_keyword_symbol_defined(*inner, defs, dfas, lex);
            if let Some(y) = sep {
                let (x, lex1) = keyword_symbol(*inner, defs, dfas, lex);
                lemma_keyword_symbol_defined(*y, defs, dfas, lex1);
                let lex2 = keyword_symbol(*y, defs, dfas, lex1).1;
                lemma_extends_trans(lex, lex1, lex2);
                lemma_classes_defined_extends(x, defs, dfas, lex1, lex2);
            }
        },
        SpecSymbol::Plus(inner, sep) => {
            lemma_keyword_symbol_defined(*inner, defs, dfas, lex);
            if let Some(y) = sep {
                let (x, lex1) = keyword_symbol(*inner, defs, dfas, lex);
                lemma_keyword_symbol_defined(*y, defs, dfas, lex1);
                let lex2 = keyword_symbol(*y, defs, dfas, lex1).1;
                lemma_extends_trans(lex, lex1, lex2);
                lemma_classes_defined_extends(x, defs, dfas, lex1, lex2);
            }
        },
        SpecSymbol::Labeled { symbol, .. } => lemma_keyword_symbol_defined(*symbol, defs, dfas, lex),
        SpecSymbol::Binding { symbol, .. } => lemma_keyword_symbol_defined(*symbol, defs, dfas, lex),
        SpecSymbol::Exclude { symbol, .. } => lemma_keyword_symbol_defined(*symbol, defs, dfas, lex),
        _ => {},
    }
}

proof fn lemma_keyword_symbols_defined(items: Seq<SpecSymbol>, defs: Seq<SpecDefinition>, dfas: Seq<Seq<SpecDfaState>>, lex: Seq<SpecLexicalRule>)
    requires
        all_references_resolved(items, defs.len() as int),
    ensures
        lexical_extends(lex, keyword_symbols(items, defs, dfas, lex).1),
        all_keyword_classes_defined(keyword_symbols(items, defs, dfas, lex).0, defs, dfas, keyword_symbols(items, defs, dfas, lex).1),
    decreases items, 0int,
{
    if items.len() > 0 {
        lemma_keyword_symbols_defined(items.drop_last(), defs, dfas, lex);
        let (xs, lex1) = keyword_symbols(items.drop_last(), defs, dfas, lex);
        lemma_keyword_symbol_defined(items.last(), defs, dfas, lex1);
        let (x, lex2) = keyword_symbol(items.last(), defs, dfas, lex1);
        lemma_extends_trans(lex, lex1, lex2);
        lemma_all_classes_defined_extends(xs, defs, dfas, lex1, lex2);
        assert(xs.push(x).drop_last() =~= xs);
    } else {
        lemma_extends_refl(lex);
    }
}


proof fn lemma_keyword_alternatives_defined(alts: Seq<SpecAlternative>, defs: Seq<SpecDefinition>, dfas: Seq<Seq<SpecDfaState>>, lex: Seq<SpecLexicalRule>)
    requires
        forall|a: int| 0 <= a < alts.len() ==> all_references_resolved(#[trigger] alts[a].symbols, defs.len() as int),
    ensures
        lexical_extends(lex, keyword_alternatives(alts, defs, dfas, lex).1),
        keyword_alternatives(alts, defs, dfas, lex).0.len() == alts.len(),
        forall|a: int| 0 <= a < alts.len()
            ==> all_keyword_classes_defined(#[trigger] keyword_alternatives(alts, defs, dfas, lex).0[a].symbols, defs, dfas,
                keyword_alternatives(alts, defs, dfas, lex).1),
    decreases alts.len(),
{
    if alts.len() > 0 {
        let init = alts.drop_last();
        assert forall|a: int| 0 <= a < init.len() implies all_references_resolved(#[trigger] init[a].symbols, defs.len() as int) by {
            assert(init[a] == alts[a]);
        }
        lemma_keyword_alternatives_defined(init, defs, dfas, lex);
        let (xs, lex1) = keyword_alternatives(init, defs, dfas, lex);
        assert(alts.last() == alts[alts.len() - 1]);
        lemma_keyword_symbols_defined(alts.last().symbols, defs, dfas, lex1);
        let lex2 = keyword_symbols(alts.last().symbols, defs, dfas, lex1).1;
        lemma_extends_trans(lex, lex1, lex2);
        let r = keyword_alternatives(alts, defs, dfas, lex).0;
        assert forall|a: int| 0 <= a < alts.len() implies all_keyword_classes_defined(#[trigger] r[a].symbols, defs, dfas, lex2) by {
            if a < init.len() {
                assert(r[a] == xs[a]);
                lemma_all_classes_defined_extends(xs[a].symbols, defs, dfas, lex1, lex2);
            }
        }
    } else {
        lemma_extends_refl(lex);
    }
}

proof fn lemma_keyword_levels_defined(levels: Seq<SpecPriorityLevel>, defs: Seq<SpecDefinition>, dfas: Seq<Seq<SpecDfaState>>, lex: Seq<SpecLexicalRule>)
    requires
        forall|l: int, a: int| 0 <= l < levels.len() && 0 <= a < levels[l].alternatives.len()
            ==> all_references_resolved(#[trigger] levels[l].alternatives[a].symbols, defs.len() as int),
    ensures
        lexical_extends(lex, keyword_levels(levels, defs, dfas, lex).1),
        keyword_levels(levels, defs, dfas, lex).0.len() == levels.len(),
        forall|l: int, a: int| 0 <= l < levels.len() && 0 <= a < keyword_levels(levels, defs, dfas, lex).0[l].alternatives.len()
            ==> all_keyword_classes_defined(#[trigger] keyword_levels(levels, defs, dfas, lex).0[l].alternatives[a].symbols, defs, dfas,
                keyword_levels(levels, defs, dfas, lex).1),
    decreases levels.len(),
{
    if levels.len() > 0 {
        let init = levels.drop_last();
        assert forall|l: int, a: int| 0 <= l < init.len() && 0 <= a < init[l].alternatives.len()
            implies all_references_resolved(#[trigger] init[l].alternatives[a].symbols, defs.len() as int) by {
            assert(init[l] == levels[l]);
        }
        lemma_keyword_levels_defined(init, defs, dfas, lex);
        let (xs, lex1) = keyword_levels(init, defs, dfas, lex);
        let last = levels.last();
        assert forall|a: int| 0 <= a < last.alternatives.len() implies all_references_resolved(#[trigger] last.alternatives[a].symbols, defs.len() as int) by {
            assert(last == levels[levels.len() - 1]);
        }
        lemma_keyword_alternatives_defined(last.alternatives, defs, dfas, lex1);
        let lex2 = keyword_alternatives(last.alternatives, defs, dfas, lex1).1;
        lemma_extends_trans(lex, lex1, lex2);
        let r = keyword_levels(levels, defs, dfas, lex).0;
        assert forall|l: int, a: int| 0 <= l < levels.len() && 0 <= a < r[l].alternatives.len()
            implies all_keyword_classes_defined(#[trigger] r[l].alternatives[a].symbols, defs, dfas, lex2) by {
            if l < init.len() {
                assert(r[l] == xs[l]);
                lemma_all_classes_defined_extends(xs[l].alternatives[a].symbols, defs, dfas, lex1, lex2);
            }
        }
    } else {
        lemma_extends_refl(lex);
    }
}

proof fn lemma_keyword_rules_defined(rules: Seq<SpecSyntaxRule>, defs: Seq<SpecDefinition>, dfas: Seq<Seq<SpecDfaState>>, lex: Seq<SpecLexicalRule>)
    requires
        rules_resolved(rules, defs.len() as int),
    ensures
        lexical_extends(lex, keyword_rules(rules, defs, dfas, lex).1),
        keyword_rules(rules, defs, dfas, lex).0.len() == rules.len(),
        forall|i: int, l: int, a: int| 0 <= i < rules.len() && rules[i].layout != SpecLayoutStrategy::NoLayout
            && 0 <= l < keyword_rules(rules, defs, dfas, lex).0[i].priority_levels.len()
            && 0 <= a < keyword_rules(rules, defs, dfas, lex).0[i].priority_levels[l].alternatives.len()
            ==> all_keyword_classes_defined(#[trigger] keyword_rules(rules, defs, dfas, lex).0[i].priority_levels[l].alternatives[a].symbols,
                defs, dfas, keyword_rules(rules, defs, dfas, lex).1),
    decreases rules.len(),
{
    if rules.len() > 0 {
        let init = rules.drop_last();
        assert forall|i: int, l: int, a: int| 0 <= i < init.len() && 0 <= l < init[i].priority_levels.len()
            && 0 <= a < init[i].priority_levels[l].alternatives.len() && init[i].layout != SpecLayoutStrategy::NoLayout
            implies all_references_resolved(#[trigger] init[i].priority_levels[l].alternatives[a].symbols, defs.len() as int) by {
            assert(init[i] == rules[i]);
        }
        lemma_keyword_rules_defined(init, defs, dfas, lex);
        let (xs, lex1) = keyword_rules(init, defs, dfas, lex);
        let last = rules.last();
        let lex2 = keyword_rule(last, defs, dfas, lex1).1;
        if last.layout != SpecLayoutStrategy::NoLayout {
            assert forall|l: int, a: int| 0 <= l < last.priority_levels.len() && 0 <= a < last.priority_levels[l].alternatives.len()
                implies all_references_resolved(#[trigger] last.priority_levels[l].alternatives[a].symbols, defs.len() as int) by {
                assert(last == rules[rules.len() - 1]);
            }
            lemma_keyword_levels_defined(last.priority_levels, defs, dfas, lex1);
        } else {
            lemma_extends_refl(lex1);
        }
        lemma_extends_trans(lex, lex1, lex2);
        let r = keyword_rules(rules, defs, dfas, lex).0;
        assert forall|i: int, l: int, a: int| 0 <= i < rules.len() && rules[i].layout != SpecLayoutStrategy::NoLayout
            && 0 <= l < r[i].priority_levels.len() && 0 <= a < r[i].priority_levels[l].alternatives.len()
            implies all_keyword_classes_defined(#[trigger] r[i].priority_levels[l].alternatives[a].symbols, defs, dfas, lex2) by {
            if i < init.len() {
                assert(r[i] == xs[i]);
                assert(init[i] == rules[i]);
                lemma_all_classes_defined_extends(xs[i].priority_levels[l].alternatives[a].symbols, defs, dfas, lex1, lex2);
            }
        }
    } else {
        lemma_extends_refl(lex);
    }
}

/// After exact keyword matching, the lexical rules are the input's with
/// rules appended, and the rule of every class a keyword reference is
/// restricted by is among them: each identifier-shaped literal reference
/// (outside `@NoLayout` rules) has its precede and follow class rules
/// defined in the resulting lexical rules.
pub proof fn keyword_class_rules_are_added(rules: Seq<SpecSyntaxRule>, lex: Seq<SpecLexicalRule>, defs: Seq<SpecDefinition>, dfas: Seq<Seq<SpecDfaState>>)
    requires
        dfas.len() > 0,
        rules_resolved(rules, defs.len() as int),
    ensures
        lexical_extends(lex, exact_keyword_view(rules, lex, defs, dfas).1),
        forall|i: int, l: int, a: int| 0 <= i < rules.len() && rules[i].layout != SpecLayoutStrategy::NoLayout
            && 0 <= l < exact_keyword_view(rules, lex, defs, dfas).0[i].priority_levels.len()
            && 0 <= a < exact_keyword_view(rules, lex, defs, dfas).0[i].priority_levels[l].alternatives.len()
            ==> all_keyword_classes_defined(#[trigger] exact_keyword_view(rules, lex, defs, dfas).0[i].priority_levels[l].alternatives[a].symbols,
                defs, dfas, exact_keyword_view(rules, lex, defs, dfas).1),
{
    lemma_keyword_rules_defined(rules, defs, dfas, lex);
}


// ---------------------------------------------------------------------------
// The rewrite only attaches restrictions.

/// Whether each restriction list of `longer` starts with the one of
/// `shorter`.
pub open spec fn restrictions_extend(shorter: SpecRestrictions, longer: SpecRestrictions) -> bool {
    &&& shorter.precede.len() <= longer.precede.len() && longer.precede.take(shorter.precede.len() as int) == shorter.precede
    &&& shorter.excepts.len() <= longer.excepts.len() && longer.excepts.take(shorter.excepts.len() as int) == shorter.excepts
    &&& shorter.follow.len() <= longer.follow.len() && longer.follow.take(shorter.follow.len() as int) == shorter.follow
    &&& shorter.layout_aware_follow.len() <= longer.layout_aware_follow.len()
        && longer.layout_aware_follow.take(shorter.layout_aware_follow.len() as int) == shorter.layout_aware_follow
}

/// What `longer` adds after `shorter`, list by list.
pub open spec fn restrictions_after(longer: SpecRestrictions, shorter: SpecRestrictions) -> SpecRestrictions {
    SpecRestrictions {
        precede: longer.precede.skip(shorter.precede.len() as int),
        excepts: longer.excepts.skip(shorter.excepts.len() as int),
        follow: longer.follow.skip(shorter.follow.len() as int),
        layout_aware_follow: longer.layout_aware_follow.skip(shorter.layout_aware_follow.len() as int),
    }
}

/// Whether `t` is `s` with restrictions attached and nothing else changed:
/// a reference may gain a restriction around it, a restriction may gain
/// operands after its own (those it absorbs from the reference it
/// restricts), and every other symbol keeps its form, its labels, patterns
/// and separators, with its parts related in the same way.
pub open spec fn attaches(s: SpecSymbol, t: SpecSymbol) -> bool
    decreases s, 1int,
{
    match s {
        SpecSymbol::Identifier(_) => t == s || (t matches SpecSymbol::Restricted { symbol, .. } && *symbol == s),
        SpecSymbol::Restricted { symbol, restrictions } => match t {
            SpecSymbol::Restricted { symbol: ts, restrictions: tr } => {
                &&& restrictions_extend(restrictions, tr)
                &&& (attaches(*symbol, *ts)
                    || attaches(*symbol, SpecSymbol::Restricted { symbol: ts, restrictions: restrictions_after(tr, restrictions) }))
            },
            _ => false,
        },
        SpecSymbol::Group(items) => t matches SpecSymbol::Group(ys) && all_attach(items, ys),
        SpecSymbol::Alt(items) => t matches SpecSymbol::Alt(ys) && all_attach(items, ys),
        SpecSymbol::Opt(inner) => t matches SpecSymbol::Opt(y) && attaches(*inner, *y),
        SpecSymbol::Star(inner, sep) => match t {
            SpecSymbol::Star(y, tsep) => attaches(*inner, *y) && match (sep, tsep) {
                (Some(a), Some(b)) => attaches(*a, *b),
                (None, None) => true,
                _ => false,
            },
            _ => false,
        },
        SpecSymbol::Plus(inner, sep) => match t {
            SpecSymbol::Plus(y, tsep) => attaches(*inner, *y) && match (sep, tsep) {
                (Some(a), Some(b)) => attaches(*a, *b),
                (None, None) => true,
                _ => false,
            },
            _ => false,
        },
        SpecSymbol::Labeled { label, symbol } => t matches SpecSymbol::Labeled { label: l2, symbol: y } && l2 == label && attaches(*symbol, *y),
        SpecSymbol::Binding { pattern, symbol } => t matches SpecSymbol::Binding { pattern: p2, symbol: y } && p2 == pattern && attaches(*symbol, *y),
        SpecSymbol::Exclude { symbol, labels } => t matches SpecSymbol::Exclude { symbol: y, labels: l2 } && l2 == labels && attaches(*symbol, *y),
        _ => t == s,
    }
}

/// `attaches` for each pair of symbols, the two lists of one length.
pub open spec fn all_attach(items: Seq<SpecSymbol>, outs: Seq<SpecSymbol>) -> bool
    decreases items, 0int,
{
    &&& items.len() == outs.len()
    &&& items.len() > 0 ==> all_attach(items.drop_last(), outs.drop_last()) && attaches(items.last(), outs.last())
}

proof fn lemma_extend_merge(r: SpecRestrictions, d: SpecRestrictions)
    ensures
        restrictions_extend(r, merge_view(r, d)),
        restrictions_after(merge_view(r, d), r) == d,
{
    let m = merge_view(r, d);
    assert(m.precede.take(r.precede.len() as int) =~= r.precede);
    assert(m.excepts.take(r.excepts.len() as int) =~= r.excepts);
    assert(m.follow.take(r.follow.len() as int) =~= r.follow);
    assert(m.layout_aware_follow.take(r.layout_aware_follow.len() as int) =~= r.layout_aware_follow);
    assert(m.precede.skip(r.precede.len() as int) =~= d.precede);
    assert(m.excepts.skip(r.excepts.len() as int) =~= d.excepts);
    assert(m.follow.skip(r.follow.len() as int) =~= d.follow);
    assert(m.layout_aware_follow.skip(r.layout_aware_follow.len() as int) =~= d.layout_aware_follow);
}

proof fn lemma_extend_self(r: SpecRestrictions)
    ensures
        restrictions_extend(r, r),
{
    assert(r.precede.take(r.precede.len() as int) =~= r.precede);
    assert(r.excepts.take(r.excepts.len() as int) =~= r.excepts);
    assert(r.follow.take(r.follow.len() as int) =~= r.follow);
    assert(r.layout_aware_follow.take(r.layout_aware_follow.len() as int) =~= r.layout_aware_follow);
}

proof fn lemma_keyword_symbol_attaches(s: SpecSymbol, defs: Seq<SpecDefinition>, dfas: Seq<Seq<SpecDfaState>>, lex: Seq<SpecLexicalRule>)
    requires
        references_resolved(s, defs.len() as int),
    ensures
        attaches(s, keyword_symbol(s, defs, dfas, lex).0),
    decreases s, 1int,
{
    match s {
        SpecSymbol::Identifier(id) => {
            assert(definition_index(id) == id.definition->Some_0.0 as int);
        },
        SpecSymbol::Restricted { symbol, restrictions } => {
            lemma_keyword_symbol_attaches(*symbol, defs, dfas, lex);
            let (inner, lex1) = keyword_symbol(*symbol, defs, dfas, lex);
            match inner {
                SpecSymbol::Restricted { symbol: literal, restrictions: derived } => {
                    lemma_extend_merge(restrictions, derived);
                },
                _ => {
                    lemma_extend_self(restrictions);
                },
            }
        },
        SpecSymbol::Group(items) => lemma_keyword_symbols_attach(items, defs, dfas, lex),
        SpecSymbol::Alt(items) => lemma_keyword_symbols_attach(items, defs, dfas, lex),
        SpecSymbol::Opt(inner) => lemma_keyword_symbol_attaches(*inner, defs, dfas, lex),
        SpecSymbol::Star(inner, sep) => {
            lemma_keyword_symbol_attaches(*inner, defs, dfas, lex);
            if let Some(y) = sep {
                lemma_keyword_symbol_attaches(*y, defs, dfas, keyword_symbol(*inner, defs, dfas, lex).1);
            }
        },
        SpecSymbol::Plus(inner, sep) => {
            lemma_keyword_symbol_attaches(*inner, defs, dfas, lex);
            if let Some(y) = sep {
                lemma_keyword_symbol_attaches(*y, defs, dfas, keyword_symbol(*inner, defs, dfas, lex).1);
            }
        },
        SpecSymbol::Labeled { symbol, .. } => lemma_keyword_symbol_attaches(*symbol, defs, dfas, lex),
        SpecSymbol::Binding { symbol, .. } => lemma_keyword_symbol_attaches(*symbol, defs, dfas, lex),
        SpecSymbol::Exclude { symbol, .. } => lemma_keyword_symbol_attaches(*symbol, defs, dfas, lex),
        _ => {},
    }
}

proof fn lemma_keyword_symbols_attach(items: Seq<SpecSymbol>, defs: Seq<SpecDefinition>, dfas: Seq<Seq<SpecDfaState>>, lex: Seq<SpecLexicalRule>)
    requires
        all_references_resolved(items, defs.len() as int),
    ensures
        all_attach(items, keyword_symbols(items, defs, dfas, lex).0),
    decreases items, 0int,
{
    lemma_keyword_symbols_guarded(items, defs, dfas, lex);
    if items.len() > 0 {
        lemma_keyword_symbols_attach(items.drop_last(), defs, dfas, lex);
        let (xs, lex1) = keyword_symbols(items.drop_last(), defs, dfas, lex);
        lemma_keyword_symbol_attaches(items.last(), defs, dfas, lex1);
        let (x, lex2) = keyword_symbol(items.last(), defs, dfas, lex1);
        assert(xs.push(x).drop_last() =~= xs);
    }
}

/// `attaches` for the symbols of two alternatives of one label.
pub open spec fn alternative_attaches(a: SpecAlternative, b: SpecAlternative) -> bool {
    a.label == b.label && all_attach(a.symbols, b.symbols)
}

/// Two levels of one associativity whose alternatives pair up by
/// `alternative_attaches`.
pub open spec fn level_attaches(a: SpecPriorityLevel, b: SpecPriorityLevel) -> bool {
    &&& a.associativity == b.associativity
    &&& a.alternatives.len() == b.alternatives.len()
    &&& forall|k: int| 0 <= k < a.alternatives.len() ==> alternative_attaches(#[trigger] a.alternatives[k], b.alternatives[k])
}

/// Two rules of one head and one layout whose levels pair up by
/// `level_attaches`.
pub open spec fn rule_attaches(a: SpecSyntaxRule, b: SpecSyntaxRule) -> bool {
    &&& a.head == b.head
    &&& a.layout == b.layout
    &&& a.priority_levels.len() == b.priority_levels.len()
    &&& forall|l: int| 0 <= l < a.priority_levels.len() ==> level_attaches(#[trigger] a.priority_levels[l], b.priority_levels[l])
}

proof fn lemma_keyword_alternatives_attach(alts: Seq<SpecAlternative>, defs: Seq<SpecDefinition>, dfas: Seq<Seq<SpecDfaState>>, lex: Seq<SpecLexicalRule>)
    requires
        forall|a: int| 0 <= a < alts.len() ==> all_references_resolved(#[trigger] alts[a].symbols, defs.len() as int),
    ensures
        keyword_alternatives(alts, defs, dfas, lex).0.len() == alts.len(),
        forall|a: int| 0 <= a < alts.len()
            ==> alternative_attaches(#[trigger] alts[a], keyword_alternatives(alts, defs, dfas, lex).0[a]),
    decreases alts.len(),
{
    if alts.len() > 0 {
        let init = alts.drop_last();
        assert forall|a: int| 0 <= a < init.len() implies all_references_resolved(#[trigger] init[a].symbols, defs.len() as int) by {
            assert(init[a] == alts[a]);
        }
        lemma_keyword_alternatives_attach(init, defs, dfas, lex);
        let (xs, lex1) = keyword_alternatives(init, defs, dfas, lex);
        assert(alts.last() == alts[alts.len() - 1]);
        lemma_keyword_symbols_attach(alts.last().symbols, defs, dfas, lex1);
        let r = keyword_alternatives(alts, defs, dfas, lex).0;
        assert forall|a: int| 0 <= a < alts.len() implies alternative_attaches(#[trigger] alts[a], r[a]) by {
            if a < init.len() {
                assert(r[a] == xs[a]);
                assert(init[a] == alts[a]);
            }
        }
    }
}

proof fn lemma_keyword_levels_attach(levels: Seq<SpecPriorityLevel>, defs: Seq<SpecDefinition>, dfas: Seq<Seq<SpecDfaState>>, lex: Seq<SpecLexicalRule>)
    requires
        forall|l: int, a: int| 0 <= l < levels.len() && 0 <= a < levels[l].alternatives.len()
            ==> all_references_resolved(#[trigger] levels[l].alternatives[a].symbols, defs.len() as int),
    ensures
        keyword_levels(levels, defs, dfas, lex).0.len() == levels.len(),
        forall|l: int| 0 <= l < levels.len() ==> level_attaches(#[trigger] levels[l], keyword_levels(levels, defs, dfas, lex).0[l]),
    decreases levels.len(),
{
    if levels.len() > 0 {
        let init = levels.drop_last();
        assert forall|l: int, a: int| 0 <= l < init.len() && 0 <= a < init[l].alternatives.len()
            implies all_references_resolved(#[trigger] init[l].alternatives[a].symbols, defs.len() as int) by {
            assert(init[l] == levels[l]);
        }
        lemma_keyword_levels_attach(init, defs, dfas, lex);
        let (xs, lex1) = keyword_levels(init, defs, dfas, lex);
        let last = levels.last();
        assert forall|a: int| 0 <= a < last.alternatives.len() implies all_references_resolved(#[trigger] last.alternatives[a].symbols, defs.len() as int) by {
            assert(last == levels[levels.len() - 1]);
        }
        lemma_keyword_alternatives_attach(last.alternatives, defs, dfas, lex1);
        let r = keyword_levels(levels, defs, dfas, lex).0;
        assert forall|l: int| 0 <= l < levels.len() implies level_attaches(#[trigger] levels[l], r[l]) by {
            if l < init.len() {
                assert(r[l] == xs[l]);
                assert(init[l] == levels[l]);
            } else {
                assert(levels[l] == last);
            }
        }
    }
}

proof fn lemma_keyword_rules_attach(rules: Seq<SpecSyntaxRule>, defs: Seq<SpecDefinition>, dfas: Seq<Seq<SpecDfaState>>, lex: Seq<SpecLexicalRule>)
    requires
        rules_resolved(rules, defs.len() as int),
    ensures
        keyword_rules(rules, defs, dfas, lex).0.len() == rules.len(),
        forall|i: int| 0 <= i < rules.len() && rules[i].layout == SpecLayoutStrategy::NoLayout
            ==> #[trigger] keyword_rules(rules, defs, dfas, lex).0[i] == rules[i],
        forall|i: int| 0 <= i < rules.len() ==> rule_attaches(#[trigger] rules[i], keyword_rules(rules, defs, dfas, lex).0[i]),
    decreases rules.len(),
{
    if rules.len() > 0 {
        let init = rules.drop_last();
        assert forall|i: int, l: int, a: int| 0 <= i < init.len() && 0 <= l < init[i].priority_levels.len()
            && 0 <= a < init[i].priority_levels[l].alternatives.len() && init[i].layout != SpecLayoutStrategy::NoLayout
            implies all_references_resolved(#[trigger] init[i].priority_levels[l].alternatives[a].symbols, defs.len() as int) by {
            assert(init[i] == rules[i]);
        }
        lemma_keyword_rules_attach(init, defs, dfas, lex);
        let (xs, lex1) = keyword_rules(init, defs, dfas, lex);
        let last = rules.last();
        let r = keyword_rules(rules, defs, dfas, lex).0;
        assert(last == rules[rules.len() - 1]);
        if last.layout != SpecLayoutStrategy::NoLayout {
            assert forall|l: int, a: int| 0 <= l < last.priority_levels.len() && 0 <= a < last.priority_levels[l].alternatives.len()
                implies all_references_resolved(#[trigger] last.priority_levels[l].alternatives[a].symbols, defs.len() as int) by {
            }
            lemma_keyword_levels_attach(last.priority_levels, defs, dfas, lex1);
        } else {
            assert forall|l: int| 0 <= l < last.priority_levels.len() implies level_attaches(#[trigger] last.priority_levels[l], last.priority_levels[l]) by {
                let lv = last.priority_levels[l];
                assert forall|k: int| 0 <= k < lv.alternatives.len() implies alternative_attaches(#[trigger] lv.alternatives[k], lv.alternatives[k]) by {
                    lemma_all_attach_refl(lv.alternatives[k].symbols);
                }
            }
        }
        assert forall|i: int| 0 <= i < rules.len() && rules[i].layout == SpecLayoutStrategy::NoLayout implies #[trigger] r[i] == rules[i] by {
            if i < init.len() {
                assert(r[i] == xs[i]);
                assert(init[i] == rules[i]);
            }
        }
        assert forall|i: int| 0 <= i < rules.len() implies rule_attaches(#[trigger] rules[i], r[i]) by {
            if i < init.len() {
                assert(r[i] == xs[i]);
                assert(init[i] == rules[i]);
            }
        }
    }
}

proof fn lemma_attaches_refl(s: SpecSymbol)
    ensures
        attaches(s, s),
    decreases s, 1int,
{
    match s {
        SpecSymbol::Restricted { symbol, restrictions } => {
            lemma_attaches_refl(*symbol);
            lemma_extend_self(restrictions);
        },
        SpecSymbol::Group(items) => lemma_all_attach_refl(items),
        SpecSymbol::Alt(items) => lemma_all_attach_refl(items),
        SpecSymbol::Opt(inner) => lemma_attaches_refl(*inner),
        SpecSymbol::Star(inner, sep) => {
            lemma_attaches_refl(*inner);
            if let Some(y) = sep {
                lemma_attaches_refl(*y);
            }
        },
        SpecSymbol::Plus(inner, sep) => {
            lemma_attaches_refl(*inner);
            if let Some(y) = sep {
                lemma_attaches_refl(*y);
            }
        },
        SpecSymbol::Labeled { symbol, .. } => lemma_attaches_refl(*symbol),
        SpecSymbol::Binding { symbol, .. } => lemma_attaches_refl(*symbol),
        SpecSymbol::Exclude { symbol, .. } => lemma_attaches_refl(*symbol),
        _ => {},
    }
}

proof fn lemma_all_attach_refl(items: Seq<SpecSymbol>)
    ensures
        all_attach(items, items),
    decreases items, 0int,
{
    if items.len() > 0 {
        lemma_all_attach_refl(items.drop_last());
        lemma_attaches_refl(items.last());
    }
}

/// Exact keyword matching changes no rule but by attaching restrictions:
/// each rule of the result has the input rule's head, layout, levels with
/// their associativity and alternatives with their labels, and each
/// alternative's symbols are the input's with restrictions attached
/// (`attaches`): no symbol is dropped, added, reordered or replaced.
/// `@NoLayout` rules come out as they went in.
pub proof fn keyword_rewrite_only_attaches_restrictions(rules: Seq<SpecSyntaxRule>, lex: Seq<SpecLexicalRule>, defs: Seq<SpecDefinition>, dfas: Seq<Seq<SpecDfaState>>)
    requires
        rules_resolved(rules, defs.len() as int),
    ensures
        exact_keyword_view(rules, lex, defs, dfas).0.len() == rules.len(),
        forall|i: int| 0 <= i < rules.len() && rules[i].layout == SpecLayoutStrategy::NoLayout
            ==> #[trigger] exact_keyword_view(rules, lex, defs, dfas).0[i] == rules[i],
        forall|i: int| 0 <= i < rules.len() ==> rule_attaches(#[trigger] rules[i], exact_keyword_view(rules, lex, defs, dfas).0[i]),
{
    if dfas.len() > 0 {
        lemma_keyword_rules_attach(rules, defs, dfas, lex);
    } else {
        assert forall|i: int| 0 <= i < rules.len() implies rule_attaches(#[trigger] rules[i], rules[i]) by {
            let r = rules[i];
            assert forall|l: int| 0 <= l < r.priority_levels.len() implies level_attaches(#[trigger] r.priority_levels[l], r.priority_levels[l]) by {
                let lv = r.priority_levels[l];
                assert forall|k: int| 0 <= k < lv.alternatives.len() implies alternative_attaches(#[trigger] lv.alternatives[k], lv.alternatives[k]) by {
                    lemma_all_attach_refl(lv.alternatives[k].symbols);
                }
            }
        }
    }
}

} // verus!
