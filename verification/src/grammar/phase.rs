//! The stages of the grammar transformation pipeline whose output can be shown.
use vstd::prelude::*;
use crate::text::{push_char, push_str, str_eq};

verus! {

/// A stage of the grammar transformation pipeline, in the order the pipeline
/// runs them.
#[derive(Debug, Clone, Copy, PartialEq, Eq, Hash, Structural)]
pub enum Phase {
    Resolve,
    Keywords,
    Ebnf,
    Exclude,
    Precedence,
    Layout,
}

/// The token of a phase on the command line.
pub open spec fn phase_token(p: Phase) -> Seq<char> {
    match p {
        Phase::Resolve => "resolve"@,
        Phase::Keywords => "keywords"@,
        Phase::Ebnf => "ebnf"@,
        Phase::Exclude => "exclude"@,
        Phase::Precedence => "precedence"@,
        Phase::Layout => "layout"@,
    }
}

/// What a phase shows.
pub open spec fn phase_description(p: Phase) -> Seq<char> {
    match p {
        Phase::Resolve => "identifier resolution"@,
        Phase::Keywords => "exact keyword matching"@,
        Phase::Ebnf => "EBNF-to-BNF expansion"@,
        Phase::Exclude => "exclude desugaring"@,
        Phase::Precedence => "precedence desugaring"@,
        Phase::Layout => "layout insertion and start wrapping"@,
    }
}

/// Every phase, in pipeline order.
pub open spec fn all_phases() -> Seq<Phase> {
    seq![Phase::Resolve, Phase::Keywords, Phase::Ebnf, Phase::Exclude, Phase::Precedence, Phase::Layout]
}

/// The phase whose token is `s`, if any.
pub open spec fn phase_of_token(s: Seq<char>) -> Option<Phase> {
    if exists|k: int| 0 <= k < 6 && phase_token(#[trigger] all_phases()[k]) == s {
        Some(all_phases()[choose|k: int| 0 <= k < 6 && phase_token(#[trigger] all_phases()[k]) == s])
    } else {
        None
    }
}

/// No two phases share a token.
proof fn lemma_tokens_distinct()
    ensures
        forall|p: Phase, q: Phase| phase_token(p) == phase_token(q) ==> p == q,
{
    reveal_strlit("resolve");
    reveal_strlit("keywords");
    reveal_strlit("ebnf");
    reveal_strlit("exclude");
    reveal_strlit("precedence");
    reveal_strlit("layout");
    assert forall|p: Phase, q: Phase| phase_token(p) == phase_token(q) implies p == q by {
        if p != q {
            let a = phase_token(p);
            let b = phase_token(q);
            assert(a.len() != b.len() || a[0] != b[0] || a[1] != b[1]);
        }
    }
}

/// Reading back a phase's token gives the phase.
pub proof fn token_round_trip(p: Phase)
    ensures
        phase_of_token(phase_token(p)) == Some(p),
{
    lemma_tokens_distinct();
    let k: int = match p {
        Phase::Resolve => 0,
        Phase::Keywords => 1,
        Phase::Ebnf => 2,
        Phase::Exclude => 3,
        Phase::Precedence => 4,
        Phase::Layout => 5,
    };
    assert(all_phases()[k] == p);
}

/// The error for a token that names no phase.
pub open spec fn unknown_phase_message(token: Seq<char>) -> Seq<char> {
    "unknown phase `"@ + token + seq!['`']
}

impl Phase {
    /// Every phase, in the order the pipeline runs them.
    pub fn all() -> (phases: Vec<Phase>)
        ensures
            phases@ == all_phases(),
    {
        let phases = vec![Phase::Resolve, Phase::Keywords, Phase::Ebnf, Phase::Exclude, Phase::Precedence, Phase::Layout];
        assert(phases@ =~= all_phases());
        phases
    }

    /// The token accepted on the command line.
    pub fn token(self) -> (t: &'static str)
        ensures
            t@ == phase_token(self),
    {
        match self {
            Phase::Resolve => "resolve",
            Phase::Keywords => "keywords",
            Phase::Ebnf => "ebnf",
            Phase::Exclude => "exclude",
            Phase::Precedence => "precedence",
            Phase::Layout => "layout",
        }
    }

    /// What the phase shows, used in the dump header and the phase listing.
    pub fn description(self) -> (d: &'static str)
        ensures
            d@ == phase_description(self),
    {
        match self {
            Phase::Resolve => "identifier resolution",
            Phase::Keywords => "exact keyword matching",
            Phase::Ebnf => "EBNF-to-BNF expansion",
            Phase::Exclude => "exclude desugaring",
            Phase::Precedence => "precedence desugaring",
            Phase::Layout => "layout insertion and start wrapping",
        }
    }

    /// The phase whose token is `s`; an error naming `s` when there is none.
    pub fn from_token(s: &str) -> (r: Result<Phase, String>)
        ensures
            match r {
                Ok(p) => phase_of_token(s@) == Some(p),
                Err(e) => phase_of_token(s@) == None::<Phase> && e@ == unknown_phase_message(s@),
            },
    {
        let phases = Phase::all();
        let mut i: usize = 0;
        while i < phases.len()
            invariant
                0 <= i <= 6,
                phases@ == all_phases(),
                forall|m: int| 0 <= m < i ==> phase_token(#[trigger] all_phases()[m]) != s@,
            decreases 6 - i,
        {
            let p = phases[i];
            if str_eq(p.token(), s) {
                proof {
                    lemma_tokens_distinct();
                }
                return Ok(p);
            }
            i += 1;
        }
        let mut e = String::new();
        push_str(&mut e, "unknown phase `");
        push_str(&mut e, s);
        push_char(&mut e, '`');
        Err(e)
    }
}

impl core::str::FromStr for Phase {
    type Err = String;

    fn from_str(s: &str) -> (r: Result<Phase, String>)
        ensures
            match r {
                Ok(p) => phase_of_token(s@) == Some(p),
                Err(e) => phase_of_token(s@) == None::<Phase> && e@ == unknown_phase_message(s@),
            },
    {
        Phase::from_token(s)
    }
}

} // verus!
