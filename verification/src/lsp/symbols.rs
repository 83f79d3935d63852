//! The definition under a cursor.
use vstd::prelude::*;
use crate::grammar::symbols::{DefinitionId, Identifier, SpecIdentifier};

verus! {

/// A byte range `[left_extent, right_extent)` of the source.
#[derive(Debug, Clone, Copy, PartialEq, Eq, Structural)]
pub struct Span {
    pub left_extent: u32,
    pub right_extent: u32,
}

/// Where the definitions and the identifier references of a grammar stand
/// in its source.
pub struct GrammarSpans {
    pub definition_spans: Vec<(DefinitionId, Span)>,
    pub identifiers: Vec<(Identifier, Span)>,
}

/// Whether `offset` lies in the span.
pub open spec fn covers(span: Span, offset: u32) -> bool {
    span.left_extent <= offset && offset < span.right_extent
}

/// The index of the first entry whose span covers `offset`, among the
/// first `n`.
pub open spec fn first_covering<T>(entries: Seq<(T, Span)>, offset: u32, n: int) -> Option<int>
    decreases n,
{
    if n <= 0 {
        None
    } else {
        match first_covering(entries, offset, n - 1) {
            Some(k) => Some(k),
            None => if covers(entries[n - 1].1, offset) { Some(n - 1) } else { None },
        }
    }
}

/// Once found, the first covering entry stays the first.
proof fn lemma_first_covering_stays<T>(entries: Seq<(T, Span)>, offset: u32, m: int, n: int)
    requires
        0 <= m <= n,
        first_covering(entries, offset, m) is Some,
    ensures
        first_covering(entries, offset, n) == first_covering(entries, offset, m),
    decreases n - m,
{
    if n > m {
        lemma_first_covering_stays(entries, offset, m, n - 1);
    }
}

/// The definition at `offset`: a definition whose span covers it, else the
/// definition an identifier covering it resolves to, else none. Rule heads
/// come first; among several candidates, the first listed wins.
pub open spec fn definition_at_offset_view(spans: Seq<(DefinitionId, Span)>, identifiers: Seq<(SpecIdentifier, Span)>, offset: u32) -> Option<DefinitionId> {
    match first_covering(spans, offset, spans.len() as int) {
        Some(k) => Some(spans[k].0),
        None => match first_covering(identifiers, offset, identifiers.len() as int) {
            Some(k) => identifiers[k].0.definition,
            None => None,
        },
    }
}

/// The views of the identifier entries.
pub open spec fn identifier_spans_view(v: Seq<(Identifier, Span)>) -> Seq<(SpecIdentifier, Span)> {
    v.map_values(|p: (Identifier, Span)| (p.0@, p.1))
}

/// Determines the definition of the symbol at the given byte offset: rule
/// heads first, then identifier references; see
/// `definition_at_offset_view`.
pub fn find_definition_at_offset(spans: &GrammarSpans, offset: u32) -> (r: Option<DefinitionId>)
    ensures
        r == definition_at_offset_view(spans.definition_spans@, identifier_spans_view(spans.identifiers@), offset),
{
    let ghost ds = spans.definition_spans@;
    let mut i: usize = 0;
    while i < spans.definition_spans.len()
        invariant
            0 <= i <= ds.len(),
            ds == spans.definition_spans@,
            first_covering(ds, offset, i as int) is None,
        decreases ds.len() - i,
    {
        let (def_id, span) = spans.definition_spans[i];
        if offset >= span.left_extent && offset < span.right_extent {
            proof {
                assert(first_covering(ds, offset, i + 1) == Some(i as int));
                lemma_first_covering_stays(ds, offset, i + 1, ds.len() as int);
            }
            return Some(def_id);
        }
        i += 1;
    }
    let ghost ids = identifier_spans_view(spans.identifiers@);
    let mut k: usize = 0;
    while k < spans.identifiers.len()
        invariant
            0 <= k <= ids.len(),
            ids == identifier_spans_view(spans.identifiers@),
            first_covering(ds, offset, ds.len() as int) is None,
            ds == spans.definition_spans@,
            first_covering(ids, offset, k as int) is None,
        decreases ids.len() - k,
    {
        let entry = &spans.identifiers[k];
        assert(ids[k as int] == (entry.0@, entry.1));
        if offset >= entry.1.left_extent && offset < entry.1.right_extent {
            proof {
                assert(first_covering(ids, offset, k + 1) == Some(k as int));
                lemma_first_covering_stays(ids, offset, k + 1, ids.len() as int);
            }
            return entry.0.definition;
        }
        k += 1;
    }
    None
}

} // verus!
